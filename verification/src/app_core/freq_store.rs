//! Launch frequencies: the table of launch counts by application id, and its
//! JSON form as it is persisted between runs.

use crate::app_core::json_text::{
    json_counts_members, json_counts_pretty, keys_unique, lemma_pretty_read_back, members_map,
};
use std::collections::HashMap;
use vstd::prelude::*;

verus! {

/// The map that a sequence of `(id, count)` pairs describes; a later pair
/// for the same id replaces an earlier one.
pub open spec fn pairs_to_map(s: Seq<(String, u64)>) -> Map<Seq<char>, u64>
    decreases s.len(),
{
    if s.len() == 0 {
        Map::empty()
    } else {
        pairs_to_map(s.drop_last()).insert(s.last().0@, s.last().1)
    }
}

/// The launch count recorded for `id`, zero when none is recorded.
pub open spec fn launch_count(counts: Map<Seq<char>, u64>, id: Seq<char>) -> u64 {
    if counts.contains_key(id) {
        counts[id]
    } else {
        0
    }
}

/// Pairs after position `i` that do not name `k` leave its entry as the
/// pairs up to `i` describe it.
proof fn lemma_pairs_suffix(s: Seq<(String, u64)>, i: int, k: Seq<char>)
    requires
        0 <= i <= s.len(),
        forall|j: int| i <= j < s.len() ==> (#[trigger] s[j]).0@ != k,
    ensures
        pairs_to_map(s).contains_key(k) == pairs_to_map(s.take(i)).contains_key(k),
        pairs_to_map(s)[k] == pairs_to_map(s.take(i))[k],
    decreases s.len(),
{
    if i == s.len() {
        assert(s.take(i) =~= s);
    } else {
        let d = s.drop_last();
        assert(s[s.len() - 1].0@ != k);
        assert(forall|j: int| i <= j < d.len() ==> d[j] == s[j]);
        lemma_pairs_suffix(d, i, k);
        assert(d.take(i) =~= s.take(i));
    }
}

/// Replacing the last pair for `k` replaces its entry in the map.
proof fn lemma_pairs_update(s: Seq<(String, u64)>, i: int, p: (String, u64))
    requires
        0 <= i < s.len(),
        s[i].0@ == p.0@,
        forall|j: int| i < j < s.len() ==> (#[trigger] s[j]).0@ != p.0@,
    ensures
        pairs_to_map(s.update(i, p)) =~= pairs_to_map(s).insert(p.0@, p.1),
    decreases s.len(),
{
    let u = s.update(i, p);
    if i == s.len() - 1 {
        assert(u.drop_last() =~= s.drop_last());
    } else {
        let d = s.drop_last();
        assert(u.drop_last() =~= d.update(i, p));
        assert(forall|j: int| i < j < d.len() ==> d[j] == s[j]);
        lemma_pairs_update(d, i, p);
        assert(s[s.len() - 1].0@ != p.0@);
    }
}

/// Launch counts by application id.
#[derive(Debug)]
pub struct FrequencyTable {
    entries: Vec<(String, u64)>,
}

impl View for FrequencyTable {
    type V = Map<Seq<char>, u64>;

    closed spec fn view(&self) -> Map<Seq<char>, u64> {
        pairs_to_map(self.entries@)
    }
}

impl FrequencyTable {
    /// An empty table.
    pub fn new() -> (r: Self)
        ensures
            r@ == Map::<Seq<char>, u64>::empty(),
    {
        FrequencyTable { entries: Vec::new() }
    }

    /// The table of the given pairs; for an id named twice, the later pair
    /// counts.
    pub fn from_entries(entries: Vec<(String, u64)>) -> (r: Self)
        ensures
            r@ == pairs_to_map(entries@),
    {
        let mut table = FrequencyTable::new();
        let mut i: usize = 0;
        while i < entries.len()
            invariant
                i <= entries.len(),
                table@ == pairs_to_map(entries@.take(i as int)),
            decreases entries.len() - i,
        {
            let id = entries[i].0.clone();
            let count = entries[i].1;
            table.insert(id, count);
            assert(entries@.take(i + 1).drop_last() =~= entries@.take(i as int));
            i = i + 1;
        }
        assert(entries@.take(i as int) =~= entries@);
        table
    }

    /// The recorded `(id, count)` pairs; no id occurs twice when the table
    /// was built by this type's operations.
    pub fn entries(&self) -> (r: &Vec<(String, u64)>)
        ensures
            pairs_to_map(r@) == self@,
    {
        &self.entries
    }

    /// The position of the last pair for `id`, if any.
    fn position(&self, id: &String) -> (r: Option<usize>)
        ensures
            match r {
                Some(i) => i < self.entries.len() && self.entries@[i as int].0@ == id@ && forall|
                    j: int,
                | i < j < self.entries.len() ==> (#[trigger] self.entries@[j]).0@ != id@,
                None => forall|j: int|
                    0 <= j < self.entries.len() ==> (#[trigger] self.entries@[j]).0@ != id@,
            },
    {
        let mut i = self.entries.len();
        while i > 0
            invariant
                i <= self.entries.len(),
                forall|j: int| i <= j < self.entries.len() ==> (#[trigger] self.entries@[j]).0@ != id@,
            decreases i,
        {
            if self.entries[i - 1].0 == *id {
                return Some(i - 1);
            }
            i = i - 1;
        }
        None
    }

    /// The launch count recorded for `id`, zero when none is recorded.
    pub fn count(&self, id: &str) -> (r: u64)
        ensures
            r == launch_count(self@, id@),
    {
        let key = id.to_owned();
        match self.position(&key) {
            Some(i) => {
                proof {
                    let s = self.entries@;
                    lemma_pairs_suffix(s, i + 1, id@);
                    assert(s.take(i + 1).drop_last() =~= s.take(i as int));
                }
                self.entries[i].1
            },
            None => {
                proof {
                    lemma_pairs_suffix(self.entries@, 0, id@);
                }
                0
            },
        }
    }

    /// Records `count` as the launch count of `id`.
    pub fn insert(&mut self, id: String, count: u64)
        ensures
            final(self)@ == old(self)@.insert(id@, count),
    {
        match self.position(&id) {
            Some(i) => {
                proof {
                    lemma_pairs_update(self.entries@, i as int, (id, count));
                }
                self.entries.set(i, (id, count));
            },
            None => {
                let ghost s = self.entries@;
                self.entries.push((id, count));
                assert(self.entries@.drop_last() =~= s);
            },
        }
    }

    /// Adds one launch to the count of `id`.
    pub fn record_launch(&mut self, id: &str)
        requires
            launch_count(old(self)@, id@) < u64::MAX,
        ensures
            final(self)@ == old(self)@.insert(id@, (launch_count(old(self)@, id@) + 1) as u64),
    {
        let current = self.count(id);
        self.insert(id.to_owned(), current + 1);
    }
}

/// `serde_json::Error`, carried through the library as an opaque value.
#[verifier::external_type_specification]
#[verifier::external_body]
pub struct ExJsonError(serde_json::Error);

/// The launch counts that a JSON text holds, when it is a JSON object whose
/// values are unsigned 64-bit integers; none otherwise.
pub uninterp spec fn json_launch_counts(text: Seq<char>) -> Option<Map<Seq<char>, u64>>;

/// `serde_json::from_str::<HashMap<String, u64>>`, its pairs handed out in
/// the map's order. The contract names what the text decodes to; the
/// pairs, having no id twice, describe that map in any order. On a text that
/// `json_counts_members` reads (white space of space, tab, line feed and
/// carriage return; keys as JSON strings with the standard escapes, `\u`
/// escapes of characters outside the surrogates, no raw control characters;
/// counts as integers without sign, fraction, exponent or leading zero that
/// fit in 64 bits; nothing after the closing brace but white space),
/// serde_json succeeds, and its map holds each key as the string denotes it,
/// with the count of the last member of that key, as `HashMap::insert`
/// fills it member by member. What serde_json makes of other texts (such as
/// a surrogate pair in a `\u` escape, or a count written `-0`) is only
/// named.
#[verifier::external_body]
fn counts_from_json(text: &str) -> (r: Result<Vec<(String, u64)>, serde_json::Error>)
    ensures
        match r {
            Ok(pairs) => json_launch_counts(text@) == Some(pairs_to_map(pairs@)),
            Err(_) => json_launch_counts(text@) is None,
        },
        r is Ok || json_counts_members(text@) is None,
        r matches Ok(pairs) ==> (json_counts_members(text@) matches Some(ms) ==> pairs_to_map(pairs@)
            == members_map(ms)),
{
    serde_json::from_str::<HashMap<String, u64>>(text).map(|m| m.into_iter().collect())
}

/// `serde_json::to_string_pretty` of the map of the given pairs (a later
/// pair for an id replacing an earlier one as the map is filled). The text
/// lists the pairs in the hash map's iteration order, which each process
/// seeds anew, so the text itself is not stated; what is stated is that it
/// reads back, through `serde_json::from_str`, as the same map: keys are
/// written as escaped JSON strings and counts as decimal integers. It
/// succeeds: the documented failures are a `Serialize` impl that fails or a
/// map with non-string keys, and neither `String`, `u64` nor a map with
/// `String` keys fails; writing into the in-memory buffer cannot fail.
/// The text is the pretty layout (`{}` for no pairs, else one member per
/// line indented by two spaces, `"key": count`, and `}` on a line of its
/// own) of the map's members in some order, each id once and unchanged
/// but for JSON's escapes, each with its count.
#[verifier::external_body]
fn counts_to_json(pairs: &Vec<(String, u64)>) -> (r: Result<String, serde_json::Error>)
    ensures
        r is Ok,
        r matches Ok(text) ==> json_launch_counts(text@) == Some(pairs_to_map(pairs@)),
        r matches Ok(text) ==> exists|ms: Seq<(Seq<char>, u64)>|
            text@ == #[trigger] json_counts_pretty(ms) && keys_unique(ms) && members_map(ms)
                == pairs_to_map(pairs@),
{
    let map: HashMap<String, u64> = pairs.iter().cloned().collect();
    serde_json::to_string_pretty(&map)
}

/// The launch-frequency file's content was not valid.
#[derive(Debug)]
pub struct InvalidFrequencyData(pub serde_json::Error);

/// Reads launch counts from the JSON text of the frequency file.
pub fn parse_frequencies(content: &str) -> (r: Result<FrequencyTable, InvalidFrequencyData>)
    ensures
        match r {
            Ok(table) => json_launch_counts(content@) == Some(table@),
            Err(_) => json_launch_counts(content@) is None,
        },
        json_counts_members(content@) matches Some(ms) ==> (r matches Ok(table) && table@
            == members_map(ms)),
{
    match counts_from_json(content) {
        Ok(pairs) => Ok(FrequencyTable::from_entries(pairs)),
        Err(err) => Err(InvalidFrequencyData(err)),
    }
}

/// The JSON text under which the launch counts are persisted; it is always
/// produced, and it reads back as the same counts.
pub fn render_frequencies(table: &FrequencyTable) -> (r: Result<String, InvalidFrequencyData>)
    ensures
        r is Ok,
        r matches Ok(text) ==> json_launch_counts(text@) == Some(table@),
        r matches Ok(text) ==> exists|ms: Seq<(Seq<char>, u64)>|
            text@ == #[trigger] json_counts_pretty(ms) && keys_unique(ms) && members_map(ms)
                == table@,
{
    match counts_to_json(table.entries()) {
        Ok(text) => Ok(text),
        Err(err) => Err(InvalidFrequencyData(err)),
    }
}

/// What `render_frequencies` writes, `parse_frequencies` reads back: a text
/// in the pretty layout of members that describe a table is read as members
/// that describe the same table.
pub proof fn lemma_rendered_reads_back(text: Seq<char>, counts: Map<Seq<char>, u64>)
    requires
        exists|ms: Seq<(Seq<char>, u64)>|
            text == #[trigger] json_counts_pretty(ms) && keys_unique(ms) && members_map(ms)
                == counts,
    ensures
        json_counts_members(text) matches Some(ms) && members_map(ms) == counts,
{
    let ms = choose|ms: Seq<(Seq<char>, u64)>|
        text == #[trigger] json_counts_pretty(ms) && keys_unique(ms) && members_map(ms) == counts;
    lemma_pretty_read_back(ms);
}

} // verus!
