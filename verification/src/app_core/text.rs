//! Character-level text operations used by command splitting and search:
//! Unicode white space, trimming, splitting into words, lexicographic
//! order, substring and subsequence tests, and lowercasing.

use vstd::prelude::*;

verus! {

broadcast use vstd::string::group_string_axioms;

/// Whether `c` has the Unicode `White_Space` property, the set of characters
/// that `char::is_whitespace`, `str::trim` and `str::split_whitespace` use.
pub open spec fn is_white_space(c: char) -> bool {
    let v = c as u32;
    ||| 0x09 <= v <= 0x0D
    ||| v == 0x20
    ||| v == 0x85
    ||| v == 0xA0
    ||| v == 0x1680
    ||| 0x2000 <= v <= 0x200A
    ||| v == 0x2028
    ||| v == 0x2029
    ||| v == 0x202F
    ||| v == 0x205F
    ||| v == 0x3000
}

/// Tests `c` for the Unicode `White_Space` property.
pub fn white_space(c: char) -> (r: bool)
    ensures
        r == is_white_space(c),
{
    let v = c as u32;
    (0x09 <= v && v <= 0x0D) || v == 0x20 || v == 0x85 || v == 0xA0 || v == 0x1680 || (0x2000
        <= v && v <= 0x200A) || v == 0x2028 || v == 0x2029 || v == 0x202F || v == 0x205F || v
        == 0x3000
}

/// `s` without its leading white space.
pub open spec fn trim_start(s: Seq<char>) -> Seq<char>
    decreases s.len(),
{
    if s.len() > 0 && is_white_space(s[0]) {
        trim_start(s.drop_first())
    } else {
        s
    }
}

/// `s` without its trailing white space.
pub open spec fn trim_end(s: Seq<char>) -> Seq<char>
    decreases s.len(),
{
    if s.len() > 0 && is_white_space(s.last()) {
        trim_end(s.drop_last())
    } else {
        s
    }
}

/// `s` without leading and trailing white space (`str::trim`).
pub open spec fn trim(s: Seq<char>) -> Seq<char> {
    trim_end(trim_start(s))
}

/// The characters of a string slice, in order.
pub fn chars_of(s: &str) -> (v: Vec<char>)
    ensures
        v@ == s@,
{
    let n = s.unicode_len();
    let mut v: Vec<char> = Vec::new();
    let mut i: usize = 0;
    while i < n
        invariant
            n == s@.len(),
            i <= n,
            v@ == s@.take(i as int),
        decreases n - i,
    {
        let c = s.get_char(i);
        v.push(c);
        i = i + 1;
        assert(v@ =~= s@.take(i as int));
    }
    assert(v@ =~= s@);
    v
}

/// The position from which `s[from..to]` has no leading white space.
pub fn skip_leading_white_space(s: &Vec<char>, from: usize, to: usize) -> (a: usize)
    requires
        from <= to <= s.len(),
    ensures
        from <= a <= to,
        s@.subrange(a as int, to as int) == trim_start(s@.subrange(from as int, to as int)),
{
    let mut a = from;
    while a < to && white_space(s[a])
        invariant
            from <= a <= to <= s.len(),
            trim_start(s@.subrange(from as int, to as int)) == trim_start(
                s@.subrange(a as int, to as int),
            ),
        decreases to - a,
    {
        assert(s@.subrange(a as int, to as int).drop_first() =~= s@.subrange(
            a + 1,
            to as int,
        ));
        a = a + 1;
    }
    a
}

/// The position up to which `s[from..to]` has no trailing white space.
pub fn skip_trailing_white_space(s: &Vec<char>, from: usize, to: usize) -> (b: usize)
    requires
        from <= to <= s.len(),
    ensures
        from <= b <= to,
        s@.subrange(from as int, b as int) == trim_end(s@.subrange(from as int, to as int)),
{
    let mut b = to;
    while b > from && white_space(s[b - 1])
        invariant
            from <= b <= to <= s.len(),
            trim_end(s@.subrange(from as int, to as int)) == trim_end(
                s@.subrange(from as int, b as int),
            ),
        decreases b - from,
    {
        assert(s@.subrange(from as int, b as int).drop_last() =~= s@.subrange(
            from as int,
            b - 1,
        ));
        b = b - 1;
    }
    b
}

/// The bounds of `trim(s)` inside `s`.
pub fn trim_bounds(s: &Vec<char>) -> (r: (usize, usize))
    ensures
        r.0 <= r.1 <= s.len(),
        s@.subrange(r.0 as int, r.1 as int) == trim(s@),
{
    let a = skip_leading_white_space(s, 0, s.len());
    let b = skip_trailing_white_space(s, a, s.len());
    assert(s@.subrange(0, s.len() as int) =~= s@);
    (a, b)
}

/// Splitting of `s` at white space, `cur` being the word read so far.
pub open spec fn split_words_from(s: Seq<char>, cur: Seq<char>) -> Seq<Seq<char>>
    decreases s.len(),
{
    if s.len() == 0 {
        if cur.len() > 0 {
            seq![cur]
        } else {
            seq![]
        }
    } else if is_white_space(s[0]) {
        (if cur.len() > 0 {
            seq![cur]
        } else {
            seq![]
        }) + split_words_from(s.drop_first(), seq![])
    } else {
        split_words_from(s.drop_first(), cur.push(s[0]))
    }
}

/// The maximal runs of non-white-space characters of `s`, in order
/// (`str::split_whitespace`).
pub open spec fn split_white_space(s: Seq<char>) -> Seq<Seq<char>> {
    split_words_from(s, seq![])
}

/// Whether a word is non-empty and free of white space.
pub open spec fn is_word(w: Seq<char>) -> bool {
    w.len() > 0 && forall|i: int| 0 <= i < w.len() ==> !is_white_space(#[trigger] w[i])
}

/// Every word of a splitting is non-empty, free of white space, and made
/// of characters of the input or of the word read so far.
pub proof fn lemma_split_words_from(s: Seq<char>, cur: Seq<char>)
    requires
        forall|i: int| 0 <= i < cur.len() ==> !is_white_space(#[trigger] cur[i]),
    ensures
        forall|k: int|
            0 <= k < split_words_from(s, cur).len() ==> is_word(
                #[trigger] split_words_from(s, cur)[k],
            ),
        forall|k: int, j: int|
            0 <= k < split_words_from(s, cur).len() && 0 <= j < split_words_from(s, cur)[k].len()
                ==> s.contains(#[trigger] split_words_from(s, cur)[k][j]) || cur.contains(
                split_words_from(s, cur)[k][j],
            ),
    decreases s.len(),
{
    let r = split_words_from(s, cur);
    let head: Seq<Seq<char>> = if cur.len() > 0 {
        seq![cur]
    } else {
        seq![]
    };
    if s.len() == 0 {
        assert(r == head);
        assert forall|k: int, j: int| 0 <= k < r.len() && 0 <= j < r[k].len() implies s.contains(
            #[trigger] r[k][j],
        ) || cur.contains(r[k][j]) by {
            assert(r[k] == cur);
            assert(cur[j] == r[k][j]);
        }
    } else if is_white_space(s[0]) {
        let rest = s.drop_first();
        lemma_split_words_from(rest, seq![]);
        let w = split_words_from(rest, seq![]);
        assert(r == head + w);
        assert forall|k: int| 0 <= k < r.len() implies is_word(#[trigger] r[k]) by {
            if k < head.len() {
                assert(r[k] == cur);
            } else {
                assert(r[k] == w[k - head.len()]);
            }
        }
        assert forall|k: int, j: int| 0 <= k < r.len() && 0 <= j < r[k].len() implies s.contains(
            #[trigger] r[k][j],
        ) || cur.contains(r[k][j]) by {
            if k < head.len() {
                assert(r[k] == cur);
                assert(cur[j] == r[k][j]);
            } else {
                assert(r[k] == w[k - head.len()]);
                let e = w[k - head.len()][j];
                assert(rest.contains(e) || Seq::<char>::empty().contains(e));
                let m = choose|m: int| 0 <= m < rest.len() && rest[m] == e;
                assert(s[m + 1] == rest[m]);
            }
        }
    } else {
        let rest = s.drop_first();
        let next = cur.push(s[0]);
        assert forall|i: int| 0 <= i < next.len() implies !is_white_space(#[trigger] next[i]) by {
            if i < cur.len() {
                assert(next[i] == cur[i]);
            }
        }
        lemma_split_words_from(rest, next);
        assert(r == split_words_from(rest, next));
        assert forall|k: int, j: int| 0 <= k < r.len() && 0 <= j < r[k].len() implies s.contains(
            #[trigger] r[k][j],
        ) || cur.contains(r[k][j]) by {
            let c = r[k][j];
            assert(rest.contains(c) || next.contains(c));
            if rest.contains(c) {
                let m = choose|m: int| 0 <= m < rest.len() && rest[m] == c;
                assert(s[m + 1] == rest[m]);
            } else {
                let m = choose|m: int| 0 <= m < next.len() && next[m] == c;
                if m < cur.len() {
                    assert(cur[m] == c);
                } else {
                    assert(s[0] == c);
                }
            }
        }
    }
}

/// The words of `s` (`str::split_whitespace`), as positions in `s`.
pub fn split_white_space_bounds(s: &Vec<char>, from: usize, to: usize) -> (r: Vec<(usize, usize)>)
    requires
        from <= to <= s.len(),
    ensures
        r.len() == split_white_space(s@.subrange(from as int, to as int)).len(),
        forall|k: int|
            0 <= k < r.len() ==> from <= (#[trigger] r[k]).0 <= r[k].1 <= to && s@.subrange(
                r[k].0 as int,
                r[k].1 as int,
            ) == split_white_space(s@.subrange(from as int, to as int))[k],
{
    let ghost whole = s@.subrange(from as int, to as int);
    let mut r: Vec<(usize, usize)> = Vec::new();
    let mut start = from;
    let mut k = from;
    assert(s@.subrange(from as int, from as int) =~= Seq::<char>::empty());
    assert(r@.map_values(|p: (usize, usize)| s@.subrange(p.0 as int, p.1 as int)) =~= Seq::<
        Seq<char>,
    >::empty());
    assert(split_white_space(whole) =~= Seq::<Seq<char>>::empty() + split_words_from(
        whole,
        Seq::<char>::empty(),
    ));
    while k < to
        invariant
            from <= start <= k <= to <= s.len(),
            whole == s@.subrange(from as int, to as int),
            forall|i: int| 0 <= i < r.len() ==> from <= (#[trigger] r[i]).0 <= r[i].1 <= to,
            split_white_space(whole) == r@.map_values(
                |p: (usize, usize)| s@.subrange(p.0 as int, p.1 as int),
            ) + split_words_from(s@.subrange(k as int, to as int), s@.subrange(start as int, k as int)),
        decreases to - k,
    {
        let ghost rest = s@.subrange(k as int, to as int);
        let ghost cur = s@.subrange(start as int, k as int);
        let ghost before = r@.map_values(|p: (usize, usize)| s@.subrange(p.0 as int, p.1 as int));
        assert(rest.drop_first() =~= s@.subrange(k + 1, to as int));
        if white_space(s[k]) {
            if start < k {
                r.push((start, k));
                assert(r@.map_values(|p: (usize, usize)| s@.subrange(p.0 as int, p.1 as int))
                    =~= before + seq![cur]);
            } else {
                assert(r@.map_values(|p: (usize, usize)| s@.subrange(p.0 as int, p.1 as int))
                    =~= before + seq![]);
            }
            start = k + 1;
            assert(s@.subrange(start as int, (k + 1) as int) =~= Seq::<char>::empty());
        } else {
            assert(cur.push(s@[k as int]) =~= s@.subrange(start as int, k + 1));
        }
        k = k + 1;
    }
    let ghost cur = s@.subrange(start as int, to as int);
    let ghost before = r@.map_values(|p: (usize, usize)| s@.subrange(p.0 as int, p.1 as int));
    if start < to {
        r.push((start, to));
        assert(r@.map_values(|p: (usize, usize)| s@.subrange(p.0 as int, p.1 as int)) =~= before
            + seq![cur]);
    } else {
        assert(r@.map_values(|p: (usize, usize)| s@.subrange(p.0 as int, p.1 as int)) =~= before
            + seq![]);
    }
    assert forall|i: int| 0 <= i < r.len() implies s@.subrange(
        (#[trigger] r[i]).0 as int,
        r[i].1 as int,
    ) == split_white_space(whole)[i] by {
        assert(split_white_space(whole)[i] == r@.map_values(
            |p: (usize, usize)| s@.subrange(p.0 as int, p.1 as int),
        )[i]);
    }
    r
}

/// Lexicographic order of character sequences by code point, the order of
/// `String`'s `Ord` (UTF-8 encoding preserves code-point order).
pub open spec fn lex_lt(a: Seq<char>, b: Seq<char>) -> bool
    decreases a.len(),
{
    if a.len() == 0 {
        b.len() > 0
    } else if b.len() == 0 {
        false
    } else if a[0] != b[0] {
        (a[0] as u32) < (b[0] as u32)
    } else {
        lex_lt(a.drop_first(), b.drop_first())
    }
}

/// No sequence precedes itself.
pub proof fn lemma_lex_irreflexive(a: Seq<char>)
    ensures
        !lex_lt(a, a),
    decreases a.len(),
{
    if a.len() > 0 {
        lemma_lex_irreflexive(a.drop_first());
    }
}

/// The lexicographic order is transitive.
pub proof fn lemma_lex_transitive(a: Seq<char>, b: Seq<char>, c: Seq<char>)
    requires
        lex_lt(a, b),
        lex_lt(b, c),
    ensures
        lex_lt(a, c),
    decreases a.len(),
{
    if a.len() > 0 && b.len() > 0 && c.len() > 0 {
        if a[0] == b[0] && b[0] == c[0] {
            lemma_lex_transitive(a.drop_first(), b.drop_first(), c.drop_first());
        }
    }
}

/// Two different sequences are ordered one way or the other.
pub proof fn lemma_lex_total(a: Seq<char>, b: Seq<char>)
    requires
        a != b,
    ensures
        lex_lt(a, b) || lex_lt(b, a),
    decreases a.len(),
{
    if a.len() > 0 && b.len() > 0 {
        if a[0] == b[0] {
            if a.drop_first() == b.drop_first() {
                assert(a =~= seq![a[0]] + a.drop_first());
                assert(b =~= seq![b[0]] + b.drop_first());
            }
            lemma_lex_total(a.drop_first(), b.drop_first());
        } else {
            if (a[0] as u32) == (b[0] as u32) {
                vstd::utf8::char_u32_cast(a[0], a[0] as u32);
                vstd::utf8::char_u32_cast(b[0], b[0] as u32);
            }
        }
    } else if a.len() == 0 && b.len() == 0 {
        assert(a =~= b);
    }
}

/// Whether `a` comes strictly before `b` lexicographically.
pub fn lex_less(a: &Vec<char>, b: &Vec<char>) -> (r: bool)
    ensures
        r == lex_lt(a@, b@),
{
    let mut i: usize = 0;
    assert(a@.skip(0) =~= a@);
    assert(b@.skip(0) =~= b@);
    while i < a.len() && i < b.len() && a[i] == b[i]
        invariant
            i <= a.len(),
            i <= b.len(),
            lex_lt(a@, b@) == lex_lt(a@.skip(i as int), b@.skip(i as int)),
        decreases a.len() - i,
    {
        assert(a@.skip(i as int).drop_first() =~= a@.skip(i + 1));
        assert(b@.skip(i as int).drop_first() =~= b@.skip(i + 1));
        i = i + 1;
    }
    if i == a.len() {
        i < b.len()
    } else if i == b.len() {
        false
    } else {
        (a[i] as u32) < (b[i] as u32)
    }
}

/// Whether two character vectors hold the same characters.
pub fn same_chars(a: &Vec<char>, b: &Vec<char>) -> (r: bool)
    ensures
        r == (a@ == b@),
{
    if a.len() != b.len() {
        return false;
    }
    let mut i: usize = 0;
    while i < a.len()
        invariant
            a.len() == b.len(),
            i <= a.len(),
            a@.take(i as int) == b@.take(i as int),
        decreases a.len() - i,
    {
        if a[i] != b[i] {
            return false;
        }
        assert(a@.take(i + 1) =~= a@.take(i as int).push(a@[i as int]));
        assert(b@.take(i + 1) =~= b@.take(i as int).push(b@[i as int]));
        i = i + 1;
    }
    assert(a@ =~= a@.take(i as int));
    assert(b@ =~= b@.take(i as int));
    true
}

/// Whether `pattern` occurs in `text` starting at position `i`.
pub open spec fn occurs_at(pattern: Seq<char>, text: Seq<char>, i: int) -> bool {
    0 <= i && i + pattern.len() <= text.len() && text.subrange(i, i + pattern.len()) == pattern
}

/// Whether `pattern` is a contiguous part of `text` (`str::contains`).
pub open spec fn is_substring(pattern: Seq<char>, text: Seq<char>) -> bool {
    exists|i: int| occurs_at(pattern, text, i)
}

/// Tests whether `pattern` is a contiguous part of `text`.
pub fn contains_chars(text: &Vec<char>, pattern: &Vec<char>) -> (r: bool)
    ensures
        r == is_substring(pattern@, text@),
{
    let n = text.len();
    let m = pattern.len();
    if m > n {
        assert forall|i: int| !occurs_at(pattern@, text@, i) by {}
        return false;
    }
    let mut i: usize = 0;
    while i <= n - m
        invariant
            n == text.len(),
            m == pattern.len(),
            m <= n,
            i <= n - m + 1,
            forall|j: int| 0 <= j < i ==> !occurs_at(pattern@, text@, j),
        decreases n - m + 1 - i,
    {
        let mut k: usize = 0;
        while k < m && text[i + k] == pattern[k]
            invariant
                n == text.len(),
                m == pattern.len(),
                i + m <= n,
                k <= m,
                text@.subrange(i as int, i + k) == pattern@.take(k as int),
            decreases m - k,
        {
            assert(text@.subrange(i as int, i + k + 1) =~= text@.subrange(i as int, i + k).push(
                text@[i + k],
            ));
            assert(pattern@.take(k + 1) =~= pattern@.take(k as int).push(pattern@[k as int]));
            k = k + 1;
        }
        if k == m {
            assert(pattern@.take(m as int) =~= pattern@);
            assert(occurs_at(pattern@, text@, i as int));
            return true;
        }
        assert(!occurs_at(pattern@, text@, i as int)) by {
            if occurs_at(pattern@, text@, i as int) {
                assert(text@.subrange(i as int, i + m)[k as int] == pattern@[k as int]);
            }
        }
        i = i + 1;
    }
    assert forall|j: int| !occurs_at(pattern@, text@, j) by {
        if 0 <= j && j < i {
        }
    }
    false
}

/// Whether the characters of `query` occur in `text` in order, not
/// necessarily next to each other (matched greedily from the left).
pub open spec fn is_subsequence(query: Seq<char>, text: Seq<char>) -> bool
    decreases text.len(),
{
    if query.len() == 0 {
        true
    } else if text.len() == 0 {
        false
    } else if query[0] == text[0] {
        is_subsequence(query.drop_first(), text.drop_first())
    } else {
        is_subsequence(query, text.drop_first())
    }
}

/// A subsequence is no longer than the text it occurs in.
pub proof fn lemma_subsequence_len(query: Seq<char>, text: Seq<char>)
    requires
        is_subsequence(query, text),
    ensures
        query.len() <= text.len(),
    decreases text.len(),
{
    if query.len() > 0 && text.len() > 0 {
        if query[0] == text[0] {
            lemma_subsequence_len(query.drop_first(), text.drop_first());
        } else {
            lemma_subsequence_len(query, text.drop_first());
        }
    }
}

/// Whether `idx` maps each character of `query` to a position of `text`
/// that holds it, the positions strictly increasing.
pub open spec fn in_order_positions(query: Seq<char>, text: Seq<char>, idx: Seq<int>) -> bool {
    &&& idx.len() == query.len()
    &&& forall|k: int|
        0 <= k < idx.len() ==> 0 <= #[trigger] idx[k] < text.len() && text[idx[k]] == query[k]
    &&& forall|a: int, b: int| 0 <= a < b < idx.len() ==> #[trigger] idx[a] < #[trigger] idx[b]
}

/// Positions shifted down by one.
spec fn shift_down(idx: Seq<int>) -> Seq<int> {
    idx.map_values(|p: int| p - 1)
}

/// Positions in order give a subsequence.
proof fn lemma_positions_give_subsequence(query: Seq<char>, text: Seq<char>, idx: Seq<int>)
    requires
        in_order_positions(query, text, idx),
    ensures
        is_subsequence(query, text),
    decreases text.len(),
{
    if query.len() > 0 {
        assert(0 <= idx[0] < text.len());
        if query[0] == text[0] {
            let rest = shift_down(idx.drop_first());
            assert forall|k: int| 0 <= k < rest.len() implies 0 <= #[trigger] rest[k] < text.drop_first().len()
                && text.drop_first()[rest[k]] == query.drop_first()[k] by {
                assert(idx[0] < idx[k + 1]);
                assert(rest[k] == idx[k + 1] - 1);
            }
            assert forall|a: int, b: int| 0 <= a < b < rest.len() implies #[trigger] rest[a] < #[trigger] rest[b] by {
                assert(idx[a + 1] < idx[b + 1]);
            }
            lemma_positions_give_subsequence(query.drop_first(), text.drop_first(), rest);
        } else {
            let rest = shift_down(idx);
            assert(idx[0] != 0);
            assert forall|k: int| 0 <= k < rest.len() implies 0 <= #[trigger] rest[k] < text.drop_first().len()
                && text.drop_first()[rest[k]] == query[k] by {
                if k > 0 {
                    assert(idx[0] < idx[k]);
                }
                assert(rest[k] == idx[k] - 1);
            }
            assert forall|a: int, b: int| 0 <= a < b < rest.len() implies #[trigger] rest[a] < #[trigger] rest[b] by {
                assert(idx[a] < idx[b]);
            }
            lemma_positions_give_subsequence(query, text.drop_first(), rest);
        }
    }
}

/// A subsequence occurs at positions in order.
proof fn lemma_subsequence_gives_positions(query: Seq<char>, text: Seq<char>) -> (idx: Seq<int>)
    requires
        is_subsequence(query, text),
    ensures
        in_order_positions(query, text, idx),
    decreases text.len(),
{
    if query.len() == 0 {
        Seq::<int>::empty()
    } else if query[0] == text[0] {
        let rest = lemma_subsequence_gives_positions(query.drop_first(), text.drop_first());
        let idx = seq![0int] + rest.map_values(|p: int| p + 1);
        assert forall|k: int| 0 <= k < idx.len() implies 0 <= #[trigger] idx[k] < text.len()
            && text[idx[k]] == query[k] by {
            if k > 0 {
                assert(idx[k] == rest[k - 1] + 1);
            }
        }
        assert forall|a: int, b: int| 0 <= a < b < idx.len() implies #[trigger] idx[a] < #[trigger] idx[b] by {
            if a > 0 {
                assert(rest[a - 1] < rest[b - 1]);
            } else {
                assert(0 <= rest[b - 1]);
            }
        }
        idx
    } else {
        let rest = lemma_subsequence_gives_positions(query, text.drop_first());
        let idx = rest.map_values(|p: int| p + 1);
        assert forall|k: int| 0 <= k < idx.len() implies 0 <= #[trigger] idx[k] < text.len()
            && text[idx[k]] == query[k] by {
            assert(idx[k] == rest[k] + 1);
        }
        assert forall|a: int, b: int| 0 <= a < b < idx.len() implies #[trigger] idx[a] < #[trigger] idx[b] by {
            assert(rest[a] < rest[b]);
        }
        idx
    }
}

/// The characters of `query` occur in order in `text` exactly when there
/// are strictly increasing positions of `text` holding them, wherever they
/// start.
pub proof fn lemma_subsequence_iff_positions(query: Seq<char>, text: Seq<char>)
    ensures
        is_subsequence(query, text) <==> exists|idx: Seq<int>| in_order_positions(query, text, idx),
{
    if is_subsequence(query, text) {
        let idx = lemma_subsequence_gives_positions(query, text);
    }
    if exists|idx: Seq<int>| in_order_positions(query, text, idx) {
        let idx = choose|idx: Seq<int>| in_order_positions(query, text, idx);
        lemma_positions_give_subsequence(query, text, idx);
    }
}

/// The number of characters of `query` matched, from the left, in order, in
/// `text`.
pub fn greedy_matches(query: &Vec<char>, text: &Vec<char>) -> (r: usize)
    ensures
        r <= query.len(),
        (r == query.len()) == is_subsequence(query@, text@),
{
    let mut qi: usize = 0;
    let mut k: usize = 0;
    assert(query@.skip(0) =~= query@);
    assert(text@.skip(0) =~= text@);
    while k < text.len()
        invariant
            qi <= query.len(),
            k <= text.len(),
            is_subsequence(query@, text@) == is_subsequence(
                query@.skip(qi as int),
                text@.skip(k as int),
            ),
        decreases text.len() - k,
    {
        assert(text@.skip(k as int).drop_first() =~= text@.skip(k + 1));
        if qi < query.len() {
            assert(query@.skip(qi as int).drop_first() =~= query@.skip(qi + 1));
        }
        if qi < query.len() && text[k] == query[qi] {
            qi = qi + 1;
        }
        k = k + 1;
    }
    assert(text@.skip(k as int).len() == 0);
    qi
}

/// The lowercase form of a string, as `str::to_lowercase` gives it
/// (Unicode lowercase mapping, context-dependent for final sigma).
pub uninterp spec fn lowercase(s: Seq<char>) -> Seq<char>;

/// `str::to_lowercase`. Its result depends on the characters of `s` alone;
/// the contract names it and states nothing more of it.
#[verifier::external_body]
pub(crate) fn to_lowercase(s: &str) -> (r: String)
    ensures
        r@ == lowercase(s@),
{
    s.to_lowercase()
}

} // verus!
