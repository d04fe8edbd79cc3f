//! Pure application-search and ranking functions.

use super::freq_store::{launch_count, FrequencyTable};
use super::text::{
    chars_of, contains_chars, greedy_matches, in_order_positions, is_subsequence, is_substring,
    lemma_lex_irreflexive, lemma_subsequence_iff_positions,
    lemma_lex_total, lemma_lex_transitive, lemma_subsequence_len, lex_less, lex_lt, lowercase,
    occurs_at, same_chars, to_lowercase, trim, trim_bounds,
};
use super::AppEntry;
use vstd::prelude::*;
use vstd::utf8::encode_utf8;

verus! {

/// How well an application name matches a query.
#[derive(Clone, Copy, Debug, PartialEq, Eq, Structural)]
pub enum Score {
    /// The lowercase query occurs in the lowercase name. Worth
    /// `1 + query_bytes / name_bytes`, lengths in UTF-8 bytes.
    Substring { query_bytes: usize, name_bytes: usize },
    /// The characters of the lowercase query occur in order in the lowercase
    /// name. Worth `matched / name_chars`, lengths in characters.
    Subsequence { matched: usize, name_chars: usize },
}

/// The denominator of a score's value (a zero length counts as one).
pub open spec fn score_den(s: Score) -> int {
    match s {
        Score::Substring { name_bytes, .. } => if name_bytes == 0 {
            1
        } else {
            name_bytes as int
        },
        Score::Subsequence { name_chars, .. } => if name_chars == 0 {
            1
        } else {
            name_chars as int
        },
    }
}

/// The numerator of a score's value.
pub open spec fn score_num(s: Score) -> int {
    match s {
        Score::Substring { query_bytes, .. } => score_den(s) + query_bytes,
        Score::Subsequence { matched, .. } => matched as int,
    }
}

/// Whether score `a` is worth more than score `b`.
pub open spec fn score_above(a: Score, b: Score) -> bool {
    score_num(a) * score_den(b) > score_num(b) * score_den(a)
}

/// Whether scores `a` and `b` are worth the same.
pub open spec fn score_ties(a: Score, b: Score) -> bool {
    score_num(a) * score_den(b) == score_num(b) * score_den(a)
}

/// A subsequence score never matches more characters than the name has.
pub open spec fn score_valid(s: Score) -> bool {
    match s {
        Score::Substring { .. } => true,
        Score::Subsequence { matched, name_chars } => matched <= name_chars,
    }
}

/// The score of `name` for `query`: a substring match of the lowercase
/// query in the lowercase name, else an in-order match of its characters,
/// else none.
pub open spec fn fuzzy_score_of(query: Seq<char>, name: Seq<char>) -> Option<Score> {
    let q = lowercase(query);
    let c = lowercase(name);
    if is_substring(q, c) {
        Some(
            Score::Substring {
                query_bytes: encode_utf8(q).len() as usize,
                name_bytes: encode_utf8(c).len() as usize,
            },
        )
    } else if is_subsequence(q, c) {
        Some(Score::Subsequence { matched: q.len() as usize, name_chars: c.len() as usize })
    } else {
        None
    }
}

/// What a name scores: when the lowercase query occurs in the lowercase
/// name, a substring score of their UTF-8 lengths; otherwise, when the
/// query's characters occur in the name at strictly increasing positions
/// (anywhere in it), an in-order score of the query's and the name's
/// character counts; otherwise no score.
pub proof fn lemma_fuzzy_score_cases(query: Seq<char>, name: Seq<char>)
    ensures
        ({
            let q = lowercase(query);
            let c = lowercase(name);
            &&& (exists|i: int| occurs_at(q, c, i)) ==> fuzzy_score_of(query, name) == Some(
                Score::Substring {
                    query_bytes: encode_utf8(q).len() as usize,
                    name_bytes: encode_utf8(c).len() as usize,
                },
            )
            &&& !(exists|i: int| occurs_at(q, c, i)) && (exists|idx: Seq<int>|
                in_order_positions(q, c, idx)) ==> fuzzy_score_of(query, name) == Some(
                Score::Subsequence { matched: q.len() as usize, name_chars: c.len() as usize },
            )
            &&& !(exists|i: int| occurs_at(q, c, i)) && !(exists|idx: Seq<int>|
                in_order_positions(q, c, idx)) ==> fuzzy_score_of(query, name) is None
        }),
{
    lemma_subsequence_iff_positions(lowercase(query), lowercase(name));
}

/// Scores how well `candidate` matches `query`, ignoring case.
pub fn fuzzy_score(query: &str, candidate: &str) -> (r: Option<Score>)
    ensures
        r == fuzzy_score_of(query@, candidate@),
        r matches Some(s) ==> score_valid(s),
{
    let query = to_lowercase(query);
    let candidate = to_lowercase(candidate);
    let query_chars = chars_of(query.as_str());
    let candidate_chars = chars_of(candidate.as_str());
    if contains_chars(&candidate_chars, &query_chars) {
        return Some(
            Score::Substring {
                query_bytes: query.as_str().len(),
                name_bytes: candidate.as_str().len(),
            },
        );
    }
    if query_chars.len() == 0 {
        proof {
            assert(candidate_chars@.subrange(0, 0) =~= query_chars@);
            assert(occurs_at(query_chars@, candidate_chars@, 0));
        }
        return Some(Score::Subsequence { matched: 0, name_chars: candidate_chars.len() });
    }
    let matches = greedy_matches(&query_chars, &candidate_chars);
    if matches == query_chars.len() {
        proof {
            lemma_subsequence_len(query_chars@, candidate_chars@);
        }
        Some(Score::Subsequence { matched: matches, name_chars: candidate_chars.len() })
    } else {
        None
    }
}

proof fn lemma_product_fits(x: int, y: int)
    by (nonlinear_arith)
    requires
        0 <= x <= 0xffff_ffff_ffff_ffff,
        0 <= y <= 0xffff_ffff_ffff_ffff,
    ensures
        x * y <= 0xffff_ffff_ffff_ffff_ffff_ffff_ffff_ffff,
{
    assert(x * y <= x * 0xffff_ffff_ffff_ffff);
    assert(x * 0xffff_ffff_ffff_ffff <= 0xffff_ffff_ffff_ffff * 0xffff_ffff_ffff_ffff);
}

proof fn lemma_positive_product(x: int, y: int)
    by (nonlinear_arith)
    requires
        x > 0,
        y > 0,
    ensures
        x * y > 0,
{
}

/// Comparison of fractions with positive denominators is transitive.
pub proof fn lemma_fraction_order(na: int, da: int, nb: int, db: int, nc: int, dc: int)
    requires
        da > 0,
        db > 0,
        dc > 0,
        na * db >= nb * da,
        nb * dc >= nc * db,
    ensures
        na * dc >= nc * da,
        na * db > nb * da || nb * dc > nc * db ==> na * dc > nc * da,
{
    assert(na * db * dc >= nb * da * dc) by (nonlinear_arith)
        requires
            na * db >= nb * da,
            dc > 0,
    ;
    assert(nb * dc * da >= nc * db * da) by (nonlinear_arith)
        requires
            nb * dc >= nc * db,
            da > 0,
    ;
    assert(nb * da * dc == nb * dc * da) by (nonlinear_arith);
    assert(nc * db * da == nc * da * db) by (nonlinear_arith);
    assert(na * db * dc == na * dc * db) by (nonlinear_arith);
    assert(na * dc * db >= nc * da * db);
    assert(na * dc >= nc * da) by (nonlinear_arith)
        requires
            na * dc * db >= nc * da * db,
            db > 0,
    ;
    if na * db > nb * da {
        assert(na * db * dc > nb * da * dc) by (nonlinear_arith)
            requires
                na * db > nb * da,
                dc > 0,
        ;
        assert(na * dc > nc * da) by (nonlinear_arith)
            requires
                na * dc * db > nc * da * db,
                db > 0,
        ;
    }
    if nb * dc > nc * db {
        assert(nb * dc * da > nc * db * da) by (nonlinear_arith)
            requires
                nb * dc > nc * db,
                da > 0,
        ;
        assert(na * dc > nc * da) by (nonlinear_arith)
            requires
                na * dc * db > nc * da * db,
                db > 0,
        ;
    }
}

/// Being worth at least as much is transitive, and strictly more as soon as
/// one step is strict.
pub proof fn lemma_score_order(a: Score, b: Score, c: Score)
    requires
        score_above(a, b) || score_ties(a, b),
        score_above(b, c) || score_ties(b, c),
    ensures
        score_above(a, c) || score_ties(a, c),
        score_above(a, b) || score_above(b, c) ==> score_above(a, c),
{
    lemma_fraction_order(
        score_num(a),
        score_den(a),
        score_num(b),
        score_den(b),
        score_num(c),
        score_den(c),
    );
}

/// The denominator of a score's value.
fn score_denominator(s: &Score) -> (d: u128)
    ensures
        d as int == score_den(*s),
        1 <= d <= usize::MAX,
{
    match s {
        Score::Substring { name_bytes, .. } => if *name_bytes == 0 {
            1
        } else {
            *name_bytes as u128
        },
        Score::Subsequence { name_chars, .. } => if *name_chars == 0 {
            1
        } else {
            *name_chars as u128
        },
    }
}

/// Whether score `a` is worth more than score `b`.
pub fn score_is_above(a: &Score, b: &Score) -> (r: bool)
    requires
        score_valid(*a),
        score_valid(*b),
    ensures
        r == score_above(*a, *b),
{
    let da = score_denominator(a);
    let db = score_denominator(b);
    proof {
        match (*a, *b) {
            (Score::Substring { query_bytes: qa, .. }, Score::Substring { query_bytes: qb, .. }) => {
                lemma_product_fits(qa as int, db as int);
                lemma_product_fits(qb as int, da as int);
            },
            (Score::Subsequence { matched: ma, .. }, Score::Subsequence { matched: mb, .. }) => {
                lemma_product_fits(ma as int, db as int);
                lemma_product_fits(mb as int, da as int);
            },
            _ => {},
        }
    }
    match (a, b) {
        (Score::Substring { query_bytes: qa, .. }, Score::Substring { query_bytes: qb, .. }) => {
            let x = (*qa as u128) * db;
            let y = (*qb as u128) * da;
            proof {
                let (qa, qb, da, db) = (*qa as int, *qb as int, da as int, db as int);
                assert((da + qa) * db == da * db + qa * db) by (nonlinear_arith);
                assert((db + qb) * da == da * db + qb * da) by (nonlinear_arith);
            }
            x > y
        },
        (Score::Substring { query_bytes: qa, .. }, Score::Subsequence { matched: m, .. }) => {
            proof {
                let (qa, m, da, db) = (*qa as int, *m as int, da as int, db as int);
                assert(m <= db);
                assert((da + qa) * db == da * db + qa * db) by (nonlinear_arith);
                assert(m * da <= db * da) by (nonlinear_arith)
                    requires
                        m <= db,
                        da > 0,
                ;
                assert(db * da == da * db) by (nonlinear_arith);
                if qa > 0 {
                    lemma_positive_product(qa, db);
                }
                if m < db {
                    assert(m * da < db * da) by (nonlinear_arith)
                        requires
                            m < db,
                            da > 0,
                    ;
                }
            }
            !(*qa == 0 && *m as u128 == db)
        },
        (Score::Subsequence { matched: m, .. }, Score::Substring { query_bytes: qb, .. }) => {
            proof {
                let (qb, m, da, db) = (*qb as int, *m as int, da as int, db as int);
                assert(m <= da);
                assert((db + qb) * da == da * db + qb * da) by (nonlinear_arith);
                assert(m * db <= da * db) by (nonlinear_arith)
                    requires
                        m <= da,
                        db > 0,
                ;
                assert(qb * da >= 0) by (nonlinear_arith)
                    requires
                        qb >= 0,
                        da > 0,
                ;
            }
            false
        },
        (Score::Subsequence { matched: ma, .. }, Score::Subsequence { matched: mb, .. }) => {
            (*ma as u128) * db > (*mb as u128) * da
        },
    }
}

/// Whether scores `a` and `b` are worth the same.
pub fn score_is_tied(a: &Score, b: &Score) -> (r: bool)
    requires
        score_valid(*a),
        score_valid(*b),
    ensures
        r == score_ties(*a, *b),
{
    let da = score_denominator(a);
    let db = score_denominator(b);
    proof {
        match (*a, *b) {
            (Score::Substring { query_bytes: qa, .. }, Score::Substring { query_bytes: qb, .. }) => {
                lemma_product_fits(qa as int, db as int);
                lemma_product_fits(qb as int, da as int);
            },
            (Score::Subsequence { matched: ma, .. }, Score::Subsequence { matched: mb, .. }) => {
                lemma_product_fits(ma as int, db as int);
                lemma_product_fits(mb as int, da as int);
            },
            _ => {},
        }
    }
    match (a, b) {
        (Score::Substring { query_bytes: qa, .. }, Score::Substring { query_bytes: qb, .. }) => {
            let x = (*qa as u128) * db;
            let y = (*qb as u128) * da;
            proof {
                let (qa, qb, da, db) = (*qa as int, *qb as int, da as int, db as int);
                assert((da + qa) * db == da * db + qa * db) by (nonlinear_arith);
                assert((db + qb) * da == da * db + qb * da) by (nonlinear_arith);
            }
            x == y
        },
        (Score::Substring { query_bytes: qa, .. }, Score::Subsequence { matched: m, .. }) => {
            proof {
                let (qa, m, da, db) = (*qa as int, *m as int, da as int, db as int);
                assert((da + qa) * db == da * db + qa * db) by (nonlinear_arith);
                assert(m * da <= db * da) by (nonlinear_arith)
                    requires
                        m <= db,
                        da > 0,
                ;
                assert(db * da == da * db) by (nonlinear_arith);
                if qa > 0 {
                    lemma_positive_product(qa, db);
                }
                if m < db {
                    assert(m * da < db * da) by (nonlinear_arith)
                        requires
                            m < db,
                            da > 0,
                    ;
                }
            }
            *qa == 0 && *m as u128 == db
        },
        (Score::Subsequence { matched: m, .. }, Score::Substring { query_bytes: qb, .. }) => {
            proof {
                let (qb, m, da, db) = (*qb as int, *m as int, da as int, db as int);
                assert((db + qb) * da == da * db + qb * da) by (nonlinear_arith);
                assert(m * db <= da * db) by (nonlinear_arith)
                    requires
                        m <= da,
                        db > 0,
                ;
                assert(da * db == db * da) by (nonlinear_arith);
                if qb > 0 {
                    lemma_positive_product(qb, da);
                }
                if m < da {
                    assert(m * db < da * db) by (nonlinear_arith)
                        requires
                            m < da,
                            db > 0,
                    ;
                }
            }
            *qb == 0 && *m as u128 == da
        },
        (Score::Subsequence { matched: ma, .. }, Score::Subsequence { matched: mb, .. }) => {
            (*ma as u128) * db == (*mb as u128) * da
        },
    }
}

/// The ranking order on sort keys `(score, launch count, id, position)`:
/// higher score first, then higher launch count, then smaller id, then
/// earlier position.
pub open spec fn key_before(
    si: Option<Score>,
    fi: u64,
    idi: Seq<char>,
    i: int,
    sj: Option<Score>,
    fj: u64,
    idj: Seq<char>,
    j: int,
) -> bool {
    let above = match (si, sj) {
        (Some(a), Some(b)) => score_above(a, b),
        _ => false,
    };
    let tied = match (si, sj) {
        (Some(a), Some(b)) => score_ties(a, b),
        (None, None) => true,
        _ => false,
    };
    above || (tied && (fi > fj || (fi == fj && (lex_lt(idi, idj) || (idi == idj && i < j)))))
}

/// The score that ranks an application for `query`; none for a query that
/// is empty once trimmed.
pub open spec fn entry_score(query: Seq<char>, app: AppEntry) -> Option<Score> {
    if trim(query).len() == 0 {
        None
    } else {
        fuzzy_score_of(trim(query), app.name@)
    }
}

/// The score that ranks application `i` for `query`.
pub open spec fn rank_score(apps: Seq<AppEntry>, query: Seq<char>, i: int) -> Option<Score> {
    entry_score(query, apps[i])
}

/// Whether application `i` is a result for `query`: every application is
/// for a query that is empty once trimmed, otherwise those whose name scores.
pub open spec fn is_candidate(apps: Seq<AppEntry>, query: Seq<char>, i: int) -> bool {
    &&& 0 <= i < apps.len()
    &&& (trim(query).len() == 0 || rank_score(apps, query, i) is Some)
}

/// Whether application `i` ranks before application `j`.
pub open spec fn ranked_before(
    apps: Seq<AppEntry>,
    counts: Map<Seq<char>, u64>,
    query: Seq<char>,
    i: int,
    j: int,
) -> bool {
    key_before(
        rank_score(apps, query, i),
        launch_count(counts, apps[i].id@),
        apps[i].id@,
        i,
        rank_score(apps, query, j),
        launch_count(counts, apps[j].id@),
        apps[j].id@,
        j,
    )
}

/// Whether `order` lists the positions of exactly the results for `query`,
/// each ranked before those after it.
pub open spec fn is_ranking(
    apps: Seq<AppEntry>,
    counts: Map<Seq<char>, u64>,
    query: Seq<char>,
    order: Seq<int>,
) -> bool {
    &&& forall|k: int| 0 <= k < order.len() ==> is_candidate(apps, query, #[trigger] order[k])
    &&& forall|i: int| is_candidate(apps, query, i) ==> #[trigger] order.contains(i)
    &&& forall|a: int, b: int|
        0 <= a < b < order.len() ==> ranked_before(apps, counts, query, #[trigger] order[a], #[trigger] order[b])
}

/// The positions of the results for `query`, best first.
pub open spec fn ranking(apps: Seq<AppEntry>, counts: Map<Seq<char>, u64>, query: Seq<char>) -> Seq<int> {
    choose|order: Seq<int>| is_ranking(apps, counts, query, order)
}

/// The first `limit` results for `query`, best first.
pub open spec fn ranked_apps(
    apps: Seq<AppEntry>,
    counts: Map<Seq<char>, u64>,
    query: Seq<char>,
    limit: int,
) -> Seq<AppEntry> {
    let order = ranking(apps, counts, query);
    order.take(if limit < order.len() { limit } else { order.len() as int }).map_values(
        |i: int| apps[i],
    )
}

/// The scores that rank results for one query are all present or all absent.
pub open spec fn scores_alike(si: Option<Score>, sj: Option<Score>) -> bool {
    si is Some == sj is Some
}

/// No key ranks before itself.
pub proof fn lemma_key_irreflexive(s: Option<Score>, f: u64, id: Seq<char>, i: int)
    ensures
        !key_before(s, f, id, i, s, f, id, i),
{
    lemma_lex_irreflexive(id);
}

/// The ranking order is transitive on keys whose scores are alike.
pub proof fn lemma_key_transitive(
    si: Option<Score>,
    fi: u64,
    idi: Seq<char>,
    i: int,
    sj: Option<Score>,
    fj: u64,
    idj: Seq<char>,
    j: int,
    sk: Option<Score>,
    fk: u64,
    idk: Seq<char>,
    k: int,
)
    requires
        scores_alike(si, sj),
        scores_alike(sj, sk),
        key_before(si, fi, idi, i, sj, fj, idj, j),
        key_before(sj, fj, idj, j, sk, fk, idk, k),
    ensures
        key_before(si, fi, idi, i, sk, fk, idk, k),
{
    if si is Some {
        let (a, b, c) = (si->0, sj->0, sk->0);
        lemma_score_order(a, b, c);
        if score_ties(a, b) && score_ties(b, c) {
            if lex_lt(idi, idj) && lex_lt(idj, idk) {
                lemma_lex_transitive(idi, idj, idk);
            }
        }
    } else {
        if lex_lt(idi, idj) && lex_lt(idj, idk) {
            lemma_lex_transitive(idi, idj, idk);
        }
    }
}

/// Of two different positions with alike scores, one ranks before the other.
pub proof fn lemma_key_total(
    si: Option<Score>,
    fi: u64,
    idi: Seq<char>,
    i: int,
    sj: Option<Score>,
    fj: u64,
    idj: Seq<char>,
    j: int,
)
    requires
        scores_alike(si, sj),
        i != j,
    ensures
        key_before(si, fi, idi, i, sj, fj, idj, j) || key_before(sj, fj, idj, j, si, fi, idi, i),
{
    if idi != idj {
        lemma_lex_total(idi, idj);
    }
}

/// Among results, ranking before is a strict order.
pub proof fn lemma_ranked_before_strict(
    apps: Seq<AppEntry>,
    counts: Map<Seq<char>, u64>,
    query: Seq<char>,
    i: int,
    j: int,
)
    requires
        is_candidate(apps, query, i),
        is_candidate(apps, query, j),
    ensures
        !ranked_before(apps, counts, query, i, i),
        ranked_before(apps, counts, query, i, j) ==> !ranked_before(apps, counts, query, j, i),
        i != j ==> ranked_before(apps, counts, query, i, j) || ranked_before(
            apps,
            counts,
            query,
            j,
            i,
        ),
{
    let si = rank_score(apps, query, i);
    let sj = rank_score(apps, query, j);
    let fi = launch_count(counts, apps[i].id@);
    let fj = launch_count(counts, apps[j].id@);
    lemma_key_irreflexive(si, fi, apps[i].id@, i);
    if ranked_before(apps, counts, query, i, j) && ranked_before(apps, counts, query, j, i) {
        lemma_key_transitive(si, fi, apps[i].id@, i, sj, fj, apps[j].id@, j, si, fi, apps[i].id@, i);
    }
    if i != j {
        lemma_key_total(si, fi, apps[i].id@, i, sj, fj, apps[j].id@, j);
    }
}

/// Among results, ranking before is transitive.
pub proof fn lemma_ranked_before_transitive(
    apps: Seq<AppEntry>,
    counts: Map<Seq<char>, u64>,
    query: Seq<char>,
    i: int,
    j: int,
    k: int,
)
    requires
        is_candidate(apps, query, i),
        is_candidate(apps, query, j),
        is_candidate(apps, query, k),
        ranked_before(apps, counts, query, i, j),
        ranked_before(apps, counts, query, j, k),
    ensures
        ranked_before(apps, counts, query, i, k),
{
    lemma_key_transitive(
        rank_score(apps, query, i),
        launch_count(counts, apps[i].id@),
        apps[i].id@,
        i,
        rank_score(apps, query, j),
        launch_count(counts, apps[j].id@),
        apps[j].id@,
        j,
        rank_score(apps, query, k),
        launch_count(counts, apps[k].id@),
        apps[k].id@,
        k,
    );
}

/// There is one ranking only.
pub proof fn lemma_ranking_unique(
    apps: Seq<AppEntry>,
    counts: Map<Seq<char>, u64>,
    query: Seq<char>,
    o1: Seq<int>,
    o2: Seq<int>,
)
    requires
        is_ranking(apps, counts, query, o1),
        is_ranking(apps, counts, query, o2),
    ensures
        o1 == o2,
{
    lemma_sorted_same_elements(apps, counts, query, o1, o2);
}

/// Two sequences of results, each sorted by the ranking order, that hold
/// the same results are equal.
proof fn lemma_sorted_same_elements(
    apps: Seq<AppEntry>,
    counts: Map<Seq<char>, u64>,
    query: Seq<char>,
    o1: Seq<int>,
    o2: Seq<int>,
)
    requires
        forall|k: int| 0 <= k < o1.len() ==> is_candidate(apps, query, #[trigger] o1[k]),
        forall|k: int| 0 <= k < o2.len() ==> is_candidate(apps, query, #[trigger] o2[k]),
        forall|x: int| o1.contains(x) <==> o2.contains(x),
        forall|a: int, b: int|
            0 <= a < b < o1.len() ==> ranked_before(apps, counts, query, #[trigger] o1[a], #[trigger] o1[b]),
        forall|a: int, b: int|
            0 <= a < b < o2.len() ==> ranked_before(apps, counts, query, #[trigger] o2[a], #[trigger] o2[b]),
    ensures
        o1 == o2,
    decreases o1.len(),
{
    if o1.len() == 0 {
        if o2.len() > 0 {
            assert(o2.contains(o2[0]));
        }
        assert(o1 =~= o2);
    } else {
        assert(o1.contains(o1[0]));
        assert(o2.len() > 0);
        assert(o2.contains(o2[0]));
        let x = o1[0];
        let y = o2[0];
        if x != y {
            let p = choose|p: int| 0 <= p < o1.len() && o1[p] == y;
            let q = choose|q: int| 0 <= q < o2.len() && o2[q] == x;
            assert(p > 0);
            assert(q > 0);
            assert(ranked_before(apps, counts, query, o1[0], o1[p]));
            assert(ranked_before(apps, counts, query, o2[0], o2[q]));
            lemma_ranked_before_strict(apps, counts, query, x, y);
        }
        let r1 = o1.drop_first();
        let r2 = o2.drop_first();
        assert forall|z: int| r1.contains(z) implies r2.contains(z) by {
            let p = choose|p: int| 0 <= p < r1.len() && r1[p] == z;
            assert(o1.contains(z));
            let q = choose|q: int| 0 <= q < o2.len() && o2[q] == z;
            if q == 0 {
                assert(ranked_before(apps, counts, query, o1[0], o1[p + 1]));
                lemma_ranked_before_strict(apps, counts, query, z, z);
            }
            assert(r2[q - 1] == z);
        }
        assert forall|z: int| r2.contains(z) implies r1.contains(z) by {
            let q = choose|q: int| 0 <= q < r2.len() && r2[q] == z;
            assert(o2.contains(z));
            let p = choose|p: int| 0 <= p < o1.len() && o1[p] == z;
            if p == 0 {
                assert(ranked_before(apps, counts, query, o2[0], o2[q + 1]));
                lemma_ranked_before_strict(apps, counts, query, z, z);
            }
            assert(r1[p - 1] == z);
        }
        assert forall|a: int, b: int| 0 <= a < b < r1.len() implies ranked_before(
            apps,
            counts,
            query,
            #[trigger] r1[a],
            #[trigger] r1[b],
        ) by {
            assert(r1[a] == o1[a + 1] && r1[b] == o1[b + 1]);
        }
        assert forall|a: int, b: int| 0 <= a < b < r2.len() implies ranked_before(
            apps,
            counts,
            query,
            #[trigger] r2[a],
            #[trigger] r2[b],
        ) by {
            assert(r2[a] == o2[a + 1] && r2[b] == o2[b + 1]);
        }
        assert forall|k: int| 0 <= k < r1.len() implies is_candidate(apps, query, #[trigger] r1[k]) by {
            assert(r1[k] == o1[k + 1]);
        }
        assert forall|k: int| 0 <= k < r2.len() implies is_candidate(apps, query, #[trigger] r2[k]) by {
            assert(r2[k] == o2[k + 1]);
        }
        lemma_sorted_same_elements(apps, counts, query, r1, r2);
        assert(o1 =~= seq![x] + r1);
        assert(o2 =~= seq![y] + r2);
    }
}

/// Whether the key at position `i` ranks before the key at position `j`.
fn key_precedes(
    scores: &Vec<Option<Score>>,
    counts: &Vec<u64>,
    ids: &Vec<Vec<char>>,
    i: usize,
    j: usize,
) -> (r: bool)
    requires
        i < scores.len(),
        j < scores.len(),
        scores.len() == counts.len(),
        scores.len() == ids.len(),
        forall|k: int| 0 <= k < scores.len() ==> (#[trigger] scores[k] matches Some(s) ==> score_valid(s)),
    ensures
        r == key_before(
            scores[i as int],
            counts[i as int],
            ids[i as int]@,
            i as int,
            scores[j as int],
            counts[j as int],
            ids[j as int]@,
            j as int,
        ),
{
    let (above, tied) = match (&scores[i], &scores[j]) {
        (Some(a), Some(b)) => (score_is_above(a, b), score_is_tied(a, b)),
        (None, None) => (false, true),
        _ => (false, false),
    };
    if above {
        return true;
    }
    if !tied {
        return false;
    }
    if counts[i] != counts[j] {
        return counts[i] > counts[j];
    }
    if lex_less(&ids[i], &ids[j]) {
        return true;
    }
    same_chars(&ids[i], &ids[j]) && i < j
}

/// The ranking is the one sequence that ranks the results.
proof fn lemma_ranking_is(
    apps: Seq<AppEntry>,
    counts: Map<Seq<char>, u64>,
    query: Seq<char>,
    order: Seq<int>,
)
    requires
        is_ranking(apps, counts, query, order),
    ensures
        ranking(apps, counts, query) == order,
{
    let chosen = ranking(apps, counts, query);
    assert(is_ranking(apps, counts, query, chosen));
    lemma_ranking_unique(apps, counts, query, chosen, order);
}

/// Ranks applications by fuzzy match quality, launch frequency, and ID.
///
/// Empty queries return applications ordered by launch frequency. Non-empty
/// queries match either case-insensitive substrings or ordered fuzzy character
/// matches. Results are deterministic when all other ranking values match.
pub fn rank_apps(apps: &[AppEntry], frequencies: &FrequencyTable, query: &str, limit: usize) -> (r:
    Vec<AppEntry>)
    ensures
        r@ == ranked_apps(apps@, frequencies@, query@, limit as int),
{
    let query_chars = chars_of(query);
    let (start, end) = trim_bounds(&query_chars);
    let trimmed = query.substring_char(start, end);
    let empty = start == end;
    let n = apps.len();
    let mut scores: Vec<Option<Score>> = Vec::new();
    let mut counts: Vec<u64> = Vec::new();
    let mut ids: Vec<Vec<char>> = Vec::new();
    let mut i: usize = 0;
    while i < n
        invariant
            n == apps.len(),
            trimmed@ == trim(query@),
            empty == (trim(query@).len() == 0),
            i <= n,
            scores.len() == i,
            counts.len() == i,
            ids.len() == i,
            forall|k: int| 0 <= k < i ==> #[trigger] scores[k] == rank_score(apps@, query@, k),
            forall|k: int| 0 <= k < i ==> (#[trigger] scores[k] matches Some(s) ==> score_valid(s)),
            forall|k: int| 0 <= k < i ==> #[trigger] counts[k] == launch_count(frequencies@, apps@[k].id@),
            forall|k: int| 0 <= k < i ==> (#[trigger] ids[k])@ == apps@[k].id@,
        decreases n - i,
    {
        let score = if empty {
            None
        } else {
            fuzzy_score(trimmed, apps[i].name.as_str())
        };
        scores.push(score);
        counts.push(frequencies.count(apps[i].id.as_str()));
        ids.push(chars_of(apps[i].id.as_str()));
        i = i + 1;
    }
    let mut order: Vec<usize> = Vec::new();
    let mut i: usize = 0;
    while i < n
        invariant
            n == apps.len(),
            empty == (trim(query@).len() == 0),
            i <= n,
            scores.len() == n,
            counts.len() == n,
            ids.len() == n,
            forall|k: int| 0 <= k < n ==> #[trigger] scores[k] == rank_score(apps@, query@, k),
            forall|k: int| 0 <= k < n ==> (#[trigger] scores[k] matches Some(s) ==> score_valid(s)),
            forall|k: int| 0 <= k < n ==> #[trigger] counts[k] == launch_count(frequencies@, apps@[k].id@),
            forall|k: int| 0 <= k < n ==> (#[trigger] ids[k])@ == apps@[k].id@,
            forall|k: int| 0 <= k < order.len() ==> (#[trigger] order[k]) < i && is_candidate(
                apps@,
                query@,
                order[k] as int,
            ),
            forall|c: int|
                0 <= c < i && is_candidate(apps@, query@, c) ==> exists|k: int|
                    0 <= k < order.len() && #[trigger] order[k] == c,
            forall|a: int, b: int|
                0 <= a < b < order.len() ==> ranked_before(
                    apps@,
                    frequencies@,
                    query@,
                    #[trigger] order[a] as int,
                    #[trigger] order[b] as int,
                ),
        decreases n - i,
    {
        if empty || scores[i].is_some() {
            assert(is_candidate(apps@, query@, i as int));
            let mut p: usize = 0;
            while p < order.len() && !key_precedes(&scores, &counts, &ids, i, order[p])
                invariant
                    n == apps.len(),
                    i < n,
                    is_candidate(apps@, query@, i as int),
                    scores.len() == n,
                    counts.len() == n,
                    ids.len() == n,
                    forall|k: int| 0 <= k < n ==> #[trigger] scores[k] == rank_score(apps@, query@, k),
                    forall|k: int| 0 <= k < n ==> (#[trigger] scores[k] matches Some(s) ==> score_valid(s)),
                    forall|k: int|
                        0 <= k < n ==> #[trigger] counts[k] == launch_count(frequencies@, apps@[k].id@),
                    forall|k: int| 0 <= k < n ==> (#[trigger] ids[k])@ == apps@[k].id@,
                    forall|k: int| 0 <= k < order.len() ==> (#[trigger] order[k]) < i && is_candidate(
                        apps@,
                        query@,
                        order[k] as int,
                    ),
                    p <= order.len(),
                    forall|k: int|
                        0 <= k < p ==> ranked_before(
                            apps@,
                            frequencies@,
                            query@,
                            #[trigger] order[k] as int,
                            i as int,
                        ),
                decreases order.len() - p,
            {
                proof {
                    lemma_ranked_before_strict(apps@, frequencies@, query@, i as int, order[p as int] as int);
                }
                p = p + 1;
            }
            let ghost old_order = order@;
            proof {
                if p < order.len() {
                    assert(ranked_before(apps@, frequencies@, query@, i as int, order[p as int] as int));
                }
            }
            order.insert(p, i);
            proof {
                assert forall|a: int, b: int| 0 <= a < b < order.len() implies ranked_before(
                    apps@,
                    frequencies@,
                    query@,
                    #[trigger] order[a] as int,
                    #[trigger] order[b] as int,
                ) by {
                    if b < p {
                        assert(order[a] == old_order[a] && order[b] == old_order[b]);
                    } else if b == p {
                        assert(order[a] == old_order[a]);
                    } else if a < p {
                        assert(order[a] == old_order[a] && order[b] == old_order[b - 1]);
                    } else if a == p {
                        assert(order[b] == old_order[b - 1]);
                        if b - 1 > p {
                            assert(ranked_before(
                                apps@,
                                frequencies@,
                                query@,
                                old_order[p as int] as int,
                                old_order[b - 1] as int,
                            ));
                            lemma_ranked_before_transitive(
                                apps@,
                                frequencies@,
                                query@,
                                i as int,
                                old_order[p as int] as int,
                                old_order[b - 1] as int,
                            );
                        }
                    } else {
                        assert(order[a] == old_order[a - 1] && order[b] == old_order[b - 1]);
                    }
                }
                assert forall|c: int|
                    0 <= c < i + 1 && is_candidate(apps@, query@, c) implies exists|k: int|
                    0 <= k < order.len() && #[trigger] order[k] == c by {
                    if c == i {
                        assert(order[p as int] == c);
                    } else {
                        let k = choose|k: int| 0 <= k < old_order.len() && old_order[k] == c;
                        if k < p {
                            assert(order[k] == c);
                        } else {
                            assert(order[k + 1] == c);
                        }
                    }
                }
                assert forall|k: int| 0 <= k < order.len() implies (#[trigger] order[k]) < i + 1
                    && is_candidate(apps@, query@, order[k] as int) by {
                    if k < p {
                        assert(order[k] == old_order[k]);
                    } else if k > p {
                        assert(order[k] == old_order[k - 1]);
                    }
                }
            }
        }
        i = i + 1;
    }
    let ghost ranked = order@.map_values(|x: usize| x as int);
    proof {
        assert forall|k: int| 0 <= k < ranked.len() implies is_candidate(apps@, query@, #[trigger] ranked[k]) by {
            assert(ranked[k] == order[k] as int);
        }
        assert forall|c: int| is_candidate(apps@, query@, c) implies #[trigger] ranked.contains(c) by {
            let k = choose|k: int| 0 <= k < order.len() && #[trigger] order[k] == c;
            assert(ranked[k] == c);
        }
        assert forall|a: int, b: int| 0 <= a < b < ranked.len() implies ranked_before(
            apps@,
            frequencies@,
            query@,
            #[trigger] ranked[a],
            #[trigger] ranked[b],
        ) by {
            assert(ranked[a] == order[a] as int && ranked[b] == order[b] as int);
        }
        lemma_ranking_is(apps@, frequencies@, query@, ranked);
    }
    let count = if limit < order.len() {
        limit
    } else {
        order.len()
    };
    let mut result: Vec<AppEntry> = Vec::new();
    let mut k: usize = 0;
    while k < count
        invariant
            count <= order.len(),
            forall|j: int| 0 <= j < order.len() ==> (#[trigger] order[j]) < apps.len(),
            ranked == order@.map_values(|x: usize| x as int),
            k <= count,
            result@ == ranked.take(k as int).map_values(|j: int| apps@[j]),
        decreases count - k,
    {
        result.push(apps[order[k]].clone());
        k = k + 1;
        assert(result@ =~= ranked.take(k as int).map_values(|j: int| apps@[j]));
    }
    result
}

/// Whether `order` lists results for `query`, each ranked before those
/// after it.
pub open spec fn is_sorted_results(
    apps: Seq<AppEntry>,
    counts: Map<Seq<char>, u64>,
    query: Seq<char>,
    order: Seq<int>,
) -> bool {
    &&& forall|k: int| 0 <= k < order.len() ==> is_candidate(apps, query, #[trigger] order[k])
    &&& forall|a: int, b: int|
        0 <= a < b < order.len() ==> ranked_before(apps, counts, query, #[trigger] order[a], #[trigger] order[b])
}

/// A result can be put into a sorted sequence of other results.
proof fn lemma_insert_sorted(
    apps: Seq<AppEntry>,
    counts: Map<Seq<char>, u64>,
    query: Seq<char>,
    order: Seq<int>,
    x: int,
) -> (r: Seq<int>)
    requires
        is_sorted_results(apps, counts, query, order),
        is_candidate(apps, query, x),
        !order.contains(x),
    ensures
        is_sorted_results(apps, counts, query, r),
        forall|y: int| r.contains(y) <==> (order.contains(y) || y == x),
    decreases order.len(),
{
    if order.len() == 0 {
        let r = seq![x];
        assert forall|y: int| r.contains(y) <==> (order.contains(y) || y == x) by {
            if r.contains(y) {
                assert(r[0] == x);
            }
            if y == x {
                assert(r[0] == y);
            }
        }
        r
    } else if ranked_before(apps, counts, query, x, order[0]) {
        let r = seq![x] + order;
        assert forall|a: int, b: int| 0 <= a < b < r.len() implies ranked_before(
            apps,
            counts,
            query,
            #[trigger] r[a],
            #[trigger] r[b],
        ) by {
            if a == 0 {
                if b > 1 {
                    assert(ranked_before(apps, counts, query, order[0], order[b - 1]));
                    lemma_ranked_before_transitive(apps, counts, query, x, order[0], order[b - 1]);
                }
            } else {
                assert(r[a] == order[a - 1] && r[b] == order[b - 1]);
            }
        }
        assert forall|k: int| 0 <= k < r.len() implies is_candidate(apps, query, #[trigger] r[k]) by {
            if k > 0 {
                assert(r[k] == order[k - 1]);
            }
        }
        assert forall|y: int| r.contains(y) <==> (order.contains(y) || y == x) by {
            if r.contains(y) {
                let k = choose|k: int| 0 <= k < r.len() && r[k] == y;
                if k > 0 {
                    assert(order[k - 1] == y);
                }
            }
            if order.contains(y) {
                let k = choose|k: int| 0 <= k < order.len() && order[k] == y;
                assert(r[k + 1] == y);
            }
            if y == x {
                assert(r[0] == y);
            }
        }
        r
    } else {
        let head = order[0];
        let tail = order.drop_first();
        assert(order.contains(head));
        assert(is_candidate(apps, query, head));
        lemma_ranked_before_strict(apps, counts, query, x, head);
        assert forall|a: int, b: int| 0 <= a < b < tail.len() implies ranked_before(
            apps,
            counts,
            query,
            #[trigger] tail[a],
            #[trigger] tail[b],
        ) by {
            assert(tail[a] == order[a + 1] && tail[b] == order[b + 1]);
        }
        assert forall|k: int| 0 <= k < tail.len() implies is_candidate(apps, query, #[trigger] tail[k]) by {
            assert(tail[k] == order[k + 1]);
        }
        assert(!tail.contains(x)) by {
            if tail.contains(x) {
                let k = choose|k: int| 0 <= k < tail.len() && tail[k] == x;
                assert(order[k + 1] == x);
            }
        }
        let rest = lemma_insert_sorted(apps, counts, query, tail, x);
        let r = seq![head] + rest;
        assert forall|y: int| rest.contains(y) implies ranked_before(apps, counts, query, head, y) by {
            if y != x {
                assert(tail.contains(y));
                let k = choose|k: int| 0 <= k < tail.len() && tail[k] == y;
                assert(order[k + 1] == y);
                assert(ranked_before(apps, counts, query, order[0], order[k + 1]));
            }
        }
        assert forall|a: int, b: int| 0 <= a < b < r.len() implies ranked_before(
            apps,
            counts,
            query,
            #[trigger] r[a],
            #[trigger] r[b],
        ) by {
            if a == 0 {
                assert(r[b] == rest[b - 1]);
                assert(rest.contains(rest[b - 1]));
            } else {
                assert(r[a] == rest[a - 1] && r[b] == rest[b - 1]);
            }
        }
        assert forall|k: int| 0 <= k < r.len() implies is_candidate(apps, query, #[trigger] r[k]) by {
            if k > 0 {
                assert(r[k] == rest[k - 1]);
                assert(rest.contains(rest[k - 1]));
                if rest[k - 1] != x {
                    assert(tail.contains(rest[k - 1]));
                }
            }
        }
        assert forall|y: int| r.contains(y) <==> (order.contains(y) || y == x) by {
            if r.contains(y) {
                let k = choose|k: int| 0 <= k < r.len() && r[k] == y;
                if k > 0 {
                    assert(rest[k - 1] == y);
                    assert(rest.contains(y));
                    if y != x {
                        assert(tail.contains(y));
                        let j = choose|j: int| 0 <= j < tail.len() && tail[j] == y;
                        assert(order[j + 1] == y);
                    }
                }
            }
            if order.contains(y) {
                let k = choose|k: int| 0 <= k < order.len() && order[k] == y;
                if k == 0 {
                    assert(r[0] == y);
                } else {
                    assert(tail[k - 1] == y);
                    assert(rest.contains(y));
                    let j = choose|j: int| 0 <= j < rest.len() && rest[j] == y;
                    assert(r[j + 1] == y);
                }
            }
            if y == x {
                assert(rest.contains(y));
                let j = choose|j: int| 0 <= j < rest.len() && rest[j] == y;
                assert(r[j + 1] == y);
            }
        }
        r
    }
}

/// The results among the first `n` applications can be ranked.
proof fn lemma_ranking_prefix_exists(
    apps: Seq<AppEntry>,
    counts: Map<Seq<char>, u64>,
    query: Seq<char>,
    n: int,
) -> (r: Seq<int>)
    requires
        0 <= n <= apps.len(),
    ensures
        is_sorted_results(apps, counts, query, r),
        forall|y: int| r.contains(y) <==> (is_candidate(apps, query, y) && y < n),
    decreases n,
{
    if n == 0 {
        let r = Seq::<int>::empty();
        r
    } else {
        let o = lemma_ranking_prefix_exists(apps, counts, query, n - 1);
        if is_candidate(apps, query, n - 1) {
            let r = lemma_insert_sorted(apps, counts, query, o, n - 1);
            r
        } else {
            o
        }
    }
}

/// The ranking of the results exists, so `ranking` gives it.
pub proof fn lemma_ranking(apps: Seq<AppEntry>, counts: Map<Seq<char>, u64>, query: Seq<char>)
    ensures
        is_ranking(apps, counts, query, ranking(apps, counts, query)),
{
    let o = lemma_ranking_prefix_exists(apps, counts, query, apps.len() as int);
    assert(is_ranking(apps, counts, query, o));
}

/// The results are the applications at the first `limit` positions of the
/// ranking, as many as the limit allows, fewer when fewer match.
pub proof fn lemma_ranked_apps_positions(
    apps: Seq<AppEntry>,
    counts: Map<Seq<char>, u64>,
    query: Seq<char>,
    limit: int,
)
    requires
        limit >= 0,
    ensures
        ranked_apps(apps, counts, query, limit).len() == (if limit < ranking(apps, counts, query).len() {
            limit
        } else {
            ranking(apps, counts, query).len() as int
        }),
        forall|p: int|
            0 <= p < ranked_apps(apps, counts, query, limit).len() ==> #[trigger] ranked_apps(
                apps,
                counts,
                query,
                limit,
            )[p] == apps[ranking(apps, counts, query)[p]],
        is_ranking(apps, counts, query, ranking(apps, counts, query)),
{
    lemma_ranking(apps, counts, query);
    let o = ranking(apps, counts, query);
    let n = if limit < o.len() {
        limit
    } else {
        o.len() as int
    };
    let r = ranked_apps(apps, counts, query, limit);
    assert(o.take(n).len() == n);
    assert forall|p: int| 0 <= p < r.len() implies #[trigger] r[p] == apps[o[p]] by {
        assert(o.take(n)[p] == o[p]);
    }
}

/// Scores take priority over launch frequency: every result is worth at
/// least as much as each result after it.
pub proof fn lemma_score_takes_priority(
    apps: Seq<AppEntry>,
    counts: Map<Seq<char>, u64>,
    query: Seq<char>,
    limit: int,
    p: int,
    q: int,
)
    requires
        0 <= limit,
        0 <= p < q < ranked_apps(apps, counts, query, limit).len(),
    ensures
        ({
            let r = ranked_apps(apps, counts, query, limit);
            match (entry_score(query, r[p]), entry_score(query, r[q])) {
                (Some(a), Some(b)) => score_above(a, b) || score_ties(a, b),
                (None, None) => trim(query).len() == 0,
                _ => false,
            }
        }),
{
    lemma_ranked_apps_positions(apps, counts, query, limit);
    let o = ranking(apps, counts, query);
    assert(o[p] == o[p] && o[q] == o[q]);
    assert(ranked_before(apps, counts, query, o[p], o[q]));
}

/// Launch frequency breaks ties of score: of two results worth the same,
/// the earlier one was launched at least as often.
pub proof fn lemma_frequency_breaks_equal_scores(
    apps: Seq<AppEntry>,
    counts: Map<Seq<char>, u64>,
    query: Seq<char>,
    limit: int,
    p: int,
    q: int,
)
    requires
        0 <= limit,
        0 <= p < q < ranked_apps(apps, counts, query, limit).len(),
        ({
            let r = ranked_apps(apps, counts, query, limit);
            match (entry_score(query, r[p]), entry_score(query, r[q])) {
                (Some(a), Some(b)) => score_ties(a, b),
                _ => true,
            }
        }),
    ensures
        ({
            let r = ranked_apps(apps, counts, query, limit);
            launch_count(counts, r[p].id@) >= launch_count(counts, r[q].id@)
        }),
{
    lemma_ranked_apps_positions(apps, counts, query, limit);
    let o = ranking(apps, counts, query);
    assert(o[p] == o[p] && o[q] == o[q]);
    assert(ranked_before(apps, counts, query, o[p], o[q]));
    let r = ranked_apps(apps, counts, query, limit);
    if let (Some(a), Some(b)) = (entry_score(query, r[p]), entry_score(query, r[q])) {
        assert(!score_above(a, b));
    }
}

/// The id breaks ties of score and launch frequency: of two results worth
/// the same and launched as often, the earlier one's id does not come after
/// the later one's.
pub proof fn lemma_id_breaks_equal_score_and_frequency(
    apps: Seq<AppEntry>,
    counts: Map<Seq<char>, u64>,
    query: Seq<char>,
    limit: int,
    p: int,
    q: int,
)
    requires
        0 <= limit,
        0 <= p < q < ranked_apps(apps, counts, query, limit).len(),
        ({
            let r = ranked_apps(apps, counts, query, limit);
            &&& match (entry_score(query, r[p]), entry_score(query, r[q])) {
                (Some(a), Some(b)) => score_ties(a, b),
                _ => true,
            }
            &&& launch_count(counts, r[p].id@) == launch_count(counts, r[q].id@)
        }),
    ensures
        ({
            let r = ranked_apps(apps, counts, query, limit);
            lex_lt(r[p].id@, r[q].id@) || r[p].id@ == r[q].id@
        }),
{
    lemma_ranked_apps_positions(apps, counts, query, limit);
    let o = ranking(apps, counts, query);
    assert(o[p] == o[p] && o[q] == o[q]);
    assert(ranked_before(apps, counts, query, o[p], o[q]));
    let r = ranked_apps(apps, counts, query, limit);
    if let (Some(a), Some(b)) = (entry_score(query, r[p]), entry_score(query, r[q])) {
        assert(!score_above(a, b));
    }
}

/// A query that is empty once trimmed lists the applications by launch
/// frequency, most launched first, as many as the limit allows.
pub proof fn lemma_empty_query_orders_by_frequency(
    apps: Seq<AppEntry>,
    counts: Map<Seq<char>, u64>,
    query: Seq<char>,
    limit: int,
)
    requires
        trim(query).len() == 0,
        limit >= 0,
    ensures
        ranked_apps(apps, counts, query, limit).len() == (if limit < apps.len() {
            limit
        } else {
            apps.len() as int
        }),
        forall|p: int, q: int|
            0 <= p < q < ranked_apps(apps, counts, query, limit).len() ==> launch_count(
                counts,
                (#[trigger] ranked_apps(apps, counts, query, limit)[p]).id@,
            ) >= launch_count(counts, (#[trigger] ranked_apps(apps, counts, query, limit)[q]).id@),
{
    lemma_ranked_apps_positions(apps, counts, query, limit);
    let o = ranking(apps, counts, query);
    let r = ranked_apps(apps, counts, query, limit);
    lemma_ranking_covers(apps, counts, query);
    assert forall|p: int, q: int| 0 <= p < q < r.len() implies launch_count(
        counts,
        (#[trigger] r[p]).id@,
    ) >= launch_count(counts, (#[trigger] r[q]).id@) by {
        assert(ranked_before(apps, counts, query, o[p], o[q]));
    }
}

/// The ranking lists each result once, so it is as long as the number of
/// results; for a query that is empty once trimmed, that is every
/// application.
pub proof fn lemma_ranking_covers(apps: Seq<AppEntry>, counts: Map<Seq<char>, u64>, query: Seq<char>)
    ensures
        ranking(apps, counts, query).no_duplicates(),
        trim(query).len() == 0 ==> ranking(apps, counts, query).len() == apps.len(),
{
    lemma_ranking(apps, counts, query);
    let o = ranking(apps, counts, query);
    assert forall|a: int, b: int| 0 <= a < o.len() && 0 <= b < o.len() && a != b implies o[a] != o[b] by {
        if a < b {
            assert(ranked_before(apps, counts, query, o[a], o[b]));
            lemma_ranked_before_strict(apps, counts, query, o[a], o[b]);
        } else {
            assert(ranked_before(apps, counts, query, o[b], o[a]));
            lemma_ranked_before_strict(apps, counts, query, o[b], o[a]);
        }
    }
    if trim(query).len() == 0 {
        let all = Seq::new(apps.len(), |i: int| i);
        assert forall|i: int| 0 <= i < all.len() implies #[trigger] o.contains(all[i]) by {
            assert(is_candidate(apps, query, all[i]));
        }
        assert forall|k: int| 0 <= k < o.len() implies 0 <= #[trigger] o[k] < apps.len() by {
            assert(is_candidate(apps, query, o[k]));
        }
        lemma_same_positions_len(o, apps.len() as int);
    }
}

/// A sequence without duplicates of exactly the positions below `n` has
/// length `n`.
proof fn lemma_same_positions_len(o: Seq<int>, n: int)
    requires
        n >= 0,
        o.no_duplicates(),
        forall|k: int| 0 <= k < o.len() ==> 0 <= #[trigger] o[k] < n,
        forall|i: int| 0 <= i < n ==> #[trigger] o.contains(i),
    ensures
        o.len() == n,
{
    let s = o.to_set();
    let full = Set::new(|i: int| 0 <= i < n);
    assert(s =~= full) by {
        assert forall|i: int| s.contains(i) implies full.contains(i) by {
            let k = choose|k: int| 0 <= k < o.len() && o[k] == i;
        }
        assert forall|i: int| full.contains(i) implies s.contains(i) by {
            assert(o.contains(i));
        }
    }
    o.unique_seq_to_set();
    vstd::set_lib::lemma_int_range(0, n);
    assert(full =~= vstd::set_lib::set_int_range(0, n));
}

/// Every result is an application that matches the query, and when fewer
/// results than the limit are listed, every matching application is listed.
pub proof fn lemma_results_are_the_matches(
    apps: Seq<AppEntry>,
    counts: Map<Seq<char>, u64>,
    query: Seq<char>,
    limit: int,
)
    requires
        0 <= limit,
    ensures
        forall|p: int|
            0 <= p < ranked_apps(apps, counts, query, limit).len() ==> is_candidate(
                apps,
                query,
                ranking(apps, counts, query)[p],
            ) && #[trigger] ranked_apps(apps, counts, query, limit)[p]
                == apps[ranking(apps, counts, query)[p]],
        ranked_apps(apps, counts, query, limit).len() < limit ==> forall|i: int|
            is_candidate(apps, query, i) ==> #[trigger] ranked_apps(
                apps,
                counts,
                query,
                limit,
            ).contains(apps[i]),
{
    lemma_ranked_apps_positions(apps, counts, query, limit);
    let o = ranking(apps, counts, query);
    let r = ranked_apps(apps, counts, query, limit);
    assert forall|p: int| 0 <= p < r.len() implies is_candidate(apps, query, o[p]) by {
        assert(o.take(r.len() as int)[p] == o[p]);
    }
    if r.len() < limit {
        assert forall|i: int| is_candidate(apps, query, i) implies #[trigger] r.contains(apps[i]) by {
            assert(o.contains(i));
            let k = choose|k: int| 0 <= k < o.len() && o[k] == i;
            assert(r[k] == apps[i]);
        }
    }
}

} // verus!
