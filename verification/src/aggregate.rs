//! Pattern aggregation: deduplicating the stream of normalized patterns by
//! display identity, counting occurrences, and ordering by descending
//! frequency.

use vstd::prelude::*;

verus! {

use crate::fragments::{fragments_spec, extract_fragments};
use crate::json::spec_parse_json;
use crate::text::str_eq;
use crate::pattern::{
    QueryPattern,
    QueryPatternView,
    identity_spec,
    normalize_spec,
    parse_query_pattern,
};

/// The run-level failure: the whole input yielded no recognizable pattern.
#[derive(Debug, PartialEq, Eq, Structural)]
pub enum AnalysisError {
    NoPatternsFound,
}

/// The views of a sequence of patterns.
pub open spec fn pview(s: Seq<QueryPattern>) -> Seq<QueryPatternView> {
    Seq::new(s.len(), |i: int| s[i]@)
}

/// The views of a sequence of counted patterns.
pub open spec fn entries_view(s: Seq<(QueryPattern, usize)>) -> Seq<(QueryPatternView, nat)> {
    Seq::new(s.len(), |i: int| (s[i].0@, s[i].1 as nat))
}

/// The position of the aggregation entry whose pattern has the given
/// identity, or a negative value when none has it.
pub open spec fn find_identity(s: Seq<(QueryPatternView, nat)>, id: Seq<char>) -> int
    decreases s.len(),
{
    if s.len() == 0 {
        -1
    } else if identity_spec(s[0].0) == id {
        0
    } else {
        let r = find_identity(s.drop_first(), id);
        if r < 0 {
            -1
        } else {
            r + 1
        }
    }
}

/// Folds one pattern into the aggregation: a pattern whose identity is
/// already present increments that entry's count and changes nothing else,
/// so the first-seen pattern with its sampled values is kept; a new
/// identity appends a fresh entry with count one.
pub open spec fn agg_push(
    s: Seq<(QueryPatternView, nat)>,
    p: QueryPatternView,
) -> Seq<(QueryPatternView, nat)> {
    let i = find_identity(s, identity_spec(p));
    if i >= 0 {
        s.update(i, (s[i].0, (s[i].1 + 1) as nat))
    } else {
        s.push((p, 1))
    }
}

/// The aggregation of a stream of patterns, in encounter order.
pub open spec fn agg_fold(ps: Seq<QueryPatternView>) -> Seq<(QueryPatternView, nat)>
    decreases ps.len(),
{
    if ps.len() == 0 {
        Seq::empty()
    } else {
        agg_push(agg_fold(ps.drop_last()), ps.last())
    }
}

/// Inserts an entry into a count-descending sequence after every entry
/// whose count is at least as large: a stable descending insertion.
pub open spec fn insert_desc(
    s: Seq<(QueryPatternView, nat)>,
    e: (QueryPatternView, nat),
) -> Seq<(QueryPatternView, nat)>
    decreases s.len(),
{
    if s.len() == 0 {
        seq![e]
    } else if s[0].1 >= e.1 {
        seq![s[0]] + insert_desc(s.drop_first(), e)
    } else {
        seq![e] + s
    }
}

/// The count-descending ordering of the aggregation; entries with equal
/// counts keep their first-insertion order.
pub open spec fn sort_desc(s: Seq<(QueryPatternView, nat)>) -> Seq<(QueryPatternView, nat)>
    decreases s.len(),
{
    if s.len() == 0 {
        Seq::empty()
    } else {
        insert_desc(sort_desc(s.drop_last()), s.last())
    }
}

/// The patterns a sequence of candidate fragments contributes: each one
/// that parses and normalizes, in order; the rest are skipped silently.
pub open spec fn patterns_of_frags(frags: Seq<Seq<char>>) -> Seq<QueryPatternView>
    decreases frags.len(),
{
    if frags.len() == 0 {
        Seq::empty()
    } else {
        let rest = patterns_of_frags(frags.drop_last());
        match spec_parse_json(frags.last()) {
            Some(d) => match normalize_spec(d) {
                Some(pv) => rest.push(pv),
                None => rest,
            },
            None => rest,
        }
    }
}

/// The patterns an ordered source of text fields contributes.
pub open spec fn patterns_of_fields(fields: Seq<Seq<char>>) -> Seq<QueryPatternView>
    decreases fields.len(),
{
    if fields.len() == 0 {
        Seq::empty()
    } else {
        patterns_of_fields(fields.drop_last()) + patterns_of_frags(
            fragments_spec(fields.last()),
        )
    }
}

/// The full analysis of an ordered source of text fields: its patterns,
/// aggregated and ordered by descending count.
pub open spec fn analysis_spec(fields: Seq<Seq<char>>) -> Seq<(QueryPatternView, nat)> {
    sort_desc(agg_fold(patterns_of_fields(fields)))
}

/// Extracts and normalizes every pattern that an ordered source of text
/// fields holds, in encounter order.
pub fn collect_patterns(fields: &Vec<String>) -> (r: Vec<QueryPattern>)
    ensures
        pview(r@) == patterns_of_fields(fields.deep_view()),
{
    let ghost fdv = fields.deep_view();
    let mut out: Vec<QueryPattern> = Vec::new();
    proof {
        assert(pview(out@) =~= patterns_of_fields(fdv.take(0)));
    }
    let mut i: usize = 0;
    while i < fields.len()
        invariant
            i <= fields.len(),
            fdv == fields.deep_view(),
            pview(out@) == patterns_of_fields(fdv.take(i as int)),
        decreases fields.len() - i,
    {
        let frags = extract_fragments(fields[i].as_str());
        let ghost gdv = frags.deep_view();
        proof {
            assert(fdv.take(i + 1).drop_last() =~= fdv.take(i as int));
            assert(fdv.take(i + 1).last() == fdv[i as int]);
        }
        let mut j: usize = 0;
        while j < frags.len()
            invariant
                j <= frags.len(),
                gdv == frags.deep_view(),
                pview(out@) == patterns_of_fields(fdv.take(i as int)) + patterns_of_frags(
                    gdv.take(j as int),
                ),
            decreases frags.len() - j,
        {
            proof {
                assert(gdv.take(j + 1).drop_last() =~= gdv.take(j as int));
                assert(gdv.take(j + 1).last() == gdv[j as int]);
            }
            proof {
                assert(gdv[j as int] == frags@[j as int]@);
            }
            let ghost opre = out@;
            if let Some(p) = parse_query_pattern(frags[j].as_str()) {
                out.push(p);
                proof {
                    assert(pview(out@) =~= pview(opre).push(p@));
                    assert(patterns_of_frags(gdv.take(j + 1)) == patterns_of_frags(
                        gdv.take(j as int),
                    ).push(p@));
                }
            }
            j = j + 1;
        }
        proof {
            assert(gdv.take(gdv.len() as int) =~= gdv);
        }
        i = i + 1;
    }
    proof {
        assert(fdv.take(fdv.len() as int) =~= fdv);
    }
    out
}

struct AggSlot {
    pattern: QueryPattern,
    id: String,
    count: usize,
}

spec fn slots_view(s: Seq<AggSlot>) -> Seq<(QueryPatternView, nat)> {
    Seq::new(s.len(), |i: int| (s[i].pattern@, s[i].count as nat))
}

proof fn lemma_find_identity_at(s: Seq<(QueryPatternView, nat)>, id: Seq<char>, p: int)
    requires
        0 <= p <= s.len(),
        forall|j: int| 0 <= j < p ==> identity_spec(s[j].0) != id,
        p < s.len() ==> identity_spec(s[p].0) == id,
    ensures
        p < s.len() ==> find_identity(s, id) == p,
        p == s.len() ==> find_identity(s, id) < 0,
    decreases p,
{
    if p == 0 {
    } else {
        let t = s.drop_first();
        assert(forall|j: int| 0 <= j < p - 1 ==> t[j] == s[j + 1]);
        assert(p - 1 < t.len() ==> t[p - 1] == s[p as int]);
        lemma_find_identity_at(t, id, p - 1);
    }
}

/// Aggregates a stream of patterns: deduplicates by display identity with
/// first-seen-wins samples, counts occurrences, and orders by descending
/// count with ties in first-insertion order. Fails exactly when the stream
/// held no pattern at all.
pub fn aggregate_patterns(patterns: Vec<QueryPattern>) -> (r: Result<
    Vec<(QueryPattern, usize)>,
    AnalysisError,
>)
    ensures
        match r {
            Ok(v) => entries_view(v@) == sort_desc(agg_fold(pview(patterns@))) && v@.len() > 0
                && patterns@.len() > 0,
            Err(e) => e == AnalysisError::NoPatternsFound && patterns@.len() == 0,
        },
{
    let ghost pall = pview(patterns@);
    let total = patterns.len();
    if total == 0 {
        return Err(AnalysisError::NoPatternsFound);
    }
    let mut rest = patterns;
    let mut acc: Vec<AggSlot> = Vec::new();
    let mut i: usize = 0;
    proof {
        assert(slots_view(acc@) =~= agg_fold(pall.take(0)));
        assert(pview(rest@.skip(0)) =~= pall.skip(0));
    }
    while i < total
        invariant
            i <= total,
            total == pall.len(),
            rest@.len() == total - i,
            pview(rest@) == pall.skip(i as int),
            slots_view(acc@) == agg_fold(pall.take(i as int)),
            forall|k: int| 0 <= k < acc@.len() ==> (#[trigger] acc@[k]).id@ == identity_spec(
                acc@[k].pattern@,
            ),
            forall|k: int| 0 <= k < acc@.len() ==> (#[trigger] acc@[k]).count <= i,
        decreases total - i,
    {
        let ghost rpre = rest@;
        let p = rest.remove(0);
        proof {
            assert(p == rpre[0]);
            assert(pview(rpre)[0] == rpre[0]@);
            assert(p@ == pall.skip(i as int)[0]);
            assert(p@ == pall[i as int]);
            assert(forall|m: int| 0 <= m < rest@.len() ==> rest@[m] == rpre[m + 1]);
            assert forall|m: int| 0 <= m < rest@.len() implies pview(rest@)[m] == pall.skip(
                i + 1,
            )[m] by {
                assert(pview(rpre)[m + 1] == rpre[m + 1]@);
                assert(pview(rpre)[m + 1] == pall.skip(i as int)[m + 1]);
            }
            assert(pview(rest@) =~= pall.skip(i + 1));
            assert(pall.take(i + 1).drop_last() =~= pall.take(i as int));
            assert(pall.take(i + 1).last() == pall[i as int]);
        }
        let id = p.identity();
        let ghost sv = slots_view(acc@);
        let mut k: usize = 0;
        while k < acc.len() && !str_eq(acc[k].id.as_str(), id.as_str())
            invariant
                k <= acc.len(),
                id@ == identity_spec(p@),
                sv == slots_view(acc@),
                forall|m: int| 0 <= m < acc@.len() ==> (#[trigger] acc@[m]).id@ == identity_spec(
                    acc@[m].pattern@,
                ),
                forall|m: int| 0 <= m < k ==> identity_spec(sv[m].0) != id@,
            decreases acc.len() - k,
        {
            k = k + 1;
        }
        if k < acc.len() {
            proof {
                lemma_find_identity_at(sv, id@, k as int);
            }
            let mut slot = acc.remove(k);
            slot.count = slot.count + 1;
            acc.insert(k, slot);
            proof {
                assert(slots_view(acc@) =~= sv.update(k as int, (sv[k as int].0, (sv[k as int].1
                    + 1) as nat)));
            }
        } else {
            proof {
                lemma_find_identity_at(sv, id@, k as int);
            }
            acc.push(AggSlot { pattern: p, id, count: 1 });
            proof {
                assert(slots_view(acc@) =~= sv.push((pall[i as int], 1)));
            }
        }
        i = i + 1;
    }
    proof {
        assert(pall.take(total as int) =~= pall);
    }
    // Stable descending insertion sort on the aggregated entries.
    let mut sorted: Vec<(QueryPattern, usize)> = Vec::new();
    let ghost agg = slots_view(acc@);
    let mut n: usize = 0;
    let total_entries = acc.len();
    proof {
        assert(entries_view(sorted@) =~= sort_desc(agg.take(0)));
        assert(slots_view(acc@.skip(0)) =~= agg.skip(0));
    }
    while n < total_entries
        invariant
            n <= total_entries,
            total_entries == agg.len(),
            acc@.len() == total_entries - n,
            slots_view(acc@) == agg.skip(n as int),
            entries_view(sorted@) == sort_desc(agg.take(n as int)),
        decreases total_entries - n,
    {
        let ghost apre = acc@;
        let slot = acc.remove(0);
        proof {
            assert(slot == apre[0]);
            assert(slots_view(apre)[0] == (apre[0].pattern@, apre[0].count as nat));
            assert((slot.pattern@, slot.count as nat) == agg.skip(n as int)[0]);
            assert((slot.pattern@, slot.count as nat) == agg[n as int]);
            assert(forall|m: int| 0 <= m < acc@.len() ==> acc@[m] == apre[m + 1]);
            assert forall|m: int| 0 <= m < acc@.len() implies slots_view(acc@)[m] == agg.skip(
                n + 1,
            )[m] by {
                assert(slots_view(apre)[m + 1] == (apre[m + 1].pattern@, apre[m + 1].count as nat));
                assert(slots_view(apre)[m + 1] == agg.skip(n as int)[m + 1]);
            }
            assert(slots_view(acc@) =~= agg.skip(n + 1));
            assert(agg.take(n + 1).drop_last() =~= agg.take(n as int));
            assert(agg.take(n + 1).last() == agg[n as int]);
        }
        let ghost so = entries_view(sorted@);
        let mut q: usize = 0;
        while q < sorted.len() && sorted[q].1 >= slot.count
            invariant
                q <= sorted.len(),
                so == entries_view(sorted@),
                forall|m: int| 0 <= m < q ==> (#[trigger] so[m]).1 >= slot.count as nat,
            decreases sorted.len() - q,
        {
            q = q + 1;
        }
        proof {
            lemma_insert_desc_at(so, (slot.pattern@, slot.count as nat), q as int);
        }
        sorted.insert(q, (slot.pattern, slot.count));
        proof {
            assert(entries_view(sorted@) =~= so.take(q as int) + seq![agg[n as int]] + so.skip(
                q as int,
            ));
        }
        n = n + 1;
    }
    proof {
        assert(agg.take(total_entries as int) =~= agg);
        lemma_agg_fold_len(pall);
        lemma_sort_desc_len(agg);
    }
    Ok(sorted)
}

proof fn lemma_insert_desc_at(s: Seq<(QueryPatternView, nat)>, e: (QueryPatternView, nat), p: int)
    requires
        0 <= p <= s.len(),
        forall|j: int| 0 <= j < p ==> (#[trigger] s[j]).1 >= e.1,
        p < s.len() ==> s[p].1 < e.1,
    ensures
        insert_desc(s, e) == s.take(p) + seq![e] + s.skip(p),
    decreases p,
{
    if p == 0 {
        if s.len() == 0 {
            assert(insert_desc(s, e) =~= s.take(0) + seq![e] + s.skip(0));
        } else {
            assert(s[0].1 < e.1);
            assert(insert_desc(s, e) =~= s.take(0) + seq![e] + s.skip(0));
        }
    } else {
        let t = s.drop_first();
        assert(forall|j: int| 0 <= j < p - 1 ==> t[j] == s[j + 1]);
        assert(p - 1 < t.len() ==> t[p - 1] == s[p as int]);
        lemma_insert_desc_at(t, e, p - 1);
        assert(s[0].1 >= e.1);
        assert(insert_desc(s, e) =~= s.take(p) + seq![e] + s.skip(p));
    }
}

proof fn lemma_find_identity_range(s: Seq<(QueryPatternView, nat)>, id: Seq<char>)
    ensures
        find_identity(s, id) < s.len(),
    decreases s.len(),
{
    if s.len() > 0 {
        lemma_find_identity_range(s.drop_first(), id);
    }
}

/// An aggregation of at least one pattern holds at least one entry.
proof fn lemma_agg_fold_len(ps: Seq<QueryPatternView>)
    ensures
        ps.len() > 0 ==> agg_fold(ps).len() > 0,
        agg_fold(ps).len() <= ps.len(),
    decreases ps.len(),
{
    if ps.len() > 0 {
        lemma_agg_fold_len(ps.drop_last());
        lemma_find_identity_range(agg_fold(ps.drop_last()), identity_spec(ps.last()));
    }
}

/// A stable sort keeps the number of entries.
proof fn lemma_sort_desc_len(s: Seq<(QueryPatternView, nat)>)
    ensures
        sort_desc(s).len() == s.len(),
    decreases s.len(),
{
    if s.len() > 0 {
        lemma_sort_desc_len(s.drop_last());
        lemma_insert_desc_len(sort_desc(s.drop_last()), s.last());
    }
}

proof fn lemma_insert_desc_len(s: Seq<(QueryPatternView, nat)>, e: (QueryPatternView, nat))
    ensures
        insert_desc(s, e).len() == s.len() + 1,
    decreases s.len(),
{
    if s.len() > 0 && s[0].1 >= e.1 {
        lemma_insert_desc_len(s.drop_first(), e);
    }
}

/// Runs the whole pipeline on an ordered source of text fields: fragment
/// extraction, normalization, and aggregation. Fails exactly when no field
/// yielded a recognizable pattern.
pub fn find_query_patterns(fields: &Vec<String>) -> (r: Result<
    Vec<(QueryPattern, usize)>,
    AnalysisError,
>)
    ensures
        match r {
            Ok(v) => entries_view(v@) == analysis_spec(fields.deep_view()) && v@.len() > 0,
            Err(e) => e == AnalysisError::NoPatternsFound && patterns_of_fields(
                fields.deep_view(),
            ).len() == 0,
        },
{
    let patterns = collect_patterns(fields);
    aggregate_patterns(patterns)
}

/// Ordered by non-increasing occurrence count.
pub open spec fn desc_sorted(s: Seq<(QueryPatternView, nat)>) -> bool {
    forall|i: int, j: int| 0 <= i < j < s.len() ==> (#[trigger] s[i]).1 >= (#[trigger] s[j]).1
}

proof fn lemma_desc_pair(s: Seq<(QueryPatternView, nat)>, a: int, b: int)
    requires
        desc_sorted(s),
        0 <= a < b < s.len(),
    ensures
        s[a].1 >= s[b].1,
{
    assert(s[a].1 >= s[b].1);
}

proof fn lemma_insert_desc_contains(
    s: Seq<(QueryPatternView, nat)>,
    e: (QueryPatternView, nat),
    y: (QueryPatternView, nat),
)
    requires
        insert_desc(s, e).contains(y),
    ensures
        s.contains(y) || y == e,
    decreases s.len(),
{
    let r = insert_desc(s, e);
    let i = choose|i: int| 0 <= i < r.len() && r[i] == y;
    if s.len() == 0 {
        assert(y == e);
    } else if s[0].1 >= e.1 {
        if i == 0 {
            assert(s[0] == y);
        } else {
            let t = s.drop_first();
            assert(insert_desc(t, e)[i - 1] == y);
            assert(insert_desc(t, e).contains(y));
            lemma_insert_desc_contains(t, e, y);
            if t.contains(y) {
                let j = choose|j: int| 0 <= j < t.len() && t[j] == y;
                assert(s[j + 1] == y);
            }
        }
    } else {
        if i > 0 {
            assert(s[i - 1] == y);
        }
    }
}

proof fn lemma_insert_desc_keeps(s: Seq<(QueryPatternView, nat)>, e: (QueryPatternView, nat))
    requires
        desc_sorted(s),
    ensures
        desc_sorted(insert_desc(s, e)),
    decreases s.len(),
{
    let r = insert_desc(s, e);
    if s.len() == 0 {
    } else if s[0].1 >= e.1 {
        let t = s.drop_first();
        assert(forall|m: int| 0 <= m < t.len() ==> t[m] == s[m + 1]);
        assert forall|i: int, j: int| 0 <= i < j < t.len() implies (#[trigger] t[i]).1
            >= (#[trigger] t[j]).1 by {
            lemma_desc_pair(s, i + 1, j + 1);
        }
        lemma_insert_desc_keeps(t, e);
        assert forall|i: int, j: int| 0 <= i < j < r.len() implies (#[trigger] r[i]).1
            >= (#[trigger] r[j]).1 by {
            if i == 0 {
                assert(r[0] == s[0]);
                let y = r[j];
                assert(insert_desc(t, e)[j - 1] == y);
                assert(insert_desc(t, e).contains(y));
                lemma_insert_desc_contains(t, e, y);
                if t.contains(y) {
                    let m = choose|m: int| 0 <= m < t.len() && t[m] == y;
                    assert(s[m + 1] == y);
                    lemma_desc_pair(s, 0, m + 1);
                }
            } else {
                assert(r[i] == insert_desc(t, e)[i - 1]);
                assert(r[j] == insert_desc(t, e)[j - 1]);
                lemma_desc_pair(insert_desc(t, e), i - 1, j - 1);
            }
        }
    } else {
        assert forall|i: int, j: int| 0 <= i < j < r.len() implies (#[trigger] r[i]).1
            >= (#[trigger] r[j]).1 by {
            if i == 0 {
                assert(r[0] == e);
                assert(r[j] == s[j - 1]);
                if j > 1 {
                    lemma_desc_pair(s, 0, j - 1);
                }
            } else {
                assert(r[i] == s[i - 1]);
                assert(r[j] == s[j - 1]);
                lemma_desc_pair(s, i - 1, j - 1);
            }
        }
    }
}

/// The aggregated output is ordered by non-increasing occurrence count;
/// entries with equal counts keep their first-insertion order by
/// construction of the stable insertion.
pub proof fn lemma_sort_desc_sorted(s: Seq<(QueryPatternView, nat)>)
    ensures
        desc_sorted(sort_desc(s)),
    decreases s.len(),
{
    if s.len() > 0 {
        lemma_sort_desc_sorted(s.drop_last());
        lemma_insert_desc_keeps(sort_desc(s.drop_last()), s.last());
    }
}

/// Two records whose display identities agree aggregate into a single
/// entry with count two, keeping the first record's pattern — and with it
/// the first occurrence's sampled field values — unchanged.
pub proof fn lemma_merge_two(p1: QueryPatternView, p2: QueryPatternView)
    requires
        identity_spec(p1) == identity_spec(p2),
    ensures
        agg_fold(seq![p1, p2]) == seq![(p1, 2nat)],
{
    reveal_with_fuel(agg_fold, 3);
    reveal_with_fuel(find_identity, 3);
    let s = seq![p1, p2];
    assert(s.drop_last() =~= seq![p1]);
    assert(seq![p1].drop_last() =~= Seq::<QueryPatternView>::empty());
    assert(agg_fold(seq![p1]) == agg_push(Seq::empty(), p1));
    assert(find_identity(Seq::empty(), identity_spec(p1)) < 0);
    assert(agg_fold(seq![p1]) =~= seq![(p1, 1nat)]);
    let one = seq![(p1, 1nat)];
    assert(identity_spec(one[0].0) == identity_spec(p2));
    assert(find_identity(one, identity_spec(p2)) == 0);
    assert(agg_fold(s) == one.update(0, (one[0].0, (one[0].1 + 1) as nat)));
    assert(one.update(0, (p1, 2nat)) =~= seq![(p1, 2nat)]);
}

/// Re-running extraction, normalization and aggregation on the same input
/// yields the same sorted list in the same order: every stage is a
/// function of the input text alone, with no hidden state or unordered
/// traversal.
pub proof fn lemma_analysis_deterministic(a: Seq<Seq<char>>, b: Seq<Seq<char>>)
    requires
        a == b,
    ensures
        analysis_spec(a) == analysis_spec(b),
{
}

} // verus!
