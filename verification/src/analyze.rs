//! Aggregated statistics over the sorted pattern list: per-collection
//! usage counts of filter fields, sort fields, operations and plans, and
//! per-field value distributions of problematic patterns.

use vstd::prelude::*;

verus! {

use vstd::string::StrSliceExecFns;
use vstd::string::StringExecFns;
use crate::text::{lex_le, lex_le_exec, str_eq, lemma_lex_le_refl};
use crate::pattern::{QueryPattern, QueryPatternView};
use crate::aggregate::entries_view;

/// Adds `c` to the count at key `k` of a key-sorted counting sequence,
/// inserting the key when it is absent.
pub open spec fn add_count(s: Seq<(Seq<char>, nat)>, k: Seq<char>, c: nat) -> Seq<(Seq<char>, nat)>
    decreases s.len(),
{
    if s.len() == 0 {
        seq![(k, c)]
    } else if s[0].0 == k {
        seq![(s[0].0, (s[0].1 + c) as nat)] + s.drop_first()
    } else if lex_le(k, s[0].0) {
        seq![(k, c)] + s
    } else {
        seq![s[0]] + add_count(s.drop_first(), k, c)
    }
}

/// Adds `c` under outer key `o` and inner key `k` of a sorted two-level
/// counting sequence.
pub open spec fn add_nested(
    s: Seq<(Seq<char>, Seq<(Seq<char>, nat)>)>,
    o: Seq<char>,
    k: Seq<char>,
    c: nat,
) -> Seq<(Seq<char>, Seq<(Seq<char>, nat)>)>
    decreases s.len(),
{
    if s.len() == 0 {
        seq![(o, seq![(k, c)])]
    } else if s[0].0 == o {
        seq![(s[0].0, add_count(s[0].1, k, c))] + s.drop_first()
    } else if lex_le(o, s[0].0) {
        seq![(o, seq![(k, c)])] + s
    } else {
        seq![s[0]] + add_nested(s.drop_first(), o, k, c)
    }
}

/// The sum of the counts of one inner sequence.
pub open spec fn sum_inner(s: Seq<(Seq<char>, nat)>) -> nat
    decreases s.len(),
{
    if s.len() == 0 {
        0
    } else {
        (s[0].1 + sum_inner(s.drop_first())) as nat
    }
}

/// The sum of every count of a two-level counting sequence.
pub open spec fn sum_outer(s: Seq<(Seq<char>, Seq<(Seq<char>, nat)>)>) -> nat
    decreases s.len(),
{
    if s.len() == 0 {
        0
    } else {
        (sum_inner(s[0].1) + sum_outer(s.drop_first())) as nat
    }
}

proof fn lemma_add_count_sum(s: Seq<(Seq<char>, nat)>, k: Seq<char>, c: nat)
    ensures
        sum_inner(add_count(s, k, c)) == sum_inner(s) + c,
    decreases s.len(),
{
    reveal_with_fuel(sum_inner, 3);
    let r = add_count(s, k, c);
    if s.len() == 0 {
        assert(r[0] == (k, c));
        assert(r.drop_first() =~= Seq::<(Seq<char>, nat)>::empty());
    } else if s[0].0 == k {
        assert(r[0] == (s[0].0, (s[0].1 + c) as nat));
        assert(r.drop_first() =~= s.drop_first());
    } else if lex_le(k, s[0].0) {
        assert(r[0] == (k, c));
        assert(r.drop_first() =~= s);
    } else {
        lemma_add_count_sum(s.drop_first(), k, c);
        assert(r[0] == s[0]);
        assert(r.drop_first() =~= add_count(s.drop_first(), k, c));
    }
}

proof fn lemma_add_nested_sum(
    s: Seq<(Seq<char>, Seq<(Seq<char>, nat)>)>,
    o: Seq<char>,
    k: Seq<char>,
    c: nat,
)
    ensures
        sum_outer(add_nested(s, o, k, c)) == sum_outer(s) + c,
    decreases s.len(),
{
    reveal_with_fuel(sum_inner, 3);
    reveal_with_fuel(sum_outer, 3);
    let r = add_nested(s, o, k, c);
    if s.len() == 0 {
        assert(r[0] == (o, seq![(k, c)]));
        assert(r.drop_first() =~= Seq::<(Seq<char>, Seq<(Seq<char>, nat)>)>::empty());
        assert(seq![(k, c)].drop_first() =~= Seq::<(Seq<char>, nat)>::empty());
        assert(sum_inner(seq![(k, c)]) == c);
    } else if s[0].0 == o {
        lemma_add_count_sum(s[0].1, k, c);
        assert(r[0] == (s[0].0, add_count(s[0].1, k, c)));
        assert(r.drop_first() =~= s.drop_first());
    } else if lex_le(o, s[0].0) {
        assert(r[0] == (o, seq![(k, c)]));
        assert(r.drop_first() =~= s);
        assert(seq![(k, c)].drop_first() =~= Seq::<(Seq<char>, nat)>::empty());
        assert(sum_inner(seq![(k, c)]) == c);
    } else {
        lemma_add_nested_sum(s.drop_first(), o, k, c);
        assert(r[0] == s[0]);
        assert(r.drop_first() =~= add_nested(s.drop_first(), o, k, c));
    }
}

proof fn lemma_count_le_sum(s: Seq<(Seq<char>, nat)>, j: int)
    requires
        0 <= j < s.len(),
    ensures
        s[j].1 <= sum_inner(s),
    decreases s.len(),
{
    if j > 0 {
        lemma_count_le_sum(s.drop_first(), j - 1);
    }
}

proof fn lemma_inner_le_outer(s: Seq<(Seq<char>, Seq<(Seq<char>, nat)>)>, j: int)
    requires
        0 <= j < s.len(),
    ensures
        sum_inner(s[j].1) <= sum_outer(s),
    decreases s.len(),
{
    if j > 0 {
        lemma_inner_le_outer(s.drop_first(), j - 1);
    }
}

proof fn lemma_add_count_at(s: Seq<(Seq<char>, nat)>, k: Seq<char>, c: nat, p: int)
    requires
        0 <= p <= s.len(),
        forall|j: int| 0 <= j < p ==> !lex_le(k, (#[trigger] s[j]).0),
        p < s.len() ==> lex_le(k, s[p].0),
    ensures
        p < s.len() && s[p].0 == k ==> add_count(s, k, c) == s.update(
            p,
            (s[p].0, (s[p].1 + c) as nat),
        ),
        !(p < s.len() && s[p].0 == k) ==> add_count(s, k, c) == s.take(p) + seq![(k, c)] + s.skip(
            p,
        ),
    decreases p,
{
    if p == 0 {
        if s.len() == 0 {
            assert(add_count(s, k, c) =~= s.take(0) + seq![(k, c)] + s.skip(0));
        } else if s[0].0 == k {
            assert(add_count(s, k, c) =~= s.update(0, (s[0].0, (s[0].1 + c) as nat)));
        } else {
            assert(add_count(s, k, c) =~= s.take(0) + seq![(k, c)] + s.skip(0));
        }
    } else {
        assert(!lex_le(k, s[0].0));
        lemma_lex_le_refl(k);
        assert(s[0].0 != k);
        let t = s.drop_first();
        assert(forall|j: int| 0 <= j < p - 1 ==> t[j] == s[j + 1]);
        assert(p - 1 < t.len() ==> t[p - 1] == s[p as int]);
        lemma_add_count_at(t, k, c, p - 1);
        if p < s.len() && s[p].0 == k {
            assert(add_count(s, k, c) =~= s.update(p, (s[p].0, (s[p].1 + c) as nat)));
        } else {
            assert(add_count(s, k, c) =~= s.take(p) + seq![(k, c)] + s.skip(p));
        }
    }
}

proof fn lemma_add_nested_at(
    s: Seq<(Seq<char>, Seq<(Seq<char>, nat)>)>,
    o: Seq<char>,
    k: Seq<char>,
    c: nat,
    p: int,
)
    requires
        0 <= p <= s.len(),
        forall|j: int| 0 <= j < p ==> !lex_le(o, (#[trigger] s[j]).0),
        p < s.len() ==> lex_le(o, s[p].0),
    ensures
        p < s.len() && s[p].0 == o ==> add_nested(s, o, k, c) == s.update(
            p,
            (s[p].0, add_count(s[p].1, k, c)),
        ),
        !(p < s.len() && s[p].0 == o) ==> add_nested(s, o, k, c) == s.take(p) + seq![
            (o, seq![(k, c)]),
        ] + s.skip(p),
    decreases p,
{
    if p == 0 {
        if s.len() == 0 {
            assert(add_nested(s, o, k, c) =~= s.take(0) + seq![(o, seq![(k, c)])] + s.skip(0));
        } else if s[0].0 == o {
            assert(add_nested(s, o, k, c) =~= s.update(0, (s[0].0, add_count(s[0].1, k, c))));
        } else {
            assert(add_nested(s, o, k, c) =~= s.take(0) + seq![(o, seq![(k, c)])] + s.skip(0));
        }
    } else {
        assert(!lex_le(o, s[0].0));
        lemma_lex_le_refl(o);
        assert(s[0].0 != o);
        let t = s.drop_first();
        assert(forall|j: int| 0 <= j < p - 1 ==> t[j] == s[j + 1]);
        assert(p - 1 < t.len() ==> t[p - 1] == s[p as int]);
        lemma_add_nested_at(t, o, k, c, p - 1);
        if p < s.len() && s[p].0 == o {
            assert(add_nested(s, o, k, c) =~= s.update(p, (s[p].0, add_count(s[p].1, k, c))));
        } else {
            assert(add_nested(s, o, k, c) =~= s.take(p) + seq![(o, seq![(k, c)])] + s.skip(p));
        }
    }
}

/// The counting view of an inner vector.
pub open spec fn iview(s: Seq<(String, usize)>) -> Seq<(Seq<char>, nat)> {
    Seq::new(s.len(), |i: int| (s[i].0@, s[i].1 as nat))
}

/// The counting view of a two-level vector.
pub open spec fn oview(s: Seq<(String, Vec<(String, usize)>)>) -> Seq<
    (Seq<char>, Seq<(Seq<char>, nat)>),
> {
    Seq::new(s.len(), |i: int| (s[i].0@, iview(s[i].1@)))
}

/// Adds `c` to the count at key `k` of a key-sorted counting vector.
fn add_count_exec(v: &mut Vec<(String, usize)>, k: String, c: usize)
    requires
        sum_inner(iview(old(v)@)) + c <= usize::MAX,
    ensures
        iview(final(v)@) == add_count(iview(old(v)@), k@, c as nat),
{
    let ghost dv = iview(old(v)@);
    let mut p: usize = 0;
    while p < v.len() && !lex_le_exec(k.as_str(), v[p].0.as_str())
        invariant
            p <= v.len(),
            *v == *old(v),
            dv == iview(old(v)@),
            forall|j: int| 0 <= j < p ==> !lex_le(k@, (#[trigger] dv[j]).0),
        decreases v.len() - p,
    {
        p = p + 1;
    }
    proof {
        assert(p < dv.len() ==> lex_le(k@, dv[p as int].0));
        lemma_add_count_at(dv, k@, c as nat, p as int);
    }
    if p < v.len() && str_eq(k.as_str(), v[p].0.as_str()) {
        proof {
            lemma_count_le_sum(dv, p as int);
        }
        let e = v.remove(p);
        let newc = e.1 + c;
        v.insert(p, (e.0, newc));
        proof {
            assert(iview(v@) =~= dv.update(p as int, (dv[p as int].0, (dv[p as int].1
                + c) as nat)));
        }
    } else {
        v.insert(p, (k, c));
        proof {
            assert(iview(v@) =~= dv.take(p as int) + seq![(k@, c as nat)] + dv.skip(p as int));
        }
    }
}

/// Adds `c` under outer key `o` and inner key `k` of a sorted two-level
/// counting vector.
fn add_nested_exec(v: &mut Vec<(String, Vec<(String, usize)>)>, o: &str, k: String, c: usize)
    requires
        sum_outer(oview(old(v)@)) + c <= usize::MAX,
    ensures
        oview(final(v)@) == add_nested(oview(old(v)@), o@, k@, c as nat),
{
    let ghost dv = oview(old(v)@);
    let mut p: usize = 0;
    while p < v.len() && !lex_le_exec(o, v[p].0.as_str())
        invariant
            p <= v.len(),
            *v == *old(v),
            dv == oview(old(v)@),
            forall|j: int| 0 <= j < p ==> !lex_le(o@, (#[trigger] dv[j]).0),
        decreases v.len() - p,
    {
        p = p + 1;
    }
    proof {
        assert(p < dv.len() ==> lex_le(o@, dv[p as int].0));
        lemma_add_nested_at(dv, o@, k@, c as nat, p as int);
    }
    if p < v.len() && str_eq(o, v[p].0.as_str()) {
        proof {
            lemma_inner_le_outer(dv, p as int);
        }
        let mut e = v.remove(p);
        add_count_exec(&mut e.1, k, c);
        v.insert(p, e);
        proof {
            assert(oview(v@) =~= dv.update(p as int, (dv[p as int].0, add_count(
                dv[p as int].1,
                k@,
                c as nat,
            ))));
        }
    } else {
        let mut inner: Vec<(String, usize)> = Vec::new();
        inner.push((k, c));
        v.insert(p, (o.to_owned(), inner));
        proof {
            assert(iview(v@[p as int].1@) =~= seq![(k@, c as nat)]);
            assert(oview(v@) =~= dv.take(p as int) + seq![(o@, seq![(k@, c as nat)])] + dv.skip(
                p as int,
            ));
        }
    }
}

/// Each name prefixed with a tag, in order.
pub open spec fn prefix_all(prefix: Seq<char>, names: Seq<Seq<char>>) -> Seq<Seq<char>>
    decreases names.len(),
{
    if names.len() == 0 {
        Seq::empty()
    } else {
        prefix_all(prefix, names.drop_last()).push(prefix + names.last())
    }
}

/// The tagged report keys one pattern contributes to its collection's
/// statistics: its filter fields, sort fields, operation, and, when
/// informative, its plan.
pub open spec fn tagged_keys(p: QueryPatternView) -> Seq<Seq<char>> {
    let fs = prefix_all("filter:"@, p.filter_fields);
    let ss = fs + prefix_all("sort:"@, p.sort_fields);
    let os = ss.push("operation:"@ + p.operation);
    if p.plan_summary.len() > 0 && p.plan_summary != "unknown"@ {
        os.push("plan:"@ + p.plan_summary)
    } else {
        os
    }
}

/// Adds `c` under each key, for one collection.
pub open spec fn add_keys(
    m: Seq<(Seq<char>, Seq<(Seq<char>, nat)>)>,
    coll: Seq<char>,
    keys: Seq<Seq<char>>,
    c: nat,
) -> Seq<(Seq<char>, Seq<(Seq<char>, nat)>)>
    decreases keys.len(),
{
    if keys.len() == 0 {
        m
    } else {
        add_nested(add_keys(m, coll, keys.drop_last(), c), coll, keys.last(), c)
    }
}

/// The per-collection tagged-key counts of the aggregated pattern list:
/// each pattern adds its occurrence count under each of its tagged keys.
pub open spec fn collection_analysis(entries: Seq<(QueryPatternView, nat)>) -> Seq<
    (Seq<char>, Seq<(Seq<char>, nat)>),
>
    decreases entries.len(),
{
    if entries.len() == 0 {
        Seq::empty()
    } else {
        add_keys(
            collection_analysis(entries.drop_last()),
            entries.last().0.collection,
            tagged_keys(entries.last().0),
            entries.last().1,
        )
    }
}

spec fn coll_mid(s: Seq<(QueryPatternView, nat)>, i: int, j: int) -> Seq<
    (Seq<char>, Seq<(Seq<char>, nat)>),
> {
    add_keys(collection_analysis(s.take(i)), s[i].0.collection, tagged_keys(s[i].0).take(j), s[i].1)
}

proof fn lemma_coll_chain(s: Seq<(QueryPatternView, nat)>, i: int, j: int)
    requires
        0 <= i < s.len(),
        0 <= j <= tagged_keys(s[i].0).len(),
    ensures
        sum_outer(coll_mid(s, i, j)) <= sum_outer(collection_analysis(s.take(i + 1))),
    decreases tagged_keys(s[i].0).len() - j,
{
    let keys = tagged_keys(s[i].0);
    if j == keys.len() {
        assert(keys.take(j) =~= keys);
        assert(s.take(i + 1).drop_last() =~= s.take(i));
        assert(s.take(i + 1).last() == s[i]);
    } else {
        assert(keys.take(j + 1).drop_last() =~= keys.take(j));
        assert(keys.take(j + 1).last() == keys[j]);
        lemma_add_nested_sum(coll_mid(s, i, j), s[i].0.collection, keys[j], s[i].1);
        lemma_coll_chain(s, i, j + 1);
    }
}

proof fn lemma_coll_mono(s: Seq<(QueryPatternView, nat)>, i: int)
    requires
        0 <= i <= s.len(),
    ensures
        sum_outer(collection_analysis(s.take(i))) <= sum_outer(collection_analysis(s)),
    decreases s.len() - i,
{
    if i == s.len() {
        assert(s.take(i) =~= s);
    } else {
        assert(tagged_keys(s[i].0).take(0) =~= Seq::<Seq<char>>::empty());
        lemma_coll_chain(s, i, 0);
        lemma_coll_mono(s, i + 1);
    }
}

/// Builds the tagged report keys of one pattern.
fn tagged_keys_exec(p: &QueryPattern) -> (r: Vec<String>)
    ensures
        r.deep_view() == tagged_keys(p@),
{
    let mut keys: Vec<String> = Vec::new();
    let ghost fdv = p.filter_fields.deep_view();
    let ghost sdv = p.sort_fields.deep_view();
    proof {
        assert(keys.deep_view() =~= prefix_all("filter:"@, fdv.take(0)));
    }
    let mut i: usize = 0;
    while i < p.filter_fields.len()
        invariant
            i <= p.filter_fields.len(),
            fdv == p.filter_fields.deep_view(),
            keys.deep_view() == prefix_all("filter:"@, fdv.take(i as int)),
        decreases p.filter_fields.len() - i,
    {
        let mut t = String::from_str("filter:");
        t.append(p.filter_fields[i].as_str());
        keys.push(t);
        proof {
            assert(fdv.take(i + 1).drop_last() =~= fdv.take(i as int));
            assert(fdv.take(i + 1).last() == fdv[i as int]);
            assert(keys.deep_view() =~= prefix_all("filter:"@, fdv.take(i as int)).push(
                "filter:"@ + fdv[i as int],
            ));
        }
        i = i + 1;
    }
    proof {
        assert(fdv.take(fdv.len() as int) =~= fdv);
        assert(sdv.take(0) =~= Seq::<Seq<char>>::empty());
        assert(keys.deep_view() =~= prefix_all("filter:"@, fdv) + prefix_all(
            "sort:"@,
            sdv.take(0),
        ));
    }
    let mut j: usize = 0;
    while j < p.sort_fields.len()
        invariant
            j <= p.sort_fields.len(),
            fdv == p.filter_fields.deep_view(),
            sdv == p.sort_fields.deep_view(),
            keys.deep_view() == prefix_all("filter:"@, fdv) + prefix_all(
                "sort:"@,
                sdv.take(j as int),
            ),
        decreases p.sort_fields.len() - j,
    {
        let mut t = String::from_str("sort:");
        t.append(p.sort_fields[j].as_str());
        let ghost before = keys.deep_view();
        keys.push(t);
        proof {
            assert(sdv.take(j + 1).drop_last() =~= sdv.take(j as int));
            assert(sdv.take(j + 1).last() == sdv[j as int]);
            assert(keys.deep_view() =~= before.push("sort:"@ + sdv[j as int]));
            assert(before.push("sort:"@ + sdv[j as int]) =~= prefix_all("filter:"@, fdv)
                + prefix_all("sort:"@, sdv.take(j as int)).push("sort:"@ + sdv[j as int]));
        }
        j = j + 1;
    }
    proof {
        assert(sdv.take(sdv.len() as int) =~= sdv);
    }
    let mut t = String::from_str("operation:");
    t.append(p.operation.as_str());
    let ghost before_op = keys.deep_view();
    keys.push(t);
    proof {
        assert(keys.deep_view() =~= before_op.push("operation:"@ + p.operation@));
    }
    if p.plan_summary.unicode_len() > 0 && !str_eq(p.plan_summary.as_str(), "unknown") {
        let mut t2 = String::from_str("plan:");
        t2.append(p.plan_summary.as_str());
        let ghost before = keys.deep_view();
        keys.push(t2);
        proof {
            assert(keys.deep_view() =~= before.push("plan:"@ + p.plan_summary@));
        }
    }
    keys
}

/// Builds, per collection, the summed occurrence count of each tagged
/// report key of the aggregated pattern list, both levels ordered
/// lexicographically.
pub fn analyze_collection_field_patterns(patterns: &Vec<(QueryPattern, usize)>) -> (r: Vec<
    (String, Vec<(String, usize)>),
>)
    requires
        sum_outer(collection_analysis(entries_view(patterns@))) <= usize::MAX,
    ensures
        oview(r@) == collection_analysis(entries_view(patterns@)),
{
    let ghost ev = entries_view(patterns@);
    let mut acc: Vec<(String, Vec<(String, usize)>)> = Vec::new();
    proof {
        assert(ev.take(0) =~= Seq::<(QueryPatternView, nat)>::empty());
        assert(oview(acc@) =~= collection_analysis(ev.take(0)));
    }
    let mut i: usize = 0;
    while i < patterns.len()
        invariant
            i <= patterns.len(),
            ev == entries_view(patterns@),
            sum_outer(collection_analysis(ev)) <= usize::MAX,
            oview(acc@) == collection_analysis(ev.take(i as int)),
        decreases patterns.len() - i,
    {
        let keys = tagged_keys_exec(&patterns[i].0);
        let c = patterns[i].1;
        let ghost kdv = keys.deep_view();
        proof {
            assert(ev[i as int] == (patterns@[i as int].0@, patterns@[i as int].1 as nat));
            assert(kdv.take(0) =~= Seq::<Seq<char>>::empty());
        }
        let mut j: usize = 0;
        while j < keys.len()
            invariant
                j <= keys.len(),
                i < patterns.len(),
                ev == entries_view(patterns@),
                sum_outer(collection_analysis(ev)) <= usize::MAX,
                kdv == keys.deep_view(),
                kdv == tagged_keys(ev[i as int].0),
                c as nat == ev[i as int].1,
                patterns@[i as int].0.collection@ == ev[i as int].0.collection,
                oview(acc@) == add_keys(
                    collection_analysis(ev.take(i as int)),
                    ev[i as int].0.collection,
                    kdv.take(j as int),
                    c as nat,
                ),
            decreases keys.len() - j,
        {
            proof {
                assert(kdv.take(j + 1).drop_last() =~= kdv.take(j as int));
                assert(kdv.take(j + 1).last() == kdv[j as int]);
                lemma_add_nested_sum(oview(acc@), ev[i as int].0.collection, kdv[j as int],
                    c as nat);
                lemma_coll_chain(ev, i as int, j + 1);
                lemma_coll_mono(ev, i + 1);
                assert(keys@[j as int]@ == kdv[j as int]);
            }
            add_nested_exec(&mut acc, patterns[i].0.collection.as_str(), keys[j].clone(), c);
            j = j + 1;
        }
        proof {
            assert(kdv.take(kdv.len() as int) =~= kdv);
            assert(ev.take(i + 1).drop_last() =~= ev.take(i as int));
            assert(ev.take(i + 1).last() == ev[i as int]);
        }
        i = i + 1;
    }
    proof {
        assert(ev.take(ev.len() as int) =~= ev);
    }
    acc
}

/// Whether a pattern's occurrences are examined for value skew: a full
/// collection scan, or a frequency above the threshold.
pub open spec fn spec_problematic(p: QueryPatternView, c: nat) -> bool {
    p.plan_summary == "COLLSCAN"@ || c > 100
}

/// The key of one sampled field in the distribution map.
pub open spec fn value_key(coll: Seq<char>, path: Seq<char>) -> Seq<char> {
    coll + ":"@ + path
}

/// Adds one pattern's sampled values under their field keys.
pub open spec fn add_vals(
    m: Seq<(Seq<char>, Seq<(Seq<char>, nat)>)>,
    coll: Seq<char>,
    vals: Seq<(Seq<char>, Seq<char>)>,
    c: nat,
) -> Seq<(Seq<char>, Seq<(Seq<char>, nat)>)>
    decreases vals.len(),
{
    if vals.len() == 0 {
        m
    } else {
        add_nested(
            add_vals(m, coll, vals.drop_last(), c),
            value_key(coll, vals.last().0),
            vals.last().1,
            c,
        )
    }
}

/// The per-field value distributions of the problematic patterns: each
/// qualifying pattern adds its occurrence count under each of its sampled
/// field paths and values.
pub open spec fn distribution_analysis(entries: Seq<(QueryPatternView, nat)>) -> Seq<
    (Seq<char>, Seq<(Seq<char>, nat)>),
>
    decreases entries.len(),
{
    if entries.len() == 0 {
        Seq::empty()
    } else {
        let rest = distribution_analysis(entries.drop_last());
        let e = entries.last();
        if spec_problematic(e.0, e.1) {
            add_vals(rest, e.0.collection, e.0.field_values, e.1)
        } else {
            rest
        }
    }
}

spec fn dist_mid(s: Seq<(QueryPatternView, nat)>, i: int, j: int) -> Seq<
    (Seq<char>, Seq<(Seq<char>, nat)>),
> {
    add_vals(
        distribution_analysis(s.take(i)),
        s[i].0.collection,
        s[i].0.field_values.take(j),
        s[i].1,
    )
}

proof fn lemma_dist_chain(s: Seq<(QueryPatternView, nat)>, i: int, j: int)
    requires
        0 <= i < s.len(),
        spec_problematic(s[i].0, s[i].1),
        0 <= j <= s[i].0.field_values.len(),
    ensures
        sum_outer(dist_mid(s, i, j)) <= sum_outer(distribution_analysis(s.take(i + 1))),
    decreases s[i].0.field_values.len() - j,
{
    let vals = s[i].0.field_values;
    if j == vals.len() {
        assert(vals.take(j) =~= vals);
        assert(s.take(i + 1).drop_last() =~= s.take(i));
        assert(s.take(i + 1).last() == s[i]);
    } else {
        assert(vals.take(j + 1).drop_last() =~= vals.take(j));
        assert(vals.take(j + 1).last() == vals[j]);
        lemma_add_nested_sum(
            dist_mid(s, i, j),
            value_key(s[i].0.collection, vals[j].0),
            vals[j].1,
            s[i].1,
        );
        lemma_dist_chain(s, i, j + 1);
    }
}

proof fn lemma_dist_mono(s: Seq<(QueryPatternView, nat)>, i: int)
    requires
        0 <= i <= s.len(),
    ensures
        sum_outer(distribution_analysis(s.take(i))) <= sum_outer(distribution_analysis(s)),
    decreases s.len() - i,
{
    if i == s.len() {
        assert(s.take(i) =~= s);
    } else {
        assert(s.take(i + 1).drop_last() =~= s.take(i));
        assert(s.take(i + 1).last() == s[i]);
        if spec_problematic(s[i].0, s[i].1) {
            assert(s[i].0.field_values.take(0) =~= Seq::<(Seq<char>, Seq<char>)>::empty());
            lemma_dist_chain(s, i, 0);
        }
        lemma_dist_mono(s, i + 1);
    }
}

/// Builds, per `collection:fieldPath` key, the summed occurrence count of
/// each sampled value among problematic patterns, both levels ordered
/// lexicographically.
pub fn analyze_field_value_distributions(patterns: &Vec<(QueryPattern, usize)>) -> (r: Vec<
    (String, Vec<(String, usize)>),
>)
    requires
        sum_outer(distribution_analysis(entries_view(patterns@))) <= usize::MAX,
    ensures
        oview(r@) == distribution_analysis(entries_view(patterns@)),
{
    let ghost ev = entries_view(patterns@);
    let mut acc: Vec<(String, Vec<(String, usize)>)> = Vec::new();
    proof {
        assert(ev.take(0) =~= Seq::<(QueryPatternView, nat)>::empty());
        assert(oview(acc@) =~= distribution_analysis(ev.take(0)));
    }
    let mut i: usize = 0;
    while i < patterns.len()
        invariant
            i <= patterns.len(),
            ev == entries_view(patterns@),
            sum_outer(distribution_analysis(ev)) <= usize::MAX,
            oview(acc@) == distribution_analysis(ev.take(i as int)),
        decreases patterns.len() - i,
    {
        let c = patterns[i].1;
        proof {
            assert(ev[i as int] == (patterns@[i as int].0@, patterns@[i as int].1 as nat));
            assert(ev.take(i + 1).drop_last() =~= ev.take(i as int));
            assert(ev.take(i + 1).last() == ev[i as int]);
        }
        if str_eq(patterns[i].0.plan_summary.as_str(), "COLLSCAN") || c > 100 {
            let ghost vdv = ev[i as int].0.field_values;
            proof {
                assert(vdv == patterns@[i as int].0.field_values.deep_view());
                assert(vdv.take(0) =~= Seq::<(Seq<char>, Seq<char>)>::empty());
            }
            let mut j: usize = 0;
            while j < patterns[i].0.field_values.len()
                invariant
                    j <= patterns[i as int].0.field_values.len(),
                    i < patterns.len(),
                    ev == entries_view(patterns@),
                    sum_outer(distribution_analysis(ev)) <= usize::MAX,
                    spec_problematic(ev[i as int].0, ev[i as int].1),
                    vdv == ev[i as int].0.field_values,
                    vdv == patterns@[i as int].0.field_values.deep_view(),
                    c as nat == ev[i as int].1,
                    patterns@[i as int].0.collection@ == ev[i as int].0.collection,
                    oview(acc@) == add_vals(
                        distribution_analysis(ev.take(i as int)),
                        ev[i as int].0.collection,
                        vdv.take(j as int),
                        c as nat,
                    ),
                decreases patterns[i as int].0.field_values.len() - j,
            {
                let pair = &patterns[i].0.field_values[j];
                let mut okey = patterns[i].0.collection.clone();
                okey.append(":");
                okey.append(pair.0.as_str());
                let ikey = pair.1.clone();
                proof {
                    assert(vdv[j as int] == (patterns@[i as int].0.field_values@[j as int].0@,
                        patterns@[i as int].0.field_values@[j as int].1@));
                    assert(okey@ == value_key(ev[i as int].0.collection, vdv[j as int].0));
                    assert(vdv.take(j + 1).drop_last() =~= vdv.take(j as int));
                    assert(vdv.take(j + 1).last() == vdv[j as int]);
                    lemma_add_nested_sum(
                        oview(acc@),
                        value_key(ev[i as int].0.collection, vdv[j as int].0),
                        vdv[j as int].1,
                        c as nat,
                    );
                    lemma_dist_chain(ev, i as int, j + 1);
                    lemma_dist_mono(ev, i + 1);
                }
                add_nested_exec(&mut acc, okey.as_str(), ikey, c);
                j = j + 1;
            }
            proof {
                assert(vdv.take(vdv.len() as int) =~= vdv);
            }
        }
        i = i + 1;
    }
    proof {
        assert(ev.take(ev.len() as int) =~= ev);
    }
    acc
}

/// The counts of a value distribution, in key order.
pub open spec fn dist_counts(s: Seq<(String, usize)>) -> Seq<nat> {
    Seq::new(s.len(), |i: int| s[i].1 as nat)
}

/// The sum of a sequence of counts.
pub open spec fn sum_nat(s: Seq<nat>) -> nat
    decreases s.len(),
{
    if s.len() == 0 {
        0
    } else {
        (sum_nat(s.drop_last()) + s.last()) as nat
    }
}

/// Folds one count into the three largest seen so far, kept in descending
/// order.
pub open spec fn bump3(t: (nat, nat, nat), x: nat) -> (nat, nat, nat) {
    if x >= t.0 {
        (x, t.0, t.1)
    } else if x >= t.1 {
        (t.0, x, t.1)
    } else if x >= t.2 {
        (t.0, t.1, x)
    } else {
        t
    }
}

/// The three largest counts of the sequence, in descending order, padded
/// with zeroes.
pub open spec fn top3(s: Seq<nat>) -> (nat, nat, nat)
    decreases s.len(),
{
    if s.len() == 0 {
        (0, 0, 0)
    } else {
        bump3(top3(s.drop_last()), s.last())
    }
}

/// The sum of the three most frequent values' counts.
pub open spec fn top3_sum(s: Seq<nat>) -> nat {
    (top3(s).0 + top3(s).1 + top3(s).2) as nat
}

proof fn lemma_sum_nat_prefix(s: Seq<nat>, i: int)
    requires
        0 <= i <= s.len(),
    ensures
        sum_nat(s.take(i)) <= sum_nat(s),
    decreases s.len() - i,
{
    if i == s.len() {
        assert(s.take(i) =~= s);
    } else {
        assert(s.take(i + 1).drop_last() =~= s.take(i));
        assert(s.take(i + 1).last() == s[i]);
        lemma_sum_nat_prefix(s, i + 1);
    }
}

/// Computes, for one field's value distribution, the sum of the three most
/// frequent values' counts and the total of all counts: the concentration
/// ratio used by the report layer to flag skew.
pub fn value_concentration(dist: &Vec<(String, usize)>) -> (r: (usize, usize))
    requires
        sum_nat(dist_counts(dist@)) <= usize::MAX,
    ensures
        r.0 as nat == top3_sum(dist_counts(dist@)),
        r.1 as nat == sum_nat(dist_counts(dist@)),
{
    let ghost cs = dist_counts(dist@);
    let mut total: usize = 0;
    let mut a: usize = 0;
    let mut b: usize = 0;
    let mut c: usize = 0;
    proof {
        assert(cs.take(0) =~= Seq::<nat>::empty());
    }
    let mut i: usize = 0;
    while i < dist.len()
        invariant
            i <= dist.len(),
            cs == dist_counts(dist@),
            sum_nat(cs) <= usize::MAX,
            total as nat == sum_nat(cs.take(i as int)),
            (a as nat, b as nat, c as nat) == top3(cs.take(i as int)),
            a >= b >= c,
            a + b + c <= total,
        decreases dist.len() - i,
    {
        let x = dist[i].1;
        proof {
            assert(cs.take(i + 1).drop_last() =~= cs.take(i as int));
            assert(cs.take(i + 1).last() == cs[i as int]);
            lemma_sum_nat_prefix(cs, i + 1);
        }
        total = total + x;
        if x >= a {
            c = b;
            b = a;
            a = x;
        } else if x >= b {
            c = b;
            b = x;
        } else if x >= c {
            c = x;
        }
        i = i + 1;
    }
    proof {
        assert(cs.take(cs.len() as int) =~= cs);
    }
    (a + b + c, total)
}

/// The number of distinct sampled values one field key saw: the entries of
/// its distribution are unique by construction.
pub fn value_cardinality(dist: &Vec<(String, usize)>) -> (r: usize)
    ensures
        r == dist@.len(),
{
    dist.len()
}

} // verus!
