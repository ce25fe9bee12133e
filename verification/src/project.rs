//! Field projection over a structured document: the sorted set of user
//! field names, and the depth-bounded mapping of dotted field paths to
//! stringified, size-capped sample values.

use vstd::prelude::*;

verus! {

use vstd::string::StrSliceExecFns;
use vstd::string::StringExecFns;
use crate::json::{Json, elem_str, elem_str_exec};
use crate::text::{
    lex_le,
    lex_le_exec,
    str_eq,
    join_with,
    join_strings,
    dec_str,
    usize_to_string,
};
use crate::spec_eligible_key;

/// Decides key eligibility: operator keys and the internal identifier are
/// excluded from field-name extraction and value sampling.
pub fn eligible_key(k: &str) -> (r: bool)
    ensures
        r == spec_eligible_key(k@),
{
    if k.unicode_len() > 0 && k.get_char(0) == '$' {
        return false;
    }
    !str_eq(k, "_id")
}

/// Inserts a name into a sorted, duplicate-free sequence of names, keeping
/// it sorted and dropping the name when it is already present.
pub open spec fn sorted_insert(s: Seq<Seq<char>>, x: Seq<char>) -> Seq<Seq<char>>
    decreases s.len(),
{
    if s.len() == 0 {
        seq![x]
    } else if x == s[0] {
        s
    } else if lex_le(x, s[0]) {
        seq![x] + s
    } else {
        seq![s[0]] + sorted_insert(s.drop_first(), x)
    }
}

/// The sorted, duplicate-free sequence of the eligible keys among the
/// entries.
pub open spec fn fields_of_entries(es: Seq<(String, Json)>) -> Seq<Seq<char>>
    decreases es.len(),
{
    if es.len() == 0 {
        Seq::empty()
    } else {
        let rest = fields_of_entries(es.drop_last());
        if spec_eligible_key(es.last().0@) {
            sorted_insert(rest, es.last().0@)
        } else {
            rest
        }
    }
}

/// The sorted set of user field names of a document: the eligible top-level
/// keys of an object; empty for any other document.
pub open spec fn fields_spec(d: Json) -> Seq<Seq<char>> {
    match d {
        Json::Obj { entries, .. } => fields_of_entries(entries@),
        _ => Seq::empty(),
    }
}

proof fn lemma_sorted_insert_at(s: Seq<Seq<char>>, x: Seq<char>, p: int)
    requires
        0 <= p <= s.len(),
        forall|j: int| 0 <= j < p ==> !lex_le(x, s[j]),
        p < s.len() ==> lex_le(x, s[p]),
    ensures
        p < s.len() && s[p] == x ==> sorted_insert(s, x) == s,
        !(p < s.len() && s[p] == x) ==> sorted_insert(s, x) == s.take(p) + seq![x] + s.skip(p),
    decreases p,
{
    if p == 0 {
        if s.len() == 0 {
            assert(sorted_insert(s, x) =~= s.take(0) + seq![x] + s.skip(0));
        } else if s[0] == x {
        } else {
            assert(lex_le(x, s[0]));
            assert(sorted_insert(s, x) =~= s.take(0) + seq![x] + s.skip(0));
        }
    } else {
        assert(!lex_le(x, s[0]));
        crate::text::lemma_lex_le_refl(x);
        assert(x != s[0]);
        let t = s.drop_first();
        assert(forall|j: int| 0 <= j < p - 1 ==> t[j] == s[j + 1] && !lex_le(x, t[j]));
        assert(p - 1 < t.len() ==> t[p - 1] == s[p as int]);
        lemma_sorted_insert_at(t, x, p - 1);
        if p < s.len() && s[p] == x {
            assert(t[p - 1] == x);
            assert(sorted_insert(s, x) =~= s);
        } else {
            assert(sorted_insert(s, x) =~= s.take(p) + seq![x] + s.skip(p));
        }
    }
}

/// Inserts a name into a sorted, duplicate-free vector of names.
pub fn insert_sorted_unique(v: &mut Vec<String>, x: String)
    ensures
        final(v).deep_view() == sorted_insert(old(v).deep_view(), x@),
{
    let mut p: usize = 0;
    while p < v.len() && !lex_le_exec(x.as_str(), v[p].as_str())
        invariant
            p <= v.len(),
            *v == *old(v),
            forall|j: int| 0 <= j < p ==> !lex_le(x@, old(v).deep_view()[j]),
        decreases v.len() - p,
    {
        p = p + 1;
    }
    let ghost dv = old(v).deep_view();
    proof {
        assert(p < dv.len() ==> lex_le(x@, dv[p as int]));
    }
    if p < v.len() && str_eq(x.as_str(), v[p].as_str()) {
        proof {
            lemma_sorted_insert_at(dv, x@, p as int);
        }
    } else {
        proof {
            lemma_sorted_insert_at(dv, x@, p as int);
        }
        v.insert(p, x);
        proof {
            assert(v.deep_view() =~= dv.take(p as int) + seq![x@] + dv.skip(p as int));
        }
    }
}

/// Collects the sorted set of user field names of a document.
pub fn extract_fields_from_object(obj: &Json) -> (r: Vec<String>)
    ensures
        r.deep_view() == fields_spec(*obj),
{
    match obj {
        Json::Obj { entries, .. } => {
            let mut fields: Vec<String> = Vec::new();
            let mut i: usize = 0;
            while i < entries.len()
                invariant
                    i <= entries.len(),
                    *obj is Obj,
                    obj->Obj_entries == *entries,
                    fields.deep_view() == fields_of_entries(entries@.take(i as int)),
                decreases entries.len() - i,
            {
                proof {
                    assert(entries@.take(i + 1).drop_last() =~= entries@.take(i as int));
                    assert(entries@.take(i + 1).last() == entries@[i as int]);
                }
                let key = &entries[i].0;
                if eligible_key(key.as_str()) {
                    insert_sorted_unique(&mut fields, key.clone());
                }
                i = i + 1;
            }
            proof {
                assert(entries@.take(entries@.len() as int) =~= entries@);
            }
            fields
        },
        _ => Vec::new(),
    }
}

/// Lexicographically ordered with no duplicate: the shape of every field
/// set a pattern carries.
pub open spec fn sorted_unique(s: Seq<Seq<char>>) -> bool {
    forall|i: int, j: int|
        0 <= i < j < s.len() ==> #[trigger] lex_le(s[i], s[j]) && s[i] != s[j]
}

proof fn lemma_sorted_unique_pair(s: Seq<Seq<char>>, a: int, b: int)
    requires
        sorted_unique(s),
        0 <= a < b < s.len(),
    ensures
        lex_le(s[a], s[b]),
        s[a] != s[b],
{
    assert(lex_le(s[a], s[b]));
}

proof fn lemma_sorted_insert_contains(s: Seq<Seq<char>>, x: Seq<char>, y: Seq<char>)
    requires
        sorted_insert(s, x).contains(y),
    ensures
        s.contains(y) || y == x,
    decreases s.len(),
{
    let r = sorted_insert(s, x);
    let i = choose|i: int| 0 <= i < r.len() && r[i] == y;
    if s.len() == 0 {
        assert(y == x);
    } else if x == s[0] {
    } else if lex_le(x, s[0]) {
        if i > 0 {
            assert(s[i - 1] == y);
        }
    } else {
        if i == 0 {
            assert(s[0] == y);
        } else {
            let t = s.drop_first();
            assert(sorted_insert(t, x)[i - 1] == y);
            assert(sorted_insert(t, x).contains(y));
            lemma_sorted_insert_contains(t, x, y);
            if t.contains(y) {
                let j = choose|j: int| 0 <= j < t.len() && t[j] == y;
                assert(s[j + 1] == y);
            }
        }
    }
}

proof fn lemma_sorted_insert_keeps(s: Seq<Seq<char>>, x: Seq<char>)
    requires
        sorted_unique(s),
    ensures
        sorted_unique(sorted_insert(s, x)),
    decreases s.len(),
{
    let r = sorted_insert(s, x);
    if s.len() == 0 {
    } else if x == s[0] {
    } else if lex_le(x, s[0]) {
        assert forall|i: int, j: int| 0 <= i < j < r.len() implies lex_le(r[i], r[j]) && r[i]
            != r[j] by {
            if i == 0 {
                assert(r[0] == x);
                assert(r[j] == s[j - 1]);
                if j > 1 {
                    lemma_sorted_unique_pair(s, 0, j - 1);
                    crate::text::lemma_lex_le_trans(x, s[0], s[j - 1]);
                    if x == s[j - 1] {
                        crate::text::lemma_lex_le_antisym(x, s[0]);
                    }
                }
            } else {
                assert(r[i] == s[i - 1]);
                assert(r[j] == s[j - 1]);
                lemma_sorted_unique_pair(s, i - 1, j - 1);
            }
        }
    } else {
        let t = s.drop_first();
        assert(forall|m: int| 0 <= m < t.len() ==> t[m] == s[m + 1]);
        assert(sorted_unique(t));
        lemma_sorted_insert_keeps(t, x);
        crate::text::lemma_lex_le_total(x, s[0]);
        crate::text::lemma_lex_le_refl(x);
        assert forall|i: int, j: int| 0 <= i < j < r.len() implies lex_le(r[i], r[j]) && r[i]
            != r[j] by {
            if i == 0 {
                assert(r[0] == s[0]);
                let y = r[j];
                assert(sorted_insert(t, x)[j - 1] == y);
                assert(sorted_insert(t, x).contains(y));
                lemma_sorted_insert_contains(t, x, y);
                if t.contains(y) {
                    let m = choose|m: int| 0 <= m < t.len() && t[m] == y;
                    assert(s[m + 1] == y);
                    lemma_sorted_unique_pair(s, 0, m + 1);
                } else {
                    assert(y == x);
                    assert(lex_le(s[0], x));
                    assert(s[0] != x);
                }
            } else {
                assert(r[i] == sorted_insert(t, x)[i - 1]);
                assert(r[j] == sorted_insert(t, x)[j - 1]);
                lemma_sorted_unique_pair(sorted_insert(t, x), i - 1, j - 1);
            }
        }
    }
}

proof fn lemma_sorted_insert_has(s: Seq<Seq<char>>, x: Seq<char>, y: Seq<char>)
    ensures
        sorted_insert(s, x).contains(y) <==> (s.contains(y) || y == x),
    decreases s.len(),
{
    let r = sorted_insert(s, x);
    if sorted_insert(s, x).contains(y) {
        lemma_sorted_insert_contains(s, x, y);
    }
    if y == x {
        if s.len() == 0 {
            assert(r[0] == y);
        } else if x == s[0] {
            assert(r[0] == y);
        } else if lex_le(x, s[0]) {
            assert(r[0] == y);
        } else {
            lemma_sorted_insert_has(s.drop_first(), x, y);
            let j = choose|j: int|
                0 <= j < sorted_insert(s.drop_first(), x).len() && sorted_insert(
                    s.drop_first(),
                    x,
                )[j] == y;
            assert(r[j + 1] == y);
        }
        assert(r.contains(y));
    }
    if s.contains(y) {
        let m = choose|m: int| 0 <= m < s.len() && s[m] == y;
        if x == s[0] {
        } else if lex_le(x, s[0]) {
            assert(r[m + 1] == y);
        } else {
            if m == 0 {
                assert(r[0] == y);
            } else {
                let t = s.drop_first();
                assert(t[m - 1] == y);
                assert(t.contains(y));
                lemma_sorted_insert_has(t, x, y);
                let j = choose|j: int|
                    0 <= j < sorted_insert(t, x).len() && sorted_insert(t, x)[j] == y;
                assert(r[j + 1] == y);
            }
        }
        assert(r.contains(y));
    }
}

/// A name stands among a document's field names exactly when it is an
/// eligible key of one of its top-level entries.
pub proof fn lemma_fields_membership(es: Seq<(String, Json)>, x: Seq<char>)
    ensures
        fields_of_entries(es).contains(x) <==> (spec_eligible_key(x) && exists|i: int|
            0 <= i < es.len() && (#[trigger] es[i]).0@ == x),
    decreases es.len(),
{
    if es.len() > 0 {
        let init = es.drop_last();
        assert(forall|i: int| 0 <= i < init.len() ==> init[i] == es[i]);
        lemma_fields_membership(init, x);
        if spec_eligible_key(es.last().0@) {
            lemma_sorted_insert_has(fields_of_entries(init), es.last().0@, x);
        }
        if fields_of_entries(es).contains(x) {
            if spec_eligible_key(es.last().0@) && x == es.last().0@ {
                assert(es[es.len() - 1].0@ == x);
            }
        }
        if spec_eligible_key(x) && exists|i: int| 0 <= i < es.len() && (#[trigger] es[i]).0@
            == x {
            let i = choose|i: int| 0 <= i < es.len() && (#[trigger] es[i]).0@ == x;
            if i < es.len() - 1 {
                assert(init[i].0@ == x);
            }
        }
    }
}

proof fn lemma_fields_entries_sorted(es: Seq<(String, Json)>)
    ensures
        sorted_unique(fields_of_entries(es)),
    decreases es.len(),
{
    if es.len() > 0 {
        lemma_fields_entries_sorted(es.drop_last());
        if spec_eligible_key(es.last().0@) {
            lemma_sorted_insert_keeps(fields_of_entries(es.drop_last()), es.last().0@);
        }
    }
}

/// Every field set the projector yields is lexicographically ordered and
/// free of duplicates.
pub proof fn lemma_fields_sorted_unique(d: Json)
    ensures
        sorted_unique(fields_spec(d)),
{
    match d {
        Json::Obj { entries, .. } => {
            lemma_fields_entries_sorted(entries@);
        },
        _ => {},
    }
}

/// Replaces the value at the first entry with path `k`, or appends a new
/// entry: sampled values merge last-write-wins per path.
pub open spec fn upsert(
    s: Seq<(Seq<char>, Seq<char>)>,
    k: Seq<char>,
    v: Seq<char>,
) -> Seq<(Seq<char>, Seq<char>)>
    decreases s.len(),
{
    if s.len() == 0 {
        seq![(k, v)]
    } else if s[0].0 == k {
        seq![(k, v)] + s.drop_first()
    } else {
        seq![s[0]] + upsert(s.drop_first(), k, v)
    }
}

/// Folds the entries of `b` into `a`, in order, last write winning per
/// path.
pub open spec fn merge_values(
    a: Seq<(Seq<char>, Seq<char>)>,
    b: Seq<(Seq<char>, Seq<char>)>,
) -> Seq<(Seq<char>, Seq<char>)>
    decreases b.len(),
{
    if b.len() == 0 {
        a
    } else {
        upsert(merge_values(a, b.drop_last()), b.last().0, b.last().1)
    }
}

/// The sampled form of a string value: kept verbatim up to fifty
/// characters, else truncated to forty-seven with an ellipsis marker.
pub open spec fn trunc_str(s: Seq<char>) -> Seq<char> {
    if s.len() <= 50 {
        s
    } else {
        s.subrange(0, 47) + "..."@
    }
}

pub open spec fn bool_str(b: bool) -> Seq<char> {
    if b {
        "true"@
    } else {
        "false"@
    }
}

/// The string forms of the elements of an array, in order.
pub open spec fn elem_strs(items: Seq<Json>) -> Seq<Seq<char>>
    decreases items.len(),
{
    if items.len() == 0 {
        Seq::empty()
    } else {
        elem_strs(items.drop_last()).push(elem_str(items.last()))
    }
}

/// The sampled form of an array value: up to three elements joined inside
/// brackets, else a count of the items.
pub open spec fn arr_str(items: Seq<Json>) -> Seq<char> {
    if items.len() <= 3 {
        "["@ + join_with(elem_strs(items), ","@) + "]"@
    } else {
        "["@ + dec_str(items.len() as nat) + " items]"@
    }
}

/// The dotted path of a key under a prefix.
pub open spec fn child_path(prefix: Seq<char>, key: Seq<char>) -> Seq<char> {
    if prefix.len() == 0 {
        key
    } else {
        prefix + "."@ + key
    }
}

/// The depth-bounded path-to-sample mapping of a document, with `left`
/// levels of object nesting still allowed. A non-object document, or one
/// at the bound, contributes nothing.
pub open spec fn values_spec(d: Json, prefix: Seq<char>, left: nat) -> Seq<(Seq<char>, Seq<char>)>
    decreases left, 1nat, 0nat,
{
    if left == 0 {
        Seq::empty()
    } else {
        match d {
            Json::Obj { entries, .. } => entries_values(entries@, prefix, left),
            _ => Seq::empty(),
        }
    }
}

/// The mapping contributed by the first entries of an object: each
/// eligible key samples its value at its dotted path; a nested object
/// recurses one level deeper and merges; a null contributes nothing.
pub open spec fn entries_values(
    es: Seq<(String, Json)>,
    prefix: Seq<char>,
    left: nat,
) -> Seq<(Seq<char>, Seq<char>)>
    decreases left, 0nat, es.len(),
{
    if left == 0 || es.len() == 0 {
        Seq::empty()
    } else {
        let prior = entries_values(es.drop_last(), prefix, left);
        let key = es.last().0@;
        let val = es.last().1;
        if spec_eligible_key(key) {
            let path = child_path(prefix, key);
            match val {
                Json::Null => prior,
                Json::Bool(b) => upsert(prior, path, bool_str(b)),
                Json::Num { text, .. } => upsert(prior, path, text@),
                Json::Text(s) => upsert(prior, path, trunc_str(s@)),
                Json::Arr { items, .. } => upsert(prior, path, arr_str(items@)),
                Json::Obj { .. } => merge_values(
                    prior,
                    values_spec(val, path, (left - 1) as nat),
                ),
            }
        } else {
            prior
        }
    }
}

/// Replaces or appends one sampled value in the path-ordered vector.
pub fn upsert_exec(v: &mut Vec<(String, String)>, k: String, val: String)
    ensures
        final(v).deep_view() == upsert(old(v).deep_view(), k@, val@),
{
    let ghost dv = old(v).deep_view();
    proof {
        assert(dv.skip(0) =~= dv);
        assert(dv.take(0) + upsert(dv, k@, val@) =~= upsert(dv, k@, val@));
    }
    let mut i: usize = 0;
    while i < v.len() && !str_eq(v[i].0.as_str(), k.as_str())
        invariant
            i <= v.len(),
            *v == *old(v),
            dv == old(v).deep_view(),
            forall|j: int| 0 <= j < i ==> dv[j].0 != k@,
            upsert(dv, k@, val@) == dv.take(i as int) + upsert(dv.skip(i as int), k@, val@),
        decreases v.len() - i,
    {
        proof {
            assert(dv.skip(i as int).drop_first() =~= dv.skip(i + 1));
            assert(upsert(dv.skip(i as int), k@, val@) == seq![dv[i as int]] + upsert(
                dv.skip(i + 1),
                k@,
                val@,
            ));
            assert(dv.take(i as int) + (seq![dv[i as int]] + upsert(dv.skip(i + 1), k@, val@))
                =~= dv.take(i + 1) + upsert(dv.skip(i + 1), k@, val@));
        }
        i = i + 1;
    }
    if i < v.len() {
        v.remove(i);
        v.insert(i, (k, val));
        proof {
            assert(v.deep_view() =~= dv.take(i as int) + seq![(k@, val@)] + dv.skip(i + 1));
            assert(upsert(dv.skip(i as int), k@, val@) =~= seq![(k@, val@)] + dv.skip(i + 1));
            assert(v.deep_view() =~= upsert(dv, k@, val@));
        }
    } else {
        v.push((k, val));
        proof {
            assert(upsert(dv.skip(i as int), k@, val@) =~= seq![(k@, val@)]);
            assert(v.deep_view() =~= dv.push((k@, val@)));
            assert(v.deep_view() =~= upsert(dv, k@, val@));
        }
    }
}

/// Folds the child mapping into the accumulator, in order.
pub fn merge_into(v: &mut Vec<(String, String)>, child: &Vec<(String, String)>)
    ensures
        final(v).deep_view() == merge_values(old(v).deep_view(), child.deep_view()),
{
    let ghost a = old(v).deep_view();
    let ghost b = child.deep_view();
    let mut i: usize = 0;
    while i < child.len()
        invariant
            i <= child.len(),
            b == child.deep_view(),
            v.deep_view() == merge_values(a, b.take(i as int)),
        decreases child.len() - i,
    {
        proof {
            assert(b.take(i + 1).drop_last() =~= b.take(i as int));
            assert(b.take(i + 1).last() == b[i as int]);
        }
        upsert_exec(v, child[i].0.clone(), child[i].1.clone());
        i = i + 1;
    }
    proof {
        assert(b.take(b.len() as int) =~= b);
    }
}

/// Builds the dotted path of a key under a prefix.
pub fn make_path(prefix: &str, key: &str) -> (r: String)
    ensures
        r@ == child_path(prefix@, key@),
{
    if prefix.is_empty() {
        prefix.to_owned().concat(key)
    } else {
        let mut r = prefix.to_owned();
        r.append(".");
        r.append(key);
        r
    }
}

/// Builds the sampled form of a string value.
pub fn trunc_value(s: &str) -> (r: String)
    ensures
        r@ == trunc_str(s@),
{
    if s.unicode_len() <= 50 {
        s.to_owned()
    } else {
        let mut r = s.substring_char(0, 47).to_owned();
        r.append("...");
        r
    }
}

/// Builds the sampled form of an array value.
pub fn arr_str_exec(items: &Vec<Json>) -> (r: String)
    ensures
        r@ == arr_str(items@),
{
    if items.len() <= 3 {
        let mut parts: Vec<String> = Vec::new();
        let mut i: usize = 0;
        while i < items.len()
            invariant
                i <= items.len(),
                parts.deep_view() == elem_strs(items@.take(i as int)),
            decreases items.len() - i,
        {
            parts.push(elem_str_exec(&items[i]));
            proof {
                assert(items@.take(i + 1).drop_last() =~= items@.take(i as int));
                assert(items@.take(i + 1).last() == items@[i as int]);
                assert(parts.deep_view() =~= elem_strs(items@.take(i as int)).push(
                    elem_str(items@[i as int]),
                ));
            }
            i = i + 1;
        }
        proof {
            assert(items@.take(items@.len() as int) =~= items@);
        }
        let mut r = String::from_str("[");
        let joined = join_strings(&parts, ",");
        r.append(joined.as_str());
        r.append("]");
        r
    } else {
        let mut r = String::from_str("[");
        let n = usize_to_string(items.len());
        r.append(n.as_str());
        r.append(" items]");
        r
    }
}

/// The number of nesting levels still allowed at a given depth under a
/// given bound.
pub open spec fn depth_left(d: nat, m: nat) -> nat {
    if d >= m {
        0
    } else {
        (m - d) as nat
    }
}

/// Collects the depth-bounded mapping of dotted field paths to sampled
/// values for a document, starting at the given depth.
pub fn extract_field_values_from_object_with_depth(
    obj: &Json,
    prefix: &str,
    current_depth: usize,
    max_depth: usize,
) -> (r: Vec<(String, String)>)
    ensures
        r.deep_view() == values_spec(
            *obj,
            prefix@,
            depth_left(current_depth as nat, max_depth as nat),
        ),
    decreases max_depth - current_depth,
{
    let ghost left = depth_left(current_depth as nat, max_depth as nat);
    if current_depth >= max_depth {
        return Vec::new();
    }
    match obj {
        Json::Obj { entries, .. } => {
            let mut out: Vec<(String, String)> = Vec::new();
            let mut i: usize = 0;
            while i < entries.len()
                invariant
                    i <= entries.len(),
                    *obj is Obj,
                    obj->Obj_entries == *entries,
                    current_depth < max_depth,
                    left == depth_left(current_depth as nat, max_depth as nat),
                    left >= 1,
                    out.deep_view() == entries_values(entries@.take(i as int), prefix@, left),
                decreases entries.len() - i,
            {
                proof {
                    assert(entries@.take(i + 1).drop_last() =~= entries@.take(i as int));
                    assert(entries@.take(i + 1).last() == entries@[i as int]);
                }
                let pair = &entries[i];
                if eligible_key(pair.0.as_str()) {
                    let path = make_path(prefix, pair.0.as_str());
                    match &pair.1 {
                        Json::Null => {},
                        Json::Bool(b) => {
                            let sv = if *b {
                                String::from_str("true")
                            } else {
                                String::from_str("false")
                            };
                            upsert_exec(&mut out, path, sv);
                        },
                        Json::Num { text, .. } => {
                            upsert_exec(&mut out, path, text.clone());
                        },
                        Json::Text(s) => {
                            upsert_exec(&mut out, path, trunc_value(s.as_str()));
                        },
                        Json::Arr { items, .. } => {
                            upsert_exec(&mut out, path, arr_str_exec(items));
                        },
                        Json::Obj { .. } => {
                            let child = extract_field_values_from_object_with_depth(
                                &pair.1,
                                path.as_str(),
                                current_depth + 1,
                                max_depth,
                            );
                            proof {
                                assert(depth_left((current_depth + 1) as nat, max_depth as nat)
                                    == (left - 1) as nat);
                            }
                            merge_into(&mut out, &child);
                        },
                    }
                }
                i = i + 1;
            }
            proof {
                assert(entries@.take(entries@.len() as int) =~= entries@);
            }
            out
        },
        _ => Vec::new(),
    }
}

/// Collects the path-to-sample mapping of a document from the top, with
/// the standard three-level nesting bound.
pub fn extract_field_values_from_object(obj: &Json, prefix: &str) -> (r: Vec<(String, String)>)
    ensures
        r.deep_view() == values_spec(*obj, prefix@, 3),
{
    extract_field_values_from_object_with_depth(obj, prefix, 0, 3)
}

} // verus!
