//! Pattern normalization: turning one candidate fragment into the
//! canonical query-pattern value that deduplication and aggregation work
//! on.

use vstd::prelude::*;

verus! {

use vstd::string::StrSliceExecFns;
use vstd::string::StringExecFns;
use crate::json::{Json, get_field, get_field_exec, spec_parse_json, parse_json};
use crate::project::{
    fields_spec,
    values_spec,
    extract_fields_from_object,
    extract_field_values_from_object,
};
use crate::text::{join_with, join_strings, str_eq};

/// The normalized, de-valued shape of one query record: the unit of
/// deduplication.
pub struct QueryPattern {
    pub collection: String,
    pub operation: String,
    pub filter_fields: Vec<String>,
    pub sort_fields: Vec<String>,
    pub index_used: String,
    pub plan_summary: String,
    pub duration_ms: Option<i64>,
    pub field_values: Vec<(String, String)>,
}

/// The mathematical shape of a pattern, with every string as its character
/// sequence.
pub struct QueryPatternView {
    pub collection: Seq<char>,
    pub operation: Seq<char>,
    pub filter_fields: Seq<Seq<char>>,
    pub sort_fields: Seq<Seq<char>>,
    pub index_used: Seq<char>,
    pub plan_summary: Seq<char>,
    pub duration_ms: Option<i64>,
    pub field_values: Seq<(Seq<char>, Seq<char>)>,
}

impl View for QueryPattern {
    type V = QueryPatternView;

    open spec fn view(&self) -> QueryPatternView {
        QueryPatternView {
            collection: self.collection@,
            operation: self.operation@,
            filter_fields: self.filter_fields.deep_view(),
            sort_fields: self.sort_fields.deep_view(),
            index_used: self.index_used@,
            plan_summary: self.plan_summary@,
            duration_ms: self.duration_ms,
            field_values: self.field_values.deep_view(),
        }
    }
}

/// The display identity that deduplication keys on: collection, operation,
/// field sets, plan and index. Duration and sampled values do not
/// participate, so records that differ only there collapse into one
/// pattern.
pub open spec fn identity_spec(p: QueryPatternView) -> Seq<char> {
    let base = "Collection: "@ + p.collection + " | Operation: "@ + p.operation;
    let f = if p.filter_fields.len() > 0 {
        base + " | Filter fields: ["@ + join_with(p.filter_fields, ", "@) + "]"@
    } else {
        base
    };
    let s = if p.sort_fields.len() > 0 {
        f + " | Sort fields: ["@ + join_with(p.sort_fields, ", "@) + "]"@
    } else {
        f
    };
    let pl = if p.plan_summary.len() > 0 && p.plan_summary != "unknown"@ {
        s + " | Plan: "@ + p.plan_summary
    } else {
        s
    };
    if p.index_used.len() > 0 && p.index_used != "unknown"@ {
        pl + " | Index: "@ + p.index_used
    } else {
        pl
    }
}

/// The display identity reads only the pattern's shape: two patterns that
/// differ only in duration or sampled values share one identity, so their
/// records collapse into one aggregation entry.
pub proof fn lemma_identity_ignores_samples(p: QueryPatternView, q: QueryPatternView)
    requires
        p.collection == q.collection,
        p.operation == q.operation,
        p.filter_fields == q.filter_fields,
        p.sort_fields == q.sort_fields,
        p.index_used == q.index_used,
        p.plan_summary == q.plan_summary,
    ensures
        identity_spec(p) == identity_spec(q),
{
}

impl QueryPattern {
    /// Renders the display identity of this pattern.
    pub fn identity(&self) -> (r: String)
        ensures
            r@ == identity_spec(self@),
    {
        let mut r = String::from_str("Collection: ");
        r.append(self.collection.as_str());
        r.append(" | Operation: ");
        r.append(self.operation.as_str());
        if self.filter_fields.len() > 0 {
            r.append(" | Filter fields: [");
            let joined = join_strings(&self.filter_fields, ", ");
            r.append(joined.as_str());
            r.append("]");
        }
        if self.sort_fields.len() > 0 {
            r.append(" | Sort fields: [");
            let joined = join_strings(&self.sort_fields, ", ");
            r.append(joined.as_str());
            r.append("]");
        }
        if self.plan_summary.unicode_len() > 0 && !str_eq(self.plan_summary.as_str(), "unknown") {
            r.append(" | Plan: ");
            r.append(self.plan_summary.as_str());
        }
        if self.index_used.unicode_len() > 0 && !str_eq(self.index_used.as_str(), "unknown") {
            r.append(" | Index: ");
            r.append(self.index_used.as_str());
        }
        r
    }
}

/// The greatest position holding a dot, or a negative value when the
/// sequence has none.
pub open spec fn last_dot(ns: Seq<char>) -> int
    decreases ns.len(),
{
    if ns.len() == 0 {
        -1
    } else if ns.last() == '.' {
        ns.len() - 1
    } else {
        last_dot(ns.drop_last())
    }
}

/// The collection named by a dotted namespace: what follows the last dot;
/// empty when the namespace has no dot.
pub open spec fn last_segment(ns: Seq<char>) -> Seq<char> {
    if last_dot(ns) >= 0 {
        ns.subrange(last_dot(ns) + 1, ns.len() as int)
    } else {
        Seq::empty()
    }
}

proof fn lemma_last_dot(s: Seq<char>)
    ensures
        last_dot(s) >= 0 ==> 0 <= last_dot(s) < s.len() && s[last_dot(s)] == '.' && (forall|j: int|
            last_dot(s) < j < s.len() ==> s[j] != '.'),
        last_dot(s) < 0 ==> (forall|j: int| 0 <= j < s.len() ==> s[j] != '.'),
    decreases s.len(),
{
    if s.len() > 0 && s.last() != '.' {
        lemma_last_dot(s.drop_last());
        assert(forall|j: int| 0 <= j < s.len() - 1 ==> s[j] == s.drop_last()[j]);
    }
}

/// Extracts the collection name from a dotted namespace.
pub fn collection_of_ns(ns: &str) -> (r: String)
    ensures
        r@ == last_segment(ns@),
{
    let n = ns.unicode_len();
    let mut i: usize = n;
    while i > 0
        invariant
            i <= n,
            n == ns@.len(),
            forall|j: int| i <= j < n ==> ns@[j] != '.',
        decreases i,
    {
        if ns.get_char(i - 1) == '.' {
            proof {
                lemma_last_dot(ns@);
                assert(last_dot(ns@) == i - 1);
            }
            return ns.substring_char(i, n).to_owned();
        }
        i = i - 1;
    }
    proof {
        lemma_last_dot(ns@);
        assert(last_dot(ns@) < 0);
    }
    String::new()
}

/// The operation kind a command object names: decided by the presence of
/// one of the known command keys.
pub open spec fn op_of_command(cmd: Json) -> Seq<char> {
    if get_field(cmd, "find"@) is Some {
        "find"@
    } else if get_field(cmd, "getMore"@) is Some {
        "getMore"@
    } else if get_field(cmd, "listDatabases"@) is Some {
        "listDatabases"@
    } else {
        "other"@
    }
}

/// The pattern a parsed record normalizes to, or nothing when the record
/// lacks the top-level `attr` object or ends with both collection and
/// operation empty.
pub open spec fn normalize_spec(d: Json) -> Option<QueryPatternView> {
    match get_field(d, "attr"@) {
        None => None,
        Some(attr) => {
            let collection = match get_field(attr, "ns"@) {
                Some(Json::Text(ns)) => last_segment(ns@),
                _ => Seq::<char>::empty(),
            };
            let plan = match get_field(attr, "planSummary"@) {
                Some(Json::Text(p)) => p@,
                _ => "unknown"@,
            };
            let duration = match get_field(attr, "durationMillis"@) {
                Some(Json::Num { whole: Some(n), .. }) => Some(n),
                _ => None,
            };
            let shape0 = match get_field(attr, "command"@) {
                Some(cmd) => {
                    let op = op_of_command(cmd);
                    let fv = match get_field(cmd, "filter"@) {
                        Some(f) => (fields_spec(f), values_spec(f, Seq::<char>::empty(), 3)),
                        None => (Seq::<Seq<char>>::empty(), Seq::<(Seq<char>, Seq<char>)>::empty()),
                    };
                    let ss = match get_field(cmd, "sort"@) {
                        Some(s) => fields_spec(s),
                        None => Seq::<Seq<char>>::empty(),
                    };
                    (op, fv.0, ss, fv.1)
                },
                None => (
                    Seq::<char>::empty(),
                    Seq::<Seq<char>>::empty(),
                    Seq::<Seq<char>>::empty(),
                    Seq::<(Seq<char>, Seq<char>)>::empty(),
                ),
            };
            let shape = if shape0.0 == "getMore"@ {
                match get_field(attr, "originatingCommand"@) {
                    Some(oc) => {
                        let fv = match get_field(oc, "filter"@) {
                            Some(f) => (fields_spec(f), values_spec(f, Seq::<char>::empty(), 3)),
                            None => (shape0.1, shape0.3),
                        };
                        let ss = match get_field(oc, "sort"@) {
                            Some(s) => fields_spec(s),
                            None => shape0.2,
                        };
                        (shape0.0, fv.0, ss, fv.1)
                    },
                    None => shape0,
                }
            } else {
                shape0
            };
            if collection.len() == 0 && shape.0.len() == 0 {
                None
            } else {
                Some(
                    QueryPatternView {
                        collection,
                        operation: shape.0,
                        filter_fields: shape.1,
                        sort_fields: shape.2,
                        index_used: "unknown"@,
                        plan_summary: plan,
                        duration_ms: duration,
                        field_values: shape.3,
                    },
                )
            }
        },
    }
}

/// Normalizes one parsed document into a pattern.
pub fn normalize_doc(doc: &Json) -> (r: Option<QueryPattern>)
    ensures
        match normalize_spec(*doc) {
            None => r is None,
            Some(pv) => r matches Some(p) && p@ == pv,
        },
{
    proof {
        reveal_strlit("");
        assert(""@ =~= Seq::<char>::empty());
    }
    let attr = match get_field_exec(doc, "attr") {
        Some(a) => a,
        None => {
            return None;
        },
    };
    let mut collection = String::new();
    if let Some(nsv) = get_field_exec(attr, "ns") {
        if let Json::Text(ns) = nsv {
            collection = collection_of_ns(ns.as_str());
        }
    }
    let mut plan_summary = String::from_str("unknown");
    if let Some(pv) = get_field_exec(attr, "planSummary") {
        if let Json::Text(p) = pv {
            plan_summary = p.clone();
        }
    }
    let mut duration_ms: Option<i64> = None;
    if let Some(dv) = get_field_exec(attr, "durationMillis") {
        if let Json::Num { whole, .. } = dv {
            duration_ms = *whole;
        }
    }
    let mut operation = String::new();
    let mut filter_fields: Vec<String> = Vec::new();
    let mut sort_fields: Vec<String> = Vec::new();
    let mut field_values: Vec<(String, String)> = Vec::new();
    proof {
        assert(filter_fields.deep_view() =~= Seq::<Seq<char>>::empty());
        assert(sort_fields.deep_view() =~= Seq::<Seq<char>>::empty());
        assert(field_values.deep_view() =~= Seq::<(Seq<char>, Seq<char>)>::empty());
    }
    if let Some(cmd) = get_field_exec(attr, "command") {
        operation = if get_field_exec(cmd, "find").is_some() {
            String::from_str("find")
        } else if get_field_exec(cmd, "getMore").is_some() {
            String::from_str("getMore")
        } else if get_field_exec(cmd, "listDatabases").is_some() {
            String::from_str("listDatabases")
        } else {
            String::from_str("other")
        };
        if let Some(f) = get_field_exec(cmd, "filter") {
            filter_fields = extract_fields_from_object(f);
            field_values = extract_field_values_from_object(f, "");
        }
        if let Some(s) = get_field_exec(cmd, "sort") {
            sort_fields = extract_fields_from_object(s);
        }
    }
    if str_eq(operation.as_str(), "getMore") {
        if let Some(oc) = get_field_exec(attr, "originatingCommand") {
            if let Some(f) = get_field_exec(oc, "filter") {
                filter_fields = extract_fields_from_object(f);
                field_values = extract_field_values_from_object(f, "");
            }
            if let Some(s) = get_field_exec(oc, "sort") {
                sort_fields = extract_fields_from_object(s);
            }
        }
    }
    if collection.unicode_len() == 0 && operation.unicode_len() == 0 {
        return None;
    }
    Some(
        QueryPattern {
            collection,
            operation,
            filter_fields,
            sort_fields,
            index_used: String::from_str("unknown"),
            plan_summary,
            duration_ms,
            field_values,
        },
    )
}

/// Normalizes one candidate fragment: parses it and, when it is a
/// recognizable query record, yields its pattern.
pub fn parse_query_pattern(json_str: &str) -> (r: Option<QueryPattern>)
    ensures
        match spec_parse_json(json_str@) {
            None => r is None,
            Some(d) => match normalize_spec(d) {
                None => r is None,
                Some(pv) => r matches Some(p) && p@ == pv,
            },
        },
{
    let doc = match parse_json(json_str) {
        Some(d) => d,
        None => {
            return None;
        },
    };
    normalize_doc(&doc)
}

} // verus!
