//! Fragment extraction: scanning a free-text field for every maximal
//! balanced-brace substring, the candidate documents of the pipeline.

use vstd::prelude::*;

verus! {

use vstd::string::StrSliceExecFns;

/// The scanner's state after some prefix of the text: the current brace
/// depth, the position where the open candidate began, and the fragments
/// already emitted.
pub struct ScanState {
    pub depth: int,
    pub opened: Option<int>,
    pub frags: Seq<Seq<char>>,
}

pub open spec fn scan_init() -> ScanState {
    ScanState { depth: 0, opened: None, frags: Seq::empty() }
}

/// One scanner step on the character at position `i` of the text.
///
/// A candidate begins when the depth moves from zero on an opening brace;
/// a closing brace that returns the depth to zero emits the candidate.
/// Every brace counts literally, and a closing brace with nothing open
/// pushes the depth below zero.
pub open spec fn scan_step(st: ScanState, s: Seq<char>, i: int) -> ScanState {
    let c = s[i];
    if c == '{' {
        ScanState {
            depth: st.depth + 1,
            opened: if st.depth == 0 {
                Some(i)
            } else {
                st.opened
            },
            frags: st.frags,
        }
    } else if c == '}' {
        if st.depth == 1 {
            match st.opened {
                Some(b) => ScanState {
                    depth: 0,
                    opened: None,
                    frags: st.frags.push(s.subrange(b, i + 1)),
                },
                None => ScanState { depth: 0, opened: None, frags: st.frags },
            }
        } else {
            ScanState { depth: st.depth - 1, opened: st.opened, frags: st.frags }
        }
    } else {
        st
    }
}

/// The scanner's state after the first `n` characters of the text.
pub open spec fn scan(s: Seq<char>, n: int) -> ScanState
    decreases n,
{
    if n <= 0 {
        scan_init()
    } else {
        scan_step(scan(s, n - 1), s, n - 1)
    }
}

/// Every maximal balanced-brace substring of the text, in scan order.
/// A candidate still open at the end of the text is discarded.
pub open spec fn fragments_spec(s: Seq<char>) -> Seq<Seq<char>> {
    scan(s, s.len() as int).frags
}

/// Scans one text field and collects every maximal balanced-brace
/// substring, left to right.
pub fn extract_fragments(field: &str) -> (r: Vec<String>)
    ensures
        r.deep_view() == fragments_spec(field@),
{
    let n = field.unicode_len();
    let mut frags: Vec<String> = Vec::new();
    let mut depth: i128 = 0;
    let mut opened: usize = 0;
    let mut has_opened: bool = false;
    let mut i: usize = 0;
    while i < n
        invariant
            i <= n,
            n == field@.len(),
            -(i as int) <= depth <= i as int,
            scan(field@, i as int).depth == depth,
            has_opened == (scan(field@, i as int).opened is Some),
            has_opened ==> scan(field@, i as int).opened == Some(opened as int) && opened <= i,
            frags.deep_view() == scan(field@, i as int).frags,
        decreases n - i,
    {
        proof {
            assert(scan(field@, i + 1) == scan_step(scan(field@, i as int), field@, i as int));
        }
        let c = field.get_char(i);
        if c == '{' {
            if depth == 0 {
                opened = i;
                has_opened = true;
            }
            depth = depth + 1;
        } else if c == '}' {
            depth = depth - 1;
            if depth == 0 {
                if has_opened {
                    let frag = field.substring_char(opened, i + 1).to_owned();
                    let ghost old_dv = frags.deep_view();
                    frags.push(frag);
                    proof {
                        assert(frags.deep_view() =~= old_dv.push(frag@));
                    }
                }
                has_opened = false;
            }
        }
        i = i + 1;
    }
    frags
}

/// Text with no brace characters at all.
pub open spec fn no_braces(s: Seq<char>) -> bool {
    forall|i: int| 0 <= i < s.len() ==> s[i] != '{' && s[i] != '}'
}

/// Text with no closing brace, such as trailing prose with stray opening
/// braces.
pub open spec fn no_close(s: Seq<char>) -> bool {
    forall|i: int| 0 <= i < s.len() ==> s[i] != '}'
}

/// The net brace depth of the first `n` characters of a text.
pub open spec fn depth_of(s: Seq<char>, n: int) -> int
    decreases n,
{
    if n <= 0 {
        0
    } else {
        depth_of(s, n - 1) + (if s[n - 1] == '{' {
            1int
        } else if s[n - 1] == '}' {
            -1int
        } else {
            0int
        })
    }
}

/// One maximal balanced-brace group: it opens at its first character,
/// closes at its last, and stays strictly open in between.
pub open spec fn balanced_group(f: Seq<char>) -> bool {
    &&& f.len() >= 2
    &&& f[0] == '{'
    &&& f.last() == '}'
    &&& forall|n: int| 0 < n < f.len() ==> depth_of(f, n) > 0
    &&& depth_of(f, f.len() as int) == 0
}

/// A scanner state with nothing pending: depth zero and no open
/// candidate.
pub open spec fn closed_at(s: Seq<char>, n: int) -> bool {
    scan(s, n).depth == 0 && scan(s, n).opened is None
}

proof fn lemma_scan_wf(s: Seq<char>, n: int)
    requires
        0 <= n,
    ensures
        scan(s, n).opened matches Some(b) ==> 0 <= b < n,
    decreases n,
{
    if n > 0 {
        lemma_scan_wf(s, n - 1);
    }
}

/// The scanner's state after `n` characters depends on those characters
/// alone.
proof fn lemma_scan_local(s1: Seq<char>, s2: Seq<char>, n: int)
    requires
        0 <= n <= s1.len(),
        n <= s2.len(),
        forall|i: int| 0 <= i < n ==> s1[i] == s2[i],
    ensures
        scan(s1, n) == scan(s2, n),
    decreases n,
{
    if n > 0 {
        lemma_scan_local(s1, s2, n - 1);
        lemma_scan_wf(s1, n - 1);
        let st = scan(s1, n - 1);
        if s1[n - 1] == '}' && st.depth == 1 && st.opened is Some {
            let b = st.opened->0;
            assert(s1.subrange(b, n) =~= s2.subrange(b, n));
        }
    }
}

/// Characters that are not braces leave the scanner unchanged.
proof fn lemma_scan_skip(s: Seq<char>, n: int, m: int)
    requires
        0 <= n <= m <= s.len(),
        forall|i: int| n <= i < m ==> s[i] != '{' && s[i] != '}',
    ensures
        scan(s, m) == scan(s, n),
    decreases m - n,
{
    if m > n {
        lemma_scan_skip(s, n, m - 1);
    }
}

proof fn lemma_scan_group_inner(s: Seq<char>, n: int, g: Seq<char>, t: int)
    requires
        0 <= n,
        n + g.len() <= s.len(),
        forall|i: int| 0 <= i < g.len() ==> s[n + i] == g[i],
        balanced_group(g),
        closed_at(s, n),
        1 <= t < g.len(),
    ensures
        scan(s, n + t).depth == depth_of(g, t),
        scan(s, n + t).opened == Some(n),
        scan(s, n + t).frags == scan(s, n).frags,
    decreases t,
{
    if t == 1 {
        reveal_with_fuel(depth_of, 3);
        assert(s[n] == g[0]);
        assert(depth_of(g, 1) == 1);
    } else {
        lemma_scan_group_inner(s, n, g, t - 1);
        assert(s[n + t - 1] == g[t - 1]);
        assert(depth_of(g, t - 1) > 0);
        assert(depth_of(g, t) > 0);
    }
}

/// Scanning one balanced group from a closed state emits exactly that
/// group and returns to a closed state.
proof fn lemma_scan_group(s: Seq<char>, n: int, g: Seq<char>)
    requires
        0 <= n,
        n + g.len() <= s.len(),
        forall|i: int| 0 <= i < g.len() ==> s[i + n] == g[i],
        balanced_group(g),
        closed_at(s, n),
    ensures
        scan(s, n + g.len()).depth == 0,
        scan(s, n + g.len()).opened is None,
        scan(s, n + g.len()).frags == scan(s, n).frags.push(g),
{
    let glen = g.len() as int;
    lemma_scan_group_inner(s, n, g, glen - 1);
    assert(s[n + glen - 1] == g[glen - 1]);
    assert(g[glen - 1] == '}');
    assert(depth_of(g, glen - 1) > 0);
    assert(depth_of(g, glen) == depth_of(g, glen - 1) - 1);
    assert(depth_of(g, glen - 1) == 1);
    assert(scan(s, n + glen) == scan_step(scan(s, n + glen - 1), s, n + glen - 1));
    assert(s.subrange(n, n + glen) =~= g);
}

/// A suffix without a closing brace emits nothing: an open candidate at
/// the end of the text is silently discarded.
pub proof fn lemma_trailing_no_close(s: Seq<char>, tail: Seq<char>)
    requires
        closed_at(s, s.len() as int),
    ensures
        no_close(tail) ==> fragments_spec(s + tail) == fragments_spec(s),
{
    if no_close(tail) {
        let w = s + tail;
        lemma_scan_local(s, w, s.len() as int);
        lemma_tail_frags(w, s.len() as int, w.len() as int);
        assert(scan(w, s.len() as int).frags == fragments_spec(s));
    }
}

/// A suffix without an opening brace emits nothing either: stray closing
/// braces push the depth below zero and never complete a candidate.
pub proof fn lemma_trailing_no_open(s: Seq<char>, tail: Seq<char>)
    requires
        closed_at(s, s.len() as int),
        forall|i: int| 0 <= i < tail.len() ==> tail[i] != '{',
    ensures
        fragments_spec(s + tail) == fragments_spec(s),
{
    let w = s + tail;
    lemma_scan_local(s, w, s.len() as int);
    lemma_tail_no_open(w, s.len() as int, w.len() as int);
    assert(scan(w, s.len() as int).frags == fragments_spec(s));
}

proof fn lemma_tail_no_open(w: Seq<char>, n: int, m: int)
    requires
        0 <= n <= m <= w.len(),
        scan(w, n).depth <= 0,
        forall|i: int| n <= i < m ==> w[i] != '{',
    ensures
        scan(w, m).frags == scan(w, n).frags,
        scan(w, m).depth <= 0,
    decreases m - n,
{
    if m > n {
        lemma_tail_no_open(w, n, m - 1);
    }
}

proof fn lemma_tail_frags(w: Seq<char>, n: int, m: int)
    requires
        0 <= n <= m <= w.len(),
        forall|i: int| n <= i < m ==> w[i] != '}',
    ensures
        scan(w, m).frags == scan(w, n).frags,
    decreases m - n,
{
    if m > n {
        lemma_tail_frags(w, n, m - 1);
    }
}

/// Appending brace-free prose and then one balanced group to a text whose
/// scan is closed adds exactly one fragment: the group itself. Repeated
/// application shows that a field holding any number of balanced groups,
/// separated by brace-free text, yields exactly those groups, one
/// fragment each.
pub proof fn lemma_extend_one_group(s: Seq<char>, filler: Seq<char>, g: Seq<char>)
    requires
        closed_at(s, s.len() as int),
        no_braces(filler),
        balanced_group(g),
    ensures
        fragments_spec(s + filler + g) == fragments_spec(s).push(g),
        closed_at(s + filler + g, (s + filler + g).len() as int),
{
    let w = s + filler + g;
    let n0 = s.len() as int;
    let n1 = n0 + filler.len() as int;
    lemma_scan_local(s, w, n0);
    lemma_scan_skip(w, n0, n1);
    assert(forall|i: int| 0 <= i < g.len() ==> w[i + n1] == g[i]);
    lemma_scan_group(w, n1, g);
    assert(scan(w, w.len() as int) == scan(w, n1 + g.len() as int));
}

/// An empty field yields no fragments and leaves the scanner closed.
pub proof fn lemma_fragments_empty()
    ensures
        fragments_spec(Seq::<char>::empty()) == Seq::<Seq<char>>::empty(),
        closed_at(Seq::<char>::empty(), 0),
{
}

/// Wrapping exactly one balanced group in brace-free prose yields exactly
/// that group's text, unchanged.
pub proof fn lemma_round_trip(pre: Seq<char>, frag: Seq<char>, post: Seq<char>)
    requires
        no_braces(pre),
        no_braces(post),
        balanced_group(frag),
    ensures
        fragments_spec(pre + frag + post) == seq![frag],
{
    let e = Seq::<char>::empty();
    lemma_fragments_empty();
    lemma_extend_one_group(e, pre, frag);
    assert(e + pre + frag =~= pre + frag);
    lemma_trailing_no_close(pre + frag, post);
    assert(fragments_spec(e) =~= Seq::<Seq<char>>::empty());
    assert(Seq::<Seq<char>>::empty().push(frag) =~= seq![frag]);
}

/// Brace-free filler texts interleaved with balanced groups, each filler
/// before its group.
pub open spec fn interleave(fillers: Seq<Seq<char>>, groups: Seq<Seq<char>>) -> Seq<char>
    decreases groups.len(),
{
    if groups.len() == 0 || fillers.len() == 0 {
        Seq::empty()
    } else {
        interleave(fillers.drop_last(), groups.drop_last()) + fillers.last() + groups.last()
    }
}

/// A field holding any number of balanced groups, each preceded by
/// brace-free text, yields exactly those groups, one fragment each, in
/// order.
pub proof fn lemma_balance(fillers: Seq<Seq<char>>, groups: Seq<Seq<char>>)
    requires
        fillers.len() == groups.len(),
        forall|i: int| 0 <= i < fillers.len() ==> no_braces(#[trigger] fillers[i]),
        forall|i: int| 0 <= i < groups.len() ==> balanced_group(#[trigger] groups[i]),
    ensures
        fragments_spec(interleave(fillers, groups)) == groups,
        closed_at(interleave(fillers, groups), interleave(fillers, groups).len() as int),
    decreases groups.len(),
{
    if groups.len() == 0 {
        lemma_fragments_empty();
        assert(fragments_spec(interleave(fillers, groups)) =~= groups);
    } else {
        let fs = fillers.drop_last();
        let gs = groups.drop_last();
        assert(forall|i: int| 0 <= i < fs.len() ==> fs[i] == fillers[i]);
        assert(forall|i: int| 0 <= i < gs.len() ==> gs[i] == groups[i]);
        lemma_balance(fs, gs);
        lemma_extend_one_group(interleave(fs, gs), fillers.last(), groups.last());
        assert(gs.push(groups.last()) =~= groups);
    }
}

} // verus!
