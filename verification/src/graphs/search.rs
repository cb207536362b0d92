//! The state of Tarjan's depth-first search (the `dfn` numbering, the `low` values, the
//! node stack and its membership set, the clock) and the facts that one visit of a node
//! establishes about it.

use crate::graphs::reach::{
    comps_disjoint, comps_edges_backward, comps_strongly_connected, comps_union, has_edge,
    is_scc_decomposition, lemma_closed_reach, lemma_comps_append, lemma_edge_then_reaches, lemma_reaches_edge, lemma_reaches_refl, lemma_reaches_trans, reaches,
};
use vstd::prelude::*;

verus! {

/// How many entries of the numbering are still 0 (nodes not visited yet).
pub open spec fn unnumbered(d: Seq<usize>) -> nat
    decreases d.len(),
{
    if d.len() == 0 {
        0
    } else {
        unnumbered(d.drop_last()) + if d.last() == 0 {
            1nat
        } else {
            0nat
        }
    }
}

/// There are at most as many unnumbered entries as entries.
pub proof fn lemma_unnumbered_bound(d: Seq<usize>)
    ensures
        unnumbered(d) <= d.len(),
    decreases d.len(),
{
    if d.len() > 0 {
        lemma_unnumbered_bound(d.drop_last());
    }
}

/// A numbering that is all zeros leaves every entry unnumbered.
pub proof fn lemma_unnumbered_all_zero(d: Seq<usize>)
    requires
        forall|i: int| 0 <= i < d.len() ==> #[trigger] d[i] == 0,
    ensures
        unnumbered(d) == d.len(),
    decreases d.len(),
{
    if d.len() > 0 {
        lemma_unnumbered_all_zero(d.drop_last());
    }
}

/// Numbering one unnumbered entry lowers the count by one.
pub proof fn lemma_unnumbered_update(d: Seq<usize>, i: int, x: usize)
    requires
        0 <= i < d.len(),
        d[i] == 0,
        x != 0,
    ensures
        unnumbered(d.update(i, x)) + 1 == unnumbered(d),
    decreases d.len(),
{
    let d2 = d.update(i, x);
    if i == d.len() - 1 {
        assert(d2.drop_last() =~= d.drop_last());
    } else {
        assert(d2.drop_last() =~= d.drop_last().update(i, x));
        lemma_unnumbered_update(d.drop_last(), i, x);
    }
}

/// Node `x` has been given a number.
pub open spec fn numbered(d: Seq<usize>, x: usize) -> bool {
    x < d.len() && d[x as int] != 0
}

/// Node `x` was unnumbered in `d0` and is numbered in `d`.
pub open spec fn newly_numbered(d0: Seq<usize>, d: Seq<usize>, x: usize) -> bool {
    x < d0.len() && d0[x as int] == 0 && numbered(d, x)
}

/// Nodes that are numbered and no longer on the stack: those already placed in a component.
pub open spec fn finished(d: Seq<usize>, ins: Set<usize>) -> Set<usize> {
    Set::new(|x: usize| numbered(d, x) && !ins.contains(x))
}

/// Well-formed search state over `n` nodes: numbers lie below the clock `t`, the stack
/// holds numbered nodes in increasing number order, and `ins` is the set of stacked nodes.
pub open spec fn search_wf(n: nat, st: Seq<usize>, ins: Set<usize>, d: Seq<usize>, t: usize) -> bool {
    &&& d.len() == n
    &&& 1 <= t
    &&& forall|x: int| 0 <= x < n ==> #[trigger] d[x] < t
    &&& forall|i: int| 0 <= i < st.len() ==> numbered(d, #[trigger] st[i])
    &&& forall|i: int, j: int|
        #![trigger st[i], st[j]]
        0 <= i < j < st.len() ==> d[st[i] as int] < d[st[j] as int]
    &&& forall|x: usize| #[trigger] ins.contains(x) <==> st.contains(x)
}

/// The components emitted since `f0`.
pub open spec fn emitted_since(f0: Seq<Seq<usize>>, f: Seq<Seq<usize>>) -> Seq<Seq<usize>> {
    f.subrange(f0.len() as int, f.len() as int)
}

/// `c` starts with the node of smallest number, followed by the others in decreasing order
/// of their numbers: the root of a component, then the stack above it from the top down.
pub open spec fn in_pop_order(d: Seq<usize>, c: Seq<usize>) -> bool {
    &&& c.len() > 0
    &&& forall|i: int| 0 < i < c.len() ==> d[c[0] as int] < d[#[trigger] c[i] as int]
    &&& forall|i: int, j: int|
        #![trigger c[i], c[j]]
        0 < i < j < c.len() ==> d[c[j] as int] < d[c[i] as int]
}

/// Node `x` was entered along an edge from a node numbered before it.
pub open spec fn entered_by_edge(g: Seq<Set<usize>>, d: Seq<usize>, x: usize) -> bool {
    exists|p: usize| #[trigger] has_edge(g, p, x) && numbered(d, p) && d[p as int] < d[x as int]
}

/// `f` extends `f0` by components that are disjoint and strongly connected, whose edges lead
/// back into `done0` or to the same or earlier new components, that together hold exactly
/// the nodes numbered since `d0` that are off the stack, and that each list their root
/// first and then the rest of the popped stack from the top down.
pub open spec fn emits_new(
    g: Seq<Set<usize>>,
    f0: Seq<Seq<usize>>,
    f: Seq<Seq<usize>>,
    done0: Set<usize>,
    d0: Seq<usize>,
    d: Seq<usize>,
    ins: Set<usize>,
) -> bool {
    &&& f0.len() <= f.len()
    &&& f.subrange(0, f0.len() as int) == f0
    &&& comps_disjoint(emitted_since(f0, f))
    &&& comps_strongly_connected(g, emitted_since(f0, f))
    &&& comps_edges_backward(g, done0, emitted_since(f0, f))
    &&& forall|x: usize| #[trigger]
        comps_union(emitted_since(f0, f)).contains(x) <==> newly_numbered(d0, d, x) && !ins.contains(x)
    &&& forall|k: int|
        0 <= k < emitted_since(f0, f).len() ==> in_pop_order(d, #[trigger] emitted_since(f0, f)[k])
}

/// What a visit leaves in place: old numbers, the `low` values of nodes it did not number,
/// and the old stack as a prefix; new numbers are at least `t0` and new stack entries are
/// newly numbered.
pub open spec fn keeps_old(
    st0: Seq<usize>,
    d0: Seq<usize>,
    l0: Seq<usize>,
    st: Seq<usize>,
    d: Seq<usize>,
    l: Seq<usize>,
    t0: usize,
) -> bool {
    &&& d.len() == d0.len()
    &&& forall|x: usize| #[trigger] numbered(d0, x) ==> d[x as int] == d0[x as int]
    &&& forall|x: usize| #[trigger] newly_numbered(d0, d, x) ==> d[x as int] >= t0
    &&& forall|x: usize|
        x < d0.len() && !newly_numbered(d0, d, x) ==> #[trigger] l[x as int] == l0[x as int]
    &&& st0.len() <= st.len()
    &&& forall|i: int| 0 <= i < st0.len() ==> #[trigger] st[i] == st0[i]
    &&& forall|i: int| st0.len() <= i < st.len() ==> newly_numbered(d0, d, #[trigger] st[i])
}

/// The low value `lv` of the visited node `v` is at most its number `t0`, and when it is
/// smaller it is the number of a node on the old stack that `v` reaches.
pub open spec fn low_witness(
    g: Seq<Set<usize>>,
    st0: Seq<usize>,
    d0: Seq<usize>,
    t0: usize,
    v: usize,
    lv: usize,
) -> bool {
    &&& lv <= t0
    &&& lv < t0 ==> exists|z: usize|
        #![trigger d0[z as int]]
        st0.contains(z) && d0[z as int] == lv && reaches(g, v, z)
}

/// Every stack entry above position `b` reaches a lower stack entry whose number is at
/// least `lv`.
pub open spec fn stack_escapes(
    g: Seq<Set<usize>>,
    st: Seq<usize>,
    d: Seq<usize>,
    b: int,
    lv: usize,
) -> bool {
    forall|i: int|
        b < i < st.len() ==> exists|j: int|
            #![trigger st[j]]
            0 <= j < st.len() && d[st[j] as int] < d[#[trigger] st[i] as int] && lv <= d[st[j] as int]
                && reaches(g, st[i], st[j])
}

/// Every edge from a stack entry at position `b` or above into the stack ends at a node
/// numbered at least `lv`.
pub open spec fn stack_edges_bounded(
    g: Seq<Set<usize>>,
    st: Seq<usize>,
    ins: Set<usize>,
    d: Seq<usize>,
    b: int,
    lv: usize,
) -> bool {
    forall|i: int, w: usize|
        b <= i < st.len() && #[trigger] has_edge(g, st[i], w) && ins.contains(w) ==> lv
            <= d[w as int]
}

/// The clock `t` counted from at least 1, plus the number of unnumbered entries of `d`: a
/// bound on every value the clock can reach while the entries are numbered.
pub open spec fn clock_room(t: usize, d: Seq<usize>) -> nat {
    (if t == 0 {
        1nat
    } else {
        t as nat
    }) + unnumbered(d)
}

/// 1 for a clock at 0, whose first visit hands out the number 0 and leaves its node
/// unnumbered; 0 otherwise.
pub open spec fn zero_clock(t: usize) -> nat {
    if t == 0 {
        1nat
    } else {
        0nat
    }
}

/// What any visit of `v` over `n` nodes needs to stay in bounds: a numbering and low
/// values of length `n`, `v` an unnumbered node, and room on the clock.
pub open spec fn visit_bounds(n: nat, v: usize, d: Seq<usize>, l: Seq<usize>, t: usize) -> bool {
    &&& d.len() == n
    &&& l.len() == n
    &&& v < n
    &&& d[v as int] == 0
    &&& clock_room(t, d) <= usize::MAX
}

/// What every visit over `n` nodes started in `(st0, d0, t0)` leaves in `(st, d, l, t)`,
/// whatever the numbers and the clock it started with: the lengths, a clock of at least 1
/// with the same room, and the old stack as a prefix.
pub open spec fn visit_keeps(
    n: nat,
    st0: Seq<usize>,
    d0: Seq<usize>,
    t0: usize,
    st: Seq<usize>,
    d: Seq<usize>,
    l: Seq<usize>,
    t: usize,
) -> bool {
    &&& d.len() == n
    &&& l.len() == n
    &&& 1 <= t
    &&& clock_room(t, d) == clock_room(t0, d0)
    &&& st0.len() <= st.len()
    &&& forall|i: int| 0 <= i < st0.len() ==> #[trigger] st[i] == st0[i]
}

/// What a visit of `v` needs to find components: the bounds and a well-formed search state.
pub open spec fn visit_pre(
    g: Seq<Set<usize>>,
    v: usize,
    st: Seq<usize>,
    ins: Set<usize>,
    d: Seq<usize>,
    l: Seq<usize>,
    t: usize,
) -> bool {
    &&& visit_bounds(g.len(), v, d, l, t)
    &&& search_wf(g.len(), st, ins, d, t)
}

/// The node `k` was given as a number since `d0`.
pub open spec fn number_taken(d0: Seq<usize>, d: Seq<usize>, k: int) -> bool {
    exists|x: usize| #[trigger] newly_numbered(d0, d, x) && d[x as int] == k
}

/// The numbers handed out since `d0` are exactly `t0, ..., t - 1`, each to one node.
pub open spec fn numbers_fresh(d0: Seq<usize>, d: Seq<usize>, t0: usize, t: usize) -> bool {
    &&& forall|x: usize| #[trigger] newly_numbered(d0, d, x) ==> t0 <= d[x as int] < t
    &&& forall|x: usize, y: usize|
        #![trigger newly_numbered(d0, d, x), newly_numbered(d0, d, y)]
        newly_numbered(d0, d, x) && newly_numbered(d0, d, y) && d[x as int] == d[y as int] ==> x == y
    &&& forall|k: int| t0 <= k < t ==> #[trigger] number_taken(d0, d, k)
}

/// The stack `st` keeps `st0` as a prefix and holds above it nodes numbered since `d0`, in
/// increasing number order.
pub open spec fn stack_grows(st0: Seq<usize>, st: Seq<usize>, d0: Seq<usize>, d: Seq<usize>) -> bool {
    &&& st0.len() <= st.len()
    &&& forall|i: int| 0 <= i < st0.len() ==> #[trigger] st[i] == st0[i]
    &&& forall|i: int| st0.len() <= i < st.len() ==> newly_numbered(d0, d, #[trigger] st[i])
    &&& forall|i: int, j: int|
        #![trigger st[i], st[j]]
        st0.len() <= i < j < st.len() ==> d[st[i] as int] < d[st[j] as int]
}

/// A consistent stack: numbered nodes, none twice, and `ins` is the set of its nodes.
pub open spec fn stack_consistent(st: Seq<usize>, ins: Set<usize>, d: Seq<usize>) -> bool {
    &&& forall|i: int| 0 <= i < st.len() ==> numbered(d, #[trigger] st[i])
    &&& st.no_duplicates()
    &&& forall|x: usize| #[trigger] ins.contains(x) <==> st.contains(x)
}

/// What a visit of `v` over `n` nodes started in `(st0, ins0, d0, l0, t0)` with a clock
/// `t0 >= 1` leaves in `(st, ins, d, l, t)`: `v` gets the number `t0`, the numbers handed
/// out are exactly `t0, ..., t - 1`, numbers below the clock stay below it, old numbers and
/// the low values of nodes it did not number stay, the new low values lie between 1 and the
/// node's number, the stack grows by newly numbered nodes only, and a consistent stack stays
/// consistent.
pub open spec fn visit_frame(
    n: nat,
    v: usize,
    st0: Seq<usize>,
    ins0: Set<usize>,
    d0: Seq<usize>,
    l0: Seq<usize>,
    t0: usize,
    st: Seq<usize>,
    ins: Set<usize>,
    d: Seq<usize>,
    l: Seq<usize>,
    t: usize,
) -> bool {
    &&& d.len() == n
    &&& l.len() == n
    &&& t0 < t
    &&& d[v as int] == t0
    &&& (forall|x: int| 0 <= x < n ==> #[trigger] d0[x] < t0) ==> (forall|x: int|
        0 <= x < n ==> #[trigger] d[x] < t)
    &&& t + unnumbered(d) == t0 + unnumbered(d0)
    &&& forall|x: usize| #[trigger] numbered(d0, x) ==> d[x as int] == d0[x as int]
    &&& forall|x: usize| x < n && !newly_numbered(d0, d, x) ==> #[trigger] l[x as int] == l0[x as int]
    &&& forall|x: usize| #[trigger] newly_numbered(d0, d, x) ==> 1 <= l[x as int] <= d[x as int]
    &&& numbers_fresh(d0, d, t0, t)
    &&& stack_grows(st0, st, d0, d)
    &&& stack_consistent(st0, ins0, d0) ==> stack_consistent(st, ins, d)
}

/// The state inside the visit of `v`, before its component is popped: `v` sits on the
/// stack just above `st0`.
pub open spec fn visit_frame_inv(
    n: nat,
    v: usize,
    st0: Seq<usize>,
    ins0: Set<usize>,
    d0: Seq<usize>,
    l0: Seq<usize>,
    t0: usize,
    st: Seq<usize>,
    ins: Set<usize>,
    d: Seq<usize>,
    l: Seq<usize>,
    t: usize,
) -> bool {
    &&& visit_frame(n, v, st0, ins0, d0, l0, t0, st, ins, d, l, t)
    &&& st0.len() < st.len()
    &&& st[st0.len() as int] == v
}

/// What a visit of `v` started in state `(st0, ins0, d0, l0, t0, f0)` establishes in the
/// state `(st, ins, d, l, t, f)` it returns.
pub open spec fn visit_post(
    g: Seq<Set<usize>>,
    v: usize,
    st0: Seq<usize>,
    ins0: Set<usize>,
    d0: Seq<usize>,
    l0: Seq<usize>,
    t0: usize,
    f0: Seq<Seq<usize>>,
    st: Seq<usize>,
    ins: Set<usize>,
    d: Seq<usize>,
    l: Seq<usize>,
    t: usize,
    f: Seq<Seq<usize>>,
) -> bool {
    &&& search_wf(g.len(), st, ins, d, t)
    &&& l.len() == g.len()
    &&& t0 < t
    &&& d[v as int] == t0
    &&& keeps_old(st0, d0, l0, st, d, l, t0)
    &&& ((l[v as int] == t0 && st.len() == st0.len()) || (l[v as int] < t0 && st.len() > st0.len()
        && st[st0.len() as int] == v))
    &&& emits_new(g, f0, f, finished(d0, ins0), d0, d, ins)
    &&& forall|x: usize| #[trigger] newly_numbered(d0, d, x) ==> reaches(g, v, x)
    &&& forall|x: usize| newly_numbered(d0, d, x) && x != v ==> #[trigger] entered_by_edge(g, d, x)
    &&& forall|x: usize, w: usize|
        newly_numbered(d0, d, x) && #[trigger] has_edge(g, x, w) ==> numbered(d, w)
    &&& low_witness(g, st0, d0, t0, v, l[v as int])
    &&& stack_escapes(g, st, d, st0.len() as int, l[v as int])
    &&& stack_edges_bounded(g, st, ins, d, st0.len() as int, l[v as int])
}

/// The invariant of the loop over the successors of `v`; `seen` holds the successors
/// handled so far.
pub open spec fn visit_inv(
    g: Seq<Set<usize>>,
    v: usize,
    st0: Seq<usize>,
    ins0: Set<usize>,
    d0: Seq<usize>,
    l0: Seq<usize>,
    t0: usize,
    f0: Seq<Seq<usize>>,
    st: Seq<usize>,
    ins: Set<usize>,
    d: Seq<usize>,
    l: Seq<usize>,
    t: usize,
    f: Seq<Seq<usize>>,
    seen: Set<usize>,
) -> bool {
    &&& visit_pre(g, v, st0, ins0, d0, l0, t0)
    &&& search_wf(g.len(), st, ins, d, t)
    &&& l.len() == g.len()
    &&& t0 < t
    &&& d[v as int] == t0
    &&& keeps_old(st0, d0, l0, st, d, l, t0)
    &&& st.len() > st0.len()
    &&& st[st0.len() as int] == v
    &&& emits_new(g, f0, f, finished(d0, ins0), d0, d, ins)
    &&& forall|x: usize| #[trigger] newly_numbered(d0, d, x) ==> reaches(g, v, x)
    &&& forall|x: usize| newly_numbered(d0, d, x) && x != v ==> #[trigger] entered_by_edge(g, d, x)
    &&& forall|x: usize, w: usize|
        newly_numbered(d0, d, x) && x != v && #[trigger] has_edge(g, x, w) ==> numbered(d, w)
    &&& forall|w: usize| #[trigger] has_edge(g, v, w) && seen.contains(w) ==> numbered(d, w)
    &&& low_witness(g, st0, d0, t0, v, l[v as int])
    &&& stack_escapes(g, st, d, st0.len() as int, l[v as int])
    &&& stack_edges_bounded(g, st, ins, d, st0.len() as int + 1, l[v as int])
    &&& forall|w: usize|
        #[trigger] has_edge(g, v, w) && seen.contains(w) && ins.contains(w) ==> l[v as int] <= d[w as int]
}

/// No node lies twice on a well-formed stack.
pub proof fn lemma_stack_unique(
    n: nat,
    st: Seq<usize>,
    ins: Set<usize>,
    d: Seq<usize>,
    t: usize,
    i: int,
    j: int,
)
    requires
        search_wf(n, st, ins, d, t),
        0 <= i < st.len(),
        0 <= j < st.len(),
        st[i] == st[j],
    ensures
        i == j,
{
    if i < j {
        assert(d[st[i] as int] < d[st[j] as int]);
    } else if j < i {
        assert(d[st[j] as int] < d[st[i] as int]);
    }
}

/// Stack positions are ordered as the numbers of their nodes.
pub proof fn lemma_stack_order(
    n: nat,
    st: Seq<usize>,
    ins: Set<usize>,
    d: Seq<usize>,
    t: usize,
    i: int,
    j: int,
)
    requires
        search_wf(n, st, ins, d, t),
        0 <= i < st.len(),
        0 <= j < st.len(),
        d[st[i] as int] <= d[st[j] as int],
    ensures
        i <= j,
{
    if j < i {
        assert(d[st[j] as int] < d[st[i] as int]);
    }
}

/// A larger set of finished nodes keeps edges ordered.
pub proof fn lemma_backward_mono(
    g: Seq<Set<usize>>,
    a: Set<usize>,
    b: Set<usize>,
    e: Seq<Seq<usize>>,
)
    requires
        comps_edges_backward(g, a, e),
        a.subset_of(b),
    ensures
        comps_edges_backward(g, b, e),
{
}

/// Entering the visit of `v`: number it with the clock, push it, and the loop invariant
/// holds with no successor handled.
pub proof fn lemma_visit_start(
    g: Seq<Set<usize>>,
    v: usize,
    st0: Seq<usize>,
    ins0: Set<usize>,
    d0: Seq<usize>,
    l0: Seq<usize>,
    t0: usize,
    f0: Seq<Seq<usize>>,
)
    requires
        visit_pre(g, v, st0, ins0, d0, l0, t0),
    ensures
        t0 < usize::MAX,
        visit_inv(
            g,
            v,
            st0,
            ins0,
            d0,
            l0,
            t0,
            f0,
            st0.push(v),
            ins0.insert(v),
            d0.update(v as int, t0),
            l0.update(v as int, t0),
            (t0 + 1) as usize,
            f0,
            Set::empty(),
        ),
{
    let n = g.len();
    let st = st0.push(v);
    let ins = ins0.insert(v);
    let d = d0.update(v as int, t0);
    let l = l0.update(v as int, t0);
    let t = (t0 + 1) as usize;
    lemma_unnumbered_update(d0, v as int, t0);
    lemma_unnumbered_bound(d);
    assert(t0 < usize::MAX);
    assert forall|i: int| 0 <= i < st.len() implies numbered(d, #[trigger] st[i]) by {
        if i < st0.len() {
            assert(numbered(d0, st0[i]));
        }
    }
    assert forall|i: int, j: int|
        #![trigger st[i], st[j]]
        0 <= i < j < st.len() implies d[st[i] as int] < d[st[j] as int] by {
        assert(numbered(d0, st0[i]));
        assert(d0[st0[i] as int] < t0);
        if j < st0.len() {
            assert(numbered(d0, st0[j]));
            assert(d0[st0[i] as int] < d0[st0[j] as int]);
        }
    }
    assert forall|x: usize| #[trigger] ins.contains(x) <==> st.contains(x) by {
        if ins0.contains(x) {
            let i = choose|i: int| 0 <= i < st0.len() && st0[i] == x;
            assert(st[i] == x);
        }
        if x == v {
            assert(st[st0.len() as int] == x);
        }
        if st.contains(x) && x != v {
            let i = choose|i: int| 0 <= i < st.len() && st[i] == x;
            assert(st0[i] == x);
            assert(st0.contains(x));
        }
    }
    assert(search_wf(n, st, ins, d, t));
    assert forall|x: usize| #[trigger] numbered(d0, x) implies d[x as int] == d0[x as int] by {}
    assert forall|x: usize| #[trigger] newly_numbered(d0, d, x) implies x == v by {}
    assert(keeps_old(st0, d0, l0, st, d, l, t0));
    let e = emitted_since(f0, f0);
    assert(e =~= Seq::<Seq<usize>>::empty());
    assert(f0.subrange(0, f0.len() as int) =~= f0);
    assert forall|x: usize| #[trigger]
        comps_union(e).contains(x) <==> newly_numbered(d0, d, x) && !ins.contains(x) by {}
    assert(emits_new(g, f0, f0, finished(d0, ins0), d0, d, ins));
    lemma_reaches_refl(g, v);
}

/// Numbers handed out by two successive visits: a node numbered over both is numbered by
/// exactly one of them.
pub proof fn lemma_newly_split(d0: Seq<usize>, d1: Seq<usize>, d2: Seq<usize>, x: usize)
    requires
        d1.len() == d0.len(),
        d2.len() == d0.len(),
        forall|y: usize| #[trigger] numbered(d0, y) ==> d1[y as int] == d0[y as int],
        forall|y: usize| #[trigger] numbered(d1, y) ==> d2[y as int] == d1[y as int],
    ensures
        newly_numbered(d0, d2, x) <==> (newly_numbered(d0, d1, x) || newly_numbered(d1, d2, x)),
        !(newly_numbered(d0, d1, x) && newly_numbered(d1, d2, x)),
{
    if x < d0.len() {
        if numbered(d0, x) {
            assert(numbered(d1, x));
        }
        if numbered(d1, x) {
            assert(d2[x as int] == d1[x as int]);
        }
    }
}

/// After the visit of an unnumbered successor `w` returns, folding its low value into
/// the low value of `v` restores the loop invariant, with `w` handled.
pub proof fn lemma_child_step(
    g: Seq<Set<usize>>,
    v: usize,
    st0: Seq<usize>,
    ins0: Set<usize>,
    d0: Seq<usize>,
    l0: Seq<usize>,
    t0: usize,
    f0: Seq<Seq<usize>>,
    st1: Seq<usize>,
    ins1: Set<usize>,
    d1: Seq<usize>,
    l1: Seq<usize>,
    t1: usize,
    f1: Seq<Seq<usize>>,
    seen: Set<usize>,
    w: usize,
    st2: Seq<usize>,
    ins2: Set<usize>,
    d2: Seq<usize>,
    l2: Seq<usize>,
    t2: usize,
    f2: Seq<Seq<usize>>,
)
    requires
        visit_inv(g, v, st0, ins0, d0, l0, t0, f0, st1, ins1, d1, l1, t1, f1, seen),
        has_edge(g, v, w),
        d1[w as int] == 0,
        visit_post(g, w, st1, ins1, d1, l1, t1, f1, st2, ins2, d2, l2, t2, f2),
    ensures
        l2[v as int] == l1[v as int],
        visit_inv(
            g,
            v,
            st0,
            ins0,
            d0,
            l0,
            t0,
            f0,
            st2,
            ins2,
            d2,
            l2.update(
                v as int,
                if l2[w as int] < l2[v as int] {
                    l2[w as int]
                } else {
                    l2[v as int]
                },
            ),
            t2,
            f2,
            seen.insert(w),
        ),
{
    let n = g.len();
    let b = st0.len() as int;
    let lv1 = l1[v as int];
    let lw = l2[w as int];
    let lv3 = if lw < l2[v as int] {
        lw
    } else {
        l2[v as int]
    };
    let l3 = l2.update(v as int, lv3);
    assert(numbered(d1, v));
    assert(!newly_numbered(d1, d2, v));
    assert(l2[v as int] == lv1);
    assert(lv3 <= lv1 && lv3 <= lw);
    assert forall|x: usize| #![trigger newly_numbered(d0, d2, x)]
        newly_numbered(d0, d2, x) <==> (newly_numbered(d0, d1, x) || newly_numbered(d1, d2, x)) by {
        lemma_newly_split(d0, d1, d2, x);
    }
    assert forall|x: usize| #![trigger newly_numbered(d0, d1, x), newly_numbered(d1, d2, x)]
        !(newly_numbered(d0, d1, x) && newly_numbered(d1, d2, x)) by {
        lemma_newly_split(d0, d1, d2, x);
    }
    // keeps_old relative to the start of the visit of v
    assert forall|x: usize| #[trigger] numbered(d0, x) implies d2[x as int] == d0[x as int] by {
        assert(numbered(d1, x));
    }
    assert forall|x: usize| #[trigger] newly_numbered(d0, d2, x) implies d2[x as int] >= t0 by {
        lemma_newly_split(d0, d1, d2, x);
        if newly_numbered(d0, d1, x) {
            assert(numbered(d1, x));
        }
    }
    assert forall|x: usize| x < d0.len() && !newly_numbered(d0, d2, x) implies #[trigger] l3[x as int]
        == l0[x as int] by {
        lemma_newly_split(d0, d1, d2, x);
    }
    assert forall|i: int| 0 <= i < st0.len() implies #[trigger] st2[i] == st0[i] by {
        assert(st2[i] == st1[i]);
    }
    assert forall|i: int| st0.len() <= i < st2.len() implies newly_numbered(d0, d2, #[trigger] st2[i]) by {
        lemma_newly_split(d0, d1, d2, st2[i]);
        if i < st1.len() {
            assert(st2[i] == st1[i]);
            assert(newly_numbered(d0, d1, st1[i]));
        } else {
            assert(newly_numbered(d1, d2, st2[i]));
        }
    }
    assert(keeps_old(st0, d0, l0, st2, d2, l3, t0));
    assert(st2[b] == st1[b]);
    // stacked nodes of the child's start state stay stacked
    assert forall|x: usize| ins1.contains(x) implies #[trigger] ins2.contains(x) by {
        let i = choose|i: int| 0 <= i < st1.len() && st1[i] == x;
        assert(st2[i] == x);
    }
    // nodes stacked now but not before are the child's new nodes
    assert forall|x: usize| ins2.contains(x) && !ins1.contains(x) implies #[trigger] newly_numbered(d1, d2, x) by {
        let i = choose|i: int| 0 <= i < st2.len() && st2[i] == x;
        if i < st1.len() {
            assert(st1[i] == x);
            assert(st1.contains(x));
        }
    }
    // emitted components compose
    let e01 = emitted_since(f0, f1);
    let e12 = emitted_since(f1, f2);
    let e02 = emitted_since(f0, f2);
    assert(f2.subrange(0, f1.len() as int) == f1);
    assert(e02 =~= e01 + e12);
    assert(f2.subrange(0, f0.len() as int) =~= f0) by {
        assert(f2.subrange(0, f0.len() as int) =~= f1.subrange(0, f0.len() as int));
    }
    let done0 = finished(d0, ins0);
    let done1 = finished(d1, ins1);
    assert forall|x: usize| #[trigger] done1.contains(x) implies done0.union(comps_union(e01)).contains(x) by {
        if numbered(d0, x) {
            if ins0.contains(x) {
                let i = choose|i: int| 0 <= i < st0.len() && st0[i] == x;
                assert(st1[i] == x);
                assert(st1.contains(x));
            }
        } else {
            assert(newly_numbered(d0, d1, x));
            assert(comps_union(e01).contains(x));
        }
    }
    lemma_backward_mono(g, done1, done0.union(comps_union(e01)), e12);
    assert forall|x: usize| !(comps_union(e01).contains(x) && comps_union(e12).contains(x)) by {
        if comps_union(e01).contains(x) && comps_union(e12).contains(x) {
            assert(newly_numbered(d0, d1, x));
            assert(newly_numbered(d1, d2, x));
        }
    }
    lemma_comps_append(g, done0, e01, e12);
    assert forall|k: int| 0 <= k < e02.len() implies in_pop_order(d2, #[trigger] e02[k]) by {
        if k < e01.len() {
            let c = e01[k];
            assert(e02[k] == c);
            assert(in_pop_order(d1, c));
            assert forall|i: int| 0 <= i < c.len() implies d2[#[trigger] c[i] as int] == d1[c[i] as int] by {
                assert(c.contains(c[i]));
                assert(comps_union(e01).contains(c[i]));
                assert(numbered(d1, c[i]));
            }
            assert forall|i: int| 0 < i < c.len() implies d2[c[0] as int] < d2[#[trigger] c[i] as int] by {
                assert(d2[c[0] as int] == d1[c[0] as int]);
            }
            assert forall|i: int, j: int|
                #![trigger c[i], c[j]]
                0 < i < j < c.len() implies d2[c[j] as int] < d2[c[i] as int] by {
                assert(d2[c[i] as int] == d1[c[i] as int]);
                assert(d2[c[j] as int] == d1[c[j] as int]);
            }
        } else {
            assert(e02[k] == e12[k - e01.len()]);
        }
    }
    assert forall|x: usize| #[trigger]
        comps_union(e02).contains(x) <==> newly_numbered(d0, d2, x) && !ins2.contains(x) by {
        lemma_newly_split(d0, d1, d2, x);
        assert(comps_union(e02).contains(x) <==> comps_union(e01).contains(x) || comps_union(
            e12,
        ).contains(x));
        if newly_numbered(d0, d1, x) && ins2.contains(x) && !ins1.contains(x) {
            assert(newly_numbered(d1, d2, x));
        }
    }
    assert(emits_new(g, f0, f2, done0, d0, d2, ins2));
    // new nodes are reached from v
    assert forall|x: usize| #[trigger] newly_numbered(d0, d2, x) implies reaches(g, v, x) by {
        lemma_newly_split(d0, d1, d2, x);
        if newly_numbered(d1, d2, x) {
            lemma_edge_then_reaches(g, v, w, x);
        }
    }
    // new nodes other than v were entered along an edge from an earlier node
    assert forall|x: usize| newly_numbered(d0, d2, x) && x != v implies #[trigger] entered_by_edge(g, d2, x) by {
        lemma_newly_split(d0, d1, d2, x);
        if x == w {
            assert(has_edge(g, v, w));
            assert(numbered(d2, v));
        } else if newly_numbered(d0, d1, x) {
            assert(entered_by_edge(g, d1, x));
            let p = choose|p: usize| #[trigger] has_edge(g, p, x) && numbered(d1, p) && d1[p as int] < d1[x as int];
            assert(numbered(d1, x));
            assert(has_edge(g, p, x) && numbered(d2, p) && d2[p as int] < d2[x as int]);
        } else {
            assert(entered_by_edge(g, d2, x));
        }
    }
    // new nodes other than v have all successors numbered
    assert forall|x: usize, y: usize|
        newly_numbered(d0, d2, x) && x != v && #[trigger] has_edge(g, x, y) implies numbered(d2, y) by {
        lemma_newly_split(d0, d1, d2, x);
        if newly_numbered(d0, d1, x) {
            assert(numbered(d1, y));
        }
    }
    assert forall|y: usize| #[trigger] has_edge(g, v, y) && seen.insert(w).contains(y) implies numbered(d2, y) by {
        if y != w {
            assert(numbered(d1, y));
        }
    }
    // the low value of v keeps a witness on the old stack
    if lw < lv1 {
        assert(lw < t1);
        let z = choose|z: usize| #![trigger d1[z as int]] st1.contains(z) && d1[z as int] == lw && reaches(g, w, z);
        let i = choose|i: int| 0 <= i < st1.len() && st1[i] == z;
        if i >= b {
            assert(newly_numbered(d0, d1, st1[i]));
        }
        assert(st0[i] == z);
        assert(numbered(d0, z));
        lemma_edge_then_reaches(g, v, w, z);
        assert(st0.contains(z));
    }
    assert(low_witness(g, st0, d0, t0, v, lv3));
    // stack entries above v escape to lower entries numbered at least lv3
    assert forall|i: int| b < i < st2.len() implies exists|j: int|
        #![trigger st2[j]]
        0 <= j < st2.len() && d2[st2[j] as int] < d2[#[trigger] st2[i] as int] && lv3 <= d2[st2[j] as int]
            && reaches(g, st2[i], st2[j]) by {
        if i < st1.len() {
            let j = choose|j: int|
                #![trigger st1[j]]
                0 <= j < st1.len() && d1[st1[j] as int] < d1[st1[i] as int] && lv1 <= d1[st1[j] as int]
                    && reaches(g, st1[i], st1[j]);
            assert(st2[j] == st1[j]);
            assert(st2[i] == st1[i]);
            assert(numbered(d1, st1[j]));
            assert(numbered(d1, st1[i]));
        } else if i == st1.len() {
            assert(st2[i] == w);
            assert(lw < t1);
            let z = choose|z: usize| #![trigger d1[z as int]] st1.contains(z) && d1[z as int] == lw && reaches(g, w, z);
            let j = choose|j: int| 0 <= j < st1.len() && st1[j] == z;
            assert(st2[j] == z);
            assert(numbered(d1, z));
        } else {
            let j = choose|j: int|
                #![trigger st2[j]]
                0 <= j < st2.len() && d2[st2[j] as int] < d2[st2[i] as int] && lw <= d2[st2[j] as int]
                    && reaches(g, st2[i], st2[j]);
        }
    }
    // edges from stack entries above v into the stack stay bounded by lv3
    assert forall|i: int, y: usize|
        b + 1 <= i < st2.len() && #[trigger] has_edge(g, st2[i], y) && ins2.contains(y) implies lv3
        <= d2[y as int] by {
        if i < st1.len() {
            assert(st2[i] == st1[i]);
            assert(newly_numbered(d0, d1, st1[i]));
            if st1[i] == v {
                lemma_stack_unique(n, st1, ins1, d1, t1, i, b);
            }
            assert(numbered(d1, y));
            if !ins1.contains(y) {
                assert(newly_numbered(d1, d2, y));
            }
            assert(lv1 <= d1[y as int]);
        } else {
            assert(lw <= d2[y as int]);
        }
    }
    assert forall|y: usize| #[trigger] has_edge(g, v, y) && seen.insert(w).contains(y) && ins2.contains(y)
        implies lv3 <= d2[y as int] by {
        if y == w {
            assert(lw <= t1);
        } else {
            assert(numbered(d1, y));
            if !ins1.contains(y) {
                assert(newly_numbered(d1, d2, y));
            }
            assert(lv1 <= d1[y as int]);
        }
    }
}

/// An edge from `v` to a node still on the stack lowers the low value of `v` to that
/// node's number at most, and the loop invariant holds with the successor handled.
pub proof fn lemma_stacked_edge_step(
    g: Seq<Set<usize>>,
    v: usize,
    st0: Seq<usize>,
    ins0: Set<usize>,
    d0: Seq<usize>,
    l0: Seq<usize>,
    t0: usize,
    f0: Seq<Seq<usize>>,
    st: Seq<usize>,
    ins: Set<usize>,
    d: Seq<usize>,
    l: Seq<usize>,
    t: usize,
    f: Seq<Seq<usize>>,
    seen: Set<usize>,
    w: usize,
)
    requires
        visit_inv(g, v, st0, ins0, d0, l0, t0, f0, st, ins, d, l, t, f, seen),
        has_edge(g, v, w),
        ins.contains(w),
    ensures
        visit_inv(
            g,
            v,
            st0,
            ins0,
            d0,
            l0,
            t0,
            f0,
            st,
            ins,
            d,
            l.update(
                v as int,
                if d[w as int] < l[v as int] {
                    d[w as int]
                } else {
                    l[v as int]
                },
            ),
            t,
            f,
            seen.insert(w),
        ),
{
    let n = g.len();
    let b = st0.len() as int;
    let lv = l[v as int];
    let lv2 = if d[w as int] < lv {
        d[w as int]
    } else {
        lv
    };
    let l2 = l.update(v as int, lv2);
    assert(newly_numbered(d0, d, v));
    assert forall|x: usize| x < d0.len() && !newly_numbered(d0, d, x) implies #[trigger] l2[x as int]
        == l0[x as int] by {}
    assert(keeps_old(st0, d0, l0, st, d, l2, t0));
    let i = choose|i: int| 0 <= i < st.len() && st[i] == w;
    assert(numbered(d, w));
    if d[w as int] < lv {
        if i >= b {
            assert(newly_numbered(d0, d, st[i]));
        }
        assert(st0[i] == w);
        assert(st0.contains(w));
        assert(numbered(d0, w));
        lemma_reaches_edge(g, v, w);
        assert(low_witness(g, st0, d0, t0, v, lv2));
    }
    assert forall|y: usize| #[trigger] has_edge(g, v, y) && seen.insert(w).contains(y) implies numbered(d, y) by {}
    assert forall|y: usize| #[trigger] has_edge(g, v, y) && seen.insert(w).contains(y) && ins.contains(y)
        implies lv2 <= d[y as int] by {}
    assert forall|k: int| b < k < st.len() implies exists|j: int|
        #![trigger st[j]]
        0 <= j < st.len() && d[st[j] as int] < d[#[trigger] st[k] as int] && lv2 <= d[st[j] as int]
            && reaches(g, st[k], st[j]) by {
        let j = choose|j: int|
            #![trigger st[j]]
            0 <= j < st.len() && d[st[j] as int] < d[st[k] as int] && lv <= d[st[j] as int]
                && reaches(g, st[k], st[j]);
    }
}

/// A successor that is not a node, or that is numbered and off the stack (already in a
/// component), changes nothing but the handled set.
pub proof fn lemma_passive_step(
    g: Seq<Set<usize>>,
    v: usize,
    st0: Seq<usize>,
    ins0: Set<usize>,
    d0: Seq<usize>,
    l0: Seq<usize>,
    t0: usize,
    f0: Seq<Seq<usize>>,
    st: Seq<usize>,
    ins: Set<usize>,
    d: Seq<usize>,
    l: Seq<usize>,
    t: usize,
    f: Seq<Seq<usize>>,
    seen: Set<usize>,
    w: usize,
)
    requires
        visit_inv(g, v, st0, ins0, d0, l0, t0, f0, st, ins, d, l, t, f, seen),
        w >= g.len() || (numbered(d, w) && !ins.contains(w)),
    ensures
        visit_inv(g, v, st0, ins0, d0, l0, t0, f0, st, ins, d, l, t, f, seen.insert(w)),
{
    assert forall|y: usize| #[trigger] has_edge(g, v, y) && seen.insert(w).contains(y) implies numbered(d, y) by {}
    assert forall|y: usize| #[trigger] has_edge(g, v, y) && seen.insert(w).contains(y) && ins.contains(y)
        implies l[v as int] <= d[y as int] by {}
}

/// With the low value of `v` equal to its number, every stack entry from `v` upwards
/// reaches `v`.
pub proof fn lemma_stack_reaches_root(
    g: Seq<Set<usize>>,
    v: usize,
    st0: Seq<usize>,
    ins0: Set<usize>,
    d0: Seq<usize>,
    l0: Seq<usize>,
    t0: usize,
    f0: Seq<Seq<usize>>,
    st: Seq<usize>,
    ins: Set<usize>,
    d: Seq<usize>,
    l: Seq<usize>,
    t: usize,
    f: Seq<Seq<usize>>,
    seen: Set<usize>,
    i: int,
)
    requires
        visit_inv(g, v, st0, ins0, d0, l0, t0, f0, st, ins, d, l, t, f, seen),
        l[v as int] == t0,
        st0.len() <= i < st.len(),
    ensures
        reaches(g, st[i], v),
    decreases i,
{
    let n = g.len();
    let b = st0.len() as int;
    if i == b {
        lemma_reaches_refl(g, v);
    } else {
        let j = choose|j: int|
            #![trigger st[j]]
            0 <= j < st.len() && d[st[j] as int] < d[st[i] as int] && t0 <= d[st[j] as int]
                && reaches(g, st[i], st[j]);
        if j < b {
            assert(st[j] == st0[j]);
            assert(numbered(d0, st0[j]));
            assert(d0[st0[j] as int] < t0);
        }
        if j >= i {
            lemma_stack_order(n, st, ins, d, t, j, i);
        }
        lemma_stack_reaches_root(g, v, st0, ins0, d0, l0, t0, f0, st, ins, d, l, t, f, seen, j);
        lemma_reaches_trans(g, st[i], st[j], v);
    }
}

/// When all successors are handled and the low value of `v` is below its number, `v`
/// stays on the stack and the visit's postcondition holds.
pub proof fn lemma_visit_keep(
    g: Seq<Set<usize>>,
    v: usize,
    st0: Seq<usize>,
    ins0: Set<usize>,
    d0: Seq<usize>,
    l0: Seq<usize>,
    t0: usize,
    f0: Seq<Seq<usize>>,
    st: Seq<usize>,
    ins: Set<usize>,
    d: Seq<usize>,
    l: Seq<usize>,
    t: usize,
    f: Seq<Seq<usize>>,
    seen: Set<usize>,
)
    requires
        visit_inv(g, v, st0, ins0, d0, l0, t0, f0, st, ins, d, l, t, f, seen),
        forall|w: usize| #[trigger] has_edge(g, v, w) ==> seen.contains(w),
        l[v as int] != t0,
    ensures
        visit_post(g, v, st0, ins0, d0, l0, t0, f0, st, ins, d, l, t, f),
{
    let b = st0.len() as int;
    assert forall|x: usize, w: usize| newly_numbered(d0, d, x) && #[trigger] has_edge(g, x, w) implies numbered(
        d,
        w,
    ) by {
        if x == v {
            assert(seen.contains(w));
        }
    }
    assert forall|i: int, w: usize|
        b <= i < st.len() && #[trigger] has_edge(g, st[i], w) && ins.contains(w) implies l[v as int]
        <= d[w as int] by {
        if i == b {
            assert(seen.contains(w));
        }
    }
}

/// When all successors are handled and the low value of `v` equals its number, popping the
/// stack down to and including `v` yields a new component, and the visit's postcondition
/// holds once it is recorded.
pub proof fn lemma_visit_emit(
    g: Seq<Set<usize>>,
    v: usize,
    st0: Seq<usize>,
    ins0: Set<usize>,
    d0: Seq<usize>,
    l0: Seq<usize>,
    t0: usize,
    f0: Seq<Seq<usize>>,
    st: Seq<usize>,
    ins: Set<usize>,
    d: Seq<usize>,
    l: Seq<usize>,
    t: usize,
    f: Seq<Seq<usize>>,
    seen: Set<usize>,
    ins2: Set<usize>,
    comp: Seq<usize>,
)
    requires
        visit_inv(g, v, st0, ins0, d0, l0, t0, f0, st, ins, d, l, t, f, seen),
        forall|w: usize| #[trigger] has_edge(g, v, w) ==> seen.contains(w),
        l[v as int] == t0,
        forall|x: usize| #[trigger] ins2.contains(x) <==> st0.contains(x),
        comp.no_duplicates(),
        forall|x: usize| #[trigger]
            comp.contains(x) <==> exists|i: int| st0.len() <= i < st.len() && st[i] == x,
        in_pop_order(d, comp),
    ensures
        visit_post(g, v, st0, ins0, d0, l0, t0, f0, st0, ins2, d, l, t, f.push(comp)),
{
    let n = g.len();
    let b = st0.len() as int;
    let done0 = finished(d0, ins0);
    let e = emitted_since(f0, f);
    let c = seq![comp];
    let f2 = f.push(comp);
    assert forall|i: int| 0 <= i < st0.len() implies #[trigger] st0[i] == st[i] by {}
    assert(search_wf(n, st0, ins2, d, t)) by {
        assert forall|i: int| 0 <= i < st0.len() implies numbered(d, #[trigger] st0[i]) by {
            assert(st[i] == st0[i]);
        }
        assert forall|i: int, j: int|
            #![trigger st0[i], st0[j]]
            0 <= i < j < st0.len() implies d[st0[i] as int] < d[st0[j] as int] by {
            assert(st[i] == st0[i] && st[j] == st0[j]);
        }
    }
    assert(keeps_old(st0, d0, l0, st0, d, l, t0));
    // stacked nodes of the old stack stay stacked
    assert forall|x: usize| ins0.contains(x) implies #[trigger] ins.contains(x) by {
        let i = choose|i: int| 0 <= i < st0.len() && st0[i] == x;
        assert(st[i] == x);
    }
    assert(comp.contains(v)) by {
        assert(st[b] == v);
    }
    assert(comp.len() > 0);
    // comp is made of newly numbered stacked nodes
    assert forall|x: usize| #[trigger] comp.contains(x) implies newly_numbered(d0, d, x) && ins.contains(x)
        && reaches(g, x, v) by {
        let i = choose|i: int| st0.len() <= i < st.len() && st[i] == x;
        assert(newly_numbered(d0, d, st[i]));
        lemma_stack_reaches_root(g, v, st0, ins0, d0, l0, t0, f0, st, ins, d, l, t, f, seen, i);
    }
    assert(comps_disjoint(c)) by {
        assert(c[0] == comp);
    }
    assert forall|i: int, x: usize, y: usize|
        0 <= i < c.len() && #[trigger] c[i].contains(x) && #[trigger] c[i].contains(y) implies reaches(
        g,
        x,
        y,
    ) by {
        assert(c[i] == comp);
        lemma_reaches_trans(g, x, v, y);
    }
    assert forall|x: usize| !(comps_union(e).contains(x) && comps_union(c).contains(x)) by {
        if comps_union(c).contains(x) {
            let i = choose|i: int| 0 <= i < c.len() && #[trigger] c[i].contains(x);
            assert(c[i] == comp);
        }
    }
    assert forall|i: int, x: usize, w: usize|
        0 <= i < c.len() && #[trigger] c[i].contains(x) && #[trigger] has_edge(g, x, w) implies done0.union(
        comps_union(e),
    ).contains(w) || exists|j: int| 0 <= j <= i && #[trigger] c[j].contains(w) by {
        assert(c[i] == comp);
        let k = choose|k: int| st0.len() <= k < st.len() && st[k] == x;
        if x == v {
            assert(seen.contains(w));
        }
        assert(numbered(d, w));
        if ins.contains(w) {
            if x == v {
                assert(t0 <= d[w as int]);
            } else {
                if k == b {
                    assert(x == v);
                }
                assert(has_edge(g, st[k], w));
                assert(t0 <= d[w as int]);
            }
            let m = choose|m: int| 0 <= m < st.len() && st[m] == w;
            assert(d[st[b] as int] <= d[st[m] as int]);
            lemma_stack_order(n, st, ins, d, t, b, m);
            assert(comp.contains(w));
            assert(c[0].contains(w));
        } else if numbered(d0, w) {
            assert(!ins0.contains(w));
            assert(done0.contains(w));
        } else {
            assert(comps_union(e).contains(w));
        }
    }
    lemma_comps_append(g, done0, e, c);
    assert(emitted_since(f0, f2) =~= e + c);
    assert forall|k: int| 0 <= k < emitted_since(f0, f2).len() implies in_pop_order(
        d,
        #[trigger] emitted_since(f0, f2)[k],
    ) by {
        if k < e.len() {
            assert(emitted_since(f0, f2)[k] == e[k]);
        } else {
            assert(emitted_since(f0, f2)[k] == comp);
        }
    }
    assert(f2.subrange(0, f0.len() as int) =~= f.subrange(0, f0.len() as int));
    assert forall|x: usize| #[trigger]
        comps_union(emitted_since(f0, f2)).contains(x) <==> newly_numbered(d0, d, x) && !ins2.contains(x) by {
        if comps_union(c).contains(x) {
            let i = choose|i: int| 0 <= i < c.len() && #[trigger] c[i].contains(x);
            assert(c[i] == comp);
        }
        if newly_numbered(d0, d, x) {
            if st0.contains(x) {
                let i = choose|i: int| 0 <= i < st0.len() && st0[i] == x;
                assert(numbered(d0, st0[i]));
            }
            if ins.contains(x) {
                let i = choose|i: int| 0 <= i < st.len() && st[i] == x;
                if i < b {
                    assert(st0[i] == x);
                }
                assert(comp.contains(x));
                assert(c[0].contains(x));
            }
        }
    }
    assert(emits_new(g, f0, f2, done0, d0, d, ins2));
    assert forall|x: usize, w: usize| newly_numbered(d0, d, x) && #[trigger] has_edge(g, x, w) implies numbered(
        d,
        w,
    ) by {
        if x == v {
            assert(seen.contains(w));
        }
    }
}

/// A visit started from an empty stack over an all-zero numbering leaves the stack empty,
/// numbers exactly the nodes the start node reaches, and emits their strongly connected
/// components.
pub proof fn lemma_root_visit(
    g: Seq<Set<usize>>,
    v: usize,
    d0: Seq<usize>,
    l0: Seq<usize>,
    t0: usize,
    f0: Seq<Seq<usize>>,
    st: Seq<usize>,
    ins: Set<usize>,
    d: Seq<usize>,
    l: Seq<usize>,
    t: usize,
    f: Seq<Seq<usize>>,
)
    requires
        v < g.len(),
        1 <= t0,
        d0.len() == g.len(),
        forall|i: int| 0 <= i < d0.len() ==> #[trigger] d0[i] == 0,
        visit_post(g, v, Seq::empty(), Set::empty(), d0, l0, t0, f0, st, ins, d, l, t, f),
    ensures
        st.len() == 0,
        f0.len() <= f.len(),
        f.subrange(0, f0.len() as int) == f0,
        is_scc_decomposition(g, v, emitted_since(f0, f)),
        forall|x: usize| x < g.len() ==> (#[trigger] numbered(d, x) <==> reaches(g, v, x)),
{
    let e = emitted_since(f0, f);
    let done0 = finished(d0, Set::empty());
    assert(done0 =~= Set::empty());
    assert(st.len() == 0);
    assert forall|x: usize| !ins.contains(x) by {}
    let s = Set::new(|x: usize| numbered(d, x));
    assert forall|x: usize, w: usize| s.contains(x) && #[trigger] has_edge(g, x, w) implies s.contains(w) by {
        assert(newly_numbered(d0, d, x));
    }
    assert(s.contains(v));
    assert forall|x: usize| reaches(g, v, x) <==> #[trigger] comps_union(e).contains(x) by {
        if reaches(g, v, x) {
            lemma_closed_reach(g, s, v, x);
            assert(newly_numbered(d0, d, x));
        }
        if comps_union(e).contains(x) {
            assert(newly_numbered(d0, d, x));
        }
    }
    assert forall|x: usize| x < g.len() implies (#[trigger] numbered(d, x) <==> reaches(g, v, x)) by {
        if reaches(g, v, x) {
            lemma_closed_reach(g, s, v, x);
        }
        if numbered(d, x) {
            assert(newly_numbered(d0, d, x));
        }
    }
}

/// A well-formed stack is consistent.
pub proof fn lemma_wf_consistent(n: nat, st: Seq<usize>, ins: Set<usize>, d: Seq<usize>, t: usize)
    requires
        search_wf(n, st, ins, d, t),
    ensures
        stack_consistent(st, ins, d),
{
    assert forall|i: int, j: int| 0 <= i < st.len() && 0 <= j < st.len() && i != j implies st[i] != st[j] by {
        if st[i] == st[j] {
            lemma_stack_unique(n, st, ins, d, t, i, j);
        }
    }
}

/// Entering any visit of `v` within bounds: numbering it with the clock and pushing it keeps
/// the room on the clock.
pub proof fn lemma_keeps_start(
    n: nat,
    v: usize,
    st0: Seq<usize>,
    d0: Seq<usize>,
    l0: Seq<usize>,
    t0: usize,
)
    requires
        visit_bounds(n, v, d0, l0, t0),
    ensures
        t0 < usize::MAX,
        visit_keeps(
            n,
            st0,
            d0,
            t0,
            st0.push(v),
            d0.update(v as int, t0),
            l0.update(v as int, t0),
            (t0 + 1) as usize,
        ),
{
    let d = d0.update(v as int, t0);
    if t0 == 0 {
        assert(d =~= d0);
    } else {
        lemma_unnumbered_update(d0, v as int, t0);
    }
}

/// Entering the visit of `v` within bounds: number it with the clock and push it.
pub proof fn lemma_frame_start(
    n: nat,
    v: usize,
    st0: Seq<usize>,
    ins0: Set<usize>,
    d0: Seq<usize>,
    l0: Seq<usize>,
    t0: usize,
)
    requires
        visit_bounds(n, v, d0, l0, t0),
        1 <= t0,
    ensures
        t0 < usize::MAX,
        visit_frame_inv(
            n,
            v,
            st0,
            ins0,
            d0,
            l0,
            t0,
            st0.push(v),
            ins0.insert(v),
            d0.update(v as int, t0),
            l0.update(v as int, t0),
            (t0 + 1) as usize,
        ),
{
    let st = st0.push(v);
    let ins = ins0.insert(v);
    let d = d0.update(v as int, t0);
    let l = l0.update(v as int, t0);
    let t = (t0 + 1) as usize;
    lemma_unnumbered_update(d0, v as int, t0);
    assert forall|x: usize| #[trigger] newly_numbered(d0, d, x) <==> x == v by {}
    assert(number_taken(d0, d, t0 as int)) by {
        assert(newly_numbered(d0, d, v));
    }
    assert(numbers_fresh(d0, d, t0, t));
    assert(stack_grows(st0, st, d0, d));
    if stack_consistent(st0, ins0, d0) {
        assert forall|i: int| 0 <= i < st.len() implies numbered(d, #[trigger] st[i]) by {
            if i < st0.len() {
                assert(numbered(d0, st0[i]));
            }
        }
        assert(!st0.contains(v)) by {
            if st0.contains(v) {
                let i = choose|i: int| 0 <= i < st0.len() && st0[i] == v;
                assert(numbered(d0, st0[i]));
            }
        }
        assert forall|i: int, j: int| 0 <= i < st.len() && 0 <= j < st.len() && i != j implies st[i] != st[j] by {
            if i < st0.len() && j < st0.len() {
                assert(st0[i] != st0[j]);
            } else if i < st0.len() {
                assert(st0.contains(st0[i]));
            } else if j < st0.len() {
                assert(st0.contains(st0[j]));
            }
        }
        assert forall|x: usize| #[trigger] ins.contains(x) <==> st.contains(x) by {
            if ins0.contains(x) {
                let i = choose|i: int| 0 <= i < st0.len() && st0[i] == x;
                assert(st[i] == x);
            }
            if x == v {
                assert(st[st0.len() as int] == x);
            }
            if st.contains(x) && x != v {
                let i = choose|i: int| 0 <= i < st.len() && st[i] == x;
                assert(st0[i] == x);
                assert(st0.contains(x));
            }
        }
    }
}

/// After the visit of an unnumbered successor `w` returns, the state of the visit of `v`
/// is still within its frame.
pub proof fn lemma_frame_child(
    n: nat,
    v: usize,
    st0: Seq<usize>,
    ins0: Set<usize>,
    d0: Seq<usize>,
    l0: Seq<usize>,
    t0: usize,
    st1: Seq<usize>,
    ins1: Set<usize>,
    d1: Seq<usize>,
    l1: Seq<usize>,
    t1: usize,
    w: usize,
    st2: Seq<usize>,
    ins2: Set<usize>,
    d2: Seq<usize>,
    l2: Seq<usize>,
    t2: usize,
)
    requires
        visit_bounds(n, v, d0, l0, t0),
        visit_frame_inv(n, v, st0, ins0, d0, l0, t0, st1, ins1, d1, l1, t1),
        w < n,
        d1[w as int] == 0,
        visit_frame(n, w, st1, ins1, d1, l1, t1, st2, ins2, d2, l2, t2),
    ensures
        visit_frame_inv(n, v, st0, ins0, d0, l0, t0, st2, ins2, d2, l2, t2),
        l2[v as int] == l1[v as int],
        1 <= l2[w as int],
{
    assert forall|x: usize| #[trigger] newly_numbered(d0, d2, x) <==> (newly_numbered(d0, d1, x)
        || newly_numbered(d1, d2, x)) by {
        lemma_newly_split(d0, d1, d2, x);
    }
    assert(newly_numbered(d0, d1, v));
    assert(numbered(d1, v));
    assert(newly_numbered(d1, d2, w));
    assert forall|x: usize| #[trigger] numbered(d0, x) implies d2[x as int] == d0[x as int] by {
        assert(numbered(d1, x));
    }
    assert forall|x: usize| x < n && !newly_numbered(d0, d2, x) implies #[trigger] l2[x as int]
        == l0[x as int] by {
        lemma_newly_split(d0, d1, d2, x);
    }
    assert forall|x: usize| #[trigger] newly_numbered(d0, d2, x) implies 1 <= l2[x as int] <= d2[x as int]
        && t0 <= d2[x as int] < t2 by {
        lemma_newly_split(d0, d1, d2, x);
        if newly_numbered(d0, d1, x) {
            assert(numbered(d1, x));
        }
    }
    assert forall|x: usize, y: usize|
        #![trigger newly_numbered(d0, d2, x), newly_numbered(d0, d2, y)]
        newly_numbered(d0, d2, x) && newly_numbered(d0, d2, y) && d2[x as int] == d2[y as int] implies x
        == y by {
        lemma_newly_split(d0, d1, d2, x);
        lemma_newly_split(d0, d1, d2, y);
        if newly_numbered(d0, d1, x) {
            assert(numbered(d1, x));
        }
        if newly_numbered(d0, d1, y) {
            assert(numbered(d1, y));
        }
    }
    assert forall|k: int| t0 <= k < t2 implies #[trigger] number_taken(d0, d2, k) by {
        if k < t1 {
            assert(number_taken(d0, d1, k));
            let x = choose|x: usize| #[trigger] newly_numbered(d0, d1, x) && d1[x as int] == k;
            assert(numbered(d1, x));
            assert(newly_numbered(d0, d2, x));
        } else {
            assert(number_taken(d1, d2, k));
            let x = choose|x: usize| #[trigger] newly_numbered(d1, d2, x) && d2[x as int] == k;
            assert(newly_numbered(d0, d2, x));
        }
    }
    assert(numbers_fresh(d0, d2, t0, t2));
    let b0 = st0.len() as int;
    let b1 = st1.len() as int;
    assert forall|i: int| b0 <= i < st2.len() implies newly_numbered(d0, d2, #[trigger] st2[i]) by {
        if i < b1 {
            assert(st2[i] == st1[i]);
            assert(newly_numbered(d0, d1, st1[i]));
        } else {
            assert(newly_numbered(d1, d2, st2[i]));
        }
    }
    assert forall|i: int, j: int|
        #![trigger st2[i], st2[j]]
        b0 <= i < j < st2.len() implies d2[st2[i] as int] < d2[st2[j] as int] by {
        if j < b1 {
            assert(st2[i] == st1[i] && st2[j] == st1[j]);
            assert(d1[st1[i] as int] < d1[st1[j] as int]);
            assert(newly_numbered(d0, d1, st1[i]) && newly_numbered(d0, d1, st1[j]));
            assert(numbered(d1, st1[i]) && numbered(d1, st1[j]));
        } else if i < b1 {
            assert(st2[i] == st1[i]);
            assert(newly_numbered(d0, d1, st1[i]));
            assert(numbered(d1, st1[i]));
            assert(newly_numbered(d1, d2, st2[j]));
        }
    }
    assert(stack_grows(st0, st2, d0, d2));
    assert(st2[b0] == st1[b0]);
}

/// Lowering the low value of `v` to a value between 1 and its current low value keeps the
/// state of the visit within its frame.
pub proof fn lemma_frame_low(
    n: nat,
    v: usize,
    st0: Seq<usize>,
    ins0: Set<usize>,
    d0: Seq<usize>,
    l0: Seq<usize>,
    t0: usize,
    st: Seq<usize>,
    ins: Set<usize>,
    d: Seq<usize>,
    l: Seq<usize>,
    t: usize,
    m: usize,
)
    requires
        visit_bounds(n, v, d0, l0, t0),
        visit_frame_inv(n, v, st0, ins0, d0, l0, t0, st, ins, d, l, t),
        1 <= m <= l[v as int],
    ensures
        visit_frame_inv(n, v, st0, ins0, d0, l0, t0, st, ins, d, l.update(v as int, m), t),
{
    assert(newly_numbered(d0, d, v));
    let l2 = l.update(v as int, m);
    assert forall|x: usize| #[trigger] newly_numbered(d0, d, x) implies 1 <= l2[x as int] <= d[x as int] by {}
    assert forall|x: usize| x < n && !newly_numbered(d0, d, x) implies #[trigger] l2[x as int] == l0[x as int] by {}
}

/// Once the stack is popped back to `st0`, the visit ends within its frame.
pub proof fn lemma_frame_emit(
    n: nat,
    v: usize,
    st0: Seq<usize>,
    ins0: Set<usize>,
    d0: Seq<usize>,
    l0: Seq<usize>,
    t0: usize,
    st: Seq<usize>,
    ins: Set<usize>,
    d: Seq<usize>,
    l: Seq<usize>,
    t: usize,
    ins2: Set<usize>,
)
    requires
        visit_bounds(n, v, d0, l0, t0),
        visit_frame_inv(n, v, st0, ins0, d0, l0, t0, st, ins, d, l, t),
        stack_consistent(st0, ins0, d0) ==> forall|x: usize| #[trigger] ins2.contains(x) <==> st0.contains(x),
    ensures
        visit_frame(n, v, st0, ins0, d0, l0, t0, st0, ins2, d, l, t),
{
    assert(stack_grows(st0, st0, d0, d));
    if stack_consistent(st0, ins0, d0) {
        assert forall|i: int| 0 <= i < st0.len() implies numbered(d, #[trigger] st0[i]) by {
            assert(numbered(d0, st0[i]));
        }
    }
}

/// A visit started from an empty stack leaves the stack empty and emits, after `f0`,
/// components that hold exactly the nodes it numbered and whose edges lead back into the
/// nodes numbered before it or into the same or earlier new components.
pub proof fn lemma_fresh_visit(
    g: Seq<Set<usize>>,
    v: usize,
    d0: Seq<usize>,
    l0: Seq<usize>,
    t0: usize,
    f0: Seq<Seq<usize>>,
    st: Seq<usize>,
    ins: Set<usize>,
    d: Seq<usize>,
    l: Seq<usize>,
    t: usize,
    f: Seq<Seq<usize>>,
)
    requires
        visit_pre(g, v, Seq::empty(), Set::empty(), d0, l0, t0),
        visit_post(g, v, Seq::empty(), Set::empty(), d0, l0, t0, f0, st, ins, d, l, t, f),
    ensures
        st.len() == 0,
        ins =~= Set::<usize>::empty(),
        search_wf(g.len(), st, ins, d, t),
        f0.len() <= f.len(),
        f.subrange(0, f0.len() as int) == f0,
        comps_disjoint(emitted_since(f0, f)),
        comps_strongly_connected(g, emitted_since(f0, f)),
        comps_edges_backward(g, Set::new(|x: usize| numbered(d0, x)), emitted_since(f0, f)),
        forall|x: usize| #[trigger]
            comps_union(emitted_since(f0, f)).contains(x) <==> newly_numbered(d0, d, x),
        forall|x: usize| #[trigger] numbered(d0, x) ==> numbered(d, x) && d[x as int] == d0[x as int],
        numbered(d, v),
        d[v as int] == t0,
        forall|x: usize| newly_numbered(d0, d, x) && x != v ==> #[trigger] entered_by_edge(g, d, x),
        forall|k: int|
            0 <= k < emitted_since(f0, f).len() ==> in_pop_order(d, #[trigger] emitted_since(f0, f)[k]),
{
    let done0 = finished(d0, Set::empty());
    assert(done0 =~= Set::new(|x: usize| numbered(d0, x)));
    assert(st.len() == 0);
    assert forall|x: usize| !ins.contains(x) by {}
    assert forall|x: usize| #[trigger] numbered(d0, x) implies numbered(d, x) by {
        assert(d[x as int] == d0[x as int]);
    }
}

} // verus!
