//! The tree renderer: a depth-first traversal of the index from a
//! designated root, producing indented text.
//!
//! The traversal is specified by `emitted_node` / `emitted_list`: a node is
//! emitted, then the subtrees of its children in the order their
//! identifiers were recorded under the parent; a child without a record,
//! or one already emitted anywhere in the output, is skipped — which keeps
//! the walk safe on malformed data (cycles, duplicate parent edges,
//! vanished parents). The text of the traversal is specified by
//! `render_seq`: one line per emitted node, indented by one fixed unit per
//! edge of depth.

use vstd::prelude::*;
use vstd::set_lib::lemma_len_subset;

use std::collections::HashSet;

use crate::index::IndexView;
use crate::index::ProcList;
use crate::index::child_list;
use crate::record::line_chars;

verus! {

broadcast use vstd::std_specs::hash::group_hash_axioms;

/// The canonical root identifier of the host's process model: the first
/// identifier the kernel assigns.
pub const ROOT_PID: i32 = 1;

/// The set of identifiers named by a traversal fragment.
pub open spec fn pids_of(es: Seq<(i32, nat)>) -> Set<i32>
    decreases es.len(),
{
    if es.len() == 0 {
        Set::empty()
    } else {
        pids_of(es.drop_last()).insert(es.last().0)
    }
}

/// How many identifiers with records have not been emitted yet.
pub open spec fn unvisited(v: IndexView, vis: Set<i32>) -> nat {
    v.procs.dom().difference(vis).len()
}

pub proof fn lemma_pids_of_finite(es: Seq<(i32, nat)>)
    ensures
        pids_of(es).finite(),
    decreases es.len(),
{
    if es.len() > 0 {
        lemma_pids_of_finite(es.drop_last());
    }
}

proof fn lemma_pids_of_contains(es: Seq<(i32, nat)>, q: i32)
    ensures
        pids_of(es).contains(q) <==> (exists|k: int| 0 <= k < es.len() && es[k].0 == q),
    decreases es.len(),
{
    if es.len() > 0 {
        lemma_pids_of_contains(es.drop_last(), q);
        if es.last().0 == q {
            assert(es[es.len() - 1].0 == q);
        }
        if pids_of(es).contains(q) && es.last().0 != q {
            let k = choose|k: int| 0 <= k < es.drop_last().len() && es.drop_last()[k].0 == q;
            assert(es[k].0 == q);
        }
        if exists|k: int| 0 <= k < es.len() && es[k].0 == q {
            let k = choose|k: int| 0 <= k < es.len() && es[k].0 == q;
            if k < es.len() - 1 {
                assert(es.drop_last()[k].0 == q);
            }
        }
    }
}

proof fn lemma_pids_of_append(a: Seq<(i32, nat)>, b: Seq<(i32, nat)>)
    ensures
        pids_of(a + b) == pids_of(a).union(pids_of(b)),
    decreases b.len(),
{
    if b.len() == 0 {
        assert(a + b =~= a);
        assert(pids_of(a + b) =~= pids_of(a).union(pids_of(b)));
    } else {
        lemma_pids_of_append(a, b.drop_last());
        assert((a + b).drop_last() =~= a + b.drop_last());
        assert((a + b).last() == b.last());
        assert(pids_of(a + b) =~= pids_of(a).union(pids_of(b)));
    }
}

pub proof fn lemma_unvisited_insert(v: IndexView, vis: Set<i32>, p: i32)
    requires
        v.procs.dom().finite(),
        v.procs.dom().contains(p),
        !vis.contains(p),
    ensures
        unvisited(v, vis.insert(p)) < unvisited(v, vis),
{
    let d0 = v.procs.dom().difference(vis);
    let d1 = v.procs.dom().difference(vis.insert(p));
    assert(d0.subset_of(v.procs.dom()));
    lemma_len_subset(d0, v.procs.dom());
    assert(d1 =~= d0.remove(p));
    assert(d0.contains(p));
}

pub proof fn lemma_unvisited_union(v: IndexView, vis: Set<i32>, more: Set<i32>)
    requires
        v.procs.dom().finite(),
    ensures
        unvisited(v, vis.union(more)) <= unvisited(v, vis),
{
    let d0 = v.procs.dom().difference(vis);
    let d1 = v.procs.dom().difference(vis.union(more));
    assert(d0.subset_of(v.procs.dom()));
    lemma_len_subset(d0, v.procs.dom());
    assert(d1.subset_of(d0));
    lemma_len_subset(d1, d0);
}

/// The traversal of the subtree at `p`, entered at depth `d` with the
/// identifiers in `vis` already emitted: `p` itself, then its children's
/// subtrees in recorded order.
pub open spec fn emitted_node(v: IndexView, p: i32, d: nat, vis: Set<i32>) -> Seq<(i32, nat)>
    decreases unvisited(v, vis), 0nat,
        when v.procs.dom().finite() && vis.finite() && v.procs.dom().contains(p) && !vis.contains(
            p,
        )
{
    proof {
        lemma_unvisited_insert(v, vis, p);
    }
    seq![(p, d)] + emitted_list(v, child_list(v, p), d + 1, vis.insert(p))
}

/// The traversal of a list of candidate children at depth `d`: each in
/// turn, skipping any that has no record or was already emitted.
pub open spec fn emitted_list(v: IndexView, cs: Seq<i32>, d: nat, vis: Set<i32>) -> Seq<(i32, nat)>
    decreases unvisited(v, vis), cs.len() + 1,
        when v.procs.dom().finite() && vis.finite()
{
    if cs.len() == 0 {
        Seq::empty()
    } else if v.procs.dom().contains(cs[0]) && !vis.contains(cs[0]) {
        let sub = emitted_node(v, cs[0], d, vis);
        proof {
            lemma_pids_of_finite(sub);
            lemma_unvisited_union(v, vis, pids_of(sub));
        }
        sub + emitted_list(v, cs.drop_first(), d, vis.union(pids_of(sub)))
    } else {
        emitted_list(v, cs.drop_first(), d, vis)
    }
}

/// The traversal still owed to a work list, whose top is the last entry:
/// each entry taken in turn, rendered as a full subtree when its
/// identifier has a record and was not yet emitted.
pub open spec fn emitted_stack(v: IndexView, st: Seq<(i32, nat)>, vis: Set<i32>) -> Seq<(i32, nat)>
    decreases unvisited(v, vis), st.len(),
        when v.procs.dom().finite() && vis.finite()
{
    if st.len() == 0 {
        Seq::empty()
    } else if v.procs.dom().contains(st.last().0) && !vis.contains(st.last().0) {
        let sub = emitted_node(v, st.last().0, st.last().1, vis);
        proof {
            lemma_pids_of_finite(sub);
            lemma_unvisited_union(v, vis, pids_of(sub));
        }
        sub + emitted_stack(v, st.drop_last(), vis.union(pids_of(sub)))
    } else {
        emitted_stack(v, st.drop_last(), vis)
    }
}

/// One fixed indent unit per edge of depth.
pub open spec fn indent_chars(d: nat) -> Seq<char>
    decreases d,
{
    if d == 0 {
        Seq::empty()
    } else {
        indent_chars((d - 1) as nat) + "|   "@
    }
}

/// The line for one emitted entry: the root carries the `Process: `
/// prefix and no indentation; every other node is indented by its depth
/// and introduced by a branch glyph. Every line ends in a newline.
pub open spec fn entry_chars(v: IndexView, e: (i32, nat)) -> Seq<char> {
    if e.1 == 0 {
        "Process: "@ + line_chars(v.procs[e.0]) + "\n"@
    } else {
        indent_chars(e.1) + "└── "@ + line_chars(v.procs[e.0]) + "\n"@
    }
}

/// The text of a traversal: the lines of its entries, in order.
pub open spec fn render_seq(v: IndexView, es: Seq<(i32, nat)>) -> Seq<char>
    decreases es.len(),
{
    if es.len() == 0 {
        Seq::empty()
    } else {
        render_seq(v, es.drop_last()) + entry_chars(v, es.last())
    }
}

/// The complete output for an index and a root identifier: the rendered
/// traversal from the root, or the fixed rootless line when no record
/// exists at the root identifier.
pub open spec fn spec_render(v: IndexView, root: i32) -> Seq<char> {
    if v.procs.dom().contains(root) {
        render_seq(v, emitted_node(v, root, 0, Set::empty()))
    } else {
        "No root process found\n"@
    }
}

/// A work list as the ghost traversal sees it.
pub open spec fn stack_model(st: Seq<(i32, usize)>) -> Seq<(i32, nat)> {
    st.map_values(|e: (i32, usize)| (e.0, e.1 as nat))
}

/// A block of children as it sits on the work list after being pushed in
/// reverse: the first child on top.
pub open spec fn stacked(cs: Seq<i32>, d: nat) -> Seq<(i32, nat)> {
    cs.map_values(|c: i32| (c, d)).reverse()
}

/// Working the top block of a work list is the same as traversing those
/// children in list order first, and the rest of the work list — against
/// the grown visited set — afterwards. The subtrees of an earlier child
/// therefore stand, in full, before everything a later child contributes.
pub proof fn lemma_stack_block(v: IndexView, st: Seq<(i32, nat)>, cs: Seq<i32>, d: nat, vis: Set<
    i32,
>)
    requires
        v.procs.dom().finite(),
        vis.finite(),
    ensures
        emitted_stack(v, st + stacked(cs, d), vis) == emitted_list(v, cs, d, vis) + emitted_stack(
            v,
            st,
            vis.union(pids_of(emitted_list(v, cs, d, vis))),
        ),
    decreases cs.len(),
{
    if cs.len() == 0 {
        assert(st + stacked(cs, d) =~= st);
        assert(vis.union(pids_of(emitted_list(v, cs, d, vis))) =~= vis);
        assert(emitted_list(v, cs, d, vis) + emitted_stack(v, st, vis) =~= emitted_stack(
            v,
            st,
            vis,
        ));
    } else {
        let c = cs[0];
        let rest = cs.drop_first();
        let whole = st + stacked(cs, d);
        assert(stacked(cs, d) =~= stacked(rest, d) + seq![(c, d)]);
        assert(whole =~= (st + stacked(rest, d)) + seq![(c, d)]);
        assert(whole.last() == (c, d));
        assert(whole.drop_last() =~= st + stacked(rest, d));
        if v.procs.dom().contains(c) && !vis.contains(c) {
            let sub = emitted_node(v, c, d, vis);
            let vis1 = vis.union(pids_of(sub));
            lemma_pids_of_finite(sub);
            lemma_stack_block(v, st, rest, d, vis1);
            let el_rest = emitted_list(v, rest, d, vis1);
            lemma_pids_of_append(sub, el_rest);
            assert(vis.union(pids_of(sub + el_rest)) =~= vis1.union(pids_of(el_rest)));
            assert(emitted_list(v, cs, d, vis) == sub + el_rest);
            assert(sub + (el_rest + emitted_stack(v, st, vis1.union(pids_of(el_rest)))) =~= (sub
                + el_rest) + emitted_stack(v, st, vis1.union(pids_of(el_rest))));
        } else {
            lemma_stack_block(v, st, rest, d, vis);
            assert(emitted_list(v, cs, d, vis) == emitted_list(v, rest, d, vis));
        }
    }
}

/// No identifier appears twice among a traversal's entries.
pub open spec fn distinct_pids(es: Seq<(i32, nat)>) -> bool {
    forall|i: int, j: int|
        0 <= i < j < es.len() ==> (#[trigger] es[i]).0 != (#[trigger] es[j]).0
}

/// Every entry of a traversal names an identifier that has a record and
/// was not in the visited set the traversal started from.
pub open spec fn fresh_pids(es: Seq<(i32, nat)>, v: IndexView, vis: Set<i32>) -> bool {
    forall|i: int|
        0 <= i < es.len() ==> v.procs.dom().contains((#[trigger] es[i]).0) && !vis.contains(
            es[i].0,
        )
}

/// Rendering is deterministic: the output text is one fixed function of
/// the index contents and the root identifier, so two indexes with equal
/// contents render to byte-identical text.
pub proof fn lemma_render_deterministic(a: IndexView, b: IndexView, root: i32)
    requires
        a.procs == b.procs,
        a.children == b.children,
    ensures
        spec_render(a, root) == spec_render(b, root),
{
    assert(a =~= b);
}

/// An index with no record at the root identifier renders exactly the
/// fixed rootless line, and nothing else.
pub proof fn lemma_rootless(v: IndexView, root: i32)
    requires
        !v.procs.dom().contains(root),
    ensures
        spec_render(v, root) == "No root process found\n"@,
{
}

/// Siblings are traversed in list order: the subtrees of an earlier block
/// of children stand, in full, before anything a later block contributes.
/// With the builder appending children in ascending identifier order,
/// the subtree of a smaller child identifier is rendered before that of a
/// larger one.
pub proof fn lemma_siblings_in_order(v: IndexView, cs1: Seq<i32>, cs2: Seq<i32>, d: nat, vis: Set<
    i32,
>)
    requires
        v.procs.dom().finite(),
        vis.finite(),
    ensures
        emitted_list(v, cs1 + cs2, d, vis) == emitted_list(v, cs1, d, vis) + emitted_list(
            v,
            cs2,
            d,
            vis.union(pids_of(emitted_list(v, cs1, d, vis))),
        ),
    decreases cs1.len(),
{
    if cs1.len() == 0 {
        assert(cs1 + cs2 =~= cs2);
        assert(vis.union(pids_of(emitted_list(v, cs1, d, vis))) =~= vis);
        assert(emitted_list(v, cs1, d, vis) + emitted_list(v, cs2, d, vis) =~= emitted_list(
            v,
            cs2,
            d,
            vis,
        ));
    } else {
        let c = cs1[0];
        let rest = cs1.drop_first();
        assert((cs1 + cs2).drop_first() =~= rest + cs2);
        assert((cs1 + cs2)[0] == c);
        if v.procs.dom().contains(c) && !vis.contains(c) {
            let sub = emitted_node(v, c, d, vis);
            lemma_pids_of_finite(sub);
            let vis1 = vis.union(pids_of(sub));
            lemma_siblings_in_order(v, rest, cs2, d, vis1);
            let el_rest = emitted_list(v, rest, d, vis1);
            lemma_pids_of_append(sub, el_rest);
            assert(vis.union(pids_of(sub + el_rest)) =~= vis1.union(pids_of(el_rest)));
            assert(emitted_list(v, cs1, d, vis) == sub + el_rest);
            let tail = emitted_list(v, cs2, d, vis1.union(pids_of(el_rest)));
            assert(sub + (el_rest + tail) =~= (sub + el_rest) + tail);
        } else {
            lemma_siblings_in_order(v, rest, cs2, d, vis);
            assert(emitted_list(v, cs1, d, vis) == emitted_list(v, rest, d, vis));
        }
    }
}

/// A subtree traversal emits each reachable node exactly once: its
/// entries carry pairwise distinct identifiers, all of them fresh —
/// even when the index holds duplicate parent edges or cycles.
pub proof fn lemma_node_no_duplicates(v: IndexView, p: i32, d: nat, vis: Set<i32>)
    requires
        v.procs.dom().finite(),
        vis.finite(),
        v.procs.dom().contains(p),
        !vis.contains(p),
    ensures
        distinct_pids(emitted_node(v, p, d, vis)),
        fresh_pids(emitted_node(v, p, d, vis), v, vis),
    decreases unvisited(v, vis), 0nat,
{
    lemma_unvisited_insert(v, vis, p);
    let vis1 = vis.insert(p);
    let el = emitted_list(v, child_list(v, p), d + 1, vis1);
    lemma_list_no_duplicates(v, child_list(v, p), d + 1, vis1);
    let en = emitted_node(v, p, d, vis);
    assert(en == seq![(p, d)] + el);
    assert forall|i: int, j: int|
        0 <= i < j < en.len() implies (#[trigger] en[i]).0 != (#[trigger] en[j]).0 by {
        if i == 0 {
            assert(en[j] == el[j - 1]);
            assert(!vis1.contains(el[j - 1].0));
        } else {
            assert(en[i] == el[i - 1]);
            assert(en[j] == el[j - 1]);
        }
    }
    assert forall|i: int|
        0 <= i < en.len() implies v.procs.dom().contains((#[trigger] en[i]).0) && !vis.contains(
        en[i].0,
    ) by {
        if i > 0 {
            assert(en[i] == el[i - 1]);
            assert(!vis1.contains(el[i - 1].0));
        }
    }
}

/// The traversal of a child list emits pairwise distinct, fresh
/// identifiers.
pub proof fn lemma_list_no_duplicates(v: IndexView, cs: Seq<i32>, d: nat, vis: Set<i32>)
    requires
        v.procs.dom().finite(),
        vis.finite(),
    ensures
        distinct_pids(emitted_list(v, cs, d, vis)),
        fresh_pids(emitted_list(v, cs, d, vis), v, vis),
    decreases unvisited(v, vis), cs.len() + 1,
{
    if cs.len() == 0 {
    } else if v.procs.dom().contains(cs[0]) && !vis.contains(cs[0]) {
        let sub = emitted_node(v, cs[0], d, vis);
        lemma_pids_of_finite(sub);
        lemma_unvisited_union(v, vis, pids_of(sub));
        let vis1 = vis.union(pids_of(sub));
        lemma_node_no_duplicates(v, cs[0], d, vis);
        lemma_list_no_duplicates(v, cs.drop_first(), d, vis1);
        let el2 = emitted_list(v, cs.drop_first(), d, vis1);
        let whole = emitted_list(v, cs, d, vis);
        assert(whole == sub + el2);
        assert forall|i: int, j: int|
            0 <= i < j < whole.len() implies (#[trigger] whole[i]).0 != (#[trigger] whole[j]).0 by {
            if j < sub.len() {
                assert(whole[i] == sub[i]);
                assert(whole[j] == sub[j]);
            } else if i >= sub.len() {
                assert(whole[i] == el2[i - sub.len()]);
                assert(whole[j] == el2[j - sub.len()]);
            } else {
                assert(whole[i] == sub[i]);
                assert(whole[j] == el2[j - sub.len()]);
                assert(!vis1.contains(el2[j - sub.len()].0));
                lemma_pids_of_contains(sub, sub[i].0);
                assert(pids_of(sub).contains(sub[i].0));
            }
        }
        assert forall|i: int|
            0 <= i < whole.len() implies v.procs.dom().contains((#[trigger] whole[i]).0)
            && !vis.contains(whole[i].0) by {
            if i >= sub.len() {
                assert(whole[i] == el2[i - sub.len()]);
                assert(!vis1.contains(el2[i - sub.len()].0));
            }
        }
    } else {
        lemma_list_no_duplicates(v, cs.drop_first(), d, vis);
        assert(emitted_list(v, cs, d, vis) == emitted_list(v, cs.drop_first(), d, vis));
    }
}

/// Entry `i` takes its depth from a parent edge: some earlier entry one
/// level up whose recorded child list names it.
pub open spec fn has_parent_edge(es: Seq<(i32, nat)>, v: IndexView, i: int) -> bool {
    exists|j: int|
        0 <= j < i && es[i].1 == (#[trigger] es[j]).1 + 1 && child_list(v, es[j].0).contains(
            es[i].0,
        )
}

/// Each entry below the first takes its depth from a parent edge.
pub open spec fn depths_follow_edges(es: Seq<(i32, nat)>, v: IndexView) -> bool {
    forall|i: int| 1 <= i < es.len() ==> #[trigger] has_parent_edge(es, v, i)
}

/// Entry `i` either stands at the list's own depth and is named by the
/// list, or takes its depth from a parent edge.
pub open spec fn listed_or_descended(
    es: Seq<(i32, nat)>,
    v: IndexView,
    cs: Seq<i32>,
    d: nat,
    i: int,
) -> bool {
    (es[i].1 == d && cs.contains(es[i].0)) || has_parent_edge(es, v, i)
}

/// A subtree traversal starts with its node at the entry depth, and each
/// further entry sits one level below an earlier entry that records it
/// as a child: depth counts parent edges.
pub proof fn lemma_node_depths(v: IndexView, p: i32, d: nat, vis: Set<i32>)
    requires
        v.procs.dom().finite(),
        vis.finite(),
        v.procs.dom().contains(p),
        !vis.contains(p),
    ensures
        emitted_node(v, p, d, vis).len() >= 1,
        emitted_node(v, p, d, vis)[0] == (p, d),
        depths_follow_edges(emitted_node(v, p, d, vis), v),
    decreases unvisited(v, vis), 0nat,
{
    lemma_unvisited_insert(v, vis, p);
    let vis1 = vis.insert(p);
    let cl = child_list(v, p);
    let el = emitted_list(v, cl, d + 1, vis1);
    lemma_list_depths(v, cl, d + 1, vis1);
    let en = emitted_node(v, p, d, vis);
    assert(en == seq![(p, d)] + el);
    assert forall|i: int| 1 <= i < en.len() implies #[trigger] has_parent_edge(en, v, i) by {
        assert(en[i] == el[i - 1]);
        assert(listed_or_descended(el, v, cl, d + 1, i - 1));
        if el[i - 1].1 == d + 1 && cl.contains(el[i - 1].0) {
            assert(en[0] == (p, d));
            assert(en[i].1 == en[0].1 + 1 && child_list(v, en[0].0).contains(en[i].0));
        } else {
            assert(has_parent_edge(el, v, i - 1));
            let j0 = choose|j0: int|
                0 <= j0 < i - 1 && el[i - 1].1 == (#[trigger] el[j0]).1 + 1 && child_list(
                    v,
                    el[j0].0,
                ).contains(el[i - 1].0);
            assert(en[j0 + 1] == el[j0]);
            assert(en[i].1 == en[j0 + 1].1 + 1 && child_list(v, en[j0 + 1].0).contains(en[i].0));
        }
    }
}

/// Every entry of a child-list traversal either sits at the list's own
/// depth and is named by the list, or takes its depth from an earlier
/// entry that records it as a child.
pub proof fn lemma_list_depths(v: IndexView, cs: Seq<i32>, d: nat, vis: Set<i32>)
    requires
        v.procs.dom().finite(),
        vis.finite(),
    ensures
        forall|i: int|
            0 <= i < emitted_list(v, cs, d, vis).len() ==> #[trigger] listed_or_descended(
                emitted_list(v, cs, d, vis),
                v,
                cs,
                d,
                i,
            ),
    decreases unvisited(v, vis), cs.len() + 1,
{
    if cs.len() == 0 {
    } else if v.procs.dom().contains(cs[0]) && !vis.contains(cs[0]) {
        let sub = emitted_node(v, cs[0], d, vis);
        lemma_pids_of_finite(sub);
        lemma_unvisited_union(v, vis, pids_of(sub));
        let vis1 = vis.union(pids_of(sub));
        lemma_node_depths(v, cs[0], d, vis);
        lemma_list_depths(v, cs.drop_first(), d, vis1);
        let rest = cs.drop_first();
        let el2 = emitted_list(v, rest, d, vis1);
        let whole = emitted_list(v, cs, d, vis);
        assert(whole == sub + el2);
        assert forall|i: int|
            0 <= i < whole.len() implies #[trigger] listed_or_descended(whole, v, cs, d, i) by {
            if i < sub.len() {
                assert(whole[i] == sub[i]);
                if i == 0 {
                    assert(sub[0] == (cs[0], d));
                    assert(cs.contains(cs[0]));
                } else {
                    assert(has_parent_edge(sub, v, i));
                    let j0 = choose|j0: int|
                        0 <= j0 < i && sub[i].1 == (#[trigger] sub[j0]).1 + 1 && child_list(
                            v,
                            sub[j0].0,
                        ).contains(sub[i].0);
                    assert(whole[j0] == sub[j0]);
                    assert(whole[i].1 == whole[j0].1 + 1 && child_list(v, whole[j0].0).contains(
                        whole[i].0,
                    ));
                    assert(has_parent_edge(whole, v, i));
                }
            } else {
                let ii = i - sub.len();
                assert(whole[i] == el2[ii]);
                assert(listed_or_descended(el2, v, rest, d, ii));
                if el2[ii].1 == d && rest.contains(el2[ii].0) {
                    let k = choose|k: int| 0 <= k < rest.len() && rest[k] == el2[ii].0;
                    assert(cs[k + 1] == el2[ii].0);
                    assert(cs.contains(whole[i].0));
                } else {
                    assert(has_parent_edge(el2, v, ii));
                    let j0 = choose|j0: int|
                        0 <= j0 < ii && el2[ii].1 == (#[trigger] el2[j0]).1 + 1 && child_list(
                            v,
                            el2[j0].0,
                        ).contains(el2[ii].0);
                    assert(whole[sub.len() + j0] == el2[j0]);
                    assert(whole[i].1 == whole[sub.len() + j0].1 + 1 && child_list(
                        v,
                        whole[sub.len() + j0].0,
                    ).contains(whole[i].0));
                    assert(has_parent_edge(whole, v, i));
                }
            }
        }
    } else {
        lemma_list_depths(v, cs.drop_first(), d, vis);
        let rest = cs.drop_first();
        let whole = emitted_list(v, cs, d, vis);
        assert(whole == emitted_list(v, rest, d, vis));
        assert forall|i: int|
            0 <= i < whole.len() implies #[trigger] listed_or_descended(whole, v, cs, d, i) by {
            assert(listed_or_descended(whole, v, rest, d, i));
            if whole[i].1 == d && rest.contains(whole[i].0) {
                let k = choose|k: int| 0 <= k < rest.len() && rest[k] == whole[i].0;
                assert(cs[k + 1] == whole[i].0);
                assert(cs.contains(whole[i].0));
            } else {
                assert(has_parent_edge(whole, v, i));
            }
        }
    }
}

/// In a full traversal the root stands first at depth zero, and every
/// other node's depth is one more than that of an earlier node whose
/// child list records it: depth equals the number of edges from the
/// root.
pub proof fn lemma_depth_counts_edges(v: IndexView, root: i32)
    requires
        v.procs.dom().finite(),
        v.procs.dom().contains(root),
    ensures
        emitted_node(v, root, 0, Set::empty())[0] == (root, 0nat),
        depths_follow_edges(emitted_node(v, root, 0, Set::empty()), v),
{
    lemma_node_depths(v, root, 0, Set::empty());
}

/// The indentation of a node at depth `d` is exactly `4 * d` characters
/// wide: one four-character unit per edge between the node and the root.
pub proof fn lemma_indent_width(d: nat)
    ensures
        indent_chars(d).len() == 4 * d,
    decreases d,
{
    reveal_strlit("|   ");
    if d > 0 {
        lemma_indent_width((d - 1) as nat);
    }
}

/// Appends `d` indent units to `out`.
fn append_indent(out: &mut String, d: usize)
    ensures
        final(out)@ == old(out)@ + indent_chars(d as nat),
{
    assert(out@ =~= old(out)@ + indent_chars(0));
    let mut i: usize = 0;
    while i < d
        invariant
            i <= d,
            out@ == old(out)@ + indent_chars(i as nat),
        decreases d - i,
    {
        out.append("|   ");
        i = i + 1;
        assert(out@ =~= old(out)@ + indent_chars(i as nat));
    }
}

impl ProcList {
    /// Renders the process tree rooted at `root` as indented text: the
    /// root line first, then a depth-first walk of descendants, children
    /// in recorded order, every node at most once, each line indented by
    /// one unit per edge below the root. When no record exists at `root`
    /// the output is the fixed rootless line. The text is one fixed
    /// function of the index contents and the root, so repeated calls
    /// yield byte-identical output.
    pub fn render_from(&self, root: i32) -> (out: String)
        ensures
            out@ == spec_render(self@, root),
    {
        let ghost v: IndexView = self@;
        proof {
            self.lemma_index_finite();
        }
        if self.get_record(root).is_none() {
            return String::from_str("No root process found\n");
        }
        let mut out = String::new();
        let mut visited: HashSet<i32> = HashSet::new();
        let mut stack: Vec<(i32, usize)> = Vec::new();
        stack.push((root, 0));
        let ghost mut done: Seq<(i32, nat)> = Seq::empty();
        proof {
            assert(stack_model(stack@) =~= seq![(root, 0nat)]);
            assert(stack_model(stack@).drop_last() =~= Seq::<(i32, nat)>::empty());
            let sub = emitted_node(v, root, 0, Set::empty());
            lemma_pids_of_finite(sub);
            assert(Set::empty().union(pids_of(sub)).finite());
            assert(emitted_stack(v, stack_model(stack@), Set::empty()) == sub + emitted_stack(
                v,
                stack_model(stack@).drop_last(),
                Set::empty().union(pids_of(sub)),
            ));
            assert(emitted_stack(
                v,
                stack_model(stack@).drop_last(),
                Set::empty().union(pids_of(sub)),
            ) == Seq::<(i32, nat)>::empty());
            assert(sub + Seq::<(i32, nat)>::empty() =~= sub);
            assert(done + emitted_stack(v, stack_model(stack@), visited@) =~= sub);
            assert(out@ =~= render_seq(v, done));
        }
        while stack.len() > 0
            invariant
                v == self@,
                v.procs.dom().finite(),
                v.procs.dom().len() <= usize::MAX,
                v.procs.dom().contains(root),
                visited@.finite(),
                visited@.subset_of(v.procs.dom()),
                forall|k: int| 0 <= k < stack@.len() ==> (#[trigger] stack@[k]).1 <= visited@.len(),
                emitted_node(v, root, 0, Set::empty()) == done + emitted_stack(
                    v,
                    stack_model(stack@),
                    visited@,
                ),
                out@ == render_seq(v, done),
            decreases unvisited(v, visited@), stack@.len(),
        {
            let ghost stack_entry: Seq<(i32, usize)> = stack@;
            let ghost model0: Seq<(i32, nat)> = stack_model(stack@);
            let ghost vis0: Set<i32> = visited@;
            let top = stack.pop().unwrap();
            let p: i32 = top.0;
            let d: usize = top.1;
            proof {
                assert(model0.last() == (p, d as nat));
                assert(stack_model(stack@) =~= model0.drop_last());
            }
            let rec_opt = self.get_record(p);
            match rec_opt {
                None => {
                    proof {
                        assert(!v.procs.dom().contains(p));
                        assert(emitted_stack(v, model0, vis0) == emitted_stack(
                            v,
                            model0.drop_last(),
                            vis0,
                        ));
                    }
                },
                Some(rec) => {
                    if visited.contains(&p) {
                        proof {
                            assert(vis0.contains(p));
                            assert(emitted_stack(v, model0, vis0) == emitted_stack(
                                v,
                                model0.drop_last(),
                                vis0,
                            ));
                        }
                    } else {
                        visited.insert(p);
                        let ghost vis1: Set<i32> = visited@;
                        proof {
                            assert(vis1 =~= vis0.insert(p));
                            assert(vis1.subset_of(v.procs.dom()));
                            lemma_len_subset(vis1, v.procs.dom());
                            assert(vis1.len() == vis0.len() + 1);
                            assert(d + 1 <= usize::MAX);
                            lemma_unvisited_insert(v, vis0, p);
                        }
                        let ghost out0: Seq<char> = out@;
                        if d == 0 {
                            out.append("Process: ");
                        } else {
                            append_indent(&mut out, d);
                            out.append("└── ");
                        }
                        rec.append_line(&mut out);
                        out.append("\n");
                        proof {
                            assert(rec@ == v.procs[p]);
                            assert(out@ =~= out0 + entry_chars(v, (p, d as nat)));
                        }
                        let dc: usize = d + 1;
                        let ghost stack1: Seq<(i32, usize)> = stack@;
                        let kids_opt = self.children_of(p);
                        match kids_opt {
                            Some(kids) => {
                                let mut idx: usize = kids.len();
                                while idx > 0
                                    invariant
                                        idx <= kids@.len(),
                                        stack@.len() == stack1.len() + (kids@.len() - idx),
                                        forall|m: int|
                                            0 <= m < stack1.len() ==> stack@[m] == stack1[m],
                                        forall|m: int|
                                            0 <= m < (kids@.len() - idx) ==> #[trigger] stack@[stack1.len()
                                                + m] == (kids@[kids@.len() - 1 - m], dc),
                                    decreases idx,
                                {
                                    idx = idx - 1;
                                    stack.push((kids[idx], dc));
                                }
                                proof {
                                    let combined = stack_model(stack1) + stacked(
                                        kids@,
                                        dc as nat,
                                    );
                                    assert forall|i: int|
                                        0 <= i < stack@.len() implies stack_model(stack@)[i]
                                        == combined[i] by {
                                        if i >= stack1.len() {
                                            let m = i - stack1.len();
                                            assert(stack@[stack1.len() + m] == (
                                                kids@[kids@.len() - 1 - m],
                                                dc,
                                            ));
                                        }
                                    }
                                    assert(stack_model(stack@) =~= stack_model(stack1) + stacked(
                                        child_list(v, p),
                                        dc as nat,
                                    ));
                                }
                            },
                            None => {
                                proof {
                                    assert(stacked(child_list(v, p), dc as nat) =~= Seq::<(
                                        i32,
                                        nat,
                                    )>::empty());
                                    assert(stack_model(stack@) =~= stack_model(stack1) + stacked(
                                        child_list(v, p),
                                        dc as nat,
                                    ));
                                }
                            },
                        }
                        proof {
                            let dn: nat = d as nat;
                            let cl = child_list(v, p);
                            let el = emitted_list(v, cl, dn + 1, vis1);
                            let sub = emitted_node(v, p, dn, vis0);
                            lemma_pids_of_finite(sub);
                            lemma_pids_of_finite(el);
                            assert(vis0.union(pids_of(sub)).finite());
                            assert(vis1.union(pids_of(el)).finite());
                            assert(emitted_stack(v, model0, vis0) == sub + emitted_stack(
                                v,
                                model0.drop_last(),
                                vis0.union(pids_of(sub)),
                            ));
                            assert(sub == seq![(p, dn)] + el);
                            lemma_pids_of_append(seq![(p, dn)], el);
                            assert(seq![(p, dn)].drop_last() =~= Seq::<(i32, nat)>::empty());
                            assert(pids_of(Seq::<(i32, nat)>::empty()) =~= Set::<i32>::empty());
                            assert(pids_of(seq![(p, dn)]) =~= Set::empty().insert(p));
                            assert(vis0.union(pids_of(sub)) =~= vis1.union(pids_of(el)));
                            assert(stack_model(stack1) == model0.drop_last());
                            lemma_stack_block(v, model0.drop_last(), cl, dn + 1, vis1);
                            assert(stack_model(stack@) == model0.drop_last() + stacked(cl, dn + 1));
                            assert(emitted_stack(v, stack_model(stack@), vis1) == el
                                + emitted_stack(
                                v,
                                model0.drop_last(),
                                vis1.union(pids_of(el)),
                            ));
                            let ghost done0 = done;
                            done = done.push((p, dn));
                            assert(done.drop_last() =~= done0);
                            assert(done.last() == (p, dn));
                            assert(render_seq(v, done) == render_seq(v, done0) + entry_chars(
                                v,
                                (p, dn),
                            ));
                            assert(done0 + (sub + emitted_stack(
                                v,
                                model0.drop_last(),
                                vis1.union(pids_of(el)),
                            )) =~= done + (el + emitted_stack(
                                v,
                                model0.drop_last(),
                                vis1.union(pids_of(el)),
                            )));
                            assert forall|k: int|
                                0 <= k < stack@.len() implies (#[trigger] stack@[k]).1
                                <= visited@.len() by {
                                let sm = stack_model(stack@);
                                assert(sm[k] == (stack@[k].0, stack@[k].1 as nat));
                                if k < model0.len() - 1 {
                                    assert(sm[k] == model0.drop_last()[k]);
                                    assert(model0[k] == (
                                        stack_entry[k].0,
                                        stack_entry[k].1 as nat,
                                    ));
                                    assert(stack_entry[k].1 <= vis0.len());
                                } else {
                                    let m = k - (model0.len() - 1);
                                    assert(sm[k] == stacked(cl, dn + 1)[m]);
                                    assert(stacked(cl, dn + 1)[m] == (
                                        cl[cl.len() - 1 - m],
                                        dn + 1,
                                    ));
                                }
                            }
                        }
                    }
                },
            }
        }
        proof {
            assert(stack_model(stack@) =~= Seq::<(i32, nat)>::empty());
            assert(emitted_stack(v, stack_model(stack@), visited@) == Seq::<(i32, nat)>::empty());
            assert(done + Seq::<(i32, nat)>::empty() =~= done);
            assert(done == emitted_node(v, root, 0, Set::empty()));
        }
        out
    }

    /// Renders the process tree rooted at the canonical root identifier.
    pub fn render(&self) -> (out: String)
        ensures
            out@ == spec_render(self@, ROOT_PID),
    {
        self.render_from(ROOT_PID)
    }
}

} // verus!
