//! Laws of the reconciliation algorithm, stated over the spec-level models
//! and proved once and for all.

use vstd::prelude::*;
use crate::attrs::attr_lookup;
use crate::command::Cmd;
use crate::node::{
    NModel, node_of, render, spec_diff, spec_diff_children, spec_check, check_kids_upto,
    diff_pairs_upto, kids_of_range, append_cmds_range, seq_add_empty_left, seq_add_empty_right,
};
use crate::views::ViewData;

verus! {

broadcast use seq_add_empty_left, seq_add_empty_right;


/// The cached node `n` matches the live view `v` exactly: same id, same
/// fingerprint, same attribute snapshot, and the same children, pairwise.
pub open spec fn unchanged(n: NModel, v: ViewData) -> bool
    decreases v,
{
    &&& n.id == v.id@
    &&& n.state == v.state
    &&& n.attrs == v.attrs@
    &&& n.children.len() == v.children@.len()
    &&& (forall|i: int|
        0 <= i < v.children@.len() ==> unchanged(n.children[i], #[trigger] v.children@[i]))
}

proof fn lemma_noop_pairs(ns: Seq<NModel>, cs: Seq<ViewData>, i: int)
    requires
        0 <= i <= ns.len(),
        i <= cs.len(),
        forall|t: int| 0 <= t < i ==> unchanged(ns[t], #[trigger] cs[t]),
    ensures
        diff_pairs_upto(ns, cs, i).children == ns.take(i),
        diff_pairs_upto(ns, cs, i).cmds == Seq::<Cmd>::empty(),
    decreases cs, i,
{
    if i <= 0 {
        assert(diff_pairs_upto(ns, cs, i).children =~= ns.take(i));
    } else {
        lemma_noop_pairs(ns, cs, i - 1);
        lemma_noop_diff(ns[i - 1], cs[i - 1]);
        assert(ns.take(i - 1).push(ns[i - 1]) =~= ns.take(i));
    }
}

/// No-op diff: diffing a node that matches its live view exactly emits no
/// commands and leaves the cache unchanged.
pub proof fn lemma_noop_diff(n: NModel, v: ViewData)
    requires
        unchanged(n, v),
    ensures
        spec_diff(n, v).node == n,
        spec_diff(n, v).cmds == Seq::<Cmd>::empty(),
    decreases v, 0int,
{
    if !(n.children.len() == 0 && v.children@.len() == 0) {
        lemma_noop_pairs(n.children, v.children@, n.children.len() as int);
        assert(n.children.take(n.children.len() as int) =~= n.children);
        assert(spec_diff_children(n.id, n.children, v.children@).children =~= n.children);
        assert(spec_diff_children(n.id, n.children, v.children@).cmds =~= Seq::<Cmd>::empty());
    }
}

proof fn lemma_noop_check_kids(ns: Seq<NModel>, marked: Set<Seq<char>>, cs: Seq<ViewData>, i: int)
    requires
        0 <= i <= ns.len(),
        i <= cs.len(),
        forall|t: int| 0 <= t < i ==> unchanged(ns[t], #[trigger] cs[t]),
    ensures
        check_kids_upto(ns, marked, cs, i).children == ns.take(i),
        check_kids_upto(ns, marked, cs, i).cmds == Seq::<Cmd>::empty(),
    decreases cs, i,
{
    if i <= 0 {
        assert(check_kids_upto(ns, marked, cs, i).children =~= ns.take(i));
    } else {
        lemma_noop_check_kids(ns, marked, cs, i - 1);
        lemma_noop_pass(ns[i - 1], check_kids_upto(ns, marked, cs, i - 1).marked, cs[i - 1]);
        assert(ns.take(i - 1).push(ns[i - 1]) =~= ns.take(i));
    }
}

/// No-op idempotence: a diff pass over a cached tree that matches the live
/// view exactly — same ids, fingerprints, attributes and children
/// throughout — emits no commands and leaves the cache unchanged, whatever
/// set of ids was marked beforehand.
pub proof fn lemma_noop_pass(n: NModel, marked: Set<Seq<char>>, v: ViewData)
    requires
        unchanged(n, v),
    ensures
        spec_check(n, marked, v).node == n,
        spec_check(n, marked, v).cmds == Seq::<Cmd>::empty(),
    decreases v, 1int,
{
    if marked.contains(n.id) {
        lemma_noop_diff(n, v);
    } else {
        let m = if n.children.len() <= v.children@.len() {
            n.children.len() as int
        } else {
            v.children@.len() as int
        };
        lemma_noop_check_kids(n.children, marked, v.children@, m);
        assert(n.children.take(m) + n.children.skip(m) =~= n.children);
    }
}

/// Full replace: a view whose id differs from the cached node's id yields
/// exactly one `ReplaceElement` carrying the fresh markup of the whole
/// subtree, and no other command; the cache slot becomes a fresh render.
pub proof fn lemma_full_replace(n: NModel, v: ViewData)
    requires
        v.id@ != n.id,
    ensures
        spec_diff(n, v).cmds == seq![Cmd::ReplaceElement { old_id: n.id, markup: render(v) }],
        spec_diff(n, v).node == node_of(v),
{
}

/// Leaf update: a childless view with a changed fingerprint but unchanged
/// attributes yields exactly one `ReplaceContent` carrying the freshly
/// rendered inner markup, and the cached fingerprint is updated to the new
/// value.
pub proof fn lemma_leaf_update(n: NModel, v: ViewData)
    requires
        v.id@ == n.id,
        v.state != n.state,
        v.attrs@ == n.attrs,
        n.children.len() == 0,
        v.children@.len() == 0,
    ensures
        spec_diff(n, v).cmds == seq![Cmd::ReplaceContent { id: n.id, markup: v.inner@ }],
        spec_diff(n, v).node == (NModel { state: v.state, ..n }),
{
}

/// Shrink: when the live children list is shorter than the cached one, the
/// children diff emits exactly one `RemoveTrailingChildren` carrying the
/// number of extra cached children, followed only by the pairwise diffs of
/// the children present on both sides.
pub proof fn lemma_shrink(id: Seq<char>, ns: Seq<NModel>, cs: Seq<ViewData>)
    requires
        cs.len() < ns.len(),
    ensures
        spec_diff_children(id, ns, cs).cmds == seq![
            Cmd::RemoveTrailingChildren { parent_id: id, count: ns.len() - cs.len() },
        ] + diff_pairs_upto(ns.subrange(0, cs.len() as int), cs, cs.len() as int).cmds,
        spec_diff_children(id, ns, cs).children == diff_pairs_upto(
            ns.subrange(0, cs.len() as int),
            cs,
            cs.len() as int,
        ).children,
{
}

/// Grow: when the live children list is longer than the cached one, the
/// children diff emits the pairwise diffs of the children present on both
/// sides, followed by one `AppendChild` per extra live child, in order,
/// each carrying that child's fresh markup; the fresh renders are appended
/// to the cache in the same order.
pub proof fn lemma_grow(id: Seq<char>, ns: Seq<NModel>, cs: Seq<ViewData>)
    requires
        ns.len() < cs.len(),
    ensures
        spec_diff_children(id, ns, cs).cmds == diff_pairs_upto(ns, cs, ns.len() as int).cmds
            + append_cmds_range(id, cs, ns.len() as int, cs.len() as int),
        spec_diff_children(id, ns, cs).children == diff_pairs_upto(
            ns,
            cs,
            ns.len() as int,
        ).children + kids_of_range(cs, ns.len() as int, cs.len() as int),
{
}

/// Attribute equality is exact: a snapshot in which a key is present with
/// no value differs from one in which that key is absent altogether.
pub proof fn lemma_attr_presence_distinct(
    a: Seq<(Seq<char>, Option<Seq<char>>)>,
    b: Seq<(Seq<char>, Option<Seq<char>>)>,
    key: Seq<char>,
)
    requires
        attr_lookup(a, key) == Some(Option::<Seq<char>>::None),
        attr_lookup(b, key) is None,
    ensures
        a != b,
{
}


proof fn lemma_idle_check_kids(ns: Seq<NModel>, cs: Seq<ViewData>, i: int)
    requires
        0 <= i <= ns.len(),
        i <= cs.len(),
    ensures
        check_kids_upto(ns, Set::<Seq<char>>::empty(), cs, i).children == ns.take(i),
        check_kids_upto(ns, Set::<Seq<char>>::empty(), cs, i).marked == Set::<Seq<char>>::empty(),
        check_kids_upto(ns, Set::<Seq<char>>::empty(), cs, i).cmds == Seq::<Cmd>::empty(),
    decreases cs, i,
{
    if i <= 0 {
        assert(check_kids_upto(ns, Set::<Seq<char>>::empty(), cs, i).children =~= ns.take(i));
    } else {
        lemma_idle_check_kids(ns, cs, i - 1);
        lemma_idle_pass(ns[i - 1], cs[i - 1]);
        assert(ns.take(i - 1).push(ns[i - 1]) =~= ns.take(i));
    }
}

/// Idle pass: a diff pass with an empty dirty set emits no commands and
/// leaves the cache unchanged, whatever the live view looks like — nothing
/// is ever diffed without a mark.
pub proof fn lemma_idle_pass(n: NModel, v: ViewData)
    ensures
        spec_check(n, Set::<Seq<char>>::empty(), v).node == n,
        spec_check(n, Set::<Seq<char>>::empty(), v).marked == Set::<Seq<char>>::empty(),
        spec_check(n, Set::<Seq<char>>::empty(), v).cmds == Seq::<Cmd>::empty(),
    decreases v, 1int,
{
    let m = if n.children.len() <= v.children@.len() {
        n.children.len() as int
    } else {
        v.children@.len() as int
    };
    lemma_idle_check_kids(n.children, v.children@, m);
    assert(n.children.take(m) + n.children.skip(m) =~= n.children);
}


/// No id anywhere in the subtree cached at `n` is in `marked`.
pub open spec fn no_marks_in(n: NModel, marked: Set<Seq<char>>) -> bool
    decreases n,
{
    &&& !marked.contains(n.id)
    &&& (forall|i: int|
        0 <= i < n.children.len() ==> no_marks_in(#[trigger] n.children[i], marked))
}

proof fn lemma_untouched_check_kids(
    ns: Seq<NModel>,
    marked: Set<Seq<char>>,
    cs: Seq<ViewData>,
    i: int,
)
    requires
        0 <= i <= ns.len(),
        i <= cs.len(),
        forall|t: int| 0 <= t < i ==> no_marks_in(#[trigger] ns[t], marked),
    ensures
        check_kids_upto(ns, marked, cs, i).children == ns.take(i),
        check_kids_upto(ns, marked, cs, i).marked == marked,
        check_kids_upto(ns, marked, cs, i).cmds == Seq::<Cmd>::empty(),
    decreases ns, i,
{
    if i <= 0 {
        assert(check_kids_upto(ns, marked, cs, i).children =~= ns.take(i));
    } else {
        lemma_untouched_check_kids(ns, marked, cs, i - 1);
        lemma_unmarked_subtree_untouched(ns[i - 1], marked, cs[i - 1]);
        assert(ns.take(i - 1).push(ns[i - 1]) =~= ns.take(i));
    }
}

/// Batching, locality: a subtree in which no id is marked contributes no
/// commands to the pass, is left unchanged in the cache, and consumes no
/// dirty id — whatever its live counterpart looks like. Each marked id
/// triggers its own localized diff; branches without marks cost nothing.
pub proof fn lemma_unmarked_subtree_untouched(n: NModel, marked: Set<Seq<char>>, v: ViewData)
    requires
        no_marks_in(n, marked),
    ensures
        spec_check(n, marked, v).node == n,
        spec_check(n, marked, v).marked == marked,
        spec_check(n, marked, v).cmds == Seq::<Cmd>::empty(),
    decreases n, 1int,
{
    let m = if n.children.len() <= v.children@.len() {
        n.children.len() as int
    } else {
        v.children@.len() as int
    };
    lemma_untouched_check_kids(n.children, marked, v.children@, m);
    assert(n.children.take(m) + n.children.skip(m) =~= n.children);
}

/// Batching, consumption: a node whose id is marked is diffed exactly once
/// by the pass — the pass emits precisely that one diff's commands for the
/// subtree and consumes the id, so a second pass over the same set would
/// not diff it again.
pub proof fn lemma_marked_node_diffed_once(n: NModel, marked: Set<Seq<char>>, v: ViewData)
    requires
        marked.contains(n.id),
    ensures
        spec_check(n, marked, v).node == spec_diff(n, v).node,
        spec_check(n, marked, v).cmds == spec_diff(n, v).cmds,
        spec_check(n, marked, v).marked == marked.remove(n.id),
        !spec_check(n, marked, v).marked.contains(n.id),
{
}

/// Batching: marking the same id twice leaves the dirty set exactly as one
/// mark does, so duplicate marks never cause extra diffs.
pub proof fn lemma_mark_idempotent(dirty: Set<Seq<char>>, id: Seq<char>)
    ensures
        dirty.insert(id).insert(id) == dirty.insert(id),
{
    assert(dirty.insert(id).insert(id) =~= dirty.insert(id));
}

/// Batching: the dirty set after two marks does not depend on their order,
/// so the commands of the following diff pass do not either.
pub proof fn lemma_mark_order_irrelevant(dirty: Set<Seq<char>>, a: Seq<char>, b: Seq<char>)
    ensures
        dirty.insert(a).insert(b) == dirty.insert(b).insert(a),
{
    assert(dirty.insert(a).insert(b) =~= dirty.insert(b).insert(a));
}

} // verus!
