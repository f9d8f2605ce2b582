//! The cached mirror of the last-rendered view structure, and the diff
//! algorithm.
//!
//! A [`Node`] captures one view's last-rendered state and serves as the diff
//! baseline. The per-node diff compares a live [`ViewData`] snapshot to its
//! paired cached node, mutates the cache in place, and emits the mutation
//! [`Command`]s needed to bring the rendering surface in line.

use vstd::prelude::*;
use vstd::string::StringExecFns;
use crate::attrs::{Attrs, attr_lookup, option_str_eq, option_str_clone};
use crate::command::{Command, Cmd};
use crate::views::ViewData;

verus! {

broadcast use vstd::std_specs::vec::group_vec_axioms;

pub(crate) broadcast proof fn seq_add_assoc<T>(a: Seq<T>, b: Seq<T>, c: Seq<T>)
    ensures
        #[trigger] (a + b + c) == a + (b + c),
{
    assert(a + b + c =~= a + (b + c));
}

pub(crate) broadcast proof fn seq_add_empty_right<T>(a: Seq<T>)
    ensures
        #[trigger] (a + Seq::<T>::empty()) == a,
{
    assert(a + Seq::<T>::empty() =~= a);
}

pub(crate) broadcast proof fn seq_add_empty_left<T>(a: Seq<T>)
    ensures
        #[trigger] (Seq::<T>::empty() + a) == a,
{
    assert(Seq::<T>::empty() + a =~= a);
}

/// Mathematical model of one cached node.
pub ghost struct NModel {
    pub id: Seq<char>,
    pub tag: Seq<char>,
    pub value: Seq<char>,
    pub state: u64,
    pub attrs: Seq<(Seq<char>, Option<Seq<char>>)>,
    pub children: Seq<NModel>,
}

/// Cached mirror of one view's last-rendered state.
pub struct Node {
    tag: String,
    id: String,
    // Reserved slot for storing the value state of input elements.
    value: String,
    state: u64,
    attrs: Attrs,
    children: Vec<Node>,
}

/// The model of a cached node.
pub closed spec fn nm(n: Node) -> NModel
    decreases n,
{
    NModel {
        id: n.id@,
        tag: n.tag@,
        value: n.value@,
        state: n.state,
        attrs: n.attrs@,
        children: nm_seq(n.children@),
    }
}

/// The models of the nodes of `ns`, in order.
pub closed spec fn nm_seq(ns: Seq<Node>) -> Seq<NModel>
    decreases ns,
{
    if ns.len() == 0 {
        Seq::empty()
    } else {
        nm_seq(ns.drop_last()).push(nm(ns.last()))
    }
}

/// The markup of one attribute: a space, the key, and `="value"` when the
/// attribute has a value.
pub open spec fn render_attr(p: (Seq<char>, Option<Seq<char>>)) -> Seq<char> {
    match p.1 {
        Some(val) => " "@ + p.0 + "=\""@ + val + "\""@,
        None => " "@ + p.0,
    }
}

/// The markup of the first `i` attributes of `attrs`, concatenated.
pub open spec fn render_attrs_upto(attrs: Seq<(Seq<char>, Option<Seq<char>>)>, i: int) -> Seq<
    char>
    decreases i,
{
    if i <= 0 || i > attrs.len() {
        Seq::empty()
    } else {
        render_attrs_upto(attrs, i - 1) + render_attr(attrs[i - 1])
    }
}

/// The full markup of a view: an opening tag carrying the view's id and
/// attributes, the inner markup, the children in order, and a closing tag.
pub open spec fn render(v: ViewData) -> Seq<char>
    decreases v, 0int,
{
    "<"@ + v.tag@ + " id=\""@ + v.id@ + "\""@ + render_attrs_upto(v.attrs@, v.attrs@.len() as int)
        + ">"@ + v.inner@ + render_kids_upto(v.children@, v.children@.len() as int) + "</"@
        + v.tag@ + ">"@
}

/// The concatenated markup of the first `i` children of `cs`.
pub open spec fn render_kids_upto(cs: Seq<ViewData>, i: int) -> Seq<char>
    decreases cs, i,
{
    if i <= 0 || i > cs.len() {
        Seq::empty()
    } else {
        render_kids_upto(cs, i - 1) + render(cs[i - 1])
    }
}

/// The cached node that a full render of `v` produces.
pub open spec fn node_of(v: ViewData) -> NModel
    decreases v, 0int,
{
    NModel {
        id: v.id@,
        tag: v.tag@,
        value: Seq::empty(),
        state: v.state,
        attrs: v.attrs@,
        children: kids_of_upto(v.children@, v.children@.len() as int),
    }
}

/// The cached nodes that full renders of the first `i` views of `cs`
/// produce.
pub open spec fn kids_of_upto(cs: Seq<ViewData>, i: int) -> Seq<NModel>
    decreases cs, i,
{
    if i <= 0 || i > cs.len() {
        Seq::empty()
    } else {
        kids_of_upto(cs, i - 1).push(node_of(cs[i - 1]))
    }
}

/// The removal commands of an attribute diff: one `RemoveAttribute` for each
/// key among the first `i` of `old` that is absent from `new`, in order.
pub open spec fn attr_removes(
    id: Seq<char>,
    old: Seq<(Seq<char>, Option<Seq<char>>)>,
    new: Seq<(Seq<char>, Option<Seq<char>>)>,
    i: int,
) -> Seq<Cmd>
    decreases i,
{
    if i <= 0 || i > old.len() {
        Seq::empty()
    } else {
        attr_removes(id, old, new, i - 1) + if attr_lookup(new, old[i - 1].0) is None {
            seq![Cmd::RemoveAttribute { id, key: old[i - 1].0 }]
        } else {
            Seq::empty()
        }
    }
}

/// The set commands of an attribute diff: one `SetAttribute` for each key
/// among the first `i` of `new` that is absent from `old` or bound there to
/// a different value, in order.
pub open spec fn attr_sets(
    id: Seq<char>,
    old: Seq<(Seq<char>, Option<Seq<char>>)>,
    new: Seq<(Seq<char>, Option<Seq<char>>)>,
    i: int,
) -> Seq<Cmd>
    decreases i,
{
    if i <= 0 || i > new.len() {
        Seq::empty()
    } else {
        attr_sets(id, old, new, i - 1) + if attr_lookup(old, new[i - 1].0) == Some(
            new[i - 1].1,
        ) {
            Seq::empty()
        } else {
            seq![Cmd::SetAttribute { id, key: new[i - 1].0, value: new[i - 1].1 }]
        }
    }
}

/// The commands of an attribute diff: nothing when the snapshots are
/// exactly equal, else the removals of vanished keys followed by the sets
/// of new or changed keys.
pub open spec fn attr_patch(
    id: Seq<char>,
    old: Seq<(Seq<char>, Option<Seq<char>>)>,
    new: Seq<(Seq<char>, Option<Seq<char>>)>,
) -> Seq<Cmd> {
    if old == new {
        Seq::empty()
    } else {
        attr_removes(id, old, new, old.len() as int) + attr_sets(id, old, new, new.len() as int)
    }
}

/// Outcome of a per-node diff: the updated cached node and the emitted
/// commands.
pub ghost struct DiffEffect {
    pub node: NModel,
    pub cmds: Seq<Cmd>,
}

/// Outcome of a children diff: the updated cached children and the emitted
/// commands.
pub ghost struct KidsEffect {
    pub children: Seq<NModel>,
    pub cmds: Seq<Cmd>,
}

/// The per-node diff of a live view `v` against its paired cached node `n`.
///
/// An identity mismatch replaces the whole subtree with a fresh render and
/// emits exactly one `ReplaceElement`. Otherwise a changed fingerprint
/// updates the cached fingerprint and diffs the attributes; a childless
/// node with changed content emits exactly one `ReplaceContent`; a node
/// with children on either side always runs the children diff.
pub open spec fn spec_diff(n: NModel, v: ViewData) -> DiffEffect
    decreases n, 1int,
{
    if v.id@ != n.id {
        DiffEffect { node: node_of(v), cmds: seq![Cmd::ReplaceElement { old_id: n.id, markup: render(v) }] }
    } else {
        let changed = v.state != n.state;
        let acmds: Seq<Cmd> = if changed {
            attr_patch(n.id, n.attrs, v.attrs@)
        } else {
            Seq::empty()
        };
        let nattrs = if changed { v.attrs@ } else { n.attrs };
        if n.children.len() == 0 && v.children@.len() == 0 {
            let ccmds: Seq<Cmd> = if changed {
                seq![Cmd::ReplaceContent { id: n.id, markup: v.inner@ }]
            } else {
                Seq::empty()
            };
            DiffEffect {
                node: NModel {
                    id: n.id,
                    tag: n.tag,
                    value: n.value,
                    state: v.state,
                    attrs: nattrs,
                    children: n.children,
                },
                cmds: acmds + ccmds,
            }
        } else {
            let ke = spec_diff_children(n.id, n.children, v.children@);
            DiffEffect {
                node: NModel {
                    id: n.id,
                    tag: n.tag,
                    value: n.value,
                    state: v.state,
                    attrs: nattrs,
                    children: ke.children,
                },
                cmds: acmds + ke.cmds,
            }
        }
    }
}

/// The children diff of the live children `cs` against the cached children
/// `ns` of the node with id `id`.
///
/// Extra cached children are removed from the end with exactly one
/// `RemoveTrailingChildren`; children present on both sides are diffed
/// pairwise, strictly positionally; extra live children are fully rendered
/// and appended, one `AppendChild` each, in order.
pub open spec fn spec_diff_children(id: Seq<char>, ns: Seq<NModel>, cs: Seq<ViewData>) -> KidsEffect
    decreases ns, cs.len() + 1,
{
    let keep = if cs.len() < ns.len() {
        ns.subrange(0, cs.len() as int)
    } else {
        ns
    };
    let rm: Seq<Cmd> = if cs.len() < ns.len() {
        seq![Cmd::RemoveTrailingChildren { parent_id: id, count: ns.len() - cs.len() }]
    } else {
        Seq::empty()
    };
    let pe = diff_pairs_upto(keep, cs, keep.len() as int);
    let grown = kids_of_range(cs, keep.len() as int, cs.len() as int);
    let ac = append_cmds_range(id, cs, keep.len() as int, cs.len() as int);
    KidsEffect { children: pe.children + grown, cmds: rm + pe.cmds + ac }
}

/// The pairwise diffs of the first `i` cached children of `ns` against the
/// first `i` live children of `cs`.
pub open spec fn diff_pairs_upto(ns: Seq<NModel>, cs: Seq<ViewData>, i: int) -> KidsEffect
    decreases ns, i,
{
    if i <= 0 || i > ns.len() || i > cs.len() {
        KidsEffect { children: Seq::empty(), cmds: Seq::empty() }
    } else {
        let t = diff_pairs_upto(ns, cs, i - 1);
        let h = spec_diff(ns[i - 1], cs[i - 1]);
        KidsEffect { children: t.children.push(h.node), cmds: t.cmds + h.cmds }
    }
}

/// The cached nodes of fresh renders of the views of `cs` from position
/// `from` up to position `upto`.
pub open spec fn kids_of_range(cs: Seq<ViewData>, from: int, upto: int) -> Seq<NModel>
    decreases cs, upto,
{
    if upto <= from || from < 0 || upto > cs.len() {
        Seq::empty()
    } else {
        kids_of_range(cs, from, upto - 1).push(node_of(cs[upto - 1]))
    }
}

/// One `AppendChild` command for each view of `cs` from position `from` up
/// to position `upto`, in order, each carrying the view's fresh markup.
pub open spec fn append_cmds_range(id: Seq<char>, cs: Seq<ViewData>, from: int, upto: int) -> Seq<
    Cmd>
    decreases cs, upto,
{
    if upto <= from || from < 0 || upto > cs.len() {
        Seq::empty()
    } else {
        append_cmds_range(id, cs, from, upto - 1) + seq![
            Cmd::AppendChild { parent_id: id, markup: render(cs[upto - 1]) },
        ]
    }
}

/// Outcome of one dirty-id pass over a subtree: the updated cached subtree,
/// the dirty ids not yet consumed, and the emitted commands.
pub ghost struct CheckEffect {
    pub node: NModel,
    pub marked: Set<Seq<char>>,
    pub cmds: Seq<Cmd>,
}

/// Outcome of a dirty-id pass over a children list.
pub ghost struct CheckKidsEffect {
    pub children: Seq<NModel>,
    pub marked: Set<Seq<char>>,
    pub cmds: Seq<Cmd>,
}

/// One dirty-id pass over the subtree cached at `n`, paired with the live
/// view `v`.
///
/// A node whose id is marked is diffed and its id is consumed; an unmarked
/// node is left alone and the pass descends into its children, pairing them
/// with the live children positionally. An ancestor is never diffed merely
/// because a descendant is marked.
pub open spec fn spec_check(n: NModel, marked: Set<Seq<char>>, v: ViewData) -> CheckEffect
    decreases n, 0int,
{
    if marked.contains(n.id) {
        let d = spec_diff(n, v);
        CheckEffect { node: d.node, marked: marked.remove(n.id), cmds: d.cmds }
    } else {
        let m = if n.children.len() <= v.children@.len() {
            n.children.len() as int
        } else {
            v.children@.len() as int
        };
        let ce = check_kids_upto(n.children, marked, v.children@, m);
        CheckEffect {
            node: NModel {
                id: n.id,
                tag: n.tag,
                value: n.value,
                state: n.state,
                attrs: n.attrs,
                children: ce.children + n.children.skip(m),
            },
            marked: ce.marked,
            cmds: ce.cmds,
        }
    }
}

/// The dirty-id pass over the first `i` cached children of `ns`, paired
/// with the first `i` live children of `cs`, threading the dirty set from
/// left to right.
pub open spec fn check_kids_upto(
    ns: Seq<NModel>,
    marked: Set<Seq<char>>,
    cs: Seq<ViewData>,
    i: int,
) -> CheckKidsEffect
    decreases ns, i,
{
    if i <= 0 || i > ns.len() || i > cs.len() {
        CheckKidsEffect { children: Seq::empty(), marked, cmds: Seq::empty() }
    } else {
        let t = check_kids_upto(ns, marked, cs, i - 1);
        let h = spec_check(ns[i - 1], t.marked, cs[i - 1]);
        CheckKidsEffect {
            children: t.children.push(h.node),
            marked: h.marked,
            cmds: t.cmds + h.cmds,
        }
    }
}

impl Node {
    /// Fully renders the view `v`: appends its complete markup to `w` and
    /// returns the cached node capturing its rendered state.
    pub fn new(v: &ViewData, w: &mut String) -> (r: Node)
        ensures
            nm(r) == node_of(*v),
            final(w)@ == old(w)@ + render(*v),
        decreases *v,
    {
        broadcast use {seq_add_assoc, seq_add_empty_right, seq_add_empty_left};

        let id = v.id.clone();
        let tag = v.tag.clone();
        let attrs = v.attrs.clone_attrs();
        let ghost base = old(w)@;

        w.append("<");
        w.append(tag.as_str());
        w.append(" id=\"");
        w.append(id.as_str());
        w.append("\"");
        let ghost open_tag = base + "<"@ + v.tag@ + " id=\""@ + v.id@ + "\""@;
        assert(w@ == open_tag);

        let n_attrs = attrs.len();
        let mut i: usize = 0;
        while i < n_attrs
            invariant
                n_attrs == attrs@.len(),
                attrs@ == v.attrs@,
                i <= n_attrs,
                w@ == open_tag + render_attrs_upto(v.attrs@, i as int),
            decreases n_attrs - i,
        {
            let p = attrs.pair_at(i);
            w.append(" ");
            w.append(p.0.as_str());
            if let Option::Some(val) = &p.1 {
                w.append("=\"");
                w.append(val.as_str());
                w.append("\"");
            }
            proof {
                assert(render_attrs_upto(v.attrs@, i as int + 1) == render_attrs_upto(
                    v.attrs@,
                    i as int,
                ) + render_attr(v.attrs@[i as int]));
            }
            i += 1;
        }
        let ghost opened = open_tag + render_attrs_upto(v.attrs@, v.attrs@.len() as int) + ">"@
            + v.inner@;
        w.append(">");
        w.append(v.inner.as_str());
        assert(w@ == opened);

        let mut children: Vec<Node> = Vec::new();
        let n_kids = v.children.len();
        let mut k: usize = 0;
        while k < n_kids
            invariant
                n_kids == v.children@.len(),
                k <= n_kids,
                w@ == opened + render_kids_upto(v.children@, k as int),
                children@.len() == k,
                nm_seq(children@) == kids_of_upto(v.children@, k as int),
            decreases n_kids - k,
        {
            let child = Node::new(&v.children[k], w);
            let ghost prev = children@;
            children.push(child);
            proof {
                assert(children@.drop_last() =~= prev);
                assert(nm_seq(children@) == kids_of_upto(v.children@, k as int + 1));
            }
            k += 1;
        }

        w.append("</");
        w.append(tag.as_str());
        w.append(">");

        let r = Node { id, tag, value: String::new(), state: v.state, attrs, children };
        proof {
            assert(nm(r) == node_of(*v));
            assert(w@ == old(w)@ + render(*v));
        }
        r
    }
}


/// The models of a node sequence index into the models of its elements.
proof fn lemma_nm_seq_props(ns: Seq<Node>)
    ensures
        nm_seq(ns).len() == ns.len(),
        forall|i: int| 0 <= i < ns.len() ==> nm_seq(ns)[i] == nm(#[trigger] ns[i]),
    decreases ns.len(),
{
    if ns.len() > 0 {
        lemma_nm_seq_props(ns.drop_last());
        assert forall|i: int| 0 <= i < ns.len() implies nm_seq(ns)[i] == nm(#[trigger] ns[i]) by {
            if i < ns.len() - 1 {
                assert(nm_seq(ns.drop_last())[i] == nm(ns.drop_last()[i]));
                assert(ns.drop_last()[i] == ns[i]);
            } else {
                assert(ns.last() == ns[i]);
            }
        }
    }
}

proof fn lemma_nm_seq_push(ns: Seq<Node>, c: Node)
    ensures
        nm_seq(ns.push(c)) == nm_seq(ns).push(nm(c)),
{
    assert(ns.push(c).drop_last() =~= ns);
    assert(ns.push(c).last() == c);
}

impl Node {
    /// Compares the cached attribute snapshot to the freshly computed
    /// attributes `attrs`. When they differ, replaces the snapshot and emits
    /// one `RemoveAttribute` per vanished key and one `SetAttribute` per new
    /// or changed key; when they are exactly equal, does nothing.
    pub fn diff_attrs(&mut self, attrs: Attrs, cmds: &mut Vec<Command>)
        ensures
            nm(*final(self)) == (NModel { attrs: attrs@, ..nm(*old(self)) }),
            final(cmds).deep_view() == old(cmds).deep_view() + attr_patch(
                nm(*old(self)).id,
                nm(*old(self)).attrs,
                attrs@,
            ),
    {
        broadcast use {seq_add_assoc, seq_add_empty_right, seq_add_empty_left};

        let ghost oldm = nm(*old(self));
        if self.attrs.eq_attrs(&attrs) {
            proof {
                assert(nm(*self) == (NModel { attrs: attrs@, ..oldm }));
                assert(final(cmds).deep_view() == old(cmds).deep_view() + attr_patch(
                    oldm.id,
                    oldm.attrs,
                    attrs@,
                ));
            }
            return;
        }
        let ghost base = cmds.deep_view();

        let n_old = self.attrs.len();
        let mut i: usize = 0;
        while i < n_old
            invariant
                *self == *old(self),
                oldm == nm(*old(self)),
                n_old == self.attrs@.len(),
                i <= n_old,
                cmds.deep_view() == base + attr_removes(oldm.id, oldm.attrs, attrs@, i as int),
            decreases n_old - i,
        {
            let ghost dv = cmds.deep_view();
            let p = self.attrs.pair_at(i);
            if attrs.get(&p.0).is_none() {
                let cmd = Command::RemoveAttribute { id: self.id.clone(), key: p.0.clone() };
                cmds.push(cmd);
                proof {
                    assert(cmds.deep_view() =~= dv + seq![
                        Cmd::RemoveAttribute { id: oldm.id, key: oldm.attrs[i as int].0 },
                    ]);
                }
            }
            proof {
                assert(attr_removes(oldm.id, oldm.attrs, attrs@, i as int + 1) == attr_removes(
                    oldm.id,
                    oldm.attrs,
                    attrs@,
                    i as int,
                ) + if attr_lookup(attrs@, oldm.attrs[i as int].0) is None {
                    seq![Cmd::RemoveAttribute { id: oldm.id, key: oldm.attrs[i as int].0 }]
                } else {
                    Seq::<Cmd>::empty()
                });
            }
            i += 1;
        }
        let ghost removed = attr_removes(oldm.id, oldm.attrs, attrs@, oldm.attrs.len() as int);

        let n_new = attrs.len();
        let mut j: usize = 0;
        while j < n_new
            invariant
                *self == *old(self),
                oldm == nm(*old(self)),
                n_new == attrs@.len(),
                j <= n_new,
                cmds.deep_view() == base + removed + attr_sets(oldm.id, oldm.attrs, attrs@, j as int),
                removed == attr_removes(oldm.id, oldm.attrs, attrs@, oldm.attrs.len() as int),
            decreases n_new - j,
        {
            let ghost dv = cmds.deep_view();
            let p = attrs.pair_at(j);
            let same = match self.attrs.get(&p.0) {
                Option::Some(oldv) => option_str_eq(oldv, &p.1),
                Option::None => false,
            };
            proof {
                assert(same == (attr_lookup(oldm.attrs, attrs@[j as int].0) == Some(
                    attrs@[j as int].1,
                )));
            }
            if !same {
                let cmd = Command::SetAttribute {
                    id: self.id.clone(),
                    key: p.0.clone(),
                    value: option_str_clone(&p.1),
                };
                cmds.push(cmd);
                proof {
                    assert(cmds.deep_view() =~= dv + seq![
                        Cmd::SetAttribute {
                            id: oldm.id,
                            key: attrs@[j as int].0,
                            value: attrs@[j as int].1,
                        },
                    ]);
                }
            }
            proof {
                assert(attr_sets(oldm.id, oldm.attrs, attrs@, j as int + 1) == attr_sets(
                    oldm.id,
                    oldm.attrs,
                    attrs@,
                    j as int,
                ) + if attr_lookup(oldm.attrs, attrs@[j as int].0) == Some(attrs@[j as int].1) {
                    Seq::<Cmd>::empty()
                } else {
                    seq![
                        Cmd::SetAttribute {
                            id: oldm.id,
                            key: attrs@[j as int].0,
                            value: attrs@[j as int].1,
                        },
                    ]
                });
            }
            j += 1;
        }

        self.attrs = attrs;
        proof {
            assert(nm(*self) == (NModel { attrs: attrs@, ..oldm }));
            assert(oldm.attrs != attrs@);
            assert(cmds.deep_view() == base + attr_patch(oldm.id, oldm.attrs, attrs@));
        }
    }
}


proof fn lemma_pairs_snoc(ns: Seq<NModel>, cs: Seq<ViewData>, i: int)
    requires
        0 <= i < ns.len(),
        i < cs.len(),
    ensures
        diff_pairs_upto(ns, cs, i + 1).children == diff_pairs_upto(ns, cs, i).children.push(
            spec_diff(ns[i], cs[i]).node,
        ),
        diff_pairs_upto(ns, cs, i + 1).cmds == diff_pairs_upto(ns, cs, i).cmds + spec_diff(
            ns[i],
            cs[i],
        ).cmds,
{
}

impl Node {
    /// Reconciles the cached children list against the live children
    /// `views`: removes extra cached children from the end with one
    /// `RemoveTrailingChildren`, diffs children present on both sides
    /// pairwise by position, and fully renders and appends extra live
    /// children, one `AppendChild` each, in order.
    #[verifier::rlimit(100)]
    pub fn diff_children(&mut self, views: &Vec<ViewData>, cmds: &mut Vec<Command>)
        ensures
            nm(*final(self)) == (NModel {
                children: spec_diff_children(
                    nm(*old(self)).id,
                    nm(*old(self)).children,
                    views@,
                ).children,
                ..nm(*old(self))
            }),
            final(cmds).deep_view() == old(cmds).deep_view() + spec_diff_children(
                nm(*old(self)).id,
                nm(*old(self)).children,
                views@,
            ).cmds,
        decreases *views,
    {
        broadcast use {seq_add_empty_right, seq_add_empty_left};

        let ghost oldm = nm(*old(self));
        let ghost cs = views@;
        let ghost keepm = if cs.len() < oldm.children.len() {
            oldm.children.subrange(0, cs.len() as int)
        } else {
            oldm.children
        };
        let ghost rmseq: Seq<Cmd> = if cs.len() < oldm.children.len() {
            seq![
                Cmd::RemoveTrailingChildren {
                    parent_id: oldm.id,
                    count: oldm.children.len() - cs.len(),
                },
            ]
        } else {
            Seq::empty()
        };
        let ghost base = cmds.deep_view();
        proof {
            lemma_nm_seq_props(self.children@);
        }

        let n_views = views.len();
        if n_views < self.children.len() {
            let count = self.children.len() - n_views;
            let ghost dv = cmds.deep_view();
            let ghost pre = self.children@;
            cmds.push(Command::RemoveTrailingChildren { parent_id: self.id.clone(), count });
            self.children.truncate(n_views);
            proof {
                assert(cmds.deep_view() =~= dv + rmseq);
                lemma_nm_seq_props(self.children@);
                assert forall|t: int| 0 <= t < n_views implies nm_seq(self.children@)[t]
                    == keepm[t] by {
                    assert(self.children@[t] == pre[t]);
                    assert(nm_seq(pre)[t] == nm(pre[t]));
                }
                assert(nm_seq(self.children@) =~= keepm);
            }
        }
        proof {
            assert(nm_seq(self.children@) == keepm);
            assert(cmds.deep_view() == base + rmseq);
        }

        let m = self.children.len();
        proof {
            lemma_nm_seq_props(self.children@);
            assert(m == keepm.len());
            assert(m <= n_views);
        }
        let mut i: usize = 0;
        while i < m
            invariant
                oldm == nm(*old(self)),
                cs == views@,
                m == self.children@.len(),
                m == keepm.len(),
                m <= n_views,
                n_views == views@.len(),
                i <= m,
                self.id == old(self).id,
                self.tag == old(self).tag,
                self.value == old(self).value,
                self.state == old(self).state,
                self.attrs == old(self).attrs,
                forall|t: int| i <= t < m ==> nm(#[trigger] self.children@[t]) == keepm[t],
                nm_seq(self.children@).take(i as int) == diff_pairs_upto(
                    keepm,
                    views@,
                    i as int,
                ).children,
                cmds.deep_view() == base + rmseq + diff_pairs_upto(keepm, views@, i as int).cmds,
            decreases m - i,
        {
            let ghost pre = self.children@;
            let ghost dv = cmds.deep_view();
            self.children[i].diff(&views[i], cmds);
            proof {
                assert(self.children@ =~= pre.update(i as int, self.children@[i as int]));
                lemma_nm_seq_props(pre);
                lemma_nm_seq_props(self.children@);
                lemma_pairs_snoc(keepm, views@, i as int);
                assert(nm(self.children@[i as int]) == spec_diff(
                    keepm[i as int],
                    views@[i as int],
                ).node);
                assert forall|t: int| 0 <= t < i implies nm_seq(self.children@)[t] == nm_seq(
                    pre,
                )[t] by {
                    assert(self.children@[t] == pre[t]);
                }
                assert(nm_seq(self.children@).take(i as int + 1) =~= diff_pairs_upto(
                    keepm,
                    views@,
                    i as int + 1,
                ).children);
                assert(nm_seq(self.children@).take(i as int) =~= diff_pairs_upto(
                    keepm,
                    views@,
                    i as int,
                ).children);
                assert(cmds.deep_view() =~= base + rmseq + diff_pairs_upto(
                    keepm,
                    views@,
                    i as int + 1,
                ).cmds);
            }
            i += 1;
        }
        let ghost paired = diff_pairs_upto(keepm, views@, m as int);
        proof {
            lemma_nm_seq_props(self.children@);
            assert(nm_seq(self.children@).take(m as int) =~= nm_seq(self.children@));
            assert(nm_seq(self.children@) == paired.children);
        }

        let mut k: usize = m;
        while k < n_views
            invariant
                oldm == nm(*old(self)),
                cs == views@,
                m <= k <= n_views,
                n_views == views@.len(),
                m == keepm.len(),
                paired == diff_pairs_upto(keepm, views@, m as int),
                self.children@.len() == k,
                self.id == old(self).id,
                self.tag == old(self).tag,
                self.value == old(self).value,
                self.state == old(self).state,
                self.attrs == old(self).attrs,
                nm_seq(self.children@) == paired.children + kids_of_range(
                    views@,
                    m as int,
                    k as int,
                ),
                cmds.deep_view() == base + rmseq + paired.cmds + append_cmds_range(
                    oldm.id,
                    views@,
                    m as int,
                    k as int,
                ),
            decreases n_views - k,
        {
            let ghost pre = self.children@;
            let ghost dv = cmds.deep_view();
            let mut wbuf = String::new();
            let child = Node::new(&views[k], &mut wbuf);
            let ghost childm = nm(child);
            proof {
                lemma_nm_seq_push(pre, child);
                assert(childm == node_of(views@[k as int]));
                assert(wbuf@ == render(views@[k as int]));
            }
            self.children.push(child);
            cmds.push(Command::AppendChild { parent_id: self.id.clone(), markup: wbuf });
            proof {
                assert(nm_seq(self.children@) == nm_seq(pre).push(childm));
                assert(kids_of_range(views@, m as int, k as int + 1) == kids_of_range(
                    views@,
                    m as int,
                    k as int,
                ).push(childm));
                assert(nm_seq(self.children@) =~= paired.children + kids_of_range(
                    views@,
                    m as int,
                    k as int + 1,
                ));
                assert(cmds.deep_view() =~= dv + seq![
                    Cmd::AppendChild { parent_id: oldm.id, markup: render(views@[k as int]) },
                ]);
                assert(append_cmds_range(oldm.id, views@, m as int, k as int + 1)
                    == append_cmds_range(oldm.id, views@, m as int, k as int) + seq![
                    Cmd::AppendChild { parent_id: oldm.id, markup: render(views@[k as int]) },
                ]);
                assert(cmds.deep_view() =~= base + rmseq + paired.cmds + append_cmds_range(
                    oldm.id,
                    views@,
                    m as int,
                    k as int + 1,
                ));
            }
            k += 1;
        }

        proof {
            let ke = spec_diff_children(oldm.id, oldm.children, views@);
            assert(ke.children == paired.children + kids_of_range(
                views@,
                m as int,
                n_views as int,
            ));
            assert(ke.cmds == rmseq + paired.cmds + append_cmds_range(
                oldm.id,
                views@,
                m as int,
                n_views as int,
            ));
            assert(nm(*self) == (NModel { children: ke.children, ..oldm }));
            assert(cmds.deep_view() =~= old(cmds).deep_view() + ke.cmds);
        }
    }

    /// The per-node diff: reconciles this cached node, in place, against its
    /// live view counterpart `v`, emitting the needed mutation commands.
    ///
    /// An id mismatch replaces the whole subtree: the view is fully
    /// re-rendered into this slot and exactly one `ReplaceElement` is
    /// emitted. Otherwise a changed fingerprint updates the cache and diffs
    /// the attributes; a childless node with changed content emits exactly
    /// one `ReplaceContent`; a node with children on either side always
    /// recurses into the children diff.
    #[verifier::rlimit(100)]
    pub fn diff(&mut self, v: &ViewData, cmds: &mut Vec<Command>)
        ensures
            nm(*final(self)) == spec_diff(nm(*old(self)), *v).node,
            final(cmds).deep_view() == old(cmds).deep_view() + spec_diff(nm(*old(self)), *v).cmds,
        decreases *v,
    {
        broadcast use {seq_add_assoc, seq_add_empty_right, seq_add_empty_left};

        let ghost oldm = nm(*old(self));
        if !(v.id == self.id) {
            let old_id = self.id.clone();
            let mut wbuf = String::new();
            let node = Node::new(v, &mut wbuf);
            *self = node;
            let ghost dv = cmds.deep_view();
            cmds.push(Command::ReplaceElement { old_id, markup: wbuf });
            proof {
                assert(cmds.deep_view() =~= dv + seq![
                    Cmd::ReplaceElement { old_id: oldm.id, markup: render(*v) },
                ]);
            }
            return;
        }

        let ghost acmds: Seq<Cmd> = if v.state != oldm.state {
            attr_patch(oldm.id, oldm.attrs, v.attrs@)
        } else {
            Seq::empty()
        };
        let ghost base = cmds.deep_view();
        let changed = v.state != self.state;
        if changed {
            self.state = v.state;
            self.diff_attrs(v.attrs.clone_attrs(), cmds);
        }
        proof {
            assert(nm(*self) == (NModel {
                state: v.state,
                attrs: if changed { v.attrs@ } else { oldm.attrs },
                ..oldm
            }));
            assert(cmds.deep_view() == base + acmds);
            lemma_nm_seq_props(self.children@);
        }

        if self.children.len() == 0 && v.children.len() == 0 {
            if changed {
                let ghost dv = cmds.deep_view();
                cmds.push(Command::ReplaceContent { id: self.id.clone(), markup: v.inner.clone() });
                proof {
                    assert(cmds.deep_view() =~= dv + seq![
                        Cmd::ReplaceContent { id: oldm.id, markup: v.inner@ },
                    ]);
                }
            }
        } else {
            self.diff_children(&v.children, cmds);
        }
        proof {
            assert(nm(*self) == spec_diff(oldm, *v).node);
            assert(cmds.deep_view() == old(cmds).deep_view() + spec_diff(oldm, *v).cmds);
        }
    }
}


/// The ids named by a dirty list, in order.
pub open spec fn id_seq(s: Seq<String>) -> Seq<Seq<char>> {
    s.map_values(|x: String| x@)
}

/// The set of ids named by a dirty list.
pub open spec fn marked_set(s: Seq<String>) -> Set<Seq<char>> {
    id_seq(s).to_set()
}

/// The ids of a dirty list are pairwise distinct.
pub open spec fn marked_distinct(s: Seq<String>) -> bool {
    forall|i: int, j: int| 0 <= i < j < s.len() ==> (#[trigger] s[i])@ != (#[trigger] s[j])@
}

proof fn lemma_marked_remove(s: Seq<String>, i: int)
    requires
        marked_distinct(s),
        0 <= i < s.len(),
    ensures
        marked_distinct(s.remove(i)),
        marked_set(s.remove(i)) == marked_set(s).remove(s[i]@),
{
    let d = id_seq(s);
    let r = id_seq(s.remove(i));
    assert(r =~= d.remove(i));
    assert forall|x: Seq<char>| marked_set(s.remove(i)).contains(x) implies marked_set(s).remove(
        s[i]@,
    ).contains(x) by {
        let j = choose|j: int| 0 <= j < r.len() && r[j] == x;
        if j < i {
            assert(d[j] == x);
            assert(s[j]@ != s[i]@);
        } else {
            assert(d[j + 1] == x);
            assert(s[j + 1]@ != s[i]@);
        }
    }
    assert forall|x: Seq<char>| marked_set(s).remove(s[i]@).contains(x) implies marked_set(
        s.remove(i),
    ).contains(x) by {
        let j = choose|j: int| 0 <= j < d.len() && d[j] == x;
        if j < i {
            assert(r[j] == x);
        } else {
            assert(j != i);
            assert(r[j - 1] == x);
        }
    }
    assert(marked_set(s.remove(i)) =~= marked_set(s).remove(s[i]@));
}

pub(crate) proof fn lemma_marked_push(s: Seq<String>, x: String)
    requires
        marked_distinct(s),
        forall|j: int| 0 <= j < s.len() ==> (#[trigger] s[j])@ != x@,
    ensures
        marked_distinct(s.push(x)),
        marked_set(s.push(x)) == marked_set(s).insert(x@),
{
    let d = id_seq(s);
    let p = id_seq(s.push(x));
    assert(p =~= d.push(x@));
    assert forall|y: Seq<char>| marked_set(s.push(x)).contains(y) implies marked_set(s).insert(
        x@,
    ).contains(y) by {
        let j = choose|j: int| 0 <= j < p.len() && p[j] == y;
        if j < s.len() {
            assert(d[j] == y);
        }
    }
    assert forall|y: Seq<char>| marked_set(s).insert(x@).contains(y) implies marked_set(
        s.push(x),
    ).contains(y) by {
        if y == x@ {
            assert(p[s.len() as int] == y);
        } else {
            let j = choose|j: int| 0 <= j < d.len() && d[j] == y;
            assert(p[j] == y);
        }
    }
    assert(marked_set(s.push(x)) =~= marked_set(s).insert(x@));
}

proof fn lemma_check_snoc(ns: Seq<NModel>, marked: Set<Seq<char>>, cs: Seq<ViewData>, i: int)
    requires
        0 <= i < ns.len(),
        i < cs.len(),
    ensures
        check_kids_upto(ns, marked, cs, i + 1).children == check_kids_upto(
            ns,
            marked,
            cs,
            i,
        ).children.push(
            spec_check(ns[i], check_kids_upto(ns, marked, cs, i).marked, cs[i]).node,
        ),
        check_kids_upto(ns, marked, cs, i + 1).marked == spec_check(
            ns[i],
            check_kids_upto(ns, marked, cs, i).marked,
            cs[i],
        ).marked,
        check_kids_upto(ns, marked, cs, i + 1).cmds == check_kids_upto(ns, marked, cs, i).cmds
            + spec_check(ns[i], check_kids_upto(ns, marked, cs, i).marked, cs[i]).cmds,
{
}

impl Node {
    /// One step of the diff pass: if this node's id is in the dirty list,
    /// consumes the id and diffs the node against `v`; otherwise descends
    /// into the children, pairing them with the live children positionally,
    /// looking for marked descendants.
    #[verifier::rlimit(100)]
    pub fn check_marked(&mut self, marked: &mut Vec<String>, v: &ViewData, cmds: &mut Vec<Command>)
        requires
            marked_distinct(old(marked)@),
        ensures
            marked_distinct(final(marked)@),
            nm(*final(self)) == spec_check(nm(*old(self)), marked_set(old(marked)@), *v).node,
            marked_set(final(marked)@) == spec_check(
                nm(*old(self)),
                marked_set(old(marked)@),
                *v,
            ).marked,
            final(cmds).deep_view() == old(cmds).deep_view() + spec_check(
                nm(*old(self)),
                marked_set(old(marked)@),
                *v,
            ).cmds,
        decreases *v,
    {
        broadcast use {seq_add_empty_right, seq_add_empty_left};

        let ghost oldm = nm(*old(self));
        let ghost set0 = marked_set(old(marked)@);

        let n_marked = marked.len();
        let mut idx: usize = 0;
        while idx < n_marked
            invariant
                oldm == nm(*old(self)),
                set0 == marked_set(old(marked)@),
                n_marked == marked@.len(),
                idx <= n_marked,
                *self == *old(self),
                *marked == *old(marked),
                *cmds == *old(cmds),
                marked_distinct(marked@),
                forall|j: int| 0 <= j < idx ==> (#[trigger] marked@[j])@ != self.id@,
            decreases n_marked - idx,
        {
            if marked[idx] == self.id {
                proof {
                    lemma_marked_remove(old(marked)@, idx as int);
                    assert(id_seq(marked@)[idx as int] == oldm.id);
                    assert(set0.contains(oldm.id));
                }
                marked.remove(idx);
                self.diff(v, cmds);
                return;
            }
            idx += 1;
        }
        proof {
            assert(!set0.contains(oldm.id)) by {
                if set0.contains(oldm.id) {
                    let j = choose|j: int|
                        0 <= j < id_seq(old(marked)@).len() && id_seq(old(marked)@)[j]
                            == oldm.id;
                    assert((old(marked)@[j])@ == oldm.id);
                }
            }
            lemma_nm_seq_props(self.children@);
        }

        let n_kids = v.children.len();
        let own_len = self.children.len();
        let m = if own_len < n_kids {
            own_len
        } else {
            n_kids
        };
        let ghost mm = m as int;
        proof {
            assert(mm == if oldm.children.len() <= v.children@.len() {
                oldm.children.len() as int
            } else {
                v.children@.len() as int
            });
        }
        let ghost base = cmds.deep_view();
        let mut i: usize = 0;
        while i < m
            invariant
                oldm == nm(*old(self)),
                set0 == marked_set(old(marked)@),
                !set0.contains(oldm.id),
                mm == m as int,
                mm == if oldm.children.len() <= v.children@.len() {
                    oldm.children.len() as int
                } else {
                    v.children@.len() as int
                },
                i <= m,
                m <= self.children@.len(),
                m as int <= v.children@.len(),
                self.children@.len() == oldm.children.len(),
                self.id == old(self).id,
                self.tag == old(self).tag,
                self.value == old(self).value,
                self.state == old(self).state,
                self.attrs == old(self).attrs,
                marked_distinct(marked@),
                forall|t: int|
                    i <= t < self.children@.len() ==> nm(#[trigger] self.children@[t])
                        == oldm.children[t],
                nm_seq(self.children@).take(i as int) == check_kids_upto(
                    oldm.children,
                    set0,
                    v.children@,
                    i as int,
                ).children,
                marked_set(marked@) == check_kids_upto(
                    oldm.children,
                    set0,
                    v.children@,
                    i as int,
                ).marked,
                cmds.deep_view() == base + check_kids_upto(
                    oldm.children,
                    set0,
                    v.children@,
                    i as int,
                ).cmds,
                base == old(cmds).deep_view(),
            decreases m - i,
        {
            let ghost pre = self.children@;
            self.children[i].check_marked(marked, &v.children[i], cmds);
            proof {
                assert(self.children@ =~= pre.update(i as int, self.children@[i as int]));
                lemma_nm_seq_props(pre);
                lemma_nm_seq_props(self.children@);
                lemma_check_snoc(oldm.children, set0, v.children@, i as int);
                assert forall|t: int| 0 <= t < i implies nm_seq(self.children@)[t] == nm_seq(
                    pre,
                )[t] by {
                    assert(self.children@[t] == pre[t]);
                }
                assert(nm_seq(self.children@).take(i as int + 1) =~= check_kids_upto(
                    oldm.children,
                    set0,
                    v.children@,
                    i as int + 1,
                ).children);
                assert(nm_seq(self.children@).take(i as int) =~= check_kids_upto(
                    oldm.children,
                    set0,
                    v.children@,
                    i as int,
                ).children);
                assert(cmds.deep_view() =~= base + check_kids_upto(
                    oldm.children,
                    set0,
                    v.children@,
                    i as int + 1,
                ).cmds);
            }
            i += 1;
        }
        proof {
            let ce = check_kids_upto(oldm.children, set0, v.children@, mm);
            lemma_nm_seq_props(self.children@);
            assert(ce.children == nm_seq(self.children@).take(mm));
            assert(ce.children.len() == mm);
            assert forall|t: int| mm <= t < self.children@.len() implies nm_seq(
                self.children@,
            )[t] == oldm.children[t] by {
                assert(nm_seq(self.children@)[t] == nm(self.children@[t]));
            }
            assert(nm_seq(self.children@) =~= ce.children + oldm.children.skip(mm));
            assert(nm(*self) == spec_check(oldm, set0, *v).node);
            assert(cmds.deep_view() =~= old(cmds).deep_view() + spec_check(oldm, set0, *v).cmds);
        }
    }
}

} // verus!
