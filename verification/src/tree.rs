//! The reconciler: owns the root of the cached node tree and the set of
//! dirty view ids.
//!
//! The application constructs a [`Tree`] from a root view snapshot, marks
//! changed view ids with [`Tree::update`], and periodically runs a diff pass
//! with [`Tree::diff`], which drains the dirty set and emits the mutation
//! commands for the rendering surface.

use vstd::prelude::*;
use crate::command::{Command, Cmd};
use crate::node::{
    Node, NModel, nm, node_of, render, spec_check, marked_set, marked_distinct, lemma_marked_push,
};
use crate::views::ViewData;

verus! {

broadcast use crate::node::seq_add_empty_left, crate::node::seq_add_empty_right;

/// Builds the command that parses `html` as one element and appends it as
/// the last child of the element with id `parent_id`.
pub fn append_element(parent_id: &str, html: &str) -> (r: Command)
    ensures
        r@ == (Cmd::AppendChild { parent_id: parent_id@, markup: html@ }),
{
    Command::AppendChild { parent_id: parent_id.to_owned(), markup: html.to_owned() }
}

/// The reconciler: the cached mirror of the last-rendered root view, and
/// the ids marked as needing a diff.
pub struct Tree {
    node: Node,
    updated: Vec<String>,
}

impl Tree {
    /// The model of the cached node tree.
    pub closed spec fn node_model(&self) -> NModel {
        nm(self.node)
    }

    /// The set of dirty ids.
    pub closed spec fn dirty(&self) -> Set<Seq<char>> {
        marked_set(self.updated@)
    }

    /// The dirty list holds each id at most once.
    pub closed spec fn wf(&self) -> bool {
        marked_distinct(self.updated@)
    }

    /// Performs the initial full render of the view `v`: returns the
    /// reconciler caching `v`'s rendered state, with an empty dirty set,
    /// and the single command that appends the fresh markup to the element
    /// with id `parent_id`.
    pub fn new(parent_id: &str, v: &ViewData) -> (r: (Tree, Command))
        ensures
            r.0.node_model() == node_of(*v),
            r.0.dirty() == Set::<Seq<char>>::empty(),
            r.0.wf(),
            r.1@ == (Cmd::AppendChild { parent_id: parent_id@, markup: render(*v) }),
    {
        let mut w = String::new();
        let node = Node::new(v, &mut w);
        let cmd = append_element(parent_id, w.as_str());
        let tree = Tree { node, updated: Vec::new() };
        proof {
            assert(tree.dirty() =~= Set::<Seq<char>>::empty());
        }
        (tree, cmd)
    }

    /// Marks the view `v` as updated and thus needing a diff.
    ///
    /// Takes constant extra effect: marking the same id twice is the same
    /// as marking it once, and marks may be issued any number of times
    /// between diff passes.
    pub fn update(&mut self, v: &ViewData)
        requires
            old(self).wf(),
        ensures
            final(self).wf(),
            final(self).node_model() == old(self).node_model(),
            final(self).dirty() == old(self).dirty().insert(v.id@),
    {
        let n = self.updated.len();
        let mut i: usize = 0;
        while i < n
            invariant
                n == self.updated@.len(),
                i <= n,
                *self == *old(self),
                old(self).wf(),
                forall|j: int| 0 <= j < i ==> (#[trigger] self.updated@[j])@ != v.id@,
            decreases n - i,
        {
            if self.updated[i] == v.id {
                proof {
                    assert(self.dirty().contains(v.id@)) by {
                        assert(crate::node::id_seq(self.updated@)[i as int] == v.id@);
                    }
                    assert(self.dirty() =~= self.dirty().insert(v.id@));
                }
                return;
            }
            i += 1;
        }
        let ghost pre = self.updated@;
        let id = v.id.clone();
        proof {
            lemma_marked_push(pre, id);
        }
        self.updated.push(id);
    }

    /// One synchronous diff pass.
    ///
    /// Walks the cached tree depth first, paired with the live view `v`:
    /// every node whose id is dirty is diffed against its live counterpart
    /// and its id is consumed; unmarked nodes are left alone apart from the
    /// descent. Afterwards the dirty set is drained to empty: ids that
    /// referred to nodes no longer present are discarded silently.
    pub fn diff(&mut self, v: &ViewData) -> (cmds: Vec<Command>)
        requires
            old(self).wf(),
        ensures
            final(self).wf(),
            final(self).node_model() == spec_check(
                old(self).node_model(),
                old(self).dirty(),
                *v,
            ).node,
            cmds.deep_view() == spec_check(old(self).node_model(), old(self).dirty(), *v).cmds,
            final(self).dirty() == Set::<Seq<char>>::empty(),
    {
        let mut cmds: Vec<Command> = Vec::new();
        proof {
            assert(cmds.deep_view() =~= Seq::<Cmd>::empty());
        }
        self.node.check_marked(&mut self.updated, v, &mut cmds);
        self.updated.clear();
        proof {
            assert(self.dirty() =~= Set::<Seq<char>>::empty());
        }
        cmds
    }
}

} // verus!
