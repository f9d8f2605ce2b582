//! Application-facing description of interface state.
//!
//! A [`ViewData`] is an immutable snapshot of one view: its identity, tag,
//! attributes, rendered inner content, content-state fingerprint, and child
//! views in order. The reconciler receives such snapshots per diff call and
//! owns no application state.

use vstd::prelude::*;
use crate::attrs::Attrs;

verus! {

broadcast use vstd::std_specs::vec::group_vec_axioms;

/// Fingerprint of a view's own rendered content, never of its descendants'.
///
/// Always-static views can keep the default constant fingerprint; other
/// views derive one deterministically from their own fields.
pub trait State {
    /// The content-state fingerprint.
    fn state(&self) -> u64 {
        0
    }
}

/// Snapshot of one view: the base unit of manipulation.
///
/// A view should use either `inner` or `children` meaningfully, not both: a
/// leaf/content view renders inner markup and has no children, a container
/// view has children and empty inner markup.
pub struct ViewData {
    /// Stable unique id. Sibling ids must be unique at every tree level.
    pub id: String,
    /// Element-type name of the root element.
    pub tag: String,
    /// Attributes of the root element. Should not contain `id`.
    pub attrs: Attrs,
    /// Raw inner markup of the root element, used by leaf/content views.
    pub inner: String,
    /// Content-state fingerprint of this view's own content.
    pub state: u64,
    /// Ordered child views, used by container views.
    pub children: Vec<ViewData>,
}

impl ViewData {
    /// The snapshot is well formed: attribute keys are distinct, sibling
    /// ids are unique, and every child is well formed.
    pub open spec fn wf(self) -> bool
        decreases self,
    {
        &&& self.attrs.wf()
        &&& (forall|i: int, j: int|
            0 <= i < j < self.children@.len() ==> (#[trigger] self.children@[i]).id@ != (
            #[trigger] self.children@[j]).id@)
        &&& (forall|i: int|
            0 <= i < self.children@.len() ==> (#[trigger] self.children@[i]).wf())
    }

    /// A childless view with the given identity, tag, attributes and inner
    /// markup.
    pub fn content(id: String, tag: String, attrs: Attrs, inner: String, state: u64) -> (r:
        ViewData)
        ensures
            r.id == id,
            r.tag == tag,
            r.attrs == attrs,
            r.inner == inner,
            r.state == state,
            r.children@ == Seq::<ViewData>::empty(),
    {
        let r = ViewData { id, tag, attrs, inner, state, children: Vec::new() };
        proof {
            assert(r.children@ =~= Seq::<ViewData>::empty());
        }
        r
    }

    /// A container view with the given identity, tag, attributes and
    /// children, and empty inner markup.
    pub fn container(id: String, tag: String, attrs: Attrs, state: u64, children: Vec<
        ViewData>) -> (r: ViewData)
        ensures
            r.id == id,
            r.tag == tag,
            r.attrs == attrs,
            r.inner@ == Seq::<char>::empty(),
            r.state == state,
            r.children == children,
    {
        ViewData { id, tag, attrs, inner: String::new(), state, children }
    }
}

/// Placeholder view: the default child type of views that have no children.
pub struct NOOP {
    id: String,
}

impl State for NOOP {
}

impl NOOP {
    /// The id of the placeholder view, as a sequence of characters.
    pub closed spec fn spec_id(&self) -> Seq<char> {
        self.id@
    }

    /// A placeholder view.
    pub fn new() -> (r: NOOP)
        ensures
            r.spec_id() == Seq::<char>::empty(),
    {
        NOOP { id: String::new() }
    }

    /// The id of the placeholder view: always empty.
    pub fn id(&self) -> (r: String)
        ensures
            r@ == self.spec_id(),
    {
        self.id.clone()
    }
}

} // verus!
