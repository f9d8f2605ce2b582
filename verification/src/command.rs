//! Mutation commands emitted towards the rendering surface.
//!
//! The diff pass never touches the surface itself: it produces a sequence of
//! typed [`Command`] values, and a separate adapter outside this crate
//! executes them against the real surface.

use vstd::prelude::*;

verus! {

/// One mutation of the rendering surface.
#[derive(Debug, PartialEq, Eq)]
pub enum Command {
    /// Replace the element with id `old_id`, and its subtree, with the
    /// element parsed from `markup`.
    ReplaceElement { old_id: String, markup: String },
    /// Replace only the inner content of the element with id `id`,
    /// preserving the element itself.
    ReplaceContent { id: String, markup: String },
    /// Remove the last `count` children of the element with id `parent_id`.
    RemoveTrailingChildren { parent_id: String, count: usize },
    /// Parse `markup` as one element and append it as the last child of the
    /// element with id `parent_id`.
    AppendChild { parent_id: String, markup: String },
    /// Set the attribute `key` of the element with id `id` to `value`
    /// (`None` sets the attribute with no value).
    SetAttribute { id: String, key: String, value: Option<String> },
    /// Remove the attribute `key` from the element with id `id`.
    RemoveAttribute { id: String, key: String },
}

/// Mathematical model of one mutation command.
pub ghost enum Cmd {
    ReplaceElement { old_id: Seq<char>, markup: Seq<char> },
    ReplaceContent { id: Seq<char>, markup: Seq<char> },
    RemoveTrailingChildren { parent_id: Seq<char>, count: int },
    AppendChild { parent_id: Seq<char>, markup: Seq<char> },
    SetAttribute { id: Seq<char>, key: Seq<char>, value: Option<Seq<char>> },
    RemoveAttribute { id: Seq<char>, key: Seq<char> },
}

impl View for Command {
    type V = Cmd;

    open spec fn view(&self) -> Cmd {
        match self {
            Command::ReplaceElement { old_id, markup } => Cmd::ReplaceElement {
                old_id: old_id@,
                markup: markup@,
            },
            Command::ReplaceContent { id, markup } => Cmd::ReplaceContent {
                id: id@,
                markup: markup@,
            },
            Command::RemoveTrailingChildren { parent_id, count } => Cmd::RemoveTrailingChildren {
                parent_id: parent_id@,
                count: *count as int,
            },
            Command::AppendChild { parent_id, markup } => Cmd::AppendChild {
                parent_id: parent_id@,
                markup: markup@,
            },
            Command::SetAttribute { id, key, value } => Cmd::SetAttribute {
                id: id@,
                key: key@,
                value: value.deep_view(),
            },
            Command::RemoveAttribute { id, key } => Cmd::RemoveAttribute {
                id: id@,
                key: key@,
            },
        }
    }
}

impl DeepView for Command {
    type V = Cmd;

    open spec fn deep_view(&self) -> Cmd {
        self.view()
    }
}

} // verus!
