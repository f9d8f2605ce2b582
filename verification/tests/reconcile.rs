use brunhild::attrs::Attrs;
use brunhild::command::Command;
use brunhild::tree::Tree;
use brunhild::views::ViewData;

fn leaf(id: &str, inner: &str, state: u64) -> ViewData {
    ViewData::content(
        id.to_string(),
        "span".to_string(),
        Attrs::new(),
        inner.to_string(),
        state,
    )
}

fn container(id: &str, state: u64, children: Vec<ViewData>) -> ViewData {
    ViewData::container(id.to_string(), "div".to_string(), Attrs::new(), state, children)
}

#[test]
fn initial_render_markup() {
    let mut attrs = Attrs::new();
    attrs.set("class".to_string(), Some("a".to_string()));
    let root = ViewData::container(
        "root".to_string(),
        "div".to_string(),
        attrs,
        0,
        vec![leaf("c1", "hi", 1)],
    );
    let (_tree, cmd) = Tree::new("app", &root);
    assert_eq!(
        cmd,
        Command::AppendChild {
            parent_id: "app".to_string(),
            markup: "<div id=\"root\" class=\"a\"><span id=\"c1\">hi</span></div>".to_string(),
        }
    );
}

#[test]
fn attribute_without_value_renders_bare() {
    let mut attrs = Attrs::new();
    attrs.set("class".to_string(), Some("a".to_string()));
    attrs.set("disabled".to_string(), None);
    let v = ViewData::content(
        "x".to_string(),
        "input".to_string(),
        attrs,
        String::new(),
        0,
    );
    let (_tree, cmd) = Tree::new("app", &v);
    assert_eq!(
        cmd,
        Command::AppendChild {
            parent_id: "app".to_string(),
            markup: "<input id=\"x\" class=\"a\" disabled></input>".to_string(),
        }
    );
}

#[test]
fn noop_pass_emits_nothing() {
    let root = container("p", 0, vec![leaf("a", "one", 1), leaf("b", "two", 2)]);
    let (mut tree, _) = Tree::new("app", &root);
    tree.update(&root);
    let cmds = tree.diff(&root);
    assert!(cmds.is_empty());
}

#[test]
fn full_replace_single_command() {
    let old = leaf("x", "old", 1);
    let new = leaf("y", "new", 1);
    let (mut tree, _) = Tree::new("app", &old);
    tree.update(&old);
    let cmds = tree.diff(&new);
    assert_eq!(
        cmds,
        vec![Command::ReplaceElement {
            old_id: "x".to_string(),
            markup: "<span id=\"y\">new</span>".to_string(),
        }]
    );
}

#[test]
fn leaf_update_replaces_content_once() {
    let old = leaf("x", "one", 1);
    let new = leaf("x", "two", 2);
    let (mut tree, _) = Tree::new("app", &old);
    tree.update(&old);
    let cmds = tree.diff(&new);
    assert_eq!(
        cmds,
        vec![Command::ReplaceContent { id: "x".to_string(), markup: "two".to_string() }]
    );
    // The cached fingerprint was updated: the same view diffs to nothing now.
    tree.update(&new);
    let cmds = tree.diff(&new);
    assert!(cmds.is_empty());
}

#[test]
fn unchanged_fingerprint_skips_content() {
    // Same fingerprint but different inner markup: step 2 sees no change,
    // so no content work happens for the leaf.
    let old = leaf("x", "one", 1);
    let new = leaf("x", "two", 1);
    let (mut tree, _) = Tree::new("app", &old);
    tree.update(&old);
    let cmds = tree.diff(&new);
    assert!(cmds.is_empty());
}

#[test]
fn shrink_removes_trailing_children() {
    let old = container(
        "p",
        0,
        vec![
            leaf("a", "1", 1),
            leaf("b", "2", 2),
            leaf("c", "3", 3),
            leaf("d", "4", 4),
        ],
    );
    // Live children shrink to [a, b], both with changed content.
    let new = container("p", 0, vec![leaf("a", "1x", 10), leaf("b", "2x", 20)]);
    let (mut tree, _) = Tree::new("app", &old);
    tree.update(&old);
    let cmds = tree.diff(&new);
    assert_eq!(
        cmds,
        vec![
            Command::RemoveTrailingChildren { parent_id: "p".to_string(), count: 2 },
            Command::ReplaceContent { id: "a".to_string(), markup: "1x".to_string() },
            Command::ReplaceContent { id: "b".to_string(), markup: "2x".to_string() },
        ]
    );
}

#[test]
fn grow_appends_new_children_in_order() {
    let old = container("p", 0, vec![leaf("a", "1", 1), leaf("b", "2", 2)]);
    let new = container(
        "p",
        0,
        vec![
            leaf("a", "1", 1),
            leaf("b", "2", 2),
            leaf("c", "3", 3),
            leaf("d", "4", 4),
        ],
    );
    let (mut tree, _) = Tree::new("app", &old);
    tree.update(&old);
    let cmds = tree.diff(&new);
    assert_eq!(
        cmds,
        vec![
            Command::AppendChild {
                parent_id: "p".to_string(),
                markup: "<span id=\"c\">3</span>".to_string(),
            },
            Command::AppendChild {
                parent_id: "p".to_string(),
                markup: "<span id=\"d\">4</span>".to_string(),
            },
        ]
    );
}

#[test]
fn attr_presence_differs_from_absence() {
    let mut with_bare = Attrs::new();
    with_bare.set("class".to_string(), Some("a".to_string()));
    with_bare.set("disabled".to_string(), None);
    let mut without = Attrs::new();
    without.set("class".to_string(), Some("a".to_string()));
    assert!(!with_bare.eq_attrs(&without));
    assert!(!without.eq_attrs(&with_bare));
    assert!(with_bare.eq_attrs(&with_bare.clone_attrs()));
}

#[test]
fn attr_diff_emits_set_and_remove() {
    let mut old_attrs = Attrs::new();
    old_attrs.set("class".to_string(), Some("a".to_string()));
    old_attrs.set("title".to_string(), Some("t".to_string()));
    let old = ViewData::content(
        "x".to_string(),
        "span".to_string(),
        old_attrs,
        "one".to_string(),
        1,
    );
    // New snapshot: `title` vanishes, `class` changes, `disabled` appears
    // with no value. The fingerprint changes, so the attribute diff runs.
    let mut new_attrs = Attrs::new();
    new_attrs.set("class".to_string(), Some("b".to_string()));
    new_attrs.set("disabled".to_string(), None);
    let new = ViewData::content(
        "x".to_string(),
        "span".to_string(),
        new_attrs,
        "two".to_string(),
        2,
    );
    let (mut tree, _) = Tree::new("app", &old);
    tree.update(&old);
    let cmds = tree.diff(&new);
    assert_eq!(
        cmds,
        vec![
            Command::RemoveAttribute { id: "x".to_string(), key: "title".to_string() },
            Command::SetAttribute {
                id: "x".to_string(),
                key: "class".to_string(),
                value: Some("b".to_string()),
            },
            Command::SetAttribute {
                id: "x".to_string(),
                key: "disabled".to_string(),
                value: None,
            },
            Command::ReplaceContent { id: "x".to_string(), markup: "two".to_string() },
        ]
    );
}

#[test]
fn batching_diffs_each_marked_node_once() {
    let root_old = container(
        "r",
        0,
        vec![
            container("b1", 0, vec![leaf("x", "1", 1)]),
            container("b2", 0, vec![leaf("y", "2", 2)]),
        ],
    );
    let b1_old = container("b1", 0, vec![leaf("x", "1", 1)]);

    let b1_new = container("b1", 0, vec![leaf("x", "1x", 10)]);
    let b2_new = container("b2", 0, vec![leaf("y", "2y", 20)]);
    let root_new = container("r", 0, vec![b1_new, b2_new]);

    let expected = vec![
        Command::ReplaceContent { id: "x".to_string(), markup: "1x".to_string() },
        Command::ReplaceContent { id: "y".to_string(), markup: "2y".to_string() },
    ];

    // Mark an ancestor (b1) and an unrelated descendant of another branch
    // (y), with a duplicate mark thrown in.
    let (mut tree, _) = Tree::new("app", &root_old);
    tree.update(&b1_old);
    tree.update(&leaf("y", "2", 2));
    tree.update(&b1_old);
    assert_eq!(tree.diff(&root_new), expected);
    let root_old2 = container(
        "r",
        0,
        vec![
            container("b1", 0, vec![leaf("x", "1", 1)]),
            container("b2", 0, vec![leaf("y", "2", 2)]),
        ],
    );

    // The same marks in the opposite order give the same commands.
    let root_new2 = container(
        "r",
        0,
        vec![
            container("b1", 0, vec![leaf("x", "1x", 10)]),
            container("b2", 0, vec![leaf("y", "2y", 20)]),
        ],
    );
    let (mut tree2, _) = Tree::new("app", &root_old2);
    tree2.update(&leaf("y", "2", 2));
    tree2.update(&b1_old);
    assert_eq!(tree2.diff(&root_new2), expected);
}

#[test]
fn stale_marks_are_discarded_silently() {
    let root = leaf("x", "one", 1);
    let (mut tree, _) = Tree::new("app", &root);
    tree.update(&leaf("gone", "", 0));
    assert!(tree.diff(&root).is_empty());
    // The stale id was drained: a later content change without a fresh mark
    // stays invisible.
    let changed = leaf("x", "two", 2);
    assert!(tree.diff(&changed).is_empty());
}

#[test]
fn ancestor_not_diffed_for_marked_descendant() {
    // Only the marked descendant is diffed: the ancestor's own changed
    // attributes stay untouched because its id was never marked.
    let old = container("p", 0, vec![leaf("a", "1", 1)]);
    let new = container("p", 0, vec![leaf("a", "1x", 10)]);
    let (mut tree, _) = Tree::new("app", &old);
    tree.update(&leaf("a", "1", 1));
    let cmds = tree.diff(&new);
    assert_eq!(
        cmds,
        vec![Command::ReplaceContent { id: "a".to_string(), markup: "1x".to_string() }]
    );
}
