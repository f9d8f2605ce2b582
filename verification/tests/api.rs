use brunhild::attrs::Attrs;
use brunhild::command::Command;
use brunhild::tree::append_element;
use brunhild::views::{State, NOOP};

struct StaticBadge;

impl State for StaticBadge {}

#[test]
fn default_state_is_constant() {
    assert_eq!(StaticBadge.state(), 0);
}

#[test]
fn noop_placeholder_has_empty_id() {
    let placeholder = NOOP::new();
    assert_eq!(placeholder.id(), "");
}

#[test]
fn attrs_set_replaces_in_place() {
    let mut attrs = Attrs::new();
    attrs.set("class".to_string(), Some("a".to_string()));
    attrs.set("title".to_string(), Some("t".to_string()));
    attrs.set("class".to_string(), Some("b".to_string()));
    assert_eq!(attrs.len(), 2);
    assert_eq!(attrs.pair_at(0).0, "class");
    assert_eq!(attrs.pair_at(0).1, Some("b".to_string()));
    assert_eq!(attrs.pair_at(1).0, "title");
    assert_eq!(attrs.get(&"class".to_string()), Some(&Some("b".to_string())));
    assert_eq!(attrs.get(&"missing".to_string()), None);
}

#[test]
fn attrs_value_presence_matters_to_get() {
    let mut attrs = Attrs::new();
    attrs.set("disabled".to_string(), None);
    assert_eq!(attrs.get(&"disabled".to_string()), Some(&None));
}

#[test]
fn append_element_builds_command() {
    let cmd = append_element("parent", "<b id=\"z\"></b>");
    assert_eq!(
        cmd,
        Command::AppendChild {
            parent_id: "parent".to_string(),
            markup: "<b id=\"z\"></b>".to_string(),
        }
    );
}
