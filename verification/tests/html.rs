use fastwarc::char_data::{CharacterData, CharacterDataNode};
use fastwarc::dom_tokens::{DOMTokenListInterface, DOMTokenListMut};
use fastwarc::html::{collapse_whitespace, wrap_index, CSSParserError, DOMError, HTMLParserError, TraverseAction};

fn list(l: &DOMTokenListMut) -> Vec<String> {
    l.values()
}

#[test]
fn test_callback_traversal() {}

#[test]
fn test_class_list() {
    // The `class` attribute of `<a href="https://example.com" class="bar baz">`.
    let mut a = DOMTokenListMut::new("bar baz".to_string());

    assert_eq!(a.value(), "bar baz");
    assert_eq!(a.len(), 2);
    assert_eq!(list(&a), ["bar", "baz"]);
    assert_ne!(list(&a), ["bar"]);
    assert_ne!(list(&a), ["baz", "bar"]);
    assert_ne!(list(&a), ["x"]);

    a.add(&["abc"]);
    assert_eq!(a.len(), 3);
    assert_eq!(list(&a), ["bar", "baz", "abc"]);
    assert_eq!(a.value(), "bar baz abc");

    a.remove(&["baz"]);
    assert_eq!(list(&a), ["bar", "abc"]);
    assert_eq!(a.value(), "bar abc");

    assert!(!a.toggle("bar", None));
    assert_eq!(list(&a), ["abc"]);
    assert!(a.toggle("bar", None));
    assert_eq!(list(&a), ["abc", "bar"]);
    assert!(a.toggle("bar", Some(true)));
    assert_eq!(list(&a), ["abc", "bar"]);
    assert!(a.toggle("baz", Some(true)));
    assert_eq!(list(&a), ["abc", "bar", "baz"]);
    assert!(!a.toggle("baz", Some(false)));
    assert_eq!(list(&a), ["abc", "bar"]);
    assert!(!a.toggle("baz", Some(false)));
    assert_eq!(list(&a), ["abc", "bar"]);

    assert!(a.replace("abc", "def"));
    assert_eq!(list(&a), ["def", "bar"]);
    assert!(!a.replace("uvw", "xyz"));
    assert_eq!(list(&a), ["def", "bar"]);
}

#[test]
fn token_list_normalizes_whitespace_and_duplicates() {
    let a = DOMTokenListMut::new("  a\tb \n a  c ".to_string());
    assert_eq!(list(&a), ["a", "b", "c"]);
    assert_eq!(a.item(1).as_deref(), Some("b"));
    assert_eq!(a.item(3), None);
    assert!(a.contains("c"));
    assert!(!a.contains("d"));
    assert_eq!(a.into_value(), "  a\tb \n a  c ");

    let empty = DOMTokenListMut::new(String::new());
    assert_eq!(empty.len(), 0);
}

#[test]
fn edits_rewrite_the_attribute() {
    let mut a = DOMTokenListMut::new(" x  y x ".to_string());
    a.add(&["y", "z", "z"]);
    assert_eq!(a.value(), "x y z");
    a.remove(&["q"]);
    assert_eq!(a.value(), "x y z");
    assert!(a.replace("x", "z"));
    assert_eq!(a.value(), "z y z");
    assert_eq!(list(&a), ["z", "y"]);
    // Toggling twice restores presence, not position.
    assert!(!a.toggle("z", None));
    assert!(a.toggle("z", None));
    assert_eq!(list(&a), ["y", "z"]);
}

#[test]
fn collapse_whitespace_runs() {
    assert_eq!(collapse_whitespace("a \t\n b  c"), "a b c");
    assert_eq!(collapse_whitespace("  lead"), " lead");
    assert_eq!(collapse_whitespace("trail \r\n"), "trail ");
    assert_eq!(collapse_whitespace(""), "");
    assert_eq!(collapse_whitespace("caf\u{e9}\u{a0}x"), "caf\u{e9}\u{a0}x");
}

#[test]
fn wrap_index_values() {
    assert_eq!(wrap_index(5, 3), 3);
    assert_eq!(wrap_index(5, 7), 7);
    assert_eq!(wrap_index(5, -5), 0);
    assert_eq!(wrap_index(5, -10), 0);
    assert_eq!(wrap_index(5, -1), usize::MAX);
    assert_eq!(wrap_index(5, -7), usize::MAX - 1);
    assert_eq!(wrap_index(0, 2), 2);
}

#[test]
fn error_messages() {
    assert_eq!(HTMLParserError::new("bad input").message(), "HTML parser error: bad input.");
    assert_eq!(CSSParserError::new("bad selector").message(), "CSS parser error: bad selector");
    assert_eq!(DOMError::new("no node").message(), "DOM error: no node");
    assert_ne!(TraverseAction::Continue, TraverseAction::Stop);
    assert_eq!(TraverseAction::Error, TraverseAction::Error);
}

#[test]
fn character_data_reads() {
    let node = CharacterDataNode::new(Some("héllo world".to_string()));
    assert_eq!(node.len(), 12);
    assert_eq!(node.data().as_deref(), Some("héllo world"));
    assert_eq!(node.substring_data(1, 4).as_deref(), Some("éllo"));
    assert_eq!(node.substring_data(6, 100).as_deref(), Some("world"));
    assert_eq!(node.substring_data(50, 2).as_deref(), Some(""));
    let empty = CharacterDataNode::new(None);
    assert_eq!(empty.len(), 0);
    assert_eq!(empty.substring_data(0, 1), None);
}

#[test]
fn character_data_edits() {
    let mut node = CharacterDataNode::new(Some("abcdef".to_string()));
    node.insert_data(2, "XY");
    assert_eq!(node.data().as_deref(), Some("abXYcdef"));
    node.insert_data(8, "end");
    assert_eq!(node.data().as_deref(), Some("abXYcdef"));
    node.delete_data(2, 2);
    assert_eq!(node.data().as_deref(), Some("abcdef"));
    node.delete_data(4, 6);
    assert_eq!(node.data().as_deref(), Some("abcd"));
    node.replace_data(1, 2, "ZZZ");
    assert_eq!(node.data().as_deref(), Some("aZZZd"));
    node.replace_data(0, 0, "<");
    assert_eq!(node.data().as_deref(), Some("<aZZZd"));
    node.append_data("!");
    assert_eq!(node.data().as_deref(), Some("<aZZZd!"));
    node.set_data("x");
    assert_eq!(node.data().as_deref(), Some("x"));

    let mut empty = CharacterDataNode::new(None);
    empty.insert_data(0, "a");
    empty.delete_data(0, 1);
    assert_eq!(empty.data(), None);
    empty.append_data("");
    assert_eq!(empty.data(), None);
    empty.append_data("new");
    assert_eq!(empty.data().as_deref(), Some("new"));
}
