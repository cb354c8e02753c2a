//! The tree API, the renderers and the error taxonomy on concrete values.

use simple_xml::from_string;
use simple_xml::new;
use simple_xml::Error;
use simple_xml::ParseError;

#[test]
fn attribute_upsert() {
    let mut n = new("a", String::new());
    assert_eq!(n.add_attribute("k", "v1"), None);
    assert_eq!(n.add_attribute("k", "v2"), Some(String::from("v1")));
    assert_eq!(n.get_attribute("k"), Some(&String::from("v2")));
    assert_eq!(n.attributes.len(), 1);
}

#[test]
fn lookup_duality() {
    let mut n = new("parent", String::new());
    n.add_new_node("child", String::from("text"));

    assert!(n.get_nodes("child").is_some());
    assert!(n.try_get_nodes("child").is_ok());

    assert!(n.get_nodes("absent").is_none());
    match n.try_get_nodes("absent") {
        Err(Error::TagNotFound(p, t)) => {
            assert_eq!(p, "parent");
            assert_eq!(t, "absent");
        }
        _ => panic!("expected TagNotFound"),
    }

    assert!(n.get_attribute("missing").is_none());
    match n.try_get_attribute("missing") {
        Err(Error::AttributeNotFound(p, k)) => {
            assert_eq!(p, "parent");
            assert_eq!(k, "missing");
        }
        _ => panic!("expected AttributeNotFound"),
    }
}

#[test]
fn self_closing_idempotence() {
    let short = from_string("<a/>").expect("self-closing form must parse");
    let long = from_string("<a></a>").expect("container form must parse");
    for n in [&short, &long] {
        assert_eq!(n.tag, "a");
        assert_eq!(n.content, "");
        assert!(n.attributes.is_empty());
        assert_eq!(n.to_string(), "<a/>");
    }
    assert_eq!(short.to_string_pretty(), "<a/>\n");
}

#[test]
fn error_locality_mismatched_closing_tag() {
    match from_string("<a><b></a>") {
        Err(Error::ParseError(ParseError::MissingClosingTag(t), line)) => {
            assert_eq!(t, "b");
            assert_eq!(line, 0);
        }
        other => panic!("expected MissingClosingTag(\"b\"), got {:?}", other),
    }
}

#[test]
fn quoting_aware_attribute_split() {
    let root = from_string("<a k=\"x y\"/>").expect("quoted attribute must parse");
    assert_eq!(root.attributes.len(), 1);
    assert_eq!(root.get_attribute("k"), Some(&String::from("x y")));

    let split = simple_xml::split_unquoted::SplitUnquoted::split("a k=\"x y\"");
    assert_eq!(split.len(), 2);
    assert_eq!(split.token(0), "a");
    assert_eq!(split.token(1), "k=\"x y\"");
}

#[test]
fn declaration_skip() {
    let root = from_string("<?xml version=\"1.0\"?><root/>").expect("declaration must be skipped");
    assert_eq!(root.tag, "root");
    assert_eq!(root.content, "");
    assert!(root.attributes.is_empty());
    assert_eq!(root.to_string(), "<root/>");

    // A document holding only a declaration has no root: the sentinel comes back.
    let none = from_string("<?xml version=\"1.0\"?>").expect("declaration-only input must succeed");
    assert_eq!(none.tag, "");
}

#[test]
fn round_trip_without_duplicate_tags() {
    let doc = "<r a=\"1\"><x>t1</x><y><z k=\"v\"/></y>hello</r>";
    let first = from_string(doc).expect("first parse");
    let rendered = first.to_string();
    let second = from_string(&rendered).expect("re-parse of rendered text");

    assert_eq!(second.tag, first.tag);
    assert_eq!(second.content, first.content);
    assert_eq!(second.get_attribute("a"), first.get_attribute("a"));
    let x1 = &first.get_nodes("x").unwrap()[0];
    let x2 = &second.get_nodes("x").unwrap()[0];
    assert_eq!(x2.content, x1.content);
    let y1 = &first.get_nodes("y").unwrap()[0];
    let y2 = &second.get_nodes("y").unwrap()[0];
    let z1 = &y1.get_nodes("z").unwrap()[0];
    let z2 = &y2.get_nodes("z").unwrap()[0];
    assert_eq!(z2.get_attribute("k"), z1.get_attribute("k"));
    // Rendering is a function of the tree, so equal trees render equally.
    assert_eq!(second.to_string(), rendered);
}

#[test]
fn parse_error_variants() {
    match from_string("<a") {
        Err(Error::ParseError(ParseError::MissingClosingDelimiter, line)) => {
            assert_eq!(line, 0);
        }
        other => panic!("expected MissingClosingDelimiter, got {:?}", other),
    }
    match from_string("<a b/>") {
        Err(Error::ParseError(ParseError::MissingAttributeValue(t), _)) => {
            assert_eq!(t, "b");
        }
        other => panic!("expected MissingAttributeValue, got {:?}", other),
    }
    match from_string("<a k=v/>") {
        Err(Error::ParseError(ParseError::MissingQuotes(t), _)) => {
            assert_eq!(t, "k=v");
        }
        other => panic!("expected MissingQuotes, got {:?}", other),
    }
    match from_string("junk <a/>") {
        Err(Error::ContentOutsideRoot) => {}
        other => panic!("expected ContentOutsideRoot, got {:?}", other),
    }
}

#[test]
fn error_line_numbers_count_newlines() {
    match from_string("<a>\n<b>\n\n</a>") {
        Err(Error::ParseError(ParseError::MissingClosingTag(t), line)) => {
            assert_eq!(t, "b");
            assert_eq!(line, 1);
        }
        other => panic!("expected MissingClosingTag(\"b\"), got {:?}", other),
    }
}

#[test]
fn build_and_render_pretty() {
    let mut player = new("player", String::new());
    player.add_new_node("health", String::from("50"));
    player.add_new_node("name", String::from("Tim Roberts"));
    let mut balance = new("balance", String::from("5"));
    balance.add_attribute("currency", "pound");
    player.add_node(balance);

    assert_eq!(
        player.to_string(),
        "<player><health>50</health><name>Tim Roberts</name><balance currency=\"pound\">5</balance></player>"
    );
    assert_eq!(
        player.to_string_pretty(),
        "<player>\n    <health>50</health>\n    <name>Tim Roberts</name>\n    <balance currency=\"pound\">5</balance>\n</player>\n"
    );
}

#[test]
fn last_duplicate_attribute_wins() {
    let root = from_string("<a k=\"1\" k=\"2\"/>").expect("duplicate keys must parse");
    assert_eq!(root.attributes.len(), 1);
    assert_eq!(root.get_attribute("k"), Some(&String::from("2")));
}

#[test]
fn new_filled_builds_whole_node() {
    let attrs = vec![(String::from("k"), String::from("v"))];
    let children = vec![(
        String::from("c"),
        vec![new("c", String::from("body"))],
    )];
    let n = simple_xml::new_filled("t", attrs, String::from("txt"), children);
    assert_eq!(n.tag, "t");
    assert_eq!(n.get_attribute("k"), Some(&String::from("v")));
    assert_eq!(n.get_nodes("c").unwrap()[0].content, "body");
    assert_eq!(n.content, "txt");
}
