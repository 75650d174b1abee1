use saba_core::renderer::dom::node::{Element, ElementKind, Node, NodeKind, Window};
use saba_core::renderer::html::attribute::Attribute;
use saba_core::renderer::html::parser::{HtmlParser, InsertionMode};
use saba_core::renderer::html::token::HtmlTokenizer;

#[test]
fn known_tags_have_their_kind() {
    let known = [
        ("html", ElementKind::Html),
        ("head", ElementKind::Head),
        ("style", ElementKind::Style),
        ("script", ElementKind::Script),
        ("body", ElementKind::Body),
        ("p", ElementKind::P),
        ("h1", ElementKind::H1),
        ("h2", ElementKind::H2),
        ("a", ElementKind::A),
    ];
    for (tag, kind) in known {
        assert_eq!(Some(kind), ElementKind::from_tag(tag));
        assert_eq!(Some(kind), Element::new(tag, Vec::new()).kind());
    }
}

#[test]
fn other_tags_have_no_kind() {
    for tag in ["", "div", "HTML", "html ", "h3", "pp", "ht", "scrip", "scripts", "\u{3042}"] {
        assert_eq!(None, ElementKind::from_tag(tag), "tag {:?}", tag);
        assert_eq!(None, Element::new(tag, Vec::new()).kind());
    }
}

#[test]
fn attribute_is_filled_by_characters() {
    let mut attribute = Attribute::new();
    assert_eq!("", attribute.name());
    assert_eq!("", attribute.value());
    attribute.add_char('a', true);
    attribute.add_char('1', false);
    attribute.add_char('b', true);
    attribute.add_char('2', false);
    assert_eq!("ab", attribute.name());
    assert_eq!("12", attribute.value());
    assert_eq!(attribute, attribute.clone());
    assert_ne!(attribute, Attribute::new());
}

#[test]
fn element_holds_tag_and_attributes() {
    let mut lang = Attribute::new();
    lang.add_char('l', true);
    lang.add_char('e', false);
    let element = Element::new("html", vec![lang.clone()]);
    assert_eq!("html", element.tag());
    assert_eq!(vec![lang], element.attributes());
    assert_eq!(element, element.clone());
    assert_ne!(element, Element::new("html", Vec::new()));
}

#[test]
fn new_node_has_no_links() {
    let node = Node::new(NodeKind::Text("x".to_string()));
    assert_eq!(&NodeKind::Text("x".to_string()), node.kind());
    assert_eq!(None, node.element_kind());
    assert_eq!(None, node.parent());
    assert_eq!(None, node.first_child());
    assert_eq!(None, node.last_child());
    assert_eq!(None, node.previous_sibling());
    assert_eq!(None, node.next_sibling());
    assert_eq!(None, Node::new(NodeKind::Document).element_kind());
    assert_eq!(
        None,
        Node::new(NodeKind::Element(Element::new("div", Vec::new()))).element_kind()
    );
    assert_eq!(
        Some(ElementKind::P),
        Node::new(NodeKind::Element(Element::new("p", Vec::new()))).element_kind()
    );
}

#[test]
fn links_are_set_one_by_one() {
    let mut node = Node::new(NodeKind::Document);
    node.set_parent(Some(1));
    node.set_first_child(Some(2));
    node.set_last_child(Some(3));
    node.set_previous_sibling(Some(4));
    node.set_next_sibling(Some(5));
    assert_eq!(Some(1), node.parent());
    assert_eq!(Some(2), node.first_child());
    assert_eq!(Some(3), node.last_child());
    assert_eq!(Some(4), node.previous_sibling());
    assert_eq!(Some(5), node.next_sibling());
    node.set_last_child(None);
    assert_eq!(None, node.last_child());
    assert_eq!(Some(2), node.first_child());
    assert_eq!(node, node.clone());
}

#[test]
fn push_char_extends_a_text_only() {
    let mut text = Node::new(NodeKind::Text("a".to_string()));
    text.push_char('b');
    assert_eq!(&NodeKind::Text("ab".to_string()), text.kind());
    let mut document = Node::new(NodeKind::Document);
    document.push_char('b');
    assert_eq!(&NodeKind::Document, document.kind());
}

#[test]
fn new_window_holds_a_bare_document() {
    let window = Window::new();
    assert_eq!(1, window.len());
    assert_eq!(0, window.document());
    assert_eq!(Some(&Node::new(NodeKind::Document)), window.get(0));
    assert_eq!(None, window.get(1));
    assert_eq!(None, window.first_child(0));
    assert_eq!(None, window.first_child(7));
    assert_eq!(None, window.element_kind(0));
}

#[test]
fn window_of_a_document_is_read_by_its_links() {
    let tokenizer = HtmlTokenizer::new("<body>a<p>b</p><a>".to_string());
    let window = HtmlParser::new(tokenizer).construct_tree().unwrap();
    let (html, head, body, a, p, b, link) = (1, 2, 3, 4, 5, 6, 7);
    assert_eq!(8, window.len());
    assert_eq!(vec![html], window.children(0));
    assert_eq!(vec![head, body], window.children(html));
    assert_eq!(vec![a], window.children(body));
    assert_eq!(vec![p, link], window.children(a));
    assert_eq!(vec![b], window.children(p));
    assert_eq!(Vec::<usize>::new(), window.children(b));
    assert_eq!(Vec::<usize>::new(), window.children(8));
    assert_eq!(Some(p), window.first_child(a));
    assert_eq!(Some(link), window.last_child(a));
    assert_eq!(Some(link), window.next_sibling(p));
    assert_eq!(Some(p), window.previous_sibling(link));
    assert_eq!(Some(a), window.parent(link));
    assert_eq!(&NodeKind::Text("a".to_string()), window.get(a).unwrap().kind());
    assert!(window.is_text(a));
    assert!(window.is_text(b));
    assert!(!window.is_text(p));
    assert!(!window.is_text(9));
    assert_eq!(Some(ElementKind::P), window.element_kind(p));
    assert_eq!(Some(ElementKind::A), window.element_kind(link));
    assert_eq!(None, window.element_kind(a));
    assert_eq!(None, window.element_kind(9));
    assert_eq!(window, window.clone());
    assert_ne!(window, Window::new());
}

#[test]
fn insertion_modes_are_distinct() {
    assert_eq!(InsertionMode::Initial, InsertionMode::Initial);
    assert_ne!(InsertionMode::InBody, InsertionMode::AfterBody);
}
