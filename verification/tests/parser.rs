use saba_core::error::Error;
use saba_core::renderer::dom::node::{Element, ElementKind, Node, NodeKind, Window};
use saba_core::renderer::html::attribute::Attribute;
use saba_core::renderer::html::parser::HtmlParser;
use saba_core::renderer::html::token::HtmlTokenizer;

fn parse(html: &str) -> Window {
    let t = HtmlTokenizer::new(html.to_string());
    HtmlParser::new(t).construct_tree().expect("Failed to construct the tree")
}

fn node(window: &Window, id: usize) -> &Node {
    window.get(id).expect("Failed to get a node of the tree")
}

fn element(tag: &str, attributes: Vec<Attribute>) -> NodeKind {
    NodeKind::Element(Element::new(tag, attributes))
}

#[test]
fn test_empty() {
    let window = parse("");
    let expected = Node::new(NodeKind::Document);

    assert_eq!(&expected, node(&window, window.document()));
    assert_eq!(1, window.len());
}

#[test]
fn parser_test_body() {
    let window = parse("<html><head></head><body></body></html>");
    let document = window.document();
    assert_eq!(&NodeKind::Document, node(&window, document).kind());

    let html = window.first_child(document).expect("Failed to get a first child of document");
    assert_eq!(&element("html", Vec::new()), node(&window, html).kind());

    let head = window.first_child(html).expect("Failed to get a first child of html");
    assert_eq!(&element("head", Vec::new()), node(&window, head).kind());

    let body = window.next_sibling(head).expect("Failed to get a next sibling of head");
    assert_eq!(&element("body", Vec::new()), node(&window, body).kind());

    assert_eq!(None, window.first_child(head));
    assert_eq!(None, window.first_child(body));
    assert_eq!(4, window.len());
}

#[test]
fn test_text() {
    let window = parse("<html><head></head><body>text</body></html>");
    let document = window.document();
    assert_eq!(&NodeKind::Document, node(&window, document).kind());

    let html = window.first_child(document).expect("Failed to get a first child of document");
    assert_eq!(&element("html", Vec::new()), node(&window, html).kind());

    let head = window.first_child(html).expect("Failed to get a first child of html");
    let body = window.next_sibling(head).expect("Failed to get a next sibling of head");
    assert_eq!(&element("body", Vec::new()), node(&window, body).kind());

    let text = window.first_child(body).expect("Failed to get a first child of body");
    assert_eq!(&NodeKind::Text("text".to_string()), node(&window, text).kind());
}

#[test]
fn test_multiple_nodes() {
    let window = parse("<html><head></head><body><p><a foo=bar>text</a></p></body></html>");
    let document = window.document();

    let html = window.first_child(document).expect("Failed to get a first child of document");
    let head = window.first_child(html).expect("Failed to get a first child of html");
    let body = window.next_sibling(head).expect("Failed to get a next sibling of head");
    assert_eq!(&element("body", Vec::new()), node(&window, body).kind());

    let p = window.first_child(body).expect("Failed to get a first child of body");
    assert_eq!(&element("p", Vec::new()), node(&window, p).kind());

    let mut attr = Attribute::new();
    "foo".chars().for_each(|c| attr.add_char(c, true));
    "bar".chars().for_each(|c| attr.add_char(c, false));
    let a = window.first_child(p).expect("Failed to get a first child of p");
    assert_eq!(&element("a", vec![attr]), node(&window, a).kind());

    let text = window.first_child(a).expect("Failed to get a first child of a");
    assert_eq!(&NodeKind::Text("text".to_string()), node(&window, text).kind());
}

fn attribute(name: &str, value: &str) -> Attribute {
    let mut attribute = Attribute::new();
    name.chars().for_each(|c| attribute.add_char(c, true));
    value.chars().for_each(|c| attribute.add_char(c, false));
    attribute
}

fn outline_of(window: &Window, id: usize, out: &mut String) {
    match node(window, id).kind() {
        NodeKind::Document => out.push_str("#document"),
        NodeKind::Element(element) => {
            out.push_str(&element.tag());
            for a in element.attributes() {
                out.push_str(&format!("[{}={}]", a.name(), a.value()));
            }
        }
        NodeKind::Text(text) => out.push_str(&format!("{:?}", text)),
    }
    let mut child = window.first_child(id);
    let mut walked = Vec::new();
    if child.is_some() {
        out.push('(');
        let mut previous = None;
        while let Some(c) = child {
            if previous.is_some() {
                out.push(',');
            }
            assert_eq!(Some(id), window.parent(c));
            assert_eq!(previous, window.previous_sibling(c));
            assert!(id < c);
            outline_of(window, c, out);
            walked.push(c);
            previous = child;
            child = window.next_sibling(c);
        }
        assert_eq!(previous, window.last_child(id));
        out.push(')');
    } else {
        assert_eq!(None, window.last_child(id));
    }
    assert_eq!(walked, window.children(id));
    let expected: Vec<usize> =
        (0..window.len()).filter(|c| window.parent(*c) == Some(id)).collect();
    assert_eq!(expected, walked);
}

/// The tree written on one line: each node, and its children in brackets.
fn outline(html: &str) -> String {
    let window = parse(html);
    let mut out = String::new();
    outline_of(&window, window.document(), &mut out);
    assert_eq!(None, window.parent(window.document()));
    assert_eq!(None, window.get(window.len()));
    out
}

fn failure(html: &str) -> Error {
    let t = HtmlTokenizer::new(html.to_string());
    HtmlParser::new(t).construct_tree().expect_err("the tree was constructed")
}

#[test]
fn documents_with_their_own_frame_get_no_other() {
    assert_eq!("#document(html(head,body))", outline("<html><head></head><body></body></html>"));
    assert_eq!(
        "#document(html[lang=en](head[a=b],body[class=c](p(\"x\"))))",
        outline("<html lang=en><head a=b></head><body class=c><p>x</p></body></html>")
    );
    assert_eq!(
        "#document(html(head,body(p,h1)))",
        outline("<html><head></head><body><html><head><body><p></p><h1>")
    );
}

#[test]
fn missing_frame_is_implied() {
    assert_eq!("#document(html(head,body(p(\"a\"))))", outline("<p>a</p>"));
    assert_eq!("#document(html(head,body))", outline("<body>"));
    assert_eq!("#document(html(head))", outline("<head>"));
    assert_eq!("#document(html)", outline("<html>"));
    assert_eq!("#document(html(head))", outline("</p>"));
    assert_eq!("#document(html(head,body[id=x]))", outline("<html><body id=x>"));
}

#[test]
fn characters_before_the_first_tag_are_dropped() {
    assert_eq!("#document(html(head))", outline("abc"));
    assert_eq!("#document", outline("  \n"));
    assert_eq!("#document(html(head,body(p(\"x\"))))", outline(" abc <p>x</p>"));
    assert_eq!(
        "#document(html(head,body(\"x\")))",
        outline("<!DOCTYPE html><html><head></head><body>x</body></html>")
    );
}

#[test]
fn whitespace_between_the_frame_tags_is_dropped() {
    assert_eq!(
        "#document(html(head,body(\"x\")))",
        outline("<html> \n<head> \n</head> \n<body> \nx</body> </html>\n")
    );
}

#[test]
fn whitespace_before_text_is_dropped_and_kept_inside_it() {
    assert_eq!("#document(html(head,body(\"a b \")))", outline("<body>  a b </body>"));
    assert_eq!("#document(html(head,body(p(\"a\\n\"))))", outline("<body><p>\na\n</p>"));
}

#[test]
fn text_in_the_head_is_dropped() {
    assert_eq!("#document(html(head,body))", outline("<html><head>abc</head><body>"));
}

#[test]
fn style_and_script_hold_their_text() {
    assert_eq!(
        "#document(html(head(style[media=all](\"a { b }\"),script(\"x=1\")),body))",
        outline("<html><head><style media=all>a { b }</style><script>x=1</script></head><body>")
    );
}

#[test]
fn end_tag_of_another_kind_leads_back_into_the_head() {
    assert_eq!(
        "#document(html(head(style(\"a\")),body))",
        outline("<html><head><style>a</script>b</style></head><body>")
    );
}

#[test]
fn tag_inside_a_style_is_read_in_the_head() {
    assert_eq!(
        "#document(html(head(style(\"a\"(script(\"b\")))),body))",
        outline("<head><style>a<script>b</style></head><body>")
    );
    assert_eq!(
        "#document(html(head(style(\"a\")),body(p)))",
        outline("<head><style>a<p>")
    );
}

#[test]
fn style_is_closed_by_its_own_end_tag_only() {
    assert_eq!(
        "#document(html(head(style(\"a\"(script(\"b\"(script(\"c\")))))),body))",
        outline("<head><style>a<script>b</style><script>c</script></head><body>")
    );
    assert_eq!(
        "#document(html(head(style(\"a\"(script(\"b\"),script(\"c\")))),body))",
        outline("<head><style>a<script>b</script><script>c</script></head><body>")
    );
    assert_eq!(
        "#document(html(head(script(\"a\"),style(\"b\")),body))",
        outline("<head><script>a</script><style>b</style></head><body>")
    );
}

#[test]
fn unclosed_element_takes_the_next_as_its_child() {
    assert_eq!("#document(html(head,body(p(p(a)))))", outline("<body><p><p><a>"));
    assert_eq!("#document(html(head,body(p,p)))", outline("<body><p></p><p></p>"));
}

#[test]
fn element_behind_open_text_is_a_child_of_the_text() {
    assert_eq!("#document(html(head,body(\"a\"(p(\"b\")))))", outline("<body>a<p>b</p>"));
}

#[test]
fn end_tag_closes_what_is_open_inside() {
    assert_eq!(
        "#document(html(head,body(p(a(\"x\")),h1(\"y\"))))",
        outline("<body><p><a>x</p><h1>y</h1>")
    );
}

#[test]
fn children_are_linked_in_their_order() {
    let window = parse("<body><p></p><h1></h1><h2></h2><a></a>");
    let html = window.first_child(window.document()).unwrap();
    let head = window.first_child(html).unwrap();
    let body = window.last_child(html).unwrap();
    assert_eq!(Some(body), window.next_sibling(head));
    assert_eq!(Some(head), window.previous_sibling(body));
    let p = window.first_child(body).unwrap();
    let h1 = window.next_sibling(p).unwrap();
    let h2 = window.next_sibling(h1).unwrap();
    let a = window.next_sibling(h2).unwrap();
    assert_eq!(None, window.next_sibling(a));
    assert_eq!(Some(a), window.last_child(body));
    assert_eq!(Some(h2), window.previous_sibling(a));
    assert_eq!(Some(h1), window.previous_sibling(h2));
    assert_eq!(Some(p), window.previous_sibling(h1));
    assert_eq!(None, window.previous_sibling(p));
    assert_eq!(Some(ElementKind::H2), window.element_kind(h2));
    assert_eq!(Some(body), node(&window, h2).parent());
    assert_eq!(Some(h1), node(&window, h2).previous_sibling());
    assert_eq!(Some(a), node(&window, h2).next_sibling());
    assert_eq!(None, node(&window, h2).first_child());
    assert_eq!(None, node(&window, h2).last_child());
    assert_eq!(Some(ElementKind::H2), node(&window, h2).element_kind());
    assert!(!window.is_text(h2));
    assert_eq!(8, window.len());
}

#[test]
fn unknown_tags_are_passed_over() {
    assert_eq!(
        "#document(html(head,body(\"ab\")))",
        outline("<html><head><meta x=y></head><body><div>a</div><br/>b</body></html>")
    );
}

#[test]
fn end_of_body_and_html() {
    assert_eq!(
        "#document(html(head,body(p)))",
        outline("<html><head></head><body><p></body></html>")
    );
    assert_eq!(
        "#document(html(head,body),p)",
        outline("<html><head></head><body></html><p>")
    );
    assert_eq!(
        "#document(html(head,body,p))",
        outline("<html><head></head><body></body></body><p>")
    );
    assert_eq!(
        "#document(html(head,body(p)))",
        outline("<html><head></head><body><p></html></body>")
    );
    assert_eq!(
        "#document(html(head,body))",
        outline("<html><head></head><body></body></html>text")
    );
}

#[test]
fn end_tag_of_an_element_that_is_not_open_fails() {
    assert_eq!(Error::StructuralInvariant(ElementKind::P), failure("<body></p>"));
    assert_eq!(Error::StructuralInvariant(ElementKind::H1), failure("<p></h1>"));
    assert_eq!(Error::StructuralInvariant(ElementKind::H2), failure("<body><p></p></h2>"));
    assert_eq!(Error::StructuralInvariant(ElementKind::A), failure("<p><a></p></a>"));
    assert_eq!(
        Error::StructuralInvariant(ElementKind::P),
        failure("<html><head></head><body></body></html></p>")
    );
}

#[test]
fn attributes_of_the_tag_are_those_of_the_element() {
    let window = parse("<body><a href=/x id=y>");
    let a = window.len() - 1;
    assert_eq!(
        &element("a", vec![attribute("href", "/x"), attribute("id", "y")]),
        node(&window, a).kind()
    );
    assert_ne!(&element("a", vec![attribute("href", "/x")]), node(&window, a).kind());
}

#[test]
fn parser_clone_builds_the_same_tree() {
    let parser = HtmlParser::new(HtmlTokenizer::new("<body><p>a</p>b".to_string()));
    let copy = parser.clone();
    let window = parser.construct_tree().expect("Failed to construct the tree");
    assert_eq!(window, copy.construct_tree().expect("Failed to construct the tree"));
    assert_eq!(7, window.len());
}

#[test]
fn framed_document_with_a_body_gets_no_other_node() {
    for inside in [
        "",
        "text",
        "<p>a<a>b</a></p><h1>c</h1>",
        "<p><h2></p>",
        "a<p>b</p>c",
        "<p><p><a>x > y</a></p></p><h2> </h2>",
        "<a href=x>",
    ] {
        let html = format!("<html><head></head><body>{}</body></html>", inside);
        let window = parse(&html);
        assert_eq!(vec![1], window.children(0), "{:?}", html);
        assert_eq!(vec![2, 3], window.children(1));
        assert_eq!(Vec::<usize>::new(), window.children(2));
        assert_eq!(None, window.next_sibling(1));
        assert_eq!(None, window.next_sibling(3));
        assert_eq!(Some(ElementKind::Html), window.element_kind(1));
        assert_eq!(Some(ElementKind::Head), window.element_kind(2));
        assert_eq!(Some(ElementKind::Body), window.element_kind(3));
        for id in 4..window.len() {
            let kind = window.element_kind(id);
            assert!(kind != Some(ElementKind::Html));
            assert!(kind != Some(ElementKind::Head));
            assert!(kind != Some(ElementKind::Body));
            assert!(window.parent(id).unwrap() >= 3);
        }
    }
}
