use saba_core::renderer::html::attribute::Attribute;
use saba_core::renderer::html::token::{HtmlToken, HtmlTokenizer};

fn tokens(html: &str) -> Vec<HtmlToken> {
    let mut tokenizer = HtmlTokenizer::new(html.to_string());
    let mut found = Vec::new();
    while let Some(token) = tokenizer.next() {
        found.push(token);
        assert!(found.len() <= html.chars().count() + 1);
    }
    assert_eq!(None, tokenizer.next());
    assert_eq!(None, tokenizer.next());
    found
}

fn attribute(name: &str, value: &str) -> Attribute {
    let mut attribute = Attribute::new();
    for c in name.chars() {
        attribute.add_char(c, true);
    }
    for c in value.chars() {
        attribute.add_char(c, false);
    }
    attribute
}

fn start(tag: &str, attributes: Vec<Attribute>) -> HtmlToken {
    HtmlToken::StartTag { tag: tag.to_string(), self_closing: false, attributes }
}

fn self_closing(tag: &str, attributes: Vec<Attribute>) -> HtmlToken {
    HtmlToken::StartTag { tag: tag.to_string(), self_closing: true, attributes }
}

fn end(tag: &str) -> HtmlToken {
    HtmlToken::EndTag { tag: tag.to_string() }
}

#[test]
fn empty_input_is_eof_and_then_nothing() {
    let mut tokenizer = HtmlTokenizer::new(String::new());
    assert_eq!(Some(HtmlToken::Eof), tokenizer.next());
    assert_eq!(None, tokenizer.next());
    assert_eq!(None, tokenizer.next());
}

#[test]
fn text_without_tags_is_its_characters_and_eof() {
    for text in ["a", "ab c", " \n ", "a > b / c = d", "\u{3042}\u{1F600}"] {
        let mut expected: Vec<HtmlToken> = text.chars().map(HtmlToken::Char).collect();
        expected.push(HtmlToken::Eof);
        assert_eq!(expected, tokens(text));
    }
}

#[test]
fn start_and_end_tag() {
    assert_eq!(
        vec![start("body", vec![]), HtmlToken::Char('x'), end("body"), HtmlToken::Eof],
        tokens("<body>x</body>")
    );
}

#[test]
fn attributes_in_the_order_met() {
    assert_eq!(
        vec![
            start("a", vec![attribute("href", "/x?y=1"), attribute("id", "z"),]),
            HtmlToken::Eof
        ],
        tokens("<a href=/x?y=1  id=z>")
    );
}

#[test]
fn attribute_without_value_has_an_empty_value() {
    assert_eq!(
        vec![
            start("p", vec![attribute("hidden", ""), attribute("a", ""), attribute("b", "")]),
            HtmlToken::Eof
        ],
        tokens("<p hidden a= b>")
    );
}

#[test]
fn equals_sign_between_attributes_begins_a_nameless_attribute() {
    assert_eq!(
        vec![
            start("p", vec![attribute("a", ""), attribute("", ""), attribute("b", "")]),
            HtmlToken::Eof
        ],
        tokens("<p a = b>")
    );
    assert_eq!(vec![start("p", vec![attribute("", "v")]), HtmlToken::Eof], tokens("<p =v>"));
}

#[test]
fn quotes_are_characters_of_the_value() {
    assert_eq!(
        vec![start("a", vec![attribute("href", "\"x\"")]), HtmlToken::Eof],
        tokens("<a href=\"x\">")
    );
}

#[test]
fn line_feed_separates_like_a_space() {
    assert_eq!(
        vec![start("a", vec![attribute("b", "c"), attribute("d", "e")]), HtmlToken::Eof],
        tokens("<a\nb=c\nd=e\n>")
    );
}

#[test]
fn self_closing_tag() {
    assert_eq!(vec![self_closing("br", vec![]), HtmlToken::Eof], tokens("<br/>"));
    assert_eq!(vec![self_closing("br", vec![]), HtmlToken::Eof], tokens("<br />"));
    assert_eq!(
        vec![self_closing("img", vec![attribute("src", "")]), HtmlToken::Eof],
        tokens("<img src/>")
    );
}

#[test]
fn slash_inside_a_value_is_a_character_of_it() {
    assert_eq!(
        vec![start("a", vec![attribute("href", "x/")]), HtmlToken::Eof],
        tokens("<a href=x/>")
    );
}

#[test]
fn slash_that_closes_nothing_falls_back_to_attributes() {
    assert_eq!(
        vec![start("p", vec![attribute("x", "1")]), HtmlToken::Eof],
        tokens("<p/x=1>")
    );
    assert_eq!(vec![self_closing("p", vec![]), HtmlToken::Eof], tokens("<p/ //>"));
}

#[test]
fn end_tag_keeps_its_name_only() {
    assert_eq!(vec![end("p"), HtmlToken::Eof], tokens("</p class=x/>"));
    assert_eq!(vec![end(""), HtmlToken::Eof], tokens("</>"));
    assert_eq!(vec![end("1"), HtmlToken::Eof], tokens("</1>"));
}

#[test]
fn names_are_kept_as_written() {
    assert_eq!(
        vec![start("P", vec![attribute("Class", "X")]), end("P"), HtmlToken::Eof],
        tokens("<P Class=X></P>")
    );
}

#[test]
fn end_of_input_inside_a_tag_is_eof() {
    for html in ["<", "</", "<a", "</a", "<a ", "<a b", "<a b=", "<a b=c", "<a/", "<a b=c "] {
        assert_eq!(vec![HtmlToken::Eof], tokens(html), "input {:?}", html);
    }
    assert_eq!(vec![HtmlToken::Char('x'), HtmlToken::Eof], tokens("x<p"));
}

#[test]
fn less_than_before_no_letter_is_dropped() {
    assert_eq!(vec![HtmlToken::Char('3'), HtmlToken::Eof], tokens("<3"));
    assert_eq!(
        vec![HtmlToken::Char(' '), HtmlToken::Char('a'), HtmlToken::Char('>'), HtmlToken::Eof],
        tokens("< a>")
    );
    assert_eq!(vec![start("a", vec![]), HtmlToken::Eof], tokens("<<a>"));
    assert_eq!(
        vec![
            HtmlToken::Char('!'),
            HtmlToken::Char('x'),
            HtmlToken::Char('>'),
            HtmlToken::Eof
        ],
        tokens("<!x>")
    );
}

#[test]
fn tag_name_runs_to_whitespace_slash_or_greater_than() {
    assert_eq!(
        vec![start("a=b\tc", vec![attribute("d", "")]), HtmlToken::Eof],
        tokens("<a=b\tc d>")
    );
}

#[test]
fn token_clone_is_equal() {
    for token in tokens("<a b=c>x</a>") {
        assert_eq!(token, token.clone());
    }
}

#[test]
fn tokenizer_clone_goes_on_from_the_same_place() {
    let mut tokenizer = HtmlTokenizer::new("<a b=c>x</a>".to_string());
    assert_eq!(Some(start("a", vec![attribute("b", "c")])), tokenizer.next());
    let mut copy = tokenizer.clone();
    loop {
        let token = tokenizer.next();
        assert_eq!(token, copy.next());
        if token.is_none() {
            break;
        }
    }
    let mut late = tokenizer.clone();
    assert_eq!(None, late.next());
}
