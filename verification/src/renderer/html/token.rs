//! The tokenizer: a state machine that reads an input character by
//! character and hands out one token at a time.
//!
//! `step` says what one character does in each state, `next_token` which
//! token begins at a place of the input, and `tokens_of` what the whole
//! input is cut into. `HtmlTokenizer::next` hands out these tokens.

use crate::renderer::html::attribute::{
    attribute_views, clone_attributes, Attribute, AttributeView,
};
use crate::text::{blank, is_blank, is_letter, letter, part, to_chars};
use vstd::prelude::*;

verus! {

/// What a token is to the contracts.
pub ghost enum Token {
    StartTag { tag: Seq<char>, self_closing: bool, attributes: Seq<AttributeView> },
    EndTag { tag: Seq<char> },
    Char(char),
    Eof,
}

/// One lexical unit of the input.
#[derive(Debug, PartialEq, Eq)]
pub enum HtmlToken {
    /// An opening tag with its attributes in the order in which they were met.
    StartTag { tag: String, self_closing: bool, attributes: Vec<Attribute> },
    /// A closing tag.
    EndTag { tag: String },
    /// One character met outside a tag.
    Char(char),
    /// The end of the input; no token follows it.
    Eof,
}

impl View for HtmlToken {
    type V = Token;

    open spec fn view(&self) -> Token {
        match self {
            HtmlToken::StartTag { tag, self_closing, attributes } => Token::StartTag {
                tag: tag@,
                self_closing: *self_closing,
                attributes: attribute_views(attributes@),
            },
            HtmlToken::EndTag { tag } => Token::EndTag { tag: tag@ },
            HtmlToken::Char(c) => Token::Char(*c),
            HtmlToken::Eof => Token::Eof,
        }
    }
}

impl Clone for HtmlToken {
    fn clone(&self) -> (copy: Self)
        ensures
            copy@ == self@,
    {
        match self {
            HtmlToken::StartTag { tag, self_closing, attributes } => HtmlToken::StartTag {
                tag: tag.clone(),
                self_closing: *self_closing,
                attributes: clone_attributes(attributes),
            },
            HtmlToken::EndTag { tag } => HtmlToken::EndTag { tag: tag.clone() },
            HtmlToken::Char(c) => HtmlToken::Char(*c),
            HtmlToken::Eof => HtmlToken::Eof,
        }
    }
}

/// The states of the tokenizer.
#[derive(Debug, Clone, Copy, PartialEq, Eq, Structural)]
pub enum State {
    /// Outside a tag.
    Data,
    /// Just behind a `<`.
    TagOpen,
    /// In the name of a tag.
    TagName,
    /// Behind the name of a tag or behind an attribute.
    BeforeAttributeName,
    /// In the name of an attribute.
    AttributeName,
    /// Behind the `=` of an attribute.
    AttributeValue,
    /// Behind a `/` inside a tag.
    SelfClosingStartTag,
}

/// A tag that is being read. The last attribute of the list is the one that
/// is being filled.
pub ghost struct TagView {
    pub is_start: bool,
    pub tag: Seq<char>,
    pub self_closing: bool,
    pub attributes: Seq<AttributeView>,
}

impl TagView {
    /// A tag of which nothing has been read yet.
    pub open spec fn opened(is_start: bool) -> TagView {
        TagView { is_start, tag: Seq::empty(), self_closing: false, attributes: Seq::empty() }
    }

    /// The tag with `c` appended to its name.
    pub open spec fn name_char(self, c: char) -> TagView {
        TagView { tag: self.tag.push(c), ..self }
    }

    /// The tag with a new, empty attribute at the end of its list.
    pub open spec fn new_attribute(self) -> TagView {
        TagView {
            attributes: self.attributes.push(
                AttributeView { name: Seq::empty(), value: Seq::empty() },
            ),
            ..self
        }
    }

    /// The tag with `c` appended to the name (`is_name`) or to the value of
    /// its last attribute. A tag without attributes stays as it is.
    pub open spec fn attribute_char(self, c: char, is_name: bool) -> TagView {
        if self.attributes.len() == 0 {
            self
        } else {
            let last = self.attributes.last();
            let filled = if is_name {
                AttributeView { name: last.name.push(c), value: last.value }
            } else {
                AttributeView { name: last.name, value: last.value.push(c) }
            };
            TagView {
                attributes: self.attributes.update(self.attributes.len() - 1, filled),
                ..self
            }
        }
    }

    /// The tag marked as self-closing.
    pub open spec fn closing_itself(self) -> TagView {
        TagView { self_closing: true, ..self }
    }

    /// The token that the finished tag makes. An end tag keeps its name only.
    pub open spec fn token(self) -> Token {
        if self.is_start {
            Token::StartTag {
                tag: self.tag,
                self_closing: self.self_closing,
                attributes: self.attributes,
            }
        } else {
            Token::EndTag { tag: self.tag }
        }
    }
}

/// What one character does to the tokenizer: it moves to a state, with the
/// tag as read so far, or it completes a token.
pub ghost enum Step {
    Continue(State, TagView),
    Emit(Token),
}

/// Outside a tag, `<` opens one and every other character is a token.
pub open spec fn on_data(tag: TagView, c: char) -> Step {
    if c == '<' {
        Step::Continue(State::TagOpen, tag)
    } else {
        Step::Emit(Token::Char(c))
    }
}

/// Behind `<`, a `/` begins an end tag and a letter begins the name of a
/// start tag. Before any other character the `<` is dropped and the
/// character is read as data.
pub open spec fn on_tag_open(tag: TagView, c: char) -> Step {
    if c == '/' {
        Step::Continue(State::TagName, TagView::opened(false))
    } else if is_letter(c) {
        Step::Continue(State::TagName, TagView::opened(true).name_char(c))
    } else {
        on_data(tag, c)
    }
}

/// The name of a tag runs up to whitespace, `/` or `>`.
pub open spec fn on_tag_name(tag: TagView, c: char) -> Step {
    if is_blank(c) {
        Step::Continue(State::BeforeAttributeName, tag)
    } else if c == '/' {
        Step::Continue(State::SelfClosingStartTag, tag)
    } else if c == '>' {
        Step::Emit(tag.token())
    } else {
        Step::Continue(State::TagName, tag.name_char(c))
    }
}

/// The name of an attribute runs up to whitespace, `/`, `>` or `=`. Only
/// behind `=` follows a value; otherwise the value stays empty.
pub open spec fn on_attribute_name(tag: TagView, c: char) -> Step {
    if is_blank(c) {
        Step::Continue(State::BeforeAttributeName, tag)
    } else if c == '/' {
        Step::Continue(State::SelfClosingStartTag, tag)
    } else if c == '>' {
        Step::Emit(tag.token())
    } else if c == '=' {
        Step::Continue(State::AttributeValue, tag)
    } else {
        Step::Continue(State::AttributeName, tag.attribute_char(c, true))
    }
}

/// Between attributes whitespace is skipped; `/` and `>` act as behind a
/// name; any other character begins a new attribute and is read as the
/// first character of its name.
pub open spec fn on_before_attribute_name(tag: TagView, c: char) -> Step {
    if is_blank(c) {
        Step::Continue(State::BeforeAttributeName, tag)
    } else if c == '/' {
        Step::Continue(State::SelfClosingStartTag, tag)
    } else if c == '>' {
        Step::Emit(tag.token())
    } else {
        on_attribute_name(tag.new_attribute(), c)
    }
}

/// The value of an attribute runs up to whitespace or `>`. No character is
/// special inside it: a quote is a character of the value.
pub open spec fn on_attribute_value(tag: TagView, c: char) -> Step {
    if is_blank(c) {
        Step::Continue(State::BeforeAttributeName, tag)
    } else if c == '>' {
        Step::Emit(tag.token())
    } else {
        Step::Continue(State::AttributeValue, tag.attribute_char(c, false))
    }
}

/// Behind `/`, a `>` completes the tag as self-closing; any other character
/// is read as if it stood between attributes.
pub open spec fn on_self_closing(tag: TagView, c: char) -> Step {
    if c == '>' {
        Step::Emit(tag.closing_itself().token())
    } else {
        on_before_attribute_name(tag, c)
    }
}

/// The transition of the tokenizer in `state` on the character `c`.
pub open spec fn step(state: State, tag: TagView, c: char) -> Step {
    match state {
        State::Data => on_data(tag, c),
        State::TagOpen => on_tag_open(tag, c),
        State::TagName => on_tag_name(tag, c),
        State::BeforeAttributeName => on_before_attribute_name(tag, c),
        State::AttributeName => on_attribute_name(tag, c),
        State::AttributeValue => on_attribute_value(tag, c),
        State::SelfClosingStartTag => on_self_closing(tag, c),
    }
}

/// The token that is completed when the tokenizer reads `input` from `pos`
/// on in `state`, and the position behind it. Where the input ends before a
/// token is complete, the token is `Eof`.
pub open spec fn scan(input: Seq<char>, pos: int, state: State, tag: TagView) -> (Token, int)
    decreases input.len() - pos,
{
    if pos < 0 || pos >= input.len() {
        (Token::Eof, pos)
    } else {
        match step(state, tag, input[pos]) {
            Step::Emit(token) => (token, pos + 1),
            Step::Continue(next, read) => scan(input, pos + 1, next, read),
        }
    }
}

/// The token that begins at `pos`, and the position behind it.
pub open spec fn next_token(input: Seq<char>, pos: int) -> (Token, int) {
    scan(input, pos, State::Data, TagView::opened(true))
}

/// A token other than `Eof` ends behind the position at which it began, and
/// within the input.
pub proof fn lemma_scan_advances(input: Seq<char>, pos: int, state: State, tag: TagView)
    requires
        0 <= pos <= input.len(),
    ensures
        pos <= scan(input, pos, state, tag).1 <= input.len(),
        !(scan(input, pos, state, tag).0 is Eof) ==> pos < scan(input, pos, state, tag).1,
        scan(input, pos, state, tag).0 is Eof ==> scan(input, pos, state, tag).1 == input.len(),
    decreases input.len() - pos,
{
    if pos < input.len() {
        match step(state, tag, input[pos]) {
            Step::Emit(token) => {
                assert(!(token is Eof));
            },
            Step::Continue(next, read) => {
                lemma_scan_advances(input, pos + 1, next, read);
            },
        }
    }
}

/// All tokens of `input` from `pos` on. The last of them is `Eof`.
pub open spec fn tokens_from(input: Seq<char>, pos: int) -> Seq<Token>
    decreases input.len() - pos,
{
    if pos < 0 || pos >= input.len() {
        seq![Token::Eof]
    } else {
        let (token, next) = next_token(input, pos);
        if token is Eof {
            seq![Token::Eof]
        } else {
            proof {
                lemma_scan_advances(input, pos, State::Data, TagView::opened(true));
            }
            seq![token] + tokens_from(input, next)
        }
    }
}

/// The token sequence of a whole input.
pub open spec fn tokens_of(input: Seq<char>) -> Seq<Token> {
    tokens_from(input, 0)
}

/// The token that the character `c` makes outside a tag.
pub open spec fn char_token(c: char) -> Token {
    Token::Char(c)
}

/// The tokens that the characters of `text` make, one for each.
pub open spec fn char_tokens(text: Seq<char>) -> Seq<Token> {
    Seq::new(text.len(), |i: int| char_token(text[i]))
}

/// From any place on, an input without `<` is cut into its characters,
/// with `Eof` behind them.
proof fn lemma_chars_from(input: Seq<char>, pos: int)
    requires
        0 <= pos <= input.len(),
        forall|i: int| 0 <= i < input.len() ==> input[i] != '<',
    ensures
        tokens_from(input, pos) == char_tokens(input.skip(pos)).push(Token::Eof),
    decreases input.len() - pos,
{
    let expected = char_tokens(input.skip(pos)).push(Token::Eof);
    if pos < input.len() {
        lemma_chars_from(input, pos + 1);
        assert(next_token(input, pos) == (Token::Char(input[pos]), pos + 1));
        assert(tokens_from(input, pos) =~= seq![Token::Char(input[pos])] + tokens_from(
            input,
            pos + 1,
        ));
    }
    assert(tokens_from(input, pos) =~= expected);
}

/// An input without `<` is cut into its characters, one token for each in
/// the order of the input, with `Eof` behind them.
pub proof fn lemma_text_without_tags(input: Seq<char>)
    requires
        forall|i: int| 0 <= i < input.len() ==> input[i] != '<',
    ensures
        tokens_of(input) == char_tokens(input).push(Token::Eof),
{
    lemma_chars_from(input, 0);
    assert(input.skip(0) =~= input);
}

/// The tokens of an input end with `Eof`, and `Eof` is nowhere else among
/// them.
pub proof fn lemma_eof_is_last(input: Seq<char>, pos: int)
    ensures
        tokens_from(input, pos).len() > 0,
        forall|i: int|
            0 <= i < tokens_from(input, pos).len() ==> (#[trigger] tokens_from(input, pos)[i] is Eof
                <==> i == tokens_from(input, pos).len() - 1),
    decreases input.len() - pos,
{
    if 0 <= pos < input.len() {
        let (token, next) = next_token(input, pos);
        if !(token is Eof) {
            lemma_scan_advances(input, pos, State::Data, TagView::opened(true));
            lemma_eof_is_last(input, next);
            let rest = tokens_from(input, next);
            assert(tokens_from(input, pos) =~= seq![token] + rest);
            assert forall|i: int| 0 <= i < tokens_from(input, pos).len() implies (
            #[trigger] tokens_from(input, pos)[i] is Eof <==> i == tokens_from(input, pos).len()
                - 1) by {
                if i > 0 {
                    assert(tokens_from(input, pos)[i] == rest[i - 1]);
                }
            }
        }
    }
}

/// Whether `c` can stand in the name of a tag: it is no whitespace, no
/// `/` and no `>`.
pub open spec fn is_name_char(c: char) -> bool {
    !is_blank(c) && c != '/' && c != '>'
}

/// In the name of a tag, characters that can stand in a name are added to
/// the name, up to the `>` that completes the tag.
proof fn lemma_scan_name(input: Seq<char>, pos: int, tag: TagView, rest: Seq<char>)
    requires
        0 <= pos,
        pos + rest.len() < input.len(),
        input.subrange(pos, pos + rest.len()) == rest,
        forall|i: int| 0 <= i < rest.len() ==> is_name_char(#[trigger] rest[i]),
        input[pos + rest.len()] == '>',
    ensures
        scan(input, pos, State::TagName, tag) == ((TagView { tag: tag.tag + rest, ..tag }).token(),
            pos + rest.len() + 1),
    decreases rest.len(),
{
    if rest.len() == 0 {
        assert(tag.tag + rest =~= tag.tag);
    } else {
        let c = input[pos];
        assert(c == rest[0]) by {
            assert(input.subrange(pos, pos + rest.len())[0] == input[pos]);
        }
        assert(is_name_char(rest[0]));
        let tail = rest.drop_first();
        assert(input.subrange(pos + 1, pos + 1 + tail.len()) =~= tail) by {
            assert forall|i: int| 0 <= i < tail.len() implies input[pos + 1 + i] == tail[i] by {
                assert(input.subrange(pos, pos + rest.len())[i + 1] == input[pos + 1 + i]);
            }
        }
        assert forall|i: int| 0 <= i < tail.len() implies is_name_char(#[trigger] tail[i]) by {
            assert(tail[i] == rest[i + 1]);
        }
        lemma_scan_name(input, pos + 1, tag.name_char(c), tail);
        assert(tag.name_char(c).tag + tail =~= tag.tag + rest);
    }
}

/// Where `<`, a name that begins with a letter, and `>` stand at `pos`,
/// the token there is the start tag of that name, without attributes, and
/// it ends behind the `>`.
pub proof fn lemma_plain_start_tag(input: Seq<char>, pos: int, name: Seq<char>)
    requires
        0 <= pos,
        pos + name.len() + 1 < input.len(),
        input[pos] == '<',
        input.subrange(pos + 1, pos + 1 + name.len()) == name,
        input[pos + 1 + name.len()] == '>',
        name.len() > 0,
        is_letter(name[0]),
        forall|i: int| 0 <= i < name.len() ==> is_name_char(#[trigger] name[i]),
    ensures
        next_token(input, pos) == (
            Token::StartTag { tag: name, self_closing: false, attributes: Seq::empty() },
            pos + name.len() + 2,
        ),
{
    let first = input[pos + 1];
    assert(first == name[0]) by {
        assert(input.subrange(pos + 1, pos + 1 + name.len())[0] == input[pos + 1]);
    }
    let tail = name.drop_first();
    assert(input.subrange(pos + 2, pos + 2 + tail.len()) =~= tail) by {
        assert forall|i: int| 0 <= i < tail.len() implies input[pos + 2 + i] == tail[i] by {
            assert(input.subrange(pos + 1, pos + 1 + name.len())[i + 1] == input[pos + 2 + i]);
        }
    }
    assert forall|i: int| 0 <= i < tail.len() implies is_name_char(#[trigger] tail[i]) by {
        assert(tail[i] == name[i + 1]);
    }
    let begun = TagView::opened(true).name_char(first);
    lemma_scan_name(input, pos + 2, begun, tail);
    assert(begun.tag + tail =~= name);
    assert(scan(input, pos + 1, State::TagOpen, TagView::opened(true)) == scan(
        input,
        pos + 2,
        State::TagName,
        begun,
    ));
}

/// Where `</`, a name and `>` stand at `pos`, the token there is the end
/// tag of that name, and it ends behind the `>`.
pub proof fn lemma_plain_end_tag(input: Seq<char>, pos: int, name: Seq<char>)
    requires
        0 <= pos,
        pos + name.len() + 2 < input.len(),
        input[pos] == '<',
        input[pos + 1] == '/',
        input.subrange(pos + 2, pos + 2 + name.len()) == name,
        input[pos + 2 + name.len()] == '>',
        forall|i: int| 0 <= i < name.len() ==> is_name_char(#[trigger] name[i]),
    ensures
        next_token(input, pos) == (Token::EndTag { tag: name }, pos + name.len() + 3),
{
    let begun = TagView::opened(false);
    lemma_scan_name(input, pos + 2, begun, name);
    assert(begun.tag + name =~= name);
    assert(scan(input, pos + 1, State::TagOpen, TagView::opened(true)) == scan(
        input,
        pos + 2,
        State::TagName,
        begun,
    ));
}

/// Whether `<`, the name `name` and `>` stand in `input` at `pos`.
pub open spec fn start_tag_at(input: Seq<char>, pos: int, name: Seq<char>) -> bool {
    &&& 0 <= pos
    &&& pos + name.len() + 1 < input.len()
    &&& input[pos] == '<'
    &&& input.subrange(pos + 1, pos + 1 + name.len()) == name
    &&& input[pos + 1 + name.len()] == '>'
}

/// Whether `</`, the name `name` and `>` stand in `input` at `pos`.
pub open spec fn end_tag_at(input: Seq<char>, pos: int, name: Seq<char>) -> bool {
    &&& 0 <= pos
    &&& pos + name.len() + 2 < input.len()
    &&& input[pos] == '<'
    &&& input[pos + 1] == '/'
    &&& input.subrange(pos + 2, pos + 2 + name.len()) == name
    &&& input[pos + 2 + name.len()] == '>'
}

/// A token that is no `Eof` is followed by the tokens from its end on.
pub proof fn lemma_tokens_go_on(input: Seq<char>, pos: int)
    requires
        0 <= pos < input.len(),
        !(next_token(input, pos).0 is Eof),
    ensures
        tokens_from(input, pos) == seq![next_token(input, pos).0] + tokens_from(
            input,
            next_token(input, pos).1,
        ),
{
}

/// The tag that the tokenizer is reading.
struct TagBuilder {
    is_start: bool,
    tag: String,
    self_closing: bool,
    attributes: Vec<Attribute>,
}

impl View for TagBuilder {
    type V = TagView;

    closed spec fn view(&self) -> TagView {
        TagView {
            is_start: self.is_start,
            tag: self.tag@,
            self_closing: self.self_closing,
            attributes: attribute_views(self.attributes@),
        }
    }
}

impl TagBuilder {
    fn new(is_start: bool) -> (tag: Self)
        ensures
            tag@ == TagView::opened(is_start),
    {
        let tag = TagBuilder {
            is_start,
            tag: String::new(),
            self_closing: false,
            attributes: Vec::new(),
        };
        assert(tag@.attributes =~= Seq::empty());
        tag
    }

    fn name_char(&mut self, c: char)
        ensures
            final(self)@ == old(self)@.name_char(c),
    {
        self.tag.push(c);
    }

    fn new_attribute(&mut self)
        ensures
            final(self)@ == old(self)@.new_attribute(),
    {
        self.attributes.push(Attribute::new());
        assert(self@.attributes =~= old(self)@.new_attribute().attributes);
    }

    fn attribute_char(&mut self, c: char, is_name: bool)
        ensures
            final(self)@ == old(self)@.attribute_char(c, is_name),
    {
        let n = self.attributes.len();
        if n > 0 {
            self.attributes[n - 1].add_char(c, is_name);
            assert(self@.attributes =~= old(self)@.attribute_char(c, is_name).attributes);
        }
    }

    fn close_itself(&mut self)
        ensures
            final(self)@ == old(self)@.closing_itself(),
    {
        self.self_closing = true;
    }

    fn into_token(self) -> (token: HtmlToken)
        ensures
            token@ == self@.token(),
    {
        if self.is_start {
            HtmlToken::StartTag {
                tag: self.tag,
                self_closing: self.self_closing,
                attributes: self.attributes,
            }
        } else {
            HtmlToken::EndTag { tag: self.tag }
        }
    }
}

/// What the tokenizer does after a character: it goes on in a state, or it
/// hands out the character or the tag that it has read.
enum Next {
    Continue(State),
    EmitChar,
    EmitTag,
}

/// Whether a step agrees with what the tokenizer did: `next`, with the tag
/// `read` in hand, after the character `c`.
spec fn agrees(expected: Step, next: Next, read: TagView, c: char) -> bool {
    match expected {
        Step::Continue(state, tag) => next == Next::Continue(state) && read == tag,
        Step::Emit(token) => if token is Char {
            next is EmitChar && token == Token::Char(c)
        } else {
            next is EmitTag && token == read.token()
        },
    }
}

/// Reads `c` in the state `Data`.
fn data(c: char) -> (next: Next)
    ensures
        forall|tag: TagView| agrees(#[trigger] on_data(tag, c), next, tag, c),
{
    if c == '<' {
        Next::Continue(State::TagOpen)
    } else {
        Next::EmitChar
    }
}

/// Reads `c` in the state `TagOpen`.
fn tag_open(tag: &mut TagBuilder, c: char) -> (next: Next)
    ensures
        agrees(on_tag_open(old(tag)@, c), next, final(tag)@, c),
{
    if c == '/' {
        *tag = TagBuilder::new(false);
        Next::Continue(State::TagName)
    } else if letter(c) {
        *tag = TagBuilder::new(true);
        tag.name_char(c);
        Next::Continue(State::TagName)
    } else {
        data(c)
    }
}

/// Reads `c` in the state `TagName`.
fn tag_name(tag: &mut TagBuilder, c: char) -> (next: Next)
    ensures
        agrees(on_tag_name(old(tag)@, c), next, final(tag)@, c),
{
    if blank(c) {
        Next::Continue(State::BeforeAttributeName)
    } else if c == '/' {
        Next::Continue(State::SelfClosingStartTag)
    } else if c == '>' {
        Next::EmitTag
    } else {
        tag.name_char(c);
        Next::Continue(State::TagName)
    }
}

/// Reads `c` in the state `AttributeName`.
fn attribute_name(tag: &mut TagBuilder, c: char) -> (next: Next)
    ensures
        agrees(on_attribute_name(old(tag)@, c), next, final(tag)@, c),
{
    if blank(c) {
        Next::Continue(State::BeforeAttributeName)
    } else if c == '/' {
        Next::Continue(State::SelfClosingStartTag)
    } else if c == '>' {
        Next::EmitTag
    } else if c == '=' {
        Next::Continue(State::AttributeValue)
    } else {
        tag.attribute_char(c, true);
        Next::Continue(State::AttributeName)
    }
}

/// Reads `c` in the state `BeforeAttributeName`.
fn before_attribute_name(tag: &mut TagBuilder, c: char) -> (next: Next)
    ensures
        agrees(on_before_attribute_name(old(tag)@, c), next, final(tag)@, c),
{
    if blank(c) {
        Next::Continue(State::BeforeAttributeName)
    } else if c == '/' {
        Next::Continue(State::SelfClosingStartTag)
    } else if c == '>' {
        Next::EmitTag
    } else {
        tag.new_attribute();
        attribute_name(tag, c)
    }
}

/// Reads `c` in the state `AttributeValue`.
fn attribute_value(tag: &mut TagBuilder, c: char) -> (next: Next)
    ensures
        agrees(on_attribute_value(old(tag)@, c), next, final(tag)@, c),
{
    if blank(c) {
        Next::Continue(State::BeforeAttributeName)
    } else if c == '>' {
        Next::EmitTag
    } else {
        tag.attribute_char(c, false);
        Next::Continue(State::AttributeValue)
    }
}

/// Reads `c` in the state `SelfClosingStartTag`.
fn self_closing(tag: &mut TagBuilder, c: char) -> (next: Next)
    ensures
        agrees(on_self_closing(old(tag)@, c), next, final(tag)@, c),
{
    if c == '>' {
        tag.close_itself();
        Next::EmitTag
    } else {
        before_attribute_name(tag, c)
    }
}

/// Takes the tokenizer one character further.
fn advance(state: State, tag: &mut TagBuilder, c: char) -> (next: Next)
    ensures
        agrees(step(state, old(tag)@, c), next, final(tag)@, c),
{
    match state {
        State::Data => data(c),
        State::TagOpen => tag_open(tag, c),
        State::TagName => tag_name(tag, c),
        State::BeforeAttributeName => before_attribute_name(tag, c),
        State::AttributeName => attribute_name(tag, c),
        State::AttributeValue => attribute_value(tag, c),
        State::SelfClosingStartTag => self_closing(tag, c),
    }
}

/// Cuts an input into tokens, one at each call of `next`.
#[derive(Debug)]
pub struct HtmlTokenizer {
    input: Vec<char>,
    pos: usize,
    finished: bool,
}

impl View for HtmlTokenizer {
    type V = Seq<Token>;

    /// The tokens that are still to come.
    closed spec fn view(&self) -> Seq<Token> {
        if self.finished {
            Seq::empty()
        } else {
            tokens_from(self.input@, self.pos as int)
        }
    }
}

impl Clone for HtmlTokenizer {
    fn clone(&self) -> (copy: Self)
        ensures
            copy@ == self@,
            copy.input() == self.input(),
            copy.position() == self.position(),
            copy.finished() == self.finished(),
    {
        proof {
            use_type_invariant(self);
        }
        let input = part(&self.input, 0, self.input.len());
        assert(input@ =~= self.input@);
        HtmlTokenizer { input, pos: self.pos, finished: self.finished }
    }
}

impl HtmlTokenizer {
    #[verifier::type_invariant]
    spec fn within_input(self) -> bool {
        self.pos <= self.input.len()
    }

    /// The input that the tokenizer was made from.
    pub closed spec fn input(&self) -> Seq<char> {
        self.input@
    }

    /// The number of characters that have been read.
    pub closed spec fn position(&self) -> int {
        self.pos as int
    }

    /// Whether `Eof` has been handed out.
    pub closed spec fn finished(&self) -> bool {
        self.finished
    }

    /// The tokens to come are those of the input from the position on, and
    /// none once `Eof` has been handed out.
    pub proof fn lemma_view(&self)
        ensures
            self@ == if self.finished() {
                Seq::<Token>::empty()
            } else {
                tokens_from(self.input(), self.position())
            },
    {
    }

    /// A tokenizer at the beginning of `html`.
    pub fn new(html: String) -> (tokenizer: Self)
        ensures
            tokenizer@ == tokens_of(html@),
            tokenizer.input() == html@,
            tokenizer.position() == 0,
            !tokenizer.finished(),
    {
        HtmlTokenizer { input: to_chars(html.as_str()), pos: 0, finished: false }
    }

    /// Hands out the next token: the first of those to come, or `None` when
    /// `Eof` has been handed out before.
    pub fn next(&mut self) -> (token: Option<HtmlToken>)
        ensures
            final(self).input() == old(self).input(),
            old(self)@.len() == 0 ==> token is None && final(self)@ == old(self)@,
            old(self)@.len() > 0 ==> token is Some && token->0@ == old(self)@[0] && final(self)@
                == old(self)@.drop_first(),
            old(self).finished() ==> token is None && final(self).finished(),
            old(self).finished() ==> final(self).position() == old(self).position(),
            !old(self).finished() ==> token is Some && (token->0@, final(self).position())
                == next_token(old(self).input(), old(self).position()) && final(self).finished()
                == (token->0@ is Eof),
    {
        proof {
            use_type_invariant(&*self);
        }
        if self.finished {
            return None;
        }
        let ghost start = self.pos as int;
        proof {
            lemma_scan_advances(self.input@, start, State::Data, TagView::opened(true));
        }
        let mut state = State::Data;
        let mut tag = TagBuilder::new(true);
        loop
            invariant
                self.pos <= self.input.len(),
                !self.finished,
                self.input == old(self).input,
                start == old(self).pos,
                !old(self).finished,
                start <= self.pos,
                start < self.pos || (state == State::Data && tag@ == TagView::opened(true)),
                scan(self.input@, self.pos as int, state, tag@) == next_token(self.input@, start),
            decreases self.input.len() - self.pos,
        {
            if self.pos >= self.input.len() {
                self.finished = true;
                assert(old(self)@ =~= seq![Token::Eof]);
                assert(self@ =~= old(self)@.drop_first());
                return Some(HtmlToken::Eof);
            }
            let c = self.input[self.pos];
            self.pos += 1;
            let next = advance(state, &mut tag, c);
            match next {
                Next::Continue(s) => {
                    state = s;
                },
                Next::EmitChar => {
                    assert(old(self)@ =~= seq![Token::Char(c)] + self@);
                    assert(self@ =~= old(self)@.drop_first());
                    return Some(HtmlToken::Char(c));
                },
                Next::EmitTag => {
                    let token = tag.into_token();
                    assert(old(self)@ =~= seq![token@] + self@);
                    assert(self@ =~= old(self)@.drop_first());
                    return Some(token);
                },
            }
        }
    }
}

} // verus!
