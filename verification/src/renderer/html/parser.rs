//! The tree constructor: a state machine over the tokens of a document
//! that builds its tree.
//!
//! `Machine` is the tree constructor as a value. `Machine::dispatch` says
//! what one token does in each mode and `Machine::run` what a sequence of
//! tokens leads to. `HtmlParser` does the same on an arena of nodes.

use crate::error::Error;
use crate::renderer::dom::node::{
    kind_of_tag, well_formed, Element, ElementKind, ElementView, NodeKindView, TreeNode, Window,
};
use crate::renderer::html::attribute::{
    attribute_views, clone_attributes, Attribute, AttributeView,
};
use crate::renderer::html::token::{HtmlToken, HtmlTokenizer, Token};
use crate::text::{blank, is_blank};
use vstd::prelude::*;

verus! {

/// The modes of the tree constructor.
#[derive(Debug, Copy, Clone, PartialEq, Eq, Structural)]
pub enum InsertionMode {
    Initial,
    BeforeHtml,
    BeforeHead,
    InHead,
    AfterHead,
    InBody,
    Text,
    AfterBody,
    AfterAfterBody,
}

/// The tree constructor as a value: the tree built so far, the stack of
/// open nodes with the innermost last, the mode, and the mode to return to
/// from `Text`.
pub ghost struct Machine {
    pub tree: Seq<TreeNode>,
    pub stack: Seq<int>,
    pub mode: InsertionMode,
    pub original: InsertionMode,
}

/// What one token does to the tree constructor.
pub ghost enum Outcome {
    /// The token is used up.
    Consumed(Machine),
    /// The token is to be read once more, in the new mode.
    Reprocess(Machine),
    /// The input has ended: the tree is complete.
    Finished,
    /// An element of this kind was to be closed and none is open.
    Failed(ElementKind),
}

impl Machine {
    /// The tree constructor before the first token: a document without
    /// children and no open node.
    pub open spec fn initial() -> Machine {
        Machine {
            tree: seq![TreeNode { kind: NodeKindView::Document, parent: None }],
            stack: Seq::empty(),
            mode: InsertionMode::Initial,
            original: InsertionMode::Initial,
        }
    }

    /// The open nodes are nodes of the tree, and `Text` returns to another
    /// mode.
    pub open spec fn wf(self) -> bool {
        &&& well_formed(self.tree)
        &&& forall|i: int| 0 <= i < self.stack.len() ==> 0 <= #[trigger] self.stack[i] < self.tree.len()
        &&& self.mode is Text ==> !(self.original is Text)
    }

    /// In the mode `mode`.
    pub open spec fn with_mode(self, mode: InsertionMode) -> Machine {
        Machine { mode, ..self }
    }

    /// The node that takes the next child: the innermost open node, or the
    /// document where no node is open.
    pub open spec fn current(self) -> int {
        if self.stack.len() == 0 {
            0
        } else {
            self.stack.last()
        }
    }

    /// The kind of the open node at place `i` of the stack.
    pub open spec fn kind_at(self, i: int) -> Option<ElementKind> {
        self.tree[self.stack[i]].kind.element_kind()
    }

    /// Whether an element of kind `kind` is open.
    pub open spec fn contains(self, kind: ElementKind) -> bool {
        exists|i: int| 0 <= i < self.stack.len() && #[trigger] self.kind_at(i) == Some(kind)
    }

    /// Whether the innermost open node is an element of kind `kind`.
    pub open spec fn current_is(self, kind: ElementKind) -> bool {
        self.stack.len() > 0 && self.kind_at(self.stack.len() - 1) == Some(kind)
    }

    /// Without the innermost open node.
    pub open spec fn pop(self) -> Machine {
        Machine { stack: self.stack.drop_last(), ..self }
    }

    /// Without the innermost open node, if that is an element of kind
    /// `kind`.
    pub open spec fn pop_current(self, kind: ElementKind) -> Machine {
        if self.current_is(kind) {
            self.pop()
        } else {
            self
        }
    }

    /// Without the open nodes from the innermost one down to the first
    /// element of kind `kind`, that one included. Where no such element is
    /// open, no node stays open.
    pub open spec fn pop_until(self, kind: ElementKind) -> Machine
        decreases self.stack.len(),
    {
        if self.stack.len() == 0 {
            self
        } else if self.current_is(kind) {
            self.pop()
        } else {
            self.pop().pop_until(kind)
        }
    }

    /// With a new element as the last child of the current node; the
    /// element is open.
    pub open spec fn insert_element(
        self,
        tag: Seq<char>,
        attributes: Seq<AttributeView>,
    ) -> Machine {
        Machine {
            tree: self.tree.push(
                TreeNode {
                    kind: NodeKindView::Element(ElementView { tag, attributes }),
                    parent: Some(self.current()),
                },
            ),
            stack: self.stack.push(self.tree.len() as int),
            ..self
        }
    }

    /// With the character `c` put into the tree. Where no node is open, it
    /// is dropped. Where the current node is a text, it is appended to that
    /// text. Otherwise whitespace is dropped, and any other character
    /// becomes a new text, the last child of the current node, and that
    /// text is open.
    pub open spec fn insert_char(self, c: char) -> Machine {
        if self.stack.len() == 0 {
            self
        } else {
            let current = self.stack.last();
            if self.tree[current].kind is Text {
                Machine {
                    tree: self.tree.update(
                        current,
                        TreeNode {
                            kind: self.tree[current].kind.with_char(c),
                            parent: self.tree[current].parent,
                        },
                    ),
                    ..self
                }
            } else if is_blank(c) {
                self
            } else {
                Machine {
                    tree: self.tree.push(
                        TreeNode { kind: NodeKindView::Text(seq![c]), parent: Some(current) },
                    ),
                    stack: self.stack.push(self.tree.len() as int),
                    ..self
                }
            }
        }
    }

    /// Closes the innermost open element of kind `kind`, with the nodes
    /// that are open inside it; fails with the kind where no such element
    /// is open.
    pub open spec fn closing(self, kind: ElementKind) -> Result<Machine, ElementKind> {
        if self.contains(kind) {
            Ok(self.pop_until(kind))
        } else {
            Err(kind)
        }
    }

    /// Closes the innermost open element of kind `kind` and goes to `mode`;
    /// fails where no such element is open. The token is used up if
    /// `consume` holds.
    pub open spec fn close(self, kind: ElementKind, mode: InsertionMode, consume: bool) -> Outcome {
        match self.closing(kind) {
            Err(missed) => Outcome::Failed(missed),
            Ok(closed) => if consume {
                Outcome::Consumed(closed.with_mode(mode))
            } else {
                Outcome::Reprocess(closed.with_mode(mode))
            },
        }
    }

    /// At the beginning nothing is done with a token: it is read in
    /// `BeforeHtml`.
    pub open spec fn on_initial(self, token: Token) -> Outcome {
        match token {
            Token::Eof => Outcome::Finished,
            _ => Outcome::Reprocess(self.with_mode(InsertionMode::BeforeHtml)),
        }
    }

    /// Waits for `<html>`; whitespace is passed over. Before any other
    /// token an `html` element without attributes is made, and the token is
    /// read in the next mode. So it is in `BeforeHead` and `AfterHead`.
    pub open spec fn on_before_html(self, token: Token) -> Outcome {
        self.waiting_for(token, ElementKind::Html, "html"@, InsertionMode::BeforeHead, false)
    }

    /// Waits for `<head>`.
    pub open spec fn on_before_head(self, token: Token) -> Outcome {
        self.waiting_for(token, ElementKind::Head, "head"@, InsertionMode::InHead, false)
    }

    /// Waits for `<body>`; whitespace goes into the tree.
    pub open spec fn on_after_head(self, token: Token) -> Outcome {
        self.waiting_for(token, ElementKind::Body, "body"@, InsertionMode::InBody, true)
    }

    /// Waits for the start tag of kind `kind`: the tag is inserted with its
    /// attributes and used up. Whitespace is used up, and inserted first if
    /// `keep_blank` holds. The end of the input ends the work. Before any
    /// other token an element `tag` without attributes is inserted, and the
    /// token is kept. Both insertions lead to the mode `next`.
    pub open spec fn waiting_for(
        self,
        token: Token,
        kind: ElementKind,
        tag: Seq<char>,
        next: InsertionMode,
        keep_blank: bool,
    ) -> Outcome {
        let implied = Outcome::Reprocess(self.insert_element(tag, Seq::empty()).with_mode(next));
        match token {
            Token::Char(c) => if !is_blank(c) {
                implied
            } else if keep_blank {
                Outcome::Consumed(self.insert_char(c))
            } else {
                Outcome::Consumed(self)
            },
            Token::StartTag { tag: found, attributes, .. } => if kind_of_tag(found) == Some(kind) {
                Outcome::Consumed(self.insert_element(found, attributes).with_mode(next))
            } else {
                implied
            },
            Token::EndTag { .. } => implied,
            Token::Eof => Outcome::Finished,
        }
    }

    /// In the head: whitespace goes into the tree; `<style>` and `<script>`
    /// are inserted and lead to `Text`, which will return here; any other
    /// start tag of a known kind closes the head and is read again in
    /// `AfterHead`; `</head>` closes the head. Every other token is passed
    /// over.
    pub open spec fn on_in_head(self, token: Token) -> Outcome {
        match token {
            Token::Char(c) => if is_blank(c) {
                Outcome::Consumed(self.insert_char(c))
            } else {
                Outcome::Consumed(self)
            },
            Token::StartTag { tag, attributes, .. } => match kind_of_tag(tag) {
                Some(ElementKind::Style) | Some(ElementKind::Script) => Outcome::Consumed(
                    Machine {
                        mode: InsertionMode::Text,
                        original: self.mode,
                        ..self.insert_element(tag, attributes)
                    },
                ),
                Some(_) => self.close(ElementKind::Head, InsertionMode::AfterHead, false),
                None => Outcome::Consumed(self),
            },
            Token::EndTag { tag } => if kind_of_tag(tag) == Some(ElementKind::Head) {
                self.close(ElementKind::Head, InsertionMode::AfterHead, true)
            } else {
                Outcome::Consumed(self)
            },
            Token::Eof => Outcome::Finished,
        }
    }

    /// In the body: characters go into the tree; `<p>`, `<h1>`, `<h2>` and
    /// `<a>` are inserted, and their end tags close the innermost element
    /// of their kind; `</body>` closes the body if it is open and leads to
    /// `AfterBody` in any case; `</html>` on an open body as the current
    /// node closes it, and the `html` element under it, and is read again
    /// in `AfterBody`. Every other tag is passed over.
    pub open spec fn on_in_body(self, token: Token) -> Outcome {
        match token {
            Token::Char(c) => Outcome::Consumed(self.insert_char(c)),
            Token::StartTag { tag, attributes, .. } => match kind_of_tag(tag) {
                Some(ElementKind::P) | Some(ElementKind::H1) | Some(ElementKind::H2) | Some(
                    ElementKind::A,
                ) => Outcome::Consumed(self.insert_element(tag, attributes)),
                _ => Outcome::Consumed(self),
            },
            Token::EndTag { tag } => match kind_of_tag(tag) {
                Some(ElementKind::Body) => if self.contains(ElementKind::Body) {
                    Outcome::Consumed(
                        self.pop_until(ElementKind::Body).with_mode(InsertionMode::AfterBody),
                    )
                } else {
                    Outcome::Consumed(self.with_mode(InsertionMode::AfterBody))
                },
                Some(ElementKind::Html) => if self.current_is(ElementKind::Body) {
                    Outcome::Reprocess(
                        self.pop().pop_current(ElementKind::Html).with_mode(
                            InsertionMode::AfterBody,
                        ),
                    )
                } else {
                    Outcome::Consumed(self)
                },
                Some(ElementKind::P) => self.close(ElementKind::P, self.mode, true),
                Some(ElementKind::H1) => self.close(ElementKind::H1, self.mode, true),
                Some(ElementKind::H2) => self.close(ElementKind::H2, self.mode, true),
                Some(ElementKind::A) => self.close(ElementKind::A, self.mode, true),
                _ => Outcome::Consumed(self),
            },
            Token::Eof => Outcome::Finished,
        }
    }

    /// The kind of the innermost open node that is no text. In the mode
    /// `Text` it is the element that led into the mode: above it only its
    /// text is open.
    pub open spec fn innermost_element(self) -> Option<ElementKind>
        decreases self.stack.len(),
    {
        if self.stack.len() == 0 {
            None
        } else if self.tree[self.stack.last()].kind is Text {
            self.pop().innermost_element()
        } else {
            self.kind_at(self.stack.len() - 1)
        }
    }

    /// The end tag of kind `kind` in the mode `Text`: where the element
    /// that led into the mode is of this kind, it is closed, and the
    /// tag is used up; where it is not, the tag is kept. Both lead back to
    /// the mode before.
    pub open spec fn leave_text(self, kind: ElementKind) -> Outcome {
        if self.innermost_element() == Some(kind) {
            Outcome::Consumed(self.pop_until(kind).with_mode(self.original))
        } else {
            Outcome::Reprocess(self.with_mode(self.original))
        }
    }

    /// In the text of a style or a script: characters go into the tree;
    /// `</style>` and `</script>` close the element that led into the
    /// mode, if it is of their kind. Any other tag is read again in the
    /// mode before.
    pub open spec fn on_text(self, token: Token) -> Outcome {
        match token {
            Token::Char(c) => Outcome::Consumed(self.insert_char(c)),
            Token::StartTag { .. } => Outcome::Reprocess(self.with_mode(self.original)),
            Token::EndTag { tag } => match kind_of_tag(tag) {
                Some(ElementKind::Style) => self.leave_text(ElementKind::Style),
                Some(ElementKind::Script) => self.leave_text(ElementKind::Script),
                _ => Outcome::Reprocess(self.with_mode(self.original)),
            },
            Token::Eof => Outcome::Finished,
        }
    }

    /// Behind the body: characters are passed over and `</html>` leads to
    /// `AfterAfterBody`. Any tag but `</html>` is read again in `InBody`.
    pub open spec fn on_after_body(self, token: Token) -> Outcome {
        match token {
            Token::Char(_) => Outcome::Consumed(self),
            Token::StartTag { .. } => Outcome::Reprocess(self.with_mode(InsertionMode::InBody)),
            Token::EndTag { tag } => if kind_of_tag(tag) == Some(ElementKind::Html) {
                Outcome::Consumed(self.with_mode(InsertionMode::AfterAfterBody))
            } else {
                Outcome::Reprocess(self.with_mode(InsertionMode::InBody))
            },
            Token::Eof => Outcome::Finished,
        }
    }

    /// Behind `</html>`: characters are passed over. Any tag is read again
    /// in `InBody`.
    pub open spec fn on_after_after_body(self, token: Token) -> Outcome {
        match token {
            Token::Char(_) => Outcome::Consumed(self),
            Token::Eof => Outcome::Finished,
            _ => Outcome::Reprocess(self.with_mode(InsertionMode::InBody)),
        }
    }

    /// What `token` does in the mode that the tree constructor is in.
    pub open spec fn dispatch(self, token: Token) -> Outcome {
        match self.mode {
            InsertionMode::Initial => self.on_initial(token),
            InsertionMode::BeforeHtml => self.on_before_html(token),
            InsertionMode::BeforeHead => self.on_before_head(token),
            InsertionMode::InHead => self.on_in_head(token),
            InsertionMode::AfterHead => self.on_after_head(token),
            InsertionMode::InBody => self.on_in_body(token),
            InsertionMode::Text => self.on_text(token),
            InsertionMode::AfterBody => self.on_after_body(token),
            InsertionMode::AfterAfterBody => self.on_after_after_body(token),
        }
    }

    /// The tree constructor after all of `tokens`, or the kind of the
    /// element that could not be closed. The work ends at `Eof`, and where
    /// the tokens end.
    pub open spec fn run(self, tokens: Seq<Token>) -> Result<Machine, ElementKind>
        decreases tokens.len(), rank(self.mode, tokens[0]),
        when self.mode is Text ==> !(self.original is Text)
    {
        if tokens.len() == 0 {
            Ok(self)
        } else {
            match self.dispatch(tokens[0]) {
                Outcome::Consumed(next) => next.run(tokens.drop_first()),
                Outcome::Reprocess(next) => next.run(tokens),
                Outcome::Finished => Ok(self),
                Outcome::Failed(kind) => Err(kind),
            }
        }
    }
}

/// A measure that falls whenever a token is read again: no token is read
/// again without end.
pub open spec fn rank(mode: InsertionMode, token: Token) -> nat {
    match mode {
        InsertionMode::Text => 9,
        InsertionMode::Initial => 8,
        InsertionMode::BeforeHtml => 7,
        InsertionMode::BeforeHead => 6,
        InsertionMode::InHead => 5,
        InsertionMode::AfterHead => 4,
        InsertionMode::AfterAfterBody => 3,
        InsertionMode::InBody => if token is EndTag && kind_of_tag(token->EndTag_tag) == Some(
            ElementKind::Html,
        ) {
            2
        } else {
            1
        },
        InsertionMode::AfterBody => if token is EndTag && kind_of_tag(token->EndTag_tag) == Some(
            ElementKind::Html,
        ) {
            1
        } else {
            2
        },
    }
}

/// The stack of open nodes as the contracts see it.
spec fn indices(stack: Seq<usize>) -> Seq<int> {
    Seq::new(stack.len(), |i: int| stack[i] as int)
}

/// What the tree constructor did with a token.
enum Flow {
    Consumed,
    Reprocess,
    Finished,
    Failed(Error),
}

/// Whether the tree constructor did what was expected of it: it went from
/// `before` to `after` and reported `flow`.
spec fn follows(expected: Outcome, flow: Flow, before: Machine, after: Machine) -> bool {
    match expected {
        Outcome::Consumed(next) => flow is Consumed && after == next,
        Outcome::Reprocess(next) => flow is Reprocess && after == next,
        Outcome::Finished => flow is Finished && after == before,
        Outcome::Failed(kind) => flow == Flow::Failed(Error::StructuralInvariant(kind)),
    }
}

/// Builds the tree of a document from the tokens of a tokenizer.
#[derive(Debug)]
pub struct HtmlParser {
    window: Window,
    mode: InsertionMode,
    original_insertion_mode: InsertionMode,
    stack_of_open_elements: Vec<usize>,
    t: HtmlTokenizer,
}

impl View for HtmlParser {
    type V = Machine;

    closed spec fn view(&self) -> Machine {
        Machine {
            tree: self.window@,
            stack: indices(self.stack_of_open_elements@),
            mode: self.mode,
            original: self.original_insertion_mode,
        }
    }
}

impl Clone for HtmlParser {
    fn clone(&self) -> (copy: Self)
        ensures
            copy@ == self@,
            copy.tokens() == self.tokens(),
            self.wf() ==> copy.wf(),
    {
        let mut stack: Vec<usize> = Vec::new();
        let mut i: usize = 0;
        while i < self.stack_of_open_elements.len()
            invariant
                i <= self.stack_of_open_elements.len(),
                stack@ == self.stack_of_open_elements@.take(i as int),
            decreases self.stack_of_open_elements.len() - i,
        {
            stack.push(self.stack_of_open_elements[i]);
            assert(self.stack_of_open_elements@.take(i + 1) =~= self.stack_of_open_elements@.take(
                i as int,
            ).push(self.stack_of_open_elements@[i as int]));
            i += 1;
        }
        assert(stack@ =~= self.stack_of_open_elements@);
        HtmlParser {
            window: self.window.clone(),
            mode: self.mode,
            original_insertion_mode: self.original_insertion_mode,
            stack_of_open_elements: stack,
            t: self.t.clone(),
        }
    }
}

impl HtmlParser {
    /// Whether the tree is well formed, with links that name what they
    /// say, and the open nodes are nodes of it.
    pub closed spec fn wf(&self) -> bool {
        self.window.wf() && self@.wf()
    }

    /// The tokens that the tokenizer has not handed out yet.
    pub closed spec fn tokens(&self) -> Seq<Token> {
        self.t@
    }

    /// A tree constructor that has read nothing of what `t` will hand out.
    pub fn new(t: HtmlTokenizer) -> (parser: Self)
        ensures
            parser.wf(),
            parser@ == Machine::initial(),
            parser.tokens() == t@,
    {
        let parser = HtmlParser {
            window: Window::new(),
            mode: InsertionMode::Initial,
            original_insertion_mode: InsertionMode::Initial,
            stack_of_open_elements: Vec::new(),
            t,
        };
        proof {
            parser.window.lemma_tree();
            assert(parser@.stack =~= Seq::empty());
        }
        parser
    }

    /// Reads the tokens to their end and hands out the tree. Fails where an
    /// end tag closes an element of which none is open.
    pub fn construct_tree(self) -> (result: Result<Window, Error>)
        requires
            self.wf(),
        ensures
            match self@.run(self.tokens()) {
                Ok(last) => result matches Ok(window) && window.wf() && window@ == last.tree,
                Err(kind) => result == Err::<Window, Error>(Error::StructuralInvariant(kind)),
            },
    {
        let mut parser = self;
        let mut token = parser.t.next();
        let ghost mut pending = self.t@;
        assert(pending =~= match token {
            Some(found) => seq![found@] + parser.t@,
            None => Seq::<Token>::empty(),
        });
        loop
            invariant
                parser.wf(),
                pending == match token {
                    Some(found) => seq![found@] + parser.t@,
                    None => Seq::<Token>::empty(),
                },
                parser@.run(pending) == self@.run(self.tokens()),
            decreases pending.len(), rank(parser.mode, pending[0]),
        {
            match &token {
                None => {
                    return Ok(parser.window);
                },
                Some(found) => {
                    let ghost before = parser@;
                    assert(pending[0] == found@);
                    assert(pending.drop_first() =~= parser.t@);
                    match parser.step(found) {
                        Flow::Consumed => {
                            token = parser.t.next();
                            proof {
                                pending = pending.drop_first();
                                assert(pending =~= match token {
                                    Some(found) => seq![found@] + parser.t@,
                                    None => Seq::<Token>::empty(),
                                });
                            }
                        },
                        Flow::Reprocess => {
                            proof {
                                lemma_reprocess_ranks(before, pending[0]);
                            }
                        },
                        Flow::Finished => {
                            return Ok(parser.window);
                        },
                        Flow::Failed(error) => {
                            return Err(error);
                        },
                    }
                },
            }
        }
    }

    /// Lets the mode that the tree constructor is in read `token`.
    fn step(&mut self, token: &HtmlToken) -> (flow: Flow)
        requires
            old(self).wf(),
        ensures
            final(self).wf(),
            final(self).tokens() == old(self).tokens(),
            follows(old(self)@.dispatch(token@), flow, old(self)@, final(self)@),
    {
        match self.mode {
            InsertionMode::Initial => self.initial(token),
            InsertionMode::BeforeHtml => self.waiting_for(
                token,
                ElementKind::Html,
                "html",
                InsertionMode::BeforeHead,
                false,
            ),
            InsertionMode::BeforeHead => self.waiting_for(
                token,
                ElementKind::Head,
                "head",
                InsertionMode::InHead,
                false,
            ),
            InsertionMode::InHead => self.in_head(token),
            InsertionMode::AfterHead => self.waiting_for(
                token,
                ElementKind::Body,
                "body",
                InsertionMode::InBody,
                true,
            ),
            InsertionMode::InBody => self.in_body(token),
            InsertionMode::Text => self.text(token),
            InsertionMode::AfterBody => self.after_body(token),
            InsertionMode::AfterAfterBody => self.after_after_body(token),
        }
    }

    /// Reads `token` in the mode `Initial`.
    fn initial(&mut self, token: &HtmlToken) -> (flow: Flow)
        requires
            old(self).wf(),
        ensures
            final(self).wf(),
            final(self).tokens() == old(self).tokens(),
            follows(old(self)@.on_initial(token@), flow, old(self)@, final(self)@),
    {
        match token {
            HtmlToken::Eof => Flow::Finished,
            _ => {
                self.mode = InsertionMode::BeforeHtml;
                Flow::Reprocess
            },
        }
    }

    /// Reads `token` in a mode that waits for the start tag of kind `kind`:
    /// `BeforeHtml`, `BeforeHead` or `AfterHead`.
    fn waiting_for(
        &mut self,
        token: &HtmlToken,
        kind: ElementKind,
        tag: &str,
        next: InsertionMode,
        keep_blank: bool,
    ) -> (flow: Flow)
        requires
            old(self).wf(),
            !(next is Text),
        ensures
            final(self).wf(),
            final(self).tokens() == old(self).tokens(),
            follows(
                old(self)@.waiting_for(token@, kind, tag@, next, keep_blank),
                flow,
                old(self)@,
                final(self)@,
            ),
    {
        match token {
            HtmlToken::Char(c) => {
                if blank(*c) {
                    if keep_blank {
                        self.insert_char(*c);
                    }
                    return Flow::Consumed;
                }
            },
            HtmlToken::StartTag { tag: found, attributes, .. } => {
                if ElementKind::from_tag(found.as_str()) == Some(kind) {
                    self.insert_element(found.as_str(), clone_attributes(attributes));
                    self.mode = next;
                    return Flow::Consumed;
                }
            },
            HtmlToken::EndTag { .. } => {},
            HtmlToken::Eof => {
                return Flow::Finished;
            },
        }
        let none: Vec<Attribute> = Vec::new();
        assert(attribute_views(none@) =~= Seq::empty());
        self.insert_element(tag, none);
        self.mode = next;
        Flow::Reprocess
    }

    /// Reads `token` in the mode `InHead`.
    fn in_head(&mut self, token: &HtmlToken) -> (flow: Flow)
        requires
            old(self).wf(),
            old(self)@.mode is InHead,
        ensures
            final(self).wf(),
            final(self).tokens() == old(self).tokens(),
            follows(old(self)@.on_in_head(token@), flow, old(self)@, final(self)@),
    {
        match token {
            HtmlToken::Char(c) => {
                if blank(*c) {
                    self.insert_char(*c);
                }
                Flow::Consumed
            },
            HtmlToken::StartTag { tag, attributes, .. } => {
                match ElementKind::from_tag(tag.as_str()) {
                    Some(ElementKind::Style) | Some(ElementKind::Script) => {
                        self.insert_element(tag.as_str(), clone_attributes(attributes));
                        self.original_insertion_mode = self.mode;
                        self.mode = InsertionMode::Text;
                        Flow::Consumed
                    },
                    Some(_) => self.close(ElementKind::Head, InsertionMode::AfterHead, false),
                    None => Flow::Consumed,
                }
            },
            HtmlToken::EndTag { tag } => {
                if ElementKind::from_tag(tag.as_str()) == Some(ElementKind::Head) {
                    self.close(ElementKind::Head, InsertionMode::AfterHead, true)
                } else {
                    Flow::Consumed
                }
            },
            HtmlToken::Eof => Flow::Finished,
        }
    }

    /// Reads `token` in the mode `InBody`.
    fn in_body(&mut self, token: &HtmlToken) -> (flow: Flow)
        requires
            old(self).wf(),
            !(old(self)@.mode is Text),
        ensures
            final(self).wf(),
            final(self).tokens() == old(self).tokens(),
            follows(old(self)@.on_in_body(token@), flow, old(self)@, final(self)@),
    {
        match token {
            HtmlToken::Char(c) => {
                self.insert_char(*c);
                Flow::Consumed
            },
            HtmlToken::StartTag { tag, attributes, .. } => {
                match ElementKind::from_tag(tag.as_str()) {
                    Some(ElementKind::P) | Some(ElementKind::H1) | Some(ElementKind::H2) | Some(
                        ElementKind::A,
                    ) => {
                        self.insert_element(tag.as_str(), clone_attributes(attributes));
                        Flow::Consumed
                    },
                    _ => Flow::Consumed,
                }
            },
            HtmlToken::EndTag { tag } => {
                let mode = self.mode;
                match ElementKind::from_tag(tag.as_str()) {
                    Some(ElementKind::Body) => {
                        if self.contain_in_stack(ElementKind::Body) {
                            let _closed = self.pop_until(ElementKind::Body);
                        }
                        self.mode = InsertionMode::AfterBody;
                        Flow::Consumed
                    },
                    Some(ElementKind::Html) => {
                        if self.pop_current_node(ElementKind::Body) {
                            self.pop_current_node(ElementKind::Html);
                            self.mode = InsertionMode::AfterBody;
                            Flow::Reprocess
                        } else {
                            Flow::Consumed
                        }
                    },
                    Some(ElementKind::P) => self.close(ElementKind::P, mode, true),
                    Some(ElementKind::H1) => self.close(ElementKind::H1, mode, true),
                    Some(ElementKind::H2) => self.close(ElementKind::H2, mode, true),
                    Some(ElementKind::A) => self.close(ElementKind::A, mode, true),
                    _ => Flow::Consumed,
                }
            },
            HtmlToken::Eof => Flow::Finished,
        }
    }

    /// Reads `token` in the mode `Text`.
    fn text(&mut self, token: &HtmlToken) -> (flow: Flow)
        requires
            old(self).wf(),
            old(self)@.mode is Text,
        ensures
            final(self).wf(),
            final(self).tokens() == old(self).tokens(),
            follows(old(self)@.on_text(token@), flow, old(self)@, final(self)@),
    {
        match token {
            HtmlToken::Char(c) => {
                self.insert_char(*c);
                Flow::Consumed
            },
            HtmlToken::StartTag { .. } => {
                self.mode = self.original_insertion_mode;
                Flow::Reprocess
            },
            HtmlToken::EndTag { tag } => {
                match ElementKind::from_tag(tag.as_str()) {
                    Some(ElementKind::Style) => self.leave_text(ElementKind::Style),
                    Some(ElementKind::Script) => self.leave_text(ElementKind::Script),
                    _ => {
                        self.mode = self.original_insertion_mode;
                        Flow::Reprocess
                    },
                }
            },
            HtmlToken::Eof => Flow::Finished,
        }
    }

    /// Reads the end tag of kind `kind` in the mode `Text`.
    fn leave_text(&mut self, kind: ElementKind) -> (flow: Flow)
        requires
            old(self).wf(),
            old(self)@.mode is Text,
        ensures
            final(self).wf(),
            final(self).tokens() == old(self).tokens(),
            follows(old(self)@.leave_text(kind), flow, old(self)@, final(self)@),
    {
        let matching = self.innermost_element() == Some(kind);
        if matching {
            proof {
                lemma_innermost_is_open(self@, kind);
            }
            let _closed = self.pop_until(kind);
        }
        self.mode = self.original_insertion_mode;
        if matching {
            Flow::Consumed
        } else {
            Flow::Reprocess
        }
    }

    /// The kind of the innermost open node that is no text.
    fn innermost_element(&self) -> (kind: Option<ElementKind>)
        requires
            self.wf(),
        ensures
            kind == self@.innermost_element(),
    {
        let ghost all = self@;
        let mut n = self.stack_of_open_elements.len();
        assert(all.stack.take(n as int) =~= all.stack);
        while n > 0
            invariant
                self.wf(),
                all == self@,
                n <= self.stack_of_open_elements.len(),
                all.innermost_element() == (Machine {
                    stack: all.stack.take(n as int),
                    ..all
                }).innermost_element(),
            decreases n,
        {
            let id = self.stack_of_open_elements[n - 1];
            let ghost part = Machine { stack: all.stack.take(n as int), ..all };
            assert(part.stack.last() == id);
            assert(all.stack[n - 1] == id);
            if !self.window.is_text(id) {
                return self.window.element_kind(id);
            }
            assert(part.pop().stack =~= all.stack.take(n - 1));
            n -= 1;
        }
        None
    }

    /// Reads `token` in the mode `AfterBody`.
    fn after_body(&mut self, token: &HtmlToken) -> (flow: Flow)
        requires
            old(self).wf(),
        ensures
            final(self).wf(),
            final(self).tokens() == old(self).tokens(),
            follows(old(self)@.on_after_body(token@), flow, old(self)@, final(self)@),
    {
        match token {
            HtmlToken::Char(_) => {
                return Flow::Consumed;
            },
            HtmlToken::StartTag { .. } => {},
            HtmlToken::EndTag { tag } => {
                if ElementKind::from_tag(tag.as_str()) == Some(ElementKind::Html) {
                    self.mode = InsertionMode::AfterAfterBody;
                    return Flow::Consumed;
                }
            },
            HtmlToken::Eof => {
                return Flow::Finished;
            },
        }
        self.mode = InsertionMode::InBody;
        Flow::Reprocess
    }

    /// Reads `token` in the mode `AfterAfterBody`.
    fn after_after_body(&mut self, token: &HtmlToken) -> (flow: Flow)
        requires
            old(self).wf(),
        ensures
            final(self).wf(),
            final(self).tokens() == old(self).tokens(),
            follows(old(self)@.on_after_after_body(token@), flow, old(self)@, final(self)@),
    {
        match token {
            HtmlToken::Char(_) => Flow::Consumed,
            HtmlToken::Eof => Flow::Finished,
            _ => {
                self.mode = InsertionMode::InBody;
                Flow::Reprocess
            },
        }
    }

    /// Closes the innermost open element of kind `kind` and goes to `mode`,
    /// or fails where no such element is open.
    fn close(&mut self, kind: ElementKind, mode: InsertionMode, consume: bool) -> (flow: Flow)
        requires
            old(self).wf(),
            !(mode is Text),
        ensures
            final(self).wf(),
            final(self).tokens() == old(self).tokens(),
            follows(old(self)@.close(kind, mode, consume), flow, old(self)@, final(self)@),
    {
        match self.pop_until(kind) {
            Err(error) => Flow::Failed(error),
            Ok(_) => {
                self.mode = mode;
                if consume {
                    Flow::Consumed
                } else {
                    Flow::Reprocess
                }
            },
        }
    }

    /// The node that takes the next child.
    fn current(&self) -> (id: usize)
        requires
            self.wf(),
        ensures
            id == self@.current(),
            id < self@.tree.len(),
    {
        proof {
            self.window.lemma_tree();
        }
        let n = self.stack_of_open_elements.len();
        if n == 0 {
            self.window.document()
        } else {
            assert(self@.stack[n - 1] == self.stack_of_open_elements[n - 1]);
            self.stack_of_open_elements[n - 1]
        }
    }

    /// Makes the element `<tag>` the last child of the current node, and
    /// opens it.
    fn insert_element(&mut self, tag: &str, attributes: Vec<Attribute>)
        requires
            old(self).wf(),
        ensures
            final(self).wf(),
            final(self).tokens() == old(self).tokens(),
            final(self)@ == old(self)@.insert_element(tag@, attribute_views(attributes@)),
    {
        let current = self.current();
        let id = self.window.append_element(current, Element::new(tag, attributes));
        self.stack_of_open_elements.push(id);
        proof {
            self.window.lemma_tree();
            assert(self@.stack =~= old(self)@.stack.push(id as int));
        }
    }

    /// Takes the innermost open node off the stack if it is an element of
    /// kind `element_kind`, and tells whether it was.
    fn pop_current_node(&mut self, element_kind: ElementKind) -> (popped: bool)
        requires
            old(self).wf(),
        ensures
            final(self).wf(),
            final(self).tokens() == old(self).tokens(),
            popped == old(self)@.current_is(element_kind),
            final(self)@ == old(self)@.pop_current(element_kind),
    {
        let n = self.stack_of_open_elements.len();
        if n == 0 {
            return false;
        }
        let top = self.stack_of_open_elements[n - 1];
        assert(self@.stack[n - 1] == top);
        if self.window.element_kind(top) == Some(element_kind) {
            self.stack_of_open_elements.pop();
            assert(self@.stack =~= old(self)@.stack.drop_last());
            return true;
        }
        false
    }

    /// Takes nodes off the stack until an element of kind `element_kind`
    /// has been taken off. Where no such element is open, nothing is taken
    /// off and the error says which kind was missed.
    fn pop_until(&mut self, element_kind: ElementKind) -> (result: Result<(), Error>)
        requires
            old(self).wf(),
        ensures
            final(self).wf(),
            final(self).tokens() == old(self).tokens(),
            match old(self)@.closing(element_kind) {
                Ok(closed) => result is Ok && final(self)@ == closed,
                Err(kind) => result == Err::<(), Error>(Error::StructuralInvariant(kind))
                    && final(self)@ == old(self)@,
            },
            final(self)@ == (Machine { stack: final(self)@.stack, ..old(self)@ }),
    {
        if !self.contain_in_stack(element_kind) {
            return Err(Error::StructuralInvariant(element_kind));
        }
        loop
            invariant
                self.wf(),
                self.tokens() == old(self).tokens(),
                self@ == (Machine { stack: self@.stack, ..old(self)@ }),
                old(self)@.contains(element_kind),
                self@.contains(element_kind),
                self@.pop_until(element_kind) == old(self)@.pop_until(element_kind),
            decreases self.stack_of_open_elements.len(),
        {
            let ghost before = self@;
            let n = self.stack_of_open_elements.len();
            let top = self.stack_of_open_elements[n - 1];
            assert(before.stack[n - 1] == top);
            let kind = self.window.element_kind(top);
            self.stack_of_open_elements.pop();
            assert(self@.stack =~= before.stack.drop_last());
            assert(self@ == before.pop());
            if kind == Some(element_kind) {
                return Ok(());
            }
            proof {
                let i = choose|i: int|
                    0 <= i < before.stack.len() && #[trigger] before.kind_at(i) == Some(
                        element_kind,
                    );
                assert(self@.kind_at(i) == Some(element_kind));
            }
        }
    }

    /// Tells whether an element of kind `element_kind` is open.
    fn contain_in_stack(&self, element_kind: ElementKind) -> (found: bool)
        requires
            self.wf(),
        ensures
            found == self@.contains(element_kind),
    {
        let mut i: usize = 0;
        while i < self.stack_of_open_elements.len()
            invariant
                self.wf(),
                i <= self.stack_of_open_elements.len(),
                forall|j: int| 0 <= j < i ==> #[trigger] self@.kind_at(j) != Some(element_kind),
            decreases self.stack_of_open_elements.len() - i,
        {
            let id = self.stack_of_open_elements[i];
            assert(self@.stack[i as int] == id);
            if self.window.element_kind(id) == Some(element_kind) {
                assert(self@.kind_at(i as int) == Some(element_kind));
                return true;
            }
            i += 1;
        }
        false
    }

    /// Puts the character `c` into the tree.
    fn insert_char(&mut self, c: char)
        requires
            old(self).wf(),
        ensures
            final(self).wf(),
            final(self).tokens() == old(self).tokens(),
            final(self)@ == old(self)@.insert_char(c),
    {
        let n = self.stack_of_open_elements.len();
        if n == 0 {
            return ;
        }
        let current = self.stack_of_open_elements[n - 1];
        assert(self@.stack[n - 1] == current);
        if self.window.is_text(current) {
            self.window.push_char(current, c);
            proof {
                self.window.lemma_tree();
            }
            return ;
        }
        if blank(c) {
            return ;
        }
        let id = self.window.append_text(current, c);
        self.stack_of_open_elements.push(id);
        proof {
            self.window.lemma_tree();
            assert(self@.stack =~= old(self)@.stack.push(id as int));
        }
    }
}

/// A token that is read again is read in a mode of lower rank.
pub proof fn lemma_reprocess_ranks(machine: Machine, token: Token)
    requires
        machine.mode is Text ==> !(machine.original is Text),
    ensures
        machine.dispatch(token) matches Outcome::Reprocess(next) ==> rank(next.mode, token) < rank(
            machine.mode,
            token,
        ),
{
}

/// The innermost open element is open.
pub proof fn lemma_innermost_is_open(machine: Machine, kind: ElementKind)
    requires
        machine.innermost_element() == Some(kind),
    ensures
        machine.contains(kind),
    decreases machine.stack.len(),
{
    if machine.stack.len() > 0 {
        if machine.tree[machine.stack.last()].kind is Text {
            lemma_innermost_is_open(machine.pop(), kind);
            let i = choose|i: int|
                0 <= i < machine.pop().stack.len() && #[trigger] machine.pop().kind_at(i) == Some(
                    kind,
                );
            assert(machine.kind_at(i) == Some(kind));
        } else {
            assert(machine.kind_at(machine.stack.len() - 1) == Some(kind));
        }
    }
}

} // verus!
