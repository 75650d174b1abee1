//! What holds of the tree constructor whatever the tokens: the tree only
//! grows, the open nodes are those that the mode asks for, and a document
//! that brings its own `html`, `head` and `body` gets no other. Where its
//! body holds text and nested tags of `p`, `h1`, `h2` and `a`, it is read
//! without failure, `html` is the one child of the document, and `head`
//! and `body` are the two children of `html`.

use crate::renderer::dom::node::{
    children, children_below, is_child, is_placed, kind_of_tag, lemma_children_skip,
    lemma_known_tags, well_formed, ElementKind, ElementView, NodeKindView, TreeNode,
};
use crate::renderer::html::attribute::AttributeView;
use crate::renderer::html::parser::{
    lemma_innermost_is_open, rank, InsertionMode, Machine, Outcome,
};
use crate::renderer::html::token::{
    char_token, end_tag_at, is_name_char, lemma_plain_end_tag, lemma_plain_start_tag,
    lemma_tokens_go_on, next_token, start_tag_at, tokens_from, tokens_of, Token,
};
use crate::text::{is_blank, is_letter};
use vstd::prelude::*;

verus! {

/// Whether `later` is the node `earlier` at a later time: it has the same
/// parent; a text may have got longer, and every other node is as it was.
pub open spec fn keeps(earlier: TreeNode, later: TreeNode) -> bool {
    &&& later.parent == earlier.parent
    &&& match earlier.kind {
        NodeKindView::Text(text) => later.kind is Text && text.is_prefix_of(later.kind->Text_0),
        _ => later.kind == earlier.kind,
    }
}

/// Whether `later` is `earlier` grown: every node of `earlier` is kept,
/// at its place.
pub open spec fn grows(earlier: Seq<TreeNode>, later: Seq<TreeNode>) -> bool {
    &&& earlier.len() <= later.len()
    &&& forall|i: int| 0 <= i < earlier.len() ==> keeps(earlier[i], #[trigger] later[i])
}

/// Every node is kept by itself.
proof fn lemma_keeps_itself(node: TreeNode)
    ensures
        keeps(node, node),
{
    if let NodeKindView::Text(text) = node.kind {
        assert(text.subrange(0, text.len() as int) =~= text);
    }
}

/// What keeps a node that keeps another keeps that other.
proof fn lemma_keeps_on(first: TreeNode, second: TreeNode, third: TreeNode)
    requires
        keeps(first, second),
        keeps(second, third),
    ensures
        keeps(first, third),
{
    if let NodeKindView::Text(text) = first.kind {
        let middle = second.kind->Text_0;
        let last = third.kind->Text_0;
        assert(text =~= middle.subrange(0, text.len() as int));
        assert(middle =~= last.subrange(0, middle.len() as int));
        assert(text =~= last.subrange(0, text.len() as int));
    }
}

/// Whether `node` is an `html`, a `head` or a `body` element.
pub open spec fn is_frame(node: TreeNode) -> bool {
    let kind = node.kind.element_kind();
    kind == Some(ElementKind::Html) || kind == Some(ElementKind::Head) || kind == Some(
        ElementKind::Body,
    )
}

/// Whether no node of `tree` from `from` on is an `html`, a `head` or a
/// `body` element.
pub open spec fn adds_no_frame(tree: Seq<TreeNode>, from: int) -> bool {
    forall|i: int| 0 <= from <= i < tree.len() ==> !is_frame(#[trigger] tree[i])
}

/// The modes behind `<body>`, which are left for each other only.
pub open spec fn is_late(mode: InsertionMode) -> bool {
    mode is InBody || mode is AfterBody || mode is AfterAfterBody
}

/// Closing elements changes the stack only, and leaves a part of it.
pub proof fn lemma_pop_until(machine: Machine, kind: ElementKind)
    ensures
        machine.pop_until(kind) == (Machine {
            stack: machine.pop_until(kind).stack,
            ..machine
        }),
        machine.pop_until(kind).stack.is_prefix_of(machine.stack),
    decreases machine.stack.len(),
{
    if machine.stack.len() > 0 && !machine.current_is(kind) {
        lemma_pop_until(machine.pop(), kind);
    }
}

/// Inserting an element leaves the tree constructor sound.
proof fn lemma_insert_element(machine: Machine, tag: Seq<char>, attributes: Seq<AttributeView>)
    requires
        machine.wf(),
    ensures
        machine.insert_element(tag, attributes).wf(),
        grows(machine.tree, machine.insert_element(tag, attributes).tree),
{
    let next = machine.insert_element(tag, attributes);
    assert forall|i: int| 0 <= i < machine.tree.len() implies keeps(
        machine.tree[i],
        #[trigger] next.tree[i],
    ) by {
        lemma_keeps_itself(machine.tree[i]);
    }
    assert forall|i: int| 0 < i < next.tree.len() implies #[trigger] is_placed(next.tree, i) by {
        if i < machine.tree.len() {
            assert(is_placed(machine.tree, i));
        }
    }
    assert forall|i: int| 0 <= i < next.stack.len() implies 0 <= #[trigger] next.stack[i]
        < next.tree.len() by {
        if i < machine.stack.len() {
            assert(next.stack[i] == machine.stack[i]);
        }
    }
}

/// Inserting a character leaves the tree constructor sound, and adds a
/// text node at most.
proof fn lemma_insert_char(machine: Machine, c: char)
    requires
        machine.wf(),
    ensures
        machine.insert_char(c).wf(),
        grows(machine.tree, machine.insert_char(c).tree),
        forall|i: int|
            machine.tree.len() <= i < machine.insert_char(c).tree.len() ==> (
            #[trigger] machine.insert_char(c).tree[i]).kind is Text,
{
    let next = machine.insert_char(c);
    if machine.stack.len() > 0 {
        let current = machine.stack.last();
        assert(0 <= machine.stack[machine.stack.len() - 1] < machine.tree.len());
        assert forall|i: int| 0 < i < next.tree.len() implies #[trigger] is_placed(
            next.tree,
            i,
        ) by {
            if i < machine.tree.len() {
                assert(is_placed(machine.tree, i));
            }
        }
        assert forall|i: int| 0 <= i < next.stack.len() implies 0 <= #[trigger] next.stack[i]
            < next.tree.len() by {
            if i < machine.stack.len() {
                assert(next.stack[i] == machine.stack[i]);
            }
        }
        assert forall|i: int| 0 <= i < machine.tree.len() implies keeps(
            machine.tree[i],
            #[trigger] next.tree[i],
        ) by {
            lemma_keeps_itself(machine.tree[i]);
            if i == current && machine.tree[current].kind is Text {
                let text = machine.tree[current].kind->Text_0;
                assert(text.push(c).subrange(0, text.len() as int) =~= text);
            }
        }
    } else {
        lemma_grows_itself(machine.tree);
    }
}

/// Every tree is itself grown.
pub proof fn lemma_grows_itself(tree: Seq<TreeNode>)
    ensures
        grows(tree, tree),
{
    assert forall|i: int| 0 <= i < tree.len() implies keeps(tree[i], #[trigger] tree[i]) by {
        lemma_keeps_itself(tree[i]);
    }
}

/// What has grown from a grown tree has grown from the tree.
pub proof fn lemma_grows_on(first: Seq<TreeNode>, second: Seq<TreeNode>, third: Seq<TreeNode>)
    requires
        grows(first, second),
        grows(second, third),
    ensures
        grows(first, third),
{
    assert forall|i: int| 0 <= i < first.len() implies keeps(first[i], #[trigger] third[i]) by {
        assert(keeps(first[i], second[i]));
        assert(keeps(second[i], third[i]));
        lemma_keeps_on(first[i], second[i], third[i]);
    }
}

/// Closing nodes leaves the tree constructor sound.
proof fn lemma_popped(machine: Machine, kind: ElementKind)
    requires
        machine.wf(),
    ensures
        machine.pop_until(kind).wf(),
        machine.pop().wf() || machine.stack.len() == 0,
        machine.pop_current(kind).wf(),
{
    lemma_pop_until(machine, kind);
    let popped = machine.pop_until(kind);
    assert forall|i: int| 0 <= i < popped.stack.len() implies 0 <= #[trigger] popped.stack[i]
        < popped.tree.len() by {
        assert(popped.stack[i] == machine.stack[i]);
    }
    if machine.stack.len() > 0 {
        let top = machine.pop();
        assert forall|i: int| 0 <= i < top.stack.len() implies 0 <= #[trigger] top.stack[i]
            < top.tree.len() by {
            assert(top.stack[i] == machine.stack[i]);
        }
    }
}

/// Whether `outcome` leaves the tree constructor sound: the tree is a
/// tree, it has grown from the tree of `machine`, and the open nodes are
/// nodes of it.
pub open spec fn is_sound(machine: Machine, outcome: Outcome) -> bool {
    match outcome {
        Outcome::Consumed(next) | Outcome::Reprocess(next) => next.wf() && grows(
            machine.tree,
            next.tree,
        ),
        _ => true,
    }
}

/// Closing an element and changing the mode leaves the tree constructor
/// sound.
proof fn lemma_close(machine: Machine, kind: ElementKind, mode: InsertionMode, consume: bool)
    requires
        machine.wf(),
        !(mode is Text),
    ensures
        is_sound(machine, machine.close(kind, mode, consume)),
{
    lemma_grows_itself(machine.tree);
    lemma_pop_until(machine, kind);
    lemma_popped(machine, kind);
}

/// The modes that wait for a start tag leave the tree constructor sound.
proof fn lemma_waiting_for(
    machine: Machine,
    token: Token,
    kind: ElementKind,
    tag: Seq<char>,
    next: InsertionMode,
    keep_blank: bool,
)
    requires
        machine.wf(),
        !(next is Text),
    ensures
        is_sound(machine, machine.waiting_for(token, kind, tag, next, keep_blank)),
{
    lemma_grows_itself(machine.tree);
    lemma_insert_element(machine, tag, Seq::empty());
    match token {
        Token::Char(c) => {
            lemma_insert_char(machine, c);
        },
        Token::StartTag { tag: found, attributes, .. } => {
            lemma_insert_element(machine, found, attributes);
        },
        _ => {},
    }
}

/// The mode `InHead` leaves the tree constructor sound.
proof fn lemma_on_in_head(machine: Machine, token: Token)
    requires
        machine.wf(),
        machine.mode is InHead,
    ensures
        is_sound(machine, machine.on_in_head(token)),
{
    lemma_grows_itself(machine.tree);
    lemma_close(machine, ElementKind::Head, InsertionMode::AfterHead, true);
    lemma_close(machine, ElementKind::Head, InsertionMode::AfterHead, false);
    match token {
        Token::Char(c) => {
            lemma_insert_char(machine, c);
        },
        Token::StartTag { tag, attributes, .. } => {
            lemma_insert_element(machine, tag, attributes);
        },
        _ => {},
    }
}

/// The mode `InBody` leaves the tree constructor sound.
proof fn lemma_on_in_body(machine: Machine, token: Token)
    requires
        machine.wf(),
        machine.mode is InBody,
    ensures
        is_sound(machine, machine.on_in_body(token)),
{
    lemma_grows_itself(machine.tree);
    match token {
        Token::Char(c) => {
            lemma_insert_char(machine, c);
        },
        Token::StartTag { tag, attributes, .. } => {
            lemma_insert_element(machine, tag, attributes);
        },
        Token::EndTag { tag } => {
            lemma_close(machine, ElementKind::P, machine.mode, true);
            lemma_close(machine, ElementKind::H1, machine.mode, true);
            lemma_close(machine, ElementKind::H2, machine.mode, true);
            lemma_close(machine, ElementKind::A, machine.mode, true);
            lemma_close(machine, ElementKind::Body, InsertionMode::AfterBody, true);
            if machine.stack.len() > 0 {
                lemma_popped(machine, ElementKind::Body);
                lemma_popped(machine.pop(), ElementKind::Html);
            }
        },
        _ => {},
    }
}

/// The mode `Text` leaves the tree constructor sound.
proof fn lemma_on_text(machine: Machine, token: Token)
    requires
        machine.wf(),
        machine.mode is Text,
    ensures
        is_sound(machine, machine.on_text(token)),
{
    lemma_grows_itself(machine.tree);
    match token {
        Token::Char(c) => {
            lemma_insert_char(machine, c);
        },
        Token::EndTag { tag } => {
            lemma_pop_until(machine, ElementKind::Style);
            lemma_popped(machine, ElementKind::Style);
            lemma_pop_until(machine, ElementKind::Script);
            lemma_popped(machine, ElementKind::Script);
        },
        _ => {},
    }
}

/// No token spoils the tree constructor: after it the tree is a tree, it
/// has grown from the tree before, and the open nodes are nodes of it.
pub proof fn lemma_dispatch(machine: Machine, token: Token)
    requires
        machine.wf(),
    ensures
        is_sound(machine, machine.dispatch(token)),
{
    lemma_grows_itself(machine.tree);
    match machine.mode {
        InsertionMode::BeforeHtml => {
            lemma_waiting_for(
                machine,
                token,
                ElementKind::Html,
                "html"@,
                InsertionMode::BeforeHead,
                false,
            );
        },
        InsertionMode::BeforeHead => {
            lemma_waiting_for(machine, token, ElementKind::Head, "head"@, InsertionMode::InHead, false);
        },
        InsertionMode::AfterHead => {
            lemma_waiting_for(machine, token, ElementKind::Body, "body"@, InsertionMode::InBody, true);
        },
        InsertionMode::InHead => {
            lemma_on_in_head(machine, token);
        },
        InsertionMode::InBody => {
            lemma_on_in_body(machine, token);
        },
        InsertionMode::Text => {
            lemma_on_text(machine, token);
        },
        _ => {},
    }
}

/// In the modes behind `<body>` no token leads out of them, and none adds
/// an `html`, a `head` or a `body` element.
pub proof fn lemma_dispatch_late(machine: Machine, token: Token)
    requires
        machine.wf(),
        is_late(machine.mode),
    ensures
        match machine.dispatch(token) {
            Outcome::Consumed(next) | Outcome::Reprocess(next) => is_late(next.mode)
                && adds_no_frame(next.tree, machine.tree.len() as int),
            _ => true,
        },
{
    lemma_pop_until(machine, ElementKind::Body);
    lemma_pop_until(machine, ElementKind::P);
    lemma_pop_until(machine, ElementKind::H1);
    lemma_pop_until(machine, ElementKind::H2);
    lemma_pop_until(machine, ElementKind::A);
    if let Token::Char(c) = token {
        lemma_insert_char(machine, c);
    }
}

/// Whatever the tokens, the tree that the tree constructor ends with is a
/// tree and has grown from the tree that it began with: no node is taken
/// away or moved, and only texts change.
pub proof fn lemma_run(machine: Machine, tokens: Seq<Token>)
    requires
        machine.wf(),
    ensures
        machine.run(tokens) matches Ok(last) ==> last.wf() && grows(machine.tree, last.tree),
    decreases tokens.len(), rank(machine.mode, tokens[0]),
{
    lemma_grows_itself(machine.tree);
    if tokens.len() > 0 {
        lemma_dispatch(machine, tokens[0]);
        match machine.dispatch(tokens[0]) {
            Outcome::Consumed(next) => {
                lemma_run(next, tokens.drop_first());
                if let Ok(last) = next.run(tokens.drop_first()) {
                    lemma_grows_on(machine.tree, next.tree, last.tree);
                }
            },
            Outcome::Reprocess(next) => {
                lemma_run(next, tokens);
                if let Ok(last) = next.run(tokens) {
                    lemma_grows_on(machine.tree, next.tree, last.tree);
                }
            },
            _ => {},
        }
    }
}

/// Once behind `<body>`, the tree constructor adds no `html`, `head` or
/// `body` element, whatever the tokens.
pub proof fn lemma_run_late(machine: Machine, tokens: Seq<Token>, from: int)
    requires
        machine.wf(),
        is_late(machine.mode),
        adds_no_frame(machine.tree, from),
        0 <= from <= machine.tree.len(),
    ensures
        machine.run(tokens) matches Ok(last) ==> adds_no_frame(last.tree, from),
    decreases tokens.len(), rank(machine.mode, tokens[0]),
{
    if tokens.len() > 0 {
        lemma_dispatch(machine, tokens[0]);
        lemma_dispatch_late(machine, tokens[0]);
        match machine.dispatch(tokens[0]) {
            Outcome::Consumed(next) => {
                lemma_frame_kept(machine.tree, next.tree, from);
                lemma_run_late(next, tokens.drop_first(), from);
            },
            Outcome::Reprocess(next) => {
                lemma_frame_kept(machine.tree, next.tree, from);
                lemma_run_late(next, tokens, from);
            },
            _ => {},
        }
    }
}

/// Where a tree has grown by nodes that are no `html`, `head` or `body`,
/// it has as few of them behind `from` as before.
proof fn lemma_frame_kept(earlier: Seq<TreeNode>, later: Seq<TreeNode>, from: int)
    requires
        grows(earlier, later),
        adds_no_frame(earlier, from),
        adds_no_frame(later, earlier.len() as int),
    ensures
        adds_no_frame(later, from),
{
    assert forall|i: int| 0 <= from <= i < later.len() implies !is_frame(#[trigger] later[i]) by {
        if i < earlier.len() {
            assert(keeps(earlier[i], later[i]));
            assert(!is_frame(earlier[i]));
        }
    }
}

/// The tokens of `<html><head></head><body>`, each start tag with the
/// attributes given for it.
pub open spec fn frame_tokens(
    html: Seq<AttributeView>,
    head: Seq<AttributeView>,
    body: Seq<AttributeView>,
) -> Seq<Token> {
    seq![
        Token::StartTag { tag: "html"@, self_closing: false, attributes: html },
        Token::StartTag { tag: "head"@, self_closing: false, attributes: head },
        Token::EndTag { tag: "head"@ },
        Token::StartTag { tag: "body"@, self_closing: false, attributes: body },
    ]
}

/// The tree of `<html><head></head><body>`: the document, `html` under
/// it, and `head` and `body` under `html`.
pub open spec fn frame_tree(
    html: Seq<AttributeView>,
    head: Seq<AttributeView>,
    body: Seq<AttributeView>,
) -> Seq<TreeNode> {
    seq![
        TreeNode { kind: NodeKindView::Document, parent: None },
        TreeNode {
            kind: NodeKindView::Element(ElementView { tag: "html"@, attributes: html }),
            parent: Some(0),
        },
        TreeNode {
            kind: NodeKindView::Element(ElementView { tag: "head"@, attributes: head }),
            parent: Some(1),
        },
        TreeNode {
            kind: NodeKindView::Element(ElementView { tag: "body"@, attributes: body }),
            parent: Some(1),
        },
    ]
}

/// The tree constructor behind `<html><head></head><body>`: the tree of
/// these tags, with `html` and `body` open.
pub open spec fn framed(
    html: Seq<AttributeView>,
    head: Seq<AttributeView>,
    body: Seq<AttributeView>,
) -> Machine {
    Machine {
        tree: frame_tree(html, head, body),
        stack: seq![1, 3],
        mode: InsertionMode::InBody,
        original: InsertionMode::Initial,
    }
}

/// Reading `<html><head></head><body>` makes the nodes of these tags and
/// no other, and leads into the body.
pub proof fn lemma_frame(
    html: Seq<AttributeView>,
    head: Seq<AttributeView>,
    body: Seq<AttributeView>,
    rest: Seq<Token>,
)
    ensures
        Machine::initial().run(frame_tokens(html, head, body) + rest) == framed(
            html,
            head,
            body,
        ).run(rest),
        framed(html, head, body).wf(),
{
    lemma_known_tags();
    let frame = frame_tokens(html, head, body);
    let all = frame + rest;
    let start = Machine::initial();
    let before_html = start.with_mode(InsertionMode::BeforeHtml);
    assert(all[0] == frame[0]);
    assert(start.dispatch(all[0]) == Outcome::Reprocess(before_html));
    assert(start.run(all) == before_html.run(all));

    let before_head = before_html.insert_element("html"@, html).with_mode(
        InsertionMode::BeforeHead,
    );
    assert(before_html.dispatch(all[0]) == Outcome::Consumed(before_head));
    let second = all.drop_first();
    assert(before_html.run(all) == before_head.run(second));

    assert(second[0] == frame[1]);
    let in_head = before_head.insert_element("head"@, head).with_mode(InsertionMode::InHead);
    assert(before_head.dispatch(second[0]) == Outcome::Consumed(in_head));
    let third = second.drop_first();
    assert(before_head.run(second) == in_head.run(third));

    assert(third[0] == frame[2]);
    assert(in_head.stack =~= seq![1, 2]);
    assert(in_head.kind_at(1) == Some(ElementKind::Head));
    assert(in_head.contains(ElementKind::Head));
    assert(in_head.current_is(ElementKind::Head));
    let after_head = in_head.pop().with_mode(InsertionMode::AfterHead);
    assert(in_head.pop_until(ElementKind::Head) == in_head.pop());
    assert(in_head.dispatch(third[0]) == Outcome::Consumed(after_head));
    let fourth = third.drop_first();
    assert(in_head.run(third) == after_head.run(fourth));

    assert(fourth[0] == frame[3]);
    assert(after_head.stack =~= seq![1]);
    let in_body = after_head.insert_element("body"@, body).with_mode(InsertionMode::InBody);
    assert(after_head.dispatch(fourth[0]) == Outcome::Consumed(in_body));
    assert(fourth.drop_first() =~= rest);
    assert(after_head.run(fourth) == in_body.run(rest));

    assert(in_body.tree =~= frame_tree(html, head, body));
    assert(in_body.stack =~= seq![1, 3]);
    assert(in_body == framed(html, head, body));

    lemma_dispatch(start, all[0]);
    lemma_dispatch(before_html, all[0]);
    lemma_dispatch(before_head, second[0]);
    lemma_dispatch(in_head, third[0]);
    lemma_dispatch(after_head, fourth[0]);
}

/// A document that brings its own `html`, `head` and `body` gets no other:
/// whatever follows `<html><head></head><body>`, the tree begins with the
/// document and the elements of these three tags, as they were written,
/// and no node behind them is an `html`, a `head` or a `body` element.
pub proof fn lemma_no_frame_is_implied(
    html: Seq<AttributeView>,
    head: Seq<AttributeView>,
    body: Seq<AttributeView>,
    rest: Seq<Token>,
)
    ensures
        Machine::initial().run(frame_tokens(html, head, body) + rest) matches Ok(last) ==> {
            &&& last.tree.len() >= 4
            &&& last.tree.take(4) == frame_tree(html, head, body)
            &&& adds_no_frame(last.tree, 4)
            &&& well_formed(last.tree)
        },
{
    let machine = framed(html, head, body);
    lemma_frame(html, head, body, rest);
    lemma_run(machine, rest);
    lemma_run_late(machine, rest, 4);
    if let Ok(last) = machine.run(rest) {
        assert forall|i: int| 0 <= i < 4 implies last.tree[i] == machine.tree[i] by {
            assert(keeps(machine.tree[i], last.tree[i]));
        }
        assert(last.tree.take(4) =~= frame_tree(html, head, body));
    }
}

/// Whether the open nodes are those that the mode asks for. Before
/// `<html>` no node is open. Between `<html>` and `<head>`, and between
/// the head and `<body>`, `html` alone is open. In the head, and in the
/// text of a style or a script, `html` and `head` are the outermost open
/// nodes and no other `head` is open. Behind `<body>`, a `body` is open
/// only as the child of the outermost open node, which is `html` then.
pub open spec fn is_shaped(machine: Machine) -> bool {
    match machine.mode {
        InsertionMode::Initial | InsertionMode::BeforeHtml => machine.stack.len() == 0,
        InsertionMode::BeforeHead | InsertionMode::AfterHead => {
            &&& machine.stack.len() == 1
            &&& machine.kind_at(0) == Some(ElementKind::Html)
        },
        InsertionMode::InHead | InsertionMode::Text => {
            &&& machine.stack.len() >= 2
            &&& machine.kind_at(0) == Some(ElementKind::Html)
            &&& machine.kind_at(1) == Some(ElementKind::Head)
            &&& forall|i: int|
                2 <= i < machine.stack.len() ==> #[trigger] machine.kind_at(i) != Some(
                    ElementKind::Head,
                )
            &&& machine.mode is Text ==> machine.original is InHead
        },
        InsertionMode::InBody | InsertionMode::AfterBody | InsertionMode::AfterAfterBody => {
            forall|i: int|
                0 <= i < machine.stack.len() && #[trigger] machine.kind_at(i) == Some(
                    ElementKind::Body,
                ) ==> i == 1 && machine.kind_at(0) == Some(ElementKind::Html)
        },
    }
}

/// Whether `later` has open what `earlier` has open, and perhaps one node
/// more, of the kind `added`.
spec fn opens(earlier: Machine, later: Machine, added: Option<ElementKind>) -> bool {
    &&& later.stack.len() == earlier.stack.len() || later.stack.len() == earlier.stack.len() + 1
    &&& forall|i: int|
        0 <= i < earlier.stack.len() ==> #[trigger] later.kind_at(i) == earlier.kind_at(i)
    &&& later.stack.len() > earlier.stack.len() ==> later.kind_at(earlier.stack.len() as int)
        == added
}

/// Whether `later` has open a part of what `earlier` has open, from the
/// outermost node on.
spec fn closes(earlier: Machine, later: Machine) -> bool {
    &&& later.stack.len() <= earlier.stack.len()
    &&& forall|i: int|
        0 <= i < later.stack.len() ==> #[trigger] later.kind_at(i) == earlier.kind_at(i)
}

/// Inserting an element opens it and leaves open what was open.
proof fn lemma_opens_element(machine: Machine, tag: Seq<char>, attributes: Seq<AttributeView>)
    requires
        machine.wf(),
    ensures
        opens(machine, machine.insert_element(tag, attributes), kind_of_tag(tag)),
        machine.insert_element(tag, attributes).stack.len() == machine.stack.len() + 1,
{
    let next = machine.insert_element(tag, attributes);
    assert forall|i: int| 0 <= i < machine.stack.len() implies #[trigger] next.kind_at(i)
        == machine.kind_at(i) by {
        assert(0 <= machine.stack[i] < machine.tree.len());
    }
}

/// Inserting a character opens a text at most, and nothing where
/// whitespace meets a node that is no text.
proof fn lemma_opens_char(machine: Machine, c: char)
    requires
        machine.wf(),
    ensures
        opens(machine, machine.insert_char(c), None),
        is_blank_on_element(machine, c) ==> machine.insert_char(c) == machine,
{
    let next = machine.insert_char(c);
    if machine.stack.len() > 0 {
        let current = machine.stack.last();
        assert(0 <= machine.stack[machine.stack.len() - 1] < machine.tree.len());
        assert forall|i: int| 0 <= i < machine.stack.len() implies #[trigger] next.kind_at(i)
            == machine.kind_at(i) by {
            assert(0 <= machine.stack[i] < machine.tree.len());
        }
    }
}

/// Whether `c` is whitespace and the current node of `machine` is no text.
spec fn is_blank_on_element(machine: Machine, c: char) -> bool {
    is_blank(c) && machine.stack.len() > 0 && !(machine.tree[machine.stack.last()].kind
        is Text)
}

/// Closing nodes leaves open a part of what was open.
proof fn lemma_closes(machine: Machine, kind: ElementKind)
    ensures
        closes(machine, machine.pop_until(kind)),
        closes(machine, machine.pop_current(kind)),
        machine.stack.len() > 0 ==> closes(machine, machine.pop()),
        machine.stack.len() > 0 ==> closes(machine, machine.pop().pop_current(kind)),
{
    lemma_pop_until(machine, kind);
}

/// Closing the innermost element of a kind leaves open what is open
/// outside of every element of that kind.
proof fn lemma_closes_above(machine: Machine, kind: ElementKind, below: int)
    requires
        machine.contains(kind),
        0 <= below <= machine.stack.len(),
        forall|i: int| 0 <= i < below ==> #[trigger] machine.kind_at(i) != Some(kind),
    ensures
        machine.pop_until(kind).stack.len() >= below,
    decreases machine.stack.len(),
{
    let found = choose|i: int|
        0 <= i < machine.stack.len() && #[trigger] machine.kind_at(i) == Some(kind);
    assert(found >= below);
    if !machine.current_is(kind) {
        let rest = machine.pop();
        assert(rest.kind_at(found) == Some(kind));
        assert forall|i: int| 0 <= i < below implies #[trigger] rest.kind_at(i) != Some(kind) by {
            assert(machine.kind_at(i) != Some(kind));
        }
        lemma_closes_above(rest, kind, below);
    }
}

/// Closing an element of a kind closes the innermost one: where it is
/// open at the place `at` of the stack and nowhere further in, the nodes
/// before that place stay open and no other.
pub proof fn lemma_closes_at(machine: Machine, kind: ElementKind, at: int)
    requires
        0 <= at < machine.stack.len(),
        machine.kind_at(at) == Some(kind),
        forall|i: int| at < i < machine.stack.len() ==> #[trigger] machine.kind_at(i) != Some(kind),
    ensures
        machine.pop_until(kind).stack == machine.stack.take(at),
    decreases machine.stack.len(),
{
    if !machine.current_is(kind) {
        let rest = machine.pop();
        assert(rest.kind_at(at) == Some(kind));
        assert forall|i: int| at < i < rest.stack.len() implies #[trigger] rest.kind_at(i)
            != Some(kind) by {
            assert(machine.kind_at(i) != Some(kind));
        }
        lemma_closes_at(rest, kind, at);
        assert(rest.stack.take(at) =~= machine.stack.take(at));
    } else {
        assert(machine.pop().stack =~= machine.stack.take(at));
    }
}

/// Whether `outcome` keeps the open nodes as the modes ask for them, and
/// fails only for want of an open `p`, `h1`, `h2` or `a`.
pub open spec fn is_orderly(outcome: Outcome) -> bool {
    match outcome {
        Outcome::Consumed(next) | Outcome::Reprocess(next) => is_shaped(next),
        Outcome::Finished => true,
        Outcome::Failed(kind) => kind is P || kind is H1 || kind is H2 || kind is A,
    }
}

/// The modes that wait for a start tag keep the open nodes in order.
proof fn lemma_shaped_waiting_for(
    machine: Machine,
    token: Token,
    kind: ElementKind,
    tag: Seq<char>,
    next: InsertionMode,
    keep_blank: bool,
)
    requires
        machine.wf(),
        is_shaped(machine),
        kind_of_tag(tag) == Some(kind),
        (machine.mode, kind, next, keep_blank) == (
            InsertionMode::BeforeHtml,
            ElementKind::Html,
            InsertionMode::BeforeHead,
            false,
        ) || (machine.mode, kind, next, keep_blank) == (
            InsertionMode::BeforeHead,
            ElementKind::Head,
            InsertionMode::InHead,
            false,
        ) || (machine.mode, kind, next, keep_blank) == (
            InsertionMode::AfterHead,
            ElementKind::Body,
            InsertionMode::InBody,
            true,
        ),
    ensures
        is_orderly(machine.waiting_for(token, kind, tag, next, keep_blank)),
{
    lemma_opens_element(machine, tag, Seq::empty());
    let implied = machine.insert_element(tag, Seq::empty()).with_mode(next);
    assert(implied.kind_at(machine.stack.len() as int) == Some(kind));
    assert(is_shaped(implied)) by {
        if machine.stack.len() > 0 {
            assert(implied.kind_at(0) == machine.kind_at(0));
        }
    }
    match token {
        Token::Char(c) => {
            lemma_opens_char(machine, c);
            if machine.stack.len() > 0 {
                assert(machine.insert_char(c).kind_at(0) == machine.kind_at(0));
            }
        },
        Token::StartTag { tag: found, attributes, .. } => {
            lemma_opens_element(machine, found, attributes);
            let inserted = machine.insert_element(found, attributes).with_mode(next);
            if kind_of_tag(found) == Some(kind) {
                assert(inserted.kind_at(machine.stack.len() as int) == Some(kind));
                if machine.stack.len() > 0 {
                    assert(inserted.kind_at(0) == machine.kind_at(0));
                }
            }
        },
        _ => {},
    }
}

/// In the head, the head is open and can be closed; `html` alone stays
/// open then.
proof fn lemma_shaped_close_head(machine: Machine, consume: bool)
    requires
        machine.wf(),
        is_shaped(machine),
        machine.mode is InHead,
    ensures
        is_orderly(machine.close(ElementKind::Head, InsertionMode::AfterHead, consume)),
{
    assert(machine.kind_at(1) == Some(ElementKind::Head));
    assert(machine.contains(ElementKind::Head));
    lemma_closes_at(machine, ElementKind::Head, 1);
    lemma_closes(machine, ElementKind::Head);
    lemma_pop_until(machine, ElementKind::Head);
    let closed = machine.pop_until(ElementKind::Head);
    assert(closed.kind_at(0) == machine.kind_at(0));
}

/// The mode `InHead` keeps the open nodes in order.
proof fn lemma_shaped_in_head(machine: Machine, token: Token)
    requires
        machine.wf(),
        is_shaped(machine),
        machine.mode is InHead,
    ensures
        is_orderly(machine.on_in_head(token)),
{
    lemma_shaped_close_head(machine, true);
    lemma_shaped_close_head(machine, false);
    match token {
        Token::Char(c) => {
            lemma_opens_char(machine, c);
            let next = machine.insert_char(c);
            assert(next.kind_at(0) == machine.kind_at(0));
            assert(next.kind_at(1) == machine.kind_at(1));
            assert forall|i: int| 2 <= i < next.stack.len() implies #[trigger] next.kind_at(i)
                != Some(ElementKind::Head) by {
                if i < machine.stack.len() {
                    assert(machine.kind_at(i) != Some(ElementKind::Head));
                }
            }
        },
        Token::StartTag { tag, attributes, .. } => {
            lemma_opens_element(machine, tag, attributes);
            let inserted = machine.insert_element(tag, attributes);
            let next = Machine { mode: InsertionMode::Text, original: machine.mode, ..inserted };
            assert(next.kind_at(0) == inserted.kind_at(0) && inserted.kind_at(0) == machine.kind_at(0));
            assert(next.kind_at(1) == inserted.kind_at(1) && inserted.kind_at(1) == machine.kind_at(1));
            if kind_of_tag(tag) == Some(ElementKind::Style) || kind_of_tag(tag) == Some(
                ElementKind::Script,
            ) {
                assert forall|i: int| 2 <= i < next.stack.len() implies #[trigger] next.kind_at(i)
                    != Some(ElementKind::Head) by {
                    assert(next.kind_at(i) == inserted.kind_at(i));
                    if i < machine.stack.len() {
                        assert(machine.kind_at(i) != Some(ElementKind::Head));
                    }
                }
            }
        },
        _ => {},
    }
}

/// The mode `Text` keeps the open nodes in order.
proof fn lemma_shaped_text(machine: Machine, token: Token)
    requires
        machine.wf(),
        is_shaped(machine),
        machine.mode is Text,
    ensures
        is_orderly(machine.on_text(token)),
{
    let back = machine.with_mode(machine.original);
    assert(is_shaped(back)) by {
        assert(back.kind_at(0) == machine.kind_at(0));
        assert(back.kind_at(1) == machine.kind_at(1));
        assert forall|i: int| 2 <= i < back.stack.len() implies #[trigger] back.kind_at(i)
            != Some(ElementKind::Head) by {
            assert(machine.kind_at(i) != Some(ElementKind::Head));
        }
    }
    match token {
        Token::Char(c) => {
            lemma_opens_char(machine, c);
            let next = machine.insert_char(c);
            assert(next.kind_at(0) == machine.kind_at(0));
            assert(next.kind_at(1) == machine.kind_at(1));
            assert forall|i: int| 2 <= i < next.stack.len() implies #[trigger] next.kind_at(i)
                != Some(ElementKind::Head) by {
                if i < machine.stack.len() {
                    assert(machine.kind_at(i) != Some(ElementKind::Head));
                }
            }
        },
        Token::EndTag { tag } => {
            if machine.innermost_element() == Some(ElementKind::Style) {
                lemma_innermost_is_open(machine, ElementKind::Style);
                lemma_shaped_close_text(machine, ElementKind::Style);
            }
            if machine.innermost_element() == Some(ElementKind::Script) {
                lemma_innermost_is_open(machine, ElementKind::Script);
                lemma_shaped_close_text(machine, ElementKind::Script);
            }
        },
        _ => {},
    }
}

/// Closing a style or a script leaves `html` and `head` open.
proof fn lemma_shaped_close_text(machine: Machine, kind: ElementKind)
    requires
        machine.wf(),
        is_shaped(machine),
        machine.mode is Text,
        kind is Style || kind is Script,
        machine.contains(kind),
    ensures
        is_shaped(machine.pop_until(kind).with_mode(machine.original)),
{
    lemma_pop_until(machine, kind);
    lemma_closes(machine, kind);
    assert forall|i: int| 0 <= i < 2 implies #[trigger] machine.kind_at(i) != Some(kind) by {}
    lemma_closes_above(machine, kind, 2);
    let next = machine.pop_until(kind).with_mode(machine.original);
    let closed = machine.pop_until(kind);
    assert(next.kind_at(0) == closed.kind_at(0) && closed.kind_at(0) == machine.kind_at(0));
    assert(next.kind_at(1) == closed.kind_at(1) && closed.kind_at(1) == machine.kind_at(1));
    assert forall|i: int| 2 <= i < next.stack.len() implies #[trigger] next.kind_at(i) != Some(
        ElementKind::Head,
    ) by {
        assert(closed.kind_at(i) == machine.kind_at(i));
        assert(machine.kind_at(i) != Some(ElementKind::Head));
    }
}

/// A body that is open behind `<body>` stays the child of an outermost
/// `html` when nodes are closed.
proof fn lemma_shaped_closed(machine: Machine, closed: Machine, mode: InsertionMode)
    requires
        is_shaped(machine),
        is_late(machine.mode),
        is_late(mode),
        closes(machine, closed),
    ensures
        is_shaped(closed.with_mode(mode)),
{
    let next = closed.with_mode(mode);
    assert forall|i: int|
        0 <= i < next.stack.len() && #[trigger] next.kind_at(i) == Some(
            ElementKind::Body,
        ) implies i == 1 && next.kind_at(0) == Some(ElementKind::Html) by {
        assert(closed.kind_at(i) == machine.kind_at(i));
        assert(closed.kind_at(0) == machine.kind_at(0));
    }
}

/// A body that is open behind `<body>` stays the child of an outermost
/// `html` when a node that is no body is opened.
proof fn lemma_shaped_opened(machine: Machine, opened: Machine, added: Option<ElementKind>)
    requires
        is_shaped(machine),
        is_late(machine.mode),
        is_late(opened.mode),
        opens(machine, opened, added),
        added != Some(ElementKind::Body),
    ensures
        is_shaped(opened),
{
    assert forall|i: int|
        0 <= i < opened.stack.len() && #[trigger] opened.kind_at(i) == Some(
            ElementKind::Body,
        ) implies i == 1 && opened.kind_at(0) == Some(ElementKind::Html) by {
        assert(i < machine.stack.len());
        assert(opened.kind_at(i) == machine.kind_at(i));
        assert(opened.kind_at(0) == machine.kind_at(0));
    }
}

/// The mode `InBody` keeps the open nodes in order.
proof fn lemma_shaped_in_body(machine: Machine, token: Token)
    requires
        machine.wf(),
        is_shaped(machine),
        machine.mode is InBody,
    ensures
        is_orderly(machine.on_in_body(token)),
{
    match token {
        Token::Char(c) => {
            lemma_opens_char(machine, c);
            lemma_shaped_opened(machine, machine.insert_char(c), None);
        },
        Token::StartTag { tag, attributes, .. } => {
            lemma_opens_element(machine, tag, attributes);
            if kind_of_tag(tag) != Some(ElementKind::Body) {
                lemma_shaped_opened(
                    machine,
                    machine.insert_element(tag, attributes),
                    kind_of_tag(tag),
                );
            }
        },
        Token::EndTag { tag } => {
            lemma_closes(machine, ElementKind::Body);
            lemma_closes(machine, ElementKind::Html);
            lemma_closes(machine, ElementKind::P);
            lemma_closes(machine, ElementKind::H1);
            lemma_closes(machine, ElementKind::H2);
            lemma_closes(machine, ElementKind::A);
            lemma_shaped_closed(
                machine,
                machine.pop_until(ElementKind::Body),
                InsertionMode::AfterBody,
            );
            lemma_shaped_closed(machine, machine, InsertionMode::AfterBody);
            lemma_shaped_closed(machine, machine.pop_until(ElementKind::P), machine.mode);
            lemma_shaped_closed(machine, machine.pop_until(ElementKind::H1), machine.mode);
            lemma_shaped_closed(machine, machine.pop_until(ElementKind::H2), machine.mode);
            lemma_shaped_closed(machine, machine.pop_until(ElementKind::A), machine.mode);
            if machine.stack.len() > 0 {
                lemma_shaped_closed(
                    machine,
                    machine.pop().pop_current(ElementKind::Html),
                    InsertionMode::AfterBody,
                );
            }
        },
        _ => {},
    }
}

/// Every token keeps the open nodes as the modes ask for them. So the head
/// is open whenever it is to be closed, and the only failure is an end tag
/// `</p>`, `</h1>`, `</h2>` or `</a>` in the body while no such element is
/// open.
pub proof fn lemma_dispatch_shaped(machine: Machine, token: Token)
    requires
        machine.wf(),
        is_shaped(machine),
    ensures
        is_orderly(machine.dispatch(token)),
{
    lemma_known_tags();
    match machine.mode {
        InsertionMode::Initial => {},
        InsertionMode::BeforeHtml => {
            lemma_shaped_waiting_for(
                machine,
                token,
                ElementKind::Html,
                "html"@,
                InsertionMode::BeforeHead,
                false,
            );
        },
        InsertionMode::BeforeHead => {
            lemma_shaped_waiting_for(
                machine,
                token,
                ElementKind::Head,
                "head"@,
                InsertionMode::InHead,
                false,
            );
        },
        InsertionMode::AfterHead => {
            lemma_shaped_waiting_for(
                machine,
                token,
                ElementKind::Body,
                "body"@,
                InsertionMode::InBody,
                true,
            );
        },
        InsertionMode::InHead => {
            lemma_shaped_in_head(machine, token);
        },
        InsertionMode::Text => {
            lemma_shaped_text(machine, token);
        },
        InsertionMode::InBody => {
            lemma_shaped_in_body(machine, token);
        },
        InsertionMode::AfterBody | InsertionMode::AfterAfterBody => {
            lemma_shaped_closed(machine, machine, InsertionMode::InBody);
            lemma_shaped_closed(machine, machine, InsertionMode::AfterAfterBody);
        },
    }
}

/// Where `<html>` is closed on an open body, the body is the child of
/// `html` and both are closed: no node stays open.
pub proof fn lemma_html_under_body(machine: Machine)
    requires
        is_shaped(machine),
        is_late(machine.mode),
        machine.current_is(ElementKind::Body),
    ensures
        machine.pop().current_is(ElementKind::Html),
        machine.pop().pop_current(ElementKind::Html).stack.len() == 0,
{
    assert(machine.kind_at(machine.stack.len() - 1) == Some(ElementKind::Body));
    assert(machine.pop().kind_at(0) == machine.kind_at(0));
}

/// Reading a document from its beginning fails only where an end tag
/// `</p>`, `</h1>`, `</h2>` or `</a>` finds no such element open: the head
/// is never missed.
pub proof fn lemma_run_shaped(machine: Machine, tokens: Seq<Token>)
    requires
        machine.wf(),
        is_shaped(machine),
    ensures
        match machine.run(tokens) {
            Ok(last) => is_shaped(last),
            Err(kind) => kind is P || kind is H1 || kind is H2 || kind is A,
        },
    decreases tokens.len(), rank(machine.mode, tokens[0]),
{
    if tokens.len() > 0 {
        lemma_dispatch(machine, tokens[0]);
        lemma_dispatch_shaped(machine, tokens[0]);
        match machine.dispatch(tokens[0]) {
            Outcome::Consumed(next) => {
                lemma_run_shaped(next, tokens.drop_first());
            },
            Outcome::Reprocess(next) => {
                lemma_run_shaped(next, tokens);
            },
            _ => {},
        }
    }
}

/// From the beginning of a document on, the tree constructor fails only
/// where an end tag `</p>`, `</h1>`, `</h2>` or `</a>` finds no such
/// element open.
pub proof fn lemma_failures(tokens: Seq<Token>)
    ensures
        Machine::initial().run(tokens) matches Err(kind) ==> kind is P || kind is H1 || kind is H2
            || kind is A,
{
    let start = Machine::initial();
    assert(start.wf());
    lemma_run_shaped(start, tokens);
}

/// An empty input gives the document alone, without a child.
pub proof fn lemma_empty_input()
    ensures
        tokens_of(Seq::empty()) == seq![Token::Eof],
        Machine::initial().run(tokens_of(Seq::empty())) matches Ok(last) && last.tree
            == Machine::initial().tree,
{
    let tokens = seq![Token::Eof];
    assert(tokens_of(Seq::empty()) =~= tokens);
    let start = Machine::initial();
    assert(start.dispatch(tokens[0]) == Outcome::Finished);
}

/// The text `<html><head></head><body>` is cut into the tokens of these
/// four tags, whatever follows it.
pub proof fn lemma_frame_text(rest: Seq<char>)
    ensures
        tokens_of("<html><head></head><body>"@ + rest) == frame_tokens(
            Seq::empty(),
            Seq::empty(),
            Seq::empty(),
        ) + tokens_from("<html><head></head><body>"@ + rest, 25),
{
    reveal_strlit("<html><head></head><body>");
    reveal_strlit("html");
    reveal_strlit("head");
    reveal_strlit("body");
    let frame = "<html><head></head><body>"@;
    let input = frame + rest;
    assert forall|i: int| 0 <= i < 25 implies input[i] == frame[i] by {}
    assert(input.subrange(1, 5) =~= "html"@);
    assert(input.subrange(7, 11) =~= "head"@);
    assert(input.subrange(14, 18) =~= "head"@);
    assert(input.subrange(20, 24) =~= "body"@);
    lemma_plain_start_tag(input, 0, "html"@);
    lemma_plain_start_tag(input, 6, "head"@);
    lemma_plain_end_tag(input, 12, "head"@);
    lemma_plain_start_tag(input, 19, "body"@);
    let tokens = frame_tokens(Seq::empty(), Seq::empty(), Seq::empty());
    assert(tokens_from(input, 19) =~= seq![tokens[3]] + tokens_from(input, 25));
    assert(tokens_from(input, 12) =~= seq![tokens[2]] + tokens_from(input, 19));
    assert(tokens_from(input, 6) =~= seq![tokens[1]] + tokens_from(input, 12));
    assert(tokens_from(input, 0) =~= seq![tokens[0]] + tokens_from(input, 6));
    assert(tokens_of(input) =~= tokens + tokens_from(input, 25));
}

/// A text that begins with `<html><head></head><body>` gets the nodes of
/// these tags and no other `html`, `head` or `body` element, whatever
/// follows them.
pub proof fn lemma_framed_document(rest: Seq<char>)
    ensures
        Machine::initial().run(tokens_of("<html><head></head><body>"@ + rest)) matches Ok(
            last,
        ) ==> {
            &&& last.tree.len() >= 4
            &&& last.tree.take(4) == frame_tree(Seq::empty(), Seq::empty(), Seq::empty())
            &&& adds_no_frame(last.tree, 4)
            &&& well_formed(last.tree)
        },
{
    lemma_frame_text(rest);
    lemma_no_frame_is_implied(
        Seq::empty(),
        Seq::empty(),
        Seq::empty(),
        tokens_from("<html><head></head><body>"@ + rest, 25),
    );
}

/// Reading tokens one part after the other is reading them all: where
/// the first part holds no `Eof`, the rest is read from where the first
/// part has led, and a failure in the first part is the failure of all.
pub proof fn lemma_run_in_parts(machine: Machine, first: Seq<Token>, rest: Seq<Token>)
    requires
        machine.wf(),
        forall|i: int| 0 <= i < first.len() ==> !(#[trigger] first[i] is Eof),
    ensures
        machine.run(first + rest) == match machine.run(first) {
            Ok(led) => led.run(rest),
            Err(kind) => Err(kind),
        },
    decreases first.len(), rank(machine.mode, first[0]),
{
    if first.len() == 0 {
        assert(first + rest =~= rest);
    } else {
        let all = first + rest;
        assert(all[0] == first[0]);
        assert(!(first[0] is Eof));
        assert(all.drop_first() =~= first.drop_first() + rest);
        lemma_dispatch(machine, first[0]);
        match machine.dispatch(first[0]) {
            Outcome::Consumed(next) => {
                assert forall|i: int| 0 <= i < first.drop_first().len() implies !(
                #[trigger] first.drop_first()[i] is Eof) by {
                    assert(first.drop_first()[i] == first[i + 1]);
                }
                lemma_run_in_parts(next, first.drop_first(), rest);
            },
            Outcome::Reprocess(next) => {
                lemma_run_in_parts(next, first, rest);
            },
            _ => {},
        }
    }
}

/// Whether `token` is one of the tokens that are read inside a body
/// without closing it: a character, or a start or end tag of `p`, `h1`,
/// `h2` or `a`.
pub open spec fn is_body_token(token: Token) -> bool {
    match token {
        Token::Char(_) => true,
        Token::StartTag { tag, .. } => is_body_kind(kind_of_tag(tag)),
        Token::EndTag { tag } => is_body_kind(kind_of_tag(tag)),
        Token::Eof => false,
    }
}

/// Whether `kind` is `p`, `h1`, `h2` or `a`.
pub open spec fn is_body_kind(kind: Option<ElementKind>) -> bool {
    kind == Some(ElementKind::P) || kind == Some(ElementKind::H1) || kind == Some(
        ElementKind::H2,
    ) || kind == Some(ElementKind::A)
}

/// Whether all of `tokens` are read inside a body without closing it.
pub open spec fn are_body_tokens(tokens: Seq<Token>) -> bool {
    forall|i: int| 0 <= i < tokens.len() ==> is_body_token(#[trigger] tokens[i])
}

/// The tokens of `</body></html>` and the end of the input.
pub open spec fn closing_tokens() -> Seq<Token> {
    seq![Token::EndTag { tag: "body"@ }, Token::EndTag { tag: "html"@ }, Token::Eof]
}

/// Whether the tree constructor is inside the body of a document that
/// brought its own `html`, `head` and `body`: the tree begins with the
/// document and these three, `html` and `body` are the outermost open
/// nodes, every node behind the body hangs under the body or under a node
/// behind it, and none of them is an `html`, a `head` or a `body`.
pub open spec fn is_inside_body(
    machine: Machine,
    html: Seq<AttributeView>,
    head: Seq<AttributeView>,
    body: Seq<AttributeView>,
) -> bool {
    &&& machine.wf()
    &&& machine.mode is InBody
    &&& machine.tree.len() >= 4
    &&& machine.tree.take(4) == frame_tree(html, head, body)
    &&& adds_no_frame(machine.tree, 4)
    &&& hangs_under_body(machine.tree)
    &&& machine.stack.len() >= 2
    &&& machine.stack[0] == 1
    &&& machine.stack[1] == 3
    &&& forall|i: int| 1 <= i < machine.stack.len() ==> #[trigger] machine.stack[i] >= 3
}

/// Whether every node of `tree` behind the first four has its parent
/// behind the first three.
pub open spec fn hangs_under_body(tree: Seq<TreeNode>) -> bool {
    forall|n: int| 4 <= n < tree.len() ==> (#[trigger] tree[n]).parent is Some && tree[n].parent->0 >= 3
}

/// The kinds of the two outermost open nodes inside a body.
proof fn lemma_inside_body_kinds(
    machine: Machine,
    html: Seq<AttributeView>,
    head: Seq<AttributeView>,
    body: Seq<AttributeView>,
)
    requires
        is_inside_body(machine, html, head, body),
    ensures
        machine.kind_at(0) == Some(ElementKind::Html),
        machine.kind_at(1) == Some(ElementKind::Body),
        machine.contains(ElementKind::Body),
        machine.tree[3].kind is Element,
{
    lemma_known_tags();
    let frame = frame_tree(html, head, body);
    assert(machine.tree.take(4)[1] == machine.tree[1]);
    assert(machine.tree.take(4)[3] == machine.tree[3]);
    assert(machine.kind_at(1) == Some(ElementKind::Body));
}

/// A token that is read inside a body without closing it leaves the tree
/// constructor inside the body, or fails.
proof fn lemma_inside_body_step(
    machine: Machine,
    token: Token,
    html: Seq<AttributeView>,
    head: Seq<AttributeView>,
    body: Seq<AttributeView>,
)
    requires
        is_inside_body(machine, html, head, body),
        is_body_token(token),
    ensures
        match machine.dispatch(token) {
            Outcome::Consumed(next) => is_inside_body(next, html, head, body),
            Outcome::Failed(_) => true,
            _ => false,
        },
{
    lemma_inside_body_kinds(machine, html, head, body);
    lemma_dispatch(machine, token);
    lemma_dispatch_late(machine, token);
    let current = machine.stack.last();
    assert(machine.stack[machine.stack.len() - 1] >= 3);
    match machine.dispatch(token) {
        Outcome::Consumed(next) => {
            lemma_frame_kept(machine.tree, next.tree, 4);
            assert(next.tree.take(4) =~= machine.tree.take(4)) by {
                assert forall|i: int| 0 <= i < 4 implies next.tree[i] == machine.tree[i] by {
                    assert(keeps(machine.tree[i], next.tree[i]));
                    assert(machine.tree.take(4)[i] == machine.tree[i]);
                }
            }
            assert(hangs_under_body(next.tree)) by {
                assert forall|n: int| 4 <= n < next.tree.len() implies (
                #[trigger] next.tree[n]).parent is Some && next.tree[n].parent->0 >= 3 by {
                    if n < machine.tree.len() {
                        assert(keeps(machine.tree[n], next.tree[n]));
                        assert(machine.tree[n].parent is Some);
                    } else {
                        match token {
                            Token::Char(c) => {
                                assert(next == machine.insert_char(c));
                                assert(next.tree[n].parent == Some(current));
                            },
                            Token::StartTag { tag, attributes, .. } => {
                                assert(next == machine.insert_element(tag, attributes));
                                assert(next.tree[n].parent == Some(current));
                            },
                            Token::EndTag { tag } => {
                                lemma_pop_until(machine, kind_of_tag(tag)->0);
                            },
                            _ => {},
                        }
                    }
                }
            }
            match token {
                Token::EndTag { tag } => {
                    let kind = kind_of_tag(tag)->0;
                    lemma_pop_until(machine, kind);
                    assert forall|i: int| 0 <= i < 2 implies #[trigger] machine.kind_at(i)
                        != Some(kind) by {}
                    lemma_closes_above(machine, kind, 2);
                    assert forall|i: int| 1 <= i < next.stack.len() implies #[trigger] next.stack[i]
                        >= 3 by {
                        assert(next.stack[i] == machine.stack[i]);
                    }
                    assert(next.stack[0] == machine.stack[0]);
                    assert(next.stack[1] == machine.stack[1]);
                },
                _ => {
                    assert forall|i: int| 1 <= i < next.stack.len() implies #[trigger] next.stack[i]
                        >= 3 by {
                        if i < machine.stack.len() {
                            assert(next.stack[i] == machine.stack[i]);
                        }
                    }
                    assert(next.stack[0] == machine.stack[0]);
                    assert(next.stack[1] == machine.stack[1]);
                },
            }
        },
        _ => {},
    }
}

/// Tokens that are read inside a body without closing it leave the tree
/// constructor inside the body, or fail.
pub proof fn lemma_inside_body_run(
    machine: Machine,
    tokens: Seq<Token>,
    html: Seq<AttributeView>,
    head: Seq<AttributeView>,
    body: Seq<AttributeView>,
)
    requires
        is_inside_body(machine, html, head, body),
        are_body_tokens(tokens),
    ensures
        machine.run(tokens) matches Ok(led) ==> is_inside_body(led, html, head, body),
    decreases tokens.len(),
{
    if tokens.len() > 0 {
        assert(is_body_token(tokens[0]));
        lemma_inside_body_step(machine, tokens[0], html, head, body);
        match machine.dispatch(tokens[0]) {
            Outcome::Consumed(next) => {
                assert forall|i: int| 0 <= i < tokens.drop_first().len() implies is_body_token(
                    #[trigger] tokens.drop_first()[i],
                ) by {
                    assert(tokens.drop_first()[i] == tokens[i + 1]);
                }
                lemma_inside_body_run(next, tokens.drop_first(), html, head, body);
            },
            _ => {},
        }
    }
}

/// Inside a body, `</body></html>` and the end of the input end the work
/// with the tree as it is.
proof fn lemma_inside_body_closes(
    machine: Machine,
    html: Seq<AttributeView>,
    head: Seq<AttributeView>,
    body: Seq<AttributeView>,
)
    requires
        is_inside_body(machine, html, head, body),
    ensures
        machine.run(closing_tokens()) matches Ok(last) && last.tree == machine.tree,
{
    lemma_known_tags();
    lemma_inside_body_kinds(machine, html, head, body);
    lemma_pop_until(machine, ElementKind::Body);
    let tokens = closing_tokens();
    let after_body = machine.pop_until(ElementKind::Body).with_mode(InsertionMode::AfterBody);
    assert(machine.dispatch(tokens[0]) == Outcome::Consumed(after_body));
    let second = tokens.drop_first();
    assert(machine.run(tokens) == after_body.run(second));
    let after_html = after_body.with_mode(InsertionMode::AfterAfterBody);
    assert(second[0] == tokens[1]);
    assert(after_body.dispatch(second[0]) == Outcome::Consumed(after_html));
    let third = second.drop_first();
    assert(after_body.run(second) == after_html.run(third));
    assert(third[0] == tokens[2]);
    assert(after_html.dispatch(third[0]) == Outcome::Finished);
    assert(after_html.run(third) == Ok::<Machine, ElementKind>(after_html));
}

/// In a tree that begins with the document, `html`, `head` and `body`,
/// and whose other nodes hang under the body, the document has the one
/// child `html`, and `html` has the two children `head` and `body`.
pub proof fn lemma_frame_children(
    tree: Seq<TreeNode>,
    html: Seq<AttributeView>,
    head: Seq<AttributeView>,
    body: Seq<AttributeView>,
)
    requires
        tree.len() >= 4,
        tree.take(4) == frame_tree(html, head, body),
        hangs_under_body(tree),
    ensures
        children(tree, 0) == seq![1int],
        children(tree, 1) == seq![2int, 3int],
{
    let frame = frame_tree(html, head, body);
    assert forall|i: int| 0 <= i < 4 implies tree[i] == frame[i] by {
        assert(tree.take(4)[i] == tree[i]);
    }
    assert forall|k: int| 4 <= k < tree.len() implies !#[trigger] is_child(tree, 0, k) by {}
    assert forall|k: int| 4 <= k < tree.len() implies !#[trigger] is_child(tree, 1, k) by {}
    lemma_children_skip(tree, 0, 4, tree.len() as int);
    lemma_children_skip(tree, 1, 4, tree.len() as int);
    assert(children_below(tree, 0, 0) =~= Seq::<int>::empty());
    assert(children_below(tree, 0, 1) =~= Seq::<int>::empty());
    assert(children_below(tree, 0, 2) =~= seq![1int]);
    assert(children_below(tree, 0, 3) =~= seq![1int]);
    assert(children_below(tree, 0, 4) =~= seq![1int]);
    assert(children_below(tree, 1, 0) =~= Seq::<int>::empty());
    assert(children_below(tree, 1, 1) =~= Seq::<int>::empty());
    assert(children_below(tree, 1, 2) =~= Seq::<int>::empty());
    assert(children_below(tree, 1, 3) =~= seq![2int]);
    assert(children_below(tree, 1, 4) =~= seq![2int, 3int]);
}

/// A document `<html><head></head><body>`, a body of characters and of
/// start and end tags of `p`, `h1`, `h2` and `a`, and `</body></html>`
/// gets no node that it did not bring: the tree begins with the document
/// and the elements of the three tags; the document has the one child
/// `html`, `html` has the two children `head` and `body`, in this order,
/// and no other node is an `html`, a `head` or a `body`.
pub proof fn lemma_framed_body(
    html: Seq<AttributeView>,
    head: Seq<AttributeView>,
    body: Seq<AttributeView>,
    inside: Seq<Token>,
)
    requires
        are_body_tokens(inside),
    ensures
        Machine::initial().run(frame_tokens(html, head, body) + inside + closing_tokens())
            matches Ok(last) ==> {
            &&& well_formed(last.tree)
            &&& last.tree.len() >= 4
            &&& last.tree.take(4) == frame_tree(html, head, body)
            &&& adds_no_frame(last.tree, 4)
            &&& children(last.tree, 0) == seq![1int]
            &&& children(last.tree, 1) == seq![2int, 3int]
        },
{
    let frame = frame_tokens(html, head, body);
    let machine = framed(html, head, body);
    assert(frame + inside + closing_tokens() =~= frame + (inside + closing_tokens()));
    lemma_frame(html, head, body, inside + closing_tokens());
    assert(is_inside_body(machine, html, head, body)) by {
        assert(machine.tree.take(4) =~= frame_tree(html, head, body));
    }
    assert forall|i: int| 0 <= i < inside.len() implies !(#[trigger] inside[i] is Eof) by {
        assert(is_body_token(inside[i]));
    }
    lemma_run_in_parts(machine, inside, closing_tokens());
    lemma_inside_body_run(machine, inside, html, head, body);
    if let Ok(led) = machine.run(inside) {
        lemma_inside_body_closes(led, html, head, body);
        lemma_frame_children(led.tree, html, head, body);
    }
}

/// A tag that stands in a text: the token that it makes and the number of
/// its characters.
pub ghost struct TagAt {
    pub token: Token,
    pub length: int,
}

/// The tag `<name>` or `</name>` that stands in `text` at `pos`.
pub open spec fn tag_at(text: Seq<char>, pos: int, name: Seq<char>) -> Option<TagAt> {
    if start_tag_at(text, pos, name) {
        Some(
            TagAt {
                token: Token::StartTag {
                    tag: name,
                    self_closing: false,
                    attributes: Seq::empty(),
                },
                length: name.len() as int + 2,
            },
        )
    } else if end_tag_at(text, pos, name) {
        Some(TagAt { token: Token::EndTag { tag: name }, length: name.len() as int + 3 })
    } else {
        None
    }
}

/// The start or end tag of `p`, `h1`, `h2` or `a` without attributes that
/// stands in `text` at `pos`.
pub open spec fn body_tag_at(text: Seq<char>, pos: int) -> Option<TagAt> {
    if tag_at(text, pos, "p"@) is Some {
        tag_at(text, pos, "p"@)
    } else if tag_at(text, pos, "h1"@) is Some {
        tag_at(text, pos, "h1"@)
    } else if tag_at(text, pos, "h2"@) is Some {
        tag_at(text, pos, "h2"@)
    } else {
        tag_at(text, pos, "a"@)
    }
}

/// The tokens of `text` from `pos` on, where it is made of characters
/// other than `<` and of start and end tags of `p`, `h1`, `h2` and `a`
/// without attributes; `None` where it holds anything else.
pub open spec fn body_tokens_from(text: Seq<char>, pos: int) -> Option<Seq<Token>>
    decreases text.len() - pos,
{
    if pos < 0 || pos > text.len() {
        None
    } else if pos == text.len() {
        Some(Seq::empty())
    } else if text[pos] != '<' {
        match body_tokens_from(text, pos + 1) {
            Some(rest) => Some(seq![char_token(text[pos])] + rest),
            None => None,
        }
    } else {
        match body_tag_at(text, pos) {
            Some(tag) => if tag.length <= 0 {
                None
            } else {
                match body_tokens_from(text, pos + tag.length) {
                    Some(rest) => Some(seq![tag.token] + rest),
                    None => None,
                }
            },
            None => None,
        }
    }
}

/// The tokens of a text of characters other than `<` and of start and end
/// tags of `p`, `h1`, `h2` and `a` without attributes.
pub open spec fn body_tokens_of(text: Seq<char>) -> Option<Seq<Token>> {
    body_tokens_from(text, 0)
}

/// A tag of `p`, `h1`, `h2` or `a` that stands in a part of the input is
/// the token at its place in the input.
proof fn lemma_body_tag(input: Seq<char>, offset: int, text: Seq<char>, pos: int)
    requires
        0 <= offset,
        offset + text.len() <= input.len(),
        input.subrange(offset, offset + text.len()) == text,
        0 <= pos < text.len(),
        body_tag_at(text, pos) is Some,
    ensures
        body_tag_at(text, pos) matches Some(tag) && next_token(input, offset + pos) == (
            tag.token,
            offset + pos + tag.length,
        ) && is_body_token(tag.token) && 0 < tag.length && pos + tag.length <= text.len(),
{
    reveal_strlit("p");
    reveal_strlit("h1");
    reveal_strlit("h2");
    reveal_strlit("a");
    lemma_known_tags();
    let name = if tag_at(text, pos, "p"@) is Some {
        "p"@
    } else if tag_at(text, pos, "h1"@) is Some {
        "h1"@
    } else if tag_at(text, pos, "h2"@) is Some {
        "h2"@
    } else {
        "a"@
    };
    assert(tag_at(text, pos, name) is Some);
    assert(body_tag_at(text, pos) == tag_at(text, pos, name));
    assert forall|i: int| 0 <= i < text.len() implies input[offset + i] == text[i] by {
        assert(input.subrange(offset, offset + text.len())[i] == input[offset + i]);
    }
    assert(is_letter(name[0]));
    assert forall|i: int| 0 <= i < name.len() implies is_name_char(#[trigger] name[i]) by {}
    if start_tag_at(text, pos, name) {
        assert(input.subrange(offset + pos + 1, offset + pos + 1 + name.len()) =~= name) by {
            assert forall|i: int| 0 <= i < name.len() implies input[offset + pos + 1 + i]
                == name[i] by {
                assert(text.subrange(pos + 1, pos + 1 + name.len())[i] == text[pos + 1 + i]);
            }
        }
        lemma_plain_start_tag(input, offset + pos, name);
    } else {
        assert(end_tag_at(text, pos, name));
        assert(input.subrange(offset + pos + 2, offset + pos + 2 + name.len()) =~= name) by {
            assert forall|i: int| 0 <= i < name.len() implies input[offset + pos + 2 + i]
                == name[i] by {
                assert(text.subrange(pos + 2, pos + 2 + name.len())[i] == text[pos + 2 + i]);
            }
        }
        lemma_plain_end_tag(input, offset + pos, name);
    }
}

/// Where a text of characters and of tags of `p`, `h1`, `h2` and `a`
/// stands in the input, the input is cut there into the tokens of that
/// text, and goes on behind it.
pub proof fn lemma_body_text(input: Seq<char>, offset: int, text: Seq<char>, pos: int)
    requires
        0 <= offset,
        offset + text.len() <= input.len(),
        input.subrange(offset, offset + text.len()) == text,
        0 <= pos <= text.len(),
        body_tokens_from(text, pos) is Some,
    ensures
        tokens_from(input, offset + pos) == body_tokens_from(text, pos)->0 + tokens_from(
            input,
            offset + text.len(),
        ),
        are_body_tokens(body_tokens_from(text, pos)->0),
    decreases text.len() - pos,
{
    let found = body_tokens_from(text, pos)->0;
    let behind = tokens_from(input, offset + text.len());
    if pos == text.len() {
        assert(found + behind =~= behind);
    } else {
        assert(input[offset + pos] == text[pos]) by {
            assert(input.subrange(offset, offset + text.len())[pos] == input[offset + pos]);
        }
        if text[pos] != '<' {
            let rest = body_tokens_from(text, pos + 1)->0;
            lemma_body_text(input, offset, text, pos + 1);
            assert(next_token(input, offset + pos) == (char_token(text[pos]), offset + pos + 1));
            lemma_tokens_go_on(input, offset + pos);
            assert(found + behind =~= seq![char_token(text[pos])] + (rest + behind));
            assert forall|i: int| 0 <= i < found.len() implies is_body_token(
                #[trigger] found[i],
            ) by {
                if i > 0 {
                    assert(found[i] == rest[i - 1]);
                    assert(is_body_token(rest[i - 1]));
                }
            }
        } else {
            let tag = body_tag_at(text, pos)->0;
            lemma_body_tag(input, offset, text, pos);
            let rest = body_tokens_from(text, pos + tag.length)->0;
            lemma_body_text(input, offset, text, pos + tag.length);
            lemma_tokens_go_on(input, offset + pos);
            assert(found + behind =~= seq![tag.token] + (rest + behind));
            assert forall|i: int| 0 <= i < found.len() implies is_body_token(
                #[trigger] found[i],
            ) by {
                if i > 0 {
                    assert(found[i] == rest[i - 1]);
                    assert(is_body_token(rest[i - 1]));
                }
            }
        }
    }
}

/// The text `</body></html>` at the end of an input is cut into the
/// tokens of these two tags and `Eof`.
proof fn lemma_closing_text(input: Seq<char>, pos: int)
    requires
        0 <= pos,
        pos + 14 == input.len(),
        input.subrange(pos, pos + 14) == "</body></html>"@,
    ensures
        tokens_from(input, pos) == closing_tokens(),
{
    reveal_strlit("</body></html>");
    reveal_strlit("body");
    reveal_strlit("html");
    let closing = "</body></html>"@;
    let part = input.subrange(pos, pos + 14);
    assert(input[pos] == part[0] && input[pos + 1] == part[1] && input[pos + 6] == part[6]);
    assert(input[pos + 7] == part[7] && input[pos + 8] == part[8] && input[pos + 13] == part[13]);
    assert(input.subrange(pos + 2, pos + 6) =~= "body"@) by {
        assert forall|j: int| 0 <= j < 4 implies input.subrange(pos + 2, pos + 6)[j]
            == "body"@[j] by {
            assert(part[2 + j] == input[pos + 2 + j]);
        }
    }
    assert(input.subrange(pos + 9, pos + 13) =~= "html"@) by {
        assert forall|j: int| 0 <= j < 4 implies input.subrange(pos + 9, pos + 13)[j]
            == "html"@[j] by {
            assert(part[9 + j] == input[pos + 9 + j]);
        }
    }
    lemma_plain_end_tag(input, pos, "body"@);
    lemma_plain_end_tag(input, pos + 7, "html"@);
    lemma_tokens_go_on(input, pos);
    lemma_tokens_go_on(input, pos + 7);
    assert(tokens_from(input, pos + 14) =~= seq![Token::Eof]);
    assert(tokens_from(input, pos) =~= closing_tokens());
}

/// A text `<html><head></head><body>`, a body of characters other than
/// `<` and of start and end tags of `p`, `h1`, `h2` and `a`, and
/// `</body></html>` is cut into the tokens of its three parts.
pub proof fn lemma_body_frame_text(inside: Seq<char>)
    requires
        body_tokens_of(inside) is Some,
    ensures
        tokens_of("<html><head></head><body>"@ + inside + "</body></html>"@) == frame_tokens(
            Seq::empty(),
            Seq::empty(),
            Seq::empty(),
        ) + body_tokens_of(inside)->0 + closing_tokens(),
        are_body_tokens(body_tokens_of(inside)->0),
{
    reveal_strlit("<html><head></head><body>");
    reveal_strlit("</body></html>");
    let opening = "<html><head></head><body>"@;
    let closing = "</body></html>"@;
    let input = opening + inside + closing;
    let frame = frame_tokens(Seq::empty(), Seq::empty(), Seq::empty());
    let found = body_tokens_of(inside)->0;
    assert(input =~= opening + (inside + closing));
    lemma_frame_text(inside + closing);
    let end = 25 + inside.len() as int;
    assert(input.subrange(25, end) =~= inside);
    lemma_body_text(input, 25, inside, 0);
    assert(input.subrange(end, end + 14) =~= closing);
    lemma_closing_text(input, end);
    assert(tokens_of(input) =~= frame + found + closing_tokens());
}

/// A text `<html><head></head><body>`, a body of characters other than
/// `<` and of start and end tags of `p`, `h1`, `h2` and `a`, and
/// `</body></html>` gets no node that it did not bring: the tree begins
/// with the document and the elements `html`, `head` and `body`; the
/// document has the one child `html`, `html` has the two children `head`
/// and `body`, in this order, and no other node is an `html`, a `head` or
/// a `body`. The tags of the body need not be nested: where reading them
/// fails, there is no tree.
pub proof fn lemma_framed_text(inside: Seq<char>)
    requires
        body_tokens_of(inside) is Some,
    ensures
        Machine::initial().run(
            tokens_of("<html><head></head><body>"@ + inside + "</body></html>"@),
        ) matches Ok(last) ==> {
            &&& well_formed(last.tree)
            &&& last.tree.len() >= 4
            &&& last.tree.take(4) == frame_tree(Seq::empty(), Seq::empty(), Seq::empty())
            &&& adds_no_frame(last.tree, 4)
            &&& children(last.tree, 0) == seq![1int]
            &&& children(last.tree, 1) == seq![2int, 3int]
        },
{
    lemma_body_frame_text(inside);
    lemma_framed_body(Seq::empty(), Seq::empty(), Seq::empty(), body_tokens_of(inside)->0);
}

/// The kinds of the elements that are open inside the body, outermost
/// first: those of the open nodes behind `html` and `body` among the first
/// `n` open nodes, texts left out.
pub open spec fn open_kinds(machine: Machine, n: int) -> Seq<ElementKind>
    decreases n,
{
    if n <= 2 {
        Seq::empty()
    } else {
        match machine.kind_at(n - 1) {
            Some(kind) => open_kinds(machine, n - 1).push(kind),
            None => open_kinds(machine, n - 1),
        }
    }
}

/// Whether the tags among `tokens` are nested: every end tag closes the
/// element that was opened last and is still open, `open` being the kinds
/// of the elements that are open before the first token. All tags are
/// tags of `p`, `h1`, `h2` or `a`.
pub open spec fn is_nested(tokens: Seq<Token>, open: Seq<ElementKind>) -> bool
    decreases tokens.len(),
{
    if tokens.len() == 0 {
        true
    } else {
        match tokens[0] {
            Token::Char(_) => is_nested(tokens.drop_first(), open),
            Token::StartTag { tag, .. } => is_body_kind(kind_of_tag(tag)) && is_nested(
                tokens.drop_first(),
                open.push(kind_of_tag(tag)->0),
            ),
            Token::EndTag { tag } => is_body_kind(kind_of_tag(tag)) && open.len() > 0
                && open.last() == kind_of_tag(tag)->0 && is_nested(
                tokens.drop_first(),
                open.drop_last(),
            ),
            Token::Eof => false,
        }
    }
}

/// Nested tokens are tokens that are read inside a body without closing
/// it.
pub proof fn lemma_nested_are_body_tokens(tokens: Seq<Token>, open: Seq<ElementKind>)
    requires
        is_nested(tokens, open),
    ensures
        are_body_tokens(tokens),
    decreases tokens.len(),
{
    if tokens.len() > 0 {
        let rest = tokens.drop_first();
        match tokens[0] {
            Token::Char(_) => {
                lemma_nested_are_body_tokens(rest, open);
            },
            Token::StartTag { tag, .. } => {
                lemma_nested_are_body_tokens(rest, open.push(kind_of_tag(tag)->0));
            },
            Token::EndTag { tag } => {
                lemma_nested_are_body_tokens(rest, open.drop_last());
            },
            Token::Eof => {},
        }
        assert forall|i: int| 0 <= i < tokens.len() implies is_body_token(
            #[trigger] tokens[i],
        ) by {
            if i > 0 {
                assert(tokens[i] == rest[i - 1]);
                assert(is_body_token(rest[i - 1]));
            }
        }
    }
}

/// Tree constructors whose open nodes are of the same kinds have the same
/// elements open inside the body.
proof fn lemma_open_kinds_agree(first: Machine, second: Machine, n: int)
    requires
        forall|i: int| 2 <= i < n ==> #[trigger] first.kind_at(i) == second.kind_at(i),
    ensures
        open_kinds(first, n) == open_kinds(second, n),
    decreases n,
{
    if n > 2 {
        lemma_open_kinds_agree(first, second, n - 1);
        assert(first.kind_at(n - 1) == second.kind_at(n - 1));
    }
}

/// Where an element is open inside the body, the innermost one is at a
/// place of the stack behind which only texts are open, and before that
/// place the other elements are open.
proof fn lemma_innermost_open(machine: Machine, n: int) -> (at: int)
    requires
        open_kinds(machine, n).len() > 0,
    ensures
        2 <= at < n,
        machine.kind_at(at) == Some(open_kinds(machine, n).last()),
        forall|j: int| at < j < n ==> #[trigger] machine.kind_at(j) is None,
        open_kinds(machine, at) == open_kinds(machine, n).drop_last(),
    decreases n,
{
    match machine.kind_at(n - 1) {
        Some(kind) => {
            assert(open_kinds(machine, n).drop_last() =~= open_kinds(machine, n - 1));
            n - 1
        },
        None => lemma_innermost_open(machine, n - 1),
    }
}

/// Inside a body, a token of nested tokens is used up without failure,
/// and the elements that are open behind it are those that the nesting
/// asks for.
proof fn lemma_nested_step(
    machine: Machine,
    tokens: Seq<Token>,
    html: Seq<AttributeView>,
    head: Seq<AttributeView>,
    body: Seq<AttributeView>,
)
    requires
        is_inside_body(machine, html, head, body),
        tokens.len() > 0,
        is_nested(tokens, open_kinds(machine, machine.stack.len() as int)),
    ensures
        machine.dispatch(tokens[0]) matches Outcome::Consumed(next) && is_inside_body(
            next,
            html,
            head,
            body,
        ) && is_nested(tokens.drop_first(), open_kinds(next, next.stack.len() as int)),
{
    let token = tokens[0];
    let n = machine.stack.len() as int;
    let open = open_kinds(machine, n);
    lemma_inside_body_kinds(machine, html, head, body);
    match token {
        Token::Char(c) => {
            lemma_inside_body_step(machine, token, html, head, body);
            lemma_opens_char(machine, c);
            let next = machine.insert_char(c);
            lemma_open_kinds_agree(next, machine, n);
            assert(open_kinds(next, next.stack.len() as int) == open);
        },
        Token::StartTag { tag, attributes, .. } => {
            lemma_inside_body_step(machine, token, html, head, body);
            lemma_opens_element(machine, tag, attributes);
            let next = machine.insert_element(tag, attributes);
            lemma_open_kinds_agree(next, machine, n);
            assert(next.kind_at(n) == kind_of_tag(tag));
            assert(open_kinds(next, n + 1) == open.push(kind_of_tag(tag)->0));
        },
        Token::EndTag { tag } => {
            let kind = kind_of_tag(tag)->0;
            let at = lemma_innermost_open(machine, n);
            assert(machine.contains(kind));
            lemma_inside_body_step(machine, token, html, head, body);
            lemma_closes_at(machine, kind, at);
            lemma_pop_until(machine, kind);
            let next = machine.pop_until(kind).with_mode(machine.mode);
            assert(machine.dispatch(token) == Outcome::Consumed(next));
            assert forall|i: int| 2 <= i < at implies #[trigger] next.kind_at(i)
                == machine.kind_at(i) by {
                assert(next.stack[i] == machine.stack[i]);
            }
            lemma_open_kinds_agree(next, machine, at);
        },
        Token::Eof => {},
    }
}

/// Inside a body, nested tokens are read without failure and leave the
/// tree constructor inside the body.
pub proof fn lemma_nested_run(
    machine: Machine,
    tokens: Seq<Token>,
    html: Seq<AttributeView>,
    head: Seq<AttributeView>,
    body: Seq<AttributeView>,
)
    requires
        is_inside_body(machine, html, head, body),
        is_nested(tokens, open_kinds(machine, machine.stack.len() as int)),
    ensures
        machine.run(tokens) matches Ok(led) && is_inside_body(led, html, head, body),
    decreases tokens.len(),
{
    if tokens.len() > 0 {
        lemma_nested_step(machine, tokens, html, head, body);
        let next = machine.dispatch(tokens[0])->Consumed_0;
        lemma_nested_run(next, tokens.drop_first(), html, head, body);
    }
}

/// A document `<html><head></head><body>`, a body of characters and of
/// nested start and end tags of `p`, `h1`, `h2` and `a`, and
/// `</body></html>` is read without failure and gets no node that it did
/// not bring: the tree begins with the document and the elements of the
/// three tags; the document has the one child `html`, `html` has the two
/// children `head` and `body`, in this order, and no other node is an
/// `html`, a `head` or a `body`.
pub proof fn lemma_nested_body(
    html: Seq<AttributeView>,
    head: Seq<AttributeView>,
    body: Seq<AttributeView>,
    inside: Seq<Token>,
)
    requires
        is_nested(inside, Seq::empty()),
    ensures
        Machine::initial().run(frame_tokens(html, head, body) + inside + closing_tokens())
            matches Ok(last) && {
            &&& well_formed(last.tree)
            &&& last.tree.len() >= 4
            &&& last.tree.take(4) == frame_tree(html, head, body)
            &&& adds_no_frame(last.tree, 4)
            &&& children(last.tree, 0) == seq![1int]
            &&& children(last.tree, 1) == seq![2int, 3int]
        },
{
    let frame = frame_tokens(html, head, body);
    let machine = framed(html, head, body);
    lemma_nested_are_body_tokens(inside, Seq::empty());
    lemma_framed_body(html, head, body, inside);
    assert(frame + inside + closing_tokens() =~= frame + (inside + closing_tokens()));
    lemma_frame(html, head, body, inside + closing_tokens());
    assert(is_inside_body(machine, html, head, body)) by {
        assert(machine.tree.take(4) =~= frame_tree(html, head, body));
    }
    assert forall|i: int| 0 <= i < inside.len() implies !(#[trigger] inside[i] is Eof) by {
        assert(is_body_token(inside[i]));
    }
    lemma_run_in_parts(machine, inside, closing_tokens());
    lemma_nested_run(machine, inside, html, head, body);
    let led = machine.run(inside)->Ok_0;
    lemma_inside_body_closes(led, html, head, body);
}

/// A text `<html><head></head><body>`, a body of characters other than
/// `<` and of nested start and end tags of `p`, `h1`, `h2` and `a`, and
/// `</body></html>` is read without failure and gets no node that it did
/// not bring: the document has the one child `html`, `html` has the two
/// children `head` and `body`, in this order, and no other node is an
/// `html`, a `head` or a `body`.
pub proof fn lemma_nested_text(inside: Seq<char>)
    requires
        body_tokens_of(inside) matches Some(tokens) && is_nested(tokens, Seq::empty()),
    ensures
        Machine::initial().run(
            tokens_of("<html><head></head><body>"@ + inside + "</body></html>"@),
        ) matches Ok(last) && {
            &&& well_formed(last.tree)
            &&& last.tree.len() >= 4
            &&& last.tree.take(4) == frame_tree(Seq::empty(), Seq::empty(), Seq::empty())
            &&& adds_no_frame(last.tree, 4)
            &&& children(last.tree, 0) == seq![1int]
            &&& children(last.tree, 1) == seq![2int, 3int]
        },
{
    lemma_body_frame_text(inside);
    lemma_nested_body(Seq::empty(), Seq::empty(), Seq::empty(), body_tokens_of(inside)->0);
}

} // verus!
