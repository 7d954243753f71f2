//! The layout of the printed text: its lines and how deep they are indented.

use vstd::prelude::*;
use crate::emitter::{
    indent, is_void, render_attribute, render_attributes, render_node, render_nodes,
};
use crate::parser::{elements_at, Node, Parsed, TagView};
use crate::source::{lemma_line_end_bounds, line_end};
use crate::text::repeated;

verus! {

/// The larger of two numbers.
pub open spec fn larger(a: nat, b: nat) -> nat {
    if a >= b {
        a
    } else {
        b
    }
}

/// The number of spaces that `s` starts with.
pub open spec fn leading_spaces(s: Seq<char>) -> nat
    decreases s.len(),
{
    if s.len() > 0 && s[0] == ' ' {
        1 + leading_spaces(s.subrange(1, s.len() as int))
    } else {
        0
    }
}

/// The deepest indentation among the lines of `s`, in levels of four spaces.
/// A line ends at `\n`; text after the last `\n` is a line too.
pub open spec fn deepest_indent(s: Seq<char>) -> nat
    decreases s.len(),
    via deepest_indent_decreases
{
    if s.len() == 0 {
        0
    } else {
        let end = line_end(s, 0);
        let here = leading_spaces(s.subrange(0, end)) / 4;
        if end < s.len() {
            larger(here, deepest_indent(s.subrange(end + 1, s.len() as int)))
        } else {
            here
        }
    }
}

#[via_fn]
proof fn deepest_indent_decreases(s: Seq<char>) {
    lemma_line_end_bounds(s, 0);
}

/// The deepest nesting of tag bodies in `node`: 0 for a leaf and for a tag
/// without children, else one more than that of its children.
pub open spec fn node_nesting(node: Node) -> nat
    decreases node,
{
    match node {
        Node::Tag(tag) => if tag.children.len() == 0 {
            0
        } else {
            1 + nesting(tag.children)
        },
        _ => 0,
    }
}

/// The deepest nesting of tag bodies among `nodes`.
pub open spec fn nesting(nodes: Seq<Node>) -> nat
    decreases nodes,
{
    if nodes.len() == 0 {
        0
    } else {
        larger(nesting(nodes.drop_last()), node_nesting(nodes.last()))
    }
}

/// Whether `s` holds no newline.
pub open spec fn one_line(s: Seq<char>) -> bool {
    forall|i: int| 0 <= i < s.len() ==> s[i] != '\n'
}

/// Whether `s` starts with fewer than four spaces: too few to look like one
/// more level of indentation.
pub open spec fn flush(s: Seq<char>) -> bool {
    leading_spaces(s) < 4
}

/// Whether no name and no value among `attributes` holds a newline.
pub open spec fn plain_attributes(attributes: Seq<(Seq<char>, Option<Seq<char>>)>) -> bool {
    forall|i: int|
        0 <= i < attributes.len() ==> one_line(#[trigger] attributes[i].0) && (
        attributes[i].1 matches Some(value) ==> one_line(value))
}

/// Whether every line that is printed for `node` at nesting depth `depth`
/// starts with the indentation of its own depth and with less than one level
/// more: no text, raw markup, name or attribute holds a newline, no text or
/// raw markup starts with four spaces, and no void tag below the top level
/// has children.
pub open spec fn plain_node(node: Node, depth: nat) -> bool
    decreases node,
{
    match node {
        Node::Text(text) => one_line(text) && flush(text),
        Node::Raw(raw) => one_line(raw) && flush(raw),
        Node::Tag(tag) => {
            &&& one_line(tag.name)
            &&& plain_attributes(tag.attributes)
            &&& is_void(tag.name) ==> tag.children.len() == 0 || depth == 0
            &&& plain_nodes(tag.children, depth + 1)
        },
    }
}

/// Whether all of `nodes` are plain at nesting depth `depth`.
pub open spec fn plain_nodes(nodes: Seq<Node>, depth: nat) -> bool
    decreases nodes,
{
    nodes.len() == 0 || (plain_nodes(nodes.drop_last(), depth) && plain_node(nodes.last(), depth))
}

/// One printed line: the indentation of `depth`, `body` and a newline.
pub open spec fn line(depth: nat, body: Seq<char>) -> Seq<char> {
    indent(depth) + body + seq!['\n']
}

/// Spaces before a text add to the spaces it starts with.
pub proof fn lemma_leading_spaces_after_spaces(n: nat, s: Seq<char>)
    ensures
        leading_spaces(repeated(' ', n) + s) == n + leading_spaces(s),
    decreases n,
{
    let whole = repeated(' ', n) + s;
    if n == 0 {
        assert(whole =~= s);
    } else {
        assert(whole[0] == ' ');
        assert(whole.subrange(1, whole.len() as int) =~= repeated(' ', (n - 1) as nat) + s);
        lemma_leading_spaces_after_spaces((n - 1) as nat, s);
    }
}

/// The first line of a text ends where its first newline stands.
pub proof fn lemma_first_line(first: Seq<char>, rest: Seq<char>)
    requires
        one_line(first),
    ensures
        line_end(first + seq!['\n'] + rest, 0) == first.len(),
{
    let whole = first + seq!['\n'] + rest;
    lemma_line_end_bounds(whole, 0);
    assert(whole[first.len() as int] == '\n');
    assert forall|i: int| 0 <= i < first.len() implies whole[i] != '\n' by {
        assert(whole[i] == first[i]);
    }
}

/// The deepest indentation of a line followed by more text is that of the
/// line or that of the rest, whichever is larger.
pub proof fn lemma_deepest_after_line(depth: nat, body: Seq<char>, rest: Seq<char>)
    requires
        one_line(body),
        flush(body),
    ensures
        deepest_indent(line(depth, body) + rest) == larger(depth, deepest_indent(rest)),
{
    let first = indent(depth) + body;
    let whole = line(depth, body) + rest;
    assert(whole =~= first + seq!['\n'] + rest);
    assert(one_line(first));
    lemma_first_line(first, rest);
    assert(whole.subrange(0, first.len() as int) =~= first);
    assert(whole.subrange(first.len() as int + 1, whole.len() as int) =~= rest);
    lemma_leading_spaces_after_spaces((4 * depth) as nat, body);
    assert(leading_spaces(first) == 4 * depth + leading_spaces(body));
    assert(leading_spaces(first) / 4 == depth);
    if rest.len() == 0 {
        assert(deepest_indent(rest) == 0);
    }
}

/// Whether `s` is made of whole lines: it is empty or ends with a newline.
pub open spec fn whole_lines(s: Seq<char>) -> bool {
    s.len() == 0 || s.last() == '\n'
}

/// The deepest indentation of whole lines followed by more text is that of
/// the lines or that of the rest, whichever is larger.
pub proof fn lemma_deepest_of_parts(lines: Seq<char>, rest: Seq<char>)
    requires
        whole_lines(lines),
    ensures
        deepest_indent(lines + rest) == larger(deepest_indent(lines), deepest_indent(rest)),
    decreases lines.len(),
{
    if lines.len() == 0 {
        assert(lines + rest =~= rest);
    } else {
        let whole = lines + rest;
        lemma_line_end_bounds(lines, 0);
        let end = line_end(lines, 0);
        assert(end < lines.len()) by {
            if end >= lines.len() {
                assert(lines[lines.len() - 1] != '\n');
            }
        }
        let first = lines.subrange(0, end);
        let tail = lines.subrange(end + 1, lines.len() as int);
        assert(lines =~= first + seq!['\n'] + tail);
        assert(whole =~= first + seq!['\n'] + (tail + rest));
        assert(one_line(first));
        lemma_first_line(first, tail);
        lemma_first_line(first, tail + rest);
        assert(whole.subrange(0, end) =~= first);
        assert(whole.subrange(end + 1, whole.len() as int) =~= tail + rest);
        assert(whole_lines(tail)) by {
            if tail.len() > 0 {
                assert(tail.last() == lines.last());
            }
        }
        lemma_deepest_of_parts(tail, rest);
        if tail.len() == 0 {
            assert(deepest_indent(tail) == 0);
        }
    }
}

/// Attributes without newlines are printed without newlines.
pub proof fn lemma_attributes_on_one_line(attributes: Seq<(Seq<char>, Option<Seq<char>>)>)
    requires
        plain_attributes(attributes),
    ensures
        one_line(render_attributes(attributes)),
    decreases attributes.len(),
{
    if attributes.len() > 0 {
        let last = attributes.last();
        assert(one_line(last.0));
        assert(plain_attributes(attributes.drop_last())) by {
            assert forall|i: int| 0 <= i < attributes.drop_last().len() implies one_line(
                #[trigger] attributes.drop_last()[i].0,
            ) && (attributes.drop_last()[i].1 matches Some(value) ==> one_line(value)) by {
                assert(attributes.drop_last()[i] == attributes[i]);
            }
        }
        lemma_attributes_on_one_line(attributes.drop_last());
        assert(one_line(render_attribute(last)));
    }
}

/// The text of a tag between its indentation and the newline of its first line.
pub open spec fn opening_body(tag: TagView) -> Seq<char> {
    seq!['<'] + tag.name + render_attributes(tag.attributes) + seq!['>']
}

/// The closing tag without its newline.
pub open spec fn closing_body(tag: TagView) -> Seq<char> {
    seq!['<', '/'] + tag.name + seq!['>']
}

/// A plain node is printed as whole lines, at least one, and the deepest
/// indentation among them is the node's depth plus its nesting.
pub proof fn lemma_node_layout(node: Node, depth: nat)
    requires
        plain_node(node, depth),
    ensures
        render_node(node, depth).len() > 0,
        whole_lines(render_node(node, depth)),
        deepest_indent(render_node(node, depth)) == depth + node_nesting(node),
    decreases node,
{
    let none = Seq::<char>::empty();
    match node {
        Node::Text(text) => {
            assert(render_node(node, depth) =~= line(depth, text) + none);
            lemma_deepest_after_line(depth, text, none);
        },
        Node::Raw(raw) => {
            assert(render_node(node, depth) =~= line(depth, raw) + none);
            lemma_deepest_after_line(depth, raw, none);
        },
        Node::Tag(tag) => {
            lemma_attributes_on_one_line(tag.attributes);
            let open = opening_body(tag);
            let close = closing_body(tag);
            assert(one_line(open) && open[0] == '<');
            assert(one_line(close) && close[0] == '<');
            assert(leading_spaces(open) == 0);
            assert(leading_spaces(close) == 0);
            if tag.children.len() == 0 {
                assert(render_nodes(tag.children, depth + 1) =~= none);
                if is_void(tag.name) {
                    assert(render_node(node, depth) =~= line(depth, open) + none);
                    lemma_deepest_after_line(depth, open, none);
                } else {
                    let both = open + close;
                    assert(one_line(both) && both[0] == '<');
                    assert(leading_spaces(both) == 0);
                    assert(render_node(node, depth) =~= line(depth, both) + none);
                    lemma_deepest_after_line(depth, both, none);
                }
            } else if is_void(tag.name) {
                let inner = render_nodes(tag.children, depth + 1);
                lemma_nodes_layout(tag.children, depth + 1);
                assert(indent(0) =~= none);
                assert(render_node(node, depth) =~= line(depth, open) + inner);
                lemma_deepest_after_line(depth, open, inner);
                assert((line(depth, open) + inner).last() == inner.last());
            } else {
                let inner = render_nodes(tag.children, depth + 1);
                lemma_nodes_layout(tag.children, depth + 1);
                let last = line(depth, close);
                assert(render_node(node, depth) =~= line(depth, open) + (inner + last));
                lemma_deepest_after_line(depth, open, inner + last);
                lemma_deepest_of_parts(inner, last);
                assert(last =~= line(depth, close) + none);
                lemma_deepest_after_line(depth, close, none);
            }
        },
    }
}

/// Plain nodes are printed as whole lines, and the deepest indentation among
/// them is the depth of the nodes plus their nesting.
pub proof fn lemma_nodes_layout(nodes: Seq<Node>, depth: nat)
    requires
        plain_nodes(nodes, depth),
    ensures
        whole_lines(render_nodes(nodes, depth)),
        nodes.len() == 0 ==> render_nodes(nodes, depth).len() == 0,
        nodes.len() > 0 ==> render_nodes(nodes, depth).len() > 0 && deepest_indent(
            render_nodes(nodes, depth),
        ) == depth + nesting(nodes),
    decreases nodes,
{
    if nodes.len() > 0 {
        let before = render_nodes(nodes.drop_last(), depth);
        let last = render_node(nodes.last(), depth);
        lemma_nodes_layout(nodes.drop_last(), depth);
        lemma_node_layout(nodes.last(), depth);
        lemma_deepest_of_parts(before, last);
        assert((before + last).last() == last.last());
        if nodes.drop_last().len() == 0 {
            assert(deepest_indent(before) == 0);
            assert(nesting(nodes.drop_last()) == 0);
        }
    }
}

/// The deepest indentation in the text printed for a plain tree is the
/// deepest nesting of tag bodies in the tree.
pub proof fn lemma_indentation_mirrors_nesting(nodes: Seq<Node>)
    requires
        plain_nodes(nodes, 0),
    ensures
        deepest_indent(render_nodes(nodes, 0)) == nesting(nodes),
{
    lemma_nodes_layout(nodes, 0);
}

/// The same for the tree of a source text: where the text parses and its
/// tree is plain, the deepest indentation in the output is the deepest nesting
/// of tag bodies in the input.
pub proof fn lemma_output_indentation_mirrors_input_nesting(src: Seq<char>)
    requires
        elements_at(src, 0) matches Parsed::Done { value, .. } && plain_nodes(value, 0),
    ensures
        deepest_indent(render_nodes(elements_at(src, 0)->value, 0)) == nesting(
            elements_at(src, 0)->value,
        ),
{
    lemma_indentation_mirrors_nesting(elements_at(src, 0)->value);
}

} // verus!
