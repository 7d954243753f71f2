//! The emitter: prints an element tree as indented HTML.

use vstd::prelude::*;
use crate::parser::{lemma_node_of_tag, Element, Node, Tag, TagView};
use crate::text::repeated;

verus! {

/// The indentation of a line at nesting depth `depth`: four spaces per level.
pub open spec fn indent(depth: nat) -> Seq<char> {
    repeated(' ', 4 * depth)
}

/// Whether a tag of this name is printed without a closing tag.
pub open spec fn is_void(name: Seq<char>) -> bool {
    name == seq!['m', 'e', 't', 'a'] || name == seq!['l', 'i', 'n', 'k']
}

/// One attribute as it is printed: a space, the name and, where it has a
/// value, `=` and the value as it is stored.
pub open spec fn render_attribute(attribute: (Seq<char>, Option<Seq<char>>)) -> Seq<char> {
    seq![' '] + attribute.0 + match attribute.1 {
        Some(value) => seq!['='] + value,
        None => Seq::empty(),
    }
}

/// The attributes as they are printed, in their order.
pub open spec fn render_attributes(attributes: Seq<(Seq<char>, Option<Seq<char>>)>) -> Seq<char>
    decreases attributes.len(),
{
    if attributes.len() == 0 {
        Seq::empty()
    } else {
        render_attributes(attributes.drop_last()) + render_attribute(attributes.last())
    }
}

/// The opening of a tag: the indentation, `<`, the name, the attributes and `>`.
pub open spec fn render_opening(tag: TagView, depth: nat) -> Seq<char> {
    indent(depth) + seq!['<'] + tag.name + render_attributes(tag.attributes) + seq!['>']
}

/// What follows the children of a tag: the indentation again where there are
/// children, then the closing tag and a newline unless the tag is void.
pub open spec fn render_closing(tag: TagView, depth: nat) -> Seq<char> {
    (if tag.children.len() > 0 {
        indent(depth)
    } else {
        Seq::empty()
    }) + (if is_void(tag.name) {
        Seq::empty()
    } else {
        seq!['<', '/'] + tag.name + seq!['>', '\n']
    })
}

/// The text printed for `node` at nesting depth `depth`.
pub open spec fn render_node(node: Node, depth: nat) -> Seq<char>
    decreases node,
{
    match node {
        Node::Text(text) => indent(depth) + text + seq!['\n'],
        Node::Raw(raw) => indent(depth) + raw + seq!['\n'],
        Node::Tag(tag) => render_opening(tag, depth) + (if is_void(tag.name) || tag.children.len()
            > 0 {
            seq!['\n']
        } else {
            Seq::empty()
        }) + render_nodes(tag.children, depth + 1) + render_closing(tag, depth),
    }
}

/// The text printed for `nodes`, one after the other, at nesting depth `depth`.
pub open spec fn render_nodes(nodes: Seq<Node>, depth: nat) -> Seq<char>
    decreases nodes,
{
    if nodes.len() == 0 {
        Seq::empty()
    } else {
        render_nodes(nodes.drop_last(), depth) + render_node(nodes.last(), depth)
    }
}

/// The same tree is always printed as the same text: what is printed depends
/// on nothing but the content of the elements.
pub proof fn lemma_emit_deterministic(first: Vec<Element>, second: Vec<Element>)
    requires
        first.deep_view() == second.deep_view(),
    ensures
        render_nodes(first.deep_view(), 0) == render_nodes(second.deep_view(), 0),
{
}

/// A tag named `meta` or `link` is printed without a closing tag, whatever
/// its attributes and children: its text is the opening, a newline, the text
/// of its children and, where it has children, the indentation. What follows
/// the children holds nothing but spaces.
pub proof fn lemma_void_tag_is_not_closed(tag: TagView, depth: nat)
    requires
        is_void(tag.name),
    ensures
        render_node(Node::Tag(tag), depth) == render_opening(tag, depth) + seq!['\n']
            + render_nodes(tag.children, depth + 1) + render_closing(tag, depth),
        render_closing(tag, depth) == (if tag.children.len() > 0 {
            indent(depth)
        } else {
            Seq::empty()
        }),
        forall|i: int| 0 <= i < render_closing(tag, depth).len() ==> render_closing(tag, depth)[i]
            == ' ',
{
    assert(render_closing(tag, depth) =~= (if tag.children.len() > 0 {
        indent(depth)
    } else {
        Seq::empty()
    }));
}

/// Any other tag is closed: its text ends with `</`, its name, `>` and a newline.
pub proof fn lemma_other_tag_is_closed(tag: TagView, depth: nat)
    requires
        !is_void(tag.name),
    ensures
        render_node(Node::Tag(tag), depth) == render_opening(tag, depth) + (if tag.children.len()
            > 0 {
            seq!['\n']
        } else {
            Seq::empty()
        }) + render_nodes(tag.children, depth + 1) + (if tag.children.len() > 0 {
            indent(depth)
        } else {
            Seq::empty()
        }) + seq!['<', '/'] + tag.name + seq!['>', '\n'],
{
    let end = seq!['<', '/'] + tag.name + seq!['>', '\n'];
    let body = render_opening(tag, depth) + (if tag.children.len() > 0 {
        seq!['\n']
    } else {
        Seq::<char>::empty()
    }) + render_nodes(tag.children, depth + 1);
    let pad = if tag.children.len() > 0 {
        indent(depth)
    } else {
        Seq::<char>::empty()
    };
    assert(body + (pad + end) =~= body + pad + seq!['<', '/'] + tag.name + seq!['>', '\n']);
}

/// The HTML text of `elements`.
pub fn emit_html(elements: Vec<Element>) -> (html: String)
    ensures
        html@ == render_nodes(elements.deep_view(), 0),
{
    let mut html = String::new();
    let ghost nodes = elements.deep_view();
    let mut i: usize = 0;
    assert(nodes.take(0) =~= Seq::<Node>::empty());
    while i < elements.len()
        invariant
            i <= elements.len(),
            nodes == elements.deep_view(),
            html@ == render_nodes(nodes.take(i as int), 0),
        decreases elements.len() - i,
    {
        assert(nodes.take(i + 1).drop_last() =~= nodes.take(i as int));
        assert(indent(0) =~= ""@) by {
            reveal_strlit("");
        }
        emit_element(&mut html, &elements[i], "", Ghost(0));
        i += 1;
    }
    assert(nodes.take(i as int) =~= nodes);
    html
}

/// Appends the text of `element` to `html`. `indent` is the indentation of its depth.
fn emit_element(html: &mut String, element: &Element, indent: &str, Ghost(depth): Ghost<nat>)
    requires
        indent@ == self::indent(depth),
    ensures
        final(html)@ == old(html)@ + render_node(element.deep_view(), depth),
    decreases element, 1nat,
{
    match element {
        Element::Tag(tag) => {
            proof {
                lemma_node_of_tag(*tag);
            }
            emit_tag(html, tag, indent, Ghost(depth))
        },
        Element::Text(text) => {
            proof {
                reveal_strlit("\n");
            }
            html.append(indent);
            html.append(text.as_str());
            html.append("\n");
            assert(html@ =~= old(html)@ + render_node(element.deep_view(), depth));
        },
        Element::HTML(raw_html) => {
            proof {
                reveal_strlit("\n");
            }
            html.append(indent);
            html.append(raw_html.as_str());
            html.append("\n");
            assert(html@ =~= old(html)@ + render_node(element.deep_view(), depth));
        },
    }
}

/// Appends the text of `tag` to `html`: the opening, the children one level
/// deeper, and the closing tag unless the tag is void.
fn emit_tag(html: &mut String, tag: &Tag, indent: &str, Ghost(depth): Ghost<nat>)
    requires
        indent@ == self::indent(depth),
    ensures
        final(html)@ == old(html)@ + render_node(Node::Tag(tag.deep_view()), depth),
    decreases tag, 0nat,
{
    let ghost view = tag.deep_view();
    proof {
        reveal_strlit("<");
        reveal_strlit(">");
        reveal_strlit("\n");
        reveal_strlit("</");
        reveal_strlit(">\n");
        reveal_strlit("    ");
        reveal_strlit("meta");
        reveal_strlit("link");
    }
    html.append(indent);
    html.append("<");
    html.append(tag.ty.as_str());
    let ghost head = html@;
    let mut i: usize = 0;
    assert(view.attributes.take(0) =~= Seq::empty());
    while i < tag.attribs.len()
        invariant
            i <= tag.attribs.len(),
            view == tag.deep_view(),
            html@ == head + render_attributes(view.attributes.take(i as int)),
        decreases tag.attribs.len() - i,
    {
        assert(view.attributes.take(i + 1).drop_last() =~= view.attributes.take(i as int));
        emit_attrib(html, &tag.attribs[i].0, &tag.attribs[i].1);
        i += 1;
    }
    assert(view.attributes.take(i as int) =~= view.attributes);
    let inline = is_word(&tag.ty, "meta") || is_word(&tag.ty, "link");
    assert(inline == is_void(view.name)) by {
        assert("meta"@ =~= seq!['m', 'e', 't', 'a']);
        assert("link"@ =~= seq!['l', 'i', 'n', 'k']);
    }
    html.append(">");
    if inline || tag.body.len() > 0 {
        html.append("\n");
    }
    let mut inner = String::from_str(indent);
    inner.append("    ");
    assert(inner@ =~= self::indent(depth + 1));
    let ghost before = html@;
    let mut j: usize = 0;
    assert(view.children.take(0) =~= Seq::<Node>::empty());
    while j < tag.body.len()
        invariant
            j <= tag.body.len(),
            view == tag.deep_view(),
            inner@ == self::indent(depth + 1),
            html@ == before + render_nodes(view.children.take(j as int), depth + 1),
        decreases tag.body.len() - j,
    {
        assert(view.children.take(j + 1).drop_last() =~= view.children.take(j as int));
        emit_element(html, &tag.body[j], inner.as_str(), Ghost(depth + 1));
        j += 1;
    }
    assert(view.children.take(j as int) =~= view.children);
    if tag.body.len() > 0 {
        html.append(indent);
    }
    if !inline {
        html.append("</");
        html.append(tag.ty.as_str());
        html.append(">\n");
    }
    assert(html@ =~= old(html)@ + render_node(Node::Tag(view), depth));
}

/// Appends one attribute to `html`.
fn emit_attrib(html: &mut String, name: &String, value: &Option<String>)
    ensures
        final(html)@ == old(html)@ + render_attribute((name@, value.deep_view())),
{
    proof {
        reveal_strlit(" ");
        reveal_strlit("=");
    }
    html.append(" ");
    html.append(name.as_str());
    match value {
        Some(val) => {
            html.append("=");
            html.append(val.as_str());
        },
        None => {},
    }
    assert(html@ =~= old(html)@ + render_attribute((name@, value.deep_view())));
}

/// Whether `name` is the word `word`.
fn is_word(name: &String, word: &str) -> (same: bool)
    ensures
        same == (name@ == word@),
{
    let other = String::from_str(word);
    *name == other
}

} // verus!
