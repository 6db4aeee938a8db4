//! The grammar of documents: what each part of a document's text stands
//! for, and where it ends.

use vstd::prelude::*;
use crate::dom::{ElementDataView, NodeTypeView, NodeView};
use crate::scan::{is_whitespace, lemma_run_end, run_end, whitespace_end};

verus! {

/// Letters and digits.
pub open spec fn is_tag_char(c: char) -> bool {
    ||| 'a' <= c <= 'z'
    ||| 'A' <= c <= 'Z'
    ||| '0' <= c <= '9'
}

/// Where a tag or attribute name from `pos` on ends. It may be empty.
pub open spec fn tag_name_end(input: Seq<char>, pos: int) -> int {
    run_end(input, pos, |c: char| is_tag_char(c))
}

/// Where the characters from `pos` on first hold `stop`, or the input ends.
pub open spec fn end_before(input: Seq<char>, pos: int, stop: char) -> int
    decreases input.len() - pos,
{
    if 0 <= pos < input.len() && input[pos] != stop {
        end_before(input, pos + 1, stop)
    } else {
        pos
    }
}

/// The text before `stop` ends inside the input, holds no `stop`, and ends
/// at one unless the input ends.
pub proof fn lemma_end_before(input: Seq<char>, pos: int, stop: char)
    requires
        0 <= pos <= input.len(),
    ensures
        pos <= end_before(input, pos, stop) <= input.len(),
        forall|k: int| pos <= k < end_before(input, pos, stop) ==> #[trigger] input[k] != stop,
        end_before(input, pos, stop) < input.len() ==> input[end_before(input, pos, stop)] == stop,
    decreases input.len() - pos,
{
    if pos < input.len() && input[pos] != stop {
        lemma_end_before(input, pos + 1, stop);
    }
}

/// The text before `stop` ends at `end` where no character up to `end` is
/// `stop` and the one at `end`, if there is one, is.
pub proof fn lemma_ends_before(input: Seq<char>, pos: int, stop: char, end: int)
    requires
        0 <= pos <= end <= input.len(),
        forall|k: int| pos <= k < end ==> #[trigger] input[k] != stop,
        end < input.len() ==> input[end] == stop,
    ensures
        end_before(input, pos, stop) == end,
    decreases end - pos,
{
    if pos < end {
        assert(input[pos] != stop);
        lemma_ends_before(input, pos + 1, stop, end);
    }
}

/// Whether `pattern` stands at `pos`.
pub open spec fn stands_at(input: Seq<char>, pos: int, pattern: Seq<char>) -> bool {
    0 <= pos && pos + pattern.len() <= input.len() && input.subrange(pos, pos + pattern.len())
        == pattern
}

/// The quoted attribute value that starts at `pos`: the text between two
/// `"` or two `'`.
pub open spec fn attr_value_at(input: Seq<char>, pos: int) -> Option<(Seq<char>, int)> {
    if 0 <= pos < input.len() && (input[pos] == '"' || input[pos] == '\'') {
        let end = end_before(input, pos + 1, input[pos]);
        if end < input.len() {
            Some((input.subrange(pos + 1, end), end + 1))
        } else {
            None
        }
    } else {
        None
    }
}

/// The attribute that starts at `pos`: a name, `=` and a quoted value.
pub open spec fn attr_at(input: Seq<char>, pos: int) -> Option<((Seq<char>, Seq<char>), int)> {
    let name_end = tag_name_end(input, pos);
    if 0 <= name_end < input.len() && input[name_end] == '=' {
        match attr_value_at(input, name_end + 1) {
            Some((value, end)) => Some(((input.subrange(pos, name_end), value), end)),
            None => None,
        }
    } else {
        None
    }
}

/// An attribute ends inside the input, after the place where it starts.
pub proof fn lemma_attr_advances(input: Seq<char>, pos: int)
    requires
        0 <= pos <= input.len(),
        attr_at(input, pos).is_some(),
    ensures
        pos < attr_at(input, pos).unwrap().1 <= input.len(),
{
    let name_end = tag_name_end(input, pos);
    lemma_run_end(input, pos, |c: char| is_tag_char(c));
    lemma_end_before(input, name_end + 2, input[name_end + 1]);
}

/// The attributes from `pos` up to the `>` that ends the tag, added to
/// `so_far`, and the place of the `>`. A later attribute replaces an
/// earlier one of the same name.
pub open spec fn attributes_at(
    input: Seq<char>,
    pos: int,
    so_far: Map<Seq<char>, Seq<char>>,
) -> Option<(Map<Seq<char>, Seq<char>>, int)>
    decreases input.len() - pos,
{
    let start = whitespace_end(input, pos);
    if pos < 0 || pos > input.len() || start >= input.len() {
        None
    } else if input[start] == '>' {
        Some((so_far, start))
    } else {
        match attr_at(input, start) {
            Some(((name, value), after)) => {
                proof {
                    lemma_run_end(input, pos, |c: char| is_whitespace(c));
                    lemma_attr_advances(input, start);
                }
                attributes_at(input, after, so_far.insert(name, value))
            },
            None => None,
        }
    }
}

/// The attributes of a tag end inside the input, at a `>`.
pub proof fn lemma_attributes_advance(
    input: Seq<char>,
    pos: int,
    so_far: Map<Seq<char>, Seq<char>>,
)
    requires
        0 <= pos <= input.len(),
        attributes_at(input, pos, so_far).is_some(),
    ensures
        pos <= attributes_at(input, pos, so_far).unwrap().1 < input.len(),
        input[attributes_at(input, pos, so_far).unwrap().1] == '>',
    decreases input.len() - pos,
{
    let start = whitespace_end(input, pos);
    lemma_run_end(input, pos, |c: char| is_whitespace(c));
    if input[start] != '>' {
        lemma_attr_advances(input, start);
        let ((name, value), after) = attr_at(input, start).unwrap();
        lemma_attributes_advance(input, after, so_far.insert(name, value));
    }
}

/// The closing tag `</name>` at `pos`, and the place behind it.
pub open spec fn closing_tag_at(input: Seq<char>, pos: int, name: Seq<char>) -> Option<int> {
    let name_end = tag_name_end(input, pos + 2);
    if 0 <= pos && pos + 2 <= input.len() && input[pos] == '<' && input[pos + 1] == '/'
        && input.subrange(pos + 2, name_end) == name && name_end < input.len()
        && input[name_end] == '>' {
        Some(name_end + 1)
    } else {
        None
    }
}

/// The nodes from `pos` up to the end of the input or to a closing tag,
/// added to `so_far`, and the place where they end. Whitespace before a
/// node is skipped.
///
/// The reading goes on behind a node only where the node is at least one
/// character long, which every node is: see `lemma_node_advances`.
pub open spec fn nodes_at(input: Seq<char>, pos: int, so_far: Seq<NodeView>) -> Option<
    (Seq<NodeView>, int),
>
    decreases input.len() - pos, 2nat,
{
    let start = whitespace_end(input, pos);
    if pos < 0 || pos > input.len() {
        None
    } else if start >= input.len() || stands_at(input, start, seq!['<', '/']) {
        Some((so_far, start))
    } else {
        proof {
            lemma_run_end(input, pos, |c: char| is_whitespace(c));
        }
        match node_at(input, start) {
            Some((node, after)) => if start < after <= input.len() {
                nodes_at(input, after, so_far.push(node))
            } else {
                None
            },
            None => None,
        }
    }
}

/// The node that starts at `pos`: an element where `<` stands there, else
/// the text up to the next `<`.
pub open spec fn node_at(input: Seq<char>, pos: int) -> Option<(NodeView, int)>
    decreases input.len() - pos, 1nat,
{
    if pos < 0 || pos >= input.len() {
        None
    } else if input[pos] == '<' {
        element_at(input, pos)
    } else {
        let end = end_before(input, pos, '<');
        Some(
            (
                NodeView {
                    children: Seq::empty(),
                    node_type: NodeTypeView::Text(input.subrange(pos, end)),
                },
                end,
            ),
        )
    }
}

/// The element that starts with the `<` at `pos`: an opening tag with its
/// attributes, the nodes inside, and the closing tag of the same name.
pub open spec fn element_at(input: Seq<char>, pos: int) -> Option<(NodeView, int)>
    decreases input.len() - pos, 0nat,
{
    if pos < 0 || pos >= input.len() || input[pos] != '<' {
        None
    } else {
        let name_end = tag_name_end(input, pos + 1);
        let tag_name = input.subrange(pos + 1, name_end);
        proof {
            lemma_run_end(input, pos + 1, |c: char| is_tag_char(c));
        }
        match attributes_at(input, name_end, Map::empty()) {
            Some((attributes, close)) => {
                proof {
                    lemma_attributes_advance(input, name_end, Map::empty());
                }
                match nodes_at(input, close + 1, Seq::empty()) {
                    Some((children, end)) => match closing_tag_at(input, end, tag_name) {
                        Some(after) => Some(
                            (
                                NodeView {
                                    children,
                                    node_type: NodeTypeView::Element(
                                        ElementDataView { tag_name, attributes },
                                    ),
                                },
                                after,
                            ),
                        ),
                        None => None,
                    },
                    None => None,
                }
            },
            None => None,
        }
    }
}

/// Nodes end inside the input, at or after the place where they start.
pub proof fn lemma_nodes_advance(input: Seq<char>, pos: int, so_far: Seq<NodeView>)
    requires
        0 <= pos <= input.len(),
        nodes_at(input, pos, so_far).is_some(),
    ensures
        pos <= nodes_at(input, pos, so_far).unwrap().1 <= input.len(),
    decreases input.len() - pos,
{
    let start = whitespace_end(input, pos);
    lemma_run_end(input, pos, |c: char| is_whitespace(c));
    if !(start >= input.len() || stands_at(input, start, seq!['<', '/'])) {
        let (node, after) = node_at(input, start).unwrap();
        lemma_nodes_advance(input, after, so_far.push(node));
    }
}

/// A node is at least one character long, and ends inside the input.
pub proof fn lemma_node_advances(input: Seq<char>, pos: int)
    requires
        node_at(input, pos).is_some(),
    ensures
        pos < node_at(input, pos).unwrap().1 <= input.len(),
{
    if input[pos] == '<' {
        let name_end = tag_name_end(input, pos + 1);
        lemma_run_end(input, pos + 1, |c: char| is_tag_char(c));
        lemma_attributes_advance(input, name_end, Map::empty());
        let close = attributes_at(input, name_end, Map::empty()).unwrap().1;
        lemma_nodes_advance(input, close + 1, Seq::empty());
        let end = nodes_at(input, close + 1, Seq::empty()).unwrap().1;
        lemma_run_end(input, end + 2, |c: char| is_tag_char(c));
    } else {
        lemma_end_before(input, pos + 1, '<');
    }
}

/// The document that a text holds: its one top-level node, or an `html`
/// element around its top-level nodes where there are none or several.
pub open spec fn document_of(source: Seq<char>) -> Option<NodeView> {
    match nodes_at(source, 0, Seq::empty()) {
        Some((nodes, _)) => if nodes.len() == 1 {
            Some(nodes[0])
        } else {
            Some(
                NodeView {
                    children: nodes,
                    node_type: NodeTypeView::Element(
                        ElementDataView { tag_name: "html"@, attributes: Map::empty() },
                    ),
                },
            )
        },
        None => None,
    }
}

} // verus!
