//! Markup: the document tree that a text of nested tags describes.

use vstd::prelude::*;
use vstd::hash_map::StringHashMap;
use crate::dom::{
    attribute_views, elem, lemma_node_view, node_views, text, AttrMap, Node, NodeTypeView,
    NodeView,
};
use crate::grammar::html::{
    attr_at, attr_value_at, attributes_at, document_of, element_at, end_before, is_tag_char,
    lemma_attr_advances, lemma_attributes_advance, lemma_end_before, lemma_ends_before,
    node_at, nodes_at, stands_at, tag_name_end,
};
use crate::scan::{
    chars_of, is_whitespace, lemma_run_ends_at, stands_here, whitespace, whitespace_end,
};

verus! {

/// A cursor over the characters of a document.
pub struct Parser {
    pub pos: usize,
    pub input: Vec<char>,
}

/// Whether `c` may stand in the name of a tag or an attribute.
fn tag_char(c: char) -> (r: bool)
    ensures
        r == is_tag_char(c),
{
    ('a' <= c && c <= 'z') || ('A' <= c && c <= 'Z') || ('0' <= c && c <= '9')
}

impl Parser {
    /// The cursor stands inside the input or at its end.
    pub open spec fn well_formed(&self) -> bool {
        self.pos <= self.input@.len()
    }

    /// The character at the cursor.
    fn next_char(&self) -> (c: char)
        requires
            self.pos < self.input@.len(),
        ensures
            c == self.input@[self.pos as int],
    {
        self.input[self.pos]
    }

    /// Whether the characters of `s` stand at the cursor.
    fn starts_with(&self, s: &str) -> (r: bool)
        requires
            self.well_formed(),
        ensures
            r == stands_at(self.input@, self.pos as int, s@),
    {
        let pattern = chars_of(s);
        if self.input.len() - self.pos < pattern.len() {
            return false;
        }
        let mut k: usize = 0;
        while k < pattern.len()
            invariant
                self.pos + pattern.len() <= self.input.len(),
                k <= pattern@.len(),
                pattern@ == s@,
                self.pos + pattern@.len() <= self.input@.len(),
                forall|m: int| 0 <= m < k ==> self.input@[self.pos + m] == pattern@[m],
            decreases pattern@.len() - k,
        {
            if self.input[self.pos + k] != pattern[k] {
                assert(self.input@.subrange(self.pos as int, self.pos + pattern@.len())[k as int]
                    != pattern@[k as int]);
                return false;
            }
            k += 1;
        }
        assert(self.input@.subrange(self.pos as int, self.pos + pattern@.len()) =~= pattern@);
        true
    }

    /// Whether the cursor stands at the end of the input.
    fn eof(&self) -> (r: bool)
        ensures
            r == (self.pos >= self.input@.len()),
    {
        self.pos >= self.input.len()
    }

    /// Moves the cursor over one character, and returns it.
    fn consume_char(&mut self) -> (c: char)
        requires
            old(self).pos < old(self).input.len(),
        ensures
            c == old(self).input@[old(self).pos as int],
            final(self).pos == old(self).pos + 1,
            final(self).input == old(self).input,
    {
        let c = self.input[self.pos];
        self.pos += 1;
        c
    }

    /// Consumes characters for as long as `test` admits them, and returns
    /// them.
    fn consume_while<F: Fn(char) -> bool>(&mut self, test: F) -> (r: String)
        requires
            old(self).well_formed(),
            forall|c: char| call_requires(test, (c,)),
        ensures
            final(self).input == old(self).input,
            old(self).pos <= final(self).pos <= old(self).input@.len(),
            r@ == old(self).input@.subrange(old(self).pos as int, final(self).pos as int),
            forall|k: int|
                old(self).pos <= k < final(self).pos ==> call_ensures(
                    test,
                    (#[trigger] old(self).input@[k],),
                    true,
                ),
            final(self).pos < old(self).input@.len() ==> call_ensures(
                test,
                (old(self).input@[final(self).pos as int],),
                false,
            ),
    {
        let mut result = String::new();
        while !self.eof() && test(self.next_char())
            invariant
                self.input == old(self).input,
                old(self).pos <= self.pos <= self.input@.len(),
                forall|c: char| call_requires(test, (c,)),
                result@ == self.input@.subrange(old(self).pos as int, self.pos as int),
                forall|k: int|
                    old(self).pos <= k < self.pos ==> call_ensures(
                        test,
                        (#[trigger] self.input@[k],),
                        true,
                    ),
            decreases self.input@.len() - self.pos,
        {
            result.push(self.consume_char());
            assert(result@ =~= self.input@.subrange(old(self).pos as int, self.pos as int));
        }
        result
    }

    /// Moves the cursor over whitespace.
    fn consume_whitespace(&mut self)
        requires
            old(self).well_formed(),
        ensures
            final(self).input == old(self).input,
            final(self).pos == whitespace_end(old(self).input@, old(self).pos as int),
            old(self).pos <= final(self).pos,
            final(self).well_formed(),
    {
        self.consume_while(whitespace);
        proof {
            lemma_run_ends_at(
                self.input@,
                old(self).pos as int,
                |c: char| is_whitespace(c),
                self.pos as int,
            );
        }
    }

    /// Consumes characters up to the next `stop`, and returns them.
    fn consume_until(&mut self, stop: char) -> (r: String)
        requires
            old(self).well_formed(),
        ensures
            final(self).input == old(self).input,
            final(self).pos == end_before(old(self).input@, old(self).pos as int, stop),
            old(self).pos <= final(self).pos,
            final(self).well_formed(),
            r@ == old(self).input@.subrange(old(self).pos as int, final(self).pos as int),
    {
        let other = |c: char| -> (r: bool)
            ensures
                r == (c != stop),
            { c != stop };
        let r = self.consume_while(other);
        proof {
            lemma_ends_before(self.input@, old(self).pos as int, stop, self.pos as int);
        }
        r
    }

    /// Consumes the character `c`, if it stands at the cursor.
    fn expect_char(&mut self, c: char) -> (r: Option<()>)
        requires
            old(self).well_formed(),
        ensures
            final(self).input == old(self).input,
            final(self).well_formed(),
            r.is_some() == stands_here(old(self).input@, old(self).pos as int, c),
            final(self).pos == if r.is_some() {
                old(self).pos + 1
            } else {
                old(self).pos as int
            },
    {
        if self.eof() || self.next_char() != c {
            return None;
        }
        self.consume_char();
        Some(())
    }

    /// Parses the name of a tag or an attribute.
    fn parse_tag_name(&mut self) -> (r: String)
        requires
            old(self).well_formed(),
        ensures
            final(self).input == old(self).input,
            final(self).pos == tag_name_end(old(self).input@, old(self).pos as int),
            old(self).pos <= final(self).pos,
            final(self).well_formed(),
            r@ == old(self).input@.subrange(old(self).pos as int, final(self).pos as int),
    {
        let r = self.consume_while(tag_char);
        proof {
            lemma_run_ends_at(
                self.input@,
                old(self).pos as int,
                |c: char| is_tag_char(c),
                self.pos as int,
            );
        }
        r
    }

    /// Parses text up to the next tag.
    fn parse_text(&mut self) -> (r: Node)
        requires
            old(self).well_formed(),
        ensures
            final(self).input == old(self).input,
            final(self).well_formed(),
            final(self).pos == end_before(old(self).input@, old(self).pos as int, '<'),
            r@ == (NodeView {
                children: Seq::empty(),
                node_type: NodeTypeView::Text(
                    old(self).input@.subrange(old(self).pos as int, final(self).pos as int),
                ),
            }),
    {
        let node = text(self.consume_until('<'));
        proof {
            lemma_node_view(node);
            assert(node@.children =~= Seq::empty());
        }
        node
    }

    /// Parses a quoted attribute value.
    fn parse_attr_value(&mut self) -> (r: Option<String>)
        requires
            old(self).well_formed(),
        ensures
            final(self).input == old(self).input,
            final(self).well_formed(),
            match r {
                Some(value) => attr_value_at(old(self).input@, old(self).pos as int) == Some(
                    (value@, final(self).pos as int),
                ),
                None => attr_value_at(old(self).input@, old(self).pos as int).is_none(),
            },
    {
        if self.eof() {
            return None;
        }
        let open_quote = self.consume_char();
        if !(open_quote == '"' || open_quote == '\'') {
            return None;
        }
        let value = self.consume_until(open_quote);
        proof {
            lemma_end_before(self.input@, old(self).pos + 1, open_quote);
        }
        self.expect_char(open_quote)?;
        Some(value)
    }

    /// Parses an attribute such as `class="note"`.
    fn parse_attr(&mut self) -> (r: Option<(String, String)>)
        requires
            old(self).well_formed(),
        ensures
            final(self).input == old(self).input,
            final(self).well_formed(),
            match r {
                Some((name, value)) => attr_at(old(self).input@, old(self).pos as int) == Some(
                    ((name@, value@), final(self).pos as int),
                ),
                None => attr_at(old(self).input@, old(self).pos as int).is_none(),
            },
    {
        let name = self.parse_tag_name();
        self.expect_char('=')?;
        let value = self.parse_attr_value()?;
        Some((name, value))
    }

    /// Parses the attributes of a tag, up to its `>`.
    fn parse_attributes(&mut self) -> (r: Option<AttrMap>)
        requires
            old(self).well_formed(),
        ensures
            final(self).input == old(self).input,
            final(self).well_formed(),
            match r {
                Some(attributes) => attributes_at(
                    old(self).input@,
                    old(self).pos as int,
                    Map::empty(),
                ) == Some((attribute_views(attributes@), final(self).pos as int)),
                None => attributes_at(old(self).input@, old(self).pos as int, Map::empty())
                    .is_none(),
            },
    {
        let mut attributes: AttrMap = StringHashMap::new();
        assert(attribute_views(attributes@) =~= Map::empty());
        loop
            invariant_except_break
                attributes_at(old(self).input@, old(self).pos as int, Map::empty())
                    == attributes_at(self.input@, self.pos as int, attribute_views(attributes@)),
            invariant
                self.input == old(self).input,
                self.well_formed(),
            ensures
                attributes_at(old(self).input@, old(self).pos as int, Map::empty()) == Some(
                    (attribute_views(attributes@), self.pos as int),
                ),
            decreases self.input@.len() - self.pos,
        {
            self.consume_whitespace();
            if self.eof() {
                return None;
            }
            if self.next_char() == '>' {
                break;
            }
            let ghost start = self.pos as int;
            let ghost before = attribute_views(attributes@);
            let (name, value) = self.parse_attr()?;
            proof {
                lemma_attr_advances(self.input@, start);
            }
            attributes.insert(name, value);
            assert(attribute_views(attributes@) =~= before.insert(name@, value@));
        }
        Some(attributes)
    }

    /// Parses an element: its opening tag, what it holds, and its closing
    /// tag.
    fn parse_element(&mut self) -> (r: Option<Node>)
        requires
            old(self).well_formed(),
        ensures
            final(self).input == old(self).input,
            final(self).well_formed(),
            match r {
                Some(node) => element_at(old(self).input@, old(self).pos as int) == Some(
                    (node@, final(self).pos as int),
                ) && old(self).pos < final(self).pos,
                None => element_at(old(self).input@, old(self).pos as int).is_none(),
            },
        decreases old(self).input@.len() - old(self).pos, 0nat,
    {
        // Opening tag
        self.expect_char('<')?;
        let tag_name = self.parse_tag_name();
        let ghost name_end = self.pos as int;
        let attrs = self.parse_attributes()?;
        proof {
            lemma_attributes_advance(self.input@, name_end, Map::empty());
        }
        self.expect_char('>')?;

        // Contents
        let children = self.parse_nodes()?;

        // Closing tag
        let ghost close = self.pos as int;
        self.expect_char('<')?;
        self.expect_char('/')?;
        let closing_name = self.parse_tag_name();
        if closing_name != tag_name {
            return None;
        }
        self.expect_char('>')?;

        let node = elem(tag_name, attrs, children);
        proof {
            lemma_node_view(node);
        }
        Some(node)
    }

    /// Parses an element or a text node.
    fn parse_node(&mut self) -> (r: Option<Node>)
        requires
            old(self).well_formed(),
            old(self).pos < old(self).input@.len(),
        ensures
            final(self).input == old(self).input,
            final(self).well_formed(),
            match r {
                Some(node) => node_at(old(self).input@, old(self).pos as int) == Some(
                    (node@, final(self).pos as int),
                ) && old(self).pos < final(self).pos,
                None => node_at(old(self).input@, old(self).pos as int).is_none(),
            },
        decreases old(self).input@.len() - old(self).pos, 1nat,
    {
        if self.next_char() == '<' {
            self.parse_element()
        } else {
            proof {
                lemma_end_before(self.input@, self.pos + 1, '<');
            }
            Some(self.parse_text())
        }
    }

    /// Parses nodes up to the end of the input or to a closing tag.
    fn parse_nodes(&mut self) -> (r: Option<Vec<Node>>)
        requires
            old(self).well_formed(),
        ensures
            final(self).input == old(self).input,
            final(self).well_formed(),
            r.is_some() ==> old(self).pos <= final(self).pos,
            match r {
                Some(nodes) => nodes_at(old(self).input@, old(self).pos as int, Seq::empty())
                    == Some((node_views(nodes@), final(self).pos as int)),
                None => nodes_at(old(self).input@, old(self).pos as int, Seq::empty()).is_none(),
            },
        decreases old(self).input@.len() - old(self).pos, 2nat,
    {
        let mut nodes: Vec<Node> = Vec::new();
        assert(node_views(nodes@) =~= Seq::empty());
        loop
            invariant_except_break
                nodes_at(old(self).input@, old(self).pos as int, Seq::empty()) == nodes_at(
                    self.input@,
                    self.pos as int,
                    node_views(nodes@),
                ),
            invariant
                self.input == old(self).input,
                self.well_formed(),
                old(self).pos <= self.pos,
            ensures
                nodes_at(old(self).input@, old(self).pos as int, Seq::empty()) == Some(
                    (node_views(nodes@), self.pos as int),
                ),
            decreases self.input@.len() - self.pos,
        {
            self.consume_whitespace();
            proof {
                reveal_strlit("</");
                assert("</"@ =~= seq!['<', '/']);
            }
            if self.eof() || self.starts_with("</") {
                break;
            }
            let ghost before = node_views(nodes@);
            let node = self.parse_node()?;
            nodes.push(node);
            assert(node_views(nodes@) =~= before.push(node@));
        }
        Some(nodes)
    }
}

/// Parses a document. Where the text holds one node at the top, that node
/// is the document; else an `html` element is put around what it holds.
/// `None` where the text is not well formed.
pub fn parse(source: String) -> (r: Option<Node>)
    ensures
        match r {
            Some(node) => document_of(source@) == Some(node@),
            None => document_of(source@).is_none(),
        },
{
    let mut parser = Parser { pos: 0, input: chars_of(source.as_str()) };
    let mut nodes = parser.parse_nodes()?;
    if nodes.len() == 1 {
        Some(nodes.swap_remove(0))
    } else {
        let attributes: AttrMap = StringHashMap::new();
        assert(attribute_views(attributes@) =~= Map::empty());
        let node = elem("html".to_string(), attributes, nodes);
        proof {
            lemma_node_view(node);
        }
        Some(node)
    }
}

} // verus!
