//! The parser: a cursor over an immutable input buffer, scanned once by
//! recursive descent.  Every function is verified to return exactly what the
//! grammar functions in [`crate::grammar`] prescribe.

use vstd::prelude::*;
use vstd::string::StrSliceExecFns;
use vstd::string::StringExecFns;

use crate::dom::AttrMap;
use crate::dom::Node;
use crate::dom::elem;
use crate::dom::nodes_view;
use crate::dom::str_eq;
use crate::dom::text;
use crate::grammar::ParseError;
use crate::grammar::at_close_marker;
use crate::grammar::attrs_map;
use crate::grammar::html_tag;
use crate::grammar::insert_all;
use crate::grammar::is_name_char;
use crate::grammar::is_space_char;
use crate::grammar::lemma_insert_all_prepend;
use crate::grammar::lemma_parse_attributes_bounds;
use crate::grammar::lemma_parse_node_bounds;
use crate::grammar::lemma_run_end;
use crate::grammar::name_end;
use crate::grammar::name_pred;
use crate::grammar::rem;
use crate::grammar::run_end;
use crate::grammar::space_pred;
use crate::grammar::spec_parse_attr;
use crate::grammar::spec_parse_attr_value;
use crate::grammar::spec_parse_attributes;
use crate::grammar::spec_parse_document;
use crate::grammar::spec_parse_element;
use crate::grammar::spec_parse_node;
use crate::grammar::spec_parse_nodes;
use crate::grammar::spec_parse_text;
use crate::grammar::until_pred;
use crate::grammar::ws_end;

verus! {

/// A parse in progress: the immutable input buffer and the cursor, a
/// character offset that only ever moves forward.
pub struct Parser {
    pos: usize,
    input: String,
}

impl Parser {
    /// The cursor stays within the input.
    spec fn wf(&self) -> bool {
        self.pos <= self.input@.len()
    }

    /// Read the next character without consuming it.
    fn next_char(&self) -> (c: char)
        requires
            self.pos < self.input@.len(),
        ensures
            c == self.input@[self.pos as int],
    {
        self.input.as_str().get_char(self.pos)
    }

    /// Does the remaining input start with the given string?
    fn starts_with(&self, s: &str) -> (r: bool)
        requires
            self.wf(),
        ensures
            r == (self.pos + s@.len() <= self.input@.len() && self.input@.subrange(
                self.pos as int,
                self.pos + s@.len(),
            ) == s@),
    {
        let n = s.unicode_len();
        let total = self.input.as_str().unicode_len();
        if total - self.pos < n {
            return false;
        }
        let mut k: usize = 0;
        while k < n
            invariant
                0 <= k <= n,
                n == s@.len(),
                total == self.input@.len(),
                self.pos + n <= total,
                forall|j: int| 0 <= j < k ==> self.input@[self.pos + j] == s@[j],
            decreases n - k,
        {
            if self.input.as_str().get_char(self.pos + k) != s.get_char(k) {
                proof {
                    assert(self.input@.subrange(self.pos as int, self.pos + s@.len())[k as int]
                        != s@[k as int]);
                }
                return false;
            }
            k += 1;
        }
        proof {
            assert(self.input@.subrange(self.pos as int, self.pos + s@.len()) =~= s@);
        }
        true
    }

    /// Does the remaining input start with the closing-tag marker `</`?
    fn at_close(&self) -> (r: bool)
        requires
            self.wf(),
        ensures
            r == at_close_marker(self.input@, self.pos as int),
    {
        let r = self.starts_with("</");
        proof {
            reveal_strlit("</");
            let s = self.input@;
            let p = self.pos as int;
            assert("</"@.len() == 2);
            if p + 2 <= s.len() {
                assert(s.subrange(p, p + 2).len() == 2);
                assert(s.subrange(p, p + 2)[0] == s[p]);
                assert(s.subrange(p, p + 2)[1] == s[p + 1]);
                if at_close_marker(s, p) {
                    assert(s.subrange(p, p + 2) =~= "</"@);
                }
            }
        }
        r
    }

    /// Is all input consumed?
    fn eof(&self) -> (r: bool)
        requires
            self.wf(),
        ensures
            r == (self.pos as int >= self.input@.len()),
    {
        self.pos >= self.input.as_str().unicode_len()
    }

    /// Return the current character and advance the cursor past it.
    fn consume_char(&mut self) -> (c: char)
        requires
            old(self).pos < old(self).input@.len(),
        ensures
            final(self).input == old(self).input,
            final(self).pos == old(self).pos + 1,
            c == old(self).input@[old(self).pos as int],
    {
        let c = self.input.as_str().get_char(self.pos);
        // The character count fits in usize, so the cursor can move past `c`.
        let n = self.input.as_str().unicode_len();
        proof {
            assert(self.pos < n);
        }
        self.pos = self.pos + 1;
        c
    }

    /// Consume the maximal run of characters on which `test` holds and return
    /// it.  `p` is the meaning of `test`.
    fn consume_while<F: Fn(char) -> bool>(
        &mut self,
        test: F,
        Ghost(p): Ghost<spec_fn(char) -> bool>,
    ) -> (r: String)
        requires
            old(self).wf(),
            forall|c: char| #[trigger] test.requires((c,)),
            forall|c: char, b: bool| test.ensures((c,), b) ==> b == p(c),
        ensures
            final(self).wf(),
            final(self).input == old(self).input,
            final(self).pos as int == run_end(old(self).input@, old(self).pos as int, p),
            r@ == old(self).input@.subrange(old(self).pos as int, final(self).pos as int),
    {
        let start: usize = self.pos;
        let ghost s = self.input@;
        let total = self.input.as_str().unicode_len();
        while !self.eof() && test(self.next_char())
            invariant
                self.wf(),
                self.input == old(self).input,
                s == self.input@,
                total == s.len(),
                start == old(self).pos,
                start <= self.pos,
                run_end(s, start as int, p) == run_end(s, self.pos as int, p),
                forall|c: char| #[trigger] test.requires((c,)),
                forall|c: char, b: bool| test.ensures((c,), b) ==> b == p(c),
            decreases s.len() - self.pos,
        {
            proof {
                assert(p(s[self.pos as int]));
            }
            self.pos = self.pos + 1;
        }
        self.input.as_str().substring_char(start, self.pos).to_owned()
    }

    /// Consume and discard the maximal run of whitespace.
    fn consume_whitespace(&mut self)
        requires
            old(self).wf(),
        ensures
            final(self).wf(),
            final(self).input == old(self).input,
            final(self).pos as int == ws_end(old(self).input@, old(self).pos as int),
    {
        let _ = self.consume_while(
            (|c: char| -> (b: bool)
                ensures
                    b == is_space_char(c),
                { c == ' ' || c == '\n' || c == '\t' || c == '\r' }),
            Ghost(space_pred()),
        );
    }

    /// Consume a tag or attribute name: the maximal run of ASCII letters and
    /// digits, possibly empty.
    fn parse_tag_name(&mut self) -> (r: String)
        requires
            old(self).wf(),
        ensures
            final(self).wf(),
            final(self).input == old(self).input,
            final(self).pos as int == name_end(old(self).input@, old(self).pos as int),
            r@ == old(self).input@.subrange(old(self).pos as int, final(self).pos as int),
    {
        self.consume_while(
            (|c: char| -> (b: bool)
                ensures
                    b == is_name_char(c),
                {
                    ('a' as u32 <= c as u32 && c as u32 <= 'z' as u32) || ('A' as u32 <= c as u32
                        && c as u32 <= 'Z' as u32) || ('0' as u32 <= c as u32 && c as u32
                        <= '9' as u32)
                }),
            Ghost(name_pred()),
        )
    }

    /// Parse one node: `<` starts an element, anything else starts a text
    /// run; at the end of the input no node can start.
    fn parse_node(&mut self) -> (r: Result<Node, ParseError>)
        requires
            old(self).wf(),
        ensures
            final(self).wf(),
            final(self).input == old(self).input,
            (match spec_parse_node(old(self).input@, old(self).pos as int) {
                Ok(p) => r matches Ok(n) && n@ == p.0 && final(self).pos as int == p.1,
                Err(e) => r matches Err(e2) && e2 == e,
            }),
        decreases rem(self.input@, self.pos as int), 1int,
    {
        if self.eof() {
            return Err(ParseError::UnexpectedEof);
        }
        if self.next_char() == '<' {
            self.parse_element()
        } else {
            Ok(self.parse_text())
        }
    }

    /// Parse a text node: everything up to the next `<` or the end of the
    /// input.  Never fails; the run may be empty.
    fn parse_text(&mut self) -> (n: Node)
        requires
            old(self).wf(),
        ensures
            final(self).wf(),
            final(self).input == old(self).input,
            n@ == spec_parse_text(old(self).input@, old(self).pos as int).0,
            final(self).pos as int == spec_parse_text(old(self).input@, old(self).pos as int).1,
    {
        let run = self.consume_while(
            (|c: char| -> (b: bool)
                ensures
                    b == (c != '<'),
                { c != '<' }),
            Ghost(until_pred('<')),
        );
        text(run)
    }

    /// Parse one element: `<`, a non-empty tag name, attributes, `>`, the
    /// children, then `</`, the same tag name, and `>`.
    fn parse_element(&mut self) -> (r: Result<Node, ParseError>)
        requires
            old(self).wf(),
        ensures
            final(self).wf(),
            final(self).input == old(self).input,
            (match spec_parse_element(old(self).input@, old(self).pos as int) {
                Ok(p) => r matches Ok(n) && n@ == p.0 && final(self).pos as int == p.1,
                Err(e) => r matches Err(e2) && e2 == e,
            }),
        decreases rem(self.input@, self.pos as int), 0int,
    {
        let ghost s = self.input@;
        let ghost pos0 = self.pos as int;
        // Opening tag.
        if self.eof() {
            return Err(ParseError::UnexpectedEof);
        }
        let c0 = self.consume_char();
        if c0 != '<' {
            return Err(ParseError::UnexpectedChar);
        }
        let tag_name = self.parse_tag_name();
        let ghost ne = name_end(s, pos0 + 1);
        if tag_name.as_str().is_empty() {
            // The tag name is empty.
            if self.eof() {
                return Err(ParseError::UnexpectedEof);
            } else {
                return Err(ParseError::UnexpectedChar);
            }
        }
        let attrs = match self.parse_attributes() {
            Ok(a) => a,
            Err(e) => return Err(e),
        };
        proof {
            lemma_parse_attributes_bounds(s, ne);
        }
        let _gt = self.consume_char();
        // Contents.
        let children = match self.parse_nodes() {
            Ok(ns) => ns,
            Err(e) => return Err(e),
        };
        // Closing tag.
        if self.eof() {
            return Err(ParseError::UnexpectedEof);
        }
        let c1 = self.consume_char();
        if c1 != '<' {
            return Err(ParseError::UnexpectedChar);
        }
        if self.eof() {
            return Err(ParseError::UnexpectedEof);
        }
        let c2 = self.consume_char();
        if c2 != '/' {
            return Err(ParseError::UnexpectedChar);
        }
        let close_name = self.parse_tag_name();
        if !str_eq(close_name.as_str(), tag_name.as_str()) {
            return Err(ParseError::TagMismatch);
        }
        if self.eof() {
            return Err(ParseError::UnexpectedEof);
        }
        let c3 = self.consume_char();
        if c3 != '>' {
            return Err(ParseError::UnexpectedChar);
        }
        Ok(elem(tag_name, attrs, children))
    }

    /// Parse one quoted attribute value: an opening `"` or `'`, the run up to
    /// the matching quote, then the closing quote.
    fn parse_attr_value(&mut self) -> (r: Result<String, ParseError>)
        requires
            old(self).wf(),
        ensures
            final(self).wf(),
            final(self).input == old(self).input,
            (match spec_parse_attr_value(old(self).input@, old(self).pos as int) {
                Ok(p) => r matches Ok(v) && v@ == p.0 && final(self).pos as int == p.1,
                Err(e) => r matches Err(e2) && e2 == e,
            }),
    {
        let ghost s = self.input@;
        let ghost pos0 = self.pos as int;
        if self.eof() {
            return Err(ParseError::UnexpectedEof);
        }
        let q = self.consume_char();
        if q != '"' && q != '\'' {
            return Err(ParseError::UnexpectedChar);
        }
        let value = self.consume_while(
            (|c: char| -> (b: bool)
                ensures
                    b == (c != q),
                { c != q }),
            Ghost(until_pred(q)),
        );
        if self.eof() {
            return Err(ParseError::UnexpectedEof);
        }
        proof {
            lemma_run_end(s, pos0 + 1, until_pred(q));
        }
        let _close = self.consume_char();
        Ok(value)
    }

    /// Parse one `name="value"` pair: a name run, `=`, then a quoted value.
    fn parse_attr(&mut self) -> (r: Result<(String, String), ParseError>)
        requires
            old(self).wf(),
        ensures
            final(self).wf(),
            final(self).input == old(self).input,
            (match spec_parse_attr(old(self).input@, old(self).pos as int) {
                Ok(p) => r matches Ok(nv) && nv.0@ == p.0.0 && nv.1@ == p.0.1
                    && final(self).pos as int == p.1,
                Err(e) => r matches Err(e2) && e2 == e,
            }),
    {
        let name = self.parse_tag_name();
        if self.eof() {
            return Err(ParseError::UnexpectedEof);
        }
        let c = self.consume_char();
        if c != '=' {
            return Err(ParseError::UnexpectedChar);
        }
        let value = match self.parse_attr_value() {
            Ok(v) => v,
            Err(e) => return Err(e),
        };
        Ok((name, value))
    }

    /// Parse the attribute list: repeatedly skip whitespace and parse one
    /// pair, until `>` is seen (not consumed).  A duplicated name keeps the
    /// last value.
    fn parse_attributes(&mut self) -> (r: Result<AttrMap, ParseError>)
        requires
            old(self).wf(),
        ensures
            final(self).wf(),
            final(self).input == old(self).input,
            (match spec_parse_attributes(old(self).input@, old(self).pos as int) {
                Ok(p) => r matches Ok(m) && m@ == attrs_map(p.0) && m.wf()
                    && final(self).pos as int == p.1,
                Err(e) => r matches Err(e2) && e2 == e,
            }),
    {
        let ghost s = self.input@;
        let ghost pos0 = self.pos as int;
        let mut attributes = AttrMap::new();
        loop
            invariant
                self.wf(),
                self.input == old(self).input,
                s == old(self).input@,
                s == self.input@,
                pos0 == old(self).pos as int,
                pos0 <= self.pos as int,
                attributes.wf(),
                (match spec_parse_attributes(s, pos0) {
                    Ok(p) => spec_parse_attributes(s, self.pos as int) matches Ok(q) && q.1 == p.1
                        && insert_all(attributes@, q.0) == attrs_map(p.0),
                    Err(e) => spec_parse_attributes(s, self.pos as int) matches Err(e2) && e2 == e,
                }),
            decreases rem(s, self.pos as int),
        {
            self.consume_whitespace();
            let ghost i = self.pos as int;
            if self.eof() {
                return Err(ParseError::UnexpectedEof);
            }
            if self.next_char() == '>' {
                return Ok(attributes);
            }
            let (name, value) = match self.parse_attr() {
                Ok(nv) => nv,
                Err(e) => return Err(e),
            };
            proof {
                if let Ok((pair, e)) = spec_parse_attr(s, i) {
                    if let Ok((rest, gt)) = spec_parse_attributes(s, e) {
                        lemma_insert_all_prepend(attributes@, pair, rest);
                    }
                }
            }
            attributes.insert(name, value);
        }
    }

    /// Parse the sequence of sibling nodes: repeatedly skip whitespace and
    /// parse one node, until the input is exhausted or `</` follows.
    fn parse_nodes(&mut self) -> (r: Result<Vec<Node>, ParseError>)
        requires
            old(self).wf(),
        ensures
            final(self).wf(),
            final(self).input == old(self).input,
            (match spec_parse_nodes(old(self).input@, old(self).pos as int) {
                Ok(p) => r matches Ok(ns) && nodes_view(ns@) == p.0 && final(self).pos as int
                    == p.1,
                Err(e) => r matches Err(e2) && e2 == e,
            }),
        decreases rem(self.input@, self.pos as int), 2int,
    {
        let ghost s = self.input@;
        let ghost pos0 = self.pos as int;
        let mut nodes: Vec<Node> = Vec::new();
        loop
            invariant
                self.wf(),
                self.input == old(self).input,
                s == old(self).input@,
                s == self.input@,
                pos0 == old(self).pos as int,
                pos0 <= self.pos as int,
                (match spec_parse_nodes(s, pos0) {
                    Ok(p) => spec_parse_nodes(s, self.pos as int) matches Ok(q) && q.1 == p.1
                        && nodes_view(nodes@).add(q.0) == p.0,
                    Err(e) => spec_parse_nodes(s, self.pos as int) matches Err(e2) && e2 == e,
                }),
            decreases rem(s, self.pos as int),
        {
            self.consume_whitespace();
            let ghost i = self.pos as int;
            if self.eof() || self.at_close() {
                proof {
                    if let Ok(p) = spec_parse_nodes(s, pos0) {
                        if let Ok(q) = spec_parse_nodes(s, i) {
                            assert(nodes_view(nodes@).add(q.0) =~= nodes_view(nodes@));
                        }
                    }
                }
                return Ok(nodes);
            }
            let node = match self.parse_node() {
                Ok(n) => n,
                Err(e) => return Err(e),
            };
            proof {
                lemma_parse_node_bounds(s, i);
                if let Ok((sn, e)) = spec_parse_node(s, i) {
                    assert(nodes_view(nodes@.push(node)) =~= nodes_view(nodes@).push(node@));
                    if let Ok((rest, end)) = spec_parse_nodes(s, e) {
                        assert(nodes_view(nodes@.push(node)).add(rest) =~= nodes_view(
                            nodes@,
                        ).add(seq![sn].add(rest)));
                    }
                }
            }
            nodes.push(node);
        }
    }

    /// Parse a whole document and return the root node.  Exactly one
    /// top-level node is itself the root; zero or several are wrapped in a
    /// synthesized `html` element with no attributes.
    pub fn parse(source: String) -> (r: Result<Node, ParseError>)
        ensures
            (match spec_parse_document(source@) {
                Ok(sn) => r matches Ok(n) && n@ == sn,
                Err(e) => r matches Err(e2) && e2 == e,
            }),
    {
        let mut parser = Parser { pos: 0, input: source };
        let mut nodes = match parser.parse_nodes() {
            Ok(ns) => ns,
            Err(e) => return Err(e),
        };
        if nodes.len() == 1 {
            let n = nodes.pop().unwrap();
            Ok(n)
        } else {
            proof {
                reveal_strlit("html");
                assert("html"@ =~= html_tag());
            }
            let tag = String::from_str("html");
            Ok(elem(tag, AttrMap::new(), nodes))
        }
    }
}

} // verus!
