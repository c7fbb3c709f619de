//! The grammar of the markup dialect, as spec functions over the input's
//! character sequence.  Each function returns the parsed value together with
//! the scan position after it, or the error the grammar prescribes.  The
//! executable parser is verified to agree with these functions exactly.

use vstd::prelude::*;

use crate::dom::SpecNode;

verus! {

/// Why a parse failed.  Every failure is a defect of the input; none is
/// recoverable within the parse call.
#[derive(Clone, Copy, Debug, PartialEq, Eq, Structural)]
pub enum ParseError {
    /// The input ended while a grammar rule still expected more characters.
    UnexpectedEof,
    /// A required character was not found at the position the grammar
    /// required it.
    UnexpectedChar,
    /// A closing tag's name differs from its opening tag's name.
    TagMismatch,
}

/// Whitespace as the scanner skips it.
pub open spec fn is_space_char(c: char) -> bool {
    c == ' ' || c == '\n' || c == '\t' || c == '\r'
}

/// Characters allowed in tag and attribute names: ASCII letters and digits.
pub open spec fn is_name_char(c: char) -> bool {
    ('a' as u32 <= c as u32 && c as u32 <= 'z' as u32) || ('A' as u32 <= c as u32 && c as u32
        <= 'Z' as u32) || ('0' as u32 <= c as u32 && c as u32 <= '9' as u32)
}

/// Length of the maximal run of characters satisfying `p`, starting at `pos`.
pub open spec fn run_len(s: Seq<char>, pos: int, p: spec_fn(char) -> bool) -> nat
    decreases s.len() - pos,
{
    if pos < s.len() && p(s[pos]) {
        1 + run_len(s, pos + 1, p)
    } else {
        0
    }
}

/// Position just past the maximal run of characters satisfying `p`; never
/// before `pos`.
pub open spec fn run_end(s: Seq<char>, pos: int, p: spec_fn(char) -> bool) -> int {
    pos + run_len(s, pos, p)
}

/// The whitespace predicate as a function value, so that every use names the
/// same function.
pub open spec fn space_pred() -> spec_fn(char) -> bool {
    |c: char| is_space_char(c)
}

/// The name-character predicate as a function value.
pub open spec fn name_pred() -> spec_fn(char) -> bool {
    |c: char| is_name_char(c)
}

/// The predicate holding up to (not including) the character `q`.
pub open spec fn until_pred(q: char) -> spec_fn(char) -> bool {
    |c: char| c != q
}

/// End of the whitespace run at `pos`.
pub open spec fn ws_end(s: Seq<char>, pos: int) -> int {
    run_end(s, pos, space_pred())
}

/// End of the name run (ASCII letters and digits) at `pos`.
pub open spec fn name_end(s: Seq<char>, pos: int) -> int {
    run_end(s, pos, name_pred())
}

/// End of the text run at `pos`: everything up to the next `<` or the end of
/// the input.
pub open spec fn text_end(s: Seq<char>, pos: int) -> int {
    run_end(s, pos, until_pred('<'))
}

/// End of the attribute-value run at `pos`: everything up to the quote
/// character `q` or the end of the input.
pub open spec fn value_end(s: Seq<char>, pos: int, q: char) -> int {
    run_end(s, pos, until_pred(q))
}

/// The characters of a maximal run satisfy `p`, the run ends within the
/// input, and the character after it (if any) fails `p`.
pub proof fn lemma_run_end(s: Seq<char>, pos: int, p: spec_fn(char) -> bool)
    requires
        0 <= pos <= s.len(),
    ensures
        pos <= run_end(s, pos, p) <= s.len(),
        forall|k: int| pos <= k < run_end(s, pos, p) ==> p(s[k]),
        run_end(s, pos, p) < s.len() ==> !p(s[run_end(s, pos, p)]),
    decreases s.len() - pos,
{
    if pos < s.len() && p(s[pos]) {
        lemma_run_end(s, pos + 1, p);
    }
}

/// A run is exactly `k` long when the `k` characters at `pos` satisfy `p`
/// and the input ends or fails `p` right after them.
pub proof fn lemma_run_end_exact(s: Seq<char>, pos: int, k: int, p: spec_fn(char) -> bool)
    requires
        0 <= pos,
        0 <= k,
        pos + k <= s.len(),
        forall|j: int| pos <= j < pos + k ==> p(s[j]),
        pos + k == s.len() || !p(s[pos + k]),
    ensures
        run_end(s, pos, p) == pos + k,
    decreases k,
{
    if k > 0 {
        lemma_run_end_exact(s, pos + 1, k - 1, p);
    }
}

/// The remaining input from `pos` on: the termination measure for the
/// mutually recursive grammar functions.
pub open spec fn rem(s: Seq<char>, pos: int) -> int {
    if pos <= s.len() {
        s.len() - pos
    } else {
        0
    }
}

/// Does the input at `pos` begin the closing-tag marker `</`?
pub open spec fn at_close_marker(s: Seq<char>, pos: int) -> bool {
    pos + 1 < s.len() && s[pos] == '<' && s[pos + 1] == '/'
}

/// The synthesized root tag name.
pub open spec fn html_tag() -> Seq<char> {
    seq!['h', 't', 'm', 'l']
}

/// Parse one node at `pos`: `<` starts an element, anything else starts a
/// text run; at the end of the input no node can start.
pub open spec fn spec_parse_node(s: Seq<char>, pos: int) -> Result<(SpecNode, int), ParseError>
    decreases rem(s, pos), 1int,
{
    if pos >= s.len() {
        Err(ParseError::UnexpectedEof)
    } else if s[pos] == '<' {
        spec_parse_element(s, pos)
    } else {
        Ok(spec_parse_text(s, pos))
    }
}

/// Parse a text run at `pos`: everything up to the next `<` or the end of
/// the input.  Never fails; the run may be empty.
pub open spec fn spec_parse_text(s: Seq<char>, pos: int) -> (SpecNode, int) {
    (SpecNode::Text { data: s.subrange(pos, text_end(s, pos)) }, text_end(s, pos))
}

/// Parse one element at `pos`: `<`, a non-empty tag name, attributes, `>`,
/// the children, then `</`, the same tag name, and `>`.
pub open spec fn spec_parse_element(s: Seq<char>, pos: int) -> Result<(SpecNode, int), ParseError>
    decreases rem(s, pos), 0int,
{
    if pos >= s.len() {
        Err(ParseError::UnexpectedEof)
    } else if s[pos] != '<' {
        Err(ParseError::UnexpectedChar)
    } else {
        let ne = name_end(s, pos + 1);
        if ne <= pos + 1 {
            // The tag name is empty.
            if pos + 1 >= s.len() {
                Err(ParseError::UnexpectedEof)
            } else {
                Err(ParseError::UnexpectedChar)
            }
        } else {
            let tag = s.subrange(pos + 1, ne);
            match spec_parse_attributes(s, ne) {
                Err(e) => Err(e),
                Ok((pairs, gt)) => if gt < pos {
                    // Never taken: an attribute list never ends before it
                    // began (lemma_parse_attributes_bounds); the branch only
                    // bounds the recursion.
                    Err(ParseError::UnexpectedEof)
                } else {
                    match spec_parse_nodes(s, gt + 1) {
                        Err(e) => Err(e),
                        Ok((children, cpos)) => if cpos >= s.len() {
                            Err(ParseError::UnexpectedEof)
                        } else if s[cpos] != '<' {
                            Err(ParseError::UnexpectedChar)
                        } else if cpos + 1 >= s.len() {
                            Err(ParseError::UnexpectedEof)
                        } else if s[cpos + 1] != '/' {
                            Err(ParseError::UnexpectedChar)
                        } else {
                            let ce = name_end(s, cpos + 2);
                            if s.subrange(cpos + 2, ce) != tag {
                                Err(ParseError::TagMismatch)
                            } else if ce >= s.len() {
                                Err(ParseError::UnexpectedEof)
                            } else if s[ce] != '>' {
                                Err(ParseError::UnexpectedChar)
                            } else {
                                Ok(
                                    (
                                        SpecNode::Element {
                                            tag,
                                            attrs: attrs_map(pairs),
                                            children,
                                        },
                                        ce + 1,
                                    ),
                                )
                            }
                        },
                    }
                },
            }
        }
    }
}

/// Parse a quoted attribute value at `pos`: an opening `"` or `'`, the run of
/// characters up to the matching quote, then the closing quote.  Returns the
/// value and the position after the closing quote.
pub open spec fn spec_parse_attr_value(s: Seq<char>, pos: int) -> Result<
    (Seq<char>, int),
    ParseError,
> {
    if pos >= s.len() {
        Err(ParseError::UnexpectedEof)
    } else if s[pos] != '"' && s[pos] != '\'' {
        Err(ParseError::UnexpectedChar)
    } else {
        let q = s[pos];
        let qe = value_end(s, pos + 1, q);
        if qe >= s.len() {
            Err(ParseError::UnexpectedEof)
        } else {
            Ok((s.subrange(pos + 1, qe), qe + 1))
        }
    }
}

/// Parse one `name="value"` pair at `pos`: a name run (possibly empty), `=`,
/// then a quoted value.  Returns the pair and the position after it.
pub open spec fn spec_parse_attr(s: Seq<char>, pos: int) -> Result<
    ((Seq<char>, Seq<char>), int),
    ParseError,
> {
    let nm = name_end(s, pos);
    let name = s.subrange(pos, nm);
    if nm >= s.len() {
        Err(ParseError::UnexpectedEof)
    } else if s[nm] != '=' {
        Err(ParseError::UnexpectedChar)
    } else {
        match spec_parse_attr_value(s, nm + 1) {
            Err(e) => Err(e),
            Ok((value, e)) => Ok(((name, value), e)),
        }
    }
}

/// Parse the attribute list at `pos`: repeatedly skip whitespace and parse
/// one `name="value"` or `name='value'` pair, until `>` is seen.  Returns the
/// pairs in source order and the position of the `>` (not consumed).
pub open spec fn spec_parse_attributes(s: Seq<char>, pos: int) -> Result<
    (Seq<(Seq<char>, Seq<char>)>, int),
    ParseError,
>
    decreases rem(s, pos), 0int,
{
    let i = ws_end(s, pos);
    if i >= s.len() {
        Err(ParseError::UnexpectedEof)
    } else if s[i] == '>' {
        Ok((Seq::empty(), i))
    } else {
        match spec_parse_attr(s, i) {
            Err(e) => Err(e),
            Ok((pair, e)) => match spec_parse_attributes(s, e) {
                Err(err) => Err(err),
                Ok((rest, gt)) => Ok((seq![pair].add(rest), gt)),
            },
        }
    }
}

/// Parse the sequence of sibling nodes at `pos`: repeatedly skip whitespace
/// and parse one node, until the input is exhausted or the closing-tag
/// marker `</` follows.
pub open spec fn spec_parse_nodes(s: Seq<char>, pos: int) -> Result<
    (Seq<SpecNode>, int),
    ParseError,
>
    decreases rem(s, pos), 2int,
{
    let i = ws_end(s, pos);
    if i >= s.len() || at_close_marker(s, i) {
        Ok((Seq::empty(), i))
    } else {
        match spec_parse_node(s, i) {
            Err(e) => Err(e),
            Ok((node, e)) => if e <= i {
                // Never taken: a parsed node always consumes at least one
                // character (lemma_parse_node_bounds); the branch only bounds
                // the recursion.
                Err(ParseError::UnexpectedEof)
            } else {
                match spec_parse_nodes(s, e) {
                    Err(err) => Err(err),
                    Ok((rest, end)) => Ok((seq![node].add(rest), end)),
                }
            },
        }
    }
}

/// Parse a whole document: the sequence of top-level nodes.  Exactly one
/// top-level node is itself the root; zero or several are wrapped in a
/// synthesized `html` element with no attributes.
pub open spec fn spec_parse_document(s: Seq<char>) -> Result<SpecNode, ParseError> {
    match spec_parse_nodes(s, 0) {
        Err(e) => Err(e),
        Ok((ns, _)) => if ns.len() == 1 {
            Ok(ns[0])
        } else {
            Ok(SpecNode::Element { tag: html_tag(), attrs: Map::empty(), children: ns })
        },
    }
}

/// An attribute list that parses ends at its `>`, within the input and no
/// earlier than it began.
pub proof fn lemma_parse_attributes_bounds(s: Seq<char>, pos: int)
    requires
        0 <= pos <= s.len(),
    ensures
        match spec_parse_attributes(s, pos) {
            Ok((pairs, gt)) => pos <= gt < s.len() && s[gt] == '>',
            Err(_) => true,
        },
    decreases rem(s, pos), 0int,
{
    let i = ws_end(s, pos);
    lemma_run_end(s, pos, space_pred());
    if i < s.len() && s[i] != '>' {
        lemma_run_end(s, i, name_pred());
        match spec_parse_attr(s, i) {
            Ok((pair, e)) => {
                let nm = name_end(s, i);
                if nm < s.len() && s[nm] == '=' {
                    lemma_run_end(s, nm + 2, until_pred(s[nm + 1]));
                }
                lemma_parse_attributes_bounds(s, e);
            },
            Err(_) => {},
        }
    }
}

/// A node that parses consumes at least one character and ends within the
/// input.
pub proof fn lemma_parse_node_bounds(s: Seq<char>, pos: int)
    requires
        0 <= pos <= s.len(),
    ensures
        match spec_parse_node(s, pos) {
            Ok((node, e)) => pos < e <= s.len(),
            Err(_) => true,
        },
    decreases rem(s, pos), 1int,
{
    if pos < s.len() {
        if s[pos] == '<' {
            lemma_parse_element_bounds(s, pos);
        } else {
            lemma_run_end(s, pos, until_pred('<'));
        }
    }
}

/// An element that parses consumes at least one character and ends within
/// the input.
pub proof fn lemma_parse_element_bounds(s: Seq<char>, pos: int)
    requires
        0 <= pos <= s.len(),
    ensures
        match spec_parse_element(s, pos) {
            Ok((node, e)) => pos < e <= s.len(),
            Err(_) => true,
        },
    decreases rem(s, pos), 0int,
{
    if pos < s.len() && s[pos] == '<' {
        let ne = name_end(s, pos + 1);
        lemma_run_end(s, pos + 1, name_pred());
        if ne > pos + 1 {
            lemma_parse_attributes_bounds(s, ne);
            match spec_parse_attributes(s, ne) {
                Ok((pairs, gt)) => {
                    lemma_parse_nodes_bounds(s, gt + 1);
                    match spec_parse_nodes(s, gt + 1) {
                        Ok((children, cpos)) => {
                            if cpos + 1 < s.len() {
                                lemma_run_end(s, cpos + 2, name_pred());
                            }
                        },
                        Err(_) => {},
                    }
                },
                Err(_) => {},
            }
        }
    }
}

/// A sibling list that parses ends within the input, no earlier than it
/// began, and only at the end of the input or at a closing-tag marker.
pub proof fn lemma_parse_nodes_bounds(s: Seq<char>, pos: int)
    requires
        0 <= pos <= s.len(),
    ensures
        match spec_parse_nodes(s, pos) {
            Ok((nodes, e)) => pos <= e <= s.len() && (e == s.len() || at_close_marker(s, e)),
            Err(_) => true,
        },
    decreases rem(s, pos), 2int,
{
    let i = ws_end(s, pos);
    lemma_run_end(s, pos, space_pred());
    if i < s.len() && !at_close_marker(s, i) {
        lemma_parse_node_bounds(s, i);
        match spec_parse_node(s, i) {
            Ok((node, e)) => {
                lemma_parse_nodes_bounds(s, e);
            },
            Err(_) => {},
        }
    }
}

/// The attribute mapping described by a sequence of name/value pairs: pairs
/// are added in source order, so on a duplicated name the last occurrence
/// wins.
pub open spec fn insert_all(
    m: Map<Seq<char>, Seq<char>>,
    ps: Seq<(Seq<char>, Seq<char>)>,
) -> Map<Seq<char>, Seq<char>>
    decreases ps.len(),
{
    if ps.len() == 0 {
        m
    } else {
        insert_all(m, ps.drop_last()).insert(ps.last().0, ps.last().1)
    }
}

/// The attribute mapping of a pair sequence, starting from nothing.
pub open spec fn attrs_map(ps: Seq<(Seq<char>, Seq<char>)>) -> Map<Seq<char>, Seq<char>> {
    insert_all(Map::empty(), ps)
}

/// Adding the pairs one after another: the first pair can be inserted first.
pub proof fn lemma_insert_all_prepend(
    m: Map<Seq<char>, Seq<char>>,
    p: (Seq<char>, Seq<char>),
    ps: Seq<(Seq<char>, Seq<char>)>,
)
    ensures
        insert_all(m, seq![p].add(ps)) == insert_all(m.insert(p.0, p.1), ps),
    decreases ps.len(),
{
    if ps.len() == 0 {
        assert(seq![p].add(ps) =~= seq![p]);
        assert(seq![p].drop_last() =~= Seq::<(Seq<char>, Seq<char>)>::empty());
        assert(insert_all(m, Seq::<(Seq<char>, Seq<char>)>::empty()) == m);
        assert(insert_all(m, seq![p]) == insert_all(m, seq![p].drop_last()).insert(p.0, p.1));
        assert(insert_all(m.insert(p.0, p.1), ps) == m.insert(p.0, p.1));
    } else {
        let whole = seq![p].add(ps);
        assert(whole.drop_last() =~= seq![p].add(ps.drop_last()));
        assert(whole.last() == ps.last());
        lemma_insert_all_prepend(m, p, ps.drop_last());
        assert(insert_all(m, whole) == insert_all(m, whole.drop_last()).insert(
            whole.last().0,
            whole.last().1,
        ));
        assert(insert_all(m.insert(p.0, p.1), ps) == insert_all(
            m.insert(p.0, p.1),
            ps.drop_last(),
        ).insert(ps.last().0, ps.last().1));
    }
}

} // verus!
