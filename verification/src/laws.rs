//! General properties of the grammar, stated and proved once and for all:
//! how the document root is chosen, and that the attribute mapping depends
//! only on which pairs occur (and, for duplicated names, on which occurrence
//! is last), not on the order the pairs were written in.

use vstd::map::*;
use vstd::prelude::*;

use crate::dom::SpecNode;
use crate::grammar::ParseError;
use crate::grammar::at_close_marker;
use crate::grammar::attrs_map;
use crate::grammar::html_tag;
use crate::grammar::insert_all;
use crate::grammar::is_name_char;
use crate::grammar::is_space_char;
use crate::grammar::lemma_parse_attributes_bounds;
use crate::grammar::lemma_parse_node_bounds;
use crate::grammar::lemma_run_end;
use crate::grammar::lemma_run_end_exact;
use crate::grammar::name_end;
use crate::grammar::name_pred;
use crate::grammar::rem;
use crate::grammar::space_pred;
use crate::grammar::spec_parse_attributes;
use crate::grammar::spec_parse_document;
use crate::grammar::spec_parse_element;
use crate::grammar::spec_parse_node;
use crate::grammar::spec_parse_nodes;
use crate::grammar::text_end;
use crate::grammar::until_pred;
use crate::grammar::ws_end;

verus! {

/// A well-formed document with exactly one top-level node parses to that
/// node itself: no wrapper is synthesized around a single root.
pub proof fn lemma_single_root_is_returned(s: Seq<char>, ns: Seq<SpecNode>, end: int)
    requires
        spec_parse_nodes(s, 0) == Ok::<_, ParseError>((ns, end)),
        ns.len() == 1,
    ensures
        spec_parse_document(s) == Ok::<_, ParseError>(ns[0]),
{
}

/// A document with zero or more than one top-level node parses to a
/// synthesized `html` element with no attributes whose children are the
/// top-level nodes in document order.
pub proof fn lemma_fragment_synthesizes_html_root(s: Seq<char>, ns: Seq<SpecNode>, end: int)
    requires
        spec_parse_nodes(s, 0) == Ok::<_, ParseError>((ns, end)),
        ns.len() != 1,
    ensures
        spec_parse_document(s) == Ok::<_, ParseError>(
            SpecNode::Element {
                tag: html_tag(),
                attrs: Map::empty(),
                children: ns,
            },
        ),
{
}

/// Structural well-formedness of a parsed tree: every element carries a
/// non-empty tag name of ASCII letters and digits, down to the leaves.
pub open spec fn spec_node_wf(n: SpecNode) -> bool
    decreases n,
{
    match n {
        SpecNode::Text { data } => true,
        SpecNode::Element { tag, attrs, children } => tag.len() > 0 && (forall|k: int|
            0 <= k < tag.len() ==> is_name_char(#[trigger] tag[k])) && (forall|i: int|
            0 <= i < children.len() ==> spec_node_wf(#[trigger] children[i])),
    }
}

/// Trees are well-formed by construction: every node a parse returns
/// satisfies [`spec_node_wf`].
pub proof fn lemma_parse_document_well_formed(s: Seq<char>)
    ensures
        match spec_parse_document(s) {
            Ok(root) => spec_node_wf(root),
            Err(_) => true,
        },
{
    lemma_parse_nodes_well_formed(s, 0);
    match spec_parse_nodes(s, 0) {
        Ok((ns, _)) => {
            if ns.len() != 1 {
                assert(is_name_char('h') && is_name_char('t') && is_name_char('m')
                    && is_name_char('l'));
                assert forall|k: int| 0 <= k < html_tag().len() implies is_name_char(
                    #[trigger] html_tag()[k],
                ) by {}
            }
        },
        Err(_) => {},
    }
}

/// Every node of a parsed sibling list is well-formed.
pub proof fn lemma_parse_nodes_well_formed(s: Seq<char>, pos: int)
    requires
        0 <= pos <= s.len(),
    ensures
        match spec_parse_nodes(s, pos) {
            Ok((ns, e)) => forall|i: int| 0 <= i < ns.len() ==> spec_node_wf(#[trigger] ns[i]),
            Err(_) => true,
        },
    decreases rem(s, pos), 2int,
{
    let i = ws_end(s, pos);
    lemma_run_end(s, pos, space_pred());
    if i < s.len() && !at_close_marker(s, i) {
        lemma_parse_node_well_formed(s, i);
        lemma_parse_node_bounds(s, i);
        match spec_parse_node(s, i) {
            Ok((node, e)) => {
                lemma_parse_nodes_well_formed(s, e);
                match spec_parse_nodes(s, e) {
                    Ok((rest, end)) => {
                        assert forall|k: int|
                            0 <= k < seq![node].add(rest).len() implies spec_node_wf(
                            #[trigger] seq![node].add(rest)[k],
                        ) by {
                            if k > 0 {
                                assert(seq![node].add(rest)[k] == rest[k - 1]);
                            }
                        }
                    },
                    Err(_) => {},
                }
            },
            Err(_) => {},
        }
    }
}

/// A parsed node is well-formed.
pub proof fn lemma_parse_node_well_formed(s: Seq<char>, pos: int)
    requires
        0 <= pos <= s.len(),
    ensures
        match spec_parse_node(s, pos) {
            Ok((node, e)) => spec_node_wf(node),
            Err(_) => true,
        },
    decreases rem(s, pos), 1int,
{
    if pos < s.len() && s[pos] == '<' {
        lemma_parse_element_well_formed(s, pos);
    }
}

/// A parsed element is well-formed: its tag name was scanned as a non-empty
/// run of name characters, and its children are parsed nodes.
pub proof fn lemma_parse_element_well_formed(s: Seq<char>, pos: int)
    requires
        0 <= pos <= s.len(),
    ensures
        match spec_parse_element(s, pos) {
            Ok((node, e)) => spec_node_wf(node),
            Err(_) => true,
        },
    decreases rem(s, pos), 0int,
{
    if pos < s.len() && s[pos] == '<' {
        let ne = name_end(s, pos + 1);
        lemma_run_end(s, pos + 1, name_pred());
        if ne > pos + 1 {
            let tag = s.subrange(pos + 1, ne);
            assert forall|k: int| 0 <= k < tag.len() implies is_name_char(#[trigger] tag[k]) by {
                assert(name_pred()(s[pos + 1 + k]));
            }
            lemma_parse_attributes_bounds(s, ne);
            match spec_parse_attributes(s, ne) {
                Ok((pairs, gt)) => {
                    lemma_parse_nodes_well_formed(s, gt + 1);
                },
                Err(_) => {},
            }
        }
    }
}

/// A document holding no markup at all parses to a single text root holding
/// it verbatim.  A text node serializes to its own data, so such trees
/// round-trip: re-parsing the serialization reproduces the tree.
pub proof fn lemma_text_document_round_trips(data: Seq<char>)
    requires
        data.len() > 0,
        !is_space_char(data[0]),
        forall|k: int| 0 <= k < data.len() ==> data[k] != '<',
    ensures
        spec_parse_document(data) == Ok::<SpecNode, ParseError>(SpecNode::Text { data }),
{
    let n = data.len() as int;
    assert(!(space_pred()(data[0])));
    assert(ws_end(data, 0) == 0);
    lemma_run_end(data, 0, until_pred('<'));
    let te = text_end(data, 0);
    if te < n {
        assert(!(until_pred('<')(data[te])));
        assert(false);
    }
    assert(data.subrange(0, n) =~= data);
    assert(spec_parse_node(data, 0) == Ok::<_, ParseError>((SpecNode::Text { data }, n)));
    assert(ws_end(data, n) == n);
    assert(spec_parse_nodes(data, n) == Ok::<_, ParseError>((Seq::<SpecNode>::empty(), n)));
    assert(seq![SpecNode::Text { data }].add(Seq::empty()) =~= seq![SpecNode::Text { data }]);
    assert(spec_parse_nodes(data, 0) == Ok::<_, ParseError>((seq![SpecNode::Text { data }], n)));
}

/// A childless element without attributes re-parses from its serialization:
/// `<tag>` followed by `</tag>` parses back to exactly that element, so such
/// trees round-trip.
pub proof fn lemma_empty_element_round_trips(tag: Seq<char>)
    requires
        tag.len() > 0,
        forall|k: int| 0 <= k < tag.len() ==> is_name_char(#[trigger] tag[k]),
    ensures
        spec_parse_document(seq!['<'].add(tag).add(seq!['>', '<', '/']).add(tag).add(seq!['>']))
            == Ok::<SpecNode, ParseError>(
            SpecNode::Element { tag, attrs: Map::empty(), children: Seq::empty() },
        ),
{
    let ln = tag.len() as int;
    let s = seq!['<'].add(tag).add(seq!['>', '<', '/']).add(tag).add(seq!['>']);
    assert(s.len() == 2 * ln + 5);
    assert(s[0] == '<');
    assert forall|j: int| 1 <= j < 1 + ln implies s[j] == tag[j - 1] by {}
    assert(s[1 + ln] == '>');
    assert(s[2 + ln] == '<');
    assert(s[3 + ln] == '/');
    assert forall|j: int| 4 + ln <= j < 4 + 2 * ln implies s[j] == tag[j - 4 - ln] by {}
    assert(s[2 * ln + 4] == '>');
    // The opening tag name.
    assert forall|j: int| 1 <= j < 1 + ln implies name_pred()(s[j]) by {
        assert(is_name_char(tag[j - 1]));
    }
    assert(!(name_pred()(s[1 + ln])));
    lemma_run_end_exact(s, 1, ln, name_pred());
    assert(name_end(s, 1) == 1 + ln);
    assert(s.subrange(1, 1 + ln) =~= tag);
    // No attributes: the character after the name is already `>`.
    assert(!(space_pred()(s[1 + ln])));
    lemma_run_end_exact(s, 1 + ln, 0, space_pred());
    assert(ws_end(s, 1 + ln) == 1 + ln);
    assert(spec_parse_attributes(s, 1 + ln) == Ok::<_, ParseError>(
        (Seq::<(Seq<char>, Seq<char>)>::empty(), 1 + ln),
    ));
    // No children: the closing-tag marker follows the `>` at once.
    assert(!(space_pred()(s[2 + ln])));
    lemma_run_end_exact(s, 2 + ln, 0, space_pred());
    assert(ws_end(s, 2 + ln) == 2 + ln);
    assert(at_close_marker(s, 2 + ln));
    assert(spec_parse_nodes(s, 2 + ln) == Ok::<_, ParseError>(
        (Seq::<SpecNode>::empty(), 2 + ln),
    ));
    // The closing tag name matches the opening one.
    assert forall|j: int| 4 + ln <= j < 4 + 2 * ln implies name_pred()(s[j]) by {
        assert(is_name_char(tag[j - 4 - ln]));
    }
    assert(!(name_pred()(s[4 + 2 * ln])));
    lemma_run_end_exact(s, 4 + ln, ln, name_pred());
    assert(name_end(s, 4 + ln) == 4 + 2 * ln);
    assert(s.subrange(4 + ln, 4 + 2 * ln) =~= tag);
    let root = SpecNode::Element { tag, attrs: Map::empty(), children: Seq::empty() };
    assert(spec_parse_element(s, 0) == Ok::<_, ParseError>((root, 2 * ln + 5)));
    // The element is the whole document.
    assert(!(space_pred()(s[0])));
    lemma_run_end_exact(s, 0, 0, space_pred());
    assert(ws_end(s, 0) == 0);
    assert(!at_close_marker(s, 0));
    assert(spec_parse_node(s, 0) == Ok::<_, ParseError>((root, 2 * ln + 5)));
    lemma_run_end_exact(s, 2 * ln + 5, 0, space_pred());
    assert(ws_end(s, 2 * ln + 5) == 2 * ln + 5);
    assert(spec_parse_nodes(s, 2 * ln + 5) == Ok::<_, ParseError>(
        (Seq::<SpecNode>::empty(), 2 * ln + 5),
    ));
    assert(seq![root].add(Seq::empty()) =~= seq![root]);
    assert(spec_parse_nodes(s, 0) == Ok::<_, ParseError>((seq![root], 2 * ln + 5)));
}

/// No attribute name occurs twice in the pair sequence.
pub open spec fn distinct_names(ps: Seq<(Seq<char>, Seq<char>)>) -> bool {
    forall|i: int, j: int| 0 <= i < j < ps.len() ==> ps[i].0 != ps[j].0
}

/// On a duplicated attribute name, the last occurrence wins: the mapping
/// sends the name of any pair that no later pair shadows to that pair's
/// value.
pub proof fn lemma_attrs_map_last_occurrence_wins(ps: Seq<(Seq<char>, Seq<char>)>, i: int)
    requires
        0 <= i < ps.len(),
        forall|j: int| i < j < ps.len() ==> ps[j].0 != ps[i].0,
    ensures
        attrs_map(ps).contains_key(ps[i].0),
        attrs_map(ps)[ps[i].0] == ps[i].1,
{
    lemma_insert_all_last_occurrence(Map::empty(), ps, i);
}

proof fn lemma_insert_all_last_occurrence(
    m: Map<Seq<char>, Seq<char>>,
    ps: Seq<(Seq<char>, Seq<char>)>,
    i: int,
)
    requires
        0 <= i < ps.len(),
        forall|j: int| i < j < ps.len() ==> ps[j].0 != ps[i].0,
    ensures
        insert_all(m, ps).contains_key(ps[i].0),
        insert_all(m, ps)[ps[i].0] == ps[i].1,
    decreases ps.len(),
{
    if i < ps.len() - 1 {
        lemma_insert_all_last_occurrence(m, ps.drop_last(), i);
    }
}

/// With pairwise distinct names, the mapping holds a name/value entry
/// exactly when the pair occurs in the sequence.
pub proof fn lemma_attrs_map_distinct_contains(ps: Seq<(Seq<char>, Seq<char>)>)
    requires
        distinct_names(ps),
    ensures
        forall|n: Seq<char>, v: Seq<char>|
            #[trigger] ps.contains((n, v)) <==> (attrs_map(ps).contains_key(n) && attrs_map(ps)[n]
                == v),
    decreases ps.len(),
{
    if ps.len() > 0 {
        let q = ps.last();
        let rest = ps.drop_last();
        lemma_attrs_map_distinct_contains(rest);
        assert forall|n: Seq<char>, v: Seq<char>|
            attrs_map(ps).contains_key(n) && attrs_map(ps)[n] == v implies #[trigger] ps.contains(
            (n, v),
        ) by {
            if n == q.0 {
                assert(ps[ps.len() - 1] == (n, v));
            } else {
                assert(rest.contains((n, v)));
                let k = choose|k: int| 0 <= k < rest.len() && rest[k] == (n, v);
                assert(ps[k] == (n, v));
            }
        }
        assert forall|n: Seq<char>, v: Seq<char>| #[trigger]
            ps.contains((n, v)) implies attrs_map(ps).contains_key(n) && attrs_map(ps)[n] == v by {
            let k = choose|k: int| 0 <= k < ps.len() && ps[k] == (n, v);
            if k == ps.len() - 1 {
                assert(attrs_map(ps) == insert_all(Map::empty(), rest).insert(q.0, q.1));
            } else {
                assert(rest[k] == (n, v));
                assert(rest.contains((n, v)));
                assert(n != q.0);
            }
        }
    }
}

/// The order attributes were written in does not affect the mapping: two
/// pair sequences holding the same pairs (as a multiset), each without a
/// duplicated name, describe equal mappings.
pub proof fn lemma_attrs_map_order_irrelevant(
    ps1: Seq<(Seq<char>, Seq<char>)>,
    ps2: Seq<(Seq<char>, Seq<char>)>,
)
    requires
        ps1.to_multiset() == ps2.to_multiset(),
        distinct_names(ps1),
        distinct_names(ps2),
    ensures
        attrs_map(ps1) == attrs_map(ps2),
{
    broadcast use vstd::seq_lib::group_to_multiset_ensures;

    lemma_attrs_map_distinct_contains(ps1);
    lemma_attrs_map_distinct_contains(ps2);
    let m1 = attrs_map(ps1);
    let m2 = attrs_map(ps2);
    assert_maps_equal!(m1, m2, n => {
        if m1.contains_key(n) {
            let v = m1[n];
            assert(ps1.contains((n, v)));
            assert(ps1.to_multiset().count((n, v)) > 0);
            assert(ps2.to_multiset().count((n, v)) > 0);
            assert(ps2.contains((n, v)));
        }
        if m2.contains_key(n) {
            let v = m2[n];
            assert(ps2.contains((n, v)));
            assert(ps2.to_multiset().count((n, v)) > 0);
            assert(ps1.to_multiset().count((n, v)) > 0);
            assert(ps1.contains((n, v)));
        }
    });
}

} // verus!
