//! The document tree model: nodes are either text runs or elements with a tag
//! name, an attribute mapping and an ordered sequence of children.

use vstd::prelude::*;
use vstd::string::StrSliceExecFns;

verus! {

/// Mathematical model of one document-tree node: either a run of text, or an
/// element carrying a tag name, an attribute mapping and its children in
/// document order.
#[verifier::ext_equal]
pub ghost enum SpecNode {
    Text { data: Seq<char> },
    Element { tag: Seq<char>, attrs: Map<Seq<char>, Seq<char>>, children: Seq<SpecNode> },
}

/// One document-tree node.  `node_type` decides the variant; `children` is
/// meaningful for elements and empty for every node a parse produces in the
/// text case.
#[derive(Debug)]
pub struct Node {
    pub children: Vec<Node>,
    pub node_type: NodeType,
}

/// The variant payload of a [`Node`]: raw character data, or element data.
#[derive(Debug)]
pub enum NodeType {
    Text(String),
    Element(ElementData),
}

/// The payload of an element node: its tag name and its attribute mapping.
#[derive(Debug)]
pub struct ElementData {
    pub tag_name: String,
    pub attributes: AttrMap,
}

/// An attribute mapping with unique keys; inserting an existing key replaces
/// its value.  Viewed as a `Map<Seq<char>, Seq<char>>`, so equality of views
/// ignores insertion order.
#[derive(Debug)]
pub struct AttrMap {
    pairs: Vec<(String, String)>,
}

/// The map described by a sequence of key/value pairs when they are inserted
/// left to right: a later pair with the same key wins.
pub closed spec fn pairs_map(ps: Seq<(String, String)>) -> Map<Seq<char>, Seq<char>>
    decreases ps.len(),
{
    if ps.len() == 0 {
        Map::empty()
    } else {
        pairs_map(ps.drop_last()).insert(ps.last().0@, ps.last().1@)
    }
}

impl View for AttrMap {
    type V = Map<Seq<char>, Seq<char>>;

    closed spec fn view(&self) -> Map<Seq<char>, Seq<char>> {
        pairs_map(self.pairs@)
    }
}

impl AttrMap {
    /// Well-formedness: the keys stored inside are pairwise distinct, so the
    /// number of entries equals the size of the map's domain.  Constructors
    /// establish it and `insert` preserves it.
    pub closed spec fn wf(&self) -> bool {
        forall|i: int, j: int|
            0 <= i < j < self.pairs@.len() ==> self.pairs@[i].0@ != self.pairs@[j].0@
    }

    /// An empty attribute mapping.
    pub fn new() -> (m: AttrMap)
        ensures
            m@ == Map::<Seq<char>, Seq<char>>::empty(),
            m.wf(),
    {
        AttrMap { pairs: Vec::new() }
    }

    /// Insert one attribute; an existing attribute of the same name is
    /// replaced, so the last insertion wins.
    pub fn insert(&mut self, name: String, value: String)
        requires
            old(self).wf(),
        ensures
            final(self)@ == old(self)@.insert(name@, value@),
            final(self).wf(),
    {
        let n = self.pairs.len();
        let mut i: usize = 0;
        while i < n
            invariant
                0 <= i <= n,
                n == self.pairs@.len(),
                self.wf(),
                self.pairs == old(self).pairs,
                forall|k: int| 0 <= k < i ==> self.pairs@[k].0@ != name@,
            decreases n - i,
        {
            if str_eq(self.pairs[i].0.as_str(), name.as_str()) {
                proof {
                    lemma_pairs_map_set(self.pairs@, i as int, name, value);
                }
                self.pairs[i] = (name, value);
                return ;
            }
            i += 1;
        }
        proof {
            assert(self.pairs@.push((name, value)).drop_last() =~= self.pairs@);
        }
        self.pairs.push((name, value));
    }

    /// Look up the value stored under `name`, if any.
    pub fn get(&self, name: &str) -> (r: Option<&String>)
        ensures
            match r {
                Some(v) => self@.contains_key(name@) && self@[name@] == v@,
                None => !self@.contains_key(name@),
            },
    {
        let n = self.pairs.len();
        let mut i: usize = n;
        while i > 0
            invariant
                0 <= i <= n,
                n == self.pairs@.len(),
                forall|k: int| i <= k < n ==> self.pairs@[k].0@ != name@,
            decreases i,
        {
            i -= 1;
            if str_eq(self.pairs[i].0.as_str(), name) {
                proof {
                    lemma_pairs_map_found(self.pairs@, i as int);
                }
                return Some(&self.pairs[i].1);
            }
        }
        proof {
            lemma_pairs_map_absent(self.pairs@, name@);
        }
        None
    }

    /// The attributes as name/value pairs, one per entry of the mapping.
    pub fn entries(&self) -> (r: Vec<(String, String)>)
        requires
            self.wf(),
        ensures
            r@.len() == self@.dom().len(),
            forall|k: int|
                0 <= k < r@.len() ==> self@.contains_key(#[trigger] r@[k].0@) && self@[r@[k].0@]
                    == r@[k].1@,
            forall|k: int, l: int| 0 <= k < l < r@.len() ==> r@[k].0@ != r@[l].0@,
    {
        proof {
            lemma_pairs_map_len(self.pairs@);
        }
        let n = self.pairs.len();
        let mut out: Vec<(String, String)> = Vec::new();
        let mut i: usize = 0;
        while i < n
            invariant
                0 <= i <= n,
                n == self.pairs@.len(),
                self.wf(),
                out@.len() == i,
                forall|k: int|
                    0 <= k < i ==> (#[trigger] out@[k]).0@ == self.pairs@[k].0@ && out@[k].1@
                        == self.pairs@[k].1@,
            decreases n - i,
        {
            out.push((self.pairs[i].0.clone(), self.pairs[i].1.clone()));
            i += 1;
        }
        proof {
            assert forall|k: int| 0 <= k < out@.len() implies self@.contains_key(
                #[trigger] out@[k].0@,
            ) && self@[out@[k].0@] == out@[k].1@ by {
                lemma_pairs_map_found(self.pairs@, k);
            }
        }
        out
    }

    /// The number of attributes stored.
    pub fn len(&self) -> (n: usize)
        requires
            self.wf(),
        ensures
            n == self@.dom().len(),
    {
        proof {
            lemma_pairs_map_len(self.pairs@);
        }
        self.pairs.len()
    }
}

/// Compare two string slices character by character.
pub fn str_eq(a: &str, b: &str) -> (r: bool)
    ensures
        r == (a@ == b@),
{
    let an = a.unicode_len();
    let bn = b.unicode_len();
    if an != bn {
        return false;
    }
    let mut i: usize = 0;
    while i < an
        invariant
            0 <= i <= an,
            an == a@.len(),
            an == b@.len(),
            forall|k: int| 0 <= k < i ==> a@[k] == b@[k],
        decreases an - i,
    {
        if a.get_char(i) != b.get_char(i) {
            return false;
        }
        i += 1;
    }
    proof {
        assert(a@ =~= b@);
    }
    true
}

/// Replacing the pair at index `i` (whose key views as `name@`) keeps the
/// described map, provided no other index holds the same key.
proof fn lemma_pairs_map_set(ps: Seq<(String, String)>, i: int, name: String, value: String)
    requires
        0 <= i < ps.len(),
        ps[i].0@ == name@,
        forall|k: int, l: int| 0 <= k < l < ps.len() ==> ps[k].0@ != ps[l].0@,
    ensures
        pairs_map(ps.update(i, (name, value))) == pairs_map(ps).insert(name@, value@),
    decreases ps.len(),
{
    let updated = ps.update(i, (name, value));
    if i == ps.len() - 1 {
        assert(updated.drop_last() =~= ps.drop_last());
        assert(pairs_map(ps).insert(name@, value@) =~= pairs_map(
            ps.drop_last(),
        ).insert(name@, value@));
    } else {
        assert(updated.drop_last() =~= ps.drop_last().update(i, (name, value)));
        lemma_pairs_map_set(ps.drop_last(), i, name, value);
        assert(ps.last().0@ != name@);
        assert(pairs_map(updated) =~= pairs_map(ps).insert(name@, value@));
    }
}

/// If the key at index `i` occurs at no later index, the described map sends
/// that key to the value at index `i`.
proof fn lemma_pairs_map_found(ps: Seq<(String, String)>, i: int)
    requires
        0 <= i < ps.len(),
        forall|k: int| i < k < ps.len() ==> ps[k].0@ != ps[i].0@,
    ensures
        pairs_map(ps).contains_key(ps[i].0@),
        pairs_map(ps)[ps[i].0@] == ps[i].1@,
    decreases ps.len(),
{
    if i < ps.len() - 1 {
        lemma_pairs_map_found(ps.drop_last(), i);
    }
}

/// A key that views as `name` and occurs in no pair is not in the described
/// map.
proof fn lemma_pairs_map_absent(ps: Seq<(String, String)>, name: Seq<char>)
    requires
        forall|k: int| 0 <= k < ps.len() ==> ps[k].0@ != name,
    ensures
        !pairs_map(ps).contains_key(name),
    decreases ps.len(),
{
    if ps.len() > 0 {
        lemma_pairs_map_absent(ps.drop_last(), name);
    }
}

/// With pairwise distinct keys, the described map has one entry per pair.
proof fn lemma_pairs_map_len(ps: Seq<(String, String)>)
    requires
        forall|k: int, l: int| 0 <= k < l < ps.len() ==> ps[k].0@ != ps[l].0@,
    ensures
        pairs_map(ps).dom().finite(),
        pairs_map(ps).dom().len() == ps.len(),
    decreases ps.len(),
{
    if ps.len() > 0 {
        lemma_pairs_map_len(ps.drop_last());
        lemma_pairs_map_absent(ps.drop_last(), ps.last().0@);
    }
}

/// The tree a [`Node`] stands for.
pub open spec fn node_view(n: Node) -> SpecNode
    decreases n,
{
    match n.node_type {
        NodeType::Text(s) => SpecNode::Text { data: s@ },
        NodeType::Element(ed) => SpecNode::Element {
            tag: ed.tag_name@,
            attrs: ed.attributes@,
            children: nodes_view(n.children@),
        },
    }
}

/// The trees a sequence of nodes stands for, in order.
pub open spec fn nodes_view(s: Seq<Node>) -> Seq<SpecNode>
    decreases s,
{
    Seq::new(
        s.len(),
        |i: int|
            if 0 <= i < s.len() {
                node_view(s[i])
            } else {
                SpecNode::Text { data: Seq::empty() }
            },
    )
}

impl View for Node {
    type V = SpecNode;

    open spec fn view(&self) -> SpecNode {
        node_view(*self)
    }
}

/// Build a text node; it has no children.
pub fn text(data: String) -> (n: Node)
    ensures
        n@ == (SpecNode::Text { data: data@ }),
        n.children@.len() == 0,
{
    Node { children: Vec::new(), node_type: NodeType::Text(data) }
}

/// Build an element node wrapping the given tag name, attribute mapping and
/// children verbatim.
pub fn elem(name: String, attrs: AttrMap, children: Vec<Node>) -> (n: Node)
    ensures
        n@ == (SpecNode::Element {
            tag: name@,
            attrs: attrs@,
            children: nodes_view(children@),
        }),
        n.children@ == children@,
{
    Node {
        children,
        node_type: NodeType::Element(ElementData { tag_name: name, attributes: attrs }),
    }
}

} // verus!
