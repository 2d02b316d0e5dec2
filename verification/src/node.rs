//! The value model: typed nodes of the document object graph, and
//! their mathematical form.

use vstd::prelude::*;

verus! {

/// Identity of an indirect reference: an object identifier and a
/// generation number.  Two references denote the same target exactly
/// when both fields are equal.
#[derive(Clone, Copy, PartialEq, Eq, Structural, Debug)]
pub struct RefId {
    pub id: u64,
    pub gen: u64,
}

/// One typed value in the document's object graph.
///
/// Scalars (`Null`, `Int`, `Real`, `Bool`, `Text`, `Name`) are leaves.
/// `Array` and `Dictionary` contain children directly; a `Stream`
/// carries a metadata dictionary that is searched like any other
/// dictionary, plus an opaque binary payload that is not searched.
/// `Reference` points at another object indirectly and is resolved
/// through an external lookup.  The numeric value of a `Real` plays no
/// role in the search, so it is not carried here.
#[derive(PartialEq, Debug)]
pub enum Node {
    Null,
    Int(i64),
    Real,
    Bool(bool),
    Text(String),
    Name(String),
    Array(Vec<Node>),
    Dictionary(Dict),
    Stream(StreamNode),
    Reference(RefId),
}

/// An ordered mapping from string keys to nodes.  Keys are unique
/// within a well-formed dictionary and insertion order is preserved.
#[derive(PartialEq, Debug)]
pub struct Dict {
    pub entries: Vec<(String, Node)>,
}

/// A stream: a metadata dictionary plus an opaque binary payload.
#[derive(PartialEq, Debug)]
pub struct StreamNode {
    pub info: Dict,
    pub data: Vec<u8>,
}

/// The mathematical form of a node: the same shape as `Node`, with
/// sequences for children and text, and unbounded integers.
pub enum SpecNode {
    Null,
    Int(int),
    Real,
    Bool(bool),
    Text(Seq<char>),
    Name(Seq<char>),
    Array(Seq<SpecNode>),
    Dictionary(Seq<(Seq<char>, SpecNode)>),
    Stream(Seq<(Seq<char>, SpecNode)>, Seq<u8>),
    Reference(RefId),
}

/// The mathematical form of a sequence of array elements.
pub open spec fn items_view(items: Seq<Node>) -> Seq<SpecNode>
    decreases items,
{
    Seq::new(
        items.len(),
        |i: int|
            if 0 <= i < items.len() {
                node_view(items[i])
            } else {
                SpecNode::Null
            },
    )
}

/// The mathematical form of a sequence of dictionary entries.
pub open spec fn entries_view(entries: Seq<(String, Node)>) -> Seq<(Seq<char>, SpecNode)>
    decreases entries,
{
    Seq::new(
        entries.len(),
        |i: int|
            if 0 <= i < entries.len() {
                (entries[i].0@, node_view(entries[i].1))
            } else {
                (Seq::<char>::empty(), SpecNode::Null)
            },
    )
}

/// The mathematical form of a node.
pub open spec fn node_view(n: Node) -> SpecNode
    decreases n,
{
    match n {
        Node::Null => SpecNode::Null,
        Node::Int(x) => SpecNode::Int(x as int),
        Node::Real => SpecNode::Real,
        Node::Bool(b) => SpecNode::Bool(b),
        Node::Text(s) => SpecNode::Text(s@),
        Node::Name(s) => SpecNode::Name(s@),
        Node::Array(items) => SpecNode::Array(items_view(items@)),
        Node::Dictionary(d) => SpecNode::Dictionary(entries_view(d.entries@)),
        Node::Stream(s) => SpecNode::Stream(entries_view(s.info.entries@), s.data@),
        Node::Reference(r) => SpecNode::Reference(r),
    }
}

/// The mathematical form of a dictionary.
pub open spec fn dict_view(d: Dict) -> Seq<(Seq<char>, SpecNode)> {
    entries_view(d.entries@)
}

/// Two element sequences whose members agree in mathematical form
/// have the same mathematical form.
pub proof fn lemma_items_view_congruent(s1: Seq<Node>, s2: Seq<Node>)
    requires
        s1.len() == s2.len(),
        forall|i: int| 0 <= i < s1.len() ==> node_view(#[trigger] s1[i]) == node_view(s2[i]),
    ensures
        items_view(s1) == items_view(s2),
{
    assert(items_view(s1) =~= items_view(s2));
}

/// Two entry sequences whose keys and values agree in mathematical
/// form have the same mathematical form.
pub proof fn lemma_entries_view_congruent(s1: Seq<(String, Node)>, s2: Seq<(String, Node)>)
    requires
        s1.len() == s2.len(),
        forall|i: int| 0 <= i < s1.len() ==> (#[trigger] s1[i]).0@ == s2[i].0@,
        forall|i: int| 0 <= i < s1.len() ==> node_view((#[trigger] s1[i]).1) == node_view(s2[i].1),
    ensures
        entries_view(s1) == entries_view(s2),
{
    assert(entries_view(s1) =~= entries_view(s2));
}

/// No entry at or after position `i` carries `key`.
pub open spec fn key_absent_from(
    entries: Seq<(Seq<char>, SpecNode)>,
    i: int,
    key: Seq<char>,
) -> bool
    decreases entries.len() - i,
{
    if i < 0 || i >= entries.len() {
        true
    } else {
        entries[i].0 != key && key_absent_from(entries, i + 1, key)
    }
}

/// The keys of the entries from position `i` on are pairwise
/// distinct.
pub open spec fn keys_distinct_from(entries: Seq<(Seq<char>, SpecNode)>, i: int) -> bool
    decreases entries.len() - i,
{
    if i < 0 || i >= entries.len() {
        true
    } else {
        key_absent_from(entries, i + 1, entries[i].0) && keys_distinct_from(entries, i + 1)
    }
}

/// The keys of an entry sequence are pairwise distinct.
pub open spec fn keys_distinct(entries: Seq<(Seq<char>, SpecNode)>) -> bool {
    keys_distinct_from(entries, 0)
}

/// Every array element from position `i` on is well-formed.
pub open spec fn items_wf(items: Seq<SpecNode>, i: int) -> bool
    decreases items, items.len() - i,
{
    if i < 0 || i >= items.len() {
        true
    } else {
        node_wf(items[i]) && items_wf(items, i + 1)
    }
}

/// Every entry value from position `i` on is well-formed.
pub open spec fn entry_vals_wf(entries: Seq<(Seq<char>, SpecNode)>, i: int) -> bool
    decreases entries, entries.len() - i,
{
    if i < 0 || i >= entries.len() {
        true
    } else {
        node_wf(entries[i].1) && entry_vals_wf(entries, i + 1)
    }
}

/// Well-formedness of an entry sequence: distinct keys, and every
/// entry value well-formed.
pub open spec fn entries_wf(entries: Seq<(Seq<char>, SpecNode)>) -> bool
    decreases entries, entries.len() + 1,
{
    &&& keys_distinct(entries)
    &&& entry_vals_wf(entries, 0)
}

/// Well-formedness of a node: every dictionary reachable by direct
/// containment (array elements, dictionary entries, stream metadata)
/// has pairwise-distinct keys.
pub open spec fn node_wf(n: SpecNode) -> bool
    decreases n, 0int,
{
    match n {
        SpecNode::Array(items) => items_wf(items, 0),
        SpecNode::Dictionary(entries) => entries_wf(entries),
        SpecNode::Stream(entries, _) => entries_wf(entries),
        _ => true,
    }
}

/// A key absent from position `i` on is carried by no entry there.
pub proof fn lemma_key_absent(
    entries: Seq<(Seq<char>, SpecNode)>,
    i: int,
    j: int,
    key: Seq<char>,
)
    requires
        key_absent_from(entries, i, key),
        0 <= i <= j < entries.len(),
    ensures
        entries[j].0 != key,
    decreases j - i,
{
    if i < j {
        lemma_key_absent(entries, i + 1, j, key);
    }
}

/// Every single array element of a well-formed tail is well-formed.
pub proof fn lemma_items_wf_child(items: Seq<SpecNode>, i: int, j: int)
    requires
        items_wf(items, i),
        0 <= i <= j < items.len(),
    ensures
        node_wf(items[j]),
    decreases j - i,
{
    if i < j {
        lemma_items_wf_child(items, i + 1, j);
    }
}

/// Every single entry value of a well-formed tail is well-formed.
pub proof fn lemma_entry_vals_wf_child(entries: Seq<(Seq<char>, SpecNode)>, i: int, j: int)
    requires
        entry_vals_wf(entries, i),
        0 <= i <= j < entries.len(),
    ensures
        node_wf(entries[j].1),
    decreases j - i,
{
    if i < j {
        lemma_entry_vals_wf_child(entries, i + 1, j);
    }
}

/// Copies a byte payload.
fn clone_bytes(data: &Vec<u8>) -> (r: Vec<u8>)
    ensures
        r@ == data@,
{
    let mut r: Vec<u8> = Vec::new();
    let mut i: usize = 0;
    while i < data.len()
        invariant
            0 <= i <= data.len(),
            r@ =~= data@.subrange(0, i as int),
        decreases data.len() - i,
    {
        r.push(data[i]);
        i = i + 1;
    }
    assert(r@ =~= data@);
    r
}

/// Copies a node, children and all: the copy has the same
/// mathematical form as the original.
#[verifier::loop_isolation(false)]
pub fn clone_node(n: &Node) -> (r: Node)
    ensures
        node_view(r) == node_view(*n),
    decreases *n,
{
    match n {
        Node::Null => Node::Null,
        Node::Int(x) => Node::Int(*x),
        Node::Real => Node::Real,
        Node::Bool(b) => Node::Bool(*b),
        Node::Text(s) => Node::Text(s.clone()),
        Node::Name(s) => Node::Name(s.clone()),
        Node::Array(items) => {
            let mut v: Vec<Node> = Vec::new();
            let mut i: usize = 0;
            while i < items.len()
                invariant
                    0 <= i <= items.len(),
                    v@.len() == i,
                    forall|k: int|
                        0 <= k < i ==> node_view(#[trigger] v@[k]) == node_view(items@[k]),
                decreases items.len() - i,
            {
                v.push(clone_node(&items[i]));
                i = i + 1;
            }
            proof {
                lemma_items_view_congruent(v@, items@);
            }
            Node::Array(v)
        },
        Node::Dictionary(d) => Node::Dictionary(clone_dict(d)),
        Node::Stream(s) => {
            let r = Node::Stream(
                StreamNode { info: clone_dict(&s.info), data: clone_bytes(&s.data) },
            );
            r
        },
        Node::Reference(r) => Node::Reference(*r),
    }
}

/// Copies a dictionary, entries and all: the copy has the same
/// mathematical form as the original.
#[verifier::loop_isolation(false)]
pub fn clone_dict(d: &Dict) -> (r: Dict)
    ensures
        dict_view(r) == dict_view(*d),
    decreases *d,
{
    let mut v: Vec<(String, Node)> = Vec::new();
    let mut i: usize = 0;
    while i < d.entries.len()
        invariant
            0 <= i <= d.entries.len(),
            v@.len() == i,
            forall|k: int| 0 <= k < i ==> (#[trigger] v@[k]).0@ == d.entries@[k].0@,
            forall|k: int|
                0 <= k < i ==> node_view((#[trigger] v@[k]).1) == node_view(d.entries@[k].1),
        decreases d.entries.len() - i,
    {
        let key = d.entries[i].0.clone();
        let val = clone_node(&d.entries[i].1);
        v.push((key, val));
        i = i + 1;
    }
    proof {
        lemma_entries_view_congruent(v@, d.entries@);
    }
    Dict { entries: v }
}

} // verus!

