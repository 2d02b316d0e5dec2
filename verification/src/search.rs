//! The search engine: every path from a root dictionary to an entry
//! whose key equals the target, in discovery order.

use vstd::prelude::*;

use crate::node::dict_view;
use crate::node::entries_view;
use crate::node::items_view;
use crate::node::node_view;
use crate::node::Dict;
use crate::node::Node;
use crate::node::RefId;
use crate::node::SpecNode;
use crate::path::clone_path;
use crate::path::path_view;
use crate::path::paths_view;
use crate::path::PathElem;
use crate::path::SearchPath;
use crate::path::SpecElem;
use crate::resolver::Resolver;

verus! {

broadcast use
    vstd::prelude::Set::lemma_set_insert_diff_decreases,
    crate::path::lemma_path_view_push,
    crate::path::lemma_paths_view_push,
    crate::path::lemma_paths_view_add,
;

/// The paths found below node `n`, with `prefix` the path that led to
/// `n` and `visited` the references already followed on the way.
/// Scalars yield nothing; arrays and dictionaries are searched child
/// by child; a stream is searched through its metadata dictionary; a
/// reference is followed unless it was already followed on this
/// descent (a cycle) or fails to resolve, either of which ends the
/// branch silently.
pub open spec fn search_node(
    m: Map<RefId, SpecNode>,
    visited: Set<RefId>,
    n: SpecNode,
    prefix: Seq<SpecElem>,
    key: Seq<char>,
) -> Seq<Seq<SpecElem>>
    decreases m.dom().difference(visited).len(), n, 0int,
        when m.dom().finite()
{
    match n {
        SpecNode::Array(items) => search_items(m, visited, items, 0, prefix, key),
        SpecNode::Dictionary(entries) => search_entries(m, visited, entries, 0, prefix, key),
        SpecNode::Stream(entries, _) => search_entries(m, visited, entries, 0, prefix, key),
        SpecNode::Reference(r) => if visited.contains(r) || !m.dom().contains(r) {
            Seq::empty()
        } else {
            search_node(m, visited.insert(r), m[r], prefix, key)
        },
        _ => Seq::empty(),
    }
}

/// The paths found in the array elements from position `i` on.
pub open spec fn search_items(
    m: Map<RefId, SpecNode>,
    visited: Set<RefId>,
    items: Seq<SpecNode>,
    i: int,
    prefix: Seq<SpecElem>,
    key: Seq<char>,
) -> Seq<Seq<SpecElem>>
    decreases m.dom().difference(visited).len(), items, items.len() - i,
        when m.dom().finite()
{
    if i < 0 || i >= items.len() {
        Seq::empty()
    } else {
        search_node(m, visited, items[i], prefix.push(SpecElem::ArrayElem { index: i }), key)
            + search_items(m, visited, items, i + 1, prefix, key)
    }
}

/// The paths found in the dictionary entries from position `i` on:
/// for each entry in order, first the entry itself if its key matches,
/// then whatever is found below its value.  A matching entry is still
/// descended into, so matches below a match are also reported.
pub open spec fn search_entries(
    m: Map<RefId, SpecNode>,
    visited: Set<RefId>,
    entries: Seq<(Seq<char>, SpecNode)>,
    i: int,
    prefix: Seq<SpecElem>,
    key: Seq<char>,
) -> Seq<Seq<SpecElem>>
    decreases m.dom().difference(visited).len(), entries, entries.len() - i,
        when m.dom().finite()
{
    if i < 0 || i >= entries.len() {
        Seq::empty()
    } else {
        let hits = if entries[i].0 == key {
            seq![prefix.push(SpecElem::DictElem { key })]
        } else {
            Seq::<Seq<SpecElem>>::empty()
        };
        hits + search_node(
            m,
            visited,
            entries[i].1,
            prefix.push(SpecElem::DictElem { key: entries[i].0 }),
            key,
        ) + search_entries(m, visited, entries, i + 1, prefix, key)
    }
}

/// The whole search: every path from the root dictionary to an entry
/// whose key equals `key`, in pre-order, depth-first,
/// insertion-order discovery order.  An empty key matches nothing.
pub open spec fn spec_search(
    m: Map<RefId, SpecNode>,
    root: Seq<(Seq<char>, SpecNode)>,
    key: Seq<char>,
) -> Seq<Seq<SpecElem>> {
    if key.len() == 0 {
        Seq::empty()
    } else {
        search_entries(m, Set::empty(), root, 0, Seq::empty(), key)
    }
}

/// The paths found from an arbitrary root node: as `spec_search`,
/// but the search may start at any node, not only a dictionary.
pub open spec fn spec_search_from(m: Map<RefId, SpecNode>, n: SpecNode, key: Seq<char>) -> Seq<
    Seq<SpecElem>,
> {
    if key.len() == 0 {
        Seq::empty()
    } else {
        search_node(m, Set::empty(), n, Seq::empty(), key)
    }
}

/// The two entry points agree: searching from a dictionary node
/// reports exactly what searching that dictionary as the root does.
pub proof fn lemma_search_from_dictionary(
    m: Map<RefId, SpecNode>,
    root: Seq<(Seq<char>, SpecNode)>,
    key: Seq<char>,
)
    requires
        m.dom().finite(),
    ensures
        spec_search_from(m, SpecNode::Dictionary(root), key) == spec_search(m, root, key),
{
}

/// Determinism: two result lists that both satisfy the contract of
/// `search` for the same root, resolution map and key are the same
/// paths in the same order.  The contract pins the result to
/// `spec_search`, a function of those three inputs alone, so repeated
/// calls with identical inputs cannot differ.
pub proof fn lemma_search_deterministic(
    m: Map<RefId, SpecNode>,
    root: Seq<(Seq<char>, SpecNode)>,
    key: Seq<char>,
    out1: Seq<SearchPath>,
    out2: Seq<SearchPath>,
)
    requires
        paths_view(out1) == spec_search(m, root, key),
        paths_view(out2) == spec_search(m, root, key),
    ensures
        paths_view(out1) == paths_view(out2),
{
}

/// Whether `r` is among the references already followed.
fn contains_ref(visited: &Vec<RefId>, r: RefId) -> (b: bool)
    ensures
        b == visited@.to_set().contains(r),
{
    let mut i: usize = 0;
    while i < visited.len()
        invariant
            0 <= i <= visited.len(),
            forall|k: int| 0 <= k < i ==> (#[trigger] visited@[k]) != r,
        decreases visited.len() - i,
    {
        if visited[i].id == r.id && visited[i].gen == r.gen {
            assert(visited@[i as int] == r);
            return true;
        }
        i = i + 1;
    }
    assert(!visited@.contains(r));
    false
}

/// Searches below one node.  `visited` is the backtracking record of
/// the references followed on the current descent: it is pushed when
/// a reference is followed and popped on return, and comes back
/// exactly as it went in.
fn search_in_node<R: Resolver>(
    resolve: &R,
    n: &Node,
    visited: &mut Vec<RefId>,
    prefix: &SearchPath,
    key: &String,
) -> (out: Vec<SearchPath>)
    requires
        old(visited)@.to_set().subset_of(resolve.model().dom()),
    ensures
        final(visited)@ == old(visited)@,
        paths_view(out@) == search_node(
            resolve.model(),
            old(visited)@.to_set(),
            node_view(*n),
            path_view(prefix@),
            key@,
        ),
    decreases
            resolve.model().dom().difference(old(visited)@.to_set()).len(),
            *n,
            0int,
{
    proof {
        resolve.model_finite();
    }
    match n {
        Node::Array(items) => search_in_items(resolve, items, 0, visited, prefix, key),
        Node::Dictionary(d) => search_in_entries(resolve, &d.entries, 0, visited, prefix, key),
        Node::Stream(s) => search_in_entries(resolve, &s.info.entries, 0, visited, prefix, key),
        Node::Reference(r) => {
            if contains_ref(visited, *r) {
                Vec::new()
            } else {
                match resolve.resolve(*r) {
                    Ok(target) => {
                        let ghost entry_seq = visited@;
                        let ghost entry_set = visited@.to_set();
                        visited.push(*r);
                        proof {
                            let pushed = visited@;
                            assert forall|x: RefId| pushed.contains(x) implies entry_set.insert(
                                *r,
                            ).contains(x) by {
                                let idx = choose|idx: int|
                                    0 <= idx < pushed.len() && pushed[idx] == x;
                                if idx < pushed.len() - 1 {
                                    assert(entry_seq[idx] == x);
                                    assert(entry_seq.contains(x));
                                }
                            };
                            assert forall|x: RefId| entry_set.insert(*r).contains(x) implies pushed
                                .contains(x) by {
                                if x == *r {
                                    assert(pushed[pushed.len() - 1] == x);
                                } else {
                                    let idx = choose|idx: int|
                                        0 <= idx < entry_seq.len() && entry_seq[idx] == x;
                                    assert(pushed[idx] == x);
                                }
                            };
                            assert(visited@.to_set() =~= entry_set.insert(*r));
                        }
                        let out = search_in_node(resolve, &target, visited, prefix, key);
                        let _ = visited.pop();
                        proof {
                            assert(visited@ =~= old(visited)@);
                        }
                        out
                    },
                    Err(_) => Vec::new(),
                }
            }
        },
        _ => Vec::new(),
    }
}

/// Searches the array elements from position `i` on.
fn search_in_items<R: Resolver>(
    resolve: &R,
    items: &Vec<Node>,
    i: usize,
    visited: &mut Vec<RefId>,
    prefix: &SearchPath,
    key: &String,
) -> (out: Vec<SearchPath>)
    requires
        old(visited)@.to_set().subset_of(resolve.model().dom()),
    ensures
        final(visited)@ == old(visited)@,
        paths_view(out@) == search_items(
            resolve.model(),
            old(visited)@.to_set(),
            items_view(items@),
            i as int,
            path_view(prefix@),
            key@,
        ),
    decreases
            resolve.model().dom().difference(old(visited)@.to_set()).len(),
            *items,
            items@.len() - i as int,
{
    proof {
        resolve.model_finite();
    }
    let mut out: Vec<SearchPath> = Vec::new();
    if i < items.len() {
        let mut step = clone_path(prefix);
        step.push(PathElem::ArrayElem { index: i });
        let mut below = search_in_node(resolve, &items[i], visited, &step, key);
        let mut rest = search_in_items(resolve, items, i + 1, visited, prefix, key);
        out.append(&mut below);
        out.append(&mut rest);
    }
    out
}

/// Searches the dictionary entries from position `i` on.
fn search_in_entries<R: Resolver>(
    resolve: &R,
    entries: &Vec<(String, Node)>,
    i: usize,
    visited: &mut Vec<RefId>,
    prefix: &SearchPath,
    key: &String,
) -> (out: Vec<SearchPath>)
    requires
        old(visited)@.to_set().subset_of(resolve.model().dom()),
    ensures
        final(visited)@ == old(visited)@,
        paths_view(out@) == search_entries(
            resolve.model(),
            old(visited)@.to_set(),
            entries_view(entries@),
            i as int,
            path_view(prefix@),
            key@,
        ),
    decreases
            resolve.model().dom().difference(old(visited)@.to_set()).len(),
            *entries,
            entries@.len() - i as int,
{
    proof {
        resolve.model_finite();
    }
    let mut out: Vec<SearchPath> = Vec::new();
    if i < entries.len() {
        if entries[i].0 == *key {
            let mut hit = clone_path(prefix);
            hit.push(PathElem::DictElem { key: entries[i].0.clone() });
            out.push(hit);
        }
        let mut step = clone_path(prefix);
        step.push(PathElem::DictElem { key: entries[i].0.clone() });
        let mut below = search_in_node(resolve, &entries[i].1, visited, &step, key);
        let mut rest = search_in_entries(resolve, entries, i + 1, visited, prefix, key);
        out.append(&mut below);
        out.append(&mut rest);
    }
    out
}

/// The full search: every path from `root` to a dictionary entry
/// whose key equals `key`, in pre-order, depth-first,
/// insertion-order discovery order.  References are followed through
/// `resolve`; a reference that fails to resolve, or that closes a
/// cycle on the current descent, silently ends only its own branch.
/// An empty key yields no matches.  The result is a function of the
/// root, the resolution map and the key alone, so repeated calls on
/// the same inputs return the same paths in the same order.
pub fn search<R: Resolver>(root: &Dict, resolve: &R, key: &str) -> (out: Vec<SearchPath>)
    ensures
        paths_view(out@) == spec_search(resolve.model(), dict_view(*root), key@),
{
    if key.is_empty() {
        let out: Vec<SearchPath> = Vec::new();
        assert(paths_view(out@) =~= spec_search(resolve.model(), dict_view(*root), key@));
        return out;
    }
    let key_string: String = key.to_owned();
    let mut visited: Vec<RefId> = Vec::new();
    let prefix: SearchPath = Vec::new();
    proof {
        assert(visited@.to_set() =~= Set::<RefId>::empty());
        assert(path_view(prefix@) =~= Seq::<SpecElem>::empty());
    }
    search_in_entries(resolve, &root.entries, 0, &mut visited, &prefix, &key_string)
}

/// As `search`, but starting from an arbitrary node: the search
/// descends into it exactly as it would into a value met during a
/// search, so a scalar root yields nothing and a reference root is
/// resolved first.  An empty key yields no matches.
pub fn search_key<R: Resolver>(node: &Node, resolve: &R, key: &str) -> (out: Vec<SearchPath>)
    ensures
        paths_view(out@) == spec_search_from(resolve.model(), node_view(*node), key@),
{
    if key.is_empty() {
        let out: Vec<SearchPath> = Vec::new();
        assert(paths_view(out@) =~= spec_search_from(resolve.model(), node_view(*node), key@));
        return out;
    }
    let key_string: String = key.to_owned();
    let mut visited: Vec<RefId> = Vec::new();
    let prefix: SearchPath = Vec::new();
    proof {
        assert(visited@.to_set() =~= Set::<RefId>::empty());
        assert(path_view(prefix@) =~= Seq::<SpecElem>::empty());
    }
    search_in_node(resolve, node, &mut visited, &prefix, &key_string)
}

} // verus!

