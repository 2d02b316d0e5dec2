//! Replaying a found path: proof that every path the search reports
//! does lead, step by step from the root, to a dictionary that
//! contains an entry with the searched key.

use vstd::prelude::*;

use crate::node::entries_wf;
use crate::node::items_wf;
use crate::node::keys_distinct_from;
use crate::node::lemma_entry_vals_wf_child;
use crate::node::lemma_items_wf_child;
use crate::node::lemma_key_absent;
use crate::node::node_wf;
use crate::node::RefId;
use crate::node::SpecNode;
use crate::path::SpecElem;
use crate::search::search_entries;
use crate::search::search_items;
use crate::search::search_node;
use crate::search::spec_search;

verus! {

broadcast use vstd::prelude::Set::lemma_set_insert_diff_decreases;

/// The entries of a node that is searched like a dictionary: a
/// dictionary's own entries, or a stream's metadata entries.
pub open spec fn entries_of(n: SpecNode) -> Option<Seq<(Seq<char>, SpecNode)>> {
    match n {
        SpecNode::Dictionary(entries) => Some(entries),
        SpecNode::Stream(entries, _) => Some(entries),
        _ => None,
    }
}

/// Some entry of the sequence carries this key.
pub open spec fn has_entry(entries: Seq<(Seq<char>, SpecNode)>, key: Seq<char>) -> bool {
    exists|i: int| 0 <= i < entries.len() && (#[trigger] entries[i]).0 == key
}

/// The node is a dictionary (or stream) containing an entry with this
/// key.
pub open spec fn node_has_key(n: SpecNode, key: Seq<char>) -> bool {
    match entries_of(n) {
        Some(entries) => has_entry(entries, key),
        None => false,
    }
}

/// The value of the first entry carrying `key`, scanning from
/// position `i` on.
pub open spec fn entry_lookup_from(
    entries: Seq<(Seq<char>, SpecNode)>,
    i: int,
    key: Seq<char>,
) -> Option<SpecNode>
    decreases entries.len() - i,
{
    if i < 0 || i >= entries.len() {
        None
    } else if entries[i].0 == key {
        Some(entries[i].1)
    } else {
        entry_lookup_from(entries, i + 1, key)
    }
}

/// The value of the first entry carrying `key`.
pub open spec fn entry_lookup(entries: Seq<(Seq<char>, SpecNode)>, key: Seq<char>) -> Option<
    SpecNode,
> {
    entry_lookup_from(entries, 0, key)
}

/// With pairwise-distinct keys, looking a key up finds exactly the
/// entry that carries it.
proof fn lemma_lookup_distinct(entries: Seq<(Seq<char>, SpecNode)>, i: int, j: int)
    requires
        keys_distinct_from(entries, i),
        0 <= i <= j < entries.len(),
    ensures
        entry_lookup_from(entries, i, entries[j].0) == Some(entries[j].1),
    decreases j - i,
{
    if i < j {
        lemma_key_absent(entries, i + 1, j, entries[i].0);
        lemma_lookup_distinct(entries, i + 1, j);
    }
}

/// Replays `steps` starting at node `n`: any reference is first
/// resolved through `m` (failing, or closing a cycle against
/// `visited`, ends the replay with nothing), then one step descends
/// into the named dictionary entry or the indexed array element.
/// Returns the node the steps lead to, with its own references
/// already resolved.
///
/// The threaded `visited` set only restricts resolution, so a replay
/// that succeeds under it also succeeds for a plain replay that
/// resolves every reference as it comes.
pub open spec fn walk(
    m: Map<RefId, SpecNode>,
    visited: Set<RefId>,
    n: SpecNode,
    steps: Seq<SpecElem>,
) -> Option<SpecNode>
    decreases m.dom().difference(visited).len(), steps.len(),
        when m.dom().finite()
{
    match n {
        SpecNode::Reference(r) => if visited.contains(r) || !m.dom().contains(r) {
            None
        } else {
            walk(m, visited.insert(r), m[r], steps)
        },
        _ => if steps.len() == 0 {
            Some(n)
        } else {
            match steps[0] {
                SpecElem::DictElem { key } => match entries_of(n) {
                    Some(entries) => match entry_lookup(entries, key) {
                        Some(v) => walk(m, visited, v, steps.drop_first()),
                        None => None,
                    },
                    None => None,
                },
                SpecElem::ArrayElem { index } => match n {
                    SpecNode::Array(items) => if 0 <= index < items.len() {
                        walk(m, visited, items[index], steps.drop_first())
                    } else {
                        None
                    },
                    _ => None,
                },
            }
        },
    }
}

/// Every node the resolution map can hand out is well-formed.
pub open spec fn model_wf(m: Map<RefId, SpecNode>) -> bool {
    forall|r: RefId| m.dom().contains(r) ==> node_wf(#[trigger] m[r])
}

/// A reported path `p` extends `prefix` by at least one step, ends on
/// the searched key, and replaying its added steps but the last from
/// `n` reaches a dictionary that contains the key.
pub open spec fn replayable(
    m: Map<RefId, SpecNode>,
    visited: Set<RefId>,
    n: SpecNode,
    prefix: Seq<SpecElem>,
    key: Seq<char>,
    p: Seq<SpecElem>,
) -> bool {
    &&& p.len() > prefix.len()
    &&& p.subrange(0, prefix.len() as int) == prefix
    &&& p.last() == (SpecElem::DictElem { key })
    &&& match walk(m, visited, n, p.subrange(prefix.len() as int, p.len() - 1)) {
        Some(t) => node_has_key(t, key),
        None => false,
    }
}

/// One step takes the container `n` to the child `child`: the named
/// entry is looked up, or the indexed element taken.
pub open spec fn step_applies(n: SpecNode, step: SpecElem, child: SpecNode) -> bool {
    match step {
        SpecElem::DictElem { key } => match entries_of(n) {
            Some(entries) => entry_lookup(entries, key) == Some(child),
            None => false,
        },
        SpecElem::ArrayElem { index } => match n {
            SpecNode::Array(items) => 0 <= index < items.len() && items[index] == child,
            _ => false,
        },
    }
}

/// A path replayable from a child, under a prefix extended by the
/// step that reaches that child, is replayable from the container
/// under the bare prefix.
proof fn lemma_lift_step(
    m: Map<RefId, SpecNode>,
    visited: Set<RefId>,
    n: SpecNode,
    child: SpecNode,
    step: SpecElem,
    prefix: Seq<SpecElem>,
    key: Seq<char>,
    p: Seq<SpecElem>,
)
    requires
        m.dom().finite(),
        step_applies(n, step, child),
        replayable(m, visited, child, prefix.push(step), key, p),
    ensures
        replayable(m, visited, n, prefix, key, p),
{
    let pl = prefix.len() as int;
    assert(p.subrange(0, pl + 1) == prefix.push(step));
    assert forall|k: int| 0 <= k < pl implies p.subrange(0, pl)[k] == prefix[k] by {
        assert(p.subrange(0, pl + 1)[k] == prefix.push(step)[k]);
    };
    assert(p.subrange(0, pl) =~= prefix);
    let outer = p.subrange(pl, p.len() - 1);
    let inner = p.subrange(pl + 1, p.len() - 1);
    assert(outer[0] == p[pl]);
    assert(p[pl] == prefix.push(step)[pl]);
    assert(outer[0] == step);
    assert(outer.drop_first() =~= inner);
    match step {
        SpecElem::DictElem { key: k } => {
            assert(walk(m, visited, n, outer) == walk(m, visited, child, inner));
        },
        SpecElem::ArrayElem { index } => {
            assert(walk(m, visited, n, outer) == walk(m, visited, child, inner));
        },
    }
}

/// Every path reported under a node is replayable from that node.
proof fn lemma_node_replayable(
    m: Map<RefId, SpecNode>,
    visited: Set<RefId>,
    n: SpecNode,
    prefix: Seq<SpecElem>,
    key: Seq<char>,
)
    requires
        m.dom().finite(),
        node_wf(n),
        model_wf(m),
    ensures
        forall|j: int|
            0 <= j < search_node(m, visited, n, prefix, key).len() ==> replayable(
                m,
                visited,
                n,
                prefix,
                key,
                #[trigger] search_node(m, visited, n, prefix, key)[j],
            ),
    decreases m.dom().difference(visited).len(), n, 0int,
{
    let res = search_node(m, visited, n, prefix, key);
    match n {
        SpecNode::Array(items) => {
            lemma_items_replayable(m, visited, items, 0, prefix, key);
            let sub = search_items(m, visited, items, 0, prefix, key);
            assert(res == sub);
            assert forall|j: int| 0 <= j < res.len() implies replayable(
                m,
                visited,
                n,
                prefix,
                key,
                res[j],
            ) by {
                assert(replayable(m, visited, n, prefix, key, sub[j]));
            };
        },
        SpecNode::Dictionary(entries) => {
            lemma_entries_replayable(m, visited, n, entries, 0, prefix, key);
            let sub = search_entries(m, visited, entries, 0, prefix, key);
            assert(res == sub);
            assert forall|j: int| 0 <= j < res.len() implies replayable(
                m,
                visited,
                n,
                prefix,
                key,
                res[j],
            ) by {
                assert(replayable(m, visited, n, prefix, key, sub[j]));
            };
        },
        SpecNode::Stream(entries, _) => {
            lemma_entries_replayable(m, visited, n, entries, 0, prefix, key);
            let sub = search_entries(m, visited, entries, 0, prefix, key);
            assert(res == sub);
            assert forall|j: int| 0 <= j < res.len() implies replayable(
                m,
                visited,
                n,
                prefix,
                key,
                res[j],
            ) by {
                assert(replayable(m, visited, n, prefix, key, sub[j]));
            };
        },
        SpecNode::Reference(r) => {
            if visited.contains(r) || !m.dom().contains(r) {
            } else {
                lemma_node_replayable(m, visited.insert(r), m[r], prefix, key);
                let sub = search_node(m, visited.insert(r), m[r], prefix, key);
                assert(res == sub);
                assert forall|j: int| 0 <= j < res.len() implies replayable(
                    m,
                    visited,
                    n,
                    prefix,
                    key,
                    res[j],
                ) by {
                    assert(replayable(m, visited.insert(r), m[r], prefix, key, sub[j]));
                    let p = sub[j];
                    let steps = p.subrange(prefix.len() as int, p.len() - 1);
                    assert(walk(m, visited, n, steps) == walk(m, visited.insert(r), m[r], steps));
                };
            }
        },
        _ => {},
    }
}

/// Every path reported among array elements from position `i` on is
/// replayable from the array node.
proof fn lemma_items_replayable(
    m: Map<RefId, SpecNode>,
    visited: Set<RefId>,
    items: Seq<SpecNode>,
    i: int,
    prefix: Seq<SpecElem>,
    key: Seq<char>,
)
    requires
        m.dom().finite(),
        node_wf(SpecNode::Array(items)),
        model_wf(m),
    ensures
        forall|j: int|
            0 <= j < search_items(m, visited, items, i, prefix, key).len() ==> replayable(
                m,
                visited,
                SpecNode::Array(items),
                prefix,
                key,
                #[trigger] search_items(m, visited, items, i, prefix, key)[j],
            ),
    decreases m.dom().difference(visited).len(), items, items.len() - i,
{
    let res = search_items(m, visited, items, i, prefix, key);
    if i < 0 || i >= items.len() {
    } else {
        let step = SpecElem::ArrayElem { index: i };
        let sub = search_node(m, visited, items[i], prefix.push(step), key);
        let rest = search_items(m, visited, items, i + 1, prefix, key);
        assert(res == sub + rest);
        assert(items_wf(items, 0));
        lemma_items_wf_child(items, 0, i);
        lemma_node_replayable(m, visited, items[i], prefix.push(step), key);
        lemma_items_replayable(m, visited, items, i + 1, prefix, key);
        assert forall|j: int| 0 <= j < res.len() implies replayable(
            m,
            visited,
            SpecNode::Array(items),
            prefix,
            key,
            res[j],
        ) by {
            if j < sub.len() {
                assert(res[j] == sub[j]);
                assert(replayable(m, visited, items[i], prefix.push(step), key, sub[j]));
                assert(step_applies(SpecNode::Array(items), step, items[i]));
                lemma_lift_step(
                    m,
                    visited,
                    SpecNode::Array(items),
                    items[i],
                    step,
                    prefix,
                    key,
                    sub[j],
                );
            } else {
                assert(res[j] == rest[j - sub.len()]);
            }
        };
    }
}

/// Every path reported among dictionary entries from position `i` on
/// is replayable from the containing node.
proof fn lemma_entries_replayable(
    m: Map<RefId, SpecNode>,
    visited: Set<RefId>,
    n: SpecNode,
    entries: Seq<(Seq<char>, SpecNode)>,
    i: int,
    prefix: Seq<SpecElem>,
    key: Seq<char>,
)
    requires
        m.dom().finite(),
        entries_of(n) == Some(entries),
        entries_wf(entries),
        model_wf(m),
    ensures
        forall|j: int|
            0 <= j < search_entries(m, visited, entries, i, prefix, key).len() ==> replayable(
                m,
                visited,
                n,
                prefix,
                key,
                #[trigger] search_entries(m, visited, entries, i, prefix, key)[j],
            ),
    decreases m.dom().difference(visited).len(), entries, entries.len() - i,
{
    let res = search_entries(m, visited, entries, i, prefix, key);
    if i < 0 || i >= entries.len() {
    } else {
        let hits = if entries[i].0 == key {
            seq![prefix.push(SpecElem::DictElem { key })]
        } else {
            Seq::<Seq<SpecElem>>::empty()
        };
        let step = SpecElem::DictElem { key: entries[i].0 };
        let sub = search_node(m, visited, entries[i].1, prefix.push(step), key);
        let rest = search_entries(m, visited, entries, i + 1, prefix, key);
        assert(res == hits + sub + rest);
        lemma_entry_vals_wf_child(entries, 0, i);
        lemma_node_replayable(m, visited, entries[i].1, prefix.push(step), key);
        lemma_entries_replayable(m, visited, n, entries, i + 1, prefix, key);
        assert forall|j: int| 0 <= j < res.len() implies replayable(
            m,
            visited,
            n,
            prefix,
            key,
            res[j],
        ) by {
            if j < hits.len() {
                let p = prefix.push(SpecElem::DictElem { key });
                assert(res[j] == p);
                assert(p.subrange(0, prefix.len() as int) =~= prefix);
                assert(p.subrange(prefix.len() as int, p.len() - 1) =~= Seq::<SpecElem>::empty());
                assert(walk(m, visited, n, Seq::empty()) == Some(n));
                assert(has_entry(entries, key));
            } else if j < hits.len() + sub.len() {
                let p = sub[j - hits.len()];
                assert(res[j] == p);
                assert(replayable(m, visited, entries[i].1, prefix.push(step), key, p));
                lemma_lookup_distinct(entries, 0, i);
                assert(step_applies(n, step, entries[i].1));
                lemma_lift_step(m, visited, n, entries[i].1, step, prefix, key, p);
            } else {
                assert(res[j] == rest[j - hits.len() - sub.len()]);
            }
        };
    }
}

/// The path replay invariant: every path that the search reports is
/// non-empty, ends on the searched key, and replaying all its steps
/// but the last from the root dictionary — resolving references as
/// they come — reaches a dictionary that contains an entry whose key
/// equals the searched key.
pub proof fn lemma_search_replayable(
    m: Map<RefId, SpecNode>,
    root: Seq<(Seq<char>, SpecNode)>,
    key: Seq<char>,
)
    requires
        m.dom().finite(),
        entries_wf(root),
        model_wf(m),
    ensures
        forall|j: int|
            0 <= j < spec_search(m, root, key).len() ==> {
                let p = #[trigger] spec_search(m, root, key)[j];
                &&& p.len() > 0
                &&& p.last() == (SpecElem::DictElem { key })
                &&& match walk(
                    m,
                    Set::empty(),
                    SpecNode::Dictionary(root),
                    p.subrange(0, p.len() - 1),
                ) {
                    Some(t) => node_has_key(t, key),
                    None => false,
                }
            },
{
    if key.len() == 0 {
    } else {
        lemma_entries_replayable(
            m,
            Set::empty(),
            SpecNode::Dictionary(root),
            root,
            0,
            Seq::empty(),
            key,
        );
        assert forall|j: int| 0 <= j < spec_search(m, root, key).len() implies {
            let p = #[trigger] spec_search(m, root, key)[j];
            &&& p.len() > 0
            &&& p.last() == (SpecElem::DictElem { key })
            &&& match walk(
                m,
                Set::empty(),
                SpecNode::Dictionary(root),
                p.subrange(0, p.len() - 1),
            ) {
                Some(t) => node_has_key(t, key),
                None => false,
            }
        } by {
            let p = spec_search(m, root, key)[j];
            assert(replayable(m, Set::empty(), SpecNode::Dictionary(root), Seq::empty(), key, p));
            assert(p.subrange(0, 0) =~= Seq::<SpecElem>::empty());
        };
    }
}

} // verus!

