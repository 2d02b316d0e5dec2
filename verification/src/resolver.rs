//! The resolution capability: turning an indirect reference into the
//! node it points at, or a failure.

use vstd::prelude::*;

use crate::node::clone_node;
use crate::node::node_view;
use crate::node::Node;
use crate::node::RefId;
use crate::node::SpecNode;

verus! {

/// Why a reference could not be resolved: no object with that
/// identity exists in the document.
#[derive(Clone, Copy, PartialEq, Eq, Structural, Debug)]
pub enum ResolveError {
    NotFound,
}

/// The resolution capability.  It stands for a fixed, finite partial
/// map from reference identities to nodes: `resolve` answers `Ok`
/// with the mapped node exactly on the map's domain, and fails
/// outside it.  The map does not change between calls, so resolution
/// is deterministic.
pub trait Resolver {
    /// The partial map this capability stands for, over the
    /// mathematical form of the nodes.
    spec fn model(&self) -> Map<RefId, SpecNode>;

    /// Only finitely many references resolve.
    proof fn model_finite(&self)
        ensures
            self.model().dom().finite(),
    ;

    /// Resolves one reference.
    fn resolve(&self, r: RefId) -> (res: Result<Node, ResolveError>)
        ensures
            match res {
                Ok(n) => self.model().contains_key(r) && node_view(n) == self.model()[r],
                Err(_) => !self.model().contains_key(r),
            },
    ;
}

/// The binding that a table of (reference, node) pairs gives to `r`,
/// scanning from position `i` on and taking the first pair whose
/// reference equals `r`.
pub open spec fn lookup_from(t: Seq<(RefId, Node)>, i: int, r: RefId) -> Option<SpecNode>
    decreases t.len() - i,
{
    if i < 0 || i >= t.len() {
        None
    } else if t[i].0 == r {
        Some(node_view(t[i].1))
    } else {
        lookup_from(t, i + 1, r)
    }
}

/// A resolution capability backed by an in-memory table.  Useful on
/// its own for small documents, and as the verified witness that the
/// `Resolver` contract can be met.
pub struct MapResolver {
    table: Vec<(RefId, Node)>,
}

/// Entries at or after `j` bind `x` the same way in a table and in
/// that table with one pair put in front.
proof fn lemma_lookup_shift(t: Seq<(RefId, Node)>, p: (RefId, Node), j: int, x: RefId)
    requires
        0 <= j,
    ensures
        lookup_from(t.insert(0, p), j + 1, x) == lookup_from(t, j, x),
    decreases t.len() - j,
{
    let t2 = t.insert(0, p);
    if j < t.len() {
        assert(t2[j + 1] == t[j]);
        lemma_lookup_shift(t, p, j + 1, x);
    }
}

/// A reference that `lookup_from` finds sits somewhere in the table.
proof fn lemma_lookup_some_index(t: Seq<(RefId, Node)>, i: int, r: RefId)
    requires
        lookup_from(t, i, r) is Some,
    ensures
        exists|j: int| 0 <= j < t.len() && (#[trigger] t[j]).0 == r,
    decreases t.len() - i,
{
    if i < 0 || i >= t.len() {
    } else if t[i].0 == r {
        assert(0 <= i < t.len() && t[i].0 == r);
    } else {
        lemma_lookup_some_index(t, i + 1, r);
    }
}

impl MapResolver {
    /// An empty capability: no reference resolves.
    pub fn new() -> (r: MapResolver)
        ensures
            r.model() == Map::<RefId, SpecNode>::empty(),
    {
        let r = MapResolver { table: Vec::new() };
        proof {
            assert(r.model() =~= Map::<RefId, SpecNode>::empty());
        }
        r
    }

    /// Binds `r` to `n`, replacing any earlier binding.
    pub fn insert(&mut self, r: RefId, n: Node)
        ensures
            final(self).model() == old(self).model().insert(r, node_view(n)),
    {
        let ghost told = self.table@;
        let ghost nv = node_view(n);
        self.table.insert(0, (r, n));
        proof {
            assert forall|x: RefId| #[trigger]
                lookup_from(self.table@, 0, x) == if x == r {
                    Some(nv)
                } else {
                    lookup_from(told, 0, x)
                } by {
                lemma_lookup_shift(told, (r, n), 0, x);
            };
            assert(final(self).model() =~= old(self).model().insert(r, nv));
        }
    }
}

impl Resolver for MapResolver {
    closed spec fn model(&self) -> Map<RefId, SpecNode> {
        Map::new(
            |r: RefId| lookup_from(self.table@, 0, r) is Some,
            |r: RefId| lookup_from(self.table@, 0, r)->Some_0,
        )
    }

    proof fn model_finite(&self) {
        let t = self.table@;
        let keys = t.map_values(|p: (RefId, Node)| p.0);
        assert forall|r: RefId| self.model().dom().contains(r) implies keys.to_set().contains(
            r,
        ) by {
            lemma_lookup_some_index(t, 0, r);
            let j = choose|j: int| 0 <= j < t.len() && (#[trigger] t[j]).0 == r;
            assert(keys[j] == r);
        };
        vstd::seq_lib::seq_to_set_is_finite(keys);
        vstd::set_lib::lemma_set_subset_finite(keys.to_set(), self.model().dom());
    }

    fn resolve(&self, r: RefId) -> (res: Result<Node, ResolveError>) {
        let mut i: usize = 0;
        while i < self.table.len()
            invariant
                0 <= i <= self.table.len(),
                lookup_from(self.table@, 0, r) == lookup_from(self.table@, i as int, r),
            decreases self.table.len() - i,
        {
            let hit = self.table[i].0.id == r.id && self.table[i].0.gen == r.gen;
            if hit {
                assert(self.table@[i as int].0 == r);
                return Ok(clone_node(&self.table[i].1));
            }
            i = i + 1;
        }
        Err(ResolveError::NotFound)
    }
}

} // verus!
