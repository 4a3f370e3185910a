//! The placement component: a consistent-hash map from keys to node
//! identifiers over the current membership.
//!
//! The hashing itself is done by the `anchorhash` crate, seeded with a
//! `highway` keyed hasher so that every node computes the same mapping.
//! An anchor assigns resources to buckets in insertion order, so the
//! mapping it computes is a function of the *sequence* of insertions.  To
//! make the owner of a key a pure function of the membership *set* — the
//! determinism invariant every node relies on for routing — a `Placement`
//! keeps its members strictly sorted and always feeds the anchor that one
//! canonical sequence.
//!
//! That choice trades away part of AnchorHash's minimal-disruption
//! guarantee: with this hashing scheme, an owner function that is
//! independent of arrival order cannot also confine every membership
//! change to the joining or leaving member.  Over the canonical order the
//! guarantee survives at the top: when the member that joins (or leaves)
//! is the canonically greatest, no key moves between the other members —
//! the last `ensures` of [`Placement::owner`] states exactly that.  A
//! member that sorts into the middle shifts the bucket pairing of every
//! canonically later member, and keys may then move between pre-existing
//! nodes.  Routing stays correct either way — every key has one
//! well-defined owner that all nodes agree on — but such a join migrates
//! more data than a last-sorting one.

use vstd::prelude::*;

use crate::order::{
    id_lt, id_lt_exec, id_views, lemma_id_lt_transitive, lemma_id_lt_trichotomy, lemma_sorted_unique,
    strictly_sorted,
};

verus! {

/// Number of anchor buckets, and so the most nodes a placement can hold.
/// It must be the same constant on every node of the fabric.
pub const ANCHOR_CAPACITY: usize = 100;

/// What an anchor lookup returns: the owner of `key` under an anchor of
/// `ANCHOR_CAPACITY` buckets, hashed with a `highway` hasher keyed from
/// `seed`, holding exactly the resources `order`, inserted in that order.
/// The anchor's lookup state is built deterministically from these
/// arguments, so the result is a pure function of them.
pub uninterp spec fn anchor_owner(
    seed: u128,
    order: Seq<Seq<char>>,
    key: Seq<char>,
) -> Option<Seq<char>>;

/// Relies on `anchorhash`: `Builder::with_hasher(..).with_resources(..)
/// .build(..)` constructs an anchor by inserting the given resources in
/// order, and `AnchorHash::get_resource` maps a key to `None` exactly when
/// there is no resource, and otherwise to one of the resources.  The final
/// ensures is the crate's minimal-disruption guarantee: inserting a
/// resource moves keys only onto that resource, so a key not owned by the
/// last-inserted member is owned by whoever owned it before that member
/// was inserted.  The hasher is `highway`'s, keyed from `seed` alone, and
/// every highway backend produces identical output, so the mapping is
/// identical on every node running this build.  (anchorhash's internal
/// bucket hash is selected at compile time, so the mapping is a constant
/// of the build, not of the machine it runs on; a fabric deploys one code
/// image to every node.)
#[verifier::external_body]
fn anchor_lookup(seed: u128, members: &Vec<String>, key: &String) -> (r: Option<String>)
    requires
        members@.len() <= ANCHOR_CAPACITY,
        forall|i: int, j: int|
            0 <= i < j < members@.len() ==> id_views(members@)[i] != id_views(members@)[j],
    ensures
        r.deep_view() == anchor_owner(seed, id_views(members@), key@),
        (r is Some) <==> members@.len() > 0,
        r matches Some(s) ==> id_views(members@).contains(s@),
        members@.len() > 0 && r.deep_view() != Some(id_views(members@).last()) ==> r.deep_view()
            == anchor_owner(seed, id_views(members@).drop_last(), key@),
{
    let hasher_key = highway::Key([seed as u64, (seed >> 64) as u64, 0, 0]);
    let anchor: anchorhash::AnchorHash<String, String, highway::HighwayBuildHasher> =
        anchorhash::Builder::with_hasher(highway::HighwayBuildHasher::new(hasher_key))
            .with_resources(members.clone())
            .build(ANCHOR_CAPACITY as u16);
    anchor.get_resource(key.clone()).cloned()
}

/// Unique ownership: if every node of a fabric holds only keys that the
/// shared placement assigns to it, then no key is held by two nodes.
/// `stores` maps each node's identifier to the set of keys it holds.
pub proof fn lemma_unique_ownership(
    seed: u128,
    order: Seq<Seq<char>>,
    stores: Map<Seq<char>, Set<Seq<char>>>,
    n1: Seq<char>,
    n2: Seq<char>,
    k: Seq<char>,
)
    requires
        forall|n: Seq<char>, k2: Seq<char>|
            stores.contains_key(n) && #[trigger] stores[n].contains(k2) ==> anchor_owner(
                seed,
                order,
                k2,
            ) == Some(n),
        stores.contains_key(n1),
        stores.contains_key(n2),
        n1 != n2,
    ensures
        !(stores[n1].contains(k) && stores[n2].contains(k)),
{
    if stores[n1].contains(k) && stores[n2].contains(k) {
        assert(anchor_owner(seed, order, k) == Some(n1));
        assert(anchor_owner(seed, order, k) == Some(n2));
    }
}

/// A snapshot of the consistent-hash map: the hasher seed and the
/// membership, kept in canonical (strictly sorted) order.
pub struct Placement {
    pub(crate) seed: u128,
    pub(crate) members: Vec<String>,
}

impl Placement {
    /// The membership in canonical order.
    pub open(crate) spec fn member_seq(self) -> Seq<Seq<char>> {
        id_views(self.members@)
    }

    /// The membership as a set.
    pub open spec fn member_set(self) -> Set<Seq<char>> {
        self.member_seq().to_set()
    }

    pub open(crate) spec fn seed_spec(self) -> u128 {
        self.seed
    }

    pub open(crate) spec fn wf(self) -> bool {
        &&& strictly_sorted(self.member_seq())
        &&& self.members@.len() <= ANCHOR_CAPACITY
    }

    /// The owner of `key` under this placement.
    pub open spec fn owner_spec(self, key: Seq<char>) -> Option<Seq<char>> {
        anchor_owner(self.seed_spec(), self.member_seq(), key)
    }

    /// Members are pairwise distinct: strict sortedness forbids repeats.
    pub proof fn lemma_members_unique(self)
        requires
            self.wf(),
        ensures
            forall|i: int, j: int|
                0 <= i < j < self.member_seq().len() ==> self.member_seq()[i]
                    != self.member_seq()[j],
    {
        assert forall|i: int, j: int|
            0 <= i < j < self.member_seq().len() implies self.member_seq()[i]
            != self.member_seq()[j] by {
            lemma_id_lt_trichotomy(self.member_seq()[i], self.member_seq()[j]);
        }
    }

    /// The membership has as many members as the canonical sequence has
    /// entries.
    pub proof fn lemma_member_count(self)
        requires
            self.wf(),
        ensures
            self.member_set().len() == self.member_seq().len(),
    {
        self.lemma_members_unique();
        assert(self.member_seq().no_duplicates());
        self.member_seq().unique_seq_to_set();
    }

    /// Determinism: a placement's canonical member sequence is a function
    /// of its member set alone.
    pub proof fn lemma_canonical(self, other: Placement)
        requires
            self.wf(),
            other.wf(),
            self.member_set() == other.member_set(),
        ensures
            self.member_seq() == other.member_seq(),
    {
        lemma_sorted_unique(self.member_seq(), other.member_seq());
    }

    /// Determinism of the placement function: two placements built over the
    /// same member set with the same seed map every key to the same owner,
    /// however their members arrived.
    pub proof fn lemma_owner_deterministic(self, other: Placement, key: Seq<char>)
        requires
            self.wf(),
            other.wf(),
            self.seed_spec() == other.seed_spec(),
            self.member_set() == other.member_set(),
        ensures
            self.owner_spec(key) == other.owner_spec(key),
    {
        self.lemma_canonical(other);
    }

    /// An empty placement over no members.
    pub fn new(seed: u128) -> (p: Placement)
        ensures
            p.wf(),
            p.member_seq() == Seq::<Seq<char>>::empty(),
            p.seed_spec() == seed,
    {
        let members: Vec<String> = Vec::new();
        proof {
            assert(id_views(members@) =~= Seq::<Seq<char>>::empty());
        }
        Placement { seed, members }
    }

    /// The hasher seed this placement was built with.
    pub fn current_seed(&self) -> (r: u128)
        ensures
            r == self.seed_spec(),
    {
        self.seed
    }

    pub fn member_count(&self) -> (n: usize)
        ensures
            n == self.member_seq().len(),
    {
        self.members.len()
    }

    /// The members in canonical order.
    pub fn members(&self) -> (v: Vec<String>)
        ensures
            id_views(v@) == self.member_seq(),
    {
        let v = self.members.clone();
        proof {
            assert(id_views(v@) =~= self.member_seq());
        }
        v
    }

    /// Whether `node` is a member.
    pub fn contains(&self, node: &String) -> (r: bool)
        ensures
            r == self.member_set().contains(node@),
    {
        let n = self.members.len();
        let mut i: usize = 0;
        while i < n
            invariant
                i <= n,
                n == self.members@.len(),
                forall|j: int| 0 <= j < i ==> self.member_seq()[j] != node@,
            decreases n - i,
        {
            if self.members[i] == *node {
                proof {
                    assert(self.member_seq()[i as int] == node@);
                    assert(self.member_seq().contains(node@));
                }
                return true;
            }
            i += 1;
        }
        proof {
            if self.member_seq().contains(node@) {
                let j = choose|j: int|
                    0 <= j < self.member_seq().len() && self.member_seq()[j] == node@;
                assert(self.member_seq()[j] != node@);
            }
        }
        false
    }

    /// The unique owner of `key`: `None` exactly when the membership is
    /// empty, otherwise a member, computed the same on every node that
    /// holds the same membership set and seed.  If the owner is not the
    /// canonically greatest member, it is the owner the key already had
    /// before that member joined (minimal disruption).
    pub fn owner(&self, key: &String) -> (r: Option<String>)
        requires
            self.wf(),
        ensures
            r.deep_view() == self.owner_spec(key@),
            (r is Some) <==> self.member_seq().len() > 0,
            r matches Some(s) ==> self.member_set().contains(s@),
            self.member_seq().len() > 0 && r.deep_view() != Some(self.member_seq().last())
                ==> r.deep_view() == anchor_owner(
                self.seed_spec(),
                self.member_seq().drop_last(),
                key@,
            ),
    {
        proof {
            self.lemma_members_unique();
        }
        anchor_lookup(self.seed, &self.members, key)
    }

    /// Adds `node` to the membership; `true` exactly when it was absent and
    /// there was capacity for it.  Adding a present member changes nothing.
    /// When the new member is the canonically greatest, keys only move onto
    /// it (see [`Placement::owner`]); a member that sorts earlier may also
    /// move keys between pre-existing members (see the module doc).
    pub fn add(&mut self, node: &String) -> (r: bool)
        requires
            old(self).wf(),
        ensures
            final(self).wf(),
            final(self).seed_spec() == old(self).seed_spec(),
            r == (!old(self).member_set().contains(node@) && old(self).member_seq().len()
                < ANCHOR_CAPACITY),
            r ==> final(self).member_set() == old(self).member_set().insert(node@),
            r ==> final(self).member_seq().len() == old(self).member_seq().len() + 1,
            !r ==> *final(self) == *old(self),
    {
        let n = self.members.len();
        // Find the canonical position for `node`.
        let mut i: usize = 0;
        while i < n && id_lt_exec(&self.members[i], node)
            invariant
                old(self).wf(),
                *self == *old(self),
                i <= n,
                n == self.members@.len(),
                forall|j: int| 0 <= j < i ==> id_lt(self.member_seq()[j], node@),
            decreases n - i,
        {
            i += 1;
        }
        if i < n && !id_lt_exec(node, &self.members[i]) {
            // Neither strictly below nor above the member at `i`: present.
            proof {
                lemma_id_lt_trichotomy(self.member_seq()[i as int], node@);
                assert(self.member_seq()[i as int] == node@);
                assert(self.member_seq().contains(node@));
            }
            return false;
        }
        proof {
            // `node` is strictly between positions i-1 and i, so absent.
            assert forall|j: int| 0 <= j < self.member_seq().len() implies self.member_seq()[j]
                != node@ by {
                let s = self.member_seq();
                if j >= i {
                    if j > i {
                        lemma_id_lt_transitive(node@, s[i as int], s[j]);
                    }
                    lemma_id_lt_trichotomy(node@, s[j]);
                } else {
                    lemma_id_lt_trichotomy(s[j], node@);
                }
            }
            if self.member_set().contains(node@) {
                let j = choose|j: int|
                    0 <= j < self.member_seq().len() && self.member_seq()[j] == node@;
                assert(false);
            }
        }
        if n == ANCHOR_CAPACITY {
            return false;
        }
        let ghost before = self.member_seq();
        self.members.insert(i, node.clone());
        proof {
            assert(self.member_seq() =~= before.insert(i as int, node@));
            let s = self.member_seq();
            // Everything at or above position i sits strictly above `node`.
            assert forall|j: int| i <= j < before.len() implies id_lt(node@, before[j]) by {
                if j > i {
                    lemma_id_lt_transitive(node@, before[i as int], before[j]);
                }
            }
            // The new sequence is strictly sorted.
            assert forall|p: int, q: int| 0 <= p < q < s.len() implies id_lt(s[p], s[q]) by {
                assert(s[p] == if p < i {
                    before[p]
                } else if p == i {
                    node@
                } else {
                    before[p - 1]
                });
                assert(s[q] == if q < i {
                    before[q]
                } else if q == i {
                    node@
                } else {
                    before[q - 1]
                });
                if p < i && q > i {
                    lemma_id_lt_transitive(before[p], node@, before[q - 1]);
                }
            }
            // The set view gains exactly `node`.
            assert(self.member_set() =~= old(self).member_set().insert(node@)) by {
                assert forall|v: Seq<char>| s.to_set().contains(v) implies old(self).member_set().insert(node@).contains(v) by {
                    let p = choose|p: int| 0 <= p < s.len() && s[p] == v;
                    if p < i {
                        assert(before[p] == v);
                        assert(before.contains(v));
                    } else if p > i {
                        assert(before[p - 1] == v);
                        assert(before.contains(v));
                    }
                }
                assert forall|v: Seq<char>|
                    old(self).member_set().insert(node@).contains(v) implies s.to_set().contains(
                    v,
                ) by {
                    if v == node@ {
                        assert(s[i as int] == v);
                        assert(s.contains(v));
                    } else {
                        let p = choose|p: int| 0 <= p < before.len() && before[p] == v;
                        if p < i {
                            assert(s[p] == v);
                        } else {
                            assert(s[p + 1] == v);
                        }
                        assert(s.contains(v));
                    }
                }
            }
        }
        true
    }

    /// Removes `node` from the membership; `true` exactly when present.
    /// Removing an absent member changes nothing.  When the removed member
    /// is the canonically greatest, the remaining keys keep their owners
    /// (the last `ensures` of [`Placement::owner`], read in reverse);
    /// removing an earlier member may also move keys between the remaining
    /// members (see the module doc).
    pub fn remove(&mut self, node: &String) -> (r: bool)
        requires
            old(self).wf(),
        ensures
            final(self).wf(),
            final(self).seed_spec() == old(self).seed_spec(),
            r == old(self).member_set().contains(node@),
            r ==> final(self).member_set() == old(self).member_set().remove(node@),
            r ==> final(self).member_seq().len() == old(self).member_seq().len() - 1,
            !r ==> *final(self) == *old(self),
    {
        let n = self.members.len();
        let mut i: usize = 0;
        while i < n
            invariant
                old(self).wf(),
                *self == *old(self),
                i <= n,
                n == self.members@.len(),
                forall|j: int| 0 <= j < i ==> self.member_seq()[j] != node@,
            decreases n - i,
        {
            if self.members[i] == *node {
                let ghost before = self.member_seq();
                proof {
                    assert(before[i as int] == node@);
                    assert(before.contains(node@));
                    old(self).lemma_members_unique();
                }
                self.members.remove(i);
                proof {
                    assert(self.member_seq() =~= before.remove(i as int));
                    let s = self.member_seq();
                    assert forall|p: int, q: int| 0 <= p < q < s.len() implies id_lt(
                        s[p],
                        s[q],
                    ) by {
                        assert(s[p] == if p < i {
                            before[p]
                        } else {
                            before[p + 1]
                        });
                        assert(s[q] == if q < i {
                            before[q]
                        } else {
                            before[q + 1]
                        });
                    }
                    assert(self.member_set() =~= old(self).member_set().remove(node@)) by {
                        assert forall|v: Seq<char>|
                            s.to_set().contains(v) implies old(self).member_set().remove(
                            node@,
                        ).contains(v) by {
                            let p = choose|p: int| 0 <= p < s.len() && s[p] == v;
                            if p < i {
                                assert(before[p] == v);
                            } else {
                                assert(before[p + 1] == v);
                            }
                            assert(before.contains(v));
                            // v is not the removed identifier: it sits at an
                            // index other than i, and members are distinct.
                            if v == node@ {
                                if p < i {
                                    assert(before[p] == before[i as int]);
                                } else {
                                    assert(before[p + 1] == before[i as int]);
                                }
                                assert(false);
                            }
                        }
                        assert forall|v: Seq<char>|
                            old(self).member_set().remove(node@).contains(v) implies s
                            .to_set().contains(v) by {
                            assert(before.contains(v));
                            let p = choose|p: int| 0 <= p < before.len() && before[p] == v;
                            if p < i {
                                assert(s[p] == v);
                            } else if p > i {
                                assert(s[p - 1] == v);
                            } else {
                                assert(before[i as int] == node@);
                            }
                            assert(s.contains(v));
                        }
                    }
                }
                return true;
            }
            i += 1;
        }
        proof {
            if self.member_set().contains(node@) {
                let j = choose|j: int|
                    0 <= j < self.member_seq().len() && self.member_seq()[j] == node@;
                assert(self.member_seq()[j] != node@);
            }
        }
        false
    }
}

} // verus!
