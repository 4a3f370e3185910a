//! A single storage node: its identity, its shard of the data, its view of
//! the membership, and the placement that routes every key to its unique
//! owner.

use vstd::prelude::*;

use crate::order::{id_views, lemma_push_to_set};
use crate::placement::{Placement, ANCHOR_CAPACITY};
use crate::store::{entry_views, KvStore};

verus! {

/// The default hasher seed; every node of a fabric must use the same one.
pub const DEFAULT_SEED: u128 = 0;

/// The entries of `list` other than `me`, kept in `list`'s order: who a
/// node at `me` broadcasts an event to.
pub open spec fn others_of(list: Seq<Seq<char>>, me: Seq<char>) -> Seq<Seq<char>>
    decreases list.len(),
{
    if list.len() == 0 {
        Seq::empty()
    } else if list.first() == me {
        others_of(list.drop_first(), me)
    } else {
        seq![list.first()] + others_of(list.drop_first(), me)
    }
}

proof fn lemma_others_of_push(list: Seq<Seq<char>>, x: Seq<char>, me: Seq<char>)
    ensures
        others_of(list.push(x), me) == others_of(list, me) + (if x == me {
            Seq::<Seq<char>>::empty()
        } else {
            seq![x]
        }),
    decreases list.len(),
{
    reveal_with_fuel(others_of, 3);
    let tail = if x == me {
        Seq::<Seq<char>>::empty()
    } else {
        seq![x]
    };
    if list.len() == 0 {
        assert(list.push(x).first() == x);
        assert(list.push(x).drop_first() =~= Seq::<Seq<char>>::empty());
        assert(others_of(list.push(x), me) =~= others_of(list, me) + tail);
    } else {
        assert(list.push(x).first() == list.first());
        assert(list.push(x).drop_first() =~= list.drop_first().push(x));
        lemma_others_of_push(list.drop_first(), x, me);
        if list.first() == me {
        } else {
            assert(seq![list.first()] + (others_of(list.drop_first(), me) + tail) =~= (seq![
                list.first(),
            ] + others_of(list.drop_first(), me)) + tail);
        }
    }
}

/// The peers list holds exactly the members other than `me`, each once.
pub proof fn lemma_others_of_facts(list: Seq<Seq<char>>, me: Seq<char>)
    requires
        forall|i: int, j: int| 0 <= i < j < list.len() ==> list[i] != list[j],
    ensures
        forall|m: int|
            0 <= m < others_of(list, me).len() ==> #[trigger] others_of(list, me)[m] != me
                && list.contains(others_of(list, me)[m]),
        forall|k: Seq<char>| list.contains(k) && k != me ==> others_of(list, me).contains(k),
        forall|m1: int, m2: int|
            0 <= m1 < m2 < others_of(list, me).len() ==> others_of(list, me)[m1] != others_of(
                list,
                me,
            )[m2],
    decreases list.len(),
{
    if list.len() > 0 {
        let tail = list.drop_first();
        assert forall|i: int, j: int| 0 <= i < j < tail.len() implies tail[i] != tail[j] by {
            assert(tail[i] == list[i + 1]);
            assert(tail[j] == list[j + 1]);
        }
        lemma_others_of_facts(tail, me);
        let o = others_of(list, me);
        let ot = others_of(tail, me);
        // Membership in the tail lifts to the list.
        assert forall|v: Seq<char>| tail.contains(v) implies list.contains(v) by {
            let j = choose|j: int| 0 <= j < tail.len() && tail[j] == v;
            assert(list[j + 1] == v);
        }
        // The head does not recur in the tail.
        assert forall|v: Seq<char>| tail.contains(v) implies v != list.first() by {
            let j = choose|j: int| 0 <= j < tail.len() && tail[j] == v;
            assert(list[j + 1] != list[0]);
        }
        if list.first() == me {
            assert(o == ot);
            assert forall|k: Seq<char>| list.contains(k) && k != me implies o.contains(k) by {
                let j = choose|j: int| 0 <= j < list.len() && list[j] == k;
                assert(j != 0);
                assert(tail[j - 1] == k);
                assert(tail.contains(k));
            }
        } else {
            assert(o == seq![list.first()] + ot);
            assert forall|m: int|
                0 <= m < o.len() implies #[trigger] o[m] != me && list.contains(o[m]) by {
                if m == 0 {
                    assert(o[m] == list.first());
                    assert(list.contains(list[0]));
                } else {
                    assert(o[m] == ot[m - 1]);
                    assert(tail.contains(ot[m - 1]));
                }
            }
            assert forall|k: Seq<char>| list.contains(k) && k != me implies o.contains(k) by {
                let j = choose|j: int| 0 <= j < list.len() && list[j] == k;
                if j == 0 {
                    assert(o[0] == k);
                } else {
                    assert(tail[j - 1] == k);
                    assert(tail.contains(k));
                    assert(ot.contains(k));
                    let m = choose|m: int| 0 <= m < ot.len() && ot[m] == k;
                    assert(o[m + 1] == k);
                }
                assert(o.contains(k));
            }
            assert forall|m1: int, m2: int|
                0 <= m1 < m2 < o.len() implies o[m1] != o[m2] by {
                if m1 == 0 {
                    assert(o[m2] == ot[m2 - 1]);
                    assert(tail.contains(ot[m2 - 1]));
                } else {
                    assert(o[m1] == ot[m1 - 1]);
                    assert(o[m2] == ot[m2 - 1]);
                }
            }
        }
    }
}

/// Whether some pair of the batch carries the key `k`.
pub open spec fn pairs_have_key(ps: Seq<(Seq<char>, Seq<char>)>, k: Seq<char>) -> bool {
    exists|m: int| 0 <= m < ps.len() && (#[trigger] ps[m]).0 == k
}

/// The outcome of a routed operation: either it ran here, or the caller
/// must forward it to the node that owns the key.
#[derive(Debug, PartialEq)]
pub enum NodeResult<R> {
    NodeId(String),
    Result(R),
}

impl<R> NodeResult<R> {
    /// Unwraps a local result, or lets `op` produce one by forwarding to
    /// the owning node.
    pub fn or_forward_unwrap<O: FnOnce(String) -> R>(self, op: O) -> (r: R)
        requires
            self matches NodeResult::NodeId(n) ==> call_requires(op, (n,)),
        ensures
            self matches NodeResult::Result(d) ==> r == d,
            self matches NodeResult::NodeId(n) ==> call_ensures(op, (n,), r),
    {
        match self {
            NodeResult::NodeId(node_id) => op(node_id),
            NodeResult::Result(data) => data,
        }
    }
}

pub struct Node {
    pub id: String,
    pub(crate) data: KvStore,
    pub next_node_id: Option<String>,
    pub prev_node_id: Option<String>,
    pub(crate) all_nodes: Vec<String>,
    pub(crate) hash: Placement,
}

impl Node {
    /// The known members, in the order they were learned of.
    pub open(crate) spec fn member_list(self) -> Seq<Seq<char>> {
        id_views(self.all_nodes@)
    }

    /// The known members as a set.
    pub open spec fn member_set(self) -> Set<Seq<char>> {
        self.member_list().to_set()
    }

    /// The shard this node holds.
    pub open(crate) spec fn contents(self) -> Map<Seq<char>, Seq<char>> {
        self.data.contents()
    }

    pub open(crate) spec fn seed(self) -> u128 {
        self.hash.seed_spec()
    }

    /// This node's own identifier.
    pub open(crate) spec fn spec_id(self) -> Seq<char> {
        self.id@
    }

    /// The successor this node provisioned, if any.
    pub open(crate) spec fn spec_next(self) -> Option<String> {
        self.next_node_id
    }

    /// The node that provisioned this one, if any.
    pub open(crate) spec fn spec_prev(self) -> Option<String> {
        self.prev_node_id
    }

    /// The owner of `key` under this node's placement.
    pub open(crate) spec fn owner_of(self, key: Seq<char>) -> Option<Seq<char>> {
        self.hash.owner_spec(key)
    }

    /// Whether `key` is held here but owned elsewhere, so must migrate.
    pub open spec fn key_should_migrate(self, key: Seq<char>) -> bool {
        match self.owner_of(key) {
            Some(o) => o != self.spec_id(),
            None => false,
        }
    }

    pub open(crate) spec fn wf(self) -> bool {
        &&& self.data.wf()
        &&& self.hash.wf()
        &&& (forall|i: int, j: int|
            0 <= i < j < self.member_list().len() ==> self.member_list()[i]
                != self.member_list()[j])
        &&& self.member_set() == self.hash.member_set()
    }

    /// Everything but the shard store is the same in `post` as in `pre`.
    pub open(crate) spec fn only_store_changed(pre: Node, post: Node) -> bool {
        &&& post.id == pre.id
        &&& post.next_node_id == pre.next_node_id
        &&& post.prev_node_id == pre.prev_node_id
        &&& post.all_nodes == pre.all_nodes
        &&& post.hash == pre.hash
    }

    pub proof fn lemma_only_store_changed(pre: Node, post: Node)
        requires
            Node::only_store_changed(pre, post),
        ensures
            post.spec_id() == pre.spec_id(),
            post.spec_next() == pre.spec_next(),
            post.spec_prev() == pre.spec_prev(),
            post.member_list() == pre.member_list(),
            post.seed() == pre.seed(),
            forall|k: Seq<char>| #[trigger] post.owner_of(k) == pre.owner_of(k),
    {
    }

    /// Determinism: two well-formed nodes with the same seed and the same
    /// membership set route every key to the same owner, whatever order
    /// their members were added in.
    pub proof fn lemma_owner_deterministic(self, other: Node, key: Seq<char>)
        requires
            self.wf(),
            other.wf(),
            self.seed() == other.seed(),
            self.member_set() == other.member_set(),
        ensures
            self.owner_of(key) == other.owner_of(key),
    {
        self.hash.lemma_owner_deterministic(other.hash, key);
    }

    /// A fresh node knowing the given members, hashing with `seed`.
    pub fn with_seed(id: String, all_nodes: Vec<String>, seed: u128) -> (node: Node)
        requires
            all_nodes@.len() <= ANCHOR_CAPACITY,
        ensures
            node.wf(),
            node.spec_id() == id@,
            node.seed() == seed,
            node.member_set() == id_views(all_nodes@).to_set(),
            node.contents() == Map::<Seq<char>, Seq<char>>::empty(),
            node.spec_next() is None,
            node.spec_prev() is None,
            node.member_list().len() <= all_nodes@.len(),
            id_views(all_nodes@).no_duplicates() ==> node.member_list() == id_views(all_nodes@),
    {
        let mut hash = Placement::new(seed);
        let mut members: Vec<String> = Vec::new();
        let n = all_nodes.len();
        let mut i: usize = 0;
        while i < n
            invariant
                i <= n,
                n == all_nodes@.len() <= ANCHOR_CAPACITY,
                hash.wf(),
                hash.seed_spec() == seed,
                hash.member_seq().len() <= i,
                hash.member_set() == id_views(all_nodes@).take(i as int).to_set(),
                id_views(members@).to_set() == hash.member_set(),
                members@.len() == hash.member_seq().len(),
                forall|p: int, q: int|
                    0 <= p < q < id_views(members@).len() ==> id_views(members@)[p] != id_views(
                        members@,
                    )[q],
                id_views(all_nodes@).take(i as int).no_duplicates() ==> id_views(members@)
                    == id_views(all_nodes@).take(i as int),
            decreases n - i,
        {
            let ghost prefix = id_views(all_nodes@).take(i as int);
            let ghost elem = all_nodes@[i as int]@;
            let node_ref = &all_nodes[i];
            if !hash.contains(node_ref) {
                let ghost mviews = id_views(members@);
                let added = hash.add(node_ref);
                assert(added);
                members.push(node_ref.clone());
                proof {
                    assert(id_views(members@) =~= mviews.push(elem));
                    lemma_push_to_set(mviews, elem);
                    assert forall|p: int, q: int|
                        0 <= p < q < id_views(members@).len() implies id_views(members@)[p]
                        != id_views(members@)[q] by {
                        if q == id_views(members@).len() - 1 {
                            assert(id_views(members@)[p] == mviews[p]);
                            assert(mviews.contains(mviews[p]));
                            assert(mviews.to_set().contains(mviews[p]));
                        }
                    }
                }
            }
            proof {
                assert(id_views(all_nodes@).take(i + 1) =~= prefix.push(elem));
                lemma_push_to_set(prefix, elem);
                if prefix.to_set().contains(elem) {
                    assert(prefix.to_set().insert(elem) =~= prefix.to_set());
                }
                assert(hash.member_set() =~= id_views(all_nodes@).take(i + 1).to_set());
                assert(id_views(members@).to_set() =~= hash.member_set());
                // A duplicate-free prefix is copied verbatim.
                if id_views(all_nodes@).take(i + 1).no_duplicates() {
                    assert(prefix =~= id_views(all_nodes@).take(i + 1).take(i as int));
                    assert(prefix.no_duplicates());
                    if prefix.to_set().contains(elem) {
                        let p = choose|p: int| 0 <= p < prefix.len() && prefix[p] == elem;
                        assert(id_views(all_nodes@).take(i + 1)[p] == id_views(all_nodes@).take(
                            i + 1,
                        )[i as int]);
                        assert(false);
                    }
                    assert(id_views(members@) =~= id_views(all_nodes@).take(i + 1));
                }
            }
            i += 1;
        }
        proof {
            assert(id_views(all_nodes@).take(n as int) =~= id_views(all_nodes@));
            if id_views(all_nodes@).no_duplicates() {
                assert(id_views(members@) =~= id_views(all_nodes@));
            }
        }
        let node = Node {
            id,
            data: KvStore::new(),
            next_node_id: None,
            prev_node_id: None,
            all_nodes: members,
            hash,
        };
        node
    }

    /// A fresh node with the fabric's default seed.
    pub fn new(id: String, all_nodes: Vec<String>) -> (node: Node)
        requires
            all_nodes@.len() <= ANCHOR_CAPACITY,
        ensures
            node.wf(),
            node.spec_id() == id@,
            node.seed() == DEFAULT_SEED,
            node.member_set() == id_views(all_nodes@).to_set(),
            node.contents() == Map::<Seq<char>, Seq<char>>::empty(),
            node.spec_next() is None,
            node.spec_prev() is None,
    {
        Node::with_seed(id, all_nodes, DEFAULT_SEED)
    }

    /// The owner of `data_key` under the current placement: `None` exactly
    /// when the membership is empty, otherwise a member.
    pub fn node_id_from_data_key(&self, data_key: &String) -> (r: Option<String>)
        requires
            self.wf(),
        ensures
            r.deep_view() == self.owner_of(data_key@),
            (r is Some) <==> self.member_set().len() > 0,
            r matches Some(o) ==> self.member_set().contains(o@),
    {
        let r = self.hash.owner(data_key);
        proof {
            self.hash.lemma_member_count();
        }
        r
    }

    /// Runs `action` over the value held for `key` if this node owns the
    /// key and holds a value: the store takes the value `action` returns.
    /// Returns the owner when the key belongs elsewhere, and touches
    /// nothing; never creates an entry.
    pub fn with_data_mut<F, R>(&mut self, key: String, action: F) -> (res: NodeResult<Option<R>>)
        where F: FnOnce(String) -> (String, R)
        requires
            old(self).wf(),
            forall|v: String| #[trigger] call_requires(action, (v,)),
        ensures
            final(self).wf(),
            Node::only_store_changed(*old(self), *final(self)),
            match old(self).owner_of(key@) {
                None => res matches NodeResult::Result(r0) && r0 is None && *final(self) == *old(self),
                Some(o) => if o != old(self).spec_id() {
                    res matches NodeResult::NodeId(n2) && n2@ == o && *final(self) == *old(self)
                } else if !old(self).contents().contains_key(key@) {
                    res matches NodeResult::Result(r0) && r0 is None && *final(self) == *old(self)
                } else {
                    exists|v0: String, out: (String, R)|
                        {
                            &&& v0@ == old(self).contents()[key@]
                            &&& #[trigger] call_ensures(action, (v0,), out)
                            &&& final(self).contents() == old(self).contents().insert(
                                key@,
                                out.0@,
                            )
                            &&& res == NodeResult::Result(Some(out.1))
                        }
                },
            },
    {
        match self.node_id_from_data_key(&key) {
            Some(node_id) => {
                if node_id == self.id {
                    match self.data.get(&key) {
                        Some(value) => {
                            let v0 = value.clone();
                            let ghost v0_spec = v0;
                            let out = action(v0);
                            let ghost out_spec = out;
                            let (new_value, result) = out;
                            self.data.insert(key, new_value);
                            proof {
                                assert(call_ensures(action, (v0_spec,), out_spec));
                            }
                            NodeResult::Result(Some(result))
                        },
                        None => NodeResult::Result(None),
                    }
                } else {
                    NodeResult::NodeId(node_id)
                }
            },
            None => NodeResult::Result(None),
        }
    }

    /// Like `with_data_mut`, but an owned key without a value gets one:
    /// `action` starts from the empty value.
    pub fn with_upsert_data_mut<F, R>(&mut self, key: String, action: F) -> (res: NodeResult<
        Option<R>,
    >)
        where F: FnOnce(String) -> (String, R)
        requires
            old(self).wf(),
            forall|v: String| #[trigger] call_requires(action, (v,)),
        ensures
            final(self).wf(),
            Node::only_store_changed(*old(self), *final(self)),
            match old(self).owner_of(key@) {
                None => res matches NodeResult::Result(r0) && r0 is None && *final(self) == *old(self),
                Some(o) => if o != old(self).spec_id() {
                    res matches NodeResult::NodeId(n2) && n2@ == o && *final(self) == *old(self)
                } else {
                    exists|v0: String, out: (String, R)|
                        {
                            &&& v0@ == if old(self).contents().contains_key(key@) {
                                old(self).contents()[key@]
                            } else {
                                Seq::<char>::empty()
                            }
                            &&& #[trigger] call_ensures(action, (v0,), out)
                            &&& final(self).contents() == old(self).contents().insert(
                                key@,
                                out.0@,
                            )
                            &&& res == NodeResult::Result(Some(out.1))
                        }
                },
            },
    {
        match self.node_id_from_data_key(&key) {
            Some(node_id) => {
                if node_id == self.id {
                    let v0 = match self.data.get(&key) {
                        Some(value) => value.clone(),
                        None => String::new(),
                    };
                    let ghost v0_spec = v0;
                    let out = action(v0);
                    let ghost out_spec = out;
                    let (new_value, result) = out;
                    self.data.insert(key, new_value);
                    proof {
                        assert(call_ensures(action, (v0_spec,), out_spec));
                    }
                    NodeResult::Result(Some(result))
                } else {
                    NodeResult::NodeId(node_id)
                }
            },
            None => NodeResult::Result(None),
        }
    }

    /// Unconditional local write, used by the migration receiver.
    pub fn insert_data(&mut self, key: String, data: String)
        requires
            old(self).wf(),
        ensures
            final(self).wf(),
            Node::only_store_changed(*old(self), *final(self)),
            final(self).contents() == old(self).contents().insert(key@, data@),
    {
        self.data.insert(key, data);
    }

    /// Adds a node to the membership and the placement; `true` exactly when
    /// it was new and there was capacity.  Adding a known node changes
    /// nothing (idempotence).  Disruption: a newcomer that sorts last in
    /// the canonical order only draws keys to itself; one that sorts
    /// earlier may also move keys between pre-existing members (see the
    /// placement module doc for why this follows from order-independent
    /// ownership).
    pub fn add_node(&mut self, node_id: String) -> (r: bool)
        requires
            old(self).wf(),
        ensures
            final(self).wf(),
            final(self).spec_id() == old(self).spec_id(),
            final(self).seed() == old(self).seed(),
            final(self).contents() == old(self).contents(),
            final(self).spec_next() == old(self).spec_next(),
            final(self).spec_prev() == old(self).spec_prev(),
            r == (!old(self).member_set().contains(node_id@) && old(self).member_set().len()
                < ANCHOR_CAPACITY),
            r ==> final(self).member_set() == old(self).member_set().insert(node_id@)
                && final(self).member_list() == old(self).member_list().push(node_id@),
            !r ==> *final(self) == *old(self),
    {
        proof {
            self.hash.lemma_member_count();
        }
        let added = self.hash.add(&node_id);
        if added {
            let ghost list = self.member_list();
            self.all_nodes.push(node_id);
            proof {
                assert(self.member_list() =~= list.push(self.all_nodes@.last()@));
                lemma_push_to_set(list, self.all_nodes@.last()@);
                assert(self.member_set() =~= old(self).member_set().insert(
                    self.all_nodes@.last()@,
                ));
                assert forall|i: int, j: int|
                    0 <= i < j < self.member_list().len() implies self.member_list()[i]
                    != self.member_list()[j] by {
                    if j == self.member_list().len() - 1 {
                        assert(list[i] == self.member_list()[i]);
                        assert(!old(self).member_set().contains(self.member_list()[j]));
                        assert(old(self).member_list().contains(list[i]));
                    }
                }
            }
            true
        } else {
            false
        }
    }

    /// Removes a node from the membership and the placement; `true` exactly
    /// when it was known.  Removing an unknown node changes nothing
    /// (idempotence).  Disruption mirrors `add_node`: removing the
    /// canonically greatest member leaves all other keys in place; removing
    /// an earlier one may move keys between the remaining members.
    pub fn remove_node(&mut self, node_id: &String) -> (r: bool)
        requires
            old(self).wf(),
        ensures
            final(self).wf(),
            final(self).spec_id() == old(self).spec_id(),
            final(self).seed() == old(self).seed(),
            final(self).contents() == old(self).contents(),
            final(self).spec_next() == old(self).spec_next(),
            final(self).spec_prev() == old(self).spec_prev(),
            r == old(self).member_set().contains(node_id@),
            r ==> final(self).member_set() == old(self).member_set().remove(node_id@),
            r ==> exists|j: int|
                0 <= j < old(self).member_list().len() && old(self).member_list()[j] == node_id@
                    && final(self).member_list() == old(self).member_list().remove(j),
            !r ==> *final(self) == *old(self),
    {
        let removed = self.hash.remove(node_id);
        if removed {
            let n = self.all_nodes.len();
            let mut i: usize = 0;
            while i < n
                invariant
                    old(self).wf(),
                    old(self).member_set().contains(node_id@),
                    self.id == old(self).id,
                    self.data == old(self).data,
                    self.next_node_id == old(self).next_node_id,
                    self.prev_node_id == old(self).prev_node_id,
                    self.all_nodes == old(self).all_nodes,
                    self.hash.wf(),
                    self.hash.seed_spec() == old(self).seed(),
                    self.hash.member_set() == old(self).member_set().remove(node_id@),
                    i <= n,
                    n == self.all_nodes@.len(),
                    forall|j: int| 0 <= j < i ==> self.member_list()[j] != node_id@,
                decreases n - i,
            {
                if self.all_nodes[i] == *node_id {
                    let ghost list = self.member_list();
                    self.all_nodes.remove(i);
                    proof {
                        assert(self.member_list() =~= list.remove(i as int));
                        assert forall|p: int, q: int|
                            0 <= p < q < self.member_list().len() implies self.member_list()[p]
                            != self.member_list()[q] by {
                            assert(self.member_list()[p] == if p < i {
                                list[p]
                            } else {
                                list[p + 1]
                            });
                            assert(self.member_list()[q] == if q < i {
                                list[q]
                            } else {
                                list[q + 1]
                            });
                        }
                        assert(self.member_set() =~= old(self).member_set().remove(node_id@)) by {
                            assert forall|v: Seq<char>|
                                self.member_list().to_set().contains(v) implies old(self).member_set().remove(node_id@).contains(v) by {
                                let p = choose|p: int|
                                    0 <= p < self.member_list().len() && self.member_list()[p]
                                        == v;
                                if p < i {
                                    assert(list[p] == v);
                                } else {
                                    assert(list[p + 1] == v);
                                }
                                assert(list.contains(v));
                                if v == node_id@ {
                                    if p < i {
                                        assert(list[p] != list[i as int]);
                                    } else {
                                        assert(list[i as int] != list[p + 1]);
                                    }
                                    assert(false);
                                }
                            }
                            assert forall|v: Seq<char>|
                                old(self).member_set().remove(node_id@).contains(v) implies self
                                .member_list().to_set().contains(v) by {
                                assert(list.contains(v));
                                let p = choose|p: int| 0 <= p < list.len() && list[p] == v;
                                if p < i {
                                    assert(self.member_list()[p] == v);
                                } else if p > i {
                                    assert(self.member_list()[p - 1] == v);
                                } else {
                                    assert(list[i as int] == node_id@);
                                }
                                assert(self.member_list().contains(v));
                            }
                        }
                    }
                    return true;
                }
                i += 1;
            }
            proof {
                // The hash held the node, so the list does too; the scan
                // cannot have missed it.
                assert(old(self).member_list().contains(node_id@));
                let j = choose|j: int|
                    0 <= j < old(self).member_list().len() && old(self).member_list()[j]
                        == node_id@;
                assert(self.member_list()[j] != node_id@);
                assert(false);
            }
            true
        } else {
            false
        }
    }

    /// The keys held here whose owner is some other node.
    pub fn get_keys_to_migrate(&self) -> (keys: Vec<String>)
        requires
            self.wf(),
        ensures
            forall|m: int|
                0 <= m < keys@.len() ==> self.contents().contains_key(#[trigger] id_views(keys@)[m])
                    && self.key_should_migrate(id_views(keys@)[m]),
            forall|k: Seq<char>|
                self.contents().contains_key(k) && self.key_should_migrate(k) ==> id_views(
                    keys@,
                ).contains(k),
            forall|m1: int, m2: int|
                0 <= m1 < m2 < keys@.len() ==> id_views(keys@)[m1] != id_views(keys@)[m2],
    {
        let n = self.data.len();
        let mut keys: Vec<String> = Vec::new();
        let mut i: usize = 0;
        while i < n
            invariant
                self.wf(),
                i <= n,
                n == self.data.entry_seq().len(),
                forall|m: int|
                    0 <= m < keys@.len() ==> exists|j: int|
                        0 <= j < i && (#[trigger] self.data.entry_seq()[j]).0 == #[trigger] id_views(
                            keys@,
                        )[m],
                forall|m: int|
                    0 <= m < keys@.len() ==> self.key_should_migrate(#[trigger] id_views(keys@)[m]),
                forall|j: int|
                    0 <= j < i && self.key_should_migrate(#[trigger] self.data.entry_seq()[j].0)
                        ==> id_views(keys@).contains(self.data.entry_seq()[j].0),
                forall|m1: int, m2: int|
                    0 <= m1 < m2 < keys@.len() ==> id_views(keys@)[m1] != id_views(keys@)[m2],
            decreases n - i,
        {
            let key = self.data.key_at(i);
            let migrate = match self.node_id_from_data_key(key) {
                Some(owner) => !(owner == self.id),
                None => false,
            };
            proof {
                assert(migrate == self.key_should_migrate(self.data.entry_seq()[i as int].0));
                self.data.lemma_keys_unique();
            }
            if migrate {
                let ghost kviews = id_views(keys@);
                proof {
                    if kviews.contains(self.data.entry_seq()[i as int].0) {
                        let m = choose|m: int|
                            0 <= m < kviews.len() && kviews[m] == self.data.entry_seq()[
                                i as int
                            ].0;
                        assert(kviews[m] == id_views(keys@)[m]);
                        let j = choose|j: int|
                            0 <= j < i && (#[trigger] self.data.entry_seq()[j]).0 == id_views(
                                keys@,
                            )[m];
                        assert(false);
                    }
                }
                keys.push(key.clone());
                proof {
                    assert(id_views(keys@) =~= kviews.push(self.data.entry_seq()[i as int].0));
                    assert forall|m: int| 0 <= m < keys@.len() implies exists|j: int|
                        0 <= j < i + 1 && (#[trigger] self.data.entry_seq()[j]).0
                            == #[trigger] id_views(keys@)[m] by {
                        if m < kviews.len() {
                            let j = choose|j: int|
                                0 <= j < i && (#[trigger] self.data.entry_seq()[j]).0 == kviews[m];
                            assert(self.data.entry_seq()[j].0 == id_views(keys@)[m]);
                        } else {
                            assert(self.data.entry_seq()[i as int].0 == id_views(keys@)[m]);
                        }
                    }
                    assert forall|v: Seq<char>| kviews.contains(v) implies id_views(
                        keys@,
                    ).contains(v) by {
                        let m = choose|m: int| 0 <= m < kviews.len() && kviews[m] == v;
                        assert(id_views(keys@)[m] == v);
                    }
                    assert(id_views(keys@).contains(self.data.entry_seq()[i as int].0)) by {
                        assert(id_views(keys@)[kviews.len() as int] == self.data.entry_seq()[
                            i as int
                        ].0);
                    }
                }
            }
            i += 1;
        }
        proof {
            assert forall|k: Seq<char>|
                self.contents().contains_key(k) && self.key_should_migrate(k) implies id_views(
                keys@,
            ).contains(k) by {
                self.data.lemma_contents_entry(k);
                let j = choose|j: int|
                    0 <= j < self.data.entry_seq().len() && self.data.entry_seq()[j].0 == k
                        && self.data.entry_seq()[j].1 == self.contents()[k];
                assert(self.key_should_migrate(self.data.entry_seq()[j].0));
            }
            assert forall|m: int|
                0 <= m < keys@.len() implies self.contents().contains_key(
                #[trigger] id_views(keys@)[m],
            ) by {
                let j = choose|j: int|
                    0 <= j < i && (#[trigger] self.data.entry_seq()[j]).0 == id_views(keys@)[m];
                self.data.lemma_entry_contents(j);
            }
        }
        keys
    }

    /// The key/value pairs held here whose owner is some other node: the
    /// batch a migration ships out.
    pub fn get_data_to_migrate(&self) -> (pairs: Vec<(String, String)>)
        requires
            self.wf(),
        ensures
            forall|m: int|
                0 <= m < pairs@.len() ==> {
                    let p = #[trigger] entry_views(pairs@)[m];
                    &&& self.contents().contains_key(p.0)
                    &&& self.contents()[p.0] == p.1
                    &&& self.key_should_migrate(p.0)
                },
            forall|k: Seq<char>|
                self.contents().contains_key(k) && self.key_should_migrate(k) ==> exists|m: int|
                    0 <= m < pairs@.len() && #[trigger] entry_views(pairs@)[m].0 == k,
            forall|m1: int, m2: int|
                0 <= m1 < m2 < pairs@.len() ==> entry_views(pairs@)[m1].0 != entry_views(
                    pairs@,
                )[m2].0,
    {
        let keys = self.get_keys_to_migrate();
        let nkeys = keys.len();
        let mut pairs: Vec<(String, String)> = Vec::new();
        let mut i: usize = 0;
        while i < nkeys
            invariant
                self.wf(),
                i <= nkeys,
                nkeys == keys@.len(),
                pairs@.len() == i,
                forall|m: int|
                    0 <= m < keys@.len() ==> self.contents().contains_key(
                        #[trigger] id_views(keys@)[m],
                    ) && self.key_should_migrate(id_views(keys@)[m]),
                forall|m: int|
                    0 <= m < i ==> #[trigger] entry_views(pairs@)[m] == (
                        id_views(keys@)[m],
                        self.contents()[id_views(keys@)[m]],
                    ),
                forall|m1: int, m2: int|
                    0 <= m1 < m2 < keys@.len() ==> id_views(keys@)[m1] != id_views(keys@)[m2],
            decreases nkeys - i,
        {
            let key = &keys[i];
            let value = match self.data.get(key) {
                Some(v) => v.clone(),
                None => String::new(),
            };
            let ghost pviews = entry_views(pairs@);
            pairs.push((key.clone(), value));
            proof {
                assert(entry_views(pairs@) =~= pviews.push((key@, value@)));
            }
            i += 1;
        }
        proof {
            assert forall|k: Seq<char>|
                self.contents().contains_key(k) && self.key_should_migrate(k) implies exists|
                m: int,
            |
                0 <= m < pairs@.len() && #[trigger] entry_views(pairs@)[m].0 == k by {
                assert(id_views(keys@).contains(k));
                let m = choose|m: int| 0 <= m < id_views(keys@).len() && id_views(keys@)[m] == k;
                assert(entry_views(pairs@)[m].0 == k);
            }
        }
        pairs
    }

    /// The other members: everyone this node would broadcast an event to,
    /// each exactly once, in membership order.
    pub fn peer_ids(&self) -> (v: Vec<String>)
        requires
            self.wf(),
        ensures
            id_views(v@) == others_of(self.member_list(), self.spec_id()),
            forall|m: int|
                0 <= m < v@.len() ==> self.member_set().contains(#[trigger] id_views(v@)[m])
                    && id_views(v@)[m] != self.spec_id(),
            forall|k: Seq<char>|
                self.member_set().contains(k) && k != self.spec_id() ==> id_views(v@).contains(k),
            forall|m1: int, m2: int|
                0 <= m1 < m2 < v@.len() ==> id_views(v@)[m1] != id_views(v@)[m2],
    {
        let n = self.all_nodes.len();
        let mut v: Vec<String> = Vec::new();
        let mut i: usize = 0;
        proof {
            assert(self.member_list().take(0) =~= Seq::<Seq<char>>::empty());
            assert(id_views(v@) =~= Seq::<Seq<char>>::empty());
        }
        while i < n
            invariant
                self.wf(),
                i <= n,
                n == self.member_list().len(),
                id_views(v@) == others_of(self.member_list().take(i as int), self.spec_id()),
            decreases n - i,
        {
            let ghost prefix = self.member_list().take(i as int);
            let ghost elem = self.member_list()[i as int];
            proof {
                assert(self.member_list().take(i + 1) =~= prefix.push(elem));
                lemma_others_of_push(prefix, elem, self.spec_id());
            }
            let member = &self.all_nodes[i];
            if !(*member == self.id) {
                let ghost vviews = id_views(v@);
                v.push(member.clone());
                proof {
                    assert(id_views(v@) =~= vviews.push(elem));
                    assert(id_views(v@) =~= others_of(self.member_list().take(i + 1), self.spec_id()));
                }
            } else {
                proof {
                    assert(id_views(v@) + Seq::<Seq<char>>::empty() =~= id_views(v@));
                }
            }
            i += 1;
        }
        proof {
            assert(self.member_list().take(n as int) =~= self.member_list());
            lemma_others_of_facts(self.member_list(), self.spec_id());
            assert forall|m: int|
                0 <= m < v@.len() implies self.member_set().contains(#[trigger] id_views(v@)[m])
                && id_views(v@)[m] != self.spec_id() by {
                assert(self.member_list().contains(id_views(v@)[m]));
            }
        }
        v
    }

    /// The key/value pairs held here that `target` owns under the current
    /// placement, each key once.
    pub fn pairs_owned_by(&self, target: &String) -> (pairs: Vec<(String, String)>)
        requires
            self.wf(),
        ensures
            forall|m: int|
                0 <= m < pairs@.len() ==> {
                    let p = #[trigger] entry_views(pairs@)[m];
                    &&& self.contents().contains_key(p.0)
                    &&& self.contents()[p.0] == p.1
                    &&& self.owner_of(p.0) == Some(target@)
                },
            forall|k: Seq<char>|
                self.contents().contains_key(k) && self.owner_of(k) == Some(target@)
                    ==> pairs_have_key(entry_views(pairs@), k),
            forall|m1: int, m2: int|
                0 <= m1 < m2 < pairs@.len() ==> (#[trigger] entry_views(pairs@)[m1]).0 != (
                #[trigger] entry_views(pairs@)[m2]).0,
    {
        let n = self.data.len();
        let mut pairs: Vec<(String, String)> = Vec::new();
        let mut i: usize = 0;
        while i < n
            invariant
                self.wf(),
                i <= n,
                n == self.data.entry_seq().len(),
                forall|m: int|
                    #![trigger entry_views(pairs@)[m]]
                    0 <= m < pairs@.len() ==> exists|j: int|
                        0 <= j < i && (#[trigger] self.data.entry_seq()[j]) == entry_views(
                            pairs@,
                        )[m],
                forall|m: int|
                    0 <= m < pairs@.len() ==> {
                        let p = #[trigger] entry_views(pairs@)[m];
                        &&& self.contents().contains_key(p.0)
                        &&& self.contents()[p.0] == p.1
                        &&& self.owner_of(p.0) == Some(target@)
                    },
                forall|j: int|
                    0 <= j < i && self.owner_of(
                        (#[trigger] self.data.entry_seq()[j]).0,
                    ) == Some(target@) ==> pairs_have_key(
                        entry_views(pairs@),
                        self.data.entry_seq()[j].0,
                    ),
                forall|m1: int, m2: int|
                    0 <= m1 < m2 < pairs@.len() ==> (#[trigger] entry_views(pairs@)[m1]).0 != (
                    #[trigger] entry_views(pairs@)[m2]).0,
            decreases n - i,
        {
            let key = self.data.key_at(i);
            let owned = match self.node_id_from_data_key(key) {
                Some(owner) => owner == *target,
                None => false,
            };
            proof {
                self.data.lemma_keys_unique();
                self.data.lemma_entry_contents(i as int);
                assert(owned == (self.owner_of(self.data.entry_seq()[i as int].0) == Some(
                    target@,
                )));
            }
            if owned {
                let ghost pviews = entry_views(pairs@);
                proof {
                    // The key at entry i cannot already be in the batch:
                    // it would have had to come from an earlier entry with
                    // the same key.
                    assert forall|m: int|
                        0 <= m < pviews.len() implies (#[trigger] pviews[m]).0
                        != self.data.entry_seq()[i as int].0 by {
                        let j = choose|j: int|
                            0 <= j < i && (#[trigger] self.data.entry_seq()[j]) == pviews[m];
                    }
                }
                let value = match self.data.get(key) {
                    Some(v) => v.clone(),
                    None => String::new(),
                };
                pairs.push((key.clone(), value));
                proof {
                    assert(entry_views(pairs@) =~= pviews.push(self.data.entry_seq()[i as int]));
                    assert forall|m: int|
                        #![trigger entry_views(pairs@)[m]]
                        0 <= m < pairs@.len() implies exists|j: int|
                        0 <= j < i + 1 && (#[trigger] self.data.entry_seq()[j]) == entry_views(
                            pairs@,
                        )[m] by {
                        if m < pviews.len() {
                            let j = choose|j: int|
                                0 <= j < i && (#[trigger] self.data.entry_seq()[j]) == pviews[m];
                            assert(self.data.entry_seq()[j] == entry_views(pairs@)[m]);
                        } else {
                            assert(self.data.entry_seq()[i as int] == entry_views(pairs@)[m]);
                        }
                    }
                    assert forall|k: Seq<char>| pairs_have_key(pviews, k) implies pairs_have_key(
                        entry_views(pairs@),
                        k,
                    ) by {
                        let m = choose|m: int|
                            0 <= m < pviews.len() && (#[trigger] pviews[m]).0 == k;
                        assert((entry_views(pairs@)[m]).0 == k);
                    }
                    assert((entry_views(pairs@)[pviews.len() as int]).0 == self.data.entry_seq()[
                        i as int
                    ].0);
                    assert(pairs_have_key(
                        entry_views(pairs@),
                        self.data.entry_seq()[i as int].0,
                    ));
                }
            }
            i += 1;
        }
        proof {
            assert forall|k: Seq<char>|
                self.contents().contains_key(k) && self.owner_of(k) == Some(
                    target@,
                ) implies pairs_have_key(entry_views(pairs@), k) by {
                self.data.lemma_contents_entry(k);
                let j = choose|j: int|
                    0 <= j < self.data.entry_seq().len() && self.data.entry_seq()[j].0 == k
                        && self.data.entry_seq()[j].1 == self.contents()[k];
                assert(self.owner_of((self.data.entry_seq()[j]).0) == Some(target@));
            }
        }
        pairs
    }

    /// The owners, other than this node, of keys held here: where a
    /// migration must deliver data after a membership change.
    pub fn migration_targets(&self) -> (ts: Vec<String>)
        requires
            self.wf(),
        ensures
            forall|m: int|
                0 <= m < ts@.len() ==> #[trigger] id_views(ts@)[m] != self.spec_id(),
            forall|k: Seq<char>|
                #![trigger self.owner_of(k)]
                self.contents().contains_key(k) && self.key_should_migrate(k) ==> id_views(
                    ts@,
                ).contains(self.owner_of(k)->0),
            forall|m1: int, m2: int|
                0 <= m1 < m2 < ts@.len() ==> id_views(ts@)[m1] != id_views(ts@)[m2],
    {
        let n = self.data.len();
        let mut ts: Vec<String> = Vec::new();
        let mut i: usize = 0;
        while i < n
            invariant
                self.wf(),
                i <= n,
                n == self.data.entry_seq().len(),
                forall|m: int|
                    0 <= m < ts@.len() ==> #[trigger] id_views(ts@)[m] != self.spec_id(),
                forall|j: int|
                    #![trigger self.data.entry_seq()[j]]
                    0 <= j < i && self.key_should_migrate(self.data.entry_seq()[j].0)
                        ==> id_views(ts@).contains(self.owner_of(self.data.entry_seq()[j].0)->0),
                forall|m1: int, m2: int|
                    0 <= m1 < m2 < ts@.len() ==> id_views(ts@)[m1] != id_views(ts@)[m2],
            decreases n - i,
        {
            let key = self.data.key_at(i);
            match self.node_id_from_data_key(key) {
                Some(owner) => {
                    if !(owner == self.id) {
                        let mut seen = false;
                        let t = ts.len();
                        let mut m: usize = 0;
                        while m < t
                            invariant
                                m <= t,
                                t == ts@.len(),
                                seen ==> id_views(ts@).contains(owner@),
                                !seen ==> forall|m2: int|
                                    0 <= m2 < m ==> #[trigger] id_views(ts@)[m2] != owner@,
                            decreases t - m,
                        {
                            if ts[m] == owner {
                                proof {
                                    assert(id_views(ts@)[m as int] == owner@);
                                }
                                seen = true;
                            }
                            m += 1;
                        }
                        if !seen {
                            let ghost tviews = id_views(ts@);
                            ts.push(owner);
                            proof {
                                assert(id_views(ts@) =~= tviews.push(
                                    self.owner_of(self.data.entry_seq()[i as int].0)->0,
                                ));
                                assert forall|v2: Seq<char>| tviews.contains(v2) implies id_views(
                                    ts@,
                                ).contains(v2) by {
                                    let m2 = choose|m2: int|
                                        0 <= m2 < tviews.len() && tviews[m2] == v2;
                                    assert(id_views(ts@)[m2] == v2);
                                }
                                assert(id_views(ts@)[tviews.len() as int] == self.owner_of(
                                    self.data.entry_seq()[i as int].0,
                                )->0);
                                assert(id_views(ts@).contains(self.owner_of(
                                    self.data.entry_seq()[i as int].0,
                                )->0));
                            }
                        }
                    }
                },
                None => {},
            }
            i += 1;
        }
        proof {
            assert forall|k: Seq<char>|
                self.contents().contains_key(k) && self.key_should_migrate(k) implies id_views(
                ts@,
            ).contains(#[trigger] self.owner_of(k)->0) by {
                self.data.lemma_contents_entry(k);
                let j = choose|j: int|
                    0 <= j < self.data.entry_seq().len() && self.data.entry_seq()[j].0 == k
                        && self.data.entry_seq()[j].1 == self.contents()[k];
                assert(self.key_should_migrate(self.data.entry_seq()[j].0));
            }
        }
        ts
    }

    /// Drops every key whose owner is some other node: what the sender does
    /// once the receiver has acknowledged the whole batch, keeping each key
    /// on exactly one node.
    pub fn remove_migrated_data(&mut self)
        requires
            old(self).wf(),
        ensures
            final(self).wf(),
            Node::only_store_changed(*old(self), *final(self)),
            final(self).contents() =~= Map::<Seq<char>, Seq<char>>::new(
                |k: Seq<char>|
                    old(self).contents().contains_key(k) && !old(self).key_should_migrate(k),
                |k: Seq<char>| old(self).contents()[k],
            ),
    {
        let keys = self.get_keys_to_migrate();
        let nkeys = keys.len();
        let mut i: usize = 0;
        while i < nkeys
            invariant
                old(self).wf(),
                self.wf(),
                Node::only_store_changed(*old(self), *self),
                i <= nkeys,
                nkeys == keys@.len(),
                forall|m: int|
                    0 <= m < keys@.len() ==> old(self).contents().contains_key(
                        #[trigger] id_views(keys@)[m],
                    ) && old(self).key_should_migrate(id_views(keys@)[m]),
                forall|k: Seq<char>|
                    old(self).contents().contains_key(k) && old(self).key_should_migrate(k)
                        ==> id_views(keys@).contains(k),
                self.contents() =~= old(self).contents().remove_keys(
                    id_views(keys@).take(i as int).to_set(),
                ),
            decreases nkeys - i,
        {
            let ghost pre = self.contents();
            let _ = self.data.remove(&keys[i]);
            proof {
                assert(id_views(keys@).take(i + 1) =~= id_views(keys@).take(i as int).push(
                    id_views(keys@)[i as int],
                ));
                lemma_push_to_set(id_views(keys@).take(i as int), id_views(keys@)[i as int]);
                assert(self.contents() =~= pre.remove(id_views(keys@)[i as int]));
                assert(self.contents() =~= old(self).contents().remove_keys(
                    id_views(keys@).take(i + 1).to_set(),
                ));
            }
            i += 1;
        }
        proof {
            assert(id_views(keys@).take(nkeys as int) =~= id_views(keys@));
            assert(self.contents() =~= Map::<Seq<char>, Seq<char>>::new(
                |k: Seq<char>|
                    old(self).contents().contains_key(k) && !old(self).key_should_migrate(k),
                |k: Seq<char>| old(self).contents()[k],
            ));
        }
    }

    /// The hasher seed this node's placement uses.
    pub fn current_seed(&self) -> (r: u128)
        ensures
            r == self.seed(),
    {
        self.hash.current_seed()
    }

    /// The known members, in the order they were learned of.
    pub fn all_nodes(&self) -> (v: Vec<String>)
        ensures
            id_views(v@) == self.member_list(),
    {
        let v = self.all_nodes.clone();
        proof {
            assert(id_views(v@) =~= self.member_list());
        }
        v
    }

    /// How many keys this node's shard holds.
    pub fn size(&self) -> (n: usize)
        requires
            self.wf(),
        ensures
            n == self.contents().dom().len(),
            n == self.store_len(),
    {
        let n = self.data.len();
        proof {
            self.lemma_store_len();
        }
        n
    }

    /// The number of entries in the shard store.
    pub open(crate) spec fn store_len(self) -> nat {
        self.data.entry_seq().len()
    }

    proof fn lemma_store_len(self)
        requires
            self.wf(),
        ensures
            self.contents().dom().len() == self.data.entry_seq().len(),
    {
        self.data.lemma_dom_len();
    }
}

} // verus!
