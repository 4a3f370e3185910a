//! The manager lifecycle: one per node.  It owns the node's placement,
//! shard and membership, assembles the node from wasm chunks, decides when
//! to scale up, and drives membership gossip and data migration.
//!
//! The host platform performs the outside work — creating a child node,
//! installing code on it, and delivering calls.  Every method here is a
//! step of the state machine from plain values to plain values: the caller
//! performs the returned orders (create, install, send, broadcast) and
//! reports their outcomes back through the matching `on_*` step.

use vstd::prelude::*;

use crate::codec::{
    chunk_encoding, chunks_of, decode_chunk, encode_batch_chunks, MIGRATION_CHUNK_SIZE,
};
use crate::node::{others_of, pairs_have_key, Node};
use crate::order::id_views;
use crate::placement::ANCHOR_CAPACITY;
use crate::store::entry_views;

verus! {

/// The fault classes a node can record on its status.
#[derive(Clone, Debug)]
pub enum NodeError {
    Migration(String),
    ScaleUp(String),
    Initialize(String),
    Broadcast(String),
}

/// The lifecycle status of a node.
#[derive(Clone, Debug)]
pub enum NodeStatus {
    Initialized,
    Ready,
    Error(NodeError),
    ShutDown,
    Migrating,
    ScaleUp,
    ScaleDown,
}

/// One chunk of a node's code image, delivered in order: position 0 starts
/// the buffer, 1 appends, 2 appends and completes it.
pub struct WasmInitArgs {
    pub position: usize,
    pub wasm_chunk: Vec<u8>,
}

/// The membership a freshly provisioned node is told about.
pub struct InstallArgs {
    pub all_nodes: Vec<String>,
}

pub struct InitCanisterManagerParam {
    pub args: Option<InstallArgs>,
}

/// One encoded batch of migrating key/value pairs.
pub struct MigrateArgs {
    pub data: Vec<u8>,
}

/// A message on the membership-and-migration bus.
pub enum CanisterManagerEvent {
    NodeCreated(String),
    NodeDeleted(String),
    Migrate(MigrateArgs),
}

/// What a node answers about itself.
pub struct NodeInfo {
    pub all_nodes: Vec<String>,
    pub current_memory_usage: u64,
    pub status: NodeStatus,
}

/// An event the caller must send to every listed recipient.
pub struct BroadcastOrder {
    pub event: CanisterManagerEvent,
    pub recipients: Vec<String>,
}

/// Everything the caller needs to install and initialize a created child.
pub struct ChildSetup {
    pub wasm_binary: Vec<u8>,
    pub all_nodes: Vec<String>,
}

/// Encoded migration chunks the caller must deliver, in order, to one
/// target node.
pub struct OutboundMigration {
    pub target: String,
    pub chunks: Vec<Vec<u8>>,
}

/// What the caller must do after an event was handled.
pub enum EventAction {
    Nothing,
    Deliver { migrations: Vec<OutboundMigration>, rebroadcast: Option<BroadcastOrder> },
}

/// Whether `a` and `b` are the same status with the same message text.
pub open spec fn status_matches(a: NodeStatus, b: NodeStatus) -> bool {
    match (a, b) {
        (NodeStatus::Initialized, NodeStatus::Initialized) => true,
        (NodeStatus::Ready, NodeStatus::Ready) => true,
        (NodeStatus::ShutDown, NodeStatus::ShutDown) => true,
        (NodeStatus::Migrating, NodeStatus::Migrating) => true,
        (NodeStatus::ScaleUp, NodeStatus::ScaleUp) => true,
        (NodeStatus::ScaleDown, NodeStatus::ScaleDown) => true,
        (NodeStatus::Error(e1), NodeStatus::Error(e2)) => match (e1, e2) {
            (NodeError::Migration(m1), NodeError::Migration(m2)) => m1@ == m2@,
            (NodeError::ScaleUp(m1), NodeError::ScaleUp(m2)) => m1@ == m2@,
            (NodeError::Initialize(m1), NodeError::Initialize(m2)) => m1@ == m2@,
            (NodeError::Broadcast(m1), NodeError::Broadcast(m2)) => m1@ == m2@,
            _ => false,
        },
        _ => false,
    }
}

/// `m` with every pair of `ps` written into it, in order (later pairs win).
pub open spec fn insert_all(
    m: Map<Seq<char>, Seq<char>>,
    ps: Seq<(Seq<char>, Seq<char>)>,
) -> Map<Seq<char>, Seq<char>>
    decreases ps.len(),
{
    if ps.len() == 0 {
        m
    } else {
        insert_all(m, ps.drop_last()).insert(ps.last().0, ps.last().1)
    }
}

/// Looking up a batched key after `insert_all`: with pairwise distinct
/// keys, the batch's own value is found.
pub proof fn lemma_insert_all_found(
    m: Map<Seq<char>, Seq<char>>,
    ps: Seq<(Seq<char>, Seq<char>)>,
    i: int,
)
    requires
        0 <= i < ps.len(),
        forall|p: int, q: int| 0 <= p < q < ps.len() ==> (#[trigger] ps[p]).0 != (#[trigger] ps[q]).0,
    ensures
        insert_all(m, ps).contains_key(ps[i].0),
        insert_all(m, ps)[ps[i].0] == ps[i].1,
    decreases ps.len(),
{
    if i == ps.len() - 1 {
    } else {
        assert(ps.drop_last()[i] == ps[i]);
        lemma_insert_all_found(m, ps.drop_last(), i);
        assert(ps.last().0 != ps[i].0);
    }
}

/// Looking up an unbatched key after `insert_all`: the earlier binding,
/// or none, is untouched.
pub proof fn lemma_insert_all_missing(
    m: Map<Seq<char>, Seq<char>>,
    ps: Seq<(Seq<char>, Seq<char>)>,
    k: Seq<char>,
)
    requires
        !pairs_have_key(ps, k),
    ensures
        insert_all(m, ps).contains_key(k) == m.contains_key(k),
        m.contains_key(k) ==> insert_all(m, ps)[k] == m[k],
    decreases ps.len(),
{
    if ps.len() > 0 {
        assert(!pairs_have_key(ps.drop_last(), k)) by {
            if pairs_have_key(ps.drop_last(), k) {
                let p = choose|p: int|
                    0 <= p < ps.drop_last().len() && (#[trigger] ps.drop_last()[p]).0 == k;
                assert(ps[p].0 == k);
            }
        }
        lemma_insert_all_missing(m, ps.drop_last(), k);
        assert(ps[ps.len() - 1].0 != k);
    }
}

/// No loss and no duplication across a migration: once the sender keeps
/// only the keys it owns and the receiver has stored the shipped batch, a
/// key the sender held lives on exactly one of the two, with the value
/// the sender held for it.
pub proof fn lemma_migration_no_loss_no_duplication(
    n: Node,
    receiver: Map<Seq<char>, Seq<char>>,
    target: Seq<char>,
    ps: Seq<(Seq<char>, Seq<char>)>,
    k: Seq<char>,
)
    requires
        owned_batch(n, target, ps),
        target != n.spec_id(),
        !receiver.contains_key(k),
        n.contents().contains_key(k),
        n.owner_of(k) == Some(n.spec_id()) || n.owner_of(k) == Some(target),
    ensures
        ({
            let sender_after = Map::<Seq<char>, Seq<char>>::new(
                |k2: Seq<char>| n.contents().contains_key(k2) && !n.key_should_migrate(k2),
                |k2: Seq<char>| n.contents()[k2],
            );
            let receiver_after = insert_all(receiver, ps);
            &&& (sender_after.contains_key(k) <==> n.owner_of(k) == Some(n.spec_id()))
            &&& (receiver_after.contains_key(k) <==> n.owner_of(k) == Some(target))
            &&& (sender_after.contains_key(k) ==> sender_after[k] == n.contents()[k])
            &&& (receiver_after.contains_key(k) ==> receiver_after[k] == n.contents()[k])
            &&& !(sender_after.contains_key(k) && receiver_after.contains_key(k))
        }),
{
    if n.owner_of(k) == Some(n.spec_id()) {
        // The key stays: it is not in the batch, so the receiver ignores it.
        assert(!pairs_have_key(ps, k)) by {
            if pairs_have_key(ps, k) {
                let p = choose|p: int| 0 <= p < ps.len() && (#[trigger] ps[p]).0 == k;
                assert(n.owner_of(ps[p].0) == Some(target));
            }
        }
        lemma_insert_all_missing(receiver, ps, k);
    } else {
        // The key leaves: the batch carries it with the sender's value.
        assert(n.key_should_migrate(k));
        assert(pairs_have_key(ps, k));
        let p = choose|p: int| 0 <= p < ps.len() && (#[trigger] ps[p]).0 == k;
        lemma_insert_all_found(receiver, ps, p);
        assert(ps[p].1 == n.contents()[k]);
    }
}

/// `ps` is exactly the batch of pairs of `n` that `target` owns, each key
/// once.
pub open spec fn owned_batch(n: Node, target: Seq<char>, ps: Seq<(Seq<char>, Seq<char>)>) -> bool {
    &&& forall|m: int|
        0 <= m < ps.len() ==> {
            let p = #[trigger] ps[m];
            &&& n.contents().contains_key(p.0)
            &&& n.contents()[p.0] == p.1
            &&& n.owner_of(p.0) == Some(target)
        }
    &&& forall|k: Seq<char>|
        n.contents().contains_key(k) && n.owner_of(k) == Some(target) ==> pairs_have_key(ps, k)
    &&& forall|p: int, q: int| 0 <= p < q < ps.len() ==> (#[trigger] ps[p]).0 != (#[trigger] ps[q]).0
}

/// `chunks` is the chunked wire form of some batch of `n`'s pairs that
/// `target` owns — what one outbound migration carries.
pub open spec fn chunked_batch_for(n: Node, target: Seq<char>, chunks: Seq<Vec<u8>>) -> bool {
    exists|ps: Seq<(Seq<char>, Seq<char>)>|
        owned_batch(n, target, ps) && #[trigger] encodes_batch(chunks, ps)
}

/// `chunks` is the chunked wire form of the batch `ps`.
pub open spec fn encodes_batch(chunks: Seq<Vec<u8>>, ps: Seq<(Seq<char>, Seq<char>)>) -> bool {
    &&& chunks.len() == chunks_of(ps, MIGRATION_CHUNK_SIZE as int).len()
    &&& forall|c: int|
        0 <= c < chunks.len() ==> (#[trigger] chunks[c])@ == chunk_encoding(
            chunks_of(ps, MIGRATION_CHUNK_SIZE as int)[c],
        )
}

/// The manager of one node of the fabric.
pub struct CanisterManager<F: Fn(usize) -> bool> {
    pub(crate) status: NodeStatus,
    pub canister: Node,
    pub(crate) wasm_binary: Option<Vec<u8>>,
    pub(crate) scale_up_policy: F,
}

impl<F: Fn(usize) -> bool> CanisterManager<F> {
    pub open(crate) spec fn status_spec(self) -> NodeStatus {
        self.status
    }

    pub open(crate) spec fn node(self) -> Node {
        self.canister
    }

    pub open(crate) spec fn wasm_spec(self) -> Option<Seq<u8>> {
        match self.wasm_binary {
            Some(b) => Some(b@),
            None => None,
        }
    }

    pub open(crate) spec fn policy(self) -> F {
        self.scale_up_policy
    }

    pub open(crate) spec fn wf(self) -> bool {
        &&& self.canister.wf()
        &&& forall|sz: usize| #[trigger] call_requires(self.scale_up_policy, (sz,))
        &&& (self.status matches NodeStatus::Ready || self.status matches NodeStatus::ScaleUp
            || self.status matches NodeStatus::Migrating) ==> self.wasm_binary is Some
    }

    /// A fresh manager: a single-member fabric of this node, awaiting its
    /// code image.  `should_scale_up` is consulted with the store size on
    /// every heartbeat once the node is ready.
    pub fn new(node_id: String, should_scale_up: F, seed: u128) -> (s: Self)
        requires
            forall|sz: usize| #[trigger] call_requires(should_scale_up, (sz,)),
        ensures
            s.wf(),
            s.status_spec() matches NodeStatus::Initialized,
            s.node().spec_id() == node_id@,
            s.node().seed() == seed,
            s.node().member_set() == Set::<Seq<char>>::empty().insert(node_id@),
            s.node().contents() == Map::<Seq<char>, Seq<char>>::empty(),
            s.node().spec_next() is None,
            s.node().spec_prev() is None,
            s.wasm_spec() is None,
    {
        let empty: Vec<String> = Vec::new();
        let mut canister = Node::with_seed(node_id.clone(), empty, seed);
        proof {
            assert(id_views(Seq::<String>::empty()) =~= Seq::<Seq<char>>::empty());
            assert(canister.member_set() =~= Set::<Seq<char>>::empty());
        }
        let added = canister.add_node(node_id);
        assert(added);
        CanisterManager {
            status: NodeStatus::Initialized,
            canister,
            wasm_binary: None,
            scale_up_policy: should_scale_up,
        }
    }

    pub fn get_status(&self) -> (r: &NodeStatus)
        ensures
            r == self.status_spec(),
    {
        &self.status
    }

    /// Whether this node should grow the fabric now: it is ready, has no
    /// successor yet, and the configured load predicate fires on the
    /// current store size.
    pub fn should_scale_up(&self) -> (r: bool)
        requires
            self.wf(),
        ensures
            exists|p: bool|
                {
                    &&& #[trigger] call_ensures(self.policy(), (self.node().store_len() as usize,), p)
                    &&& r == (p && self.node().spec_next() is None && self.status_spec()
                        matches NodeStatus::Ready)
                },
    {
        let size = self.canister.size();
        let p = (self.scale_up_policy)(size);
        let next_free = match &self.canister.next_node_id {
            Some(_) => false,
            None => true,
        };
        let ready = match &self.status {
            NodeStatus::Ready => true,
            _ => false,
        };
        let r = p && next_free && ready;
        proof {
            assert(size == self.node().store_len() as usize);
            assert(call_ensures(self.policy(), (size,), p));
            assert(next_free == (self.node().spec_next() is None));
            assert(ready == (self.status_spec() matches NodeStatus::Ready));
        }
        r
    }

    /// Scale-down is deliberately disabled: shrinking the fabric without a
    /// correct hand-off protocol would orphan keys.
    pub fn should_scale_down(&self) -> (r: bool)
        ensures
            r == false,
    {
        false
    }

    /// Accepts one chunk of the code image.  Position 0 starts a fresh
    /// buffer, 1 appends, 2 appends and makes the node ready.  Appending
    /// without a started buffer, or an unknown position, returns false and
    /// changes nothing.
    pub fn lifecycle_init_wasm(&mut self, args: WasmInitArgs) -> (r: bool)
        requires
            old(self).wf(),
        ensures
            final(self).wf(),
            final(self).node() == old(self).node(),
            final(self).policy() == old(self).policy(),
            r == (args.position == 0 || (args.position == 1 || args.position == 2) && old(self).wasm_spec() is Some),
            args.position == 0 ==> final(self).wasm_spec() == Some(args.wasm_chunk@)
                && final(self).status_spec() == old(self).status_spec(),
            args.position == 1 && old(self).wasm_spec() is Some ==> final(self).wasm_spec()
                == Some(old(self).wasm_spec()->0 + args.wasm_chunk@) && final(self).status_spec()
                == old(self).status_spec(),
            args.position == 2 && old(self).wasm_spec() is Some ==> final(self).wasm_spec()
                == Some(old(self).wasm_spec()->0 + args.wasm_chunk@) && final(self).status_spec()
                matches NodeStatus::Ready,
            !r ==> *final(self) == *old(self),
    {
        match args.position {
            0 => {
                self.wasm_binary = Some(args.wasm_chunk);
                true
            },
            1 | 2 => match self.wasm_binary.as_mut() {
                Some(wasm_binary) => {
                    let mut chunk = args.wasm_chunk;
                    wasm_binary.append(&mut chunk);
                    if args.position == 2 {
                        self.status = NodeStatus::Ready;
                    }
                    true
                },
                None => false,
            },
            _ => false,
        }
    }

    /// Adopts the membership a provisioning parent hands a fresh node:
    /// the given nodes, in their order, then this node; the parent is the
    /// last of them.  Returns the `NodeCreated` announcement to broadcast.
    /// With no membership given the node stays a single-member fabric.
    /// A list beyond the placement's capacity is refused: the node records
    /// an initialization error and keeps its state.
    pub fn lifecyle_init_node(&mut self, all_nodes: Option<Vec<String>>) -> (r: Option<
        BroadcastOrder,
    >)
        requires
            old(self).wf(),
        ensures
            final(self).wf(),
            final(self).policy() == old(self).policy(),
            final(self).wasm_spec() == old(self).wasm_spec(),
            final(self).node().spec_id() == old(self).node().spec_id(),
            final(self).node().seed() == old(self).node().seed(),
            r is Some ==> {
                &&& final(self).node().contents() == Map::<Seq<char>, Seq<char>>::empty()
                &&& final(self).node().member_set().contains(final(self).node().spec_id())
                &&& final(self).status_spec() == old(self).status_spec()
                &&& (match r->0.event {
                    CanisterManagerEvent::NodeCreated(x) => x@ == final(self).node().spec_id(),
                    _ => false,
                })
            },
            r is Some && all_nodes is Some ==> {
                let given = id_views(all_nodes->0@);
                &&& final(self).node().member_set() == given.to_set().insert(
                    final(self).node().spec_id(),
                )
                &&& (given.len() > 0 ==> final(self).node().spec_prev() == Some(
                    all_nodes->0@.last(),
                ))
            },
            r is Some && all_nodes is None ==> final(self).node().member_set() == Set::<
                Seq<char>,
            >::empty().insert(final(self).node().spec_id()) && final(self).node().spec_prev()
                is None,
            (r is Some) <==> (all_nodes is None || all_nodes->0@.len() < ANCHOR_CAPACITY),
            r is Some ==> final(self).node().spec_next() is None,
            r is Some ==> id_views(r->0.recipients@) == others_of(
                final(self).node().member_list(),
                final(self).node().spec_id(),
            ),
            r is Some ==> {
                &&& forall|m: int|
                    0 <= m < r->0.recipients@.len() ==> final(self).node().member_set().contains(
                        #[trigger] id_views(r->0.recipients@)[m],
                    ) && id_views(r->0.recipients@)[m] != final(self).node().spec_id()
                &&& forall|k: Seq<char>|
                    final(self).node().member_set().contains(k) && k != final(self).node().spec_id() ==> id_views(r->0.recipients@).contains(k)
            },
            r is Some ==> match all_nodes {
                Some(given) => (id_views(given@).no_duplicates() && !id_views(given@).contains(
                    final(self).node().spec_id(),
                )) ==> final(self).node().member_list() == id_views(given@).push(
                    final(self).node().spec_id(),
                ),
                None => final(self).node().member_list() == Seq::<Seq<char>>::empty().push(
                    final(self).node().spec_id(),
                ),
            },
            r is None ==> (final(self).status_spec() matches NodeStatus::Error(
                NodeError::Initialize(_),
            )) && final(self).node() == old(self).node(),
    {
        let seed = self.canister.current_seed();
        match all_nodes {
            Some(given) => {
                if given.len() >= ANCHOR_CAPACITY {
                    self.status = NodeStatus::Error(
                        NodeError::Initialize("membership exceeds placement capacity".to_owned()),
                    );
                    return None;
                }
                let prev = if given.len() > 0 {
                    Some(given[given.len() - 1].clone())
                } else {
                    None
                };
                let node_id = self.canister.id.clone();
                let ghost given_views = id_views(given@);
                let mut member_list = given;
                member_list.push(node_id.clone());
                proof {
                    assert(id_views(member_list@) =~= given_views.push(node_id@));
                    crate::order::lemma_push_to_set(given_views, node_id@);
                    if given_views.no_duplicates() && !given_views.contains(node_id@) {
                        assert forall|p: int, q: int|
                            0 <= p < id_views(member_list@).len() && 0 <= q < id_views(
                                member_list@,
                            ).len() && p != q implies id_views(member_list@)[p] != id_views(
                            member_list@,
                        )[q] by {
                            if p < given_views.len() && q < given_views.len() {
                            } else if p < given_views.len() {
                                assert(given_views[p] == id_views(member_list@)[p]);
                                if id_views(member_list@)[p] == node_id@ {
                                    assert(given_views.contains(node_id@));
                                }
                            } else if q < given_views.len() {
                                assert(given_views[q] == id_views(member_list@)[q]);
                                if id_views(member_list@)[q] == node_id@ {
                                    assert(given_views.contains(node_id@));
                                }
                            }
                        }
                        assert(id_views(member_list@).no_duplicates());
                    }
                }
                let mut fresh = Node::with_seed(node_id, member_list, seed);
                fresh.prev_node_id = prev;
                self.canister = fresh;
                let event = CanisterManagerEvent::NodeCreated(self.canister.id.clone());
                let recipients = self.canister.peer_ids();
                Some(BroadcastOrder { event, recipients })
            },
            None => {
                let node_id = self.canister.id.clone();
                let mut single: Vec<String> = Vec::new();
                single.push(node_id.clone());
                proof {
                    assert(id_views(single@) =~= Seq::<Seq<char>>::empty().push(node_id@));
                    crate::order::lemma_push_to_set(Seq::<Seq<char>>::empty(), node_id@);
                    assert(Seq::<Seq<char>>::empty().to_set() =~= Set::<Seq<char>>::empty());
                    assert(id_views(single@).no_duplicates());
                }
                let fresh = Node::with_seed(node_id, single, seed);
                self.canister = fresh;
                let event = CanisterManagerEvent::NodeCreated(self.canister.id.clone());
                let recipients = self.canister.peer_ids();
                Some(BroadcastOrder { event, recipients })
            },
        }
    }

    /// One heartbeat tick: if the node should scale up, it enters the
    /// `ScaleUp` state and orders a child node created; otherwise nothing
    /// happens.
    pub fn lifecyle_heartbeat_node(&mut self) -> (r: bool)
        requires
            old(self).wf(),
        ensures
            final(self).wf(),
            final(self).policy() == old(self).policy(),
            final(self).node() == old(self).node(),
            final(self).wasm_spec() == old(self).wasm_spec(),
            exists|p: bool|
                {
                    &&& #[trigger] call_ensures(
                        old(self).policy(),
                        (old(self).node().store_len() as usize,),
                        p,
                    )
                    &&& r == (p && old(self).node().spec_next() is None && old(self).status_spec()
                        matches NodeStatus::Ready)
                },
            r ==> final(self).status_spec() matches NodeStatus::ScaleUp,
            !r ==> *final(self) == *old(self),
    {
        if self.should_scale_up() {
            self.status = NodeStatus::ScaleUp;
            true
        } else {
            false
        }
    }

    /// The host could not create a child node: record the fault.
    pub fn on_create_node_failed(&mut self)
        requires
            old(self).wf(),
        ensures
            final(self).wf(),
            final(self).policy() == old(self).policy(),
            final(self).node() == old(self).node(),
            final(self).wasm_spec() == old(self).wasm_spec(),
            final(self).status_spec() matches NodeStatus::Error(NodeError::ScaleUp(m)) && m@
                == "Failed to create node"@,
    {
        self.status = NodeStatus::Error(NodeError::ScaleUp("Failed to create node".to_owned()));
    }

    /// The host created the child: admit it to the placement and the
    /// membership, and hand back what its installation needs — the code
    /// image and the membership including the child.  `None` only when the
    /// placement has no room or the code image is missing; the fault is
    /// recorded.
    pub fn on_child_created(&mut self, child_id: &String) -> (r: Option<ChildSetup>)
        requires
            old(self).wf(),
            old(self).status_spec() matches NodeStatus::ScaleUp,
        ensures
            final(self).wf(),
            final(self).policy() == old(self).policy(),
            final(self).wasm_spec() == old(self).wasm_spec(),
            final(self).node().contents() == old(self).node().contents(),
            final(self).node().spec_id() == old(self).node().spec_id(),
            final(self).node().seed() == old(self).node().seed(),
            (r is Some) <==> (!old(self).node().member_set().contains(child_id@) && old(self).node().member_set().len() < ANCHOR_CAPACITY),
            final(self).node().spec_next() == old(self).node().spec_next(),
            final(self).node().spec_prev() == old(self).node().spec_prev(),
            r is Some ==> {
                &&& !old(self).node().member_set().contains(child_id@)
                &&& final(self).node().member_set() == old(self).node().member_set().insert(
                    child_id@,
                )
                &&& Some(r->0.wasm_binary@) == old(self).wasm_spec()
                &&& id_views(r->0.all_nodes@) == final(self).node().member_list()
                &&& final(self).status_spec() == old(self).status_spec()
            },
            r is None ==> final(self).node() == old(self).node() && final(self).status_spec()
                matches NodeStatus::Error(_),
    {
        let added = self.canister.add_node(child_id.clone());
        if !added {
            self.status = NodeStatus::Error(
                NodeError::ScaleUp("cannot admit the created node".to_owned()),
            );
            return None;
        }
        let wasm_binary = match &self.wasm_binary {
            Some(b) => b.clone(),
            None => {
                proof {
                    assert(false);
                }
                Vec::new()
            },
        };
        let all_nodes = self.canister.all_nodes();
        Some(ChildSetup { wasm_binary, all_nodes })
    }

    /// Installing or initializing the child failed: evict it again and
    /// record the fault.
    pub fn on_initialize_failed(&mut self, child_id: &String)
        requires
            old(self).wf(),
        ensures
            final(self).wf(),
            final(self).policy() == old(self).policy(),
            final(self).wasm_spec() == old(self).wasm_spec(),
            final(self).node().contents() == old(self).node().contents(),
            final(self).node().spec_id() == old(self).node().spec_id(),
            final(self).node().seed() == old(self).node().seed(),
            final(self).node().member_set() == old(self).node().member_set().remove(child_id@),
            final(self).node().spec_next() == old(self).node().spec_next(),
            final(self).node().spec_prev() == old(self).node().spec_prev(),
            !old(self).node().member_set().contains(child_id@) ==> final(self).node() == old(self).node(),
            old(self).node().member_set().contains(child_id@) ==> exists|j: int|
                0 <= j < old(self).node().member_list().len() && old(self).node().member_list()[j]
                    == child_id@ && final(self).node().member_list() == old(
                    self,
                ).node().member_list().remove(j),
            final(self).status_spec() matches NodeStatus::Error(NodeError::Initialize(m)) && m@
                == child_id@,
    {
        let removed = self.canister.remove_node(child_id);
        proof {
            if !removed {
                assert(old(self).node().member_set().remove(child_id@) =~= old(self).node().member_set());
            }
        }
        self.status = NodeStatus::Error(NodeError::Initialize(child_id.clone()));
    }

    /// The child runs and knows the membership: enter `Migrating` and hand
    /// back every locally held pair that now belongs elsewhere, packaged
    /// per owner.  Admitting the child can reassign keys not only to the
    /// child but also between pre-existing members (see the placement
    /// module doc), so each batch is addressed to the key's actual owner:
    /// completeness of the packaging is what lets `on_migration_complete`
    /// drop every misplaced key without losing one.
    pub fn on_child_initialized(&mut self) -> (ms: Vec<OutboundMigration>)
        requires
            old(self).wf(),
            old(self).status_spec() matches NodeStatus::ScaleUp,
        ensures
            final(self).wf(),
            final(self).policy() == old(self).policy(),
            final(self).wasm_spec() == old(self).wasm_spec(),
            final(self).node() == old(self).node(),
            final(self).status_spec() matches NodeStatus::Migrating,
            Self::migrations_sound(final(self).node(), ms@),
            Self::migrations_complete(final(self).node(), ms@),
    {
        let migrations = self.build_migrations();
        self.status = NodeStatus::Migrating;
        migrations
    }

    /// Delivering the migration to the child failed: evict it again and
    /// record the fault.
    pub fn on_migration_failed(&mut self, child_id: &String)
        requires
            old(self).wf(),
        ensures
            final(self).wf(),
            final(self).policy() == old(self).policy(),
            final(self).wasm_spec() == old(self).wasm_spec(),
            final(self).node().contents() == old(self).node().contents(),
            final(self).node().spec_id() == old(self).node().spec_id(),
            final(self).node().member_set() == old(self).node().member_set().remove(child_id@),
            final(self).node().spec_next() == old(self).node().spec_next(),
            final(self).node().spec_prev() == old(self).node().spec_prev(),
            !old(self).node().member_set().contains(child_id@) ==> final(self).node() == old(self).node(),
            old(self).node().member_set().contains(child_id@) ==> exists|j: int|
                0 <= j < old(self).node().member_list().len() && old(self).node().member_list()[j]
                    == child_id@ && final(self).node().member_list() == old(
                    self,
                ).node().member_list().remove(j),
            final(self).status_spec() matches NodeStatus::Error(NodeError::Migration(m)) && m@
                == child_id@,
    {
        let removed = self.canister.remove_node(child_id);
        proof {
            if !removed {
                assert(old(self).node().member_set().remove(child_id@) =~= old(self).node().member_set());
            }
        }
        self.status = NodeStatus::Error(NodeError::Migration(child_id.clone()));
    }

    /// Every outbound batch was acknowledged by its target: drop the
    /// migrated keys — each key then lives on exactly one node — record
    /// the child as successor, return to `Ready`, and announce the child
    /// to the other members.
    pub fn on_migration_complete(&mut self, child_id: String) -> (r: BroadcastOrder)
        requires
            old(self).wf(),
            old(self).status_spec() matches NodeStatus::Migrating,
        ensures
            final(self).wf(),
            final(self).policy() == old(self).policy(),
            final(self).wasm_spec() == old(self).wasm_spec(),
            final(self).node().spec_id() == old(self).node().spec_id(),
            final(self).node().seed() == old(self).node().seed(),
            final(self).node().member_set() == old(self).node().member_set(),
            final(self).node().spec_next() == Some(child_id),
            final(self).status_spec() matches NodeStatus::Ready,
            final(self).node().contents() =~= Map::<Seq<char>, Seq<char>>::new(
                |k: Seq<char>|
                    old(self).node().contents().contains_key(k) && !old(self).node().key_should_migrate(k),
                |k: Seq<char>| old(self).node().contents()[k],
            ),
            match r.event {
                CanisterManagerEvent::NodeCreated(x) => x@ == child_id@,
                _ => false,
            },
            id_views(r.recipients@) == others_of(
                final(self).node().member_list(),
                final(self).node().spec_id(),
            ),
            forall|m: int|
                0 <= m < r.recipients@.len() ==> final(self).node().member_set().contains(
                    #[trigger] id_views(r.recipients@)[m],
                ) && id_views(r.recipients@)[m] != final(self).node().spec_id(),
    {
        self.canister.remove_migrated_data();
        proof {
            Node::lemma_only_store_changed(old(self).node(), self.canister);
        }
        self.canister.next_node_id = Some(child_id.clone());
        self.status = NodeStatus::Ready;
        let recipients = self.canister.peer_ids();
        BroadcastOrder { event: CanisterManagerEvent::NodeCreated(child_id), recipients }
    }

    /// Decodes one migration chunk and writes every carried pair into the
    /// local store, unconditionally.  On bytes that encode a batch this
    /// succeeds and stores exactly that batch; on undecodable bytes it
    /// records a migration fault and stores nothing.
    pub fn handle_migrate(&mut self, args: MigrateArgs) -> (r: bool)
        requires
            old(self).wf(),
        ensures
            final(self).wf(),
            final(self).policy() == old(self).policy(),
            final(self).wasm_spec() == old(self).wasm_spec(),
            final(self).node().spec_id() == old(self).node().spec_id(),
            final(self).node().seed() == old(self).node().seed(),
            final(self).node().member_set() == old(self).node().member_set(),
            final(self).node().member_list() == old(self).node().member_list(),
            forall|ps: Seq<(Seq<char>, Seq<char>)>|
                args.data@ == #[trigger] chunk_encoding(ps) ==> (r && final(self).node().contents()
                    == insert_all(old(self).node().contents(), ps)),
            r ==> final(self).status_spec() == old(self).status_spec() && exists|
                ps: Seq<(Seq<char>, Seq<char>)>,
            |
                final(self).node().contents() == insert_all(
                    #[trigger] old(self).node().contents(),
                    ps,
                ),
            !r ==> final(self).node() == old(self).node() && (final(self).status_spec()
                matches NodeStatus::Error(NodeError::Migration(m)) && m@
                == "Failed to handle migrate data to node"@),
    {
        match decode_chunk(&args.data) {
            Ok(pairs) => {
                let n = pairs.len();
                let mut i: usize = 0;
                while i < n
                    invariant
                        self.wf(),
                        i <= n,
                        n == pairs@.len(),
                        Node::only_store_changed(old(self).canister, self.canister),
                        self.status == old(self).status,
                        self.wasm_binary == old(self).wasm_binary,
                        self.scale_up_policy == old(self).scale_up_policy,
                        self.canister.contents() == insert_all(
                            old(self).canister.contents(),
                            entry_views(pairs@).take(i as int),
                        ),
                    decreases n - i,
                {
                    let pair = &pairs[i];
                    let ghost sofar = entry_views(pairs@).take(i as int);
                    self.canister.insert_data(pair.0.clone(), pair.1.clone());
                    proof {
                        assert(entry_views(pairs@).take(i + 1) =~= sofar.push(
                            entry_views(pairs@)[i as int],
                        ));
                        assert(entry_views(pairs@).take(i + 1).drop_last() =~= sofar);
                        assert(self.canister.contents() == insert_all(
                            old(self).canister.contents(),
                            entry_views(pairs@).take(i + 1),
                        ));
                    }
                    i += 1;
                }
                proof {
                    assert(entry_views(pairs@).take(n as int) =~= entry_views(pairs@));
                    Node::lemma_only_store_changed(old(self).canister, self.canister);
                }
                true
            },
            Err(_) => {
                self.status = NodeStatus::Error(
                    NodeError::Migration("Failed to handle migrate data to node".to_owned()),
                );
                false
            },
        }
    }

    /// Gossip and data plane in one entry point.  A `NodeCreated` or
    /// `NodeDeleted` about this node itself is ignored, which terminates
    /// the gossip.  About another node, the membership and placement are
    /// updated (idempotently), every locally held pair that now belongs
    /// elsewhere is packaged for its current owner, and the event is
    /// rebroadcast — only when it taught this node something new.  A
    /// `Migrate` chunk is decoded and stored.
    pub fn lifecycle_handle_event(&mut self, event: CanisterManagerEvent) -> (r: EventAction)
        requires
            old(self).wf(),
        ensures
            final(self).wf(),
            final(self).policy() == old(self).policy(),
            final(self).wasm_spec() == old(self).wasm_spec(),
            final(self).node().spec_id() == old(self).node().spec_id(),
            final(self).node().seed() == old(self).node().seed(),
            match event {
                CanisterManagerEvent::NodeCreated(x) => x@ == old(self).node().spec_id() ==> (
                *final(self) == *old(self) && r is Nothing),
                CanisterManagerEvent::NodeDeleted(x) => x@ == old(self).node().spec_id() ==> (
                *final(self) == *old(self) && r is Nothing),
                CanisterManagerEvent::Migrate(_) => true,
            },
            match event {
                CanisterManagerEvent::NodeCreated(x) => x@ != old(self).node().spec_id() ==> {
                    &&& final(self).node().contents() == old(self).node().contents()
                    &&& (old(self).node().member_set().contains(x@) ==> final(self).node().member_set() == old(self).node().member_set())
                    &&& (!old(self).node().member_set().contains(x@) && old(self).node().member_set().len() < ANCHOR_CAPACITY ==> final(self).node().member_set() == old(self).node().member_set().insert(x@))
                    &&& (r matches EventAction::Deliver { migrations, rebroadcast } ==> {
                        &&& Self::migrations_sound(final(self).node(), migrations@)
                        &&& Self::migrations_complete(final(self).node(), migrations@)
                        &&& (rebroadcast is Some <==> (!old(self).node().member_set().contains(x@)
                            && old(self).node().member_set().len() < ANCHOR_CAPACITY))
                    })
                },
                CanisterManagerEvent::NodeDeleted(x) => x@ != old(self).node().spec_id() ==> {
                    &&& final(self).node().contents() == old(self).node().contents()
                    &&& final(self).node().member_set() == old(self).node().member_set().remove(
                        x@,
                    )
                    &&& (r matches EventAction::Deliver { migrations, rebroadcast } ==> {
                        &&& Self::migrations_sound(final(self).node(), migrations@)
                        &&& Self::migrations_complete(final(self).node(), migrations@)
                        &&& (rebroadcast is Some <==> old(self).node().member_set().contains(x@))
                    })
                },
                CanisterManagerEvent::Migrate(_) => final(self).node().member_set() == old(self).node().member_set(),
            },
            match event {
                CanisterManagerEvent::NodeCreated(x) => x@ != old(self).node().spec_id() ==> {
                    &&& r matches EventAction::Deliver { .. }
                    &&& final(self).status_spec() == old(self).status_spec()
                    &&& (r matches EventAction::Deliver { migrations: _, rebroadcast } ==> (
                    rebroadcast matches Some(bo) ==> {
                        &&& id_views(bo.recipients@) == others_of(
                            final(self).node().member_list(),
                            final(self).node().spec_id(),
                        )
                        &&& (bo.event matches CanisterManagerEvent::NodeCreated(y) && y@ == x@)
                    }))
                },
                CanisterManagerEvent::NodeDeleted(x) => x@ != old(self).node().spec_id() ==> {
                    &&& r matches EventAction::Deliver { .. }
                    &&& final(self).status_spec() == old(self).status_spec()
                    &&& (r matches EventAction::Deliver { migrations: _, rebroadcast } ==> (
                    rebroadcast matches Some(bo) ==> {
                        &&& id_views(bo.recipients@) == others_of(
                            final(self).node().member_list(),
                            final(self).node().spec_id(),
                        )
                        &&& (bo.event matches CanisterManagerEvent::NodeDeleted(y) && y@ == x@)
                    }))
                },
                CanisterManagerEvent::Migrate(margs) => {
                    &&& r is Nothing
                    &&& forall|ps: Seq<(Seq<char>, Seq<char>)>|
                        margs.data@ == #[trigger] chunk_encoding(ps) ==> final(self).node().contents() == insert_all(old(self).node().contents(), ps) && final(self).status_spec() == old(self).status_spec()
                    &&& (final(self).status_spec() == old(self).status_spec() || (final(self).node()
                        == old(self).node() && (final(self).status_spec()
                        matches NodeStatus::Error(NodeError::Migration(m)) && m@
                        == "Failed to handle migrate data to node"@)))
                },
            },
    {
        match event {
            CanisterManagerEvent::NodeCreated(node_id) => {
                if node_id == self.canister.id {
                    EventAction::Nothing
                } else {
                    let added = self.canister.add_node(node_id.clone());
                    let migrations = self.build_migrations();
                    let rebroadcast = if added {
                        let recipients = self.canister.peer_ids();
                        Some(
                            BroadcastOrder {
                                event: CanisterManagerEvent::NodeCreated(node_id),
                                recipients,
                            },
                        )
                    } else {
                        None
                    };
                    EventAction::Deliver { migrations, rebroadcast }
                }
            },
            CanisterManagerEvent::NodeDeleted(node_id) => {
                if node_id == self.canister.id {
                    EventAction::Nothing
                } else {
                    let removed = self.canister.remove_node(&node_id);
                    let migrations = self.build_migrations();
                    let rebroadcast = if removed {
                        let recipients = self.canister.peer_ids();
                        Some(
                            BroadcastOrder {
                                event: CanisterManagerEvent::NodeDeleted(node_id),
                                recipients,
                            },
                        )
                    } else {
                        None
                    };
                    EventAction::Deliver { migrations, rebroadcast }
                }
            },
            CanisterManagerEvent::Migrate(migrate_args) => {
                let _ = self.handle_migrate(migrate_args);
                EventAction::Nothing
            },
        }
    }

    /// Every packaged batch goes to a node that owns exactly those pairs.
    pub open spec fn migrations_sound(n: Node, ms: Seq<OutboundMigration>) -> bool {
        forall|g: int|
            0 <= g < ms.len() ==> {
                let m = #[trigger] ms[g];
                &&& m.target@ != n.spec_id()
                &&& chunked_batch_for(n, m.target@, m.chunks@)
            }
    }

    /// Every pair that must leave this node is packaged for its owner.
    pub open spec fn migrations_complete(n: Node, ms: Seq<OutboundMigration>) -> bool {
        forall|k: Seq<char>|
            #![trigger n.owner_of(k)]
            n.contents().contains_key(k) && n.key_should_migrate(k) ==> exists|g: int|
                0 <= g < ms.len() && (#[trigger] ms[g]).target@ == n.owner_of(k)->0
    }

    /// Packages, per owner, every locally held pair that belongs to some
    /// other node.
    fn build_migrations(&self) -> (ms: Vec<OutboundMigration>)
        requires
            self.wf(),
        ensures
            Self::migrations_sound(self.node(), ms@),
            Self::migrations_complete(self.node(), ms@),
    {
        let targets = self.canister.migration_targets();
        let tn = targets.len();
        let mut migrations: Vec<OutboundMigration> = Vec::new();
        let mut g: usize = 0;
        while g < tn
            invariant
                self.wf(),
                g <= tn,
                tn == targets@.len(),
                forall|m: int|
                    0 <= m < targets@.len() ==> #[trigger] id_views(targets@)[m]
                        != self.canister.spec_id(),
                forall|k: Seq<char>|
                    #![trigger self.canister.owner_of(k)]
                    self.canister.contents().contains_key(k) && self.canister.key_should_migrate(
                        k,
                    ) ==> id_views(targets@).contains(self.canister.owner_of(k)->0),
                migrations@.len() == g,
                forall|m: int|
                    0 <= m < g ==> (#[trigger] migrations@[m]).target@ == id_views(targets@)[m],
                Self::migrations_sound(self.canister, migrations@),
            decreases tn - g,
        {
            let target = targets[g].clone();
            let pairs = self.canister.pairs_owned_by(&target);
            let chunks = encode_batch_chunks(&pairs);
            let ghost before = migrations@;
            migrations.push(OutboundMigration { target, chunks });
            proof {
                assert(migrations@ =~= before.push(migrations@.last()));
                assert(owned_batch(self.canister, id_views(targets@)[g as int], entry_views(
                    pairs@,
                )));
                assert forall|m: int|
                    0 <= m < migrations@.len() implies {
                    let mg = #[trigger] migrations@[m];
                    &&& mg.target@ != self.canister.spec_id()
                    &&& chunked_batch_for(self.canister, mg.target@, mg.chunks@)
                } by {
                    if m < before.len() {
                        assert(migrations@[m] == before[m]);
                    } else {
                        assert(migrations@[m].target@ == id_views(targets@)[g as int]);
                        assert(encodes_batch(migrations@[m].chunks@, entry_views(pairs@)));
                        assert(chunked_batch_for(
                            self.canister,
                            migrations@[m].target@,
                            migrations@[m].chunks@,
                        ));
                    }
                }
            }
            g += 1;
        }
        proof {
            assert forall|k: Seq<char>|
                self.canister.contents().contains_key(k) && self.canister.key_should_migrate(
                    k,
                ) implies exists|gg: int|
                0 <= gg < migrations@.len() && (#[trigger] migrations@[gg]).target@
                    == self.canister.owner_of(k)->0 by {
                assert(id_views(targets@).contains(self.canister.owner_of(k)->0));
                let m = choose|m: int|
                    0 <= m < id_views(targets@).len() && id_views(targets@)[m]
                        == self.canister.owner_of(k)->0;
                assert(migrations@[m].target@ == self.canister.owner_of(k)->0);
            }
        }
        migrations
    }

    /// After every outbound migration was acknowledged: drop the migrated
    /// keys, so that each key lives on exactly one node.
    pub fn on_migrations_delivered(&mut self)
        requires
            old(self).wf(),
        ensures
            final(self).wf(),
            final(self).policy() == old(self).policy(),
            final(self).wasm_spec() == old(self).wasm_spec(),
            final(self).status_spec() == old(self).status_spec(),
            final(self).node().spec_id() == old(self).node().spec_id(),
            final(self).node().seed() == old(self).node().seed(),
            final(self).node().member_set() == old(self).node().member_set(),
            final(self).node().contents() =~= Map::<Seq<char>, Seq<char>>::new(
                |k: Seq<char>|
                    old(self).node().contents().contains_key(k) && !old(self).node().key_should_migrate(k),
                |k: Seq<char>| old(self).node().contents()[k],
            ),
    {
        self.canister.remove_migrated_data();
        proof {
            Node::lemma_only_store_changed(old(self).node(), self.canister);
        }
    }

    /// A broadcast call to `recipient` failed: record it.
    pub fn on_broadcast_failed(&mut self, recipient: &String)
        requires
            old(self).wf(),
        ensures
            final(self).wf(),
            final(self).policy() == old(self).policy(),
            final(self).wasm_spec() == old(self).wasm_spec(),
            final(self).node() == old(self).node(),
            final(self).status_spec() matches NodeStatus::Error(NodeError::Broadcast(m)) && m@
                == recipient@,
    {
        self.status = NodeStatus::Error(NodeError::Broadcast(recipient.clone()));
    }

    /// What this node reports about itself.
    pub fn node_info(&self) -> (info: NodeInfo)
        requires
            self.wf(),
        ensures
            id_views(info.all_nodes@) == self.node().member_list(),
            info.current_memory_usage == 0,
            status_matches(info.status, self.status_spec()),
    {
        let status = match &self.status {
            NodeStatus::Initialized => NodeStatus::Initialized,
            NodeStatus::Ready => NodeStatus::Ready,
            NodeStatus::ShutDown => NodeStatus::ShutDown,
            NodeStatus::Migrating => NodeStatus::Migrating,
            NodeStatus::ScaleUp => NodeStatus::ScaleUp,
            NodeStatus::ScaleDown => NodeStatus::ScaleDown,
            NodeStatus::Error(e) => NodeStatus::Error(
                match e {
                    NodeError::Migration(m) => NodeError::Migration(m.clone()),
                    NodeError::ScaleUp(m) => NodeError::ScaleUp(m.clone()),
                    NodeError::Initialize(m) => NodeError::Initialize(m.clone()),
                    NodeError::Broadcast(m) => NodeError::Broadcast(m.clone()),
                },
            ),
        };
        NodeInfo {
            all_nodes: self.canister.all_nodes(),
            current_memory_usage: 0,
            status,
        }
    }
}

} // verus!
