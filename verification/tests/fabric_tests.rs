use scaled_storage::codec::{decode_chunk, encode_chunk};
use scaled_storage::node::{Node, NodeResult};
use scaled_storage::node_manager::{CanisterManager, MigrateArgs, NodeStatus, WasmInitArgs};

const DEMO_SEED: u128 = 1;

fn no_scaling(_size: usize) -> bool {
    false
}

// Single-node placement: with one member, every key resolves to it.
#[test]
fn single_node_placement() {
    let _ = no_scaling;
    let mut node = Node::with_seed("N1".to_string(), vec!["N1".to_string()], DEMO_SEED);
    for id in 1..15 {
        let key = format!("data_key_{}", id);
        assert_eq!(node.node_id_from_data_key(&key), Some("N1".to_string()));
    }
    // and writes land locally
    let res = node.with_upsert_data_mut("data_key_1".to_string(), |d: String| (d.clone(), d));
    assert!(matches!(res, NodeResult::Result(Some(_))));
}

// Two-node distribution: both members own a reasonable share.
#[test]
fn two_node_distribution() {
    let mut node = Node::with_seed("N1".to_string(), vec!["N1".to_string()], DEMO_SEED);
    node.add_node("N2".to_string());
    let mut n1_count: usize = 0;
    let mut n2_count: usize = 0;
    for id in 1..15 {
        let key = format!("data_key_{}", id);
        match node.node_id_from_data_key(&key) {
            Some(owner) if owner == "N1" => n1_count += 1,
            Some(owner) if owner == "N2" => n2_count += 1,
            other => panic!("unexpected owner {:?}", other),
        }
    }
    assert!(n1_count >= 4, "N1 owns only {} of 14 keys", n1_count);
    assert!(n2_count >= 4, "N2 owns only {} of 14 keys", n2_count);
}

// Order independence: two managers that learned the same members in
// different orders agree on every owner.
#[test]
fn order_independence() {
    let mut a = Node::with_seed("A".to_string(), Vec::new(), DEMO_SEED);
    a.add_node("A".to_string());
    a.add_node("B".to_string());

    let mut b = Node::with_seed("B".to_string(), Vec::new(), DEMO_SEED);
    b.add_node("B".to_string());
    b.add_node("A".to_string());

    for id in 1..100 {
        let key = format!("data_key_{}", id);
        assert_eq!(a.node_id_from_data_key(&key), b.node_id_from_data_key(&key));
    }
}

// Uniformity: over 1000 keys and n members, each member owns roughly its
// fair share.
#[test]
fn uniform_distribution() {
    for n in [2usize, 4, 8] {
        let mut node = Node::with_seed("member_0".to_string(), Vec::new(), DEMO_SEED);
        for m in 0..n {
            node.add_node(format!("member_{}", m));
        }
        let mut counts = vec![0usize; n];
        for id in 0..1000 {
            let key = format!("data_key_{}", id);
            let owner = node.node_id_from_data_key(&key).unwrap();
            let idx: usize = owner.trim_start_matches("member_").parse().unwrap();
            counts[idx] += 1;
        }
        let fair = 1000 / n;
        for (idx, &c) in counts.iter().enumerate() {
            assert!(
                c >= fair / 2 && c <= fair * 2,
                "member_{} of {} owns {} keys (fair share {})",
                idx,
                n,
                c,
                fair
            );
        }
    }
}

// Migration after join: a newly added member is owed a share of the
// resident keys, and exactly those keys are scheduled to leave.
#[test]
fn migration_after_join() {
    let mut x = Node::with_seed("X".to_string(), vec!["X".to_string()], DEMO_SEED);
    for id in 0..10 {
        x.with_upsert_data_mut(format!("data_key_{}", id), |d: String| (d + "v", ()));
    }
    assert_eq!(x.size(), 10);

    x.add_node("Y".to_string());
    let keys = x.get_keys_to_migrate();
    assert!(
        keys.len() >= 4 && keys.len() <= 7,
        "{} keys scheduled to migrate",
        keys.len()
    );
    for key in &keys {
        assert_eq!(x.node_id_from_data_key(key), Some("Y".to_string()));
    }
}

// Eviction after leave: a node that left the membership must hand every
// remaining key to the surviving member.
#[test]
fn eviction_after_leave() {
    let mut x = Node::with_seed("X".to_string(), Vec::new(), DEMO_SEED);
    x.add_node("X".to_string());
    x.add_node("Y".to_string());
    let mut y = Node::with_seed("Y".to_string(), Vec::new(), DEMO_SEED);
    y.add_node("X".to_string());
    y.add_node("Y".to_string());

    for id in 0..10 {
        let key = format!("data_key_{}", id);
        x.with_upsert_data_mut(key.clone(), |d: String| (d + "v", ()))
            .or_forward_unwrap(|_owner| {
                y.with_upsert_data_mut(key.clone(), |d: String| (d + "v", ()));
                Some(())
            });
    }
    assert_eq!(x.size() + y.size(), 10);
    assert!(y.size() > 0);

    y.remove_node(&"Y".to_string());
    let keys = y.get_keys_to_migrate();
    assert_eq!(keys.len(), y.size());
    for key in &keys {
        assert_eq!(y.node_id_from_data_key(key), Some("X".to_string()));
    }
}

// Minimal disruption holds when the joining node sorts last in the
// canonical member order: keys either keep their owner or move to the
// newcomer; no pre-existing node gains keys.
#[test]
fn minimal_disruption_on_last_sorting_join() {
    let mut before = Node::with_seed("A".to_string(), Vec::new(), DEMO_SEED);
    before.add_node("A".to_string());
    before.add_node("B".to_string());

    let mut after = Node::with_seed("A".to_string(), Vec::new(), DEMO_SEED);
    after.add_node("A".to_string());
    after.add_node("B".to_string());
    after.add_node("C".to_string());

    let mut moved: usize = 0;
    for id in 0..200 {
        let key = format!("data_key_{}", id);
        let old_owner = before.node_id_from_data_key(&key).unwrap();
        let new_owner = after.node_id_from_data_key(&key).unwrap();
        if new_owner != old_owner {
            assert_eq!(new_owner, "C".to_string(), "key {} moved between old members", key);
            moved += 1;
        }
    }
    assert!(moved > 0, "the newcomer received no keys at all");
}

// A joiner that sorts into the middle of the canonical order trades
// minimal disruption for order independence: the newcomer gains keys, but
// keys may also move between pre-existing members (see the placement
// module doc).  Ownership stays well-defined for every key throughout.
#[test]
fn mid_sorting_join_disrupts_more_but_stays_sound() {
    let mut before = Node::with_seed("A".to_string(), Vec::new(), DEMO_SEED);
    before.add_node("A".to_string());
    before.add_node("C".to_string());

    let mut after = Node::with_seed("A".to_string(), Vec::new(), DEMO_SEED);
    after.add_node("A".to_string());
    after.add_node("C".to_string());
    after.add_node("B".to_string());

    let mut moved_to_newcomer: usize = 0;
    let mut moved_between_old: usize = 0;
    for id in 0..200 {
        let key = format!("data_key_{}", id);
        let old_owner = before.node_id_from_data_key(&key).unwrap();
        let new_owner = after.node_id_from_data_key(&key).unwrap();
        assert!(new_owner == "A" || new_owner == "B" || new_owner == "C");
        if new_owner != old_owner {
            if new_owner == "B" {
                moved_to_newcomer += 1;
            } else {
                moved_between_old += 1;
            }
        }
    }
    assert!(moved_to_newcomer > 0, "the newcomer received no keys at all");
    // The documented deviation: such a join also moves keys between the
    // pre-existing members.
    assert!(
        moved_between_old > 0,
        "expected the mid-sorting join to move keys between old members"
    );
}

// A large batch is carried in chunks of at most 100 pairs that decode back
// to the batch, in order.
#[test]
fn batch_chunking_bounds() {
    let mut pairs: Vec<(String, String)> = Vec::new();
    for i in 0..250 {
        pairs.push((format!("key_{}", i), format!("value_{}", i)));
    }
    let chunks = scaled_storage::codec::encode_batch_chunks(&pairs);
    assert_eq!(chunks.len(), 3);

    let mut reassembled: Vec<(String, String)> = Vec::new();
    for chunk in &chunks {
        let mut part = decode_chunk(chunk).unwrap();
        assert!(1 <= part.len() && part.len() <= 100);
        reassembled.append(&mut part);
    }
    assert_eq!(reassembled, pairs);
}

// The wire codec round-trips a batch exactly.
#[test]
fn codec_round_trip() {
    let pairs = vec![
        ("alpha".to_string(), "1".to_string()),
        ("beta".to_string(), "2".to_string()),
        ("gamma".to_string(), "".to_string()),
    ];
    let bytes = encode_chunk(&pairs);
    assert!(!bytes.is_empty());
    let decoded = decode_chunk(&bytes).unwrap();
    assert_eq!(pairs, decoded);

    // Garbage does not decode.
    assert!(decode_chunk(&vec![0xde, 0xad, 0xbe, 0xef]).is_err());
}

fn threshold_policy(size: usize) -> bool {
    size > 2
}

// The full scale-up flow, with the host simulated by the test: create a
// child, install it, migrate, and afterwards every key is readable from
// either node in one forwarding hop and lives on exactly one node.
#[test]
fn three_records_scale_up_round_trip() {
    let mut parent = CanisterManager::new(
        "parent".to_string(),
        threshold_policy as fn(usize) -> bool,
        DEMO_SEED,
    );
    parent.lifecycle_init_wasm(WasmInitArgs { position: 0, wasm_chunk: vec![42] });
    parent.lifecycle_init_wasm(WasmInitArgs { position: 2, wasm_chunk: vec![43] });

    let mut written: Vec<(String, String)> = Vec::new();
    for id in 0..10 {
        let key = format!("data_key_{}", id);
        let value = format!("value_{}", id);
        written.push((key.clone(), value.clone()));
        let res = parent
            .canister
            .with_upsert_data_mut(key, move |_d: String| (value.clone(), ()));
        assert!(matches!(res, NodeResult::Result(Some(()))));
    }

    // Heartbeat decides to grow.
    assert!(parent.lifecyle_heartbeat_node());
    assert!(matches!(parent.get_status(), NodeStatus::ScaleUp));

    // The simulated host creates the child node.
    let setup = parent.on_child_created(&"child".to_string()).unwrap();
    assert_eq!(setup.wasm_binary, vec![42, 43]);
    assert_eq!(
        setup.all_nodes,
        vec!["parent".to_string(), "child".to_string()]
    );

    // The child boots and adopts the membership its parent hands it.
    let mut child = CanisterManager::new(
        "child".to_string(),
        threshold_policy as fn(usize) -> bool,
        DEMO_SEED,
    );
    let parent_members = vec!["parent".to_string(), "child".to_string()];
    child.lifecyle_init_node(Some(
        parent_members[..parent_members.len() - 1].to_vec(),
    ));

    // The parent packages every misplaced pair per owner; with two members
    // the only target is the child, which stores each chunk.
    let migrations = parent.on_child_initialized();
    assert!(matches!(parent.get_status(), NodeStatus::Migrating));
    let mut migrated: usize = 0;
    for outbound in migrations {
        assert_eq!(outbound.target, "child".to_string());
        for chunk in outbound.chunks {
            assert!(child.handle_migrate(MigrateArgs { data: chunk }));
            migrated += 1;
        }
    }
    assert!(migrated >= 1);

    // All chunks acknowledged: the parent drops what it handed over.
    let broadcast = parent.on_migration_complete("child".to_string());
    assert!(matches!(parent.get_status(), NodeStatus::Ready));
    assert!(matches!(
        broadcast.event,
        scaled_storage::node_manager::CanisterManagerEvent::NodeCreated(_)
    ));
    assert_eq!(parent.canister.next_node_id, Some("child".to_string()));

    // Unique ownership: the two shards partition the keys.
    assert_eq!(parent.canister.size() + child.canister.size(), 10);
    assert!(parent.canister.get_keys_to_migrate().is_empty());
    assert!(child.canister.size() > 0);

    // Round trip: every key read at either node yields the written value,
    // forwarding at most once.
    let mut nodes = vec![parent, child];
    for (key, value) in &written {
        for start in 0..2 {
            let got = read_with_forwarding(&mut nodes, start, key);
            assert_eq!(got.as_ref(), Some(value));
        }
    }
}

// Scale-up where the minted child sorts between the existing members:
// admitting it reassigns some keys from the parent to the *other*
// pre-existing member.  Those keys must be shipped there, not dropped —
// afterwards the shards still partition every written key.
#[test]
fn scale_up_with_third_owner_loses_nothing() {
    // Probe the placement for keys the join moves from alpha to omega.
    let mut two = Node::with_seed("alpha".to_string(), Vec::new(), DEMO_SEED);
    two.add_node("alpha".to_string());
    two.add_node("omega".to_string());
    let mut three = Node::with_seed("alpha".to_string(), Vec::new(), DEMO_SEED);
    three.add_node("alpha".to_string());
    three.add_node("omega".to_string());
    three.add_node("beta".to_string());

    let mut reassigned_to_peer: Vec<String> = Vec::new();
    let mut alpha_keys: Vec<String> = Vec::new();
    for id in 0..200 {
        let key = format!("data_key_{}", id);
        if two.node_id_from_data_key(&key) == Some("alpha".to_string()) {
            alpha_keys.push(key.clone());
            if three.node_id_from_data_key(&key) == Some("omega".to_string()) {
                reassigned_to_peer.push(key);
            }
        }
    }
    assert!(
        !reassigned_to_peer.is_empty(),
        "expected the mid-sorting join to reassign some parent key to the peer"
    );

    // Build the two-member fabric: alpha holds all of its own keys.
    let mut parent = CanisterManager::new(
        "alpha".to_string(),
        threshold_policy as fn(usize) -> bool,
        DEMO_SEED,
    );
    parent.lifecycle_init_wasm(WasmInitArgs { position: 0, wasm_chunk: vec![7] });
    parent.lifecycle_init_wasm(WasmInitArgs { position: 2, wasm_chunk: vec![] });
    parent.lifecycle_handle_event(
        scaled_storage::node_manager::CanisterManagerEvent::NodeCreated("omega".to_string()),
    );
    let mut peer = CanisterManager::new(
        "omega".to_string(),
        threshold_policy as fn(usize) -> bool,
        DEMO_SEED,
    );
    peer.lifecycle_handle_event(
        scaled_storage::node_manager::CanisterManagerEvent::NodeCreated("alpha".to_string()),
    );
    for key in &alpha_keys {
        let value = format!("value_of_{}", key);
        let res = parent
            .canister
            .with_upsert_data_mut(key.clone(), move |_d: String| (value, ()));
        assert!(matches!(res, NodeResult::Result(Some(()))));
    }
    let written = alpha_keys.len();

    // Scale up: the host mints "beta", which sorts between the members.
    assert!(parent.lifecyle_heartbeat_node());
    let setup = parent.on_child_created(&"beta".to_string()).unwrap();
    let mut child = CanisterManager::new(
        "beta".to_string(),
        threshold_policy as fn(usize) -> bool,
        DEMO_SEED,
    );
    child.lifecycle_init_wasm(WasmInitArgs { position: 0, wasm_chunk: setup.wasm_binary });
    child.lifecycle_init_wasm(WasmInitArgs { position: 2, wasm_chunk: vec![] });
    let mut elders = setup.all_nodes;
    elders.pop();
    child.lifecyle_init_node(Some(elders));

    // Ship every outbound batch to its owner: the child and the peer.
    let migrations = parent.on_child_initialized();
    let mut peer_received: usize = 0;
    for outbound in migrations {
        let target = if outbound.target == "beta" {
            &mut child
        } else {
            assert_eq!(outbound.target, "omega".to_string());
            &mut peer
        };
        for chunk in outbound.chunks {
            if outbound.target == "omega" {
                peer_received += 1;
            }
            assert!(target.handle_migrate(MigrateArgs { data: chunk }));
        }
    }
    assert!(peer_received >= 1, "the peer's batch was never shipped");
    let broadcast = parent.on_migration_complete("beta".to_string());

    // Deliver the parent's announcement so the peer learns of the child;
    // the peer may in turn owe the child some of its own keys.
    for recipient in &broadcast.recipients {
        assert!(*recipient == "omega".to_string() || *recipient == "beta".to_string());
    }
    let peer_action = peer.lifecycle_handle_event(
        scaled_storage::node_manager::CanisterManagerEvent::NodeCreated("beta".to_string()),
    );
    match peer_action {
        scaled_storage::node_manager::EventAction::Deliver { migrations, .. } => {
            for outbound in migrations {
                assert_eq!(outbound.target, "beta".to_string());
                for chunk in outbound.chunks {
                    assert!(child.handle_migrate(MigrateArgs { data: chunk }));
                }
            }
            peer.on_migrations_delivered();
        },
        _ => panic!("the peer must act on the announcement"),
    }

    // No loss, no duplication: the three shards partition the written keys,
    // and every key reads back at its owner.
    assert_eq!(
        parent.canister.size() + child.canister.size() + peer.canister.size(),
        written
    );
    assert!(parent.canister.get_keys_to_migrate().is_empty());
    let mut nodes = vec![parent, child, peer];
    for key in &alpha_keys {
        let expected = format!("value_of_{}", key);
        for start in 0..3 {
            let got = read_with_forwarding(&mut nodes, start, key);
            assert_eq!(got, Some(expected.clone()), "key {} lost", key);
        }
    }
}

fn read_with_forwarding(
    nodes: &mut Vec<CanisterManager<fn(usize) -> bool>>,
    start: usize,
    key: &String,
) -> Option<String> {
    let res = nodes[start]
        .canister
        .with_data_mut(key.clone(), |d: String| (d.clone(), d));
    match res {
        NodeResult::Result(v) => v,
        NodeResult::NodeId(owner) => {
            let target = nodes
                .iter()
                .position(|n| n.canister.id == owner)
                .expect("owner must be a known node");
            let res = nodes[target]
                .canister
                .with_data_mut(key.clone(), |d: String| (d.clone(), d));
            match res {
                NodeResult::Result(v) => v,
                NodeResult::NodeId(_) => panic!("forwarding must be single-hop"),
            }
        },
    }
}
