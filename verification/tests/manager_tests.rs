use scaled_storage::node_manager::{
    CanisterManager, CanisterManagerEvent, EventAction, InitCanisterManagerParam, InstallArgs,
    MigrateArgs, NodeError, NodeStatus, WasmInitArgs,
};

fn demo_policy(size: usize) -> bool {
    size > 2
}

#[test]
fn new_node() {
    let node_id = "node_a".to_string();
    let cm = CanisterManager::new(node_id.clone(), demo_policy, 0);
    let node_info = cm.node_info();

    assert_eq!(node_info.all_nodes, vec![node_id]);
}

#[test]
fn node_wasm_initialized_properly() {
    let node_id = "node_a".to_string();
    let mut cm = CanisterManager::new(node_id, demo_policy, 0);

    assert!(cm.lifecycle_init_wasm(WasmInitArgs {
        position: 0,
        wasm_chunk: Vec::<u8>::default(),
    }));

    assert!(cm.lifecycle_init_wasm(WasmInitArgs {
        position: 1,
        wasm_chunk: Vec::<u8>::default(),
    }));

    assert!(cm.lifecycle_init_wasm(WasmInitArgs {
        position: 2,
        wasm_chunk: Vec::<u8>::default(),
    }));

    assert!(matches!(cm.get_status(), NodeStatus::Ready));
}

#[test]
fn node_initialized_properly() {
    let node_id = "node_a".to_string();
    let previous_node = "node_b".to_string();

    let mut cm = CanisterManager::new(node_id.clone(), demo_policy, 0);
    let all_nodes = vec![previous_node.clone()];

    let order = cm.lifecyle_init_node(Some(all_nodes));
    assert!(order.is_some());
    let node_info = cm.node_info();

    assert_eq!(node_info.all_nodes, vec![previous_node.clone(), node_id]);
    assert_eq!(cm.canister.prev_node_id, Some(previous_node));
    assert!(matches!(cm.get_status(), NodeStatus::Initialized));
}

#[test]
fn initial_canister() {
    let node_id = "node_a".to_string();
    let cm = CanisterManager::new(node_id.clone(), demo_policy, 0);
    let node_info = cm.node_info();
    assert_eq!(node_info.all_nodes, vec![node_id]);
    assert!(matches!(node_info.status, NodeStatus::Initialized));
}

#[test]
fn initialized_canister() {
    let node_id = "node_a".to_string();
    let previous_node = "node_b".to_string();

    let mut cm = CanisterManager::new(node_id.clone(), demo_policy, 0);

    let param = InitCanisterManagerParam {
        args: Some(InstallArgs {
            all_nodes: vec![previous_node.clone()],
        }),
    };
    match param.args {
        Some(args) => cm.lifecyle_init_node(Some(args.all_nodes)),
        None => cm.lifecyle_init_node(None),
    };

    let node_info = cm.node_info();

    assert_eq!(node_info.all_nodes, vec![previous_node, node_id]);
    assert!(matches!(node_info.status, NodeStatus::Initialized));
}

#[test]
fn init_wasm_puts_node_on_ready() {
    let node_id = "node_a".to_string();
    let mut cm = CanisterManager::new(node_id, demo_policy, 0);

    cm.lifecycle_init_wasm(WasmInitArgs {
        position: 0,
        wasm_chunk: Vec::<u8>::default(),
    });

    cm.lifecycle_init_wasm(WasmInitArgs {
        position: 1,
        wasm_chunk: Vec::<u8>::default(),
    });

    cm.lifecycle_init_wasm(WasmInitArgs {
        position: 2,
        wasm_chunk: Vec::<u8>::default(),
    });

    let node_info = cm.node_info();

    assert!(matches!(node_info.status, NodeStatus::Ready));
}

// Wasm chunking walks Initialized -> Initialized -> Ready; a middle chunk
// before the first is refused and leaves no buffer behind.
#[test]
fn wasm_chunk_sequence_and_out_of_order_chunks() {
    let mut cm = CanisterManager::new("node_a".to_string(), demo_policy, 0);
    assert!(cm.lifecycle_init_wasm(WasmInitArgs { position: 0, wasm_chunk: vec![1] }));
    assert!(matches!(cm.get_status(), NodeStatus::Initialized));
    assert!(cm.lifecycle_init_wasm(WasmInitArgs { position: 1, wasm_chunk: vec![2] }));
    assert!(matches!(cm.get_status(), NodeStatus::Initialized));
    assert!(cm.lifecycle_init_wasm(WasmInitArgs { position: 2, wasm_chunk: vec![3] }));
    assert!(matches!(cm.get_status(), NodeStatus::Ready));

    // A lone middle chunk on a fresh manager is refused, and since no
    // buffer was started, completing is refused too.
    let mut fresh = CanisterManager::new("node_b".to_string(), demo_policy, 0);
    assert!(!fresh.lifecycle_init_wasm(WasmInitArgs { position: 1, wasm_chunk: vec![9] }));
    assert!(!fresh.lifecycle_init_wasm(WasmInitArgs { position: 2, wasm_chunk: vec![9] }));
    assert!(matches!(fresh.get_status(), NodeStatus::Initialized));

    // Unknown positions are refused.
    assert!(!fresh.lifecycle_init_wasm(WasmInitArgs { position: 3, wasm_chunk: vec![9] }));
}

// A NodeCreated event about the node itself is a no-op: the gossip
// terminates at its origin.
#[test]
fn node_created_about_self_is_ignored() {
    let mut cm = CanisterManager::new("node_a".to_string(), demo_policy, 0);
    let action = cm.lifecycle_handle_event(CanisterManagerEvent::NodeCreated(
        "node_a".to_string(),
    ));
    assert!(matches!(action, EventAction::Nothing));
    assert_eq!(cm.node_info().all_nodes, vec!["node_a".to_string()]);
}

// Learning of a new node admits it once; hearing of it again changes
// nothing and is not rebroadcast.
#[test]
fn node_created_is_idempotent_and_rebroadcast_once() {
    let mut cm = CanisterManager::new("node_a".to_string(), demo_policy, 0);

    let first = cm.lifecycle_handle_event(CanisterManagerEvent::NodeCreated(
        "node_b".to_string(),
    ));
    match first {
        EventAction::Deliver { rebroadcast, .. } => assert!(rebroadcast.is_some()),
        _ => panic!("expected a deliver action"),
    }
    assert_eq!(
        cm.node_info().all_nodes,
        vec!["node_a".to_string(), "node_b".to_string()]
    );

    let second = cm.lifecycle_handle_event(CanisterManagerEvent::NodeCreated(
        "node_b".to_string(),
    ));
    match second {
        EventAction::Deliver { rebroadcast, .. } => assert!(rebroadcast.is_none()),
        _ => panic!("expected a deliver action"),
    }
    assert_eq!(
        cm.node_info().all_nodes,
        vec!["node_a".to_string(), "node_b".to_string()]
    );
}

// Removing a node twice equals removing it once.
#[test]
fn node_deleted_is_idempotent() {
    let mut cm = CanisterManager::new("node_a".to_string(), demo_policy, 0);
    cm.lifecycle_handle_event(CanisterManagerEvent::NodeCreated("node_b".to_string()));

    let first = cm.lifecycle_handle_event(CanisterManagerEvent::NodeDeleted(
        "node_b".to_string(),
    ));
    match first {
        EventAction::Deliver { rebroadcast, .. } => assert!(rebroadcast.is_some()),
        _ => panic!("expected a deliver action"),
    }
    assert_eq!(cm.node_info().all_nodes, vec!["node_a".to_string()]);

    let second = cm.lifecycle_handle_event(CanisterManagerEvent::NodeDeleted(
        "node_b".to_string(),
    ));
    match second {
        EventAction::Deliver { rebroadcast, .. } => assert!(rebroadcast.is_none()),
        _ => panic!("expected a deliver action"),
    }
    assert_eq!(cm.node_info().all_nodes, vec!["node_a".to_string()]);
}

// Each fault class is reachable and lands on the status.
#[test]
fn error_statuses_are_recorded() {
    let mut cm = CanisterManager::new("node_a".to_string(), demo_policy, 0);

    // Undecodable migration bytes.
    let ok = cm.handle_migrate(MigrateArgs { data: vec![0, 1, 2, 3] });
    assert!(!ok);
    assert!(matches!(
        cm.get_status(),
        NodeStatus::Error(NodeError::Migration(_))
    ));

    let mut cm = CanisterManager::new("node_a".to_string(), demo_policy, 0);
    cm.on_create_node_failed();
    assert!(matches!(
        cm.get_status(),
        NodeStatus::Error(NodeError::ScaleUp(_))
    ));

    let mut cm = CanisterManager::new("node_a".to_string(), demo_policy, 0);
    cm.on_initialize_failed(&"node_b".to_string());
    assert!(matches!(
        cm.get_status(),
        NodeStatus::Error(NodeError::Initialize(_))
    ));

    let mut cm = CanisterManager::new("node_a".to_string(), demo_policy, 0);
    cm.on_broadcast_failed(&"node_b".to_string());
    assert!(matches!(
        cm.get_status(),
        NodeStatus::Error(NodeError::Broadcast(_))
    ));
}

// An upsert on a missing local key creates the entry from the empty value
// and returns the closure's result; a plain read never creates.
#[test]
fn upsert_creates_missing_local_key_with_default() {
    let mut cm = CanisterManager::new("node_a".to_string(), demo_policy, 0);

    let read = cm
        .canister
        .with_data_mut("data_key".to_string(), |data: String| (data.clone(), data));
    assert_eq!(
        read,
        scaled_storage::node::NodeResult::Result(None)
    );

    let upserted = cm
        .canister
        .with_upsert_data_mut("data_key".to_string(), |data: String| {
            let mut d = data;
            d.push_str("value");
            (d.clone(), d)
        });
    assert_eq!(
        upserted,
        scaled_storage::node::NodeResult::Result(Some("value".to_string()))
    );

    let read_back = cm
        .canister
        .with_data_mut("data_key".to_string(), |data: String| (data.clone(), data));
    assert_eq!(
        read_back,
        scaled_storage::node::NodeResult::Result(Some("value".to_string()))
    );
}

#[test]
fn should_scale_up_consults_policy_and_successor() {
    let mut cm = CanisterManager::new("node_a".to_string(), demo_policy, 0);
    // Not ready yet: no scale-up.
    assert!(!cm.should_scale_up());
    assert!(!cm.lifecyle_heartbeat_node());

    cm.lifecycle_init_wasm(WasmInitArgs { position: 0, wasm_chunk: vec![7] });
    cm.lifecycle_init_wasm(WasmInitArgs { position: 2, wasm_chunk: vec![8] });
    assert!(matches!(cm.get_status(), NodeStatus::Ready));

    // Ready, but the store is too small for the demo policy.
    assert!(!cm.should_scale_up());

    for id in 0..4 {
        cm.canister
            .with_upsert_data_mut(format!("data_key_{}", id), |data: String| (data, ()));
    }
    assert!(cm.should_scale_up());
    assert!(cm.lifecyle_heartbeat_node());
    assert!(matches!(cm.get_status(), NodeStatus::ScaleUp));

    // Scale-down stays disabled.
    assert!(!cm.should_scale_down());
}
