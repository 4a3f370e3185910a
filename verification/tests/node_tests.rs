use scaled_storage::node::{Node, NodeResult};

#[test]
fn can_add_node() {
    let mut node_1 = Node::new("node_1".to_string(), Vec::new());

    node_1.add_node("node_1".to_string());
    assert_eq!(
        node_1.node_id_from_data_key(&"data_key".to_string()),
        Some("node_1".to_string())
    );
}

#[test]
fn can_remove_node() {
    let mut node_1 = Node::new("node_1".to_string(), Vec::new());

    node_1.add_node("node_1".to_string());
    node_1.remove_node(&"node_1".to_string());
    assert_eq!(node_1.node_id_from_data_key(&"data_key".to_string()), None);
}

#[test]
fn all_nodes() {
    let mut node_1 = Node::new("node_1".to_string(), Vec::new());

    node_1.add_node("node_1".to_string());
    node_1.add_node("node_2".to_string());
    node_1.add_node("node_3".to_string());
    assert_eq!(node_1.all_nodes(), vec!["node_1", "node_2", "node_3"]);

    node_1.remove_node(&"node_2".to_string());
    assert_eq!(node_1.all_nodes(), vec!["node_1", "node_3"]);
}

#[test]
fn data_is_distributed_on_different_nodes() {
    let mut index_node = Node::new("index_node_id".to_string(), Vec::new());

    index_node.add_node("index_node_id".to_string());
    index_node.add_node("node_1".to_string());

    let mut node_ids: Vec<String> = vec![];

    for id in 1..15 {
        let data_key = format!("data_key_{}", id);
        let node_id = index_node.node_id_from_data_key(&data_key).unwrap();
        node_ids.push(node_id.clone());
    }

    // "index_node_id" and "node_1" should exist in node_ids
    assert!(node_ids.contains(&"node_1".to_string()));
    assert!(node_ids.contains(&"index_node_id".to_string()));

    // node_1 should exist at least 4 times in node_ids
    let node_1_count = node_ids
        .iter()
        .filter(|&x| x == &"node_1".to_string())
        .count();
    assert!(node_1_count >= 4);

    // same with index_node_id
    let index_node_id_count = node_ids
        .iter()
        .filter(|&x| x == &"index_node_id".to_string())
        .count();
    assert!(index_node_id_count >= 4);
}

#[test]
fn node_id_from_data_key_must_be_deterministic() {
    let mut node_ids: Vec<String> = vec![];

    for _ in 1..100 {
        let mut index_node = Node::new("index_node_id".to_string(), Vec::new());

        index_node.add_node("index_node_id".to_string());
        index_node.add_node("node_1".to_string());

        let data_key = "data_key".to_string();
        let node_id = index_node.node_id_from_data_key(&data_key).unwrap();
        node_ids.push(node_id.clone());
    }
    // all ids should be the same
    node_ids.dedup();
    assert_eq!(node_ids.len(), 1);
}

#[test]
fn node_id_from_data_key_must_not_change_due_to_outoforder_node_insertions() {
    let mut node_ids_1: Vec<String> = vec![];
    let mut node_ids_2: Vec<String> = vec![];

    for id in 1..100 {
        let mut index_node = Node::new("index_node_id".to_string(), Vec::new());

        index_node.add_node("index_node_id".to_string());
        index_node.add_node("node_1".to_string());

        let data_key = &format!("data_key_{}", id);
        let node_id = index_node.node_id_from_data_key(data_key).unwrap();
        node_ids_1.push(node_id.clone());
    }

    for id in 1..100 {
        let mut index_node_2 = Node::new("index_node_id".to_string(), Vec::new());

        index_node_2.add_node("node_1".to_string());
        index_node_2.add_node("index_node_id".to_string());

        let data_key = &format!("data_key_{}", id);
        let node_id = index_node_2.node_id_from_data_key(data_key).unwrap();
        node_ids_2.push(node_id.clone());
    }

    assert_eq!(node_ids_1, node_ids_2);
}

#[test]
fn with_data_mut_returns_result_none_when_key_maps_to_node_but_data_not_available() {
    let mut node_1 = Node::new("index_node_id".to_string(), Vec::new());

    node_1.add_node("index_node_id".to_string());

    let result = node_1.with_data_mut("data_key".to_string(), |data: String| {
        let mut d = data;
        d.push_str("data");
        (d.clone(), d)
    });

    assert_eq!(result, NodeResult::Result(None));
}

#[test]
fn with_data_mut_returns_result_when_key_maps_to_node_and_data_available() {
    let mut node_1 = Node::new("index_node_id".to_string(), Vec::new());

    node_1.add_node("index_node_id".to_string());
    node_1.insert_data("data_key".to_string(), "data".to_string());

    let result = node_1.with_data_mut("data_key".to_string(), |data: String| {
        (data.clone(), data)
    });

    assert_eq!(result, NodeResult::Result(Some("data".to_string())));
}

#[test]
fn with_data_mut_returns_node_id_when_key_maps_to_different_node() {
    let mut node_1 = Node::new("index_node_id".to_string(), Vec::new());

    node_1.add_node("index_node_id".to_string());
    node_1.add_node("node_1".to_string());

    node_1.insert_data("data_key".to_string(), "data".to_string());
    node_1.insert_data("data_key_2".to_string(), "data_2".to_string());

    let result = node_1.with_data_mut("data_key_5".to_string(), |data: String| {
        (data.clone(), data)
    });

    assert_eq!(result, NodeResult::NodeId("node_1".to_string()));
}

#[test]
fn get_keys_to_migrate_returns_added_nodes_ids() {
    let mut index_node = Node::new("index_node_id".to_string(), Vec::new());

    index_node.add_node("index_node_id".to_string());

    let mut all_keys = vec![];
    for id in 0..10 {
        let key = &format!("data_key_{}", id);
        all_keys.push(key.clone());
        index_node.with_upsert_data_mut(key.clone(), |data: String| {
            let mut d = data;
            d.push_str("data");
            (d, ())
        });
    }

    assert_eq!(index_node.size(), 10);
    index_node.add_node("node_1".to_string());

    let keys_to_migrate = index_node.get_keys_to_migrate();
    assert_eq!(
        keys_to_migrate.len() >= 4 && keys_to_migrate.len() < 8,
        true
    );

    assert!(keys_to_migrate
        .iter()
        .all(|key| index_node.node_id_from_data_key(key).unwrap() == "node_1".to_string()));
}

#[test]
fn get_keys_to_migrate_returns_deleted_nodes_ids() {
    let mut index_node = Node::new("index_node_id".to_string(), Vec::new());

    let mut node_1 = Node::new("node_1".to_string(), Vec::new());

    index_node.add_node("index_node_id".into());
    index_node.add_node("node_1".into());

    node_1.add_node("index_node_id".into());
    node_1.add_node("node_1".into());

    let mut all_keys = vec![];
    for id in 0..10 {
        let key = &format!("data_key_{}", id);
        all_keys.push(key.clone());
        index_node
            .with_upsert_data_mut(key.clone(), |data: String| {
                let mut d = data;
                d.push_str("data");
                (d, ())
            })
            .or_forward_unwrap(|node_id| {
                if node_id == "node_1".to_string() {
                    node_1.with_upsert_data_mut(key.clone(), |data: String| {
                        let mut d = data;
                        d.push_str("data");
                        (d, ())
                    });
                    Some(())
                } else {
                    None
                }
            });
    }
    // evenly distributed
    assert_eq!(index_node.size(), 5);
    assert_eq!(node_1.size(), 5);
    // let's see what happens when we delete one node
    node_1.remove_node(&"node_1".into());

    let keys_to_migrate = node_1.get_keys_to_migrate();

    assert!(keys_to_migrate
        .iter()
        .all(|key| node_1.node_id_from_data_key(key).unwrap() == "index_node_id".to_string()));
}
