use cluster_manager::common::{Me, Node, NodeId, NodeType, PartitionId, Key, PARTITIONS_AMOUNT};

#[test]
fn node_id_roundtrips_uuid_string() {
    let id = NodeId::new();
    let s = id.to_string();
    let parsed = NodeId::from_string(&s);
    assert_eq!(parsed.to_string(), s);
    assert_eq!(parsed, id);
}

#[test]
fn node_id_from_string_from_string_impl() {
    let id = NodeId::new().to_string();
    let parsed: NodeId = NodeId::from_string(&id);
    assert_eq!(parsed.to_string(), id);
}

#[test]
fn node_id_text_is_the_canonical_uuid() {
    let text = "11111111-2222-3333-4444-555555555555";
    let id = NodeId::from_string(text);
    assert_eq!(id.to_string(), text);
    let upper = NodeId::from_string("AAAAAAAA-BBBB-CCCC-DDDD-EEEEEEEEEEEE");
    assert_eq!(upper.to_string(), "aaaaaaaa-bbbb-cccc-dddd-eeeeeeeeeeee");
}

#[test]
fn node_id_try_from_string_rejects_non_uuids() {
    assert!(NodeId::try_from_string("not a uuid").is_none());
    assert!(NodeId::try_from_string("").is_none());
    let text = "22222222-2222-2222-2222-222222222222";
    assert_eq!(
        NodeId::try_from_string(text),
        Some(NodeId::from_string(text))
    );
}

#[test]
fn fresh_node_ids_differ() {
    let a = NodeId::new();
    let b = NodeId::new();
    assert_ne!(a, b);
    assert_eq!(a.to_string().len(), 36);
}

#[test]
fn node_kind_predicates() {
    let n = Node {
        host: "h".to_string(),
        port: 1,
        last_heartbeat: 0,
        node_type: NodeType::Manager,
    };
    assert!(n.is_manager());
    assert!(!n.is_worker());
    let w = Node {
        node_type: NodeType::Worker,
        ..n.clone()
    };
    assert!(w.is_worker());
    assert!(!w.is_manager());
}

#[test]
fn me_new_keeps_the_address() {
    let me = Me::new("127.0.0.1".to_string(), 7000);
    assert_eq!(me.host, "127.0.0.1");
    assert_eq!(me.port, 7000);
    let other = Me::new("127.0.0.1".to_string(), 7000);
    assert_ne!(me.id, other.id);
}

#[test]
fn key_partition_is_the_key_modulo_the_partition_count() {
    assert_eq!(PartitionId::from(Key(1)), PartitionId(1));
    assert_eq!(PartitionId::from(Key(PARTITIONS_AMOUNT as u64 + 1)), PartitionId(1));
    assert_eq!(PartitionId::from(Key(4095)), PartitionId(4095));
    assert_eq!(PartitionId::from(Key(4096 * 7 + 5)), PartitionId(5));
    assert_eq!(PartitionId::from(Key(u64::MAX)), PartitionId(4095));
}

#[test]
fn fresh_node_ids_are_version_seven_uuids() {
    for _ in 0..8 {
        let text = NodeId::new().to_string();
        let chars: Vec<char> = text.chars().collect();
        assert_eq!(chars[14], '7');
        assert!(['8', '9', 'a', 'b'].contains(&chars[19]));
    }
}

#[test]
fn me_new_gets_a_version_seven_id() {
    let me = Me::new("h".to_string(), 1);
    let chars: Vec<char> = me.id.to_string().chars().collect();
    assert_eq!(chars[14], '7');
}

#[test]
fn millis_of_counts_and_cuts_to_64_bits() {
    assert_eq!(cluster_manager::common::millis_of(0, 0), 0);
    assert_eq!(cluster_manager::common::millis_of(1, 500_000_000), 1500);
    assert_eq!(cluster_manager::common::millis_of(2, 999_999), 2000);
    let wrapped = ((u64::MAX as u128 * 1000 + 999) % (1u128 << 64)) as u64;
    assert_eq!(cluster_manager::common::millis_of(u64::MAX, 999_999_999), wrapped);
}
