use graph_shard_lab::persistence::{
    create_snapshot, recover_from_snapshot_and_log, replay_operation_log, restore_from_snapshot, verify_recovery,
    Operation, OperationLogEntry,
};
use graph_shard_lab::sharded::ShardedGraph;
use graph_shard_lab::text_format::{format_snapshot, parse_snapshot};
use graph_shard_lab::log_text::{format_operation_line, parse_operation_log};
use graph_shard_lab::error::GraphError;

fn build_test_graph() -> ShardedGraph {
    let mut graph = ShardedGraph::new(4).unwrap();

    for id in 1..=16 {
        graph.add_user(id, &format!("user-{id}")).unwrap();
    }

    for source in 1..=16 {
        for offset in 1..=3 {
            let target = ((source + offset - 1) % 16) + 1;
            graph.add_follow(source, target).unwrap();
        }
    }

    graph
}

#[test]
fn snapshot_creates_valid_snapshot() {
    let graph = build_test_graph();

    let snapshot = create_snapshot(&graph, 12345);

    assert_eq!(snapshot.timestamp, 12345);
    assert_eq!(snapshot.shard_count, 4);
    assert!(!snapshot.users.is_empty());
    assert!(!snapshot.edges.is_empty());
}

#[test]
fn restore_from_snapshot_creates_valid_graph() {
    let graph = build_test_graph();

    let snapshot = create_snapshot(&graph, 12345);

    let restored = restore_from_snapshot(&snapshot).unwrap();

    assert_eq!(restored.shard_count(), 4);
    assert_eq!(restored.user_count(), graph.user_count());
}

#[test]
fn replay_operation_log_applies_operations() {
    let mut graph = ShardedGraph::new(4).unwrap();

    for id in 1..=8 {
        graph.add_user(id, &format!("user-{id}")).unwrap();
    }

    let entries = vec![
        OperationLogEntry { sequence: 1, operation: Operation::AddFollow { source: 1, target: 2 } },
        OperationLogEntry { sequence: 2, operation: Operation::AddFollow { source: 1, target: 3 } },
    ];

    let stats = replay_operation_log(&mut graph, &entries, 0);

    assert_eq!(stats.total_operations, 2);
    assert_eq!(stats.add_follow_ops, 2);
}

#[test]
fn recover_from_snapshot_and_log_works() {
    let graph = build_test_graph();

    let snapshot = create_snapshot(&graph, 100);

    let entries = vec![OperationLogEntry { sequence: 101, operation: Operation::AddFollow { source: 1, target: 16 } }];

    let (recovered, stats) = recover_from_snapshot_and_log(&snapshot, &entries).unwrap();

    assert_eq!(stats.total_operations, 1);
    assert_eq!(recovered.shard_count(), 4);
}

#[test]
fn verify_recovery_succeeds_for_identical_graphs() {
    let graph = build_test_graph();

    let snapshot = create_snapshot(&graph, 12345);

    let recovered = restore_from_snapshot(&snapshot).unwrap();

    verify_recovery(&graph, &recovered).unwrap();
}

#[test]
fn verify_recovery_detects_mismatch() {
    let graph1 = build_test_graph();

    let mut graph2 = ShardedGraph::new(4).unwrap();

    for id in 1..=16 {
        graph2.add_user(id, &format!("user-{id}")).unwrap();
    }

    let result = verify_recovery(&graph1, &graph2);

    assert!(result.is_err());
}

#[test]
fn save_and_load_snapshot_roundtrips() {
    let graph = build_test_graph();

    let snapshot = create_snapshot(&graph, 12345);

    let text = format_snapshot(&snapshot);

    let loaded = parse_snapshot(&text).unwrap();

    assert_eq!(loaded.timestamp, snapshot.timestamp);
    assert_eq!(loaded.shard_count, snapshot.shard_count);
    assert_eq!(loaded.users.len(), snapshot.users.len());
    assert_eq!(loaded.edges.len(), snapshot.edges.len());
}

#[test]
fn operation_log_writes_and_reads() {
    let op1 = Operation::AddUser {
        id: 1,
        name: "Alice".to_string(),
    };
    let op2 = Operation::AddFollow {
        source: 1,
        target: 2,
    };
    let op3 = Operation::RemoveFollow {
        source: 1,
        target: 2,
    };

    let mut log = String::new();
    for (sequence, op) in [(1, &op1), (2, &op2), (3, &op3)] {
        log.push_str(&format_operation_line(sequence, op));
        log.push('\n');
    }

    let entries = parse_operation_log(&log).unwrap();

    assert_eq!(entries.len(), 3);
    assert_eq!(entries[0].sequence, 1);
    assert_eq!(entries[1].sequence, 2);
    assert_eq!(entries[2].sequence, 3);
}

#[test]
fn snapshot_text_has_expected_lines() {
    let mut graph = ShardedGraph::new(2).unwrap();
    graph.add_user(1, "ann").unwrap();
    graph.add_user(2, "bob").unwrap();
    graph.add_follow(1, 2).unwrap();
    let snapshot = create_snapshot(&graph, 7);
    let text = format_snapshot(&snapshot);
    assert_eq!(
        text,
        "SNAPSHOT v2\ntimestamp:7\nshard_count:2\nplacement:Hash\nUSERS\n2|bob|0\n1|ann|1\nEDGES\n1|2|1\n"
    );
    let loaded = parse_snapshot(&text).unwrap();
    assert_eq!(loaded.placement_info, "Hash");
    assert_eq!(loaded.users[0].name, "bob");
    assert_eq!(loaded.edges[0].target, 2);
}

#[test]
fn parse_snapshot_reports_errors() {
    assert_eq!(parse_snapshot("").unwrap_err(), GraphError::IoError("Missing snapshot header".to_string()));
    assert_eq!(
        parse_snapshot("SNAPSHOT v2\ntimestamp:x\n").unwrap_err(),
        GraphError::IoError("Invalid timestamp: invalid digit found in string".to_string())
    );
    assert_eq!(
        parse_snapshot("SNAPSHOT v2\nUSERS\n|a|0\n").unwrap_err(),
        GraphError::IoError("Invalid user id: cannot parse integer from empty string".to_string())
    );
    assert_eq!(
        parse_snapshot("SNAPSHOT v2\nEDGES\n1|2|99999999999999999999999\n").unwrap_err(),
        GraphError::IoError("Invalid source_shard: number too large to fit in target type".to_string())
    );
    // short list lines and lines before any list are skipped; a last line keeps its carriage return
    let loaded = parse_snapshot("H\r\nnoise\nUSERS\r\n1|a\n2|b|1\r\nplacement:Community:4\r").unwrap();
    assert_eq!(loaded.users.len(), 1);
    assert_eq!(loaded.users[0].id, 2);
    assert_eq!(loaded.placement_info, "Community:4\r");
}

#[test]
fn operation_log_lines_and_errors() {
    let op = Operation::AddUser { id: 5, name: "a|b".to_string() };
    assert_eq!(format_operation_line(9, &op), "9|ADD_USER|5|a|b");
    let op = Operation::RemoveFollow { source: 3, target: 4 };
    assert_eq!(format_operation_line(2, &op), "2|REMOVE_FOLLOW|3|4");
    let entries = parse_operation_log("9|ADD_USER|5|a|b\n\n1|ADD_FOLLOW|2\n4|NOPE|1|2\n7|ADD_USER|8\n").unwrap();
    assert_eq!(entries.len(), 2);
    match &entries[0].operation {
        Operation::AddUser { id, name } => {
            assert_eq!(*id, 5);
            assert_eq!(name, "a|b");
        }
        _ => panic!("expected an added user"),
    }
    match &entries[1].operation {
        Operation::AddUser { id, name } => {
            assert_eq!(*id, 8);
            assert_eq!(name, "");
        }
        _ => panic!("expected an added user"),
    }
    assert_eq!(
        parse_operation_log("x|ADD_USER|1|a\n").unwrap_err(),
        GraphError::IoError("Invalid sequence: invalid digit found in string".to_string())
    );
    assert_eq!(
        parse_operation_log("1|ADD_FOLLOW|1|\n").unwrap_err(),
        GraphError::IoError("Invalid target: cannot parse integer from empty string".to_string())
    );
}
