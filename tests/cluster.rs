use rckie::repair::Repair;
use rckie::{Cluster, Error, Move, Node, Role};

fn master(name: &str, port: &str, slots: Vec<usize>) -> Node {
    Node {
        name: name.to_string(),
        ip: "127.0.0.1".to_string(),
        port: port.to_string(),
        role: Some(Role::Master),
        myself: false,
        slaveof: None,
        slots,
        migrating: Vec::new(),
        importing: Vec::new(),
    }
}

fn replica(name: &str, port: &str, of: &str) -> Node {
    Node {
        name: name.to_string(),
        ip: "127.0.0.1".to_string(),
        port: port.to_string(),
        role: Some(Role::Slave),
        myself: false,
        slaveof: Some(of.to_string()),
        slots: Vec::new(),
        migrating: Vec::new(),
        importing: Vec::new(),
    }
}

fn three_way() -> Vec<Node> {
    vec![
        master("m0", "7000", (0..5461).collect()),
        master("m1", "7001", (5461..10922).collect()),
        master("m2", "7002", (10922..16384).collect()),
        replica("r0", "7003", "m0"),
        replica("r1", "7004", "m1"),
    ]
}

#[test]
fn test_consistency() {
    let mut nodes = Vec::new();
    nodes.push(Node::new(b"127.0.0.1:7000").unwrap());
    nodes.push(Node::new(b"127.0.0.1:7001").unwrap());
    nodes.push(Node::new(b"127.0.0.1:7002").unwrap());
    nodes.push(Node::new(b"127.0.0.1:7003").unwrap());
    nodes.push(Node::new(b"127.0.0.1:7004").unwrap());
    let cluster = Cluster::new(nodes);
    let views: Vec<Vec<Node>> = (0..5).map(|_| three_way()).collect();
    assert_eq!(cluster.consistency(&views), true);
}

#[test]
fn consistency_rejects_double_claims_and_gaps() {
    let cluster = Cluster::new(vec![Node::new(b"127.0.0.1:7000").unwrap()]);
    let pair = Cluster::new(vec![
        Node::new(b"127.0.0.1:7000").unwrap(),
        Node::new(b"127.0.0.1:7001").unwrap(),
    ]);
    assert!(cluster.consistency(&vec![three_way()]));
    let mut twice = three_way();
    twice[1].slots.push(42);
    assert!(!cluster.consistency(&vec![twice]));
    let mut gap = three_way();
    gap[2].slots.pop();
    assert!(!cluster.consistency(&vec![gap]));
    let mut outside = three_way();
    outside[2].slots.push(16384);
    assert!(!cluster.consistency(&vec![outside]));
    let mut moved = three_way();
    let s = moved[0].slots.pop().unwrap();
    moved[1].slots.push(s);
    assert!(!pair.consistency(&vec![three_way(), moved]));
    assert!(pair.consistency(&vec![three_way(), three_way()]));
    assert!(!pair.consistency(&vec![three_way()]));
    assert!(Cluster::new(Vec::new()).consistency(&Vec::new()));
}

#[test]
fn reshard_brings_every_master_to_its_share() {
    let counts = [5000usize, 5000, 3000, 3384];
    let mut start = 0;
    let mut nodes = Vec::new();
    for (i, c) in counts.iter().enumerate() {
        nodes.push(master(&format!("m{}", i), &format!("700{}", i), (start..start + c).collect()));
        start += c;
    }
    let cluster = Cluster::new(nodes);
    let moves = cluster.reshard().unwrap();
    let mut after: Vec<i64> = counts.iter().map(|&c| c as i64).collect();
    for m in &moves {
        assert!(cluster.nodes[m.src].slots.contains(&m.slot));
        after[m.src] -= 1;
        after[m.dst] += 1;
    }
    assert_eq!(after, vec![4096, 4096, 4096, 4096]);
    assert_eq!(after.iter().sum::<i64>(), 16384);
    assert_eq!(moves.len(), 904 + 904);
    assert_eq!(moves[0], Move { slot: 4096, src: 0, dst: 2 });
    assert_eq!(Cluster::new(vec![replica("r", "1", "x")]).reshard().err(), Some(Error::BadCluster));
}

#[test]
fn delete_spreads_slots_and_spares_own_replicas() {
    let nodes = vec![
        master("gone", "7000", (0..100).collect()),
        master("a", "7001", (100..6000).collect()),
        replica("ra", "7002", "a"),
        master("b", "7003", (6000..11000).collect()),
        replica("rg", "7004", "gone"),
        master("c", "7005", (11000..16384).collect()),
    ];
    let cluster = Cluster::new(nodes);
    let del = cluster.node("127.0.0.1:7000").unwrap();
    let plan = cluster.delete_node(del).unwrap();
    assert_eq!(plan.moves.len(), 100);
    let to = |i: usize| plan.moves.iter().filter(|m| m.1 == i).count();
    assert_eq!((to(1), to(3), to(5)), (34, 33, 33));
    assert_eq!(plan.moves[0], (0, 1));
    assert_eq!(plan.moves[34], (34, 3));
    assert_eq!(plan.moves[99], (99, 5));
    assert_eq!(plan.forget, vec![1, 2, 3, 5]);
    let lone = Cluster::new(vec![master("x", "1", vec![1, 2])]);
    assert_eq!(lone.delete_node(&lone.nodes[0]).err(), Some(Error::BadCluster));
    let leaving = replica("rg", "7004", "gone");
    let plan = cluster.delete_node(&leaving).unwrap();
    assert!(plan.moves.is_empty());
    assert_eq!(plan.forget, vec![0, 1, 2, 3, 5]);
    assert!(cluster.node("127.0.0.1:9999").is_none());
}

#[test]
fn fill_hands_missing_slots_to_masters() {
    let nodes = vec![
        master("a", "7000", (0..16000).collect()),
        replica("r", "7001", "a"),
        master("b", "7002", (16003..16384).collect()),
    ];
    let cluster = Cluster::new(nodes);
    let plan = cluster.fill_slots();
    assert_eq!(plan, vec![(0, vec![16000, 16001]), (2, vec![16002])]);
    assert!(Cluster::new(vec![replica("r", "1", "a")]).fill_slots().is_empty());
}

#[test]
fn fix_finishes_or_stabilises_half_moves() {
    let mut a = master("a", "7000", (0..100).collect());
    let mut b = master("b", "7001", (100..200).collect());
    a.migrating.push((5, "b".to_string()));
    b.importing.push((5, "a".to_string()));
    a.migrating.push((6, "b".to_string()));
    b.importing.push((150, "zz".to_string()));
    let cluster = Cluster::new(vec![a, b]);
    let plan = cluster.fix_slots();
    assert_eq!(
        plan,
        vec![
            Repair::Resume(Move { slot: 5, src: 0, dst: 1 }),
            Repair::Stabilize { node: 0, slot: 6 },
            Repair::Stabilize { node: 1, slot: 150 },
        ]
    );
    assert_eq!(cluster.others_of(0, 5), vec![1]);
}

#[test]
fn check_wants_every_member_alone() {
    let cluster = Cluster::new(vec![master("a", "1", vec![]), master("b", "2", vec![])]);
    let alone = b"cluster_state:fail\r\ncluster_known_nodes:1\r\ncluster_size:0\r\n".to_vec();
    let joined = b"cluster_state:ok\r\ncluster_known_nodes:6\r\n".to_vec();
    assert_eq!(cluster.check(&vec![alone.clone(), alone.clone()]), Ok(()));
    assert_eq!(cluster.check(&vec![alone.clone(), joined]), Err(Error::BadCluster));
    assert_eq!(cluster.check(&vec![alone]), Err(Error::BadCluster));
    assert_eq!(cluster.len(), 2);
}

#[test]
fn migrate_forms_plan_moves() {
    let nodes = vec![
        master("a", "7000", (0..10).collect()),
        replica("r", "7001", "a"),
        master("b", "7002", (10..20).collect()),
        master("c", "7003", (20..30).collect()),
    ];
    let cluster = Cluster::new(nodes);
    let first = cluster.migrate_first(0, 2, 3).unwrap();
    assert_eq!(
        first,
        vec![
            Move { slot: 0, src: 0, dst: 2 },
            Move { slot: 1, src: 0, dst: 2 },
            Move { slot: 2, src: 0, dst: 2 },
        ]
    );
    assert_eq!(cluster.migrate_first(0, 2, 11).err(), Some(Error::BadCluster));
    assert_eq!(cluster.migrate_first(9, 2, 1).err(), Some(Error::BadCluster));
    let out = cluster.migrate_out(0, 5).unwrap();
    assert_eq!(out, vec![(0, 2), (1, 2), (2, 2), (3, 3), (4, 3)]);
    assert_eq!(cluster.migrate_out(0, 11).err(), Some(Error::BadCluster));
    let into = cluster.migrate_in(0, 5).unwrap();
    assert_eq!(
        into,
        vec![
            Move { slot: 10, src: 2, dst: 0 },
            Move { slot: 11, src: 2, dst: 0 },
            Move { slot: 12, src: 2, dst: 0 },
            Move { slot: 20, src: 3, dst: 0 },
            Move { slot: 21, src: 3, dst: 0 },
        ]
    );
    assert_eq!(cluster.migrate_in(0, 40).err(), Some(Error::BadCluster));
    let lone = Cluster::new(vec![master("a", "7000", vec![1])]);
    assert_eq!(lone.migrate_in(0, 1).err(), Some(Error::BadCluster));
    assert_eq!(lone.migrate_out(0, 1).err(), Some(Error::BadCluster));
}
