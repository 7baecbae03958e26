use rckie::topology::{parse_line, parse_slot_bytes, parse_token, split_bytes};
use rckie::{Error, Node, Role};

#[test]
fn test_node_init() {
    let node = Node::new(b"127.0.0.1:8888").unwrap();
    assert_eq!(node.ip, "127.0.0.1");
    assert_eq!(node.port, "8888");
}

#[test]
fn address_needs_exactly_one_colon() {
    let node = Node::new(b"10.0.0.7:7001").unwrap();
    assert_eq!(node.name, "10.0.0.7:7001");
    assert_eq!(node.addr(), "10.0.0.7:7001");
    assert_eq!(node.role, None);
    assert!(node.slots().is_empty());
    assert_eq!(Node::new(b"127.0.0.1").err(), Some(Error::BadAddr));
    assert_eq!(Node::new(b"a:b:c").err(), Some(Error::BadAddr));
    assert_eq!(Node::new(b"").err(), Some(Error::BadAddr));
    let empty_host = Node::new(b":7000").unwrap();
    assert_eq!(empty_host.ip, "");
    assert_eq!(empty_host.port, "7000");
}

#[test]
fn slot_tokens_expand_ranges_and_markers() {
    let line = b"abc 127.0.0.1:7000@17000 myself,master - 0 0 1 connected 0-5 10 [15->-abc] [20-<-def]";
    let node = parse_line(line).unwrap();
    assert_eq!(node.slots, vec![0, 1, 2, 3, 4, 5, 10]);
    assert_eq!(node.migrating, vec![(15, "abc".to_string())]);
    assert_eq!(node.importing, vec![(20, "def".to_string())]);
    assert_eq!(node.name, "abc");
    assert_eq!(node.ip, "127.0.0.1");
    assert_eq!(node.port, "7000");
    assert_eq!(node.role, Some(Role::Master));
    assert!(node.myself);
    assert_eq!(node.slaveof, None);
}

#[test]
fn replica_line_names_its_master() {
    let line = b"r1 127.0.0.2:7001@17001 slave m1 0 0 1 connected";
    let node = parse_line(line).unwrap();
    assert_eq!(node.role, Some(Role::Slave));
    assert!(!node.myself);
    assert_eq!(node.slaveof, Some("m1".to_string()));
    assert!(node.slots.is_empty());
}

#[test]
fn malformed_lines_are_refused() {
    assert_eq!(parse_line(b"id 127.0.0.1:7000 master - 0 0").err(), Some(Error::BadCluster));
    assert_eq!(
        parse_line(b"id 127.0.0.1:7000 master - 0 0 1 connected 5-x").err(),
        Some(Error::BadCluster)
    );
    assert_eq!(
        parse_line(b"id 127.0.0.1:7000 master - 0 0 1 connected 9-3").err(),
        Some(Error::BadCluster)
    );
    assert_eq!(
        parse_line(b"id 127.0.0.1:7000 master - 0 0 1 connected 16384").err(),
        Some(Error::BadCluster)
    );
    assert_eq!(
        parse_line(b"id 127.0.0.1:7000 master - 0 0 1 connected [15]").err(),
        Some(Error::BadCluster)
    );
    assert_eq!(
        parse_line(b"id 127.0.0.1 master - 0 0 1 connected").err(),
        Some(Error::BadCluster)
    );
}

#[test]
fn member_list_is_read_line_by_line() {
    let reply = b"m1 127.0.0.1:7000@17000 myself,master - 0 0 1 connected 0-8191\r\n\
m2 127.0.0.1:7001@17001 master - 0 0 2 connected 8192-16383\n\
r1 127.0.0.1:7002@17002 slave m1 0 0 1 connected\n";
    let nodes = Node::nodes(reply).unwrap();
    assert_eq!(nodes.len(), 3);
    assert_eq!(nodes[0].slots.len(), 8192);
    assert_eq!(nodes[1].slots[0], 8192);
    assert_eq!(nodes[1].slots[8191], 16383);
    assert_eq!(nodes[2].slaveof, Some("m1".to_string()));
    assert_eq!(Node::nodes(b"").unwrap().len(), 0);
    assert_eq!(Node::nodes(b"bad line\n").err(), Some(Error::BadCluster));
}

#[test]
fn connect_takes_own_line() {
    let reply = b"m2 127.0.0.1:7001@17001 master - 0 0 2 connected 8192-8200\n\
m1 127.0.0.1:7000@17000 myself,master - 0 0 1 connected 0-3 [4->-m2]\n";
    let members = Node::nodes(reply).unwrap();
    let mut node = Node::new(b"127.0.0.1:7000").unwrap();
    node.connect(&members);
    assert_eq!(node.name, "m1");
    assert_eq!(node.slots(), vec![0, 1, 2, 3]);
    assert_eq!(node.migrating, vec![(4, "m2".to_string())]);
    assert!(node.is_master());
    let mut other = Node::new(b"127.0.0.1:7009").unwrap();
    other.connect(&Vec::new());
    assert_eq!(other.name, "127.0.0.1:7009");
}

#[test]
fn small_parsers() {
    assert_eq!(parse_slot_bytes(b"0"), Some(0));
    assert_eq!(parse_slot_bytes(b"16383"), Some(16383));
    assert_eq!(parse_slot_bytes(b"99999999999999999999999"), None);
    assert_eq!(parse_slot_bytes(b""), None);
    assert_eq!(parse_slot_bytes(b"1a"), None);
    assert_eq!(split_bytes(b"a b", b' '), vec![b"a".to_vec(), b"b".to_vec()]);
    assert_eq!(split_bytes(b"", b' '), vec![Vec::<u8>::new()]);
    let mut slots = Vec::new();
    let mut out = Vec::new();
    let mut inn = Vec::new();
    assert!(parse_token(b"7-9", &mut slots, &mut out, &mut inn));
    assert_eq!(slots, vec![7, 8, 9]);
    assert!(!parse_token(b"1-2-3", &mut slots, &mut out, &mut inn));
}

#[test]
fn status_reply_entries() {
    let reply = b"cluster_state:ok\r\ncluster_known_nodes:6\r\nbad\r\na:b:c\r\n";
    let entries = Node::info(reply);
    assert_eq!(
        entries,
        vec![
            ("cluster_state".to_string(), "ok".to_string()),
            ("cluster_known_nodes".to_string(), "6".to_string()),
        ]
    );
    assert!(Node::info(b"").is_empty());
}
