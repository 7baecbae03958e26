use rckie::{migrate_slot, Action, Add, Create, Error, Event, Phase, Role, SlotState};

#[test]
fn test_cluster() {
    let mut addrs: Vec<&str> = Vec::new();
    addrs.push("127.0.0.1:9999");
    addrs.push("127.0.0.2:8888");
    addrs.push("127.0.0.3:8888");
    addrs.push("127.0.0.4:8888");
    addrs.push("127.0.0.1:8889");
    addrs.push("127.0.0.2:8889");
    addrs.push("127.0.0.3:8889");
    addrs.push("127.0.0.4:8889");

    let mut cluster = Create::new(addrs, 4, 4).unwrap();
    cluster.init_slots().unwrap();
    assert_eq!(cluster.master.len(), 4);
    assert_eq!(cluster.slots.len(), 4);
    assert_eq!(cluster.slave.len(), 4);
    println!("{:?}", cluster.slave.pop());
    println!("{:?}", cluster.slave.pop());
    println!("{:?}", cluster.slave.pop());
    println!("{:?}", cluster.slave.pop());
}

#[test]
fn create_puts_masters_on_distinct_hosts() {
    let addrs = vec![
        "10.0.0.1:7000",
        "10.0.0.1:7001",
        "10.0.0.2:7000",
        "10.0.0.2:7001",
        "10.0.0.3:7000",
        "10.0.0.3:7001",
    ];
    let mut c = Create::new(addrs, 0, 1).unwrap();
    assert_eq!(c.master_count, 3);
    c.init_slots().unwrap();
    let mut hosts: Vec<String> = c.master.iter().map(|n| n.ip.clone()).collect();
    hosts.sort();
    assert_eq!(hosts, vec!["10.0.0.1", "10.0.0.2", "10.0.0.3"]);
    assert_eq!(c.slave.len(), 3);
    for (k, s) in c.slave.iter().enumerate() {
        assert_eq!(s.slaveof, Some(c.master[k % 3].name.clone()));
        assert_eq!(s.role, Some(Role::Slave));
    }
    let plan = c.add_slots();
    assert_eq!(plan.len(), 3);
    assert_eq!(plan[0].len(), 5462);
    assert_eq!(plan[2][0], 10923);
    assert_eq!(*plan[2].last().unwrap(), 16383);
    let last = c.join_cluster().unwrap();
    assert_eq!(last.port, "7001");
    assert_eq!(c.cluster.len(), 5);
}

#[test]
fn create_refuses_bad_input() {
    assert_eq!(Create::new(vec!["a:1", "b"], 3, 0).err(), Some(Error::BadAddr));
    assert_eq!(Create::new(vec!["a:1", "b:1"], 2, 0).err(), Some(Error::BadCluster));
    assert_eq!(Create::new(vec!["a:1", "b:1", "c:1"], 0, 1).err(), Some(Error::BadCluster));
    let mut c = Create::new(vec!["a:1", "b:1"], 3, 0).unwrap();
    assert_eq!(c.init_slots(), Err(Error::BadCluster));
}

#[test]
fn add_pairs_replicas_with_their_masters() {
    let mut add = Add::new(
        "127.0.0.1:7000".to_string(),
        vec!["127.0.0.1:7100,127.0.0.2:7100".to_string(), "127.0.0.1:7200".to_string()],
    )
    .unwrap();
    assert_eq!(add.node.port, "7000");
    assert_eq!(add.cluster.len(), 3);
    assert_eq!(add.cluster.nodes[1].ip, "127.0.0.2");
    assert_eq!(add.cluster.nodes[1].role, Some(Role::Slave));
    assert_eq!(add.slave_master, vec![None, Some(0), None]);
    add.cluster.nodes[0].name = "new-master-id".to_string();
    let told = add.set_slave();
    assert_eq!(told, vec![1]);
    assert_eq!(add.cluster.nodes[1].slaveof, Some("new-master-id".to_string()));
    assert_eq!(add.cluster.nodes[2].slaveof, None);
    assert_eq!(
        Add::new("x:1".to_string(), vec!["a:1,b:1,c:1".to_string()]).err(),
        Some(Error::BadAddr)
    );
    assert_eq!(Add::new("x".to_string(), vec![]).err(), Some(Error::BadAddr));
}

#[test]
fn migration_drains_then_assigns_everywhere() {
    let mut m = migrate_slot(42, 0, 1, vec![2]);
    let set = |node, state, owner| Action::SetSlot { node, slot: 42, state, owner };
    assert_eq!(m.next(Event::Ack), set(1, SlotState::Importing, 0));
    assert_eq!(m.next(Event::Ack), set(0, SlotState::Migrating, 1));
    assert_eq!(m.next(Event::Ack), Action::GetKeys { node: 0, slot: 42, limit: 100 });
    assert_eq!(m.next(Event::Keys(3)), Action::MoveKeys { from: 0, to: 1 });
    assert_eq!(m.next(Event::Moved), Action::GetKeys { node: 0, slot: 42, limit: 100 });
    assert_eq!(m.next(Event::Keys(0)), set(0, SlotState::Node, 1));
    assert_eq!(m.outcome(), None);
    assert_eq!(m.next(Event::Ack), set(1, SlotState::Node, 1));
    assert_eq!(m.next(Event::Ack), set(2, SlotState::Node, 1));
    assert_eq!(m.next(Event::Ack), Action::Done);
    assert!(m.finished());
    assert_eq!(m.outcome(), Some(Ok(())));
}

#[test]
fn migration_failure_leaves_slot_for_repair() {
    let mut m = migrate_slot(7, 3, 4, vec![]);
    m.next(Event::Ack);
    m.next(Event::Ack);
    m.next(Event::Ack);
    m.next(Event::Keys(5));
    assert_eq!(m.next(Event::Failed), Action::Failed);
    assert_eq!(m.phase, Phase::Failed);
    assert_eq!(m.outcome(), Some(Err(Error::Migration)));
    assert_eq!(m.next(Event::Ack), Action::Failed);
}
