use rckie::{divide, slpit_slots, spread, Chunk};

#[test]
fn test_split_slots() {
    let mut res = slpit_slots(100, 3).unwrap();
    println!("{:?}", res);
    assert_eq!(res.len(), 3);
    assert_eq!(res.pop(), Some(Chunk(67, 100)));
    assert_eq!(res.pop(), Some(Chunk(34, 67)));
    assert_eq!(res.pop(), Some(Chunk(0, 34)));
}

#[test]
fn test_spread() {
    let mut map = vec![vec!["aa::bb", "bb::bb"], vec!["cc::bb", "dd:bb"]];
    let mut target = spread(&mut map, 3).unwrap();
    assert_eq!(target.len(), 3);
    println!("{:?}", target.pop());
    println!("{:?}", target.pop());
    println!("{:?}", target.pop());
}

#[test]
fn divide_gives_remainder_to_first_buckets() {
    assert_eq!(divide(100, 3), vec![34, 33, 33]);
    assert_eq!(divide(16384, 4), vec![4096, 4096, 4096, 4096]);
    assert_eq!(divide(16384, 3), vec![5462, 5461, 5461]);
    assert_eq!(divide(0, 4), vec![0, 0, 0, 0]);
    assert_eq!(divide(7, 1), vec![7]);
}

#[test]
fn divide_laws_hold_on_samples() {
    for n in [0usize, 1, 5, 99, 100, 16384] {
        for m in 1usize..9 {
            let d = divide(n, m);
            assert_eq!(d.len(), m);
            assert_eq!(d.iter().sum::<usize>(), n);
            let max = *d.iter().max().unwrap();
            let min = *d.iter().min().unwrap();
            assert!(max - min <= 1);
            for i in 0..(n % m) {
                assert_eq!(d[i], (n + m - 1) / m);
            }
        }
    }
}

#[test]
fn split_slots_covers_range_end_to_end() {
    let res = slpit_slots(16384, 3).unwrap();
    assert_eq!(res, vec![Chunk(0, 5462), Chunk(5462, 10923), Chunk(10923, 16384)]);
    let res = slpit_slots(2, 4).unwrap();
    assert_eq!(res, vec![Chunk(0, 1), Chunk(1, 2), Chunk(2, 2), Chunk(2, 2)]);
    assert_eq!(slpit_slots(10, 0), None);
}

#[test]
fn spread_takes_one_per_host_before_a_second() {
    let mut hosts = vec![vec!["a1", "a2"], vec!["b1", "b2"]];
    let picked = spread(&mut hosts, 3).unwrap();
    assert_eq!(picked, vec!["a2", "b2", "a1"]);
    assert_eq!(hosts, vec![vec![], vec!["b1"]]);
    let mut hosts = vec![vec!["a1", "a2", "a3"], vec![], vec!["c1"]];
    let picked = spread(&mut hosts, 3).unwrap();
    assert_eq!(picked, vec!["a3", "c1", "a2"]);
}

#[test]
fn spread_refuses_when_too_few_candidates() {
    let mut hosts = vec![vec!["a1"], vec!["b1"]];
    assert_eq!(spread(&mut hosts, 3), None);
    assert_eq!(hosts, vec![vec!["a1"], vec!["b1"]]);
}
