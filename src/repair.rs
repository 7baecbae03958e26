use vstd::prelude::*;
use crate::cluster::{Cluster, Move};
use crate::node::{pairs_view, Node, Role};

verus! {

/// What `fix_slots` does for one slot left half handed over.
#[derive(Debug, Clone, Copy, PartialEq, Eq, Structural)]
pub enum Repair {
    /// Both halves are there: finish the hand-over.
    Resume(Move),
    /// Only one half is there: make the slot stable on `node`.
    Stabilize { node: usize, slot: usize },
}

/// Index of the first member with id `id`, or the number of members.
pub open spec fn find_named(ns: Seq<Node>, id: Seq<char>) -> int
    decreases ns.len(),
{
    if ns.len() == 0 {
        0
    } else if find_named(ns.drop_last(), id) < ns.len() - 1 {
        find_named(ns.drop_last(), id)
    } else if ns.last().name@ == id {
        ns.len() - 1
    } else {
        ns.len() as int
    }
}

proof fn lemma_find_named(ns: Seq<Node>, id: Seq<char>)
    ensures
        0 <= find_named(ns, id) <= ns.len(),
        find_named(ns, id) < ns.len() ==> ns[find_named(ns, id)].name@ == id,
    decreases ns.len(),
{
    if ns.len() > 0 {
        lemma_find_named(ns.drop_last(), id);
    }
}

pub open spec fn has_pair(v: Seq<(usize, Seq<char>)>, slot: usize, id: Seq<char>) -> bool {
    exists|k: int| 0 <= k < v.len() && v[k] == (slot, id)
}

/// The repair for entry `e` (slot, target id) of member `i`'s outgoing list.
pub open spec fn out_repair(ns: Seq<Node>, i: int, e: (usize, Seq<char>)) -> Repair {
    let j = find_named(ns, e.1);
    if j < ns.len() && has_pair(pairs_view(ns[j].importing@), e.0, ns[i].name@) {
        Repair::Resume(Move { slot: e.0, src: i as usize, dst: j as usize })
    } else {
        Repair::Stabilize { node: i as usize, slot: e.0 }
    }
}

/// Entry `e` (slot, source id) of master `j`'s incoming list is finished from
/// the source's side: the source is a master that lists the matching half.
pub open spec fn in_handled(ns: Seq<Node>, j: int, e: (usize, Seq<char>)) -> bool {
    let i = find_named(ns, e.1);
    &&& i < ns.len()
    &&& ns[i].role == Some(Role::Master)
    &&& has_pair(pairs_view(ns[i].migrating@), e.0, ns[j].name@)
    &&& find_named(ns, ns[j].name@) == j
}

pub open spec fn is_master(n: Node) -> bool {
    n.role == Some(Role::Master)
}

/// The repairs for the first `k` outgoing entries of member `i`.
pub open spec fn out_repairs_of(ns: Seq<Node>, i: int, k: nat) -> Seq<Repair>
    decreases k,
{
    if k == 0 {
        Seq::empty()
    } else {
        out_repairs_of(ns, i, (k - 1) as nat).push(
            out_repair(ns, i, pairs_view(ns[i].migrating@)[k - 1]),
        )
    }
}

/// The repairs for the first `k` incoming entries of member `j`.
pub open spec fn in_repairs_of(ns: Seq<Node>, j: int, k: nat) -> Seq<Repair>
    decreases k,
{
    if k == 0 {
        Seq::empty()
    } else {
        let e = pairs_view(ns[j].importing@)[k - 1];
        if in_handled(ns, j, e) {
            in_repairs_of(ns, j, (k - 1) as nat)
        } else {
            in_repairs_of(ns, j, (k - 1) as nat).push(Repair::Stabilize { node: j as usize, slot: e.0 })
        }
    }
}

/// The repairs for the outgoing entries of the first `upto` members.
pub open spec fn out_repairs(ns: Seq<Node>, upto: nat) -> Seq<Repair>
    decreases upto,
{
    if upto == 0 {
        Seq::empty()
    } else {
        let i = upto - 1;
        out_repairs(ns, (upto - 1) as nat) + if is_master(ns[i]) {
            out_repairs_of(ns, i, ns[i].migrating@.len())
        } else {
            Seq::empty()
        }
    }
}

/// The repairs for the incoming entries of the first `upto` members.
pub open spec fn in_repairs(ns: Seq<Node>, upto: nat) -> Seq<Repair>
    decreases upto,
{
    if upto == 0 {
        Seq::empty()
    } else {
        let j = upto - 1;
        in_repairs(ns, (upto - 1) as nat) + if is_master(ns[j]) {
            in_repairs_of(ns, j, ns[j].importing@.len())
        } else {
            Seq::empty()
        }
    }
}

fn find_named_exec(ns: &Vec<Node>, id: &String) -> (r: usize)
    ensures
        r == find_named(ns@, id@),
{
    let mut i: usize = 0;
    while i < ns.len()
        invariant
            i <= ns@.len(),
            find_named(ns@.take(i as int), id@) == i,
        decreases ns@.len() - i,
    {
        proof {
            assert(ns@.take(i + 1).drop_last() =~= ns@.take(i as int));
        }
        if ns[i].name == *id {
            proof {
                lemma_named_prefix(ns@, id@, i + 1);
            }
            return i;
        }
        i = i + 1;
    }
    assert(ns@.take(i as int) =~= ns@);
    i
}

proof fn lemma_named_prefix(ns: Seq<Node>, id: Seq<char>, k: int)
    requires
        0 < k <= ns.len(),
        find_named(ns.take(k), id) < k,
    ensures
        find_named(ns, id) == find_named(ns.take(k), id),
    decreases ns.len() - k,
{
    if k < ns.len() {
        assert(ns.take(k + 1).drop_last() =~= ns.take(k));
        lemma_named_prefix(ns, id, k + 1);
    } else {
        assert(ns.take(k) =~= ns);
    }
}

fn has_pair_exec(v: &Vec<(usize, String)>, slot: usize, id: &String) -> (r: bool)
    ensures
        r == has_pair(pairs_view(v@), slot, id@),
{
    let mut k: usize = 0;
    while k < v.len()
        invariant
            k <= v@.len(),
            forall|x: int| 0 <= x < k ==> pairs_view(v@)[x] != (slot, id@),
        decreases v@.len() - k,
    {
        if v[k].0 == slot && v[k].1 == *id {
            assert(pairs_view(v@)[k as int] == (slot, id@));
            return true;
        }
        k = k + 1;
    }
    false
}

impl Cluster {
    /// Plans the repair of slots left half handed over: for each master, in
    /// order, each outgoing slot is finished if the target lists the matching
    /// incoming half, else made stable on the master; then each incoming slot
    /// that its source does not finish is made stable on the master.
    pub fn fix_slots(&self) -> (r: Vec<Repair>)
        ensures
            r@ == out_repairs(self.nodes@, self.nodes@.len()) + in_repairs(
                self.nodes@,
                self.nodes@.len(),
            ),
    {
        let ghost ns = self.nodes@;
        let mut r: Vec<Repair> = Vec::new();
        let mut i: usize = 0;
        while i < self.nodes.len()
            invariant
                ns == self.nodes@,
                i <= ns.len(),
                r@ == out_repairs(ns, i as nat),
            decreases ns.len() - i,
        {
            let node = &self.nodes[i];
            let ghost r0 = r@;
            if node.is_master() {
                let mut k: usize = 0;
                while k < node.migrating.len()
                    invariant
                        ns == self.nodes@,
                        i < ns.len(),
                        *node == ns[i as int],
                        k <= node.migrating@.len(),
                        r@ == r0 + out_repairs_of(ns, i as int, k as nat),
                    decreases node.migrating@.len() - k,
                {
                    let slot = node.migrating[k].0;
                    let id = &node.migrating[k].1;
                    let j = find_named_exec(&self.nodes, id);
                    proof {
                        lemma_find_named(ns, id@);
                    }
                    let matched = j < self.nodes.len() && has_pair_exec(
                        &self.nodes[j].importing,
                        slot,
                        &node.name,
                    );
                    let rep = if matched {
                        Repair::Resume(Move { slot, src: i, dst: j })
                    } else {
                        Repair::Stabilize { node: i, slot }
                    };
                    assert(pairs_view(node.migrating@)[k as int] == (slot, id@));
                    assert(rep == out_repair(ns, i as int, pairs_view(node.migrating@)[k as int]));
                    r.push(rep);
                    k = k + 1;
                    assert(r@ =~= r0 + out_repairs_of(ns, i as int, k as nat));
                }
                assert(r@ =~= out_repairs(ns, (i + 1) as nat));
            } else {
                assert(r@ =~= out_repairs(ns, (i + 1) as nat));
            }
            i = i + 1;
        }
        let ghost outs = r@;
        let mut j: usize = 0;
        while j < self.nodes.len()
            invariant
                ns == self.nodes@,
                j <= ns.len(),
                outs == out_repairs(ns, ns.len()),
                r@ == outs + in_repairs(ns, j as nat),
            decreases ns.len() - j,
        {
            let node = &self.nodes[j];
            let ghost r0 = r@;
            if node.is_master() {
                let mut k: usize = 0;
                while k < node.importing.len()
                    invariant
                        ns == self.nodes@,
                        j < ns.len(),
                        *node == ns[j as int],
                        k <= node.importing@.len(),
                        r@ == r0 + in_repairs_of(ns, j as int, k as nat),
                    decreases node.importing@.len() - k,
                {
                    let slot = node.importing[k].0;
                    let id = &node.importing[k].1;
                    assert(pairs_view(node.importing@)[k as int] == (slot, id@));
                    let src = find_named_exec(&self.nodes, id);
                    proof {
                        lemma_find_named(ns, id@);
                    }
                    let handled = src < self.nodes.len() && self.nodes[src].is_master()
                        && has_pair_exec(&self.nodes[src].migrating, slot, &node.name)
                        && find_named_exec(&self.nodes, &node.name) == j;
                    if !handled {
                        r.push(Repair::Stabilize { node: j, slot });
                    }
                    k = k + 1;
                    assert(r@ =~= r0 + in_repairs_of(ns, j as int, k as nat));
                }
                assert(r@ =~= outs + in_repairs(ns, (j + 1) as nat));
            } else {
                assert(r@ =~= outs + in_repairs(ns, (j + 1) as nat));
            }
            j = j + 1;
        }
        r
    }

    /// The masters other than `a` and `b`, which are told a slot's new owner
    /// after the two members of a hand-over.
    pub fn others_of(&self, a: usize, b: usize) -> (r: Vec<usize>)
        ensures
            forall|k: int|
                0 <= k < r@.len() ==> #[trigger] r@[k] < self.nodes@.len() && is_master(
                    self.nodes@[r@[k] as int],
                ) && r@[k] != a && r@[k] != b,
            forall|x: int|
                0 <= x < self.nodes@.len() && is_master(self.nodes@[x]) && x != a && x != b
                    ==> r@.contains(x as usize),
            forall|k1: int, k2: int| 0 <= k1 < k2 < r@.len() ==> r@[k1] < r@[k2],
    {
        let mut r: Vec<usize> = Vec::new();
        let mut i: usize = 0;
        while i < self.nodes.len()
            invariant
                i <= self.nodes@.len(),
                forall|k: int|
                    0 <= k < r@.len() ==> #[trigger] r@[k] < i && is_master(
                        self.nodes@[r@[k] as int],
                    ) && r@[k] != a && r@[k] != b,
                forall|x: int|
                    0 <= x < i && is_master(self.nodes@[x]) && x != a && x != b ==> r@.contains(
                        x as usize,
                    ),
                forall|k1: int, k2: int| 0 <= k1 < k2 < r@.len() ==> r@[k1] < r@[k2],
            decreases self.nodes@.len() - i,
        {
            if self.nodes[i].is_master() && i != a && i != b {
                let ghost r0 = r@;
                r.push(i);
                assert forall|x: int|
                    0 <= x < i + 1 && is_master(self.nodes@[x]) && x != a && x != b implies r@.contains(
                        x as usize,
                    ) by {
                    if x < i {
                        let k = choose|k: int| 0 <= k < r0.len() && r0[k] == x as usize;
                        assert(r@[k] == x as usize);
                    } else {
                        assert(r@[r@.len() - 1] == x as usize);
                    }
                }
            }
            i = i + 1;
        }
        r
    }
}

} // verus!
