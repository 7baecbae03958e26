use vstd::prelude::*;
use vstd::string::StringSliceAdditionalSpecFns;
use crate::cluster::Cluster;
use crate::node::{fresh_node, same_record, valid_addr, Error, Node, Role};
use crate::slots::{
    group_views, offset, slpit_slots, spread, sum_lens, Chunk, CLUSTER_SLOTS,
};

verus! {

/// The number of masters a new cluster gets: the one asked for, or when none
/// is asked for, as many as the nodes allow with `slaves` replicas each.
pub open spec fn effective_masters(nodes: nat, masters: nat, slaves: nat) -> nat {
    if masters == 0 {
        nodes / (slaves + 1)
    } else {
        masters
    }
}

/// The least number of masters a cluster is made with.
pub const MIN_MASTERS: usize = 3;

/// A cluster being made from bare nodes.
pub struct Create {
    pub cluster: Cluster,
    pub master_count: usize,
    pub slave_count: usize,
    /// The slot range of each master, in the order of `master`.
    pub slots: Vec<Chunk>,
    pub master: Vec<Node>,
    pub slave: Vec<Node>,
}

/// `r` is candidate `c` made a replica of the master with id `master_id`.
pub open spec fn replica_of(r: Node, c: Node, master_id: Seq<char>) -> bool {
    &&& r.name@ == c.name@
    &&& r.ip@ == c.ip@
    &&& r.port@ == c.port@
    &&& r.role == Some(Role::Slave)
    &&& replicates(r, master_id)
}

/// `x` holds the same facts as one of the records of `ns`.
pub open spec fn copy_of(x: Node, ns: Seq<Node>) -> bool {
    exists|i: int| 0 <= i < ns.len() && same_record(x, #[trigger] ns[i])
}

/// `x` has the id and address of one of the records of `ns`.
pub open spec fn named_in(x: Node, ns: Seq<Node>) -> bool {
    exists|i: int|
        0 <= i < ns.len() && x.name@ == (#[trigger] ns[i]).name@ && x.ip@ == ns[i].ip@ && x.port@
            == ns[i].port@
}

/// Every item of every group is a copy of a record of `ns`.
pub open spec fn groups_copy(gs: Seq<Vec<Node>>, ns: Seq<Node>) -> bool {
    forall|g: int, x: int| 0 <= g < gs.len() && 0 <= x < gs[g]@.len() ==> copy_of(#[trigger] gs[g]@[x], ns)
}

/// `r` names the member with id `master_id` as its master.
pub open spec fn replicates(r: Node, master_id: Seq<char>) -> bool {
    r.slaveof matches Some(m) && m@ == master_id
}

impl Create {
    /// Records the nodes at `addrs`; `BadAddr` if one is not `host:port`,
    /// `BadCluster` if fewer than `MIN_MASTERS` masters would result.
    pub fn new(addrs: Vec<&str>, master_count: usize, slave_count: usize) -> (r: Result<
        Create,
        Error,
    >)
        ensures
            (exists|i: int|
                0 <= i < addrs@.len() && !valid_addr(#[trigger] addrs@[i].spec_bytes())) ==> r
                == Err::<Create, Error>(Error::BadAddr),
            (forall|i: int| 0 <= i < addrs@.len() ==> valid_addr(#[trigger] addrs@[i].spec_bytes()))
                ==> {
                let m = effective_masters(addrs@.len(), master_count as nat, slave_count as nat);
                &&& r is Err <==> m < MIN_MASTERS
                &&& r matches Err(e) ==> e == Error::BadCluster
                &&& r matches Ok(c) ==> {
                    &&& c.master_count == m
                    &&& c.slave_count == slave_count
                    &&& c.slots@.len() == 0
                    &&& c.master@.len() == 0
                    &&& c.slave@.len() == 0
                    &&& c.cluster.nodes@.len() == addrs@.len()
                    &&& forall|i: int|
                        0 <= i < addrs@.len() ==> fresh_node(
                            #[trigger] c.cluster.nodes@[i],
                            addrs@[i].spec_bytes(),
                        )
                }
            },
    {
        let mut nodes: Vec<Node> = Vec::new();
        let mut i: usize = 0;
        while i < addrs.len()
            invariant
                i <= addrs@.len(),
                nodes@.len() == i,
                forall|j: int| 0 <= j < i ==> valid_addr(#[trigger] addrs@[j].spec_bytes()),
                forall|j: int| 0 <= j < i ==> fresh_node(#[trigger] nodes@[j], addrs@[j].spec_bytes()),
            decreases addrs@.len() - i,
        {
            match Node::new(addrs[i].as_bytes()) {
                Ok(n) => nodes.push(n),
                Err(e) => {
                    return Err(e);
                },
            }
            i = i + 1;
        }
        let mut masters = master_count;
        if masters == 0 {
            masters = if slave_count == usize::MAX {
                0
            } else {
                nodes.len() / (slave_count + 1)
            };
            proof {
                if slave_count == usize::MAX {
                    vstd::arithmetic::div_mod::lemma_basic_div(
                        nodes@.len() as int,
                        slave_count + 1,
                    );
                }
            }
        }
        if masters < MIN_MASTERS {
            return Err(Error::BadCluster);
        }
        Ok(
            Create {
                cluster: Cluster::new(nodes),
                master_count: masters,
                slave_count,
                slots: Vec::new(),
                master: Vec::new(),
                slave: Vec::new(),
            },
        )
    }

    /// Chooses masters and replicas so that, while hosts remain, no two share
    /// a host; splits the slots among the masters; and assigns the replicas
    /// to the masters in turn. `BadCluster` unless there are at least
    /// `master_count` nodes, and at least one is asked for.
    pub fn init_slots(&mut self) -> (r: Result<(), Error>)
        ensures
            r is Ok <==> 1 <= old(self).master_count <= old(self).cluster.nodes@.len(),
            r matches Err(e) ==> e == Error::BadCluster,
            r is Ok ==> {
                let m = old(self).master_count;
                let n = old(self).cluster.nodes@.len();
                &&& final(self).cluster == old(self).cluster
                &&& final(self).master@.len() == m
                &&& forall|k: int| 0 <= k < m ==> copy_of(#[trigger] final(self).master@[k], old(self).cluster.nodes@)
                &&& forall|k: int|
                    old(self).slave@.len() <= k < final(self).slave@.len() ==> named_in(
                        #[trigger] final(self).slave@[k],
                        old(self).cluster.nodes@,
                    )
                &&& final(self).slots@.len() == m
                &&& forall|i: int|
                    0 <= i < m ==> (#[trigger] final(self).slots@[i]).0 == offset(
                        CLUSTER_SLOTS as nat,
                        m as nat,
                        i as nat,
                    ) && final(self).slots@[i].1 == offset(
                        CLUSTER_SLOTS as nat,
                        m as nat,
                        (i + 1) as nat,
                    )
                &&& final(self).slave@.len() == old(self).slave@.len() + (n - m)
                &&& forall|k: int|
                    old(self).slave@.len() <= k < final(self).slave@.len() ==> replicates(
                        #[trigger] final(self).slave@[k],
                        final(self).master@[(k - old(self).slave@.len()) % (m as int)].name@,
                    )
            },
    {
        let mut groups: Vec<Vec<Node>> = Vec::new();
        let mut i: usize = 0;
        while i < self.cluster.nodes.len()
            invariant
                i <= self.cluster.nodes@.len(),
                groups_copy(groups@, self.cluster.nodes@),
                sum_lens(group_views(groups@)) == i,
                forall|g: int| 0 <= g < groups@.len() ==> #[trigger] groups@[g]@.len() >= 1,
            decreases self.cluster.nodes@.len() - i,
        {
            let node = &self.cluster.nodes[i];
            let mut g: usize = 0;
            let mut found = false;
            while g < groups.len() && !found
                invariant
                    g <= groups@.len(),
                    found ==> g < groups@.len(),
                    forall|x: int| 0 <= x < groups@.len() ==> #[trigger] groups@[x]@.len() >= 1,
                decreases groups@.len() - g, !found as int,
            {
                if groups[g][0].ip == node.ip {
                    found = true;
                } else {
                    g = g + 1;
                }
            }
            let ghost gv = group_views(groups@);
            let ghost gs0 = groups@;
            let copy = node.duplicate();
            assert(copy_of(copy, self.cluster.nodes@)) by {
                assert(same_record(copy, self.cluster.nodes@[i as int]));
            }
            if found {
                groups[g].push(copy);
                assert forall|a: int, x: int|
                    0 <= a < groups@.len() && 0 <= x < groups@[a]@.len() implies copy_of(
                    #[trigger] groups@[a]@[x],
                    self.cluster.nodes@,
                ) by {
                    if a != g || x < gs0[a]@.len() {
                        assert(groups@[a]@[x] == gs0[a]@[x]);
                    }
                }
                proof {
                    assert(group_views(groups@) =~= gv.update(g as int, groups@[g as int]@));
                    crate::slots::lemma_sum_lens_update(gv, g as int, groups@[g as int]@);
                }
            } else {
                let mut fresh: Vec<Node> = Vec::new();
                fresh.push(copy);
                groups.push(fresh);
                assert forall|a: int, x: int|
                    0 <= a < groups@.len() && 0 <= x < groups@[a]@.len() implies copy_of(
                    #[trigger] groups@[a]@[x],
                    self.cluster.nodes@,
                ) by {
                    if a < gs0.len() {
                        assert(groups@[a] == gs0[a]);
                    }
                }
                proof {
                    assert(group_views(groups@).drop_last() =~= gv);
                }
            }
            i = i + 1;
        }
        if self.master_count == 0 {
            return Err(Error::BadCluster);
        }
        let ghost start = groups@;
        let masters = match spread(&mut groups, self.master_count) {
            Some(v) => v,
            None => {
                return Err(Error::BadCluster);
            },
        };
        let slots = match slpit_slots(CLUSTER_SLOTS, self.master_count) {
            Some(v) => v,
            None => {
                return Err(Error::BadCluster);
            },
        };
        assert forall|k: int| 0 <= k < masters@.len() implies copy_of(
            #[trigger] masters@[k],
            self.cluster.nodes@,
        ) by {
            assert(crate::slots::came_from(start, groups@, masters@[k]));
            let (g, x) = choose|g: int, x: int|
                0 <= g < start.len() && groups@[g]@.len() <= x < start[g]@.len() && masters@[k]
                    == #[trigger] start[g]@[x];
        }
        assert(groups_copy(groups@, self.cluster.nodes@)) by {
            assert forall|g: int, x: int| 0 <= g < groups@.len() && 0 <= x < groups@[g]@.len() implies copy_of(
                #[trigger] groups@[g]@[x],
                self.cluster.nodes@,
            ) by {
                assert(groups@[g]@ == start[g]@.take(groups@[g]@.len() as int));
                assert(groups@[g]@[x] == start[g]@[x]);
            }
        }
        let ghost second = groups@;
        let rest = self.cluster.nodes.len() - self.master_count;
        let slaves = match spread(&mut groups, rest) {
            Some(v) => v,
            None => {
                return Err(Error::BadCluster);
            },
        };
        let ghost base = self.slave@.len();
        let ghost m = self.master_count as int;
        self.master = masters;
        self.slots = slots;
        self.distribute_slave(slaves);
        assert forall|k: int| base <= k < self.slave@.len() implies named_in(
            #[trigger] self.slave@[k],
            self.cluster.nodes@,
        ) by {
            assert(replica_of(self.slave@[base + (k - base)], slaves@[k - base], self.master@[(k - base) % m].name@));
            assert(crate::slots::came_from(second, groups@, slaves@[k - base]));
            let (g, x) = choose|g: int, x: int|
                0 <= g < second.len() && groups@[g]@.len() <= x < second[g]@.len() && slaves@[k - base]
                    == #[trigger] second[g]@[x];
            assert(copy_of(second[g]@[x], self.cluster.nodes@));
        }
        assert forall|k: int| base <= k < self.slave@.len() implies replicates(
            #[trigger] self.slave@[k],
            self.master@[(k - base) % m].name@,
        ) by {
            assert(replica_of(self.slave@[base + (k - base)], slaves@[k - base], self.master@[(k - base) % m].name@));
        }
        Ok(())
    }

    /// Assigns `slaves` to the masters in turn: the `k`-th replicates master
    /// `k % master.len()`.
    fn distribute_slave(&mut self, slaves: Vec<Node>)
        requires
            old(self).master@.len() >= 1,
        ensures
            final(self).master == old(self).master,
            final(self).slots == old(self).slots,
            final(self).cluster == old(self).cluster,
            final(self).master_count == old(self).master_count,
            final(self).slave@.len() == old(self).slave@.len() + slaves@.len(),
            forall|k: int|
                0 <= k < old(self).slave@.len() ==> #[trigger] final(self).slave@[k] == old(
                    self,
                ).slave@[k],
            forall|k: int|
                0 <= k < slaves@.len() ==> replica_of(
                    #[trigger] final(self).slave@[old(self).slave@.len() + k],
                    slaves@[k],
                    old(self).master@[k % old(self).master@.len() as int].name@,
                ),
    {
        let base = self.slave.len();
        let m = self.master.len();
        let mut k: usize = 0;
        while k < slaves.len()
            invariant
                self.master == old(self).master,
                self.slots == old(self).slots,
                self.cluster == old(self).cluster,
                self.master_count == old(self).master_count,
                m == self.master@.len(),
                m >= 1,
                base == old(self).slave@.len(),
                k <= slaves@.len(),
                self.slave@.len() == base + k,
                forall|x: int| 0 <= x < base ==> #[trigger] self.slave@[x] == old(self).slave@[x],
                forall|x: int|
                    0 <= x < k ==> replica_of(
                        #[trigger] self.slave@[base + x],
                        slaves@[x],
                        self.master@[x % m as int].name@,
                    ),
            decreases slaves@.len() - k,
        {
            let mut s = slaves[k].duplicate();
            s.role = Some(Role::Slave);
            s.slaveof = Some(self.master[k % m].name.clone());
            self.slave.push(s);
            k = k + 1;
        }
    }

    /// The slots each master is to claim, in the order of `master`.
    pub fn add_slots(&self) -> (r: Vec<Vec<usize>>)
        ensures
            r@.len() == if self.master@.len() < self.slots@.len() {
                self.master@.len()
            } else {
                self.slots@.len()
            },
            forall|i: int|
                0 <= i < r@.len() ==> (#[trigger] r@[i])@ == Seq::new(
                    if self.slots@[i].0 <= self.slots@[i].1 {
                        (self.slots@[i].1 - self.slots@[i].0) as nat
                    } else {
                        0nat
                    },
                    |x: int| (self.slots@[i].0 + x) as usize,
                ),
    {
        let n = if self.master.len() < self.slots.len() {
            self.master.len()
        } else {
            self.slots.len()
        };
        let mut r: Vec<Vec<usize>> = Vec::new();
        let mut i: usize = 0;
        while i < n
            invariant
                n <= self.slots@.len(),
                i <= n,
                r@.len() == i,
                forall|j: int|
                    0 <= j < i ==> (#[trigger] r@[j])@ == Seq::new(
                        if self.slots@[j].0 <= self.slots@[j].1 {
                            (self.slots@[j].1 - self.slots@[j].0) as nat
                        } else {
                            0nat
                        },
                        |x: int| (self.slots@[j].0 + x) as usize,
                    ),
            decreases n - i,
        {
            let start = self.slots[i].0;
            let end = self.slots[i].1;
            let mut v: Vec<usize> = Vec::new();
            let mut s: usize = start;
            while s < end
                invariant
                    start <= s,
                    start <= end ==> s <= end,
                    start > end ==> s == start,
                    v@ == Seq::new((s - start) as nat, |x: int| (start + x) as usize),
                decreases end - s,
            {
                v.push(s);
                s = s + 1;
                assert(v@ =~= Seq::new((s - start) as nat, |x: int| (start + x) as usize));
            }
            assert(v@ =~= Seq::new(
                if start <= end {
                    (end - start) as nat
                } else {
                    0nat
                },
                |x: int| (start + x) as usize,
            ));
            r.push(v);
            i = i + 1;
        }
        r
    }

    /// Takes out the last node, which is to meet all the others.
    pub fn join_cluster(&mut self) -> (r: Option<Node>)
        ensures
            old(self).cluster.nodes@.len() == 0 ==> r is None && final(self).cluster.nodes@
                == old(self).cluster.nodes@,
            old(self).cluster.nodes@.len() > 0 ==> r == Some(old(self).cluster.nodes@.last())
                && final(self).cluster.nodes@ == old(self).cluster.nodes@.drop_last(),
    {
        self.cluster.nodes.pop()
    }

    /// Whether the member lists the nodes report show a consistent cluster
    /// (see `Cluster::consistency`).
    pub fn consistent(&self, views: &Vec<Vec<Node>>) -> (r: bool)
        ensures
            r == (views@.len() == self.cluster.nodes@.len() && (forall|i: int|
                0 <= i < views@.len() ==> crate::cluster::report_partitions(#[trigger] views@[i]@))
                && crate::cluster::reports_agree(crate::cluster::reports_of(views@))),
    {
        self.cluster.consistency(views)
    }
}

} // verus!
