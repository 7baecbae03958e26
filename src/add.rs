use vstd::prelude::*;
use vstd::utf8::encode_utf8;
use crate::cluster::Cluster;
use crate::create::replicates;
use crate::node::{fresh_node, Error, Node, Role};
use crate::node::valid_addr;
use crate::topology::{split_at_byte, split_bytes};

verus! {

/// The byte between a new master and its replica in an entry.
pub const COMMA: u8 = 44;

/// An entry names a new master, optionally followed by `,` and its replica.
pub open spec fn entry_ok(e: Seq<u8>) -> bool {
    let p = split_at_byte(e, COMMA);
    (p.len() == 1 && valid_addr(p[0])) || (p.len() == 2 && valid_addr(p[0]) && valid_addr(p[1]))
}

/// The addresses of the new members, entry by entry.
pub open spec fn new_addrs(es: Seq<Seq<u8>>) -> Seq<Seq<u8>>
    decreases es.len(),
{
    if es.len() == 0 {
        Seq::empty()
    } else {
        new_addrs(es.drop_last()) + split_at_byte(es.last(), COMMA)
    }
}

/// For each new member, the index of its master when it is a replica.
pub open spec fn masters_for(es: Seq<Seq<u8>>) -> Seq<Option<usize>>
    decreases es.len(),
{
    if es.len() == 0 {
        Seq::empty()
    } else {
        let base = new_addrs(es.drop_last()).len();
        if split_at_byte(es.last(), COMMA).len() == 2 {
            masters_for(es.drop_last()).push(None).push(Some(base as usize))
        } else {
            masters_for(es.drop_last()).push(None)
        }
    }
}

/// The entries as bytes.
pub open spec fn entries_of(addrs: Seq<String>) -> Seq<Seq<u8>> {
    Seq::new(addrs.len(), |i: int| encode_utf8(addrs[i]@))
}

/// New members joining a cluster through one of its members.
pub struct Add {
    pub origin: String,
    pub cluster: Cluster,
    /// The member of the cluster the new ones are introduced to.
    pub node: Node,
    /// For each new member, the index of its master when it is a replica.
    pub slave_master: Vec<Option<usize>>,
}

impl Add {
    /// Every replica's master is one of the new members.
    pub open spec fn wf(&self) -> bool {
        &&& self.slave_master@.len() == self.cluster.nodes@.len()
        &&& forall|i: int|
            0 <= i < self.slave_master@.len() ==> (#[trigger] self.slave_master@[i] matches Some(m)
                ==> m < self.cluster.nodes@.len())
    }

    /// Records the member at `origin` and the new members of `addrs`, each
    /// `master` or `master,replica`; `BadAddr` if an address is not
    /// `host:port` or an entry has more than two.
    pub fn new(origin: String, addrs: Vec<String>) -> (r: Result<Add, Error>)
        ensures
            r is Ok <==> valid_addr(encode_utf8(origin@)) && forall|i: int|
                0 <= i < addrs@.len() ==> entry_ok(#[trigger] entries_of(addrs@)[i]),
            r matches Err(e) ==> e == Error::BadAddr,
            r matches Ok(a) ==> {
                let es = entries_of(addrs@);
                &&& a.wf()
                &&& a.origin@ == origin@
                &&& fresh_node(a.node, encode_utf8(origin@))
                &&& a.cluster.nodes@.len() == new_addrs(es).len()
                &&& a.slave_master@ == masters_for(es)
                &&& forall|i: int|
                    0 <= i < a.cluster.nodes@.len() ==> {
                        let n = #[trigger] a.cluster.nodes@[i];
                        &&& n.name@ == crate::node::text_of(new_addrs(es)[i])
                        &&& n.ip@ == crate::node::text_of(crate::node::host_part(new_addrs(es)[i]))
                        &&& n.port@ == crate::node::text_of(crate::node::port_part(new_addrs(es)[i]))
                        &&& n.role == if masters_for(es)[i] is Some {
                            Some(Role::Slave)
                        } else {
                            None
                        }
                        &&& n.slaveof is None
                    }
            },
    {
        let ghost es = entries_of(addrs@);
        let node = match Node::new(origin.as_str().as_bytes()) {
            Ok(n) => n,
            Err(e) => {
                return Err(e);
            },
        };
        let mut nodes: Vec<Node> = Vec::new();
        let mut sm: Vec<Option<usize>> = Vec::new();
        let mut i: usize = 0;
        while i < addrs.len()
            invariant
                es == entries_of(addrs@),
                i <= addrs@.len(),
                forall|j: int| 0 <= j < i ==> entry_ok(#[trigger] es[j]),
                nodes@.len() == new_addrs(es.take(i as int)).len(),
                sm@.len() == nodes@.len(),
                sm@ == masters_for(es.take(i as int)),
                forall|j: int|
                    0 <= j < sm@.len() ==> (#[trigger] sm@[j] matches Some(m) ==> m < nodes@.len()),
                forall|j: int|
                    0 <= j < nodes@.len() ==> {
                        let n = #[trigger] nodes@[j];
                        &&& n.name@ == crate::node::text_of(new_addrs(es.take(i as int))[j])
                        &&& n.ip@ == crate::node::text_of(
                            crate::node::host_part(new_addrs(es.take(i as int))[j]),
                        )
                        &&& n.port@ == crate::node::text_of(
                            crate::node::port_part(new_addrs(es.take(i as int))[j]),
                        )
                        &&& n.role == if sm@[j] is Some {
                            Some(Role::Slave)
                        } else {
                            None
                        }
                        &&& n.slaveof is None
                    },
            decreases addrs@.len() - i,
        {
            let bytes = addrs[i].as_str().as_bytes();
            assert(bytes@ == es[i as int]);
            let parts = split_bytes(bytes, COMMA);
            let ghost tk = es.take(i + 1);
            assert(tk.drop_last() =~= es.take(i as int));
            assert(tk.last() == es[i as int]);
            let ghost before = new_addrs(es.take(i as int));
            if parts.len() != 1 && parts.len() != 2 {
                return Err(Error::BadAddr);
            }
            assert(parts[0]@ == split_at_byte(es[i as int], COMMA)[0]);
            let master = match Node::new(parts[0].as_slice()) {
                Ok(n) => n,
                Err(e) => {
                    return Err(e);
                },
            };
            if parts.len() == 2 {
                assert(parts[1]@ == split_at_byte(es[i as int], COMMA)[1]);
                let mut slave = match Node::new(parts[1].as_slice()) {
                    Ok(n) => n,
                    Err(e) => {
                        return Err(e);
                    },
                };
                slave.role = Some(Role::Slave);
                let base = nodes.len();
                let ghost nodes0 = nodes@;
                let ghost sm0 = sm@;
                nodes.push(master);
                nodes.push(slave);
                sm.push(None);
                sm.push(Some(base));
                assert(new_addrs(tk) =~= before + split_at_byte(es[i as int], COMMA));
                assert(sm@ =~= masters_for(tk));
                assert forall|j: int| 0 <= j < nodes@.len() implies {
                    let n = #[trigger] nodes@[j];
                    &&& n.name@ == crate::node::text_of(new_addrs(tk)[j])
                    &&& n.ip@ == crate::node::text_of(crate::node::host_part(new_addrs(tk)[j]))
                    &&& n.port@ == crate::node::text_of(crate::node::port_part(new_addrs(tk)[j]))
                    &&& n.role == if sm@[j] is Some {
                        Some(Role::Slave)
                    } else {
                        None
                    }
                    &&& n.slaveof is None
                } by {
                    if j < base {
                        assert(nodes@[j] == nodes0[j]);
                        assert(sm@[j] == sm0[j]);
                        assert(new_addrs(tk)[j] == before[j]);
                    } else if j == base {
                        assert(new_addrs(tk)[j] == parts[0]@);
                    } else {
                        assert(new_addrs(tk)[j] == parts[1]@);
                    }
                }
            } else {
                let base = nodes.len();
                let ghost nodes0 = nodes@;
                let ghost sm0 = sm@;
                nodes.push(master);
                sm.push(None);
                assert(new_addrs(tk) =~= before + split_at_byte(es[i as int], COMMA));
                assert(sm@ =~= masters_for(tk));
                assert forall|j: int| 0 <= j < nodes@.len() implies {
                    let n = #[trigger] nodes@[j];
                    &&& n.name@ == crate::node::text_of(new_addrs(tk)[j])
                    &&& n.ip@ == crate::node::text_of(crate::node::host_part(new_addrs(tk)[j]))
                    &&& n.port@ == crate::node::text_of(crate::node::port_part(new_addrs(tk)[j]))
                    &&& n.role == if sm@[j] is Some {
                        Some(Role::Slave)
                    } else {
                        None
                    }
                    &&& n.slaveof is None
                } by {
                    if j < base {
                        assert(nodes@[j] == nodes0[j]);
                        assert(sm@[j] == sm0[j]);
                        assert(new_addrs(tk)[j] == before[j]);
                    } else {
                        assert(new_addrs(tk)[j] == parts[0]@);
                    }
                }
            }
            i = i + 1;
        }
        assert(es.take(i as int) =~= es);
        Ok(Add { origin, cluster: Cluster::new(nodes), node, slave_master: sm })
    }

    /// Points each new replica at its master's id, once the members' ids are
    /// known, and returns the indices of the replicas that are to be told.
    pub fn set_slave(&mut self) -> (r: Vec<usize>)
        requires
            old(self).wf(),
        ensures
            final(self).wf(),
            final(self).slave_master@ == old(self).slave_master@,
            final(self).cluster.nodes@.len() == old(self).cluster.nodes@.len(),
            forall|i: int|
                0 <= i < old(self).cluster.nodes@.len() ==> {
                    let n = #[trigger] final(self).cluster.nodes@[i];
                    let o = old(self).cluster.nodes@[i];
                    &&& n.name@ == o.name@
                    &&& n.ip@ == o.ip@
                    &&& n.port@ == o.port@
                    &&& n.role == o.role
                    &&& n.slots@ == o.slots@
                    &&& match old(self).slave_master@[i] {
                        Some(m) => replicates(n, old(self).cluster.nodes@[m as int].name@),
                        None => crate::node::opt_view(n.slaveof) == crate::node::opt_view(o.slaveof),
                    }
                },
            forall|k: int|
                0 <= k < r@.len() ==> old(self).slave_master@[#[trigger] r@[k] as int] is Some,
            forall|i: int|
                0 <= i < old(self).slave_master@.len() && old(self).slave_master@[i] is Some
                    ==> r@.contains(i as usize),
    {
        let mut told: Vec<usize> = Vec::new();
        let mut i: usize = 0;
        while i < self.cluster.nodes.len()
            invariant
                self.wf(),
                self.slave_master@ == old(self).slave_master@,
                self.origin == old(self).origin,
                self.cluster.nodes@.len() == old(self).cluster.nodes@.len(),
                i <= self.cluster.nodes@.len(),
                forall|j: int|
                    0 <= j < self.cluster.nodes@.len() ==> (#[trigger] self.cluster.nodes@[j]).name@
                        == old(self).cluster.nodes@[j].name@,
                forall|j: int|
                    0 <= j < old(self).cluster.nodes@.len() ==> {
                        let n = #[trigger] self.cluster.nodes@[j];
                        let o = old(self).cluster.nodes@[j];
                        &&& n.name@ == o.name@
                        &&& n.ip@ == o.ip@
                        &&& n.port@ == o.port@
                        &&& n.role == o.role
                        &&& n.slots@ == o.slots@
                        &&& (j >= i ==> crate::node::opt_view(n.slaveof) == crate::node::opt_view(
                            o.slaveof,
                        ))
                        &&& (j < i ==> match old(self).slave_master@[j] {
                            Some(m) => replicates(n, old(self).cluster.nodes@[m as int].name@),
                            None => crate::node::opt_view(n.slaveof) == crate::node::opt_view(
                                o.slaveof,
                            ),
                        })
                    },
                forall|k: int|
                    0 <= k < told@.len() ==> old(self).slave_master@[#[trigger] told@[k] as int] is Some,
                forall|j: int|
                    0 <= j < i && old(self).slave_master@[j] is Some ==> told@.contains(j as usize),
            decreases self.cluster.nodes@.len() - i,
        {
            match self.slave_master[i] {
                Some(m) => {
                    let id = self.cluster.nodes[m].name.clone();
                    self.cluster.nodes[i].slaveof = Some(id);
                    let ghost told0 = told@;
                    told.push(i);
                    assert(told@[told@.len() - 1] == i);
                    assert forall|j: int|
                        0 <= j < i + 1 && old(self).slave_master@[j] is Some implies told@.contains(
                            j as usize,
                        ) by {
                        if j < i {
                            let k = choose|k: int| 0 <= k < told0.len() && told0[k] == j as usize;
                            assert(told@[k] == j as usize);
                        }
                    }
                },
                None => {},
            }
            i = i + 1;
        }
        told
    }
}

} // verus!
