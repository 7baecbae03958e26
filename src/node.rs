use vstd::prelude::*;
use vstd::utf8::{decode_utf8, valid_utf8};

verus! {

/// What a member does in the cluster.
#[derive(Debug, Clone, Copy, PartialEq, Eq, Structural)]
pub enum Role {
    Master,
    Slave,
}

/// Why an operation on the cluster was refused.
#[derive(Debug, Clone, Copy, PartialEq, Eq, Structural)]
pub enum Error {
    /// An address is not of the form `host:port`.
    BadAddr,
    /// A topology report is malformed, or the cluster is unfit for the request.
    BadCluster,
    /// A batch of keys could not be moved while a slot was handed over.
    Migration,
}

/// What `String::from_utf8_lossy` makes of a byte string.
pub uninterp spec fn text_of(b: Seq<u8>) -> Seq<char>;

/// Relies on `String::from_utf8_lossy`: the result depends on the bytes alone,
/// and valid UTF-8 is decoded as it stands.
#[verifier::external_body]
pub(crate) fn text(b: &[u8]) -> (r: String)
    ensures
        r@ == text_of(b@),
        valid_utf8(b@) ==> r@ == decode_utf8(b@),
{
    String::from_utf8_lossy(b).into_owned()
}

/// How many times byte `c` occurs in `b`.
pub open spec fn count_byte(b: Seq<u8>, c: u8) -> nat
    decreases b.len(),
{
    if b.len() == 0 {
        0
    } else {
        count_byte(b.drop_last(), c) + if b.last() == c { 1nat } else { 0nat }
    }
}

/// Index of the first `c` in `b`, or `b.len()` when there is none.
pub open spec fn find_byte(b: Seq<u8>, c: u8) -> int
    decreases b.len(),
{
    if b.len() == 0 {
        0
    } else if find_byte(b.drop_last(), c) < b.len() - 1 {
        find_byte(b.drop_last(), c)
    } else if b.last() == c {
        b.len() - 1
    } else {
        b.len() as int
    }
}

pub proof fn lemma_find_byte(b: Seq<u8>, c: u8)
    ensures
        0 <= find_byte(b, c) <= b.len(),
        find_byte(b, c) < b.len() ==> b[find_byte(b, c)] == c,
        forall|i: int| 0 <= i < find_byte(b, c) ==> b[i] != c,
        find_byte(b, c) == b.len() <==> count_byte(b, c) == 0,
    decreases b.len(),
{
    if b.len() > 0 {
        lemma_find_byte(b.drop_last(), c);
        assert(forall|i: int| 0 <= i < b.len() - 1 ==> b[i] == b.drop_last()[i]);
    }
}

/// The byte that separates host and port.
pub const COLON: u8 = 58;

/// One member of the cluster, as a plain record of what is known of it.
#[derive(Debug)]
pub struct Node {
    /// The member's id; the address it was made from until the member reports its id.
    pub name: String,
    pub ip: String,
    pub port: String,
    pub role: Option<Role>,
    /// Whether this record is the reporting member's own line.
    pub myself: bool,
    /// Id of the master it replicates, for a replica.
    pub slaveof: Option<String>,
    /// Slots it owns.
    pub slots: Vec<usize>,
    /// Slots being handed to another member: (slot, id of that member).
    pub migrating: Vec<(usize, String)>,
    /// Slots being taken from another member: (slot, id of that member).
    pub importing: Vec<(usize, String)>,
}

/// What a list of (slot, id) pairs holds, ids as text.
pub open spec fn pairs_view(v: Seq<(usize, String)>) -> Seq<(usize, Seq<char>)> {
    Seq::new(v.len(), |i: int| (v[i].0, v[i].1@))
}

pub open spec fn opt_view(o: Option<String>) -> Option<Seq<char>> {
    match o {
        Some(s) => Some(s@),
        None => None,
    }
}

/// Two records hold the same facts.
pub open spec fn same_record(a: Node, b: Node) -> bool {
    &&& a.name@ == b.name@
    &&& a.ip@ == b.ip@
    &&& a.port@ == b.port@
    &&& a.role == b.role
    &&& a.myself == b.myself
    &&& opt_view(a.slaveof) == opt_view(b.slaveof)
    &&& a.slots@ == b.slots@
    &&& pairs_view(a.migrating@) == pairs_view(b.migrating@)
    &&& pairs_view(a.importing@) == pairs_view(b.importing@)
}

/// Index of the last record of `ms` that is the reporting member's own, or -1.
pub open spec fn last_self(ms: Seq<Node>) -> int
    decreases ms.len(),
{
    if ms.len() == 0 {
        -1
    } else if ms.last().myself {
        ms.len() - 1
    } else {
        last_self(ms.drop_last())
    }
}

proof fn lemma_last_self(ms: Seq<Node>)
    ensures
        -1 <= last_self(ms) < ms.len(),
        last_self(ms) >= 0 ==> ms[last_self(ms)].myself,
    decreases ms.len(),
{
    if ms.len() > 0 {
        lemma_last_self(ms.drop_last());
    }
}

fn copy_usizes(v: &Vec<usize>) -> (r: Vec<usize>)
    ensures
        r@ == v@,
{
    let mut r: Vec<usize> = Vec::new();
    let mut i: usize = 0;
    while i < v.len()
        invariant
            i <= v@.len(),
            r@ == v@.take(i as int),
        decreases v@.len() - i,
    {
        r.push(v[i]);
        i = i + 1;
        assert(r@ =~= v@.take(i as int));
    }
    assert(v@.take(i as int) =~= v@);
    r
}

fn copy_pairs(v: &Vec<(usize, String)>) -> (r: Vec<(usize, String)>)
    ensures
        pairs_view(r@) == pairs_view(v@),
{
    let mut r: Vec<(usize, String)> = Vec::new();
    let mut i: usize = 0;
    while i < v.len()
        invariant
            i <= v@.len(),
            pairs_view(r@) == pairs_view(v@).take(i as int),
        decreases v@.len() - i,
    {
        let id: String = v[i].1.clone();
        let ghost before = pairs_view(r@);
        r.push((v[i].0, id));
        assert(pairs_view(r@) =~= before.push((v@[i as int].0, v@[i as int].1@)));
        i = i + 1;
        assert(pairs_view(r@) =~= pairs_view(v@).take(i as int));
    }
    assert(pairs_view(v@).take(i as int) =~= pairs_view(v@));
    r
}

fn copy_opt(o: &Option<String>) -> (r: Option<String>)
    ensures
        opt_view(r) == opt_view(*o),
{
    match o {
        Some(s) => Some(s.clone()),
        None => None,
    }
}

/// `addr` is of the form `host:port`: it holds exactly one colon.
pub open spec fn valid_addr(addr: Seq<u8>) -> bool {
    count_byte(addr, COLON) == 1
}

/// The bytes before the colon.
pub open spec fn host_part(addr: Seq<u8>) -> Seq<u8> {
    addr.take(find_byte(addr, COLON))
}

/// The bytes after the colon.
pub open spec fn port_part(addr: Seq<u8>) -> Seq<u8> {
    addr.skip(find_byte(addr, COLON) + 1)
}

/// A record made from an address alone, with nothing yet learnt of the member.
pub open spec fn fresh_node(n: Node, addr: Seq<u8>) -> bool {
    &&& n.name@ == text_of(addr)
    &&& n.ip@ == text_of(host_part(addr))
    &&& n.port@ == text_of(port_part(addr))
    &&& n.role is None
    &&& !n.myself
    &&& n.slaveof is None
    &&& n.slots@.len() == 0
    &&& n.migrating@.len() == 0
    &&& n.importing@.len() == 0
}

impl Node {
    /// Makes a record from `host:port`; `BadAddr` unless it holds exactly one colon.
    pub fn new(addr: &[u8]) -> (r: Result<Node, Error>)
        ensures
            r is Ok <==> valid_addr(addr@),
            r matches Err(e) ==> e == Error::BadAddr,
            r matches Ok(n) ==> fresh_node(n, addr@),
    {
        let mut count: usize = 0;
        let mut pos: usize = 0;
        let mut i: usize = 0;
        while i < addr.len()
            invariant
                i <= addr@.len(),
                count == if count_byte(addr@.take(i as int), COLON) < 2 {
                    count_byte(addr@.take(i as int), COLON)
                } else {
                    2
                },
                pos == find_byte(addr@.take(i as int), COLON),
            decreases addr@.len() - i,
        {
            proof {
                assert(addr@.take(i + 1).drop_last() =~= addr@.take(i as int));
                lemma_find_byte(addr@.take(i as int), COLON);
            }
            if addr[i] == COLON {
                if count == 0 {
                    pos = i;
                }
                if count < 2 {
                    count = count + 1;
                }
            } else if count == 0 {
                pos = i + 1;
            }
            i = i + 1;
        }
        proof {
            assert(addr@.take(addr@.len() as int) =~= addr@);
            lemma_find_byte(addr@, COLON);
        }
        if count != 1 {
            return Err(Error::BadAddr);
        }
        let ip = text(&addr[0..pos]);
        let port = text(&addr[pos + 1..addr.len()]);
        proof {
            assert(addr@.subrange(0, pos as int) =~= host_part(addr@));
            assert(addr@.subrange(pos + 1, addr@.len() as int) =~= port_part(addr@));
        }
        Ok(Node {
            name: text(addr),
            ip,
            port,
            role: None,
            myself: false,
            slaveof: None,
            slots: Vec::new(),
            migrating: Vec::new(),
            importing: Vec::new(),
        })
    }

    /// A record with the same facts.
    pub fn duplicate(&self) -> (r: Node)
        ensures
            same_record(r, *self),
    {
        Node {
            name: self.name.clone(),
            ip: self.ip.clone(),
            port: self.port.clone(),
            role: self.role,
            myself: self.myself,
            slaveof: copy_opt(&self.slaveof),
            slots: copy_usizes(&self.slots),
            migrating: copy_pairs(&self.migrating),
            importing: copy_pairs(&self.importing),
        }
    }

    /// Takes from `members`, the member list this member reports, what it
    /// says of itself (the line marked as its own; the last such line when
    /// there are several): id, role, master, slots and hand-overs. The address
    /// stays. Without such a line nothing changes.
    pub fn connect(&mut self, members: &Vec<Node>)
        ensures
            ({
                let k = last_self(members@);
                &&& k < 0 ==> same_record(*final(self), *old(self))
                &&& k >= 0 ==> {
                    let m = members@[k];
                    &&& final(self).name@ == m.name@
                    &&& final(self).ip@ == old(self).ip@
                    &&& final(self).port@ == old(self).port@
                    &&& final(self).role == m.role
                    &&& final(self).myself == old(self).myself
                    &&& opt_view(final(self).slaveof) == opt_view(m.slaveof)
                    &&& final(self).slots@ == m.slots@
                    &&& pairs_view(final(self).migrating@) == pairs_view(m.migrating@)
                    &&& pairs_view(final(self).importing@) == pairs_view(m.importing@)
                }
            }),
    {
        proof {
            lemma_last_self(members@);
            assert(members@.take(members@.len() as int) =~= members@);
        }
        let mut i: usize = members.len();
        while i > 0
            invariant
                *self == *old(self),
                i <= members@.len(),
                last_self(members@.take(i as int)) == last_self(members@),
            decreases i,
        {
            proof {
                assert(members@.take(i as int).drop_last() =~= members@.take(i - 1));
            }
            if members[i - 1].myself {
                assert(members@.take(i as int).last() == members@[i - 1]);
                assert(last_self(members@) == i - 1);
                let m = &members[i - 1];
                self.name = m.name.clone();
                self.role = m.role;
                self.slaveof = copy_opt(&m.slaveof);
                self.slots = copy_usizes(&m.slots);
                self.migrating = copy_pairs(&m.migrating);
                self.importing = copy_pairs(&m.importing);
                return;
            }
            i = i - 1;
        }
        assert(members@.take(0) =~= Seq::<Node>::empty());
    }

    pub fn set_role(&mut self, role: Role)
        ensures
            final(self).role == Some(role),
            final(self).name == old(self).name,
            final(self).ip == old(self).ip,
            final(self).port == old(self).port,
            final(self).myself == old(self).myself,
            final(self).slaveof == old(self).slaveof,
            final(self).slots == old(self).slots,
            final(self).migrating == old(self).migrating,
            final(self).importing == old(self).importing,
    {
        self.role = Some(role);
    }

    pub fn is_master(&self) -> (r: bool)
        ensures
            r == (self.role == Some(Role::Master)),
    {
        match self.role {
            Some(Role::Master) => true,
            _ => false,
        }
    }

    /// `host:port` of the member.
    pub fn addr(&self) -> (r: String)
        ensures
            r@ == self.ip@ + seq![':'] + self.port@,
    {
        let mut r = self.ip.clone();
        let colon = ":";
        proof {
            reveal_strlit(":");
        }
        r.append(colon);
        r.append(self.port.as_str());
        r
    }

    /// The slots the member owns.
    pub fn slots(&self) -> (r: Vec<usize>)
        ensures
            r@ == self.slots@,
    {
        let mut r: Vec<usize> = Vec::new();
        let mut i: usize = 0;
        while i < self.slots.len()
            invariant
                i <= self.slots@.len(),
                r@ == self.slots@.take(i as int),
            decreases self.slots@.len() - i,
        {
            r.push(self.slots[i]);
            i = i + 1;
            proof {
                assert(r@ =~= self.slots@.take(i as int));
            }
        }
        proof {
            assert(self.slots@.take(i as int) =~= self.slots@);
        }
        r
    }
}

impl PartialEq for Node {
    /// Two records stand for the same member when their addresses agree.
    fn eq(&self, other: &Node) -> (r: bool)
        ensures
            r == (self.ip@ == other.ip@ && self.port@ == other.port@),
    {
        self.ip == other.ip && self.port == other.port
    }
}

impl vstd::std_specs::cmp::PartialEqSpecImpl for Node {
    open spec fn obeys_eq_spec() -> bool {
        true
    }

    open spec fn eq_spec(&self, other: &Node) -> bool {
        self.ip@ == other.ip@ && self.port@ == other.port@
    }
}

} // verus!
