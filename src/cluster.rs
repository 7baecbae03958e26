use vstd::prelude::*;
use crate::node::{Error, Node, Role};
use crate::topology::{split_at_byte, split_bytes, strip_cr, vecs_view, CR, NEWLINE};
use crate::slots::{
    divide, in_bucket, lemma_offset_end, lemma_offset_monotone, lemma_offset_step,
    lemma_split_slots_partition, split_counts, CLUSTER_SLOTS,
};

verus! {

/// Member `j` of member list `v` is a master and lists a slot at position `k`.
pub open spec fn claims_slot(v: Seq<Node>, j: int, k: int) -> bool {
    0 <= j < v.len() && v[j].role == Some(Role::Master) && 0 <= k < v[j].slots@.len()
}

pub open spec fn slot_owned(v: Seq<Node>, s: int) -> bool {
    exists|j: int, k: int| #[trigger] claims_slot(v, j, k) && v[j].slots@[k] == s
}

/// The masters of `v` own every slot of the key space exactly once.
pub open spec fn report_partitions(v: Seq<Node>) -> bool {
    &&& forall|j: int, k: int| #[trigger] claims_slot(v, j, k) ==> v[j].slots@[k] < CLUSTER_SLOTS
    &&& forall|j1: int, k1: int, j2: int, k2: int|
        #[trigger] claims_slot(v, j1, k1) && #[trigger] claims_slot(v, j2, k2) && v[j1].slots@[k1]
            == v[j2].slots@[k2] ==> j1 == j2 && k1 == k2
    &&& forall|s: int| 0 <= s < CLUSTER_SLOTS ==> #[trigger] slot_owned(v, s)
}

/// Two records stand for the same member.
pub open spec fn same_member(a: Node, b: Node) -> bool {
    a.ip@ == b.ip@ && a.port@ == b.port@
}

/// No two member lists name different owners for one slot.
pub open spec fn reports_agree(vs: Seq<Seq<Node>>) -> bool {
    forall|r1: int, j1: int, k1: int, r2: int, j2: int, k2: int|
        0 <= r1 < vs.len() && 0 <= r2 < vs.len() && #[trigger] claims_slot(vs[r1], j1, k1)
            && #[trigger] claims_slot(vs[r2], j2, k2) && vs[r1][j1].slots@[k1]
            == vs[r2][j2].slots@[k2] ==> same_member(vs[r1][j1], vs[r2][j2])
}

pub open spec fn reports_of(views: Seq<Vec<Node>>) -> Seq<Seq<Node>> {
    Seq::new(views.len(), |r: int| views[r]@)
}

/// Indices of the masters of `ns` other than the one with id `id`, in order.
pub open spec fn recipients(ns: Seq<Node>, id: Seq<char>) -> Seq<usize>
    decreases ns.len(),
{
    if ns.len() == 0 {
        Seq::empty()
    } else {
        let p = recipients(ns.drop_last(), id);
        if ns.last().role == Some(Role::Master) && ns.last().name@ != id {
            p.push((ns.len() - 1) as usize)
        } else {
            p
        }
    }
}

/// Member `n` is to forget the member with id `id`: it is another member and
/// does not replicate it.
pub open spec fn forgets(n: Node, id: Seq<char>) -> bool {
    n.name@ != id && !(n.slaveof matches Some(m) && m@ == id)
}

/// Indices of the members of `ns` that are to forget the member with id `id`.
pub open spec fn forgetters(ns: Seq<Node>, id: Seq<char>) -> Seq<usize>
    decreases ns.len(),
{
    if ns.len() == 0 {
        Seq::empty()
    } else {
        let p = forgetters(ns.drop_last(), id);
        if forgets(ns.last(), id) {
            p.push((ns.len() - 1) as usize)
        } else {
            p
        }
    }
}

/// Number of slots a member gives away when it leaves.
pub open spec fn leaving_count(n: Node) -> nat {
    if n.role == Some(Role::Master) {
        n.slots@.len()
    } else {
        0
    }
}

/// What removing a member takes: each of its slots with the index of the
/// member that receives it, and the indices of the members that are to
/// forget it.
pub struct DeletePlan {
    pub moves: Vec<(usize, usize)>,
    pub forget: Vec<usize>,
}

/// Positions `[offset(b), offset(b + 1))` of a split hold exactly `share(b)` items.
pub proof fn lemma_bucket_size(total: nat, n: nat, b: nat)
    requires
        n >= 1,
        b < n,
    ensures
        crate::slots::offset(total, n, b + 1) - crate::slots::offset(total, n, b) == split_counts(
            total,
            n,
        )[b as int],
{
    lemma_offset_step(total, n, b);
}

/// One slot to hand over from member `src` to member `dst` (indices into
/// the cluster's members).
#[derive(Debug, Clone, Copy, PartialEq, Eq, Structural)]
pub struct Move {
    pub slot: usize,
    pub src: usize,
    pub dst: usize,
}

/// Indices of the masters of `ns`, in order.
pub open spec fn masters_of(ns: Seq<Node>) -> Seq<usize>
    decreases ns.len(),
{
    if ns.len() == 0 {
        Seq::empty()
    } else {
        let p = masters_of(ns.drop_last());
        if ns.last().role == Some(Role::Master) {
            p.push((ns.len() - 1) as usize)
        } else {
            p
        }
    }
}

/// The fair share of the `i`-th of `m` masters.
pub open spec fn fair_share(m: nat, i: nat) -> nat {
    split_counts(CLUSTER_SLOTS as nat, m)[i as int]
}

/// What a master above its share `t` gives up: its slots from position `t`
/// on, each with the master's index `idx`.
pub open spec fn surplus(n: Node, idx: usize, t: nat) -> Seq<(usize, usize)> {
    if n.slots@.len() > t {
        Seq::new((n.slots@.len() - t) as nat, |x: int| (n.slots@[t + x], idx))
    } else {
        Seq::empty()
    }
}

/// What a master below its share `t` lacks: its index once per missing slot.
pub open spec fn shortfall(n: Node, idx: usize, t: nat) -> Seq<usize> {
    if n.slots@.len() < t {
        Seq::new((t - n.slots@.len()) as nat, |x: int| idx)
    } else {
        Seq::empty()
    }
}

/// The slots released by the first `ms.len()` of `m` masters, in order.
pub open spec fn released(ns: Seq<Node>, ms: Seq<usize>, m: nat) -> Seq<(usize, usize)>
    decreases ms.len(),
{
    if ms.len() == 0 {
        Seq::empty()
    } else {
        released(ns, ms.drop_last(), m) + surplus(
            ns[ms.last() as int],
            ms.last(),
            fair_share(m, (ms.len() - 1) as nat),
        )
    }
}

/// The slots wanted by the first `ms.len()` of `m` masters, in order.
pub open spec fn wanted(ns: Seq<Node>, ms: Seq<usize>, m: nat) -> Seq<usize>
    decreases ms.len(),
{
    if ms.len() == 0 {
        Seq::empty()
    } else {
        wanted(ns, ms.drop_last(), m) + shortfall(
            ns[ms.last() as int],
            ms.last(),
            fair_share(m, (ms.len() - 1) as nat),
        )
    }
}

/// How many slots the first `ms.len()` masters list in all.
pub open spec fn slot_total(ns: Seq<Node>, ms: Seq<usize>) -> nat
    decreases ms.len(),
{
    if ms.len() == 0 {
        0
    } else {
        slot_total(ns, ms.drop_last()) + ns[ms.last() as int].slots@.len()
    }
}

proof fn lemma_pool_balance(ns: Seq<Node>, ms: Seq<usize>, k: nat)
    requires
        ms.len() >= 1,
        k <= ms.len(),
    ensures
        released(ns, ms.take(k as int), ms.len()).len() - wanted(ns, ms.take(k as int), ms.len()).len()
            == slot_total(ns, ms.take(k as int)) - crate::slots::offset(
            CLUSTER_SLOTS as nat,
            ms.len(),
            k,
        ),
    decreases k,
{
    let m = ms.len();
    if k > 0 {
        lemma_pool_balance(ns, ms, (k - 1) as nat);
        assert(ms.take(k as int).drop_last() =~= ms.take(k - 1));
        lemma_offset_step(CLUSTER_SLOTS as nat, m, (k - 1) as nat);
    } else {
        let q = (CLUSTER_SLOTS as nat) / m;
        assert(0 * q == 0) by (nonlinear_arith);
    }
}

/// When the masters list `CLUSTER_SLOTS` slots in all, the slots that
/// masters above their fair share release are exactly as many as the slots
/// that masters below it lack, so `reshard` moves every released slot and
/// fills every gap; each master then holds its share, and the total stays.
pub proof fn lemma_reshard_balances(ns: Seq<Node>)
    requires
        masters_of(ns).len() >= 1,
        slot_total(ns, masters_of(ns)) == CLUSTER_SLOTS,
    ensures
        released(ns, masters_of(ns), masters_of(ns).len()).len() == wanted(
            ns,
            masters_of(ns),
            masters_of(ns).len(),
        ).len(),
        forall|i: int|
            0 <= i < masters_of(ns).len() ==> {
                let idx = #[trigger] masters_of(ns)[i];
                let t = fair_share(masters_of(ns).len(), i as nat);
                ns[idx as int].slots@.len() - surplus(ns[idx as int], idx, t).len() + shortfall(
                    ns[idx as int],
                    idx,
                    t,
                ).len() == t
            },
{
    let ms = masters_of(ns);
    lemma_pool_balance(ns, ms, ms.len());
    assert(ms.take(ms.len() as int) =~= ms);
    lemma_offset_end(CLUSTER_SLOTS as nat, ms.len());
}

/// The slots below `upto` that no master of `ns` lists, ascending.
pub open spec fn unowned(ns: Seq<Node>, upto: nat) -> Seq<usize>
    decreases upto,
{
    if upto == 0 {
        Seq::empty()
    } else if slot_owned(ns, upto - 1) {
        unowned(ns, (upto - 1) as nat)
    } else {
        unowned(ns, (upto - 1) as nat).push((upto - 1) as usize)
    }
}

/// Some master before member `jj`, or member `jj` before its position `kk`,
/// lists slot `s`.
pub open spec fn claimed_before(ns: Seq<Node>, jj: int, kk: int, s: int) -> bool {
    exists|j: int, k: int|
        #[trigger] claims_slot(ns, j, k) && (j < jj || (j == jj && k < kk)) && ns[j].slots@[k] == s
}

/// The status line of a member that knows no member but itself:
/// `cluster_known_nodes:1`.
pub open spec fn alone_line() -> Seq<u8> {
    seq![
        99u8, 108u8, 117u8, 115u8, 116u8, 101u8, 114u8, 95u8, 107u8, 110u8, 111u8, 119u8, 110u8,
        95u8, 110u8, 111u8, 100u8, 101u8, 115u8, 58u8, 49u8,
    ]
}

/// A status reply says the member knows no member but itself.
pub open spec fn reports_alone(reply: Seq<u8>) -> bool {
    exists|k: int|
        0 <= k < split_at_byte(reply, NEWLINE).len() && strip_cr(
            #[trigger] split_at_byte(reply, NEWLINE)[k],
        ) == alone_line()
}

fn alone_bytes() -> (r: Vec<u8>)
    ensures
        r@ == alone_line(),
{
    let mut r: Vec<u8> = Vec::new();
    r.push(99);
    r.push(108);
    r.push(117);
    r.push(115);
    r.push(116);
    r.push(101);
    r.push(114);
    r.push(95);
    r.push(107);
    r.push(110);
    r.push(111);
    r.push(119);
    r.push(110);
    r.push(95);
    r.push(110);
    r.push(111);
    r.push(100);
    r.push(101);
    r.push(115);
    r.push(58);
    r.push(49);
    assert(r@ =~= alone_line());
    r
}

fn same_bytes(a: &[u8], b: &[u8]) -> (r: bool)
    ensures
        r == (a@ == b@),
{
    if a.len() != b.len() {
        return false;
    }
    let mut i: usize = 0;
    while i < a.len()
        invariant
            a@.len() == b@.len(),
            i <= a@.len(),
            forall|x: int| 0 <= x < i ==> a@[x] == b@[x],
        decreases a@.len() - i,
    {
        if a[i] != b[i] {
            return false;
        }
        i = i + 1;
    }
    assert(a@ =~= b@);
    true
}

fn is_alone(reply: &[u8]) -> (r: bool)
    ensures
        r == reports_alone(reply@),
{
    let pat = alone_bytes();
    let parts = split_bytes(reply, NEWLINE);
    let mut k: usize = 0;
    while k < parts.len()
        invariant
            vecs_view(parts@) == split_at_byte(reply@, NEWLINE),
            pat@ == alone_line(),
            k <= parts@.len(),
            forall|x: int| 0 <= x < k ==> strip_cr(#[trigger] split_at_byte(reply@, NEWLINE)[x]) != alone_line(),
        decreases parts@.len() - k,
    {
        let l = parts[k].as_slice();
        assert(l@ == split_at_byte(reply@, NEWLINE)[k as int]);
        let n = l.len();
        let cut = if n > 0 && l[n - 1] == CR {
            n - 1
        } else {
            n
        };
        let line = &l[0..cut];
        assert(line@ =~= strip_cr(l@));
        if same_bytes(line, pat.as_slice()) {
            return true;
        }
        k = k + 1;
    }
    false
}

/// The members of a cluster, as one member reported them.
pub struct Cluster {
    pub nodes: Vec<Node>,
}

/// Where each slot of a partitioning member list is listed: (member, position).
pub fn report_owners(v: &Vec<Node>) -> (r: Option<Vec<(usize, usize)>>)
    ensures
        r is Some <==> report_partitions(v@),
        r matches Some(t) ==> t@.len() == CLUSTER_SLOTS && forall|s: int|
            0 <= s < CLUSTER_SLOTS ==> claims_slot(v@, #[trigger] t@[s].0 as int, t@[s].1 as int)
                && v@[t@[s].0 as int].slots@[t@[s].1 as int] == s,
{
    let mut owners: Vec<Option<(usize, usize)>> = Vec::new();
    let mut s: usize = 0;
    while s < CLUSTER_SLOTS
        invariant
            s <= CLUSTER_SLOTS,
            owners@.len() == s,
            forall|x: int| 0 <= x < s ==> owners@[x] is None,
        decreases CLUSTER_SLOTS - s,
    {
        owners.push(None);
        s = s + 1;
    }
    let mut j: usize = 0;
    while j < v.len()
        invariant
            j <= v@.len(),
            owners@.len() == CLUSTER_SLOTS,
            forall|a: int, b: int|
                #[trigger] claims_slot(v@, a, b) && a < j ==> v@[a].slots@[b] < CLUSTER_SLOTS
                    && owners@[v@[a].slots@[b] as int] == Some((a as usize, b as usize)),
            forall|x: int|
                0 <= x < CLUSTER_SLOTS ==> (#[trigger] owners@[x] matches Some(p) ==> claims_slot(
                    v@,
                    p.0 as int,
                    p.1 as int,
                ) && p.0 < j && v@[p.0 as int].slots@[p.1 as int] == x),
        decreases v@.len() - j,
    {
        if v[j].is_master() {
            let slots = &v[j].slots;
            let mut k: usize = 0;
            while k < slots.len()
                invariant
                    j < v@.len(),
                    v@[j as int].role == Some(Role::Master),
                    slots@ == v@[j as int].slots@,
                    k <= slots@.len(),
                    owners@.len() == CLUSTER_SLOTS,
                    forall|a: int, b: int|
                        #[trigger] claims_slot(v@, a, b) && (a < j || (a == j && b < k))
                            ==> v@[a].slots@[b] < CLUSTER_SLOTS && owners@[v@[a].slots@[b] as int]
                            == Some((a as usize, b as usize)),
                    forall|x: int|
                        0 <= x < CLUSTER_SLOTS ==> (#[trigger] owners@[x] matches Some(p)
                            ==> claims_slot(v@, p.0 as int, p.1 as int) && (p.0 < j || (p.0 == j
                            && p.1 < k)) && v@[p.0 as int].slots@[p.1 as int] == x),
                decreases slots@.len() - k,
            {
                let slot = slots[k];
                assert(claims_slot(v@, j as int, k as int));
                if slot >= CLUSTER_SLOTS {
                    return None;
                }
                match owners[slot] {
                    Some(p) => {
                        assert(claims_slot(v@, p.0 as int, p.1 as int));
                        return None;
                    },
                    None => {},
                }
                owners.set(slot, Some((j, k)));
                k = k + 1;
            }
        }
        j = j + 1;
    }
    let mut t: Vec<(usize, usize)> = Vec::new();
    let mut s: usize = 0;
    while s < CLUSTER_SLOTS
        invariant
            s <= CLUSTER_SLOTS,
            t@.len() == s,
            owners@.len() == CLUSTER_SLOTS,
            forall|a: int, b: int|
                #[trigger] claims_slot(v@, a, b) ==> v@[a].slots@[b] < CLUSTER_SLOTS
                    && owners@[v@[a].slots@[b] as int] == Some((a as usize, b as usize)),
            forall|x: int|
                0 <= x < CLUSTER_SLOTS ==> (#[trigger] owners@[x] matches Some(p) ==> claims_slot(
                    v@,
                    p.0 as int,
                    p.1 as int,
                ) && v@[p.0 as int].slots@[p.1 as int] == x),
            forall|x: int|
                0 <= x < s ==> claims_slot(v@, #[trigger] t@[x].0 as int, t@[x].1 as int)
                    && v@[t@[x].0 as int].slots@[t@[x].1 as int] == x,
        decreases CLUSTER_SLOTS - s,
    {
        match owners[s] {
            Some(p) => {
                t.push(p);
            },
            None => {
                assert(!slot_owned(v@, s as int));
                return None;
            },
        }
        s = s + 1;
    }
    assert forall|x: int| 0 <= x < CLUSTER_SLOTS implies #[trigger] slot_owned(v@, x) by {
        assert(claims_slot(v@, t@[x].0 as int, t@[x].1 as int));
    }
    assert forall|j1: int, k1: int, j2: int, k2: int|
        #[trigger] claims_slot(v@, j1, k1) && #[trigger] claims_slot(v@, j2, k2) && v@[j1].slots@[k1]
            == v@[j2].slots@[k2] implies j1 == j2 && k1 == k2 by {
        assert(v@[j1].slots.len() == v@[j1].slots@.len());
        assert(v@[j2].slots.len() == v@[j2].slots@.len());
        assert(v@.len() <= usize::MAX);
    }
    Some(t)
}

/// Hands the first `c` of `slots` to the members `rec` in the proportions of
/// `divide`: slot `k` goes to `rec[b]` for the bucket `b` that holds `k`.
fn bucket_moves(slots: &Vec<usize>, c: usize, rec: &Vec<usize>) -> (moves: Vec<(usize, usize)>)
    requires
        c <= slots@.len(),
        rec@.len() >= 1,
    ensures
        moves@.len() == c,
        forall|b: int, k: int|
            0 <= b < rec@.len() && #[trigger] in_bucket(c as nat, rec@.len(), b, k) && 0 <= k < c
                ==> moves@[k] == (slots@[k], rec@[b]),
{
    let mut moves: Vec<(usize, usize)> = Vec::new();
    let m = rec.len();
    let dist = divide(c, m);
    let mut start: usize = 0;
    let mut b: usize = 0;
    while b < m
        invariant
            m == rec@.len(),
            m >= 1,
            c <= slots@.len(),
            dist@.len() == m,
            forall|x: int| 0 <= x < m ==> dist@[x] == split_counts(c as nat, m as nat)[x],
            b <= m,
            start == crate::slots::offset(c as nat, m as nat, b as nat),
            moves@.len() == start,
            forall|bb: int, k: int|
                0 <= bb < b && #[trigger] in_bucket(c as nat, m as nat, bb, k) && 0 <= k
                    ==> moves@[k] == (slots@[k], rec@[bb]),
        decreases m - b,
    {
        proof {
            lemma_offset_step(c as nat, m as nat, b as nat);
            lemma_offset_monotone(c as nat, m as nat, (b + 1) as nat, m as nat);
            lemma_offset_end(c as nat, m as nat);
        }
        let end = start + dist[b];
        let mut k: usize = start;
        while k < end
            invariant
                m == rec@.len(),
                m >= 1,
                b < m,
                c <= slots@.len(),
                start == crate::slots::offset(c as nat, m as nat, b as nat),
                end == crate::slots::offset(c as nat, m as nat, (b + 1) as nat),
                end <= c,
                start <= k <= end,
                moves@.len() == k,
                forall|bb: int, x: int|
                    0 <= bb < b && #[trigger] in_bucket(c as nat, m as nat, bb, x) && 0
                        <= x ==> moves@[x] == (slots@[x], rec@[bb]),
                forall|x: int| start <= x < k ==> moves@[x] == (slots@[x], rec@[b as int]),
            decreases end - k,
        {
            proof {
                assert forall|bb: int, x: int|
                    0 <= bb < b && #[trigger] in_bucket(c as nat, m as nat, bb, x) && 0
                        <= x implies x < k by {
                    lemma_offset_monotone(c as nat, m as nat, (bb + 1) as nat, b as nat);
                }
            }
            moves.push((slots[k], rec[b]));
            k = k + 1;
        }
        proof {
            assert forall|bb: int, x: int|
                0 <= bb < b + 1 && #[trigger] in_bucket(c as nat, m as nat, bb, x) && 0
                    <= x implies moves@[x] == (slots@[x], rec@[bb]) by {
                if bb < b {
                } else {
                    assert(start <= x < k);
                }
            }
        }
        start = end;
        b = b + 1;
    }
    proof {
        lemma_offset_end(c as nat, m as nat);
    }
    moves
}

/// The slots a donor gives when `count` slots are gathered from `rec`:
/// the first `share(count, rec.len(), b)` of donor `b`.
pub open spec fn gathered(ns: Seq<Node>, rec: Seq<usize>, count: nat, dst: usize, k: int) -> Move {
    let b = choose|b: int| 0 <= b < rec.len() && in_bucket(count, rec.len(), b, k);
    Move {
        slot: ns[rec[b] as int].slots@[k - crate::slots::offset(count, rec.len(), b as nat)],
        src: rec[b],
        dst,
    }
}

/// Every donor has the slots asked of it.
pub open spec fn donors_suffice(ns: Seq<Node>, rec: Seq<usize>, count: nat) -> bool {
    forall|b: int|
        0 <= b < rec.len() ==> split_counts(count, rec.len())[b] <= #[trigger] ns[rec[b] as int].slots@.len()
}

impl Cluster {
    /// Indices of the masters other than the one with id `id`.
    fn recipients_exec(&self, id: &String) -> (r: Vec<usize>)
        ensures
            r@ == recipients(self.nodes@, id@),
            forall|x: int| 0 <= x < r@.len() ==> #[trigger] r@[x] < self.nodes@.len(),
    {
        let mut rec: Vec<usize> = Vec::new();
        let mut i: usize = 0;
        while i < self.nodes.len()
            invariant
                i <= self.nodes@.len(),
                rec@ == recipients(self.nodes@.take(i as int), id@),
                forall|x: int| 0 <= x < rec@.len() ==> #[trigger] rec@[x] < i,
            decreases self.nodes@.len() - i,
        {
            proof {
                assert(self.nodes@.take(i + 1).drop_last() =~= self.nodes@.take(i as int));
            }
            if self.nodes[i].is_master() && !(self.nodes[i].name == *id) {
                rec.push(i);
            }
            i = i + 1;
        }
        assert(self.nodes@.take(i as int) =~= self.nodes@);
        rec
    }

    /// Plans moving the first `count` slots of member `src` to member `dst`.
    /// `BadCluster` when either is no member or `src` has fewer slots.
    pub fn migrate_first(&self, src: usize, dst: usize, count: usize) -> (r: Result<
        Vec<Move>,
        Error,
    >)
        ensures
            r is Err <==> src >= self.nodes@.len() || dst >= self.nodes@.len() || count
                > self.nodes@[src as int].slots@.len(),
            r matches Err(e) ==> e == Error::BadCluster,
            r matches Ok(moves) ==> moves@.len() == count && forall|k: int|
                0 <= k < count ==> #[trigger] moves@[k] == (Move {
                    slot: self.nodes@[src as int].slots@[k],
                    src,
                    dst,
                }),
    {
        if src >= self.nodes.len() || dst >= self.nodes.len() || count > self.nodes[src].slots.len() {
            return Err(Error::BadCluster);
        }
        let slots = &self.nodes[src].slots;
        let mut moves: Vec<Move> = Vec::new();
        let mut k: usize = 0;
        while k < count
            invariant
                src < self.nodes@.len(),
                *slots == self.nodes@[src as int].slots,
                count <= slots@.len(),
                k <= count,
                moves@.len() == k,
                forall|x: int|
                    0 <= x < k ==> #[trigger] moves@[x] == (Move { slot: slots@[x], src, dst }),
            decreases count - k,
        {
            moves.push(Move { slot: slots[k], src, dst });
            k = k + 1;
        }
        Ok(moves)
    }

    /// Plans moving the first `count` slots of member `src` to the other
    /// masters, split as `divide` splits `count`, the first ones to the
    /// first master. `BadCluster` when `src` is no member, has fewer slots,
    /// or there is no other master to take them.
    pub fn migrate_out(&self, src: usize, count: usize) -> (r: Result<
        Vec<(usize, usize)>,
        Error,
    >)
        ensures
            src >= self.nodes@.len() ==> r is Err,
            src < self.nodes@.len() ==> {
                let n = self.nodes@[src as int];
                let rec = recipients(self.nodes@, n.name@);
                &&& r is Err <==> count > n.slots@.len() || (count > 0 && rec.len() == 0)
                &&& r matches Ok(moves) ==> moves@.len() == count && forall|b: int, k: int|
                    0 <= b < rec.len() && #[trigger] in_bucket(count as nat, rec.len(), b, k) && 0
                        <= k < count ==> moves@[k] == (n.slots@[k], rec[b])
            },
            r matches Err(e) ==> e == Error::BadCluster,
    {
        if src >= self.nodes.len() || count > self.nodes[src].slots.len() {
            return Err(Error::BadCluster);
        }
        let rec = self.recipients_exec(&self.nodes[src].name);
        if count == 0 {
            return Ok(Vec::new());
        }
        if rec.len() == 0 {
            return Err(Error::BadCluster);
        }
        Ok(bucket_moves(&self.nodes[src].slots, count, &rec))
    }

    /// Plans gathering `count` slots into member `dst` from the other
    /// masters, split as `divide` splits `count`: each gives its first slots,
    /// the first master the most. `BadCluster` when `dst` is no member, there
    /// is no other master, or one has fewer slots than asked of it.
    pub fn migrate_in(&self, dst: usize, count: usize) -> (r: Result<Vec<Move>, Error>)
        ensures
            dst >= self.nodes@.len() ==> r is Err,
            dst < self.nodes@.len() ==> {
                let rec = recipients(self.nodes@, self.nodes@[dst as int].name@);
                &&& r is Err <==> (count > 0 && (rec.len() == 0 || !donors_suffice(
                    self.nodes@,
                    rec,
                    count as nat,
                )))
                &&& r matches Ok(moves) ==> moves@.len() == count && forall|k: int|
                    0 <= k < count ==> #[trigger] moves@[k] == gathered(
                        self.nodes@,
                        rec,
                        count as nat,
                        dst,
                        k,
                    )
            },
            r matches Err(e) ==> e == Error::BadCluster,
    {
        if dst >= self.nodes.len() {
            return Err(Error::BadCluster);
        }
        let rec = self.recipients_exec(&self.nodes[dst].name);
        if count == 0 {
            return Ok(Vec::new());
        }
        let m = rec.len();
        if m == 0 {
            return Err(Error::BadCluster);
        }
        let ghost ns = self.nodes@;
        let dist = divide(count, m);
        let mut b: usize = 0;
        while b < m
            invariant
                count > 0,
                m == rec@.len(),
                dist@.len() == m,
                forall|x: int| 0 <= x < m ==> dist@[x] == split_counts(count as nat, m as nat)[x],
                forall|x: int| 0 <= x < rec@.len() ==> #[trigger] rec@[x] < ns.len(),
                ns == self.nodes@,
                dst < ns.len(),
                rec@ == recipients(ns, ns[dst as int].name@),
                b <= m,
                forall|x: int|
                    0 <= x < b ==> split_counts(count as nat, m as nat)[x] <= #[trigger] ns[rec@[x] as int].slots@.len(),
            decreases m - b,
        {
            if dist[b] > self.nodes[rec[b]].slots.len() {
                assert(split_counts(count as nat, m as nat)[b as int] > ns[rec@[b as int] as int].slots@.len());
                assert(!donors_suffice(ns, rec@, count as nat));
                return Err(Error::BadCluster);
            }
            b = b + 1;
        }
        let mut moves: Vec<Move> = Vec::new();
        let mut start: usize = 0;
        let mut b: usize = 0;
        while b < m
            invariant
                m == rec@.len(),
                m >= 1,
                ns == self.nodes@,
                dst < ns.len(),
                rec@ == recipients(ns, ns[dst as int].name@),
                dist@.len() == m,
                forall|x: int| 0 <= x < m ==> dist@[x] == split_counts(count as nat, m as nat)[x],
                forall|x: int| 0 <= x < rec@.len() ==> #[trigger] rec@[x] < ns.len(),
                donors_suffice(ns, rec@, count as nat),
                b <= m,
                start == crate::slots::offset(count as nat, m as nat, b as nat),
                moves@.len() == start,
                forall|k: int|
                    0 <= k < start ==> #[trigger] moves@[k] == gathered(ns, rec@, count as nat, dst, k),
            decreases m - b,
        {
            proof {
                lemma_offset_step(count as nat, m as nat, b as nat);
                lemma_offset_monotone(count as nat, m as nat, (b + 1) as nat, m as nat);
                lemma_offset_end(count as nat, m as nat);
            }
            let donor = &self.nodes[rec[b]];
            let end = start + dist[b];
            let mut k: usize = start;
            while k < end
                invariant
                    m == rec@.len(),
                    m >= 1,
                    b < m,
                    ns == self.nodes@,
                    *donor == ns[rec@[b as int] as int],
                    dist@[b as int] <= donor.slots@.len(),
                    start == crate::slots::offset(count as nat, m as nat, b as nat),
                    end == start + dist@[b as int],
                    end == crate::slots::offset(count as nat, m as nat, (b + 1) as nat),
                    start <= k <= end,
                    moves@.len() == k,
                    forall|x: int|
                        0 <= x < k ==> #[trigger] moves@[x] == gathered(ns, rec@, count as nat, dst, x),
                decreases end - k,
            {
                proof {
                    assert(in_bucket(count as nat, m as nat, b as int, k as int));
                    let bb = choose|bb: int| 0 <= bb < m && in_bucket(count as nat, m as nat, bb, k as int);
                    crate::slots::lemma_split_slots_partition(count as nat, m as nat);
                }
                moves.push(Move { slot: donor.slots[k - start], src: rec[b], dst });
                k = k + 1;
            }
            start = end;
            b = b + 1;
        }
        proof {
            lemma_offset_end(count as nat, m as nat);
        }
        Ok(moves)
    }

    pub fn new(nodes: Vec<Node>) -> (r: Cluster)
        ensures
            r.nodes == nodes,
    {
        Cluster { nodes }
    }

    /// The member whose address is `addr`.
    pub fn node(&self, addr: &str) -> (r: Option<&Node>)
        ensures
            r matches Some(n) ==> exists|i: int|
                0 <= i < self.nodes@.len() && *n == self.nodes@[i] && n.ip@ + seq![':'] + n.port@
                    == addr@,
            r is None ==> forall|i: int|
                0 <= i < self.nodes@.len() ==> self.nodes@[i].ip@ + seq![':'] + self.nodes@[i].port@
                    != addr@,
    {
        let want = String::from_str(addr);
        let mut i: usize = 0;
        while i < self.nodes.len()
            invariant
                want@ == addr@,
                i <= self.nodes@.len(),
                forall|j: int|
                    0 <= j < i ==> self.nodes@[j].ip@ + seq![':'] + self.nodes@[j].port@ != addr@,
            decreases self.nodes@.len() - i,
        {
            if self.nodes[i].addr() == want {
                return Some(&self.nodes[i]);
            }
            i = i + 1;
        }
        None
    }

    /// Plans the removal of `del_node`: a master's slots go to the other
    /// masters in the proportions of `divide`, the first ones to the first
    /// master; every other member but its replicas then forgets it.
    /// `BadCluster` when a master with slots has no other master to take them.
    pub fn delete_node(&self, del_node: &Node) -> (r: Result<DeletePlan, Error>)
        ensures
            ({
                let rec = recipients(self.nodes@, del_node.name@);
                let c = leaving_count(*del_node);
                &&& r is Err <==> (c > 0 && rec.len() == 0)
                &&& r matches Err(e) ==> e == Error::BadCluster
                &&& r matches Ok(plan) ==> {
                    &&& plan.moves@.len() == c
                    &&& forall|b: int, k: int|
                        0 <= b < rec.len() && #[trigger] in_bucket(c, rec.len(), b, k) && 0 <= k
                            < c ==> plan.moves@[k] == (del_node.slots@[k], rec[b])
                    &&& plan.forget@ == forgetters(self.nodes@, del_node.name@)
                }
            }),
    {
        let id = &del_node.name;
        let mut rec: Vec<usize> = Vec::new();
        let mut forget: Vec<usize> = Vec::new();
        let mut i: usize = 0;
        while i < self.nodes.len()
            invariant
                i <= self.nodes@.len(),
                rec@ == recipients(self.nodes@.take(i as int), id@),
                forget@ == forgetters(self.nodes@.take(i as int), id@),
            decreases self.nodes@.len() - i,
        {
            let n = &self.nodes[i];
            proof {
                assert(self.nodes@.take(i + 1).drop_last() =~= self.nodes@.take(i as int));
            }
            if n.is_master() && !(n.name == *id) {
                rec.push(i);
            }
            let replica = match &n.slaveof {
                Some(m) => *m == *id,
                None => false,
            };
            if !(n.name == *id) && !replica {
                forget.push(i);
            }
            i = i + 1;
        }
        proof {
            assert(self.nodes@.take(i as int) =~= self.nodes@);
        }
        let mut moves: Vec<(usize, usize)> = Vec::new();
        if del_node.is_master() && del_node.slots.len() > 0 {
            if rec.len() == 0 {
                return Err(Error::BadCluster);
            }
            moves = bucket_moves(&del_node.slots, del_node.slots.len(), &rec);
        }
        Ok(DeletePlan { moves, forget })
    }

    /// Plans the moves that bring every master to its share of
    /// `divide(CLUSTER_SLOTS, masters)`: the slots that masters above their
    /// share release, in order, go one by one to the masters below theirs, in
    /// order. `BadCluster` when there is no master.
    pub fn reshard(&self) -> (r: Result<Vec<Move>, Error>)
        ensures
            r is Err <==> masters_of(self.nodes@).len() == 0,
            r matches Err(e) ==> e == Error::BadCluster,
            r matches Ok(moves) ==> {
                let ms = masters_of(self.nodes@);
                let pool = released(self.nodes@, ms, ms.len());
                let want = wanted(self.nodes@, ms, ms.len());
                &&& moves@.len() == if pool.len() < want.len() {
                    pool.len()
                } else {
                    want.len()
                }
                &&& forall|k: int|
                    0 <= k < moves@.len() ==> #[trigger] moves@[k] == (Move {
                        slot: pool[k].0,
                        src: pool[k].1,
                        dst: want[k],
                    })
            },
    {
        let mut ms: Vec<usize> = Vec::new();
        let mut i: usize = 0;
        while i < self.nodes.len()
            invariant
                i <= self.nodes@.len(),
                ms@ == masters_of(self.nodes@.take(i as int)),
                forall|x: int| 0 <= x < ms@.len() ==> ms@[x] < i,
            decreases self.nodes@.len() - i,
        {
            proof {
                assert(self.nodes@.take(i + 1).drop_last() =~= self.nodes@.take(i as int));
            }
            if self.nodes[i].is_master() {
                ms.push(i);
            }
            i = i + 1;
        }
        proof {
            assert(self.nodes@.take(i as int) =~= self.nodes@);
        }
        let m = ms.len();
        if m == 0 {
            return Err(Error::BadCluster);
        }
        let dist = divide(CLUSTER_SLOTS, m);
        let mut pool: Vec<(usize, usize)> = Vec::new();
        let mut want: Vec<usize> = Vec::new();
        let mut i: usize = 0;
        while i < m
            invariant
                m == ms@.len(),
                ms@ == masters_of(self.nodes@),
                forall|x: int| 0 <= x < ms@.len() ==> ms@[x] < self.nodes@.len(),
                dist@.len() == m,
                forall|x: int| 0 <= x < m ==> dist@[x] == fair_share(m as nat, x as nat),
                i <= m,
                pool@ == released(self.nodes@, ms@.take(i as int), m as nat),
                want@ == wanted(self.nodes@, ms@.take(i as int), m as nat),
            decreases m - i,
        {
            proof {
                assert(ms@.take(i + 1).drop_last() =~= ms@.take(i as int));
            }
            let idx = ms[i];
            let n = &self.nodes[idx];
            let t = dist[i];
            let len = n.slots.len();
            let ghost pool0 = pool@;
            let ghost want0 = want@;
            if len > t {
                let mut x: usize = t;
                while x < len
                    invariant
                        t < len,
                        len == n.slots@.len(),
                        t <= x <= len,
                        pool@ == pool0 + Seq::new((x - t) as nat, |y: int| (n.slots@[t + y], idx)),
                    decreases len - x,
                {
                    pool.push((n.slots[x], idx));
                    x = x + 1;
                    assert(pool@ =~= pool0 + Seq::new((x - t) as nat, |y: int| (n.slots@[t + y], idx)));
                }
            } else if len < t {
                let mut x: usize = len;
                while x < t
                    invariant
                        len < t,
                        len <= x <= t,
                        want@ == want0 + Seq::new((x - len) as nat, |y: int| idx),
                    decreases t - x,
                {
                    want.push(idx);
                    x = x + 1;
                    assert(want@ =~= want0 + Seq::new((x - len) as nat, |y: int| idx));
                }
            }
            proof {
                let ghost tk = ms@.take(i + 1);
                assert(tk.last() == idx);
                assert(tk.len() - 1 == i);
                assert(pool@ =~= released(self.nodes@, tk, m as nat));
                assert(want@ =~= wanted(self.nodes@, tk, m as nat));
            }
            i = i + 1;
        }
        proof {
            assert(ms@.take(m as int) =~= ms@);
        }
        let total = if pool.len() < want.len() {
            pool.len()
        } else {
            want.len()
        };
        let mut moves: Vec<Move> = Vec::new();
        let mut k: usize = 0;
        while k < total
            invariant
                total <= pool@.len(),
                total <= want@.len(),
                k <= total,
                moves@.len() == k,
                forall|y: int|
                    0 <= y < k ==> #[trigger] moves@[y] == (Move {
                        slot: pool@[y].0,
                        src: pool@[y].1,
                        dst: want@[y],
                    }),
            decreases total - k,
        {
            moves.push(Move { slot: pool[k].0, src: pool[k].1, dst: want[k] });
            k = k + 1;
        }
        Ok(moves)
    }

    /// Hands the slots that no master owns to the masters: ascending, split
    /// as `divide` splits their number, the first ones to the first master.
    /// One entry per master, with its index; none when there is no master.
    pub fn fill_slots(&self) -> (r: Vec<(usize, Vec<usize>)>)
        ensures
            ({
                let ms = masters_of(self.nodes@);
                let miss = unowned(self.nodes@, CLUSTER_SLOTS as nat);
                &&& r@.len() == ms.len()
                &&& forall|b: int|
                    0 <= b < ms.len() ==> (#[trigger] r@[b]).0 == ms[b] && r@[b].1@ == miss.subrange(
                        crate::slots::offset(miss.len(), ms.len(), b as nat) as int,
                        crate::slots::offset(miss.len(), ms.len(), (b + 1) as nat) as int,
                    )
            }),
    {
        let ghost ns = self.nodes@;
        let mut owned: Vec<bool> = Vec::new();
        let mut s: usize = 0;
        while s < CLUSTER_SLOTS
            invariant
                s <= CLUSTER_SLOTS,
                owned@.len() == s,
                forall|x: int| 0 <= x < s ==> !owned@[x],
            decreases CLUSTER_SLOTS - s,
        {
            owned.push(false);
            s = s + 1;
        }
        let mut ms: Vec<usize> = Vec::new();
        let mut j: usize = 0;
        while j < self.nodes.len()
            invariant
                ns == self.nodes@,
                j <= ns.len(),
                owned@.len() == CLUSTER_SLOTS,
                forall|x: int| 0 <= x < CLUSTER_SLOTS ==> #[trigger] owned@[x] == claimed_before(ns, j as int, 0, x),
                ms@ == masters_of(ns.take(j as int)),
            decreases ns.len() - j,
        {
            proof {
                assert(ns.take(j + 1).drop_last() =~= ns.take(j as int));
            }
            let node = &self.nodes[j];
            if node.is_master() {
                ms.push(j);
                let mut k: usize = 0;
                while k < node.slots.len()
                    invariant
                        ns == self.nodes@,
                        j < ns.len(),
                        *node == ns[j as int],
                        node.role == Some(Role::Master),
                        k <= node.slots@.len(),
                        owned@.len() == CLUSTER_SLOTS,
                        forall|x: int| 0 <= x < CLUSTER_SLOTS ==> #[trigger] owned@[x] == claimed_before(ns, j as int, k as int, x),
                    decreases node.slots@.len() - k,
                {
                    let slot = node.slots[k];
                    let ghost prev = owned@;
                    if slot < CLUSTER_SLOTS {
                        owned.set(slot, true);
                    }
                    proof {
                        assert(claims_slot(ns, j as int, k as int));
                        assert forall|x: int| 0 <= x < CLUSTER_SLOTS implies #[trigger] owned@[x]
                            == claimed_before(ns, j as int, k + 1, x) by {
                            if claimed_before(ns, j as int, k + 1, x) {
                                let (a, b) = choose|a: int, b: int| #[trigger] claims_slot(ns, a, b) && (a < j || (a == j && b < k + 1)) && ns[a].slots@[b] == x;
                                if !(a == j && b == k) {
                                    assert(claimed_before(ns, j as int, k as int, x));
                                }
                            }
                            if claimed_before(ns, j as int, k as int, x) {
                                let (a, b) = choose|a: int, b: int| #[trigger] claims_slot(ns, a, b) && (a < j || (a == j && b < k)) && ns[a].slots@[b] == x;
                                assert(claimed_before(ns, j as int, k + 1, x));
                            }
                        }
                    }
                    k = k + 1;
                }
                proof {
                    assert forall|x: int| 0 <= x < CLUSTER_SLOTS implies #[trigger] owned@[x]
                        == claimed_before(ns, j + 1, 0, x) by {
                        if claimed_before(ns, j + 1, 0, x) {
                            let (a, b) = choose|a: int, b: int| #[trigger] claims_slot(ns, a, b) && (a < j + 1 || (a == j + 1 && b < 0)) && ns[a].slots@[b] == x;
                            assert(claimed_before(ns, j as int, k as int, x));
                        }
                        if claimed_before(ns, j as int, k as int, x) {
                            let (a, b) = choose|a: int, b: int| #[trigger] claims_slot(ns, a, b) && (a < j || (a == j && b < k)) && ns[a].slots@[b] == x;
                            assert(claimed_before(ns, j + 1, 0, x));
                        }
                    }
                }
            } else {
                proof {
                    assert forall|x: int| 0 <= x < CLUSTER_SLOTS implies #[trigger] owned@[x]
                        == claimed_before(ns, j + 1, 0, x) by {
                        if claimed_before(ns, j + 1, 0, x) {
                            let (a, b) = choose|a: int, b: int| #[trigger] claims_slot(ns, a, b) && (a < j + 1 || (a == j + 1 && b < 0)) && ns[a].slots@[b] == x;
                            assert(claimed_before(ns, j as int, 0, x));
                        }
                        if claimed_before(ns, j as int, 0, x) {
                            let (a, b) = choose|a: int, b: int| #[trigger] claims_slot(ns, a, b) && (a < j || (a == j && b < 0)) && ns[a].slots@[b] == x;
                            assert(claimed_before(ns, j + 1, 0, x));
                        }
                    }
                }
            }
            j = j + 1;
        }
        proof {
            assert(ns.take(j as int) =~= ns);
            assert forall|x: int| 0 <= x < CLUSTER_SLOTS implies #[trigger] owned@[x] == slot_owned(ns, x) by {
                if slot_owned(ns, x) {
                    let (a, b) = choose|a: int, b: int| #[trigger] claims_slot(ns, a, b) && ns[a].slots@[b] == x;
                    assert(claimed_before(ns, j as int, 0, x));
                }
            }
        }
        let mut miss: Vec<usize> = Vec::new();
        let mut s: usize = 0;
        while s < CLUSTER_SLOTS
            invariant
                s <= CLUSTER_SLOTS,
                owned@.len() == CLUSTER_SLOTS,
                forall|x: int| 0 <= x < CLUSTER_SLOTS ==> #[trigger] owned@[x] == slot_owned(ns, x),
                miss@ == unowned(ns, s as nat),
            decreases CLUSTER_SLOTS - s,
        {
            if !owned[s] {
                miss.push(s);
            }
            s = s + 1;
        }
        let mut r: Vec<(usize, Vec<usize>)> = Vec::new();
        let m = ms.len();
        if m == 0 {
            return r;
        }
        let c = miss.len();
        let dist = divide(c, m);
        let mut start: usize = 0;
        let mut b: usize = 0;
        while b < m
            invariant
                ms@ == masters_of(ns),
                m == ms@.len(),
                m >= 1,
                c == miss@.len(),
                miss@ == unowned(ns, CLUSTER_SLOTS as nat),
                dist@.len() == m,
                forall|x: int| 0 <= x < m ==> dist@[x] == split_counts(c as nat, m as nat)[x],
                b <= m,
                start == crate::slots::offset(c as nat, m as nat, b as nat),
                r@.len() == b,
                forall|x: int|
                    0 <= x < b ==> (#[trigger] r@[x]).0 == ms@[x] && r@[x].1@ == miss@.subrange(
                        crate::slots::offset(c as nat, m as nat, x as nat) as int,
                        crate::slots::offset(c as nat, m as nat, (x + 1) as nat) as int,
                    ),
            decreases m - b,
        {
            proof {
                lemma_offset_step(c as nat, m as nat, b as nat);
                lemma_offset_monotone(c as nat, m as nat, (b + 1) as nat, m as nat);
                lemma_offset_end(c as nat, m as nat);
            }
            let end = start + dist[b];
            let mut part: Vec<usize> = Vec::new();
            let mut k: usize = start;
            while k < end
                invariant
                    start <= k <= end,
                    end <= miss@.len(),
                    part@ == miss@.subrange(start as int, k as int),
                decreases end - k,
            {
                part.push(miss[k]);
                k = k + 1;
                assert(part@ =~= miss@.subrange(start as int, k as int));
            }
            r.push((ms[b], part));
            start = end;
            b = b + 1;
        }
        r
    }

    /// Checks, from the status replies of the members, `infos[i]` from
    /// `self.nodes[i]`, that each member knows no member but itself, so that
    /// no two live clusters are merged. `BadCluster` otherwise.
    pub fn check(&self, infos: &Vec<Vec<u8>>) -> (r: Result<(), Error>)
        ensures
            r is Ok <==> infos@.len() == self.nodes@.len() && forall|i: int|
                0 <= i < infos@.len() ==> reports_alone(#[trigger] infos@[i]@),
            r matches Err(e) ==> e == Error::BadCluster,
    {
        if infos.len() != self.nodes.len() {
            return Err(Error::BadCluster);
        }
        let mut i: usize = 0;
        while i < infos.len()
            invariant
                i <= infos@.len(),
                forall|x: int| 0 <= x < i ==> reports_alone(#[trigger] infos@[x]@),
            decreases infos@.len() - i,
        {
            if !is_alone(infos[i].as_slice()) {
                return Err(Error::BadCluster);
            }
            i = i + 1;
        }
        Ok(())
    }

    pub fn len(&self) -> (r: usize)
        ensures
            r == self.nodes@.len(),
    {
        self.nodes.len()
    }

    /// Whether the member lists that the members report, `views[i]` from
    /// `self.nodes[i]`, each have the masters own every slot exactly once and
    /// agree on who owns each slot.
    pub fn consistency(&self, views: &Vec<Vec<Node>>) -> (r: bool)
        ensures
            r == (views@.len() == self.nodes@.len() && (forall|i: int|
                0 <= i < views@.len() ==> report_partitions(#[trigger] views@[i]@)) && reports_agree(
                reports_of(views@),
            )),
    {
        let ghost vs = reports_of(views@);
        if views.len() != self.nodes.len() {
            return false;
        }
        let mut r: usize = 0;
        while r < views.len()
            invariant
                r <= views@.len(),
                forall|i: int| 0 <= i < r ==> report_partitions(#[trigger] views@[i]@),
            decreases views@.len() - r,
        {
            if report_owners(&views[r]).is_none() {
                return false;
            }
            r = r + 1;
        }
        if views.len() == 0 {
            return true;
        }
        let table = match report_owners(&views[0]) {
            Some(t) => t,
            None => {
                return false;
            },
        };
        let first = &views[0];
        let mut r: usize = 0;
        while r < views.len()
            invariant
                vs == reports_of(views@),
                views@.len() >= 1,
                first@ == vs[0],
                forall|i: int| 0 <= i < views@.len() ==> report_partitions(#[trigger] views@[i]@),
                table@.len() == CLUSTER_SLOTS,
                forall|s: int|
                    0 <= s < CLUSTER_SLOTS ==> claims_slot(
                        vs[0],
                        #[trigger] table@[s].0 as int,
                        table@[s].1 as int,
                    ) && vs[0][table@[s].0 as int].slots@[table@[s].1 as int] == s,
                r <= views@.len(),
                forall|a: int, b: int, c: int|
                    0 <= a < r && #[trigger] claims_slot(vs[a], b, c) ==> same_member(
                        vs[a][b],
                        vs[0][table@[vs[a][b].slots@[c] as int].0 as int],
                    ),
            decreases views@.len() - r,
        {
            let v = &views[r];
            assert(v@ == vs[r as int]);
            assert(report_partitions(views@[r as int]@));
            let mut j: usize = 0;
            while j < v.len()
                invariant
                    vs == reports_of(views@),
                    views@.len() >= 1,
                    first@ == vs[0],
                    r < views@.len(),
                    v@ == vs[r as int],
                    report_partitions(vs[r as int]),
                    table@.len() == CLUSTER_SLOTS,
                    forall|s: int|
                        0 <= s < CLUSTER_SLOTS ==> claims_slot(
                            vs[0],
                            #[trigger] table@[s].0 as int,
                            table@[s].1 as int,
                        ) && vs[0][table@[s].0 as int].slots@[table@[s].1 as int] == s,
                    j <= v@.len(),
                    forall|a: int, b: int, c: int|
                        (0 <= a < r || (a == r && b < j)) && #[trigger] claims_slot(vs[a], b, c)
                            ==> same_member(
                            vs[a][b],
                            vs[0][table@[vs[a][b].slots@[c] as int].0 as int],
                        ),
                decreases v@.len() - j,
            {
                let node = &v[j];
                if node.is_master() {
                    let mut k: usize = 0;
                    while k < node.slots.len()
                        invariant
                            vs == reports_of(views@),
                            views@.len() >= 1,
                            first@ == vs[0],
                            r < views@.len(),
                            v@ == vs[r as int],
                            j < v@.len(),
                            *node == vs[r as int][j as int],
                            node.role == Some(Role::Master),
                            report_partitions(vs[r as int]),
                            table@.len() == CLUSTER_SLOTS,
                            forall|s: int|
                                0 <= s < CLUSTER_SLOTS ==> claims_slot(
                                    vs[0],
                                    #[trigger] table@[s].0 as int,
                                    table@[s].1 as int,
                                ) && vs[0][table@[s].0 as int].slots@[table@[s].1 as int] == s,
                            k <= node.slots@.len(),
                            forall|a: int, b: int, c: int|
                                (0 <= a < r || (a == r && b < j) || (a == r && b == j && c < k))
                                    && #[trigger] claims_slot(vs[a], b, c) ==> same_member(
                                    vs[a][b],
                                    vs[0][table@[vs[a][b].slots@[c] as int].0 as int],
                                ),
                        decreases node.slots@.len() - k,
                    {
                        let s = node.slots[k];
                        assert(claims_slot(vs[r as int], j as int, k as int));
                        let owner = table[s].0;
                        if !(*node == first[owner]) {
                            assert(claims_slot(vs[0], owner as int, table@[s as int].1 as int));
                            assert(!reports_agree(vs));
                            return false;
                        }
                        k = k + 1;
                    }
                }
                j = j + 1;
            }
            r = r + 1;
        }
        assert forall|r1: int, j1: int, k1: int, r2: int, j2: int, k2: int|
            0 <= r1 < vs.len() && 0 <= r2 < vs.len() && #[trigger] claims_slot(vs[r1], j1, k1)
                && #[trigger] claims_slot(vs[r2], j2, k2) && vs[r1][j1].slots@[k1]
                == vs[r2][j2].slots@[k2] implies same_member(vs[r1][j1], vs[r2][j2]) by {}
        true
    }
}

} // verus!
