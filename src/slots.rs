use vstd::prelude::*;
use vstd::multiset::Multiset;
use vstd::arithmetic::div_mod::lemma_fundamental_div_mod_converse;

verus! {

broadcast use {vstd::multiset::group_multiset_axioms, vstd::seq_lib::group_to_multiset_ensures};

/// Number of hash slots in the cluster's key space.
pub const CLUSTER_SLOTS: usize = 16384;

/// Size of bucket `i` when `total` is split into `n` near-equal buckets:
/// the first `total % n` buckets get one more than the others.
pub open spec fn share(total: nat, n: nat, i: nat) -> nat {
    total / n + if i < total % n { 1nat } else { 0nat }
}

/// The whole list of bucket sizes.
pub open spec fn split_counts(total: nat, n: nat) -> Seq<nat> {
    Seq::new(n, |i: int| share(total, n, i as nat))
}

/// Sum of the first `i` buckets, i.e. where bucket `i` starts.
pub open spec fn offset(total: nat, n: nat, i: nat) -> nat {
    i * (total / n) + if i < total % n { i } else { total % n }
}

/// Slot `s` lies in bucket `i` of `[0, total)` split `n` ways.
pub open spec fn in_bucket(total: nat, n: nat, i: int, s: int) -> bool {
    offset(total, n, i as nat) <= s < offset(total, n, (i + 1) as nat)
}

/// Slot `s` lies in some bucket of `[0, total)` split `n` ways.
pub open spec fn covered(total: nat, n: nat, s: int) -> bool {
    exists|i: int| 0 <= i < n && #[trigger] in_bucket(total, n, i, s)
}

pub open spec fn sum_of(s: Seq<nat>) -> nat
    decreases s.len(),
{
    if s.len() == 0 {
        0
    } else {
        sum_of(s.drop_last()) + s.last()
    }
}

pub proof fn lemma_offset_step(total: nat, n: nat, i: nat)
    requires
        n >= 1,
    ensures
        offset(total, n, i + 1) == offset(total, n, i) + share(total, n, i),
{
    let q = total / n;
    assert((i + 1) * q == i * q + q) by (nonlinear_arith);
}

pub proof fn lemma_offset_end(total: nat, n: nat)
    requires
        n >= 1,
    ensures
        offset(total, n, n) == total,
{
    vstd::arithmetic::div_mod::lemma_fundamental_div_mod(total as int, n as int);
    assert(n * (total / n) == (total / n) * n) by (nonlinear_arith);
}

pub proof fn lemma_offset_monotone(total: nat, n: nat, i: nat, j: nat)
    requires
        n >= 1,
        i <= j,
    ensures
        offset(total, n, i) <= offset(total, n, j),
{
    let q = total / n;
    assert(i * q <= j * q) by (nonlinear_arith)
        requires
            i <= j,
    ;
}

pub proof fn lemma_prefix_sum(total: nat, n: nat, k: nat)
    requires
        n >= 1,
        k <= n,
    ensures
        sum_of(split_counts(total, n).take(k as int)) == offset(total, n, k),
    decreases k,
{
    if k > 0 {
        let s = split_counts(total, n);
        lemma_prefix_sum(total, n, (k - 1) as nat);
        assert(s.take(k as int).drop_last() =~= s.take(k - 1));
        lemma_offset_step(total, n, (k - 1) as nat);
    } else {
        assert(split_counts(total, n).take(0) =~= Seq::<nat>::empty());
    }
}

/// The buckets of `divide(total, n)` add up to `total`, differ by at most
/// one, and the first `total % n` of them hold the rounded-up quotient.
pub proof fn lemma_divide_laws(total: nat, n: nat)
    requires
        n >= 1,
    ensures
        split_counts(total, n).len() == n,
        sum_of(split_counts(total, n)) == total,
        forall|i: int, j: int|
            0 <= i < n && 0 <= j < n ==> split_counts(total, n)[i] <= split_counts(total, n)[j] + 1,
        forall|i: int| 0 <= i < total % n ==> split_counts(total, n)[i] == ((total + n - 1) as nat) / n,
{
    let s = split_counts(total, n);
    lemma_prefix_sum(total, n, n);
    assert(s.take(n as int) =~= s);
    lemma_offset_end(total, n);
    if total % n > 0 {
        vstd::arithmetic::div_mod::lemma_fundamental_div_mod(total as int, n as int);
        let q = total / n;
        assert((q + 1) * n == n * q + n) by (nonlinear_arith);
        lemma_fundamental_div_mod_converse(
            (total + n - 1) as int,
            n as int,
            (total / n + 1) as int,
            (total % n - 1) as int,
        );
    }
}

/// Splits `total` into `n` near-equal counts (see `share`).
pub fn divide(total: usize, n: usize) -> (r: Vec<usize>)
    requires
        n >= 1,
    ensures
        r@.len() == n,
        forall|i: int| 0 <= i < n ==> r@[i] == split_counts(total as nat, n as nat)[i],
{
    let base = total / n;
    let extra = total % n;
    let mut r: Vec<usize> = Vec::new();
    let mut i: usize = 0;
    while i < n
        invariant
            n >= 1,
            base == total / n,
            extra == total % n,
            i <= n,
            r@.len() == i,
            forall|j: int| 0 <= j < i ==> r@[j] == split_counts(total as nat, n as nat)[j],
        decreases n - i,
    {
        if i < extra {
            assert(base < total) by (nonlinear_arith)
                requires
                    base == total / n,
                    extra == total % n,
                    i < extra,
                    n >= 1,
            ;
            r.push(base + 1);
        } else {
            r.push(base);
        }
        i = i + 1;
    }
    r
}

/// A half-open range `[start, end)` of slots.
#[derive(Debug)]
pub struct Chunk(pub usize, pub usize);

impl PartialEq for Chunk {
    fn eq(&self, other: &Chunk) -> (r: bool)
        ensures
            r == (self.0 == other.0 && self.1 == other.1),
    {
        self.0 == other.0 && self.1 == other.1
    }
}

impl vstd::std_specs::cmp::PartialEqSpecImpl for Chunk {
    open spec fn obeys_eq_spec() -> bool {
        true
    }

    open spec fn eq_spec(&self, other: &Chunk) -> bool {
        self.0 == other.0 && self.1 == other.1
    }
}

/// Splits `[0, n)` into `m` contiguous ranges whose sizes follow `divide`;
/// `None` when there is no range to split into.
pub fn slpit_slots(n: usize, m: usize) -> (r: Option<Vec<Chunk>>)
    ensures
        r is None <==> m == 0,
        r matches Some(v) ==> v@.len() == m && forall|i: int|
            0 <= i < m ==> v@[i].0 == offset(n as nat, m as nat, i as nat) && v@[i].1 == offset(
                n as nat,
                m as nat,
                (i + 1) as nat,
            ),
{
    if m == 0 {
        return None;
    }
    let chunks = divide(n, m);
    let mut res: Vec<Chunk> = Vec::new();
    let mut total: usize = 0;
    let mut i: usize = 0;
    while i < m
        invariant
            m >= 1,
            chunks@.len() == m,
            forall|j: int| 0 <= j < m ==> chunks@[j] == split_counts(n as nat, m as nat)[j],
            i <= m,
            total == offset(n as nat, m as nat, i as nat),
            res@.len() == i,
            forall|j: int|
                0 <= j < i ==> res@[j].0 == offset(n as nat, m as nat, j as nat) && res@[j].1
                    == offset(n as nat, m as nat, (j + 1) as nat),
        decreases m - i,
    {
        let num = chunks[i];
        proof {
            lemma_offset_step(n as nat, m as nat, i as nat);
            lemma_offset_monotone(n as nat, m as nat, (i + 1) as nat, m as nat);
            lemma_offset_end(n as nat, m as nat);
        }
        res.push(Chunk(total, total + num));
        total = total + num;
        i = i + 1;
    }
    Some(res)
}

/// The ranges of `slpit_slots(n, m)` lie end to end: the first starts at 0,
/// the last ends at `n`, each starts where the one before it ends, and every
/// slot of `[0, n)` lies in exactly one of them.
pub proof fn lemma_split_slots_partition(n: nat, m: nat)
    requires
        m >= 1,
    ensures
        offset(n, m, 0) == 0,
        offset(n, m, m) == n,
        forall|i: int| 0 <= i < m ==> #[trigger] offset(n, m, i as nat) <= offset(n, m, (i + 1) as nat),
        forall|s: int| 0 <= s < n ==> #[trigger] covered(n, m, s),
        forall|s: int, i: int, j: int|
            0 <= i < m && 0 <= j < m && #[trigger] in_bucket(n, m, i, s) && #[trigger] in_bucket(
                n,
                m,
                j,
                s,
            ) ==> i == j,
{
    lemma_offset_end(n, m);
    let q = n / m;
    assert(0 * q == 0) by (nonlinear_arith);
    assert forall|i: int| 0 <= i < m implies #[trigger] offset(n, m, i as nat) <= offset(
        n,
        m,
        (i + 1) as nat,
    ) by {
        lemma_offset_step(n, m, i as nat);
    }
    assert forall|s: int| 0 <= s < n implies #[trigger] covered(n, m, s) by {
        lemma_find_bucket(n, m, s, m);
    }
    assert forall|s: int, i: int, j: int|
        0 <= i < m && 0 <= j < m && #[trigger] in_bucket(n, m, i, s) && #[trigger] in_bucket(
            n,
            m,
            j,
            s,
        ) implies i == j by {
        if i < j {
            lemma_offset_monotone(n, m, (i + 1) as nat, j as nat);
        } else if j < i {
            lemma_offset_monotone(n, m, (j + 1) as nat, i as nat);
        }
    }
}

proof fn lemma_find_bucket(n: nat, m: nat, s: int, k: nat)
    requires
        m >= 1,
        k <= m,
        0 <= s < offset(n, m, k),
    ensures
        exists|i: int| 0 <= i < k && #[trigger] in_bucket(n, m, i, s),
    decreases k,
{
    if k == 0 {
        let q = n / m;
        assert(0 * q == 0) by (nonlinear_arith);
    } else if s >= offset(n, m, (k - 1) as nat) {
        assert(in_bucket(n, m, k - 1, s));
    } else {
        lemma_find_bucket(n, m, s, (k - 1) as nat);
    }
}

/// What a list of groups holds.
pub open spec fn group_views<T>(gs: Seq<Vec<T>>) -> Seq<Seq<T>> {
    Seq::new(gs.len(), |i: int| gs[i]@)
}

/// How many items the groups hold in all.
pub open spec fn sum_lens<T>(gs: Seq<Seq<T>>) -> nat
    decreases gs.len(),
{
    if gs.len() == 0 {
        0
    } else {
        sum_lens(gs.drop_last()) + gs.last().len()
    }
}

pub proof fn lemma_sum_lens_update<T>(gs: Seq<Seq<T>>, g: int, x: Seq<T>)
    requires
        0 <= g < gs.len(),
    ensures
        sum_lens(gs.update(g, x)) + gs[g].len() == sum_lens(gs) + x.len(),
    decreases gs.len(),
{
    let u = gs.update(g, x);
    if g < gs.len() - 1 {
        lemma_sum_lens_update(gs.drop_last(), g, x);
        assert(u.drop_last() =~= gs.drop_last().update(g, x));
    } else {
        assert(u.drop_last() =~= gs.drop_last());
    }
}

/// All the items the groups hold, counted with repetition.
pub open spec fn all_items<T>(gs: Seq<Seq<T>>) -> Multiset<T>
    decreases gs.len(),
{
    if gs.len() == 0 {
        Multiset::empty()
    } else {
        all_items(gs.drop_last()).add(gs.last().to_multiset())
    }
}

proof fn lemma_all_items_update<T>(gs: Seq<Seq<T>>, g: int, x: Seq<T>)
    requires
        0 <= g < gs.len(),
    ensures
        all_items(gs.update(g, x)).add(gs[g].to_multiset()) =~= all_items(gs).add(x.to_multiset()),
    decreases gs.len(),
{
    let u = gs.update(g, x);
    if g < gs.len() - 1 {
        lemma_all_items_update(gs.drop_last(), g, x);
        assert(u.drop_last() =~= gs.drop_last().update(g, x));
        assert(u.last() == gs.last());
        assert(gs.drop_last()[g] == gs[g]);
        let a = all_items(u.drop_last());
        let b = all_items(gs.drop_last());
        assert(a.add(gs[g].to_multiset()) == b.add(x.to_multiset()));
        assert forall|v: T| #[trigger]
            all_items(u).add(gs[g].to_multiset()).count(v) == all_items(gs).add(
                x.to_multiset(),
            ).count(v) by {
            assert(a.add(gs[g].to_multiset()).count(v) == b.add(x.to_multiset()).count(v));
        }
    } else {
        assert(u.drop_last() =~= gs.drop_last());
        assert(u.last() == x);
    }
}

proof fn lemma_sum_lens_zero<T>(gs: Seq<Seq<T>>)
    requires
        forall|i: int| 0 <= i < gs.len() ==> gs[i].len() == 0,
    ensures
        sum_lens(gs) == 0,
    decreases gs.len(),
{
    if gs.len() > 0 {
        lemma_sum_lens_zero(gs.drop_last());
    }
}

/// How many items round-robin takes from a group of `len` items after
/// `rounds` full rounds, and one more turn if `extra` holds.
pub open spec fn rr_taken(len: nat, rounds: nat, extra: bool) -> nat {
    let want = rounds + if extra { 1nat } else { 0nat };
    if len < want {
        len
    } else {
        want
    }
}

/// From `before` to `after`, each group lost what `rounds` full rounds of
/// turns and one more turn for the first `p` groups take.
pub open spec fn taken_by_turns<T>(before: Seq<Vec<T>>, after: Seq<Vec<T>>, rounds: nat, p: int) -> bool {
    0 <= p <= before.len() && forall|g: int|
        0 <= g < before.len() ==> before[g]@.len() - #[trigger] after[g]@.len() == rr_taken(
            before[g]@.len(),
            rounds,
            g < p,
        )
}

/// `x` is one of the items that left the groups between `start` and `cur`.
pub open spec fn came_from<T>(start: Seq<Vec<T>>, cur: Seq<Vec<T>>, x: T) -> bool {
    exists|g: int, i: int|
        0 <= g < start.len() && cur[g]@.len() <= i < start[g]@.len() && x == #[trigger] start[g]@[i]
}

proof fn lemma_came_from_shrink<T>(start: Seq<Vec<T>>, a: Seq<Vec<T>>, b: Seq<Vec<T>>, x: T)
    requires
        came_from(start, a, x),
        a.len() == b.len(),
        forall|g: int| 0 <= g < a.len() ==> #[trigger] b[g]@.len() <= a[g]@.len(),
        a.len() == start.len(),
    ensures
        came_from(start, b, x),
{
    let (g, i) = choose|g: int, i: int|
        0 <= g < start.len() && a[g]@.len() <= i < start[g]@.len() && x == #[trigger] start[g]@[i];
    assert(b[g]@.len() <= a[g]@.len());
}

/// Picks `n` items by turns: each round takes the last item of every group
/// that still has one, in group order, until `n` are taken; the picked items
/// leave their groups. `None`, with the groups untouched, when fewer than `n`
/// items exist.
pub fn spread<T>(groups: &mut Vec<Vec<T>>, n: usize) -> (r: Option<Vec<T>>)
    ensures
        r is None <==> sum_lens(group_views(old(groups)@)) < n,
        r is None ==> final(groups)@ == old(groups)@,
        r matches Some(v) ==> {
            &&& v@.len() == n
            &&& final(groups)@.len() == old(groups)@.len()
            &&& sum_lens(group_views(final(groups)@)) + n == sum_lens(group_views(old(groups)@))
            &&& v@.to_multiset().add(all_items(group_views(final(groups)@))) == all_items(
                group_views(old(groups)@),
            )
            &&& forall|g: int|
                0 <= g < old(groups)@.len() ==> #[trigger] final(groups)@[g]@ == old(groups)@[g]@.take(final(groups)@[g]@.len() as int)
            &&& exists|rounds: nat, p: int| #[trigger] taken_by_turns(old(groups)@, final(groups)@, rounds, p)
            &&& forall|k: int| 0 <= k < n ==> came_from(old(groups)@, final(groups)@, #[trigger] v@[k])
        },
{
    let ghost start = groups@;
    let mut total: usize = 0;
    let mut g: usize = 0;
    while g < groups.len() && total < n
        invariant
            groups@ == start,
            g <= groups@.len(),
            total < n ==> total == sum_lens(group_views(groups@).take(g as int)),
            total >= n ==> sum_lens(group_views(groups@)) >= n,
        decreases groups@.len() - g,
    {
        proof {
            assert(group_views(groups@).take(g + 1).drop_last() =~= group_views(groups@).take(
                g as int,
            ));
            lemma_sum_prefix(group_views(groups@), g + 1);
        }
        let len = groups[g].len();
        if len >= n - total {
            total = n;
        } else {
            total = total + len;
        }
        g = g + 1;
    }
    if total < n {
        proof {
            assert(group_views(groups@).take(g as int) =~= group_views(groups@));
        }
        return None;
    }
    let mut out: Vec<T> = Vec::new();
    assert(out@.to_multiset() =~= Multiset::<T>::empty());
    let ghost mut rounds: nat = 0;
    let ghost mut stop: int = 0;
    while out.len() < n
        invariant
            groups@.len() == start.len(),
            sum_lens(group_views(start)) >= n,
            out@.len() + sum_lens(group_views(groups@)) == sum_lens(group_views(start)),
            out@.to_multiset().add(all_items(group_views(groups@))) == all_items(group_views(start)),
            out@.len() <= n,
            stop > 0 ==> out@.len() == n,
            0 <= stop <= start.len(),
            forall|h: int|
                0 <= h < start.len() ==> #[trigger] groups@[h]@ == start[h]@.take(
                    groups@[h]@.len() as int,
                ),
            forall|h: int|
                0 <= h < start.len() ==> start[h]@.len() - #[trigger] groups@[h]@.len() == rr_taken(
                    start[h]@.len(),
                    rounds,
                    h < stop,
                ),
            forall|k: int| 0 <= k < out@.len() ==> came_from(start, groups@, #[trigger] out@[k]),
        decreases sum_lens(group_views(groups@)),
    {
        let mut popped = false;
        let mut h: usize = 0;
        let ghost before = sum_lens(group_views(groups@));
        while h < groups.len() && out.len() < n
            invariant
                groups@.len() == start.len(),
                out@.len() + sum_lens(group_views(groups@)) == sum_lens(group_views(start)),
                out@.to_multiset().add(all_items(group_views(groups@))) == all_items(group_views(start)),
                out@.len() <= n,
                h <= groups@.len(),
                stop == 0,
                popped ==> sum_lens(group_views(groups@)) < before,
                !popped ==> sum_lens(group_views(groups@)) == before,
                !popped ==> forall|x: int| 0 <= x < h ==> #[trigger] groups@[x]@.len() == 0,
                forall|x: int|
                    0 <= x < start.len() ==> #[trigger] groups@[x]@ == start[x]@.take(
                        groups@[x]@.len() as int,
                    ),
                forall|x: int|
                    0 <= x < start.len() ==> start[x]@.len() - #[trigger] groups@[x]@.len()
                        == rr_taken(start[x]@.len(), rounds, x < h),
                forall|k: int| 0 <= k < out@.len() ==> came_from(start, groups@, #[trigger] out@[k]),
            decreases groups@.len() - h,
        {
            if groups[h].len() > 0 {
                let ghost gv = group_views(groups@);
                let ghost old_groups = groups@;
                let item = groups[h].pop();
                proof {
                    assert(group_views(groups@) =~= gv.update(h as int, groups@[h as int]@));
                    lemma_sum_lens_update(gv, h as int, groups@[h as int]@);
                    lemma_all_items_update(gv, h as int, groups@[h as int]@);
                }
                match item {
                    Some(x) => {
                        let ghost k = out@.len();
                        let ghost out0 = out@;
                        proof {
                            assert(gv[h as int] == groups@[h as int]@.push(x));
                            assert(gv[h as int].to_multiset() =~= groups@[h as int]@.to_multiset().insert(x));
                        }
                        out.push(x);
                        proof {
                            assert(out@ == out0.push(x));
                            assert(out@.to_multiset() =~= out0.to_multiset().insert(x));
                            let gm = all_items(group_views(groups@));
                            assert(gm.add(gv[h as int].to_multiset()) == all_items(gv).add(
                                groups@[h as int]@.to_multiset(),
                            ));
                            assert(out0.to_multiset().add(all_items(gv)) == all_items(group_views(start)));
                            assert forall|v: T| #[trigger] out@.to_multiset().add(gm).count(v)
                                == all_items(group_views(start)).count(v) by {
                                assert(gm.add(gv[h as int].to_multiset()).count(v) == all_items(gv).add(
                                    groups@[h as int]@.to_multiset(),
                                ).count(v));
                                assert(out0.to_multiset().add(all_items(gv)).count(v) == all_items(
                                    group_views(start),
                                ).count(v));
                            }
                            assert(out@.to_multiset().add(all_items(group_views(groups@))) =~= all_items(
                                group_views(start),
                            ));
                        }
                        proof {
                            assert forall|kk: int| 0 <= kk < out@.len() implies came_from(
                                start,
                                groups@,
                                #[trigger] out@[kk],
                            ) by {
                                if kk < k {
                                    lemma_came_from_shrink(start, old_groups, groups@, out@[kk]);
                                } else {
                                    let i = groups@[h as int]@.len() as int;
                                    assert(out@[kk] == start[h as int]@[i]);
                                }
                            }
                        }
                    },
                    None => {},
                }
                popped = true;
            }
            h = h + 1;
        }
        proof {
            if !popped {
                lemma_sum_lens_zero(group_views(groups@));
            }
        }
        if out.len() >= n {
            proof {
                stop = h as int;
            }
        } else {
            proof {
                rounds = rounds + 1;
                assert forall|x: int| 0 <= x < start.len() implies start[x]@.len()
                    - #[trigger] groups@[x]@.len() == rr_taken(start[x]@.len(), rounds, x < stop) by {
                }
            }
        }
    }
    assert(taken_by_turns(start, groups@, rounds, stop));
    Some(out)
}

/// Turns are fair: as long as a group still holds items, no group has given
/// more than one item beyond what that group gave; in particular no group
/// gives a second item while another still holds its first.
pub proof fn lemma_spread_fair<T>(
    before: Seq<Vec<T>>,
    after: Seq<Vec<T>>,
    rounds: nat,
    p: int,
    g: int,
    h: int,
)
    requires
        taken_by_turns(before, after, rounds, p),
        0 <= g < before.len(),
        0 <= h < before.len(),
        after[h]@.len() > 0,
    ensures
        before[g]@.len() - after[g]@.len() <= before[h]@.len() - after[h]@.len() + 1,
{
    assert(before[g]@.len() - after[g]@.len() == rr_taken(before[g]@.len(), rounds, g < p));
    assert(before[h]@.len() - after[h]@.len() == rr_taken(before[h]@.len(), rounds, h < p));
}

proof fn lemma_sum_prefix<T>(gs: Seq<Seq<T>>, k: int)
    requires
        0 <= k <= gs.len(),
    ensures
        sum_lens(gs.take(k)) <= sum_lens(gs),
    decreases gs.len(),
{
    if k < gs.len() {
        lemma_sum_prefix(gs.drop_last(), k);
        assert(gs.drop_last().take(k) =~= gs.take(k));
    } else {
        assert(gs.take(k) =~= gs);
    }
}

} // verus!
