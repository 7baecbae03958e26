use vstd::prelude::*;
use crate::node::{
    find_byte, host_part, lemma_find_byte, pairs_view, port_part, text, text_of, valid_addr, Error,
    Node, Role,
};
use crate::slots::CLUSTER_SLOTS;

verus! {

pub const NEWLINE: u8 = 10;

pub const CR: u8 = 13;

pub const SPACE: u8 = 32;

pub const DASH: u8 = 45;

pub const AT: u8 = 64;

pub const OPEN: u8 = 91;

pub const CLOSE: u8 = 93;

/// The pieces of `s` between the occurrences of `c`, as `str::split` gives them.
pub open spec fn split_at_byte(s: Seq<u8>, c: u8) -> Seq<Seq<u8>>
    decreases s.len(),
{
    if s.len() == 0 {
        seq![Seq::<u8>::empty()]
    } else {
        let p = split_at_byte(s.drop_last(), c);
        if s.last() == c {
            p.push(Seq::<u8>::empty())
        } else {
            p.update(p.len() - 1, p.last().push(s.last()))
        }
    }
}

pub proof fn lemma_split_len(s: Seq<u8>, c: u8)
    ensures
        split_at_byte(s, c).len() >= 1,
    decreases s.len(),
{
    if s.len() > 0 {
        lemma_split_len(s.drop_last(), c);
    }
}

/// `pat` occurs in `s` at index `i`.
pub open spec fn occurs_at(s: Seq<u8>, pat: Seq<u8>, i: int) -> bool {
    0 <= i && i + pat.len() <= s.len() && s.subrange(i, i + pat.len()) == pat
}

pub open spec fn contains(s: Seq<u8>, pat: Seq<u8>) -> bool {
    exists|i: int| occurs_at(s, pat, i)
}

/// `i` is the first place where `pat` occurs in `s`.
pub open spec fn first_at(s: Seq<u8>, pat: Seq<u8>, i: int) -> bool {
    occurs_at(s, pat, i) && forall|j: int| 0 <= j < i ==> !occurs_at(s, pat, j)
}

pub proof fn lemma_first_unique(s: Seq<u8>, pat: Seq<u8>, i: int, j: int)
    requires
        first_at(s, pat, i),
        first_at(s, pat, j),
    ensures
        i == j,
{
}

/// `->-`: a slot being handed to another member.
pub open spec fn out_pat() -> Seq<u8> {
    seq![45u8, 62u8, 45u8]
}

/// `-<-`: a slot being taken from another member.
pub open spec fn in_pat() -> Seq<u8> {
    seq![45u8, 60u8, 45u8]
}

pub open spec fn master_pat() -> Seq<u8> {
    seq![109u8, 97u8, 115u8, 116u8, 101u8, 114u8]
}

pub open spec fn self_pat() -> Seq<u8> {
    seq![115u8, 101u8, 108u8, 102u8]
}

pub open spec fn is_digit(b: u8) -> bool {
    48 <= b <= 57
}

pub open spec fn digits_value(s: Seq<u8>) -> int
    decreases s.len(),
{
    if s.len() == 0 {
        0
    } else {
        digits_value(s.drop_last()) * 10 + (s.last() - 48)
    }
}

pub open spec fn all_digits(s: Seq<u8>) -> bool {
    forall|i: int| 0 <= i < s.len() ==> is_digit(s[i])
}

/// A slot number written in decimal.
pub open spec fn parse_slot(s: Seq<u8>) -> Option<usize> {
    if s.len() > 0 && all_digits(s) && digits_value(s) < CLUSTER_SLOTS {
        Some(digits_value(s) as usize)
    } else {
        None
    }
}

/// A token in brackets marks a slot in the middle of a hand-over.
pub open spec fn is_marker(t: Seq<u8>) -> bool {
    t.len() >= 2 && t[0] == OPEN && t.last() == CLOSE
}

pub open spec fn marker_inner(t: Seq<u8>) -> Seq<u8> {
    t.subrange(1, t.len() - 1)
}

/// `[slot<pat>id]`: the slot before the first `pat`, the id after it.
pub open spec fn marker_entry(t: Seq<u8>, pat: Seq<u8>) -> Option<(usize, Seq<char>)> {
    let inner = marker_inner(t);
    let p = choose|p: int| first_at(inner, pat, p);
    match parse_slot(inner.take(p)) {
        Some(v) => Some((v, text_of(inner.skip(p + pat.len())))),
        None => None,
    }
}

pub open spec fn is_out_marker(t: Seq<u8>) -> bool {
    is_marker(t) && contains(marker_inner(t), out_pat())
}

pub open spec fn is_in_marker(t: Seq<u8>) -> bool {
    is_marker(t) && !contains(marker_inner(t), out_pat()) && contains(marker_inner(t), in_pat())
}

/// The slots `a..=b`.
pub open spec fn slot_range(a: usize, b: usize) -> Seq<usize> {
    Seq::new((b - a + 1) as nat, |i: int| (a + i) as usize)
}

/// A plain token: one slot `a`, or the closed range `a-b`.
pub open spec fn range_of(t: Seq<u8>) -> Option<Seq<usize>> {
    let parts = split_at_byte(t, DASH);
    if parts.len() == 1 {
        match parse_slot(parts[0]) {
            Some(a) => Some(seq![a]),
            None => None,
        }
    } else if parts.len() == 2 {
        match (parse_slot(parts[0]), parse_slot(parts[1])) {
            (Some(a), Some(b)) => if a <= b {
                Some(slot_range(a, b))
            } else {
                None
            },
            _ => None,
        }
    } else {
        None
    }
}

pub open spec fn token_ok(t: Seq<u8>) -> bool {
    if is_out_marker(t) {
        marker_entry(t, out_pat()) is Some
    } else if is_in_marker(t) {
        marker_entry(t, in_pat()) is Some
    } else if is_marker(t) {
        false
    } else {
        range_of(t) is Some
    }
}

pub open spec fn token_slots(t: Seq<u8>) -> Seq<usize> {
    if !is_marker(t) && range_of(t) is Some {
        range_of(t)->Some_0
    } else {
        Seq::empty()
    }
}

pub open spec fn token_out(t: Seq<u8>) -> Seq<(usize, Seq<char>)> {
    if is_out_marker(t) && marker_entry(t, out_pat()) is Some {
        seq![marker_entry(t, out_pat())->Some_0]
    } else {
        Seq::empty()
    }
}

pub open spec fn token_in(t: Seq<u8>) -> Seq<(usize, Seq<char>)> {
    if is_in_marker(t) && marker_entry(t, in_pat()) is Some {
        seq![marker_entry(t, in_pat())->Some_0]
    } else {
        Seq::empty()
    }
}

pub open spec fn tokens_slots(ts: Seq<Seq<u8>>) -> Seq<usize>
    decreases ts.len(),
{
    if ts.len() == 0 {
        Seq::empty()
    } else {
        tokens_slots(ts.drop_last()) + token_slots(ts.last())
    }
}

pub open spec fn tokens_out(ts: Seq<Seq<u8>>) -> Seq<(usize, Seq<char>)>
    decreases ts.len(),
{
    if ts.len() == 0 {
        Seq::empty()
    } else {
        tokens_out(ts.drop_last()) + token_out(ts.last())
    }
}

pub open spec fn tokens_in(ts: Seq<Seq<u8>>) -> Seq<(usize, Seq<char>)>
    decreases ts.len(),
{
    if ts.len() == 0 {
        Seq::empty()
    } else {
        tokens_in(ts.drop_last()) + token_in(ts.last())
    }
}

/// The address field without its `@busport` suffix.
pub open spec fn addr_field(f: Seq<u8>) -> Seq<u8> {
    f.take(find_byte(f, AT))
}

pub open spec fn line_fields(line: Seq<u8>) -> Seq<Seq<u8>> {
    split_at_byte(line, SPACE)
}

/// A member line: id, address, flags, master id or `-`, four fields the
/// parser does not read, then slot tokens.
pub open spec fn line_ok(line: Seq<u8>) -> bool {
    let f = line_fields(line);
    &&& f.len() >= 8
    &&& valid_addr(addr_field(f[1]))
    &&& forall|i: int| 8 <= i < f.len() ==> token_ok(#[trigger] f[i])
}

/// `n` is the record that member line `line` describes.
pub open spec fn line_node(line: Seq<u8>, n: Node) -> bool {
    let f = line_fields(line);
    let a = addr_field(f[1]);
    &&& n.name@ == text_of(f[0])
    &&& n.ip@ == text_of(host_part(a))
    &&& n.port@ == text_of(port_part(a))
    &&& n.role == Some(if contains(f[2], master_pat()) { Role::Master } else { Role::Slave })
    &&& n.myself == contains(f[2], self_pat())
    &&& match n.slaveof {
        None => f[3] == seq![DASH],
        Some(m) => f[3] != seq![DASH] && m@ == text_of(f[3]),
    }
    &&& n.slots@ == tokens_slots(f.skip(8))
    &&& pairs_view(n.migrating@) == tokens_out(f.skip(8))
    &&& pairs_view(n.importing@) == tokens_in(f.skip(8))
}

pub open spec fn strip_cr(l: Seq<u8>) -> Seq<u8> {
    if l.len() > 0 && l.last() == CR {
        l.drop_last()
    } else {
        l
    }
}

/// The lines of a reply, as `str::lines` gives them.
pub open spec fn reply_lines(text: Seq<u8>) -> Seq<Seq<u8>> {
    let parts = split_at_byte(text, NEWLINE);
    let kept = if parts.last().len() == 0 {
        parts.drop_last()
    } else {
        parts
    };
    Seq::new(kept.len(), |i: int| strip_cr(kept[i]))
}

/// What a list of byte strings holds.
pub open spec fn vecs_view(v: Seq<Vec<u8>>) -> Seq<Seq<u8>> {
    Seq::new(v.len(), |i: int| v[i]@)
}

/// Splits `s` at every `c`.
pub fn split_bytes(s: &[u8], c: u8) -> (r: Vec<Vec<u8>>)
    ensures
        vecs_view(r@) == split_at_byte(s@, c),
{
    let mut out: Vec<Vec<u8>> = Vec::new();
    let mut cur: Vec<u8> = Vec::new();
    let mut i: usize = 0;
    while i < s.len()
        invariant
            i <= s@.len(),
            vecs_view(out@).push(cur@) == split_at_byte(s@.take(i as int), c),
        decreases s@.len() - i,
    {
        proof {
            assert(s@.take(i + 1).drop_last() =~= s@.take(i as int));
        }
        if s[i] == c {
            let ghost prev = vecs_view(out@).push(cur@);
            let done = cur;
            out.push(done);
            cur = Vec::new();
            proof {
                assert(vecs_view(out@) =~= prev);
                assert(vecs_view(out@).push(cur@) =~= split_at_byte(s@.take(i + 1), c));
            }
        } else {
            let ghost prev = vecs_view(out@).push(cur@);
            cur.push(s[i]);
            proof {
                assert(vecs_view(out@).push(cur@) =~= prev.update(
                    prev.len() - 1,
                    prev.last().push(s@[i as int]),
                ));
            }
        }
        i = i + 1;
    }
    let ghost prev = vecs_view(out@).push(cur@);
    out.push(cur);
    proof {
        assert(s@.take(s@.len() as int) =~= s@);
        assert(vecs_view(out@) =~= prev);
    }
    out
}

/// Index of the first `c` in `s`, or its length when there is none.
pub fn find_first(s: &[u8], c: u8) -> (r: usize)
    ensures
        r == find_byte(s@, c),
{
    let mut i: usize = 0;
    while i < s.len()
        invariant
            i <= s@.len(),
            find_byte(s@.take(i as int), c) == i,
        decreases s@.len() - i,
    {
        proof {
            assert(s@.take(i + 1).drop_last() =~= s@.take(i as int));
        }
        if s[i] == c {
            proof {
                lemma_find_prefix(s@, c, i + 1);
            }
            return i;
        }
        i = i + 1;
    }
    proof {
        assert(s@.take(s@.len() as int) =~= s@);
    }
    i
}

proof fn lemma_find_prefix(s: Seq<u8>, c: u8, k: int)
    requires
        0 < k <= s.len(),
        find_byte(s.take(k), c) < k,
    ensures
        find_byte(s, c) == find_byte(s.take(k), c),
    decreases s.len() - k,
{
    if k < s.len() {
        assert(s.take(k + 1).drop_last() =~= s.take(k));
        lemma_find_prefix(s, c, k + 1);
    } else {
        assert(s.take(k) =~= s);
    }
}

/// Index of the first occurrence of `pat` in `s`, or the length of `s`.
pub fn find_pat(s: &[u8], pat: &[u8]) -> (r: usize)
    requires
        pat@.len() >= 1,
    ensures
        r <= s@.len(),
        r < s@.len() ==> first_at(s@, pat@, r as int),
        r == s@.len() ==> !contains(s@, pat@),
{
    let n: usize = s.len();
    let mut i: usize = 0;
    while i < n && pat.len() <= n - i
        invariant
            n == s@.len(),
            pat@.len() >= 1,
            i <= s@.len(),
            forall|j: int| 0 <= j < i ==> !occurs_at(s@, pat@, j),
        decreases s@.len() - i,
    {
        let mut k: usize = 0;
        let mut same = true;
        while k < pat.len()
            invariant
                n == s@.len(),
                i < n,
                i + pat@.len() <= n,
                k <= pat@.len(),
                same == (forall|m: int| 0 <= m < k ==> s@[i + m] == pat@[m]),
            decreases pat@.len() - k,
        {
            if s[i + k] != pat[k] {
                same = false;
            }
            k = k + 1;
        }
        if same {
            assert(s@.subrange(i as int, i + pat@.len()) =~= pat@);
            return i;
        }
        assert(!occurs_at(s@, pat@, i as int)) by {
            if occurs_at(s@, pat@, i as int) {
                let m = choose|m: int| 0 <= m < pat@.len() && s@[i + m] != pat@[m];
                assert(s@.subrange(i as int, i + pat@.len())[m] == s@[i + m]);
            }
        }
        i = i + 1;
    }
    assert forall|j: int| 0 <= j implies !occurs_at(s@, pat@, j) by {
        if j >= i {
            assert(j + pat@.len() > s@.len());
        }
    }
    s.len()
}

proof fn lemma_digits_grow(s: Seq<u8>, k: int)
    requires
        all_digits(s),
        0 <= k <= s.len(),
    ensures
        0 <= digits_value(s.take(k)) <= digits_value(s),
    decreases s.len(),
{
    if s.len() > 0 {
        let d = s.drop_last();
        assert(all_digits(d)) by {
            assert(forall|i: int| 0 <= i < d.len() ==> d[i] == s[i]);
        }
        lemma_digits_grow(d, d.len() as int);
        assert(d.take(d.len() as int) =~= d);
        assert(is_digit(s[s.len() - 1]));
        if k < s.len() {
            lemma_digits_grow(d, k);
            assert(d.take(k) =~= s.take(k));
        } else {
            assert(s.take(k) =~= s);
        }
    } else {
        assert(s.take(k) =~= s);
    }
}

/// Reads a slot number written in decimal.
pub fn parse_slot_bytes(s: &[u8]) -> (r: Option<usize>)
    ensures
        r == parse_slot(s@),
        r matches Some(v) ==> v < CLUSTER_SLOTS,
{
    if s.len() == 0 {
        return None;
    }
    let mut acc: usize = 0;
    let mut i: usize = 0;
    while i < s.len()
        invariant
            i <= s@.len(),
            all_digits(s@.take(i as int)),
            acc == digits_value(s@.take(i as int)),
            acc < CLUSTER_SLOTS,
        decreases s@.len() - i,
    {
        proof {
            assert(s@.take(i + 1).drop_last() =~= s@.take(i as int));
        }
        let b = s[i];
        if b < 48 || b > 57 {
            assert(!all_digits(s@));
            return None;
        }
        acc = acc * 10 + (b - 48) as usize;
        i = i + 1;
        assert(all_digits(s@.take(i as int))) by {
            assert(forall|j: int| 0 <= j < i - 1 ==> s@.take(i as int)[j] == s@.take(i - 1)[j]);
        }
        if acc >= CLUSTER_SLOTS {
            proof {
                if all_digits(s@) {
                    lemma_digits_grow(s@, i as int);
                }
            }
            return None;
        }
    }
    proof {
        assert(s@.take(s@.len() as int) =~= s@);
    }
    Some(acc)
}

fn out_bytes() -> (r: Vec<u8>)
    ensures
        r@ == out_pat(),
{
    let mut v: Vec<u8> = Vec::new();
    v.push(45);
    v.push(62);
    v.push(45);
    assert(v@ =~= out_pat());
    v
}

fn in_bytes() -> (r: Vec<u8>)
    ensures
        r@ == in_pat(),
{
    let mut v: Vec<u8> = Vec::new();
    v.push(45);
    v.push(60);
    v.push(45);
    assert(v@ =~= in_pat());
    v
}

fn master_bytes() -> (r: Vec<u8>)
    ensures
        r@ == master_pat(),
{
    let mut v: Vec<u8> = Vec::new();
    v.push(109);
    v.push(97);
    v.push(115);
    v.push(116);
    v.push(101);
    v.push(114);
    assert(v@ =~= master_pat());
    v
}

fn self_bytes() -> (r: Vec<u8>)
    ensures
        r@ == self_pat(),
{
    let mut v: Vec<u8> = Vec::new();
    v.push(115);
    v.push(101);
    v.push(108);
    v.push(102);
    assert(v@ =~= self_pat());
    v
}

/// Reads `[slot<pat>id]` once `pat` is known to occur inside the brackets.
fn parse_marker(t: &[u8], pat: &[u8], p: usize, into: &mut Vec<(usize, String)>) -> (ok: bool)
    requires
        is_marker(t@),
        pat@.len() == 3,
        first_at(marker_inner(t@), pat@, p as int),
    ensures
        ok == (marker_entry(t@, pat@) is Some),
        ok ==> pairs_view(final(into)@) == pairs_view(old(into)@).push(
            marker_entry(t@, pat@)->Some_0,
        ),
        !ok ==> final(into)@ == old(into)@,
{
    let inner = &t[1..t.len() - 1];
    assert(inner@ =~= marker_inner(t@));
    proof {
        let q = choose|q: int| first_at(marker_inner(t@), pat@, q);
        lemma_first_unique(marker_inner(t@), pat@, p as int, q);
    }
    assert(inner@.subrange(0, p as int) =~= inner@.take(p as int));
    match parse_slot_bytes(&inner[0..p]) {
        None => false,
        Some(v) => {
            let id = text(&inner[p + 3..inner.len()]);
            assert(inner@.subrange(p + 3, inner@.len() as int) =~= inner@.skip(p + 3));
            let ghost before = pairs_view(into@);
            into.push((v, id));
            assert(pairs_view(into@) =~= before.push(marker_entry(t@, pat@)->Some_0));
            true
        },
    }
}

/// Reads one slot token, adding what it says to the three lists.
pub fn parse_token(
    t: &[u8],
    slots: &mut Vec<usize>,
    out: &mut Vec<(usize, String)>,
    inn: &mut Vec<(usize, String)>,
) -> (ok: bool)
    ensures
        ok == token_ok(t@),
        ok ==> final(slots)@ == old(slots)@ + token_slots(t@),
        ok ==> pairs_view(final(out)@) == pairs_view(old(out)@) + token_out(t@),
        ok ==> pairs_view(final(inn)@) == pairs_view(old(inn)@) + token_in(t@),
{
    let n = t.len();
    if n >= 2 && t[0] == OPEN && t[n - 1] == CLOSE {
        let inner = &t[1..n - 1];
        assert(inner@ =~= marker_inner(t@));
        let op = out_bytes();
        let p = find_pat(inner, op.as_slice());
        if p < inner.len() {
            assert(occurs_at(marker_inner(t@), out_pat(), p as int));
            let ok = parse_marker(t, op.as_slice(), p, out);
            assert(slots@ =~= slots@ + token_slots(t@));
            assert(pairs_view(inn@) =~= pairs_view(inn@) + token_in(t@));
            if ok {
                assert(pairs_view(old(out)@).push(marker_entry(t@, out_pat())->Some_0)
                    =~= pairs_view(old(out)@) + token_out(t@));
            }
            return ok;
        }
        let ip = in_bytes();
        let q = find_pat(inner, ip.as_slice());
        if q < inner.len() {
            assert(occurs_at(marker_inner(t@), in_pat(), q as int));
            let ok = parse_marker(t, ip.as_slice(), q, inn);
            assert(slots@ =~= slots@ + token_slots(t@));
            assert(pairs_view(out@) =~= pairs_view(out@) + token_out(t@));
            if ok {
                assert(pairs_view(old(inn)@).push(marker_entry(t@, in_pat())->Some_0)
                    =~= pairs_view(old(inn)@) + token_in(t@));
            }
            return ok;
        }
        return false;
    }
    let parts = split_bytes(t, DASH);
    assert(!is_marker(t@));
    assert(pairs_view(out@) =~= pairs_view(out@) + token_out(t@));
    assert(pairs_view(inn@) =~= pairs_view(inn@) + token_in(t@));
    if parts.len() == 1 {
        assert(parts[0]@ == split_at_byte(t@, DASH)[0]);
        match parse_slot_bytes(parts[0].as_slice()) {
            None => false,
            Some(a) => {
                slots.push(a);
                assert(slots@ =~= old(slots)@ + token_slots(t@));
                true
            },
        }
    } else if parts.len() == 2 {
        assert(parts[0]@ == split_at_byte(t@, DASH)[0]);
        assert(parts[1]@ == split_at_byte(t@, DASH)[1]);
        let a = match parse_slot_bytes(parts[0].as_slice()) {
            None => return false,
            Some(a) => a,
        };
        let b = match parse_slot_bytes(parts[1].as_slice()) {
            None => return false,
            Some(b) => b,
        };
        if a > b {
            return false;
        }
        let mut v: usize = a;
        while v <= b
            invariant
                a <= v <= b + 1,
                b < CLUSTER_SLOTS,
                slots@ == old(slots)@ + Seq::new((v - a) as nat, |i: int| (a + i) as usize),
            decreases b + 1 - v,
        {
            slots.push(v);
            v = v + 1;
            assert(slots@ =~= old(slots)@ + Seq::new((v - a) as nat, |i: int| (a + i) as usize));
        }
        assert(Seq::new((v - a) as nat, |i: int| (a + i) as usize) =~= slot_range(a, b));
        true
    } else {
        false
    }
}

/// Reads one member line (see `line_ok` and `line_node`).
pub fn parse_line(line: &[u8]) -> (r: Result<Node, Error>)
    ensures
        r is Ok <==> line_ok(line@),
        r matches Ok(n) ==> line_node(line@, n),
        r matches Err(e) ==> e == Error::BadCluster,
{
    let f = split_bytes(line, SPACE);
    let ghost fields = line_fields(line@);
    if f.len() < 8 {
        return Err(Error::BadCluster);
    }
    assert(f[1]@ == fields[1]);
    let a = f[1].as_slice();
    let at = find_first(a, AT);
    proof {
        lemma_find_byte(a@, AT);
    }
    assert(a@.subrange(0, at as int) =~= addr_field(fields[1]));
    let addr = match Node::new(&a[0..at]) {
        Ok(n) => n,
        Err(_) => return Err(Error::BadCluster),
    };
    let mut slots: Vec<usize> = Vec::new();
    let mut mig: Vec<(usize, String)> = Vec::new();
    let mut imp: Vec<(usize, String)> = Vec::new();
    let mut i: usize = 8;
    while i < f.len()
        invariant
            vecs_view(f@) == fields,
            fields == line_fields(line@),
            8 <= i <= f@.len(),
            slots@ == tokens_slots(fields.skip(8).take(i - 8)),
            pairs_view(mig@) == tokens_out(fields.skip(8).take(i - 8)),
            pairs_view(imp@) == tokens_in(fields.skip(8).take(i - 8)),
            forall|j: int| 8 <= j < i ==> token_ok(#[trigger] fields[j]),
        decreases f@.len() - i,
    {
        assert(f[i as int]@ == fields[i as int]);
        let ghost ts = fields.skip(8).take(i + 1 - 8);
        assert(ts.drop_last() =~= fields.skip(8).take(i - 8));
        assert(ts.last() == fields[i as int]);
        if !parse_token(f[i].as_slice(), &mut slots, &mut mig, &mut imp) {
            assert(!token_ok(fields[i as int]));
            assert(!line_ok(line@));
            return Err(Error::BadCluster);
        }
        i = i + 1;
    }
    assert(fields.skip(8).take(i - 8) =~= fields.skip(8));
    assert(f[2]@ == fields[2]);
    assert(f[3]@ == fields[3]);
    assert(f[0]@ == fields[0]);
    let mb = master_bytes();
    let mp = find_pat(f[2].as_slice(), mb.as_slice());
    let is_master = mp < f[2].len();
    if is_master {
        assert(occurs_at(fields[2], master_pat(), mp as int));
    }
    let sb = self_bytes();
    let sp = find_pat(f[2].as_slice(), sb.as_slice());
    let myself = sp < f[2].len();
    if myself {
        assert(occurs_at(fields[2], self_pat(), sp as int));
    }
    let slaveof = if f[3].len() == 1 && f[3][0] == DASH {
        assert(fields[3] =~= seq![DASH]);
        None
    } else {
        Some(text(f[3].as_slice()))
    };
    Ok(
        Node {
            name: text(f[0].as_slice()),
            ip: addr.ip,
            port: addr.port,
            role: Some(
                if is_master {
                    Role::Master
                } else {
                    Role::Slave
                },
            ),
            myself,
            slaveof,
            slots,
            migrating: mig,
            importing: imp,
        },
    )
}

impl Node {
    /// Reads a member list, one member line per line of `reply`;
    /// `BadCluster` if any line is malformed.
    pub fn nodes(reply: &[u8]) -> (r: Result<Vec<Node>, Error>)
        ensures
            r is Ok <==> forall|i: int|
                0 <= i < reply_lines(reply@).len() ==> line_ok(#[trigger] reply_lines(reply@)[i]),
            r matches Ok(v) ==> v@.len() == reply_lines(reply@).len() && forall|i: int|
                0 <= i < v@.len() ==> line_node(#[trigger] reply_lines(reply@)[i], v@[i]),
            r matches Err(e) ==> e == Error::BadCluster,
    {
        let parts = split_bytes(reply, NEWLINE);
        let ghost lines = reply_lines(reply@);
        proof {
            lemma_split_len(reply@, NEWLINE);
        }
        let mut count = parts.len();
        if parts[count - 1].len() == 0 {
            count = count - 1;
        }
        assert(lines.len() == count);
        let mut nodes: Vec<Node> = Vec::new();
        let mut i: usize = 0;
        while i < count
            invariant
                vecs_view(parts@) == split_at_byte(reply@, NEWLINE),
                lines == reply_lines(reply@),
                count == lines.len(),
                count <= parts@.len(),
                i <= count,
                nodes@.len() == i,
                forall|j: int| 0 <= j < i ==> line_ok(#[trigger] lines[j]),
                forall|j: int| 0 <= j < i ==> line_node(#[trigger] lines[j], nodes@[j]),
            decreases count - i,
        {
            let l = parts[i].as_slice();
            assert(l@ == split_at_byte(reply@, NEWLINE)[i as int]);
            let n = l.len();
            let cut = if n > 0 && l[n - 1] == CR {
                n - 1
            } else {
                n
            };
            let part = &l[0..cut];
            assert(part@ =~= lines[i as int]);
            match parse_line(part) {
                Ok(node) => nodes.push(node),
                Err(e) => return Err(e),
            }
            i = i + 1;
        }
        Ok(nodes)
    }
}

pub const COLON_BYTE: u8 = 58;

/// The `key:value` entries among the first `k` lines of a status reply:
/// lines that hold exactly one colon.
pub open spec fn info_entries(reply: Seq<u8>, k: nat) -> Seq<(Seq<char>, Seq<char>)>
    decreases k,
{
    if k == 0 {
        Seq::empty()
    } else {
        let line = strip_cr(split_at_byte(reply, NEWLINE)[k - 1]);
        let f = split_at_byte(line, COLON_BYTE);
        if f.len() == 2 {
            info_entries(reply, (k - 1) as nat).push((text_of(f[0]), text_of(f[1])))
        } else {
            info_entries(reply, (k - 1) as nat)
        }
    }
}

pub open spec fn text_pairs(v: Seq<(String, String)>) -> Seq<(Seq<char>, Seq<char>)> {
    Seq::new(v.len(), |i: int| (v[i].0@, v[i].1@))
}

impl Node {
    /// Reads a status reply into its `key:value` entries, in order.
    pub fn info(reply: &[u8]) -> (r: Vec<(String, String)>)
        ensures
            text_pairs(r@) == info_entries(reply@, split_at_byte(reply@, NEWLINE).len()),
    {
        let parts = split_bytes(reply, NEWLINE);
        let mut r: Vec<(String, String)> = Vec::new();
        let mut k: usize = 0;
        while k < parts.len()
            invariant
                vecs_view(parts@) == split_at_byte(reply@, NEWLINE),
                k <= parts@.len(),
                text_pairs(r@) == info_entries(reply@, k as nat),
            decreases parts@.len() - k,
        {
            let l = parts[k].as_slice();
            assert(l@ == split_at_byte(reply@, NEWLINE)[k as int]);
            let n = l.len();
            let cut = if n > 0 && l[n - 1] == CR {
                n - 1
            } else {
                n
            };
            let line = &l[0..cut];
            assert(line@ =~= strip_cr(l@));
            let f = split_bytes(line, COLON_BYTE);
            let ghost before = text_pairs(r@);
            if f.len() == 2 {
                assert(f[0]@ == split_at_byte(line@, COLON_BYTE)[0]);
                assert(f[1]@ == split_at_byte(line@, COLON_BYTE)[1]);
                let key = text(f[0].as_slice());
                let value = text(f[1].as_slice());
                r.push((key, value));
                assert(text_pairs(r@) =~= before.push((key@, value@)));
            }
            k = k + 1;
        }
        r
    }
}

} // verus!
