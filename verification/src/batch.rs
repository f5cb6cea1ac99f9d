//! Splitting an inclusive port range into fixed-size batches.

use vstd::arithmetic::div_mod::{
    lemma_fundamental_div_mod, lemma_fundamental_div_mod_converse, lemma_mod_bound,
};
use vstd::prelude::*;

verus! {

/// Number of ports in the inclusive range `port_start..=port_end`.
pub open spec fn port_count(port_start: u16, port_end: u16) -> nat {
    if port_start <= port_end {
        (port_end - port_start + 1) as nat
    } else {
        0
    }
}

/// The ports `port_start, port_start + 1, .., port_end` in ascending order.
pub open spec fn port_range(port_start: u16, port_end: u16) -> Seq<u16> {
    Seq::new(port_count(port_start, port_end), |i: int| (port_start + i) as u16)
}

/// How many batches of at most `batch_size` ports are needed for `ports` ports:
/// the quotient `ports / batch_size`, rounded up.
pub open spec fn batch_count(ports: nat, batch_size: nat) -> nat {
    if batch_size == 0 {
        0
    } else {
        ((ports + batch_size - 1) / (batch_size as int)) as nat
    }
}

/// The `k`-th batch of `range`: the ports at positions `k * batch_size` up to
/// (not including) `(k + 1) * batch_size`, cut off at the end of the range.
pub open spec fn batch_at(range: Seq<u16>, batch_size: nat, k: int) -> Seq<u16> {
    let from = k * batch_size;
    let to = if from + batch_size <= range.len() {
        from + batch_size
    } else {
        range.len() as int
    };
    range.subrange(from, to)
}

/// All batches of `range`, first to last.
pub open spec fn batches_of(range: Seq<u16>, batch_size: nat) -> Seq<Seq<u16>> {
    Seq::new(batch_count(range.len(), batch_size), |k: int| batch_at(range, batch_size, k))
}

/// The contents of each batch of a list of batches.
pub open spec fn batch_views(batches: Seq<Vec<u16>>) -> Seq<Seq<u16>> {
    batches.map_values(|b: Vec<u16>| b@)
}

/// Every batch begins inside the range; no batch is empty and none holds
/// more than `batch_size` ports.
pub proof fn lemma_batch_len(port_start: u16, port_end: u16, batch_size: nat, k: int)
    requires
        port_start <= port_end,
        batch_size > 0,
        0 <= k < batch_count(port_count(port_start, port_end), batch_size),
    ensures
        0 <= k * batch_size < port_count(port_start, port_end),
        0 < batch_at(port_range(port_start, port_end), batch_size, k).len() <= batch_size,
{
    let total = port_count(port_start, port_end) as int;
    let d = batch_size as int;
    let x = total + d - 1;
    let q = x / d;
    lemma_fundamental_div_mod(x, d);
    lemma_mod_bound(x, d);
    assert(k * d <= (q - 1) * d) by (nonlinear_arith)
        requires
            k <= q - 1,
            d > 0,
    ;
    assert((q - 1) * d == d * q - d) by (nonlinear_arith);
    assert(0 <= k * d) by (nonlinear_arith)
        requires
            0 <= k,
            d > 0,
    ;
    assert(k * d < total);
}

/// Where a port stands: the port at position `j` of batch `k` is the port
/// `k * batch_size + j` places after the first port, it lies in the range, and
/// dividing its distance from the first port by the batch size gives `k` back.
pub proof fn lemma_batch_ports(port_start: u16, port_end: u16, batch_size: nat, k: int, j: int)
    requires
        port_start <= port_end,
        batch_size > 0,
        0 <= k < batch_count(port_count(port_start, port_end), batch_size),
        0 <= j < batch_at(port_range(port_start, port_end), batch_size, k).len(),
    ensures
        j < batch_size,
        batch_at(port_range(port_start, port_end), batch_size, k)[j] == port_start + k * batch_size
            + j,
        port_start + k * batch_size + j <= port_end,
        (k * batch_size + j) / (batch_size as int) == k,
{
    let d = batch_size as int;
    lemma_batch_len(port_start, port_end, batch_size, k);
    lemma_fundamental_div_mod_converse(k * d + j, d, k, j);
}

/// A range of one port is split into one batch that holds this port.
pub proof fn lemma_single_port(port: u16, batch_size: nat)
    requires
        batch_size > 0,
    ensures
        batches_of(port_range(port, port), batch_size) == seq![seq![port]],
{
    let d = batch_size as int;
    lemma_fundamental_div_mod_converse(d, d, 1, 0);
    assert(batch_count(1, batch_size) == 1);
    let range = port_range(port, port);
    assert(0 * d == 0) by (nonlinear_arith);
    assert(batch_at(range, batch_size, 0) =~= seq![port]);
    assert(batches_of(range, batch_size) =~= seq![seq![port]]);
}

/// Where a port is found: the port `port` of the range stands in the batch
/// whose number is its distance from the first port divided by the batch
/// size, at the position that is the remainder of that division.
pub proof fn lemma_port_in_batch(port_start: u16, port_end: u16, batch_size: nat, port: u16)
    requires
        port_start <= port <= port_end,
        batch_size > 0,
    ensures
        ({
            let k = (port - port_start) / (batch_size as int);
            let j = (port - port_start) % (batch_size as int);
            &&& 0 <= k < batch_count(port_count(port_start, port_end), batch_size)
            &&& 0 <= j < batch_at(port_range(port_start, port_end), batch_size, k).len()
            &&& batch_at(port_range(port_start, port_end), batch_size, k)[j] == port
        }),
{
    let total = port_count(port_start, port_end) as int;
    let d = batch_size as int;
    let dist = port - port_start;
    let k = dist / d;
    let j = dist % d;
    lemma_fundamental_div_mod(dist, d);
    lemma_mod_bound(dist, d);
    assert(0 <= k) by (nonlinear_arith)
        requires
            dist == d * k + j,
            0 <= j < d,
            0 <= dist,
    ;
    let x = total + d - 1;
    let q = x / d;
    let r = x % d;
    lemma_fundamental_div_mod(x, d);
    lemma_mod_bound(x, d);
    assert(k < q) by (nonlinear_arith)
        requires
            dist == d * k + j,
            0 <= j < d,
            x == d * q + r,
            0 <= r < d,
            dist + d <= x,
    ;
    assert(k * d == d * k) by (nonlinear_arith);
}

/// Number of ports in `port_start..=port_end`.
pub fn total_ports(port_start: u16, port_end: u16) -> (total: u32)
    requires
        port_start <= port_end,
    ensures
        total == port_count(port_start, port_end),
        1 <= total <= 65536,
{
    port_end as u32 - port_start as u32 + 1
}

/// Number of batches that `total` ports are split into.
pub fn total_batches(total: u32, batch_size: usize) -> (count: usize)
    requires
        batch_size > 0,
    ensures
        count == batch_count(total as nat, batch_size as nat),
{
    if total == 0 {
        proof {
            lemma_fundamental_div_mod_converse(batch_size - 1, batch_size as int, 0, batch_size - 1);
        }
        0
    } else {
        let last: usize = (total - 1) as usize;
        let full: usize = last / batch_size;
        proof {
            let rem = last as int % batch_size as int;
            assert(last as int == batch_size as int * full as int + rem && 0 <= rem < batch_size)
                by (nonlinear_arith)
                requires
                    batch_size > 0,
                    full as int == last as int / batch_size as int,
                    rem == last as int % batch_size as int,
            ;
            assert(total + batch_size - 1 == (full + 1) * batch_size + rem) by (nonlinear_arith)
                requires
                    last as int == batch_size as int * full as int + rem,
                    last as int == total - 1,
            ;
            lemma_fundamental_div_mod_converse(
                total + batch_size - 1,
                batch_size as int,
                full + 1,
                rem,
            );
        }
        full + 1
    }
}

/// Splits `port_start..=port_end` into consecutive batches of `batch_size`
/// ports; only the last batch may be shorter.
///
/// Read one after the other, the batches give every port of the range exactly
/// once, in ascending order, and no batch is empty.
pub fn partition(port_start: u16, port_end: u16, batch_size: usize) -> (batches: Vec<Vec<u16>>)
    requires
        port_start <= port_end,
        batch_size > 0,
    ensures
        batch_views(batches@) == batches_of(port_range(port_start, port_end), batch_size as nat),
        batch_views(batches@).flatten() == port_range(port_start, port_end),
        forall|k: int| 0 <= k < batches.len() ==> 0 < #[trigger] batches[k].len() <= batch_size,
{
    let total: u32 = total_ports(port_start, port_end);
    let ghost range = port_range(port_start, port_end);
    let mut batches: Vec<Vec<u16>> = Vec::new();
    let mut next: u32 = 0;
    proof {
        assert(batch_views(batches@) =~= Seq::<Seq<u16>>::empty());
        assert(range.take(0) =~= Seq::<u16>::empty());
        assert(0 * batch_size == 0) by (nonlinear_arith);
    }
    while next < total
        invariant
            port_start <= port_end,
            batch_size > 0,
            total == port_count(port_start, port_end),
            range == port_range(port_start, port_end),
            range.len() == total,
            next <= total <= 65536,
            next < total ==> next == batches.len() * batch_size,
            next == total ==> batches.len() == batch_count(total as nat, batch_size as nat),
            forall|k: int|
                0 <= k < batches.len() ==> #[trigger] batches[k]@ == batch_at(
                    range,
                    batch_size as nat,
                    k,
                ),
            forall|k: int| 0 <= k < batches.len() ==> 0 < #[trigger] batches[k].len() <= batch_size,
            batch_views(batches@).flatten() == range.take(next as int),
        decreases total - next,
    {
        let remaining: u32 = total - next;
        let len: u32 = if batch_size >= remaining as usize {
            remaining
        } else {
            batch_size as u32
        };
        let ghost k = batches.len() as int;
        let mut batch: Vec<u16> = Vec::new();
        let mut i: u32 = 0;
        while i < len
            invariant
                i <= len,
                next + len <= total <= 65536,
                port_start + total <= 65536,
                range == port_range(port_start, port_end),
                range.len() == total,
                batch@ == range.subrange(next as int, next + i),
            decreases len - i,
        {
            let port: u16 = (port_start as u32 + next + i) as u16;
            batch.push(port);
            i = i + 1;
            assert(batch@ =~= range.subrange(next as int, next + i));
        }
        proof {
            assert(batch@ == batch_at(range, batch_size as nat, k));
            assert(batch_views(batches@.push(batch)) =~= batch_views(batches@).push(batch@));
            batch_views(batches@).lemma_flatten_push(batch@);
            assert(range.take(next as int) + batch@ =~= range.take(next + len));
            if next + len == total {
                let rem = total - 1 - next;
                assert(total + batch_size - 1 == (k + 1) * batch_size + rem) by (nonlinear_arith)
                    requires
                        next == k * batch_size,
                        rem == total - 1 - next,
                ;
                lemma_fundamental_div_mod_converse(
                    total + batch_size - 1,
                    batch_size as int,
                    k + 1,
                    rem,
                );
            } else {
                assert(next + len == (k + 1) * batch_size) by (nonlinear_arith)
                    requires
                        next == k * batch_size,
                        len == batch_size,
                ;
            }
        }
        batches.push(batch);
        next = next + len;
    }
    proof {
        assert(range.take(total as int) =~= range);
        assert(batch_views(batches@) =~= batches_of(range, batch_size as nat));
    }
    batches
}

} // verus!
