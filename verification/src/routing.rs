//! Where each sample of an interleaved batch belongs: the sample at position
//! `i` of a stream of `total` interleaved channels is a sample of channel
//! `i mod total`.

use vstd::prelude::*;
use vstd::arithmetic::div_mod::{lemma_fundamental_div_mod, lemma_fundamental_div_mod_converse};

verus! {

/// How many of the first `len` positions of the stream belong to `channel`.
pub open spec fn routed_count(len: int, total: int, channel: int) -> int {
    if 0 <= channel < total && channel < len {
        (len - 1 - channel) / total + 1
    } else {
        0
    }
}

/// The samples of a batch that belong to `channel`, in the order in which
/// they arrive: the batch's samples at positions `channel`,
/// `channel + total`, `channel + 2 * total` and so on.
pub open spec fn routed(data: Seq<u32>, total: int, channel: int) -> Seq<u32> {
    Seq::new(
        routed_count(data.len() as int, total, channel) as nat,
        |k: int| data[channel + k * total],
    )
}

/// Every position that `routed_count` counts lies inside the stream.
pub proof fn lemma_routed_positions(len: int, total: int, channel: int, k: int)
    requires
        total > 0,
        0 <= k < routed_count(len, total, channel),
    ensures
        0 <= channel < total,
        0 <= channel + k * total < len,
        (channel + k * total) % total == channel,
        (channel + k * total) / total == k,
{
    let m = len - 1 - channel;
    lemma_fundamental_div_mod(m, total);
    assert(0 <= m % total < total);
    assert(k * total <= (m / total) * total) by (nonlinear_arith)
        requires
            k <= m / total,
            total > 0,
    ;
    assert(total * (m / total) == (m / total) * total) by (nonlinear_arith);
    assert(k * total >= 0) by (nonlinear_arith)
        requires
            k >= 0,
            total > 0,
    ;
    lemma_fundamental_div_mod_converse(channel + k * total, total, k, channel);
}

/// Counting one position more adds one to the count of the channel that the
/// position belongs to, and leaves every other count as it was.
pub proof fn lemma_routed_count_step(n: int, total: int, channel: int)
    requires
        total > 0,
        n >= 0,
    ensures
        routed_count(n, total, channel) >= 0,
        n % total == channel ==> routed_count(n + 1, total, channel) == routed_count(
            n,
            total,
            channel,
        ) + 1 && channel + routed_count(n, total, channel) * total == n,
        n % total != channel ==> routed_count(n + 1, total, channel) == routed_count(
            n,
            total,
            channel,
        ),
{
    lemma_fundamental_div_mod(n, total);
    assert(0 <= n % total < total);
    if 0 <= channel < total {
        if channel < n {
            let m = n - 1 - channel;
            lemma_fundamental_div_mod(m, total);
            let a = m / total;
            let r = m % total;
            assert(0 <= r < total);
            assert(total * a == a * total) by (nonlinear_arith);
            assert(a >= 0) by (nonlinear_arith)
                requires
                    m >= 0,
                    m == a * total + r,
                    0 <= r < total,
                    total > 0,
            ;
            if r + 1 < total {
                lemma_fundamental_div_mod_converse(n - channel, total, a, r + 1);
                if n % total == channel {
                    let q = n / total;
                    assert(total * q == q * total) by (nonlinear_arith);
                    lemma_fundamental_div_mod_converse(n - channel, total, q, 0);
                }
            } else {
                assert((a + 1) * total == a * total + total) by (nonlinear_arith);
                lemma_fundamental_div_mod_converse(n - channel, total, a + 1, 0);
                lemma_fundamental_div_mod_converse(n, total, a + 1, channel);
            }
        } else if channel == n {
            lemma_fundamental_div_mod_converse(n, total, 0, channel);
            lemma_fundamental_div_mod_converse(0, total, 0, 0);
        } else {
            if n % total == channel {
                let q = n / total;
                assert(total * q == q * total) by (nonlinear_arith);
                assert(q * total >= 0) by (nonlinear_arith)
                    requires
                        n >= 0,
                        n == q * total + channel,
                        0 <= channel < total,
                        total > 0,
                ;
            }
        }
    }
}

/// Taking one sample more into the batch appends it to the samples of the
/// channel that its position belongs to, and to no other channel's.
pub proof fn lemma_routed_step(data: Seq<u32>, total: int, channel: int, n: int)
    requires
        total > 0,
        0 <= n < data.len(),
    ensures
        routed(data.take(n + 1), total, channel) == if n % total == channel {
            routed(data.take(n), total, channel).push(data[n])
        } else {
            routed(data.take(n), total, channel)
        },
{
    lemma_routed_count_step(n, total, channel);
    let before = routed(data.take(n), total, channel);
    let after = routed(data.take(n + 1), total, channel);
    assert forall|k: int| 0 <= k < before.len() implies before[k] == after[k] by {
        lemma_routed_positions(n, total, channel, k);
    }
    if n % total == channel {
        assert(after =~= before.push(data[n]));
    } else {
        assert(after =~= before);
    }
}

/// The sample at position `i` of a batch is routed to channel `i mod total`,
/// where it is the sample number `i / total`.
pub proof fn lemma_sample_is_routed(data: Seq<u32>, total: int, i: int)
    requires
        total > 0,
        0 <= i < data.len(),
    ensures
        0 <= i / total < routed(data, total, i % total).len(),
        routed(data, total, i % total)[i / total] == data[i],
{
    let channel = i % total;
    let k = i / total;
    let len = data.len() as int;
    lemma_fundamental_div_mod(i, total);
    assert(total * k == k * total) by (nonlinear_arith);
    assert(0 <= channel < total);
    assert(k >= 0) by (nonlinear_arith)
        requires
            i >= 0,
            i == k * total + channel,
            0 <= channel < total,
            total > 0,
    ;
    let m = len - 1 - channel;
    lemma_fundamental_div_mod(m, total);
    assert(total * (m / total) == (m / total) * total) by (nonlinear_arith);
    assert(k <= m / total) by (nonlinear_arith)
        requires
            k * total <= m,
            m == (m / total) * total + m % total,
            0 <= m % total < total,
            total > 0,
    ;
}

/// Every sample routed to a channel comes from a position of the batch that
/// belongs to that channel, and a channel outside the stream gets none.
pub proof fn lemma_routed_from_batch(data: Seq<u32>, total: int, channel: int, k: int)
    requires
        total > 0,
        0 <= k < routed(data, total, channel).len(),
    ensures
        0 <= channel + k * total < data.len(),
        (channel + k * total) % total == channel,
        routed(data, total, channel)[k] == data[channel + k * total],
{
    lemma_routed_positions(data.len() as int, total, channel, k);
}

/// A sample reaches no channel but its own: replacing the sample at
/// position `i` changes nothing of what is routed to a channel other than
/// `i mod total`.
pub proof fn lemma_routed_ignores_other_channels(
    data: Seq<u32>,
    total: int,
    channel: int,
    i: int,
    other: u32,
)
    requires
        total > 0,
        0 <= i < data.len(),
        channel != i % total,
    ensures
        routed(data.update(i, other), total, channel) == routed(data, total, channel),
{
    let changed = data.update(i, other);
    assert forall|k: int| 0 <= k < routed(data, total, channel).len() implies routed(
        changed,
        total,
        channel,
    )[k] == routed(data, total, channel)[k] by {
        lemma_routed_positions(data.len() as int, total, channel, k);
    }
    assert(routed(changed, total, channel) =~= routed(data, total, channel));
}

} // verus!
