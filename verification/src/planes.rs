//! Bit-sliced counters: one count per lane of a machine word.
//!
//! A word holds one bit for each of 64 lanes. Six words, read as the binary
//! digits of a number from the least significant up, hold one count per lane.
//! Adding a word into such a counter, or comparing the counter with a
//! constant, then advances all 64 lanes at once.
use vstd::prelude::*;

verus! {

/// Lanes in one machine word.
pub const LANES: usize = 64;

/// Words in one counter.
pub const PLANES: usize = 6;

/// Largest count that [`PLANES`] words can hold.
pub const MAX_DEGREE: usize = 63;

/// Inputs of the carry-save tree of [`popcount21`].
pub const CSA_INPUTS: usize = 21;

/// Bit `lane` of `w`, as 0 or 1.
pub open spec fn bit(w: u64, lane: u64) -> int {
    if (w >> lane) & 1 == 1 {
        1
    } else {
        0
    }
}

/// How many of the words `ws` have bit `lane` set.
pub open spec fn ones_at(ws: Seq<u64>, lane: u64) -> int
    decreases ws.len(),
{
    if ws.len() == 0 {
        0
    } else {
        ones_at(ws.drop_last(), lane) + bit(ws.last(), lane)
    }
}

/// `2^k`.
pub open spec fn weight(k: nat) -> int
    decreases k,
{
    if k == 0 {
        1
    } else {
        2 * weight((k - 1) as nat)
    }
}

/// A binary digit at position `k`.
pub open spec fn scaled(digit: int, k: nat) -> int {
    if digit == 1 {
        weight(k)
    } else {
        0
    }
}

/// The number that the first `k` planes hold for `lane`.
pub open spec fn low_count(planes: Seq<u64>, lane: u64, k: nat) -> int
    decreases k,
{
    if k == 0 {
        0
    } else {
        low_count(planes, lane, (k - 1) as nat) + scaled(
            bit(planes[k - 1], lane),
            (k - 1) as nat,
        )
    }
}

/// The count that a counter of [`PLANES`] words holds for `lane`.
pub open spec fn count_at(planes: Seq<u64>, lane: u64) -> int {
    low_count(planes, lane, 6)
}

/// The low `k` binary digits of `x`.
pub open spec fn low_digits(x: u64, k: nat) -> int
    decreases k,
{
    if k == 0 {
        0
    } else {
        low_digits(x, (k - 1) as nat) + scaled(bit(x, (k - 1) as u64), (k - 1) as nat)
    }
}

/// Each bitwise operator acts on every lane by itself.
pub proof fn lemma_lanes(a: u64, b: u64, lane: u64)
    requires
        lane < 64,
    ensures
        bit(a & b, lane) == (if bit(a, lane) == 1 && bit(b, lane) == 1 { 1int } else { 0 }),
        bit(a | b, lane) == (if bit(a, lane) == 1 || bit(b, lane) == 1 { 1int } else { 0 }),
        bit(a ^ b, lane) == (if bit(a, lane) != bit(b, lane) { 1int } else { 0 }),
        bit(!a, lane) == 1 - bit(a, lane),
{
    assert(((a & b) >> lane) & 1 == ((a >> lane) & 1) & ((b >> lane) & 1)) by (bit_vector);
    assert(((a | b) >> lane) & 1 == ((a >> lane) & 1) | ((b >> lane) & 1)) by (bit_vector);
    assert(((a ^ b) >> lane) & 1 == ((a >> lane) & 1) ^ ((b >> lane) & 1)) by (bit_vector);
    assert(((!a) >> lane) & 1 == 1 - ((a >> lane) & 1)) by (bit_vector)
        requires
            lane < 64,
    ;
    let x = (a >> lane) & 1;
    let y = (b >> lane) & 1;
    assert((a >> lane) & 1 == 0 || (a >> lane) & 1 == 1) by (bit_vector);
    assert((b >> lane) & 1 == 0 || (b >> lane) & 1 == 1) by (bit_vector);
    assert(0u64 & 0 == 0 && 0u64 & 1 == 0 && 1u64 & 0 == 0 && 1u64 & 1 == 1 && 0u64 | 0 == 0 && 0u64
        | 1 == 1 && 1u64 | 0 == 1 && 1u64 | 1 == 1 && 0u64 ^ 0 == 0 && 0u64 ^ 1 == 1 && 1u64 ^ 0 == 1
        && 1u64 ^ 1 == 0) by (bit_vector);
}

/// The all-zero word has no lane set and the all-one word has every lane set.
pub proof fn lemma_constant_lanes(lane: u64)
    requires
        lane < 64,
    ensures
        bit(0, lane) == 0,
        bit(u64::MAX, lane) == 1,
{
    assert((0u64 >> lane) & 1 == 0) by (bit_vector);
    assert((0xffff_ffff_ffff_ffffu64 >> lane) & 1 == 1) by (bit_vector)
        requires
            lane < 64,
    ;
}

/// `carry` and `sum` are the two binary digits of `a + b + c` in every lane.
pub open spec fn adds_up(a: u64, b: u64, c: u64, carry: u64, sum: u64) -> bool {
    forall|lane: u64|
        #![trigger bit(carry, lane)]
        #![trigger bit(sum, lane)]
        lane < 64 ==> 2 * bit(carry, lane) + bit(sum, lane) == bit(a, lane) + bit(b, lane) + bit(
            c,
            lane,
        )
}

/// Carry-save adder: `(carry, sum)` of `a + b + c` per lane.
pub fn csa(a: u64, b: u64, c: u64) -> (r: (u64, u64))
    ensures
        adds_up(a, b, c, r.0, r.1),
{
    let u: u64 = a ^ b;
    let carry: u64 = (a & b) | (u & c);
    let sum: u64 = u ^ c;
    proof {
        assert forall|lane: u64|
            #![trigger bit(carry, lane)]
            #![trigger bit(sum, lane)]
            lane < 64 implies 2 * bit(carry, lane) + bit(sum, lane) == bit(a, lane) + bit(b, lane)
            + bit(c, lane) by {
            lemma_lanes(a, b, lane);
            lemma_lanes(u, c, lane);
            lemma_lanes(a & b, u & c, lane);
        }
    }
    (carry, sum)
}

/// Half adder: `(carry, sum)` of `a + b` per lane.
fn half_adder(a: u64, b: u64) -> (r: (u64, u64))
    ensures
        adds_up(a, b, 0, r.0, r.1),
{
    proof {
        assert forall|lane: u64|
            #![trigger bit(a & b, lane)]
            #![trigger bit(a ^ b, lane)]
            lane < 64 implies 2 * bit(a & b, lane) + bit(a ^ b, lane) == bit(a, lane) + bit(
            b,
            lane,
        ) + bit(0, lane) by {
            lemma_lanes(a, b, lane);
            lemma_constant_lanes(lane);
        }
    }
    (a & b, a ^ b)
}

/// A counter's explicit value.
pub proof fn lemma_count_expand(p: Seq<u64>, lane: u64)
    ensures
        count_at(p, lane) == bit(p[0], lane) + 2 * bit(p[1], lane) + 4 * bit(p[2], lane) + 8 * bit(
            p[3],
            lane,
        ) + 16 * bit(p[4], lane) + 32 * bit(p[5], lane),
{
    reveal_with_fuel(low_count, 7);
    reveal_with_fuel(weight, 7);
}

/// Per-lane popcount of 21 one-bit inputs into six planes.
///
/// A Harley-Seal carry-save tree: pairs of inputs fold into the ones plane,
/// their carries into the twos plane, and so on up.
#[verifier::rlimit(60)]
pub fn popcount21(x: &[u64; 21]) -> (planes: [u64; 6])
    ensures
        forall|lane: u64| lane < 64 ==> #[trigger] count_at(planes@, lane) == ones_at(x@, lane),
{
    let (ta0, ones0) = csa(0, x[0], x[1]);
    let (tb0, ones1) = csa(ones0, x[2], x[3]);
    let (fa0, twos0) = csa(0, ta0, tb0);
    let (ta1, ones2) = csa(ones1, x[4], x[5]);
    let (tb1, ones3) = csa(ones2, x[6], x[7]);
    let (fb0, twos1) = csa(twos0, ta1, tb1);
    let (ea0, fours0) = csa(0, fa0, fb0);
    let (ta2, ones4) = csa(ones3, x[8], x[9]);
    let (tb2, ones5) = csa(ones4, x[10], x[11]);
    let (fa1, twos2) = csa(twos1, ta2, tb2);
    let (ta3, ones6) = csa(ones5, x[12], x[13]);
    let (tb3, ones7) = csa(ones6, x[14], x[15]);
    let (fb1, twos3) = csa(twos2, ta3, tb3);
    let (eb0, fours1) = csa(fours0, fa1, fb1);
    let (sa, eights0) = csa(0, ea0, eb0);
    let (ta4, ones8) = csa(ones7, x[16], x[17]);
    let (tb4, ones9) = csa(ones8, x[18], x[19]);
    let (fa2, twos4) = csa(twos3, ta4, tb4);
    let (ta5, ones10) = half_adder(ones9, x[20]);
    let (fb2, twos5) = half_adder(twos4, ta5);
    let (ea1, fours2) = csa(fours1, fa2, fb2);
    let (sb, eights1) = half_adder(eights0, ea1);
    let planes: [u64; 6] = [ones10, twos5, fours2, eights1, sa | sb, 0];
    proof {
        assert forall|lane: u64| lane < 64 implies #[trigger] count_at(planes@, lane) == ones_at(
            x@,
            lane,
        ) by {
            lemma_constant_lanes(lane);
            lemma_lanes(sa, sb, lane);
            lemma_count_expand(planes@, lane);
            lemma_ones_of_21(x@, lane);
            assert(2 * bit(ta0, lane) + bit(ones0, lane) == bit(x[0], lane) + bit(x[1], lane));
            assert(2 * bit(tb0, lane) + bit(ones1, lane) == bit(ones0, lane) + bit(x[2], lane)
                + bit(x[3], lane));
            assert(2 * bit(fa0, lane) + bit(twos0, lane) == bit(ta0, lane) + bit(tb0, lane));
            assert(2 * bit(sa, lane) + bit(eights0, lane) == bit(ea0, lane) + bit(eb0, lane));
            assert(2 * bit(sb, lane) + bit(eights1, lane) == bit(eights0, lane) + bit(ea1, lane));
            assert(2 * bit(ea1, lane) + bit(fours2, lane) == bit(fours1, lane) + bit(fa2, lane)
                + bit(fb2, lane));
            assert(planes@[4] == sa | sb);
        }
    }
    planes
}

/// The 21-term sum behind [`ones_at`].
proof fn lemma_ones_of_21(x: Seq<u64>, lane: u64)
    requires
        x.len() == 21,
    ensures
        ones_at(x, lane) == bit(x[0], lane) + bit(x[1], lane) + bit(x[2], lane) + bit(x[3], lane)
            + bit(x[4], lane) + bit(x[5], lane) + bit(x[6], lane) + bit(x[7], lane) + bit(
            x[8],
            lane,
        ) + bit(x[9], lane) + bit(x[10], lane) + bit(x[11], lane) + bit(x[12], lane) + bit(
            x[13],
            lane,
        ) + bit(x[14], lane) + bit(x[15], lane) + bit(x[16], lane) + bit(x[17], lane) + bit(
            x[18],
            lane,
        ) + bit(x[19], lane) + bit(x[20], lane),
{
    reveal_with_fuel(ones_at, 22);
}

/// Planes that a count of at most `filled` can reach: the number of binary
/// digits of `filled`.
fn digits_of(filled: usize) -> (height: usize)
    ensures
        filled < 64 ==> height <= 6 && filled < weight(height as nat),
        filled >= 64 ==> height > 6,
{
    reveal_with_fuel(weight, 8);
    if filled == 0 {
        0
    } else if filled < 2 {
        1
    } else if filled < 4 {
        2
    } else if filled < 8 {
        3
    } else if filled < 16 {
        4
    } else if filled < 32 {
        5
    } else if filled < 64 {
        6
    } else {
        7
    }
}

/// A partial count stays below the weight of the next plane.
pub proof fn lemma_low_count_bound(planes: Seq<u64>, lane: u64, k: nat)
    ensures
        0 <= low_count(planes, lane, k) < weight(k),
    decreases k,
{
    if k > 0 {
        lemma_low_count_bound(planes, lane, (k - 1) as nat);
    }
}

/// A partial count reads only the planes below it.
proof fn lemma_low_count_frame(p: Seq<u64>, q: Seq<u64>, lane: u64, k: nat)
    requires
        forall|i: int| 0 <= i < k ==> p[i] == q[i],
    ensures
        low_count(p, lane, k) == low_count(q, lane, k),
    decreases k,
{
    if k > 0 {
        lemma_low_count_frame(p, q, lane, (k - 1) as nat);
    }
}

/// Planes above `k` that are empty in a lane add nothing to its count.
proof fn lemma_low_count_stays(p: Seq<u64>, lane: u64, k: nat)
    requires
        k <= 6,
        low_count(p, lane, 6) < weight(k),
    ensures
        low_count(p, lane, 6) == low_count(p, lane, k),
{
    reveal_with_fuel(low_count, 7);
    reveal_with_fuel(weight, 7);
    lemma_low_count_bound(p, lane, k);
}

/// Add one word into the running counter with ripple carries.
///
/// `filled` is how many words the counter has absorbed so far, which bounds
/// how far a carry can travel. A lane that already holds 63 wraps to 0.
#[verifier::rlimit(40)]
pub fn add_plane(planes: &mut [u64; 6], filled: &mut usize, l: u64)
    requires
        *old(filled) < usize::MAX,
        forall|lane: u64| lane < 64 ==> #[trigger] count_at(old(planes)@, lane) <= *old(filled),
    ensures
        *final(filled) == *old(filled) + 1,
        forall|lane: u64|
            lane < 64 ==> #[trigger] count_at(final(planes)@, lane) == (count_at(
                old(planes)@,
                lane,
            ) + bit(l, lane)) % 64,
{
    *filled = *filled + 1;
    let digits: usize = digits_of(*filled);
    let height: usize = if digits < 6 {
        digits
    } else {
        6
    };
    let ghost before = planes@;
    let mut carry: u64 = l;
    let mut k: usize = 0;
    while k < height
        invariant
            k <= height <= 6,
            before == old(planes)@,
            planes@.len() == 6,
            forall|i: int| k <= i < 6 ==> planes@[i] == before[i],
            forall|lane: u64|
                #![trigger bit(carry, lane)]
                lane < 64 ==> low_count(planes@, lane, k as nat) + scaled(
                    bit(carry, lane),
                    k as nat,
                ) == low_count(before, lane, k as nat) + bit(l, lane),
        decreases height - k,
    {
        let p: u64 = planes[k];
        let next: u64 = p & carry;
        let ghost prev = planes@;
        let ghost old_carry = carry;
        planes[k] = p ^ carry;
        carry = next;
        proof {
            assert forall|lane: u64| #![trigger bit(carry, lane)] lane < 64 implies low_count(
                planes@,
                lane,
                (k + 1) as nat,
            ) + scaled(bit(carry, lane), (k + 1) as nat) == low_count(before, lane, (k + 1) as nat)
                + bit(l, lane) by {
                lemma_lanes(p, old_carry, lane);
                lemma_low_count_frame(prev, planes@, lane, k as nat);
                assert(bit(old_carry, lane) == 0 || bit(old_carry, lane) == 1);
            }
        }
        k = k + 1;
    }
    proof {
        assert forall|lane: u64| lane < 64 implies #[trigger] count_at(planes@, lane) == (count_at(
            before,
            lane,
        ) + bit(l, lane)) % 64 by {
            assert(bit(carry, lane) == 0 || bit(carry, lane) == 1);
            reveal_with_fuel(weight, 7);
            lemma_low_count_bound(before, lane, 6);
            lemma_low_count_bound(planes@, lane, 6);
            lemma_low_count_bound(planes@, lane, height as nat);
            assert(weight(6) == 64);
            if height < 6 {
                assert(count_at(before, lane) <= *old(filled));
                assert(*filled < weight(height as nat));
                lemma_low_count_stays(before, lane, height as nat);
                assert(bit(carry, lane) == 0);
                lemma_high_planes(before, planes@, lane, height as nat);
            }
        }
    }
}

/// Two counters that agree from plane `k` on differ by their partial counts.
proof fn lemma_high_planes(p: Seq<u64>, q: Seq<u64>, lane: u64, k: nat)
    requires
        k <= 6,
        forall|i: int| k <= i < 6 ==> p[i] == q[i],
    ensures
        low_count(p, lane, 6) - low_count(p, lane, k) == low_count(q, lane, 6) - low_count(
            q,
            lane,
            k,
        ),
{
    reveal_with_fuel(low_count, 7);
}

/// Mask of lanes whose count is at most `limit`.
///
/// A `limit` at or above [`MAX_DEGREE`] admits every count that the planes can
/// hold. The mask is built as `count >= limit + 1` from the least significant
/// plane up and inverted at the end.
#[verifier::rlimit(40)]
pub fn le_constant(planes: &[u64; 6], limit: usize) -> (mask: u64)
    ensures
        forall|lane: u64|
            lane < 64 ==> (#[trigger] bit(mask, lane) == 1 <==> count_at(planes@, lane) <= limit),
{
    if limit >= MAX_DEGREE {
        proof {
            reveal_with_fuel(weight, 7);
            assert forall|lane: u64| lane < 64 implies (#[trigger] bit(u64::MAX, lane) == 1
                <==> count_at(planes@, lane) <= limit) by {
                lemma_constant_lanes(lane);
                lemma_low_count_bound(planes@, lane, 6);
            }
        }
        return u64::MAX;
    }
    let b: u64 = (limit + 1) as u64;
    let mut ge: u64 = u64::MAX;
    let mut k: usize = 0;
    proof {
        assert forall|lane: u64| lane < 64 implies #[trigger] bit(ge, lane) == 1 by {
            lemma_constant_lanes(lane);
        }
    }
    while k < 6
        invariant
            k <= 6,
            planes@.len() == 6,
            forall|lane: u64|
                lane < 64 ==> (#[trigger] bit(ge, lane) == 1 <==> low_count(planes@, lane, k as nat)
                    >= low_digits(b, k as nat)),
        decreases 6 - k,
    {
        let p: u64 = planes[k];
        let digit: u64 = (b >> (k as u64)) & 1;
        let set: u64 = 0u64.wrapping_sub(digit);
        let both: u64 = p & ge;
        let either: u64 = p ^ ge;
        let next: u64 = both | (either & !set);
        proof {
            assert((b >> (k as u64)) & 1 == 0 || (b >> (k as u64)) & 1 == 1) by (bit_vector);
            lemma_digits_bound(b, k as nat);
            assert forall|lane: u64| lane < 64 implies (#[trigger] bit(next, lane) == 1
                <==> low_count(planes@, lane, (k + 1) as nat) >= low_digits(b, (k + 1) as nat)) by {
                lemma_lanes(p, ge, lane);
                lemma_lanes(either, !set, lane);
                lemma_lanes(set, set, lane);
                lemma_lanes(both, either & !set, lane);
                lemma_constant_lanes(lane);
                lemma_low_count_bound(planes@, lane, k as nat);
                assert(bit(ge, lane) == 1 <==> low_count(planes@, lane, k as nat) >= low_digits(
                    b,
                    k as nat,
                ));
                assert(digit == 0 ==> set == 0);
                assert(digit == 1 ==> set == u64::MAX);
            }
        }
        ge = next;
        k = k + 1;
    }
    proof {
        lemma_digits_whole(b);
        assert forall|lane: u64| lane < 64 implies (#[trigger] bit(!ge, lane) == 1 <==> count_at(
            planes@,
            lane,
        ) <= limit) by {
            lemma_lanes(ge, ge, lane);
        }
    }
    !ge
}

/// The low digits of a number stay below the next digit's weight.
proof fn lemma_digits_bound(x: u64, k: nat)
    ensures
        0 <= low_digits(x, k) < weight(k),
    decreases k,
{
    if k > 0 {
        lemma_digits_bound(x, (k - 1) as nat);
    }
}

/// Six digits hold any number below 64.
proof fn lemma_digits_whole(x: u64)
    requires
        x < 64,
    ensures
        low_digits(x, 6) == x,
{
    reveal_with_fuel(low_digits, 7);
    reveal_with_fuel(weight, 7);
    assert(x == ((x >> 0) & 1) + 2 * ((x >> 1) & 1) + 4 * ((x >> 2) & 1) + 8 * ((x >> 3) & 1) + 16 * ((x
        >> 4) & 1) + 32 * ((x >> 5) & 1)) by (bit_vector)
        requires
            x < 64,
    ;
    assert((x >> 0) & 1 <= 1 && (x >> 1) & 1 <= 1 && (x >> 2) & 1 <= 1 && (x >> 3) & 1 <= 1 && (x
        >> 4) & 1 <= 1 && (x >> 5) & 1 <= 1) by (bit_vector);
}

} // verus!
