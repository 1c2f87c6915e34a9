//! Candidate sets of one cell, packed as a bit mask: bit `d - 1` stands for the digit `d`.
use vstd::prelude::*;

verus! {

/// The largest digit of a 9x9 board.
pub const MAX_DIGIT: u8 = 9;

/// The mask that holds every digit from 1 to 9.
pub const ALL_DIGITS: u16 = 511;

/// Digit `d` is a candidate of the mask `m`.
pub open spec fn holds(m: u16, d: int) -> bool {
    1 <= d <= 9 && (m >> ((d - 1) as u16)) & 1u16 == 1u16
}

/// The mask that holds the digit `d` alone.
pub open spec fn bit(d: int) -> u16 {
    1u16 << ((d - 1) as u16)
}

/// The mask `m` with the digit `d` taken out.
pub open spec fn without(m: u16, d: int) -> u16 {
    m & !bit(d)
}

/// No bit above the ninth is set.
pub open spec fn proper(m: u16) -> bool {
    m < 512
}

/// Every candidate of `a` is a candidate of `b`.
pub open spec fn subset(a: u16, b: u16) -> bool {
    forall|d: int| #[trigger] holds(a, d) ==> holds(b, d)
}

/// How many of the digits `1..=k` are candidates of `m`.
pub open spec fn cnt_upto(m: u16, k: int) -> nat
    decreases k,
{
    if k <= 0 {
        0
    } else {
        cnt_upto(m, k - 1) + if holds(m, k) {
            1nat
        } else {
            0nat
        }
    }
}

/// The number of candidates of `m`.
pub open spec fn cnt(m: u16) -> nat {
    cnt_upto(m, 9)
}

/// The smallest candidate of `m` that is at least `d`, or 10 where there is none.
pub open spec fn least_from(m: u16, d: int) -> int
    decreases 10 - d,
{
    if d >= 10 {
        10
    } else if holds(m, d) {
        d
    } else {
        least_from(m, d + 1)
    }
}

/// The smallest candidate of `m` (10 for an empty mask).
pub open spec fn least(m: u16) -> int {
    least_from(m, 1)
}

proof fn lemma_bits_and_not(a: u16, b: u16, k: u16)
    requires
        k < 9,
    ensures
        ((a & !b) >> k) & 1u16 == 1u16 <==> ((a >> k) & 1u16 == 1u16 && !((b >> k) & 1u16
            == 1u16)),
{
    assert(((a & !b) >> k) & 1u16 == 1u16 <==> ((a >> k) & 1u16 == 1u16 && !((b >> k) & 1u16
        == 1u16))) by (bit_vector)
        requires
            k < 9,
    ;
}

proof fn lemma_bits_or(a: u16, b: u16, k: u16)
    requires
        k < 9,
    ensures
        ((a | b) >> k) & 1u16 == 1u16 <==> ((a >> k) & 1u16 == 1u16 || (b >> k) & 1u16 == 1u16),
{
    assert(((a | b) >> k) & 1u16 == 1u16 <==> ((a >> k) & 1u16 == 1u16 || (b >> k) & 1u16
        == 1u16)) by (bit_vector)
        requires
            k < 9,
    ;
}

proof fn lemma_bits_single(v: u16, k: u16)
    requires
        v < 9,
        k < 9,
    ensures
        ((1u16 << v) >> k) & 1u16 == 1u16 <==> k == v,
        (1u16 << v) < 512,
{
    assert(((1u16 << v) >> k) & 1u16 == 1u16 <==> k == v) by (bit_vector)
        requires
            v < 9,
            k < 9,
    ;
    assert((1u16 << v) < 512) by (bit_vector)
        requires
            v < 9,
    ;
}

proof fn lemma_bits_full(k: u16)
    requires
        k < 9,
    ensures
        (511u16 >> k) & 1u16 == 1u16,
{
    assert((511u16 >> k) & 1u16 == 1u16) by (bit_vector)
        requires
            k < 9,
    ;
}

proof fn lemma_bits_and_le(a: u16, b: u16)
    ensures
        a & b <= a,
{
    assert(a & b <= a) by (bit_vector);
}

proof fn lemma_bits_or_proper(a: u16, b: u16)
    requires
        a < 512,
        b < 512,
    ensures
        a | b < 512,
{
    assert(a | b < 512) by (bit_vector)
        requires
            a < 512,
            b < 512,
    ;
}

proof fn lemma_bits_ext(a: u16, b: u16)
    requires
        a < 512,
        b < 512,
        (a >> 0u16) & 1u16 == (b >> 0u16) & 1u16,
        (a >> 1u16) & 1u16 == (b >> 1u16) & 1u16,
        (a >> 2u16) & 1u16 == (b >> 2u16) & 1u16,
        (a >> 3u16) & 1u16 == (b >> 3u16) & 1u16,
        (a >> 4u16) & 1u16 == (b >> 4u16) & 1u16,
        (a >> 5u16) & 1u16 == (b >> 5u16) & 1u16,
        (a >> 6u16) & 1u16 == (b >> 6u16) & 1u16,
        (a >> 7u16) & 1u16 == (b >> 7u16) & 1u16,
        (a >> 8u16) & 1u16 == (b >> 8u16) & 1u16,
    ensures
        a == b,
{
    assert(a == b) by (bit_vector)
        requires
            a < 512,
            b < 512,
            (a >> 0u16) & 1u16 == (b >> 0u16) & 1u16,
            (a >> 1u16) & 1u16 == (b >> 1u16) & 1u16,
            (a >> 2u16) & 1u16 == (b >> 2u16) & 1u16,
            (a >> 3u16) & 1u16 == (b >> 3u16) & 1u16,
            (a >> 4u16) & 1u16 == (b >> 4u16) & 1u16,
            (a >> 5u16) & 1u16 == (b >> 5u16) & 1u16,
            (a >> 6u16) & 1u16 == (b >> 6u16) & 1u16,
            (a >> 7u16) & 1u16 == (b >> 7u16) & 1u16,
            (a >> 8u16) & 1u16 == (b >> 8u16) & 1u16,
    ;
}

proof fn lemma_bit_value(m: u16, k: u16)
    ensures
        (m >> k) & 1u16 == 1u16 || (m >> k) & 1u16 == 0u16,
{
    assert((m >> k) & 1u16 == 1u16 || (m >> k) & 1u16 == 0u16) by (bit_vector);
}

/// Taking candidates away with a mask: `a & !b` keeps the candidates of `a` that `b` lacks.
pub proof fn lemma_has_and_not(a: u16, b: u16)
    ensures
        forall|d: int| #[trigger] holds(a & !b, d) <==> (holds(a, d) && !holds(b, d)),
        a & !b <= a,
{
    assert forall|d: int| #[trigger] holds(a & !b, d) <==> (holds(a, d) && !holds(b, d)) by {
        if 1 <= d <= 9 {
            lemma_bits_and_not(a, b, (d - 1) as u16);
        }
    }
    lemma_bits_and_le(a, !b);
}

/// The empty mask holds no digit.
pub proof fn lemma_has_none()
    ensures
        forall|d: int| !#[trigger] holds(0u16, d),
        cnt(0u16) == 0,
{
    assert forall|d: int| !#[trigger] holds(0u16, d) by {
        if 1 <= d <= 9 {
            let k = (d - 1) as u16;
            assert((0u16 >> k) & 1u16 == 0u16) by (bit_vector);
        }
    }
    lemma_cnt_zero(0u16, 9);
}

/// The union of two masks holds the candidates of both.
pub proof fn lemma_has_or(a: u16, b: u16)
    ensures
        forall|d: int| #[trigger] holds(a | b, d) <==> (holds(a, d) || holds(b, d)),
        proper(a) && proper(b) ==> proper(a | b),
{
    assert forall|d: int| #[trigger] holds(a | b, d) <==> (holds(a, d) || holds(b, d)) by {
        if 1 <= d <= 9 {
            lemma_bits_or(a, b, (d - 1) as u16);
        }
    }
    if proper(a) && proper(b) {
        lemma_bits_or_proper(a, b);
    }
}

/// The mask of one digit holds that digit and no other.
pub proof fn lemma_has_bit(v: int)
    requires
        1 <= v <= 9,
    ensures
        forall|d: int| #[trigger] holds(bit(v), d) <==> d == v,
        proper(bit(v)),
        cnt(bit(v)) == 1,
        least(bit(v)) == v,
{
    assert forall|d: int| #[trigger] holds(bit(v), d) <==> d == v by {
        if 1 <= d <= 9 {
            lemma_bits_single((v - 1) as u16, (d - 1) as u16);
        }
    }
    lemma_bits_single((v - 1) as u16, 0);
    lemma_cnt_one(bit(v), v);
    lemma_least(bit(v));
}

/// The full mask holds every digit.
pub proof fn lemma_has_all()
    ensures
        forall|d: int| 1 <= d <= 9 ==> #[trigger] holds(ALL_DIGITS, d),
        proper(ALL_DIGITS),
        cnt(ALL_DIGITS) == 9,
{
    assert forall|d: int| 1 <= d <= 9 implies #[trigger] holds(ALL_DIGITS, d) by {
        lemma_bits_full((d - 1) as u16);
    }
    reveal_with_fuel(cnt_upto, 10);
}

/// Two proper masks with the same candidates are the same mask.
pub proof fn lemma_mask_ext(a: u16, b: u16)
    requires
        proper(a),
        proper(b),
        forall|d: int| 1 <= d <= 9 ==> #[trigger] holds(a, d) == holds(b, d),
    ensures
        a == b,
{
    assert forall|k: u16| k < 9 implies (a >> k) & 1u16 == (b >> k) & 1u16 by {
        assert(holds(a, k + 1) == holds(b, k + 1));
        assert((k + 1 - 1) as u16 == k);
        lemma_bit_value(a, k);
        lemma_bit_value(b, k);
    }
    lemma_bits_ext(a, b);
}

/// Counting over a subset never gives more, and gives less where a digit is missing.
pub proof fn lemma_cnt_subset(a: u16, b: u16, k: int)
    requires
        subset(a, b),
    ensures
        cnt_upto(a, k) <= cnt_upto(b, k),
        (exists|d: int| 1 <= d <= k && holds(b, d) && !holds(a, d)) ==> cnt_upto(a, k) < cnt_upto(
            b,
            k,
        ),
    decreases k,
{
    if k > 0 {
        lemma_cnt_subset(a, b, k - 1);
        if exists|d: int| 1 <= d <= k && holds(b, d) && !holds(a, d) {
            let d = choose|d: int| 1 <= d <= k && holds(b, d) && !holds(a, d);
            if d < k {
                assert(exists|d: int| 1 <= d <= k - 1 && holds(b, d) && !holds(a, d));
            }
        }
    }
}

/// A count of zero means no candidate at all.
pub proof fn lemma_cnt_zero(m: u16, k: int)
    ensures
        cnt_upto(m, k) == 0 <==> forall|d: int| 1 <= d <= k ==> !#[trigger] holds(m, d),
    decreases k,
{
    if k > 0 {
        lemma_cnt_zero(m, k - 1);
        if cnt_upto(m, k) == 0 {
            assert forall|d: int| 1 <= d <= k implies !#[trigger] holds(m, d) by {
                if d < k {
                }
            }
        }
    }
}

/// A mask whose one candidate is `v` counts one.
pub proof fn lemma_cnt_one(m: u16, v: int)
    requires
        1 <= v <= 9,
        forall|d: int| #[trigger] holds(m, d) <==> d == v,
    ensures
        cnt(m) == 1,
{
    lemma_cnt_one_upto(m, v, 9);
}

proof fn lemma_cnt_one_upto(m: u16, v: int, k: int)
    requires
        1 <= v,
        forall|d: int| #[trigger] holds(m, d) <==> d == v,
    ensures
        cnt_upto(m, k) == if k >= v {
            1nat
        } else {
            0nat
        },
    decreases k,
{
    if k > 0 {
        lemma_cnt_one_upto(m, v, k - 1);
    }
}

/// Facts on the smallest candidate.
pub proof fn lemma_least(m: u16)
    ensures
        1 <= least(m) <= 10,
        least(m) <= 9 ==> holds(m, least(m)),
        forall|d: int| 1 <= d < least(m) ==> !#[trigger] holds(m, d),
        least(m) == 10 <==> cnt(m) == 0,
{
    lemma_least_from(m, 1);
    lemma_cnt_zero(m, 9);
}

proof fn lemma_least_from(m: u16, s: int)
    requires
        1 <= s <= 10,
    ensures
        s <= least_from(m, s) <= 10,
        least_from(m, s) <= 9 ==> holds(m, least_from(m, s)),
        forall|d: int| s <= d < least_from(m, s) ==> !#[trigger] holds(m, d),
        least_from(m, s) == 10 ==> forall|d: int| s <= d <= 9 ==> !#[trigger] holds(m, d),
    decreases 10 - s,
{
    if s < 10 && !holds(m, s) {
        lemma_least_from(m, s + 1);
    }
}

/// A mask that counts one holds its smallest candidate and nothing else.
pub proof fn lemma_single(m: u16)
    requires
        cnt(m) == 1,
    ensures
        1 <= least(m) <= 9,
        forall|d: int| #[trigger] holds(m, d) <==> d == least(m),
{
    lemma_least(m);
    let v = least(m);
    assert forall|d: int| #[trigger] holds(m, d) <==> d == v by {
        if holds(m, d) && d != v {
            lemma_two_count(m, v, d, 9);
        }
    }
}

proof fn lemma_two_count(m: u16, a: int, b: int, k: int)
    requires
        holds(m, a),
        holds(m, b),
        a != b,
        a <= k,
        b <= k,
    ensures
        cnt_upto(m, k) >= 2,
    decreases k,
{
    if k > 0 {
        if a == k {
            lemma_cnt_positive(m, b, k - 1);
        } else if b == k {
            lemma_cnt_positive(m, a, k - 1);
        } else {
            lemma_two_count(m, a, b, k - 1);
        }
    }
}

proof fn lemma_cnt_positive(m: u16, a: int, k: int)
    requires
        holds(m, a),
        a <= k,
    ensures
        cnt_upto(m, k) >= 1,
    decreases k,
{
    if k > a {
        lemma_cnt_positive(m, a, k - 1);
    }
}

/// Digit `d` (from 1 to 9) is a candidate of `set`.
pub fn contains(set: u16, d: u8) -> (r: bool)
    requires
        1 <= d <= 9,
    ensures
        r == holds(set, d as int),
{
    (set >> ((d - 1) as u16)) & 1u16 == 1u16
}

/// The number of candidates of `set`.
pub fn count(set: u16) -> (r: u8)
    ensures
        r == cnt(set),
{
    let mut n: u8 = 0;
    let mut d: u8 = 1;
    while d <= MAX_DIGIT
        invariant
            1 <= d <= 10,
            n == cnt_upto(set, d - 1),
            n <= d - 1,
        decreases 10 - d,
    {
        if contains(set, d) {
            n = n + 1;
        }
        d = d + 1;
    }
    n
}

/// The first candidate of a non-empty `set`: its smallest digit, so that the choice is
/// reproducible.
pub fn get_rand_elem(set: u16) -> (r: u8)
    requires
        cnt(set) > 0,
    ensures
        r == least(set),
        1 <= r <= 9,
        holds(set, r as int),
{
    proof {
        lemma_least(set);
    }
    let mut d: u8 = 1;
    while d < MAX_DIGIT
        invariant
            1 <= d <= 9,
            least_from(set, d as int) == least(set),
            least(set) <= 9,
        decreases 9 - d,
    {
        if contains(set, d) {
            return d;
        }
        d = d + 1;
    }
    proof {
        assert(least_from(set, 10) == 10);
    }
    d
}

/// The mask that holds the digit `d` alone.
pub fn single(d: u8) -> (r: u16)
    requires
        1 <= d <= 9,
    ensures
        r == bit(d as int),
{
    1u16 << ((d - 1) as u16)
}

} // verus!
