//! CRC-16/XMODEM, the checksum by which a cluster assigns keys to hash slots.
//!
//! A polynomial over GF(2) is a sequence of coefficients, the highest power first. The checksum
//! of a message is the remainder that long division leaves of the message, followed by sixteen
//! zero bits, by the generator `x^16 + x^12 + x^5 + 1`.
use vstd::arithmetic::power2::{lemma2_to64, lemma_pow2_strictly_increases, lemma_pow2_unfold, pow2};
use vstd::prelude::*;

verus! {

/// Bit `n` of a register, bit 0 being the least significant.
pub open spec fn bit16(x: u16, n: u16) -> bool {
    (x >> n) & 1u16 == 1u16
}

/// Bit `n` of a byte, bit 0 being the least significant.
pub open spec fn bit8(x: u8, n: u8) -> bool {
    (x >> n) & 1u8 == 1u8
}

/// The sixteen bits of a register, the most significant first.
pub open spec fn register_bits(x: u16) -> Seq<bool> {
    Seq::new(16, |k: int| bit16(x, (15 - k) as u16))
}

/// The bits of a message in the order of its bytes, each byte from its most significant bit.
pub open spec fn message_bits(data: Seq<u8>) -> Seq<bool> {
    Seq::new(8 * data.len(), |k: int| bit8(data[k / 8], (7 - k % 8) as u8))
}

/// `n` zero coefficients.
pub open spec fn zeros(n: nat) -> Seq<bool> {
    Seq::new(n, |k: int| false)
}

/// The coefficients of the generator below its leading term `x^16`: `x^12`, `x^5` and `1`.
pub open spec fn generator_tail(k: int) -> bool {
    k == 3 || k == 10 || k == 15
}

/// Subtracts the generator, aligned with the leading term of `p`, and drops that term.
pub open spec fn cancel_leading(p: Seq<bool>) -> Seq<bool> {
    Seq::new((p.len() - 1) as nat, |k: int| p[k + 1] != generator_tail(k))
}

/// What long division of `p` by the generator leaves.
pub open spec fn remainder(p: Seq<bool>) -> Seq<bool>
    decreases p.len(),
{
    if p.len() <= 16 {
        p
    } else if p[0] {
        remainder(cancel_leading(p))
    } else {
        remainder(p.drop_first())
    }
}

/// The number whose binary digits are `bits`, the most significant first.
pub open spec fn binary_value(bits: Seq<bool>) -> nat
    decreases bits.len(),
{
    if bits.len() == 0 {
        0
    } else {
        2 * binary_value(bits.drop_last()) + if bits.last() { 1nat } else { 0nat }
    }
}

/// The checksum of a message: the remainder of the message times `x^16`.
pub open spec fn crc16(data: Seq<u8>) -> nat {
    binary_value(remainder(message_bits(data) + zeros(16)))
}

/// Coefficient-wise sum of two polynomials of one length.
pub open spec fn poly_sum(a: Seq<bool>, b: Seq<bool>) -> Seq<bool> {
    Seq::new(a.len(), |k: int| a[k] != b[k])
}

/// Adds `r` to the leading coefficients of `p`.
pub open spec fn add_front(r: Seq<bool>, p: Seq<bool>) -> Seq<bool> {
    Seq::new(p.len(), |k: int| if k < r.len() { p[k] != r[k] } else { p[k] })
}

proof fn lemma_remainder_len(p: Seq<bool>)
    ensures
        remainder(p).len() == if p.len() <= 16 { p.len() } else { 16 },
    decreases p.len(),
{
    if p.len() > 16 {
        if p[0] {
            lemma_remainder_len(cancel_leading(p));
        } else {
            lemma_remainder_len(p.drop_first());
        }
    }
}

/// The number that sixteen bits write is the register that holds them.
proof fn lemma_register_value(x: u16)
    ensures
        binary_value(register_bits(x)) == x,
{
    lemma_prefix_value(x, 16);
    assert(register_bits(x).take(16) =~= register_bits(x));
    assert(x >> 0u16 == x) by (bit_vector);
}

/// The number that the `n` most significant bits of a register write.
proof fn lemma_prefix_value(x: u16, n: int)
    requires
        0 <= n <= 16,
    ensures
        binary_value(register_bits(x).take(n)) == x >> ((16 - n) as u16),
    decreases n,
{
    let bits = register_bits(x).take(n);
    if n == 0 {
        assert(x >> 16u16 == 0) by (bit_vector);
    } else {
        lemma_prefix_value(x, n - 1);
        assert(bits.drop_last() =~= register_bits(x).take(n - 1));
        let m = (16 - n) as u16;
        assert(bits.last() == bit16(x, m));
        assert(m < 16 ==> x >> m == 2 * (x >> ((m + 1) as u16)) + ((x >> m) & 1u16)) by (bit_vector);
        assert((x >> m) & 1u16 == 0 || (x >> m) & 1u16 == 1) by (bit_vector);
    }
}

/// Computes the CRC-16/XMODEM checksum of `data`.
pub fn crc16_xmodem(data: &[u8]) -> (crc: u16)
    ensures
        crc == crc16(data@),
{
    let mut crc: u16 = 0;
    let ghost goal = remainder(message_bits(data@) + zeros(16));
    proof {
        assert forall|n: u16| n < 16 implies !#[trigger] bit16(0, n) by {
            assert(n < 16 ==> (0u16 >> n) & 1u16 == 0) by (bit_vector);
        }
        assert(add_front(register_bits(0), message_bits(data@.skip(0)) + zeros(16)) =~= message_bits(
            data@,
        ) + zeros(16));
    }
    let mut i: usize = 0;
    while i < data.len()
        invariant
            0 <= i <= data@.len(),
            goal == remainder(add_front(register_bits(crc), message_bits(data@.skip(i as int)) + zeros(16))),
        decreases data@.len() - i,
    {
        let b: u8 = data[i];
        let ghost before = crc;
        let ghost rest = message_bits(data@.skip(i + 1)) + zeros(16);
        crc = crc ^ ((b as u16) << 8);
        proof {
            lemma_absorb_byte(before, b, data@.skip(i as int));
            assert(data@.skip(i as int).drop_first() =~= data@.skip(i + 1));
        }
        let mut j: u8 = 0;
        while j < 8
            invariant
                j <= 8,
                rest.len() >= 16,
                goal == remainder(add_front(register_bits(crc), zeros((8 - j) as nat) + rest)),
            decreases 8 - j,
        {
            proof {
                let t = zeros((8 - j - 1) as nat) + rest;
                assert(zeros((8 - j) as nat) + rest =~= seq![false] + t);
                lemma_shift(crc, t);
            }
            crc = if crc & 0x8000 != 0 {
                (crc << 1) ^ 0x1021
            } else {
                crc << 1
            };
            j = j + 1;
        }
        proof {
            assert(zeros(0) + rest =~= rest);
        }
        i = i + 1;
    }
    proof {
        assert(message_bits(data@.skip(i as int)) + zeros(16) =~= zeros(16));
        assert(add_front(register_bits(crc), zeros(16)) =~= register_bits(crc));
        lemma_register_value(crc);
    }
    crc
}

/// Adding a byte to the high half of the register takes the byte out of the message.
proof fn lemma_absorb_byte(crc: u16, b: u8, data: Seq<u8>)
    requires
        data.len() > 0,
        data[0] == b,
    ensures
        add_front(register_bits(crc), message_bits(data) + zeros(16)) == add_front(
            register_bits(crc ^ ((b as u16) << 8)),
            zeros(8) + (message_bits(data.drop_first()) + zeros(16)),
        ),
{
    let left = add_front(register_bits(crc), message_bits(data) + zeros(16));
    let next = crc ^ ((b as u16) << 8);
    let right = add_front(
        register_bits(next),
        zeros(8) + (message_bits(data.drop_first()) + zeros(16)),
    );
    assert(left.len() == right.len());
    assert forall|k: int| 0 <= k < left.len() implies left[k] == right[k] by {
        if k < 16 {
            let n = (15 - k) as u16;
            if k < 8 {
                let m = (7 - k) as u8;
                assert(n == m + 8 && m < 8 ==> (((crc ^ ((b as u16) << 8)) >> n) & 1u16 == 1u16) == (
                ((crc >> n) & 1u16 == 1u16) != ((b >> m) & 1u8 == 1u8))) by (bit_vector);
                assert(k / 8 == 0 && k % 8 == k);
                assert(message_bits(data)[k] == bit8(b, m));
            } else {
                assert(n < 8 ==> (((crc ^ ((b as u16) << 8)) >> n) & 1u16) == (crc >> n) & 1u16)
                    by (bit_vector);
            }
        }
        if 8 <= k < 8 * data.len() {
            assert((k - 8) / 8 == k / 8 - 1 && (k - 8) % 8 == k % 8);
            assert(message_bits(data)[k] == message_bits(data.drop_first())[k - 8]);
        }
    }
    assert(left =~= right);
}

/// One step of long division on a register whose incoming coefficient has been absorbed.
proof fn lemma_shift(crc: u16, t: Seq<bool>)
    requires
        t.len() >= 16,
    ensures
        remainder(add_front(register_bits(crc), seq![false] + t)) == remainder(
            add_front(
                register_bits(
                    if crc & 0x8000 != 0 {
                        (crc << 1) ^ 0x1021
                    } else {
                        crc << 1
                    },
                ),
                t,
            ),
        ),
{
    let p = add_front(register_bits(crc), seq![false] + t);
    assert(p[0] == bit16(crc, 15));
    assert((crc & 0x8000 != 0) == ((crc >> 15u16) & 1u16 == 1u16)) by (bit_vector);
    let next = if crc & 0x8000 != 0 {
        (crc << 1) ^ 0x1021
    } else {
        crc << 1
    };
    let q = add_front(register_bits(next), t);
    let step = if p[0] {
        cancel_leading(p)
    } else {
        p.drop_first()
    };
    assert forall|k: int| 0 <= k < step.len() implies step[k] == q[k] by {
        if k < 16 {
            let n = (15 - k) as u16;
            let m = (14 - k) as u16;
            if k < 15 {
                assert(n < 16 && n == m + 1 ==> ((crc << 1) >> n) & 1u16 == (crc >> m) & 1u16) by (bit_vector);
                assert(n < 16 && n == m + 1 ==> ((((crc << 1) ^ 0x1021) >> n) & 1u16 == 1u16) == (((crc
                    >> m) & 1u16 == 1u16) != (n == 12 || n == 5 || n == 0))) by (bit_vector);
            } else {
                assert(((crc << 1) >> 0u16) & 1u16 == 0u16) by (bit_vector);
                assert((((crc << 1) ^ 0x1021) >> 0u16) & 1u16 == 1u16) by (bit_vector);
            }
            assert(generator_tail(k) == (n == 12 || n == 5 || n == 0));
        }
    }
    assert(step =~= q);
}

/// Division steps on `q` leave what follows `q` alone.
proof fn lemma_remainder_prefix(q: Seq<bool>, w: Seq<bool>)
    ensures
        remainder(q + w) == remainder(remainder(q) + w),
    decreases q.len(),
{
    if q.len() > 16 {
        if q[0] {
            lemma_remainder_prefix(cancel_leading(q), w);
            assert(cancel_leading(q + w) =~= cancel_leading(q) + w);
        } else {
            lemma_remainder_prefix(q.drop_first(), w);
            assert((q + w).drop_first() =~= q.drop_first() + w);
        }
    }
}

proof fn lemma_remainder_sum(a: Seq<bool>, b: Seq<bool>)
    requires
        a.len() == b.len(),
    ensures
        remainder(poly_sum(a, b)) == poly_sum(remainder(a), remainder(b)),
    decreases a.len(),
{
    if a.len() > 16 {
        let next_a = if a[0] { cancel_leading(a) } else { a.drop_first() };
        let next_b = if b[0] { cancel_leading(b) } else { b.drop_first() };
        lemma_remainder_sum(next_a, next_b);
        let c = poly_sum(a, b);
        if c[0] {
            assert(cancel_leading(c) =~= poly_sum(next_a, next_b));
        } else {
            assert(c.drop_first() =~= poly_sum(next_a, next_b));
        }
    }
}

proof fn lemma_remainder_leading_zeros(n: nat, t: Seq<bool>)
    requires
        t.len() >= 16,
    ensures
        remainder(zeros(n) + t) == remainder(t),
    decreases n,
{
    if n == 0 {
        assert(zeros(0) + t =~= t);
    } else {
        assert((zeros(n) + t).drop_first() =~= zeros((n - 1) as nat) + t);
        lemma_remainder_leading_zeros((n - 1) as nat, t);
    }
}

/// Dividing a message with a tail is dividing the tail with the message's checksum added in front.
proof fn lemma_remainder_of_tail(p: Seq<bool>, t: Seq<bool>)
    requires
        t.len() >= 16,
    ensures
        remainder(p + t) == remainder(add_front(remainder(p + zeros(16)), t)),
{
    let gap = (t.len() - 16) as nat;
    let r = remainder(p + zeros(16));
    lemma_remainder_len(p + zeros(16));
    assert(p + t =~= poly_sum(p + zeros(16) + zeros(gap), zeros(p.len()) + t));
    lemma_remainder_sum(p + zeros(16) + zeros(gap), zeros(p.len()) + t);
    lemma_remainder_prefix(p + zeros(16), zeros(gap));
    lemma_remainder_leading_zeros(p.len(), t);
    lemma_remainder_sum(r + zeros(gap), t);
    assert(poly_sum(r + zeros(gap), t) =~= add_front(r, t));
}

/// The digits of a number of at most sixteen digits are the bits of its register.
proof fn lemma_digits_are_bits(bits: Seq<bool>)
    requires
        bits.len() <= 16,
    ensures
        binary_value(bits) < pow2(bits.len()) <= 65536,
        forall|k: int|
            0 <= k < bits.len() ==> bits[k] == #[trigger] bit16(
                binary_value(bits) as u16,
                (bits.len() - 1 - k) as u16,
            ),
    decreases bits.len(),
{
    let n = bits.len();
    lemma2_to64();
    if n < 16 {
        lemma_pow2_strictly_increases(n, 16);
    }
    if n > 0 {
        let head = bits.drop_last();
        lemma_digits_are_bits(head);
        lemma_pow2_unfold(n);
        let v = binary_value(bits) as u16;
        let w = binary_value(head) as u16;
        let last: u16 = if bits.last() { 1 } else { 0 };
        assert(v == 2 * w + last);
        assert forall|k: int| 0 <= k < n implies bits[k] == #[trigger] bit16(v, (n - 1 - k) as u16) by {
            let m = (n - 1 - k) as u16;
            if m == 0 {
                assert(v == 2 * w + last && last <= 1 ==> (v >> 0u16) & 1u16 == last) by (bit_vector);
            } else {
                let l = (m - 1) as u16;
                assert(v == 2 * w + last && last <= 1 && m == l + 1 && m < 16 ==> (v >> m) & 1u16 == (w
                    >> l) & 1u16) by (bit_vector);
                assert(head[k] == bit16(w, (n - 1 - 1 - k) as u16));
            }
        }
    }
}

/// A checksum fits its register, whose bits are the coefficients of the remainder.
pub proof fn crc_fits_register(data: Seq<u8>)
    ensures
        crc16(data) <= u16::MAX,
        register_bits(crc16(data) as u16) == remainder(message_bits(data) + zeros(16)),
{
    let r = remainder(message_bits(data) + zeros(16));
    lemma_remainder_len(message_bits(data) + zeros(16));
    lemma_digits_are_bits(r);
    assert(register_bits(crc16(data) as u16) =~= r);
}

/// The checksum is linear: the checksum of the bytewise exclusive or of two messages of one
/// length is the exclusive or of their checksums.
pub proof fn crc_is_linear(a: Seq<u8>, b: Seq<u8>)
    requires
        a.len() == b.len(),
    ensures
        crc16(Seq::new(a.len(), |i: int| a[i] ^ b[i])) == (crc16(a) as u16) ^ (crc16(b) as u16),
{
    let c = Seq::new(a.len(), |i: int| a[i] ^ b[i]);
    let x = crc16(a) as u16;
    let y = crc16(b) as u16;
    let sum = poly_sum(message_bits(a) + zeros(16), message_bits(b) + zeros(16));
    assert forall|k: int| 0 <= k < 8 * a.len() implies message_bits(c)[k] == sum[k] by {
        let u = a[k / 8];
        let v = b[k / 8];
        let n = (7 - k % 8) as u8;
        assert(c[k / 8] == u ^ v);
        assert(n < 8 ==> (((u ^ v) >> n) & 1u8 == 1u8) == (((u >> n) & 1u8 == 1u8) != ((v >> n) & 1u8
            == 1u8))) by (bit_vector);
    }
    assert(message_bits(c) + zeros(16) =~= sum);
    lemma_remainder_sum(message_bits(a) + zeros(16), message_bits(b) + zeros(16));
    crc_fits_register(a);
    crc_fits_register(b);
    assert forall|k: int| 0 <= k < 16 implies register_bits(x ^ y)[k] == poly_sum(
        register_bits(x),
        register_bits(y),
    )[k] by {
        let n = (15 - k) as u16;
        assert(n < 16 ==> (((x ^ y) >> n) & 1u16 == 1u16) == (((x >> n) & 1u16 == 1u16) != ((y >> n)
            & 1u16 == 1u16))) by (bit_vector);
    }
    assert(register_bits(x ^ y) =~= poly_sum(register_bits(x), register_bits(y)));
    lemma_register_value(x ^ y);
}

/// A message followed by its own checksum, the high byte first, has checksum zero.
pub proof fn crc_of_checked_message_is_zero(data: Seq<u8>)
    ensures
        crc16(data + seq![(crc16(data) / 256) as u8, (crc16(data) % 256) as u8]) == 0,
{
    crc_fits_register(data);
    let x = crc16(data) as u16;
    let hi = (x / 256) as u8;
    let lo = (x % 256) as u8;
    let whole = data + seq![hi, lo];
    let r = register_bits(x);
    let tail = r + zeros(16);
    let all = message_bits(whole) + zeros(16);
    let expected = message_bits(data) + tail;
    assert forall|k: int| 0 <= k < all.len() implies all[k] == expected[k] by {
        let j = k - 8 * data.len();
        if 0 <= j < 16 {
            let n = (15 - j) as u16;
            assert(k / 8 == data.len() + j / 8 && k % 8 == j % 8);
            let m = (7 - k % 8) as u8;
            if j < 8 {
                assert(j / 8 == 0 && j % 8 == j);
                assert(hi == x / 256 && n == m + 8 && m < 8 ==> (hi >> m) & 1u8 == (x >> n) & 1u16)
                    by (bit_vector);
            } else {
                assert(j / 8 == 1 && j % 8 == j - 8);
                assert(lo == x % 256 && n == m && m < 8 ==> (lo >> m) & 1u8 == (x >> n) & 1u16) by (bit_vector);
            }
        }
    }
    assert(all =~= expected);
    lemma_remainder_of_tail(message_bits(data), tail);
    assert(add_front(r, tail) =~= zeros(16) + zeros(16));
    lemma_remainder_leading_zeros(16, zeros(16));
    assert forall|n: u16| n < 16 implies !#[trigger] bit16(0, n) by {
        assert(n < 16 ==> (0u16 >> n) & 1u16 == 0) by (bit_vector);
    }
    assert(zeros(16) =~= register_bits(0));
    lemma_register_value(0);
}

/// Coefficient `k` of a polynomial times the generator: the sum of the polynomial's coefficients
/// that the generator's four terms carry there.
pub open spec fn times_generator(q: Seq<bool>, k: int) -> bool {
    let at = |i: int| 0 <= i < q.len() && q[i];
    ((at(k) != at(k - 4)) != at(k - 11)) != at(k - 16)
}

/// Long division leaves what is missing to a multiple of the generator.
proof fn lemma_division(p: Seq<bool>) -> (q: Seq<bool>)
    requires
        p.len() >= 16,
    ensures
        q.len() == p.len() - 16,
        forall|k: int|
            0 <= k < p.len() ==> #[trigger] p[k] == (times_generator(q, k) != (k >= q.len() && remainder(p)[k
                - q.len()])),
    decreases p.len(),
{
    lemma_remainder_len(p);
    if p.len() == 16 {
        Seq::empty()
    } else {
        let next = if p[0] {
            cancel_leading(p)
        } else {
            p.drop_first()
        };
        let rest = lemma_division(next);
        let q = seq![p[0]] + rest;
        assert forall|k: int| 0 <= k < p.len() implies #[trigger] p[k] == (times_generator(q, k) != (k
            >= q.len() && remainder(p)[k - q.len()])) by {
            if k > 0 {
                assert(next[k - 1] == (times_generator(rest, k - 1) != (k - 1 >= rest.len() && remainder(
                    next,
                )[k - 1 - rest.len()])));
                assert(q[0] == p[0]);
                assert forall|i: int| 1 <= i < q.len() implies #[trigger] q[i] == rest[i - 1] by {}
            }
        }
        q
    }
}

/// The message followed by its checksum, as a polynomial, is a multiple of the generator
/// `x^16 + x^12 + x^5 + 1`: the result is the other factor.
pub proof fn checked_message_is_multiple_of_generator(data: Seq<u8>) -> (q: Seq<bool>)
    ensures
        crc16(data) < 65536,
        q.len() == 8 * data.len(),
        forall|k: int|
            0 <= k < 8 * data.len() ==> times_generator(q, k) == ((#[trigger] data[k / 8] >> ((7 - k % 8) as u8)) & 1u8
                == 1u8),
        forall|k: int|
            0 <= k < 16 ==> #[trigger] times_generator(q, 8 * data.len() + k) == (((crc16(data) as u16) >> ((15 - k) as u16))
                & 1u16 == 1u16),
{
    let m = message_bits(data) + zeros(16);
    crc_fits_register(data);
    let q = lemma_division(m);
    assert forall|k: int| 0 <= k < 8 * data.len() implies times_generator(q, k) == ((#[trigger] data[k / 8] >> ((7 - k
        % 8) as u8)) & 1u8 == 1u8) by {
        assert(m[k] == bit8(data[k / 8], (7 - k % 8) as u8));
    }
    assert forall|k: int| 0 <= k < 16 implies #[trigger] times_generator(q, 8 * data.len() + k) == (((crc16(
        data,
    ) as u16) >> ((15 - k) as u16)) & 1u16 == 1u16) by {
        assert(!m[8 * data.len() + k]);
        assert(register_bits(crc16(data) as u16)[k] == bit16(crc16(data) as u16, (15 - k) as u16));
    }
    q
}

} // verus!
