//! The mathematical model that every contract of this crate is stated over:
//! a sequence of bits is a `Seq<bool>`, least significant bit first, and the
//! number it denotes is `bits_value`.

use vstd::prelude::*;

verus! {

/// Bit `i` of the word `w`, counted from the least significant bit.
pub open spec fn bit_at(w: u64, i: u64) -> bool {
    (w >> i) & 1 == 1
}

/// The lowest `len` bits of `x`, least significant bit first.
pub open spec fn bits_of(x: u64, len: nat) -> Seq<bool> {
    Seq::new(len, |j: int| bit_at(x, j as u64))
}

/// The number whose binary digits, least significant first, are `s`.
pub open spec fn bits_value(s: Seq<bool>) -> nat
    decreases s.len(),
{
    if s.len() == 0 {
        0
    } else {
        (if s[0] { 1nat } else { 0nat }) + 2 * bits_value(s.drop_first())
    }
}

/// `x` can be written in `len` bits: it has no bit set at position `len` or above.
pub open spec fn fits_in(x: u64, len: nat) -> bool {
    len >= 64 || x >> (len as u64) == 0
}

/// The word whose lowest `len` bits are set and no others.
pub open spec fn low_mask(len: nat) -> u64 {
    if len >= 64 { u64::MAX } else { ((1u64 << (len as u64)) - 1) as u64 }
}

/// The `len` bits of `s` from position `pos` on; whatever lies beyond the end of `s`
/// reads as zero.
pub open spec fn window(s: Seq<bool>, pos: nat, len: nat) -> Seq<bool> {
    Seq::new(len, |j: int| pos + j < s.len() && s[pos + j])
}

/// A bit of a word shifted right is the bit that many positions higher, and zero
/// where that leaves the word.
pub proof fn lemma_bit_shr(w: u64, s: u64, j: u64)
    by (bit_vector)
    requires
        s < 64,
        j < 64,
    ensures
        bit_at(w >> s, j) == (j + s < 64 && bit_at(w, (j + s) as u64)),
{
}

/// A bit of a word shifted left is the bit that many positions lower, and zero below
/// the shift.
pub proof fn lemma_bit_shl(w: u64, s: u64, j: u64)
    by (bit_vector)
    requires
        s < 64,
        j < 64,
    ensures
        bit_at(w << s, j) == (j >= s && bit_at(w, (j - s) as u64)),
{
}

/// The bits of a union, of an intersection, of a complement and of zero.
pub proof fn lemma_bit_ops(a: u64, b: u64, j: u64)
    by (bit_vector)
    requires
        j < 64,
    ensures
        bit_at(a | b, j) == (bit_at(a, j) || bit_at(b, j)),
        bit_at(a & b, j) == (bit_at(a, j) && bit_at(b, j)),
        bit_at(!a, j) == !bit_at(a, j),
        !bit_at(0, j),
{
}

/// The bits of a word whose lowest `len` bits are set, and of the word whose bits are
/// all set.
proof fn lemma_bit_mask(len: u64, j: u64)
    by (bit_vector)
    requires
        len < 64,
        j < 64,
    ensures
        1u64 << len >= 1,
        bit_at(((1u64 << len) - 1) as u64, j) == (j < len),
        bit_at(0xffff_ffff_ffff_ffffu64, j),
{
}

/// Bit `j` of `low_mask(len)` is set exactly if `j` is below `len`.
pub proof fn lemma_low_mask(len: nat, j: u64)
    requires
        j < 64,
    ensures
        bit_at(low_mask(len), j) == (j < len),
        len < 64 ==> 1u64 << (len as u64) >= 1,
{
    if len < 64 {
        lemma_bit_mask(len as u64, j);
    } else {
        lemma_bit_mask(0, j);
    }
}

/// The word whose lowest `len` bits are set.
pub fn mask_of(len: usize) -> (m: u64)
    requires
        len <= 64,
    ensures
        m == low_mask(len as nat),
{
    if len == 64 {
        u64::MAX
    } else {
        proof {
            lemma_low_mask(len as nat, 0);
        }
        (1u64 << len) - 1
    }
}

/// Zero fits in any number of bits.
pub proof fn lemma_zero_fits(len: nat)
    ensures
        fits_in(0, len),
{
    if len < 64 {
        let n = len as u64;
        assert(0u64 >> n == 0) by (bit_vector)
            requires
                n < 64,
        ;
    }
}

/// The lowest eight bits of a word, cut out with the mask 255, are a number below 256.
pub proof fn lemma_low_byte(x: u64)
    by (bit_vector)
    ensures
        ((1u64 << 8u64) - 1) as u64 == 255,
        x & 255 < 256,
        (x & 255) >> 8 == 0,
{
}

/// A word that shifting right by `len` leaves empty has no bit set from `len` on.
proof fn lemma_fits_high_bits(x: u64, len: u64, j: u64)
    by (bit_vector)
    requires
        len < 64,
        x >> len == 0,
        len <= j < 64,
    ensures
        !bit_at(x, j),
{
}

/// A word that fits in `len` bits has no bit set at position `len` or above.
pub proof fn lemma_fits_bit(x: u64, len: nat, j: u64)
    requires
        fits_in(x, len),
        len <= j < 64,
    ensures
        !bit_at(x, j),
{
    lemma_fits_high_bits(x, len as u64, j);
}

/// A word is its lowest bit plus twice the rest, and the rest fits in one bit less.
proof fn lemma_halve(x: u64, len: u64)
    by (bit_vector)
    requires
        1 <= len <= 64,
        len < 64 ==> x >> len == 0,
    ensures
        len > 1 ==> (x >> 1) >> ((len - 1) as u64) == 0,
        len == 1 ==> x >> 1 == 0,
        x == (x & 1) + 2 * (x >> 1),
        x & 1 == 0 || x & 1 == 1,
        bit_at(x, 0) == (x & 1 == 1),
        x >> 0 == x,
{
}

/// The number denoted by the lowest `len` bits of `x` is `x` itself, provided `x` fits.
pub proof fn lemma_value_of_bits(x: u64, len: nat)
    requires
        len <= 64,
        fits_in(x, len),
    ensures
        bits_value(bits_of(x, len)) == x,
    decreases len,
{
    if len == 0 {
        assert(x >> 0 == x) by (bit_vector);
    } else {
        lemma_halve(x, len as u64);
        let y = x >> 1;
        let rest = bits_of(x, len).drop_first();
        assert(rest =~= bits_of(y, (len - 1) as nat)) by {
            assert forall|j: int| 0 <= j < len - 1 implies rest[j] == bit_at(y, j as u64) by {
                lemma_bit_shr(x, 1, j as u64);
            }
        }
        if len == 1 {
            assert(y == 0);
            assert(y >> 0 == y) by (bit_vector);
        }
        lemma_value_of_bits(y, (len - 1) as nat);
    }
}

/// Masking leaves a word that fits; so does shifting far enough to the right; and the
/// union of two words that fit fits too.
pub proof fn lemma_fits_ops(a: u64, b: u64, len: u64, s: u64)
    by (bit_vector)
    requires
        len < 64,
        s < 64,
    ensures
        (a & (((1u64 << len) - 1) as u64)) >> len == 0,
        s + len >= 64 ==> (a >> s) >> len == 0,
        a >> len == 0 && b >> len == 0 ==> (a | b) >> len == 0,
        a >> len == 0 ==> (a & b) >> len == 0,
{
}

/// Inside `s`, a window is a subrange.
pub proof fn lemma_window_inside(s: Seq<bool>, pos: nat, len: nat)
    requires
        pos + len <= s.len(),
    ensures
        window(s, pos, len) == s.subrange(pos as int, (pos + len) as int),
{
    assert(window(s, pos, len) =~= s.subrange(pos as int, (pos + len) as int));
}

/// Shifting a word that fits in `n` bits right by `s` leaves one that fits in `n - s`.
pub proof fn lemma_shr_fits(a: u64, n: nat, s: nat)
    requires
        s <= n <= 64,
        s < 64,
        fits_in(a, n),
    ensures
        fits_in(a >> (s as u64), (n - s) as nat),
{
    let n64 = n as u64;
    let s64 = s as u64;
    if n < 64 {
        assert((a >> s64) >> ((n64 - s64) as u64) == 0) by (bit_vector)
            requires
                s64 <= n64 < 64,
                a >> n64 == 0,
        ;
    } else if s > 0 {
        lemma_fits_ops(a, 0, (64 - s) as u64, s64);
    }
}

/// The number of zero bits of `s` from position `pos` up to the next set bit, or up to
/// the end of `s` if no set bit follows.
pub open spec fn zero_run(s: Seq<bool>, pos: nat) -> nat
    decreases s.len() - pos,
{
    if pos >= s.len() || s[pos as int] {
        0
    } else {
        1 + zero_run(s, pos + 1)
    }
}

/// A zero run ends at a set bit or at the end of the sequence, and holds zero bits only.
pub proof fn lemma_zero_run(s: Seq<bool>, pos: nat)
    ensures
        pos + zero_run(s, pos) < s.len() ==> s[(pos + zero_run(s, pos)) as int],
        pos <= s.len() ==> pos + zero_run(s, pos) <= s.len(),
        forall|i: int| pos <= i < pos + zero_run(s, pos) ==> !s[i],
    decreases s.len() - pos,
{
    if !(pos >= s.len() || s[pos as int]) {
        lemma_zero_run(s, pos + 1);
    }
}

/// Where `k` zero bits start at `pos`, the zero run at `pos` is `k` longer than the one
/// behind them.
pub proof fn lemma_zero_run_skip(s: Seq<bool>, pos: nat, k: nat)
    requires
        pos + k <= s.len(),
        forall|i: int| pos <= i < pos + k ==> !s[i],
    ensures
        zero_run(s, pos) == k + zero_run(s, pos + k),
    decreases k,
{
    if k > 0 {
        lemma_zero_run_skip(s, pos + 1, (k - 1) as nat);
    }
}

/// The bits `code` stand in `s` from position `pos` on.
pub open spec fn holds_at(s: Seq<bool>, pos: nat, code: Seq<bool>) -> bool {
    &&& pos + code.len() <= s.len()
    &&& s.subrange(pos as int, (pos + code.len()) as int) == code
}

/// Where a concatenation stands at `pos`, its first part stands at `pos` and its
/// second part right behind it.
pub proof fn lemma_holds_at_concat(s: Seq<bool>, pos: nat, a: Seq<bool>, b: Seq<bool>)
    requires
        holds_at(s, pos, a + b),
    ensures
        holds_at(s, pos, a),
        holds_at(s, pos + a.len(), b),
{
    let whole = s.subrange(pos as int, (pos + (a + b).len()) as int);
    assert(s.subrange(pos as int, (pos + a.len()) as int) =~= a) by {
        assert forall|j: int| 0 <= j < a.len() implies s[pos + j] == a[j] by {
            assert(whole[j] == (a + b)[j]);
        }
    }
    assert(s.subrange((pos + a.len()) as int, (pos + a.len() + b.len()) as int) =~= b) by {
        assert forall|j: int| 0 <= j < b.len() implies s[pos + a.len() + j] == b[j] by {
            assert(whole[a.len() + j] == (a + b)[a.len() + j]);
        }
    }
}

/// What stands at `pos` is what a window of its length at `pos` shows, bit by bit.
pub proof fn lemma_holds_at_window(s: Seq<bool>, pos: nat, code: Seq<bool>)
    requires
        holds_at(s, pos, code),
    ensures
        window(s, pos, code.len()) == code,
        forall|j: int| 0 <= j < code.len() ==> s[pos + j] == code[j],
{
    let whole = s.subrange(pos as int, (pos + code.len()) as int);
    assert forall|j: int| 0 <= j < code.len() implies s[pos + j] == code[j] by {
        assert(whole[j] == code[j]);
    }
    assert(window(s, pos, code.len()) =~= code);
}

/// The lowest `len` bits of `x` denote `x` with everything from bit `len` on cleared.
pub proof fn lemma_low_bits(x: u64, len: nat)
    requires
        len <= 64,
    ensures
        fits_in(x & low_mask(len), len),
        bits_of(x & low_mask(len), len) == bits_of(x, len),
        bits_value(bits_of(x, len)) == x & low_mask(len),
{
    let m = low_mask(len);
    if len < 64 {
        lemma_fits_ops(x, 0, len as u64, 0);
    }
    assert forall|j: int| 0 <= j < len implies bits_of(x & m, len)[j] == bits_of(x, len)[j] by {
        lemma_bit_ops(x, m, j as u64);
        lemma_low_mask(len, j as u64);
    }
    assert(bits_of(x & m, len) =~= bits_of(x, len));
    lemma_value_of_bits(x & m, len);
}

} // verus!
