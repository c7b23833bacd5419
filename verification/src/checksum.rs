//! The Internet header checksum: a one's-complement sum of 16-bit words.
//!
//! An IPv4 header carries, at byte offsets 10..12, the complement of the
//! one's-complement sum of every other 16-bit word of the header.  The
//! kernel recomputes the sum over the whole header, checksum included, and
//! drops the packet unless the complement of that sum is zero.

use vstd::arithmetic::div_mod::{
    lemma_fundamental_div_mod, lemma_mod_multiples_vanish, lemma_small_mod,
};
use vstd::prelude::*;

verus! {

/// Folds the carries of a 16-bit one's-complement accumulator: while the
/// value overflows 16 bits, the high part is added back onto the low part.
pub open spec fn oc_fold(s: nat) -> nat
    decreases s,
{
    if s < 0x10000 {
        s
    } else {
        oc_fold(((s % 0x10000) + (s / 0x10000)) as nat)
    }
}

/// The 16-bit big-endian word at byte offset `i`; a lone trailing byte
/// counts as the high half of a zero-padded word.
pub open spec fn word_at(b: Seq<u8>, i: int) -> int {
    if i + 1 < b.len() {
        b[i] * 0x100 + b[i + 1]
    } else {
        b[i] * 0x100
    }
}

/// Sum of the words from byte offset `i` on, with the checksum field at
/// offset 10 left out.
pub open spec fn sum_skip(b: Seq<u8>, i: int) -> int
    decreases b.len() + 2 - i,
{
    if 0 <= i < b.len() {
        (if i == 10 {
            0
        } else {
            word_at(b, i)
        }) + sum_skip(b, i + 2)
    } else {
        0
    }
}

/// Sum of the words from byte offset `i` on, the checksum field included.
pub open spec fn sum_all(b: Seq<u8>, i: int) -> int
    decreases b.len() + 2 - i,
{
    if 0 <= i < b.len() {
        word_at(b, i) + sum_all(b, i + 2)
    } else {
        0
    }
}

/// The checksum value stored for a header `b`: the complement of the
/// folded sum of all words but the checksum field itself.
pub open spec fn checksum_of(b: Seq<u8>) -> int {
    0xffff - oc_fold(sum_skip(b, 0) as nat)
}

/// A header is accepted by the receiver when the folded sum over all of
/// its words, stored checksum included, comes to 0xffff — that is, when
/// its complement is zero.
pub open spec fn checksum_accepts(b: Seq<u8>) -> bool {
    oc_fold(sum_all(b, 0) as nat) == 0xffff
}

proof fn lemma_sum_skip_nonneg(b: Seq<u8>, i: int)
    ensures
        0 <= sum_skip(b, i),
    decreases b.len() + 2 - i,
{
    if 0 <= i < b.len() {
        lemma_sum_skip_nonneg(b, i + 2);
    }
}

proof fn lemma_sum_tails_equal(b: Seq<u8>, i: int)
    requires
        i > 10,
    ensures
        sum_all(b, i) == sum_skip(b, i),
    decreases b.len() + 2 - i,
{
    if 0 <= i < b.len() {
        lemma_sum_tails_equal(b, i + 2);
    }
}

/// Relates the two sums: they differ by exactly the checksum word.
proof fn lemma_sum_all_is_sum_skip_plus_word(b: Seq<u8>, i: int)
    requires
        0 <= i <= 10,
        i % 2 == 0,
        b.len() >= 12,
    ensures
        sum_all(b, i) == sum_skip(b, i) + word_at(b, 10),
    decreases b.len() + 2 - i,
{
    if i == 10 {
        lemma_sum_tails_equal(b, 12);
    } else {
        lemma_sum_all_is_sum_skip_plus_word(b, i + 2);
    }
}

/// The folded value keeps the sum's residue modulo 0xffff, stays within
/// 16 bits, and stays positive when the sum was.
proof fn lemma_oc_fold_props(s: nat)
    ensures
        oc_fold(s) <= 0xffff,
        oc_fold(s) % 0xffff == s % 0xffff,
        s > 0 ==> oc_fold(s) > 0,
    decreases s,
{
    if s < 0x10000 {
    } else {
        let q: nat = s / 0x10000;
        let r: nat = s % 0x10000;
        lemma_fundamental_div_mod(s as int, 0x10000);
        assert(s == 0xffff * q + (q + r));
        lemma_oc_fold_props((r + q) as nat);
        assert((0xffff * (q as int) + (q + r)) % 0xffff == (q + r) % 0xffff) by {
            lemma_mod_multiples_vanish(q as int, q + r as int, 0xffff);
        }
    }
}

proof fn lemma_sub_mod_zero(a: int, c: int, m: int)
    requires
        m > 0,
        a % m == c % m,
    ensures
        (a - c) % m == 0,
{
    lemma_fundamental_div_mod(a, m);
    lemma_fundamental_div_mod(c, m);
    assert(a - c == m * (a / m - c / m)) by (nonlinear_arith)
        requires
            a == m * (a / m) + a % m,
            c == m * (c / m) + c % m,
            a % m == c % m,
    ;
    assert((m * (a / m - c / m)) % m == 0) by {
        lemma_mod_multiples_vanish(a / m - c / m, 0, m);
        lemma_small_mod(0, m as nat);
    }
}

/// A header whose checksum field holds `checksum_of` the header folds,
/// over all of its words, to 0xffff: the complement of the recomputed sum
/// is zero, so the receiver accepts the header.
pub proof fn lemma_checksum_accepts(b: Seq<u8>)
    requires
        b.len() >= 12,
        b[10] == checksum_of(b) / 0x100,
        b[11] == checksum_of(b) % 0x100,
    ensures
        checksum_accepts(b),
{
    let s: int = sum_skip(b, 0);
    lemma_sum_skip_nonneg(b, 0);
    let f: int = oc_fold(s as nat) as int;
    lemma_oc_fold_props(s as nat);
    let c: int = 0xffff - f;
    assert(word_at(b, 10) == c / 0x100 * 0x100 + c % 0x100);
    assert(c == c / 0x100 * 0x100 + c % 0x100) by {
        lemma_fundamental_div_mod(c, 0x100);
    }
    lemma_sum_all_is_sum_skip_plus_word(b, 0);
    let t: int = sum_all(b, 0);
    assert(t == s + c);
    if s == 0 {
        assert(t == 0xffff);
        assert(oc_fold(0xffff as nat) == 0xffff);
    } else {
        assert(t == 0xffff * 1 + (s - f));
        assert(t > 0);
        lemma_oc_fold_props(t as nat);
        assert(t % 0xffff == 0) by {
            lemma_mod_multiples_vanish(1, s - f, 0xffff);
            lemma_sub_mod_zero(s, f, 0xffff);
        }
        let ft: nat = oc_fold(t as nat);
        assert(ft % 0xffff == 0 && 0 < ft <= 0xffff);
        if ft < 0xffff {
            lemma_small_mod(ft, 0xffff as nat);
        }
        assert(ft == 0xffff);
    }
}

/// The checksum ignores its own field: storing any bytes at offsets 10
/// and 11 leaves `sum_skip` — and so `checksum_of` — unchanged.
pub proof fn lemma_sum_skip_ignores_checksum_field(b: Seq<u8>, x: u8, y: u8, i: int)
    requires
        b.len() >= 12,
        i % 2 == 0,
    ensures
        sum_skip(b.update(10, x).update(11, y), i) == sum_skip(b, i),
    decreases b.len() + 2 - i,
{
    let b2 = b.update(10, x).update(11, y);
    if 0 <= i < b.len() {
        lemma_sum_skip_ignores_checksum_field(b, x, y, i + 2);
        if i != 10 {
            assert(word_at(b2, i) == word_at(b, i));
        }
    }
}

/// Folds a 32-bit one's-complement accumulator down to 16 bits.
pub fn fold_carries(sum: u32) -> (r: u16)
    ensures
        r == oc_fold(sum as nat),
{
    let mut acc: u32 = sum;
    loop
        invariant
            oc_fold(acc as nat) == oc_fold(sum as nat),
        ensures
            acc == oc_fold(sum as nat),
            acc < 0x10000,
        decreases acc,
    {
        if acc < 0x10000 {
            break ;
        }
        proof {
            assert((acc & 0xffff) + (acc >> 16) <= 0x1fffe) by (bit_vector);
        }
        let next: u32 = (acc & 0xffff) + (acc >> 16);
        proof {
            assert(next == acc as nat % 0x10000 + acc as nat / 0x10000 && next < acc)
                by (bit_vector)
                requires
                    next == (acc & 0xffff) + (acc >> 16),
                    acc >= 0x10000,
            ;
        }
        acc = next;
    }
    acc as u16
}

/// Computes the one's-complement checksum of the words of `buf[lo..hi]`,
/// the field at offset `lo + 10` left out of the sum, exactly as the
/// stored-checksum spec `checksum_of` describes it.
pub fn compute_checksum(buf: &Vec<u8>, lo: usize, hi: usize) -> (r: u16)
    requires
        lo + 12 <= hi <= buf.len(),
        hi - lo <= 0x10000,
    ensures
        r == checksum_of(buf@.subrange(lo as int, hi as int)),
{
    let ghost b = buf@.subrange(lo as int, hi as int);
    let mut acc: u32 = 0;
    let mut i: usize = 0;
    while i < hi - lo
        invariant
            lo + 12 <= hi <= buf.len(),
            hi - lo <= 0x10000,
            i % 2 == 0,
            0 <= i <= hi - lo + 1,
            b == buf@.subrange(lo as int, hi as int),
            acc + sum_skip(b, i as int) == sum_skip(b, 0),
            acc <= i * 0x8000,
        decreases hi - lo + 2 - i,
    {
        proof {
            assert(i as int * 0x8000 <= 0x10000 * 0x8000) by (nonlinear_arith)
                requires
                    0 <= i as int <= 0x10000,
            ;
            assert(i as int * 0x8000 + 0x10000 == (i as int + 2) * 0x8000) by (nonlinear_arith);
        }
        if i != 10 {
            let w: u32 = if lo + i + 1 < hi {
                (buf[lo + i] as u32) * 0x100 + (buf[lo + i + 1] as u32)
            } else {
                (buf[lo + i] as u32) * 0x100
            };
            assert(w == word_at(b, i as int));
            acc = acc + w;
        }
        i = i + 2;
    }
    assert(acc == sum_skip(b, 0));
    let folded: u16 = fold_carries(acc);
    0xffffu16 - folded
}

} // verus!
