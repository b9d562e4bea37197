//! Little-endian two's-complement displacement fields.
//!
//! A relocation field of width `n` holds the signed displacement
//! `target - end` truncated to `n` bytes and stored little-endian. This
//! module defines the encoding and the signed reading of such a field, the
//! executable encoder, and the proof that reading an encoded field yields
//! the displacement back whenever it fits.
use vstd::prelude::*;
use vstd::arithmetic::power2::pow2;
use vstd::arithmetic::power2::lemma_pow2_adds;
use vstd::arithmetic::power2::lemma_pow2_pos;
use vstd::arithmetic::power2::lemma2_to64;
use vstd::arithmetic::power2::lemma2_to64_rest;
use vstd::arithmetic::div_mod::lemma_fundamental_div_mod;
use vstd::arithmetic::div_mod::lemma_hoist_over_denominator;
use vstd::arithmetic::div_mod::lemma_mod_multiples_vanish;
use vstd::arithmetic::div_mod::lemma_mod_breakdown;
use vstd::arithmetic::div_mod::lemma_mod_mod;
use vstd::arithmetic::div_mod::lemma_mod_bound;
use vstd::arithmetic::div_mod::lemma_small_mod;
use vstd::arithmetic::div_mod::lemma_div_denominator;
use vstd::arithmetic::div_mod::lemma_div_basics;
use vstd::arithmetic::div_mod::lemma_div_pos_is_pos;
use vstd::arithmetic::div_mod::lemma_multiply_divide_lt;
use vstd::arithmetic::mul::lemma_mul_is_commutative;

verus! {

/// The relocation field widths the assembler understands.
pub open spec fn valid_size(size: u8) -> bool {
    size == 1 || size == 2 || size == 4 || size == 8
}

/// Little-endian two's-complement encoding of `d`, truncated to `n` bytes:
/// byte `i` is `(d / 256^i) % 256` (with flooring division on `int`).
pub open spec fn disp_bytes(d: int, n: nat) -> Seq<u8>
    decreases n,
{
    if n == 0 {
        Seq::empty()
    } else {
        seq![(d % 256) as u8] + disp_bytes(d / 256, (n - 1) as nat)
    }
}

/// The unsigned value of a little-endian byte string.
pub open spec fn le_unsigned(bytes: Seq<u8>) -> nat
    decreases bytes.len(),
{
    if bytes.len() == 0 {
        0
    } else {
        (bytes[0] + 256 * le_unsigned(bytes.skip(1))) as nat
    }
}

/// The value of a little-endian byte string read as a two's-complement
/// signed integer.
pub open spec fn le_signed(bytes: Seq<u8>) -> int {
    if bytes.len() == 0 {
        0
    } else if le_unsigned(bytes) >= pow2((8 * bytes.len() - 1) as nat) {
        le_unsigned(bytes) - pow2(8 * bytes.len())
    } else {
        le_unsigned(bytes) as int
    }
}

/// The displacement `d` is representable in an `n`-byte signed field.
pub open spec fn disp_fits(d: int, n: nat) -> bool {
    n >= 1 && -(pow2((8 * n - 1) as nat) as int) <= d < pow2((8 * n - 1) as nat)
}

/// `s` with the bytes starting at `at` overwritten by `sub`.
pub open spec fn splice(s: Seq<u8>, at: int, sub: Seq<u8>) -> Seq<u8> {
    s.take(at) + sub + s.skip(at + sub.len())
}

/// Head and tail of a value truncated to `n` bytes: the low byte is the low
/// byte of the value, and the remaining bytes are the truncation of
/// `d / 256` to `n - 1` bytes.
proof fn lemma_disp_decomp(d: int, n: nat)
    requires
        n >= 1,
    ensures
        (d % pow2(8 * n) as int) % 256 == d % 256,
        (d % pow2(8 * n) as int) / 256 == (d / 256) % pow2((8 * n - 8) as nat) as int,
{
    let p = pow2(8 * n) as int;
    let h = pow2((8 * n - 8) as nat) as int;
    lemma_pow2_pos(8 * n);
    lemma_pow2_pos((8 * n - 8) as nat);
    assert(pow2(8) == 256) by { lemma2_to64(); }
    assert(p == 256 * h) by {
        lemma_pow2_adds(8, (8 * n - 8) as nat);
    }
    lemma_mod_mod(d, 256, h);
    let dd = d % p;
    let q = d / p;
    lemma_fundamental_div_mod(d, p);
    assert(d == p * q + dd);
    assert(d == dd + (h * q) * 256) by (nonlinear_arith)
        requires
            d == p * q + dd,
            p == 256 * h,
    ;
    assert(dd / 256 + h * q == (dd + (h * q) * 256) / 256) by {
        lemma_hoist_over_denominator(dd, h * q, 256);
    }
    assert((d / 256) % h == (h * q + dd / 256) % h);
    assert((h * q + dd / 256) % h == (dd / 256) % h) by {
        lemma_mod_multiples_vanish(q, dd / 256, h);
    }
    assert(0 <= dd < p) by { lemma_mod_bound(d, p); }
    assert(0 <= dd / 256) by { lemma_div_pos_is_pos(dd, 256); }
    assert(dd / 256 < h) by { lemma_multiply_divide_lt(dd, 256, h); }
    assert((dd / 256) % h == dd / 256) by {
        lemma_small_mod((dd / 256) as nat, h as nat);
    }
}

/// Truncating `d` to `8 * n` bits does not change its `n`-byte encoding.
proof fn lemma_disp_bytes_mod(d: int, n: nat)
    ensures
        disp_bytes(d % pow2(8 * n) as int, n) == disp_bytes(d, n),
    decreases n,
{
    if n == 0 {
    } else {
        let p = pow2(8 * n) as int;
        lemma_pow2_pos(8 * n);
        let dd = d % p;
        lemma_disp_decomp(d, n);
        lemma_disp_bytes_mod(d / 256, (n - 1) as nat);
        assert(8 * ((n - 1) as nat) == (8 * n - 8) as nat);
        assert(disp_bytes(dd, n) == seq![(dd % 256) as u8] + disp_bytes(dd / 256, (n - 1) as nat));
        assert(disp_bytes(dd / 256, (n - 1) as nat) == disp_bytes(
            (d / 256) % pow2((8 * n - 8) as nat) as int,
            (n - 1) as nat,
        ));
    }
}

/// The unsigned reading of the encoding of a nonnegative `x` is
/// `x % 2^(8n)`.
proof fn lemma_le_unsigned_nonneg(x: int, n: nat)
    requires
        0 <= x,
    ensures
        le_unsigned(disp_bytes(x, n)) == x % pow2(8 * n) as int,
    decreases n,
{
    lemma_pow2_pos(8 * n);
    if n == 0 {
        assert(pow2(0) == 1) by { lemma2_to64(); }
        assert(x % 1 == 0) by {
            lemma_mod_bound(x, 1);
        }
    } else {
        let h = pow2((8 * n - 8) as nat) as int;
        lemma_pow2_pos((8 * n - 8) as nat);
        assert(pow2(8) == 256) by { lemma2_to64(); }
        assert(pow2(8 * n) as int == 256 * h) by {
            lemma_pow2_adds(8, (8 * n - 8) as nat);
        }
        let bytes = disp_bytes(x, n);
        assert(bytes.skip(1) =~= disp_bytes(x / 256, (n - 1) as nat));
        assert(0 <= x / 256) by { lemma_div_pos_is_pos(x, 256); }
        lemma_le_unsigned_nonneg(x / 256, (n - 1) as nat);
        assert(8 * ((n - 1) as nat) == (8 * n - 8) as nat);
        assert(x % (256 * h) == 256 * ((x / 256) % h) + x % 256) by {
            lemma_mod_breakdown(x, 256, h);
        }
        assert(le_unsigned(bytes) == bytes[0] + 256 * le_unsigned(bytes.skip(1)));
    }
}

/// The unsigned reading of the encoding of any `d` is `d` modulo `2^(8n)`.
proof fn lemma_le_unsigned_disp(d: int, n: nat)
    ensures
        le_unsigned(disp_bytes(d, n)) == d % pow2(8 * n) as int,
{
    let p = pow2(8 * n) as int;
    lemma_pow2_pos(8 * n);
    let dd = d % p;
    assert(0 <= dd < p) by { lemma_mod_bound(d, p); }
    lemma_disp_bytes_mod(d, n);
    lemma_le_unsigned_nonneg(dd, n);
    assert(dd % p == dd) by { lemma_small_mod(dd as nat, p as nat); }
}

/// The encoding has exactly `n` bytes.
pub proof fn lemma_disp_bytes_len(d: int, n: nat)
    ensures
        disp_bytes(d, n).len() == n,
    decreases n,
{
    if n > 0 {
        lemma_disp_bytes_len(d / 256, (n - 1) as nat);
    }
}

/// Reading an `n`-byte field that encodes a fitting displacement `d` as a
/// little-endian two's-complement integer yields `d` itself.
pub proof fn lemma_displacement_roundtrip(d: int, n: nat)
    requires
        disp_fits(d, n),
    ensures
        le_signed(disp_bytes(d, n)) == d,
{
    let half = pow2((8 * n - 1) as nat) as int;
    let full = pow2(8 * n) as int;
    lemma_pow2_pos(8 * n);
    lemma_pow2_pos((8 * n - 1) as nat);
    assert(full == 2 * half) by {
        lemma_pow2_adds(1, (8 * n - 1) as nat);
        assert(pow2(1) == 2) by { lemma2_to64(); }
    }
    lemma_le_unsigned_disp(d, n);
    lemma_disp_bytes_len(d, n);
    if d >= 0 {
        lemma_small_mod(d as nat, pow2(8 * n));
        assert(le_unsigned(disp_bytes(d, n)) == d);
    } else {
        assert(d % full == (full * 1 + d) % full) by {
            lemma_mod_multiples_vanish(1, d, full);
        }
        lemma_small_mod((full + d) as nat, pow2(8 * n));
        assert(le_unsigned(disp_bytes(d, n)) == d + full);
    }
}

/// Appending one more byte to the encoding of a nonnegative value extends
/// it with the next byte of the value.
proof fn lemma_disp_bytes_snoc(d: int, n: nat)
    requires
        0 <= d,
    ensures
        disp_bytes(d, n + 1) == disp_bytes(d, n) + seq![
            ((d / pow2(8 * n) as int) % 256) as u8,
        ],
    decreases n,
{
    lemma_pow2_pos(8 * n);
    if n == 0 {
        assert(pow2(0) == 1) by { lemma2_to64(); }
        assert(d / 1 == d) by { lemma_div_basics(d); }
        assert(disp_bytes(d / 256, 0) =~= Seq::<u8>::empty());
        assert(disp_bytes(d, 1) =~= disp_bytes(d, 0) + seq![((d / pow2(0) as int) % 256) as u8]);
    } else {
        assert(0 <= d / 256) by { lemma_div_pos_is_pos(d, 256); }
        lemma_disp_bytes_snoc(d / 256, (n - 1) as nat);
        lemma_pow2_pos((8 * (n - 1)) as nat);
        assert(pow2((8 * (n - 1)) as nat) * pow2(8) == pow2(8 * n)) by {
            lemma_pow2_adds((8 * (n - 1)) as nat, 8);
        }
        assert(pow2(8) == 256) by { lemma2_to64(); }
        assert((d / 256) / pow2((8 * (n - 1)) as nat) as int == d / pow2(8 * n) as int) by {
            lemma_div_denominator(d, 256, pow2((8 * (n - 1)) as nat) as int);
            lemma_mul_is_commutative(256, pow2((8 * (n - 1)) as nat) as int);
        }
        assert(disp_bytes(d, n + 1) =~= disp_bytes(d, n) + seq![
            ((d / pow2(8 * n) as int) % 256) as u8,
        ]);
    }
}

/// Compute the `size`-byte relocation field for a patch whose field ends at
/// absolute offset `end` and whose target is absolute offset `target`.
pub fn displacement_field(target: usize, end: usize, size: u8) -> (r: Vec<u8>)
    requires
        valid_size(size),
    ensures
        r@ == disp_bytes(target - end, size as nat),
        r@.len() == size as nat,
{
    let ghost d: int = target - end;
    let w_start: u64 = (target as u64).wrapping_sub(end as u64);
    proof {
        assert(pow2(64) == 0x1_0000_0000_0000_0000) by { lemma2_to64_rest(); }
        lemma_pow2_pos(64);
        assert(w_start as int == d % pow2(64) as int) by {
            if d >= 0 {
                lemma_small_mod(d as nat, pow2(64));
            } else {
                assert(d % pow2(64) as int == (pow2(64) as int * 1 + d) % pow2(64) as int) by {
                    lemma_mod_multiples_vanish(1, d, pow2(64) as int);
                }
                lemma_small_mod((d + pow2(64)) as nat, pow2(64));
            }
        }
    }
    let ghost w0: int = w_start as int;
    let mut w: u64 = w_start;
    let mut out: Vec<u8> = Vec::new();
    let mut i: u8 = 0;
    proof {
        assert(pow2(0) == 1) by { lemma2_to64(); }
        assert(w0 / 1 == w0) by { lemma_div_basics(w0); }
    }
    while i < size
        invariant
            i <= size,
            valid_size(size),
            out@.len() == i as nat,
            0 <= w0,
            w as int == w0 / pow2((8 * i) as nat) as int,
            out@ == disp_bytes(w0, i as nat),
        decreases size - i,
    {
        proof {
            lemma_pow2_pos((8 * i) as nat);
            lemma_disp_bytes_snoc(w0, i as nat);
            assert(pow2((8 * i) as nat) * pow2(8) == pow2((8 * (i + 1)) as nat)) by {
                lemma_pow2_adds((8 * i) as nat, 8);
            }
            assert(pow2(8) == 256) by { lemma2_to64(); }
            assert((w0 / pow2((8 * i) as nat) as int) / 256 == w0 / pow2(
                (8 * (i + 1)) as nat,
            ) as int) by {
                lemma_div_denominator(w0, pow2((8 * i) as nat) as int, 256);
            }
            assert(0 <= w as int);
        }
        out.push((w % 256) as u8);
        w = w / 256;
        i = i + 1;
    }
    proof {
        let n = size as nat;
        lemma_pow2_pos(8 * n);
        lemma_disp_bytes_mod(w0, n);
        lemma_disp_bytes_mod(d, n);
        assert(pow2(8 * n) * pow2((64 - 8 * n) as nat) == pow2(64)) by {
            lemma_pow2_adds(8 * n, (64 - 8 * n) as nat);
        }
        lemma_pow2_pos((64 - 8 * n) as nat);
        assert(w0 % pow2(8 * n) as int == d % pow2(8 * n) as int) by {
            lemma_mod_mod(d, pow2(8 * n) as int, pow2((64 - 8 * n) as nat) as int);
        }
        assert(w0 % pow2(64) as int == w0) by {
            lemma_small_mod(w0 as nat, pow2(64));
        }
        lemma_disp_bytes_len(d, n);
    }
    out
}

} // verus!
