//! Polynomial hashing: a whole-sequence hash and a sliding-window rolling
//! hash, both over wrapping 32-bit arithmetic.

use vstd::arithmetic::div_mod::{
    lemma_add_mod_noop, lemma_mod_bound, lemma_mod_twice, lemma_mul_mod_noop_left,
    lemma_mul_mod_noop_right, lemma_small_mod, lemma_sub_mod_noop,
};
use vstd::arithmetic::power::pow;
use vstd::prelude::*;

verus! {

/// Odd multiplier of the polynomial hash.
pub const PRIME: u32 = 0xa88d411b;

/// Width of the sliding window, in bytes.
pub const WINDOW: usize = 32;

/// `PRIME` raised to the `WINDOW`-th power, modulo `2^32`: the factor that
/// cancels the byte leaving the window (see `lemma_mul_out_is_pow`).
pub const MUL_OUT: u32 = 0xd23bdb81;

/// `x * y` reduced modulo `2^32`, as `u32::wrapping_mul` computes it.
pub open spec fn wmul(x: u32, y: u32) -> u32 {
    vstd::wrapping::u32_specs::wrapping_mul(x, y)
}

/// `x + y` reduced modulo `2^32`, as `u32::wrapping_add` computes it.
pub open spec fn wadd(x: u32, y: u32) -> u32 {
    vstd::wrapping::u32_specs::wrapping_add(x, y)
}

/// `x - y` reduced modulo `2^32`, as `u32::wrapping_sub` computes it.
pub open spec fn wsub(x: u32, y: u32) -> u32 {
    vstd::wrapping::u32_specs::wrapping_sub(x, y)
}

/// The polynomial hash of a whole byte sequence: fold `acc -> acc * PRIME + b`
/// over the bytes, modulo `2^32`.
pub open spec fn poly_hash(s: Seq<u8>) -> nat
    decreases s.len(),
{
    if s.len() == 0 {
        0
    } else {
        (poly_hash(s.drop_last()) * (PRIME as nat) + (s.last() as nat)) % 0x1_0000_0000
    }
}

/// The same polynomial fold without any reduction: the exact integer
/// `b_0 * PRIME^(n-1) + ... + b_(n-1)`.
pub open spec fn poly_val(s: Seq<u8>) -> int
    decreases s.len(),
{
    if s.len() == 0 {
        0
    } else {
        poly_val(s.drop_last()) * (PRIME as int) + (s.last() as int)
    }
}

/// `base^e` modulo `2^32`.
pub open spec fn pow_mod(base: nat, e: nat) -> nat
    decreases e,
{
    if e == 0 {
        1
    } else {
        (pow_mod(base, (e - 1) as nat) * base) % 0x1_0000_0000
    }
}

/// One update of the rolling hash: multiply the accumulator by `PRIME`,
/// cancel the byte that left the window, add the byte that entered it.
/// Kept opaque so that rolling-hash terms stay inert in callers' proofs.
#[verifier::opaque]
pub open spec fn roll_step(acc: u32, outgoing: u8, incoming: u8) -> u32 {
    wadd(wsub(wmul(acc, PRIME), wmul(outgoing as u32, MUL_OUT)), incoming as u32)
}

/// The rolling-hash accumulator after consuming byte `i` of `s`
/// (`0` before any byte was consumed).
pub open spec fn roll_acc(s: Seq<u8>, i: int) -> u32
    decreases i + 1,
{
    if i < 0 || i >= s.len() {
        0u32
    } else {
        let outgoing: u8 = if i < WINDOW as int {
            0u8
        } else {
            s[i - WINDOW as int]
        };
        roll_step(roll_acc(s, i - 1), outgoing, s[i])
    }
}

/// The window that the rolling hash covers at position `i`: the last `WINDOW`
/// bytes ending at `i`, or all bytes so far while fewer have been consumed.
pub open spec fn window_of(s: Seq<u8>, i: int) -> Seq<u8> {
    if i + 1 - WINDOW as int >= 0 {
        s.subrange(i + 1 - WINDOW as int, i + 1)
    } else {
        s.subrange(0, i + 1)
    }
}

/// The reduced fold equals the exact fold taken modulo `2^32`.
proof fn lemma_poly_hash_is_val_mod(s: Seq<u8>)
    ensures
        poly_hash(s) as int == poly_val(s) % 0x1_0000_0000,
    decreases s.len(),
{
    let m: int = 0x1_0000_0000;
    if s.len() == 0 {
        lemma_small_mod(0, 0x1_0000_0000);
    } else {
        let t = s.drop_last();
        let x: int = s.last() as int;
        lemma_poly_hash_is_val_mod(t);
        lemma_mul_mod_noop_left(poly_val(t), PRIME as int, m);
        lemma_add_mod_noop((poly_val(t) % m) * (PRIME as int), x, m);
        lemma_add_mod_noop(poly_val(t) * (PRIME as int), x, m);
        lemma_mod_bound(x, m);
        lemma_small_mod(x as nat, m as nat);
        lemma_mod_twice(poly_val(t) * (PRIME as int), m);
        assert(poly_hash(s) as int == ((poly_val(t) % m) * (PRIME as int) + x) % m);
        assert(((poly_val(t) % m) * (PRIME as int)) % m == (poly_val(t) * (PRIME as int)) % m);
    }
}

/// `pow_mod` is `pow` taken modulo `2^32`.
proof fn lemma_pow_mod_is_pow(e: nat)
    ensures
        pow_mod(PRIME as nat, e) as int == pow(PRIME as int, e) % 0x1_0000_0000,
    decreases e,
{
    reveal(pow);
    let m: int = 0x1_0000_0000;
    let p: int = PRIME as int;
    if e == 0 {
        lemma_small_mod(1, 0x1_0000_0000);
    } else {
        lemma_pow_mod_is_pow((e - 1) as nat);
        // pow recurses as p * pow(p, e-1); reorder to match pow_mod.
        assert(pow(p, e) == p * pow(p, (e - 1) as nat));
        assert(p * pow(p, (e - 1) as nat) == pow(p, (e - 1) as nat) * p) by (nonlinear_arith);
        lemma_mul_mod_noop_left(pow(p, (e - 1) as nat), p, m);
        assert(pow_mod(PRIME as nat, e) as int == ((pow(p, (e - 1) as nat) % m) * p) % m);
    }
}

/// `MUL_OUT` really is `PRIME^WINDOW mod 2^32`.
pub proof fn lemma_mul_out_is_pow()
    ensures
        pow_mod(PRIME as nat, WINDOW as nat) == MUL_OUT as nat,
{
    assert(pow_mod(PRIME as nat, 0) == 1nat);
    assert(pow_mod(PRIME as nat, 1) == 0xa88d411bnat);
    assert(pow_mod(PRIME as nat, 2) == 0x384cb8d9nat);
    assert(pow_mod(PRIME as nat, 3) == 0xa28b97e3nat);
    assert(pow_mod(PRIME as nat, 4) == 0x3650a7f1nat);
    assert(pow_mod(PRIME as nat, 5) == 0xdce2e76bnat);
    assert(pow_mod(PRIME as nat, 6) == 0x969f9349nat);
    assert(pow_mod(PRIME as nat, 7) == 0x6e6f11b3nat);
    assert(pow_mod(PRIME as nat, 8) == 0x10cc50e1nat);
    assert(pow_mod(PRIME as nat, 9) == 0xda02a8bbnat);
    assert(pow_mod(PRIME as nat, 10) == 0x521e46b9nat);
    assert(pow_mod(PRIME as nat, 11) == 0xb50b6e83nat);
    assert(pow_mod(PRIME as nat, 12) == 0xd56aead1nat);
    assert(pow_mod(PRIME as nat, 13) == 0x2502d50bnat);
    assert(pow_mod(PRIME as nat, 14) == 0x2e734329nat);
    assert(pow_mod(PRIME as nat, 15) == 0x0fca7e53nat);
    assert(pow_mod(PRIME as nat, 16) == 0x202565c1nat);
    assert(pow_mod(PRIME as nat, 17) == 0x9614bc5bnat);
    assert(pow_mod(PRIME as nat, 18) == 0x8e21f899nat);
    assert(pow_mod(PRIME as nat, 19) == 0xf1f91123nat);
    assert(pow_mod(PRIME as nat, 20) == 0x2ae5b1b1nat);
    assert(pow_mod(PRIME as nat, 21) == 0xded4aeabnat);
    assert(pow_mod(PRIME as nat, 22) == 0xecf6d709nat);
    assert(pow_mod(PRIME as nat, 23) == 0x0296f6f3nat);
    assert(pow_mod(PRIME as nat, 24) == 0x1676bea1nat);
    assert(pow_mod(PRIME as nat, 25) == 0x2b99fbfbnat);
    assert(pow_mod(PRIME as nat, 26) == 0x33774e79nat);
    assert(pow_mod(PRIME as nat, 27) == 0x5926ffc3nat);
    assert(pow_mod(PRIME as nat, 28) == 0x24747c91nat);
    assert(pow_mod(PRIME as nat, 29) == 0x2fc6f44bnat);
    assert(pow_mod(PRIME as nat, 30) == 0x5351cee9nat);
    assert(pow_mod(PRIME as nat, 31) == 0x6d7efb93nat);
    assert(pow_mod(PRIME as nat, 32) == 0xd23bdb81nat);
    assert(pow_mod(PRIME as nat, WINDOW as nat) == MUL_OUT as nat);
}

proof fn lemma_wadd_int(x: u32, y: u32)
    ensures
        wadd(x, y) as int == (x + y) % 0x1_0000_0000,
{
    if x + y > u32::MAX {
        lemma_small_mod((x + y - 0x1_0000_0000) as nat, 0x1_0000_0000);
        lemma_sub_mod_noop(x + y, 0x1_0000_0000, 0x1_0000_0000);
        lemma_small_mod(0, 0x1_0000_0000);
    } else {
        lemma_small_mod((x + y) as nat, 0x1_0000_0000);
    }
}

proof fn lemma_wsub_int(x: u32, y: u32)
    ensures
        wsub(x, y) as int == (x - y) % 0x1_0000_0000,
{
    if x - y < 0 {
        lemma_add_mod_noop(x - y, 0x1_0000_0000, 0x1_0000_0000);
        lemma_small_mod((x - y + 0x1_0000_0000) as nat, 0x1_0000_0000);
        lemma_small_mod(0, 0x1_0000_0000);
    } else {
        lemma_small_mod((x - y) as nat, 0x1_0000_0000);
    }
}

/// The three wrapping operations of one rolling-hash update compose to a
/// single reduction of `acc * PRIME - outgoing * MUL_OUT + incoming`.
proof fn lemma_roll_step_int(acc: u32, outgoing: u8, incoming: u8)
    ensures
        roll_step(acc, outgoing, incoming) as int == (acc * PRIME - outgoing * MUL_OUT
            + incoming) % 0x1_0000_0000,
{
    reveal(roll_step);
    let m: int = 0x1_0000_0000;
    let a: int = acc * PRIME;
    let b: int = (outgoing as int) * MUL_OUT;
    let ab = wsub(wmul(acc, PRIME), wmul(outgoing as u32, MUL_OUT));
    lemma_wsub_int(wmul(acc, PRIME), wmul(outgoing as u32, MUL_OUT));
    lemma_sub_mod_noop(a, b, m);
    lemma_mod_bound(a, m);
    lemma_mod_bound(b, m);
    assert(wmul(acc, PRIME) as int == a % m);
    assert(wmul(outgoing as u32, MUL_OUT) as int == b % m);
    assert(ab as int == (a % m - b % m) % m);
    assert(ab as int == (a - b) % m);
    lemma_wadd_int(ab, incoming as u32);
    lemma_add_mod_noop(a - b, incoming as int, m);
    lemma_mod_bound(incoming as int, m);
    lemma_small_mod(incoming as nat, m as nat);
    assert(roll_step(acc, outgoing, incoming) as int == ((a - b) % m + incoming as int) % m);
    assert(((a - b) % m + (incoming as int) % m) % m == (a - b + incoming) % m);
}

/// Prepending a byte adds `b * PRIME^len` to the exact polynomial value.
proof fn lemma_poly_val_cons(b: u8, t: Seq<u8>)
    ensures
        poly_val(seq![b] + t) == (b as int) * pow(PRIME as int, t.len()) + poly_val(t),
    decreases t.len(),
{
    reveal(pow);
    let p: int = PRIME as int;
    assert(poly_val(Seq::<u8>::empty()) == 0);
    if t.len() == 0 {
        assert(seq![b] + t =~= seq![b]);
        assert((seq![b]).drop_last() =~= Seq::<u8>::empty());
        assert(poly_val(seq![b]) == 0 * p + (b as int));
        assert(pow(p, 0) == 1);
    } else {
        let t0 = t.drop_last();
        let x: int = t.last() as int;
        lemma_poly_val_cons(b, t0);
        assert((seq![b] + t).drop_last() =~= seq![b] + t0);
        assert((seq![b] + t).last() == t.last());
        assert(poly_val(seq![b] + t) == ((b as int) * pow(p, t0.len()) + poly_val(t0)) * p + x);
        assert(pow(p, t.len()) == p * pow(p, t0.len()));
        assert(((b as int) * pow(p, t0.len()) + poly_val(t0)) * p == (b as int) * (p * pow(
            p,
            t0.len(),
        )) + poly_val(t0) * p) by (nonlinear_arith);
        assert(poly_val(t) == poly_val(t0) * p + x);
    }
}

/// Rolling-hash equivalence: after consuming byte `i`, the incrementally
/// maintained accumulator equals the polynomial hash, computed from scratch,
/// of the window of (up to) `WINDOW` bytes ending at `i`.
pub proof fn lemma_roll_acc_is_window_hash(s: Seq<u8>, i: int)
    requires
        0 <= i < s.len(),
    ensures
        roll_acc(s, i) as nat == poly_hash(window_of(s, i)),
    decreases i,
{
    let m: int = 0x1_0000_0000;
    let p: int = PRIME as int;
    let w: int = WINDOW as int;
    let win = window_of(s, i);
    let outgoing: u8 = if i < w {
        0u8
    } else {
        s[i - w]
    };
    lemma_roll_step_int(roll_acc(s, i - 1), outgoing, s[i]);
    lemma_poly_hash_is_val_mod(win);
    assert(poly_val(Seq::<u8>::empty()) == 0);
    if i == 0 {
        assert(win =~= seq![s[0]]);
        assert(win.drop_last() =~= Seq::<u8>::empty());
        assert(poly_val(win) == 0 * p + (s[0] as int));
        assert(roll_acc(s, 0) as int == (0 * p - 0 * (MUL_OUT as int) + s[0]) % m);
        assert(roll_acc(s, 0) as int == poly_val(win) % m);
    } else if i < w {
        lemma_roll_acc_is_window_hash(s, i - 1);
        lemma_poly_hash_is_val_mod(window_of(s, i - 1));
        let prev = window_of(s, i - 1);
        assert(win.drop_last() =~= prev);
        assert(win.last() == s[i]);
        let h0: int = roll_acc(s, i - 1) as int;
        assert(h0 == poly_val(prev) % m);
        assert(roll_acc(s, i) as int == (h0 * p - 0 * (MUL_OUT as int) + s[i]) % m);
        assert(roll_acc(s, i) as int == (h0 * p + s[i]) % m);
        assert(((poly_val(prev) % m) * p + s[i]) % m == (poly_val(prev) * p + s[i]) % m) by {
            lemma_mul_mod_noop_left(poly_val(prev), p, m);
            lemma_add_mod_noop((poly_val(prev) % m) * p, s[i] as int, m);
            lemma_add_mod_noop(poly_val(prev) * p, s[i] as int, m);
            lemma_mod_twice(poly_val(prev) * p, m);
        }
        assert(poly_val(win) == poly_val(prev) * p + s[i]);
    } else {
        lemma_roll_acc_is_window_hash(s, i - 1);
        lemma_poly_hash_is_val_mod(window_of(s, i - 1));
        let prev = window_of(s, i - 1);  // s[i-w .. i], length w
        let ext = s.subrange(i - w, i + 1);  // length w + 1
        let c: int = s[i - w] as int;
        assert(ext =~= seq![s[i - w]] + win);
        lemma_poly_val_cons(s[i - w], win);
        assert(win.len() == w);
        let pw: int = pow(p, WINDOW as nat);
        assert(poly_val(ext) == c * pw + poly_val(win));
        assert(ext.drop_last() =~= prev);
        assert(ext.last() == s[i]);
        assert(poly_val(ext) == poly_val(prev) * p + s[i]);
        // So, exactly over the integers:
        assert(poly_val(win) == poly_val(prev) * p + s[i] - c * pw);
        let h0: int = roll_acc(s, i - 1) as int;
        assert(h0 == poly_val(prev) % m);
        assert(roll_acc(s, i) as int == (h0 * p - c * (MUL_OUT as int) + s[i]) % m);
        // Replace the reduced accumulator by the exact polynomial value.
        assert((h0 * p - c * (MUL_OUT as int) + s[i]) % m == (poly_val(prev) * p - c * (
        MUL_OUT as int) + s[i]) % m) by {
            lemma_mul_mod_noop_left(poly_val(prev), p, m);
            lemma_add_mod_noop((poly_val(prev) % m) * p, s[i] - c * (MUL_OUT as int), m);
            lemma_add_mod_noop(poly_val(prev) * p, s[i] - c * (MUL_OUT as int), m);
            lemma_mod_twice(poly_val(prev) * p, m);
            assert(h0 * p == (poly_val(prev) % m) * p);
            assert(h0 * p - c * (MUL_OUT as int) + s[i] == (poly_val(prev) % m) * p + (s[i] - c
                * (MUL_OUT as int)));
        }
        // Replace the reduced power MUL_OUT by the exact power of PRIME.
        assert((poly_val(prev) * p - c * (MUL_OUT as int) + s[i]) % m == (poly_val(prev) * p - c
            * pw + s[i]) % m) by {
            lemma_mul_out_is_pow();
            lemma_pow_mod_is_pow(WINDOW as nat);
            assert(MUL_OUT as int == pw % m);
            lemma_mul_mod_noop_right(c, pw, m);
            assert((c * (pw % m)) % m == (c * pw) % m);
            lemma_sub_mod_noop(poly_val(prev) * p + s[i], c * (pw % m), m);
            lemma_sub_mod_noop(poly_val(prev) * p + s[i], c * pw, m);
            lemma_mod_twice(c * pw, m);
            lemma_mod_twice(c * (pw % m), m);
            lemma_mod_twice(poly_val(prev) * p + s[i], m);
            assert(poly_val(prev) * p - c * (MUL_OUT as int) + s[i] == (poly_val(prev) * p
                + s[i]) - c * (pw % m));
            assert(poly_val(prev) * p - c * pw + s[i] == (poly_val(prev) * p + s[i]) - c * pw);
        }
        assert(roll_acc(s, i) as int == poly_val(win) % m);
    }
}

/// Hashes a whole byte sequence with the non-rolling polynomial hash; used
/// to derive the pseudo-random activation order of the simulation.
pub fn polynomial_hash(input: &[u8]) -> (r: u32)
    ensures
        r as nat == poly_hash(input@),
{
    let mut acc: u32 = 0;
    let mut j: usize = 0;
    while j < input.len()
        invariant
            0 <= j <= input@.len(),
            acc as nat == poly_hash(input@.take(j as int)),
        decreases input@.len() - j,
    {
        let b = input[j];
        proof {
            let m: int = 0x1_0000_0000;
            let pre = input@.take(j as int);
            let post = input@.take(j + 1);
            assert(post.drop_last() =~= pre);
            assert(post.last() == input@[j as int]);
            lemma_wadd_int(wmul(acc, PRIME), b as u32);
            lemma_mul_mod_noop_left(acc as int, PRIME as int, m);
            lemma_add_mod_noop((acc as int) * (PRIME as int), b as int, m);
            lemma_mod_bound(b as int, m);
            lemma_small_mod(b as nat, m as nat);
            assert(wadd(wmul(acc, PRIME), b as u32) as int == ((acc as int) * (PRIME as int)
                + b as int) % m);
        }
        acc = acc.wrapping_mul(PRIME).wrapping_add(b as u32);
        j = j + 1;
    }
    proof {
        assert(input@.take(input@.len() as int) =~= input@);
    }
    acc
}

/// Produces one rolling-hash value per input byte: entry `i` is the hash of
/// the window ending at byte `i`.
pub fn rolling_hash(input: &[u8]) -> (r: Vec<u32>)
    ensures
        r@.len() == input@.len(),
        forall|i: int| 0 <= i < input@.len() ==> r@[i] == roll_acc(input@, i),
{
    let mut r: Vec<u32> = Vec::new();
    let mut acc: u32 = 0;
    let mut i: usize = 0;
    while i < input.len()
        invariant
            0 <= i <= input@.len(),
            r@.len() == i,
            forall|j: int| 0 <= j < i ==> r@[j] == roll_acc(input@, j),
            acc == roll_acc(input@, i - 1),
        decreases input@.len() - i,
    {
        let outgoing: u8 = if i < WINDOW {
            0u8
        } else {
            input[i - WINDOW]
        };
        let b = input[i];
        acc = acc.wrapping_mul(PRIME).wrapping_sub((outgoing as u32).wrapping_mul(MUL_OUT))
            .wrapping_add(b as u32);
        proof {
            reveal(roll_step);
            assert(acc == roll_step(roll_acc(input@, i - 1), outgoing, b));
            assert(acc == roll_acc(input@, i as int));
        }
        r.push(acc);
        i = i + 1;
    }
    r
}

} // verus!
