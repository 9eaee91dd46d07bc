use vstd::arithmetic::div_mod::*;
use vstd::arithmetic::power2::*;
use vstd::prelude::*;

verus! {

/// The lower index of the pair that work-item `i` updates for target qubit `t`: the bits of
/// `i` below `t` stay, the bits from `t` up move one place up, and bit `t` is 0.
pub open spec fn pair_base(i: nat, t: nat) -> nat {
    (i / pow2(t)) * pow2(t + 1) + i % pow2(t)
}

/// The work-item whose pair holds the amplitude `k`: bit `t` of `k` dropped.
pub open spec fn pair_owner(k: nat, t: nat) -> nat {
    (k / pow2(t + 1)) * pow2(t) + k % pow2(t)
}

proof fn lemma_pow2_facts(t: nat)
    ensures
        pow2(t) > 0,
        pow2(t + 1) == 2 * pow2(t),
{
    lemma_pow2_pos(t);
    lemma_pow2_unfold(t + 1);
}

/// The pair of work-item `i` is `pair_base(i, t)` and `pair_base(i, t) + 2^t`; both belong
/// to `i` and to no other work-item, and every amplitude belongs to the pair of its owner.
/// So the work-items of one launch write disjoint pairs that cover the whole buffer.
pub proof fn lemma_pairs_partition(i: nat, k: nat, t: nat)
    ensures
        pair_owner(pair_base(i, t), t) == i,
        pair_owner(pair_base(i, t) + pow2(t), t) == i,
        (pair_base(i, t) / pow2(t)) % 2 == 0,
        k == pair_base(pair_owner(k, t), t) || k == pair_base(pair_owner(k, t), t) + pow2(t),
{
    lemma_pow2_facts(t);
    let p = pow2(t) as int;
    let q = i as int / p;
    let r = i as int % p;
    lemma_fundamental_div_mod(i as int, p);
    lemma_mod_bound(i as int, p);
    let b = q * (2 * p) + r;
    // pair_base(i) = q * 2p + r with 0 <= r < p
    assert(pair_base(i, t) == b);
    lemma_div_mul_plus_rem(q, 2 * p, r);
    lemma_div_mul_plus_rem(q, 2 * p, r + p);
    lemma_mod_mul_plus_rem(2 * q, p, r);
    lemma_mod_mul_plus_rem(2 * q + 1, p, r);
    assert(b == (2 * q) * p + r) by (nonlinear_arith)
        requires
            b == q * (2 * p) + r,
    ;
    assert(b + p == (2 * q + 1) * p + r) by (nonlinear_arith)
        requires
            b == q * (2 * p) + r,
    ;
    lemma_div_mul_plus_rem(2 * q, p, r);
    assert(pair_owner(b as nat, t) == q * p + r);
    assert(pair_owner((b + p) as nat, t) == q * p + r);
    assert(q * p + r == i) by (nonlinear_arith)
        requires
            i == p * q + r,
    ;
    // any k: split off bit t
    let kk = k as int;
    let hq = kk / (2 * p);
    let hr = kk % (2 * p);
    lemma_fundamental_div_mod(kk, 2 * p);
    lemma_mod_bound(kk, 2 * p);
    let lr = hr % p;
    lemma_fundamental_div_mod(hr, p);
    lemma_mod_bound(hr, p);
    // k % p == hr % p
    lemma_mod_mod(kk, p, 2);
    assert(kk % p == lr) by {
        assert(2 * p == p * 2) by (nonlinear_arith);
        lemma_mod_mod(kk, p, 2);
    }
    let o = hq * p + lr;
    assert(pair_owner(k, t) == o);
    lemma_div_mul_plus_rem(hq, p, lr);
    lemma_mod_mul_plus_rem(hq, p, lr);
    assert(o / p == hq);
    assert(o % p == lr);
    assert(pair_base(o as nat, t) == hq * (2 * p) + lr);
    if hr < p {
        lemma_small_mod(hr as nat, p as nat);
        assert(kk == hq * (2 * p) + lr) by (nonlinear_arith)
            requires
                kk == (2 * p) * hq + hr,
                hr == lr,
        ;
    } else {
        assert(hr / p == 1) by {
            lemma_div_mul_plus_rem(1, p, hr - p);
        }
        assert(kk == hq * (2 * p) + lr + p) by (nonlinear_arith)
            requires
                kk == (2 * p) * hq + hr,
                hr == p * (hr / p) + lr,
                hr / p == 1,
        ;
    }
}

/// The pair of amplitudes that work-item `i` updates when a gate acts on qubit `t`:
/// `(base, base + 2^t)`, where bit `t` of `base` is 0 and the other bits come from `i`.
pub fn pair_indices(i: u64, t: u8) -> (r: (u64, u64))
    requires
        t < 64,
        i < pow2(63),
    ensures
        r.0 == pair_base(i as nat, t as nat),
        r.1 == r.0 + pow2(t as nat),
{
    proof {
        lemma2_to64();
        lemma2_to64_rest();
        lemma_pow2_facts(t as nat);
        if t < 63 {
            lemma_pow2_strictly_increases(t as nat, 63);
        }
        vstd::bits::lemma_u64_shl_is_mul(1, t as u64);
    }
    let p: u64 = 1u64 << (t as u64);
    let q = i / p;
    let r = i % p;
    proof {
        let e = (63 - t) as nat;
        lemma_pow2_adds(e, t as nat);
        assert(pow2(63) == pow2(e) * p);
        lemma_fundamental_div_mod(i as int, p as int);
        lemma_mod_bound(i as int, p as int);
        assert(q < pow2(e)) by (nonlinear_arith)
            requires
                i == p * q + r,
                0 <= r,
                i < pow2(e) * p,
                p > 0,
        ;
        assert((q + 1) * (2 * p) <= pow2(e) * p * 2) by (nonlinear_arith)
            requires
                q + 1 <= pow2(e),
                p > 0,
        ;
        assert(q * (2 * p) + r + p < (q + 1) * (2 * p)) by (nonlinear_arith)
            requires
                r < p,
        ;
        assert(q * p <= i) by (nonlinear_arith)
            requires
                i == p * q + r,
                0 <= r,
        ;
        assert((q * p) * 2 == q * (2 * p)) by (nonlinear_arith);
    }
    let base = (q * p) * 2 + r;
    (base, base + p)
}

/// Whether the qubit `c` is 1 in the basis state `base`: the condition of a controlled update.
pub fn control_set(base: u64, c: u8) -> (r: bool)
    requires
        c < 64,
    ensures
        r == ((base as nat / pow2(c as nat)) % 2 == 1),
{
    proof {
        vstd::bits::lemma_u64_shr_is_div(base, c as u64);
    }
    let shifted = base >> (c as u64);
    assert((shifted & 1 == 1) == (shifted % 2 == 1)) by (bit_vector);
    shifted & 1 == 1
}

proof fn lemma_mod_bound(x: int, m: int)
    requires
        x >= 0,
        m > 0,
    ensures
        0 <= x % m < m,
        x / m >= 0,
{
    lemma_mod_pos_bound(x, m);
    lemma_div_pos_is_pos(x, m);
}

proof fn lemma_div_mul_plus_rem(q: int, d: int, r: int)
    requires
        q >= 0,
        d > 0,
        0 <= r < d,
    ensures
        (q * d + r) / d == q,
{
    lemma_fundamental_div_mod_converse_div(q * d + r, d, q, r);
}

proof fn lemma_mod_mul_plus_rem(q: int, d: int, r: int)
    requires
        q >= 0,
        d > 0,
        0 <= r < d,
    ensures
        (q * d + r) % d == r,
{
    lemma_fundamental_div_mod_converse_mod(q * d + r, d, q, r);
}

} // verus!
