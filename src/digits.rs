//! Natural numbers of any size, written as digits in a base `b`, lowest
//! digit first: enough to multiply by machine integers and to divide by a
//! power of the base.
use vstd::prelude::*;

verus! {

/// `b` to the power `k`.
pub open spec fn pw(b: nat, k: nat) -> nat
    decreases k,
{
    if k == 0 {
        1
    } else {
        b * pw(b, (k - 1) as nat)
    }
}

/// The number that the digits `ds` stand for in base `b`.
pub open spec fn val(ds: Seq<usize>, b: nat) -> nat
    decreases ds.len(),
{
    if ds.len() == 0 {
        0
    } else {
        (ds[0] + b * val(ds.drop_first(), b)) as nat
    }
}

/// Every digit is below the base.
pub open spec fn digits_ok(ds: Seq<usize>, b: nat) -> bool {
    forall|i: int| 0 <= i < ds.len() ==> (#[trigger] ds[i]) < b
}

pub proof fn lemma_pw_pos(b: nat, k: nat)
    requires
        b >= 1,
    ensures
        pw(b, k) >= 1,
    decreases k,
{
    if k > 0 {
        lemma_pw_pos(b, (k - 1) as nat);
        assert(b * pw(b, (k - 1) as nat) >= 1) by (nonlinear_arith)
            requires b >= 1, pw(b, (k - 1) as nat) >= 1;
    }
}

pub proof fn lemma_pw_mono(b: nat, j: nat, k: nat)
    requires
        b >= 1,
        j <= k,
    ensures
        pw(b, j) <= pw(b, k),
    decreases k,
{
    if j < k {
        lemma_pw_mono(b, j, (k - 1) as nat);
        lemma_pw_pos(b, (k - 1) as nat);
        assert(pw(b, (k - 1) as nat) <= b * pw(b, (k - 1) as nat)) by (nonlinear_arith)
            requires b >= 1;
    }
}

pub proof fn lemma_val_push(ds: Seq<usize>, b: nat, x: usize)
    ensures
        val(ds.push(x), b) == val(ds, b) + pw(b, ds.len()) * x,
    decreases ds.len(),
{
    if ds.len() == 0 {
        assert(ds.push(x).drop_first() =~= Seq::<usize>::empty());
        assert(val(Seq::<usize>::empty(), b) == 0);
        assert(ds.push(x)[0] == x);
        assert(val(ds.push(x), b) == x + b * val(Seq::<usize>::empty(), b));
        assert(pw(b, 0) == 1);
    } else {
        assert(ds.push(x).drop_first() =~= ds.drop_first().push(x));
        lemma_val_push(ds.drop_first(), b, x);
        let t = val(ds.drop_first(), b);
        let p = pw(b, (ds.len() - 1) as nat);
        assert(ds.push(x)[0] == ds[0]);
        assert(pw(b, ds.len()) == b * p);
        assert(val(ds.push(x), b) == ds[0] + b * val(ds.drop_first().push(x), b));
        assert(val(ds, b) == ds[0] + b * t);
        assert(b * (t + p * x) == b * t + (b * p) * x) by (nonlinear_arith);
    }
}

pub proof fn lemma_val_bound(ds: Seq<usize>, b: nat)
    requires
        digits_ok(ds, b),
        b >= 1,
    ensures
        val(ds, b) < pw(b, ds.len()),
    decreases ds.len(),
{
    if ds.len() > 0 {
        let t = ds.drop_first();
        assert(digits_ok(t, b)) by {
            assert forall|i: int| 0 <= i < t.len() implies (#[trigger] t[i]) < b by {
                assert(t[i] == ds[i + 1]);
            }
        }
        lemma_val_bound(t, b);
        let v = val(t, b);
        let p = pw(b, t.len());
        assert(ds[0] < b);
        assert(ds[0] + b * v < b * p) by (nonlinear_arith)
            requires ds[0] < b, v < p, v >= 0;
    }
}

/// The digits below position `n` and from `n` on make up the number.
pub proof fn lemma_val_split(ds: Seq<usize>, b: nat, n: int)
    requires
        0 <= n <= ds.len(),
    ensures
        val(ds, b) == val(ds.subrange(0, n), b) + pw(b, n as nat) * val(ds.subrange(n, ds.len() as int), b),
    decreases n,
{
    if n == 0 {
        assert(ds.subrange(0, 0) =~= Seq::<usize>::empty());
        assert(ds.subrange(0, ds.len() as int) =~= ds);
        assert(val(Seq::<usize>::empty(), b) == 0);
        assert(pw(b, 0) == 1);
        assert(val(ds.subrange(0, n), b) == 0);
        assert(val(ds.subrange(n, ds.len() as int), b) == val(ds, b));
        assert(val(ds, b) == val(ds.subrange(0, n), b) + pw(b, n as nat) * val(ds.subrange(n, ds.len() as int), b)) by (nonlinear_arith)
            requires val(ds.subrange(0, n), b) == 0, pw(b, n as nat) == 1, val(ds.subrange(n, ds.len() as int), b) == val(ds, b);
    } else {
        let t = ds.drop_first();
        lemma_val_split(t, b, n - 1);
        assert(t.subrange(0, n - 1) =~= ds.subrange(0, n).drop_first());
        assert(t.subrange(n - 1, t.len() as int) =~= ds.subrange(n, ds.len() as int));
        let lo = val(t.subrange(0, n - 1), b);
        let hi = val(ds.subrange(n, ds.len() as int), b);
        let p = pw(b, (n - 1) as nat);
        assert(pw(b, n as nat) == b * p);
        assert(ds.subrange(0, n)[0] == ds[0]);
        assert(val(ds.subrange(0, n), b) == ds[0] + b * lo);
        assert(val(ds, b) == ds[0] + b * val(t, b));
        let vt = val(t, b);
        assert(vt == lo + p * hi);
        assert(val(ds, b) == val(ds.subrange(0, n), b) + pw(b, n as nat) * hi) by (nonlinear_arith)
            requires val(ds, b) == ds[0] + b * vt, vt == lo + p * hi, val(ds.subrange(0, n), b) == ds[0] + b * lo,
                pw(b, n as nat) == b * p;
    }
}

/// Dividing by `b^n` keeps the digits from `n` on.
pub proof fn lemma_val_div(ds: Seq<usize>, b: nat, n: int)
    requires
        0 <= n <= ds.len(),
        digits_ok(ds, b),
        b >= 1,
    ensures
        val(ds, b) / pw(b, n as nat) == val(ds.subrange(n, ds.len() as int), b),
{
    lemma_val_split(ds, b, n);
    let lo = ds.subrange(0, n);
    assert(digits_ok(lo, b)) by {
        assert forall|i: int| 0 <= i < lo.len() implies (#[trigger] lo[i]) < b by {
            assert(lo[i] == ds[i]);
        }
    }
    lemma_val_bound(lo, b);
    lemma_pw_pos(b, n as nat);
    let p = pw(b, n as nat);
    let hi = val(ds.subrange(n, ds.len() as int), b);
    assert(lo.len() == n);
    vstd::arithmetic::div_mod::lemma_fundamental_div_mod_converse(
        val(ds, b) as int,
        p as int,
        hi as int,
        val(lo, b) as int,
    );
}

/// `ds` times `f`, in base `b`.
pub fn times(ds: &Vec<usize>, b: usize, f: usize) -> (r: Vec<usize>)
    requires
        b >= 2,
        digits_ok(ds@, b as nat),
    ensures
        digits_ok(r@, b as nat),
        val(r@, b as nat) == val(ds@, b as nat) * f,
{
    let ghost bb = b as nat;
    let mut out: Vec<usize> = Vec::new();
    let mut carry: u128 = 0;
    let mut k: usize = 0;
    assert(ds@.subrange(0, 0) =~= Seq::<usize>::empty());
    assert(val(Seq::<usize>::empty(), bb) == 0);
    assert(pw(bb, 0) == 1);
    while k < ds.len()
        invariant
            b >= 2,
            bb == b as nat,
            k <= ds@.len(),
            digits_ok(ds@, bb),
            digits_ok(out@, bb),
            out@.len() == k,
            carry <= f,
            val(out@, bb) + pw(bb, k as nat) * carry == val(ds@.subrange(0, k as int), bb) * f,
        decreases ds@.len() - k,
    {
        let d = ds[k];
        proof {
            assert(d < b);
            assert((f as int) * (d as int) + (carry as int) <= (f as int) * (b as int)) by (nonlinear_arith)
                requires d < b, carry <= f;
            assert((f as int) * (b as int) <= 0xffff_ffff_ffff_ffff * 0xffff_ffff_ffff_ffff) by (nonlinear_arith)
                requires f as int <= 0xffff_ffff_ffff_ffff, b as int <= 0xffff_ffff_ffff_ffff;
        }
        let x: u128 = (f as u128) * (d as u128) + carry;
        let digit = (x % (b as u128)) as usize;
        let ghost o0 = out@;
        out.push(digit);
        proof {
            let c2 = x / (b as u128);
            assert(c2 <= f) by (nonlinear_arith)
                requires x <= (f as int) * (b as int), b >= 2, c2 == x / (b as u128);
            lemma_val_push(o0, bb, digit);
            lemma_val_push(ds@.subrange(0, k as int), bb, d);
            assert(ds@.subrange(0, k + 1) =~= ds@.subrange(0, k as int).push(d));
            let p = pw(bb, k as nat);
            assert(pw(bb, (k + 1) as nat) == bb * p);
            assert(x == (x % (b as u128)) + (b as u128) * c2) by (nonlinear_arith)
                requires b >= 2, c2 == x / (b as u128);
            let vo = val(o0, bb);
            let vd = val(ds@.subrange(0, k as int), bb);
            assert(vo + p * (x % (b as u128)) + (bb * p) * c2 == (vd + p * d) * f) by (nonlinear_arith)
                requires vo + p * carry == vd * f, x == (f as int) * (d as int) + carry,
                    x == (x % (b as u128)) + (b as u128) * c2, bb == b;
            assert(digits_ok(out@, bb)) by {
                assert forall|i: int| 0 <= i < out@.len() implies (#[trigger] out@[i]) < bb by {
                    if i < o0.len() {
                        assert(out@[i] == o0[i]);
                    }
                }
            }
        }
        carry = x / (b as u128);
        k = k + 1;
    }
    assert(ds@.subrange(0, k as int) =~= ds@);
    while carry > 0
        invariant
            b >= 2,
            bb == b as nat,
            digits_ok(out@, bb),
            carry <= f,
            val(out@, bb) + pw(bb, out@.len()) * carry == val(ds@, bb) * f,
        decreases carry,
    {
        let digit = (carry % (b as u128)) as usize;
        let ghost o0 = out@;
        out.push(digit);
        proof {
            let c2 = carry / (b as u128);
            lemma_val_push(o0, bb, digit);
            let p = pw(bb, o0.len());
            assert(pw(bb, (o0.len() + 1) as nat) == bb * p);
            assert(carry == (carry % (b as u128)) + (b as u128) * c2) by (nonlinear_arith)
                requires b >= 2, c2 == carry / (b as u128);
            let vo = val(o0, bb);
            assert(vo + p * (carry % (b as u128)) + (bb * p) * c2 == vo + p * carry) by (nonlinear_arith)
                requires carry == (carry % (b as u128)) + (b as u128) * c2, bb == b;
            assert(c2 < carry) by (nonlinear_arith)
                requires b >= 2, carry > 0, c2 == carry / (b as u128);
            assert(digits_ok(out@, bb)) by {
                assert forall|i: int| 0 <= i < out@.len() implies (#[trigger] out@[i]) < bb by {
                    if i < o0.len() {
                        assert(out@[i] == o0[i]);
                    }
                }
            }
        }
        carry = carry / (b as u128);
    }
    out
}

/// The number that the digits of `ds` from position `n` on stand for,
/// where it is at most `bound`.
pub fn high_value(ds: &Vec<usize>, b: usize, n: usize, bound: usize) -> (r: usize)
    requires
        b >= 2,
        digits_ok(ds@, b as nat),
        n <= ds@.len(),
        val(ds@.subrange(n as int, ds@.len() as int), b as nat) <= bound,
    ensures
        r == val(ds@.subrange(n as int, ds@.len() as int), b as nat),
{
    let ghost bb = b as nat;
    let ghost top = ds@.subrange(n as int, ds@.len() as int);
    let mut v: u128 = 0;
    let mut j: usize = ds.len();
    assert(ds@.subrange(j as int, ds@.len() as int) =~= Seq::<usize>::empty());
    while j > n
        invariant
            b >= 2,
            bb == b as nat,
            n <= j <= ds@.len(),
            top == ds@.subrange(n as int, ds@.len() as int),
            val(top, bb) <= bound,
            v == val(ds@.subrange(j as int, ds@.len() as int), bb),
            v <= bound,
        decreases j,
    {
        j = j - 1;
        let ghost tail = ds@.subrange(j as int, ds@.len() as int);
        assert(tail.drop_first() =~= ds@.subrange(j + 1, ds@.len() as int));
        proof {
            assert(v * (b as u128) <= 0xffff_ffff_ffff_ffff * 0xffff_ffff_ffff_ffffu128) by (nonlinear_arith)
                requires v as int <= 0xffff_ffff_ffff_ffff, b as int <= 0xffff_ffff_ffff_ffff;
            lemma_val_split(top, bb, j - n);
            assert(top.subrange(j - n, top.len() as int) =~= tail);
            lemma_pw_pos(bb, (j - n) as nat);
            let lo = val(top.subrange(0, j - n), bb);
            let p = pw(bb, (j - n) as nat);
            assert(val(tail, bb) <= val(top, bb)) by (nonlinear_arith)
                requires val(top, bb) == lo + p * val(tail, bb), p >= 1, lo >= 0;
        }
        assert(val(tail, bb) == tail[0] + bb * val(tail.drop_first(), bb));
        assert(tail[0] == ds@[j as int]);
        let ghost v0 = v;
        let d = ds[j];
        v = v * (b as u128) + (d as u128);
        assert(v == d + bb * v0) by (nonlinear_arith)
            requires v == v0 * b + d, bb == b;
        assert(v == val(tail, bb));
    }
    assert(ds@.subrange(j as int, ds@.len() as int) =~= top);
    v as usize
}

} // verus!
