//! Shamir secret sharing over the BN254 scalar field.
//!
//! A secret `s` is split by drawing a random degree-`t` polynomial `f` with
//! `f(0) = s` and handing party `i` the evaluation `(i + 1, f(i + 1))`.
//! Any `t + 1` shares with pairwise distinct x-coordinates recover `f(0)`
//! by Lagrange interpolation at `x = 0`.

use vstd::prelude::*;
use vstd::arithmetic::div_mod::{
    lemma_add_mod_noop, lemma_add_mod_noop_right, lemma_mod_self_0, lemma_mul_mod_noop_left,
    lemma_mul_mod_noop_right, lemma_small_mod,
};
use vstd::arithmetic::mul::{
    lemma_mul_is_associative, lemma_mul_is_commutative, lemma_mul_is_distributive_add_other_way,
};
use crate::field::{
    p, scalar_add, scalar_from_u64, scalar_inv, scalar_mul, scalar_random, scalar_sub,
    scalar_zero, Scalar,
};
use crate::field::lemma_val_injective;
use crate::MpcError;

verus! {

/// One Shamir share: an evaluation point `(x, f(x))` of the sharing
/// polynomial. `x` is never zero, since `f(0)` is the secret itself.
#[derive(Clone, Copy, Debug, PartialEq, Eq, Structural)]
pub struct Share {
    pub x: Scalar,
    pub value: Scalar,
}

impl Share {
    /// Both coordinates are canonical field elements.
    pub open spec fn wf(self) -> bool {
        self.x.wf() && self.value.wf()
    }
}

/// Every share of the sequence is well formed.
pub open spec fn shares_wf(s: Seq<Share>) -> bool {
    forall|i: int| 0 <= i < s.len() ==> (#[trigger] s[i]).wf()
}

/// The x-coordinates of a share sequence, as field values.
pub open spec fn share_xs(s: Seq<Share>) -> Seq<int> {
    s.map_values(|sh: Share| sh.x.val())
}

/// The y-coordinates of a share sequence, as field values.
pub open spec fn share_ys(s: Seq<Share>) -> Seq<int> {
    s.map_values(|sh: Share| sh.value.val())
}

/// A coefficient vector of a degree-`t` sharing polynomial for `secret`:
/// `t + 1` coefficients, constant term equal to the secret, all reduced mod p.
pub open spec fn poly_wf(coeffs: Seq<int>, secret: int, t: int) -> bool {
    &&& coeffs.len() == t + 1
    &&& coeffs[0] == secret
    &&& forall|j: int| 0 <= j < coeffs.len() ==> 0 <= #[trigger] coeffs[j] < p()
}

/// Evaluation mod p of the polynomial with coefficient sequence `coeffs`
/// (constant term first) at the point `x`, in Horner form.
pub open spec fn poly_eval(coeffs: Seq<int>, x: int) -> int
    decreases coeffs.len(),
{
    if coeffs.len() == 0 {
        0
    } else {
        (coeffs[0] + x * poly_eval(coeffs.subrange(1, coeffs.len() as int), x)) % p()
    }
}

/// Field subtraction of canonical values: `a - b` mod p, kept non-negative.
pub open spec fn sub_p(a: int, b: int) -> int {
    (a + p() - b) % p()
}

/// Partial numerator of the `i`-th Lagrange basis polynomial at `x = 0`:
/// the product mod p of `xs[j]` over `j < k`, `j != i`.
pub open spec fn lag_num_k(xs: Seq<int>, i: int, k: int) -> int
    decreases k,
{
    if k <= 0 {
        1
    } else if k - 1 == i {
        lag_num_k(xs, i, k - 1)
    } else {
        (lag_num_k(xs, i, k - 1) * xs[k - 1]) % p()
    }
}

/// Partial denominator of the `i`-th Lagrange basis polynomial at `x = 0`:
/// the product mod p of `xs[j] - xs[i]` over `j < k`, `j != i`.
pub open spec fn lag_den_k(xs: Seq<int>, i: int, k: int) -> int
    decreases k,
{
    if k <= 0 {
        1
    } else if k - 1 == i {
        lag_den_k(xs, i, k - 1)
    } else {
        (lag_den_k(xs, i, k - 1) * sub_p(xs[k - 1], xs[i])) % p()
    }
}

/// The multiplicative inverse of `a` mod p, as the unique `b` in `[0, p)`
/// with `a * b = 1` mod p (arbitrary if none exists, e.g. for `a = 0`).
pub open spec fn inv_p(a: int) -> int {
    choose|b: int| 0 <= b < p() && #[trigger] ((a * b) % p()) == 1
}

/// The `i`-th Lagrange basis polynomial of the points `xs`, evaluated at zero.
pub open spec fn lag_basis(xs: Seq<int>, i: int) -> int {
    (lag_num_k(xs, i, xs.len() as int) * inv_p(lag_den_k(xs, i, xs.len() as int))) % p()
}

/// Partial Lagrange interpolation sum at `x = 0` over the first `k` points.
pub open spec fn lag_sum_k(xs: Seq<int>, ys: Seq<int>, k: int) -> int
    decreases k,
{
    if k <= 0 {
        0
    } else {
        (lag_sum_k(xs, ys, k - 1) + ys[k - 1] * lag_basis(xs, k - 1)) % p()
    }
}

/// Lagrange interpolation of the points `(xs[i], ys[i])` at `x = 0`, mod p:
/// the value `sum_i ys[i] * prod_{j != i} xs[j] / (xs[j] - xs[i])`.
pub open spec fn lagrange_at_zero(xs: Seq<int>, ys: Seq<int>) -> int {
    lag_sum_k(xs, ys, xs.len() as int)
}

/// Inverses mod p are unique: any witness in `[0, p)` is the chosen one.
pub proof fn lemma_inv_p_unique(a: int, b: int)
    requires
        0 <= b < p(),
        (a * b) % p() == 1,
    ensures
        inv_p(a) == b,
{
    assert(0 <= b < p() && (a * b) % p() == 1);
    let c = inv_p(a);
    assert(0 <= c < p() && (a * c) % p() == 1);
    assert((b * (a * c)) % p() == (b * 1) % p()) by {
        lemma_mul_mod_noop_right(b, a * c, p());
    }
    assert(b * (a * c) == (a * b) * c) by {
        lemma_mul_is_associative(b, a, c);
        lemma_mul_is_commutative(b, a);
    }
    assert(((a * b) * c) % p() == (1 * c) % p()) by {
        lemma_mul_mod_noop_left(a * b, c, p());
    }
    assert(b % p() == b) by {
        lemma_small_mod(b as nat, p() as nat);
    }
    assert(c % p() == c) by {
        lemma_small_mod(c as nat, p() as nat);
    }
}

/// Splits `secret` into `n` shares of a fresh random degree-`t` polynomial
/// `f` with `f(0) = secret`: share `i` is the point `(i + 1, f(i + 1))`.
pub fn shamir_share(secret: Scalar, t: usize, n: usize) -> (r: Vec<Share>)
    requires
        secret.wf(),
        t < n,
    ensures
        r@.len() == n,
        shares_wf(r@),
        forall|i: int| 0 <= i < n ==> (#[trigger] r@[i]).x.val() == i + 1,
        exists|coeffs: Seq<int>|
            #[trigger] poly_wf(coeffs, secret.val(), t as int)
            && forall|i: int| 0 <= i < n ==> (#[trigger] r@[i]).value.val() == poly_eval(coeffs, i + 1),
{
    let mut coeffs: Vec<Scalar> = Vec::new();
    coeffs.push(secret);
    let mut k: usize = 0;
    while k < t
        invariant
            coeffs@.len() == k + 1,
            coeffs@[0] == secret,
            forall|j: int| 0 <= j < coeffs@.len() ==> (#[trigger] coeffs@[j]).wf(),
            k <= t,
        decreases t - k,
    {
        let c = scalar_random();
        coeffs.push(c);
        k += 1;
    }
    let ghost cvals: Seq<int> = coeffs@.map_values(|c: Scalar| c.val());
    proof {
        assert(poly_wf(cvals, secret.val(), t as int));
    }
    let mut shares: Vec<Share> = Vec::new();
    let mut i: usize = 0;
    while i < n
        invariant
            t < n,
            coeffs@.len() == t + 1,
            forall|j: int| 0 <= j < coeffs@.len() ==> (#[trigger] coeffs@[j]).wf(),
            cvals == coeffs@.map_values(|c: Scalar| c.val()),
            shares@.len() == i,
            i <= n,
            shares_wf(shares@),
            forall|j: int| 0 <= j < i ==> (#[trigger] shares@[j]).x.val() == j + 1,
            forall|j: int| 0 <= j < i ==> (#[trigger] shares@[j]).value.val() == poly_eval(cvals, j + 1),
        decreases n - i,
    {
        let x = scalar_from_u64((i as u64) + 1);
        let y = poly_eval_exec(&coeffs, &x);
        shares.push(Share { x, value: y });
        i += 1;
    }
    proof {
        assert(poly_wf(cvals, secret.val(), t as int));
    }
    shares
}

/// Horner evaluation of a coefficient vector at `x`, matching `poly_eval`.
fn poly_eval_exec(coeffs: &Vec<Scalar>, x: &Scalar) -> (r: Scalar)
    requires
        forall|j: int| 0 <= j < coeffs@.len() ==> (#[trigger] coeffs@[j]).wf(),
        x.wf(),
    ensures
        r.wf(),
        r.val() == poly_eval(coeffs@.map_values(|c: Scalar| c.val()), x.val()),
{
    let ghost cvals: Seq<int> = coeffs@.map_values(|c: Scalar| c.val());
    let mut acc = scalar_zero();
    let mut k: usize = coeffs.len();
    while k > 0
        invariant
            forall|j: int| 0 <= j < coeffs@.len() ==> (#[trigger] coeffs@[j]).wf(),
            x.wf(),
            acc.wf(),
            cvals == coeffs@.map_values(|c: Scalar| c.val()),
            k <= coeffs@.len(),
            acc.val() == poly_eval(cvals.subrange(k as int, cvals.len() as int), x.val()),
        decreases k,
    {
        k -= 1;
        let m = scalar_mul(x, &acc);
        let next = scalar_add(&coeffs[k], &m);
        proof {
            let tail = cvals.subrange(k + 1, cvals.len() as int);
            let whole = cvals.subrange(k as int, cvals.len() as int);
            assert(whole.subrange(1, whole.len() as int) =~= tail);
            assert(whole[0] == cvals[k as int]);
            lemma_add_mod_noop_right(cvals[k as int], x.val() * acc.val(), p());
        }
        acc = next;
    }
    proof {
        assert(cvals.subrange(0, cvals.len() as int) =~= cvals);
    }
    acc
}

/// A duplicated x-coordinate forces the matching Lagrange denominator to
/// zero: once a zero factor enters the product it never leaves.
pub proof fn lemma_duplicate_x_zero_den(xs: Seq<int>, i: int, j: int, k: int)
    requires
        0 <= i < xs.len(),
        0 <= j < k <= xs.len(),
        i != j,
        xs[i] == xs[j],
        0 <= xs[i] < p(),
    ensures
        lag_den_k(xs, i, k) == 0,
    decreases k,
{
    if k == j + 1 {
        assert(sub_p(xs[j], xs[i]) == 0) by {
            lemma_mod_self_0(p());
        }
        assert(lag_den_k(xs, i, k) == (lag_den_k(xs, i, j) * 0) % p());
        assert((lag_den_k(xs, i, j) * 0) % p() == 0) by {
            lemma_small_mod(0, p() as nat);
        }
    } else {
        lemma_duplicate_x_zero_den(xs, i, j, k - 1);
        if k - 1 == i {
        } else {
            assert(lag_den_k(xs, i, k) == (0 * sub_p(xs[k - 1], xs[i])) % p());
            assert((0 * sub_p(xs[k - 1], xs[i])) % p() == 0) by {
                lemma_small_mod(0, p() as nat);
            }
        }
    }
}

/// Reconstructs the secret from shares by Lagrange interpolation at `x = 0`.
///
/// Succeeds with the interpolated value unless some Lagrange denominator is
/// zero mod p — which duplicate x-coordinates force — in which case it
/// reports `DuplicateX`.
pub fn shamir_reconstruct(shares: &[Share]) -> (r: Result<Scalar, MpcError>)
    requires
        shares@.len() >= 1,
        shares_wf(shares@),
    ensures
        r is Err <==> exists|i: int|
            0 <= i < shares@.len() && #[trigger] lag_den_k(share_xs(shares@), i, shares@.len() as int) == 0,
        r is Err ==> r == Err::<Scalar, MpcError>(MpcError::DuplicateX),
        r matches Ok(v) ==> v.wf() && v.val() == lagrange_at_zero(share_xs(shares@), share_ys(shares@)),
{
    let ghost xs: Seq<int> = share_xs(shares@);
    let ghost ys: Seq<int> = share_ys(shares@);
    let len: usize = shares.len();
    let zero = scalar_zero();
    let mut acc = scalar_zero();
    let mut i: usize = 0;
    while i < len
        invariant
            len == shares@.len(),
            shares_wf(shares@),
            xs == share_xs(shares@),
            ys == share_ys(shares@),
            zero.wf() && zero.val() == 0,
            i <= len,
            acc.wf(),
            acc.val() == lag_sum_k(xs, ys, i as int),
            forall|i2: int| 0 <= i2 < i ==> #[trigger] lag_den_k(xs, i2, len as int) != 0,
        decreases len - i,
    {
        let si = shares[i];
        let mut num = crate::field::scalar_one();
        let mut den = crate::field::scalar_one();
        let mut j: usize = 0;
        while j < len
            invariant
                len == shares@.len(),
                shares_wf(shares@),
                xs == share_xs(shares@),
                i < len,
                si == shares@[i as int],
                j <= len,
                num.wf(),
                den.wf(),
                num.val() == lag_num_k(xs, i as int, j as int),
                den.val() == lag_den_k(xs, i as int, j as int),
            decreases len - j,
        {
            if j != i {
                let sj = shares[j];
                num = scalar_mul(&num, &sj.x);
                let diff = scalar_sub(&sj.x, &si.x);
                den = scalar_mul(&den, &diff);
            }
            j += 1;
        }
        if den == zero {
            proof {
                assert(lag_den_k(xs, i as int, len as int) == 0);
            }
            return Err(MpcError::DuplicateX);
        }
        proof {
            if den.val() == 0 {
                lemma_val_injective(den, zero);
            }
        }
        let den_inv = scalar_inv(&den);
        proof {
            lemma_inv_p_unique(den.val(), den_inv.val());
        }
        let li = scalar_mul(&num, &den_inv);
        let term = scalar_mul(&si.value, &li);
        let next = scalar_add(&acc, &term);
        proof {
            lemma_add_mod_noop_right(lag_sum_k(xs, ys, i as int), ys[i as int] * lag_basis(xs, i as int), p());
        }
        acc = next;
        i += 1;
    }
    Ok(acc)
}

/// The pointwise sum mod p of two y-coordinate vectors, as produced by
/// adding two share vectors at matching x-coordinates.
pub open spec fn add_ys(ys1: Seq<int>, ys2: Seq<int>) -> Seq<int> {
    Seq::new(ys1.len(), |i: int| (ys1[i] + ys2[i]) % p())
}

/// The pointwise scaling mod p of a y-coordinate vector by a constant, as
/// produced by multiplying every share of a vector by a public constant.
pub open spec fn scale_ys(c: int, ys: Seq<int>) -> Seq<int> {
    Seq::new(ys.len(), |i: int| (ys[i] * c) % p())
}

/// Additive homomorphism law: interpolating at zero the pointwise sum of
/// two share vectors over the same x-coordinates gives the sum mod p of the
/// two interpolations — so the sum of two sharings is a sharing of the sum
/// of the secrets.
pub proof fn lemma_additive_homomorphism(xs: Seq<int>, ys1: Seq<int>, ys2: Seq<int>, k: int)
    requires
        ys1.len() == xs.len(),
        ys2.len() == xs.len(),
        0 <= k <= xs.len(),
    ensures
        lag_sum_k(xs, add_ys(ys1, ys2), k) == (lag_sum_k(xs, ys1, k) + lag_sum_k(xs, ys2, k)) % p(),
    decreases k,
{
    if k <= 0 {
        lemma_small_mod(0nat, p() as nat);
    } else {
        lemma_additive_homomorphism(xs, ys1, ys2, k - 1);
        let ell = lag_basis(xs, k - 1);
        let s1 = lag_sum_k(xs, ys1, k - 1);
        let s2 = lag_sum_k(xs, ys2, k - 1);
        let y1 = ys1[k - 1];
        let y2 = ys2[k - 1];
        let yadd = (y1 + y2) % p();
        assert(add_ys(ys1, ys2)[k - 1] == yadd);
        assert(lag_sum_k(xs, add_ys(ys1, ys2), k) == ((s1 + s2) % p() + yadd * ell) % p());
        assert(((s1 + s2) % p() + yadd * ell) % p() == (s1 + s2 + yadd * ell) % p()) by {
            lemma_add_mod_noop_right(yadd * ell, s1 + s2, p());
        }
        assert((s1 + s2 + yadd * ell) % p() == (s1 + s2 + (y1 + y2) * ell) % p()) by {
            lemma_add_mod_noop_right(s1 + s2, yadd * ell, p());
            lemma_mul_mod_noop_left(y1 + y2, ell, p());
            lemma_add_mod_noop_right(s1 + s2, (y1 + y2) * ell, p());
        }
        assert((y1 + y2) * ell == y1 * ell + y2 * ell) by {
            lemma_mul_is_distributive_add_other_way(ell, y1, y2);
        }
        assert((lag_sum_k(xs, ys1, k) + lag_sum_k(xs, ys2, k)) % p() == (s1 + y1 * ell + s2 + y2
            * ell) % p()) by {
            lemma_add_mod_noop(s1 + y1 * ell, s2 + y2 * ell, p());
        }
    }
}

/// Constant-multiplication homomorphism law: interpolating at zero a share
/// vector whose values were all multiplied by a public constant gives the
/// interpolation times the constant, mod p — so scaling a sharing shares
/// the scaled secret, at the same degree.
pub proof fn lemma_constmul_homomorphism(xs: Seq<int>, ys: Seq<int>, c: int, k: int)
    requires
        ys.len() == xs.len(),
        0 <= k <= xs.len(),
    ensures
        lag_sum_k(xs, scale_ys(c, ys), k) == (lag_sum_k(xs, ys, k) * c) % p(),
    decreases k,
{
    if k <= 0 {
        lemma_small_mod(0nat, p() as nat);
    } else {
        lemma_constmul_homomorphism(xs, ys, c, k - 1);
        let ell = lag_basis(xs, k - 1);
        let s = lag_sum_k(xs, ys, k - 1);
        let y = ys[k - 1];
        assert(scale_ys(c, ys)[k - 1] == (y * c) % p());
        assert(lag_sum_k(xs, scale_ys(c, ys), k) == ((s * c) % p() + ((y * c) % p()) * ell) % p());
        assert(((s * c) % p() + ((y * c) % p()) * ell) % p() == (s * c + (y * c) * ell) % p()) by {
            lemma_add_mod_noop_right(((y * c) % p()) * ell, s * c, p());
            lemma_add_mod_noop_right(s * c, ((y * c) % p()) * ell, p());
            lemma_mul_mod_noop_left(y * c, ell, p());
            lemma_add_mod_noop_right(s * c, (y * c) * ell, p());
        }
        assert((lag_sum_k(xs, ys, k) * c) % p() == ((s + y * ell) * c) % p()) by {
            lemma_mul_mod_noop_left(s + y * ell, c, p());
        }
        assert((s + y * ell) * c == s * c + (y * ell) * c) by {
            lemma_mul_is_distributive_add_other_way(c, s, y * ell);
        }
        assert((y * ell) * c == (y * c) * ell) by {
            lemma_mul_is_associative(y, ell, c);
            lemma_mul_is_commutative(ell, c);
            lemma_mul_is_associative(y, c, ell);
        }
    }
}

/// Shamir round trip at threshold zero: a degree-zero sharing hands every
/// party the secret itself, and Lagrange interpolation at zero of any single
/// such share returns the secret exactly.
pub proof fn lemma_degree_zero_roundtrip(coeffs: Seq<int>, x: int, y: int)
    requires
        poly_wf(coeffs, coeffs[0], 0),
        y == poly_eval(coeffs, x),
    ensures
        lagrange_at_zero(seq![x], seq![y]) == coeffs[0],
{
    let s = coeffs[0];
    let tail = coeffs.subrange(1, coeffs.len() as int);
    assert(tail =~= Seq::<int>::empty());
    assert(poly_eval(tail, x) == 0);
    assert(x * 0 == 0);
    assert(poly_eval(coeffs, x) == (s + x * poly_eval(tail, x)) % p());
    assert(poly_eval(coeffs, x) == s % p());
    lemma_small_mod(s as nat, p() as nat);
    assert(y == s);
    let xs = seq![x];
    let ys = seq![y];
    assert(xs.len() == 1 && ys.len() == 1 && xs[0] == x && ys[0] == y);
    assert(lag_num_k(xs, 0, 0) == 1);
    assert(lag_num_k(xs, 0, 1) == 1);
    assert(lag_den_k(xs, 0, 0) == 1);
    assert(lag_den_k(xs, 0, 1) == 1);
    assert((1int * 1int) % p() == 1) by {
        lemma_small_mod(1nat, p() as nat);
    }
    lemma_inv_p_unique(1, 1);
    assert(lag_basis(xs, 0) == (1int * 1int) % p());
    assert(lag_basis(xs, 0) == 1);
    assert(lag_sum_k(xs, ys, 1) == (lag_sum_k(xs, ys, 0) + y * 1) % p());
    assert(y * 1 == y);
    lemma_small_mod(y as nat, p() as nat);
    assert(lagrange_at_zero(xs, ys) == y);
}

/// Additive homomorphism over share vectors, in the shape the evaluator's
/// `Add` gate produces: a vector holding, at the same x-coordinates, the
/// pointwise sums mod p of two vectors' values reconstructs to the sum mod p
/// of the two reconstructions.
pub proof fn lemma_share_vector_addition(s1: Seq<Share>, s2: Seq<Share>, sum: Seq<Share>)
    requires
        s1.len() == sum.len(),
        s2.len() == sum.len(),
        forall|i: int| 0 <= i < sum.len() ==> (#[trigger] sum[i]).x.val() == s1[i].x.val(),
        forall|i: int| 0 <= i < sum.len() ==> (#[trigger] s2[i]).x.val() == s1[i].x.val(),
        forall|i: int|
            0 <= i < sum.len() ==> (#[trigger] sum[i]).value.val() == (s1[i].value.val()
                + s2[i].value.val()) % p(),
    ensures
        lagrange_at_zero(share_xs(sum), share_ys(sum)) == (lagrange_at_zero(
            share_xs(s1),
            share_ys(s1),
        ) + lagrange_at_zero(share_xs(s2), share_ys(s2))) % p(),
{
    assert(share_xs(sum) =~= share_xs(s1));
    assert(share_xs(s2) =~= share_xs(s1));
    assert(share_ys(sum) =~= add_ys(share_ys(s1), share_ys(s2)));
    lemma_additive_homomorphism(share_xs(s1), share_ys(s1), share_ys(s2), s1.len() as int);
}

/// Constant-multiplication homomorphism over share vectors, in the shape
/// the evaluator's `ConstMul` gate produces: a vector holding, at the same
/// x-coordinates, the values of another vector each multiplied mod p by a
/// public constant reconstructs to the reconstruction times that constant.
pub proof fn lemma_share_vector_scaling(s: Seq<Share>, scaled: Seq<Share>, c: Scalar)
    requires
        s.len() == scaled.len(),
        forall|i: int| 0 <= i < scaled.len() ==> (#[trigger] scaled[i]).x.val() == s[i].x.val(),
        forall|i: int|
            0 <= i < scaled.len() ==> (#[trigger] scaled[i]).value.val() == (s[i].value.val()
                * c.val()) % p(),
    ensures
        lagrange_at_zero(share_xs(scaled), share_ys(scaled)) == (lagrange_at_zero(
            share_xs(s),
            share_ys(s),
        ) * c.val()) % p(),
{
    assert(share_xs(scaled) =~= share_xs(s));
    assert(share_ys(scaled) =~= scale_ys(c.val(), share_ys(s)));
    lemma_constmul_homomorphism(share_xs(s), share_ys(s), c.val(), s.len() as int);
}

} // verus!
