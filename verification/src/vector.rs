//! Fixed-length dense vectors over a `Scalar` element type.
//!
//! Binary operations require operands of equal size; callers establish
//! that through the preconditions.  The norms return the scalar's real
//! magnitude type (`Rat`), even for complex elements, and the dot product
//! is the Hermitian inner product: each pair is combined as
//! `a * conj(b)`, which degenerates to the plain product for real scalars.

use crate::rat::{lemma_rat_add_sub, lemma_rat_int_ops, rat_add, rat_div, rat_fits, rat_lt,
    rat_mul, rat_one, rat_sqrt, rat_sub, rat_zero, Rat};
use crate::scalar::{Lerp, MulAdd, Scalar};
use vstd::prelude::*;

verus! {

/// An ordered, dense, fixed-length sequence of scalars.
#[derive(Clone)]
pub struct Vector<K> {
    pub data: Vec<K>,
}

/// The Hermitian dot product.
pub trait Dot<K: Scalar> {
    /// Whether the operands may be combined (well-formed, equal sizes).
    spec fn dot_req(&self, v: &Vector<K>) -> bool;

    /// The value `dot` returns.
    spec fn sdot(&self, v: &Vector<K>) -> K;

    fn dot(&self, v: &Vector<K>) -> (r: K)
        requires
            self.dot_req(v),
        ensures
            r == self.sdot(v),
            r.swf(),
    ;
}

/// Left fold of the Hermitian products of the first `i` element pairs:
/// `a[i-1] * conj(b[i-1]) + (... )`, starting from zero.
pub open spec fn dot_fold<K: Scalar>(a: Seq<K>, b: Seq<K>, i: int) -> K
    decreases i,
{
    if i <= 0 {
        K::szero()
    } else {
        a[i - 1].smul(b[i - 1].sconj()).sadd(dot_fold(a, b, i - 1))
    }
}

/// Left fold of element magnitudes: `(... ) + |s[i-1]|`, from zero.
pub open spec fn mag_sum<K: Scalar>(s: Seq<K>, i: int) -> Rat
    decreases i,
{
    if i <= 0 {
        rat_zero()
    } else {
        rat_add(mag_sum(s, i - 1), s[i - 1].smag())
    }
}

/// Left fold of squared element magnitudes: `|s[i-1]|^2 + (... )`, from zero.
pub open spec fn mag_sq_sum<K: Scalar>(s: Seq<K>, i: int) -> Rat
    decreases i,
{
    if i <= 0 {
        rat_zero()
    } else {
        rat_add(rat_mul(s[i - 1].smag(), s[i - 1].smag()), mag_sq_sum(s, i - 1))
    }
}

/// Running maximum of element magnitudes over the first `i` elements,
/// starting from zero.
pub open spec fn mag_max<K: Scalar>(s: Seq<K>, i: int) -> Rat
    decreases i,
{
    if i <= 0 {
        rat_zero()
    } else {
        let m = mag_max(s, i - 1);
        if rat_lt(m, s[i - 1].smag()) {
            s[i - 1].smag()
        } else {
            m
        }
    }
}

/// Element `j` of the linear combination of the first `t` vectors of `vs`
/// weighted by `cs`: built by scaling the first vector and folding
/// multiply-adds over the rest, as the executable code does.
pub open spec fn lin_comb_elem<K: Scalar>(vs: Seq<Vector<K>>, cs: Seq<K>, t: int, j: int) -> K
    decreases t,
{
    if t <= 1 {
        vs[0].data@[j].smul(cs[0])
    } else {
        vs[t - 1].data@[j].smul(cs[t - 1]).sadd(lin_comb_elem(vs, cs, t - 1, j))
    }
}

impl<K: Scalar> Vector<K> {
    /// All elements well-formed.
    pub open spec fn wf(self) -> bool {
        forall|i: int| 0 <= i < self.data@.len() ==> self.data@[i].swf()
    }

    /// A vector owning the given elements.
    pub fn from_vec(data: Vec<K>) -> (r: Vector<K>)
        ensures
            r.data@ == data@,
    {
        Vector { data }
    }

    /// The all-zero vector of length `size`.
    pub fn zero(size: usize) -> (r: Vector<K>)
        ensures
            r.data@.len() == size,
            forall|i: int| 0 <= i < size ==> r.data@[i] == K::szero(),
            r.wf(),
    {
        let mut data: Vec<K> = Vec::new();
        let mut i: usize = 0;
        proof {
            K::lemma_identities_wf();
        }
        while i < size
            invariant
                i <= size,
                data@.len() == i,
                forall|j: int| 0 <= j < i ==> data@[j] == K::szero(),
                forall|j: int| 0 <= j < i ==> data@[j].swf(),
            decreases size - i,
        {
            data.push(K::zero());
            i = i + 1;
        }
        Vector { data }
    }

    /// The element count.
    pub fn size(&self) -> (r: usize)
        ensures
            r == self.data@.len(),
    {
        self.data.len()
    }

    /// The first element, if any.
    pub fn first(&self) -> (r: Option<&K>)
        ensures
            match r {
                Some(k) => self.data@.len() > 0 && *k == self.data@[0],
                None => self.data@.len() == 0,
            },
    {
        if self.data.len() == 0 {
            None
        } else {
            Some(&self.data[0])
        }
    }

    /// Whether the vector has no elements.
    pub fn is_empty(&self) -> (r: bool)
        ensures
            r == (self.data@.len() == 0),
    {
        self.data.len() == 0
    }

    /// In-place element-wise addition.
    pub fn add(&mut self, v: &Vector<K>)
        requires
            old(self).wf(),
            v.wf(),
            old(self).data@.len() == v.data@.len(),
        ensures
            final(self).data@.len() == old(self).data@.len(),
            forall|i: int|
                0 <= i < old(self).data@.len() ==> final(self).data@[i] == old(self).data@[
                    i
                ].sadd(v.data@[i]),
            final(self).wf(),
    {
        let n = self.data.len();
        let mut i: usize = 0;
        while i < n
            invariant
                i <= n,
                self.data@.len() == n,
                v.data@.len() == n,
                v.wf(),
                forall|j: int| i <= j < n ==> self.data@[j] == old(self).data@[j],
                forall|j: int| i <= j < n ==> self.data@[j].swf(),
                forall|j: int|
                    0 <= j < i ==> self.data@[j] == old(self).data@[j].sadd(v.data@[j]),
                forall|j: int| 0 <= j < i ==> self.data@[j].swf(),
            decreases n - i,
        {
            self.data[i] = self.data[i].add(v.data[i]);
            i = i + 1;
        }
    }

    /// In-place element-wise subtraction.
    pub fn sub(&mut self, v: &Vector<K>)
        requires
            old(self).wf(),
            v.wf(),
            old(self).data@.len() == v.data@.len(),
        ensures
            final(self).data@.len() == old(self).data@.len(),
            forall|i: int|
                0 <= i < old(self).data@.len() ==> final(self).data@[i] == old(self).data@[
                    i
                ].ssub(v.data@[i]),
            final(self).wf(),
    {
        let n = self.data.len();
        let mut i: usize = 0;
        while i < n
            invariant
                i <= n,
                self.data@.len() == n,
                v.data@.len() == n,
                v.wf(),
                forall|j: int| i <= j < n ==> self.data@[j] == old(self).data@[j],
                forall|j: int| i <= j < n ==> self.data@[j].swf(),
                forall|j: int|
                    0 <= j < i ==> self.data@[j] == old(self).data@[j].ssub(v.data@[j]),
                forall|j: int| 0 <= j < i ==> self.data@[j].swf(),
            decreases n - i,
        {
            self.data[i] = self.data[i].sub(v.data[i]);
            i = i + 1;
        }
    }

    /// In-place scaling by `a`.
    pub fn scl(&mut self, a: K)
        requires
            old(self).wf(),
            a.swf(),
        ensures
            final(self).data@.len() == old(self).data@.len(),
            forall|i: int|
                0 <= i < old(self).data@.len() ==> final(self).data@[i] == old(self).data@[
                    i
                ].smul(a),
            final(self).wf(),
    {
        let n = self.data.len();
        let mut i: usize = 0;
        while i < n
            invariant
                i <= n,
                self.data@.len() == n,
                a.swf(),
                forall|j: int| i <= j < n ==> self.data@[j] == old(self).data@[j],
                forall|j: int| i <= j < n ==> self.data@[j].swf(),
                forall|j: int| 0 <= j < i ==> self.data@[j] == old(self).data@[j].smul(a),
                forall|j: int| 0 <= j < i ==> self.data@[j].swf(),
            decreases n - i,
        {
            self.data[i] = self.data[i].mul(a);
            i = i + 1;
        }
    }

    /// The 1-norm: the sum of element magnitudes.
    pub fn norm_1(&self) -> (r: Rat)
        requires
            self.wf(),
        ensures
            r == mag_sum(self.data@, self.data@.len() as int),
            r.wf(),
    {
        let mut sum = Rat::zero_val();
        let n = self.data.len();
        let mut i: usize = 0;
        while i < n
            invariant
                i <= n,
                self.data@.len() == n,
                self.wf(),
                sum == mag_sum(self.data@, i as int),
                sum.wf(),
            decreases n - i,
        {
            sum = sum.add(self.data[i].mag());
            i = i + 1;
        }
        sum
    }

    /// The Euclidean norm: the square root of the sum of squared element
    /// magnitudes, a real value even for complex elements.
    pub fn norm(&self) -> (r: Rat)
        requires
            self.wf(),
        ensures
            r == rat_sqrt(mag_sq_sum(self.data@, self.data@.len() as int)),
            r.wf(),
    {
        let mut sum = Rat::zero_val();
        let n = self.data.len();
        let mut i: usize = 0;
        while i < n
            invariant
                i <= n,
                self.data@.len() == n,
                self.wf(),
                sum == mag_sq_sum(self.data@, i as int),
                sum.wf(),
            decreases n - i,
        {
            let a = self.data[i].mag();
            sum = a.mul_add(&a, &sum);
            i = i + 1;
        }
        sum.sqrt_impl()
    }

    /// The infinity norm: the largest element magnitude (zero when empty).
    pub fn norm_inf(&self) -> (r: Rat)
        requires
            self.wf(),
        ensures
            r == mag_max(self.data@, self.data@.len() as int),
            r.wf(),
    {
        let mut max = Rat::zero_val();
        let n = self.data.len();
        let mut i: usize = 0;
        while i < n
            invariant
                i <= n,
                self.data@.len() == n,
                self.wf(),
                max == mag_max(self.data@, i as int),
                max.wf(),
            decreases n - i,
        {
            let abs_x = self.data[i].mag();
            if max.lt(&abs_x) {
                max = abs_x;
            }
            i = i + 1;
        }
        max
    }
}

impl<K: Scalar + MulAdd> Dot<K> for Vector<K> {
    open spec fn dot_req(&self, v: &Vector<K>) -> bool {
        self.wf() && v.wf() && self.data@.len() == v.data@.len()
    }

    open spec fn sdot(&self, v: &Vector<K>) -> K {
        dot_fold(self.data@, v.data@, self.data@.len() as int)
    }

    fn dot(&self, v: &Vector<K>) -> (r: K) {
        let mut sum = K::zero();
        let n = self.data.len();
        let mut i: usize = 0;
        proof {
            K::lemma_identities_wf();
        }
        while i < n
            invariant
                i <= n,
                self.data@.len() == n,
                v.data@.len() == n,
                self.wf(),
                v.wf(),
                sum == dot_fold(self.data@, v.data@, i as int),
                sum.swf(),
            decreases n - i,
        {
            sum = self.data[i].mul_add(&v.data[i].conj(), &sum);
            i = i + 1;
        }
        sum
    }
}

/// The linear combination `sum of coefs[i] * u[i]`; the empty combination
/// is the empty vector.
pub fn linear_combination<K: Scalar + MulAdd>(u: &Vec<Vector<K>>, coefs: &Vec<K>) -> (r: Vector<K>)
    requires
        u@.len() == coefs@.len(),
        forall|i: int| 0 <= i < u@.len() ==> (#[trigger] u@[i]).wf(),
        forall|i: int| 0 <= i < coefs@.len() ==> (#[trigger] coefs@[i]).swf(),
        forall|i: int| 0 <= i < u@.len() ==> (#[trigger] u@[i]).data@.len() == u@[0].data@.len(),
    ensures
        r.data@.len() == if u@.len() == 0 {
            0int
        } else {
            u@[0].data@.len() as int
        },
        forall|j: int|
            0 <= j < r.data@.len() ==> r.data@[j] == lin_comb_elem(
                u@,
                coefs@,
                u@.len() as int,
                j,
            ),
        r.wf(),
{
    let n = u.len();
    if n == 0 {
        return Vector { data: Vec::new() };
    }
    let size = u[0].size();
    let mut data: Vec<K> = Vec::new();
    let mut j: usize = 0;
    while j < size
        invariant
            j <= size,
            n == u@.len(),
            n == coefs@.len(),
            n >= 1,
            size == u@[0].data@.len(),
            forall|i: int| 0 <= i < u@.len() ==> (#[trigger] u@[i]).wf(),
            forall|i: int| 0 <= i < coefs@.len() ==> (#[trigger] coefs@[i]).swf(),
            forall|i: int|
                0 <= i < u@.len() ==> (#[trigger] u@[i]).data@.len() == u@[0].data@.len(),
            data@.len() == j,
            forall|p: int| 0 <= p < j ==> data@[p] == lin_comb_elem(u@, coefs@, 1, p),
            forall|p: int| 0 <= p < j ==> data@[p].swf(),
        decreases size - j,
    {
        data.push(u[0].data[j].mul(coefs[0]));
        j = j + 1;
    }
    let mut t: usize = 1;
    while t < n
        invariant
            1 <= t <= n,
            n == u@.len(),
            n == coefs@.len(),
            size == u@[0].data@.len(),
            forall|i: int| 0 <= i < u@.len() ==> (#[trigger] u@[i]).wf(),
            forall|i: int| 0 <= i < coefs@.len() ==> (#[trigger] coefs@[i]).swf(),
            forall|i: int|
                0 <= i < u@.len() ==> (#[trigger] u@[i]).data@.len() == u@[0].data@.len(),
            data@.len() == size,
            forall|p: int| 0 <= p < size ==> data@[p] == lin_comb_elem(u@, coefs@, t as int, p),
            forall|p: int| 0 <= p < size ==> data@[p].swf(),
        decreases n - t,
    {
        let mut j2: usize = 0;
        while j2 < size
            invariant
                j2 <= size,
                1 <= t < n,
                n == u@.len(),
                n == coefs@.len(),
                size == u@[0].data@.len(),
                forall|i: int| 0 <= i < u@.len() ==> (#[trigger] u@[i]).wf(),
                forall|i: int| 0 <= i < coefs@.len() ==> (#[trigger] coefs@[i]).swf(),
                forall|i: int|
                    0 <= i < u@.len() ==> (#[trigger] u@[i]).data@.len() == u@[0].data@.len(),
                data@.len() == size,
                forall|p: int|
                    j2 <= p < size ==> data@[p] == lin_comb_elem(u@, coefs@, t as int, p),
                forall|p: int|
                    0 <= p < j2 ==> data@[p] == lin_comb_elem(u@, coefs@, t as int + 1, p),
                forall|p: int| 0 <= p < size ==> data@[p].swf(),
            decreases size - j2,
        {
            data[j2] = u[t].data[j2].mul_add(&coefs[t], &data[j2]);
            j2 = j2 + 1;
        }
        t = t + 1;
    }
    Vector { data }
}

/// The 3-dimensional cross product.
pub fn cross_product<K: Scalar>(u: &Vector<K>, v: &Vector<K>) -> (r: Vector<K>)
    requires
        u.wf(),
        v.wf(),
        u.data@.len() == 3,
        v.data@.len() == 3,
    ensures
        r.data@.len() == 3,
        r.data@[0] == u.data@[1].smul(v.data@[2]).ssub(u.data@[2].smul(v.data@[1])),
        r.data@[1] == u.data@[2].smul(v.data@[0]).ssub(u.data@[0].smul(v.data@[2])),
        r.data@[2] == u.data@[0].smul(v.data@[1]).ssub(u.data@[1].smul(v.data@[0])),
        r.wf(),
{
    let mut data: Vec<K> = Vec::new();
    data.push(u.data[1].mul(v.data[2]).sub(u.data[2].mul(v.data[1])));
    data.push(u.data[2].mul(v.data[0]).sub(u.data[0].mul(v.data[2])));
    data.push(u.data[0].mul(v.data[1]).sub(u.data[1].mul(v.data[0])));
    Vector { data }
}

/// The cosine of the angle between `u` and `v`: the real part of their dot
/// product over the product of their norms.  A zero norm makes the
/// denominator zero and the result zero, by the division convention.
pub fn angle_cos<K: Scalar + MulAdd>(u: &Vector<K>, v: &Vector<K>) -> (r: Rat)
    requires
        u.wf(),
        v.wf(),
        u.data@.len() == v.data@.len(),
        u.data@.len() > 0,
    ensures
        r == rat_div(
            dot_fold(u.data@, v.data@, u.data@.len() as int).sreal(),
            rat_mul(
                rat_sqrt(mag_sq_sum(u.data@, u.data@.len() as int)),
                rat_sqrt(mag_sq_sum(v.data@, v.data@.len() as int)),
            ),
        ),
        r.wf(),
{
    let d = u.dot(v);
    d.real_part().div(u.norm().mul(v.norm()))
}


/// Law: adding a vector and then subtracting it restores the original.
/// For every pair of equal-size rational vectors whose element-wise sums
/// do not saturate, subtracting `v` from `u + v` gives back exactly the
/// elements of `u`; `Vector::add` and `Vector::sub` produce precisely
/// these element values.
pub proof fn lemma_vector_add_sub_restores(u: Vector<Rat>, v: Vector<Rat>)
    requires
        u.wf(),
        v.wf(),
        u.data@.len() == v.data@.len(),
        forall|i: int|
            0 <= i < u.data@.len() ==> rat_fits(
                (#[trigger] u.data@[i]).num * v.data@[i].den + v.data@[i].num * u.data@[i].den,
                u.data@[i].den * v.data@[i].den,
            ),
    ensures
        forall|i: int|
            0 <= i < u.data@.len() ==> rat_sub(
                rat_add(#[trigger] u.data@[i], v.data@[i]),
                v.data@[i],
            ) == u.data@[i],
{
    assert forall|i: int| 0 <= i < u.data@.len() implies rat_sub(
        rat_add(#[trigger] u.data@[i], v.data@[i]),
        v.data@[i],
    ) == u.data@[i] by {
        lemma_rat_add_sub(u.data@[i], v.data@[i]);
    }
}


/// Whether every element of `s` is an integer of magnitude at most `b`.
pub open spec fn all_small_ints(s: Seq<Rat>, b: int) -> bool {
    forall|i: int| 0 <= i < s.len() ==> (#[trigger] s[i]).den == 1 && -b <= s[i].num <= b
}

/// Law: the cross product is orthogonal to each of its operands.  Shown
/// for integer-valued rational vectors with entries of magnitude at most
/// `2^20`, where every intermediate product and sum is exact: the
/// Hermitian dot product of `cross_product(u, v)` with `u`, and with `v`,
/// is exactly zero.  The element values named here are exactly those that
/// `cross_product` and `dot` return.
#[verifier::rlimit(60)]
pub proof fn lemma_cross_product_orthogonal(u: Seq<Rat>, v: Seq<Rat>, w: Seq<Rat>)
    requires
        u.len() == 3,
        v.len() == 3,
        all_small_ints(u, 0x10_0000),
        all_small_ints(v, 0x10_0000),
        w.len() == 3,
        w[0] == u[1].smul(v[2]).ssub(u[2].smul(v[1])),
        w[1] == u[2].smul(v[0]).ssub(u[0].smul(v[2])),
        w[2] == u[0].smul(v[1]).ssub(u[1].smul(v[0])),
    ensures
        dot_fold(w, u, 3) == rat_zero(),
        dot_fold(w, v, 3) == rat_zero(),
{
    reveal_with_fuel(dot_fold, 4);
    let b = 0x10_0000int;
    let u0 = u[0].num as int;
    let u1 = u[1].num as int;
    let u2 = u[2].num as int;
    let v0 = v[0].num as int;
    let v1 = v[1].num as int;
    let v2 = v[2].num as int;
    assert forall|x: int, y: int| -b <= x <= b && -b <= y <= b implies -(b * b) <= #[trigger] (x
        * y) <= b * b by {
        assert(-(b * b) <= x * y <= b * b) by (nonlinear_arith)
            requires
                -b <= x <= b,
                -b <= y <= b,
        ;
    }
    lemma_rat_int_ops(u[1], v[2]);
    lemma_rat_int_ops(u[2], v[1]);
    lemma_rat_int_ops(u[2], v[0]);
    lemma_rat_int_ops(u[0], v[2]);
    lemma_rat_int_ops(u[0], v[1]);
    lemma_rat_int_ops(u[1], v[0]);
    lemma_rat_int_ops(rat_mul(u[1], v[2]), rat_mul(u[2], v[1]));
    lemma_rat_int_ops(rat_mul(u[2], v[0]), rat_mul(u[0], v[2]));
    lemma_rat_int_ops(rat_mul(u[0], v[1]), rat_mul(u[1], v[0]));
    let c0 = u1 * v2 - u2 * v1;
    let c1 = u2 * v0 - u0 * v2;
    let c2 = u0 * v1 - u1 * v0;
    assert(w[0] == (Rat { num: c0 as i64, den: 1 }));
    assert(w[1] == (Rat { num: c1 as i64, den: 1 }));
    assert(w[2] == (Rat { num: c2 as i64, den: 1 }));
    let bb = b * b;
    assert forall|x: int, y: int| -2 * bb <= x <= 2 * bb && -b <= y <= b implies -2 * (bb * b)
        <= #[trigger] (x * y) <= 2 * (bb * b) by {
        assert(-2 * (bb * b) <= x * y <= 2 * (bb * b)) by (nonlinear_arith)
            requires
                -2 * bb <= x <= 2 * bb,
                -b <= y <= b,
                bb >= 0,
                b >= 0,
        ;
    }
    lemma_rat_int_ops(w[0], u[0]);
    lemma_rat_int_ops(w[1], u[1]);
    lemma_rat_int_ops(w[2], u[2]);
    lemma_rat_int_ops(w[0], v[0]);
    lemma_rat_int_ops(w[1], v[1]);
    lemma_rat_int_ops(w[2], v[2]);
    let t0u = c0 * u0;
    let t1u = c1 * u1;
    let t2u = c2 * u2;
    let t0v = c0 * v0;
    let t1v = c1 * v1;
    let t2v = c2 * v2;
    lemma_rat_int_ops(rat_mul(w[0], u[0]), rat_zero());
    lemma_rat_int_ops(rat_mul(w[1], u[1]), rat_add(rat_mul(w[0], u[0]), rat_zero()));
    lemma_rat_int_ops(
        rat_mul(w[2], u[2]),
        rat_add(rat_mul(w[1], u[1]), rat_add(rat_mul(w[0], u[0]), rat_zero())),
    );
    lemma_rat_int_ops(rat_mul(w[0], v[0]), rat_zero());
    lemma_rat_int_ops(rat_mul(w[1], v[1]), rat_add(rat_mul(w[0], v[0]), rat_zero()));
    lemma_rat_int_ops(
        rat_mul(w[2], v[2]),
        rat_add(rat_mul(w[1], v[1]), rat_add(rat_mul(w[0], v[0]), rat_zero())),
    );
    assert(t0u + t1u + t2u == 0) by (nonlinear_arith)
        requires
            t0u == (u1 * v2 - u2 * v1) * u0,
            t1u == (u2 * v0 - u0 * v2) * u1,
            t2u == (u0 * v1 - u1 * v0) * u2,
    ;
    assert(t0v + t1v + t2v == 0) by (nonlinear_arith)
        requires
            t0v == (u1 * v2 - u2 * v1) * v0,
            t1v == (u2 * v0 - u0 * v2) * v1,
            t2v == (u0 * v1 - u1 * v0) * v2,
    ;
}

impl<K: Scalar> Lerp for Vector<K> {
    open spec fn lerp_req(u: Vector<K>, v: Vector<K>) -> bool {
        u.wf() && v.wf() && u.data@.len() == v.data@.len()
    }

    open spec fn lerp_wf(r: Vector<K>) -> bool {
        r.wf()
    }

    open spec fn lerp_post(u: Vector<K>, v: Vector<K>, t: Rat, r: Vector<K>) -> bool {
        if t == rat_zero() {
            r == u
        } else if t == rat_one() {
            r == v
        } else {
            &&& r.data@.len() == u.data@.len()
            &&& forall|i: int|
                0 <= i < u.data@.len() ==> r.data@[i] == v.data@[i].ssub(u.data@[i]).smul(
                    K::sfrom_rat(t),
                ).sadd(u.data@[i])
        }
    }

    fn lerp(u: Vector<K>, v: Vector<K>, t: Rat) -> (r: Vector<K>) {
        if t.is_zero_val() {
            u
        } else if t.num == 1 && t.den == 1 {
            v
        } else {
            let p = K::from_rat(t);
            let n = u.data.len();
            let mut data: Vec<K> = Vec::new();
            let mut i: usize = 0;
            while i < n
                invariant
                    i <= n,
                    u.data@.len() == n,
                    v.data@.len() == n,
                    u.wf(),
                    v.wf(),
                    p == K::sfrom_rat(t),
                    p.swf(),
                    data@.len() == i,
                    forall|j: int|
                        0 <= j < i ==> data@[j] == v.data@[j].ssub(u.data@[j]).smul(
                            K::sfrom_rat(t),
                        ).sadd(u.data@[j]),
                    forall|j: int| 0 <= j < i ==> data@[j].swf(),
                decreases n - i,
            {
                data.push(v.data[i].sub(u.data[i]).mul(p).add(u.data[i]));
                i = i + 1;
            }
            Vector { data }
        }
    }
}

} // verus!
