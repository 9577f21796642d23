//! The Obara--Saika angular-momentum-lowering recursion engine.
//!
//! An integral over two (or four) Cartesian Gaussians is written as a term
//! holding the Cartesian exponents of every center.  The recursion repeatedly
//! lowers the smallest positive angular momentum until only base-case
//! ("s-type") terms remain; each surviving child records which geometric
//! prefactor must later be multiplied in, an integer multiplicity that scales
//! its coefficient, and (for Coulomb-type kernels) a Boys-function order.

use vstd::prelude::*;

verus! {

/// The kind of integral a two-center term belongs to.
#[derive(Clone, Copy, Debug, PartialEq, Eq, Structural)]
pub enum X2kind {
    /// overlap
    S,
    /// kinetic energy
    T,
    /// nuclear-electron attraction
    V,
    /// multipole moment
    M,
    /// angular momentum (no evaluator yet)
    L,
    /// electric field (no evaluator yet)
    E,
    /// spin-orbit (no evaluator yet)
    J,
    /// Fermi contact (no evaluator yet)
    FC,
}

/// The flat exponent vector as mathematical integers.
pub open spec fn iview(q: Seq<i8>) -> Seq<int> {
    q.map_values(|x: i8| x as int)
}

/// Sum of the integers of `s`.
pub open spec fn vsum(s: Seq<int>) -> int
    decreases s.len(),
{
    if s.len() == 0 {
        0
    } else {
        s.first() + vsum(s.drop_first())
    }
}

/// Total angular momentum of center `i` of the flat exponent vector `v`.
pub open spec fn csum(v: Seq<int>, i: int) -> int {
    v[3 * i] + v[3 * i + 1] + v[3 * i + 2]
}

/// The center the recursion descends on: among the first `n` centers of `v`,
/// the first one whose total angular momentum is positive and minimal; `-1`
/// when every center is exhausted.
pub open spec fn pick_fun(v: Seq<int>, n: int) -> int
    decreases n,
{
    if n <= 0 {
        -1
    } else {
        let p = pick_fun(v, n - 1);
        if csum(v, n - 1) > 0 && (p == -1 || csum(v, n - 1) < csum(v, p)) {
            n - 1
        } else {
            p
        }
    }
}

/// The Cartesian component the recursion descends on: the first positive one.
pub open spec fn pick_comp(a: int, b: int, c: int) -> int {
    if a > 0 {
        0
    } else if b > 0 {
        1
    } else if c > 0 {
        2
    } else {
        -1
    }
}

/// Factorial, with `fact(n) == 1` for `n <= 0`.
pub open spec fn fact(n: int) -> int
    decreases n,
{
    if n <= 0 {
        1
    } else {
        n * fact(n - 1)
    }
}

/// Product of the factorials of the entries of `s`.
pub open spec fn ffprod(s: Seq<int>) -> int
    decreases s.len(),
{
    if s.len() == 0 {
        1
    } else {
        fact(s.first()) * ffprod(s.drop_first())
    }
}

pub proof fn lemma_fact_pos(n: int)
    ensures
        fact(n) >= 1,
    decreases n,
{
    if n > 0 {
        lemma_fact_pos(n - 1);
        assert(n * fact(n - 1) >= 1) by (nonlinear_arith)
            requires
                n >= 1,
                fact(n - 1) >= 1,
        ;
    }
}

pub proof fn lemma_ffprod_pos(s: Seq<int>)
    ensures
        ffprod(s) >= 1,
    decreases s.len(),
{
    if s.len() > 0 {
        lemma_ffprod_pos(s.drop_first());
        lemma_fact_pos(s.first());
        assert(fact(s.first()) * ffprod(s.drop_first()) >= 1) by (nonlinear_arith)
            requires
                fact(s.first()) >= 1,
                ffprod(s.drop_first()) >= 1,
        ;
    }
}

pub proof fn lemma_vsum_update(s: Seq<int>, i: int, v: int)
    requires
        0 <= i < s.len(),
    ensures
        vsum(s.update(i, v)) == vsum(s) + v - s[i],
    decreases s.len(),
{
    if i == 0 {
        assert(s.update(0, v).drop_first() =~= s.drop_first());
    } else {
        assert(s.update(i, v).drop_first() =~= s.drop_first().update(i - 1, v));
        lemma_vsum_update(s.drop_first(), i - 1, v);
    }
}

pub proof fn lemma_vsum_nonneg(s: Seq<int>)
    requires
        forall|i: int| 0 <= i < s.len() ==> 0 <= #[trigger] s[i],
    ensures
        vsum(s) >= 0,
        forall|i: int| 0 <= i < s.len() ==> #[trigger] s[i] <= vsum(s),
    decreases s.len(),
{
    if s.len() > 0 {
        lemma_vsum_nonneg(s.drop_first());
        assert forall|i: int| 0 <= i < s.len() implies #[trigger] s[i] <= vsum(s) by {
            if i > 0 {
                assert(s[i] == s.drop_first()[i - 1]);
            }
        }
    }
}

/// Lowering one entry divides the factorial product by the entry's old value.
pub proof fn lemma_ffprod_update(s: Seq<int>, i: int)
    requires
        0 <= i < s.len(),
        s[i] >= 1,
    ensures
        ffprod(s.update(i, s[i] - 1)) * s[i] == ffprod(s),
    decreases s.len(),
{
    lemma_fact_pos(s[i] - 1);
    if i == 0 {
        assert(s.update(0, s[0] - 1).drop_first() =~= s.drop_first());
        assert(fact(s[0]) == s[0] * fact(s[0] - 1));
        assert((fact(s[0] - 1) * ffprod(s.drop_first())) * s[0] == (s[0] * fact(s[0] - 1))
            * ffprod(s.drop_first())) by (nonlinear_arith);
    } else {
        assert(s.update(i, s[i] - 1).drop_first() =~= s.drop_first().update(i - 1, s[i] - 1));
        assert(s.drop_first()[i - 1] == s[i]);
        lemma_ffprod_update(s.drop_first(), i - 1);
        let f0 = fact(s.first());
        let p = ffprod(s.drop_first().update(i - 1, s[i] - 1));
        assert(p * s[i] == ffprod(s.drop_first()));
        assert((f0 * p) * s[i] == f0 * (p * s[i])) by (nonlinear_arith);
    }
}

/// A factorial product is at most the factorial of the total sum.
pub proof fn lemma_fact_mul(a: int, b: int)
    requires
        a >= 0,
        b >= 0,
    ensures
        fact(a) * fact(b) <= fact(a + b),
    decreases b,
{
    lemma_fact_pos(a);
    lemma_fact_pos(b);
    lemma_fact_pos(a + b);
    if b == 0 {
    } else {
        lemma_fact_mul(a, b - 1);
        lemma_fact_pos(b - 1);
        lemma_fact_pos(a + b - 1);
        assert(fact(a) * fact(b) <= fact(a + b)) by (nonlinear_arith)
            requires
                fact(a) * fact(b - 1) <= fact(a + b - 1),
                fact(b) == b * fact(b - 1),
                fact(a + b) == (a + b) * fact(a + b - 1),
                a >= 0,
                b >= 1,
                fact(a) >= 1,
                fact(b - 1) >= 1,
                fact(a + b - 1) >= 1,
        ;
    }
}

pub proof fn lemma_ffprod_le_fact_vsum(s: Seq<int>)
    requires
        forall|i: int| 0 <= i < s.len() ==> 0 <= #[trigger] s[i],
    ensures
        ffprod(s) <= fact(vsum(s)),
    decreases s.len(),
{
    if s.len() == 0 {
    } else {
        let t = s.drop_first();
        assert(forall|i: int| 0 <= i < t.len() ==> 0 <= #[trigger] t[i]);
        lemma_ffprod_le_fact_vsum(t);
        lemma_vsum_nonneg(t);
        lemma_fact_mul(s.first(), vsum(t));
        lemma_fact_pos(s.first());
        lemma_ffprod_pos(t);
        assert(fact(s.first()) * ffprod(t) <= fact(s.first()) * fact(vsum(t))) by (nonlinear_arith)
            requires
                ffprod(t) <= fact(vsum(t)),
                fact(s.first()) >= 1,
        ;
    }
}

/// Remove the first occurrence of `item` from `v`, if any.
pub fn remove_item(v: &mut Vec<usize>, item: &usize)
    ensures
        (forall|i: int| 0 <= i < old(v)@.len() ==> old(v)@[i] != *item) ==> final(v)@ == old(v)@,
        (exists|i: int| 0 <= i < old(v)@.len() && old(v)@[i] == *item) ==> {
            let i = choose|i: int|
                0 <= i < old(v)@.len() && old(v)@[i] == *item && (forall|j: int|
                    0 <= j < i ==> old(v)@[j] != *item);
            final(v)@ == old(v)@.remove(i)
        },
{
    let mut i: usize = 0;
    while i < v.len()
        invariant
            0 <= i <= v@.len(),
            v@ == old(v)@,
            forall|j: int| 0 <= j < i ==> v@[j] != *item,
        decreases v@.len() - i,
    {
        if v[i] == *item {
            v.remove(i);
            return ;
        }
        i += 1;
    }
}

/// A term of a two-center expansion: an integer coefficient accumulated from
/// recursion multiplicities, the geometric-prefactor slots picked up so far,
/// the six Cartesian exponents `[ax, ay, az, bx, by, bz]`, the integral kind,
/// the three operator-moment exponents (multipole kind only), the angular
/// momentum operator's component, and a Boys-function order.
#[derive(Clone, Debug)]
pub struct X2 {
    pub scale: u64,
    pub prefactors: Vec<usize>,
    pub q: Vec<i8>,
    pub kind: X2kind,
    pub operator: Vec<i8>,
    pub d: u8,
    pub order: u8,
}

/// The mathematical model of a two-center term.
#[verifier::ext_equal]
pub ghost struct X2V {
    pub scale: int,
    pub prefactors: Seq<int>,
    pub q: Seq<int>,
    pub kind: X2kind,
    pub operator: Seq<int>,
    pub d: int,
    pub order: int,
}

impl View for X2 {
    type V = X2V;

    open spec fn view(&self) -> X2V {
        X2V {
            scale: self.scale as int,
            prefactors: self.prefactors@.map_values(|p: usize| p as int),
            q: iview(self.q@),
            kind: self.kind,
            operator: iview(self.operator@),
            d: self.d as int,
            order: self.order as int,
        }
    }
}

/// Total angular momentum of a term, operator moments included.
pub open spec fn osum2(x: X2V) -> int {
    vsum(x.q) + vsum(x.operator)
}

pub open spec fn nonneg2(x: X2V) -> bool {
    &&& forall|i: int| 0 <= i < x.q.len() ==> 0 <= #[trigger] x.q[i]
    &&& forall|i: int| 0 <= i < x.operator.len() ==> 0 <= #[trigger] x.operator[i]
}

/// Product of the factorials of all exponents of the term; the coefficient a
/// full descent can still multiply onto `scale` never exceeds this.
pub open spec fn ff2(x: X2V) -> int {
    ffprod(x.q) * ffprod(x.operator)
}

/// Operator moments are only meaningful for the multipole kind; every other
/// kind carries an all-zero operator vector.
pub open spec fn opzero2(x: X2V) -> bool {
    forall|i: int| 0 <= i < x.operator.len() ==> #[trigger] x.operator[i] == 0
}

/// A well-formed two-center term.  The two arithmetic bounds are machine
/// limits: they keep the u64 coefficient exact through a full descent and the
/// i8 momentum sums of the lowering scan in range.
pub open spec fn wf2(x: X2V) -> bool {
    &&& x.q.len() == 6
    &&& x.operator.len() == 3
    &&& nonneg2(x)
    &&& x.kind == X2kind::M || opzero2(x)
    &&& 1 <= x.scale
    &&& x.scale * ff2(x) <= u64::MAX
    &&& 0 <= x.order
    &&& x.order + osum2(x) <= 255
    &&& osum2(x) <= 126
    &&& 0 <= x.d < 3
    &&& forall|i: int| 0 <= i < x.prefactors.len() ==> 0 <= #[trigger] x.prefactors[i]
}

/// Exclusive upper bound on the prefactor slots an expansion of the given
/// root kind may mention; the per-kind size of the evaluator's prefactor
/// vector.
pub open spec fn pref_bound2(k: X2kind) -> int {
    match k {
        X2kind::S => 8,
        X2kind::T => 11,
        X2kind::V => 11,
        X2kind::M => 12,
        X2kind::L => 14,
        _ => 9,
    }
}

/// The term with exponent `i` lowered once.
pub open spec fn qd(x: X2V, i: int) -> X2V {
    X2V { q: x.q.update(i, x.q[i] - 1), ..x }
}

/// The term with operator moment `i` lowered once.
pub open spec fn md(x: X2V, i: int) -> X2V {
    X2V { operator: x.operator.update(i, x.operator[i] - 1), ..x }
}

/// The term with the Boys order raised: the `(m + 1)` recursion branch.
pub open spec fn bump2(x: X2V) -> X2V {
    X2V { order: x.order + 1, ..x }
}

/// The term demoted to an overlap term: the kinetic-energy recursion spawns
/// pure overlap children.
pub open spec fn to_s(x: X2V) -> X2V {
    X2V { kind: X2kind::S, ..x }
}

/// A child that survives: its coefficient times its multiplicity, one more
/// prefactor slot.
pub open spec fn fin2(t: X2V, n: int, p: int) -> X2V {
    X2V { scale: t.scale * n, prefactors: t.prefactors.push(p), ..t }
}

/// A candidate child is kept iff its multiplicity is positive and no exponent
/// went negative.
pub open spec fn keep2(t: X2V, n: int, p: int) -> Seq<X2V> {
    if n > 0 && nonneg2(t) {
        seq![fin2(t, n, p)]
    } else {
        Seq::empty()
    }
}

/// The prefactor slot of the plain displacement term, by component and
/// center: slots 0..6 are the bra/ket displacements per axis, 6..9 the
/// operator-center displacements.
pub open spec fn islot2(c: int, f: int) -> int {
    if c == 0 {
        if f == 0 {
            0
        } else if f == 1 {
            1
        } else {
            6
        }
    } else if c == 1 {
        if f == 0 {
            2
        } else if f == 1 {
            3
        } else {
            7
        }
    } else {
        if f == 0 {
            4
        } else if f == 1 {
            5
        } else {
            8
        }
    }
}

/// The children of one recursion step that survive, in evaluation order:
/// the kind-specific Obara--Saika lowering pattern on function `f` and
/// component `c`.
pub open spec fn kept2(x: X2V, f: int, c: int) -> Seq<X2V> {
    let i1 = islot2(c, f);
    let b = 1 - f;
    let v = x.q[3 * f + c];
    let w = x.q[3 * b + c];
    let u = x.operator[c];
    match x.kind {
        X2kind::S => {
            let t0 = qd(x, 3 * f + c);
            keep2(t0, 1, i1) + keep2(qd(t0, 3 * f + c), v - 1, 6) + keep2(qd(t0, 3 * b + c), w, 7)
        },
        X2kind::T => {
            let t0 = qd(x, 3 * f + c);
            keep2(t0, 1, i1) + keep2(qd(t0, 3 * f + c), v - 1, 6) + keep2(qd(t0, 3 * b + c), w, 7)
                + keep2(to_s(x), 1, 8) + keep2(
                to_s(qd(t0, 3 * f + c)),
                v - 1,
                if f == 0 {
                    9
                } else {
                    10
                },
            )
        },
        X2kind::V => {
            let t0 = qd(x, 3 * f + c);
            let t2 = qd(t0, 3 * f + c);
            let t4 = qd(t0, 3 * b + c);
            keep2(t0, 1, i1) + keep2(bump2(t0), 1, 6 + c) + keep2(t2, v - 1, 9) + keep2(
                bump2(t2),
                v - 1,
                10,
            ) + keep2(t4, w, 9) + keep2(bump2(t4), w, 10)
        },
        X2kind::M => {
            if f == 2 {
                keep2(md(x, c), 1, i1) + keep2(md(md(x, c), c), u - 1, 9)
            } else {
                let t0 = qd(x, 3 * f + c);
                keep2(t0, 1, i1) + keep2(qd(t0, 3 * f + c), v - 1, 9) + keep2(
                    qd(t0, 3 * b + c),
                    w,
                    10,
                ) + keep2(md(t0, c), u, 11)
            }
        },
        X2kind::L => {
            let t0 = qd(x, 3 * f + c);
            keep2(t0, 1, i1) + keep2(qd(t0, 3 * f + c), v - 1, 6) + keep2(qd(t0, 3 * b + c), w, 7)
                + keep2(
                to_s(t0),
                if x.d == c {
                    1
                } else {
                    0
                },
                8 + x.d,
            ) + keep2(
                to_s(qd(t0, 3 * b)),
                if x.d == c && c == 0 {
                    1
                } else {
                    0
                },
                11,
            ) + keep2(
                to_s(qd(t0, 3 * b + 1)),
                if x.d == c && c == 1 {
                    1
                } else {
                    0
                },
                12,
            ) + keep2(
                to_s(qd(t0, 3 * b + 2)),
                if x.d == c && c == 2 {
                    1
                } else {
                    0
                },
                13,
            )
        },
        _ => Seq::empty(),
    }
}

/// The function the step descends on: the general scan over bra, ket and
/// operator, except that operator lowering is deferred until both Cartesian
/// centers are exhausted.
pub open spec fn pick2(x: X2V) -> int {
    let ov = x.q + x.operator;
    let f0 = pick_fun(ov, 3);
    if f0 == 2 && vsum(x.q) > 0 {
        pick_fun(x.q, 2)
    } else {
        f0
    }
}

/// The component the step descends on.
pub open spec fn comp2(x: X2V, f: int) -> int {
    let ov = x.q + x.operator;
    pick_comp(ov[3 * f], ov[3 * f + 1], ov[3 * f + 2])
}

/// Recursion measure: total momentum, with the kinetic kind above its own
/// overlap children that keep every exponent.
pub open spec fn m2(x: X2V) -> int {
    2 * osum2(x) + if x.kind == X2kind::T {
        1int
    } else {
        0int
    }
}

pub proof fn lemma_pick_fun_props(v: Seq<int>, n: int)
    requires
        0 <= n,
    ensures
        -1 <= pick_fun(v, n) < n,
        pick_fun(v, n) >= 0 ==> csum(v, pick_fun(v, n)) > 0,
        pick_fun(v, n) == -1 ==> forall|k: int| 0 <= k < n ==> #[trigger] csum(v, k) <= 0,
    decreases n,
{
    if n > 0 {
        lemma_pick_fun_props(v, n - 1);
    }
}

/// The selected center carries the smallest strictly positive momentum, and
/// ties go to the earlier center.
pub proof fn lemma_pick_fun_minimal(v: Seq<int>, n: int)
    requires
        0 <= n,
        pick_fun(v, n) >= 0,
    ensures
        forall|k: int|
            0 <= k < n && #[trigger] csum(v, k) > 0 ==> csum(v, pick_fun(v, n)) <= csum(v, k),
        forall|k: int|
            0 <= k < pick_fun(v, n) ==> !(#[trigger] csum(v, k) > 0 && csum(v, k) <= csum(
                v,
                pick_fun(v, n),
            )),
    decreases n,
{
    lemma_pick_fun_props(v, n);
    if n > 0 {
        lemma_pick_fun_props(v, n - 1);
        if pick_fun(v, n - 1) >= 0 {
            lemma_pick_fun_minimal(v, n - 1);
        }
    }
}

pub proof fn lemma_vsum3(v: Seq<int>)
    requires
        v.len() == 3,
    ensures
        vsum(v) == v[0] + v[1] + v[2],
{
    reveal_with_fuel(vsum, 5);
    assert(v.drop_first().len() == 2);
    assert(v.drop_first()[0] == v[1]);
    assert(v.drop_first().drop_first()[0] == v[2]);
    assert(v.drop_first().drop_first().drop_first().len() == 0);
}

pub proof fn lemma_vsum6(v: Seq<int>)
    requires
        v.len() == 6,
    ensures
        vsum(v) == csum(v, 0) + csum(v, 1),
{
    let t = v.drop_first().drop_first().drop_first();
    assert(t =~= seq![v[3], v[4], v[5]]);
    lemma_vsum3(t);
    reveal_with_fuel(vsum, 4);
    assert(v.drop_first()[0] == v[1]);
    assert(v.drop_first().drop_first()[0] == v[2]);
}

/// Lowering exponent `i` once: the factorial product drops by that factor.
pub proof fn lemma_ffx_q1(x: X2V, i: int)
    requires
        x.q.len() == 6,
        0 <= i < 6,
        x.q[i] >= 1,
    ensures
        ff2(qd(x, i)) * x.q[i] == ff2(x),
        ff2(qd(x, i)) >= 1,
        osum2(qd(x, i)) == osum2(x) - 1,
{
    lemma_ffprod_update(x.q, i);
    lemma_vsum_update(x.q, i, x.q[i] - 1);
    lemma_ffprod_pos(qd(x, i).q);
    lemma_ffprod_pos(x.operator);
    let a = ffprod(qd(x, i).q);
    let o = ffprod(x.operator);
    assert((a * o) * x.q[i] == (a * x.q[i]) * o) by (nonlinear_arith);
    assert(a * o >= 1) by (nonlinear_arith)
        requires
            a >= 1,
            o >= 1,
    ;
}

/// Lowering exponent `i` twice: the product drops by both factors.
pub proof fn lemma_ffx_q2(x: X2V, i: int)
    requires
        x.q.len() == 6,
        0 <= i < 6,
        x.q[i] >= 2,
    ensures
        ff2(qd(qd(x, i), i)) * ((x.q[i] - 1) * x.q[i]) == ff2(x),
        ff2(qd(qd(x, i), i)) >= 1,
        osum2(qd(qd(x, i), i)) == osum2(x) - 2,
{
    let t = qd(x, i);
    lemma_ffx_q1(x, i);
    assert(t.q[i] == x.q[i] - 1);
    lemma_ffx_q1(t, i);
    let a = ff2(qd(t, i));
    assert((a * (x.q[i] - 1)) * x.q[i] == a * ((x.q[i] - 1) * x.q[i])) by (nonlinear_arith);
}

/// Lowering two different exponents once each.
pub proof fn lemma_ffx_q11(x: X2V, i: int, j: int)
    requires
        x.q.len() == 6,
        0 <= i < 6,
        0 <= j < 6,
        i != j,
        x.q[i] >= 1,
        x.q[j] >= 1,
    ensures
        ff2(qd(qd(x, i), j)) * (x.q[i] * x.q[j]) == ff2(x),
        ff2(qd(qd(x, i), j)) >= 1,
        osum2(qd(qd(x, i), j)) == osum2(x) - 2,
{
    let t = qd(x, i);
    lemma_ffx_q1(x, i);
    assert(t.q[j] == x.q[j]);
    lemma_ffx_q1(t, j);
    let a = ff2(qd(t, j));
    assert((a * x.q[j]) * x.q[i] == a * (x.q[i] * x.q[j])) by (nonlinear_arith);
}

/// Lowering operator moment `c` once.
pub proof fn lemma_ffx_m1(x: X2V, c: int)
    requires
        x.operator.len() == 3,
        0 <= c < 3,
        x.operator[c] >= 1,
    ensures
        ff2(md(x, c)) * x.operator[c] == ff2(x),
        ff2(md(x, c)) >= 1,
        osum2(md(x, c)) == osum2(x) - 1,
{
    lemma_ffprod_update(x.operator, c);
    lemma_vsum_update(x.operator, c, x.operator[c] - 1);
    lemma_ffprod_pos(md(x, c).operator);
    lemma_ffprod_pos(x.q);
    let a = ffprod(x.q);
    let o = ffprod(md(x, c).operator);
    assert((a * o) * x.operator[c] == a * (o * x.operator[c])) by (nonlinear_arith);
    assert(a * o >= 1) by (nonlinear_arith)
        requires
            a >= 1,
            o >= 1,
    ;
}

/// Lowering operator moment `c` twice.
pub proof fn lemma_ffx_m2(x: X2V, c: int)
    requires
        x.operator.len() == 3,
        0 <= c < 3,
        x.operator[c] >= 2,
    ensures
        ff2(md(md(x, c), c)) * ((x.operator[c] - 1) * x.operator[c]) == ff2(x),
        ff2(md(md(x, c), c)) >= 1,
        osum2(md(md(x, c), c)) == osum2(x) - 2,
{
    let t = md(x, c);
    lemma_ffx_m1(x, c);
    assert(t.operator[c] == x.operator[c] - 1);
    lemma_ffx_m1(t, c);
    let a = ff2(md(t, c));
    assert((a * (x.operator[c] - 1)) * x.operator[c] == a * ((x.operator[c] - 1) * x.operator[c]))
        by (nonlinear_arith);
}

/// Lowering one exponent and one operator moment.
pub proof fn lemma_ffx_qm(x: X2V, i: int, c: int)
    requires
        x.q.len() == 6,
        x.operator.len() == 3,
        0 <= i < 6,
        0 <= c < 3,
        x.q[i] >= 1,
        x.operator[c] >= 1,
    ensures
        ff2(md(qd(x, i), c)) * (x.q[i] * x.operator[c]) == ff2(x),
        ff2(md(qd(x, i), c)) >= 1,
        osum2(md(qd(x, i), c)) == osum2(x) - 2,
{
    let t = qd(x, i);
    lemma_ffx_q1(x, i);
    assert(t.operator[c] == x.operator[c]);
    lemma_ffx_m1(t, c);
    let a = ff2(md(t, c));
    assert((a * x.operator[c]) * x.q[i] == a * (x.q[i] * x.operator[c])) by (nonlinear_arith);
}

/// A surviving child of a well-formed term is well-formed, strictly smaller
/// in the recursion measure, and extends the prefactor list by one in-range
/// slot.  `dv` is the product of the exponent values the step lowered, which
/// bounds the child's multiplicity.
pub proof fn lemma_keep_ok(x: X2V, t: X2V, n: int, p: int, dv: int)
    requires
        wf2(x),
        t.q.len() == 6,
        t.operator.len() == 3,
        t.scale == x.scale,
        t.prefactors == x.prefactors,
        t.d == x.d,
        t.kind == x.kind || t.kind == X2kind::S,
        t.kind == X2kind::M || opzero2(t),
        0 <= t.order,
        t.order + osum2(t) <= x.order + osum2(x),
        m2(t) < m2(x),
        osum2(t) <= osum2(x),
        n <= dv,
        ff2(t) * dv == ff2(x),
        ff2(t) >= 1,
        0 <= p < pref_bound2(x.kind),
    ensures
        keep2(t, n, p).len() <= 1,
        n > 0 && nonneg2(t) ==> {
            let y = fin2(t, n, p);
            &&& keep2(t, n, p) == seq![y]
            &&& wf2(y)
            &&& m2(y) < m2(x)
            &&& 0 <= m2(y)
            &&& y.order + osum2(y) <= x.order + osum2(x)
            &&& pref_bound2(y.kind) <= pref_bound2(x.kind)
            &&& y.prefactors == x.prefactors.push(p)
            &&& t.scale * n <= u64::MAX
            &&& child_ok(x, y)
        },
{
    if n > 0 && nonneg2(t) {
        let y = fin2(t, n, p);
        lemma_vsum_nonneg(t.q);
        lemma_vsum_nonneg(t.operator);
        assert(osum2(y) == osum2(t));
        assert(ff2(y) == ff2(t));
        assert(y.scale == x.scale * n);
        assert(y.scale >= 1) by (nonlinear_arith)
            requires
                y.scale == x.scale * n,
                x.scale >= 1,
                n >= 1,
        ;
        assert(y.scale * ff2(y) <= u64::MAX) by (nonlinear_arith)
            requires
                y.scale == x.scale * n,
                ff2(y) == ff2(t),
                1 <= n <= dv,
                ff2(t) >= 1,
                x.scale >= 1,
                ff2(t) * dv == ff2(x),
                x.scale * ff2(x) <= u64::MAX,
        ;
        assert(wf2(y));
        lemma_ff2_pos(y);
        assert(t.scale * n <= u64::MAX) by (nonlinear_arith)
            requires
                y.scale == t.scale * n,
                y.scale * ff2(y) <= u64::MAX,
                ff2(y) >= 1,
                y.scale >= 1,
        ;
    }
}

pub proof fn lemma_vsum_concat(a: Seq<int>, b: Seq<int>)
    ensures
        vsum(a + b) == vsum(a) + vsum(b),
    decreases a.len(),
{
    if a.len() == 0 {
        assert(a + b =~= b);
    } else {
        assert((a + b).drop_first() =~= a.drop_first() + b);
        lemma_vsum_concat(a.drop_first(), b);
    }
}

pub proof fn lemma_csum_le_vsum(v: Seq<int>, i: int)
    requires
        0 <= i,
        3 * i + 3 <= v.len(),
        forall|k: int| 0 <= k < v.len() ==> 0 <= #[trigger] v[k],
    ensures
        0 < csum(v, i) ==> csum(v, i) <= vsum(v),
        0 <= csum(v, i),
{
    let a = v.take(3 * i);
    let m = v.subrange(3 * i, 3 * i + 3);
    let z = v.skip(3 * i + 3);
    assert(v =~= a + m + z);
    lemma_vsum_concat(a + m, z);
    lemma_vsum_concat(a, m);
    lemma_vsum3(m);
    lemma_vsum_nonneg(a);
    lemma_vsum_nonneg(z);
    assert(m[0] == v[3 * i] && m[1] == v[3 * i + 1] && m[2] == v[3 * i + 2]);
}

/// Properties of the descent selection on a well-formed term with momentum
/// left: a center is always found, the operator center only for a multipole
/// term whose Cartesian exponents are exhausted, and the selected component
/// is positive.
pub proof fn lemma_pick2_props(x: X2V)
    requires
        wf2(x),
        osum2(x) > 0,
    ensures
        0 <= pick2(x) < 3,
        pick2(x) == 2 ==> x.kind == X2kind::M && vsum(x.q) == 0,
        0 <= comp2(x, pick2(x)) < 3,
        pick2(x) < 2 ==> x.q[3 * pick2(x) + comp2(x, pick2(x))] > 0,
        pick2(x) == 2 ==> x.operator[comp2(x, pick2(x))] > 0,
{
    let ov = x.q + x.operator;
    let f0 = pick_fun(ov, 3);
    lemma_pick_fun_props(ov, 3);
    lemma_pick_fun_props(x.q, 2);
    lemma_vsum6(x.q);
    lemma_vsum3(x.operator);
    assert(csum(ov, 0) == csum(x.q, 0) && csum(ov, 1) == csum(x.q, 1));
    assert(csum(ov, 2) == x.operator[0] + x.operator[1] + x.operator[2]);
    lemma_vsum_nonneg(x.q);
    lemma_vsum_nonneg(x.operator);
    if f0 == -1 {
        assert(csum(ov, 0) <= 0 && csum(ov, 1) <= 0 && csum(ov, 2) <= 0);
        assert(false);
    }
    let f = pick2(x);
    if f0 == 2 && vsum(x.q) > 0 {
        assert(f == pick_fun(x.q, 2));
        if f == -1 {
            assert(csum(x.q, 0) <= 0 && csum(x.q, 1) <= 0);
            assert(false);
        }
        assert(csum(x.q, f) > 0);
    } else if f0 == 2 {
        assert(vsum(x.q) == 0);
        assert(csum(ov, 2) > 0);
        if x.kind != X2kind::M {
            assert(x.operator[0] == 0 && x.operator[1] == 0 && x.operator[2] == 0);
            assert(false);
        }
    } else {
        assert(csum(ov, f) > 0);
    }
    let c = comp2(x, f);
    if f < 2 {
        assert(ov[3 * f] == x.q[3 * f] && ov[3 * f + 1] == x.q[3 * f + 1] && ov[3 * f + 2] == x.q[3
            * f + 2]);
        assert(csum(x.q, f) > 0);
    } else {
        assert(ov[6] == x.operator[0] && ov[7] == x.operator[1] && ov[8] == x.operator[2]);
    }
}

pub proof fn lemma_ff2_pos(x: X2V)
    ensures
        ff2(x) >= 1,
{
    lemma_ffprod_pos(x.q);
    lemma_ffprod_pos(x.operator);
    assert(ffprod(x.q) * ffprod(x.operator) >= 1) by (nonlinear_arith)
        requires
            ffprod(x.q) >= 1,
            ffprod(x.operator) >= 1,
    ;
}

/// What one recursion step guarantees of each surviving child.
pub open spec fn child_ok(x: X2V, y: X2V) -> bool {
    &&& wf2(y)
    &&& y.kind == x.kind || y.kind == X2kind::S
    &&& 0 <= m2(y) < m2(x)
    &&& y.order + osum2(y) <= x.order + osum2(x)
    &&& pref_bound2(y.kind) <= pref_bound2(x.kind)
    &&& exists|p: int|
        0 <= p < pref_bound2(x.kind) && y.prefactors == x.prefactors.push(p)
}

/// Every child a step keeps is a sound recursion target.
pub proof fn lemma_kept2_ok(x: X2V)
    requires
        wf2(x),
        osum2(x) > 0,
    ensures
        kept2(x, pick2(x), comp2(x, pick2(x))).len() <= 7,
        forall|k: int|
            0 <= k < kept2(x, pick2(x), comp2(x, pick2(x))).len() ==> child_ok(
                x,
                #[trigger] kept2(x, pick2(x), comp2(x, pick2(x)))[k],
            ),
{
    match x.kind {
        X2kind::S => lemma_kept2_ok_s(x),
        X2kind::T => lemma_kept2_ok_t(x),
        X2kind::V => lemma_kept2_ok_v(x),
        X2kind::M => lemma_kept2_ok_m(x),
        X2kind::L => lemma_kept2_ok_l(x),
        _ => {},
    }
}

proof fn lemma_kept2_ok_s(x: X2V)
    requires
        wf2(x),
        osum2(x) > 0,
        x.kind == X2kind::S,
    ensures
        kept2(x, pick2(x), comp2(x, pick2(x))).len() <= 7,
        forall|k: int|
            0 <= k < kept2(x, pick2(x), comp2(x, pick2(x))).len() ==> child_ok(
                x,
                #[trigger] kept2(x, pick2(x), comp2(x, pick2(x)))[k],
            ),
{
    let f = pick2(x);
    let c = comp2(x, f);
    let ks = kept2(x, f, c);
    lemma_pick2_props(x);
    assert forall|k: int| 0 <= k < ks.len() implies child_ok(x, #[trigger] ks[k]) by {
        let i = 3 * f + c;
        let i1 = islot2(c, f);

                let b = 1 - f;
                let j = 3 * b + c;
                let t0 = qd(x, i);
                lemma_ffx_q1(x, i);
                lemma_keep_ok(x, t0, 1, i1, x.q[i]);
                let t1 = qd(t0, i);
                if x.q[i] - 1 > 0 && nonneg2(t1) {
                    lemma_ffx_q2(x, i);
                    assert(x.q[i] - 1 <= (x.q[i] - 1) * x.q[i]) by (nonlinear_arith)
                        requires
                            x.q[i] >= 2,
                    ;
                    lemma_keep_ok(x, t1, x.q[i] - 1, 6, (x.q[i] - 1) * x.q[i]);
                }
                let t2 = qd(t0, j);
                if x.q[j] > 0 && nonneg2(t2) {
                    lemma_ffx_q11(x, i, j);
                    assert(x.q[j] <= x.q[i] * x.q[j]) by (nonlinear_arith)
                        requires
                            x.q[i] >= 1,
                            x.q[j] >= 1,
                    ;
                    lemma_keep_ok(x, t2, x.q[j], 7, x.q[i] * x.q[j]);
                }
            
    }
}

proof fn lemma_kept2_ok_t(x: X2V)
    requires
        wf2(x),
        osum2(x) > 0,
        x.kind == X2kind::T,
    ensures
        kept2(x, pick2(x), comp2(x, pick2(x))).len() <= 7,
        forall|k: int|
            0 <= k < kept2(x, pick2(x), comp2(x, pick2(x))).len() ==> child_ok(
                x,
                #[trigger] kept2(x, pick2(x), comp2(x, pick2(x)))[k],
            ),
{
    let f = pick2(x);
    let c = comp2(x, f);
    let ks = kept2(x, f, c);
    lemma_pick2_props(x);
    assert forall|k: int| 0 <= k < ks.len() implies child_ok(x, #[trigger] ks[k]) by {
        let i = 3 * f + c;
        let i1 = islot2(c, f);

                let b = 1 - f;
                let j = 3 * b + c;
                let t0 = qd(x, i);
                lemma_ffx_q1(x, i);
                lemma_keep_ok(x, t0, 1, i1, x.q[i]);
                let t1 = qd(t0, i);
                if x.q[i] - 1 > 0 && nonneg2(t1) {
                    lemma_ffx_q2(x, i);
                    assert(x.q[i] - 1 <= (x.q[i] - 1) * x.q[i]) by (nonlinear_arith)
                        requires
                            x.q[i] >= 2,
                    ;
                    lemma_keep_ok(x, t1, x.q[i] - 1, 6, (x.q[i] - 1) * x.q[i]);
                    lemma_keep_ok(
                        x,
                        to_s(t1),
                        x.q[i] - 1,
                        if f == 0 {
                            9
                        } else {
                            10
                        },
                        (x.q[i] - 1) * x.q[i],
                    );
                }
                let t2 = qd(t0, j);
                if x.q[j] > 0 && nonneg2(t2) {
                    lemma_ffx_q11(x, i, j);
                    assert(x.q[j] <= x.q[i] * x.q[j]) by (nonlinear_arith)
                        requires
                            x.q[i] >= 1,
                            x.q[j] >= 1,
                    ;
                    lemma_keep_ok(x, t2, x.q[j], 7, x.q[i] * x.q[j]);
                }
                lemma_ff2_pos(x);
                lemma_keep_ok(x, to_s(x), 1, 8, 1);
            
    }
}

proof fn lemma_kept2_ok_v(x: X2V)
    requires
        wf2(x),
        osum2(x) > 0,
        x.kind == X2kind::V,
    ensures
        kept2(x, pick2(x), comp2(x, pick2(x))).len() <= 7,
        forall|k: int|
            0 <= k < kept2(x, pick2(x), comp2(x, pick2(x))).len() ==> child_ok(
                x,
                #[trigger] kept2(x, pick2(x), comp2(x, pick2(x)))[k],
            ),
{
    let f = pick2(x);
    let c = comp2(x, f);
    let ks = kept2(x, f, c);
    lemma_pick2_props(x);
    assert forall|k: int| 0 <= k < ks.len() implies child_ok(x, #[trigger] ks[k]) by {
        let i = 3 * f + c;
        let i1 = islot2(c, f);

                let b = 1 - f;
                let j = 3 * b + c;
                let t0 = qd(x, i);
                lemma_ffx_q1(x, i);
                lemma_keep_ok(x, t0, 1, i1, x.q[i]);
                lemma_keep_ok(x, bump2(t0), 1, 6 + c, x.q[i]);
                let t2 = qd(t0, i);
                if x.q[i] - 1 > 0 && nonneg2(t2) {
                    lemma_ffx_q2(x, i);
                    assert(x.q[i] - 1 <= (x.q[i] - 1) * x.q[i]) by (nonlinear_arith)
                        requires
                            x.q[i] >= 2,
                    ;
                    lemma_keep_ok(x, t2, x.q[i] - 1, 9, (x.q[i] - 1) * x.q[i]);
                    lemma_keep_ok(x, bump2(t2), x.q[i] - 1, 10, (x.q[i] - 1) * x.q[i]);
                }
                let t4 = qd(t0, j);
                if x.q[j] > 0 && nonneg2(t4) {
                    lemma_ffx_q11(x, i, j);
                    assert(x.q[j] <= x.q[i] * x.q[j]) by (nonlinear_arith)
                        requires
                            x.q[i] >= 1,
                            x.q[j] >= 1,
                    ;
                    lemma_keep_ok(x, t4, x.q[j], 9, x.q[i] * x.q[j]);
                    lemma_keep_ok(x, bump2(t4), x.q[j], 10, x.q[i] * x.q[j]);
                }
            
    }
}

proof fn lemma_kept2_ok_m(x: X2V)
    requires
        wf2(x),
        osum2(x) > 0,
        x.kind == X2kind::M,
    ensures
        kept2(x, pick2(x), comp2(x, pick2(x))).len() <= 7,
        forall|k: int|
            0 <= k < kept2(x, pick2(x), comp2(x, pick2(x))).len() ==> child_ok(
                x,
                #[trigger] kept2(x, pick2(x), comp2(x, pick2(x)))[k],
            ),
{
    let f = pick2(x);
    let c = comp2(x, f);
    let ks = kept2(x, f, c);
    lemma_pick2_props(x);
    assert forall|k: int| 0 <= k < ks.len() implies child_ok(x, #[trigger] ks[k]) by {
        let i = 3 * f + c;
        let i1 = islot2(c, f);

                if f == 2 {
                    let u = x.operator[c];
                    let t0 = md(x, c);
                    lemma_ffx_m1(x, c);
                    lemma_keep_ok(x, t0, 1, i1, u);
                    let t1 = md(t0, c);
                    if u - 1 > 0 && nonneg2(t1) {
                        lemma_ffx_m2(x, c);
                        assert(u - 1 <= (u - 1) * u) by (nonlinear_arith)
                            requires
                                u >= 2,
                        ;
                        lemma_keep_ok(x, t1, u - 1, 9, (u - 1) * u);
                    }
                } else {
                    let b = 1 - f;
                    let j = 3 * b + c;
                    let u = x.operator[c];
                    let t0 = qd(x, i);
                    lemma_ffx_q1(x, i);
                    lemma_keep_ok(x, t0, 1, i1, x.q[i]);
                    let t1 = qd(t0, i);
                    if x.q[i] - 1 > 0 && nonneg2(t1) {
                        lemma_ffx_q2(x, i);
                        assert(x.q[i] - 1 <= (x.q[i] - 1) * x.q[i]) by (nonlinear_arith)
                            requires
                                x.q[i] >= 2,
                        ;
                        lemma_keep_ok(x, t1, x.q[i] - 1, 9, (x.q[i] - 1) * x.q[i]);
                    }
                    let t2 = qd(t0, j);
                    if x.q[j] > 0 && nonneg2(t2) {
                        lemma_ffx_q11(x, i, j);
                        assert(x.q[j] <= x.q[i] * x.q[j]) by (nonlinear_arith)
                            requires
                                x.q[i] >= 1,
                                x.q[j] >= 1,
                        ;
                        lemma_keep_ok(x, t2, x.q[j], 10, x.q[i] * x.q[j]);
                    }
                    let t3 = md(t0, c);
                    if u > 0 && nonneg2(t3) {
                        lemma_ffx_qm(x, i, c);
                        assert(u <= x.q[i] * u) by (nonlinear_arith)
                            requires
                                x.q[i] >= 1,
                                u >= 1,
                        ;
                        lemma_keep_ok(x, t3, u, 11, x.q[i] * u);
                    }
                }
            
    }
}

proof fn lemma_kept2_ok_l(x: X2V)
    requires
        wf2(x),
        osum2(x) > 0,
        x.kind == X2kind::L,
    ensures
        kept2(x, pick2(x), comp2(x, pick2(x))).len() <= 7,
        forall|k: int|
            0 <= k < kept2(x, pick2(x), comp2(x, pick2(x))).len() ==> child_ok(
                x,
                #[trigger] kept2(x, pick2(x), comp2(x, pick2(x)))[k],
            ),
{
    let f = pick2(x);
    let c = comp2(x, f);
    let ks = kept2(x, f, c);
    lemma_pick2_props(x);
    assert forall|k: int| 0 <= k < ks.len() implies child_ok(x, #[trigger] ks[k]) by {
        let i = 3 * f + c;
        let i1 = islot2(c, f);

                let b = 1 - f;
                let j = 3 * b + c;
                let t0 = qd(x, i);
                lemma_ffx_q1(x, i);
                lemma_keep_ok(x, t0, 1, i1, x.q[i]);
                let t1 = qd(t0, i);
                if x.q[i] - 1 > 0 && nonneg2(t1) {
                    lemma_ffx_q2(x, i);
                    assert(x.q[i] - 1 <= (x.q[i] - 1) * x.q[i]) by (nonlinear_arith)
                        requires
                            x.q[i] >= 2,
                    ;
                    lemma_keep_ok(x, t1, x.q[i] - 1, 6, (x.q[i] - 1) * x.q[i]);
                }
                let t2 = qd(t0, j);
                if x.q[j] > 0 && nonneg2(t2) {
                    lemma_ffx_q11(x, i, j);
                    assert(x.q[j] <= x.q[i] * x.q[j]) by (nonlinear_arith)
                        requires
                            x.q[i] >= 1,
                            x.q[j] >= 1,
                    ;
                    lemma_keep_ok(x, t2, x.q[j], 7, x.q[i] * x.q[j]);
                }
                if x.d == c && nonneg2(to_s(t0)) {
                    lemma_keep_ok(x, to_s(t0), 1, 8 + x.d, x.q[i]);
                }
                if x.d == c && c == 0 && nonneg2(to_s(qd(t0, 3 * b))) {
                    assert(to_s(qd(t0, 3 * b)).q[3 * b] >= 0);
                    assert(x.q[3 * b] >= 1);
                    lemma_ffx_q11(x, i, 3 * b);
                    assert(1 <= x.q[i] * x.q[3 * b]) by (nonlinear_arith)
                        requires
                            x.q[i] >= 1,
                            x.q[3 * b] >= 1,
                    ;
                    lemma_keep_ok(x, to_s(qd(t0, 3 * b)), 1, 11, x.q[i] * x.q[3 * b]);
                }
                if x.d == c && c == 1 && nonneg2(to_s(qd(t0, 3 * b + 1))) {
                    assert(to_s(qd(t0, 3 * b + 1)).q[3 * b + 1] >= 0);
                    assert(x.q[3 * b + 1] >= 1);
                    lemma_ffx_q11(x, i, 3 * b + 1);
                    assert(1 <= x.q[i] * x.q[3 * b + 1]) by (nonlinear_arith)
                        requires
                            x.q[i] >= 1,
                            x.q[3 * b + 1] >= 1,
                    ;
                    lemma_keep_ok(x, to_s(qd(t0, 3 * b + 1)), 1, 12, x.q[i] * x.q[3 * b + 1]);
                }
                if x.d == c && c == 2 && nonneg2(to_s(qd(t0, 3 * b + 2))) {
                    assert(to_s(qd(t0, 3 * b + 2)).q[3 * b + 2] >= 0);
                    assert(x.q[3 * b + 2] >= 1);
                    lemma_ffx_q11(x, i, 3 * b + 2);
                    assert(1 <= x.q[i] * x.q[3 * b + 2]) by (nonlinear_arith)
                        requires
                            x.q[i] >= 1,
                            x.q[3 * b + 2] >= 1,
                    ;
                    lemma_keep_ok(x, to_s(qd(t0, 3 * b + 2)), 1, 13, x.q[i] * x.q[3 * b + 2]);
                }
            
    }
}

/// The full expansion of a term: the ordered list of base-case terms the
/// Obara--Saika descent produces from it.  A term with no momentum left (or
/// a kind without a recursion pattern) expands to itself alone; otherwise
/// every surviving child of one lowering step is expanded in turn.
pub open spec fn expand2_spec(x: X2V) -> Seq<X2V>
    decreases m2(x),
    when wf2(x)
    via expand2_spec_dec
{
    if osum2(x) == 0 {
        seq![x]
    } else {
        let f = pick2(x);
        if f < 0 {
            seq![x]
        } else {
            let ks = kept2(x, f, comp2(x, f));
            (if ks.len() > 0 {
                expand2_spec(ks[0])
            } else {
                Seq::empty()
            }) + (if ks.len() > 1 {
                expand2_spec(ks[1])
            } else {
                Seq::empty()
            }) + (if ks.len() > 2 {
                expand2_spec(ks[2])
            } else {
                Seq::empty()
            }) + (if ks.len() > 3 {
                expand2_spec(ks[3])
            } else {
                Seq::empty()
            }) + (if ks.len() > 4 {
                expand2_spec(ks[4])
            } else {
                Seq::empty()
            }) + (if ks.len() > 5 {
                expand2_spec(ks[5])
            } else {
                Seq::empty()
            }) + (if ks.len() > 6 {
                expand2_spec(ks[6])
            } else {
                Seq::empty()
            })
        }
    }
}

#[via_fn]
proof fn expand2_spec_dec(x: X2V) {
    if wf2(x) && osum2(x) != 0 {
        lemma_vsum_nonneg(x.q);
        lemma_vsum_nonneg(x.operator);
        if pick2(x) >= 0 {
            lemma_kept2_ok(x);
        }
    }
}

/// The expansions of the first `k` terms of `s`, in order.
pub open spec fn expand_pref(s: Seq<X2V>, k: int) -> Seq<X2V>
    decreases k,
{
    if k <= 0 {
        Seq::empty()
    } else {
        expand_pref(s, k - 1) + expand2_spec(s[k - 1])
    }
}

/// One step of the descent: the full expansion is the concatenation of the
/// expansions of the kept children.
#[verifier::rlimit(50)]
pub proof fn lemma_expand2_unfold(x: X2V)
    requires
        wf2(x),
        osum2(x) > 0,
        pick2(x) >= 0,
    ensures
        expand2_spec(x) == expand_pref(
            kept2(x, pick2(x), comp2(x, pick2(x))),
            kept2(x, pick2(x), comp2(x, pick2(x))).len() as int,
        ),
{
    let ks = kept2(x, pick2(x), comp2(x, pick2(x)));
    let n = ks.len() as int;
    lemma_kept2_ok(x);
    lemma_vsum_nonneg(x.q);
    lemma_vsum_nonneg(x.operator);
    reveal_with_fuel(expand_pref, 9);
    assert(expand2_spec(x) =~= expand_pref(ks, n));
}

/// The views of a list of terms.
pub open spec fn views2(s: Seq<X2>) -> Seq<X2V> {
    s.map_values(|t: X2| t@)
}

pub proof fn lemma_vsum_take_step(w: Seq<int>, i: int)
    requires
        0 <= i < w.len(),
    ensures
        vsum(w.take(i + 1)) == vsum(w.take(i)) + w[i],
{
    assert(w.take(i + 1) =~= w.take(i) + seq![w[i]]);
    lemma_vsum_concat(w.take(i), seq![w[i]]);
    reveal_with_fuel(vsum, 2);
}

/// Sum of a short vector of exponents.
fn sum_i8(v: &Vec<i8>) -> (s: i32)
    requires
        v@.len() <= 16,
    ensures
        s == vsum(iview(v@)),
{
    let ghost w = iview(v@);
    let mut s: i32 = 0;
    let mut i: usize = 0;
    while i < v.len()
        invariant
            0 <= i <= v@.len() <= 16,
            w == iview(v@),
            s == vsum(w.take(i as int)),
            -128 * i <= s <= 127 * i,
        decreases v@.len() - i,
    {
        proof {
            lemma_vsum_take_step(w, i as int);
        }
        s = s + (v[i] as i32);
        i += 1;
    }
    proof {
        assert(w.take(v@.len() as int) =~= w);
    }
    s
}

/// An owned copy of a term.
fn copy_term(x: &X2) -> (r: X2)
    ensures
        r@ == x@,
{
    let q = x.q.clone();
    let operator = x.operator.clone();
    let prefactors = x.prefactors.clone();
    proof {
        assert(q@ =~= x.q@);
        assert(operator@ =~= x.operator@);
        assert(prefactors@ =~= x.prefactors@);
    }
    let r = X2 {
        scale: x.scale,
        prefactors,
        q,
        kind: x.kind,
        operator,
        d: x.d,
        order: x.order,
    };
    proof {
        assert(r@ =~= x@);
    }
    r
}

/// Lower exponent `i` of `t` once.
fn dec_q(t: &mut X2, i: usize)
    requires
        i < old(t)@.q.len(),
        -127 <= old(t)@.q[i as int],
    ensures
        final(t)@ == qd(old(t)@, i as int),
{
    let v = t.q[i];
    t.q[i] = v - 1;
    proof {
        assert(iview(t.q@) =~= old(t)@.q.update(i as int, old(t)@.q[i as int] - 1));
        assert(t@ =~= qd(old(t)@, i as int));
    }
}

/// Lower operator moment `i` of `t` once.
fn dec_op(t: &mut X2, i: usize)
    requires
        i < old(t)@.operator.len(),
        -127 <= old(t)@.operator[i as int],
    ensures
        final(t)@ == md(old(t)@, i as int),
{
    let v = t.operator[i];
    t.operator[i] = v - 1;
    proof {
        assert(iview(t.operator@) =~= old(t)@.operator.update(
            i as int,
            old(t)@.operator[i as int] - 1,
        ));
        assert(t@ =~= md(old(t)@, i as int));
    }
}

/// Demote `t` to an overlap term.
fn demote_s(t: &mut X2)
    ensures
        final(t)@ == to_s(old(t)@),
{
    t.kind = X2kind::S;
    proof {
        assert(t@ =~= to_s(old(t)@));
    }
}

/// Raise the Boys order of `t`.
fn bump_ord(t: &mut X2)
    requires
        old(t)@.order < 255,
    ensures
        final(t)@ == bump2(old(t)@),
{
    t.order = t.order + 1;
    proof {
        assert(t@ =~= bump2(old(t)@));
    }
}

/// Do all exponents and operator moments of `t` remain non-negative?
fn nonneg_exec(t: &X2) -> (r: bool)
    ensures
        r == nonneg2(t@),
{
    let mut i: usize = 0;
    while i < t.q.len()
        invariant
            0 <= i <= t.q@.len(),
            forall|k: int| 0 <= k < i ==> 0 <= #[trigger] t@.q[k],
        decreases t.q@.len() - i,
    {
        if t.q[i] < 0 {
            assert(t@.q[i as int] < 0);
            return false;
        }
        i += 1;
    }
    let mut i: usize = 0;
    while i < t.operator.len()
        invariant
            0 <= i <= t.operator@.len(),
            forall|k: int| 0 <= k < t@.q.len() ==> 0 <= #[trigger] t@.q[k],
            forall|k: int| 0 <= k < i ==> 0 <= #[trigger] t@.operator[k],
        decreases t.operator@.len() - i,
    {
        if t.operator[i] < 0 {
            assert(t@.operator[i as int] < 0);
            return false;
        }
        i += 1;
    }
    true
}

/// Keep the candidate child `t` if its multiplicity `n` is positive and no
/// exponent went negative: fold the multiplicity into its coefficient and
/// record prefactor slot `p`.
fn push_kept(ch: &mut Vec<X2>, t: X2, n: i8, p: usize)
    requires
        (n > 0 && nonneg2(t@)) ==> t@.scale * n <= u64::MAX,
    ensures
        views2(final(ch)@) == views2(old(ch)@) + keep2(t@, n as int, p as int),
{
    let ghost tv = t@;
    if n > 0 && nonneg_exec(&t) {
        let mut y = t;
        y.scale = y.scale * (n as u64);
        y.prefactors.push(p);
        proof {
            assert(y@ =~= fin2(tv, n as int, p as int));
        }
        ch.push(y);
        proof {
            assert(keep2(tv, n as int, p as int) =~= seq![fin2(tv, n as int, p as int)]);
            assert(views2(ch@) =~= views2(old(ch)@) + keep2(tv, n as int, p as int));
        }
    } else {
        proof {
            assert(keep2(tv, n as int, p as int) =~= Seq::<X2V>::empty());
            assert(views2(ch@) =~= views2(ch@) + keep2(tv, n as int, p as int));
        }
    }
}

/// The prefactor slot of the displacement term, by component and center.
fn islot2_exec(c: usize, f: usize) -> (r: usize)
    requires
        c < 3,
        f < 3,
    ensures
        r as int == islot2(c as int, f as int),
{
    if c == 0 {
        if f == 0 {
            0
        } else if f == 1 {
            1
        } else {
            6
        }
    } else if c == 1 {
        if f == 0 {
            2
        } else if f == 1 {
            3
        } else {
            7
        }
    } else {
        if f == 0 {
            4
        } else if f == 1 {
            5
        } else {
            8
        }
    }
}

impl X2 {
    /// The nine angular-momentum orders of the term: the six Cartesian
    /// exponents followed by the three operator moments.
    pub fn orders(&self) -> (r: Vec<i8>)
        requires
            self@.q.len() == 6,
            self@.operator.len() == 3,
        ensures
            iview(r@) == self@.q + self@.operator,
    {
        let mut r: Vec<i8> = Vec::new();
        let mut i: usize = 0;
        while i < self.q.len()
            invariant
                0 <= i <= self.q@.len(),
                self@.q.len() == 6,
                r@.len() == i,
                forall|k: int| 0 <= k < i ==> #[trigger] r@[k] == self.q@[k],
            decreases self.q@.len() - i,
        {
            r.push(self.q[i]);
            i += 1;
        }
        let mut i: usize = 0;
        while i < self.operator.len()
            invariant
                0 <= i <= self.operator@.len(),
                self@.q.len() == 6,
                self@.operator.len() == 3,
                r@.len() == 6 + i,
                forall|k: int| 0 <= k < 6 ==> #[trigger] r@[k] == self.q@[k],
                forall|k: int| 0 <= k < i ==> #[trigger] r@[6 + k] == self.operator@[k],
            decreases self.operator@.len() - i,
        {
            r.push(self.operator[i]);
            i += 1;
        }
        proof {
            assert forall|k: int| 0 <= k < 9 implies iview(r@)[k] == (self@.q
                + self@.operator)[k] by {
                if k < 6 {
                    assert(r@[k] == self.q@[k]);
                } else {
                    assert(r@[6 + (k - 6)] == self.operator@[k - 6]);
                }
            }
            assert(iview(r@) =~= self@.q + self@.operator);
        }
        r
    }
}

fn children_s(x: &X2, f: usize, c: usize) -> (ch: Vec<X2>)
    requires
        wf2(x@),
        x@.kind == X2kind::S,
        osum2(x@) > 0,
        f as int == pick2(x@),
        c as int == comp2(x@, f as int),
        0 <= f < 3,
        0 <= c < 3,
    ensures
        views2(ch@) == kept2(x@, f as int, c as int),
{
    let ghost xv = x@;
    let ghost ks = kept2(xv, f as int, c as int);
    proof {
        lemma_pick2_props(xv);
    }
    let mut ch: Vec<X2> = Vec::new();

            proof {
                assert(f < 2);
            }
            let b = 1 - f;
            let i = 3 * f + c;
            let j = 3 * b + c;
            let i1 = islot2_exec(c, f);
            let v = x.q[i];
            let w = x.q[j];
            proof {
                assert(xv.q[i as int] >= 1);
            }

            let mut t0 = copy_term(x);
            dec_q(&mut t0, i);
            proof {
                assert((1i8 > 0 && nonneg2(t0@)) ==> t0@.scale * 1 <= u64::MAX) by {
                    if nonneg2(t0@) {
                        lemma_ffx_q1(xv, i as int);
                        lemma_keep_ok(xv, t0@, 1, i1 as int, xv.q[i as int]);
                    }
                }
            }
            push_kept(&mut ch, t0, 1, i1);

            let mut t1 = copy_term(x);
            dec_q(&mut t1, i);
            dec_q(&mut t1, i);
            proof {
                assert((v - 1 > 0 && nonneg2(t1@)) ==> t1@.scale * (v - 1) <= u64::MAX) by {
                    if v - 1 > 0 && nonneg2(t1@) {
                        lemma_ffx_q2(xv, i as int);
                        assert(xv.q[i as int] - 1 <= (xv.q[i as int] - 1) * xv.q[i as int])
                            by (nonlinear_arith)
                            requires
                                xv.q[i as int] >= 2,
                        ;
                        lemma_keep_ok(
                            xv,
                            t1@,
                            v - 1,
                            6,
                            (xv.q[i as int] - 1) * xv.q[i as int],
                        );
                    }
                }
            }
            push_kept(&mut ch, t1, v - 1, 6);

            let mut t2 = copy_term(x);
            dec_q(&mut t2, i);
            dec_q(&mut t2, j);
            proof {
                assert((w > 0 && nonneg2(t2@)) ==> t2@.scale * w <= u64::MAX) by {
                    if w > 0 && nonneg2(t2@) {
                        lemma_ffx_q11(xv, i as int, j as int);
                        assert(xv.q[j as int] <= xv.q[i as int] * xv.q[j as int])
                            by (nonlinear_arith)
                            requires
                                xv.q[i as int] >= 1,
                                xv.q[j as int] >= 1,
                        ;
                        lemma_keep_ok(xv, t2@, w as int, 7, xv.q[i as int] * xv.q[j as int]);
                    }
                }
            }
            push_kept(&mut ch, t2, w, 7);
            proof {
                assert(views2(ch@) =~= ks);
            }
        
    ch
}

fn children_t(x: &X2, f: usize, c: usize) -> (ch: Vec<X2>)
    requires
        wf2(x@),
        x@.kind == X2kind::T,
        osum2(x@) > 0,
        f as int == pick2(x@),
        c as int == comp2(x@, f as int),
        0 <= f < 3,
        0 <= c < 3,
    ensures
        views2(ch@) == kept2(x@, f as int, c as int),
{
    let ghost xv = x@;
    let ghost ks = kept2(xv, f as int, c as int);
    proof {
        lemma_pick2_props(xv);
    }
    let mut ch: Vec<X2> = Vec::new();

            proof {
                assert(f < 2);
            }
            let b = 1 - f;
            let i = 3 * f + c;
            let j = 3 * b + c;
            let i1 = islot2_exec(c, f);
            let v = x.q[i];
            let w = x.q[j];
            proof {
                assert(xv.q[i as int] >= 1);
            }

            let mut t0 = copy_term(x);
            dec_q(&mut t0, i);
            proof {
                assert((1i8 > 0 && nonneg2(t0@)) ==> t0@.scale * 1 <= u64::MAX) by {
                    if nonneg2(t0@) {
                        lemma_ffx_q1(xv, i as int);
                        lemma_keep_ok(xv, t0@, 1, i1 as int, xv.q[i as int]);
                    }
                }
            }
            push_kept(&mut ch, t0, 1, i1);

            let mut t1 = copy_term(x);
            dec_q(&mut t1, i);
            dec_q(&mut t1, i);
            proof {
                assert((v - 1 > 0 && nonneg2(t1@)) ==> t1@.scale * (v - 1) <= u64::MAX) by {
                    if v - 1 > 0 && nonneg2(t1@) {
                        lemma_ffx_q2(xv, i as int);
                        assert(xv.q[i as int] - 1 <= (xv.q[i as int] - 1) * xv.q[i as int])
                            by (nonlinear_arith)
                            requires
                                xv.q[i as int] >= 2,
                        ;
                        lemma_keep_ok(
                            xv,
                            t1@,
                            v - 1,
                            6,
                            (xv.q[i as int] - 1) * xv.q[i as int],
                        );
                    }
                }
            }
            push_kept(&mut ch, t1, v - 1, 6);

            let mut t2 = copy_term(x);
            dec_q(&mut t2, i);
            dec_q(&mut t2, j);
            proof {
                assert((w > 0 && nonneg2(t2@)) ==> t2@.scale * w <= u64::MAX) by {
                    if w > 0 && nonneg2(t2@) {
                        lemma_ffx_q11(xv, i as int, j as int);
                        assert(xv.q[j as int] <= xv.q[i as int] * xv.q[j as int])
                            by (nonlinear_arith)
                            requires
                                xv.q[i as int] >= 1,
                                xv.q[j as int] >= 1,
                        ;
                        lemma_keep_ok(xv, t2@, w as int, 7, xv.q[i as int] * xv.q[j as int]);
                    }
                }
            }
            push_kept(&mut ch, t2, w, 7);

            let mut t3 = copy_term(x);
            demote_s(&mut t3);
            proof {
                assert((1i8 > 0 && nonneg2(t3@)) ==> t3@.scale * 1 <= u64::MAX) by {
                    if nonneg2(t3@) {
                        lemma_ff2_pos(xv);
                        lemma_keep_ok(xv, t3@, 1, 8, 1);
                    }
                }
            }
            push_kept(&mut ch, t3, 1, 8);

            let p4 = if f == 0 {
                9
            } else {
                10
            };
            let mut t4 = copy_term(x);
            dec_q(&mut t4, i);
            dec_q(&mut t4, i);
            demote_s(&mut t4);
            proof {
                assert((v - 1 > 0 && nonneg2(t4@)) ==> t4@.scale * (v - 1) <= u64::MAX) by {
                    if v - 1 > 0 && nonneg2(t4@) {
                        lemma_ffx_q2(xv, i as int);
                        assert(xv.q[i as int] - 1 <= (xv.q[i as int] - 1) * xv.q[i as int])
                            by (nonlinear_arith)
                            requires
                                xv.q[i as int] >= 2,
                        ;
                        lemma_keep_ok(
                            xv,
                            t4@,
                            v - 1,
                            p4 as int,
                            (xv.q[i as int] - 1) * xv.q[i as int],
                        );
                    }
                }
            }
            push_kept(&mut ch, t4, v - 1, p4);
            proof {
                assert(views2(ch@) =~= ks);
            }
        
    ch
}

fn children_v(x: &X2, f: usize, c: usize) -> (ch: Vec<X2>)
    requires
        wf2(x@),
        x@.kind == X2kind::V,
        osum2(x@) > 0,
        f as int == pick2(x@),
        c as int == comp2(x@, f as int),
        0 <= f < 3,
        0 <= c < 3,
    ensures
        views2(ch@) == kept2(x@, f as int, c as int),
{
    let ghost xv = x@;
    let ghost ks = kept2(xv, f as int, c as int);
    proof {
        lemma_pick2_props(xv);
    }
    let mut ch: Vec<X2> = Vec::new();

            proof {
                assert(f < 2);
            }
            let b = 1 - f;
            let i = 3 * f + c;
            let j = 3 * b + c;
            let i1 = islot2_exec(c, f);
            let i2 = 6 + c;
            let v = x.q[i];
            let w = x.q[j];
            proof {
                assert(xv.q[i as int] >= 1);
                assert(xv.order < 255);
            }

            let mut t0 = copy_term(x);
            dec_q(&mut t0, i);
            let mut t1 = copy_term(x);
            dec_q(&mut t1, i);
            bump_ord(&mut t1);
            proof {
                assert(t1@ == bump2(qd(xv, i as int)));
                assert((1i8 > 0 && nonneg2(t0@)) ==> t0@.scale * 1 <= u64::MAX) by {
                    if nonneg2(t0@) {
                        lemma_ffx_q1(xv, i as int);
                        lemma_keep_ok(xv, t0@, 1, i1 as int, xv.q[i as int]);
                    }
                }
                assert((1i8 > 0 && nonneg2(t1@)) ==> t1@.scale * 1 <= u64::MAX) by {
                    if nonneg2(t1@) {
                        lemma_ffx_q1(xv, i as int);
                        lemma_keep_ok(xv, t1@, 1, i2 as int, xv.q[i as int]);
                    }
                }
            }
            push_kept(&mut ch, t0, 1, i1);
            push_kept(&mut ch, t1, 1, i2);

            let mut t2 = copy_term(x);
            dec_q(&mut t2, i);
            dec_q(&mut t2, i);
            let mut t3 = copy_term(x);
            dec_q(&mut t3, i);
            dec_q(&mut t3, i);
            bump_ord(&mut t3);
            proof {
                assert(t3@ == bump2(qd(qd(xv, i as int), i as int)));
                assert((v - 1 > 0 && nonneg2(t2@)) ==> t2@.scale * (v - 1) <= u64::MAX) by {
                    if v - 1 > 0 && nonneg2(t2@) {
                        lemma_ffx_q2(xv, i as int);
                        assert(xv.q[i as int] - 1 <= (xv.q[i as int] - 1) * xv.q[i as int])
                            by (nonlinear_arith)
                            requires
                                xv.q[i as int] >= 2,
                        ;
                        lemma_keep_ok(
                            xv,
                            t2@,
                            v - 1,
                            9,
                            (xv.q[i as int] - 1) * xv.q[i as int],
                        );
                    }
                }
                assert((v - 1 > 0 && nonneg2(t3@)) ==> t3@.scale * (v - 1) <= u64::MAX) by {
                    if v - 1 > 0 && nonneg2(t3@) {
                        lemma_ffx_q2(xv, i as int);
                        assert(xv.q[i as int] - 1 <= (xv.q[i as int] - 1) * xv.q[i as int])
                            by (nonlinear_arith)
                            requires
                                xv.q[i as int] >= 2,
                        ;
                        lemma_keep_ok(
                            xv,
                            t3@,
                            v - 1,
                            10,
                            (xv.q[i as int] - 1) * xv.q[i as int],
                        );
                    }
                }
            }
            push_kept(&mut ch, t2, v - 1, 9);
            push_kept(&mut ch, t3, v - 1, 10);

            let mut t4 = copy_term(x);
            dec_q(&mut t4, i);
            dec_q(&mut t4, j);
            let mut t5 = copy_term(x);
            dec_q(&mut t5, i);
            dec_q(&mut t5, j);
            bump_ord(&mut t5);
            proof {
                assert(t5@ == bump2(qd(qd(xv, i as int), j as int)));
                assert((w > 0 && nonneg2(t4@)) ==> t4@.scale * w <= u64::MAX) by {
                    if w > 0 && nonneg2(t4@) {
                        lemma_ffx_q11(xv, i as int, j as int);
                        assert(xv.q[j as int] <= xv.q[i as int] * xv.q[j as int])
                            by (nonlinear_arith)
                            requires
                                xv.q[i as int] >= 1,
                                xv.q[j as int] >= 1,
                        ;
                        lemma_keep_ok(xv, t4@, w as int, 9, xv.q[i as int] * xv.q[j as int]);
                    }
                }
                assert((w > 0 && nonneg2(t5@)) ==> t5@.scale * w <= u64::MAX) by {
                    if w > 0 && nonneg2(t5@) {
                        lemma_ffx_q11(xv, i as int, j as int);
                        assert(xv.q[j as int] <= xv.q[i as int] * xv.q[j as int])
                            by (nonlinear_arith)
                            requires
                                xv.q[i as int] >= 1,
                                xv.q[j as int] >= 1,
                        ;
                        lemma_keep_ok(xv, t5@, w as int, 10, xv.q[i as int] * xv.q[j as int]);
                    }
                }
            }
            push_kept(&mut ch, t4, w, 9);
            push_kept(&mut ch, t5, w, 10);
            proof {
                assert(views2(ch@) =~= ks);
            }
        
    ch
}

fn children_m(x: &X2, f: usize, c: usize) -> (ch: Vec<X2>)
    requires
        wf2(x@),
        x@.kind == X2kind::M,
        osum2(x@) > 0,
        f as int == pick2(x@),
        c as int == comp2(x@, f as int),
        0 <= f < 3,
        0 <= c < 3,
    ensures
        views2(ch@) == kept2(x@, f as int, c as int),
{
    let ghost xv = x@;
    let ghost ks = kept2(xv, f as int, c as int);
    proof {
        lemma_pick2_props(xv);
    }
    let mut ch: Vec<X2> = Vec::new();

            let i1 = islot2_exec(c, f);
            if f == 2 {
                let u = x.operator[c];
                proof {
                    assert(xv.operator[c as int] >= 1);
                }
                let mut t0 = copy_term(x);
                dec_op(&mut t0, c);
                proof {
                    assert((1i8 > 0 && nonneg2(t0@)) ==> t0@.scale * 1 <= u64::MAX) by {
                        if nonneg2(t0@) {
                            lemma_ffx_m1(xv, c as int);
                            lemma_keep_ok(xv, t0@, 1, i1 as int, xv.operator[c as int]);
                        }
                    }
                }
                push_kept(&mut ch, t0, 1, i1);

                let mut t1 = copy_term(x);
                dec_op(&mut t1, c);
                dec_op(&mut t1, c);
                proof {
                    assert((u - 1 > 0 && nonneg2(t1@)) ==> t1@.scale * (u - 1) <= u64::MAX) by {
                        if u - 1 > 0 && nonneg2(t1@) {
                            lemma_ffx_m2(xv, c as int);
                            assert(xv.operator[c as int] - 1 <= (xv.operator[c as int] - 1)
                                * xv.operator[c as int]) by (nonlinear_arith)
                                requires
                                    xv.operator[c as int] >= 2,
                            ;
                            lemma_keep_ok(
                                xv,
                                t1@,
                                u - 1,
                                9,
                                (xv.operator[c as int] - 1) * xv.operator[c as int],
                            );
                        }
                    }
                }
                push_kept(&mut ch, t1, u - 1, 9);
                proof {
                    assert(views2(ch@) =~= ks);
                }
            } else {
                let b = 1 - f;
                let i = 3 * f + c;
                let j = 3 * b + c;
                let v = x.q[i];
                let w = x.q[j];
                let u = x.operator[c];
                proof {
                    assert(xv.q[i as int] >= 1);
                }

                let mut t0 = copy_term(x);
                dec_q(&mut t0, i);
                proof {
                    assert((1i8 > 0 && nonneg2(t0@)) ==> t0@.scale * 1 <= u64::MAX) by {
                        if nonneg2(t0@) {
                            lemma_ffx_q1(xv, i as int);
                            lemma_keep_ok(xv, t0@, 1, i1 as int, xv.q[i as int]);
                        }
                    }
                }
                push_kept(&mut ch, t0, 1, i1);

                let mut t1 = copy_term(x);
                dec_q(&mut t1, i);
                dec_q(&mut t1, i);
                proof {
                    assert((v - 1 > 0 && nonneg2(t1@)) ==> t1@.scale * (v - 1) <= u64::MAX) by {
                        if v - 1 > 0 && nonneg2(t1@) {
                            lemma_ffx_q2(xv, i as int);
                            assert(xv.q[i as int] - 1 <= (xv.q[i as int] - 1) * xv.q[i as int])
                                by (nonlinear_arith)
                                requires
                                    xv.q[i as int] >= 2,
                            ;
                            lemma_keep_ok(
                                xv,
                                t1@,
                                v - 1,
                                9,
                                (xv.q[i as int] - 1) * xv.q[i as int],
                            );
                        }
                    }
                }
                push_kept(&mut ch, t1, v - 1, 9);

                let mut t2 = copy_term(x);
                dec_q(&mut t2, i);
                dec_q(&mut t2, j);
                proof {
                    assert((w > 0 && nonneg2(t2@)) ==> t2@.scale * w <= u64::MAX) by {
                        if w > 0 && nonneg2(t2@) {
                            lemma_ffx_q11(xv, i as int, j as int);
                            assert(xv.q[j as int] <= xv.q[i as int] * xv.q[j as int])
                                by (nonlinear_arith)
                                requires
                                    xv.q[i as int] >= 1,
                                    xv.q[j as int] >= 1,
                            ;
                            lemma_keep_ok(xv, t2@, w as int, 10, xv.q[i as int] * xv.q[j as int]);
                        }
                    }
                }
                push_kept(&mut ch, t2, w, 10);

                let mut t3 = copy_term(x);
                dec_q(&mut t3, i);
                dec_op(&mut t3, c);
                proof {
                    assert((u > 0 && nonneg2(t3@)) ==> t3@.scale * u <= u64::MAX) by {
                        if u > 0 && nonneg2(t3@) {
                            lemma_ffx_qm(xv, i as int, c as int);
                            assert(xv.operator[c as int] <= xv.q[i as int] * xv.operator[c as int])
                                by (nonlinear_arith)
                                requires
                                    xv.q[i as int] >= 1,
                                    xv.operator[c as int] >= 1,
                            ;
                            lemma_keep_ok(
                                xv,
                                t3@,
                                u as int,
                                11,
                                xv.q[i as int] * xv.operator[c as int],
                            );
                        }
                    }
                }
                push_kept(&mut ch, t3, u, 11);
                proof {
                    assert(views2(ch@) =~= ks);
                }
            }
        
    ch
}

fn children_l(x: &X2, f: usize, c: usize) -> (ch: Vec<X2>)
    requires
        wf2(x@),
        x@.kind == X2kind::L,
        osum2(x@) > 0,
        f as int == pick2(x@),
        c as int == comp2(x@, f as int),
        0 <= f < 3,
        0 <= c < 3,
    ensures
        views2(ch@) == kept2(x@, f as int, c as int),
{
    let ghost xv = x@;
    let ghost ks = kept2(xv, f as int, c as int);
    proof {
        lemma_pick2_props(xv);
    }
    let mut ch: Vec<X2> = Vec::new();

            proof {
                assert(f < 2);
            }
            let b = 1 - f;
            let i = 3 * f + c;
            let j = 3 * b + c;
            let i1 = islot2_exec(c, f);
            let v = x.q[i];
            let w = x.q[j];
            proof {
                assert(xv.q[i as int] >= 1);
            }

            let mut t0 = copy_term(x);
            dec_q(&mut t0, i);
            proof {
                assert((1i8 > 0 && nonneg2(t0@)) ==> t0@.scale * 1 <= u64::MAX) by {
                    if nonneg2(t0@) {
                        lemma_ffx_q1(xv, i as int);
                        lemma_keep_ok(xv, t0@, 1, i1 as int, xv.q[i as int]);
                    }
                }
            }
            push_kept(&mut ch, t0, 1, i1);

            let mut t1 = copy_term(x);
            dec_q(&mut t1, i);
            dec_q(&mut t1, i);
            proof {
                assert((v - 1 > 0 && nonneg2(t1@)) ==> t1@.scale * (v - 1) <= u64::MAX) by {
                    if v - 1 > 0 && nonneg2(t1@) {
                        lemma_ffx_q2(xv, i as int);
                        assert(xv.q[i as int] - 1 <= (xv.q[i as int] - 1) * xv.q[i as int])
                            by (nonlinear_arith)
                            requires
                                xv.q[i as int] >= 2,
                        ;
                        lemma_keep_ok(
                            xv,
                            t1@,
                            v - 1,
                            6,
                            (xv.q[i as int] - 1) * xv.q[i as int],
                        );
                    }
                }
            }
            push_kept(&mut ch, t1, v - 1, 6);

            let mut t2 = copy_term(x);
            dec_q(&mut t2, i);
            dec_q(&mut t2, j);
            proof {
                assert((w > 0 && nonneg2(t2@)) ==> t2@.scale * w <= u64::MAX) by {
                    if w > 0 && nonneg2(t2@) {
                        lemma_ffx_q11(xv, i as int, j as int);
                        assert(xv.q[j as int] <= xv.q[i as int] * xv.q[j as int])
                            by (nonlinear_arith)
                            requires
                                xv.q[i as int] >= 1,
                                xv.q[j as int] >= 1,
                        ;
                        lemma_keep_ok(xv, t2@, w as int, 7, xv.q[i as int] * xv.q[j as int]);
                    }
                }
            }
            push_kept(&mut ch, t2, w, 7);

            let n3: i8 = if x.d as usize == c {
                1
            } else {
                0
            };
            let p3 = 8 + x.d as usize;
            let mut t3 = copy_term(x);
            dec_q(&mut t3, i);
            demote_s(&mut t3);
            proof {
                assert(t3@ == to_s(qd(xv, i as int)));
                assert((n3 > 0 && nonneg2(t3@)) ==> t3@.scale * n3 <= u64::MAX) by {
                    if n3 > 0 && nonneg2(t3@) {
                        lemma_ffx_q1(xv, i as int);
                        lemma_keep_ok(xv, t3@, 1, p3 as int, xv.q[i as int]);
                    }
                }
            }
            push_kept(&mut ch, t3, n3, p3);

            let n4: i8 = if x.d as usize == c && c == 0 {
                1
            } else {
                0
            };
            let mut t4 = copy_term(x);
            dec_q(&mut t4, i);
            dec_q(&mut t4, 3 * b);
            proof {
                assert(xv.q[3 * b as int] >= 0);
            }
            demote_s(&mut t4);
            proof {
                assert(t4@ == to_s(qd(qd(xv, i as int), 3 * b as int)));
                assert((n4 > 0 && nonneg2(t4@)) ==> t4@.scale * n4 <= u64::MAX) by {
                    if n4 > 0 && nonneg2(t4@) {
                        assert(t4@.q[3 * b as int] >= 0);
                        assert(xv.q[3 * b as int] >= 1);
                        lemma_ffx_q11(xv, i as int, 3 * b as int);
                        assert(1 <= xv.q[i as int] * xv.q[3 * b as int]) by (nonlinear_arith)
                            requires
                                xv.q[i as int] >= 1,
                                xv.q[3 * b as int] >= 1,
                        ;
                        lemma_keep_ok(xv, t4@, 1, 11, xv.q[i as int] * xv.q[3 * b as int]);
                    }
                }
            }
            push_kept(&mut ch, t4, n4, 11);

            let n5: i8 = if x.d as usize == c && c == 1 {
                1
            } else {
                0
            };
            let mut t5 = copy_term(x);
            dec_q(&mut t5, i);
            dec_q(&mut t5, 3 * b + 1);
            proof {
                assert(xv.q[3 * b as int + 1] >= 0);
            }
            demote_s(&mut t5);
            proof {
                assert(t5@ == to_s(qd(qd(xv, i as int), 3 * b as int + 1)));
                assert((n5 > 0 && nonneg2(t5@)) ==> t5@.scale * n5 <= u64::MAX) by {
                    if n5 > 0 && nonneg2(t5@) {
                        assert(t5@.q[3 * b as int + 1] >= 0);
                        assert(xv.q[3 * b as int + 1] >= 1);
                        lemma_ffx_q11(xv, i as int, 3 * b as int + 1);
                        assert(1 <= xv.q[i as int] * xv.q[3 * b as int + 1]) by (nonlinear_arith)
                            requires
                                xv.q[i as int] >= 1,
                                xv.q[3 * b as int + 1] >= 1,
                        ;
                        lemma_keep_ok(xv, t5@, 1, 12, xv.q[i as int] * xv.q[3 * b as int + 1]);
                    }
                }
            }
            push_kept(&mut ch, t5, n5, 12);

            let n6: i8 = if x.d as usize == c && c == 2 {
                1
            } else {
                0
            };
            let mut t6 = copy_term(x);
            dec_q(&mut t6, i);
            dec_q(&mut t6, 3 * b + 2);
            proof {
                assert(xv.q[3 * b as int + 2] >= 0);
            }
            demote_s(&mut t6);
            proof {
                assert(t6@ == to_s(qd(qd(xv, i as int), 3 * b as int + 2)));
                assert((n6 > 0 && nonneg2(t6@)) ==> t6@.scale * n6 <= u64::MAX) by {
                    if n6 > 0 && nonneg2(t6@) {
                        assert(t6@.q[3 * b as int + 2] >= 0);
                        assert(xv.q[3 * b as int + 2] >= 1);
                        lemma_ffx_q11(xv, i as int, 3 * b as int + 2);
                        assert(1 <= xv.q[i as int] * xv.q[3 * b as int + 2]) by (nonlinear_arith)
                            requires
                                xv.q[i as int] >= 1,
                                xv.q[3 * b as int + 2] >= 1,
                        ;
                        lemma_keep_ok(xv, t6@, 1, 13, xv.q[i as int] * xv.q[3 * b as int + 2]);
                    }
                }
            }
            push_kept(&mut ch, t6, n6, 13);
            proof {
                assert(views2(ch@) =~= ks);
            }
        
    ch
}

/// One step of the Obara--Saika descent, recursing until every term is a
/// base case.  The result is exactly the expansion of the input term: the
/// ordered base-case terms whose coefficients, prefactor slots and Boys
/// orders the model `expand2_spec` gives.
#[verifier::rlimit(100)]
pub fn apply_os2(x: X2, kind: X2kind) -> (r: Vec<X2>)
    requires
        wf2(x@),
        x@.kind == kind,
    ensures
        views2(r@) == expand2_spec(x@),
    decreases m2(x@),
{
    let ghost xv = x@;
    let ov = x.orders();
    proof {
        lemma_vsum_concat(xv.q, xv.operator);
    }
    let so = sum_i8(&ov);

    // Base case: all orders exhausted.
    if so == 0 {
        proof {
            assert(expand2_spec(xv) =~= seq![xv]);
        }
        let r = vec![x];
        proof {
            assert(views2(r@) =~= seq![xv]);
        }
        return r;
    }
    proof {
        lemma_vsum_nonneg(xv.q);
        lemma_vsum_nonneg(xv.operator);
        lemma_pick2_props(xv);
        assert forall|k: int| 0 <= k < 9 implies 0 <= #[trigger] ov@[k] by {
            assert(iview(ov@)[k] == (xv.q + xv.operator)[k]);
        }
        assert forall|k: int| 0 <= k < 3 implies csum(iview(ov@), k) <= 126 by {
            lemma_csum_le_vsum(iview(ov@), k);
        }
    }

    // Which function to lower; defer the operator until q is exhausted.
    let mut fun_r = find_fun_to_lower(&ov, 3);
    let qsum = sum_i8(&x.q);
    let f0_is2 = match fun_r {
        Ok(fv) => fv == 2,
        Err(_) => false,
    };
    if f0_is2 && qsum > 0 {
        proof {
            assert forall|k: int| 0 <= k < 6 implies 0 <= #[trigger] x.q@[k] by {
                assert(xv.q[k] >= 0);
            }
            assert forall|k: int| 0 <= k < 2 implies csum(iview(x.q@), k) <= 126 by {
                lemma_csum_le_vsum(iview(x.q@), k);
            }
        }
        fun_r = find_fun_to_lower(&x.q, 2);
    }
    let f = match fun_r {
        Ok(f) => f,
        Err(_) => {
            proof {
                assert(pick2(xv) < 0);
                assert(expand2_spec(xv) =~= seq![xv]);
            }
            let r = vec![x];
            proof {
                assert(views2(r@) =~= seq![xv]);
            }
            return r;
        },
    };
    proof {
        assert(f as int == pick2(xv));
    }

    // Which component of it to lower.
    let fo: [i8; 3] = [ov[3 * f], ov[3 * f + 1], ov[3 * f + 2]];
    proof {
        assert(fo@[0] == ov@[3 * f as int] && fo@[1] == ov@[3 * f as int + 1] && fo@[2] == ov@[3
            * f as int + 2]);
        assert(iview(ov@)[3 * f as int] == (xv.q + xv.operator)[3 * f as int]);
        assert(iview(ov@)[3 * f as int + 1] == (xv.q + xv.operator)[3 * f as int + 1]);
        assert(iview(ov@)[3 * f as int + 2] == (xv.q + xv.operator)[3 * f as int + 2]);
    }
    let c = match find_component_to_lower(&fo) {
        Ok(c) => c,
        Err(_) => {
            proof {
                assert(false);
            }
            vstd::pervasive::unreached()
        },
    };
    proof {
        assert(c as int == comp2(xv, f as int));
    }
    let ghost ks = kept2(xv, f as int, c as int);

    // Build the surviving children of this step, in evaluation order.
    let ch: Vec<X2> = match kind {
        X2kind::S => children_s(&x, f, c),
        X2kind::T => children_t(&x, f, c),
        X2kind::V => children_v(&x, f, c),
        X2kind::M => children_m(&x, f, c),
        X2kind::L => children_l(&x, f, c),
        _ => {
            let ch: Vec<X2> = Vec::new();
            proof {
                assert(views2(ch@) =~= ks);
            }
            ch
        },
    };


    proof {
        lemma_kept2_ok(xv);
        assert(views2(ch@) == ks);
        assert forall|k: int| 0 <= k < ch@.len() implies child_ok(xv, #[trigger] ch@[k]@) by {
            assert(views2(ch@)[k] == ch@[k]@);
            assert(child_ok(xv, ks[k]));
        }
    }

    // Recurse on every surviving child and flatten, in order.
    let mut out: Vec<X2> = Vec::new();
    let mut k: usize = 0;
    while k < ch.len()
        invariant
            0 <= k <= ch@.len(),
            xv == x@,
            views2(ch@) == ks,
            wf2(xv),
            osum2(xv) > 0,
            pick2(xv) >= 0,
            ks == kept2(xv, pick2(xv), comp2(xv, pick2(xv))),
            forall|j: int| 0 <= j < ch@.len() ==> child_ok(xv, #[trigger] ch@[j]@),
            views2(out@) == expand_pref(ks, k as int),
        decreases ch@.len() - k,
    {
        let child = copy_term(&ch[k]);
        let child_kind = child.kind;
        proof {
            assert(child@ == ks[k as int]);
            assert(child_ok(xv, child@));
        }
        proof {
            assert(m2(child@) < m2(x@));
        }
        let mut sub = apply_os2(child, child_kind);
        let ghost sub_before = sub@;
        let ghost out_before = out@;
        out.append(&mut sub);
        proof {
            assert(views2(out@) =~= views2(out_before) + views2(sub_before));
            assert(views2(out@) == expand_pref(ks, k as int + 1));
        }
        k += 1;
    }
    proof {
        lemma_expand2_unfold(xv);
        assert(views2(out@) == expand2_spec(xv));
    }
    out
}

/// Powers of seven: one recursion step spawns at most seven children.
pub open spec fn pow7(n: nat) -> int
    decreases n,
{
    if n == 0 {
        1
    } else {
        7 * pow7((n - 1) as nat)
    }
}

pub proof fn lemma_pow7_pos(n: nat)
    ensures
        pow7(n) >= 1,
    decreases n,
{
    if n > 0 {
        lemma_pow7_pos((n - 1) as nat);
    }
}

pub proof fn lemma_pow7_mono(a: nat, b: nat)
    requires
        a <= b,
    ensures
        pow7(a) <= pow7(b),
    decreases b,
{
    if a < b {
        lemma_pow7_mono(a, (b - 1) as nat);
        lemma_pow7_pos((b - 1) as nat);
    }
}

/// Are all prefactor slots of the term in `[0, b)`?
pub open spec fn prefs_ok(t: X2V, b: int) -> bool {
    forall|j: int| 0 <= j < t.prefactors.len() ==> 0 <= #[trigger] t.prefactors[j] < b
}

/// What holds of every term of a full expansion: in particular, a term is
/// tagged either with the root kind or with the overlap kind its descent
/// demoted it to.
pub open spec fn expanded_ok(x: X2V, b: int, t: X2V) -> bool {
    &&& wf2(t)
    &&& t.kind == x.kind || t.kind == X2kind::S
    &&& osum2(t) == 0
    &&& t.order <= x.order + osum2(x)
    &&& prefs_ok(t, b)
}

/// The expansion of a well-formed term terminates and yields only base-case
/// terms: each is well-formed, has every exponent zero, a Boys order at most
/// the total input momentum plus the input order, and prefactor slots within
/// the root kind's table; and there are at most `7^m` of them, `m` the
/// recursion measure of the input.
pub proof fn lemma_expand2_props(x: X2V, b: int)
    requires
        wf2(x),
        prefs_ok(x, b),
        pref_bound2(x.kind) <= b,
    ensures
        forall|k: int|
            0 <= k < expand2_spec(x).len() ==> expanded_ok(x, b, #[trigger] expand2_spec(x)[k]),
        expand2_spec(x).len() <= pow7(m2(x) as nat),
    decreases m2(x), 8int,
{
    lemma_vsum_nonneg(x.q);
    lemma_vsum_nonneg(x.operator);
    lemma_pow7_pos(m2(x) as nat);
    if osum2(x) == 0 {
        assert(expand2_spec(x) =~= seq![x]);
    } else {
        lemma_pick2_props(x);
        let ks = kept2(x, pick2(x), comp2(x, pick2(x)));
        lemma_kept2_ok(x);
        lemma_expand2_unfold(x);
        lemma_expand2_pref_props(x, b, ks, ks.len() as int);
        assert(m2(x) >= 1);
        assert(expand_pref(ks, ks.len() as int).len() <= 7 * pow7((m2(x) - 1) as nat))
            by (nonlinear_arith)
            requires
                expand_pref(ks, ks.len() as int).len() <= ks.len() * pow7((m2(x) - 1) as nat),
                ks.len() <= 7,
                pow7((m2(x) - 1) as nat) >= 1,
        ;
    }
}

/// The concatenated expansions of the first `k` kept children satisfy the
/// same per-term guarantees.
proof fn lemma_expand2_pref_props(x: X2V, b: int, ks: Seq<X2V>, k: int)
    requires
        wf2(x),
        prefs_ok(x, b),
        pref_bound2(x.kind) <= b,
        osum2(x) > 0,
        0 <= k <= ks.len(),
        forall|j: int| 0 <= j < ks.len() ==> child_ok(x, #[trigger] ks[j]),
        forall|j: int|
            0 <= j < ks.len() ==> exists|p: int|
                0 <= p < pref_bound2(x.kind) && (#[trigger] ks[j]).prefactors
                    == x.prefactors.push(p),
    ensures
        forall|i: int|
            0 <= i < expand_pref(ks, k).len() ==> expanded_ok(x, b, #[trigger] expand_pref(ks, k)[i]),
        expand_pref(ks, k).len() <= k * pow7((m2(x) - 1) as nat),
    decreases m2(x), k,
{
    lemma_pow7_pos((m2(x) - 1) as nat);
    if k == 0 {
    } else {
        lemma_expand2_pref_props(x, b, ks, k - 1);
        let y = ks[k - 1];
        assert(child_ok(x, y));
        let p = choose|p: int|
            0 <= p < pref_bound2(x.kind) && y.prefactors == x.prefactors.push(p);
        assert(prefs_ok(y, b));
        lemma_expand2_props(y, b);
        lemma_pow7_mono(m2(y) as nat, (m2(x) - 1) as nat);
        assert forall|i: int|
            0 <= i < expand_pref(ks, k).len() implies expanded_ok(
            x,
            b,
            #[trigger] expand_pref(ks, k)[i],
        ) by {
            if i < expand_pref(ks, k - 1).len() {
            } else {
                let t = expand2_spec(y)[i - expand_pref(ks, k - 1).len()];
                assert(expanded_ok(y, b, t));
            }
        }
        assert(expand_pref(ks, k).len() <= k * pow7((m2(x) - 1) as nat)) by (nonlinear_arith)
            requires
                expand_pref(ks, k).len() == expand_pref(ks, k - 1).len() + expand2_spec(y).len(),
                expand_pref(ks, k - 1).len() <= (k - 1) * pow7((m2(x) - 1) as nat),
                expand2_spec(y).len() <= pow7(m2(y) as nat),
                pow7(m2(y) as nat) <= pow7((m2(x) - 1) as nat),
                k >= 1,
        ;
    }
}

/// The first component of `fun` that is strictly positive, in fixed
/// x, y, z order; `Err(false)` when all three are exhausted.
pub fn find_component_to_lower(fun: &[i8; 3]) -> (r: Result<usize, bool>)
    ensures
        ({
            let p = pick_comp(fun@[0] as int, fun@[1] as int, fun@[2] as int);
            match r {
                Ok(c) => c == p,
                Err(b) => !b && p == -1,
            }
        }),
{
    if fun[0] > 0 {
        Ok(0)
    } else if fun[1] > 0 {
        Ok(1)
    } else if fun[2] > 0 {
        Ok(2)
    } else {
        Err(false)
    }
}

/// The center to lower among the first `n` centers of the flat exponent
/// vector `q`: the first center carrying the smallest strictly positive total
/// angular momentum, or `Err(false)` when all `n` centers are exhausted.
pub fn find_fun_to_lower(q: &Vec<i8>, n: usize) -> (r: Result<usize, bool>)
    requires
        1 <= n,
        3 * n <= q@.len(),
        forall|i: int| 0 <= i < 3 * n ==> 0 <= #[trigger] q@[i],
        forall|i: int| 0 <= i < n ==> #[trigger] csum(iview(q@), i) <= 126,
    ensures
        ({
            let p = pick_fun(iview(q@), n as int);
            match r {
                Ok(f) => f == p,
                Err(b) => !b && p == -1,
            }
        }),
{
    let ghost v = iview(q@);
    let qlen = q.len();
    // Total angular momentum on each center.
    let mut l: Vec<i8> = Vec::new();
    let mut i: usize = 0;
    while i < n
        invariant
            0 <= i <= n,
            1 <= n,
            3 * n <= qlen,
            qlen == q@.len(),
            v == iview(q@),
            forall|k: int| 0 <= k < 3 * n ==> 0 <= #[trigger] q@[k],
            forall|k: int| 0 <= k < n ==> #[trigger] csum(v, k) <= 126,
            l@.len() == i,
            forall|k: int| 0 <= k < i ==> #[trigger] l@[k] as int == csum(v, k),
        decreases n - i,
    {
        assert(csum(v, i as int) == q@[3 * i as int] as int + q@[3 * i as int + 1] as int + q@[3
            * i as int + 2] as int);
        assert(0 <= q@[3 * i as int] as int + q@[3 * i as int + 1] as int <= 126);
        l.push(q[i * 3] + q[i * 3 + 1] + q[i * 3 + 2]);
        i += 1;
    }

    // Find the largest momentum present, so every positive momentum
    // undercuts the initial threshold.
    let mut kmax: i8 = l[0];
    let mut i: usize = 1;
    while i < n
        invariant
            1 <= i <= n,
            l@.len() == n,
            forall|k: int| 0 <= k < n ==> 0 <= #[trigger] l@[k] <= 126,
            exists|k: int| 0 <= k < i && l@[k] == kmax,
            forall|k: int| 0 <= k < i ==> #[trigger] l@[k] <= kmax,
        decreases n - i,
    {
        if l[i] > kmax {
            kmax = l[i];
        }
        i += 1;
    }
    let mut kmax: i8 = 1 + kmax;

    let mut fun: usize = 0;
    let mut found: bool = false;
    let mut i: usize = 0;
    while i < n
        invariant
            0 <= i <= n,
            l@.len() == n,
            v == iview(q@),
            forall|k: int| 0 <= k < n ==> #[trigger] l@[k] as int == csum(v, k),
            !found ==> pick_fun(v, i as int) == -1,
            !found ==> forall|k: int| 0 <= k < n ==> #[trigger] l@[k] < kmax,
            found ==> fun < i && fun == pick_fun(v, i as int) && kmax as int == csum(
                v,
                fun as int,
            ),
        decreases n - i,
    {
        assert(l@[i as int] as int == csum(v, i as int));
        let k = l[i];
        if k > 0 {
            if k < kmax {
                kmax = k;
                fun = i;
                found = true;
            }
        }
        assert(pick_fun(v, i as int + 1) == if csum(v, i as int) > 0 && (pick_fun(v, i as int)
            == -1 || csum(v, i as int) < csum(v, pick_fun(v, i as int))) {
            i as int
        } else {
            pick_fun(v, i as int)
        });
        i += 1;
    }

    if found {
        return Ok(fun);
    }
    Err(false)
}


/// A term of a four-center Coulomb expansion: twelve Cartesian exponents,
/// integer coefficient, prefactor slots and a Boys-function order.
#[derive(Clone, Debug)]
pub struct X4 {
    pub scale: u64,
    pub prefactors: Vec<usize>,
    pub q: Vec<i8>,
    pub order: u8,
}

/// The mathematical model of a four-center term.
#[verifier::ext_equal]
pub ghost struct X4V {
    pub scale: int,
    pub prefactors: Seq<int>,
    pub q: Seq<int>,
    pub order: int,
}

impl View for X4 {
    type V = X4V;

    open spec fn view(&self) -> X4V {
        X4V {
            scale: self.scale as int,
            prefactors: self.prefactors@.map_values(|p: usize| p as int),
            q: iview(self.q@),
            order: self.order as int,
        }
    }
}

pub open spec fn osum4(x: X4V) -> int {
    vsum(x.q)
}

pub open spec fn nonneg4(x: X4V) -> bool {
    forall|i: int| 0 <= i < x.q.len() ==> 0 <= #[trigger] x.q[i]
}

/// A well-formed four-center term; the bounds are the same machine limits as
/// for two-center terms.
pub open spec fn wf4(x: X4V) -> bool {
    &&& x.q.len() == 12
    &&& nonneg4(x)
    &&& 1 <= x.scale
    &&& x.scale * ffprod(x.q) <= u64::MAX
    &&& 0 <= x.order
    &&& x.order + osum4(x) <= 255
    &&& osum4(x) <= 126
    &&& forall|i: int| 0 <= i < x.prefactors.len() ==> 0 <= #[trigger] x.prefactors[i]
}

/// Size of the four-center evaluator's prefactor vector.
pub open spec fn pref_bound4() -> int {
    23
}

pub open spec fn qd4(x: X4V, i: int) -> X4V {
    X4V { q: x.q.update(i, x.q[i] - 1), ..x }
}

pub open spec fn bump4(x: X4V) -> X4V {
    X4V { order: x.order + 1, ..x }
}

pub open spec fn fin4(t: X4V, n: int, p: int) -> X4V {
    X4V { scale: t.scale * n, prefactors: t.prefactors.push(p), ..t }
}

pub open spec fn keep4(t: X4V, n: int, p: int) -> Seq<X4V> {
    if n > 0 && nonneg4(t) {
        seq![fin4(t, n, p)]
    } else {
        Seq::empty()
    }
}

/// The children of one four-center lowering step on function `f` and
/// component `c`, in evaluation order.  The pattern mirrors the two-center
/// nuclear-attraction step: displacement terms against both product centers
/// and the W point, with the second of each pair on the raised Boys order.
pub open spec fn kept4(x: X4V, f: int, c: int) -> Seq<X4V> {
    let i = 3 * f + c;
    let v = x.q[i];
    let b = if f < 2 {
        1 - f
    } else {
        5 - f
    };
    let cc = if f < 2 {
        3int
    } else {
        1int
    };
    let dd = if f < 2 {
        2int
    } else {
        0int
    };
    let i1 = 6 * c + f;
    let i2 = 6 * c + 4 + if f < 2 {
        0int
    } else {
        1int
    };
    let p2 = if f < 2 {
        18int
    } else {
        19int
    };
    let p3 = if f < 2 {
        20int
    } else {
        21int
    };
    let t0 = qd4(x, i);
    keep4(t0, 1, i1) + keep4(bump4(t0), 1, i2) + keep4(qd4(t0, i), v - 1, p2) + keep4(
        bump4(qd4(t0, i)),
        v - 1,
        p3,
    ) + keep4(qd4(t0, 3 * b + c), x.q[3 * b + c], p2) + keep4(
        bump4(qd4(t0, 3 * b + c)),
        x.q[3 * b + c],
        p3,
    ) + keep4(bump4(qd4(t0, 3 * cc + c)), x.q[3 * cc + c], 22) + keep4(
        bump4(qd4(t0, 3 * dd + c)),
        x.q[3 * dd + c],
        22,
    )
}

pub open spec fn pick4(x: X4V) -> int {
    pick_fun(x.q, 4)
}

pub open spec fn comp4(x: X4V, f: int) -> int {
    pick_comp(x.q[3 * f], x.q[3 * f + 1], x.q[3 * f + 2])
}

pub proof fn lemma_vsum12(v: Seq<int>)
    requires
        v.len() == 12,
    ensures
        vsum(v) == csum(v, 0) + csum(v, 1) + csum(v, 2) + csum(v, 3),
{
    let a = v.take(6);
    let z = v.skip(6);
    assert(v =~= a + z);
    lemma_vsum_concat(a, z);
    lemma_vsum6(a);
    lemma_vsum6(z);
    assert(a[0] == v[0] && a[1] == v[1] && a[2] == v[2] && a[3] == v[3] && a[4] == v[4] && a[5]
        == v[5]);
    assert(z[0] == v[6] && z[1] == v[7] && z[2] == v[8] && z[3] == v[9] && z[4] == v[10] && z[5]
        == v[11]);
}

pub proof fn lemma_pick4_props(x: X4V)
    requires
        wf4(x),
        osum4(x) > 0,
    ensures
        0 <= pick4(x) < 4,
        0 <= comp4(x, pick4(x)) < 3,
        x.q[3 * pick4(x) + comp4(x, pick4(x))] > 0,
{
    lemma_pick_fun_props(x.q, 4);
    lemma_vsum12(x.q);
    if pick4(x) == -1 {
        assert(csum(x.q, 0) <= 0 && csum(x.q, 1) <= 0 && csum(x.q, 2) <= 0 && csum(x.q, 3) <= 0);
        assert(false);
    }
}

pub proof fn lemma_ffx4_q1(x: X4V, i: int)
    requires
        x.q.len() == 12,
        0 <= i < 12,
        x.q[i] >= 1,
    ensures
        ffprod(qd4(x, i).q) * x.q[i] == ffprod(x.q),
        ffprod(qd4(x, i).q) >= 1,
        osum4(qd4(x, i)) == osum4(x) - 1,
{
    lemma_ffprod_update(x.q, i);
    lemma_vsum_update(x.q, i, x.q[i] - 1);
    lemma_ffprod_pos(qd4(x, i).q);
}

pub proof fn lemma_ffx4_q2(x: X4V, i: int)
    requires
        x.q.len() == 12,
        0 <= i < 12,
        x.q[i] >= 2,
    ensures
        ffprod(qd4(qd4(x, i), i).q) * ((x.q[i] - 1) * x.q[i]) == ffprod(x.q),
        ffprod(qd4(qd4(x, i), i).q) >= 1,
        osum4(qd4(qd4(x, i), i)) == osum4(x) - 2,
{
    let t = qd4(x, i);
    lemma_ffx4_q1(x, i);
    assert(t.q[i] == x.q[i] - 1);
    lemma_ffx4_q1(t, i);
    let a = ffprod(qd4(t, i).q);
    assert((a * (x.q[i] - 1)) * x.q[i] == a * ((x.q[i] - 1) * x.q[i])) by (nonlinear_arith);
}

pub proof fn lemma_ffx4_q11(x: X4V, i: int, j: int)
    requires
        x.q.len() == 12,
        0 <= i < 12,
        0 <= j < 12,
        i != j,
        x.q[i] >= 1,
        x.q[j] >= 1,
    ensures
        ffprod(qd4(qd4(x, i), j).q) * (x.q[i] * x.q[j]) == ffprod(x.q),
        ffprod(qd4(qd4(x, i), j).q) >= 1,
        osum4(qd4(qd4(x, i), j)) == osum4(x) - 2,
{
    let t = qd4(x, i);
    lemma_ffx4_q1(x, i);
    assert(t.q[j] == x.q[j]);
    lemma_ffx4_q1(t, j);
    let a = ffprod(qd4(t, j).q);
    assert((a * x.q[j]) * x.q[i] == a * (x.q[i] * x.q[j])) by (nonlinear_arith);
}

/// What one four-center step guarantees of each surviving child.
pub open spec fn child_ok4(x: X4V, y: X4V) -> bool {
    &&& wf4(y)
    &&& 0 <= osum4(y) < osum4(x)
    &&& y.order + osum4(y) <= x.order + osum4(x)
    &&& exists|p: int| 0 <= p < pref_bound4() && y.prefactors == x.prefactors.push(p)
}

proof fn lemma_keep_ok4(x: X4V, t: X4V, n: int, p: int, dv: int)
    requires
        wf4(x),
        t.q.len() == 12,
        t.scale == x.scale,
        t.prefactors == x.prefactors,
        0 <= t.order,
        t.order + osum4(t) <= x.order + osum4(x),
        osum4(t) < osum4(x),
        n <= dv,
        ffprod(t.q) * dv == ffprod(x.q),
        ffprod(t.q) >= 1,
        0 <= p < pref_bound4(),
    ensures
        keep4(t, n, p).len() <= 1,
        n > 0 && nonneg4(t) ==> {
            let y = fin4(t, n, p);
            &&& keep4(t, n, p) == seq![y]
            &&& wf4(y)
            &&& child_ok4(x, y)
            &&& t.scale * n <= u64::MAX
        },
{
    if n > 0 && nonneg4(t) {
        let y = fin4(t, n, p);
        lemma_vsum_nonneg(t.q);
        assert(osum4(y) == osum4(t));
        assert(ffprod(y.q) == ffprod(t.q));
        assert(y.scale >= 1) by (nonlinear_arith)
            requires
                y.scale == x.scale * n,
                x.scale >= 1,
                n >= 1,
        ;
        assert(y.scale * ffprod(y.q) <= u64::MAX) by (nonlinear_arith)
            requires
                y.scale == x.scale * n,
                ffprod(y.q) == ffprod(t.q),
                1 <= n <= dv,
                ffprod(t.q) >= 1,
                x.scale >= 1,
                ffprod(t.q) * dv == ffprod(x.q),
                x.scale * ffprod(x.q) <= u64::MAX,
        ;
        assert(wf4(y));
        assert(t.scale * n <= u64::MAX) by (nonlinear_arith)
            requires
                y.scale == t.scale * n,
                y.scale * ffprod(y.q) <= u64::MAX,
                ffprod(y.q) >= 1,
                y.scale >= 1,
        ;
    }
}

/// Every child a four-center step keeps is a sound recursion target.
#[verifier::rlimit(100)]
pub proof fn lemma_kept4_ok(x: X4V)
    requires
        wf4(x),
        osum4(x) > 0,
    ensures
        kept4(x, pick4(x), comp4(x, pick4(x))).len() <= 8,
        forall|k: int|
            0 <= k < kept4(x, pick4(x), comp4(x, pick4(x))).len() ==> child_ok4(
                x,
                #[trigger] kept4(x, pick4(x), comp4(x, pick4(x)))[k],
            ),
{
    let f = pick4(x);
    let c = comp4(x, f);
    let ks = kept4(x, f, c);
    lemma_pick4_props(x);
    assert forall|k: int| 0 <= k < ks.len() implies child_ok4(x, #[trigger] ks[k]) by {
        let i = 3 * f + c;
        let v = x.q[i];
        let b = if f < 2 {
            1 - f
        } else {
            5 - f
        };
        let cc = if f < 2 {
            3int
        } else {
            1int
        };
        let dd = if f < 2 {
            2int
        } else {
            0int
        };
        let i1 = 6 * c + f;
        let i2 = 6 * c + 4 + if f < 2 {
            0int
        } else {
            1int
        };
        let p2 = if f < 2 {
            18int
        } else {
            19int
        };
        let p3 = if f < 2 {
            20int
        } else {
            21int
        };
        let t0 = qd4(x, i);
        lemma_ffx4_q1(x, i);
        lemma_keep_ok4(x, t0, 1, i1, x.q[i]);
        lemma_keep_ok4(x, bump4(t0), 1, i2, x.q[i]);
        let t2 = qd4(t0, i);
        if v - 1 > 0 && (nonneg4(t2) || nonneg4(bump4(t2))) {
            lemma_ffx4_q2(x, i);
            assert(x.q[i] - 1 <= (x.q[i] - 1) * x.q[i]) by (nonlinear_arith)
                requires
                    x.q[i] >= 2,
            ;
            lemma_keep_ok4(x, t2, v - 1, p2, (x.q[i] - 1) * x.q[i]);
            lemma_keep_ok4(x, bump4(t2), v - 1, p3, (x.q[i] - 1) * x.q[i]);
        }
        let jb = 3 * b + c;
        let t4 = qd4(t0, jb);
        if x.q[jb] > 0 && (nonneg4(t4) || nonneg4(bump4(t4))) {
            lemma_ffx4_q11(x, i, jb);
            assert(x.q[jb] <= x.q[i] * x.q[jb]) by (nonlinear_arith)
                requires
                    x.q[i] >= 1,
                    x.q[jb] >= 1,
            ;
            lemma_keep_ok4(x, t4, x.q[jb], p2, x.q[i] * x.q[jb]);
            lemma_keep_ok4(x, bump4(t4), x.q[jb], p3, x.q[i] * x.q[jb]);
        }
        let jc = 3 * cc + c;
        let t6 = bump4(qd4(t0, jc));
        if x.q[jc] > 0 && nonneg4(t6) {
            assert(t6.q[jc] >= 0);
            assert(x.q[jc] >= 1);
            lemma_ffx4_q11(x, i, jc);
            assert(x.q[jc] <= x.q[i] * x.q[jc]) by (nonlinear_arith)
                requires
                    x.q[i] >= 1,
                    x.q[jc] >= 1,
            ;
            lemma_keep_ok4(x, t6, x.q[jc], 22, x.q[i] * x.q[jc]);
        }
        let jd = 3 * dd + c;
        let t7 = bump4(qd4(t0, jd));
        if x.q[jd] > 0 && nonneg4(t7) {
            assert(t7.q[jd] >= 0);
            assert(x.q[jd] >= 1);
            lemma_ffx4_q11(x, i, jd);
            assert(x.q[jd] <= x.q[i] * x.q[jd]) by (nonlinear_arith)
                requires
                    x.q[i] >= 1,
                    x.q[jd] >= 1,
            ;
            lemma_keep_ok4(x, t7, x.q[jd], 22, x.q[i] * x.q[jd]);
        }
    }
}

/// The full expansion of a four-center term.
pub open spec fn expand4_spec(x: X4V) -> Seq<X4V>
    decreases osum4(x),
    when wf4(x)
    via expand4_spec_dec
{
    if osum4(x) == 0 {
        seq![x]
    } else {
        let f = pick4(x);
        if f < 0 {
            seq![x]
        } else {
            let ks = kept4(x, f, comp4(x, f));
            (if ks.len() > 0 {
                expand4_spec(ks[0])
            } else {
                Seq::empty()
            }) + (if ks.len() > 1 {
                expand4_spec(ks[1])
            } else {
                Seq::empty()
            }) + (if ks.len() > 2 {
                expand4_spec(ks[2])
            } else {
                Seq::empty()
            }) + (if ks.len() > 3 {
                expand4_spec(ks[3])
            } else {
                Seq::empty()
            }) + (if ks.len() > 4 {
                expand4_spec(ks[4])
            } else {
                Seq::empty()
            }) + (if ks.len() > 5 {
                expand4_spec(ks[5])
            } else {
                Seq::empty()
            }) + (if ks.len() > 6 {
                expand4_spec(ks[6])
            } else {
                Seq::empty()
            }) + (if ks.len() > 7 {
                expand4_spec(ks[7])
            } else {
                Seq::empty()
            })
        }
    }
}

#[via_fn]
proof fn expand4_spec_dec(x: X4V) {
    if wf4(x) && osum4(x) != 0 {
        lemma_vsum_nonneg(x.q);
        if pick4(x) >= 0 {
            lemma_kept4_ok(x);
        }
    }
}

/// The expansions of the first `k` terms of `s`, in order.
pub open spec fn expand_pref4(s: Seq<X4V>, k: int) -> Seq<X4V>
    decreases k,
{
    if k <= 0 {
        Seq::empty()
    } else {
        expand_pref4(s, k - 1) + expand4_spec(s[k - 1])
    }
}

#[verifier::rlimit(50)]
pub proof fn lemma_expand4_unfold(x: X4V)
    requires
        wf4(x),
        osum4(x) > 0,
        pick4(x) >= 0,
    ensures
        expand4_spec(x) == expand_pref4(
            kept4(x, pick4(x), comp4(x, pick4(x))),
            kept4(x, pick4(x), comp4(x, pick4(x))).len() as int,
        ),
{
    let ks = kept4(x, pick4(x), comp4(x, pick4(x)));
    let n = ks.len() as int;
    lemma_kept4_ok(x);
    lemma_vsum_nonneg(x.q);
    reveal_with_fuel(expand_pref4, 10);
    assert(expand4_spec(x) =~= expand_pref4(ks, n));
}

/// Powers of eight: a four-center step spawns at most eight children.
pub open spec fn pow8(n: nat) -> int
    decreases n,
{
    if n == 0 {
        1
    } else {
        8 * pow8((n - 1) as nat)
    }
}

pub proof fn lemma_pow8_pos(n: nat)
    ensures
        pow8(n) >= 1,
    decreases n,
{
    if n > 0 {
        lemma_pow8_pos((n - 1) as nat);
    }
}

pub proof fn lemma_pow8_mono(a: nat, b: nat)
    requires
        a <= b,
    ensures
        pow8(a) <= pow8(b),
    decreases b,
{
    if a < b {
        lemma_pow8_mono(a, (b - 1) as nat);
        lemma_pow8_pos((b - 1) as nat);
    }
}

pub open spec fn prefs_ok4(t: X4V, b: int) -> bool {
    forall|j: int| 0 <= j < t.prefactors.len() ==> 0 <= #[trigger] t.prefactors[j] < b
}

pub open spec fn expanded_ok4(x: X4V, t: X4V) -> bool {
    &&& wf4(t)
    &&& osum4(t) == 0
    &&& t.order <= x.order + osum4(x)
    &&& prefs_ok4(t, pref_bound4())
}

/// The four-center expansion of a well-formed term terminates and yields only
/// base-case terms with bounded Boys orders and in-range prefactor slots.
pub proof fn lemma_expand4_props(x: X4V)
    requires
        wf4(x),
        prefs_ok4(x, pref_bound4()),
    ensures
        forall|k: int|
            0 <= k < expand4_spec(x).len() ==> expanded_ok4(x, #[trigger] expand4_spec(x)[k]),
        expand4_spec(x).len() <= pow8(osum4(x) as nat),
    decreases osum4(x), 9int,
{
    lemma_vsum_nonneg(x.q);
    lemma_pow8_pos(osum4(x) as nat);
    if osum4(x) == 0 {
        assert(expand4_spec(x) =~= seq![x]);
    } else {
        lemma_pick4_props(x);
        let ks = kept4(x, pick4(x), comp4(x, pick4(x)));
        lemma_kept4_ok(x);
        lemma_expand4_unfold(x);
        lemma_expand4_pref_props(x, ks, ks.len() as int);
        assert(expand_pref4(ks, ks.len() as int).len() <= 8 * pow8((osum4(x) - 1) as nat))
            by (nonlinear_arith)
            requires
                expand_pref4(ks, ks.len() as int).len() <= ks.len() * pow8((osum4(x) - 1) as nat),
                ks.len() <= 8,
                pow8((osum4(x) - 1) as nat) >= 1,
        ;
    }
}

proof fn lemma_expand4_pref_props(x: X4V, ks: Seq<X4V>, k: int)
    requires
        wf4(x),
        prefs_ok4(x, pref_bound4()),
        osum4(x) > 0,
        0 <= k <= ks.len(),
        forall|j: int| 0 <= j < ks.len() ==> child_ok4(x, #[trigger] ks[j]),
    ensures
        forall|i: int|
            0 <= i < expand_pref4(ks, k).len() ==> expanded_ok4(
                x,
                #[trigger] expand_pref4(ks, k)[i],
            ),
        expand_pref4(ks, k).len() <= k * pow8((osum4(x) - 1) as nat),
    decreases osum4(x), k,
{
    lemma_pow8_pos((osum4(x) - 1) as nat);
    if k == 0 {
    } else {
        lemma_expand4_pref_props(x, ks, k - 1);
        let y = ks[k - 1];
        assert(child_ok4(x, y));
        let p = choose|p: int| 0 <= p < pref_bound4() && y.prefactors == x.prefactors.push(p);
        assert(prefs_ok4(y, pref_bound4()));
        lemma_expand4_props(y);
        lemma_pow8_mono(osum4(y) as nat, (osum4(x) - 1) as nat);
        assert forall|i: int|
            0 <= i < expand_pref4(ks, k).len() implies expanded_ok4(
            x,
            #[trigger] expand_pref4(ks, k)[i],
        ) by {
            if i < expand_pref4(ks, k - 1).len() {
            } else {
                let t = expand4_spec(y)[i - expand_pref4(ks, k - 1).len()];
                assert(expanded_ok4(y, t));
            }
        }
        assert(expand_pref4(ks, k).len() <= k * pow8((osum4(x) - 1) as nat)) by (nonlinear_arith)
            requires
                expand_pref4(ks, k).len() == expand_pref4(ks, k - 1).len() + expand4_spec(y).len(),
                expand_pref4(ks, k - 1).len() <= (k - 1) * pow8((osum4(x) - 1) as nat),
                expand4_spec(y).len() <= pow8(osum4(y) as nat),
                pow8(osum4(y) as nat) <= pow8((osum4(x) - 1) as nat),
                k >= 1,
        ;
    }
}


pub open spec fn views4(s: Seq<X4>) -> Seq<X4V> {
    s.map_values(|t: X4| t@)
}

fn copy_term4(x: &X4) -> (r: X4)
    ensures
        r@ == x@,
{
    let q = x.q.clone();
    let prefactors = x.prefactors.clone();
    proof {
        assert(q@ =~= x.q@);
        assert(prefactors@ =~= x.prefactors@);
    }
    let r = X4 { scale: x.scale, prefactors, q, order: x.order };
    proof {
        assert(r@ =~= x@);
    }
    r
}

fn dec_q4(t: &mut X4, i: usize)
    requires
        i < old(t)@.q.len(),
        -127 <= old(t)@.q[i as int],
    ensures
        final(t)@ == qd4(old(t)@, i as int),
{
    let v = t.q[i];
    t.q[i] = v - 1;
    proof {
        assert(iview(t.q@) =~= old(t)@.q.update(i as int, old(t)@.q[i as int] - 1));
        assert(t@ =~= qd4(old(t)@, i as int));
    }
}

fn bump_ord4(t: &mut X4)
    requires
        old(t)@.order < 255,
    ensures
        final(t)@ == bump4(old(t)@),
{
    t.order = t.order + 1;
    proof {
        assert(t@ =~= bump4(old(t)@));
    }
}

fn nonneg_exec4(t: &X4) -> (r: bool)
    ensures
        r == nonneg4(t@),
{
    let mut i: usize = 0;
    while i < t.q.len()
        invariant
            0 <= i <= t.q@.len(),
            forall|k: int| 0 <= k < i ==> 0 <= #[trigger] t@.q[k],
        decreases t.q@.len() - i,
    {
        if t.q[i] < 0 {
            assert(t@.q[i as int] < 0);
            return false;
        }
        i += 1;
    }
    true
}

fn push_kept4(ch: &mut Vec<X4>, t: X4, n: i8, p: usize)
    requires
        (n > 0 && nonneg4(t@)) ==> t@.scale * n <= u64::MAX,
    ensures
        views4(final(ch)@) == views4(old(ch)@) + keep4(t@, n as int, p as int),
{
    let ghost tv = t@;
    if n > 0 && nonneg_exec4(&t) {
        let mut y = t;
        y.scale = y.scale * (n as u64);
        y.prefactors.push(p);
        proof {
            assert(y@ =~= fin4(tv, n as int, p as int));
        }
        ch.push(y);
        proof {
            assert(keep4(tv, n as int, p as int) =~= seq![fin4(tv, n as int, p as int)]);
            assert(views4(ch@) =~= views4(old(ch)@) + keep4(tv, n as int, p as int));
        }
    } else {
        proof {
            assert(keep4(tv, n as int, p as int) =~= Seq::<X4V>::empty());
            assert(views4(ch@) =~= views4(ch@) + keep4(tv, n as int, p as int));
        }
    }
}

#[verifier::rlimit(100)]
fn children_four(x: &X4, f: usize, c: usize) -> (ch: Vec<X4>)
    requires
        wf4(x@),
        osum4(x@) > 0,
        f as int == pick4(x@),
        c as int == comp4(x@, f as int),
        0 <= f < 4,
        0 <= c < 3,
    ensures
        views4(ch@) == kept4(x@, f as int, c as int),
{
    let ghost xv = x@;
    let ghost ks = kept4(xv, f as int, c as int);
    proof {
        lemma_pick4_props(xv);
        assert(xv.order < 255);
    }
    let i = 3 * f + c;
    let v = x.q[i];
    let b = if f < 2 {
        1 - f
    } else {
        5 - f
    };
    let cc = if f < 2 {
        3
    } else {
        1
    };
    let dd = if f < 2 {
        2
    } else {
        0
    };
    let i1 = 6 * c + f;
    let i2 = 6 * c + 4 + if f < 2 {
        0
    } else {
        1
    };
    let p2 = if f < 2 {
        18
    } else {
        19
    };
    let p3 = if f < 2 {
        20
    } else {
        21
    };
    proof {
        assert(xv.q[i as int] >= 1);
    }
    let mut ch: Vec<X4> = Vec::new();

    let mut t0 = copy_term4(x);
    dec_q4(&mut t0, i);
    let mut t1 = copy_term4(x);
    dec_q4(&mut t1, i);
    bump_ord4(&mut t1);
    proof {
        assert(t1@ == bump4(qd4(xv, i as int)));
        assert((1i8 > 0 && nonneg4(t0@)) ==> t0@.scale * 1 <= u64::MAX) by {
            if nonneg4(t0@) {
                lemma_ffx4_q1(xv, i as int);
                lemma_keep_ok4(xv, t0@, 1, i1 as int, xv.q[i as int]);
            }
        }
        assert((1i8 > 0 && nonneg4(t1@)) ==> t1@.scale * 1 <= u64::MAX) by {
            if nonneg4(t1@) {
                lemma_ffx4_q1(xv, i as int);
                lemma_keep_ok4(xv, t1@, 1, i2 as int, xv.q[i as int]);
            }
        }
    }
    push_kept4(&mut ch, t0, 1, i1);
    push_kept4(&mut ch, t1, 1, i2);

    let mut t2 = copy_term4(x);
    dec_q4(&mut t2, i);
    dec_q4(&mut t2, i);
    let mut t3 = copy_term4(x);
    dec_q4(&mut t3, i);
    dec_q4(&mut t3, i);
    bump_ord4(&mut t3);
    proof {
        assert(t3@ == bump4(qd4(qd4(xv, i as int), i as int)));
        assert((v - 1 > 0 && nonneg4(t2@)) ==> t2@.scale * (v - 1) <= u64::MAX) by {
            if v - 1 > 0 && nonneg4(t2@) {
                lemma_ffx4_q2(xv, i as int);
                assert(xv.q[i as int] - 1 <= (xv.q[i as int] - 1) * xv.q[i as int])
                    by (nonlinear_arith)
                    requires
                        xv.q[i as int] >= 2,
                ;
                lemma_keep_ok4(xv, t2@, v - 1, p2 as int, (xv.q[i as int] - 1) * xv.q[i as int]);
            }
        }
        assert((v - 1 > 0 && nonneg4(t3@)) ==> t3@.scale * (v - 1) <= u64::MAX) by {
            if v - 1 > 0 && nonneg4(t3@) {
                lemma_ffx4_q2(xv, i as int);
                assert(xv.q[i as int] - 1 <= (xv.q[i as int] - 1) * xv.q[i as int])
                    by (nonlinear_arith)
                    requires
                        xv.q[i as int] >= 2,
                ;
                lemma_keep_ok4(xv, t3@, v - 1, p3 as int, (xv.q[i as int] - 1) * xv.q[i as int]);
            }
        }
    }
    push_kept4(&mut ch, t2, v - 1, p2);
    push_kept4(&mut ch, t3, v - 1, p3);

    let jb = 3 * b + c;
    let wb = x.q[jb];
    let mut t4 = copy_term4(x);
    dec_q4(&mut t4, i);
    dec_q4(&mut t4, jb);
    let mut t5 = copy_term4(x);
    dec_q4(&mut t5, i);
    dec_q4(&mut t5, jb);
    bump_ord4(&mut t5);
    proof {
        assert(t5@ == bump4(qd4(qd4(xv, i as int), jb as int)));
        assert((wb > 0 && nonneg4(t4@)) ==> t4@.scale * wb <= u64::MAX) by {
            if wb > 0 && nonneg4(t4@) {
                lemma_ffx4_q11(xv, i as int, jb as int);
                assert(xv.q[jb as int] <= xv.q[i as int] * xv.q[jb as int]) by (nonlinear_arith)
                    requires
                        xv.q[i as int] >= 1,
                        xv.q[jb as int] >= 1,
                ;
                lemma_keep_ok4(xv, t4@, wb as int, p2 as int, xv.q[i as int] * xv.q[jb as int]);
            }
        }
        assert((wb > 0 && nonneg4(t5@)) ==> t5@.scale * wb <= u64::MAX) by {
            if wb > 0 && nonneg4(t5@) {
                lemma_ffx4_q11(xv, i as int, jb as int);
                assert(xv.q[jb as int] <= xv.q[i as int] * xv.q[jb as int]) by (nonlinear_arith)
                    requires
                        xv.q[i as int] >= 1,
                        xv.q[jb as int] >= 1,
                ;
                lemma_keep_ok4(xv, t5@, wb as int, p3 as int, xv.q[i as int] * xv.q[jb as int]);
            }
        }
    }
    push_kept4(&mut ch, t4, wb, p2);
    push_kept4(&mut ch, t5, wb, p3);

    let jc = 3 * cc + c;
    let wc = x.q[jc];
    let mut t6 = copy_term4(x);
    dec_q4(&mut t6, i);
    dec_q4(&mut t6, jc);
    bump_ord4(&mut t6);
    proof {
        assert(t6@ == bump4(qd4(qd4(xv, i as int), jc as int)));
        assert((wc > 0 && nonneg4(t6@)) ==> t6@.scale * wc <= u64::MAX) by {
            if wc > 0 && nonneg4(t6@) {
                assert(t6@.q[jc as int] >= 0);
                assert(xv.q[jc as int] >= 1);
                lemma_ffx4_q11(xv, i as int, jc as int);
                assert(xv.q[jc as int] <= xv.q[i as int] * xv.q[jc as int]) by (nonlinear_arith)
                    requires
                        xv.q[i as int] >= 1,
                        xv.q[jc as int] >= 1,
                ;
                lemma_keep_ok4(xv, t6@, wc as int, 22, xv.q[i as int] * xv.q[jc as int]);
            }
        }
    }
    push_kept4(&mut ch, t6, wc, 22);

    let jd = 3 * dd + c;
    let wd = x.q[jd];
    let mut t7 = copy_term4(x);
    dec_q4(&mut t7, i);
    dec_q4(&mut t7, jd);
    bump_ord4(&mut t7);
    proof {
        assert(t7@ == bump4(qd4(qd4(xv, i as int), jd as int)));
        assert((wd > 0 && nonneg4(t7@)) ==> t7@.scale * wd <= u64::MAX) by {
            if wd > 0 && nonneg4(t7@) {
                assert(t7@.q[jd as int] >= 0);
                assert(xv.q[jd as int] >= 1);
                lemma_ffx4_q11(xv, i as int, jd as int);
                assert(xv.q[jd as int] <= xv.q[i as int] * xv.q[jd as int]) by (nonlinear_arith)
                    requires
                        xv.q[i as int] >= 1,
                        xv.q[jd as int] >= 1,
                ;
                lemma_keep_ok4(xv, t7@, wd as int, 22, xv.q[i as int] * xv.q[jd as int]);
            }
        }
    }
    push_kept4(&mut ch, t7, wd, 22);
    proof {
        assert(views4(ch@) =~= ks);
    }
    ch
}

/// One step of the four-center Coulomb descent, recursing until every term
/// is a base case; the result is exactly the model expansion.
#[verifier::rlimit(100)]
pub fn apply_os4(x: X4) -> (r: Vec<X4>)
    requires
        wf4(x@),
    ensures
        views4(r@) == expand4_spec(x@),
    decreases osum4(x@),
{
    let ghost xv = x@;
    let so = sum_i8(&x.q);

    if so == 0 {
        proof {
            assert(expand4_spec(xv) =~= seq![xv]);
        }
        let r = vec![x];
        proof {
            assert(views4(r@) =~= seq![xv]);
        }
        return r;
    }
    proof {
        lemma_vsum_nonneg(xv.q);
        lemma_pick4_props(xv);
        assert forall|k: int| 0 <= k < 12 implies 0 <= #[trigger] x.q@[k] by {
            assert(xv.q[k] >= 0);
        }
        assert forall|k: int| 0 <= k < 4 implies csum(iview(x.q@), k) <= 126 by {
            lemma_csum_le_vsum(iview(x.q@), k);
        }
    }

    let f = match find_fun_to_lower(&x.q, 4) {
        Ok(f) => f,
        Err(_) => {
            proof {
                assert(false);
            }
            vstd::pervasive::unreached()
        },
    };
    proof {
        assert(f as int == pick4(xv));
    }
    let fo: [i8; 3] = [x.q[3 * f], x.q[3 * f + 1], x.q[3 * f + 2]];
    let c = match find_component_to_lower(&fo) {
        Ok(c) => c,
        Err(_) => {
            proof {
                assert(false);
            }
            vstd::pervasive::unreached()
        },
    };
    proof {
        assert(c as int == comp4(xv, f as int));
    }
    let ghost ks = kept4(xv, f as int, c as int);

    let ch = children_four(&x, f, c);
    proof {
        lemma_kept4_ok(xv);
        assert forall|k: int| 0 <= k < ch@.len() implies child_ok4(xv, #[trigger] ch@[k]@) by {
            assert(views4(ch@)[k] == ch@[k]@);
            assert(child_ok4(xv, ks[k]));
        }
    }

    let mut out: Vec<X4> = Vec::new();
    let mut k: usize = 0;
    while k < ch.len()
        invariant
            0 <= k <= ch@.len(),
            xv == x@,
            views4(ch@) == ks,
            wf4(xv),
            osum4(xv) > 0,
            pick4(xv) >= 0,
            ks == kept4(xv, pick4(xv), comp4(xv, pick4(xv))),
            forall|j: int| 0 <= j < ch@.len() ==> child_ok4(xv, #[trigger] ch@[j]@),
            views4(out@) == expand_pref4(ks, k as int),
        decreases ch@.len() - k,
    {
        let child = copy_term4(&ch[k]);
        proof {
            assert(child@ == ks[k as int]);
            assert(child_ok4(xv, child@));
            assert(osum4(child@) < osum4(x@));
        }
        let mut sub = apply_os4(child);
        let ghost sub_before = sub@;
        let ghost out_before = out@;
        out.append(&mut sub);
        proof {
            assert(views4(out@) =~= views4(out_before) + views4(sub_before));
            assert(views4(out@) == expand_pref4(ks, k as int + 1));
        }
        k += 1;
    }
    proof {
        lemma_expand4_unfold(xv);
        assert(views4(out@) == expand4_spec(xv));
    }
    out
}


/// The one invalid input the engine rejects: a negative Cartesian exponent.
/// Reaching it indicates a defect in the caller's shell expansion.
#[derive(Clone, Copy, Debug, PartialEq, Eq, Structural)]
pub enum IntegralError {
    NegativeExponent,
}

pub proof fn lemma_fact_mono(a: int, b: int)
    requires
        a <= b,
    ensures
        fact(a) <= fact(b),
    decreases b,
{
    lemma_fact_pos(b - 1);
    if a < b && b > 0 {
        lemma_fact_mono(a, b - 1);
        assert(fact(b) == b * fact(b - 1));
        assert(fact(b - 1) <= b * fact(b - 1)) by (nonlinear_arith)
            requires
                b >= 1,
                fact(b - 1) >= 1,
        ;
    }
}

pub proof fn lemma_fact20()
    ensures
        fact(20) == 2432902008176640000,
        fact(20) <= u64::MAX,
{
    reveal_with_fuel(fact, 21);
    assert(fact(0) == 1);
    assert(fact(20) == 2432902008176640000);
}

/// The starting term of a two-center expansion.
pub open spec fn init2(kind: X2kind, q: Seq<int>, operator: Seq<int>) -> X2V {
    X2V {
        scale: 1,
        prefactors: Seq::empty(),
        q: q,
        kind: kind,
        operator: operator,
        d: 0,
        order: 0,
    }
}

/// The starting term of a four-center expansion.
pub open spec fn init4(q: Seq<int>) -> X4V {
    X4V { scale: 1, prefactors: Seq::empty(), q: q, order: 0 }
}

/// A bound that keeps every coefficient of the descent exact in a u64.
pub proof fn lemma_init2_wf(x: X2V)
    requires
        x.q.len() == 6,
        x.operator.len() == 3,
        nonneg2(x),
        x.kind == X2kind::M || opzero2(x),
        osum2(x) <= 20,
        x.scale == 1,
        x.order == 0,
        x.d == 0,
        x.prefactors == Seq::<int>::empty(),
    ensures
        wf2(x),
{
    lemma_vsum_nonneg(x.q);
    lemma_vsum_nonneg(x.operator);
    lemma_ffprod_le_fact_vsum(x.q);
    lemma_ffprod_le_fact_vsum(x.operator);
    lemma_fact_pos(vsum(x.q));
    lemma_fact_pos(vsum(x.operator));
    lemma_ffprod_pos(x.q);
    lemma_ffprod_pos(x.operator);
    lemma_fact_mul(vsum(x.q), vsum(x.operator));
    lemma_fact_mono(vsum(x.q) + vsum(x.operator), 20);
    lemma_fact20();
    assert(ffprod(x.q) * ffprod(x.operator) <= fact(vsum(x.q)) * fact(vsum(x.operator)))
        by (nonlinear_arith)
        requires
            1 <= ffprod(x.q) <= fact(vsum(x.q)),
            1 <= ffprod(x.operator) <= fact(vsum(x.operator)),
    ;
}

pub proof fn lemma_init4_wf(x: X4V)
    requires
        x.q.len() == 12,
        nonneg4(x),
        osum4(x) <= 20,
        x.scale == 1,
        x.order == 0,
        x.prefactors == Seq::<int>::empty(),
    ensures
        wf4(x),
{
    lemma_vsum_nonneg(x.q);
    lemma_ffprod_le_fact_vsum(x.q);
    lemma_fact_mono(vsum(x.q), 20);
    lemma_fact20();
    lemma_ffprod_pos(x.q);
}

/// Expand a two-center integral of the given kind: six Cartesian exponents
/// `[ax, ay, az, bx, by, bz]` and, for the multipole kind, three operator
/// moments.  Rejects a negative exponent; otherwise returns exactly the
/// base-case terms of the model expansion, each with all exponents zero, a
/// Boys order at most the total input momentum, and prefactor slots inside
/// the kind's table.  The momentum bound keeps every integer coefficient of
/// the descent exact in a u64; it is far beyond any tabulated basis set.
pub fn expand(kind: X2kind, q: Vec<i8>, operator: Vec<i8>) -> (r: Result<Vec<X2>, IntegralError>)
    requires
        q@.len() == 6,
        operator@.len() == 3,
        kind == X2kind::M || (forall|i: int| 0 <= i < 3 ==> #[trigger] operator@[i] == 0),
        (nonneg2(init2(kind, iview(q@), iview(operator@))) ==> osum2(
            init2(kind, iview(q@), iview(operator@)),
        ) <= 20),
    ensures
        ({
            let x0 = init2(kind, iview(q@), iview(operator@));
            match r {
                Err(e) => !nonneg2(x0) && e == IntegralError::NegativeExponent,
                Ok(terms) => {
                    &&& nonneg2(x0)
                    &&& views2(terms@) == expand2_spec(x0)
                    &&& forall|k: int|
                        0 <= k < terms@.len() ==> expanded_ok(
                            x0,
                            pref_bound2(kind),
                            #[trigger] terms@[k]@,
                        )
                },
            }
        }),
{
    let x = X2 {
        scale: 1,
        prefactors: Vec::new(),
        q,
        kind,
        operator,
        d: 0,
        order: 0,
    };
    let ghost x0 = x@;
    proof {
        assert(x0 == init2(kind, iview(x.q@), iview(x.operator@)));
        assert(x0.prefactors =~= Seq::<int>::empty());
    }
    if !nonneg_exec(&x) {
        return Err(IntegralError::NegativeExponent);
    }
    proof {
        lemma_init2_wf(x0);
        lemma_expand2_props(x0, pref_bound2(kind));
    }
    let terms = apply_os2(x, kind);
    proof {
        assert forall|k: int| 0 <= k < terms@.len() implies expanded_ok(
            x0,
            pref_bound2(kind),
            #[trigger] terms@[k]@,
        ) by {
            assert(views2(terms@)[k] == terms@[k]@);
            assert(expanded_ok(x0, pref_bound2(kind), expand2_spec(x0)[k]));
        }
    }
    Ok(terms)
}

/// Expand a four-center Coulomb integral: twelve Cartesian exponents, three
/// per center.  Rejects a negative exponent; otherwise returns exactly the
/// base-case terms of the model expansion.  The momentum bound keeps every
/// integer coefficient of the descent exact in a u64.
pub fn expand_coulomb(q: Vec<i8>) -> (r: Result<Vec<X4>, IntegralError>)
    requires
        q@.len() == 12,
        (nonneg4(init4(iview(q@))) ==> osum4(init4(iview(q@))) <= 20),
    ensures
        ({
            let x0 = init4(iview(q@));
            match r {
                Err(e) => !nonneg4(x0) && e == IntegralError::NegativeExponent,
                Ok(terms) => {
                    &&& nonneg4(x0)
                    &&& views4(terms@) == expand4_spec(x0)
                    &&& forall|k: int|
                        0 <= k < terms@.len() ==> expanded_ok4(x0, #[trigger] terms@[k]@)
                },
            }
        }),
{
    let x = X4 { scale: 1, prefactors: Vec::new(), q, order: 0 };
    let ghost x0 = x@;
    proof {
        assert(x0 == init4(iview(x.q@)));
        assert(x0.prefactors =~= Seq::<int>::empty());
    }
    if !nonneg_exec4(&x) {
        return Err(IntegralError::NegativeExponent);
    }
    proof {
        lemma_init4_wf(x0);
        lemma_expand4_props(x0);
    }
    let terms = apply_os4(x);
    proof {
        assert forall|k: int| 0 <= k < terms@.len() implies expanded_ok4(
            x0,
            #[trigger] terms@[k]@,
        ) by {
            assert(views4(terms@)[k] == terms@[k]@);
            assert(expanded_ok4(x0, expand4_spec(x0)[k]));
        }
    }
    Ok(terms)
}

} // verus!
