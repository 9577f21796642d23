//! The combinatorial side of basis assembly: the double factorial of the
//! normalization formula, validation of shell data, and the expansion of
//! shells into an index-stable flat list of basis functions.

use crate::shell::get_ijk_list;
use crate::shell::ijk_seq;
use crate::shell::pmap;
use crate::shell::pview;
use vstd::prelude::*;

verus! {

/// The double factorial `n!!`, with value 1 for `n <= 0`.
pub open spec fn fact2_spec(n: int) -> int
    decreases
            if n <= 0 {
                0int
            } else {
                n
            },
{
    if n <= 0 {
        1
    } else {
        n * fact2_spec(n - 2)
    }
}

pub proof fn lemma_fact2_pos(n: int)
    ensures
        fact2_spec(n) >= 1,
    decreases
            if n <= 0 {
                0int
            } else {
                n
            },
{
    if n > 0 {
        lemma_fact2_pos(n - 2);
        assert(n * fact2_spec(n - 2) >= 1) by (nonlinear_arith)
            requires
                n >= 1,
                fact2_spec(n - 2) >= 1,
        ;
    }
}

/// `n!!` grows when `n` steps up by two.
pub proof fn lemma_fact2_step(n: int)
    ensures
        fact2_spec(n) <= fact2_spec(n + 2),
{
    lemma_fact2_pos(n);
    lemma_fact2_pos(n + 2);
    if n + 2 > 0 {
        assert(fact2_spec(n + 2) == (n + 2) * fact2_spec(n));
        assert(fact2_spec(n) <= (n + 2) * fact2_spec(n)) by (nonlinear_arith)
            requires
                n + 2 >= 1,
                fact2_spec(n) >= 1,
        ;
    }
}

/// Everything up to `19!!` fits comfortably in 32 bits.
pub proof fn lemma_fact2_le19(n: int)
    requires
        n <= 19,
    ensures
        fact2_spec(n) <= 654729075,
    decreases 19 - n,
{
    if n <= 17 {
        lemma_fact2_le19(n + 2);
        lemma_fact2_step(n);
    } else {
        reveal_with_fuel(fact2_spec, 11);
        assert(fact2_spec(18) == 185794560);
        assert(fact2_spec(19) == 654729075);
    }
}

/// The double factorial `n!!`; `1` for any non-positive argument.
pub fn fact2(n: isize) -> (r: isize)
    requires
        n <= 19,
    ensures
        r == fact2_spec(n as int),
    decreases
            (if n <= 0 {
                0isize
            } else {
                n
            }),
{
    proof {
        lemma_fact2_pos(n as int - 2);
        lemma_fact2_le19(n as int - 2);
        lemma_fact2_le19(n as int);
    }
    if n <= 0 {
        1
    } else {
        n * fact2(n - 2)
    }
}

/// The shape of one electron shell as retrieved from a basis-set library:
/// its angular momenta, how many primitive exponents it carries, and the
/// length of the contraction-coefficient list stored for each angular
/// momentum value.
#[derive(Debug)]
pub struct ShellSpec {
    pub angular_momenta: Vec<usize>,
    pub n_exponents: usize,
    pub coefficient_counts: Vec<usize>,
}

/// Why a set of shells was rejected.
#[derive(Clone, Copy, Debug, PartialEq, Eq, Structural)]
pub enum BasisError {
    /// A shell that carries angular momenta but no primitives.
    EmptyShell,
    /// An angular momentum with no coefficient list at all.
    MissingCoefficients,
    /// A coefficient list whose length differs from the exponent list's.
    MismatchedCoefficients,
}

/// A well-formed shell: every angular momentum has a coefficient list of
/// exactly one coefficient per exponent, and a shell that generates
/// functions has at least one primitive.
pub open spec fn shell_ok(s: ShellSpec) -> bool {
    &&& (s.angular_momenta@.len() == 0 || s.n_exponents > 0)
    &&& forall|m: int|
        0 <= m < s.angular_momenta@.len() ==> {
            let am = #[trigger] s.angular_momenta@[m];
            am < s.coefficient_counts@.len() && s.coefficient_counts@[am as int] == s.n_exponents
        }
}

/// One basis function of the flat, index-stable layout: which shell it came
/// from, its total angular momentum, and its Cartesian powers.
#[derive(Debug)]
pub struct BasisFunction {
    pub shell: usize,
    pub am: usize,
    pub powers: [usize; 3],
}

/// The mathematical model of a basis function.
#[verifier::ext_equal]
pub ghost struct BFV {
    pub shell: int,
    pub am: int,
    pub powers: (int, int, int),
}

impl View for BasisFunction {
    type V = BFV;

    open spec fn view(&self) -> BFV {
        BFV { shell: self.shell as int, am: self.am as int, powers: pview(self.powers) }
    }
}

pub open spec fn bviews(s: Seq<BasisFunction>) -> Seq<BFV> {
    s.map_values(|t: BasisFunction| t@)
}

/// The functions one angular momentum of shell `k` contributes, in the fixed
/// Cartesian-power order.
pub open spec fn am_terms(k: int, am: int) -> Seq<BFV> {
    ijk_seq(am).map_values(|p: (int, int, int)| BFV { shell: k, am: am, powers: p })
}

/// The functions the first `m` angular momenta of shell `k` contribute.
pub open spec fn shell_terms(s: ShellSpec, k: int, m: int) -> Seq<BFV>
    decreases m,
{
    if m <= 0 {
        Seq::empty()
    } else {
        shell_terms(s, k, m - 1) + am_terms(k, s.angular_momenta@[m - 1] as int)
    }
}

/// The functions the first `n` shells contribute.
pub open spec fn layout_terms(shells: Seq<ShellSpec>, n: int) -> Seq<BFV>
    decreases n,
{
    if n <= 0 {
        Seq::empty()
    } else {
        layout_terms(shells, n - 1) + shell_terms(
            shells[n - 1],
            n - 1,
            shells[n - 1].angular_momenta@.len() as int,
        )
    }
}

/// The whole flat layout: shells in input order, their momenta in listed
/// order, Cartesian powers in the fixed enumeration order.
pub open spec fn layout_spec(shells: Seq<ShellSpec>) -> Seq<BFV> {
    layout_terms(shells, shells.len() as int)
}

/// Check a set of shells, naming the first defect found.
pub fn validate_shells(shells: &Vec<ShellSpec>) -> (r: Result<(), BasisError>)
    ensures
        r is Ok <==> (forall|k: int| 0 <= k < shells@.len() ==> shell_ok(#[trigger] shells@[k])),
        r matches Err(e) && e == BasisError::EmptyShell ==> exists|k: int|
            0 <= k < shells@.len() && (#[trigger] shells@[k]).angular_momenta@.len() > 0 && shells@[
                k
            ].n_exponents == 0,
        r matches Err(e) && e == BasisError::MissingCoefficients ==> exists|k: int, m: int|
            0 <= k < shells@.len() && 0 <= m < shells@[k].angular_momenta@.len()
                && #[trigger] shells@[k].angular_momenta@[m]
                >= shells@[k].coefficient_counts@.len(),
        r matches Err(e) && e == BasisError::MismatchedCoefficients ==> exists|k: int, m: int|
            0 <= k < shells@.len() && 0 <= m < shells@[k].angular_momenta@.len() && {
                let am = #[trigger] shells@[k].angular_momenta@[m] as int;
                am < shells@[k].coefficient_counts@.len() && shells@[k].coefficient_counts@[am]
                    != shells@[k].n_exponents
            },
{
    let mut k: usize = 0;
    while k < shells.len()
        invariant
            0 <= k <= shells@.len(),
            forall|j: int| 0 <= j < k ==> shell_ok(#[trigger] shells@[j]),
        decreases shells@.len() - k,
    {
        let s = &shells[k];
        if s.angular_momenta.len() > 0 && s.n_exponents == 0 {
            return Err(BasisError::EmptyShell);
        }
        let mut m: usize = 0;
        while m < s.angular_momenta.len()
            invariant
                0 <= m <= s.angular_momenta@.len(),
                s == shells@[k as int],
                0 <= k < shells@.len(),
                forall|j: int|
                    0 <= j < m ==> {
                        let am = #[trigger] s.angular_momenta@[j];
                        am < s.coefficient_counts@.len() && s.coefficient_counts@[am as int]
                            == s.n_exponents
                    },
            decreases s.angular_momenta@.len() - m,
        {
            let am = s.angular_momenta[m];
            if am >= s.coefficient_counts.len() {
                return Err(BasisError::MissingCoefficients);
            }
            if s.coefficient_counts[am] != s.n_exponents {
                return Err(BasisError::MismatchedCoefficients);
            }
            m += 1;
        }
        k += 1;
    }
    Ok(())
}

/// Expand shells into the flat, index-stable list of basis functions whose
/// position defines every matrix row and column, rejecting malformed shell
/// data first.
pub fn basis_layout(shells: &Vec<ShellSpec>) -> (r: Result<Vec<BasisFunction>, BasisError>)
    requires
        forall|k: int, m: int|
            0 <= k < shells@.len() && 0 <= m < (#[trigger] shells@[k]).angular_momenta@.len()
                ==> #[trigger] shells@[k].angular_momenta@[m] <= 126,
    ensures
        r is Ok <==> (forall|k: int| 0 <= k < shells@.len() ==> shell_ok(#[trigger] shells@[k])),
        r matches Ok(lay) ==> bviews(lay@) == layout_spec(shells@),
{
    match validate_shells(shells) {
        Ok(_) => {},
        Err(e) => {
            return Err(e);
        },
    }
    let mut lay: Vec<BasisFunction> = Vec::new();
    let mut k: usize = 0;
    while k < shells.len()
        invariant
            0 <= k <= shells@.len(),
            forall|kk: int, m: int|
                0 <= kk < shells@.len() && 0 <= m < (#[trigger] shells@[kk]).angular_momenta@.len()
                    ==> #[trigger] shells@[kk].angular_momenta@[m] <= 126,
            bviews(lay@) == layout_terms(shells@, k as int),
        decreases shells@.len() - k,
    {
        let s = &shells[k];
        let mut m: usize = 0;
        while m < s.angular_momenta.len()
            invariant
                0 <= m <= s.angular_momenta@.len(),
                s == shells@[k as int],
                0 <= k < shells@.len(),
                forall|j: int|
                    0 <= j < s.angular_momenta@.len() ==> #[trigger] s.angular_momenta@[j] <= 126,
                bviews(lay@) == layout_terms(shells@, k as int) + shell_terms(
                    *s,
                    k as int,
                    m as int,
                ),
            decreases s.angular_momenta@.len() - m,
        {
            let am = s.angular_momenta[m];
            let powers = get_ijk_list(am);
            let ghost terms = am_terms(k as int, am as int);
            let mut idx: usize = 0;
            proof {
                assert(pmap(powers@).len() == powers@.len());
                assert(terms.len() == ijk_seq(am as int).len());
            }
            while idx < powers.len()
                invariant
                    0 <= idx <= powers@.len(),
                    0 <= k < shells@.len(),
                    am <= 126,
                    pmap(powers@) == ijk_seq(am as int),
                    terms == am_terms(k as int, am as int),
                    terms.len() == powers@.len(),
                    bviews(lay@) == layout_terms(shells@, k as int) + shell_terms(
                        *s,
                        k as int,
                        m as int,
                    ) + terms.take(idx as int),
                decreases powers@.len() - idx,
            {
                let bf = BasisFunction { shell: k, am: am, powers: powers[idx] };
                proof {
                    assert(pmap(powers@)[idx as int] == pview(powers@[idx as int]));
                    assert(terms[idx as int] == BFV {
                        shell: k as int,
                        am: am as int,
                        powers: ijk_seq(am as int)[idx as int],
                    });
                    assert(bf@ == terms[idx as int]);
                }
                let ghost lay0 = lay@;
                lay.push(bf);
                proof {
                    assert(lay@ == lay0.push(bf));
                    assert(bviews(lay@).len() == lay@.len());
                    assert(bviews(lay0).len() == lay0.len());
                    let ghost base = (layout_terms(shells@, k as int) + shell_terms(
                        *s,
                        k as int,
                        m as int,
                    )).len();
                    assert forall|ii: int| 0 <= ii < lay@.len() implies #[trigger] bviews(lay@)[ii]
                        == (layout_terms(shells@, k as int) + shell_terms(*s, k as int, m as int)
                        + terms.take(idx as int + 1))[ii] by {
                        assert(bviews(lay@)[ii] == lay@[ii]@);
                        if ii < lay0.len() {
                            assert(lay@[ii] == lay0[ii]);
                            assert(bviews(lay0)[ii] == lay0[ii]@);
                            if ii >= base {
                                assert(terms.take(idx as int)[ii - base] == terms[ii - base]);
                                assert(terms.take(idx as int + 1)[ii - base] == terms[ii - base]);
                            }
                        } else {
                            assert(lay@[ii] == bf);
                            assert(ii == base + idx);
                            assert(terms.take(idx as int + 1)[idx as int] == terms[idx as int]);
                        }
                    }
                    assert(bviews(lay@) =~= layout_terms(shells@, k as int) + shell_terms(
                        *s,
                        k as int,
                        m as int,
                    ) + terms.take(idx as int + 1));
                }
                idx += 1;
            }
            proof {
                assert(terms.take(terms.len() as int) =~= terms);
                assert(shell_terms(*s, k as int, m as int + 1) == shell_terms(*s, k as int, m as int)
                    + am_terms(k as int, s.angular_momenta@[m as int] as int));
                assert(bviews(lay@) =~= layout_terms(shells@, k as int) + shell_terms(
                    *s,
                    k as int,
                    m as int + 1,
                ));
            }
            m += 1;
        }
        proof {
            assert(layout_terms(shells@, k as int + 1) == layout_terms(shells@, k as int)
                + shell_terms(shells@[k as int], k as int, shells@[k as int].angular_momenta@.len() as int));
            assert(bviews(lay@) =~= layout_terms(shells@, k as int + 1));
        }
        k += 1;
    }
    proof {
        assert(bviews(lay@) == layout_spec(shells@));
    }
    Ok(lay)
}

} // verus!
