//! Expansion of a shell's total angular momentum into Cartesian power
//! triples, in the fixed order that defines every matrix row and column.

use vstd::prelude::*;

verus! {

/// A power triple as a mathematical tuple `(i, j, k)`.
pub open spec fn pview(t: [usize; 3]) -> (int, int, int) {
    (t@[0] as int, t@[1] as int, t@[2] as int)
}

/// The triples of a list, as mathematical tuples.
pub open spec fn pmap(s: Seq<[usize; 3]>) -> Seq<(int, int, int)> {
    s.map_values(|t: [usize; 3]| pview(t))
}

/// Row `a` of the enumeration of momentum `l`: the triples whose first power
/// is `l - a`, with the third power counting up.
pub open spec fn ijk_row(l: int, a: int) -> Seq<(int, int, int)> {
    Seq::new((a + 1) as nat, |b: int| (l - a, a - b, b))
}

/// The first `a + 1` rows of the enumeration of momentum `l`.
pub open spec fn ijk_rows(l: int, a: int) -> Seq<(int, int, int)>
    decreases a + 1,
{
    if a < 0 {
        Seq::empty()
    } else {
        ijk_rows(l, a - 1) + ijk_row(l, a)
    }
}

/// Every Cartesian power triple of total momentum `l`, in the crate's fixed
/// order: the first power descends from `l` to zero, and within a row the
/// third power ascends.
pub open spec fn ijk_seq(l: int) -> Seq<(int, int, int)> {
    ijk_rows(l, l)
}

/// The count of triples in the first `n` rows: the `n`-th triangular number.
pub open spec fn tri_count(n: int) -> int
    decreases n,
{
    if n <= 0 {
        0
    } else {
        tri_count(n - 1) + n
    }
}

pub proof fn lemma_ijk_rows_len(l: int, a: int)
    requires
        -1 <= a,
    ensures
        ijk_rows(l, a).len() == tri_count(a + 1),
    decreases a + 1,
{
    if a >= 0 {
        lemma_ijk_rows_len(l, a - 1);
    }
}

/// Every triple of non-negative powers summing to `l` appears in the
/// enumeration, at the position its row and third power give.
pub proof fn lemma_ijk_complete(l: int, i: int, j: int, k: int)
    requires
        0 <= i,
        0 <= j,
        0 <= k,
        i + j + k == l,
    ensures
        exists|idx: int|
            0 <= idx < ijk_seq(l).len() && ijk_seq(l)[idx] == (i, j, k),
{
    let a = j + k;
    lemma_ijk_rows_prefix(l, a, l);
    let idx = ijk_rows(l, a - 1).len() + k;
    assert(ijk_rows(l, a)[idx] == (i, j, k));
    assert(ijk_seq(l)[idx] == (i, j, k));
}

/// The first rows are a prefix of the whole enumeration.
pub proof fn lemma_ijk_rows_prefix(l: int, a: int, b: int)
    requires
        -1 <= a <= b,
    ensures
        ijk_rows(l, b).len() >= ijk_rows(l, a).len(),
        forall|idx: int|
            0 <= idx < ijk_rows(l, a).len() ==> ijk_rows(l, b)[idx] == ijk_rows(l, a)[idx],
    decreases b + 1,
{
    if a < b {
        lemma_ijk_rows_prefix(l, a, b - 1);
    }
}

/// Expand total angular momentum `l` into its Cartesian power triples
/// `(i, j, k)` with `i + j + k == l`, in the crate's fixed order.
pub fn get_ijk_list(l: usize) -> (r: Vec<[usize; 3]>)
    requires
        l <= 126,
    ensures
        pmap(r@) == ijk_seq(l as int),
{
    let mut r: Vec<[usize; 3]> = Vec::new();
    let mut a: usize = 0;
    while a <= l
        invariant
            0 <= a <= l + 1,
            l <= 126,
            pmap(r@) == ijk_rows(l as int, a as int - 1),
        decreases l + 1 - a,
    {
        let mut b: usize = 0;
        while b <= a
            invariant
                0 <= b <= a + 1,
                a <= l <= 126,
                pmap(r@) == ijk_rows(l as int, a as int - 1)
                    + ijk_row(l as int, a as int).take(b as int),
            decreases a + 1 - b,
        {
            let t: [usize; 3] = [l - a, a - b, b];
            proof {
                assert(pview(t) == (l as int - a, a as int - b, b as int));
            }
            let ghost r0 = r@;
            r.push(t);
            proof {
                assert(r@ == r0.push(t));
                assert(pmap(r0).len() == r0.len());
                assert(pmap(r@).len() == r@.len());
                assert(ijk_row(l as int, a as int).take(b as int).len() == b as int);
                assert(ijk_row(l as int, a as int).take(b as int + 1).len() == b as int + 1);
                assert(r0.len() == ijk_rows(l as int, a as int - 1).len() + b);
                assert forall|idx: int|
                    0 <= idx < r@.len() implies #[trigger] pmap(r@)[idx]
                    == (ijk_rows(l as int, a as int - 1) + ijk_row(l as int, a as int).take(
                    b as int + 1,
                ))[idx] by {
                    let rows = ijk_rows(l as int, a as int - 1);
                    let row = ijk_row(l as int, a as int);
                    assert(pmap(r0).len() == r0.len());
                    assert(row.take(b as int).len() == b as int);
                    assert(row.take(b as int + 1).len() == b as int + 1);
                    assert(r0.len() == rows.len() + b);
                    assert(pmap(r@)[idx] == pview(r@[idx]));
                    if idx < r0.len() {
                        assert(r@[idx] == r0[idx]);
                        assert(pmap(r0)[idx] == pview(r0[idx]));
                        assert(pmap(r0)[idx] == (rows + row.take(b as int))[idx]);
                        if idx < rows.len() {
                            assert((rows + row.take(b as int + 1))[idx] == rows[idx]);
                            assert((rows + row.take(b as int))[idx] == rows[idx]);
                        } else {
                            assert((rows + row.take(b as int + 1))[idx] == row.take(b as int + 1)[
                                idx - rows.len()]);
                            assert(row.take(b as int + 1)[idx - rows.len()] == row[idx
                                - rows.len()]);
                            assert((rows + row.take(b as int))[idx] == row.take(b as int)[idx
                                - rows.len()]);
                            assert(row.take(b as int)[idx - rows.len()] == row[idx - rows.len()]);
                        }
                    } else {
                        assert(r@[idx] == t);
                        assert(ijk_row(l as int, a as int).take(b as int + 1)[b as int]
                            == ijk_row(l as int, a as int)[b as int]);
                    }
                }
                assert(pmap(r@) =~= ijk_rows(l as int, a as int - 1)
                    + ijk_row(l as int, a as int).take(b as int + 1));
            }
            b += 1;
        }
        proof {
            assert(ijk_row(l as int, a as int).take(a as int + 1) =~= ijk_row(l as int, a as int));
            assert(pmap(r@) =~= ijk_rows(l as int, a as int));
        }
        a += 1;
    }
    r
}

} // verus!
