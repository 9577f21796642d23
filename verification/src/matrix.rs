//! Assembly of the dense integral matrices and the four-index tensor.
//!
//! The cell functions are supplied by the caller (they reduce integral
//! expansions to numbers); this module owns the index bookkeeping: each
//! unique cell is computed once, on the lower triangle, and mirrored, so the
//! returned matrices are exactly symmetric.

use vstd::prelude::*;

verus! {

/// Build the dense symmetric matrix of a pairwise quantity: `f` is evaluated
/// once per pair `(mu, nu)` with `nu <= mu` and the value mirrored into
/// `(nu, mu)`, never recomputed.
pub fn build_symmetric<T: Copy, F: Fn(usize, usize) -> T>(dim: usize, f: &F) -> (m: Vec<Vec<T>>)
    requires
        forall|mu: usize, nu: usize| nu <= mu < dim ==> call_requires(*f, (mu, nu)),
    ensures
        m@.len() == dim,
        forall|mu: int| 0 <= mu < dim ==> (#[trigger] m@[mu])@.len() == dim,
        forall|mu: usize, nu: usize|
            nu <= mu < dim ==> call_ensures(*f, (mu, nu), #[trigger] m@[mu as int]@[nu as int]),
        forall|mu: int, nu: int|
            0 <= mu < dim && 0 <= nu < dim ==> #[trigger] m@[mu]@[nu] == m@[nu]@[mu],
{
    // Every unique cell once: row `mu` of the lower triangle.
    let mut vals: Vec<Vec<T>> = Vec::new();
    let mut mu: usize = 0;
    while mu < dim
        invariant
            0 <= mu <= dim,
            forall|r: usize, c: usize| c <= r < dim ==> call_requires(*f, (r, c)),
            vals@.len() == mu,
            forall|r: int| 0 <= r < mu ==> (#[trigger] vals@[r])@.len() == r + 1,
            forall|r: usize, c: usize|
                c <= r < mu ==> call_ensures(*f, (r, c), #[trigger] vals@[r as int]@[c as int]),
        decreases dim - mu,
    {
        let mut row: Vec<T> = Vec::new();
        let mut nu: usize = 0;
        while nu <= mu
            invariant
                0 <= nu <= mu + 1,
                mu < dim,
                forall|r: usize, c: usize| c <= r < dim ==> call_requires(*f, (r, c)),
                row@.len() == nu,
                forall|c: usize| c < nu ==> call_ensures(*f, (mu, c), #[trigger] row@[c as int]),
            decreases mu + 1 - nu,
        {
            row.push(f(mu, nu));
            nu += 1;
        }
        vals.push(row);
        mu += 1;
    }

    // The full matrix, mirroring the triangle.
    let mut m: Vec<Vec<T>> = Vec::new();
    let mut mu: usize = 0;
    while mu < dim
        invariant
            0 <= mu <= dim,
            vals@.len() == dim,
            forall|r: int| 0 <= r < dim ==> (#[trigger] vals@[r])@.len() == r + 1,
            forall|r: usize, c: usize|
                c <= r < dim ==> call_ensures(*f, (r, c), #[trigger] vals@[r as int]@[c as int]),
            m@.len() == mu,
            forall|r: int| 0 <= r < mu ==> (#[trigger] m@[r])@.len() == dim,
            forall|r: int, c: int|
                0 <= r < mu && 0 <= c < dim ==> #[trigger] m@[r]@[c] == (if c <= r {
                    vals@[r]@[c]
                } else {
                    vals@[c]@[r]
                }),
        decreases dim - mu,
    {
        let mut row: Vec<T> = Vec::new();
        let mut nu: usize = 0;
        while nu < dim
            invariant
                0 <= nu <= dim,
                mu < dim,
                vals@.len() == dim,
                forall|r: int| 0 <= r < dim ==> (#[trigger] vals@[r])@.len() == r + 1,
                row@.len() == nu,
                forall|c: int|
                    0 <= c < nu ==> #[trigger] row@[c] == (if c <= mu {
                        vals@[mu as int]@[c]
                    } else {
                        vals@[c]@[mu as int]
                    }),
            decreases dim - nu,
        {
            if nu <= mu {
                row.push(vals[mu][nu]);
            } else {
                row.push(vals[nu][mu]);
            }
            nu += 1;
        }
        m.push(row);
        mu += 1;
    }
    m
}


/// Build the dense four-index tensor of a quadruple quantity: `f` is
/// evaluated once per canonical quadruple (`nu <= mu`, `si <= la`) and the
/// value mirrored into every index permutation the two pair symmetries give.
pub fn build_eri<T: Copy, F: Fn(usize, usize, usize, usize) -> T>(dim: usize, f: &F) -> (t: Vec<
    Vec<Vec<Vec<T>>>,
>)
    requires
        forall|mu: usize, nu: usize, la: usize, si: usize|
            nu <= mu < dim && si <= la < dim ==> call_requires(*f, (mu, nu, la, si)),
    ensures
        t@.len() == dim,
        forall|mu: int| 0 <= mu < dim ==> (#[trigger] t@[mu])@.len() == dim,
        forall|mu: int, nu: int|
            0 <= mu < dim && 0 <= nu < dim ==> (#[trigger] t@[mu]@[nu])@.len() == dim,
        forall|mu: int, nu: int, la: int|
            0 <= mu < dim && 0 <= nu < dim && 0 <= la < dim ==> (#[trigger] t@[mu]@[nu]@[la])@.len()
                == dim,
        forall|mu: usize, nu: usize, la: usize, si: usize|
            nu <= mu < dim && si <= la < dim ==> call_ensures(
                *f,
                (mu, nu, la, si),
                #[trigger] t@[mu as int]@[nu as int]@[la as int]@[si as int],
            ),
        forall|mu: int, nu: int, la: int, si: int|
            0 <= mu < dim && 0 <= nu < dim && 0 <= la < dim && 0 <= si < dim
                ==> #[trigger] t@[mu]@[nu]@[la]@[si] == t@[nu]@[mu]@[la]@[si] && t@[mu]@[nu]@[la]@[
                si
            ] == t@[mu]@[nu]@[si]@[la],
{
    // One symmetric (la, si) block per canonical pair nu <= mu.
    let mut blocks: Vec<Vec<Vec<Vec<T>>>> = Vec::new();
    let mut mu: usize = 0;
    while mu < dim
        invariant
            0 <= mu <= dim,
            forall|a: usize, b: usize, c: usize, d: usize|
                b <= a < dim && d <= c < dim ==> call_requires(*f, (a, b, c, d)),
            blocks@.len() == mu,
            forall|r: int| 0 <= r < mu ==> (#[trigger] blocks@[r])@.len() == r + 1,
            forall|r: int, c: int, la: int|
                0 <= c <= r < mu && 0 <= la < dim ==> (#[trigger] blocks@[r]@[c]@[la])@.len()
                    == dim,
            forall|r: int, c: int|
                0 <= c <= r < mu ==> (#[trigger] blocks@[r]@[c])@.len() == dim,
            forall|r: usize, c: usize, la: usize, si: usize|
                c <= r < mu && si <= la < dim ==> call_ensures(
                    *f,
                    (r, c, la, si),
                    #[trigger] blocks@[r as int]@[c as int]@[la as int]@[si as int],
                ),
            forall|r: int, c: int, la: int, si: int|
                0 <= c <= r < mu && 0 <= la < dim && 0 <= si < dim
                    ==> #[trigger] blocks@[r]@[c]@[la]@[si] == blocks@[r]@[c]@[si]@[la],
        decreases dim - mu,
    {
        let mut brow: Vec<Vec<Vec<T>>> = Vec::new();
        let mut nu: usize = 0;
        while nu <= mu
            invariant
                0 <= nu <= mu + 1,
                mu < dim,
                forall|a: usize, b: usize, c: usize, d: usize|
                    b <= a < dim && d <= c < dim ==> call_requires(*f, (a, b, c, d)),
                brow@.len() == nu,
                forall|c: int, la: int|
                    0 <= c < nu && 0 <= la < dim ==> (#[trigger] brow@[c]@[la])@.len() == dim,
                forall|c: int| 0 <= c < nu ==> (#[trigger] brow@[c])@.len() == dim,
                forall|c: usize, la: usize, si: usize|
                    c < nu && si <= la < dim ==> call_ensures(
                        *f,
                        (mu, c, la, si),
                        #[trigger] brow@[c as int]@[la as int]@[si as int],
                    ),
                forall|c: int, la: int, si: int|
                    0 <= c < nu && 0 <= la < dim && 0 <= si < dim ==> #[trigger] brow@[c]@[la]@[si]
                        == brow@[c]@[si]@[la],
            decreases mu + 1 - nu,
        {
            let g = |la: usize, si: usize| -> (r: T)
                requires
                    si <= la < dim,
                ensures
                    call_ensures(*f, (mu, nu, la, si), r),
                { f(mu, nu, la, si) };
            let block = build_symmetric(dim, &g);
            brow.push(block);
            nu += 1;
        }
        blocks.push(brow);
        mu += 1;
    }

    // The full tensor, mirroring the canonical pair of each block.
    let mut t: Vec<Vec<Vec<Vec<T>>>> = Vec::new();
    let mut mu: usize = 0;
    while mu < dim
        invariant
            0 <= mu <= dim,
            blocks@.len() == dim,
            forall|r: int| 0 <= r < dim ==> (#[trigger] blocks@[r])@.len() == r + 1,
            forall|r: int, c: int|
                0 <= c <= r < dim ==> (#[trigger] blocks@[r]@[c])@.len() == dim,
            forall|r: int, c: int, la: int|
                0 <= c <= r < dim && 0 <= la < dim ==> (#[trigger] blocks@[r]@[c]@[la])@.len()
                    == dim,
            forall|r: usize, c: usize, la: usize, si: usize|
                c <= r < dim && si <= la < dim ==> call_ensures(
                    *f,
                    (r, c, la, si),
                    #[trigger] blocks@[r as int]@[c as int]@[la as int]@[si as int],
                ),
            forall|r: int, c: int, la: int, si: int|
                0 <= c <= r < dim && 0 <= la < dim && 0 <= si < dim
                    ==> #[trigger] blocks@[r]@[c]@[la]@[si] == blocks@[r]@[c]@[si]@[la],
            t@.len() == mu,
            forall|r: int| 0 <= r < mu ==> (#[trigger] t@[r])@.len() == dim,
            forall|r: int, c: int|
                0 <= r < mu && 0 <= c < dim ==> (#[trigger] t@[r]@[c])@.len() == dim,
            forall|r: int, c: int, la: int|
                0 <= r < mu && 0 <= c < dim && 0 <= la < dim ==> (#[trigger] t@[r]@[c]@[la])@.len()
                    == dim,
            forall|r: int, c: int, la: int, si: int|
                0 <= r < mu && 0 <= c < dim && 0 <= la < dim && 0 <= si < dim
                    ==> #[trigger] t@[r]@[c]@[la]@[si] == (if c <= r {
                    blocks@[r]@[c]@[la]@[si]
                } else {
                    blocks@[c]@[r]@[la]@[si]
                }),
        decreases dim - mu,
    {
        let mut row3: Vec<Vec<Vec<T>>> = Vec::new();
        let mut nu: usize = 0;
        while nu < dim
            invariant
                0 <= nu <= dim,
                mu < dim,
                blocks@.len() == dim,
                forall|r: int| 0 <= r < dim ==> (#[trigger] blocks@[r])@.len() == r + 1,
                forall|r: int, c: int|
                    0 <= c <= r < dim ==> (#[trigger] blocks@[r]@[c])@.len() == dim,
                forall|r: int, c: int, la: int|
                    0 <= c <= r < dim && 0 <= la < dim ==> (#[trigger] blocks@[r]@[c]@[la])@.len()
                        == dim,
                row3@.len() == nu,
                forall|c: int| 0 <= c < nu ==> (#[trigger] row3@[c])@.len() == dim,
                forall|c: int, la: int|
                    0 <= c < nu && 0 <= la < dim ==> (#[trigger] row3@[c]@[la])@.len() == dim,
                forall|c: int, la: int, si: int|
                    0 <= c < nu && 0 <= la < dim && 0 <= si < dim ==> #[trigger] row3@[c]@[la]@[si]
                        == (if c <= mu {
                        blocks@[mu as int]@[c]@[la]@[si]
                    } else {
                        blocks@[c]@[mu as int]@[la]@[si]
                    }),
            decreases dim - nu,
        {
            let src = if nu <= mu {
                &blocks[mu][nu]
            } else {
                &blocks[nu][mu]
            };
            let mut block: Vec<Vec<T>> = Vec::new();
            let mut la: usize = 0;
            while la < dim
                invariant
                    0 <= la <= dim,
                    src@.len() == dim,
                    forall|a: int| 0 <= a < dim ==> (#[trigger] src@[a])@.len() == dim,
                    block@.len() == la,
                    forall|a: int| 0 <= a < la ==> (#[trigger] block@[a])@.len() == dim,
                    forall|a: int, b: int|
                        0 <= a < la && 0 <= b < dim ==> #[trigger] block@[a]@[b] == src@[a]@[b],
                decreases dim - la,
            {
                let mut line: Vec<T> = Vec::new();
                let mut si: usize = 0;
                while si < dim
                    invariant
                        0 <= si <= dim,
                        la < dim,
                        src@.len() == dim,
                        forall|a: int| 0 <= a < dim ==> (#[trigger] src@[a])@.len() == dim,
                        line@.len() == si,
                        forall|b: int|
                            0 <= b < si ==> #[trigger] line@[b] == src@[la as int]@[b],
                    decreases dim - si,
                {
                    line.push(src[la][si]);
                    si += 1;
                }
                block.push(line);
                la += 1;
            }
            row3.push(block);
            nu += 1;
        }
        t.push(row3);
        mu += 1;
    }
    t
}

} // verus!
