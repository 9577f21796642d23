// Numerical reduction of the verified expansions to integral values, checked
// against known values and against an independent Taylor--series-style
// reference implementation of the four-center integral.

use num_integer::binomial;
use rchem::matrix::build_eri;
use rchem::matrix::build_symmetric;
use rchem::os86::expand;
use rchem::os86::expand_coulomb;
use rchem::os86::X2kind;
use rchem::pyquante::fact_ratio2;
use std::f64::consts::PI;

/// The Boys function `F_m(x)`, by the incomplete-gamma series for moderate
/// arguments and upward recursion from the asymptotic form for large ones.
fn boys_ref(m: u64, x: f64) -> f64 {
    if x < 1.0e-13 {
        return 1.0 / (2.0 * m as f64 + 1.0);
    }
    if x < 35.0 {
        let s = m as f64 + 0.5;
        let mut term = 1.0 / s;
        let mut sum = term;
        let mut k: u64 = 1;
        loop {
            term *= x / (s + k as f64);
            sum += term;
            if term < sum * 1.0e-17 || k > 500 {
                break;
            }
            k += 1;
        }
        0.5 * (-x).exp() * sum
    } else {
        let mut f = 0.5 * (PI / x).sqrt();
        let ex = (-x).exp();
        let mut n: u64 = 0;
        while n < m {
            f = ((2.0 * n as f64 + 1.0) * f - ex) / (2.0 * x);
            n += 1;
        }
        f
    }
}

fn get_bi_center(z1: f64, z2: f64, r1: &[f64; 3], r2: &[f64; 3]) -> [f64; 3] {
    let z = z1 + z2;
    [
        (z1 * r1[0] + z2 * r2[0]) / z,
        (z1 * r1[1] + z2 * r2[1]) / z,
        (z1 * r1[2] + z2 * r2[2]) / z,
    ]
}

fn get_r12_squared(r1: &[f64; 3], r2: &[f64; 3]) -> f64 {
    (r1[0] - r2[0]).powi(2) + (r1[1] - r2[1]).powi(2) + (r1[2] - r2[2]).powi(2)
}

fn to_q6(c: &[usize; 6]) -> Vec<i8> {
    c.iter().map(|&v| v as i8).collect()
}

fn get_overlap(za: f64, zb: f64, ra: &[f64; 3], rb: &[f64; 3], c: &[usize; 6]) -> f64 {
    let z = za + zb;
    let e = za * zb / (za + zb);
    let rp = get_bi_center(za, zb, ra, rb);
    let ab = get_r12_squared(ra, rb);
    let aux = (-e * ab).exp() * (PI / z).powf(1.5);
    let prefac = [
        rp[0] - ra[0],
        rp[0] - rb[0],
        rp[1] - ra[1],
        rp[1] - rb[1],
        rp[2] - ra[2],
        rp[2] - rb[2],
        0.5 / z,
        0.5 / z,
    ];
    let expansion = expand(X2kind::S, to_q6(c), vec![0, 0, 0]).unwrap();
    let mut integral = 0.0;
    for f in expansion.iter() {
        let mut g = 1.0;
        for k in f.prefactors.iter() {
            g *= prefac[*k];
        }
        integral += f.scale as f64 * aux * g;
    }
    integral
}

fn get_kinetic(za: f64, zb: f64, ra: &[f64; 3], rb: &[f64; 3], c: &[usize; 6]) -> f64 {
    let z = za + zb;
    let e = za * zb / (za + zb);
    let rp = get_bi_center(za, zb, ra, rb);
    let ab = get_r12_squared(ra, rb);
    let aux = (-e * ab).exp() * (PI / z).powf(1.5);
    let prefac = [
        rp[0] - ra[0],
        rp[0] - rb[0],
        rp[1] - ra[1],
        rp[1] - rb[1],
        rp[2] - ra[2],
        rp[2] - rb[2],
        0.5 / z,
        0.5 / z,
        2.0 * e,
        -e / za,
        -e / zb,
    ];
    let expansion = expand(X2kind::T, to_q6(c), vec![0, 0, 0]).unwrap();
    let mut integral = 0.0;
    for f in expansion.iter() {
        let mut g = match f.kind {
            X2kind::T => e * (3.0 - 2.0 * e * ab),
            X2kind::S => 1.0,
            _ => unreachable!(),
        };
        for k in f.prefactors.iter() {
            g *= prefac[*k];
        }
        integral += f.scale as f64 * aux * g;
    }
    integral
}

fn get_nuclear(
    za: f64,
    zb: f64,
    ra: &[f64; 3],
    rb: &[f64; 3],
    rc: &[f64; 3],
    c: &[usize; 6],
) -> f64 {
    let z = za + zb;
    let rp = get_bi_center(za, zb, ra, rb);
    let pc = get_r12_squared(&rp, rc);
    let u = z * pc;
    let aux = -2.0 * (z / PI).powf(0.5) * get_overlap(za, zb, ra, rb, &[0, 0, 0, 0, 0, 0]);
    let prefac = [
        rp[0] - ra[0],
        rp[0] - rb[0],
        rp[1] - ra[1],
        rp[1] - rb[1],
        rp[2] - ra[2],
        rp[2] - rb[2],
        -rp[0] + rc[0],
        -rp[1] + rc[1],
        -rp[2] + rc[2],
        0.5 / z,
        -0.5 / z,
    ];
    let expansion = expand(X2kind::V, to_q6(c), vec![0, 0, 0]).unwrap();
    let mut integral = 0.0;
    for f in expansion.iter() {
        let mut g = 1.0;
        for k in f.prefactors.iter() {
            g *= prefac[*k];
        }
        integral += f.scale as f64 * aux * g * boys_ref(f.order.into(), u);
    }
    integral
}

fn get_moment(
    za: f64,
    zb: f64,
    ra: &[f64; 3],
    rb: &[f64; 3],
    rc: &[f64; 3],
    c: &[usize; 6],
    order: &[u8; 3],
) -> f64 {
    let z = za + zb;
    let rp = get_bi_center(za, zb, ra, rb);
    let aux = get_overlap(za, zb, ra, rb, &[0, 0, 0, 0, 0, 0]);
    let prefac = [
        rp[0] - ra[0],
        rp[0] - rb[0],
        rp[1] - ra[1],
        rp[1] - rb[1],
        rp[2] - ra[2],
        rp[2] - rb[2],
        rp[0] - rc[0],
        rp[1] - rc[1],
        rp[2] - rc[2],
        0.5 / z,
        0.5 / z,
        0.5 / z,
    ];
    let operator: Vec<i8> = order.iter().map(|&v| v as i8).collect();
    let expansion = expand(X2kind::M, to_q6(c), operator).unwrap();
    let mut integral = 0.0;
    for f in expansion.iter() {
        let mut g = 1.0;
        for k in f.prefactors.iter() {
            g *= prefac[*k];
        }
        integral += f.scale as f64 * aux * g;
    }
    integral
}

fn get_k(z1: f64, z2: f64, r1: &[f64; 3], r2: &[f64; 3]) -> f64 {
    let r12 = get_r12_squared(r1, r2);
    let f0 = z1 + z2;
    let f2 = if r12 > 0.0 {
        (-z1 * z2 * r12 / f0).exp()
    } else {
        1.0
    };
    (2.0_f64).sqrt() * f2 * PI.powf(5.0 / 4.0) / f0
}

fn get_aux(
    za: f64,
    zb: f64,
    zc: f64,
    zd: f64,
    ra: &[f64; 3],
    rb: &[f64; 3],
    rc: &[f64; 3],
    rd: &[f64; 3],
) -> f64 {
    let k1 = get_k(za, zb, ra, rb);
    let k2 = get_k(zc, zd, rc, rd);
    k1 * k2 / (za + zb + zc + zd).sqrt()
}

fn get_coulomb(
    za: f64,
    zb: f64,
    zc: f64,
    zd: f64,
    ra: &[f64; 3],
    rb: &[f64; 3],
    rc: &[f64; 3],
    rd: &[f64; 3],
    c: &[usize; 12],
) -> f64 {
    let rp = get_bi_center(za, zb, ra, rb);
    let rq = get_bi_center(zc, zd, rc, rd);
    let rw = get_bi_center(za + zb, zc + zd, &rp, &rq);
    let z = za + zb;
    let n = zc + zd;
    let rho = z * n / (z + n);
    let t = rho * get_r12_squared(&rp, &rq);
    let s = get_aux(za, zb, zc, zd, ra, rb, rc, rd);
    let prefac = [
        rp[0] - ra[0],
        rp[0] - rb[0],
        rq[0] - rc[0],
        rq[0] - rd[0],
        rw[0] - rp[0],
        rw[0] - rq[0],
        rp[1] - ra[1],
        rp[1] - rb[1],
        rq[1] - rc[1],
        rq[1] - rd[1],
        rw[1] - rp[1],
        rw[1] - rq[1],
        rp[2] - ra[2],
        rp[2] - rb[2],
        rq[2] - rc[2],
        rq[2] - rd[2],
        rw[2] - rp[2],
        rw[2] - rq[2],
        0.5 / z,
        0.5 / n,
        -0.5 * rho / (z * z),
        -0.5 * rho / (n * n),
        0.5 / (z + n),
    ];
    let q: Vec<i8> = c.iter().map(|&v| v as i8).collect();
    let expansion = expand_coulomb(q).unwrap();
    let mut integral = 0.0;
    let c_sum: usize = c.iter().sum();
    for i in 0..(c_sum + 1) {
        let b = boys_ref(i as u64, t) * s;
        for f in expansion.iter() {
            if f.order as usize == i {
                let mut g = 1.0;
                for k in f.prefactors.iter() {
                    g *= prefac[*k];
                }
                integral += f.scale as f64 * b * g;
            }
        }
    }
    integral
}

// ----- an independent reference engine for the four-center integral -----

fn fact_ratio2_f(a: i64, b: i64) -> f64 {
    fact_ratio2(a, b) as f64
}

fn bfunc(i: i64, r: i64, g: f64) -> f64 {
    fact_ratio2_f(i, r) * (4.0 * g).powf((r - i) as f64)
}

fn binomial_prefactor(s: i64, ia: i64, ib: i64, xpa: f64, xpb: f64) -> f64 {
    let mut result = 0.0;
    for t in 0..=s {
        if ((s - ia) <= t) && (t <= ib) {
            result += (binomial(ia, s - t) * binomial(ib, t)) as f64
                * xpa.powi((ia - s + t) as i32)
                * xpb.powi((ib - t) as i32);
        }
    }
    result
}

fn fgamma(m: i64, x: f64) -> f64 {
    let small = 1.0e-8;
    let actual_x = if x.abs() < small { small } else { x };
    boys_ref(m as u64, actual_x)
}

fn fb(i: i64, l1: i64, l2: i64, px: f64, ax: f64, bx: f64, r: i64, g: f64) -> f64 {
    binomial_prefactor(i, l1, l2, px - ax, px - bx) * bfunc(i, r, g)
}

fn dist2(xa: f64, ya: f64, za: f64, xb: f64, yb: f64, zb: f64) -> f64 {
    (xa - xb).powf(2.0) + (ya - yb).powf(2.0) + (za - zb).powf(2.0)
}

fn product_center_1d(za: f64, xa: f64, zb: f64, xb: f64) -> f64 {
    ((za * xa) + (zb * xb)) / (za + zb)
}

fn b_term(
    i1: i64,
    i2: i64,
    r1: i64,
    r2: i64,
    u: i64,
    l1: i64,
    l2: i64,
    l3: i64,
    l4: i64,
    px: f64,
    ax: f64,
    bx: f64,
    qx: f64,
    cx: f64,
    dx: f64,
    gamma1: f64,
    gamma2: f64,
    delta: f64,
) -> f64 {
    fb(i1, l1, l2, px, ax, bx, r1, gamma1)
        * ((-1_i64).pow(i2 as u32) as f64)
        * fb(i2, l3, l4, qx, cx, dx, r2, gamma2)
        * ((-1_i64).pow(u as u32) as f64)
        * fact_ratio2_f(i1 + i2 - 2 * (r1 + r2), u)
        * (qx - px).powf((i1 + i2 - 2 * (r1 + r2) - 2 * u) as f64)
        / delta.powi((i1 + i2 - 2 * (r1 + r2) - u) as i32)
}

fn b_array(
    l1: i64,
    l2: i64,
    l3: i64,
    l4: i64,
    p: f64,
    a: f64,
    b: f64,
    q: f64,
    c: f64,
    d: f64,
    g1: f64,
    g2: f64,
    delta: f64,
) -> Vec<f64> {
    let mut res = vec![0.0; (l1 + l2 + l3 + l4 + 1) as usize];
    for i1 in 0..l1 + l2 + 1 {
        for i2 in 0..l3 + l4 + 1 {
            for r1 in 0..i1 / 2 + 1 {
                for r2 in 0..i2 / 2 + 1 {
                    for u in 0..(i1 + i2) / 2 - r1 - r2 + 1 {
                        let i = (i1 + i2 - 2 * (r1 + r2) - u) as usize;
                        res[i] += b_term(
                            i1, i2, r1, r2, u, l1, l2, l3, l4, p, a, b, q, c, d, g1, g2, delta,
                        );
                    }
                }
            }
        }
    }
    res
}

#[allow(clippy::too_many_arguments)]
fn coulomb_repulsion(
    xa: f64,
    ya: f64,
    za: f64,
    norma: f64,
    la: i64,
    ma: i64,
    na: i64,
    alphaa: f64,
    xb: f64,
    yb: f64,
    zb: f64,
    normb: f64,
    lb: i64,
    mb: i64,
    nb: i64,
    alphab: f64,
    xc: f64,
    yc: f64,
    zc: f64,
    normc: f64,
    lc: i64,
    mc: i64,
    nc: i64,
    alphac: f64,
    xd: f64,
    yd: f64,
    zd: f64,
    normd: f64,
    ld: i64,
    md: i64,
    nd: i64,
    alphad: f64,
) -> f64 {
    let rab2 = dist2(xa, ya, za, xb, yb, zb);
    let rcd2 = dist2(xc, yc, zc, xd, yd, zd);
    let xp = product_center_1d(alphaa, xa, alphab, xb);
    let yp = product_center_1d(alphaa, ya, alphab, yb);
    let zp = product_center_1d(alphaa, za, alphab, zb);
    let xq = product_center_1d(alphac, xc, alphad, xd);
    let yq = product_center_1d(alphac, yc, alphad, yd);
    let zq = product_center_1d(alphac, zc, alphad, zd);
    let rpq2 = dist2(xp, yp, zp, xq, yq, zq);
    let gamma1 = alphaa + alphab;
    let gamma2 = alphac + alphad;
    let delta = (1. / gamma1 + 1. / gamma2) / 4.;
    let bx = b_array(la, lb, lc, ld, xp, xa, xb, xq, xc, xd, gamma1, gamma2, delta);
    let by = b_array(ma, mb, mc, md, yp, ya, yb, yq, yc, yd, gamma1, gamma2, delta);
    let bz = b_array(na, nb, nc, nd, zp, za, zb, zq, zc, zd, gamma1, gamma2, delta);
    let mut sum = 0.0;
    let imax = (la + lb + lc + ld + 1) as usize;
    let jmax = (ma + mb + mc + md + 1) as usize;
    let kmax = (na + nb + nc + nd + 1) as usize;
    for i in 0..imax {
        for j in 0..jmax {
            for k in 0..kmax {
                sum += bx[i] * by[j] * bz[k] * fgamma((i + j + k) as i64, 0.25 * rpq2 / delta);
            }
        }
    }
    2.0 * PI.powf(2.5)
        * (-alphaa * alphab * rab2 / gamma1).exp()
        * (-alphac * alphad * rcd2 / gamma2).exp()
        * sum
        * norma
        * normb
        * normc
        * normd
        / (gamma1 * gamma2 * (gamma1 + gamma2).sqrt())
}

// ----- known-value regressions -----

#[test]
fn test_get_overlap() {
    let za = 1.8;
    let zb = 2.8;
    let ra = [0.0, 0.0, 0.0];
    let rb = [0.5, 0.8, -0.2];

    let thresh = 1.0e-16;

    let integral = get_overlap(za, zb, &ra, &rb, &[0, 0, 0, 0, 0, 0]);
    assert!((integral - 0.20373275913014607).abs() < thresh);

    let integral = get_overlap(za, zb, &ra, &rb, &[1, 0, 0, 0, 0, 0]);
    assert!((integral - 0.062005622343957505).abs() < thresh);

    let integral = get_overlap(za, zb, &ra, &rb, &[1, 1, 0, 1, 1, 0]);
    assert!((integral - -0.00043801221837779696).abs() < thresh);

    let integral = get_overlap(za, zb, &ra, &rb, &[2, 1, 0, 1, 1, 0]);
    assert!((integral - -0.0002385994651113168).abs() < thresh);
}

#[test]
fn test_get_kinetic() {
    let za = 1.8;
    let zb = 2.0;
    let ra = [0.0, 0.0, 0.0];
    let rb = [0.5, 0.8, -0.2];

    let thresh = 1.0e-16;

    let integral = get_kinetic(za, zb, &ra, &rb, &[0, 0, 0, 0, 0, 0]);
    assert!((integral - 0.3652714583525358).abs() < thresh);

    let integral = get_kinetic(za, zb, &ra, &rb, &[1, 0, 0, 0, 0, 0]);
    assert!((integral - 0.2514265587836556).abs() < thresh);

    let integral = get_kinetic(za, zb, &ra, &rb, &[2, 2, 2, 2, 2, 2]);
    assert!((integral - -7.40057384314e-05).abs() < thresh);
}

#[test]
fn test_get_nuclear() {
    let za = 1.8;
    let zb = 2.0;
    let ra = [0.0, 0.0, 0.0];
    let rb = [0.5, 0.8, -0.2];
    let rc = [0.5, 0.8, 0.2];

    let thresh = 1.0e-12;

    let integral = get_nuclear(za, zb, &ra, &rb, &rc, &[0, 0, 0, 0, 0, 0]);
    assert!((integral - -0.49742209545104593).abs() < thresh);

    let integral = get_nuclear(za, zb, &ra, &rb, &rc, &[1, 0, 0, 0, 0, 0]);
    assert!((integral - -0.15987439458254471).abs() < thresh);

    let integral = get_nuclear(za, zb, &ra, &rb, &rc, &[2, 2, 2, 0, 0, 0]);
    assert!((integral - -0.003801373531942607).abs() < thresh);

    let integral = get_nuclear(za, zb, &ra, &rb, &rc, &[1, 1, 1, 1, 1, 1]);
    assert!((integral - 8.8415484347060993e-5).abs() < thresh);
}

#[test]
fn test_get_moment() {
    let za = 1.8;
    let zb = 2.0;
    let ra = [0.0, 0.0, 0.0];
    let rb = [0.5, 0.8, -0.2];
    let rc = [0.0, 0.0, 0.0];

    let thresh = 1.0e-16;

    let integral = get_moment(za, zb, &ra, &rb, &rc, &[0, 0, 2, 0, 0, 0], &[0, 0, 1]);
    assert!((integral - -0.01330515491323708).abs() < thresh);
}

#[test]
fn test_get_coulomb() {
    let za = 1.1;
    let zb = 1.2;
    let zc = 1.3;
    let zd = 1.4;

    let ra = [1.0, 0.0, 1.0];
    let rb = [0.0, 1.0, 2.0];
    let rc = [0.0, 0.0, 3.0];
    let rd = [0.0, 0.0, 4.0];

    let thresh = 1.0e-12;

    let reference = 0.08608517834596989;
    let integral = get_coulomb(
        za,
        zb,
        zc,
        zd,
        &ra,
        &rb,
        &rc,
        &rd,
        &[0, 0, 0, 0, 0, 0, 0, 0, 0, 0, 0, 0],
    );
    assert!((integral - reference).abs() < thresh);

    let reference = -0.046888060557776973;
    let integral = get_coulomb(
        za,
        zb,
        zc,
        zd,
        &ra,
        &rb,
        &rc,
        &rd,
        &[1, 0, 0, 0, 0, 0, 0, 0, 0, 0, 0, 0],
    );
    assert!((integral - reference).abs() < thresh);

    let reference = 1.71817807954e-05;
    let integral = get_coulomb(
        za,
        zb,
        zc,
        zd,
        &ra,
        &rb,
        &rc,
        &rd,
        &[2, 1, 0, 1, 0, 0, 1, 0, 0, 0, 1, 0],
    );
    assert!((integral - reference).abs() < thresh);
}

// ----- the reference-engine ports -----

#[test]
fn test_dist2() {
    assert!((dist2(0.5, 0.6, 0.7, 0.8, 0.9, 1.0) - 0.27).abs() <= f64::EPSILON);
}

#[test]
fn test_product_center_1d() {
    assert_eq!(product_center_1d(2.0, 3.0, 4.0, 5.0), 26.0 / 6.0);
}

#[test]
fn test_binomial_prefactor() {
    assert!((binomial_prefactor(1, 1, 1, 0.1, 0.2) - 0.3).abs() <= f64::EPSILON);
    assert!((binomial_prefactor(1, 1, 1, 0.3, 0.4) - 0.7).abs() <= f64::EPSILON);
    assert!((binomial_prefactor(1, 3, 1, 0.1, 0.2) - 0.007).abs() <= f64::EPSILON);
    assert!((binomial_prefactor(2, 3, 1, 0.1, 0.2) - 0.09).abs() <= f64::EPSILON);
}

#[test]
fn test_coulomb_repulsion() {
    let za = 1.1;
    let zb = 1.2;
    let zc = 1.3;
    let zd = 1.4;

    let ra = [1.0, 0.0, 1.0];
    let rb = [0.0, 1.0, 2.0];
    let rc = [0.0, 0.0, 3.0];
    let rd = [0.0, 0.0, 4.0];

    let thresh = 1.0e-12;

    let reference = 0.08608517834596989;
    let integral = coulomb_repulsion(
        ra[0], ra[1], ra[2], 1.0, 0, 0, 0, za, rb[0], rb[1], rb[2], 1.0, 0, 0, 0, zb, rc[0],
        rc[1], rc[2], 1.0, 0, 0, 0, zc, rd[0], rd[1], rd[2], 1.0, 0, 0, 0, zd,
    );
    println!("{}", integral);
    println!("{}", reference);
    assert!((integral - reference).abs() < thresh);
}

// Cross-engine agreement: the recursion engine and the independent reference
// engine agree for a sweep of angular momenta up to total momentum two per
// center.
#[test]
fn cross_engine_agreement() {
    let za = 1.1;
    let zb = 1.2;
    let zc = 1.3;
    let zd = 1.4;
    let ra = [1.0, 0.0, 1.0];
    let rb = [0.0, 1.0, 2.0];
    let rc = [0.0, 0.0, 3.0];
    let rd = [0.0, 0.0, 4.0];
    let cases: [[usize; 12]; 10] = [
        [0, 0, 0, 0, 0, 0, 0, 0, 0, 0, 0, 0],
        [1, 0, 0, 0, 0, 0, 0, 0, 0, 0, 0, 0],
        [0, 1, 0, 0, 0, 0, 0, 0, 0, 0, 0, 0],
        [0, 0, 1, 0, 0, 1, 0, 0, 0, 0, 0, 0],
        [2, 0, 0, 0, 0, 0, 0, 0, 0, 0, 0, 0],
        [1, 1, 0, 0, 0, 0, 0, 0, 0, 0, 0, 0],
        [1, 0, 0, 1, 0, 0, 1, 0, 0, 1, 0, 0],
        [0, 2, 0, 0, 1, 0, 0, 0, 1, 0, 0, 0],
        [2, 0, 0, 0, 2, 0, 0, 0, 2, 0, 0, 0],
        [1, 1, 0, 0, 1, 1, 1, 0, 1, 2, 0, 0],
    ];
    for c in cases.iter() {
        let by_recursion = get_coulomb(za, zb, zc, zd, &ra, &rb, &rc, &rd, c);
        let by_reference = coulomb_repulsion(
            ra[0], ra[1], ra[2], 1.0, c[0] as i64, c[1] as i64, c[2] as i64, za, rb[0], rb[1],
            rb[2], 1.0, c[3] as i64, c[4] as i64, c[5] as i64, zb, rc[0], rc[1], rc[2], 1.0,
            c[6] as i64, c[7] as i64, c[8] as i64, zc, rd[0], rd[1], rd[2], 1.0, c[9] as i64,
            c[10] as i64, c[11] as i64, zd,
        );
        assert!(
            (by_recursion - by_reference).abs() < 1.0e-12,
            "disagreement on {:?}: {} vs {}",
            c,
            by_recursion,
            by_reference
        );
    }
}

// ----- primitive normalization and self-overlap -----

fn normalization(exponent: f64, powers: &[usize; 3]) -> f64 {
    let order = powers[0] + powers[1] + powers[2];
    let numer = 2f64.powf(2.0 * order as f64 + 1.5) * exponent.powf(order as f64 + 1.5);
    let l = powers[0] as isize;
    let m = powers[1] as isize;
    let n = powers[2] as isize;
    let denom = (rchem::basis::fact2(2 * l - 1)
        * rchem::basis::fact2(2 * m - 1)
        * rchem::basis::fact2(2 * n - 1)) as f64
        * PI.powf(1.5);
    (numer / denom).powf(0.5)
}

// Self-overlap positivity: any primitive overlaps itself positively, and its
// normalization constant scales that self-overlap to one.
#[test]
fn self_overlap_positivity() {
    let origin = [0.3, -0.4, 1.1];
    let primitives: [(f64, [usize; 3]); 5] = [
        (0.7, [0, 0, 0]),
        (1.3, [1, 0, 0]),
        (2.1, [0, 2, 0]),
        (0.9, [1, 1, 1]),
        (1.7, [2, 0, 1]),
    ];
    for (exponent, powers) in primitives.iter() {
        let c = [
            powers[0], powers[1], powers[2], powers[0], powers[1], powers[2],
        ];
        let s = get_overlap(*exponent, *exponent, &origin, &origin, &c);
        assert!(s > 0.0);
        let norm = normalization(*exponent, powers);
        assert!((norm * norm * s - 1.0).abs() < 1.0e-12);
    }
}

// ----- assembled matrices -----

// Symmetry of the one-electron matrices: each is computed on the lower
// triangle and mirrored, so equality across the diagonal is exact.
#[test]
fn matrix_symmetry() {
    let exps = [1.8, 2.8, 0.9];
    let origins = [[0.0, 0.0, 0.0], [0.5, 0.8, -0.2], [0.1, -0.3, 0.4]];
    let powers: [[usize; 3]; 3] = [[0, 0, 0], [1, 0, 0], [0, 1, 1]];
    let rc = [0.5, 0.8, 0.2];
    let dim = 3;

    let cell_s = |mu: usize, nu: usize| -> f64 {
        let c = [
            powers[mu][0],
            powers[mu][1],
            powers[mu][2],
            powers[nu][0],
            powers[nu][1],
            powers[nu][2],
        ];
        get_overlap(exps[mu], exps[nu], &origins[mu], &origins[nu], &c)
    };
    let s = build_symmetric(dim, &cell_s);
    let cell_t = |mu: usize, nu: usize| -> f64 {
        let c = [
            powers[mu][0],
            powers[mu][1],
            powers[mu][2],
            powers[nu][0],
            powers[nu][1],
            powers[nu][2],
        ];
        get_kinetic(exps[mu], exps[nu], &origins[mu], &origins[nu], &c)
    };
    let t = build_symmetric(dim, &cell_t);
    let cell_v = |mu: usize, nu: usize| -> f64 {
        let c = [
            powers[mu][0],
            powers[mu][1],
            powers[mu][2],
            powers[nu][0],
            powers[nu][1],
            powers[nu][2],
        ];
        get_nuclear(exps[mu], exps[nu], &origins[mu], &origins[nu], &rc, &c)
    };
    let v = build_symmetric(dim, &cell_v);
    for mu in 0..dim {
        for nu in 0..dim {
            assert_eq!(s[mu][nu], s[nu][mu]);
            assert_eq!(t[mu][nu], t[nu][mu]);
            assert_eq!(v[mu][nu], v[nu][mu]);
        }
    }
    // a spot value: the diagonal of S for an s-type primitive
    assert!((s[0][0] - get_overlap(1.8, 1.8, &origins[0], &origins[0], &[0, 0, 0, 0, 0, 0])).abs() < 1.0e-15);
}

// Permutational symmetry of the two-electron tensor: every element equals its
// bra-swapped and ket-swapped images exactly.
#[test]
fn eri_permutational_symmetry() {
    let exps = [1.1, 1.4];
    let origins = [[1.0, 0.0, 1.0], [0.0, 1.0, 2.0]];
    let powers: [[usize; 3]; 2] = [[0, 0, 0], [1, 0, 0]];
    let dim = 2;
    let cell = |mu: usize, nu: usize, la: usize, si: usize| -> f64 {
        let c = [
            powers[mu][0],
            powers[mu][1],
            powers[mu][2],
            powers[nu][0],
            powers[nu][1],
            powers[nu][2],
            powers[la][0],
            powers[la][1],
            powers[la][2],
            powers[si][0],
            powers[si][1],
            powers[si][2],
        ];
        get_coulomb(
            exps[mu],
            exps[nu],
            exps[la],
            exps[si],
            &origins[mu],
            &origins[nu],
            &origins[la],
            &origins[si],
            &c,
        )
    };
    let eri = build_eri(dim, &cell);
    for mu in 0..dim {
        for nu in 0..dim {
            for la in 0..dim {
                for si in 0..dim {
                    let base = eri[mu][nu][la][si];
                    assert_eq!(base, eri[nu][mu][la][si]);
                    assert_eq!(base, eri[mu][nu][si][la]);
                    assert_eq!(base, eri[nu][mu][si][la]);
                }
            }
        }
    }
}
