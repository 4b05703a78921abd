use circle_fold::bitrev::circle_bitrev_permute;
use circle_fold::domain::CircleDomain;
use circle_fold::ext::EF;
use circle_fold::fold::{fold_bivariate, CircleFriFolder, RowMajorMatrix};
use circle_fold::m31::{batch_inverse_or_zero, inverse_or_zero, M31, P};
use circle_fold::point::Point;

fn ef(a: u32, b: u32, c: u32) -> EF {
    EF::new(M31::new(a), M31::new(b), M31::new(c))
}

#[test]
fn test_m31_arithmetic_values() {
    assert_eq!(M31::new(P).value(), 0);
    assert_eq!(M31::new(3).mul(M31::new(5)).value(), 15);
    assert_eq!(M31::new(1).halve().value(), 1 << 30);
    assert_eq!(M31::new(7).sub(M31::new(9)).value(), P - 2);
    let two = M31::new(2);
    assert_eq!(inverse_or_zero(two).mul(two).value(), 1);
    assert_eq!(inverse_or_zero(M31::zero()).value(), 0);
}

#[test]
fn test_batch_inverse_matches_single() {
    let xs: Vec<M31> = vec![1, 2, 3, 12345, P - 1]
        .into_iter()
        .map(M31::new)
        .collect();
    let invs = batch_inverse_or_zero(&xs);
    for (x, inv) in xs.iter().zip(invs.iter()) {
        assert_eq!(x.mul(*inv).value(), 1);
        assert_eq!(inverse_or_zero(*x).value(), inv.value());
    }
    let with_zero: Vec<M31> = vec![M31::new(4), M31::zero(), M31::new(9)];
    let invs = batch_inverse_or_zero(&with_zero);
    assert_eq!(invs[1].value(), 0);
    assert_eq!(with_zero[0].mul(invs[0]).value(), 1);
    assert_eq!(with_zero[2].mul(invs[2]).value(), 1);
}

#[test]
fn test_ext_field_values() {
    // X * X^2 == X^3 == 5 in the cubic extension.
    let x1 = ef(0, 1, 0);
    let x2 = ef(0, 0, 1);
    assert_eq!(x1.mul(x2), ef(5, 0, 0));
    // (1 + X)^2 == 1 + 2X + X^2.
    let s = ef(1, 1, 0);
    assert_eq!(s.mul(s), ef(1, 2, 1));
    assert_eq!(ef(2, 4, 6).halve(), ef(1, 2, 3));
    assert_eq!(ef(1, 2, 3).sub(ef(1, 2, 3)), EF::zero());
}

#[test]
fn test_generator_table_values() {
    // The canonical generators of the smallest subgroups, and the full one.
    let g1 = Point::circle_two_adic_generator(1);
    assert_eq!(g1.real_part().value(), P - 1);
    assert_eq!(g1.imag_part().value(), 0);
    let g2 = Point::circle_two_adic_generator(2);
    assert_eq!(g2.real_part().value(), 0);
    assert_eq!(g2.imag_part().value(), P - 1);
    let g3 = Point::circle_two_adic_generator(3);
    assert_eq!(g3.real_part().value(), 32_768);
    assert_eq!(g3.imag_part().value(), 2_147_450_879);
    let g31 = Point::circle_two_adic_generator(31);
    assert_eq!(g31.real_part().value(), 311_014_874);
    assert_eq!(g31.imag_part().value(), 1_584_694_829);
}

#[test]
fn test_domain_points_on_circle() {
    let domain = CircleDomain::standard(3);
    let pts = domain.points();
    assert_eq!(pts.len(), 8);
    for p in &pts {
        let x = p.real_part();
        let y = p.imag_part();
        assert_eq!(x.mul(x).add(y.mul(y)).value(), 1);
    }
    // Consecutive points differ by the subgroup generator.
    let g = Point::circle_two_adic_generator(3);
    for k in 0..7 {
        assert_eq!(pts[k].mul(g), pts[k + 1]);
    }
}

#[test]
fn test_row_matrix_equivalence() {
    // The single-row fold must agree with the bulk fold at every index,
    // for every round size tried.
    let beta = ef(1234, 5678, 91011);
    for log_height in 0..4usize {
        let h = 1usize << log_height;
        let mut evals: Vec<EF> = Vec::new();
        for i in 0..2 * h {
            let i = i as u32;
            evals.push(ef(3 * i + 1, 7 * i + 2, 11 * i * i + 5));
        }
        let m = RowMajorMatrix::new(evals.clone(), 2);
        let folded = CircleFriFolder::fold_matrix(m, beta);
        assert_eq!(folded.len(), h);
        for index in 0..h {
            let row = [evals[2 * index], evals[2 * index + 1]];
            let single = CircleFriFolder::fold_row(index, log_height, &row, beta);
            assert_eq!(single, folded[index]);
        }
    }
}

#[test]
fn test_fold_constant_vector() {
    // A constant evaluation vector stays the same constant through both
    // kinds of round.
    let c = ef(42, 99, 7);
    let beta = ef(5, 6, 7);
    let evals: Vec<EF> = vec![c; 16];
    let folded = fold_bivariate(RowMajorMatrix::new(evals, 2), beta);
    assert_eq!(folded, vec![c; 8]);
    let folded = CircleFriFolder::fold_matrix(RowMajorMatrix::new(folded, 2), beta);
    assert_eq!(folded, vec![c; 4]);
}

#[test]
fn test_fold_row_constant_pair() {
    // On a constant pair the difference term vanishes and halving undoes
    // the doubled sum, whatever the index, round size and challenge.
    let c = ef(31337, 271828, 141421);
    for log_height in 0..4usize {
        let beta = ef(9, 8, 7);
        let row = [c, c];
        for index in 0..(1usize << log_height) {
            assert_eq!(CircleFriFolder::fold_row(index, log_height, &row, beta), c);
        }
    }
}

#[test]
fn test_beta_linearity() {
    // The folded value is affine in the challenge: the value at an
    // interpolated challenge is the interpolation of the values.
    let e0 = ef(123, 456, 789);
    let e1 = ef(1011, 1213, 1415);
    let row = [e0, e1];
    let b1 = ef(21, 34, 55);
    let b2 = ef(89, 144, 233);
    let l = ef(377, 610, 987);
    let b3 = b1.add(l.mul(b2.sub(b1)));
    for log_height in 0..3usize {
        for index in 0..(1usize << log_height) {
            let f1 = CircleFriFolder::fold_row(index, log_height, &row, b1);
            let f2 = CircleFriFolder::fold_row(index, log_height, &row, b2);
            let f3 = CircleFriFolder::fold_row(index, log_height, &row, b3);
            assert_eq!(f3, f1.add(l.mul(f2.sub(f1))));
        }
    }
}

fn do_test_folding(log_n: usize, log_blowup: usize) {
    // Evaluations of the low-degree function a + b*y + c*x over the whole
    // blown-up domain: one bivariate round folds away the y part, the next
    // recursive round folds away the x part, and the remaining rounds carry
    // a constant, mirroring the degree bound.
    let log_size = log_n + log_blowup;
    let a = ef(17, 23, 31);
    let b = ef(5, 0, 2);
    let c = ef(3, 13, 8);
    let domain = CircleDomain::standard(log_size);
    let mut evals: Vec<EF> = domain
        .points()
        .iter()
        .map(|p| {
            a.add(b.scale(p.imag_part())).add(c.scale(p.real_part()))
        })
        .collect();
    assert_eq!(evals.len(), 1 << log_size);

    evals = circle_bitrev_permute(&evals);

    let beta0 = ef(71, 72, 73);
    evals = fold_bivariate(RowMajorMatrix::new(evals, 2), beta0);
    let mut round = 1u32;
    for _ in log_blowup..(log_n + log_blowup - 1) {
        let beta = ef(100 + round, 200 + round, 300 + round);
        evals = CircleFriFolder::fold_matrix(RowMajorMatrix::new(evals, 2), beta);
        round += 1;
    }
    assert_eq!(evals.len(), 1 << log_blowup);
    for v in &evals {
        assert_eq!(*v, evals[0]);
    }
}

#[test]
fn test_folding() {
    do_test_folding(4, 1);
    do_test_folding(5, 2);
}
