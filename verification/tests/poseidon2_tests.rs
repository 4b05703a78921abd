use circle_fold::poseidon2::{KoalaBearInternalLayerParameters, KB, PK};

const PKU: u64 = PK as u64;

fn halve_u(x: u64) -> u64 {
    if x % 2 == 0 {
        x / 2
    } else {
        (x + PKU) / 2
    }
}

// An independent oracle for one diagonal lane: sign * mul * x / 2^shift,
// combined with the round sum.
fn oracle(x: u64, mul: u64, shift: u32, sub: bool, sum: u64) -> u64 {
    let mut y = (mul * x) % PKU;
    for _ in 0..shift {
        y = halve_u(y);
    }
    if sub {
        (sum + PKU - y) % PKU
    } else {
        (sum + y) % PKU
    }
}

// (mul, shift, sub) per lane, after the separately-handled first element.
const TABLE16: [(u64, u32, bool); 15] = [
    (1, 0, false),
    (2, 0, false),
    (1, 1, false),
    (3, 0, false),
    (4, 0, false),
    (1, 1, true),
    (3, 0, true),
    (4, 0, true),
    (1, 8, false),
    (1, 8, true),
    (1, 3, false),
    (1, 3, true),
    (1, 4, true),
    (1, 24, false),
    (1, 24, true),
];

const TABLE24: [(u64, u32, bool); 23] = [
    (1, 0, false),
    (2, 0, false),
    (1, 1, false),
    (3, 0, false),
    (4, 0, false),
    (1, 1, true),
    (3, 0, true),
    (4, 0, true),
    (1, 8, false),
    (1, 8, true),
    (1, 2, false),
    (1, 3, false),
    (1, 3, true),
    (1, 4, false),
    (1, 4, true),
    (1, 5, false),
    (1, 5, true),
    (1, 6, false),
    (1, 6, true),
    (1, 7, true),
    (1, 9, true),
    (1, 24, false),
    (1, 24, true),
];

#[test]
fn test_kb_arithmetic_values() {
    assert_eq!(KB::new(PK).value(), 0);
    assert_eq!(KB::new(1).halve().value(), (PK + 1) / 2);
    assert_eq!(KB::new(1).halve().value(), 1_065_353_217);
    assert_eq!(KB::new(5).add(KB::new(9)).value(), 14);
    assert_eq!(KB::new(5).sub(KB::new(9)).value(), PK - 4);
    assert_eq!(KB::new(7).mul_small(4).value(), 28);
    assert_eq!(KB::new(3).halve_n(2).value(), oracle(3, 1, 2, false, 0) as u32);
}

#[test]
fn test_internal_layer_width_16() {
    let mut state: Vec<KB> = (0u32..15).map(|i| KB::new(97 * i + 13)).collect();
    let inputs: Vec<u64> = state.iter().map(|x| x.value() as u64).collect();
    let sum = KB::new(987_654_321);
    KoalaBearInternalLayerParameters::diagonal_mul(&mut state);
    KoalaBearInternalLayerParameters::add_sum(&mut state, sum);
    for (i, &(mul, shift, sub)) in TABLE16.iter().enumerate() {
        let expected = oracle(inputs[i], mul, shift, sub, sum.value() as u64);
        assert_eq!(state[i].value() as u64, expected, "lane {i}");
    }
}

#[test]
fn test_internal_layer_width_24() {
    let mut state: Vec<KB> = (0u32..23).map(|i| KB::new(1_000_003 * i + 7)).collect();
    let inputs: Vec<u64> = state.iter().map(|x| x.value() as u64).collect();
    let sum = KB::new(1_234_567);
    KoalaBearInternalLayerParameters::diagonal_mul(&mut state);
    KoalaBearInternalLayerParameters::add_sum(&mut state, sum);
    for (i, &(mul, shift, sub)) in TABLE24.iter().enumerate() {
        let expected = oracle(inputs[i], mul, shift, sub, sum.value() as u64);
        assert_eq!(state[i].value() as u64, expected, "lane {i}");
    }
}

#[test]
fn test_internal_layer_doubling_characterization() {
    // Halving k times then doubling k times restores the lane value: the
    // diagonal entries really are exact divisions in the field.
    let x = KB::new(192_837_465);
    let halved = x.halve_n(24);
    let mut back = halved;
    for _ in 0..24 {
        back = back.add(back);
    }
    assert_eq!(back.value(), x.value());
}
