use circle_fold::ext::EF;
use circle_fold::m31::M31;
use circle_fold::packed::M31Pair;
use circle_fold::packed::{
    pack_slice, pack_slice_with_suffix, unpack_slice, PackedField, PackedFieldExtension,
    PackedFieldPow2, PackedValue,
};

fn m(v: u32) -> M31 {
    M31::new(v)
}

#[test]
fn test_scalar_packing_roundtrip() {
    assert_eq!(<M31 as PackedValue>::width(), 1);
    let vals: Vec<M31> = vec![m(1), m(2), m(3), m(4), m(5)];
    let packed: Vec<M31> = pack_slice(&vals);
    assert_eq!(packed, vals);
    let unpacked = unpack_slice(&packed);
    assert_eq!(unpacked, vals);
    let single = <M31 as PackedValue>::from_scalars(&vals[..1]);
    assert_eq!(single.to_scalars(), vec![m(1)]);
}

#[test]
fn test_pack_slice_with_suffix_scalar() {
    let vals: Vec<M31> = vec![m(10), m(20), m(30)];
    let (packed, suffix): (Vec<M31>, Vec<M31>) = pack_slice_with_suffix(&vals);
    assert_eq!(packed, vals);
    assert!(suffix.is_empty());
}

#[test]
fn test_lane_arithmetic() {
    let a = m(10);
    let b = m(7);
    assert_eq!(a.p_add(b), m(17));
    assert_eq!(a.p_sub(b), m(3));
    assert_eq!(a.p_mul(b), m(70));
}

#[test]
fn test_shifted_powers_values() {
    let r = <M31 as PackedField>::shifted_powers(m(3), m(2), 5);
    let vals: Vec<u32> = r.iter().map(|x| x.value()).collect();
    assert_eq!(vals, vec![2, 6, 18, 54, 162]);
    let r = <M31 as PackedField>::powers(m(2), 6);
    let vals: Vec<u32> = r.iter().map(|x| x.value()).collect();
    assert_eq!(vals, vec![1, 2, 4, 8, 16, 32]);
}

#[test]
fn test_interleave_scalar() {
    let a = m(11);
    let b = m(22);
    let (x, y) = a.interleave(b, 1);
    assert_eq!(x, a);
    assert_eq!(y, b);
}

#[test]
fn test_ext_packing_roundtrip() {
    let e0 = EF::new(m(1), m(2), m(3));
    let e1 = EF::new(m(4), m(5), m(6));
    let packed = <EF as PackedFieldExtension>::from_ext_slice(&[e0, e1]);
    assert_eq!(packed.len(), 2);
    let back = <EF as PackedFieldExtension>::to_ext_slice(&packed);
    assert_eq!(back, vec![e0, e1]);
}

#[test]
fn test_pair_packing_roundtrip() {
    assert_eq!(<M31Pair as PackedValue>::width(), 2);
    let vals: Vec<M31> = vec![m(1), m(2), m(3), m(4), m(5), m(6)];
    let packed: Vec<M31Pair> = pack_slice(&vals);
    assert_eq!(packed.len(), 3);
    assert_eq!(packed[1].to_scalars(), vec![m(3), m(4)]);
    let unpacked = unpack_slice(&packed);
    assert_eq!(unpacked, vals);
}

#[test]
fn test_pair_pack_slice_with_suffix() {
    let vals: Vec<M31> = vec![m(1), m(2), m(3), m(4), m(5)];
    let (packed, suffix): (Vec<M31Pair>, Vec<M31>) = pack_slice_with_suffix(&vals);
    assert_eq!(packed.len(), 2);
    assert_eq!(packed[0].to_scalars(), vec![m(1), m(2)]);
    assert_eq!(packed[1].to_scalars(), vec![m(3), m(4)]);
    assert_eq!(suffix, vec![m(5)]);
}

#[test]
fn test_pair_lane_arithmetic() {
    let a = <M31Pair as PackedValue>::from_scalars(&[m(10), m(20)]);
    let b = <M31Pair as PackedValue>::from_scalars(&[m(3), m(4)]);
    assert_eq!(a.p_add(b).to_scalars(), vec![m(13), m(24)]);
    assert_eq!(a.p_sub(b).to_scalars(), vec![m(7), m(16)]);
    assert_eq!(a.p_mul(b).to_scalars(), vec![m(30), m(80)]);
}

#[test]
fn test_pair_shifted_powers_values() {
    let r = <M31Pair as PackedField>::shifted_powers(m(3), m(1), 3);
    let flat: Vec<u32> = r
        .iter()
        .flat_map(|p| p.to_scalars())
        .map(|x| x.value())
        .collect();
    assert_eq!(flat, vec![1, 3, 9, 27, 81, 243]);
}

#[test]
fn test_pair_interleave() {
    let a = <M31Pair as PackedValue>::from_scalars(&[m(1), m(2)]);
    let b = <M31Pair as PackedValue>::from_scalars(&[m(3), m(4)]);
    // block length 1 transposes the pair of pairs
    let (x, y) = a.interleave(b, 1);
    assert_eq!(x.to_scalars(), vec![m(1), m(3)]);
    assert_eq!(y.to_scalars(), vec![m(2), m(4)]);
    // block length equal to the width leaves both inputs alone
    let (x, y) = a.interleave(b, 2);
    assert_eq!(x, a);
    assert_eq!(y, b);
}
