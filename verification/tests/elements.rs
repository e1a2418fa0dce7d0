//! Ring and field elements, shares, roles and wire values.

use ampc_core::bitlt::{form_test_values, mask_shares, public_bits, select_public_bit};
use ampc_core::message::{
    into_vec, pack, pack_vec, recv_elems, unpack, NetworkValue, ProtocolError, Wire,
};
use ampc_core::player::Role;
use ampc_core::primefield::PrimeElement;
use ampc_core::ring::IntRing2k;
use ampc_core::ring48::Ring48;
use ampc_core::shares::Share;
use ampc_core::test_utils::{
    create_array_sharing, create_array_sharing_additive_5party, create_single_sharing,
    create_single_sharing_additive_5party, reconstruct_additive_shares,
};

fn ring_check<T: IntRing2k + PartialEq + std::fmt::Debug>(width: usize) {
    assert_eq!(T::width(), width);
    let one = T::from_bit(true);
    let zero = T::from_bit(false);
    let top = T::power_of_two(width - 1);
    // The largest element wraps to zero.
    let largest = zero.ring_sub(one);
    assert_eq!(largest.ring_add(one), zero);
    assert_eq!(largest.ring_mul(largest), one);
    assert_eq!(top.ring_add(top), zero);
    assert_eq!(largest.ring_xor(largest), zero);
    assert_eq!(largest.ring_and(top), top);
    for i in 0..width {
        assert!(largest.bit_at(i));
        assert_eq!(top.bit_at(i), i == width - 1);
    }
    assert!(one.same(one));
    assert!(!one.same(zero));
}

#[test]
fn rings_wrap_at_their_width() {
    ring_check::<bool>(1);
    ring_check::<u8>(8);
    ring_check::<u16>(16);
    ring_check::<u32>(32);
    ring_check::<u64>(64);
    ring_check::<Ring48>(48);
    assert_eq!(Ring48::masked(u64::MAX).to_word(), 0xffff_ffff_ffff);
    assert_eq!(Ring48::masked(0x1234_0000_0000_0005), Ring48::masked(5));
    let x = Ring48::masked(0xabcd_0123_4567);
    assert_eq!(x.ring_mul(Ring48::masked(0x1_0000)).to_word(), 0x0123_4567_0000);
}

#[test]
fn field_elements_stay_reduced() {
    let p = 19;
    for a in 0..p {
        for b in 0..p {
            let (x, y) = (PrimeElement::new(a, p), PrimeElement::new(b, p));
            assert_eq!(x.plus(y), PrimeElement::new((a + b) % p, p));
            assert_eq!(x.minus(y), PrimeElement::new((a + p - b) % p, p));
            assert_eq!(x.times(y), PrimeElement::new((a * b) % p, p));
        }
        let x = PrimeElement::new(a, p);
        assert!(x.plus(x.negate()).is_zero());
        assert_eq!(x.is_zero(), a == 0);
    }
    assert_eq!(PrimeElement::zero(p).plus(PrimeElement::one(p)).value, 1);
    assert_eq!(PrimeElement::new(20, p).value, 1);
    let big = 65521;
    let x = PrimeElement::new(65520, big);
    assert_eq!(x.plus(x).value, 65519);
    assert_eq!(x.times(x).value, 1);
}

#[test]
fn shares_add_and_multiply() {
    let (x, y) = (0xfff0_u16, 0x0123_u16);
    let (x0, x1, x2) = create_single_sharing(1, 2, x);
    let (y0, y1, y2) = create_single_sharing(300, 400, y);
    let value = |a: Share<u16>, b: Share<u16>, c: Share<u16>| -> u16 {
        assert_eq!((a.b, b.b, c.b), (c.a, a.a, b.a));
        a.a.wrapping_add(b.a).wrapping_add(c.a)
    };
    assert_eq!(value(x0, x1, x2), x);
    assert_eq!(
        value(x0.plus(y0), x1.plus(y1), x2.plus(y2)),
        x.wrapping_add(y)
    );
    assert_eq!(
        value(x0.minus(y0), x1.minus(y1), x2.minus(y2)),
        x.wrapping_sub(y)
    );
    assert_eq!(
        value(x0.times(9), x1.times(9), x2.times(9)),
        x.wrapping_mul(9)
    );
    let product = x0
        .product(y0)
        .wrapping_add(x1.product(y1))
        .wrapping_add(x2.product(y2));
    assert_eq!(product, x.wrapping_mul(y));
    let bits = |a: Share<u16>, b: Share<u16>, c: Share<u16>| a.a ^ b.a ^ c.a;
    let (bx, by) = (bits(x0, x1, x2), bits(y0, y1, y2));
    assert_eq!(bits(x0.xor(y0), x1.xor(y1), x2.xor(y2)), bx ^ by);
    assert_eq!(x0.and(y0) ^ x1.and(y1) ^ x2.and(y2), bx & by);
    assert_eq!(Share::<u16>::zero(), Share::new(0, 0));
}

#[test]
fn sharings_of_arrays() {
    let shares = create_array_sharing(&[(1_u32, 2), (3, 4)], &[100, 200]);
    for (i, value) in [100_u32, 200].iter().enumerate() {
        let sum = (0..3).fold(0_u32, |acc, p| acc.wrapping_add(shares.of_party(p)[i].a));
        assert_eq!(sum, *value);
    }
    let five = create_single_sharing_additive_5party([1_u16, 2, 3, 4], 5);
    assert_eq!(reconstruct_additive_shares(&five), 5);
    assert_eq!(five[4], 5_u16.wrapping_sub(10));
    let array = create_array_sharing_additive_5party(&[[1_u16, 2, 3, 4], [5, 6, 7, 8]], &[9, 10]);
    for (i, value) in [9_u16, 10].iter().enumerate() {
        let column: Vec<u16> = (0..5).map(|p| array.of_party(p)[i]).collect();
        assert_eq!(reconstruct_additive_shares(&column), *value);
    }
    assert_eq!(reconstruct_additive_shares::<u16>(&[]), 0);
}

#[test]
fn roles_follow_each_other() {
    let role = Role::new(2);
    assert_eq!(role.index(), 2);
    assert_eq!(role.next(3), Role::new(0));
    assert_eq!(role.next(5), Role::new(3));
    assert_eq!(role.prev(3), Role::new(1));
    assert_eq!(Role::new(0).prev(5), Role::new(4));
}

fn wire_check<W: Wire + PartialEq + std::fmt::Debug>(a: W, b: W) {
    assert_eq!(W::unwrap(&a.wrap()), Some(a));
    // One element travels alone, several as a vector.
    assert_eq!(unpack::<W>(&pack(&[a]), true), Ok(vec![a]));
    assert_eq!(unpack::<W>(&pack(&[a, b]), false), Ok(vec![a, b]));
    assert_eq!(
        unpack::<W>(&pack(&[a, b]), true),
        Err(ProtocolError::WrongValueType)
    );
    // Where either form may come, all of them are taken.
    assert_eq!(into_vec::<W>(&pack(&[a])), Ok(vec![a]));
    assert_eq!(into_vec::<W>(&pack_vec(&[a])), Ok(vec![a]));
    assert_eq!(into_vec::<W>(&pack(&[a, b])), Ok(vec![a, b]));
    assert_eq!(into_vec::<W>(&pack_vec::<W>(&[])), Ok(vec![]));
    assert_eq!(recv_elems::<W>(&pack(&[a]), 1), Ok(vec![a]));
    assert_eq!(
        recv_elems::<W>(&pack(&[a]), 2),
        Err(ProtocolError::LengthMismatch)
    );
    assert_eq!(
        into_vec::<W>(&NetworkValue::Bytes(vec![1])),
        Err(ProtocolError::WrongValueType)
    );
    assert_eq!(recv_elems::<W>(&pack_vec(&[a, b]), 2), Ok(vec![a, b]));
    assert_eq!(recv_elems::<W>(&pack_vec(&[a]), 1), Ok(vec![a]));
    assert_eq!(
        recv_elems::<W>(&pack_vec(&[a]), 2),
        Err(ProtocolError::LengthMismatch)
    );
    assert_eq!(
        recv_elems::<W>(&NetworkValue::Bytes(vec![1]), 1),
        Err(ProtocolError::WrongValueType)
    );
    let mixed = NetworkValue::NetworkVec(vec![a.wrap(), NetworkValue::Bytes(vec![])]);
    assert_eq!(
        unpack::<W>(&mixed, false),
        Err(ProtocolError::WrongValueType)
    );
    assert_eq!(
        recv_elems::<W>(&mixed, 2),
        Err(ProtocolError::WrongValueType)
    );
}

#[test]
fn wire_values_keep_their_elements() {
    wire_check(true, false);
    wire_check(1_u8, 255);
    wire_check(1_u16, u16::MAX);
    wire_check(1_u32, u32::MAX);
    wire_check(1_u64, u64::MAX);
    wire_check(PrimeElement::new(1, 19), PrimeElement::new(18, 19));
    assert_eq!(u16::unwrap(&NetworkValue::RingElement32(1)), None);
    assert_eq!(bool::unwrap(&NetworkValue::PrfKey([0; 16])), None);
}

#[test]
fn comparison_steps_on_known_bits() {
    // The low four bits of 11, the highest one first, and one more.
    assert_eq!(
        public_bits(11_u8, 4, false),
        vec![true, false, true, true, false]
    );
    assert_eq!(public_bits(11_u8, 2, true), vec![true, true, true]);
    // Only the first party takes the public bits and the masks into its share.
    let shares = [true, false];
    let public = [true, true];
    let masks = [false, true];
    assert_eq!(mask_shares(true, &shares, &public, &masks), vec![false, false]);
    assert_eq!(mask_shares(false, &shares, &public, &masks), shares.to_vec());
    // 1, 0 differ from the public number first at the first place: its test value is zero.
    let p = 19;
    let elements = |v: &[u16]| -> Vec<PrimeElement> {
        v.iter().map(|x| PrimeElement::new(*x, p)).collect()
    };
    let dealt_0 = elements(&[5, 7]);
    let dealt_1 = elements(&[15, 12]);
    let scalars = elements(&[2, 3]);
    let none = [false, false];
    let test_0 = form_test_values(true, &dealt_0, &none, &scalars, 0, p);
    let test_1 = form_test_values(false, &dealt_1, &none, &scalars, 0, p);
    let sums: Vec<u16> = test_0
        .iter()
        .zip(&test_1)
        .map(|(a, b)| a.plus(*b).value)
        .collect();
    // Differences 1, 0: the prefix sums are 1, 1, so the tests are 2 * 0 and 3 * 1.
    assert_eq!(sums, vec![0, 3]);
    let shifted = form_test_values(true, &dealt_0, &none, &scalars, 1, p);
    assert_eq!(shifted, vec![test_0[1], test_0[0]]);
    assert!(select_public_bit(&[true, false], &[true, false], 0));
    assert!(!select_public_bit(&[true, false], &[true, false], 1));
}
