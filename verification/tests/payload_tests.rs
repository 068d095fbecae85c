use omr_core::{Payload, PAYLOAD_LENGTH};
use rand::SeedableRng;

fn payload_from_fn(f: impl Fn(usize) -> u8) -> Payload {
    let mut p = Payload::new();
    for i in 0..PAYLOAD_LENGTH {
        p.set(i, f(i));
    }
    p
}

#[test]
fn new_payload_is_zero() {
    let p = Payload::new();
    assert_eq!(p.iter().len(), PAYLOAD_LENGTH);
    for &b in p.iter() {
        assert_eq!(b, 0);
    }
}

#[test]
fn payload_length_is_612() {
    assert_eq!(PAYLOAD_LENGTH, 612);
}

#[test]
fn add_wraps_modulo_256() {
    let a = payload_from_fn(|_| 200);
    let b = payload_from_fn(|_| 100);
    let c = a.add(&b);
    for &v in c.iter() {
        assert_eq!(v, 44);
    }
}

#[test]
fn sub_wraps_modulo_256() {
    let a = payload_from_fn(|_| 10);
    let b = payload_from_fn(|_| 20);
    let c = a.sub(&b);
    for &v in c.iter() {
        assert_eq!(v, 246);
    }
}

#[test]
fn scalar_mul_wraps_modulo_256() {
    let a = payload_from_fn(|i| (i % 256) as u8);
    let c = a.scalar_mul(3);
    for (i, &v) in c.iter().iter().enumerate() {
        assert_eq!(v, ((i % 256) as u8).wrapping_mul(3));
    }
}

#[test]
fn add_then_sub_round_trips() {
    let a = payload_from_fn(|i| (7 * i % 256) as u8);
    let b = payload_from_fn(|i| (13 * i % 256) as u8);
    let c = a.add(&b).sub(&b);
    assert_eq!(c, a);
}

#[test]
fn duplicate_is_equal() {
    let a = payload_from_fn(|i| (i * i % 256) as u8);
    let d = a.duplicate();
    assert_eq!(a, d);
}

#[test]
fn random_payload_has_full_length() {
    let mut rng = rand::rngs::StdRng::seed_from_u64(7);
    let p = Payload::random(&mut rng);
    assert_eq!(p.iter().len(), PAYLOAD_LENGTH);
}

#[test]
fn iter_mut_rewrites_in_place() {
    let mut p = Payload::new();
    p.iter_mut()[3] = 9;
    assert_eq!(p.get(3), 9);
    assert_eq!(p.iter().len(), PAYLOAD_LENGTH);
}
