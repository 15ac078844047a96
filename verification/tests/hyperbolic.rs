//! Coordinates as bit patterns.

use blake2::{Blake2b512, Digest};
use norn_rs::hyperbolic::{clamp_rho, is_finite, key_number, CoordBits, RHO_MAX_BITS};
use std::f64::consts::PI;

fn bits(rho: f64, theta: f64) -> CoordBits {
    CoordBits { rho: rho.to_bits(), theta: theta.to_bits() }
}

fn wire(rho: f64, theta: f64) -> [u8; 16] {
    let mut data = [0u8; 16];
    data[..8].copy_from_slice(&rho.to_le_bytes());
    data[8..].copy_from_slice(&theta.to_le_bytes());
    data
}

fn angle_from_key(key: &[u8; 32]) -> f64 {
    key_number(key) as f64 / u64::MAX as f64 * 2.0 * PI
}

#[test]
fn hyperbolic_encode_decode_roundtrip() {
    let c = bits(3.5, 1.23);
    assert_eq!(c.encode(), wire(3.5, 1.23));
    let d = CoordBits::decode(&c.encode());
    assert!((f64::from_bits(d.rho) - 3.5).abs() < 1e-12);
    assert!((f64::from_bits(d.theta) - 1.23).abs() < 1e-12);
}

#[test]
fn decode_clamps_rho_to_max() {
    let c = CoordBits::decode(&wire(1e9, 1.0));
    let rho = f64::from_bits(clamp_rho(c.rho));
    assert!(rho <= 350.0 && rho >= 0.0, "rho must clamp into [0, RHO_MAX], got {}", rho);
    assert_eq!(rho, 350.0);
    assert_eq!(f64::from_bits(RHO_MAX_BITS), 350.0);
}

#[test]
fn decode_negative_rho_clamped_nonneg() {
    let c = CoordBits::decode(&wire(-5.0, 1.0));
    assert!(f64::from_bits(clamp_rho(c.rho)) >= 0.0, "negative rho must clamp to 0");
}

#[test]
fn decode_sanitizes_non_finite() {
    let c = CoordBits::decode(&wire(f64::NAN, f64::INFINITY));
    assert!(f64::from_bits(clamp_rho(c.rho)).is_finite(), "non-finite must be sanitised");
    assert!(!is_finite(c.theta));
}

#[test]
fn distances_are_clamped_as_numbers_are() {
    for x in [0.0f64, -0.0, 1.0, 349.999, 350.0, 350.001, 1e300, -1.0, -1e-300] {
        let want = x.clamp(0.0, 350.0).to_bits();
        assert_eq!(clamp_rho(x.to_bits()), want, "{x}");
        assert!(is_finite(x.to_bits()));
    }
    for x in [f64::NAN, f64::INFINITY, f64::NEG_INFINITY] {
        assert_eq!(clamp_rho(x.to_bits()), 0);
        assert!(!is_finite(x.to_bits()));
    }
}

#[test]
fn angle_from_key_in_range() {
    assert!((0.0..2.0 * PI).contains(&angle_from_key(&[0u8; 32])));
}

#[test]
fn angle_from_key_deterministic() {
    assert_eq!(angle_from_key(&[42u8; 32]), angle_from_key(&[42u8; 32]));
}

#[test]
fn angle_from_key_different_keys() {
    assert_ne!(angle_from_key(&[1u8; 32]), angle_from_key(&[2u8; 32]));
}

#[test]
fn angle_from_key_pinned_exact_value() {
    let key = [0x42u8; 32];
    let hash = Blake2b512::digest(key);
    let val = u64::from_le_bytes(hash[..8].try_into().unwrap());
    let expected = (val as f64 / u64::MAX as f64) * 2.0 * PI;
    let got = angle_from_key(&key);
    assert!((got - expected).abs() < 1e-12, "got {got}, expected {expected}");
    assert_eq!(key_number(&key), val);
}
