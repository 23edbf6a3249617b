use qr_gen::generator::{Flag, Generator};
use qr_gen::qr::QRCode;
use qr_gen::ECCLevel;

/// Render the symbol at four pixels per module with a four-module quiet
/// zone and hand it to an independent decoder.
fn decode(q: &QRCode) -> String {
    let scale = 4usize;
    let side = (q.size() + 8) * scale;
    let size = q.size();
    let mut img = rqrr::PreparedImage::prepare_from_greyscale(side, side, |x, y| {
        let mx = (x / scale).wrapping_sub(4);
        let my = (y / scale).wrapping_sub(4);
        if mx < size && my < size && q.module(mx, my) {
            0u8
        } else {
            255u8
        }
    });
    let grids = img.detect_grids();
    assert_eq!(grids.len(), 1, "expected one symbol");
    let (_, content) = grids[0].decode().expect("decodes");
    content
}

fn roundtrip(text: &str, ecc: ECCLevel) {
    let mut f = Flag::new();
    f.ecc = ecc;
    let g = Generator::new(text.to_string(), String::new(), 4, f);
    let q = g.encode().expect("encodes");
    assert_eq!(decode(&q), text, "round trip at version {}", q.version());
}

#[test]
fn roundtrip_numeric() {
    roundtrip("01234567890123456789", ECCLevel::Medium);
}

#[test]
fn roundtrip_alphanumeric() {
    roundtrip("HELLO WORLD", ECCLevel::Medium);
    roundtrip("HTTPS://EXAMPLE.COM/A-B+C", ECCLevel::Quartile);
}

#[test]
fn roundtrip_bytes() {
    roundtrip("byte mode, mixed Case and punctuation!", ECCLevel::Low);
}

#[test]
fn roundtrip_each_level() {
    roundtrip("LEVEL CHECK 123", ECCLevel::Low);
    roundtrip("LEVEL CHECK 123", ECCLevel::Medium);
    roundtrip("LEVEL CHECK 123", ECCLevel::Quartile);
    roundtrip("LEVEL CHECK 123", ECCLevel::High);
}

#[test]
fn roundtrip_version_seven() {
    let mut f = Flag::new();
    f.min_vers = 7;
    let g = Generator::new("SEVEN BY SEVEN".to_string(), String::new(), 4, f);
    let q = g.encode().expect("encodes");
    assert_eq!(q.version(), 7);
    assert_eq!(decode(&q), "SEVEN BY SEVEN");
}

#[test]
fn roundtrip_large_symbol() {
    // Enough text to reach a high version with alignment patterns all over.
    let text: String = "LOREM IPSUM DOLOR SIT AMET 0123456789 "
        .chars()
        .cycle()
        .take(600)
        .collect();
    let mut f = Flag::new();
    f.ecc = ECCLevel::Low;
    let g = Generator::new(text.clone(), String::new(), 4, f);
    let q = g.encode().expect("encodes");
    assert!(q.version() >= 10);
    assert_eq!(decode(&q), text);
}
