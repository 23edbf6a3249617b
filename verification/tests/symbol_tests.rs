use qr_gen::ecc::{get_format_ecc, version_information_process, ErrorCorrection};
use qr_gen::generator::{Flag, Generator};
use qr_gen::qr::{format_word, module_reserved};
use qr_gen::{ECCLevel, QrError};

fn flags(ecc: ECCLevel) -> Flag {
    let mut f = Flag::new();
    f.ecc = ecc;
    f
}

fn make(text: &str, ecc: ECCLevel) -> Generator {
    Generator::new(text.to_string(), String::from("out.png"), 5, flags(ecc))
}

#[test]
fn empty_input_is_refused() {
    let g = make("", ECCLevel::Quartile);
    assert_eq!(g.encode().err(), Some(QrError::EmptyInput));
}

#[test]
fn invalid_min_version_is_refused() {
    let mut f = flags(ECCLevel::Low);
    f.min_vers = 41;
    let g = Generator::new("HI".to_string(), String::new(), 5, f);
    assert_eq!(g.encode().err(), Some(QrError::InvalidMinVersion));
}

#[test]
fn hello_world_matches_the_reference_codewords() {
    let g = make("HELLO WORLD", ECCLevel::Medium);
    let q = g.encode().expect("encodes");
    assert_eq!(q.version(), 1);
    // Every evaluation of the four penalty rules picks mask 0 here.
    assert_eq!(q.mask(), 0);
    let cw = q.codewords();
    assert_eq!(cw.len(), 26);
    assert_eq!(
        &cw[0..16],
        &[0x20, 0x5B, 0x0B, 0x78, 0xD1, 0x72, 0xDC, 0x4D, 0x43, 0x40, 0xEC, 0x11, 0xEC, 0x11,
            0xEC, 0x11]
    );
}

#[test]
fn abc123_splits_where_the_planned_bits_are_fewer() {
    // The planner weighs payload and mode-indicator bits: an alphanumeric
    // run followed by a numeric run beats one long alphanumeric segment.
    let g = make("ABC123", ECCLevel::Quartile);
    let q = g.encode().expect("encodes");
    assert_eq!(q.version(), 1);
    let cw = q.codewords();
    assert_eq!(
        &cw[0..13],
        &[0x20, 0x19, 0xCD, 0x30, 0x40, 0x31, 0xEC, 0x00, 0xEC, 0x11, 0xEC, 0x11, 0xEC]
    );
}

#[test]
fn seven_thousand_eighty_nine_digits_fill_version_forty() {
    let digits: String = "1234567890".chars().cycle().take(7089).collect();
    let g = make(&digits, ECCLevel::Low);
    let q = g.encode().expect("encodes");
    assert_eq!(q.version(), 40);
}

#[test]
fn seven_thousand_ninety_digits_are_too_large() {
    let digits: String = "1234567890".chars().cycle().take(7090).collect();
    let g = make(&digits, ECCLevel::Low);
    assert_eq!(g.encode().err(), Some(QrError::InputTooLarge));
}

#[test]
fn single_alphanumeric_fits_version_one() {
    let g = make("A", ECCLevel::Low);
    let q = g.encode().expect("encodes");
    assert_eq!(q.version(), 1);
}

#[test]
fn kanji_text_fits_version_one_at_low() {
    let g = make("\u{8317}", ECCLevel::Low);
    let q = g.encode().expect("encodes");
    assert_eq!(q.version(), 1);
    // Kanji mode indicator 1000 leads the stream.
    assert_eq!(q.codewords()[0] >> 4, 0b1000);
}

#[test]
fn non_ascii_bytes_get_an_eci_header() {
    // Fifty bytes of UTF-8 holding a character outside Latin-1 (and
    // outside Shift-JIS, so kanji mode cannot take it either).
    let text = "\u{05d0}abcdefghijklmnopqrstuvwxyzabcdefghijklmnopqrstuv";
    assert_eq!(text.len(), 50);
    let g = make(text, ECCLevel::Low);
    let q = g.encode().expect("encodes");
    // The stream opens with the ECI indicator 0111 and assignment 26.
    let cw = q.codewords();
    assert_eq!(cw[0], 0x71);
    assert_eq!(cw[1], 0xA4);
    assert!(q.version() >= 3 && q.version() <= 5);
}

#[test]
fn forced_byte_mode_skips_planning() {
    let mut f = flags(ECCLevel::Low);
    f.bytes = true;
    let g = Generator::new("12345".to_string(), String::new(), 5, f);
    let q = g.encode().expect("encodes");
    assert_eq!(q.version(), 1);
    // Byte mode indicator 0100, count 5, then ASCII digits.
    let cw = q.codewords();
    assert_eq!(cw[0], 0x40);
    assert_eq!(cw[1], 0x53);
}

#[test]
fn minimum_version_floor_is_kept() {
    let mut f = flags(ECCLevel::Low);
    f.min_vers = 6;
    let g = Generator::new("HELLO".to_string(), String::new(), 5, f);
    let q = g.encode().expect("encodes");
    assert_eq!(q.version(), 6);
}

#[test]
fn version_information_word_of_version_seven() {
    assert_eq!(version_information_process(7), 0x07C94);
}

#[test]
fn version_blocks_written_in_both_copies() {
    let mut f = flags(ECCLevel::Low);
    f.min_vers = 7;
    let g = Generator::new("VERSION SEVEN".to_string(), String::new(), 5, f);
    let q = g.encode().expect("encodes");
    assert_eq!(q.version(), 7);
    let size = q.size();
    let vinfo = version_information_process(7);
    for b in 0..18usize {
        let x = size - 11 + b % 3;
        let y = b / 3;
        let bit = (vinfo >> b) & 1 == 1;
        assert_eq!(q.module(x, y), bit, "copy a bit {b}");
        assert_eq!(q.module(y, x), bit, "copy b bit {b}");
    }
}

#[test]
fn format_copies_agree_and_self_check() {
    let g = make("FORMAT", ECCLevel::Quartile);
    let q = g.encode().expect("encodes");
    let size = q.size();
    let fmt = format_word(&ECCLevel::Quartile, q.mask());
    // Read both copies back from the matrix.
    let mut copy1 = 0u16;
    let mut copy2 = 0u16;
    for b in 0..15usize {
        let (x1, y1) = if b <= 5 {
            (8, b)
        } else if b == 6 {
            (8, 7)
        } else if b == 7 {
            (8, 8)
        } else if b == 8 {
            (7, 8)
        } else {
            (14 - b, 8)
        };
        let (x2, y2) = if b <= 7 {
            (size - 1 - b, 8)
        } else {
            (8, size - 15 + b)
        };
        if q.module(x1, y1) {
            copy1 |= 1 << b;
        }
        if q.module(x2, y2) {
            copy2 |= 1 << b;
        }
    }
    assert_eq!(copy1, fmt);
    assert_eq!(copy2, fmt);
    // The dark module.
    assert!(q.module(8, size - 8));

    // The unmasked word is a BCH codeword: recomputing its remainder gives
    // zero.
    let unmasked = fmt ^ 0b101010000010010;
    let mut rem = unmasked;
    for i in (10..=14).rev() {
        if (rem >> i) & 1 == 1 {
            rem ^= 0x537 << (i - 10);
        }
    }
    assert_eq!(rem & 0x3FF, 0);
    let f5 = (unmasked >> 10) as u8;
    assert_eq!(get_format_ecc(f5), unmasked & 0x3FF);
}

#[test]
fn masking_leaves_function_modules_alone() {
    // The finder, timing and alignment patterns of two symbols built from
    // different data agree on every reserved module.
    let qa = make("AAAA", ECCLevel::Low).encode().expect("encodes");
    let qb = make("1234", ECCLevel::Low).encode().expect("encodes");
    assert_eq!(qa.version(), 1);
    assert_eq!(qb.version(), 1);
    let size = qa.size();
    for y in 0..size {
        for x in 0..size {
            if module_reserved(1, x, y) {
                // Format areas differ with the mask; patterns proper do not.
                let in_format = (x == 8 && (y < 9 || y >= size - 8)) || (y == 8 && (x < 9 || x
                    >= size - 8));
                if !in_format {
                    assert_eq!(qa.module(x, y), qb.module(x, y), "({x},{y})");
                }
            }
        }
    }
}

#[test]
fn reed_solomon_syndromes_vanish() {
    let err = ErrorCorrection::new();
    let data: Vec<u8> = vec![
        0x20, 0x5B, 0x0B, 0x78, 0xD1, 0x72, 0xDC, 0x4D, 0x43, 0x40, 0xEC, 0x11, 0xEC, 0x11, 0xEC,
        0x11,
    ];
    for t in [7usize, 10, 13, 17, 30] {
        let ecc = err.calculate(&data, t);
        assert_eq!(ecc.len(), t);
        let mut codeword = data.clone();
        codeword.extend_from_slice(&ecc);
        for i in 0..t {
            let x = err.alpha(i);
            assert_eq!(err.poly_eval(&codeword, x), 0, "syndrome {i} for t={t}");
        }
    }
}

#[test]
fn hello_world_ecc_matches_the_reference() {
    // The ten error codewords of the ISO sample data block.
    let err = ErrorCorrection::new();
    let data: Vec<u8> = vec![
        0x20, 0x5B, 0x0B, 0x78, 0xD1, 0x72, 0xDC, 0x4D, 0x43, 0x40, 0xEC, 0x11, 0xEC, 0x11, 0xEC,
        0x11,
    ];
    let ecc = err.calculate(&data, 10);
    assert_eq!(ecc, vec![0xC4, 0x23, 0x27, 0x77, 0xEB, 0xD7, 0xE7, 0xE2, 0x5D, 0x17]);
}
