//! Mode encoders: numeric, alphanumeric, byte and kanji payloads, each
//! appended to a bit stream behind a mode indicator and a character count.
use vstd::prelude::*;

use crate::bitstream::BitStream;
use crate::bitstream::bits_of;
use crate::bitstream::wide_bits_of;
use crate::QrError;

verus! {

/// The Shift-JIS form of one character, or `None` when the character has no
/// Shift-JIS encoding.
pub uninterp spec fn sjis_char(c: char) -> Option<Seq<u8>>;

/// Relies on encoding_rs::SHIFT_JIS.encode: the returned bytes are a
/// function of the input string alone, and the flag in the returned triple
/// reports an unmappable character.
#[verifier::external_body]
fn sjis_encode_char(c: char) -> (r: Option<Vec<u8>>)
    ensures
        r is Some <==> sjis_char(c) is Some,
        r matches Some(v) ==> Some(v@) == sjis_char(c),
{
    let mut buf = [0u8; 4];
    let s: &str = c.encode_utf8(&mut buf);
    let (bytes, _, err) = encoding_rs::SHIFT_JIS.encode(s);
    if err {
        None
    } else {
        Some(bytes.into_owned())
    }
}

/// A character counts as kanji when its Shift-JIS form is two bytes inside
/// the ranges 0x8140..=0x9FFC or 0xE040..=0xEBBF.
pub open spec fn spec_is_kanji(c: char) -> bool {
    match sjis_char(c) {
        Some(b) => b.len() == 2 && {
            let v = (b[0] as int) * 256 + (b[1] as int);
            (0x8140 <= v <= 0x9FFC) || (0xE040 <= v <= 0xEBBF)
        },
        None => false,
    }
}

/// The 13-bit kanji value of a character, from its two Shift-JIS bytes.
pub open spec fn spec_kanji_value(c: char) -> int {
    let b = sjis_char(c)->Some_0;
    let v = (b[0] as int) * 256 + (b[1] as int);
    let w = if v <= 0x9FFC {
        v - 0x8140
    } else {
        v - 0xC140
    };
    (w / 256) * 0xC0 + (w % 256)
}

/// Whether the character can go into a kanji segment.
pub fn is_kanji(ch: char) -> (r: bool)
    ensures
        r == spec_is_kanji(ch),
{
    match sjis_encode_char(ch) {
        Some(bytes) => {
            if bytes.len() != 2 {
                return false;
            }
            let v: u32 = (bytes[0] as u32) * 256 + (bytes[1] as u32);
            (0x8140 <= v && v <= 0x9FFC) || (0xE040 <= v && v <= 0xEBBF)
        },
        None => false,
    }
}

/// The two Shift-JIS bytes of a kanji character.
fn kanji_bytes(ch: char) -> (r: Option<(u8, u8)>)
    ensures
        r is Some <==> spec_is_kanji(ch),
        r matches Some(p) ==> sjis_char(ch) == Some(seq![p.0, p.1]),
{
    match sjis_encode_char(ch) {
        Some(bytes) => {
            if bytes.len() != 2 {
                return None;
            }
            let v: u32 = (bytes[0] as u32) * 256 + (bytes[1] as u32);
            if (0x8140 <= v && v <= 0x9FFC) || (0xE040 <= v && v <= 0xEBBF) {
                proof {
                    assert(sjis_char(ch)->Some_0 =~= seq![bytes@[0], bytes@[1]]);
                }
                Some((bytes[0], bytes[1]))
            } else {
                None
            }
        },
        None => None,
    }
}

/// Index of a character in the 45-character alphanumeric set, if it is
/// there.
pub open spec fn spec_alphanum_value(c: char) -> Option<u8> {
    if '0' <= c <= '9' {
        Some((c as u8 - '0' as u8) as u8)
    } else if 'A' <= c <= 'Z' {
        Some((c as u8 - 'A' as u8 + 10) as u8)
    } else if c == ' ' {
        Some(36u8)
    } else if c == '$' {
        Some(37u8)
    } else if c == '%' {
        Some(38u8)
    } else if c == '*' {
        Some(39u8)
    } else if c == '+' {
        Some(40u8)
    } else if c == '-' {
        Some(41u8)
    } else if c == '.' {
        Some(42u8)
    } else if c == '/' {
        Some(43u8)
    } else if c == ':' {
        Some(44u8)
    } else {
        None
    }
}

/// Value of a character in the alphanumeric mode alphabet.
pub fn alphanum_value(c: char) -> (r: Option<u8>)
    ensures
        r == spec_alphanum_value(c),
{
    if '0' <= c && c <= '9' {
        Some(c as u8 - '0' as u8)
    } else if 'A' <= c && c <= 'Z' {
        Some(c as u8 - 'A' as u8 + 10)
    } else if c == ' ' {
        Some(36)
    } else if c == '$' {
        Some(37)
    } else if c == '%' {
        Some(38)
    } else if c == '*' {
        Some(39)
    } else if c == '+' {
        Some(40)
    } else if c == '-' {
        Some(41)
    } else if c == '.' {
        Some(42)
    } else if c == '/' {
        Some(43)
    } else if c == ':' {
        Some(44)
    } else {
        None
    }
}

/// UTF-8 bytes of one character.
pub fn char_utf8(c: char) -> (r: Vec<u8>)
    ensures
        r@ == vstd::utf8::encode_scalar(c as u32),
        1 <= r@.len() <= 4,
{
    proof {
        vstd::utf8::char_is_scalar(c);
    }
    let u = c as u32;
    let mut r: Vec<u8> = Vec::new();
    if u < 0x80 {
        r.push((u & 0x7F) as u8);
        proof {
            assert(r@ =~= vstd::utf8::encode_scalar(c as u32));
        }
    } else if u < 0x800 {
        r.push(0xC0 | ((u >> 6) & 0x1F) as u8);
        r.push(0x80 | (u & 0x3F) as u8);
        proof {
            assert(r@ =~= vstd::utf8::encode_scalar(c as u32));
        }
    } else if u < 0x10000 {
        r.push(0xE0 | ((u >> 12) & 0x0F) as u8);
        r.push(0x80 | ((u >> 6) & 0x3F) as u8);
        r.push(0x80 | (u & 0x3F) as u8);
        proof {
            assert(r@ =~= vstd::utf8::encode_scalar(c as u32));
        }
    } else {
        r.push(0xF0 | ((u >> 18) & 0x07) as u8);
        r.push(0x80 | ((u >> 12) & 0x3F) as u8);
        r.push(0x80 | ((u >> 6) & 0x3F) as u8);
        r.push(0x80 | (u & 0x3F) as u8);
        proof {
            assert(r@ =~= vstd::utf8::encode_scalar(c as u32));
        }
    }
    r
}


/// Decimal digit.
pub open spec fn spec_is_digit(c: char) -> bool {
    '0' <= c <= '9'
}

/// Value of a decimal digit character.
pub open spec fn spec_digit(c: char) -> int {
    c as int - 48
}

/// Width of the character-count indicator in numeric mode.
pub open spec fn spec_count_bits_numeric(version: u8) -> u8 {
    if version <= 9 { 10 } else if version <= 26 { 12 } else { 14 }
}

/// Width of the character-count indicator in alphanumeric mode.
pub open spec fn spec_count_bits_alphanum(version: u8) -> u8 {
    if version <= 9 { 9 } else if version <= 26 { 11 } else { 13 }
}

/// Width of the character-count indicator in byte mode.
pub open spec fn spec_count_bits_byte(version: u8) -> u8 {
    if version <= 9 { 8 } else { 16 }
}

/// Width of the character-count indicator in kanji mode.
pub open spec fn spec_count_bits_kanji(version: u8) -> u8 {
    if version <= 9 { 8 } else if version <= 26 { 10 } else { 12 }
}

/// Numeric payload: groups of three digits in 10 bits; a trailing pair in
/// 7, a trailing single digit in 4.
pub open spec fn numeric_payload(chars: Seq<char>, s: int, l: int) -> Seq<bool>
    decreases l,
{
    if l <= 0 {
        Seq::empty()
    } else if l >= 3 {
        wide_bits_of(
            (spec_digit(chars[s]) * 100 + spec_digit(chars[s + 1]) * 10 + spec_digit(
                chars[s + 2],
            )) as usize,
            10,
        ) + numeric_payload(chars, s + 3, l - 3)
    } else if l == 2 {
        wide_bits_of((spec_digit(chars[s]) * 10 + spec_digit(chars[s + 1])) as usize, 7)
    } else {
        wide_bits_of(spec_digit(chars[s]) as usize, 4)
    }
}

/// Alphanumeric payload: pairs as `45 * first + second` in 11 bits; a
/// trailing single character in 6.
pub open spec fn alphanum_payload(chars: Seq<char>, s: int, l: int) -> Seq<bool>
    decreases l,
{
    if l <= 0 {
        Seq::empty()
    } else if l >= 2 {
        wide_bits_of(
            (spec_alphanum_value(chars[s])->Some_0 as int * 45 + spec_alphanum_value(
                chars[s + 1],
            )->Some_0 as int) as usize,
            11,
        ) + alphanum_payload(chars, s + 2, l - 2)
    } else {
        wide_bits_of(spec_alphanum_value(chars[s])->Some_0 as usize, 6)
    }
}

/// The bits of a byte sequence, each byte most significant bit first.
pub open spec fn seq_bits(bytes: Seq<u8>) -> Seq<bool>
    decreases bytes.len(),
{
    if bytes.len() == 0 {
        Seq::empty()
    } else {
        bits_of(bytes[0], 8) + seq_bits(bytes.drop_first())
    }
}

/// Byte payload: the UTF-8 bytes of the slice, eight bits each.
pub open spec fn byte_payload(chars: Seq<char>, s: int, l: int) -> Seq<bool>
    decreases l,
{
    if l <= 0 {
        Seq::empty()
    } else {
        seq_bits(vstd::utf8::encode_scalar(chars[s] as u32)) + byte_payload(chars, s + 1, l - 1)
    }
}

/// UTF-8 byte count of the slice.
pub open spec fn spec_byte_count(chars: Seq<char>, s: int, l: int) -> int
    decreases l,
{
    if l <= 0 {
        0
    } else {
        vstd::utf8::encode_scalar(chars[s] as u32).len() + spec_byte_count(chars, s + 1, l - 1)
    }
}

/// Kanji payload: one 13-bit value per character.
pub open spec fn kanji_payload(chars: Seq<char>, s: int, l: int) -> Seq<bool>
    decreases l,
{
    if l <= 0 {
        Seq::empty()
    } else {
        wide_bits_of(spec_kanji_value(chars[s]) as usize, 13) + kanji_payload(chars, s + 1, l - 1)
    }
}

proof fn lemma_numeric_split(chars: Seq<char>, s: int, i: int, l: int)
    requires
        0 <= i <= l,
        i % 3 == 0,
    ensures
        numeric_payload(chars, s, l) == numeric_payload(chars, s, i) + numeric_payload(
            chars,
            s + i,
            l - i,
        ),
    decreases i,
{
    if i == 0 {
        assert(numeric_payload(chars, s, l) =~= numeric_payload(chars, s, 0) + numeric_payload(
            chars,
            s,
            l,
        ));
    } else {
        lemma_numeric_split(chars, s + 3, i - 3, l - 3);
        assert(numeric_payload(chars, s, l) =~= numeric_payload(chars, s, i) + numeric_payload(
            chars,
            s + i,
            l - i,
        ));
    }
}

proof fn lemma_alphanum_split(chars: Seq<char>, s: int, i: int, l: int)
    requires
        0 <= i <= l,
        i % 2 == 0,
    ensures
        alphanum_payload(chars, s, l) == alphanum_payload(chars, s, i) + alphanum_payload(
            chars,
            s + i,
            l - i,
        ),
    decreases i,
{
    if i == 0 {
        assert(alphanum_payload(chars, s, l) =~= alphanum_payload(chars, s, 0) + alphanum_payload(
            chars,
            s,
            l,
        ));
    } else {
        lemma_alphanum_split(chars, s + 2, i - 2, l - 2);
        assert(alphanum_payload(chars, s, l) =~= alphanum_payload(chars, s, i) + alphanum_payload(
            chars,
            s + i,
            l - i,
        ));
    }
}

pub proof fn lemma_byte_split(chars: Seq<char>, s: int, i: int, l: int)
    requires
        0 <= i <= l,
    ensures
        byte_payload(chars, s, l) == byte_payload(chars, s, i) + byte_payload(
            chars,
            s + i,
            l - i,
        ),
        spec_byte_count(chars, s, l) == spec_byte_count(chars, s, i) + spec_byte_count(
            chars,
            s + i,
            l - i,
        ),
    decreases i,
{
    if i == 0 {
        assert(byte_payload(chars, s, l) =~= byte_payload(chars, s, 0) + byte_payload(
            chars,
            s,
            l,
        ));
    } else {
        lemma_byte_split(chars, s + 1, i - 1, l - 1);
        assert(byte_payload(chars, s, l) =~= byte_payload(chars, s, i) + byte_payload(
            chars,
            s + i,
            l - i,
        ));
    }
}

proof fn lemma_kanji_split(chars: Seq<char>, s: int, i: int, l: int)
    requires
        0 <= i <= l,
    ensures
        kanji_payload(chars, s, l) == kanji_payload(chars, s, i) + kanji_payload(
            chars,
            s + i,
            l - i,
        ),
    decreases i,
{
    if i == 0 {
        assert(kanji_payload(chars, s, l) =~= kanji_payload(chars, s, 0) + kanji_payload(
            chars,
            s,
            l,
        ));
    } else {
        lemma_kanji_split(chars, s + 1, i - 1, l - 1);
        assert(kanji_payload(chars, s, l) =~= kanji_payload(chars, s, i) + kanji_payload(
            chars,
            s + i,
            l - i,
        ));
    }
}

proof fn lemma_seq_bits_snoc(bytes: Seq<u8>, x: u8)
    ensures
        seq_bits(bytes.push(x)) == seq_bits(bytes) + bits_of(x, 8),
    decreases bytes.len(),
{
    let s = bytes.push(x);
    if bytes.len() == 0 {
        assert(s.drop_first() =~= Seq::<u8>::empty());
        assert(seq_bits(s.drop_first()) == Seq::<bool>::empty());
        assert(s[0] == x);
        assert(seq_bits(s) =~= seq_bits(bytes) + bits_of(x, 8));
    } else {
        lemma_seq_bits_snoc(bytes.drop_first(), x);
        assert(s.drop_first() =~= bytes.drop_first().push(x));
        assert(s[0] == bytes[0]);
        assert(seq_bits(s) == bits_of(s[0], 8) + seq_bits(s.drop_first()));
        assert(seq_bits(s) =~= seq_bits(bytes) + bits_of(x, 8));
    }
}


/// The numeric payload length is exactly the planner's cost: ten bits per
/// three digits, seven for a trailing pair, four for a trailing digit (and
/// at most four bits per character).
pub proof fn lemma_numeric_payload_len(chars: Seq<char>, s: int, l: int)
    ensures
        numeric_payload(chars, s, l).len() <= 4 * (if l >= 0 { l } else { 0 }),
        l >= 0 ==> numeric_payload(chars, s, l).len() == 10 * (l / 3) + (if l % 3 == 1 {
            4int
        } else if l % 3 == 2 {
            7int
        } else {
            0int
        }),
    decreases l,
{
    if l >= 3 {
        lemma_numeric_payload_len(chars, s + 3, l - 3);
        assert(l / 3 == (l - 3) / 3 + 1 && l % 3 == (l - 3) % 3) by (nonlinear_arith)
            requires
                l >= 3,
        ;
    }
}

/// The alphanumeric payload length is exactly the planner's cost: eleven
/// bits per pair, six for a trailing single character (and at most six bits
/// per character).
pub proof fn lemma_alphanum_payload_len(chars: Seq<char>, s: int, l: int)
    ensures
        alphanum_payload(chars, s, l).len() <= 6 * (if l >= 0 { l } else { 0 }),
        l >= 0 ==> alphanum_payload(chars, s, l).len() == 11 * (l / 2) + (if l % 2 == 1 {
            6int
        } else {
            0int
        }),
    decreases l,
{
    if l >= 2 {
        lemma_alphanum_payload_len(chars, s + 2, l - 2);
        assert(l / 2 == (l - 2) / 2 + 1 && l % 2 == (l - 2) % 2) by (nonlinear_arith)
            requires
                l >= 2,
        ;
    }
}

proof fn lemma_seq_bits_len(bytes: Seq<u8>)
    ensures
        seq_bits(bytes).len() == 8 * bytes.len(),
    decreases bytes.len(),
{
    if bytes.len() > 0 {
        lemma_seq_bits_len(bytes.drop_first());
    }
}

/// The byte payload takes at most thirty-two bits per character: eight per
/// UTF-8 byte, exactly.
pub proof fn lemma_byte_payload_len(chars: Seq<char>, s: int, l: int)
    ensures
        byte_payload(chars, s, l).len() <= 32 * (if l >= 0 { l } else { 0 }),
        byte_payload(chars, s, l).len() == 8 * spec_byte_count(chars, s, l),
    decreases l,
{
    if l > 0 {
        lemma_byte_payload_len(chars, s + 1, l - 1);
        lemma_seq_bits_len(vstd::utf8::encode_scalar(chars[s] as u32));
        vstd::utf8::char_is_scalar(chars[s]);
    }
}

/// The kanji payload takes exactly thirteen bits per character.
pub proof fn lemma_kanji_payload_len(chars: Seq<char>, s: int, l: int)
    ensures
        kanji_payload(chars, s, l).len() <= 13 * (if l >= 0 { l } else { 0 }),
        l >= 0 ==> kanji_payload(chars, s, l).len() == 13 * l,
    decreases l,
{
    if l > 0 {
        lemma_kanji_payload_len(chars, s + 1, l - 1);
    }
}

/// A segment encoder: appends a mode indicator, a character-count indicator
/// and a mode-specific payload.
pub trait Encoder {
    /// The slice can be encoded in this mode.
    spec fn spec_eligible(chars: Seq<char>, start: int, len: int) -> bool;

    /// The exact bits the mode appends for the slice at this version.
    spec fn spec_encoding(chars: Seq<char>, start: int, len: int, version: u8) -> Seq<bool>;

    /// Append the segment `chars[start .. start + length]` to the stream.
    fn encode(
        chars: &Vec<char>,
        start: usize,
        length: usize,
        bytes: &mut BitStream,
        version: u8,
    ) -> (r: Result<(), QrError>)
        requires
            start + length <= chars@.len(),
            1 <= version <= 40,
            old(bytes).wf(),
            old(bytes)@.len() + 40 * length + 64 <= usize::MAX,
        ensures
            final(bytes).wf(),
            r is Ok <==> Self::spec_eligible(chars@, start as int, length as int),
            r is Ok ==> final(bytes)@ == old(bytes)@ + Self::spec_encoding(
                chars@,
                start as int,
                length as int,
                version,
            ),
            r is Err ==> final(bytes)@ == old(bytes)@ && r == Result::<(), QrError>::Err(
                QrError::EncodingFailure,
            ),
    ;
}

pub struct NumeralEncoder;

pub struct AlphanumEncoder;

pub struct BytesEncoder;

pub struct KanjiEncoder;

impl Encoder for NumeralEncoder {
    open spec fn spec_eligible(chars: Seq<char>, start: int, len: int) -> bool {
        forall|i: int| start <= i < start + len ==> spec_is_digit(chars[i])
    }

    open spec fn spec_encoding(chars: Seq<char>, start: int, len: int, version: u8) -> Seq<bool> {
        bits_of(0b0001, 4) + wide_bits_of(len as usize, spec_count_bits_numeric(version) as nat)
            + numeric_payload(chars, start, len)
    }

    fn encode(
        chars: &Vec<char>,
        start: usize,
        length: usize,
        bytes: &mut BitStream,
        version: u8,
    ) -> (r: Result<(), QrError>) {
        proof {
            assert(chars.len() == chars@.len());
        }
        let mut i: usize = 0;
        while i < length
            invariant
                start + length <= chars@.len(),
                chars@.len() <= usize::MAX,
                i <= length,
                *bytes == *old(bytes),
                old(bytes).wf(),
                old(bytes)@.len() + 40 * length + 64 <= usize::MAX,
                forall|k: int| start <= k < start + i ==> spec_is_digit(chars@[k]),
            decreases length - i,
        {
            let c = chars[start + i];
            if !('0' <= c && c <= '9') {
                return Err(QrError::EncodingFailure);
            }
            i = i + 1;
        }

        let ghost snap = bytes@;
        bytes.push_bits(0b0001, 4);
        let width: u8 = if version <= 9 {
            10
        } else if version <= 26 {
            12
        } else {
            14
        };
        bytes.push_bits_big(length, width);
        let ghost header = bits_of(0b0001, 4) + wide_bits_of(
            length as usize,
            spec_count_bits_numeric(version) as nat,
        );

        let mut idx: usize = 0;
        while idx < length
            invariant
                start + length <= chars@.len(),
                chars@.len() <= usize::MAX,
                idx <= length,
                idx % 3 == 0 || idx == length,
                bytes.wf(),
                snap.len() + 40 * length + 64 <= usize::MAX,
                bytes@.len() <= snap.len() + 20 + 4 * idx,
                forall|k: int| start <= k < start + length ==> spec_is_digit(chars@[k]),
                bytes@ == snap + header + numeric_payload(chars@, start as int, idx as int),
            decreases length - idx,
        {
            let e: usize = if length - idx < 3 {
                length - idx
            } else {
                3
            };
            let mut v: usize = 0;
            let c0 = chars[start + idx];
            if e == 3 {
                let c1 = chars[start + idx + 1];
                let c2 = chars[start + idx + 2];
                v = (c0 as u32 as usize - 48) * 100 + (c1 as u32 as usize - 48) * 10 + (
                c2 as u32 as usize - 48);
                bytes.push_bits_big(v, 10);
            } else if e == 2 {
                let c1 = chars[start + idx + 1];
                v = (c0 as u32 as usize - 48) * 10 + (c1 as u32 as usize - 48);
                bytes.push_bits_big(v, 7);
            } else {
                v = c0 as u32 as usize - 48;
                bytes.push_bits_big(v, 4);
            }
            proof {
                lemma_numeric_split(chars@, start as int, idx as int, (idx + e) as int);
                assert(numeric_payload(chars@, start + idx + 3, 0) == Seq::<bool>::empty());
                assert(bytes@ =~= snap + header + numeric_payload(
                    chars@,
                    start as int,
                    (idx + e) as int,
                ));
            }
            idx = idx + e;
        }
        Ok(())
    }
}

impl Encoder for AlphanumEncoder {
    open spec fn spec_eligible(chars: Seq<char>, start: int, len: int) -> bool {
        forall|i: int| start <= i < start + len ==> spec_alphanum_value(chars[i]) is Some
    }

    open spec fn spec_encoding(chars: Seq<char>, start: int, len: int, version: u8) -> Seq<bool> {
        bits_of(0b0010, 4) + wide_bits_of(len as usize, spec_count_bits_alphanum(version) as nat)
            + alphanum_payload(chars, start, len)
    }

    fn encode(
        chars: &Vec<char>,
        start: usize,
        length: usize,
        bytes: &mut BitStream,
        version: u8,
    ) -> (r: Result<(), QrError>) {
        proof {
            assert(chars.len() == chars@.len());
        }
        let mut i: usize = 0;
        while i < length
            invariant
                start + length <= chars@.len(),
                chars@.len() <= usize::MAX,
                i <= length,
                *bytes == *old(bytes),
                old(bytes).wf(),
                old(bytes)@.len() + 40 * length + 64 <= usize::MAX,
                forall|k: int| start <= k < start + i ==> spec_alphanum_value(chars@[k]) is Some,
            decreases length - i,
        {
            let c = chars[start + i];
            if alphanum_value(c).is_none() {
                return Err(QrError::EncodingFailure);
            }
            i = i + 1;
        }

        let ghost snap = bytes@;
        bytes.push_bits(0b0010, 4);
        let width: u8 = if version <= 9 {
            9
        } else if version <= 26 {
            11
        } else {
            13
        };
        bytes.push_bits_big(length, width);
        let ghost header = bits_of(0b0010, 4) + wide_bits_of(
            length as usize,
            spec_count_bits_alphanum(version) as nat,
        );

        let mut idx: usize = 0;
        while idx < length
            invariant
                start + length <= chars@.len(),
                chars@.len() <= usize::MAX,
                idx <= length,
                idx % 2 == 0 || idx == length,
                bytes.wf(),
                snap.len() + 40 * length + 64 <= usize::MAX,
                bytes@.len() <= snap.len() + 20 + 6 * idx,
                forall|k: int|
                    start <= k < start + length ==> spec_alphanum_value(chars@[k]) is Some,
                bytes@ == snap + header + alphanum_payload(chars@, start as int, idx as int),
            decreases length - idx,
        {
            let e: usize = if length - idx < 2 {
                1
            } else {
                2
            };
            let c0 = chars[start + idx];
            let v0 = match alphanum_value(c0) {
                Some(x) => x,
                None => 0,
            };
            if e == 2 {
                let c1 = chars[start + idx + 1];
                let v1 = match alphanum_value(c1) {
                    Some(x) => x,
                    None => 0,
                };
                let v: usize = (v0 as usize) * 45 + v1 as usize;
                bytes.push_bits_big(v, 11);
            } else {
                bytes.push_bits_big(v0 as usize, 6);
            }
            proof {
                lemma_alphanum_split(chars@, start as int, idx as int, (idx + e) as int);
                assert(alphanum_payload(chars@, start + idx + 2, 0) == Seq::<bool>::empty());
                assert(bytes@ =~= snap + header + alphanum_payload(
                    chars@,
                    start as int,
                    (idx + e) as int,
                ));
            }
            idx = idx + e;
        }
        Ok(())
    }
}

impl Encoder for BytesEncoder {
    open spec fn spec_eligible(chars: Seq<char>, start: int, len: int) -> bool {
        true
    }

    open spec fn spec_encoding(chars: Seq<char>, start: int, len: int, version: u8) -> Seq<bool> {
        bits_of(0b0100, 4) + wide_bits_of(
            spec_byte_count(chars, start, len) as usize,
            spec_count_bits_byte(version) as nat,
        ) + byte_payload(chars, start, len)
    }

    fn encode(
        chars: &Vec<char>,
        start: usize,
        length: usize,
        bytes: &mut BitStream,
        version: u8,
    ) -> (r: Result<(), QrError>) {
        proof {
            assert(chars.len() == chars@.len());
        }
        let mut count: usize = 0;
        let mut i: usize = 0;
        while i < length
            invariant
                start + length <= chars@.len(),
                chars@.len() <= usize::MAX,
                40 * length + 64 <= usize::MAX,
                i <= length,
                count == spec_byte_count(chars@, start as int, i as int),
                count <= 4 * i,
            decreases length - i,
        {
            let b = char_utf8(chars[start + i]);
            proof {
                lemma_byte_split(chars@, start as int, i as int, (i + 1) as int);
                assert(spec_byte_count(chars@, start + i + 1, 0) == 0);
            }
            count = count + b.len();
            i = i + 1;
        }

        let ghost snap = bytes@;
        bytes.push_bits(0b0100, 4);
        let width: u8 = if version <= 9 {
            8
        } else {
            16
        };
        bytes.push_bits_big(count, width);
        let ghost header = bits_of(0b0100, 4) + wide_bits_of(
            spec_byte_count(chars@, start as int, length as int) as usize,
            spec_count_bits_byte(version) as nat,
        );

        let mut idx: usize = 0;
        while idx < length
            invariant
                start + length <= chars@.len(),
                chars@.len() <= usize::MAX,
                idx <= length,
                bytes.wf(),
                snap.len() + 40 * length + 64 <= usize::MAX,
                bytes@.len() <= snap.len() + 20 + 32 * idx,
                bytes@ == snap + header + byte_payload(chars@, start as int, idx as int),
            decreases length - idx,
        {
            let b = char_utf8(chars[start + idx]);
            let ghost base = bytes@;
            let mut j: usize = 0;
            while j < b.len()
                invariant
                    j <= b@.len(),
                    b@.len() <= 4,
                    bytes.wf(),
                    base.len() + 48 <= usize::MAX,
                    bytes@ == base + seq_bits(b@.take(j as int)),
                    bytes@.len() == base.len() + 8 * j,
                decreases b@.len() - j,
            {
                bytes.push(b[j]);
                proof {
                    lemma_seq_bits_snoc(b@.take(j as int), b@[j as int]);
                    assert(b@.take((j + 1) as int) =~= b@.take(j as int).push(b@[j as int]));
                }
                j = j + 1;
            }
            proof {
                assert(b@.take(b@.len() as int) =~= b@);
                lemma_byte_split(chars@, start as int, idx as int, (idx + 1) as int);
                assert(byte_payload(chars@, start + idx + 1, 0) == Seq::<bool>::empty());
                assert(bytes@ =~= snap + header + byte_payload(
                    chars@,
                    start as int,
                    (idx + 1) as int,
                ));
            }
            idx = idx + 1;
        }
        Ok(())
    }
}

impl Encoder for KanjiEncoder {
    open spec fn spec_eligible(chars: Seq<char>, start: int, len: int) -> bool {
        forall|i: int| start <= i < start + len ==> spec_is_kanji(chars[i])
    }

    open spec fn spec_encoding(chars: Seq<char>, start: int, len: int, version: u8) -> Seq<bool> {
        bits_of(0b1000, 4) + wide_bits_of(len as usize, spec_count_bits_kanji(version) as nat)
            + kanji_payload(chars, start, len)
    }

    fn encode(
        chars: &Vec<char>,
        start: usize,
        length: usize,
        bytes: &mut BitStream,
        version: u8,
    ) -> (r: Result<(), QrError>) {
        proof {
            assert(chars.len() == chars@.len());
        }
        let mut pairs: Vec<(u8, u8)> = Vec::new();
        let mut i: usize = 0;
        while i < length
            invariant
                start + length <= chars@.len(),
                chars@.len() <= usize::MAX,
                i <= length,
                *bytes == *old(bytes),
                old(bytes).wf(),
                old(bytes)@.len() + 40 * length + 64 <= usize::MAX,
                pairs@.len() == i,
                forall|k: int| start <= k < start + i ==> spec_is_kanji(chars@[k]),
                forall|k: int|
                    0 <= k < i ==> sjis_char(chars@[start + k]) == Some(
                        seq![pairs@[k].0, pairs@[k].1],
                    ),
            decreases length - i,
        {
            match kanji_bytes(chars[start + i]) {
                Some(p) => {
                    pairs.push(p);
                },
                None => {
                    return Err(QrError::EncodingFailure);
                },
            }
            i = i + 1;
        }

        let ghost snap = bytes@;
        bytes.push_bits(0b1000, 4);
        let width: u8 = if version <= 9 {
            8
        } else if version <= 26 {
            10
        } else {
            12
        };
        bytes.push_bits_big(length, width);
        let ghost header = bits_of(0b1000, 4) + wide_bits_of(
            length as usize,
            spec_count_bits_kanji(version) as nat,
        );

        let mut idx: usize = 0;
        while idx < length
            invariant
                start + length <= chars@.len(),
                chars@.len() <= usize::MAX,
                idx <= length,
                pairs@.len() == length,
                bytes.wf(),
                snap.len() + 40 * length + 64 <= usize::MAX,
                bytes@.len() <= snap.len() + 20 + 13 * idx,
                forall|k: int| start <= k < start + length ==> spec_is_kanji(chars@[k]),
                forall|k: int|
                    0 <= k < length ==> sjis_char(chars@[start + k]) == Some(
                        seq![pairs@[k].0, pairs@[k].1],
                    ),
                bytes@ == snap + header + kanji_payload(chars@, start as int, idx as int),
            decreases length - idx,
        {
            let (b1, b2) = pairs[idx];
            let v: u32 = (b1 as u32) * 256 + (b2 as u32);
            proof {
                assert(spec_is_kanji(chars@[start + idx]));
                assert(sjis_char(chars@[start + idx])->Some_0 =~= seq![b1, b2]);
            }
            let w: u32 = if v <= 0x9FFC {
                v - 0x8140
            } else {
                v - 0xC140
            };
            let val: u32 = (w / 256) * 0xC0 + (w % 256);
            bytes.push_bits_big(val as usize, 13);
            proof {
                assert(val as int == spec_kanji_value(chars@[start + idx]));
                lemma_kanji_split(chars@, start as int, idx as int, (idx + 1) as int);
                assert(kanji_payload(chars@, start + idx + 1, 0) == Seq::<bool>::empty());
                assert(bytes@ =~= snap + header + kanji_payload(
                    chars@,
                    start as int,
                    (idx + 1) as int,
                ));
            }
            idx = idx + 1;
        }
        Ok(())
    }
}

} // verus!
