//! The generator: segment planning over the four modes, version selection,
//! codeword assembly and interleaving.
use vstd::prelude::*;

use crate::ECCLevel;
use crate::encoder::spec_byte_count;
use crate::encoder::spec_is_digit;
use crate::encoder::spec_alphanum_value;
use crate::encoder::spec_is_kanji;
use crate::encoder::lemma_byte_split;
use crate::encoder::is_kanji;
use crate::encoder::alphanum_value;
use crate::tables::qr_version_query;
use crate::tables::qr_capacity_query;
use crate::tables::block_layout;
use crate::tables::sum_data_len;
use crate::tables::lemma_block_capacity;
use crate::tables::lemma_tables_ok;
use crate::tables::spec_capacity_bits;
use crate::tables::spec_block_layout;
use crate::tables::spec_ecc_codewords;
use crate::bitstream::BitStream;
use crate::encoder::Encoder;
use crate::encoder::NumeralEncoder;
use crate::encoder::AlphanumEncoder;
use crate::encoder::BytesEncoder;
use crate::encoder::KanjiEncoder;
use crate::ecc::ErrorCorrection;
use crate::qr::QRCode;
use crate::QrError;

verus! {

/// Options of a generation run.
#[derive(Debug)]
pub struct Flag {
    /// The first argument names a file to read rather than the text itself.
    pub data: bool,
    /// Encode the whole input as one byte segment.
    pub bytes: bool,
    /// Smallest acceptable symbol version.
    pub min_vers: u8,
    /// Error-correction level.
    pub ecc: ECCLevel,
}

impl Flag {
    pub fn new() -> (r: Self)
        ensures
            r.data == false,
            r.bytes == false,
            r.min_vers == 1,
            r.ecc == ECCLevel::Quartile,
    {
        Self { data: false, bytes: false, min_vers: 1, ecc: ECCLevel::Quartile }
    }
}

/// The characters of a string, in order.
pub fn str_chars(s: &str) -> (r: Vec<char>)
    ensures
        r@ == s@,
{
    let n = s.unicode_len();
    let mut r: Vec<char> = Vec::new();
    let mut i: usize = 0;
    while i < n
        invariant
            n == s@.len(),
            i <= n,
            r@ == s@.take(i as int),
        decreases n - i,
    {
        let c = s.get_char(i);
        r.push(c);
        proof {
            assert(s@.take((i + 1) as int) =~= s@.take(i as int).push(s@[i as int]));
        }
        i = i + 1;
    }
    proof {
        assert(s@.take(n as int) =~= s@);
    }
    r
}

/// Number of UTF-8 bytes of one character.
pub fn utf8_len(c: char) -> (r: usize)
    ensures
        r == vstd::utf8::encode_scalar(c as u32).len(),
        1 <= r <= 4,
{
    proof {
        vstd::utf8::char_is_scalar(c);
    }
    let u = c as u32;
    if u < 0x80 {
        1
    } else if u < 0x800 {
        2
    } else if u < 0x10000 {
        3
    } else {
        4
    }
}

/// Payload bit cost of a segment of `len` characters (`byte_len` UTF-8
/// bytes) in the given mode, without mode and count indicators.
pub open spec fn spec_seg_cost(mode: int, len: int, byte_len: int) -> int {
    if mode == 0 {
        10 * (len / 3) + (if len % 3 == 1 { 4int } else if len % 3 == 2 { 7int } else { 0int })
    } else if mode == 1 {
        11 * (len / 2) + (if len % 2 == 1 { 6int } else { 0int })
    } else if mode == 2 {
        8 * byte_len
    } else if mode == 3 {
        13 * len
    } else {
        0
    }
}

/// Payload bit cost of a segment in a mode.
pub fn get_data_size(mode: u8, len: usize, byte_len: usize) -> (r: usize)
    requires
        len <= 8000,
        byte_len <= 32000,
    ensures
        r == spec_seg_cost(mode as int, len as int, byte_len as int),
        r <= 256000,
{
    if mode == 0 {
        10 * (len / 3) + (if len % 3 == 1 {
            4
        } else if len % 3 == 2 {
            7
        } else {
            0
        })
    } else if mode == 1 {
        11 * (len / 2) + (if len % 2 == 1 {
            6
        } else {
            0
        })
    } else if mode == 2 {
        8 * byte_len
    } else if mode == 3 {
        13 * len
    } else {
        0
    }
}


/// Whether one character can go into a segment of the given mode.
pub open spec fn spec_char_elig(mode: int, c: char) -> bool {
    if mode == 0 {
        spec_is_digit(c)
    } else if mode == 1 {
        spec_alphanum_value(c) is Some
    } else if mode == 2 {
        true
    } else if mode == 3 {
        spec_is_kanji(c)
    } else {
        false
    }
}

/// Whether every character of `chars[s .. s + l]` can go into a segment of
/// the given mode.
pub open spec fn spec_mode_eligible(mode: int, chars: Seq<char>, s: int, l: int) -> bool {
    forall|k: int| s <= k < s + l ==> spec_char_elig(mode, chars[k])
}

/// Every segment of the plan holds only characters its mode accepts.
pub open spec fn spec_plan_eligible(plan: Seq<(u16, u8)>, chars: Seq<char>) -> bool {
    forall|i: int|
        0 <= i < plan.len() ==> spec_mode_eligible(
            (#[trigger] plan[i]).1 as int,
            chars,
            spec_plan_len(plan.take(i)),
            plan[i].0 as int,
        )
}

/// Whether one character is eligible for a mode.
fn char_eligible(mode: u8, c: char) -> (r: bool)
    ensures
        r == spec_char_elig(mode as int, c),
{
    if mode == 0 {
        '0' <= c && c <= '9'
    } else if mode == 1 {
        alphanum_value(c).is_some()
    } else if mode == 2 {
        true
    } else if mode == 3 {
        is_kanji(c)
    } else {
        false
    }
}

/// A slice holds a character outside ASCII.
pub open spec fn spec_seg_nonascii(chars: Seq<char>, s: int, l: int) -> bool {
    exists|k: int| s <= k < s + l && (#[trigger] chars[k]) as u32 > 127
}

/// A byte-mode segment of the plan holds a character outside ASCII: then
/// the extended channel interpretation header announcing UTF-8 is owed.
pub open spec fn spec_plan_eci(plan: Seq<(u16, u8)>, chars: Seq<char>) -> bool {
    exists|i: int|
        0 <= i < plan.len() && (#[trigger] plan[i]).1 == 2 && spec_seg_nonascii(
            chars,
            spec_plan_len(plan.take(i)),
            plan[i].0 as int,
        )
}

/// The staged version choice of the planner: fit with the widest
/// character-count indicators first, then retry with the tighter widths of
/// the ranges a small enough version falls in.
pub open spec fn spec_staged_version(
    plan: Seq<(u16, u8)>,
    chars: Seq<char>,
    eci_bits: int,
    ecc: ECCLevel,
) -> int {
    let c0 = spec_plan_bits(plan, chars, 14, 13, 16, 12, plan.len() as int);
    let v0 = crate::tables::spec_min_version(ecc, c0 + eci_bits);
    if v0 <= 26 {
        let c1 = spec_plan_bits(plan, chars, 12, 11, 16, 10, plan.len() as int);
        let v1 = crate::tables::spec_min_version(ecc, c1 + eci_bits);
        if v1 <= 9 {
            let c2 = spec_plan_bits(plan, chars, 10, 9, 8, 8, plan.len() as int);
            crate::tables::spec_min_version(ecc, c2 + eci_bits)
        } else {
            v1
        }
    } else {
        v0
    }
}

/// The version the planner settles on for a plan: the staged choice, raised
/// to the caller's floor.
pub open spec fn spec_plan_version(
    plan: Seq<(u16, u8)>,
    chars: Seq<char>,
    eci: bool,
    min_vers: u8,
    ecc: ECCLevel,
) -> int {
    let staged = spec_staged_version(
        plan,
        chars,
        if eci {
            12int
        } else {
            0int
        },
        ecc,
    );
    if staged < min_vers {
        min_vers as int
    } else {
        staged
    }
}

/// A segment plan: each entry is (character count, mode); the modes are
/// numeric 0, alphanumeric 1, byte 2, kanji 3.
pub open spec fn spec_plan_ok(plan: Seq<(u16, u8)>, n: int) -> bool {
    &&& forall|i: int| 0 <= i < plan.len() ==> 1 <= (#[trigger] plan[i]).0
    &&& forall|i: int| 0 <= i < plan.len() ==> (#[trigger] plan[i]).1 < 4
    &&& spec_plan_len(plan) == n
}

/// Sum of the segment lengths of a plan.
pub open spec fn spec_plan_len(plan: Seq<(u16, u8)>) -> int
    decreases plan.len(),
{
    if plan.len() == 0 {
        0
    } else {
        plan[0].0 + spec_plan_len(plan.drop_first())
    }
}

proof fn lemma_plan_len_push(plan: Seq<(u16, u8)>, x: (u16, u8))
    ensures
        spec_plan_len(plan.push(x)) == spec_plan_len(plan) + x.0,
    decreases plan.len(),
{
    if plan.len() == 0 {
        assert(plan.push(x).drop_first() =~= Seq::<(u16, u8)>::empty());
        assert(spec_plan_len(Seq::<(u16, u8)>::empty()) == 0);
        assert(plan.push(x)[0] == x);
    } else {
        lemma_plan_len_push(plan.drop_first(), x);
        assert(plan.push(x).drop_first() =~= plan.drop_first().push(x));
        assert(plan.push(x)[0] == plan[0]);
    }
}

/// Column `col` of the first `rows` rows, top to bottom, skipping rows
/// that are too short.
pub open spec fn spec_column(xs: Seq<Seq<u8>>, col: int, rows: int) -> Seq<u8>
    decreases rows,
{
    if rows <= 0 {
        Seq::empty()
    } else {
        spec_column(xs, col, rows - 1) + (if col < xs[rows - 1].len() {
            seq![xs[rows - 1][col]]
        } else {
            Seq::empty()
        })
    }
}

/// The first `cols` columns of the rows, column-major.
pub open spec fn spec_interleave_upto(xs: Seq<Seq<u8>>, cols: int) -> Seq<u8>
    decreases cols,
{
    if cols <= 0 {
        Seq::empty()
    } else {
        spec_interleave_upto(xs, cols - 1) + spec_column(xs, cols - 1, xs.len() as int)
    }
}

/// Length of the longest of the first `rows` rows.
pub open spec fn spec_max_len(xs: Seq<Seq<u8>>, rows: int) -> int
    decreases rows,
{
    if rows <= 0 {
        0
    } else {
        let rest = spec_max_len(xs, rows - 1);
        if xs[rows - 1].len() > rest {
            xs[rows - 1].len() as int
        } else {
            rest
        }
    }
}

/// The rows read column-major: every row's byte 0, then every row's byte 1,
/// and so on, shorter rows dropping out as they end.
pub open spec fn spec_interleave(xs: Seq<Seq<u8>>) -> Seq<u8> {
    spec_interleave_upto(xs, spec_max_len(xs, xs.len() as int))
}

/// Total length of the first `rows` rows.
pub open spec fn spec_rows_len(xs: Seq<Seq<u8>>, rows: int) -> int
    decreases rows,
{
    if rows <= 0 {
        0
    } else {
        spec_rows_len(xs, rows - 1) + xs[rows - 1].len()
    }
}

/// Sum over the first `rows` rows of each length clipped at `cols`.
pub open spec fn spec_rows_min(xs: Seq<Seq<u8>>, cols: int, rows: int) -> int
    decreases rows,
{
    if rows <= 0 {
        0
    } else {
        spec_rows_min(xs, cols, rows - 1) + (if xs[rows - 1].len() <= cols {
            xs[rows - 1].len() as int
        } else {
            cols
        })
    }
}

/// Rows longer than `col` among the first `rows`.
pub open spec fn spec_rows_over(xs: Seq<Seq<u8>>, col: int, rows: int) -> int
    decreases rows,
{
    if rows <= 0 {
        0
    } else {
        spec_rows_over(xs, col, rows - 1) + (if col < xs[rows - 1].len() {
            1int
        } else {
            0int
        })
    }
}

proof fn lemma_column_len(xs: Seq<Seq<u8>>, col: int, rows: int)
    ensures
        spec_column(xs, col, rows).len() == spec_rows_over(xs, col, rows),
    decreases rows,
{
    if rows > 0 {
        lemma_column_len(xs, col, rows - 1);
    }
}

proof fn lemma_rows_min_step(xs: Seq<Seq<u8>>, cols: int, rows: int)
    requires
        cols >= 1,
    ensures
        spec_rows_min(xs, cols, rows) == spec_rows_min(xs, cols - 1, rows) + spec_rows_over(
            xs,
            cols - 1,
            rows,
        ),
    decreases rows,
{
    if rows > 0 {
        lemma_rows_min_step(xs, cols, rows - 1);
    }
}

proof fn lemma_interleave_upto_len(xs: Seq<Seq<u8>>, cols: int)
    requires
        cols >= 0,
    ensures
        spec_interleave_upto(xs, cols).len() == spec_rows_min(xs, cols, xs.len() as int),
    decreases cols,
{
    if cols == 0 {
        lemma_rows_min_zero(xs, xs.len() as int);
    } else {
        lemma_interleave_upto_len(xs, cols - 1);
        lemma_column_len(xs, cols - 1, xs.len() as int);
        lemma_rows_min_step(xs, cols, xs.len() as int);
    }
}

proof fn lemma_rows_min_zero(xs: Seq<Seq<u8>>, rows: int)
    ensures
        spec_rows_min(xs, 0, rows) == 0,
    decreases rows,
{
    if rows > 0 {
        lemma_rows_min_zero(xs, rows - 1);
    }
}

proof fn lemma_max_len_bound(xs: Seq<Seq<u8>>, rows: int)
    ensures
        forall|i: int| 0 <= i < rows ==> (#[trigger] xs[i]).len() <= spec_max_len(xs, rows),
        spec_max_len(xs, rows) >= 0,
    decreases rows,
{
    if rows > 0 {
        lemma_max_len_bound(xs, rows - 1);
    }
}

proof fn lemma_rows_min_saturates(xs: Seq<Seq<u8>>, cols: int, rows: int)
    requires
        forall|i: int| 0 <= i < rows ==> (#[trigger] xs[i]).len() <= cols,
    ensures
        spec_rows_min(xs, cols, rows) == spec_rows_len(xs, rows),
    decreases rows,
{
    if rows > 0 {
        lemma_rows_min_saturates(xs, cols, rows - 1);
    }
}

proof fn lemma_rows_len_prefix(xs: Seq<Seq<u8>>, ys: Seq<Seq<u8>>, rows: int)
    requires
        forall|k: int| 0 <= k < rows ==> xs[k] == ys[k],
    ensures
        spec_rows_len(xs, rows) == spec_rows_len(ys, rows),
    decreases rows,
{
    if rows > 0 {
        lemma_rows_len_prefix(xs, ys, rows - 1);
    }
}

/// The column-major reading holds exactly the rows' bytes: its length is
/// the sum of the row lengths.
pub proof fn lemma_interleave_len(xs: Seq<Seq<u8>>)
    ensures
        spec_interleave(xs).len() == spec_rows_len(xs, xs.len() as int),
{
    let max = spec_max_len(xs, xs.len() as int);
    lemma_max_len_bound(xs, xs.len() as int);
    lemma_interleave_upto_len(xs, max);
    lemma_rows_min_saturates(xs, max, xs.len() as int);
}

/// Interleave the data blocks column-major, then the error-correction
/// blocks column-major.
pub fn combine_data_err(data: &Vec<Vec<u8>>, err: &Vec<Vec<u8>>) -> (r: Vec<u8>)
    ensures
        r@ == spec_interleave(data.deep_view()) + spec_interleave(err.deep_view()),
        r@.len() == spec_rows_len(data.deep_view(), data@.len() as int) + spec_rows_len(
            err.deep_view(),
            err@.len() as int,
        ),
{
    let mut r: Vec<u8> = Vec::new();
    interleave_into(data, &mut r);
    interleave_into(err, &mut r);
    proof {
        lemma_interleave_len(data.deep_view());
        lemma_interleave_len(err.deep_view());
    }
    r
}

/// Longest row of a block list.
fn max_row_len(rows: &Vec<Vec<u8>>) -> (r: usize)
    ensures
        r == spec_max_len(rows.deep_view(), rows@.len() as int),
{
    let ghost xs = rows.deep_view();
    let mut m: usize = 0;
    let mut i: usize = 0;
    while i < rows.len()
        invariant
            i <= rows@.len(),
            xs == rows.deep_view(),
            xs.len() == rows@.len(),
            forall|k: int| 0 <= k < xs.len() ==> xs[k] == rows@[k]@,
            m == spec_max_len(xs, i as int),
        decreases rows@.len() - i,
    {
        let l = rows[i].len();
        if l > m {
            m = l;
        }
        i = i + 1;
    }
    m
}

/// Append the column-major reading of the rows to `out`.
fn interleave_into(rows: &Vec<Vec<u8>>, out: &mut Vec<u8>)
    ensures
        final(out)@ == old(out)@ + spec_interleave(rows.deep_view()),
{
    let ghost xs = rows.deep_view();
    let ghost base = out@;
    let max = max_row_len(rows);
    let mut col: usize = 0;
    while col < max
        invariant
            col <= max,
            xs == rows.deep_view(),
            xs.len() == rows@.len(),
            forall|k: int| 0 <= k < xs.len() ==> xs[k] == rows@[k]@,
            max == spec_max_len(xs, xs.len() as int),
            out@ == base + spec_interleave_upto(xs, col as int),
        decreases max - col,
    {
        let ghost mid = out@;
        let mut row: usize = 0;
        while row < rows.len()
            invariant
                row <= rows@.len(),
                col < max,
                xs == rows.deep_view(),
                xs.len() == rows@.len(),
                forall|k: int| 0 <= k < xs.len() ==> xs[k] == rows@[k]@,
                out@ == mid + spec_column(xs, col as int, row as int),
            decreases rows@.len() - row,
        {
            let rrow = &rows[row];
            if col < rrow.len() {
                out.push(rrow[col]);
            }
            proof {
                assert(out@ =~= mid + spec_column(xs, col as int, (row + 1) as int));
            }
            row = row + 1;
        }
        proof {
            assert(out@ =~= base + spec_interleave_upto(xs, (col + 1) as int));
        }
        col = col + 1;
    }
}

/// The generator: the input text and the options that shape the symbol.
#[derive(Debug)]
pub struct Generator {
    /// Text to encode; when the options name a file, the caller reads it
    /// first and passes its contents here.
    pub text: String,
    /// Where the rendered image goes.
    pub output: String,
    /// Pixels per module in the rendered image.
    pub size: u32,
    /// Options.
    pub flag: Flag,
}

impl Generator {
    pub fn new(data: String, output: String, size: u32, flag: Flag) -> (r: Self)
        ensures
            r.text@ == data@,
            r.output@ == output@,
            r.size == size,
            r.flag == flag,
    {
        Self { text: data, output, size, flag }
    }

    /// Choose the symbol version and segment plan. A version of 0 flags an
    /// empty input; 41 an input over every capacity at this level. In
    /// forced byte mode the plan is empty and the version is the smallest
    /// one whose capacity holds the bytes behind the widest indicator.
    fn get_version(&self, chars: &Vec<char>) -> (r: (u8, Vec<(u16, u8)>, bool))
        requires
            chars@.len() <= 7100,
            1 <= self.flag.min_vers <= 40,
        ensures
            chars@.len() == 0 ==> r.0 == 0,
            chars@.len() > 0 ==> r.0 >= self.flag.min_vers,
            chars@.len() > 0 && !self.flag.bytes ==> spec_plan_ok(r.1@, chars@.len() as int),
            self.flag.bytes ==> r.1@.len() == 0 && !r.2,
            self.flag.bytes && chars@.len() > 0 ==> r.0 as int == ({
                let m = crate::tables::spec_min_version(
                    self.flag.ecc,
                    8 * spec_byte_count(chars@, 0, chars@.len() as int) + 20,
                );
                if m < self.flag.min_vers {
                    self.flag.min_vers as int
                } else {
                    m
                }
            }),
            self.flag.bytes && chars@.len() > 0 && r.0 <= 40 ==> spec_capacity_bits(
                self.flag.ecc,
                r.0 as int,
            ) >= 8 * spec_byte_count(chars@, 0, chars@.len() as int) + 20,
            self.flag.bytes && chars@.len() > 0 && r.0 > 40 ==> forall|v: int|
                1 <= v <= 40 ==> #[trigger] spec_capacity_bits(self.flag.ecc, v) < 8
                    * spec_byte_count(chars@, 0, chars@.len() as int) + 20,
            !self.flag.bytes && chars@.len() > 0 && r.0 <= 40 ==> spec_capacity_bits(
                self.flag.ecc,
                r.0 as int,
            ) >= spec_plan_bits(
                r.1@,
                chars@,
                spec_widths(r.0 as int).0,
                spec_widths(r.0 as int).1,
                spec_widths(r.0 as int).2,
                spec_widths(r.0 as int).3,
                r.1@.len() as int,
            ) + (if r.2 {
                12int
            } else {
                0int
            }),
            !self.flag.bytes && chars@.len() > 0 ==> spec_plan_eligible(r.1@, chars@),
            !self.flag.bytes && chars@.len() > 0 ==> r.2 == spec_plan_eci(r.1@, chars@),
            !self.flag.bytes && chars@.len() > 0 ==> r.0 as int == spec_plan_version(
                r.1@,
                chars@,
                r.2,
                self.flag.min_vers,
                self.flag.ecc,
            ),
            !self.flag.bytes && chars@.len() > 0 && spec_plan_version(
                seq![(chars@.len() as u16, 2u8)],
                chars@,
                spec_plan_eci(seq![(chars@.len() as u16, 2u8)], chars@),
                self.flag.min_vers,
                self.flag.ecc,
            ) <= 40 ==> r.0 <= 40,
    {
        let n = chars.len();
        if n == 0 {
            return (0, Vec::new(), false);
        }

        if self.flag.bytes {
            let mut blen: usize = 0;
            let mut i: usize = 0;
            while i < n
                invariant
                    i <= n,
                    n == chars@.len() <= 7100,
                    blen == spec_byte_count(chars@, 0, i as int),
                    blen <= 4 * i,
                decreases n - i,
            {
                proof {
                    lemma_byte_split(chars@, 0, i as int, (i + 1) as int);
                    assert(spec_byte_count(chars@, i + 1, 0) == 0);
                }
                blen = blen + utf8_len(chars[i]);
                i = i + 1;
            }
            let v = qr_version_query(&self.flag.ecc, 8 * blen + 20);
            let version = if v < self.flag.min_vers {
                self.flag.min_vers
            } else {
                v
            };
            proof {
                if version <= 40 && v < version {
                    crate::tables::lemma_capacity_monotone(
                        self.flag.ecc,
                        v as int,
                        version as int,
                    );
                }
            }
            return (version, Vec::new(), false);
        }

        // Eligibility of each character in each mode, and UTF-8 prefix sums.
        let mut elig: Vec<bool> = Vec::new();
        let mut pre: Vec<usize> = Vec::new();
        pre.push(0);
        let mut i: usize = 0;
        while i < n
            invariant
                i <= n,
                n == chars@.len() <= 7100,
                elig@.len() == 4 * i,
                pre@.len() == i + 1,
                forall|k: int| 0 <= k <= i ==> 0 <= #[trigger] pre@[k] <= 4 * k,
                forall|k: int, l: int| 0 <= k <= l <= i ==> pre@[k] <= pre@[l],
            decreases n - i,
        {
            let c = chars[i];
            elig.push('0' <= c && c <= '9');
            elig.push(alphanum_value(c).is_some());
            elig.push(true);
            elig.push(is_kanji(c));
            let step = utf8_len(c);
            let last = pre[i];
            pre.push(last + step);
            i = i + 1;
        }

        // Dynamic program over tail costs, one row per position and mode.
        let mut dp: Vec<usize> = Vec::new();
        let mut nxt: Vec<Option<(usize, usize)>> = Vec::new();
        let mut i: usize = 0;
        while i < 4 * (n + 1)
            invariant
                i <= 4 * (n + 1),
                n <= 7100,
                dp@.len() == i,
                nxt@.len() == i,
                forall|k: int| 0 <= k < i ==> #[trigger] dp@[k] <= 1000000,
            decreases 4 * (n + 1) - i,
        {
            let v: usize = if i >= 4 * n {
                0
            } else {
                1000000
            };
            dp.push(v);
            nxt.push(None);
            proof {
                assert(dp@[i as int] == v);
            }
            i = i + 1;
        }

        let mut ii: usize = n;
        while ii > 0
            invariant
                ii <= n,
                n == chars@.len() <= 7100,
                elig@.len() == 4 * n,
                pre@.len() == n + 1,
                dp@.len() == 4 * (n + 1),
                nxt@.len() == 4 * (n + 1),
                forall|k: int| 0 <= k <= n ==> 0 <= #[trigger] pre@[k] <= 4 * k,
                forall|k: int, l: int| 0 <= k <= l <= n ==> pre@[k] <= pre@[l],
                forall|k: int| 0 <= k < 4 * (n + 1) ==> #[trigger] dp@[k] < 2000000,
            decreases ii,
        {
            let idx = ii - 1;
            let mut mode: usize = 0;
            while mode < 4
                invariant
                    mode <= 4,
                    idx < n,
                    n == chars@.len() <= 7100,
                    elig@.len() == 4 * n,
                    pre@.len() == n + 1,
                    dp@.len() == 4 * (n + 1),
                    nxt@.len() == 4 * (n + 1),
                    forall|k: int| 0 <= k <= n ==> 0 <= #[trigger] pre@[k] <= 4 * k,
                    forall|k: int, l: int| 0 <= k <= l <= n ==> pre@[k] <= pre@[l],
                    forall|k: int| 0 <= k < 4 * (n + 1) ==> #[trigger] dp@[k] < 2000000,
                decreases 4 - mode,
            {
                let mut size: usize = 1;
                while idx + size <= n && elig[(idx + size - 1) * 4 + mode]
                    invariant
                        mode < 4,
                        1 <= size <= n + 1,
                        idx + size <= n + 1,
                        idx < n,
                        n == chars@.len() <= 7100,
                        elig@.len() == 4 * n,
                        pre@.len() == n + 1,
                        dp@.len() == 4 * (n + 1),
                        nxt@.len() == 4 * (n + 1),
                        forall|k: int| 0 <= k <= n ==> 0 <= #[trigger] pre@[k] <= 4 * k,
                        forall|k: int, l: int| 0 <= k <= l <= n ==> pre@[k] <= pre@[l],
                        forall|k: int| 0 <= k < 4 * (n + 1) ==> #[trigger] dp@[k] < 2000000,
                    decreases n + 1 - size,
                {
                    let byte_len = pre[idx + size] - pre[idx];
                    let cost = get_data_size(mode as u8, size, byte_len);
                    let mut nm: usize = 0;
                    while nm < 4
                        invariant
                            nm <= 4,
                            mode < 4,
                            1 <= size,
                            idx + size <= n,
                            n == chars@.len() <= 7100,
                            cost <= 8 * 32000,
                            elig@.len() == 4 * n,
                            pre@.len() == n + 1,
                            dp@.len() == 4 * (n + 1),
                            nxt@.len() == 4 * (n + 1),
                            forall|k: int| 0 <= k <= n ==> 0 <= #[trigger] pre@[k] <= 4 * k,
                            forall|k: int, l: int| 0 <= k <= l <= n ==> pre@[k] <= pre@[l],
                            forall|k: int| 0 <= k < 4 * (n + 1) ==> #[trigger] dp@[k] < 2000000,
                        decreases 4 - nm,
                    {
                        let base = dp[(idx + size) * 4 + nm];
                        if base < 1000000 {
                            let switch: usize = if nm == mode {
                                0
                            } else {
                                4
                            };
                            let total = cost + switch + base;
                            if total < dp[idx * 4 + mode] {
                                dp.set(idx * 4 + mode, total);
                                nxt.set(idx * 4 + mode, Some((idx + size, nm)));
                            }
                        }
                        nm = nm + 1;
                    }
                    size = size + 1;
                }
                mode = mode + 1;
            }
            ii = ii - 1;
        }

        // Pick the cheapest starting mode, lowest index on a tie.
        let mut start_mode: usize = 0;
        let mut best = dp[0];
        let mut m: usize = 1;
        while m < 4
            invariant
                m <= 4,
                start_mode < m,
                dp@.len() == 4 * (n + 1),
                n <= 7100,
                best == dp@[start_mode as int],
            decreases 4 - m,
        {
            if dp[m] < best {
                best = dp[m];
                start_mode = m;
            }
            m = m + 1;
        }

        // Walk the chain and collapse same-mode runs into segments.
        let mut plan: Vec<(u16, u8)> = Vec::new();
        let mut pos: usize = 0;
        let mut mode = start_mode;
        let mut seg_start: usize = 0;
        let mut seg_mode = start_mode;
        let mut ok = true;
        while pos < n
            invariant
                pos <= n,
                n == chars@.len() <= 7100,
                mode < 4,
                seg_mode < 4,
                seg_start <= pos,
                dp@.len() == 4 * (n + 1),
                nxt@.len() == 4 * (n + 1),
            decreases n - pos,
        {
            match nxt[pos * 4 + mode] {
                Some(step) => {
                    let (j, nm) = step;
                    if j <= pos || j > n || nm >= 4 {
                        ok = false;
                        break;
                    }
                    if nm != mode && j < n {
                        // A mode switch at j: close the current run there.
                        plan.push(((j - seg_start) as u16, seg_mode as u8));
                        seg_start = j;
                        seg_mode = nm;
                    }
                    pos = j;
                    mode = nm;
                },
                None => {
                    ok = false;
                    break;
                },
            }
        }
        if ok && pos == n && seg_start < n {
            plan.push(((n - seg_start) as u16, seg_mode as u8));
        }

        // Validate the plan: lengths positive and summing to the character
        // count, every character eligible for its segment's mode; on any
        // mismatch fall back to one byte segment, which always qualifies.
        let mut total: usize = 0;
        let mut good = ok;
        let mut i: usize = 0;
        while i < plan.len()
            invariant
                i <= plan@.len(),
                n == chars@.len() <= 7100,
                total <= n,
                good ==> total == spec_plan_len(plan@.take(i as int)),
                good ==> forall|k: int|
                    0 <= k < i ==> 1 <= (#[trigger] plan@[k]).0 && plan@[k].1 < 4,
                good ==> forall|k: int|
                    0 <= k < i ==> spec_mode_eligible(
                        (#[trigger] plan@[k]).1 as int,
                        chars@,
                        spec_plan_len(plan@.take(k)),
                        plan@[k].0 as int,
                    ),
            decreases plan@.len() - i,
        {
            let (l, md) = plan[i];
            if l == 0 || md >= 4 {
                good = false;
            }
            if total + (l as usize) > n {
                good = false;
                total = 0;
            } else {
                if good {
                    let mut k = total;
                    while k < total + (l as usize)
                        invariant
                            total <= k <= total + l as usize,
                            total + l as usize <= n == chars@.len(),
                            md < 4,
                            good ==> forall|k0: int|
                                total <= k0 < k ==> spec_char_elig(
                                    md as int,
                                    #[trigger] chars@[k0],
                                ),
                        decreases total + l as usize - k,
                    {
                        if !char_eligible(md, chars[k]) {
                            good = false;
                        }
                        k = k + 1;
                    }
                }
                proof {
                    if good {
                        assert(spec_mode_eligible(md as int, chars@, total as int, l as int));
                    }
                }
                total = total + l as usize;
            }
            proof {
                if good {
                    lemma_plan_len_push(plan@.take(i as int), plan@[i as int]);
                    assert(plan@.take(i as int).push(plan@[i as int]) =~= plan@.take(
                        (i + 1) as int,
                    ));
                }
            }
            i = i + 1;
        }
        proof {
            assert(plan@.take(plan@.len() as int) =~= plan@);
        }
        if !good || total != n {
            plan = Vec::new();
            plan.push((n as u16, 2));
            proof {
                assert(plan@.drop_first() =~= Seq::<(u16, u8)>::empty());
                assert(spec_plan_len(plan@.drop_first()) == 0);
            }
        }
        proof {
            assert(spec_plan_ok(plan@, n as int));
            assert(spec_plan_eligible(plan@, chars@));
        }

        let (version1, eci1) = self.pick_version(&plan, chars);
        if version1 <= 40 {
            return (version1, plan, eci1);
        }

        // No version holds this plan; a single byte segment can still fit
        // where the plan's many count indicators pushed it over, so try it
        // before giving up.
        let mut fb: Vec<(u16, u8)> = Vec::new();
        fb.push((n as u16, 2));
        proof {
            assert(fb@.drop_first() =~= Seq::<(u16, u8)>::empty());
            assert(spec_plan_len(fb@.drop_first()) == 0);
            assert(spec_plan_ok(fb@, n as int));
            assert(fb@ =~= seq![(n as u16, 2u8)]);
        }
        let (version2, eci2) = self.pick_version(&fb, chars);
        (version2, fb, eci2)
    }

    /// Detect whether the plan owes an extended channel interpretation
    /// header, then fit the version in stages; the result is exactly
    /// `spec_plan_version` for this plan.
    fn pick_version(&self, plan: &Vec<(u16, u8)>, chars: &Vec<char>) -> (r: (u8, bool))
        requires
            chars@.len() <= 7100,
            1 <= self.flag.min_vers <= 40,
            spec_plan_ok(plan@, chars@.len() as int),
        ensures
            r.1 == spec_plan_eci(plan@, chars@),
            r.0 as int == spec_plan_version(
                plan@,
                chars@,
                r.1,
                self.flag.min_vers,
                self.flag.ecc,
            ),
            r.0 >= self.flag.min_vers,
            r.0 <= 40 ==> spec_capacity_bits(self.flag.ecc, r.0 as int) >= spec_plan_bits(
                plan@,
                chars@,
                spec_widths(r.0 as int).0,
                spec_widths(r.0 as int).1,
                spec_widths(r.0 as int).2,
                spec_widths(r.0 as int).3,
                plan@.len() as int,
            ) + (if r.1 {
                12int
            } else {
                0int
            }),
    {
        let n = chars.len();
        proof {
            lemma_plan_len_nonneg(plan@);
        }

        // Whether a byte segment holds a character outside ASCII: then an
        // ECI header announcing UTF-8 is emitted and budgeted for.
        let mut eci = false;
        let mut i: usize = 0;
        let mut at: usize = 0;
        while i < plan.len()
            invariant
                i <= plan@.len(),
                at <= n == chars@.len() <= 7100,
                spec_plan_ok(plan@, n as int),
                at == spec_plan_len(plan@.take(i as int)),
                eci == exists|j: int|
                    0 <= j < i && (#[trigger] plan@[j]).1 == 2 && spec_seg_nonascii(
                        chars@,
                        spec_plan_len(plan@.take(j)),
                        plan@[j].0 as int,
                    ),
            decreases plan@.len() - i,
        {
            let (l, md) = plan[i];
            proof {
                lemma_plan_len_parts(plan@, i as int);
                lemma_plan_len_parts(plan@.skip(i as int), 1);
                assert(plan@.skip(i as int).take(1).drop_first() =~= Seq::<(u16, u8)>::empty());
                assert(plan@.skip(i as int).take(1)[0] == plan@[i as int]);
                assert(plan@.skip(i as int).skip(1) =~= plan@.skip(i + 1));
                lemma_plan_len_nonneg(plan@.skip(i + 1));
                lemma_plan_len_push(plan@.take(i as int), plan@[i as int]);
                assert(plan@.take(i as int).push(plan@[i as int]) =~= plan@.take((i + 1) as int));
            }
            let len = l as usize;
            let ghost eci_in = eci;
            if md == 2 {
                let mut found = false;
                let mut k = at;
                while k < at + len
                    invariant
                        at <= k <= at + len,
                        at + len <= n == chars@.len(),
                        found == spec_seg_nonascii(chars@, at as int, (k - at) as int),
                    decreases at + len - k,
                {
                    let ghost found_in = found;
                    if chars[k] as u32 > 127 {
                        found = true;
                    }
                    proof {
                        if found {
                            if found_in {
                                let k0 = choose|k0: int|
                                    at <= k0 < k && (#[trigger] chars@[k0]) as u32 > 127;
                                assert(at <= k0 < k + 1 && chars@[k0] as u32 > 127);
                            } else {
                                assert(at <= k < k + 1 && chars@[k as int] as u32 > 127);
                            }
                            assert(spec_seg_nonascii(chars@, at as int, (k + 1 - at) as int));
                        } else {
                            assert forall|k0: int| at <= k0 < k + 1 implies !((
                            #[trigger] chars@[k0]) as u32 > 127) by {}
                        }
                    }
                    k = k + 1;
                }
                if found {
                    eci = true;
                }
                proof {
                    if eci {
                        if found {
                            assert((#[trigger] plan@[i as int]).1 == 2 && spec_seg_nonascii(
                                chars@,
                                spec_plan_len(plan@.take(i as int)),
                                plan@[i as int].0 as int,
                            ));
                        } else {
                            let j0 = choose|j: int|
                                0 <= j < i && (#[trigger] plan@[j]).1 == 2 && spec_seg_nonascii(
                                    chars@,
                                    spec_plan_len(plan@.take(j)),
                                    plan@[j].0 as int,
                                );
                            assert(0 <= j0 < i + 1 && plan@[j0].1 == 2 && spec_seg_nonascii(
                                chars@,
                                spec_plan_len(plan@.take(j0)),
                                plan@[j0].0 as int,
                            ));
                        }
                    }
                }
            } else {
                proof {
                    if eci {
                        let j0 = choose|j: int|
                            0 <= j < i && (#[trigger] plan@[j]).1 == 2 && spec_seg_nonascii(
                                chars@,
                                spec_plan_len(plan@.take(j)),
                                plan@[j].0 as int,
                            );
                        assert(0 <= j0 < i + 1 && plan@[j0].1 == 2 && spec_seg_nonascii(
                            chars@,
                            spec_plan_len(plan@.take(j0)),
                            plan@[j0].0 as int,
                        ));
                    }
                }
            }
            at = at + len;
            i = i + 1;
        }
        proof {
            assert(plan@.take(plan@.len() as int) =~= plan@);
        }
        let eci_bits: usize = if eci {
            12
        } else {
            0
        };

        // Fit the version in stages: widest count indicators first, then
        // tighter ones when a small enough version is in reach.
        let c0 = self.plan_bits(&plan, chars, 14, 13, 16, 12);
        let v0 = qr_version_query(&self.flag.ecc, c0 + eci_bits);
        let mut chosen: u8 = v0;
        let mut c1: usize = c0;
        let mut v1: u8 = v0;
        if v0 <= 26 {
            c1 = self.plan_bits(&plan, chars, 12, 11, 16, 10);
            v1 = qr_version_query(&self.flag.ecc, c1 + eci_bits);
            proof {
                lemma_plan_bits_mono(
                    plan@,
                    chars@,
                    12,
                    11,
                    16,
                    10,
                    14,
                    13,
                    16,
                    12,
                    plan@.len() as int,
                );
            }
            if v1 <= 9 {
                let c2 = self.plan_bits(&plan, chars, 10, 9, 8, 8);
                let v2 = qr_version_query(&self.flag.ecc, c2 + eci_bits);
                proof {
                    lemma_plan_bits_mono(
                        plan@,
                        chars@,
                        10,
                        9,
                        8,
                        8,
                        12,
                        11,
                        16,
                        10,
                        plan@.len() as int,
                    );
                }
                chosen = v2;
            } else {
                chosen = v1;
            }
        }
        let version = if chosen < self.flag.min_vers {
            self.flag.min_vers
        } else {
            chosen
        };
        proof {
            assert(chosen as int == spec_staged_version(
                plan@,
                chars@,
                eci_bits as int,
                self.flag.ecc,
            ));
            if version <= 40 {
                if version <= 9 {
                    crate::tables::lemma_capacity_monotone(
                        self.flag.ecc,
                        chosen as int,
                        version as int,
                    );
                } else if version <= 26 {
                    if v1 <= version {
                        crate::tables::lemma_capacity_monotone(
                            self.flag.ecc,
                            v1 as int,
                            version as int,
                        );
                    }
                } else {
                    if v0 <= version {
                        crate::tables::lemma_capacity_monotone(
                            self.flag.ecc,
                            v0 as int,
                            version as int,
                        );
                    }
                }
            }
        }
        (version, eci)
    }


    /// Total encoded bit count of a plan under the given character-count
    /// indicator widths, one per mode.
    fn plan_bits(
        &self,
        plan: &Vec<(u16, u8)>,
        chars: &Vec<char>,
        w0: usize,
        w1: usize,
        w2: usize,
        w3: usize,
    ) -> (r: usize)
        requires
            chars@.len() <= 7100,
            spec_plan_ok(plan@, chars@.len() as int),
            4 <= w0 <= 16 && 4 <= w1 <= 16 && 4 <= w2 <= 16 && 4 <= w3 <= 16,
        ensures
            r == spec_plan_bits(
                plan@,
                chars@,
                w0 as int,
                w1 as int,
                w2 as int,
                w3 as int,
                plan@.len() as int,
            ),
            r <= 500000,
    {
        let n = chars.len();
        proof {
            lemma_plan_len_nonneg(plan@);
        }
        let mut bits: usize = 0;
        let mut at: usize = 0;
        let mut i: usize = 0;
        while i < plan.len()
            invariant
                i <= plan@.len(),
                at <= n == chars@.len() <= 7100,
                spec_plan_ok(plan@, n as int),
                4 <= w0 <= 16 && 4 <= w1 <= 16 && 4 <= w2 <= 16 && 4 <= w3 <= 16,
                at == spec_plan_len(plan@.take(i as int)),
                bits == spec_plan_bits(
                    plan@,
                    chars@,
                    w0 as int,
                    w1 as int,
                    w2 as int,
                    w3 as int,
                    i as int,
                ),
                bits <= 20 * i + 32 * at,
                i <= at,
            decreases plan@.len() - i,
        {
            let (l, md) = plan[i];
            proof {
                lemma_plan_len_parts(plan@, i as int);
                lemma_plan_len_parts(plan@.skip(i as int), 1);
                assert(plan@.skip(i as int).take(1).drop_first() =~= Seq::<(u16, u8)>::empty());
                assert(plan@.skip(i as int).take(1)[0] == plan@[i as int]);
                assert(plan@.skip(i as int).skip(1) =~= plan@.skip(i + 1));
                lemma_plan_len_nonneg(plan@.skip(i + 1));
                lemma_plan_len_push(plan@.take(i as int), plan@[i as int]);
                assert(plan@.take(i as int).push(plan@[i as int]) =~= plan@.take((i + 1) as int));
                lemma_byte_count_bound(chars@, at as int, l as int);
            }
            let len: usize = l as usize;
            let mut blen: usize = 0;
            if md == 2 {
                let mut k = at;
                while k < at + len
                    invariant
                        at <= k <= at + len,
                        at + len <= n == chars@.len() <= 7100,
                        blen == spec_byte_count(chars@, at as int, (k - at) as int),
                        blen <= 4 * (k - at),
                    decreases at + len - k,
                {
                    proof {
                        lemma_byte_split(chars@, at as int, (k - at) as int, (k - at + 1) as int);
                        assert(spec_byte_count(chars@, k as int + 1, 0) == 0);
                    }
                    blen = blen + utf8_len(chars[k]);
                    k = k + 1;
                }
            }
            let width: usize = if md == 0 {
                w0
            } else if md == 1 {
                w1
            } else if md == 2 {
                w2
            } else {
                w3
            };
            let cost = get_data_size(if md < 4 {
                md
            } else {
                4
            }, len, blen);
            proof {
                assert(spec_seg_cost(md as int, len as int, blen as int) <= 32 * len);
            }
            bits = bits + 4 + width + cost;
            at = at + len;
            i = i + 1;
        }
        proof {
            assert(plan@.take(plan@.len() as int) =~= plan@);
        }
        bits
    }
}



/// The cost the planner assigns a segment is exactly the bit length of the
/// payload its encoder emits.
pub proof fn lemma_seg_cost_is_payload_len(chars: Seq<char>, s: int, l: int)
    requires
        0 <= l,
    ensures
        crate::encoder::numeric_payload(chars, s, l).len() == spec_seg_cost(0, l, 0),
        crate::encoder::alphanum_payload(chars, s, l).len() == spec_seg_cost(1, l, 0),
        crate::encoder::byte_payload(chars, s, l).len() == spec_seg_cost(
            2,
            l,
            spec_byte_count(chars, s, l),
        ),
        crate::encoder::kanji_payload(chars, s, l).len() == spec_seg_cost(3, l, 0),
{
    crate::encoder::lemma_numeric_payload_len(chars, s, l);
    crate::encoder::lemma_alphanum_payload_len(chars, s, l);
    crate::encoder::lemma_byte_payload_len(chars, s, l);
    crate::encoder::lemma_kanji_payload_len(chars, s, l);
}


/// Plan length sums split around an index.
proof fn lemma_plan_len_parts(plan: Seq<(u16, u8)>, i: int)
    requires
        0 <= i <= plan.len(),
    ensures
        spec_plan_len(plan) == spec_plan_len(plan.take(i)) + spec_plan_len(plan.skip(i)),
    decreases i,
{
    if i == 0 {
        assert(plan.take(0) =~= Seq::<(u16, u8)>::empty());
        assert(plan.skip(0) =~= plan);
    } else {
        lemma_plan_len_parts(plan.drop_first(), i - 1);
        assert(plan.take(i).drop_first() =~= plan.drop_first().take(i - 1));
        assert(plan.skip(i) =~= plan.drop_first().skip(i - 1));
        assert(spec_plan_len(plan.take(i)) == plan[0].0 + spec_plan_len(
            plan.drop_first().take(i - 1),
        ));
    }
}

/// Plan length sums are not negative.
proof fn lemma_plan_len_nonneg(plan: Seq<(u16, u8)>)
    ensures
        spec_plan_len(plan) >= 0,
    decreases plan.len(),
{
    if plan.len() > 0 {
        lemma_plan_len_nonneg(plan.drop_first());
    }
}

/// A slice takes at most four UTF-8 bytes per character.
proof fn lemma_byte_count_bound(chars: Seq<char>, s: int, l: int)
    requires
        l >= 0,
    ensures
        0 <= spec_byte_count(chars, s, l) <= 4 * l,
{
    crate::encoder::lemma_byte_payload_len(chars, s, l);
}

/// The character-count indicator widths of the four modes at a version.
pub open spec fn spec_widths(version: int) -> (int, int, int, int) {
    if version <= 9 {
        (10int, 9int, 8int, 8int)
    } else if version <= 26 {
        (12int, 11int, 16int, 10int)
    } else {
        (14int, 13int, 16int, 12int)
    }
}

/// Bits of one planned segment: mode indicator, count indicator, payload.
pub open spec fn spec_seg_bits(
    plan: Seq<(u16, u8)>,
    chars: Seq<char>,
    w0: int,
    w1: int,
    w2: int,
    w3: int,
    k: int,
) -> int {
    let l = plan[k].0 as int;
    let md = plan[k].1 as int;
    let at = spec_plan_len(plan.take(k));
    let w = if md == 0 {
        w0
    } else if md == 1 {
        w1
    } else if md == 2 {
        w2
    } else {
        w3
    };
    4 + w + spec_seg_cost(md, l, spec_byte_count(chars, at, l))
}

/// Total encoded bits of the first `i` planned segments under the given
/// count-indicator widths.
pub open spec fn spec_plan_bits(
    plan: Seq<(u16, u8)>,
    chars: Seq<char>,
    w0: int,
    w1: int,
    w2: int,
    w3: int,
    i: int,
) -> int
    decreases i,
{
    if i <= 0 {
        0
    } else {
        spec_plan_bits(plan, chars, w0, w1, w2, w3, i - 1) + spec_seg_bits(
            plan,
            chars,
            w0,
            w1,
            w2,
            w3,
            i - 1,
        )
    }
}

/// Wider count indicators never lower the total.
proof fn lemma_plan_bits_mono(
    plan: Seq<(u16, u8)>,
    chars: Seq<char>,
    a0: int,
    a1: int,
    a2: int,
    a3: int,
    b0: int,
    b1: int,
    b2: int,
    b3: int,
    i: int,
)
    requires
        a0 <= b0,
        a1 <= b1,
        a2 <= b2,
        a3 <= b3,
    ensures
        spec_plan_bits(plan, chars, a0, a1, a2, a3, i) <= spec_plan_bits(
            plan,
            chars,
            b0,
            b1,
            b2,
            b3,
            i,
        ),
    decreases i,
{
    if i > 0 {
        lemma_plan_bits_mono(plan, chars, a0, a1, a2, a3, b0, b1, b2, b3, i - 1);
    }
}



/// The bits one planned segment appends: its mode's indicator, count and
/// payload.
pub open spec fn spec_seg_encoding(
    plan: Seq<(u16, u8)>,
    chars: Seq<char>,
    version: u8,
    i: int,
) -> Seq<bool> {
    let l = plan[i].0 as int;
    let md = plan[i].1 as int;
    let at = spec_plan_len(plan.take(i));
    if md == 0 {
        NumeralEncoder::spec_encoding(chars, at, l, version)
    } else if md == 1 {
        AlphanumEncoder::spec_encoding(chars, at, l, version)
    } else if md == 3 {
        KanjiEncoder::spec_encoding(chars, at, l, version)
    } else {
        BytesEncoder::spec_encoding(chars, at, l, version)
    }
}

/// The bits of the first `i` planned segments, in order.
pub open spec fn spec_plan_stream(
    plan: Seq<(u16, u8)>,
    chars: Seq<char>,
    version: u8,
    i: int,
) -> Seq<bool>
    decreases i,
{
    if i <= 0 {
        Seq::empty()
    } else {
        spec_plan_stream(plan, chars, version, i - 1) + spec_seg_encoding(
            plan,
            chars,
            version,
            i - 1,
        )
    }
}

/// The extended channel interpretation header announcing UTF-8.
pub open spec fn spec_eci_header() -> Seq<bool> {
    crate::bitstream::bits_of(0b0111, 4) + crate::bitstream::bits_of(26, 8)
}

/// The whole encoded bit stream of a plan: the ECI header when owed, then
/// every segment.
pub open spec fn spec_encoded_bits(
    plan: Seq<(u16, u8)>,
    chars: Seq<char>,
    version: u8,
    eci: bool,
) -> Seq<bool> {
    (if eci {
        spec_eci_header()
    } else {
        Seq::empty()
    }) + spec_plan_stream(plan, chars, version, plan.len() as int)
}

/// The stream with its terminator: up to four zero bits, clipped to the
/// capacity.
pub open spec fn spec_terminated(bits: Seq<bool>, cap: int) -> Seq<bool> {
    if bits.len() >= cap {
        bits
    } else {
        bits + Seq::new(
            (if cap - bits.len() < 4 {
                cap - bits.len()
            } else {
                4int
            }) as nat,
            |j: int| false,
        )
    }
}

/// The data codewords: the stream packed into bytes, then pad bytes
/// alternating 0xEC and 0x11 up to the capacity.
pub open spec fn spec_padded_bytes(bits: Seq<bool>, cap_bytes: int) -> Seq<u8> {
    let sb = crate::bitstream::spec_stream_bytes(bits);
    if sb.len() >= cap_bytes {
        sb
    } else {
        sb + Seq::new(
            (cap_bytes - sb.len()) as nat,
            |j: int|
                if j % 2 == 0 {
                    0xECu8
                } else {
                    0x11u8
                },
        )
    }
}

/// The data blocks: consecutive slices of the data codewords, sized by the
/// block layout.
pub open spec fn spec_data_blocks(bytes: Seq<u8>, layout: Seq<(u16, u16)>) -> Seq<Seq<u8>> {
    Seq::new(
        layout.len(),
        |t: int|
            bytes.subrange(
                sum_data_len(layout.take(t)),
                sum_data_len(layout.take(t)) + layout[t].0 as int,
            ),
    )
}

/// The error-correction block of each data block.
pub open spec fn spec_err_blocks(datas: Seq<Seq<u8>>, ecc_len: nat) -> Seq<Seq<u8>> {
    Seq::new(datas.len(), |t: int| crate::ecc::spec_rs_remainder(datas[t], ecc_len))
}

/// The interleaved codeword stream of a plan at a version: encode, pad,
/// split into blocks, extend each with its Reed-Solomon codewords, then
/// read data and error blocks column-major.
pub open spec fn spec_codewords(
    plan: Seq<(u16, u8)>,
    chars: Seq<char>,
    version: int,
    eci: bool,
    ecc: ECCLevel,
) -> Seq<u8> {
    let bits = spec_terminated(
        spec_encoded_bits(plan, chars, version as u8, eci),
        spec_capacity_bits(ecc, version),
    );
    let db = spec_padded_bytes(bits, spec_capacity_bits(ecc, version) / 8);
    let datas = spec_data_blocks(db, spec_block_layout(ecc, version));
    let errs = spec_err_blocks(datas, spec_ecc_codewords(ecc, version) as nat);
    spec_interleave(datas) + spec_interleave(errs)
}

/// When version forty holds the single-byte-segment encoding with room for
/// the ECI header, the planner's fallback version is at most forty.
proof fn lemma_byteplan_version_fits(chars: Seq<char>, min_vers: u8, ecc: ECCLevel)
    requires
        1 <= min_vers <= 40,
        1 <= chars.len() <= 7100,
        spec_capacity_bits(ecc, 40) >= 8 * spec_byte_count(chars, 0, chars.len() as int) + 32,
    ensures
        spec_plan_version(
            seq![(chars.len() as u16, 2u8)],
            chars,
            spec_plan_eci(seq![(chars.len() as u16, 2u8)], chars),
            min_vers,
            ecc,
        ) <= 40,
{
    let plan = seq![(chars.len() as u16, 2u8)];
    let n = chars.len() as int;
    let e: int = if spec_plan_eci(plan, chars) {
        12
    } else {
        0
    };
    assert(plan.take(0) =~= Seq::<(u16, u8)>::empty());
    assert(spec_plan_len(plan.take(0)) == 0);
    assert(spec_plan_bits(plan, chars, 14, 13, 16, 12, 0) == 0);
    assert(spec_plan_bits(plan, chars, 12, 11, 16, 10, 0) == 0);
    assert(spec_plan_bits(plan, chars, 10, 9, 8, 8, 0) == 0);
    let count = spec_byte_count(chars, 0, n);
    crate::encoder::lemma_byte_payload_len(chars, 0, n);
    let c0 = spec_plan_bits(plan, chars, 14, 13, 16, 12, 1);
    assert(c0 == 20 + 8 * count);
    crate::tables::lemma_min_version_characterized(ecc, c0 + e);
    let v0 = crate::tables::spec_min_version(ecc, c0 + e);
    assert(v0 <= 40);
    if v0 <= 26 {
        let c1 = spec_plan_bits(plan, chars, 12, 11, 16, 10, 1);
        lemma_plan_bits_mono(plan, chars, 12, 11, 16, 10, 14, 13, 16, 12, 1);
        crate::tables::lemma_min_version_mono(ecc, c1 + e, c0 + e);
        let v1 = crate::tables::spec_min_version(ecc, c1 + e);
        if v1 <= 9 {
            let c2 = spec_plan_bits(plan, chars, 10, 9, 8, 8, 1);
            lemma_plan_bits_mono(plan, chars, 10, 9, 8, 8, 12, 11, 16, 10, 1);
            crate::tables::lemma_min_version_mono(ecc, c2 + e, c1 + e);
        }
    }
}

/// Sums of block data lengths split around an index.
proof fn lemma_sum_data_parts(blocks: Seq<(u16, u16)>, i: int)
    requires
        0 <= i <= blocks.len(),
    ensures
        sum_data_len(blocks) == sum_data_len(blocks.take(i)) + sum_data_len(blocks.skip(i)),
    decreases i,
{
    if i == 0 {
        assert(blocks.take(0) =~= Seq::<(u16, u16)>::empty());
        assert(blocks.skip(0) =~= blocks);
    } else {
        lemma_sum_data_parts(blocks.drop_first(), i - 1);
        assert(blocks.take(i).drop_first() =~= blocks.drop_first().take(i - 1));
        assert(blocks.skip(i) =~= blocks.drop_first().skip(i - 1));
        assert(sum_data_len(blocks.take(i)) == blocks[0].0 + sum_data_len(
            blocks.drop_first().take(i - 1),
        ));
    }
}

/// Sums of block data lengths are not negative.
proof fn lemma_sum_data_nonneg(blocks: Seq<(u16, u16)>)
    ensures
        sum_data_len(blocks) >= 0,
    decreases blocks.len(),
{
    if blocks.len() > 0 {
        lemma_sum_data_nonneg(blocks.drop_first());
    }
}

impl Generator {
    /// Run the whole pipeline on the stored text: plan segments, pick the
    /// version, encode, pad, split into blocks, add the Reed-Solomon
    /// codewords, interleave, and build the masked symbol.
    #[verifier::rlimit(100)]
    pub fn encode(&self) -> (r: Result<QRCode, QrError>)
        ensures
            r == Result::<QRCode, QrError>::Err(QrError::EmptyInput) <==> self.text@.len() == 0,
            self.text@.len() > 0 && !(1 <= self.flag.min_vers <= 40) <==> r == Result::<
                QRCode,
                QrError,
            >::Err(QrError::InvalidMinVersion),
            r matches Ok(q) ==> q.wf() && 1 <= self.flag.min_vers <= 40 && q.spec_version()
                >= self.flag.min_vers,
            r != Result::<QRCode, QrError>::Err(QrError::EncodingFailure),
            (0 < self.text@.len() <= 7100 && 1 <= self.flag.min_vers <= 40
                && spec_capacity_bits(self.flag.ecc, 40) >= 8 * spec_byte_count(
                self.text@,
                0,
                self.text@.len() as int,
            ) + 32) ==> r is Ok,
            (self.flag.bytes && 0 < self.text@.len() <= 7100 && 1 <= self.flag.min_vers <= 40
                && exists|v: int|
                self.flag.min_vers <= v <= 40 && #[trigger] spec_capacity_bits(self.flag.ecc, v)
                    >= 8 * spec_byte_count(self.text@, 0, self.text@.len() as int) + 20) ==> r
                is Ok,
            r matches Ok(q) ==> exists|plan: Seq<(u16, u8)>, version: int, eci: bool|
                #![trigger spec_codewords(plan, self.text@, version, eci, self.flag.ecc)]
                {
                    &&& spec_plan_ok(plan, self.text@.len() as int)
                    &&& spec_plan_eligible(plan, self.text@)
                    &&& 1 <= version <= 40
                    &&& version >= self.flag.min_vers
                    &&& (!self.flag.bytes ==> eci == spec_plan_eci(plan, self.text@) && version
                        == spec_plan_version(plan, self.text@, eci, self.flag.min_vers, self.flag.ecc))
                    &&& (self.flag.bytes ==> plan =~= seq![(self.text@.len() as u16, 2u8)] && !eci)
                    &&& q.spec_version() == version
                    &&& q.spec_data() == spec_codewords(plan, self.text@, version, eci, self.flag.ecc)
                },
    {
        let chars = str_chars(self.text.as_str());
        let n = chars.len();
        if n == 0 {
            return Err(QrError::EmptyInput);
        }
        if self.flag.min_vers < 1 || self.flag.min_vers > 40 {
            return Err(QrError::InvalidMinVersion);
        }
        if n > 7100 {
            return Err(QrError::InputTooLarge);
        }

        let (version, plan, eci) = self.get_version(&chars);
        if version > 40 {
            proof {
                if 1 <= self.flag.min_vers <= 40 && spec_capacity_bits(self.flag.ecc, 40) >= 8
                    * spec_byte_count(self.text@, 0, self.text@.len() as int) + 32 {
                    if !self.flag.bytes {
                        lemma_byteplan_version_fits(chars@, self.flag.min_vers, self.flag.ecc);
                        assert(false);
                    } else {
                        crate::tables::lemma_min_version_characterized(
                            self.flag.ecc,
                            8 * spec_byte_count(chars@, 0, n as int) + 20,
                        );
                        assert(false);
                    }
                }
            }
            return Err(QrError::InputTooLarge);
        }

        let ghost planw: Seq<(u16, u8)> = if self.flag.bytes {
            seq![(n as u16, 2u8)]
        } else {
            plan@
        };
        let mut stream = BitStream::new();
        if eci {
            // Extended channel interpretation header announcing UTF-8.
            stream.push_bits(0b0111, 4);
            stream.push_bits(26, 8);
        }
        proof {
            if eci {
                assert(stream@ =~= spec_eci_header());
            } else {
                assert(stream@ =~= Seq::<bool>::empty());
            }
        }

        if self.flag.bytes {
            match BytesEncoder::encode(&chars, 0, n, &mut stream, version) {
                Ok(()) => {},
                Err(e) => {
                    proof {
                        assert(false);
                    }
                    return Err(e);
                },
            }
            proof {
                crate::encoder::lemma_byte_payload_len(chars@, 0, n as int);
                assert(stream@.len() == 4 + crate::encoder::spec_count_bits_byte(version) + 8
                    * spec_byte_count(chars@, 0, n as int));
                assert(planw.take(0) =~= Seq::<(u16, u8)>::empty());
                assert(spec_plan_len(planw.take(0)) == 0);
                assert(spec_plan_stream(planw, chars@, version, 0) == Seq::<bool>::empty());
                assert(stream@ =~= spec_encoded_bits(planw, chars@, version, eci));
            }
        } else {
            proof {
                lemma_plan_len_nonneg(plan@);
            }
            let ghost w = spec_widths(version as int);
            let mut at: usize = 0;
            let mut i: usize = 0;
            while i < plan.len()
                invariant
                    i <= plan@.len(),
                    at <= n == chars@.len() <= 7100,
                    chars@ == self.text@,
                    !self.flag.bytes,
                    spec_plan_ok(plan@, n as int),
                    1 <= self.flag.min_vers <= 40,
                    1 <= version <= 40,
                    w == spec_widths(version as int),
                    spec_plan_eligible(plan@, chars@),
                    planw == plan@,
                    at == spec_plan_len(plan@.take(i as int)),
                    i <= at,
                    stream.wf(),
                    stream@ == (if eci {
                        spec_eci_header()
                    } else {
                        Seq::<bool>::empty()
                    }) + spec_plan_stream(plan@, chars@, version, i as int),
                    stream@.len() == (if eci {
                        12int
                    } else {
                        0int
                    }) + spec_plan_bits(plan@, chars@, w.0, w.1, w.2, w.3, i as int),
                    stream@.len() <= 12 + 20 * i + 32 * at,
                decreases plan@.len() - i,
            {
                let (l, md) = plan[i];
                proof {
                    lemma_plan_len_parts(plan@, i as int);
                    lemma_plan_len_parts(plan@.skip(i as int), 1);
                    assert(plan@.skip(i as int).take(1).drop_first() =~= Seq::<
                        (u16, u8),
                    >::empty());
                    assert(plan@.skip(i as int).take(1)[0] == plan@[i as int]);
                    assert(plan@.skip(i as int).skip(1) =~= plan@.skip(i + 1));
                    lemma_plan_len_nonneg(plan@.skip(i + 1));
                    lemma_plan_len_push(plan@.take(i as int), plan@[i as int]);
                    assert(plan@.take(i as int).push(plan@[i as int]) =~= plan@.take(
                        (i + 1) as int,
                    ));
                }
                let len: usize = l as usize;
                proof {
                    assert(spec_mode_eligible(
                        (#[trigger] plan@[i as int]).1 as int,
                        chars@,
                        spec_plan_len(plan@.take(i as int)),
                        plan@[i as int].0 as int,
                    ));
                    if md == 0 {
                        assert forall|k: int|
                            at <= k < at + len implies spec_is_digit(#[trigger] chars@[k]) by {
                            assert(spec_char_elig(0, chars@[k]));
                        }
                    } else if md == 1 {
                        assert forall|k: int|
                            at <= k < at + len implies spec_alphanum_value(
                            #[trigger] chars@[k],
                        ) is Some by {
                            assert(spec_char_elig(1, chars@[k]));
                        }
                    } else if md == 3 {
                        assert forall|k: int|
                            at <= k < at + len implies spec_is_kanji(#[trigger] chars@[k]) by {
                            assert(spec_char_elig(3, chars@[k]));
                        }
                    }
                }
                let res = if md == 0 {
                    NumeralEncoder::encode(&chars, at, len, &mut stream, version)
                } else if md == 1 {
                    AlphanumEncoder::encode(&chars, at, len, &mut stream, version)
                } else if md == 3 {
                    KanjiEncoder::encode(&chars, at, len, &mut stream, version)
                } else {
                    BytesEncoder::encode(&chars, at, len, &mut stream, version)
                };
                match res {
                    Ok(()) => {},
                    Err(e) => {
                        proof {
                            assert(false);
                        }
                        return Err(e);
                    },
                }
                proof {
                    crate::encoder::lemma_numeric_payload_len(chars@, at as int, len as int);
                    crate::encoder::lemma_alphanum_payload_len(chars@, at as int, len as int);
                    crate::encoder::lemma_byte_payload_len(chars@, at as int, len as int);
                    crate::encoder::lemma_kanji_payload_len(chars@, at as int, len as int);
                    assert(stream@ =~= (if eci {
                        spec_eci_header()
                    } else {
                        Seq::<bool>::empty()
                    }) + spec_plan_stream(plan@, chars@, version, (i + 1) as int));
                }
                at = at + len;
                i = i + 1;
            }
            proof {
                assert(plan@.take(plan@.len() as int) =~= plan@);
                assert(stream@ =~= spec_encoded_bits(planw, chars@, version, eci));
            }
        }

        // Terminator: up to four zero bits, clipped to what remains.
        let cap = qr_capacity_query(&self.flag.ecc, version);
        proof {
            lemma_tables_ok(self.flag.ecc, version as int);
            if self.flag.bytes {
                assert(stream@.len() <= 8 * spec_byte_count(chars@, 0, n as int) + 20);
            }
        }
        proof {
            assert(stream@.len() <= cap);
        }
        let ghost bits1 = stream@;
        let used = stream.size();
        if used < cap as usize {
            let room = cap as usize - used;
            let t: u8 = if room < 4 {
                room as u8
            } else {
                4
            };
            stream.push_bits(0, t);
            proof {
                assert forall|j: int|
                    0 <= j < t implies !crate::bitstream::bits_of(0, t as nat)[j] by {
                    let e = (t - 1 - j) as u8;
                    assert((0u8 >> e) & 1 == 0) by (bit_vector);
                }
                assert(stream@ =~= spec_terminated(bits1, cap as int));
            }
        }
        proof {
            assert(stream@ == spec_terminated(bits1, cap as int));
        }
        let ghost slen = stream@.len();
        let ghost bits2 = stream@;
        let (mut data, _) = stream.consume();
        let ghost sb = data@;
        let cap_bytes = (cap / 8) as usize;
        proof {
            assert(data@.len() * 8 < slen + 8);
            assert(data@.len() <= cap_bytes);
        }

        // Pad bytes, alternating, up to the data capacity.
        let mut pad_ec = true;
        while data.len() < cap_bytes
            invariant
                cap_bytes <= 3706,
                sb.len() <= data@.len() <= cap_bytes,
                pad_ec == ((data@.len() - sb.len()) % 2 == 0),
                data@ == sb + Seq::new(
                    (data@.len() - sb.len()) as nat,
                    |j: int|
                        if j % 2 == 0 {
                            0xECu8
                        } else {
                            0x11u8
                        },
                ),
            decreases cap_bytes - data@.len(),
        {
            data.push(if pad_ec {
                0xEC
            } else {
                0x11
            });
            proof {
                assert(data@ =~= sb + Seq::new(
                    (data@.len() - sb.len()) as nat,
                    |j: int|
                        if j % 2 == 0 {
                            0xECu8
                        } else {
                            0x11u8
                        },
                ));
            }
            pad_ec = !pad_ec;
        }
        proof {
            assert(data@ =~= spec_padded_bytes(bits2, cap_bytes as int));
        }

        // Split into blocks, add the error correction, and interleave.
        let combined = build_blocks(&self.flag.ecc, version, &data);
        proof {
            let v = version as int;
            let ec = self.flag.ecc;
            assert(cap as int == spec_capacity_bits(ec, v));
            assert(cap_bytes as int == spec_capacity_bits(ec, v) / 8);
            assert(combined@ == spec_codewords(planw, chars@, v, eci, ec));
            if self.flag.bytes {
                assert(planw.drop_first() =~= Seq::<(u16, u8)>::empty());
                assert(spec_plan_len(planw.drop_first()) == 0);
                assert forall|k0: int|
                    0 <= k0 < planw.len() implies spec_mode_eligible(
                    (#[trigger] planw[k0]).1 as int,
                    chars@,
                    spec_plan_len(planw.take(k0)),
                    planw[k0].0 as int,
                ) by {}
            }
            assert(spec_plan_ok(planw, chars@.len() as int));
            assert(spec_plan_eligible(planw, chars@));
        }
        Ok(QRCode::new(combined, version, &self.flag.ecc))
    }
}

/// Split the data codewords into the version's blocks, compute each
/// block's Reed-Solomon codewords, and interleave data then error blocks
/// column-major.
fn build_blocks(ecc: &ECCLevel, version: u8, data: &Vec<u8>) -> (r: Vec<u8>)
    requires
        1 <= version <= 40,
        data@.len() == spec_capacity_bits(*ecc, version as int) / 8,
    ensures
        r@ == spec_interleave(
            spec_data_blocks(data@, spec_block_layout(*ecc, version as int)),
        ) + spec_interleave(
            spec_err_blocks(
                spec_data_blocks(data@, spec_block_layout(*ecc, version as int)),
                spec_ecc_codewords(*ecc, version as int) as nat,
            ),
        ),
        r@.len() <= 6136,
{
    let blocks = block_layout(ecc, version);
    proof {
        lemma_block_capacity(*ecc, version as int);
        lemma_tables_ok(*ecc, version as int);
    }
    let cap_bytes = data.len();
    let err = ErrorCorrection::new();
    let mut datas: Vec<Vec<u8>> = Vec::new();
    let mut errs: Vec<Vec<u8>> = Vec::new();
    let mut idx: usize = 0;
    let mut i: usize = 0;
    while i < blocks.len()
        invariant
            i <= blocks@.len() <= 81,
            err.wf(),
            blocks@ == spec_block_layout(*ecc, version as int),
            1 <= version <= 40,
            idx == sum_data_len(blocks@.take(i as int)),
            idx <= cap_bytes,
            sum_data_len(blocks@) == cap_bytes,
            cap_bytes == data@.len() <= 3706,
            datas@.len() == i,
            errs@.len() == i,
            spec_rows_len(datas.deep_view(), i as int) == idx,
            spec_rows_len(errs.deep_view(), i as int) <= 30 * i,
            forall|t: int|
                0 <= t < i ==> #[trigger] datas.deep_view()[t] == data@.subrange(
                    sum_data_len(blocks@.take(t)),
                    sum_data_len(blocks@.take(t)) + blocks@[t].0 as int,
                ),
            forall|t: int|
                0 <= t < i ==> #[trigger] errs.deep_view()[t]
                    == crate::ecc::spec_rs_remainder(
                    datas.deep_view()[t],
                    spec_ecc_codewords(*ecc, version as int) as nat,
                ),
            forall|k: int|
                0 <= k < blocks@.len() ==> (#[trigger] blocks@[k]).1
                    == crate::tables::spec_ecc_codewords(*ecc, version as int),
        decreases blocks@.len() - i,
    {
        let (dl, el) = blocks[i];
        proof {
            lemma_sum_data_parts(blocks@, i as int);
            lemma_sum_data_parts(blocks@.skip(i as int), 1);
            assert(blocks@.skip(i as int).take(1).drop_first() =~= Seq::<(u16, u16)>::empty());
            assert(blocks@.skip(i as int).take(1)[0] == blocks@[i as int]);
            assert(blocks@.skip(i as int).skip(1) =~= blocks@.skip(i + 1));
            lemma_sum_data_nonneg(blocks@.skip(i + 1));
            assert(blocks@.take(i + 1) =~= blocks@.take(i as int).push(blocks@[i as int]));
            lemma_plan_len_push_pair(blocks@.take(i as int), blocks@[i as int]);
            lemma_tables_ok(*ecc, version as int);
        }
        let mut block: Vec<u8> = Vec::new();
        let mut j: usize = 0;
        while j < dl as usize
            invariant
                j <= dl as usize,
                idx + dl as usize <= data@.len(),
                data@.len() <= 3706,
                block@ == data@.subrange(idx as int, (idx + j) as int),
            decreases dl as usize - j,
        {
            block.push(data[idx + j]);
            proof {
                assert(data@.subrange(idx as int, (idx + j + 1) as int) =~= data@.subrange(
                    idx as int,
                    (idx + j) as int,
                ).push(data@[(idx + j) as int]));
            }
            j = j + 1;
        }
        let e = err.calculate(&block, el as usize);
        let ghost dv_pre = datas.deep_view();
        let ghost ev_pre = errs.deep_view();
        let ghost blockv = block@;
        let ghost ev = e@;
        datas.push(block);
        errs.push(e);
        proof {
            assert(datas.deep_view() =~~= dv_pre.push(blockv));
            assert(errs.deep_view() =~~= ev_pre.push(ev));
            lemma_rows_len_prefix(datas.deep_view(), dv_pre, i as int);
            lemma_rows_len_prefix(errs.deep_view(), ev_pre, i as int);
        }
        idx = idx + dl as usize;
        i = i + 1;
    }

let combined = combine_data_err(&datas, &errs);
    proof {
        let v = version as int;
        assert(datas.deep_view() =~~= spec_data_blocks(data@, blocks@));
        assert(errs.deep_view() =~~= spec_err_blocks(
            datas.deep_view(),
            spec_ecc_codewords(*ecc, v) as nat,
        ));
        assert(combined@.len() <= 3706 + 30 * 81);
    }
    combined
}

/// Appending a block adds its data length to the sum.
proof fn lemma_plan_len_push_pair(blocks: Seq<(u16, u16)>, x: (u16, u16))
    ensures
        sum_data_len(blocks.push(x)) == sum_data_len(blocks) + x.0,
    decreases blocks.len(),
{
    if blocks.len() == 0 {
        assert(blocks.push(x).drop_first() =~= Seq::<(u16, u16)>::empty());
        assert(sum_data_len(Seq::<(u16, u16)>::empty()) == 0);
        assert(blocks.push(x)[0] == x);
    } else {
        lemma_plan_len_push_pair(blocks.drop_first(), x);
        assert(blocks.push(x).drop_first() =~= blocks.drop_first().push(x));
        assert(blocks.push(x)[0] == blocks[0]);
    }
}

} // verus!
