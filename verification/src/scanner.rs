//! The scanner's pure side: it holds the paths and formats the report of the
//! decoded contents; reading and decoding the image stay with the caller.
use vstd::prelude::*;

verus! {

/// Where to read the image and where to write the decoded text.
#[derive(Debug)]
pub struct Scanner {
    pub input: String,
    pub output: String,
}

impl Scanner {
    pub fn new(input: String, output: String) -> (r: Self)
        ensures
            r.input@ == input@,
            r.output@ == output@,
    {
        Self { input, output }
    }
}

/// The character of a decimal digit.
pub open spec fn spec_digit_char(d: int) -> char {
    if d == 0 {
        '0'
    } else if d == 1 {
        '1'
    } else if d == 2 {
        '2'
    } else if d == 3 {
        '3'
    } else if d == 4 {
        '4'
    } else if d == 5 {
        '5'
    } else if d == 6 {
        '6'
    } else if d == 7 {
        '7'
    } else if d == 8 {
        '8'
    } else {
        '9'
    }
}

/// Decimal form of a number, most significant digit first.
pub open spec fn spec_decimal(n: int) -> Seq<char>
    decreases n,
{
    if n < 10 {
        seq![spec_digit_char(n)]
    } else {
        spec_decimal(n / 10) + seq![spec_digit_char(n % 10)]
    }
}

/// String of one digit.
fn digit_str(d: usize) -> (r: &'static str)
    requires
        d < 10,
    ensures
        r@ == seq![spec_digit_char(d as int)],
{
    proof {
        reveal_strlit("0");
        reveal_strlit("1");
        reveal_strlit("2");
        reveal_strlit("3");
        reveal_strlit("4");
        reveal_strlit("5");
        reveal_strlit("6");
        reveal_strlit("7");
        reveal_strlit("8");
        reveal_strlit("9");
    }
    let r = if d == 0 {
        "0"
    } else if d == 1 {
        "1"
    } else if d == 2 {
        "2"
    } else if d == 3 {
        "3"
    } else if d == 4 {
        "4"
    } else if d == 5 {
        "5"
    } else if d == 6 {
        "6"
    } else if d == 7 {
        "7"
    } else if d == 8 {
        "8"
    } else {
        "9"
    };
    proof {
        assert(r@ =~= seq![spec_digit_char(d as int)]);
    }
    r
}

/// Decimal form of a number.
pub fn decimal_string(n: usize) -> (r: String)
    ensures
        r@ == spec_decimal(n as int),
    decreases n,
{
    if n < 10 {
        String::from_str(digit_str(n))
    } else {
        let mut s = decimal_string(n / 10);
        s.append(digit_str(n % 10));
        s
    }
}

/// The report of the decoded contents, first to last.
pub open spec fn spec_scan_report(cs: Seq<Seq<char>>, upto: int) -> Seq<char>
    decreases upto,
{
    if upto <= 0 {
        Seq::empty()
    } else {
        spec_scan_report(cs, upto - 1) + "Content #"@ + spec_decimal(upto - 1) + " ---\n"@ + cs[
            upto - 1]
    }
}

/// Format the report: a numbered header line before each decoded content.
pub fn scan_report(contents: &Vec<String>) -> (r: String)
    ensures
        r@ == spec_scan_report(contents.deep_view(), contents@.len() as int),
{
    let ghost cs = contents.deep_view();
    let mut r = String::new();
    let mut i: usize = 0;
    while i < contents.len()
        invariant
            i <= contents@.len(),
            cs == contents.deep_view(),
            cs.len() == contents@.len(),
            forall|k: int| 0 <= k < cs.len() ==> cs[k] == contents@[k]@,
            r@ == spec_scan_report(cs, i as int),
        decreases contents@.len() - i,
    {
        r.append("Content #");
        let num = decimal_string(i);
        r.append(num.as_str());
        r.append(" ---\n");
        r.append(contents[i].as_str());
        proof {
            assert(r@ =~= spec_scan_report(cs, (i + 1) as int));
        }
        i = i + 1;
    }
    r
}

} // verus!
