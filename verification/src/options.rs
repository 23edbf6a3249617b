//! Command-line option decisions: each flag string either updates the
//! options or names a usage error for the caller to report.
use vstd::prelude::*;

use crate::ECCLevel;
use crate::generator::Flag;

verus! {

/// Why an option string was refused.
#[derive(Debug, Clone, Copy, PartialEq, Eq, Structural)]
pub enum OptionError {
    /// The flag is not one of the known ones.
    UnknownFlag,
    /// `-v` came without a number.
    MinVersionMissing,
    /// `-v` came with something other than a number.
    MinVersionNotInteger,
    /// The minimum version lies outside 1..=40.
    MinVersionRange,
    /// `-e` came without a number.
    EccMissing,
    /// The error-correction choice is not 0 to 3.
    EccBad,
}

/// Decimal value of the digit characters of `s`, when every character is a
/// digit and there are one to nine of them.
pub open spec fn spec_parse_num(s: Seq<char>) -> Option<int> {
    if 1 <= s.len() <= 9 && (forall|i: int| 0 <= i < s.len() ==> '0' <= #[trigger] s[i] <= '9') {
        Some(spec_digits_value(s))
    } else {
        None
    }
}

/// Value of a digit sequence.
pub open spec fn spec_digits_value(s: Seq<char>) -> int
    decreases s.len(),
{
    if s.len() == 0 {
        0
    } else {
        spec_digits_value(s.drop_last()) * 10 + (s.last() as int - 48)
    }
}

/// Powers of ten.
pub open spec fn spec_pow10(i: int) -> int
    decreases i,
{
    if i <= 0 {
        1
    } else {
        10 * spec_pow10(i - 1)
    }
}

proof fn lemma_pow10_mono(i: int, j: int)
    requires
        0 <= i <= j,
    ensures
        spec_pow10(i) <= spec_pow10(j),
    decreases j,
{
    if i < j {
        lemma_pow10_mono(i, j - 1);
        assert(spec_pow10(j - 1) >= 1) by {
            lemma_pow10_pos(j - 1);
        }
    }
}

proof fn lemma_pow10_pos(i: int)
    ensures
        spec_pow10(i) >= 1,
    decreases i,
{
    if i > 0 {
        lemma_pow10_pos(i - 1);
    }
}

/// Parse a small decimal number.
fn parse_num(s: &str) -> (r: Option<u32>)
    ensures
        r matches Some(v) ==> spec_parse_num(s@) == Some(v as int),
        r is None ==> spec_parse_num(s@) is None,
{
    let n = s.unicode_len();
    if n == 0 || n > 9 {
        return None;
    }
    let mut v: u32 = 0;
    let mut i: usize = 0;
    while i < n
        invariant
            i <= n == s@.len() <= 9,
            v == spec_digits_value(s@.take(i as int)),
            v < spec_pow10(i as int),
            forall|k: int| 0 <= k < i ==> '0' <= #[trigger] s@[k] <= '9',
        decreases n - i,
    {
        let c = s.get_char(i);
        if !('0' <= c && c <= '9') {
            return None;
        }
        proof {
            assert(s@.take((i + 1) as int).drop_last() =~= s@.take(i as int));
            lemma_pow10_mono(i as int, 8);
            assert(spec_pow10(8) == 100000000) by {
                reveal_with_fuel(spec_pow10, 10);
            }
            assert(spec_pow10((i + 1) as int) == 10 * spec_pow10(i as int));
        }
        v = v * 10 + (c as u32 - 48);
        i = i + 1;
    }
    proof {
        assert(s@.take(n as int) =~= s@);
    }
    Some(v)
}

/// What one option string does to the flags: the full decision, every
/// success and every error case.
pub open spec fn spec_set_options(op: Seq<char>, flag: Flag) -> Result<Flag, OptionError> {
    if op == "-f"@ {
        Ok(Flag { data: true, bytes: flag.bytes, min_vers: flag.min_vers, ecc: flag.ecc })
    } else if op == "-b"@ {
        Ok(Flag { data: flag.data, bytes: true, min_vers: flag.min_vers, ecc: flag.ecc })
    } else if op.len() >= 2 && op[0] == '-' && op[1] == 'v' {
        if op.len() == 2 {
            Err(OptionError::MinVersionMissing)
        } else {
            match spec_parse_num(op.skip(2)) {
                Some(x) => if 1 <= x <= 40 {
                    Ok(
                        Flag {
                            data: flag.data,
                            bytes: flag.bytes,
                            min_vers: x as u8,
                            ecc: flag.ecc,
                        },
                    )
                } else {
                    Err(OptionError::MinVersionRange)
                },
                None => Err(OptionError::MinVersionNotInteger),
            }
        }
    } else if op.len() >= 2 && op[0] == '-' && op[1] == 'e' {
        if op.len() == 2 {
            Err(OptionError::EccMissing)
        } else {
            match spec_parse_num(op.skip(2)) {
                Some(x) => if x <= 3 {
                    Ok(
                        Flag {
                            data: flag.data,
                            bytes: flag.bytes,
                            min_vers: flag.min_vers,
                            ecc: if x == 0 {
                                ECCLevel::Low
                            } else if x == 1 {
                                ECCLevel::Medium
                            } else if x == 2 {
                                ECCLevel::Quartile
                            } else {
                                ECCLevel::High
                            },
                        },
                    )
                } else {
                    Err(OptionError::EccBad)
                },
                None => Err(OptionError::EccBad),
            }
        }
    } else {
        Err(OptionError::UnknownFlag)
    }
}

/// Apply one option string to the flags; on an error the flags are
/// untouched. The result and the new flags are exactly what
/// `spec_set_options` names for this string.
pub fn set_options(op: &str, flag: &mut Flag) -> (r: Result<(), OptionError>)
    ensures
        match spec_set_options(op@, *old(flag)) {
            Ok(f) => r is Ok && *final(flag) == f,
            Err(e) => r == Result::<(), OptionError>::Err(e) && *final(flag) == *old(flag),
        },
{
    let ghost flag0 = *flag;
    let n = op.unicode_len();
    proof {
        reveal_strlit("-f");
        reveal_strlit("-b");
    }
    if n == 2 && op.get_char(0) == '-' && op.get_char(1) == 'f' {
        proof {
            assert(op@ =~= "-f"@);
        }
        flag.data = true;
        return Ok(());
    }
    if n == 2 && op.get_char(0) == '-' && op.get_char(1) == 'b' {
        proof {
            assert(op@ =~= "-b"@);
        }
        flag.bytes = true;
        return Ok(());
    }
    proof {
        if op@ == "-f"@ || op@ == "-b"@ {
            assert(op@.len() == 2 && op@[0] == '-');
            assert(false);
        }
    }
    if n >= 2 && op.get_char(0) == '-' && op.get_char(1) == 'v' {
        if n == 2 {
            return Err(OptionError::MinVersionMissing);
        }
        let num = op.substring_char(2, n);
        proof {
            assert(num@ =~= op@.skip(2));
        }
        match parse_num(num) {
            Some(x) => {
                if 1 <= x && x <= 40 {
                    flag.min_vers = x as u8;
                    return Ok(());
                } else {
                    return Err(OptionError::MinVersionRange);
                }
            },
            None => {
                return Err(OptionError::MinVersionNotInteger);
            },
        }
    }
    if n >= 2 && op.get_char(0) == '-' && op.get_char(1) == 'e' {
        if n == 2 {
            return Err(OptionError::EccMissing);
        }
        let num = op.substring_char(2, n);
        proof {
            assert(num@ =~= op@.skip(2));
        }
        match parse_num(num) {
            Some(x) => {
                if x <= 3 {
                    flag.ecc = if x == 0 {
                        ECCLevel::Low
                    } else if x == 1 {
                        ECCLevel::Medium
                    } else if x == 2 {
                        ECCLevel::Quartile
                    } else {
                        ECCLevel::High
                    };
                    return Ok(());
                } else {
                    return Err(OptionError::EccBad);
                }
            },
            None => {
                return Err(OptionError::EccBad);
            },
        }
    }
    Err(OptionError::UnknownFlag)
}

} // verus!
