//! Static symbol tables: codeword capacity, error-correction block layout and
//! alignment-pattern centres, by version and error-correction level.
use vstd::prelude::*;

use crate::ECCLevel;

verus! {

/// Total codewords (data and error correction together) of a version.
pub open spec fn spec_total_codewords(v: int) -> u16 {
    if v == 1 { 26 } else if v == 2 { 44 } else if v == 3 { 70 } else if v == 4 { 100 } else if v == 5 { 134 } else if v == 6 { 172 } else if v == 7 { 196 } else if v == 8 { 242 } else if v == 9 { 292 } else if v == 10 { 346 } else if v == 11 { 404 } else if v == 12 { 466 } else if v == 13 { 532 } else if v == 14 { 581 } else if v == 15 { 655 } else if v == 16 { 733 } else if v == 17 { 815 } else if v == 18 { 901 } else if v == 19 { 991 } else if v == 20 { 1085 } else if v == 21 { 1156 } else if v == 22 { 1258 } else if v == 23 { 1364 } else if v == 24 { 1474 } else if v == 25 { 1588 } else if v == 26 { 1706 } else if v == 27 { 1828 } else if v == 28 { 1921 } else if v == 29 { 2051 } else if v == 30 { 2185 } else if v == 31 { 2323 } else if v == 32 { 2465 } else if v == 33 { 2611 } else if v == 34 { 2761 } else if v == 35 { 2876 } else if v == 36 { 3034 } else if v == 37 { 3196 } else if v == 38 { 3362 } else if v == 39 { 3532 } else { 3706 }
}

/// Error-correction codewords in every block at the low level.
pub open spec fn spec_ecc_codewords_low(v: int) -> u16 {
    if v == 1 { 7 } else if v == 2 { 10 } else if v == 3 { 15 } else if v == 4 { 20 } else if v == 5 { 26 } else if v == 6 { 18 } else if v == 7 { 20 } else if v == 8 { 24 } else if v == 9 { 30 } else if v == 10 { 18 } else if v == 11 { 20 } else if v == 12 { 24 } else if v == 13 { 26 } else if v == 14 { 30 } else if v == 15 { 22 } else if v == 16 { 24 } else if v == 17 { 28 } else if v == 18 { 30 } else if v == 19 { 28 } else if v == 20 { 28 } else if v == 21 { 28 } else if v == 22 { 28 } else if v == 23 { 30 } else if v == 24 { 30 } else if v == 25 { 26 } else if v == 26 { 28 } else if v == 27 { 30 } else if v == 28 { 30 } else if v == 29 { 30 } else if v == 30 { 30 } else if v == 31 { 30 } else if v == 32 { 30 } else if v == 33 { 30 } else if v == 34 { 30 } else if v == 35 { 30 } else if v == 36 { 30 } else if v == 37 { 30 } else if v == 38 { 30 } else if v == 39 { 30 } else { 30 }
}

/// Number of error-correction blocks at the low level.
pub open spec fn spec_num_blocks_low(v: int) -> u16 {
    if v == 1 { 1 } else if v == 2 { 1 } else if v == 3 { 1 } else if v == 4 { 1 } else if v == 5 { 1 } else if v == 6 { 2 } else if v == 7 { 2 } else if v == 8 { 2 } else if v == 9 { 2 } else if v == 10 { 4 } else if v == 11 { 4 } else if v == 12 { 4 } else if v == 13 { 4 } else if v == 14 { 4 } else if v == 15 { 6 } else if v == 16 { 6 } else if v == 17 { 6 } else if v == 18 { 6 } else if v == 19 { 7 } else if v == 20 { 8 } else if v == 21 { 8 } else if v == 22 { 9 } else if v == 23 { 9 } else if v == 24 { 10 } else if v == 25 { 12 } else if v == 26 { 12 } else if v == 27 { 12 } else if v == 28 { 13 } else if v == 29 { 14 } else if v == 30 { 15 } else if v == 31 { 16 } else if v == 32 { 17 } else if v == 33 { 18 } else if v == 34 { 19 } else if v == 35 { 19 } else if v == 36 { 20 } else if v == 37 { 21 } else if v == 38 { 22 } else if v == 39 { 24 } else { 25 }
}

/// Error-correction codewords in every block at the medium level.
pub open spec fn spec_ecc_codewords_medium(v: int) -> u16 {
    if v == 1 { 10 } else if v == 2 { 16 } else if v == 3 { 26 } else if v == 4 { 18 } else if v == 5 { 24 } else if v == 6 { 16 } else if v == 7 { 18 } else if v == 8 { 22 } else if v == 9 { 22 } else if v == 10 { 26 } else if v == 11 { 30 } else if v == 12 { 22 } else if v == 13 { 22 } else if v == 14 { 24 } else if v == 15 { 24 } else if v == 16 { 28 } else if v == 17 { 28 } else if v == 18 { 26 } else if v == 19 { 26 } else if v == 20 { 26 } else if v == 21 { 26 } else if v == 22 { 28 } else if v == 23 { 28 } else if v == 24 { 28 } else if v == 25 { 28 } else if v == 26 { 28 } else if v == 27 { 28 } else if v == 28 { 28 } else if v == 29 { 28 } else if v == 30 { 28 } else if v == 31 { 28 } else if v == 32 { 28 } else if v == 33 { 28 } else if v == 34 { 28 } else if v == 35 { 28 } else if v == 36 { 28 } else if v == 37 { 28 } else if v == 38 { 28 } else if v == 39 { 28 } else { 28 }
}

/// Number of error-correction blocks at the medium level.
pub open spec fn spec_num_blocks_medium(v: int) -> u16 {
    if v == 1 { 1 } else if v == 2 { 1 } else if v == 3 { 1 } else if v == 4 { 2 } else if v == 5 { 2 } else if v == 6 { 4 } else if v == 7 { 4 } else if v == 8 { 4 } else if v == 9 { 5 } else if v == 10 { 5 } else if v == 11 { 5 } else if v == 12 { 8 } else if v == 13 { 9 } else if v == 14 { 9 } else if v == 15 { 10 } else if v == 16 { 10 } else if v == 17 { 11 } else if v == 18 { 13 } else if v == 19 { 14 } else if v == 20 { 16 } else if v == 21 { 17 } else if v == 22 { 17 } else if v == 23 { 18 } else if v == 24 { 20 } else if v == 25 { 21 } else if v == 26 { 23 } else if v == 27 { 25 } else if v == 28 { 26 } else if v == 29 { 28 } else if v == 30 { 29 } else if v == 31 { 31 } else if v == 32 { 33 } else if v == 33 { 35 } else if v == 34 { 37 } else if v == 35 { 38 } else if v == 36 { 40 } else if v == 37 { 43 } else if v == 38 { 45 } else if v == 39 { 47 } else { 49 }
}

/// Error-correction codewords in every block at the quartile level.
pub open spec fn spec_ecc_codewords_quartile(v: int) -> u16 {
    if v == 1 { 13 } else if v == 2 { 22 } else if v == 3 { 18 } else if v == 4 { 26 } else if v == 5 { 18 } else if v == 6 { 24 } else if v == 7 { 18 } else if v == 8 { 22 } else if v == 9 { 20 } else if v == 10 { 24 } else if v == 11 { 28 } else if v == 12 { 26 } else if v == 13 { 24 } else if v == 14 { 20 } else if v == 15 { 30 } else if v == 16 { 24 } else if v == 17 { 28 } else if v == 18 { 28 } else if v == 19 { 26 } else if v == 20 { 30 } else if v == 21 { 28 } else if v == 22 { 30 } else if v == 23 { 30 } else if v == 24 { 30 } else if v == 25 { 30 } else if v == 26 { 28 } else if v == 27 { 30 } else if v == 28 { 30 } else if v == 29 { 30 } else if v == 30 { 30 } else if v == 31 { 30 } else if v == 32 { 30 } else if v == 33 { 30 } else if v == 34 { 30 } else if v == 35 { 30 } else if v == 36 { 30 } else if v == 37 { 30 } else if v == 38 { 30 } else if v == 39 { 30 } else { 30 }
}

/// Number of error-correction blocks at the quartile level.
pub open spec fn spec_num_blocks_quartile(v: int) -> u16 {
    if v == 1 { 1 } else if v == 2 { 1 } else if v == 3 { 2 } else if v == 4 { 2 } else if v == 5 { 4 } else if v == 6 { 4 } else if v == 7 { 6 } else if v == 8 { 6 } else if v == 9 { 8 } else if v == 10 { 8 } else if v == 11 { 8 } else if v == 12 { 10 } else if v == 13 { 12 } else if v == 14 { 16 } else if v == 15 { 12 } else if v == 16 { 17 } else if v == 17 { 16 } else if v == 18 { 18 } else if v == 19 { 21 } else if v == 20 { 20 } else if v == 21 { 23 } else if v == 22 { 23 } else if v == 23 { 25 } else if v == 24 { 27 } else if v == 25 { 29 } else if v == 26 { 34 } else if v == 27 { 34 } else if v == 28 { 35 } else if v == 29 { 38 } else if v == 30 { 40 } else if v == 31 { 43 } else if v == 32 { 45 } else if v == 33 { 48 } else if v == 34 { 51 } else if v == 35 { 53 } else if v == 36 { 56 } else if v == 37 { 59 } else if v == 38 { 62 } else if v == 39 { 65 } else { 68 }
}

/// Error-correction codewords in every block at the high level.
pub open spec fn spec_ecc_codewords_high(v: int) -> u16 {
    if v == 1 { 17 } else if v == 2 { 28 } else if v == 3 { 22 } else if v == 4 { 16 } else if v == 5 { 22 } else if v == 6 { 28 } else if v == 7 { 26 } else if v == 8 { 26 } else if v == 9 { 24 } else if v == 10 { 28 } else if v == 11 { 24 } else if v == 12 { 28 } else if v == 13 { 22 } else if v == 14 { 24 } else if v == 15 { 24 } else if v == 16 { 30 } else if v == 17 { 28 } else if v == 18 { 28 } else if v == 19 { 26 } else if v == 20 { 28 } else if v == 21 { 30 } else if v == 22 { 24 } else if v == 23 { 30 } else if v == 24 { 30 } else if v == 25 { 30 } else if v == 26 { 30 } else if v == 27 { 30 } else if v == 28 { 30 } else if v == 29 { 30 } else if v == 30 { 30 } else if v == 31 { 30 } else if v == 32 { 30 } else if v == 33 { 30 } else if v == 34 { 30 } else if v == 35 { 30 } else if v == 36 { 30 } else if v == 37 { 30 } else if v == 38 { 30 } else if v == 39 { 30 } else { 30 }
}

/// Number of error-correction blocks at the high level.
pub open spec fn spec_num_blocks_high(v: int) -> u16 {
    if v == 1 { 1 } else if v == 2 { 1 } else if v == 3 { 2 } else if v == 4 { 4 } else if v == 5 { 4 } else if v == 6 { 4 } else if v == 7 { 5 } else if v == 8 { 6 } else if v == 9 { 8 } else if v == 10 { 8 } else if v == 11 { 11 } else if v == 12 { 11 } else if v == 13 { 16 } else if v == 14 { 16 } else if v == 15 { 18 } else if v == 16 { 16 } else if v == 17 { 19 } else if v == 18 { 21 } else if v == 19 { 25 } else if v == 20 { 25 } else if v == 21 { 25 } else if v == 22 { 34 } else if v == 23 { 30 } else if v == 24 { 32 } else if v == 25 { 35 } else if v == 26 { 37 } else if v == 27 { 40 } else if v == 28 { 42 } else if v == 29 { 45 } else if v == 30 { 48 } else if v == 31 { 51 } else if v == 32 { 54 } else if v == 33 { 57 } else if v == 34 { 60 } else if v == 35 { 63 } else if v == 36 { 66 } else if v == 37 { 70 } else if v == 38 { 74 } else if v == 39 { 77 } else { 81 }
}

/// Error-correction codewords in every block of a version and level.
pub open spec fn spec_ecc_codewords(ecc: ECCLevel, v: int) -> u16 {
    match ecc {
        ECCLevel::Low => spec_ecc_codewords_low(v),
        ECCLevel::Medium => spec_ecc_codewords_medium(v),
        ECCLevel::Quartile => spec_ecc_codewords_quartile(v),
        ECCLevel::High => spec_ecc_codewords_high(v),
    }
}

/// Number of error-correction blocks of a version and level.
pub open spec fn spec_num_blocks(ecc: ECCLevel, v: int) -> u16 {
    match ecc {
        ECCLevel::Low => spec_num_blocks_low(v),
        ECCLevel::Medium => spec_num_blocks_medium(v),
        ECCLevel::Quartile => spec_num_blocks_quartile(v),
        ECCLevel::High => spec_num_blocks_high(v),
    }
}

/// Data codewords available at a version and level.
pub open spec fn spec_data_codewords(ecc: ECCLevel, v: int) -> int {
    spec_total_codewords(v) - spec_num_blocks(ecc, v) * spec_ecc_codewords(ecc, v)
}

/// Data capacity in bits.
pub open spec fn spec_capacity_bits(ecc: ECCLevel, v: int) -> int {
    8 * spec_data_codewords(ecc, v)
}

/// The tables agree on every cell: at least one block, at least one data
/// codeword for every block, and the bit capacity fits in sixteen bits.
pub proof fn lemma_tables_ok(ecc: ECCLevel, v: int)
    requires
        1 <= v <= 40,
    ensures
        1 <= spec_num_blocks(ecc, v) <= 81,
        1 <= spec_ecc_codewords(ecc, v) <= 30,
        spec_num_blocks(ecc, v) <= spec_data_codewords(ecc, v),
        spec_data_codewords(ecc, v) <= 3706,
        spec_total_codewords(v) <= 3706,
{
    if v == 1 {
        match ecc {
        ECCLevel::Low => {},
        ECCLevel::Medium => {},
        ECCLevel::Quartile => {},
        ECCLevel::High => {},
    }
    } else if v == 2 {
        match ecc {
        ECCLevel::Low => {},
        ECCLevel::Medium => {},
        ECCLevel::Quartile => {},
        ECCLevel::High => {},
    }
    } else if v == 3 {
        match ecc {
        ECCLevel::Low => {},
        ECCLevel::Medium => {},
        ECCLevel::Quartile => {},
        ECCLevel::High => {},
    }
    } else if v == 4 {
        match ecc {
        ECCLevel::Low => {},
        ECCLevel::Medium => {},
        ECCLevel::Quartile => {},
        ECCLevel::High => {},
    }
    } else if v == 5 {
        match ecc {
        ECCLevel::Low => {},
        ECCLevel::Medium => {},
        ECCLevel::Quartile => {},
        ECCLevel::High => {},
    }
    } else if v == 6 {
        match ecc {
        ECCLevel::Low => {},
        ECCLevel::Medium => {},
        ECCLevel::Quartile => {},
        ECCLevel::High => {},
    }
    } else if v == 7 {
        match ecc {
        ECCLevel::Low => {},
        ECCLevel::Medium => {},
        ECCLevel::Quartile => {},
        ECCLevel::High => {},
    }
    } else if v == 8 {
        match ecc {
        ECCLevel::Low => {},
        ECCLevel::Medium => {},
        ECCLevel::Quartile => {},
        ECCLevel::High => {},
    }
    } else if v == 9 {
        match ecc {
        ECCLevel::Low => {},
        ECCLevel::Medium => {},
        ECCLevel::Quartile => {},
        ECCLevel::High => {},
    }
    } else if v == 10 {
        match ecc {
        ECCLevel::Low => {},
        ECCLevel::Medium => {},
        ECCLevel::Quartile => {},
        ECCLevel::High => {},
    }
    } else if v == 11 {
        match ecc {
        ECCLevel::Low => {},
        ECCLevel::Medium => {},
        ECCLevel::Quartile => {},
        ECCLevel::High => {},
    }
    } else if v == 12 {
        match ecc {
        ECCLevel::Low => {},
        ECCLevel::Medium => {},
        ECCLevel::Quartile => {},
        ECCLevel::High => {},
    }
    } else if v == 13 {
        match ecc {
        ECCLevel::Low => {},
        ECCLevel::Medium => {},
        ECCLevel::Quartile => {},
        ECCLevel::High => {},
    }
    } else if v == 14 {
        match ecc {
        ECCLevel::Low => {},
        ECCLevel::Medium => {},
        ECCLevel::Quartile => {},
        ECCLevel::High => {},
    }
    } else if v == 15 {
        match ecc {
        ECCLevel::Low => {},
        ECCLevel::Medium => {},
        ECCLevel::Quartile => {},
        ECCLevel::High => {},
    }
    } else if v == 16 {
        match ecc {
        ECCLevel::Low => {},
        ECCLevel::Medium => {},
        ECCLevel::Quartile => {},
        ECCLevel::High => {},
    }
    } else if v == 17 {
        match ecc {
        ECCLevel::Low => {},
        ECCLevel::Medium => {},
        ECCLevel::Quartile => {},
        ECCLevel::High => {},
    }
    } else if v == 18 {
        match ecc {
        ECCLevel::Low => {},
        ECCLevel::Medium => {},
        ECCLevel::Quartile => {},
        ECCLevel::High => {},
    }
    } else if v == 19 {
        match ecc {
        ECCLevel::Low => {},
        ECCLevel::Medium => {},
        ECCLevel::Quartile => {},
        ECCLevel::High => {},
    }
    } else if v == 20 {
        match ecc {
        ECCLevel::Low => {},
        ECCLevel::Medium => {},
        ECCLevel::Quartile => {},
        ECCLevel::High => {},
    }
    } else if v == 21 {
        match ecc {
        ECCLevel::Low => {},
        ECCLevel::Medium => {},
        ECCLevel::Quartile => {},
        ECCLevel::High => {},
    }
    } else if v == 22 {
        match ecc {
        ECCLevel::Low => {},
        ECCLevel::Medium => {},
        ECCLevel::Quartile => {},
        ECCLevel::High => {},
    }
    } else if v == 23 {
        match ecc {
        ECCLevel::Low => {},
        ECCLevel::Medium => {},
        ECCLevel::Quartile => {},
        ECCLevel::High => {},
    }
    } else if v == 24 {
        match ecc {
        ECCLevel::Low => {},
        ECCLevel::Medium => {},
        ECCLevel::Quartile => {},
        ECCLevel::High => {},
    }
    } else if v == 25 {
        match ecc {
        ECCLevel::Low => {},
        ECCLevel::Medium => {},
        ECCLevel::Quartile => {},
        ECCLevel::High => {},
    }
    } else if v == 26 {
        match ecc {
        ECCLevel::Low => {},
        ECCLevel::Medium => {},
        ECCLevel::Quartile => {},
        ECCLevel::High => {},
    }
    } else if v == 27 {
        match ecc {
        ECCLevel::Low => {},
        ECCLevel::Medium => {},
        ECCLevel::Quartile => {},
        ECCLevel::High => {},
    }
    } else if v == 28 {
        match ecc {
        ECCLevel::Low => {},
        ECCLevel::Medium => {},
        ECCLevel::Quartile => {},
        ECCLevel::High => {},
    }
    } else if v == 29 {
        match ecc {
        ECCLevel::Low => {},
        ECCLevel::Medium => {},
        ECCLevel::Quartile => {},
        ECCLevel::High => {},
    }
    } else if v == 30 {
        match ecc {
        ECCLevel::Low => {},
        ECCLevel::Medium => {},
        ECCLevel::Quartile => {},
        ECCLevel::High => {},
    }
    } else if v == 31 {
        match ecc {
        ECCLevel::Low => {},
        ECCLevel::Medium => {},
        ECCLevel::Quartile => {},
        ECCLevel::High => {},
    }
    } else if v == 32 {
        match ecc {
        ECCLevel::Low => {},
        ECCLevel::Medium => {},
        ECCLevel::Quartile => {},
        ECCLevel::High => {},
    }
    } else if v == 33 {
        match ecc {
        ECCLevel::Low => {},
        ECCLevel::Medium => {},
        ECCLevel::Quartile => {},
        ECCLevel::High => {},
    }
    } else if v == 34 {
        match ecc {
        ECCLevel::Low => {},
        ECCLevel::Medium => {},
        ECCLevel::Quartile => {},
        ECCLevel::High => {},
    }
    } else if v == 35 {
        match ecc {
        ECCLevel::Low => {},
        ECCLevel::Medium => {},
        ECCLevel::Quartile => {},
        ECCLevel::High => {},
    }
    } else if v == 36 {
        match ecc {
        ECCLevel::Low => {},
        ECCLevel::Medium => {},
        ECCLevel::Quartile => {},
        ECCLevel::High => {},
    }
    } else if v == 37 {
        match ecc {
        ECCLevel::Low => {},
        ECCLevel::Medium => {},
        ECCLevel::Quartile => {},
        ECCLevel::High => {},
    }
    } else if v == 38 {
        match ecc {
        ECCLevel::Low => {},
        ECCLevel::Medium => {},
        ECCLevel::Quartile => {},
        ECCLevel::High => {},
    }
    } else if v == 39 {
        match ecc {
        ECCLevel::Low => {},
        ECCLevel::Medium => {},
        ECCLevel::Quartile => {},
        ECCLevel::High => {},
    }
    } else {
        match ecc {
        ECCLevel::Low => {},
        ECCLevel::Medium => {},
        ECCLevel::Quartile => {},
        ECCLevel::High => {},
    }
    }
}


/// Capacity does not shrink as the version grows.
pub proof fn lemma_capacity_step(ecc: ECCLevel, v: int)
    requires
        1 <= v < 40,
    ensures
        spec_capacity_bits(ecc, v) <= spec_capacity_bits(ecc, v + 1),
{
    if v == 1 {
        match ecc {
        ECCLevel::Low => {},
        ECCLevel::Medium => {},
        ECCLevel::Quartile => {},
        ECCLevel::High => {},
    }
    } else if v == 2 {
        match ecc {
        ECCLevel::Low => {},
        ECCLevel::Medium => {},
        ECCLevel::Quartile => {},
        ECCLevel::High => {},
    }
    } else if v == 3 {
        match ecc {
        ECCLevel::Low => {},
        ECCLevel::Medium => {},
        ECCLevel::Quartile => {},
        ECCLevel::High => {},
    }
    } else if v == 4 {
        match ecc {
        ECCLevel::Low => {},
        ECCLevel::Medium => {},
        ECCLevel::Quartile => {},
        ECCLevel::High => {},
    }
    } else if v == 5 {
        match ecc {
        ECCLevel::Low => {},
        ECCLevel::Medium => {},
        ECCLevel::Quartile => {},
        ECCLevel::High => {},
    }
    } else if v == 6 {
        match ecc {
        ECCLevel::Low => {},
        ECCLevel::Medium => {},
        ECCLevel::Quartile => {},
        ECCLevel::High => {},
    }
    } else if v == 7 {
        match ecc {
        ECCLevel::Low => {},
        ECCLevel::Medium => {},
        ECCLevel::Quartile => {},
        ECCLevel::High => {},
    }
    } else if v == 8 {
        match ecc {
        ECCLevel::Low => {},
        ECCLevel::Medium => {},
        ECCLevel::Quartile => {},
        ECCLevel::High => {},
    }
    } else if v == 9 {
        match ecc {
        ECCLevel::Low => {},
        ECCLevel::Medium => {},
        ECCLevel::Quartile => {},
        ECCLevel::High => {},
    }
    } else if v == 10 {
        match ecc {
        ECCLevel::Low => {},
        ECCLevel::Medium => {},
        ECCLevel::Quartile => {},
        ECCLevel::High => {},
    }
    } else if v == 11 {
        match ecc {
        ECCLevel::Low => {},
        ECCLevel::Medium => {},
        ECCLevel::Quartile => {},
        ECCLevel::High => {},
    }
    } else if v == 12 {
        match ecc {
        ECCLevel::Low => {},
        ECCLevel::Medium => {},
        ECCLevel::Quartile => {},
        ECCLevel::High => {},
    }
    } else if v == 13 {
        match ecc {
        ECCLevel::Low => {},
        ECCLevel::Medium => {},
        ECCLevel::Quartile => {},
        ECCLevel::High => {},
    }
    } else if v == 14 {
        match ecc {
        ECCLevel::Low => {},
        ECCLevel::Medium => {},
        ECCLevel::Quartile => {},
        ECCLevel::High => {},
    }
    } else if v == 15 {
        match ecc {
        ECCLevel::Low => {},
        ECCLevel::Medium => {},
        ECCLevel::Quartile => {},
        ECCLevel::High => {},
    }
    } else if v == 16 {
        match ecc {
        ECCLevel::Low => {},
        ECCLevel::Medium => {},
        ECCLevel::Quartile => {},
        ECCLevel::High => {},
    }
    } else if v == 17 {
        match ecc {
        ECCLevel::Low => {},
        ECCLevel::Medium => {},
        ECCLevel::Quartile => {},
        ECCLevel::High => {},
    }
    } else if v == 18 {
        match ecc {
        ECCLevel::Low => {},
        ECCLevel::Medium => {},
        ECCLevel::Quartile => {},
        ECCLevel::High => {},
    }
    } else if v == 19 {
        match ecc {
        ECCLevel::Low => {},
        ECCLevel::Medium => {},
        ECCLevel::Quartile => {},
        ECCLevel::High => {},
    }
    } else if v == 20 {
        match ecc {
        ECCLevel::Low => {},
        ECCLevel::Medium => {},
        ECCLevel::Quartile => {},
        ECCLevel::High => {},
    }
    } else if v == 21 {
        match ecc {
        ECCLevel::Low => {},
        ECCLevel::Medium => {},
        ECCLevel::Quartile => {},
        ECCLevel::High => {},
    }
    } else if v == 22 {
        match ecc {
        ECCLevel::Low => {},
        ECCLevel::Medium => {},
        ECCLevel::Quartile => {},
        ECCLevel::High => {},
    }
    } else if v == 23 {
        match ecc {
        ECCLevel::Low => {},
        ECCLevel::Medium => {},
        ECCLevel::Quartile => {},
        ECCLevel::High => {},
    }
    } else if v == 24 {
        match ecc {
        ECCLevel::Low => {},
        ECCLevel::Medium => {},
        ECCLevel::Quartile => {},
        ECCLevel::High => {},
    }
    } else if v == 25 {
        match ecc {
        ECCLevel::Low => {},
        ECCLevel::Medium => {},
        ECCLevel::Quartile => {},
        ECCLevel::High => {},
    }
    } else if v == 26 {
        match ecc {
        ECCLevel::Low => {},
        ECCLevel::Medium => {},
        ECCLevel::Quartile => {},
        ECCLevel::High => {},
    }
    } else if v == 27 {
        match ecc {
        ECCLevel::Low => {},
        ECCLevel::Medium => {},
        ECCLevel::Quartile => {},
        ECCLevel::High => {},
    }
    } else if v == 28 {
        match ecc {
        ECCLevel::Low => {},
        ECCLevel::Medium => {},
        ECCLevel::Quartile => {},
        ECCLevel::High => {},
    }
    } else if v == 29 {
        match ecc {
        ECCLevel::Low => {},
        ECCLevel::Medium => {},
        ECCLevel::Quartile => {},
        ECCLevel::High => {},
    }
    } else if v == 30 {
        match ecc {
        ECCLevel::Low => {},
        ECCLevel::Medium => {},
        ECCLevel::Quartile => {},
        ECCLevel::High => {},
    }
    } else if v == 31 {
        match ecc {
        ECCLevel::Low => {},
        ECCLevel::Medium => {},
        ECCLevel::Quartile => {},
        ECCLevel::High => {},
    }
    } else if v == 32 {
        match ecc {
        ECCLevel::Low => {},
        ECCLevel::Medium => {},
        ECCLevel::Quartile => {},
        ECCLevel::High => {},
    }
    } else if v == 33 {
        match ecc {
        ECCLevel::Low => {},
        ECCLevel::Medium => {},
        ECCLevel::Quartile => {},
        ECCLevel::High => {},
    }
    } else if v == 34 {
        match ecc {
        ECCLevel::Low => {},
        ECCLevel::Medium => {},
        ECCLevel::Quartile => {},
        ECCLevel::High => {},
    }
    } else if v == 35 {
        match ecc {
        ECCLevel::Low => {},
        ECCLevel::Medium => {},
        ECCLevel::Quartile => {},
        ECCLevel::High => {},
    }
    } else if v == 36 {
        match ecc {
        ECCLevel::Low => {},
        ECCLevel::Medium => {},
        ECCLevel::Quartile => {},
        ECCLevel::High => {},
    }
    } else if v == 37 {
        match ecc {
        ECCLevel::Low => {},
        ECCLevel::Medium => {},
        ECCLevel::Quartile => {},
        ECCLevel::High => {},
    }
    } else if v == 38 {
        match ecc {
        ECCLevel::Low => {},
        ECCLevel::Medium => {},
        ECCLevel::Quartile => {},
        ECCLevel::High => {},
    }
    } else if v == 39 {
        match ecc {
        ECCLevel::Low => {},
        ECCLevel::Medium => {},
        ECCLevel::Quartile => {},
        ECCLevel::High => {},
    }
    } else {
        match ecc {
        ECCLevel::Low => {},
        ECCLevel::Medium => {},
        ECCLevel::Quartile => {},
        ECCLevel::High => {},
    }
    }
}

/// Capacity at a later version is at least the capacity at an earlier one.
pub proof fn lemma_capacity_monotone(ecc: ECCLevel, v1: int, v2: int)
    requires
        1 <= v1 <= v2 <= 40,
    ensures
        spec_capacity_bits(ecc, v1) <= spec_capacity_bits(ecc, v2),
    decreases v2 - v1,
{
    if v1 < v2 {
        lemma_capacity_step(ecc, v2 - 1);
        lemma_capacity_monotone(ecc, v1, v2 - 1);
    }
}

/// Total codewords (data and error correction together) of a version.
pub fn total_codewords(version: u8) -> (r: u16)
    requires
        1 <= version <= 40,
    ensures
        r == spec_total_codewords(version as int),
{
    match version {
        1 => 26,
        2 => 44,
        3 => 70,
        4 => 100,
        5 => 134,
        6 => 172,
        7 => 196,
        8 => 242,
        9 => 292,
        10 => 346,
        11 => 404,
        12 => 466,
        13 => 532,
        14 => 581,
        15 => 655,
        16 => 733,
        17 => 815,
        18 => 901,
        19 => 991,
        20 => 1085,
        21 => 1156,
        22 => 1258,
        23 => 1364,
        24 => 1474,
        25 => 1588,
        26 => 1706,
        27 => 1828,
        28 => 1921,
        29 => 2051,
        30 => 2185,
        31 => 2323,
        32 => 2465,
        33 => 2611,
        34 => 2761,
        35 => 2876,
        36 => 3034,
        37 => 3196,
        38 => 3362,
        39 => 3532,
        _ => 3706,
    }
}

/// Error-correction codewords in every block of a version and level.
pub fn ecc_codewords(ecc: &ECCLevel, version: u8) -> (r: u16)
    requires
        1 <= version <= 40,
    ensures
        r == spec_ecc_codewords(*ecc, version as int),
{
    match ecc {
        ECCLevel::Low => match version {
        1 => 7,
            2 => 10,
            3 => 15,
            4 => 20,
            5 => 26,
            6 => 18,
            7 => 20,
            8 => 24,
            9 => 30,
            10 => 18,
            11 => 20,
            12 => 24,
            13 => 26,
            14 => 30,
            15 => 22,
            16 => 24,
            17 => 28,
            18 => 30,
            19 => 28,
            20 => 28,
            21 => 28,
            22 => 28,
            23 => 30,
            24 => 30,
            25 => 26,
            26 => 28,
            27 => 30,
            28 => 30,
            29 => 30,
            30 => 30,
            31 => 30,
            32 => 30,
            33 => 30,
            34 => 30,
            35 => 30,
            36 => 30,
            37 => 30,
            38 => 30,
            39 => 30,
            _ => 30,
        },
        ECCLevel::Medium => match version {
        1 => 10,
            2 => 16,
            3 => 26,
            4 => 18,
            5 => 24,
            6 => 16,
            7 => 18,
            8 => 22,
            9 => 22,
            10 => 26,
            11 => 30,
            12 => 22,
            13 => 22,
            14 => 24,
            15 => 24,
            16 => 28,
            17 => 28,
            18 => 26,
            19 => 26,
            20 => 26,
            21 => 26,
            22 => 28,
            23 => 28,
            24 => 28,
            25 => 28,
            26 => 28,
            27 => 28,
            28 => 28,
            29 => 28,
            30 => 28,
            31 => 28,
            32 => 28,
            33 => 28,
            34 => 28,
            35 => 28,
            36 => 28,
            37 => 28,
            38 => 28,
            39 => 28,
            _ => 28,
        },
        ECCLevel::Quartile => match version {
        1 => 13,
            2 => 22,
            3 => 18,
            4 => 26,
            5 => 18,
            6 => 24,
            7 => 18,
            8 => 22,
            9 => 20,
            10 => 24,
            11 => 28,
            12 => 26,
            13 => 24,
            14 => 20,
            15 => 30,
            16 => 24,
            17 => 28,
            18 => 28,
            19 => 26,
            20 => 30,
            21 => 28,
            22 => 30,
            23 => 30,
            24 => 30,
            25 => 30,
            26 => 28,
            27 => 30,
            28 => 30,
            29 => 30,
            30 => 30,
            31 => 30,
            32 => 30,
            33 => 30,
            34 => 30,
            35 => 30,
            36 => 30,
            37 => 30,
            38 => 30,
            39 => 30,
            _ => 30,
        },
        ECCLevel::High => match version {
        1 => 17,
            2 => 28,
            3 => 22,
            4 => 16,
            5 => 22,
            6 => 28,
            7 => 26,
            8 => 26,
            9 => 24,
            10 => 28,
            11 => 24,
            12 => 28,
            13 => 22,
            14 => 24,
            15 => 24,
            16 => 30,
            17 => 28,
            18 => 28,
            19 => 26,
            20 => 28,
            21 => 30,
            22 => 24,
            23 => 30,
            24 => 30,
            25 => 30,
            26 => 30,
            27 => 30,
            28 => 30,
            29 => 30,
            30 => 30,
            31 => 30,
            32 => 30,
            33 => 30,
            34 => 30,
            35 => 30,
            36 => 30,
            37 => 30,
            38 => 30,
            39 => 30,
            _ => 30,
        },
    }
}

/// Number of error-correction blocks of a version and level.
pub fn num_blocks(ecc: &ECCLevel, version: u8) -> (r: u16)
    requires
        1 <= version <= 40,
    ensures
        r == spec_num_blocks(*ecc, version as int),
{
    match ecc {
        ECCLevel::Low => match version {
        1 => 1,
            2 => 1,
            3 => 1,
            4 => 1,
            5 => 1,
            6 => 2,
            7 => 2,
            8 => 2,
            9 => 2,
            10 => 4,
            11 => 4,
            12 => 4,
            13 => 4,
            14 => 4,
            15 => 6,
            16 => 6,
            17 => 6,
            18 => 6,
            19 => 7,
            20 => 8,
            21 => 8,
            22 => 9,
            23 => 9,
            24 => 10,
            25 => 12,
            26 => 12,
            27 => 12,
            28 => 13,
            29 => 14,
            30 => 15,
            31 => 16,
            32 => 17,
            33 => 18,
            34 => 19,
            35 => 19,
            36 => 20,
            37 => 21,
            38 => 22,
            39 => 24,
            _ => 25,
        },
        ECCLevel::Medium => match version {
        1 => 1,
            2 => 1,
            3 => 1,
            4 => 2,
            5 => 2,
            6 => 4,
            7 => 4,
            8 => 4,
            9 => 5,
            10 => 5,
            11 => 5,
            12 => 8,
            13 => 9,
            14 => 9,
            15 => 10,
            16 => 10,
            17 => 11,
            18 => 13,
            19 => 14,
            20 => 16,
            21 => 17,
            22 => 17,
            23 => 18,
            24 => 20,
            25 => 21,
            26 => 23,
            27 => 25,
            28 => 26,
            29 => 28,
            30 => 29,
            31 => 31,
            32 => 33,
            33 => 35,
            34 => 37,
            35 => 38,
            36 => 40,
            37 => 43,
            38 => 45,
            39 => 47,
            _ => 49,
        },
        ECCLevel::Quartile => match version {
        1 => 1,
            2 => 1,
            3 => 2,
            4 => 2,
            5 => 4,
            6 => 4,
            7 => 6,
            8 => 6,
            9 => 8,
            10 => 8,
            11 => 8,
            12 => 10,
            13 => 12,
            14 => 16,
            15 => 12,
            16 => 17,
            17 => 16,
            18 => 18,
            19 => 21,
            20 => 20,
            21 => 23,
            22 => 23,
            23 => 25,
            24 => 27,
            25 => 29,
            26 => 34,
            27 => 34,
            28 => 35,
            29 => 38,
            30 => 40,
            31 => 43,
            32 => 45,
            33 => 48,
            34 => 51,
            35 => 53,
            36 => 56,
            37 => 59,
            38 => 62,
            39 => 65,
            _ => 68,
        },
        ECCLevel::High => match version {
        1 => 1,
            2 => 1,
            3 => 2,
            4 => 4,
            5 => 4,
            6 => 4,
            7 => 5,
            8 => 6,
            9 => 8,
            10 => 8,
            11 => 11,
            12 => 11,
            13 => 16,
            14 => 16,
            15 => 18,
            16 => 16,
            17 => 19,
            18 => 21,
            19 => 25,
            20 => 25,
            21 => 25,
            22 => 34,
            23 => 30,
            24 => 32,
            25 => 35,
            26 => 37,
            27 => 40,
            28 => 42,
            29 => 45,
            30 => 48,
            31 => 51,
            32 => 54,
            33 => 57,
            34 => 60,
            35 => 63,
            36 => 66,
            37 => 70,
            38 => 74,
            39 => 77,
            _ => 81,
        },
    }
}

/// Data capacity in bits of a version at a level.
pub fn qr_capacity_query(ecc: &ECCLevel, version: u8) -> (r: u16)
    requires
        1 <= version <= 40,
    ensures
        r == spec_capacity_bits(*ecc, version as int),
{
    proof {
        lemma_tables_ok(*ecc, version as int);
    }
    let total = total_codewords(version);
    let per_block = ecc_codewords(ecc, version);
    let blocks = num_blocks(ecc, version);
    8 * (total - blocks * per_block)
}

/// The smallest version at or above `v` whose capacity holds the bits; 41
/// when none up to 40 does.
pub open spec fn spec_min_version_from(ecc: ECCLevel, bits: int, v: int) -> int
    decreases 41 - v,
{
    if v < 1 || v > 40 {
        41
    } else if spec_capacity_bits(ecc, v) >= bits {
        v
    } else {
        spec_min_version_from(ecc, bits, v + 1)
    }
}

/// The smallest version from 1 to 40 whose capacity holds the bits; 41 when
/// none does.
pub open spec fn spec_min_version(ecc: ECCLevel, bits: int) -> int {
    spec_min_version_from(ecc, bits, 1)
}

/// The smallest fitting version is what its name says.
pub proof fn lemma_min_version_characterized(ecc: ECCLevel, bits: int)
    ensures
        1 <= spec_min_version(ecc, bits) <= 41,
        spec_min_version(ecc, bits) <= 40 ==> spec_capacity_bits(
            ecc,
            spec_min_version(ecc, bits),
        ) >= bits,
        forall|v: int|
            1 <= v < spec_min_version(ecc, bits) && v <= 40 ==> spec_capacity_bits(ecc, v)
                < bits,
        spec_min_version(ecc, bits) == 41 ==> forall|v: int|
            1 <= v <= 40 ==> spec_capacity_bits(ecc, v) < bits,
{
    lemma_min_version_from(ecc, bits, 1);
}

proof fn lemma_min_version_from(ecc: ECCLevel, bits: int, v: int)
    requires
        1 <= v <= 41,
    ensures
        v <= spec_min_version_from(ecc, bits, v) <= 41,
        spec_min_version_from(ecc, bits, v) <= 40 ==> spec_capacity_bits(
            ecc,
            spec_min_version_from(ecc, bits, v),
        ) >= bits,
        forall|w: int|
            v <= w < spec_min_version_from(ecc, bits, v) && w <= 40 ==> spec_capacity_bits(
                ecc,
                w,
            ) < bits,
    decreases 41 - v,
{
    if v <= 40 && spec_capacity_bits(ecc, v) < bits {
        lemma_min_version_from(ecc, bits, v + 1);
    }
}

/// Fewer required bits never need a later version.
pub proof fn lemma_min_version_mono(ecc: ECCLevel, b1: int, b2: int)
    requires
        b1 <= b2,
    ensures
        spec_min_version(ecc, b1) <= spec_min_version(ecc, b2),
{
    lemma_min_version_characterized(ecc, b1);
    lemma_min_version_characterized(ecc, b2);
    let m1 = spec_min_version(ecc, b1);
    let m2 = spec_min_version(ecc, b2);
    if m2 < m1 {
        assert(m2 <= 40);
        assert(spec_capacity_bits(ecc, m2) >= b2);
        assert(spec_capacity_bits(ecc, m2) < b1);
    }
}

/// The smallest version from 1 to 40 whose capacity holds `required_bits`;
/// 41 signals that none does.
pub fn qr_version_query(ecc: &ECCLevel, required_bits: usize) -> (r: u8)
    ensures
        r == spec_min_version(*ecc, required_bits as int),
        1 <= r <= 41,
        r <= 40 ==> spec_capacity_bits(*ecc, r as int) >= required_bits,
        forall|v: int| 1 <= v < r && v <= 40 ==> spec_capacity_bits(*ecc, v) < required_bits,
{
    proof {
        lemma_min_version_characterized(*ecc, required_bits as int);
    }
    let mut v: u8 = 1;
    while v <= 40
        invariant
            1 <= v <= 41,
            spec_min_version(*ecc, required_bits as int) == spec_min_version_from(
                *ecc,
                required_bits as int,
                v as int,
            ),
            forall|w: int| 1 <= w < v ==> spec_capacity_bits(*ecc, w) < required_bits,
        decreases 41 - v,
    {
        let cap = qr_capacity_query(ecc, v);
        if cap as usize >= required_bits {
            return v;
        }
        v = v + 1;
    }
    41
}

/// Centres of the alignment patterns of a version, in ascending order.
pub open spec fn spec_alignment_centres(v: int) -> Seq<u8> {
    if v == 1 { Seq::empty() } else if v == 2 { seq![6u8, 18] } else if v == 3 { seq![6u8, 22] } else if v == 4 { seq![6u8, 26] } else if v == 5 { seq![6u8, 30] } else if v == 6 { seq![6u8, 34] } else if v == 7 { seq![6u8, 22, 38] } else if v == 8 { seq![6u8, 24, 42] } else if v == 9 { seq![6u8, 26, 46] } else if v == 10 { seq![6u8, 28, 50] } else if v == 11 { seq![6u8, 30, 54] } else if v == 12 { seq![6u8, 32, 58] } else if v == 13 { seq![6u8, 34, 62] } else if v == 14 { seq![6u8, 26, 46, 66] } else if v == 15 { seq![6u8, 26, 48, 70] } else if v == 16 { seq![6u8, 26, 50, 74] } else if v == 17 { seq![6u8, 30, 54, 78] } else if v == 18 { seq![6u8, 30, 56, 82] } else if v == 19 { seq![6u8, 30, 58, 86] } else if v == 20 { seq![6u8, 34, 62, 90] } else if v == 21 { seq![6u8, 28, 50, 72, 94] } else if v == 22 { seq![6u8, 26, 50, 74, 98] } else if v == 23 { seq![6u8, 30, 54, 78, 102] } else if v == 24 { seq![6u8, 28, 54, 80, 106] } else if v == 25 { seq![6u8, 32, 58, 84, 110] } else if v == 26 { seq![6u8, 30, 58, 86, 114] } else if v == 27 { seq![6u8, 34, 62, 90, 118] } else if v == 28 { seq![6u8, 26, 50, 74, 98, 122] } else if v == 29 { seq![6u8, 30, 54, 78, 102, 126] } else if v == 30 { seq![6u8, 26, 52, 78, 104, 130] } else if v == 31 { seq![6u8, 30, 56, 82, 108, 134] } else if v == 32 { seq![6u8, 34, 60, 86, 112, 138] } else if v == 33 { seq![6u8, 30, 58, 86, 114, 142] } else if v == 34 { seq![6u8, 34, 62, 90, 118, 146] } else if v == 35 { seq![6u8, 30, 54, 78, 102, 126, 150] } else if v == 36 { seq![6u8, 24, 50, 76, 102, 128, 154] } else if v == 37 { seq![6u8, 28, 54, 80, 106, 132, 158] } else if v == 38 { seq![6u8, 32, 58, 84, 110, 136, 162] } else if v == 39 { seq![6u8, 26, 54, 82, 110, 138, 166] } else { seq![6u8, 30, 58, 86, 114, 142, 170] }
}


/// Every alignment centre sits at least six modules from the left and top
/// edges and seven from the right and bottom ones.
pub proof fn lemma_alignment_centres_bounds(v: int)
    requires
        1 <= v <= 40,
    ensures
        forall|i: int|
            0 <= i < spec_alignment_centres(v).len() ==> 6 <= #[trigger] spec_alignment_centres(
                v,
            )[i] as int <= 21 + 4 * (v - 1) - 7,
{
    if v == 1 {
    } else if v == 2 {
    } else if v == 3 {
    } else if v == 4 {
    } else if v == 5 {
    } else if v == 6 {
    } else if v == 7 {
    } else if v == 8 {
    } else if v == 9 {
    } else if v == 10 {
    } else if v == 11 {
    } else if v == 12 {
    } else if v == 13 {
    } else if v == 14 {
    } else if v == 15 {
    } else if v == 16 {
    } else if v == 17 {
    } else if v == 18 {
    } else if v == 19 {
    } else if v == 20 {
    } else if v == 21 {
    } else if v == 22 {
    } else if v == 23 {
    } else if v == 24 {
    } else if v == 25 {
    } else if v == 26 {
    } else if v == 27 {
    } else if v == 28 {
    } else if v == 29 {
    } else if v == 30 {
    } else if v == 31 {
    } else if v == 32 {
    } else if v == 33 {
    } else if v == 34 {
    } else if v == 35 {
    } else if v == 36 {
    } else if v == 37 {
    } else if v == 38 {
    } else if v == 39 {
    } else {
    }
}

/// Centres of the alignment patterns of a version, in ascending order.
pub fn alignment_centres(version: u8) -> (r: Vec<u8>)
    requires
        1 <= version <= 40,
    ensures
        r@ == spec_alignment_centres(version as int),
{
    let r: Vec<u8> = match version {
        1 => Vec::new(),
        2 => vec![6, 18],
        3 => vec![6, 22],
        4 => vec![6, 26],
        5 => vec![6, 30],
        6 => vec![6, 34],
        7 => vec![6, 22, 38],
        8 => vec![6, 24, 42],
        9 => vec![6, 26, 46],
        10 => vec![6, 28, 50],
        11 => vec![6, 30, 54],
        12 => vec![6, 32, 58],
        13 => vec![6, 34, 62],
        14 => vec![6, 26, 46, 66],
        15 => vec![6, 26, 48, 70],
        16 => vec![6, 26, 50, 74],
        17 => vec![6, 30, 54, 78],
        18 => vec![6, 30, 56, 82],
        19 => vec![6, 30, 58, 86],
        20 => vec![6, 34, 62, 90],
        21 => vec![6, 28, 50, 72, 94],
        22 => vec![6, 26, 50, 74, 98],
        23 => vec![6, 30, 54, 78, 102],
        24 => vec![6, 28, 54, 80, 106],
        25 => vec![6, 32, 58, 84, 110],
        26 => vec![6, 30, 58, 86, 114],
        27 => vec![6, 34, 62, 90, 118],
        28 => vec![6, 26, 50, 74, 98, 122],
        29 => vec![6, 30, 54, 78, 102, 126],
        30 => vec![6, 26, 52, 78, 104, 130],
        31 => vec![6, 30, 56, 82, 108, 134],
        32 => vec![6, 34, 60, 86, 112, 138],
        33 => vec![6, 30, 58, 86, 114, 142],
        34 => vec![6, 34, 62, 90, 118, 146],
        35 => vec![6, 30, 54, 78, 102, 126, 150],
        36 => vec![6, 24, 50, 76, 102, 128, 154],
        37 => vec![6, 28, 54, 80, 106, 132, 158],
        38 => vec![6, 32, 58, 84, 110, 136, 162],
        39 => vec![6, 26, 54, 82, 110, 138, 166],
        _ => vec![6, 30, 58, 86, 114, 142, 170],
    };
    proof {
        assert(r@ =~= spec_alignment_centres(version as int));
    }
    r
}


/// Per-block (data length, error-correction length) in transmission order:
/// the shorter blocks come first, the blocks one data codeword longer last.
pub open spec fn spec_block_layout(ecc: ECCLevel, v: int) -> Seq<(u16, u16)> {
    let n = spec_num_blocks(ecc, v) as int;
    let c = spec_ecc_codewords(ecc, v) as int;
    let d = spec_data_codewords(ecc, v);
    let short = d / n;
    let nlong = d % n;
    Seq::new(
        n as nat,
        |i: int|
            if i < n - nlong {
                ((short as u16), (c as u16))
            } else {
                ((short + 1) as u16, c as u16)
            },
    )
}

/// Sum of the data lengths of a block list.
pub open spec fn sum_data_len(blocks: Seq<(u16, u16)>) -> int
    decreases blocks.len(),
{
    if blocks.len() == 0 {
        0
    } else {
        blocks[0].0 + sum_data_len(blocks.drop_first())
    }
}

proof fn lemma_sum_mixed(n: int, a: int, x: u16, c: u16)
    requires
        0 <= a <= n,
        x < 0xFFFF,
    ensures
        sum_data_len(
            Seq::new(
                n as nat,
                |i: int| if i < a { (x, c) } else { ((x + 1) as u16, c) },
            ),
        ) == n * x + (n - a),
    decreases n,
{
    let s = Seq::new(n as nat, |i: int| if i < a { (x, c) } else { ((x + 1) as u16, c) });
    if n == 0 {
        assert(n * x == 0) by (nonlinear_arith)
            requires
                n == 0,
        ;
    } else {
        if a > 0 {
            lemma_sum_mixed(n - 1, a - 1, x, c);
            assert(s.drop_first() =~= Seq::new(
                (n - 1) as nat,
                |i: int| if i < a - 1 { (x, c) } else { ((x + 1) as u16, c) },
            ));
            assert(sum_data_len(s) == x + sum_data_len(s.drop_first()));
            assert(n * x == (n - 1) * x + x) by (nonlinear_arith);
        } else {
            lemma_sum_mixed(n - 1, 0, x, c);
            assert(s.drop_first() =~= Seq::new(
                (n - 1) as nat,
                |i: int| if i < 0 { (x, c) } else { ((x + 1) as u16, c) },
            ));
            assert(sum_data_len(s) == (x + 1) + sum_data_len(s.drop_first()));
            assert(n * x == (n - 1) * x + x) by (nonlinear_arith);
        }
    }
}

/// The data lengths of the block layout sum to exactly the data-codeword
/// capacity of the version and level.
pub proof fn lemma_block_capacity(ecc: ECCLevel, v: int)
    requires
        1 <= v <= 40,
    ensures
        sum_data_len(spec_block_layout(ecc, v)) == spec_capacity_bits(ecc, v) / 8,
{
    lemma_tables_ok(ecc, v);
    let n = spec_num_blocks(ecc, v) as int;
    let c = spec_ecc_codewords(ecc, v) as int;
    let d = spec_data_codewords(ecc, v);
    let short = d / n;
    let nlong = d % n;
    vstd::arithmetic::div_mod::lemma_fundamental_div_mod(d, n);
    vstd::arithmetic::div_mod::lemma_mod_bound(d, n);
    assert(n <= d <= 3706);
    assert(0 <= short <= d) by (nonlinear_arith)
        requires
            n >= 1,
            d >= 0,
            short == d / n,
    ;
    assert(short >= 1) by (nonlinear_arith)
        requires
            n <= d,
            n >= 1,
            short == d / n,
    ;
    assert(spec_block_layout(ecc, v) =~= Seq::new(
        n as nat,
        |i: int|
            if i < n - nlong {
                ((short as u16), (c as u16))
            } else {
                ((short as u16 + 1) as u16, c as u16)
            },
    ));
    lemma_sum_mixed(n, n - nlong, short as u16, c as u16);
    assert(8 * d / 8 == d);
}

/// The block layout of a version and level: (data length, error-correction
/// length) per block, short blocks first.
pub fn block_layout(ecc: &ECCLevel, version: u8) -> (r: Vec<(u16, u16)>)
    requires
        1 <= version <= 40,
    ensures
        r@ == spec_block_layout(*ecc, version as int),
{
    proof {
        lemma_tables_ok(*ecc, version as int);
    }
    let total = total_codewords(version);
    let c = ecc_codewords(ecc, version);
    let n = num_blocks(ecc, version);
    let d = total - n * c;
    let short = d / n;
    let nlong = d % n;
    proof {
        assert((d as int) / (n as int) <= d as int) by (nonlinear_arith)
            requires
                n as int >= 1,
                d as int >= 0,
        ;
    }
    let mut r: Vec<(u16, u16)> = Vec::new();
    let mut i: u16 = 0;
    while i < n
        invariant
            i <= n,
            n >= 1,
            short == spec_data_codewords(*ecc, version as int) / n as int,
            nlong == spec_data_codewords(*ecc, version as int) % n as int,
            short < 0xFFFF,
            n == spec_num_blocks(*ecc, version as int),
            c == spec_ecc_codewords(*ecc, version as int),
            r@ == spec_block_layout(*ecc, version as int).take(i as int),
        decreases n - i,
    {
        if i < n - nlong {
            r.push((short, c));
        } else {
            r.push((short + 1, c));
        }
        proof {
            assert(spec_block_layout(*ecc, version as int).take(i + 1) =~= spec_block_layout(
                *ecc,
                version as int,
            ).take(i as int).push(r@.last()));
        }
        i = i + 1;
    }
    proof {
        assert(spec_block_layout(*ecc, version as int).take(n as int) =~= spec_block_layout(
            *ecc,
            version as int,
        ));
    }
    r
}

/// Bits left over after the codewords fill the data modules.
pub fn remainder_bits(version: u8) -> (r: u8)
    requires
        1 <= version <= 40,
    ensures
        r == spec_remainder_bits(version as int),
{
    if version == 1 {
        0
    } else if version <= 6 {
        7
    } else if version <= 13 {
        0
    } else if version <= 20 {
        3
    } else if version <= 27 {
        4
    } else if version <= 34 {
        3
    } else {
        0
    }
}

/// Bits left over after the codewords fill the data modules.
pub open spec fn spec_remainder_bits(v: int) -> int {
    if v == 1 { 0 }
    else if v <= 6 { 7 }
    else if v <= 13 { 0 }
    else if v <= 20 { 3 }
    else if v <= 27 { 4 }
    else if v <= 34 { 3 }
    else { 0 }
}

} // verus!
