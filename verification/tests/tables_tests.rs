use qr_gen::generator::combine_data_err;
use qr_gen::tables::{
    block_layout, qr_capacity_query, qr_version_query, remainder_bits, total_codewords,
};
use qr_gen::qr::{align_pairs, module_reserved};
use qr_gen::ECCLevel;

fn levels() -> Vec<ECCLevel> {
    vec![ECCLevel::Low, ECCLevel::Medium, ECCLevel::Quartile, ECCLevel::High]
}

#[test]
fn capacities_of_version_one() {
    assert_eq!(qr_capacity_query(&ECCLevel::Low, 1), 19 * 8);
    assert_eq!(qr_capacity_query(&ECCLevel::Medium, 1), 16 * 8);
    assert_eq!(qr_capacity_query(&ECCLevel::Quartile, 1), 13 * 8);
    assert_eq!(qr_capacity_query(&ECCLevel::High, 1), 9 * 8);
}

#[test]
fn capacity_of_version_forty_low() {
    assert_eq!(qr_capacity_query(&ECCLevel::Low, 40), 2956 * 8);
    assert_eq!(total_codewords(40), 3706);
}

#[test]
fn version_query_boundaries() {
    assert_eq!(qr_version_query(&ECCLevel::Low, 19 * 8), 1);
    assert_eq!(qr_version_query(&ECCLevel::Low, 19 * 8 + 1), 2);
    assert_eq!(qr_version_query(&ECCLevel::Low, 2956 * 8), 40);
    assert_eq!(qr_version_query(&ECCLevel::Low, 2956 * 8 + 1), 41);
    // 7089 decimal digits need exactly the version forty capacity at the
    // low level; 7090 need more than any version offers.
    let bits_7089 = 4 + 14 + 10 * (7089 / 3);
    assert_eq!(bits_7089, 23648);
    assert_eq!(qr_version_query(&ECCLevel::Low, bits_7089), 40);
    let bits_7090 = 4 + 14 + 10 * (7090 / 3) + 4;
    assert_eq!(qr_version_query(&ECCLevel::Low, bits_7090), 41);
}

#[test]
fn block_layout_version_five_quartile() {
    // Four blocks of eighteen error codewords; data 15, 15, 16, 16.
    let blocks = block_layout(&ECCLevel::Quartile, 5);
    assert_eq!(blocks, vec![(15, 18), (15, 18), (16, 18), (16, 18)]);
}

#[test]
fn block_data_sums_match_capacity_everywhere() {
    for ecc in levels() {
        for v in 1..=40u8 {
            let blocks = block_layout(&ecc, v);
            let sum: u32 = blocks.iter().map(|b| b.0 as u32).sum();
            assert_eq!(sum, qr_capacity_query(&ecc, v) as u32 / 8, "v{v}");
            // Short blocks first, longer ones last.
            for w in blocks.windows(2) {
                assert!(w[0].0 <= w[1].0);
                assert_eq!(w[0].1, w[1].1);
            }
        }
    }
}

#[test]
fn data_modules_match_codewords_and_remainder() {
    // The unreserved module count equals eight bits per codeword plus the
    // version's remainder bits.
    for v in 1..=40u8 {
        let size = 21 + 4 * (v as usize - 1);
        let mut unreserved = 0u32;
        for y in 0..size {
            for x in 0..size {
                if !module_reserved(v, x, y) {
                    unreserved += 1;
                }
            }
        }
        let expect = 8 * total_codewords(v) as u32 + remainder_bits(v) as u32;
        assert_eq!(unreserved, expect, "version {v}");
    }
}

#[test]
fn interleaving_reads_column_major() {
    let datas = vec![vec![1u8, 2, 3], vec![4, 5], vec![6, 7, 8, 9]];
    let errs = vec![vec![10u8, 11], vec![12, 13]];
    let combined = combine_data_err(&datas, &errs);
    assert_eq!(combined, vec![1, 4, 6, 2, 5, 7, 3, 8, 9, 10, 12, 11, 13]);
}

#[test]
fn alignment_pairs_drop_the_finder_corners() {
    assert!(align_pairs(1).is_empty());
    assert_eq!(align_pairs(2), vec![(18, 18)]);
    assert_eq!(
        align_pairs(7),
        vec![(6, 22), (22, 6), (22, 22), (22, 38), (38, 22), (38, 38)]
    );
}
