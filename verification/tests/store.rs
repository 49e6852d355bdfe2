use yatzy_tables::bitstore::{
    BitWriter, get_ind_from_bits, num_to_bits, read_record, record_byte_range, read_record_in,
};
use yatzy_tables::offsets::{clip_bucket, flat_offset, get_index, offset_to_state};
use yatzy_tables::query::{pack_records, score_from_bytes, scores_to_bytes};

#[test]
fn bit_round_trip_across_byte_boundaries() {
    // width 5: records 7 and 8 straddle a byte boundary
    let records: Vec<u64> = (0..12).map(|i| (i * 7 + 3) % 32).collect();
    let mut w = BitWriter::new();
    for &r in &records {
        w.push_record(r, 5);
    }
    let bytes = w.finish();
    assert_eq!(bytes.len(), (12 * 5 + 7) / 8);
    for i in 0..records.len() {
        assert_eq!(read_record(&bytes, i as u64, 5), records[i]);
    }
    // the two records sharing one byte read back exactly
    assert_eq!(read_record(&bytes, 7, 5), records[7]);
    assert_eq!(read_record(&bytes, 8, 5), records[8]);
}

#[test]
fn packed_records_match_writer() {
    let records: Vec<u64> = vec![1, 2, 3, 30, 31, 0, 17];
    let packed = pack_records(&records, 5);
    for i in 0..records.len() {
        assert_eq!(read_record(&packed, i as u64, 5), records[i]);
    }
}

#[test]
fn record_byte_ranges_follow_the_contract() {
    // width 5, record 7: bits 35..39 lie in bytes 4..=4
    assert_eq!(record_byte_range(7, 5), (4, 4, 3));
    // record 8: bits 40..44 in byte 5
    assert_eq!(record_byte_range(8, 5), (5, 5, 0));
    // width 3, record 2: bits 6..8 straddle bytes 0 and 1
    assert_eq!(record_byte_range(2, 3), (0, 1, 6));
}

#[test]
fn record_extraction_from_a_chunk() {
    let records: Vec<u64> = (0..20).map(|i| (i * 13 + 1) % 8).collect();
    let packed = pack_records(&records, 3);
    for i in 0..records.len() {
        let (start, stop, off) = record_byte_range(i as u64, 3);
        let chunk = &packed[start as usize..=stop as usize];
        assert_eq!(read_record_in(chunk, off as usize, 3), records[i]);
    }
}

#[test]
fn bits_and_numbers_round_trip() {
    for n in 0..32u64 {
        let bits = num_to_bits(n, 5);
        assert_eq!(bits.len(), 5);
        assert_eq!(get_ind_from_bits(&bits) as u64, n);
    }
    let bits = num_to_bits(13, 4);
    assert_eq!(bits, vec![true, false, true, true]);
}

#[test]
fn flat_offsets_invert() {
    let dd = 252u64;
    let bb = 64u64;
    let off = flat_offset(17, 9, 1001, dd, bb);
    assert_eq!(off, 17 + (9 + 1001 * bb) * dd);
    assert_eq!(offset_to_state(off, dd, bb), (17, 9, 1001));
    // distinct states give distinct offsets
    let off2 = flat_offset(18, 9, 1001, dd, bb);
    assert_ne!(off, off2);
    let off3 = flat_offset(17, 10, 1001, dd, bb);
    assert_ne!(off, off3);
}

#[test]
fn file_offsets_and_clipping() {
    assert_eq!(get_index(10, 3, 252), 10 + 3 * 252);
    assert_eq!(clip_bucket(62, 64), 62);
    assert_eq!(clip_bucket(63, 64), 63);
    assert_eq!(clip_bucket(90, 64), 63);
    assert_eq!(clip_bucket(200, 85), 84);
}

#[test]
fn score_bytes_round_trip() {
    let scores: Vec<u32> = vec![0, 1, 0xFFFF_FFFF, 50 * 65536, 123456789];
    let bytes = scores_to_bytes(&scores);
    assert_eq!(bytes.len(), 4 * scores.len());
    for i in 0..scores.len() {
        assert_eq!(score_from_bytes(&bytes, i), scores[i]);
    }
    // little-endian layout of the second record
    assert_eq!(&bytes[4..8], &[1, 0, 0, 0]);
}
