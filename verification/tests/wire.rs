//! The packed wire format: burst encoding, word decoding, framing and the
//! checksum gate.

use gnssir::{parse_burst, parse_gga, parse_word_as_u32, fix_sat, is_command,
    transform_u32_to_array_of_u8, unpack, verify_burst, words_from_le_bytes, Band, Config,
    Network};
use gnssir::packed::{number_to_band, number_to_network, pack_fields};

fn wide_open() -> Config {
    Config { min_elevation: 0, max_elevation: 90, min_azimuth: 0, max_azimuth: 359 }
}

fn chars_of(s: &str) -> Vec<char> {
    s.chars().collect()
}

#[test]
fn burst_command_matching() {
    assert!(is_command("$GNGGA", "GGA"));
    assert!(is_command("$GPGSV", "GSV"));
    assert!(!is_command("$GNGGA", "GSV"));
    assert!(!is_command("$GNGGA,extra", "GGA"));
    assert!(!is_command("GNGGA", "GGA"));
}

#[test]
fn burst_gga_time() {
    let toks: Vec<Vec<char>> = vec![chars_of("$GNGGA"), chars_of("123519"), chars_of("x")];
    assert_eq!(parse_gga(&toks), Some(12 * 3600 + 35 * 60 + 19));
    let short: Vec<Vec<char>> = vec![chars_of("$GNGGA"), chars_of("1235")];
    assert_eq!(parse_gga(&short), None);
    let lone: Vec<Vec<char>> = vec![chars_of("$GNGGA")];
    assert_eq!(parse_gga(&lone), None);
}

#[test]
fn optional_word_parsing() {
    assert_eq!(parse_word_as_u32(Some("42")), Some(42));
    assert_eq!(parse_word_as_u32(Some("0")), Some(0));
    assert_eq!(parse_word_as_u32(Some("4294967295")), Some(u32::MAX));
    assert_eq!(parse_word_as_u32(Some("4294967296")), None);
    assert_eq!(parse_word_as_u32(Some("4x")), None);
    assert_eq!(parse_word_as_u32(Some("")), None);
    assert_eq!(parse_word_as_u32(None), None);
}

#[test]
fn numeric_satellite_correction() {
    assert_eq!(fix_sat(70, 3), 6);
    assert_eq!(fix_sat(10, 3), 10);
    assert_eq!(fix_sat(200, 0), 72);
    assert_eq!(fix_sat(100, 0), 100);
    assert_eq!(fix_sat(200, 1), 200);
}

#[test]
fn wire_codes() {
    assert_eq!(number_to_network(0), Network::GPS);
    assert_eq!(number_to_network(1), Network::Galileo);
    assert_eq!(number_to_network(2), Network::BeiDou);
    assert_eq!(number_to_network(3), Network::GLONASS);
    assert_eq!(number_to_network(9), Network::Unknown);
    assert_eq!(number_to_band(0), Band::L1);
    assert_eq!(number_to_band(1), Band::L5);
    assert_eq!(gnssir::burst::number_to_band(1), 0);
    assert_eq!(gnssir::burst::number_to_band(7), 1);
    assert_eq!(gnssir::burst::number_to_band(9), 0);
}

#[test]
fn unpack_decodes_packed_words() {
    let w1 = pack_fields(10, 0, 10, 100, 45, 0);
    let w2 = pack_fields(11, 1, 12, 120, 40, 1);
    let header: u32 = 3600 * 256 + 2;
    let records = unpack(vec![header, w1, w2], &wide_open());
    assert_eq!(records.len(), 2);
    assert_eq!(records[0].satellite, 10);
    assert_eq!(records[0].network, Network::GPS);
    assert_eq!(records[0].band, Band::L1);
    assert_eq!(records[0].elevation, 10);
    assert_eq!(records[0].azimuth, 100);
    assert_eq!(records[0].snr, 45);
    assert_eq!(records[0].time, 3600);
    assert_eq!(records[0].id, 10010);
    assert_eq!(records[1].satellite, 11);
    assert_eq!(records[1].network, Network::Galileo);
    assert_eq!(records[1].band, Band::L5);
    assert_eq!(records[1].id, 2 * 10000 + 1000 + 11);
}

#[test]
fn unpack_filters_by_configured_window() {
    let config = Config { min_elevation: 5, max_elevation: 15, min_azimuth: 50, max_azimuth: 150 };
    let inside = pack_fields(10, 0, 10, 100, 45, 0);
    let outside = pack_fields(11, 0, 70, 100, 45, 0);
    let header: u32 = 2 + 256;
    let records = unpack(vec![header, inside, outside], &config);
    assert_eq!(records.len(), 1);
    assert_eq!(records[0].satellite, 10);
}

#[test]
fn unpack_stops_at_short_burst() {
    // The header announces three packed words; only one follows.
    let w1 = pack_fields(10, 0, 10, 100, 45, 0);
    let header: u32 = 3 + 256;
    let records = unpack(vec![header, w1], &wide_open());
    assert_eq!(records.len(), 1);
}

#[test]
fn unpack_reads_consecutive_bursts() {
    let w1 = pack_fields(10, 0, 10, 100, 45, 0);
    let w2 = pack_fields(11, 0, 12, 120, 40, 0);
    let h1: u32 = 100 * 256 + 1;
    let h2: u32 = 200 * 256 + 1;
    let records = unpack(vec![h1, w1, h2, w2], &wide_open());
    assert_eq!(records.len(), 2);
    assert_eq!(records[0].time, 100);
    assert_eq!(records[1].time, 200);
}

#[test]
fn burst_encoder_packs_gsv_blocks() {
    let lines: Vec<String> = vec![
        "$GNGGA,123519,4807.038,N*47".to_string(),
        "$GPGSV,1,1,02,10,10,100,45,11,12,120,40,1*75".to_string(),
    ];
    let words = parse_burst(lines);
    assert_eq!(words.len(), 3);
    let time: i64 = 12 * 3600 + 35 * 60 + 19;
    assert_eq!(words[0], (time as u32) * 256 + 2);
    assert_eq!(words[1], pack_fields(10, 0, 10, 100, 45, 0));
    assert_eq!(words[2], pack_fields(11, 0, 12, 120, 40, 0));
    // The encoder's output decodes back to the original observations.
    let records = unpack(words, &wide_open());
    assert_eq!(records.len(), 2);
    assert_eq!(records[0].satellite, 10);
    assert_eq!(records[0].elevation, 10);
    assert_eq!(records[0].azimuth, 100);
    assert_eq!(records[0].snr, 45);
    assert_eq!(records[0].time, time);
    assert_eq!(records[1].satellite, 11);
}

#[test]
fn burst_encoder_without_fix_uses_sentinel_time() {
    let lines: Vec<String> = vec!["$GPGSV,1,1,01,10,10,100,45,1*75".to_string()];
    let words = parse_burst(lines);
    assert_eq!(words.len(), 2);
    // Header: low 24 bits of the not-yet-fixed sentinel, then the count.
    assert_eq!(words[0], 0x00FF_FFFF * 256 + 1);
}

#[test]
fn burst_encoder_l5_band_bit() {
    let lines: Vec<String> = vec!["$GAGSV,1,1,01,05,10,100,45,7*41".to_string()];
    let words = parse_burst(lines);
    assert_eq!(words.len(), 2);
    assert_eq!(words[1], pack_fields(5, 1, 10, 100, 45, 1));
    assert_eq!(words[1] & 1, 1);
}

#[test]
fn burst_encoder_skips_malformed_blocks() {
    let lines: Vec<String> = vec![
        "$GPGSV,1,1,02,10,xx,100,45,11,12,120,40,1*75".to_string(),
    ];
    let words = parse_burst(lines);
    assert_eq!(words.len(), 2);
    assert_eq!(words[1], pack_fields(11, 0, 12, 120, 40, 0));
}

#[test]
fn burst_encoder_rejects_oversized_fields() {
    // Azimuth 600 does not fit its nine-bit slot.
    let lines: Vec<String> = vec![
        "$GPGSV,1,1,01,10,10,600,45,1*75".to_string(),
    ];
    let words = parse_burst(lines);
    assert_eq!(words.len(), 1);
    assert_eq!(words[0] & 0xFF, 0);
}

#[test]
fn checksum_gate_accepts_matching_burst() {
    let payload: Vec<u32> = vec![0xA0F1_5604, 0x8285_6B93, 0xC439_5038];
    let sum: u64 = fletcher::calc_fletcher64(&payload);
    let mut words = payload.clone();
    words.push((sum & 0xFFFF_FFFF) as u32);
    words.push((sum >> 32) as u32);
    assert_eq!(verify_burst(&words), Some(payload));
}

#[test]
fn checksum_gate_rejects_corrupt_burst() {
    let payload: Vec<u32> = vec![1, 2, 3, 4];
    let sum: u64 = fletcher::calc_fletcher64(&payload);
    let mut words = payload.clone();
    words.push((sum & 0xFFFF_FFFF) as u32);
    words.push((sum >> 32) as u32);
    words[0] ^= 1;
    assert_eq!(verify_burst(&words), None);
    assert_eq!(verify_burst(&vec![7]), None);
}

#[test]
fn le_word_assembly() {
    let bytes: Vec<u8> = vec![1, 0, 0, 0, 0x78, 0x56, 0x34, 0x12, 0xAA];
    let words = words_from_le_bytes(&bytes);
    assert_eq!(words, vec![1, 0x1234_5678, 0xAA]);
    assert_eq!(words_from_le_bytes(&Vec::new()), Vec::<u32>::new());
}

#[test]
fn be_byte_split() {
    assert_eq!(transform_u32_to_array_of_u8(0x1234_5678), [0x12, 0x34, 0x56, 0x78]);
    assert_eq!(transform_u32_to_array_of_u8(0), [0, 0, 0, 0]);
    let b = transform_u32_to_array_of_u8(0xDEAD_BEEF);
    let back: u32 = ((b[0] as u32) << 24) | ((b[1] as u32) << 16) | ((b[2] as u32) << 8)
        | (b[3] as u32);
    assert_eq!(back, 0xDEAD_BEEF);
}
