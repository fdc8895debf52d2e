//! Sentence parsing on concrete NMEA input.

use gnssir::{command_to_network, correct_sattelite_id, find_gga_time, find_gsv_records_into,
    is_nmea_command, is_valid_nmea_sentence, nmea_to_records, number_to_band, Band, Config,
    Network, Record};

fn config() -> Config {
    Config { min_elevation: 5, max_elevation: 15, min_azimuth: 50, max_azimuth: 150 }
}

#[test]
fn valid_sentence_shape() {
    assert!(is_valid_nmea_sentence("$GPGGA,123519*47"));
    assert!(!is_valid_nmea_sentence("GPGGA,123519*47"));
    assert!(!is_valid_nmea_sentence("$GPGGA,123519"));
    assert!(!is_valid_nmea_sentence(""));
}

#[test]
fn command_matching() {
    assert!(is_nmea_command("$GPGSV", "GSV"));
    assert!(is_nmea_command("$GLGSV,more", "GSV"));
    assert!(!is_nmea_command("$GPGGA", "GSV"));
    assert!(!is_nmea_command("$GP", "GSV"));
    assert!(!is_nmea_command("$GPGSV", "GS"));
}

#[test]
fn talker_to_network() {
    assert_eq!(command_to_network("$GPGSV"), Some(Network::GPS));
    assert_eq!(command_to_network("$GAGSV"), Some(Network::Galileo));
    assert_eq!(command_to_network("$GBGSV"), Some(Network::BeiDou));
    assert_eq!(command_to_network("$GLGSV"), Some(Network::GLONASS));
    assert_eq!(command_to_network("$XXGSV"), Some(Network::Unknown));
    assert_eq!(command_to_network("$G"), None);
}

#[test]
fn satellite_correction() {
    assert_eq!(correct_sattelite_id(65, Network::GLONASS), 1);
    assert_eq!(correct_sattelite_id(10, Network::GLONASS), 10);
    assert_eq!(correct_sattelite_id(193, Network::GPS), 65);
    assert_eq!(correct_sattelite_id(32, Network::GPS), 32);
    assert_eq!(correct_sattelite_id(200, Network::Galileo), 200);
}

#[test]
fn signal_id_to_band() {
    assert_eq!(number_to_band(1), Band::L1);
    assert_eq!(number_to_band(5), Band::L5);
    assert_eq!(number_to_band(7), Band::L5);
    assert_eq!(number_to_band(8), Band::L5);
    assert_eq!(number_to_band(2), Band::Unknown);
}

#[test]
fn gga_time_of_day() {
    let s = "$GPGGA,123519,4807.038,N,01131.000,E,1,08,0.9,545.4,M,46.9,M,,*47";
    assert_eq!(find_gga_time(s), Some(12 * 3600 + 35 * 60 + 19));
    // Surrounding whitespace is trimmed first.
    assert_eq!(find_gga_time("  $GPGGA,000130*00\r\n"), Some(90));
    // Not a fix sentence, too short a time field, or malformed digits.
    assert_eq!(find_gga_time("$GPGSV,123519*47"), None);
    assert_eq!(find_gga_time("$GPGGA,1235*47"), None);
    assert_eq!(find_gga_time("$GPGGA,12x519*47"), None);
    assert_eq!(find_gga_time("$GPGGA*47"), None);
}

#[test]
fn gsv_sentence_yields_records() {
    let mut records: Vec<Record> = Vec::new();
    let s = "$GPGSV,1,1,02,10,10,100,45,11,12,120,40,1*75";
    find_gsv_records_into(s, 3600, &config(), &mut records);
    assert_eq!(records.len(), 2);
    let r0 = &records[0];
    assert_eq!(r0.satellite, 10);
    assert_eq!(r0.network, Network::GPS);
    assert_eq!(r0.band, Band::L1);
    assert_eq!(r0.id, 10010);
    assert_eq!(r0.elevation, 10);
    assert_eq!(r0.azimuth, 100);
    assert_eq!(r0.snr, 45);
    assert_eq!(r0.time, 3600);
    let r1 = &records[1];
    assert_eq!(r1.satellite, 11);
    assert_eq!(r1.id, 10011);
    assert_eq!(r1.elevation, 12);
    assert_eq!(r1.azimuth, 120);
    assert_eq!(r1.snr, 40);
}

#[test]
fn gsv_filters_by_configured_window() {
    let mut records: Vec<Record> = Vec::new();
    // First block's elevation (70) lies outside the 5..15 window.
    let s = "$GPGSV,1,1,02,10,70,100,45,11,12,120,40,1*75";
    find_gsv_records_into(s, 0, &config(), &mut records);
    assert_eq!(records.len(), 1);
    assert_eq!(records[0].satellite, 11);
}

#[test]
fn gsv_skips_malformed_block() {
    let mut records: Vec<Record> = Vec::new();
    // The first block's elevation is not a number: the block drops, the
    // following block and the band field still parse.
    let s = "$GPGSV,1,1,02,10,xx,100,45,11,12,120,40,1*75";
    find_gsv_records_into(s, 0, &config(), &mut records);
    assert_eq!(records.len(), 1);
    assert_eq!(records[0].satellite, 11);
    assert_eq!(records[0].band, Band::L1);
}

#[test]
fn gsv_without_band_field_yields_nothing() {
    let mut records: Vec<Record> = Vec::new();
    // The band field is empty: the whole sentence contributes nothing.
    let s = "$GPGSV,1,1,01,10,10,100,45*";
    find_gsv_records_into(s, 0, &config(), &mut records);
    assert_eq!(records.len(), 0);
}

#[test]
fn gsv_l5_band_marks_ids() {
    let mut records: Vec<Record> = Vec::new();
    let s = "$GAGSV,1,1,01,05,10,100,45,7*41";
    find_gsv_records_into(s, 0, &config(), &mut records);
    assert_eq!(records.len(), 1);
    assert_eq!(records[0].network, Network::Galileo);
    assert_eq!(records[0].band, Band::L5);
    // id = (network + 1) * 10000 + band * 1000 + satellite
    assert_eq!(records[0].id, 2 * 10000 + 1000 + 5);
}

#[test]
fn gsv_empty_satellite_field_ends_walk_early() {
    let mut records: Vec<Record> = Vec::new();
    // The second block's satellite field is empty: the walk stops there and
    // the band is read from the field right after it.
    let s = "$GPGSV,2,1,05,10,10,100,45,,1*75";
    find_gsv_records_into(s, 0, &config(), &mut records);
    assert_eq!(records.len(), 1);
    assert_eq!(records[0].satellite, 10);
    assert_eq!(records[0].band, Band::L1);
}

#[test]
fn gsv_corrects_glonass_numbers() {
    let mut records: Vec<Record> = Vec::new();
    let s = "$GLGSV,1,1,01,70,10,100,45,1*75";
    find_gsv_records_into(s, 0, &config(), &mut records);
    assert_eq!(records.len(), 1);
    assert_eq!(records[0].network, Network::GLONASS);
    assert_eq!(records[0].satellite, 6);
    assert_eq!(records[0].id, 4 * 10000 + 6);
}

#[test]
fn session_fold_stamps_gsv_with_latest_fix_time() {
    let sentences: Vec<String> = vec![
        "$GPGSV,1,1,01,10,10,100,45,1*75".to_string(),
        "$GPGGA,010000,4807.038,N*47".to_string(),
        "$GPGSV,1,1,01,11,12,120,40,1*75".to_string(),
    ];
    let records = nmea_to_records(sentences, &config());
    assert_eq!(records.len(), 2);
    // Before any fix, the time is the explicit not-yet-fixed sentinel.
    assert_eq!(records[0].time, i64::MAX);
    assert_eq!(records[1].time, 3600);
}

#[test]
fn session_ignores_foreign_sentences() {
    let sentences: Vec<String> = vec![
        "$GPRMC,123519,A*00".to_string(),
        "not a sentence".to_string(),
        String::new(),
    ];
    let records = nmea_to_records(sentences, &config());
    assert_eq!(records.len(), 0);
}
