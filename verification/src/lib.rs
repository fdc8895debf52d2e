//! Analysis pipeline for GNSS interferometric reflectometry: typed
//! observations parsed from NMEA sentences or a packed wire format are
//! grouped into per-satellite arcs; downstream stages reduce each arc to a
//! reflector-height estimate.

pub mod arcs;
pub mod burst;
pub mod codec;
pub mod nmea;
pub mod packed;
pub mod record;
pub mod resolver;
pub mod sorting;
pub mod text;

pub use arcs::ARC_GAP_SECONDS;
pub use arcs::Arc;
pub use arcs::ArcDatabase;
pub use arcs::ArcView;
pub use arcs::find_arcs;
pub use arcs::lemma_arc_gap_bound;
pub use arcs::lemma_arc_well_formed;
pub use arcs::lemma_distinct_ids_exact;
pub use arcs::lemma_arcs_partition_id;
pub use arcs::lemma_segmenter_deterministic;
pub use arcs::spec_arc_views;
pub use arcs::spec_concat_indices;
pub use arcs::spec_distinct_ids;
pub use arcs::spec_find_arcs;
pub use arcs::spec_indices_for;
pub use arcs::spec_sorted_indices_for;
pub use nmea::GsvEntry;
pub use nmea::command_to_network;
pub use nmea::find_gsv_records_into;
pub use nmea::nmea_to_records;
pub use nmea::correct_sattelite_id;
pub use nmea::find_gga_time;
pub use nmea::is_nmea_command;
pub use nmea::is_valid_nmea_sentence;
pub use nmea::number_to_band;
pub use burst::parse_burst;
pub use burst::parse_gga;
pub use burst::parse_gsv;
pub use burst::parse_word_as_u32;
pub use burst::fix_sat;
pub use burst::is_command;
pub use codec::fletcher64_of;
pub use codec::transform_u32_to_array_of_u8;
pub use codec::verify_burst;
pub use codec::words_from_le_bytes;
pub use packed::number_to_network;
pub use packed::unpack;
pub use resolver::remove_outliers_iqr;
pub use resolver::spec_iqr_filtered;
pub use record::Band;
pub use record::Config;
pub use record::Network;
pub use record::Record;
pub use record::RecordDatabase;
pub use record::band_code;
pub use record::compose_id;
pub use record::in_bounds;
pub use record::network_code;
pub use sorting::sort_i64;
pub use sorting::sort_indices_by_time;
pub use sorting::spec_i64_order;
pub use sorting::spec_time_order;
