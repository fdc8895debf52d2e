//! The packed wire format moving observations from the collection device to
//! the analysis device: one 32-bit word per observation, holding — from
//! least to most significant bit — 1 bit band, 6 bits signal strength,
//! 9 bits azimuth, 7 bits elevation, 2 bits constellation and 7 bits
//! satellite number; per burst, a header word holding the time of day in
//! its upper 24 bits and the record count in its lower 8.

use vstd::prelude::*;

use crate::record::Band;
use crate::record::Config;
use crate::record::Network;
use crate::record::Record;
use crate::record::spec_compose_id;
use crate::record::spec_in_bounds;
use crate::record::compose_id;
use crate::record::in_bounds;

verus! {

/// The constellation a two-bit wire code denotes.
pub open spec fn spec_number_to_network(num: u32) -> Network {
    if num == 0 {
        Network::GPS
    } else if num == 1 {
        Network::Galileo
    } else if num == 2 {
        Network::BeiDou
    } else if num == 3 {
        Network::GLONASS
    } else {
        Network::Unknown
    }
}

/// The constellation a two-bit wire code denotes.
pub fn number_to_network(num: u32) -> (r: Network)
    ensures
        r == spec_number_to_network(num),
{
    if num == 0 {
        Network::GPS
    } else if num == 1 {
        Network::Galileo
    } else if num == 2 {
        Network::BeiDou
    } else if num == 3 {
        Network::GLONASS
    } else {
        Network::Unknown
    }
}

/// The carrier band a one-bit wire code denotes.
pub open spec fn spec_bit_to_band(num: u32) -> Band {
    if num == 0 {
        Band::L1
    } else if num == 1 {
        Band::L5
    } else {
        Band::Unknown
    }
}

/// The carrier band a one-bit wire code denotes.
pub fn number_to_band(num: u32) -> (r: Band)
    ensures
        r == spec_bit_to_band(num),
{
    if num == 0 {
        Band::L1
    } else if num == 1 {
        Band::L5
    } else {
        Band::Unknown
    }
}

/// Whether the fields fit their slots of the packed word.
pub open spec fn spec_fields_fit(sat: u32, network: u32, elev: u32, azim: u32, snr: u32, band: u32) -> bool {
    sat < 128 && network < 4 && elev < 128 && azim < 512 && snr < 64 && band < 2
}

/// Everything of a packed word above the band bit: snr, azimuth,
/// elevation, constellation and satellite, packed least significant first.
pub open spec fn spec_pack_body(sat: u32, network: u32, elev: u32, azim: u32, snr: u32) -> u32
    recommends
        spec_fields_fit(sat, network, elev, azim, snr, 0),
{
    ((((sat * 4 + network) * 128 + elev) * 512 + azim) * 64 + snr) as u32
}

/// The packed word holding the given fields, least significant first:
/// band, snr, azimuth, elevation, constellation, satellite.
pub open spec fn spec_pack(sat: u32, network: u32, elev: u32, azim: u32, snr: u32, band: u32) -> u32
    recommends
        spec_fields_fit(sat, network, elev, azim, snr, band),
{
    (spec_pack_body(sat, network, elev, azim, snr) * 2 + band) as u32
}

/// Packs all fields of one observation but the band bit.
pub fn pack_body(sat: u32, network: u32, elev: u32, azim: u32, snr: u32) -> (w: u32)
    requires
        spec_fields_fit(sat, network, elev, azim, snr, 0),
    ensures
        w == spec_pack_body(sat, network, elev, azim, snr),
        w < 0x8000_0000,
{
    (((sat * 4 + network) * 128 + elev) * 512 + azim) * 64 + snr
}

/// Packs the fields of one observation into its wire word.
pub fn pack_fields(sat: u32, network: u32, elev: u32, azim: u32, snr: u32, band: u32) -> (w: u32)
    requires
        spec_fields_fit(sat, network, elev, azim, snr, band),
    ensures
        w == spec_pack(sat, network, elev, azim, snr, band),
{
    ((((sat * 4 + network) * 128 + elev) * 512 + azim) * 64 + snr) * 2 + band
}

/// Band bit of a packed word.
pub open spec fn spec_field_band(w: u32) -> u32 {
    w & 0x1
}

/// Signal-strength field of a packed word.
pub open spec fn spec_field_snr(w: u32) -> u32 {
    (w >> 1) & 0x3F
}

/// Azimuth field of a packed word.
pub open spec fn spec_field_azim(w: u32) -> u32 {
    (w >> 7) & 0x1FF
}

/// Elevation field of a packed word.
pub open spec fn spec_field_elev(w: u32) -> u32 {
    (w >> 16) & 0x7F
}

/// Constellation field of a packed word.
pub open spec fn spec_field_network(w: u32) -> u32 {
    (w >> 23) & 0x3
}

/// Satellite field of a packed word.
pub open spec fn spec_field_sat(w: u32) -> u32 {
    (w >> 25) & 0x7F
}

/// Law: decoding recovers every field of a packed word — packing loses
/// nothing as long as each field fits its slot.
pub proof fn lemma_pack_round_trip(sat: u32, network: u32, elev: u32, azim: u32, snr: u32, band: u32)
    requires
        spec_fields_fit(sat, network, elev, azim, snr, band),
    ensures
        spec_field_sat(spec_pack(sat, network, elev, azim, snr, band)) == sat,
        spec_field_network(spec_pack(sat, network, elev, azim, snr, band)) == network,
        spec_field_elev(spec_pack(sat, network, elev, azim, snr, band)) == elev,
        spec_field_azim(spec_pack(sat, network, elev, azim, snr, band)) == azim,
        spec_field_snr(spec_pack(sat, network, elev, azim, snr, band)) == snr,
        spec_field_band(spec_pack(sat, network, elev, azim, snr, band)) == band,
{
    let w = spec_pack(sat, network, elev, azim, snr, band);
    assert(sat < 128 && network < 4 && elev < 128 && azim < 512 && snr < 64 && band < 2
        && w == ((((sat * 4 + network) * 128 + elev) * 512 + azim) * 64 + snr) * 2 + band
        ==> (w >> 25) & 0x7F == sat && (w >> 23) & 0x3 == network && (w >> 16) & 0x7F == elev
        && (w >> 7) & 0x1FF == azim && (w >> 1) & 0x3F == snr && w & 0x1 == band) by (bit_vector);
}

/// Law: a word packed from in-range fields decodes to exactly the
/// observation those fields describe — the collection device's encoding and
/// the analysis device's decoding agree word by word.
pub proof fn lemma_packed_word_decodes(
    sat: u32,
    network: u32,
    elev: u32,
    azim: u32,
    snr: u32,
    band: u32,
    time: i64,
)
    requires
        spec_fields_fit(sat, network, elev, azim, snr, band),
    ensures
        spec_record_of_word(spec_pack(sat, network, elev, azim, snr, band), time) == (Record {
            id: spec_compose_id(
                spec_number_to_network(network),
                spec_bit_to_band(band),
                sat,
            ),
            satellite: sat,
            network: spec_number_to_network(network),
            band: spec_bit_to_band(band),
            elevation: elev,
            azimuth: azim,
            snr,
            time,
        }),
{
    lemma_pack_round_trip(sat, network, elev, azim, snr, band);
}

/// The observation one packed word decodes to, stamped with the burst time.
pub open spec fn spec_record_of_word(w: u32, time: i64) -> Record {
    let network = spec_number_to_network(spec_field_network(w));
    let band = spec_bit_to_band(spec_field_band(w));
    Record {
        id: spec_compose_id(network, band, spec_field_sat(w)),
        satellite: spec_field_sat(w),
        network,
        band,
        elevation: spec_field_elev(w),
        azimuth: spec_field_azim(w),
        snr: spec_field_snr(w),
        time,
    }
}

/// The observations among the words `data[from .. from + k]`, in order:
/// each word decodes to one observation, kept where its geometry lies in
/// the configured window.
pub open spec fn spec_unpack_words(data: Seq<u32>, from: int, k: int, time: i64, config: Config) -> Seq<Record>
    decreases k,
{
    if k <= 0 {
        Seq::empty()
    } else {
        let prev = spec_unpack_words(data, from, k - 1, time, config);
        let w = data[from + k - 1];
        if spec_in_bounds(spec_field_elev(w), spec_field_azim(w), config) {
            prev.push(spec_record_of_word(w, time))
        } else {
            prev
        }
    }
}

/// The observations of a burst's words from position `pos` on: a header
/// word announces the burst time (upper 24 bits) and a record count (lower
/// 8 bits); that many packed words follow — fewer if the burst ends early —
/// then the next header.
pub open spec fn spec_unpack_from(data: Seq<u32>, pos: int, config: Config) -> Seq<Record>
    decreases data.len() - pos,
{
    if pos < 0 || pos >= data.len() {
        Seq::empty()
    } else {
        let header = data[pos];
        let time = (header >> 8) as i64;
        let cnt = (header & 0xFF) as int;
        let avail = data.len() - pos - 1;
        let take = if cnt <= avail {
            cnt
        } else {
            avail
        };
        spec_unpack_words(data, pos + 1, take, time, config)
            + spec_unpack_from(data, pos + 1 + take, config)
    }
}

/// The observations of a burst of packed words.
pub open spec fn spec_unpack(data: Seq<u32>, config: Config) -> Seq<Record> {
    spec_unpack_from(data, 0, config)
}

/// Decodes a burst of packed words into typed observations: per header
/// word, the announced number of packed words (or as many as remain) are
/// decoded and stamped with the header's time of day; observations outside
/// the configured elevation or azimuth window are dropped.
pub fn unpack(data: Vec<u32>, config: &Config) -> (records: Vec<Record>)
    ensures
        records@ == spec_unpack(data@, *config),
{
    let mut records: Vec<Record> = Vec::new();
    let n: usize = data.len();
    let mut pos: usize = 0;
    while pos < n
        invariant
            pos <= n,
            n == data@.len(),
            records@ + spec_unpack_from(data@, pos as int, *config) == spec_unpack(data@, *config),
        decreases n - pos,
    {
        let header: u32 = data[pos];
        let time: i64 = (header >> 8) as i64;
        let cnt: usize = (header & 0xFF) as usize;
        let avail: usize = n - pos - 1;
        let take: usize = if cnt <= avail {
            cnt
        } else {
            avail
        };
        let ghost base = records@;
        let mut k: usize = 0;
        while k < take
            invariant
                k <= take,
                n == data@.len(),
                pos < n,
                pos + 1 + take <= n,
                records@ == base + spec_unpack_words(data@, pos as int + 1, k as int, time, *config),
            decreases take - k,
        {
            let w: u32 = data[pos + 1 + k];
            let elev: u32 = (w >> 16) & 0x7F;
            let azim: u32 = (w >> 7) & 0x1FF;
            if in_bounds(elev, azim, config) {
                let sat: u32 = (w >> 25) & 0x7F;
                let nw_code: u32 = (w >> 23) & 0x3;
                let band_code: u32 = w & 0x1;
                let snr: u32 = (w >> 1) & 0x3F;
                let network: Network = number_to_network(nw_code);
                let band: Band = number_to_band(band_code);
                proof {
                    assert((w >> 25) & 0x7F < 128) by (bit_vector);
                }
                let id: u32 = compose_id(network, band, sat);
                records.push(
                    Record {
                        id,
                        satellite: sat,
                        network,
                        band,
                        elevation: elev,
                        azimuth: azim,
                        snr,
                        time,
                    },
                );
            }
            k = k + 1;
        }
        let ghost oldpos = pos as int;
        pos = pos + 1 + take;
        proof {
            assert(spec_unpack_from(data@, oldpos, *config) == spec_unpack_words(
                data@,
                oldpos + 1,
                take as int,
                time,
                *config,
            ) + spec_unpack_from(data@, pos as int, *config));
            assert(records@ + spec_unpack_from(data@, pos as int, *config) =~= spec_unpack(
                data@,
                *config,
            ));
        }
    }
    proof {
        assert(spec_unpack_from(data@, n as int, *config) =~= Seq::<Record>::empty());
        assert(records@ =~= spec_unpack(data@, *config));
    }
    records
}

} // verus!
