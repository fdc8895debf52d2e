//! Typed observations: one satellite sighting per record, with the integer
//! geometry values carried by the wire formats (whole degrees, whole dB-Hz).

use vstd::prelude::*;

verus! {

/// Satellite constellation an observation belongs to.
#[derive(Clone, Copy, Debug, PartialEq, Eq, Structural)]
pub enum Network {
    GPS,
    Galileo,
    BeiDou,
    GLONASS,
    Unknown,
}

/// Carrier band of the tracked signal.
#[derive(Clone, Copy, Debug, PartialEq, Eq, Structural)]
pub enum Band {
    L1,
    L5,
    Unknown,
}

/// Numeric code of a constellation, as used inside composite ids.
pub open spec fn spec_network_code(n: Network) -> u32 {
    match n {
        Network::GPS => 0,
        Network::Galileo => 1,
        Network::BeiDou => 2,
        Network::GLONASS => 3,
        Network::Unknown => 4,
    }
}

/// Numeric code of a band, as used inside composite ids.
pub open spec fn spec_band_code(b: Band) -> u32 {
    match b {
        Band::L1 => 0,
        Band::L5 => 1,
        Band::Unknown => 2,
    }
}

pub fn network_code(n: Network) -> (c: u32)
    ensures
        c == spec_network_code(n),
{
    match n {
        Network::GPS => 0,
        Network::Galileo => 1,
        Network::BeiDou => 2,
        Network::GLONASS => 3,
        Network::Unknown => 4,
    }
}

pub fn band_code(b: Band) -> (c: u32)
    ensures
        c == spec_band_code(b),
{
    match b {
        Band::L1 => 0,
        Band::L5 => 1,
        Band::Unknown => 2,
    }
}

/// Composite identity of a signal: constellation, band and satellite folded
/// into one number, so that every (constellation, band, satellite) triple of
/// a session gets its own arc group.
pub open spec fn spec_compose_id(network: Network, band: Band, satellite: u32) -> u32
    recommends
        satellite < 1000,
{
    (((spec_network_code(network) + 1) * 10000 + spec_band_code(band) * 1000
        + satellite) % 0x1_0000_0000) as u32
}

pub fn compose_id(network: Network, band: Band, satellite: u32) -> (id: u32)
    requires
        satellite < 1000,
    ensures
        id == spec_compose_id(network, band, satellite),
        id == (spec_network_code(network) + 1) * 10000 + spec_band_code(band) * 1000
            + satellite,
{
    let n: u32 = network_code(network);
    let b: u32 = band_code(band);
    (n + 1) * 10000 + b * 1000 + satellite
}

/// One observation: identity (`id`, `satellite`, `time`), geometry
/// (`elevation`, `azimuth` in whole degrees) and signal strength (`snr` in
/// whole dB-Hz), as delivered by the sentence and packed-word decoders.
#[derive(Clone, Copy, Debug, PartialEq, Eq, Structural)]
pub struct Record {
    pub id: u32,
    pub satellite: u32,
    pub network: Network,
    pub band: Band,
    pub elevation: u32,
    pub azimuth: u32,
    pub snr: u32,
    pub time: i64,
}

/// Acceptance bounds applied at ingestion: observations outside the
/// configured elevation or azimuth window never enter the store.
#[derive(Clone, Copy, Debug, PartialEq, Eq, Structural)]
pub struct Config {
    pub min_elevation: u32,
    pub max_elevation: u32,
    pub min_azimuth: u32,
    pub max_azimuth: u32,
}

impl Default for Config {
    /// Site defaults for the batch-analysis deployment.
    fn default() -> (c: Config)
        ensures
            c == (Config { min_elevation: 5u32, max_elevation: 15u32, min_azimuth: 50u32, max_azimuth: 150u32 }),
    {
        Config { min_elevation: 5, max_elevation: 15, min_azimuth: 50, max_azimuth: 150 }
    }
}

/// Whether an observation's geometry lies inside the configured window.
pub open spec fn spec_in_bounds(elevation: u32, azimuth: u32, config: Config) -> bool {
    &&& config.min_elevation <= elevation <= config.max_elevation
    &&& config.min_azimuth <= azimuth <= config.max_azimuth
}

pub fn in_bounds(elevation: u32, azimuth: u32, config: &Config) -> (r: bool)
    ensures
        r == spec_in_bounds(elevation, azimuth, *config),
{
    config.min_elevation <= elevation && elevation <= config.max_elevation
        && config.min_azimuth <= azimuth && azimuth <= config.max_azimuth
}

/// The observation store: sole owner of all records of a session. Arcs hold
/// indices into it, never copies.
pub struct RecordDatabase {
    pub records: Vec<Record>,
}

impl RecordDatabase {
    pub fn new() -> (db: RecordDatabase)
        ensures
            db.records@.len() == 0,
    {
        RecordDatabase { records: Vec::new() }
    }

    pub fn insert_many(&mut self, records: Vec<Record>)
        ensures
            final(self).records@ == old(self).records@ + records@,
    {
        let mut records = records;
        self.records.append(&mut records);
    }

    pub fn len(&self) -> (n: usize)
        ensures
            n == self.records@.len(),
    {
        self.records.len()
    }

    /// Rough heap footprint of the store in bytes: the vector header plus
    /// one slot per stored record (saturating at the address-space limit).
    pub fn check_memory(&self) -> (n: usize)
        ensures
            n == vstd::layout::size_of::<Vec<Record>>()
                + self.records@.len() * vstd::layout::size_of::<Record>()
            || n == usize::MAX,
    {
        let slot: usize = core::mem::size_of::<Record>();
        let base: usize = core::mem::size_of::<Vec<Record>>();
        match self.records.len().checked_mul(slot) {
            Some(bytes) => match bytes.checked_add(base) {
                Some(total) => total,
                None => usize::MAX,
            },
            None => usize::MAX,
        }
    }
}

} // verus!
