//! NMEA sentence parsing: fix sentences give the time of day, satellite
//! sentences give per-satellite elevation, azimuth and signal strength.
//! Fields carry whole-degree and whole-dB quantities, so values are parsed
//! as unsigned integers; sentences with malformed fields contribute no
//! observations.

use vstd::prelude::*;

use crate::record::Band;
use crate::record::Config;
use crate::record::Network;
use crate::record::Record;
use crate::record::spec_compose_id;
use crate::record::spec_in_bounds;
use crate::record::compose_id;
use crate::record::in_bounds;
use crate::text::spec_parse_u32;
use crate::text::spec_split;
use crate::text::spec_trimmed;
use crate::text::parse_u32_chars;
use crate::text::split_fields;
use crate::text::str_to_chars;
use crate::text::subchars;
use crate::text::trimmed_chars;

verus! {

/// A sentence as carried on the wire: starts with `$` and holds the
/// checksum delimiter `*`.
pub open spec fn spec_valid_sentence(s: Seq<char>) -> bool {
    s.len() > 0 && s[0] == '$' && s.contains('*')
}

/// Whether a sentence header (such as `$GPGSV`) announces the three-letter
/// command `cmd`.
pub open spec fn spec_is_command(header: Seq<char>, cmd: Seq<char>) -> bool {
    header.len() >= 6 && header.subrange(3, 6) == cmd
}

/// The constellation a sentence header announces, by its talker letters
/// (the two characters after `$`).
pub open spec fn spec_command_to_network(header: Seq<char>) -> Option<Network> {
    if header.len() < 3 {
        None
    } else if header[1] == 'G' && header[2] == 'P' {
        Some(Network::GPS)
    } else if header[1] == 'G' && header[2] == 'A' {
        Some(Network::Galileo)
    } else if header[1] == 'G' && header[2] == 'B' {
        Some(Network::BeiDou)
    } else if header[1] == 'G' && header[2] == 'L' {
        Some(Network::GLONASS)
    } else {
        Some(Network::Unknown)
    }
}

/// The satellite number corrected to its constellation-local range: GLONASS
/// numbers arrive offset by 64, GPS/SBAS numbers above 192 by 128. An
/// offset is applied only where the number is large enough to carry it.
pub open spec fn spec_correct_satellite(satellite: u32, network: Network) -> u32 {
    match network {
        Network::GLONASS => if satellite >= 64 {
            (satellite - 64) as u32
        } else {
            satellite
        },
        Network::GPS => if satellite > 192 {
            (satellite - 128) as u32
        } else {
            satellite
        },
        _ => satellite,
    }
}

/// The carrier band a GSV signal id denotes.
pub open spec fn spec_number_to_band(num: u32) -> Band {
    if num == 1 {
        Band::L1
    } else if num == 5 || num == 7 || num == 8 {
        Band::L5
    } else {
        Band::Unknown
    }
}

/// Whether a sentence is well-formed enough to be looked at: it must start
/// with `$` and carry a checksum delimiter.
pub fn is_valid_nmea_sentence(sentence: &str) -> (r: bool)
    ensures
        r == spec_valid_sentence(sentence@),
{
    let chars: Vec<char> = str_to_chars(sentence);
    valid_chars(&chars)
}

fn valid_chars(chars: &Vec<char>) -> (r: bool)
    ensures
        r == spec_valid_sentence(chars@),
{
    let n: usize = chars.len();
    if n == 0 {
        return false;
    }
    if chars[0] != '$' {
        return false;
    }
    let mut i: usize = 0;
    while i < n
        invariant
            i <= n,
            n == chars@.len(),
            n > 0,
            chars@[0] == '$',
            forall|q: int| 0 <= q < i ==> chars@[q] != '*',
        decreases n - i,
    {
        if chars[i] == '*' {
            proof {
                assert(chars@.contains('*'));
            }
            return true;
        }
        i = i + 1;
    }
    proof {
        assert(!chars@.contains('*')) by {
            if chars@.contains('*') {
                let q = choose|q: int| 0 <= q < chars@.len() && #[trigger] chars@[q] == '*';
                assert(chars@[q] != '*');
            }
        }
    }
    false
}

/// Whether `header` announces the command `command` (a three-letter name in
/// the header's fourth to sixth characters).
pub fn is_nmea_command(header: &str, command: &str) -> (r: bool)
    ensures
        r == spec_is_command(header@, command@),
{
    let h: Vec<char> = str_to_chars(header);
    let c: Vec<char> = str_to_chars(command);
    if h.len() < 6 {
        return false;
    }
    if c.len() != 3 {
        proof {
            assert(header@.subrange(3, 6).len() == 3);
        }
        return false;
    }
    let r: bool = h[3] == c[0] && h[4] == c[1] && h[5] == c[2];
    proof {
        let sub = header@.subrange(3, 6);
        if r {
            assert(sub =~= command@);
        } else {
            assert(sub[0] == header@[3] && sub[1] == header@[4] && sub[2] == header@[5]);
            assert(sub != command@);
        }
    }
    r
}

fn is_cmd_chars(header: &Vec<char>, c0: char, c1: char, c2: char) -> (r: bool)
    ensures
        r == spec_is_command(header@, seq![c0, c1, c2]),
{
    if header.len() < 6 {
        return false;
    }
    let r: bool = header[3] == c0 && header[4] == c1 && header[5] == c2;
    proof {
        let sub = header@.subrange(3, 6);
        let cmd = seq![c0, c1, c2];
        assert(sub[0] == header@[3] && sub[1] == header@[4] && sub[2] == header@[5]);
        assert(cmd[0] == c0 && cmd[1] == c1 && cmd[2] == c2);
        if r {
            assert(sub =~= cmd);
        } else {
            assert(sub != cmd);
        }
    }
    r
}

/// The constellation a sentence header announces.
pub fn command_to_network(header: &str) -> (r: Option<Network>)
    ensures
        r == spec_command_to_network(header@),
{
    let h: Vec<char> = str_to_chars(header);
    cmd_network_chars(&h)
}

fn cmd_network_chars(header: &Vec<char>) -> (r: Option<Network>)
    ensures
        r == spec_command_to_network(header@),
{
    if header.len() < 3 {
        return None;
    }
    if header[1] != 'G' {
        return Some(Network::Unknown);
    }
    let c: char = header[2];
    if c == 'P' {
        Some(Network::GPS)
    } else if c == 'A' {
        Some(Network::Galileo)
    } else if c == 'B' {
        Some(Network::BeiDou)
    } else if c == 'L' {
        Some(Network::GLONASS)
    } else {
        Some(Network::Unknown)
    }
}

/// Corrects a satellite number to its constellation-local range.
pub fn correct_sattelite_id(satellite: u32, network: Network) -> (r: u32)
    ensures
        r == spec_correct_satellite(satellite, network),
{
    match network {
        Network::GLONASS => if satellite >= 64 {
            satellite - 64
        } else {
            satellite
        },
        Network::GPS => if satellite > 192 {
            satellite - 128
        } else {
            satellite
        },
        _ => satellite,
    }
}

/// The carrier band a GSV signal id denotes.
pub fn number_to_band(num: u32) -> (b: Band)
    ensures
        b == spec_number_to_band(num),
{
    if num == 1 {
        Band::L1
    } else if num == 5 || num == 7 || num == 8 {
        Band::L5
    } else {
        Band::Unknown
    }
}

/// The time of day, in seconds, a trimmed and tokenized fix sentence
/// announces: the first field after a `GGA` header, read as `hhmmss`.
pub open spec fn spec_find_gga_time(s: Seq<char>) -> Option<i64> {
    let t = spec_trimmed(s);
    if !spec_valid_sentence(t) {
        None
    } else {
        let toks = spec_split(t, true);
        if !spec_is_command(toks[0], seq!['G', 'G', 'A']) {
            None
        } else if toks.len() < 2 {
            None
        } else {
            let ts = toks[1];
            if ts.len() < 6 {
                None
            } else {
                match (
                    spec_parse_u32(ts.subrange(0, 2)),
                    spec_parse_u32(ts.subrange(2, 4)),
                    spec_parse_u32(ts.subrange(4, 6)),
                ) {
                    (Some(h), Some(m), Some(sec)) => Some(
                        (h * 3600 + m * 60 + sec) as i64,
                    ),
                    _ => None,
                }
            }
        }
    }
}

/// Reads the time of day from a fix sentence: `Some` exactly when the
/// sentence is valid, announces `GGA`, and its first field starts with six
/// digits `hhmmss`; the result is then `h·3600 + m·60 + s`.
pub fn find_gga_time(sentence: &str) -> (r: Option<i64>)
    ensures
        r == spec_find_gga_time(sentence@),
{
    let cleaned: Vec<char> = trimmed_chars(sentence);
    if !valid_chars(&cleaned) {
        return None;
    }
    let toks: Vec<Vec<char>> = split_fields(&cleaned, true);
    let ghost toksd = toks.deep_view();
    proof {
        lemma_token_view(&toks, 0);
    }
    if !is_cmd_chars(&toks[0], 'G', 'G', 'A') {
        return None;
    }
    if toks.len() < 2 {
        return None;
    }
    proof {
        lemma_token_view(&toks, 1);
    }
    let ts: &Vec<char> = &toks[1];
    if ts.len() < 6 {
        return None;
    }
    let th: Vec<char> = subchars(ts, 0, 2);
    let tm: Vec<char> = subchars(ts, 2, 4);
    let tsec: Vec<char> = subchars(ts, 4, 6);
    let h: u32 = match parse_u32_chars(&th) {
        Some(v) => v,
        None => {
            return None;
        },
    };
    let m: u32 = match parse_u32_chars(&tm) {
        Some(v) => v,
        None => {
            return None;
        },
    };
    let sec: u32 = match parse_u32_chars(&tsec) {
        Some(v) => v,
        None => {
            return None;
        },
    };
    let time: i64 = (h as i64) * 3600 + (m as i64) * 60 + (sec as i64);
    Some(time)
}

/// A token of a tokenized sentence, seen through the deep view.
proof fn lemma_token_view(toks: &Vec<Vec<char>>, i: int)
    requires
        0 <= i < toks@.len(),
    ensures
        toks.deep_view()[i] == toks@[i]@,
        toks.deep_view().len() == toks@.len(),
{
    assert(toks@[i].deep_view() =~= toks@[i]@);
}

/// One satellite block read from a visibility sentence: corrected satellite
/// number, elevation and azimuth in whole degrees, signal strength in whole
/// dB-Hz.
#[derive(Clone, Copy, Debug, PartialEq, Eq, Structural)]
pub struct GsvEntry {
    pub satellite: u32,
    pub elevation: u32,
    pub azimuth: u32,
    pub snr: u32,
}

/// Position of the next unread token once a block of four is consumed,
/// saturated at the token count (walking past the end changes nothing: a
/// missing field ends the sentence either way).
pub open spec fn spec_adv4(toks: Seq<Seq<char>>, pos: int) -> int {
    if pos + 4 <= toks.len() {
        pos + 4
    } else {
        toks.len() as int
    }
}

/// The walk over a visibility sentence's satellite blocks, starting at
/// token `pos` with `count` blocks left. Yields the accepted blocks (well
/// formed, inside the configured bounds, satellite number small enough to
/// compose an id) and the position of the band field. An empty satellite
/// field ends the walk early, with the band read right after it; a missing
/// field ends the whole sentence (nothing is yielded); a malformed field
/// skips its block.
pub open spec fn spec_gsv_walk(
    toks: Seq<Seq<char>>,
    pos: int,
    count: int,
    network: Network,
    config: Config,
) -> Option<(Seq<GsvEntry>, int)>
    decreases count,
{
    if count <= 0 {
        Some((Seq::empty(), pos))
    } else if pos >= toks.len() {
        None
    } else if toks[pos].len() == 0 {
        Some((Seq::empty(), pos + 1))
    } else {
        let next = spec_adv4(toks, pos);
        match spec_parse_u32(toks[pos]) {
            None => spec_gsv_walk(toks, next, count - 1, network, config),
            Some(sat) => if pos + 1 >= toks.len() {
                None
            } else {
                match spec_parse_u32(toks[pos + 1]) {
                    None => spec_gsv_walk(toks, next, count - 1, network, config),
                    Some(elevation) => if pos + 2 >= toks.len() {
                        None
                    } else {
                        match spec_parse_u32(toks[pos + 2]) {
                            None => spec_gsv_walk(toks, next, count - 1, network, config),
                            Some(azimuth) => if pos + 3 >= toks.len() {
                                None
                            } else {
                                match spec_parse_u32(toks[pos + 3]) {
                                    None => spec_gsv_walk(toks, next, count - 1, network, config),
                                    Some(snr) => {
                                        let sat_c = spec_correct_satellite(sat, network);
                                        let keep = spec_in_bounds(elevation, azimuth, config)
                                            && sat_c < 1000;
                                        match spec_gsv_walk(toks, next, count - 1, network, config) {
                                            None => None,
                                            Some(rest) => Some(
                                                (
                                                    if keep {
                                                        seq![
                                                            GsvEntry {
                                                                satellite: sat_c,
                                                                elevation,
                                                                azimuth,
                                                                snr,
                                                            },
                                                        ] + rest.0
                                                    } else {
                                                        rest.0
                                                    },
                                                    rest.1,
                                                ),
                                            ),
                                        }
                                    },
                                }
                            },
                        }
                    },
                }
            },
        }
    }
}

/// The observation a satellite block yields once the band is known.
pub open spec fn spec_record_of(e: GsvEntry, network: Network, band: Band, time: i64) -> Record {
    Record {
        id: spec_compose_id(network, band, e.satellite),
        satellite: e.satellite,
        network,
        band,
        elevation: e.elevation,
        azimuth: e.azimuth,
        snr: e.snr,
        time,
    }
}

/// The observations of a sentence's accepted blocks, in order.
pub open spec fn spec_records_of(
    entries: Seq<GsvEntry>,
    network: Network,
    band: Band,
    time: i64,
) -> Seq<Record> {
    entries.map_values(|e: GsvEntry| spec_record_of(e, network, band, time))
}

/// How many satellite blocks a sentence announces: all four slots of a
/// middle message, the remainder on the last message (where its counts are
/// consistent; inconsistent counts fall back to four).
pub open spec fn spec_gsv_count(nm: u32, im: u32, ns: u32) -> int {
    if im == nm && nm >= 1 && ns >= (nm - 1) * 4 {
        ns - (nm - 1) * 4
    } else {
        4
    }
}

/// The observations one satellite-visibility (`GSV`) sentence contributes:
/// nothing unless the sentence is valid, announces `GSV`, and carries three
/// well-formed count fields, a readable walk and a well-formed band field;
/// otherwise one observation per accepted satellite block, stamped with the
/// sentence's constellation, the band field's carrier band and the session
/// time handed in.
pub open spec fn spec_gsv_records(s: Seq<char>, time: i64, config: Config) -> Seq<Record> {
    let t = spec_trimmed(s);
    if !spec_valid_sentence(t) {
        Seq::empty()
    } else {
        let toks = spec_split(t, true);
        if !spec_is_command(toks[0], seq!['G', 'S', 'V']) {
            Seq::empty()
        } else {
            match spec_command_to_network(toks[0]) {
                None => Seq::empty(),
                Some(network) => if toks.len() < 4 {
                    Seq::empty()
                } else {
                    match (spec_parse_u32(toks[1]), spec_parse_u32(toks[2]), spec_parse_u32(toks[3])) {
                        (Some(nm), Some(im), Some(ns)) => {
                            match spec_gsv_walk(toks, 4, spec_gsv_count(nm, im, ns), network, config) {
                                None => Seq::empty(),
                                Some(walked) => if walked.1 >= toks.len() || toks[walked.1].len()
                                    == 0 {
                                    Seq::empty()
                                } else {
                                    match spec_parse_u32(toks[walked.1]) {
                                        None => Seq::empty(),
                                        Some(bnum) => spec_records_of(
                                            walked.0,
                                            network,
                                            spec_number_to_band(bnum),
                                            time,
                                        ),
                                    }
                                },
                            }
                        },
                        _ => Seq::empty(),
                    }
                },
            }
        }
    }
}

/// Appends the observations of one satellite-visibility sentence to the
/// collection, stamped with the current session time.
pub fn find_gsv_records_into(
    sentence: &str,
    current_gps_time: i64,
    config: &Config,
    records: &mut Vec<Record>,
)
    ensures
        final(records)@ == old(records)@ + spec_gsv_records(sentence@, current_gps_time, *config),
{
    let ghost target = spec_gsv_records(sentence@, current_gps_time, *config);
    let ghost base = records@;
    let cleaned: Vec<char> = trimmed_chars(sentence);
    if !valid_chars(&cleaned) {
        proof {
            assert(records@ =~= base + target);
        }
        return;
    }
    let toks: Vec<Vec<char>> = split_fields(&cleaned, true);
    let ghost toksd = toks.deep_view();
    proof {
        lemma_token_view(&toks, 0);
    }
    if !is_cmd_chars(&toks[0], 'G', 'S', 'V') {
        proof {
            assert(records@ =~= base + target);
        }
        return;
    }
    let network: Network = match cmd_network_chars(&toks[0]) {
        Some(nw) => nw,
        None => {
            proof {
                assert(records@ =~= base + target);
            }
            return;
        },
    };
    if toks.len() < 4 {
        proof {
            assert(records@ =~= base + target);
        }
        return;
    }
    proof {
        lemma_token_view(&toks, 1);
        lemma_token_view(&toks, 2);
        lemma_token_view(&toks, 3);
    }
    let nm: u32 = match parse_u32_chars(&toks[1]) {
        Some(v) => v,
        None => {
            proof {
                assert(records@ =~= base + target);
            }
            return;
        },
    };
    let im: u32 = match parse_u32_chars(&toks[2]) {
        Some(v) => v,
        None => {
            proof {
                assert(records@ =~= base + target);
            }
            return;
        },
    };
    let ns: u32 = match parse_u32_chars(&toks[3]) {
        Some(v) => v,
        None => {
            proof {
                assert(records@ =~= base + target);
            }
            return;
        },
    };
    let count: u64 = if im == nm && nm >= 1 && (ns as u64) >= ((nm - 1) as u64) * 4 {
        (ns as u64) - ((nm - 1) as u64) * 4
    } else {
        4
    };
    let ghost count0 = count as int;
    proof {
        assert(count0 == spec_gsv_count(nm, im, ns));
    }

    let mut entries: Vec<GsvEntry> = Vec::new();
    let mut pos: usize = 4;
    let mut remaining: u64 = count;
    let mut outcome: u8 = 0;  // 0: walking, 1: band position found, 2: field missing
    let mut band_pos: usize = 0;
    while outcome == 0 && remaining > 0
        invariant
            toks@.len() >= 4,
            toksd == toks.deep_view(),
            toksd.len() == toks@.len(),
            4 <= pos <= toks@.len(),
            outcome == 0 || outcome == 1 || outcome == 2,
            forall|q: int| 0 <= q < entries@.len() ==> #[trigger] entries@[q].satellite < 1000,
            outcome == 0 ==> spec_gsv_walk(toksd, 4, count0, network, *config) == (match spec_gsv_walk(
                toksd,
                pos as int,
                remaining as int,
                network,
                *config,
            ) {
                None => None::<(Seq<GsvEntry>, int)>,
                Some(r) => Some((entries@ + r.0, r.1)),
            }),
            outcome == 1 ==> spec_gsv_walk(toksd, 4, count0, network, *config) == Some(
                (entries@, band_pos as int),
            ),
            outcome == 2 ==> spec_gsv_walk(toksd, 4, count0, network, *config) is None,
        decreases (if outcome == 0 { 1int } else { 0int }), remaining,
    {
        let ghost walk_pre = spec_gsv_walk(toksd, pos as int, remaining as int, network, *config);
        if pos >= toks.len() {
            outcome = 2;
        } else {
            proof {
                lemma_token_view(&toks, pos as int);
            }
            let next: usize = if toks.len() - pos >= 4 {
                pos + 4
            } else {
                toks.len()
            };
            proof {
                assert(next as int == spec_adv4(toksd, pos as int));
            }
            let ghost walk_next = spec_gsv_walk(
                toksd,
                next as int,
                remaining as int - 1,
                network,
                *config,
            );
            if toks[pos].len() == 0 {
                band_pos = pos + 1;
                outcome = 1;
                proof {
                    assert(walk_pre == Some((Seq::<GsvEntry>::empty(), pos as int + 1)));
                    assert(entries@ + Seq::<GsvEntry>::empty() =~= entries@);
                }
            } else {
                match parse_u32_chars(&toks[pos]) {
                    None => {
                        proof {
                            assert(walk_pre == walk_next);
                        }
                        remaining = remaining - 1;
                        pos = next;
                    },
                    Some(sat) => {
                        if toks.len() - pos <= 1 {
                            outcome = 2;
                            proof {
                                assert(walk_pre is None);
                            }
                        } else {
                            proof {
                                lemma_token_view(&toks, pos as int + 1);
                            }
                            match parse_u32_chars(&toks[pos + 1]) {
                                None => {
                                    proof {
                                        assert(walk_pre == walk_next);
                                    }
                                    remaining = remaining - 1;
                                    pos = next;
                                },
                                Some(elevation) => {
                                    if toks.len() - pos <= 2 {
                                        outcome = 2;
                                        proof {
                                            assert(walk_pre is None);
                                        }
                                    } else {
                                        proof {
                                            lemma_token_view(&toks, pos as int + 2);
                                        }
                                        match parse_u32_chars(&toks[pos + 2]) {
                                            None => {
                                                proof {
                                                    assert(walk_pre == walk_next);
                                                }
                                                remaining = remaining - 1;
                                                pos = next;
                                            },
                                            Some(azimuth) => {
                                                if toks.len() - pos <= 3 {
                                                    outcome = 2;
                                                    proof {
                                                        assert(walk_pre is None);
                                                    }
                                                } else {
                                                    proof {
                                                        lemma_token_view(&toks, pos as int + 3);
                                                    }
                                                    match parse_u32_chars(&toks[pos + 3]) {
                                                        None => {
                                                            proof {
                                                                assert(walk_pre == walk_next);
                                                            }
                                                            remaining = remaining - 1;
                                                            pos = next;
                                                        },
                                                        Some(snr) => {
                                                            let sat_c: u32 = correct_sattelite_id(
                                                                sat,
                                                                network,
                                                            );
                                                            let keep: bool = in_bounds(
                                                                elevation,
                                                                azimuth,
                                                                config,
                                                            ) && sat_c < 1000;
                                                            let ghost pre_entries = entries@;
                                                            if keep {
                                                                entries.push(
                                                                    GsvEntry {
                                                                        satellite: sat_c,
                                                                        elevation,
                                                                        azimuth,
                                                                        snr,
                                                                    },
                                                                );
                                                            }
                                                            proof {
                                                                let e = GsvEntry {
                                                                    satellite: sat_c,
                                                                    elevation,
                                                                    azimuth,
                                                                    snr,
                                                                };
                                                                if walk_next is Some {
                                                                    let rest = walk_next->Some_0;
                                                                    if keep {
                                                                        assert(entries@
                                                                            =~= pre_entries.push(e));
                                                                        assert(pre_entries + (seq![e]
                                                                            + rest.0) =~= entries@
                                                                            + rest.0);
                                                                    }
                                                                }
                                                            }
                                                            remaining = remaining - 1;
                                                            pos = next;
                                                        },
                                                    }
                                                }
                                            },
                                        }
                                    }
                                },
                            }
                        }
                    },
                }
            }
        }
    }
    if outcome == 0 {
        band_pos = pos;
        outcome = 1;
        proof {
            assert(spec_gsv_walk(toksd, pos as int, 0, network, *config) == Some(
                (Seq::<GsvEntry>::empty(), pos as int),
            ));
            assert(entries@ + Seq::<GsvEntry>::empty() =~= entries@);
        }
    }
    if outcome == 2 {
        proof {
            assert(target =~= Seq::<Record>::empty());
            assert(records@ =~= base + target);
        }
        return;
    }
    if band_pos >= toks.len() {
        proof {
            assert(records@ =~= base + target);
        }
        return;
    }
    proof {
        lemma_token_view(&toks, band_pos as int);
    }
    if toks[band_pos].len() == 0 {
        proof {
            assert(records@ =~= base + target);
        }
        return;
    }
    let bnum: u32 = match parse_u32_chars(&toks[band_pos]) {
        Some(v) => v,
        None => {
            proof {
                assert(records@ =~= base + target);
            }
            return;
        },
    };
    let band: Band = number_to_band(bnum);
    proof {
        assert(target == spec_records_of(entries@, network, band, current_gps_time));
    }
    let n_entries: usize = entries.len();
    let mut k: usize = 0;
    while k < n_entries
        invariant
            k <= n_entries,
            n_entries == entries@.len(),
            forall|q: int| 0 <= q < entries@.len() ==> #[trigger] entries@[q].satellite < 1000,
            records@ == base + spec_records_of(
                entries@.take(k as int),
                network,
                band,
                current_gps_time,
            ),
        decreases n_entries - k,
    {
        let e: GsvEntry = entries[k];
        let id: u32 = compose_id(network, band, e.satellite);
        records.push(
            Record {
                id,
                satellite: e.satellite,
                network,
                band,
                elevation: e.elevation,
                azimuth: e.azimuth,
                snr: e.snr,
                time: current_gps_time,
            },
        );
        k = k + 1;
        proof {
            let taken = entries@.take(k as int);
            assert(taken.drop_last() =~= entries@.take(k - 1));
            assert(taken.last() == entries@[k - 1]);
            assert(spec_records_of(taken, network, band, current_gps_time) =~= spec_records_of(
                entries@.take(k - 1),
                network,
                band,
                current_gps_time,
            ).push(spec_record_of(entries@[k - 1], network, band, current_gps_time)));
            assert(records@ =~= base + spec_records_of(taken, network, band, current_gps_time));
        }
    }
    proof {
        assert(entries@.take(n_entries as int) =~= entries@);
        assert(records@ == base + target);
    }
}

/// Running fold over a session's sentences: the current time of day (from
/// the most recent fix sentence; `i64::MAX` until one is seen, an explicit
/// not-yet-fixed sentinel) and the observations collected so far.
pub open spec fn spec_nmea_fold(sentences: Seq<Seq<char>>, n: int, config: Config) -> (
    i64,
    Seq<Record>,
)
    decreases n,
{
    if n <= 0 {
        (i64::MAX, Seq::empty())
    } else {
        let prev = spec_nmea_fold(sentences, n - 1, config);
        let s = sentences[n - 1];
        let t = match spec_find_gga_time(s) {
            Some(x) => x,
            None => prev.0,
        };
        (t, prev.1 + spec_gsv_records(s, t, config))
    }
}

/// All observations of a session's sentences, in order: each visibility
/// sentence contributes its accepted satellite blocks, stamped with the
/// time of the most recent fix sentence (or the `i64::MAX` sentinel).
pub open spec fn spec_nmea_to_records(sentences: Seq<Seq<char>>, config: Config) -> Seq<Record> {
    spec_nmea_fold(sentences, sentences.len() as int, config).1
}

/// Turns a session's sentences into typed observations: fix (`GGA`)
/// sentences set the session time, visibility (`GSV`) sentences contribute
/// observations filtered to the configured elevation and azimuth window.
pub fn nmea_to_records(nmea_sentences: Vec<String>, config: &Config) -> (records: Vec<Record>)
    ensures
        records@ == spec_nmea_to_records(nmea_sentences.deep_view(), *config),
{
    let ghost sd = nmea_sentences.deep_view();
    let mut records: Vec<Record> = Vec::new();
    let mut current_gps_time: i64 = i64::MAX;
    let n: usize = nmea_sentences.len();
    let mut i: usize = 0;
    while i < n
        invariant
            i <= n,
            n == nmea_sentences@.len(),
            sd == nmea_sentences.deep_view(),
            sd.len() == n,
            current_gps_time == spec_nmea_fold(sd, i as int, *config).0,
            records@ == spec_nmea_fold(sd, i as int, *config).1,
        decreases n - i,
    {
        let sentence: &String = &nmea_sentences[i];
        let s: &str = sentence.as_str();
        proof {
            assert(nmea_sentences@[i as int].deep_view() == sd[i as int]);
            assert(s@ == sd[i as int]);
        }
        match find_gga_time(s) {
            Some(t) => {
                current_gps_time = t;
            },
            None => {},
        }
        find_gsv_records_into(s, current_gps_time, config, &mut records);
        i = i + 1;
    }
    records
}

} // verus!
