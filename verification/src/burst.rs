//! The collection device's burst encoder: sentences gathered between fixes
//! are packed into the 32-bit wire words of the link layer. A burst opens
//! with a header word — time of day in the upper 24 bits, record count in
//! the lower 8 — followed by one packed word per satellite block.
//!
//! Fields are read as whole numbers; a block with a malformed field is
//! skipped, a field too large for its slot in the packed word counts as
//! malformed, and a sentence missing a field contributes nothing at all.

use vstd::prelude::*;

use crate::nmea::spec_adv4;
use crate::nmea::spec_gsv_count;
use crate::packed::spec_pack_body;
use crate::text::spec_parse_u32;
use crate::text::spec_split;
use crate::text::parse_u32_chars;
use crate::text::split_fields;
use crate::text::str_to_chars;
use crate::text::subchars;

verus! {

/// Whether a burst line's first field announces the three-letter command
/// `cmd`: a bare six-character header starting with `$`.
pub open spec fn spec_burst_command(word: Seq<char>, cmd: Seq<char>) -> bool {
    word.len() == 6 && word[0] == '$' && word.subrange(3, 6) == cmd
}

/// Whether a word announces the given three-letter command.
pub fn is_command(word: &str, command: &str) -> (r: bool)
    ensures
        r == spec_burst_command(word@, command@),
{
    let w: Vec<char> = str_to_chars(word);
    let c: Vec<char> = str_to_chars(command);
    is_command_chars(&w, &c)
}

fn is_command_chars(w: &Vec<char>, c: &Vec<char>) -> (r: bool)
    ensures
        r == spec_burst_command(w@, c@),
{
    if w.len() != 6 || w[0] != '$' {
        return false;
    }
    if c.len() != 3 {
        proof {
            assert(w@.subrange(3, 6).len() == 3);
        }
        return false;
    }
    let r: bool = w[3] == c[0] && w[4] == c[1] && w[5] == c[2];
    proof {
        let sub = w@.subrange(3, 6);
        assert(sub[0] == w@[3] && sub[1] == w@[4] && sub[2] == w@[5]);
        if r {
            assert(sub =~= c@);
        } else {
            assert(sub != c@);
        }
    }
    r
}

/// The numeric constellation code a burst header announces, by its talker
/// letters; headers of other constellations carry no code.
pub open spec fn spec_burst_network(header: Seq<char>) -> Option<u32> {
    if header.len() < 3 {
        None
    } else if header[1] == 'G' && header[2] == 'P' {
        Some(0u32)
    } else if header[1] == 'G' && header[2] == 'A' {
        Some(1u32)
    } else if header[1] == 'G' && header[2] == 'B' {
        Some(2u32)
    } else if header[1] == 'G' && header[2] == 'L' {
        Some(3u32)
    } else {
        None
    }
}

/// The numeric constellation code a burst header announces.
pub fn command_to_network(command: &str) -> (r: Option<u32>)
    ensures
        r == spec_burst_network(command@),
{
    let h: Vec<char> = str_to_chars(command);
    network_chars(&h)
}

fn network_chars(header: &Vec<char>) -> (r: Option<u32>)
    ensures
        r == spec_burst_network(header@),
{
    if header.len() < 3 {
        return None;
    }
    if header[1] != 'G' {
        return None;
    }
    let c: char = header[2];
    if c == 'P' {
        Some(0)
    } else if c == 'A' {
        Some(1)
    } else if c == 'B' {
        Some(2)
    } else if c == 'L' {
        Some(3)
    } else {
        None
    }
}

/// What parsing an optional field yields: the field's number, where the
/// field is there and well formed.
pub open spec fn spec_parse_word(word: Option<Seq<char>>) -> Option<u32> {
    match word {
        Some(w) => spec_parse_u32(w),
        None => None,
    }
}

/// Parses an optional field as an unsigned number.
pub fn parse_word_as_u32(word: Option<&str>) -> (r: Option<u32>)
    ensures
        r == spec_parse_word(match word {
            Some(w) => Some(w@),
            None => None,
        }),
{
    match word {
        Some(w) => {
            let chars: Vec<char> = str_to_chars(w);
            parse_u32_chars(&chars)
        },
        None => None,
    }
}

/// The satellite number corrected to its constellation-local range, numeric
/// constellation codes: GLONASS (3) numbers arrive offset by 64, GPS (0)
/// numbers above 192 by 128. An offset is applied only where the number is
/// large enough to carry it.
pub open spec fn spec_fix_sat(sat: u32, network: u32) -> u32 {
    if network == 3 {
        if sat >= 64 {
            (sat - 64) as u32
        } else {
            sat
        }
    } else if network == 0 {
        if sat > 192 {
            (sat - 128) as u32
        } else {
            sat
        }
    } else {
        sat
    }
}

/// Corrects a satellite number to its constellation-local range.
pub fn fix_sat(sat: u32, network: u32) -> (r: u32)
    ensures
        r == spec_fix_sat(sat, network),
{
    if network == 3 {
        if sat >= 64 {
            sat - 64
        } else {
            sat
        }
    } else if network == 0 {
        if sat > 192 {
            sat - 128
        } else {
            sat
        }
    } else {
        sat
    }
}

/// The band bit a GSV signal id encodes to: 1 for the L5 family of signal
/// ids, 0 otherwise.
pub open spec fn spec_band_bit(num: u32) -> u32 {
    if num == 5 || num == 7 || num == 8 {
        1u32
    } else {
        0u32
    }
}

/// The band bit a GSV signal id encodes to.
pub fn number_to_band(num: u32) -> (r: u32)
    ensures
        r == spec_band_bit(num),
{
    if num == 5 || num == 7 || num == 8 {
        1
    } else {
        0
    }
}

/// The time of day a fix sentence's tokens announce: the field after the
/// header, read as `hhmmss`.
pub open spec fn spec_parse_gga(toks: Seq<Seq<char>>) -> Option<u32> {
    if toks.len() < 2 {
        None
    } else {
        let ts = toks[1];
        if ts.len() < 6 {
            None
        } else {
            match (
                spec_parse_u32(ts.subrange(0, 2)),
                spec_parse_u32(ts.subrange(2, 4)),
                spec_parse_u32(ts.subrange(4, 6)),
            ) {
                (Some(h), Some(m), Some(sec)) => Some((h * 3600 + m * 60 + sec) as u32),
                _ => None,
            }
        }
    }
}

/// Reads the time of day from a tokenized fix sentence.
pub fn parse_gga(toks: &Vec<Vec<char>>) -> (r: Option<u32>)
    ensures
        r == spec_parse_gga(toks.deep_view()),
{
    proof {
        if toks@.len() >= 1 {
            lemma_btoken_view(toks, 0);
        }
        if toks@.len() >= 2 {
            lemma_btoken_view(toks, 1);
        }
    }
    if toks.len() < 2 {
        return None;
    }
    let ts: &Vec<char> = &toks[1];
    if ts.len() < 6 {
        return None;
    }
    let th: Vec<char> = subchars(ts, 0, 2);
    let tm: Vec<char> = subchars(ts, 2, 4);
    let tsec: Vec<char> = subchars(ts, 4, 6);
    let h: u32 = match parse_u32_chars(&th) {
        Some(v) => v,
        None => {
            return None;
        },
    };
    let m: u32 = match parse_u32_chars(&tm) {
        Some(v) => v,
        None => {
            return None;
        },
    };
    let sec: u32 = match parse_u32_chars(&tsec) {
        Some(v) => v,
        None => {
            return None;
        },
    };
    proof {
        assert(h <= 99 && m <= 99 && sec <= 99) by {
            crate::text::lemma_two_digits_small(toks.deep_view()[1].subrange(0, 2));
            crate::text::lemma_two_digits_small(toks.deep_view()[1].subrange(2, 4));
            crate::text::lemma_two_digits_small(toks.deep_view()[1].subrange(4, 6));
        }
    }
    Some(h * 3600 + m * 60 + sec)
}

/// A token of a tokenized line, seen through the deep view.
proof fn lemma_btoken_view(toks: &Vec<Vec<char>>, i: int)
    requires
        0 <= i < toks@.len(),
    ensures
        toks.deep_view()[i] == toks@[i]@,
        toks.deep_view().len() == toks@.len(),
{
    assert(toks@[i].deep_view() =~= toks@[i]@);
}

/// The walk over a visibility sentence's satellite blocks for packing,
/// starting at token `pos` with `count` blocks left and `kept` blocks
/// already packed. Yields the packed words (band bit still zero) and the
/// position of the band field; a missing field ends the whole sentence, a
/// malformed or oversized field skips its block, and at most four blocks
/// per sentence are kept.
pub open spec fn spec_bgsv_walk(toks: Seq<Seq<char>>, pos: int, count: int, kept: int, network: u32) -> Option<
    (Seq<u32>, int),
>
    decreases count,
{
    if count <= 0 {
        Some((Seq::empty(), pos))
    } else if pos >= toks.len() {
        None
    } else {
        let next = spec_adv4(toks, pos);
        match spec_parse_u32(toks[pos]) {
            None => spec_bgsv_walk(toks, next, count - 1, kept, network),
            Some(sat0) => {
                let sat = spec_fix_sat(sat0, network);
                if sat >= 128 {
                    spec_bgsv_walk(toks, next, count - 1, kept, network)
                } else if pos + 1 >= toks.len() {
                    None
                } else {
                    match spec_parse_u32(toks[pos + 1]) {
                        None => spec_bgsv_walk(toks, next, count - 1, kept, network),
                        Some(elev) => if elev >= 128 {
                            spec_bgsv_walk(toks, next, count - 1, kept, network)
                        } else if pos + 2 >= toks.len() {
                            None
                        } else {
                            match spec_parse_u32(toks[pos + 2]) {
                                None => spec_bgsv_walk(toks, next, count - 1, kept, network),
                                Some(azim) => if azim >= 512 {
                                    spec_bgsv_walk(toks, next, count - 1, kept, network)
                                } else if pos + 3 >= toks.len() {
                                    None
                                } else {
                                    match spec_parse_u32(toks[pos + 3]) {
                                        None => spec_bgsv_walk(
                                            toks,
                                            next,
                                            count - 1,
                                            kept,
                                            network,
                                        ),
                                        Some(snr) => if snr >= 64 {
                                            spec_bgsv_walk(toks, next, count - 1, kept, network)
                                        } else {
                                            let keep = kept < 4;
                                            let v = spec_pack_body(sat, network, elev, azim, snr);
                                            match spec_bgsv_walk(
                                                toks,
                                                next,
                                                count - 1,
                                                if keep {
                                                    kept + 1
                                                } else {
                                                    kept
                                                },
                                                network,
                                            ) {
                                                None => None,
                                                Some(rest) => Some(
                                                    (
                                                        if keep {
                                                            seq![v] + rest.0
                                                        } else {
                                                            rest.0
                                                        },
                                                        rest.1,
                                                    ),
                                                ),
                                            }
                                        },
                                    }
                                },
                            }
                        },
                    }
                }
            },
        }
    }
}

/// The packed words with the band bit applied.
pub open spec fn spec_apply_band(vals: Seq<u32>, band: u32) -> Seq<u32> {
    vals.map_values(|v: u32| (v * 2 + band) as u32)
}

/// The packed words one tokenized visibility sentence contributes: nothing
/// unless the header carries a known constellation, three well-formed count
/// fields follow, every needed field is present, and the band field is
/// there and well formed; otherwise one word per kept satellite block, band
/// bit from the band field's first character.
pub open spec fn spec_burst_gsv(toks: Seq<Seq<char>>) -> Option<Seq<u32>> {
    if toks.len() < 1 {
        None
    } else {
        match spec_burst_network(toks[0]) {
            None => None,
            Some(nw) => if toks.len() < 4 {
                None
            } else {
                match (spec_parse_u32(toks[1]), spec_parse_u32(toks[2]), spec_parse_u32(toks[3])) {
                    (Some(nm), Some(im), Some(ns)) => {
                        match spec_bgsv_walk(toks, 4, spec_gsv_count(nm, im, ns), 0, nw) {
                            None => None,
                            Some(w) => if w.1 >= toks.len() || toks[w.1].len() == 0 {
                                None
                            } else {
                                match spec_parse_u32(seq![toks[w.1][0]]) {
                                    None => None,
                                    Some(bn) => Some(spec_apply_band(w.0, spec_band_bit(bn))),
                                }
                            },
                        }
                    },
                    _ => None,
                }
            },
        }
    }
}

/// Packs the satellite blocks of one tokenized visibility sentence onto the
/// burst: on success its words are appended and the record count advances
/// by their number (wrapping); a sentence that contributes nothing leaves
/// both untouched.
pub fn parse_gsv(toks: &Vec<Vec<char>>, values: &mut Vec<u32>, num: &mut u32)
    ensures
        match spec_burst_gsv(toks.deep_view()) {
            Some(new) => final(values)@ == old(values)@ + new && *final(num) == (((*old(num))
                + new.len()) % 0x1_0000_0000) as u32,
            None => final(values)@ == old(values)@ && *final(num) == *old(num),
        },
{
    let ghost toksd = toks.deep_view();
    let ghost spec_result = spec_burst_gsv(toksd);
    if toks.len() < 1 {
        return;
    }
    proof {
        lemma_btoken_view(toks, 0);
    }
    let nw: u32 = match network_chars(&toks[0]) {
        Some(v) => v,
        None => {
            return;
        },
    };
    if toks.len() < 4 {
        return;
    }
    proof {
        lemma_btoken_view(toks, 1);
        lemma_btoken_view(toks, 2);
        lemma_btoken_view(toks, 3);
    }
    let nm: u32 = match parse_u32_chars(&toks[1]) {
        Some(v) => v,
        None => {
            return;
        },
    };
    let im: u32 = match parse_u32_chars(&toks[2]) {
        Some(v) => v,
        None => {
            return;
        },
    };
    let ns: u32 = match parse_u32_chars(&toks[3]) {
        Some(v) => v,
        None => {
            return;
        },
    };
    let count: u64 = if im == nm && nm >= 1 && (ns as u64) >= ((nm - 1) as u64) * 4 {
        (ns as u64) - ((nm - 1) as u64) * 4
    } else {
        4
    };
    let ghost count0 = count as int;
    proof {
        assert(count0 == spec_gsv_count(nm, im, ns));
    }

    let mut entries: Vec<u32> = Vec::new();
    let mut pos: usize = 4;
    let mut remaining: u64 = count;
    let mut outcome: u8 = 0;  // 0: walking, 1: band position found, 2: field missing
    let mut band_pos: usize = 0;
    while outcome == 0 && remaining > 0
        invariant
            toks@.len() >= 4,
            toksd == toks.deep_view(),
            toksd.len() == toks@.len(),
            4 <= pos <= toks@.len(),
            nw < 4,
            entries@.len() <= 4,
            outcome == 0 || outcome == 1 || outcome == 2,
            forall|q: int| 0 <= q < entries@.len() ==> #[trigger] entries@[q] < 0x8000_0000,
            outcome == 0 ==> spec_bgsv_walk(toksd, 4, count0, 0, nw) == (match spec_bgsv_walk(
                toksd,
                pos as int,
                remaining as int,
                entries@.len() as int,
                nw,
            ) {
                None => None::<(Seq<u32>, int)>,
                Some(r) => Some((entries@ + r.0, r.1)),
            }),
            outcome == 1 ==> spec_bgsv_walk(toksd, 4, count0, 0, nw) == Some(
                (entries@, band_pos as int),
            ),
            outcome == 2 ==> spec_bgsv_walk(toksd, 4, count0, 0, nw) is None,
        decreases (if outcome == 0 { 1int } else { 0int }), remaining,
    {
        let ghost walk_pre = spec_bgsv_walk(
            toksd,
            pos as int,
            remaining as int,
            entries@.len() as int,
            nw,
        );
        if pos >= toks.len() {
            outcome = 2;
        } else {
            proof {
                lemma_btoken_view(toks, pos as int);
            }
            let next: usize = if toks.len() - pos >= 4 {
                pos + 4
            } else {
                toks.len()
            };
            proof {
                assert(next as int == spec_adv4(toksd, pos as int));
            }
            let ghost walk_next = spec_bgsv_walk(
                toksd,
                next as int,
                remaining as int - 1,
                entries@.len() as int,
                nw,
            );
            match parse_u32_chars(&toks[pos]) {
                None => {
                    proof {
                        assert(walk_pre == walk_next);
                    }
                    remaining = remaining - 1;
                    pos = next;
                },
                Some(sat0) => {
                    let sat: u32 = fix_sat(sat0, nw);
                    if sat >= 128 {
                        proof {
                            assert(walk_pre == walk_next);
                        }
                        remaining = remaining - 1;
                        pos = next;
                    } else if toks.len() - pos <= 1 {
                        outcome = 2;
                        proof {
                            assert(walk_pre is None);
                        }
                    } else {
                        proof {
                            lemma_btoken_view(toks, pos as int + 1);
                        }
                        match parse_u32_chars(&toks[pos + 1]) {
                            None => {
                                proof {
                                    assert(walk_pre == walk_next);
                                }
                                remaining = remaining - 1;
                                pos = next;
                            },
                            Some(elev) => {
                                if elev >= 128 {
                                    proof {
                                        assert(walk_pre == walk_next);
                                    }
                                    remaining = remaining - 1;
                                    pos = next;
                                } else if toks.len() - pos <= 2 {
                                    outcome = 2;
                                    proof {
                                        assert(walk_pre is None);
                                    }
                                } else {
                                    proof {
                                        lemma_btoken_view(toks, pos as int + 2);
                                    }
                                    match parse_u32_chars(&toks[pos + 2]) {
                                        None => {
                                            proof {
                                                assert(walk_pre == walk_next);
                                            }
                                            remaining = remaining - 1;
                                            pos = next;
                                        },
                                        Some(azim) => {
                                            if azim >= 512 {
                                                proof {
                                                    assert(walk_pre == walk_next);
                                                }
                                                remaining = remaining - 1;
                                                pos = next;
                                            } else if toks.len() - pos <= 3 {
                                                outcome = 2;
                                                proof {
                                                    assert(walk_pre is None);
                                                }
                                            } else {
                                                proof {
                                                    lemma_btoken_view(toks, pos as int + 3);
                                                }
                                                match parse_u32_chars(&toks[pos + 3]) {
                                                    None => {
                                                        proof {
                                                            assert(walk_pre == walk_next);
                                                        }
                                                        remaining = remaining - 1;
                                                        pos = next;
                                                    },
                                                    Some(snr) => {
                                                        if snr >= 64 {
                                                            proof {
                                                                assert(walk_pre == walk_next);
                                                            }
                                                            remaining = remaining - 1;
                                                            pos = next;
                                                        } else {
                                                            let keep: bool = entries.len() < 4;
                                                            let ghost pre_entries = entries@;
                                                            let ghost walk_kept = spec_bgsv_walk(
                                                                toksd,
                                                                next as int,
                                                                remaining as int - 1,
                                                                pre_entries.len() as int + (
                                                                if keep {
                                                                    1int
                                                                } else {
                                                                    0int
                                                                }),
                                                                nw,
                                                            );
                                                            if keep {
                                                                let v: u32 = crate::packed::pack_body(
                                                                    sat,
                                                                    nw,
                                                                    elev,
                                                                    azim,
                                                                    snr,
                                                                );
                                                                entries.push(v);
                                                                proof {
                                                                    assert(v < 0x8000_0000);
                                                                }
                                                            }
                                                            proof {
                                                                let v = spec_pack_body(
                                                                    sat,
                                                                    nw,
                                                                    elev,
                                                                    azim,
                                                                    snr,
                                                                );
                                                                if walk_kept is Some {
                                                                    let rest = walk_kept->Some_0;
                                                                    if keep {
                                                                        assert(entries@
                                                                            =~= pre_entries.push(
                                                                            v,
                                                                        ));
                                                                        assert(pre_entries + (
                                                                        seq![v] + rest.0)
                                                                            =~= entries@ + rest.0);
                                                                    }
                                                                }
                                                            }
                                                            remaining = remaining - 1;
                                                            pos = next;
                                                        }
                                                    },
                                                }
                                            }
                                        },
                                    }
                                }
                            },
                        }
                    }
                },
            }
        }
    }
    if outcome == 0 {
        band_pos = pos;
        outcome = 1;
        proof {
            assert(spec_bgsv_walk(toksd, pos as int, 0, entries@.len() as int, nw) == Some(
                (Seq::<u32>::empty(), pos as int),
            ));
            assert(entries@ + Seq::<u32>::empty() =~= entries@);
        }
    }
    if outcome == 2 {
        return;
    }
    if band_pos >= toks.len() {
        return;
    }
    proof {
        lemma_btoken_view(toks, band_pos as int);
    }
    let btok: &Vec<char> = &toks[band_pos];
    if btok.len() == 0 {
        return;
    }
    let bchar: Vec<char> = subchars(btok, 0, 1);
    proof {
        assert(bchar@ =~= seq![toksd[band_pos as int][0]]);
    }
    let bn: u32 = match parse_u32_chars(&bchar) {
        Some(v) => v,
        None => {
            return;
        },
    };
    let band: u32 = number_to_band(bn);
    let ghost new = spec_apply_band(entries@, band);
    proof {
        assert(spec_result == Some(new));
    }
    let ghost base_vals = values@;
    let n_entries: usize = entries.len();
    let mut k: usize = 0;
    while k < n_entries
        invariant
            k <= n_entries,
            n_entries == entries@.len(),
            band < 2,
            forall|q: int| 0 <= q < entries@.len() ==> #[trigger] entries@[q] < 0x8000_0000,
            new == spec_apply_band(entries@, band),
            new.len() == entries@.len(),
            values@ == base_vals + new.take(k as int),
        decreases n_entries - k,
    {
        let v: u32 = entries[k];
        values.push(v * 2 + band);
        k = k + 1;
        proof {
            assert(new.take(k as int) =~= new.take(k - 1).push(new[k - 1]));
            assert(new[k - 1] == (entries@[k - 1] * 2 + band) as u32);
            assert(values@ =~= base_vals + new.take(k as int));
        }
    }
    proof {
        assert(new.take(n_entries as int) =~= new);
    }
    let add: u32 = n_entries as u32;
    *num = num.wrapping_add(add);
}

/// Running fold over a burst's lines: the current time of day (`u32::MAX`
/// until a fix sentence is seen), the packed words so far, and the record
/// count so far.
pub open spec fn spec_burst_fold(lines: Seq<Seq<char>>, n: int) -> (u32, Seq<u32>, u32)
    decreases n,
{
    if n <= 0 {
        (u32::MAX, Seq::empty(), 0u32)
    } else {
        let prev = spec_burst_fold(lines, n - 1);
        let toks = spec_split(lines[n - 1], false);
        if spec_burst_command(toks[0], seq!['G', 'G', 'A']) {
            let t = match spec_parse_gga(toks) {
                Some(x) => x,
                None => prev.0,
            };
            (t, prev.1, prev.2)
        } else if spec_burst_command(toks[0], seq!['G', 'S', 'V']) {
            match spec_burst_gsv(toks) {
                Some(new) => (
                    prev.0,
                    prev.1 + new,
                    ((prev.2 + new.len()) % 0x1_0000_0000) as u32,
                ),
                None => prev,
            }
        } else {
            prev
        }
    }
}

/// The header word of a burst: time of day in the upper 24 bits, record
/// count in the lower 8.
pub open spec fn spec_burst_header(time: u32, num: u32) -> u32 {
    ((time % 0x100_0000) * 256 + (num % 256)) as u32
}

/// Everything one burst of lines encodes to: a header word, then the packed
/// words of its visibility sentences.
pub open spec fn spec_parse_burst(lines: Seq<Seq<char>>) -> Seq<u32> {
    let f = spec_burst_fold(lines, lines.len() as int);
    seq![spec_burst_header(f.0, f.2)] + f.1
}

/// Encodes a burst of sentences into wire words: fix (`GGA`) lines set the
/// burst time, visibility (`GSV`) lines contribute packed satellite words,
/// and the leading header word carries the time and the record count.
pub fn parse_burst(lines: Vec<String>) -> (values: Vec<u32>)
    ensures
        values@ == spec_parse_burst(lines.deep_view()),
{
    let ghost ld = lines.deep_view();
    let mut current_gps_time: u32 = u32::MAX;
    let mut values: Vec<u32> = Vec::new();
    let mut num: u32 = 0;
    values.push(0);
    let n: usize = lines.len();
    let mut i: usize = 0;
    while i < n
        invariant
            i <= n,
            n == lines@.len(),
            ld == lines.deep_view(),
            ld.len() == n,
            values@.len() >= 1,
            current_gps_time == spec_burst_fold(ld, i as int).0,
            values@ == seq![0u32] + spec_burst_fold(ld, i as int).1,
            num == spec_burst_fold(ld, i as int).2,
        decreases n - i,
    {
        let line: &String = &lines[i];
        let s: &str = line.as_str();
        proof {
            assert(lines@[i as int].deep_view() == ld[i as int]);
            assert(s@ == ld[i as int]);
        }
        let chars: Vec<char> = str_to_chars(s);
        let toks: Vec<Vec<char>> = split_fields(&chars, false);
        proof {
            lemma_btoken_view(&toks, 0);
        }
        let gga: Vec<char> = vec!['G', 'G', 'A'];
        let gsv: Vec<char> = vec!['G', 'S', 'V'];
        proof {
            assert(gga@ =~= seq!['G', 'G', 'A']);
            assert(gsv@ =~= seq!['G', 'S', 'V']);
        }
        if is_command_chars(&toks[0], &gga) {
            match parse_gga(&toks) {
                Some(t) => {
                    current_gps_time = t;
                },
                None => {},
            }
        } else if is_command_chars(&toks[0], &gsv) {
            parse_gsv(&toks, &mut values, &mut num);
            proof {
                if spec_burst_gsv(toks.deep_view()) is Some {
                    let new = spec_burst_gsv(toks.deep_view())->Some_0;
                    assert(values@ =~= seq![0u32] + (spec_burst_fold(ld, i as int).1 + new));
                }
            }
        }
        i = i + 1;
    }
    proof {
        assert(current_gps_time & 0x00FF_FFFF == current_gps_time % 0x100_0000) by (bit_vector);
        assert(num & 0xFF == num % 256) by (bit_vector);
        assert((current_gps_time % 0x100_0000) * 256 + (num % 256) < 0x1_0000_0000);
    }
    let header: u32 = (current_gps_time & 0x00FF_FFFF) * 256 + (num & 0xFF);
    values.set(0, header);
    proof {
        assert(values@ =~= seq![spec_burst_header(
            spec_burst_fold(ld, n as int).0,
            spec_burst_fold(ld, n as int).2,
        )] + spec_burst_fold(ld, n as int).1);
    }
    values
}

} // verus!
