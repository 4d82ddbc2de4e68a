//! The mathematical model of a COBS frame.
//!
//! [`stuffed`] gives the exact byte sequence that encoding a buffer produces,
//! and [`unstuffed`] gives the exact outcome of decoding one, as a walk over
//! the frame. The executable functions in [`crate::encode`] and
//! [`crate::decode`] are specified against these two functions, and the
//! public laws in [`crate::laws`] relate them to each other.

use vstd::prelude::*;

verus! {

/// Length of the leading run of bytes of `data` that differ from `marker`.
pub open spec fn run_len(data: Seq<u8>, marker: u8) -> nat
    decreases data.len(),
{
    if data.len() == 0 || data[0] == marker {
        0
    } else {
        1 + run_len(data.skip(1), marker)
    }
}

/// The COBS frame for `data`: a distance byte before each run of at most 254
/// marker-free bytes, every occurrence of `marker` absorbed into the distance
/// bytes, and a single terminating `marker` at the end. A distance byte of
/// 0xff announces a forced break: 254 payload bytes follow and then another
/// distance byte, with no marker removed at that point.
pub open spec fn stuffed(data: Seq<u8>, marker: u8) -> Seq<u8>
    decreases data.len(),
{
    let run = run_len(data, marker);
    if run >= 254 && data.len() >= 255 {
        seq![0xffu8] + data.take(254) + stuffed(data.skip(254), marker)
    } else if run < data.len() {
        seq![(run + 1) as u8] + data.take(run as int) + stuffed(data.skip(run as int + 1), marker)
    } else {
        seq![(run + 1) as u8] + data + seq![marker]
    }
}

/// How many forced breaks the frame for `data` contains: one for every 254
/// marker-free payload bytes that are followed by at least one more input
/// byte.
pub open spec fn break_count(data: Seq<u8>, marker: u8) -> nat
    decreases data.len(),
{
    let run = run_len(data, marker);
    if run >= 254 && data.len() >= 255 {
        1 + break_count(data.skip(254), marker)
    } else if run < data.len() {
        break_count(data.skip(run as int + 1), marker)
    } else {
        0
    }
}

/// Whether every distance byte of the frame for `data` differs from `marker`.
/// With `head_exempt` the leading distance byte, which sits at position 0 of
/// the frame, is not held to that. The decoder never compares the byte it
/// starts on against the marker, so a frame whose only offending distance
/// byte is the leading one still decodes; every later distance byte equal to
/// the marker would end decoding early. With a marker of 0 the condition
/// always holds, distance bytes being 1 through 255.
pub open spec fn distances_clear(data: Seq<u8>, marker: u8, head_exempt: bool) -> bool
    decreases data.len(),
{
    let run = run_len(data, marker);
    if run >= 254 && data.len() >= 255 {
        (head_exempt || 0xff != marker) && distances_clear(data.skip(254), marker, false)
    } else if run < data.len() {
        (head_exempt || run + 1 != marker) && distances_clear(data.skip(run as int + 1), marker, false)
    } else {
        head_exempt || run + 1 != marker
    }
}

/// The decoder's distance counter after one distance byte `d` is consumed:
/// `d - 1` payload bytes remain before the next distance byte, the counter
/// wrapping below zero as the executable byte arithmetic does.
pub open spec fn next_count(d: u8) -> u8 {
    if d == 0 {
        255u8
    } else {
        (d - 1) as u8
    }
}

/// One decoding position. The walk stands at input position `i` with `until`
/// payload bytes left before the next distance byte; `pending_break` records
/// that the distance byte that will be reached came from a forced break, not
/// from a removed marker; `acc` is the payload recovered so far. A byte equal
/// to `marker` ends the walk at once, successfully, yielding the payload and
/// the number of input bytes consumed; running off the end of the input means
/// the terminator is missing.
pub open spec fn walk(
    enc: Seq<u8>,
    marker: u8,
    i: int,
    until: u8,
    pending_break: bool,
    acc: Seq<u8>,
) -> Option<(Seq<u8>, int)>
    decreases enc.len() - i,
{
    if i < 0 || i >= enc.len() {
        None
    } else if enc[i] == marker {
        Some((acc, i + 1))
    } else if until == 0 {
        walk(
            enc,
            marker,
            i + 1,
            next_count(enc[i]),
            enc[i] == 0xff,
            if pending_break {
                acc
            } else {
                acc.push(marker)
            },
        )
    } else {
        walk(enc, marker, i + 1, (until - 1) as u8, pending_break, acc.push(enc[i]))
    }
}

/// Decoding a frame `enc`: the first byte is read as the initial distance,
/// and the walk starts behind it. `None` means the frame is malformed: no
/// terminating marker was found. `Some((data, used))` gives the recovered
/// payload and the number of input bytes consumed, terminator included.
pub open spec fn unstuffed(enc: Seq<u8>, marker: u8) -> Option<(Seq<u8>, int)> {
    if enc.len() == 0 {
        None
    } else {
        walk(enc, marker, 1, next_count(enc[0]), enc[0] == 0xff, Seq::empty())
    }
}

/// Whether decoding `enc` succeeds.
pub open spec fn unstuff_ok(enc: Seq<u8>, marker: u8) -> bool {
    unstuffed(enc, marker) is Some
}

/// The payload that decoding `enc` recovers, when it succeeds.
pub open spec fn unstuffed_data(enc: Seq<u8>, marker: u8) -> Seq<u8> {
    match unstuffed(enc, marker) {
        Option::Some(p) => p.0,
        Option::None => Seq::empty(),
    }
}

/// How many input bytes decoding `enc` consumes, terminator included, when it
/// succeeds.
pub open spec fn unstuffed_end(enc: Seq<u8>, marker: u8) -> int {
    match unstuffed(enc, marker) {
        Option::Some(p) => p.1,
        Option::None => 0,
    }
}

/// The leading run holds no marker; the byte after it, if any, is one.
pub proof fn lemma_run_len_facts(data: Seq<u8>, marker: u8)
    ensures
        run_len(data, marker) <= data.len(),
        forall|k: int| 0 <= k < run_len(data, marker) ==> data[k] != marker,
        run_len(data, marker) < data.len() ==> data[run_len(data, marker) as int] == marker,
    decreases data.len(),
{
    if data.len() == 0 || data[0] == marker {
    } else {
        lemma_run_len_facts(data.skip(1), marker);
        assert forall|k: int| 0 <= k < run_len(data, marker) implies data[k] != marker by {
            if k > 0 {
                assert(data.skip(1)[k - 1] != marker);
            }
        }
    }
}

/// A marker-free prefix bounds the leading run from below.
pub proof fn lemma_run_len_at_least(data: Seq<u8>, marker: u8, t: int)
    requires
        0 <= t <= data.len(),
        forall|k: int| 0 <= k < t ==> data[k] != marker,
    ensures
        run_len(data, marker) >= t,
    decreases t,
{
    if t > 0 {
        assert(data[0] != marker);
        lemma_run_len_at_least(data.skip(1), marker, t - 1);
    }
}

/// A marker-free prefix ended by a marker, or by the end of the buffer, is
/// exactly the leading run.
pub proof fn lemma_run_len_is(data: Seq<u8>, marker: u8, t: int)
    requires
        0 <= t <= data.len(),
        forall|k: int| 0 <= k < t ==> data[k] != marker,
        t < data.len() ==> data[t] == marker,
    ensures
        run_len(data, marker) == t,
{
    lemma_run_len_at_least(data, marker, t);
    lemma_run_len_facts(data, marker);
    if run_len(data, marker) > t {
        assert(data[t] != marker);
    }
}

/// The frame is the payload plus two bytes plus one byte per forced break.
pub proof fn lemma_stuffed_len(data: Seq<u8>, marker: u8)
    ensures
        stuffed(data, marker).len() == data.len() + 2 + break_count(data, marker),
    decreases data.len(),
{
    let run = run_len(data, marker);
    lemma_run_len_facts(data, marker);
    if run >= 254 && data.len() >= 255 {
        lemma_stuffed_len(data.skip(254), marker);
    } else if run < data.len() {
        lemma_stuffed_len(data.skip(run as int + 1), marker);
    }
}

} // verus!
