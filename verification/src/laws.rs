//! The laws that tie the two transforms together.
//!
//! Decoding a frame recovers the buffer it was built from; re-encoding what
//! was decoded gives the frame back; nothing inside a frame equals the marker
//! but the terminator; the frame's length is pinned down exactly; and a
//! buffer with no marker anywhere never decodes.
//!
//! The round-trip laws ask that every distance byte of the frame differ from
//! the marker ([`distances_clear`]): a distance byte equal to the marker
//! would end decoding early, and with a marker other than 0 some buffers do
//! produce one. With the conventional marker 0 the condition always holds,
//! so those laws come in an unconditional form as well.

use crate::frame::{
    break_count, distances_clear, lemma_run_len_facts, lemma_run_len_is, lemma_stuffed_len,
    next_count, run_len, stuffed, unstuff_ok, unstuffed, unstuffed_data, walk,
};
use vstd::arithmetic::div_mod::{
    lemma_basic_div, lemma_div_is_ordered, lemma_div_plus_one, lemma_div_pos_is_pos,
    lemma_mod_sub_multiples_vanish,
};
use vstd::prelude::*;

verus! {

/// A clear frame keeps its leading distance byte apart from the marker.
proof fn lemma_clear_head(data: Seq<u8>, marker: u8)
    requires
        distances_clear(data, marker, false),
    ensures
        stuffed(data, marker).len() >= 2,
        stuffed(data, marker)[0] != marker,
{
    lemma_stuffed_len(data, marker);
    lemma_run_len_facts(data, marker);
    let fr = stuffed(data, marker);
    let run = run_len(data, marker) as int;
    if run >= 254 && data.len() >= 255 {
        assert(fr[0] == 0xffu8);
    } else if run < data.len() {
        assert(run <= 253);
        assert(fr[0] == (run + 1) as u8);
    } else {
        assert(run <= 254);
        assert(fr[0] == (run + 1) as u8);
    }
}

/// Exempting the head asks less than checking it.
proof fn lemma_clear_exempt(data: Seq<u8>, marker: u8)
    requires
        distances_clear(data, marker, false),
    ensures
        distances_clear(data, marker, true),
{
}

/// The walk copies a marker-free stretch verbatim while counting `until`
/// down to 0.
proof fn lemma_copy_run(
    enc: Seq<u8>,
    marker: u8,
    i: int,
    t: u8,
    pending_break: bool,
    acc: Seq<u8>,
)
    requires
        0 <= i,
        i + t <= enc.len(),
        forall|p: int| i <= p < i + t ==> enc[p] != marker,
    ensures
        walk(enc, marker, i, t, pending_break, acc) == walk(
            enc,
            marker,
            i + t,
            0u8,
            pending_break,
            acc + enc.subrange(i, i + t),
        ),
    decreases t,
{
    if t == 0 {
        assert(acc + enc.subrange(i, i) =~= acc);
    } else {
        assert(enc[i] != marker);
        lemma_copy_run(enc, marker, i + 1, (t - 1) as u8, pending_break, acc.push(enc[i]));
        assert(acc.push(enc[i]) + enc.subrange(i + 1, i + t) =~= acc + enc.subrange(i, i + t));
    }
}

/// The walk, standing just behind the leading distance byte of the frame for
/// `data`, consumes the whole frame and recovers exactly `data`.
proof fn lemma_walk_stuffed(enc: Seq<u8>, marker: u8, i: int, acc: Seq<u8>, data: Seq<u8>)
    requires
        1 <= i <= enc.len(),
        enc.skip(i - 1) == stuffed(data, marker),
        distances_clear(data, marker, true),
    ensures
        walk(
            enc,
            marker,
            i,
            next_count(stuffed(data, marker)[0]),
            stuffed(data, marker)[0] == 0xff,
            acc,
        ) == Some((acc + data, i - 1 + stuffed(data, marker).len())),
    decreases data.len(),
{
    let fr = stuffed(data, marker);
    let run = run_len(data, marker) as int;
    lemma_run_len_facts(data, marker);
    assert(enc.len() == i - 1 + fr.len());
    assert forall|p: int| 0 <= p < fr.len() implies enc[i - 1 + p] == fr[p] by {
        assert(enc.skip(i - 1)[p] == fr[p]);
    }
    if run >= 254 && data.len() >= 255 {
        let rest = stuffed(data.skip(254), marker);
        assert(fr == seq![0xffu8] + data.take(254) + rest);
        assert(fr[0] == 0xff);
        assert(next_count(0xffu8) == 254u8);
        assert forall|p: int| i <= p < i + 254 implies enc[p] != marker by {
            assert(enc[p] == fr[p - i + 1]);
            assert(fr[p - i + 1] == data.take(254)[p - i]);
            assert(data[p - i] != marker);
        }
        lemma_copy_run(enc, marker, i, 254u8, true, acc);
        assert(enc.subrange(i, i + 254) =~= data.take(254)) by {
            assert forall|q: int| 0 <= q < 254 implies enc.subrange(i, i + 254)[q]
                == data.take(254)[q] by {
                assert(enc.subrange(i, i + 254)[q] == enc[i + q]);
                assert(enc[i + q] == enc[i - 1 + (q + 1)]);
                assert(fr[q + 1] == data.take(254)[q]);
            }
        }
        lemma_clear_head(data.skip(254), marker);
        assert(enc[i + 254] == fr[255]);
        assert(fr[255] == rest[0]);
        assert(walk(enc, marker, i + 254, 0u8, true, acc + data.take(254)) == walk(
            enc,
            marker,
            i + 255,
            next_count(rest[0]),
            rest[0] == 0xff,
            acc + data.take(254),
        ));
        assert(enc.skip(i + 254) =~= rest) by {
            assert forall|p: int| 0 <= p < enc.len() - i - 254 implies enc.skip(i + 254)[p]
                == rest[p] by {
                assert(enc[i + 254 + p] == fr[255 + p]);
                assert(fr[255 + p] == rest[p]);
            }
        }
        lemma_clear_exempt(data.skip(254), marker);
        lemma_walk_stuffed(enc, marker, i + 255, acc + data.take(254), data.skip(254));
        assert(acc + data.take(254) + data.skip(254) =~= acc + data);
        assert(i + 254 + rest.len() == i - 1 + fr.len());
    } else if run < data.len() {
        let rest = stuffed(data.skip(run + 1), marker);
        assert(fr == seq![(run + 1) as u8] + data.take(run) + rest);
        assert(run <= 253);
        assert(fr[0] == (run + 1) as u8);
        assert(fr[0] != 0xff);
        assert(next_count(fr[0]) == run as u8);
        assert forall|p: int| i <= p < i + run implies enc[p] != marker by {
            assert(enc[p] == fr[p - i + 1]);
            assert(fr[p - i + 1] == data.take(run)[p - i]);
            assert(data[p - i] != marker);
        }
        lemma_copy_run(enc, marker, i, run as u8, false, acc);
        assert(enc.subrange(i, i + run) =~= data.take(run)) by {
            assert forall|q: int| 0 <= q < run implies enc.subrange(i, i + run)[q]
                == data.take(run)[q] by {
                assert(enc.subrange(i, i + run)[q] == enc[i + q]);
                assert(enc[i + q] == enc[i - 1 + (q + 1)]);
                assert(fr[q + 1] == data.take(run)[q]);
            }
        }
        lemma_clear_head(data.skip(run + 1), marker);
        assert(enc[i + run] == fr[run + 1]);
        assert(fr[run + 1] == rest[0]);
        let grown = (acc + data.take(run)).push(marker);
        assert(walk(enc, marker, i + run, 0u8, false, acc + data.take(run)) == walk(
            enc,
            marker,
            i + run + 1,
            next_count(rest[0]),
            rest[0] == 0xff,
            grown,
        ));
        assert(enc.skip(i + run) =~= rest) by {
            assert forall|p: int| 0 <= p < enc.len() - i - run implies enc.skip(i + run)[p]
                == rest[p] by {
                assert(enc[i + run + p] == fr[run + 1 + p]);
                assert(fr[run + 1 + p] == rest[p]);
            }
        }
        lemma_clear_exempt(data.skip(run + 1), marker);
        lemma_walk_stuffed(enc, marker, i + run + 1, grown, data.skip(run + 1));
        assert(data[run] == marker);
        assert(grown + data.skip(run + 1) =~= acc + data);
        assert(i + run + rest.len() == i - 1 + fr.len());
    } else {
        assert(fr == seq![(run + 1) as u8] + data + seq![marker]);
        assert(run == data.len());
        assert(fr[0] == (run + 1) as u8);
        assert(next_count(fr[0]) == run as u8);
        assert forall|p: int| i <= p < i + run implies enc[p] != marker by {
            assert(enc[p] == fr[p - i + 1]);
            assert(fr[p - i + 1] == data[p - i]);
        }
        lemma_copy_run(enc, marker, i, run as u8, fr[0] == 0xff, acc);
        assert(enc.subrange(i, i + run) =~= data) by {
            assert forall|q: int| 0 <= q < run implies enc.subrange(i, i + run)[q] == data[q] by {
                assert(enc.subrange(i, i + run)[q] == enc[i + q]);
                assert(enc[i + q] == enc[i - 1 + (q + 1)]);
                assert(fr[q + 1] == data[q]);
            }
        }
        assert(enc[i + run] == fr[run + 1]);
        assert(fr[run + 1] == marker);
        assert(walk(enc, marker, i + run, 0u8, fr[0] == 0xff, acc + data) == Some(
            (acc + data, i + run + 1),
        ));
        assert(i + run + 1 == i - 1 + fr.len());
    }
}

/// Round trip: decoding the frame built from a buffer recovers that buffer,
/// whole and exactly, and consumes the whole frame. Holds whenever every
/// distance byte of the frame differs from the marker, which a marker of 0
/// guarantees for every buffer.
pub proof fn lemma_round_trip(data: Seq<u8>, marker: u8)
    requires
        distances_clear(data, marker, true),
    ensures
        unstuffed(stuffed(data, marker), marker) == Some(
            (data, stuffed(data, marker).len() as int),
        ),
{
    let enc = stuffed(data, marker);
    lemma_stuffed_len(data, marker);
    assert(enc.skip(0) =~= enc);
    lemma_walk_stuffed(enc, marker, 1, Seq::empty(), data);
    assert(Seq::<u8>::empty() + data =~= data);
}

/// Round trip for the conventional marker 0, with no condition at all.
pub proof fn lemma_round_trip_zero(data: Seq<u8>)
    ensures
        unstuffed(stuffed(data, 0u8), 0u8) == Some((data, stuffed(data, 0u8).len() as int)),
{
    lemma_marker_zero_clear(data);
    lemma_round_trip(data, 0u8);
}

/// Inverse stability: re-encoding what a frame decodes to gives that frame
/// back, for any frame the encoder produces.
pub proof fn lemma_inverse_stability(data: Seq<u8>, marker: u8)
    requires
        distances_clear(data, marker, true),
    ensures
        stuffed(unstuffed_data(stuffed(data, marker), marker), marker) == stuffed(data, marker),
{
    lemma_round_trip(data, marker);
}

/// Nothing in a frame equals the marker except the final byte, the
/// terminator. Holds whenever every distance byte differs from the marker;
/// [`lemma_marker_zero_clear`] discharges that for marker 0.
pub proof fn lemma_no_marker_inside(data: Seq<u8>, marker: u8)
    requires
        distances_clear(data, marker, false),
    ensures
        stuffed(data, marker).len() >= 2,
        stuffed(data, marker).last() == marker,
        forall|k: int|
            0 <= k < stuffed(data, marker).len() - 1 ==> stuffed(data, marker)[k] != marker,
    decreases data.len(),
{
    let fr = stuffed(data, marker);
    let run = run_len(data, marker) as int;
    lemma_run_len_facts(data, marker);
    if run >= 254 && data.len() >= 255 {
        lemma_no_marker_inside(data.skip(254), marker);
        let rest = stuffed(data.skip(254), marker);
        assert(fr == seq![0xffu8] + data.take(254) + rest);
        assert(fr.last() == rest.last());
        assert forall|k: int| 0 <= k < fr.len() - 1 implies fr[k] != marker by {
            if k == 0 {
            } else if k < 255 {
                assert(fr[k] == data[k - 1]);
            } else {
                assert(fr[k] == rest[k - 255]);
            }
        }
    } else if run < data.len() {
        lemma_no_marker_inside(data.skip(run + 1), marker);
        let rest = stuffed(data.skip(run + 1), marker);
        assert(fr == seq![(run + 1) as u8] + data.take(run) + rest);
        assert(fr.last() == rest.last());
        assert forall|k: int| 0 <= k < fr.len() - 1 implies fr[k] != marker by {
            if k == 0 {
            } else if k < run + 1 {
                assert(fr[k] == data[k - 1]);
            } else {
                assert(fr[k] == rest[k - run - 1]);
            }
        }
    } else {
        assert(fr == seq![(run + 1) as u8] + data + seq![marker]);
        assert forall|k: int| 0 <= k < fr.len() - 1 implies fr[k] != marker by {
            if k > 0 {
                assert(fr[k] == data[k - 1]);
            }
        }
    }
}

/// For the conventional marker 0, nothing but the final byte of any frame
/// is a 0, with no condition at all.
pub proof fn lemma_no_marker_inside_zero(data: Seq<u8>)
    ensures
        stuffed(data, 0u8).len() >= 2,
        stuffed(data, 0u8).last() == 0u8,
        forall|k: int|
            0 <= k < stuffed(data, 0u8).len() - 1 ==> stuffed(data, 0u8)[k] != 0u8,
{
    lemma_marker_zero_clear(data);
    lemma_no_marker_inside(data, 0u8);
}

/// With a marker of 0 every distance byte clears it: distance bytes lie in
/// 1 through 255.
pub proof fn lemma_marker_zero_clear(data: Seq<u8>)
    ensures
        distances_clear(data, 0u8, true),
        distances_clear(data, 0u8, false),
    decreases data.len(),
{
    let run = run_len(data, 0u8);
    if run >= 254 && data.len() >= 255 {
        lemma_marker_zero_clear(data.skip(254));
    } else if run < data.len() {
        lemma_marker_zero_clear(data.skip(run as int + 1));
    }
}

/// The frame's length, exactly: the payload, the leading distance byte and
/// the terminator, and one more byte per forced break; and the break count
/// never passes one per 254 payload bytes.
pub proof fn lemma_overhead_bound(data: Seq<u8>, marker: u8)
    ensures
        stuffed(data, marker).len() == data.len() + 2 + break_count(data, marker),
        break_count(data, marker) <= data.len() as int / 254,
        stuffed(data, marker).len() <= data.len() + 2 + data.len() as int / 254,
    decreases data.len(),
{
    let run = run_len(data, marker);
    lemma_stuffed_len(data, marker);
    if run >= 254 && data.len() >= 255 {
        lemma_overhead_bound(data.skip(254), marker);
        lemma_div_plus_one(data.len() - 254, 254);
        assert(1 + (data.len() - 254) / 254 == (254 + (data.len() - 254)) / 254);
    } else if run < data.len() {
        lemma_overhead_bound(data.skip(run as int + 1), marker);
        lemma_div_is_ordered(data.len() - run - 1, data.len() as int, 254);
    } else {
        lemma_div_pos_is_pos(data.len() as int, 254);
    }
}

/// For a marker-free buffer whose length is not a positive multiple of 254,
/// the frame's length is exactly the buffer's plus 2 plus one byte per full
/// 254 bytes of payload. A marker-free buffer of exactly 254 bytes misses
/// this by one: its frame needs no forced break, and is one byte shorter
/// than the formula says.
pub proof fn lemma_overhead_exact(data: Seq<u8>, marker: u8)
    requires
        forall|k: int| 0 <= k < data.len() ==> data[k] != marker,
        data.len() % 254 != 0 || data.len() == 0,
    ensures
        stuffed(data, marker).len() == data.len() + 2 + data.len() as int / 254,
    decreases data.len(),
{
    let run = run_len(data, marker);
    lemma_run_len_is(data, marker, data.len() as int);
    lemma_stuffed_len(data, marker);
    if data.len() >= 255 {
        assert forall|k: int| 0 <= k < data.skip(254).len() implies data.skip(254)[k]
            != marker by {
            assert(data[254 + k] != marker);
        }
        lemma_mod_sub_multiples_vanish(data.len() as int, 254);
        assert((data.len() - 254) % 254 == data.len() % 254);
        lemma_overhead_exact(data.skip(254), marker);
        lemma_div_plus_one(data.len() - 254, 254);
        assert(1 + (data.len() - 254) / 254 == (254 + (data.len() - 254)) / 254);
    } else {
        assert(data.len() < 254);
        lemma_basic_div(data.len() as int, 254);
    }
}

/// A buffer with no marker anywhere in it never decodes: the walk runs off
/// the end of the input and the terminator is reported missing.
proof fn lemma_walk_no_marker(
    enc: Seq<u8>,
    marker: u8,
    i: int,
    until: u8,
    pending_break: bool,
    acc: Seq<u8>,
)
    requires
        forall|p: int| i <= p < enc.len() ==> enc[p] != marker,
    ensures
        walk(enc, marker, i, until, pending_break, acc) is None,
    decreases enc.len() - i,
{
    if 0 <= i < enc.len() {
        assert(enc[i] != marker);
        if until == 0 {
            lemma_walk_no_marker(
                enc,
                marker,
                i + 1,
                next_count(enc[i]),
                enc[i] == 0xff,
                if pending_break {
                    acc
                } else {
                    acc.push(marker)
                },
            );
        } else {
            lemma_walk_no_marker(enc, marker, i + 1, (until - 1) as u8, pending_break, acc.push(
                enc[i],
            ));
        }
    }
}

/// Missing terminator: decoding any buffer that holds no marker at all
/// fails; it is never passed off as a truncated success.
pub proof fn lemma_missing_terminator(enc: Seq<u8>, marker: u8)
    requires
        forall|k: int| 0 <= k < enc.len() ==> enc[k] != marker,
    ensures
        !unstuff_ok(enc, marker),
{
    if enc.len() > 0 {
        lemma_walk_no_marker(enc, marker, 1, next_count(enc[0]), enc[0] == 0xff, Seq::empty());
    }
}

} // verus!
