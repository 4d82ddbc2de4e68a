//! The encoder: [`stuff`] and the distance-byte tracker it leans on.

use crate::frame::{lemma_run_len_at_least, lemma_run_len_is, lemma_stuffed_len, stuffed};
use vstd::prelude::*;

verus! {

/// Tracks the most recently placed distance byte of the frame being built.
///
/// `index` is the output position of that byte, still unwritten: its value
/// becomes known only once the next special position is reached. `points_to`
/// is the output position at which a distance byte must be forced in even
/// without a marker, 255 positions past `index`, so that the distance to
/// write stays within a byte.
pub struct MarkerInfo {
    /// Output position of the pending distance byte.
    pub index: usize,
    /// Output position at which the next forced break lands.
    pub points_to: usize,
}

impl MarkerInfo {
    /// Patch the pending distance byte now that the next special position
    /// `new_index` is known, and move the tracker there.
    ///
    /// The distance written is `new_index - index`; it must fit in one byte,
    /// which every caller that forces a break after 254 payload bytes
    /// guarantees.
    pub fn adjust_accordingly(&mut self, out_buffer: &mut Vec<u8>, new_index: usize)
        requires
            old(self).index < new_index,
            new_index - old(self).index <= 255,
            old(self).index < old(out_buffer).len(),
            new_index + 255 <= usize::MAX,
        ensures
            final(self).index == new_index,
            final(self).points_to == new_index + 255,
            final(out_buffer)@ == old(out_buffer)@.update(
                old(self).index as int,
                (new_index - old(self).index) as u8,
            ),
    {
        let distance = new_index - self.index;
        out_buffer[self.index] = distance as u8;
        self.index = new_index;
        self.points_to = new_index + 255;
    }
}

/// COBS-encode `buff` into a buffer of `output_len` bytes.
///
/// The frame `stuffed(buff@, marker)` fills the front of the result; every
/// byte behind it keeps the marker value, so the terminator is simply the
/// first of the trailing fill. `output_len` must have room for the frame:
/// `buff.len() + 2 + buff.len() / 254` always suffices, by
/// [`crate::laws::lemma_overhead_bound`]. It must also sit at least 255
/// below `usize::MAX`, so that the tracker's look-ahead position fits.
#[verifier::loop_isolation(false)]
#[verifier::rlimit(100)]
pub fn stuff(buff: &Vec<u8>, marker: u8, output_len: usize) -> (out: Vec<u8>)
    requires
        stuffed(buff@, marker).len() <= output_len,
        output_len + 255 <= usize::MAX,
    ensures
        out.len() == output_len,
        out@.take(stuffed(buff@, marker).len() as int) == stuffed(buff@, marker),
        forall|p: int|
            stuffed(buff@, marker).len() <= p < output_len ==> out@[p] == marker,
{
    let ghost whole = stuffed(buff@, marker);
    let n = buff.len();

    let mut output_buffer: Vec<u8> = Vec::new();
    while output_buffer.len() < output_len
        invariant
            output_buffer.len() <= output_len,
            forall|p: int| 0 <= p < output_buffer.len() ==> output_buffer@[p] == marker,
        decreases output_len - output_buffer.len(),
    {
        output_buffer.push(marker);
    }

    proof {
        lemma_stuffed_len(buff@, marker);
        assert(buff@.skip(0) =~= buff@);
        assert(output_buffer@.take(0) + stuffed(buff@, marker) =~= stuffed(buff@, marker));
        assert(output_buffer@.subrange(1, 1) =~= buff@.subrange(0, 0));
    }

    // The pending leading distance byte sits at position 0.
    let mut last_marker = MarkerInfo { index: 0, points_to: 255 };
    // One distance byte, the leading one, is already accounted for.
    let mut overhead_bytes: usize = 1;
    // Input position where the run behind the pending distance byte starts.
    let ghost mut j: int = 0;

    let mut i: usize = 0;
    while i < n
        invariant
            i <= n,
            0 <= j <= i,
            i - j <= 254,
            1 <= overhead_bytes,
            overhead_bytes + n + 1 <= output_len,
            last_marker.index as int == overhead_bytes + j - 1,
            last_marker.points_to == last_marker.index + 255,
            output_buffer.len() == output_len,
            whole == output_buffer@.take(last_marker.index as int)
                + stuffed(buff@.skip(j), marker),
            output_buffer@.subrange(last_marker.index as int + 1, overhead_bytes + i as int)
                == buff@.subrange(j, i as int),
            output_buffer@[last_marker.index as int] == marker,
            forall|p: int|
                overhead_bytes + i <= p < output_len ==> output_buffer@[p] == marker,
            forall|p: int| j <= p < i ==> buff@[p] != marker,
        decreases n - i,
    {
        let value = buff[i];

        if last_marker.points_to == overhead_bytes + i {
            // 254 marker-free bytes have elapsed: force a break here.
            let ghost before = output_buffer@;
            let ghost old_last = last_marker.index as int;
            proof {
                assert(i - j == 254);
                assert forall|k: int| 0 <= k < 254 implies buff@.skip(j)[k] != marker by {
                    assert(buff@[j + k] != marker);
                }
                lemma_run_len_at_least(buff@.skip(j), marker, 254);
                assert(buff@.skip(j).len() >= 255);
            }
            last_marker.adjust_accordingly(&mut output_buffer, overhead_bytes + i);
            overhead_bytes = overhead_bytes + 1;
            proof {
                let s = buff@.skip(j);
                assert(stuffed(s, marker) == seq![0xffu8] + s.take(254)
                    + stuffed(s.skip(254), marker));
                assert(s.take(254) =~= buff@.subrange(j, i as int));
                assert(s.skip(254) =~= buff@.skip(i as int));
                let new_last = old_last + 255;
                assert(new_last == overhead_bytes + i - 1);
                assert(output_buffer@.take(new_last) =~= before.take(old_last)
                    + seq![0xffu8] + buff@.subrange(j, i as int)) by {
                    assert forall|p: int| 0 <= p < new_last implies
                        output_buffer@.take(new_last)[p]
                            == (before.take(old_last) + seq![0xffu8]
                                + buff@.subrange(j, i as int))[p] by {
                        if p < old_last {
                        } else if p == old_last {
                        } else {
                            assert(before.subrange(old_last + 1, old_last + 255)[p - old_last
                                - 1] == buff@.subrange(j, i as int)[p - old_last - 1]);
                        }
                    }
                }
                assert(whole =~= output_buffer@.take(new_last)
                    + stuffed(buff@.skip(i as int), marker));
                j = i as int;
                assert(output_buffer@.subrange(new_last + 1, overhead_bytes + i as int)
                    =~= buff@.subrange(j, i as int));
                lemma_stuffed_len(buff@.skip(j), marker);
            }
        }

        if value == marker {
            // A true marker occurrence: close the run, drop the byte itself.
            let ghost before = output_buffer@;
            let ghost old_last = last_marker.index as int;
            proof {
                assert forall|k: int| 0 <= k < i - j implies buff@.skip(j)[k] != marker by {
                    assert(buff@[j + k] != marker);
                }
                assert(buff@.skip(j)[i - j] == marker);
                lemma_run_len_is(buff@.skip(j), marker, i - j);
            }
            last_marker.adjust_accordingly(&mut output_buffer, overhead_bytes + i);
            proof {
                let s = buff@.skip(j);
                let run = i - j;
                assert(stuffed(s, marker) == seq![(run + 1) as u8] + s.take(run)
                    + stuffed(s.skip(run + 1), marker));
                assert(s.take(run) =~= buff@.subrange(j, i as int));
                assert(s.skip(run + 1) =~= buff@.skip(i + 1));
                let new_last = overhead_bytes + i as int;
                assert(output_buffer@.take(new_last) =~= before.take(old_last)
                    + seq![(run + 1) as u8] + buff@.subrange(j, i as int)) by {
                    assert forall|p: int| 0 <= p < new_last implies
                        output_buffer@.take(new_last)[p]
                            == (before.take(old_last) + seq![(run + 1) as u8]
                                + buff@.subrange(j, i as int))[p] by {
                        if p < old_last {
                        } else if p == old_last {
                        } else {
                            assert(before.subrange(old_last + 1, new_last)[p - old_last - 1]
                                == buff@.subrange(j, i as int)[p - old_last - 1]);
                        }
                    }
                }
                assert(whole =~= output_buffer@.take(new_last)
                    + stuffed(buff@.skip(i + 1), marker));
                j = i as int + 1;
                assert(output_buffer@.subrange(new_last + 1, overhead_bytes + i + 1)
                    =~= buff@.subrange(j, i + 1));
            }
        } else {
            let ghost before = output_buffer@;
            output_buffer[overhead_bytes + i] = value;
            proof {
                let last = last_marker.index as int;
                assert(output_buffer@.take(last) =~= before.take(last));
                assert(output_buffer@.subrange(last + 1, overhead_bytes + i + 1)
                    =~= buff@.subrange(j, i + 1)) by {
                    assert forall|p: int| last + 1 <= p < overhead_bytes + i + 1 implies
                        output_buffer@[p] == buff@[j + p - last - 1] by {
                        if p < overhead_bytes + i {
                            assert(before.subrange(last + 1, overhead_bytes + i as int)[p
                                - last - 1] == buff@.subrange(j, i as int)[p - last - 1]);
                        }
                    }
                }
            }
        }

        i = i + 1;
    }

    // Close the final run against the terminator, which the fill already
    // placed.
    proof {
        assert forall|k: int| 0 <= k < n - j implies buff@.skip(j)[k] != marker by {
            assert(buff@[j + k] != marker);
        }
        lemma_run_len_is(buff@.skip(j), marker, n - j);
    }
    let distance = n + overhead_bytes - last_marker.index;
    let ghost before = output_buffer@;
    let ghost old_last = last_marker.index as int;
    output_buffer[last_marker.index] = distance as u8;
    proof {
        let s = buff@.skip(j);
        let run = n - j;
        assert(stuffed(s, marker) == seq![(run + 1) as u8] + s + seq![marker]);
        assert(whole.len() == old_last + run + 2);
        assert(output_buffer@.take(whole.len() as int) =~= whole) by {
            assert forall|p: int| 0 <= p < whole.len() implies
                output_buffer@[p] == whole[p] by {
                if p < old_last {
                    assert(whole[p] == before.take(old_last)[p]);
                } else if p == old_last {
                } else if p < old_last + 1 + run {
                    assert(before.subrange(old_last + 1, overhead_bytes + n as int)[p
                        - old_last - 1] == buff@.subrange(j, n as int)[p - old_last - 1]);
                    assert(whole[p] == s[p - old_last - 1]);
                } else {
                    assert(whole[p] == marker);
                    assert(before[p] == marker);
                }
            }
        }
        assert forall|p: int| whole.len() <= p < output_len implies
            output_buffer@[p] == marker by {
            assert(before[p] == marker);
        }
    }
    output_buffer
}

} // verus!
