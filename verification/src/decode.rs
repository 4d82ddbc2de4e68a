//! The decoder: [`unstuff`] and its error type.

use crate::frame::{unstuff_ok, unstuffed, unstuffed_data, unstuffed_end, walk};
use vstd::prelude::*;

verus! {

/// Why decoding failed.
#[derive(Clone, Copy, Debug, PartialEq, Eq, Structural)]
pub enum UnstuffError {
    /// The input ran out before any terminating marker byte was met.
    MissingTerminator,
}

/// COBS-decode `buff` into a buffer of `output_len` bytes.
///
/// The first input byte is read as the initial distance; decoding then walks
/// the input and stops, successfully, at the first byte equal to `marker`.
/// On success the recovered payload fills the front of a zero-filled buffer
/// of `output_len` bytes, returned together with the number of input bytes
/// consumed, terminator included. A buffer in which the walk meets no marker
/// is malformed and is reported as [`UnstuffError::MissingTerminator`],
/// never silently truncated.
///
/// `output_len` must have room for the recovered payload; for a frame the
/// encoder produced, two bytes fewer than the frame always suffice.
#[verifier::loop_isolation(false)]
pub fn unstuff(buff: &Vec<u8>, marker: u8, output_len: usize) -> (r: Result<
    (Vec<u8>, usize),
    UnstuffError,
>)
    requires
        unstuff_ok(buff@, marker) ==> unstuffed_data(buff@, marker).len() <= output_len,
    ensures
        r is Ok <==> unstuff_ok(buff@, marker),
        r matches Ok(p) ==> {
            &&& p.0.len() == output_len
            &&& p.0@.take(unstuffed_data(buff@, marker).len() as int) == unstuffed_data(
                buff@,
                marker,
            )
            &&& forall|q: int|
                unstuffed_data(buff@, marker).len() <= q < output_len ==> p.0@[q] == 0u8
            &&& p.1 == unstuffed_end(buff@, marker)
        },
        r is Err ==> r == Result::<(Vec<u8>, usize), UnstuffError>::Err(
            UnstuffError::MissingTerminator,
        ),
{
    if buff.len() == 0 {
        return Err(UnstuffError::MissingTerminator);
    }

    let first = buff[0];
    // Payload bytes left before the next distance byte; the first distance
    // byte is consumed right here.
    let mut until_next_marker: u8 = if first == 0 {
        255
    } else {
        first - 1
    };
    // Whether that coming distance byte stands for a forced break rather
    // than a removed marker.
    let mut next_is_overhead_byte: bool = first == 0xff;
    let mut output_buffer: Vec<u8> = Vec::new();

    let mut i: usize = 1;
    while i < buff.len()
        invariant
            1 <= i <= buff@.len(),
            walk(buff@, marker, i as int, until_next_marker, next_is_overhead_byte,
                output_buffer@) == unstuffed(buff@, marker),
        decreases buff@.len() - i,
    {
        let value = buff[i];

        if value == marker {
            // The terminator: everything recovered so far is the payload.
            proof {
                assert(unstuffed(buff@, marker) == Some((output_buffer@, i + 1 as int)));
            }
            let length = i + 1;
            let ghost data = unstuffed_data(buff@, marker);
            proof {
                assert(output_buffer@.take(data.len() as int) =~= output_buffer@);
            }
            while output_buffer.len() < output_len
                invariant
                    data.len() <= output_buffer.len() <= output_len,
                    output_buffer@.take(data.len() as int) == data,
                    forall|q: int|
                        data.len() <= q < output_buffer.len() ==> output_buffer@[q] == 0u8,
                decreases output_len - output_buffer.len(),
            {
                output_buffer.push(0u8);
            }
            return Ok((output_buffer, length));
        }

        if until_next_marker == 0 {
            // A distance byte: a removed marker unless a forced break was
            // announced.
            if next_is_overhead_byte {
            } else {
                output_buffer.push(marker);
            }
            until_next_marker = if value == 0 {
                255
            } else {
                value - 1
            };
            next_is_overhead_byte = value == 0xff;
        } else {
            output_buffer.push(value);
            until_next_marker = until_next_marker - 1;
        }

        i = i + 1;
    }

    // The walk ran off the end of the input: no terminator anywhere.
    Err(UnstuffError::MissingTerminator)
}

} // verus!
