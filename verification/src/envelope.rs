//! The transport envelope: a two-byte wire id and a four-byte payload
//! length, both little-endian, in front of the payload bytes.

use vstd::prelude::*;
use crate::err::Error;
use crate::wire::{le_bytes, read_fixed32, read_u16_le, spliced, write_u16_le};

verus! {

/// Bytes of an envelope header.
pub open spec fn envelope_bytes(wire_id: u16, payload_len: u32) -> Seq<u8> {
    le_bytes(wire_id as nat, 2) + le_bytes(payload_len as nat, 4)
}

/// Size of an envelope header.
pub const ENVELOPE_LEN: usize = 6;

/// Reads the envelope header at the front of `buf`: the wire id naming the
/// payload's message type, and the payload length.
pub fn parse_envelope(buf: &[u8]) -> (r: Result<(u16, u32), Error>)
    ensures
        match r {
            Ok((id, l)) => buf@.len() >= 6 && envelope_bytes(id, l) == buf@.subrange(0, 6),
            Err(e) => e == Error::TruncatedInput && buf@.len() < 6,
        },
{
    if buf.len() < 6 {
        return Err(Error::TruncatedInput);
    }
    let id = read_u16_le(buf, 0);
    let l = read_fixed32(buf, 2);
    proof {
        crate::wire::lemma_le_bytes_len(id as nat, 2);
        crate::wire::lemma_le_bytes_len(l as nat, 4);
        assert(envelope_bytes(id, l) =~= buf@.subrange(0, 6));
    }
    Ok((id, l))
}

/// Writes an envelope header at `pos`.
pub fn write_envelope(buf: &mut Vec<u8>, pos: usize, wire_id: u16, payload_len: u32) -> (end: usize)
    requires
        pos + 6 <= old(buf)@.len(),
    ensures
        end == pos + 6,
        final(buf)@ == spliced(old(buf)@, pos as int, envelope_bytes(wire_id, payload_len)),
{
    let mid = write_u16_le(buf, pos, wire_id);
    let end = crate::wire::write_fixed32(buf, mid, payload_len);
    proof {
        crate::wire::lemma_le_bytes_len(wire_id as nat, 2);
        crate::wire::lemma_le_bytes_len(payload_len as nat, 4);
        crate::wire::lemma_spliced_chain(
            old(buf)@,
            pos as int,
            le_bytes(wire_id as nat, 2),
            le_bytes(payload_len as nat, 4),
        );
    }
    end
}

} // verus!
