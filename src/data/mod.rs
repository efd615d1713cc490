pub mod packets;

use vstd::prelude::*;
use vstd::bytes::*;

use crate::error::{Context, Error, ErrorKind};
use crate::guid::{guid, guid_to_wire, tag, Guid, DATA_OBJECT};
use crate::object::{frame_size, tag_error_kind, tagged_frame_ok};
use crate::span::{lemma_splits_chain, splits, Span};
use crate::wire::{read_u16, read_u64, take_u64};
use self::packets::{error_correction_bytes, packet_encodes, DataPacket, ErrorCorrectionData, PayloadParsingData};

verus! {

/// The data object: the file id, the packet count, and the packets, each
/// `(size - 50) / total_data_packets` bytes long; together they fill the
/// object, which is empty when it counts no packets.
#[derive(Debug, PartialEq, Eq)]
pub struct DataObject<'a> {
    pub file_id: Guid,
    pub total_data_packets: u64,
    pub reserved: u16,
    pub packets: Vec<DataPacket<'a>>,
}

/// The bytes all the packets take, one after the other.
pub open spec fn packets_len(ps: Seq<DataPacket>) -> nat
    decreases ps.len(),
{
    if ps.len() == 0 {
        0
    } else {
        packets_len(ps.drop_last()) + ps.last().wire_len()
    }
}

/// The parts of one packet: error-correction block, payload parsing
/// information, raw payload and padding.
pub type PacketParts = (Option<ErrorCorrectionData>, PayloadParsingData, Seq<u8>, Seq<u8>);

pub open spec fn packet_parts_bytes(w: PacketParts) -> Seq<u8> {
    error_correction_bytes(w.0) + w.1.spec_bytes() + w.2 + w.3
}

/// The packets of `ws` from index `i` on.
pub open spec fn packets_from(ws: Seq<PacketParts>, i: int) -> Seq<u8>
    decreases ws.len() - i,
{
    if i < 0 || i >= ws.len() {
        Seq::empty()
    } else {
        packet_parts_bytes(ws[i]) + packets_from(ws, i + 1)
    }
}

/// The packet count field of a data object.
pub open spec fn packet_count_field(b: Seq<u8>) -> u64 {
    spec_u64_from_le_bytes(b.subrange(40, 48))
}

/// `b` starts with a whole data object whose packets are `ws`: each takes
/// `(size - 50) / count` bytes and decodes as a packet.
pub open spec fn data_object_encodes(b: Seq<u8>, ws: Seq<PacketParts>) -> bool {
    &&& tagged_frame_ok(b, DATA_OBJECT, 50)
    &&& packet_count_field(b) == 0 ==> frame_size(b) == 50
    &&& packet_count_field(b) > 0 ==> {
        let n = packet_count_field(b);
        let fixed = ((frame_size(b) - 50) / n as int) as u64;
        &&& ws.len() == n
        &&& b.subrange(50, frame_size(b)) == packets_from(ws, 0)
        &&& forall|i: int| 0 <= i < ws.len() ==> packet_encodes(packets_from(ws, i), fixed,
            (#[trigger] ws[i]).0, ws[i].1, ws[i].2, ws[i].3, packets_from(ws, i + 1))
        &&& forall|i: int| 0 <= i < ws.len() ==> packet_parts_bytes(#[trigger] ws[i]).len() == fixed
    }
}

impl<'a> DataObject<'a> {
    /// What a successful decode of `input` into this object guarantees, where
    /// the object's declared size is `size`.
    pub open spec fn decoded_from(&self, input: Span, size: nat, rest: Span) -> bool {
        &&& 50 <= size
        &&& splits(input, input.bytes().take(size as int), rest)
        &&& input.bytes().take(16) == guid_to_wire(DATA_OBJECT)
        &&& input.bytes().subrange(16, 24) == spec_u64_to_le_bytes(size as u64)
        &&& input.bytes().subrange(24, 50) == guid_to_wire(self.file_id.0)
            + spec_u64_to_le_bytes(self.total_data_packets) + spec_u16_to_le_bytes(self.reserved)
        &&& self.packets@.len() == self.total_data_packets
        &&& packets_len(self.packets@) <= size - 50
        &&& self.total_data_packets == 0 ==> size == 50
        &&& self.total_data_packets > 0 ==> {
            &&& packets_len(self.packets@) == size - 50
            &&& self.total_data_packets * ((size - 50) as int / self.total_data_packets as int) == size - 50
            &&& forall|i: int| 0 <= i < self.packets@.len() ==> (#[trigger] self.packets@[i]).wire_len()
                == (size - 50) as int / self.total_data_packets as int
        }
    }

    pub fn parse(input: Span<'a>) -> (r: Result<(Span<'a>, DataObject<'a>), Error>)
        ensures
            r matches Ok((rest, d)) ==> d.decoded_from(input, (input.bytes().len() - rest.bytes().len()) as nat, rest),
            r matches Err(e) ==> e.kind == tag_error_kind(input.bytes(), DATA_OBJECT),
            forall|ws: Seq<PacketParts>| #[trigger] data_object_encodes(input.bytes(), ws) ==> r is Ok,
            r matches Ok((rest, d)) ==> rest.bytes() == input.bytes().skip(frame_size(input.bytes())),
    {
        match Self::parse_fields(input) {
            Ok(x) => Ok(x),
            Err(e) => Err(e.add_context(Context::DataObject)),
        }
    }

    fn parse_fields(input: Span<'a>) -> (r: Result<(Span<'a>, DataObject<'a>), Error>)
        ensures
            r matches Ok((rest, d)) ==> d.decoded_from(input, (input.bytes().len() - rest.bytes().len()) as nat, rest),
            r matches Err(e) ==> e.kind == tag_error_kind(input.bytes(), DATA_OBJECT),
            forall|ws: Seq<PacketParts>| #[trigger] data_object_encodes(input.bytes(), ws) ==> r is Ok,
            r matches Ok((rest, d)) ==> rest.bytes() == input.bytes().skip(frame_size(input.bytes())),
    {
        proof {
            crate::wire::lemma_int_bytes_len();
            crate::guid::lemma_guid_value_round_trip(DATA_OBJECT);
        }
        let i1 = tag(input, Guid(DATA_OBJECT))?;
        let (i2, size) = read_u64(i1)?;
        let (i3, file_id) = guid(i2)?;
        proof {
            crate::guid::lemma_guid_value_round_trip(file_id.0);
        }
        let (i4, total_data_packets) = read_u64(i3)?;
        let (i5, reserved) = read_u16(i4)?;
        proof {
            crate::wire::lemma_int_bytes_len();
            crate::guid::lemma_guid_value_round_trip(DATA_OBJECT);
            crate::guid::lemma_guid_value_round_trip(file_id.0);
            vstd::bytes::lemma_auto_spec_u64_to_from_le_bytes();
            lemma_splits_chain(input, guid_to_wire(DATA_OBJECT), i1, spec_u64_to_le_bytes(size), i2);
            lemma_splits_chain(input, guid_to_wire(DATA_OBJECT) + spec_u64_to_le_bytes(size), i2, guid_to_wire(file_id.0), i3);
            lemma_splits_chain(input, guid_to_wire(DATA_OBJECT) + spec_u64_to_le_bytes(size) + guid_to_wire(file_id.0), i3,
                spec_u64_to_le_bytes(total_data_packets), i4);
            assert(input.bytes().subrange(16, 24) =~= spec_u64_to_le_bytes(size));
            assert(input.bytes().subrange(40, 48) =~= spec_u64_to_le_bytes(total_data_packets));
            assert(frame_size(input.bytes()) == size);
            assert(packet_count_field(input.bytes()) == total_data_packets);
        }
        if size < 50 {
            return Err(Error::new(ErrorKind::Eof, i1.location_offset()));
        }
        let total_packet_len = size - 50;
        let (rest, data) = take_u64(i5, total_packet_len)?;
        let ghost h0 = guid_to_wire(DATA_OBJECT);
        let ghost h1 = h0 + spec_u64_to_le_bytes(size);
        let ghost fields = guid_to_wire(file_id.0) + spec_u64_to_le_bytes(total_data_packets) + spec_u16_to_le_bytes(reserved);
        proof {
            crate::wire::lemma_int_bytes_len();
            crate::guid::lemma_guid_value_round_trip(DATA_OBJECT);
            crate::guid::lemma_guid_value_round_trip(file_id.0);
            lemma_splits_chain(input, h0, i1, spec_u64_to_le_bytes(size), i2);
            lemma_splits_chain(input, h1, i2, guid_to_wire(file_id.0), i3);
            lemma_splits_chain(input, h1 + guid_to_wire(file_id.0), i3, spec_u64_to_le_bytes(total_data_packets), i4);
            lemma_splits_chain(input, h1 + guid_to_wire(file_id.0) + spec_u64_to_le_bytes(total_data_packets), i4,
                spec_u16_to_le_bytes(reserved), i5);
            lemma_splits_chain(input, h1 + guid_to_wire(file_id.0) + spec_u64_to_le_bytes(total_data_packets)
                + spec_u16_to_le_bytes(reserved), i5, data.bytes(), rest);
            assert(input.bytes().take(16) =~= h0);
            assert(input.bytes().subrange(16, 24) =~= spec_u64_to_le_bytes(size));
            assert(input.bytes().subrange(24, 50) =~= fields);
            assert(input.bytes().take(size as int) =~= h1 + guid_to_wire(file_id.0) + spec_u64_to_le_bytes(total_data_packets)
                + spec_u16_to_le_bytes(reserved) + data.bytes());
            assert(data.bytes() =~= input.bytes().subrange(50, size as int));
            assert(rest.bytes() =~= input.bytes().skip(size as int));
        }
        let mut packets: Vec<DataPacket<'a>> = Vec::new();
        if total_data_packets == 0 && total_packet_len != 0 {
            return Err(Error::new(ErrorKind::Eof, data.location_offset()));
        }
        if total_data_packets > 0 {
            let fixed_packet_len = total_packet_len / total_data_packets;
            let mut cur = data;
            proof {
                assert forall|ws: Seq<PacketParts>| #[trigger] data_object_encodes(input.bytes(), ws)
                    implies cur.bytes() == packets_from(ws, 0) by {}
            }
            let mut i: u64 = 0;
            while i < total_data_packets
                invariant
                    i <= total_data_packets,
                    16 <= input.bytes().len(),
                    input.bytes().take(16) == guid_to_wire(DATA_OBJECT),
                    packets@.len() == i,
                    cur.bytes().len() + packets_len(packets@) == data.bytes().len(),
                    packets_len(packets@) == i * fixed_packet_len,
                    forall|j: int| 0 <= j < packets@.len() ==> (#[trigger] packets@[j]).wire_len() == fixed_packet_len,
                    total_data_packets == packet_count_field(input.bytes()),
                    fixed_packet_len == ((frame_size(input.bytes()) - 50) / total_data_packets as int) as u64,
                    forall|ws: Seq<PacketParts>| #[trigger] data_object_encodes(input.bytes(), ws)
                        ==> cur.bytes() == packets_from(ws, i as int),
                decreases total_data_packets - i,
            {
                let ghost before = cur;
                let (next, pkt) = match DataPacket::parser(cur, fixed_packet_len) {
                    Ok(x) => x,
                    Err(e) => {
                        proof {
                            assert forall|ws: Seq<PacketParts>| #[trigger] data_object_encodes(input.bytes(), ws) implies false by {
                                let w = ws[i as int];
                                assert(packet_encodes(before.bytes(), fixed_packet_len, w.0, w.1, w.2, w.3, packets_from(ws, i + 1)));
                            }
                        }
                        return Err(e);
                    },
                };
                proof {
                    assert forall|ws: Seq<PacketParts>| #[trigger] data_object_encodes(input.bytes(), ws)
                        implies next.bytes() == packets_from(ws, i + 1)
                            && before.bytes().len() - next.bytes().len() == fixed_packet_len by {
                        let w = ws[i as int];
                        assert(packet_encodes(before.bytes(), fixed_packet_len, w.0, w.1, w.2, w.3, packets_from(ws, i + 1)));
                    }
                }
                if (cur.len() - next.len()) as u64 != fixed_packet_len {
                    return Err(Error::new(ErrorKind::Eof, cur.location_offset()));
                }
                proof {
                    assert(packets@.push(pkt).drop_last() =~= packets@);
                    assert(cur.bytes().len() == pkt.wire_len() + next.bytes().len());
                    assert((i + 1) * fixed_packet_len == i * fixed_packet_len + fixed_packet_len) by (nonlinear_arith);
                }
                packets.push(pkt);
                proof {
                    assert(cur.bytes().len() == pkt.wire_len() + next.bytes().len());
                }
                cur = next;
                i = i + 1;
            }
            if !cur.is_empty() {
                proof {
                    assert forall|ws: Seq<PacketParts>| #[trigger] data_object_encodes(input.bytes(), ws) implies false by {
                        assert(packets_from(ws, i as int).len() == 0);
                    }
                }
                return Err(Error::new(ErrorKind::Eof, cur.location_offset()));
            }
            proof {
                let t = total_data_packets as int;
                let q = total_packet_len as int / t;
                assert(t * q == q * t) by (nonlinear_arith);
            }
        }
        let d = DataObject { file_id, total_data_packets, reserved, packets };
        Ok((rest, d))
    }
}

} // verus!
