//! What a packet looks like on the wire.
//!
//! A packet is a header of 20 bytes, a linked list of extensions, and data that reaches to
//! the end of the datagram. [`encode`] gives the bytes of a packet, [`decode`] the packet in
//! given bytes, and the laws at the end say that each undoes the other.

use crate::buffer::{
    be16, be32, lemma_be16_read16, lemma_be32_read32, lemma_read16_slice, lemma_read32_slice,
    read16, read32,
};
use crate::error::PacketParseError;
use crate::packet::{ExtensionType, PacketType};
use vstd::prelude::*;

verus! {

/// The number of bytes in a packet header.
pub const PACKET_HEADER_LEN: usize = 20;

/// An extension, with its data as a sequence.
pub struct ExtensionView {
    pub extension_type: ExtensionType,
    pub data: Seq<u8>,
}

/// A packet, with its extensions and its data as sequences.
pub struct PacketView {
    pub packet_type: PacketType,
    pub version: u8,
    pub connection_id: u16,
    pub timestamp_micros: u32,
    pub timestamp_delta_micros: u32,
    pub window_size: u32,
    pub seq_number: u16,
    pub ack_number: u16,
    pub extensions: Seq<ExtensionView>,
    pub data: Seq<u8>,
}

/// The four bits that stand for a packet type.
pub open spec fn packet_type_bits(t: PacketType) -> u8 {
    match t {
        PacketType::Data => 0,
        PacketType::Fin => 1,
        PacketType::State => 2,
        PacketType::Reset => 3,
        PacketType::Syn => 4,
    }
}

/// The packet type with the given bits, and the error where there is none.
pub open spec fn packet_type_of(bits: u8) -> Result<PacketType, PacketParseError> {
    if bits == 0 {
        Ok(PacketType::Data)
    } else if bits == 1 {
        Ok(PacketType::Fin)
    } else if bits == 2 {
        Ok(PacketType::State)
    } else if bits == 3 {
        Ok(PacketType::Reset)
    } else if bits == 4 {
        Ok(PacketType::Syn)
    } else {
        Err(PacketParseError::InvalidPacketType(bits))
    }
}

/// The byte that stands for an extension type.
pub open spec fn extension_type_byte(t: ExtensionType) -> u8 {
    match t {
        ExtensionType::NoExtension => 0,
        ExtensionType::SelectiveAck => 1,
        ExtensionType::Bitfield => 2,
        ExtensionType::CloseReason => 3,
        ExtensionType::Unknown(n) => n,
    }
}

/// The extension type with the given byte.
pub open spec fn extension_type_of(byte: u8) -> ExtensionType {
    if byte == 0 {
        ExtensionType::NoExtension
    } else if byte == 1 {
        ExtensionType::SelectiveAck
    } else if byte == 2 {
        ExtensionType::Bitfield
    } else if byte == 3 {
        ExtensionType::CloseReason
    } else {
        ExtensionType::Unknown(byte)
    }
}

/// The byte that announces a list of extensions: the type of the first, or zero.
pub open spec fn leading_type(extensions: Seq<ExtensionView>) -> u8 {
    if extensions.len() == 0 {
        0
    } else {
        extension_type_byte(extensions[0].extension_type)
    }
}

/// The bytes of a list of extensions. Each extension is the byte that announces the rest of
/// the list, the length of its data modulo 256, and its data.
pub open spec fn encode_extensions(extensions: Seq<ExtensionView>) -> Seq<u8>
    decreases extensions.len(),
{
    if extensions.len() == 0 {
        Seq::empty()
    } else {
        seq![leading_type(extensions.skip(1)), (extensions[0].data.len() % 0x100) as u8]
            + extensions[0].data + encode_extensions(extensions.skip(1))
    }
}

/// The bytes of a packet header.
pub open spec fn encode_header(p: PacketView) -> Seq<u8> {
    seq![packet_type_bits(p.packet_type) << 4 | p.version, leading_type(p.extensions)] + be16(
        p.connection_id,
    ) + be32(p.timestamp_micros) + be32(p.timestamp_delta_micros) + be32(p.window_size) + be16(
        p.seq_number,
    ) + be16(p.ack_number)
}

/// The bytes of a packet.
pub open spec fn encode(p: PacketView) -> Seq<u8> {
    encode_header(p) + encode_extensions(p.extensions) + p.data
}

/// The list of extensions at the front of `rest`, and what follows it. `announced` is the
/// byte that announces the list, and `index` the number of extensions before it.
pub open spec fn decode_extensions(announced: u8, rest: Seq<u8>, index: nat) -> Result<
    (Seq<ExtensionView>, Seq<u8>),
    PacketParseError,
>
    decreases rest.len(),
{
    if announced == 0 {
        Ok((Seq::empty(), rest))
    } else if rest.len() < 2 {
        Err(PacketParseError::MissingExtension(index as usize))
    } else if rest[1] > rest.len() - 2 {
        Err(
            PacketParseError::IncompleteExtension {
                index: index as usize,
                length: rest[1] as usize,
                remaining: (rest.len() - 2) as usize,
            },
        )
    } else {
        prepend(
            seq![
                ExtensionView {
                    extension_type: extension_type_of(announced),
                    data: rest.subrange(2, 2 + rest[1]),
                },
            ],
            decode_extensions(rest[0], rest.skip(2 + rest[1]), index + 1),
        )
    }
}

/// What decoding gives when `front` was decoded before.
pub open spec fn prepend(
    front: Seq<ExtensionView>,
    rest: Result<(Seq<ExtensionView>, Seq<u8>), PacketParseError>,
) -> Result<(Seq<ExtensionView>, Seq<u8>), PacketParseError> {
    match rest {
        Ok((extensions, data)) => Ok((front + extensions, data)),
        Err(error) => Err(error),
    }
}

/// The packet in the bytes of a datagram, or what is wrong with them. The faults are looked
/// for in this order: length, type, version, extensions.
pub open spec fn decode(bytes: Seq<u8>) -> Result<PacketView, PacketParseError> {
    if bytes.len() < PACKET_HEADER_LEN {
        Err(PacketParseError::TooSmall)
    } else {
        match packet_type_of(bytes[0] / 0x10) {
            Err(error) => Err(error),
            Ok(packet_type) => if bytes[0] % 0x10 != 1 {
                Err(PacketParseError::UnsupportedVersion(bytes[0] % 0x10))
            } else {
                match decode_extensions(bytes[1], bytes.skip(PACKET_HEADER_LEN as int), 0) {
                    Err(error) => Err(error),
                    Ok((extensions, data)) => Ok(
                        PacketView {
                            packet_type,
                            version: 1,
                            connection_id: read16(bytes, 2) as u16,
                            timestamp_micros: read32(bytes, 4) as u32,
                            timestamp_delta_micros: read32(bytes, 8) as u32,
                            window_size: read32(bytes, 12) as u32,
                            seq_number: read16(bytes, 16) as u16,
                            ack_number: read16(bytes, 18) as u16,
                            extensions,
                            data,
                        },
                    ),
                }
            },
        }
    }
}

/// Whether an extension can be told from its bytes: its type is one that a byte other than
/// zero stands for, and its length fits the length byte.
pub open spec fn extension_representable(e: ExtensionView) -> bool {
    &&& extension_type_byte(e.extension_type) != 0
    &&& extension_type_of(extension_type_byte(e.extension_type)) == e.extension_type
    &&& e.data.len() <= 0xff
}

/// Whether a packet can be told from its bytes.
pub open spec fn representable(p: PacketView) -> bool {
    &&& p.version == 1
    &&& forall|i: int|
        0 <= i < p.extensions.len() ==> extension_representable(#[trigger] p.extensions[i])
}

/// A header has its length, whatever the packet.
pub proof fn lemma_encode_header_len(p: PacketView)
    ensures
        encode_header(p).len() == PACKET_HEADER_LEN,
        encode(p).len() == PACKET_HEADER_LEN + encode_extensions(p.extensions).len() + p.data.len(),
{
}

/// The length of a list of extensions in terms of its first.
pub proof fn lemma_encode_extensions_len(extensions: Seq<ExtensionView>)
    requires
        extensions.len() > 0,
    ensures
        encode_extensions(extensions).len() == 2 + extensions[0].data.len() + encode_extensions(
            extensions.skip(1),
        ).len(),
{
}

/// A part of a list at its end is no longer than the list.
pub proof fn lemma_encode_extensions_suffix(extensions: Seq<ExtensionView>, from: int)
    requires
        0 <= from <= extensions.len(),
    ensures
        encode_extensions(extensions.skip(from)).len() <= encode_extensions(extensions).len(),
    decreases from,
{
    if from == 0 {
        assert(extensions.skip(0) =~= extensions);
    } else {
        lemma_encode_extensions_suffix(extensions.skip(1), from - 1);
        assert(extensions.skip(1).skip(from - 1) =~= extensions.skip(from));
    }
}

/// Nothing put in front changes nothing.
pub proof fn lemma_prepend_nothing(
    rest: Result<(Seq<ExtensionView>, Seq<u8>), PacketParseError>,
)
    ensures
        prepend(Seq::empty(), rest) == rest,
{
    if let Ok((extensions, _)) = rest {
        assert(Seq::<ExtensionView>::empty() + extensions =~= extensions);
    }
}

/// Two lists put in front one after the other are their concatenation put in front.
pub proof fn lemma_prepend_twice(
    first: Seq<ExtensionView>,
    second: Seq<ExtensionView>,
    rest: Result<(Seq<ExtensionView>, Seq<u8>), PacketParseError>,
)
    ensures
        prepend(first, prepend(second, rest)) == prepend(first + second, rest),
{
    if let Ok((extensions, _)) = rest {
        assert(first + (second + extensions) =~= first + second + extensions);
    }
}

/// Decoding a list of extensions gives back the list that was encoded, and what follows it.
pub proof fn law_extensions_decode_encode(
    extensions: Seq<ExtensionView>,
    data: Seq<u8>,
    index: nat,
)
    requires
        forall|i: int|
            0 <= i < extensions.len() ==> extension_representable(#[trigger] extensions[i]),
    ensures
        decode_extensions(leading_type(extensions), encode_extensions(extensions) + data, index)
            == Ok::<_, PacketParseError>((extensions, data)),
    decreases extensions.len(),
{
    let bytes = encode_extensions(extensions) + data;
    if extensions.len() == 0 {
        assert(bytes =~= data);
        assert(extensions =~= Seq::empty());
    } else {
        let tail = extensions.skip(1);
        let length = extensions[0].data.len() as int;
        assert forall|i: int| 0 <= i < tail.len() implies extension_representable(
            #[trigger] tail[i],
        ) by {
            assert(tail[i] == extensions[i + 1]);
        }
        law_extensions_decode_encode(tail, data, index + 1);
        assert(extension_representable(extensions[0]));
        assert(bytes.subrange(2, 2 + length) =~= extensions[0].data);
        assert(bytes.skip(2 + length) =~= encode_extensions(tail) + data);
        assert(seq![extensions[0]] + tail =~= extensions);
    }
}

/// Encoding what was decoded gives back the bytes of a list of extensions and what follows it.
pub proof fn law_extensions_encode_decode(announced: u8, rest: Seq<u8>, index: nat)
    requires
        decode_extensions(announced, rest, index) is Ok,
    ensures
        ({
            let (extensions, data) = decode_extensions(announced, rest, index)->Ok_0;
            &&& leading_type(extensions) == announced
            &&& encode_extensions(extensions) + data == rest
            &&& forall|i: int|
                0 <= i < extensions.len() ==> extension_representable(#[trigger] extensions[i])
        }),
    decreases rest.len(),
{
    let (extensions, data) = decode_extensions(announced, rest, index)->Ok_0;
    if announced == 0 {
        assert(encode_extensions(extensions) + data =~= rest);
    } else {
        let next = rest.skip(2 + rest[1]);
        law_extensions_encode_decode(rest[0], next, index + 1);
        let (tail, _) = decode_extensions(rest[0], next, index + 1)->Ok_0;
        assert(extensions.skip(1) =~= tail);
        let head = seq![rest[0], rest[1]];
        let first = rest.subrange(2, 2 + rest[1]);
        assert(extensions[0].data == first);
        assert(encode_extensions(extensions) == head + first + encode_extensions(tail));
        assert(encode_extensions(extensions) + data =~= head + first + next);
        assert(head + first + next =~= rest);
        assert forall|i: int| 0 <= i < extensions.len() implies extension_representable(
            #[trigger] extensions[i],
        ) by {
            if i > 0 {
                assert(extensions[i] == tail[i - 1]);
            }
        }
    }
}

/// What the fields of a header are read from.
proof fn lemma_header_fields(p: PacketView)
    ensures
        ({
            let header = encode_header(p);
            &&& header[0] == packet_type_bits(p.packet_type) << 4 | p.version
            &&& header[1] == leading_type(p.extensions)
            &&& read16(header, 2) == p.connection_id
            &&& read32(header, 4) == p.timestamp_micros
            &&& read32(header, 8) == p.timestamp_delta_micros
            &&& read32(header, 12) == p.window_size
            &&& read16(header, 16) == p.seq_number
            &&& read16(header, 18) == p.ack_number
        }),
{
    let header = encode_header(p);
    assert(header.subrange(2, 4) =~= be16(p.connection_id));
    assert(header.subrange(4, 8) =~= be32(p.timestamp_micros));
    assert(header.subrange(8, 12) =~= be32(p.timestamp_delta_micros));
    assert(header.subrange(12, 16) =~= be32(p.window_size));
    assert(header.subrange(16, 18) =~= be16(p.seq_number));
    assert(header.subrange(18, 20) =~= be16(p.ack_number));
    lemma_read16_slice(header, 2, p.connection_id);
    lemma_read32_slice(header, 4, p.timestamp_micros);
    lemma_read32_slice(header, 8, p.timestamp_delta_micros);
    lemma_read32_slice(header, 12, p.window_size);
    lemma_read16_slice(header, 16, p.seq_number);
    lemma_read16_slice(header, 18, p.ack_number);
}

/// What is decoded from the bytes of a packet is the packet, where it can be told from them.
pub proof fn law_decode_encode(p: PacketView)
    requires
        representable(p),
    ensures
        decode(encode(p)) == Ok::<_, PacketParseError>(p),
{
    let bytes = encode(p);
    let bits = packet_type_bits(p.packet_type);
    assert(bits <= 4 ==> (bits << 4 | 1u8) / 0x10 == bits && (bits << 4 | 1u8) % 0x10 == 1)
        by (bit_vector);
    lemma_header_fields(p);
    lemma_encode_header_len(p);
    let header = encode_header(p);
    assert(forall|i: int| 0 <= i < PACKET_HEADER_LEN ==> #[trigger] bytes[i] == header[i]);
    assert(bytes.skip(PACKET_HEADER_LEN as int) =~= encode_extensions(p.extensions) + p.data);
    law_extensions_decode_encode(p.extensions, p.data, 0);
}

/// The bytes of a decoded packet are the bytes that it was decoded from. With
/// [`law_decode_encode`] this says that bytes are accepted exactly where they are the bytes of
/// a packet that can be told from them, and which packet is found there.
pub proof fn law_encode_decode(bytes: Seq<u8>)
    requires
        decode(bytes) is Ok,
    ensures
        encode(decode(bytes)->Ok_0) == bytes,
        representable(decode(bytes)->Ok_0),
{
    let p = decode(bytes)->Ok_0;
    let rest = bytes.skip(PACKET_HEADER_LEN as int);
    law_extensions_encode_decode(bytes[1], rest, 0);
    let first = bytes[0];
    let bits = packet_type_bits(p.packet_type);
    assert(bits == first / 0x10 && first % 0x10 == 1 ==> bits << 4 | 1u8 == first) by (bit_vector);
    lemma_be16_read16(bytes, 2);
    lemma_be32_read32(bytes, 4);
    lemma_be32_read32(bytes, 8);
    lemma_be32_read32(bytes, 12);
    lemma_be16_read16(bytes, 16);
    lemma_be16_read16(bytes, 18);
    assert(encode_header(p) =~= seq![bytes[0], bytes[1]] + bytes.subrange(2, 4) + bytes.subrange(
        4,
        8,
    ) + bytes.subrange(8, 12) + bytes.subrange(12, 16) + bytes.subrange(16, 18) + bytes.subrange(
        18,
        20,
    ));
    assert(encode_header(p) =~= bytes.take(PACKET_HEADER_LEN as int));
    assert(encode(p) =~= bytes.take(PACKET_HEADER_LEN as int) + rest);
    assert(bytes.take(PACKET_HEADER_LEN as int) + rest =~= bytes);
}

/// Two packets that can be told from their bytes have the same bytes only where they are the
/// same.
pub proof fn law_encode_injective(a: PacketView, b: PacketView)
    requires
        representable(a),
        representable(b),
        encode(a) == encode(b),
    ensures
        a == b,
{
    law_decode_encode(a);
    law_decode_encode(b);
}

/// Where the extension with the given index starts in the bytes of a packet, and for the number
/// of extensions, where the data does.
pub open spec fn extension_start(extensions: Seq<ExtensionView>, index: int) -> int
    decreases index,
{
    if index <= 0 {
        20
    } else {
        extension_start(extensions, index - 1) + 2 + extensions[index - 1].data.len()
    }
}

/// Every field of a packet has its place in the bytes of the packet, whatever its extensions and
/// its data are. Integers are big-endian.
pub proof fn law_header_layout(p: PacketView)
    ensures
        ({
            let b = encode(p);
            &&& b.len() >= 20
            &&& p.version < 16 ==> b[0] == 16 * (match p.packet_type {
                PacketType::Data => 0int,
                PacketType::Fin => 1,
                PacketType::State => 2,
                PacketType::Reset => 3,
                PacketType::Syn => 4,
            }) + p.version
            &&& b[1] == if p.extensions.len() == 0 {
                0
            } else {
                match p.extensions[0].extension_type {
                    ExtensionType::NoExtension => 0u8,
                    ExtensionType::SelectiveAck => 1,
                    ExtensionType::Bitfield => 2,
                    ExtensionType::CloseReason => 3,
                    ExtensionType::Unknown(n) => n,
                }
            }
            &&& b[2] * 0x100 + b[3] == p.connection_id
            &&& b[4] * 0x100_0000 + b[5] * 0x1_0000 + b[6] * 0x100 + b[7] == p.timestamp_micros
            &&& b[8] * 0x100_0000 + b[9] * 0x1_0000 + b[10] * 0x100 + b[11]
                == p.timestamp_delta_micros
            &&& b[12] * 0x100_0000 + b[13] * 0x1_0000 + b[14] * 0x100 + b[15] == p.window_size
            &&& b[16] * 0x100 + b[17] == p.seq_number
            &&& b[18] * 0x100 + b[19] == p.ack_number
        }),
{
    let b = encode(p);
    let header = encode_header(p);
    let bits = packet_type_bits(p.packet_type);
    let version = p.version;
    assert(bits <= 4 && version < 16 ==> (bits << 4 | version) == 16 * bits + version)
        by (bit_vector);
    lemma_header_fields(p);
    lemma_encode_header_len(p);
    assert(forall|i: int| 0 <= i < PACKET_HEADER_LEN ==> #[trigger] b[i] == header[i]);
}

/// The first byte of a packet, whatever its version is: the type in the upper half, and the
/// version over it.
pub proof fn law_first_byte(p: PacketView)
    ensures
        encode(p)[0] == (match p.packet_type {
            PacketType::Data => 0u8,
            PacketType::Fin => 0x10,
            PacketType::State => 0x20,
            PacketType::Reset => 0x30,
            PacketType::Syn => 0x40,
        } | p.version),
{
    let bits = packet_type_bits(p.packet_type);
    assert(bits <= 4 ==> bits << 4 == bits * 16) by (bit_vector);
    lemma_header_fields(p);
    lemma_encode_header_len(p);
    assert(encode(p)[0] == encode_header(p)[0]);
}

/// Every extension has its place after the header and the extensions before it: the type of the
/// next one or zero, the length modulo 256, and the data.
pub proof fn law_extension_layout(p: PacketView, index: int)
    requires
        0 <= index < p.extensions.len(),
    ensures
        ({
            let b = encode(p);
            let at = extension_start(p.extensions, index);
            let data = p.extensions[index].data;
            &&& extension_start(p.extensions, 0) == 20
            &&& extension_start(p.extensions, index + 1) == at + 2 + data.len()
            &&& 20 <= at && at + 2 + data.len() <= b.len()
            &&& b[at] == if index + 1 == p.extensions.len() {
                0
            } else {
                match p.extensions[index + 1].extension_type {
                    ExtensionType::NoExtension => 0u8,
                    ExtensionType::SelectiveAck => 1,
                    ExtensionType::Bitfield => 2,
                    ExtensionType::CloseReason => 3,
                    ExtensionType::Unknown(n) => n,
                }
            }
            &&& b[at + 1] == data.len() % 256
            &&& b.subrange(at + 2, at + 2 + data.len()) == data
        }),
{
    let b = encode(p);
    let at = extension_start(p.extensions, index);
    let data = p.extensions[index].data;
    let list = encode_extensions(p.extensions);
    lemma_encode_header_len(p);
    lemma_extension_in_list(p.extensions, index);
    assert(b[at] == list[at - 20]);
    assert(b[at + 1] == list[at - 19]);
    assert(b.subrange(at + 2, at + 2 + data.len()) =~= list.subrange(
        at - 18,
        at - 18 + data.len(),
    ));
}

/// The data of a packet comes after its extensions, and reaches to the end.
pub proof fn law_data_layout(p: PacketView)
    ensures
        ({
            let start = extension_start(p.extensions, p.extensions.len() as int);
            &&& encode(p).len() == start + p.data.len()
            &&& encode(p).skip(start) == p.data
        }),
{
    let start = extension_start(p.extensions, p.extensions.len() as int);
    lemma_encode_header_len(p);
    lemma_list_len(p.extensions);
    assert(encode(p).skip(start) =~= p.data);
}

/// Where an extension starts, counted from the second one on.
proof fn lemma_start_of_tail(extensions: Seq<ExtensionView>, index: int)
    requires
        1 <= index <= extensions.len(),
    ensures
        extension_start(extensions, index) == 2 + extensions[0].data.len() + extension_start(
            extensions.skip(1),
            index - 1,
        ),
        extension_start(extensions, index) >= 20,
    decreases index,
{
    if index > 1 {
        lemma_start_of_tail(extensions, index - 1);
        assert(extensions.skip(1)[index - 2] == extensions[index - 1]);
    } else {
        assert(extension_start(extensions, 0) == 20);
        assert(extension_start(extensions.skip(1), 0) == 20);
    }
}

/// The length of a list of extensions.
proof fn lemma_list_len(extensions: Seq<ExtensionView>)
    ensures
        extension_start(extensions, extensions.len() as int) == 20 + encode_extensions(
            extensions,
        ).len(),
    decreases extensions.len(),
{
    if extensions.len() > 0 {
        lemma_start_of_tail(extensions, extensions.len() as int);
        lemma_list_len(extensions.skip(1));
        lemma_encode_extensions_len(extensions);
    }
}

/// An extension in the bytes of its list.
proof fn lemma_extension_in_list(extensions: Seq<ExtensionView>, index: int)
    requires
        0 <= index < extensions.len(),
    ensures
        ({
            let list = encode_extensions(extensions);
            let at = extension_start(extensions, index) - 20;
            let data = extensions[index].data;
            &&& 0 <= at && at + 2 + data.len() <= list.len()
            &&& list[at] == leading_type(extensions.skip(index + 1))
            &&& list[at + 1] == data.len() % 256
            &&& list.subrange(at + 2, at + 2 + data.len()) == data
        }),
    decreases index,
{
    let list = encode_extensions(extensions);
    let tail = extensions.skip(1);
    let first = extensions[0].data.len() as int;
    lemma_encode_extensions_len(extensions);
    if index == 0 {
        assert(list.subrange(2, 2 + first) =~= extensions[0].data);
    } else {
        lemma_extension_in_list(tail, index - 1);
        lemma_start_of_tail(extensions, index);
        let rest = encode_extensions(tail);
        let at = extension_start(extensions, index) - 20;
        let data = extensions[index].data;
        assert(tail.skip(index) =~= extensions.skip(index + 1));
        assert(list[at] == rest[at - 2 - first]);
        assert(list[at + 1] == rest[at - 1 - first]);
        assert(list.subrange(at + 2, at + 2 + data.len()) =~= rest.subrange(
            at - first,
            at - first + data.len(),
        ));
    }
}

/// The fields of a packet are found at their places in the bytes that it is decoded from.
pub proof fn law_decoded_layout(b: Seq<u8>)
    requires
        decode(b) is Ok,
    ensures
        ({
            let p = decode(b)->Ok_0;
            &&& b.len() >= 20
            &&& p.version == 1
            &&& b[0] == 16 * (match p.packet_type {
                PacketType::Data => 0int,
                PacketType::Fin => 1,
                PacketType::State => 2,
                PacketType::Reset => 3,
                PacketType::Syn => 4,
            }) + 1
            &&& p.connection_id == b[2] * 0x100 + b[3]
            &&& p.timestamp_micros == b[4] * 0x100_0000 + b[5] * 0x1_0000 + b[6] * 0x100 + b[7]
            &&& p.timestamp_delta_micros == b[8] * 0x100_0000 + b[9] * 0x1_0000 + b[10] * 0x100
                + b[11]
            &&& p.window_size == b[12] * 0x100_0000 + b[13] * 0x1_0000 + b[14] * 0x100 + b[15]
            &&& p.seq_number == b[16] * 0x100 + b[17]
            &&& p.ack_number == b[18] * 0x100 + b[19]
            &&& p.data == b.skip(extension_start(p.extensions, p.extensions.len() as int))
            &&& b[1] == 0 ==> p.extensions.len() == 0 && p.data == b.skip(20)
        }),
{
    let p = decode(b)->Ok_0;
    law_encode_decode(b);
    law_header_layout(p);
    law_data_layout(p);
    if b[1] == 0 && p.extensions.len() > 0 {
        assert(extension_representable(p.extensions[0]));
    }
}

/// What is wrong with a header is told in this order: bytes that are too few, a type that does
/// not exist, a version other than the first. Nothing else is wrong with bytes that hold no
/// extension.
pub proof fn law_header_faults(b: Seq<u8>)
    ensures
        decode(b) == Err::<PacketView, _>(PacketParseError::TooSmall) <==> b.len() < 20,
        b.len() >= 20 && b[0] >= 0x50 ==> decode(b) == Err::<PacketView, _>(
            PacketParseError::InvalidPacketType(b[0] / 16),
        ),
        b.len() >= 20 && b[0] < 0x50 && b[0] % 16 != 1 ==> decode(b) == Err::<PacketView, _>(
            PacketParseError::UnsupportedVersion(b[0] % 16),
        ),
        b.len() >= 20 && b[0] < 0x50 && b[0] % 16 == 1 && b[1] == 0 ==> decode(b) is Ok,
{
    if b.len() >= 20 && b[0] < 0x50 && b[0] % 16 == 1 {
        lemma_extension_faults(b[1], b.skip(20), 0);
    }
}

/// A list of extensions has faults of its own.
proof fn lemma_extension_faults(announced: u8, rest: Seq<u8>, index: nat)
    ensures
        match decode_extensions(announced, rest, index) {
            Ok(_) => true,
            Err(error) => error is MissingExtension || error is IncompleteExtension,
        },
    decreases rest.len(),
{
    if announced != 0 && rest.len() >= 2 && rest[1] <= rest.len() - 2 {
        lemma_extension_faults(rest[0], rest.skip(2 + rest[1]), index + 1);
    }
}

/// A packet that is cut off in an extension is refused, and the error tells which extension it
/// is: before its length it is missing, and after that it is incomplete.
pub proof fn law_cut_in_extension(p: PacketView, index: int, count: int)
    requires
        representable(p),
        0 <= index < p.extensions.len(),
        0 <= count < 2 + p.extensions[index].data.len(),
    ensures
        decode(encode(p).take(extension_start(p.extensions, index) + count)) == Err::<
            PacketView,
            _,
        >(
            if count < 2 {
                PacketParseError::MissingExtension(index as usize)
            } else {
                PacketParseError::IncompleteExtension {
                    index: index as usize,
                    length: p.extensions[index].data.len() as usize,
                    remaining: (count - 2) as usize,
                }
            },
        ),
{
    let at = extension_start(p.extensions, index);
    let b = encode(p);
    let cut = b.take(at + count);
    let list = encode_extensions(p.extensions);
    law_header_layout(p);
    law_extension_layout(p, index);
    lemma_encode_header_len(p);
    lemma_extension_in_list(p.extensions, index);
    lemma_cut_in_list(p.extensions, index, count, 0);
    assert(cut[0] == b[0] && cut[1] == b[1]);
    assert(cut.skip(20) =~= list.take(at - 20 + count));
    assert(b[1] == leading_type(p.extensions));
    assert(packet_type_of(cut[0] / 16) == Ok::<_, PacketParseError>(p.packet_type));
}

/// A list of extensions that is cut off.
proof fn lemma_cut_in_list(extensions: Seq<ExtensionView>, index: int, count: int, before: nat)
    requires
        forall|i: int|
            0 <= i < extensions.len() ==> extension_representable(#[trigger] extensions[i]),
        0 <= index < extensions.len(),
        0 <= count < 2 + extensions[index].data.len(),
    ensures
        decode_extensions(
            leading_type(extensions),
            encode_extensions(extensions).take(extension_start(extensions, index) - 20 + count),
            before,
        ) == Err::<(Seq<ExtensionView>, Seq<u8>), _>(
            if count < 2 {
                PacketParseError::MissingExtension((before + index) as usize)
            } else {
                PacketParseError::IncompleteExtension {
                    index: (before + index) as usize,
                    length: extensions[index].data.len() as usize,
                    remaining: (count - 2) as usize,
                }
            },
        ),
    decreases index,
{
    let list = encode_extensions(extensions);
    let rest = list.take(extension_start(extensions, index) - 20 + count);
    let first = extensions[0].data.len() as int;
    assert(extension_representable(extensions[0]));
    lemma_encode_extensions_len(extensions);
    lemma_extension_in_list(extensions, index);
    if index > 0 {
        let tail = extensions.skip(1);
        assert forall|i: int| 0 <= i < tail.len() implies extension_representable(
            #[trigger] tail[i],
        ) by {
            assert(tail[i] == extensions[i + 1]);
        }
        lemma_start_of_tail(extensions, index);
        lemma_extension_in_list(tail, index - 1);
        lemma_cut_in_list(tail, index - 1, count, before + 1);
        assert(rest[0] == list[0] && rest[1] == list[1]);
        assert(rest.skip(2 + first) =~= encode_extensions(tail).take(
            extension_start(tail, index - 1) - 20 + count,
        ));
    } else if count >= 2 {
        assert(rest[1] == list[1]);
    }
}

/// A packet that is cut off in its data is the packet with less data.
pub proof fn law_cut_in_data(p: PacketView, count: int)
    requires
        0 <= count <= p.data.len(),
    ensures
        encode(p).take(extension_start(p.extensions, p.extensions.len() as int) + count) == encode(
            PacketView { data: p.data.take(count), ..p },
        ),
{
    let start = extension_start(p.extensions, p.extensions.len() as int);
    let q = PacketView { data: p.data.take(count), ..p };
    lemma_encode_header_len(p);
    lemma_list_len(p.extensions);
    assert(encode_header(p) == encode_header(q));
    assert(encode(p).take(start + count) =~= encode(q));
}

/// The bytes that stand for the types of packets and extensions.
pub proof fn law_type_bytes(t: PacketType, e: ExtensionType, n: u8)
    ensures
        packet_type_bits(t) == match t {
            PacketType::Data => 0u8,
            PacketType::Fin => 1,
            PacketType::State => 2,
            PacketType::Reset => 3,
            PacketType::Syn => 4,
        },
        packet_type_of(packet_type_bits(t)) == Ok::<_, PacketParseError>(t),
        packet_type_of(n) is Ok <==> n <= 4,
        packet_type_of(n) matches Ok(found) ==> packet_type_bits(found) == n,
        packet_type_of(n) matches Err(error) ==> error == PacketParseError::InvalidPacketType(n),
        extension_type_byte(e) == match e {
            ExtensionType::NoExtension => 0u8,
            ExtensionType::SelectiveAck => 1,
            ExtensionType::Bitfield => 2,
            ExtensionType::CloseReason => 3,
            ExtensionType::Unknown(byte) => byte,
        },
        extension_type_byte(extension_type_of(n)) == n,
        extension_type_of(n) is Unknown <==> n > 3,
{
}

/// A packet can be told from its bytes where its version is the first, and each of its extensions
/// has a type of its own, and no more than 255 bytes.
pub proof fn law_representable(p: PacketView)
    ensures
        representable(p) <==> p.version == 1 && forall|i: int|
            0 <= i < p.extensions.len() ==> (#[trigger] p.extensions[i]).data.len() < 256
                && match p.extensions[i].extension_type {
                ExtensionType::NoExtension => false,
                ExtensionType::Unknown(byte) => byte > 3,
                _ => true,
            },
{
    assert forall|e: ExtensionView| #[trigger] extension_representable(e) == (e.data.len() < 256
        && match e.extension_type {
        ExtensionType::NoExtension => false,
        ExtensionType::Unknown(byte) => byte > 3,
        _ => true,
    }) by {}
    if representable(p) {
        assert forall|i: int| 0 <= i < p.extensions.len() implies extension_representable(
            #[trigger] p.extensions[i],
        ) by {}
    }
}

} // verus!
