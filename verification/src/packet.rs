//! Packets, and their conversion from and to the bytes of a datagram.

use crate::buffer;
use crate::buffer::{buffer_limit, contents, contents_mut};
use crate::error::PacketParseError;
use crate::wire::{
    decode, decode_extensions, encode, encode_extensions, encode_header, extension_type_byte,
    extension_type_of, law_decode_encode, law_encode_decode, leading_type,
    lemma_encode_extensions_len, lemma_encode_extensions_suffix, lemma_encode_header_len,
    lemma_prepend_nothing, lemma_prepend_twice, packet_type_bits,
    packet_type_of, prepend, representable, ExtensionView, PacketView, PACKET_HEADER_LEN,
};
use bytes::Bytes;
use vstd::prelude::*;

verus! {

/// What a packet is for.
#[derive(Debug, Copy, Clone, PartialEq, Eq, Structural)]
pub enum PacketType {
    Data,
    Fin,
    State,
    Reset,
    Syn,
}

impl PacketType {
    /// The four bits that stand for this type.
    pub fn bits(self) -> (bits: u8)
        ensures
            bits == packet_type_bits(self),
    {
        match self {
            PacketType::Data => 0,
            PacketType::Fin => 1,
            PacketType::State => 2,
            PacketType::Reset => 3,
            PacketType::Syn => 4,
        }
    }
}

impl vstd::std_specs::convert::TryFromSpecImpl<u8> for PacketType {
    open spec fn obeys_try_from_spec() -> bool {
        true
    }

    open spec fn try_from_spec(value: u8) -> Result<Self, PacketParseError> {
        packet_type_of(value)
    }
}

impl TryFrom<u8> for PacketType {
    type Error = PacketParseError;

    fn try_from(value: u8) -> (r: Result<Self, PacketParseError>) {
        match value {
            0 => Ok(PacketType::Data),
            1 => Ok(PacketType::Fin),
            2 => Ok(PacketType::State),
            3 => Ok(PacketType::Reset),
            4 => Ok(PacketType::Syn),
            n => Err(PacketParseError::InvalidPacketType(n)),
        }
    }
}

/// What an extension is for.
#[derive(Debug, Copy, Clone, PartialEq, Eq, Structural)]
pub enum ExtensionType {
    /// The end of the list of extensions.
    NoExtension,
    SelectiveAck,
    Bitfield,
    CloseReason,
    Unknown(u8),
}

impl vstd::std_specs::convert::FromSpecImpl<u8> for ExtensionType {
    open spec fn obeys_from_spec() -> bool {
        true
    }

    open spec fn from_spec(num: u8) -> Self {
        extension_type_of(num)
    }
}

impl From<u8> for ExtensionType {
    fn from(num: u8) -> (r: Self) {
        match num {
            0 => ExtensionType::NoExtension,
            1 => ExtensionType::SelectiveAck,
            2 => ExtensionType::Bitfield,
            3 => ExtensionType::CloseReason,
            n => ExtensionType::Unknown(n),
        }
    }
}

impl vstd::std_specs::convert::FromSpecImpl<ExtensionType> for u8 {
    open spec fn obeys_from_spec() -> bool {
        true
    }

    open spec fn from_spec(extension_type: ExtensionType) -> Self {
        extension_type_byte(extension_type)
    }
}

impl From<ExtensionType> for u8 {
    fn from(extension_type: ExtensionType) -> (r: Self) {
        match extension_type {
            ExtensionType::NoExtension => 0,
            ExtensionType::SelectiveAck => 1,
            ExtensionType::Bitfield => 2,
            ExtensionType::CloseReason => 3,
            ExtensionType::Unknown(n) => n,
        }
    }
}

/// An extension of a packet.
#[derive(Debug, PartialEq, Eq)]
pub struct Extension {
    pub extension_type: ExtensionType,
    pub data: Bytes,
}

impl View for Extension {
    type V = ExtensionView;

    open spec fn view(&self) -> ExtensionView {
        ExtensionView { extension_type: self.extension_type, data: contents(self.data) }
    }
}

impl Extension {
    /// An extension with the given type and data.
    pub fn new(extension_type: ExtensionType, data: Bytes) -> (r: Self)
        ensures
            r.extension_type == extension_type,
            r.data == data,
    {
        Self { extension_type, data }
    }
}

impl Clone for Extension {
    fn clone(&self) -> (r: Self)
        ensures
            r@ == self@,
    {
        Self { extension_type: self.extension_type, data: self.data.clone() }
    }
}

/// A packet.
#[derive(Debug, PartialEq, Eq)]
pub struct Packet {
    pub packet_type: PacketType,
    pub version: u8,
    pub connection_id: u16,
    pub timestamp_micros: u32,
    pub timestamp_delta_micros: u32,
    pub window_size: u32,
    pub seq_number: u16,
    pub ack_number: u16,
    pub extensions: Vec<Extension>,
    pub data: Bytes,
}

/// The extensions of a list, with their data as sequences.
pub open spec fn extension_views(extensions: Seq<Extension>) -> Seq<ExtensionView> {
    Seq::new(extensions.len(), |i: int| extensions[i]@)
}

impl View for Packet {
    type V = PacketView;

    open spec fn view(&self) -> PacketView {
        PacketView {
            packet_type: self.packet_type,
            version: self.version,
            connection_id: self.connection_id,
            timestamp_micros: self.timestamp_micros,
            timestamp_delta_micros: self.timestamp_delta_micros,
            window_size: self.window_size,
            seq_number: self.seq_number,
            ack_number: self.ack_number,
            extensions: extension_views(self.extensions@),
            data: contents(self.data),
        }
    }
}

impl Clone for Packet {
    fn clone(&self) -> (r: Self)
        ensures
            r@ == self@,
    {
        let mut extensions: Vec<Extension> = Vec::new();
        for i in 0..self.extensions.len()
            invariant
                extension_views(extensions@) == extension_views(self.extensions@).take(i as int),
        {
            let ghost before = extension_views(extensions@);
            extensions.push(self.extensions[i].clone());
            assert(extension_views(extensions@) =~= before.push(self.extensions@[i as int]@));
        }
        assert(extension_views(extensions@) =~= extension_views(self.extensions@));
        Self {
            packet_type: self.packet_type,
            version: self.version,
            connection_id: self.connection_id,
            timestamp_micros: self.timestamp_micros,
            timestamp_delta_micros: self.timestamp_delta_micros,
            window_size: self.window_size,
            seq_number: self.seq_number,
            ack_number: self.ack_number,
            extensions,
            data: self.data.clone(),
        }
    }
}

impl Packet {
    /// A packet with the given fields.
    pub fn new(
        packet_type: PacketType,
        version: u8,
        connection_id: u16,
        timestamp_micros: u32,
        timestamp_delta_micros: u32,
        window_size: u32,
        seq_number: u16,
        ack_number: u16,
        extensions: Vec<Extension>,
        data: Bytes,
    ) -> (r: Self)
        ensures
            r == (Packet {
                packet_type,
                version,
                connection_id,
                timestamp_micros,
                timestamp_delta_micros,
                window_size,
                seq_number,
                ack_number,
                extensions,
                data,
            }),
    {
        Self {
            packet_type,
            version,
            connection_id,
            timestamp_micros,
            timestamp_delta_micros,
            window_size,
            seq_number,
            ack_number,
            extensions,
            data,
        }
    }

    /// Whether a buffer can grow to hold the bytes of this packet.
    pub fn fits(&self) -> (r: bool)
        ensures
            r == (encode(self@).len() <= buffer_limit()),
    {
        let limit: usize = buffer::growth_limit();
        let ghost views = self@.extensions;
        let mut free: usize = limit - PACKET_HEADER_LEN;
        let mut i: usize = self.extensions.len();
        proof {
            lemma_encode_header_len(self@);
            assert(views.skip(i as int) =~= Seq::empty());
        }
        while i > 0
            invariant
                i <= self.extensions.len(),
                views == extension_views(self.extensions@),
                free + encode_extensions(views.skip(i as int)).len() + PACKET_HEADER_LEN
                    == buffer_limit(),
            decreases i,
        {
            i = i - 1;
            let length = buffer::len(&self.extensions[i].data);
            proof {
                lemma_encode_extensions_len(views.skip(i as int));
                assert(views.skip(i as int).skip(1) =~= views.skip(i + 1));
                lemma_encode_extensions_suffix(views, i as int);
            }
            if free < 2 || free - 2 < length {
                return false;
            }
            free = free - 2 - length;
        }
        assert(views.skip(0) =~= views);
        buffer::len(&self.data) <= free
    }

    /// The bytes of this packet.
    pub fn to_bytes(&self) -> (bytes: Bytes)
        requires
            encode(self@).len() <= buffer_limit(),
        ensures
            contents(bytes) == encode(self@),
            representable(self@) ==> decode(contents(bytes)) == Ok::<_, PacketParseError>(self@),
    {
        let ghost views = self@.extensions;
        proof {
            lemma_encode_header_len(self@);
        }
        let mut packet_length: usize = PACKET_HEADER_LEN + buffer::len(&self.data);
        let mut i: usize = 0;
        assert(views.skip(0) =~= views);
        while i < self.extensions.len()
            invariant
                i <= self.extensions.len(),
                views == extension_views(self.extensions@),
                packet_length + encode_extensions(views.skip(i as int)).len() <= buffer_limit(),
            decreases self.extensions.len() - i,
        {
            proof {
                lemma_encode_extensions_len(views.skip(i as int));
                assert(views.skip(i as int).skip(1) =~= views.skip(i + 1));
            }
            // The type of the next extension, the length and the data.
            packet_length = packet_length + 1 + 1 + buffer::len(&self.extensions[i].data);
            i = i + 1;
        }

        let mut result = buffer::with_capacity(packet_length);
        buffer::put_u8(&mut result, self.packet_type.bits() << 4 | self.version);
        buffer::put_u8(&mut result, Self::announced_type(&self.extensions, 0));
        buffer::put_u16(&mut result, self.connection_id);
        buffer::put_u32(&mut result, self.timestamp_micros);
        buffer::put_u32(&mut result, self.timestamp_delta_micros);
        buffer::put_u32(&mut result, self.window_size);
        buffer::put_u16(&mut result, self.seq_number);
        buffer::put_u16(&mut result, self.ack_number);
        assert(contents_mut(result) =~= encode_header(self@));

        // A linked list: each extension holds the type of the next, or zero where there is none.
        let mut j: usize = 0;
        while j < self.extensions.len()
            invariant
                j <= self.extensions.len(),
                views == extension_views(self.extensions@),
                encode(self@).len() <= buffer_limit(),
                views == self@.extensions,
                contents_mut(result) + encode_extensions(views.skip(j as int))
                    == encode_header(self@) + encode_extensions(views),
            decreases self.extensions.len() - j,
        {
            let ghost before = contents_mut(result);
            proof {
                lemma_encode_extensions_len(views.skip(j as int));
                assert(views.skip(j as int).skip(1) =~= views.skip(j + 1));
                assert((before + encode_extensions(views.skip(j as int))).len() <= buffer_limit());
            }
            buffer::put_u8(&mut result, Self::announced_type(&self.extensions, j + 1));
            let extension = &self.extensions[j];
            let length = buffer::len(&extension.data);
            buffer::put_u8(&mut result, #[verifier::truncate] (length as u8));
            buffer::extend_from_slice(&mut result, buffer::as_slice(&extension.data));
            proof {
                assert(length as u8 == length % 0x100) by (bit_vector);
                assert(contents_mut(result) + encode_extensions(views.skip(j + 1)) =~= before
                    + encode_extensions(views.skip(j as int)));
            }
            j = j + 1;
        }
        assert(views.skip(j as int) =~= Seq::empty());
        assert(contents_mut(result) =~= encode_header(self@) + encode_extensions(views));

        buffer::extend_from_slice(&mut result, buffer::as_slice(&self.data));
        proof {
            if representable(self@) {
                law_decode_encode(self@);
            }
        }
        buffer::freeze(result)
    }

    /// The byte that announces the extensions from index `from` on.
    fn announced_type(extensions: &Vec<Extension>, from: usize) -> (byte: u8)
        requires
            from <= extensions.len(),
        ensures
            byte == leading_type(extension_views(extensions@).skip(from as int)),
    {
        if from < extensions.len() {
            u8::from(extensions[from].extension_type)
        } else {
            u8::from(ExtensionType::NoExtension)
        }
    }
}

impl vstd::std_specs::convert::TryFromSpecImpl<Bytes> for Packet {
    open spec fn obeys_try_from_spec() -> bool {
        false
    }

    open spec fn try_from_spec(bytes: Bytes) -> Result<Self, PacketParseError> {
        arbitrary()
    }
}

impl TryFrom<Bytes> for Packet {
    type Error = PacketParseError;

    /// The packet in the bytes of a datagram.
    fn try_from(bytes: Bytes) -> (r: Result<Self, PacketParseError>)
        ensures
            match r {
                Ok(packet) => decode(contents(bytes)) == Ok::<_, PacketParseError>(packet@),
                Err(error) => decode(contents(bytes)) == Err::<PacketView, _>(error),
            },
            r matches Ok(packet) ==> encode(packet@) == contents(bytes) && representable(packet@),
    {
        let ghost all = contents(bytes);
        let mut unread = bytes;
        if buffer::len(&unread) < PACKET_HEADER_LEN {
            return Err(PacketParseError::TooSmall);
        }

        let type_and_version = buffer::get_u8(&mut unread);
        assert(type_and_version >> 4 == type_and_version / 0x10) by (bit_vector);
        assert(type_and_version & 0x0f == type_and_version % 0x10) by (bit_vector);
        let packet_type = match PacketType::try_from(type_and_version >> 4) {
            Ok(packet_type) => packet_type,
            Err(error) => return Err(error),
        };
        let version: u8 = match type_and_version & 0x0f {
            1 => 1,
            v => return Err(PacketParseError::UnsupportedVersion(v)),
        };

        let first_extension_type = buffer::get_u8(&mut unread);
        let connection_id = buffer::get_u16(&mut unread);
        let timestamp_micros = buffer::get_u32(&mut unread);
        let timestamp_delta_micros = buffer::get_u32(&mut unread);
        let window_size = buffer::get_u32(&mut unread);
        let seq_number = buffer::get_u16(&mut unread);
        let ack_number = buffer::get_u16(&mut unread);
        let ghost rest = all.skip(PACKET_HEADER_LEN as int);
        assert(contents(unread) =~= rest);

        let mut extensions: Vec<Extension> = Vec::new();
        let mut extension_type = first_extension_type;
        assert(extension_views(extensions@) =~= Seq::empty());
        proof {
            lemma_prepend_nothing(decode_extensions(first_extension_type, rest, 0));
        }
        // The selective ack extension should have a length that is a multiple of four, but
        // lengths of two and three are sent in practice, so no length is refused here.
        while extension_type != 0
            invariant
                all == contents(bytes),
                all.len() >= PACKET_HEADER_LEN,
                packet_type_of(all[0] / 0x10) is Ok,
                all[0] % 0x10 == 1,
                first_extension_type == all[1],
                rest == all.skip(PACKET_HEADER_LEN as int),
                decode_extensions(first_extension_type, rest, 0) == prepend(
                    extension_views(extensions@),
                    decode_extensions(extension_type, contents(unread), extensions.len() as nat),
                ),
            decreases contents(unread).len(),
        {
            let ghost before = contents(unread);
            if buffer::len(&unread) < 2 {
                return Err(PacketParseError::MissingExtension(extensions.len()));
            }
            // Where this is zero, the current extension is the last one.
            let next_extension_type = buffer::get_u8(&mut unread);
            let length = buffer::get_u8(&mut unread) as usize;
            let remaining = buffer::len(&unread);
            if length > remaining {
                return Err(
                    PacketParseError::IncompleteExtension {
                        index: extensions.len(),
                        length,
                        remaining,
                    },
                );
            }
            let extension_data = buffer::split_to(&mut unread, length);
            let ghost front = extension_views(extensions@);
            extensions.push(Extension::new(ExtensionType::from(extension_type), extension_data));
            proof {
                let one = ExtensionView {
                    extension_type: extension_type_of(extension_type),
                    data: before.subrange(2, 2 + before[1]),
                };
                assert(contents(extension_data) =~= one.data);
                assert(contents(unread) =~= before.skip(2 + before[1]));
                assert(extension_views(extensions@) =~= front + seq![one]);
                lemma_prepend_twice(
                    front,
                    seq![one],
                    decode_extensions(
                        next_extension_type,
                        contents(unread),
                        extensions.len() as nat,
                    ),
                );
            }
            extension_type = next_extension_type;
        }
        proof {
            assert(extension_views(extensions@) + Seq::<ExtensionView>::empty()
                =~= extension_views(extensions@));
        }

        let packet = Self::new(
            packet_type,
            version,
            connection_id,
            timestamp_micros,
            timestamp_delta_micros,
            window_size,
            seq_number,
            ack_number,
            extensions,
            unread,
        );
        proof {
            assert(decode(all) == Ok::<_, PacketParseError>(packet@));
            law_encode_decode(all);
        }
        Ok(packet)
    }
}

/// The view of a packet has its fields, and its data and extensions as sequences.
pub proof fn law_packet_view(p: Packet, i: int)
    requires
        0 <= i < p.extensions.len(),
    ensures
        p@.extensions[i].extension_type == p.extensions[i].extension_type,
        p@.extensions[i].data == contents(p.extensions[i].data),
{
}

/// The view of a packet has its fields.
pub proof fn law_packet_fields(p: Packet)
    ensures
        p@.packet_type == p.packet_type,
        p@.version == p.version,
        p@.connection_id == p.connection_id,
        p@.timestamp_micros == p.timestamp_micros,
        p@.timestamp_delta_micros == p.timestamp_delta_micros,
        p@.window_size == p.window_size,
        p@.seq_number == p.seq_number,
        p@.ack_number == p.ack_number,
        p@.extensions.len() == p.extensions.len(),
        p@.data == contents(p.data),
{
}

} // verus!
