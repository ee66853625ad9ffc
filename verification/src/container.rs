//! A host file as a container of metadata: a file that is markup as a
//! whole, or a file that embeds a packet.
//!
//! A packet has a fixed place in its host, so what is written into it has to
//! fit the body that is there. Two ways of writing the markup are tried, the
//! indented one first, and the first that fits is taken. What is prepared
//! and written is the body alone: header and footer of the packet are never
//! touched. A file that is markup as a whole is written anew, indented.

use vstd::prelude::*;
use vstd::slice::slice_subrange;

use crate::bytes::{ascii_bytes, literal_bytes, occurs_at, starts_with};
use crate::codec::{emitted_bytes, write_events};
use crate::file::{body_span, with_body, ByteRange, WritePacketError, XPacketFile};
use crate::markup::{events_view, MarkupEvent, MarkupEventView};
use crate::xmp::{XmpData, XmpParseError};
use crate::xpacket::{
    padded_body, split_offsets_of, XPacket, XPacketMut, XPacketParseError,
};

verus! {

/// Why the metadata of a container could not be read.
#[derive(Debug)]
pub enum ContainerError {
    XPacketParse(XPacketParseError),
    XmpParse(XmpParseError),
}

/// Why new markup could not be prepared for a container.
#[derive(Debug)]
pub enum ContainerRewriteError {
    /// The markup could not be written out.
    Emitter(xml::writer::Error),
    MissingXPacket,
    XPacketParse(XPacketParseError),
    /// The markup does not fit the body of the packet, however it is
    /// written.
    NotEnoughSpace,
}

/// Why prepared bytes could not be put into a container.
#[derive(Clone, Copy, Debug, PartialEq, Eq, Structural)]
pub enum ContainerWriteError {
    MissingXPacket,
    NotEnoughSpace,
}

impl ContainerWriteError {
    /// The error of a container for the error of a host.
    pub fn from(error: WritePacketError) -> (r: Self)
        ensures
            r == match error {
                WritePacketError::NoPacket => ContainerWriteError::MissingXPacket,
                WritePacketError::WrongPacketSize => ContainerWriteError::NotEnoughSpace,
            },
    {
        match error {
            WritePacketError::NoPacket => ContainerWriteError::MissingXPacket,
            WritePacketError::WrongPacketSize => ContainerWriteError::NotEnoughSpace,
        }
    }
}

/// The markup of `events`, indented by one space for each level.
pub open spec fn indented(events: Seq<MarkupEventView>) -> Option<Seq<u8>> {
    emitted_bytes(events, true, " "@, false)
}

/// The markup of `events`, without any indentation.
pub open spec fn compact(events: Seq<MarkupEventView>) -> Option<Seq<u8>> {
    emitted_bytes(events, false, "  "@, false)
}

/// What becomes of a body when markup is to be written into it.
pub enum Fitted {
    /// The body that holds the markup.
    Written(Seq<u8>),
    /// The markup could not be written out.
    Failed,
    /// Neither way of writing the markup fits.
    TooLong,
}

/// The body of `budget` bytes that holds one way of writing markup: the
/// first of `first` and `second` that fits, a line feed on either side
/// counted in. `second` is written out only where `first` does not fit.
pub open spec fn fitted(first: Option<Seq<u8>>, second: Option<Seq<u8>>, budget: int) -> Fitted {
    match first {
        None => Fitted::Failed,
        Some(bytes) => if bytes.len() + 2 <= budget {
            Fitted::Written(padded_body(bytes, budget))
        } else {
            match second {
                None => Fitted::Failed,
                Some(bytes) => if bytes.len() + 2 <= budget {
                    Fitted::Written(padded_body(bytes, budget))
                } else {
                    Fitted::TooLong
                },
            }
        },
    }
}

/// A copy of a list of events.
pub fn clone_events(events: &Vec<MarkupEvent>) -> (r: Vec<MarkupEvent>)
    ensures
        events_view(r@) == events_view(events@),
{
    let mut out: Vec<MarkupEvent> = Vec::with_capacity(events.len());
    let mut i: usize = 0;
    while i < events.len()
        invariant
            i <= events@.len(),
            out@.len() == i,
            forall|k: int| 0 <= k < i ==> out@[k]@ == events@[k]@,
        decreases events@.len() - i,
    {
        out.push(events[i].duplicate());
        i += 1;
    }
    assert(events_view(out@) =~= events_view(events@));
    out
}

/// Writes markup out, indented.
pub fn emit_indented(events: &Vec<MarkupEvent>) -> (r: Result<Vec<u8>, ContainerRewriteError>)
    ensures
        match r {
            Ok(bytes) => indented(events_view(events@)) == Some(bytes@),
            Err(ContainerRewriteError::Emitter(_)) => indented(events_view(events@)).is_none(),
            Err(_) => false,
        },
{
    match write_events(clone_events(events), true, " ", false) {
        Ok(bytes) => Ok(bytes),
        Err(error) => Err(ContainerRewriteError::Emitter(error)),
    }
}

/// Writes markup out without indentation.
pub fn emit_compact(events: &Vec<MarkupEvent>) -> (r: Result<Vec<u8>, ContainerRewriteError>)
    ensures
        match r {
            Ok(bytes) => compact(events_view(events@)) == Some(bytes@),
            Err(ContainerRewriteError::Emitter(_)) => compact(events_view(events@)).is_none(),
            Err(_) => false,
        },
{
    match write_events(clone_events(events), false, "  ", false) {
        Ok(bytes) => Ok(bytes),
        Err(error) => Err(ContainerRewriteError::Emitter(error)),
    }
}

/// The markup that a host holds.
pub enum Markup {
    /// The host embeds no packet.
    Missing,
    /// What the host embeds cannot be split into the parts of a packet.
    NoPacket(XPacketParseError),
    /// The markup cannot be read.
    Malformed,
    /// The events of the markup.
    Events(Seq<MarkupEventView>),
}

/// What preparing markup for a host comes to.
pub enum Prepared {
    /// The host embeds no packet.
    Missing,
    /// What the host embeds cannot be split into the parts of a packet.
    NoPacket(XPacketParseError),
    /// The markup could not be written out.
    Failed,
    /// The markup does not fit the body of the packet.
    TooLong,
    /// The bytes to write.
    Ready(Seq<u8>),
}

/// The new body of `packet`, with the markup of `events` fitted into it: as
/// long as the body that the packet has.
pub open spec fn prepared_packet(packet: Seq<u8>, events: Seq<MarkupEventView>) -> Prepared {
    match split_offsets_of(packet) {
        Err(e) => Prepared::NoPacket(e),
        Ok((body_start, body_end)) => match fitted(
            indented(events),
            compact(events),
            body_end - body_start,
        ) {
            Fitted::Written(body) => Prepared::Ready(body),
            Fitted::Failed => Prepared::Failed,
            Fitted::TooLong => Prepared::TooLong,
        },
    }
}

/// Whether the result of preparing markup is what was to come of it.
pub open spec fn is_prepared(r: Result<Vec<u8>, ContainerRewriteError>, prepared: Prepared) -> bool {
    match prepared {
        Prepared::Missing => r matches Err(ContainerRewriteError::MissingXPacket),
        Prepared::NoPacket(e) => r matches Err(ContainerRewriteError::XPacketParse(found))
            && found == e,
        Prepared::Failed => r matches Err(ContainerRewriteError::Emitter(_)),
        Prepared::TooLong => r matches Err(ContainerRewriteError::NotEnoughSpace),
        Prepared::Ready(bytes) => r matches Ok(written) && written@ == bytes,
    }
}

/// Whether the result of reading markup is the markup that was there.
pub open spec fn is_read(r: Result<Option<XmpData>, ContainerError>, markup: Markup) -> bool {
    match markup {
        Markup::Missing => r matches Ok(None),
        Markup::NoPacket(e) => r matches Err(ContainerError::XPacketParse(found)) && found == e,
        Markup::Malformed => r matches Err(ContainerError::XmpParse(_)),
        Markup::Events(events) => r matches Ok(Some(data)) && data@ == events,
    }
}

/// Fits the markup of `events` into the body of a packet, and gives the new
/// body: as long as the body that the packet has, the markup between two
/// line feeds, and spaces behind the markup.
pub fn prepare_packet(packet: Vec<u8>, events: &Vec<MarkupEvent>) -> (r: Result<
    Vec<u8>,
    ContainerRewriteError,
>)
    ensures
        is_prepared(r, prepared_packet(packet@, events_view(events@))),
        r matches Ok(body) ==> split_offsets_of(packet@) matches Ok((body_start, body_end))
            && body@.len() == body_end - body_start,
{
    let ghost given = packet@;
    let mut xpacket = match XPacketMut::try_from(packet) {
        Ok(xpacket) => xpacket,
        Err(e) => {
            return Err(ContainerRewriteError::XPacketParse(e));
        },
    };
    proof {
        let (body_start, body_end) = split_offsets_of(given).unwrap();
        crate::xpacket::lemma_parts(given, body_start, body_end);
    }
    let first = match emit_indented(events) {
        Ok(bytes) => bytes,
        Err(e) => {
            return Err(e);
        },
    };
    if xpacket.fit_body(first.as_slice()) {
        return Ok(vstd::slice::slice_to_vec(xpacket.body()));
    }
    let second = match emit_compact(events) {
        Ok(bytes) => bytes,
        Err(e) => {
            return Err(e);
        },
    };
    if xpacket.fit_body(second.as_slice()) {
        return Ok(vstd::slice::slice_to_vec(xpacket.body()));
    }
    Err(ContainerRewriteError::NotEnoughSpace)
}

/// The literal with which a file begins that is markup as a whole.
pub open spec fn standalone_marker() -> Seq<u8> {
    ascii_bytes("<x:xmp"@)
}

/// How many bytes of a host are looked at to tell what it is.
pub const HEAD_LEN: usize = 16;

/// What a host is.
#[derive(Clone, Copy, Debug, PartialEq, Eq, Structural)]
pub enum ContainerKind {
    /// Markup as a whole.
    Xmp,
    /// A file that may embed a packet.
    XPacket,
}

/// Tells from the first bytes of a host what it is.
pub fn detect_kind(head: &[u8]) -> (r: ContainerKind)
    ensures
        r == if occurs_at(head@, standalone_marker(), 0) {
            ContainerKind::Xmp
        } else {
            ContainerKind::XPacket
        },
{
    proof {
        reveal_strlit("<x:xmp");
    }
    if starts_with(head, literal_bytes("<x:xmp")) {
        ContainerKind::Xmp
    } else {
        ContainerKind::XPacket
    }
}

/// The bytes of a host, by what the host is.
#[derive(Debug)]
enum ContainerData {
    Xmp(Vec<u8>),
    XPacket(XPacketFile),
}

/// A host, held in memory.
#[derive(Debug)]
pub struct Container {
    data: ContainerData,
}

impl Container {
    /// The bytes of the host.
    pub closed spec fn bytes(self) -> Seq<u8> {
        match self.data {
            ContainerData::Xmp(bytes) => bytes@,
            ContainerData::XPacket(file) => file.bytes(),
        }
    }

    /// What the host is.
    pub closed spec fn kind(self) -> ContainerKind {
        match self.data {
            ContainerData::Xmp(_) => ContainerKind::Xmp,
            ContainerData::XPacket(_) => ContainerKind::XPacket,
        }
    }

    /// The range of the packet, where the host embeds one.
    pub closed spec fn span(self) -> Option<ByteRange> {
        match self.data {
            ContainerData::Xmp(_) => None,
            ContainerData::XPacket(file) => file.span(),
        }
    }

    /// The markup that the host holds.
    pub open spec fn markup(self) -> Markup {
        match self.kind() {
            ContainerKind::Xmp => match crate::codec::parsed_events(self.bytes(), true, true) {
                Some(events) => Markup::Events(events),
                None => Markup::Malformed,
            },
            ContainerKind::XPacket => match self.span() {
                None => Markup::Missing,
                Some(range) => match split_offsets_of(
                    self.bytes().subrange(range.start as int, range.end as int),
                ) {
                    Err(e) => Markup::NoPacket(e),
                    Ok((body_start, body_end)) => match crate::codec::parsed_events(
                        self.bytes().subrange(range.start + body_start, range.start + body_end),
                        true,
                        true,
                    ) {
                        Some(events) => Markup::Events(events),
                        None => Markup::Malformed,
                    },
                },
            },
        }
    }

    /// The bytes that hold the markup of `events` and can be written into
    /// the host: the indented markup for a file that is markup as a whole,
    /// and for a file that embeds a packet the new body of the packet, with
    /// the markup fitted into it.
    pub open spec fn prepared(self, events: Seq<MarkupEventView>) -> Prepared {
        match self.kind() {
            ContainerKind::Xmp => match indented(events) {
                Some(bytes) => Prepared::Ready(bytes),
                None => Prepared::Failed,
            },
            ContainerKind::XPacket => match self.span() {
                None => Prepared::Missing,
                Some(range) => prepared_packet(
                    self.bytes().subrange(range.start as int, range.end as int),
                    events,
                ),
            },
        }
    }

    /// Takes the bytes of a host. A host of less than sixteen bytes cannot
    /// be told apart and is given back.
    pub fn open(bytes: Vec<u8>) -> (r: Result<Self, Vec<u8>>)
        ensures
            match r {
                Ok(container) => {
                    &&& bytes@.len() >= HEAD_LEN
                    &&& container.bytes() == bytes@
                    &&& container.kind() == if occurs_at(bytes@, standalone_marker(), 0) {
                        ContainerKind::Xmp
                    } else {
                        ContainerKind::XPacket
                    }
                    &&& container.kind() == ContainerKind::XPacket ==> match container.span() {
                        Some(range) => crate::file::is_packet_span(
                            bytes@,
                            range.start as int,
                            range.end as int,
                        ),
                        None => crate::file::has_no_packet(bytes@),
                    }
                },
                Err(given) => bytes@.len() < HEAD_LEN && given@ == bytes@,
            },
    {
        if bytes.len() < HEAD_LEN {
            return Err(bytes);
        }
        let head = slice_subrange(bytes.as_slice(), 0, HEAD_LEN);
        proof {
            reveal_strlit("<x:xmp");
            assert(head@.subrange(0, 6) =~= bytes@.subrange(0, 6));
        }
        match detect_kind(head) {
            ContainerKind::Xmp => Ok(Container { data: ContainerData::Xmp(bytes) }),
            ContainerKind::XPacket => Ok(
                Container { data: ContainerData::XPacket(XPacketFile::open(bytes)) },
            ),
        }
    }

    /// Reads the markup of the host: the whole of a file that is markup,
    /// the body of the packet of a file that embeds one, and nothing where
    /// there is no packet.
    pub fn read_xmp(&self) -> (r: Result<Option<XmpData>, ContainerError>)
        ensures
            is_read(r, self.markup()),
    {
        match &self.data {
            ContainerData::Xmp(bytes) => match XmpData::parse(bytes.as_slice()) {
                Ok(data) => Ok(Some(data)),
                Err(e) => Err(ContainerError::XmpParse(e)),
            },
            ContainerData::XPacket(file) => match file.read_packet_bytes() {
                Some(packet) => {
                    let xpacket = match XPacket::try_from(packet.as_slice()) {
                        Ok(xpacket) => xpacket,
                        Err(e) => {
                            return Err(ContainerError::XPacketParse(e));
                        },
                    };
                    proof {
                        let range = file.span().unwrap();
                        let (body_start, body_end) = split_offsets_of(packet@).unwrap();
                        crate::xpacket::lemma_parts(packet@, body_start, body_end);
                        assert(xpacket.body@ =~= self.bytes().subrange(
                            range.start + body_start,
                            range.start + body_end,
                        ));
                    }
                    match XmpData::parse(xpacket.body) {
                        Ok(data) => Ok(Some(data)),
                        Err(e) => Err(ContainerError::XmpParse(e)),
                    }
                },
                None => Ok(None),
            },
        }
    }

    /// Prepares the bytes that hold the markup of `events` and can be
    /// written into the host: the markup itself for a file that is markup,
    /// and for a file that embeds a packet the new body of the packet, as
    /// long as the body that the packet has, so that `write` takes it.
    pub fn prepare_write(&self, events: &Vec<MarkupEvent>) -> (r: Result<
        Vec<u8>,
        ContainerRewriteError,
    >)
        ensures
            is_prepared(r, self.prepared(events_view(events@))),
            self.kind() == ContainerKind::XPacket && r.is_ok() ==> (self.body() matches Some(span)
                && r.unwrap()@.len() == span.1 - span.0),
    {
        match &self.data {
            ContainerData::Xmp(_) => emit_indented(events),
            ContainerData::XPacket(file) => match file.read_packet_bytes() {
                Some(packet) => prepare_packet(packet, events),
                None => Err(ContainerRewriteError::MissingXPacket),
            },
        }
    }

    /// Where the body of the packet lies in the host, where the host
    /// embeds a packet that can be split into its parts.
    pub open spec fn body(self) -> Option<(int, int)> {
        match self.span() {
            Some(range) => body_span(self.bytes(), range),
            None => None,
        }
    }

    /// Puts prepared bytes into the host. They replace a file that is
    /// markup as a whole. In a file that embeds a packet they take the
    /// place of the packet's body, and must be as long as that body; no
    /// byte outside the body changes.
    pub fn write(&mut self, packet: &[u8]) -> (r: Result<(), ContainerWriteError>)
        ensures
            final(self).kind() == old(self).kind(),
            final(self).span() == old(self).span(),
            old(self).kind() == ContainerKind::Xmp ==> r.is_ok() && final(self).bytes() == packet@,
            old(self).kind() == ContainerKind::XPacket ==> match old(self).body() {
                None => r == Err::<(), ContainerWriteError>(ContainerWriteError::MissingXPacket)
                    && final(self).bytes() == old(self).bytes(),
                Some(span) => if packet@.len() == span.1 - span.0 {
                    r.is_ok() && final(self).bytes() == with_body(old(self).bytes(), span, packet@)
                } else {
                    r == Err::<(), ContainerWriteError>(ContainerWriteError::NotEnoughSpace)
                        && final(self).bytes() == old(self).bytes()
                },
            },
    {
        match &mut self.data {
            ContainerData::Xmp(bytes) => {
                *bytes = vstd::slice::slice_to_vec(packet);
                Ok(())
            },
            ContainerData::XPacket(file) => match file.write_packet_bytes(packet) {
                Ok(()) => Ok(()),
                Err(e) => Err(ContainerWriteError::from(e)),
            },
        }
    }

    /// Gives back the bytes of the host.
    pub fn into_inner(self) -> (r: Vec<u8>)
        ensures
            r@ == self.bytes(),
    {
        match self.data {
            ContainerData::Xmp(bytes) => bytes,
            ContainerData::XPacket(file) => file.into_inner().0,
        }
    }
}

} // verus!
