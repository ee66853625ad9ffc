//! Splitting a packet's bytes into header, body and footer.
//!
//! The header runs from the begin marker to the first `>`, that byte
//! included. The footer begins at the first end marker. The body is what lies
//! between the two, and is the only part that is ever written.

use vstd::prelude::*;
use vstd::slice::slice_subrange;

use crate::bytes::{
    ascii_bytes, find_byte, find_bytes, first_index_of, lemma_first_index_of, literal_bytes, occurs_at, starts_with,
};
use crate::file::{begin_marker, begin_marker_bytes};

verus! {

/// Why bytes could not be split into the parts of a packet.
#[derive(Clone, Copy, Debug, PartialEq, Eq, Structural)]
pub enum XPacketParseError {
    MissingHeader,
    MissingFooter,
    MissingHeaderBoundary,
    /// Kept for a way of finding the footer that could miss its boundary;
    /// the present one cannot, and never returns it.
    MissingFooterBoundary,
}

impl XPacketParseError {
    /// The error in words.
    pub fn message(&self) -> (r: &'static str)
        ensures
            r@ == match *self {
                XPacketParseError::MissingHeader => "missing xpacket header"@,
                XPacketParseError::MissingFooter => "missing xpacket footer"@,
                XPacketParseError::MissingHeaderBoundary => "missing xpacket header boundary"@,
                XPacketParseError::MissingFooterBoundary => "missing xpacket footer boundary"@,
            },
    {
        match self {
            XPacketParseError::MissingHeader => "missing xpacket header",
            XPacketParseError::MissingFooter => "missing xpacket footer",
            XPacketParseError::MissingHeaderBoundary => "missing xpacket header boundary",
            XPacketParseError::MissingFooterBoundary => "missing xpacket footer boundary",
        }
    }
}

/// The end marker with its attribute in double quotes.
pub open spec fn end_marker_double() -> Seq<u8> {
    ascii_bytes("<?xpacket end=\"w\"?>"@)
}

/// The end marker with its attribute in single quotes.
pub open spec fn end_marker_single() -> Seq<u8> {
    ascii_bytes("<?xpacket end='w'?>"@)
}

/// The bytes of the end marker with double quotes.
pub fn end_marker_double_bytes() -> (r: &'static [u8])
    ensures
        r@ == end_marker_double(),
        r@.len() == 19,
{
    proof {
        reveal_strlit("<?xpacket end=\"w\"?>");
    }
    literal_bytes("<?xpacket end=\"w\"?>")
}

/// The bytes of the end marker with single quotes.
pub fn end_marker_single_bytes() -> (r: &'static [u8])
    ensures
        r@ == end_marker_single(),
        r@.len() == 19,
{
    proof {
        reveal_strlit("<?xpacket end='w'?>");
    }
    literal_bytes("<?xpacket end='w'?>")
}

/// `bytes` without its last byte, where that is a line feed.
pub open spec fn strip_newline(bytes: Seq<u8>) -> Seq<u8> {
    if bytes.len() > 0 && bytes.last() == 0x0a {
        bytes.drop_last()
    } else {
        bytes
    }
}

/// One of the two end markers lies in `bytes` at offset `at`.
pub open spec fn end_marker_at(bytes: Seq<u8>, at: int) -> bool {
    occurs_at(bytes, end_marker_double(), at) || occurs_at(bytes, end_marker_single(), at)
}

/// The smallest offset not below `from` at which an end marker lies, or the
/// length of `bytes` when there is none.
pub open spec fn first_end_marker(bytes: Seq<u8>, from: int) -> int
    decreases bytes.len() - from,
{
    if from < 0 || from >= bytes.len() {
        bytes.len() as int
    } else if end_marker_at(bytes, from) {
        from
    } else {
        first_end_marker(bytes, from + 1)
    }
}

/// `first_end_marker` is the first offset at which an end marker lies.
pub proof fn lemma_first_end_marker(bytes: Seq<u8>, from: int)
    requires
        0 <= from <= bytes.len(),
    ensures
        from <= first_end_marker(bytes, from) <= bytes.len(),
        first_end_marker(bytes, from) < bytes.len() ==> end_marker_at(
            bytes,
            first_end_marker(bytes, from),
        ),
        forall|k: int| from <= k < first_end_marker(bytes, from) ==> !end_marker_at(bytes, k),
        first_end_marker(bytes, from) == bytes.len() ==> forall|k: int|
            from <= k ==> !end_marker_at(bytes, k),
    decreases bytes.len() - from,
{
    reveal_strlit("<?xpacket end=\"w\"?>");
    reveal_strlit("<?xpacket end='w'?>");
    if from < bytes.len() && !end_marker_at(bytes, from) {
        lemma_first_end_marker(bytes, from + 1);
    }
}

/// Where the body of a packet starts and ends, or why it has none.
///
/// A line feed at the very end is set aside first. The bytes must then begin
/// with the begin marker and hold an end marker, and a `>` must close the
/// header before the first end marker.
pub open spec fn split_offsets_of(value: Seq<u8>) -> Result<(int, int), XPacketParseError> {
    let bytes = strip_newline(value);
    let footer = first_end_marker(bytes, 0);
    let boundary = first_index_of(bytes, 0x3e, 0);
    if !occurs_at(bytes, begin_marker(), 0) {
        Err(XPacketParseError::MissingHeader)
    } else if footer >= bytes.len() {
        Err(XPacketParseError::MissingFooter)
    } else if boundary >= footer {
        Err(XPacketParseError::MissingHeaderBoundary)
    } else {
        Ok((boundary + 1, footer))
    }
}

/// The three parts of a packet, as byte sequences.
pub struct PacketView {
    pub header: Seq<u8>,
    pub body: Seq<u8>,
    pub footer: Seq<u8>,
}

/// `value` cut at the two offsets. The footer is the end marker that lies at
/// `body_end`, and no more.
pub open spec fn packet_parts(value: Seq<u8>, body_start: int, body_end: int) -> PacketView {
    PacketView {
        header: value.subrange(0, body_start),
        body: value.subrange(body_start, body_end),
        footer: value.subrange(body_end, body_end + 19),
    }
}

/// What `value` holds behind the footer. It belongs to no part.
pub open spec fn behind_footer(value: Seq<u8>, body_end: int) -> Seq<u8> {
    value.subrange(body_end + 19, value.len() as int)
}

/// `footer` is one of the two end markers.
pub open spec fn is_end_marker(footer: Seq<u8>) -> bool {
    footer == end_marker_double() || footer == end_marker_single()
}

/// The offsets at which the body of a packet starts and ends.
pub fn split_offsets(value: &[u8]) -> (r: Result<(usize, usize), XPacketParseError>)
    ensures
        match r {
            Ok((body_start, body_end)) => {
                &&& split_offsets_of(value@) == Ok::<(int, int), XPacketParseError>(
                    (body_start as int, body_end as int),
                )
                &&& 16 < body_start <= body_end
                &&& body_end + 19 <= value@.len()
            },
            Err(e) => split_offsets_of(value@) == Err::<(int, int), XPacketParseError>(e),
        },
{
    let total = value.len();
    let bytes = if total > 0 && value[total - 1] == 0x0a {
        slice_subrange(value, 0, total - 1)
    } else {
        value
    };
    assert(bytes@ =~= strip_newline(value@));
    if !starts_with(bytes, begin_marker_bytes()) {
        return Err(XPacketParseError::MissingHeader);
    }
    let double = find_bytes(bytes, end_marker_double_bytes());
    let single = find_bytes(bytes, end_marker_single_bytes());
    let body_end = match (double, single) {
        (Some(a), Some(b)) => if a <= b {
            a
        } else {
            b
        },
        (Some(a), None) => a,
        (None, Some(b)) => b,
        (None, None) => {
            proof {
                lemma_first_end_marker(bytes@, 0);
                if first_end_marker(bytes@, 0) < bytes@.len() {
                    assert(end_marker_at(bytes@, first_end_marker(bytes@, 0)));
                }
            }
            return Err(XPacketParseError::MissingFooter);
        },
    };
    proof {
        lemma_first_end_marker(bytes@, 0);
        assert(end_marker_at(bytes@, body_end as int));
        let first = first_end_marker(bytes@, 0);
        assert(first <= body_end) by {
            if first > body_end {
                assert(!end_marker_at(bytes@, body_end as int));
            }
        }
        assert(first == body_end) by {
            if first < body_end {
                assert(end_marker_at(bytes@, first));
            }
        }
        lemma_first_index_of(bytes@, 0x3e, 0);
        lemma_header_is_long(bytes@);
    }
    match find_byte(0x3e, bytes) {
        Some(i) => {
            if i < body_end {
                Ok((i + 1, body_end))
            } else {
                Err(XPacketParseError::MissingHeaderBoundary)
            }
        },
        None => Err(XPacketParseError::MissingHeaderBoundary),
    }
}

/// The begin marker holds no `>`: a header is longer than the marker.
proof fn lemma_header_is_long(bytes: Seq<u8>)
    requires
        occurs_at(bytes, begin_marker(), 0),
    ensures
        first_index_of(bytes, 0x3e, 0) >= 16,
{
    reveal_strlit("<?xpacket begin=");
    lemma_first_index_of(bytes, 0x3e, 0);
    let at = first_index_of(bytes, 0x3e, 0);
    if at < 16 {
        assert(bytes.subrange(0, 16)[at] == bytes[at]);
    }
}

/// A packet, its three parts borrowed from the bytes it was split from.
#[derive(Clone, Copy, Debug)]
pub struct XPacket<'p> {
    pub header: &'p [u8],
    pub body: &'p [u8],
    pub footer: &'p [u8],
}

impl<'p> View for XPacket<'p> {
    type V = PacketView;

    open spec fn view(&self) -> PacketView {
        PacketView { header: self.header@, body: self.body@, footer: self.footer@ }
    }
}

impl<'p> XPacket<'p> {
    /// Splits `value` into the parts of a packet. The three parts, one
    /// behind the other, are `value` up to the end of its first end marker.
    pub fn try_from(value: &'p [u8]) -> (r: Result<XPacket<'p>, XPacketParseError>)
        ensures
            match r {
                Ok(packet) => match split_offsets_of(value@) {
                    Ok((body_start, body_end)) => packet@ == packet_parts(
                        value@,
                        body_start,
                        body_end,
                    ),
                    Err(_) => false,
                },
                Err(e) => split_offsets_of(value@) == Err::<(int, int), XPacketParseError>(e),
            },
            r matches Ok(packet) ==> packet@.header + packet@.body + packet@.footer
                == value@.subrange(0, (packet@.header.len() + packet@.body.len() + 19) as int),
            r matches Ok(packet) ==> occurs_at(packet@.header, begin_marker(), 0)
                && packet@.header.last() == 0x3e && is_end_marker(packet@.footer),
    {
        match split_offsets(value) {
            Ok((body_start, body_end)) => {
                let total = value.len();
                assert(body_end + 19 <= total);
                let packet = XPacket {
                    header: slice_subrange(value, 0, body_start),
                    body: slice_subrange(value, body_start, body_end),
                    footer: slice_subrange(value, body_end, body_end + 19),
                };
                proof {
                    lemma_parts(value@, body_start as int, body_end as int);
                }
                Ok(packet)
            },
            Err(e) => Err(e),
        }
    }
}

/// What holds of the parts that `split_offsets_of` cuts.
pub proof fn lemma_parts(value: Seq<u8>, body_start: int, body_end: int)
    requires
        split_offsets_of(value) == Ok::<(int, int), XPacketParseError>((body_start, body_end)),
    ensures
        0 < body_start <= body_end,
        body_end + 19 <= value.len(),
        packet_parts(value, body_start, body_end).header + packet_parts(
            value,
            body_start,
            body_end,
        ).body + packet_parts(value, body_start, body_end).footer == value.subrange(
            0,
            body_end + 19,
        ),
        packet_parts(value, body_start, body_end).header + packet_parts(
            value,
            body_start,
            body_end,
        ).body + packet_parts(value, body_start, body_end).footer + behind_footer(value, body_end)
            == value,
        occurs_at(packet_parts(value, body_start, body_end).header, begin_marker(), 0),
        packet_parts(value, body_start, body_end).header.last() == 0x3e,
        is_end_marker(packet_parts(value, body_start, body_end).footer),
{
    reveal_strlit("<?xpacket begin=");
    reveal_strlit("<?xpacket end=\"w\"?>");
    reveal_strlit("<?xpacket end='w'?>");
    let bytes = strip_newline(value);
    let parts = packet_parts(value, body_start, body_end);
    lemma_first_end_marker(bytes, 0);
    lemma_first_index_of(bytes, 0x3e, 0);
    lemma_header_is_long(bytes);
    assert(parts.header + parts.body + parts.footer =~= value.subrange(0, body_end + 19));
    assert(parts.header + parts.body + parts.footer + behind_footer(value, body_end) =~= value);
    assert(parts.header.subrange(0, 16) =~= bytes.subrange(0, 16));
    assert(parts.header.last() == bytes[body_start - 1]);
    assert(parts.footer =~= bytes.subrange(body_end, body_end + 19));
}

/// What is written into a body of `budget` bytes to hold `content`: a line
/// feed, the content, spaces up to the last byte, and a line feed.
pub open spec fn padded_body(content: Seq<u8>, budget: int) -> Seq<u8>
    recommends
        content.len() + 2 <= budget,
{
    seq![0x0au8] + content + Seq::new((budget - 2 - content.len()) as nat, |i: int| 0x20u8)
        + seq![0x0au8]
}

/// A padded body fills its budget: it begins and ends with a line feed,
/// holds the content behind the first, and is spaces from there to the
/// last.
pub proof fn lemma_padded_body(content: Seq<u8>, budget: int)
    requires
        content.len() + 2 <= budget,
    ensures
        padded_body(content, budget).len() == budget,
        padded_body(content, budget)[0] == 0x0a,
        padded_body(content, budget)[budget - 1] == 0x0a,
        padded_body(content, budget).subrange(1, 1 + content.len() as int) == content,
        forall|i: int|
            1 + content.len() <= i < budget - 1 ==> padded_body(content, budget)[i] == 0x20,
{
    assert(padded_body(content, budget).subrange(1, 1 + content.len() as int) =~= content);
}

/// A packet that owns its bytes and lets its body be overwritten in place.
/// Header and footer are never written, nor what stands behind the footer,
/// and no part changes its length.
#[derive(Debug)]
pub struct XPacketMut {
    bytes: Vec<u8>,
    body_start: usize,
    body_end: usize,
}

impl View for XPacketMut {
    type V = PacketView;

    closed spec fn view(&self) -> PacketView {
        packet_parts(self.bytes@, self.body_start as int, self.body_end as int)
    }
}

impl XPacketMut {
    #[verifier::type_invariant]
    spec fn in_bounds(self) -> bool {
        self.body_start <= self.body_end && self.body_end + 19 <= self.bytes@.len()
    }

    /// The bytes that the packet keeps behind its footer.
    pub closed spec fn trailer(&self) -> Seq<u8> {
        behind_footer(self.bytes@, self.body_end as int)
    }

    /// Splits `value` into the parts of a packet, and keeps it.
    pub fn try_from(value: Vec<u8>) -> (r: Result<XPacketMut, XPacketParseError>)
        ensures
            match r {
                Ok(packet) => match split_offsets_of(value@) {
                    Ok((body_start, body_end)) => packet@ == packet_parts(
                        value@,
                        body_start,
                        body_end,
                    ) && packet.trailer() == behind_footer(value@, body_end),
                    Err(_) => false,
                },
                Err(e) => split_offsets_of(value@) == Err::<(int, int), XPacketParseError>(e),
            },
            r matches Ok(packet) ==> packet@.header + packet@.body + packet@.footer
                + packet.trailer() == value@,
            r matches Ok(packet) ==> occurs_at(packet@.header, begin_marker(), 0)
                && packet@.header.last() == 0x3e && is_end_marker(packet@.footer),
    {
        match split_offsets(value.as_slice()) {
            Ok((body_start, body_end)) => {
                proof {
                    lemma_parts(value@, body_start as int, body_end as int);
                }
                Ok(XPacketMut { bytes: value, body_start, body_end })
            },
            Err(e) => Err(e),
        }
    }

    /// The header: from the begin marker to the first `>`.
    pub fn header(&self) -> (r: &[u8])
        ensures
            r@ == self@.header,
    {
        proof {
            use_type_invariant(self);
        }
        slice_subrange(self.bytes.as_slice(), 0, self.body_start)
    }

    /// The body: what lies between header and footer.
    pub fn body(&self) -> (r: &[u8])
        ensures
            r@ == self@.body,
    {
        proof {
            use_type_invariant(self);
        }
        slice_subrange(self.bytes.as_slice(), self.body_start, self.body_end)
    }

    /// The footer: the first end marker.
    pub fn footer(&self) -> (r: &[u8])
        ensures
            r@ == self@.footer,
    {
        proof {
            use_type_invariant(self);
        }
        let total = self.bytes.len();
        assert(self.body_end + 19 <= total);
        slice_subrange(self.bytes.as_slice(), self.body_end, self.body_end + 19)
    }

    /// The number of bytes that the body holds.
    pub fn body_len(&self) -> (r: usize)
        ensures
            r == self@.body.len(),
    {
        proof {
            use_type_invariant(self);
        }
        self.body_end - self.body_start
    }

    /// Writes `content` into the body, where the body has room for it and
    /// for a line feed on either side; what is left of the body is filled
    /// with spaces. Where it has not, nothing is written.
    pub fn fit_body(&mut self, content: &[u8]) -> (r: bool)
        ensures
            r == (content@.len() + 2 <= old(self)@.body.len()),
            final(self)@.body.len() == old(self)@.body.len(),
            r ==> final(self)@ == (PacketView {
                body: padded_body(content@, old(self)@.body.len() as int),
                ..old(self)@
            }),
            !r ==> final(self)@ == old(self)@,
            final(self).trailer() == old(self).trailer(),
    {
        proof {
            use_type_invariant(&*self);
        }
        let budget = self.body_end - self.body_start;
        if budget < 2 || content.len() > budget - 2 {
            return false;
        }
        let start = self.body_start;
        let end = self.body_end;
        let total = self.bytes.len();
        let ghost before = self.bytes@;
        let ghost target = padded_body(content@, budget as int);
        let mut written: Vec<u8> = Vec::with_capacity(total);
        let mut i: usize = 0;
        while i < total
            invariant
                i <= total,
                total == before.len(),
                self.bytes@ == before,
                budget == end - start,
                start <= end,
                end + 19 <= total,
                content@.len() + 2 <= budget,
                target == padded_body(content@, budget as int),
                written@.len() == i,
                forall|k: int| 0 <= k < i && k < start ==> written@[k] == before[k],
                forall|k: int| end <= k < i ==> written@[k] == before[k],
                forall|k: int| start <= k < i && k < end ==> written@[k] == target[k - start],
            decreases total - i,
        {
            let byte: u8 = if i < start || i >= end {
                self.bytes[i]
            } else if i == start || i == end - 1 {
                0x0a
            } else if i - start - 1 < content.len() {
                content[i - start - 1]
            } else {
                0x20
            };
            written.push(byte);
            i += 1;
        }
        self.bytes = written;
        proof {
            assert(self@.header =~= before.subrange(0, start as int));
            assert(self@.footer =~= before.subrange(end as int, end + 19));
            assert(self.trailer() =~= behind_footer(before, end as int));
            assert(self@.body =~= target);
            lemma_padded_body(content@, budget as int);
        }
        true
    }

    /// Gives the packet's bytes back: its three parts, one behind the other,
    /// and what stood behind the footer.
    pub fn into_bytes(self) -> (r: Vec<u8>)
        ensures
            r@ == self@.header + self@.body + self@.footer + self.trailer(),
    {
        proof {
            use_type_invariant(&self);
            assert(self.bytes@ =~= self@.header + self@.body + self@.footer + self.trailer());
        }
        self.bytes
    }
}

} // verus!
