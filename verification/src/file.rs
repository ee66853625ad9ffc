//! Finding the metadata packet inside a host file.
//!
//! The search reads the host through a window of fixed size and never skips
//! a byte between two windows, so a marker that lies across two reads is
//! still found. `scan_window` is the decision taken on one window; a caller
//! that reads the host piece by piece drives it with its own reads, and
//! `ByteStream` drives it over bytes held in memory.

use vstd::prelude::*;
use vstd::slice::slice_subrange;

use crate::bytes::{
    absent_from, ascii_bytes, find_byte, first_index_of, first_occurrence, lemma_first_index_of,
    literal_bytes, matches_at, occurs_at,
};
use crate::xpacket::{split_offsets, split_offsets_of};

verus! {

/// The literal that opens a packet.
pub open spec fn begin_marker() -> Seq<u8> {
    ascii_bytes("<?xpacket begin="@)
}

/// The literal that opens a packet's trailer, up to its attribute's name.
pub open spec fn end_marker_prefix() -> Seq<u8> {
    ascii_bytes("<?xpacket end"@)
}

/// The two bytes that close a processing instruction.
pub open spec fn closing_sequence() -> Seq<u8> {
    ascii_bytes("?>"@)
}

/// The bytes of the begin marker.
pub fn begin_marker_bytes() -> (r: &'static [u8])
    ensures
        r@ == begin_marker(),
        r@.len() == 16,
{
    proof {
        reveal_strlit("<?xpacket begin=");
    }
    literal_bytes("<?xpacket begin=")
}

/// The bytes with which an end marker starts.
pub fn end_marker_prefix_bytes() -> (r: &'static [u8])
    ensures
        r@ == end_marker_prefix(),
        r@.len() == 13,
{
    proof {
        reveal_strlit("<?xpacket end");
    }
    literal_bytes("<?xpacket end")
}

/// The bytes of the closing sequence.
pub fn closing_sequence_bytes() -> (r: &'static [u8])
    ensures
        r@ == closing_sequence(),
        r@.len() == 2,
{
    proof {
        reveal_strlit("?>");
    }
    literal_bytes("?>")
}

/// What the scanner decides after it has looked at one window.
#[derive(Clone, Copy, Debug, PartialEq, Eq, Structural)]
pub enum ScanStep {
    /// The needle starts at this offset of the host.
    Found(usize),
    /// The needle starts nowhere before this offset: read the next window
    /// from there.
    Resume(usize),
}

/// The decision on a window that was read at offset `at` of the host.
///
/// Only the first byte of the window that equals the needle's first byte is
/// looked at. With no such byte the whole window is passed over. Where the
/// needle would fit behind that byte it is compared: a match is the result,
/// a mismatch moves the search one byte past it. Where it would not fit the
/// search resumes at that byte, so that the next window holds it whole.
pub open spec fn scan_step(needle: Seq<u8>, window: Seq<u8>, at: int) -> ScanStep
    recommends
        needle.len() > 0,
{
    let idx = first_index_of(window, needle[0], 0);
    if idx >= window.len() {
        ScanStep::Resume((at + window.len()) as usize)
    } else if idx + needle.len() <= window.len() {
        if occurs_at(window, needle, idx) {
            ScanStep::Found((at + idx) as usize)
        } else {
            ScanStep::Resume((at + idx + 1) as usize)
        }
    } else {
        ScanStep::Resume((at + idx) as usize)
    }
}

/// Looks for `needle` in one window, read at offset `at` of the host.
pub fn scan_window(needle: &[u8], window: &[u8], at: usize) -> (r: ScanStep)
    requires
        needle@.len() > 0,
        at + window@.len() <= usize::MAX,
    ensures
        r == scan_step(needle@, window@, at as int),
{
    proof {
        lemma_first_index_of(window@, needle@[0], 0);
    }
    match find_byte(needle[0], window) {
        None => ScanStep::Resume(at + window.len()),
        Some(idx) => {
            let left = window.len() - idx;
            if left >= needle.len() {
                if matches_at(window, needle, idx) {
                    ScanStep::Found(at + idx)
                } else {
                    ScanStep::Resume(at + idx + 1)
                }
            } else {
                ScanStep::Resume(at + idx)
            }
        },
    }
}

/// The window that a search for a needle of `needle_len` bytes reads when
/// it is asked for one of `window` bytes: never smaller than the needle.
pub open spec fn window_len(needle_len: int, window: int) -> int {
    if window < needle_len {
        needle_len
    } else {
        window
    }
}

/// The outcome of a search that starts at offset `pos` and reads windows of
/// `window` bytes: each window is decided by `scan_step`, and the search
/// gives up where a whole window can no longer be read.
pub open spec fn scan_from(data: Seq<u8>, needle: Seq<u8>, window: int, pos: int) -> Option<int>
    decreases data.len() - pos,
{
    if pos < 0 || needle.len() == 0 || window < needle.len() || pos + window > data.len() {
        None
    } else {
        match scan_step(needle, data.subrange(pos, pos + window), pos) {
            ScanStep::Found(at) => Some(at as int),
            ScanStep::Resume(next) => if pos < next <= data.len() {
                scan_from(data, needle, window, next as int)
            } else {
                None
            },
        }
    }
}

/// Each step moves forward, stays within its window, and passes over no
/// occurrence of the needle.
pub proof fn lemma_scan_step(data: Seq<u8>, needle: Seq<u8>, window: int, pos: int)
    requires
        0 < needle.len() <= window,
        0 <= pos,
        pos + window <= data.len(),
        data.len() <= usize::MAX,
    ensures
        match scan_step(needle, data.subrange(pos, pos + window), pos) {
            ScanStep::Found(at) => first_occurrence(data, needle, pos, at as int),
            ScanStep::Resume(next) => pos < next <= pos + window && forall|k: int|
                pos <= k < next ==> !occurs_at(data, needle, k),
        },
{
    let win = data.subrange(pos, pos + window);
    let idx = first_index_of(win, needle[0], 0);
    lemma_first_index_of(win, needle[0], 0);
    assert forall|k: int| pos <= k < pos + idx implies !occurs_at(data, needle, k) by {
        assert(win[k - pos] == data[k]);
        if occurs_at(data, needle, k) {
            assert(data.subrange(k, k + needle.len())[0] == data[k]);
        }
    }
    if idx < window && idx + needle.len() <= window {
        assert(win.subrange(idx, idx + needle.len()) =~= data.subrange(
            pos + idx,
            pos + idx + needle.len(),
        ));
    }
}

/// A search finds the first occurrence of the needle behind its start. It
/// gives up only where no occurrence has a whole window's room behind it.
pub proof fn lemma_scan_finds_first(data: Seq<u8>, needle: Seq<u8>, window: int, pos: int)
    requires
        0 < needle.len() <= window,
        0 <= pos <= data.len(),
        data.len() <= usize::MAX,
    ensures
        match scan_from(data, needle, window, pos) {
            Some(at) => first_occurrence(data, needle, pos, at),
            None => forall|k: int|
                pos <= k && occurs_at(data, needle, k) ==> k + window > data.len(),
        },
    decreases data.len() - pos,
{
    if pos + window <= data.len() {
        lemma_scan_step(data, needle, window, pos);
        match scan_step(needle, data.subrange(pos, pos + window), pos) {
            ScanStep::Found(at) => {},
            ScanStep::Resume(next) => {
                lemma_scan_finds_first(data, needle, window, next as int);
            },
        }
    }
}

/// With a window as long as the needle, a search that gives up has passed
/// over the whole host: the needle does not occur behind its start.
pub proof fn lemma_scan_exact(data: Seq<u8>, needle: Seq<u8>, pos: int)
    requires
        0 < needle.len(),
        0 <= pos <= data.len(),
        data.len() <= usize::MAX,
    ensures
        match scan_from(data, needle, needle.len() as int, pos) {
            Some(at) => first_occurrence(data, needle, pos, at),
            None => absent_from(data, needle, pos),
        },
{
    lemma_scan_finds_first(data, needle, needle.len() as int, pos);
}

/// Host bytes held in memory, with a reading position.
pub struct ByteStream<'a> {
    data: &'a [u8],
    pos: usize,
}

impl<'a> ByteStream<'a> {
    #[verifier::type_invariant]
    spec fn in_bounds(self) -> bool {
        self.pos <= self.data@.len()
    }

    /// The bytes of the host.
    pub closed spec fn bytes(self) -> Seq<u8> {
        self.data@
    }

    /// The reading position.
    pub closed spec fn offset(self) -> int {
        self.pos as int
    }

    /// A stream over `data`, positioned at its start.
    pub fn new(data: &'a [u8]) -> (r: Self)
        ensures
            r.bytes() == data@,
            r.offset() == 0,
    {
        ByteStream { data, pos: 0 }
    }

    /// The reading position.
    pub fn position(&self) -> (r: usize)
        ensures
            r == self.offset(),
            r <= self.bytes().len(),
    {
        proof {
            use_type_invariant(self);
        }
        self.pos
    }

    /// Searches for `needle` from the reading position on, through a window
    /// of `window` bytes (of the needle's length, where `window` is
    /// smaller). On success the stream is left at the needle's start, else
    /// at the end of the host.
    pub fn find_windowed(&mut self, needle: &[u8], window: usize) -> (r: Option<usize>)
        requires
            needle@.len() > 0,
        ensures
            final(self).bytes() == old(self).bytes(),
            match r {
                Some(at) => scan_from(
                    old(self).bytes(),
                    needle@,
                    window_len(needle@.len() as int, window as int),
                    old(self).offset(),
                ) == Some(at as int) && final(self).offset() == at,
                None => scan_from(
                    old(self).bytes(),
                    needle@,
                    window_len(needle@.len() as int, window as int),
                    old(self).offset(),
                ) is None && final(self).offset() == old(self).bytes().len(),
            },
            r matches Some(at) ==> first_occurrence(
                old(self).bytes(),
                needle@,
                old(self).offset(),
                at as int,
            ),
            r is None ==> forall|k: int|
                old(self).offset() <= k && occurs_at(old(self).bytes(), needle@, k) ==> k
                    + window_len(needle@.len() as int, window as int) > old(self).bytes().len(),
            old(self).bytes().len() <= usize::MAX,
    {
        let total = self.data.len();
        proof {
            use_type_invariant(&*self);
            lemma_scan_finds_first(
                self.data@,
                needle@,
                window_len(needle@.len() as int, window as int),
                self.pos as int,
            );
        }
        let width: usize = if window < needle.len() {
            needle.len()
        } else {
            window
        };
        let ghost start = self.pos as int;
        loop
            invariant
                needle@.len() > 0,
                start == old(self).pos,
                total == self.data@.len(),
                width == window_len(needle@.len() as int, window as int),
                self.data == old(self).data,
                self.pos <= self.data@.len(),
                match scan_from(self.data@, needle@, width as int, start) {
                    Some(at) => first_occurrence(self.data@, needle@, start, at),
                    None => forall|k: int|
                        start <= k && occurs_at(self.data@, needle@, k) ==> k + width
                            > self.data@.len(),
                },
                scan_from(self.data@, needle@, width as int, self.pos as int) == scan_from(
                    self.data@,
                    needle@,
                    width as int,
                    start,
                ),
            decreases self.data@.len() - self.pos,
        {
            if self.data.len() - self.pos < width {
                self.pos = self.data.len();
                return None;
            }
            let window_bytes = slice_subrange(self.data, self.pos, self.pos + width);
            proof {
                lemma_scan_step(self.data@, needle@, width as int, self.pos as int);
            }
            match scan_window(needle, window_bytes, self.pos) {
                ScanStep::Found(at) => {
                    self.pos = at;
                    return Some(at);
                },
                ScanStep::Resume(next) => {
                    self.pos = next;
                },
            }
        }
    }

    /// Searches for the first occurrence of `needle` from the reading
    /// position on. On success the stream is left at the needle's start,
    /// else at the end of the host.
    pub fn find(&mut self, needle: &[u8]) -> (r: Option<usize>)
        requires
            needle@.len() > 0,
        ensures
            final(self).bytes() == old(self).bytes(),
            match r {
                Some(at) => first_occurrence(
                    old(self).bytes(),
                    needle@,
                    old(self).offset(),
                    at as int,
                ) && final(self).offset() == at,
                None => absent_from(old(self).bytes(), needle@, old(self).offset())
                    && final(self).offset() == old(self).bytes().len(),
            },
            old(self).bytes().len() <= usize::MAX,
    {
        self.find_windowed(needle, needle.len())
    }
}

/// A range of offsets into a host, the end not included.
#[derive(Clone, Copy, Debug, PartialEq, Eq, Structural)]
pub struct ByteRange {
    pub start: usize,
    pub end: usize,
}

/// `[start, end)` is the packet of `bytes`: it starts at the first begin
/// marker, and ends behind the first closing sequence that follows the
/// first end marker behind that.
pub open spec fn is_packet_span(bytes: Seq<u8>, start: int, end: int) -> bool {
    exists|mid: int|
        {
            &&& first_occurrence(bytes, begin_marker(), 0, start)
            &&& #[trigger] first_occurrence(bytes, end_marker_prefix(), start, mid)
            &&& first_occurrence(bytes, closing_sequence(), mid, end - 2)
        }
}

/// `bytes` holds no packet: a begin marker, an end marker behind it, or a
/// closing sequence behind that is missing.
pub open spec fn has_no_packet(bytes: Seq<u8>) -> bool {
    ||| absent_from(bytes, begin_marker(), 0)
    ||| exists|start: int|
        {
            &&& #[trigger] first_occurrence(bytes, begin_marker(), 0, start)
            &&& absent_from(bytes, end_marker_prefix(), start)
        }
    ||| exists|start: int, mid: int|
        {
            &&& #[trigger] first_occurrence(bytes, begin_marker(), 0, start)
            &&& #[trigger] first_occurrence(bytes, end_marker_prefix(), start, mid)
            &&& absent_from(bytes, closing_sequence(), mid)
        }
}

/// A packet begins with the begin marker and ends with the closing
/// sequence, and lies within the host.
pub proof fn lemma_packet_span(bytes: Seq<u8>, start: int, end: int)
    requires
        is_packet_span(bytes, start, end),
    ensures
        0 <= start,
        start + 16 + 13 + 2 <= end <= bytes.len(),
        bytes.subrange(start, start + 16) == begin_marker(),
        bytes.subrange(end - 2, end) == closing_sequence(),
{
    let mid = choose|mid: int|
        {
            &&& first_occurrence(bytes, begin_marker(), 0, start)
            &&& #[trigger] first_occurrence(bytes, end_marker_prefix(), start, mid)
            &&& first_occurrence(bytes, closing_sequence(), mid, end - 2)
        };
    lemma_markers_differ();
    assert(start + 16 <= mid) by {
        lemma_no_end_marker_in_begin_marker(bytes, start, mid);
    }
    assert(mid + 13 <= end - 2) by {
        lemma_no_closing_in_end_marker(bytes, mid, end - 2);
    }
}

/// How far the search for a packet has come. The search looks for three
/// markers, one behind the other; whoever reads the host looks for the
/// marker of the state, from where the last one was found, and tells the
/// state what was found.
#[derive(Clone, Copy, Debug, PartialEq, Eq, Structural)]
pub enum Search {
    /// The begin marker is looked for, from the start of the host.
    Begin,
    /// The packet starts at `start`; the end marker is looked for.
    End { start: usize },
    /// The end marker was found; the closing sequence is looked for.
    Close { start: usize },
    /// The search is over: the range of the packet, where there is one.
    Over(Option<ByteRange>),
}

impl Search {
    /// The marker that is looked for; none where the search is over.
    pub open spec fn marker(self) -> Option<Seq<u8>> {
        match self {
            Search::Begin => Some(begin_marker()),
            Search::End { .. } => Some(end_marker_prefix()),
            Search::Close { .. } => Some(closing_sequence()),
            Search::Over(_) => None,
        }
    }

    /// The state behind a search for the marker: `found` is the offset at
    /// which the marker starts, or nothing where the host holds none
    /// behind the last marker. The packet ends behind the two bytes of the
    /// closing sequence.
    pub open spec fn behind(self, found: Option<usize>) -> Search {
        match (self, found) {
            (Search::Over(range), _) => Search::Over(range),
            (_, None) => Search::Over(None),
            (Search::Begin, Some(at)) => Search::End { start: at },
            (Search::End { start }, Some(_)) => Search::Close { start },
            (Search::Close { start }, Some(at)) => if at + 2 <= usize::MAX {
                Search::Over(Some(ByteRange { start, end: (at + 2) as usize }))
            } else {
                Search::Over(None)
            },
        }
    }

    /// How many markers are still to be found.
    pub open spec fn markers_left(self) -> nat {
        match self {
            Search::Begin => 3,
            Search::End { .. } => 2,
            Search::Close { .. } => 1,
            Search::Over(_) => 0,
        }
    }

    /// The bytes of the marker that is looked for.
    pub fn needle(&self) -> (r: Option<&'static [u8]>)
        ensures
            match r {
                Some(needle) => self.marker() == Some(needle@) && needle@.len() > 0,
                None => self.marker().is_none(),
            },
    {
        match self {
            Search::Begin => Some(begin_marker_bytes()),
            Search::End { .. } => Some(end_marker_prefix_bytes()),
            Search::Close { .. } => Some(closing_sequence_bytes()),
            Search::Over(_) => None,
        }
    }

    /// Takes what a search for the marker has found.
    pub fn next(self, found: Option<usize>) -> (r: Search)
        ensures
            r == self.behind(found),
            self.markers_left() > 0 ==> r.markers_left() < self.markers_left(),
    {
        match (self, found) {
            (Search::Over(range), _) => Search::Over(range),
            (_, None) => Search::Over(None),
            (Search::Begin, Some(at)) => Search::End { start: at },
            (Search::End { start }, Some(_)) => Search::Close { start },
            (Search::Close { start }, Some(at)) => if at <= usize::MAX - 2 {
                Search::Over(Some(ByteRange { start, end: at + 2 }))
            } else {
                Search::Over(None)
            },
        }
    }

    /// What a search knows of the host `data` when it has read up to
    /// `offset`.
    pub open spec fn stands(self, data: Seq<u8>, offset: int) -> bool {
        match self {
            Search::Begin => offset == 0,
            Search::End { start } => offset == start && first_occurrence(
                data,
                begin_marker(),
                0,
                start as int,
            ),
            Search::Close { start } => first_occurrence(data, begin_marker(), 0, start as int)
                && first_occurrence(data, end_marker_prefix(), start as int, offset),
            Search::Over(Some(range)) => is_packet_span(
                data,
                range.start as int,
                range.end as int,
            ),
            Search::Over(None) => has_no_packet(data),
        }
    }
}

/// A search that is told what the first occurrence of its marker is, from
/// where the last marker was found, goes on knowing what it should.
pub proof fn lemma_search_goes_on(search: Search, data: Seq<u8>, offset: int, found: Option<usize>)
    requires
        data.len() <= usize::MAX,
        search.stands(data, offset),
        search.marker() matches Some(marker) && match found {
            Some(at) => first_occurrence(data, marker, offset, at as int),
            None => absent_from(data, marker, offset),
        },
    ensures
        search.behind(found).stands(
            data,
            match found {
                Some(at) => at as int,
                None => data.len() as int,
            },
        ),
{
    lemma_markers_differ();
    match (search, found) {
        (Search::Close { start }, Some(at)) => {
            assert(first_occurrence(data, end_marker_prefix(), start as int, offset));
            assert(is_packet_span(data, start as int, at + 2));
        },
        (Search::End { start }, None) => {
            assert(first_occurrence(data, begin_marker(), 0, start as int));
        },
        (Search::Close { start }, None) => {
            assert(first_occurrence(data, end_marker_prefix(), start as int, offset));
        },
        _ => {},
    }
}

/// Finds the packet of a host.
pub fn locate(data: &[u8]) -> (r: Option<ByteRange>)
    ensures
        match r {
            Some(range) => {
                &&& is_packet_span(data@, range.start as int, range.end as int)
                &&& range.start + 16 <= range.end <= data@.len()
                &&& data@.subrange(range.start as int, range.start + 16) == begin_marker()
                &&& data@.subrange(range.end - 2, range.end as int) == closing_sequence()
            },
            None => has_no_packet(data@),
        },
{
    let mut stream = ByteStream::new(data);
    let mut search = Search::Begin;
    loop
        invariant
            stream.bytes() == data@,
            search.stands(data@, stream.offset()),
        decreases search.markers_left(),
    {
        let needle = match search.needle() {
            Some(needle) => needle,
            None => {
                return match search {
                    Search::Over(Some(range)) => {
                        proof {
                            lemma_packet_span(data@, range.start as int, range.end as int);
                        }
                        Some(range)
                    },
                    _ => None,
                };
            },
        };
        let ghost offset = stream.offset();
        let found = stream.find(needle);
        proof {
            lemma_search_goes_on(search, data@, offset, found);
        }
        search = search.next(found);
    }
}

/// Why a body could not be written into the packet of a host.
#[derive(Clone, Copy, Debug, PartialEq, Eq, Structural)]
pub enum WritePacketError {
    /// The host holds no packet, or one without a body.
    NoPacket,
    /// The new body is not as long as the one that the packet holds.
    WrongPacketSize,
}

impl WritePacketError {
    /// The error in words.
    pub fn message(&self) -> (r: &'static str)
        ensures
            r@ == match *self {
                WritePacketError::NoPacket => "no packet in this file"@,
                WritePacketError::WrongPacketSize =>
                    "packet size does not match physical packet size"@,
            },
    {
        match self {
            WritePacketError::NoPacket => "no packet in this file",
            WritePacketError::WrongPacketSize => "packet size does not match physical packet size",
        }
    }
}

/// Where in `host` the body lies of the packet that stands in `range`: the
/// offset of its first byte, and the offset behind its last. There is none
/// where what stands in `range` cannot be split into the parts of a packet.
pub open spec fn body_span(host: Seq<u8>, range: ByteRange) -> Option<(int, int)> {
    match split_offsets_of(host.subrange(range.start as int, range.end as int)) {
        Ok((body_start, body_end)) => Some((range.start + body_start, range.start + body_end)),
        Err(_) => None,
    }
}

/// `host` with `body` in place of the bytes from `span.0` up to `span.1`.
pub open spec fn with_body(host: Seq<u8>, span: (int, int), body: Seq<u8>) -> Seq<u8> {
    host.subrange(0, span.0) + body + host.subrange(span.1, host.len() as int)
}

/// Writing a body of the right length changes the body alone: the host
/// keeps its length, holds the new body where the old one stood, and holds
/// before and behind it what it held.
pub proof fn lemma_body_alone_is_written(host: Seq<u8>, span: (int, int), body: Seq<u8>)
    requires
        0 <= span.0 <= span.1 <= host.len(),
        body.len() == span.1 - span.0,
    ensures
        with_body(host, span, body).len() == host.len(),
        with_body(host, span, body).subrange(0, span.0) == host.subrange(0, span.0),
        with_body(host, span, body).subrange(span.0, span.1) == body,
        with_body(host, span, body).subrange(span.1, host.len() as int) == host.subrange(
            span.1,
            host.len() as int,
        ),
{
    let written = with_body(host, span, body);
    assert(written.subrange(0, span.0) =~= host.subrange(0, span.0));
    assert(written.subrange(span.0, span.1) =~= body);
    assert(written.subrange(span.1, host.len() as int) =~= host.subrange(
        span.1,
        host.len() as int,
    ));
}

/// The bytes of a host, and where its packet lies in them.
#[derive(Debug)]
pub struct XPacketFile {
    bytes: Vec<u8>,
    span: Option<ByteRange>,
}

impl XPacketFile {
    #[verifier::type_invariant]
    spec fn in_bounds(self) -> bool {
        self.span matches Some(range) ==> range.start <= range.end <= self.bytes@.len()
    }

    /// The bytes of the host.
    pub closed spec fn bytes(self) -> Seq<u8> {
        self.bytes@
    }

    /// The range of the packet, where the host holds one.
    pub closed spec fn span(self) -> Option<ByteRange> {
        self.span
    }

    /// Takes the bytes of a host and finds its packet.
    pub fn open(bytes: Vec<u8>) -> (r: Self)
        ensures
            r.bytes() == bytes@,
            match r.span() {
                Some(range) => is_packet_span(bytes@, range.start as int, range.end as int),
                None => has_no_packet(bytes@),
            },
    {
        let span = locate(bytes.as_slice());
        XPacketFile { bytes, span }
    }

    /// Gives back the bytes of the host and the range of its packet.
    pub fn into_inner(self) -> (r: (Vec<u8>, Option<ByteRange>))
        ensures
            r.0@ == self.bytes(),
            r.1 == self.span(),
            r.1 matches Some(range) ==> range.start <= range.end <= r.0@.len(),
    {
        proof {
            use_type_invariant(&self);
        }
        (self.bytes, self.span)
    }

    /// The bytes of the host.
    pub fn file(&self) -> (r: &Vec<u8>)
        ensures
            r@ == self.bytes(),
    {
        &self.bytes
    }

    /// A copy of the bytes of the packet, where the host holds one.
    pub fn read_packet_bytes(&self) -> (r: Option<Vec<u8>>)
        ensures
            match (r, self.span()) {
                (Some(packet), Some(range)) => range.start <= range.end <= self.bytes().len()
                    && packet@ == self.bytes().subrange(range.start as int, range.end as int),
                (None, None) => true,
                _ => false,
            },
    {
        proof {
            use_type_invariant(self);
        }
        match self.span {
            Some(range) => {
                let packet = slice_subrange(self.bytes.as_slice(), range.start, range.end);
                Some(vstd::slice::slice_to_vec(packet))
            },
            None => None,
        }
    }

    /// The range of the body of the packet, where the host holds a packet
    /// that can be split into its parts.
    pub fn body_range(&self) -> (r: Option<ByteRange>)
        ensures
            match r {
                Some(body) => {
                    &&& self.span() matches Some(range)
                    &&& body_span(self.bytes(), range) == Some((body.start as int, body.end as int))
                    &&& range.start < body.start <= body.end < range.end <= self.bytes().len()
                },
                None => self.span() matches Some(range) ==> body_span(self.bytes(), range).is_none(),
            },
    {
        proof {
            use_type_invariant(self);
        }
        let range = match self.span {
            Some(range) => range,
            None => {
                return None;
            },
        };
        let packet = slice_subrange(self.bytes.as_slice(), range.start, range.end);
        match split_offsets(packet) {
            Ok((body_start, body_end)) => Some(
                ByteRange { start: range.start + body_start, end: range.start + body_end },
            ),
            Err(_) => None,
        }
    }

    /// Puts a body in the place of the body of the packet that the host
    /// holds. It must be as long as that one; no other byte of the host
    /// changes, so header and footer of the packet stay as they were.
    pub fn write_packet_bytes(&mut self, new_bytes: &[u8]) -> (r: Result<(), WritePacketError>)
        ensures
            final(self).span() == old(self).span(),
            match old(self).span() {
                None => r == Err::<(), WritePacketError>(WritePacketError::NoPacket)
                    && final(self).bytes() == old(self).bytes(),
                Some(range) => match body_span(old(self).bytes(), range) {
                    None => r == Err::<(), WritePacketError>(WritePacketError::NoPacket)
                        && final(self).bytes() == old(self).bytes(),
                    Some(span) => if new_bytes@.len() == span.1 - span.0 {
                        r.is_ok() && final(self).bytes() == with_body(
                            old(self).bytes(),
                            span,
                            new_bytes@,
                        )
                    } else {
                        r == Err::<(), WritePacketError>(WritePacketError::WrongPacketSize)
                            && final(self).bytes() == old(self).bytes()
                    },
                },
            },
    {
        proof {
            use_type_invariant(&*self);
        }
        let body = match self.body_range() {
            Some(body) => body,
            None => {
                return Err(WritePacketError::NoPacket);
            },
        };
        if body.end - body.start != new_bytes.len() {
            return Err(WritePacketError::WrongPacketSize);
        }
        let total = self.bytes.len();
        let ghost before = self.bytes@;
        let ghost span = (body.start as int, body.end as int);
        let mut written: Vec<u8> = Vec::with_capacity(total);
        let mut i: usize = 0;
        while i < total
            invariant
                i <= total,
                total == before.len(),
                self.bytes@ == before,
                body.start <= body.end <= total,
                span == (body.start as int, body.end as int),
                new_bytes@.len() == body.end - body.start,
                written@.len() == i,
                forall|k: int| 0 <= k < i ==> written@[k] == with_body(before, span, new_bytes@)[k],
            decreases total - i,
        {
            let byte: u8 = if i < body.start || i >= body.end {
                self.bytes[i]
            } else {
                new_bytes[i - body.start]
            };
            written.push(byte);
            i += 1;
        }
        assert(written@ =~= with_body(before, span, new_bytes@));
        self.bytes = written;
        Ok(())
    }
}

/// The two markers part at their eleventh byte.
proof fn lemma_markers_differ()
    ensures
        begin_marker().len() == 16,
        end_marker_prefix().len() == 13,
        closing_sequence().len() == 2,
        begin_marker()[10] == 0x62,
        end_marker_prefix()[10] == 0x65,
{
    reveal_strlit("<?xpacket begin=");
    reveal_strlit("<?xpacket end");
    reveal_strlit("?>");
}

/// No end marker starts inside a begin marker.
proof fn lemma_no_end_marker_in_begin_marker(data: Seq<u8>, start: int, mid: int)
    requires
        occurs_at(data, begin_marker(), start),
        occurs_at(data, end_marker_prefix(), mid),
        start <= mid,
    ensures
        start + 16 <= mid,
{
    reveal_strlit("<?xpacket begin=");
    reveal_strlit("<?xpacket end");
    let begin = data.subrange(start, start + 16);
    let end = data.subrange(mid, mid + 13);
    if mid < start + 16 {
        assert(end[0] == data[mid]);
        assert(begin[mid - start] == data[mid]);
        assert(end[0] == 0x3c);
        if mid == start {
            assert(end[10] == data[mid + 10]);
            assert(begin[10] == data[start + 10]);
        }
    }
}

/// No closing sequence starts inside an end marker.
proof fn lemma_no_closing_in_end_marker(data: Seq<u8>, mid: int, close: int)
    requires
        occurs_at(data, end_marker_prefix(), mid),
        occurs_at(data, closing_sequence(), close),
        mid <= close,
    ensures
        mid + 13 <= close,
{
    reveal_strlit("<?xpacket end");
    reveal_strlit("?>");
    let marker = data.subrange(mid, mid + 13);
    let closing = data.subrange(close, close + 2);
    if close < mid + 13 {
        assert(closing[0] == data[close]);
        assert(closing[1] == data[close + 1]);
        assert(closing[1] == 0x3e);
        assert(closing[0] == 0x3f);
        if close + 1 < mid + 13 {
            assert(marker[close + 1 - mid] == data[close + 1]);
        } else {
            assert(marker[close - mid] == data[close]);
        }
    }
}

} // verus!
