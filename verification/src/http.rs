//! The part of HTTP/1.1 that the Upgrade exchange needs: a leading line and an
//! ordered list of name/value pairs, parsed from and written to bytes.

use vstd::prelude::*;
use crate::accept_key::{accept_key, make_accept_key, MAX_KEY_LEN};
use crate::text::{
    ascii, ascii_bytes, has_prefix, push_all, same_bytes, starts_with, string_from_utf8,
};
use crate::transport::Inbound;
use vstd::utf8::{encode_utf8, valid_utf8};

verus! {

/// Carriage return.
pub const CR: u8 = 13;

/// Line feed.
pub const LF: u8 = 10;

/// The space that is trimmed off names and values.
pub const SPACE: u8 = 32;

/// The colon between a name and its value.
pub const COLON: u8 = 58;

/// The most bytes that one read of a header takes from the transport.
pub const READ_SIZE: usize = 512;

/// Whether a line break, CR then LF, begins at index `i`.
pub open spec fn line_ends_at(bytes: Seq<u8>, i: int) -> bool {
    0 <= i && i + 1 < bytes.len() && bytes[i] == CR && bytes[i + 1] == LF
}

/// Where the first line break at or after `from` begins.
pub open spec fn next_line_end(bytes: Seq<u8>, from: int) -> Option<int>
    decreases bytes.len() - from,
{
    if from < 0 || from + 1 >= bytes.len() {
        None
    } else if line_ends_at(bytes, from) {
        Some(from)
    } else {
        next_line_end(bytes, from + 1)
    }
}

/// Where `byte` first occurs in `s` at or after `from`.
pub open spec fn next_index_of(s: Seq<u8>, byte: u8, from: int) -> Option<int>
    decreases s.len() - from,
{
    if from < 0 || from >= s.len() {
        None
    } else if s[from] == byte {
        Some(from)
    } else {
        next_index_of(s, byte, from + 1)
    }
}

/// `x` without the spaces at its start and at its end.
pub open spec fn trimmed(x: Seq<u8>) -> Seq<u8>
    decreases x.len(),
{
    if x.len() > 0 && x.first() == SPACE {
        trimmed(x.drop_first())
    } else if x.len() > 0 && x.last() == SPACE {
        trimmed(x.drop_last())
    } else {
        x
    }
}

/// The name and the value of a header line: what stands before the first
/// colon, and what stands between it and the line's end, both without the
/// spaces around them. A line without a colon has neither.
pub open spec fn parsed_pair(line: Seq<u8>) -> Option<(Seq<u8>, Seq<u8>)> {
    match next_index_of(line, COLON, 0) {
        None => None,
        Some(colon) => Some(
            (
                trimmed(line.subrange(0, colon)),
                trimmed(line.subrange(colon + 1, line.len() as int)),
            ),
        ),
    }
}

/// The pairs of the header lines that begin at `from` and end with an empty line.
pub open spec fn parsed_pairs(bytes: Seq<u8>, from: int) -> Result<
    Seq<(Seq<u8>, Seq<u8>)>,
    InvalidHTTPHeader,
>
    decreases bytes.len() - from,
{
    match next_line_end(bytes, from) {
        None => Err(InvalidHTTPHeader::MissingTrailingNewLine),
        Some(end) => {
            if end == from {
                Ok(Seq::empty())
            } else {
                match parsed_pair(bytes.subrange(from, end)) {
                    None => Err(InvalidHTTPHeader::EOF),
                    Some(pair) => {
                        proof {
                            lemma_next_line_end(bytes, from);
                        }
                        match parsed_pairs(bytes, end + 2) {
                            Ok(rest) => Ok(seq![pair] + rest),
                            Err(e) => Err(e),
                        }
                    },
                }
            }
        },
    }
}

/// The header that `bytes` hold: a leading line, then one line for each pair,
/// then an empty line, each line ended by CR LF. What follows the empty line
/// is not looked at.
pub open spec fn parsed_header(bytes: Seq<u8>) -> Result<HeaderView, InvalidHTTPHeader> {
    match next_line_end(bytes, 0) {
        None => Err(InvalidHTTPHeader::MissingTrailingNewLine),
        Some(end) => match parsed_pairs(bytes, end + 2) {
            Ok(pairs) => Ok(HeaderView { leading_line: bytes.subrange(0, end), pairs }),
            Err(e) => Err(e),
        },
    }
}

/// The pairs `found` before those of `rest`, or the error of `rest`.
pub open spec fn prepended(
    found: Seq<(Seq<u8>, Seq<u8>)>,
    rest: Result<Seq<(Seq<u8>, Seq<u8>)>, InvalidHTTPHeader>,
) -> Result<Seq<(Seq<u8>, Seq<u8>)>, InvalidHTTPHeader> {
    match rest {
        Ok(more) => Ok(found + more),
        Err(e) => Err(e),
    }
}

/// What one read of a header takes from `unread`: at most `READ_SIZE` bytes.
pub open spec fn read_chunk(unread: Seq<u8>) -> Seq<u8> {
    if unread.len() <= READ_SIZE {
        unread
    } else {
        unread.take(READ_SIZE as int)
    }
}

/// What one read of a header finds in `unread`: the header that the chunk
/// holds, and the end of the file where there is no byte to read.
pub open spec fn header_read(unread: Seq<u8>) -> Result<HeaderView, InvalidHTTPHeader> {
    if unread.len() == 0 {
        Err(InvalidHTTPHeader::EOF)
    } else {
        parsed_header(read_chunk(unread))
    }
}

/// The first line break at or after `from` is a line break, and none begins
/// between `from` and it.
pub proof fn lemma_next_line_end(bytes: Seq<u8>, from: int)
    requires
        0 <= from,
    ensures
        match next_line_end(bytes, from) {
            Some(end) => {
                &&& from <= end
                &&& line_ends_at(bytes, end)
                &&& forall|k: int| from <= k < end ==> !line_ends_at(bytes, k)
            },
            None => forall|k: int| from <= k ==> !line_ends_at(bytes, k),
        },
    decreases bytes.len() - from,
{
    if from + 1 < bytes.len() && !line_ends_at(bytes, from) {
        lemma_next_line_end(bytes, from + 1);
    }
}

/// The first occurrence of a byte at or after `from` is an occurrence, and
/// there is none between `from` and it.
pub proof fn lemma_next_index_of(s: Seq<u8>, byte: u8, from: int)
    requires
        0 <= from,
    ensures
        match next_index_of(s, byte, from) {
            Some(at) => {
                &&& from <= at < s.len()
                &&& s[at] == byte
                &&& forall|k: int| from <= k < at ==> s[k] != byte
            },
            None => forall|k: int| from <= k < s.len() ==> s[k] != byte,
        },
    decreases s.len() - from,
{
    if from < s.len() && s[from] != byte {
        lemma_next_index_of(s, byte, from + 1);
    }
}

/// Spaces at the start do not change what is left after trimming.
proof fn lemma_trimmed_skips_leading(x: Seq<u8>, start: int)
    requires
        0 <= start <= x.len(),
        forall|k: int| 0 <= k < start ==> x[k] == SPACE,
    ensures
        trimmed(x) == trimmed(x.skip(start)),
    decreases start,
{
    if start == 0 {
        assert(x.skip(0) == x);
    } else {
        let rest = x.drop_first();
        assert forall|k: int| 0 <= k < start - 1 implies rest[k] == SPACE by {
            assert(rest[k] == x[k + 1]);
        }
        lemma_trimmed_skips_leading(rest, start - 1);
        assert(rest.skip(start - 1) == x.skip(start));
    }
}

/// Spaces at the end do not change what is left after trimming, where the
/// first byte is no space.
proof fn lemma_trimmed_drops_trailing(x: Seq<u8>, end: int)
    requires
        0 < end <= x.len(),
        x[0] != SPACE,
        forall|k: int| end <= k < x.len() ==> x[k] == SPACE,
    ensures
        trimmed(x) == trimmed(x.take(end)),
    decreases x.len() - end,
{
    if end == x.len() {
        assert(x.take(end) == x);
    } else {
        let shorter = x.drop_last();
        lemma_trimmed_drops_trailing(shorter, end);
        assert(shorter.take(end) == x.take(end));
    }
}

/// Trimming makes nothing longer.
proof fn lemma_trimmed_len(x: Seq<u8>)
    ensures
        trimmed(x).len() <= x.len(),
    decreases x.len(),
{
    if x.len() > 0 && x.first() == SPACE {
        lemma_trimmed_len(x.drop_first());
    } else if x.len() > 0 && x.last() == SPACE {
        lemma_trimmed_len(x.drop_last());
    }
}

/// No value among the parsed pairs is longer than the bytes they came from.
proof fn lemma_parsed_values_fit(bytes: Seq<u8>, from: int)
    requires
        0 <= from,
    ensures
        parsed_pairs(bytes, from) matches Ok(pairs) ==> forall|i: int|
            0 <= i < pairs.len() ==> (#[trigger] pairs[i]).1.len() <= bytes.len(),
    decreases bytes.len() - from,
{
    lemma_next_line_end(bytes, from);
    match next_line_end(bytes, from) {
        Some(end) => {
            let line = bytes.subrange(from, end);
            if end != from && parsed_pair(line) is Some {
                lemma_parsed_values_fit(bytes, end + 2);
                lemma_next_index_of(line, COLON, 0);
                let colon = next_index_of(line, COLON, 0)->Some_0;
                lemma_trimmed_len(line.subrange(colon + 1, line.len() as int));
            }
        },
        None => {},
    }
}

/// A value found by name is the value of one of the pairs.
proof fn lemma_value_from_is_a_value(pairs: Seq<(Seq<u8>, Seq<u8>)>, name: Seq<u8>, from: int)
    requires
        0 <= from,
    ensures
        value_from(pairs, name, from) matches Some(v) ==> exists|i: int|
            0 <= i < pairs.len() && (#[trigger] pairs[i]).1 == v,
    decreases pairs.len() - from,
{
    if from < pairs.len() && pairs[from].0 != name {
        lemma_value_from_is_a_value(pairs, name, from + 1);
    }
}

/// A header parsed from bytes holds no key that is too long to be answered,
/// where the bytes are no more than the longest key.
pub proof fn lemma_parsed_key_fits(bytes: Seq<u8>)
    requires
        bytes.len() <= MAX_KEY_LEN,
    ensures
        parsed_header(bytes) matches Ok(header) ==> header.key_fits(),
{
    lemma_next_line_end(bytes, 0);
    match parsed_header(bytes) {
        Ok(header) => {
            let end = next_line_end(bytes, 0)->Some_0;
            lemma_parsed_values_fit(bytes, end + 2);
            lemma_value_from_is_a_value(header.pairs, ascii("Sec-WebSocket-Key"@), 0);
        },
        Err(_) => {},
    }
}

/// A name/value pair of a header.
pub struct NameValuePair(Vec<u8>, Vec<u8>);

impl View for NameValuePair {
    type V = (Seq<u8>, Seq<u8>);

    closed spec fn view(&self) -> (Seq<u8>, Seq<u8>) {
        (self.0@, self.1@)
    }
}

/// The bytes of a pair in a header: the name, a colon and a space, the value.
pub open spec fn pair_wire(pair: (Seq<u8>, Seq<u8>)) -> Seq<u8> {
    pair.0 + seq![COLON, SPACE] + pair.1
}

impl NameValuePair {
    /// The pair of a name and a value.
    pub fn new(name: &[u8], value: &[u8]) -> (pair: NameValuePair)
        ensures
            pair@ == (name@, value@),
    {
        NameValuePair(vstd::slice::slice_to_vec(name), vstd::slice::slice_to_vec(value))
    }

    /// The name.
    pub fn name(&self) -> (name: &[u8])
        ensures
            name@ == self@.0,
    {
        self.0.as_slice()
    }

    /// The value.
    pub fn value(&self) -> (value: &[u8])
        ensures
            value@ == self@.1,
    {
        self.1.as_slice()
    }

    /// The bytes of the pair in a header.
    pub fn to_bytes(&self) -> (bytes: Vec<u8>)
        ensures
            bytes@ == pair_wire(self@),
    {
        let mut bytes: Vec<u8> = Vec::new();
        push_all(&mut bytes, self.0.as_slice());
        bytes.push(COLON);
        bytes.push(SPACE);
        push_all(&mut bytes, self.1.as_slice());
        assert(bytes@ =~= pair_wire(self@));
        bytes
    }

    /// How many bytes the pair takes in a header.
    pub fn size(&self) -> (n: usize)
        requires
            self@.0.len() + 2 + self@.1.len() <= usize::MAX,
        ensures
            n == pair_wire(self@).len(),
    {
        self.0.len() + 2 + self.1.len()
    }

    /// The pair as text.
    pub fn to_string(&self) -> (text: String)
        requires
            valid_utf8(pair_wire(self@)),
        ensures
            encode_utf8(text@) == pair_wire(self@),
    {
        match string_from_utf8(self.to_bytes()) {
            Some(text) => text,
            // no such case: the bytes are UTF-8
            None => String::new(),
        }
    }
}

/// Walks over the lines of a run of bytes, each ended by CR LF.
pub struct Lines<'a> {
    bytes: &'a [u8],
    last_line_index: usize,
}

/// The mathematical value of a [`Lines`].
pub struct LinesView {
    /// The bytes walked over.
    pub bytes: Seq<u8>,
    /// Where the next line begins.
    pub position: nat,
}

impl<'a> View for Lines<'a> {
    type V = LinesView;

    closed spec fn view(&self) -> LinesView {
        LinesView { bytes: self.bytes@, position: self.last_line_index as nat }
    }
}

impl<'a> Lines<'a> {
    #[verifier::type_invariant]
    spec fn position_in_bounds(self) -> bool {
        self.last_line_index <= self.bytes@.len()
    }

    /// Starts at the first byte.
    pub fn new(bytes: &'a [u8]) -> (lines: Self)
        ensures
            lines@ == (LinesView { bytes: bytes@, position: 0 }),
    {
        Lines { bytes, last_line_index: 0 }
    }

    /// The next line, without its line break, and a step past the break.
    /// Nothing, and no step, where no line break follows.
    pub fn next(&mut self) -> (line: Option<&'a [u8]>)
        ensures
            final(self)@.bytes == old(self)@.bytes,
            old(self)@.position <= final(self)@.position <= old(self)@.bytes.len(),
            match next_line_end(old(self)@.bytes, old(self)@.position as int) {
                Some(end) => {
                    &&& line is Some
                    &&& line->Some_0@ == old(self)@.bytes.subrange(
                        old(self)@.position as int,
                        end,
                    )
                    &&& final(self)@.position == end + 2
                },
                None => line is None && final(self)@.position == old(self)@.position,
            },
    {
        proof {
            use_type_invariant(&*self);
        }
        let bytes: &'a [u8] = self.bytes;
        let start: usize = self.last_line_index;
        let mut index: usize = start;
        while index < bytes.len() && !(bytes[index] == CR && index + 1 < bytes.len() && bytes[index
            + 1] == LF)
            invariant
                start <= index <= bytes@.len(),
                next_line_end(bytes@, start as int) == next_line_end(bytes@, index as int),
            decreases bytes@.len() - index,
        {
            index += 1;
        }
        if index < bytes.len() {
            self.last_line_index = index + 2;
            Some(vstd::slice::slice_subrange(bytes, start, index))
        } else {
            None
        }
    }
}

/// Why bytes are no header.
#[derive(Debug, Clone, Copy, PartialEq, Eq, Structural)]
pub enum InvalidHTTPHeader {
    MissingTrailingNewLine,
    MissingLeadingLine,
    EOF,
}

impl InvalidHTTPHeader {
    /// The text that describes each error.
    pub open spec fn description(self) -> Seq<char> {
        match self {
            InvalidHTTPHeader::MissingLeadingLine => "Missing leading line"@,
            InvalidHTTPHeader::MissingTrailingNewLine => "Missing trailing line"@,
            InvalidHTTPHeader::EOF => "End of file"@,
        }
    }

    /// Renders the error as text.
    pub fn to_string(&self) -> (text: String)
        ensures
            text@ == self.description(),
    {
        match self {
            InvalidHTTPHeader::MissingLeadingLine => "Missing leading line".to_owned(),
            InvalidHTTPHeader::MissingTrailingNewLine => "Missing trailing line".to_owned(),
            InvalidHTTPHeader::EOF => "End of file".to_owned(),
        }
    }
}

/// Where `byte` first occurs in `s` at or after `from`.
fn index_of(s: &[u8], byte: u8, from: usize) -> (at: Option<usize>)
    requires
        from <= s@.len(),
    ensures
        match at {
            Some(i) => next_index_of(s@, byte, from as int) == Some(i as int) && from <= i
                < s@.len(),
            None => next_index_of(s@, byte, from as int) is None,
        },
{
    let mut i: usize = from;
    while i < s.len() && s[i] != byte
        invariant
            from <= i <= s@.len(),
            next_index_of(s@, byte, from as int) == next_index_of(s@, byte, i as int),
        decreases s@.len() - i,
    {
        i += 1;
    }
    if i < s.len() {
        Some(i)
    } else {
        None
    }
}

/// The name and the value of a header line.
pub fn split_pair(line: &[u8]) -> (pair: Option<(&[u8], &[u8])>)
    ensures
        match parsed_pair(line@) {
            Some(p) => pair is Some && pair->Some_0.0@ == p.0 && pair->Some_0.1@ == p.1,
            None => pair is None,
        },
{
    let len = line.len();
    match index_of(line, COLON, 0) {
        None => None,
        Some(colon) => {
            let name = trim(vstd::slice::slice_subrange(line, 0, colon));
            let value = trim(vstd::slice::slice_subrange(line, colon + 1, len));
            Some((name, value))
        },
    }
}

/// `x` without the spaces at its start and at its end.
pub fn trim(x: &[u8]) -> (t: &[u8])
    ensures
        t@ == trimmed(x@),
{
    let mut s: usize = 0;
    while s < x.len() && x[s] == SPACE
        invariant
            s <= x@.len(),
            forall|k: int| 0 <= k < s ==> x@[k] == SPACE,
        decreases x@.len() - s,
    {
        s += 1;
    }
    proof {
        lemma_trimmed_skips_leading(x@, s as int);
    }
    if s == x.len() {
        assert(x@.skip(s as int).len() == 0);
        return vstd::slice::slice_subrange(x, s, s);
    }
    let mut e: usize = x.len();
    while e > s + 1 && x[e - 1] == SPACE
        invariant
            s < e <= x@.len(),
            x@[s as int] != SPACE,
            forall|k: int| e <= k < x@.len() ==> x@[k] == SPACE,
        decreases e,
    {
        e -= 1;
    }
    proof {
        let rest = x@.skip(s as int);
        assert(rest[0] == x@[s as int]);
        assert forall|k: int| e - s <= k < rest.len() implies rest[k] == SPACE by {
            assert(rest[k] == x@[k + s]);
        }
        lemma_trimmed_drops_trailing(rest, e - s);
        let kept = rest.take(e - s);
        assert(kept == x@.subrange(s as int, e as int));
        assert(kept.first() == x@[s as int]);
        assert(kept.last() == x@[e - 1]);
        assert(x@[e - 1] != SPACE);
    }
    vstd::slice::slice_subrange(x, s, e)
}

/// The mathematical value of an [`HTTPHeader`].
#[verifier::ext_equal]
pub struct HeaderView {
    pub leading_line: Seq<u8>,
    pub pairs: Seq<(Seq<u8>, Seq<u8>)>,
}

/// The value of the first pair at or after index `from` whose name is `name`.
pub open spec fn value_from(pairs: Seq<(Seq<u8>, Seq<u8>)>, name: Seq<u8>, from: int) -> Option<
    Seq<u8>,
>
    decreases pairs.len() - from,
{
    if from < 0 || from >= pairs.len() {
        None
    } else if pairs[from].0 == name {
        Some(pairs[from].1)
    } else {
        value_from(pairs, name, from + 1)
    }
}

/// The lines of the pairs in a header, each ended by CR LF.
pub open spec fn pairs_wire(pairs: Seq<(Seq<u8>, Seq<u8>)>) -> Seq<u8>
    decreases pairs.len(),
{
    if pairs.len() == 0 {
        Seq::empty()
    } else {
        pairs_wire(pairs.drop_last()) + pair_wire(pairs.last()) + seq![CR, LF]
    }
}

impl HeaderView {
    /// The value of the first pair whose name is `name`.
    pub open spec fn value_of(self, name: Seq<u8>) -> Option<Seq<u8>> {
        value_from(self.pairs, name, 0)
    }

    /// The header with one more pair at its end.
    pub open spec fn with(self, name: Seq<u8>, value: Seq<u8>) -> HeaderView {
        HeaderView { pairs: self.pairs.push((name, value)), ..self }
    }

    /// The bytes of the header: the leading line, the lines of the pairs, an empty line.
    pub open spec fn wire(self) -> Seq<u8> {
        self.leading_line + seq![CR, LF] + pairs_wire(self.pairs) + seq![CR, LF]
    }

    /// The request that asks for the upgrade.
    pub open spec fn websocket_request() -> HeaderView {
        HeaderView {
            leading_line: ascii("GET / HTTP/1.1"@),
            pairs: seq![
                (ascii("Connection"@), ascii("Upgrade"@)),
                (ascii("Upgrade"@), ascii("websocket"@)),
            ],
        }
    }

    /// The response that grants the upgrade.
    pub open spec fn websocket_response() -> HeaderView {
        HeaderView {
            leading_line: ascii("HTTP/1.1 101 Switching Protocols"@),
            pairs: seq![
                (ascii("Upgrade"@), ascii("websocket"@)),
                (ascii("Connection"@), ascii("Upgrade"@)),
            ],
        }
    }

    /// The response that answers this request: the one that grants the
    /// upgrade, with the accept value where the request holds a key.
    pub open spec fn response(self) -> HeaderView {
        match self.value_of(ascii("Sec-WebSocket-Key"@)) {
            Some(key) => HeaderView::websocket_response().with(
                ascii("Sec-WebSocket-Accept"@),
                accept_key(key),
            ),
            None => HeaderView::websocket_response(),
        }
    }

    /// Whether the header names the upgrade: `Connection: Upgrade` and
    /// `Upgrade: websocket`.
    pub open spec fn names_upgrade(self) -> bool {
        &&& self.value_of(ascii("Connection"@)) == Some(ascii("Upgrade"@))
        &&& self.value_of(ascii("Upgrade"@)) == Some(ascii("websocket"@))
    }

    /// Whether the header is a request for the upgrade.
    pub open spec fn is_valid_websocket_request(self) -> bool {
        has_prefix(self.leading_line, ascii("GET"@)) && self.names_upgrade()
    }

    /// Whether the header is a response that grants the upgrade.
    pub open spec fn is_valid_websocket_response(self) -> bool {
        self.leading_line == ascii("HTTP/1.1 101 Switching Protocols"@) && self.names_upgrade()
    }

    /// Whether the key, if there is one, is short enough to be answered.
    pub open spec fn key_fits(self) -> bool {
        self.value_of(ascii("Sec-WebSocket-Key"@)) matches Some(key) ==> key.len() <= MAX_KEY_LEN
    }
}

/// The values of a run of pairs.
pub open spec fn pair_views(pairs: Seq<NameValuePair>) -> Seq<(Seq<u8>, Seq<u8>)> {
    pairs.map_values(|p: NameValuePair| p@)
}

/// A header: a leading line and an ordered list of name/value pairs.
pub struct HTTPHeader {
    leading_line: Vec<u8>,
    pairs: Vec<NameValuePair>,
}

impl View for HTTPHeader {
    type V = HeaderView;

    closed spec fn view(&self) -> HeaderView {
        HeaderView { leading_line: self.leading_line@, pairs: pair_views(self.pairs@) }
    }
}

impl HTTPHeader {
    /// The header with an empty leading line and no pair.
    pub fn new() -> (header: Self)
        ensures
            header@ == (HeaderView { leading_line: Seq::empty(), pairs: Seq::empty() }),
    {
        let header = HTTPHeader { leading_line: Vec::new(), pairs: Vec::new() };
        assert(header@ =~= (HeaderView { leading_line: Seq::empty(), pairs: Seq::empty() }));
        header
    }

    /// The response that grants the upgrade.
    pub fn websocket_response() -> (response: Self)
        ensures
            response@ == HeaderView::websocket_response(),
    {
        proof {
            reveal_strlit("HTTP/1.1 101 Switching Protocols");
            reveal_strlit("Upgrade");
            reveal_strlit("websocket");
            reveal_strlit("Connection");
        }
        let mut response = Self::new();
        response.set_leading_line(ascii_bytes("HTTP/1.1 101 Switching Protocols"));
        response.add(ascii_bytes("Upgrade"), ascii_bytes("websocket"));
        response.add(ascii_bytes("Connection"), ascii_bytes("Upgrade"));
        assert(response@ =~= HeaderView::websocket_response());
        response
    }

    /// The request that asks for the upgrade.
    pub fn websocket_request() -> (request: Self)
        ensures
            request@ == HeaderView::websocket_request(),
    {
        proof {
            reveal_strlit("GET / HTTP/1.1");
            reveal_strlit("Upgrade");
            reveal_strlit("websocket");
            reveal_strlit("Connection");
        }
        let mut request = Self::new();
        request.set_leading_line(ascii_bytes("GET / HTTP/1.1"));
        request.add(ascii_bytes("Connection"), ascii_bytes("Upgrade"));
        request.add(ascii_bytes("Upgrade"), ascii_bytes("websocket"));
        assert(request@ =~= HeaderView::websocket_request());
        request
    }

    /// The response that grants the upgrade and carries the accept value `accept`.
    pub fn websocket_response_accepting(accept: &[u8]) -> (response: Self)
        ensures
            response@ == HeaderView::websocket_response().with(
                ascii("Sec-WebSocket-Accept"@),
                accept@,
            ),
    {
        proof {
            reveal_strlit("Sec-WebSocket-Accept");
        }
        let mut response = Self::websocket_response();
        response.add(ascii_bytes("Sec-WebSocket-Accept"), accept);
        response
    }

    /// The response that answers this request: the one that grants the
    /// upgrade, with the accept value where the request holds a key.
    pub fn into_websocket_response(&self) -> (response: Self)
        requires
            self@.key_fits(),
        ensures
            response@ == self@.response(),
    {
        proof {
            reveal_strlit("Sec-WebSocket-Key");
        }
        match self.get_value(ascii_bytes("Sec-WebSocket-Key")) {
            Some(key) => {
                let hash = make_accept_key(key);
                Self::websocket_response_accepting(hash.as_slice())
            },
            None => Self::websocket_response(),
        }
    }

    /// The bytes of the header: the leading line, the lines of the pairs, an
    /// empty line, each ended by CR LF.
    pub fn to_bytes(&self) -> (lines: Vec<u8>)
        ensures
            lines@ == self@.wire(),
    {
        let mut lines: Vec<u8> = Vec::new();
        push_all(&mut lines, self.leading_line.as_slice());
        lines.push(CR);
        lines.push(LF);
        let ghost head = lines@;
        assert(head == self@.leading_line + seq![CR, LF]);
        let mut i: usize = 0;
        while i < self.pairs.len()
            invariant
                i <= self.pairs@.len(),
                lines@ == head + pairs_wire(self@.pairs.subrange(0, i as int)),
            decreases self.pairs@.len() - i,
        {
            let bytes = self.pairs[i].to_bytes();
            push_all(&mut lines, bytes.as_slice());
            lines.push(CR);
            lines.push(LF);
            proof {
                let next = self@.pairs.subrange(0, i + 1);
                assert(next.drop_last() == self@.pairs.subrange(0, i as int));
                assert(next.last() == self.pairs@[i as int]@);
                assert(lines@ == head + pairs_wire(next));
            }
            i += 1;
        }
        assert(self@.pairs.subrange(0, i as int) == self@.pairs);
        lines.push(CR);
        lines.push(LF);
        assert(lines@ == self@.wire());
        lines
    }

    /// Replaces the leading line.
    pub fn set_leading_line(&mut self, value: &[u8])
        ensures
            final(self)@ == (HeaderView { leading_line: value@, ..old(self)@ }),
    {
        self.leading_line = vstd::slice::slice_to_vec(value);
    }

    /// The leading line.
    pub fn get_leading_line(&self) -> (line: &[u8])
        ensures
            line@ == self@.leading_line,
    {
        self.leading_line.as_slice()
    }

    /// The value of the first pair whose name is `name`.
    pub fn get_value(&self, name: &[u8]) -> (value: Option<&[u8]>)
        ensures
            match self@.value_of(name@) {
                Some(v) => value is Some && value->Some_0@ == v,
                None => value is None,
            },
    {
        let mut i: usize = 0;
        while i < self.pairs.len()
            invariant
                i <= self.pairs@.len(),
                self@.value_of(name@) == value_from(self@.pairs, name@, i as int),
            decreases self.pairs@.len() - i,
        {
            if same_bytes(self.pairs[i].0.as_slice(), name) {
                return Some(self.pairs[i].1.as_slice());
            }
            i += 1;
        }
        None
    }

    /// Adds a pair at the end.
    pub fn add(&mut self, name: &[u8], value: &[u8])
        ensures
            final(self)@ == old(self)@.with(name@, value@),
    {
        self.pairs.push(NameValuePair::new(name, value));
        assert(final(self)@ =~= old(self)@.with(name@, value@));
    }

    /// Whether the header names the upgrade.
    fn names_upgrade(&self) -> (named: bool)
        ensures
            named == self@.names_upgrade(),
    {
        proof {
            reveal_strlit("Upgrade");
            reveal_strlit("websocket");
            reveal_strlit("Connection");
        }
        match self.get_value(ascii_bytes("Connection")) {
            Some(v) => {
                if !same_bytes(v, ascii_bytes("Upgrade")) {
                    return false;
                }
            },
            None => {
                return false;
            },
        }
        match self.get_value(ascii_bytes("Upgrade")) {
            Some(v) => same_bytes(v, ascii_bytes("websocket")),
            None => false,
        }
    }

    /// Whether the header is a response that grants the upgrade.
    pub fn is_valid_websocket_response(&self) -> (valid: bool)
        ensures
            valid == self@.is_valid_websocket_response(),
    {
        proof {
            reveal_strlit("HTTP/1.1 101 Switching Protocols");
        }
        let request = self.get_leading_line();
        if !same_bytes(request, ascii_bytes("HTTP/1.1 101 Switching Protocols")) {
            return false;
        }
        self.names_upgrade()
    }

    /// Whether the header is a request for the upgrade.
    pub fn is_valid_websocket_request(&self) -> (valid: bool)
        ensures
            valid == self@.is_valid_websocket_request(),
    {
        proof {
            reveal_strlit("GET");
        }
        let request = self.get_leading_line();
        if !starts_with(request, ascii_bytes("GET")) {
            return false;
        }
        self.names_upgrade()
    }

    /// One read of a header from the transport: takes at most `READ_SIZE`
    /// waiting bytes, in which the header has to stand as a whole. With no
    /// byte to read the file has ended.
    pub fn read(r: &mut Inbound) -> (res: Result<Self, InvalidHTTPHeader>)
        ensures
            final(r)@.closed == old(r)@.closed,
            final(r)@.unread == old(r)@.unread.skip(read_chunk(old(r)@.unread).len() as int),
            match header_read(old(r)@.unread) {
                Ok(header) => res is Ok && res->Ok_0@ == header && header.key_fits(),
                Err(e) => res == Err::<Self, InvalidHTTPHeader>(e),
            },
    {
        let ghost unread = r@.unread;
        let buf = match r.read(READ_SIZE) {
            Ok(buf) => buf,
            Err(_) => {
                assert(unread.skip(0) == unread);
                return Err(InvalidHTTPHeader::EOF);
            },
        };
        if buf.len() == 0 {
            assert(unread.skip(0) == unread);
            return Err(InvalidHTTPHeader::EOF);
        }
        proof {
            assert(buf@ == read_chunk(unread));
            lemma_parsed_key_fits(buf@);
        }
        Self::from_bytes(buf.as_slice())
    }

    /// The header that `b` holds: a leading line, then one line for each
    /// pair, then an empty line, each line ended by CR LF. Without the empty
    /// line the trailing new line is missing; a line of a pair without a colon
    /// counts as the end of the file.
    pub fn from_bytes(b: &[u8]) -> (res: Result<Self, InvalidHTTPHeader>)
        ensures
            match parsed_header(b@) {
                Ok(header) => res is Ok && res->Ok_0@ == header,
                Err(e) => res == Err::<Self, InvalidHTTPHeader>(e),
            },
    {
        let mut lines = Lines::new(b);
        let mut header = HTTPHeader::new();
        match lines.next() {
            Some(line) => {
                header.set_leading_line(line);
            },
            None => {
                return Err(InvalidHTTPHeader::MissingTrailingNewLine);
            },
        }
        let ghost first = lines@.position as int;
        loop
            invariant
                lines@.bytes == b@,
                first <= lines@.position <= b@.len(),
                header@.leading_line == b@.subrange(0, first - 2),
                next_line_end(b@, 0) == Some(first - 2),
                parsed_pairs(b@, first) == prepended(
                    header@.pairs,
                    parsed_pairs(b@, lines@.position as int),
                ),
            decreases b@.len() - lines@.position,
        {
            let ghost at = lines@.position as int;
            let ghost found = header@.pairs;
            proof {
                lemma_next_line_end(b@, at);
            }
            match lines.next() {
                None => {
                    return Err(InvalidHTTPHeader::MissingTrailingNewLine);
                },
                Some(line) => {
                    if line.len() == 0 {
                        assert(found + Seq::<(Seq<u8>, Seq<u8>)>::empty() == found);
                        assert(header@ =~= parsed_header(b@)->Ok_0);
                        return Ok(header);
                    }
                    match split_pair(line) {
                        None => {
                            return Err(InvalidHTTPHeader::EOF);
                        },
                        Some((name, value)) => {
                            header.add(name, value);
                            proof {
                                let pair = (name@, value@);
                                match parsed_pairs(b@, lines@.position as int) {
                                    Ok(rest) => {
                                        assert(found + (seq![pair] + rest) == found.push(pair)
                                            + rest);
                                    },
                                    Err(_) => {},
                                }
                            }
                        },
                    }
                },
            }
        }
    }

    /// The header as text.
    pub fn to_string(&self) -> (text: String)
        requires
            valid_utf8(self@.wire()),
        ensures
            encode_utf8(text@) == self@.wire(),
    {
        match string_from_utf8(self.to_bytes()) {
            Some(text) => text,
            // no such case: the bytes are UTF-8
            None => String::new(),
        }
    }

    /// The pairs, in order.
    pub fn into_iter(self) -> (pairs: Vec<NameValuePair>)
        ensures
            pair_views(pairs@) == self@.pairs,
    {
        self.pairs
    }
}

impl Default for HTTPHeader {
    fn default() -> (header: Self)
        ensures
            header@ == (HeaderView { leading_line: Seq::empty(), pairs: Seq::empty() }),
    {
        Self::new()
    }
}

impl<'a> vstd::std_specs::convert::TryFromSpecImpl<&'a [u8]> for HTTPHeader {
    /// Two headers with the same content need not be the same value, so
    /// `try_from` promises its result by content, in its own contract.
    open spec fn obeys_try_from_spec() -> bool {
        false
    }

    open spec fn try_from_spec(value: &'a [u8]) -> Result<Self, InvalidHTTPHeader> {
        match parsed_header(value@) {
            Ok(content) => Ok(choose|header: HTTPHeader| header@ == content),
            Err(e) => Err(e),
        }
    }
}

impl<'a> TryFrom<&'a [u8]> for HTTPHeader {
    type Error = InvalidHTTPHeader;

    /// The header that `value` holds.
    fn try_from(value: &'a [u8]) -> (res: Result<Self, InvalidHTTPHeader>)
        ensures
            match parsed_header(value@) {
                Ok(header) => res is Ok && res->Ok_0@ == header,
                Err(e) => res == Err::<Self, InvalidHTTPHeader>(e),
            },
    {
        HTTPHeader::from_bytes(value)
    }
}

/// Whether `byte` occurs nowhere in `s`.
pub open spec fn is_free_of(s: Seq<u8>, byte: u8) -> bool {
    forall|i: int| 0 <= i < s.len() ==> s[i] != byte
}

/// Whether a value comes back from a header line as it went in: it holds no
/// carriage return, and no space at either end. It may hold colons.
pub open spec fn is_plain_value(s: Seq<u8>) -> bool {
    &&& is_free_of(s, CR)
    &&& s.len() > 0 ==> s.first() != SPACE && s.last() != SPACE
}

/// Whether a name comes back from a header line as it went in: it is plain
/// as a value is, and holds no colon.
pub open spec fn is_plain_name(s: Seq<u8>) -> bool {
    is_plain_value(s) && is_free_of(s, COLON)
}

/// Whether every pair has a plain name and a plain value.
pub open spec fn are_plain(pairs: Seq<(Seq<u8>, Seq<u8>)>) -> bool {
    forall|i: int|
        0 <= i < pairs.len() ==> is_plain_name((#[trigger] pairs[i]).0) && is_plain_value(
            pairs[i].1,
        )
}

impl HeaderView {
    /// Whether the header comes back from its bytes as it went in: the
    /// leading line holds no carriage return, and names and values are plain.
    pub open spec fn is_plain(self) -> bool {
        is_free_of(self.leading_line, CR) && are_plain(self.pairs)
    }
}

/// A line without a carriage return ends where the line break after it begins.
proof fn lemma_line_ends_after(before: Seq<u8>, line: Seq<u8>, after: Seq<u8>, from: int)
    requires
        is_free_of(line, CR),
        before.len() <= from <= before.len() + line.len(),
    ensures
        next_line_end(before + line + seq![CR, LF] + after, from) == Some(
            (before.len() + line.len()) as int,
        ),
    decreases before.len() + line.len() - from,
{
    let bytes = before + line + seq![CR, LF] + after;
    let end = (before.len() + line.len()) as int;
    assert(bytes[end] == CR);
    assert(bytes[end + 1] == LF);
    if from < end {
        assert(bytes[from] == line[from - before.len()]);
        lemma_line_ends_after(before, line, after, from + 1);
    }
}

/// A byte that does not occur before `at` is not found before `at`.
proof fn lemma_next_index_skips(s: Seq<u8>, byte: u8, from: int, at: int)
    requires
        0 <= from <= at <= s.len(),
        forall|k: int| from <= k < at ==> s[k] != byte,
    ensures
        next_index_of(s, byte, from) == next_index_of(s, byte, at),
    decreases at - from,
{
    if from < at {
        lemma_next_index_skips(s, byte, from + 1, at);
    }
}

/// The line of a plain name and a plain value holds that name and that value.
proof fn lemma_parsed_pair_of_wire(pair: (Seq<u8>, Seq<u8>))
    requires
        is_plain_name(pair.0),
        is_plain_value(pair.1),
    ensures
        parsed_pair(pair_wire(pair)) == Some(pair),
        is_free_of(pair_wire(pair), CR),
        pair_wire(pair).len() >= 2,
{
    let (name, value) = pair;
    let line = pair_wire(pair);
    let colon = name.len() as int;
    assert forall|k: int| 0 <= k < colon implies line[k] != COLON by {
        assert(line[k] == name[k]);
    }
    lemma_next_index_skips(line, COLON, 0, colon);
    assert(line[colon] == COLON);
    assert(next_index_of(line, COLON, 0) == Some(colon));
    assert(line.subrange(0, colon) == name);
    let spaced = line.subrange(colon + 1, line.len() as int);
    assert(spaced == seq![SPACE] + value);
    assert(spaced.drop_first() == value);
    assert(trimmed(spaced) == trimmed(value));
    assert forall|k: int| 0 <= k < line.len() implies line[k] != CR by {
        if k < colon {
            assert(line[k] == name[k]);
        } else if k > colon + 1 {
            assert(line[k] == value[k - colon - 2]);
        }
    }
}

/// Whether `s` holds nothing but spaces.
pub open spec fn is_blank(s: Seq<u8>) -> bool {
    forall|i: int| 0 <= i < s.len() ==> s[i] == SPACE
}

/// Trimming takes the spaces around a plain value away and leaves the value.
proof fn lemma_trimmed_of_padded(left: Seq<u8>, core: Seq<u8>, right: Seq<u8>)
    requires
        is_blank(left),
        is_blank(right),
        core.len() > 0 ==> core.first() != SPACE && core.last() != SPACE,
    ensures
        trimmed(left + core + right) == core,
{
    let padded = left + core + right;
    if core.len() == 0 {
        assert forall|k: int| 0 <= k < padded.len() implies padded[k] == SPACE by {
            if k < left.len() {
                assert(padded[k] == left[k]);
            } else {
                assert(padded[k] == right[k - left.len()]);
            }
        }
        lemma_trimmed_skips_leading(padded, padded.len() as int);
        assert(padded.skip(padded.len() as int) == core);
    } else {
        assert forall|k: int| 0 <= k < left.len() implies padded[k] == SPACE by {
            assert(padded[k] == left[k]);
        }
        lemma_trimmed_skips_leading(padded, left.len() as int);
        let rest = padded.skip(left.len() as int);
        assert(rest == core + right);
        assert(rest[0] == core[0]);
        assert forall|k: int| core.len() <= k < rest.len() implies rest[k] == SPACE by {
            assert(rest[k] == right[k - core.len()]);
        }
        lemma_trimmed_drops_trailing(rest, core.len() as int);
        assert(rest.take(core.len() as int) == core);
    }
}

/// Spaces around the colon, and at the ends of the line, do not count: a
/// plain name and a plain value with any spaces around each of them make a
/// line that holds that name and that value.
pub proof fn lemma_parsed_pair_tolerates_spaces(
    name: Seq<u8>,
    value: Seq<u8>,
    before_name: Seq<u8>,
    after_name: Seq<u8>,
    before_value: Seq<u8>,
    after_value: Seq<u8>,
)
    requires
        is_plain_name(name),
        is_plain_value(value),
        is_blank(before_name),
        is_blank(after_name),
        is_blank(before_value),
        is_blank(after_value),
    ensures
        parsed_pair(
            before_name + name + after_name + seq![COLON] + before_value + value + after_value,
        ) == Some((name, value)),
{
    let left = before_name + name + after_name;
    let right = before_value + value + after_value;
    let line = left + seq![COLON] + right;
    let colon = left.len() as int;
    assert forall|k: int| 0 <= k < colon implies line[k] != COLON by {
        assert(line[k] == left[k]);
        if k < before_name.len() {
            assert(left[k] == before_name[k]);
        } else if k < before_name.len() + name.len() {
            assert(left[k] == name[k - before_name.len()]);
        } else {
            assert(left[k] == after_name[k - before_name.len() - name.len()]);
        }
    }
    lemma_next_index_skips(line, COLON, 0, colon);
    assert(line[colon] == COLON);
    assert(next_index_of(line, COLON, 0) == Some(colon));
    assert(line.subrange(0, colon) == left);
    assert(line.subrange(colon + 1, line.len() as int) == right);
    lemma_trimmed_of_padded(before_name, name, after_name);
    lemma_trimmed_of_padded(before_value, value, after_value);
    assert(line == before_name + name + after_name + seq![COLON] + before_value + value
        + after_value);
}

/// The lines of pairs begin with the line of the first pair.
proof fn lemma_pairs_wire_from_front(pairs: Seq<(Seq<u8>, Seq<u8>)>)
    requires
        pairs.len() > 0,
    ensures
        pairs_wire(pairs) == pair_wire(pairs.first()) + seq![CR, LF] + pairs_wire(
            pairs.drop_first(),
        ),
    decreases pairs.len(),
{
    if pairs.len() == 1 {
        assert(pairs.drop_last() == Seq::<(Seq<u8>, Seq<u8>)>::empty());
        assert(pairs.drop_first() == Seq::<(Seq<u8>, Seq<u8>)>::empty());
        assert(pairs_wire(pairs) =~= pair_wire(pairs.first()) + seq![CR, LF] + pairs_wire(
            pairs.drop_first(),
        ));
    } else {
        let shorter = pairs.drop_last();
        lemma_pairs_wire_from_front(shorter);
        assert(shorter.first() == pairs.first());
        assert(shorter.drop_first() == pairs.drop_first().drop_last());
        assert(pairs.drop_first().last() == pairs.last());
        assert(pairs_wire(pairs) =~= pair_wire(pairs.first()) + seq![CR, LF] + pairs_wire(
            pairs.drop_first(),
        ));
    }
}

/// The lines of plain pairs, followed by an empty line, hold those pairs.
proof fn lemma_parsed_pairs_of_wire(
    before: Seq<u8>,
    pairs: Seq<(Seq<u8>, Seq<u8>)>,
    after: Seq<u8>,
)
    requires
        are_plain(pairs),
    ensures
        parsed_pairs(before + pairs_wire(pairs) + seq![CR, LF] + after, before.len() as int) == Ok::<
            Seq<(Seq<u8>, Seq<u8>)>,
            InvalidHTTPHeader,
        >(pairs),
    decreases pairs.len(),
{
    let bytes = before + pairs_wire(pairs) + seq![CR, LF] + after;
    let from = before.len() as int;
    if pairs.len() == 0 {
        assert(bytes =~= before + Seq::<u8>::empty() + seq![CR, LF] + after);
        lemma_line_ends_after(before, Seq::empty(), after, from);
        assert(next_line_end(bytes, from) == Some(from));
        assert(pairs =~= Seq::<(Seq<u8>, Seq<u8>)>::empty());
    } else {
        let first = pairs.first();
        let later = pairs.drop_first();
        let line = pair_wire(first);
        let tail = pairs_wire(later) + seq![CR, LF] + after;
        lemma_pairs_wire_from_front(pairs);
        lemma_parsed_pair_of_wire(first);
        assert(bytes =~= before + line + seq![CR, LF] + tail);
        lemma_line_ends_after(before, line, tail, from);
        let end = from + line.len();
        assert(bytes.subrange(from, end) =~= line);
        let read = before + line + seq![CR, LF];
        assert(bytes =~= read + pairs_wire(later) + seq![CR, LF] + after);
        assert(are_plain(later)) by {
            assert forall|i: int| 0 <= i < later.len() implies is_plain_name(
                (#[trigger] later[i]).0,
            ) && is_plain_value(later[i].1) by {
                assert(later[i] == pairs[i + 1]);
            }
        }
        lemma_parsed_pairs_of_wire(read, later, after);
        assert(seq![first] + later == pairs);
        assert(next_line_end(bytes, from) == Some(end));
        assert(read.len() == end + 2);
        assert(parsed_pairs(bytes, end + 2) == Ok::<Seq<(Seq<u8>, Seq<u8>)>, InvalidHTTPHeader>(
            later,
        ));
    }
}

/// Reading gives back what was written: the bytes of a plain header, with
/// whatever follows them, hold that header.
pub proof fn lemma_parsed_header_of_wire(header: HeaderView, after: Seq<u8>)
    requires
        header.is_plain(),
    ensures
        parsed_header(header.wire() + after) == Ok::<HeaderView, InvalidHTTPHeader>(header),
{
    let bytes = header.wire() + after;
    let line = header.leading_line;
    let tail = pairs_wire(header.pairs) + seq![CR, LF] + after;
    assert(bytes =~= Seq::<u8>::empty() + line + seq![CR, LF] + tail);
    lemma_line_ends_after(Seq::empty(), line, tail, 0);
    let read = line + seq![CR, LF];
    assert(bytes =~= read + pairs_wire(header.pairs) + seq![CR, LF] + after);
    lemma_parsed_pairs_of_wire(read, header.pairs, after);
    assert(bytes.subrange(0, line.len() as int) =~= line);
    assert(parsed_header(bytes)->Ok_0 =~= header);
}

/// Without a carriage return before the last byte there is no line break.
proof fn lemma_no_line_end(s: Seq<u8>, from: int)
    requires
        0 <= from,
        forall|i: int| from <= i < s.len() - 1 ==> s[i] != CR,
    ensures
        next_line_end(s, from) is None,
    decreases s.len() - from,
{
    if from + 1 < s.len() {
        lemma_no_line_end(s, from + 1);
    }
}

/// The first line break of bytes that were cut short, after a line without
/// a carriage return: it is found where the cut left it whole.
proof fn lemma_line_ends_after_cut(
    before: Seq<u8>,
    line: Seq<u8>,
    after: Seq<u8>,
    cut: int,
)
    requires
        is_free_of(line, CR),
        before.len() <= cut <= before.len() + line.len() + 2 + after.len(),
    ensures
        next_line_end((before + line + seq![CR, LF] + after).take(cut), before.len() as int) == (
        if cut >= before.len() + line.len() + 2 {
            Some((before.len() + line.len()) as int)
        } else {
            None
        }),
{
    let bytes = before + line + seq![CR, LF] + after;
    let end = (before.len() + line.len()) as int;
    let kept = bytes.take(cut);
    if cut >= end + 2 {
        assert(kept =~= before + line + seq![CR, LF] + after.take(cut - end - 2));
        lemma_line_ends_after(before, line, after.take(cut - end - 2), before.len() as int);
    } else {
        assert forall|i: int| before.len() <= i < kept.len() - 1 implies kept[i] != CR by {
            assert(kept[i] == line[i - before.len()]);
        }
        lemma_no_line_end(kept, before.len() as int);
    }
}

/// The lines of plain pairs and the empty line after them, cut short, miss
/// the trailing new line.
proof fn lemma_cut_pairs_miss_the_end(
    before: Seq<u8>,
    pairs: Seq<(Seq<u8>, Seq<u8>)>,
    cut: int,
)
    requires
        are_plain(pairs),
        before.len() <= cut < before.len() + pairs_wire(pairs).len() + 2,
    ensures
        parsed_pairs((before + pairs_wire(pairs) + seq![CR, LF]).take(cut), before.len() as int)
            == Err::<Seq<(Seq<u8>, Seq<u8>)>, InvalidHTTPHeader>(
            InvalidHTTPHeader::MissingTrailingNewLine,
        ),
    decreases pairs.len(),
{
    let bytes = before + pairs_wire(pairs) + seq![CR, LF];
    let kept = bytes.take(cut);
    let from = before.len() as int;
    if pairs.len() == 0 {
        assert(bytes =~= before + Seq::<u8>::empty() + seq![CR, LF] + Seq::<u8>::empty());
        lemma_line_ends_after_cut(before, Seq::empty(), Seq::empty(), cut);
    } else {
        let first = pairs.first();
        let later = pairs.drop_first();
        let line = pair_wire(first);
        let tail = pairs_wire(later) + seq![CR, LF];
        lemma_pairs_wire_from_front(pairs);
        lemma_parsed_pair_of_wire(first);
        assert(bytes =~= before + line + seq![CR, LF] + tail);
        lemma_line_ends_after_cut(before, line, tail, cut);
        let end = from + line.len();
        if cut >= end + 2 {
            assert(kept.subrange(from, end) =~= line);
            let read = before + line + seq![CR, LF];
            assert(bytes =~= read + pairs_wire(later) + seq![CR, LF]);
            assert(are_plain(later)) by {
                assert forall|i: int| 0 <= i < later.len() implies is_plain_name(
                    (#[trigger] later[i]).0,
                ) && is_plain_value(later[i].1) by {
                    assert(later[i] == pairs[i + 1]);
                }
            }
            lemma_cut_pairs_miss_the_end(read, later, cut);
            assert(next_line_end(kept, from) == Some(end));
            assert(read.len() == end + 2);
        }
    }
}

/// A plain header that is cut short misses the trailing new line.
pub proof fn lemma_cut_header_misses_the_end(header: HeaderView, cut: int)
    requires
        header.is_plain(),
        0 <= cut < header.wire().len(),
    ensures
        parsed_header(header.wire().take(cut)) == Err::<HeaderView, InvalidHTTPHeader>(
            InvalidHTTPHeader::MissingTrailingNewLine,
        ),
{
    let bytes = header.wire();
    let line = header.leading_line;
    let tail = pairs_wire(header.pairs) + seq![CR, LF];
    assert(bytes =~= Seq::<u8>::empty() + line + seq![CR, LF] + tail);
    lemma_line_ends_after_cut(Seq::empty(), line, tail, cut);
    if cut >= line.len() + 2 {
        let read = line + seq![CR, LF];
        assert(bytes =~= read + pairs_wire(header.pairs) + seq![CR, LF]);
        lemma_cut_pairs_miss_the_end(read, header.pairs, cut);
    }
}

/// The header must fit in one read: a plain header of more than `READ_SIZE`
/// bytes is read as one that misses the trailing new line.
pub proof fn lemma_larger_headers_fail(header: HeaderView, after: Seq<u8>)
    requires
        header.is_plain(),
        header.wire().len() > READ_SIZE,
    ensures
        header_read(header.wire() + after) == Err::<HeaderView, InvalidHTTPHeader>(
            InvalidHTTPHeader::MissingTrailingNewLine,
        ),
{
    assert(read_chunk(header.wire() + after) =~= header.wire().take(READ_SIZE as int));
    lemma_cut_header_misses_the_end(header, READ_SIZE as int);
}

/// A plain header of at most `READ_SIZE` bytes that arrived as a whole is
/// read as it was written.
pub proof fn lemma_header_read_of_wire(header: HeaderView, after: Seq<u8>)
    requires
        header.is_plain(),
        header.wire().len() <= READ_SIZE,
    ensures
        header_read(header.wire() + after) == Ok::<HeaderView, InvalidHTTPHeader>(header),
{
    let chunk = read_chunk(header.wire() + after);
    assert(chunk =~= header.wire() + after.take(chunk.len() - header.wire().len()));
    lemma_parsed_header_of_wire(header, after.take(chunk.len() - header.wire().len()));
}

} // verus!
