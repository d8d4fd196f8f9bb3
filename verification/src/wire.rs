//! The wire format: command frames, response framing, and line handling.
//!
//! Commands are newline-terminated UTF-8 text lines; a response is the raw
//! content bytes followed by exactly one `0x00` sentinel byte.

use vstd::prelude::*;

verus! {

/// The line terminator byte, `\n`.
pub const NL: u8 = 10;

/// Carriage return; tolerated immediately before a line terminator.
pub const CR: u8 = 13;

/// The reserved end-of-content sentinel. File content sent over the wire
/// must never contain this byte, or content and termination would be
/// indistinguishable.
pub const SENTINEL: u8 = 0;

/// The command word that begins a file request: `REQUEST`.
pub open spec fn request_word() -> Seq<u8> {
    seq![82u8, 69u8, 81u8, 85u8, 69u8, 83u8, 84u8]
}

/// The command word that ends a connection: `CLOSE`.
pub open spec fn close_word() -> Seq<u8> {
    seq![67u8, 76u8, 79u8, 83u8, 69u8]
}

/// The frame a client sends to request a file: `REQUEST\n<filename>\n`.
pub open spec fn request_frame(filename: Seq<u8>) -> Seq<u8> {
    request_word() + seq![NL] + filename + seq![NL]
}

/// The frame a client sends to end the connection: `CLOSE\n`.
pub open spec fn close_frame() -> Seq<u8> {
    close_word() + seq![NL]
}

/// The frame a server sends in response to a request: the content bytes in
/// order, followed by exactly one sentinel byte.
pub open spec fn response_frame(content: Seq<u8>) -> Seq<u8> {
    content.push(SENTINEL)
}

/// Content is representable on the wire only if the sentinel byte never
/// occurs in it.
pub open spec fn sentinel_free(s: Seq<u8>) -> bool {
    forall|i: int| 0 <= i < s.len() ==> s[i] != SENTINEL
}

/// Index of the first occurrence of `b` in `s`, or `s.len()` if `b` does
/// not occur.
pub open spec fn find_byte(s: Seq<u8>, b: u8) -> int
    decreases s.len(),
{
    if s.len() == 0 {
        0
    } else if s[0] == b {
        0
    } else {
        1 + find_byte(s.drop_first(), b)
    }
}

/// Whether `b` occurs anywhere in `s`.
pub open spec fn contains_byte(s: Seq<u8>, b: u8) -> bool {
    exists|i: int| 0 <= i < s.len() && s[i] == b
}

/// `find_byte` really is the first occurrence: it is in range, it hits `b`
/// exactly when `b` occurs at all, and nothing before it is `b`.
pub proof fn lemma_find_byte(s: Seq<u8>, b: u8)
    ensures
        0 <= find_byte(s, b) <= s.len(),
        contains_byte(s, b) <==> find_byte(s, b) < s.len(),
        find_byte(s, b) < s.len() ==> s[find_byte(s, b)] == b,
        forall|j: int| 0 <= j < find_byte(s, b) ==> s[j] != b,
    decreases s.len(),
{
    if s.len() == 0 {
    } else if s[0] == b {
    } else {
        let t = s.drop_first();
        lemma_find_byte(t, b);
        assert(forall|i: int| 0 <= i < t.len() ==> t[i] == s[i + 1]);
        if contains_byte(s, b) {
            let i = choose|i: int| 0 <= i < s.len() && s[i] == b;
            assert(t[i - 1] == b);
            assert(contains_byte(t, b));
        }
        if contains_byte(t, b) {
            let i = choose|i: int| 0 <= i < t.len() && t[i] == b;
            assert(s[i + 1] == b);
            assert(contains_byte(s, b));
        }
        assert(forall|j: int| 1 <= j < find_byte(s, b) ==> #[trigger] s[j] == t[j - 1]);
    }
}

/// A line with its terminator already removed, additionally stripped of one
/// trailing carriage return, so that `\r\n`-terminated frames parse the same
/// as `\n`-terminated ones.
pub open spec fn trim_cr(line: Seq<u8>) -> Seq<u8> {
    if line.len() > 0 && line.last() == CR {
        line.drop_last()
    } else {
        line
    }
}

/// What a receiver extracts from a response: everything strictly before the
/// first sentinel byte.
pub open spec fn decoded(wire: Seq<u8>) -> Seq<u8> {
    wire.take(find_byte(wire, SENTINEL))
}

/// Framing sentinel-free content loses nothing, even when later traffic
/// follows it on the wire: decoding stops on the frame's own sentinel and
/// gives back exactly the content, byte for byte.
pub proof fn lemma_response_round_trip_through(content: Seq<u8>, trailing: Seq<u8>)
    requires
        sentinel_free(content),
    ensures
        find_byte(response_frame(content) + trailing, SENTINEL) == content.len(),
        decoded(response_frame(content) + trailing) == content,
{
    let wire = response_frame(content) + trailing;
    lemma_find_byte(wire, SENTINEL);
    assert(wire[content.len() as int] == SENTINEL);
    assert(contains_byte(wire, SENTINEL));
    let i = find_byte(wire, SENTINEL);
    assert(forall|j: int| 0 <= j < content.len() ==> wire[j] == content[j]);
    if i < content.len() {
        assert(wire[i] == SENTINEL);
        assert(content[i] != SENTINEL);
        assert(false);
    }
    assert(i == content.len());
    assert(decoded(wire) =~= content);
}

/// Framing sentinel-free content loses nothing: decoding the frame gives
/// back exactly the content, byte for byte.
pub proof fn lemma_response_round_trip(content: Seq<u8>)
    requires
        sentinel_free(content),
    ensures
        decoded(response_frame(content)) == content,
{
    lemma_response_round_trip_through(content, Seq::empty());
    assert(response_frame(content) + Seq::<u8>::empty() =~= response_frame(content));
}

/// The sentinel is always stripped: whatever byte sequence arrived on the
/// wire, the content extracted from it never contains the sentinel byte.
pub proof fn lemma_decoded_sentinel_free(wire: Seq<u8>)
    ensures
        sentinel_free(decoded(wire)),
{
    lemma_find_byte(wire, SENTINEL);
}

/// The result of parsing one command frame from the head of the input.
pub enum CommandParse {
    /// Too few bytes have arrived for a whole frame.
    Incomplete,
    /// The first line is neither command word: a protocol violation, fatal
    /// to the connection.
    Violation,
    /// A `CLOSE` frame occupying `consumed` input bytes.
    Close { consumed: int },
    /// A `REQUEST` frame naming `filename`, occupying `consumed` input bytes.
    Request { filename: Seq<u8>, consumed: int },
}

/// Parse one command frame from the head of `input`: either a single
/// `CLOSE` line, or a `REQUEST` line followed by a filename line. Lines are
/// terminated by `\n`; one carriage return before the terminator is
/// stripped, internal whitespace is kept.
pub open spec fn parse_command(input: Seq<u8>) -> CommandParse {
    if !contains_byte(input, NL) {
        CommandParse::Incomplete
    } else {
        let n1 = find_byte(input, NL);
        let line1 = trim_cr(input.take(n1));
        if line1 == close_word() {
            CommandParse::Close { consumed: n1 + 1 }
        } else if line1 == request_word() {
            let rest = input.skip(n1 + 1);
            if !contains_byte(rest, NL) {
                CommandParse::Incomplete
            } else {
                let n2 = find_byte(rest, NL);
                CommandParse::Request {
                    filename: trim_cr(rest.take(n2)),
                    consumed: n1 + 1 + n2 + 1,
                }
            }
        } else {
            CommandParse::Violation
        }
    }
}

/// A parsed command frame consumes at least one byte and at most the whole
/// input.
pub proof fn lemma_parse_command_consumed(input: Seq<u8>)
    ensures
        parse_command(input) matches CommandParse::Close { consumed } ==> 0 < consumed
            <= input.len(),
        parse_command(input) matches CommandParse::Request { consumed, .. } ==> 0 < consumed
            <= input.len(),
{
    lemma_find_byte(input, NL);
    if contains_byte(input, NL) {
        let n1 = find_byte(input, NL);
        lemma_find_byte(input.skip(n1 + 1), NL);
    }
}

/// Framing and parsing agree: a well-formed request frame, whatever
/// follows it, parses back to exactly the filename it was built from and
/// consumes exactly its own bytes. The filename must not contain the line
/// terminator and must not end in a carriage return — otherwise the
/// textual framing itself could not carry it.
pub proof fn lemma_request_frame_parses(name: Seq<u8>, trailing: Seq<u8>)
    requires
        !contains_byte(name, NL),
        name.len() > 0 ==> name.last() != CR,
    ensures
        parse_command(request_frame(name) + trailing) == (CommandParse::Request {
            filename: name,
            consumed: request_frame(name).len() as int,
        }),
{
    let input = request_frame(name) + trailing;
    assert(input[7] == NL);
    lemma_find_byte(input, NL);
    let n1 = find_byte(input, NL);
    assert(forall|j: int| 0 <= j < 7 ==> input[j] == request_word()[j]);
    assert(forall|j: int| 0 <= j < 7 ==> request_word()[j] != NL);
    assert(n1 == 7);
    assert(input.take(7) =~= request_word());
    assert(trim_cr(input.take(7)) == request_word());
    assert(request_word().len() == 7 && close_word().len() == 5);
    assert(request_word() != close_word());
    let rest = input.skip(8);
    assert(rest =~= name + seq![NL] + trailing);
    assert(rest[name.len() as int] == NL);
    lemma_find_byte(rest, NL);
    let n2 = find_byte(rest, NL);
    assert(forall|j: int| 0 <= j < name.len() ==> rest[j] == name[j]);
    assert(forall|j: int| 0 <= j < name.len() ==> name[j] != NL);
    assert(n2 == name.len());
    assert(rest.take(name.len() as int) =~= name);
    assert(trim_cr(rest.take(n2)) == name);
}

/// Framing and parsing agree for the close frame too: whatever follows
/// it, it parses as the close command and consumes exactly its own bytes.
pub proof fn lemma_close_frame_parses(trailing: Seq<u8>)
    ensures
        parse_command(close_frame() + trailing) == (CommandParse::Close { consumed: 6 }),
{
    let input = close_frame() + trailing;
    assert(input[5] == NL);
    lemma_find_byte(input, NL);
    let n1 = find_byte(input, NL);
    assert(forall|j: int| 0 <= j < 5 ==> input[j] == close_word()[j]);
    assert(forall|j: int| 0 <= j < 5 ==> close_word()[j] != NL);
    assert(n1 == 5);
    assert(input.take(5) =~= close_word());
    assert(trim_cr(input.take(5)) == close_word());
}

/// Build the `REQUEST\n<filename>\n` frame for one file request.
pub fn encode_request(filename: &Vec<u8>) -> (frame: Vec<u8>)
    ensures
        frame@ == request_frame(filename@),
{
    let mut frame: Vec<u8> = Vec::new();
    frame.push(82);
    frame.push(69);
    frame.push(81);
    frame.push(85);
    frame.push(69);
    frame.push(83);
    frame.push(84);
    frame.push(NL);
    assert(frame@ =~= request_word() + seq![NL]);
    let mut i: usize = 0;
    while i < filename.len()
        invariant
            i <= filename.len(),
            frame@ == request_word() + seq![NL] + filename@.take(i as int),
        decreases filename.len() - i,
    {
        frame.push(filename[i]);
        assert(frame@ =~= request_word() + seq![NL] + filename@.take(i as int + 1));
        i = i + 1;
    }
    assert(filename@.take(filename.len() as int) =~= filename@);
    frame.push(NL);
    assert(frame@ =~= request_frame(filename@));
    frame
}

/// Build the `CLOSE\n` frame that ends a connection.
pub fn encode_close() -> (frame: Vec<u8>)
    ensures
        frame@ == close_frame(),
{
    let mut frame: Vec<u8> = Vec::new();
    frame.push(67);
    frame.push(76);
    frame.push(79);
    frame.push(83);
    frame.push(69);
    frame.push(NL);
    assert(frame@ =~= close_frame());
    frame
}

/// Scan `v` from `start` for the first occurrence of `b`.
pub fn find_byte_from(v: &Vec<u8>, start: usize, b: u8) -> (r: Option<usize>)
    requires
        start <= v.len(),
    ensures
        ({
            let rest = v@.skip(start as int);
            match r {
                Some(i) => {
                    &&& start <= i < v.len()
                    &&& i - start == find_byte(rest, b)
                    &&& contains_byte(rest, b)
                },
                None => !contains_byte(rest, b),
            }
        }),
{
    let ghost rest = v@.skip(start as int);
    proof {
        lemma_find_byte(rest, b);
        assert(forall|j: int| 0 <= j < rest.len() ==> rest[j] == v@[start + j]);
    }
    let mut i: usize = start;
    while i < v.len()
        invariant
            start <= i <= v.len(),
            rest == v@.skip(start as int),
            forall|j: int| start <= j < i ==> v@[j] != b,
        decreases v.len() - i,
    {
        if v[i] == b {
            proof {
                lemma_find_byte(rest, b);
                assert(forall|j: int| 0 <= j < rest.len() ==> rest[j] == v@[start + j]);
                assert(rest[i - start] == b);
                assert(contains_byte(rest, b));
                let f = find_byte(rest, b);
                if f < i - start {
                    assert(v@[start + f] != b);
                    assert(rest[f] == b);
                    assert(false);
                }
                if f > i - start {
                    assert(rest[i - start] != b);
                    assert(false);
                }
            }
            return Some(i);
        }
        i = i + 1;
    }
    proof {
        if contains_byte(rest, b) {
            let j = choose|j: int| 0 <= j < rest.len() && rest[j] == b;
            assert(v@[start + j] == b);
            assert(false);
        }
    }
    None
}

/// Copy the bytes of `v` in the range `[start, end)` into a fresh vector.
pub fn copy_range(v: &Vec<u8>, start: usize, end: usize) -> (r: Vec<u8>)
    requires
        start <= end <= v.len(),
    ensures
        r@ == v@.subrange(start as int, end as int),
{
    let mut r: Vec<u8> = Vec::new();
    let mut i: usize = start;
    while i < end
        invariant
            start <= i <= end <= v.len(),
            r@ == v@.subrange(start as int, i as int),
        decreases end - i,
    {
        r.push(v[i]);
        assert(r@ =~= v@.subrange(start as int, i as int + 1));
        i = i + 1;
    }
    r
}

/// Copy one line out of `v`, given the range `[start, end)` of its bytes
/// before the terminator, and strip one trailing carriage return.
pub fn copy_line(v: &Vec<u8>, start: usize, end: usize) -> (r: Vec<u8>)
    requires
        start <= end <= v.len(),
    ensures
        r@ == trim_cr(v@.subrange(start as int, end as int)),
{
    let ghost line = v@.subrange(start as int, end as int);
    if end > start && v[end - 1] == CR {
        let r = copy_range(v, start, end - 1);
        assert(r@ =~= trim_cr(line));
        r
    } else {
        copy_range(v, start, end)
    }
}

/// Byte-for-byte equality of two byte vectors.
pub fn bytes_eq(a: &Vec<u8>, b: &Vec<u8>) -> (r: bool)
    ensures
        r == (a@ == b@),
{
    if a.len() != b.len() {
        return false;
    }
    let mut i: usize = 0;
    while i < a.len()
        invariant
            i <= a.len(),
            a.len() == b.len(),
            forall|j: int| 0 <= j < i ==> a@[j] == b@[j],
        decreases a.len() - i,
    {
        if a[i] != b[i] {
            return false;
        }
        i = i + 1;
    }
    assert(a@ =~= b@);
    true
}

/// Whether `line` is exactly the `REQUEST` command word.
pub fn is_request_line(line: &Vec<u8>) -> (r: bool)
    ensures
        r == (line@ == request_word()),
{
    if line.len() != 7 {
        return false;
    }
    let r = line[0] == 82 && line[1] == 69 && line[2] == 81 && line[3] == 85 && line[4] == 69
        && line[5] == 83 && line[6] == 84;
    if r {
        assert(line@ =~= request_word());
    }
    r
}

/// Whether `line` is exactly the `CLOSE` command word.
pub fn is_close_line(line: &Vec<u8>) -> (r: bool)
    ensures
        r == (line@ == close_word()),
{
    if line.len() != 5 {
        return false;
    }
    let r = line[0] == 67 && line[1] == 76 && line[2] == 79 && line[3] == 83 && line[4] == 69;
    if r {
        assert(line@ =~= close_word());
    }
    r
}

} // verus!
