//! The request model and its parser.
//!
//! A request is read from the bytes that end with the first blank line. The
//! bytes are decoded as UTF-8 with replacement of what is malformed, so the
//! parser never fails on account of the encoding, and the text is then split
//! into the request line and the header lines.

use vstd::prelude::*;
use vstd::slice::slice_subrange;
use vstd::utf8::{
    decode_utf8, encode_utf8, encode_utf8_decode_utf8, encode_utf8_valid_utf8, is_ascii_chars,
    is_ascii_chars_encode_utf8, valid_utf8,
};
use crate::text::{
    chars_of, find_char, find_char_from, first_occurrence, is_space, lemma_find_char,
    lemma_first_occurrence, lemma_skip_spaces, lemma_skip_word, occurs_at, skip_spaces,
    skip_spaces_from, skip_word, skip_word_from, string_of, trim, trimmed,
};

verus! {

/// Why a request could not be parsed.
#[derive(Clone, Copy, Debug, PartialEq, Eq, Structural)]
pub enum ParseError {
    /// The input holds no line at all.
    Empty,
    /// The first line holds fewer than three tokens.
    MalformedRequestLine,
}

/// The header table of a request: header names with their values. Names are
/// told apart by their exact spelling, and a name occurs once.
#[derive(Debug)]
pub struct Headers {
    entries: Vec<(String, String)>,
}

/// The names of a list of entries, in order.
spec fn names_of(entries: Seq<(String, String)>) -> Seq<Seq<char>> {
    entries.map_values(|e: (String, String)| e.0@)
}

/// The table that a list of entries with distinct names stands for.
spec fn table_of(entries: Seq<(String, String)>) -> Map<Seq<char>, Seq<char>> {
    Map::new(
        |name: Seq<char>| names_of(entries).contains(name),
        |name: Seq<char>| entries[names_of(entries).index_of(name)].1@,
    )
}

/// The table of a list of entries holds each entry, and nothing else.
proof fn lemma_table(entries: Seq<(String, String)>)
    requires
        names_of(entries).no_duplicates(),
    ensures
        table_of(entries).dom().finite(),
        table_of(entries).dom().len() == entries.len(),
        forall|i: int|
            0 <= i < entries.len() ==> table_of(entries).contains_key(#[trigger] entries[i].0@)
                && table_of(entries)[entries[i].0@] == entries[i].1@,
        forall|name: Seq<char>| #[trigger]
            table_of(entries).contains_key(name) ==> exists|i: int|
                0 <= i < entries.len() && entries[i].0@ == name,
{
    let names = names_of(entries);
    names.unique_seq_to_set();
    assert(table_of(entries).dom() =~= names.to_set());
    assert forall|i: int| 0 <= i < entries.len() implies table_of(entries).contains_key(
        #[trigger] entries[i].0@,
    ) && table_of(entries)[entries[i].0@] == entries[i].1@ by {
        assert(names[i] == entries[i].0@);
        let j = names.index_of(names[i]);
        assert(names[j] == names[i]);
    }
    assert forall|name: Seq<char>| #[trigger]
        table_of(entries).contains_key(name) implies exists|i: int|
        0 <= i < entries.len() && entries[i].0@ == name by {
        let j = names.index_of(name);
        assert(names[j] == name);
        assert(entries[j].0@ == name);
    }
}

/// Adding an entry under a new name adds it to the table.
proof fn lemma_table_push(entries: Seq<(String, String)>, e: (String, String))
    requires
        names_of(entries).no_duplicates(),
        !table_of(entries).contains_key(e.0@),
    ensures
        names_of(entries.push(e)).no_duplicates(),
        table_of(entries.push(e)) == table_of(entries).insert(e.0@, e.1@),
{
    let after = entries.push(e);
    assert(names_of(after) =~= names_of(entries).push(e.0@));
    lemma_table(entries);
    lemma_table(after);
    assert forall|name: Seq<char>|
        table_of(after).contains_key(name) <==> table_of(entries).insert(
            e.0@,
            e.1@,
        ).contains_key(name) by {
        if table_of(after).contains_key(name) {
            let i = choose|i: int| 0 <= i < after.len() && after[i].0@ == name;
            if i < entries.len() {
                assert(entries[i].0@ == name);
            }
        }
        if table_of(entries).contains_key(name) {
            let i = choose|i: int| 0 <= i < entries.len() && entries[i].0@ == name;
            assert(after[i].0@ == name);
        }
        if name == e.0@ {
            assert(after[entries.len() as int].0@ == name);
        }
    }
    assert forall|name: Seq<char>| table_of(after).contains_key(name) implies table_of(
        after,
    )[name] == table_of(entries).insert(e.0@, e.1@)[name] by {
        let i = choose|i: int| 0 <= i < after.len() && after[i].0@ == name;
        if i < entries.len() {
            assert(entries[i].0@ == name);
        }
    }
    assert(table_of(after) =~= table_of(entries).insert(e.0@, e.1@));
}

/// Putting another value under the name of an entry puts it in the table.
proof fn lemma_table_update(entries: Seq<(String, String)>, at: int, e: (String, String))
    requires
        names_of(entries).no_duplicates(),
        0 <= at < entries.len(),
        entries[at].0@ == e.0@,
    ensures
        names_of(entries.update(at, e)).no_duplicates(),
        table_of(entries.update(at, e)) == table_of(entries).insert(e.0@, e.1@),
{
    let after = entries.update(at, e);
    assert(names_of(after) =~= names_of(entries));
    lemma_table(entries);
    lemma_table(after);
    assert forall|name: Seq<char>| table_of(after).contains_key(name) implies table_of(
        after,
    )[name] == table_of(entries).insert(e.0@, e.1@)[name] by {
        let i = choose|i: int| 0 <= i < after.len() && after[i].0@ == name;
        if i != at {
            assert(entries[i].0@ == name);
            assert(names_of(entries)[i] == name && names_of(entries)[at] == e.0@);
        } else {
            assert(after[at].0@ == e.0@);
        }
    }
    assert(table_of(after) =~= table_of(entries).insert(e.0@, e.1@));
}

impl View for Headers {
    type V = Map<Seq<char>, Seq<char>>;

    closed spec fn view(&self) -> Map<Seq<char>, Seq<char>> {
        table_of(self.entries@)
    }
}

impl Headers {
    #[verifier::type_invariant]
    spec fn distinct_names(&self) -> bool {
        names_of(self.entries@).no_duplicates()
    }

    /// An empty table.
    pub fn new() -> (out: Headers)
        ensures
            out@ == Map::<Seq<char>, Seq<char>>::empty(),
    {
        let out = Headers { entries: Vec::new() };
        assert(out@ =~= Map::<Seq<char>, Seq<char>>::empty());
        out
    }

    /// The position of the entry named `name`, if there is one.
    fn position(&self, name: &String) -> (r: Option<usize>)
        ensures
            match r {
                Some(i) => i < self.entries@.len() && self.entries@[i as int].0@ == name@,
                None => !self@.contains_key(name@),
            },
    {
        proof {
            use_type_invariant(self);
            lemma_table(self.entries@);
        }
        let mut i: usize = 0;
        while i < self.entries.len()
            invariant
                i <= self.entries@.len(),
                forall|k: int| 0 <= k < i ==> self.entries@[k].0@ != name@,
            decreases self.entries@.len() - i,
        {
            if self.entries[i].0 == *name {
                return Some(i);
            }
            i += 1;
        }
        None
    }

    /// Sets the value of `name`, replacing the value it had.
    pub fn insert(&mut self, name: String, value: String)
        ensures
            final(self)@ == old(self)@.insert(name@, value@),
    {
        proof {
            use_type_invariant(&*self);
        }
        let found = self.position(&name);
        let mut entries: Vec<(String, String)> = Vec::new();
        core::mem::swap(&mut self.entries, &mut entries);
        match found {
            Some(i) => {
                proof {
                    lemma_table_update(entries@, i as int, (name, value));
                }
                entries.set(i, (name, value));
            },
            None => {
                proof {
                    lemma_table_push(entries@, (name, value));
                }
                entries.push((name, value));
            },
        }
        core::mem::swap(&mut self.entries, &mut entries);
    }

    /// The value of `name`, if the table has it.
    pub fn get(&self, name: &str) -> (r: Option<&String>)
        ensures
            match r {
                Some(v) => self@.contains_key(name@) && v@ == self@[name@],
                None => !self@.contains_key(name@),
            },
    {
        proof {
            use_type_invariant(self);
            lemma_table(self.entries@);
        }
        let key = String::from_str(name);
        match self.position(&key) {
            Some(i) => Some(&self.entries[i].1),
            None => None,
        }
    }

    /// Whether the table has `name`.
    pub fn contains_key(&self, name: &str) -> (r: bool)
        ensures
            r == self@.contains_key(name@),
    {
        self.get(name).is_some()
    }

    /// The number of names in the table.
    pub fn len(&self) -> (n: usize)
        ensures
            self@.dom().finite(),
            n == self@.len(),
    {
        proof {
            use_type_invariant(self);
            lemma_table(self.entries@);
        }
        self.entries.len()
    }

    /// Whether the table has no name.
    pub fn is_empty(&self) -> (r: bool)
        ensures
            r == (self@ == Map::<Seq<char>, Seq<char>>::empty()),
    {
        proof {
            use_type_invariant(self);
            lemma_table(self.entries@);
            if self.entries@.len() == 0 {
                assert(self@ =~= Map::<Seq<char>, Seq<char>>::empty());
            }
        }
        self.entries.len() == 0
    }
}

/// A parsed request.
#[derive(Debug)]
pub struct Request {
    /// The first token of the request line.
    pub method: String,
    /// The request target, as it was received.
    pub path: String,
    /// The protocol token of the request line.
    pub version: String,
    /// The header lines up to the first blank line.
    pub headers: Headers,
    /// What followed the first blank line in the input.
    pub body: String,
}

/// What a request holds, as plain text.
pub struct RequestView {
    pub method: Seq<char>,
    pub path: Seq<char>,
    pub version: Seq<char>,
    pub headers: Map<Seq<char>, Seq<char>>,
    pub body: Seq<char>,
}

impl View for Request {
    type V = RequestView;

    open spec fn view(&self) -> RequestView {
        RequestView {
            method: self.method@,
            path: self.path@,
            version: self.version@,
            headers: self.headers@,
            body: self.body@,
        }
    }
}

/// The end of the first line of `s`: the position of its first line feed, or
/// the length of `s` if it has none.
pub open spec fn line_end(s: Seq<char>) -> int {
    find_char(s, '\n', 0)
}

/// The first line of `s`, without its line ending: a line feed, or a
/// carriage return and a line feed. A last line that no line feed ends is
/// taken whole.
pub open spec fn first_line(s: Seq<char>) -> Seq<char> {
    let e = line_end(s);
    if e < s.len() {
        if e > 0 && s[e - 1] == '\r' {
            s.take(e - 1)
        } else {
            s.take(e)
        }
    } else {
        s
    }
}

/// What follows the first line of `s` and its line ending.
pub open spec fn after_first_line(s: Seq<char>) -> Seq<char> {
    let e = line_end(s);
    if e < s.len() {
        s.skip(e + 1)
    } else {
        Seq::empty()
    }
}

/// The first three whitespace-separated tokens of a request line, if it has
/// as many.
pub open spec fn request_line(line: Seq<char>) -> Option<(Seq<char>, Seq<char>, Seq<char>)> {
    let a0 = skip_spaces(line, 0);
    let b0 = skip_word(line, a0);
    let a1 = skip_spaces(line, b0);
    let b1 = skip_word(line, a1);
    let a2 = skip_spaces(line, b1);
    let b2 = skip_word(line, a2);
    if a2 < line.len() {
        Some((line.subrange(a0, b0), line.subrange(a1, b1), line.subrange(a2, b2)))
    } else {
        None
    }
}

/// The table `acc` after the header line `line`: a line with a colon sets the
/// trimmed text before its first colon to the trimmed text after it, and a
/// line without a colon changes nothing.
pub open spec fn with_header_line(
    acc: Map<Seq<char>, Seq<char>>,
    line: Seq<char>,
) -> Map<Seq<char>, Seq<char>> {
    let c = find_char(line, ':', 0);
    if c < line.len() {
        acc.insert(trimmed(line.take(c)), trimmed(line.skip(c + 1)))
    } else {
        acc
    }
}

/// The table `acc` after the lines of `rest` up to its first empty line,
/// taken in order.
pub open spec fn header_table(
    rest: Seq<char>,
    acc: Map<Seq<char>, Seq<char>>,
) -> Map<Seq<char>, Seq<char>>
    decreases rest.len(),
{
    if rest.len() == 0 {
        acc
    } else {
        let line = first_line(rest);
        if line.len() == 0 {
            acc
        } else {
            proof {
                lemma_find_char(rest, '\n', 0);
            }
            header_table(after_first_line(rest), with_header_line(acc, line))
        }
    }
}

/// What parsing makes of the decoded text `text`, with `body` for the body.
pub open spec fn parse_text(text: Seq<char>, body: Seq<char>) -> Result<RequestView, ParseError> {
    if text.len() == 0 {
        Err(ParseError::Empty)
    } else {
        match request_line(first_line(text)) {
            None => Err(ParseError::MalformedRequestLine),
            Some((method, path, version)) => Ok(
                RequestView {
                    method,
                    path,
                    version,
                    headers: header_table(after_first_line(text), Map::empty()),
                    body,
                },
            ),
        }
    }
}

/// The bytes that end the head of a request: CR LF CR LF.
pub open spec fn head_delimiter() -> Seq<u8> {
    seq![13u8, 10u8, 13u8, 10u8]
}

/// Where the head of `raw` ends: just behind its first blank line, if it has
/// one.
pub open spec fn head_end(raw: Seq<u8>) -> Option<int> {
    match first_occurrence(raw, head_delimiter()) {
        Some(i) => Some(i + 4),
        None => None,
    }
}

/// The text that `String::from_utf8_lossy` makes of `bytes`: their decoding
/// as UTF-8, with U+FFFD in place of what is malformed.
pub uninterp spec fn utf8_lossy(bytes: Seq<u8>) -> Seq<char>;

/// The text that `bytes` are read as: the text that they encode where they
/// are UTF-8, and what `String::from_utf8_lossy` makes of them where they
/// are not.
pub open spec fn text_of(bytes: Seq<u8>) -> Seq<char> {
    if valid_utf8(bytes) {
        decode_utf8(bytes)
    } else {
        utf8_lossy(bytes)
    }
}

/// The characters of the same values as `bytes`.
pub open spec fn ascii_text(bytes: Seq<u8>) -> Seq<char> {
    Seq::new(bytes.len(), |i: int| bytes[i] as char)
}

/// ASCII bytes are read as the characters that they are.
pub proof fn lemma_ascii_is_read_as_it_stands(bytes: Seq<u8>)
    requires
        forall|i: int| 0 <= i < bytes.len() ==> #[trigger] bytes[i] < 0x80,
    ensures
        valid_utf8(bytes),
        text_of(bytes) == ascii_text(bytes),
{
    let chars = ascii_text(bytes);
    assert(is_ascii_chars(chars)) by {
        assert forall|i: int| 0 <= i < chars.len() implies '\0' <= #[trigger] chars[i]
            <= '\u{7f}' by {
            assert(bytes[i] < 0x80);
        }
    }
    is_ascii_chars_encode_utf8(chars);
    assert(encode_utf8(chars) =~= bytes) by {
        assert forall|i: int| 0 <= i < bytes.len() implies encode_utf8(chars)[i] == bytes[i] by {
            assert(chars[i] as u8 == encode_utf8(chars)[i]);
            assert(bytes[i] < 0x80);
        }
    }
    encode_utf8_valid_utf8(chars);
    encode_utf8_decode_utf8(chars);
}

/// What parsing makes of the bytes `raw`. The whole input is read as text for
/// the request line and the headers; the body is the text of the bytes behind
/// the first blank line, and empty where there is none.
pub open spec fn parse_bytes(raw: Seq<u8>) -> Result<RequestView, ParseError> {
    parse_text(
        text_of(raw),
        match head_end(raw) {
            Some(n) => text_of(raw.skip(n)),
            None => Seq::empty(),
        },
    )
}

/// The three tokens of a request line are not empty and hold no whitespace,
/// and a line has them exactly when it holds three runs of characters that
/// are no whitespace.
pub proof fn lemma_request_line_tokens(line: Seq<char>)
    ensures
        match request_line(line) {
            Some((method, path, version)) => {
                &&& method.len() > 0 && path.len() > 0 && version.len() > 0
                &&& forall|k: int| 0 <= k < method.len() ==> !is_space(#[trigger] method[k])
                &&& forall|k: int| 0 <= k < path.len() ==> !is_space(#[trigger] path[k])
                &&& forall|k: int| 0 <= k < version.len() ==> !is_space(#[trigger] version[k])
            },
            None => true,
        },
{
    let a0 = skip_spaces(line, 0);
    lemma_skip_spaces(line, 0);
    let b0 = skip_word(line, a0);
    lemma_skip_word(line, a0);
    let a1 = skip_spaces(line, b0);
    lemma_skip_spaces(line, b0);
    let b1 = skip_word(line, a1);
    lemma_skip_word(line, a1);
    let a2 = skip_spaces(line, b1);
    lemma_skip_spaces(line, b1);
    let b2 = skip_word(line, a2);
    lemma_skip_word(line, a2);
    if a2 < line.len() {
        assert forall|k: int| 0 <= k < b0 - a0 implies !is_space(
            #[trigger] line.subrange(a0, b0)[k],
        ) by {
            assert(line.subrange(a0, b0)[k] == line[a0 + k]);
        }
        assert forall|k: int| 0 <= k < b1 - a1 implies !is_space(
            #[trigger] line.subrange(a1, b1)[k],
        ) by {
            assert(line.subrange(a1, b1)[k] == line[a1 + k]);
        }
        assert forall|k: int| 0 <= k < b2 - a2 implies !is_space(
            #[trigger] line.subrange(a2, b2)[k],
        ) by {
            assert(line.subrange(a2, b2)[k] == line[a2 + k]);
        }
    }
}

/// The first line of a text holds no line feed, and what follows it is
/// shorter than the text.
pub proof fn lemma_first_line(s: Seq<char>)
    ensures
        !first_line(s).contains('\n'),
        first_line(s).len() <= s.len(),
        s.len() > 0 ==> after_first_line(s).len() < s.len(),
{
    lemma_find_char(s, '\n', 0);
    let e = line_end(s);
    if first_line(s).contains('\n') {
        let k = first_line(s).index_of('\n');
        assert(s[k] == '\n');
    }
}

/// Splits `s` into its first line and what follows it.
fn split_first_line(s: &[char]) -> (r: (&[char], &[char]))
    ensures
        r.0@ == first_line(s@),
        r.1@ == after_first_line(s@),
        s@.len() > 0 ==> r.1@.len() < s@.len(),
{
    let e = find_char_from(s, '\n', 0);
    if e < s.len() {
        let rest = slice_subrange(s, e + 1, s.len());
        if e > 0 && s[e - 1] == '\r' {
            (slice_subrange(s, 0, e - 1), rest)
        } else {
            (slice_subrange(s, 0, e), rest)
        }
    } else {
        assert(s@.subrange(0, s@.len() as int) =~= s@);
        (slice_subrange(s, 0, s.len()), slice_subrange(s, 0, 0))
    }
}

/// Finds where the head of `raw` ends.
pub fn find_head_end(raw: &[u8]) -> (r: Option<usize>)
    ensures
        match r {
            Some(n) => head_end(raw@) == Some(n as int),
            None => head_end(raw@) is None,
        },
{
    if raw.len() < 4 {
        proof {
            lemma_first_occurrence(raw@, head_delimiter());
        }
        return None;
    }
    let last: usize = raw.len() - 4;
    let mut i: usize = 0;
    loop
        invariant
            i <= last,
            last == raw.len() - 4,
            forall|j: int| 0 <= j < i ==> !occurs_at(raw@, head_delimiter(), j),
        decreases last - i,
    {
        proof {
            lemma_first_occurrence(raw@, head_delimiter());
        }
        if raw[i] == 13 && raw[i + 1] == 10 && raw[i + 2] == 13 && raw[i + 3] == 10 {
            assert(occurs_at(raw@, head_delimiter(), i as int)) by {
                assert(head_delimiter().len() == 4);
                assert(raw@.subrange(i as int, i + 4) =~= head_delimiter());
            }
            return Some(i + 4);
        }
        assert(!occurs_at(raw@, head_delimiter(), i as int)) by {
            let w = raw@.subrange(i as int, i + 4);
            assert(w[0] == raw@[i as int] && w[1] == raw@[i + 1] && w[2] == raw@[i + 2] && w[3]
                == raw@[i + 3]);
        }
        if i == last {
            return None;
        }
        i += 1;
    }
}

/// `String::from_utf8_lossy` of std: decodes bytes as UTF-8 and puts U+FFFD
/// in place of each malformed sequence. It fails on no input, and bytes that
/// are UTF-8 already come out as the text that they encode.
#[verifier::external_body]
fn decode_lossy(bytes: &[u8]) -> (out: String)
    ensures
        out@ == utf8_lossy(bytes@),
        valid_utf8(bytes@) ==> out@ == decode_utf8(bytes@),
{
    String::from_utf8_lossy(bytes).into_owned()
}

/// Reads bytes as text.
pub fn read_text(bytes: &[u8]) -> (out: String)
    ensures
        out@ == text_of(bytes@),
{
    decode_lossy(bytes)
}

impl Request {
    /// Parses the bytes of a request. Bytes that are UTF-8 are read as the
    /// text that they encode, and what is no UTF-8 is decoded with
    /// replacement, so only the text decides whether parsing succeeds: an
    /// empty text is `Empty`, a first line of fewer than three tokens is
    /// `MalformedRequestLine`, and every other input gives a request.
    pub fn parse(raw: &[u8]) -> (res: Result<Request, ParseError>)
        ensures
            match res {
                Ok(req) => parse_bytes(raw@) == Ok::<RequestView, ParseError>(req@),
                Err(e) => parse_bytes(raw@) == Err::<RequestView, ParseError>(e),
            },
            res matches Ok(req) ==> req.method@.len() > 0 && req.path@.len() > 0
                && req.version@.len() > 0,
            raw@.len() == 0 ==> res matches Err(ParseError::Empty),
    {
        proof {
            if raw@.len() == 0 {
                assert(valid_utf8(raw@));
                assert(decode_utf8(raw@).len() == 0);
            }
        }
        let text = read_text(raw);
        let body = match find_head_end(raw) {
            Some(n) => read_text(slice_subrange(raw, n, raw.len())),
            None => String::new(),
        };
        Request::from_text(text.as_str(), body)
    }

    /// Parses decoded text: the request line, then the header lines up to the
    /// first empty line. `body` becomes the body as it is.
    pub fn from_text(text: &str, body: String) -> (res: Result<Request, ParseError>)
        ensures
            match res {
                Ok(req) => parse_text(text@, body@) == Ok::<RequestView, ParseError>(req@),
                Err(e) => parse_text(text@, body@) == Err::<RequestView, ParseError>(e),
            },
            res matches Ok(req) ==> req.method@.len() > 0 && req.path@.len() > 0
                && req.version@.len() > 0,
    {
        let chars = chars_of(text);
        if chars.len() == 0 {
            return Err(ParseError::Empty);
        }
        let (line, after) = split_first_line(chars.as_slice());
        let a0 = skip_spaces_from(line, 0);
        let b0 = skip_word_from(line, a0);
        let a1 = skip_spaces_from(line, b0);
        let b1 = skip_word_from(line, a1);
        let a2 = skip_spaces_from(line, b1);
        let b2 = skip_word_from(line, a2);
        if a2 >= line.len() {
            return Err(ParseError::MalformedRequestLine);
        }
        proof {
            lemma_request_line_tokens(line@);
        }
        let method = string_of(slice_subrange(line, a0, b0));
        let path = string_of(slice_subrange(line, a1, b1));
        let version = string_of(slice_subrange(line, a2, b2));
        let mut headers = Headers::new();
        let mut rest: &[char] = after;
        let ghost all = after@;
        let ghost empty = Map::<Seq<char>, Seq<char>>::empty();
        while rest.len() > 0
            invariant_except_break
                header_table(rest@, headers@) == header_table(all, empty),
            ensures
                headers@ == header_table(all, empty),
            decreases rest@.len(),
        {
            let (header, next) = split_first_line(rest);
            if header.len() == 0 {
                break;
            }
            let c = find_char_from(header, ':', 0);
            if c < header.len() {
                let name = string_of(trim(slice_subrange(header, 0, c)));
                let value = string_of(trim(slice_subrange(header, c + 1, header.len())));
                headers.insert(name, value);
            }
            rest = next;
        }
        Ok(Request { method, path, version, headers, body })
    }
}

} // verus!
