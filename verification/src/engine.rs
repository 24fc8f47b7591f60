//! The inspection engine: static signatures matched against the normalised
//! path and body of a request.
//!
//! Normalisation undoes what commonly hides a payload: `+` for a space,
//! percent-encoding (also applied several times over) and upper case. The
//! verdict is a function of the request and the rule set alone.

use vstd::prelude::*;
use vstd::utf8::{
    char_u32_cast, decode_utf8, encode_utf8, encode_utf8_decode_utf8, encode_utf8_valid_utf8,
    is_ascii_chars, is_ascii_chars_encode_utf8, valid_utf8,
};
use crate::http::{Request, RequestView};
use crate::text::{
    chars_of, contains_chars, contains_seq, has_char, lemma_contains_seq_trans, same_chars,
    string_of,
};

verus! {

/// What the engine decides about a request.
#[derive(Debug, PartialEq, Eq)]
pub enum Verdict {
    /// The request may pass.
    Allow,
    /// The request is refused, for the reason given.
    Block(String),
}

/// A verdict, with the reason as plain text.
pub enum VerdictView {
    Allow,
    Block(Seq<char>),
}

impl View for Verdict {
    type V = VerdictView;

    open spec fn view(&self) -> VerdictView {
        match self {
            Verdict::Allow => VerdictView::Allow,
            Verdict::Block(reason) => VerdictView::Block(reason@),
        }
    }
}

/// The text held a NUL character, which no request may carry.
#[derive(Clone, Copy, Debug, PartialEq, Eq, Structural)]
pub struct NullByte;

/// The rules of an engine: the methods it lets pass and its three lists of
/// signatures, each in the order in which it is tried.
pub struct RuleSet {
    pub allowed_methods: Seq<Seq<char>>,
    pub sqli: Seq<Seq<char>>,
    pub xss: Seq<Seq<char>>,
    pub traversal: Seq<Seq<char>>,
}

/// The rules that every engine is built with.
pub open spec fn default_rules() -> RuleSet {
    RuleSet {
        allowed_methods: seq!["GET"@, "POST"@, "HEAD"@],
        sqli: seq![
            "drop table"@,
            "or 1=1"@,
            "union select"@,
            "--"@,
            "sleep("@,
            "pg_sleep"@,
            "waitfor delay"@,
            "select * from"@,
        ],
        xss: seq![
            "<script>"@,
            "javascript:"@,
            "onerror="@,
            "onload="@,
            "alert("@,
            "document.cookie"@,
            "vbscript:"@,
        ],
        traversal: seq![
            "../"@,
            "..\\"@,
            "/etc/passwd"@,
            "c:\\windows"@,
            "%2e%2e%2f"@,
            ".env"@,
            "config.php"@,
        ],
    }
}

/// How many rounds of decoding are applied to a text, at most.
pub const MAX_DECODE_ROUNDS: u32 = 5;

/// `s` with a space in place of each `+`.
pub open spec fn plus_to_space(s: Seq<char>) -> Seq<char> {
    s.map_values(|c: char| if c == '+' { ' ' } else { c })
}

/// Whether `b` is an ASCII hexadecimal digit, of either case.
pub open spec fn is_hex_digit(b: u8) -> bool {
    (0x30 <= b <= 0x39) || (0x41 <= b <= 0x46) || (0x61 <= b <= 0x66)
}

/// The value of the hexadecimal digit `b`.
pub open spec fn hex_value(b: u8) -> int {
    if 0x30 <= b <= 0x39 {
        b - 0x30
    } else if 0x41 <= b <= 0x46 {
        b - 0x41 + 10
    } else {
        b - 0x61 + 10
    }
}

/// `bytes` with the byte of that value in place of each `%` that two
/// hexadecimal digits follow, read from left to right. Any other `%` stays.
pub open spec fn percent_decoded(bytes: Seq<u8>) -> Seq<u8>
    decreases bytes.len(),
{
    if bytes.len() == 0 {
        bytes
    } else if bytes[0] == 0x25 && bytes.len() >= 3 && is_hex_digit(bytes[1]) && is_hex_digit(
        bytes[2],
    ) {
        seq![(hex_value(bytes[1]) * 16 + hex_value(bytes[2])) as u8] + percent_decoded(
            bytes.skip(3),
        )
    } else {
        seq![bytes[0]] + percent_decoded(bytes.skip(1))
    }
}

/// One round of decoding: a space for each `+`, then percent-decoding of the
/// UTF-8 bytes. `None` where what comes out is no UTF-8.
pub open spec fn decode_step(s: Seq<char>) -> Option<Seq<char>> {
    let bytes = percent_decoded(encode_utf8(plus_to_space(s)));
    if valid_utf8(bytes) {
        Some(decode_utf8(bytes))
    } else {
        None
    }
}

/// The text that decoding settles on, starting from `current` after `round`
/// rounds; `None` where a NUL character turns up on the way. Decoding stops
/// when a round fails, when it changes nothing, or when `MAX_DECODE_ROUNDS`
/// rounds have been applied: the result of a further round is then left
/// aside.
pub open spec fn settle(current: Seq<char>, round: nat) -> Option<Seq<char>>
    decreases MAX_DECODE_ROUNDS - round,
{
    if current.contains('\0') {
        None
    } else {
        match decode_step(current) {
            None => Some(current),
            Some(next) => if next == current || round >= MAX_DECODE_ROUNDS {
                Some(current)
            } else {
                settle(next, round + 1)
            },
        }
    }
}

/// The lower-case form that `str::to_lowercase` gives of `s`.
pub uninterp spec fn lowercase_of(s: Seq<char>) -> Seq<char>;

/// The normalised form of `s`: decoded until it settles, then in lower case.
/// `None` where a NUL character turns up.
pub open spec fn normalized(s: Seq<char>) -> Option<Seq<char>> {
    match settle(s, 0) {
        Some(text) => Some(lowercase_of(text)),
        None => None,
    }
}

/// The first position at or after `i` whose signature stands in `payload`, or
/// the length of `sigs` if there is none.
pub open spec fn first_hit_from(sigs: Seq<Seq<char>>, payload: Seq<char>, i: int) -> int
    decreases sigs.len() - i,
{
    if 0 <= i < sigs.len() && !contains_seq(payload, sigs[i]) {
        first_hit_from(sigs, payload, i + 1)
    } else {
        i
    }
}

/// The first signature of `sigs` that stands in `payload`, if there is one.
pub open spec fn first_hit(sigs: Seq<Seq<char>>, payload: Seq<char>) -> Option<Seq<char>> {
    let i = first_hit_from(sigs, payload, 0);
    if i < sigs.len() {
        Some(sigs[i])
    } else {
        None
    }
}

/// The text that signatures are matched against: the normalised path, a
/// space, the normalised body.
pub open spec fn payload_of(path: Seq<char>, body: Seq<char>) -> Seq<char> {
    path + seq![' '] + body
}

/// The reason that names a signature under a label, in single quotes.
pub open spec fn signature_reason(label: Seq<char>, sig: Seq<char>) -> Seq<char> {
    label + seq!['\''] + sig + seq!['\'']
}

/// The verdict on a normalised path and body: a line break in the path is
/// refused, then the SQL injection, the cross-site scripting and the path
/// traversal signatures are tried, each list in its order, and the first
/// signature found in the payload gives the reason.
pub open spec fn scan_verdict(rules: RuleSet, path: Seq<char>, body: Seq<char>) -> VerdictView {
    let payload = payload_of(path, body);
    if path.contains('\r') || path.contains('\n') {
        VerdictView::Block("CRLF Injection Detected"@)
    } else if let Some(sig) = first_hit(rules.sqli, payload) {
        VerdictView::Block(signature_reason("SQL Injection: "@, sig))
    } else if let Some(sig) = first_hit(rules.xss, payload) {
        VerdictView::Block(signature_reason("XSS: "@, sig))
    } else if let Some(sig) = first_hit(rules.traversal, payload) {
        VerdictView::Block(signature_reason("Path Traversal: "@, sig))
    } else {
        VerdictView::Allow
    }
}

/// The verdict on a request. The checks come in this order, and the first
/// that fails gives the reason: the method, both length headers at once, the
/// `Host` header, a NUL character in the path or the body, and then what
/// `scan_verdict` finds in their normalised forms.
pub open spec fn verdict_of(rules: RuleSet, req: RequestView) -> VerdictView {
    if !rules.allowed_methods.contains(req.method) {
        VerdictView::Block("Method Not Allowed: "@ + req.method)
    } else if req.headers.contains_key("Content-Length"@) && req.headers.contains_key(
        "Transfer-Encoding"@,
    ) {
        VerdictView::Block("Smuggling Attempt: CL and TE headers present"@)
    } else if !req.headers.contains_key("Host"@) {
        VerdictView::Block("Protocol Anomaly: Missing Host Header"@)
    } else {
        match (normalized(req.path), normalized(req.body)) {
            (Some(path), Some(body)) => scan_verdict(rules, path, body),
            _ => VerdictView::Block("Null Byte Injection Detected"@),
        }
    }
}

/// `first_hit_from` passes over no signature that stands in the payload, and
/// stops on one that does or at the end.
pub proof fn lemma_first_hit_from(sigs: Seq<Seq<char>>, payload: Seq<char>, i: int)
    requires
        0 <= i <= sigs.len(),
    ensures
        i <= first_hit_from(sigs, payload, i) <= sigs.len(),
        forall|k: int|
            i <= k < first_hit_from(sigs, payload, i) ==> !contains_seq(
                payload,
                #[trigger] sigs[k],
            ),
        first_hit_from(sigs, payload, i) < sigs.len() ==> contains_seq(
            payload,
            sigs[first_hit_from(sigs, payload, i)],
        ),
    decreases sigs.len() - i,
{
    if i < sigs.len() && !contains_seq(payload, sigs[i]) {
        lemma_first_hit_from(sigs, payload, i + 1);
    }
}

/// Whether another round of decoding leaves `text` as it is: the round
/// fails, or it gives `text` back.
pub open spec fn is_settled(text: Seq<char>) -> bool {
    decode_step(text) is None || decode_step(text) == Some(text)
}

/// `s` after `n` rounds of decoding; a round that fails changes nothing.
pub open spec fn decoded_times(s: Seq<char>, n: nat) -> Seq<char>
    decreases n,
{
    if n == 0 {
        s
    } else {
        match decode_step(s) {
            Some(next) => decoded_times(next, (n - 1) as nat),
            None => s,
        }
    }
}

/// How many rounds of decoding `settle` applies from `current` after `round`
/// rounds.
pub open spec fn rounds_of(current: Seq<char>, round: nat) -> nat
    decreases MAX_DECODE_ROUNDS - round,
{
    if current.contains('\0') {
        0
    } else {
        match decode_step(current) {
            None => 0,
            Some(next) => if next == current || round >= MAX_DECODE_ROUNDS {
                0
            } else {
                1 + rounds_of(next, round + 1)
            },
        }
    }
}

/// From any round on, `settle` applies no more rounds than are left of
/// `MAX_DECODE_ROUNDS`, and no round to a text that is settled. What it gives
/// is the text after that many rounds and holds no NUL character, and it is
/// settled unless the rounds were used up.
pub proof fn lemma_settle_from(current: Seq<char>, round: nat)
    requires
        round <= MAX_DECODE_ROUNDS,
    ensures
        round + rounds_of(current, round) <= MAX_DECODE_ROUNDS,
        forall|k: nat|
            k < rounds_of(current, round) ==> !is_settled(#[trigger] decoded_times(current, k)),
        settle(current, round) matches Some(text) ==> {
            &&& text == decoded_times(current, rounds_of(current, round))
            &&& !text.contains('\0')
            &&& round + rounds_of(current, round) < MAX_DECODE_ROUNDS ==> is_settled(text)
        },
    decreases MAX_DECODE_ROUNDS - round,
{
    if !current.contains('\0') {
        if let Some(next) = decode_step(current) {
            if next != current && round < MAX_DECODE_ROUNDS {
                lemma_settle_from(next, round + 1);
                assert forall|k: nat| k < rounds_of(current, round) implies !is_settled(
                    #[trigger] decoded_times(current, k),
                ) by {
                    if k > 0 {
                        assert(decoded_times(current, k) == decoded_times(next, (k - 1) as nat));
                    }
                }
            }
        }
    }
}

/// Normalisation applies the least number of rounds of decoding after which
/// another round would change nothing or fail, and never more than
/// `MAX_DECODE_ROUNDS`: where that many do not settle the text, it is taken
/// as it then stands.
pub proof fn lemma_normalize_bounded(s: Seq<char>)
    ensures
        rounds_of(s, 0) <= MAX_DECODE_ROUNDS,
        forall|k: nat| k < rounds_of(s, 0) ==> !is_settled(#[trigger] decoded_times(s, k)),
        settle(s, 0) matches Some(text) ==> {
            &&& text == decoded_times(s, rounds_of(s, 0))
            &&& normalized(s) == Some(lowercase_of(text))
            &&& rounds_of(s, 0) < MAX_DECODE_ROUNDS ==> is_settled(text)
        },
{
    lemma_settle_from(s, 0);
}

/// Decoding a text that decoding has settled on gives the same text. That is
/// so whenever the rounds were not used up, and also when they were and the
/// text is settled all the same.
pub proof fn lemma_settle_idempotent(s: Seq<char>)
    ensures
        settle(s, 0) matches Some(text) ==> (rounds_of(s, 0) < MAX_DECODE_ROUNDS || is_settled(
            text,
        ) ==> settle(text, 0) == Some(text)),
{
    lemma_settle_from(s, 0);
}

/// Bytes without a `%` are their own percent-decoding.
pub proof fn lemma_no_percent_unchanged(bytes: Seq<u8>)
    requires
        !bytes.contains(0x25u8),
    ensures
        percent_decoded(bytes) == bytes,
    decreases bytes.len(),
{
    if bytes.len() > 0 {
        assert(bytes[0] != 0x25u8);
        assert forall|k: int| 0 <= k < bytes.skip(1).len() implies bytes.skip(1)[k] != 0x25u8 by {
            assert(bytes.skip(1)[k] == bytes[k + 1]);
        }
        lemma_no_percent_unchanged(bytes.skip(1));
        assert(seq![bytes[0]] + bytes.skip(1) =~= bytes);
    }
}

/// A round of decoding leaves an ASCII text without `+` and `%` as it is.
pub proof fn lemma_plain_text_is_settled(text: Seq<char>)
    requires
        is_ascii_chars(text),
        !text.contains('+'),
        !text.contains('%'),
    ensures
        decode_step(text) == Some(text),
{
    assert(plus_to_space(text) =~= text);
    let bytes = encode_utf8(text);
    is_ascii_chars_encode_utf8(text);
    assert forall|k: int| 0 <= k < bytes.len() implies bytes[k] != 0x25u8 by {
        assert(text[k] as u8 == bytes[k]);
        assert(text[k] != '%');
        if bytes[k] == 0x25u8 {
            char_u32_cast(text[k], 0x25u32);
        }
    }
    lemma_no_percent_unchanged(bytes);
    encode_utf8_valid_utf8(text);
    encode_utf8_decode_utf8(text);
}

/// Whether `text` is in normal form: it holds no NUL character, another round
/// of decoding leaves it as it is, and it is its own lower-case form.
pub open spec fn is_normal(text: Seq<char>) -> bool {
    !text.contains('\0') && is_settled(text) && lowercase_of(text) == text
}

/// Normalising a text that is in normal form gives the same text.
pub proof fn lemma_normal_is_fixed(text: Seq<char>)
    requires
        is_normal(text),
    ensures
        normalized(text) == Some(text),
{
}

/// Normalising what normalisation gave changes nothing, where that is in
/// normal form; and the request with its path and body so replaced gets the
/// same verdict.
pub proof fn lemma_normalized_again(rules: RuleSet, req: RequestView)
    requires
        normalized(req.path) matches Some(path) && is_normal(path),
        normalized(req.body) matches Some(body) && is_normal(body),
    ensures
        normalized(normalized(req.path).unwrap()) == normalized(req.path),
        normalized(normalized(req.body).unwrap()) == normalized(req.body),
        verdict_of(
            rules,
            RequestView {
                path: normalized(req.path).unwrap(),
                body: normalized(req.body).unwrap(),
                ..req
            },
        ) == verdict_of(rules, req),
{
    lemma_normal_is_fixed(normalized(req.path).unwrap());
    lemma_normal_is_fixed(normalized(req.body).unwrap());
}

/// Whether one of the signatures of `rules` stands in `payload`.
pub open spec fn holds_signature(rules: RuleSet, payload: Seq<char>) -> bool {
    first_hit(rules.sqli, payload) is Some || first_hit(rules.xss, payload) is Some || first_hit(
        rules.traversal,
        payload,
    ) is Some
}

/// The normalised payload of a request, where its path and body hold no NUL
/// character.
pub open spec fn normal_payload(req: RequestView) -> Option<Seq<char>> {
    match (normalized(req.path), normalized(req.body)) {
        (Some(path), Some(body)) => Some(payload_of(path, body)),
        _ => None,
    }
}

/// The payload that signatures are matched against is the lower case of the
/// path and of the body, each after the rounds of decoding that `rounds_of`
/// counts, which are never more than `MAX_DECODE_ROUNDS`.
pub proof fn lemma_payload_rounds(req: RequestView)
    ensures
        rounds_of(req.path, 0) <= MAX_DECODE_ROUNDS,
        rounds_of(req.body, 0) <= MAX_DECODE_ROUNDS,
        normal_payload(req) matches Some(payload) ==> payload == payload_of(
            lowercase_of(decoded_times(req.path, rounds_of(req.path, 0))),
            lowercase_of(decoded_times(req.body, rounds_of(req.body, 0))),
        ),
{
    lemma_normalize_bounded(req.path);
    lemma_normalize_bounded(req.body);
}

/// A request is allowed exactly when its method is one of the allowed ones,
/// it does not carry both length headers, it names a host, its path and its
/// body hold no NUL character in any round of decoding, its normalised path
/// holds no line break, and its normalised payload holds no signature.
pub proof fn lemma_allow_iff_clean(rules: RuleSet, req: RequestView)
    ensures
        verdict_of(rules, req) is Allow <==> {
            &&& rules.allowed_methods.contains(req.method)
            &&& !(req.headers.contains_key("Content-Length"@) && req.headers.contains_key(
                "Transfer-Encoding"@,
            ))
            &&& req.headers.contains_key("Host"@)
            &&& normalized(req.path) matches Some(path)
            &&& !path.contains('\r') && !path.contains('\n')
            &&& normal_payload(req) matches Some(payload)
            &&& forall|i: int|
                0 <= i < rules.sqli.len() ==> !contains_seq(payload, #[trigger] rules.sqli[i])
            &&& forall|i: int|
                0 <= i < rules.xss.len() ==> !contains_seq(payload, #[trigger] rules.xss[i])
            &&& forall|i: int|
                0 <= i < rules.traversal.len() ==> !contains_seq(
                    payload,
                    #[trigger] rules.traversal[i],
                )
        },
{
    if let Some(payload) = normal_payload(req) {
        lemma_first_hit_from(rules.sqli, payload, 0);
        lemma_first_hit_from(rules.xss, payload, 0);
        lemma_first_hit_from(rules.traversal, payload, 0);
    }
}

/// A list that has a signature in `inner` has one in every text that holds
/// `inner`.
proof fn lemma_hit_carries_over(sigs: Seq<Seq<char>>, inner: Seq<char>, outer: Seq<char>)
    requires
        first_hit(sigs, inner) is Some,
        contains_seq(outer, inner),
    ensures
        first_hit(sigs, outer) is Some,
{
    lemma_first_hit_from(sigs, inner, 0);
    lemma_first_hit_from(sigs, outer, 0);
    let i = first_hit_from(sigs, inner, 0);
    lemma_contains_seq_trans(outer, inner, sigs[i]);
}

/// A request is blocked when its normalised payload holds the normalised
/// payload of a request that a signature blocks.
pub proof fn lemma_block_carries_over(rules: RuleSet, req: RequestView, other: RequestView)
    requires
        normal_payload(req) matches Some(inner) && holds_signature(rules, inner),
        normal_payload(other) matches Some(outer) && contains_seq(
            outer,
            normal_payload(req).unwrap(),
        ),
    ensures
        verdict_of(rules, other) is Block,
{
    let inner = normal_payload(req).unwrap();
    let outer = normal_payload(other).unwrap();
    if first_hit(rules.sqli, inner) is Some {
        lemma_hit_carries_over(rules.sqli, inner, outer);
    } else if first_hit(rules.xss, inner) is Some {
        lemma_hit_carries_over(rules.xss, inner, outer);
    } else {
        lemma_hit_carries_over(rules.traversal, inner, outer);
    }
}

/// `str::to_lowercase` of std: the lower-case form of a text.
#[verifier::external_body]
fn to_lowercase(s: &str) -> (out: String)
    ensures
        out@ == lowercase_of(s@),
{
    s.to_lowercase()
}

/// `percent_decode_str` and `PercentDecode::decode_utf8` of the crate
/// percent_encoding: each `%` that two hexadecimal digits follow becomes the
/// byte of that value, and the bytes that come out are taken as UTF-8. The
/// call fails exactly when they are no UTF-8.
#[verifier::external_body]
fn percent_decode_utf8(input: &str) -> (out: Option<String>)
    ensures
        out is Some <==> valid_utf8(percent_decoded(encode_utf8(input@))),
        out matches Some(text) ==> text@ == decode_utf8(percent_decoded(encode_utf8(input@))),
{
    match percent_encoding::percent_decode_str(input).decode_utf8() {
        Ok(text) => Some(text.into_owned()),
        Err(_) => None,
    }
}

/// Puts a space in place of each `+`.
fn replace_plus(s: &[char]) -> (out: Vec<char>)
    ensures
        out@ == plus_to_space(s@),
{
    let mut out: Vec<char> = Vec::new();
    let mut i: usize = 0;
    while i < s.len()
        invariant
            i <= s.len(),
            out@ == plus_to_space(s@.take(i as int)),
        decreases s.len() - i,
    {
        let c = s[i];
        out.push(if c == '+' { ' ' } else { c });
        assert(s@.take(i + 1) =~= s@.take(i as int).push(s@[i as int]));
        assert(plus_to_space(s@.take(i + 1)) =~= plus_to_space(s@.take(i as int)).push(
            if c == '+' { ' ' } else { c },
        ));
        i += 1;
    }
    assert(s@.take(s.len() as int) =~= s@);
    out
}

/// One round of decoding.
pub fn decode_once(text: &str) -> (out: Option<String>)
    ensures
        match out {
            Some(next) => decode_step(text@) == Some(next@),
            None => decode_step(text@) is None,
        },
{
    let chars = chars_of(text);
    let spaced = string_of(replace_plus(chars.as_slice()).as_slice());
    percent_decode_utf8(spaced.as_str())
}

/// Normalises a text for matching: decodes it until it settles, at most
/// `MAX_DECODE_ROUNDS` times, and puts it in lower case. A NUL character in
/// the text, or in what one of these rounds gives, is an error.
pub fn normalize(input: &str) -> (res: Result<String, NullByte>)
    ensures
        match res {
            Ok(text) => normalized(input@) == Some(text@),
            Err(_) => normalized(input@) is None,
        },
{
    let mut current = input.to_owned();
    let mut round: u32 = 0;
    loop
        invariant_except_break
            round <= MAX_DECODE_ROUNDS,
            settle(current@, round as nat) == settle(input@, 0),
        ensures
            settle(input@, 0) == Some(current@),
        decreases MAX_DECODE_ROUNDS - round,
    {
        let chars = chars_of(current.as_str());
        if has_char(chars.as_slice(), '\0') {
            return Err(NullByte);
        }
        match decode_once(current.as_str()) {
            None => {
                break;
            },
            Some(next) => {
                if next == current || round >= MAX_DECODE_ROUNDS {
                    break;
                }
                current = next;
                round += 1;
            },
        }
    }
    Ok(to_lowercase(current.as_str()))
}

/// Whether `list` holds `item`.
fn holds(list: &Vec<Vec<char>>, item: &[char]) -> (r: bool)
    ensures
        r == texts_of(list@).contains(item@),
{
    let mut i: usize = 0;
    while i < list.len()
        invariant
            i <= list.len(),
            forall|k: int| 0 <= k < i ==> texts_of(list@)[k] != item@,
        decreases list.len() - i,
    {
        if same_chars(list[i].as_slice(), item) {
            assert(texts_of(list@)[i as int] == item@);
            return true;
        }
        i += 1;
    }
    false
}

/// The first signature of `sigs` that stands in `payload`, if there is one.
fn first_match<'a>(sigs: &'a Vec<Vec<char>>, payload: &[char]) -> (r: Option<&'a Vec<char>>)
    ensures
        match r {
            Some(sig) => first_hit(texts_of(sigs@), payload@) == Some(sig@),
            None => first_hit(texts_of(sigs@), payload@) is None,
        },
{
    let mut i: usize = 0;
    while i < sigs.len()
        invariant
            i <= sigs.len(),
            first_hit_from(texts_of(sigs@), payload@, 0) == first_hit_from(
                texts_of(sigs@),
                payload@,
                i as int,
            ),
        decreases sigs.len() - i,
    {
        if contains_chars(payload, sigs[i].as_slice()) {
            return Some(&sigs[i]);
        }
        i += 1;
    }
    None
}

/// The reason that names `sig` under `label`.
fn reason_for(label: &str, sig: &Vec<char>) -> (out: String)
    ensures
        out@ == signature_reason(label@, sig@),
{
    let mut out = String::from_str(label);
    let quote = string_of(vec!['\''].as_slice());
    out.append(quote.as_str());
    out.append(string_of(sig.as_slice()).as_str());
    out.append(quote.as_str());
    out
}

/// The texts of a list of character vectors.
spec fn texts_of(list: Seq<Vec<char>>) -> Seq<Seq<char>> {
    list.map_values(|v: Vec<char>| v@)
}

/// The inspection engine. It is built once, with its rules, and then only
/// read.
pub struct WafEngine {
    sqli_signatures: Vec<Vec<char>>,
    xss_signatures: Vec<Vec<char>>,
    traversal_signatures: Vec<Vec<char>>,
    allowed_methods: Vec<Vec<char>>,
}

impl View for WafEngine {
    type V = RuleSet;

    closed spec fn view(&self) -> RuleSet {
        RuleSet {
            allowed_methods: texts_of(self.allowed_methods@),
            sqli: texts_of(self.sqli_signatures@),
            xss: texts_of(self.xss_signatures@),
            traversal: texts_of(self.traversal_signatures@),
        }
    }
}

/// The texts of a list of string slices.
spec fn strs_of(items: Seq<&str>) -> Seq<Seq<char>> {
    items.map_values(|s: &str| s@)
}

/// The list of the texts of `items`.
fn list_of(items: &[&str]) -> (out: Vec<Vec<char>>)
    ensures
        texts_of(out@) == strs_of(items@),
{
    let mut out: Vec<Vec<char>> = Vec::new();
    let mut i: usize = 0;
    while i < items.len()
        invariant
            i <= items.len(),
            out@.len() == i,
            forall|k: int| 0 <= k < i ==> (#[trigger] out@[k])@ == items@[k]@,
        decreases items.len() - i,
    {
        out.push(chars_of(items[i]));
        i += 1;
    }
    assert(texts_of(out@) =~= strs_of(items@));
    out
}

impl WafEngine {
    /// An engine with the rules of `default_rules`.
    pub fn new() -> (engine: WafEngine)
        ensures
            engine@ == default_rules(),
    {
        let sqli = [
            "drop table",
            "or 1=1",
            "union select",
            "--",
            "sleep(",
            "pg_sleep",
            "waitfor delay",
            "select * from",
        ];
        let xss = [
            "<script>",
            "javascript:",
            "onerror=",
            "onload=",
            "alert(",
            "document.cookie",
            "vbscript:",
        ];
        let traversal = [
            "../",
            "..\\",
            "/etc/passwd",
            "c:\\windows",
            "%2e%2e%2f",
            ".env",
            "config.php",
        ];
        let methods = ["GET", "POST", "HEAD"];
        let engine = WafEngine {
            sqli_signatures: list_of(sqli.as_slice()),
            xss_signatures: list_of(xss.as_slice()),
            traversal_signatures: list_of(traversal.as_slice()),
            allowed_methods: list_of(methods.as_slice()),
        };
        proof {
            assert(engine@.allowed_methods =~= default_rules().allowed_methods);
            assert(engine@.sqli =~= default_rules().sqli);
            assert(engine@.xss =~= default_rules().xss);
            assert(engine@.traversal =~= default_rules().traversal);
        }
        engine
    }

    /// The verdict on a path and a body that are normalised already.
    pub fn scan(&self, path: &str, body: &str) -> (verdict: Verdict)
        ensures
            verdict@ == scan_verdict(self@, path@, body@),
    {
        let path_chars = chars_of(path);
        if has_char(path_chars.as_slice(), '\r') || has_char(path_chars.as_slice(), '\n') {
            return Verdict::Block(String::from_str("CRLF Injection Detected"));
        }
        let mut payload = path_chars;
        payload.push(' ');
        let mut body_chars = chars_of(body);
        payload.append(&mut body_chars);
        assert(payload@ =~= payload_of(path@, body@));
        if let Some(sig) = first_match(&self.sqli_signatures, payload.as_slice()) {
            return Verdict::Block(reason_for("SQL Injection: ", sig));
        }
        if let Some(sig) = first_match(&self.xss_signatures, payload.as_slice()) {
            return Verdict::Block(reason_for("XSS: ", sig));
        }
        if let Some(sig) = first_match(&self.traversal_signatures, payload.as_slice()) {
            return Verdict::Block(reason_for("Path Traversal: ", sig));
        }
        Verdict::Allow
    }

    /// The verdict on a request.
    pub fn inspect(&self, req: &Request) -> (verdict: Verdict)
        ensures
            verdict@ == verdict_of(self@, req@),
    {
        let method = chars_of(req.method.as_str());
        if !holds(&self.allowed_methods, method.as_slice()) {
            let mut reason = String::from_str("Method Not Allowed: ");
            reason.append(req.method.as_str());
            return Verdict::Block(reason);
        }
        if req.headers.contains_key("Content-Length") && req.headers.contains_key(
            "Transfer-Encoding",
        ) {
            return Verdict::Block(
                String::from_str("Smuggling Attempt: CL and TE headers present"),
            );
        }
        if !req.headers.contains_key("Host") {
            return Verdict::Block(String::from_str("Protocol Anomaly: Missing Host Header"));
        }
        let clean_path = match normalize(req.path.as_str()) {
            Ok(text) => text,
            Err(_) => {
                return Verdict::Block(String::from_str("Null Byte Injection Detected"));
            },
        };
        let clean_body = match normalize(req.body.as_str()) {
            Ok(text) => text,
            Err(_) => {
                return Verdict::Block(String::from_str("Null Byte Injection Detected"));
            },
        };
        self.scan(clean_path.as_str(), clean_body.as_str())
    }
}

} // verus!
