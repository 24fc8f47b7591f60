//! The connection pipeline as a state machine.
//!
//! The caller owns the sockets and the clock. It hands each thing that
//! happens to `Connection::step` as an `Event`, and carries out the `Action`
//! that comes back: read, answer and close, connect to the origin, forward
//! what was read, copy in both directions, or close. The machine decides; it
//! never changes a byte of what the client sent.

use vstd::prelude::*;
use vstd::slice::slice_to_vec;
use vstd::string::StringSliceAdditionalSpecFns;
use vstd::utf8::encode_utf8;
use crate::engine::{verdict_of, RuleSet, Verdict, VerdictView, WafEngine};
use crate::http::{find_head_end, head_end, parse_bytes, Request};
use crate::limiter::{checked, Shard};

verus! {

/// The bounds that a connection is held to.
#[derive(Clone, Copy, Debug, PartialEq, Eq, Structural)]
pub struct Config {
    /// The most bytes that are read before the head of the request ends.
    pub max_header_size: usize,
    /// The most bytes that are copied from the client to the origin after
    /// what was read with the head.
    pub max_body_size: u64,
    /// The nanoseconds that the client has to send the whole head.
    pub client_header_timeout: u64,
    /// The nanoseconds that the origin has to accept a connection.
    pub upstream_connect_timeout: u64,
}

/// The bounds that are used where none are given: 8 KiB of head, 10 MiB of
/// body, five seconds for the head and three for the origin.
pub open spec fn standard_config() -> Config {
    Config {
        max_header_size: 8192,
        max_body_size: 10_485_760,
        client_header_timeout: 5_000_000_000,
        upstream_connect_timeout: 3_000_000_000,
    }
}

impl Default for Config {
    fn default() -> (out: Config)
        ensures
            out == standard_config(),
    {
        Config {
            max_header_size: 8192,
            max_body_size: 10_485_760,
            client_header_timeout: 5_000_000_000,
            upstream_connect_timeout: 3_000_000_000,
        }
    }
}

/// The decimal digit of `d`, for `d` below ten.
pub open spec fn digit(d: nat) -> char {
    if d == 0 {
        '0'
    } else if d == 1 {
        '1'
    } else if d == 2 {
        '2'
    } else if d == 3 {
        '3'
    } else if d == 4 {
        '4'
    } else if d == 5 {
        '5'
    } else if d == 6 {
        '6'
    } else if d == 7 {
        '7'
    } else if d == 8 {
        '8'
    } else {
        '9'
    }
}

/// `n` in decimal digits, without leading zeros.
pub open spec fn decimal(n: nat) -> Seq<char>
    decreases n,
{
    if n < 10 {
        seq![digit(n)]
    } else {
        decimal(n / 10).push(digit(n % 10))
    }
}

/// The answer to a client that is over its rate.
pub open spec fn rate_limited_response() -> Seq<u8> {
    encode_utf8("HTTP/1.1 429 Too Many Requests\r\nRetry-After: 1\r\n\r\nRate Limit Exceeded"@)
}

/// The answer to a request that cannot be parsed.
pub open spec fn bad_request_response() -> Seq<u8> {
    encode_utf8("HTTP/1.1 400 Bad Request\r\n\r\nInvalid HTTP"@)
}

/// The answer where the origin refuses the connection.
pub open spec fn bad_gateway_response() -> Seq<u8> {
    encode_utf8("HTTP/1.1 502 Bad Gateway\r\n\r\nUpstream Error"@)
}

/// The answer where the origin does not accept the connection in time.
pub open spec fn gateway_timeout_response() -> Seq<u8> {
    encode_utf8("HTTP/1.1 504 Gateway Timeout\r\n\r\nUpstream Timeout"@)
}

/// The text of the answer to a blocked request: the status line, the length
/// in bytes of the body, and the body, which is `BLOCK: ` and the reason.
pub open spec fn block_text(reason: Seq<char>) -> Seq<char> {
    "HTTP/1.1 403 Forbidden\r\nContent-Length: "@ + decimal(
        (7 + encode_utf8(reason).len()) as nat,
    ) + "\r\n\r\nBLOCK: "@ + reason
}

/// The answer to a blocked request.
pub open spec fn block_response(reason: Seq<char>) -> Seq<u8> {
    encode_utf8(block_text(reason))
}

/// The decimal digit of `d`.
fn digit_char(d: u8) -> (c: char)
    requires
        d < 10,
    ensures
        c == digit(d as nat),
{
    if d == 0 {
        '0'
    } else if d == 1 {
        '1'
    } else if d == 2 {
        '2'
    } else if d == 3 {
        '3'
    } else if d == 4 {
        '4'
    } else if d == 5 {
        '5'
    } else if d == 6 {
        '6'
    } else if d == 7 {
        '7'
    } else if d == 8 {
        '8'
    } else {
        '9'
    }
}

/// Appends `n` in decimal digits.
fn push_decimal(out: &mut Vec<char>, n: u128)
    ensures
        final(out)@ == old(out)@ + decimal(n as nat),
    decreases n,
{
    if n >= 10 {
        push_decimal(out, n / 10);
    }
    out.push(digit_char((n % 10) as u8));
    assert(final(out)@ =~= old(out)@ + decimal(n as nat));
}

/// The bytes of `text`.
fn bytes_of(text: &str) -> (out: Vec<u8>)
    ensures
        out@ == encode_utf8(text@),
{
    slice_to_vec(text.as_bytes())
}

/// Builds the answer to a client that is over its rate.
pub fn rate_limited() -> (out: Vec<u8>)
    ensures
        out@ == rate_limited_response(),
{
    bytes_of("HTTP/1.1 429 Too Many Requests\r\nRetry-After: 1\r\n\r\nRate Limit Exceeded")
}

/// Builds the answer to a request that cannot be parsed.
pub fn bad_request() -> (out: Vec<u8>)
    ensures
        out@ == bad_request_response(),
{
    bytes_of("HTTP/1.1 400 Bad Request\r\n\r\nInvalid HTTP")
}

/// Builds the answer where the origin refuses the connection.
pub fn bad_gateway() -> (out: Vec<u8>)
    ensures
        out@ == bad_gateway_response(),
{
    bytes_of("HTTP/1.1 502 Bad Gateway\r\n\r\nUpstream Error")
}

/// Builds the answer where the origin does not accept the connection in
/// time.
pub fn gateway_timeout() -> (out: Vec<u8>)
    ensures
        out@ == gateway_timeout_response(),
{
    bytes_of("HTTP/1.1 504 Gateway Timeout\r\n\r\nUpstream Timeout")
}

/// Builds the answer to a blocked request.
pub fn blocked(reason: &str) -> (out: Vec<u8>)
    ensures
        out@ == block_response(reason@),
{
    let mut digits: Vec<char> = Vec::new();
    let body_len = reason.as_bytes().len();
    push_decimal(&mut digits, 7 + body_len as u128);
    let mut text = String::from_str("HTTP/1.1 403 Forbidden\r\nContent-Length: ");
    text.append(crate::text::string_of(digits.as_slice()).as_str());
    text.append("\r\n\r\nBLOCK: ");
    text.append(reason);
    proof {
        assert(reason.spec_bytes() == encode_utf8(reason@));
        assert(body_len == encode_utf8(reason@).len());
        assert(digits@ =~= decimal((7 + encode_utf8(reason@).len()) as nat));
        assert(text@ =~= block_text(reason@));
    }
    bytes_of(text.as_str())
}

/// Where a connection stands.
#[derive(Clone, Copy, Debug, PartialEq, Eq, Structural)]
pub enum Stage {
    /// The head of the request is being read.
    ReadHeaders,
    /// The request may pass, and the origin is being connected.
    ConnectUpstream,
    /// What was read is being sent to the origin.
    Forward,
    /// Bytes are copied in both directions.
    Tunnel,
    /// The connection is over.
    Done,
}

/// What happened on a connection.
#[derive(Debug)]
pub enum Event {
    /// Bytes came from the client, at the time `now` in nanoseconds. No bytes
    /// at all stand for the end of the input.
    Data { bytes: Vec<u8>, now: u64 },
    /// The client closed its side.
    Eof,
    /// Reading from the client failed.
    ReadFailed,
    /// The client sent nothing within the time it was given.
    TimedOut,
    /// The origin accepted the connection.
    Connected,
    /// The origin refused the connection.
    ConnectFailed,
    /// The origin did not accept the connection in time.
    ConnectTimedOut,
    /// What was read has been sent to the origin.
    Forwarded,
    /// Sending to the origin failed.
    ForwardFailed,
    /// Copying ended in both directions.
    TunnelClosed,
}

/// What the caller is to do next.
#[derive(Debug, PartialEq, Eq)]
pub enum Action {
    /// Read from the client, for at most `timeout` nanoseconds.
    Read { timeout: u64 },
    /// Send these bytes to the client as well as can be done, and close.
    Respond(Vec<u8>),
    /// Connect to the origin, for at most `timeout` nanoseconds.
    Connect { timeout: u64 },
    /// Send these bytes to the origin.
    Forward(Vec<u8>),
    /// Copy in both directions until both sides end, at most `client_limit`
    /// bytes from the client to the origin.
    Tunnel { client_limit: u64 },
    /// Close without an answer.
    Close,
}

/// An action, with its bytes as a sequence.
pub enum ActionView {
    Read { timeout: u64 },
    Respond(Seq<u8>),
    Connect { timeout: u64 },
    Forward(Seq<u8>),
    Tunnel { client_limit: u64 },
    Close,
}

impl View for Action {
    type V = ActionView;

    open spec fn view(&self) -> ActionView {
        match self {
            Action::Read { timeout } => ActionView::Read { timeout: *timeout },
            Action::Respond(bytes) => ActionView::Respond(bytes@),
            Action::Connect { timeout } => ActionView::Connect { timeout: *timeout },
            Action::Forward(bytes) => ActionView::Forward(bytes@),
            Action::Tunnel { client_limit } => ActionView::Tunnel { client_limit: *client_limit },
            Action::Close => ActionView::Close,
        }
    }
}

/// The state of a connection.
pub struct Connection {
    stage: Stage,
    buffer: Vec<u8>,
    deadline: u64,
    config: Config,
}

/// The state of a connection, with what was read as a sequence.
pub struct ConnectionView {
    /// Where the connection stands.
    pub stage: Stage,
    /// All that was read from the client.
    pub buffer: Seq<u8>,
    /// The time by which the head must be complete, in nanoseconds.
    pub deadline: u64,
    /// The bounds of the connection.
    pub config: Config,
}

impl View for Connection {
    type V = ConnectionView;

    closed spec fn view(&self) -> ConnectionView {
        ConnectionView {
            stage: self.stage,
            buffer: self.buffer@,
            deadline: self.deadline,
            config: self.config,
        }
    }
}

/// The time `timeout` nanoseconds after `now`, or the last time there is.
pub open spec fn deadline_after(now: u64, timeout: u64) -> u64 {
    if now + timeout > u64::MAX {
        u64::MAX
    } else {
        (now + timeout) as u64
    }
}

/// The state `c` with the connection over.
pub open spec fn finished(c: ConnectionView) -> ConnectionView {
    ConnectionView { stage: Stage::Done, ..c }
}

/// How a connection starts, once the rate limiter was asked about its
/// client: one that is over its rate is told so and closed, any other is
/// read from, with the whole time for the head ahead of it.
pub open spec fn accepted(config: Config, admitted: bool, now: u64) -> (
    ConnectionView,
    ActionView,
) {
    let start = ConnectionView {
        stage: Stage::ReadHeaders,
        buffer: Seq::empty(),
        deadline: deadline_after(now, config.client_header_timeout),
        config,
    };
    if admitted {
        (start, ActionView::Read { timeout: config.client_header_timeout })
    } else {
        (finished(start), ActionView::Respond(rate_limited_response()))
    }
}

/// What follows once the head is complete: a request that cannot be parsed
/// is answered with 400, one that the engine blocks with 403 and the reason,
/// and for any other the origin is connected.
pub open spec fn on_head(c: ConnectionView, rules: RuleSet) -> (ConnectionView, ActionView) {
    match parse_bytes(c.buffer) {
        Err(_) => (finished(c), ActionView::Respond(bad_request_response())),
        Ok(req) => match verdict_of(rules, req) {
            VerdictView::Block(reason) => (
                finished(c),
                ActionView::Respond(block_response(reason)),
            ),
            VerdictView::Allow => (
                ConnectionView { stage: Stage::ConnectUpstream, ..c },
                ActionView::Connect { timeout: c.config.upstream_connect_timeout },
            ),
        },
    }
}

/// What follows when `bytes` arrive at `now` while the head is read. The end
/// of the input, bytes that come after the deadline and bytes that would
/// take the head over its bound close the connection. Other bytes are
/// appended. If the head is then complete, `on_head` decides; if not, reading
/// goes on for the time that is left, and the connection is closed where
/// none is.
pub open spec fn on_data(c: ConnectionView, bytes: Seq<u8>, now: u64, rules: RuleSet) -> (
    ConnectionView,
    ActionView,
) {
    if bytes.len() == 0 || now > c.deadline || c.buffer.len() + bytes.len()
        > c.config.max_header_size {
        (finished(c), ActionView::Close)
    } else {
        let grown = ConnectionView { buffer: c.buffer + bytes, ..c };
        if head_end(grown.buffer) is Some {
            on_head(grown, rules)
        } else if now == c.deadline {
            (finished(grown), ActionView::Close)
        } else {
            (grown, ActionView::Read { timeout: (c.deadline - now) as u64 })
        }
    }
}

/// The state after `event`, and what is to be done next.
///
/// While the head is read, only data keeps the connection open. While the
/// origin is connected, success has all that was read forwarded as it is, a
/// refusal is answered with 502 and a timeout with 504. Once the bytes are
/// forwarded the tunnel opens, and when it ends the connection is over. An
/// event that the stage does not wait for closes the connection.
pub open spec fn step_spec(c: ConnectionView, event: Event, rules: RuleSet) -> (
    ConnectionView,
    ActionView,
) {
    match c.stage {
        Stage::ReadHeaders => match event {
            Event::Data { bytes, now } => on_data(c, bytes@, now, rules),
            _ => (finished(c), ActionView::Close),
        },
        Stage::ConnectUpstream => match event {
            Event::Connected => (
                ConnectionView { stage: Stage::Forward, ..c },
                ActionView::Forward(c.buffer),
            ),
            Event::ConnectFailed => (finished(c), ActionView::Respond(bad_gateway_response())),
            Event::ConnectTimedOut => (
                finished(c),
                ActionView::Respond(gateway_timeout_response()),
            ),
            _ => (finished(c), ActionView::Close),
        },
        Stage::Forward => match event {
            Event::Forwarded => (
                ConnectionView { stage: Stage::Tunnel, ..c },
                ActionView::Tunnel { client_limit: c.config.max_body_size },
            ),
            _ => (finished(c), ActionView::Close),
        },
        Stage::Tunnel => (finished(c), ActionView::Close),
        Stage::Done => (c, ActionView::Close),
    }
}

/// The state after `events`, in order.
pub open spec fn after_events(
    c: ConnectionView,
    events: Seq<Event>,
    rules: RuleSet,
) -> ConnectionView
    decreases events.len(),
{
    if events.len() == 0 {
        c
    } else {
        step_spec(after_events(c, events.drop_last(), rules), events.last(), rules).0
    }
}

/// The bytes that came with `events`, in order.
pub open spec fn data_in(events: Seq<Event>) -> Seq<u8>
    decreases events.len(),
{
    if events.len() == 0 {
        Seq::empty()
    } else {
        data_in(events.drop_last()) + match events.last() {
            Event::Data { bytes, now } => bytes@,
            _ => Seq::empty(),
        }
    }
}

/// A connection that is not over holds the bytes that the client sent, as
/// they came and no others, and never more than the bound on the head; and
/// what is forwarded to the origin are these bytes.
pub proof fn lemma_bytes_preserved(config: Config, now: u64, events: Seq<Event>, rules: RuleSet)
    ensures
        ({
            let c = after_events(accepted(config, true, now).0, events, rules);
            &&& c.config == config
            &&& c.buffer.len() <= config.max_header_size
            &&& c.stage != Stage::Done ==> c.buffer == data_in(events)
            &&& step_spec(c, Event::Connected, rules).1 matches ActionView::Forward(sent)
                ==> sent == data_in(events)
        }),
    decreases events.len(),
{
    if events.len() > 0 {
        lemma_bytes_preserved(config, now, events.drop_last(), rules);
        let before = after_events(accepted(config, true, now).0, events.drop_last(), rules);
        if before.stage != Stage::Done {
            assert(before.buffer + Seq::<u8>::empty() =~= before.buffer);
        }
    }
}

/// Reading for the head never goes on past the time that the client was
/// given at the start: whatever has happened, data that arrives after the
/// deadline that was set then closes the connection without an answer, and a
/// read that is asked for when data arrives ends at that deadline.
pub proof fn lemma_read_ends_by_deadline(
    config: Config,
    start: u64,
    events: Seq<Event>,
    bytes: Vec<u8>,
    now: u64,
    rules: RuleSet,
)
    ensures
        ({
            let c = after_events(accepted(config, true, start).0, events, rules);
            let next = step_spec(c, Event::Data { bytes, now }, rules);
            &&& c.deadline == deadline_after(start, config.client_header_timeout)
            &&& now > c.deadline ==> next.0.stage == Stage::Done && next.1 == ActionView::Close
            &&& next.1 matches ActionView::Read { timeout } ==> now + timeout == c.deadline
        }),
    decreases events.len(),
{
    if events.len() > 0 {
        lemma_read_ends_by_deadline(config, start, events.drop_last(), bytes, now, rules);
    }
}

impl Connection {
    /// What was read is within the bound on the head.
    pub open spec fn wf(&self) -> bool {
        self@.buffer.len() <= self@.config.max_header_size
    }

    /// Starts a connection at the time `now`. `admitted` says whether the
    /// rate limiter had a token for the client.
    pub fn accept(config: Config, admitted: bool, now: u64) -> (out: (Connection, Action))
        ensures
            out.0.wf(),
            (out.0@, out.1@) == accepted(config, admitted, now),
    {
        let deadline = match now.checked_add(config.client_header_timeout) {
            Some(at) => at,
            None => u64::MAX,
        };
        if admitted {
            (
                Connection { stage: Stage::ReadHeaders, buffer: Vec::new(), deadline, config },
                Action::Read { timeout: config.client_header_timeout },
            )
        } else {
            (
                Connection { stage: Stage::Done, buffer: Vec::new(), deadline, config },
                Action::Respond(rate_limited()),
            )
        }
    }

    /// Starts a connection from the address `ip` at the time `now`: checks
    /// the address in `shard`, the shard of the limiter that holds it, and
    /// starts the connection with what the check gave.
    pub fn open(shard: &mut Shard, ip: u128, config: Config, now: u64) -> (out: (
        Connection,
        Action,
    ))
        requires
            old(shard).wf(),
        ensures
            final(shard).wf(),
            final(shard).rate() == old(shard).rate(),
            final(shard).capacity() == old(shard).capacity(),
            final(shard)@ == old(shard)@.insert(
                ip,
                checked(old(shard)@.get(ip), now, old(shard).rate(), old(shard).capacity()).0,
            ),
            out.0.wf(),
            (out.0@, out.1@) == accepted(
                config,
                checked(old(shard)@.get(ip), now, old(shard).rate(), old(shard).capacity()).1,
                now,
            ),
    {
        let admitted = shard.check(ip, now);
        Connection::accept(config, admitted, now)
    }

    /// Where the connection stands.
    pub fn stage(&self) -> (stage: Stage)
        ensures
            stage == self@.stage,
    {
        self.stage
    }

    /// All that was read from the client.
    pub fn buffered(&self) -> (bytes: &[u8])
        ensures
            bytes@ == self@.buffer,
    {
        self.buffer.as_slice()
    }

    /// Ends the connection.
    fn finish(&mut self)
        ensures
            final(self)@ == finished(old(self)@),
    {
        self.stage = Stage::Done;
    }

    /// Decides on the complete head.
    fn head_complete(&mut self, engine: &WafEngine) -> (action: Action)
        requires
            old(self).wf(),
        ensures
            final(self).wf(),
            (final(self)@, action@) == on_head(old(self)@, engine@),
    {
        match Request::parse(self.buffer.as_slice()) {
            Err(_) => {
                self.finish();
                Action::Respond(bad_request())
            },
            Ok(req) => match engine.inspect(&req) {
                Verdict::Block(reason) => {
                    self.finish();
                    Action::Respond(blocked(reason.as_str()))
                },
                Verdict::Allow => {
                    self.stage = Stage::ConnectUpstream;
                    Action::Connect { timeout: self.config.upstream_connect_timeout }
                },
            },
        }
    }

    /// Takes in bytes from the client while the head is read.
    fn data(&mut self, bytes: &Vec<u8>, now: u64, engine: &WafEngine) -> (action: Action)
        requires
            old(self).wf(),
        ensures
            final(self).wf(),
            (final(self)@, action@) == on_data(old(self)@, bytes@, now, engine@),
    {
        if bytes.len() == 0 || now > self.deadline || bytes.len() > self.config.max_header_size
            - self.buffer.len() {
            self.finish();
            return Action::Close;
        }
        let mut i: usize = 0;
        while i < bytes.len()
            invariant
                i <= bytes.len(),
                self.buffer@ == old(self).buffer@ + bytes@.take(i as int),
                self.stage == old(self).stage,
                self.deadline == old(self).deadline,
                self.config == old(self).config,
            decreases bytes.len() - i,
        {
            self.buffer.push(bytes[i]);
            assert(bytes@.take(i + 1) =~= bytes@.take(i as int).push(bytes@[i as int]));
            i += 1;
        }
        assert(bytes@.take(bytes.len() as int) =~= bytes@);
        if find_head_end(self.buffer.as_slice()).is_some() {
            self.head_complete(engine)
        } else if now == self.deadline {
            self.finish();
            Action::Close
        } else {
            Action::Read { timeout: self.deadline - now }
        }
    }

    /// Takes in `event` and says what is to be done next.
    pub fn step(&mut self, event: Event, engine: &WafEngine) -> (action: Action)
        requires
            old(self).wf(),
        ensures
            final(self).wf(),
            (final(self)@, action@) == step_spec(old(self)@, event, engine@),
    {
        match self.stage {
            Stage::ReadHeaders => match event {
                Event::Data { bytes, now } => self.data(&bytes, now, engine),
                _ => {
                    self.finish();
                    Action::Close
                },
            },
            Stage::ConnectUpstream => match event {
                Event::Connected => {
                    self.stage = Stage::Forward;
                    Action::Forward(slice_to_vec(self.buffer.as_slice()))
                },
                Event::ConnectFailed => {
                    self.finish();
                    Action::Respond(bad_gateway())
                },
                Event::ConnectTimedOut => {
                    self.finish();
                    Action::Respond(gateway_timeout())
                },
                _ => {
                    self.finish();
                    Action::Close
                },
            },
            Stage::Forward => match event {
                Event::Forwarded => {
                    self.stage = Stage::Tunnel;
                    Action::Tunnel { client_limit: self.config.max_body_size }
                },
                _ => {
                    self.finish();
                    Action::Close
                },
            },
            Stage::Tunnel => {
                self.finish();
                Action::Close
            },
            Stage::Done => Action::Close,
        }
    }
}

} // verus!
