//! Answering the requests on a connection, and how many connections there can
//! be.
use vstd::prelude::*;
use vstd::slice::slice_subrange;
use vstd::utf8::{decode_utf8, valid_utf8};

use crate::dialogue::{answers, hear, hears, law_three_steps_answer, objects, see, tell, Asked};
use crate::json::{distinct, json_parse, json_text, lemma_settled_object, settled, Tree};
use crate::protocol::{
    count_tree, error_tree, history_line, history_tree, info_of, known, latest_tree, law_history_is_json, line_of,
    metrics_tree, refuses, rendered, requested, respond_error, History, Request, MAX_REQUEST_BYTES, VERSION,
};
use crate::read::{columns_wanted, names_at, options, recalls, shows, Figures, Objection};
use crate::state::Shared;
use crate::text::{chars_of, one_line, text_of, trim, trimmed};

verus! {

/// The most connections served at once. Each has a thread, and this is a
/// tool for one web app on the same machine: more than this is a fault.
pub const MAX_CONNECTIONS: usize = 16;

/// How long a connection may sit silent, or a client be slow to take a
/// response, before the connection is dropped, in milliseconds.
pub const IO_TIMEOUT: u64 = 30_000;

/// How many of the [`MAX_CONNECTIONS`] are in use.
#[derive(Debug)]
pub struct Slots {
    active: usize,
}

/// One of the [`MAX_CONNECTIONS`].
#[derive(Debug)]
pub struct Slot {
    taken: (),
}

impl Slots {
    /// No more are in use than there are.
    #[verifier::type_invariant]
    spec fn bounded(self) -> bool {
        self.active <= MAX_CONNECTIONS
    }

    /// How many are in use.
    pub closed spec fn used(self) -> nat {
        self.active as nat
    }

    /// All free.
    #[must_use]
    pub fn new() -> (slots: Self)
        ensures
            slots.used() == 0,
    {
        Slots { active: 0 }
    }

    /// How many are in use: never more than there are.
    #[must_use]
    pub fn active(&self) -> (n: usize)
        ensures
            n == self.used(),
            n <= MAX_CONNECTIONS,
    {
        proof {
            use_type_invariant(self);
        }
        self.active
    }

    /// Takes a slot, if one is free.
    pub fn acquire(&mut self) -> (slot: Option<Slot>)
        ensures
            slot is Some == (old(self).used() < MAX_CONNECTIONS),
            slot is None ==> old(self).used() == MAX_CONNECTIONS,
            final(self).used() == (if slot is Some {
                old(self).used() + 1
            } else {
                old(self).used()
            }),
    {
        proof {
            use_type_invariant(&*self);
        }
        if self.active >= MAX_CONNECTIONS {
            return None;
        }
        self.active = self.active + 1;
        Some(Slot { taken: () })
    }

    /// Gives a slot back.
    pub fn release(&mut self, slot: Slot)
        requires
            old(self).used() > 0,
        ensures
            final(self).used() == old(self).used() - 1,
    {
        proof {
            use_type_invariant(&*self);
        }
        self.active = self.active - 1;
    }

    /// Takes a slot for a new connection, or says what to answer if there is
    /// none.
    pub fn welcome(&mut self) -> (r: Result<Slot, String>)
        ensures
            match r {
                Ok(_) => old(self).used() < MAX_CONNECTIONS && final(self).used() == old(self).used() + 1,
                Err(reply) => old(self).used() == MAX_CONNECTIONS && final(self).used() == old(self).used() && refuses(
                    "too many connections"@,
                    reply@,
                ) && one_line(reply@),
            },
    {
        match self.acquire() {
            Some(slot) => Ok(slot),
            None => Err(respond_error("too many connections")),
        }
    }
}

/// What went wrong with a connection.
#[derive(Debug, Clone, Copy, PartialEq, Eq)]
pub enum Failure {
    /// The client stopped reading.
    BrokenPipe,
    /// The client went away.
    ConnectionReset,
    /// Nothing happened for too long.
    WouldBlock,
    /// Nothing happened for too long.
    TimedOut,
    /// Anything else.
    Other,
}

impl Failure {
    /// Whether this is worth a line in the log: a client that goes away
    /// mid-response is routine.
    #[must_use]
    pub fn is_worth_logging(self) -> (r: bool)
        ensures
            r == (self is Other),
    {
        match self {
            Failure::BrokenPipe | Failure::ConnectionReset | Failure::WouldBlock | Failure::TimedOut => false,
            Failure::Other => true,
        }
    }
}

/// What was read of a connection.
#[derive(Debug, Clone, Copy, PartialEq, Eq)]
pub enum Line {
    /// A line, or the last part of the input.
    Complete,
    /// More than a request may have, and still no end of the line.
    TooLong,
    /// Nothing: the client closed the connection.
    Eof,
}

/// How many bytes stand before the first newline: all of them, if there is none.
pub open spec fn newline_at(input: Seq<u8>) -> nat
    decreases input.len(),
{
    if input.len() > 0 && input[0] != 10 {
        1 + newline_at(input.drop_first())
    } else {
        0
    }
}

/// What the next line of `input` is: too long if it has more bytes than a request
/// may have.
pub open spec fn line_kind(input: Seq<u8>) -> Line {
    if input.len() == 0 {
        Line::Eof
    } else if newline_at(input) > MAX_REQUEST_BYTES {
        Line::TooLong
    } else {
        Line::Complete
    }
}

/// How many bytes of `input` the next line takes up: it and its newline if it has
/// one, and of one that is too long no more than a request may have.
pub open spec fn line_taken(input: Seq<u8>) -> nat {
    let n = newline_at(input);
    if n > MAX_REQUEST_BYTES {
        MAX_REQUEST_BYTES as nat
    } else if n < input.len() {
        n + 1
    } else {
        input.len()
    }
}

/// The next line of `input` without its newline: never more than a request may
/// have, so a client can't make the server hold an unbounded amount by never
/// sending a newline.
pub open spec fn line_in(input: Seq<u8>) -> Seq<u8> {
    if newline_at(input) > MAX_REQUEST_BYTES {
        input.take(MAX_REQUEST_BYTES as int)
    } else {
        input.take(newline_at(input) as int)
    }
}

proof fn lemma_newline_at(input: Seq<u8>, n: int)
    requires
        0 <= n <= input.len(),
        forall|i: int| 0 <= i < n ==> #[trigger] input[i] != 10,
        n < input.len() ==> input[n] == 10,
    ensures
        newline_at(input) == n,
    decreases input.len(),
{
    if n > 0 {
        assert forall|i: int| 0 <= i < n - 1 implies #[trigger] input.drop_first()[i] != 10 by {
            assert(input.drop_first()[i] == input[i + 1]);
        }
        assert(input[0] != 10);
        lemma_newline_at(input.drop_first(), n - 1);
    }
}

proof fn lemma_no_newline_before(input: Seq<u8>, n: int)
    requires
        0 <= n <= input.len(),
        forall|i: int| 0 <= i < n ==> #[trigger] input[i] != 10,
    ensures
        newline_at(input) >= n,
    decreases input.len(),
{
    if n > 0 {
        assert forall|i: int| 0 <= i < n - 1 implies #[trigger] input.drop_first()[i] != 10 by {
            assert(input.drop_first()[i] == input[i + 1]);
        }
        assert(input[0] != 10);
        lemma_no_newline_before(input.drop_first(), n - 1);
    }
}

/// What stands before the first newline holds none, and a newline follows it.
proof fn lemma_before_newline(input: Seq<u8>)
    ensures
        newline_at(input) <= input.len(),
        forall|i: int| 0 <= i < newline_at(input) ==> #[trigger] input[i] != 10,
        newline_at(input) < input.len() ==> input[newline_at(input) as int] == 10,
    decreases input.len(),
{
    if input.len() > 0 && input[0] != 10 {
        lemma_before_newline(input.drop_first());
        assert forall|i: int| 0 <= i < newline_at(input) implies #[trigger] input[i] != 10 by {
            if i > 0 {
                assert(input[i] == input.drop_first()[i - 1]);
            }
        }
    }
}

/// However much a client sends, the line that is held of it has no more bytes
/// than a request may have.
pub proof fn law_a_line_is_never_longer_than_a_request(input: Seq<u8>)
    ensures
        line_in(input).len() <= MAX_REQUEST_BYTES,
        line_in(input).len() <= line_taken(input) <= input.len(),
{
    lemma_before_newline(input);
}

/// `taken` without the newline that may end it.
fn without_newline(taken: &[u8]) -> (line: &[u8])
    ensures
        line@ == (if taken@.len() > 0 && taken@.last() == 10 {
            taken@.drop_last()
        } else {
            taken@
        }),
{
    let n = taken.len();
    if n > 0 && taken[n - 1] == 10 {
        let line = slice_subrange(taken, 0, n - 1);
        assert(line@ =~= taken@.drop_last());
        line
    } else {
        taken
    }
}

/// What to take of the bytes that a connection has `available`.
#[derive(Debug, Clone, Copy, PartialEq, Eq)]
pub struct Part {
    /// How many of them belong to the line.
    pub keep: usize,
    /// How many of them are done with: those, and the newline if it is there.
    pub take: usize,
    /// What the line is, once that is known.
    pub kind: Option<Line>,
}

/// What to take of the bytes that a connection has available next, when `held` are
/// held of a line; none are available if the client closed the connection.
pub open spec fn part_of(held: nat, available: Seq<u8>) -> Part {
    let n = newline_at(available);
    let room = MAX_REQUEST_BYTES - held;
    if available.len() == 0 {
        Part {
            keep: 0,
            take: 0,
            kind: if held == 0 {
                Some(Line::Eof)
            } else {
                Some(Line::Complete)
            },
        }
    } else if n > room {
        Part { keep: room as usize, take: room as usize, kind: Some(Line::TooLong) }
    } else if n < available.len() {
        Part { keep: n as usize, take: (n + 1) as usize, kind: Some(Line::Complete) }
    } else {
        Part { keep: n as usize, take: n as usize, kind: None }
    }
}

/// What to take of the bytes that a connection has available next, when `held` are
/// held of a line. That a line is too long is told by the byte that follows what
/// a request may have, which is not taken.
#[must_use]
pub fn next_part(held: usize, available: &[u8]) -> (part: Part)
    requires
        held <= MAX_REQUEST_BYTES,
    ensures
        part == part_of(held as nat, available@),
        held + part.keep <= MAX_REQUEST_BYTES,
        part.keep <= part.take <= available@.len(),
        part.kind is None ==> part.take > 0,
{
    if available.len() == 0 {
        let kind = if held == 0 {
            Line::Eof
        } else {
            Line::Complete
        };
        return Part { keep: 0, take: 0, kind: Some(kind) };
    }
    let room: usize = MAX_REQUEST_BYTES - held;
    let mut n: usize = 0;
    while n < available.len() && n < room && available[n] != 10
        invariant
            n <= available@.len(),
            n <= room,
            forall|i: int| 0 <= i < n ==> #[trigger] available@[i] != 10,
        decreases available@.len() - n,
    {
        n = n + 1;
    }
    if n == available.len() {
        proof {
            lemma_newline_at(available@, n as int);
        }
        Part { keep: n, take: n, kind: None }
    } else if available[n] == 10 {
        proof {
            lemma_newline_at(available@, n as int);
        }
        Part { keep: n, take: n + 1, kind: Some(Line::Complete) }
    } else {
        proof {
            lemma_no_newline_before(available@, n + 1);
        }
        Part { keep: n, take: n, kind: Some(Line::TooLong) }
    }
}

/// How many bytes of `input` the next line takes up, its newline included, and
/// what it is. A line that is too long takes up no more than a request may have.
#[must_use]
pub fn read_line(input: &[u8]) -> (r: (usize, Line))
    ensures
        r.1 == line_kind(input@),
        r.0 == line_taken(input@),
        r.0 <= input@.len(),
        r.1 is TooLong ==> r.0 == MAX_REQUEST_BYTES,
        r.1 is Complete ==> r.0 == (if newline_at(input@) < input@.len() {
            newline_at(input@) + 1
        } else {
            input@.len()
        }),
{
    let part = next_part(0, input);
    proof {
        lemma_before_newline(input@);
    }
    match part.kind {
        Some(kind) => (part.take, kind),
        None => (part.take, Line::Complete),
    }
}

/// It makes no difference in what parts a line arrives. When `held` is held of a
/// line and `available` comes next, and after that `later`, the part that is taken
/// ends the line that all of it starts with, or leaves more of that line held.
pub proof fn law_parts_make_up_the_line(held: Seq<u8>, available: Seq<u8>, later: Seq<u8>)
    requires
        held.len() <= MAX_REQUEST_BYTES,
        forall|i: int| 0 <= i < held.len() ==> #[trigger] held[i] != 10,
        available.len() <= usize::MAX,
        available.len() == 0 ==> later.len() == 0,
    ensures
        ({
            let all = held + available + later;
            let part = part_of(held.len(), available);
            let now = held + available.take(part.keep as int);
            &&& now.len() <= MAX_REQUEST_BYTES
            &&& forall|i: int| 0 <= i < now.len() ==> #[trigger] now[i] != 10
            &&& match part.kind {
                Some(kind) => line_kind(all) == kind && line_in(all) == now && line_taken(all) == held.len()
                    + part.take,
                None => now == held + available,
            }
        }),
{
    let all = held + available + later;
    let n = newline_at(available);
    let part = part_of(held.len(), available);
    lemma_before_newline(available);
    let now = held + available.take(part.keep as int);
    assert forall|i: int| 0 <= i < now.len() implies #[trigger] now[i] != 10 by {
        if i >= held.len() {
            assert(now[i] == available[i - held.len()]);
        }
    }
    assert forall|i: int| 0 <= i < held.len() + n implies #[trigger] all[i] != 10 by {
        if i < held.len() {
            assert(all[i] == held[i]);
        } else {
            assert(all[i] == available[i - held.len()]);
        }
    }
    if available.len() == 0 {
        assert(all =~= held);
        lemma_newline_at(all, held.len() as int);
        assert(line_in(all) =~= now);
    } else if part.kind == Some(Line::TooLong) {
        lemma_no_newline_before(all, (held.len() + n) as int);
        assert(line_in(all) =~= now);
    } else if part.kind == Some(Line::Complete) {
        assert(all[(held.len() + n) as int] == available[n as int]);
        lemma_newline_at(all, (held.len() + n) as int);
        assert(line_in(all) =~= now);
    } else {
        assert(now =~= held + available);
    }
}

/// `std::str::from_utf8`: the text that `bytes` encode, if they are valid UTF-8.
#[verifier::external_body]
fn decoded(bytes: &[u8]) -> (r: Option<&str>)
    ensures
        match r {
            Some(text) => valid_utf8(bytes@) && text@ == decode_utf8(bytes@),
            None => !valid_utf8(bytes@),
        },
{
    std::str::from_utf8(bytes).ok()
}

/// The one-line response to the request `text`. `number` makes a JSON number of
/// the bits of a value that was measured, and `mean` makes one value of several.
pub fn reply_to<N: Fn(u64) -> Option<serde_json::Number>, M: Fn(Vec<u64>) -> u64>(
    text: &str,
    shared: &Shared,
    number: &N,
    mean: &M,
) -> (reply: String)
    requires
        shared.wf(),
        forall|b: u64| #[trigger] call_requires(*number, (b,)),
        forall|given: Vec<u64>| given@.len() > 0 ==> #[trigger] call_requires(*mean, (given,)),
    ensures
        answers(text@, *shared, *number, *mean, reply@),
        one_line(reply@),
{
    let asked = hear(text);
    let ghost what = asked;
    let seen = see(asked, shared);
    let ghost there = seen;
    let reply = tell(seen, number, mean);
    proof {
        law_three_steps_answer(text@, what, *shared, there, *number, *mean, reply@);
    }
    reply
}

/// What a line that was read says, if it is text.
pub open spec fn line_text(line: Seq<u8>) -> Seq<char> {
    trim(decode_utf8(line))
}

/// Whether a line that was read is text, and blank.
pub open spec fn is_blank(line: Seq<u8>) -> bool {
    valid_utf8(line) && line_text(line).len() == 0
}

/// Whether `reply` answers the request on a line that was read.
pub open spec fn answers_line<N: Fn(u64) -> Option<serde_json::Number>, M: Fn(Vec<u64>) -> u64>(
    line: Seq<u8>,
    shared: Shared,
    number: N,
    mean: M,
    reply: Seq<char>,
) -> bool {
    if !valid_utf8(line) {
        refuses("request is not valid UTF-8"@, reply)
    } else {
        answers(line_text(line), shared, number, mean, reply)
    }
}

/// Whether `asked` is what the line that was read asks for.
pub open spec fn hears_line(line: Seq<u8>, asked: Asked) -> bool {
    if !valid_utf8(line) {
        asked matches Asked::Answered(reply) && objects("request is not valid UTF-8"@, reply@)
    } else {
        hears(line_text(line), asked)
    }
}

/// What is heard on a connection.
#[derive(Debug, Clone, PartialEq, Eq)]
pub enum Heard {
    /// A request.
    Request(Asked),
    /// Nothing to answer.
    Blank,
    /// Something to refuse with this before the connection is closed.
    TooLong(String),
    /// That the client closed the connection.
    End,
}

/// What to make of a line that was read of a connection, without its newline, and
/// of this kind.
pub fn listen(line: &[u8], kind: Line) -> (heard: Heard)
    ensures
        match kind {
            Line::Eof => heard is End,
            Line::TooLong => heard matches Heard::TooLong(reply) && objects("request too long"@, reply@),
            Line::Complete => if is_blank(line@) {
                heard is Blank
            } else {
                heard matches Heard::Request(asked) && hears_line(line@, asked) && asked.wf()
            },
        },
{
    match kind {
        Line::Eof => Heard::End,
        Line::TooLong => Heard::TooLong(respond_error("request too long")),
        Line::Complete => match decoded(line) {
            None => Heard::Request(Asked::Answered(respond_error("request is not valid UTF-8"))),
            Some(text) => {
                let chars = chars_of(text);
                let inner = trimmed(&chars);
                if inner.len() == 0 {
                    Heard::Blank
                } else {
                    Heard::Request(hear(&text_of(inner)))
                }
            },
        },
    }
}

/// What to do about what was read of a connection.
#[derive(Debug, Clone, PartialEq, Eq)]
pub enum Action {
    /// Send this and read on.
    Reply(String),
    /// Send nothing and read on.
    Skip,
    /// Send this and close the connection.
    Refuse(String),
    /// Close the connection.
    Close,
}

/// What to do about a line that was read of a connection, without its newline,
/// and of this kind: one that isn't blank is answered, and one that is too long is
/// refused and the last.
pub fn next_action<N: Fn(u64) -> Option<serde_json::Number>, M: Fn(Vec<u64>) -> u64>(
    line: &[u8],
    kind: Line,
    shared: &Shared,
    number: &N,
    mean: &M,
) -> (action: Action)
    requires
        shared.wf(),
        forall|b: u64| #[trigger] call_requires(*number, (b,)),
        forall|given: Vec<u64>| given@.len() > 0 ==> #[trigger] call_requires(*mean, (given,)),
    ensures
        match kind {
            Line::Eof => action is Close,
            Line::TooLong => action matches Action::Refuse(reply) && refuses("request too long"@, reply@) && one_line(
                reply@,
            ),
            Line::Complete => if is_blank(line@) {
                action is Skip
            } else {
                action matches Action::Reply(reply) && answers_line(line@, *shared, *number, *mean, reply@)
                    && one_line(reply@)
            },
        },
{
    match listen(line, kind) {
        Heard::End => Action::Close,
        Heard::TooLong(reply) => Action::Refuse(reply),
        Heard::Blank => Action::Skip,
        Heard::Request(asked) => {
            let ghost what = asked;
            let seen = see(asked, shared);
            let ghost there = seen;
            let reply = tell(seen, number, mean);
            proof {
                if valid_utf8(line@) {
                    law_three_steps_answer(line_text(line@), what, *shared, there, *number, *mean, reply@);
                }
            }
            Action::Reply(reply)
        },
    }
}

/// Whether `replies` are what a client that sends `input` and closes the
/// connection gets: an answer to each line that isn't blank, in order, until the
/// input ends or a request is too long.
pub open spec fn conversation<N: Fn(u64) -> Option<serde_json::Number>, M: Fn(Vec<u64>) -> u64>(
    input: Seq<u8>,
    shared: Shared,
    number: N,
    mean: M,
    replies: Seq<Seq<char>>,
) -> bool
    decreases input.len(),
{
    let n = line_taken(input);
    let line = line_in(input);
    let rest = input.skip(n as int);
    if n == 0 || n > input.len() {
        replies.len() == 0
    } else if line_kind(input) is TooLong {
        replies.len() == 1 && refuses("request too long"@, replies[0])
    } else if is_blank(line) {
        conversation(rest, shared, number, mean, replies)
    } else {
        &&& replies.len() > 0
        &&& answers_line(line, shared, number, mean, replies[0])
        &&& conversation(rest, shared, number, mean, replies.drop_first())
    }
}

/// How many answers a client that sends `input` gets: one for each line that
/// isn't blank, up to the first that is too long.
pub open spec fn requests(input: Seq<u8>) -> nat
    decreases input.len(),
{
    let n = line_taken(input);
    let line = line_in(input);
    let rest = input.skip(n as int);
    if n == 0 || n > input.len() {
        0
    } else if line_kind(input) is TooLong {
        1
    } else if is_blank(line) {
        requests(rest)
    } else {
        1 + requests(rest)
    }
}

/// A client gets exactly one answer for each request.
pub proof fn law_one_reply_for_each_request<N: Fn(u64) -> Option<serde_json::Number>, M: Fn(Vec<u64>) -> u64>(
    input: Seq<u8>,
    shared: Shared,
    number: N,
    mean: M,
    replies: Seq<Seq<char>>,
)
    requires
        conversation(input, shared, number, mean, replies),
    ensures
        replies.len() == requests(input),
    decreases input.len(),
{
    let n = line_taken(input);
    let line = line_in(input);
    let rest = input.skip(n as int);
    if n == 0 || n > input.len() || line_kind(input) is TooLong {
    } else if is_blank(line) {
        law_one_reply_for_each_request(rest, shared, number, mean, replies);
    } else {
        law_one_reply_for_each_request(rest, shared, number, mean, replies.drop_first());
    }
}

/// What the replies of a connection say.
pub open spec fn said(replies: Seq<String>) -> Seq<Seq<char>> {
    replies.map_values(|r: String| r@)
}

/// Reads requests from `input` and gives a response to each, until the input
/// ends or asks for something too long.
pub fn handle_connection<N: Fn(u64) -> Option<serde_json::Number>, M: Fn(Vec<u64>) -> u64>(
    input: &[u8],
    shared: &Shared,
    number: &N,
    mean: &M,
) -> (replies: Vec<String>)
    requires
        shared.wf(),
        forall|b: u64| #[trigger] call_requires(*number, (b,)),
        forall|given: Vec<u64>| given@.len() > 0 ==> #[trigger] call_requires(*mean, (given,)),
    ensures
        conversation(input@, *shared, *number, *mean, said(replies@)),
        forall|i: int| 0 <= i < replies@.len() ==> one_line((#[trigger] replies@[i])@),
{
    let mut replies: Vec<String> = Vec::new();
    let mut left = input;
    proof {
        assert forall|more: Seq<Seq<char>>| #[trigger]
            conversation(left@, *shared, *number, *mean, more) implies conversation(
            input@,
            *shared,
            *number,
            *mean,
            said(replies@) + more,
        ) by {
            assert(said(replies@) + more =~= more);
        }
    }
    loop
        invariant
            shared.wf(),
            forall|b: u64| #[trigger] call_requires(*number, (b,)),
            forall|given: Vec<u64>| given@.len() > 0 ==> #[trigger] call_requires(*mean, (given,)),
            forall|i: int| 0 <= i < replies@.len() ==> one_line((#[trigger] replies@[i])@),
            forall|more: Seq<Seq<char>>| #[trigger]
                conversation(left@, *shared, *number, *mean, more) ==> conversation(
                    input@,
                    *shared,
                    *number,
                    *mean,
                    said(replies@) + more,
                ),
        decreases left@.len(),
    {
        let (n, kind) = read_line(left);
        let line = without_newline(slice_subrange(left, 0, n));
        let rest = slice_subrange(left, n, left.len());
        proof {
            lemma_before_newline(left@);
            assert(line@ =~= line_in(left@));
            assert(rest@ =~= left@.skip(n as int));
        }
        let ghost before = said(replies@);
        match next_action(line, kind, shared, number, mean) {
            Action::Close => {
                proof {
                    let none: Seq<Seq<char>> = seq![];
                    assert(conversation(left@, *shared, *number, *mean, none));
                    assert(before + none =~= before);
                }
                return replies;
            },
            Action::Refuse(reply) => {
                replies.push(reply);
                proof {
                    let last = seq![reply@];
                    assert(conversation(left@, *shared, *number, *mean, last));
                    assert(said(replies@) =~= before + last);
                }
                return replies;
            },
            Action::Reply(reply) => {
                replies.push(reply);
                proof {
                    assert forall|more: Seq<Seq<char>>| #[trigger]
                        conversation(rest@, *shared, *number, *mean, more) implies conversation(
                        input@,
                        *shared,
                        *number,
                        *mean,
                        said(replies@) + more,
                    ) by {
                        let all = seq![reply@] + more;
                        assert(all.drop_first() =~= more);
                        assert(conversation(left@, *shared, *number, *mean, all));
                        assert(said(replies@) + more =~= before + all);
                    }
                }
            },
            Action::Skip => {
                proof {
                    assert forall|more: Seq<Seq<char>>| #[trigger]
                        conversation(rest@, *shared, *number, *mean, more) implies conversation(
                        input@,
                        *shared,
                        *number,
                        *mean,
                        said(replies@) + more,
                    ) by {
                        assert(conversation(left@, *shared, *number, *mean, more));
                    }
                }
            },
        }
        left = rest;
    }
}

/// Whether a response is a line of JSON that says if it is a success, and the
/// protocol version.
pub open spec fn says_ok_and_version(reply: Seq<char>) -> bool {
    exists|tree: Tree|
        reply == #[trigger] json_text(tree) + "\n"@ && tree.at("ok"@) is Bool && tree.at("v"@) == count_tree(
            VERSION as nat,
        )
}

/// Every response, to every request, says if it is a success and the protocol
/// version.
pub proof fn law_every_response_says_ok_and_version<
    N: Fn(u64) -> Option<serde_json::Number>,
    M: Fn(Vec<u64>) -> u64,
>(text: Seq<char>, shared: Shared, number: N, mean: M, reply: Seq<char>)
    requires
        answers(text, shared, number, mean, reply),
    ensures
        says_ok_and_version(reply),
{
    match requested(text) {
        Err(refusal) => {
            lemma_distinct_fields(shared, refusal.words(), None);
            lemma_first_fields(error_tree(refusal.words()));
        },
        Ok(Request::Read) => {
            let tree = json_parse(text)->Ok_0;
            match options(tree) {
                Err(objection) => {
                    lemma_distinct_fields(shared, objection.words(), None);
                    lemma_first_fields(error_tree(objection.words()));
                },
                Ok(wanted) => match columns_wanted(shared.metrics(), wanted.metrics) {
                    Err(name) => {
                        lemma_distinct_fields(shared, Objection::UnknownMetric(name).words(), None);
                        lemma_first_fields(error_tree(Objection::UnknownMetric(name).words()));
                    },
                    Ok(columns) => {
                        let (figures, history) = choose|figures: Figures, history: History|
                            recalls(shared, wanted, columns, mean, figures) && #[trigger] shows(
                                number,
                                figures,
                                names_at(shared.metrics(), columns),
                                history,
                            ) && reply == history_line(history);
                        law_history_is_json(history);
                        lemma_ok_and_version(history_tree(history));
                    },
                },
            }
        },
        Ok(Request::Info) => {
            lemma_distinct_fields(shared, seq![], None);
            lemma_first_fields(info_of(shared));
        },
        Ok(Request::Metrics) => {
            lemma_distinct_fields(shared, seq![], None);
            lemma_first_fields(metrics_tree(shared.metrics()));
        },
        Ok(Request::Latest) => {
            let records = shared.records();
            if records.len() == 0 {
                lemma_distinct_fields(shared, seq![], None);
                lemma_first_fields(latest_tree(shared.metrics(), None));
            } else {
                let cells = choose|cells: Seq<Option<serde_json::Number>>|
                    rendered(number, known(records.last().row), cells) && reply == #[trigger] line_of(
                        latest_tree(shared.metrics(), Some((records.last().time, cells))),
                    );
                lemma_distinct_fields(shared, seq![], Some((records.last().time, cells)));
                lemma_first_fields(latest_tree(shared.metrics(), Some((records.last().time, cells))));
            }
        },
    }
}

/// A response whose tree has `ok` and `v` first, and no name twice, has them.
proof fn lemma_first_fields(tree: Tree)
    requires
        tree is Object,
        tree->Object_0.len() >= 2,
        tree->Object_0[0].0 == "ok"@,
        tree->Object_0[0].1 is Bool,
        tree->Object_0[1] == ("v"@, count_tree(VERSION as nat)),
        distinct(tree->Object_0),
    ensures
        says_ok_and_version(line_of(tree)),
{
    lemma_settled_object(tree->Object_0);
    lemma_ok_and_version(settled(tree));
    assert(line_of(tree) == json_text(settled(tree)) + "\n"@);
}

/// A tree whose first two fields are `ok` and `v` has them.
proof fn lemma_ok_and_version(tree: Tree)
    requires
        tree is Object,
        tree->Object_0.len() >= 2,
        tree->Object_0[0].0 == "ok"@,
        tree->Object_0[1].0 == "v"@,
    ensures
        tree.at("ok"@) == tree->Object_0[0].1,
        tree.at("v"@) == tree->Object_0[1].1,
{
    reveal_strlit("ok");
    reveal_strlit("v");
    let fields = tree->Object_0;
    assert("ok"@.len() == 2 && "v"@.len() == 1);
    assert(fields.drop_first()[0] == fields[1]);
    reveal_with_fuel(crate::json::find, 3);
}

/// No response has two fields of the same name.
pub proof fn lemma_distinct_fields(shared: Shared, message: Seq<char>, latest: Option<(u64, Seq<Option<serde_json::Number>>)>)
    ensures
        distinct(error_tree(message)->Object_0),
        distinct(info_of(shared)->Object_0),
        distinct(metrics_tree(shared.metrics())->Object_0),
        distinct(latest_tree(shared.metrics(), latest)->Object_0),
{
    reveal_strlit("ok");
    reveal_strlit("v");
    reveal_strlit("error");
    reveal_strlit("version");
    reveal_strlit("interval_ms");
    reveal_strlit("capacity");
    reveal_strlit("len");
    reveal_strlit("metrics");
    reveal_strlit("timestamp");
    reveal_strlit("values");
    assert("version"@[0] == 'v' && "metrics"@[0] == 'm');
    let e = error_tree(message)->Object_0;
    assert(e[0].0.len() == 2 && e[1].0.len() == 1 && e[2].0.len() == 5);
    let i = info_of(shared)->Object_0;
    assert(i[0].0.len() == 2 && i[1].0.len() == 1 && i[2].0.len() == 7 && i[3].0.len() == 11 && i[4].0.len() == 8
        && i[5].0.len() == 3 && i[6].0.len() == 7);
    let m = metrics_tree(shared.metrics())->Object_0;
    assert(m[0].0.len() == 2 && m[1].0.len() == 1 && m[2].0.len() == 7);
    let l = latest_tree(shared.metrics(), latest)->Object_0;
    assert(l[0].0.len() == 2 && l[1].0.len() == 1 && l[2].0.len() == 9 && l[3].0.len() == 6);
}

/// A connection is answered line by line: a line up to its newline, if it isn't blank
/// and no longer than a request may be, gets the first reply, and what follows it
/// the others. What comes after a line that is too long gets none.
pub proof fn law_lines_are_answered_in_turn<N: Fn(u64) -> Option<serde_json::Number>, M: Fn(Vec<u64>) -> u64>(
    line: Seq<u8>,
    rest: Seq<u8>,
    shared: Shared,
    number: N,
    mean: M,
    replies: Seq<Seq<char>>,
)
    requires
        !line.contains(10),
    ensures
        ({
            let all = line + seq![10u8] + rest;
            &&& line.len() > 65536 ==> conversation(all, shared, number, mean, replies) == (replies.len() == 1 && refuses(
                "request too long"@,
                replies[0],
            ))
            &&& line.len() <= 65536 && is_blank(line) ==> conversation(all, shared, number, mean, replies) == conversation(
                rest,
                shared,
                number,
                mean,
                replies,
            )
            &&& line.len() <= 65536 && !is_blank(line) ==> conversation(all, shared, number, mean, replies) == (
            replies.len() > 0 && answers_line(line, shared, number, mean, replies[0]) && conversation(
                rest,
                shared,
                number,
                mean,
                replies.drop_first(),
            ))
            &&& 0 < line.len() <= 65536 && !is_blank(line) ==> conversation(line, shared, number, mean, replies) == (
            replies.len() == 1 && answers_line(line, shared, number, mean, replies[0]))
            &&& conversation(Seq::<u8>::empty(), shared, number, mean, replies) == (replies.len() == 0)
        }),
{
    let all = line + seq![10u8] + rest;
    let n = line.len() as int;
    assert forall|i: int| 0 <= i < n implies #[trigger] all[i] != 10 by {
        assert(all[i] == line[i]);
    }
    assert(all[n] == 10);
    lemma_newline_at(all, n);
    assert forall|i: int| 0 <= i < n implies #[trigger] line[i] != 10 by {}
    lemma_newline_at(line, n);
    if n <= 65536 {
        assert(line_in(all) =~= line);
        assert(all.skip(n + 1) =~= rest);
        assert(line_in(line) =~= line);
        if n > 0 {
            let none = line.skip(n);
            assert(none.len() == 0);
            lemma_newline_at(none, 0);
            assert(conversation(none, shared, number, mean, replies.drop_first()) == (replies.drop_first().len() == 0));
        }
    }
    lemma_newline_at(Seq::<u8>::empty(), 0);
}

/// A line is blank if it holds nothing but white space; one that isn't text isn't
/// blank, and is refused. White space around a request makes no difference.
pub proof fn law_what_is_on_a_line<N: Fn(u64) -> Option<serde_json::Number>, M: Fn(Vec<u64>) -> u64>(
    line: Seq<u8>,
    shared: Shared,
    number: N,
    mean: M,
    reply: Seq<char>,
)
    ensures
        !valid_utf8(line) ==> !is_blank(line) && answers_line(line, shared, number, mean, reply) == refuses(
            "request is not valid UTF-8"@,
            reply,
        ),
        valid_utf8(line) ==> is_blank(line) == (trim(decode_utf8(line)).len() == 0) && answers_line(
            line,
            shared,
            number,
            mean,
            reply,
        ) == answers(trim(decode_utf8(line)), shared, number, mean, reply),
{
}

}
