//! The per-connection protocol: one JSON request per line, one JSON answer
//! per line, and a protocol violation answered by one error line that closes
//! the connection.
use vstd::prelude::*;
use vstd::string::StringExecFns;
use crate::primes::is_prime;

verus! {

/// The lowercase hexadecimal digit for `n` in `[0, 16)`.
pub open spec fn hex_digit(n: int) -> char {
    "0123456789abcdef"@[n]
}

/// How JSON writes one character inside a string literal: `"` and `\` get a
/// backslash, the five named controls their short escape, the other controls
/// below 0x20 a `\u00XX` escape, and every other character stands as it is.
pub open spec fn json_escape_char(c: char) -> Seq<char> {
    if c == '"' {
        seq!['\\', '"']
    } else if c == '\\' {
        seq!['\\', '\\']
    } else if c == '\x08' {
        seq!['\\', 'b']
    } else if c == '\t' {
        seq!['\\', 't']
    } else if c == '\n' {
        seq!['\\', 'n']
    } else if c == '\x0c' {
        seq!['\\', 'f']
    } else if c == '\r' {
        seq!['\\', 'r']
    } else if (c as u32) < 0x20 {
        seq!['\\', 'u', '0', '0', hex_digit((c as int) / 16), hex_digit((c as int) % 16)]
    } else {
        seq![c]
    }
}

/// The escaped contents of a JSON string literal for `s`.
pub open spec fn json_escape(s: Seq<char>) -> Seq<char>
    decreases s.len(),
{
    if s.len() == 0 {
        Seq::empty()
    } else {
        json_escape(s.drop_last()) + json_escape_char(s.last())
    }
}

/// The JSON string literal, quotes and escapes included, that stands for `s`.
pub open spec fn json_string_literal(s: Seq<char>) -> Seq<char> {
    seq!['"'] + json_escape(s) + seq!['"']
}

/// `c` stands for itself inside a JSON string literal.
pub open spec fn json_plain_char(c: char) -> bool {
    c != '"' && c != '\\' && (c as u32) >= 0x20
}

/// A string whose characters all stand for themselves escapes to itself.
pub proof fn lemma_plain_escape(s: Seq<char>)
    requires
        forall|i: int| 0 <= i < s.len() ==> json_plain_char(#[trigger] s[i]),
    ensures
        json_escape(s) == s,
    decreases s.len(),
{
    if s.len() > 0 {
        lemma_plain_escape(s.drop_last());
        assert(json_plain_char(s[s.len() - 1]));
        assert(s.drop_last() + seq![s.last()] =~= s);
    }
}

/// The method that the service answers is written as `"isPrime"`.
pub proof fn lemma_supported_method_literal()
    ensures
        json_string_literal(supported_method()) == "\"isPrime\""@,
{
    reveal_strlit("isPrime");
    reveal_strlit("\"isPrime\"");
    let s = supported_method();
    assert forall|i: int| 0 <= i < s.len() implies json_plain_char(#[trigger] s[i]) by {}
    lemma_plain_escape(s);
    assert(json_string_literal(s) =~= "\"isPrime\""@);
}

/// Relies on serde_json::to_string on a `str`: a quote, each character
/// escaped by the escape table of `format_escaped_str_contents` and
/// `write_char_escape`, and a quote. Writing a `str` into a `Vec` never
/// fails, so its error arm is never taken.
#[verifier::external_body]
fn json_quote(s: &str) -> (r: String)
    ensures
        r@ == json_string_literal(s@),
{
    serde_json::to_string(s).unwrap_or_default()
}

/// The method that the service answers.
pub open spec fn supported_method() -> Seq<char> {
    "isPrime"@
}

/// The error message sent for a request that names another method.
pub open spec fn unsupported_method_message() -> Seq<char> {
    "only isPrime is supported as method"@
}

/// The error message sent for a line that does not parse when the parser gave
/// no text of its own.
pub open spec fn malformed_message() -> Seq<char> {
    "malformed request"@
}

/// The message of an error line for a parser's message `m`: `m` itself, or a
/// fixed text where `m` is empty, so that an error line never has an empty
/// message.
pub open spec fn parse_error_message(m: Seq<char>) -> Seq<char> {
    if m.len() == 0 {
        malformed_message()
    } else {
        m
    }
}

/// An error line around an already quoted message.
pub open spec fn error_frame(quoted: Seq<char>) -> Seq<char> {
    "{\"error\":"@ + quoted + "}\n"@
}

/// The literal of a boolean in JSON.
pub open spec fn json_bool(b: bool) -> Seq<char> {
    if b {
        "true"@
    } else {
        "false"@
    }
}

/// A response line around an already quoted method.
pub open spec fn response_frame(quoted_method: Seq<char>, prime: bool) -> Seq<char> {
    "{\"method\":"@ + quoted_method + ",\"prime\":"@ + json_bool(prime) + "}\n"@
}

/// The error line for message `m`.
pub open spec fn error_text(m: Seq<char>) -> Seq<char> {
    error_frame(json_string_literal(m))
}

/// The response line for `method` and `prime`.
pub open spec fn response_text(method: Seq<char>, prime: bool) -> Seq<char> {
    response_frame(json_string_literal(method), prime)
}

/// Frames an already quoted message as an error line.
pub fn frame_error(quoted: &str) -> (r: String)
    ensures
        r@ == error_frame(quoted@),
{
    let mut r = String::from_str("{\"error\":");
    r.append(quoted);
    r.append("}\n");
    r
}

/// Frames an already quoted method and an answer as a response line.
pub fn frame_response(quoted_method: &str, prime: bool) -> (r: String)
    ensures
        r@ == response_frame(quoted_method@, prime),
{
    let mut r = String::from_str("{\"method\":");
    r.append(quoted_method);
    r.append(",\"prime\":");
    if prime {
        r.append("true");
    } else {
        r.append("false");
    }
    r.append("}\n");
    r
}

/// The error line for `message`.
pub fn error_line(message: &str) -> (r: String)
    ensures
        r@ == error_text(message@),
{
    let q = json_quote(message);
    frame_error(q.as_str())
}

/// The response line for `method` and `prime`.
pub fn response_line(method: &str, prime: bool) -> (r: String)
    ensures
        r@ == response_text(method@, prime),
{
    let q = json_quote(method);
    frame_response(q.as_str(), prime)
}

/// What reading one line of a connection produced, once the JSON is parsed.
pub enum LineInput {
    /// The peer closed the connection before a new line began.
    EndOfStream,
    /// The line is not a request; the parser's message.
    Malformed(String),
    /// A request: its method, and its number where that is an integer.
    Request { method: String, integer: Option<i64> },
}

/// What the connection does next.
pub enum Step {
    /// Close the connection without writing.
    Close,
    /// Ask the oracle whether the value is prime, then call `on_reply`.
    Query(i64),
    /// Write the line, then read the next one.
    Write(String),
    /// Write the line, then close the connection.
    WriteAndClose(String),
}

/// Where a connection stands between lines.
pub enum Phase {
    /// Waiting for the next line.
    Reading,
    /// Waiting for the oracle's answer to a request with this method.
    Awaiting(String),
    /// Closed: nothing more is read or written.
    Closed,
}

/// The decisions of one connection: strictly one request at a time, and the
/// first protocol violation ends it.
pub struct Connection {
    pub phase: Phase,
}

/// `r` writes the error line for message `m`, then closes.
pub open spec fn rejects_with(r: Step, m: Seq<char>) -> bool {
    r matches Step::WriteAndClose(t) && t@ == error_text(m)
}

/// `r` writes the response line for `method` and `prime`, then reads on.
pub open spec fn answers_with(r: Step, method: Seq<char>, prime: bool) -> bool {
    r matches Step::Write(t) && t@ == response_text(method, prime)
}

impl Connection {
    /// A fresh connection, waiting for its first line.
    pub fn new() -> (r: Connection)
        ensures
            r.phase is Reading,
    {
        Connection { phase: Phase::Reading }
    }

    /// Whether the connection has closed.
    pub fn is_closed(&self) -> (r: bool)
        ensures
            r == self.phase is Closed,
    {
        match self.phase {
            Phase::Closed => true,
            _ => false,
        }
    }

    fn reject(&mut self, message: &str) -> (r: Step)
        ensures
            final(self).phase is Closed,
            rejects_with(r, message@),
    {
        self.phase = Phase::Closed;
        Step::WriteAndClose(error_line(message))
    }

    /// Decides what one line read on the connection leads to.
    pub fn on_line(&mut self, input: LineInput) -> (r: Step)
        requires
            old(self).phase is Reading,
        ensures
            input is EndOfStream ==> r is Close && final(self).phase is Closed,
            input matches LineInput::Malformed(m) ==> final(self).phase is Closed && rejects_with(
                r,
                parse_error_message(m@),
            ),
            input matches LineInput::Request { method, integer } ==> if method@
                != supported_method() {
                final(self).phase is Closed && rejects_with(r, unsupported_method_message())
            } else if integer is Some {
                r == Step::Query(integer->Some_0) && final(self).phase == Phase::Awaiting(method)
            } else {
                answers_with(r, method@, false) && final(self).phase is Reading
            },
    {
        match input {
            LineInput::EndOfStream => {
                self.phase = Phase::Closed;
                Step::Close
            },
            LineInput::Malformed(m) => {
                if m.as_str().is_empty() {
                    self.reject("malformed request")
                } else {
                    self.reject(m.as_str())
                }
            },
            LineInput::Request { method, integer } => {
                let expected = String::from_str("isPrime");
                if method != expected {
                    self.reject("only isPrime is supported as method")
                } else {
                    match integer {
                        Some(v) => {
                            self.phase = Phase::Awaiting(method);
                            Step::Query(v)
                        },
                        None => self.answer(method, false),
                    }
                }
            },
        }
    }

    fn answer(&mut self, method: String, prime: bool) -> (r: Step)
        ensures
            answers_with(r, method@, prime),
            final(self).phase is Reading,
    {
        self.phase = Phase::Reading;
        Step::Write(response_line(method.as_str(), prime))
    }

    /// Decides what the oracle's answer to the pending request leads to.
    pub fn on_reply(&mut self, prime: bool) -> (r: Step)
        requires
            old(self).phase is Awaiting,
        ensures
            answers_with(r, old(self).phase->Awaiting_0@, prime),
            final(self).phase is Reading,
    {
        let method = match &self.phase {
            Phase::Awaiting(m) => m.clone(),
            _ => String::new(),
        };
        self.answer(method, prime)
    }
}

/// The line that answers a supported request: `{"method":"isPrime","prime":`
/// then `true` or `false`, then `}` and a newline.
pub proof fn lemma_supported_answer_text(prime: bool)
    ensures
        response_text(supported_method(), prime) == "{\"method\":\"isPrime\",\"prime\":"@
            + json_bool(prime) + "}\n"@,
{
    lemma_supported_method_literal();
    reveal_strlit("{\"method\":");
    reveal_strlit(",\"prime\":");
    reveal_strlit("\"isPrime\"");
    reveal_strlit("{\"method\":\"isPrime\",\"prime\":");
    assert("{\"method\":"@ + "\"isPrime\""@ + ",\"prime\":"@ =~= "{\"method\":\"isPrime\",\"prime\":"@);
}

/// Asking the same question twice gives the same answer: the line that
/// answers a supported request for `value` depends on nothing but whether
/// `value` is prime, so two such answers are the same line, and the
/// connection reads on after each.
pub proof fn lemma_same_query_same_answer(value: i64, first: Step, second: Step)
    requires
        answers_with(first, supported_method(), is_prime(value as int)),
        answers_with(second, supported_method(), is_prime(value as int)),
    ensures
        first->Write_0@ == second->Write_0@,
        first->Write_0@ == "{\"method\":\"isPrime\",\"prime\":"@ + json_bool(is_prime(value as int))
            + "}\n"@,
{
    lemma_supported_answer_text(is_prime(value as int));
}

} // verus!
