//! Requests against the cache: reading a command, running it, and the
//! response value.

use vstd::prelude::*;
use vstd::string::StringExecFns;
use vstd::utf8::encode_utf8;
use crate::cache::{Cache, read_spec, after_read};
use crate::expiry::{Expiry, ExpiryFormat, format_of, sat_mul, NANOS_PER_MILLI, now};
use crate::parser::{number_within, parse_decimal};
use crate::text::{keyword_is, matches_keyword};
use crate::value::{CommandError, Frame, Value, command_of, frames, lemma_frames};

verus! {

/// The commands that the cache serves.
#[derive(Clone, Copy, Debug, PartialEq, Eq, Structural)]
pub enum Command {
    PING,
    ECHO,
    Get,
    SET,
    DELETE,
    EXISTS,
    Uninitialized,
}

/// The command that a name calls, ignoring ASCII case.
pub open spec fn command_named(name: Seq<char>) -> Command {
    if matches_keyword(name, seq!['p', 'i', 'n', 'g']) {
        Command::PING
    } else if matches_keyword(name, seq!['e', 'c', 'h', 'o']) {
        Command::ECHO
    } else if matches_keyword(name, seq!['g', 'e', 't']) {
        Command::Get
    } else if matches_keyword(name, seq!['s', 'e', 't']) {
        Command::SET
    } else if matches_keyword(name, seq!['d', 'e', 'l']) {
        Command::DELETE
    } else if matches_keyword(name, seq!['e', 'x', 'i', 's', 't', 's']) {
        Command::EXISTS
    } else {
        Command::Uninitialized
    }
}

impl Command {
    /// The command that a name calls, ignoring ASCII case.
    pub fn parse(name: &str) -> (r: Command)
        ensures
            r == command_named(name@),
    {
        proof {
            reveal_strlit("ping");
            reveal_strlit("echo");
            reveal_strlit("get");
            reveal_strlit("set");
            reveal_strlit("del");
            reveal_strlit("exists");
            assert("ping"@ == seq!['p', 'i', 'n', 'g']);
            assert("echo"@ == seq!['e', 'c', 'h', 'o']);
            assert("get"@ == seq!['g', 'e', 't']);
            assert("set"@ == seq!['s', 'e', 't']);
            assert("del"@ == seq!['d', 'e', 'l']);
            assert("exists"@ == seq!['e', 'x', 'i', 's', 't', 's']);
        }
        if keyword_is(name, "ping") {
            Command::PING
        } else if keyword_is(name, "echo") {
            Command::ECHO
        } else if keyword_is(name, "get") {
            Command::Get
        } else if keyword_is(name, "set") {
            Command::SET
        } else if keyword_is(name, "del") {
            Command::DELETE
        } else if keyword_is(name, "exists") {
            Command::EXISTS
        } else {
            Command::Uninitialized
        }
    }
}

impl<'a> From<&'a str> for Command {
    fn from(name: &'a str) -> Command {
        Command::parse(name)
    }
}

impl<'a> vstd::std_specs::convert::FromSpecImpl<&'a str> for Command {
    open spec fn obeys_from_spec() -> bool {
        true
    }

    open spec fn from_spec(name: &'a str) -> Command {
        command_named(name@)
    }
}

/// The bindings of a cache, as mathematics.
pub type Bindings = Map<Seq<char>, (Seq<char>, Expiry)>;

/// The text of argument `i`, when it is a bulk string.
pub open spec fn bulk_arg(args: Seq<Frame>, i: int) -> Option<Seq<char>> {
    if 0 <= i < args.len() && args[i] is Bulk {
        Some(args[i]->Bulk_0)
    } else {
        None
    }
}

/// An expiry amount: a text whose bytes are decimal digits, after an
/// optional leading `+`, spelling at most `u64::MAX`.
pub open spec fn amount_of(text: Seq<char>) -> Option<nat> {
    let b = encode_utf8(text);
    if b.len() > 0 && b[0] == 43 {
        number_within(b.subrange(1, b.len() as int), u64::MAX)
    } else {
        number_within(b, u64::MAX)
    }
}

/// The reply to a command that did its work.
pub open spec fn ok_frame() -> Frame {
    Frame::Simple("OK"@)
}

/// The error text for a key that is not there.
pub open spec fn missing_key_message(k: Seq<char>) -> Seq<char> {
    "Error in removing entry with key \""@ + k + "\""@
}

/// The reply to SET and the bindings after it.
pub open spec fn set_outcome(m: Bindings, args: Seq<Frame>, now: u64) -> (Frame, Bindings) {
    match (bulk_arg(args, 0), bulk_arg(args, 1)) {
        (Some(k), Some(v)) => match (bulk_arg(args, 2), bulk_arg(args, 3)) {
            (Some(f), Some(a)) => match amount_of(a) {
                None => (Frame::Error("Unsupported expiry format"@), m),
                Some(n) => (ok_frame(), m.insert(k, (v, if format_of(f) == ExpiryFormat::Uninitialized {
                    Expiry::after_spec(now, sat_mul(n as u64, NANOS_PER_MILLI))
                } else {
                    Expiry::with_format_spec(now, n as u64, format_of(f))
                }))),
            },
            _ => (ok_frame(), m.insert(k, (v, Expiry { instant: None }))),
        },
        _ => (Frame::Error("SET requires two or four arguments"@), m),
    }
}

/// The reply to GET and the bindings after it.
pub open spec fn get_outcome(m: Bindings, args: Seq<Frame>, now: u64) -> (Frame, Bindings) {
    match bulk_arg(args, 0) {
        Some(k) => (match read_spec(m, k, now) {
            Some(v) => Frame::Simple(v),
            None => Frame::Null,
        }, after_read(m, k, now)),
        None => (Frame::Error("GET requires one argument"@), m),
    }
}

/// The reply to DEL and the bindings after it.
pub open spec fn delete_outcome(m: Bindings, args: Seq<Frame>) -> (Frame, Bindings) {
    match bulk_arg(args, 0) {
        Some(k) => if m.contains_key(k) {
            (ok_frame(), m.remove(k))
        } else {
            (Frame::Error(missing_key_message(k)), m)
        },
        None => (Frame::Error("DEL requires one argument"@), m),
    }
}

/// The reply to EXISTS; the bindings stay.
pub open spec fn exists_outcome(m: Bindings, args: Seq<Frame>) -> (Frame, Bindings) {
    match bulk_arg(args, 0) {
        Some(k) => (Frame::Simple(if m.contains_key(k) { "true"@ } else { "false"@ }), m),
        None => (Frame::Error("EXISTS requires one argument"@), m),
    }
}

/// The reply to a command and the bindings after it, at `now`.
pub open spec fn command_outcome(m: Bindings, name: Seq<char>, args: Seq<Frame>, now: u64) -> (Frame, Bindings) {
    match command_named(name) {
        Command::PING => (Frame::Simple("PONG"@), m),
        Command::ECHO => (args[0], m),
        Command::Get => get_outcome(m, args, now),
        Command::SET => set_outcome(m, args, now),
        Command::DELETE => delete_outcome(m, args),
        Command::EXISTS => exists_outcome(m, args),
        Command::Uninitialized => (Frame::Error("command not implemented: "@ + name), m),
    }
}

/// The reply to a request and the bindings after it, at `now`; a request
/// that is no command is an error.
pub open spec fn response_spec(m: Bindings, request: Frame, now: u64) -> Result<(Frame, Bindings), CommandError> {
    match command_of(request) {
        Ok((name, args)) => Ok(command_outcome(m, name, args, now)),
        Err(e) => Err(e),
    }
}

/// `r` is the reply to `request` at `now` and `after` the bindings it leaves.
pub open spec fn answered(before: Bindings, after: Bindings, request: Frame, r: Result<Value, CommandError>, now: u64) -> bool {
    match r {
        Ok(v) => response_spec(before, request, now) == Ok::<(Frame, Bindings), CommandError>((v@, after)),
        Err(e) => response_spec(before, request, now) == Err::<(Frame, Bindings), CommandError>(e) && after == before,
    }
}

/// Running the request may change the bindings: SET, DEL, and a GET that
/// finds its key bound to an expired entry.
pub open spec fn needs_write(m: Bindings, request: Frame, now: u64) -> bool {
    match command_of(request) {
        Ok((name, args)) => match command_named(name) {
            Command::SET => true,
            Command::DELETE => true,
            Command::Get => match bulk_arg(args, 0) {
                Some(k) => m.contains_key(k) && m[k].1.expired_at(now),
                None => false,
            },
            _ => false,
        },
        Err(_) => false,
    }
}

/// ECHO comes with something to echo.
pub open spec fn echo_has_argument(request: Frame) -> bool {
    match command_of(request) {
        Ok((name, args)) => command_named(name) == Command::ECHO ==> args.len() > 0,
        Err(_) => true,
    }
}

/// A simple string of a literal.
fn simple(text: &str) -> (r: Value)
    ensures
        r@ == Frame::Simple(text@),
{
    Value::SimpleString(String::from_str(text))
}

/// An error of a literal.
fn error(text: &str) -> (r: Value)
    ensures
        r@ == Frame::Error(text@),
{
    Value::Error(String::from_str(text))
}

/// The text of argument `i`, when it is a bulk string.
fn bulk_at(args: &Vec<Value>, i: usize) -> (r: Option<&String>)
    ensures
        match r {
            Some(s) => bulk_arg(frames(args@), i as int) == Some(s@),
            None => bulk_arg(frames(args@), i as int) is None,
        },
{
    proof {
        lemma_frames(args@);
    }
    if i < args.len() {
        match &args[i] {
            Value::BulkString(s) => Some(s),
            _ => None,
        }
    } else {
        None
    }
}

/// Runs a request against the cache at `now` and gives the reply.
pub fn handle_request_at(cache: &mut Cache, request: &Value, now: u64) -> (r: Result<Value, CommandError>)
    requires
        old(cache).wf(),
        echo_has_argument(request@),
    ensures
        final(cache).wf(),
        final(cache).sample_spec() == old(cache).sample_spec(),
        final(cache).threshold_spec() == old(cache).threshold_spec(),
        answered(old(cache)@, final(cache)@, request@, r, now),
{
    let (name, args) = match request.to_command() {
        Ok(c) => c,
        Err(e) => {
            return Err(e);
        },
    };
    proof {
        lemma_frames(args@);
    }
    let response = match Command::parse(name.as_str()) {
        Command::PING => simple("PONG"),
        Command::ECHO => args[0].duplicate(),
        Command::Get => handle_get(cache, &args, now),
        Command::SET => handle_set(cache, &args, now),
        Command::DELETE => handle_delete(cache, &args),
        Command::EXISTS => handle_exists(cache, &args),
        Command::Uninitialized => {
            let mut text = String::from_str("command not implemented: ");
            text.append(name.as_str());
            Value::Error(text)
        },
    };
    Ok(response)
}

/// Runs a request against the cache with the clock's present reading.
pub fn handle_request(cache: &mut Cache, request: &Value) -> (r: Result<Value, CommandError>)
    requires
        old(cache).wf(),
        echo_has_argument(request@),
    ensures
        final(cache).wf(),
        final(cache).sample_spec() == old(cache).sample_spec(),
        final(cache).threshold_spec() == old(cache).threshold_spec(),
        exists|t: u64| #[trigger] answered(old(cache)@, final(cache)@, request@, r, t),
{
    let t = now();
    handle_request_at(cache, request, t)
}

/// Runs a request that leaves the bindings as they are, at `now`, through a
/// shared borrow; `None` for a request that may change them, which goes to
/// `handle_request_at`.
pub fn handle_read_only_at(cache: &Cache, request: &Value, now: u64) -> (r: Option<Result<Value, CommandError>>)
    requires
        cache.wf(),
        echo_has_argument(request@),
    ensures
        r is None <==> needs_write(cache@, request@, now),
        r matches Some(x) ==> answered(cache@, cache@, request@, x, now),
{
    let (name, args) = match request.to_command() {
        Ok(c) => c,
        Err(e) => {
            return Some(Err(e));
        },
    };
    proof {
        lemma_frames(args@);
    }
    let response = match Command::parse(name.as_str()) {
        Command::PING => simple("PONG"),
        Command::ECHO => args[0].duplicate(),
        Command::Get => match bulk_at(&args, 0) {
            Some(key) => match cache.peek_at(key, now) {
                None => {
                    return None;
                },
                Some(Some(value)) => Value::SimpleString(value),
                Some(None) => Value::Null,
            },
            None => error("GET requires one argument"),
        },
        Command::SET => {
            return None;
        },
        Command::DELETE => {
            return None;
        },
        Command::EXISTS => handle_exists(cache, &args),
        Command::Uninitialized => {
            let mut text = String::from_str("command not implemented: ");
            text.append(name.as_str());
            Value::Error(text)
        },
    };
    Some(Ok(response))
}

/// Runs a request that leaves the bindings as they are, with the clock's
/// present reading; `None` for a request that may change them.
pub fn handle_read_only(cache: &Cache, request: &Value) -> (r: Option<Result<Value, CommandError>>)
    requires
        cache.wf(),
        echo_has_argument(request@),
    ensures
        exists|t: u64| #[trigger] read_only_answer(cache@, request@, r, t),
{
    let t = now();
    let r = handle_read_only_at(cache, request, t);
    assert(read_only_answer(cache@, request@, r, t));
    r
}

/// `r` is what a request that leaves `m` as it is gets at `now`, or `None`
/// when the request may change `m`.
pub open spec fn read_only_answer(m: Bindings, request: Frame, r: Option<Result<Value, CommandError>>, now: u64) -> bool {
    &&& (r is None <==> needs_write(m, request, now))
    &&& (r matches Some(x) ==> answered(m, m, request, x, now))
}

fn handle_get(cache: &mut Cache, args: &Vec<Value>, now: u64) -> (r: Value)
    requires
        old(cache).wf(),
    ensures
        final(cache).wf(),
        final(cache).sample_spec() == old(cache).sample_spec(),
        final(cache).threshold_spec() == old(cache).threshold_spec(),
        get_outcome(old(cache)@, frames(args@), now) == (r@, final(cache)@),
{
    match bulk_at(args, 0) {
        Some(key) => match cache.get_at(key.clone(), now) {
            Some(value) => Value::SimpleString(value),
            None => Value::Null,
        },
        None => error("GET requires one argument"),
    }
}

fn handle_set(cache: &mut Cache, args: &Vec<Value>, now: u64) -> (r: Value)
    requires
        old(cache).wf(),
    ensures
        final(cache).wf(),
        final(cache).sample_spec() == old(cache).sample_spec(),
        final(cache).threshold_spec() == old(cache).threshold_spec(),
        set_outcome(old(cache)@, frames(args@), now) == (r@, final(cache)@),
{
    match (bulk_at(args, 0), bulk_at(args, 1)) {
        (Some(key), Some(value)) => match (bulk_at(args, 2), bulk_at(args, 3)) {
            (Some(format), Some(amount)) => {
                if ExpiryFormat::parse(format.as_str()) != ExpiryFormat::Uninitialized {
                    handle_set_with_expiry(cache, key, value, amount, Some(format), now)
                } else {
                    handle_set_with_expiry(cache, key, value, amount, None, now)
                }
            },
            _ => {
                cache.set(key.clone(), value.clone());
                simple("OK")
            },
        },
        _ => error("SET requires two or four arguments"),
    }
}

/// Stores `value` under `key` with the expiry that `amount` gives: in the
/// unit `format` when there is one, else in milliseconds.
fn handle_set_with_expiry(
    cache: &mut Cache,
    key: &String,
    value: &String,
    amount: &String,
    format: Option<&String>,
    now: u64,
) -> (r: Value)
    requires
        old(cache).wf(),
        format matches Some(f) ==> format_of(f@) != ExpiryFormat::Uninitialized,
    ensures
        final(cache).wf(),
        final(cache).sample_spec() == old(cache).sample_spec(),
        final(cache).threshold_spec() == old(cache).threshold_spec(),
        match amount_of(amount@) {
            None => r@ == Frame::Error("Unsupported expiry format"@) && final(cache)@ == old(cache)@,
            Some(n) => r@ == ok_frame() && final(cache)@ == old(cache)@.insert(key@, (value@, match format {
                Some(f) => Expiry::with_format_spec(now, n as u64, format_of(f@)),
                None => Expiry::after_spec(now, sat_mul(n as u64, NANOS_PER_MILLI)),
            })),
        },
{
    let bytes = amount.as_str().as_bytes();
    let start: usize = if bytes.len() > 0 && bytes[0] == 43 { 1 } else { 0 };
    match parse_decimal(bytes, start, bytes.len(), u64::MAX) {
        Some(n) => {
            proof {
                assert(bytes@.subrange(0, bytes@.len() as int) =~= bytes@);
            }
            let expiry = match format {
                Some(f) => Expiry::from_format_at(now, n, f.as_str()),
                None => Expiry::from_millis_at(now, n),
            };
            cache.set_with_expiry(key.clone(), value.clone(), expiry);
            simple("OK")
        },
        None => {
            proof {
                assert(bytes@.subrange(0, bytes@.len() as int) =~= bytes@);
            }
            error("Unsupported expiry format")
        },
    }
}

fn handle_delete(cache: &mut Cache, args: &Vec<Value>) -> (r: Value)
    requires
        old(cache).wf(),
    ensures
        final(cache).wf(),
        final(cache).sample_spec() == old(cache).sample_spec(),
        final(cache).threshold_spec() == old(cache).threshold_spec(),
        delete_outcome(old(cache)@, frames(args@)) == (r@, final(cache)@),
{
    match bulk_at(args, 0) {
        Some(key) => match cache.remove(key.clone()) {
            Ok(()) => simple("OK"),
            Err(_) => {
                let mut text = String::from_str("Error in removing entry with key \"");
                text.append(key.as_str());
                text.append("\"");
                Value::Error(text)
            },
        },
        None => error("DEL requires one argument"),
    }
}

fn handle_exists(cache: &Cache, args: &Vec<Value>) -> (r: Value)
    requires
        cache.wf(),
    ensures
        exists_outcome(cache@, frames(args@)) == (r@, cache@),
{
    match bulk_at(args, 0) {
        Some(key) => if cache.key_exists(key.clone()) {
            simple("true")
        } else {
            simple("false")
        },
        None => error("EXISTS requires one argument"),
    }
}

} // verus!
