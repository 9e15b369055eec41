//! Protocol values and their encoding.

use vstd::prelude::*;
use vstd::string::StringExecFns;

verus! {

broadcast use vstd::std_specs::vec::axiom_vec_decreases_to_view, vstd::std_specs::vec::axiom_vec_index_decreases,
    vstd::seq::axiom_seq_index_decreases;

/// What a protocol value is, as mathematics.
pub enum Frame {
    Null,
    Simple(Seq<char>),
    Integer(Seq<char>),
    Error(Seq<char>),
    Bulk(Seq<char>),
    Array(Seq<Frame>),
}

/// A protocol value.
#[derive(Debug, PartialEq, Eq)]
pub enum Value {
    Null,
    SimpleString(String),
    Integer(String),
    Error(String),
    BulkString(String),
    Array(Vec<Value>),
}

/// Why a value does not read as a command.
#[derive(Clone, Copy, Debug, PartialEq, Eq, Structural)]
pub enum CommandError {
    /// The value is not an array.
    NotAnArray,
    /// The array does not start with a bulk string.
    NoCommandName,
}

/// The model of a value.
pub open spec fn frame_of(v: Value) -> Frame
    decreases v,
{
    match v {
        Value::Null => Frame::Null,
        Value::SimpleString(s) => Frame::Simple(s@),
        Value::Integer(s) => Frame::Integer(s@),
        Value::Error(s) => Frame::Error(s@),
        Value::BulkString(s) => Frame::Bulk(s@),
        Value::Array(items) => Frame::Array(frames_of(items@, items@.len() as int)),
    }
}

/// The models of the first `n` values of `s`.
pub open spec fn frames_of(s: Seq<Value>, n: int) -> Seq<Frame>
    decreases s, n,
{
    if n <= 0 || n > s.len() {
        Seq::empty()
    } else {
        frames_of(s, n - 1).push(frame_of(s[n - 1]))
    }
}

/// The models of all values of `s`.
pub open spec fn frames(s: Seq<Value>) -> Seq<Frame> {
    frames_of(s, s.len() as int)
}

impl View for Value {
    type V = Frame;

    open spec fn view(&self) -> Frame {
        frame_of(*self)
    }
}

/// The models of a prefix of values are the values' models, one by one.
pub proof fn lemma_frames_of(s: Seq<Value>, n: int)
    requires
        0 <= n <= s.len(),
    ensures
        frames_of(s, n).len() == n,
        forall|j: int| 0 <= j < n ==> #[trigger] frames_of(s, n)[j] == frame_of(s[j]),
    decreases n,
{
    if n > 0 {
        lemma_frames_of(s, n - 1);
    }
}

/// The models of a sequence of values are the values' models, one by one.
pub proof fn lemma_frames(s: Seq<Value>)
    ensures
        frames(s).len() == s.len(),
        forall|j: int| 0 <= j < s.len() ==> #[trigger] frames(s)[j] == frame_of(s[j]),
{
    lemma_frames_of(s, s.len() as int);
}

/// The line terminator.
pub open spec fn crlf() -> Seq<char> {
    seq!['\r', '\n']
}

/// The decimal digit characters.
pub open spec fn digit_chars() -> Seq<char> {
    seq!['0', '1', '2', '3', '4', '5', '6', '7', '8', '9']
}

/// The decimal spelling of `n`.
pub open spec fn decimal(n: nat) -> Seq<char>
    decreases n,
{
    if n < 10 {
        seq![digit_chars()[n as int]]
    } else {
        decimal(n / 10).push(digit_chars()[(n % 10) as int])
    }
}

/// The wire form of a frame; arrays have none.
pub open spec fn encoding(f: Frame) -> Seq<char> {
    match f {
        Frame::Null => seq!['$', '-', '1'] + crlf(),
        Frame::Simple(s) => seq!['+'] + s + crlf(),
        Frame::Integer(s) => seq![':'] + s + crlf(),
        Frame::Error(s) => seq!['-'] + s + crlf(),
        Frame::Bulk(s) => seq!['$'] + decimal(s.len()) + crlf() + s + crlf(),
        Frame::Array(_) => Seq::empty(),
    }
}

/// A command name and its arguments, read from a request frame.
pub open spec fn command_of(f: Frame) -> Result<(Seq<char>, Seq<Frame>), CommandError> {
    match f {
        Frame::Array(items) => {
            if items.len() > 0 && items[0] is Bulk {
                Ok((items[0]->Bulk_0, items.drop_first()))
            } else {
                Err(CommandError::NoCommandName)
            }
        },
        _ => Err(CommandError::NotAnArray),
    }
}

/// Appends the decimal spelling of `n`.
fn push_decimal(out: &mut String, n: usize)
    ensures
        final(out)@ == old(out)@ + decimal(n as nat),
    decreases n,
{
    if n >= 10 {
        push_decimal(out, n / 10);
    }
    let d = n % 10;
    let digits: &str = "0123456789";
    proof {
        reveal_strlit("0123456789");
        assert(digits@ == digit_chars());
    }
    let piece = digits.substring_char(d, d + 1);
    proof {
        assert(piece@ =~= seq![digit_chars()[d as int]]);
    }
    out.append(piece);
    proof {
        if n >= 10 {
            assert(decimal(n as nat) == decimal((n / 10) as nat).push(digit_chars()[d as int]));
        }
        assert(out@ =~= old(out)@ + decimal(n as nat));
    }
}

/// `prefix`, then `body`, then the line terminator.
fn framed(prefix: &str, body: &String) -> (r: String)
    ensures
        r@ == prefix@ + body@ + crlf(),
{
    let mut r = String::from_str(prefix);
    r.append(body.as_str());
    proof {
        reveal_strlit("\r\n");
    }
    r.append("\r\n");
    r
}

impl Value {
    /// A copy of the value, arrays copied item by item.
    pub fn duplicate(&self) -> (r: Value)
        ensures
            r@ == self@,
        decreases self,
    {
        match self {
            Value::Null => Value::Null,
            Value::SimpleString(s) => Value::SimpleString(s.clone()),
            Value::Integer(s) => Value::Integer(s.clone()),
            Value::Error(s) => Value::Error(s.clone()),
            Value::BulkString(s) => Value::BulkString(s.clone()),
            Value::Array(items) => {
                let mut out: Vec<Value> = Vec::new();
                let mut i: usize = 0;
                while i < items.len()
                    invariant
                        *self == Value::Array(*items),
                        i <= items@.len(),
                        out@.len() == i,
                        forall|j: int| 0 <= j < i ==> #[trigger] frame_of(out@[j]) == frame_of(items@[j]),
                    decreases items@.len() - i,
                {
                    assert(decreases_to!(*self => (*self)->Array_0));
                    assert(decreases_to!(*items => items[i as int]));
                    let item = items[i].duplicate();
                    out.push(item);
                    i = i + 1;
                }
                proof {
                    lemma_frames(out@);
                    lemma_frames(items@);
                    assert(frames(out@) =~= frames(items@));
                }
                Value::Array(out)
            },
        }
    }

    /// The payload of a bulk string.
    pub fn unwrap_bulk(&self) -> (r: String)
        requires
            self is BulkString,
        ensures
            Frame::Bulk(r@) == self@,
    {
        match self {
            Value::BulkString(s) => s.clone(),
            _ => String::new(),
        }
    }

    /// Reads a request: an array whose first item, a bulk string, names the
    /// command and whose other items are its arguments.
    pub fn to_command(&self) -> (r: Result<(String, Vec<Value>), CommandError>)
        ensures
            match r {
                Ok((name, args)) => command_of(self@) == Ok::<(Seq<char>, Seq<Frame>), CommandError>((name@, frames(args@))),
                Err(e) => command_of(self@) == Err::<(Seq<char>, Seq<Frame>), CommandError>(e),
            },
    {
        match self {
            Value::Array(items) => {
                proof {
                    lemma_frames(items@);
                }
                if items.len() == 0 {
                    return Err(CommandError::NoCommandName);
                }
                let name = match &items[0] {
                    Value::BulkString(s) => s.clone(),
                    _ => {
                        return Err(CommandError::NoCommandName);
                    },
                };
                let mut args: Vec<Value> = Vec::new();
                let mut i: usize = 1;
                while i < items.len()
                    invariant
                        1 <= i <= items@.len(),
                        args@.len() == i - 1,
                        forall|j: int| 0 <= j < i - 1 ==> #[trigger] frame_of(args@[j]) == frame_of(items@[j + 1]),
                    decreases items@.len() - i,
                {
                    args.push(items[i].duplicate());
                    i = i + 1;
                }
                proof {
                    lemma_frames(args@);
                    let fs = frames(items@);
                    assert(frames(args@) =~= fs.drop_first());
                }
                Ok((name, args))
            },
            _ => Err(CommandError::NotAnArray),
        }
    }

    /// The wire form of the value; arrays are not encoded.
    pub fn encode(self) -> (r: String)
        requires
            !(self is Array),
        ensures
            r@ == encoding(self@),
    {
        match self {
            Value::Null => {
                proof {
                    reveal_strlit("$-1\r\n");
                }
                let r = String::from_str("$-1\r\n");
                proof {
                    assert(r@ =~= encoding(self@));
                }
                r
            },
            Value::SimpleString(s) => {
                proof {
                    reveal_strlit("+");
                }
                framed("+", &s)
            },
            Value::Integer(s) => {
                proof {
                    reveal_strlit(":");
                }
                framed(":", &s)
            },
            Value::Error(s) => {
                proof {
                    reveal_strlit("-");
                }
                framed("-", &s)
            },
            Value::BulkString(s) => {
                proof {
                    reveal_strlit("$");
                }
                let mut head = String::from_str("$");
                push_decimal(&mut head, s.as_str().unicode_len());
                proof {
                    reveal_strlit("\r\n");
                }
                head.append("\r\n");
                let r = framed(head.as_str(), &s);
                proof {
                    assert(r@ =~= encoding(self@));
                }
                r
            },
            Value::Array(_) => String::new(),
        }
    }
}

impl Clone for Value {
    fn clone(&self) -> Value {
        self.duplicate()
    }
}

} // verus!
