//! The errors of the library.
use crate::text::{append_decimal, decimal, decimals_tell_numbers_apart};
use vstd::prelude::*;
use vstd::string::StringExecFns;

verus! {

/// What can go wrong. An I/O error is carried in words.
#[derive(Debug, Clone, PartialEq, Eq)]
pub enum Error {
    Io(String),
    Storage(String),
    NotLeader(Option<String>),
    UnknownTopic(String),
    RateLimited { retry_after_ms: u64 },
}

pub type Result<T> = std::result::Result<T, Error>;

/// The text that `{:?}` makes of a string: in quotes, with what needs it escaped.
pub uninterp spec fn quoted_text(s: Seq<char>) -> Seq<char>;

/// Calls `<str as std::fmt::Debug>::fmt` through `format!`; its result is a function
/// of the string.
#[verifier::external_body]
fn quoted(s: &str) -> (r: String)
    ensures
        r@ == quoted_text(s@),
{
    format!("{:?}", s)
}

/// How an address that may be missing is shown.
pub open spec fn shown_address(addr: Option<String>) -> Seq<char> {
    match addr {
        Some(a) => "Some("@ + quoted_text(a@) + ")"@,
        None => "None"@,
    }
}

/// The error in words.
pub open spec fn error_text(e: Error) -> Seq<char> {
    match e {
        Error::Io(m) => "io error: "@ + m@,
        Error::Storage(m) => "storage error: "@ + m@,
        Error::NotLeader(addr) => "not leader; current leader: "@ + shown_address(addr),
        Error::UnknownTopic(t) => "unknown topic: "@ + t@,
        Error::RateLimited { retry_after_ms } => "rate limited; retry after "@ + decimal(
            retry_after_ms as nat,
        ) + "ms"@,
    }
}

impl Error {
    /// The error in words.
    pub fn message(&self) -> (r: String)
        ensures
            r@ == error_text(*self),
    {
        let mut text: String;
        match self {
            Error::Io(m) => {
                text = "io error: ".to_owned();
                text.append(m.as_str());
            },
            Error::Storage(m) => {
                text = "storage error: ".to_owned();
                text.append(m.as_str());
            },
            Error::NotLeader(addr) => {
                text = "not leader; current leader: ".to_owned();
                match addr {
                    Some(a) => {
                        text.append("Some(");
                        text.append(quoted(a.as_str()).as_str());
                        text.append(")");
                    },
                    None => {
                        text.append("None");
                    },
                }
            },
            Error::UnknownTopic(t) => {
                text = "unknown topic: ".to_owned();
                text.append(t.as_str());
            },
            Error::RateLimited { retry_after_ms } => {
                text = "rate limited; retry after ".to_owned();
                append_decimal(&mut text, *retry_after_ms);
                text.append("ms");
            },
        }
        assert(text@ =~= error_text(*self));
        text
    }
}

/// An error in words ends with its cause, so that errors of one kind with different causes
/// can be told apart.
pub proof fn an_error_tells_its_cause(a: String, b: String, m: u64, n: u64)
    ensures
        error_text(Error::Io(a)) == error_text(Error::Io(b)) ==> a@ == b@,
        error_text(Error::Storage(a)) == error_text(Error::Storage(b)) ==> a@ == b@,
        error_text(Error::UnknownTopic(a)) == error_text(Error::UnknownTopic(b)) ==> a@ == b@,
        error_text(Error::RateLimited { retry_after_ms: m }) == error_text(
            Error::RateLimited { retry_after_ms: n },
        ) ==> m == n,
        error_text(Error::Storage(a)).skip(error_text(Error::Storage(a)).len() - a@.len()) == a@,
        error_text(Error::Io(a)).skip(error_text(Error::Io(a)).len() - a@.len()) == a@,
{
    lemma_ending("io error: "@, a@, b@);
    lemma_ending("storage error: "@, a@, b@);
    lemma_ending("unknown topic: "@, a@, b@);
    let start = "rate limited; retry after "@;
    let (x, y) = (decimal(m as nat), decimal(n as nat));
    if start + x + "ms"@ == start + y + "ms"@ {
        let text = start + x + "ms"@;
        assert(text.len() == start.len() + y.len() + "ms"@.len());
        assert(text.subrange(start.len() as int, start.len() as int + x.len()) =~= x);
        assert(text.subrange(start.len() as int, start.len() as int + x.len()) =~= y);
        decimals_tell_numbers_apart(m as nat, n as nat);
    }
}

proof fn lemma_ending(start: Seq<char>, a: Seq<char>, b: Seq<char>)
    ensures
        start + a == start + b ==> a == b,
        (start + a).skip((start + a).len() - a.len()) == a,
{
    assert((start + a).skip(start.len() as int) =~= a);
    assert((start + b).skip(start.len() as int) =~= b);
}

} // verus!
