//! From a tokenized request line to one reply.
//!
//! Token 0 names the command, compared without regard to ASCII case.  The one
//! command is `PING`: alone it answers `"PONG"`, with one argument it echoes
//! the argument wrapped in double quotes (after stripping at most one leading
//! and one trailing quote character left on the raw token), and with more
//! arguments it is an arity error.  No tokens at all, an unknown command, and
//! a tokenization failure each have their own `ERR` reply.  Every reply ends
//! in exactly one line feed.

use vstd::prelude::*;
use crate::tokenize::{DQ, LF, SQ};

verus! {

/// Map an ASCII lower-case letter to upper case; leave every other byte.
pub open spec fn upper(b: u8) -> u8 {
    if 97 <= b && b <= 122 {
        (b - 32) as u8
    } else {
        b
    }
}

/// Executable twin of `upper`.
pub fn upper_byte(b: u8) -> (r: u8)
    ensures
        r == upper(b),
{
    if 97 <= b && b <= 122 {
        b - 32
    } else {
        b
    }
}

/// A quote byte: `'` or `"`.
pub open spec fn is_quote(b: u8) -> bool {
    b == SQ || b == DQ
}

/// Executable twin of `is_quote`.
pub fn is_quote_byte(b: u8) -> (r: bool)
    ensures
        r == is_quote(b),
{
    b == SQ || b == DQ
}

/// The token names `PING`, in any ASCII case.
pub open spec fn is_ping(t: Seq<u8>) -> bool {
    t.len() == 4 && upper(t[0]) == 80 && upper(t[1]) == 73 && upper(t[2]) == 78
        && upper(t[3]) == 71
}

/// Executable twin of `is_ping`.
pub fn is_ping_token(t: &Vec<u8>) -> (r: bool)
    ensures
        r == is_ping(t@),
{
    t.len() == 4 && upper_byte(t[0]) == 80 && upper_byte(t[1]) == 73 && upper_byte(t[2])
        == 78 && upper_byte(t[3]) == 71
}

/// Drop one leading quote byte if there is one, then one trailing quote byte
/// if there is one.  An argument that arrived quote-delimited is thus echoed
/// without its delimiters and is not quoted twice.
pub open spec fn strip_outer_quotes(t: Seq<u8>) -> Seq<u8> {
    let a = if t.len() > 0 && is_quote(t[0]) {
        t.drop_first()
    } else {
        t
    };
    if a.len() > 0 && is_quote(a.last()) {
        a.drop_last()
    } else {
        a
    }
}

/// Executable twin of `strip_outer_quotes`.
pub fn strip_quotes(t: &Vec<u8>) -> (r: Vec<u8>)
    ensures
        r@ == strip_outer_quotes(t@),
{
    let mut lo: usize = 0;
    let mut hi: usize = t.len();
    if hi > 0 && is_quote_byte(t[0]) {
        lo = 1;
    }
    if hi > lo && is_quote_byte(t[hi - 1]) {
        hi = hi - 1;
    }
    let mut r: Vec<u8> = Vec::new();
    let mut j: usize = lo;
    proof {
        assert(r@ =~= t@.subrange(lo as int, lo as int));
    }
    while j < hi
        invariant
            lo <= j <= hi <= t@.len(),
            r@ == t@.subrange(lo as int, j as int),
        decreases hi - j,
    {
        r.push(t[j]);
        proof {
            assert(r@ =~= t@.subrange(lo as int, j as int + 1));
        }
        j = j + 1;
    }
    proof {
        assert(r@ =~= strip_outer_quotes(t@));
    }
    r
}

/// One reply, as structured data; `render_reply` fixes its wire bytes.
#[derive(Debug, PartialEq, Eq)]
pub enum Reply {
    /// `PING` with no argument.
    Pong,
    /// `PING` with one argument: the stripped argument bytes to echo.
    Echo(Vec<u8>),
    /// The line held no token at all.
    ErrNoCommand,
    /// Token 0 (carried here verbatim) names no known command.
    ErrUnknown(Vec<u8>),
    /// `PING` with two or more arguments.
    ErrWrongArity,
    /// The line could not be tokenized.
    ErrMismatchedQuotes,
}

/// Wire bytes of the `"PONG"` reply.
pub open spec fn pong_reply() -> Seq<u8> {
    seq![DQ, 80, 79, 78, 71, DQ, LF]
}

/// Wire bytes of an echo reply: the argument wrapped in double quotes.
pub open spec fn echo_reply(a: Seq<u8>) -> Seq<u8> {
    seq![DQ] + a + seq![DQ, LF]
}

/// Wire bytes of the reply to an empty token list.
pub open spec fn no_command_reply() -> Seq<u8> {
    seq![
        69, 82, 82, 32, 78, 111, 32, 99, 111, 109, 109,
        97, 110, 100, LF,
    ]
}

/// Wire bytes of the reply to `PING` with too many arguments.
pub open spec fn wrong_arity_reply() -> Seq<u8> {
    seq![
        69, 82, 82, 32, 119, 114, 111, 110, 103, 32, 110,
        117, 109, 98, 101, 114, 32, 111, 102, 32, 97, 114,
        103, 117, 109, 101, 110, 116, 115, 32, 102, 111, 114,
        32, 39, 112, 105, 110, 103, 39, 32, 99, 111, 109,
        109, 97, 110, 100, LF,
    ]
}

/// Wire bytes standing before the command name in an unknown-command reply.
pub open spec fn unknown_reply_prefix() -> Seq<u8> {
    seq![
        69, 82, 82, 32, 85, 110, 107, 110, 111, 119, 110,
        32, 111, 114, 32, 100, 105, 115, 97, 98, 108, 101,
        100, 32, 99, 111, 109, 109, 97, 110, 100, 32, 39,
    ]
}

/// Wire bytes of the unknown-command reply: the raw token 0 between single
/// quotes.
pub open spec fn unknown_reply(name: Seq<u8>) -> Seq<u8> {
    unknown_reply_prefix() + name + seq![39, LF]
}

/// Wire bytes of the reply to a line whose quoting does not tokenize.
pub open spec fn mismatched_reply() -> Seq<u8> {
    seq![
        69, 82, 82, 32, 77, 105, 115, 109, 97, 116, 99,
        104, 101, 100, 81, 117, 111, 116, 101, 115, LF,
    ]
}

/// The reply owed to a token list, as wire bytes.
pub open spec fn spec_reply(t: Seq<Seq<u8>>) -> Seq<u8> {
    if t.len() == 0 {
        no_command_reply()
    } else if is_ping(t[0]) {
        if t.len() == 1 {
            pong_reply()
        } else if t.len() == 2 {
            echo_reply(strip_outer_quotes(t[1]))
        } else {
            wrong_arity_reply()
        }
    } else {
        unknown_reply(t[0])
    }
}

/// Select the reply for a token list.
///
/// No tokens is `ErrNoCommand`; `PING` (in any case) answers `Pong` alone,
/// `Echo` of the stripped argument with one argument, `ErrWrongArity` with
/// more; any other command name answers `ErrUnknown` carrying the raw
/// token 0.
pub fn dispatch(toks: &Vec<Vec<u8>>) -> (r: Reply)
    ensures
        ({
            let t = crate::tokenize::words_of(toks@);
            if t.len() == 0 {
                r == Reply::ErrNoCommand
            } else if is_ping(t[0]) {
                if t.len() == 1 {
                    r == Reply::Pong
                } else if t.len() == 2 {
                    r matches Reply::Echo(a) && a@ == strip_outer_quotes(t[1])
                } else {
                    r == Reply::ErrWrongArity
                }
            } else {
                (r matches Reply::ErrUnknown(n) && n@ == t[0])
            }
        }),
{
    if toks.len() == 0 {
        Reply::ErrNoCommand
    } else if is_ping_token(&toks[0]) {
        if toks.len() == 1 {
            Reply::Pong
        } else if toks.len() == 2 {
            Reply::Echo(strip_quotes(&toks[1]))
        } else {
            Reply::ErrWrongArity
        }
    } else {
        let mut name: Vec<u8> = Vec::new();
        name.extend_from_slice(toks[0].as_slice());
        proof {
            assert(name@ =~= toks@[0]@);
        }
        Reply::ErrUnknown(name)
    }
}

/// Turn a reply into its wire bytes, ending in exactly one line feed.
pub fn render_reply(r: Reply) -> (out: Vec<u8>)
    ensures
        out@ == match r {
            Reply::Pong => pong_reply(),
            Reply::Echo(a) => echo_reply(a@),
            Reply::ErrNoCommand => no_command_reply(),
            Reply::ErrUnknown(n) => unknown_reply(n@),
            Reply::ErrWrongArity => wrong_arity_reply(),
            Reply::ErrMismatchedQuotes => mismatched_reply(),
        },
{
    match r {
        Reply::Pong => {
            let out: Vec<u8> = vec![DQ, 80, 79, 78, 71, DQ, LF];
            proof {
                assert(out@ =~= pong_reply());
            }
            out
        },
        Reply::Echo(a) => {
            let mut out: Vec<u8> = Vec::new();
            out.push(DQ);
            out.extend_from_slice(a.as_slice());
            out.push(DQ);
            out.push(LF);
            proof {
                assert(out@ =~= echo_reply(a@));
            }
            out
        },
        Reply::ErrNoCommand => {
            let out: Vec<u8> = vec![
                69, 82, 82, 32, 78, 111, 32, 99, 111, 109, 109,
                97, 110, 100, LF,
            ];
            proof {
                assert(out@ =~= no_command_reply());
            }
            out
        },
        Reply::ErrUnknown(n) => {
            let mut out: Vec<u8> = vec![
                69, 82, 82, 32, 85, 110, 107, 110, 111, 119, 110,
                32, 111, 114, 32, 100, 105, 115, 97, 98, 108, 101,
                100, 32, 99, 111, 109, 109, 97, 110, 100, 32, 39,
            ];
            proof {
                assert(out@ =~= unknown_reply_prefix());
            }
            out.extend_from_slice(n.as_slice());
            out.push(39);
            out.push(LF);
            proof {
                assert(out@ =~= unknown_reply(n@));
            }
            out
        },
        Reply::ErrWrongArity => {
            let out: Vec<u8> = vec![
                69, 82, 82, 32, 119, 114, 111, 110, 103, 32, 110,
                117, 109, 98, 101, 114, 32, 111, 102, 32, 97, 114,
                103, 117, 109, 101, 110, 116, 115, 32, 102, 111, 114,
                32, 39, 112, 105, 110, 103, 39, 32, 99, 111, 109,
                109, 97, 110, 100, LF,
            ];
            proof {
                assert(out@ =~= wrong_arity_reply());
            }
            out
        },
        Reply::ErrMismatchedQuotes => {
            let out: Vec<u8> = vec![
                69, 82, 82, 32, 77, 105, 115, 109, 97, 116, 99,
                104, 101, 100, 81, 117, 111, 116, 101, 115, LF,
            ];
            proof {
                assert(out@ =~= mismatched_reply());
            }
            out
        },
    }
}

} // verus!
