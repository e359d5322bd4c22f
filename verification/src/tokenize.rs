//! Shell-style word splitting for one request line.
//!
//! A line is a sequence of bytes.  Unquoted whitespace separates tokens;
//! single quotes take their contents literally; double quotes allow a
//! backslash to escape `$`, backtick, `"`, `\` (any other escaped byte keeps
//! its backslash); an unquoted backslash escapes the next byte.  A quoted run
//! with no closing quote is a tokenization error.
//!
//! The meaning of a line is fixed by a byte-at-a-time state machine
//! (`lex_step`, `lex_run`, `lex_finish`); the executable `tokenize` is
//! verified against it.

use vstd::prelude::*;

verus! {

/// Single quote `'`.
pub const SQ: u8 = 39;

/// Double quote `"`.
pub const DQ: u8 = 34;

/// Backslash `\`.
pub const BS: u8 = 92;

/// Line feed `\n`.
pub const LF: u8 = 10;

/// Dollar sign `$`, escapable inside double quotes.
pub const DOLLAR: u8 = 36;

/// Backtick, escapable inside double quotes.
pub const BTICK: u8 = 96;

/// The one way tokenizing a line can fail: a quoted run is never closed
/// (or a backslash inside double quotes is followed by a line feed, which
/// likewise leaves the double-quoted run unterminated).
#[derive(Clone, Copy, PartialEq, Eq, Structural, Debug)]
pub enum TokenizeError {
    MismatchedQuotes,
}

/// ASCII whitespace: space, tab, line feed, vertical tab, form feed,
/// carriage return.  Outside quotes these separate tokens.
pub open spec fn is_ws(b: u8) -> bool {
    b == 32 || b == 9 || b == 10 || b == 11 || b == 12 || b == 13
}

/// Executable twin of `is_ws`.
pub fn is_ws_byte(b: u8) -> (r: bool)
    ensures
        r == is_ws(b),
{
    b == 32 || b == 9 || b == 10 || b == 11 || b == 12 || b == 13
}

/// Where the lexer stands inside the line.
#[derive(Clone, Copy, PartialEq, Eq, Structural, Debug)]
pub enum LexMode {
    /// Between tokens (only whitespace since the last token ended).
    Between,
    /// Inside a token, outside any quotes.
    Word,
    /// Inside a token, right after an unquoted backslash.
    Esc,
    /// Inside a single-quoted run.
    Single,
    /// Inside a double-quoted run.
    Double,
    /// Inside a double-quoted run, right after a backslash.
    DoubleEsc,
    /// A backslash-line feed appeared inside double quotes; the line is bad.
    Failed,
}

/// Full lexer state: the tokens already finished, the bytes of the token
/// being built, and the mode.
pub struct LexState {
    pub toks: Seq<Seq<u8>>,
    pub cur: Seq<u8>,
    pub mode: LexMode,
}

/// The state a lexer starts a line in.
pub open spec fn lex_init() -> LexState {
    LexState { toks: Seq::empty(), cur: Seq::empty(), mode: LexMode::Between }
}

/// One byte of input advances the lexer state.
pub open spec fn lex_step(st: LexState, b: u8) -> LexState {
    match st.mode {
        LexMode::Between => {
            if is_ws(b) {
                st
            } else if b == SQ {
                LexState { mode: LexMode::Single, ..st }
            } else if b == DQ {
                LexState { mode: LexMode::Double, ..st }
            } else if b == BS {
                LexState { mode: LexMode::Esc, ..st }
            } else {
                LexState { cur: st.cur.push(b), mode: LexMode::Word, ..st }
            }
        },
        LexMode::Word => {
            if is_ws(b) {
                LexState {
                    toks: st.toks.push(st.cur),
                    cur: Seq::empty(),
                    mode: LexMode::Between,
                }
            } else if b == SQ {
                LexState { mode: LexMode::Single, ..st }
            } else if b == DQ {
                LexState { mode: LexMode::Double, ..st }
            } else if b == BS {
                LexState { mode: LexMode::Esc, ..st }
            } else {
                LexState { cur: st.cur.push(b), ..st }
            }
        },
        LexMode::Esc => {
            if b == LF {
                // A backslash at the end of a line stands for itself, and the
                // line feed then ends the token.
                LexState {
                    toks: st.toks.push(st.cur.push(BS)),
                    cur: Seq::empty(),
                    mode: LexMode::Between,
                }
            } else {
                LexState { cur: st.cur.push(b), mode: LexMode::Word, ..st }
            }
        },
        LexMode::Single => {
            if b == SQ {
                LexState { mode: LexMode::Word, ..st }
            } else {
                LexState { cur: st.cur.push(b), ..st }
            }
        },
        LexMode::Double => {
            if b == DQ {
                LexState { mode: LexMode::Word, ..st }
            } else if b == BS {
                LexState { mode: LexMode::DoubleEsc, ..st }
            } else {
                LexState { cur: st.cur.push(b), ..st }
            }
        },
        LexMode::DoubleEsc => {
            if b == LF {
                LexState { mode: LexMode::Failed, ..st }
            } else if b == DQ || b == BS || b == DOLLAR || b == BTICK {
                LexState { cur: st.cur.push(b), mode: LexMode::Double, ..st }
            } else {
                LexState { cur: st.cur.push(BS).push(b), mode: LexMode::Double, ..st }
            }
        },
        LexMode::Failed => st,
    }
}

/// Run the lexer over a whole byte sequence.
pub open spec fn lex_run(s: Seq<u8>, st: LexState) -> LexState
    decreases s.len(),
{
    if s.len() == 0 {
        st
    } else {
        lex_run(s.drop_first(), lex_step(st, s.first()))
    }
}

/// At the end of the line: an open token is finished (a pending backslash
/// stands for itself); an open quoted run is a mismatched-quotes error.
pub open spec fn lex_finish(st: LexState) -> Result<Seq<Seq<u8>>, TokenizeError> {
    match st.mode {
        LexMode::Between => Ok(st.toks),
        LexMode::Word => Ok(st.toks.push(st.cur)),
        LexMode::Esc => Ok(st.toks.push(st.cur.push(BS))),
        _ => Err(TokenizeError::MismatchedQuotes),
    }
}

/// The tokens of a line, or the error, as fixed by the lexer machine.
pub open spec fn spec_tokenize(s: Seq<u8>) -> Result<Seq<Seq<u8>>, TokenizeError> {
    lex_finish(lex_run(s, lex_init()))
}

/// The token sequences a vector of token vectors stands for.
pub open spec fn words_of(v: Seq<Vec<u8>>) -> Seq<Seq<u8>> {
    Seq::new(v.len(), |i: int| v[i]@)
}

/// Once the lexer has failed it stays failed.
pub proof fn lemma_lex_run_failed(s: Seq<u8>, st: LexState)
    requires
        st.mode == LexMode::Failed,
    ensures
        lex_run(s, st) == st,
    decreases s.len(),
{
    if s.len() > 0 {
        lemma_lex_run_failed(s.drop_first(), lex_step(st, s.first()));
    }
}

/// Running the lexer over a concatenation runs it over each part in turn.
pub proof fn lemma_lex_run_concat(s1: Seq<u8>, s2: Seq<u8>, st: LexState)
    ensures
        lex_run(s1 + s2, st) == lex_run(s2, lex_run(s1, st)),
    decreases s1.len(),
{
    if s1.len() == 0 {
        assert(s1 + s2 =~= s2);
    } else {
        assert((s1 + s2).drop_first() =~= s1.drop_first() + s2);
        assert((s1 + s2).first() == s1.first());
        lemma_lex_run_concat(s1.drop_first(), s2, lex_step(st, s1.first()));
    }
}

/// Split a line into tokens.
///
/// The result is exactly what the lexer machine assigns to the line: the
/// token list on success, `MismatchedQuotes` when a quoted run never closes.
pub fn tokenize(line: &[u8]) -> (r: Result<Vec<Vec<u8>>, TokenizeError>)
    ensures
        match r {
            Ok(toks) => spec_tokenize(line@) == Ok::<Seq<Seq<u8>>, TokenizeError>(
                words_of(toks@),
            ),
            Err(e) => spec_tokenize(line@) == Err::<Seq<Seq<u8>>, TokenizeError>(e),
        },
{
    let mut toks: Vec<Vec<u8>> = Vec::new();
    let mut cur: Vec<u8> = Vec::new();
    let mut mode = LexMode::Between;
    let mut i: usize = 0;
    proof {
        assert(line@.skip(0) =~= line@);
        assert(words_of(toks@) =~= Seq::<Seq<u8>>::empty());
        assert(cur@ =~= Seq::<u8>::empty());
    }
    while i < line.len()
        invariant
            i <= line.len(),
            lex_run(line@, lex_init()) == lex_run(
                line@.skip(i as int),
                LexState { toks: words_of(toks@), cur: cur@, mode: mode },
            ),
            mode != LexMode::Failed,
        decreases line.len() - i,
    {
        let ghost pre = LexState { toks: words_of(toks@), cur: cur@, mode: mode };
        let b = line[i];
        proof {
            assert(line@.skip(i as int).first() == line@[i as int]);
            assert(line@.skip(i as int).drop_first() =~= line@.skip(i as int + 1));
        }
        match mode {
            LexMode::Between => {
                if is_ws_byte(b) {
                } else if b == SQ {
                    mode = LexMode::Single;
                } else if b == DQ {
                    mode = LexMode::Double;
                } else if b == BS {
                    mode = LexMode::Esc;
                } else {
                    cur.push(b);
                    mode = LexMode::Word;
                }
            },
            LexMode::Word => {
                if is_ws_byte(b) {
                    toks.push(cur);
                    cur = Vec::new();
                    mode = LexMode::Between;
                    proof {
                        assert(words_of(toks@) =~= pre.toks.push(pre.cur));
                    }
                } else if b == SQ {
                    mode = LexMode::Single;
                } else if b == DQ {
                    mode = LexMode::Double;
                } else if b == BS {
                    mode = LexMode::Esc;
                } else {
                    cur.push(b);
                }
            },
            LexMode::Esc => {
                if b == LF {
                    cur.push(BS);
                    toks.push(cur);
                    cur = Vec::new();
                    mode = LexMode::Between;
                    proof {
                        assert(words_of(toks@) =~= pre.toks.push(pre.cur.push(BS)));
                    }
                } else {
                    cur.push(b);
                    mode = LexMode::Word;
                }
            },
            LexMode::Single => {
                if b == SQ {
                    mode = LexMode::Word;
                } else {
                    cur.push(b);
                }
            },
            LexMode::Double => {
                if b == DQ {
                    mode = LexMode::Word;
                } else if b == BS {
                    mode = LexMode::DoubleEsc;
                } else {
                    cur.push(b);
                }
            },
            LexMode::DoubleEsc => {
                if b == LF {
                    proof {
                        assert(lex_step(pre, b).mode == LexMode::Failed);
                        lemma_lex_run_failed(
                            line@.skip(i as int + 1),
                            lex_step(pre, b),
                        );
                    }
                    return Err(TokenizeError::MismatchedQuotes);
                } else if b == DQ || b == BS || b == DOLLAR || b == BTICK {
                    cur.push(b);
                    mode = LexMode::Double;
                } else {
                    cur.push(BS);
                    cur.push(b);
                    mode = LexMode::Double;
                }
            },
            LexMode::Failed => {
                return Err(TokenizeError::MismatchedQuotes);
            },
        }
        proof {
            assert(LexState { toks: words_of(toks@), cur: cur@, mode: mode } == lex_step(
                pre,
                b,
            ));
        }
        i = i + 1;
    }
    proof {
        assert(line@.skip(i as int) =~= Seq::<u8>::empty());
    }
    let ghost fin = lex_run(line@, lex_init());
    match mode {
        LexMode::Between => Ok(toks),
        LexMode::Word => {
            toks.push(cur);
            proof {
                assert(words_of(toks@) =~= fin.toks.push(fin.cur));
            }
            Ok(toks)
        },
        LexMode::Esc => {
            cur.push(BS);
            toks.push(cur);
            proof {
                assert(words_of(toks@) =~= fin.toks.push(fin.cur.push(BS)));
            }
            Ok(toks)
        },
        _ => Err(TokenizeError::MismatchedQuotes),
    }
}

} // verus!
