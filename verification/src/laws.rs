//! Laws of the protocol, stated over the specs and proved once for all
//! inputs: what tokenizing does to a line with balanced quotes and no
//! escapes, that unmatched quotes always fail, and what reply a whole
//! request line is owed.

use vstd::prelude::*;
use crate::tokenize::{
    is_ws, lex_init, lex_run, lex_step, spec_tokenize, LexMode, LexState, TokenizeError, BS,
    DQ, SQ,
};
use crate::tokenize::lemma_lex_run_concat;
use crate::dispatch::{
    echo_reply, is_ping, is_quote, no_command_reply, strip_outer_quotes, unknown_reply,
};
use crate::handler::spec_response;

verus! {

/// A byte that needs no quoting: not whitespace, not a quote, not a
/// backslash.
pub open spec fn plain_byte(b: u8) -> bool {
    !is_ws(b) && b != SQ && b != DQ && b != BS
}

/// Every byte of the word needs no quoting.
pub open spec fn all_plain(w: Seq<u8>) -> bool {
    forall|i: int| 0 <= i < w.len() ==> plain_byte(#[trigger] w[i])
}

/// How one word of a line is delimited when the line is written down.
pub enum Quoting {
    /// The word stands bare.
    Bare,
    /// The word stands between single quotes.
    SingleQuoted,
    /// The word stands between double quotes.
    DoubleQuoted,
}

/// The word, so delimited, holds no escape and nothing that would end its
/// own delimiter: this is the balanced, escape-free fragment.
pub open spec fn word_ok(q: Quoting, w: Seq<u8>) -> bool {
    match q {
        Quoting::Bare => w.len() > 0 && all_plain(w),
        Quoting::SingleQuoted => forall|i: int| 0 <= i < w.len() ==> #[trigger] w[i] != SQ,
        Quoting::DoubleQuoted => forall|i: int|
            0 <= i < w.len() ==> #[trigger] w[i] != DQ && w[i] != BS,
    }
}

/// The word with its delimiters.
pub open spec fn wrap(q: Quoting, w: Seq<u8>) -> Seq<u8> {
    match q {
        Quoting::Bare => w,
        Quoting::SingleQuoted => seq![SQ] + w + seq![SQ],
        Quoting::DoubleQuoted => seq![DQ] + w + seq![DQ],
    }
}

/// The line that writes the given words, each with its chosen delimiters,
/// separated by single spaces.
pub open spec fn render_line(ws: Seq<(Quoting, Seq<u8>)>) -> Seq<u8>
    decreases ws.len(),
{
    if ws.len() == 0 {
        Seq::empty()
    } else if ws.len() == 1 {
        wrap(ws[0].0, ws[0].1)
    } else {
        wrap(ws[0].0, ws[0].1) + seq![32u8] + render_line(ws.drop_first())
    }
}

/// The words themselves, without their delimiters.
pub open spec fn line_words(ws: Seq<(Quoting, Seq<u8>)>) -> Seq<Seq<u8>> {
    Seq::new(ws.len(), |i: int| ws[i].1)
}

/// Every byte of the sequence is whitespace.
pub open spec fn all_ws(s: Seq<u8>) -> bool {
    forall|i: int| 0 <= i < s.len() ==> is_ws(#[trigger] s[i])
}

/// The line that writes the given words, each with its chosen delimiters,
/// with the given whitespace run between each pair of neighbours.
pub open spec fn render_spaced(ws: Seq<(Quoting, Seq<u8>)>, seps: Seq<Seq<u8>>) -> Seq<u8>
    decreases ws.len(),
{
    if ws.len() == 0 {
        Seq::empty()
    } else if ws.len() == 1 {
        wrap(ws[0].0, ws[0].1)
    } else {
        wrap(ws[0].0, ws[0].1) + seps[0] + render_spaced(ws.drop_first(), seps.drop_first())
    }
}

/// How often a byte occurs in a sequence.
pub open spec fn count_byte(s: Seq<u8>, b: u8) -> nat
    decreases s.len(),
{
    if s.len() == 0 {
        0
    } else {
        (if s.first() == b {
            1nat
        } else {
            0nat
        }) + count_byte(s.drop_first(), b)
    }
}

/// Plain word bytes keep extending the current token.
proof fn lemma_lex_plain_in_word(st: LexState, w: Seq<u8>)
    requires
        st.mode == LexMode::Word,
        all_plain(w),
    ensures
        lex_run(w, st) == (LexState { toks: st.toks, cur: st.cur + w, mode: LexMode::Word }),
    decreases w.len(),
{
    if w.len() == 0 {
        assert(st.cur + w =~= st.cur);
    } else {
        let b = w.first();
        assert(plain_byte(w[0]));
        let st1 = lex_step(st, b);
        assert(st1 == (LexState { toks: st.toks, cur: st.cur.push(b), mode: LexMode::Word }));
        assert(all_plain(w.drop_first())) by {
            assert forall|i: int| 0 <= i < w.drop_first().len() implies plain_byte(
                #[trigger] w.drop_first()[i],
            ) by {
                assert(w.drop_first()[i] == w[i + 1]);
            }
        }
        lemma_lex_plain_in_word(st1, w.drop_first());
        assert(st.cur.push(b) + w.drop_first() =~= st.cur + w);
    }
}

/// Single-quoted contents keep extending the current token.
proof fn lemma_lex_single_body(st: LexState, w: Seq<u8>)
    requires
        st.mode == LexMode::Single,
        forall|i: int| 0 <= i < w.len() ==> #[trigger] w[i] != SQ,
    ensures
        lex_run(w, st) == (LexState { toks: st.toks, cur: st.cur + w, mode: LexMode::Single }),
    decreases w.len(),
{
    if w.len() == 0 {
        assert(st.cur + w =~= st.cur);
    } else {
        let b = w.first();
        let st1 = lex_step(st, b);
        assert(st1 == (LexState {
            toks: st.toks,
            cur: st.cur.push(b),
            mode: LexMode::Single,
        }));
        assert(forall|i: int|
            0 <= i < w.drop_first().len() ==> #[trigger] w.drop_first()[i] != SQ);
        lemma_lex_single_body(st1, w.drop_first());
        assert(st.cur.push(b) + w.drop_first() =~= st.cur + w);
    }
}

/// Double-quoted, escape-free contents keep extending the current token.
proof fn lemma_lex_double_body(st: LexState, w: Seq<u8>)
    requires
        st.mode == LexMode::Double,
        forall|i: int| 0 <= i < w.len() ==> #[trigger] w[i] != DQ && w[i] != BS,
    ensures
        lex_run(w, st) == (LexState { toks: st.toks, cur: st.cur + w, mode: LexMode::Double }),
    decreases w.len(),
{
    if w.len() == 0 {
        assert(st.cur + w =~= st.cur);
    } else {
        let b = w.first();
        let st1 = lex_step(st, b);
        assert(st1 == (LexState {
            toks: st.toks,
            cur: st.cur.push(b),
            mode: LexMode::Double,
        }));
        assert(forall|i: int|
            0 <= i < w.drop_first().len() ==> #[trigger] w.drop_first()[i] != DQ
                && w.drop_first()[i] != BS);
        lemma_lex_double_body(st1, w.drop_first());
        assert(st.cur.push(b) + w.drop_first() =~= st.cur + w);
    }
}

/// One byte of input, then the rest: `lex_run` unrolled once.
proof fn lemma_lex_run_one(b: u8, rest: Seq<u8>, st: LexState)
    ensures
        lex_run(seq![b] + rest, st) == lex_run(rest, lex_step(st, b)),
{
    assert((seq![b] + rest).first() == b);
    assert((seq![b] + rest).drop_first() =~= rest);
}

/// A delimited word, read from between tokens or from inside one, lands the
/// lexer inside a token extended by exactly the word's contents.
proof fn lemma_lex_wrap(st: LexState, q: Quoting, w: Seq<u8>)
    requires
        st.mode == LexMode::Between || st.mode == LexMode::Word,
        word_ok(q, w),
    ensures
        lex_run(wrap(q, w), st) == (LexState {
            toks: st.toks,
            cur: st.cur + w,
            mode: LexMode::Word,
        }),
{
    match q {
        Quoting::Bare => {
            let b = w.first();
            assert(plain_byte(w[0]));
            let st1 = lex_step(st, b);
            assert(st1 == (LexState {
                toks: st.toks,
                cur: st.cur.push(b),
                mode: LexMode::Word,
            }));
            lemma_lex_run_one(b, w.drop_first(), st);
            assert(seq![b] + w.drop_first() =~= w);
            assert(all_plain(w.drop_first())) by {
                assert forall|i: int| 0 <= i < w.drop_first().len() implies plain_byte(
                    #[trigger] w.drop_first()[i],
                ) by {
                    assert(w.drop_first()[i] == w[i + 1]);
                }
            }
            lemma_lex_plain_in_word(st1, w.drop_first());
            assert(st.cur.push(b) + w.drop_first() =~= st.cur + w);
        },
        Quoting::SingleQuoted => {
            let st1 = lex_step(st, SQ);
            assert(st1 == (LexState { toks: st.toks, cur: st.cur, mode: LexMode::Single }));
            lemma_lex_run_concat(seq![SQ] + w, seq![SQ], st);
            lemma_lex_run_one(SQ, w, st);
            assert((seq![SQ] + w + seq![SQ]) =~= (seq![SQ] + w) + seq![SQ]);
            lemma_lex_single_body(st1, w);
            let st2 = lex_run(w, st1);
            lemma_lex_run_one(SQ, Seq::empty(), st2);
            assert(seq![SQ] + Seq::<u8>::empty() =~= seq![SQ]);
        },
        Quoting::DoubleQuoted => {
            let st1 = lex_step(st, DQ);
            assert(st1 == (LexState { toks: st.toks, cur: st.cur, mode: LexMode::Double }));
            lemma_lex_run_concat(seq![DQ] + w, seq![DQ], st);
            lemma_lex_run_one(DQ, w, st);
            assert((seq![DQ] + w + seq![DQ]) =~= (seq![DQ] + w) + seq![DQ]);
            lemma_lex_double_body(st1, w);
            let st2 = lex_run(w, st1);
            lemma_lex_run_one(DQ, Seq::empty(), st2);
            assert(seq![DQ] + Seq::<u8>::empty() =~= seq![DQ]);
        },
    }
}

/// Whitespace read between tokens is skipped.
proof fn lemma_lex_ws_between(st: LexState, s: Seq<u8>)
    requires
        st.mode == LexMode::Between,
        forall|i: int| 0 <= i < s.len() ==> is_ws(#[trigger] s[i]),
    ensures
        lex_run(s, st) == st,
    decreases s.len(),
{
    if s.len() > 0 {
        assert(is_ws(s[0]));
        assert(lex_step(st, s.first()) == st);
        assert(forall|i: int| 0 <= i < s.drop_first().len() ==> is_ws(
            #[trigger] s.drop_first()[i],
        ));
        lemma_lex_ws_between(st, s.drop_first());
    }
}

/// Whitespace read inside a token ends it; any more whitespace is skipped.
proof fn lemma_lex_ws_from_word(st: LexState, s: Seq<u8>)
    requires
        st.mode == LexMode::Word,
        s.len() > 0,
        all_ws(s),
    ensures
        lex_run(s, st) == (LexState {
            toks: st.toks.push(st.cur),
            cur: Seq::<u8>::empty(),
            mode: LexMode::Between,
        }),
{
    assert(is_ws(s[0]));
    let st1 = lex_step(st, s.first());
    assert(st1 == (LexState {
        toks: st.toks.push(st.cur),
        cur: Seq::<u8>::empty(),
        mode: LexMode::Between,
    }));
    assert(forall|i: int| 0 <= i < s.drop_first().len() ==> is_ws(
        #[trigger] s.drop_first()[i],
    ));
    lemma_lex_ws_between(st1, s.drop_first());
}

/// A word list rendered with arbitrary whitespace runs as separators, read
/// from between tokens with no token open, ends with every word but the
/// last finished and the last one still open.
proof fn lemma_lex_render_spaced(
    ws: Seq<(Quoting, Seq<u8>)>,
    seps: Seq<Seq<u8>>,
    st: LexState,
)
    requires
        st.mode == LexMode::Between,
        st.cur == Seq::<u8>::empty(),
        ws.len() > 0,
        forall|i: int| 0 <= i < ws.len() ==> word_ok(#[trigger] ws[i].0, ws[i].1),
        seps.len() >= ws.len() - 1,
        forall|i: int| 0 <= i < seps.len() ==> #[trigger] seps[i].len() > 0 && all_ws(seps[i]),
    ensures
        lex_run(render_spaced(ws, seps), st) == (LexState {
            toks: st.toks + line_words(ws).drop_last(),
            cur: line_words(ws).last(),
            mode: LexMode::Word,
        }),
    decreases ws.len(),
{
    if ws.len() == 1 {
        lemma_lex_wrap(st, ws[0].0, ws[0].1);
        assert(st.cur + ws[0].1 =~= ws[0].1);
        assert(line_words(ws).last() == ws[0].1);
        assert(st.toks + line_words(ws).drop_last() =~= st.toks);
    } else {
        let w0 = ws[0].1;
        let rest = ws.drop_first();
        let head = wrap(ws[0].0, w0);
        let sep = seps[0];
        assert(render_spaced(ws, seps) == head + sep + render_spaced(rest, seps.drop_first()));
        assert(head + sep + render_spaced(rest, seps.drop_first()) =~= (head + sep)
            + render_spaced(rest, seps.drop_first()));
        lemma_lex_run_concat(head + sep, render_spaced(rest, seps.drop_first()), st);
        lemma_lex_run_concat(head, sep, st);
        lemma_lex_wrap(st, ws[0].0, w0);
        let st1 = LexState { toks: st.toks, cur: st.cur + w0, mode: LexMode::Word };
        assert(sep.len() > 0 && all_ws(sep));
        lemma_lex_ws_from_word(st1, sep);
        let st2 = LexState {
            toks: st.toks.push(st.cur + w0),
            cur: Seq::<u8>::empty(),
            mode: LexMode::Between,
        };
        assert(lex_run(sep, st1) == st2);
        assert(st.cur + w0 =~= w0);
        assert(forall|i: int| 0 <= i < rest.len() ==> word_ok(
            #[trigger] rest[i].0,
            rest[i].1,
        ));
        assert(forall|i: int|
            0 <= i < seps.drop_first().len() ==> #[trigger] seps.drop_first()[i].len() > 0
                && all_ws(seps.drop_first()[i]));
        lemma_lex_render_spaced(rest, seps.drop_first(), st2);
        assert(st.toks.push(w0) + line_words(rest).drop_last() =~= st.toks + line_words(
            ws,
        ).drop_last());
        assert(line_words(rest).last() == line_words(ws).last());
    }
}

/// Tokenizing any line with balanced quotes and no escapes — whatever
/// whitespace runs stand before, between and after its words — splits it at
/// the unquoted whitespace, collapsing the runs, and strips each word's
/// quote delimiters: the result is exactly the word list.
pub proof fn lemma_tokenize_line(
    pre: Seq<u8>,
    ws: Seq<(Quoting, Seq<u8>)>,
    seps: Seq<Seq<u8>>,
    post: Seq<u8>,
)
    requires
        all_ws(pre),
        all_ws(post),
        ws.len() > 0,
        forall|i: int| 0 <= i < ws.len() ==> word_ok(#[trigger] ws[i].0, ws[i].1),
        seps.len() >= ws.len() - 1,
        forall|i: int| 0 <= i < seps.len() ==> #[trigger] seps[i].len() > 0 && all_ws(seps[i]),
    ensures
        spec_tokenize(pre + render_spaced(ws, seps) + post) == Ok::<
            Seq<Seq<u8>>,
            TokenizeError,
        >(line_words(ws)),
{
    let body = render_spaced(ws, seps);
    assert(pre + body + post =~= (pre + body) + post);
    lemma_lex_run_concat(pre + body, post, lex_init());
    lemma_lex_run_concat(pre, body, lex_init());
    lemma_lex_ws_between(lex_init(), pre);
    lemma_lex_render_spaced(ws, seps, lex_init());
    let st1 = lex_run(body, lex_init());
    assert(st1.toks =~= line_words(ws).drop_last());
    if post.len() == 0 {
        assert(lex_run(post, st1) == st1);
        assert(st1.toks.push(st1.cur) =~= line_words(ws));
    } else {
        lemma_lex_ws_from_word(st1, post);
        assert(st1.toks.push(st1.cur) =~= line_words(ws));
    }
}

/// So many single spaces, each its own separator run.
pub open spec fn single_spaces(n: int) -> Seq<Seq<u8>> {
    Seq::new(
        if n <= 0 {
            0nat
        } else {
            n as nat
        },
        |i: int| seq![32u8],
    )
}

/// A line rendered with single spaces is the line rendered with one-space
/// separator runs.
proof fn lemma_render_line_is_spaced(ws: Seq<(Quoting, Seq<u8>)>)
    ensures
        render_line(ws) == render_spaced(ws, single_spaces(ws.len() - 1)),
    decreases ws.len(),
{
    if ws.len() > 1 {
        let rest = ws.drop_first();
        lemma_render_line_is_spaced(rest);
        let seps = single_spaces(ws.len() - 1);
        assert(seps[0] == seq![32u8]);
        assert(seps.drop_first() =~= single_spaces(rest.len() - 1));
    }
}

/// Tokenizing a line with balanced quotes and no escapes splits it at the
/// unquoted whitespace and strips each word's quote delimiters: the result
/// is exactly the word list the line was rendered from.
pub proof fn lemma_tokenize_simple_line(ws: Seq<(Quoting, Seq<u8>)>)
    requires
        forall|i: int| 0 <= i < ws.len() ==> word_ok(#[trigger] ws[i].0, ws[i].1),
    ensures
        spec_tokenize(render_line(ws)) == Ok::<Seq<Seq<u8>>, TokenizeError>(line_words(ws)),
{
    if ws.len() == 0 {
        assert(render_line(ws) =~= Seq::<u8>::empty());
        assert(line_words(ws) =~= Seq::<Seq<u8>>::empty());
    } else {
        let seps = single_spaces(ws.len() - 1);
        lemma_render_line_is_spaced(ws);
        assert(forall|i: int| 0 <= i < seps.len() ==> #[trigger] seps[i].len() > 0 && all_ws(
            seps[i],
        ));
        lemma_tokenize_line(Seq::empty(), ws, seps, Seq::empty());
        assert(Seq::<u8>::empty() + render_spaced(ws, seps) + Seq::<u8>::empty()
            =~= render_line(ws));
    }
}

/// Tokenizing a line of nothing but whitespace yields no tokens at all, and
/// no error.
pub proof fn lemma_tokenize_ws_only(s: Seq<u8>)
    requires
        forall|i: int| 0 <= i < s.len() ==> is_ws(#[trigger] s[i]),
    ensures
        spec_tokenize(s) == Ok::<Seq<Seq<u8>>, TokenizeError>(Seq::<Seq<u8>>::empty()),
{
    lemma_lex_ws_between(lex_init(), s);
}

/// Without backslashes or double quotes, the lexer is inside a single-quoted
/// run exactly when it has read an odd number of single quotes.
proof fn lemma_lex_single_parity(st: LexState, s: Seq<u8>)
    requires
        st.mode == LexMode::Between || st.mode == LexMode::Word || st.mode == LexMode::Single,
        forall|i: int| 0 <= i < s.len() ==> #[trigger] s[i] != BS && s[i] != DQ,
    ensures
        ({
            let fin = lex_run(s, st);
            &&& (fin.mode == LexMode::Between || fin.mode == LexMode::Word || fin.mode
                == LexMode::Single)
            &&& ((fin.mode == LexMode::Single) <==> ((st.mode == LexMode::Single) != (
            count_byte(s, SQ) % 2 == 1)))
        }),
    decreases s.len(),
{
    if s.len() > 0 {
        assert(s[0] != BS && s[0] != DQ);
        let st1 = lex_step(st, s.first());
        assert(forall|i: int|
            0 <= i < s.drop_first().len() ==> #[trigger] s.drop_first()[i] != BS
                && s.drop_first()[i] != DQ);
        lemma_lex_single_parity(st1, s.drop_first());
    }
}

/// A line with no backslash and no double quote fails to tokenize exactly
/// when its single quotes are odd in number — one of them is then unmatched;
/// with an even number it tokenizes.
pub proof fn lemma_odd_single_quotes_fail(s: Seq<u8>)
    requires
        forall|i: int| 0 <= i < s.len() ==> #[trigger] s[i] != BS && s[i] != DQ,
    ensures
        spec_tokenize(s) == Err::<Seq<Seq<u8>>, TokenizeError>(TokenizeError::MismatchedQuotes)
            <==> count_byte(s, SQ) % 2 == 1,
{
    lemma_lex_single_parity(lex_init(), s);
}

/// Without backslashes or single quotes, the lexer is inside a double-quoted
/// run exactly when it has read an odd number of double quotes.
proof fn lemma_lex_double_parity(st: LexState, s: Seq<u8>)
    requires
        st.mode == LexMode::Between || st.mode == LexMode::Word || st.mode == LexMode::Double,
        forall|i: int| 0 <= i < s.len() ==> #[trigger] s[i] != BS && s[i] != SQ,
    ensures
        ({
            let fin = lex_run(s, st);
            &&& (fin.mode == LexMode::Between || fin.mode == LexMode::Word || fin.mode
                == LexMode::Double)
            &&& ((fin.mode == LexMode::Double) <==> ((st.mode == LexMode::Double) != (
            count_byte(s, DQ) % 2 == 1)))
        }),
    decreases s.len(),
{
    if s.len() > 0 {
        assert(s[0] != BS && s[0] != SQ);
        let st1 = lex_step(st, s.first());
        assert(forall|i: int|
            0 <= i < s.drop_first().len() ==> #[trigger] s.drop_first()[i] != BS
                && s.drop_first()[i] != SQ);
        lemma_lex_double_parity(st1, s.drop_first());
    }
}

/// A line with no backslash and no single quote fails to tokenize exactly
/// when its double quotes are odd in number — one of them is then unmatched;
/// with an even number it tokenizes.
pub proof fn lemma_odd_double_quotes_fail(s: Seq<u8>)
    requires
        forall|i: int| 0 <= i < s.len() ==> #[trigger] s[i] != BS && s[i] != SQ,
    ensures
        spec_tokenize(s) == Err::<Seq<Seq<u8>>, TokenizeError>(TokenizeError::MismatchedQuotes)
            <==> count_byte(s, DQ) % 2 == 1,
{
    lemma_lex_double_parity(lex_init(), s);
}

/// The bytes of the word `PING`, upper case.
pub open spec fn ping_word() -> Seq<u8> {
    seq![80u8, 73u8, 78u8, 71u8]
}

/// Dispatching `PING x` for a plain argument `x` (no whitespace, quotes or
/// backslashes) replies with `x` between double quotes, exactly once.
pub proof fn lemma_ping_echo(x: Seq<u8>)
    requires
        x.len() > 0,
        all_plain(x),
    ensures
        spec_response(ping_word() + seq![32u8] + x) == echo_reply(x),
{
    let ws: Seq<(Quoting, Seq<u8>)> = seq![(Quoting::Bare, ping_word()), (Quoting::Bare, x)];
    assert(all_plain(ping_word())) by {
        assert forall|i: int| 0 <= i < ping_word().len() implies plain_byte(
            #[trigger] ping_word()[i],
        ) by {
            assert(ping_word()[0] == 80u8 && ping_word()[1] == 73u8 && ping_word()[2] == 78u8
                && ping_word()[3] == 71u8);
        }
    }
    assert(forall|i: int| 0 <= i < ws.len() ==> word_ok(#[trigger] ws[i].0, ws[i].1));
    lemma_tokenize_simple_line(ws);
    let rest = ws.drop_first();
    assert(rest.len() == 1 && rest[0] == ws[1]);
    assert(render_line(rest) == wrap(ws[1].0, ws[1].1));
    assert(render_line(ws) == wrap(ws[0].0, ws[0].1) + seq![32u8] + render_line(rest));
    assert(render_line(ws) =~= ping_word() + seq![32u8] + x);
    let t = line_words(ws);
    assert(t[0] == ping_word() && t[1] == x && t.len() == 2);
    assert(is_ping(t[0]));
    assert(plain_byte(x[0]) && plain_byte(x.last()));
    assert(strip_outer_quotes(x) == x);
}

/// Dispatching `PING "x"` — the argument already delimited by double quotes
/// in the request — replies with `x` between double quotes exactly once,
/// the same reply `PING x` gets: an already-quoted argument is not quoted
/// twice.  (`x` must not begin or end with a quote byte of its own, which
/// the argument-stripping of the echo would remove.)
pub proof fn lemma_ping_quoted_arg(x: Seq<u8>)
    requires
        forall|i: int| 0 <= i < x.len() ==> #[trigger] x[i] != DQ && x[i] != BS,
        x.len() == 0 || (!is_quote(x[0]) && !is_quote(x.last())),
    ensures
        spec_response(ping_word() + seq![32u8, DQ] + x + seq![DQ]) == echo_reply(x),
{
    let ws: Seq<(Quoting, Seq<u8>)> = seq![
        (Quoting::Bare, ping_word()),
        (Quoting::DoubleQuoted, x),
    ];
    assert(all_plain(ping_word())) by {
        assert forall|i: int| 0 <= i < ping_word().len() implies plain_byte(
            #[trigger] ping_word()[i],
        ) by {
            assert(ping_word()[0] == 80u8 && ping_word()[1] == 73u8 && ping_word()[2] == 78u8
                && ping_word()[3] == 71u8);
        }
    }
    assert(forall|i: int| 0 <= i < ws.len() ==> word_ok(#[trigger] ws[i].0, ws[i].1));
    lemma_tokenize_simple_line(ws);
    let rest = ws.drop_first();
    assert(rest.len() == 1 && rest[0] == ws[1]);
    assert(render_line(rest) == wrap(ws[1].0, ws[1].1));
    assert(render_line(ws) == wrap(ws[0].0, ws[0].1) + seq![32u8] + render_line(rest));
    assert(render_line(ws) =~= ping_word() + seq![32u8, DQ] + x + seq![DQ]);
    let t = line_words(ws);
    assert(t[0] == ping_word() && t[1] == x && t.len() == 2);
    assert(is_ping(t[0]));
    assert(strip_outer_quotes(x) == x);
}

/// Dispatching `PING 'x'` — the argument delimited by single quotes —
/// likewise replies with `x` between double quotes exactly once.
pub proof fn lemma_ping_single_quoted_arg(x: Seq<u8>)
    requires
        forall|i: int| 0 <= i < x.len() ==> #[trigger] x[i] != SQ,
        x.len() == 0 || (!is_quote(x[0]) && !is_quote(x.last())),
    ensures
        spec_response(ping_word() + seq![32u8, SQ] + x + seq![SQ]) == echo_reply(x),
{
    let ws: Seq<(Quoting, Seq<u8>)> = seq![
        (Quoting::Bare, ping_word()),
        (Quoting::SingleQuoted, x),
    ];
    assert(all_plain(ping_word())) by {
        assert forall|i: int| 0 <= i < ping_word().len() implies plain_byte(
            #[trigger] ping_word()[i],
        ) by {
            assert(ping_word()[0] == 80u8 && ping_word()[1] == 73u8 && ping_word()[2] == 78u8
                && ping_word()[3] == 71u8);
        }
    }
    assert(forall|i: int| 0 <= i < ws.len() ==> word_ok(#[trigger] ws[i].0, ws[i].1));
    lemma_tokenize_simple_line(ws);
    let rest = ws.drop_first();
    assert(rest.len() == 1 && rest[0] == ws[1]);
    assert(render_line(rest) == wrap(ws[1].0, ws[1].1));
    assert(render_line(ws) == wrap(ws[0].0, ws[0].1) + seq![32u8] + render_line(rest));
    assert(render_line(ws) =~= ping_word() + seq![32u8, SQ] + x + seq![SQ]);
    let t = line_words(ws);
    assert(t[0] == ping_word() && t[1] == x && t.len() == 2);
    assert(is_ping(t[0]));
    assert(strip_outer_quotes(x) == x);
}

/// A line of nothing but whitespace — the empty line among them — is always
/// answered `ERR No command`.
pub proof fn lemma_blank_line_no_command(s: Seq<u8>)
    requires
        forall|i: int| 0 <= i < s.len() ==> is_ws(#[trigger] s[i]),
    ensures
        spec_response(s) == no_command_reply(),
{
    lemma_tokenize_ws_only(s);
}

/// Any line whose first word does not spell `PING` (in any ASCII case) is
/// answered `ERR Unknown or disabled command '<name>'`, with the raw first
/// word as the name, whatever and however many its other words are.
pub proof fn lemma_unknown_command(ws: Seq<(Quoting, Seq<u8>)>)
    requires
        ws.len() >= 1,
        forall|i: int| 0 <= i < ws.len() ==> word_ok(#[trigger] ws[i].0, ws[i].1),
        !is_ping(ws[0].1),
    ensures
        spec_response(render_line(ws)) == unknown_reply(ws[0].1),
{
    lemma_tokenize_simple_line(ws);
    assert(line_words(ws)[0] == ws[0].1);
}

} // verus!
