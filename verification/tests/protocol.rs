use simple_ping::dispatch::{dispatch, render_reply, strip_quotes, Reply};
use simple_ping::handler::{handle_line, handle_requests};
use simple_ping::tokenize::{tokenize, TokenizeError};

fn words(toks: &[&str]) -> Vec<Vec<u8>> {
    toks.iter().map(|t| t.as_bytes().to_vec()).collect()
}

#[test]
fn ping_alone_pongs() {
    assert_eq!(handle_line(b"PING\n"), b"\"PONG\"\n".to_vec());
}

#[test]
fn ping_echoes_argument() {
    assert_eq!(handle_line(b"PING hello\n"), b"\"hello\"\n".to_vec());
}

#[test]
fn ping_lower_case_quoted_argument() {
    assert_eq!(handle_line(b"ping \"hi there\"\n"), b"\"hi there\"\n".to_vec());
}

#[test]
fn empty_line_is_no_command() {
    assert_eq!(handle_line(b"\n"), b"ERR No command\n".to_vec());
}

#[test]
fn unknown_command_named_in_reply() {
    assert_eq!(
        handle_line(b"ECHO x\n"),
        b"ERR Unknown or disabled command 'ECHO'\n".to_vec()
    );
}

#[test]
fn ping_two_arguments_is_arity_error() {
    assert_eq!(
        handle_line(b"PING a b\n"),
        b"ERR wrong number of arguments for 'ping' command\n".to_vec()
    );
}

#[test]
fn unterminated_quote_is_tokenizer_error() {
    assert_eq!(handle_line(b"PING \"oops\n"), b"ERR MismatchedQuotes\n".to_vec());
}

#[test]
fn mixed_case_ping_matches() {
    assert_eq!(handle_line(b"PiNg\n"), b"\"PONG\"\n".to_vec());
}

#[test]
fn already_quoted_argument_not_quoted_twice() {
    assert_eq!(handle_line(b"PING 'hello'\n"), b"\"hello\"\n".to_vec());
    assert_eq!(handle_line(b"PING hello\n"), b"\"hello\"\n".to_vec());
}

#[test]
fn surrounding_whitespace_is_ignored() {
    assert_eq!(handle_line(b"  PING \t  hello  \r\n"), b"\"hello\"\n".to_vec());
}

#[test]
fn unknown_command_wins_over_arity() {
    assert_eq!(
        handle_line(b"FOO a b\n"),
        b"ERR Unknown or disabled command 'FOO'\n".to_vec()
    );
}

#[test]
fn ping_empty_quoted_argument_echoes_empty() {
    assert_eq!(handle_line(b"PING \"\"\n"), b"\"\"\n".to_vec());
}

#[test]
fn tokenize_splits_on_whitespace() {
    assert_eq!(tokenize(b"a b c d").unwrap(), words(&["a", "b", "c", "d"]));
}

#[test]
fn tokenize_collapses_whitespace_runs() {
    assert_eq!(tokenize(b"  a \t b  \r\n").unwrap(), words(&["a", "b"]));
}

#[test]
fn tokenize_keeps_quoted_words_whole() {
    assert_eq!(
        tokenize(b"here are \"two words\"").unwrap(),
        words(&["here", "are", "two words"])
    );
    assert_eq!(tokenize(b"a 'b b' a").unwrap(), words(&["a", "b b", "a"]));
}

#[test]
fn tokenize_joins_adjacent_pieces() {
    assert_eq!(tokenize(b"a'b c'd").unwrap(), words(&["ab cd"]));
}

#[test]
fn tokenize_empty_and_blank_lines_give_no_tokens() {
    assert_eq!(tokenize(b"").unwrap(), words(&[]));
    assert_eq!(tokenize(b" \t \n").unwrap(), words(&[]));
}

#[test]
fn tokenize_escaped_double_quotes() {
    assert_eq!(
        tokenize(b"a \"\\\"b\\\" c\" d").unwrap(),
        words(&["a", "\"b\" c", "d"])
    );
}

#[test]
fn tokenize_escaped_space_joins_words() {
    assert_eq!(tokenize(b"a b\\ c d").unwrap(), words(&["a", "b c", "d"]));
}

#[test]
fn tokenize_backslash_keeps_other_escapes_in_double_quotes() {
    assert_eq!(tokenize(b"\"a\\$b\"").unwrap(), words(&["a$b"]));
    assert_eq!(tokenize(b"\"a\\xb\"").unwrap(), words(&["a\\xb"]));
}

#[test]
fn tokenize_trailing_backslash_stands_for_itself() {
    assert_eq!(tokenize(b"a\\").unwrap(), words(&["a\\"]));
    assert_eq!(tokenize(b"a\\\nb").unwrap(), words(&["a\\", "b"]));
}

#[test]
fn tokenize_unmatched_quotes_fail() {
    assert_eq!(tokenize(b"a \"b c d e"), Err(TokenizeError::MismatchedQuotes));
    assert_eq!(tokenize(b"a 'b c d e"), Err(TokenizeError::MismatchedQuotes));
    assert_eq!(tokenize(b"one '\"\"\""), Err(TokenizeError::MismatchedQuotes));
    assert_eq!(tokenize(b"'''"), Err(TokenizeError::MismatchedQuotes));
}

#[test]
fn tokenize_backslash_newline_in_double_quotes_fails() {
    assert_eq!(tokenize(b"\"a\\\nb\""), Err(TokenizeError::MismatchedQuotes));
}

#[test]
fn dispatch_no_tokens_is_no_command() {
    assert_eq!(dispatch(&words(&[])), Reply::ErrNoCommand);
}

#[test]
fn dispatch_unknown_keeps_raw_name() {
    assert_eq!(
        dispatch(&words(&["foo", "a", "b"])),
        Reply::ErrUnknown(b"foo".to_vec())
    );
}

#[test]
fn dispatch_ping_arities() {
    assert_eq!(dispatch(&words(&["PING"])), Reply::Pong);
    assert_eq!(dispatch(&words(&["PING", "x"])), Reply::Echo(b"x".to_vec()));
    assert_eq!(dispatch(&words(&["PING", "a", "b"])), Reply::ErrWrongArity);
}

#[test]
fn strip_quotes_removes_one_leading_and_one_trailing() {
    assert_eq!(strip_quotes(&b"'hi'".to_vec()), b"hi".to_vec());
    assert_eq!(strip_quotes(&b"\"hi".to_vec()), b"hi".to_vec());
    assert_eq!(strip_quotes(&b"hi\"".to_vec()), b"hi".to_vec());
    assert_eq!(strip_quotes(&b"\"".to_vec()), b"".to_vec());
    assert_eq!(strip_quotes(&b"\"\"".to_vec()), b"".to_vec());
    assert_eq!(strip_quotes(&b"a'b".to_vec()), b"a'b".to_vec());
}

#[test]
fn render_reply_exact_wire_bytes() {
    assert_eq!(render_reply(Reply::Pong), b"\"PONG\"\n".to_vec());
    assert_eq!(render_reply(Reply::Echo(b"hi".to_vec())), b"\"hi\"\n".to_vec());
    assert_eq!(render_reply(Reply::ErrNoCommand), b"ERR No command\n".to_vec());
    assert_eq!(
        render_reply(Reply::ErrUnknown(b"GET".to_vec())),
        b"ERR Unknown or disabled command 'GET'\n".to_vec()
    );
    assert_eq!(
        render_reply(Reply::ErrWrongArity),
        b"ERR wrong number of arguments for 'ping' command\n".to_vec()
    );
    assert_eq!(
        render_reply(Reply::ErrMismatchedQuotes),
        b"ERR MismatchedQuotes\n".to_vec()
    );
}

#[test]
fn session_gives_one_reply_per_request_in_order() {
    let lines = vec![
        b"PING\n".to_vec(),
        b"PING hello\n".to_vec(),
        b"BAD\n".to_vec(),
        b"\n".to_vec(),
    ];
    let replies = handle_requests(&lines);
    assert_eq!(replies.len(), 4);
    assert_eq!(replies[0], b"\"PONG\"\n".to_vec());
    assert_eq!(replies[1], b"\"hello\"\n".to_vec());
    assert_eq!(replies[2], b"ERR Unknown or disabled command 'BAD'\n".to_vec());
    assert_eq!(replies[3], b"ERR No command\n".to_vec());
}

#[test]
fn session_with_no_requests_gives_no_replies() {
    let lines: Vec<Vec<u8>> = vec![];
    assert_eq!(handle_requests(&lines).len(), 0);
}
