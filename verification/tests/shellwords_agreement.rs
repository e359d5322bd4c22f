//! The library's tokenizer against shellwords::split, the word splitter the
//! wire grammar is modelled on: on every sample line the two must agree,
//! token for token, and fail together.

use simple_ping::tokenize::tokenize;

fn agree(line: &str) {
    let ours = tokenize(line.as_bytes());
    let theirs = shellwords::split(line);
    match (ours, theirs) {
        (Ok(a), Ok(b)) => {
            let b_bytes: Vec<Vec<u8>> = b.iter().map(|w| w.as_bytes().to_vec()).collect();
            assert_eq!(a, b_bytes, "token mismatch on {:?}", line);
        }
        (Err(_), Err(_)) => {}
        (a, b) => panic!("disagreement on {:?}: ours {:?}, shellwords {:?}", line, a, b),
    }
}

#[test]
fn agrees_on_plain_lines() {
    agree("");
    agree("   ");
    agree("PING");
    agree("PING hello\n");
    agree("a b c d");
    agree("  a \t b  ");
    agree("cat file.txt | less");
}

#[test]
fn agrees_on_quoted_lines() {
    agree("here are \"two words\"");
    agree("a \"b b\" a");
    agree("a 'b b' a");
    agree("PING \"hi there\"\n");
    agree("a'b c'd");
    agree("''");
    agree("\"\"");
    agree("abc '%foo bar%'");
    agree("\"it's\"");
    agree("'a \"quote\"'");
}

#[test]
fn agrees_on_escapes() {
    agree("a b\\ c d");
    agree("a \"\\\"b\\\" c\" d");
    agree("\"a\\$b\"");
    agree("\"a\\`b\"");
    agree("\"a\\\\b\"");
    agree("\"a\\xb\"");
    agree("\\'");
    agree("a\\");
    agree("\\");
    agree("a\\\nb");
    agree("back\\\rslash");
}

#[test]
fn agrees_on_bad_quoting() {
    agree("a \"b c d e");
    agree("a 'b c d e");
    agree("one '\"\"\"");
    agree("'''");
    agree("PING \"oops\n");
    agree("\"a\\\nb\"");
    agree("\"a\\\"");
}
