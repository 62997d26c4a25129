use vpixsh::tokenizer::to_tokens;

fn to_token_strings(commandline: &str) -> Vec<String> {
    return to_tokens(commandline)
        .unwrap()
        .into_iter()
        .map(|token| token.text)
        .collect();
}

#[test]
fn test_operator() {
    assert_eq!(
        // There is an <<- operator
        to_token_strings("echo<<--"),
        vec!["echo", "<<-", "-"]
    );

    assert_eq!(to_token_strings("echo > foo"), vec!["echo", ">", "foo"]);
}

fn assert_parse_error(commandline: &str, failed_part: &str, failed_offset: usize, message: &str) {
    let error = to_tokens(commandline).unwrap_err();

    assert_eq!(error.token.text, failed_part);
    assert_eq!(error.token.start, failed_offset);
    assert!(!error.token.is_comment);
    assert_eq!(error.message, message);
}

#[test]
fn test_backslash_escape() {
    // Note that "the result token shall contain exactly the characters that
    // appear in the input", or in other words, the backslashes stay.
    assert_eq!(to_token_strings(r"echo\ hej"), vec![r"echo\ hej"]);
    assert_eq!(to_token_strings(r"echo \> hej"), vec!["echo", r"\>", "hej"]);
    assert_eq!(
        to_token_strings(r"echo >\> hej"),
        vec!["echo", ">", r"\>", "hej"]
    );
    assert_eq!(to_token_strings(r"echo hej\'"), vec![r"echo", r"hej\'"]);

    assert_parse_error(
        r"apa\",
        r"\",
        3,
        "Backslash can't be last, remove the backslash or add more characters after it",
    );
}

#[test]
fn test_token_positions() {
    let tokens = to_tokens("echo apa #grisar").unwrap();
    assert_eq!(tokens.len(), 3);
    assert_eq!(tokens[0].text, "echo");
    assert_eq!(tokens[0].start, 0);
    assert!(!tokens[0].is_comment);
    assert_eq!(tokens[1].text, "apa");
    assert_eq!(tokens[1].start, 5);
    assert!(!tokens[1].is_comment);
    assert_eq!(tokens[2].text, "#grisar");
    assert_eq!(tokens[2].start, 9);
    assert!(tokens[2].is_comment);
}

#[test]
fn test_unicode_token_positions() {
    // Offsets count characters, not bytes: each two-byte letter takes one.
    let tokens = to_tokens("ödla hår är").unwrap();
    assert_eq!(tokens.len(), 3);
    assert_eq!(tokens[0].text, "ödla");
    assert_eq!(tokens[0].start, 0);
    assert_eq!(tokens[1].text, "hår");
    assert_eq!(tokens[1].start, 5);
    assert_eq!(tokens[2].text, "är");
    assert_eq!(tokens[2].start, 9);
}

#[test]
fn test_retokenize_each_token() {
    // Segmentation is idempotent: each produced token re-tokenizes, on its
    // own, to exactly itself.
    for line in ["echo<<--", r"echo hej\ da #grisar", r"a\#b & foo>|bar"] {
        for token in to_tokens(line).unwrap() {
            let again = to_tokens(&token.text).unwrap();
            assert_eq!(again.len(), 1);
            assert_eq!(again[0].text, token.text);
            assert_eq!(again[0].start, 0);
            assert_eq!(again[0].is_comment, token.is_comment);
        }
    }
}

#[test]
fn test_tokenize_twice_identical() {
    let first = to_tokens("echo apa #grisar").unwrap();
    let second = to_tokens("echo apa #grisar").unwrap();
    assert_eq!(first, second);
}

#[test]
fn test_empty_and_blank_lines() {
    assert_eq!(to_tokens("").unwrap(), vec![]);
    assert_eq!(to_tokens("   ").unwrap(), vec![]);
}
