use vpixsh::parser::parse;
use vpixsh::parser::Executor;
use vpixsh::tokenizer::to_tokens;

struct TestExecutor {
    executions: Vec<String>,
}

impl Executor for TestExecutor {
    // The ghost invocation history exists only for verification; nothing
    // unverified can ever call this.
    fn history(&self) -> vpixsh::parser::ExecHistory {
        unreachable!()
    }

    fn execute(&mut self, command: &str, args: &[String]) {
        let mut command_with_args: Vec<String> = vec![command.to_owned()];

        for arg in args {
            command_with_args.push(arg.to_owned());
        }

        self.executions
            .push(format!("exec('{}')", command_with_args.join("', '")));
    }
}

impl TestExecutor {
    fn new() -> TestExecutor {
        return TestExecutor {
            executions: Vec::new(),
        };
    }
}

/// Returns a vector of commands to be executed given this command line
fn record_execs(commandline: &str) -> (Vec<String>, String) {
    let mut test_executor: TestExecutor = TestExecutor::new();
    let highlights = parse(commandline, &mut test_executor).unwrap();

    return (test_executor.executions, highlights);
}

#[test]
fn test_parse_base() {
    assert_eq!(
        record_execs("echo"),
        (vec!["exec('echo')".to_string()], "0000".to_string())
    );

    assert_eq!(
        record_execs("echo hej"),
        (
            vec!["exec('echo', 'hej')".to_string()],
            "0000 aaa".to_string()
        )
    );

    assert_eq!(
        record_execs("echo hej nej"),
        (
            vec!["exec('echo', 'hej', 'nej')".to_string()],
            "0000 aaa AAA".to_string()
        )
    );
}

#[test]
fn test_parse_utf8() {
    assert_eq!(
        record_execs("ödla hår är"),
        (
            vec!["exec('ödla', 'hår', 'är')".to_string()],
            "0000 aaa AA".to_string()
        )
    );
}

#[test]
fn test_parse_extra_spacing() {
    assert_eq!(
        record_execs(" echo  apa   "),
        (
            vec!["exec('echo', 'apa')".to_string()],
            " 0000  aaa   ".to_string()
        )
    );
}

#[test]
fn test_comment() {
    assert_eq!(
        record_execs("echo apa#"),
        (
            vec!["exec('echo', 'apa')".to_string()],
            "0000 aaac".to_string()
        )
    );

    assert_eq!(
        record_execs("echo apa #grisar"),
        (
            vec!["exec('echo', 'apa')".to_string()],
            "0000 aaa ccccccc".to_string()
        )
    );
}

fn token_texts(commandline: &str) -> Vec<String> {
    return to_tokens(commandline)
        .unwrap()
        .into_iter()
        .map(|token| token.text)
        .collect();
}

#[test]
fn parser_test_operator() {
    assert_eq!(
        // There is an <<- operator
        token_texts("echo<<--"),
        vec!["echo", "<<-", "-"]
    );

    assert_eq!(
        // There is an <<- operator
        token_texts("echo > foo"),
        vec!["echo", ">", "foo"]
    );
}

#[test]
fn test_parse_empty_line() {
    // An empty line gives an all-blank zero-length highlight and the
    // executor is never invoked.
    let mut test_executor: TestExecutor = TestExecutor::new();
    let highlights = parse("", &mut test_executor).unwrap();
    assert_eq!(highlights, "");
    assert_eq!(test_executor.executions, Vec::<String>::new());
}

#[test]
fn test_parse_comment_only_line() {
    // A line holding only a comment has no words, so the executor is not
    // invoked, yet the comment is highlighted.
    let mut test_executor: TestExecutor = TestExecutor::new();
    let highlights = parse("#grisar", &mut test_executor).unwrap();
    assert_eq!(highlights, "ccccccc");
    assert_eq!(test_executor.executions, Vec::<String>::new());
}

#[test]
fn test_parse_trailing_backslash() {
    // A trailing backslash fails the parse at the backslash's offset and
    // the executor is never invoked.
    let mut test_executor: TestExecutor = TestExecutor::new();
    let error = parse(r"apa\", &mut test_executor).unwrap_err();
    assert_eq!(error.token.start, 3);
    assert_eq!(error.token.text, r"\");
    assert_eq!(
        error.message,
        "Backslash can't be last, remove the backslash or add more characters after it"
    );
    assert_eq!(test_executor.executions, Vec::<String>::new());
}

#[test]
fn test_parse_operators_are_words() {
    // Operator tokens are word tokens: they take argument positions and
    // argument highlight codes.
    assert_eq!(
        record_execs("echo > foo"),
        (
            vec!["exec('echo', '>', 'foo')".to_string()],
            "0000 a AAA".to_string()
        )
    );
}

#[test]
fn test_highlight_length_and_codes() {
    // The highlight overlay has exactly one code per character of the
    // input, each from the set {'0', 'a', 'A', 'c', ' '}.
    for line in ["", "echo hej nej da #grisar", "ödla hår är", "a<<-b #x"] {
        let (_execs, highlights) = record_execs(line);
        assert_eq!(highlights.chars().count(), line.chars().count());
        for code in highlights.chars() {
            assert!(code == '0' || code == 'a' || code == 'A' || code == 'c' || code == ' ');
        }
    }
}
