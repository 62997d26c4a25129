//! The tokenizer: a single left-to-right scan over the input line's
//! character sequence that applies the operator table to produce an
//! ordered sequence of spans classified as word text or comment text,
//! honoring backslash escaping and whitespace splitting.
//!
//! The scan is specified by the mutually recursive spec functions
//! [`spec_tokenize_from`] and [`spec_scan_char`]; the executable
//! [`to_tokens`] returns exactly what they describe.

use vstd::prelude::*;

use crate::operators::is_operator;
use crate::operators::is_operator_spec;
use crate::operators::is_start_of_operator;
use crate::operators::is_start_of_operator_spec;

verus! {

/// A classified, positioned substring of one input line.
///
/// `text` holds exactly the characters of the input from character
/// offset `start` (inclusive) to `start` plus the text's length
/// (exclusive); `is_comment` tells a comment span from a word span.
/// Offsets count characters, not bytes, so multi-byte characters occupy
/// one position.
#[derive(Debug, Clone, PartialEq)]
pub struct Token {
    pub text: String,
    pub start: usize,
    pub is_comment: bool,
}

/// The mathematical model of a [`Token`]: its character sequence, its
/// character offset in the input, and its classification.
pub struct SpecToken {
    pub text: Seq<char>,
    pub start: int,
    pub is_comment: bool,
}

impl SpecToken {
    /// One past the last character position the token covers.
    pub open spec fn end(self) -> int {
        self.start + self.text.len()
    }
}

impl View for Token {
    type V = SpecToken;

    open spec fn view(&self) -> SpecToken {
        SpecToken { text: self.text@, start: self.start as int, is_comment: self.is_comment }
    }
}

/// The one tokenization failure: a backslash stood as the last character
/// of the input with nothing following it. `token` covers the input from
/// the offending backslash to the end of the line.
#[derive(Debug, Clone, PartialEq)]
pub struct TokenizerError {
    pub token: Token,
    pub message: String,
}

/// The models of a sequence of tokens, in the same order.
pub open spec fn views_of(tokens: Seq<Token>) -> Seq<SpecToken> {
    tokens.map_values(|t: Token| t@)
}

/// The word token covering input characters `lo` (inclusive) to `hi`
/// (exclusive).
pub open spec fn word_token(input: Seq<char>, lo: int, hi: int) -> SpecToken {
    SpecToken { text: input.subrange(lo, hi), start: lo, is_comment: false }
}

/// The comment token covering the input from character `lo` to the end
/// of the line.
pub open spec fn comment_token(input: Seq<char>, lo: int) -> SpecToken {
    SpecToken { text: input.subrange(lo, input.len() as int), start: lo, is_comment: true }
}

/// The word token for the in-progress span `[token_start, pos)` if that
/// span is non-empty, and no token at all otherwise.
pub open spec fn delimited(input: Seq<char>, token_start: int, pos: int) -> Seq<SpecToken> {
    if token_start < pos {
        seq![word_token(input, token_start, pos)]
    } else {
        seq![]
    }
}

/// The tokens of `input` from scan position `pos` on, given that the
/// in-progress token began at `token_start`, or the character offset of
/// a trailing backslash.
///
/// At each position the rules apply in precedence order: extend an
/// in-progress operator; close a finished operator and rescan the
/// current character; then handle the character itself
/// ([`spec_scan_char`]). At end of input an in-progress token is
/// delimited as a final word token.
pub open spec fn spec_tokenize_from(input: Seq<char>, token_start: int, pos: int) -> Result<
    Seq<SpecToken>,
    int,
>
    decreases input.len() - pos, 1int,
{
    if pos >= input.len() {
        if token_start < input.len() {
            Ok(seq![word_token(input, token_start, input.len() as int)])
        } else {
            Ok(seq![])
        }
    } else if token_start < pos && is_operator_spec(input.subrange(token_start, pos + 1)) {
        // Operator-extend: with the current character the span is still an operator.
        spec_tokenize_from(input, token_start, pos + 1)
    } else if token_start < pos && is_operator_spec(input.subrange(token_start, pos)) {
        // Operator-close: the span without the current character is exactly an
        // operator; delimit it and rescan the current character afresh.
        match spec_scan_char(input, pos, pos) {
            Ok(rest) => Ok(seq![word_token(input, token_start, pos)] + rest),
            Err(e) => Err(e),
        }
    } else {
        spec_scan_char(input, token_start, pos)
    }
}

/// The per-character transition rules, after the operator extend/close
/// checks: backslash escape, operator start, space, comment marker, and
/// the default of accumulating an ordinary character.
pub open spec fn spec_scan_char(input: Seq<char>, token_start: int, pos: int) -> Result<
    Seq<SpecToken>,
    int,
>
    decreases input.len() - pos, 0int,
{
    if pos >= input.len() {
        // Never reached from spec_tokenize_from, which handles end of input.
        Ok(seq![])
    } else if input[pos] == '\\' {
        // The next character is escaped: it cannot delimit anything, and both
        // the backslash and the escaped character stay in the token text. A
        // backslash with nothing after it is the one fatal error.
        if pos + 1 >= input.len() {
            Err(pos)
        } else {
            spec_tokenize_from(input, token_start, pos + 2)
        }
    } else if is_start_of_operator_spec(input[pos]) {
        // Delimit any in-progress token; the operator character begins a new one.
        match spec_tokenize_from(input, pos, pos + 1) {
            Ok(rest) => Ok(delimited(input, token_start, pos) + rest),
            Err(e) => Err(e),
        }
    } else if input[pos] == ' ' {
        // A space delimits and is itself part of no token.
        match spec_tokenize_from(input, pos + 1, pos + 1) {
            Ok(rest) => Ok(delimited(input, token_start, pos) + rest),
            Err(e) => Err(e),
        }
    } else if input[pos] == '#' {
        // A comment extends to the end of the line and ends the scan.
        Ok(delimited(input, token_start, pos) + seq![comment_token(input, pos)])
    } else {
        // An ordinary character: keep accumulating the in-progress token.
        spec_tokenize_from(input, token_start, pos + 1)
    }
}

/// The tokens of the whole input line, or the character offset of a
/// trailing backslash.
pub open spec fn spec_tokenize(input: Seq<char>) -> Result<Seq<SpecToken>, int> {
    spec_tokenize_from(input, 0, 0)
}

/// The already-emitted tokens `done` followed by whatever the rest of
/// the scan yields; an error in the rest is the whole scan's error.
pub open spec fn prepend_tokens(done: Seq<SpecToken>, rest: Result<Seq<SpecToken>, int>) -> Result<
    Seq<SpecToken>,
    int,
> {
    match rest {
        Ok(toks) => Ok(done + toks),
        Err(e) => Err(e),
    }
}

/// The structural invariant of one token against its input line: a
/// non-empty span lying within the input's bounds, holding exactly the
/// input's characters over that span.
pub open spec fn token_wf(input: Seq<char>, t: SpecToken) -> bool {
    &&& 0 <= t.start
    &&& t.end() <= input.len()
    &&& t.text.len() > 0
    &&& t.text == input.subrange(t.start, t.end())
}

/// The structural invariant of a tokenization pass's output: every token
/// well formed, the tokens non-overlapping and in left-to-right input
/// order, and a comment token only in last position, reaching the end of
/// the line.
pub open spec fn tokens_wf(input: Seq<char>, toks: Seq<SpecToken>) -> bool {
    &&& forall|i: int| 0 <= i < toks.len() ==> token_wf(input, #[trigger] toks[i])
    &&& forall|i: int| 0 <= i < toks.len() - 1 ==> (#[trigger] toks[i].end()) <= toks[i + 1].start
    &&& forall|i: int|
        0 <= i < toks.len() && (#[trigger] toks[i]).is_comment ==> i == toks.len() - 1 && toks[
            i
        ].end() == input.len()
}

/// Delimiting the in-progress span and prepending it to the well-formed
/// tokens of the rest of the line keeps the output well formed.
proof fn lemma_tokens_wf_delimited_plus(
    input: Seq<char>,
    token_start: int,
    pos: int,
    rest: Seq<SpecToken>,
)
    requires
        0 <= token_start <= pos <= input.len(),
        tokens_wf(input, rest),
        rest.len() > 0 ==> pos <= rest[0].start,
    ensures
        tokens_wf(input, delimited(input, token_start, pos) + rest),
        (delimited(input, token_start, pos) + rest).len() > 0 ==> token_start <= (delimited(
            input,
            token_start,
            pos,
        ) + rest)[0].start,
{
    let toks = delimited(input, token_start, pos) + rest;
    if token_start < pos {
        let t = word_token(input, token_start, pos);
        assert(t.text =~= input.subrange(t.start, t.end()));
        assert(toks[0] == t);
        assert(forall|i: int| 1 <= i < toks.len() ==> toks[i] == rest[i - 1]);
        assert(rest.len() > 0 ==> toks[1] == rest[0]);
    } else {
        assert(toks =~= rest);
    }
}

/// From any scan state, the tokenizer's output is well formed: on
/// success every token is a faithful in-bounds span, the tokens are
/// ordered and disjoint, and only a final token reaching the end of the
/// line is a comment; on failure the reported offset is the position of
/// a backslash standing as the input's last character.
pub proof fn lemma_tokenize_from_wf(input: Seq<char>, token_start: int, pos: int)
    requires
        0 <= token_start <= pos <= input.len(),
    ensures
        match spec_tokenize_from(input, token_start, pos) {
            Ok(toks) => tokens_wf(input, toks) && (toks.len() > 0 ==> token_start
                <= toks[0].start),
            Err(e) => pos <= e == input.len() - 1 && input[e] == '\\',
        },
    decreases input.len() - pos, 1int,
{
    if pos >= input.len() {
        if token_start < input.len() {
            let t = word_token(input, token_start, input.len() as int);
            assert(t.text =~= input.subrange(t.start, t.end()));
            let toks = seq![t];
            assert(toks[0] == t);
        }
    } else if token_start < pos && is_operator_spec(input.subrange(token_start, pos + 1)) {
        lemma_tokenize_from_wf(input, token_start, pos + 1);
    } else if token_start < pos && is_operator_spec(input.subrange(token_start, pos)) {
        lemma_scan_char_wf(input, pos, pos);
        match spec_scan_char(input, pos, pos) {
            Ok(rest) => {
                assert(seq![word_token(input, token_start, pos)] + rest =~= delimited(
                    input,
                    token_start,
                    pos,
                ) + rest);
                lemma_tokens_wf_delimited_plus(input, token_start, pos, rest);
            },
            Err(_) => {},
        }
    } else {
        lemma_scan_char_wf(input, token_start, pos);
    }
}

/// The per-character rules preserve well-formedness of the output; the
/// companion of [`lemma_tokenize_from_wf`] for [`spec_scan_char`].
proof fn lemma_scan_char_wf(input: Seq<char>, token_start: int, pos: int)
    requires
        0 <= token_start <= pos < input.len(),
    ensures
        match spec_scan_char(input, token_start, pos) {
            Ok(toks) => tokens_wf(input, toks) && (toks.len() > 0 ==> token_start
                <= toks[0].start),
            Err(e) => pos <= e == input.len() - 1 && input[e] == '\\',
        },
    decreases input.len() - pos, 0int,
{
    if input[pos] == '\\' {
        if pos + 1 < input.len() {
            lemma_tokenize_from_wf(input, token_start, pos + 2);
        }
    } else if is_start_of_operator_spec(input[pos]) {
        lemma_tokenize_from_wf(input, pos, pos + 1);
        match spec_tokenize_from(input, pos, pos + 1) {
            Ok(rest) => {
                lemma_tokens_wf_delimited_plus(input, token_start, pos, rest);
            },
            Err(_) => {},
        }
    } else if input[pos] == ' ' {
        lemma_tokenize_from_wf(input, pos + 1, pos + 1);
        match spec_tokenize_from(input, pos + 1, pos + 1) {
            Ok(rest) => {
                lemma_tokens_wf_delimited_plus(input, token_start, pos, rest);
            },
            Err(_) => {},
        }
    } else if input[pos] == '#' {
        let c = comment_token(input, pos);
        assert(c.text =~= input.subrange(c.start, c.end()));
        let rest = seq![c];
        assert(rest[0] == c);
        lemma_tokens_wf_delimited_plus(input, token_start, pos, rest);
    } else {
        lemma_tokenize_from_wf(input, token_start, pos + 1);
    }
}

/// Splitting the middle sequence off the already-emitted tokens moves it
/// across [`prepend_tokens`].
proof fn lemma_prepend_assoc(a: Seq<SpecToken>, b: Seq<SpecToken>, rest: Result<Seq<SpecToken>, int>)
    ensures
        prepend_tokens(
            a,
            match rest {
                Ok(r) => Ok::<Seq<SpecToken>, int>(b + r),
                Err(e) => Err(e),
            },
        ) == prepend_tokens(a + b, rest),
{
    match rest {
        Ok(r) => {
            assert(a + (b + r) =~= (a + b) + r);
        },
        Err(_) => {},
    }
}

/// Tokenizes one input line: a single left-to-right pass that resolves
/// multi-character operators by incremental extend/close, keeps
/// backslash-escaped characters (backslash included) inside their token,
/// splits on spaces, and ends the scan at a comment marker.
///
/// Returns the ordered token sequence, exactly as [`spec_tokenize`]
/// describes it, or the tokenization failure if a backslash stands as
/// the input's last character.
pub fn to_tokens(input: &str) -> (r: Result<Vec<Token>, TokenizerError>)
    ensures
        match r {
            Ok(toks) => {
                &&& spec_tokenize(input@) == Ok::<Seq<SpecToken>, int>(views_of(toks@))
                &&& tokens_wf(input@, views_of(toks@))
            },
            Err(e) => {
                &&& spec_tokenize(input@) == Err::<Seq<SpecToken>, int>(e.token@.start)
                &&& e.token@.start == input@.len() - 1
                &&& input@[e.token@.start] == '\\'
                &&& e.token@.text == input@.subrange(e.token@.start, input@.len() as int)
                &&& !e.token@.is_comment
                &&& e.message@
                    == "Backslash can't be last, remove the backslash or add more characters after it"@
            },
        },
{
    let n = input.unicode_len();
    let mut result: Vec<Token> = Vec::new();
    let mut token_start: usize = 0;
    let mut pos: usize = 0;
    while pos < n
        invariant
            n == input@.len(),
            token_start <= pos <= n,
            spec_tokenize(input@) == prepend_tokens(
                views_of(result@),
                spec_tokenize_from(input@, token_start as int, pos as int),
            ),
        decreases n - pos,
    {
        let extend = if token_start < pos {
            is_operator(input.substring_char(token_start, pos + 1))
        } else {
            false
        };
        if extend {
            // Operator-extend: keep accumulating the operator.
            pos = pos + 1;
        } else {
            if token_start < pos && is_operator(input.substring_char(token_start, pos)) {
                // Operator-close: delimit the finished operator, then rescan
                // the current character with a fresh token starting here.
                let ghost done = views_of(result@);
                let text = input.substring_char(token_start, pos).to_owned();
                let token = Token { text, start: token_start, is_comment: false };
                proof {
                    assert(token@ == word_token(input@, token_start as int, pos as int));
                }
                result.push(token);
                proof {
                    assert(views_of(result@) =~= done + seq![
                        word_token(input@, token_start as int, pos as int),
                    ]);
                    lemma_prepend_assoc(
                        done,
                        seq![word_token(input@, token_start as int, pos as int)],
                        spec_scan_char(input@, pos as int, pos as int),
                    );
                }
                token_start = pos;
            }
            proof {
                assert(spec_tokenize(input@) == prepend_tokens(
                    views_of(result@),
                    spec_scan_char(input@, token_start as int, pos as int),
                ));
            }
            let c = input.get_char(pos);
            if c == '\\' {
                if pos + 1 == n {
                    // A backslash as the last character is the one fatal error.
                    let text = input.substring_char(pos, n).to_owned();
                    let token = Token { text, start: pos, is_comment: false };
                    let message =
                        "Backslash can't be last, remove the backslash or add more characters after it".to_owned();
                    return Err(TokenizerError { token, message });
                }
                // Skip the escaped character: it stays in the token and
                // cannot delimit anything.
                pos = pos + 2;
            } else if is_start_of_operator(c) {
                // Delimit any in-progress token; the operator character
                // begins a new one.
                let ghost done = views_of(result@);
                if token_start < pos {
                    let text = input.substring_char(token_start, pos).to_owned();
                    result.push(Token { text, start: token_start, is_comment: false });
                }
                proof {
                    assert(views_of(result@) =~= done + delimited(
                        input@,
                        token_start as int,
                        pos as int,
                    ));
                    lemma_prepend_assoc(
                        done,
                        delimited(input@, token_start as int, pos as int),
                        spec_tokenize_from(input@, pos as int, pos as int + 1),
                    );
                }
                token_start = pos;
                pos = pos + 1;
            } else if c == ' ' {
                // A space delimits; the next token starts after it.
                let ghost done = views_of(result@);
                if token_start < pos {
                    let text = input.substring_char(token_start, pos).to_owned();
                    result.push(Token { text, start: token_start, is_comment: false });
                }
                proof {
                    assert(views_of(result@) =~= done + delimited(
                        input@,
                        token_start as int,
                        pos as int,
                    ));
                    lemma_prepend_assoc(
                        done,
                        delimited(input@, token_start as int, pos as int),
                        spec_tokenize_from(input@, pos as int + 1, pos as int + 1),
                    );
                }
                token_start = pos + 1;
                pos = pos + 1;
            } else if c == '#' {
                // The comment token runs to the end of the line and the scan
                // ends immediately.
                let ghost done = views_of(result@);
                if token_start < pos {
                    let text = input.substring_char(token_start, pos).to_owned();
                    result.push(Token { text, start: token_start, is_comment: false });
                }
                let text = input.substring_char(pos, n).to_owned();
                let token = Token { text, start: pos, is_comment: true };
                proof {
                    assert(token@ == comment_token(input@, pos as int));
                }
                result.push(token);
                proof {
                    assert(views_of(result@) =~= done + (delimited(
                        input@,
                        token_start as int,
                        pos as int,
                    ) + seq![comment_token(input@, pos as int)]));
                    lemma_tokenize_from_wf(input@, 0, 0);
                }
                return Ok(result);
            } else {
                // An ordinary character: keep accumulating.
                pos = pos + 1;
            }
        }
    }
    // End of input: delimit any in-progress token as a final word token.
    let ghost done = views_of(result@);
    if token_start < n {
        let text = input.substring_char(token_start, n).to_owned();
        result.push(Token { text, start: token_start, is_comment: false });
    }
    proof {
        if token_start < n {
            assert(views_of(result@) =~= done + seq![
                word_token(input@, token_start as int, n as int),
            ]);
        } else {
            assert(views_of(result@) =~= done + Seq::<SpecToken>::empty());
        }
        lemma_tokenize_from_wf(input@, 0, 0);
    }
    Ok(result)
}

/// From position `i` on, `t` reads as word text: each character is
/// either a backslash escaping the character after it (which must
/// exist), or an ordinary character — one that starts no operator and is
/// neither a space nor a comment marker.
pub open spec fn plain_from(t: Seq<char>, i: int) -> bool
    decreases t.len() - i,
{
    if i >= t.len() {
        true
    } else if t[i] == '\\' {
        i + 1 < t.len() && plain_from(t, i + 2)
    } else {
        !is_start_of_operator_spec(t[i]) && t[i] != ' ' && t[i] != '#' && plain_from(t, i + 1)
    }
}

/// The shape of a word token's text that is not an operator: non-empty,
/// escapes complete, and no unescaped delimiter anywhere.
pub open spec fn word_shaped(t: Seq<char>) -> bool {
    t.len() > 0 && plain_from(t, 0)
}

/// The shapes the tokenizer can emit: a comment token's text begins with
/// the comment marker; a word token's text is an operator or reads as
/// word text throughout.
pub open spec fn token_shape_ok(t: SpecToken) -> bool {
    if t.is_comment {
        t.text.len() > 0 && t.text[0] == '#'
    } else {
        is_operator_spec(t.text) || word_shaped(t.text)
    }
}

/// Appending a complete escape pair keeps text word-shaped.
proof fn lemma_plain_extend_escape(u: Seq<char>, c: char, i: int)
    requires
        0 <= i <= u.len(),
        plain_from(u, i),
    ensures
        plain_from(u + seq!['\\', c], i),
    decreases u.len() - i,
{
    let v = u + seq!['\\', c];
    if i >= u.len() {
        assert(v[i] == '\\');
        assert(plain_from(v, i + 2));
    } else if u[i] == '\\' {
        lemma_plain_extend_escape(u, c, i + 2);
        assert(v[i] == '\\');
    } else {
        lemma_plain_extend_escape(u, c, i + 1);
        assert(v[i] == u[i]);
    }
}

/// Appending one ordinary character keeps text word-shaped.
proof fn lemma_plain_extend_ordinary(u: Seq<char>, c: char, i: int)
    requires
        0 <= i <= u.len(),
        plain_from(u, i),
        c != '\\',
        !is_start_of_operator_spec(c),
        c != ' ',
        c != '#',
    ensures
        plain_from(u + seq![c], i),
    decreases u.len() - i,
{
    let v = u + seq![c];
    if i >= u.len() {
        assert(v[i] == c);
        assert(plain_from(v, i + 1));
    } else if u[i] == '\\' {
        lemma_plain_extend_ordinary(u, c, i + 2);
        assert(v[i] == '\\');
    } else {
        lemma_plain_extend_ordinary(u, c, i + 1);
        assert(v[i] == u[i]);
    }
}

/// Prepending the delimited in-progress span, when its shape is good,
/// keeps every emitted token's shape good.
proof fn lemma_shapes_delimited_plus(
    input: Seq<char>,
    token_start: int,
    pos: int,
    rest: Seq<SpecToken>,
)
    requires
        0 <= token_start <= pos <= input.len(),
        token_start < pos ==> token_shape_ok(word_token(input, token_start, pos)),
        forall|i: int| 0 <= i < rest.len() ==> token_shape_ok(#[trigger] rest[i]),
    ensures
        forall|i: int|
            0 <= i < (delimited(input, token_start, pos) + rest).len() ==> token_shape_ok(
                #[trigger] (delimited(input, token_start, pos) + rest)[i],
            ),
{
    let toks = delimited(input, token_start, pos) + rest;
    let d = delimited(input, token_start, pos);
    assert forall|i: int| 0 <= i < toks.len() implies token_shape_ok(#[trigger] toks[i]) by {
        if i < d.len() {
            assert(toks[i] == word_token(input, token_start, pos));
        } else {
            assert(toks[i] == rest[i - d.len()]);
        }
    }
}

/// Classification of the tokenizer's output: every token it emits is an
/// operator, word-shaped text, or a comment beginning with the comment
/// marker — provided the in-progress span already has one of the first
/// two shapes (or is empty), as it always does during a scan from the
/// start of a line.
pub proof fn lemma_tokenize_from_shapes(input: Seq<char>, token_start: int, pos: int)
    requires
        0 <= token_start <= pos <= input.len(),
        token_start < pos ==> is_operator_spec(input.subrange(token_start, pos)) || word_shaped(
            input.subrange(token_start, pos),
        ),
    ensures
        (spec_tokenize_from(input, token_start, pos) matches Ok(toks) ==> forall|i: int|
            0 <= i < toks.len() ==> token_shape_ok(#[trigger] toks[i])),
    decreases input.len() - pos, 1int,
{
    let u = input.subrange(token_start, pos);
    if pos >= input.len() {
        if token_start < input.len() {
            let t = word_token(input, token_start, input.len() as int);
            assert(t.text == u);
            let toks = seq![t];
            assert(forall|i: int| 0 <= i < toks.len() ==> toks[i] == t);
        }
    } else if token_start < pos && is_operator_spec(input.subrange(token_start, pos + 1)) {
        lemma_tokenize_from_shapes(input, token_start, pos + 1);
    } else if token_start < pos && is_operator_spec(u) {
        lemma_scan_char_shapes(input, pos, pos);
        match spec_scan_char(input, pos, pos) {
            Ok(rest) => {
                assert(seq![word_token(input, token_start, pos)] + rest =~= delimited(
                    input,
                    token_start,
                    pos,
                ) + rest);
                assert(token_shape_ok(word_token(input, token_start, pos)));
                lemma_shapes_delimited_plus(input, token_start, pos, rest);
            },
            Err(_) => {},
        }
    } else {
        lemma_scan_char_shapes(input, token_start, pos);
    }
}

/// The per-character half of [`lemma_tokenize_from_shapes`].
proof fn lemma_scan_char_shapes(input: Seq<char>, token_start: int, pos: int)
    requires
        0 <= token_start <= pos < input.len(),
        token_start < pos ==> word_shaped(input.subrange(token_start, pos)),
    ensures
        (spec_scan_char(input, token_start, pos) matches Ok(toks) ==> forall|i: int|
            0 <= i < toks.len() ==> token_shape_ok(#[trigger] toks[i])),
    decreases input.len() - pos, 0int,
{
    let u = input.subrange(token_start, pos);
    let c = input[pos];
    if c == '\\' {
        if pos + 1 < input.len() {
            assert(plain_from(u, 0));
            lemma_plain_extend_escape(u, input[pos + 1], 0);
            assert(input.subrange(token_start, pos + 2) =~= u + seq!['\\', input[pos + 1]]);
            lemma_tokenize_from_shapes(input, token_start, pos + 2);
        }
    } else if is_start_of_operator_spec(c) {
        crate::operators::lemma_start_char_is_operator(c);
        assert(input.subrange(pos, pos + 1) =~= seq![c]);
        lemma_tokenize_from_shapes(input, pos, pos + 1);
        match spec_tokenize_from(input, pos, pos + 1) {
            Ok(rest) => {
                lemma_shapes_delimited_plus(input, token_start, pos, rest);
            },
            Err(_) => {},
        }
    } else if c == ' ' {
        lemma_tokenize_from_shapes(input, pos + 1, pos + 1);
        match spec_tokenize_from(input, pos + 1, pos + 1) {
            Ok(rest) => {
                lemma_shapes_delimited_plus(input, token_start, pos, rest);
            },
            Err(_) => {},
        }
    } else if c == '#' {
        let ct = comment_token(input, pos);
        assert(ct.text[0] == '#');
        let rest = seq![ct];
        assert(forall|i: int| 0 <= i < rest.len() ==> rest[i] == ct);
        lemma_shapes_delimited_plus(input, token_start, pos, rest);
    } else {
        assert(plain_from(u, 0));
        lemma_plain_extend_ordinary(u, c, 0);
        assert(input.subrange(token_start, pos + 1) =~= u + seq![c]);
        lemma_tokenize_from_shapes(input, token_start, pos + 1);
    }
}

/// An operator under re-scan: from any position inside it, the
/// operator-extend rule carries the scan to the end, where the whole
/// operator is emitted as the only token.
proof fn lemma_retokenize_operator_step(op: Seq<char>, pos: int)
    requires
        is_operator_spec(op),
        1 <= pos <= op.len(),
    ensures
        spec_tokenize_from(op, 0, pos) == Ok::<Seq<SpecToken>, int>(
            seq![word_token(op, 0, op.len() as int)],
        ),
    decreases op.len() - pos,
{
    if pos < op.len() {
        if pos + 1 == op.len() {
            assert(op.subrange(0, pos + 1) =~= op);
        } else {
            crate::operators::lemma_operator_prefix(op, pos + 1);
        }
        lemma_retokenize_operator_step(op, pos + 1);
    }
}

/// Tokenizing an operator string yields that operator alone.
pub proof fn lemma_retokenize_operator(op: Seq<char>)
    requires
        is_operator_spec(op),
    ensures
        spec_tokenize(op) == Ok::<Seq<SpecToken>, int>(
            seq![SpecToken { text: op, start: 0, is_comment: false }],
        ),
{
    crate::operators::lemma_operator_first_char(op);
    assert(op[0] != '\\');
    lemma_retokenize_operator_step(op, 1);
    assert(op.subrange(0, op.len() as int) =~= op);
    assert(spec_scan_char(op, 0, 0) == Ok::<Seq<SpecToken>, int>(
        delimited(op, 0, 0) + seq![word_token(op, 0, op.len() as int)],
    ));
    assert(spec_tokenize_from(op, 0, 0) == spec_scan_char(op, 0, 0));
    assert(delimited(op, 0, 0) + seq![word_token(op, 0, op.len() as int)] =~= seq![
        SpecToken { text: op, start: 0, is_comment: false },
    ]);
}

/// Tokenizing a comment token's text (it begins with the comment marker)
/// yields that comment alone.
pub proof fn lemma_retokenize_comment(t: Seq<char>)
    requires
        t.len() > 0,
        t[0] == '#',
    ensures
        spec_tokenize(t) == Ok::<Seq<SpecToken>, int>(
            seq![SpecToken { text: t, start: 0, is_comment: true }],
        ),
{
    assert(t.subrange(0, t.len() as int) =~= t);
    assert(spec_scan_char(t, 0, 0) == Ok::<Seq<SpecToken>, int>(
        delimited(t, 0, 0) + seq![comment_token(t, 0)],
    ));
    assert(spec_tokenize_from(t, 0, 0) == spec_scan_char(t, 0, 0));
    assert(delimited(t, 0, 0) + seq![comment_token(t, 0)] =~= seq![
        SpecToken { text: t, start: 0, is_comment: true },
    ]);
}

/// Word-shaped text under re-scan: no prefix is an operator and no
/// unescaped delimiter occurs, so the scan runs to the end of the text
/// and emits it as the only token.
proof fn lemma_retokenize_word_step(t: Seq<char>, pos: int)
    requires
        word_shaped(t),
        0 <= pos <= t.len(),
        plain_from(t, pos),
    ensures
        spec_tokenize_from(t, 0, pos) == Ok::<Seq<SpecToken>, int>(
            seq![word_token(t, 0, t.len() as int)],
        ),
    decreases t.len() - pos,
{
    assert(!is_start_of_operator_spec(t[0]));
    if pos < t.len() {
        if pos > 0 {
            // Neither operator rule can fire: any non-empty prefix of t
            // begins with t's first character, which starts no operator.
            if is_operator_spec(t.subrange(0, pos + 1)) {
                crate::operators::lemma_operator_first_char(t.subrange(0, pos + 1));
                assert(false);
            }
            if is_operator_spec(t.subrange(0, pos)) {
                crate::operators::lemma_operator_first_char(t.subrange(0, pos));
                assert(false);
            }
        }
        if t[pos] == '\\' {
            assert(pos + 1 < t.len());
            lemma_retokenize_word_step(t, pos + 2);
            assert(spec_scan_char(t, 0, pos) == spec_tokenize_from(t, 0, pos + 2));
        } else {
            assert(!is_start_of_operator_spec(t[pos]) && t[pos] != ' ' && t[pos] != '#');
            lemma_retokenize_word_step(t, pos + 1);
            assert(spec_scan_char(t, 0, pos) == spec_tokenize_from(t, 0, pos + 1));
        }
        assert(spec_tokenize_from(t, 0, pos) == spec_scan_char(t, 0, pos));
    }
}

/// Idempotence of segmentation: each token that one tokenization pass
/// produces re-tokenizes, on its own, to exactly itself — at offset zero
/// and with its classification kept. Segmenting already-segmented text
/// changes nothing, and tokenization itself is a function of the input
/// alone, so tokenizing a line twice yields identical token lists.
pub proof fn lemma_tokenize_idempotent(input: Seq<char>, i: int)
    requires
        spec_tokenize(input) is Ok,
        0 <= i < spec_tokenize(input)->Ok_0.len(),
    ensures
        spec_tokenize(spec_tokenize(input)->Ok_0[i].text) == Ok::<Seq<SpecToken>, int>(
            seq![
                SpecToken {
                    text: spec_tokenize(input)->Ok_0[i].text,
                    start: 0,
                    is_comment: spec_tokenize(input)->Ok_0[i].is_comment,
                },
            ],
        ),
{
    lemma_tokenize_from_shapes(input, 0, 0);
    let t = spec_tokenize(input)->Ok_0[i];
    assert(token_shape_ok(t));
    if t.is_comment {
        lemma_retokenize_comment(t.text);
    } else if is_operator_spec(t.text) {
        lemma_retokenize_operator(t.text);
    } else {
        lemma_retokenize_word_step(t.text, 0);
        assert(t.text.subrange(0, t.text.len() as int) =~= t.text);
        assert(seq![word_token(t.text, 0, t.text.len() as int)] =~= seq![
            SpecToken { text: t.text, start: 0, is_comment: false },
        ]);
    }
}

} // verus!
