//! The parser: runs the tokenizer over one line, separates comment
//! tokens from word tokens, hands the first word as the command and the
//! remaining words as arguments to the caller's executor, and builds the
//! highlight overlay — one code character per character of the input.

use vstd::prelude::*;

use crate::tokenizer::to_tokens;
use crate::tokenizer::token_wf;
use crate::tokenizer::tokens_wf;
use crate::tokenizer::spec_tokenize;
use crate::tokenizer::views_of;
use crate::tokenizer::SpecToken;
use crate::tokenizer::TokenizerError;

verus! {

/// An executor's ghost invocation record, oldest first: for each
/// invocation, the command's characters and the arguments' characters.
pub type ExecHistory = Seq<(Seq<char>, Seq<Seq<char>>)>;

/// The capability that runs a parsed command: one synchronous operation,
/// invoked at most once per parse, never with an empty command.
///
/// `command` is the binary to execute; `args` are all the command-line
/// arguments, not including the command itself, and empty when the
/// command takes none. The ghost `history` records every invocation —
/// command first, then the arguments — so that a caller's contract can
/// say when and with what the executor was invoked.
pub trait Executor {
    /// All invocations this executor has received, oldest first: for
    /// each, the command's characters and the arguments' characters.
    spec fn history(&self) -> ExecHistory;

    /// Runs `command` with `args`; its side effects are the
    /// implementor's concern and nothing is returned to the caller.
    fn execute(&mut self, command: &str, args: &[String])
        requires
            command@.len() > 0,
        ensures
            final(self).history() == old(self).history().push((command@, args.deep_view())),
    ;
}

/// The texts of the word (non-comment) tokens, in token order.
pub open spec fn spec_words(toks: Seq<SpecToken>) -> Seq<Seq<char>>
    decreases toks.len(),
{
    if toks.len() == 0 {
        Seq::empty()
    } else if toks.last().is_comment {
        spec_words(toks.drop_last())
    } else {
        spec_words(toks.drop_last()).push(toks.last().text)
    }
}

/// The highlight code of the word with this zero-based index among word
/// tokens only: the command, then alternating argument codes.
pub open spec fn word_code(word_index: int) -> char {
    if word_index == 0 {
        '0'
    } else if word_index % 2 == 1 {
        'a'
    } else {
        'A'
    }
}

/// The highlight code of token `i`: `c` for a comment, else the code of
/// its zero-based index among word tokens only (comments do not consume
/// an index).
pub open spec fn token_code(toks: Seq<SpecToken>, i: int) -> char {
    if toks[i].is_comment {
        'c'
    } else {
        word_code(spec_words(toks.subrange(0, i)).len() as int)
    }
}

/// The five codes a highlight overlay is made of: command, the two
/// alternating argument codes, comment, and blank.
pub open spec fn is_highlight_code(c: char) -> bool {
    c == '0' || c == 'a' || c == 'A' || c == 'c' || c == ' '
}

/// `base` with positions `start` (inclusive) to `end` (exclusive)
/// overwritten by `code`.
pub open spec fn paint(base: Seq<char>, start: int, end: int, code: char) -> Seq<char> {
    Seq::new(base.len(), |p: int| if start <= p < end { code } else { base[p] })
}

/// An all-blank overlay of the input's character count.
pub open spec fn blank_highlight(len: nat) -> Seq<char> {
    Seq::new(len, |p: int| ' ')
}

/// The overlay after painting the first `k` tokens over an all-blank
/// base, each over its own character range with its own code.
pub open spec fn spec_highlight_upto(len: nat, toks: Seq<SpecToken>, k: int) -> Seq<char>
    decreases k,
{
    if k <= 0 {
        blank_highlight(len)
    } else {
        paint(
            spec_highlight_upto(len, toks, k - 1),
            toks[k - 1].start,
            toks[k - 1].end(),
            token_code(toks, k - 1),
        )
    }
}

/// The highlight overlay of a line of `len` characters with these
/// tokens: blank everywhere no token lies, each token's range painted
/// with its code.
pub open spec fn spec_highlight(len: nat, toks: Seq<SpecToken>) -> Seq<char> {
    spec_highlight_upto(len, toks, toks.len() as int)
}

/// The overlay always has exactly one code per input character.
pub proof fn lemma_highlight_len(len: nat, toks: Seq<SpecToken>, k: int)
    ensures
        spec_highlight_upto(len, toks, k).len() == len,
    decreases k,
{
    if k > 0 {
        lemma_highlight_len(len, toks, k - 1);
    }
}

/// Every position of the overlay holds one of the five highlight codes.
pub proof fn lemma_highlight_codes(len: nat, toks: Seq<SpecToken>, k: int)
    ensures
        forall|p: int|
            0 <= p < spec_highlight_upto(len, toks, k).len() ==> is_highlight_code(
                #[trigger] spec_highlight_upto(len, toks, k)[p],
            ),
    decreases k,
{
    if k > 0 {
        lemma_highlight_codes(len, toks, k - 1);
        lemma_highlight_len(len, toks, k - 1);
    }
}

/// When every token's text is non-empty, so is every word.
pub proof fn lemma_words_nonempty(toks: Seq<SpecToken>)
    requires
        forall|i: int| 0 <= i < toks.len() ==> (#[trigger] toks[i]).text.len() > 0,
    ensures
        forall|j: int| 0 <= j < spec_words(toks).len() ==> (#[trigger] spec_words(toks)[j]).len()
            > 0,
    decreases toks.len(),
{
    if toks.len() > 0 {
        assert(forall|i: int|
            0 <= i < toks.drop_last().len() ==> (#[trigger] toks.drop_last()[i]).text.len() > 0);
        lemma_words_nonempty(toks.drop_last());
        let inner = spec_words(toks.drop_last());
        assert forall|j: int| 0 <= j < spec_words(toks).len() implies (#[trigger] spec_words(
            toks,
        )[j]).len() > 0 by {
            if toks.last().is_comment {
                assert(spec_words(toks)[j] == inner[j]);
            } else if j < inner.len() {
                assert(spec_words(toks)[j] == inner[j]);
            } else {
                assert(spec_words(toks)[j] == toks[toks.len() - 1].text);
            }
        }
    }
}

/// Position `p` lies in token `t`'s character range.
pub open spec fn covers(t: SpecToken, p: int) -> bool {
    t.start <= p < t.end()
}

/// In an ordered sequence of disjoint tokens, every earlier token ends
/// no later than any later one starts.
proof fn lemma_ordered_pair(toks: Seq<SpecToken>, i: int, j: int)
    requires
        forall|m: int| 0 <= m < toks.len() - 1 ==> (#[trigger] toks[m].end()) <= toks[m + 1].start,
        0 <= i < j < toks.len(),
    ensures
        toks[i].end() <= toks[j].start,
    decreases j - i,
{
    if i + 1 < j {
        lemma_ordered_pair(toks, i, j - 1);
        assert(toks[j - 1].end() <= toks[j].start);
        assert(toks[j - 1].start <= toks[j - 1].end());
    }
}

/// The positions painted by the first `k` tokens: a position in a
/// painted token's range carries that token's code, any other position
/// is still blank.
proof fn lemma_highlight_coverage_upto(len: nat, toks: Seq<SpecToken>, k: int)
    requires
        0 <= k <= toks.len(),
        forall|m: int| 0 <= m < toks.len() - 1 ==> (#[trigger] toks[m].end()) <= toks[m + 1].start,
    ensures
        forall|i: int, p: int|
            0 <= i < k && #[trigger] covers(toks[i], p) && 0 <= p < len ==> spec_highlight_upto(
                len,
                toks,
                k,
            )[p] == token_code(toks, i),
        forall|p: int|
            0 <= p < len && (forall|i: int| 0 <= i < k ==> !#[trigger] covers(toks[i], p))
                ==> spec_highlight_upto(len, toks, k)[p] == ' ',
    decreases k,
{
    if k > 0 {
        lemma_highlight_coverage_upto(len, toks, k - 1);
        lemma_highlight_len(len, toks, k - 1);
        let prev = spec_highlight_upto(len, toks, k - 1);
        let cur = spec_highlight_upto(len, toks, k);
        assert forall|i: int, p: int|
            0 <= i < k && #[trigger] covers(toks[i], p) && 0 <= p < len implies cur[p]
            == token_code(toks, i) by {
            if i == k - 1 {
                assert(cur[p] == token_code(toks, k - 1));
            } else {
                lemma_ordered_pair(toks, i, k - 1);
                assert(cur[p] == prev[p]);
            }
        }
        assert forall|p: int|
            0 <= p < len && (forall|i: int| 0 <= i < k ==> !#[trigger] covers(toks[i], p)) implies cur[p]
            == ' ' by {
            assert(!covers(toks[k - 1], p));
            assert(cur[p] == prev[p]);
        }
    }
}

/// Coverage: in the highlight overlay of a well-formed token sequence,
/// every character position of the input is assigned exactly one code —
/// the code of the unique token whose range it lies in, or blank when it
/// lies in no token's range — and that code is one of the five highlight
/// codes.
pub proof fn lemma_highlight_coverage(input: Seq<char>, toks: Seq<SpecToken>)
    requires
        tokens_wf(input, toks),
    ensures
        spec_highlight(input.len(), toks).len() == input.len(),
        forall|i: int, p: int|
            0 <= i < toks.len() && #[trigger] covers(toks[i], p) ==> 0 <= p < input.len()
                && spec_highlight(input.len(), toks)[p] == token_code(toks, i),
        forall|p: int|
            0 <= p < input.len() && (forall|i: int| 0 <= i < toks.len() ==> !#[trigger] covers(toks[i], p))
                ==> spec_highlight(input.len(), toks)[p] == ' ',
        forall|p: int|
            0 <= p < input.len() ==> is_highlight_code(
                #[trigger] spec_highlight(input.len(), toks)[p],
            ),
{
    lemma_highlight_len(input.len(), toks, toks.len() as int);
    lemma_highlight_codes(input.len(), toks, toks.len() as int);
    lemma_highlight_coverage_upto(input.len(), toks, toks.len() as int);
    assert forall|i: int, p: int|
        0 <= i < toks.len() && #[trigger] covers(toks[i], p) implies 0 <= p < input.len()
        && spec_highlight(input.len(), toks)[p] == token_code(toks, i) by {
        assert(token_wf(input, toks[i]));
    }
}

/// Parses one command line: tokenizes it, invokes the executor exactly
/// once with the first word as the command and the remaining words as
/// its arguments (and not at all when the line holds no word token), and
/// returns the highlight overlay — one code per character of the input.
/// A tokenization failure is propagated unchanged, and then the executor
/// is not invoked.
pub fn parse<E: Executor>(commandline: &str, executor: &mut E) -> (r: Result<
    String,
    TokenizerError,
>)
    ensures
        match r {
            Ok(highlight) => {
                &&& spec_tokenize(commandline@) is Ok
                &&& ({
                    let toks = spec_tokenize(commandline@)->Ok_0;
                    let ws = spec_words(toks);
                    &&& highlight@ == spec_highlight(commandline@.len(), toks)
                    &&& highlight@.len() == commandline@.len()
                    &&& forall|p: int|
                        0 <= p < highlight@.len() ==> is_highlight_code(#[trigger] highlight@[p])
                    &&& (ws.len() > 0 ==> final(executor).history() == old(
                        executor,
                    ).history().push((ws[0], ws.drop_first())))
                    &&& (ws.len() == 0 ==> final(executor).history() == old(executor).history())
                })
            },
            Err(e) => {
                &&& spec_tokenize(commandline@) == Err::<Seq<SpecToken>, int>(e.token@.start)
                &&& e.token@.start == commandline@.len() - 1
                &&& commandline@[e.token@.start] == '\\'
                &&& e.token@.text == commandline@.subrange(
                    e.token@.start,
                    commandline@.len() as int,
                )
                &&& !e.token@.is_comment
                &&& e.message@
                    == "Backslash can't be last, remove the backslash or add more characters after it"@
                &&& final(executor).history() == old(executor).history()
            },
        },
{
    let tokens = match to_tokens(commandline) {
        Ok(tokens) => tokens,
        Err(e) => {
            return Err(e);
        },
    };
    let ghost gtoks = views_of(tokens@);
    let n = commandline.unicode_len();

    // Collect the word tokens' texts, in order.
    let mut words: Vec<String> = Vec::new();
    let mut i: usize = 0;
    while i < tokens.len()
        invariant
            i <= tokens@.len(),
            gtoks == views_of(tokens@),
            words.deep_view() == spec_words(gtoks.subrange(0, i as int)),
        decreases tokens@.len() - i,
    {
        let ghost prev = words.deep_view();
        if !tokens[i].is_comment {
            let text = tokens[i].text.clone();
            words.push(text);
        }
        proof {
            assert(gtoks.subrange(0, i as int + 1).drop_last() =~= gtoks.subrange(0, i as int));
            assert(gtoks.subrange(0, i as int + 1).last() == gtoks[i as int]);
            if !tokens@[i as int].is_comment {
                assert(words.deep_view() =~= prev.push(tokens@[i as int].text@));
            }
            assert(words.deep_view() == spec_words(gtoks.subrange(0, i as int + 1)));
        }
        i = i + 1;
    }
    proof {
        assert(gtoks.subrange(0, tokens@.len() as int) =~= gtoks);
    }

    // Invoke the executor exactly once when the line holds any word.
    if words.len() > 0 {
        proof {
            assert(forall|j: int| 0 <= j < gtoks.len() ==> (#[trigger] gtoks[j]).text.len() > 0);
            lemma_words_nonempty(gtoks);
        }
        let slice = words.as_slice();
        let (head, rest) = slice.split_at(1);
        let command = &head[0];
        proof {
            assert(command@ == words@[0]@);
            assert(words.deep_view()[0] == words@[0]@);
            assert(rest.deep_view() =~= spec_words(gtoks).drop_first());
        }
        executor.execute(command.as_str(), rest);
    }

    // Build the overlay: all blanks, then each token's range painted
    // with its code.
    let mut highlight: Vec<char> = Vec::new();
    let mut p: usize = 0;
    while p < n
        invariant
            p <= n,
            highlight@.len() == p as int,
            forall|q: int| 0 <= q < p ==> highlight@[q] == ' ',
        decreases n - p,
    {
        highlight.push(' ');
        p = p + 1;
    }
    proof {
        assert(highlight@ =~= blank_highlight(n as nat));
    }

    let mut word_index: usize = 0;
    let mut k: usize = 0;
    while k < tokens.len()
        invariant
            k <= tokens@.len(),
            word_index <= k,
            gtoks == views_of(tokens@),
            tokens_wf(commandline@, gtoks),
            n == commandline@.len(),
            highlight@ == spec_highlight_upto(n as nat, gtoks, k as int),
            word_index as int == spec_words(gtoks.subrange(0, k as int)).len(),
        decreases tokens@.len() - k,
    {
        proof {
            lemma_highlight_len(n as nat, gtoks, k as int);
        }
        let t = &tokens[k];
        let mut code: char = 'c';
        if !t.is_comment {
            if word_index == 0 {
                code = '0';
            } else if word_index % 2 == 1 {
                code = 'a';
            } else {
                code = 'A';
            }
            word_index = word_index + 1;
        }
        proof {
            assert(code == token_code(gtoks, k as int));
            assert(gtoks.subrange(0, k as int + 1).drop_last() =~= gtoks.subrange(0, k as int));
            assert(gtoks.subrange(0, k as int + 1).last() == gtoks[k as int]);
            assert(word_index as int == spec_words(gtoks.subrange(0, k as int + 1)).len());
            assert(token_wf(commandline@, gtoks[k as int]));
        }
        let start = t.start;
        let len_chars = t.text.as_str().unicode_len();
        let end = start + len_chars;
        let mut q = start;
        while q < end
            invariant
                (k as int) < gtoks.len(),
                start <= q <= end,
                end <= n,
                end == gtoks[k as int].end(),
                start == gtoks[k as int].start,
                highlight@.len() == n,
                forall|u: int|
                    0 <= u < n ==> highlight@[u] == (if start <= u < q {
                        code
                    } else {
                        spec_highlight_upto(n as nat, gtoks, k as int)[u]
                    }),
            decreases end - q,
        {
            highlight[q] = code;
            q = q + 1;
        }
        proof {
            assert(highlight@ =~= paint(
                spec_highlight_upto(n as nat, gtoks, k as int),
                gtoks[k as int].start,
                gtoks[k as int].end(),
                token_code(gtoks, k as int),
            ));
            assert(highlight@ == spec_highlight_upto(n as nat, gtoks, k as int + 1));
        }
        k = k + 1;
    }
    proof {
        assert(highlight@ == spec_highlight(n as nat, gtoks));
        lemma_highlight_len(n as nat, gtoks, gtoks.len() as int);
        lemma_highlight_codes(n as nat, gtoks, gtoks.len() as int);
    }

    // Copy the overlay out as a string, code by code.
    let mut out = String::new();
    let mut m: usize = 0;
    while m < n
        invariant
            m <= n,
            highlight@.len() == n,
            forall|u: int| 0 <= u < n ==> is_highlight_code(#[trigger] highlight@[u]),
            out@ == highlight@.subrange(0, m as int),
        decreases n - m,
    {
        let c = highlight[m];
        if c == '0' {
            out.append("0");
        } else if c == 'a' {
            out.append("a");
        } else if c == 'A' {
            out.append("A");
        } else if c == 'c' {
            out.append("c");
        } else {
            out.append(" ");
        }
        proof {
            reveal_strlit("0");
            reveal_strlit("a");
            reveal_strlit("A");
            reveal_strlit("c");
            reveal_strlit(" ");
            assert(out@ =~= highlight@.subrange(0, m as int + 1));
        }
        m = m + 1;
    }
    proof {
        assert(out@ =~= highlight@);
        lemma_highlight_len(n as nat, gtoks, gtoks.len() as int);
    }
    Ok(out)
}

} // verus!
