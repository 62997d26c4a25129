//! Tab-completion support: find the token of the line that the cursor
//! stands in (or just after), which is the base the completer would
//! complete, and the candidate generation itself, which is left trivial.

use vstd::prelude::*;

use crate::tokenizer::to_tokens;
use crate::tokenizer::spec_tokenize;
use crate::tokenizer::token_wf;
use crate::tokenizer::views_of;
use crate::tokenizer::SpecToken;

verus! {

/// The cursor position `pos` lies on the token, its one-past-the-end
/// position included: that is where a user extends the token.
pub open spec fn token_covers_cursor(t: SpecToken, pos: int) -> bool {
    t.start <= pos <= t.end()
}

/// Directory-completion candidates for `base` within `current_dir`;
/// candidate generation is left trivial and yields no candidates.
#[allow(unused_variables)]
pub fn do_complete(current_dir: &str, base: &str) -> (r: Vec<String>)
    ensures
        r@.len() == 0,
{
    Vec::new()
}

/// Finds the completion base: the text and start offset (in characters)
/// of the first token whose span the cursor position lies on, its end
/// included. Returns nothing when the line does not tokenize or when the
/// cursor stands on no token.
pub fn find_completion_base(line: &str, pos: usize) -> (r: Option<(String, usize)>)
    ensures
        match r {
            Some(base) => {
                &&& spec_tokenize(line@) is Ok
                &&& ({
                    let toks = spec_tokenize(line@)->Ok_0;
                    exists|i: int|
                        0 <= i < toks.len() && token_covers_cursor(#[trigger] toks[i], pos as int)
                            && base.0@ == toks[i].text && base.1 == toks[i].start && (forall|
                            j: int,
                        |
                            0 <= j < i ==> !token_covers_cursor(#[trigger] toks[j], pos as int))
                })
            },
            None => spec_tokenize(line@) is Err || (forall|i: int|
                0 <= i < spec_tokenize(line@)->Ok_0.len() ==> !token_covers_cursor(
                    #[trigger] spec_tokenize(line@)->Ok_0[i],
                    pos as int,
                )),
        },
{
    let tokens = match to_tokens(line) {
        Ok(tokens) => tokens,
        Err(_) => {
            return None;
        },
    };
    let ghost gtoks = views_of(tokens@);
    let n = line.unicode_len();
    let mut i: usize = 0;
    while i < tokens.len()
        invariant
            i <= tokens@.len(),
            n == line@.len(),
            gtoks == views_of(tokens@),
            spec_tokenize(line@) == Ok::<Seq<SpecToken>, int>(gtoks),
            forall|j: int| 0 <= j < gtoks.len() ==> token_wf(line@, #[trigger] gtoks[j]),
            forall|j: int| 0 <= j < i ==> !token_covers_cursor(#[trigger] gtoks[j], pos as int),
        decreases tokens@.len() - i,
    {
        let t = &tokens[i];
        proof {
            assert(token_wf(line@, gtoks[i as int]));
        }
        let len_chars = t.text.as_str().unicode_len();
        if t.start <= pos && pos <= t.start + len_chars {
            let base_text = t.text.clone();
            let base_start = t.start;
            proof {
                let toks = spec_tokenize(line@)->Ok_0;
                assert(toks == gtoks);
                assert(token_covers_cursor(toks[i as int], pos as int));
                assert(base_text@ == toks[i as int].text);
                assert(base_start == toks[i as int].start);
                assert(forall|j: int|
                    0 <= j < i as int ==> !token_covers_cursor(#[trigger] toks[j], pos as int));
                assert(exists|w: int|
                    0 <= w < toks.len() && token_covers_cursor(#[trigger] toks[w], pos as int)
                        && base_text@ == toks[w].text && base_start == toks[w].start && (forall|
                        j: int,
                    |
                        0 <= j < w ==> !token_covers_cursor(#[trigger] toks[j], pos as int)));
            }
            return Some((base_text, base_start));
        }
        i = i + 1;
    }
    None
}

} // verus!
