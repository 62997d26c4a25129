//! The fixed table of shell operator strings: control operators and
//! redirection operators, together with the two predicates the tokenizer
//! needs — "does this character start some operator?" and "is this string
//! exactly an operator?".
//!
//! The longest entries are three characters, and every non-empty strict
//! prefix of an entry is itself an entry; the tokenizer's longest-match
//! scan relies on that.

use vstd::prelude::*;

verus! {

/// True iff `s` is exactly one of the table's eighteen operator strings.
pub open spec fn is_operator_spec(s: Seq<char>) -> bool {
    // Control operators
    ||| s == seq!['&']
    ||| s == seq!['&', '&']
    ||| s == seq!['(']
    ||| s == seq![')']
    ||| s == seq![';']
    ||| s == seq![';', ';']
    ||| s == seq!['\n']
    ||| s == seq!['|']
    ||| s == seq!['|', '|']
    // Redirection operators
    ||| s == seq!['<']
    ||| s == seq!['>']
    ||| s == seq!['>', '|']
    ||| s == seq!['<', '<']
    ||| s == seq!['>', '>']
    ||| s == seq!['<', '&']
    ||| s == seq!['>', '&']
    ||| s == seq!['<', '<', '-']
    ||| s == seq!['<', '>']
}

/// True iff some operator string in the table begins with the single
/// character `c`.
pub open spec fn is_start_of_operator_spec(c: char) -> bool {
    ||| c == '&'
    ||| c == '('
    ||| c == ')'
    ||| c == ';'
    ||| c == '\n'
    ||| c == '|'
    ||| c == '<'
    ||| c == '>'
}

/// True iff some operator string in the fixed table begins with that
/// single character; used for early-exit matching of the first character
/// of a potential operator.
pub fn is_start_of_operator(character: char) -> (b: bool)
    ensures
        b == is_start_of_operator_spec(character),
{
    character == '&' || character == '(' || character == ')' || character == ';'
        || character == '\n' || character == '|' || character == '<' || character == '>'
}

/// True iff the candidate is exactly one of the table's entries (exact
/// match, not prefix).
pub fn is_operator(candidate: &str) -> (b: bool)
    ensures
        b == is_operator_spec(candidate@),
{
    let len = candidate.unicode_len();
    if len == 1 {
        let c = candidate.get_char(0);
        proof {
            assert(candidate@ =~= seq![c]);
        }
        c == '&' || c == '(' || c == ')' || c == ';' || c == '\n' || c == '|' || c == '<'
            || c == '>'
    } else if len == 2 {
        let c0 = candidate.get_char(0);
        let c1 = candidate.get_char(1);
        proof {
            assert(candidate@ =~= seq![c0, c1]);
        }
        (c0 == '&' && c1 == '&') || (c0 == ';' && c1 == ';') || (c0 == '|' && c1 == '|') || (c0
            == '>' && c1 == '|') || (c0 == '<' && c1 == '<') || (c0 == '>' && c1 == '>') || (c0
            == '<' && c1 == '&') || (c0 == '>' && c1 == '&') || (c0 == '<' && c1 == '>')
    } else if len == 3 {
        let c0 = candidate.get_char(0);
        let c1 = candidate.get_char(1);
        let c2 = candidate.get_char(2);
        proof {
            assert(candidate@ =~= seq![c0, c1, c2]);
        }
        c0 == '<' && c1 == '<' && c2 == '-'
    } else {
        false
    }
}

/// Every operator begins with a character that starts an operator.
pub proof fn lemma_operator_first_char(s: Seq<char>)
    requires
        is_operator_spec(s),
    ensures
        s.len() >= 1,
        is_start_of_operator_spec(s[0]),
{
}

/// A character starts an operator exactly when some operator string in
/// the table begins with it.
pub proof fn lemma_start_iff_some_operator(c: char)
    ensures
        is_start_of_operator_spec(c) <==> exists|s: Seq<char>|
            #[trigger] is_operator_spec(s) && s.len() > 0 && s[0] == c,
{
    if is_start_of_operator_spec(c) {
        lemma_start_char_is_operator(c);
        assert(is_operator_spec(seq![c]) && seq![c].len() > 0 && seq![c][0] == c);
    }
}

/// Every character that starts an operator is, on its own, an operator:
/// the table holds all eight one-character operators.
pub proof fn lemma_start_char_is_operator(c: char)
    requires
        is_start_of_operator_spec(c),
    ensures
        is_operator_spec(seq![c]),
{
    if c == '&' {
        assert(seq![c] =~= seq!['&']);
    } else if c == '(' {
        assert(seq![c] =~= seq!['(']);
    } else if c == ')' {
        assert(seq![c] =~= seq![')']);
    } else if c == ';' {
        assert(seq![c] =~= seq![';']);
    } else if c == '\n' {
        assert(seq![c] =~= seq!['\n']);
    } else if c == '|' {
        assert(seq![c] =~= seq!['|']);
    } else if c == '<' {
        assert(seq![c] =~= seq!['<']);
    } else {
        assert(seq![c] =~= seq!['>']);
    }
}

/// Every non-empty strict prefix of an operator is itself an operator.
pub proof fn lemma_operator_prefix(s: Seq<char>, k: int)
    requires
        is_operator_spec(s),
        0 < k < s.len(),
    ensures
        is_operator_spec(s.subrange(0, k)),
{
    if s.len() == 2 {
        assert(s.subrange(0, 1) =~= seq![s[0]]);
    } else if s.len() == 3 {
        if k == 1 {
            assert(s.subrange(0, 1) =~= seq![s[0]]);
        } else {
            assert(s.subrange(0, 2) =~= seq![s[0], s[1]]);
        }
    }
}

} // verus!
