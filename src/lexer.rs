use vstd::prelude::*;
use vstd::std_specs::iter::IteratorSpec;

verus! {

pub open spec fn is_space(c: char) -> bool {
    c == ' ' || c == '\t' || c == '\n' || c == '\r'
}

pub open spec fn is_bracket(c: char) -> bool {
    c == '{' || c == '}' || c == '(' || c == ')'
}

/// A character that may stand in a bare word: anything but white space,
/// brackets and the double quote.
pub open spec fn is_word_char(c: char) -> bool {
    !is_space(c) && !is_bracket(c) && c != '"'
}

/// The end of the run of word characters that starts at `i`.
pub open spec fn word_end(s: Seq<char>, i: int) -> int
    decreases s.len() - i,
{
    if 0 <= i < s.len() && is_word_char(s[i]) {
        word_end(s, i + 1)
    } else {
        i
    }
}

/// The first index at or after `i` that holds a double quote, or the length
/// of `s` when there is none.
pub open spec fn quote_end(s: Seq<char>, i: int) -> int
    decreases s.len() - i,
{
    if 0 <= i < s.len() && s[i] != '"' {
        quote_end(s, i + 1)
    } else {
        i
    }
}

pub proof fn lemma_word_end_bounds(s: Seq<char>, i: int)
    requires
        0 <= i <= s.len(),
    ensures
        i <= word_end(s, i) <= s.len(),
        forall|k: int| i <= k < word_end(s, i) ==> is_word_char(#[trigger] s[k]),
        word_end(s, i) < s.len() ==> !is_word_char(s[word_end(s, i)]),
    decreases s.len() - i,
{
    if i < s.len() && is_word_char(s[i]) {
        lemma_word_end_bounds(s, i + 1);
    }
}

pub proof fn lemma_quote_end_bounds(s: Seq<char>, i: int)
    requires
        0 <= i <= s.len(),
    ensures
        i <= quote_end(s, i) <= s.len(),
        forall|k: int| i <= k < quote_end(s, i) ==> #[trigger] s[k] != '"',
        quote_end(s, i) < s.len() ==> s[quote_end(s, i)] == '"',
    decreases s.len() - i,
{
    if i < s.len() && s[i] != '"' {
        lemma_quote_end_bounds(s, i + 1);
    }
}

pub open spec fn prepend_span(
    t: (int, int),
    r: Result<Seq<(int, int)>, int>,
) -> Result<Seq<(int, int)>, int> {
    match r {
        Ok(rest) => Ok(seq![t] + rest),
        Err(e) => Err(e),
    }
}

/// The tokens of `s` from index `i` on, each as the span `(start, end)` of its
/// text; or the index of the opening quote of a string that is never closed.
/// A token is a single bracket, a string literal from its opening quote to the
/// next double quote, or a maximal run of word characters. White space
/// separates tokens and is otherwise ignored.
pub open spec fn lex_from(s: Seq<char>, i: int) -> Result<Seq<(int, int)>, int>
    decreases s.len() - i,
    via lex_from_decreases
{
    if i < 0 || i >= s.len() {
        Ok(Seq::empty())
    } else if is_space(s[i]) {
        lex_from(s, i + 1)
    } else if is_bracket(s[i]) {
        prepend_span((i, i + 1), lex_from(s, i + 1))
    } else if s[i] == '"' {
        let j = quote_end(s, i + 1);
        if j >= s.len() {
            Err(i)
        } else {
            prepend_span((i, j + 1), lex_from(s, j + 1))
        }
    } else {
        prepend_span((i, word_end(s, i)), lex_from(s, word_end(s, i)))
    }
}

#[via_fn]
proof fn lex_from_decreases(s: Seq<char>, i: int) {
    if 0 <= i < s.len() {
        lemma_quote_end_bounds(s, i + 1);
        lemma_word_end_bounds(s, i);
        if is_word_char(s[i]) {
            lemma_word_end_bounds(s, i + 1);
        }
    }
}

pub open spec fn lex(s: Seq<char>) -> Result<Seq<(int, int)>, int> {
    lex_from(s, 0)
}

pub open spec fn spans_view(v: Seq<(usize, usize)>) -> Seq<(int, int)> {
    v.map_values(|p: (usize, usize)| (p.0 as int, p.1 as int))
}

fn is_space_exec(c: char) -> (r: bool)
    ensures
        r == is_space(c),
{
    c == ' ' || c == '\t' || c == '\n' || c == '\r'
}

fn is_bracket_exec(c: char) -> (r: bool)
    ensures
        r == is_bracket(c),
{
    c == '{' || c == '}' || c == '(' || c == ')'
}

/// The characters of `s`, in order.
pub fn chars_of(s: &str) -> (r: Vec<char>)
    ensures
        r@ == s@,
{
    broadcast use vstd::string::axiom_spec_iter, vstd::string::next_postcondition;

    let mut v: Vec<char> = Vec::new();
    let mut it = s.chars();
    loop
        invariant
            v@ + it.remaining() == s@,
            it.decrease() is Some,
        decreases it.decrease()->0,
    {
        let ghost before = it.remaining();
        match it.next() {
            Some(c) => {
                v.push(c);
                assert(v@ + it.remaining() =~= s@) by {
                    assert(before =~= seq![c] + it.remaining());
                }
            },
            None => {
                assert(v@ =~= s@);
                return v;
            },
        }
    }
}

/// Splits the text into tokens as `lex` describes.
pub fn tokenize(chars: &Vec<char>) -> (r: Result<Vec<(usize, usize)>, usize>)
    ensures
        match r {
            Ok(v) => lex(chars@) == Ok::<Seq<(int, int)>, int>(spans_view(v@)),
            Err(e) => lex(chars@) == Err::<Seq<(int, int)>, int>(e as int),
        },
{
    let ghost s = chars@;
    let n = chars.len();
    let mut toks: Vec<(usize, usize)> = Vec::new();
    let mut i: usize = 0;
    while i < n
        invariant
            s == chars@,
            n == s.len(),
            i <= n,
            lex(s) == match lex_from(s, i as int) {
                Ok(rest) => Ok::<Seq<(int, int)>, int>(spans_view(toks@) + rest),
                Err(e) => Err(e),
            },
        decreases n - i,
    {
        let c = chars[i];
        if is_space_exec(c) {
            i = i + 1;
        } else {
            let ghost old_toks = toks@;
            let j: usize;
            if is_bracket_exec(c) {
                j = i + 1;
            } else if c == '"' {
                proof {
                    lemma_quote_end_bounds(s, i + 1);
                }
                let mut k: usize = i + 1;
                while k < n && chars[k] != '"'
                    invariant
                        s == chars@,
                        n == s.len(),
                        i < k <= n,
                        quote_end(s, k as int) == quote_end(s, i + 1),
                    decreases n - k,
                {
                    k = k + 1;
                }
                if k >= n {
                    return Err(i);
                }
                j = k + 1;
            } else {
                proof {
                    lemma_word_end_bounds(s, i as int);
                }
                let mut k: usize = i + 1;
                while k < n && !is_space_exec(chars[k]) && !is_bracket_exec(chars[k])
                    && chars[k] != '"'
                    invariant
                        s == chars@,
                        n == s.len(),
                        i < k <= n,
                        word_end(s, k as int) == word_end(s, i as int),
                    decreases n - k,
                {
                    k = k + 1;
                }
                j = k;
            }
            toks.push((i, j));
            assert(spans_view(toks@) =~= spans_view(old_toks) + seq![(i as int, j as int)]);
            proof {
                match lex_from(s, j as int) {
                    Ok(rest) => {
                        assert(spans_view(toks@) + rest =~= spans_view(old_toks) + (seq![
                            (i as int, j as int),
                        ] + rest));
                    },
                    Err(e) => {},
                }
            }
            i = j;
        }
    }
    assert(spans_view(toks@) + Seq::<(int, int)>::empty() =~= spans_view(toks@));
    Ok(toks)
}

} // verus!
