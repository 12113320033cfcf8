//! Whitespace-delimited tokens of a line.
//!
//! A token is a maximal run of characters that are not whitespace; any run of
//! whitespace is a single delimiter.

use vstd::prelude::*;
use crate::chars::{collect_chars, is_space, is_whitespace};

verus! {

/// The number of whitespace characters that `s` begins with.
pub open spec fn leading_ws(s: Seq<char>) -> nat
    decreases s.len(),
{
    if s.len() > 0 && is_whitespace(s[0]) {
        1 + leading_ws(s.drop_first())
    } else {
        0
    }
}

/// The number of characters before the first whitespace character of `s`.
pub open spec fn word_len(s: Seq<char>) -> nat
    decreases s.len(),
{
    if s.len() > 0 && !is_whitespace(s[0]) {
        1 + word_len(s.drop_first())
    } else {
        0
    }
}

/// The tokens of `s`, in order.
pub open spec fn tokens(s: Seq<char>) -> Seq<Seq<char>>
    decreases s.len(),
    via tokens_decreases
{
    if s.len() == 0 {
        Seq::empty()
    } else if is_whitespace(s[0]) {
        tokens(s.drop_first())
    } else {
        seq![s.take(word_len(s) as int)] + tokens(s.skip(word_len(s) as int))
    }
}

#[via_fn]
proof fn tokens_decreases(s: Seq<char>) {
    lemma_word_len_bounds(s);
}

/// A sequence without any whitespace character.
pub open spec fn is_word(t: Seq<char>) -> bool {
    forall|i: int| 0 <= i < t.len() ==> !is_whitespace(#[trigger] t[i])
}

/// A sequence made of whitespace characters only.
pub open spec fn is_blank(t: Seq<char>) -> bool {
    forall|i: int| 0 <= i < t.len() ==> is_whitespace(#[trigger] t[i])
}

/// `leading_ws(s)` is the one position that only whitespace precedes and
/// where the text ends or a character that is no whitespace stands.
pub proof fn lemma_leading_ws_is(s: Seq<char>, n: int)
    requires
        0 <= n <= s.len(),
        is_blank(s.take(n)),
        n == s.len() || !is_whitespace(s[n]),
    ensures
        leading_ws(s) == n,
    decreases n,
{
    if n > 0 {
        let t = s.drop_first();
        assert(s.take(n)[0] == s[0]);
        assert forall|i: int| 0 <= i < n - 1 implies is_whitespace(#[trigger] t.take(n - 1)[i]) by {
            assert(t.take(n - 1)[i] == s.take(n)[i + 1]);
        }
        lemma_leading_ws_is(t, n - 1);
    }
}

/// `word_len(s)` is the one position that no whitespace precedes and where
/// the text ends or a whitespace character stands.
pub proof fn lemma_word_len_is(s: Seq<char>, n: int)
    requires
        0 <= n <= s.len(),
        is_word(s.take(n)),
        n == s.len() || is_whitespace(s[n]),
    ensures
        word_len(s) == n,
    decreases n,
{
    if n > 0 {
        let t = s.drop_first();
        assert(s.take(n)[0] == s[0]);
        assert forall|i: int| 0 <= i < n - 1 implies !is_whitespace(#[trigger] t.take(n - 1)[i]) by {
            assert(t.take(n - 1)[i] == s.take(n)[i + 1]);
        }
        lemma_word_len_is(t, n - 1);
    }
}

/// The leading whitespace of `s` lies within `s`, and a character that is no
/// whitespace follows it unless the text ends there.
pub proof fn lemma_leading_ws_bounds(s: Seq<char>)
    ensures
        leading_ws(s) <= s.len(),
        is_blank(s.take(leading_ws(s) as int)),
        leading_ws(s) == s.len() || !is_whitespace(s[leading_ws(s) as int]),
    decreases s.len(),
{
    if s.len() > 0 && is_whitespace(s[0]) {
        let t = s.drop_first();
        lemma_leading_ws_bounds(t);
        let n = leading_ws(s) as int;
        assert forall|i: int| 0 <= i < n implies is_whitespace(#[trigger] s.take(n)[i]) by {
            if i > 0 {
                assert(s.take(n)[i] == t.take(n - 1)[i - 1]);
            }
        }
    }
}

/// The leading word of `s` lies within `s`, and a whitespace character
/// follows it unless the text ends there.
pub proof fn lemma_word_len_bounds(s: Seq<char>)
    ensures
        word_len(s) <= s.len(),
        is_word(s.take(word_len(s) as int)),
        word_len(s) == s.len() || is_whitespace(s[word_len(s) as int]),
    decreases s.len(),
{
    if s.len() > 0 && !is_whitespace(s[0]) {
        let t = s.drop_first();
        lemma_word_len_bounds(t);
        let n = word_len(s) as int;
        assert forall|i: int| 0 <= i < n implies !is_whitespace(#[trigger] s.take(n)[i]) by {
            if i > 0 {
                assert(s.take(n)[i] == t.take(n - 1)[i - 1]);
            }
        }
    }
}

/// Leading whitespace carries no token.
pub proof fn lemma_tokens_skip_ws(s: Seq<char>)
    ensures
        leading_ws(s) <= s.len(),
        tokens(s) == tokens(s.skip(leading_ws(s) as int)),
    decreases s.len(),
{
    if s.len() > 0 && is_whitespace(s[0]) {
        let t = s.drop_first();
        lemma_tokens_skip_ws(t);
        assert(s.skip(leading_ws(s) as int) =~= t.skip(leading_ws(t) as int));
    } else {
        assert(s.skip(0) =~= s);
    }
}

/// Whitespace before a text adds no token to it.
pub proof fn lemma_tokens_after_blank(blank: Seq<char>, s: Seq<char>)
    requires
        is_blank(blank),
    ensures
        tokens(blank + s) == tokens(s),
    decreases blank.len(),
{
    if blank.len() == 0 {
        assert(blank + s =~= s);
    } else {
        assert((blank + s)[0] == blank[0]);
        assert forall|i: int| 0 <= i < blank.len() - 1 implies is_whitespace(
            #[trigger] blank.drop_first()[i],
        ) by {
            assert(blank.drop_first()[i] == blank[i + 1]);
        }
        assert((blank + s).drop_first() =~= blank.drop_first() + s);
        lemma_tokens_after_blank(blank.drop_first(), s);
    }
}

/// A word before a text that is empty or begins with whitespace is its
/// first token.
pub proof fn lemma_tokens_after_word(word: Seq<char>, s: Seq<char>)
    requires
        word.len() > 0,
        is_word(word),
        s.len() == 0 || is_whitespace(s[0]),
    ensures
        tokens(word + s) == seq![word] + tokens(s),
{
    let line = word + s;
    let n = word.len() as int;
    assert(line.take(n) =~= word);
    assert(line.skip(n) =~= s);
    assert(line[0] == word[0]);
    if s.len() > 0 {
        assert(line[n] == s[0]);
    }
    lemma_word_len_is(line, n);
}

/// Every token is a word, and none is empty.
pub proof fn lemma_tokens_are_words(s: Seq<char>)
    ensures
        forall|i: int|
            0 <= i < tokens(s).len() ==> (#[trigger] tokens(s)[i]).len() > 0 && is_word(
                tokens(s)[i],
            ),
    decreases s.len(),
{
    if s.len() == 0 {
        assert(tokens(s).len() == 0);
    } else if is_whitespace(s[0]) {
        lemma_tokens_are_words(s.drop_first());
        assert(tokens(s) == tokens(s.drop_first()));
    } else {
        let n = word_len(s) as int;
        lemma_word_len_bounds(s);
        lemma_tokens_are_words(s.skip(n));
        assert forall|i: int| 0 <= i < tokens(s).len() implies (#[trigger] tokens(s)[i]).len() > 0
            && is_word(tokens(s)[i]) by {
            let first = seq![s.take(n)];
            assert(tokens(s) == first + tokens(s.skip(n)));
            if i > 0 {
                assert(tokens(s)[i] == tokens(s.skip(n))[i - 1]);
            } else {
                assert(tokens(s)[0] == first[0]);
                assert(n >= 1);
            }
        }
    }
}

/// A text has a token exactly when it is not blank.
pub proof fn lemma_has_token(s: Seq<char>)
    ensures
        tokens(s).len() > 0 <==> !is_blank(s),
    decreases s.len(),
{
    if s.len() == 0 {
    } else if is_whitespace(s[0]) {
        let t = s.drop_first();
        lemma_has_token(t);
        if is_blank(s) {
            assert forall|i: int| 0 <= i < t.len() implies is_whitespace(#[trigger] t[i]) by {
                assert(t[i] == s[i + 1]);
            }
        }
        if is_blank(t) {
            assert forall|i: int| 0 <= i < s.len() implies is_whitespace(#[trigger] s[i]) by {
                if i > 0 {
                    assert(s[i] == t[i - 1]);
                }
            }
        }
    } else {
    }
}

/// The position of the first character at or after `start` that is no
/// whitespace, or the length of `chars` where there is none.
pub fn skip_ws(chars: &Vec<char>, start: usize) -> (end: usize)
    requires
        start <= chars@.len(),
    ensures
        end == start + leading_ws(chars@.skip(start as int)),
        end <= chars@.len(),
{
    let mut end: usize = start;
    while end < chars.len() && is_space(chars[end])
        invariant
            start <= end <= chars@.len(),
            forall|k: int| start <= k < end ==> is_whitespace(chars@[k]),
        decreases chars@.len() - end,
    {
        end += 1;
    }
    proof {
        let rest = chars@.skip(start as int);
        assert forall|i: int| 0 <= i < end - start implies is_whitespace(
            #[trigger] rest.take(end - start)[i],
        ) by {
            assert(rest.take(end - start)[i] == chars@[start + i]);
        }
        lemma_leading_ws_is(rest, end - start);
    }
    end
}

/// The position of the first whitespace character at or after `start`, or the
/// length of `chars` where there is none.
pub fn word_end(chars: &Vec<char>, start: usize) -> (end: usize)
    requires
        start <= chars@.len(),
    ensures
        end == start + word_len(chars@.skip(start as int)),
        end <= chars@.len(),
{
    let mut end: usize = start;
    while end < chars.len() && !is_space(chars[end])
        invariant
            start <= end <= chars@.len(),
            forall|k: int| start <= k < end ==> !is_whitespace(chars@[k]),
        decreases chars@.len() - end,
    {
        end += 1;
    }
    proof {
        let rest = chars@.skip(start as int);
        assert forall|i: int| 0 <= i < end - start implies !is_whitespace(
            #[trigger] rest.take(end - start)[i],
        ) by {
            assert(rest.take(end - start)[i] == chars@[start + i]);
        }
        lemma_word_len_is(rest, end - start);
    }
    end
}

/// The bounds of the first token at or after `pos`: `None` where only
/// whitespace is left, else the token's first position and the position
/// after its last.
pub fn next_token(chars: &Vec<char>, pos: usize) -> (r: Option<(usize, usize)>)
    requires
        pos <= chars@.len(),
    ensures
        match r {
            None => tokens(chars@.skip(pos as int)).len() == 0,
            Some((begin, end)) => {
                &&& pos <= begin < end <= chars@.len()
                &&& begin == pos + leading_ws(chars@.skip(pos as int))
                &&& tokens(chars@.skip(pos as int)) == seq![
                    chars@.subrange(begin as int, end as int),
                ] + tokens(chars@.skip(end as int))
            },
        },
{
    let begin = skip_ws(chars, pos);
    proof {
        let rest = chars@.skip(pos as int);
        lemma_tokens_skip_ws(rest);
        lemma_leading_ws_bounds(rest);
        assert(rest.skip(leading_ws(rest) as int) =~= chars@.skip(begin as int));
    }
    if begin >= chars.len() {
        return None;
    }
    let end = word_end(chars, begin);
    proof {
        let word = chars@.skip(begin as int);
        let n = word_len(word) as int;
        assert(word[0] == chars@[begin as int]);
        assert(!is_whitespace(word[0]));
        assert(word.take(n) =~= chars@.subrange(begin as int, end as int));
        assert(word.skip(n) =~= chars@.skip(end as int));
    }
    Some((begin, end))
}

/// The position of the first significant character of `input` at or after
/// `start_idx`, counted in characters: the one that follows the whitespace
/// there, or the length of `input` where nothing follows it.
pub fn discard_ws(input: &str, start_idx: usize) -> (end_idx: usize)
    requires
        start_idx <= input@.len(),
    ensures
        end_idx == start_idx + leading_ws(input@.skip(start_idx as int)),
        end_idx <= input@.len(),
{
    let chars = collect_chars(input);
    skip_ws(&chars, start_idx)
}

} // verus!
