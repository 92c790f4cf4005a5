//! Splitting text into tokens.
//!
//! A token is a symbol, such as `(` or `==`, or a word: the longest run of
//! characters at none of which a symbol or a blank begins. Blanks separate
//! tokens and are no tokens themselves.

use crate::text::{chars_of, push_text};
use vstd::prelude::*;

verus! {

/// The separators and symbols that end a word, in the order in which they
/// are tried at a position of the text.
pub open spec fn specials() -> Seq<Seq<char>> {
    seq![
        seq![' '],
        seq!['\t'],
        seq!['\n'],
        seq!['\r'],
        seq!['=', '='],
        seq!['!', '='],
        seq!['|', '|'],
        seq!['&', '&'],
        seq!['*', '*'],
        seq!['('],
        seq![')'],
        seq!['{'],
        seq!['}'],
        seq!['['],
        seq![']'],
        seq![','],
        seq!['='],
        seq![';'],
        seq!['"'],
    ]
}

/// The first entry of [`specials`], from entry `k` on, that `s` begins with.
pub open spec fn first_special(s: Seq<char>, k: int) -> Option<Seq<char>>
    decreases specials().len() - k,
{
    if k < 0 || k >= specials().len() {
        None
    } else if specials()[k].is_prefix_of(s) {
        Some(specials()[k])
    } else {
        first_special(s, k + 1)
    }
}

/// The special that `s` begins with, if it begins with one.
pub open spec fn special_prefix(s: Seq<char>) -> Option<Seq<char>> {
    first_special(s, 0)
}

/// A character that separates tokens and belongs to none.
pub open spec fn is_blank(c: char) -> bool {
    c == ' ' || c == '\t' || c == '\n' || c == '\r'
}

/// A character that is a token by itself wherever it stands, unless it
/// opens a two-character operator.
pub open spec fn is_delimiter(c: char) -> bool {
    c == '(' || c == ')' || c == '{' || c == '}' || c == '[' || c == ']' || c == ',' || c == '='
        || c == ';' || c == '"'
}

/// Two characters that form one token together.
pub open spec fn is_operator(a: char, b: char) -> bool {
    (a == '=' && b == '=') || (a == '!' && b == '=') || (a == '|' && b == '|') || (a == '&' && b
        == '&') || (a == '*' && b == '*')
}

/// The length of the word that `s` begins with: the longest run of
/// characters, from the start of `s`, at none of which a special begins.
pub open spec fn word_len(s: Seq<char>) -> nat
    decreases s.len(),
{
    if s.len() == 0 || special_prefix(s) is Some {
        0
    } else {
        1 + word_len(s.drop_first())
    }
}

/// The tokens of `s`, from left to right. A special that is not blank is a
/// token, a blank is dropped, and what stands before the next special is one
/// token.
pub open spec fn tokens_of(s: Seq<char>) -> Seq<Seq<char>>
    decreases s.len(),
{
    if s.len() == 0 {
        Seq::empty()
    } else {
        match special_prefix(s) {
            Some(p) => {
                proof {
                    lemma_special_prefix(s);
                }
                let rest = tokens_of(s.skip(p.len() as int));
                if is_blank(p[0]) {
                    rest
                } else {
                    seq![p] + rest
                }
            },
            None => {
                proof {
                    lemma_word_len(s);
                }
                let n = word_len(s);
                seq![s.take(n as int)] + tokens_of(s.skip(n as int))
            },
        }
    }
}

/// The tokens of `s` as a stack: in reverse, the first token last.
pub open spec fn stack_of(s: Seq<char>) -> Seq<Seq<char>> {
    tokens_of(s).reverse()
}

/// A token that is a symbol: a special that is not blank.
pub open spec fn is_symbol(t: Seq<char>) -> bool {
    special_prefix(t) == Some(t) && !is_blank(t[0])
}

/// A token that is a word: not empty, and no special begins anywhere in it.
pub open spec fn is_word(t: Seq<char>) -> bool {
    t.len() > 0 && forall|j: int| 0 <= j < t.len() ==> special_prefix(#[trigger] t.skip(j)) is None
}

/// What a token is: a symbol or a word.
pub open spec fn is_token(t: Seq<char>) -> bool {
    is_symbol(t) || is_word(t)
}

/// The tokens written one after another, with one space between neighbours.
pub open spec fn join(tokens: Seq<Seq<char>>) -> Seq<char>
    decreases tokens.len(),
{
    if tokens.len() == 0 {
        Seq::empty()
    } else if tokens.len() == 1 {
        tokens[0]
    } else {
        tokens[0] + seq![' '] + join(tokens.drop_first())
    }
}

/// The length of the special that begins at position `i` of `text`, or 0
/// where none begins there.
fn special_len(text: &Vec<char>, i: usize) -> (n: usize)
    requires
        i < text.len(),
    ensures
        match special_prefix(text@.skip(i as int)) {
            Some(p) => 0 < n == p.len() && p == text@.subrange(i as int, i + n),
            None => n == 0,
        },
        i + n <= text.len(),
{
    let a = text[i];
    proof {
        lemma_special_prefix(text@.skip(i as int));
    }
    if a == ' ' || a == '\t' || a == '\n' || a == '\r' {
        assert(seq![a] =~= text@.subrange(i as int, i + 1));
        return 1;
    }
    if i + 1 < text.len() {
        let b = text[i + 1];
        if (a == '=' && b == '=') || (a == '!' && b == '=') || (a == '|' && b == '|') || (a == '&'
            && b == '&') || (a == '*' && b == '*') {
            assert(seq![a, b] =~= text@.subrange(i as int, i + 2));
            return 2;
        }
    }
    if a == '(' || a == ')' || a == '{' || a == '}' || a == '[' || a == ']' || a == ',' || a == '='
        || a == ';' || a == '"' {
        assert(seq![a] =~= text@.subrange(i as int, i + 1));
        1
    } else {
        0
    }
}

/// The characters of `text` from position `from` up to position `to`.
fn text_between(text: &Vec<char>, from: usize, to: usize) -> (part: String)
    requires
        from <= to <= text.len(),
    ensures
        part@ == text@.subrange(from as int, to as int),
{
    let mut part = String::new();
    let mut i = from;
    while i < to
        invariant
            from <= i <= to <= text.len(),
            part@ == text@.subrange(from as int, i as int),
        decreases to - i,
    {
        part.push(text[i]);
        i += 1;
        assert(part@ =~= text@.subrange(from as int, i as int));
    }
    part
}

/// Splits `input` into its tokens, from left to right.
pub fn tokenize(input: &str) -> (tokens: Vec<String>)
    ensures
        tokens.deep_view() == tokens_of(input@),
        forall|k: int| 0 <= k < tokens.len() ==> is_token(#[trigger] tokens[k]@),
{
    let text = chars_of(input);
    let ghost s = text@;
    let mut tokens: Vec<String> = Vec::new();
    let mut current = String::new();
    let mut i: usize = 0;
    let ghost mut start: int = 0;
    assert(s.skip(0) =~= s);
    assert(tokens.deep_view() + tokens_of(s) =~= tokens_of(s));
    while i < text.len()
        invariant
            s == text@,
            0 <= start <= i <= text.len(),
            current@ == s.subrange(start, i as int),
            forall|j: int| start <= j < i ==> special_prefix(#[trigger] s.skip(j)) is None,
            tokens_of(s) == tokens.deep_view() + tokens_of(s.skip(start)),
        decreases text.len() - i,
    {
        let n = special_len(&text, i);
        if n == 0 {
            current.push(text[i]);
            i += 1;
            assert(current@ =~= s.subrange(start, i as int));
        } else {
            if !current.as_str().is_empty() {
                proof {
                    lemma_word_is_next(s, start, i as int);
                    lemma_push_then_rest(tokens.deep_view(), current@, tokens_of(s.skip(i as int)));
                }
                push_text(&mut tokens, current);
                current = String::new();
            }
            let a = text[i];
            proof {
                lemma_special_is_next(s, i as int);
            }
            if !(a == ' ' || a == '\t' || a == '\n' || a == '\r') {
                let symbol = text_between(&text, i, i + n);
                proof {
                    lemma_push_then_rest(tokens.deep_view(), symbol@, tokens_of(s.skip(i + n)));
                }
                push_text(&mut tokens, symbol);
            }
            i += n;
            proof {
                start = i as int;
            }
            assert(current@ =~= s.subrange(start, i as int));
        }
    }
    if !current.as_str().is_empty() {
        proof {
            lemma_word_is_next(s, start, i as int);
            lemma_push_then_rest(tokens.deep_view(), current@, tokens_of(s.skip(i as int)));
        }
        push_text(&mut tokens, current);
    }
    proof {
        assert(tokens.deep_view() + tokens_of(s.skip(i as int)) =~= tokens.deep_view());
        lemma_tokens_are_tokens(s);
        assert forall|k: int| 0 <= k < tokens.len() implies is_token(#[trigger] tokens[k]@) by {
            assert(tokens[k]@ == tokens.deep_view()[k]);
        }
    }
    tokens
}

/// Splits `input` into its tokens and reverses them into a stack: the first
/// token of the text is the last element, where the grammar rules take it.
pub fn token_stack(input: &str) -> (stack: Vec<String>)
    ensures
        stack.deep_view() == stack_of(input@),
{
    let mut tokens = tokenize(input);
    let ghost all = tokens.deep_view();
    let mut stack: Vec<String> = Vec::new();
    assert(stack.deep_view() =~= all.skip(all.len() as int).reverse());
    assert(tokens.deep_view() =~= all.take(all.len() as int));
    while tokens.len() > 0
        invariant
            tokens.len() <= all.len(),
            tokens.deep_view() == all.take(tokens.len() as int),
            stack.deep_view() == all.skip(tokens.len() as int).reverse(),
        decreases tokens.len(),
    {
        let ghost n = tokens.len() as int;
        let token = tokens.pop().unwrap();
        assert(token@ == all.take(n)[n - 1]);
        assert(tokens.deep_view() =~= all.take(n - 1));
        assert(all.skip(n).reverse().push(all[n - 1]) =~= all.skip(n - 1).reverse());
        push_text(&mut stack, token);
    }
    assert(all.skip(0) =~= all);
    stack
}

/// [`special_prefix`] read off the first two characters of `s`.
pub proof fn lemma_special_prefix(s: Seq<char>)
    ensures
        special_prefix(s) == if s.len() == 0 {
            None
        } else if is_blank(s[0]) {
            Some(seq![s[0]])
        } else if s.len() >= 2 && is_operator(s[0], s[1]) {
            Some(seq![s[0], s[1]])
        } else if is_delimiter(s[0]) {
            Some(seq![s[0]])
        } else {
            None
        },
{
    reveal_with_fuel(first_special, 20);
    let l = specials();
    assert(l.len() == 19);
    if s.len() > 0 {
        if is_blank(s[0]) {
            assert(seq![s[0]] =~= s.subrange(0, 1));
        } else if s.len() >= 2 && is_operator(s[0], s[1]) {
            assert(seq![s[0], s[1]] =~= s.subrange(0, 2));
        } else if is_delimiter(s[0]) {
            assert(seq![s[0]] =~= s.subrange(0, 1));
        }
    }
    assert forall|k: int| 0 <= k < 19 && l[k].is_prefix_of(s) implies l[k][0] == s[0] && (l[k].len()
        == 2 ==> l[k][1] == s[1]) by {
        assert(l[k] =~= s.subrange(0, l[k].len() as int));
        assert(s.subrange(0, l[k].len() as int)[0] == s[0]);
        if l[k].len() == 2 {
            assert(s.subrange(0, l[k].len() as int)[1] == s[1]);
        }
    }
}

/// A word is no longer than the text that it begins, and is not empty
/// where the text is not empty and begins with no special.
pub proof fn lemma_word_len(s: Seq<char>)
    ensures
        word_len(s) <= s.len(),
        s.len() > 0 && special_prefix(s) is None ==> word_len(s) >= 1,
    decreases s.len(),
{
    if !(s.len() == 0 || special_prefix(s) is Some) {
        lemma_word_len(s.drop_first());
    }
}

/// A run of positions at none of which a special begins, followed by the
/// end of the text or by a special, is a word.
proof fn lemma_word(s: Seq<char>, from: int, to: int)
    requires
        0 <= from <= to <= s.len(),
        forall|j: int| from <= j < to ==> special_prefix(#[trigger] s.skip(j)) is None,
        to == s.len() || special_prefix(s.skip(to)) is Some,
    ensures
        word_len(s.skip(from)) == to - from,
    decreases to - from,
{
    if from < to {
        assert(s.skip(from).drop_first() =~= s.skip(from + 1));
        lemma_word(s, from + 1, to);
    }
}

/// Such a run, where it is not empty, is the next token at its start.
proof fn lemma_word_is_next(s: Seq<char>, from: int, to: int)
    requires
        0 <= from < to <= s.len(),
        forall|j: int| from <= j < to ==> special_prefix(#[trigger] s.skip(j)) is None,
        to == s.len() || special_prefix(s.skip(to)) is Some,
    ensures
        tokens_of(s.skip(from)) == seq![s.subrange(from, to)] + tokens_of(s.skip(to)),
{
    lemma_word(s, from, to);
    assert(special_prefix(s.skip(from)) is None);
    assert(s.skip(from).take(to - from) =~= s.subrange(from, to));
    assert(s.skip(from).skip(to - from) =~= s.skip(to));
}

/// A special that begins at a position is the next token there, unless it
/// is blank.
proof fn lemma_special_is_next(s: Seq<char>, i: int)
    requires
        0 <= i < s.len(),
        special_prefix(s.skip(i)) is Some,
    ensures
        ({
            let p = special_prefix(s.skip(i))->0;
            &&& p[0] == s[i]
            &&& tokens_of(s.skip(i)) == if is_blank(s[i]) {
                tokens_of(s.skip(i + p.len()))
            } else {
                seq![p] + tokens_of(s.skip(i + p.len()))
            }
        }),
{
    let p = special_prefix(s.skip(i))->0;
    lemma_special_prefix(s.skip(i));
    assert(s.skip(i).skip(p.len() as int) =~= s.skip(i + p.len()));
}

/// Tokens that were read, then one more, then the rest.
proof fn lemma_push_then_rest(done: Seq<Seq<char>>, token: Seq<char>, rest: Seq<Seq<char>>)
    ensures
        done.push(token) + rest == done + (seq![token] + rest),
{
    assert(done.push(token) + rest =~= done + (seq![token] + rest));
}

/// No special begins inside the word that a text begins with.
proof fn lemma_word_holds_no_special(s: Seq<char>, j: int)
    requires
        0 <= j < word_len(s),
    ensures
        j < s.len(),
        special_prefix(s.skip(j)) is None,
    decreases s.len(),
{
    lemma_word_len(s);
    if j == 0 {
        assert(s.skip(0) =~= s);
    } else {
        lemma_word_holds_no_special(s.drop_first(), j - 1);
        assert(s.drop_first().skip(j - 1) =~= s.skip(j));
    }
}

/// A token is not empty and holds no blank.
pub proof fn lemma_token_holds_no_blank(t: Seq<char>)
    requires
        is_token(t),
    ensures
        t.len() > 0,
        forall|j: int| 0 <= j < t.len() ==> !is_blank(#[trigger] t[j]),
{
    lemma_special_prefix(t);
    if is_word(t) {
        assert forall|j: int| 0 <= j < t.len() implies !is_blank(#[trigger] t[j]) by {
            assert(special_prefix(t.skip(j)) is None);
            lemma_special_prefix(t.skip(j));
        }
    }
}

/// Every token of a text is a symbol or a word.
pub proof fn lemma_tokens_are_tokens(s: Seq<char>)
    ensures
        forall|k: int| 0 <= k < tokens_of(s).len() ==> is_token(#[trigger] tokens_of(s)[k]),
    decreases s.len(),
{
    if s.len() > 0 {
        lemma_special_prefix(s);
        match special_prefix(s) {
            Some(p) => {
                let rest = tokens_of(s.skip(p.len() as int));
                lemma_tokens_are_tokens(s.skip(p.len() as int));
                lemma_special_prefix(p);
                if !is_blank(p[0]) {
                    assert(p.subrange(0, p.len() as int) =~= p);
                    assert(is_symbol(p));
                    assert forall|k: int| 0 <= k < tokens_of(s).len() implies is_token(
                        #[trigger] tokens_of(s)[k],
                    ) by {
                        if k > 0 {
                            assert(tokens_of(s)[k] == rest[k - 1]);
                        }
                    }
                }
            },
            None => {
                lemma_word_len(s);
                let n = word_len(s) as int;
                let w = s.take(n);
                let rest = tokens_of(s.skip(n));
                lemma_tokens_are_tokens(s.skip(n));
                assert forall|j: int| 0 <= j < w.len() implies special_prefix(
                    #[trigger] w.skip(j),
                ) is None by {
                    lemma_word_holds_no_special(s, j);
                    lemma_special_prefix(s.skip(j));
                    lemma_special_prefix(w.skip(j));
                }
                assert(is_word(w));
                assert forall|k: int| 0 <= k < tokens_of(s).len() implies is_token(
                    #[trigger] tokens_of(s)[k],
                ) by {
                    if k > 0 {
                        assert(tokens_of(s)[k] == rest[k - 1]);
                    }
                }
            },
        }
    }
}

/// No token of a text is empty, and none holds a blank.
pub proof fn lemma_tokens_hold_no_blank(s: Seq<char>)
    ensures
        forall|k: int| 0 <= k < tokens_of(s).len() ==> (#[trigger] tokens_of(s)[k]).len() > 0,
        forall|k: int, j: int|
            0 <= k < tokens_of(s).len() && 0 <= j < tokens_of(s)[k].len() ==> !is_blank(
                #[trigger] tokens_of(s)[k][j],
            ),
{
    lemma_tokens_are_tokens(s);
    assert forall|k: int| 0 <= k < tokens_of(s).len() implies (#[trigger] tokens_of(s)[k]).len() > 0
        && forall|j: int|
        0 <= j < tokens_of(s)[k].len() ==> !is_blank(#[trigger] tokens_of(s)[k][j]) by {
        lemma_token_holds_no_blank(tokens_of(s)[k]);
    }
}

/// A two-character operator is one token wherever a token begins, never
/// two tokens of one character.
pub proof fn lemma_operator_is_one_token(s: Seq<char>)
    requires
        s.len() >= 2,
        is_operator(s[0], s[1]),
    ensures
        tokens_of(s) == seq![seq![s[0], s[1]]] + tokens_of(s.skip(2)),
{
    lemma_special_prefix(s);
}

/// A word that the end of the text or a blank follows is the first token.
proof fn lemma_word_first(t: Seq<char>, tail: Seq<char>)
    requires
        is_word(t),
        tail.len() == 0 || is_blank(tail[0]),
    ensures
        tokens_of(t + tail) == seq![t] + tokens_of(tail),
{
    let s = t + tail;
    let n = t.len() as int;
    assert forall|j: int| 0 <= j < n implies special_prefix(#[trigger] s.skip(j)) is None by {
        assert(special_prefix(t.skip(j)) is None);
        lemma_special_prefix(t.skip(j));
        lemma_special_prefix(s.skip(j));
    }
    assert(s.skip(n) =~= tail);
    lemma_special_prefix(tail);
    lemma_word_is_next(s, 0, n);
    assert(s.skip(0) =~= s);
    assert(s.subrange(0, n) =~= t);
}

/// A symbol that the end of the text or a blank follows is the first token.
proof fn lemma_symbol_first(t: Seq<char>, tail: Seq<char>)
    requires
        is_symbol(t),
        tail.len() == 0 || is_blank(tail[0]),
    ensures
        tokens_of(t + tail) == seq![t] + tokens_of(tail),
{
    let s = t + tail;
    lemma_special_prefix(t);
    lemma_special_prefix(s);
    assert(special_prefix(s) == Some(t));
    assert(s.skip(t.len() as int) =~= tail);
}

/// Tokens that are written with one space between them are read back as
/// they were: of symbols and words, [`join`] is undone by [`tokens_of`].
pub proof fn lemma_tokens_of_join(tokens: Seq<Seq<char>>)
    requires
        forall|k: int| 0 <= k < tokens.len() ==> is_token(#[trigger] tokens[k]),
    ensures
        tokens_of(join(tokens)) == tokens,
    decreases tokens.len(),
{
    if tokens.len() > 0 {
        let t = tokens[0];
        let rest = tokens.drop_first();
        let tail = if tokens.len() == 1 {
            Seq::<char>::empty()
        } else {
            seq![' '] + join(rest)
        };
        assert(join(tokens) =~= t + tail);
        assert forall|k: int| 0 <= k < rest.len() implies is_token(#[trigger] rest[k]) by {
            assert(rest[k] == tokens[k + 1]);
        }
        lemma_tokens_of_join(rest);
        if is_symbol(t) {
            lemma_symbol_first(t, tail);
        } else {
            lemma_word_first(t, tail);
        }
        if tokens.len() > 1 {
            lemma_special_prefix(tail);
            assert(tail.skip(1) =~= join(rest));
        }
        assert(seq![t] + rest =~= tokens);
    }
}

/// A token alone is read as itself.
pub proof fn lemma_token_is_one_token(t: Seq<char>)
    requires
        is_token(t),
    ensures
        tokens_of(t) == seq![t],
{
    lemma_tokens_of_join(seq![t]);
}

/// The tokens of a text, written out with spaces between them, give the
/// same tokens again.
pub proof fn lemma_tokens_of_join_of_tokens(s: Seq<char>)
    ensures
        tokens_of(join(tokens_of(s))) == tokens_of(s),
{
    lemma_tokens_are_tokens(s);
    lemma_tokens_of_join(tokens_of(s));
}

} // verus!
