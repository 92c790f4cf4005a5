//! Grammar rules over a stack of tokens.
//!
//! A stack holds the tokens of a text in reverse: the next token is its last
//! element, and a rule takes tokens by removing them from the end. What a
//! rule leaves of the stack after it has failed differs from rule to rule:
//! [`Identifier`] and [`ensure_tokens`] keep what they took, while
//! [`Literal`] puts a text that is no number back.

use crate::number::{in_isize, integer_value, read_integer};
use crate::text::{pop_text, push_text};
use crate::tokenize::{
    is_word, lemma_special_prefix, lemma_token_is_one_token, special_prefix, stack_of, tokens_of,
};
use vstd::prelude::*;
use vstd::string::StringExecFns;

verus! {

/// Why a rule could not be parsed.
#[derive(Debug, Clone, PartialEq, Eq)]
pub enum ParseError {
    /// A token was needed and the stack was empty.
    EndOfFile,
    /// A token was there and is not what the rule asks for; `error` says why.
    InvalidToken { token: String, error: String },
}

/// A [`ParseError`] as contracts see it.
pub enum ParseErrorView {
    EndOfFile,
    InvalidToken { token: Seq<char>, error: Seq<char> },
}

impl View for ParseError {
    type V = ParseErrorView;

    open spec fn view(&self) -> ParseErrorView {
        match self {
            ParseError::EndOfFile => ParseErrorView::EndOfFile,
            ParseError::InvalidToken { token, error } => ParseErrorView::InvalidToken {
                token: token@,
                error: error@,
            },
        }
    }
}

impl ParseErrorView {
    /// The error as a line of text for a reader.
    pub open spec fn rendering(self) -> Seq<char> {
        match self {
            ParseErrorView::EndOfFile => "Unexpected EOF"@,
            ParseErrorView::InvalidToken { token, error } => "Invalid token: "@ + error + ": "@
                + token,
        }
    }
}

impl ParseError {
    /// The error as a line of text for a reader.
    pub fn to_string(&self) -> (line: String)
        ensures
            line@ == self@.rendering(),
    {
        match self {
            ParseError::EndOfFile => "Unexpected EOF".to_owned(),
            ParseError::InvalidToken { token, error } => {
                let mut line = "Invalid token: ".to_owned();
                line.append(error.as_str());
                line.append(": ");
                line.append(token.as_str());
                line
            },
        }
    }
}

/// The token that is taken next from `stack`: its last element. Where the
/// stack is empty this is the empty text.
pub open spec fn next_token(stack: Seq<Seq<char>>) -> Seq<char> {
    if stack.len() == 0 {
        Seq::empty()
    } else {
        stack.last()
    }
}

/// The stack after its next token was taken. An empty stack stays empty.
pub open spec fn after_next(stack: Seq<Seq<char>>) -> Seq<Seq<char>> {
    if stack.len() == 0 {
        stack
    } else {
        stack.drop_last()
    }
}

/// What a rule returned, as contracts see it.
pub open spec fn outcome<T: View>(r: Result<T, ParseError>) -> Result<T::V, ParseErrorView> {
    match r {
        Ok(value) => Ok(value@),
        Err(error) => Err(error@),
    }
}

/// A grammar rule that is parsed from the end of a stack of tokens.
pub trait Parse: Sized {
    /// Parses one value from the end of `tokens` and removes the tokens that
    /// belong to it: after a success the stack is what it was without the
    /// tokens at its end that were taken. After a failure the rule decides
    /// what is left of the stack, and nothing is promised of it here.
    fn parse(tokens: &mut Vec<String>) -> (r: Result<Self, ParseError>)
        ensures
            r is Ok ==> final(tokens).deep_view().is_prefix_of(old(tokens).deep_view()),
    ;
}

/// What [`ensure_tokens`] returns on `stack` for `literals`, and the stack
/// that it leaves.
pub open spec fn ensured(stack: Seq<Seq<char>>, literals: Seq<Seq<char>>) -> (
    Result<(), ParseErrorView>,
    Seq<Seq<char>>,
)
    decreases literals.len(),
{
    if literals.len() == 0 {
        (Ok(()), stack)
    } else if stack.len() == 0 {
        (Err(ParseErrorView::EndOfFile), stack)
    } else if stack.last() != literals[0] {
        (
            Err(
                ParseErrorView::InvalidToken {
                    token: stack.last(),
                    error: "Expected "@ + literals[0],
                },
            ),
            stack.drop_last(),
        )
    } else {
        ensured(stack.drop_last(), literals.drop_first())
    }
}

/// Takes one token for each of `literals`, in their order, and asks each to
/// be equal to its literal. It stops at the first that is not, or where the
/// stack is empty. What it took stays taken, the token that was not equal
/// too.
pub fn ensure_tokens(tokens: &mut Vec<String>, literals: &[&str]) -> (r: Result<(), ParseError>)
    ensures
        (outcome(r), final(tokens).deep_view()) == ensured(
            old(tokens).deep_view(),
            literals.deep_view(),
        ),
{
    let ghost all = literals.deep_view();
    let mut i: usize = 0;
    assert(all.skip(0) =~= all);
    while i < literals.len()
        invariant
            i <= literals.len(),
            all == literals.deep_view(),
            ensured(old(tokens).deep_view(), all) == ensured(tokens.deep_view(), all.skip(i as int)),
        decreases literals.len() - i,
    {
        let literal = literals[i];
        assert(all.skip(i as int)[0] == literal@);
        assert(all.skip(i as int).drop_first() =~= all.skip(i + 1));
        match pop_text(tokens) {
            None => {
                return Err(ParseError::EndOfFile);
            },
            Some(token) => {
                if !token.as_str().eq(literal) {
                    let mut error = "Expected ".to_owned();
                    error.append(literal);
                    return Err(ParseError::InvalidToken { token, error });
                }
            },
        }
        i += 1;
    }
    Ok(())
}

/// Whether `case` is the case that the next token of `stack` selects among
/// `literals`: the place of the first literal that is equal to it, or `None`
/// where none is.
pub open spec fn is_case(stack: Seq<Seq<char>>, literals: Seq<Seq<char>>, case: Option<usize>) -> bool {
    match case {
        Some(k) => {
            &&& k < literals.len()
            &&& literals[k as int] == next_token(stack)
            &&& forall|j: int| 0 <= j < k ==> #[trigger] literals[j] != next_token(stack)
        },
        None => forall|j: int| 0 <= j < literals.len() ==> #[trigger] literals[j] != next_token(stack),
    }
}

/// Looks at the next token, which is the empty text where the stack is
/// empty, and takes it if it is one of `literals`. Returns the place in
/// `literals` of the first that is equal to it: the case to go on with. With
/// `None` nothing was taken, and the caller goes on with its default.
pub fn dispatch_case(tokens: &mut Vec<String>, literals: &[&str]) -> (case: Option<usize>)
    ensures
        is_case(old(tokens).deep_view(), literals.deep_view(), case),
        final(tokens).deep_view() == if case is Some {
            after_next(old(tokens).deep_view())
        } else {
            old(tokens).deep_view()
        },
        case is None ==> *final(tokens) == *old(tokens),
{
    let ghost stack = tokens.deep_view();
    let mut k: usize = 0;
    while k < literals.len()
        invariant
            k <= literals.len(),
            *tokens == *old(tokens),
            stack == tokens.deep_view(),
            forall|j: int| 0 <= j < k ==> #[trigger] literals.deep_view()[j] != next_token(stack),
        decreases literals.len() - k,
    {
        let found = if tokens.len() == 0 {
            literals[k].is_empty()
        } else {
            tokens[tokens.len() - 1].as_str().eq(literals[k])
        };
        assert(literals.deep_view()[k as int] == literals[k as int]@);
        if found {
            assert(literals[k as int]@ =~= next_token(stack));
            pop_text(tokens);
            return Some(k);
        }
        k += 1;
    }
    None
}

/// Goes on with the handler that the next token selects. Where the next
/// token, which is the empty text where the stack is empty, is one of
/// `literals`, it is taken, and `on_case` is called with the place of the
/// first literal that is equal to it. Where it is none of them, nothing is
/// taken, and `on_default` is called. The handler is given the stack, and
/// what it returns is returned.
pub fn dispatch<T, C, D>(
    tokens: &mut Vec<String>,
    literals: &[&str],
    on_case: C,
    on_default: D,
) -> (r: T) where C: FnOnce(usize, &mut Vec<String>) -> T, D: FnOnce(&mut Vec<String>) -> T
    requires
        forall|k: usize, stack: &mut Vec<String>|
            is_case(old(tokens).deep_view(), literals.deep_view(), Some(k)) && stack.deep_view()
                == after_next(old(tokens).deep_view()) ==> call_requires(on_case, (k, stack)),
        forall|stack: &mut Vec<String>|
            is_case(old(tokens).deep_view(), literals.deep_view(), None) && *stack == *old(tokens)
                ==> call_requires(on_default, (stack,)),
    ensures
        exists|case: Option<usize>, stack: &mut Vec<String>|
            {
                &&& is_case(old(tokens).deep_view(), literals.deep_view(), case)
                &&& *final(stack) == *final(tokens)
                &&& match case {
                    Some(k) => {
                        &&& stack.deep_view() == after_next(old(tokens).deep_view())
                        &&& call_ensures(on_case, (k, stack), r)
                    },
                    None => *stack == *old(tokens) && call_ensures(on_default, (stack,), r),
                }
            },
{
    match dispatch_case(tokens, literals) {
        Some(k) => on_case(k, tokens),
        None => on_default(tokens),
    }
}

/// The first character of an identifier: an ASCII letter or an underscore.
pub open spec fn is_identifier_start(c: char) -> bool {
    ('a' <= c <= 'z') || ('A' <= c <= 'Z') || c == '_'
}

/// A later character of an identifier: an ASCII letter, an ASCII digit or
/// an underscore.
pub open spec fn is_identifier_part(c: char) -> bool {
    is_identifier_start(c) || ('0' <= c <= '9')
}

/// Whether `text` is an identifier.
pub open spec fn is_identifier(text: Seq<char>) -> bool {
    &&& text.len() > 0
    &&& is_identifier_start(text[0])
    &&& forall|i: int| 1 <= i < text.len() ==> is_identifier_part(#[trigger] text[i])
}

/// A name: not empty, starting with a letter or an underscore, and made of
/// letters, digits and underscores.
#[derive(Debug, Clone, PartialEq, Eq, Hash)]
pub struct Identifier(pub String);

impl View for Identifier {
    type V = Seq<char>;

    open spec fn view(&self) -> Seq<char> {
        self.0@
    }
}

impl Identifier {
    /// Whether the text that is held is an identifier. [`Parse::parse`]
    /// returns no other.
    pub open spec fn wf(&self) -> bool {
        is_identifier(self@)
    }

    /// What [`Parse::parse`] returns for this rule on `stack`.
    pub open spec fn parsed(stack: Seq<Seq<char>>) -> Result<Seq<char>, ParseErrorView> {
        if stack.len() == 0 {
            Err(ParseErrorView::EndOfFile)
        } else {
            let token = stack.last();
            if token.len() == 0 {
                Err(ParseErrorView::InvalidToken { token, error: "Empty identifier"@ })
            } else if !is_identifier_start(token[0]) {
                Err(
                    ParseErrorView::InvalidToken {
                        token,
                        error: "Identifiers must not start with a number and can only contain letters, numbers, and underscores"@,
                    },
                )
            } else if !is_identifier(token) {
                Err(
                    ParseErrorView::InvalidToken {
                        token,
                        error: "Identifiers can only contain letters, numbers, and underscores"@,
                    },
                )
            } else {
                Ok(token)
            }
        }
    }
}

impl Parse for Identifier {
    /// Takes the next token, which must be an identifier. The token is
    /// taken whether it is one or not.
    fn parse(tokens: &mut Vec<String>) -> (r: Result<Self, ParseError>)
        ensures
            outcome(r) == Identifier::parsed(old(tokens).deep_view()),
            final(tokens).deep_view() == after_next(old(tokens).deep_view()),
            r is Ok <==> old(tokens).len() > 0 && is_identifier(old(tokens).deep_view().last()),
            r matches Ok(name) ==> name.wf(),
    {
        let value = match pop_text(tokens) {
            Some(value) => value,
            None => {
                return Err(ParseError::EndOfFile);
            },
        };
        if value.as_str().is_empty() {
            return Err(
                ParseError::InvalidToken { token: value, error: "Empty identifier".to_owned() },
            );
        }
        let mut at_start = true;
        let mut start_ok = true;
        let mut rest_ok = true;
        for c in it: value.as_str().chars()
            invariant
                it.seq() == value@,
                at_start == (it.index() == 0),
                start_ok == (it.index() == 0 || is_identifier_start(value@[0])),
                rest_ok == forall|i: int|
                    1 <= i < it.index() ==> is_identifier_part(#[trigger] value@[i]),
        {
            let letter = (c >= 'a' && c <= 'z') || (c >= 'A' && c <= 'Z') || c == '_';
            if at_start {
                start_ok = letter;
                at_start = false;
            } else if !(letter || (c >= '0' && c <= '9')) {
                rest_ok = false;
            }
        }
        if !start_ok {
            return Err(
                ParseError::InvalidToken {
                    token: value,
                    error: "Identifiers must not start with a number and can only contain letters, numbers, and underscores".to_owned(),
                },
            );
        }
        if !rest_ok {
            return Err(
                ParseError::InvalidToken {
                    token: value,
                    error: "Identifiers can only contain letters, numbers, and underscores".to_owned(),
                },
            );
        }
        Ok(Identifier(value))
    }
}

/// A value written out in the text: a truth value, a whole number, a
/// floating-point number or a quoted string.
#[derive(Debug, Clone, PartialEq, Eq)]
pub enum Literal {
    Boolean(bool),
    Integer(isize),
    /// A floating-point number, held as the 64 bits of its IEEE 754 double.
    Float(u64),
    /// The text between two quotes, as it was written.
    String(String),
}

/// A [`Literal`] as contracts see it.
pub enum LiteralView {
    Boolean(bool),
    Integer(isize),
    Float(u64),
    String(Seq<char>),
}

impl View for Literal {
    type V = LiteralView;

    open spec fn view(&self) -> LiteralView {
        match self {
            Literal::Boolean(value) => LiteralView::Boolean(*value),
            Literal::Integer(value) => LiteralView::Integer(*value),
            Literal::Float(bits) => LiteralView::Float(*bits),
            Literal::String(text) => LiteralView::String(text@),
        }
    }
}

/// How many tokens stand before the next quote on `stack`: all of them
/// where it holds no quote.
pub open spec fn quoted_len(stack: Seq<Seq<char>>) -> nat
    decreases stack.len(),
{
    if stack.len() == 0 || stack.last() == "\""@ {
        0
    } else {
        1 + quoted_len(stack.drop_last())
    }
}

/// The tokens that stand before the next quote on `stack`, written one
/// after another in the order in which they are taken, with nothing between
/// them.
pub open spec fn quoted_text(stack: Seq<Seq<char>>) -> Seq<char>
    decreases stack.len(),
{
    if stack.len() == 0 || stack.last() == "\""@ {
        Seq::empty()
    } else {
        stack.last() + quoted_text(stack.drop_last())
    }
}

impl Literal {
    /// What [`Literal::number`] returns for `text`, and the stack that it
    /// leaves, where `text` was taken from above `stack`, `integer` is what
    /// it is as a whole number and `float` what it is as a floating-point
    /// number.
    pub open spec fn numbered(
        stack: Seq<Seq<char>>,
        text: Seq<char>,
        integer: Option<isize>,
        float: Option<u64>,
    ) -> (Result<LiteralView, ParseErrorView>, Seq<Seq<char>>) {
        match (integer, float) {
            (Some(value), _) => (Ok(LiteralView::Integer(value)), stack),
            (None, Some(bits)) => (Ok(LiteralView::Float(bits)), stack),
            (None, None) => (
                Err(ParseErrorView::InvalidToken { token: text, error: "Invalid literal"@ }),
                stack.push(text),
            ),
        }
    }

    /// The text that is read as a number where the rule is parsed from
    /// `stack`: the next token, with the token after it where it is a bare
    /// sign. `None` where the rule does not come to read a number.
    pub open spec fn number_text(stack: Seq<Seq<char>>) -> Option<Seq<char>> {
        if stack.len() == 0 {
            None
        } else {
            let token = stack.last();
            let rest = stack.drop_last();
            if token == "true"@ || token == "false"@ || token == "\""@ {
                None
            } else if token == "+"@ || token == "-"@ {
                if rest.len() == 0 {
                    None
                } else {
                    Some(token + rest.last())
                }
            } else {
                Some(token)
            }
        }
    }

    /// The text that the reader of floating-point numbers is asked about
    /// where the rule is parsed from `stack`: the text that is read as a
    /// number, where it is no whole number. `None` where the reader is not
    /// asked.
    pub open spec fn float_query(stack: Seq<Seq<char>>) -> Option<Seq<char>> {
        match Self::number_text(stack) {
            Some(text) => if in_isize(integer_value(text)) is None {
                Some(text)
            } else {
                None
            },
            None => None,
        }
    }

    /// What [`Literal::parse_with`] returns on `stack`, and the stack that
    /// it leaves, where `float` is the answer of the reader of
    /// floating-point numbers.
    pub open spec fn parsed(stack: Seq<Seq<char>>, float: Option<u64>) -> (
        Result<LiteralView, ParseErrorView>,
        Seq<Seq<char>>,
    ) {
        if stack.len() == 0 {
            (Err(ParseErrorView::EndOfFile), stack)
        } else {
            let token = stack.last();
            let rest = stack.drop_last();
            if token == "true"@ {
                (Ok(LiteralView::Boolean(true)), rest)
            } else if token == "false"@ {
                (Ok(LiteralView::Boolean(false)), rest)
            } else if token == "\""@ {
                let n = quoted_len(rest);
                if n == rest.len() {
                    (Err(ParseErrorView::EndOfFile), Seq::empty())
                } else {
                    (Ok(LiteralView::String(quoted_text(rest))), rest.take(rest.len() - n - 1))
                }
            } else if token == "+"@ || token == "-"@ {
                if rest.len() == 0 {
                    (Err(ParseErrorView::EndOfFile), rest)
                } else {
                    let text = token + rest.last();
                    Self::numbered(rest.drop_last(), text, in_isize(integer_value(text)), float)
                }
            } else {
                Self::numbered(rest, token, in_isize(integer_value(token)), float)
            }
        }
    }

    /// Decides what `text` is, which was taken from `tokens` to be read as a
    /// number: the whole number `integer` where there is one, else the
    /// floating-point number `float` where there is one. Where there is
    /// neither, `text` goes back on the stack as one token, and the rule
    /// fails.
    pub fn number(
        tokens: &mut Vec<String>,
        text: String,
        integer: Option<isize>,
        float: Option<u64>,
    ) -> (r: Result<Literal, ParseError>)
        ensures
            (outcome(r), final(tokens).deep_view()) == Self::numbered(
                old(tokens).deep_view(),
                text@,
                integer,
                float,
            ),
    {
        match integer {
            Some(value) => Ok(Literal::Integer(value)),
            None => match float {
                Some(bits) => Ok(Literal::Float(bits)),
                None => {
                    push_text(tokens, text.clone());
                    Err(ParseError::InvalidToken { token: text, error: "Invalid literal".to_owned() })
                },
            },
        }
    }

    /// Parses a literal from the end of `tokens`. `read_float` is asked
    /// what a text is as a floating-point number; it answers with the bits
    /// of the double, or `None` where the text is no such number. It is
    /// asked at most once, about a text that is no whole number.
    ///
    /// `true` and `false` are truth values. A quote opens a string: the
    /// tokens up to the next quote are its text, and where no quote follows
    /// the stack is used up. Any other token is read as a number, a bare
    /// sign together with the token after it. A text that is no number goes
    /// back on the stack.
    pub fn parse_with<F: Fn(&str) -> Option<u64>>(tokens: &mut Vec<String>, read_float: F) -> (r:
        Result<Literal, ParseError>)
        requires
            forall|text: &str|
                Self::number_text(old(tokens).deep_view()) == Some(text@) ==> call_requires(
                    read_float,
                    (text,),
                ),
        ensures
            match Self::float_query(old(tokens).deep_view()) {
                Some(query) => exists|text: &str, float: Option<u64>|
                    {
                        &&& text@ == query
                        &&& call_ensures(read_float, (text,), float)
                        &&& (outcome(r), final(tokens).deep_view()) == Self::parsed(
                            old(tokens).deep_view(),
                            float,
                        )
                    },
                None => (outcome(r), final(tokens).deep_view()) == Self::parsed(
                    old(tokens).deep_view(),
                    None,
                ),
            },
            r is Ok ==> final(tokens).deep_view().is_prefix_of(old(tokens).deep_view()),
    {
        let ghost stack = tokens.deep_view();
        let mut text = match pop_text(tokens) {
            Some(token) => token,
            None => {
                return Err(ParseError::EndOfFile);
            },
        };
        let ghost rest = stack.drop_last();
        assert(rest.is_prefix_of(stack));
        if text.as_str().eq("true") {
            return Ok(Literal::Boolean(true));
        }
        if text.as_str().eq("false") {
            return Ok(Literal::Boolean(false));
        }
        if text.as_str().eq("\"") {
            let mut string = String::new();
            while tokens.len() > 0 && !tokens[tokens.len() - 1].as_str().eq("\"")
                invariant
                    tokens.len() <= rest.len(),
                    tokens.deep_view() == rest.take(tokens.len() as int),
                    quoted_text(rest) == string@ + quoted_text(tokens.deep_view()),
                    quoted_len(rest) == rest.len() - tokens.len() + quoted_len(tokens.deep_view()),
                decreases tokens.len(),
            {
                let ghost now = tokens.deep_view();
                let token = pop_text(tokens).unwrap();
                assert(now.drop_last() =~= rest.take(tokens.len() as int));
                assert(string@ + (token@ + quoted_text(now.drop_last())) =~= (string@ + token@)
                    + quoted_text(now.drop_last()));
                string.append(token.as_str());
            }
            let ghost now = tokens.deep_view();
            if tokens.len() == 0 {
                assert(now =~= Seq::empty());
                return Err(ParseError::EndOfFile);
            }
            let quote = ["\""];
            proof {
                assert(string@ + Seq::<char>::empty() =~= string@);
                assert(quote.deep_view() =~= seq!["\""@]);
                assert(quote.deep_view().drop_first() =~= Seq::<Seq<char>>::empty());
                assert(ensured(now, quote.deep_view()) == ensured(now.drop_last(), Seq::empty()));
                assert(now.drop_last() =~= rest.take(rest.len() - quoted_len(rest) - 1));
                assert(now.drop_last().is_prefix_of(stack));
            }
            match ensure_tokens(tokens, quote.as_slice()) {
                Ok(()) => {},
                Err(error) => {
                    return Err(error);
                },
            }
            return Ok(Literal::String(string));
        }
        if text.as_str().eq("+") || text.as_str().eq("-") {
            match pop_text(tokens) {
                Some(token) => {
                    text.append(token.as_str());
                    assert(rest.drop_last().is_prefix_of(stack));
                },
                None => {
                    return Err(ParseError::EndOfFile);
                },
            }
        }
        assert(Self::number_text(stack) == Some(text@));
        let integer = read_integer(text.as_str());
        let float = match integer {
            Some(_) => None,
            None => read_float(text.as_str()),
        };
        Self::number(tokens, text, integer, float)
    }
}

/// An identifier is one token of its own, and from the stack of that token
/// the rule for identifiers gives it back.
pub proof fn lemma_identifier_is_one_token(text: Seq<char>)
    requires
        is_identifier(text),
    ensures
        tokens_of(text) == seq![text],
        Identifier::parsed(stack_of(text)) == Ok::<Seq<char>, ParseErrorView>(text),
{
    assert forall|j: int| 0 <= j < text.len() implies special_prefix(#[trigger] text.skip(j))
        is None by {
        assert(is_identifier_part(text[j]));
        lemma_special_prefix(text.skip(j));
        if j + 1 < text.len() {
            assert(is_identifier_part(text[j + 1]));
        }
    }
    assert(is_word(text));
    lemma_token_is_one_token(text);
    assert(seq![text].reverse() =~= seq![text]);
}

/// [`ensure_tokens`] succeeds where the stack ends with the literals, the
/// first of them last, and then leaves the stack without them. It fails
/// everywhere else.
pub proof fn lemma_ensured_ok(stack: Seq<Seq<char>>, literals: Seq<Seq<char>>)
    ensures
        ensured(stack, literals).0 is Ok <==> literals.len() <= stack.len() && forall|i: int|
            0 <= i < literals.len() ==> stack[stack.len() - 1 - i] == #[trigger] literals[i],
        ensured(stack, literals).0 is Ok ==> ensured(stack, literals).1 == stack.take(
            stack.len() - literals.len(),
        ),
    decreases literals.len(),
{
    if literals.len() == 0 {
        assert(stack.take(stack.len() as int) =~= stack);
    } else if stack.len() > 0 {
        let below = stack.drop_last();
        let later = literals.drop_first();
        lemma_ensured_ok(below, later);
        if stack.last() == literals[0] {
            if ensured(below, later).0 is Ok {
                assert forall|i: int| 0 <= i < literals.len() implies stack[stack.len() - 1 - i]
                    == #[trigger] literals[i] by {
                    if i > 0 {
                        assert(later[i - 1] == literals[i]);
                    }
                }
                assert(below.take(below.len() - later.len()) =~= stack.take(
                    stack.len() - literals.len(),
                ));
            }
            if literals.len() <= stack.len() && forall|i: int|
                0 <= i < literals.len() ==> stack[stack.len() - 1 - i] == #[trigger] literals[i] {
                assert forall|i: int| 0 <= i < later.len() implies below[below.len() - 1 - i]
                    == #[trigger] later[i] by {
                    assert(later[i] == literals[i + 1]);
                }
            }
        } else {
            assert(stack[stack.len() - 1 - 0] != literals[0]);
        }
    }
}

/// No more tokens stand before the next quote than the stack holds.
pub proof fn lemma_quoted_len(stack: Seq<Seq<char>>)
    ensures
        quoted_len(stack) <= stack.len(),
    decreases stack.len(),
{
    if !(stack.len() == 0 || stack.last() == "\""@) {
        lemma_quoted_len(stack.drop_last());
    }
}

/// A literal that was parsed took its tokens from the end of the stack and
/// left the others as they were.
pub proof fn lemma_literal_takes_from_the_end(stack: Seq<Seq<char>>, float: Option<u64>)
    requires
        Literal::parsed(stack, float).0 is Ok,
    ensures
        Literal::parsed(stack, float).1.is_prefix_of(stack),
{
    let token = stack.last();
    let rest = stack.drop_last();
    let left = Literal::parsed(stack, float).1;
    assert(rest =~= stack.subrange(0, rest.len() as int));
    if token == "true"@ || token == "false"@ {
    } else if token == "\""@ {
        lemma_quoted_len(rest);
        assert(left =~= stack.subrange(0, left.len() as int));
    } else if rest.len() > 0 {
        assert(rest.drop_last() =~= stack.subrange(0, rest.len() - 1));
    }
}

/// A text that is no number goes back on the stack: after the rule has
/// failed on it, it is the next token. Where it was one token, the stack is
/// as it was before.
pub proof fn lemma_invalid_literal_is_restored(stack: Seq<Seq<char>>, float: Option<u64>)
    requires
        Literal::parsed(stack, float).0 matches Err(ParseErrorView::InvalidToken { .. }),
    ensures
        Literal::parsed(stack, float).0 matches Err(ParseErrorView::InvalidToken { token, error })
            && error == "Invalid literal"@ && Literal::number_text(stack) == Some(token)
            && next_token(Literal::parsed(stack, float).1) == token,
        stack.last() != "+"@ && stack.last() != "-"@ ==> Literal::parsed(stack, float).1 == stack,
{
    let token = stack.last();
    let rest = stack.drop_last();
    if token != "+"@ && token != "-"@ {
        assert(rest.push(token) =~= stack);
    }
}

} // verus!
