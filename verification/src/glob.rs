//! Glob tokens and the tokenizer that reads them from a pattern.

use crate::charset::CharSet;
use vstd::prelude::*;

verus! {

/// A token as a mathematical value: the view of a [`Glob`].
///
/// A character set is the sequence of its members in enumeration order.
pub enum Token {
    Literal(char),
    CharacterSet(Seq<char>),
    RepeatedLiteral(char),
    RepeatedCharacterSet(Seq<char>),
    OptionalLiteral(char),
    OptionalCharacterSet(Seq<char>),
}

/// One parsed unit of a glob pattern.
#[derive(Debug)]
pub enum Glob {
    /// A fixed character.
    Literal(char),
    /// Exactly one member of the set stands at this position.
    CharacterSet(CharSet),
    /// A literal followed by `*`.
    RepeatedLiteral(char),
    /// A character set followed by `*`.
    RepeatedCharacterSet(CharSet),
    /// A literal followed by `?`: present once or not at all.
    OptionalLiteral(char),
    /// A character set followed by `?`: one member, or nothing.
    OptionalCharacterSet(CharSet),
}

impl View for Glob {
    type V = Token;

    open spec fn view(&self) -> Token {
        match *self {
            Glob::Literal(c) => Token::Literal(c),
            Glob::CharacterSet(set) => Token::CharacterSet(set@),
            Glob::RepeatedLiteral(c) => Token::RepeatedLiteral(c),
            Glob::RepeatedCharacterSet(set) => Token::RepeatedCharacterSet(set@),
            Glob::OptionalLiteral(c) => Token::OptionalLiteral(c),
            Glob::OptionalCharacterSet(set) => Token::OptionalCharacterSet(set@),
        }
    }
}

impl DeepView for Glob {
    type V = Token;

    open spec fn deep_view(&self) -> Token {
        self@
    }
}

/// Why a pattern is not a glob.
#[derive(Debug, Clone, Copy, PartialEq, Eq, Structural)]
pub enum ParseError {
    /// `*` or `?` with no token before it.
    NoPrecedingToken,
    /// `*` after a token that is neither a literal nor a character set.
    InvalidRepeatTarget,
    /// `?` after a token that is neither a literal nor a character set.
    InvalidOptionalTarget,
    /// A character outside the pattern alphabet.
    UnsupportedCharacter(char),
}

/// The tokenizer between two characters: the tokens read so far, and whether
/// a `[` is still open.
pub struct ParseState {
    pub tokens: Seq<Token>,
    pub in_bracket: bool,
}

/// The ASCII letters and digits.
pub open spec fn is_alphanumeric(c: char) -> bool {
    ||| 'A' <= c <= 'Z'
    ||| 'a' <= c <= 'z'
    ||| '0' <= c <= '9'
}

/// `set` with `c` as a member: at the end if it is new, unchanged otherwise.
pub open spec fn with_member(set: Seq<char>, c: char) -> Seq<char> {
    if set.contains(c) {
        set
    } else {
        set.push(c)
    }
}

/// `tokens` with its last token replaced by `token`.
pub open spec fn replace_last(tokens: Seq<Token>, token: Token) -> Seq<Token> {
    tokens.drop_last().push(token)
}

/// What one character does to the tokenizer.
///
/// A letter or digit joins the set at the end of the tokens if a bracket is
/// open and the last token is a plain character set; otherwise it becomes a
/// literal. `*` and `?` fold the last token, which must be a literal or a
/// plain character set. `[` starts an empty set and opens the bracket; `]`
/// closes the bracket, whether or not one was open.
pub open spec fn parse_step(state: ParseState, c: char) -> Result<ParseState, ParseError> {
    let tokens = state.tokens;
    if is_alphanumeric(c) {
        if state.in_bracket && tokens.len() > 0 && tokens.last() is CharacterSet {
            let set = tokens.last()->CharacterSet_0;
            Ok(ParseState { tokens: replace_last(tokens, Token::CharacterSet(with_member(set, c))), ..state })
        } else {
            Ok(ParseState { tokens: tokens.push(Token::Literal(c)), ..state })
        }
    } else if c == '*' {
        if tokens.len() == 0 {
            Err(ParseError::NoPrecedingToken)
        } else {
            match tokens.last() {
                Token::Literal(l) => Ok(
                    ParseState { tokens: replace_last(tokens, Token::RepeatedLiteral(l)), ..state },
                ),
                Token::CharacterSet(set) => Ok(
                    ParseState {
                        tokens: replace_last(tokens, Token::RepeatedCharacterSet(set)),
                        ..state
                    },
                ),
                _ => Err(ParseError::InvalidRepeatTarget),
            }
        }
    } else if c == '?' {
        if tokens.len() == 0 {
            Err(ParseError::NoPrecedingToken)
        } else {
            match tokens.last() {
                Token::Literal(l) => Ok(
                    ParseState { tokens: replace_last(tokens, Token::OptionalLiteral(l)), ..state },
                ),
                Token::CharacterSet(set) => Ok(
                    ParseState {
                        tokens: replace_last(tokens, Token::OptionalCharacterSet(set)),
                        ..state
                    },
                ),
                _ => Err(ParseError::InvalidOptionalTarget),
            }
        }
    } else if c == '[' {
        Ok(ParseState { tokens: tokens.push(Token::CharacterSet(Seq::empty())), in_bracket: true })
    } else if c == ']' {
        Ok(ParseState { in_bracket: false, ..state })
    } else {
        Err(ParseError::UnsupportedCharacter(c))
    }
}

/// The tokenizer after reading all of `pattern`, or the first error on the way.
pub open spec fn parse_state(pattern: Seq<char>) -> Result<ParseState, ParseError>
    decreases pattern.len(),
{
    if pattern.len() == 0 {
        Ok(ParseState { tokens: Seq::empty(), in_bracket: false })
    } else {
        match parse_state(pattern.drop_last()) {
            Ok(state) => parse_step(state, pattern.last()),
            Err(e) => Err(e),
        }
    }
}

/// The tokens of `pattern`, or the error at the first character that cannot
/// be read.
pub open spec fn parse_spec(pattern: Seq<char>) -> Result<Seq<Token>, ParseError> {
    match parse_state(pattern) {
        Ok(state) => Ok(state.tokens),
        Err(e) => Err(e),
    }
}

/// An error stays: once a prefix of a pattern fails, the pattern fails with
/// the same error.
pub proof fn lemma_error_is_final(pattern: Seq<char>, k: int)
    requires
        0 <= k <= pattern.len(),
        parse_state(pattern.take(k)) is Err,
    ensures
        parse_state(pattern) == parse_state(pattern.take(k)),
    decreases pattern.len() - k,
{
    if k == pattern.len() {
        assert(pattern.take(k) =~= pattern);
    } else {
        assert(pattern.take(k + 1).drop_last() =~= pattern.take(k));
        lemma_error_is_final(pattern, k + 1);
    }
}

fn is_alnum(c: char) -> (b: bool)
    ensures
        b == is_alphanumeric(c),
{
    ('A' <= c && c <= 'Z') || ('a' <= c && c <= 'z') || ('0' <= c && c <= '9')
}

impl Glob {
    /// Reads the tokens of a pattern, left to right and without lookahead.
    ///
    /// Fails at the first character that cannot be read, with nothing kept of
    /// the tokens before it.
    pub fn parse(s: String) -> (result: Result<Vec<Glob>, ParseError>)
        ensures
            match result {
                Ok(tokens) => parse_spec(s@) == Ok::<Seq<Token>, ParseError>(tokens.deep_view()),
                Err(e) => parse_spec(s@) == Err::<Seq<Token>, ParseError>(e),
            },
    {
        let mut g: Vec<Glob> = Vec::new();
        let mut in_cs = false;
        assert(g.deep_view() =~= Seq::<Token>::empty());
        for ch in it: s.as_str().chars()
            invariant
                it.seq() == s@,
                parse_state(s@.take(it.index())) == Ok::<ParseState, ParseError>(
                    ParseState { tokens: g.deep_view(), in_bracket: in_cs },
                ),
        {
            let ghost i = it.index();
            let ghost before = ParseState { tokens: g.deep_view(), in_bracket: in_cs };
            assert(s@.take(i + 1).drop_last() =~= s@.take(i));
            if is_alnum(ch) {
                match g.pop() {
                    Some(Glob::CharacterSet(mut cs)) if in_cs => {
                        cs.insert(ch);
                        g.push(Glob::CharacterSet(cs));
                    },
                    Some(last) => {
                        g.push(last);
                        g.push(Glob::Literal(ch));
                    },
                    None => {
                        g.push(Glob::Literal(ch));
                    },
                }
            } else if ch == '*' {
                match g.pop() {
                    Some(Glob::Literal(lch)) => {
                        g.push(Glob::RepeatedLiteral(lch));
                    },
                    Some(Glob::CharacterSet(cs)) => {
                        g.push(Glob::RepeatedCharacterSet(cs));
                    },
                    None => {
                        proof {
                            lemma_error_is_final(s@, i + 1);
                        }
                        return Err(ParseError::NoPrecedingToken);
                    },
                    _ => {
                        proof {
                            lemma_error_is_final(s@, i + 1);
                        }
                        return Err(ParseError::InvalidRepeatTarget);
                    },
                }
            } else if ch == '?' {
                match g.pop() {
                    Some(Glob::Literal(lch)) => {
                        g.push(Glob::OptionalLiteral(lch));
                    },
                    Some(Glob::CharacterSet(cs)) => {
                        g.push(Glob::OptionalCharacterSet(cs));
                    },
                    None => {
                        proof {
                            lemma_error_is_final(s@, i + 1);
                        }
                        return Err(ParseError::NoPrecedingToken);
                    },
                    _ => {
                        proof {
                            lemma_error_is_final(s@, i + 1);
                        }
                        return Err(ParseError::InvalidOptionalTarget);
                    },
                }
            } else if ch == '[' {
                in_cs = true;
                g.push(Glob::CharacterSet(CharSet::new()));
            } else if ch == ']' {
                in_cs = false;
            } else {
                proof {
                    lemma_error_is_final(s@, i + 1);
                }
                return Err(ParseError::UnsupportedCharacter(ch));
            }
            assert(g.deep_view() =~= parse_step(before, ch)->Ok_0.tokens);
        }
        assert(s@.take(s@.len() as int) =~= s@);
        Ok(g)
    }
}

} // verus!
