//! Expansion of tokens into strings.

use crate::charset::CharSet;
use crate::estimate::{token_count, total_count};
use crate::glob::{Glob, ParseError, ParseState, Token, is_alphanumeric, parse_spec, parse_state};
use std::collections::VecDeque;
use vstd::arithmetic::div_mod::{lemma_fundamental_div_mod_converse, lemma_multiply_divide_lt};
use vstd::prelude::*;

verus! {

/// Every string of `out` with `c` at its end.
pub open spec fn append_each(out: Seq<Seq<char>>, c: char) -> Seq<Seq<char>> {
    Seq::new(out.len(), |i: int| out[i].push(c))
}

/// `s` followed by each member of `set` in turn.
pub open spec fn variants(s: Seq<char>, set: Seq<char>) -> Seq<Seq<char>> {
    Seq::new(set.len(), |j: int| s.push(set[j]))
}

/// Every string of `out` followed by every member of `set`: the variants of
/// the first string, then those of the second, and so on.
pub open spec fn cross(out: Seq<Seq<char>>, set: Seq<char>) -> Seq<Seq<char>> {
    Seq::new(
        out.len() * set.len(),
        |k: int| out[k / (set.len() as int)].push(set[k % (set.len() as int)]),
    )
}

/// What one token does to the strings built so far.
///
/// A literal or a character set that meets no string starts from the empty
/// string. A repeated token adds no character and no string. An optional
/// token keeps the strings as they are and adds, after them, the strings
/// with the token applied.
pub open spec fn expand_step(out: Seq<Seq<char>>, token: Token) -> Seq<Seq<char>> {
    match token {
        Token::Literal(c) => if out.len() == 0 {
            seq![seq![c]]
        } else {
            append_each(out, c)
        },
        Token::CharacterSet(set) => if out.len() == 0 {
            cross(seq![Seq::empty()], set)
        } else {
            cross(out, set)
        },
        Token::RepeatedLiteral(_) => out,
        Token::RepeatedCharacterSet(_) => out,
        Token::OptionalLiteral(c) => out + append_each(out, c),
        Token::OptionalCharacterSet(set) => out + cross(out, set),
    }
}

/// The strings that `tokens` expand to, in the order in which they are made.
pub open spec fn expansion(tokens: Seq<Token>) -> Seq<Seq<char>>
    decreases tokens.len(),
{
    if tokens.len() == 0 {
        Seq::empty()
    } else {
        expand_step(expansion(tokens.drop_last()), tokens.last())
    }
}

/// The strings that `pattern` stands for, or the reason why it is no glob.
pub open spec fn generate_spec(pattern: Seq<char>) -> Result<Seq<Seq<char>>, ParseError> {
    match parse_spec(pattern) {
        Ok(tokens) => Ok(expansion(tokens)),
        Err(e) => Err(e),
    }
}

/// The crossing of one more string adds that string's variants at the end.
pub proof fn lemma_cross_push(out: Seq<Seq<char>>, s: Seq<char>, set: Seq<char>)
    ensures
        cross(out.push(s), set) =~= cross(out, set) + variants(s, set),
{
    let m = set.len() as int;
    let n = out.len() as int;
    let left = cross(out.push(s), set);
    let right = cross(out, set) + variants(s, set);
    assert((n + 1) * m == n * m + m) by (nonlinear_arith);
    assert(n * m >= 0) by (nonlinear_arith)
        requires
            n >= 0,
            m >= 0,
    ;
    assert(left.len() == right.len());
    assert forall|k: int| 0 <= k < left.len() implies left[k] == right[k] by {
        if k < n * m {
            lemma_multiply_divide_lt(k, m, n);
            assert(0 <= k / m) by (nonlinear_arith)
                requires
                    0 <= k,
                    0 < m,
            ;
        } else {
            lemma_fundamental_div_mod_converse(k, m, n, k - n * m);
        }
    }
}

/// Appends `c` to every string of the queue, keeping their order.
fn push_to_each(q: &mut VecDeque<String>, c: char)
    ensures
        final(q).deep_view() == append_each(old(q).deep_view(), c),
{
    let n: usize = q.len();
    let ghost before = q.deep_view();
    let mut i: usize = 0;
    while i < n
        invariant
            i <= n,
            n == before.len(),
            q@.len() == n,
            forall|k: int| 0 <= k < n - i ==> (#[trigger] q@[k])@ == before[i + k],
            forall|k: int| n - i <= k < n ==> (#[trigger] q@[k])@ == before[k - (n - i)].push(c),
        decreases n - i,
    {
        let mut s: String = q.pop_front().unwrap();
        s.push(c);
        q.push_back(s);
        i += 1;
    }
}

/// Adds, after the strings of the queue, a copy of each with `c` at its end.
fn push_optional(q: &mut VecDeque<String>, c: char)
    ensures
        final(q).deep_view() == old(q).deep_view() + append_each(old(q).deep_view(), c),
{
    let n: usize = q.len();
    let ghost before = q.deep_view();
    let mut i: usize = 0;
    while i < n
        invariant
            i <= n,
            n == before.len(),
            q@.len() == n + i,
            forall|k: int| 0 <= k < n ==> (#[trigger] q@[k])@ == before[k],
            forall|k: int| n <= k < n + i ==> (#[trigger] q@[k])@ == before[k - n].push(c),
        decreases n - i,
    {
        let mut s: String = q[i].clone();
        s.push(c);
        q.push_back(s);
        i += 1;
    }
}

/// Adds, after the strings of the queue, a copy of each.
fn duplicate(q: &mut VecDeque<String>)
    ensures
        final(q).deep_view() == old(q).deep_view() + old(q).deep_view(),
{
    let n: usize = q.len();
    let ghost before = q.deep_view();
    let mut i: usize = 0;
    while i < n
        invariant
            i <= n,
            n == before.len(),
            q@.len() == n + i,
            forall|k: int| 0 <= k < n ==> (#[trigger] q@[k])@ == before[k],
            forall|k: int| n <= k < n + i ==> (#[trigger] q@[k])@ == before[k - n],
        decreases n - i,
    {
        let s: String = q[i].clone();
        q.push_back(s);
        i += 1;
    }
}

/// Adds the variants of `s` over `cs` at the end of the queue.
fn push_variants(q: &mut VecDeque<String>, s: &String, cs: &CharSet)
    ensures
        final(q).deep_view() == old(q).deep_view() + variants(s@, cs@),
{
    let m: usize = cs.len();
    let ghost before = q.deep_view();
    let mut j: usize = 0;
    while j < m
        invariant
            j <= m,
            m == cs@.len(),
            q@.len() == before.len() + j,
            forall|k: int| 0 <= k < before.len() ==> (#[trigger] q@[k])@ == before[k],
            forall|k: int|
                before.len() <= k < before.len() + j ==> (#[trigger] q@[k])@ == s@.push(
                    cs@[k - before.len()],
                ),
        decreases m - j,
    {
        let mut t: String = s.clone();
        t.push(cs.get(j));
        q.push_back(t);
        j += 1;
    }
}

/// Takes the first `n` strings off the queue and adds their crossing with
/// `cs` at its end.
fn cross_front(q: &mut VecDeque<String>, n: usize, cs: &CharSet)
    requires
        n <= old(q)@.len(),
    ensures
        final(q).deep_view() == old(q).deep_view().skip(n as int) + cross(
            old(q).deep_view().take(n as int),
            cs@,
        ),
{
    let ghost before = q.deep_view();
    let mut i: usize = 0;
    assert(cross(before.take(0), cs@) =~= Seq::<Seq<char>>::empty()) by {
        assert(0 * cs@.len() == 0) by (nonlinear_arith);
    }
    while i < n
        invariant
            i <= n <= before.len(),
            q.deep_view() == before.skip(i as int) + cross(before.take(i as int), cs@),
        decreases n - i,
    {
        let ghost rest = q.deep_view();
        assert(rest.len() == q@.len() && rest.len() >= before.skip(i as int).len());
        assert(rest[0] == q@[0]@ && rest[0] == before.skip(i as int)[0]);
        let s: String = q.pop_front().unwrap();
        assert(q.deep_view() =~= before.skip(i + 1) + cross(before.take(i as int), cs@)) by {
            assert(q.deep_view() =~= rest.skip(1));
        }
        push_variants(q, &s, cs);
        proof {
            lemma_cross_push(before.take(i as int), s@, cs@);
            assert(before.take(i as int).push(s@) =~= before.take(i + 1));
        }
        i += 1;
    }
}

/// Expands tokens into the strings they stand for.
///
/// The tokens are applied in order, each to all the strings built so far.
/// A repeated token is not unrolled: it adds nothing, whatever `limit` is.
#[allow(unused_variables)]
pub fn expand(tokens: &Vec<Glob>, limit: usize) -> (strings: VecDeque<String>)
    ensures
        strings.deep_view() == expansion(tokens.deep_view()),
{
    let ghost all = tokens.deep_view();
    let mut generated_strings: VecDeque<String> = VecDeque::new();
    let mut k: usize = 0;
    while k < tokens.len()
        invariant
            k <= tokens.len(),
            all == tokens.deep_view(),
            all.len() == tokens.len(),
            generated_strings.deep_view() == expansion(all.take(k as int)),
        decreases tokens.len() - k,
    {
        proof {
            assert(all.take(k + 1).drop_last() =~= all.take(k as int));
            assert(all.take(k + 1).last() == tokens[k as int]@);
        }
        match &tokens[k] {
            Glob::Literal(c) => {
                if generated_strings.len() == 0 {
                    let mut s: String = String::new();
                    s.push(*c);
                    generated_strings.push_back(s);
                } else {
                    push_to_each(&mut generated_strings, *c);
                }
            },
            Glob::CharacterSet(cs) => {
                if generated_strings.len() == 0 {
                    generated_strings.push_back(String::new());
                    assert(generated_strings.deep_view() =~= seq![Seq::<char>::empty()]);
                }
                let ghost out = generated_strings.deep_view();
                let n: usize = generated_strings.len();
                cross_front(&mut generated_strings, n, cs);
                assert(out.take(n as int) =~= out);
            },
            Glob::RepeatedLiteral(_) => {},
            Glob::RepeatedCharacterSet(_) => {},
            Glob::OptionalLiteral(c) => {
                push_optional(&mut generated_strings, *c);
            },
            Glob::OptionalCharacterSet(cs) => {
                let ghost out = generated_strings.deep_view();
                let n: usize = generated_strings.len();
                duplicate(&mut generated_strings);
                cross_front(&mut generated_strings, n, cs);
                assert((out + out).take(n as int) =~= out);
            },
        }
        k += 1;
    }
    assert(all.take(k as int) =~= all);
    generated_strings
}

/// Tokenizes `pattern` and expands the tokens.
///
/// A pattern that cannot be tokenized gives the tokenizer's error and no
/// strings at all.
pub fn generate_from_glob(pattern: String, limit: usize) -> (result: Result<
    VecDeque<String>,
    ParseError,
>)
    ensures
        match result {
            Ok(strings) => generate_spec(pattern@) == Ok::<Seq<Seq<char>>, ParseError>(
                strings.deep_view(),
            ),
            Err(e) => generate_spec(pattern@) == Err::<Seq<Seq<char>>, ParseError>(e),
        },
{
    match Glob::parse(pattern) {
        Ok(g) => Ok(expand(&g, limit)),
        Err(e) => Err(e),
    }
}

/// The literal token for `c`.
pub open spec fn literal(c: char) -> Token {
    Token::Literal(c)
}

/// One literal for each character of `pattern`.
pub open spec fn literals(pattern: Seq<char>) -> Seq<Token> {
    Seq::new(pattern.len(), |i: int| literal(pattern[i]))
}

/// A pattern of letters and digits is read as its characters, one literal
/// each, and leaves no bracket open.
pub proof fn lemma_parse_alphanumeric(pattern: Seq<char>)
    requires
        forall|i: int| 0 <= i < pattern.len() ==> is_alphanumeric(#[trigger] pattern[i]),
    ensures
        parse_state(pattern) == Ok::<ParseState, ParseError>(
            ParseState { tokens: literals(pattern), in_bracket: false },
        ),
        parse_spec(pattern) == Ok::<Seq<Token>, ParseError>(literals(pattern)),
    decreases pattern.len(),
{
    if pattern.len() == 0 {
        assert(literals(pattern) =~= Seq::<Token>::empty());
    } else {
        let front = pattern.drop_last();
        lemma_parse_alphanumeric(front);
        assert(literals(front).push(Token::Literal(pattern.last())) =~= literals(pattern));
    }
}

/// A pattern of letters and digits, not empty, expands to one string: the
/// pattern itself.
pub proof fn lemma_alphanumeric_expands_to_itself(pattern: Seq<char>)
    requires
        pattern.len() > 0,
        forall|i: int| 0 <= i < pattern.len() ==> is_alphanumeric(#[trigger] pattern[i]),
    ensures
        expansion(literals(pattern)) == seq![pattern],
        generate_spec(pattern) == Ok::<Seq<Seq<char>>, ParseError>(seq![pattern]),
    decreases pattern.len(),
{
    let front = pattern.drop_last();
    let c = pattern.last();
    assert(literals(pattern).drop_last() =~= literals(front));
    if front.len() == 0 {
        assert(expansion(literals(front)) =~= Seq::<Seq<char>>::empty());
        assert(seq![c] =~= pattern);
    } else {
        lemma_alphanumeric_expands_to_itself(front);
        assert(front.push(c) =~= pattern);
    }
    lemma_parse_alphanumeric(pattern);
}

/// Expansion has no memory: two expansions of the same tokens hold the same
/// strings in the same order, whatever was expanded in between and whatever
/// the limits were.
pub proof fn lemma_expansion_repeats(
    tokens: Seq<Token>,
    first: Seq<Seq<char>>,
    second: Seq<Seq<char>>,
)
    requires
        first == expansion(tokens),
        second == expansion(tokens),
    ensures
        first == second,
{
}

/// How many strings one token makes of `out`.
pub proof fn lemma_expand_step_len(out: Seq<Seq<char>>, token: Token)
    ensures
        expand_step(out, token).len() == match token {
            Token::Literal(_) => if out.len() == 0 {
                1
            } else {
                out.len()
            },
            Token::CharacterSet(set) => if out.len() == 0 {
                set.len()
            } else {
                out.len() * set.len()
            },
            Token::RepeatedLiteral(_) => out.len(),
            Token::RepeatedCharacterSet(_) => out.len(),
            Token::OptionalLiteral(_) => 2 * out.len(),
            Token::OptionalCharacterSet(set) => out.len() * (1 + set.len()),
        },
{
    match token {
        Token::CharacterSet(set) => {
            assert(1 * set.len() == set.len()) by (nonlinear_arith);
        },
        Token::OptionalCharacterSet(set) => {
            assert(out.len() + out.len() * set.len() == out.len() * (1 + set.len()))
                by (nonlinear_arith);
        },
        _ => {},
    }
}

/// Whether the estimate counts `token` as the expansion applies it to one
/// string or more: it is not repeated, a character set is not empty, and an
/// optional character set has one member.
pub open spec fn counted_as_expanded(token: Token) -> bool {
    match token {
        Token::Literal(_) => true,
        Token::CharacterSet(set) => set.len() > 0,
        Token::RepeatedLiteral(_) => false,
        Token::RepeatedCharacterSet(_) => false,
        Token::OptionalLiteral(_) => true,
        Token::OptionalCharacterSet(set) => set.len() == 1,
    }
}

/// The tokens for which the estimate of [`total_count`] is the size of the
/// expansion: the first is a literal or a character set, so that there is a
/// string to work on, and each is [`counted_as_expanded`].
pub open spec fn counted_exactly(tokens: Seq<Token>) -> bool {
    &&& tokens.len() > 0
    &&& tokens[0] is Literal || tokens[0] is CharacterSet
    &&& forall|i: int| 0 <= i < tokens.len() ==> counted_as_expanded(#[trigger] tokens[i])
}

/// For tokens that are [`counted_exactly`], the expansion holds as many
/// strings as [`total_count`] says, and at least one.
pub proof fn lemma_count_law(tokens: Seq<Token>, limit: nat)
    requires
        counted_exactly(tokens),
    ensures
        expansion(tokens).len() == total_count(tokens, limit),
        expansion(tokens).len() >= 1,
    decreases tokens.len(),
{
    let front = tokens.drop_last();
    let n = expansion(front).len();
    let f = token_count(tokens.last(), limit);
    assert(counted_as_expanded(tokens.last()));
    lemma_expand_step_len(expansion(front), tokens.last());
    if front.len() == 0 {
        assert(tokens.last() == tokens[0]);
        assert(total_count(front, limit) == 1);
        assert(1 * f == f) by (nonlinear_arith);
    } else {
        assert forall|i: int| 0 <= i < front.len() implies counted_as_expanded(
            #[trigger] front[i],
        ) by {
            assert(front[i] == tokens[i]);
        }
        assert(front[0] == tokens[0]);
        lemma_count_law(front, limit);
        assert(n * 1 == n && n * 2 == 2 * n && n * (1 + 1) == 2 * n) by (nonlinear_arith);
        assert(n * f >= 1) by (nonlinear_arith)
            requires
                n >= 1,
                f >= 1,
        ;
    }
}

} // verus!
