//! Size estimates for an expansion, computed from the tokens alone.
//!
//! The estimates count a repeated token as `limit` characters and `limit`
//! choices, as if it were unrolled. [`expand`](crate::expand::expand) does not
//! unroll repeated tokens, so for patterns that hold one the estimates and the
//! expansion disagree.

use crate::glob::{Glob, Token};
use vstd::prelude::*;

verus! {

/// The length that one token contributes: 1 for a literal or a character
/// set, `limit` for a repeated token, 2 for an optional one.
pub open spec fn token_len(token: Token, limit: nat) -> nat {
    match token {
        Token::Literal(_) => 1,
        Token::CharacterSet(_) => 1,
        Token::RepeatedLiteral(_) => limit,
        Token::RepeatedCharacterSet(_) => limit,
        Token::OptionalLiteral(_) => 2,
        Token::OptionalCharacterSet(_) => 2,
    }
}

/// The sum of [`token_len`] over `tokens`.
pub open spec fn total_len(tokens: Seq<Token>, limit: nat) -> nat
    decreases tokens.len(),
{
    if tokens.len() == 0 {
        0
    } else {
        total_len(tokens.drop_last(), limit) + token_len(tokens.last(), limit)
    }
}

/// The number of choices that one token contributes: 1 for a literal, the
/// size of the set for a character set, `limit` for a repeated literal, the
/// size of the set times `limit` for a repeated set, 2 for an optional token.
pub open spec fn token_count(token: Token, limit: nat) -> nat {
    match token {
        Token::Literal(_) => 1,
        Token::CharacterSet(set) => set.len(),
        Token::RepeatedLiteral(_) => limit,
        Token::RepeatedCharacterSet(set) => set.len() * limit,
        Token::OptionalLiteral(_) => 2,
        Token::OptionalCharacterSet(_) => 2,
    }
}

/// The product of [`token_count`] over `tokens`; 1 for no tokens.
pub open spec fn total_count(tokens: Seq<Token>, limit: nat) -> nat
    decreases tokens.len(),
{
    if tokens.len() == 0 {
        1
    } else {
        total_count(tokens.drop_last(), limit) * token_count(tokens.last(), limit)
    }
}

/// A prefix is no longer than the whole.
pub proof fn lemma_total_len_prefix(tokens: Seq<Token>, limit: nat, k: int)
    requires
        0 <= k <= tokens.len(),
    ensures
        total_len(tokens.take(k), limit) <= total_len(tokens, limit),
    decreases tokens.len(),
{
    if k == tokens.len() {
        assert(tokens.take(k) =~= tokens);
    } else {
        assert(tokens.drop_last().take(k) =~= tokens.take(k));
        lemma_total_len_prefix(tokens.drop_last(), limit, k);
    }
}

/// One token that contributes no choice leaves none at all.
pub proof fn lemma_total_count_zero(tokens: Seq<Token>, limit: nat, k: int)
    requires
        0 <= k < tokens.len(),
        token_count(tokens[k], limit) == 0,
    ensures
        total_count(tokens, limit) == 0,
    decreases tokens.len(),
{
    if k < tokens.len() - 1 {
        lemma_total_count_zero(tokens.drop_last(), limit, k);
    }
    assert(total_count(tokens, limit) == total_count(tokens.drop_last(), limit) * token_count(
        tokens.last(),
        limit,
    ));
    assert(total_count(tokens.drop_last(), limit) * token_count(tokens.last(), limit) == 0)
        by (nonlinear_arith)
        requires
            total_count(tokens.drop_last(), limit) == 0 || token_count(tokens.last(), limit) == 0,
    ;
}

/// Where every token contributes a choice, a prefix has at least one choice
/// and no more than the whole.
pub proof fn lemma_total_count_prefix(tokens: Seq<Token>, limit: nat, k: int)
    requires
        0 <= k <= tokens.len(),
        forall|i: int| 0 <= i < tokens.len() ==> token_count(#[trigger] tokens[i], limit) > 0,
    ensures
        1 <= total_count(tokens.take(k), limit) <= total_count(tokens, limit),
    decreases tokens.len(),
{
    if tokens.len() == 0 {
        assert(tokens.take(k) =~= tokens);
    } else {
        let front = tokens.drop_last();
        let f = token_count(tokens.last(), limit);
        lemma_total_count_prefix(front, limit, front.len() as int);
        assert(front.take(front.len() as int) =~= front);
        assert(total_count(front, limit) <= total_count(front, limit) * f) by (nonlinear_arith)
            requires
                f >= 1,
        ;
        if k == tokens.len() {
            assert(tokens.take(k) =~= tokens);
        } else {
            assert(front.take(k) =~= tokens.take(k));
            lemma_total_count_prefix(front, limit, k);
        }
    }
}

fn count_of(token: &Glob, limit: usize) -> (n: usize)
    requires
        token_count(token@, limit as nat) <= usize::MAX,
    ensures
        n == token_count(token@, limit as nat),
{
    match token {
        Glob::Literal(_) => 1,
        Glob::CharacterSet(cs) => cs.len(),
        Glob::RepeatedLiteral(_) => limit,
        Glob::RepeatedCharacterSet(cs) => cs.len() * limit,
        Glob::OptionalLiteral(_) => 2,
        Glob::OptionalCharacterSet(_) => 2,
    }
}

fn counts_nothing(token: &Glob, limit: usize) -> (b: bool)
    ensures
        b == (token_count(token@, limit as nat) == 0),
{
    match token {
        Glob::CharacterSet(cs) => cs.len() == 0,
        Glob::RepeatedLiteral(_) => limit == 0,
        Glob::RepeatedCharacterSet(cs) => {
            let n: usize = cs.len();
            assert((n * limit == 0) == (n == 0 || limit == 0)) by (nonlinear_arith);
            n == 0 || limit == 0
        },
        _ => false,
    }
}

/// The length of the longest string that the tokens stand for when a
/// repeated token is unrolled `limit` times: the sum of [`token_len`].
pub fn str_len(glob: &Vec<Glob>, limit: usize) -> (n: usize)
    requires
        total_len(glob.deep_view(), limit as nat) <= usize::MAX,
    ensures
        n == total_len(glob.deep_view(), limit as nat),
{
    let ghost tokens = glob.deep_view();
    let mut s: usize = 0;
    let mut i: usize = 0;
    while i < glob.len()
        invariant
            i <= glob.len(),
            tokens == glob.deep_view(),
            tokens.len() == glob.len(),
            total_len(tokens, limit as nat) <= usize::MAX,
            s == total_len(tokens.take(i as int), limit as nat),
        decreases glob.len() - i,
    {
        proof {
            assert(tokens.take(i + 1).drop_last() =~= tokens.take(i as int));
            lemma_total_len_prefix(tokens, limit as nat, i + 1);
        }
        s += match &glob[i] {
            Glob::Literal(_) => 1,
            Glob::CharacterSet(_) => 1,
            Glob::RepeatedLiteral(_) => limit,
            Glob::RepeatedCharacterSet(_) => limit,
            Glob::OptionalLiteral(_) => 2,
            Glob::OptionalCharacterSet(_) => 2,
        };
        i += 1;
    }
    assert(tokens.take(i as int) =~= tokens);
    s
}

/// The number of strings that the tokens stand for when a repeated token is
/// unrolled up to `limit` times: the product of [`token_count`].
pub fn str_counts(glob: &Vec<Glob>, limit: usize) -> (n: usize)
    requires
        total_count(glob.deep_view(), limit as nat) <= usize::MAX,
    ensures
        n == total_count(glob.deep_view(), limit as nat),
{
    let ghost tokens = glob.deep_view();
    // A single empty factor settles the product, however large the others.
    let mut k: usize = 0;
    while k < glob.len()
        invariant
            k <= glob.len(),
            tokens == glob.deep_view(),
            tokens.len() == glob.len(),
            forall|j: int| 0 <= j < k ==> token_count(#[trigger] tokens[j], limit as nat) > 0,
        decreases glob.len() - k,
    {
        if counts_nothing(&glob[k], limit) {
            proof {
                lemma_total_count_zero(tokens, limit as nat, k as int);
            }
            return 0;
        }
        k += 1;
    }
    let mut s: usize = 1;
    let mut i: usize = 0;
    while i < glob.len()
        invariant
            i <= glob.len(),
            tokens == glob.deep_view(),
            tokens.len() == glob.len(),
            forall|j: int| 0 <= j < tokens.len() ==> token_count(#[trigger] tokens[j], limit as nat) > 0,
            total_count(tokens, limit as nat) <= usize::MAX,
            s == total_count(tokens.take(i as int), limit as nat),
        decreases glob.len() - i,
    {
        proof {
            let f = token_count(tokens[i as int], limit as nat);
            assert(tokens.take(i + 1).drop_last() =~= tokens.take(i as int));
            lemma_total_count_prefix(tokens, limit as nat, i as int);
            lemma_total_count_prefix(tokens, limit as nat, i + 1);
            assert(f <= s * f) by (nonlinear_arith)
                requires
                    s >= 1,
                    f >= 0,
            ;
        }
        s *= count_of(&glob[i], limit);
        i += 1;
    }
    assert(tokens.take(i as int) =~= tokens);
    s
}

} // verus!
