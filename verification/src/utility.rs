//! Dictionary filtering against scored guesses.
//!
//! A candidate word is still a possible secret exactly when scoring the
//! guessed word against it reproduces the observed mask.  Filtering keeps
//! the consistent words of a dictionary, in their original order, and never
//! touches the dictionary itself.

use crate::wordle::{score, Correctness, Guess, WordleError, WORD_LEN};
use vstd::prelude::*;

verus! {

/// A candidate stays in the running exactly when it has the guessed word's
/// length and scoring the guess against it reproduces the observed mask.
pub open spec fn keeps(candidate: Seq<char>, guess: Seq<char>, mask: Seq<Correctness>) -> bool {
    candidate.len() == guess.len() && score(candidate, guess) == mask
}

/// The words of `dict`, in their original order, that `keeps` retains for
/// this guess and mask.
pub open spec fn filter_words(
    dict: Seq<String>,
    guess: Seq<char>,
    mask: Seq<Correctness>,
) -> Seq<String>
    decreases dict.len(),
{
    if dict.len() == 0 {
        Seq::empty()
    } else {
        let rest = filter_words(dict.drop_last(), guess, mask);
        if keeps(dict.last()@, guess, mask) {
            rest.push(dict.last())
        } else {
            rest
        }
    }
}

fn masks_equal(a: &[Correctness; 5], b: &[Correctness; 5]) -> (eq: bool)
    ensures
        eq == (a@ == b@),
{
    let mut i: usize = 0;
    while i < 5
        invariant
            i <= 5,
            forall|j: int| 0 <= j < i ==> a@[j] == b@[j],
        decreases 5 - i,
    {
        if a[i] != b[i] {
            return false;
        }
        i = i + 1;
    }
    proof {
        assert(a@ =~= b@);
    }
    true
}

/// Decides whether `current_word` is still a possible secret: scoring the
/// guessed word against it must reproduce the guess's mask, and words of the
/// wrong length are never candidates.
pub fn is_potential_answer(guess: &Guess, current_word: &str) -> (possible: bool)
    requires
        guess.word@.len() == WORD_LEN,
    ensures
        possible == keeps(current_word@, guess.word@, guess.mask@),
{
    if current_word.unicode_len() != WORD_LEN {
        return false;
    }
    match Correctness::compute(current_word, guess.word.as_str()) {
        Ok(mask) => masks_equal(&mask, &guess.mask),
        Err(_) => false,
    }
}

/// Narrows `dictionary` to the words still consistent with the scored
/// `guess`, keeping their original order.  Entries whose length differs from
/// the guessed word's are skipped, not reported as errors; a guessed word
/// that is not exactly [`WORD_LEN`] letters long is rejected as
/// [`WordleError::InvalidInput`].
pub fn filter_possible_answers(guess: &Guess, dictionary: &Vec<String>) -> (res: Result<
    Vec<String>,
    WordleError,
>)
    ensures
        res is Ok <==> guess.word@.len() == WORD_LEN,
        res is Ok ==> res->Ok_0@ == filter_words(dictionary@, guess.word@, guess.mask@),
        res is Err ==> res->Err_0 == WordleError::InvalidInput,
{
    if guess.word.as_str().unicode_len() != WORD_LEN {
        return Err(WordleError::InvalidInput);
    }
    let mut kept: Vec<String> = Vec::new();
    let mut i: usize = 0;
    while i < dictionary.len()
        invariant
            i <= dictionary@.len(),
            guess.word@.len() == 5,
            kept@ == filter_words(dictionary@.subrange(0, i as int), guess.word@, guess.mask@),
        decreases dictionary@.len() - i,
    {
        let word: &String = &dictionary[i];
        if is_potential_answer(guess, word.as_str()) {
            kept.push(word.clone());
        }
        proof {
            let prefix_next = dictionary@.subrange(0, i + 1);
            assert(prefix_next.drop_last() =~= dictionary@.subrange(0, i as int));
            assert(prefix_next.last() == dictionary@[i as int]);
            assert(kept@ == filter_words(prefix_next, guess.word@, guess.mask@));
        }
        i = i + 1;
    }
    proof {
        assert(dictionary@.subrange(0, dictionary@.len() as int) =~= dictionary@);
    }
    Ok(kept)
}

proof fn lemma_filter_words_contains(
    dict: Seq<String>,
    guess: Seq<char>,
    mask: Seq<Correctness>,
    w: String,
)
    requires
        dict.contains(w),
        keeps(w@, guess, mask),
    ensures
        filter_words(dict, guess, mask).contains(w),
    decreases dict.len(),
{
    if dict.len() > 0 {
        let kept_all = filter_words(dict, guess, mask);
        if dict.last() == w {
            assert(kept_all.last() == w);
            assert(kept_all.contains(w));
        } else {
            let i = choose|i: int| 0 <= i < dict.len() && dict[i] == w;
            assert(dict.drop_last()[i] == w);
            assert(dict.drop_last().contains(w));
            lemma_filter_words_contains(dict.drop_last(), guess, mask, w);
            let rest = filter_words(dict.drop_last(), guess, mask);
            let j = choose|j: int| 0 <= j < rest.len() && rest[j] == w;
            assert(kept_all[j] == w);
            assert(kept_all.contains(w));
        }
    }
}

/// Law: the true secret always survives filtering with the mask its own
/// scoring produced (soundness of the filter).
pub proof fn lemma_filter_keeps_secret(dict: Seq<String>, secret: String, guess: Seq<char>)
    requires
        dict.contains(secret),
        secret@.len() == guess.len(),
    ensures
        filter_words(dict, guess, score(secret@, guess)).contains(secret),
{
    lemma_filter_words_contains(dict, guess, score(secret@, guess), secret);
}

/// Law: filtering never grows the candidate list.
pub proof fn lemma_filter_words_len(dict: Seq<String>, guess: Seq<char>, mask: Seq<Correctness>)
    ensures
        filter_words(dict, guess, mask).len() <= dict.len(),
    decreases dict.len(),
{
    if dict.len() > 0 {
        lemma_filter_words_len(dict.drop_last(), guess, mask);
    }
}

/// Law: a second filtering pass, with whatever further evidence, returns at
/// most as many candidates as the first pass left (monotonicity).
pub proof fn lemma_filter_monotone(
    dict: Seq<String>,
    guess1: Seq<char>,
    mask1: Seq<Correctness>,
    guess2: Seq<char>,
    mask2: Seq<Correctness>,
)
    ensures
        filter_words(filter_words(dict, guess1, mask1), guess2, mask2).len() <= filter_words(
            dict,
            guess1,
            mask1,
        ).len(),
{
    lemma_filter_words_len(filter_words(dict, guess1, mask1), guess2, mask2);
}

proof fn lemma_filter_words_push(
    dict: Seq<String>,
    guess: Seq<char>,
    mask: Seq<Correctness>,
    w: String,
)
    ensures
        filter_words(dict.push(w), guess, mask) == (if keeps(w@, guess, mask) {
            filter_words(dict, guess, mask).push(w)
        } else {
            filter_words(dict, guess, mask)
        }),
{
    assert(dict.push(w).drop_last() =~= dict);
    assert(dict.push(w).last() == w);
}

/// Law: filtering an already-filtered list again with the same guess and
/// mask returns it unchanged (idempotence).
pub proof fn lemma_filter_idempotent(dict: Seq<String>, guess: Seq<char>, mask: Seq<Correctness>)
    ensures
        filter_words(filter_words(dict, guess, mask), guess, mask) == filter_words(
            dict,
            guess,
            mask,
        ),
    decreases dict.len(),
{
    if dict.len() > 0 {
        lemma_filter_idempotent(dict.drop_last(), guess, mask);
        if keeps(dict.last()@, guess, mask) {
            lemma_filter_words_push(
                filter_words(dict.drop_last(), guess, mask),
                guess,
                mask,
                dict.last(),
            );
        }
    }
}

} // verus!
