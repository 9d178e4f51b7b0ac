//! Letter scoring for a fixed-length word-guessing game.
//!
//! Scoring a guess against a secret word classifies every position as
//! [`Correctness::Correct`], [`Correctness::Misplaced`] or
//! [`Correctness::Wrong`].  Repeated letters are arbitrated through a
//! multiplicity table of the secret's letters: a position can only claim a
//! letter while the table still has an occurrence left for it, and each
//! claim, `Correct` or `Misplaced` alike, consumes one occurrence, so a
//! letter is never claimed more often than the secret holds it.

use vstd::prelude::*;

verus! {

/// Number of letters in every word of the game.
pub const WORD_LEN: usize = 5;

/// Classification of one guessed letter relative to the secret word.
#[derive(Debug, Copy, Clone, PartialEq, Eq, Structural)]
pub enum Correctness {
    /// The letter occurs in the secret at this very position.
    Correct,
    /// The letter occurs in the secret, but at a different position, and the
    /// secret still has an unclaimed occurrence of it.
    Misplaced,
    /// The letter does not occur in the secret, or every occurrence of it has
    /// already been claimed.
    Wrong,
}

/// The only failure the engine reports: a word or mask whose length is not
/// the fixed word length.  Callers can always detect it up front, so it marks
/// a broken caller contract rather than a recoverable condition.
#[derive(Debug, Copy, Clone, PartialEq, Eq, Structural)]
pub enum WordleError {
    InvalidInput,
}

/// Occurrences of `c` among the first `n` characters of `s`.
pub open spec fn count_up_to(s: Seq<char>, c: char, n: int) -> int
    decreases n,
{
    if n <= 0 {
        0
    } else {
        count_up_to(s, c, n - 1) + (if s[n - 1] == c {
            1int
        } else {
            0int
        })
    }
}

/// Occurrences of `c` in the whole of `s`.
pub open spec fn count_of(s: Seq<char>, c: char) -> int {
    count_up_to(s, c, s.len() as int)
}

proof fn lemma_count_up_to_nonneg(s: Seq<char>, c: char, n: int)
    ensures
        count_up_to(s, c, n) >= 0,
    decreases n,
{
    if n > 0 {
        lemma_count_up_to_nonneg(s, c, n - 1);
    }
}

/// Positions before `n` whose mask entry claimed an occurrence of the letter
/// `c`, as `Correct` or as `Misplaced`.
pub open spec fn claimed_up_to(guess: Seq<char>, mask: Seq<Correctness>, c: char, n: int) -> int
    decreases n,
{
    if n <= 0 {
        0
    } else {
        claimed_up_to(guess, mask, c, n - 1) + (if guess[n - 1] == c && mask[n - 1]
            != Correctness::Wrong {
            1int
        } else {
            0int
        })
    }
}

proof fn lemma_claimed_nonneg(guess: Seq<char>, mask: Seq<Correctness>, c: char, n: int)
    ensures
        claimed_up_to(guess, mask, c, n) >= 0,
    decreases n,
{
    if n > 0 {
        lemma_claimed_nonneg(guess, mask, c, n - 1);
    }
}

/// `claimed_up_to` reads only the first `n` mask entries.
proof fn lemma_claimed_congruence(
    guess: Seq<char>,
    m1: Seq<Correctness>,
    m2: Seq<Correctness>,
    c: char,
    n: int,
)
    requires
        forall|j: int| 0 <= j < n ==> m1[j] == m2[j],
    ensures
        claimed_up_to(guess, m1, c, n) == claimed_up_to(guess, m2, c, n),
    decreases n,
{
    if n > 0 {
        lemma_claimed_congruence(guess, m1, m2, c, n - 1);
    }
}

/// Classification of position `i`, given the classifications `sofar` of all
/// earlier positions: the position claims the guessed letter only while the
/// secret has occurrences of it left that no earlier position already
/// claimed, and it is `Correct` exactly when the secret carries that letter
/// at the same position.
pub open spec fn score_step(
    secret: Seq<char>,
    guess: Seq<char>,
    sofar: Seq<Correctness>,
    i: int,
) -> Correctness {
    if count_of(secret, guess[i]) - claimed_up_to(guess, sofar, guess[i], i) > 0 {
        if secret[i] == guess[i] {
            Correctness::Correct
        } else {
            Correctness::Misplaced
        }
    } else {
        Correctness::Wrong
    }
}

/// Mask of the first `n` guess positions.
pub open spec fn score_prefix(secret: Seq<char>, guess: Seq<char>, n: int) -> Seq<Correctness>
    decreases n,
{
    if n <= 0 {
        Seq::empty()
    } else {
        let sofar = score_prefix(secret, guess, n - 1);
        sofar.push(score_step(secret, guess, sofar, n - 1))
    }
}

/// The mask of `guess` scored against `secret`: one classification per guess
/// position, built left to right under the multiplicity bookkeeping of
/// `score_step`.
pub open spec fn score(secret: Seq<char>, guess: Seq<char>) -> Seq<Correctness> {
    score_prefix(secret, guess, guess.len() as int)
}

proof fn lemma_score_prefix_len(secret: Seq<char>, guess: Seq<char>, n: int)
    requires
        n >= 0,
    ensures
        score_prefix(secret, guess, n).len() == n,
    decreases n,
{
    if n > 0 {
        lemma_score_prefix_len(secret, guess, n - 1);
    }
}

/// The mask is always exactly as long as the guess.
pub proof fn lemma_score_len(secret: Seq<char>, guess: Seq<char>)
    ensures
        score(secret, guess).len() == guess.len(),
{
    lemma_score_prefix_len(secret, guess, guess.len() as int);
}

proof fn lemma_count_up_to_mono(s: Seq<char>, c: char, m: int, n: int)
    requires
        m <= n,
    ensures
        count_up_to(s, c, m) <= count_up_to(s, c, n),
    decreases n - m,
{
    if m < n {
        lemma_count_up_to_mono(s, c, m, n - 1);
    }
}

proof fn lemma_count_up_to_zero(s: Seq<char>, c: char, n: int)
    requires
        forall|j: int| 0 <= j < n ==> s[j] != c,
    ensures
        count_up_to(s, c, n) == 0,
    decreases n,
{
    if n > 0 {
        lemma_count_up_to_zero(s, c, n - 1);
    }
}

/// Under an all-`Correct` mask, the claims of `c` among the first `n`
/// positions are exactly the occurrences of `c` there.
proof fn lemma_claimed_all_correct(guess: Seq<char>, mask: Seq<Correctness>, c: char, n: int)
    requires
        forall|j: int| 0 <= j < n ==> mask[j] == Correctness::Correct,
    ensures
        claimed_up_to(guess, mask, c, n) == count_up_to(guess, c, n),
    decreases n,
{
    if n > 0 {
        lemma_claimed_all_correct(guess, mask, c, n - 1);
    }
}

proof fn lemma_score_prefix_self(w: Seq<char>, n: int)
    requires
        n <= w.len(),
    ensures
        forall|i: int| 0 <= i < n ==> score_prefix(w, w, n)[i] == Correctness::Correct,
    decreases n,
{
    if n > 0 {
        lemma_score_prefix_self(w, n - 1);
        let sofar = score_prefix(w, w, n - 1);
        let c = w[n - 1];
        lemma_score_prefix_len(w, w, n - 1);
        lemma_claimed_all_correct(w, sofar, c, n - 1);
        lemma_count_up_to_mono(w, c, n, w.len() as int);
        assert(count_up_to(w, c, n) == count_up_to(w, c, n - 1) + 1);
        assert(score_step(w, w, sofar, n - 1) == Correctness::Correct);
    }
}

/// Law: scoring any word against itself marks every position `Correct`.
pub proof fn lemma_score_self_all_correct(w: Seq<char>)
    ensures
        score(w, w).len() == w.len(),
        forall|i: int| 0 <= i < w.len() ==> score(w, w)[i] == Correctness::Correct,
{
    lemma_score_len(w, w);
    lemma_score_prefix_self(w, w.len() as int);
}

proof fn lemma_score_prefix_disjoint(secret: Seq<char>, guess: Seq<char>, n: int)
    requires
        n <= guess.len(),
        forall|i: int, j: int|
            0 <= i < secret.len() && 0 <= j < guess.len() ==> secret[i] != guess[j],
    ensures
        forall|i: int| 0 <= i < n ==> score_prefix(secret, guess, n)[i] == Correctness::Wrong,
    decreases n,
{
    if n > 0 {
        lemma_score_prefix_disjoint(secret, guess, n - 1);
        let sofar = score_prefix(secret, guess, n - 1);
        lemma_score_prefix_len(secret, guess, n - 1);
        lemma_count_up_to_zero(secret, guess[n - 1], secret.len() as int);
        lemma_claimed_nonneg(guess, sofar, guess[n - 1], n - 1);
        assert(score_step(secret, guess, sofar, n - 1) == Correctness::Wrong);
    }
}

/// Law: when the secret and the guess share no letter, every position is
/// `Wrong`.
pub proof fn lemma_score_disjoint_all_wrong(secret: Seq<char>, guess: Seq<char>)
    requires
        forall|i: int, j: int|
            0 <= i < secret.len() && 0 <= j < guess.len() ==> secret[i] != guess[j],
    ensures
        score(secret, guess).len() == guess.len(),
        forall|i: int| 0 <= i < guess.len() ==> score(secret, guess)[i] == Correctness::Wrong,
{
    lemma_score_len(secret, guess);
    lemma_score_prefix_disjoint(secret, guess, guess.len() as int);
}

proof fn lemma_score_prefix_index(secret: Seq<char>, guess: Seq<char>, n: int, i: int)
    requires
        0 <= i < n,
    ensures
        score_prefix(secret, guess, n)[i] == score_step(
            secret,
            guess,
            score_prefix(secret, guess, i),
            i,
        ),
    decreases n,
{
    lemma_score_prefix_len(secret, guess, n - 1);
    if i < n - 1 {
        lemma_score_prefix_index(secret, guess, n - 1, i);
    }
}

/// Law: a `Correct` position always carries the secret's letter at that very
/// position, and a `Misplaced` position never does, though its letter occurs
/// somewhere in the secret.
pub proof fn lemma_mask_letter_positions(secret: Seq<char>, guess: Seq<char>, i: int)
    requires
        0 <= i < guess.len(),
    ensures
        score(secret, guess)[i] == Correctness::Correct ==> secret[i] == guess[i],
        score(secret, guess)[i] == Correctness::Misplaced ==> secret[i] != guess[i] && count_of(
            secret,
            guess[i],
        ) > 0,
{
    lemma_score_prefix_index(secret, guess, guess.len() as int, i);
    lemma_claimed_nonneg(guess, score_prefix(secret, guess, i), guess[i], i);
}

proof fn lemma_claims_within_multiplicity_prefix(
    secret: Seq<char>,
    guess: Seq<char>,
    c: char,
    n: int,
)
    ensures
        claimed_up_to(guess, score_prefix(secret, guess, n), c, n) <= count_of(secret, c),
    decreases n,
{
    lemma_count_up_to_nonneg(secret, c, secret.len() as int);
    if n > 0 {
        lemma_claims_within_multiplicity_prefix(secret, guess, c, n - 1);
        let sofar = score_prefix(secret, guess, n - 1);
        let full = score_prefix(secret, guess, n);
        lemma_score_prefix_len(secret, guess, n - 1);
        assert(forall|j: int| 0 <= j < n - 1 ==> full[j] == sofar[j]);
        lemma_claimed_congruence(guess, full, sofar, c, n - 1);
        if guess[n - 1] == c && full[n - 1] != Correctness::Wrong {
            lemma_claimed_congruence(guess, full, sofar, guess[n - 1], n - 1);
            assert(count_of(secret, c) - claimed_up_to(guess, sofar, c, n - 1) > 0);
        }
    }
}

/// Law: a letter is claimed, as `Correct` or as `Misplaced`, at most as
/// often as it occurs in the secret; the surplus occurrences of an
/// over-guessed letter stay `Wrong`.
pub proof fn lemma_claims_within_multiplicity(secret: Seq<char>, guess: Seq<char>, c: char)
    ensures
        claimed_up_to(guess, score(secret, guess), c, guess.len() as int) <= count_of(secret, c),
{
    lemma_claims_within_multiplicity_prefix(secret, guess, c, guess.len() as int);
}

/// Counts how often `c` occurs in `word`.
fn count_in(word: &str, c: char) -> (n: usize)
    ensures
        n == count_of(word@, c),
{
    let len: usize = word.unicode_len();
    let mut n: usize = 0;
    let mut j: usize = 0;
    while j < len
        invariant
            j <= len,
            len == word@.len(),
            n <= j,
            n == count_up_to(word@, c, j as int),
        decreases len - j,
    {
        if word.get_char(j) == c {
            n = n + 1;
        }
        j = j + 1;
    }
    n
}

/// Counts the positions before `upto` whose mask entry claimed an
/// occurrence of `c`, as `Correct` or as `Misplaced`.
fn claimed_in(guess: &str, mask: &[Correctness; 5], upto: usize, c: char) -> (n: usize)
    requires
        upto <= 5,
        guess@.len() == 5,
    ensures
        n == claimed_up_to(guess@, mask@, c, upto as int),
{
    let mut n: usize = 0;
    let mut j: usize = 0;
    while j < upto
        invariant
            j <= upto,
            upto <= 5,
            guess@.len() == 5,
            n <= j,
            n == claimed_up_to(guess@, mask@, c, j as int),
        decreases upto - j,
    {
        let claimed_here: bool = guess.get_char(j) == c && mask[j] != Correctness::Wrong;
        if claimed_here {
            n = n + 1;
        }
        j = j + 1;
    }
    n
}

impl Correctness {
    /// Scores `guess` against `answer`, one classification per position.
    ///
    /// Walking the positions left to right: a position whose letter still
    /// has an unclaimed occurrence in the secret claims one — `Correct` when
    /// the secret carries that letter at the same position, `Misplaced`
    /// otherwise — while a position whose letter has no unclaimed occurrence
    /// left is `Wrong`.  Words that are not exactly
    /// [`WORD_LEN`] letters long are rejected as
    /// [`WordleError::InvalidInput`].
    pub fn compute(answer: &str, guess: &str) -> (res: Result<[Correctness; 5], WordleError>)
        ensures
            res is Ok <==> (answer@.len() == WORD_LEN && guess@.len() == WORD_LEN),
            res is Ok ==> res->Ok_0@ == score(answer@, guess@),
            res is Err ==> res->Err_0 == WordleError::InvalidInput,
    {
        if answer.unicode_len() != WORD_LEN || guess.unicode_len() != WORD_LEN {
            return Err(WordleError::InvalidInput);
        }
        let mut mask: [Correctness; 5] = [Correctness::Wrong; 5];
        let mut i: usize = 0;
        while i < WORD_LEN
            invariant
                i <= 5,
                answer@.len() == 5,
                guess@.len() == 5,
                mask@.len() == 5,
                mask@.subrange(0, i as int) == score_prefix(answer@, guess@, i as int),
            decreases 5 - i,
        {
            let c: char = guess.get_char(i);
            let cnt: usize = count_in(answer, c);
            let used: usize = claimed_in(guess, &mask, i, c);
            let entry: Correctness = if cnt > used {
                if answer.get_char(i) == c {
                    Correctness::Correct
                } else {
                    Correctness::Misplaced
                }
            } else {
                Correctness::Wrong
            };
            proof {
                let sofar = score_prefix(answer@, guess@, i as int);
                lemma_score_prefix_len(answer@, guess@, i as int);
                assert(forall|j: int| 0 <= j < i ==> mask@[j] == sofar[j]) by {
                    assert(forall|j: int|
                        0 <= j < i ==> mask@.subrange(0, i as int)[j] == mask@[j]);
                }
                lemma_claimed_congruence(guess@, mask@, sofar, c, i as int);
                assert(entry == score_step(answer@, guess@, sofar, i as int));
            }
            mask[i] = entry;
            proof {
                let sofar = score_prefix(answer@, guess@, i as int);
                lemma_score_prefix_len(answer@, guess@, i as int);
                assert(mask@.subrange(0, i + 1) =~= sofar.push(
                    score_step(answer@, guess@, sofar, i as int),
                ));
            }
            i = i + 1;
        }
        proof {
            assert(mask@ =~= mask@.subrange(0, 5));
        }
        Ok(mask)
    }
}

/// One scored attempt: the guessed word together with its mask.
#[derive(Debug)]
pub struct Guess {
    /// The word the player submitted.
    pub word: String,
    /// Per-position classification of `word` against the secret.
    pub mask: [Correctness; 5],
}

impl Guess {
    /// Pairs a guessed word with its computed mask.
    pub fn new(word: String, mask: [Correctness; 5]) -> (g: Guess)
        ensures
            g.word == word,
            g.mask == mask,
    {
        Guess { word, mask }
    }
}

/// Append-only record of the guesses made during one round.
#[derive(Debug)]
pub struct GuessHistory {
    guesses: Vec<Guess>,
}

impl View for GuessHistory {
    type V = Seq<Guess>;

    closed spec fn view(&self) -> Seq<Guess> {
        self.guesses@
    }
}

impl GuessHistory {
    /// Starts a round with no guesses made yet.
    pub fn new() -> (h: GuessHistory)
        ensures
            h@ == Seq::<Guess>::empty(),
    {
        GuessHistory { guesses: Vec::new() }
    }

    /// Records one more guess; earlier entries are never dropped or
    /// reordered.
    pub fn add_guess(&mut self, guess: Guess)
        ensures
            final(self)@ == old(self)@.push(guess),
    {
        self.guesses.push(guess);
    }

    /// Number of guesses made so far.
    pub fn len(&self) -> (n: usize)
        ensures
            n == self@.len(),
    {
        self.guesses.len()
    }
}

/// A human player; how the next guess is produced is up to the caller.
#[derive(Debug, Clone, Copy)]
pub struct Player {}

/// An automated player; how the next guess is produced is up to the caller.
#[derive(Debug, Clone, Copy)]
pub struct Agent {}

/// Picks which kind of participant plays a round.
#[derive(Debug, Clone, Copy)]
pub struct PlayerFactory {}

/// The two kinds of participants a round can be played by.
#[derive(Debug)]
pub enum PlayerType {
    Human(Player),
    Bot(Agent),
}

} // verus!
