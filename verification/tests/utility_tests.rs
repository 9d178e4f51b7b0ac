use wordle_solver::utility::filter_possible_answers;
use wordle_solver::utility::is_potential_answer;
use wordle_solver::wordle::Correctness;
use wordle_solver::wordle::Correctness::{Correct, Misplaced, Wrong};
use wordle_solver::wordle::Guess;
use wordle_solver::wordle::WordleError;

#[test]
fn filter_out_possible_answer_test_basic() {
    let test_guess = Guess::new(
        String::from("words"),
        [Correct, Correct, Correct, Wrong, Wrong],
    );
    let dictionary = vec![
        String::from("toons"),
        String::from("barks"),
        String::from("worry"),
    ];
    let results = filter_possible_answers(&test_guess, &dictionary).unwrap();
    assert_eq!(results, ["worry"]);
}

#[test]
fn filter_out_possible_answers_mask_all_wrong() {
    let test_guess = Guess::new(String::from("xxxxx"), [Wrong, Wrong, Wrong, Wrong, Wrong]);
    let dictionary = vec![
        String::from("toons"),
        String::from("barks"),
        String::from("worry"),
    ];
    let results = filter_possible_answers(&test_guess, &dictionary).unwrap();
    assert_eq!(results, ["toons", "barks", "worry"]);
}

#[test]
fn filter_possible_answers_correct_guess() {
    let test_guess = Guess::new(
        String::from("barks"),
        [Correct, Correct, Correct, Correct, Correct],
    );
    let dictionary = vec![
        String::from("toons"),
        String::from("barks"),
        String::from("worry"),
    ];
    let results = filter_possible_answers(&test_guess, &dictionary).unwrap();
    assert_eq!(results, ["barks"]);
}

#[test]
fn filter_possible_answers_all_misplaced() {
    let test_guess = Guess::new(
        String::from("abksr"),
        [Misplaced, Misplaced, Misplaced, Misplaced, Misplaced],
    );
    let dictionary = vec![
        String::from("toons"),
        String::from("barks"),
        String::from("worry"),
    ];
    let results = filter_possible_answers(&test_guess, &dictionary).unwrap();
    assert_eq!(results, ["barks"]);
}

#[test]
fn end_to_end_scenario() {
    let mask = Correctness::compute("worry", "words").unwrap();
    assert_eq!(mask, [Correct, Correct, Correct, Wrong, Wrong]);
    let guess = Guess::new(String::from("words"), mask);
    let dictionary = vec![
        String::from("toons"),
        String::from("barks"),
        String::from("worry"),
        String::from("words"),
    ];
    let results = filter_possible_answers(&guess, &dictionary).unwrap();
    assert_eq!(results, ["worry"]);
}

#[test]
fn secret_survives_its_own_mask() {
    let mask = Correctness::compute("sally", "lllrr").unwrap();
    let guess = Guess::new(String::from("lllrr"), mask);
    let dictionary = vec![
        String::from("sally"),
        String::from("lorry"),
        String::from("llama"),
    ];
    let results = filter_possible_answers(&guess, &dictionary).unwrap();
    assert!(results.contains(&String::from("sally")));
}

#[test]
fn filter_skips_entries_of_other_length() {
    let guess = Guess::new(String::from("xxxxx"), [Wrong, Wrong, Wrong, Wrong, Wrong]);
    let dictionary = vec![
        String::from("cat"),
        String::from("worry"),
        String::from("toolong"),
    ];
    let results = filter_possible_answers(&guess, &dictionary).unwrap();
    assert_eq!(results, ["worry"]);
}

#[test]
fn filter_rejects_guess_word_of_wrong_length() {
    let guess = Guess::new(String::from("abc"), [Wrong, Wrong, Wrong, Wrong, Wrong]);
    let dictionary = vec![String::from("worry")];
    assert_eq!(
        filter_possible_answers(&guess, &dictionary),
        Err(WordleError::InvalidInput)
    );
}

#[test]
fn filter_twice_with_same_evidence_is_identical() {
    let guess = Guess::new(
        String::from("words"),
        [Correct, Correct, Correct, Wrong, Wrong],
    );
    let dictionary = vec![
        String::from("worry"),
        String::from("wormy"),
        String::from("barks"),
        String::from("woods"),
    ];
    let once = filter_possible_answers(&guess, &dictionary).unwrap();
    let twice = filter_possible_answers(&guess, &once).unwrap();
    assert_eq!(once, twice);
    assert!(twice.len() <= dictionary.len());
}

#[test]
fn second_filter_with_more_evidence_never_grows() {
    let dictionary = vec![
        String::from("worry"),
        String::from("wormy"),
        String::from("barks"),
    ];
    let first_guess = Guess::new(
        String::from("words"),
        [Correct, Correct, Correct, Wrong, Wrong],
    );
    let after_first = filter_possible_answers(&first_guess, &dictionary).unwrap();
    assert_eq!(after_first, ["worry", "wormy"]);

    let second_mask = Correctness::compute("wormy", "worry").unwrap();
    assert_eq!(second_mask, [Correct, Correct, Correct, Wrong, Correct]);
    let second_guess = Guess::new(String::from("worry"), second_mask);
    let after_second = filter_possible_answers(&second_guess, &after_first).unwrap();
    assert_eq!(after_second, ["wormy"]);
    assert!(after_second.len() <= after_first.len());
}

#[test]
fn is_potential_answer_checks_consistency() {
    let guess = Guess::new(
        String::from("words"),
        [Correct, Correct, Correct, Wrong, Wrong],
    );
    assert!(is_potential_answer(&guess, "worry"));
    assert!(!is_potential_answer(&guess, "words"));
    assert!(!is_potential_answer(&guess, "barks"));
    assert!(!is_potential_answer(&guess, "cat"));
}
