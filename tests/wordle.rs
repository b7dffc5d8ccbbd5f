use wordle::daily::{days_between, elapsed_days, pick_for_day, shuffled_dictionary, word_of_day, CalendarDate, DateError};
use wordle::dictionary::{build_dictionary, sorted_unique, to_ascii_upper, chars_of, contains_word, same_word, word_less};
use wordle::evaluate::{score_guess, CharGuessResult};
use wordle::game::{key_symbol, Game, GameState, GuessLetter, Key, StartError, BACKSPACE, ENTER, GUESSES, WORD_LENGTH};

use CharGuessResult::{Correct, Incorrect, WrongPlace};

fn w(s: &str) -> Vec<char> {
    s.chars().collect()
}

fn words(list: &[&str]) -> Vec<Vec<char>> {
    list.iter().map(|s| w(s)).collect()
}

fn raw(list: &[&str]) -> Vec<String> {
    list.iter().map(|s| s.to_string()).collect()
}

fn type_word(g: &mut Game, s: &str) {
    for c in s.chars() {
        g.handle_key(c);
    }
}

fn key_state(g: &Game, c: char) -> Option<CharGuessResult> {
    for row in &g.keyboard {
        for k in row {
            if k.key == c {
                return k.state;
            }
        }
    }
    panic!("no key {c}");
}

fn date(year: i32, month: u32, day: u32) -> CalendarDate {
    CalendarDate { year, month, day }
}

#[test]
fn erase_against_speed() {
    let r = score_guess(&w("ERASE"), &w("SPEED"));
    assert_eq!(r, vec![WrongPlace, Incorrect, WrongPlace, WrongPlace, Incorrect]);
    assert_ne!(r[1], Correct);
}

#[test]
fn exact_guess_is_all_correct() {
    assert_eq!(score_guess(&w("ERASE"), &w("ERASE")), vec![Correct; 5]);
    assert_eq!(score_guess(&w("PLANET"), &w("PLANET")), vec![Correct; 6]);
}

#[test]
fn repeated_letters_are_not_overcounted() {
    // one E in the target: only one E of the guess is marked
    let r = score_guess(&w("CRANE"), &w("EERIE"));
    assert_eq!(r, vec![Incorrect, Incorrect, WrongPlace, Incorrect, Correct]);
    let r = score_guess(&w("ABBEY"), &w("BBBBB"));
    assert_eq!(r, vec![Incorrect, Correct, Correct, Incorrect, Incorrect]);
    let r = score_guess(&w("ALLOT"), &w("LLAMA"));
    assert_eq!(r, vec![WrongPlace, Correct, WrongPlace, Incorrect, Incorrect]);
}

#[test]
fn hits_never_exceed_target_occurrences() {
    let target = w("ERASE");
    for guess in ["SPEED", "EEEEE", "SEASE", "ERASE", "ASERE"] {
        let g = w(guess);
        let r = score_guess(&target, &g);
        for c in 'A'..='Z' {
            let hits = g.iter().zip(r.iter()).filter(|(l, res)| **l == c && **res != Incorrect).count();
            let occ = target.iter().filter(|l| **l == c).count();
            assert!(hits <= occ, "{guess} {c}");
        }
    }
}

#[test]
fn classification_order_and_text() {
    assert!(Incorrect.is_worse_than(&WrongPlace));
    assert!(WrongPlace.is_worse_than(&Correct));
    assert!(!Correct.is_worse_than(&WrongPlace));
    assert!(!Incorrect.is_worse_than(&Incorrect));
    assert_eq!(Correct.emoji(), "\u{1F7E9}");
    assert_eq!(WrongPlace.emoji(), "\u{1F7E8}");
    assert_eq!(Incorrect.emoji(), "\u{2B1B}");
    assert_eq!(Correct.color_css(), "background-color: green");
    assert_eq!(WrongPlace.color_css(), "background-color: yellow");
    assert_eq!(Incorrect.color_css(), "background-color: dimgray");
}

#[test]
fn dictionary_is_normalized_sorted_and_deduplicated() {
    let d = build_dictionary(&raw(&["cherry", " apple ", "Apple", "kiwi", "banana", "APPLE", "Cherry"]), 6).unwrap();
    assert_eq!(d, words(&["BANANA", "CHERRY"]));
    let d = build_dictionary(&raw(&["cherry", " apple ", "Apple", "kiwi", "banana"]), 5).unwrap();
    assert_eq!(d, words(&["APPLE"]));
    let d = build_dictionary(&raw(&["zebra", "tiger", "koala", "eagle"]), 5).unwrap();
    assert_eq!(d, words(&["EAGLE", "KOALA", "TIGER", "ZEBRA"]));
}

#[test]
fn empty_dictionary_is_refused() {
    assert_eq!(build_dictionary(&raw(&["kiwi", "fig"]), 6), None);
    assert_eq!(build_dictionary(&Vec::new(), 6), None);
}

#[test]
fn word_helpers() {
    assert_eq!(chars_of("ABC"), w("ABC"));
    assert!(same_word(&w("ABC"), &w("ABC")));
    assert!(!same_word(&w("ABC"), &w("ABD")));
    assert!(!same_word(&w("ABC"), &w("AB")));
    assert!(word_less(&w("AB"), &w("ABC")));
    assert!(word_less(&w("ABC"), &w("ABD")));
    assert!(!word_less(&w("ABD"), &w("ABC")));
    assert!(!word_less(&w("ABC"), &w("ABC")));
    let d = words(&["APPLE", "MANGO"]);
    assert!(contains_word(&d, &w("MANGO")));
    assert!(!contains_word(&d, &w("MANGA")));
    assert_eq!(to_ascii_upper('q'), 'Q');
    assert_eq!(to_ascii_upper('Q'), 'Q');
    assert_eq!(to_ascii_upper('1'), '1');
}

#[test]
fn day_counts() {
    let epoch = date(2025, 2, 10);
    assert_eq!(days_between(epoch, date(2025, 2, 10)), Ok(0));
    assert_eq!(days_between(epoch, date(2025, 2, 11)), Ok(1));
    assert_eq!(days_between(epoch, date(2025, 3, 10)), Ok(28));
    assert_eq!(days_between(epoch, date(2026, 2, 10)), Ok(365));
    assert_eq!(days_between(epoch, date(2025, 2, 30)), Err(DateError::InvalidDate));
    assert_eq!(days_between(epoch, date(2025, 13, 1)), Err(DateError::InvalidDate));
    assert_eq!(days_between(epoch, date(2025, 2, 9)), Err(DateError::BeforeEpoch));
    assert_eq!(elapsed_days(Some(10), Some(15)), Ok(5));
    assert_eq!(elapsed_days(Some(10), Some(9)), Err(DateError::BeforeEpoch));
    assert_eq!(elapsed_days(None, Some(9)), Err(DateError::InvalidDate));
}

#[test]
fn daily_word_is_reproducible() {
    let d = words(&["APPLE", "BERRY", "CHILI", "DATES", "ELDER"]);
    for days in [0u64, 3, 4, 5, 17, 1000] {
        let a = pick_for_day(&d, 42, days);
        let b = pick_for_day(&d, 42, days);
        assert_eq!(a.word, b.word);
        assert_eq!(a.ordinal, days % 5);
        assert_eq!(a.cycle, days / 5);
        assert!(d.contains(&a.word));
    }
}

#[test]
fn no_repeat_within_a_cycle() {
    let d = words(&["APPLE", "BERRY", "CHILI", "DATES", "ELDER", "FIGGY", "GRAPE"]);
    for cycle in 0u64..3 {
        let mut seen: Vec<Vec<char>> = Vec::new();
        for ordinal in 0..7u64 {
            let pick = pick_for_day(&d, 7, cycle * 7 + ordinal);
            assert!(!seen.contains(&pick.word));
            seen.push(pick.word);
        }
        seen.sort();
        assert_eq!(seen, d);
    }
}

#[test]
fn word_of_day_reads_from_the_end() {
    let order = words(&["APPLE", "BERRY", "CHILI"]);
    assert_eq!(word_of_day(&order, 0), w("CHILI"));
    assert_eq!(word_of_day(&order, 1), w("BERRY"));
    assert_eq!(word_of_day(&order, 2), w("APPLE"));
    assert_eq!(word_of_day(&order, 3), w("CHILI"));
    let once = shuffled_dictionary(&order, 9, 0);
    let mut sorted = once.clone();
    sorted.sort();
    assert_eq!(sorted, order);
    assert_eq!(shuffled_dictionary(&order, 9, 1), shuffled_dictionary(&order, 9, 1));
}

fn small_game(max_guesses: usize) -> Game {
    Game::new(words(&["APPLE", "BERRY", "MANGO", "MOMMA"]), w("MANGO"), 0, 5, max_guesses)
}

#[test]
fn short_guess_is_refused() {
    let mut g = small_game(3);
    assert!(g.handle_key('a'));
    assert!(g.handle_key('p'));
    assert!(!g.handle_key(ENTER));
    assert_eq!(g.guesses.len(), 1);
    assert_eq!(g.state, GameState::Continue);
    assert!(g.handle_key(BACKSPACE));
    assert_eq!(g.guesses[0].letters.len(), 1);
    assert_eq!(g.guesses[0].letters[0].letter, 'A');
    assert!(g.handle_key(BACKSPACE));
    assert!(!g.handle_key(BACKSPACE));
}

#[test]
fn full_guess_has_no_room() {
    let mut g = small_game(3);
    type_word(&mut g, "apple");
    assert!(!g.handle_key('x'));
    assert_eq!(g.guesses[0].letters.len(), 5);
}

#[test]
fn unknown_word_is_not_scored() {
    let mut g = small_game(3);
    type_word(&mut g, "zzzzz");
    assert!(g.handle_key(ENTER));
    assert_eq!(g.guesses.len(), 1);
    assert_eq!(g.state, GameState::Continue);
    assert!(g.guesses[0].letters.iter().all(|l| l.state.is_none()));
    assert!(g.evaluate_guess(&g.guesses[0]).is_none());
}

#[test]
fn losing_ends_the_game() {
    let mut g = small_game(2);
    type_word(&mut g, "berry");
    assert!(g.handle_key(ENTER));
    assert_eq!(g.state, GameState::Continue);
    assert_eq!(g.guesses.len(), 2);
    type_word(&mut g, "apple");
    assert!(g.handle_key(ENTER));
    assert_eq!(g.state, GameState::Lost);
    assert!(g.modal_open);
    assert_eq!(g.guesses.len(), 2);
    assert!(!g.handle_key('a'));
    assert!(!g.handle_key(ENTER));
    assert!(!g.handle_key(BACKSPACE));
    assert_eq!(g.guesses[1].letters.len(), 5);
    let text = g.share();
    assert!(g.shared);
    assert_eq!(
        text,
        "Rust Cameroon Wordle 1  X / 2\n\u{2B1B}\u{2B1B}\u{2B1B}\u{2B1B}\u{2B1B}\n\u{1F7E8}\u{2B1B}\u{2B1B}\u{2B1B}\u{2B1B}\n"
    );
}

#[test]
fn winning_ends_the_game() {
    let mut g = Game::new(words(&["APPLE", "BERRY", "MANGO", "MOMMA"]), w("MANGO"), 11, 5, 6);
    type_word(&mut g, "momma");
    assert!(g.handle_key(ENTER));
    assert_eq!(
        g.guesses[0].letters.iter().map(|l| l.state.unwrap()).collect::<Vec<_>>(),
        vec![Correct, WrongPlace, Incorrect, Incorrect, WrongPlace]
    );
    type_word(&mut g, "mango");
    assert!(g.handle_key(ENTER));
    assert_eq!(g.state, GameState::Won);
    assert!(g.modal_open);
    assert_eq!(g.guesses.len(), 2);
    assert!(!g.handle_key('x'));
    g.close_modal();
    assert!(!g.modal_open);
    assert_eq!(
        g.share_text(),
        "Rust Cameroon Wordle 12  2 / 6\n\u{1F7E9}\u{1F7E8}\u{2B1B}\u{2B1B}\u{1F7E8}\n\u{1F7E9}\u{1F7E9}\u{1F7E9}\u{1F7E9}\u{1F7E9}\n"
    );
}

#[test]
fn keys_only_improve() {
    let mut g = Game::new(words(&["APPLE", "MAMBA", "MANGO", "AMBER"]), w("MANGO"), 0, 5, 6);
    type_word(&mut g, "mamba");
    g.handle_key(ENTER);
    assert_eq!(key_state(&g, 'M'), Some(Correct));
    assert_eq!(key_state(&g, 'A'), Some(Correct));
    assert_eq!(key_state(&g, 'B'), Some(Incorrect));
    assert_eq!(key_state(&g, 'Q'), None);
    type_word(&mut g, "amber");
    g.handle_key(ENTER);
    // M is out of place in AMBER, yet its key stays green
    assert_eq!(key_state(&g, 'M'), Some(Correct));
    assert_eq!(key_state(&g, 'A'), Some(Correct));
    assert_eq!(key_state(&g, 'E'), Some(Incorrect));
}

#[test]
fn keyboard_layout() {
    let g = small_game(1);
    assert_eq!(g.keyboard.len(), 3);
    let row: String = g.keyboard[1].iter().map(|k| k.key).collect();
    assert_eq!(row, "|ASDFGHJKL|");
    let last: Vec<char> = g.keyboard[2].iter().map(|k| k.key).collect();
    assert_eq!(last[0], ENTER);
    assert_eq!(*last.last().unwrap(), BACKSPACE);
    assert!(g.keyboard.iter().flatten().all(|k: &Key| k.state.is_none()));
}

#[test]
fn create_starts_today() {
    let list = raw(&["planet", "bridge", "castle", "kiwi", "Planet", "stream"]);
    let g = Game::create(&list, date(2025, 2, 12)).unwrap();
    assert_eq!(g.dictionary, words(&["BRIDGE", "CASTLE", "PLANET", "STREAM"]));
    assert_eq!(g.nth_wordle, 2);
    assert_eq!(g.word_length, WORD_LENGTH);
    assert_eq!(g.max_guesses, GUESSES);
    assert!(g.dictionary.contains(&g.word_to_guess));
    assert_eq!(g.state, GameState::Continue);
    let again = Game::create(&list, date(2025, 2, 12)).unwrap();
    assert_eq!(again.word_to_guess, g.word_to_guess);
    assert_eq!(Game::create(&raw(&["kiwi"]), date(2025, 2, 12)).unwrap_err(), StartError::EmptyDictionary);
    assert_eq!(
        Game::create(&list, date(2025, 1, 12)).unwrap_err(),
        StartError::Date(DateError::BeforeEpoch)
    );
}

#[test]
fn letter_and_key_styles() {
    let blank = GuessLetter::default();
    assert_eq!(blank.letter, ' ');
    assert_eq!(blank.css(), "");
    let scored = GuessLetter { state: Some(WrongPlace), letter: 'A' };
    assert_eq!(scored.css(), "background-color: yellow");
    assert_eq!(Key::from('Q').css(), "");
    assert_eq!(Key { key: 'Q', state: Some(Correct) }.css(), "background-color: green");
    assert_eq!(Key { key: 'Q', state: Some(Incorrect) }.css(), "background-color: dimgray");
}

#[test]
fn other_symbols_are_ignored() {
    let mut g = small_game(3);
    assert!(!g.handle_key('1'));
    assert!(!g.handle_key(' '));
    assert!(!g.handle_key('|'));
    assert_eq!(g.guesses[0].letters.len(), 0);
    assert!(g.handle_key('m'));
    assert!(!g.handle_key('?'));
    assert_eq!(g.guesses[0].letters.len(), 1);
}

#[test]
fn length_is_checked_before_upper_casing() {
    // six letters once trimmed, seven once upper-cased: not a word of six
    let d = build_dictionary(&raw(&["stra\u{df}e", "bridge"]), 6).unwrap();
    assert_eq!(d, words(&["BRIDGE"]));
    assert_eq!(build_dictionary(&raw(&["stra\u{df}e"]), 7), None);
}

#[test]
fn sorting_removes_duplicates() {
    let r = sorted_unique(&words(&["PEAR", "APPLE", "PEAR", "FIG", "APPLE"]));
    assert_eq!(r, words(&["APPLE", "FIG", "PEAR"]));
    assert_eq!(sorted_unique(&Vec::new()), Vec::<Vec<char>>::new());
}

#[test]
fn each_word_once_per_cycle_and_cycles_differ_by_a_further_shuffle() {
    let d = words(&["APPLE", "BERRY", "CHILI", "DATES", "ELDER", "FIGGY", "GRAPE", "HONEY"]);
    let n = d.len() as u64;
    for cycle in 0u64..4 {
        let order = shuffled_dictionary(&d, 5, cycle);
        for ordinal in 0..n {
            let pick = pick_for_day(&d, 5, cycle * n + ordinal);
            assert_eq!(pick.word, order[(n - 1 - ordinal) as usize]);
        }
    }
}

#[test]
fn key_names_map_to_symbols() {
    assert_eq!(key_symbol("Backspace"), Some(BACKSPACE));
    assert_eq!(key_symbol("Enter"), Some(ENTER));
    assert_eq!(key_symbol("q"), Some('q'));
    assert_eq!(key_symbol("Q"), Some('Q'));
    assert_eq!(key_symbol("1"), None);
    assert_eq!(key_symbol("Shift"), None);
    assert_eq!(key_symbol(""), None);
}

#[test]
fn calendar_edges() {
    assert_eq!(days_between(date(1, 1, 1), date(1970, 1, 1)), Ok(719_162));
    assert_eq!(days_between(date(0, 1, 1), date(1, 1, 1)), Ok(366));
    assert_eq!(days_between(date(-4, 2, 28), date(-4, 3, 1)), Ok(2));
    assert_eq!(days_between(date(2024, 2, 28), date(2024, 3, 1)), Ok(2));
    assert_eq!(days_between(date(2023, 2, 28), date(2023, 3, 1)), Ok(1));
    assert_eq!(days_between(date(2000, 2, 29), date(2000, 3, 1)), Ok(1));
    assert_eq!(days_between(date(1900, 2, 28), date(1900, 2, 29)), Err(DateError::InvalidDate));
    assert_eq!(days_between(date(2025, 4, 31), date(2025, 5, 1)), Err(DateError::InvalidDate));
    assert_eq!(days_between(date(2025, 1, 0), date(2025, 5, 1)), Err(DateError::InvalidDate));
    assert_eq!(days_between(date(262_142, 12, 31), date(262_142, 12, 31)), Ok(0));
    assert_eq!(days_between(date(262_143, 1, 1), date(262_143, 1, 1)), Err(DateError::InvalidDate));
    assert_eq!(days_between(date(-262_143, 1, 1), date(-262_143, 1, 2)), Ok(1));
    assert_eq!(days_between(date(-262_144, 12, 31), date(-262_143, 1, 1)), Err(DateError::InvalidDate));
}
