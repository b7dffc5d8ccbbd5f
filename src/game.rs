//! The play session: typing, submitting guesses, the keyboard's colours, the
//! end of the game and the text to share.
use vstd::prelude::*;
use crate::daily::{cycle_order, elapsed_spec, scheduled_word, select_daily_word, CalendarDate, DateError};
use crate::dictionary::{admitted, ascii_upper, is_ascii_letter, same_word, to_ascii_upper, all_of_length, build_dictionary, chars_of, contains_word, strictly_sorted};
use crate::evaluate::{score, score_guess, CharGuessResult};

verus! {

/// Letters in a word.
pub const WORD_LENGTH: usize = 6;

/// Guesses allowed in one game.
pub const GUESSES: usize = 6;

/// The seed of the generator that shuffles the dictionary.
pub const SEED: u64 = 11530789889988543623;

/// The date of the first puzzle.
pub const EPOCH_YEAR: i32 = 2025;
pub const EPOCH_MONTH: u32 = 2;
pub const EPOCH_DAY: u32 = 10;

/// Key symbol that deletes the last letter.
pub const BACKSPACE: char = '\x08';

/// Key symbol that submits the current guess.
pub const ENTER: char = '\n';

/// Where a game stands.
#[derive(Clone, Copy, Debug, PartialEq, Eq, Structural)]
pub enum GameState {
    Won,
    Continue,
    Lost,
}

/// One typed letter, with its classification once the guess is scored.
#[derive(Clone, Copy, Debug, PartialEq, Eq, Structural)]
pub struct GuessLetter {
    pub state: Option<CharGuessResult>,
    pub letter: char,
}

/// One guess: the letters typed so far.
#[derive(Debug)]
pub struct Guess {
    pub letters: Vec<GuessLetter>,
}

/// One key of the on-screen keyboard, with the best classification its letter
/// has had so far.
#[derive(Clone, Copy, Debug, PartialEq, Eq, Structural)]
pub struct Key {
    pub key: char,
    pub state: Option<CharGuessResult>,
}

/// A play session.
#[derive(Debug)]
pub struct Game {
    /// The words that may be guessed.
    pub dictionary: Vec<Vec<char>>,
    /// The word to find.
    pub word_to_guess: Vec<char>,
    /// Every guess so far; while the game goes on, the last one is being typed.
    pub guesses: Vec<Guess>,
    pub state: GameState,
    /// The on-screen keyboard, row by row.
    pub keyboard: Vec<Vec<Key>>,
    /// The puzzle ordinal, from 0.
    pub nth_wordle: u32,
    /// Whether the end-of-game overlay is shown.
    pub modal_open: bool,
    /// Whether the result has been shared.
    pub shared: bool,
    pub word_length: usize,
    pub max_guesses: usize,
}

/// The letters of a guess.
pub open spec fn letters_of(g: Seq<GuessLetter>) -> Seq<char> {
    g.map_values(|l: GuessLetter| l.letter)
}

/// A key's state after it has seen classification `c` for its letter: it only
/// ever improves.
pub open spec fn upgrade(st: Option<CharGuessResult>, c: CharGuessResult) -> Option<CharGuessResult> {
    match st {
        Some(s) => if s.rank() < c.rank() {
            Some(c)
        } else {
            st
        },
        None => Some(c),
    }
}

/// A key's state after the first `i` letters of a scored guess.
pub open spec fn key_state_after(
    st: Option<CharGuessResult>,
    key: char,
    letters: Seq<char>,
    res: Seq<CharGuessResult>,
    i: int,
) -> Option<CharGuessResult>
    decreases i,
{
    if i <= 0 {
        st
    } else if letters[i - 1] == key {
        upgrade(key_state_after(st, key, letters, res, i - 1), res[i - 1])
    } else {
        key_state_after(st, key, letters, res, i - 1)
    }
}

/// A key's shown classification never gets worse as guesses are scored: once
/// set it stays set and does not drop in rank, so a Correct key stays Correct.
pub proof fn lemma_key_never_downgrades(
    st: Option<CharGuessResult>,
    key: char,
    letters: Seq<char>,
    res: Seq<CharGuessResult>,
    i: int,
)
    requires
        0 <= i <= letters.len(),
        letters.len() == res.len(),
    ensures
        st is Some ==> key_state_after(st, key, letters, res, i) is Some
            && st->Some_0.rank() <= key_state_after(st, key, letters, res, i)->Some_0.rank(),
        st == Some(CharGuessResult::Correct) ==> key_state_after(st, key, letters, res, i) == Some(
            CharGuessResult::Correct,
        ),
    decreases i,
{
    if i > 0 {
        lemma_key_never_downgrades(st, key, letters, res, i - 1);
    }
}

/// Whether every classification is Correct.
pub open spec fn all_correct(res: Seq<CharGuessResult>) -> bool {
    forall|j: int| 0 <= j < res.len() ==> res[j] == CharGuessResult::Correct
}

/// The keyboard after a scored guess.
pub open spec fn keyboard_after(
    old_kb: Seq<Seq<Key>>,
    new_kb: Seq<Seq<Key>>,
    letters: Seq<char>,
    res: Seq<CharGuessResult>,
) -> bool {
    &&& new_kb.len() == old_kb.len()
    &&& forall|r: int| 0 <= r < old_kb.len() ==> (#[trigger] new_kb[r]).len() == old_kb[r].len()
    &&& forall|r: int, k: int|
        0 <= r < old_kb.len() && 0 <= k < old_kb[r].len() ==> #[trigger] new_kb[r][k] == (Key {
            key: old_kb[r][k].key,
            state: key_state_after(old_kb[r][k].state, old_kb[r][k].key, letters, res, letters.len() as int),
        })
}

/// A key's state after the letters of a scored guess, upgraded wherever the
/// guess holds the key's letter.
pub fn merged_state(
    st: Option<CharGuessResult>,
    key: char,
    letters: &Vec<GuessLetter>,
    res: &Vec<CharGuessResult>,
) -> (r: Option<CharGuessResult>)
    requires
        letters.len() == res.len(),
    ensures
        r == key_state_after(st, key, letters_of(letters@), res@, letters.len() as int),
{
    let mut state = st;
    let mut i: usize = 0;
    while i < letters.len()
        invariant
            i <= letters.len(),
            letters.len() == res.len(),
            state == key_state_after(st, key, letters_of(letters@), res@, i as int),
        decreases letters.len() - i,
    {
        if letters[i].letter == key {
            let better = match state {
                Some(s) => s.is_worse_than(&res[i]),
                None => true,
            };
            if better {
                state = Some(res[i]);
            }
        }
        i += 1;
    }
    state
}

/// Whether every classification is Correct.
pub fn is_all_correct(res: &Vec<CharGuessResult>) -> (r: bool)
    ensures
        r == all_correct(res@),
{
    let mut i: usize = 0;
    while i < res.len()
        invariant
            i <= res.len(),
            forall|j: int| 0 <= j < i ==> res@[j] == CharGuessResult::Correct,
        decreases res.len() - i,
    {
        if res[i] != CharGuessResult::Correct {
            return false;
        }
        i += 1;
    }
    true
}

/// The key symbol for a keyboard event's key name: `Backspace`, `Enter` or a
/// single ASCII letter; `None` for any other key.
pub open spec fn key_symbol_of(name: Seq<char>) -> Option<char> {
    if name == "Backspace"@ {
        Some(BACKSPACE)
    } else if name == "Enter"@ {
        Some(ENTER)
    } else if name.len() == 1 && is_ascii_letter(name[0]) {
        Some(name[0])
    } else {
        None
    }
}

/// The key symbol for a keyboard event's key name, if the game uses it.
pub fn key_symbol(name: &str) -> (r: Option<char>)
    ensures
        r == key_symbol_of(name@),
{
    let cs = chars_of(name);
    if same_word(&cs, &chars_of("Backspace")) {
        Some(BACKSPACE)
    } else if same_word(&cs, &chars_of("Enter")) {
        Some(ENTER)
    } else if cs.len() == 1 && (('a' <= cs[0] && cs[0] <= 'z') || ('A' <= cs[0] && cs[0] <= 'Z')) {
        Some(cs[0])
    } else {
        None
    }
}

/// The decimal digit `d` as text.
pub open spec fn digit_text(d: nat) -> Seq<char> {
    if d == 0 {
        "0"@
    } else if d == 1 {
        "1"@
    } else if d == 2 {
        "2"@
    } else if d == 3 {
        "3"@
    } else if d == 4 {
        "4"@
    } else if d == 5 {
        "5"@
    } else if d == 6 {
        "6"@
    } else if d == 7 {
        "7"@
    } else if d == 8 {
        "8"@
    } else {
        "9"@
    }
}

/// `n` written in decimal, without leading zeros.
pub open spec fn decimal(n: nat) -> Seq<char>
    decreases n,
{
    if n < 10 {
        digit_text(n)
    } else {
        decimal(n / 10) + digit_text(n % 10)
    }
}

fn digit_str(d: u64) -> (r: &'static str)
    requires
        d < 10,
    ensures
        r@ == digit_text(d as nat),
{
    if d == 0 {
        "0"
    } else if d == 1 {
        "1"
    } else if d == 2 {
        "2"
    } else if d == 3 {
        "3"
    } else if d == 4 {
        "4"
    } else if d == 5 {
        "5"
    } else if d == 6 {
        "6"
    } else if d == 7 {
        "7"
    } else if d == 8 {
        "8"
    } else {
        "9"
    }
}

/// Appends `n` in decimal to `s`.
pub fn push_decimal(s: &mut String, n: u64)
    ensures
        final(s)@ == old(s)@ + decimal(n as nat),
    decreases n,
{
    if n >= 10 {
        push_decimal(s, n / 10);
    }
    s.append(digit_str(n % 10));
    proof {
        if n < 10 {
            assert(n % 10 == n);
        }
    }
}

/// The squares for one scored guess.
pub open spec fn emoji_line(res: Seq<CharGuessResult>) -> Seq<char>
    decreases res.len(),
{
    if res.len() == 0 {
        Seq::empty()
    } else {
        emoji_line(res.drop_last()) + res.last().emoji_text()
    }
}

/// The title of the shared result.
pub const GAME_NAME: &'static str = "Rust Cameroon Wordle";

/// Key rows of the on-screen keyboard; `|` is a spacer.
pub const KEY_ROW_TOP: &'static str = "QWERTYUIOP";
pub const KEY_ROW_MIDDLE: &'static str = "|ASDFGHJKL|";
pub const KEY_ROW_BOTTOM: &'static str = "\nZXCVBNM\x08";

/// A keyboard row with no key coloured yet.
pub open spec fn fresh_row(row: Seq<Key>, keys: Seq<char>) -> bool {
    &&& row.len() == keys.len()
    &&& forall|k: int| 0 <= k < keys.len() ==> #[trigger] row[k] == (Key { key: keys[k], state: None })
}

fn key_row(keys: &str) -> (r: Vec<Key>)
    ensures
        fresh_row(r@, keys@),
{
    let cs = chars_of(keys);
    let mut row: Vec<Key> = Vec::new();
    let mut i: usize = 0;
    while i < cs.len()
        invariant
            i <= cs.len(),
            cs@ == keys@,
            row.len() == i,
            forall|k: int| 0 <= k < i ==> #[trigger] row@[k] == (Key { key: keys@[k], state: None }),
        decreases cs.len() - i,
    {
        let key = Key::from(cs[i]);
        row.push(key);
        i += 1;
    }
    row
}

/// The style for a letter or key in `state`: none until it is classified.
pub open spec fn style_of(state: Option<CharGuessResult>) -> Seq<char> {
    match state {
        Some(s) => s.css_text(),
        None => ""@,
    }
}

fn style(state: Option<CharGuessResult>) -> (r: &'static str)
    ensures
        r@ == style_of(state),
{
    match state {
        Some(s) => s.color_css(),
        None => "",
    }
}

impl GuessLetter {
    /// The style that colours this letter.
    pub fn css(&self) -> (r: &'static str)
        ensures
            r@ == style_of(self.state),
    {
        style(self.state)
    }
}

impl Default for GuessLetter {
    /// A blank, unclassified letter.
    fn default() -> (r: GuessLetter)
        ensures
            r == (GuessLetter { state: None, letter: ' ' }),
    {
        GuessLetter { state: None, letter: ' ' }
    }
}

impl Key {
    /// The style that colours this key.
    pub fn css(&self) -> (r: &'static str)
        ensures
            r@ == style_of(self.state),
    {
        style(self.state)
    }

    /// A key for `key`, not coloured yet.
    pub fn from(key: char) -> (r: Key)
        ensures
            r == (Key { key, state: None }),
    {
        Key { key, state: None }
    }
}

/// The on-screen keyboard with no key coloured.
pub fn standard_keyboard() -> (r: Vec<Vec<Key>>)
    ensures
        r@.len() == 3,
        fresh_row(r@[0]@, KEY_ROW_TOP@),
        fresh_row(r@[1]@, KEY_ROW_MIDDLE@),
        fresh_row(r@[2]@, KEY_ROW_BOTTOM@),
{
    let mut rows: Vec<Vec<Key>> = Vec::new();
    rows.push(key_row(KEY_ROW_TOP));
    rows.push(key_row(KEY_ROW_MIDDLE));
    rows.push(key_row(KEY_ROW_BOTTOM));
    rows
}

/// Why a game could not start.
#[derive(Clone, Copy, Debug, PartialEq, Eq, Structural)]
pub enum StartError {
    /// No raw entry gave a word of the right length.
    EmptyDictionary,
    /// No day count could be had from the dates.
    Date(DateError),
}

impl Game {
    /// What starting a session gives: an error when no raw entry yields a word
    /// or the dates give no day count, else a fresh session on the day's word.
    pub open spec fn started(
        raw_words: Seq<String>,
        word_length: usize,
        max_guesses: usize,
        seed: u64,
        today: CalendarDate,
        epoch: CalendarDate,
        r: Result<Game, StartError>,
    ) -> bool {
        &&& (forall|w: Seq<char>| !#[trigger] admitted(raw_words, word_length as nat, w)) ==> r
            == Err::<Game, StartError>(StartError::EmptyDictionary)
        &&& (exists|w: Seq<char>| #[trigger] admitted(raw_words, word_length as nat, w)) ==> match elapsed_spec(epoch, today) {
                Err(e) => r == Err::<Game, StartError>(StartError::Date(e)),
                Ok(days) => match r {
                    Ok(g) => {
                        &&& g.wf()
                        &&& strictly_sorted(g.dictionary.deep_view())
                        &&& forall|w: Seq<char>| #[trigger] g.dictionary.deep_view().contains(w)
                            <==> admitted(raw_words, word_length as nat, w)
                        &&& g.nth_wordle == (days % (g.dictionary.len() as u64)) as u32
                        &&& g.word_to_guess@ == scheduled_word(g.dictionary.deep_view(), seed, days as nat)
                        &&& cycle_order(g.dictionary.deep_view(), seed, days as nat / g.dictionary.deep_view().len())
                            .to_multiset() == g.dictionary.deep_view().to_multiset()
                        &&& g.keyboard@.len() == 3
                        &&& fresh_row(g.keyboard@[0]@, KEY_ROW_TOP@)
                        &&& fresh_row(g.keyboard@[1]@, KEY_ROW_MIDDLE@)
                        &&& fresh_row(g.keyboard@[2]@, KEY_ROW_BOTTOM@)
                        &&& g.word_length == word_length
                        &&& g.max_guesses == max_guesses
                        &&& g.state == GameState::Continue
                        &&& g.guesses@.len() == 1
                        &&& g.current().len() == 0
                        &&& !g.modal_open
                        &&& !g.shared
                    },
                    Err(_) => false,
                },
            }
    }

    /// Starting twice from the same word list, settings, seed and dates gives
    /// the same dictionary, the same puzzle ordinal and the same word.
    pub proof fn lemma_start_is_reproducible(
        raw_words: Seq<String>,
        word_length: usize,
        max_guesses: usize,
        seed: u64,
        today: CalendarDate,
        epoch: CalendarDate,
        g1: Game,
        g2: Game,
    )
        requires
            Game::started(raw_words, word_length, max_guesses, seed, today, epoch, Ok(g1)),
            Game::started(raw_words, word_length, max_guesses, seed, today, epoch, Ok(g2)),
        ensures
            g1.dictionary.deep_view() == g2.dictionary.deep_view(),
            g1.word_to_guess@ == g2.word_to_guess@,
            g1.nth_wordle == g2.nth_wordle,
    {
        if forall|w: Seq<char>| !#[trigger] admitted(raw_words, word_length as nat, w) {
        } else {
            assert(g1.dictionary.deep_view().len() == g1.dictionary.len());
            assert(g2.dictionary.deep_view().len() == g2.dictionary.len());
            crate::dictionary::lemma_sorted_lists_equal(g1.dictionary.deep_view(), g2.dictionary.deep_view());
        }
    }

    /// A new session on `word_to_guess`, with one empty guess and no key
    /// coloured.
    pub fn new(
        dictionary: Vec<Vec<char>>,
        word_to_guess: Vec<char>,
        nth_wordle: u32,
        word_length: usize,
        max_guesses: usize,
    ) -> (g: Game)
        requires
            max_guesses >= 1,
            word_to_guess@.len() == word_length,
            all_of_length(dictionary.deep_view(), word_length as nat),
            dictionary.deep_view().contains(word_to_guess@),
        ensures
            g.wf(),
            g.dictionary.deep_view() == dictionary.deep_view(),
            g.word_to_guess@ == word_to_guess@,
            g.nth_wordle == nth_wordle,
            g.word_length == word_length,
            g.max_guesses == max_guesses,
            g.state == GameState::Continue,
            g.guesses@.len() == 1,
            g.current().len() == 0,
            g.keyboard@.len() == 3,
            fresh_row(g.keyboard@[0]@, KEY_ROW_TOP@),
            fresh_row(g.keyboard@[1]@, KEY_ROW_MIDDLE@),
            fresh_row(g.keyboard@[2]@, KEY_ROW_BOTTOM@),
            !g.modal_open,
            !g.shared,
    {
        let mut guesses: Vec<Guess> = Vec::new();
        guesses.push(Guess { letters: Vec::new() });
        Game {
            dictionary,
            word_to_guess,
            guesses,
            state: GameState::Continue,
            keyboard: standard_keyboard(),
            nth_wordle,
            modal_open: false,
            shared: false,
            word_length,
            max_guesses,
        }
    }

    /// Starts the session for `today`: builds the dictionary from the raw
    /// entries, counts the days since `epoch` and picks the day's word with
    /// the generator seeded by `seed`.
    pub fn start(
        raw_words: &Vec<String>,
        word_length: usize,
        max_guesses: usize,
        seed: u64,
        today: CalendarDate,
        epoch: CalendarDate,
    ) -> (r: Result<Game, StartError>)
        requires
            max_guesses >= 1,
        ensures
            Game::started(raw_words@, word_length, max_guesses, seed, today, epoch, r),
    {
        let dictionary = match build_dictionary(raw_words, word_length) {
            Some(d) => d,
            None => return Err(StartError::EmptyDictionary),
        };
        proof {
            let d = dictionary.deep_view();
            assert(d.contains(d[0]));
        }
        let pick = match select_daily_word(&dictionary, seed, today, epoch) {
            Ok(p) => p,
            Err(e) => return Err(StartError::Date(e)),
        };
        proof {
            let d = dictionary.deep_view();
            let j = choose|j: int| 0 <= j < d.len() && d[j] == pick.word@;
            assert(d[j].len() == word_length);
        }
        #[verifier::truncate]
        let nth = pick.ordinal as u32;
        Ok(Game::new(dictionary, pick.word, nth, word_length, max_guesses))
    }

    /// Starts today's session with the standard settings: six-letter words,
    /// six guesses, the fixed seed and epoch date.
    pub fn create(raw_words: &Vec<String>, today: CalendarDate) -> (r: Result<Game, StartError>)
        ensures
            Game::started(
                raw_words@,
                WORD_LENGTH,
                GUESSES,
                SEED,
                today,
                CalendarDate { year: EPOCH_YEAR, month: EPOCH_MONTH, day: EPOCH_DAY },
                r,
            ),
    {
        Game::start(
            raw_words,
            WORD_LENGTH,
            GUESSES,
            SEED,
            today,
            CalendarDate { year: EPOCH_YEAR, month: EPOCH_MONTH, day: EPOCH_DAY },
        )
    }

    /// The guesses, each as its sequence of letters.
    pub open spec fn guess_letters(&self, i: int) -> Seq<GuessLetter> {
        self.guesses@[i].letters@
    }

    /// The guess being typed.
    pub open spec fn current(&self) -> Seq<GuessLetter> {
        self.guess_letters(self.guesses@.len() - 1)
    }

    pub open spec fn keyboard_view(&self) -> Seq<Seq<Key>> {
        self.keyboard@.map_values(|row: Vec<Key>| row@)
    }

    /// The session's invariant.
    pub open spec fn wf(&self) -> bool {
        &&& self.max_guesses >= 1
        &&& self.word_to_guess@.len() == self.word_length
        &&& all_of_length(self.dictionary.deep_view(), self.word_length as nat)
        &&& self.dictionary.deep_view().contains(self.word_to_guess@)
        &&& 1 <= self.guesses@.len() <= self.max_guesses
        &&& self.current().len() <= self.word_length
    }

    /// Everything but the guesses, the state, the keyboard and the overlay flag
    /// is as in `other`.
    pub open spec fn same_setup(&self, other: &Game) -> bool {
        &&& self.dictionary.deep_view() == other.dictionary.deep_view()
        &&& self.word_to_guess@ == other.word_to_guess@
        &&& self.nth_wordle == other.nth_wordle
        &&& self.shared == other.shared
        &&& self.word_length == other.word_length
        &&& self.max_guesses == other.max_guesses
    }

    /// What a submitted guess does to a session that goes on and whose current
    /// guess is a dictionary word.
    pub open spec fn scored_from(&self, old: &Game) -> bool {
        let n = old.guesses@.len();
        let letters = letters_of(old.current());
        let res = score(old.word_to_guess@, letters);
        &&& self.same_setup(old)
        &&& self.guesses@.len() >= n
        &&& forall|j: int| 0 <= j < n - 1 ==> #[trigger] self.guess_letters(j) == old.guess_letters(j)
        &&& self.guess_letters(n - 1).len() == letters.len()
        &&& forall|j: int|
            0 <= j < letters.len() ==> #[trigger] self.guess_letters(n - 1)[j] == (GuessLetter {
                state: Some(res[j]),
                letter: letters[j],
            })
        &&& keyboard_after(old.keyboard_view(), self.keyboard_view(), letters, res)
        &&& if all_correct(res) {
            self.state == GameState::Won && self.modal_open && self.guesses@.len() == n
        } else if n == old.max_guesses {
            self.state == GameState::Lost && self.modal_open && self.guesses@.len() == n
        } else {
            &&& self.state == GameState::Continue
            &&& self.modal_open == old.modal_open
            &&& self.guesses@.len() == n + 1
            &&& self.guess_letters(n as int).len() == 0
        }
    }

    /// Nothing observable changed.
    pub open spec fn unchanged_from(&self, old: &Game) -> bool {
        &&& self.same_setup(old)
        &&& self.state == old.state
        &&& self.modal_open == old.modal_open
        &&& self.keyboard_view() == old.keyboard_view()
        &&& self.guesses@.len() == old.guesses@.len()
        &&& forall|j: int| 0 <= j < old.guesses@.len() ==> #[trigger] self.guess_letters(j) == old.guess_letters(j)
    }

    /// Scores `guess` against the word to find, or `None` when its letters do
    /// not form a dictionary word.
    pub fn evaluate_guess(&self, guess: &Guess) -> (r: Option<Vec<CharGuessResult>>)
        requires
            self.wf(),
        ensures
            r is None <==> !self.dictionary.deep_view().contains(letters_of(guess.letters@)),
            r matches Some(res) ==> res@ == score(self.word_to_guess@, letters_of(guess.letters@)),
    {
        let mut word: Vec<char> = Vec::new();
        let mut i: usize = 0;
        while i < guess.letters.len()
            invariant
                i <= guess.letters.len(),
                word@ == letters_of(guess.letters@).take(i as int),
            decreases guess.letters.len() - i,
        {
            word.push(guess.letters[i].letter);
            proof {
                assert(word@ =~= letters_of(guess.letters@).take(i + 1));
            }
            i += 1;
        }
        assert(word@ =~= letters_of(guess.letters@));
        if !contains_word(&self.dictionary, &word) {
            return None;
        }
        proof {
            let d = self.dictionary.deep_view();
            let j = choose|j: int| 0 <= j < d.len() && d[j] == word@;
            assert(d[j].len() == self.word_length);
        }
        Some(score_guess(&self.word_to_guess, &word))
    }

    /// Submits the current guess. A finished game, or a guess that is not a
    /// dictionary word, is left as it is. Otherwise the guess is scored, the
    /// keyboard's colours improve, and the game is won when every letter is
    /// Correct, lost when that was the last allowed guess, and else goes on
    /// with a new empty guess.
    pub fn guess(&mut self)
        requires
            old(self).wf(),
        ensures
            final(self).wf(),
            old(self).state != GameState::Continue ==> final(self).unchanged_from(old(self)),
            old(self).state == GameState::Continue && !old(self).dictionary.deep_view().contains(
                letters_of(old(self).current()),
            ) ==> final(self).unchanged_from(old(self)),
            old(self).state == GameState::Continue && old(self).dictionary.deep_view().contains(
                letters_of(old(self).current()),
            ) ==> final(self).scored_from(old(self)),
    {
        if self.state != GameState::Continue {
            return;
        }
        let n = self.guesses.len();
        let result = match self.evaluate_guess(&self.guesses[n - 1]) {
            Some(r) => r,
            None => return,
        };
        let ghost old_self = *self;
        let ghost cur = letters_of(self.current());
        let ghost res = result@;
        proof {
            let d = self.dictionary.deep_view();
            let j = choose|j: int| 0 <= j < d.len() && d[j] == cur;
            assert(d[j].len() == self.word_length);
        }

        let mut letters: Vec<GuessLetter> = Vec::new();
        let mut i: usize = 0;
        while i < self.guesses[n - 1].letters.len()
            invariant
                *self == old_self,
                n == self.guesses@.len(),
                n >= 1,
                cur == letters_of(self.current()),
                cur.len() == res.len(),
                res == result@,
                i <= cur.len(),
                self.guesses@[n - 1].letters@.len() == cur.len(),
                letters.len() == i,
                forall|j: int| 0 <= j < i ==> #[trigger] letters@[j] == (GuessLetter { state: Some(res[j]), letter: cur[j] }),
            decreases cur.len() - i,
        {
            letters.push(GuessLetter { state: Some(result[i]), letter: self.guesses[n - 1].letters[i].letter });
            i += 1;
        }

        let mut keyboard: Vec<Vec<Key>> = Vec::new();
        let mut r: usize = 0;
        while r < self.keyboard.len()
            invariant
                *self == old_self,
                n == self.guesses@.len(),
                n >= 1,
                cur == letters_of(self.current()),
                cur.len() == res.len(),
                res == result@,
                r <= self.keyboard.len(),
                keyboard.len() == r,
                forall|q: int| 0 <= q < r ==> (#[trigger] keyboard@[q]@).len() == self.keyboard@[q]@.len(),
                forall|q: int, k: int|
                    0 <= q < r && 0 <= k < self.keyboard@[q]@.len() ==> #[trigger] keyboard@[q]@[k] == (Key {
                        key: self.keyboard@[q]@[k].key,
                        state: key_state_after(self.keyboard@[q]@[k].state, self.keyboard@[q]@[k].key, cur, res, cur.len() as int),
                    }),
            decreases self.keyboard.len() - r,
        {
            let mut row: Vec<Key> = Vec::new();
            let mut k: usize = 0;
            while k < self.keyboard[r].len()
                invariant
                    *self == old_self,
                    n == self.guesses@.len(),
                    n >= 1,
                    cur == letters_of(self.current()),
                    cur.len() == res.len(),
                    res == result@,
                    r < self.keyboard.len(),
                    k <= self.keyboard@[r as int]@.len(),
                    row.len() == k,
                    forall|m: int| 0 <= m < k ==> #[trigger] row@[m] == (Key {
                        key: self.keyboard@[r as int]@[m].key,
                        state: key_state_after(self.keyboard@[r as int]@[m].state, self.keyboard@[r as int]@[m].key, cur, res, cur.len() as int),
                    }),
                decreases self.keyboard@[r as int]@.len() - k,
            {
                let key = self.keyboard[r][k];
                let state = merged_state(key.state, key.key, &self.guesses[n - 1].letters, &result);
                row.push(Key { key: key.key, state });
                k += 1;
            }
            keyboard.push(row);
            r += 1;
        }

        let ghost new_letters = letters@;
        self.guesses.set(n - 1, Guess { letters });
        self.keyboard = keyboard;
        proof {
            assert(self.guess_letters(n - 1) == new_letters);
            assert(new_letters.len() == cur.len());
            assert(self.keyboard_view().len() == old_self.keyboard_view().len());
            assert forall|q: int| 0 <= q < old_self.keyboard_view().len() implies (
            #[trigger] self.keyboard_view()[q]).len() == old_self.keyboard_view()[q].len() by {}
            assert forall|q: int, k: int|
                0 <= q < old_self.keyboard_view().len() && 0 <= k < old_self.keyboard_view()[q].len()
                implies #[trigger] self.keyboard_view()[q][k] == (Key {
                    key: old_self.keyboard_view()[q][k].key,
                    state: key_state_after(old_self.keyboard_view()[q][k].state, old_self.keyboard_view()[q][k].key, cur, res, cur.len() as int),
                }) by {
                assert(self.keyboard@[q]@[k] == self.keyboard_view()[q][k]);
            }
            assert forall|j: int| 0 <= j < n - 1 implies #[trigger] self.guess_letters(j) == old_self.guess_letters(j) by {
                assert(self.guesses@[j] == old_self.guesses@[j]);
            }
        }

        if is_all_correct(&result) {
            self.state = GameState::Won;
            self.modal_open = true;
            return;
        }
        if n == self.max_guesses {
            self.modal_open = true;
            self.state = GameState::Lost;
        } else {
            self.guesses.push(Guess { letters: Vec::new() });
            self.state = GameState::Continue;
            proof {
                assert forall|j: int| 0 <= j < n - 1 implies #[trigger] self.guess_letters(j) == old_self.guess_letters(j) by {
                    assert(self.guesses@[j] == old(self).guesses@[j]);
                }
            }
        }
    }

    /// The text to share: a title line with the puzzle number, the score and
    /// the number of allowed guesses, then one line of squares per scored
    /// guess.
    pub open spec fn share_text_spec(&self) -> Seq<char> {
        GAME_NAME@ + " "@ + decimal(self.nth_wordle as nat + 1) + "  "@ + (if self.state
            == GameState::Won {
            decimal(self.guesses@.len())
        } else {
            "X"@
        }) + " / "@ + decimal(self.max_guesses as nat) + "\n"@ + self.share_rows(
            self.guesses@.len() as int,
        )
    }

    /// The lines of squares for the first `i` guesses; a guess that is not a
    /// dictionary word gives none.
    pub open spec fn share_rows(&self, i: int) -> Seq<char>
        decreases i,
    {
        if i <= 0 {
            Seq::empty()
        } else {
            let letters = letters_of(self.guess_letters(i - 1));
            self.share_rows(i - 1) + if self.dictionary.deep_view().contains(letters) {
                emoji_line(score(self.word_to_guess@, letters)) + "\n"@
            } else {
                Seq::empty()
            }
        }
    }

    /// The shared summary of the game.
    pub fn share_text(&self) -> (r: String)
        requires
            self.wf(),
        ensures
            r@ == self.share_text_spec(),
    {
        let mut text = String::from_str(GAME_NAME);
        text.append(" ");
        push_decimal(&mut text, self.nth_wordle as u64 + 1);
        text.append("  ");
        if self.state == GameState::Won {
            push_decimal(&mut text, self.guesses.len() as u64);
        } else {
            text.append("X");
        }
        text.append(" / ");
        push_decimal(&mut text, self.max_guesses as u64);
        text.append("\n");
        let ghost head = text@;
        let mut i: usize = 0;
        while i < self.guesses.len()
            invariant
                self.wf(),
                i <= self.guesses.len(),
                text@ == head + self.share_rows(i as int),
            decreases self.guesses.len() - i,
        {
            let ghost before = text@;
            match self.evaluate_guess(&self.guesses[i]) {
                Some(result) => {
                    let mut j: usize = 0;
                    while j < result.len()
                        invariant
                            j <= result.len(),
                            text@ == before + emoji_line(result@.take(j as int)),
                        decreases result.len() - j,
                    {
                        text.append(result[j].emoji());
                        proof {
                            assert(result@.take(j + 1).drop_last() =~= result@.take(j as int));
                        }
                        j += 1;
                    }
                    assert(result@.take(result.len() as int) =~= result@);
                    text.append("\n");
                },
                None => {},
            }
            proof {
                assert(text@ =~= head + self.share_rows(i + 1));
            }
            i += 1;
        }
        text
    }

    /// Closes the end-of-game overlay.
    pub fn close_modal(&mut self)
        ensures
            *final(self) == (Game { modal_open: false, ..*old(self) }),
    {
        self.modal_open = false;
    }

    /// Marks the result as shared and returns the text to hand to the share
    /// mechanism.
    pub fn share(&mut self) -> (r: String)
        requires
            old(self).wf(),
        ensures
            r@ == old(self).share_text_spec(),
            *final(self) == (Game { shared: true, ..*old(self) }),
    {
        let text = self.share_text();
        self.shared = true;
        text
    }

    /// The session after the current guess became `letters`, all else kept.
    pub open spec fn typed_from(&self, old: &Game, letters: Seq<GuessLetter>) -> bool {
        let n = old.guesses@.len();
        &&& self.same_setup(old)
        &&& self.state == old.state
        &&& self.modal_open == old.modal_open
        &&& self.keyboard_view() == old.keyboard_view()
        &&& self.guesses@.len() == n
        &&& forall|j: int| 0 <= j < n - 1 ==> #[trigger] self.guess_letters(j) == old.guess_letters(j)
        &&& self.current() == letters
    }

    /// Handles one key symbol and says whether the display must be redrawn.
    /// A finished game ignores every key. `BACKSPACE` deletes the last letter;
    /// `ENTER` submits the guess once it is complete and is refused before;
    /// an ASCII letter is added, upper-cased, while the guess has room; any
    /// other symbol is ignored.
    pub fn handle_key(&mut self, key: char) -> (changed: bool)
        requires
            old(self).wf(),
        ensures
            final(self).wf(),
            old(self).state != GameState::Continue ==> !changed && final(self).unchanged_from(old(self)),
            old(self).state == GameState::Continue && key == BACKSPACE ==> {
                &&& changed == (old(self).current().len() > 0)
                &&& if changed {
                    final(self).typed_from(old(self), old(self).current().drop_last())
                } else {
                    final(self).unchanged_from(old(self))
                }
            },
            old(self).state == GameState::Continue && key == ENTER ==> {
                &&& changed == (old(self).current().len() == old(self).word_length)
                &&& if !changed {
                    final(self).unchanged_from(old(self))
                } else if old(self).dictionary.deep_view().contains(letters_of(old(self).current())) {
                    final(self).scored_from(old(self))
                } else {
                    final(self).unchanged_from(old(self))
                }
            },
            old(self).state == GameState::Continue && !is_ascii_letter(key) && key != BACKSPACE && key
                != ENTER ==> !changed && final(self).unchanged_from(old(self)),
            old(self).state == GameState::Continue && is_ascii_letter(key) ==> {
                &&& changed == (old(self).current().len() < old(self).word_length)
                &&& if changed {
                    final(self).typed_from(
                        old(self),
                        old(self).current().push(GuessLetter { state: None, letter: ascii_upper(key) }),
                    )
                } else {
                    final(self).unchanged_from(old(self))
                }
            },
    {
        if self.state != GameState::Continue {
            return false;
        }
        let n = self.guesses.len();
        let letter = ('a' <= key && key <= 'z') || ('A' <= key && key <= 'Z');
        if !letter && key != BACKSPACE && key != ENTER {
            return false;
        }
        if key == ENTER {
            if self.guesses[n - 1].letters.len() == self.word_length {
                self.guess();
                return true;
            }
            return false;
        }
        let ghost old_self = *self;
        let mut current = Guess { letters: Vec::new() };
        std::mem::swap(&mut current, &mut self.guesses[n - 1]);
        let changed = if key == BACKSPACE {
            match current.letters.pop() {
                Some(_) => true,
                None => false,
            }
        } else if current.letters.len() < self.word_length {
            current.letters.push(GuessLetter { state: None, letter: to_ascii_upper(key) });
            true
        } else {
            false
        };
        self.guesses.set(n - 1, current);
        proof {
            assert forall|j: int| 0 <= j < n - 1 implies #[trigger] self.guess_letters(j) == old_self.guess_letters(j) by {
                assert(self.guesses@[j] == old_self.guesses@[j]);
            }
        }
        changed
    }
}

} // verus!
