//! Scoring of one guess against the target word.
use vstd::prelude::*;

verus! {

/// How one letter of a guess fares against the target word.
#[derive(Clone, Copy, Debug, PartialEq, Eq, Structural)]
pub enum CharGuessResult {
    Incorrect,
    WrongPlace,
    Correct,
}

impl CharGuessResult {
    /// The order in which classifications improve: Incorrect < WrongPlace < Correct.
    pub open spec fn rank(self) -> nat {
        match self {
            CharGuessResult::Incorrect => 0,
            CharGuessResult::WrongPlace => 1,
            CharGuessResult::Correct => 2,
        }
    }

    /// The square that stands for this classification in a shared result.
    pub open spec fn emoji_text(self) -> Seq<char> {
        match self {
            CharGuessResult::Correct => "\u{1F7E9}"@,
            CharGuessResult::WrongPlace => "\u{1F7E8}"@,
            CharGuessResult::Incorrect => "\u{2B1B}"@,
        }
    }

    /// The square that stands for this classification: green, yellow or black.
    pub fn emoji(&self) -> (r: &'static str)
        ensures
            r@ == self.emoji_text(),
    {
        match self {
            CharGuessResult::Correct => "\u{1F7E9}",
            CharGuessResult::WrongPlace => "\u{1F7E8}",
            CharGuessResult::Incorrect => "\u{2B1B}",
        }
    }

    /// The style that colours a letter or key with this classification.
    pub open spec fn css_text(self) -> Seq<char> {
        match self {
            CharGuessResult::Correct => "background-color: green"@,
            CharGuessResult::WrongPlace => "background-color: yellow"@,
            CharGuessResult::Incorrect => "background-color: dimgray"@,
        }
    }

    /// The style that colours a letter or key with this classification.
    pub fn color_css(&self) -> (r: &'static str)
        ensures
            r@ == self.css_text(),
    {
        match self {
            CharGuessResult::Correct => "background-color: green",
            CharGuessResult::WrongPlace => "background-color: yellow",
            CharGuessResult::Incorrect => "background-color: dimgray",
        }
    }

    /// Whether `self` ranks strictly below `other`.
    pub fn is_worse_than(&self, other: &CharGuessResult) -> (r: bool)
        ensures
            r == (self.rank() < other.rank()),
    {
        match (self, other) {
            (CharGuessResult::Incorrect, CharGuessResult::Incorrect) => false,
            (CharGuessResult::Incorrect, _) => true,
            (CharGuessResult::WrongPlace, CharGuessResult::Correct) => true,
            _ => false,
        }
    }
}

/// Number of occurrences of `c` in `s`.
pub open spec fn occ(s: Seq<char>, c: char) -> nat
    decreases s.len(),
{
    if s.len() == 0 {
        0
    } else {
        occ(s.drop_last(), c) + if s.last() == c {
            1nat
        } else {
            0nat
        }
    }
}

/// The letters `a[j]`, `j < i`, that differ from `b[j]`, in order.
pub open spec fn unmatched(a: Seq<char>, b: Seq<char>, i: int) -> Seq<char>
    decreases i,
{
    if i <= 0 {
        Seq::empty()
    } else if a[i - 1] != b[i - 1] {
        unmatched(a, b, i - 1).push(a[i - 1])
    } else {
        unmatched(a, b, i - 1)
    }
}

/// Classification of position `i` of guess `g` against target `t`.
///
/// A letter in place is Correct. A letter out of place is WrongPlace when the
/// earlier out-of-place copies of it in the guess have not yet used up the
/// copies of it at the target's unmatched positions; otherwise Incorrect.
pub open spec fn mark_at(t: Seq<char>, g: Seq<char>, i: int) -> CharGuessResult {
    if g[i] == t[i] {
        CharGuessResult::Correct
    } else if occ(unmatched(g, t, i), g[i]) < occ(unmatched(t, g, t.len() as int), g[i]) {
        CharGuessResult::WrongPlace
    } else {
        CharGuessResult::Incorrect
    }
}

/// The classification of every position of guess `g` against target `t`.
pub open spec fn score(t: Seq<char>, g: Seq<char>) -> Seq<CharGuessResult> {
    Seq::new(g.len(), |i: int| mark_at(t, g, i))
}

/// Number of positions `j < i` where the guess holds `c` and the result is
/// Correct or WrongPlace.
pub open spec fn hits_upto(g: Seq<char>, r: Seq<CharGuessResult>, c: char, i: int) -> nat
    decreases i,
{
    if i <= 0 {
        0
    } else {
        hits_upto(g, r, c, i - 1) + if g[i - 1] == c && r[i - 1] != CharGuessResult::Incorrect {
            1nat
        } else {
            0nat
        }
    }
}

/// Number of Correct or WrongPlace marks given to the letter `c` of guess `g`.
pub open spec fn letter_hits(g: Seq<char>, r: Seq<CharGuessResult>, c: char) -> nat {
    hits_upto(g, r, c, g.len() as int)
}

/// `a - b`, or 0 when `b` exceeds `a`.
pub open spec fn monus(a: nat, b: nat) -> nat {
    if a >= b {
        (a - b) as nat
    } else {
        0
    }
}

proof fn lemma_occ_push(s: Seq<char>, x: char, c: char)
    ensures
        occ(s.push(x), c) == occ(s, c) + if x == c {
            1nat
        } else {
            0nat
        },
{
    assert(s.push(x).drop_last() =~= s);
}

proof fn lemma_occ_remove(s: Seq<char>, k: int, c: char)
    requires
        0 <= k < s.len(),
    ensures
        occ(s, c) == occ(s.remove(k), c) + if s[k] == c {
            1nat
        } else {
            0nat
        },
    decreases s.len(),
{
    if k == s.len() - 1 {
        assert(s.remove(k) =~= s.drop_last());
    } else {
        lemma_occ_remove(s.drop_last(), k, c);
        assert(s.remove(k).drop_last() =~= s.drop_last().remove(k));
    }
}

proof fn lemma_occ_absent(s: Seq<char>, c: char)
    requires
        forall|k: int| 0 <= k < s.len() ==> s[k] != c,
    ensures
        occ(s, c) == 0,
    decreases s.len(),
{
    if s.len() > 0 {
        lemma_occ_absent(s.drop_last(), c);
    }
}

proof fn lemma_unmatched_len(a: Seq<char>, b: Seq<char>, i: int)
    requires
        0 <= i,
    ensures
        unmatched(a, b, i).len() <= i,
    decreases i,
{
    if i > 0 {
        lemma_unmatched_len(a, b, i - 1);
    }
}

/// Number of positions `j < i` where target and guess both hold `c`.
spec fn matched_upto(t: Seq<char>, g: Seq<char>, c: char, i: int) -> nat
    decreases i,
{
    if i <= 0 {
        0
    } else {
        matched_upto(t, g, c, i - 1) + if t[i - 1] == g[i - 1] && t[i - 1] == c {
            1nat
        } else {
            0nat
        }
    }
}

proof fn lemma_target_split(t: Seq<char>, g: Seq<char>, c: char, i: int)
    requires
        0 <= i <= t.len(),
        t.len() == g.len(),
    ensures
        matched_upto(t, g, c, i) + occ(unmatched(t, g, i), c) == occ(t.take(i), c),
    decreases i,
{
    if i > 0 {
        lemma_target_split(t, g, c, i - 1);
        assert(t.take(i).drop_last() =~= t.take(i - 1));
        if t[i - 1] != g[i - 1] {
            lemma_occ_push(unmatched(t, g, i - 1), t[i - 1], c);
        }
    }
}

proof fn lemma_hits_bound(t: Seq<char>, g: Seq<char>, c: char, i: int)
    requires
        0 <= i <= g.len(),
        t.len() == g.len(),
    ensures
        hits_upto(g, score(t, g), c, i) <= matched_upto(t, g, c, i) + if occ(
            unmatched(g, t, i),
            c,
        ) < occ(unmatched(t, g, t.len() as int), c) {
            occ(unmatched(g, t, i), c)
        } else {
            occ(unmatched(t, g, t.len() as int), c)
        },
    decreases i,
{
    if i > 0 {
        lemma_hits_bound(t, g, c, i - 1);
        if g[i - 1] != t[i - 1] {
            lemma_occ_push(unmatched(g, t, i - 1), g[i - 1], c);
        }
    }
}

/// No letter is marked Correct or WrongPlace more often than it occurs in the
/// target word.
pub proof fn lemma_hits_within_target(t: Seq<char>, g: Seq<char>, c: char)
    requires
        t.len() == g.len(),
    ensures
        letter_hits(g, score(t, g), c) <= occ(t, c),
{
    lemma_hits_bound(t, g, c, g.len() as int);
    lemma_target_split(t, g, c, t.len() as int);
    assert(t.take(t.len() as int) =~= t);
}

/// A guess equal to the target is marked Correct at every position.
pub proof fn lemma_exact_guess_all_correct(t: Seq<char>)
    ensures
        score(t, t).len() == t.len(),
        forall|i: int| 0 <= i < t.len() ==> #[trigger] score(t, t)[i] == CharGuessResult::Correct,
{
}

/// Scores `guess` against `target`: Correct letters first, then the remaining
/// letters of the target are handed out, left to right, as WrongPlace.
pub fn score_guess(target: &Vec<char>, guess: &Vec<char>) -> (r: Vec<CharGuessResult>)
    requires
        target.len() == guess.len(),
    ensures
        r@ == score(target@, guess@),
{
    let ghost t = target@;
    let ghost g = guess@;
    let n = target.len();
    let mut result: Vec<CharGuessResult> = Vec::new();
    let mut remaining: Vec<char> = Vec::new();
    let mut k: usize = 0;
    while k < n
        invariant
            k <= n,
            n == t.len(),
            t == target@,
            remaining@ == t.take(k as int),
        decreases n - k,
    {
        remaining.push(target[k]);
        proof {
            assert(t.take(k as int).push(t[k as int]) =~= t.take(k + 1));
        }
        k += 1;
    }
    assert(remaining@ =~= unmatched(t, g, 0) + t.subrange(0, n as int));

    // Letters in place are Correct, and leave the pool of remaining letters.
    let mut removal_cursor: usize = 0;
    let mut idx: usize = 0;
    while idx < n
        invariant
            idx <= n,
            n == t.len(),
            n == g.len(),
            t == target@,
            g == guess@,
            remaining@ == unmatched(t, g, idx as int) + t.subrange(idx as int, n as int),
            removal_cursor == unmatched(t, g, idx as int).len(),
            result@.len() == idx,
            forall|j: int|
                0 <= j < idx ==> #[trigger] result@[j] == if g[j] == t[j] {
                    CharGuessResult::Correct
                } else {
                    CharGuessResult::Incorrect
                },
        decreases n - idx,
    {
        proof {
            lemma_unmatched_len(t, g, idx as int);
        }
        if target[idx] == guess[idx] {
            result.push(CharGuessResult::Correct);
            remaining.remove(removal_cursor);
            proof {
                assert(remaining@ =~= unmatched(t, g, idx + 1) + t.subrange(idx + 1, n as int));
            }
        } else {
            result.push(CharGuessResult::Incorrect);
            removal_cursor += 1;
            proof {
                assert(remaining@ =~= unmatched(t, g, idx + 1) + t.subrange(idx + 1, n as int));
            }
        }
        idx += 1;
    }
    assert(remaining@ =~= unmatched(t, g, n as int));
    let ghost pool = unmatched(t, g, n as int);

    // Out-of-place letters take what is left of the pool, left to right.
    let mut i: usize = 0;
    while i < n
        invariant
            i <= n,
            n == t.len(),
            n == g.len(),
            t == target@,
            g == guess@,
            pool == unmatched(t, g, n as int),
            result@.len() == n,
            forall|j: int| 0 <= j < i ==> #[trigger] result@[j] == mark_at(t, g, j),
            forall|j: int|
                i <= j < n ==> #[trigger] result@[j] == if g[j] == t[j] {
                    CharGuessResult::Correct
                } else {
                    CharGuessResult::Incorrect
                },
            forall|c: char|
                #[trigger] occ(remaining@, c) == monus(occ(pool, c), occ(unmatched(g, t, i as int), c)),
        decreases n - i,
    {
        let letter = guess[i];
        proof {
            if g[i as int] != t[i as int] {
                assert forall|c: char| #[trigger]
                    occ(unmatched(g, t, i + 1), c) == occ(unmatched(g, t, i as int), c) + if letter == c {
                        1nat
                    } else {
                        0nat
                    } by {
                    lemma_occ_push(unmatched(g, t, i as int), letter, c);
                }
            } else {
                assert(unmatched(g, t, i + 1) == unmatched(g, t, i as int));
            }
        }
        if result[i] == CharGuessResult::Incorrect {
            let mut k: usize = 0;
            let mut found = false;
            while !found && k < remaining.len()
                invariant
                    k <= remaining.len(),
                    !found ==> forall|m: int| 0 <= m < k ==> remaining@[m] != letter,
                    found ==> k < remaining.len() && remaining@[k as int] == letter,
                decreases remaining.len() - k + if found {
                    0int
                } else {
                    1int
                },
            {
                if remaining[k] == letter {
                    found = true;
                } else {
                    k += 1;
                }
            }
            let ghost before = remaining@;
            if found {
                proof {
                    lemma_occ_remove(before, k as int, letter);
                }
                result.set(i, CharGuessResult::WrongPlace);
                remaining.remove(k);
                proof {
                    assert forall|c: char|
                        #[trigger] occ(remaining@, c) == monus(
                            occ(pool, c),
                            occ(unmatched(g, t, i + 1), c),
                        ) by {
                        lemma_occ_remove(before, k as int, c);
                    }
                }
            } else {
                proof {
                    lemma_occ_absent(before, letter);
                }
            }
            proof {
                assert(result@[i as int] == mark_at(t, g, i as int));
            }
        }
        i += 1;
    }
    proof {
        assert(result@ =~= score(t, g));
    }
    result
}

} // verus!
