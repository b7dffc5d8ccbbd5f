//! The word list: normalisation, ordering without duplicates, and lookup.
use vstd::prelude::*;

verus! {

/// What `str::trim` leaves of a string.
pub uninterp spec fn trim_of(s: Seq<char>) -> Seq<char>;

/// What `str::to_uppercase` makes of a string.
pub uninterp spec fn upper_of(s: Seq<char>) -> Seq<char>;

/// Relies on `str::trim`: the string without leading and trailing
/// whitespace (Unicode White_Space); an ASCII letter is not whitespace, so a
/// string that starts and ends with one comes back unchanged.
#[verifier::external_body]
fn trim_str<'a>(s: &'a str) -> (r: &'a str)
    ensures
        r@ == trim_of(s@),
        s@.len() > 0 && is_ascii_letter(s@[0]) && is_ascii_letter(s@.last()) ==> r@ == s@,
{
    s.trim()
}

/// Relies on `str::to_uppercase`: the upper-case form of a string; on ASCII
/// letters it is the ASCII upper case, letter for letter.
#[verifier::external_body]
fn uppercase(s: &str) -> (r: String)
    ensures
        r@ == upper_of(s@),
        (forall|i: int| 0 <= i < s@.len() ==> is_ascii_letter(#[trigger] s@[i])) ==> r@.len() == s@.len()
            && forall|i: int| 0 <= i < s@.len() ==> #[trigger] r@[i] == ascii_upper(s@[i]),
{
    s.to_uppercase()
}

/// An ASCII letter, either case.
pub open spec fn is_ascii_letter(c: char) -> bool {
    ('a' <= c && c <= 'z') || ('A' <= c && c <= 'Z')
}

/// The upper-case form of an ASCII letter; any other character is kept.
pub open spec fn ascii_upper(c: char) -> char {
    if 'a' <= c && c <= 'z' {
        (((c as u8) - 32) as u8) as char
    } else {
        c
    }
}

/// The upper-case form of an ASCII letter; any other character is kept.
pub fn to_ascii_upper(c: char) -> (r: char)
    ensures
        r == ascii_upper(c),
{
    if 'a' <= c && c <= 'z' {
        ((c as u8) - 32) as char
    } else {
        c
    }
}

/// The dictionary form of a raw entry: trimmed, then upper-cased.
pub open spec fn normalized(s: Seq<char>) -> Seq<char> {
    upper_of(trim_of(s))
}

/// Lexicographic order on words, letter by letter by code point.
pub open spec fn word_lt(a: Seq<char>, b: Seq<char>) -> bool
    decreases a.len(),
{
    if a.len() == 0 {
        b.len() > 0
    } else if b.len() == 0 {
        false
    } else if a[0] != b[0] {
        (a[0] as int) < (b[0] as int)
    } else {
        word_lt(a.drop_first(), b.drop_first())
    }
}

/// Strictly increasing, hence free of duplicates.
pub open spec fn strictly_sorted(words: Seq<Seq<char>>) -> bool {
    forall|i: int, j: int| 0 <= i < j < words.len() ==> word_lt(#[trigger] words[i], #[trigger] words[j])
}

/// Every entry of the dictionary has length `len`.
pub open spec fn all_of_length(words: Seq<Seq<char>>, len: nat) -> bool {
    forall|i: int| 0 <= i < words.len() ==> (#[trigger] words[i]).len() == len
}

/// `w` is the normalized form of some raw entry of `len` letters once
/// trimmed, and still has `len` letters.
pub open spec fn admitted(raw: Seq<String>, len: nat, w: Seq<char>) -> bool {
    w.len() == len && exists|i: int|
        0 <= i < raw.len() && trim_of(raw[i]@).len() == len && normalized(raw[i]@) == w
}

pub proof fn lemma_word_lt_irreflexive(a: Seq<char>)
    ensures
        !word_lt(a, a),
    decreases a.len(),
{
    if a.len() > 0 {
        lemma_word_lt_irreflexive(a.drop_first());
    }
}

proof fn lemma_word_lt_transitive(a: Seq<char>, b: Seq<char>, c: Seq<char>)
    requires
        word_lt(a, b),
        word_lt(b, c),
    ensures
        word_lt(a, c),
    decreases a.len(),
{
    if a.len() > 0 && b.len() > 0 && c.len() > 0 && a[0] == b[0] && b[0] == c[0] {
        lemma_word_lt_transitive(a.drop_first(), b.drop_first(), c.drop_first());
    }
}

proof fn lemma_word_lt_total(a: Seq<char>, b: Seq<char>)
    requires
        a != b,
    ensures
        word_lt(a, b) || word_lt(b, a),
    decreases a.len(),
{
    if a.len() > 0 && b.len() > 0 {
        if a[0] == b[0] {
            if a.drop_first() == b.drop_first() {
                assert(a =~= seq![a[0]] + a.drop_first());
                assert(b =~= seq![b[0]] + b.drop_first());
            }
            lemma_word_lt_total(a.drop_first(), b.drop_first());
        } else {
            assert((a[0] as int) != (b[0] as int));
        }
    } else if a.len() == 0 && b.len() == 0 {
        assert(a =~= b);
    }
}

/// Two strictly sorted lists with the same words are the same list.
pub proof fn lemma_sorted_lists_equal(a: Seq<Seq<char>>, b: Seq<Seq<char>>)
    requires
        strictly_sorted(a),
        strictly_sorted(b),
        forall|w: Seq<char>| #[trigger] a.contains(w) <==> b.contains(w),
    ensures
        a == b,
    decreases a.len(),
{
    if a.len() == 0 {
        if b.len() > 0 {
            assert(b.contains(b[0]));
            assert(a.contains(b[0]));
        }
        assert(a =~= b);
    } else {
        assert(a.contains(a[0]));
        assert(b.contains(a[0]));
        let j = choose|j: int| 0 <= j < b.len() && b[j] == a[0];
        assert(b.contains(b[0]));
        assert(a.contains(b[0]));
        let i = choose|i: int| 0 <= i < a.len() && a[i] == b[0];
        if i > 0 && j > 0 {
            assert(word_lt(a[0], a[i]));
            assert(word_lt(b[0], b[j]));
            lemma_word_lt_transitive(a[0], b[0], a[0]);
            lemma_word_lt_irreflexive(a[0]);
        }
        assert(a[0] == b[0]);
        let a1 = a.drop_first();
        let b1 = b.drop_first();
        assert forall|w: Seq<char>| #[trigger] a1.contains(w) <==> b1.contains(w) by {
            if a1.contains(w) {
                let k = choose|k: int| 0 <= k < a1.len() && a1[k] == w;
                assert(a[k + 1] == w);
                assert(a.contains(w));
                assert(b.contains(w));
                let m = choose|m: int| 0 <= m < b.len() && b[m] == w;
                if m == 0 {
                    lemma_word_lt_irreflexive(a[0]);
                }
                assert(b1[m - 1] == w);
            }
            if b1.contains(w) {
                let k = choose|k: int| 0 <= k < b1.len() && b1[k] == w;
                assert(b[k + 1] == w);
                assert(b.contains(w));
                assert(a.contains(w));
                let m = choose|m: int| 0 <= m < a.len() && a[m] == w;
                if m == 0 {
                    lemma_word_lt_irreflexive(b[0]);
                }
                assert(a1[m - 1] == w);
            }
        }
        lemma_sorted_lists_equal(a1, b1);
        assert(a =~= seq![a[0]] + a1);
        assert(b =~= seq![b[0]] + b1);
    }
}

/// The letters of `s`, in order.
pub fn chars_of(s: &str) -> (r: Vec<char>)
    ensures
        r@ == s@,
{
    let n = s.unicode_len();
    let mut r: Vec<char> = Vec::new();
    let mut i: usize = 0;
    while i < n
        invariant
            i <= n,
            n == s@.len(),
            r@ == s@.take(i as int),
        decreases n - i,
    {
        r.push(s.get_char(i));
        proof {
            assert(s@.take(i as int).push(s@[i as int]) =~= s@.take(i + 1));
        }
        i += 1;
    }
    assert(r@ =~= s@);
    r
}

/// A fresh copy of a word.
pub fn copy_word(w: &Vec<char>) -> (r: Vec<char>)
    ensures
        r@ == w@,
{
    let mut r: Vec<char> = Vec::new();
    let mut i: usize = 0;
    while i < w.len()
        invariant
            i <= w.len(),
            r@ == w@.take(i as int),
        decreases w.len() - i,
    {
        r.push(w[i]);
        proof {
            assert(w@.take(i as int).push(w@[i as int]) =~= w@.take(i + 1));
        }
        i += 1;
    }
    assert(r@ =~= w@);
    r
}

/// A fresh copy of a list of words.
pub fn copy_words(ws: &Vec<Vec<char>>) -> (r: Vec<Vec<char>>)
    ensures
        r.deep_view() == ws.deep_view(),
        r.len() == ws.len(),
{
    let mut r: Vec<Vec<char>> = Vec::new();
    let mut i: usize = 0;
    while i < ws.len()
        invariant
            i <= ws.len(),
            r.deep_view() == ws.deep_view().take(i as int),
            r.len() == i,
        decreases ws.len() - i,
    {
        let ghost prev = r.deep_view();
        let ghost prev_vec = r@;
        let w = copy_word(&ws[i]);
        r.push(w);
        proof {
            assert forall|k: int| 0 <= k < r.len() implies r.deep_view()[k] == prev.push(ws@[i as int]@)[k] by {
                if k < i {
                    assert(r@[k] == prev_vec[k]);
                } else {
                    assert(r@[k]@ =~= r@[k].deep_view());
                }
            }
            assert(r.deep_view() =~= prev.push(ws@[i as int]@));
            assert(ws@[i as int]@ =~= ws.deep_view()[i as int]);
            assert(ws.deep_view().take(i as int).push(ws.deep_view()[i as int]) =~= ws.deep_view().take(i + 1));
        }
        i += 1;
    }
    assert(r.deep_view() =~= ws.deep_view());
    r
}

/// Whether two words are equal, letter for letter.
pub fn same_word(a: &Vec<char>, b: &Vec<char>) -> (r: bool)
    ensures
        r == (a@ == b@),
{
    if a.len() != b.len() {
        return false;
    }
    let mut i: usize = 0;
    while i < a.len()
        invariant
            i <= a.len(),
            a.len() == b.len(),
            a@.take(i as int) == b@.take(i as int),
        decreases a.len() - i,
    {
        if a[i] != b[i] {
            return false;
        }
        proof {
            assert(a@.take(i + 1) =~= a@.take(i as int).push(a@[i as int]));
            assert(b@.take(i + 1) =~= b@.take(i as int).push(b@[i as int]));
        }
        i += 1;
    }
    assert(a@ =~= a@.take(a.len() as int));
    assert(b@ =~= b@.take(b.len() as int));
    true
}

/// Whether `a` comes strictly before `b` in dictionary order.
pub fn word_less(a: &Vec<char>, b: &Vec<char>) -> (r: bool)
    ensures
        r == word_lt(a@, b@),
{
    let mut i: usize = 0;
    assert(a@.skip(0) =~= a@ && b@.skip(0) =~= b@);
    while i < a.len() && i < b.len()
        invariant
            i <= a.len(),
            i <= b.len(),
            word_lt(a@, b@) == word_lt(a@.skip(i as int), b@.skip(i as int)),
        decreases a.len() - i,
    {
        if a[i] != b[i] {
            return a[i] < b[i];
        }
        proof {
            assert(a@.skip(i as int).drop_first() =~= a@.skip(i + 1));
            assert(b@.skip(i as int).drop_first() =~= b@.skip(i + 1));
        }
        i += 1;
    }
    i < b.len()
}

/// Whether `word` is an entry of `dictionary`.
pub fn contains_word(dictionary: &Vec<Vec<char>>, word: &Vec<char>) -> (r: bool)
    ensures
        r == dictionary.deep_view().contains(word@),
{
    let mut i: usize = 0;
    while i < dictionary.len()
        invariant
            i <= dictionary.len(),
            forall|j: int| 0 <= j < i ==> dictionary@[j]@ != word@,
        decreases dictionary.len() - i,
    {
        if same_word(&dictionary[i], word) {
            assert(dictionary.deep_view()[i as int] == word@);
            return true;
        }
        i += 1;
    }
    assert forall|j: int| 0 <= j < dictionary.deep_view().len() implies dictionary.deep_view()[j]
        != word@ by {
        assert(dictionary.deep_view()[j] == dictionary@[j]@);
    }
    false
}

/// Adds `word` to a strictly sorted list at its place, unless it is there already.
fn insert_sorted(words: &mut Vec<Vec<char>>, word: Vec<char>)
    requires
        strictly_sorted(old(words).deep_view()),
    ensures
        strictly_sorted(final(words).deep_view()),
        forall|w: Seq<char>|
            #[trigger] final(words).deep_view().contains(w) <==> (old(words).deep_view().contains(w)
                || w == word@),
        final(words).len() <= old(words).len() + 1,
{
    let ghost before = words.deep_view();
    let mut p: usize = 0;
    while p < words.len() && word_less(&words[p], &word)
        invariant
            p <= words.len(),
            words.deep_view() == before,
            forall|j: int| 0 <= j < p ==> word_lt(#[trigger] before[j], word@),
        decreases words.len() - p,
    {
        assert(before[p as int] == words@[p as int]@);
        p += 1;
    }
    if p < words.len() {
        assert(before[p as int] == words@[p as int]@);
    }
    if p < words.len() && same_word(&words[p], &word) {
        return;
    }
    proof {
        if p < words.len() {
            lemma_word_lt_total(before[p as int], word@);
            assert forall|j: int| p <= j < before.len() implies word_lt(word@, #[trigger] before[j]) by {
                if j > p {
                    lemma_word_lt_transitive(word@, before[p as int], before[j]);
                }
            }
        }
    }
    let ghost wv = word@;
    let ghost old_vec = words@;
    words.insert(p, word);
    proof {
        let after = before.insert(p as int, wv);
        assert forall|k: int| 0 <= k < after.len() implies words.deep_view()[k] == after[k] by {
            if k < p {
                assert(words@[k] == old_vec[k]);
            } else if k > p {
                assert(words@[k] == old_vec[k - 1]);
            }
        }
        assert(words.deep_view() =~= after);
        assert forall|w: Seq<char>|
            #[trigger] after.contains(w) <==> (before.contains(w) || w == wv) by {
            if after.contains(w) {
                let j = choose|j: int| 0 <= j < after.len() && after[j] == w;
                if j < p {
                    assert(before[j] == w);
                } else if j > p {
                    assert(before[j - 1] == w);
                }
            }
            if before.contains(w) {
                let j = choose|j: int| 0 <= j < before.len() && before[j] == w;
                if j < p {
                    assert(after[j] == w);
                } else {
                    assert(after[j + 1] == w);
                }
            }
            if w == wv {
                assert(after[p as int] == w);
            }
        }
        assert forall|i: int, j: int| 0 <= i < j < after.len() implies word_lt(
            #[trigger] after[i],
            #[trigger] after[j],
        ) by {
            if j < p {
            } else if j == p {
            } else if i < p {
                lemma_word_lt_transitive(after[i], wv, after[j]);
            } else if i == p {
            } else {
                assert(after[i] == before[i - 1] && after[j] == before[j - 1]);
            }
        }
    }
}

/// The words in dictionary order, each once.
pub fn sorted_unique(words: &Vec<Vec<char>>) -> (r: Vec<Vec<char>>)
    ensures
        strictly_sorted(r.deep_view()),
        r.len() <= words.len(),
        forall|w: Seq<char>| #[trigger] r.deep_view().contains(w) <==> words.deep_view().contains(w),
{
    let mut r: Vec<Vec<char>> = Vec::new();
    let mut i: usize = 0;
    while i < words.len()
        invariant
            i <= words.len(),
            r.len() <= i,
            strictly_sorted(r.deep_view()),
            forall|w: Seq<char>|
                #[trigger] r.deep_view().contains(w) <==> words.deep_view().take(i as int).contains(w),
        decreases words.len() - i,
    {
        let ghost prev = words.deep_view().take(i as int);
        insert_sorted(&mut r, copy_word(&words[i]));
        proof {
            let next = words.deep_view().take(i + 1);
            assert(next =~= prev.push(words.deep_view()[i as int]));
            assert(words.deep_view()[i as int] == words@[i as int]@);
            assert forall|w: Seq<char>| #[trigger] next.contains(w) <==> (prev.contains(w) || w == words@[i as int]@) by {
                if next.contains(w) {
                    let j = choose|j: int| 0 <= j < next.len() && next[j] == w;
                    if j < i {
                        assert(prev[j] == w);
                    }
                }
                if prev.contains(w) {
                    let j = choose|j: int| 0 <= j < prev.len() && prev[j] == w;
                    assert(next[j] == w);
                }
                if w == words@[i as int]@ {
                    assert(next[i as int] == w);
                }
            }
        }
        i += 1;
    }
    assert(words.deep_view().take(words.len() as int) =~= words.deep_view());
    r
}

/// Builds the dictionary from raw entries: entries of `word_length` letters
/// once trimmed are upper-cased, kept when they still have `word_length`
/// letters, and put in dictionary order with duplicates removed. `None` when
/// no word is left.
pub fn build_dictionary(raw: &Vec<String>, word_length: usize) -> (r: Option<Vec<Vec<char>>>)
    ensures
        match r {
            Some(words) => {
                &&& words.len() > 0
                &&& strictly_sorted(words.deep_view())
                &&& all_of_length(words.deep_view(), word_length as nat)
                &&& forall|w: Seq<char>|
                    #[trigger] words.deep_view().contains(w) <==> admitted(
                        raw@,
                        word_length as nat,
                        w,
                    )
            },
            None => forall|w: Seq<char>| !#[trigger] admitted(raw@, word_length as nat, w),
        },
{
    let mut kept: Vec<Vec<char>> = Vec::new();
    let mut i: usize = 0;
    while i < raw.len()
        invariant
            i <= raw.len(),
            kept.len() <= i,
            forall|w: Seq<char>|
                #[trigger] kept.deep_view().contains(w) <==> (w.len() == word_length && exists|j: int|
                    0 <= j < i && trim_of(raw@[j]@).len() == word_length && normalized(raw@[j]@) == w),
        decreases raw.len() - i,
    {
        let ghost prev = kept.deep_view();
        let ghost prev_vec = kept@;
        let trimmed = trim_str(raw[i].as_str());
        if trimmed.unicode_len() == word_length {
            let word = chars_of(uppercase(trimmed).as_str());
            if word.len() == word_length {
                let ghost wv = word@;
                kept.push(word);
                proof {
                    assert forall|k: int| 0 <= k < kept.len() implies kept.deep_view()[k] == prev.push(wv)[k] by {
                        if k < prev.len() {
                            assert(kept@[k] == prev_vec[k]);
                        } else {
                            assert(kept@[k]@ =~= kept@[k].deep_view());
                        }
                    }
                    assert(kept.deep_view() =~= prev.push(wv));
                }
            }
        }
        proof {
            let now = kept.deep_view();
            assert forall|w: Seq<char>|
                #[trigger] now.contains(w) <==> (w.len() == word_length && exists|j: int|
                    0 <= j < i + 1 && trim_of(raw@[j]@).len() == word_length && normalized(raw@[j]@) == w) by {
                if w.len() == word_length && exists|j: int|
                    0 <= j < i + 1 && trim_of(raw@[j]@).len() == word_length && normalized(raw@[j]@) == w {
                    let j = choose|j: int|
                        0 <= j < i + 1 && trim_of(raw@[j]@).len() == word_length && normalized(raw@[j]@) == w;
                    if j < i {
                        assert(prev.contains(w));
                        let m = choose|m: int| 0 <= m < prev.len() && prev[m] == w;
                        assert(now[m] == w);
                    } else {
                        assert(now[now.len() - 1] == w);
                    }
                }
                if now.contains(w) {
                    let m = choose|m: int| 0 <= m < now.len() && now[m] == w;
                    if m < prev.len() {
                        assert(prev[m] == w);
                        assert(prev.contains(w));
                        let j = choose|j: int|
                            0 <= j < i && trim_of(raw@[j]@).len() == word_length && normalized(raw@[j]@) == w;
                        assert(0 <= j < i + 1);
                    }
                }
            }
        }
        i += 1;
    }
    let words = sorted_unique(&kept);
    proof {
        let d = words.deep_view();
        assert forall|k: int| 0 <= k < d.len() implies (#[trigger] d[k]).len() == word_length by {
            assert(d.contains(d[k]));
        }
    }
    if words.len() == 0 {
        proof {
            assert forall|w: Seq<char>| !#[trigger] admitted(raw@, word_length as nat, w) by {
                if admitted(raw@, word_length as nat, w) {
                    assert(kept.deep_view().contains(w));
                    assert(!words.deep_view().contains(w));
                }
            }
        }
        None
    } else {
        Some(words)
    }
}

} // verus!
