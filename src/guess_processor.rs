use vstd::prelude::*;
use vstd::string::StrSliceExecFns;

use crate::constants::WORD_LENGTH;

verus! {

/// The verdict on one letter of a guess.
/// `Green`: right letter in the right place.
/// `Blue`: the letter occurs elsewhere in the secret and is not yet accounted for.
/// `Gray`: the letter is not in the secret, or all its occurrences are accounted for.
#[derive(Copy, Clone, PartialEq, Eq, Structural, Debug)]
pub enum FontColors {
    Green,
    Blue,
    Gray,
}

pub type LetterColorMapping = (char, FontColors);

/// One verdict per letter of the guess, in order.
pub type GuessColorMapping = Vec<LetterColorMapping>;

pub type IfWinner = bool;

pub open spec fn is_lower(c: char) -> bool {
    'a' <= c && c <= 'z'
}

/// The ASCII upper case of `c`; other characters stay as they are.
pub open spec fn ascii_upper_char(c: char) -> char {
    if 'a' <= c && c <= 'z' {
        (c as int - 32) as char
    } else {
        c
    }
}

/// A word of the puzzle: exactly `WORD_LENGTH` lowercase letters.
pub open spec fn is_word(w: Seq<char>) -> bool {
    &&& w.len() == WORD_LENGTH
    &&& forall|i: int| 0 <= i < w.len() ==> is_lower(#[trigger] w[i])
}

/// Occurrences of `c` among the first `n` letters of `s`.
pub open spec fn count(s: Seq<char>, c: char, n: int) -> nat
    decreases n,
{
    if n <= 0 {
        0
    } else {
        count(s, c, n - 1) + if s[n - 1] == c { 1nat } else { 0nat }
    }
}

/// Positions below `n` where guess and secret agree on the letter `c`.
pub open spec fn exact(g: Seq<char>, s: Seq<char>, c: char, n: int) -> nat
    decreases n,
{
    if n <= 0 {
        0
    } else {
        exact(g, s, c, n - 1) + if g[n - 1] == c && s[n - 1] == c { 1nat } else { 0nat }
    }
}

/// Positions below `n` where the guess holds `c` but the secret differs.
pub open spec fn misplaced(g: Seq<char>, s: Seq<char>, c: char, n: int) -> nat
    decreases n,
{
    if n <= 0 {
        0
    } else {
        misplaced(g, s, c, n - 1) + if g[n - 1] == c && s[n - 1] != c { 1nat } else { 0nat }
    }
}

/// Positions below `n` where guess and secret agree.
pub open spec fn n_exact(g: Seq<char>, s: Seq<char>, n: int) -> nat
    decreases n,
{
    if n <= 0 {
        0
    } else {
        n_exact(g, s, n - 1) + if g[n - 1] == s[n - 1] { 1nat } else { 0nat }
    }
}

/// Occurrences of `c` in the secret that exact matches leave over.
pub open spec fn remaining(g: Seq<char>, s: Seq<char>, c: char) -> int {
    count(s, c, s.len() as int) - exact(g, s, c, s.len() as int)
}

/// The verdict at position `i`: an exact match is `Green`; otherwise the k-th
/// misplaced occurrence of a letter (counting from the left, from zero) is
/// `Blue` exactly when k is below the occurrences the exact matches leave over.
pub open spec fn verdict(g: Seq<char>, s: Seq<char>, i: int) -> FontColors {
    if g[i] == s[i] {
        FontColors::Green
    } else if misplaced(g, s, g[i], i) < remaining(g, s, g[i]) {
        FontColors::Blue
    } else {
        FontColors::Gray
    }
}

/// The full scoring of guess `g` against secret `s`: each letter of the
/// guess, in upper case, with its verdict.
pub open spec fn scoring(g: Seq<char>, s: Seq<char>) -> Seq<LetterColorMapping> {
    Seq::new(g.len(), |i: int| (ascii_upper_char(g[i]), verdict(g, s, i)))
}

pub open spec fn all_green(m: Seq<LetterColorMapping>) -> bool {
    forall|i: int| 0 <= i < m.len() ==> (#[trigger] m[i]).1 == FontColors::Green
}

/// Positions below `n` where the guess `g` carries `c` and the scoring `m`
/// says `Green` or `Blue`.
pub open spec fn credited(g: Seq<char>, m: Seq<LetterColorMapping>, c: char, n: int) -> nat
    decreases n,
{
    if n <= 0 {
        0
    } else {
        credited(g, m, c, n - 1) + if g[n - 1] == c && m[n - 1].1 != FontColors::Gray {
            1nat
        } else {
            0nat
        }
    }
}

proof fn lemma_count_bounds(s: Seq<char>, c: char, n: int, m: int)
    requires
        0 <= n <= m,
    ensures
        count(s, c, n) <= count(s, c, m),
        count(s, c, n) <= n,
    decreases m,
{
    if m > n {
        lemma_count_bounds(s, c, n, m - 1);
    } else if n > 0 {
        lemma_count_bounds(s, c, n - 1, n - 1);
    }
}

proof fn lemma_exact_le_count(g: Seq<char>, s: Seq<char>, c: char, n: int)
    requires
        0 <= n,
    ensures
        exact(g, s, c, n) <= count(s, c, n),
    decreases n,
{
    if n > 0 {
        lemma_exact_le_count(g, s, c, n - 1);
    }
}

proof fn lemma_n_exact(g: Seq<char>, s: Seq<char>, n: int)
    requires
        0 <= n <= g.len(),
        n <= s.len(),
    ensures
        n_exact(g, s, n) <= n,
        n_exact(g, s, n) == n <==> forall|j: int| 0 <= j < n ==> g[j] == s[j],
    decreases n,
{
    if n > 0 {
        lemma_n_exact(g, s, n - 1);
    }
}

proof fn lemma_credited(g: Seq<char>, s: Seq<char>, c: char, n: int)
    requires
        is_word(g),
        is_word(s),
        0 <= n <= WORD_LENGTH,
    ensures
        credited(g, scoring(g, s), c, n) == exact(g, s, c, n) + if misplaced(g, s, c, n) < remaining(
            g,
            s,
            c,
        ) {
            misplaced(g, s, c, n) as int
        } else {
            remaining(g, s, c)
        },
    decreases n,
{
    lemma_exact_le_count(g, s, c, WORD_LENGTH as int);
    if n > 0 {
        lemma_credited(g, s, c, n - 1);
    }
}

/// Letter-count conservation: for every letter, the positions of the guess
/// that carry it and are scored `Green` or `Blue` never outnumber its
/// occurrences in the secret.
pub proof fn lemma_letter_conservation(g: Seq<char>, s: Seq<char>, c: char)
    requires
        is_word(g),
        is_word(s),
    ensures
        credited(g, scoring(g, s), c, WORD_LENGTH as int) <= count(s, c, WORD_LENGTH as int),
{
    lemma_credited(g, s, c, WORD_LENGTH as int);
}

pub fn upper_char(c: char) -> (r: char)
    ensures
        r == ascii_upper_char(c),
{
    if 'a' <= c && c <= 'z' {
        ((c as u8) - 32) as char
    } else {
        c
    }
}

fn letter_index(c: char) -> (r: usize)
    requires
        is_lower(c),
    ensures
        r == c as int - 'a' as int,
        r < 26,
{
    (c as u32 - 'a' as u32) as usize
}

fn word_chars(w: &str) -> (r: Vec<char>)
    requires
        w@.len() == WORD_LENGTH,
    ensures
        r@ == w@,
{
    let mut r: Vec<char> = Vec::new();
    let mut i: usize = 0;
    while i < WORD_LENGTH
        invariant
            i <= WORD_LENGTH,
            w@.len() == WORD_LENGTH,
            r@ == w@.take(i as int),
        decreases WORD_LENGTH - i,
    {
        r.push(w.get_char(i));
        i += 1;
        assert(r@ =~= w@.take(i as int));
    }
    assert(r@ =~= w@);
    r
}

/// Scores `guess` against `unknown_word`, letter by letter, and tells whether
/// the guess is the secret itself.
pub fn process_guess(guess: &str, unknown_word: &str) -> (r: (GuessColorMapping, IfWinner))
    requires
        is_word(guess@),
        is_word(unknown_word@),
    ensures
        r.0@ == scoring(guess@, unknown_word@),
        r.1 == all_green(r.0@),
        r.1 == (guess@ == unknown_word@),
{
    let g = word_chars(guess);
    let s = word_chars(unknown_word);
    let ghost gs = g@;
    let ghost ss = s@;
    

    // Letter histogram of the secret.
    let mut counts: Vec<u8> = vec![0u8; 26];
    let mut j: usize = 0;
    while j < WORD_LENGTH
        invariant
            j <= WORD_LENGTH,
            gs == g@,
            ss == s@,
            is_word(ss),
            counts@.len() == 26,
            forall|c: char| is_lower(c) ==> counts@[c as int - 'a' as int] == #[trigger] count(ss, c, j as int),
        decreases WORD_LENGTH - j,
    {
        let k = letter_index(s[j]);
        proof {
            lemma_count_bounds(ss, s@[j as int], j as int, j as int);
        }
        let ghost prev = counts@;
        counts.set(k, counts[k] + 1);
        j += 1;
        assert forall|c: char| is_lower(c) implies counts@[c as int - 'a' as int] == #[trigger] count(ss, c, j as int) by {
            assert(prev[c as int - 'a' as int] == count(ss, c, j - 1));
            if c != ss[j - 1] {
                assert(c as int - 'a' as int != k);
            }
        }
    }

    // Exact matches consume their occurrence.
    let mut green: Vec<bool> = Vec::new();
    let mut correct: usize = 0;
    let mut i: usize = 0;
    while i < WORD_LENGTH
        invariant
            i <= WORD_LENGTH,
            gs == g@,
            ss == s@,
            is_word(gs),
            is_word(ss),
            counts@.len() == 26,
            green@.len() == i,
            forall|p: int| 0 <= p < i ==> green@[p] == (gs[p] == ss[p]),
            correct == n_exact(gs, ss, i as int),
            forall|c: char| is_lower(c) ==> counts@[c as int - 'a' as int] == count(ss, c, WORD_LENGTH as int) - #[trigger] exact(gs, ss, c, i as int),
        decreases WORD_LENGTH - i,
    {
        proof {
            lemma_n_exact(gs, ss, i as int);
        }
        let ghost prev = counts@;
        if g[i] == s[i] {
            let k = letter_index(g[i]);
            proof {
                let c = gs[i as int];
                lemma_exact_le_count(gs, ss, c, i as int);
                lemma_count_bounds(ss, c, i as int + 1, WORD_LENGTH as int);
                assert(counts@[k as int] == count(ss, c, WORD_LENGTH as int) - exact(gs, ss, c, i as int));
            }
            counts.set(k, counts[k] - 1);
            green.push(true);
            correct += 1;
        } else {
            green.push(false);
        }
        i += 1;
        assert forall|c: char| is_lower(c) implies counts@[c as int - 'a' as int] == count(ss, c, WORD_LENGTH as int) - #[trigger] exact(gs, ss, c, i as int) by {
            assert(prev[c as int - 'a' as int] == count(ss, c, WORD_LENGTH as int) - exact(gs, ss, c, i - 1));
            if c != gs[i - 1] {
                assert(c as int - 'a' as int != gs[i - 1] as int - 'a' as int);
            }
        }
    }
    proof {
        lemma_n_exact(gs, ss, WORD_LENGTH as int);
        assert((correct == WORD_LENGTH) == (gs == ss)) by {
            if correct == WORD_LENGTH {
                assert(gs =~= ss);
            }
        }
    }

    // Other letters, left to right, take what the exact matches left over.
    let mut result: GuessColorMapping = Vec::new();
    let mut i: usize = 0;
    while i < WORD_LENGTH
        invariant
            i <= WORD_LENGTH,
            gs == g@,
            ss == s@,
            is_word(gs),
            is_word(ss),
            counts@.len() == 26,
            green@.len() == WORD_LENGTH,
            forall|p: int| 0 <= p < WORD_LENGTH ==> green@[p] == (gs[p] == ss[p]),
            forall|c: char| is_lower(c) ==> counts@[c as int - 'a' as int] == remaining(gs, ss, c) - if #[trigger] misplaced(gs, ss, c, i as int) < remaining(gs, ss, c) {
                misplaced(gs, ss, c, i as int) as int
            } else {
                remaining(gs, ss, c)
            },
            result@ == scoring(gs, ss).take(i as int),
        decreases WORD_LENGTH - i,
    {
        let c = g[i];
        let letter = upper_char(c);
        let ghost prev = counts@;
        if green[i] {
            result.push((letter, FontColors::Green));
        } else {
            let k = letter_index(c);
            if counts[k] > 0 {
                counts.set(k, counts[k] - 1);
                result.push((letter, FontColors::Blue));
            } else {
                result.push((letter, FontColors::Gray));
            }
        }
        i += 1;
        assert forall|d: char| is_lower(d) implies counts@[d as int - 'a' as int] == remaining(gs, ss, d) - if #[trigger] misplaced(gs, ss, d, i as int) < remaining(gs, ss, d) {
            misplaced(gs, ss, d, i as int) as int
        } else {
            remaining(gs, ss, d)
        } by {
            assert(prev[d as int - 'a' as int] == remaining(gs, ss, d) - if misplaced(gs, ss, d, i - 1) < remaining(gs, ss, d) {
                misplaced(gs, ss, d, i - 1) as int
            } else {
                remaining(gs, ss, d)
            });
            if d != gs[i - 1] {
                assert(d as int - 'a' as int != gs[i - 1] as int - 'a' as int);
            }
            lemma_exact_le_count(gs, ss, d, WORD_LENGTH as int);
        }
        assert(result@ =~= scoring(gs, ss).take(i as int));
    }
    assert(result@ =~= scoring(gs, ss));
    let win = correct == WORD_LENGTH;
    proof {
        if win {
            assert(all_green(result@));
        } else {
            assert(exists|p: int| 0 <= p < WORD_LENGTH as int && gs[p] != ss[p]);
            let p = choose|p: int| 0 <= p < WORD_LENGTH as int && gs[p] != ss[p];
            assert(result@[p].1 != FontColors::Green);
        }
    }
    (result, win)
}

} // verus!
