use vstd::prelude::*;
use vstd::string::StrSliceExecFns;

use core::cmp::Ordering;

use rand::Rng;

use crate::text::{chars_of, lines, split_lines, string_of, views_of};

verus! {

/// Lexicographic order on words, by character code.
pub open spec fn lex_lt(a: Seq<char>, b: Seq<char>) -> bool
    decreases a.len(),
{
    if a.len() == 0 {
        b.len() > 0
    } else if b.len() == 0 {
        false
    } else if a[0] == b[0] {
        lex_lt(a.drop_first(), b.drop_first())
    } else {
        (a[0] as u32) < (b[0] as u32)
    }
}

/// Strictly ascending: sorted and free of duplicates.
pub open spec fn is_sorted(v: Seq<Seq<char>>) -> bool {
    forall|i: int, j: int| 0 <= i < j < v.len() ==> lex_lt(#[trigger] v[i], #[trigger] v[j])
}

pub open spec fn words_view(v: Seq<String>) -> Seq<Seq<char>> {
    v.map_values(|w: String| w@)
}

pub proof fn lemma_lex_irreflexive(a: Seq<char>)
    ensures
        !lex_lt(a, a),
    decreases a.len(),
{
    if a.len() > 0 {
        lemma_lex_irreflexive(a.drop_first());
    }
}

pub proof fn lemma_lex_transitive(a: Seq<char>, b: Seq<char>, c: Seq<char>)
    requires
        lex_lt(a, b),
        lex_lt(b, c),
    ensures
        lex_lt(a, c),
    decreases a.len(),
{
    if a.len() > 0 && b.len() > 0 && c.len() > 0 {
        if a[0] == b[0] && b[0] == c[0] {
            lemma_lex_transitive(a.drop_first(), b.drop_first(), c.drop_first());
        }
    }
}

proof fn lemma_lex_step(a: Seq<char>, b: Seq<char>, i: int)
    requires
        0 <= i < a.len(),
        i < b.len(),
        a[i] == b[i],
    ensures
        lex_lt(a.skip(i), b.skip(i)) == lex_lt(a.skip(i + 1), b.skip(i + 1)),
{
    assert(a.skip(i).drop_first() =~= a.skip(i + 1));
    assert(b.skip(i).drop_first() =~= b.skip(i + 1));
}

/// Compares two words in the order `lex_lt`.
pub fn compare_words(a: &str, b: &str) -> (r: Ordering)
    ensures
        (r == Ordering::Less) == lex_lt(a@, b@),
        (r == Ordering::Equal) == (a@ == b@),
        (r == Ordering::Greater) == lex_lt(b@, a@),
{
    let la = a.unicode_len();
    let lb = b.unicode_len();
    let mut i: usize = 0;
    assert(a@.skip(0) =~= a@);
    assert(b@.skip(0) =~= b@);
    while i < la && i < lb
        invariant
            i <= la,
            i <= lb,
            la == a@.len(),
            lb == b@.len(),
            a@.take(i as int) == b@.take(i as int),
            lex_lt(a@, b@) == lex_lt(a@.skip(i as int), b@.skip(i as int)),
            lex_lt(b@, a@) == lex_lt(b@.skip(i as int), a@.skip(i as int)),
        decreases la - i,
    {
        let ca = a.get_char(i);
        let cb = b.get_char(i);
        if ca != cb {
            proof {
                assert(a@.skip(i as int)[0] == ca);
                assert(b@.skip(i as int)[0] == cb);
                assert(a@[i as int] != b@[i as int]);
            }
            if (ca as u32) < (cb as u32) {
                return Ordering::Less;
            } else {
                return Ordering::Greater;
            }
        }
        proof {
            lemma_lex_step(a@, b@, i as int);
            lemma_lex_step(b@, a@, i as int);
        }
        i += 1;
        assert(a@.take(i as int) =~= a@.take(i - 1).push(ca));
        assert(b@.take(i as int) =~= b@.take(i - 1).push(cb));
    }
    if la < lb {
        assert(a@.skip(i as int).len() == 0);
        assert(a@.len() != b@.len());
        Ordering::Less
    } else if lb < la {
        assert(b@.skip(i as int).len() == 0);
        assert(a@.len() != b@.len());
        Ordering::Greater
    } else {
        assert(a@ =~= a@.take(i as int));
        assert(b@ =~= b@.take(i as int));
        proof {
            lemma_lex_irreflexive(a@);
        }
        Ordering::Equal
    }
}

/// `a` and `b` hold the same words.
pub open spec fn same_words(a: Seq<Seq<char>>, b: Seq<Seq<char>>) -> bool {
    forall|w: Seq<char>| a.contains(w) <==> b.contains(w)
}

proof fn lemma_contains_push(s: Seq<Seq<char>>, x: Seq<char>)
    ensures
        forall|w: Seq<char>| s.push(x).contains(w) <==> (s.contains(w) || w == x),
{
    assert forall|w: Seq<char>| s.push(x).contains(w) implies (s.contains(w) || w == x) by {
        let k = choose|k: int| 0 <= k < s.push(x).len() && s.push(x)[k] == w;
        if k < s.len() {
            assert(s[k] == w);
        }
    }
    assert forall|w: Seq<char>| (s.contains(w) || w == x) implies s.push(x).contains(w) by {
        if w == x {
            assert(s.push(x)[s.len() as int] == w);
        } else {
            let k = choose|k: int| 0 <= k < s.len() && s[k] == w;
            assert(s.push(x)[k] == w);
        }
    }
}

proof fn lemma_sorted_push(s: Seq<Seq<char>>, x: Seq<char>)
    requires
        is_sorted(s),
        s.len() > 0 ==> lex_lt(s.last(), x),
    ensures
        is_sorted(s.push(x)),
{
    let p = s.push(x);
    assert forall|i: int, j: int| 0 <= i < j < p.len() implies lex_lt(#[trigger] p[i], #[trigger] p[j]) by {
        if j == s.len() {
            if i < s.len() - 1 {
                lemma_lex_transitive(s[i], s.last(), x);
            }
        } else {
            assert(lex_lt(s[i], s[j]));
        }
    }
}

/// Appends `words[i]`, which must come after what `out` holds, and moves on.
fn take_word(out: &mut Vec<String>, words: &Vec<String>, i: usize)
    requires
        i < words@.len(),
        is_sorted(words_view(old(out)@)),
        old(out)@.len() > 0 ==> lex_lt(words_view(old(out)@).last(), words@[i as int]@),
    ensures
        words_view(final(out)@) == words_view(old(out)@).push(words@[i as int]@),
        is_sorted(words_view(final(out)@)),
{
    let w = words[i].clone();
    out.push(w);
    assert(words_view(out@) =~= words_view(old(out)@).push(words@[i as int]@));
    proof {
        lemma_sorted_push(words_view(old(out)@), words@[i as int]@);
    }
}

/// Merges two strictly ascending lists into one, keeping one copy of a word
/// that both hold.
fn merge(a: &Vec<String>, b: &Vec<String>) -> (r: Vec<String>)
    requires
        is_sorted(words_view(a@)),
        is_sorted(words_view(b@)),
    ensures
        is_sorted(words_view(r@)),
        forall|w: Seq<char>| words_view(r@).contains(w) <==> (words_view(a@).contains(w) || words_view(b@).contains(w)),
{
    let ghost va = words_view(a@);
    let ghost vb = words_view(b@);
    let mut out: Vec<String> = Vec::new();
    let mut i: usize = 0;
    let mut j: usize = 0;
    assert(va.take(0) =~= Seq::<Seq<char>>::empty());
    assert(vb.take(0) =~= Seq::<Seq<char>>::empty());
    while i < a.len() || j < b.len()
        invariant
            i <= va.len(),
            j <= vb.len(),
            va == words_view(a@),
            vb == words_view(b@),
            is_sorted(va),
            is_sorted(vb),
            is_sorted(words_view(out@)),
            out@.len() > 0 ==> forall|k: int| i <= k < va.len() ==> lex_lt(words_view(out@).last(), #[trigger] va[k]),
            out@.len() > 0 ==> forall|k: int| j <= k < vb.len() ==> lex_lt(words_view(out@).last(), #[trigger] vb[k]),
            forall|w: Seq<char>| words_view(out@).contains(w) <==> (va.take(i as int).contains(w) || vb.take(j as int).contains(w)),
        decreases va.len() + vb.len() - i - j,
    {
        let ghost before = words_view(out@);
        let ghost i0 = i as int;
        let ghost j0 = j as int;
        let ord = if i >= a.len() {
            Ordering::Greater
        } else if j >= b.len() {
            Ordering::Less
        } else {
            compare_words(a[i].as_str(), b[j].as_str())
        };
        match ord {
            Ordering::Less => {
                proof {
                    lemma_contains_push(va.take(i as int), va[i as int]);
                    assert(va.take(i + 1) =~= va.take(i as int).push(va[i as int]));
                }
                take_word(&mut out, a, i);
                proof {
                    lemma_contains_push(before, va[i as int]);
                    assert forall|k: int| j <= k < vb.len() implies lex_lt(words_view(out@).last(), #[trigger] vb[k]) by {
                        if k > j {
                            lemma_lex_transitive(va[i as int], vb[j as int], vb[k]);
                        }
                    }
                    assert forall|k: int| i + 1 <= k < va.len() implies lex_lt(words_view(out@).last(), #[trigger] va[k]) by {
                        assert(lex_lt(va[i as int], va[k]));
                    }
                }
                i += 1;
            },
            Ordering::Equal => {
                proof {
                    lemma_contains_push(va.take(i as int), va[i as int]);
                    assert(va.take(i + 1) =~= va.take(i as int).push(va[i as int]));
                }
                proof {
                    lemma_contains_push(vb.take(j as int), vb[j as int]);
                    assert(vb.take(j + 1) =~= vb.take(j as int).push(vb[j as int]));
                }
                take_word(&mut out, a, i);
                proof {
                    lemma_contains_push(before, va[i as int]);
                    assert forall|k: int| j + 1 <= k < vb.len() implies lex_lt(words_view(out@).last(), #[trigger] vb[k]) by {
                        assert(lex_lt(vb[j as int], vb[k]));
                    }
                    assert forall|k: int| i + 1 <= k < va.len() implies lex_lt(words_view(out@).last(), #[trigger] va[k]) by {
                        assert(lex_lt(va[i as int], va[k]));
                    }
                }
                i += 1;
                j += 1;
            },
            Ordering::Greater => {
                proof {
                    lemma_contains_push(vb.take(j as int), vb[j as int]);
                    assert(vb.take(j + 1) =~= vb.take(j as int).push(vb[j as int]));
                }
                take_word(&mut out, b, j);
                proof {
                    lemma_contains_push(before, vb[j as int]);
                    assert forall|k: int| i <= k < va.len() implies lex_lt(words_view(out@).last(), #[trigger] va[k]) by {
                        if k > i {
                            lemma_lex_transitive(vb[j as int], va[i as int], va[k]);
                        }
                    }
                    assert forall|k: int| j + 1 <= k < vb.len() implies lex_lt(words_view(out@).last(), #[trigger] vb[k]) by {
                        assert(lex_lt(vb[j as int], vb[k]));
                    }
                }
                j += 1;
            },
        }
        assert forall|w: Seq<char>| words_view(out@).contains(w) <==> (va.take(i as int).contains(w) || vb.take(j as int).contains(w)) by {
            assert(before.contains(w) <==> (va.take(i0).contains(w) || vb.take(j0).contains(w)));
        }
    }
    assert(va.take(i as int) =~= va);
    assert(vb.take(j as int) =~= vb);
    out
}

/// The words of `words[lo..hi]`, strictly ascending, each once.
fn sort_range(words: &Vec<String>, lo: usize, hi: usize) -> (r: Vec<String>)
    requires
        lo <= hi <= words@.len(),
    ensures
        is_sorted(words_view(r@)),
        same_words(words_view(r@), words_view(words@).subrange(lo as int, hi as int)),
    decreases hi - lo,
{
    let ghost v = words_view(words@);
    if hi - lo == 0 {
        let r: Vec<String> = Vec::new();
        assert(words_view(r@) =~= v.subrange(lo as int, hi as int));
        return r;
    }
    if hi - lo == 1 {
        let mut r: Vec<String> = Vec::new();
        r.push(words[lo].clone());
        assert(words_view(r@) =~= v.subrange(lo as int, hi as int));
        return r;
    }
    let mid = lo + (hi - lo) / 2;
    let left = sort_range(words, lo, mid);
    let right = sort_range(words, mid, hi);
    let r = merge(&left, &right);
    proof {
        let whole = v.subrange(lo as int, hi as int);
        let l = v.subrange(lo as int, mid as int);
        let h = v.subrange(mid as int, hi as int);
        assert forall|w: Seq<char>| whole.contains(w) <==> (l.contains(w) || h.contains(w)) by {
            if whole.contains(w) {
                let k = choose|k: int| 0 <= k < whole.len() && whole[k] == w;
                if k < mid - lo {
                    assert(l[k] == w);
                } else {
                    assert(h[k - (mid - lo)] == w);
                }
            }
            if l.contains(w) {
                let k = choose|k: int| 0 <= k < l.len() && l[k] == w;
                assert(whole[k] == w);
            }
            if h.contains(w) {
                let k = choose|k: int| 0 <= k < h.len() && h[k] == w;
                assert(whole[k + (mid - lo)] == w);
            }
        }
    }
    r
}

/// The words of `words`, strictly ascending, each once.
fn sort_words(words: &Vec<String>) -> (r: Vec<String>)
    ensures
        is_sorted(words_view(r@)),
        same_words(words_view(r@), words_view(words@)),
{
    let r = sort_range(words, 0, words.len());
    assert(words_view(words@).subrange(0, words@.len() as int) =~= words_view(words@));
    r
}

/// Binary search for `target` in the strictly ascending `words`.
fn binary_search(words: &Vec<String>, target: &str) -> (r: bool)
    requires
        is_sorted(words_view(words@)),
    ensures
        r == words_view(words@).contains(target@),
{
    let ghost v = words_view(words@);
    let mut lo: usize = 0;
    let mut hi: usize = words.len();
    while lo < hi
        invariant
            lo <= hi <= words@.len(),
            v == words_view(words@),
            is_sorted(v),
            forall|i: int| 0 <= i < lo ==> lex_lt(#[trigger] v[i], target@),
            forall|i: int| hi <= i < v.len() ==> lex_lt(target@, #[trigger] v[i]),
        decreases hi - lo,
    {
        let mid = lo + (hi - lo) / 2;
        match compare_words(words[mid].as_str(), target) {
            Ordering::Equal => {
                assert(v[mid as int] == target@);
                return true;
            },
            Ordering::Less => {
                assert forall|i: int| 0 <= i < mid + 1 implies lex_lt(#[trigger] v[i], target@) by {
                    if i < mid {
                        lemma_lex_transitive(v[i], v[mid as int], target@);
                    }
                }
                lo = mid + 1;
            },
            Ordering::Greater => {
                assert forall|i: int| mid <= i < v.len() implies lex_lt(target@, #[trigger] v[i]) by {
                    if i > mid {
                        lemma_lex_transitive(target@, v[mid as int], v[i]);
                    }
                }
                hi = mid;
            },
        }
    }
    assert forall|i: int| 0 <= i < v.len() implies #[trigger] v[i] != target@ by {
        lemma_lex_irreflexive(target@);
    }
    false
}

/// The words of a newline-separated list, one per line.
fn words_of(text: &str) -> (r: Vec<String>)
    ensures
        words_view(r@) == lines(text@),
{
    let cs = chars_of(text);
    let ls = split_lines(&cs);
    let mut r: Vec<String> = Vec::new();
    let mut k: usize = 0;
    while k < ls.len()
        invariant
            k <= ls@.len(),
            views_of(ls@) == lines(text@),
            words_view(r@) == views_of(ls@).take(k as int),
        decreases ls@.len() - k,
    {
        let w = string_of(&ls[k]);
        assert(w@ == views_of(ls@)[k as int]);
        let ghost before = r@;
        r.push(w);
        assert(r@ == before.push(w));
        assert(words_view(r@) =~= words_view(before).push(w@));
        k += 1;
        assert(words_view(r@) =~= views_of(ls@).take(k as int));
    }
    assert(views_of(ls@).take(k as int) =~= views_of(ls@));
    r
}

/// Relies on rand's `thread_rng().gen_range(0..len)`: a uniformly drawn index
/// below `len` (the call panics on an empty range).
#[verifier::external_body]
fn random_index(len: usize) -> (r: usize)
    requires
        len > 0,
    ensures
        r < len,
{
    rand::thread_rng().gen_range(0..len)
}

/// The two word lists of the puzzle: candidate secrets and allowed guesses,
/// each kept strictly ascending so that lookups are binary searches.
pub struct WordBank {
    unknown_words: Vec<String>,
    allowed_words: Vec<String>,
}

impl WordBank {
    /// The candidate secrets.
    pub closed spec fn unknown(&self) -> Seq<Seq<char>> {
        words_view(self.unknown_words@)
    }

    /// The words accepted as guesses.
    pub closed spec fn allowed(&self) -> Seq<Seq<char>> {
        words_view(self.allowed_words@)
    }

    /// Both lists strictly ascending, and at least one candidate secret.
    pub open spec fn wf(&self) -> bool {
        &&& is_sorted(self.unknown())
        &&& is_sorted(self.allowed())
        &&& self.unknown().len() > 0
    }

    /// Loads both lists from newline-separated texts, one word per line,
    /// sorting them and dropping repeated words. There is no bank when the
    /// list of secrets has no line.
    pub fn init(unknown_text: &str, allowed_text: &str) -> (r: Option<WordBank>)
        ensures
            r is Some <==> lines(unknown_text@).len() > 0,
            r matches Some(b) ==> {
                &&& b.wf()
                &&& same_words(b.unknown(), lines(unknown_text@))
                &&& same_words(b.allowed(), lines(allowed_text@))
            },
    {
        let unknown_lines = words_of(unknown_text);
        if unknown_lines.len() == 0 {
            return None;
        }
        let allowed_lines = words_of(allowed_text);
        let unknown_words = sort_words(&unknown_lines);
        let allowed_words = sort_words(&allowed_lines);
        proof {
            let w = words_view(unknown_lines@)[0];
            assert(words_view(unknown_lines@).contains(w));
            assert(words_view(unknown_words@).contains(w));
        }
        Some(WordBank { unknown_words, allowed_words })
    }

    pub fn get_unknown_words(&self) -> (r: &Vec<String>)
        ensures
            words_view(r@) == self.unknown(),
    {
        &self.unknown_words
    }

    pub fn get_allowed_words(&self) -> (r: &Vec<String>)
        ensures
            words_view(r@) == self.allowed(),
    {
        &self.allowed_words
    }

    /// A candidate secret drawn at random.
    pub fn get_random_word_in_unknown_words(&self) -> (r: String)
        requires
            self.wf(),
        ensures
            self.unknown().contains(r@),
    {
        let i = random_index(self.unknown_words.len());
        let w = self.unknown_words[i].clone();
        assert(self.unknown()[i as int] == w@);
        w
    }

    /// Whether `target_word` is a candidate secret.
    pub fn in_unknown_words(&self, target_word: &str) -> (r: bool)
        requires
            self.wf(),
        ensures
            r == self.unknown().contains(target_word@),
    {
        binary_search(&self.unknown_words, target_word)
    }

    /// Whether `target_word` is accepted as a guess.
    pub fn in_allowed_words(&self, target_word: &str) -> (r: bool)
        requires
            self.wf(),
        ensures
            r == self.allowed().contains(target_word@),
    {
        binary_search(&self.allowed_words, target_word)
    }
}

/// Membership is reflexive over what was loaded: each line of a loaded list
/// is found in the bank, and a word on neither list is found in neither.
pub proof fn lemma_loaded_words_found(
    b: WordBank,
    unknown_text: Seq<char>,
    allowed_text: Seq<char>,
    w: Seq<char>,
)
    requires
        same_words(b.unknown(), lines(unknown_text)),
        same_words(b.allowed(), lines(allowed_text)),
    ensures
        forall|i: int| 0 <= i < lines(unknown_text).len() ==> b.unknown().contains(#[trigger] lines(unknown_text)[i]),
        forall|i: int| 0 <= i < lines(allowed_text).len() ==> b.allowed().contains(#[trigger] lines(allowed_text)[i]),
        !lines(unknown_text).contains(w) && !lines(allowed_text).contains(w) ==> !b.unknown().contains(w) && !b.allowed().contains(w),
{
    assert forall|i: int| 0 <= i < lines(unknown_text).len() implies b.unknown().contains(#[trigger] lines(unknown_text)[i]) by {
        assert(lines(unknown_text).contains(lines(unknown_text)[i]));
    }
    assert forall|i: int| 0 <= i < lines(allowed_text).len() implies b.allowed().contains(#[trigger] lines(allowed_text)[i]) by {
        assert(lines(allowed_text).contains(lines(allowed_text)[i]));
    }
}

} // verus!
