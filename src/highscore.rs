use vstd::prelude::*;

use crate::constants::HIGH_SCORE_CAPACITY;
use crate::records::{
    decimal_chars, lemma_parse_records_prefix, parse_board, parse_record, parse_records, record_text,
    serialize,
};
use crate::text::{chars_of, lines, push_char, push_chars, split_lines, views_of};

verus! {

/// Why a stored board could not be read.
#[derive(PartialEq, Eq, Structural, Clone, Copy, Debug)]
pub enum HighScoreError {
    /// A record is not a name and a score separated by whitespace, or the
    /// records do not form a valid board.
    CorruptedState,
}

/// One leaderboard record: a player's name and score.
#[derive(Debug)]
pub struct UserScore {
    username: String,
    score: u8,
}

impl View for UserScore {
    type V = (Seq<char>, u8);

    closed spec fn view(&self) -> (Seq<char>, u8) {
        (self.username@, self.score)
    }
}

impl UserScore {
    pub fn new(username: String, score: u8) -> (r: UserScore)
        ensures
            r@ == (username@, score),
    {
        UserScore { username, score }
    }

    pub fn get_username(&self) -> (r: &String)
        ensures
            r@ == self@.0,
    {
        &self.username
    }

    pub fn get_score(&self) -> (r: u8)
        ensures
            r == self@.1,
    {
        self.score
    }
}

pub open spec fn scores_view(v: Seq<UserScore>) -> Seq<(Seq<char>, u8)> {
    v.map_values(|u: UserScore| u@)
}

/// A well-formed board: at most `HIGH_SCORE_CAPACITY` entries, scores never
/// increasing along the board.
pub open spec fn board_wf(b: Seq<(Seq<char>, u8)>) -> bool {
    &&& b.len() <= HIGH_SCORE_CAPACITY
    &&& forall|i: int, j: int| 0 <= i < j < b.len() ==> #[trigger] b[i].1 >= #[trigger] b[j].1
}

/// Where a new score goes: before the first entry with a strictly lower
/// score, or at the end when there is none.
pub open spec fn insert_index(b: Seq<(Seq<char>, u8)>, score: u8, i: int) -> int
    decreases b.len() - i,
{
    if i >= b.len() {
        b.len() as int
    } else if score > b[i].1 {
        i
    } else {
        insert_index(b, score, i + 1)
    }
}

/// The board after offering it the entry `e`: inserted in place, then cut
/// back to capacity by dropping the last entry.
pub open spec fn inserted(b: Seq<(Seq<char>, u8)>, e: (Seq<char>, u8)) -> Seq<(Seq<char>, u8)> {
    let n = b.insert(insert_index(b, e.1, 0), e);
    if n.len() > HIGH_SCORE_CAPACITY {
        n.drop_last()
    } else {
        n
    }
}

proof fn lemma_insert_index(b: Seq<(Seq<char>, u8)>, score: u8, i: int)
    requires
        0 <= i <= b.len(),
    ensures
        i <= insert_index(b, score, i) <= b.len(),
        forall|k: int| i <= k < insert_index(b, score, i) ==> score <= #[trigger] b[k].1,
        insert_index(b, score, i) < b.len() ==> score > b[insert_index(b, score, i)].1,
    decreases b.len() - i,
{
    if i < b.len() && score <= b[i].1 {
        lemma_insert_index(b, score, i + 1);
    }
}

/// Whether the board `v` is well formed.
fn check_board(v: &Vec<UserScore>) -> (r: bool)
    ensures
        r == board_wf(scores_view(v@)),
{
    let ghost b = scores_view(v@);
    if v.len() > HIGH_SCORE_CAPACITY {
        return false;
    }
    let mut k: usize = 1;
    while k < v.len()
        invariant
            1 <= k,
            b == scores_view(v@),
            b.len() <= HIGH_SCORE_CAPACITY,
            forall|i: int, j: int| 0 <= i < j < k && j < b.len() ==> #[trigger] b[i].1 >= #[trigger] b[j].1,
        decreases v@.len() - k,
    {
        assert(b[k - 1] == v@[k - 1]@ && b[k as int] == v@[k as int]@);
        if v[k - 1].score < v[k].score {
            assert(!(b[k - 1].1 >= b[k as int].1));
            return false;
        }
        proof {
            assert forall|i: int, j: int| 0 <= i < j < k + 1 && j < b.len() implies #[trigger] b[i].1 >= #[trigger] b[j].1 by {
                if j == k && i < k - 1 {
                    assert(b[i].1 >= b[k - 1].1);
                }
            }
        }
        k += 1;
    }
    true
}

/// The best scores, highest first; among equal scores the earlier one ranks higher.
#[derive(Debug)]
pub struct HighScores {
    high_scores: Vec<UserScore>,
}

impl View for HighScores {
    type V = Seq<(Seq<char>, u8)>;

    closed spec fn view(&self) -> Seq<(Seq<char>, u8)> {
        scores_view(self.high_scores@)
    }
}

impl HighScores {
    /// An empty board.
    pub fn new() -> (r: HighScores)
        ensures
            r@ == Seq::<(Seq<char>, u8)>::empty(),
    {
        let r = HighScores { high_scores: Vec::new() };
        assert(r@ =~= Seq::<(Seq<char>, u8)>::empty());
        r
    }

    /// Reads a board from its stored text. The text is corrupted when a
    /// record is malformed, or when the board it holds breaks the board's
    /// rules (too many entries, a score above the one before it).
    pub fn init(stored: &str) -> (r: Result<HighScores, HighScoreError>)
        ensures
            match r {
                Ok(h) => parse_board(stored@) == Some(h@) && board_wf(h@),
                Err(_) => match parse_board(stored@) {
                    None => true,
                    Some(b) => !board_wf(b),
                },
            },
    {
        let cs = chars_of(stored);
        let ls = split_lines(&cs);
        let ghost vs = views_of(ls@);
        let mut high_scores: Vec<UserScore> = Vec::new();
        let mut k: usize = 0;
        assert(vs.take(0) =~= Seq::<Seq<char>>::empty());
        while k < ls.len()
            invariant
                k <= ls@.len(),
                vs == views_of(ls@),
                vs == lines(stored@),
                parse_records(vs.take(k as int)) == Some(scores_view(high_scores@)),
            decreases ls@.len() - k,
        {
            let ghost t = vs.take(k as int + 1);
            assert(t.drop_last() =~= vs.take(k as int));
            assert(t.last() == ls@[k as int]@);
            match parse_record(&ls[k]) {
                Some(u) => {
                    let ghost before = high_scores@;
                    high_scores.push(u);
                    assert(scores_view(high_scores@) =~= scores_view(before).push(u@));
                },
                None => {
                    proof {
                        lemma_parse_records_prefix(vs, k as int + 1);
                    }
                    return Err(HighScoreError::CorruptedState);
                },
            }
            k += 1;
        }
        assert(vs.take(k as int) =~= vs);
        if !check_board(&high_scores) {
            return Err(HighScoreError::CorruptedState);
        }
        Ok(HighScores { high_scores })
    }

    pub fn get_high_scores(&self) -> (r: &Vec<UserScore>)
        ensures
            scores_view(r@) == self@,
    {
        &self.high_scores
    }

    /// Offers `new_score` to the board: it goes before the first entry with a
    /// strictly lower score (at the end if none), and the board keeps at most
    /// `HIGH_SCORE_CAPACITY` entries.
    pub fn try_insert_new_score(&mut self, new_score: UserScore)
        ensures
            final(self)@ == inserted(old(self)@, new_score@),
            board_wf(old(self)@) ==> board_wf(final(self)@),
    {
        let ghost b = self@;
        let ghost e = new_score@;
        let mut pos: usize = 0;
        while pos < self.high_scores.len() && new_score.score <= self.high_scores[pos].score
            invariant
                pos <= self.high_scores@.len(),
                b == self@,
                e == new_score@,
                insert_index(b, e.1, 0) == insert_index(b, e.1, pos as int),
            decreases self.high_scores@.len() - pos,
        {
            assert(b[pos as int] == self.high_scores@[pos as int]@);
            pos += 1;
        }
        proof {
            if pos < self.high_scores@.len() {
                assert(b[pos as int] == self.high_scores@[pos as int]@);
            }
            lemma_insert_index(b, e.1, 0);
        }
        self.high_scores.insert(pos, new_score);
        assert(self@ =~= b.insert(pos as int, e));
        if self.high_scores.len() > HIGH_SCORE_CAPACITY {
            self.high_scores.pop();
            assert(self@ =~= b.insert(pos as int, e).drop_last());
        }
        proof {
            if board_wf(b) {
                let n = b.insert(pos as int, e);
                assert forall|i: int, j: int| 0 <= i < j < n.len() implies #[trigger] n[i].1 >= #[trigger] n[j].1 by {
                    if j < pos {
                    } else if j == pos {
                        assert(n[i] == b[i]);
                    } else if i == pos {
                        assert(n[j] == b[j - 1]);
                        assert(b[pos as int].1 >= b[j - 1].1);
                    } else if i < pos {
                        assert(n[j] == b[j - 1]);
                    } else {
                        assert(n[i] == b[i - 1]);
                        assert(n[j] == b[j - 1]);
                    }
                }
                let f = inserted(b, e);
                assert forall|i: int, j: int| 0 <= i < j < f.len() implies #[trigger] f[i].1 >= #[trigger] f[j].1 by {
                    assert(f[i] == n[i] && f[j] == n[j]);
                }
            }
        }
    }

    /// The board as stored text: one `<username> <score>` record per line.
    pub fn records_text(&self) -> (r: String)
        ensures
            r@ == serialize(self@),
    {
        let ghost b = self@;
        let mut buf = String::new();
        let mut k: usize = 0;
        while k < self.high_scores.len()
            invariant
                k <= self.high_scores@.len(),
                b == self@,
                buf@ == serialize(b.take(k as int)),
            decreases self.high_scores@.len() - k,
        {
            let ghost prev = buf@;
            if k > 0 {
                push_char(&mut buf, '\n');
            }
            let u = &self.high_scores[k];
            assert(u@ == b[k as int]);
            let name = chars_of(u.username.as_str());
            push_chars(&mut buf, &name);
            push_char(&mut buf, ' ');
            let digits = decimal_chars(u.score);
            push_chars(&mut buf, &digits);
            proof {
                let t = b.take(k as int + 1);
                assert(t.drop_last() =~= b.take(k as int));
                assert(t.last() == b[k as int]);
                if k == 0 {
                    assert(buf@ =~= record_text(t[0]));
                } else {
                    assert(buf@ =~= prev + seq!['\n'] + record_text(t.last()));
                }
            }
            k += 1;
        }
        assert(b.take(k as int) =~= b);
        buf
    }
}

} // verus!
