use vstd::prelude::*;

use crate::highscore::UserScore;
use crate::text::{copy_range, line_end, lines, string_of, strip_cr};

verus! {

/// The character of the decimal digit `d`.
pub open spec fn digit_char(d: int) -> char {
    (d + '0' as int) as char
}

/// The decimal digits of `n`, most significant first, without leading zeros.
pub open spec fn decimal(n: nat) -> Seq<char>
    decreases n,
{
    if n < 10 {
        seq![digit_char(n as int)]
    } else {
        decimal(n / 10).push(digit_char((n % 10) as int))
    }
}

pub open spec fn is_digit(c: char) -> bool {
    '0' <= c && c <= '9'
}

pub open spec fn is_digits(s: Seq<char>) -> bool {
    &&& s.len() > 0
    &&& forall|i: int| 0 <= i < s.len() ==> is_digit(#[trigger] s[i])
}

/// The number that the decimal digits `s` stand for.
pub open spec fn digits_value(s: Seq<char>) -> int
    decreases s.len(),
{
    if s.len() == 0 {
        0
    } else {
        digits_value(s.drop_last()) * 10 + (s.last() as int - '0' as int)
    }
}

proof fn lemma_decimal(n: nat)
    ensures
        is_digits(decimal(n)),
        digits_value(decimal(n)) == n,
    decreases n,
{
    let d = decimal(n);
    assert(d.len() > 0);
    assert(digits_value(d) == digits_value(d.drop_last()) * 10 + (d.last() as int - '0' as int));
    if n >= 10 {
        lemma_decimal(n / 10);
        assert(d.drop_last() =~= decimal(n / 10));
        assert(d.last() as int == (n % 10) + '0' as int);
        assert((n / 10) * 10 + n % 10 == n) by (nonlinear_arith);
    } else {
        assert(d.drop_last() =~= Seq::<char>::empty());
        assert(d.last() as int == n + '0' as int);
    }
}

fn digit_of(d: u8) -> (r: char)
    requires
        d < 10,
    ensures
        r == digit_char(d as int),
{
    (d + 48) as char
}

/// The decimal digits of `n`.
pub fn decimal_chars(n: u8) -> (r: Vec<char>)
    ensures
        r@ == decimal(n as nat),
{
    let mut acc: Vec<char> = Vec::new();
    let mut x: u8 = n;
    while x >= 10
        invariant
            decimal(n as nat) == decimal(x as nat) + acc@,
        decreases x,
    {
        let c = digit_of(x % 10);
        acc.insert(0, c);
        assert(decimal(x as nat) == decimal((x / 10) as nat).push(c));
        assert(decimal(n as nat) =~= decimal((x / 10) as nat) + acc@);
        x = x / 10;
    }
    let c = digit_of(x);
    acc.insert(0, c);
    assert(decimal(n as nat) =~= acc@);
    acc
}

/// One stored record: the name, a space, the score in decimal.
pub open spec fn record_text(e: (Seq<char>, u8)) -> Seq<char> {
    e.0 + seq![' '] + decimal(e.1 as nat)
}

/// A board as text: one record per line, with no newline after the last.
pub open spec fn serialize(b: Seq<(Seq<char>, u8)>) -> Seq<char>
    decreases b.len(),
{
    if b.len() == 0 {
        Seq::empty()
    } else if b.len() == 1 {
        record_text(b[0])
    } else {
        serialize(b.drop_last()) + seq!['\n'] + record_text(b.last())
    }
}

/// ASCII whitespace: space, tab, line feed, form feed, carriage return.
pub open spec fn is_ws(c: char) -> bool {
    c == ' ' || c == '\t' || c == '\n' || c == '\x0C' || c == '\r'
}

/// The first position from `i` on that holds no whitespace (or the end).
pub open spec fn skip_ws(l: Seq<char>, i: int) -> int
    decreases l.len() - i,
{
    if i < l.len() && is_ws(l[i]) {
        skip_ws(l, i + 1)
    } else {
        i
    }
}

/// The first position from `i` on that holds whitespace (or the end).
pub open spec fn skip_word(l: Seq<char>, i: int) -> int
    decreases l.len() - i,
{
    if i < l.len() && !is_ws(l[i]) {
        skip_word(l, i + 1)
    } else {
        i
    }
}

/// A stored record: exactly two whitespace-separated tokens, a name and a
/// decimal score that fits in a byte.
pub open spec fn parse_line(l: Seq<char>) -> Option<(Seq<char>, u8)> {
    let a = skip_ws(l, 0);
    let b = skip_word(l, a);
    let c = skip_ws(l, b);
    let d = skip_word(l, c);
    let e = skip_ws(l, d);
    let digits = l.subrange(c, d);
    if a < b && c < d && e == l.len() && is_digits(digits) && digits_value(digits) <= 255 {
        Some((l.subrange(a, b), digits_value(digits) as u8))
    } else {
        None
    }
}

/// The records of the lines `ls`, or `None` when one of them is malformed.
pub open spec fn parse_records(ls: Seq<Seq<char>>) -> Option<Seq<(Seq<char>, u8)>>
    decreases ls.len(),
{
    if ls.len() == 0 {
        Some(Seq::empty())
    } else {
        match (parse_records(ls.drop_last()), parse_line(ls.last())) {
            (Some(p), Some(r)) => Some(p.push(r)),
            _ => None,
        }
    }
}

/// The board that a stored text holds, or `None` when the text is corrupted.
pub open spec fn parse_board(t: Seq<char>) -> Option<Seq<(Seq<char>, u8)>> {
    parse_records(lines(t))
}

pub proof fn lemma_parse_records_prefix(ls: Seq<Seq<char>>, k: int)
    requires
        0 <= k <= ls.len(),
        parse_records(ls.take(k)) is None,
    ensures
        parse_records(ls) is None,
    decreases ls.len() - k,
{
    if k < ls.len() {
        assert(ls.take(k + 1).drop_last() =~= ls.take(k));
        lemma_parse_records_prefix(ls, k + 1);
    } else {
        assert(ls.take(k) =~= ls);
    }
}

proof fn lemma_digits_value_nonneg(s: Seq<char>)
    requires
        forall|i: int| 0 <= i < s.len() ==> is_digit(#[trigger] s[i]),
    ensures
        digits_value(s) >= 0,
    decreases s.len(),
{
    if s.len() > 0 {
        lemma_digits_value_nonneg(s.drop_last());
    }
}

proof fn lemma_digits_value_mono(s: Seq<char>, k: int)
    requires
        is_digits(s),
        0 < k <= s.len(),
    ensures
        digits_value(s.take(k)) <= digits_value(s),
    decreases s.len(),
{
    if k == s.len() {
        assert(s.take(k) =~= s);
    } else {
        assert(s.take(k) =~= s.drop_last().take(k));
        lemma_digits_value_mono(s.drop_last(), k);
        lemma_digits_value_nonneg(s.drop_last());
    }
}

fn is_ws_char(c: char) -> (r: bool)
    ensures
        r == is_ws(c),
{
    c == ' ' || c == '\t' || c == '\n' || c == '\x0C' || c == '\r'
}

fn skip_ws_from(l: &Vec<char>, i: usize) -> (r: usize)
    requires
        i <= l@.len(),
    ensures
        r == skip_ws(l@, i as int),
        i <= r <= l@.len(),
{
    let mut j = i;
    while j < l.len() && is_ws_char(l[j])
        invariant
            i <= j <= l@.len(),
            skip_ws(l@, i as int) == skip_ws(l@, j as int),
        decreases l@.len() - j,
    {
        j += 1;
    }
    j
}

fn skip_word_from(l: &Vec<char>, i: usize) -> (r: usize)
    requires
        i <= l@.len(),
    ensures
        r == skip_word(l@, i as int),
        i <= r <= l@.len(),
        forall|k: int| i <= k < r ==> !is_ws(#[trigger] l@[k]),
{
    let mut j = i;
    while j < l.len() && !is_ws_char(l[j])
        invariant
            i <= j <= l@.len(),
            skip_word(l@, i as int) == skip_word(l@, j as int),
            forall|k: int| i <= k < j ==> !is_ws(#[trigger] l@[k]),
        decreases l@.len() - j,
    {
        j += 1;
    }
    j
}

/// The value of the digits `l[from..to]`, when they are all digits and it
/// fits in a byte.
fn parse_score(l: &Vec<char>, from: usize, to: usize) -> (r: Option<u8>)
    requires
        from < to <= l@.len(),
    ensures
        ({
            let s = l@.subrange(from as int, to as int);
            match r {
                Some(v) => is_digits(s) && digits_value(s) == v as int,
                None => !(is_digits(s) && digits_value(s) <= 255),
            }
        }),
{
    let ghost s = l@.subrange(from as int, to as int);
    let mut v: u32 = 0;
    let mut k: usize = from;
    while k < to
        invariant
            from <= k <= to <= l@.len(),
            s == l@.subrange(from as int, to as int),
            forall|m: int| 0 <= m < k - from ==> is_digit(#[trigger] s[m]),
            v as int == digits_value(s.take(k - from)),
            v <= 255,
        decreases to - k,
    {
        let c = l[k];
        if !('0' <= c && c <= '9') {
            assert(!is_digit(s[k - from]));
            return None;
        }
        let ghost t = s.take(k - from + 1);
        assert(t.drop_last() =~= s.take(k - from));
        v = v * 10 + (c as u32 - '0' as u32);
        k += 1;
        if v > 255 {
            proof {
                if is_digits(s) {
                    lemma_digits_value_mono(s, k - from);
                }
            }
            return None;
        }
    }
    assert(s.take(to - from) =~= s);
    Some(v as u8)
}

/// Parses one stored record.
pub fn parse_record(l: &Vec<char>) -> (r: Option<UserScore>)
    ensures
        match r {
            Some(u) => parse_line(l@) == Some(u@),
            None => parse_line(l@) is None,
        },
{
    let a = skip_ws_from(l, 0);
    let b = skip_word_from(l, a);
    let c = skip_ws_from(l, b);
    let d = skip_word_from(l, c);
    let e = skip_ws_from(l, d);
    if !(a < b && c < d && e == l.len()) {
        return None;
    }
    match parse_score(l, c, d) {
        Some(score) => {
            let name = copy_range(l, a, b);
            let username = string_of(&name);
            Some(UserScore::new(username, score))
        },
        None => None,
    }
}

/// A name that a stored record can hold: not empty, no whitespace.
pub open spec fn is_username(u: Seq<char>) -> bool {
    &&& u.len() > 0
    &&& forall|i: int| 0 <= i < u.len() ==> !is_ws(#[trigger] u[i])
}

proof fn lemma_serialize_front(b: Seq<(Seq<char>, u8)>)
    requires
        b.len() >= 2,
    ensures
        serialize(b) == record_text(b[0]) + seq!['\n'] + serialize(b.drop_first()),
    decreases b.len(),
{
    if b.len() == 2 {
        assert(b.drop_last() =~= seq![b[0]]);
        assert(b.drop_first() =~= seq![b[1]]);
        assert(serialize(b.drop_last()) == record_text(b[0]));
        assert(serialize(b.drop_first()) == record_text(b[1]));
        assert(serialize(b) =~= record_text(b[0]) + seq!['\n'] + serialize(b.drop_first()));
    } else {
        lemma_serialize_front(b.drop_last());
        assert(b.drop_last().drop_first() =~= b.drop_first().drop_last());
        assert(b.drop_first().last() == b.last());
        assert(b.drop_last()[0] == b[0]);
        assert(serialize(b.drop_first()) == serialize(b.drop_first().drop_last()) + seq!['\n']
            + record_text(b.last()));
        assert(serialize(b) =~= record_text(b[0]) + seq!['\n'] + serialize(b.drop_first()));
    }
}

proof fn lemma_line_end_concat(x: Seq<char>, z: Seq<char>)
    requires
        forall|i: int| 0 <= i < x.len() ==> #[trigger] x[i] != '\n',
    ensures
        line_end(x + z) == x.len() + line_end(z),
    decreases x.len(),
{
    if x.len() > 0 {
        assert((x + z).drop_first() =~= x.drop_first() + z);
        lemma_line_end_concat(x.drop_first(), z);
    } else {
        assert(x + z =~= z);
    }
}

proof fn lemma_record_text(e: (Seq<char>, u8))
    requires
        is_username(e.0),
    ensures
        forall|i: int| 0 <= i < record_text(e).len() ==> #[trigger] record_text(e)[i] != '\n',
        record_text(e).len() > e.0.len() + 1,
        is_digit(record_text(e).last()),
{
    lemma_decimal(e.1 as nat);
    let r = record_text(e);
    let d = decimal(e.1 as nat);
    assert forall|i: int| 0 <= i < r.len() implies #[trigger] r[i] != '\n' by {
        if i < e.0.len() {
            assert(r[i] == e.0[i]);
        } else if i > e.0.len() {
            assert(r[i] == d[i - e.0.len() - 1]);
        }
    }
    assert(r.last() == d[d.len() - 1]);
}

proof fn lemma_lines_of_serialize(b: Seq<(Seq<char>, u8)>)
    requires
        forall|i: int| 0 <= i < b.len() ==> is_username(#[trigger] b[i].0),
    ensures
        lines(serialize(b)) == b.map_values(|e: (Seq<char>, u8)| record_text(e)),
    decreases b.len(),
{
    let m = b.map_values(|e: (Seq<char>, u8)| record_text(e));
    if b.len() == 0 {
        assert(lines(serialize(b)) =~= m);
    } else {
        let r = record_text(b[0]);
        assert(is_username(b[0].0));
        lemma_record_text(b[0]);
        if b.len() == 1 {
            lemma_line_end_concat(r, Seq::empty());
            assert(r + Seq::<char>::empty() =~= r);
            assert(lines(serialize(b)) =~= m);
        } else {
            lemma_serialize_front(b);
            let rest = serialize(b.drop_first());
            let s = r + seq!['\n'] + rest;
            lemma_line_end_concat(r, seq!['\n'] + rest);
            assert(r + (seq!['\n'] + rest) =~= s);
            assert(s.take(r.len() as int) =~= r);
            assert(s.skip(r.len() as int + 1) =~= rest);
            assert forall|i: int| 0 <= i < b.drop_first().len() implies is_username(#[trigger] b.drop_first()[i].0) by {
                assert(b.drop_first()[i] == b[i + 1]);
            }
            lemma_lines_of_serialize(b.drop_first());
            assert(strip_cr(r) == r);
            assert(lines(serialize(b)) =~= m);
        }
    }
}

proof fn lemma_skip_word_run(l: Seq<char>, i: int, k: int)
    requires
        0 <= i <= k <= l.len(),
        forall|m: int| i <= m < k ==> !is_ws(#[trigger] l[m]),
        k == l.len() || is_ws(l[k]),
    ensures
        skip_word(l, i) == k,
    decreases k - i,
{
    if i < k {
        lemma_skip_word_run(l, i + 1, k);
    }
}

proof fn lemma_skip_ws_run(l: Seq<char>, i: int, k: int)
    requires
        0 <= i <= k <= l.len(),
        forall|m: int| i <= m < k ==> is_ws(#[trigger] l[m]),
        k == l.len() || !is_ws(l[k]),
    ensures
        skip_ws(l, i) == k,
    decreases k - i,
{
    if i < k {
        lemma_skip_ws_run(l, i + 1, k);
    }
}

proof fn lemma_parse_record_text(e: (Seq<char>, u8))
    requires
        is_username(e.0),
    ensures
        parse_line(record_text(e)) == Some(e),
{
    let l = record_text(e);
    let n = e.0.len() as int;
    let d = decimal(e.1 as nat);
    lemma_decimal(e.1 as nat);
    assert forall|m: int| 0 <= m < n implies !is_ws(#[trigger] l[m]) by {
        assert(l[m] == e.0[m]);
    }
    assert forall|m: int| n + 1 <= m < l.len() implies !is_ws(#[trigger] l[m]) by {
        assert(l[m] == d[m - n - 1]);
    }
    assert(l[n] == ' ');
    lemma_skip_ws_run(l, 0, 0);
    lemma_skip_word_run(l, 0, n);
    lemma_skip_ws_run(l, n, n + 1);
    lemma_skip_word_run(l, n + 1, l.len() as int);
    lemma_skip_ws_run(l, l.len() as int, l.len() as int);
    assert(l.subrange(n + 1, l.len() as int) =~= d);
    assert(l.subrange(0, n) =~= e.0);
}

proof fn lemma_parse_records_of_texts(b: Seq<(Seq<char>, u8)>)
    requires
        forall|i: int| 0 <= i < b.len() ==> is_username(#[trigger] b[i].0),
    ensures
        parse_records(b.map_values(|e: (Seq<char>, u8)| record_text(e))) == Some(b),
    decreases b.len(),
{
    let m = b.map_values(|e: (Seq<char>, u8)| record_text(e));
    if b.len() == 0 {
        assert(b =~= Seq::<(Seq<char>, u8)>::empty());
    } else {
        let p = b.drop_last();
        assert forall|i: int| 0 <= i < p.len() implies is_username(#[trigger] p[i].0) by {
            assert(p[i] == b[i]);
        }
        lemma_parse_records_of_texts(p);
        assert(m.drop_last() =~= p.map_values(|e: (Seq<char>, u8)| record_text(e)));
        assert(is_username(b.last().0));
        lemma_parse_record_text(b.last());
        assert(p.push(b.last()) =~= b);
    }
}

/// Storing a board and reading it back gives the same board, provided every
/// name is non-empty and free of whitespace.
pub proof fn lemma_round_trip(b: Seq<(Seq<char>, u8)>)
    requires
        forall|i: int| 0 <= i < b.len() ==> is_username(#[trigger] b[i].0),
    ensures
        parse_board(serialize(b)) == Some(b),
{
    lemma_lines_of_serialize(b);
    lemma_parse_records_of_texts(b);
}

} // verus!
