use vstd::prelude::*;

verus! {

/// The characters of `s`, in order.
pub fn chars_of(s: &str) -> (r: Vec<char>)
    ensures
        r@ == s@,
{
    let mut r: Vec<char> = Vec::new();
    for c in it: s.chars()
        invariant
            r@ == it.seq().take(it.index()),
            it.seq() == s@,
    {
        r.push(c);
        assert(r@ =~= it.seq().take(it.index() + 1));
    }
    assert(r@ =~= s@);
    r
}

} // verus!

verus! {

/// Index of the first newline in `t`, or its length when there is none.
pub open spec fn line_end(t: Seq<char>) -> nat
    decreases t.len(),
{
    if t.len() == 0 {
        0
    } else if t[0] == '\n' {
        0
    } else {
        1 + line_end(t.drop_first())
    }
}

/// Drops one carriage return that ends a line.
pub open spec fn strip_cr(l: Seq<char>) -> Seq<char> {
    if l.len() > 0 && l.last() == '\r' {
        l.drop_last()
    } else {
        l
    }
}

/// The lines of a text: split at each `\n` (a `\r\n` ending loses its `\r`
/// too); a last line is present only when it is not empty.
pub open spec fn lines(t: Seq<char>) -> Seq<Seq<char>>
    decreases t.len(),
{
    if t.len() == 0 {
        Seq::empty()
    } else {
        let e = line_end(t);
        if e >= t.len() {
            seq![t]
        } else {
            seq![strip_cr(t.take(e as int))] + lines(t.skip(e as int + 1))
        }
    }
}

pub open spec fn views_of(v: Seq<Vec<char>>) -> Seq<Seq<char>> {
    v.map_values(|l: Vec<char>| l@)
}

/// The characters of `t` from `from` up to, not including, `to`.
pub fn copy_range(t: &Vec<char>, from: usize, to: usize) -> (r: Vec<char>)
    requires
        from <= to <= t@.len(),
    ensures
        r@ == t@.subrange(from as int, to as int),
{
    let mut r: Vec<char> = Vec::new();
    let mut k: usize = from;
    while k < to
        invariant
            from <= k <= to,
            to <= t@.len(),
            r@ == t@.subrange(from as int, k as int),
        decreases to - k,
    {
        r.push(t[k]);
        k += 1;
        assert(r@ =~= t@.subrange(from as int, k as int));
    }
    r
}

/// Splits a text into its lines.
pub fn split_lines(t: &Vec<char>) -> (r: Vec<Vec<char>>)
    ensures
        views_of(r@) == lines(t@),
{
    let mut r: Vec<Vec<char>> = Vec::new();
    let n = t.len();
    let mut pos: usize = 0;
    assert(t@.skip(0) =~= t@);
    while pos < n
        invariant
            pos <= n,
            n == t@.len(),
            lines(t@) == views_of(r@) + lines(t@.skip(pos as int)),
        decreases n - pos,
    {
        let mut j: usize = pos;
        while j < n && t[j] != '\n'
            invariant
                pos <= j <= n,
                n == t@.len(),
                line_end(t@.skip(pos as int)) == (j - pos) + line_end(t@.skip(j as int)),
            decreases n - j,
        {
            assert(t@.skip(j as int).drop_first() =~= t@.skip(j as int + 1));
            j += 1;
        }
        let ghost rest = t@.skip(pos as int);
        assert(line_end(rest) == j - pos);
        let mut end = j;
        if j < n && end > pos && t[end - 1] == '\r' {
            end -= 1;
        }
        let line = copy_range(t, pos, end);
        let ghost before = views_of(r@);
        r.push(line);
        assert(views_of(r@) =~= before + seq![line@]);
        if j < n {
            assert(line@ =~= strip_cr(rest.take(j - pos)));
            assert(rest.skip(j - pos + 1) =~= t@.skip(j as int + 1));
            pos = j + 1;
        } else {
            assert(line@ =~= rest);
            assert(lines(t@.skip(n as int)) =~= Seq::<Seq<char>>::empty());
            pos = n;
        }
        assert(lines(t@) =~= views_of(r@) + lines(t@.skip(pos as int)));
    }
    assert(lines(t@.skip(n as int)) =~= Seq::<Seq<char>>::empty());
    assert(lines(t@) =~= views_of(r@));
    r
}

/// Relies on String::push: appends one character at the end.
#[verifier::external_body]
pub(crate) fn push_char(s: &mut String, c: char)
    ensures
        final(s)@ == old(s)@.push(c),
{
    s.push(c)
}

/// Appends the characters `cs` to `s`.
pub fn push_chars(s: &mut String, cs: &Vec<char>)
    ensures
        final(s)@ == old(s)@ + cs@,
{
    let mut k: usize = 0;
    while k < cs.len()
        invariant
            k <= cs@.len(),
            s@ == old(s)@ + cs@.take(k as int),
        decreases cs@.len() - k,
    {
        push_char(s, cs[k]);
        k += 1;
        assert(s@ =~= old(s)@ + cs@.take(k as int));
    }
    assert(cs@.take(cs@.len() as int) =~= cs@);
}

/// A string holding the characters `cs`.
pub fn string_of(cs: &Vec<char>) -> (r: String)
    ensures
        r@ == cs@,
{
    let mut r = String::new();
    push_chars(&mut r, cs);
    assert(r@ =~= cs@);
    r
}

} // verus!

verus! {

/// The characters with the Unicode White_Space property.
pub open spec fn is_white_space(c: char) -> bool {
    ||| '\t' <= c && c <= '\r'
    ||| c == ' '
    ||| c == '\u{85}'
    ||| c == '\u{A0}'
    ||| c == '\u{1680}'
    ||| '\u{2000}' <= c && c <= '\u{200A}'
    ||| c == '\u{2028}'
    ||| c == '\u{2029}'
    ||| c == '\u{202F}'
    ||| c == '\u{205F}'
    ||| c == '\u{3000}'
}

pub open spec fn trim_start(s: Seq<char>) -> Seq<char>
    decreases s.len(),
{
    if s.len() > 0 && is_white_space(s[0]) {
        trim_start(s.drop_first())
    } else {
        s
    }
}

pub open spec fn trim_end(s: Seq<char>) -> Seq<char>
    decreases s.len(),
{
    if s.len() > 0 && is_white_space(s.last()) {
        trim_end(s.drop_last())
    } else {
        s
    }
}

/// `s` without its leading and trailing white space.
pub open spec fn trimmed(s: Seq<char>) -> Seq<char> {
    trim_end(trim_start(s))
}

/// Relies on str::trim: the slice without leading and trailing characters
/// that have the Unicode White_Space property.
#[verifier::external_body]
pub(crate) fn trim_str<'a>(s: &'a str) -> (r: &'a str)
    ensures
        r@ == trimmed(s@),
{
    s.trim()
}

} // verus!
