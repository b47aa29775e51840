//! Small verified helpers for building and inspecting strings.

use vstd::prelude::*;

verus! {

/// Calls `String::push`; the contract claims that the character is appended
/// and nothing else changes.
#[verifier::external_body]
pub(crate) fn push_char(s: &mut String, c: char)
    ensures
        final(s)@ == old(s)@.push(c),
{
    s.push(c);
}

/// The characters of a string slice, in order.
pub fn chars_of(s: &str) -> (r: Vec<char>)
    ensures
        r@ == s@,
{
    let mut r: Vec<char> = Vec::new();
    for c in it: s.chars()
        invariant
            r@ == it.seq().take(it.index() as int),
            it.seq() == s@,
    {
        r.push(c);
    }
    r
}

} // verus!

verus! {

/// The character of a decimal digit.
pub open spec fn digit_char(d: nat) -> char {
    ((48 + d) as u8) as char
}

/// The decimal representation of a number, without leading zeros.
pub open spec fn decimal(n: nat) -> Seq<char>
    decreases n,
{
    if n < 10 {
        seq![digit_char(n)]
    } else {
        decimal(n / 10).push(digit_char(n % 10))
    }
}

/// Appends the decimal representation of `n`.
pub fn push_decimal(s: &mut String, n: u64)
    ensures
        final(s)@ == old(s)@ + decimal(n as nat),
    decreases n,
{
    if n >= 10 {
        push_decimal(s, n / 10);
    }
    let d: u8 = (n % 10) as u8;
    push_char(s, (48u8 + d) as char);
    proof {
        assert(s@ =~= old(s)@ + decimal(n as nat));
    }
}

} // verus!

verus! {

/// The items joined with a separator between neighbours.
pub open spec fn join(items: Seq<Seq<char>>, sep: Seq<char>) -> Seq<char>
    decreases items.len(),
{
    if items.len() == 0 {
        seq![]
    } else if items.len() == 1 {
        items[0]
    } else {
        join(items.drop_last(), sep) + sep + items.last()
    }
}

/// Appends the characters of a slice of a `Vec<char>`, from `from` up to `to`.
pub fn push_chars(s: &mut String, chars: &Vec<char>, from: usize, to: usize)
    requires
        from <= to <= chars@.len(),
    ensures
        final(s)@ == old(s)@ + chars@.subrange(from as int, to as int),
{
    let mut k = from;
    while k < to
        invariant
            from <= k <= to <= chars@.len(),
            s@ == old(s)@ + chars@.subrange(from as int, k as int),
        decreases to - k,
    {
        push_char(s, chars[k]);
        proof {
            assert(chars@.subrange(from as int, k + 1) =~= chars@.subrange(from as int, k as int).push(chars@[k as int]));
        }
        k = k + 1;
    }
}

} // verus!

verus! {

/// A CRLF starts at `i`.
pub open spec fn crlf_at(t: Seq<char>, i: int) -> bool {
    0 <= i && i + 1 < t.len() && t[i] == '\r' && t[i + 1] == '\n'
}

/// Where the first CRLF at or after `i` starts, or the text's length.
pub open spec fn next_crlf(t: Seq<char>, i: int) -> int
    decreases t.len() - i,
{
    if i < 0 || i + 1 >= t.len() {
        t.len() as int
    } else if crlf_at(t, i) {
        i
    } else {
        next_crlf(t, i + 1)
    }
}

/// The first CRLF at or after a place is not before it.
pub proof fn lemma_next_crlf_bounds(t: Seq<char>, i: int)
    requires
        0 <= i,
    ensures
        i <= next_crlf(t, i) <= t.len() || i > t.len(),
        next_crlf(t, i) < t.len() ==> crlf_at(t, next_crlf(t, i)),
    decreases t.len() - i,
{
    if i + 1 < t.len() && !crlf_at(t, i) {
        lemma_next_crlf_bounds(t, i + 1);
    }
}

/// The lines of a text from `i` on, cut at CRLF; a CRLF at the end adds no
/// empty line (as `str::split_terminator("\r\n")`).
pub open spec fn lines_from(t: Seq<char>, i: int) -> Seq<Seq<char>>
    decreases t.len() - i,
{
    if i < 0 || i >= t.len() {
        seq![]
    } else {
        let e = next_crlf(t, i);
        proof {
            lemma_next_crlf_bounds(t, i);
        }
        if e >= t.len() {
            seq![t.subrange(i, t.len() as int)]
        } else {
            seq![t.subrange(i, e)] + lines_from(t, e + 2)
        }
    }
}

/// The lines of a text, cut at CRLF.
pub open spec fn crlf_lines(t: Seq<char>) -> Seq<Seq<char>> {
    lines_from(t, 0)
}

/// Cutting lines after a prefix is cutting the rest.
pub proof fn lemma_lines_shift(p: Seq<char>, r: Seq<char>, k: int)
    requires
        0 <= k,
    ensures
        next_crlf(p + r, p.len() + k) == p.len() + next_crlf(r, k),
        lines_from(p + r, p.len() + k) == lines_from(r, k),
    decreases r.len() - k,
{
    let x = p + r;
    let i = p.len() + k;
    if k + 1 < r.len() {
        assert(x[i] == r[k] && x[i + 1] == r[k + 1]);
        if !crlf_at(r, k) {
            lemma_lines_shift(p, r, k + 1);
        }
    }
    if k < r.len() {
        lemma_next_crlf_bounds(r, k);
        let e = next_crlf(r, k);
        if e < r.len() {
            lemma_lines_shift(p, r, e + 2);
            assert(x.subrange(i, p.len() + e) =~= r.subrange(k, e));
        } else {
            assert(x.subrange(i, x.len() as int) =~= r.subrange(k, r.len() as int));
        }
    }
}

/// A text without line-feeds, then CRLF, then more: its first line is the text.
pub proof fn lemma_first_line(l: Seq<char>, rest: Seq<char>)
    requires
        forall|i: int| 0 <= i < l.len() ==> l[i] != '\n',
    ensures
        lines_from(l + seq!['\r', '\n'] + rest, 0) == seq![l] + lines_from(rest, 0),
{
    let x = l + seq!['\r', '\n'] + rest;
    lemma_next_crlf_at(l, rest, 0);
    assert(x.subrange(0, l.len() as int) =~= l);
    lemma_lines_shift(l + seq!['\r', '\n'], rest, 0);
    assert(x == (l + seq!['\r', '\n']) + rest);
}

proof fn lemma_next_crlf_at(l: Seq<char>, rest: Seq<char>, i: int)
    requires
        forall|j: int| 0 <= j < l.len() ==> l[j] != '\n',
        0 <= i <= l.len(),
    ensures
        next_crlf(l + seq!['\r', '\n'] + rest, i) == l.len(),
    decreases l.len() - i,
{
    let x = l + seq!['\r', '\n'] + rest;
    if i < l.len() {
        if i + 1 < l.len() {
            assert(x[i + 1] == l[i + 1]);
        } else {
            assert(x[i + 1] == '\r');
        }
        lemma_next_crlf_at(l, rest, i + 1);
    } else {
        assert(x[i] == '\r' && x[i + 1] == '\n');
    }
}

/// Whether a character has the Unicode `White_Space` property, which is
/// what `char::is_whitespace` tests: tab, line feed, vertical tab, form
/// feed, carriage return, space, next line, no-break space, the Ogham space
/// mark, the spaces from en quad to hair space, the line and paragraph
/// separators, the narrow no-break space, the medium mathematical space and
/// the ideographic space.
pub open spec fn white_space(c: char) -> bool {
    ||| '\u{9}' <= c <= '\u{d}'
    ||| c == ' '
    ||| c == '\u{85}'
    ||| c == '\u{a0}'
    ||| c == '\u{1680}'
    ||| '\u{2000}' <= c <= '\u{200a}'
    ||| c == '\u{2028}'
    ||| c == '\u{2029}'
    ||| c == '\u{202f}'
    ||| c == '\u{205f}'
    ||| c == '\u{3000}'
}

/// Calls `char::is_whitespace`. The contract claims that the result is
/// [`white_space`] of the character: the `White_Space` list.
#[verifier::external_body]
pub(crate) fn is_white_space(c: char) -> (r: bool)
    ensures
        r == white_space(c),
{
    c.is_whitespace()
}

/// The text without leading white space.
pub open spec fn trim_start(s: Seq<char>) -> Seq<char>
    decreases s.len(),
{
    if s.len() > 0 && white_space(s[0]) {
        trim_start(s.drop_first())
    } else {
        s
    }
}

/// The text without trailing white space.
pub open spec fn trim_end(s: Seq<char>) -> Seq<char>
    decreases s.len(),
{
    if s.len() > 0 && white_space(s.last()) {
        trim_end(s.drop_last())
    } else {
        s
    }
}

/// The text without leading and trailing white space (as `str::trim`).
pub open spec fn trim(s: Seq<char>) -> Seq<char> {
    trim_end(trim_start(s))
}

/// The maximal runs of non-white-space characters, in order (as
/// `str::split_whitespace`).
pub open spec fn words(s: Seq<char>) -> Seq<Seq<char>>
    decreases s.len(),
{
    if s.len() == 0 {
        seq![]
    } else if white_space(s.last()) {
        words(s.drop_last())
    } else if s.len() >= 2 && !white_space(s[s.len() - 2]) {
        let w = words(s.drop_last());
        w.update(w.len() - 1, w.last().push(s.last()))
    } else {
        words(s.drop_last()).push(seq![s.last()])
    }
}

/// Whether the text starts with the given prefix.
pub open spec fn starts_with(s: Seq<char>, prefix: Seq<char>) -> bool {
    prefix.len() <= s.len() && s.subrange(0, prefix.len() as int) == prefix
}

/// The number that a run of ASCII digits stands for.
pub open spec fn digits_value(s: Seq<char>) -> int
    decreases s.len(),
{
    if s.len() == 0 {
        0
    } else {
        digits_value(s.drop_last()) * 10 + (s.last() as int - 48)
    }
}

pub open spec fn all_digits(s: Seq<char>) -> bool {
    forall|i: int| 0 <= i < s.len() ==> '0' <= #[trigger] s[i] <= '9'
}

/// What `usize::from_str` reads: an optional `+`, then one or more ASCII
/// digits whose value fits in a `usize`.
pub open spec fn parse_usize(s: Seq<char>) -> Option<usize> {
    let d = if s.len() > 0 && s[0] == '+' { s.drop_first() } else { s };
    if d.len() > 0 && all_digits(d) && digits_value(d) <= usize::MAX {
        Some(digits_value(d) as usize)
    } else {
        None
    }
}

/// Where the text starts once leading white space is skipped.
pub fn skip_white_space(s: &Vec<char>, from: usize, to: usize) -> (r: usize)
    requires
        from <= to <= s@.len(),
    ensures
        from <= r <= to,
        trim_start(s@.subrange(from as int, to as int)) == s@.subrange(r as int, to as int),
    decreases to - from,
{
    if from < to && is_white_space(s[from]) {
        proof {
            assert(s@.subrange(from as int, to as int).drop_first() =~= s@.subrange(from + 1, to as int));
        }
        skip_white_space(s, from + 1, to)
    } else {
        from
    }
}

/// Where the text ends once trailing white space is dropped.
pub fn drop_white_space(s: &Vec<char>, from: usize, to: usize) -> (r: usize)
    requires
        from <= to <= s@.len(),
    ensures
        from <= r <= to,
        trim_end(s@.subrange(from as int, to as int)) == s@.subrange(from as int, r as int),
    decreases to - from,
{
    if from < to && is_white_space(s[to - 1]) {
        proof {
            assert(s@.subrange(from as int, to as int).drop_last() =~= s@.subrange(from as int, to - 1));
        }
        drop_white_space(s, from, to - 1)
    } else {
        to
    }
}

/// The bounds of the trimmed text.
pub fn trim_bounds(s: &Vec<char>, from: usize, to: usize) -> (r: (usize, usize))
    requires
        from <= to <= s@.len(),
    ensures
        from <= r.0 <= r.1 <= to,
        trim(s@.subrange(from as int, to as int)) == s@.subrange(r.0 as int, r.1 as int),
{
    let a = skip_white_space(s, from, to);
    let b = drop_white_space(s, a, to);
    (a, b)
}

} // verus!

verus! {

/// The words of `s[from..to]`, split at white space (`str::split_whitespace`).
pub fn split_words(s: &Vec<char>, from: usize, to: usize) -> (r: Vec<String>)
    requires
        from <= to <= s@.len(),
    ensures
        r.deep_view() == words(s@.subrange(from as int, to as int)),
{
    let mut out: Vec<String> = Vec::new();
    let mut cur = String::new();
    let mut in_word = false;
    let mut i = from;
    proof {
        assert(s@.subrange(from as int, from as int) =~= Seq::<char>::empty());
        assert(out.deep_view() =~= Seq::<Seq<char>>::empty());
    }
    while i < to
        invariant
            from <= i <= to <= s@.len(),
            in_word == (i > from && !white_space(s@[i - 1])),
            words(s@.subrange(from as int, i as int)) == if in_word {
                out.deep_view().push(cur@)
            } else {
                out.deep_view()
            },
        decreases to - i,
    {
        let c = s[i];
        let ghost sub = s@.subrange(from as int, i + 1);
        proof {
            assert(sub.drop_last() =~= s@.subrange(from as int, i as int));
            assert(sub.last() == c);
            if i > from {
                assert(sub[sub.len() - 2] == s@[i - 1]);
            }
        }
        if is_white_space(c) {
            if in_word {
                let ghost before = out.deep_view();
                out.push(cur);
                proof {
                    assert(out.deep_view() =~= before.push(cur@));
                }
                cur = String::new();
                in_word = false;
            }
        } else {
            if in_word {
                let ghost before = cur@;
                push_char(&mut cur, c);
                proof {
                    let w = out.deep_view().push(before);
                    assert(w.update(w.len() - 1, w.last().push(c)) =~= out.deep_view().push(cur@));
                }
            } else {
                cur = String::new();
                push_char(&mut cur, c);
                in_word = true;
                proof {
                    assert(cur@ =~= seq![c]);
                }
            }
        }
        i = i + 1;
    }
    if in_word {
        let ghost before = out.deep_view();
        out.push(cur);
        proof {
            assert(out.deep_view() =~= before.push(cur@));
        }
    }
    out
}

proof fn lemma_digits_value_grows(d: Seq<char>, k: int)
    requires
        all_digits(d),
        0 <= k <= d.len(),
    ensures
        0 <= digits_value(d.take(k)) <= digits_value(d),
    decreases d.len(),
{
    if d.len() > 0 {
        let p = d.drop_last();
        assert(all_digits(p)) by {
            assert forall|i: int| 0 <= i < p.len() implies '0' <= #[trigger] p[i] <= '9' by {
                assert(p[i] == d[i]);
            }
        }
        if k == d.len() {
            assert(d.take(k) =~= d);
            lemma_digits_value_grows(p, p.len() as int);
            assert(p.take(p.len() as int) =~= p);
        } else {
            lemma_digits_value_grows(p, k);
            assert(p.take(k) =~= d.take(k));
        }
        assert('0' <= d[d.len() - 1] <= '9');
    }
}

/// `usize::from_str` on `s[from..to]`.
pub fn parse_decimal(s: &Vec<char>, from: usize, to: usize) -> (r: Option<usize>)
    requires
        from <= to <= s@.len(),
    ensures
        r == parse_usize(s@.subrange(from as int, to as int)),
{
    let ghost t = s@.subrange(from as int, to as int);
    let mut a = from;
    if a < to && s[a] == '+' {
        a = a + 1;
    }
    let ghost d = s@.subrange(a as int, to as int);
    proof {
        if from < to && t[0] == '+' {
            assert(t.drop_first() =~= d);
        } else {
            assert(t =~= d);
        }
    }
    if a == to {
        return None;
    }
    proof {
        assert(d.take(0) =~= Seq::<char>::empty());
    }
    let mut v: usize = 0;
    let mut k = a;
    while k < to
        invariant
            from <= a <= k <= to <= s@.len(),
            a < to,
            t == s@.subrange(from as int, to as int),
            d == s@.subrange(a as int, to as int),
            parse_usize(t) == (if all_digits(d) && digits_value(d) <= usize::MAX {
                Some(digits_value(d) as usize)
            } else {
                None::<usize>
            }),
            all_digits(d.take(k - a)),
            v == digits_value(d.take(k - a)),
        decreases to - k,
    {
        let c = s[k];
        proof {
            assert(d.take(k + 1 - a).drop_last() =~= d.take(k - a));
            assert(d[k - a] == c);
        }
        if !('0' <= c && c <= '9') {
            proof {
                assert(!all_digits(d));
            }
            return None;
        }
        let digit = (c as u32 - 48) as usize;
        let next = match v.checked_mul(10) {
            Some(m) => m.checked_add(digit),
            None => None,
        };
        match next {
            Some(n) => {
                v = n;
                proof {
                    assert(all_digits(d.take(k + 1 - a))) by {
                        assert forall|i: int| 0 <= i < d.take(k + 1 - a).len() implies '0' <= #[trigger] d.take(k + 1 - a)[i] <= '9' by {
                            if i < k - a {
                                assert(d.take(k + 1 - a)[i] == d.take(k - a)[i]);
                            }
                        }
                    }
                }
            },
            None => {
                proof {
                    assert(digits_value(d.take(k + 1 - a)) > usize::MAX);
                    if all_digits(d) {
                        lemma_digits_value_grows(d, k + 1 - a);
                    }
                }
                return None;
            },
        }
        k = k + 1;
    }
    proof {
        assert(d.take(to - a) =~= d);
    }
    Some(v)
}

} // verus!
