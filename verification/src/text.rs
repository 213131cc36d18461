//! Character-level text helpers: decimal numbers, whitespace, lines, splitting.

use vstd::prelude::*;

verus! {

broadcast use vstd::string::group_string_axioms;

/// `String::push`: appends one character.
#[verifier::external_body]
pub(crate) fn push_char(s: &mut String, c: char)
    ensures
        final(s)@ == old(s)@.push(c),
{
    s.push(c);
}

/// The characters of a string, in order.
pub fn chars_of(s: &str) -> (v: Vec<char>)
    ensures
        v@ == s@,
{
    let mut v: Vec<char> = Vec::new();
    for c in it: s.chars()
        invariant
            v@ == it.seq().take(it.index()),
    {
        v.push(c);
    }
    v
}

/// A string made of the given characters.
pub fn string_of(v: &Vec<char>) -> (s: String)
    ensures
        s@ == v@,
{
    let mut s = String::new();
    let mut i: usize = 0;
    while i < v.len()
        invariant
            i <= v.len(),
            s@ == v@.take(i as int),
        decreases v.len() - i,
    {
        push_char(&mut s, v[i]);
        i = i + 1;
    }
    s
}

/// The character of a decimal digit.
pub open spec fn digit(d: nat) -> char {
    (d + 48) as char
}

/// A natural number written in decimal, without leading zeros.
pub open spec fn dec_nat(n: nat) -> Seq<char>
    decreases n,
{
    if n < 10 {
        seq![digit(n)]
    } else {
        dec_nat(n / 10).push(digit(n % 10))
    }
}

/// An integer written in decimal, with a leading `-` when negative.
pub open spec fn dec_int(i: int) -> Seq<char> {
    if i < 0 {
        seq!['-'] + dec_nat((-i) as nat)
    } else {
        dec_nat(i as nat)
    }
}

/// The character of the digit `d`.
pub fn digit_of(d: u64) -> (c: char)
    requires
        d < 10,
    ensures
        c == digit(d as nat),
{
    let b: u8 = (d as u8) + 48;
    b as char
}

/// Appends `n` in decimal.
pub fn push_dec(out: &mut String, n: u64)
    ensures
        final(out)@ == old(out)@ + dec_nat(n as nat),
    decreases n,
{
    if n >= 10 {
        push_dec(out, n / 10);
    }
    push_char(out, digit_of(n % 10));
    assert(out@ =~= old(out)@ + dec_nat(n as nat));
}

/// Appends `i` in decimal, as `{}` formats it.
pub fn push_int(out: &mut String, i: i64)
    ensures
        final(out)@ == old(out)@ + dec_int(i as int),
{
    if i < 0 {
        push_char(out, '-');
        let a: u64 = (0 - (i as i128)) as u64;
        push_dec(out, a);
        assert(final(out)@ =~= old(out)@ + dec_int(i as int));
    } else {
        push_dec(out, i as u64);
    }
}

/// `i` in decimal, as `i.to_string()` writes it.
pub fn int_string(i: i64) -> (s: String)
    ensures
        s@ == dec_int(i as int),
{
    let mut s = String::new();
    push_int(&mut s, i);
    assert(s@ =~= dec_int(i as int));
    s
}

/// Whitespace as `char::is_whitespace` defines it (the Unicode `White_Space` property).
pub open spec fn is_ws(c: char) -> bool {
    let u = c as u32;
    ||| 9 <= u <= 13
    ||| u == 32
    ||| u == 0x85
    ||| u == 0xa0
    ||| u == 0x1680
    ||| 0x2000 <= u <= 0x200a
    ||| u == 0x2028
    ||| u == 0x2029
    ||| u == 0x202f
    ||| u == 0x205f
    ||| u == 0x3000
}

/// `char::is_whitespace`.
pub fn is_whitespace(c: char) -> (b: bool)
    ensures
        b == is_ws(c),
{
    let u = c as u32;
    (9 <= u && u <= 13) || u == 32 || u == 0x85 || u == 0xa0 || u == 0x1680 || (0x2000 <= u
        && u <= 0x200a) || u == 0x2028 || u == 0x2029 || u == 0x202f || u == 0x205f || u
        == 0x3000
}

/// `s` without its leading whitespace.
pub open spec fn trim_start(s: Seq<char>) -> Seq<char>
    decreases s.len(),
{
    if s.len() > 0 && is_ws(s[0]) {
        trim_start(s.drop_first())
    } else {
        s
    }
}

/// `s` without its trailing whitespace.
pub open spec fn trim_end(s: Seq<char>) -> Seq<char>
    decreases s.len(),
{
    if s.len() > 0 && is_ws(s.last()) {
        trim_end(s.drop_last())
    } else {
        s
    }
}

/// `s` without leading and trailing whitespace, as `str::trim` gives it.
pub open spec fn trim(s: Seq<char>) -> Seq<char> {
    trim_end(trim_start(s))
}

/// Index of the first non-whitespace character of `v` (its length if none).
fn first_non_ws(v: &Vec<char>) -> (i: usize)
    ensures
        i <= v.len(),
        trim_start(v@) == v@.skip(i as int),
{
    let mut i: usize = 0;
    assert(v@.skip(0) =~= v@);
    while i < v.len() && is_whitespace(v[i])
        invariant
            i <= v.len(),
            trim_start(v@) == trim_start(v@.skip(i as int)),
        decreases v.len() - i,
    {
        assert(v@.skip(i as int).drop_first() =~= v@.skip(i + 1));
        i = i + 1;
    }
    i
}

/// Index just past the last non-whitespace character of `v[..hi]` (`lo` if none).
fn last_non_ws(v: &Vec<char>, lo: usize, hi: usize) -> (j: usize)
    requires
        lo <= hi <= v.len(),
    ensures
        lo <= j <= hi,
        trim_end(v@.subrange(lo as int, hi as int)) == v@.subrange(lo as int, j as int),
{
    let mut j: usize = hi;
    while j > lo && is_whitespace(v[j - 1])
        invariant
            lo <= j <= hi,
            hi <= v.len(),
            trim_end(v@.subrange(lo as int, hi as int)) == trim_end(v@.subrange(lo as int, j as int)),
        decreases j,
    {
        assert(v@.subrange(lo as int, j as int).drop_last() =~= v@.subrange(lo as int, j - 1));
        j = j - 1;
    }
    j
}

/// Bounds of the trimmed part of `v`.
pub fn trim_bounds(v: &Vec<char>) -> (r: (usize, usize))
    ensures
        r.0 <= r.1 <= v.len(),
        trim(v@) == v@.subrange(r.0 as int, r.1 as int),
{
    let i = first_non_ws(v);
    let j = last_non_ws(v, i, v.len());
    assert(v@.skip(i as int) =~= v@.subrange(i as int, v.len() as int));
    (i, j)
}

/// The characters `v[lo..hi]`.
pub fn slice_vec(v: &Vec<char>, lo: usize, hi: usize) -> (r: Vec<char>)
    requires
        lo <= hi <= v.len(),
    ensures
        r@ == v@.subrange(lo as int, hi as int),
{
    let mut r: Vec<char> = Vec::new();
    let mut k = lo;
    while k < hi
        invariant
            lo <= k <= hi,
            hi <= v.len(),
            r@ == v@.subrange(lo as int, k as int),
        decreases hi - k,
    {
        r.push(v[k]);
        k = k + 1;
        assert(r@ =~= v@.subrange(lo as int, k as int));
    }
    r
}

/// `str::trim`.
pub fn trim_str(s: &str) -> (r: String)
    ensures
        r@ == trim(s@),
{
    let v = chars_of(s);
    let (i, j) = trim_bounds(&v);
    string_of(&slice_vec(&v, i, j))
}

/// The views of a sequence of character vectors.
pub open spec fn views(vs: Seq<Vec<char>>) -> Seq<Seq<char>> {
    vs.map_values(|v: Vec<char>| v@)
}

/// Index of the first `c` in `s`, or the length of `s` when there is none.
pub open spec fn idx_of(s: Seq<char>, c: char) -> nat
    decreases s.len(),
{
    if s.len() == 0 {
        0
    } else if s[0] == c {
        0
    } else {
        1 + idx_of(s.drop_first(), c)
    }
}

/// `idx_of` is the first index holding `c` (or the length).
pub proof fn lemma_idx_of(s: Seq<char>, c: char, i: int)
    requires
        0 <= i <= s.len(),
        forall|k: int| 0 <= k < i ==> s[k] != c,
        i == s.len() || s[i] == c,
    ensures
        idx_of(s, c) == i,
    decreases s.len(),
{
    if s.len() > 0 && i > 0 {
        assert(s[0] != c);
        lemma_idx_of(s.drop_first(), c, i - 1);
    }
}

/// `idx_of` lies within `s`, points at `c` when below the length, and no `c` comes before it.
pub proof fn lemma_idx_of_bounds(s: Seq<char>, c: char)
    ensures
        idx_of(s, c) <= s.len(),
        idx_of(s, c) < s.len() ==> s[idx_of(s, c) as int] == c,
        forall|k: int| 0 <= k < idx_of(s, c) ==> s[k] != c,
    decreases s.len(),
{
    if s.len() > 0 && s[0] != c {
        lemma_idx_of_bounds(s.drop_first(), c);
        assert forall|k: int| 0 <= k < idx_of(s, c) implies s[k] != c by {
            if k > 0 {
                assert(s[k] == s.drop_first()[k - 1]);
            }
        }
    }
}

/// A line without the `\r` of a `\r\n` ending.
pub open spec fn strip_cr(l: Seq<char>) -> Seq<char> {
    if l.len() > 0 && l.last() == '\r' {
        l.drop_last()
    } else {
        l
    }
}

/// The lines of `s` as they are written: each with its `\n`, the last one
/// without it when `s` does not end in `\n`.
pub open spec fn raw_lines(s: Seq<char>) -> Seq<Seq<char>>
    decreases s.len(),
{
    if s.len() == 0 {
        seq![]
    } else {
        let i = idx_of(s, '\n');
        if i >= s.len() {
            seq![s]
        } else {
            seq![s.take(i + 1int)] + raw_lines(s.skip(i + 1int))
        }
    }
}

/// The text of a written line without its line break (`\n` or `\r\n`), as
/// `str::lines` gives it.
pub open spec fn line_text(l: Seq<char>) -> Seq<char> {
    if l.len() > 0 && l.last() == '\n' {
        strip_cr(l.drop_last())
    } else {
        l
    }
}

/// The pieces of `s` between occurrences of `c`, as `str::split` yields them.
pub open spec fn split(s: Seq<char>, c: char) -> Seq<Seq<char>>
    decreases s.len(),
{
    let i = idx_of(s, c);
    if i >= s.len() {
        seq![s]
    } else {
        seq![s.take(i as int)] + split(s.skip(i + 1int), c)
    }
}

/// The pieces joined with `sep` between them, as `[String]::join` does.
pub open spec fn join(ps: Seq<Seq<char>>, sep: Seq<char>) -> Seq<char>
    decreases ps.len(),
{
    if ps.len() == 0 {
        seq![]
    } else if ps.len() == 1 {
        ps[0]
    } else {
        join(ps.drop_last(), sep) + sep + ps.last()
    }
}

/// The lines of `v` as they are written, each with its `\n`.
pub fn split_raw_lines(v: &Vec<char>) -> (r: Vec<Vec<char>>)
    ensures
        views(r@) == raw_lines(v@),
{
    let n = v.len();
    let mut out: Vec<Vec<char>> = Vec::new();
    let mut start: usize = 0;
    let mut i: usize = 0;
    assert(v@.skip(0) =~= v@);
    while i < n
        invariant
            n == v.len(),
            start <= i <= n,
            forall|k: int| start <= k < i ==> v@[k] != '\n',
            views(out@) + raw_lines(v@.skip(start as int)) == raw_lines(v@),
        decreases n - i,
    {
        if v[i] == '\n' {
            let line = slice_vec(v, start, i + 1);
            proof {
                let t = v@.skip(start as int);
                lemma_idx_of(t, '\n', i - start);
                assert(t.take(i - start + 1) =~= line@);
                assert(t.skip(i - start + 1) =~= v@.skip(i + 1));
                assert(views(out@.push(line)) =~= views(out@).push(line@));
                assert(raw_lines(t) == seq![line@] + raw_lines(v@.skip(i + 1)));
            }
            out.push(line);
            start = i + 1;
        }
        i = i + 1;
    }
    if start < n {
        let line = slice_vec(v, start, n);
        proof {
            let t = v@.skip(start as int);
            lemma_idx_of(t, '\n', t.len() as int);
            assert(line@ =~= t);
            assert(views(out@.push(line)) =~= views(out@).push(line@));
        }
        out.push(line);
    } else {
        assert(views(out@) + raw_lines(v@.skip(start as int)) =~= views(out@));
    }
    out
}

/// The pieces of `v` between occurrences of `c`.
pub fn split_vec(v: &Vec<char>, c: char) -> (r: Vec<Vec<char>>)
    ensures
        views(r@) == split(v@, c),
        r@.len() >= 1,
{
    let n = v.len();
    let mut out: Vec<Vec<char>> = Vec::new();
    let mut start: usize = 0;
    let mut i: usize = 0;
    assert(v@.skip(0) =~= v@);
    while i < n
        invariant
            n == v.len(),
            start <= i <= n,
            forall|k: int| start <= k < i ==> v@[k] != c,
            views(out@) + split(v@.skip(start as int), c) == split(v@, c),
        decreases n - i,
    {
        if v[i] == c {
            let piece = slice_vec(v, start, i);
            proof {
                let t = v@.skip(start as int);
                lemma_idx_of(t, c, i - start);
                assert(t.take(i - start) =~= piece@);
                assert(t.skip(i - start + 1) =~= v@.skip(i + 1));
                assert(views(out@.push(piece)) =~= views(out@).push(piece@));
                assert(split(t, c) == seq![piece@] + split(v@.skip(i + 1), c));
            }
            out.push(piece);
            start = i + 1;
        }
        i = i + 1;
    }
    let piece = slice_vec(v, start, n);
    proof {
        let t = v@.skip(start as int);
        lemma_idx_of(t, c, t.len() as int);
        assert(piece@ =~= t);
        assert(views(out@.push(piece)) =~= views(out@).push(piece@));
    }
    out.push(piece);
    out
}

/// Whether `p` is a prefix of `v`.
pub fn starts_with(v: &Vec<char>, p: &Vec<char>) -> (b: bool)
    ensures
        b == p@.is_prefix_of(v@),
{
    if p.len() > v.len() {
        return false;
    }
    let mut i: usize = 0;
    while i < p.len()
        invariant
            p.len() <= v.len(),
            i <= p.len(),
            forall|k: int| 0 <= k < i ==> v@[k] == p@[k],
        decreases p.len() - i,
    {
        if v[i] != p[i] {
            return false;
        }
        i = i + 1;
    }
    assert(p@ =~= v@.subrange(0, p@.len() as int));
    true
}

/// Whether two character vectors are equal.
pub fn same_chars(a: &Vec<char>, b: &Vec<char>) -> (r: bool)
    ensures
        r == (a@ == b@),
{
    if a.len() != b.len() {
        return false;
    }
    let r = starts_with(a, b);
    proof {
        if r {
            assert(a@ =~= b@);
        }
    }
    r
}

/// Whether `c` is an ASCII decimal digit.
pub open spec fn is_digit(c: char) -> bool {
    48 <= (c as u32) <= 57
}

/// The value of a digit character.
pub open spec fn digit_val(c: char) -> nat {
    ((c as u32) - 48) as nat
}

/// The value of a string of decimal digits (0 for the empty string).
pub open spec fn digits_val(s: Seq<char>) -> nat
    decreases s.len(),
{
    if s.len() == 0 {
        0
    } else {
        digits_val(s.drop_last()) * 10 + digit_val(s.last())
    }
}

/// Whether every character of `s` is a decimal digit.
pub open spec fn all_digits(s: Seq<char>) -> bool {
    forall|i: int| 0 <= i < s.len() ==> is_digit(#[trigger] s[i])
}

/// Appending a digit multiplies the value by ten and adds the digit.
pub proof fn lemma_digits_val_grows(s: Seq<char>, c: char)
    requires
        is_digit(c),
    ensures
        digits_val(s.push(c)) == digits_val(s) * 10 + digit_val(c),
        digits_val(s.push(c)) >= digits_val(s),
{
    assert(s.push(c).drop_last() =~= s);
}

/// `10` to the power `n`.
pub open spec fn pow10(n: nat) -> nat
    decreases n,
{
    if n == 0 {
        1
    } else {
        10 * pow10((n - 1) as nat)
    }
}

/// A string of `n` digits is worth less than `10^n`.
pub proof fn lemma_digits_val_below(s: Seq<char>)
    requires
        all_digits(s),
    ensures
        digits_val(s) < pow10(s.len()),
    decreases s.len(),
{
    if s.len() > 0 {
        assert(is_digit(s[s.len() - 1]));
        assert forall|i: int| 0 <= i < s.drop_last().len() implies is_digit(
            #[trigger] s.drop_last()[i],
        ) by {
            assert(s.drop_last()[i] == s[i]);
        }
        lemma_digits_val_below(s.drop_last());
    }
}

/// The value of the digits `v[lo..hi]`, or `None` when it does not fit in a `u64`.
pub fn digits_value(v: &Vec<char>, lo: usize, hi: usize) -> (r: Option<u64>)
    requires
        lo <= hi <= v.len(),
        all_digits(v@.subrange(lo as int, hi as int)),
    ensures
        match r {
            Some(x) => x == digits_val(v@.subrange(lo as int, hi as int)),
            None => digits_val(v@.subrange(lo as int, hi as int)) > u64::MAX,
        },
{
    let mut acc: Option<u64> = Some(0);
    let mut k = lo;
    assert(v@.subrange(lo as int, lo as int) =~= Seq::<char>::empty());
    while k < hi
        invariant
            lo <= k <= hi <= v.len(),
            all_digits(v@.subrange(lo as int, hi as int)),
            match acc {
                Some(x) => x == digits_val(v@.subrange(lo as int, k as int)),
                None => digits_val(v@.subrange(lo as int, k as int)) > u64::MAX,
            },
        decreases hi - k,
    {
        let c = v[k];
        assert(v@.subrange(lo as int, hi as int)[k - lo] == c);
        let d = (c as u32 - 48) as u64;
        proof {
            assert(v@.subrange(lo as int, k + 1) =~= v@.subrange(lo as int, k as int).push(c));
            lemma_digits_val_grows(v@.subrange(lo as int, k as int), c);
        }
        acc = match acc {
            Some(x) => match x.checked_mul(10) {
                Some(y) => y.checked_add(d),
                None => None,
            },
            None => None,
        };
        k = k + 1;
    }
    acc
}

/// Whether every character of `v[lo..hi]` is a digit.
pub fn all_digit_chars(v: &Vec<char>, lo: usize, hi: usize) -> (b: bool)
    requires
        lo <= hi <= v.len(),
    ensures
        b == all_digits(v@.subrange(lo as int, hi as int)),
{
    let mut k = lo;
    while k < hi
        invariant
            lo <= k <= hi <= v.len(),
            forall|j: int| lo <= j < k ==> is_digit(v@[j]),
        decreases hi - k,
    {
        let u = v[k] as u32;
        if !(48 <= u && u <= 57) {
            assert(v@.subrange(lo as int, hi as int)[k - lo] == v@[k as int]);
            return false;
        }
        k = k + 1;
    }
    assert forall|i: int| 0 <= i < hi - lo implies is_digit(
        #[trigger] v@.subrange(lo as int, hi as int)[i],
    ) by {
        assert(v@.subrange(lo as int, hi as int)[i] == v@[lo + i]);
    }
    true
}

/// Index of the first occurrence of `p` in `s`, or the length of `s` when none.
pub open spec fn find_seq(s: Seq<char>, p: Seq<char>) -> nat
    decreases s.len(),
{
    if p.is_prefix_of(s) {
        0
    } else if s.len() == 0 {
        0
    } else {
        1 + find_seq(s.drop_first(), p)
    }
}

/// `find_seq` is the first index where `p` occurs (or the length).
pub proof fn lemma_find_seq(s: Seq<char>, p: Seq<char>, i: int)
    requires
        p.len() > 0,
        0 <= i <= s.len(),
        forall|k: int| 0 <= k < i ==> !p.is_prefix_of(#[trigger] s.skip(k)),
        i == s.len() || p.is_prefix_of(s.skip(i)),
    ensures
        find_seq(s, p) == i,
    decreases s.len(),
{
    if i == s.len() && s.len() == 0 {
        assert(!p.is_prefix_of(s));
    } else if i > 0 {
        assert(s.skip(0) =~= s);
        assert(!p.is_prefix_of(s));
        assert forall|k: int| 0 <= k < i - 1 implies !p.is_prefix_of(
            #[trigger] s.drop_first().skip(k),
        ) by {
            assert(s.drop_first().skip(k) =~= s.skip(k + 1));
        }
        if i < s.len() {
            assert(s.drop_first().skip(i - 1) =~= s.skip(i));
        }
        lemma_find_seq(s.drop_first(), p, i - 1);
    } else {
        assert(s.skip(0) =~= s);
    }
}

/// The pieces of `s` between occurrences of `p`, as `str::split` with a string
/// pattern yields them.
pub open spec fn split_seq(s: Seq<char>, p: Seq<char>) -> Seq<Seq<char>>
    decreases s.len(),
{
    let i = find_seq(s, p);
    if p.len() > 0 && i < s.len() && i + p.len() <= s.len() {
        seq![s.take(i as int)] + split_seq(s.skip((i + p.len()) as int), p)
    } else {
        seq![s]
    }
}

/// The pieces of `v` between occurrences of the non-empty `p`.
pub fn split_by(v: &Vec<char>, p: &Vec<char>) -> (r: Vec<Vec<char>>)
    requires
        p@.len() > 0,
    ensures
        views(r@) == split_seq(v@, p@),
        r@.len() >= 1,
{
    let n = v.len();
    let m = p.len();
    let mut out: Vec<Vec<char>> = Vec::new();
    let mut start: usize = 0;
    let mut i: usize = 0;
    assert(v@.skip(0) =~= v@);
    while i < n
        invariant
            n == v.len(),
            m == p@.len(),
            m > 0,
            start <= i <= n,
            forall|k: int| start <= k < i ==> !p@.is_prefix_of(#[trigger] v@.skip(k)),
            views(out@) + split_seq(v@.skip(start as int), p@) == split_seq(v@, p@),
        decreases n - i,
    {
        let tail = slice_vec(v, i, n);
        assert(tail@ =~= v@.skip(i as int));
        if starts_with(&tail, p) {
            let piece = slice_vec(v, start, i);
            proof {
                let t = v@.skip(start as int);
                assert forall|k: int| 0 <= k < i - start implies !p@.is_prefix_of(
                    #[trigger] t.skip(k),
                ) by {
                    assert(t.skip(k) =~= v@.skip(start + k));
                }
                assert(t.skip(i - start) =~= v@.skip(i as int));
                lemma_find_seq(t, p@, i - start);
                assert(t.take(i - start) =~= piece@);
                assert(t.skip(i - start + m) =~= v@.skip(i + m));
                assert(views(out@.push(piece)) =~= views(out@).push(piece@));
                assert(split_seq(t, p@) == seq![piece@] + split_seq(v@.skip(i + m), p@));
            }
            out.push(piece);
            start = i + m;
            i = i + m;
        } else {
            i = i + 1;
        }
    }
    let piece = slice_vec(v, start, n);
    proof {
        let t = v@.skip(start as int);
        assert forall|k: int| 0 <= k < t.len() implies !p@.is_prefix_of(#[trigger] t.skip(k)) by {
            assert(t.skip(k) =~= v@.skip(start + k));
        }
        lemma_find_seq(t, p@, t.len() as int);
        assert(piece@ =~= t);
        assert(views(out@.push(piece)) =~= views(out@).push(piece@));
    }
    out.push(piece);
    out
}

/// `s` without its trailing newlines (`trim_end_matches('\n')`).
pub open spec fn trim_newlines(s: Seq<char>) -> Seq<char>
    decreases s.len(),
{
    if s.len() > 0 && s.last() == '\n' {
        trim_newlines(s.drop_last())
    } else {
        s
    }
}

/// The ASCII lower case of a character; other characters unchanged.
pub open spec fn ascii_lower(c: char) -> char {
    if 65 <= (c as u32) <= 90 {
        ((c as u32) + 32) as char
    } else {
        c
    }
}

/// Equal up to ASCII case (`eq_ignore_ascii_case`).
pub open spec fn eq_ignore_case(a: Seq<char>, b: Seq<char>) -> bool {
    a.len() == b.len() && forall|i: int| 0 <= i < a.len() ==> ascii_lower(#[trigger] a[i]) == ascii_lower(b[i])
}

/// The ASCII lower case of `c`.
fn lower_char(c: char) -> (r: char)
    ensures
        r == ascii_lower(c),
{
    let u = c as u32;
    if 65 <= u && u <= 90 {
        ((u + 32) as u8) as char
    } else {
        c
    }
}

/// Whether `a` and `b` are equal up to ASCII case.
pub fn same_ignoring_case(a: &Vec<char>, b: &Vec<char>) -> (r: bool)
    ensures
        r == eq_ignore_case(a@, b@),
{
    if a.len() != b.len() {
        return false;
    }
    let mut i: usize = 0;
    while i < a.len()
        invariant
            a@.len() == b@.len(),
            i <= a@.len(),
            forall|k: int| 0 <= k < i ==> ascii_lower(#[trigger] a@[k]) == ascii_lower(b@[k]),
        decreases a.len() - i,
    {
        if lower_char(a[i]) != lower_char(b[i]) {
            return false;
        }
        i = i + 1;
    }
    true
}

} // verus!
