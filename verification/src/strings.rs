//! Text operations on character vectors used by the line-oriented parser:
//! splitting into lines and words, trimming, searching and integer parsing.
use vstd::prelude::*;

use crate::text::{
    byte_offset, char_width, decimal, digit_char, digit_value, digits_value, is_digit, is_whitespace,
    lemma_byte_offset_bound, lemma_byte_offset_step, unicode_whitespace,
};

verus! {

// ---------------------------------------------------------------------------
// Lines
// ---------------------------------------------------------------------------
/// Index of the first occurrence of `c` at or after `i`, if any.
pub open spec fn find_from(s: Seq<char>, c: char, i: int) -> Option<int>
    decreases s.len() - i,
{
    if i < 0 || i >= s.len() {
        None
    } else if s[i] == c {
        Some(i)
    } else {
        find_from(s, c, i + 1)
    }
}

pub open spec fn find(s: Seq<char>, c: char) -> Option<int> {
    find_from(s, c, 0)
}

pub proof fn lemma_find_from(s: Seq<char>, c: char, i: int)
    requires
        0 <= i <= s.len(),
    ensures
        find_from(s, c, i) matches Some(k) ==> i <= k < s.len() && s[k] == c && forall|m: int|
            i <= m < k ==> s[m] != c,
        find_from(s, c, i) is None ==> forall|m: int| i <= m < s.len() ==> s[m] != c,
    decreases s.len() - i,
{
    if i < s.len() && s[i] != c {
        lemma_find_from(s, c, i + 1);
    }
}

/// A line without its terminator: a trailing `\r` is dropped.
pub open spec fn strip_cr(l: Seq<char>) -> Seq<char> {
    if l.len() > 0 && l.last() == '\r' {
        l.drop_last()
    } else {
        l
    }
}

/// The lines of a text from index `i`, split at `\n`; a line ended by `\r\n` loses the
/// `\r`, and a final newline does not start an empty line.
pub open spec fn lines_from(s: Seq<char>, i: int) -> Seq<Seq<char>>
    decreases s.len() - i,
{
    if i < 0 || i >= s.len() {
        Seq::empty()
    } else {
        match find_from(s, '\n', i) {
            Some(k) => {
                proof {
                    lemma_find_from(s, '\n', i);
                }
                seq![strip_cr(s.subrange(i, k))] + lines_from(s, k + 1)
            },
            None => seq![s.subrange(i, s.len() as int)],
        }
    }
}

pub open spec fn lines_of(s: Seq<char>) -> Seq<Seq<char>> {
    lines_from(s, 0)
}

/// Index of the first occurrence of `c` in `v` at or after `i`.
pub fn find_char_from(v: &Vec<char>, c: char, i: usize) -> (r: Option<usize>)
    requires
        i <= v@.len(),
    ensures
        match r {
            Some(k) => find_from(v@, c, i as int) == Some(k as int),
            None => find_from(v@, c, i as int) is None,
        },
{
    let mut k = i;
    while k < v.len()
        invariant
            i <= k <= v@.len(),
            find_from(v@, c, i as int) == find_from(v@, c, k as int),
        decreases v.len() - k,
    {
        if v[k] == c {
            return Some(k);
        }
        k = k + 1;
    }
    None
}

/// Copy of `v[i..j]`.
pub fn slice_chars(v: &Vec<char>, i: usize, j: usize) -> (r: Vec<char>)
    requires
        i <= j <= v@.len(),
    ensures
        r@ == v@.subrange(i as int, j as int),
{
    let mut r: Vec<char> = Vec::new();
    let mut k = i;
    while k < j
        invariant
            i <= k <= j <= v@.len(),
            r@ == v@.subrange(i as int, k as int),
        decreases j - k,
    {
        r.push(v[k]);
        k = k + 1;
        assert(r@ =~= v@.subrange(i as int, k as int));
    }
    r
}

fn strip_cr_exec(v: Vec<char>) -> (r: Vec<char>)
    ensures
        r@ == strip_cr(v@),
{
    let mut v = v;
    if v.len() > 0 && v[v.len() - 1] == '\r' {
        v.pop();
    }
    v
}

/// The lines of a text (as `BufRead::lines` yields them).
pub fn split_lines(v: &Vec<char>) -> (r: Vec<Vec<char>>)
    ensures
        r@.len() == lines_of(v@).len(),
        forall|k: int| 0 <= k < r@.len() ==> (#[trigger] r@[k])@ == lines_of(v@)[k],
{
    let mut out: Vec<Vec<char>> = Vec::new();
    let mut i: usize = 0;
    let ghost total = lines_of(v@);
    while i < v.len()
        invariant
            i <= v@.len(),
            total == lines_of(v@),
            total =~= out@.map_values(|l: Vec<char>| l@) + lines_from(v@, i as int),
        decreases v.len() - i,
    {
        let ghost before = out@.map_values(|l: Vec<char>| l@);
        proof {
            lemma_find_from(v@, '\n', i as int);
        }
        match find_char_from(v, '\n', i) {
            Some(k) => {
                let line = strip_cr_exec(slice_chars(v, i, k));
                out.push(line);
                i = k + 1;
                assert(out@.map_values(|l: Vec<char>| l@) =~= before.push(line@));
            },
            None => {
                let line = slice_chars(v, i, v.len());
                out.push(line);
                i = v.len();
                assert(out@.map_values(|l: Vec<char>| l@) =~= before.push(line@));
                assert(lines_from(v@, i as int) =~= Seq::<Seq<char>>::empty());
            },
        }
    }
    assert(lines_from(v@, i as int) =~= Seq::<Seq<char>>::empty());
    assert(total =~= out@.map_values(|l: Vec<char>| l@));
    proof {
        assert forall|k: int| 0 <= k < out@.len() implies (#[trigger] out@[k])@ == total[k] by {
            assert(out@.map_values(|l: Vec<char>| l@)[k] == out@[k]@);
        }
    }
    out
}

// ---------------------------------------------------------------------------
// Trimming and words
// ---------------------------------------------------------------------------
/// Index of the first non-white-space character at or after `i`.
pub open spec fn skip_ws(s: Seq<char>, i: int) -> int
    decreases s.len() - i,
{
    if 0 <= i < s.len() && unicode_whitespace(s[i]) {
        skip_ws(s, i + 1)
    } else {
        i
    }
}

/// Index of the first white-space character at or after `i`.
pub open spec fn word_end(s: Seq<char>, i: int) -> int
    decreases s.len() - i,
{
    if 0 <= i < s.len() && !unicode_whitespace(s[i]) {
        word_end(s, i + 1)
    } else {
        i
    }
}

/// Index just after the last non-white-space character before `j`.
pub open spec fn rskip_ws(s: Seq<char>, lo: int, j: int) -> int
    decreases j - lo,
{
    if lo < j && j <= s.len() && unicode_whitespace(s[j - 1]) {
        rskip_ws(s, lo, j - 1)
    } else {
        j
    }
}

pub proof fn lemma_skip_ws(s: Seq<char>, i: int)
    requires
        0 <= i <= s.len(),
    ensures
        i <= skip_ws(s, i) <= s.len(),
        skip_ws(s, i) < s.len() ==> !unicode_whitespace(s[skip_ws(s, i)]),
        forall|k: int| i <= k < skip_ws(s, i) ==> unicode_whitespace(s[k]),
    decreases s.len() - i,
{
    if i < s.len() && unicode_whitespace(s[i]) {
        lemma_skip_ws(s, i + 1);
    }
}

pub proof fn lemma_word_end(s: Seq<char>, i: int)
    requires
        0 <= i <= s.len(),
    ensures
        i <= word_end(s, i) <= s.len(),
        word_end(s, i) < s.len() ==> unicode_whitespace(s[word_end(s, i)]),
        forall|k: int| i <= k < word_end(s, i) ==> !unicode_whitespace(s[k]),
    decreases s.len() - i,
{
    if i < s.len() && !unicode_whitespace(s[i]) {
        lemma_word_end(s, i + 1);
    }
}

pub proof fn lemma_rskip_ws(s: Seq<char>, lo: int, j: int)
    requires
        0 <= lo <= j <= s.len(),
    ensures
        lo <= rskip_ws(s, lo, j) <= j,
        lo < rskip_ws(s, lo, j) ==> !unicode_whitespace(s[rskip_ws(s, lo, j) - 1]),
    decreases j - lo,
{
    if lo < j && unicode_whitespace(s[j - 1]) {
        lemma_rskip_ws(s, lo, j - 1);
    }
}

/// `s` with leading and trailing white space removed.
pub open spec fn trim(s: Seq<char>) -> Seq<char> {
    let a = skip_ws(s, 0);
    s.subrange(a, rskip_ws(s, a, s.len() as int))
}

/// Removes leading and trailing white space.
pub fn trim_chars(v: &Vec<char>) -> (r: Vec<char>)
    ensures
        r@ == trim(v@),
{
    let mut a: usize = 0;
    while a < v.len() && is_whitespace(v[a])
        invariant
            a <= v@.len(),
            skip_ws(v@, 0) == skip_ws(v@, a as int),
        decreases v.len() - a,
    {
        a = a + 1;
    }
    let mut b: usize = v.len();
    while b > a && is_whitespace(v[b - 1])
        invariant
            a <= b <= v@.len(),
            a == skip_ws(v@, 0),
            rskip_ws(v@, a as int, v@.len() as int) == rskip_ws(v@, a as int, b as int),
        decreases b,
    {
        b = b - 1;
    }
    slice_chars(v, a, b)
}

/// The words of `s` from index `i`: maximal runs of non-white-space characters, each
/// with the index of its first character.
pub open spec fn words_from(s: Seq<char>, i: int) -> Seq<(int, Seq<char>)>
    decreases s.len() - i,
{
    if i < 0 || i > s.len() {
        Seq::empty()
    } else {
        let j = skip_ws(s, i);
        proof {
            lemma_skip_ws(s, i);
        }
        if j >= s.len() {
            Seq::empty()
        } else {
            let k = word_end(s, j);
            proof {
                lemma_word_end(s, j);
            }
            seq![(j, s.subrange(j, k))] + words_from(s, k)
        }
    }
}

/// A word together with the byte offset at which it starts.
pub open spec fn words(s: Seq<char>) -> Seq<(int, Seq<char>)> {
    words_from(s, 0).map_values(|w: (int, Seq<char>)| word_model(s, w))
}

/// Advances over white space from `i`, keeping the byte offset `off` in step.
fn skip_ws_exec(v: &Vec<char>, i: usize, off: usize) -> (r: (usize, usize))
    requires
        i <= v@.len(),
        off == byte_offset(v@, i as int),
        byte_offset(v@, v@.len() as int) <= usize::MAX,
    ensures
        r.0 == skip_ws(v@, i as int),
        r.1 == byte_offset(v@, r.0 as int),
{
    let ghost s = v@;
    let mut i = i;
    let mut off = off;
    let ghost i0 = i as int;
    proof {
        lemma_skip_ws(s, i0);
    }
    while i < v.len() && is_whitespace(v[i])
        invariant
            i0 <= i <= s.len(),
            off == byte_offset(s, i as int),
            byte_offset(s, s.len() as int) <= usize::MAX,
            s == v@,
            skip_ws(s, i0) == skip_ws(s, i as int),
        decreases s.len() - i,
    {
        proof {
            lemma_byte_offset_step(s, i as int);
            lemma_byte_offset_bound(s, i as int + 1);
            assert(s.take(s.len() as int) =~= s);
        }
        off = off + char_width(v[i]);
        i = i + 1;
    }
    (i, off)
}

/// Collects the word starting at `i`, keeping the byte offset `off` in step.
fn word_exec(v: &Vec<char>, i: usize, off: usize) -> (r: (usize, usize, Vec<char>))
    requires
        i <= v@.len(),
        off == byte_offset(v@, i as int),
        byte_offset(v@, v@.len() as int) <= usize::MAX,
    ensures
        r.0 == word_end(v@, i as int),
        r.1 == byte_offset(v@, r.0 as int),
        r.2@ == v@.subrange(i as int, r.0 as int),
{
    let ghost s = v@;
    let start = i;
    let mut i = i;
    let mut off = off;
    let mut word: Vec<char> = Vec::new();
    proof {
        lemma_word_end(s, start as int);
    }
    while i < v.len() && !is_whitespace(v[i])
        invariant
            start <= i <= s.len(),
            off == byte_offset(s, i as int),
            byte_offset(s, s.len() as int) <= usize::MAX,
            s == v@,
            word@ == s.subrange(start as int, i as int),
            word_end(s, start as int) == word_end(s, i as int),
        decreases s.len() - i,
    {
        proof {
            lemma_byte_offset_step(s, i as int);
            lemma_byte_offset_bound(s, i as int + 1);
            assert(s.take(s.len() as int) =~= s);
        }
        word.push(v[i]);
        off = off + char_width(v[i]);
        i = i + 1;
        assert(word@ =~= s.subrange(start as int, i as int));
    }
    (i, off, word)
}

pub open spec fn word_model(s: Seq<char>, w: (int, Seq<char>)) -> (int, Seq<char>) {
    (byte_offset(s, w.0) as int, w.1)
}

pub open spec fn words_model(r: Seq<(usize, Vec<char>)>) -> Seq<(int, Seq<char>)> {
    r.map_values(|w: (usize, Vec<char>)| (w.0 as int, w.1@))
}

/// The words of a string with their byte offsets (as `split_whitespace` yields them).
pub fn split_words(v: &Vec<char>) -> (r: Vec<(usize, Vec<char>)>)
    requires
        byte_offset(v@, v@.len() as int) <= usize::MAX,
    ensures
        words_model(r@) == words(v@),
{
    let ghost s = v@;
    let mut out: Vec<(usize, Vec<char>)> = Vec::new();
    let mut i: usize = 0;
    let mut off: usize = 0;
    proof {
        assert(s.take(0) =~= Seq::<char>::empty());
    }
    loop
        invariant
            i <= s.len(),
            off == byte_offset(s, i as int),
            byte_offset(s, s.len() as int) <= usize::MAX,
            s == v@,
            words(s) == words_model(out@) + words_from(s, i as int).map_values(
                |w: (int, Seq<char>)| word_model(s, w),
            ),
        ensures
            words(s) == words_model(out@),
        decreases s.len() - i,
    {
        let ghost rest = words_from(s, i as int);
        proof {
            lemma_skip_ws(s, i as int);
        }
        let (j, joff) = skip_ws_exec(v, i, off);
        if j >= v.len() {
            proof {
                assert(rest =~= Seq::<(int, Seq<char>)>::empty());
                assert(words_model(out@) + rest.map_values(|w: (int, Seq<char>)| word_model(s, w))
                    =~= words_model(out@));
                assert(words(s) =~= words_model(out@));
            }
            break;
        }
        let (k, koff, word) = word_exec(v, j, joff);
        proof {
            lemma_word_end(s, j as int);
        }
        let ghost before = words_model(out@);
        out.push((joff, word));
        proof {
            assert(words_model(out@) =~= before.push((joff as int, word@)));
            assert(rest =~= seq![(j as int, s.subrange(j as int, k as int))] + words_from(
                s,
                k as int,
            ));
            assert(rest.map_values(|w: (int, Seq<char>)| word_model(s, w)) =~= seq![
                (joff as int, word@),
            ] + words_from(s, k as int).map_values(|w: (int, Seq<char>)| word_model(s, w)));
        }
        i = k;
        off = koff;
    }
    out
}

// ---------------------------------------------------------------------------
// Integers
// ---------------------------------------------------------------------------
/// Why a string is not an integer of the wanted type (the kinds that std's
/// `ParseIntError` distinguishes).
#[derive(Debug, Clone, Copy, PartialEq, Eq, Structural)]
pub enum IntErrorKind {
    Empty,
    InvalidDigit,
    PosOverflow,
    NegOverflow,
}

/// Accumulates the digits of `d` left to right as std does, stopping at the
/// first character that is not a digit or the first step that leaves `[min, max]`.
pub open spec fn scan_digits(d: Seq<char>, neg: bool, min: int, max: int) -> Result<int, IntErrorKind>
    decreases d.len(),
{
    if d.len() == 0 {
        Ok(0)
    } else {
        match scan_digits(d.drop_last(), neg, min, max) {
            Err(e) => Err(e),
            Ok(acc) => {
                if !is_digit(d.last()) {
                    Err(IntErrorKind::InvalidDigit)
                } else {
                    let v = if neg {
                        acc * 10 - digit_value(d.last())
                    } else {
                        acc * 10 + digit_value(d.last())
                    };
                    if v > max {
                        Err(IntErrorKind::PosOverflow)
                    } else if v < min {
                        Err(IntErrorKind::NegOverflow)
                    } else {
                        Ok(v)
                    }
                }
            },
        }
    }
}

/// Parsing a decimal integer in `[min, max]`: an optional sign (`-` only when
/// `signed`) followed by digits.
pub open spec fn parse_int_spec(s: Seq<char>, signed: bool, min: int, max: int) -> Result<
    int,
    IntErrorKind,
> {
    if s.len() == 0 {
        Err(IntErrorKind::Empty)
    } else if (s[0] == '+' || s[0] == '-') && s.len() == 1 {
        Err(IntErrorKind::InvalidDigit)
    } else if s[0] == '+' {
        scan_digits(s.drop_first(), false, min, max)
    } else if s[0] == '-' && signed {
        scan_digits(s.drop_first(), true, min, max)
    } else {
        scan_digits(s, false, min, max)
    }
}

/// A digit's character is a digit whose value is the digit.
proof fn lemma_digit_char(d: nat)
    requires
        d < 10,
    ensures
        is_digit(digit_char(d)),
        digit_value(digit_char(d)) == d,
        digit_char(d) != '-' && digit_char(d) != '+',
{
    assert(((d + 48) as u32) as char as u32 == (d + 48) as u32);
}

/// A decimal rendering is a non-empty run of digits.
pub proof fn lemma_decimal_digits(n: nat)
    ensures
        decimal(n).len() >= 1,
        forall|i: int| 0 <= i < decimal(n).len() ==> is_digit(#[trigger] decimal(n)[i]),
        forall|i: int| 0 <= i < decimal(n).len() ==> #[trigger] decimal(n)[i] != '-' && decimal(n)[i] != '+',
    decreases n,
{
    if n < 10 {
        lemma_digit_char(n);
    } else {
        lemma_decimal_digits(n / 10);
        lemma_digit_char(n % 10);
        assert forall|i: int| 0 <= i < decimal(n).len() implies is_digit(#[trigger] decimal(n)[i]) && decimal(n)[i]
            != '-' && decimal(n)[i] != '+' by {
            if i < decimal(n / 10).len() {
                assert(decimal(n)[i] == decimal(n / 10)[i]);
            }
        }
    }
}

/// Scanning the decimal rendering of `n` gives `n` back.
pub proof fn lemma_scan_decimal(n: nat, max: int)
    requires
        n <= max,
    ensures
        scan_digits(decimal(n), false, 0, max) == Ok::<int, IntErrorKind>(n as int),
    decreases n,
{
    lemma_digit_char(n % 10);
    let s = decimal(n);
    if n < 10 {
        assert(s.drop_last() =~= Seq::<char>::empty());
        assert(s.last() == digit_char(n));
        assert(scan_digits(s.drop_last(), false, 0, max) == Ok::<int, IntErrorKind>(0));
        assert(digit_value(s.last()) == n);
        assert(0 * 10 + n == n);
    } else {
        lemma_scan_decimal(n / 10, max);
        assert(s.drop_last() =~= decimal(n / 10));
        assert(s.last() == digit_char(n % 10));
        assert((n / 10) * 10 + n % 10 == n);
        assert(n / 10 <= max);
        assert(scan_digits(s.drop_last(), false, 0, max) == Ok::<int, IntErrorKind>((n / 10) as int));
        assert(digit_value(s.last()) == n % 10);
    }
}

/// Parsing the decimal rendering of a `u32` gives it back.
pub proof fn lemma_parse_u32_decimal(n: u32)
    ensures
        parse_u32_spec(decimal(n as nat)) == Ok::<int, IntErrorKind>(n as int),
{
    lemma_decimal_digits(n as nat);
    lemma_scan_decimal(n as nat, u32::MAX as int);
    assert(decimal(n as nat)[0] != '-' && decimal(n as nat)[0] != '+');
}

pub proof fn lemma_scan_digits_range(d: Seq<char>, neg: bool, min: int, max: int)
    requires
        min <= 0 <= max,
    ensures
        scan_digits(d, neg, min, max) matches Ok(v) ==> min <= v <= max,
    decreases d.len(),
{
    if d.len() > 0 {
        lemma_scan_digits_range(d.drop_last(), neg, min, max);
    }
}

fn scan_digits_exec(v: &Vec<char>, from: usize, neg: bool, min: i128, max: i128) -> (r: Result<
    i128,
    IntErrorKind,
>)
    requires
        from <= v@.len(),
        -0x1_0000_0000_0000_0000 <= min <= 0 <= max <= 0x1_0000_0000_0000_0000,
    ensures
        match scan_digits(v@.skip(from as int), neg, min as int, max as int) {
            Ok(x) => r == Ok::<i128, IntErrorKind>(x as i128),
            Err(e) => r == Err::<i128, IntErrorKind>(e),
        },
{
    let ghost d = v@.skip(from as int);
    let mut acc: i128 = 0;
    let mut i = from;
    proof {
        assert(d.take(0) =~= Seq::<char>::empty());
    }
    while i < v.len()
        invariant
            from <= i <= v@.len(),
            d == v@.skip(from as int),
            -0x1_0000_0000_0000_0000 <= min <= 0 <= max <= 0x1_0000_0000_0000_0000,
            scan_digits(d.take(i - from), neg, min as int, max as int) == Ok::<int, IntErrorKind>(
                acc as int,
            ),
            min <= acc <= max,
        decreases v.len() - i,
    {
        let ghost pre = d.take(i - from);
        proof {
            assert(d.take(i - from + 1).drop_last() =~= pre);
            assert(d.take(i - from + 1).last() == v@[i as int]);
        }
        let c = v[i];
        if !('0' <= c && c <= '9') {
            proof {
                lemma_scan_prefix_err(d, (i - from + 1) as int, neg, min as int, max as int);
            }
            return Err(IntErrorKind::InvalidDigit);
        }
        let dv = (c as u32 - '0' as u32) as i128;
        let next = if neg {
            acc * 10 - dv
        } else {
            acc * 10 + dv
        };
        if next > max {
            proof {
                lemma_scan_prefix_err(d, (i - from + 1) as int, neg, min as int, max as int);
            }
            return Err(IntErrorKind::PosOverflow);
        }
        if next < min {
            proof {
                lemma_scan_prefix_err(d, (i - from + 1) as int, neg, min as int, max as int);
            }
            return Err(IntErrorKind::NegOverflow);
        }
        acc = next;
        i = i + 1;
    }
    proof {
        assert(d.take(i - from) =~= d);
    }
    Ok(acc)
}

proof fn lemma_scan_prefix_err(d: Seq<char>, k: int, neg: bool, min: int, max: int)
    requires
        0 < k <= d.len(),
        scan_digits(d.take(k), neg, min, max) is Err,
    ensures
        scan_digits(d, neg, min, max) == scan_digits(d.take(k), neg, min, max),
    decreases d.len() - k,
{
    if k < d.len() {
        assert(d.take(k + 1).drop_last() =~= d.take(k));
        lemma_scan_prefix_err(d, k + 1, neg, min, max);
    } else {
        assert(d.take(k) =~= d);
    }
}

/// Parses a decimal integer in `[min, max]` as std's integer `from_str` does.
pub fn parse_int(v: &Vec<char>, signed: bool, min: i128, max: i128) -> (r: Result<
    i128,
    IntErrorKind,
>)
    requires
        -0x1_0000_0000_0000_0000 <= min <= 0 <= max <= 0x1_0000_0000_0000_0000,
    ensures
        match parse_int_spec(v@, signed, min as int, max as int) {
            Ok(x) => r == Ok::<i128, IntErrorKind>(x as i128),
            Err(e) => r == Err::<i128, IntErrorKind>(e),
        },
{
    if v.len() == 0 {
        return Err(IntErrorKind::Empty);
    }
    let c = v[0];
    if (c == '+' || c == '-') && v.len() == 1 {
        return Err(IntErrorKind::InvalidDigit);
    }
    if c == '+' {
        proof {
            assert(v@.skip(1) =~= v@.drop_first());
        }
        scan_digits_exec(v, 1, false, min, max)
    } else if c == '-' && signed {
        proof {
            assert(v@.skip(1) =~= v@.drop_first());
        }
        scan_digits_exec(v, 1, true, min, max)
    } else {
        proof {
            assert(v@.skip(0) =~= v@);
        }
        scan_digits_exec(v, 0, false, min, max)
    }
}

pub open spec fn parse_i64_spec(s: Seq<char>) -> Result<int, IntErrorKind> {
    parse_int_spec(s, true, i64::MIN as int, i64::MAX as int)
}

pub open spec fn parse_u64_spec(s: Seq<char>) -> Result<int, IntErrorKind> {
    parse_int_spec(s, false, 0, u64::MAX as int)
}

pub open spec fn parse_u32_spec(s: Seq<char>) -> Result<int, IntErrorKind> {
    parse_int_spec(s, false, 0, u32::MAX as int)
}

/// Parses an `i64` as `str::parse::<i64>` does.
pub fn parse_i64(v: &Vec<char>) -> (r: Result<i64, IntErrorKind>)
    ensures
        match parse_i64_spec(v@) {
            Ok(x) => r == Ok::<i64, IntErrorKind>(x as i64),
            Err(e) => r == Err::<i64, IntErrorKind>(e),
        },
{
    let r = parse_int(v, true, i64::MIN as i128, i64::MAX as i128);
    proof {
        if v@.len() > 0 {
            lemma_scan_digits_range(v@.drop_first(), true, i64::MIN as int, i64::MAX as int);
            lemma_scan_digits_range(v@.drop_first(), false, i64::MIN as int, i64::MAX as int);
            lemma_scan_digits_range(v@, false, i64::MIN as int, i64::MAX as int);
        }
    }
    match r {
        Ok(x) => Ok(x as i64),
        Err(e) => Err(e),
    }
}

/// Parses a `u64` as `str::parse::<u64>` does.
pub fn parse_u64(v: &Vec<char>) -> (r: Result<u64, IntErrorKind>)
    ensures
        match parse_u64_spec(v@) {
            Ok(x) => r == Ok::<u64, IntErrorKind>(x as u64),
            Err(e) => r == Err::<u64, IntErrorKind>(e),
        },
{
    let r = parse_int(v, false, 0, u64::MAX as i128);
    proof {
        if v@.len() > 0 {
            lemma_scan_digits_range(v@.drop_first(), false, 0, u64::MAX as int);
            lemma_scan_digits_range(v@, false, 0, u64::MAX as int);
        }
    }
    match r {
        Ok(x) => Ok(x as u64),
        Err(e) => Err(e),
    }
}

/// Parses a `u32` as `str::parse::<u32>` does.
pub fn parse_u32(v: &Vec<char>) -> (r: Result<u32, IntErrorKind>)
    ensures
        match parse_u32_spec(v@) {
            Ok(x) => r == Ok::<u32, IntErrorKind>(x as u32),
            Err(e) => r == Err::<u32, IntErrorKind>(e),
        },
{
    let r = parse_int(v, false, 0, u32::MAX as i128);
    proof {
        if v@.len() > 0 {
            lemma_scan_digits_range(v@.drop_first(), false, 0, u32::MAX as int);
            lemma_scan_digits_range(v@, false, 0, u32::MAX as int);
        }
    }
    match r {
        Ok(x) => Ok(x as u32),
        Err(e) => Err(e),
    }
}

pub open spec fn char_words_model(r: Seq<(usize, Vec<char>)>) -> Seq<(int, Seq<char>)> {
    r.map_values(|w: (usize, Vec<char>)| (w.0 as int, w.1@))
}

/// The words of a string with the index of their first character.
pub fn split_words_at_chars(v: &Vec<char>) -> (r: Vec<(usize, Vec<char>)>)
    ensures
        char_words_model(r@) == words_from(v@, 0),
{
    let ghost s = v@;
    let mut out: Vec<(usize, Vec<char>)> = Vec::new();
    let mut i: usize = 0;
    loop
        invariant
            i <= s.len(),
            s == v@,
            words_from(s, 0) == char_words_model(out@) + words_from(s, i as int),
        ensures
            words_from(s, 0) == char_words_model(out@),
        decreases s.len() - i,
    {
        let ghost rest = words_from(s, i as int);
        proof {
            lemma_skip_ws(s, i as int);
        }
        let mut j = i;
        while j < v.len() && is_whitespace(v[j])
            invariant
                i <= j <= s.len(),
                s == v@,
                skip_ws(s, i as int) == skip_ws(s, j as int),
            decreases s.len() - j,
        {
            j = j + 1;
        }
        if j >= v.len() {
            proof {
                assert(rest =~= Seq::<(int, Seq<char>)>::empty());
                assert(words_from(s, 0) =~= char_words_model(out@));
            }
            break;
        }
        proof {
            lemma_word_end(s, j as int);
        }
        let mut k = j;
        while k < v.len() && !is_whitespace(v[k])
            invariant
                j <= k <= s.len(),
                s == v@,
                word_end(s, j as int) == word_end(s, k as int),
            decreases s.len() - k,
        {
            k = k + 1;
        }
        let word = slice_chars(v, j, k);
        let ghost before = char_words_model(out@);
        out.push((j, word));
        proof {
            assert(char_words_model(out@) =~= before.push((j as int, word@)));
            assert(rest =~= seq![(j as int, s.subrange(j as int, k as int))] + words_from(
                s,
                k as int,
            ));
            assert(words_from(s, 0) =~= char_words_model(out@) + words_from(s, k as int));
        }
        i = k;
    }
    out
}

/// The pieces of `s` between commas, from index `i`.
pub open spec fn comma_split_from(s: Seq<char>, i: int) -> Seq<Seq<char>>
    decreases s.len() - i + 1,
{
    if i < 0 || i > s.len() {
        Seq::empty()
    } else {
        match find_from(s, ',', i) {
            Some(k) => {
                proof {
                    lemma_find_from(s, ',', i);
                }
                seq![s.subrange(i, k)] + comma_split_from(s, k + 1)
            },
            None => seq![s.subrange(i, s.len() as int)],
        }
    }
}

/// The pieces of a string between commas (as `split(',')` yields them).
pub fn split_commas(v: &Vec<char>) -> (r: Vec<Vec<char>>)
    ensures
        r@.map_values(|p: Vec<char>| p@) == comma_split_from(v@, 0),
{
    let mut out: Vec<Vec<char>> = Vec::new();
    let mut i: usize = 0;
    let mut done = false;
    let len = v.len();
    while !done
        invariant
            len == v@.len(),
            i <= v@.len(),
            !done ==> comma_split_from(v@, 0) == out@.map_values(|p: Vec<char>| p@)
                + comma_split_from(v@, i as int),
            done ==> comma_split_from(v@, 0) == out@.map_values(|p: Vec<char>| p@),
        decreases v@.len() - i + (if done { 0int } else { 1int }),
    {
        let ghost before = out@.map_values(|p: Vec<char>| p@);
        proof {
            lemma_find_from(v@, ',', i as int);
        }
        let found = find_char_from(v, ',', i);
        match found {
            Some(k) => {
                let piece = slice_chars(v, i, k);
                out.push(piece);
                proof {
                    assert(out@.map_values(|p: Vec<char>| p@) =~= before.push(piece@));
                    assert(comma_split_from(v@, 0) =~= out@.map_values(|p: Vec<char>| p@)
                        + comma_split_from(v@, k + 1));
                }
                i = k + 1;
            },
            None => {
                let piece = slice_chars(v, i, v.len());
                out.push(piece);
                proof {
                    assert(out@.map_values(|p: Vec<char>| p@) =~= before.push(piece@));
                    assert(comma_split_from(v@, 0) =~= out@.map_values(|p: Vec<char>| p@));
                }
                done = true;
            },
        }
    }
    out
}

pub proof fn lemma_words_from(s: Seq<char>, i: int)
    requires
        0 <= i <= s.len(),
    ensures
        forall|j: int|
            0 <= j < words_from(s, i).len() ==> {
                let w = #[trigger] words_from(s, i)[j];
                &&& i <= w.0
                &&& w.0 + w.1.len() <= s.len()
                &&& w.1.len() > 0
                &&& w.1 == s.subrange(w.0, w.0 + w.1.len())
            },
    decreases s.len() - i,
{
    lemma_skip_ws(s, i);
    let j = skip_ws(s, i);
    if j < s.len() {
        lemma_word_end(s, j);
        let k = word_end(s, j);
        lemma_words_from(s, k);
        let ws = words_from(s, i);
        assert(ws == seq![(j, s.subrange(j, k))] + words_from(s, k));
        assert forall|m: int| 0 <= m < ws.len() implies {
            let w = #[trigger] ws[m];
            &&& i <= w.0
            &&& w.0 + w.1.len() <= s.len()
            &&& w.1.len() > 0
            &&& w.1 == s.subrange(w.0, w.0 + w.1.len())
        } by {
            if m > 0 {
                assert(ws[m] == words_from(s, k)[m - 1]);
            }
        }
    }
}

/// Byte offset of the character with index `i` in the UTF-8 encoding of `v`.
pub fn byte_offset_of(v: &Vec<char>, i: usize) -> (r: usize)
    requires
        i <= v@.len(),
        byte_offset(v@, v@.len() as int) <= usize::MAX,
    ensures
        r == byte_offset(v@, i as int),
{
    let mut k: usize = 0;
    let mut off: usize = 0;
    proof {
        assert(v@.take(0) =~= Seq::<char>::empty());
    }
    while k < i
        invariant
            k <= i <= v@.len(),
            off == byte_offset(v@, k as int),
            byte_offset(v@, v@.len() as int) <= usize::MAX,
        decreases i - k,
    {
        proof {
            lemma_byte_offset_step(v@, k as int);
            lemma_byte_offset_bound(v@, k as int + 1);
            assert(v@.take(v@.len() as int) =~= v@);
        }
        off = off + char_width(v[k]);
        k = k + 1;
    }
    off
}

} // verus!
