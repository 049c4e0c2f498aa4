//! Character-level helpers: conversion between `String` and characters,
//! line splitting, field extraction and the decimal number syntax.
use vstd::prelude::*;

verus! {

/// Relies on `str::chars`: the characters of the string, in order.
#[verifier::external_body]
pub(crate) fn chars_of(s: &str) -> (r: Vec<char>)
    ensures
        r@ == s@,
{
    s.chars().collect()
}

/// Relies on `String: FromIterator<char>`: a string made of these characters.
#[verifier::external_body]
pub(crate) fn text_of(c: &Vec<char>) -> (r: String)
    ensures
        r@ == c@,
{
    c.iter().collect()
}

/// Decimal digits of a natural number, most significant first, no padding.
pub open spec fn decimal_of(n: nat) -> Seq<char>
    decreases n,
{
    let d = (('0' as u32) + (n % 10) as u32) as char;
    if n < 10 {
        seq![d]
    } else {
        decimal_of(n / 10).push(d)
    }
}

/// Relies on `u32`'s `Display` (through `to_string`): its decimal digits.
#[verifier::external_body]
pub(crate) fn u32_text(n: u32) -> (r: String)
    ensures
        r@ == decimal_of(n as nat),
{
    n.to_string()
}

/// Splits on every newline; the last piece is what follows the last newline.
pub open spec fn split_newlines(s: Seq<char>) -> Seq<Seq<char>>
    decreases s.len(),
{
    if s.len() == 0 {
        seq![Seq::<char>::empty()]
    } else {
        let p = split_newlines(s.drop_last());
        if s.last() == '\n' {
            p.push(Seq::<char>::empty())
        } else {
            p.update(p.len() - 1, p.last().push(s.last()))
        }
    }
}

/// A line without its carriage return, if it ends with one.
pub open spec fn strip_cr(l: Seq<char>) -> Seq<char> {
    if l.len() > 0 && l.last() == '\r' {
        l.drop_last()
    } else {
        l
    }
}

pub(crate) proof fn lemma_split_nonempty(s: Seq<char>)
    ensures
        split_newlines(s).len() >= 1,
    decreases s.len(),
{
    if s.len() > 0 {
        lemma_split_nonempty(s.drop_last());
    }
}

pub(crate) fn strip_cr_exec(l: Vec<char>) -> (r: Vec<char>)
    ensures
        r@ == strip_cr(l@),
{
    let mut l = l;
    let n = l.len();
    if n > 0 && l[n - 1] == '\r' {
        l.pop();
    }
    l
}

/// The pieces of `s` between newlines, each as its characters.
pub fn split_pieces(s: &Vec<char>) -> (r: Vec<Vec<char>>)
    ensures
        r@.len() == split_newlines(s@).len(),
        forall|i: int| 0 <= i < r@.len() ==> #[trigger] r@[i]@ == split_newlines(s@)[i],
{
    let mut done: Vec<Vec<char>> = Vec::new();
    let mut cur: Vec<char> = Vec::new();
    let mut i: usize = 0;
    proof {
        assert(s@.take(0) =~= Seq::<char>::empty());
    }
    while i < s.len()
        invariant
            i <= s@.len(),
            split_newlines(s@.take(i as int)).len() == done@.len() + 1,
            forall|j: int| 0 <= j < done@.len() ==> #[trigger] done@[j]@ == split_newlines(s@.take(i as int))[j],
            split_newlines(s@.take(i as int)).last() == cur@,
        decreases s@.len() - i,
    {
        let c = s[i];
        proof {
            assert(s@.take(i + 1).drop_last() =~= s@.take(i as int));
            lemma_split_nonempty(s@.take(i as int));
        }
        if c == '\n' {
            let line = cur;
            done.push(line);
            cur = Vec::new();
        } else {
            cur.push(c);
        }
        i = i + 1;
    }
    proof {
        assert(s@.take(i as int) =~= s@);
    }
    done.push(cur);
    done
}

/// The first position at or after `i` where `p` occurs in `s`, or -1.
pub open spec fn find_sub(s: Seq<char>, p: Seq<char>, i: int) -> int
    decreases s.len() + 1 - i,
{
    if i < 0 || i >= s.len() + 1 || i + p.len() > s.len() {
        -1
    } else if s.subrange(i, i + p.len()) == p {
        i
    } else {
        find_sub(s, p, i + 1)
    }
}

fn occurs_at(s: &Vec<char>, p: &Vec<char>, i: usize) -> (r: bool)
    requires
        i + p@.len() <= s@.len(),
    ensures
        r == (s@.subrange(i as int, i + p@.len()) == p@),
{
    let n = s.len();
    let mut k: usize = 0;
    while k < p.len()
        invariant
            n == s@.len(),
            k <= p@.len(),
            i + p@.len() <= s@.len(),
            forall|j: int| 0 <= j < k ==> s@[i + j] == p@[j],
        decreases p@.len() - k,
    {
        assert(i + k < s@.len());
        if s[i + k] != p[k] {
            proof {
                assert(s@.subrange(i as int, i + p@.len())[k as int] != p@[k as int]);
            }
            return false;
        }
        k = k + 1;
    }
    proof {
        assert(s@.subrange(i as int, i + p@.len()) =~= p@);
    }
    true
}

/// Where `p` first occurs in `s`, if it does.
pub fn find_sub_exec(s: &Vec<char>, p: &Vec<char>) -> (r: Option<usize>)
    ensures
        match r {
            Some(x) => x as int == find_sub(s@, p@, 0) && x + p@.len() <= s@.len(),
            None => find_sub(s@, p@, 0) == -1,
        },
{
    if p.len() > s.len() {
        return None;
    }
    if p.len() == 0 {
        proof {
            assert(s@.subrange(0, 0) =~= p@);
        }
        return Some(0);
    }
    let mut i: usize = 0;
    while i <= s.len() - p.len()
        invariant
            1 <= p@.len() <= s@.len(),
            i <= s@.len() - p@.len() + 1,
            find_sub(s@, p@, i as int) == find_sub(s@, p@, 0),
        decreases s@.len() + 1 - i,
    {
        if occurs_at(s, p, i) {
            return Some(i);
        }
        i = i + 1;
    }
    None
}

/// The characters of `s` from `lo` up to, not including, `hi`.
pub fn sub_vec(s: &Vec<char>, lo: usize, hi: usize) -> (r: Vec<char>)
    requires
        lo <= hi <= s@.len(),
    ensures
        r@ == s@.subrange(lo as int, hi as int),
{
    let mut r: Vec<char> = Vec::new();
    let mut i: usize = lo;
    while i < hi
        invariant
            lo <= i <= hi <= s@.len(),
            r@ == s@.subrange(lo as int, i as int),
        decreases hi - i,
    {
        r.push(s[i]);
        i = i + 1;
        proof {
            assert(r@ =~= s@.subrange(lo as int, i as int));
        }
    }
    r
}

/// The first position at or after `i` that holds `c`, or the length.
pub open spec fn find_char(s: Seq<char>, c: char, i: int) -> int
    decreases s.len() - i,
{
    if i < 0 || i >= s.len() {
        s.len() as int
    } else if s[i] == c {
        i
    } else {
        find_char(s, c, i + 1)
    }
}

pub(crate) proof fn lemma_find_char_bounds(s: Seq<char>, c: char, i: int)
    requires
        0 <= i,
    ensures
        find_char(s, c, i) == s.len() || (i <= find_char(s, c, i) < s.len() && s[find_char(
            s,
            c,
            i,
        )] == c),
        find_char(s, c, i) >= i || find_char(s, c, i) == s.len(),
    decreases s.len() - i,
{
    if i < s.len() && s[i] != c {
        lemma_find_char_bounds(s, c, i + 1);
    }
}

pub fn find_char_exec(s: &Vec<char>, c: char, i: usize) -> (r: usize)
    ensures
        r == find_char(s@, c, i as int),
{
    let mut k: usize = i;
    if k > s.len() {
        return s.len();
    }
    while k < s.len()
        invariant
            i <= k <= s@.len(),
            find_char(s@, c, k as int) == find_char(s@, c, i as int),
        decreases s@.len() - k,
    {
        if s[k] == c {
            return k;
        }
        k = k + 1;
    }
    k
}

pub open spec fn is_digit(c: char) -> bool {
    '0' <= c <= '9'
}

pub open spec fn is_sign(c: char) -> bool {
    c == '+' || c == '-'
}

/// The first position at or after `i` that does not hold a digit, or the length.
pub open spec fn digits_end(s: Seq<char>, i: int) -> int
    decreases s.len() - i,
{
    if i < 0 || i >= s.len() || !is_digit(s[i]) {
        i
    } else {
        digits_end(s, i + 1)
    }
}

fn digits_end_exec(s: &Vec<char>, i: usize) -> (r: usize)
    requires
        i <= s@.len(),
    ensures
        r == digits_end(s@, i as int),
        i <= r <= s@.len(),
{
    let mut k: usize = i;
    while k < s.len() && '0' <= s[k] && s[k] <= '9'
        invariant
            i <= k <= s@.len(),
            digits_end(s@, k as int) == digits_end(s@, i as int),
        decreases s@.len() - k,
    {
        k = k + 1;
    }
    k
}

/// An exponent from position `c` to the end: an optional sign, then digits.
pub open spec fn exponent_from(s: Seq<char>, c: int) -> bool {
    let c2 = if c < s.len() && is_sign(s[c]) { c + 1 } else { c };
    let d = digits_end(s, c2);
    d > c2 && d == s.len()
}

/// Digits with at most one point and at least one digit, then an optional
/// exponent (`e` or `E`, an optional sign, digits).
pub open spec fn is_unsigned_decimal(s: Seq<char>) -> bool {
    let a = digits_end(s, 0);
    let has_point = a < s.len() && s[a] == '.';
    let b = if has_point { digits_end(s, a + 1) } else { a };
    let n_digits = if has_point { b - 1 } else { b };
    n_digits >= 1 && (b == s.len() || ((s[b] == 'e' || s[b] == 'E') && exponent_from(s, b + 1)))
}

/// `s` spells the word whose lower case is `lo` and upper case is `up`,
/// each letter in either case.
pub open spec fn is_word(s: Seq<char>, lo: Seq<char>, up: Seq<char>) -> bool {
    s.len() == lo.len() && lo.len() == up.len() && forall|i: int|
        0 <= i < s.len() ==> (#[trigger] s[i] == lo[i] || s[i] == up[i])
}

/// The infinities and not-a-number, in any case.
pub open spec fn is_special_number(s: Seq<char>) -> bool {
    is_word(s, seq!['i', 'n', 'f'], seq!['I', 'N', 'F']) || is_word(
        s,
        seq!['i', 'n', 'f', 'i', 'n', 'i', 't', 'y'],
        seq!['I', 'N', 'F', 'I', 'N', 'I', 'T', 'Y'],
    ) || is_word(s, seq!['n', 'a', 'n'], seq!['N', 'A', 'N'])
}

/// The text of a floating-point number, as the standard library reads one:
/// an optional sign, then an infinity, not-a-number, or a decimal.
pub open spec fn is_number_text(s: Seq<char>) -> bool {
    let u = if s.len() > 0 && is_sign(s[0]) { s.skip(1) } else { s };
    is_special_number(u) || is_unsigned_decimal(u)
}

fn is_word_exec(s: &Vec<char>, lo: &Vec<char>, up: &Vec<char>) -> (r: bool)
    ensures
        r == is_word(s@, lo@, up@),
{
    if s.len() != lo.len() || lo.len() != up.len() {
        return false;
    }
    let mut i: usize = 0;
    while i < s.len()
        invariant
            i <= s@.len(),
            s@.len() == lo@.len() && lo@.len() == up@.len(),
            forall|j: int| 0 <= j < i ==> (#[trigger] s@[j] == lo@[j] || s@[j] == up@[j]),
        decreases s@.len() - i,
    {
        if s[i] != lo[i] && s[i] != up[i] {
            return false;
        }
        i = i + 1;
    }
    true
}

fn is_unsigned_decimal_exec(s: &Vec<char>) -> (r: bool)
    ensures
        r == is_unsigned_decimal(s@),
{
    let a = digits_end_exec(s, 0);
    let has_point = a < s.len() && s[a] == '.';
    let b = if has_point { digits_end_exec(s, a + 1) } else { a };
    let n_digits = if has_point { b - 1 } else { b };
    if n_digits < 1 {
        return false;
    }
    if b == s.len() {
        return true;
    }
    if s[b] != 'e' && s[b] != 'E' {
        return false;
    }
    let c = b + 1;
    let c2 = if c < s.len() && (s[c] == '+' || s[c] == '-') { c + 1 } else { c };
    let d = digits_end_exec(s, c2);
    d > c2 && d == s.len()
}

/// Whether `s` is the text of a floating-point number.
pub fn is_number_text_exec(s: &Vec<char>) -> (r: bool)
    ensures
        r == is_number_text(s@),
{
    let u = if s.len() > 0 && (s[0] == '+' || s[0] == '-') {
        sub_vec(s, 1, s.len())
    } else {
        s.clone()
    };
    proof {
        if s@.len() > 0 && is_sign(s@[0]) {
            assert(u@ =~= s@.skip(1));
        }
    }
    let inf_lo = vec!['i', 'n', 'f'];
    let inf_up = vec!['I', 'N', 'F'];
    let infinity_lo = vec!['i', 'n', 'f', 'i', 'n', 'i', 't', 'y'];
    let infinity_up = vec!['I', 'N', 'F', 'I', 'N', 'I', 'T', 'Y'];
    let nan_lo = vec!['n', 'a', 'n'];
    let nan_up = vec!['N', 'A', 'N'];
    proof {
        assert(inf_lo@ =~= seq!['i', 'n', 'f']);
        assert(inf_up@ =~= seq!['I', 'N', 'F']);
        assert(infinity_lo@ =~= seq!['i', 'n', 'f', 'i', 'n', 'i', 't', 'y']);
        assert(infinity_up@ =~= seq!['I', 'N', 'F', 'I', 'N', 'I', 'T', 'Y']);
        assert(nan_lo@ =~= seq!['n', 'a', 'n']);
        assert(nan_up@ =~= seq!['N', 'A', 'N']);
    }
    is_word_exec(&u, &inf_lo, &inf_up) || is_word_exec(&u, &infinity_lo, &infinity_up)
        || is_word_exec(&u, &nan_lo, &nan_up) || is_unsigned_decimal_exec(&u)
}

/// `s` begins with `p`.
pub open spec fn starts_with(s: Seq<char>, p: Seq<char>) -> bool {
    p.len() <= s.len() && s.take(p.len() as int) =~= p
}

pub fn starts_with_exec(s: &Vec<char>, p: &Vec<char>) -> (r: bool)
    ensures
        r == starts_with(s@, p@),
{
    if p.len() > s.len() {
        return false;
    }
    let mut i: usize = 0;
    while i < p.len()
        invariant
            i <= p@.len() <= s@.len(),
            forall|j: int| 0 <= j < i ==> s@[j] == p@[j],
        decreases p@.len() - i,
    {
        if s[i] != p[i] {
            proof {
                assert(s@.take(p@.len() as int)[i as int] != p@[i as int]);
            }
            return false;
        }
        i = i + 1;
    }
    proof {
        assert(s@.take(p@.len() as int) =~= p@);
    }
    true
}

/// The text of a number holds neither a newline nor a carriage return, and
/// is not empty.
pub proof fn lemma_number_text_chars(s: Seq<char>, i: int)
    requires
        is_number_text(s),
        0 <= i < s.len(),
    ensures
        s[i] != '\n',
        s[i] != '\r',
        s.len() > 0,
{
    let u = if s.len() > 0 && is_sign(s[0]) { s.skip(1) } else { s };
    if s.len() > 0 && is_sign(s[0]) && i == 0 {
    } else {
        let k = if s.len() > 0 && is_sign(s[0]) { i - 1 } else { i };
        assert(u[k] == s[i]);
        if is_special_number(u) {
        } else {
            lemma_decimal_chars(u, k);
        }
    }
}

proof fn lemma_digits_end_chars(s: Seq<char>, i: int, k: int)
    requires
        0 <= i <= k < digits_end(s, i),
    ensures
        is_digit(s[k]),
    decreases k - i,
{
    if i < k {
        lemma_digits_end_chars(s, i + 1, k);
    }
}

proof fn lemma_digits_end_le(s: Seq<char>, i: int)
    requires
        0 <= i <= s.len(),
    ensures
        i <= digits_end(s, i) <= s.len(),
    decreases s.len() - i,
{
    if i < s.len() && is_digit(s[i]) {
        lemma_digits_end_le(s, i + 1);
    }
}

proof fn lemma_decimal_chars(s: Seq<char>, k: int)
    requires
        is_unsigned_decimal(s),
        0 <= k < s.len(),
    ensures
        s[k] != '\n',
        s[k] != '\r',
{
    let a = digits_end(s, 0);
    lemma_digits_end_le(s, 0);
    let has_point = a < s.len() && s[a] == '.';
    if has_point {
        lemma_digits_end_le(s, a + 1);
    }
    let b = if has_point { digits_end(s, a + 1) } else { a };
    if k < a {
        lemma_digits_end_chars(s, 0, k);
    } else if k == a {
    } else if k < b {
        lemma_digits_end_chars(s, a + 1, k);
    } else if k == b {
    } else {
        let c = b + 1;
        let c2 = if c < s.len() && is_sign(s[c]) { c + 1 } else { c };
        if k >= c2 {
            lemma_digits_end_chars(s, c2, k);
        }
    }
}

} // verus!
