//! Which category an identifier belongs to: `IAB`, a number, a delimiter,
//! and whatever follows.

use vstd::prelude::*;
use vstd::string::*;
use crate::text::decimal;

verus! {

/// Why an identifier takes no part in the tree.
#[derive(Clone, Copy, Debug, PartialEq, Eq, Structural)]
pub enum Rejection {
    /// It does not start with `IAB`.
    NotCategory,
    /// Neither delimiter occurs after `IAB`.
    NoDelimiter,
    /// What stands between `IAB` and the delimiter is no number.
    NotNumber,
}

/// Whether the identifier starts with `IAB`.
pub open spec fn has_prefix(id: Seq<char>) -> bool {
    id.len() >= 3 && id[0] == 'I' && id[1] == 'A' && id[2] == 'B'
}

/// Whether `i` is the first position of `c` in `s`.
pub open spec fn is_first(s: Seq<char>, c: char, i: int) -> bool {
    &&& 0 <= i < s.len()
    &&& s[i] == c
    &&& forall|j: int| 0 <= j < i ==> s[j] != c
}

/// The first position of `c` in a string that contains it.
pub open spec fn first_index(s: Seq<char>, c: char) -> int {
    choose|i: int| is_first(s, c, i)
}

/// The first position of a character is the only one.
pub proof fn lemma_first_index(s: Seq<char>, c: char, i: int)
    requires
        is_first(s, c, i),
    ensures
        s.contains(c),
        first_index(s, c) == i,
{
    let k = first_index(s, c);
    assert(is_first(s, c, k));
    if k < i {
        assert(s[k] == c);
    } else if i < k {
        assert(s[i] == c);
    }
}

/// Where `s` is split: at the first occurrence of the first delimiter,
/// from `delims[d]` on, that occurs in it at all.
pub open spec fn split_point_from(s: Seq<char>, delims: Seq<char>, d: int) -> Option<int>
    decreases delims.len() - d,
{
    if d < 0 || d >= delims.len() {
        None
    } else if s.contains(delims[d]) {
        Some(first_index(s, delims[d]))
    } else {
        split_point_from(s, delims, d + 1)
    }
}

/// The delimiters, in order of preference.
pub open spec fn delimiters() -> Seq<char> {
    seq!['-', '_']
}

/// The text before the delimiter, of what follows `IAB`.
pub open spec fn number_text(rest: Seq<char>) -> Option<Seq<char>> {
    match split_point_from(rest, delimiters(), 0) {
        Some(i) => Some(rest.take(i)),
        None => None,
    }
}

/// Whether `c` is one of `0` to `9`.
pub open spec fn is_digit(c: char) -> bool {
    ('0' as int) <= (c as int) <= ('9' as int)
}

/// Whether each character is a decimal digit.
pub open spec fn all_digits(s: Seq<char>) -> bool {
    forall|i: int| 0 <= i < s.len() ==> is_digit(#[trigger] s[i])
}

/// The number that a digit stands for.
pub open spec fn digit_value(c: char) -> nat {
    ((c as int) - ('0' as int)) as nat
}

/// The number that a string of digits denotes.
pub open spec fn digits_value(s: Seq<char>) -> nat
    decreases s.len(),
{
    if s.len() == 0 {
        0
    } else {
        digits_value(s.drop_last()) * 10 + digit_value(s.last())
    }
}

/// The text without a leading plus sign.
pub open spec fn unsigned_part(s: Seq<char>) -> Seq<char> {
    if s.len() > 0 && s[0] == '+' {
        s.skip(1)
    } else {
        s
    }
}

/// The number that a text denotes: an optional plus sign, then at least one
/// digit, the whole no greater than `u32::MAX`.
pub open spec fn number_of(s: Seq<char>) -> Option<u32> {
    let d = unsigned_part(s);
    if d.len() > 0 && all_digits(d) && digits_value(d) <= u32::MAX {
        Some(digits_value(d) as u32)
    } else {
        None
    }
}

/// The category of an identifier, or why it has none.
pub open spec fn category_of(id: Seq<char>) -> Result<u32, Rejection> {
    if !has_prefix(id) {
        Err(Rejection::NotCategory)
    } else {
        match number_text(id.skip(3)) {
            None => Err(Rejection::NoDelimiter),
            Some(t) => match number_of(t) {
                Some(k) => Ok(k),
                None => Err(Rejection::NotNumber),
            },
        }
    }
}

/// A prefix of a string of digits denotes no more than the whole.
pub proof fn lemma_digits_value_monotone(d: Seq<char>, j: int)
    requires
        all_digits(d),
        0 <= j <= d.len(),
    ensures
        digits_value(d.take(j)) <= digits_value(d),
    decreases d.len(),
{
    if j == d.len() {
        assert(d.take(j) =~= d);
    } else {
        lemma_digits_value_monotone(d.drop_last(), j);
        assert(d.drop_last().take(j) =~= d.take(j));
        assert(is_digit(d[d.len() - 1]));
    }
}

/// The decimal numeral of a number is read back as that number.
pub proof fn lemma_decimal_reads_back(n: u32)
    ensures
        number_of(decimal(n as nat)) == Some(n),
{
    lemma_decimal_digits(n as nat);
}

/// A decimal numeral is a string of digits that denotes its number.
pub proof fn lemma_decimal_digits(n: nat)
    ensures
        decimal(n).len() > 0,
        all_digits(decimal(n)),
        digits_value(decimal(n)) == n,
    decreases n,
{
    if n < 10 {
        assert(decimal(n).drop_last() =~= Seq::<char>::empty());
        assert(digits_value(decimal(n).drop_last()) == 0);
    } else {
        lemma_decimal_digits(n / 10);
        assert(decimal(n).drop_last() =~= decimal(n / 10));
    }
}

/// What follows `IAB`, where the identifier starts with it.
pub fn strip_iab(id: &str) -> (r: Option<&str>)
    ensures
        match r {
            Some(rest) => has_prefix(id@) && rest@ == id@.skip(3),
            None => !has_prefix(id@),
        },
{
    let n: usize = id.unicode_len();
    if n < 3 {
        return None;
    }
    if id.get_char(0) != 'I' || id.get_char(1) != 'A' || id.get_char(2) != 'B' {
        return None;
    }
    let rest = id.substring_char(3, n);
    assert(rest@ =~= id@.skip(3));
    Some(rest)
}

/// Looks for the first occurrence of `c`.
pub fn find_char(s: &str, c: char) -> (r: Option<usize>)
    ensures
        match r {
            Some(i) => is_first(s@, c, i as int),
            None => !s@.contains(c),
        },
{
    let n: usize = s.unicode_len();
    let mut i: usize = 0;
    while i < n
        invariant
            i <= n,
            n == s@.len(),
            forall|j: int| 0 <= j < i ==> s@[j] != c,
        decreases n - i,
    {
        if s.get_char(i) == c {
            return Some(i);
        }
        i += 1;
    }
    None
}

/// Splits at the first occurrence of the first of `delims` that occurs, and
/// returns what stands before it.
pub fn split_before<'a>(s: &'a str, delims: &Vec<char>) -> (r: Option<&'a str>)
    ensures
        match r {
            Some(t) => split_point_from(s@, delims@, 0) matches Some(i) && t@ == s@.take(i),
            None => split_point_from(s@, delims@, 0) is None,
        },
{
    let mut d: usize = 0;
    while d < delims.len()
        invariant
            d <= delims.len(),
            split_point_from(s@, delims@, 0) == split_point_from(s@, delims@, d as int),
        decreases delims.len() - d,
    {
        match find_char(s, delims[d]) {
            Some(i) => {
                proof {
                    lemma_first_index(s@, delims@[d as int], i as int);
                }
                let t = s.substring_char(0, i);
                assert(t@ =~= s@.take(i as int));
                return Some(t);
            },
            None => {},
        }
        d += 1;
    }
    None
}

/// The text before the delimiter, of what follows `IAB`.
pub fn leading_text(rest: &str) -> (r: Option<&str>)
    ensures
        match r {
            Some(t) => number_text(rest@) == Some(t@),
            None => number_text(rest@) is None,
        },
{
    let delims: Vec<char> = vec!['-', '_'];
    assert(delims@ =~= delimiters());
    split_before(rest, &delims)
}

/// Reads a number: an optional plus sign, then decimal digits.
pub fn parse_number(text: &str) -> (r: Option<u32>)
    ensures
        r == number_of(text@),
{
    let n: usize = text.unicode_len();
    let mut i: usize = 0;
    if n > 0 && text.get_char(0) == '+' {
        i = 1;
    }
    let start: usize = i;
    let ghost d = unsigned_part(text@);
    assert(d =~= text@.skip(start as int));
    if i == n {
        return None;
    }
    let mut acc: u64 = 0;
    while i < n
        invariant
            start <= i <= n,
            n == text@.len(),
            d == text@.skip(start as int),
            d == unsigned_part(text@),
            all_digits(d.take(i - start)),
            acc == digits_value(d.take(i - start)),
            acc <= u32::MAX,
        decreases n - i,
    {
        let c = text.get_char(i);
        let v: u32 = c as u32;
        assert(d[i - start] == c);
        if v < 48 || v > 57 {
            assert(!is_digit(d[i - start]));
            return None;
        }
        let next: u64 = acc * 10 + ((v - 48) as u64);
        proof {
            assert(d.take(i - start + 1).drop_last() =~= d.take(i - start));
            assert(d.take(i - start + 1).last() == c);
            assert(next == digits_value(d.take(i - start + 1)));
        }
        if next > 0xffff_ffff {
            proof {
                if all_digits(d) {
                    lemma_digits_value_monotone(d, i - start + 1);
                }
            }
            return None;
        }
        acc = next;
        i += 1;
    }
    assert(d.take(i - start) =~= d);
    Some(acc as u32)
}

/// Decides whether an identifier takes part in the tree, and in which
/// category.
pub fn classify(id: &str) -> (r: Result<u32, Rejection>)
    ensures
        r == category_of(id@),
{
    match strip_iab(id) {
        None => Err(Rejection::NotCategory),
        Some(rest) => match leading_text(rest) {
            None => Err(Rejection::NoDelimiter),
            Some(t) => match parse_number(t) {
                Some(k) => Ok(k),
                None => Err(Rejection::NotNumber),
            },
        },
    }
}

} // verus!
