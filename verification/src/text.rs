//! Character classes, trimming, ASCII case folding and decimal numerals,
//! the small pieces of text handling that selectors, menus and messages use.
use vstd::prelude::*;

verus! {

/// The text of an optional string.
pub open spec fn opt_view(o: Option<&str>) -> Option<Seq<char>> {
    match o {
        Some(s) => Some(s@),
        None => None,
    }
}

/// Unicode `White_Space`, the property that `char::is_whitespace` and
/// `str::trim` use.
pub open spec fn is_ws(c: char) -> bool {
    let u = c as u32;
    ||| (9 <= u && u <= 13)
    ||| u == 32
    ||| u == 0x85
    ||| u == 0xA0
    ||| u == 0x1680
    ||| (0x2000 <= u && u <= 0x200A)
    ||| u == 0x2028
    ||| u == 0x2029
    ||| u == 0x202F
    ||| u == 0x205F
    ||| u == 0x3000
}

pub open spec fn is_ascii_alpha(c: char) -> bool {
    (65 <= c as u32 && c as u32 <= 90) || (97 <= c as u32 && c as u32 <= 122)
}

pub open spec fn is_ascii_upper(c: char) -> bool {
    65 <= c as u32 && c as u32 <= 90
}

pub open spec fn is_ascii_digit(c: char) -> bool {
    48 <= c as u32 && c as u32 <= 57
}

/// The code of `c` with ASCII upper case letters taken to lower case.
pub open spec fn fold_code(c: char) -> u32 {
    if is_ascii_upper(c) { (c as u32 + 32) as u32 } else { c as u32 }
}

/// `str::eq_ignore_ascii_case`.
pub open spec fn eq_ignore_case(a: Seq<char>, b: Seq<char>) -> bool {
    &&& a.len() == b.len()
    &&& forall|i: int| 0 <= i < a.len() ==> fold_code(#[trigger] a[i]) == fold_code(b[i])
}

/// Index of the first character at or after `i` that is not white space.
pub open spec fn first_non_ws(s: Seq<char>, i: int) -> int
    decreases s.len() - i,
{
    if i < 0 || i >= s.len() || !is_ws(s[i]) {
        i
    } else {
        first_non_ws(s, i + 1)
    }
}

/// End of `s[lo..j]` once trailing white space is dropped.
pub open spec fn last_non_ws(s: Seq<char>, lo: int, j: int) -> int
    decreases j - lo,
{
    if j <= lo || j > s.len() || !is_ws(s[j - 1]) {
        j
    } else {
        last_non_ws(s, lo, j - 1)
    }
}

/// `str::trim`: `s` without leading and trailing white space.
pub open spec fn trim_ws(s: Seq<char>) -> Seq<char> {
    let a = first_non_ws(s, 0);
    s.subrange(a, last_non_ws(s, a, s.len() as int))
}

pub open spec fn all_digits(s: Seq<char>) -> bool {
    forall|i: int| 0 <= i < s.len() ==> is_ascii_digit(#[trigger] s[i])
}

pub open spec fn digit_value(c: char) -> int {
    c as u32 - 48
}

/// The number that a string of decimal digits writes.
pub open spec fn digits_value(s: Seq<char>) -> nat
    decreases s.len(),
{
    if s.len() == 0 {
        0
    } else {
        (digits_value(s.drop_last()) * 10 + digit_value(s.last())) as nat
    }
}

pub open spec fn digit_char(d: int) -> char {
    if d <= 0 { '0' }
    else if d == 1 { '1' }
    else if d == 2 { '2' }
    else if d == 3 { '3' }
    else if d == 4 { '4' }
    else if d == 5 { '5' }
    else if d == 6 { '6' }
    else if d == 7 { '7' }
    else if d == 8 { '8' }
    else { '9' }
}

/// The decimal numeral of `n`, without leading zeros.
pub open spec fn decimal(n: nat) -> Seq<char>
    decreases n,
{
    if n < 10 {
        seq![digit_char(n as int)]
    } else {
        decimal(n / 10).push(digit_char((n % 10) as int))
    }
}

/// Appends one character: a call of `String::push`, which std documents as
/// appending the given `char` to the end of the string.
#[verifier::external_body]
pub fn push_char(s: &mut String, c: char)
    ensures
        final(s)@ == old(s)@.push(c),
{
    s.push(c);
}

pub fn is_ws_char(c: char) -> (r: bool)
    ensures
        r == is_ws(c),
{
    let u = c as u32;
    (9 <= u && u <= 13) || u == 32 || u == 0x85 || u == 0xA0 || u == 0x1680 || (0x2000 <= u && u
        <= 0x200A) || u == 0x2028 || u == 0x2029 || u == 0x202F || u == 0x205F || u == 0x3000
}

pub fn is_ascii_alpha_char(c: char) -> (r: bool)
    ensures
        r == is_ascii_alpha(c),
{
    let u = c as u32;
    (65 <= u && u <= 90) || (97 <= u && u <= 122)
}

pub fn is_ascii_digit_char(c: char) -> (r: bool)
    ensures
        r == is_ascii_digit(c),
{
    let u = c as u32;
    48 <= u && u <= 57
}

fn fold_char(c: char) -> (r: u32)
    ensures
        r == fold_code(c),
{
    let u = c as u32;
    if 65 <= u && u <= 90 {
        u + 32
    } else {
        u
    }
}

/// A fresh `String` with the characters of `s`.
pub fn to_owned_string(s: &str) -> (r: String)
    ensures
        r@ == s@,
{
    String::from_str(s)
}

/// Whether two strings hold the same characters.
pub fn str_eq(a: &str, b: &str) -> (r: bool)
    ensures
        r == (a@ == b@),
{
    let n = a.unicode_len();
    let m = b.unicode_len();
    if n != m {
        return false;
    }
    let mut i: usize = 0;
    while i < n
        invariant
            n == a@.len(),
            m == b@.len(),
            n == m,
            i <= n,
            forall|k: int| 0 <= k < i ==> a@[k] == b@[k],
        decreases n - i,
    {
        if a.get_char(i) != b.get_char(i) {
            return false;
        }
        i = i + 1;
    }
    assert(a@ =~= b@);
    true
}

/// `str::eq_ignore_ascii_case`.
pub fn eq_ignore_ascii_case(a: &str, b: &str) -> (r: bool)
    ensures
        r == eq_ignore_case(a@, b@),
{
    let n = a.unicode_len();
    let m = b.unicode_len();
    if n != m {
        return false;
    }
    let mut i: usize = 0;
    while i < n
        invariant
            n == a@.len(),
            m == b@.len(),
            n == m,
            i <= n,
            forall|k: int| 0 <= k < i ==> fold_code(#[trigger] a@[k]) == fold_code(b@[k]),
        decreases n - i,
    {
        if fold_char(a.get_char(i)) != fold_char(b.get_char(i)) {
            return false;
        }
        i = i + 1;
    }
    true
}

/// `str::trim`.
pub fn trim(s: &str) -> (r: &str)
    ensures
        r@ == trim_ws(s@),
{
    let n = s.unicode_len();
    let mut a: usize = 0;
    while a < n && is_ws_char(s.get_char(a))
        invariant
            n == s@.len(),
            a <= n,
            first_non_ws(s@, 0) == first_non_ws(s@, a as int),
        decreases n - a,
    {
        a = a + 1;
    }
    let mut b: usize = n;
    while b > a && is_ws_char(s.get_char(b - 1))
        invariant
            n == s@.len(),
            a <= b <= n,
            a == first_non_ws(s@, 0),
            last_non_ws(s@, a as int, n as int) == last_non_ws(s@, a as int, b as int),
        decreases b,
    {
        b = b - 1;
    }
    s.substring_char(a, b)
}

/// `str::trim_end_matches` with a single character.
pub fn trim_end_char(s: &str, c: char) -> (r: &str)
    ensures
        r@ == s@.take(trailing_end(s@, c, s@.len() as int)),
{
    let n = s.unicode_len();
    let mut b: usize = n;
    while b > 0 && s.get_char(b - 1) == c
        invariant
            n == s@.len(),
            b <= n,
            trailing_end(s@, c, n as int) == trailing_end(s@, c, b as int),
        decreases b,
    {
        b = b - 1;
    }
    s.substring_char(0, b)
}

/// End of `s[..j]` once trailing copies of `c` are dropped.
pub open spec fn trailing_end(s: Seq<char>, c: char, j: int) -> int
    decreases j,
{
    if j <= 0 || j > s.len() || s[j - 1] != c {
        j
    } else {
        trailing_end(s, c, j - 1)
    }
}

/// Whether every character of `s` is an ASCII digit.
pub fn all_ascii_digits(s: &str) -> (r: bool)
    ensures
        r == all_digits(s@),
{
    let n = s.unicode_len();
    let mut i: usize = 0;
    while i < n
        invariant
            n == s@.len(),
            i <= n,
            forall|k: int| 0 <= k < i ==> is_ascii_digit(#[trigger] s@[k]),
        decreases n - i,
    {
        if !is_ascii_digit_char(s.get_char(i)) {
            return false;
        }
        i = i + 1;
    }
    true
}

/// `str::parse::<usize>` on a string of ASCII digits: `None` when the value
/// does not fit in `usize`.
pub fn parse_digits(s: &str) -> (r: Option<usize>)
    requires
        all_digits(s@),
    ensures
        match r {
            Some(v) => v == digits_value(s@),
            None => digits_value(s@) > usize::MAX,
        },
{
    let n = s.unicode_len();
    let mut acc: usize = 0;
    let mut i: usize = 0;
    while i < n
        invariant
            n == s@.len(),
            i <= n,
            all_digits(s@),
            acc == digits_value(s@.take(i as int)),
        decreases n - i,
    {
        let c = s.get_char(i);
        let d = c as u32 - 48;
        assert(s@.take(i + 1).drop_last() =~= s@.take(i as int));
        match acc.checked_mul(10) {
            Some(m) => match m.checked_add(d as usize) {
                Some(v) => {
                    acc = v;
                },
                None => {
                    proof {
                        lemma_digits_value_grows(s@, i as int + 1);
                    }
                    return None;
                },
            },
            None => {
                proof {
                    lemma_digits_value_grows(s@, i as int + 1);
                }
                return None;
            },
        }
        i = i + 1;
    }
    assert(s@.take(n as int) =~= s@);
    Some(acc)
}

/// A prefix of a numeral never writes more than the whole numeral.
proof fn lemma_digits_value_grows(s: Seq<char>, k: int)
    requires
        0 <= k <= s.len(),
        all_digits(s),
    ensures
        digits_value(s.take(k)) <= digits_value(s),
    decreases s.len() - k,
{
    if k < s.len() {
        lemma_digits_value_grows(s, k + 1);
        assert(s.take(k + 1).drop_last() =~= s.take(k));
    } else {
        assert(s.take(k) =~= s);
    }
}

fn digit_of(d: usize) -> (c: char)
    requires
        d < 10,
    ensures
        c == digit_char(d as int),
{
    if d == 0 { '0' }
    else if d == 1 { '1' }
    else if d == 2 { '2' }
    else if d == 3 { '3' }
    else if d == 4 { '4' }
    else if d == 5 { '5' }
    else if d == 6 { '6' }
    else if d == 7 { '7' }
    else if d == 8 { '8' }
    else { '9' }
}

/// Appends the decimal numeral of `n` to `s`.
pub fn push_decimal(s: &mut String, n: usize)
    ensures
        final(s)@ == old(s)@ + decimal(n as nat),
    decreases n,
{
    if n < 10 {
        push_char(s, digit_of(n));
        assert(decimal(n as nat) =~= seq![digit_char(n as int)]);
    } else {
        push_decimal(s, n / 10);
        push_char(s, digit_of(n % 10));
    }
}

/// The decimal numeral of `n`.
pub fn decimal_string(n: usize) -> (r: String)
    ensures
        r@ == decimal(n as nat),
{
    let mut s = String::new();
    push_decimal(&mut s, n);
    assert(s@ =~= decimal(n as nat));
    s
}

/// A digit character reads back as its digit.
pub proof fn lemma_digit_char(d: int)
    requires
        0 <= d < 10,
    ensures
        is_ascii_digit(digit_char(d)),
        digit_value(digit_char(d)) == d,
{
    assert('0' as u32 == 48 && '1' as u32 == 49 && '2' as u32 == 50 && '3' as u32 == 51 && '4' as u32
        == 52 && '5' as u32 == 53 && '6' as u32 == 54 && '7' as u32 == 55 && '8' as u32 == 56 && '9' as u32
        == 57);
}

/// The numeral of a number is a non-empty string of digits that reads back
/// as the number.
pub proof fn lemma_decimal_round_trip(n: nat)
    ensures
        decimal(n).len() >= 1,
        all_digits(decimal(n)),
        digits_value(decimal(n)) == n,
    decreases n,
{
    lemma_digit_char((n % 10) as int);
    if n < 10 {
        assert(decimal(n).drop_last() =~= Seq::<char>::empty());
        assert(digits_value(Seq::<char>::empty()) == 0);
        assert(decimal(n).last() == digit_char(n as int));
    } else {
        lemma_digit_char((n % 10) as int);
        lemma_decimal_round_trip(n / 10);
        let p = decimal(n / 10);
        let d = digit_char((n % 10) as int);
        assert(decimal(n).drop_last() =~= p);
        assert(decimal(n).last() == d);
        assert(digits_value(decimal(n)) == digits_value(p) * 10 + digit_value(d));
        assert(n == (n / 10) * 10 + n % 10);
        assert forall|i: int| 0 <= i < decimal(n).len() implies is_ascii_digit(
            #[trigger] decimal(n)[i],
        ) by {
            if i < p.len() {
                assert(decimal(n)[i] == p[i]);
            }
        }
    }
}


/// Lexicographic order of texts by code point, the order of `str`.
pub open spec fn text_lt(a: Seq<char>, b: Seq<char>) -> bool
    decreases a.len(),
{
    if a.len() == 0 {
        b.len() > 0
    } else if b.len() == 0 {
        false
    } else if a[0] != b[0] {
        (a[0] as u32) < (b[0] as u32)
    } else {
        text_lt(a.drop_first(), b.drop_first())
    }
}

/// Whether `a` comes before `b` in the order of `str`.
pub fn str_less(a: &str, b: &str) -> (r: bool)
    ensures
        r == text_lt(a@, b@),
{
    let n = a.unicode_len();
    let m = b.unicode_len();
    let mut i: usize = 0;
    assert(a@.skip(0) =~= a@ && b@.skip(0) =~= b@);
    while i < n && i < m
        invariant
            n == a@.len(),
            m == b@.len(),
            i <= n,
            i <= m,
            text_lt(a@, b@) == text_lt(a@.skip(i as int), b@.skip(i as int)),
        decreases n - i,
    {
        let x = a.get_char(i);
        let y = b.get_char(i);
        assert(a@.skip(i as int)[0] == x && b@.skip(i as int)[0] == y);
        if x != y {
            return (x as u32) < (y as u32);
        }
        assert(a@.skip(i as int).drop_first() =~= a@.skip(i + 1));
        assert(b@.skip(i as int).drop_first() =~= b@.skip(i + 1));
        i = i + 1;
    }
    if i == n {
        assert(a@.skip(i as int).len() == 0);
    } else {
        assert(b@.skip(i as int).len() == 0);
    }
    i == n && i < m
}

/// The order of texts is a strict total order.
pub proof fn lemma_text_lt_strict_total(a: Seq<char>, b: Seq<char>)
    ensures
        !(text_lt(a, b) && text_lt(b, a)),
        a != b ==> text_lt(a, b) || text_lt(b, a),
        !text_lt(a, a),
    decreases a.len(),
{
    if a.len() > 0 && b.len() > 0 && a[0] != b[0] {
        vstd::utf8::char_u32_cast(a[0], a[0] as u32);
        vstd::utf8::char_u32_cast(b[0], b[0] as u32);
        assert((a[0] as u32) != (b[0] as u32));
    }
    if a.len() > 0 && b.len() > 0 && a[0] == b[0] {
        lemma_text_lt_strict_total(a.drop_first(), b.drop_first());
        if a != b {
            assert(a.drop_first() != b.drop_first()) by {
                if a.drop_first() == b.drop_first() {
                    assert(a =~= seq![a[0]] + a.drop_first());
                    assert(b =~= seq![b[0]] + b.drop_first());
                }
            }
        }
    }
    if a.len() > 0 {
        lemma_text_lt_strict_total(a.drop_first(), a.drop_first());
    }
    if a.len() == 0 && b.len() == 0 {
        assert(a =~= b);
    }
}

} // verus!
