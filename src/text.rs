//! Character-level helpers on catalog strings, each proved against a spec
//! function over `Seq<char>`.
use vstd::prelude::*;
use vstd::string::*;

verus! {

/// What `str::to_lowercase` yields: the Unicode lower-case mapping of the
/// characters, which depends on the characters alone.
pub uninterp spec fn lower_of(s: Seq<char>) -> Seq<char>;

/// Relies on `str::to_lowercase`: its result depends on the characters alone.
#[verifier::external_body]
pub(crate) fn lowercase(s: &str) -> (r: String)
    ensures
        r@ == lower_of(s@),
{
    s.to_lowercase()
}

/// Relies on `String::push`: it appends one character.
#[verifier::external_body]
pub(crate) fn push_char(s: &mut String, c: char)
    ensures
        final(s)@ == old(s)@.push(c),
{
    s.push(c)
}

/// ASCII punctuation, as `char::is_ascii_punctuation` defines it.
pub open spec fn is_ascii_punct(c: char) -> bool {
    let u = c as u32;
    (33 <= u <= 47) || (58 <= u <= 64) || (91 <= u <= 96) || (123 <= u <= 126)
}

/// Unicode White_Space, the set that `char::is_whitespace` tests.
pub open spec fn is_white(c: char) -> bool {
    let u = c as u32;
    (9 <= u <= 13) || u == 32 || u == 0x85 || u == 0xA0 || u == 0x1680 || (0x2000 <= u
        <= 0x200A) || u == 0x2028 || u == 0x2029 || u == 0x202F || u == 0x205F || u == 0x3000
}

/// `s` with every non-overlapping occurrence of `p` removed, scanning from the left.
pub open spec fn strip_pattern(s: Seq<char>, p: Seq<char>) -> Seq<char>
    decreases s.len(),
{
    if s.len() == 0 || p.len() == 0 {
        s
    } else if p.len() <= s.len() && s.subrange(0, p.len() as int) == p {
        strip_pattern(s.subrange(p.len() as int, s.len() as int), p)
    } else {
        seq![s[0]] + strip_pattern(s.subrange(1, s.len() as int), p)
    }
}

/// `s` without `p` where `s` begins with `p`, else `s` itself.
pub open spec fn drop_prefix(s: Seq<char>, p: Seq<char>) -> Seq<char> {
    if p.len() <= s.len() && s.subrange(0, p.len() as int) == p {
        s.subrange(p.len() as int, s.len() as int)
    } else {
        s
    }
}

/// The characters of `s` before its first ASCII punctuation mark.
pub open spec fn before_punct(s: Seq<char>) -> Seq<char>
    decreases s.len(),
{
    if s.len() == 0 || is_ascii_punct(s[0]) {
        Seq::empty()
    } else {
        seq![s[0]] + before_punct(s.subrange(1, s.len() as int))
    }
}

/// The characters of `s` before its first occurrence of `c`.
pub open spec fn before_char(s: Seq<char>, c: char) -> Seq<char>
    decreases s.len(),
{
    if s.len() == 0 || s[0] == c {
        Seq::empty()
    } else {
        seq![s[0]] + before_char(s.subrange(1, s.len() as int), c)
    }
}

pub open spec fn trim_start(s: Seq<char>) -> Seq<char>
    decreases s.len(),
{
    if s.len() > 0 && is_white(s[0]) {
        trim_start(s.subrange(1, s.len() as int))
    } else {
        s
    }
}

pub open spec fn trim_end(s: Seq<char>) -> Seq<char>
    decreases s.len(),
{
    if s.len() > 0 && is_white(s.last()) {
        trim_end(s.drop_last())
    } else {
        s
    }
}

/// `s` without leading and trailing white space.
pub open spec fn trim(s: Seq<char>) -> Seq<char> {
    trim_end(trim_start(s))
}

/// Number of occurrences of `c` in `s`.
pub open spec fn count_char(s: Seq<char>, c: char) -> nat
    decreases s.len(),
{
    if s.len() == 0 {
        0
    } else {
        count_char(s.drop_last(), c) + if s.last() == c {
            1nat
        } else {
            0nat
        }
    }
}

/// Every character of `s` is white space (so `s` trims to nothing).
pub open spec fn is_blank(s: Seq<char>) -> bool {
    forall|i: int| 0 <= i < s.len() ==> is_white(#[trigger] s[i])
}

pub open spec fn is_digit(c: char) -> bool {
    '0' <= c <= '9'
}

pub open spec fn digit_value(c: char) -> nat {
    (c as u32 - '0' as u32) as nat
}

/// The value of a string of decimal digits.
pub open spec fn digits_value(s: Seq<char>) -> nat
    decreases s.len(),
{
    if s.len() == 0 {
        0
    } else {
        digits_value(s.drop_last()) * 10 + digit_value(s.last())
    }
}

/// `s` without one leading `+`, the sign that unsigned parsing accepts.
pub open spec fn unsigned_digits(s: Seq<char>) -> Seq<char> {
    if s.len() > 0 && s[0] == '+' {
        s.subrange(1, s.len() as int)
    } else {
        s
    }
}

/// What `s.parse::<u32>()` gives as `Ok`: one optional `+`, then at least one
/// digit, and a value that fits in 32 bits.
pub open spec fn parses_as_u32(s: Seq<char>) -> bool {
    let d = unsigned_digits(s);
    d.len() > 0 && all_digits(d) && digits_value(d) <= u32::MAX
}

/// A year string read as a number, 0 where it is not one.
pub open spec fn year_value(s: Seq<char>) -> nat {
    if parses_as_u32(s) {
        digits_value(unsigned_digits(s))
    } else {
        0
    }
}

/// The characters of a string, as a vector.
pub fn chars_of(s: &str) -> (r: Vec<char>)
    ensures
        r@ == s@,
{
    let n = s.unicode_len();
    let mut r: Vec<char> = Vec::new();
    let mut i: usize = 0;
    while i < n
        invariant
            n == s@.len(),
            i <= n,
            r@ == s@.subrange(0, i as int),
        decreases n - i,
    {
        r.push(s.get_char(i));
        i += 1;
        assert(r@ =~= s@.subrange(0, i as int));
    }
    assert(r@ =~= s@);
    r
}

/// A string holding the given characters.
pub fn string_of(v: &Vec<char>) -> (r: String)
    ensures
        r@ == v@,
{
    let mut r = String::new();
    let mut i: usize = 0;
    while i < v.len()
        invariant
            i <= v.len(),
            r@ == v@.subrange(0, i as int),
        decreases v.len() - i,
    {
        push_char(&mut r, v[i]);
        i += 1;
        assert(r@ =~= v@.subrange(0, i as int));
    }
    assert(r@ =~= v@);
    r
}

/// Whether `p` occurs in `s` at position `i`.
pub fn starts_at(s: &Vec<char>, p: &Vec<char>, i: usize) -> (r: bool)
    requires
        i <= s.len(),
    ensures
        r == (i + p.len() <= s.len() && s@.subrange(i as int, i + p.len()) == p@),
{
    if p.len() > s.len() - i {
        return false;
    }
    let mut j: usize = 0;
    while j < p.len()
        invariant
            j <= p.len(),
            i + p.len() <= s.len(),
            forall|k: int| 0 <= k < j ==> s@[i + k] == p@[k],
        decreases p.len() - j,
    {
        if s[i + j] != p[j] {
            assert(s@.subrange(i as int, i + p.len())[j as int] != p@[j as int]);
            return false;
        }
        j += 1;
    }
    assert(s@.subrange(i as int, i + p.len()) =~= p@);
    true
}

/// Whether two character vectors are equal.
pub fn same_chars(a: &Vec<char>, b: &Vec<char>) -> (r: bool)
    ensures
        r == (a@ == b@),
{
    if a.len() != b.len() {
        return false;
    }
    let r = starts_at(a, b, 0);
    assert(a@.subrange(0, b.len() as int) =~= a@);
    r
}

/// Whether `s` begins with `p`, as `str::starts_with` answers.
pub fn has_prefix(s: &str, p: &str) -> (r: bool)
    ensures
        r == (p@.len() <= s@.len() && s@.subrange(0, p@.len() as int) == p@),
{
    let sv = chars_of(s);
    let pv = chars_of(p);
    starts_at(&sv, &pv, 0)
}

/// Whether two strings hold the same characters.
pub fn str_equal(a: &str, b: &str) -> (r: bool)
    ensures
        r == (a@ == b@),
{
    let av = chars_of(a);
    let bv = chars_of(b);
    same_chars(&av, &bv)
}

/// `s` without `p` where `s` begins with `p`, else `s` itself.
pub fn strip_prefix(s: &Vec<char>, p: &Vec<char>) -> (r: Vec<char>)
    ensures
        r@ == drop_prefix(s@, p@),
{
    let starts = starts_at(s, p, 0);
    let from: usize = if starts {
        p.len()
    } else {
        0
    };
    let mut r: Vec<char> = Vec::new();
    let mut k: usize = from;
    while k < s.len()
        invariant
            from <= k <= s.len(),
            r@ == s@.subrange(from as int, k as int),
        decreases s.len() - k,
    {
        r.push(s[k]);
        k += 1;
        assert(r@ =~= s@.subrange(from as int, k as int));
    }
    assert(!starts ==> s@.subrange(0, s.len() as int) =~= s@);
    r
}

/// `s` with every non-overlapping occurrence of `p` removed.
pub fn strip_all(s: &Vec<char>, p: &Vec<char>) -> (r: Vec<char>)
    requires
        p.len() > 0,
    ensures
        r@ == strip_pattern(s@, p@),
{
    let mut r: Vec<char> = Vec::new();
    let mut i: usize = 0;
    let n = s.len();
    assert(s@.subrange(0, n as int) =~= s@);
    assert(r@ + strip_pattern(s@, p@) =~= strip_pattern(s@, p@));
    while i < n
        invariant
            n == s.len(),
            i <= n,
            p.len() > 0,
            strip_pattern(s@, p@) == r@ + strip_pattern(s@.subrange(i as int, n as int), p@),
        decreases n - i,
    {
        let ghost rest = s@.subrange(i as int, n as int);
        if starts_at(s, p, i) {
            assert(rest.subrange(0, p.len() as int) =~= s@.subrange(i as int, i + p.len()));
            assert(rest.subrange(p.len() as int, rest.len() as int) =~= s@.subrange(
                i + p.len(),
                n as int,
            ));
            i += p.len();
        } else {
            if p.len() <= n - i {
                assert(rest.subrange(0, p.len() as int) =~= s@.subrange(i as int, i + p.len()));
            }
            assert(rest.subrange(1, rest.len() as int) =~= s@.subrange(i + 1, n as int));
            let ghost before = r@;
            r.push(s[i]);
            assert(r@ + strip_pattern(rest.subrange(1, rest.len() as int), p@) =~= before
                + (seq![rest[0]] + strip_pattern(rest.subrange(1, rest.len() as int), p@)));
            i += 1;
        }
    }
    assert(r@ + strip_pattern(s@.subrange(n as int, n as int), p@) =~= r@);
    r
}

/// The characters of `s` before its first ASCII punctuation mark.
pub fn cut_at_punct(s: &Vec<char>) -> (r: Vec<char>)
    ensures
        r@ == before_punct(s@),
{
    let mut r: Vec<char> = Vec::new();
    let mut i: usize = 0;
    let n = s.len();
    assert(s@.subrange(0, n as int) =~= s@);
    assert(r@ + before_punct(s@) =~= before_punct(s@));
    while i < n && !is_punct(s[i])
        invariant
            n == s.len(),
            i <= n,
            before_punct(s@) == r@ + before_punct(s@.subrange(i as int, n as int)),
        decreases n - i,
    {
        let ghost rest = s@.subrange(i as int, n as int);
        assert(rest.subrange(1, rest.len() as int) =~= s@.subrange(i + 1, n as int));
        let ghost before = r@;
        r.push(s[i]);
        assert(r@ + before_punct(rest.subrange(1, rest.len() as int)) =~= before + (seq![rest[0]]
            + before_punct(rest.subrange(1, rest.len() as int))));
        i += 1;
    }
    assert(r@ + before_punct(s@.subrange(i as int, n as int)) =~= r@);
    r
}

/// The characters of `s` before its first `c`.
pub fn cut_at_char(s: &Vec<char>, c: char) -> (r: Vec<char>)
    ensures
        r@ == before_char(s@, c),
{
    let mut r: Vec<char> = Vec::new();
    let mut i: usize = 0;
    let n = s.len();
    assert(s@.subrange(0, n as int) =~= s@);
    assert(r@ + before_char(s@, c) =~= before_char(s@, c));
    while i < n && s[i] != c
        invariant
            n == s.len(),
            i <= n,
            before_char(s@, c) == r@ + before_char(s@.subrange(i as int, n as int), c),
        decreases n - i,
    {
        let ghost rest = s@.subrange(i as int, n as int);
        assert(rest.subrange(1, rest.len() as int) =~= s@.subrange(i + 1, n as int));
        let ghost before = r@;
        r.push(s[i]);
        assert(r@ + before_char(rest.subrange(1, rest.len() as int), c) =~= before + (seq![rest[0]]
            + before_char(rest.subrange(1, rest.len() as int), c)));
        i += 1;
    }
    assert(r@ + before_char(s@.subrange(i as int, n as int), c) =~= r@);
    r
}

pub fn is_punct(c: char) -> (r: bool)
    ensures
        r == is_ascii_punct(c),
{
    let u = c as u32;
    (33 <= u && u <= 47) || (58 <= u && u <= 64) || (91 <= u && u <= 96) || (123 <= u && u
        <= 126)
}

pub fn is_space(c: char) -> (r: bool)
    ensures
        r == is_white(c),
{
    let u = c as u32;
    (9 <= u && u <= 13) || u == 32 || u == 0x85 || u == 0xA0 || u == 0x1680 || (0x2000 <= u && u
        <= 0x200A) || u == 0x2028 || u == 0x2029 || u == 0x202F || u == 0x205F || u == 0x3000
}

/// `s` without leading and trailing white space.
pub fn trim_chars(s: &Vec<char>) -> (r: Vec<char>)
    ensures
        r@ == trim(s@),
{
    let n = s.len();
    let mut lo: usize = 0;
    assert(s@.subrange(0, n as int) =~= s@);
    while lo < n && is_space(s[lo])
        invariant
            n == s.len(),
            lo <= n,
            trim_start(s@) == trim_start(s@.subrange(lo as int, n as int)),
        decreases n - lo,
    {
        let ghost rest = s@.subrange(lo as int, n as int);
        assert(rest.subrange(1, rest.len() as int) =~= s@.subrange(lo + 1, n as int));
        lo += 1;
    }
    let mut hi: usize = n;
    while hi > lo && is_space(s[hi - 1])
        invariant
            n == s.len(),
            lo <= hi <= n,
            trim_start(s@) == s@.subrange(lo as int, n as int),
            trim_end(s@.subrange(lo as int, n as int)) == trim_end(
                s@.subrange(lo as int, hi as int),
            ),
        decreases hi - lo,
    {
        assert(s@.subrange(lo as int, hi as int).drop_last() =~= s@.subrange(
            lo as int,
            hi - 1,
        ));
        hi -= 1;
    }
    let mut r: Vec<char> = Vec::new();
    let mut k: usize = lo;
    while k < hi
        invariant
            lo <= k <= hi <= n,
            n == s.len(),
            r@ == s@.subrange(lo as int, k as int),
        decreases hi - k,
    {
        r.push(s[k]);
        k += 1;
        assert(r@ =~= s@.subrange(lo as int, k as int));
    }
    r
}

/// Whether every character of `s` is white space.
pub fn all_space(s: &str) -> (r: bool)
    ensures
        r == is_blank(s@),
{
    let v = chars_of(s);
    let mut i: usize = 0;
    while i < v.len()
        invariant
            i <= v.len(),
            v@ == s@,
            forall|k: int| 0 <= k < i ==> is_white(#[trigger] v@[k]),
        decreases v.len() - i,
    {
        if !is_space(v[i]) {
            return false;
        }
        i += 1;
    }
    true
}

/// Number of occurrences of `c` in `s`.
pub fn char_count(s: &str, c: char) -> (r: usize)
    ensures
        r == count_char(s@, c),
{
    let v = chars_of(s);
    let mut i: usize = 0;
    let mut r: usize = 0;
    while i < v.len()
        invariant
            i <= v.len(),
            v@ == s@,
            r == count_char(v@.subrange(0, i as int), c),
            r <= i,
        decreases v.len() - i,
    {
        assert(v@.subrange(0, i + 1).drop_last() =~= v@.subrange(0, i as int));
        if v[i] == c {
            r += 1;
        }
        i += 1;
    }
    assert(v@.subrange(0, i as int) =~= v@);
    r
}

/// Whether `v[start..]` is a non-empty run of digits whose value is at most
/// `limit`, and that value.
pub fn digits_within(v: &Vec<char>, start: usize, limit: u64) -> (r: (bool, u64))
    requires
        start <= v.len(),
    ensures
        r.0 == (start < v.len() && all_digits(v@.subrange(start as int, v.len() as int))
            && digits_value(v@.subrange(start as int, v.len() as int)) <= limit),
        r.0 ==> r.1 == digits_value(v@.subrange(start as int, v.len() as int)),
{
    let ghost d = v@.subrange(start as int, v.len() as int);
    if start == v.len() {
        return (false, 0);
    }
    let mut value: u64 = 0;
    let mut over = false;
    let mut i: usize = start;
    while i < v.len()
        invariant
            start <= i <= v.len(),
            d == v@.subrange(start as int, v.len() as int),
            forall|k: int| 0 <= k < i - start ==> is_digit(#[trigger] d[k]),
            !over ==> value == digits_value(d.subrange(0, i - start)) && value <= limit,
            over ==> digits_value(d.subrange(0, i - start)) > limit,
        decreases v.len() - i,
    {
        let c = v[i];
        if !('0' <= c && c <= '9') {
            assert(d[i - start] == c);
            assert(!is_digit(d[i - start]));
            return (false, 0);
        }
        let ghost pre = d.subrange(0, i - start);
        assert(d.subrange(0, i + 1 - start).drop_last() =~= pre);
        assert(d.subrange(0, i + 1 - start).last() == c);
        let dv = (c as u32 - '0' as u32) as u64;
        if !over {
            if dv > limit {
                assert(digits_value(pre) * 10 + digit_value(c) > limit) by (nonlinear_arith)
                    requires
                        dv == digit_value(c),
                        dv > limit,
                        digits_value(pre) >= 0,
                ;
                over = true;
            } else if value > (limit - dv) / 10 {
                assert(digits_value(pre) * 10 + digit_value(c) > limit) by (nonlinear_arith)
                    requires
                        value == digits_value(pre),
                        value > (limit - dv) / 10,
                        dv == digit_value(c),
                        dv <= limit,
                ;
                over = true;
            } else {
                assert(value * 10 + dv <= limit) by (nonlinear_arith)
                    requires
                        value <= (limit - dv) / 10,
                        dv <= limit,
                ;
                value = value * 10 + dv;
            }
        } else {
            assert(digits_value(pre) * 10 + digit_value(c) >= digits_value(pre)) by (
            nonlinear_arith);
        }
        i += 1;
    }
    assert(d.subrange(0, i - start) =~= d);
    (!over, if over {
        0
    } else {
        value
    })
}

/// A year string read as a number, 0 where it does not parse as a `u32`.
pub fn parse_year(s: &str) -> (r: u32)
    ensures
        r == year_value(s@),
{
    let v = chars_of(s);
    let start: usize = if v.len() > 0 && v[0] == '+' {
        1
    } else {
        0
    };
    assert(unsigned_digits(s@) =~= v@.subrange(start as int, v.len() as int));
    let (ok, value) = digits_within(&v, start, 0xFFFF_FFFF);
    if ok {
        value as u32
    } else {
        0
    }
}

/// `s` without one leading sign.
pub open spec fn signed_digits(s: Seq<char>) -> Seq<char> {
    if s.len() > 0 && (s[0] == '-' || s[0] == '+') {
        s.subrange(1, s.len() as int)
    } else {
        s
    }
}

/// Every character of `d` is a decimal digit.
pub open spec fn all_digits(d: Seq<char>) -> bool {
    forall|i: int| 0 <= i < d.len() ==> is_digit(#[trigger] d[i])
}

/// What `s.parse::<i32>()` gives as `Ok`: an optional sign, then at least one
/// digit, and a value within the 32-bit signed range.
pub open spec fn parses_as_i32(s: Seq<char>) -> bool {
    let neg = s.len() > 0 && s[0] == '-';
    let d = signed_digits(s);
    d.len() > 0 && all_digits(d) && digits_value(d) <= if neg {
        0x8000_0000nat
    } else {
        0x7FFF_FFFFnat
    }
}

/// The value of a string that parses as an `i32`.
pub open spec fn i32_value(s: Seq<char>) -> int {
    if s.len() > 0 && s[0] == '-' {
        -digits_value(s.subrange(1, s.len() as int))
    } else if s.len() > 0 && s[0] == '+' {
        digits_value(s.subrange(1, s.len() as int)) as int
    } else {
        digits_value(s) as int
    }
}

/// `s.parse::<i32>()`, as an option.
pub fn parse_i32(s: &Vec<char>) -> (r: Option<i32>)
    ensures
        r is Some <==> parses_as_i32(s@),
        r is Some ==> r->0 == i32_value(s@),
{
    let signed = s.len() > 0 && (s[0] == '-' || s[0] == '+');
    let neg = s.len() > 0 && s[0] == '-';
    let start: usize = if signed {
        1
    } else {
        0
    };
    let limit: u64 = if neg {
        0x8000_0000
    } else {
        0x7FFF_FFFF
    };
    assert(signed_digits(s@) =~= s@.subrange(start as int, s.len() as int));
    let (ok, value) = digits_within(s, start, limit);
    if !ok {
        return None;
    }
    if neg {
        Some((0 - (value as i64)) as i32)
    } else {
        Some(value as i32)
    }
}

/// The last word of `s` that ends where the non-white text of `s` ends.
pub open spec fn trailing_word(s: Seq<char>) -> Seq<char>
    decreases s.len(),
{
    if s.len() == 0 || is_white(s.last()) {
        Seq::empty()
    } else {
        trailing_word(s.drop_last()).push(s.last())
    }
}

/// The last white-space separated word of `s`, if it has one, as
/// `split_whitespace().last()` gives it.
pub open spec fn last_word(s: Seq<char>) -> Option<Seq<char>> {
    let t = trim_end(s);
    if t.len() == 0 {
        None
    } else {
        Some(trailing_word(t))
    }
}

/// The last white-space separated word of `s`, if it has one.
pub fn last_word_of(s: &str) -> (r: Option<Vec<char>>)
    ensures
        match r {
            Some(w) => last_word(s@) == Some(w@),
            None => last_word(s@) is None,
        },
{
    let v = chars_of(s);
    let n = v.len();
    let mut hi: usize = n;
    assert(v@.subrange(0, n as int) =~= v@);
    while hi > 0 && is_space(v[hi - 1])
        invariant
            n == v.len(),
            hi <= n,
            v@ == s@,
            trim_end(s@) == trim_end(v@.subrange(0, hi as int)),
        decreases hi,
    {
        assert(v@.subrange(0, hi as int).drop_last() =~= v@.subrange(0, hi - 1));
        hi -= 1;
    }
    if hi == 0 {
        return None;
    }
    let ghost t = v@.subrange(0, hi as int);
    assert(trim_end(s@) == t);
    let mut lo: usize = hi;
    assert(t.subrange(lo as int, hi as int) =~= Seq::<char>::empty());
    while lo > 0 && !is_space(v[lo - 1])
        invariant
            lo <= hi <= n,
            n == v.len(),
            t == v@.subrange(0, hi as int),
            trailing_word(t) == trailing_word(v@.subrange(0, lo as int)) + v@.subrange(
                lo as int,
                hi as int,
            ),
        decreases lo,
    {
        let ghost pre = v@.subrange(0, lo as int);
        assert(pre.drop_last() =~= v@.subrange(0, lo - 1));
        assert(trailing_word(pre) == trailing_word(v@.subrange(0, lo - 1)).push(v@[lo - 1]));
        assert(trailing_word(v@.subrange(0, lo - 1)).push(v@[lo - 1]) + v@.subrange(
            lo as int,
            hi as int,
        ) =~= trailing_word(v@.subrange(0, lo - 1)) + v@.subrange(lo - 1, hi as int));
        lo -= 1;
    }
    assert(trailing_word(v@.subrange(0, lo as int)) =~= Seq::<char>::empty());
    let mut w: Vec<char> = Vec::new();
    let mut k: usize = lo;
    while k < hi
        invariant
            lo <= k <= hi <= n,
            n == v.len(),
            w@ == v@.subrange(lo as int, k as int),
        decreases hi - k,
    {
        w.push(v[k]);
        k += 1;
        assert(w@ =~= v@.subrange(lo as int, k as int));
    }
    assert(Seq::<char>::empty() + w@ =~= w@);
    Some(w)
}

} // verus!
