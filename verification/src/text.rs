//! Character-level text helpers: whitespace trimming, decimal notation,
//! UTF-8 widths and conversions between strings and character vectors.
use vstd::prelude::*;
use vstd::string::*;

verus! {

/// Whether `c` has the Unicode `White_Space` property.
pub open spec fn is_ws(c: char) -> bool {
    ||| ('\u{9}' <= c && c <= '\u{d}')
    ||| c == ' '
    ||| c == '\u{85}'
    ||| c == '\u{a0}'
    ||| c == '\u{1680}'
    ||| ('\u{2000}' <= c && c <= '\u{200a}')
    ||| c == '\u{2028}'
    ||| c == '\u{2029}'
    ||| c == '\u{202f}'
    ||| c == '\u{205f}'
    ||| c == '\u{3000}'
}

/// `s` without its leading whitespace.
pub open spec fn trim_start(s: Seq<char>) -> Seq<char>
    decreases s.len(),
{
    if s.len() > 0 && is_ws(s[0]) {
        trim_start(s.drop_first())
    } else {
        s
    }
}

/// `s` without its trailing whitespace.
pub open spec fn trim_end(s: Seq<char>) -> Seq<char>
    decreases s.len(),
{
    if s.len() > 0 && is_ws(s.last()) {
        trim_end(s.drop_last())
    } else {
        s
    }
}

/// `s` without leading and trailing whitespace.
pub open spec fn trim(s: Seq<char>) -> Seq<char> {
    trim_end(trim_start(s))
}

pub open spec fn is_digit(c: char) -> bool {
    '0' <= c && c <= '9'
}

pub open spec fn digit_value(c: char) -> nat {
    ((c as u32) - ('0' as u32)) as nat
}

/// The ASCII digit that stands for `d` (for `d < 10`).
pub open spec fn digit_char(d: nat) -> char {
    if d == 0 {
        '0'
    } else if d == 1 {
        '1'
    } else if d == 2 {
        '2'
    } else if d == 3 {
        '3'
    } else if d == 4 {
        '4'
    } else if d == 5 {
        '5'
    } else if d == 6 {
        '6'
    } else if d == 7 {
        '7'
    } else if d == 8 {
        '8'
    } else {
        '9'
    }
}

/// The characters of the decimal notation of `n`, without sign or leading zeros.
pub open spec fn decimal(n: nat) -> Seq<char>
    decreases n,
{
    if n < 10 {
        seq![digit_char(n)]
    } else {
        decimal(n / 10).push(digit_char(n % 10))
    }
}

/// Number of bytes of the UTF-8 encoding of `c`.
pub open spec fn utf8_width(c: char) -> nat {
    if (c as u32) < 0x80 {
        1
    } else if (c as u32) < 0x800 {
        2
    } else if (c as u32) < 0x10000 {
        3
    } else {
        4
    }
}

/// Number of bytes of the UTF-8 encoding of `s`.
pub open spec fn utf8_len(s: Seq<char>) -> nat
    decreases s.len(),
{
    if s.len() == 0 {
        0
    } else {
        utf8_len(s.drop_last()) + utf8_width(s.last())
    }
}

/// The number of characters of `s` whose encoding takes exactly the first `b` bytes,
/// if `b` falls on a character boundary of `s`.
pub open spec fn char_index_at_byte(s: Seq<char>, b: int) -> Option<int>
    decreases s.len(),
{
    if b == utf8_len(s) {
        Some(s.len() as int)
    } else if s.len() == 0 {
        None
    } else {
        char_index_at_byte(s.drop_last(), b)
    }
}

pub proof fn lemma_utf8_len_mono(s: Seq<char>, j: int)
    requires
        0 <= j <= s.len(),
    ensures
        utf8_len(s.subrange(0, j)) <= utf8_len(s),
        j < s.len() ==> utf8_len(s.subrange(0, j)) < utf8_len(s),
        utf8_len(s) >= s.len(),
    decreases s.len(),
{
    if s.len() > 0 {
        if j < s.len() {
            assert(s.drop_last().subrange(0, j) =~= s.subrange(0, j));
            lemma_utf8_len_mono(s.drop_last(), j);
        } else {
            assert(s.subrange(0, j) =~= s);
            lemma_utf8_len_mono(s.drop_last(), j - 1);
        }
    }
}

/// std's `String::push`: claims that the string gains `c` at its end.
#[verifier::external_body]
pub fn push_char(s: &mut String, c: char)
    ensures
        final(s)@ == old(s)@.push(c),
{
    s.push(c);
}

/// The characters of `s`, in order.
pub fn chars_of(s: &str) -> (r: Vec<char>)
    ensures
        r@ == s@,
{
    let n = s.unicode_len();
    let mut r: Vec<char> = Vec::new();
    let mut i: usize = 0;
    while i < n
        invariant
            n == s@.len(),
            i <= n,
            r@ == s@.subrange(0, i as int),
        decreases n - i,
    {
        r.push(s.get_char(i));
        i = i + 1;
    }
    assert(r@ =~= s@);
    r
}

/// A string made of `v[from..to]`.
pub fn string_of_range(v: &Vec<char>, from: usize, to: usize) -> (r: String)
    requires
        from <= to <= v.len(),
    ensures
        r@ == v@.subrange(from as int, to as int),
{
    let mut r = String::new();
    let mut i = from;
    while i < to
        invariant
            from <= i <= to <= v.len(),
            r@ == v@.subrange(from as int, i as int),
        decreases to - i,
    {
        push_char(&mut r, v[i]);
        assert(r@ =~= v@.subrange(from as int, i + 1));
        i = i + 1;
    }
    r
}

/// A string made of the characters of `v`.
pub fn string_of(v: &Vec<char>) -> (r: String)
    ensures
        r@ == v@,
{
    let r = string_of_range(v, 0, v.len());
    assert(v@.subrange(0, v@.len() as int) =~= v@);
    r
}

/// Appends the characters of a string slice.
pub fn push_str(s: &mut String, t: &str)
    ensures
        final(s)@ == old(s)@ + t@,
{
    s.append(t);
}

/// A fresh copy of `t`.
pub fn string_from(t: &str) -> (r: String)
    ensures
        r@ == t@,
{
    let mut r = String::new();
    r.append(t);
    assert(r@ =~= t@);
    r
}

pub fn digit(d: u32) -> (c: char)
    requires
        d < 10,
    ensures
        c == digit_char(d as nat),
{
    if d == 0 {
        '0'
    } else if d == 1 {
        '1'
    } else if d == 2 {
        '2'
    } else if d == 3 {
        '3'
    } else if d == 4 {
        '4'
    } else if d == 5 {
        '5'
    } else if d == 6 {
        '6'
    } else if d == 7 {
        '7'
    } else if d == 8 {
        '8'
    } else {
        '9'
    }
}

/// Appends the decimal notation of `n`.
pub fn push_decimal(s: &mut String, n: u64)
    ensures
        final(s)@ == old(s)@ + decimal(n as nat),
    decreases n,
{
    if n >= 10 {
        push_decimal(s, n / 10);
    }
    let d = digit((n % 10) as u32);
    push_char(s, d);
    proof {
        if n >= 10 {
            assert(decimal(n as nat) == decimal((n / 10) as nat).push(digit_char((n % 10) as nat)));
        } else {
            assert(decimal(n as nat) == seq![digit_char(n as nat)]);
        }
    }
    assert(final(s)@ =~= old(s)@ + decimal(n as nat));
}

pub fn is_whitespace(c: char) -> (r: bool)
    ensures
        r == is_ws(c),
{
    ('\u{9}' <= c && c <= '\u{d}') || c == ' ' || c == '\u{85}' || c == '\u{a0}' || c
        == '\u{1680}' || ('\u{2000}' <= c && c <= '\u{200a}') || c == '\u{2028}' || c
        == '\u{2029}' || c == '\u{202f}' || c == '\u{205f}' || c == '\u{3000}'
}

pub proof fn lemma_trim_start_range(s: Seq<char>)
    ensures
        exists|k: int|
            0 <= k <= s.len() && trim_start(s) == s.subrange(k, s.len() as int) && (forall|j: int|
                0 <= j < k ==> is_ws(#[trigger] s[j])) && (k < s.len() ==> !is_ws(s[k])),
    decreases s.len(),
{
    if s.len() > 0 && is_ws(s[0]) {
        lemma_trim_start_range(s.drop_first());
        let k = choose|k: int|
            0 <= k <= s.drop_first().len() && trim_start(s.drop_first()) == s.drop_first().subrange(
                k,
                s.drop_first().len() as int,
            ) && (forall|j: int| 0 <= j < k ==> is_ws(#[trigger] s.drop_first()[j])) && (k
                < s.drop_first().len() ==> !is_ws(s.drop_first()[k]));
        assert(s.drop_first().subrange(k, s.drop_first().len() as int) =~= s.subrange(
            k + 1,
            s.len() as int,
        ));
        assert forall|j: int| 0 <= j < k + 1 implies is_ws(#[trigger] s[j]) by {
            if j > 0 {
                assert(s[j] == s.drop_first()[j - 1]);
            }
        }
        assert(k + 1 < s.len() ==> s[k + 1] == s.drop_first()[k]);
    } else {
        assert(s.subrange(0, s.len() as int) =~= s);
    }
}

pub proof fn lemma_trim_end_range(s: Seq<char>)
    ensures
        exists|k: int|
            0 <= k <= s.len() && trim_end(s) == s.subrange(0, k) && (forall|j: int|
                k <= j < s.len() ==> is_ws(#[trigger] s[j])) && (k > 0 ==> !is_ws(s[k - 1])),
    decreases s.len(),
{
    if s.len() > 0 && is_ws(s.last()) {
        lemma_trim_end_range(s.drop_last());
        let k = choose|k: int|
            0 <= k <= s.drop_last().len() && trim_end(s.drop_last()) == s.drop_last().subrange(0, k)
                && (forall|j: int| k <= j < s.drop_last().len() ==> is_ws(#[trigger] s.drop_last()[j]))
                && (k > 0 ==> !is_ws(s.drop_last()[k - 1]));
        assert(s.drop_last().subrange(0, k) =~= s.subrange(0, k));
        assert forall|j: int| k <= j < s.len() implies is_ws(#[trigger] s[j]) by {
            if j < s.len() - 1 {
                assert(s[j] == s.drop_last()[j]);
            }
        }
        assert(k > 0 ==> s[k - 1] == s.drop_last()[k - 1]);
    } else {
        assert(s.subrange(0, s.len() as int) =~= s);
    }
}

/// The bounds `(a, b)` such that `trim(v@) == v@[a..b]`.
pub fn trim_bounds(v: &Vec<char>, from: usize, to: usize) -> (r: (usize, usize))
    requires
        from <= to <= v.len(),
    ensures
        from <= r.0 <= r.1 <= to,
        trim(v@.subrange(from as int, to as int)) == v@.subrange(r.0 as int, r.1 as int),
{
    let ghost s = v@.subrange(from as int, to as int);
    let mut a = from;
    while a < to && is_whitespace(v[a])
        invariant
            from <= a <= to <= v.len(),
            forall|j: int| from <= j < a ==> is_ws(#[trigger] v@[j]),
        decreases to - a,
    {
        a = a + 1;
    }
    let mut b = to;
    while b > a && is_whitespace(v[b - 1])
        invariant
            from <= a <= b <= to <= v.len(),
            forall|j: int| b <= j < to ==> is_ws(#[trigger] v@[j]),
        decreases b,
    {
        b = b - 1;
    }
    proof {
        lemma_trim_start_range(s);
        let k = choose|k: int|
            0 <= k <= s.len() && trim_start(s) == s.subrange(k, s.len() as int) && (forall|j: int|
                0 <= j < k ==> is_ws(#[trigger] s[j])) && (k < s.len() ==> !is_ws(s[k]));
        // k == a - from
        if k < a - from {
            assert(is_ws(v@[from + k]));
            assert(s[k] == v@[from + k]);
        }
        if k > a - from {
            assert(is_ws(s[a - from]));
            assert(s[a - from] == v@[a as int]);
        }
        assert(k == a - from);
        let t = trim_start(s);
        assert(t =~= v@.subrange(a as int, to as int));
        lemma_trim_end_range(t);
        let m = choose|m: int|
            0 <= m <= t.len() && trim_end(t) == t.subrange(0, m) && (forall|j: int|
                m <= j < t.len() ==> is_ws(#[trigger] t[j])) && (m > 0 ==> !is_ws(t[m - 1]));
        if m < b - a {
            assert(t[b - a - 1] == v@[b - 1]);
            assert(is_ws(t[b - a - 1]));
        }
        if m > b - a {
            assert(t[m - 1] == v@[a + m - 1]);
            assert(is_ws(v@[a + m - 1]));
        }
        assert(m == b - a);
        assert(t.subrange(0, m) =~= v@.subrange(a as int, b as int));
    }
    (a, b)
}

/// `p` is a prefix of `s`.
pub open spec fn is_prefix(p: Seq<char>, s: Seq<char>) -> bool {
    p.len() <= s.len() && s.subrange(0, p.len() as int) == p
}

/// The first index below `n` at which `hit` holds.
pub open spec fn first_hit(hit: spec_fn(int) -> bool, n: int) -> Option<int>
    decreases n,
{
    if n <= 0 {
        None
    } else {
        match first_hit(hit, n - 1) {
            Some(i) => Some(i),
            None => if hit(n - 1) {
                Some(n - 1)
            } else {
                None
            },
        }
    }
}

pub proof fn lemma_first_hit(hit: spec_fn(int) -> bool, n: int)
    ensures
        match first_hit(hit, n) {
            Some(i) => 0 <= i < n && hit(i) && forall|j: int| 0 <= j < i ==> !#[trigger] hit(j),
            None => forall|j: int| 0 <= j < n ==> !#[trigger] hit(j),
        },
    decreases n,
{
    if n > 0 {
        lemma_first_hit(hit, n - 1);
    }
}

pub proof fn lemma_first_hit_unique(hit: spec_fn(int) -> bool, n: int, i: int)
    requires
        0 <= i < n,
        hit(i),
        forall|j: int| 0 <= j < i ==> !#[trigger] hit(j),
    ensures
        first_hit(hit, n) == Some(i),
{
    lemma_first_hit(hit, n);
}

/// The position of the first `c` in `s`.
pub open spec fn first_index_of(s: Seq<char>, c: char) -> Option<int>
    decreases s.len(),
{
    if s.len() == 0 {
        None
    } else {
        match first_index_of(s.drop_last(), c) {
            Some(i) => Some(i),
            None => if s.last() == c {
                Some(s.len() - 1)
            } else {
                None
            },
        }
    }
}

pub proof fn lemma_first_index_of(s: Seq<char>, c: char)
    ensures
        match first_index_of(s, c) {
            Some(p) => 0 <= p < s.len() && s[p] == c && forall|j: int| 0 <= j < p ==> s[j] != c,
            None => forall|j: int| 0 <= j < s.len() ==> s[j] != c,
        },
    decreases s.len(),
{
    if s.len() > 0 {
        lemma_first_index_of(s.drop_last(), c);
        assert forall|j: int| 0 <= j < s.len() - 1 implies s[j] == s.drop_last()[j] by {}
    }
}

/// The position (counted in `v`) of the first `c` in `v[from..to]`, if any.
pub fn find_char(v: &Vec<char>, from: usize, to: usize, c: char) -> (r: Option<usize>)
    requires
        from <= to <= v.len(),
    ensures
        match first_index_of(v@.subrange(from as int, to as int), c) {
            Some(p) => r == Some((from + p) as usize),
            None => r is None,
        },
{
    let ghost s = v@.subrange(from as int, to as int);
    proof {
        lemma_first_index_of(s, c);
    }
    let mut i = from;
    while i < to
        invariant
            from <= i <= to <= v.len(),
            s == v@.subrange(from as int, to as int),
            forall|j: int| from <= j < i ==> v@[j] != c,
            match first_index_of(s, c) {
                Some(p) => 0 <= p < s.len() && s[p] == c && forall|j: int| 0 <= j < p ==> s[j] != c,
                None => forall|j: int| 0 <= j < s.len() ==> s[j] != c,
            },
        decreases to - i,
    {
        if v[i] == c {
            proof {
                assert(s[i - from] == c);
                if first_index_of(s, c) is Some {
                    let p = first_index_of(s, c)->0;
                    if p < i - from {
                        assert(v@[from + p] == s[p]);
                    }
                    if p > i - from {
                        assert(s[i - from] != c);
                    }
                }
            }
            return Some(i);
        }
        i = i + 1;
    }
    proof {
        if first_index_of(s, c) is Some {
            let p = first_index_of(s, c)->0;
            assert(v@[from + p] == s[p]);
        }
    }
    None
}

/// The value of a run of decimal digits.
pub open spec fn digits_value(s: Seq<char>) -> nat
    decreases s.len(),
{
    if s.len() == 0 {
        0
    } else {
        digits_value(s.drop_last()) * 10 + digit_value(s.last())
    }
}

pub open spec fn all_digits(s: Seq<char>) -> bool {
    s.len() > 0 && forall|i: int| 0 <= i < s.len() ==> is_digit(#[trigger] s[i])
}

/// What std's `u32::from_str` yields: an optional `+` followed by at least one
/// ASCII digit, with a value that fits in `u32`.
pub open spec fn parse_u32_spec(s: Seq<char>) -> Option<u32> {
    let d = if s.len() > 0 && s[0] == '+' {
        s.drop_first()
    } else {
        s
    };
    if all_digits(d) && digits_value(d) <= u32::MAX {
        Some(digits_value(d) as u32)
    } else {
        None
    }
}

/// `v[from..to]` read as a `u32` as std's `u32::from_str` reads it.
pub fn parse_u32_range(v: &Vec<char>, from: usize, to: usize) -> (r: Option<u32>)
    requires
        from <= to <= v.len(),
    ensures
        r == parse_u32_spec(v@.subrange(from as int, to as int)),
{
    let ghost s = v@.subrange(from as int, to as int);
    let mut a = from;
    if a < to && v[a] == '+' {
        a = a + 1;
    }
    let ghost d = v@.subrange(a as int, to as int);
    proof {
        if s.len() > 0 && s[0] == '+' {
            assert(d =~= s.drop_first());
        } else {
            assert(d =~= s);
        }
    }
    if a == to {
        assert(d.len() == 0);
        return None;
    }
    let mut value: u64 = 0;
    let mut over = false;
    let mut i = a;
    while i < to
        invariant
            from <= a < to <= v.len(),
            a <= i <= to,
            d == v@.subrange(a as int, to as int),
            s == v@.subrange(from as int, to as int),
            d == (if s.len() > 0 && s[0] == '+' { s.drop_first() } else { s }),
            forall|j: int| a <= j < i ==> is_digit(#[trigger] v@[j]),
            !over ==> value == digits_value(v@.subrange(a as int, i as int)),
            over ==> digits_value(v@.subrange(a as int, i as int)) > u32::MAX,
            value <= u32::MAX,
        decreases to - i,
    {
        let c = v[i];
        if !('0' <= c && c <= '9') {
            proof {
                assert(d[i - a] == c);
                assert(!all_digits(d));
            }
            return None;
        }
        let dv = ((c as u32) - ('0' as u32)) as u64;
        assert(v@.subrange(a as int, i + 1).drop_last() =~= v@.subrange(a as int, i as int));
        if !over {
            let nv = value * 10 + dv;
            if nv > 4294967295 {
                over = true;
            } else {
                value = nv;
            }
        }
        i = i + 1;
    }
    assert(v@.subrange(a as int, to as int) =~= d);
    assert(all_digits(d));
    if over {
        None
    } else {
        Some(value as u32)
    }
}


pub proof fn lemma_char_index_at_byte(s: Seq<char>, b: int)
    ensures
        match char_index_at_byte(s, b) {
            Some(k) => 0 <= k <= s.len() && utf8_len(s.subrange(0, k)) == b,
            None => forall|k: int| 0 <= k <= s.len() ==> utf8_len(#[trigger] s.subrange(0, k)) != b,
        },
    decreases s.len(),
{
    if b == utf8_len(s) {
        assert(s.subrange(0, s.len() as int) =~= s);
    } else if s.len() == 0 {
        assert forall|k: int| 0 <= k <= s.len() implies utf8_len(#[trigger] s.subrange(0, k)) != b by {
            assert(s.subrange(0, k) =~= s);
        }
    } else {
        let t = s.drop_last();
        lemma_char_index_at_byte(t, b);
        match char_index_at_byte(t, b) {
            Some(k) => {
                assert(t.subrange(0, k) =~= s.subrange(0, k));
            },
            None => {
                assert forall|k: int| 0 <= k <= s.len() implies utf8_len(#[trigger] s.subrange(0, k))
                    != b by {
                    if k == s.len() {
                        assert(s.subrange(0, k) =~= s);
                    } else {
                        assert(t.subrange(0, k) =~= s.subrange(0, k));
                        assert(utf8_len(t.subrange(0, k)) != b);
                    }
                }
            },
        }
    }
}

pub proof fn lemma_prefix_len_mono(s: Seq<char>, k1: int, k2: int)
    requires
        0 <= k1 <= k2 <= s.len(),
    ensures
        utf8_len(s.subrange(0, k1)) <= utf8_len(s.subrange(0, k2)),
        k1 < k2 ==> utf8_len(s.subrange(0, k1)) < utf8_len(s.subrange(0, k2)),
{
    let p = s.subrange(0, k2);
    assert(p.subrange(0, k1) =~= s.subrange(0, k1));
    lemma_utf8_len_mono(p, k1);
}

pub fn utf8_char_width(c: char) -> (w: usize)
    ensures
        w == utf8_width(c),
{
    if (c as u32) < 0x80 {
        1
    } else if (c as u32) < 0x800 {
        2
    } else if (c as u32) < 0x10000 {
        3
    } else {
        4
    }
}

/// How many characters of `v` take exactly the first `b` bytes of its UTF-8
/// encoding, if byte offset `b` falls on a character boundary.
pub fn char_at_byte(v: &Vec<char>, b: usize) -> (r: Option<usize>)
    ensures
        match char_index_at_byte(v@, b as int) {
            Some(k) => r == Some(k as usize),
            None => r is None,
        },
{
    proof {
        lemma_char_index_at_byte(v@, b as int);
    }
    let mut total: usize = 0;
    let mut k: usize = 0;
    while k < v.len() && total < b
        invariant
            k <= v.len(),
            total <= b,
            total == utf8_len(v@.subrange(0, k as int)),
        decreases v.len() - k,
    {
        let w = utf8_char_width(v[k]);
        assert(v@.subrange(0, k + 1).drop_last() =~= v@.subrange(0, k as int));
        if w > b - total {
            proof {
                lemma_char_index_at_byte(v@, b as int);
                assert forall|m: int| 0 <= m <= v@.len() implies utf8_len(
                    #[trigger] v@.subrange(0, m),
                ) != b by {
                    if m <= k {
                        lemma_prefix_len_mono(v@, m, k as int);
                    } else {
                        lemma_prefix_len_mono(v@, k + 1, m);
                    }
                }
            }
            return None;
        }
        total = total + w;
        k = k + 1;
    }
    proof {
        lemma_char_index_at_byte(v@, b as int);
    }
    if total == b {
        proof {
            if char_index_at_byte(v@, b as int) is Some {
                let k2 = char_index_at_byte(v@, b as int)->0;
                if k2 < k {
                    lemma_prefix_len_mono(v@, k2, k as int);
                } else if k2 > k {
                    lemma_prefix_len_mono(v@, k as int, k2);
                }
            }
        }
        Some(k)
    } else {
        proof {
            assert forall|m: int| 0 <= m <= v@.len() implies utf8_len(#[trigger] v@.subrange(0, m))
                != b by {
                if m <= k {
                    lemma_prefix_len_mono(v@, m, k as int);
                } else {
                    // k == v.len() here, since total < b
                }
            }
        }
        None
    }
}

/// Every character of `trim(s)` is a character of `s`.
pub proof fn lemma_trim_within(s: Seq<char>)
    ensures
        forall|i: int| 0 <= i < trim(s).len() ==> s.contains(#[trigger] trim(s)[i]),
{
    lemma_trim_start_range(s);
    let k = choose|k: int|
        0 <= k <= s.len() && trim_start(s) == s.subrange(k, s.len() as int) && (forall|j: int|
            0 <= j < k ==> is_ws(#[trigger] s[j])) && (k < s.len() ==> !is_ws(s[k]));
    let t = trim_start(s);
    lemma_trim_end_range(t);
    let m = choose|m: int|
        0 <= m <= t.len() && trim_end(t) == t.subrange(0, m) && (forall|j: int|
            m <= j < t.len() ==> is_ws(#[trigger] t[j])) && (m > 0 ==> !is_ws(t[m - 1]));
    assert forall|i: int| 0 <= i < trim(s).len() implies s.contains(#[trigger] trim(s)[i]) by {
        assert(trim(s)[i] == s[k + i]);
    }
}

/// Trimming twice is trimming once.
pub proof fn lemma_trim_idempotent(s: Seq<char>)
    ensures
        trim(trim(s)) == trim(s),
{
    lemma_trim_start_range(s);
    let k = choose|k: int|
        0 <= k <= s.len() && trim_start(s) == s.subrange(k, s.len() as int) && (forall|j: int|
            0 <= j < k ==> is_ws(#[trigger] s[j])) && (k < s.len() ==> !is_ws(s[k]));
    let t = trim_start(s);
    lemma_trim_end_range(t);
    let m = choose|m: int|
        0 <= m <= t.len() && trim_end(t) == t.subrange(0, m) && (forall|j: int|
            m <= j < t.len() ==> is_ws(#[trigger] t[j])) && (m > 0 ==> !is_ws(t[m - 1]));
    let u = trim(s);
    assert(u == t.subrange(0, m));
    // u starts with a non-whitespace character (or is empty)
    if u.len() > 0 {
        assert(u[0] == t[0]);
        assert(t[0] == s[k]);
    }
    assert(trim_start(u) == u);
    // and ends with one
    if u.len() > 0 {
        assert(u.last() == t[m - 1]);
    }
    assert(trim_end(u) == u);
}

// ---------------------------------------------------------------------------
// Facts about decimal notation, trimming and searching used by the laws.
pub proof fn lemma_digit_char(d: nat)
    requires
        d < 10,
    ensures
        is_digit(digit_char(d)),
        digit_value(digit_char(d)) == d,
{
}

/// Decimal notation is a non-empty run of digits that reads back as the number.
pub proof fn lemma_decimal(n: nat)
    ensures
        decimal(n).len() >= 1,
        forall|i: int| 0 <= i < decimal(n).len() ==> is_digit(#[trigger] decimal(n)[i]),
        digits_value(decimal(n)) == n,
    decreases n,
{
    if n < 10 {
        lemma_digit_char(n);
        assert(decimal(n).drop_last() =~= Seq::<char>::empty());
        assert(digits_value(Seq::<char>::empty()) == 0);
        assert(decimal(n).last() == digit_char(n));
        assert(digits_value(decimal(n)) == digits_value(decimal(n).drop_last()) * 10 + digit_value(
            decimal(n).last(),
        ));
    } else {
        lemma_decimal(n / 10);
        lemma_digit_char(n % 10);
        let d = decimal(n);
        assert(d.drop_last() =~= decimal(n / 10));
        assert(d.last() == digit_char(n % 10));
        assert((n / 10) * 10 + n % 10 == n) by (nonlinear_arith);
        assert(digits_value(d) == digits_value(d.drop_last()) * 10 + digit_value(d.last()));
        assert forall|i: int| 0 <= i < d.len() implies is_digit(#[trigger] d[i]) by {
            if i < d.len() - 1 {
                assert(d[i] == decimal(n / 10)[i]);
            }
        }
    }
}

/// Decimal notation of a `u32` is what `u32::from_str` reads back.
pub proof fn lemma_parse_decimal(n: u32)
    ensures
        parse_u32_spec(decimal(n as nat)) == Some(n),
        parse_u32_spec(trim(decimal(n as nat))) == Some(n),
        trim(decimal(n as nat)) == decimal(n as nat),
{
    lemma_decimal(n as nat);
    let d = decimal(n as nat);
    assert(is_digit(d[0]));
    assert(all_digits(d));
    lemma_trim_fixed(d);
}

/// A text that neither starts nor ends with whitespace is its own trim.
pub proof fn lemma_trim_fixed(s: Seq<char>)
    requires
        s.len() > 0 ==> !is_ws(s[0]) && !is_ws(s.last()),
    ensures
        trim(s) == s,
{
    assert(trim_start(s) == s);
}

/// A text of ASCII characters takes one byte per character.
pub proof fn lemma_ascii_utf8_len(s: Seq<char>)
    requires
        forall|i: int| 0 <= i < s.len() ==> (#[trigger] s[i] as u32) < 0x80,
    ensures
        utf8_len(s) == s.len(),
    decreases s.len(),
{
    if s.len() > 0 {
        assert forall|i: int| 0 <= i < s.drop_last().len() implies (#[trigger] s.drop_last()[i] as u32)
            < 0x80 by {
            assert(s.drop_last()[i] == s[i]);
        }
        lemma_ascii_utf8_len(s.drop_last());
        assert((s.last() as u32) < 0x80);
    }
}

/// The first `c` of `s` is at `p` when `s[p]` is `c` and no earlier character is.
pub proof fn lemma_first_index_at(s: Seq<char>, c: char, p: int)
    requires
        0 <= p < s.len(),
        s[p] == c,
        forall|j: int| 0 <= j < p ==> s[j] != c,
    ensures
        first_index_of(s, c) == Some(p),
{
    lemma_first_index_of(s, c);
    if first_index_of(s, c) is Some {
        let q = first_index_of(s, c)->0;
        if q < p {
            assert(s[q] != c);
        }
        if q > p {
            assert(s[p] != c);
        }
    }
}

/// `s` holds no `c` at all.
pub proof fn lemma_first_index_none(s: Seq<char>, c: char)
    requires
        forall|j: int| 0 <= j < s.len() ==> s[j] != c,
    ensures
        first_index_of(s, c) is None,
{
    lemma_first_index_of(s, c);
    if first_index_of(s, c) is Some {
        let q = first_index_of(s, c)->0;
        assert(s[q] != c);
    }
}

} // verus!
