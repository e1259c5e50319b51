//! The text of annotation argument values: which literal a text is.

use vstd::prelude::*;

verus! {

/// Unicode white space (the `White_Space` property), which `str::trim`
/// removes.
pub open spec fn is_ws(c: char) -> bool {
    ||| 0x09 <= c as u32 <= 0x0d
    ||| c as u32 == 0x20
    ||| c as u32 == 0x85
    ||| c as u32 == 0xa0
    ||| c as u32 == 0x1680
    ||| 0x2000 <= c as u32 <= 0x200a
    ||| c as u32 == 0x2028
    ||| c as u32 == 0x2029
    ||| c as u32 == 0x202f
    ||| c as u32 == 0x205f
    ||| c as u32 == 0x3000
}

fn ws(c: char) -> (r: bool)
    ensures
        r == is_ws(c),
{
    let u = c as u32;
    (0x09 <= u && u <= 0x0d) || u == 0x20 || u == 0x85 || u == 0xa0 || u == 0x1680 || (0x2000 <= u && u <= 0x200a)
        || u == 0x2028 || u == 0x2029 || u == 0x202f || u == 0x205f || u == 0x3000
}

/// The position of the first character of `s` that is not white space,
/// from position `i` on.
pub open spec fn first_non_ws(s: Seq<char>, i: int) -> int
    decreases s.len() - i,
{
    if i >= s.len() || !is_ws(s[i]) {
        i
    } else {
        first_non_ws(s, i + 1)
    }
}

/// The position after the last character of `s` that is not white space,
/// looking before position `j`.
pub open spec fn end_non_ws(s: Seq<char>, j: int) -> int
    decreases j,
{
    if j <= 0 || !is_ws(s[j - 1]) {
        j
    } else {
        end_non_ws(s, j - 1)
    }
}

/// `s` without leading and trailing white space.
pub open spec fn trimmed(s: Seq<char>) -> Seq<char> {
    let a = first_non_ws(s, 0);
    let b = end_non_ws(s, s.len() as int);
    if a < b {
        s.subrange(a, b)
    } else {
        Seq::empty()
    }
}

pub open spec fn is_digit(c: char) -> bool {
    '0' <= c <= '9'
}

pub open spec fn all_digit_chars(d: Seq<char>) -> bool {
    forall|k: int| 0 <= k < d.len() ==> is_digit(#[trigger] d[k])
}

/// The value of a string of decimal digits.
pub open spec fn digits_value(d: Seq<char>) -> nat
    decreases d.len(),
{
    if d.len() == 0 {
        0
    } else {
        digits_value(d.drop_last()) * 10 + (d.last() as nat - 48) as nat
    }
}

/// What `i64::from_str` gives for `t`: an optional sign, then one or more
/// decimal digits whose value fits.
pub open spec fn i64_of(t: Seq<char>) -> Option<i64> {
    let neg = t.len() > 0 && t[0] == '-';
    let d = if t.len() > 0 && (t[0] == '-' || t[0] == '+') {
        t.drop_first()
    } else {
        t
    };
    if d.len() > 0 && all_digit_chars(d) {
        if neg && digits_value(d) <= 9223372036854775808 {
            Some((-(digits_value(d) as int)) as i64)
        } else if !neg && digits_value(d) <= 9223372036854775807 {
            Some(digits_value(d) as i64)
        } else {
            None
        }
    } else {
        None
    }
}

/// An ASCII letter in lower case.
pub open spec fn lower(c: char) -> char {
    if 'A' <= c <= 'Z' {
        ((c as u32) + 32) as char
    } else {
        c
    }
}

/// `u`, lowered, is `w`.
pub open spec fn lower_is(u: Seq<char>, w: Seq<char>) -> bool {
    u.len() == w.len() && forall|k: int| 0 <= k < u.len() ==> lower(#[trigger] u[k]) == w[k]
}

/// The position of the first character of `s` that is `c` (in any case,
/// for a letter), or the length.
pub open spec fn find_char(s: Seq<char>, c: char, i: int) -> int
    decreases s.len() - i,
{
    if i >= s.len() || lower(s[i]) == c {
        i
    } else {
        find_char(s, c, i + 1)
    }
}

/// `Digit+ | Digit+ '.' Digit* | Digit* '.' Digit+`
pub open spec fn is_mantissa(m: Seq<char>) -> bool {
    let p = find_char(m, '.', 0);
    if p < m.len() {
        let a = m.take(p);
        let b = m.skip(p + 1);
        all_digit_chars(a) && all_digit_chars(b) && (a.len() > 0 || b.len() > 0)
    } else {
        m.len() > 0 && all_digit_chars(m)
    }
}

/// `Sign? Digit+`
pub open spec fn is_exponent(x: Seq<char>) -> bool {
    let d = if x.len() > 0 && (x[0] == '-' || x[0] == '+') {
        x.drop_first()
    } else {
        x
    };
    d.len() > 0 && all_digit_chars(d)
}

/// Whether `f64::from_str` accepts `t`: a sign, then `inf`, `infinity`,
/// `nan` or a decimal number with an optional exponent, letters in any case.
pub open spec fn is_float_text(t: Seq<char>) -> bool {
    let u = if t.len() > 0 && (t[0] == '-' || t[0] == '+') {
        t.drop_first()
    } else {
        t
    };
    let e = find_char(u, 'e', 0);
    ||| lower_is(u, "inf"@)
    ||| lower_is(u, "infinity"@)
    ||| lower_is(u, "nan"@)
    ||| if e < u.len() {
        is_mantissa(u.take(e)) && is_exponent(u.skip(e + 1))
    } else {
        is_mantissa(u)
    }
}

/// The characters of `s`.
pub fn chars_of(s: &str) -> (r: Vec<char>)
    ensures
        r@ == s@,
{
    let n = s.unicode_len();
    let mut r: Vec<char> = Vec::new();
    let mut i: usize = 0;
    while i < n
        invariant
            i <= n == s@.len(),
            r@ == s@.take(i as int),
        decreases n - i,
    {
        r.push(s.get_char(i));
        proof {
            assert(r@ =~= s@.take(i + 1));
        }
        i += 1;
    }
    proof {
        assert(s@.take(n as int) =~= s@);
    }
    r
}

/// Where `trimmed` begins and ends.
pub fn trim_bounds(v: &Vec<char>) -> (r: (usize, usize))
    ensures
        r.0 == first_non_ws(v@, 0),
        r.1 == end_non_ws(v@, v@.len() as int),
        r.0 <= v@.len(),
        r.1 <= v@.len(),
{
    let mut a: usize = 0;
    while a < v.len() && ws(v[a])
        invariant
            a <= v@.len(),
            first_non_ws(v@, 0) == first_non_ws(v@, a as int),
        decreases v.len() - a,
    {
        a += 1;
    }
    let mut b: usize = v.len();
    while b > 0 && ws(v[b - 1])
        invariant
            b <= v@.len(),
            end_non_ws(v@, v@.len() as int) == end_non_ws(v@, b as int),
        decreases b,
    {
        b -= 1;
    }
    (a, b)
}

/// The trimmed text of `v`.
pub fn trim_chars(v: &Vec<char>) -> (r: Vec<char>)
    ensures
        r@ == trimmed(v@),
{
    let (a, b) = trim_bounds(v);
    let mut r: Vec<char> = Vec::new();
    if a < b {
        let mut i = a;
        while i < b
            invariant
                a <= i <= b <= v@.len(),
                r@ == v@.subrange(a as int, i as int),
            decreases b - i,
        {
            r.push(v[i]);
            proof {
                assert(r@ =~= v@.subrange(a as int, i + 1));
            }
            i += 1;
        }
    } else {
        proof {
            assert(r@ =~= Seq::<char>::empty());
        }
    }
    r
}

fn digit(c: char) -> (r: bool)
    ensures
        r == is_digit(c),
{
    '0' <= c && c <= '9'
}

/// Whether `v[from..to]` are all decimal digits.
fn all_digits_in(v: &Vec<char>, from: usize, to: usize) -> (r: bool)
    requires
        from <= to <= v@.len(),
    ensures
        r == all_digit_chars(v@.subrange(from as int, to as int)),
{
    let mut i = from;
    while i < to
        invariant
            from <= i <= to <= v@.len(),
            forall|k: int| from <= k < i ==> is_digit(v@[k]),
        decreases to - i,
    {
        if !digit(v[i]) {
            proof {
                assert(v@.subrange(from as int, to as int)[i - from] == v@[i as int]);
            }
            return false;
        }
        i += 1;
    }
    proof {
        assert forall|k: int| 0 <= k < to - from implies is_digit(#[trigger] v@.subrange(from as int, to as int)[k]) by {
            assert(v@.subrange(from as int, to as int)[k] == v@[from + k]);
        }
    }
    true
}

proof fn lemma_digits_value_step(d: Seq<char>, i: int)
    requires
        0 <= i < d.len(),
    ensures
        digits_value(d.take(i + 1)) == digits_value(d.take(i)) * 10 + (d[i] as nat - 48) as nat,
{
    assert(d.take(i + 1).drop_last() =~= d.take(i));
}

proof fn lemma_digits_value_mono(d: Seq<char>, i: int)
    requires
        0 <= i <= d.len(),
        all_digit_chars(d),
    ensures
        digits_value(d.take(i)) <= digits_value(d),
    decreases d.len() - i,
{
    if i < d.len() {
        lemma_digits_value_mono(d, i + 1);
        lemma_digits_value_step(d, i);
    } else {
        assert(d.take(i) =~= d);
    }
}

/// Parse `t` as `i64::from_str` does.
pub fn parse_i64(t: &Vec<char>) -> (r: Option<i64>)
    ensures
        r == i64_of(t@),
{
    let n = t.len();
    let neg = n > 0 && t[0] == '-';
    let start: usize = if n > 0 && (t[0] == '-' || t[0] == '+') {
        1
    } else {
        0
    };
    let ghost d = if t@.len() > 0 && (t@[0] == '-' || t@[0] == '+') {
        t@.drop_first()
    } else {
        t@
    };
    proof {
        assert(d =~= t@.subrange(start as int, n as int));
    }
    if start >= n || !all_digits_in(t, start, n) {
        return None;
    }
    let mut v: u64 = 0;
    let mut i = start;
    while i < n
        invariant
            start <= i <= n == t@.len(),
            d == t@.subrange(start as int, n as int),
            d == (if t@.len() > 0 && (t@[0] == '-' || t@[0] == '+') {
                t@.drop_first()
            } else {
                t@
            }),
            neg == (t@.len() > 0 && t@[0] == '-'),
            d.len() > 0,
            all_digit_chars(d),
            v == digits_value(d.take(i - start)),
            v <= 9223372036854775808,
        decreases n - i,
    {
        proof {
            lemma_digits_value_step(d, i - start);
            assert(d[i - start] == t@[i as int]);
        }
        let dv = (t[i] as u32 - 48) as u64;
        proof {
            assert(is_digit(d[i - start]));
            assert(dv == (d[i - start] as nat - 48) as nat);
            assert(digits_value(d.take(i - start + 1)) == v * 10 + dv);
        }
        if v > 922337203685477580 {
            proof {
                lemma_digits_value_mono(d, i - start + 1);
                assert(digits_value(d) > 9223372036854775808);
            }
            return None;
        }
        v = v * 10 + dv;
        if v > 9223372036854775808 {
            proof {
                lemma_digits_value_mono(d, i - start + 1);
                assert(digits_value(d) > 9223372036854775808);
            }
            return None;
        }
        i += 1;
    }
    proof {
        assert(d.take(n - start) =~= d);
    }
    if neg {
        if v == 9223372036854775808 {
            Some(-9223372036854775807 - 1)
        } else {
            Some(-(v as i64))
        }
    } else if v <= 9223372036854775807 {
        Some(v as i64)
    } else {
        None
    }
}

fn lower_char(c: char) -> (r: char)
    ensures
        r == lower(c),
{
    if 'A' <= c && c <= 'Z' {
        let b = (c as u32) as u8 + 32;
        b as char
    } else {
        c
    }
}

/// `v[a..b]`.
pub fn sub_chars(v: &Vec<char>, a: usize, b: usize) -> (r: Vec<char>)
    requires
        a <= b <= v@.len(),
    ensures
        r@ == v@.subrange(a as int, b as int),
{
    let mut r: Vec<char> = Vec::new();
    let mut i = a;
    while i < b
        invariant
            a <= i <= b <= v@.len(),
            r@ == v@.subrange(a as int, i as int),
        decreases b - i,
    {
        r.push(v[i]);
        proof {
            assert(r@ =~= v@.subrange(a as int, i + 1));
        }
        i += 1;
    }
    r
}

/// The position of the first `c` (in any case) in `v`, or its length.
fn find_in(v: &Vec<char>, c: char) -> (r: usize)
    ensures
        r == find_char(v@, c, 0),
        r <= v@.len(),
{
    let mut i: usize = 0;
    while i < v.len() && lower_char(v[i]) != c
        invariant
            i <= v@.len(),
            find_char(v@, c, 0) == find_char(v@, c, i as int),
        decreases v.len() - i,
    {
        i += 1;
    }
    i
}

/// `v`, lowered, is `w`.
fn lower_equals(v: &Vec<char>, w: &Vec<char>) -> (r: bool)
    ensures
        r == lower_is(v@, w@),
{
    if v.len() != w.len() {
        return false;
    }
    let mut i: usize = 0;
    while i < v.len()
        invariant
            i <= v@.len() == w@.len(),
            forall|k: int| 0 <= k < i ==> lower(#[trigger] v@[k]) == w@[k],
        decreases v.len() - i,
    {
        if lower_char(v[i]) != w[i] {
            return false;
        }
        i += 1;
    }
    true
}

fn is_mantissa_exec(m: &Vec<char>) -> (r: bool)
    ensures
        r == is_mantissa(m@),
{
    let p = find_in(m, '.');
    if p < m.len() {
        proof {
            assert(m@.take(p as int) =~= m@.subrange(0, p as int));
            assert(m@.skip(p + 1) =~= m@.subrange(p + 1, m@.len() as int));
        }
        all_digits_in(m, 0, p) && all_digits_in(m, p + 1, m.len()) && (p > 0 || p + 1 < m.len())
    } else {
        proof {
            assert(m@.subrange(0, m@.len() as int) =~= m@);
        }
        m.len() > 0 && all_digits_in(m, 0, m.len())
    }
}

fn is_exponent_exec(x: &Vec<char>) -> (r: bool)
    ensures
        r == is_exponent(x@),
{
    let start: usize = if x.len() > 0 && (x[0] == '-' || x[0] == '+') {
        1
    } else {
        0
    };
    proof {
        if x@.len() > 0 && (x@[0] == '-' || x@[0] == '+') {
            assert(x@.drop_first() =~= x@.subrange(1, x@.len() as int));
        } else {
            assert(x@ =~= x@.subrange(0, x@.len() as int));
        }
    }
    start < x.len() && all_digits_in(x, start, x.len())
}

/// Whether `f64::from_str` accepts `t`.
pub fn float_text(t: &Vec<char>) -> (r: bool)
    ensures
        r == is_float_text(t@),
{
    let start: usize = if t.len() > 0 && (t[0] == '-' || t[0] == '+') {
        1
    } else {
        0
    };
    let u = sub_chars(t, start, t.len());
    proof {
        if t@.len() > 0 && (t@[0] == '-' || t@[0] == '+') {
            assert(t@.drop_first() =~= u@);
        } else {
            assert(t@ =~= u@);
        }
    }
    let inf = chars_of("inf");
    let infinity = chars_of("infinity");
    let nan = chars_of("nan");
    if lower_equals(&u, &inf) || lower_equals(&u, &infinity) || lower_equals(&u, &nan) {
        return true;
    }
    let e = find_in(&u, 'e');
    if e < u.len() {
        let m = sub_chars(&u, 0, e);
        let x = sub_chars(&u, e + 1, u.len());
        proof {
            assert(u@.take(e as int) =~= m@);
            assert(u@.skip(e + 1) =~= x@);
        }
        is_mantissa_exec(&m) && is_exponent_exec(&x)
    } else {
        is_mantissa_exec(&u)
    }
}

} // verus!
