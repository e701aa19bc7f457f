//! Character-level helpers over `str` and `String`: Unicode whitespace,
//! trimming, ASCII case-insensitive comparison, decimal rendering and
//! capitalisation of the first character.
use vstd::prelude::*;

verus! {

/// The Unicode `White_Space` property, which is what `char::is_whitespace`
/// and `str::trim` use.
pub open spec fn is_white_space(c: char) -> bool {
    let u = c as u32;
    ||| 0x09 <= u <= 0x0d
    ||| u == 0x20
    ||| u == 0x85
    ||| u == 0xa0
    ||| u == 0x1680
    ||| 0x2000 <= u <= 0x200a
    ||| u == 0x2028
    ||| u == 0x2029
    ||| u == 0x202f
    ||| u == 0x205f
    ||| u == 0x3000
}

/// Whether `c` has the Unicode `White_Space` property.
pub fn is_whitespace(c: char) -> (b: bool)
    ensures
        b == is_white_space(c),
{
    let u = c as u32;
    (0x09 <= u && u <= 0x0d) || u == 0x20 || u == 0x85 || u == 0xa0 || u == 0x1680 || (0x2000
        <= u && u <= 0x200a) || u == 0x2028 || u == 0x2029 || u == 0x202f || u == 0x205f || u
        == 0x3000
}

/// `s` without its leading whitespace.
pub open spec fn trim_start(s: Seq<char>) -> Seq<char>
    decreases s.len(),
{
    if s.len() > 0 && is_white_space(s[0]) {
        trim_start(s.drop_first())
    } else {
        s
    }
}

/// `s` without its trailing whitespace.
pub open spec fn trim_end(s: Seq<char>) -> Seq<char>
    decreases s.len(),
{
    if s.len() > 0 && is_white_space(s.last()) {
        trim_end(s.drop_last())
    } else {
        s
    }
}

/// `s` without leading and trailing whitespace, as `str::trim` returns it.
pub open spec fn trimmed(s: Seq<char>) -> Seq<char> {
    trim_end(trim_start(s))
}

proof fn lemma_trim_start_at(s: Seq<char>, a: int)
    requires
        0 <= a <= s.len(),
        forall|i: int| 0 <= i < a ==> is_white_space(#[trigger] s[i]),
        a < s.len() ==> !is_white_space(s[a]),
    ensures
        trim_start(s) == s.subrange(a, s.len() as int),
    decreases a,
{
    if a == 0 {
        assert(s.subrange(0, s.len() as int) =~= s);
    } else {
        let t = s.drop_first();
        assert forall|i: int| 0 <= i < a - 1 implies is_white_space(#[trigger] t[i]) by {
            assert(t[i] == s[i + 1]);
        }
        lemma_trim_start_at(t, a - 1);
        assert(t.subrange(a - 1, t.len() as int) =~= s.subrange(a, s.len() as int));
    }
}

proof fn lemma_trim_end_at(s: Seq<char>, b: int)
    requires
        0 <= b <= s.len(),
        forall|i: int| b <= i < s.len() ==> is_white_space(#[trigger] s[i]),
        b > 0 ==> !is_white_space(s[b - 1]),
    ensures
        trim_end(s) == s.subrange(0, b),
    decreases s.len() - b,
{
    if b == s.len() {
        assert(s.subrange(0, s.len() as int) =~= s);
    } else {
        let t = s.drop_last();
        assert forall|i: int| b <= i < t.len() implies is_white_space(#[trigger] t[i]) by {
            assert(t[i] == s[i]);
        }
        lemma_trim_end_at(t, b);
        assert(t.subrange(0, b) =~= s.subrange(0, b));
    }
}

/// The characters of `s`, in order.
pub fn chars_of(s: &str) -> (v: Vec<char>)
    ensures
        v@ == s@,
{
    let mut v: Vec<char> = Vec::new();
    for c in it: s.chars()
        invariant
            v@ == it.seq().take(it.index() as int),
            it.seq() == s@,
    {
        v.push(c);
    }
    v
}

/// `s` with leading and trailing Unicode whitespace removed.
pub fn trim(s: &str) -> (r: String)
    ensures
        r@ == trimmed(s@),
{
    let cs = chars_of(s);
    let n = cs.len();
    let mut a: usize = 0;
    while a < n && is_whitespace(cs[a])
        invariant
            a <= n,
            n == cs@.len(),
            cs@ == s@,
            forall|i: int| 0 <= i < a ==> is_white_space(#[trigger] cs@[i]),
        decreases n - a,
    {
        a = a + 1;
    }
    let mut b: usize = n;
    while b > a && is_whitespace(cs[b - 1])
        invariant
            a <= b <= n,
            n == cs@.len(),
            cs@ == s@,
            forall|i: int| b <= i < n ==> is_white_space(#[trigger] cs@[i]),
        decreases b,
    {
        b = b - 1;
    }
    proof {
        let t = s@.subrange(a as int, n as int);
        lemma_trim_start_at(s@, a as int);
        assert forall|i: int| b - a <= i < t.len() implies is_white_space(#[trigger] t[i]) by {
            assert(t[i] == s@[a + i]);
        }
        if b > a {
            assert(t[b - a - 1] == s@[b - 1]);
        }
        lemma_trim_end_at(t, b - a);
        assert(t.subrange(0, b - a) =~= s@.subrange(a as int, b as int));
    }
    s.substring_char(a, b).to_owned()
}

/// ASCII lower-casing of one character; other characters are unchanged.
pub open spec fn ascii_lower(c: char) -> char {
    if 'A' <= c <= 'Z' {
        ((c as u32) + 32) as char
    } else {
        c
    }
}

/// `a` and `b` are equal up to ASCII case, as `str::eq_ignore_ascii_case`
/// decides.
pub open spec fn eq_ignore_ascii_case(a: Seq<char>, b: Seq<char>) -> bool {
    &&& a.len() == b.len()
    &&& forall|i: int| 0 <= i < a.len() ==> ascii_lower(#[trigger] a[i]) == ascii_lower(b[i])
}

fn lower_char(c: char) -> (r: char)
    ensures
        r == ascii_lower(c),
{
    if 'A' <= c && c <= 'Z' {
        let b: u8 = (c as u32 + 32) as u8;
        b as char
    } else {
        c
    }
}

/// Whether `a` and `b` are equal up to ASCII case.
pub fn equal_ignoring_ascii_case(a: &[char], b: &[char]) -> (r: bool)
    ensures
        r == eq_ignore_ascii_case(a@, b@),
{
    if a.len() != b.len() {
        return false;
    }
    let mut i: usize = 0;
    while i < a.len()
        invariant
            i <= a@.len(),
            a@.len() == b@.len(),
            forall|j: int| 0 <= j < i ==> ascii_lower(#[trigger] a@[j]) == ascii_lower(b@[j]),
        decreases a@.len() - i,
    {
        if lower_char(a[i]) != lower_char(b[i]) {
            return false;
        }
        i = i + 1;
    }
    true
}

/// The ASCII digit for `d`, which must be below ten.
pub open spec fn digit_char(d: int) -> char {
    ('0' as u32 + d) as char
}

/// The decimal rendering of `n`, most significant digit first, without
/// leading zeros (as `u64`'s `Display` writes it).
pub open spec fn decimal(n: nat) -> Seq<char>
    decreases n,
{
    if n < 10 {
        seq![digit_char(n as int)]
    } else {
        decimal(n / 10).push(digit_char((n % 10) as int))
    }
}

/// `String::push`: appends one character.
#[verifier::external_body]
pub fn push_char(s: &mut String, c: char)
    ensures
        final(s)@ == old(s)@.push(c),
{
    s.push(c)
}

/// Appends the decimal rendering of `n` to `s`.
pub fn push_decimal(s: &mut String, n: u64)
    ensures
        final(s)@ == old(s)@ + decimal(n as nat),
    decreases n,
{
    if n >= 10 {
        push_decimal(s, n / 10);
    }
    let d: u8 = (n % 10) as u8;
    let c: char = (48u8 + d) as char;
    push_char(s, c);
    proof {
        if n >= 10 {
            assert(old(s)@ + decimal(n as nat) =~= old(s)@ + decimal((n / 10) as nat) + seq![c]);
        } else {
            assert(old(s)@ + decimal(n as nat) =~= old(s)@.push(c));
        }
    }
}

/// The characters that `char::to_uppercase` yields for `c` (Unicode case
/// mapping, possibly more than one character).
pub uninterp spec fn char_uppercase(c: char) -> Seq<char>;

/// `char::to_uppercase`, collected into a `String`.
#[verifier::external_body]
pub fn uppercase_of(c: char) -> (r: String)
    ensures
        r@ == char_uppercase(c),
{
    c.to_uppercase().collect()
}

/// `s` with its first character upper-cased and the rest left as it is.
pub open spec fn capitalised(s: Seq<char>) -> Seq<char> {
    if s.len() == 0 {
        s
    } else {
        char_uppercase(s[0]) + s.drop_first()
    }
}

/// Capitalises the first character of `s`, leaving the rest as it is.
pub fn titlecase(s: &str) -> (r: String)
    ensures
        r@ == capitalised(s@),
{
    let n = s.unicode_len();
    if n == 0 {
        return String::new();
    }
    let first = s.get_char(0);
    let mut r = uppercase_of(first);
    r.append(s.substring_char(1, n));
    proof {
        assert(s@.subrange(1, n as int) =~= s@.drop_first());
    }
    r
}

/// An ASCII decimal digit.
pub open spec fn is_digit(c: char) -> bool {
    '0' <= c <= '9'
}

/// A mantissa of the float grammar: digits with at most one `.`, and at
/// least one digit.
pub open spec fn is_mantissa(m: Seq<char>) -> bool {
    &&& forall|i: int| 0 <= i < m.len() ==> is_digit(#[trigger] m[i]) || m[i] == '.'
    &&& forall|i: int, j: int|
        0 <= i < m.len() && 0 <= j < m.len() && #[trigger] m[i] == '.' && #[trigger] m[j] == '.'
            ==> i == j
    &&& exists|i: int| 0 <= i < m.len() && is_digit(#[trigger] m[i])
}

/// `x` without one leading `+` or `-`, if it has one.
pub open spec fn strip_sign(x: Seq<char>) -> Seq<char> {
    if x.len() > 0 && (x[0] == '+' || x[0] == '-') {
        x.drop_first()
    } else {
        x
    }
}

/// Digits with an optional leading sign.
pub open spec fn is_signed_digits(x: Seq<char>) -> bool {
    &&& strip_sign(x).len() > 0
    &&& forall|i: int| 0 <= i < strip_sign(x).len() ==> is_digit(#[trigger] strip_sign(x)[i])
}

/// `Number ::= ( Digit+ | Digit+ '.' Digit* | Digit* '.' Digit+ ) Exp?` with
/// `Exp ::= 'e' Sign? Digit+`, over an already lower-cased text. The
/// exponent starts at the first `e`, since a mantissa holds none.
pub open spec fn is_number(b: Seq<char>) -> bool {
    if exists|i: int| 0 <= i < b.len() && #[trigger] b[i] == 'e' {
        let k = choose|i: int| 0 <= i < b.len() && b[i] == 'e' && forall|j: int| 0 <= j < i ==> b[j] != 'e';
        is_mantissa(b.subrange(0, k)) && is_signed_digits(b.subrange(k + 1, b.len() as int))
    } else {
        is_mantissa(b)
    }
}

/// The grammar that `<f32 as FromStr>::from_str` accepts, applied to the
/// ASCII-lower-cased text:
/// `Float ::= Sign? ( 'inf' | 'infinity' | 'nan' | Number )`.
#[verifier::opaque]
pub open spec fn is_float_literal(s: Seq<char>) -> bool {
    let t = s.map_values(|c: char| ascii_lower(c));
    let body = strip_sign(t);
    ||| body == seq!['i', 'n', 'f']
    ||| body == seq!['i', 'n', 'f', 'i', 'n', 'i', 't', 'y']
    ||| body == seq!['n', 'a', 'n']
    ||| is_number(body)
}

fn mantissa_ok(v: &Vec<char>, lo: usize, hi: usize) -> (r: bool)
    requires
        lo <= hi <= v@.len(),
    ensures
        r == is_mantissa(v@.subrange(lo as int, hi as int)),
{
    let ghost m = v@.subrange(lo as int, hi as int);
    let mut i: usize = lo;
    let mut dot: Option<usize> = None;
    let mut has_digit = false;
    while i < hi
        invariant
            lo <= i <= hi <= v@.len(),
            m == v@.subrange(lo as int, hi as int),
            forall|j: int| 0 <= j < i - lo ==> is_digit(#[trigger] m[j]) || m[j] == '.',
            match dot {
                Some(d) => lo <= d < i && m[d - lo] == '.' && forall|j: int|
                    0 <= j < i - lo && #[trigger] m[j] == '.' ==> j == d - lo,
                None => forall|j: int| 0 <= j < i - lo ==> #[trigger] m[j] != '.',
            },
            has_digit <==> exists|j: int| 0 <= j < i - lo && is_digit(#[trigger] m[j]),
        decreases hi - i,
    {
        let c = v[i];
        assert(m[i - lo] == c);
        if c == '.' {
            if dot.is_some() {
                return false;
            }
            dot = Some(i);
        } else if '0' <= c && c <= '9' {
            has_digit = true;
        } else {
            return false;
        }
        i = i + 1;
    }
    has_digit
}

fn signed_digits_ok(v: &Vec<char>, lo: usize, hi: usize) -> (r: bool)
    requires
        lo <= hi <= v@.len(),
    ensures
        r == is_signed_digits(v@.subrange(lo as int, hi as int)),
{
    let ghost x = v@.subrange(lo as int, hi as int);
    let mut i = lo;
    if i < hi && (v[i] == '+' || v[i] == '-') {
        i = i + 1;
    }
    let ghost d = v@.subrange(i as int, hi as int);
    assert(d =~= strip_sign(x));
    if i == hi {
        assert(d.len() == 0);
        assert(!is_signed_digits(x));
        return false;
    }
    let start = i;
    assert(is_signed_digits(x) == (forall|j: int| 0 <= j < d.len() ==> is_digit(#[trigger] d[j])));
    while i < hi
        invariant
            lo <= start <= i <= hi <= v@.len(),
            d == v@.subrange(start as int, hi as int),
            d.len() > 0,
            x == v@.subrange(lo as int, hi as int),
            is_signed_digits(x) == (forall|j: int| 0 <= j < d.len() ==> is_digit(#[trigger] d[j])),
            forall|j: int| 0 <= j < i - start ==> is_digit(#[trigger] d[j]),
        decreases hi - i,
    {
        assert(d[i - start] == v@[i as int]);
        if !('0' <= v[i] && v[i] <= '9') {
            return false;
        }
        i = i + 1;
    }
    true
}

fn range_equals(v: &Vec<char>, lo: usize, hi: usize, w: &[char]) -> (r: bool)
    requires
        lo <= hi <= v@.len(),
    ensures
        r == (v@.subrange(lo as int, hi as int) == w@),
{
    if hi - lo != w.len() {
        return false;
    }
    let mut i: usize = 0;
    while i < w.len()
        invariant
            i <= w@.len(),
            hi - lo == w@.len(),
            lo <= hi <= v@.len(),
            forall|j: int| 0 <= j < i ==> v@[lo + j] == w@[j],
        decreases w@.len() - i,
    {
        if v[lo + i] != w[i] {
            assert(v@.subrange(lo as int, hi as int)[i as int] != w@[i as int]);
            return false;
        }
        i = i + 1;
    }
    assert(v@.subrange(lo as int, hi as int) =~= w@);
    true
}

fn number_ok(v: &Vec<char>, lo: usize, hi: usize) -> (r: bool)
    requires
        lo <= hi <= v@.len(),
    ensures
        r == is_number(v@.subrange(lo as int, hi as int)),
{
    let ghost b = v@.subrange(lo as int, hi as int);
    let mut k = lo;
    while k < hi && v[k] != 'e'
        invariant
            lo <= k <= hi <= v@.len(),
            b == v@.subrange(lo as int, hi as int),
            forall|j: int| 0 <= j < k - lo ==> #[trigger] b[j] != 'e',
        decreases hi - k,
    {
        assert(b[k - lo] == v@[k as int]);
        k = k + 1;
    }
    if k < hi {
        let ghost kk = (k - lo) as int;
        assert(b[kk] == 'e');
        let ghost c = choose|i: int| 0 <= i < b.len() && b[i] == 'e' && forall|j: int| 0 <= j < i ==> b[j] != 'e';
        assert(0 <= kk < b.len() && b[kk] == 'e' && forall|j: int| 0 <= j < kk ==> b[j] != 'e');
        assert(c == kk) by {
            if c < kk {
                assert(b[c] != 'e');
            } else if c > kk {
                assert(b[kk] != 'e');
            }
        }
        assert(b.subrange(0, kk) =~= v@.subrange(lo as int, k as int));
        assert(b.subrange(kk + 1, b.len() as int) =~= v@.subrange(k + 1, hi as int));
        mantissa_ok(v, lo, k) && signed_digits_ok(v, k + 1, hi)
    } else {
        assert(!exists|i: int| 0 <= i < b.len() && #[trigger] b[i] == 'e');
        mantissa_ok(v, lo, hi)
    }
}

/// Whether `s` is text that `<f32 as FromStr>::from_str` accepts.
pub fn float_text_ok(s: &str) -> (r: bool)
    ensures
        r == is_float_literal(s@),
{
    reveal(is_float_literal);
    let cs = chars_of(s);
    let mut t: Vec<char> = Vec::new();
    let mut i: usize = 0;
    while i < cs.len()
        invariant
            i <= cs@.len(),
            cs@ == s@,
            t@ == cs@.take(i as int).map_values(|c: char| ascii_lower(c)),
        decreases cs@.len() - i,
    {
        let c = lower_char(cs[i]);
        t.push(c);
        i = i + 1;
        assert(t@ =~= cs@.take(i as int).map_values(|c: char| ascii_lower(c)));
    }
    assert(cs@.take(cs@.len() as int) =~= cs@);
    let ghost tt = s@.map_values(|c: char| ascii_lower(c));
    assert(t@ == tt);
    let n = t.len();
    let lo: usize = if n > 0 && (t[0] == '+' || t[0] == '-') {
        1
    } else {
        0
    };
    let ghost body = strip_sign(tt);
    assert(body =~= t@.subrange(lo as int, n as int));
    let inf: [char; 3] = ['i', 'n', 'f'];
    let infinity: [char; 8] = ['i', 'n', 'f', 'i', 'n', 'i', 't', 'y'];
    let nan: [char; 3] = ['n', 'a', 'n'];
    assert(inf@ =~= seq!['i', 'n', 'f']);
    assert(infinity@ =~= seq!['i', 'n', 'f', 'i', 'n', 'i', 't', 'y']);
    assert(nan@ =~= seq!['n', 'a', 'n']);
    range_equals(&t, lo, n, &inf) || range_equals(&t, lo, n, &infinity) || range_equals(
        &t,
        lo,
        n,
        &nan,
    ) || number_ok(&t, lo, n)
}

} // verus!
