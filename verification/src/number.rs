//! Numbers in text: the unsigned integer and floating-point literal syntax
//! that Rust's `str::parse` accepts, and decimal rendering of integers.
use vstd::prelude::*;
use crate::text::{ascii_lower, ascii_lower_char, skip_chars};

verus! {

/// An ASCII decimal digit.
pub open spec fn is_digit(c: char) -> bool {
    '0' <= c && c <= '9'
}

/// The value of a decimal digit.
pub open spec fn digit_val(c: char) -> int {
    (c as int) - ('0' as int)
}

/// Every char of `s` is an ASCII decimal digit.
pub open spec fn all_digits(s: Seq<char>) -> bool {
    forall|i: int| 0 <= i < s.len() ==> is_digit(#[trigger] s[i])
}

/// The value of a string of decimal digits (most significant first).
pub open spec fn digits_value(s: Seq<char>) -> int
    decreases s.len(),
{
    if s.len() == 0 {
        0
    } else {
        10 * digits_value(s.drop_last()) + digit_val(s.last())
    }
}

/// The digits of an unsigned literal: one leading `'+'` is allowed.
pub open spec fn unsigned_body(s: Seq<char>) -> Seq<char> {
    if s.len() > 0 && s[0] == '+' {
        s.drop_first()
    } else {
        s
    }
}

/// What `str::parse` gives for an unsigned integer type whose largest value is
/// `max`: an optional `'+'`, then at least one ASCII digit and nothing else, and
/// a value that fits; anything else is an error.
pub open spec fn parse_unsigned_seq(s: Seq<char>, max: int) -> Option<int> {
    let d = unsigned_body(s);
    if d.len() > 0 && all_digits(d) && digits_value(d) <= max {
        Some(digits_value(d))
    } else {
        None
    }
}

/// A digit string has a nonnegative value.
pub proof fn lemma_digits_value_nonneg(s: Seq<char>)
    requires
        all_digits(s),
    ensures
        digits_value(s) >= 0,
    decreases s.len(),
{
    if s.len() > 0 {
        assert(all_digits(s.drop_last())) by {
            assert forall|i: int| 0 <= i < s.drop_last().len() implies is_digit(#[trigger] s.drop_last()[i]) by {
                assert(s.drop_last()[i] == s[i]);
            }
        }
        lemma_digits_value_nonneg(s.drop_last());
        assert(is_digit(s[s.len() - 1]));
    }
}

/// `str::parse::<u64>` on the chars `s`.
pub fn parse_u64(s: &[char]) -> (r: Option<u64>)
    ensures
        match r {
            Some(v) => parse_unsigned_seq(s@, u64::MAX as int) == Some(v as int),
            None => parse_unsigned_seq(s@, u64::MAX as int) is None,
        },
{
    let start: usize = if s.len() > 0 && s[0] == '+' { 1 } else { 0 };
    let ghost d = unsigned_body(s@);
    assert(d == s@.skip(start as int));
    if start >= s.len() {
        return None;
    }
    let mut acc: u64 = 0;
    let mut overflow = false;
    let mut i: usize = start;
    while i < s.len()
        invariant
            start <= i <= s@.len(),
            d == s@.skip(start as int),
            d == unsigned_body(s@),
            all_digits(d.take(i - start)),
            !overflow ==> acc as int == digits_value(d.take(i - start)),
            overflow ==> digits_value(d.take(i - start)) > u64::MAX as int,
        decreases s.len() - i,
    {
        let c = s[i];
        if !('0' <= c && c <= '9') {
            assert(d[i - start] == c);
            assert(!is_digit(d[i - start]));
            assert(!all_digits(d));
            return None;
        }
        let ghost pre = d.take(i - start);
        let ghost next = d.take(i + 1 - start);
        assert(next.drop_last() == pre);
        assert(next.last() == c);
        assert(all_digits(next)) by {
            assert forall|k: int| 0 <= k < next.len() implies is_digit(#[trigger] next[k]) by {
                if k < pre.len() {
                    assert(next[k] == pre[k]);
                }
            }
        }
        proof {
            lemma_digits_value_nonneg(pre);
        }
        let dv: u32 = (c as u32) - ('0' as u32);
        if !overflow {
            if acc > u64::MAX / 10 {
                overflow = true;
                assert(digits_value(next) > u64::MAX as int) by (nonlinear_arith)
                    requires
                        digits_value(next) == 10 * digits_value(pre) + digit_val(c),
                        digit_val(c) >= 0,
                        digits_value(pre) == acc as int,
                        acc as int > u64::MAX as int / 10,
                ;
            } else {
                let t: u64 = acc * 10;
                if t > u64::MAX - dv as u64 {
                    overflow = true;
                } else {
                    acc = t + dv as u64;
                }
            }
        } else {
            assert(digits_value(next) > u64::MAX as int) by (nonlinear_arith)
                requires
                    digits_value(next) == 10 * digits_value(pre) + digit_val(c),
                    digit_val(c) >= 0,
                    digits_value(pre) > u64::MAX as int,
            ;
        }
        i = i + 1;
    }
    assert(d.take(s.len() - start) == d);
    if overflow {
        None
    } else {
        Some(acc)
    }
}

/// `str::parse::<u32>` on the chars `s`.
pub fn parse_u32(s: &[char]) -> (r: Option<u32>)
    ensures
        match r {
            Some(v) => parse_unsigned_seq(s@, u32::MAX as int) == Some(v as int),
            None => parse_unsigned_seq(s@, u32::MAX as int) is None,
        },
{
    match parse_u64(s) {
        Some(v) => {
            if v <= u32::MAX as u64 {
                Some(v as u32)
            } else {
                None
            }
        },
        None => None,
    }
}

// ── floating-point literal syntax ────────────────────────────────────────────

/// The index of the first `c` in `s`, or `s.len()` when there is none.
pub open spec fn find_first(s: Seq<char>, c: char) -> int
    decreases s.len(),
{
    if s.len() == 0 {
        0
    } else if s[0] == c {
        0
    } else {
        1 + find_first(s.drop_first(), c)
    }
}

/// `find_first` names the first occurrence.
pub proof fn lemma_find_first(s: Seq<char>, c: char, i: int)
    requires
        0 <= i <= s.len(),
        forall|k: int| 0 <= k < i ==> s[k] != c,
        i == s.len() || s[i] == c,
    ensures
        find_first(s, c) == i,
    decreases s.len(),
{
    if s.len() > 0 && i > 0 {
        assert forall|k: int| 0 <= k < i - 1 implies s.drop_first()[k] != c by {
            assert(s.drop_first()[k] == s[k + 1]);
        }
        lemma_find_first(s.drop_first(), c, i - 1);
    }
}

/// `s` with an optional leading sign left out.
pub open spec fn sign_stripped(s: Seq<char>) -> Seq<char> {
    if s.len() > 0 && (s[0] == '+' || s[0] == '-') {
        s.drop_first()
    } else {
        s
    }
}

/// `Digit+ | Digit+ '.' Digit* | Digit* '.' Digit+`.
pub open spec fn is_mantissa(m: Seq<char>) -> bool {
    let d = find_first(m, '.');
    if d >= m.len() {
        m.len() >= 1 && all_digits(m)
    } else {
        all_digits(m.take(d)) && all_digits(m.skip(d + 1)) && m.len() >= 2
    }
}

/// `Sign? Digit+`, what follows the `'e'` of an exponent.
pub open spec fn is_exponent(x: Seq<char>) -> bool {
    let b = sign_stripped(x);
    b.len() >= 1 && all_digits(b)
}

/// `Number ::= Mantissa Exp?` (lower-cased input).
pub open spec fn is_number(b: Seq<char>) -> bool {
    let e = find_first(b, 'e');
    if e >= b.len() {
        is_mantissa(b)
    } else {
        is_mantissa(b.take(e)) && is_exponent(b.skip(e + 1))
    }
}

/// `s` with ASCII letters in lower case.
pub open spec fn lower_seq(s: Seq<char>) -> Seq<char> {
    s.map_values(|c: char| ascii_lower(c))
}

/// The text is accepted by `str::parse::<f64>`: once lower-cased it has the form
/// `Sign? ( 'inf' | 'infinity' | 'nan' | Number )`, with no surrounding space.
pub open spec fn is_float_seq(s: Seq<char>) -> bool {
    let b = sign_stripped(lower_seq(s));
    b == seq!['i', 'n', 'f'] || b == seq!['i', 'n', 'f', 'i', 'n', 'i', 't', 'y'] || b == seq![
        'n',
        'a',
        'n',
    ] || is_number(b)
}

/// A sign as a literal may start with it: none, `'+'` or `'-'`.
pub open spec fn is_sign_text(s: Seq<char>) -> bool {
    s == Seq::<char>::empty() || s == seq!['+'] || s == seq!['-']
}

/// `Digit+`, `Digit+ '.' Digit*` and `Digit* '.' Digit+` are mantissas,
/// whatever the number of digits on either side of the point.
proof fn lemma_mantissa_shapes(i: Seq<char>, f: Seq<char>)
    requires
        all_digits(i),
        all_digits(f),
    ensures
        i.len() >= 1 ==> is_mantissa(i),
        i.len() + f.len() >= 1 ==> is_mantissa(i + seq!['.'] + f),
{
    if i.len() >= 1 {
        lemma_find_first(i, '.', i.len() as int);
    }
    let m = i + seq!['.'] + f;
    assert forall|k: int| 0 <= k < i.len() implies m[k] != '.' by {
        assert(m[k] == i[k]);
    }
    lemma_find_first(m, '.', i.len() as int);
    assert(m.take(i.len() as int) == i);
    assert(m.skip(i.len() as int + 1) == f);
}

/// Lower-casing leaves a text without ASCII capitals as it is.
proof fn lemma_lower_no_capitals(s: Seq<char>)
    requires
        forall|k: int| 0 <= k < s.len() ==> !('A' <= #[trigger] s[k] && s[k] <= 'Z'),
    ensures
        lower_seq(s) == s,
{
    assert(lower_seq(s) =~= s);
}

/// Digits, points and signs are not capitals and not `'e'`.
proof fn lemma_plain_chars(s: Seq<char>)
    requires
        forall|k: int| 0 <= k < s.len() ==> is_digit(#[trigger] s[k]) || s[k] == '.' || s[k] == '+' || s[k] == '-',
    ensures
        lower_seq(s) == s,
        find_first(s, 'e') == s.len(),
{
    lemma_lower_no_capitals(s);
    lemma_find_first(s, 'e', s.len() as int);
}

/// Every plain decimal literal is a float to `str::parse::<f64>`: an optional
/// sign, then digits with or without a decimal point (at least one digit),
/// with no limit on how many digits stand before or after the point.
pub proof fn lemma_decimal_literal_is_float(sign: Seq<char>, i: Seq<char>, f: Seq<char>)
    requires
        is_sign_text(sign),
        all_digits(i),
        all_digits(f),
    ensures
        i.len() >= 1 ==> is_float_seq(sign + i),
        i.len() + f.len() >= 1 ==> is_float_seq(sign + i + seq!['.'] + f),
{
    lemma_mantissa_shapes(i, f);
    if i.len() >= 1 {
        let s = sign + i;
        lemma_plain_chars(s);
        assert(sign_stripped(s) == i) by {
            if sign.len() == 0 {
                assert(s == i);
                assert(is_digit(i[0]));
            } else {
                assert(s.drop_first() == i);
            }
        }
        lemma_plain_chars(i);
    }
    if i.len() + f.len() >= 1 {
        let m = i + seq!['.'] + f;
        let s = sign + m;
        assert(s == sign + i + seq!['.'] + f);
        assert forall|k: int| 0 <= k < s.len() implies is_digit(#[trigger] s[k]) || s[k] == '.' || s[k]
            == '+' || s[k] == '-' by {
            if k >= sign.len() + i.len() + 1 {
                assert(s[k] == f[k - sign.len() - i.len() - 1]);
            } else if k >= sign.len() && k < sign.len() + i.len() {
                assert(s[k] == i[k - sign.len()]);
            }
        }
        lemma_plain_chars(s);
        assert(sign_stripped(s) == m) by {
            if sign.len() == 0 {
                assert(s == m);
                assert(is_digit(m[0]) || m[0] == '.');
            } else {
                assert(s.drop_first() == m);
            }
        }
        assert forall|k: int| 0 <= k < m.len() implies is_digit(#[trigger] m[k]) || m[k] == '.' || m[k]
            == '+' || m[k] == '-' by {
            assert(m[k] == s[k + sign.len()]);
        }
        lemma_plain_chars(m);
    }
}

/// The mantissa of a literal: digits, or digits around a decimal point, with
/// at least one digit.
pub open spec fn mantissa_text(i: Seq<char>, f: Seq<char>, point: bool) -> Seq<char> {
    if point {
        i + seq!['.'] + f
    } else {
        i
    }
}

/// A literal with an exponent is a float to `str::parse::<f64>` too: an
/// optional sign, a mantissa as above, `'e'` or `'E'`, an optional sign and at
/// least one digit.
pub proof fn lemma_exponent_literal_is_float(
    sign: Seq<char>,
    i: Seq<char>,
    f: Seq<char>,
    point: bool,
    e: char,
    esign: Seq<char>,
    ed: Seq<char>,
)
    requires
        is_sign_text(sign),
        all_digits(i),
        all_digits(f),
        if point { i.len() + f.len() >= 1 } else { i.len() >= 1 },
        e == 'e' || e == 'E',
        is_sign_text(esign),
        ed.len() >= 1,
        all_digits(ed),
    ensures
        is_float_seq(sign + mantissa_text(i, f, point) + seq![e] + esign + ed),
{
    lemma_mantissa_shapes(i, f);
    let m = mantissa_text(i, f, point);
    let x = esign + ed;
    let s = sign + m + seq![e] + x;
    let l = sign + m + seq!['e'] + x;
    assert(sign + m + seq![e] + esign + ed == s);
    assert forall|k: int| 0 <= k < m.len() implies is_digit(#[trigger] m[k]) || m[k] == '.' by {
        if point {
            if k < i.len() {
                assert(m[k] == i[k]);
            } else if k > i.len() {
                assert(m[k] == f[k - i.len() - 1]);
            }
        } else {
            assert(m[k] == i[k]);
        }
    }
    assert forall|k: int| 0 <= k < x.len() implies is_digit(#[trigger] x[k]) || x[k] == '+' || x[k] == '-' by {
        if k >= esign.len() {
            assert(x[k] == ed[k - esign.len()]);
        }
    }
    // lower-casing turns the exponent mark into 'e' and keeps the rest
    assert(lower_seq(s) =~= l) by {
        assert forall|k: int| 0 <= k < s.len() implies #[trigger] lower_seq(s)[k] == l[k] by {
            let o = sign.len() + m.len();
            if k < sign.len() {
                assert(s[k] == sign[k]);
            } else if k < o {
                assert(s[k] == m[k - sign.len()]);
            } else if k == o {
                assert(s[k] == e);
            } else {
                assert(s[k] == x[k - o - 1]);
            }
        }
    }
    let b = m + seq!['e'] + x;
    assert(sign_stripped(l) == b) by {
        if sign.len() == 0 {
            assert(l == b);
            assert(m[0] == b[0]);
        } else {
            assert(l.drop_first() == b);
        }
    }
    assert forall|k: int| 0 <= k < m.len() implies b[k] != 'e' by {
        assert(b[k] == m[k]);
    }
    lemma_find_first(b, 'e', m.len() as int);
    assert(b.take(m.len() as int) == m);
    assert(b.skip(m.len() as int + 1) == x);
    assert(sign_stripped(x) == ed) by {
        if esign.len() == 0 {
            assert(x == ed);
            assert(is_digit(ed[0]));
        } else {
            assert(x.drop_first() == ed);
        }
    }
}

/// The index of the first `c` in `s`.
fn find_first_index(s: &[char], c: char) -> (r: usize)
    ensures
        r as int == find_first(s@, c),
        r <= s@.len(),
{
    let mut i: usize = 0;
    while i < s.len() && s[i] != c
        invariant
            i <= s@.len(),
            forall|k: int| 0 <= k < i ==> s@[k] != c,
        decreases s.len() - i,
    {
        i = i + 1;
    }
    proof {
        lemma_find_first(s@, c, i as int);
    }
    i
}

/// Every char of `s` is a digit.
fn all_digits_exec(s: &[char]) -> (r: bool)
    ensures
        r == all_digits(s@),
{
    let mut i: usize = 0;
    while i < s.len()
        invariant
            i <= s@.len(),
            forall|k: int| 0 <= k < i ==> is_digit(s@[k]),
        decreases s.len() - i,
    {
        if !('0' <= s[i] && s[i] <= '9') {
            return false;
        }
        i = i + 1;
    }
    true
}

/// The first `k` chars of `s`.
fn take_chars(s: &[char], k: usize) -> (r: Vec<char>)
    requires
        k <= s@.len(),
    ensures
        r@ == s@.take(k as int),
{
    let mut r: Vec<char> = Vec::new();
    let mut i: usize = 0;
    while i < k
        invariant
            k <= s@.len(),
            i <= k,
            r@ == s@.take(i as int),
        decreases k - i,
    {
        r.push(s[i]);
        assert(s@.take(i + 1) == s@.take(i as int).push(s@[i as int]));
        i = i + 1;
    }
    r
}

fn strip_sign(s: &[char]) -> (r: Vec<char>)
    ensures
        r@ == sign_stripped(s@),
{
    if s.len() > 0 && (s[0] == '+' || s[0] == '-') {
        skip_chars(s, 1)
    } else {
        skip_chars(s, 0)
    }
}

fn mantissa_ok(m: &[char]) -> (r: bool)
    ensures
        r == is_mantissa(m@),
{
    let d = find_first_index(m, '.');
    if d >= m.len() {
        m.len() >= 1 && all_digits_exec(m)
    } else {
        let ip = take_chars(m, d);
        let fp = skip_chars(m, d + 1);
        all_digits_exec(&ip) && all_digits_exec(&fp) && m.len() >= 2
    }
}

fn number_ok(b: &[char]) -> (r: bool)
    ensures
        r == is_number(b@),
{
    let e = find_first_index(b, 'e');
    if e >= b.len() {
        mantissa_ok(b)
    } else {
        let m = take_chars(b, e);
        let x = skip_chars(b, e + 1);
        let xb = strip_sign(&x);
        mantissa_ok(&m) && xb.len() >= 1 && all_digits_exec(&xb)
    }
}

fn same_chars(a: &[char], b: &[char]) -> (r: bool)
    ensures
        r == (a@ == b@),
{
    if a.len() != b.len() {
        return false;
    }
    let mut i: usize = 0;
    while i < a.len()
        invariant
            a@.len() == b@.len(),
            i <= a@.len(),
            forall|k: int| 0 <= k < i ==> a@[k] == b@[k],
        decreases a.len() - i,
    {
        if a[i] != b[i] {
            return false;
        }
        i = i + 1;
    }
    assert(a@ =~= b@);
    true
}

/// The chars `s` form a literal that `str::parse::<f64>` accepts.
pub fn is_float_text(s: &[char]) -> (r: bool)
    ensures
        r == is_float_seq(s@),
{
    let mut low: Vec<char> = Vec::new();
    let mut i: usize = 0;
    while i < s.len()
        invariant
            i <= s@.len(),
            low@ == lower_seq(s@.take(i as int)),
        decreases s.len() - i,
    {
        low.push(ascii_lower_char(s[i]));
        assert(lower_seq(s@.take(i + 1)) =~= lower_seq(s@.take(i as int)).push(ascii_lower(s@[i as int])));
        i = i + 1;
    }
    assert(s@.take(s@.len() as int) == s@);
    let b = strip_sign(&low);
    let inf = ['i', 'n', 'f'];
    let infinity = ['i', 'n', 'f', 'i', 'n', 'i', 't', 'y'];
    let nan = ['n', 'a', 'n'];
    assert(inf@ == seq!['i', 'n', 'f']);
    assert(infinity@ == seq!['i', 'n', 'f', 'i', 'n', 'i', 't', 'y']);
    assert(nan@ == seq!['n', 'a', 'n']);
    same_chars(&b, &inf) || same_chars(&b, &infinity) || same_chars(&b, &nan) || number_ok(&b)
}

// ── decimal rendering ────────────────────────────────────────────────────────

/// The ASCII char of a decimal digit.
pub open spec fn digit_char(d: int) -> char {
    (d + 48) as char
}

/// The decimal digits of `n`, most significant first, without leading zeros
/// (what `{}` prints for an unsigned integer).
pub open spec fn decimal_seq(n: nat) -> Seq<char>
    decreases n,
{
    if n < 10 {
        seq![digit_char(n as int)]
    } else {
        decimal_seq(n / 10).push(digit_char((n % 10) as int))
    }
}

/// `n` printed with `{:02}`: at least two digits, zero-padded.
pub open spec fn pad2_seq(n: nat) -> Seq<char> {
    if n < 10 {
        seq!['0'] + decimal_seq(n)
    } else {
        decimal_seq(n)
    }
}

/// A printed digit reads back as its value.
pub proof fn lemma_digit_char(d: int)
    requires
        0 <= d < 10,
    ensures
        is_digit(digit_char(d)),
        digit_val(digit_char(d)) == d,
{
    assert(((d + 48) as char) as int == d + 48);
}

/// The decimal text of `n` is a non-empty string of digits whose value is `n`.
pub proof fn lemma_decimal_reads_back(n: nat)
    ensures
        decimal_seq(n).len() >= 1,
        all_digits(decimal_seq(n)),
        digits_value(decimal_seq(n)) == n,
    decreases n,
{
    let s = decimal_seq(n);
    if n < 10 {
        lemma_digit_char(n as int);
        assert(s.drop_last() =~= Seq::<char>::empty());
        assert(digits_value(s.drop_last()) == 0);
        assert(digits_value(s) == 10 * digits_value(s.drop_last()) + digit_val(s.last()));
    } else {
        lemma_decimal_reads_back(n / 10);
        lemma_digit_char((n % 10) as int);
        let p = decimal_seq(n / 10);
        assert(s.drop_last() == p);
        assert(s.last() == digit_char((n % 10) as int));
        assert(digits_value(s) == 10 * digits_value(p) + digit_val(s.last()));
        assert forall|k: int| 0 <= k < decimal_seq(n).len() implies is_digit(#[trigger] decimal_seq(n)[k]) by {
            if k < p.len() {
                assert(decimal_seq(n)[k] == p[k]);
            }
        }
    }
}

/// A number below 100 printed with `{:02}` is two digits whose value is the
/// number.
pub proof fn lemma_pad2_reads_back(n: nat)
    requires
        n < 100,
    ensures
        pad2_seq(n).len() == 2,
        all_digits(pad2_seq(n)),
        digits_value(pad2_seq(n)) == n,
{
    lemma_decimal_reads_back(n);
    if n < 10 {
        lemma_digit_char(0);
        lemma_digit_char(n as int);
        let s = pad2_seq(n);
        assert(s.drop_last() =~= seq!['0']);
        assert(seq!['0'].drop_last() =~= Seq::<char>::empty());
        assert(digits_value(Seq::<char>::empty()) == 0);
        assert(digits_value(seq!['0']) == 10 * digits_value(seq!['0'].drop_last()) + digit_val('0'));
        assert(digit_char(0) == '0');
        assert(s.last() == digit_char(n as int));
        assert(digits_value(s) == 10 * digits_value(s.drop_last()) + digit_val(s.last()));
        assert forall|k: int| 0 <= k < s.len() implies is_digit(#[trigger] s[k]) by {
            if k == 1 {
                assert(s[1] == digit_char(n as int));
            }
        }
    } else {
        assert(decimal_seq(n / 10).len() == 1);
    }
}

/// A signed integer printed with `{}`.
pub open spec fn signed_decimal_seq(n: int) -> Seq<char> {
    if n < 0 {
        seq!['-'] + decimal_seq((-n) as nat)
    } else {
        decimal_seq(n as nat)
    }
}

/// The char of the digit `d`.
fn digit_to_char(d: u64) -> (c: char)
    requires
        d < 10,
    ensures
        c == digit_char(d as int),
{
    let b: u8 = (d as u8) + 48;
    b as char
}

/// Appends the decimal digits of `n` to `out`.
pub fn push_decimal(out: &mut Vec<char>, n: u64)
    ensures
        final(out)@ == old(out)@ + decimal_seq(n as nat),
    decreases n,
{
    if n < 10 {
        out.push(digit_to_char(n));
    } else {
        push_decimal(out, n / 10);
        out.push(digit_to_char(n % 10));
    }
}

/// Appends `n` zero-padded to two digits.
pub fn push_pad2(out: &mut Vec<char>, n: u64)
    ensures
        final(out)@ == old(out)@ + pad2_seq(n as nat),
{
    if n < 10 {
        out.push('0');
    }
    push_decimal(out, n);
}

/// Appends the signed decimal text of `n`.
pub fn push_signed_decimal(out: &mut Vec<char>, n: i64)
    ensures
        final(out)@ == old(out)@ + signed_decimal_seq(n as int),
{
    if n < 0 {
        out.push('-');
        let m: u64 = if n == i64::MIN {
            9223372036854775808u64
        } else {
            (-n) as u64
        };
        push_decimal(out, m);
    } else {
        push_decimal(out, n as u64);
    }
}

} // verus!
