//! The numeric side of the scalar grammar: what counts as a 64-bit integer
//! token or as a floating-point token, the integer's value, and the decimal
//! rendering of an integer.

use vstd::prelude::*;

use crate::text::{find_c, lemma_find_c, lemma_find_c_take, find_char_from};

verus! {

pub open spec fn is_digit(c: char) -> bool {
    '0' <= c && c <= '9'
}

pub open spec fn digit_val(c: char) -> int {
    c as int - '0' as int
}

pub open spec fn all_digits(s: Seq<char>) -> bool {
    forall|i: int| 0 <= i < s.len() ==> is_digit(#[trigger] s[i])
}

/// The number a digit string denotes, most significant digit first.
pub open spec fn digits_val(s: Seq<char>) -> int
    decreases s.len(),
{
    if s.len() == 0 {
        0
    } else {
        digits_val(s.drop_last()) * 10 + digit_val(s.last())
    }
}

/// The token with one leading `+` or `-` removed.
pub open spec fn sign_body(s: Seq<char>) -> Seq<char> {
    if s.len() > 0 && (s[0] == '+' || s[0] == '-') {
        s.drop_first()
    } else {
        s
    }
}

pub open spec fn is_negative(s: Seq<char>) -> bool {
    s.len() > 0 && s[0] == '-'
}

/// The grammar of a 64-bit integer token: an optional sign, then one or more
/// digits and nothing else.
pub open spec fn int_grammar(s: Seq<char>) -> bool {
    sign_body(s).len() > 0 && all_digits(sign_body(s))
}

pub open spec fn int_value(s: Seq<char>) -> int {
    if is_negative(s) {
        -digits_val(sign_body(s))
    } else {
        digits_val(sign_body(s))
    }
}

/// What parsing the token as a 64-bit integer yields: its value when the
/// grammar matches and the value fits, nothing otherwise.
pub open spec fn parse_int_s(s: Seq<char>) -> Option<int> {
    if int_grammar(s) && i64::MIN <= int_value(s) <= i64::MAX {
        Some(int_value(s))
    } else {
        None
    }
}

pub proof fn lemma_digits_val_nonneg(s: Seq<char>)
    requires
        all_digits(s),
    ensures
        digits_val(s) >= 0,
    decreases s.len(),
{
    if s.len() > 0 {
        assert(all_digits(s.drop_last())) by {
            assert(forall|i: int|
                0 <= i < s.len() - 1 ==> s.drop_last()[i] == #[trigger] s[i]);
        }
        lemma_digits_val_nonneg(s.drop_last());
    }
}

/// Appending a digit multiplies by ten and adds it.
pub proof fn lemma_digits_val_take(s: Seq<char>, k: int)
    requires
        0 <= k < s.len(),
    ensures
        digits_val(s.take(k + 1)) == digits_val(s.take(k)) * 10 + digit_val(s[k]),
{
    assert(s.take(k + 1).drop_last() =~= s.take(k));
    assert(s.take(k + 1).last() == s[k]);
}

// --- executable parsing ---

/// A cap above any magnitude a 64-bit integer can have; the accumulator
/// saturates here, which keeps every later digit from overflowing it.
const CAP: u128 = 0x1_0000_0000_0000_0000;

/// Parse the token as a 64-bit signed integer, exactly as the integer
/// grammar and range admit it.
pub fn parse_int(v: &Vec<char>) -> (r: Option<i64>)
    ensures
        match r {
            Some(n) => parse_int_s(v@) == Some(n as int),
            None => parse_int_s(v@) is None,
        },
{
    let n = v.len();
    let neg = n > 0 && v[0] == '-';
    let start: usize = if n > 0 && (v[0] == '+' || v[0] == '-') {
        1
    } else {
        0
    };
    let ghost body = sign_body(v@);
    proof {
        assert(body =~= v@.skip(start as int));
    }
    if start == n {
        // no digits at all
        return None;
    }
    let mut acc: u128 = 0;
    let mut i: usize = start;
    while i < n
        invariant
            start <= i <= n,
            n == v@.len(),
            start < n,
            body == v@.skip(start as int),
            body == sign_body(v@),
            all_digits(body.take(i - start)),
            digits_val(body.take(i - start)) < CAP ==> acc == digits_val(body.take(i - start)),
            digits_val(body.take(i - start)) >= CAP ==> acc == CAP,
            acc <= CAP,
        decreases n - i,
    {
        let c = v[i];
        if !('0' <= c && c <= '9') {
            proof {
                assert(body[i - start] == v@[i as int]);
                assert(!is_digit(body[i - start]));
                assert(!all_digits(body));
                assert(!int_grammar(v@));
            }
            return None;
        }
        let d: u128 = (c as u32 - '0' as u32) as u128;
        let ghost pfx = body.take(i - start);
        let ghost full = digits_val(pfx) * 10 + digit_val(c as char);
        proof {
            assert(body[i - start] == v@[i as int]);
            lemma_digits_val_take(body, i - start);
            assert(all_digits(body.take(i - start + 1))) by {
                assert(forall|j: int|
                    0 <= j < i - start + 1 ==> body.take(i - start + 1)[j] == #[trigger] body.take(
                        i - start + 1,
                    )[j]);
                assert(forall|j: int|
                    0 <= j < i - start ==> body.take(i - start + 1)[j] == pfx[j]);
                assert(body.take(i - start + 1)[i - start] == body[i - start]);
            }
            lemma_digits_val_nonneg(pfx);
            if digits_val(pfx) >= CAP {
                assert(digits_val(pfx) * 10 >= CAP * 10) by (nonlinear_arith)
                    requires digits_val(pfx) >= CAP;
                assert(full >= CAP);
            }
        }
        let t: u128 = acc * 10 + d;
        acc = if t > CAP {
            CAP
        } else {
            t
        };
        i += 1;
    }
    proof {
        assert(body.take(n - start) =~= body);
        lemma_digits_val_nonneg(body);
    }
    if neg {
        if acc > 0x8000_0000_0000_0000u128 {
            return None;
        }
        if acc == 0x8000_0000_0000_0000u128 {
            return Some(i64::MIN);
        }
        Some(-(acc as i64))
    } else {
        if acc > 0x7fff_ffff_ffff_ffffu128 {
            return None;
        }
        Some(acc as i64)
    }
}

// --- rendering ---

pub open spec fn digit_char(d: int) -> char {
    ((d + 48) as u8) as char
}

/// The decimal digits of a non-negative number, most significant first.
pub open spec fn digits_of(n: int) -> Seq<char>
    decreases n,
{
    if n < 10 {
        seq![digit_char(n)]
    } else {
        digits_of(n / 10).push(digit_char(n % 10))
    }
}

/// The decimal rendering of an integer: a `-` for a negative one, then its
/// digits with no leading zero.
pub open spec fn int_text(i: int) -> Seq<char> {
    if i < 0 {
        seq!['-'] + digits_of(-i)
    } else {
        digits_of(i)
    }
}

pub proof fn lemma_digit_char(d: int)
    requires
        0 <= d <= 9,
    ensures
        digit_val(digit_char(d)) == d,
        is_digit(digit_char(d)),
{
    assert(((d + 48) as u8) as char as int == d + 48);
}

fn digit_exec(d: u64) -> (c: char)
    requires
        d < 10,
    ensures
        c == digit_char(d as int),
{
    ((d as u8) + 48) as char
}

/// Append the decimal digits of `m`.
fn push_digits(m: u64, out: &mut Vec<char>)
    ensures
        final(out)@ == old(out)@ + digits_of(m as int),
    decreases m,
{
    if m < 10 {
        out.push(digit_exec(m));
        proof {
            assert(out@ =~= old(out)@ + digits_of(m as int));
        }
    } else {
        proof {
            assert(m / 10 < m) by (nonlinear_arith)
                requires m >= 10;
        }
        push_digits(m / 10, out);
        out.push(digit_exec(m % 10));
        proof {
            assert(out@ =~= old(out)@ + digits_of(m as int));
        }
    }
}

/// The decimal rendering of `i`, as [`int_text`] gives it.
pub fn int_to_chars(i: i64, out: &mut Vec<char>)
    ensures
        final(out)@ == old(out)@ + int_text(i as int),
{
    if i >= 0 {
        push_digits(i as u64, out);
    } else {
        out.push('-');
        let m: u64 = if i == i64::MIN {
            0x8000_0000_0000_0000u64
        } else {
            (-i) as u64
        };
        push_digits(m, out);
        proof {
            assert(out@ =~= old(out)@ + int_text(i as int));
        }
    }
}

// --- the integer round trip ---

pub proof fn lemma_digits_of_are_digits(n: int)
    requires
        n >= 0,
    ensures
        all_digits(digits_of(n)),
        digits_of(n).len() > 0,
    decreases n,
{
    if n < 10 {
    } else {
        lemma_digits_of_are_digits(n / 10);
        let s = digits_of(n);
        assert forall|i: int| 0 <= i < s.len() implies is_digit(s[i]) by {
            if i < s.len() - 1 {
                assert(s[i] == digits_of(n / 10)[i]);
            }
        }
    }
}

/// Reading the digits of `n` back gives `n`.
pub proof fn lemma_digits_val_of_digits(n: int)
    requires
        n >= 0,
    ensures
        digits_val(digits_of(n)) == n,
    decreases n,
{
    if n < 10 {
        lemma_digit_char(n);
        assert(digits_of(n) == seq![digit_char(n)]);
        assert(digits_val(digits_of(n)) == digits_val(seq![digit_char(n)].drop_last()) * 10
            + digit_val(digit_char(n)));
        assert(seq![digit_char(n)].drop_last() =~= Seq::<char>::empty());
    } else {
        lemma_digits_val_of_digits(n / 10);
        lemma_digit_char(n % 10);
        assert(digits_of(n).drop_last() =~= digits_of(n / 10));
        assert(digits_of(n).last() == digit_char(n % 10));
        assert(digits_val(digits_of(n)) == (n / 10) * 10 + (n % 10));
    }
}

/// The decimal rendering of any 64-bit integer parses back to it.
pub proof fn lemma_int_roundtrip(i: int)
    requires
        i64::MIN <= i <= i64::MAX,
    ensures
        parse_int_s(int_text(i)) == Some(i),
{
    if i >= 0 {
        lemma_digits_of_are_digits(i);
        lemma_digits_val_of_digits(i);
        let s = int_text(i);
        assert(s[0] != '+' && s[0] != '-') by {
            assert(is_digit(s[0]));
        }
        assert(sign_body(s) == s);
    } else {
        lemma_digits_of_are_digits(-i);
        lemma_digits_val_of_digits(-i);
        let s = int_text(i);
        assert(s[0] == '-');
        assert(sign_body(s) =~= digits_of(-i));
        assert(is_negative(s));
        assert(int_value(s) == i);
    }
}

/// The first character of a rendered integer is a digit or a minus sign.
pub proof fn lemma_int_text_head(i: int)
    ensures
        int_text(i).len() > 0,
        int_text(i)[0] == '-' || is_digit(int_text(i)[0]),
{
    if i < 0 {
    } else {
        lemma_digits_of_are_digits(i);
    }
}

// --- the float grammar ---

/// `c` equals the lower-case ASCII letter `l`, in either case.
pub open spec fn ci(c: char, l: char) -> bool {
    c == l || c as int == l as int - 32
}

/// `s` spells the word `w` (a lower-case word), case-insensitively.
pub open spec fn is_word_ci(s: Seq<char>, w: Seq<char>) -> bool {
    s.len() == w.len() && forall|i: int| 0 <= i < s.len() ==> ci(#[trigger] s[i], w[i])
}

/// The index of the first exponent marker (`e` or `E`), or `s.len()`.
pub open spec fn find_e(s: Seq<char>) -> int
    decreases s.len(),
{
    if s.len() == 0 {
        0
    } else if s[0] == 'e' || s[0] == 'E' {
        0
    } else {
        1 + find_e(s.drop_first())
    }
}

pub proof fn lemma_find_e(s: Seq<char>)
    ensures
        0 <= find_e(s) <= s.len(),
        forall|i: int| 0 <= i < find_e(s) ==> s[i] != 'e' && s[i] != 'E',
        find_e(s) < s.len() ==> s[find_e(s)] == 'e' || s[find_e(s)] == 'E',
    decreases s.len(),
{
    if s.len() == 0 || s[0] == 'e' || s[0] == 'E' {
    } else {
        lemma_find_e(s.drop_first());
        assert forall|i: int| 0 <= i < find_e(s) implies s[i] != 'e' && s[i] != 'E' by {
            if i > 0 {
                assert(s.drop_first()[i - 1] == s[i]);
            }
        }
        if find_e(s) < s.len() {
            assert(s.drop_first()[find_e(s) - 1] == s[find_e(s)]);
        }
    }
}

/// The mantissa-with-exponent part of the float grammar: digits with at most
/// one decimal point and at least one digit, then an optional exponent of one
/// or more digits with an optional sign.
pub open spec fn float_number(b: Seq<char>) -> bool {
    let ei = find_e(b);
    let mant = b.take(ei);
    let di = find_c(mant, '.');
    let ipart = mant.take(di);
    let fpart = if di == mant.len() {
        Seq::<char>::empty()
    } else {
        mant.skip(di + 1)
    };
    &&& all_digits(ipart)
    &&& all_digits(fpart)
    &&& ipart.len() + fpart.len() > 0
    &&& (ei < b.len() ==> {
        let ex = sign_body(b.skip(ei + 1));
        ex.len() > 0 && all_digits(ex)
    })
}

/// The grammar of a floating-point token, as a 64-bit float parses: an
/// optional sign, then `inf`, `infinity` or `nan` in any case, or a decimal
/// number with optional fraction and exponent.
pub open spec fn float_grammar(s: Seq<char>) -> bool {
    let b = sign_body(s);
    ||| is_word_ci(b, seq!['i', 'n', 'f'])
    ||| is_word_ci(b, seq!['i', 'n', 'f', 'i', 'n', 'i', 't', 'y'])
    ||| is_word_ci(b, seq!['n', 'a', 'n'])
    ||| float_number(b)
}

fn find_e_exec(v: &Vec<char>, from: usize) -> (r: usize)
    requires
        from <= v@.len(),
    ensures
        from <= r <= v@.len(),
        r - from == find_e(v@.skip(from as int)),
{
    let ghost t = v@.skip(from as int);
    proof {
        lemma_find_e(t);
    }
    let mut i: usize = from;
    while i < v.len() && v[i] != 'e' && v[i] != 'E'
        invariant
            from <= i <= v@.len(),
            t == v@.skip(from as int),
            forall|j: int| from <= j < i ==> v@[j] != 'e' && v@[j] != 'E',
            i - from <= find_e(t),
        decreases v@.len() - i,
    {
        proof {
            lemma_find_e(t);
            if i - from == find_e(t) {
                assert(t[find_e(t)] == v@[i as int]);
            }
        }
        i += 1;
    }
    proof {
        if i - from < find_e(t) {
            assert(t[i - from] == v@[i as int]);
        }
    }
    i
}

fn all_digits_range(v: &Vec<char>, lo: usize, hi: usize) -> (r: bool)
    requires
        lo <= hi <= v@.len(),
    ensures
        r == all_digits(v@.subrange(lo as int, hi as int)),
{
    let ghost t = v@.subrange(lo as int, hi as int);
    let mut i: usize = lo;
    while i < hi
        invariant
            lo <= i <= hi <= v@.len(),
            t == v@.subrange(lo as int, hi as int),
            forall|j: int| 0 <= j < i - lo ==> is_digit(#[trigger] t[j]),
        decreases hi - i,
    {
        let c = v[i];
        if !('0' <= c && c <= '9') {
            proof {
                assert(t[i - lo] == v@[i as int]);
            }
            return false;
        }
        proof {
            assert(t[i - lo] == v@[i as int]);
        }
        i += 1;
    }
    true
}

fn word_ci3(v: &Vec<char>, from: usize, w0: char, w1: char, w2: char) -> (r: bool)
    requires
        from <= v@.len(),
    ensures
        r == is_word_ci(v@.skip(from as int), seq![w0, w1, w2]),
{
    let ghost t = v@.skip(from as int);
    let n = v.len();
    if n - from != 3 {
        return false;
    }
    let r = ci_exec(v[from], w0) && ci_exec(v[from + 1], w1) && ci_exec(v[from + 2], w2);
    proof {
        assert(t[0] == v@[from as int]);
        assert(t[1] == v@[from + 1]);
        assert(t[2] == v@[from + 2]);
        assert(seq![w0, w1, w2][0] == w0);
        assert(seq![w0, w1, w2][1] == w1);
        assert(seq![w0, w1, w2][2] == w2);
        if r {
            assert forall|i: int| 0 <= i < t.len() implies ci(t[i], seq![w0, w1, w2][i]) by {
                assert(i == 0 || i == 1 || i == 2);
            }
        }
    }
    r
}

fn ci_exec(c: char, l: char) -> (r: bool)
    ensures
        r == ci(c, l),
{
    c == l || (c as u32) + 32 == (l as u32)
}

fn word_infinity(v: &Vec<char>, from: usize) -> (r: bool)
    requires
        from <= v@.len(),
    ensures
        r == is_word_ci(
            v@.skip(from as int),
            seq!['i', 'n', 'f', 'i', 'n', 'i', 't', 'y'],
        ),
{
    let ghost t = v@.skip(from as int);
    let ghost w = seq!['i', 'n', 'f', 'i', 'n', 'i', 't', 'y'];
    let n = v.len();
    if n - from != 8 {
        return false;
    }
    let r = ci_exec(v[from], 'i') && ci_exec(v[from + 1], 'n') && ci_exec(v[from + 2], 'f')
        && ci_exec(v[from + 3], 'i') && ci_exec(v[from + 4], 'n') && ci_exec(v[from + 5], 'i')
        && ci_exec(v[from + 6], 't') && ci_exec(v[from + 7], 'y');
    proof {
        assert(t[0] == v@[from as int] && t[1] == v@[from + 1] && t[2] == v@[from + 2] && t[3]
            == v@[from + 3] && t[4] == v@[from + 4] && t[5] == v@[from + 5] && t[6] == v@[from + 6]
            && t[7] == v@[from + 7]);
        assert(w[0] == 'i' && w[1] == 'n' && w[2] == 'f' && w[3] == 'i' && w[4] == 'n' && w[5]
            == 'i' && w[6] == 't' && w[7] == 'y');
        if r {
            assert forall|i: int| 0 <= i < t.len() implies ci(t[i], w[i]) by {
                assert(i == 0 || i == 1 || i == 2 || i == 3 || i == 4 || i == 5 || i == 6 || i
                    == 7);
            }
        } else {
            assert(!is_word_ci(t, w)) by {
                if is_word_ci(t, w) {
                    assert(ci(t[0], w[0]) && ci(t[1], w[1]) && ci(t[2], w[2]) && ci(t[3], w[3])
                        && ci(t[4], w[4]) && ci(t[5], w[5]) && ci(t[6], w[6]) && ci(t[7], w[7]));
                }
            }
        }
    }
    r
}

/// Whether the token matches the floating-point grammar.
#[verifier::rlimit(60)]
pub fn is_float_text(v: &Vec<char>) -> (r: bool)
    ensures
        r == float_grammar(v@),
{
    let n = v.len();
    let start: usize = if n > 0 && (v[0] == '+' || v[0] == '-') {
        1
    } else {
        0
    };
    let ghost b = sign_body(v@);
    proof {
        assert(b =~= v@.skip(start as int));
    }
    if word_ci3(v, start, 'i', 'n', 'f') || word_ci3(v, start, 'n', 'a', 'n')
        || word_infinity(v, start) {
        return true;
    }
    // the numeric form: mantissa, optional exponent
    let ei = find_e_exec(v, start);
    let ghost mant = b.take(find_e(b));
    proof {
        lemma_find_e(b);
        assert(mant =~= v@.subrange(start as int, ei as int));
    }
    let di = find_char_from(v, start, '.');
    let di = if di > ei {
        ei
    } else {
        di
    };
    proof {
        // the dot search in the whole token and in the mantissa agree
        lemma_find_c_take(b, '.', find_e(b));
        lemma_find_c(b, '.');
        assert(di - start == find_c(mant, '.'));
    }
    let ipart_ok = all_digits_range(v, start, di);
    let fpart_ok = if di < ei {
        all_digits_range(v, di + 1, ei)
    } else {
        true
    };
    let has_digit = di > start || di < ei && ei - (di + 1) > 0;
    let ghost dii = find_c(mant, '.');
    let ghost ipart = mant.take(dii);
    let ghost fpart = if dii == mant.len() {
        Seq::<char>::empty()
    } else {
        mant.skip(dii + 1)
    };
    proof {
        assert(ipart =~= v@.subrange(start as int, di as int));
        if dii < mant.len() {
            assert(fpart =~= v@.subrange(di + 1, ei as int));
        }
    }
    let exp_ok = if ei < n {
        let es: usize = if ei + 1 < n && (v[ei + 1] == '+' || v[ei + 1] == '-') {
            ei + 2
        } else {
            ei + 1
        };
        let ghost ex = sign_body(b.skip(find_e(b) + 1));
        proof {
            assert(b.skip(find_e(b) + 1) =~= v@.skip(ei + 1));
            assert(ex =~= v@.subrange(es as int, n as int));
        }
        es < n && all_digits_range(v, es, n)
    } else {
        true
    };
    ipart_ok && fpart_ok && has_digit && exp_ok
}

/// Every character of a token in the float grammar is a digit, a sign, a
/// dot, an exponent marker or a letter of `infinity`/`nan`; in particular,
/// no whitespace, comma, colon, quote or newline appears.
pub open spec fn float_char(c: char) -> bool {
    is_digit(c) || c == '+' || c == '-' || c == '.' || c == 'e' || c == 'E' || ci(c, 'i')
        || ci(c, 'n') || ci(c, 'f') || ci(c, 't') || ci(c, 'y') || ci(c, 'a')
}

pub proof fn lemma_float_grammar_chars(s: Seq<char>)
    requires
        float_grammar(s),
    ensures
        s.len() > 0,
        forall|i: int| 0 <= i < s.len() ==> float_char(#[trigger] s[i]),
{
    let b = sign_body(s);
    let off: int = if s.len() > 0 && (s[0] == '+' || s[0] == '-') {
        1
    } else {
        0
    };
    assert(b =~= s.skip(off));
    if is_word_ci(b, seq!['i', 'n', 'f']) || is_word_ci(
        b,
        seq!['i', 'n', 'f', 'i', 'n', 'i', 't', 'y'],
    ) || is_word_ci(b, seq!['n', 'a', 'n']) {
        assert forall|i: int| 0 <= i < s.len() implies float_char(s[i]) by {
            if i >= off {
                assert(b[i - off] == s[i]);
            }
        }
    } else {
        let ei = find_e(b);
        let mant = b.take(ei);
        let di = find_c(mant, '.');
        lemma_find_e(b);
        lemma_find_c(mant, '.');
        assert forall|i: int| 0 <= i < s.len() implies float_char(s[i]) by {
            if i >= off {
                let j = i - off;
                assert(b[j] == s[i]);
                if j < ei {
                    assert(mant[j] == b[j]);
                    if j < di {
                        assert(mant.take(di)[j] == mant[j]);
                        assert(is_digit(mant[j]));
                    } else if j == di {
                        assert(mant[di] == '.');
                    } else {
                        assert(mant.skip(di + 1)[j - di - 1] == mant[j]);
                        assert(is_digit(mant[j]));
                    }
                } else if j == ei {
                } else {
                    let tail = b.skip(ei + 1);
                    let ex = sign_body(tail);
                    let eoff: int = if tail.len() > 0 && (tail[0] == '+' || tail[0] == '-') {
                        1
                    } else {
                        0
                    };
                    assert(ex =~= tail.skip(eoff));
                    assert(tail[j - ei - 1] == b[j]);
                    if j - ei - 1 >= eoff {
                        assert(ex[j - ei - 1 - eoff] == tail[j - ei - 1]);
                        assert(is_digit(b[j]));
                    }
                }
            }
        }
    }
}

} // verus!
