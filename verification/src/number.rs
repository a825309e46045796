//! Model of the decimal number literals that both pipelines accept.
//!
//! A numeric field is the text of a decimal floating-point literal:
//! an optional sign, then either a digit run with an optional fraction
//! (`12`, `12.`, `12.5`, `.5`) followed by an optional exponent
//! (`e`/`E`, an optional sign, and a digit run).  This is the decimal
//! part of the grammar Rust's standard library documents for parsing
//! 64-bit floats; the named forms (`inf`, `nan`) cannot occur here,
//! since a literal always begins with a sign or a digit.
//!
//! Beyond recognition, the model decides whether a literal denotes a
//! mathematical integer (used by the tabular pipeline to pick the
//! integer subtype) and gives its value truncated toward zero (used by
//! the typed integer projection), both defined purely over the digits
//! and the exponent.
use vstd::prelude::*;

verus! {

pub open spec fn is_digit(c: char) -> bool {
    '0' <= c && c <= '9'
}

pub open spec fn digit_val(c: char) -> nat {
    ((c as int) - ('0' as int)) as nat
}

pub open spec fn all_digits(s: Seq<char>) -> bool {
    forall|i: int| 0 <= i < s.len() ==> is_digit(s[i])
}

pub open spec fn digits1(s: Seq<char>) -> bool {
    s.len() >= 1 && all_digits(s)
}

pub open spec fn all_zero(s: Seq<char>) -> bool {
    forall|i: int| 0 <= i < s.len() ==> s[i] == '0'
}

/// Value of a digit string read in base ten (empty reads as zero).
pub open spec fn digits_val(s: Seq<char>) -> nat
    decreases s.len(),
{
    if s.len() == 0 {
        0
    } else {
        digits_val(s.drop_last()) * 10 + digit_val(s.last())
    }
}

pub open spec fn pow10(k: nat) -> nat
    decreases k,
{
    if k == 0 {
        1
    } else {
        10 * pow10((k - 1) as nat)
    }
}

/// An exponent part, after the `e`/`E`: an optional sign, then digits.
pub open spec fn exp_part_ok(s: Seq<char>) -> bool {
    if s.len() >= 1 && (s[0] == '+' || s[0] == '-') {
        digits1(s.skip(1))
    } else {
        digits1(s)
    }
}

/// A mantissa: digits with an optional point, at least one digit in all.
pub open spec fn mantissa_ok(m: Seq<char>) -> bool {
    digits1(m) || (exists|k: int|
        0 <= k < m.len() && m[k] == '.' && all_digits(m.take(k)) && all_digits(m.skip(k + 1)) && (k
            >= 1 || m.len() >= 2))
}

/// A literal body (after the sign): a mantissa, optionally followed by
/// an exponent marker and an exponent part.
pub open spec fn body_ok(t: Seq<char>) -> bool {
    mantissa_ok(t) || (exists|k: int|
        0 <= k < t.len() && (t[k] == 'e' || t[k] == 'E') && mantissa_ok(t.take(k)) && exp_part_ok(
            t.skip(k + 1),
        ))
}

pub open spec fn sign_len(s: Seq<char>) -> int {
    if s.len() >= 1 && (s[0] == '+' || s[0] == '-') {
        1
    } else {
        0
    }
}

/// Whether a character sequence is a well-formed decimal number literal.
pub open spec fn is_number_literal(s: Seq<char>) -> bool {
    body_ok(s.skip(sign_len(s)))
}

pub open spec fn literal_is_negative(s: Seq<char>) -> bool {
    s.len() >= 1 && s[0] == '-'
}

/// First position at or after `i` holding the exponent marker.
pub open spec fn e_index(s: Seq<char>, i: int) -> int
    decreases s.len() - i,
{
    if i < 0 || i >= s.len() {
        s.len() as int
    } else if s[i] == 'e' || s[i] == 'E' {
        i
    } else {
        e_index(s, i + 1)
    }
}

/// First position at or after `i` holding the decimal point.
pub open spec fn dot_index(s: Seq<char>, i: int) -> int
    decreases s.len() - i,
{
    if i < 0 || i >= s.len() {
        s.len() as int
    } else if s[i] == '.' {
        i
    } else {
        dot_index(s, i + 1)
    }
}

pub open spec fn literal_body(s: Seq<char>) -> Seq<char> {
    s.skip(sign_len(s))
}

pub open spec fn mantissa_part(s: Seq<char>) -> Seq<char> {
    literal_body(s).take(e_index(literal_body(s), 0))
}

/// The exponent's signed value (zero when there is no exponent part).
pub open spec fn exp_value(s: Seq<char>) -> int {
    let b = literal_body(s);
    let e = e_index(b, 0);
    if e >= b.len() {
        0
    } else {
        let x = b.skip(e + 1);
        if x.len() >= 1 && x[0] == '-' {
            -(digits_val(x.skip(1)) as int)
        } else if x.len() >= 1 && x[0] == '+' {
            digits_val(x.skip(1)) as int
        } else {
            digits_val(x) as int
        }
    }
}

pub open spec fn int_digits(s: Seq<char>) -> Seq<char> {
    let m = mantissa_part(s);
    m.take(dot_index(m, 0))
}

pub open spec fn frac_digits(s: Seq<char>) -> Seq<char> {
    let m = mantissa_part(s);
    let d = dot_index(m, 0);
    if d >= m.len() {
        Seq::empty()
    } else {
        m.skip(d + 1)
    }
}

/// All significant digits, integer part then fraction, in order.
pub open spec fn sig_digits(s: Seq<char>) -> Seq<char> {
    int_digits(s) + frac_digits(s)
}

/// Power-of-ten shift that places the decimal point: the literal's
/// magnitude is `digits_val(sig_digits) * 10^shift` (with a negative
/// shift read as division).
pub open spec fn shift_of(s: Seq<char>) -> int {
    exp_value(s) - frac_digits(s).len()
}

/// Whether the literal's mathematical value is an integer.
pub open spec fn denotes_integer(s: Seq<char>) -> bool {
    let d = sig_digits(s);
    let m = shift_of(s);
    m >= 0 || all_zero(d.skip(if d.len() + m >= 0 { d.len() + m } else { 0 }))
}

/// The literal's magnitude truncated toward zero.
pub open spec fn magnitude_trunc(s: Seq<char>) -> nat {
    let d = sig_digits(s);
    let m = shift_of(s);
    if m >= 0 {
        digits_val(d) * pow10(m as nat)
    } else if d.len() + m >= 0 {
        digits_val(d.take(d.len() + m))
    } else {
        0
    }
}

/// The literal's signed value truncated toward zero.
pub open spec fn literal_trunc(s: Seq<char>) -> int {
    if literal_is_negative(s) {
        -(magnitude_trunc(s) as int)
    } else {
        magnitude_trunc(s) as int
    }
}

/// The signed truncation clamped into the 64-bit integer range.
pub open spec fn literal_trunc_i64(s: Seq<char>) -> int {
    if literal_trunc(s) > i64::MAX as int {
        i64::MAX as int
    } else if literal_trunc(s) < i64::MIN as int {
        i64::MIN as int
    } else {
        literal_trunc(s)
    }
}

/// Whether the literal denotes an integer that the 64-bit signed range
/// can hold exactly.
pub open spec fn denotes_i64(s: Seq<char>) -> bool {
    denotes_integer(s) && i64::MIN as int <= literal_trunc(s) <= i64::MAX as int
}

pub proof fn lemma_pow10_pos(k: nat)
    ensures
        pow10(k) >= 1,
    decreases k,
{
    if k > 0 {
        lemma_pow10_pos((k - 1) as nat);
    }
}

pub proof fn lemma_pow10_mono(a: nat, b: nat)
    requires
        a <= b,
    ensures
        pow10(a) <= pow10(b),
    decreases b,
{
    if a < b {
        lemma_pow10_mono(a, (b - 1) as nat);
        lemma_pow10_pos((b - 1) as nat);
    }
}

pub proof fn lemma_digits_val_concat(a: Seq<char>, b: Seq<char>)
    ensures
        digits_val(a + b) == digits_val(a) * pow10(b.len() as nat) + digits_val(b),
    decreases b.len(),
{
    if b.len() == 0 {
        assert(a + b =~= a);
        assert(digits_val(a + b) == digits_val(a));
        assert(pow10(0) == 1);
        assert(digits_val(b) == 0);
        assert(digits_val(a) * 1 == digits_val(a));
    } else {
        lemma_digits_val_concat(a, b.drop_last());
        assert((a + b).drop_last() =~= a + b.drop_last());
        assert((a + b).last() == b.last());
        assert(digits_val(a + b) == digits_val(a + b.drop_last()) * 10 + digit_val(b.last()));
        assert(pow10(b.len() as nat) == 10 * pow10((b.len() - 1) as nat));
        assert(digits_val(a + b) == digits_val(a) * pow10(b.len() as nat) + digits_val(b))
            by (nonlinear_arith)
            requires
                digits_val(a + b) == (digits_val(a) * pow10((b.len() - 1) as nat) + digits_val(
                    b.drop_last(),
                )) * 10 + digit_val(b.last()),
                pow10(b.len() as nat) == 10 * pow10((b.len() - 1) as nat),
                digits_val(b) == digits_val(b.drop_last()) * 10 + digit_val(b.last()),
        ;
    }
}

pub proof fn lemma_digits_val_zero(s: Seq<char>)
    requires
        all_zero(s),
    ensures
        digits_val(s) == 0,
    decreases s.len(),
{
    if s.len() > 0 {
        lemma_digits_val_zero(s.drop_last());
        assert(digit_val(s.last()) == 0) by {
            assert(s.last() == '0');
        }
    }
}

proof fn lemma_e_index_from(s: Seq<char>, t: int, j: int)
    requires
        0 <= t <= j <= s.len(),
        forall|i: int| t <= i < j ==> !(s[i] == 'e' || s[i] == 'E'),
        j == s.len() || s[j] == 'e' || s[j] == 'E',
    ensures
        e_index(s, t) == j,
    decreases j - t,
{
    if t < j {
        lemma_e_index_from(s, t + 1, j);
    }
}

proof fn lemma_dot_index_from(s: Seq<char>, t: int, j: int)
    requires
        0 <= t <= j <= s.len(),
        forall|i: int| t <= i < j ==> s[i] != '.',
        j == s.len() || s[j] == '.',
    ensures
        dot_index(s, t) == j,
    decreases j - t,
{
    if t < j {
        lemma_dot_index_from(s, t + 1, j);
    }
}

/// The facts a left-to-right scan establishes about the sign, the
/// integer digit run and the fraction digit run of a candidate text.
spec fn scan_ctx(s: Seq<char>, sl: int, ie: int, has_dot: bool, fe: int) -> bool {
    &&& 0 <= sl <= ie <= fe <= s.len()
    &&& sl == sign_len(s)
    &&& forall|k: int| sl <= k < ie ==> is_digit(s[k])
    &&& (ie < s.len() ==> !is_digit(s[ie]))
    &&& (has_dot <==> (ie < s.len() && s[ie] == '.'))
    &&& if has_dot {
        &&& fe >= ie + 1
        &&& (forall|k: int| ie + 1 <= k < fe ==> is_digit(s[k]))
        &&& (fe < s.len() ==> !is_digit(s[fe]))
    } else {
        fe == ie
    }
}

/// Under the scan facts, a well-formed mantissa prefix of the body
/// cannot reach past the fraction run, crosses the integer run only
/// through the point, and witnesses at least one mantissa digit.
proof fn lemma_mantissa_prefix(s: Seq<char>, sl: int, ie: int, has_dot: bool, fe: int, j: int)
    requires
        scan_ctx(s, sl, ie, has_dot, fe),
        0 <= j <= s.len() - sl,
        mantissa_ok(s.skip(sl).take(j)),
    ensures
        1 <= j <= fe - sl,
        j > ie - sl ==> has_dot && j >= ie - sl + 1,
        if has_dot {
            ie > sl || fe > ie + 1
        } else {
            ie > sl
        },
{
    let b = s.skip(sl);
    let m = b.take(j);
    assert(forall|k: int| 0 <= k < j ==> m[k] == s[sl + k]);
    if digits1(m) {
        assert(is_digit(m[0]));
        assert(is_digit(s[sl]));
        assert(ie > sl);
        if j > ie - sl {
            assert(is_digit(m[ie - sl]));
            assert(m[ie - sl] == s[ie]);
            assert(false);
        }
    } else {
        let k = choose|k: int|
            0 <= k < m.len() && m[k] == '.' && all_digits(m.take(k)) && all_digits(
                m.skip(k + 1),
            ) && (k >= 1 || m.len() >= 2);
        assert(m[k] == s[sl + k]);
        if k > ie - sl {
            assert(is_digit(m.take(k)[ie - sl]));
            assert(m.take(k)[ie - sl] == s[ie]);
            assert(false);
        }
        if k < ie - sl {
            assert(is_digit(s[sl + k]));
            assert(false);
        }
        assert(k == ie - sl);
        assert(s[ie] == '.');
        assert(has_dot);
        if j > fe - sl {
            assert(m.skip(k + 1)[fe - (ie + 1)] == s[fe]);
            assert(is_digit(s[fe]));
            assert(false);
        }
        if k >= 1 {
            assert(ie > sl);
        } else {
            assert(m.len() >= 2);
            assert(m.skip(1).len() >= 1);
            assert(m.skip(1)[0] == s[ie + 1]);
            assert(is_digit(s[ie + 1]));
            assert(fe > ie + 1);
        }
    }
}

/// The mantissa region itself, when it holds a digit, is well formed.
proof fn lemma_mantissa_region_ok(s: Seq<char>, sl: int, ie: int, has_dot: bool, fe: int)
    requires
        scan_ctx(s, sl, ie, has_dot, fe),
        if has_dot {
            ie > sl || fe > ie + 1
        } else {
            ie > sl
        },
    ensures
        mantissa_ok(s.skip(sl).take(fe - sl)),
{
    let b = s.skip(sl);
    let m = b.take(fe - sl);
    assert(forall|k: int| 0 <= k < fe - sl ==> m[k] == s[sl + k]);
    if has_dot {
        let k = ie - sl;
        assert(m[k] == '.');
        assert(all_digits(m.take(k))) by {
            assert(forall|i: int| 0 <= i < k ==> m.take(k)[i] == s[sl + i]);
        }
        assert(all_digits(m.skip(k + 1))) by {
            assert(forall|i: int|
                0 <= i < m.skip(k + 1).len() ==> #[trigger] m.skip(k + 1)[i] == s[ie + 1 + i]);
        }
        assert(k >= 1 || m.len() >= 2);
        assert(mantissa_ok(m));
    } else {
        assert(m.len() == ie - sl);
        assert(all_digits(m));
        assert(digits1(m));
    }
}

proof fn lemma_reject_mantissa(s: Seq<char>, sl: int, ie: int, has_dot: bool, fe: int)
    requires
        scan_ctx(s, sl, ie, has_dot, fe),
        !(if has_dot {
            ie > sl || fe > ie + 1
        } else {
            ie > sl
        }),
    ensures
        !is_number_literal(s),
{
    let b = s.skip(sl);
    if is_number_literal(s) {
        if mantissa_ok(b) {
            assert(b.take(b.len() as int) =~= b);
            lemma_mantissa_prefix(s, sl, ie, has_dot, fe, b.len() as int);
            assert(false);
        } else {
            let k = choose|k: int|
                0 <= k < b.len() && (b[k] == 'e' || b[k] == 'E') && mantissa_ok(b.take(k))
                    && exp_part_ok(b.skip(k + 1));
            lemma_mantissa_prefix(s, sl, ie, has_dot, fe, k);
            assert(false);
        }
    }
}

proof fn lemma_reject_junk(s: Seq<char>, sl: int, ie: int, has_dot: bool, fe: int, i: int)
    requires
        scan_ctx(s, sl, ie, has_dot, fe),
        i == fe,
        fe < s.len(),
        !(s[fe] == 'e' || s[fe] == 'E'),
    ensures
        !is_number_literal(s),
{
    let b = s.skip(sl);
    if is_number_literal(s) {
        if mantissa_ok(b) {
            assert(b.take(b.len() as int) =~= b);
            lemma_mantissa_prefix(s, sl, ie, has_dot, fe, b.len() as int);
            assert(b.len() <= fe - sl);
            assert(false);
        } else {
            let k = choose|k: int|
                0 <= k < b.len() && (b[k] == 'e' || b[k] == 'E') && mantissa_ok(b.take(k))
                    && exp_part_ok(b.skip(k + 1));
            lemma_mantissa_prefix(s, sl, ie, has_dot, fe, k);
            assert(b[k] == s[sl + k]);
            if k < ie - sl {
                assert(is_digit(s[sl + k]));
                assert(false);
            } else if k == ie - sl {
                if has_dot {
                    assert(s[ie] == '.');
                } else {
                    assert(ie == fe);
                }
                assert(false);
            } else {
                assert(has_dot);
                if k < fe - sl {
                    assert(is_digit(s[sl + k]));
                    assert(false);
                }
                assert(k == fe - sl);
                assert(false);
            }
        }
    }
}

proof fn lemma_accept_no_exp(s: Seq<char>, sl: int, ie: int, has_dot: bool, fe: int)
    requires
        scan_ctx(s, sl, ie, has_dot, fe),
        if has_dot {
            ie > sl || fe > ie + 1
        } else {
            ie > sl
        },
        fe == s.len(),
    ensures
        is_number_literal(s),
        int_digits(s) == s.subrange(sl, ie),
        frac_digits(s) == if has_dot {
            s.subrange(ie + 1, fe)
        } else {
            s.subrange(ie, ie)
        },
        exp_value(s) == 0,
    decreases 0int,
{
    let b = s.skip(sl);
    assert(b.take(fe - sl) =~= b);
    lemma_mantissa_region_ok(s, sl, ie, has_dot, fe);
    assert(mantissa_ok(b));
    assert(body_ok(b));
    assert(is_number_literal(s));
    // no exponent marker occurs in the body
    assert(forall|k: int| 0 <= k < b.len() ==> b[k] == s[sl + k]);
    lemma_e_index_from(b, 0, b.len() as int);
    assert(mantissa_part(s) =~= b);
    let m = mantissa_part(s);
    if has_dot {
        lemma_dot_index_from(m, 0, ie - sl);
        assert(int_digits(s) =~= s.subrange(sl, ie));
        assert(frac_digits(s) =~= s.subrange(ie + 1, fe));
    } else {
        lemma_dot_index_from(m, 0, m.len() as int);
        assert(int_digits(s) =~= s.subrange(sl, ie));
        assert(frac_digits(s) =~= s.subrange(ie, ie));
    }
}

proof fn lemma_accept_exp(
    s: Seq<char>,
    sl: int,
    ie: int,
    has_dot: bool,
    fe: int,
    e_pos: int,
    has_exp_sign: bool,
    exp_neg: bool,
    xs: int,
)
    requires
        scan_ctx(s, sl, ie, has_dot, fe),
        if has_dot {
            ie > sl || fe > ie + 1
        } else {
            ie > sl
        },
        e_pos == fe,
        fe < s.len(),
        s[fe] == 'e' || s[fe] == 'E',
        has_exp_sign ==> e_pos + 1 < s.len() && (s[e_pos + 1] == '+' || s[e_pos + 1] == '-')
            && xs == e_pos + 2,
        !has_exp_sign ==> xs == e_pos + 1,
        exp_neg ==> has_exp_sign && s[e_pos + 1] == '-',
        has_exp_sign && !exp_neg ==> s[e_pos + 1] == '+',
        xs < s.len(),
        forall|k: int| xs <= k < s.len() ==> is_digit(s[k]),
    ensures
        is_number_literal(s),
        int_digits(s) == s.subrange(sl, ie),
        frac_digits(s) == if has_dot {
            s.subrange(ie + 1, fe)
        } else {
            s.subrange(ie, ie)
        },
        all_digits(s.subrange(xs, s.len() as int)),
        exp_value(s) == if exp_neg {
            -(digits_val(s.subrange(xs, s.len() as int)) as int)
        } else {
            digits_val(s.subrange(xs, s.len() as int)) as int
        },
{
    let b = s.skip(sl);
    assert(forall|k: int| 0 <= k < b.len() ==> b[k] == s[sl + k]);
    lemma_mantissa_region_ok(s, sl, ie, has_dot, fe);
    let ke = e_pos - sl;
    assert(b[ke] == 'e' || b[ke] == 'E');
    let x = b.skip(ke + 1);
    assert(forall|k: int| 0 <= k < x.len() ==> x[k] == s[e_pos + 1 + k]);
    assert(exp_part_ok(x)) by {
        if has_exp_sign {
            assert(x[0] == s[e_pos + 1]);
            assert(x.skip(1).len() >= 1);
            assert(forall|k: int| 0 <= k < x.skip(1).len() ==> x.skip(1)[k] == s[xs + k]);
            assert(digits1(x.skip(1)));
        } else {
            assert(x.len() >= 1);
            assert(is_digit(x[0]));
            assert(digits1(x));
        }
    }
    assert(body_ok(b)) by {
        assert(0 <= ke < b.len() && (b[ke] == 'e' || b[ke] == 'E') && mantissa_ok(b.take(ke))
            && exp_part_ok(b.skip(ke + 1))) by {
            assert(b.take(ke) =~= b.take(fe - sl));
        }
    }
    assert(is_number_literal(s));
    lemma_e_index_from(b, 0, ke);
    assert(mantissa_part(s) =~= b.take(ke));
    let m = mantissa_part(s);
    assert(forall|k: int| 0 <= k < m.len() ==> m[k] == s[sl + k]);
    if has_dot {
        lemma_dot_index_from(m, 0, ie - sl);
        assert(int_digits(s) =~= s.subrange(sl, ie));
        assert(frac_digits(s) =~= s.subrange(ie + 1, fe));
    } else {
        lemma_dot_index_from(m, 0, m.len() as int);
        assert(int_digits(s) =~= s.subrange(sl, ie));
        assert(frac_digits(s) =~= s.subrange(ie, ie));
    }
    assert(all_digits(s.subrange(xs, s.len() as int))) by {
        assert(forall|k: int|
            0 <= k < s.len() - xs ==> s.subrange(xs, s.len() as int)[k] == s[xs + k]);
    }
    // the exponent's value reads off the digit run after the sign
    assert(e_index(b, 0) == ke && ke < b.len());
    if has_exp_sign {
        assert(x.skip(1) =~= s.subrange(xs, s.len() as int));
        if exp_neg {
            assert(x[0] == '-');
        } else {
            assert(x[0] == '+');
        }
    } else {
        assert(x =~= s.subrange(xs, s.len() as int));
        assert(is_digit(x[0]));
        assert(x[0] != '-' && x[0] != '+');
    }
}

proof fn lemma_reject_exp(
    s: Seq<char>,
    sl: int,
    ie: int,
    has_dot: bool,
    fe: int,
    e_pos: int,
    has_exp_sign: bool,
    xs: int,
    ee: int,
)
    requires
        scan_ctx(s, sl, ie, has_dot, fe),
        e_pos == fe,
        fe < s.len(),
        s[fe] == 'e' || s[fe] == 'E',
        has_exp_sign ==> e_pos + 1 < s.len() && (s[e_pos + 1] == '+' || s[e_pos + 1] == '-')
            && xs == e_pos + 2,
        !has_exp_sign ==> xs == e_pos + 1 && (e_pos + 1 < s.len() ==> !(s[e_pos + 1] == '+'
            || s[e_pos + 1] == '-')),
        xs <= ee <= s.len(),
        forall|k: int| xs <= k < ee ==> is_digit(s[k]),
        ee < s.len() ==> !is_digit(s[ee]),
        !(ee == s.len() && ee > xs),
    ensures
        !is_number_literal(s),
{
    let b = s.skip(sl);
    assert(forall|k: int| 0 <= k < b.len() ==> b[k] == s[sl + k]);
    if is_number_literal(s) {
        if mantissa_ok(b) {
            assert(b.take(b.len() as int) =~= b);
            lemma_mantissa_prefix(s, sl, ie, has_dot, fe, b.len() as int);
            assert(false);
        } else {
            let k = choose|k: int|
                0 <= k < b.len() && (b[k] == 'e' || b[k] == 'E') && mantissa_ok(b.take(k))
                    && exp_part_ok(b.skip(k + 1));
            lemma_mantissa_prefix(s, sl, ie, has_dot, fe, k);
            assert(k <= fe - sl);
            if k < ie - sl {
                assert(is_digit(s[sl + k]));
                assert(false);
            } else if k < fe - sl {
                if k == ie - sl {
                    assert(s[ie] == '.' || ie == fe);
                    assert(false);
                } else {
                    assert(has_dot && is_digit(s[sl + k]));
                    assert(false);
                }
            }
            assert(k == fe - sl);
            let x = b.skip(k + 1);
            assert(forall|i: int| 0 <= i < x.len() ==> x[i] == s[e_pos + 1 + i]);
            assert(exp_part_ok(x));
            if x.len() >= 1 && (x[0] == '+' || x[0] == '-') {
                assert(has_exp_sign);
                assert(digits1(x.skip(1)));
                assert(x.skip(1).len() >= 1);
                assert(xs < s.len());
                assert(forall|i: int| 0 <= i < x.skip(1).len() ==> x.skip(1)[i] == s[xs + i]);
                if ee < s.len() {
                    assert(is_digit(x.skip(1)[ee - xs]));
                    assert(false);
                } else {
                    assert(ee == s.len() && ee > xs);
                    assert(false);
                }
            } else {
                assert(!has_exp_sign) by {
                    if has_exp_sign {
                        assert(x[0] == s[e_pos + 1]);
                        assert(false);
                    }
                }
                assert(digits1(x));
                assert(x.len() >= 1);
                assert(xs < s.len());
                if ee < s.len() {
                    assert(is_digit(x[ee - xs]));
                    assert(false);
                } else {
                    assert(ee == s.len() && ee > xs);
                    assert(false);
                }
            }
        }
    }
}

/// Index ranges of a number literal's parts within the scanned text:

/// integer digits, fraction digits and exponent digits, with the two
/// signs.  An absent part has an empty range.
pub struct NumShape {
    pub neg: bool,
    pub int_start: usize,
    pub int_end: usize,
    pub frac_start: usize,
    pub frac_end: usize,
    pub exp_neg: bool,
    pub exp_start: usize,
    pub exp_end: usize,
}

impl NumShape {
    /// The ranges name exactly the spec-level decomposition of `s`.
    pub open spec fn describes(self, s: Seq<char>) -> bool {
        &&& is_number_literal(s)
        &&& self.neg == literal_is_negative(s)
        &&& self.int_start <= self.int_end <= s.len()
        &&& self.frac_start <= self.frac_end <= s.len()
        &&& self.exp_start <= self.exp_end <= s.len()
        &&& s.subrange(self.int_start as int, self.int_end as int) == int_digits(s)
        &&& s.subrange(self.frac_start as int, self.frac_end as int) == frac_digits(s)
        &&& all_digits(s.subrange(self.int_start as int, self.int_end as int))
        &&& all_digits(s.subrange(self.frac_start as int, self.frac_end as int))
        &&& all_digits(s.subrange(self.exp_start as int, self.exp_end as int))
        &&& exp_value(s) == if self.exp_neg {
            -(digits_val(s.subrange(self.exp_start as int, self.exp_end as int)) as int)
        } else {
            digits_val(s.subrange(self.exp_start as int, self.exp_end as int)) as int
        }
    }
}

/// Scans a digit run starting at `i`, returning its end.
fn digit_run(v: &Vec<char>, i: usize) -> (j: usize)
    requires
        i <= v@.len(),
    ensures
        i <= j <= v@.len(),
        forall|k: int| i <= k < j ==> is_digit(v@[k]),
        j < v@.len() ==> !is_digit(v@[j as int]),
{
    let mut j = i;
    while j < v.len() && '0' <= v[j] && v[j] <= '9'
        invariant
            i <= j <= v@.len(),
            forall|k: int| i <= k < j ==> is_digit(v@[k]),
        decreases v@.len() - j,
    {
        j = j + 1;
    }
    j
}

/// Checks whether the text is a number literal and if so reports where
/// its parts lie.
pub(crate) fn scan_number_shape(v: &Vec<char>) -> (r: Option<NumShape>)
    ensures
        match r {
            Some(sh) => sh.describes(v@),
            None => !is_number_literal(v@),
        },
{
    let ghost s = v@;
    let n = v.len();
    let mut i: usize = 0;
    let mut neg = false;
    if n > 0 && (v[0] == '+' || v[0] == '-') {
        neg = v[0] == '-';
        i = 1;
    }
    let sl = i;
    proof {
        assert(sl as int == sign_len(s));
        assert(neg == literal_is_negative(s));
    }
    let int_start = i;
    let int_end = digit_run(v, i);
    i = int_end;
    let mut frac_start = i;
    let mut frac_end = i;
    let mut has_dot = false;
    if i < n && v[i] == '.' {
        has_dot = true;
        frac_start = i + 1;
        frac_end = digit_run(v, i + 1);
        i = frac_end;
    }
    // the mantissa needs at least one digit: a leading digit run, or a
    // point followed by digits
    let mant_ok = if has_dot {
        int_end > int_start || frac_end > frac_start
    } else {
        int_end > int_start
    };
    let ghost b = s.skip(sl as int);
    let ghost mant_end = i as int;
    proof {
        // the mantissa region holds no exponent marker and no second point
        assert(forall|k: int| int_start <= k < int_end ==> is_digit(s[k]));
        assert(forall|k: int| frac_start <= k < frac_end ==> is_digit(s[k]));
    }
    if !mant_ok {
        proof {
            lemma_reject_mantissa(s, sl as int, int_end as int, has_dot, frac_end as int);
        }
        return None;
    }
    if i == n {
        proof {
            lemma_accept_no_exp(s, sl as int, int_end as int, has_dot, frac_end as int);
            assert(all_digits(s.subrange(int_start as int, int_end as int))) by {
                assert(forall|k: int|
                    0 <= k < int_end - int_start ==> #[trigger] s.subrange(
                        int_start as int,
                        int_end as int,
                    )[k] == s[int_start + k]);
            }
            assert(all_digits(s.subrange(frac_start as int, frac_end as int))) by {
                assert(forall|k: int|
                    0 <= k < frac_end - frac_start ==> #[trigger] s.subrange(
                        frac_start as int,
                        frac_end as int,
                    )[k] == s[frac_start + k]);
            }
            assert(s.subrange(n as int, n as int) =~= Seq::<char>::empty());
        }
        return Some(
            NumShape {
                neg,
                int_start,
                int_end,
                frac_start,
                frac_end,
                exp_neg: false,
                exp_start: n,
                exp_end: n,
            },
        );
    }
    if !(v[i] == 'e' || v[i] == 'E') {
        proof {
            lemma_reject_junk(s, sl as int, int_end as int, has_dot, frac_end as int, i as int);
        }
        return None;
    }
    let e_pos = i;
    i = i + 1;
    let mut exp_neg = false;
    let mut has_exp_sign = false;
    if i < n && (v[i] == '+' || v[i] == '-') {
        exp_neg = v[i] == '-';
        has_exp_sign = true;
        i = i + 1;
    }
    let exp_start = i;
    let exp_end = digit_run(v, i);
    if exp_end == n && exp_end > exp_start {
        proof {
            lemma_accept_exp(
                s,
                sl as int,
                int_end as int,
                has_dot,
                frac_end as int,
                e_pos as int,
                has_exp_sign,
                exp_neg,
                exp_start as int,
            );
            assert(all_digits(s.subrange(int_start as int, int_end as int))) by {
                assert(forall|k: int|
                    0 <= k < int_end - int_start ==> #[trigger] s.subrange(
                        int_start as int,
                        int_end as int,
                    )[k] == s[int_start + k]);
            }
            assert(all_digits(s.subrange(frac_start as int, frac_end as int))) by {
                assert(forall|k: int|
                    0 <= k < frac_end - frac_start ==> #[trigger] s.subrange(
                        frac_start as int,
                        frac_end as int,
                    )[k] == s[frac_start + k]);
            }
        }
        Some(NumShape { neg, int_start, int_end, frac_start, frac_end, exp_neg, exp_start, exp_end })
    } else {
        proof {
            lemma_reject_exp(
                s,
                sl as int,
                int_end as int,
                has_dot,
                frac_end as int,
                e_pos as int,
                has_exp_sign,
                exp_start as int,
                exp_end as int,
            );
        }
        None
    }
}

/// `r` reports `v` exactly when `v` lies below `cap`, and otherwise
/// only that `v` is at least `cap`.
pub open spec fn capped(r: (u128, bool), v: nat, cap: nat) -> bool {
    if r.1 {
        v >= cap
    } else {
        r.0 == v && v < cap
    }
}

fn digit_of(c: char) -> (d: u8)
    requires
        is_digit(c),
    ensures
        d as nat == digit_val(c),
{
    ((c as u32) - ('0' as u32)) as u8
}

proof fn lemma_digits_val_nonzero(s: Seq<char>)
    requires
        all_digits(s),
        !all_zero(s),
    ensures
        digits_val(s) >= 1,
    decreases s.len(),
{
    assert(s.len() > 0);
    if s.last() != '0' {
        assert(digit_val(s.last()) >= 1);
    } else {
        assert(!all_zero(s.drop_last())) by {
            let i = choose|i: int| 0 <= i < s.len() && s[i] != '0';
            assert(i < s.len() - 1);
            assert(s.drop_last()[i] != '0');
        }
        assert(all_digits(s.drop_last()));
        lemma_digits_val_nonzero(s.drop_last());
    }
}

proof fn lemma_pow10_20()
    ensures
        pow10(20) == 0x56bc75e2d63100000,
{
    reveal_with_fuel(pow10, 21);
}

/// Base-ten value of the first `upto` digits, capped.
fn digits_value_capped(d: &Vec<char>, upto: usize, cap: u128) -> (r: (u128, bool))
    requires
        upto <= d@.len(),
        all_digits(d@),
        1 <= cap,
        cap <= 0x1_0000_0000_0000_0000_0000_0000_0000,
    ensures
        capped(r, digits_val(d@.take(upto as int)), cap as nat),
{
    let mut acc: u128 = 0;
    let mut over = false;
    let mut i: usize = 0;
    proof {
        assert(d@.take(0) =~= Seq::<char>::empty());
    }
    while i < upto
        invariant
            i <= upto <= d@.len(),
            all_digits(d@),
            1 <= cap <= 0x1_0000_0000_0000_0000_0000_0000_0000,
            capped((acc, over), digits_val(d@.take(i as int)), cap as nat),
        decreases upto - i,
    {
        let ghost prev = digits_val(d@.take(i as int));
        let dv = digit_of(d[i]);
        proof {
            assert(d@.take(i + 1).drop_last() =~= d@.take(i as int));
            assert(d@.take(i + 1).last() == d@[i as int]);
            assert(digits_val(d@.take(i + 1)) == prev * 10 + digit_val(d@[i as int]));
        }
        if over {
            proof {
                assert(prev * 10 + digit_val(d@[i as int]) >= prev);
            }
        } else {
            let next = acc * 10 + dv as u128;
            if next >= cap {
                over = true;
            } else {
                acc = next;
            }
        }
        i = i + 1;
    }
    (acc, over)
}

/// Scales a capped value by a power of ten, staying capped.
fn scale10_capped(x0: u128, over0: bool, m: usize, Ghost(v): Ghost<nat>, cap: u128) -> (r: (
    u128,
    bool,
))
    requires
        capped((x0, over0), v, cap as nat),
        1 <= cap,
        cap <= 0x1_0000_0000_0000_0000_0000_0000_0000,
    ensures
        capped(r, v * pow10(m as nat), cap as nat),
{
    let mut acc = x0;
    let mut over = over0;
    let mut j: usize = 0;
    proof {
        assert(pow10(0) == 1);
        assert(v * 1 == v);
    }
    while j < m
        invariant
            j <= m,
            1 <= cap <= 0x1_0000_0000_0000_0000_0000_0000_0000,
            capped((acc, over), v * pow10(j as nat), cap as nat),
        decreases m - j,
    {
        let ghost prev = v * pow10(j as nat);
        proof {
            assert(v * pow10((j + 1) as nat) == prev * 10) by (nonlinear_arith)
                requires
                    pow10((j + 1) as nat) == 10 * pow10(j as nat),
                    prev == v * pow10(j as nat),
            ;
        }
        if over {
            proof {
                assert(prev * 10 >= prev);
            }
        } else {
            let next = acc * 10;
            if next >= cap {
                over = true;
            } else {
                acc = next;
            }
        }
        j = j + 1;
    }
    (acc, over)
}

/// What the value analysis reports of a number literal: whether it
/// denotes an integer the 64-bit signed range holds exactly, and its
/// value truncated toward zero and clamped into that range.
pub struct NumEval {
    pub exact_int: bool,
    pub trunc: i64,
}

proof fn lemma_all_zero_trunc(s: Seq<char>, sh: NumShape)
    requires
        sh.describes(s),
        all_zero(sig_digits(s)),
    ensures
        denotes_i64(s),
        literal_trunc_i64(s) == 0,
{
    let d = sig_digits(s);
    let m = shift_of(s);
    lemma_digits_val_zero(d);
    if m >= 0 {
        assert(magnitude_trunc(s) == digits_val(d) * pow10(m as nat));
        assert(digits_val(d) == 0);
        assert(0 * pow10(m as nat) == 0) by (nonlinear_arith);
    } else if d.len() + m >= 0 {
        assert(all_zero(d.take(d.len() + m)));
        lemma_digits_val_zero(d.take(d.len() + m));
    } else {
        assert(all_zero(d.skip(0)));
    }
    assert(magnitude_trunc(s) == 0);
    if m < 0 {
        let cut = if d.len() + m >= 0 {
            d.len() + m
        } else {
            0
        };
        assert(all_zero(d.skip(cut)));
    }
    assert(denotes_integer(s));
    assert(literal_trunc(s) == 0);
}

proof fn lemma_trunc_overflow_pos(s: Seq<char>, sh: NumShape)
    requires
        sh.describes(s),
        digits_val(sig_digits(s)) >= 1,
        shift_of(s) >= 20,
    ensures
        !denotes_i64(s),
        literal_trunc_i64(s) == if literal_is_negative(s) {
            i64::MIN as int
        } else {
            i64::MAX as int
        },
{
    let d = sig_digits(s);
    let m = shift_of(s);
    lemma_pow10_20();
    lemma_pow10_mono(20, m as nat);
    assert(magnitude_trunc(s) == digits_val(d) * pow10(m as nat));
    assert(digits_val(d) * pow10(m as nat) >= pow10(m as nat)) by (nonlinear_arith)
        requires
            digits_val(d) >= 1,
    ;
    assert(magnitude_trunc(s) >= pow10(20));
    assert(pow10(20) > i64::MAX as nat);
    if literal_is_negative(s) {
        assert(literal_trunc(s) <= -(pow10(20) as int));
        assert(literal_trunc(s) < i64::MIN as int);
    } else {
        assert(literal_trunc(s) > i64::MAX as int);
    }
}

proof fn lemma_trunc_all_shifted_out(s: Seq<char>, sh: NumShape)
    requires
        sh.describes(s),
        !all_zero(sig_digits(s)),
        sig_digits(s).len() + shift_of(s) < 0,
    ensures
        !denotes_i64(s),
        literal_trunc_i64(s) == 0,
{
    let d = sig_digits(s);
    let m = shift_of(s);
    assert(m < 0);
    assert(magnitude_trunc(s) == 0);
    assert(d.skip(0) =~= d);
    assert(!denotes_integer(s));
    assert(literal_trunc(s) == 0);
}

/// Folds the sign and range clamp over a capped magnitude.
fn finish_signed(mag: u128, over: bool, integral: bool, neg: bool, Ghost(s): Ghost<Seq<char>>) -> (r:
    NumEval)
    requires
        is_number_literal(s),
        capped((mag, over), magnitude_trunc(s), 0x1_0000_0000_0000_0000),
        integral == denotes_integer(s),
        neg == literal_is_negative(s),
    ensures
        r.exact_int == denotes_i64(s),
        r.trunc as int == literal_trunc_i64(s),
{
    proof {
        if neg {
            assert(literal_trunc(s) == -(magnitude_trunc(s) as int));
        } else {
            assert(literal_trunc(s) == magnitude_trunc(s) as int);
        }
    }
    if neg {
        if over || mag > 0x8000_0000_0000_0000 {
            NumEval { exact_int: false, trunc: i64::MIN }
        } else if mag == 0x8000_0000_0000_0000 {
            NumEval { exact_int: integral, trunc: i64::MIN }
        } else {
            NumEval { exact_int: integral, trunc: -(mag as i64) }
        }
    } else {
        if over || mag > i64::MAX as u128 {
            NumEval { exact_int: false, trunc: i64::MAX }
        } else {
            NumEval { exact_int: integral, trunc: mag as i64 }
        }
    }
}

/// Evaluates a literal whose point shifts `k` digits into the
/// significant run: the dropped digits decide integrality and the kept
/// prefix gives the truncated magnitude.
fn neg_shift_eval(d: &Vec<char>, k: usize, neg: bool, Ghost(s): Ghost<Seq<char>>) -> (r: NumEval)
    requires
        is_number_literal(s),
        d@ == sig_digits(s),
        all_digits(d@),
        k <= d@.len(),
        k as int == -shift_of(s),
        neg == literal_is_negative(s),
    ensures
        r.exact_int == denotes_i64(s),
        r.trunc as int == literal_trunc_i64(s),
{
    let ghost m = shift_of(s);
    let cut = d.len() - k;
    let mut zeros = true;
    let mut z = cut;
    while z < d.len()
        invariant
            cut <= z <= d@.len(),
            zeros <==> (forall|i: int| cut <= i < z ==> d@[i] == '0'),
        decreases d@.len() - z,
    {
        if d[z] != '0' {
            zeros = false;
        }
        z = z + 1;
    }
    proof {
        let sk = d@.skip(cut as int);
        assert(forall|i: int| 0 <= i < sk.len() ==> #[trigger] sk[i] == d@[cut + i]);
        if zeros {
            assert(forall|i: int| 0 <= i < sk.len() ==> #[trigger] sk[i] == '0');
            assert(all_zero(sk));
        } else {
            let w = choose|i: int| cut <= i < d@.len() && d@[i] != '0';
            assert(sk[w - cut] != '0');
            assert(!all_zero(sk));
        }
        assert(zeros <==> all_zero(d@.skip(cut as int)));
        if k == 0 {
            assert(m == 0);
            assert(magnitude_trunc(s) == digits_val(d@) * pow10(0));
            assert(digits_val(d@) * 1 == digits_val(d@));
            assert(d@.take(cut as int) =~= d@);
            assert(denotes_integer(s));
            assert(zeros);
        } else {
            assert(m < 0);
            assert(d@.len() + m == cut);
            assert(magnitude_trunc(s) == digits_val(d@.take(cut as int)));
            assert(denotes_integer(s) <==> zeros);
        }
    }
    let (mag0, o0) = digits_value_capped(d, cut, 0x1_0000_0000_0000_0000);
    finish_signed(mag0, o0, zeros, neg, Ghost(s))
}

/// Checks the text against the literal grammar and, on success,
/// decides integrality and the truncated 64-bit value.
pub(crate) fn analyze_number(v: &Vec<char>) -> (r: Option<NumEval>)
    ensures
        match r {
            Some(ev) => {
                &&& is_number_literal(v@)
                &&& ev.exact_int == denotes_i64(v@)
                &&& ev.trunc as int == literal_trunc_i64(v@)
            },
            None => !is_number_literal(v@),
        },
{
    let sh = match scan_number_shape(v) {
        None => {
            return None;
        },
        Some(sh) => sh,
    };
    let ghost s = v@;
    let ghost dd = sig_digits(s);
    let ghost em = shift_of(s);
    // gather the significant digits, integer part then fraction
    let mut d: Vec<char> = Vec::new();
    let mut i = sh.int_start;
    while i < sh.int_end
        invariant
            sh.int_start <= i <= sh.int_end <= v@.len(),
            d@ == v@.subrange(sh.int_start as int, i as int),
        decreases sh.int_end - i,
    {
        d.push(v[i]);
        i = i + 1;
        proof {
            assert(d@ =~= v@.subrange(sh.int_start as int, i as int));
        }
    }
    let mut j = sh.frac_start;
    while j < sh.frac_end
        invariant
            sh.frac_start <= j <= sh.frac_end <= v@.len(),
            d@ == v@.subrange(sh.int_start as int, sh.int_end as int) + v@.subrange(
                sh.frac_start as int,
                j as int,
            ),
        decreases sh.frac_end - j,
    {
        d.push(v[j]);
        j = j + 1;
        proof {
            assert(d@ =~= v@.subrange(sh.int_start as int, sh.int_end as int) + v@.subrange(
                sh.frac_start as int,
                j as int,
            ));
        }
    }
    proof {
        assert(d@ == dd);
        assert(all_digits(dd)) by {
            assert(forall|k: int|
                0 <= k < dd.len() ==> #[trigger] dd[k] == if k < int_digits(s).len() {
                    int_digits(s)[k]
                } else {
                    frac_digits(s)[k - int_digits(s).len()]
                });
        }
    }
    let flen = sh.frac_end - sh.frac_start;
    proof {
        assert(flen as int == frac_digits(s).len());
    }
    // a literal whose digits are all zero denotes zero outright
    let mut zero = true;
    let mut z: usize = 0;
    while z < d.len()
        invariant
            z <= d@.len(),
            zero <==> (forall|k: int| 0 <= k < z ==> d@[k] == '0'),
        decreases d@.len() - z,
    {
        if d[z] != '0' {
            zero = false;
        }
        z = z + 1;
    }
    if zero {
        proof {
            assert(all_zero(dd));
            lemma_all_zero_trunc(s, sh);
        }
        return Some(NumEval { exact_int: true, trunc: 0 });
    }
    proof {
        assert(!all_zero(dd));
        lemma_digits_val_nonzero(dd);
    }
    // the exponent's magnitude, capped high enough that a capped-out
    // exponent dwarfs every digit count
    let mut ed: Vec<char> = Vec::new();
    let mut q = sh.exp_start;
    while q < sh.exp_end
        invariant
            sh.exp_start <= q <= sh.exp_end <= v@.len(),
            ed@ == v@.subrange(sh.exp_start as int, q as int),
        decreases sh.exp_end - q,
    {
        ed.push(v[q]);
        q = q + 1;
        proof {
            assert(ed@ =~= v@.subrange(sh.exp_start as int, q as int));
        }
    }
    proof {
        assert(ed@ == s.subrange(sh.exp_start as int, sh.exp_end as int));
        assert(ed@.take(ed@.len() as int) =~= ed@);
    }
    let ghost emag_spec = digits_val(ed@);
    let (emag, eover) = digits_value_capped(&ed, ed.len(), 0x10_0000_0000_0000_0000_0000_0000);
    proof {
        assert(usize::MAX as nat <= 0xffff_ffff_ffff_ffff) by (nonlinear_arith);
    }
    if !sh.exp_neg {
        proof {
            assert(em == emag_spec - flen);
        }
        if eover || emag >= flen as u128 + 20 {
            proof {
                if eover {
                    assert(emag_spec >= 0x10_0000_0000_0000_0000_0000_0000);
                } else {
                    assert(emag as nat == emag_spec);
                }
                assert(em >= 20);
                lemma_trunc_overflow_pos(s, sh);
            }
            return Some(
                NumEval {
                    exact_int: false,
                    trunc: if sh.neg {
                        i64::MIN
                    } else {
                        i64::MAX
                    },
                },
            );
        }
        if emag >= flen as u128 {
            let msmall = (emag - flen as u128) as usize;
            proof {
                assert(msmall as int == em);
            }
            let (mag0, o0) = digits_value_capped(&d, d.len(), 0x1_0000_0000_0000_0000);
            proof {
                assert(d@.take(d@.len() as int) =~= d@);
            }
            let (mag, o) = scale10_capped(
                mag0,
                o0,
                msmall,
                Ghost(digits_val(dd)),
                0x1_0000_0000_0000_0000,
            );
            proof {
                assert(magnitude_trunc(s) == digits_val(dd) * pow10(msmall as nat));
                assert(denotes_integer(s));
            }
            return Some(finish_signed(mag, o, true, sh.neg, Ghost(s)));
        }
        let k = (flen as u128 - emag) as usize;
        proof {
            assert(k as int == -em);
            assert(k <= flen);
            assert(flen as int <= dd.len());
        }
        return Some(neg_shift_eval(&d, k, sh.neg, Ghost(s)));
    } else {
        proof {
            assert(em == -(emag_spec as int) - flen);
        }
        let dlen = d.len();
        if eover || emag + flen as u128 > dlen as u128 {
            proof {
                if eover {
                    assert(emag_spec >= 0x10_0000_0000_0000_0000_0000_0000);
                } else {
                    assert(emag as nat == emag_spec);
                }
                assert(dd.len() + em < 0);
                lemma_trunc_all_shifted_out(s, sh);
            }
            return Some(NumEval { exact_int: false, trunc: 0 });
        }
        let k = (emag + flen as u128) as usize;
        proof {
            assert(k as int == -em);
            assert(k <= dlen);
        }
        return Some(neg_shift_eval(&d, k, sh.neg, Ghost(s)));
    }
}

} // verus!
