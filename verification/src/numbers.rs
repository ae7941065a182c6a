//! Verified syntax checkers for the field types that hold numbers: whether a
//! raw string parses as a 32-bit signed integer, and whether it parses as a
//! floating-point number, following the grammars that the standard library
//! documents for `i32::from_str` and `f32::from_str`.

use vstd::prelude::*;
use crate::strutil::str_chars;

verus! {

pub open spec fn is_digit(c: char) -> bool {
    '0' <= c <= '9'
}

pub open spec fn digit_val(c: char) -> int {
    c as int - '0' as int
}

pub open spec fn all_digits(s: Seq<char>) -> bool {
    forall|i: int| 0 <= i < s.len() ==> is_digit(#[trigger] s[i])
}

/// The number that a digit string denotes, most significant digit first.
pub open spec fn digits_value(s: Seq<char>) -> int
    decreases s.len(),
{
    if s.len() == 0 {
        0
    } else {
        digits_value(s.take(s.len() - 1)) * 10 + digit_val(s[s.len() - 1])
    }
}

/// Ten to the `n`-th.
pub open spec fn pow10(n: nat) -> int
    decreases n,
{
    if n == 0 {
        1
    } else {
        10 * pow10((n - 1) as nat)
    }
}

proof fn lemma_digits_value_bounds(s: Seq<char>)
    requires
        all_digits(s),
    ensures
        0 <= digits_value(s) < pow10(s.len()),
    decreases s.len(),
{
    if s.len() > 0 {
        let pre = s.take(s.len() - 1);
        assert(all_digits(pre));
        lemma_digits_value_bounds(pre);
        assert(is_digit(s[s.len() - 1]));
        assert(0 <= digit_val(s[s.len() - 1]) <= 9);
    }
}

proof fn lemma_digits_value_lower(s: Seq<char>)
    requires
        all_digits(s),
        s.len() > 0,
        s[0] != '0',
    ensures
        digits_value(s) >= pow10((s.len() - 1) as nat),
    decreases s.len(),
{
    if s.len() == 1 {
        assert(s.take(0) =~= Seq::<char>::empty());
        assert(digits_value(Seq::<char>::empty()) == 0);
        assert(digits_value(s) == digit_val(s[0]));
        assert(is_digit(s[0]));
        assert(digit_val(s[0]) >= 1);
        assert(pow10(0) == 1);
    } else {
        let pre = s.take(s.len() - 1);
        assert(all_digits(pre));
        assert(pre[0] == s[0]);
        lemma_digits_value_lower(pre);
        assert(pre.len() == s.len() - 1);
        assert(digits_value(pre) >= pow10((s.len() - 2) as nat));
        assert(pow10((s.len() - 1) as nat) == 10 * pow10((s.len() - 2) as nat));
        assert(is_digit(s[s.len() - 1]));
        assert(digit_val(s[s.len() - 1]) >= 0);
    }
}

proof fn lemma_digits_value_strip_zero(s: Seq<char>)
    requires
        s.len() > 0,
        s[0] == '0',
    ensures
        digits_value(s) == digits_value(s.drop_first()),
    decreases s.len(),
{
    if s.len() == 1 {
        assert(s.take(0) =~= Seq::<char>::empty());
        assert(s.drop_first() =~= Seq::<char>::empty());
        assert(digit_val('0') == 0);
    } else {
        let pre = s.take(s.len() - 1);
        assert(pre[0] == '0');
        lemma_digits_value_strip_zero(pre);
        assert(pre.drop_first() =~= s.drop_first().take(s.drop_first().len() - 1));
        assert(s.drop_first()[s.drop_first().len() - 1] == s[s.len() - 1]);
    }
}

/// Whether `i32::from_str` accepts the string: an optional sign, then one or
/// more decimal digits, denoting a value within the 32-bit signed range.
pub open spec fn is_i32_string(s: Seq<char>) -> bool {
    if s.len() == 0 {
        false
    } else if s[0] == '+' {
        s.len() > 1 && all_digits(s.skip(1)) && digits_value(s.skip(1)) <= 2147483647
    } else if s[0] == '-' {
        s.len() > 1 && all_digits(s.skip(1)) && digits_value(s.skip(1)) <= 2147483648
    } else {
        all_digits(s) && digits_value(s) <= 2147483647
    }
}

fn is_digit_c(c: char) -> (r: bool)
    ensures
        r == is_digit(c),
{
    '0' <= c && c <= '9'
}

/// Value check of a digit run, leading zeros allowed: whether `v[from..]` is
/// all digits, non-empty, with value at most `bound`.
fn digits_within(v: &Vec<char>, from: usize, bound: u64) -> (r: bool)
    requires
        from <= v@.len(),
        bound < 10000000000,
    ensures
        r == (v@.skip(from as int).len() > 0 && all_digits(v@.skip(from as int)) && digits_value(
            v@.skip(from as int),
        ) <= bound),
{
    let ghost body = v@.skip(from as int);
    if from == v.len() {
        return false;
    }
    // every character must be a digit
    let mut i: usize = from;
    while i < v.len()
        invariant
            from <= i <= v@.len(),
            body == v@.skip(from as int),
            forall|k: int| 0 <= k < i - from ==> is_digit(#[trigger] body[k]),
        decreases v@.len() - i,
    {
        if !is_digit_c(v[i]) {
            proof {
                assert(body[i - from as int] == v@[i as int]);
                assert(!all_digits(body));
            }
            return false;
        }
        proof {
            assert(body[i - from as int] == v@[i as int]);
        }
        i += 1;
    }
    proof {
        assert(all_digits(body));
    }
    // skip leading zeros
    let mut z: usize = from;
    while z < v.len() && v[z] == '0'
        invariant
            from <= z <= v@.len(),
            body == v@.skip(from as int),
            all_digits(body),
            digits_value(body) == digits_value(v@.skip(z as int)),
            forall|k: int| from <= k < z ==> #[trigger] v@[k] == '0',
        decreases v@.len() - z,
    {
        proof {
            let cur = v@.skip(z as int);
            assert(cur[0] == v@[z as int]);
            lemma_digits_value_strip_zero(cur);
            assert(cur.drop_first() =~= v@.skip(z as int + 1));
        }
        z += 1;
    }
    let ghost core = v@.skip(z as int);
    proof {
        assert(forall|k: int| 0 <= k < core.len() ==> #[trigger] core[k] == body[k + z - from as int]);
        assert(all_digits(core));
    }
    if v.len() - z > 10 {
        proof {
            assert(core[0] == v@[z as int]);
            assert(core[0] != '0');
            lemma_digits_value_lower(core);
            assert(core.len() >= 11);
            assert(pow10(10) == 10000000000) by {
                reveal_with_fuel(pow10, 11);
            }
            assert(pow10((core.len() - 1) as nat) >= pow10(10)) by {
                lemma_pow10_mono(10nat, (core.len() - 1) as nat);
            }
            assert(digits_value(body) >= 10000000000);
            assert(bound < 10000000000);
        }
        return false;
    }
    // at most ten significant digits: the value fits in u64
    let mut acc: u64 = 0;
    let mut j: usize = z;
    proof {
        assert(core.take(0) =~= Seq::<char>::empty());
        assert(pow10(10) == 10000000000) by {
            reveal_with_fuel(pow10, 11);
        }
    }
    while j < v.len()
        invariant
            z <= j <= v@.len(),
            v@.len() - z <= 10,
            core == v@.skip(z as int),
            all_digits(core),
            acc == digits_value(core.take(j - z as int)),
            acc < 10000000000,
        decreases v@.len() - j,
    {
        let c = v[j];
        proof {
            let pre = core.take(j - z as int);
            let nxt = core.take(j + 1 - z as int);
            assert(nxt.take(nxt.len() - 1) =~= pre);
            assert(nxt[nxt.len() - 1] == v@[j as int]);
            assert(all_digits(pre));
            lemma_digits_value_bounds(pre);
            assert(pow10(pre.len()) <= pow10(9)) by {
                lemma_pow10_mono(pre.len(), 9nat);
            }
            assert(pow10(9) == 1000000000) by {
                reveal_with_fuel(pow10, 10);
            }
        }
        let d = (c as u32) - ('0' as u32);
        acc = acc * 10 + (d as u64);
        j += 1;
    }
    proof {
        assert(core.take(v@.len() - z as int) =~= core);
        assert(digits_value(body) == digits_value(core));
    }
    acc <= bound
}

/// Whether the string parses as a 32-bit signed integer.
pub fn is_integer_value(s: &str) -> (r: bool)
    ensures
        r == is_i32_string(s@),
{
    let v = str_chars(s);
    if v.len() == 0 {
        return false;
    }
    let c = v[0];
    if c == '+' {
        proof {
            assert(v@.skip(1).len() > 0 <==> v@.len() > 1);
        }
        digits_within(&v, 1, 2147483647)
    } else if c == '-' {
        digits_within(&v, 1, 2147483648)
    } else {
        proof {
            assert(v@.skip(0) =~= v@);
        }
        digits_within(&v, 0, 2147483647)
    }
}

proof fn lemma_pow10_mono(a: nat, b: nat)
    requires
        a <= b,
    ensures
        pow10(a) <= pow10(b),
        pow10(a) >= 1,
    decreases b,
{
    if a == b {
        lemma_pow10_pos(a);
    } else {
        lemma_pow10_mono(a, (b - 1) as nat);
    }
}

proof fn lemma_pow10_pos(n: nat)
    ensures
        pow10(n) >= 1,
    decreases n,
{
    if n > 0 {
        lemma_pow10_pos((n - 1) as nat);
    }
}

/// Case-insensitive match of one character against a lower-case letter.
pub open spec fn ci_is(c: char, lower: char) -> bool {
    c == lower || (lower as u32 >= 32 && c as u32 == lower as u32 - 32)
}

/// Case-insensitive match of a whole string against a lower-case keyword.
pub open spec fn is_keyword_ci(s: Seq<char>, kw: Seq<char>) -> bool {
    s.len() == kw.len() && forall|i: int| 0 <= i < s.len() ==> ci_is(#[trigger] s[i], kw[i])
}

/// The special float spellings: `inf`, `infinity` and `nan`, in any case.
pub open spec fn inf_nan_ok(s: Seq<char>) -> bool {
    ||| is_keyword_ci(s, seq!['i', 'n', 'f'])
    ||| is_keyword_ci(s, seq!['i', 'n', 'f', 'i', 'n', 'i', 't', 'y'])
    ||| is_keyword_ci(s, seq!['n', 'a', 'n'])
}

/// How many full stops the string holds.
pub open spec fn dot_count(s: Seq<char>) -> int
    decreases s.len(),
{
    if s.len() == 0 {
        0
    } else {
        (if s[0] == '.' {
            1int
        } else {
            0int
        }) + dot_count(s.drop_first())
    }
}

/// A float mantissa: decimal digits with at most one full stop among them,
/// and at least one digit.
pub open spec fn mantissa_ok(m: Seq<char>) -> bool {
    ||| (m.len() >= 1 && all_digits(m))
    ||| (m.len() >= 2 && dot_count(m) == 1 && forall|j: int|
        0 <= j < m.len() ==> is_digit(#[trigger] m[j]) || m[j] == '.')
}

/// Length of an optional leading sign.
pub open spec fn sign_len(s: Seq<char>) -> int {
    if s.len() > 0 && (s[0] == '+' || s[0] == '-') {
        1
    } else {
        0
    }
}

/// A float exponent: nothing at all, or `e`/`E`, an optional sign, and one
/// or more digits.
pub open spec fn exp_ok(x: Seq<char>) -> bool {
    x.len() == 0 || ((x[0] == 'e' || x[0] == 'E') && {
        let b = x.skip(1 + sign_len(x.skip(1)));
        b.len() >= 1 && all_digits(b)
    })
}

/// An unsigned float number: a mantissa followed by an optional exponent.
pub open spec fn number_ok(b: Seq<char>) -> bool {
    exists|k: int| 0 <= k <= b.len() && mantissa_ok(#[trigger] b.take(k)) && exp_ok(b.skip(k))
}

/// Whether `f32::from_str` accepts the string: an optional sign, then one of
/// the special spellings or a number.
pub open spec fn is_float_string(s: Seq<char>) -> bool {
    let b = s.skip(sign_len(s));
    inf_nan_ok(b) || number_ok(b)
}

proof fn lemma_dot_count_digits(m: Seq<char>)
    requires
        forall|j: int| 0 <= j < m.len() ==> is_digit(#[trigger] m[j]),
    ensures
        dot_count(m) == 0,
    decreases m.len(),
{
    if m.len() > 0 {
        assert(is_digit(m[0]));
        lemma_dot_count_digits(m.drop_first());
    }
}

proof fn lemma_dot_count_one(m: Seq<char>, i: int)
    requires
        0 <= i < m.len(),
        m[i] == '.',
        forall|j: int| 0 <= j < m.len() && j != i ==> is_digit(#[trigger] m[j]),
    ensures
        dot_count(m) == 1,
    decreases m.len(),
{
    if i == 0 {
        assert(forall|j: int| 0 <= j < m.drop_first().len() ==> is_digit(
            #[trigger] m.drop_first()[j],
        ));
        lemma_dot_count_digits(m.drop_first());
        assert(!is_digit('.'));
    } else {
        assert(is_digit(m[0]));
        assert(m[0] != '.');
        lemma_dot_count_one(m.drop_first(), i - 1);
    }
}

/// End of the run of decimal digits that starts at `pos`.
fn scan_digits(v: &Vec<char>, pos: usize) -> (end: usize)
    requires
        pos <= v@.len(),
    ensures
        pos <= end <= v@.len(),
        forall|k: int| pos <= k < end ==> is_digit(#[trigger] v@[k]),
        end < v@.len() ==> !is_digit(v@[end as int]),
{
    let mut i: usize = pos;
    while i < v.len() && '0' <= v[i] && v[i] <= '9'
        invariant
            pos <= i <= v@.len(),
            forall|k: int| pos <= k < i ==> is_digit(#[trigger] v@[k]),
        decreases v@.len() - i,
    {
        i += 1;
    }
    i
}

/// Case-insensitive comparison of `v[from..]` against a lower-case keyword.
fn kw_ci(v: &Vec<char>, from: usize, kw: &Vec<char>) -> (r: bool)
    requires
        from <= v@.len(),
    ensures
        r == is_keyword_ci(v@.skip(from as int), kw@),
{
    let ghost b = v@.skip(from as int);
    if v.len() - from != kw.len() {
        return false;
    }
    let mut i: usize = 0;
    while i < kw.len()
        invariant
            0 <= i <= kw.len(),
            b == v@.skip(from as int),
            b.len() == kw@.len(),
            from + kw@.len() <= v@.len(),
            v@.len() <= usize::MAX,
            forall|k: int| 0 <= k < i ==> ci_is(#[trigger] b[k], kw@[k]),
        decreases kw.len() - i,
    {
        proof {
            assert(from + i < v@.len());
        }
        let c = v[from + i];
        let k = kw[i];
        proof {
            assert(b[i as int] == v@[from + i as int]);
        }
        if !(c == k || ((k as u32) >= 32 && (c as u32) == (k as u32) - 32)) {
            proof {
                assert(!ci_is(b[i as int], kw@[i as int]));
            }
            return false;
        }
        proof {
            assert(ci_is(b[i as int], kw@[i as int]));
        }
        i += 1;
    }
    true
}

/// Whether the string parses as a floating-point number.
#[verifier::rlimit(100)]
pub fn is_float_value(s: &str) -> (r: bool)
    ensures
        r == is_float_string(s@),
{
    let v = str_chars(s);
    let start: usize = if v.len() > 0 && (v[0] == '+' || v[0] == '-') {
        1
    } else {
        0
    };
    let ghost b = v@.skip(start as int);
    proof {
        assert(start == sign_len(v@));
    }
    let mut kw: Vec<char> = Vec::new();
    kw.push('i');
    kw.push('n');
    kw.push('f');
    proof {
        assert(kw@ =~= seq!['i', 'n', 'f']);
    }
    if kw_ci(&v, start, &kw) {
        return true;
    }
    kw.push('i');
    kw.push('n');
    kw.push('i');
    kw.push('t');
    kw.push('y');
    proof {
        assert(kw@ =~= seq!['i', 'n', 'f', 'i', 'n', 'i', 't', 'y']);
    }
    if kw_ci(&v, start, &kw) {
        return true;
    }
    let mut kw2: Vec<char> = Vec::new();
    kw2.push('n');
    kw2.push('a');
    kw2.push('n');
    proof {
        assert(kw2@ =~= seq!['n', 'a', 'n']);
    }
    if kw_ci(&v, start, &kw2) {
        return true;
    }
    // from here on the special spellings are ruled out
    let d1e = scan_digits(&v, start);
    let has_dot = d1e < v.len() && v[d1e] == '.';
    let me: usize = if has_dot {
        scan_digits(&v, d1e + 1)
    } else {
        d1e
    };
    let digs = if has_dot {
        (d1e - start) + (me - (d1e + 1))
    } else {
        d1e - start
    };
    proof {
        assert(forall|k: int| 0 <= k < b.len() ==> #[trigger] b[k] == v@[k + start]);
    }
    if digs == 0 {
        proof {
            assert forall|k: int| 0 <= k <= b.len() implies !(mantissa_ok(#[trigger] b.take(k))
                && exp_ok(b.skip(k))) by {
                let m = b.take(k);
                if k >= 1 {
                    assert(m[0] == b[0]);
                    assert(b[0] == v@[start as int]);
                    assert(!is_digit(v@[start as int]));
                    if has_dot {
                        // the dot is at position 0 and nothing follows it but
                        // a non-digit
                        if k >= 2 {
                            assert(m[1] == v@[start as int + 1]);
                            assert(!is_digit(v@[start as int + 1]));
                            assert(m[1] != '.' || dot_count(m) != 1 || is_digit(m[1])) by {
                                if m[1] == '.' && m[0] == '.' {
                                    assert(dot_count(m) >= 2) by {
                                        lemma_dot_count_two(m, 0, 1);
                                    }
                                }
                            }
                            assert(!mantissa_ok(m));
                        } else {
                            assert(m.len() == 1);
                            assert(!mantissa_ok(m));
                        }
                    } else {
                        assert(v@[start as int] != '.');
                        assert(!mantissa_ok(m));
                    }
                } else {
                    assert(m.len() == 0);
                    assert(!mantissa_ok(m));
                }
            }
        }
        return false;
    }
    if me == v.len() {
        proof {
            let kw_ = me - start as int;
            lemma_mantissa_witness(v@, start as int, d1e as int, me as int, has_dot);
            assert(b.skip(kw_) =~= Seq::<char>::empty());
            assert(exp_ok(b.skip(kw_)));
            assert(number_ok(b));
        }
        return true;
    }
    let c = v[me];
    proof {
        assert(b[me - start as int] == v@[me as int]);
        assert(!is_digit(v@[me as int]));
    }
    if !(c == 'e' || c == 'E') {
        proof {
            lemma_no_split(v@, start as int, d1e as int, me as int, has_dot);
        }
        return false;
    }
    let es = me + 1;
    let es2: usize = if es < v.len() && (v[es] == '+' || v[es] == '-') {
        es + 1
    } else {
        es
    };
    let ee = scan_digits(&v, es2);
    if ee == es2 || ee < v.len() {
        proof {
            lemma_no_split_exp(v@, start as int, d1e as int, me as int, has_dot, es2 as int,
                ee as int);
        }
        return false;
    }
    proof {
        let kw_ = me - start as int;
        lemma_mantissa_witness(v@, start as int, d1e as int, me as int, has_dot);
        let x = b.skip(kw_);
        assert(x[0] == v@[me as int]);
        assert(x.skip(1) =~= v@.skip(me as int + 1));
        assert(sign_len(x.skip(1)) == es2 - (me + 1));
        assert(x.skip(1 + sign_len(x.skip(1))) =~= v@.skip(es2 as int));
        assert(v@.skip(es2 as int).len() >= 1);
        assert(forall|k: int| 0 <= k < v@.skip(es2 as int).len() ==> is_digit(
            #[trigger] v@.skip(es2 as int)[k],
        ));
        assert(exp_ok(x));
        assert(number_ok(b));
    }
    true
}

proof fn lemma_dot_count_two(m: Seq<char>, i: int, j: int)
    requires
        0 <= i < j < m.len(),
        m[i] == '.',
        m[j] == '.',
    ensures
        dot_count(m) >= 2,
    decreases m.len(),
{
    if i == 0 {
        lemma_dot_count_ge_one(m.drop_first(), j - 1);
    } else {
        lemma_dot_count_two(m.drop_first(), i - 1, j - 1);
        lemma_dot_count_nonneg(m.drop_first());
    }
}

proof fn lemma_dot_count_ge_one(m: Seq<char>, i: int)
    requires
        0 <= i < m.len(),
        m[i] == '.',
    ensures
        dot_count(m) >= 1,
    decreases m.len(),
{
    lemma_dot_count_nonneg(m.drop_first());
    if i > 0 {
        lemma_dot_count_ge_one(m.drop_first(), i - 1);
    }
}

proof fn lemma_dot_count_nonneg(m: Seq<char>)
    ensures
        dot_count(m) >= 0,
    decreases m.len(),
{
    if m.len() > 0 {
        lemma_dot_count_nonneg(m.drop_first());
    }
}

/// The scanned digit run (with its optional dot) is a valid mantissa.
proof fn lemma_mantissa_witness(v: Seq<char>, start: int, d1e: int, me: int, has_dot: bool)
    requires
        0 <= start <= d1e <= me <= v.len(),
        me > start,
        forall|k: int| start <= k < d1e ==> is_digit(#[trigger] v[k]),
        has_dot ==> d1e < me && d1e < v.len() && v[d1e] == '.' && forall|k: int|
            d1e + 1 <= k < me ==> is_digit(#[trigger] v[k]),
        !has_dot ==> me == d1e,
        has_dot ==> me > d1e + 1 || d1e > start,
    ensures
        mantissa_ok(v.skip(start).take(me - start)),
{
    let m = v.skip(start).take(me - start);
    assert(m.len() == me - start);
    assert(forall|k: int| 0 <= k < m.len() ==> #[trigger] m[k] == v[k + start]);
    if has_dot {
        assert(m[d1e - start] == '.');
        assert(forall|j: int| 0 <= j < m.len() && j != d1e - start ==> is_digit(#[trigger] m[j]));
        lemma_dot_count_one(m, d1e - start);
        assert(m.len() >= 2);
    } else {
        assert(forall|j: int| 0 <= j < m.len() ==> is_digit(#[trigger] m[j]));
    }
}

/// When the character right after the scanned mantissa is not an exponent
/// marker, no split of the input is a valid number.
proof fn lemma_no_split(v: Seq<char>, start: int, d1e: int, me: int, has_dot: bool)
    requires
        0 <= start <= d1e <= me < v.len(),
        forall|k: int| start <= k < d1e ==> is_digit(#[trigger] v[k]),
        d1e < v.len() ==> !is_digit(v[d1e]),
        has_dot ==> d1e < me && v[d1e] == '.' && forall|k: int|
            d1e + 1 <= k < me ==> is_digit(#[trigger] v[k]),
        !has_dot ==> me == d1e && v[d1e] != '.',
        !is_digit(v[me]),
        v[me] != 'e' && v[me] != 'E',
    ensures
        !number_ok(v.skip(start)),
{
    let b = v.skip(start);
    assert(forall|k: int| 0 <= k < b.len() ==> #[trigger] b[k] == v[k + start]);
    assert forall|k: int| 0 <= k <= b.len() implies !(mantissa_ok(#[trigger] b.take(k)) && exp_ok(
        b.skip(k),
    )) by {
        let m = b.take(k);
        if k <= me - start {
            // the rest still holds the non-marker character
            let x = b.skip(k);
            assert(x.len() > 0);
            assert(x[0] == v[k + start]);
            if k + start < d1e {
                assert(is_digit(v[k + start]));
                assert(v[k + start] != 'e' && v[k + start] != 'E');
            } else if k + start == d1e {
                assert(v[d1e] != 'e' && v[d1e] != 'E') by {
                    if has_dot {
                    } else {
                    }
                }
            } else {
                assert(is_digit(v[k + start]) || v[k + start] == '.' || k + start == me);
                assert(v[k + start] != 'e' && v[k + start] != 'E');
            }
            assert(!exp_ok(x));
        } else {
            // the mantissa would hold the non-digit character at `me`
            assert(m[me - start] == v[me]);
            assert(!is_digit(v[me]));
            if has_dot && v[me] == '.' {
                assert(m[d1e - start] == '.');
                lemma_dot_count_two(m, d1e - start, me - start);
                assert(!mantissa_ok(m));
            } else {
                assert(v[me] != '.');
                assert(!mantissa_ok(m));
            }
        }
    }
}

/// When the exponent part after the marker is malformed, no split of the
/// input is a valid number.
proof fn lemma_no_split_exp(
    v: Seq<char>,
    start: int,
    d1e: int,
    me: int,
    has_dot: bool,
    es2: int,
    ee: int,
)
    requires
        0 <= start <= d1e <= me < v.len(),
        forall|k: int| start <= k < d1e ==> is_digit(#[trigger] v[k]),
        d1e < v.len() ==> !is_digit(v[d1e]),
        has_dot ==> d1e < me && v[d1e] == '.' && forall|k: int|
            d1e + 1 <= k < me ==> is_digit(#[trigger] v[k]),
        !has_dot ==> me == d1e && v[d1e] != '.',
        !is_digit(v[me]),
        v[me] == 'e' || v[me] == 'E',
        me + 1 <= es2 <= v.len(),
        es2 == if me + 1 < v.len() && (v[me + 1] == '+' || v[me + 1] == '-') {
            me + 2
        } else {
            me + 1
        },
        es2 <= ee <= v.len(),
        forall|k: int| es2 <= k < ee ==> is_digit(#[trigger] v[k]),
        ee < v.len() ==> !is_digit(v[ee]),
        ee == es2 || ee < v.len(),
    ensures
        !number_ok(v.skip(start)),
{
    let b = v.skip(start);
    assert(forall|k: int| 0 <= k < b.len() ==> #[trigger] b[k] == v[k + start]);
    assert forall|k: int| 0 <= k <= b.len() implies !(mantissa_ok(#[trigger] b.take(k)) && exp_ok(
        b.skip(k),
    )) by {
        let m = b.take(k);
        if k < me - start {
            let x = b.skip(k);
            assert(x.len() > 0);
            assert(x[0] == v[k + start]);
            assert(is_digit(v[k + start]) || v[k + start] == '.');
            assert(!exp_ok(x));
        } else if k == me - start {
            let x = b.skip(k);
            assert(x[0] == v[me]);
            assert(x.skip(1) =~= v.skip(me + 1));
            assert(sign_len(v.skip(me + 1)) == es2 - (me + 1));
            assert(x.skip(1 + sign_len(x.skip(1))) =~= v.skip(es2));
            if ee == es2 {
                if es2 == v.len() {
                    assert(v.skip(es2).len() == 0);
                } else {
                    assert(v.skip(es2)[0] == v[es2]);
                    assert(!is_digit(v[es2]));
                }
                assert(!exp_ok(x));
            } else {
                assert(v.skip(es2)[ee - es2] == v[ee]);
                assert(!is_digit(v[ee]));
                assert(!exp_ok(x));
            }
        } else {
            assert(m[me - start] == v[me]);
            assert(!is_digit(v[me]) && v[me] != '.');
            assert(!mantissa_ok(m));
        }
    }
}

} // verus!
