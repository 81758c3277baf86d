//! Amounts as text: reading the number typed into a form, and writing an
//! amount with two decimal places.
//!
//! An amount is a whole number of hundredths. Text stands for a number when,
//! once the white space around it is gone, it is an optional sign, then digits
//! with at most one point among them and at least one digit in all, then
//! optionally an exponent: `e` or `E`, an optional sign, and digits. The
//! number is rounded to the nearest hundredth, a half upwards. Any other text,
//! any number below zero and any amount too large for 64 bits reads as zero.

use vstd::prelude::*;

verus! {

/// `String::push` of std: the character is appended at the end, and nothing
/// else changes.
pub assume_specification[ String::push ](s: &mut String, c: char)
    ensures
        final(s)@ == old(s)@.push(c),
;

/// `String::pop` of std: the last character is removed and returned; an empty
/// string stays empty and gives `None`.
pub assume_specification[ String::pop ](s: &mut String) -> (last: Option<char>)
    ensures
        old(s)@.len() == 0 ==> last.is_none() && final(s)@ == old(s)@,
        old(s)@.len() > 0 ==> last == Some(old(s)@.last()) && final(s)@ == old(s)@.drop_last(),
;

/// The characters with Unicode's `White_Space` property.
pub open spec fn is_space(c: char) -> bool {
    let u = c as u32;
    ||| 0x09 <= u <= 0x0D
    ||| u == 0x20
    ||| u == 0x85
    ||| u == 0xA0
    ||| u == 0x1680
    ||| 0x2000 <= u <= 0x200A
    ||| u == 0x2028
    ||| u == 0x2029
    ||| u == 0x202F
    ||| u == 0x205F
    ||| u == 0x3000
}

/// The ten digits.
pub open spec fn is_digit(c: char) -> bool {
    0x30 <= c as u32 <= 0x39
}

/// The number that a digit stands for.
pub open spec fn digit_value(c: char) -> nat {
    if is_digit(c) {
        (c as u32 - 0x30) as nat
    } else {
        0
    }
}

/// The digit that stands for a number below ten.
pub open spec fn digit_char(d: nat) -> char {
    seq!['0', '1', '2', '3', '4', '5', '6', '7', '8', '9'][d as int]
}

/// The test that white space passes.
pub open spec fn space_test() -> spec_fn(char) -> bool {
    |c: char| is_space(c)
}

/// The test that every character but the point passes.
pub open spec fn before_point_test() -> spec_fn(char) -> bool {
    |c: char| c != '.'
}

/// How many characters at the start of `s` pass the test `p`, up to the first
/// one that does not.
pub open spec fn run_length(s: Seq<char>, p: spec_fn(char) -> bool) -> nat
    decreases s.len(),
{
    if s.len() > 0 && p(s[0]) {
        1 + run_length(s.drop_first(), p)
    } else {
        0
    }
}

/// `s` without the white space at its start and at its end.
pub open spec fn trimmed(s: Seq<char>) -> Seq<char> {
    let rest = s.skip(run_length(s, space_test()) as int);
    rest.take(rest.len() - run_length(rest.reverse(), space_test()))
}

/// The characters before the first point, or all of them if there is none.
pub open spec fn whole_part(t: Seq<char>) -> Seq<char> {
    t.take(run_length(t, before_point_test()) as int)
}

/// The characters after the first point; empty if there is none.
pub open spec fn fraction_part(t: Seq<char>) -> Seq<char> {
    let point = run_length(t, before_point_test());
    if point < t.len() {
        t.skip(point as int + 1)
    } else {
        Seq::empty()
    }
}

/// Whether every character of `s` is a digit.
pub open spec fn all_digits(s: Seq<char>) -> bool {
    forall|i: int| 0 <= i < s.len() ==> is_digit(#[trigger] s[i])
}

/// The number that a run of digits stands for in base ten.
pub open spec fn digits_value(s: Seq<char>) -> nat
    decreases s.len(),
{
    if s.len() == 0 {
        0
    } else {
        digits_value(s.drop_last()) * 10 + digit_value(s.last())
    }
}

/// The test that every character but the mark of an exponent passes.
pub open spec fn before_exponent_test() -> spec_fn(char) -> bool {
    |c: char| c != 'e' && c != 'E'
}

/// Whether `t` begins with the sign of a number below zero.
pub open spec fn is_negative(t: Seq<char>) -> bool {
    t.len() > 0 && t[0] == '-'
}

/// `t` without the sign that it may begin with.
pub open spec fn unsigned_part(t: Seq<char>) -> Seq<char> {
    if t.len() > 0 && (t[0] == '+' || t[0] == '-') {
        t.drop_first()
    } else {
        t
    }
}

/// Whether `u` has the mark of an exponent.
pub open spec fn has_exponent(u: Seq<char>) -> bool {
    run_length(u, before_exponent_test()) < u.len()
}

/// The characters before the mark of the exponent, or all of them if there
/// is none.
pub open spec fn mantissa_part(u: Seq<char>) -> Seq<char> {
    u.take(run_length(u, before_exponent_test()) as int)
}

/// The characters after the mark of the exponent; empty if there is none.
pub open spec fn exponent_part(u: Seq<char>) -> Seq<char> {
    if has_exponent(u) {
        u.skip(run_length(u, before_exponent_test()) as int + 1)
    } else {
        Seq::empty()
    }
}

/// The exponent that `u` gives; zero where it gives none.
pub open spec fn exponent_value(u: Seq<char>) -> int {
    let x = exponent_part(u);
    if is_negative(x) {
        -(digits_value(unsigned_part(x)) as int)
    } else {
        digits_value(unsigned_part(x)) as int
    }
}

/// The digits of the number before its exponent: those before the point and
/// those after it.
pub open spec fn mantissa_digits(m: Seq<char>) -> Seq<char> {
    whole_part(m) + fraction_part(m)
}

/// Ten to the power `n`.
pub open spec fn pow10(n: nat) -> nat
    decreases n,
{
    if n == 0 {
        1
    } else {
        10 * pow10((n - 1) as nat)
    }
}

/// The number that the digits `d` stand for when the point follows the first
/// `keep` of them, rounded to the nearest whole number, a half upwards.
/// Where `keep` is more than there are digits, zeros follow them; where it is
/// below zero, zeros stand before them.
pub open spec fn scaled_value(d: Seq<char>, keep: int) -> nat {
    if keep < 0 {
        0
    } else if keep < d.len() {
        digits_value(d.take(keep)) + if digit_value(d[keep]) >= 5 {
            1nat
        } else {
            0nat
        }
    } else {
        digits_value(d) * pow10((keep - d.len()) as nat)
    }
}

/// Whether `t` is a number: an optional sign, digits with at most one point
/// and a digit somewhere, and optionally an exponent with its digits.
pub open spec fn is_decimal(t: Seq<char>) -> bool {
    let u = unsigned_part(t);
    let m = mantissa_part(u);
    &&& all_digits(whole_part(m))
    &&& all_digits(fraction_part(m))
    &&& whole_part(m).len() + fraction_part(m).len() > 0
    &&& has_exponent(u) ==> all_digits(unsigned_part(exponent_part(u))) && unsigned_part(
        exponent_part(u),
    ).len() > 0
}

/// The hundredths that the number `t` stands for without its sign, rounded
/// to the nearest, however large.
pub open spec fn decimal_hundredths(t: Seq<char>) -> nat {
    let u = unsigned_part(t);
    let m = mantissa_part(u);
    scaled_value(mantissa_digits(m), whole_part(m).len() + 2 + exponent_value(u))
}

/// The amount that the number `t` stands for; zero where `t` is no number,
/// where the number is below zero, and where the amount does not fit in 64
/// bits.
pub open spec fn decimal_value(t: Seq<char>) -> u64 {
    if is_decimal(t) && !is_negative(t) && decimal_hundredths(t) <= u64::MAX {
        decimal_hundredths(t) as u64
    } else {
        0
    }
}

/// The amount that text stands for; zero where it stands for none.
pub open spec fn amount_of_text(s: Seq<char>) -> u64 {
    decimal_value(trimmed(s))
}

/// The digits of a number in base ten, without leading zeros.
pub open spec fn decimal_digits(n: nat) -> Seq<char>
    decreases n,
{
    if n < 10 {
        seq![digit_char(n)]
    } else {
        decimal_digits(n / 10).push(digit_char(n % 10))
    }
}

/// An amount written with two decimal places.
pub open spec fn amount_text(amount: nat) -> Seq<char> {
    decimal_digits(amount / 100).push('.').push(digit_char(amount % 100 / 10)).push(
        digit_char(amount % 10),
    )
}

/// The run at the start of `s` ends at the first character that fails `p`.
pub proof fn lemma_run_length_ends_at_first_failure(s: Seq<char>, p: spec_fn(char) -> bool)
    ensures
        run_length(s, p) <= s.len(),
        forall|j: int| 0 <= j < run_length(s, p) ==> p(#[trigger] s[j]),
        run_length(s, p) < s.len() ==> !p(s[run_length(s, p) as int]),
    decreases s.len(),
{
    if s.len() > 0 && p(s[0]) {
        let rest = s.drop_first();
        lemma_run_length_ends_at_first_failure(rest, p);
        assert forall|j: int| 0 <= j < run_length(s, p) implies p(#[trigger] s[j]) by {
            if j > 0 {
                assert(s[j] == rest[j - 1]);
            }
        }
        if run_length(s, p) < s.len() {
            assert(s[run_length(s, p) as int] == rest[run_length(rest, p) as int]);
        }
    }
}

/// The digits written for a number are digits, and stand for that number.
pub proof fn lemma_decimal_digits(n: nat)
    ensures
        decimal_digits(n).len() >= 1,
        all_digits(decimal_digits(n)),
        digits_value(decimal_digits(n)) == n,
    decreases n,
{
    lemma_digit_char(n % 10);
    if n < 10 {
        let s = decimal_digits(n);
        assert(s.drop_last() =~= Seq::<char>::empty());
        assert(digits_value(s.drop_last()) == 0);
    } else {
        lemma_decimal_digits(n / 10);
        let s = decimal_digits(n);
        assert(s.drop_last() =~= decimal_digits(n / 10));
    }
}

/// `digit_char` gives the digit whose value is its argument.
pub proof fn lemma_digit_char(d: nat)
    requires
        d < 10,
    ensures
        is_digit(digit_char(d)),
        digit_value(digit_char(d)) == d,
        !is_space(digit_char(d)),
        digit_char(d) != '.',
        digit_char(d) as u32 == 0x30 + d,
{
}

/// Ten to a power is at least one, and grows with the power.
pub proof fn lemma_pow10_grows(a: nat, b: nat)
    requires
        a <= b,
    ensures
        1 <= pow10(a) <= pow10(b),
    decreases b,
{
    if a < b {
        lemma_pow10_grows(a, (b - 1) as nat);
    } else if a > 0 {
        lemma_pow10_grows((a - 1) as nat, (b - 1) as nat);
    }
}

/// Ten to the twentieth does not fit in 64 bits.
pub proof fn lemma_pow10_twenty()
    ensures
        pow10(20) > u64::MAX,
{
    reveal_with_fuel(pow10, 21);
}

/// Digits with the point twenty places or more behind them stand for zero or
/// for more than fits in 64 bits.
proof fn lemma_scaled_far(d: Seq<char>, keep: int)
    requires
        keep >= d.len() + 20,
    ensures
        scaled_value(d, keep) == 0 || scaled_value(d, keep) > u64::MAX,
{
    let places = (keep - d.len()) as nat;
    let value = digits_value(d);
    lemma_pow10_grows(20, places);
    lemma_pow10_twenty();
    if value > 0 {
        assert(value * pow10(places) >= pow10(places)) by (nonlinear_arith)
            requires
                value >= 1,
        ;
    } else {
        assert(value * pow10(places) == 0) by (nonlinear_arith)
            requires
                value == 0,
        ;
    }
}

/// A plus sign before a number that has no sign changes nothing.
pub proof fn lemma_plus_is_ignored(t: Seq<char>)
    requires
        t.len() > 0,
        t[0] != '+',
        t[0] != '-',
    ensures
        decimal_value(seq!['+'] + t) == decimal_value(t),
{
    let signed = seq!['+'] + t;
    assert(signed[0] == '+');
    assert(signed.drop_first() =~= t);
}

/// One more digit behind a run of digits.
pub proof fn lemma_digits_value_push(s: Seq<char>, c: char)
    ensures
        digits_value(s.push(c)) == digits_value(s) * 10 + digit_value(c),
{
    assert(s.push(c).drop_last() =~= s);
}

/// An amount as it is written has no white space around it.
proof fn lemma_amount_text_is_trimmed(amount: u64)
    ensures
        trimmed(amount_text(amount as nat)) == amount_text(amount as nat),
{
    let s = amount_text(amount as nat);
    let digits = decimal_digits(amount as nat / 100);
    lemma_decimal_digits(amount as nat / 100);
    lemma_digit_char(amount as nat % 10);
    assert(s[0] == digits[0]);
    assert(is_digit(s[0]) && !is_space(s[0]));
    assert(run_length(s, space_test()) == 0);
    let rest = s.skip(0);
    assert(rest =~= s);
    assert(rest.reverse()[0] == s[s.len() - 1]);
    assert(run_length(rest.reverse(), space_test()) == 0);
    assert(rest.take(rest.len() as int) =~= s);
}

/// An amount as it is written has neither a sign nor an exponent, and its
/// point stands before its last two digits.
proof fn lemma_amount_text_parts(amount: u64)
    ensures
        ({
            let s = amount_text(amount as nat);
            let digits = decimal_digits(amount as nat / 100);
            let d1 = digit_char(amount as nat % 100 / 10);
            let d2 = digit_char(amount as nat % 10);
            &&& !is_negative(s)
            &&& unsigned_part(s) == s
            &&& mantissa_part(s) == s
            &&& !has_exponent(s)
            &&& exponent_value(s) == 0
            &&& whole_part(s) == digits
            &&& fraction_part(s) == seq![d1, d2]
        }),
{
    let s = amount_text(amount as nat);
    let digits = decimal_digits(amount as nat / 100);
    let d1 = digit_char(amount as nat % 100 / 10);
    let d2 = digit_char(amount as nat % 10);
    let n = digits.len() as int;
    lemma_decimal_digits(amount as nat / 100);
    lemma_digit_char(amount as nat % 100 / 10);
    lemma_digit_char(amount as nat % 10);
    assert(s.len() == n + 3);
    assert(forall|j: int| 0 <= j < n ==> s[j] == digits[j]);
    assert(s[n] == '.' && s[n + 1] == d1 && s[n + 2] == d2);
    assert(is_digit(s[0]));

    lemma_run_length_ends_at_first_failure(s, before_exponent_test());
    let mark = run_length(s, before_exponent_test()) as int;
    if mark < s.len() {
        assert(is_digit(s[mark]) || s[mark] == '.');
    }
    assert(mantissa_part(s) =~= s);
    assert(exponent_part(s) =~= Seq::<char>::empty());
    assert(unsigned_part(exponent_part(s)) =~= Seq::<char>::empty());

    lemma_run_length_ends_at_first_failure(s, before_point_test());
    let point = run_length(s, before_point_test()) as int;
    if point < n {
        assert(is_digit(s[point]));
    }
    assert(point == n);
    assert(whole_part(s) =~= digits);
    assert(fraction_part(s) =~= seq![d1, d2]);
}

/// Reading back an amount that was written gives the amount again.
pub proof fn lemma_amount_text_reads_back(amount: u64)
    ensures
        amount_of_text(amount_text(amount as nat)) == amount,
{
    let whole = amount as nat / 100;
    let d1 = digit_char(amount as nat % 100 / 10);
    let d2 = digit_char(amount as nat % 10);
    let digits = decimal_digits(whole);
    let s = amount_text(amount as nat);
    lemma_amount_text_is_trimmed(amount);
    lemma_amount_text_parts(amount);
    lemma_decimal_digits(whole);
    lemma_digit_char(amount as nat % 100 / 10);
    lemma_digit_char(amount as nat % 10);
    let all = mantissa_digits(s);
    assert(all =~= digits.push(d1).push(d2));
    lemma_digits_value_push(digits, d1);
    lemma_digits_value_push(digits.push(d1), d2);
    assert(digits_value(all) == amount);
    assert(pow10(0) == 1);
    assert(scaled_value(all, all.len() as int) == digits_value(all) * pow10(0));
    assert(digits_value(all) * 1 == digits_value(all)) by (nonlinear_arith);
}

/// Whether `c` is white space.
pub fn is_whitespace(c: char) -> (space: bool)
    ensures
        space == is_space(c),
{
    let u: u32 = c as u32;
    (0x09 <= u && u <= 0x0D) || u == 0x20 || u == 0x85 || u == 0xA0 || u == 0x1680 || (0x2000 <= u
        && u <= 0x200A) || u == 0x2028 || u == 0x2029 || u == 0x202F || u == 0x205F || u == 0x3000
}

/// The number that `c` stands for, if it is a digit.
pub fn digit_of(c: char) -> (d: Option<u64>)
    ensures
        d.is_some() == is_digit(c),
        d.is_some() ==> d.unwrap() == digit_value(c) && d.unwrap() < 10,
{
    let u: u32 = c as u32;
    if 0x30 <= u && u <= 0x39 {
        Some((u - 0x30) as u64)
    } else {
        None
    }
}

/// The characters of a piece of text.
pub fn chars_of(text: &str) -> (chars: Vec<char>)
    ensures
        chars@ == text@,
{
    let mut chars: Vec<char> = Vec::new();
    for c in it: text.chars()
        invariant
            chars@ == it.seq().take(it.index() as int),
            it.seq() == text@,
    {
        chars.push(c);
    }
    chars
}

/// The text with the given characters.
pub fn text_of(chars: &Vec<char>) -> (text: String)
    ensures
        text@ == chars@,
{
    let mut text = String::new();
    let mut i: usize = 0;
    while i < chars.len()
        invariant
            i <= chars@.len(),
            text@ == chars@.take(i as int),
        decreases chars@.len() - i,
    {
        text.push(chars[i]);
        assert(chars@.take(i + 1) =~= chars@.take(i as int).push(chars@[i as int]));
        i += 1;
    }
    assert(chars@.take(i as int) =~= chars@);
    text
}

/// Where the text begins and ends once the white space around it is gone.
fn trim_bounds(chars: &Vec<char>) -> (bounds: (usize, usize))
    ensures
        bounds.0 <= bounds.1 <= chars@.len(),
        chars@.subrange(bounds.0 as int, bounds.1 as int) == trimmed(chars@),
{
    let len = chars.len();
    let mut lo: usize = 0;
    while lo < len && is_whitespace(chars[lo])
        invariant
            lo <= len == chars.len(),
            forall|j: int| 0 <= j < lo ==> is_space(#[trigger] chars[j]),
        decreases len - lo,
    {
        lo += 1;
    }
    let mut hi: usize = len;
    while hi > lo && is_whitespace(chars[hi - 1])
        invariant
            lo <= hi <= len == chars.len(),
            forall|j: int| hi <= j < len ==> is_space(#[trigger] chars[j]),
        decreases hi,
    {
        hi -= 1;
    }
    proof {
        let s = chars@;
        lemma_run_length_ends_at_first_failure(s, space_test());
        assert(run_length(s, space_test()) == lo);
        let rest = s.skip(lo as int);
        let back = rest.reverse();
        lemma_run_length_ends_at_first_failure(back, space_test());
        let run = run_length(back, space_test()) as int;
        if run < len - hi {
            assert(back[run] == s[len - 1 - run]);
        }
        if run > len - hi {
            assert(back[len - hi] == s[hi - 1]);
        }
        assert(run == len - hi);
        assert(rest.take(rest.len() - (len - hi)) =~= s.subrange(lo as int, hi as int));
    }
    (lo, hi)
}

/// Whether the characters of `chars` from `start` to `end` are all digits.
fn all_digits_in(chars: &Vec<char>, start: usize, end: usize) -> (all: bool)
    requires
        start <= end <= chars@.len(),
    ensures
        all == all_digits(chars@.subrange(start as int, end as int)),
{
    let ghost run = chars@.subrange(start as int, end as int);
    let mut k: usize = start;
    while k < end
        invariant
            start <= k <= end <= chars@.len(),
            run == chars@.subrange(start as int, end as int),
            forall|j: int| start <= j < k ==> is_digit(#[trigger] chars[j]),
        decreases end - k,
    {
        if digit_of(chars[k]).is_none() {
            assert(run[k - start] == chars[k as int]);
            return false;
        }
        k += 1;
    }
    assert(forall|j: int| 0 <= j < run.len() ==> run[j] == chars[start + j]);
    true
}

/// Where the mark of an exponent stands among the characters of `chars` from
/// `start` to `end`; `end` where none does.
fn find_exponent(chars: &Vec<char>, start: usize, end: usize) -> (mark: usize)
    requires
        start <= end <= chars@.len(),
    ensures
        start <= mark <= end,
        mark - start == run_length(
            chars@.subrange(start as int, end as int),
            before_exponent_test(),
        ),
{
    let ghost u = chars@.subrange(start as int, end as int);
    let mut k: usize = start;
    while k < end && chars[k] != 'e' && chars[k] != 'E'
        invariant
            start <= k <= end <= chars@.len(),
            forall|j: int| start <= j < k ==> #[trigger] chars[j] != 'e' && chars[j] != 'E',
        decreases end - k,
    {
        k += 1;
    }
    proof {
        lemma_run_length_ends_at_first_failure(u, before_exponent_test());
        let run = run_length(u, before_exponent_test()) as int;
        if run < k - start {
            assert(u[run] == chars[start + run]);
        }
        if run > k - start {
            assert(u[k - start] == chars[k as int]);
        }
    }
    k
}

/// Reads the digits of `chars` from `start` up to the first character that
/// is none, before `end`: where they end and the number that they stand for,
/// or `None` for the number where it does not fit in 64 bits.
fn read_whole(chars: &Vec<char>, start: usize, end: usize) -> (read: (usize, Option<u64>))
    requires
        start <= end <= chars@.len(),
    ensures
        start <= read.0 <= end,
        all_digits(chars@.subrange(start as int, read.0 as int)),
        read.0 < end ==> !is_digit(chars@[read.0 as int]),
        match read.1 {
            Some(n) => n == digits_value(chars@.subrange(start as int, read.0 as int)),
            None => digits_value(chars@.subrange(start as int, read.0 as int)) > u64::MAX,
        },
{
    let mut i: usize = start;
    let mut whole: u64 = 0;
    let mut fits = true;
    while i < end
        invariant
            start <= i <= end <= chars@.len(),
            forall|j: int| start <= j < i ==> is_digit(#[trigger] chars[j]),
            fits ==> whole == digits_value(chars@.subrange(start as int, i as int)),
            !fits ==> digits_value(chars@.subrange(start as int, i as int)) > u64::MAX,
        ensures
            i < end ==> !is_digit(chars[i as int]),
        decreases end - i,
    {
        let digit = match digit_of(chars[i]) {
            Some(d) => d,
            None => { break ; },
        };
        proof {
            let longer = chars@.subrange(start as int, i + 1);
            assert(longer.drop_last() =~= chars@.subrange(start as int, i as int));
            assert(longer.last() == chars[i as int]);
        }
        if fits && whole <= (u64::MAX - digit) / 10 {
            whole = whole * 10 + digit;
        } else {
            fits = false;
        }
        i += 1;
    }
    proof {
        let run = chars@.subrange(start as int, i as int);
        assert(forall|j: int| 0 <= j < run.len() ==> run[j] == chars[start + j]);
    }
    (i, if fits {
        Some(whole)
    } else {
        None
    })
}

/// The largest exponent that is read exactly. With a larger one every number
/// is zero or too large for an amount.
const EXPONENT_LIMIT: u128 = 1_000_000_000_000_000_000_000_000_000_000;

/// Reads the digits of `chars` from `start` to `end` as an exponent: the
/// number that they stand for, or `None` where it is beyond the limit.
fn read_exponent(chars: &Vec<char>, start: usize, end: usize) -> (read: Option<u128>)
    requires
        start <= end <= chars@.len(),
        all_digits(chars@.subrange(start as int, end as int)),
    ensures
        match read {
            Some(n) => n == digits_value(chars@.subrange(start as int, end as int)) && n
                <= EXPONENT_LIMIT,
            None => digits_value(chars@.subrange(start as int, end as int)) > EXPONENT_LIMIT,
        },
{
    let ghost run = chars@.subrange(start as int, end as int);
    let mut i: usize = start;
    let mut value: u128 = 0;
    let mut fits = true;
    while i < end
        invariant
            start <= i <= end <= chars@.len(),
            run == chars@.subrange(start as int, end as int),
            all_digits(run),
            value <= EXPONENT_LIMIT,
            fits ==> value == digits_value(chars@.subrange(start as int, i as int)),
            !fits ==> digits_value(chars@.subrange(start as int, i as int)) > EXPONENT_LIMIT,
        decreases end - i,
    {
        proof {
            let longer = chars@.subrange(start as int, i + 1);
            assert(longer.drop_last() =~= chars@.subrange(start as int, i as int));
            assert(longer.last() == chars[i as int]);
            assert(run[i - start] == chars[i as int]);
        }
        let digit = match digit_of(chars[i]) {
            Some(d) => d as u128,
            None => 0,
        };
        if fits && value * 10 + digit <= EXPONENT_LIMIT {
            value = value * 10 + digit;
        } else {
            fits = false;
        }
        i += 1;
    }
    assert(chars@.subrange(start as int, i as int) == run);
    if fits {
        Some(value)
    } else {
        None
    }
}

/// The number that the digits `digits` stand for when the point follows the
/// first `keep` of them, rounded to the nearest whole number; `None` where it
/// does not fit in 64 bits.
fn scale_digits(digits: &Vec<char>, keep: i128) -> (scaled: Option<u64>)
    requires
        all_digits(digits@),
    ensures
        match scaled {
            Some(n) => n == scaled_value(digits@, keep as int),
            None => scaled_value(digits@, keep as int) > u64::MAX,
        },
{
    let len = digits.len();
    if keep < 0 {
        return Some(0);
    }
    if keep < len as i128 {
        let kept = keep as usize;
        let (end, value) = read_whole(digits, 0, kept);
        proof {
            if end < kept {
                assert(is_digit(digits@[end as int]));
            }
            assert(digits@.subrange(0, kept as int) =~= digits@.take(kept as int));
        }
        let up = match digit_of(digits[kept]) {
            Some(d) => d >= 5,
            None => false,
        };
        return match value {
            Some(n) => if !up {
                Some(n)
            } else if n < u64::MAX {
                Some(n + 1)
            } else {
                None
            },
            None => None,
        };
    }
    let (end, value) = read_whole(digits, 0, len);
    proof {
        if end < len {
            assert(is_digit(digits@[end as int]));
        }
        assert(digits@.subrange(0, len as int) =~= digits@);
    }
    let places: i128 = keep - len as i128;
    let ghost number = digits_value(digits@);
    proof {
        lemma_pow10_grows(0, places as nat);
    }
    let mut scaled: u64 = match value {
        Some(n) => n,
        None => {
            assert(number * pow10(places as nat) >= number) by (nonlinear_arith)
                requires
                    pow10(places as nat) >= 1,
            ;
            return None;
        },
    };
    if scaled == 0 {
        assert(number * pow10(places as nat) == 0) by (nonlinear_arith)
            requires
                number == 0,
        ;
        return Some(0);
    }
    let mut done: i128 = 0;
    assert(number * pow10(0) == number) by (nonlinear_arith)
        requires
            pow10(0) == 1,
    ;
    while done < places
        invariant
            0 <= done <= places,
            places == keep - digits@.len(),
            number == digits_value(digits@),
            scaled == number * pow10(done as nat),
            number >= 1,
        decreases places - done,
    {
        proof {
            assert(pow10((done + 1) as nat) == 10 * pow10(done as nat));
            assert(number * pow10((done + 1) as nat) == 10 * (number * pow10(done as nat)))
                by (nonlinear_arith)
                requires
                    pow10((done + 1) as nat) == 10 * pow10(done as nat),
            ;
        }
        if scaled > u64::MAX / 10 {
            proof {
                lemma_pow10_grows((done + 1) as nat, places as nat);
                assert(number * pow10(places as nat) >= number * pow10((done + 1) as nat))
                    by (nonlinear_arith)
                    requires
                        pow10(places as nat) >= pow10((done + 1) as nat),
                ;
            }
            return None;
        }
        scaled = scaled * 10;
        done = done + 1;
    }
    Some(scaled)
}

/// The parts of a number before its exponent, from where its digits before
/// the point end.
proof fn lemma_decimal_parts(t: Seq<char>, i: int)
    requires
        0 <= i <= t.len(),
        all_digits(t.take(i)),
        i < t.len() ==> !is_digit(t[i]),
    ensures
        i < t.len() && t[i] != '.' ==> !all_digits(whole_part(t)),
        i == t.len() || t[i] == '.' ==> whole_part(t) == t.take(i),
        i == t.len() ==> fraction_part(t) == Seq::<char>::empty(),
        i < t.len() && t[i] == '.' ==> fraction_part(t) == t.skip(i + 1),
{
    lemma_run_length_ends_at_first_failure(t, before_point_test());
    let point = run_length(t, before_point_test()) as int;
    assert(forall|j: int| 0 <= j < i ==> t[j] == t.take(i)[j]);
    if point < i {
        assert(is_digit(t.take(i)[point]));
    }
    if i < t.len() && t[i] != '.' {
        assert(point > i);
        assert(whole_part(t)[i] == t[i]);
    }
}

/// The digits of the number before its exponent, which stands in `chars` from
/// `start` to `end`: those before the point and those after it, and how many
/// stand before the point. `None` where a character there is neither a digit
/// nor the one point, or where there is no digit.
fn read_mantissa(chars: &Vec<char>, start: usize, end: usize) -> (read: Option<(Vec<char>, usize)>)
    requires
        start <= end <= chars@.len(),
    ensures
        ({
            let m = chars@.subrange(start as int, end as int);
            match read {
                Some((digits, before)) => {
                    &&& all_digits(whole_part(m))
                    &&& all_digits(fraction_part(m))
                    &&& digits@.len() > 0
                    &&& digits@ == mantissa_digits(m)
                    &&& before == whole_part(m).len()
                },
                None => !all_digits(whole_part(m)) || !all_digits(fraction_part(m)) || whole_part(
                    m,
                ).len() + fraction_part(m).len() == 0,
            }
        }),
{
    let ghost m = chars@.subrange(start as int, end as int);
    let (point, _) = read_whole(chars, start, end);
    proof {
        assert(chars@.subrange(start as int, point as int) =~= m.take(point - start));
        if point < end {
            assert(m[point - start] == chars@[point as int]);
        }
        lemma_decimal_parts(m, point - start);
    }
    if point < end && chars[point] != '.' {
        return None;
    }
    let after: usize = if point < end {
        point + 1
    } else {
        end
    };
    assert(fraction_part(m) =~= chars@.subrange(after as int, end as int));
    if !all_digits_in(chars, after, end) {
        return None;
    }
    if point == start && after == end {
        return None;
    }
    let mut digits: Vec<char> = Vec::new();
    let mut k: usize = start;
    while k < point
        invariant
            start <= k <= point <= chars@.len(),
            digits@ == chars@.subrange(start as int, k as int),
        decreases point - k,
    {
        digits.push(chars[k]);
        assert(chars@.subrange(start as int, k + 1) =~= chars@.subrange(start as int, k as int).push(
            chars@[k as int],
        ));
        k += 1;
    }
    let mut k: usize = after;
    while k < end
        invariant
            after <= k <= end <= chars@.len(),
            digits@ == chars@.subrange(start as int, point as int) + chars@.subrange(
                after as int,
                k as int,
            ),
        decreases end - k,
    {
        digits.push(chars[k]);
        assert(chars@.subrange(after as int, k + 1) =~= chars@.subrange(after as int, k as int).push(
            chars@[k as int],
        ));
        assert((chars@.subrange(start as int, point as int) + chars@.subrange(
            after as int,
            k as int,
        )).push(chars@[k as int]) =~= chars@.subrange(start as int, point as int)
            + chars@.subrange(after as int, k + 1));
        k += 1;
    }
    Some((digits, point - start))
}

/// The exponent that stands in `chars` from `start` to `end`, behind its
/// mark: whether it is below zero, and its size, or `None` for the size where
/// it is beyond the limit. `None` where what stands there is no exponent.
fn read_signed_exponent(chars: &Vec<char>, start: usize, end: usize) -> (read: Option<
    (bool, Option<u128>),
>)
    requires
        start <= end <= chars@.len(),
    ensures
        ({
            let x = chars@.subrange(start as int, end as int);
            match read {
                Some((negative, size)) => {
                    &&& all_digits(unsigned_part(x))
                    &&& unsigned_part(x).len() > 0
                    &&& negative == is_negative(x)
                    &&& match size {
                        Some(n) => n == digits_value(unsigned_part(x)) && n <= EXPONENT_LIMIT,
                        None => digits_value(unsigned_part(x)) > EXPONENT_LIMIT,
                    }
                },
                None => !all_digits(unsigned_part(x)) || unsigned_part(x).len() == 0,
            }
        }),
{
    let ghost x = chars@.subrange(start as int, end as int);
    let signed = start < end && (chars[start] == '+' || chars[start] == '-');
    let negative = start < end && chars[start] == '-';
    let from: usize = if signed {
        start + 1
    } else {
        start
    };
    proof {
        if start < end {
            assert(x[0] == chars@[start as int]);
        }
        assert(unsigned_part(x) =~= chars@.subrange(from as int, end as int));
    }
    if from == end || !all_digits_in(chars, from, end) {
        return None;
    }
    Some((negative, read_exponent(chars, from, end)))
}

/// Reads the amount that the text from `lo` to `hi` stands for.
fn read_decimal(chars: &Vec<char>, lo: usize, hi: usize) -> (amount: u64)
    requires
        lo <= hi <= chars@.len(),
    ensures
        amount == decimal_value(chars@.subrange(lo as int, hi as int)),
{
    let ghost t = chars@.subrange(lo as int, hi as int);
    proof {
        if lo < hi {
            assert(t[0] == chars@[lo as int]);
        }
    }
    if lo < hi && chars[lo] == '-' {
        return 0;
    }
    let from: usize = if lo < hi && chars[lo] == '+' {
        lo + 1
    } else {
        lo
    };
    let ghost u = chars@.subrange(from as int, hi as int);
    assert(unsigned_part(t) =~= u);
    let mark = find_exponent(chars, from, hi);
    let ghost m = chars@.subrange(from as int, mark as int);
    proof {
        assert(mantissa_part(u) =~= m);
        assert(has_exponent(u) == (mark < hi));
        if mark < hi {
            assert(exponent_part(u) =~= chars@.subrange(mark + 1, hi as int));
        } else {
            assert(unsigned_part(exponent_part(u)) =~= Seq::<char>::empty());
            assert(exponent_value(u) == 0);
        }
    }
    let (digits, before) = match read_mantissa(chars, from, mark) {
        Some(read) => read,
        None => {
            return 0;
        },
    };
    let mut exponent: i128 = 0;
    if mark < hi {
        let (negative, size) = match read_signed_exponent(chars, mark + 1, hi) {
            Some(read) => read,
            None => {
                return 0;
            },
        };
        match size {
            Some(n) => {
                exponent = if negative {
                    -(n as i128)
                } else {
                    n as i128
                };
            },
            None => {
                proof {
                    // So far from the digits that nothing of them is left,
                    // or that they are beyond every amount.
                    let keep = before + 2 + exponent_value(u);
                    if !negative {
                        lemma_scaled_far(digits@, keep);
                    }
                }
                return 0;
            },
        }
    }
    assert(exponent == exponent_value(u));
    match scale_digits(&digits, before as i128 + 2 + exponent) {
        Some(amount) => amount,
        None => 0,
    }
}

/// Reads the amount that the text stands for; text that stands for none reads
/// as zero.
pub fn parse_amount(text: &str) -> (amount: u64)
    ensures
        amount == amount_of_text(text@),
{
    let chars = chars_of(text);
    let (lo, hi) = trim_bounds(&chars);
    read_decimal(&chars, lo, hi)
}

/// The digit that stands for a number below ten.
fn char_of_digit(d: u8) -> (c: char)
    requires
        d < 10,
    ensures
        c == digit_char(d as nat),
{
    let c = (0x30u8 + d) as char;
    proof {
        lemma_digit_char(d as nat);
    }
    c
}

/// Appends the digits of `n` in base ten.
fn push_decimal(out: &mut String, n: u128)
    ensures
        final(out)@ == old(out)@ + decimal_digits(n as nat),
    decreases n,
{
    if n >= 10 {
        push_decimal(out, n / 10);
    }
    out.push(char_of_digit((n % 10) as u8));
    proof {
        if n >= 10 {
            assert(old(out)@ + decimal_digits(n as nat / 10).push(digit_char(n as nat % 10)) =~= (
            old(out)@ + decimal_digits(n as nat / 10)).push(digit_char(n as nat % 10)));
        } else {
            assert(old(out)@ + seq![digit_char(n as nat)] =~= old(out)@.push(digit_char(n as nat)));
        }
    }
}

/// Writes a sum of amounts with two decimal places.
pub fn format_total(total: u128) -> (text: String)
    ensures
        text@ == amount_text(total as nat),
{
    let mut text = String::new();
    push_decimal(&mut text, total / 100);
    text.push('.');
    text.push(char_of_digit((total % 100 / 10) as u8));
    text.push(char_of_digit((total % 10) as u8));
    proof {
        assert(Seq::<char>::empty() + decimal_digits(total as nat / 100) =~= decimal_digits(
            total as nat / 100,
        ));
    }
    text
}

/// Writes an amount with two decimal places. Read back, the text gives the
/// amount again.
pub fn format_amount(amount: u64) -> (text: String)
    ensures
        text@ == amount_text(amount as nat),
        amount_of_text(text@) == amount,
{
    proof {
        lemma_amount_text_reads_back(amount);
    }
    format_total(amount as u128)
}

} // verus!
