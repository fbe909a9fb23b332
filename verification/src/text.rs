//! Building texts: what errors carry, and amounts as they are sent.

use vstd::prelude::*;
use vstd::arithmetic::power::pow;
use vstd::string::*;

verus! {

/// The decimal digit of a number below ten.
pub open spec fn digit(d: nat) -> char {
    seq!['0', '1', '2', '3', '4', '5', '6', '7', '8', '9'][d as int]
}

/// A number written in base ten without leading zeros.
pub open spec fn decimal(n: nat) -> Seq<char>
    decreases n,
{
    if n < 10 {
        seq![digit(n)]
    } else {
        decimal(n / 10).push(digit(n % 10))
    }
}

/// `Some(x)` or `None` around an already rendered text.
pub open spec fn option_text(inner: Option<Seq<char>>) -> Seq<char> {
    match inner {
        Some(t) => "Some("@ + t + ")"@,
        None => "None"@,
    }
}

/// An optional number as `Some(..)` or `None`.
pub open spec fn option_decimal(n: Option<u64>) -> Seq<char> {
    match n {
        Some(v) => "Some("@ + decimal(v as nat) + ")"@,
        None => "None"@,
    }
}

pub open spec fn bool_text(b: bool) -> Seq<char> {
    if b {
        "true"@
    } else {
        "false"@
    }
}

/// The quoted and escaped form in which `{:?}` prints a string.
pub uninterp spec fn quoted(s: Seq<char>) -> Seq<char>;

/// `{:?}` of `str`, through `format!`: the result depends on the string alone and is
/// named [`quoted`]. Which characters are escaped is left to the standard library.
#[verifier::external_body]
pub(crate) fn quote(s: &str) -> (r: String)
    ensures
        r@ == quoted(s@),
{
    format!("{:?}", s)
}

fn digit_text(d: u128) -> (r: String)
    requires
        d < 10,
    ensures
        r@ == seq![digit(d as nat)],
{
    proof {
        reveal_strlit("0");
        reveal_strlit("1");
        reveal_strlit("2");
        reveal_strlit("3");
        reveal_strlit("4");
        reveal_strlit("5");
        reveal_strlit("6");
        reveal_strlit("7");
        reveal_strlit("8");
        reveal_strlit("9");
    }
    let s: &str = match d {
        0 => "0",
        1 => "1",
        2 => "2",
        3 => "3",
        4 => "4",
        5 => "5",
        6 => "6",
        7 => "7",
        8 => "8",
        _ => "9",
    };
    assert(s@ =~= seq![digit(d as nat)]);
    s.to_owned()
}

fn digits_text(n: u128) -> (r: String)
    ensures
        r@ == decimal(n as nat),
    decreases n,
{
    if n < 10 {
        digit_text(n)
    } else {
        let mut s = digits_text(n / 10);
        let last = digit_text(n % 10);
        s.append(last.as_str());
        assert(s@ =~= decimal(n as nat));
        s
    }
}

/// Renders a number in base ten.
pub fn decimal_text(n: u64) -> (r: String)
    ensures
        r@ == decimal(n as nat),
{
    digits_text(n as u128)
}

/// The last decimal digits of a number, with leading zeros where it has fewer.
pub open spec fn padded(n: nat, count: nat) -> Seq<char>
    decreases count,
{
    if count == 0 {
        Seq::empty()
    } else {
        padded(n / 10, (count - 1) as nat).push(digit(n % 10))
    }
}

/// Digits without the zeros at their end; one digit stays.
pub open spec fn trimmed(s: Seq<char>) -> Seq<char>
    decreases s.len(),
{
    if s.len() > 1 && s.last() == '0' {
        trimmed(s.drop_last())
    } else {
        s
    }
}

/// An amount that is counted in hundred millionths, as a decimal fraction.
pub open spec fn amount(units: nat) -> Seq<char> {
    decimal(units / 100_000_000) + "."@ + trimmed(padded(units % 100_000_000, 8))
}

proof fn lemma_padded_len(n: nat, count: nat)
    ensures
        padded(n, count).len() == count,
    decreases count,
{
    if count > 0 {
        lemma_padded_len(n / 10, (count - 1) as nat);
    }
}

fn padded_text(n: u128, count: u8) -> (r: String)
    requires
        count > 0,
    ensures
        r@ == padded(n as nat, count as nat),
    decreases count,
{
    let last = digit_text(n % 10);
    if count == 1 {
        assert(padded(n as nat / 10, 0) =~= Seq::empty());
        assert(last@ =~= padded(n as nat, 1));
        last
    } else {
        let mut s = padded_text(n / 10, count - 1);
        s.append(last.as_str());
        assert(s@ =~= padded(n as nat, count as nat));
        s
    }
}

fn fraction_text(n: u128, count: u8) -> (r: String)
    requires
        count > 0,
    ensures
        r@ == trimmed(padded(n as nat, count as nat)),
    decreases count,
{
    proof {
        lemma_padded_len(n as nat, count as nat);
        assert(padded(n as nat, count as nat).drop_last() =~= padded(n as nat / 10, (count - 1) as nat));
    }
    if count > 1 && n % 10 == 0 {
        fraction_text(n / 10, count - 1)
    } else {
        padded_text(n, count)
    }
}

/// Renders an amount that is counted in hundred millionths as a decimal fraction.
pub fn amount_text(units: u128) -> (r: String)
    ensures
        r@ == amount(units as nat),
{
    let mut s = digits_text(units / 100_000_000);
    s.append(".");
    s.append(fraction_text(units % 100_000_000, 8).as_str());
    s
}

/// Renders an optional number as `Some(..)` or `None`.
pub fn option_decimal_text(n: Option<u64>) -> (r: String)
    ensures
        r@ == option_decimal(n),
{
    match n {
        Some(v) => {
            let mut s = "Some(".to_owned();
            s.append(decimal_text(v).as_str());
            s.append(")");
            s
        },
        None => "None".to_owned(),
    }
}

/// Puts an already rendered text into `Some(..)`, or gives `None`.
pub fn wrap_option(inner: Option<String>) -> (r: String)
    ensures
        r@ == option_text(match inner {
            Some(t) => Some(t@),
            None => None,
        }),
{
    match inner {
        Some(t) => {
            let mut s = "Some(".to_owned();
            s.append(t.as_str());
            s.append(")");
            s
        },
        None => "None".to_owned(),
    }
}

pub fn flag_text(b: bool) -> (r: String)
    ensures
        r@ == bool_text(b),
{
    if b {
        "true".to_owned()
    } else {
        "false".to_owned()
    }
}

/// Equality of two strings by their characters.
pub fn same_text(a: &str, b: &str) -> (r: bool)
    ensures
        r == (a@ == b@),
{
    a.to_owned() == b.to_owned()
}

/// The number that digits stand for.
pub open spec fn value_of(s: Seq<char>) -> int
    decreases s.len(),
{
    if s.len() == 0 {
        0
    } else {
        10 * value_of(s.drop_last()) + (s.last() as int - '0' as int)
    }
}

/// Whether a text is made of decimal digits.
pub open spec fn all_digits(s: Seq<char>) -> bool {
    forall|i: int| 0 <= i < s.len() ==> '0' <= #[trigger] s[i] <= '9'
}

/// A number in base ten is made of digits, reads back as the number, and has no zero in front unless it
/// is one digit long.
pub proof fn law_decimal_reads_back(n: nat)
    ensures
        decimal(n).len() > 0,
        all_digits(decimal(n)),
        value_of(decimal(n)) == n,
        decimal(n).len() > 1 ==> decimal(n)[0] != '0',
    decreases n,
{
    reveal_with_fuel(value_of, 2);
    let s = decimal(n);
    if n < 10 {
        assert(s.drop_last() =~= Seq::empty());
    } else {
        law_decimal_reads_back(n / 10);
        let t = decimal(n / 10);
        assert(s.drop_last() =~= t);
        assert forall|i: int| 0 <= i < s.len() implies '0' <= #[trigger] s[i] <= '9' by {
            if i < t.len() {
                assert(s[i] == t[i]);
            }
        }
        assert(s[0] == t[0]);
        if t.len() == 1 {
            assert(t.drop_last() =~= Seq::empty());
            assert(value_of(t) == t[0] as int - '0' as int);
        }
    }
}

proof fn lemma_padded_reads_back(n: nat, count: nat)
    ensures
        padded(n, count).len() == count,
        all_digits(padded(n, count)),
        n < pow(10, count) ==> value_of(padded(n, count)) == n,
    decreases count,
{
    reveal(pow);
    let s = padded(n, count);
    if count > 0 {
        let t = padded(n / 10, (count - 1) as nat);
        lemma_padded_reads_back(n / 10, (count - 1) as nat);
        assert(s.drop_last() =~= t);
        assert forall|i: int| 0 <= i < s.len() implies '0' <= #[trigger] s[i] <= '9' by {
            if i < t.len() {
                assert(s[i] == t[i]);
            }
        }
    }
}

proof fn lemma_trimmed_reads_back(s: Seq<char>)
    requires
        s.len() > 0,
        all_digits(s),
    ensures
        0 < trimmed(s).len() <= s.len(),
        all_digits(trimmed(s)),
        value_of(trimmed(s)) * pow(10, (s.len() - trimmed(s).len()) as nat) == value_of(s),
        trimmed(s).len() > 1 ==> trimmed(s).last() != '0',
    decreases s.len(),
{
    reveal(pow);
    if s.len() > 1 && s.last() == '0' {
        let t = s.drop_last();
        assert(all_digits(t)) by {
            assert forall|i: int| 0 <= i < t.len() implies '0' <= #[trigger] t[i] <= '9' by {
                assert(t[i] == s[i]);
            }
        }
        lemma_trimmed_reads_back(t);
        let v = value_of(trimmed(s));
        let k = (t.len() - trimmed(s).len()) as nat;
        assert(pow(10, (k + 1) as nat) == 10 * pow(10, k));
        assert(v * (10 * pow(10, k)) == 10 * (v * pow(10, k))) by (nonlinear_arith);
    }
}

/// An amount reads back as its number of hundred millionths: digits, a point, and one to eight further
/// digits, the last of which is no zero unless it is the only one.
pub proof fn law_amount_reads_back(units: nat) -> (r: (Seq<char>, Seq<char>))
    ensures
        amount(units) == r.0 + "."@ + r.1,
        all_digits(r.0),
        all_digits(r.1),
        r.0.len() > 0,
        r.0.len() > 1 ==> r.0[0] != '0',
        1 <= r.1.len() <= 8,
        r.1.len() > 1 ==> r.1.last() != '0',
        value_of(r.0) * 100_000_000 + value_of(r.1) * pow(10, (8 - r.1.len()) as nat) == units,
{
    let whole = decimal(units / 100_000_000);
    let part = trimmed(padded(units % 100_000_000, 8));
    law_decimal_reads_back(units / 100_000_000);
    reveal_with_fuel(pow, 9);
    assert(pow(10, 8) == 100_000_000);
    lemma_padded_reads_back(units % 100_000_000, 8);
    lemma_trimmed_reads_back(padded(units % 100_000_000, 8));
    (whole, part)
}

/// Whether something is there, or not, can be read off its text, and so can a flag.
pub proof fn law_options_and_flags_in_words(t: Seq<char>, n: u64)
    ensures
        option_text(Some(t)) == "Some("@ + t + ")"@,
        option_text(None) == "None"@,
        option_decimal(Some(n)) == "Some("@ + decimal(n as nat) + ")"@,
        option_decimal(None) == "None"@,
        bool_text(true) == "true"@,
        bool_text(false) == "false"@,
{
}

} // verus!
