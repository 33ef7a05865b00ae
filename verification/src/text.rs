use vstd::prelude::*;
use vstd::string::StringExecFns;

verus! {

/// The character that writes the decimal digit `d`.
pub open spec fn digit_char(d: int) -> char {
    if d == 0 {
        '0'
    } else if d == 1 {
        '1'
    } else if d == 2 {
        '2'
    } else if d == 3 {
        '3'
    } else if d == 4 {
        '4'
    } else if d == 5 {
        '5'
    } else if d == 6 {
        '6'
    } else if d == 7 {
        '7'
    } else if d == 8 {
        '8'
    } else {
        '9'
    }
}

/// The decimal digits of `n`, most significant first, with no leading
/// zero except for `n == 0` itself.
pub open spec fn dec_digits(n: nat) -> Seq<char>
    decreases n,
{
    if n < 10 {
        seq![digit_char(n as int)]
    } else {
        dec_digits(n / 10).push(digit_char((n % 10) as int))
    }
}

fn digit_str(d: u64) -> (r: &'static str)
    requires
        d < 10,
    ensures
        r@ == seq![digit_char(d as int)],
{
    proof {
        reveal_strlit("0");
        reveal_strlit("1");
        reveal_strlit("2");
        reveal_strlit("3");
        reveal_strlit("4");
        reveal_strlit("5");
        reveal_strlit("6");
        reveal_strlit("7");
        reveal_strlit("8");
        reveal_strlit("9");
    }
    match d {
        0 => "0",
        1 => "1",
        2 => "2",
        3 => "3",
        4 => "4",
        5 => "5",
        6 => "6",
        7 => "7",
        8 => "8",
        _ => "9",
    }
}

/// Writes `n` in decimal.
pub fn u64_string(n: u64) -> (s: String)
    ensures
        s@ == dec_digits(n as nat),
    decreases n,
{
    if n < 10 {
        digit_str(n).to_owned()
    } else {
        proof {
            vstd::arithmetic::div_mod::lemma_div_decreases(n as int, 10);
        }
        let mut s = u64_string(n / 10);
        s.append(digit_str(n % 10));
        s
    }
}

/// Writes `n` in decimal.
pub fn usize_string(n: usize) -> (s: String)
    ensures
        s@ == dec_digits(n as nat),
{
    u64_string(n as u64)
}

/// `raw` thousandths rounded to the nearest hundredth, halves away from
/// zero, as a count of hundredths of the magnitude.
pub open spec fn hundredths_of(raw: int) -> int {
    (if raw < 0 {
        -raw
    } else {
        raw
    } + 5) / 10
}

/// The fixed-point amount `raw / 1000` written with exactly two decimal
/// places, rounded to the nearest hundredth with halves away from zero,
/// with a minus sign in front of any negative amount.
pub open spec fn fixed2_digits(raw: int) -> Seq<char> {
    let h = hundredths_of(raw);
    let frac = seq![digit_char(h / 10 % 10), digit_char(h % 10)];
    let body = dec_digits((h / 100) as nat) + seq!['.'] + frac;
    if raw < 0 {
        seq!['-'] + body
    } else {
        body
    }
}

/// Writes the fixed-point amount `raw / 1000` with two decimal places.
pub fn fixed2_string(raw: i64) -> (s: String)
    requires
        i64::MIN < raw,
    ensures
        s@ == fixed2_digits(raw as int),
{
    let mag: u64 = if raw < 0 {
        (-raw) as u64
    } else {
        raw as u64
    };
    let h: u64 = (mag + 5) / 10;
    let mut s = if raw < 0 {
        proof {
            reveal_strlit("-");
        }
        "-".to_owned()
    } else {
        String::new()
    };
    s.append(u64_string(h / 100).as_str());
    proof {
        reveal_strlit(".");
    }
    s.append(".");
    s.append(digit_str(h / 10 % 10));
    s.append(digit_str(h % 10));
    proof {
        assert(h == hundredths_of(raw as int));
        assert(s@ =~= fixed2_digits(raw as int));
    }
    s
}

} // verus!
