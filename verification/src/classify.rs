use vstd::prelude::*;
use vstd::string::StrSliceExecFns;

use crate::stats::views;

verus! {

/// The kind a column is declared to have for narrative purposes.
#[derive(Clone, Copy, PartialEq, Eq, Structural, Debug)]
pub enum ColumnKind {
    Numeric,
    Categorical,
    Boolean,
    Date,
}

/// Whether `c` is a decimal digit.
pub open spec fn is_digit(c: char) -> bool {
    c == '0' || c == '1' || c == '2' || c == '3' || c == '4' || c == '5' || c == '6' || c == '7'
        || c == '8' || c == '9'
}

/// `c` with an ASCII capital letter turned into its small form.
pub open spec fn lower_char(c: char) -> char {
    if c == 'A' {
        'a'
    } else if c == 'B' {
        'b'
    } else if c == 'C' {
        'c'
    } else if c == 'D' {
        'd'
    } else if c == 'E' {
        'e'
    } else if c == 'F' {
        'f'
    } else if c == 'G' {
        'g'
    } else if c == 'H' {
        'h'
    } else if c == 'I' {
        'i'
    } else if c == 'J' {
        'j'
    } else if c == 'K' {
        'k'
    } else if c == 'L' {
        'l'
    } else if c == 'M' {
        'm'
    } else if c == 'N' {
        'n'
    } else if c == 'O' {
        'o'
    } else if c == 'P' {
        'p'
    } else if c == 'Q' {
        'q'
    } else if c == 'R' {
        'r'
    } else if c == 'S' {
        's'
    } else if c == 'T' {
        't'
    } else if c == 'U' {
        'u'
    } else if c == 'V' {
        'v'
    } else if c == 'W' {
        'w'
    } else if c == 'X' {
        'x'
    } else if c == 'Y' {
        'y'
    } else if c == 'Z' {
        'z'
    } else {
        c
    }
}

/// The string with ASCII capitals turned into small letters.
pub open spec fn lower(s: Seq<char>) -> Seq<char> {
    s.map_values(|c: char| lower_char(c))
}

/// `s[from .. to)` is one or more decimal digits.
pub open spec fn spec_digits_range(s: Seq<char>, from: int, to: int) -> bool {
    from < to && forall|i: int| from <= i < to ==> is_digit(#[trigger] s[i])
}

/// `s[from .. to)` is a mantissa: digits with at most one point among
/// them, and at least one digit.
pub open spec fn spec_mantissa(s: Seq<char>, from: int, to: int) -> bool {
    spec_digits_range(s, from, to) || (exists|k: int|
        from <= k < to && s[k] == '.' && to - from >= 2 && (forall|i: int|
            from <= i < to && i != k ==> is_digit(#[trigger] s[i])))
}

/// `s[from .. to)` is an exponent tail: an optional sign, then digits.
pub open spec fn spec_exp_tail(s: Seq<char>, from: int, to: int) -> bool {
    spec_digits_range(s, from, to) || (from < to && (s[from] == '+' || s[from] == '-')
        && spec_digits_range(s, from + 1, to))
}

/// `s[from .. to)` is a mantissa with an optional exponent marked by `e`
/// or `E`.
pub open spec fn spec_number(s: Seq<char>, from: int, to: int) -> bool {
    spec_mantissa(s, from, to) || (exists|e: int|
        from <= e < to && (s[e] == 'e' || s[e] == 'E') && spec_mantissa(s, from, e)
            && spec_exp_tail(s, e + 1, to))
}

/// Where the body of a literal starts: behind one leading sign, if any.
pub open spec fn sign_start(s: Seq<char>) -> int {
    if s.len() > 0 && (s[0] == '+' || s[0] == '-') {
        1
    } else {
        0
    }
}

/// The word spellings that parse as an infinity or a not-a-number
/// instead of a finite number.
pub open spec fn is_special_word(s: Seq<char>) -> bool {
    lower(s) == "inf"@ || lower(s) == "infinity"@ || lower(s) == "nan"@
}

/// `s` follows the floating-point literal grammar: an optional sign,
/// then either a special word (`inf`, `infinity`, `nan`, in any letter
/// case) or a mantissa with an optional exponent.
pub open spec fn is_float_literal(s: Seq<char>) -> bool {
    is_special_word(s.skip(sign_start(s))) || spec_number(s, sign_start(s), s.len() as int)
}

/// `s` writes a finite number: it follows the literal grammar and is not
/// one of the special words.
pub open spec fn is_finite_float_literal(s: Seq<char>) -> bool {
    spec_number(s, sign_start(s), s.len() as int)
}

/// `s` spells a boolean, in any letter case.
pub open spec fn is_bool_literal(s: Seq<char>) -> bool {
    lower(s) == "true"@ || lower(s) == "false"@
}

/// What `chrono::NaiveDate::parse_from_str` accepts under the fixed
/// pattern `%Y-%m-%d`: a proleptic-Gregorian calendar date written as
/// year, month and day with `-` between them.
pub uninterp spec fn parses_ymd(s: Seq<char>) -> bool;

/// Relies on `chrono::NaiveDate::parse_from_str`, with the constant
/// pattern `%Y-%m-%d`: whether the parse succeeds depends on the
/// characters of `s` alone.
#[verifier::external_body]
fn is_date_str(s: &str) -> (b: bool)
    ensures
        b == parses_ymd(s@),
{
    chrono::NaiveDate::parse_from_str(s, "%Y-%m-%d").is_ok()
}

fn to_lower_char(c: char) -> (r: char)
    ensures
        r == lower_char(c),
{
    match c {
        'A' => 'a',
        'B' => 'b',
        'C' => 'c',
        'D' => 'd',
        'E' => 'e',
        'F' => 'f',
        'G' => 'g',
        'H' => 'h',
        'I' => 'i',
        'J' => 'j',
        'K' => 'k',
        'L' => 'l',
        'M' => 'm',
        'N' => 'n',
        'O' => 'o',
        'P' => 'p',
        'Q' => 'q',
        'R' => 'r',
        'S' => 's',
        'T' => 't',
        'U' => 'u',
        'V' => 'v',
        'W' => 'w',
        'X' => 'x',
        'Y' => 'y',
        'Z' => 'z',
        _ => c,
    }
}

fn is_digit_char(c: char) -> (b: bool)
    ensures
        b == is_digit(c),
{
    match c {
        '0' | '1' | '2' | '3' | '4' | '5' | '6' | '7' | '8' | '9' => true,
        _ => false,
    }
}

/// Whether `s`, from position `from` on, spells `pat` apart from letter
/// case.
fn matches_lower(s: &str, from: usize, pat: &str) -> (b: bool)
    requires
        from <= s@.len(),
    ensures
        b == (lower(s@.skip(from as int)) == pat@),
{
    let n = s.unicode_len();
    let m = pat.unicode_len();
    if n - from != m {
        proof {
            assert(lower(s@.skip(from as int)).len() == s@.len() - from);
        }
        return false;
    }
    let mut j: usize = 0;
    while j < m
        invariant
            j <= m == pat@.len(),
            from + m == s@.len(),
            s@.len() <= usize::MAX,
            from <= s@.len(),
            forall|i: int| 0 <= i < j ==> lower_char(s@.skip(from as int)[i]) == pat@[i],
        decreases m - j,
    {
        let c = to_lower_char(s.get_char(from + j));
        let p = pat.get_char(j);
        proof {
            assert(s@.skip(from as int)[j as int] == s@[from + j]);
        }
        if c != p {
            proof {
                assert(lower(s@.skip(from as int))[j as int] != pat@[j as int]);
            }
            return false;
        }
        j = j + 1;
    }
    proof {
        assert(lower(s@.skip(from as int)) =~= pat@);
    }
    true
}

/// Whether `s[from .. to)` is one or more decimal digits.
fn digits_range(s: &str, from: usize, to: usize) -> (b: bool)
    requires
        from <= to <= s@.len(),
    ensures
        b == spec_digits_range(s@, from as int, to as int),
{
    if from >= to {
        return false;
    }
    let mut i: usize = from;
    while i < to
        invariant
            from <= i <= to <= s@.len(),
            forall|k: int| from <= k < i ==> is_digit(#[trigger] s@[k]),
        decreases to - i,
    {
        if !is_digit_char(s.get_char(i)) {
            return false;
        }
        i = i + 1;
    }
    true
}

/// Whether `s[from .. to)` is a mantissa.
fn mantissa_ok(s: &str, from: usize, to: usize) -> (b: bool)
    requires
        from <= to <= s@.len(),
    ensures
        b == spec_mantissa(s@, from as int, to as int),
{
    let mut digits: usize = 0;
    let mut first_dot: Option<usize> = None;
    let mut i: usize = from;
    while i < to
        invariant
            from <= i <= to <= s@.len(),
            digits <= i - from,
            forall|k: int|
                from <= k < i ==> (is_digit(#[trigger] s@[k]) || s@[k] == '.'),
            digits > 0 <==> (exists|k: int| from <= k < i && is_digit(#[trigger] s@[k])),
            match first_dot {
                Some(d) => from <= d < i && s@[d as int] == '.' && (forall|k: int|
                    from <= k < i && k != d ==> is_digit(#[trigger] s@[k])),
                None => forall|k: int| from <= k < i ==> is_digit(#[trigger] s@[k]),
            },
        decreases to - i,
    {
        let c = s.get_char(i);
        if is_digit_char(c) {
            digits = digits + 1;
        } else if c == '.' {
            match first_dot {
                None => {
                    first_dot = Some(i);
                },
                Some(d) => {
                    proof {
                        let dd = d as int;
                        let ii = i as int;
                        assert(s@[dd] == '.' && s@[ii] == '.' && dd != ii);
                        assert(!is_digit('.'));
                        assert forall|k: int|
                            from as int <= k < to as int && s@[k] == '.' && to as int - from as int
                                >= 2 implies !(forall|j: int|
                            from as int <= j < to as int && j != k ==> is_digit(
                                #[trigger] s@[j],
                            )) by {
                            if k != dd {
                                assert(!is_digit(s@[dd]));
                            } else {
                                assert(!is_digit(s@[ii]));
                            }
                        };
                    }
                    return false;
                },
            }
        } else {
            proof {
                let ii = i as int;
                assert(!is_digit(s@[ii]) && s@[ii] != '.');
            }
            return false;
        }
        i = i + 1;
    }
    if digits == 0 {
        proof {
            if from < to {
                assert(!is_digit(s@[from as int]));
            }
            assert(!spec_digits_range(s@, from as int, to as int));
            if spec_mantissa(s@, from as int, to as int) {
                let k = choose|k: int|
                    from as int <= k < to as int && s@[k] == '.' && to as int - from as int >= 2
                        && (forall|i: int|
                        from as int <= i < to as int && i != k ==> is_digit(#[trigger] s@[i]));
                if k > from as int {
                    assert(is_digit(s@[from as int]));
                } else {
                    assert(is_digit(s@[from as int + 1]));
                }
            }
        }
        return false;
    }
    proof {
        match first_dot {
            Some(d) => {
                assert(to as int - from as int >= 2);
                assert(spec_mantissa(s@, from as int, to as int));
            },
            None => {
                assert(spec_digits_range(s@, from as int, to as int));
            },
        }
    }
    true
}

/// Whether `s[from .. to)` is an exponent tail.
fn exp_tail_ok(s: &str, from: usize, to: usize) -> (b: bool)
    requires
        from <= to <= s@.len(),
    ensures
        b == spec_exp_tail(s@, from as int, to as int),
{
    if from >= to {
        return false;
    }
    let c = s.get_char(from);
    if c == '+' || c == '-' {
        digits_range(s, from + 1, to)
    } else {
        proof {
            assert(!spec_digits_range(s@, from as int, to as int) ==> !spec_exp_tail(
                s@,
                from as int,
                to as int,
            ));
        }
        digits_range(s, from, to)
    }
}

/// Whether `s[from .. to)` is a mantissa with an optional exponent.
fn number_ok(s: &str, from: usize, to: usize) -> (b: bool)
    requires
        from <= to <= s@.len(),
    ensures
        b == spec_number(s@, from as int, to as int),
{
    let mut i: usize = from;
    let mut found = false;
    while i < to && !found
        invariant
            from <= i <= to <= s@.len(),
            forall|k: int| from <= k < i ==> !(s@[k] == 'e' || s@[k] == 'E'),
            found ==> i < to && (s@[i as int] == 'e' || s@[i as int] == 'E'),
        decreases 2 * (to - i) + (if found {
            0int
        } else {
            1int
        }),
    {
        let c = s.get_char(i);
        if c == 'e' || c == 'E' {
            found = true;
        } else {
            i = i + 1;
        }
    }
    if !found {
        proof {
            assert forall|e: int|
                from as int <= e < to as int implies !(s@[e] == 'e' || s@[e] == 'E') by {}
        }
        mantissa_ok(s, from, to)
    } else {
        {
            let e0 = i;
            let m = mantissa_ok(s, from, e0);
            let t = exp_tail_ok(s, e0 + 1, to);
            proof {
                let ee = e0 as int;
                assert(s@[ee] == 'e' || s@[ee] == 'E');
                assert(!is_digit('e') && !is_digit('E') && 'e' != '.' && 'E' != '.');
                assert(!spec_mantissa(s@, from as int, to as int)) by {
                    if spec_digits_range(s@, from as int, to as int) {
                        assert(is_digit(s@[ee]));
                    }
                    if exists|k: int|
                        from as int <= k < to as int && s@[k] == '.' && to as int - from as int >= 2
                            && (forall|i: int|
                            from as int <= i < to as int && i != k ==> is_digit(
                                #[trigger] s@[i],
                            )) {
                        let k = choose|k: int|
                            from as int <= k < to as int && s@[k] == '.' && to as int
                                - from as int >= 2 && (forall|i: int|
                                from as int <= i < to as int && i != k ==> is_digit(
                                    #[trigger] s@[i],
                                ));
                        assert(k != ee);
                        assert(is_digit(s@[ee]));
                    }
                }
                if m && t {
                    assert(spec_number(s@, from as int, to as int));
                }
                if !(m && t) {
                    assert forall|e: int|
                        from as int <= e < to as int && (s@[e] == 'e' || s@[e] == 'E')
                            && spec_mantissa(s@, from as int, e) implies !spec_exp_tail(
                        s@,
                        e + 1,
                        to as int,
                    ) || e == ee by {
                        if e < ee {
                        } else if e > ee {
                            assert(!is_digit(s@[ee]) && s@[ee] != '.');
                            assert(!spec_mantissa(s@, from as int, e)) by {
                                if spec_digits_range(s@, from as int, e) {
                                    assert(is_digit(s@[ee]));
                                }
                                if exists|k: int|
                                    from as int <= k < e && s@[k] == '.' && e - from as int >= 2
                                        && (forall|i: int|
                                        from as int <= i < e && i != k ==> is_digit(
                                            #[trigger] s@[i],
                                        )) {
                                    let k = choose|k: int|
                                        from as int <= k < e && s@[k] == '.' && e - from as int >= 2
                                            && (forall|i: int|
                                            from as int <= i < e && i != k ==> is_digit(
                                                #[trigger] s@[i],
                                            ));
                                    assert(k != ee);
                                    assert(is_digit(s@[ee]));
                                }
                            }
                        }
                    }
                }
            }
            m && t
        }
    }
}

/// Whether the whole of `s` follows the floating-point literal grammar:
/// an optional sign, then a special word or a mantissa with an optional
/// exponent.
pub fn is_float_literal_str(s: &str) -> (b: bool)
    ensures
        b == is_float_literal(s@),
{
    let n = s.unicode_len();
    let start: usize = if n > 0 {
        let c = s.get_char(0);
        if c == '+' || c == '-' {
            1
        } else {
            0
        }
    } else {
        0
    };
    proof {
        assert(start as int == sign_start(s@));
    }
    if matches_lower(s, start, "inf") || matches_lower(s, start, "infinity") || matches_lower(
        s,
        start,
        "nan",
    ) {
        proof {
            assert(is_special_word(s@.skip(sign_start(s@))));
        }
        return true;
    }
    proof {
        assert(lower(s@.skip(sign_start(s@))) != "inf"@);
        assert(lower(s@.skip(sign_start(s@))) != "infinity"@);
        assert(lower(s@.skip(sign_start(s@))) != "nan"@);
    }
    number_ok(s, start, n)
}

/// Whether the whole of `s` writes a finite number: the literal grammar
/// without the special words.
pub fn is_finite_float_str(s: &str) -> (b: bool)
    ensures
        b == is_finite_float_literal(s@),
{
    let n = s.unicode_len();
    let start: usize = if n > 0 {
        let c = s.get_char(0);
        if c == '+' || c == '-' {
            1
        } else {
            0
        }
    } else {
        0
    };
    proof {
        assert(start as int == sign_start(s@));
    }
    number_ok(s, start, n)
}

/// Whether the whole of `s` spells a boolean, in any letter case.
pub fn is_bool_str(s: &str) -> (b: bool)
    ensures
        b == is_bool_literal(s@),
{
    let a = matches_lower(s, 0, "true");
    let b = matches_lower(s, 0, "false");
    proof {
        assert(s@.skip(0) =~= s@);
    }
    a || b
}

/// The kind of the column, by the first rule that every cell satisfies:
/// booleans first, then finite numbers, then dates, and otherwise
/// categorical; an empty column counts as numeric, every rule being
/// vacuously true of it.
pub open spec fn spec_classify(vs: Seq<Seq<char>>) -> ColumnKind {
    if vs.len() == 0 {
        ColumnKind::Numeric
    } else if forall|i: int| 0 <= i < vs.len() ==> is_bool_literal(#[trigger] vs[i]) {
        ColumnKind::Boolean
    } else if forall|i: int| 0 <= i < vs.len() ==> is_finite_float_literal(#[trigger] vs[i]) {
        ColumnKind::Numeric
    } else if forall|i: int| 0 <= i < vs.len() ==> parses_ymd(#[trigger] vs[i]) {
        ColumnKind::Date
    } else {
        ColumnKind::Categorical
    }
}

/// Infers the kind of a column of raw cells: `Boolean` when every cell
/// spells a boolean, else `Numeric` when every cell writes a finite
/// number, else `Date` when every cell is a calendar date, and
/// `Categorical` otherwise.  An empty column is `Numeric`: every rule
/// holds vacuously and the tie is settled in favour of numbers.
pub fn detect_column_type(col: &Vec<String>) -> (k: ColumnKind)
    ensures
        k == spec_classify(views(col@)),
{
    let ghost vs = views(col@);
    if col.len() == 0 {
        return ColumnKind::Numeric;
    }
    let mut all_bool = true;
    let mut all_num = true;
    let mut all_date = true;
    let mut i: usize = 0;
    while i < col.len()
        invariant
            i <= col@.len(),
            vs == views(col@),
            all_bool <==> (forall|k: int| 0 <= k < i ==> is_bool_literal(#[trigger] vs[k])),
            all_num <==> (forall|k: int|
                0 <= k < i ==> is_finite_float_literal(#[trigger] vs[k])),
            all_date <==> (forall|k: int| 0 <= k < i ==> parses_ymd(#[trigger] vs[k])),
        decreases col@.len() - i,
    {
        proof {
            assert(vs[i as int] == col@[i as int]@);
        }
        let cell = col[i].as_str();
        if all_bool && !is_bool_str(cell) {
            all_bool = false;
        }
        if all_num && !is_finite_float_str(cell) {
            all_num = false;
        }
        if all_date && !is_date_str(cell) {
            all_date = false;
        }
        i = i + 1;
    }
    if all_bool {
        ColumnKind::Boolean
    } else if all_num {
        ColumnKind::Numeric
    } else if all_date {
        ColumnKind::Date
    } else {
        ColumnKind::Categorical
    }
}

} // verus!
