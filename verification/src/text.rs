//! Verified text handling for the loader: string equality, the resource
//! file extension rule, and parsing a decimal number literal into
//! fixed-point milli-units.

use vstd::prelude::*;
use crate::geometry::MAX_COORD;

verus! {

/// Character-by-character string equality.
pub fn str_eq(a: &str, b: &str) -> (r: bool)
    ensures
        r == (a@ == b@),
{
    let na = a.unicode_len();
    let nb = b.unicode_len();
    if na != nb {
        return false;
    }
    let mut i: usize = 0;
    while i < na
        invariant
            na == a@.len(),
            na == b@.len(),
            i <= na,
            forall|j: int| 0 <= j < i as int ==> a@[j] == b@[j],
        decreases na - i,
    {
        if a.get_char(i) != b.get_char(i) {
            return false;
        }
        i += 1;
    }
    proof {
        assert(a@ =~= b@);
    }
    true
}

/// The path ends in a `.hvf` file name: its last four characters are
/// `.hvf`, and the character before that dot exists and is not a path
/// separator (so a bare hidden file named `.hvf` has no extension).
pub open spec fn has_hvf_extension(s: Seq<char>) -> bool {
    &&& s.len() >= 5
    &&& s[s.len() - 4] == '.'
    &&& s[s.len() - 3] == 'h'
    &&& s[s.len() - 2] == 'v'
    &&& s[s.len() - 1] == 'f'
    &&& s[s.len() - 5] != '/'
}

/// Checks the resource file extension rule.
pub fn is_hvf_file(s: &str) -> (r: bool)
    ensures
        r == has_hvf_extension(s@),
{
    let n = s.unicode_len();
    if n < 5 {
        return false;
    }
    s.get_char(n - 4) == '.' && s.get_char(n - 3) == 'h' && s.get_char(n - 2) == 'v' && s.get_char(
        n - 1,
    ) == 'f' && s.get_char(n - 5) != '/'
}

/// Numeric value of a digit character.
pub open spec fn digit_val(c: char) -> int {
    c as int - 48
}

pub open spec fn is_digit(c: char) -> bool {
    48 <= c as int <= 57
}

pub open spec fn all_digits(s: Seq<char>) -> bool {
    forall|i: int| 0 <= i < s.len() ==> is_digit(#[trigger] s[i])
}

/// Value of a digit string, most significant digit first.
pub open spec fn digits_val(s: Seq<char>) -> int
    decreases s.len(),
{
    if s.len() == 0 {
        0
    } else {
        digits_val(s.drop_last()) * 10 + digit_val(s.last())
    }
}

pub proof fn lemma_digits_nonneg(s: Seq<char>)
    requires
        all_digits(s),
    ensures
        digits_val(s) >= 0,
    decreases s.len(),
{
    if s.len() > 0 {
        assert(all_digits(s.drop_last()));
        lemma_digits_nonneg(s.drop_last());
    }
}

/// A digit string's value is at least the value of any prefix of it.
pub proof fn lemma_digits_prefix(s: Seq<char>, j: int)
    requires
        all_digits(s),
        0 <= j <= s.len(),
    ensures
        digits_val(s) >= digits_val(s.take(j)),
    decreases s.len() - j,
{
    if j < s.len() {
        lemma_digits_prefix(s, j + 1);
        assert(s.take(j + 1).drop_last() =~= s.take(j));
        assert(all_digits(s.take(j)));
        lemma_digits_nonneg(s.take(j));
        assert(digits_val(s.take(j + 1)) == digits_val(s.take(j)) * 10 + digit_val(s[j]));
    } else {
        assert(s.take(j) =~= s);
    }
}

/// Index of the first `.` in the sequence, or its length if none.
pub open spec fn first_dot(s: Seq<char>) -> int
    decreases s.len(),
{
    if s.len() == 0 {
        0
    } else if s[0] == '.' {
        0
    } else {
        1 + first_dot(s.drop_first())
    }
}

proof fn lemma_first_dot_at(s: Seq<char>, j: int)
    requires
        0 <= j <= s.len(),
        forall|m: int| 0 <= m < j ==> s[m] != '.',
        j == s.len() || s[j] == '.',
    ensures
        first_dot(s) == j,
    decreases j,
{
    if s.len() == 0 {
    } else if j == 0 {
    } else {
        assert(s[0] != '.');
        assert forall|m: int| 0 <= m < j - 1 implies s.drop_first()[m] != '.' by {
            assert(s.drop_first()[m] == s[m + 1]);
        }
        lemma_first_dot_at(s.drop_first(), j - 1);
    }
}

/// Milli-unit value of the fraction digits: the first three digits at
/// place values 100, 10 and 1; further digits are truncated away.
pub open spec fn frac_milli(f: Seq<char>) -> int {
    if f.len() >= 3 {
        digits_val(f.take(3))
    } else if f.len() == 2 {
        digits_val(f) * 10
    } else {
        digits_val(f) * 100
    }
}

/// The value in milli-units of a plain decimal literal: an optional
/// minus sign, a nonempty run of digits, optionally followed by a dot
/// and a nonempty run of digits. `None` for any other shape, and for a
/// magnitude beyond [`MAX_COORD`].
pub open spec fn coord_of(s: Seq<char>) -> Option<i64> {
    let st: int = if s.len() > 0 && s[0] == '-' {
        1
    } else {
        0
    };
    let neg = st == 1;
    let body = s.skip(st);
    let d = first_dot(body);
    if body.len() == 0 {
        None
    } else if d == body.len() {
        if all_digits(body) {
            coord_mk(neg, digits_val(body) * 1000)
        } else {
            None
        }
    } else {
        let ip = body.take(d);
        let fp = body.skip(d + 1);
        if d >= 1 && fp.len() >= 1 && all_digits(ip) && all_digits(fp) {
            coord_mk(neg, digits_val(ip) * 1000 + frac_milli(fp))
        } else {
            None
        }
    }
}

pub open spec fn coord_mk(neg: bool, mag: int) -> Option<i64> {
    if mag > MAX_COORD as int {
        None
    } else if neg {
        Some((-mag) as i64)
    } else {
        Some(mag as i64)
    }
}

/// Finds the first dot at or after `from`, or the string's end.
fn find_dot(s: &str, from: usize) -> (r: usize)
    requires
        from <= s@.len(),
    ensures
        from <= r <= s@.len(),
        r - from == first_dot(s@.skip(from as int)),
{
    let n = s.unicode_len();
    let mut i = from;
    while i < n
        invariant
            from <= i <= n,
            n == s@.len(),
            forall|m: int| from as int <= m < i as int ==> s@[m] != '.',
        decreases n - i,
    {
        if s.get_char(i) == '.' {
            proof {
                assert forall|m: int| 0 <= m < i as int - from as int implies s@.skip(
                    from as int,
                )[m] != '.' by {
                    assert(s@.skip(from as int)[m] == s@[m + from as int]);
                }
                lemma_first_dot_at(s@.skip(from as int), i as int - from as int);
            }
            return i;
        }
        i += 1;
    }
    proof {
        assert forall|m: int| 0 <= m < n as int - from as int implies s@.skip(from as int)[m]
            != '.' by {
            assert(s@.skip(from as int)[m] == s@[m + from as int]);
        }
        lemma_first_dot_at(s@.skip(from as int), n as int - from as int);
    }
    n
}

/// Checks that every character in `[from, to)` is a digit.
fn check_digits(s: &str, from: usize, to: usize) -> (r: bool)
    requires
        from <= to <= s@.len(),
    ensures
        r == all_digits(s@.subrange(from as int, to as int)),
{
    let mut i = from;
    while i < to
        invariant
            from <= i <= to <= s@.len(),
            forall|m: int| from as int <= m < i as int ==> is_digit(#[trigger] s@[m]),
        decreases to - i,
    {
        let c = s.get_char(i);
        if !(c >= '0' && c <= '9') {
            proof {
                assert(s@.subrange(from as int, to as int)[i as int - from as int] == s@[i as int]);
                assert(!is_digit(s@[i as int]));
            }
            return false;
        }
        i += 1;
    }
    proof {
        assert forall|m: int| 0 <= m < to as int - from as int implies is_digit(
            #[trigger] s@.subrange(from as int, to as int)[m],
        ) by {
            assert(s@.subrange(from as int, to as int)[m] == s@[m + from as int]);
        }
    }
    true
}

/// Value of the digits in `[from, to)`, or `None` as soon as it exceeds
/// [`MAX_COORD`].
fn digits_value_capped(s: &str, from: usize, to: usize) -> (r: Option<i64>)
    requires
        from <= to <= s@.len(),
        all_digits(s@.subrange(from as int, to as int)),
    ensures
        match r {
            Some(v) => 0 <= v <= MAX_COORD && v == digits_val(
                s@.subrange(from as int, to as int),
            ),
            None => digits_val(s@.subrange(from as int, to as int)) > MAX_COORD as int,
        },
{
    let ghost whole = s@.subrange(from as int, to as int);
    let mut acc: i64 = 0;
    let mut i = from;
    while i < to
        invariant
            from <= i <= to <= s@.len(),
            whole == s@.subrange(from as int, to as int),
            all_digits(whole),
            0 <= acc <= MAX_COORD,
            acc == digits_val(s@.subrange(from as int, i as int)),
        decreases to - i,
    {
        let c = s.get_char(i);
        proof {
            assert(whole[i as int - from as int] == s@[i as int]);
            assert(is_digit(s@[i as int]));
        }
        let d: i64 = (c as u32 as i64) - 48;
        let next: i64 = acc * 10 + d;
        proof {
            assert(s@.subrange(from as int, i as int + 1).drop_last() =~= s@.subrange(
                from as int,
                i as int,
            ));
            assert(s@.subrange(from as int, i as int + 1).last() == s@[i as int]);
        }
        if next > MAX_COORD {
            proof {
                assert(whole.take(i as int + 1 - from as int) =~= s@.subrange(
                    from as int,
                    i as int + 1,
                ));
                lemma_digits_prefix(whole, i as int + 1 - from as int);
            }
            return None;
        }
        acc = next;
        i += 1;
    }
    Some(acc)
}

/// Milli-unit value of a nonempty run of fraction digits in `[from, to)`.
fn frac_value(s: &str, from: usize, to: usize) -> (r: i64)
    requires
        from < to <= s@.len(),
        all_digits(s@.subrange(from as int, to as int)),
    ensures
        r == frac_milli(s@.subrange(from as int, to as int)),
        0 <= r <= 999,
{
    let ghost fp = s@.subrange(from as int, to as int);
    proof {
        assert(fp[0] == s@[from as int]);
    }
    let d0: i64 = (s.get_char(from) as u32 as i64) - 48;
    if to - from == 1 {
        proof {
            assert(digits_val(Seq::<char>::empty()) == 0);
            assert(fp.drop_last() =~= Seq::<char>::empty());
            assert(fp.last() == s@[from as int]);
            assert(digits_val(fp) == digit_val(s@[from as int]));
        }
        d0 * 100
    } else {
        proof {
            assert(fp[1] == s@[from as int + 1]);
        }
        let d1: i64 = (s.get_char(from + 1) as u32 as i64) - 48;
        if to - from == 2 {
            proof {
                let one = seq![s@[from as int]];
                assert(digits_val(Seq::<char>::empty()) == 0);
                assert(one.drop_last() =~= Seq::<char>::empty());
                assert(one.last() == s@[from as int]);
                assert(digits_val(one) == digit_val(s@[from as int]));
                assert(fp.drop_last() =~= one);
                assert(fp.last() == s@[from as int + 1]);
                assert(digits_val(fp) == digit_val(s@[from as int]) * 10 + digit_val(
                    s@[from as int + 1],
                ));
            }
            d0 * 100 + d1 * 10
        } else {
            proof {
                assert(fp[2] == s@[from as int + 2]);
            }
            let d2: i64 = (s.get_char(from + 2) as u32 as i64) - 48;
            proof {
                let one = seq![s@[from as int]];
                let two = seq![s@[from as int], s@[from as int + 1]];
                let t3 = fp.take(3);
                assert(digits_val(Seq::<char>::empty()) == 0);
                assert(one.drop_last() =~= Seq::<char>::empty());
                assert(one.last() == s@[from as int]);
                assert(digits_val(one) == digit_val(s@[from as int]));
                assert(two.drop_last() =~= one);
                assert(two.last() == s@[from as int + 1]);
                assert(digits_val(two) == digit_val(s@[from as int]) * 10 + digit_val(
                    s@[from as int + 1],
                ));
                assert(t3.drop_last() =~= two);
                assert(t3.last() == s@[from as int + 2]);
                assert(digits_val(t3) == digits_val(two) * 10 + digit_val(s@[from as int + 2]));
                assert(fp.take(3)[0] == s@[from as int]);
                assert(fp.take(3)[1] == s@[from as int + 1]);
                assert(fp.take(3)[2] == s@[from as int + 2]);
            }
            d0 * 100 + d1 * 10 + d2
        }
    }
}

/// Parses a plain decimal literal into milli-units: `"10.5"` becomes
/// `10500`. Rejects any other shape (including exponent forms) and any
/// magnitude beyond [`MAX_COORD`].
pub fn parse_coord(s: &str) -> (r: Option<i64>)
    ensures
        r == coord_of(s@),
        match r {
            Some(v) => -MAX_COORD <= v <= MAX_COORD,
            None => true,
        },
{
    let n = s.unicode_len();
    let neg = n > 0 && s.get_char(0) == '-';
    let start: usize = if neg {
        1
    } else {
        0
    };
    let ghost body = s@.skip(start as int);
    if n == start {
        return None;
    }
    let dot = find_dot(s, start);
    proof {
        assert(body.len() == n - start);
        assert(first_dot(body) == dot as int - start as int);
    }
    if dot == n {
        // no fraction: the whole body must be digits
        proof {
            assert(body =~= s@.subrange(start as int, n as int));
        }
        if !check_digits(s, start, n) {
            return None;
        }
        let mag = match digits_value_capped(s, start, n) {
            Some(v) => v,
            None => {
                proof {
                    lemma_digits_nonneg(body);
                }
                return None;
            },
        };
        proof {
            lemma_digits_nonneg(body);
        }
        if mag > MAX_COORD / 1000 {
            return None;
        }
        let milli = mag * 1000;
        if milli > MAX_COORD {
            return None;
        }
        if neg {
            Some(-milli)
        } else {
            Some(milli)
        }
    } else {
        // integer part, dot, fraction part
        let ghost ip = body.take(dot as int - start as int);
        let ghost fp = body.skip(dot as int - start as int + 1);
        proof {
            assert(ip =~= s@.subrange(start as int, dot as int));
            assert(fp =~= s@.subrange(dot as int + 1, n as int));
        }
        if dot == start || dot + 1 == n {
            return None;
        }
        if !check_digits(s, start, dot) {
            return None;
        }
        if !check_digits(s, dot + 1, n) {
            return None;
        }
        let int_part = match digits_value_capped(s, start, dot) {
            Some(v) => v,
            None => {
                proof {
                    lemma_digits_nonneg(fp);
                    frac_milli_nonneg(fp);
                }
                return None;
            },
        };
        let frac = frac_value(s, dot + 1, n);
        proof {
            lemma_digits_nonneg(ip);
        }
        let milli = int_part * 1000 + frac;
        if milli > MAX_COORD {
            return None;
        }
        if neg {
            Some(-milli)
        } else {
            Some(milli)
        }
    }
}

proof fn frac_milli_nonneg(f: Seq<char>)
    requires
        all_digits(f),
    ensures
        frac_milli(f) >= 0,
{
    if f.len() >= 3 {
        assert(all_digits(f.take(3)));
        lemma_digits_nonneg(f.take(3));
    } else {
        lemma_digits_nonneg(f);
    }
}

} // verus!
