//! Parsing of command-line coordinate text into a [`Position`].
//!
//! The arguments are joined with single spaces, split on commas and
//! whitespace, and the result must be exactly two tokens, each a signed
//! decimal literal.  A literal is converted exactly into fixed-point angular
//! units (fractional digits beyond the ninth are ignored; a magnitude above
//! `MAX_WHOLE_DEGREES` whole degrees is rejected as out of range).

use vstd::prelude::*;

use crate::convert::NANODEGREES_PER_DEGREE;
use crate::convert::UNITS_PER_NANODEGREE;
use crate::state::Position;

verus! {

/// Whitespace, for the purpose of separating coordinate tokens.
pub open spec fn is_space(c: char) -> bool {
    c == ' ' || c == '\t' || c == '\n' || c == '\r'
}

/// A token separator: a comma counts exactly like whitespace.
pub open spec fn is_sep(c: char) -> bool {
    c == ',' || is_space(c)
}

/// The arguments joined with single spaces, so that tokens may be spread
/// over any number of arguments without ever merging across two of them.
pub open spec fn join_spec(ts: Seq<Seq<char>>) -> Seq<char>
    decreases ts.len(),
{
    if ts.len() == 0 {
        Seq::empty()
    } else if ts.len() == 1 {
        ts[0]
    } else {
        join_spec(ts.drop_last()) + seq![' '] + ts.last()
    }
}

/// One step of splitting on separators: `cur` is the (possibly empty) token
/// being accumulated and `acc` the tokens already produced.
pub open spec fn split_state(s: Seq<char>, cur: Seq<char>, acc: Seq<Seq<char>>) -> Seq<Seq<char>>
    decreases s.len(),
{
    if s.len() == 0 {
        if cur.len() > 0 {
            acc.push(cur)
        } else {
            acc
        }
    } else if is_sep(s[0]) {
        split_state(
            s.subrange(1, s.len() as int),
            Seq::empty(),
            if cur.len() > 0 {
                acc.push(cur)
            } else {
                acc
            },
        )
    } else {
        split_state(s.subrange(1, s.len() as int), cur.push(s[0]), acc)
    }
}

/// The non-empty maximal runs of non-separator characters of `s`, in order.
pub open spec fn split_tokens(s: Seq<char>) -> Seq<Seq<char>> {
    split_state(s, Seq::empty(), Seq::empty())
}

/// The tokens that a given argument list yields: join, then split.
pub open spec fn normalized_tokens(input: Seq<Seq<char>>) -> Seq<Seq<char>> {
    split_tokens(join_spec(input))
}

/// A decimal digit.
pub open spec fn is_digit(c: char) -> bool {
    48 <= c as u32 && c as u32 <= 57
}

/// The numeric value of a decimal digit.
pub open spec fn digit_val(c: char) -> int {
    c as u32 - 48
}

/// Every character of `s` is a decimal digit.
pub open spec fn all_digits(s: Seq<char>) -> bool {
    forall|i: int| 0 <= i < s.len() ==> is_digit(s[i])
}

/// The value of a digit string read in base ten.
pub open spec fn digits_val(s: Seq<char>) -> int
    decreases s.len(),
{
    if s.len() == 0 {
        0
    } else {
        digits_val(s.drop_last()) * 10 + digit_val(s.last())
    }
}

/// The length of the longest digit prefix of `s`.
pub open spec fn digit_prefix_len(s: Seq<char>) -> int
    decreases s.len(),
{
    if s.len() == 0 || !is_digit(s[0]) {
        0
    } else {
        1 + digit_prefix_len(s.subrange(1, s.len() as int))
    }
}

/// Ten to the `n`.
pub open spec fn pow10(n: nat) -> int
    decreases n,
{
    if n == 0 {
        1
    } else {
        10 * pow10((n - 1) as nat)
    }
}

proof fn lemma_digit_prefix_len_exact(s: Seq<char>, k: int)
    requires
        0 <= k <= s.len(),
        forall|j: int| 0 <= j < k ==> is_digit(s[j]),
        k == s.len() || !is_digit(s[k]),
    ensures
        digit_prefix_len(s) == k,
    decreases k,
{
    if k == 0 {
    } else {
        let t = s.subrange(1, s.len() as int);
        assert(forall|j: int| 0 <= j < k - 1 ==> is_digit(t[j]));
        lemma_digit_prefix_len_exact(t, k - 1);
    }
}

/// Joins the arguments with single spaces.
fn join_args(input: &Vec<String>) -> (r: String)
    ensures
        r@ == join_spec(input.deep_view()),
{
    let mut out = String::new();
    let mut idx: usize = 0;
    while idx < input.len()
        invariant
            idx <= input.len(),
            out@ == join_spec(input.deep_view().take(idx as int)),
        decreases input.len() - idx,
    {
        if idx > 0 {
            out.append(" ");
        }
        out.append(input[idx].as_str());
        proof {
            reveal_strlit(" ");
            let dv = input.deep_view();
            assert(dv[idx as int] == input@[idx as int]@);
            assert(dv.take(idx + 1).drop_last() =~= dv.take(idx as int));
            assert(dv.take(idx + 1).last() == dv[idx as int]);
            if idx == 0 {
                assert(out@ =~= join_spec(dv.take(1)));
            } else {
                assert(" "@ =~= seq![' ']);
                assert(out@ =~= join_spec(dv.take(idx as int)) + seq![' '] + dv[idx as int]);
            }
        }
        idx += 1;
    }
    proof {
        assert(input.deep_view().take(input@.len() as int) =~= input.deep_view());
    }
    out
}

/// Is `c` a separator?
fn sep_char(c: char) -> (r: bool)
    ensures
        r == is_sep(c),
{
    c == ',' || c == ' ' || c == '\t' || c == '\n' || c == '\r'
}

/// Splits on commas and whitespace, dropping empty tokens.
fn split_ws(s: &str) -> (parts: Vec<String>)
    ensures
        parts.deep_view() == split_tokens(s@),
{
    let n = s.unicode_len();
    let mut parts: Vec<String> = Vec::new();
    let mut token_start: Option<usize> = None;
    let mut i: usize = 0;
    proof {
        assert(parts.deep_view() =~= Seq::<Seq<char>>::empty());
        assert(s@.skip(0) =~= s@);
    }
    while i < n
        invariant
            i <= n,
            n == s@.len(),
            match token_start {
                Option::None => split_tokens(s@) == split_state(
                    s@.skip(i as int),
                    Seq::empty(),
                    parts.deep_view(),
                ),
                Option::Some(st) => st < i && (forall|j: int|
                    st <= j < i ==> !is_sep(s@[j])) && split_tokens(s@) == split_state(
                    s@.skip(i as int),
                    s@.subrange(st as int, i as int),
                    parts.deep_view(),
                ),
            },
        decreases n - i,
    {
        let c = s.get_char(i);
        proof {
            assert(s@.skip(i as int)[0] == s@[i as int]);
            assert(s@.skip(i as int).subrange(1, s@.skip(i as int).len() as int) =~= s@.skip(
                i + 1,
            ));
        }
        if sep_char(c) {
            match token_start {
                Option::None => {},
                Option::Some(st) => {
                    let tok = s.substring_char(st, i).to_owned();
                    let ghost old_parts = parts.deep_view();
                    parts.push(tok);
                    proof {
                        assert(parts.deep_view() =~= old_parts.push(
                            s@.subrange(st as int, i as int),
                        ));
                    }
                    token_start = None;
                },
            }
        } else {
            match token_start {
                Option::None => {
                    token_start = Some(i);
                    proof {
                        assert(Seq::<char>::empty().push(s@[i as int]) =~= s@.subrange(
                            i as int,
                            i + 1,
                        ));
                    }
                },
                Option::Some(st) => {
                    proof {
                        assert(s@.subrange(st as int, i as int).push(s@[i as int]) =~= s@.subrange(
                            st as int,
                            i + 1,
                        ));
                    }
                },
            }
        }
        i += 1;
    }
    match token_start {
        Option::None => {
            proof {
                assert(s@.skip(n as int) =~= Seq::<char>::empty());
            }
        },
        Option::Some(st) => {
            let tok = s.substring_char(st, n).to_owned();
            let ghost old_parts = parts.deep_view();
            parts.push(tok);
            proof {
                assert(s@.skip(n as int) =~= Seq::<char>::empty());
                assert(parts.deep_view() =~= old_parts.push(s@.subrange(st as int, n as int)));
            }
        },
    }
    parts
}

/// Is the character at position `i` (if any) a decimal digit?
fn digit_at(s: &str, n: usize, i: usize) -> (r: bool)
    requires
        n == s@.len(),
        i <= n,
    ensures
        r == (i < n && is_digit(s@[i as int])),
{
    if i < n {
        let c = s.get_char(i);
        (c as u32) >= 48 && (c as u32) <= 57
    } else {
        false
    }
}

/// Scans the digit run of `s` that starts at `start`.
fn scan_digits(s: &str, n: usize, start: usize) -> (end: usize)
    requires
        n == s@.len(),
        start <= n,
    ensures
        start <= end <= n,
        forall|j: int| start <= j < end ==> is_digit(s@[j]),
        end < n ==> !is_digit(s@[end as int]),
{
    let mut end = start;
    while digit_at(s, n, end)
        invariant
            start <= end <= n,
            n == s@.len(),
            forall|j: int| start <= j < end ==> is_digit(s@[j]),
        decreases n - end,
    {
        end += 1;
    }
    end
}

/// Largest accepted whole-degree magnitude of a coordinate.
pub const MAX_WHOLE_DEGREES: u64 = 1_000_000;

/// Length of the explicit sign of a coordinate literal (zero or one).
pub open spec fn sign_len(t: Seq<char>) -> int {
    if t.len() > 0 && (t[0] == '-' || t[0] == '+') {
        1
    } else {
        0
    }
}

/// Does the literal carry a leading minus sign?
pub open spec fn is_negative(t: Seq<char>) -> bool {
    t.len() > 0 && t[0] == '-'
}

/// The literal with its sign stripped.
pub open spec fn body_of(t: Seq<char>) -> Seq<char> {
    t.skip(sign_len(t))
}

/// The digits before the decimal point.
pub open spec fn int_digits(t: Seq<char>) -> Seq<char> {
    body_of(t).take(digit_prefix_len(body_of(t)))
}

/// Whatever follows the digits before the decimal point.
pub open spec fn after_int(t: Seq<char>) -> Seq<char> {
    body_of(t).skip(digit_prefix_len(body_of(t)))
}

/// The digits after the decimal point (empty when there is no point).
pub open spec fn frac_digits(t: Seq<char>) -> Seq<char> {
    if after_int(t).len() == 0 {
        Seq::empty()
    } else {
        after_int(t).skip(1)
    }
}

/// A coordinate literal: an optional sign, at least one digit, and
/// optionally a decimal point followed by at least one digit.
pub open spec fn is_coord_literal(t: Seq<char>) -> bool {
    let body = body_of(t);
    let k = digit_prefix_len(body);
    let rest = body.skip(k);
    &&& k >= 1
    &&& (rest.len() == 0 || (rest[0] == '.' && rest.len() >= 2 && all_digits(
        rest.skip(1),
    )))
}

/// The fractional digits as a whole number of nanodegrees: the first nine
/// digits, padded with zeros on the right.  Digits beyond the ninth are
/// below the resolution of an angle and are ignored.
pub open spec fn frac_scaled(f: Seq<char>) -> int {
    if f.len() >= 9 {
        digits_val(f.take(9))
    } else {
        digits_val(f) * pow10((9 - f.len()) as nat)
    }
}

/// The magnitude of a coordinate literal, in nanodegrees.
pub open spec fn magnitude_nanodegrees(t: Seq<char>) -> int {
    digits_val(int_digits(t)) * NANODEGREES_PER_DEGREE + frac_scaled(frac_digits(t))
}

/// The whole-degree part fits the representable range.
pub open spec fn coord_in_range(t: Seq<char>) -> bool {
    digits_val(int_digits(t)) <= MAX_WHOLE_DEGREES
}

/// A coordinate token that parses: well-formed and in range.
pub open spec fn is_valid_coord(t: Seq<char>) -> bool {
    is_coord_literal(t) && coord_in_range(t)
}

/// The exact value of a coordinate literal, in fixed-point angular units.
pub open spec fn coord_units(t: Seq<char>) -> int {
    (if is_negative(t) {
        -1
    } else {
        1
    }) * magnitude_nanodegrees(t) * UNITS_PER_NANODEGREE
}

proof fn lemma_pow10_pos(n: nat)
    ensures
        pow10(n) >= 1,
    decreases n,
{
    if n > 0 {
        lemma_pow10_pos((n - 1) as nat);
    }
}

proof fn lemma_pow10_le(a: nat, b: nat)
    requires
        a <= b,
    ensures
        pow10(a) <= pow10(b),
    decreases b,
{
    if a < b {
        lemma_pow10_le(a, (b - 1) as nat);
        lemma_pow10_pos((b - 1) as nat);
    }
}

proof fn lemma_pow10_nine()
    ensures
        pow10(9) == 1_000_000_000,
{
    assert(pow10(0) == 1);
    assert(pow10(1) == 10);
    assert(pow10(2) == 100);
    assert(pow10(3) == 1000);
    assert(pow10(4) == 10000);
    assert(pow10(5) == 100000);
    assert(pow10(6) == 1000000);
    assert(pow10(7) == 10000000);
    assert(pow10(8) == 100000000);
}

/// The numeric value of the digit at position `j`.
fn digit_value_at(s: &str, j: usize) -> (d: u64)
    requires
        j < s@.len(),
        is_digit(s@[j as int]),
    ensures
        d == digit_val(s@[j as int]),
        d <= 9,
{
    let c = s.get_char(j);
    ((c as u32) - 48) as u64
}

/// Reads the digits of `s` in `[from, to)` as a whole number, reporting
/// instead whether the value exceeds `MAX_WHOLE_DEGREES`.
fn digits_value_capped(s: &str, from: usize, to: usize) -> (r: (u64, bool))
    requires
        from <= to <= s@.len(),
        forall|j: int| from <= j < to ==> is_digit(s@[j]),
    ensures
        !r.1 ==> r.0 == digits_val(s@.subrange(from as int, to as int)) && r.0
            <= MAX_WHOLE_DEGREES,
        r.1 <==> digits_val(s@.subrange(from as int, to as int)) > MAX_WHOLE_DEGREES,
{
    let mut v: u64 = 0;
    let mut big = false;
    let mut j = from;
    proof {
        assert(s@.subrange(from as int, from as int) =~= Seq::<char>::empty());
    }
    while j < to
        invariant
            from <= j <= to <= s@.len(),
            forall|jj: int| from <= jj < to ==> is_digit(s@[jj]),
            !big ==> v == digits_val(s@.subrange(from as int, j as int)) && v
                <= MAX_WHOLE_DEGREES,
            big ==> digits_val(s@.subrange(from as int, j as int)) > MAX_WHOLE_DEGREES,
        decreases to - j,
    {
        let d = digit_value_at(s, j);
        proof {
            let p = s@.subrange(from as int, j as int);
            let q = s@.subrange(from as int, j + 1);
            assert(q.drop_last() =~= p);
            assert(q.last() == s@[j as int]);
            assert(digits_val(q) == digits_val(p) * 10 + digit_val(s@[j as int]));
        }
        if !big {
            let nv = v * 10 + d;
            if nv > MAX_WHOLE_DEGREES {
                big = true;
            } else {
                v = nv;
            }
        }
        j += 1;
    }
    (v, big)
}

/// Reads the fractional digits of `s` in `[from, to)` as nanodegrees.
fn frac_value(s: &str, from: usize, to: usize) -> (v: u64)
    requires
        from <= to <= s@.len(),
        forall|j: int| from <= j < to ==> is_digit(s@[j]),
    ensures
        v == frac_scaled(s@.subrange(from as int, to as int)),
        v < 1_000_000_000,
{
    let f_len = to - from;
    let m: usize = if f_len > 9 {
        9
    } else {
        f_len
    };
    let ghost f = s@.subrange(from as int, to as int);
    let mut v: u64 = 0;
    let mut j = from;
    proof {
        assert(s@.subrange(from as int, from as int) =~= Seq::<char>::empty());
        lemma_pow10_nine();
    }
    while j < from + m
        invariant
            from <= j <= from + m,
            m <= 9,
            from + m <= to <= s@.len(),
            forall|jj: int| from <= jj < to ==> is_digit(s@[jj]),
            v == digits_val(s@.subrange(from as int, j as int)),
            v < pow10((j - from) as nat),
        decreases from + m - j,
    {
        let d = digit_value_at(s, j);
        proof {
            let p = s@.subrange(from as int, j as int);
            let q = s@.subrange(from as int, j + 1);
            assert(q.drop_last() =~= p);
            assert(q.last() == s@[j as int]);
            assert(digits_val(q) == digits_val(p) * 10 + digit_val(s@[j as int]));
            lemma_pow10_nine();
            lemma_pow10_le((j - from) as nat, 9);
        }
        v = v * 10 + d;
        j += 1;
    }
    proof {
        lemma_pow10_nine();
        lemma_pow10_le(m as nat, 9);
    }
    if m == 9 {
        proof {
            assert(s@.subrange(from as int, from + 9) =~= f.take(9));
        }
        v
    } else {
        let ghost dv = digits_val(s@.subrange(from as int, to as int));
        proof {
            assert(s@.subrange(from as int, from + m) =~= f);
        }
        let mut p: usize = 0;
        while p < 9 - m
            invariant
                0 <= p <= 9 - m,
                m < 9,
                v == dv * pow10(p as nat),
                dv == digits_val(f),
                f.len() == m,
                all_digits(f),
                v < pow10((m + p) as nat),
            decreases 9 - m - p,
        {
            proof {
                lemma_pow10_nine();
                lemma_pow10_le((m + p) as nat, 9);
                assert((dv * pow10(p as nat)) * 10 == dv * (10 * pow10(p as nat)))
                    by (nonlinear_arith);
                assert(10 * pow10(p as nat) == pow10((p + 1) as nat));
            }
            v = v * 10;
            p += 1;
        }
        proof {
            lemma_pow10_nine();
            lemma_pow10_le((m + (9 - m)) as nat, 9);
            assert(frac_scaled(f) == digits_val(f) * pow10((9 - m) as nat));
        }
        v
    }
}

/// Why a coordinate argument list was rejected.
#[derive(Debug, Clone, PartialEq, Eq)]
pub enum ParseError {
    /// The arguments split into some number of tokens other than two.
    MalformedCoordinateCount { actual: usize },
    /// A token is not a coordinate literal (or is out of range).  When
    /// `latitude` holds it was the first token, otherwise the second.
    MalformedCoordinateValue { latitude: bool, token: String },
}

/// The decimal digit character for a value below ten.
pub open spec fn digit_char(d: int) -> char {
    if d == 0 {
        '0'
    } else if d == 1 {
        '1'
    } else if d == 2 {
        '2'
    } else if d == 3 {
        '3'
    } else if d == 4 {
        '4'
    } else if d == 5 {
        '5'
    } else if d == 6 {
        '6'
    } else if d == 7 {
        '7'
    } else if d == 8 {
        '8'
    } else {
        '9'
    }
}

/// The decimal digit string of `n`, without a sign and without leading
/// zeros (a single zero for zero).
pub open spec fn dec_str(n: nat) -> Seq<char>
    decreases n,
{
    if n < 10 {
        seq![digit_char(n as int)]
    } else {
        dec_str(n / 10).push(digit_char((n % 10) as int))
    }
}

/// Appends the decimal digit string of `n`.
fn push_decimal(n: usize, out: &mut String)
    ensures
        final(out)@ == old(out)@ + dec_str(n as nat),
    decreases n,
{
    if n >= 10 {
        push_decimal(n / 10, out);
    }
    let d = n % 10;
    if d == 0 {
        out.append("0");
    } else if d == 1 {
        out.append("1");
    } else if d == 2 {
        out.append("2");
    } else if d == 3 {
        out.append("3");
    } else if d == 4 {
        out.append("4");
    } else if d == 5 {
        out.append("5");
    } else if d == 6 {
        out.append("6");
    } else if d == 7 {
        out.append("7");
    } else if d == 8 {
        out.append("8");
    } else {
        out.append("9");
    }
    proof {
        reveal_strlit("0");
        reveal_strlit("1");
        reveal_strlit("2");
        reveal_strlit("3");
        reveal_strlit("4");
        reveal_strlit("5");
        reveal_strlit("6");
        reveal_strlit("7");
        reveal_strlit("8");
        reveal_strlit("9");
        assert(final(out)@ =~= old(out)@ + dec_str(n as nat));
    }
}

impl ParseError {
    /// The report text of this error.
    pub open spec fn message_spec(self) -> Seq<char> {
        match self {
            ParseError::MalformedCoordinateCount { actual } => "Expected 2 coordinates, got "@
                + dec_str(actual as nat) + ". Usage: simgps <lat> <lng>"@,
            ParseError::MalformedCoordinateValue { latitude, token } => (if latitude {
                "Invalid latitude: "@
            } else {
                "Invalid longitude: "@
            }) + token@,
        }
    }

    /// Renders the report text, naming the failing token or citing the
    /// actual token count.
    pub fn message(&self) -> (r: String)
        ensures
            r@ == self.message_spec(),
    {
        match self {
            ParseError::MalformedCoordinateCount { actual } => {
                let mut out = String::from_str("Expected 2 coordinates, got ");
                push_decimal(*actual, &mut out);
                out.append(". Usage: simgps <lat> <lng>");
                out
            },
            ParseError::MalformedCoordinateValue { latitude, token } => {
                let mut out = if *latitude {
                    String::from_str("Invalid latitude: ")
                } else {
                    String::from_str("Invalid longitude: ")
                };
                out.append(token.as_str());
                out
            },
        }
    }
}

/// Parses one coordinate token into fixed-point angular units.
///
/// Returns the exact value of a well-formed, in-range literal and `None`
/// for anything else.
pub fn parse_coord_token(t: &str) -> (r: Option<i64>)
    ensures
        match r {
            Option::Some(v) => is_valid_coord(t@) && v as int == coord_units(t@),
            Option::None => !is_valid_coord(t@),
        },
{
    let n = t.unicode_len();
    let mut start: usize = 0;
    let mut neg = false;
    if n > 0 {
        let c0 = t.get_char(0);
        if c0 == '-' {
            neg = true;
            start = 1;
        } else if c0 == '+' {
            start = 1;
        }
    }
    let ghost body = body_of(t@);
    proof {
        assert(start == sign_len(t@));
        assert(neg == is_negative(t@));
        assert(body =~= t@.skip(start as int));
    }
    let int_end = scan_digits(t, n, start);
    proof {
        assert(forall|j: int| 0 <= j < int_end - start ==> is_digit(body[j]));
        if int_end - start < body.len() {
            assert(body[int_end - start] == t@[int_end as int]);
        }
        lemma_digit_prefix_len_exact(body, int_end - start);
    }
    let ghost k = int_end - start;
    let ghost rest = body.skip(k as int);
    if int_end == start {
        return None;
    }
    let (int_val, too_big) = digits_value_capped(t, start, int_end);
    proof {
        assert(int_digits(t@) =~= t@.subrange(start as int, int_end as int));
    }
    if int_end == n {
        if too_big {
            return None;
        }
        let scaled = int_val * 1_000_000_000;
        let units = scaled * 111;
        proof {
            assert(rest =~= Seq::<char>::empty());
            assert(frac_digits(t@) =~= Seq::<char>::empty());
            assert(frac_scaled(Seq::<char>::empty()) == 0);
        }
        if neg {
            return Some(-(units as i64));
        } else {
            return Some(units as i64);
        }
    }
    let c = t.get_char(int_end);
    proof {
        assert(rest[0] == t@[int_end as int]);
    }
    if c != '.' {
        return None;
    }
    let frac_start = int_end + 1;
    if frac_start == n {
        return None;
    }
    let frac_end = scan_digits(t, n, frac_start);
    let ghost frac = rest.skip(1);
    proof {
        assert(frac =~= t@.subrange(frac_start as int, n as int));
        assert(frac_digits(t@) =~= frac);
    }
    if frac_end < n {
        proof {
            assert(frac[frac_end - frac_start] == t@[frac_end as int]);
            assert(!is_digit(frac[frac_end - frac_start]));
            assert(!all_digits(frac));
        }
        return None;
    }
    if too_big {
        return None;
    }
    proof {
        assert(forall|j: int| 0 <= j < frac.len() ==> is_digit(frac[j]));
        assert(all_digits(frac));
    }
    let frac_val = frac_value(t, frac_start, n);
    let scaled = int_val * 1_000_000_000 + frac_val;
    let units = scaled * 111;
    proof {
        assert(int_val == digits_val(int_digits(t@)));
        assert(frac_val == frac_scaled(frac_digits(t@)));
        assert(scaled == magnitude_nanodegrees(t@));
        assert(units == magnitude_nanodegrees(t@) * UNITS_PER_NANODEGREE);
    }
    if neg {
        proof {
            assert(coord_units(t@) == -1 * magnitude_nanodegrees(t@) * UNITS_PER_NANODEGREE);
            assert(-(units as int) == coord_units(t@));
        }
        Some(-(units as i64))
    } else {
        proof {
            assert(coord_units(t@) == 1 * magnitude_nanodegrees(t@) * UNITS_PER_NANODEGREE);
            assert(units as int == coord_units(t@));
        }
        Some(units as i64)
    }
}

/// What [`parse_coords`] returns for a given argument list: exactly two
/// tokens must come out of joining and splitting, the count error cites the
/// actual count, the value error names the first failing token (the first
/// token plays the latitude, the second the longitude), and on success the
/// position holds the exact fixed-point value of each token.
pub open spec fn parse_result_matches(
    input: Seq<Seq<char>>,
    r: Result<Position, ParseError>,
) -> bool {
    let toks = normalized_tokens(input);
    if toks.len() != 2 {
        r matches Err(ParseError::MalformedCoordinateCount { actual }) && actual as int
            == toks.len() as int
    } else if !is_valid_coord(toks[0]) {
        r matches Err(ParseError::MalformedCoordinateValue { latitude, token }) && latitude
            == true && token@ == toks[0]
    } else if !is_valid_coord(toks[1]) {
        r matches Err(ParseError::MalformedCoordinateValue { latitude, token }) && latitude
            == false && token@ == toks[1]
    } else {
        r matches Ok(p) && p.lat_units as int == coord_units(toks[0]) && p.lng_units as int
            == coord_units(toks[1])
    }
}

/// Parses the coordinate arguments into a position.
///
/// The arguments are joined with single spaces and split on commas and
/// whitespace; exactly two tokens must remain, and each must be a
/// coordinate literal in range.
pub fn parse_coords(input: &Vec<String>) -> (r: Result<Position, ParseError>)
    ensures
        parse_result_matches(input.deep_view(), r),
{
    let joined = join_args(input);
    let parts = split_ws(joined.as_str());
    let ghost toks = normalized_tokens(input.deep_view());
    proof {
        assert(parts@.len() == parts.deep_view().len());
    }
    if parts.len() != 2 {
        return Err(ParseError::MalformedCoordinateCount { actual: parts.len() });
    }
    proof {
        assert(parts.deep_view()[0] == parts@[0]@);
        assert(parts.deep_view()[1] == parts@[1]@);
    }
    let lat_units = match parse_coord_token(parts[0].as_str()) {
        Some(v) => v,
        None => {
            return Err(
                ParseError::MalformedCoordinateValue { latitude: true, token: parts[0].clone() },
            );
        },
    };
    let lng_units = match parse_coord_token(parts[1].as_str()) {
        Some(v) => v,
        None => {
            return Err(
                ParseError::MalformedCoordinateValue { latitude: false, token: parts[1].clone() },
            );
        },
    };
    Ok(Position { lat_units, lng_units })
}

proof fn lemma_split_nonsep_run(p: Seq<char>, rest: Seq<char>, cur: Seq<char>, acc: Seq<Seq<char>>)
    requires
        forall|i: int| 0 <= i < p.len() ==> !is_sep(p[i]),
    ensures
        split_state(p + rest, cur, acc) == split_state(rest, cur + p, acc),
    decreases p.len(),
{
    if p.len() == 0 {
        assert(p + rest =~= rest);
        assert(cur + p =~= cur);
    } else {
        let s = p + rest;
        assert(s[0] == p[0]);
        assert(s.subrange(1, s.len() as int) =~= p.subrange(1, p.len() as int) + rest);
        lemma_split_nonsep_run(p.subrange(1, p.len() as int), rest, cur.push(p[0]), acc);
        assert(cur.push(p[0]) + p.subrange(1, p.len() as int) =~= cur + p);
    }
}

/// Separator invariance: whenever an argument list yields the two tokens
/// `lat_tok` and `lng_tok`, the canonical single argument written as the
/// first token, a comma, and the second token yields the same two tokens,
/// so parsing the list and parsing the canonical form agree on every
/// possible result.
pub proof fn lemma_separator_invariance(
    input: Seq<Seq<char>>,
    lat_tok: Seq<char>,
    lng_tok: Seq<char>,
)
    requires
        lat_tok.len() > 0,
        lng_tok.len() > 0,
        forall|i: int| 0 <= i < lat_tok.len() ==> !is_sep(lat_tok[i]),
        forall|i: int| 0 <= i < lng_tok.len() ==> !is_sep(lng_tok[i]),
        normalized_tokens(input) == seq![lat_tok, lng_tok],
    ensures
        normalized_tokens(seq![lat_tok + seq![','] + lng_tok]) == seq![lat_tok, lng_tok],
        forall|r: Result<Position, ParseError>|
            parse_result_matches(input, r) == parse_result_matches(
                seq![lat_tok + seq![','] + lng_tok],
                r,
            ),
{
    let canonical = lat_tok + seq![','] + lng_tok;
    assert(join_spec(seq![canonical]) == canonical);
    assert(canonical =~= lat_tok + (seq![','] + lng_tok));
    lemma_split_nonsep_run(lat_tok, seq![','] + lng_tok, Seq::empty(), Seq::empty());
    assert(Seq::<char>::empty() + lat_tok =~= lat_tok);
    let mid = seq![','] + lng_tok;
    assert(mid[0] == ',');
    assert(mid.subrange(1, mid.len() as int) =~= lng_tok);
    assert(split_state(mid, lat_tok, Seq::empty()) == split_state(
        lng_tok,
        Seq::empty(),
        seq![lat_tok],
    ));
    lemma_split_nonsep_run(lng_tok, Seq::empty(), Seq::empty(), seq![lat_tok]);
    assert(lng_tok + Seq::<char>::empty() =~= lng_tok);
    assert(Seq::<char>::empty() + lng_tok =~= lng_tok);
    assert(split_state(Seq::<char>::empty(), lng_tok, seq![lat_tok]) == seq![lat_tok].push(
        lng_tok,
    ));
    assert(seq![lat_tok].push(lng_tok) =~= seq![lat_tok, lng_tok]);
}

} // verus!
