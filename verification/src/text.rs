use vstd::prelude::*;

use vstd::string::StrSliceExecFns;

verus! {

// Tokenization and number parsing for the graph text format. Lines are split
// at ASCII whitespace; counts are decimal naturals; weights are decimal
// literals with an optional sign and up to three fraction digits, read into
// the fixed-point representation (thousandths) that `Edge` stores.

/// Whitespace for tokenization: space, tab, carriage return, line feed.
pub open spec fn is_space_char(c: char) -> bool {
    c == ' ' || c == '\t' || c == '\r' || c == '\n'
}

/// Length of the maximal non-whitespace prefix.
pub open spec fn nonspace_prefix_len(s: Seq<char>) -> int
    decreases s.len(),
{
    if s.len() == 0 || is_space_char(s[0]) {
        0
    } else {
        1 + nonspace_prefix_len(s.drop_first())
    }
}

proof fn lemma_nonspace_prefix_bounds(s: Seq<char>)
    ensures
        0 <= nonspace_prefix_len(s) <= s.len(),
    decreases s.len(),
{
    if s.len() > 0 && !is_space_char(s[0]) {
        lemma_nonspace_prefix_bounds(s.drop_first());
    }
}

proof fn lemma_nonspace_prefix_at(s: Seq<char>, j: int)
    requires
        0 <= j <= s.len(),
        forall|l: int| 0 <= l < j ==> !is_space_char(s[l]),
        j == s.len() || is_space_char(s[j]),
    ensures
        nonspace_prefix_len(s) == j,
    decreases j,
{
    if j > 0 {
        lemma_nonspace_prefix_at(s.drop_first(), j - 1);
    }
}

/// The whitespace-separated tokens of a line, in order.
pub open spec fn tokens_of(s: Seq<char>) -> Seq<Seq<char>>
    decreases s.len(),
    via tokens_of_dec
{
    if s.len() == 0 {
        Seq::<Seq<char>>::empty()
    } else if is_space_char(s[0]) {
        tokens_of(s.drop_first())
    } else {
        let k = nonspace_prefix_len(s);
        seq![s.take(k)] + tokens_of(s.skip(k))
    }
}

#[via_fn]
proof fn tokens_of_dec(s: Seq<char>) {
    if s.len() > 0 && !is_space_char(s[0]) {
        lemma_nonspace_prefix_bounds(s);
        lemma_nonspace_prefix_bounds(s.drop_first());
    }
}

fn is_space(c: char) -> (r: bool)
    ensures
        r == is_space_char(c),
{
    c == ' ' || c == '\t' || c == '\r' || c == '\n'
}

fn token_continues(s: &str, j: usize, n: usize) -> (r: bool)
    requires
        n == s@.len(),
        j <= n,
    ensures
        r == (j < n && !is_space_char(s@[j as int])),
{
    if j < n {
        let c = s.get_char(j);
        !is_space(c)
    } else {
        false
    }
}

/// Split a line at whitespace into its tokens.
pub fn tokenize(s: &str) -> (r: Vec<String>)
    ensures
        r@.map_values(|t: String| t@) == tokens_of(s@),
{
    let n: usize = s.unicode_len();
    let mut out: Vec<String> = Vec::new();
    proof {
        assert(out@.map_values(|t: String| t@) =~= Seq::<Seq<char>>::empty());
        assert(s@.skip(0) =~= s@);
    }
    let mut i: usize = 0;
    while i < n
        invariant
            n == s@.len(),
            i <= n,
            tokens_of(s@) == out@.map_values(|t: String| t@) + tokens_of(s@.skip(i as int)),
        decreases n - i,
    {
        let c = s.get_char(i);
        if is_space(c) {
            proof {
                assert(s@.skip(i as int).drop_first() =~= s@.skip(i as int + 1));
            }
            i = i + 1;
        } else {
            let start = i;
            let mut j: usize = i;
            let mut scanning: bool = token_continues(s, j, n);
            while scanning
                invariant
                    n == s@.len(),
                    start <= j <= n,
                    scanning == (j < n && !is_space_char(s@[j as int])),
                    forall|l: int| start <= l < j ==> !is_space_char(s@[l]),
                decreases n - j,
            {
                j = j + 1;
                scanning = token_continues(s, j, n);
            }
            let tok: String = s.substring_char(start, j).to_owned();
            proof {
                let rest = s@.skip(i as int);
                lemma_nonspace_prefix_at(rest, j - i);
                assert(rest.take(j - i) =~= s@.subrange(i as int, j as int));
                assert(rest.skip(j - i) =~= s@.skip(j as int));
                let f = |t: String| t@;
                assert((out@.push(tok)).map_values(f) =~= out@.map_values(f).push(tok@));
                assert(out@.map_values(f).push(tok@) =~= out@.map_values(f) + seq![tok@]);
            }
            out.push(tok);
            i = j;
        }
    }
    proof {
        assert(tokens_of(s@.skip(n as int)) =~= Seq::<Seq<char>>::empty());
        assert(out@.map_values(|t: String| t@) + Seq::<Seq<char>>::empty() =~= out@.map_values(
            |t: String| t@,
        ));
    }
    out
}

/// Decimal digits.
pub open spec fn is_digit_char(c: char) -> bool {
    '0' as int <= c as int && c as int <= '9' as int
}

/// The numeric value of a digit character.
pub open spec fn digit_val(c: char) -> int {
    c as int - '0' as int
}

pub open spec fn all_digit_chars(s: Seq<char>) -> bool {
    forall|i: int| 0 <= i < s.len() ==> is_digit_char(#[trigger] s[i])
}

/// The numeric value of a digit string, most significant digit first.
pub open spec fn digits_val(s: Seq<char>) -> int
    decreases s.len(),
{
    if s.len() == 0 {
        0
    } else {
        10 * digits_val(s.drop_last()) + digit_val(s.last())
    }
}

/// Powers of ten.
pub open spec fn pow10(k: int) -> int
    decreases k,
{
    if k <= 0 {
        1
    } else {
        10 * pow10(k - 1)
    }
}

pub proof fn lemma_digits_val_bounds(s: Seq<char>)
    requires
        all_digit_chars(s),
    ensures
        0 <= digits_val(s) < pow10(s.len() as int),
    decreases s.len(),
{
    if s.len() > 0 {
        assert(all_digit_chars(s.drop_last())) by {
            assert(forall|i: int|
                0 <= i < s.len() - 1 ==> s.drop_last()[i] == #[trigger] s[i]);
        }
        lemma_digits_val_bounds(s.drop_last());
    }
}

proof fn lemma_digits_val_prefix_mono(s: Seq<char>, i: int)
    requires
        all_digit_chars(s),
        0 <= i <= s.len(),
    ensures
        digits_val(s.take(i)) <= digits_val(s),
    decreases s.len() - i,
{
    assert(all_digit_chars(s.take(i)));
    lemma_digits_val_bounds(s.take(i));
    if i < s.len() {
        assert(s.take(i + 1).drop_last() =~= s.take(i));
        assert(s.take(i + 1).last() == s[i]);
        lemma_digits_val_prefix_mono(s, i + 1);
    } else {
        assert(s.take(i) =~= s);
    }
}

/// A vertex- or edge-count token: decimal digits naming a value of at most
/// one billion (larger counts are refused as unreasonable for this tool).
pub open spec fn valid_count(s: Seq<char>) -> bool {
    s.len() >= 1 && all_digit_chars(s) && digits_val(s) <= 1_000_000_000
}

fn digit_of(c: char) -> (r: Option<u64>)
    ensures
        is_digit_char(c) ==> r == Some(digit_val(c) as u64),
        !is_digit_char(c) ==> r is None,
{
    let v = c as u32;
    if 48 <= v && v <= 57 {
        Some((v - 48) as u64)
    } else {
        None
    }
}

/// Parse a count token; `None` exactly when the token is not a valid count.
pub fn parse_count(t: &str) -> (r: Option<u64>)
    ensures
        valid_count(t@) ==> r == Some(digits_val(t@) as u64),
        !valid_count(t@) ==> r is None,
{
    let n: usize = t.unicode_len();
    if n == 0 {
        return None;
    }
    let mut acc: u64 = 0;
    let mut i: usize = 0;
    while i < n
        invariant
            n == t@.len(),
            i <= n,
            all_digit_chars(t@.take(i as int)),
            acc as int == digits_val(t@.take(i as int)),
            acc <= 1_000_000_000,
        decreases n - i,
    {
        let c = t.get_char(i);
        match digit_of(c) {
            None => {
                proof {
                    assert(!all_digit_chars(t@));
                }
                return None;
            },
            Some(d) => {
                let acc2: u64 = 10 * acc + d;
                proof {
                    assert(t@.take(i as int + 1).drop_last() =~= t@.take(i as int));
                    assert(t@.take(i as int + 1).last() == t@[i as int]);
                    assert(all_digit_chars(t@.take(i as int + 1)));
                }
                if acc2 > 1_000_000_000 {
                    proof {
                        if all_digit_chars(t@) {
                            lemma_digits_val_prefix_mono(t@, i as int + 1);
                        }
                    }
                    return None;
                }
                acc = acc2;
                i = i + 1;
            },
        }
    }
    proof {
        assert(t@.take(n as int) =~= t@);
    }
    Some(acc)
}

/// Index of the first `.` in a weight body, or its length if there is none.
pub open spec fn dot_index(s: Seq<char>) -> int
    decreases s.len(),
{
    if s.len() == 0 {
        0
    } else if s[0] == '.' {
        0
    } else {
        1 + dot_index(s.drop_first())
    }
}

proof fn lemma_dot_index_at(s: Seq<char>, j: int)
    requires
        0 <= j <= s.len(),
        forall|l: int| 0 <= l < j ==> s[l] != '.',
        j == s.len() || s[j] == '.',
    ensures
        dot_index(s) == j,
    decreases j,
{
    if j > 0 {
        lemma_dot_index_at(s.drop_first(), j - 1);
    }
}

/// The weight token without its sign character.
pub open spec fn weight_body(s: Seq<char>) -> Seq<char> {
    if s.len() > 0 && (s[0] == '-' || s[0] == '+') {
        s.drop_first()
    } else {
        s
    }
}

/// `-1` for a minus sign, `1` otherwise.
pub open spec fn weight_sign(s: Seq<char>) -> int {
    if s.len() > 0 && s[0] == '-' {
        -1
    } else {
        1
    }
}

/// Digits before the dot.
pub open spec fn weight_int_part(s: Seq<char>) -> Seq<char> {
    weight_body(s).take(dot_index(weight_body(s)))
}

/// Digits after the dot, empty when there is no dot.
pub open spec fn weight_frac_part(s: Seq<char>) -> Seq<char> {
    let b = weight_body(s);
    let d = dot_index(b);
    if d < b.len() {
        b.skip(d + 1)
    } else {
        Seq::<char>::empty()
    }
}

/// A weight token: an optional sign, then decimal digits with at most one
/// dot; at least one digit in all, at most twelve digits before the dot and
/// at most three after it (the stored resolution is a thousandth).
pub open spec fn valid_weight(s: Seq<char>) -> bool {
    let ip = weight_int_part(s);
    let fp = weight_frac_part(s);
    &&& all_digit_chars(ip)
    &&& all_digit_chars(fp)
    &&& ip.len() + fp.len() >= 1
    &&& ip.len() <= 12
    &&& fp.len() <= 3
}

/// The value named by a weight token, in thousandths of a weight unit.
pub open spec fn weight_val(s: Seq<char>) -> int {
    let ip = weight_int_part(s);
    let fp = weight_frac_part(s);
    weight_sign(s) * (digits_val(ip) * 1000 + digits_val(fp) * pow10(3 - fp.len()))
}

/// A valid weight is well inside the `i64` range.
pub proof fn lemma_weight_val_bounds(s: Seq<char>)
    requires
        valid_weight(s),
    ensures
        -1_000_000_000_000_000 < weight_val(s) < 1_000_000_000_000_000,
{
    let ip = weight_int_part(s);
    let fp = weight_frac_part(s);
    lemma_digits_val_bounds(ip);
    lemma_digits_val_bounds(fp);
    assert(pow10(ip.len() as int) <= pow10(12)) by {
        lemma_pow10_mono(ip.len() as int, 12);
    }
    assert(pow10(12) == 1_000_000_000_000) by {
        reveal_with_fuel(pow10, 13);
    }
    assert(pow10(fp.len() as int) <= pow10(3)) by {
        lemma_pow10_mono(fp.len() as int, 3);
    }
    assert(digits_val(fp) * pow10(3 - fp.len()) < 1000) by {
        lemma_pow10_pos(3 - fp.len());
        lemma_frac_scaled_bound(fp);
    }
    assert(pow10(3) == 1000) by {
        reveal_with_fuel(pow10, 4);
    }
}

proof fn lemma_pow10_pos(k: int)
    ensures
        pow10(k) >= 1,
    decreases k,
{
    if k > 0 {
        lemma_pow10_pos(k - 1);
    }
}

proof fn lemma_pow10_mono(a: int, b: int)
    requires
        a <= b,
    ensures
        pow10(a) <= pow10(b),
    decreases b - a,
{
    if a < b {
        lemma_pow10_mono(a, b - 1);
        lemma_pow10_pos(b - 1);
    }
}

proof fn lemma_frac_scaled_bound(fp: Seq<char>)
    requires
        all_digit_chars(fp),
        fp.len() <= 3,
    ensures
        digits_val(fp) * pow10(3 - fp.len()) < 1000,
{
    lemma_digits_val_bounds(fp);
    lemma_pow10_pos(3 - fp.len());
    assert(digits_val(fp) * pow10(3 - fp.len()) < pow10(fp.len() as int) * pow10(
        3 - fp.len(),
    )) by (nonlinear_arith)
        requires
            digits_val(fp) < pow10(fp.len() as int),
            pow10(3 - fp.len()) >= 1,
    ;
    assert(pow10(fp.len() as int) * pow10(3 - fp.len()) == pow10(3)) by {
        lemma_pow10_split(fp.len() as int);
    }
    assert(pow10(3) == 1000) by {
        reveal_with_fuel(pow10, 4);
    }
}

proof fn lemma_pow10_split(k: int)
    requires
        0 <= k <= 3,
    ensures
        pow10(k) * pow10(3 - k) == pow10(3),
{
    assert(pow10(0) == 1 && pow10(1) == 10 && pow10(2) == 100 && pow10(3) == 1000) by {
        reveal_with_fuel(pow10, 4);
    }
}

fn dot_continues(s: &str, j: usize, n: usize) -> (r: bool)
    requires
        n == s@.len(),
        j <= n,
    ensures
        r == (j < n && s@[j as int] != '.'),
{
    if j < n {
        let c = s.get_char(j);
        c != '.'
    } else {
        false
    }
}

/// Parse a weight token into thousandths of a weight unit; `None` exactly
/// when the token is not a valid weight.
pub fn parse_weight(t: &str) -> (r: Option<i64>)
    ensures
        valid_weight(t@) ==> r == Some(weight_val(t@) as i64),
        !valid_weight(t@) ==> r is None,
{
    let n: usize = t.unicode_len();
    let mut pos: usize = 0;
    let mut neg: bool = false;
    if n > 0 {
        let c0 = t.get_char(0);
        if c0 == '-' {
            neg = true;
            pos = 1;
        } else if c0 == '+' {
            pos = 1;
        }
    }
    let ghost b = weight_body(t@);
    proof {
        assert(b =~= t@.skip(pos as int));
    }
    let mut j: usize = pos;
    let mut scanning: bool = dot_continues(t, j, n);
    while scanning
        invariant
            n == t@.len(),
            pos <= j <= n,
            scanning == (j < n && t@[j as int] != '.'),
            forall|l: int| pos <= l < j ==> t@[l] != '.',
        decreases n - j,
    {
        j = j + 1;
        scanning = dot_continues(t, j, n);
    }
    proof {
        lemma_dot_index_at(b, j - pos);
        assert(weight_int_part(t@) =~= t@.subrange(pos as int, j as int));
        if j < n {
            assert(weight_frac_part(t@) =~= t@.skip(j as int + 1));
        }
    }
    let d: usize = j - pos;
    let frac_len: usize = if j < n {
        n - j - 1
    } else {
        0
    };
    proof {
        assert(weight_int_part(t@).len() == d);
        assert(weight_frac_part(t@).len() == frac_len);
    }
    if d > 12 {
        return None;
    }
    if frac_len > 3 {
        return None;
    }
    if d == 0 && frac_len == 0 {
        return None;
    }
    let ghost ip = weight_int_part(t@);
    let mut acc: i64 = 0;
    let mut l: usize = pos;
    while l < j
        invariant
            n == t@.len(),
            pos <= l <= j <= n,
            d == j - pos,
            d <= 12,
            ip == weight_int_part(t@),
            ip =~= t@.subrange(pos as int, j as int),
            all_digit_chars(ip.take(l - pos)),
            acc as int == digits_val(ip.take(l - pos)),
            acc as int >= 0,
            (acc as int) < pow10(l - pos),
        decreases j - l,
    {
        let c = t.get_char(l);
        match digit_of(c) {
            None => {
                proof {
                    assert(ip[l - pos] == t@[l as int]);
                    assert(!all_digit_chars(ip));
                }
                return None;
            },
            Some(dv) => {
                proof {
                    assert(ip.take(l - pos + 1).drop_last() =~= ip.take(l - pos));
                    assert(ip.take(l - pos + 1).last() == t@[l as int]);
                    assert(all_digit_chars(ip.take(l - pos + 1)));
                    lemma_pow10_mono(l - pos + 1, 12);
                    assert(pow10(12) == 1_000_000_000_000) by {
                        reveal_with_fuel(pow10, 13);
                    }
                }
                acc = 10 * acc + (dv as i64);
                l = l + 1;
            },
        }
    }
    proof {
        assert(ip.take(d as int) =~= ip);
    }
    let ghost fp = weight_frac_part(t@);
    let mut fv: i64 = 0;
    if j < n {
        let mut l2: usize = j + 1;
        while l2 < n
            invariant
                n == t@.len(),
                j + 1 <= l2 <= n,
                frac_len == n - j - 1,
                frac_len <= 3,
                fp == weight_frac_part(t@),
                fp =~= t@.skip(j as int + 1),
                all_digit_chars(fp.take(l2 - j - 1)),
                fv as int == digits_val(fp.take(l2 - j - 1)),
                fv as int >= 0,
                (fv as int) < pow10(l2 - j - 1),
            decreases n - l2,
        {
            let c = t.get_char(l2);
            match digit_of(c) {
                None => {
                    proof {
                        assert(fp[l2 - j - 1] == t@[l2 as int]);
                        assert(!all_digit_chars(fp));
                    }
                    return None;
                },
                Some(dv) => {
                    proof {
                        assert(fp.take(l2 - j).drop_last() =~= fp.take(l2 - j - 1));
                        assert(fp.take(l2 - j).last() == t@[l2 as int]);
                        assert(all_digit_chars(fp.take(l2 - j)));
                        lemma_pow10_mono(l2 - j, 3);
                        assert(pow10(3) == 1000) by {
                            reveal_with_fuel(pow10, 4);
                        }
                    }
                    fv = 10 * fv + (dv as i64);
                    l2 = l2 + 1;
                },
            }
        }
        proof {
            assert(fp.take(frac_len as int) =~= fp);
        }
    } else {
        proof {
            assert(fp =~= Seq::<char>::empty());
        }
    }
    let scale: i64 = if frac_len == 0 {
        1000
    } else if frac_len == 1 {
        100
    } else if frac_len == 2 {
        10
    } else {
        1
    };
    proof {
        assert(scale as int == pow10(3 - frac_len)) by {
            reveal_with_fuel(pow10, 4);
        }
        lemma_weight_val_bounds(t@);
        lemma_frac_scaled_bound(fp);
        assert(pow10(12) == 1_000_000_000_000) by {
            reveal_with_fuel(pow10, 13);
        }
        lemma_pow10_mono(d as int, 12);
    }
    let magnitude: i64 = acc * 1000 + fv * scale;
    let value: i64 = if neg {
        -magnitude
    } else {
        magnitude
    };
    Some(value)
}

} // verus!
