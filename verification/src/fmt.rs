use vstd::prelude::*;

use crate::graph::abs_int;

verus! {

/// The character of a decimal digit.
pub open spec fn digit_char(d: int) -> char {
    if d == 0 {
        '0'
    } else if d == 1 {
        '1'
    } else if d == 2 {
        '2'
    } else if d == 3 {
        '3'
    } else if d == 4 {
        '4'
    } else if d == 5 {
        '5'
    } else if d == 6 {
        '6'
    } else if d == 7 {
        '7'
    } else if d == 8 {
        '8'
    } else {
        '9'
    }
}

/// The decimal digits of a natural number, most significant first.
pub open spec fn digits_of(n: int) -> Seq<char>
    decreases n,
{
    if n < 10 {
        seq![digit_char(n)]
    } else {
        digits_of(n / 10).push(digit_char(n % 10))
    }
}

/// The text of a fixed-point weight: an optional minus sign, the integer
/// part, and a dot with the fraction digits when the fraction is not zero,
/// trailing zeros dropped. This is the form `parse_weight` reads back.
pub open spec fn weight_text(w: int) -> Seq<char> {
    let a = abs_int(w);
    let ip = a / 1000;
    let fr = a % 1000;
    (if w < 0 {
        seq!['-']
    } else {
        Seq::<char>::empty()
    }) + digits_of(ip) + frac_text(fr)
}

/// The fraction digits of a weight, trailing zeros dropped.
pub open spec fn frac_text(f: int) -> Seq<char> {
    if f == 0 {
        Seq::<char>::empty()
    } else {
        let d1 = digit_char(f / 100);
        let d2 = digit_char((f / 10) % 10);
        let d3 = digit_char(f % 10);
        if f % 10 != 0 {
            seq!['.', d1, d2, d3]
        } else if (f / 10) % 10 != 0 {
            seq!['.', d1, d2]
        } else {
            seq!['.', d1]
        }
    }
}

fn digit_char_of(d: u64) -> (c: char)
    requires
        d < 10,
    ensures
        c == digit_char(d as int),
{
    if d == 0 {
        '0'
    } else if d == 1 {
        '1'
    } else if d == 2 {
        '2'
    } else if d == 3 {
        '3'
    } else if d == 4 {
        '4'
    } else if d == 5 {
        '5'
    } else if d == 6 {
        '6'
    } else if d == 7 {
        '7'
    } else if d == 8 {
        '8'
    } else {
        '9'
    }
}

/// Relies on `String::push`: appends one character at the end.
#[verifier::external_body]
fn push_char(s: &mut String, c: char)
    ensures
        final(s)@ == old(s)@.push(c),
{
    s.push(c);
}

/// Render a weight (in thousandths) as decimal text, exactly the form that
/// `parse_weight` accepts.
pub fn weight_to_text(w: i64) -> (r: String)
    ensures
        r@ == weight_text(w as int),
{
    let ghost sign: Seq<char> = if w < 0 {
        seq!['-']
    } else {
        Seq::<char>::empty()
    };
    let mut out: String = String::new();
    if w < 0 {
        push_char(&mut out, '-');
        proof {
            assert(out@ =~= sign);
        }
    } else {
        proof {
            assert(out@ =~= sign);
        }
    }
    let a: u64 = if w == i64::MIN {
        9223372036854775808u64
    } else if w < 0 {
        (-w) as u64
    } else {
        w as u64
    };
    let ip: u64 = a / 1000;
    let fr: u64 = a % 1000;
    let mut rev: Vec<char> = Vec::new();
    let mut x: u64 = ip;
    proof {
        assert(rev@.reverse() =~= Seq::<char>::empty());
        assert(digits_of(x as int) + rev@.reverse() =~= digits_of(ip as int));
    }
    while x >= 10
        invariant
            digits_of(ip as int) == digits_of(x as int) + rev@.reverse(),
            out@ == sign,
        decreases x,
    {
        let d: u64 = x % 10;
        let c = digit_char_of(d);
        proof {
            assert((rev@.push(c)).reverse() =~= seq![c] + rev@.reverse());
            assert(digits_of(x as int) == digits_of(x as int / 10).push(digit_char(
                x as int % 10,
            )));
            assert(digits_of(x as int / 10).push(c) + rev@.reverse() =~= digits_of(
                x as int / 10,
            ) + (rev@.push(c)).reverse());
        }
        rev.push(c);
        x = x / 10;
    }
    let c0 = digit_char_of(x);
    push_char(&mut out, c0);
    proof {
        assert(digits_of(x as int) =~= seq![c0]);
        assert(out@ =~= sign + seq![c0] + rev@.reverse().take(0));
    }
    let total: usize = rev.len();
    let mut j: usize = total;
    while j > 0
        invariant
            total == rev@.len(),
            j <= total,
            digits_of(ip as int) == seq![c0] + rev@.reverse(),
            out@ == sign + seq![c0] + rev@.reverse().take(total - j),
        decreases j,
    {
        let c = rev[j - 1];
        proof {
            assert(rev@.reverse()[total - j] == rev@[j - 1]);
            assert(rev@.reverse().take(total - j + 1) =~= rev@.reverse().take(total - j).push(
                rev@[j - 1],
            ));
            assert((sign + seq![c0] + rev@.reverse().take(total - j)).push(c) =~= sign + seq![
                c0,
            ] + rev@.reverse().take(total - j + 1));
        }
        push_char(&mut out, c);
        j = j - 1;
    }
    proof {
        assert(rev@.reverse().take(total as int) =~= rev@.reverse());
        assert(out@ =~= sign + digits_of(ip as int));
    }
    if fr > 0 {
        push_char(&mut out, '.');
        let d1 = digit_char_of(fr / 100);
        let d2 = digit_char_of((fr / 10) % 10);
        let d3 = digit_char_of(fr % 10);
        if fr % 10 != 0 {
            push_char(&mut out, d1);
            push_char(&mut out, d2);
            push_char(&mut out, d3);
        } else if (fr / 10) % 10 != 0 {
            push_char(&mut out, d1);
            push_char(&mut out, d2);
        } else {
            push_char(&mut out, d1);
        }
    }
    proof {
        assert(a as int == abs_int(w as int));
        assert(out@ =~= weight_text(w as int));
    }
    out
}

} // verus!
