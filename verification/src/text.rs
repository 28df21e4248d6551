//! Chat text: plain and translated messages, and decimal numbers.

use vstd::prelude::*;

verus! {

/// A chat message: literal text, or a translation key with its arguments.
#[derive(Debug)]
pub enum TextMessage {
    Text(String),
    Translate { key: String, args: Vec<String> },
}

/// The character of decimal digit `d`.
pub open spec fn digit_char(d: nat) -> char {
    if d == 0 {
        '0'
    } else if d == 1 {
        '1'
    } else if d == 2 {
        '2'
    } else if d == 3 {
        '3'
    } else if d == 4 {
        '4'
    } else if d == 5 {
        '5'
    } else if d == 6 {
        '6'
    } else if d == 7 {
        '7'
    } else if d == 8 {
        '8'
    } else {
        '9'
    }
}

/// The decimal digits of `n`, most significant first, without leading
/// zeros.
pub open spec fn nat_decimal(n: nat) -> Seq<char>
    decreases n,
{
    if n < 10 {
        seq![digit_char(n)]
    } else {
        nat_decimal(n / 10).push(digit_char(n % 10))
    }
}

/// The decimal text of `v`, with a leading minus sign when negative.
pub open spec fn int_decimal(v: int) -> Seq<char> {
    if v < 0 {
        seq!['-'] + nat_decimal((-v) as nat)
    } else {
        nat_decimal(v as nat)
    }
}

fn digit(d: u32) -> (c: char)
    requires
        d < 10,
    ensures
        c == digit_char(d as nat),
{
    if d == 0 {
        '0'
    } else if d == 1 {
        '1'
    } else if d == 2 {
        '2'
    } else if d == 3 {
        '3'
    } else if d == 4 {
        '4'
    } else if d == 5 {
        '5'
    } else if d == 6 {
        '6'
    } else if d == 7 {
        '7'
    } else if d == 8 {
        '8'
    } else {
        '9'
    }
}

/// The string holding the characters `chars`, in order: std's
/// `Iterator::collect` into a `String` (its `FromIterator<char>` impl), which
/// appends each character in turn.
#[verifier::external_body]
pub(crate) fn string_from_chars(chars: &Vec<char>) -> (s: String)
    ensures
        s@ == chars@,
{
    chars.iter().collect()
}

/// The decimal text of `v`, as `to_string` writes an integer.
pub fn i32_to_decimal(v: i32) -> (s: String)
    ensures
        s@ == int_decimal(v as int),
{
    let neg = v < 0;
    let mut u: u32 = if neg {
        (0i64 - v as i64) as u32
    } else {
        v as u32
    };
    let ghost n: nat = u as nat;
    // Digits from the least significant one.
    let mut rev: Vec<char> = Vec::new();
    loop
        invariant_except_break
            nat_decimal(n) == nat_decimal(u as nat) + rev@.reverse(),
        ensures
            nat_decimal(n) == rev@.reverse(),
        decreases u,
    {
        let d = u % 10;
        let c = digit(d);
        let ghost before = rev@;
        let ghost old_u = u;
        rev.push(c);
        u = u / 10;
        proof {
            assert(rev@.reverse() =~= seq![c] + before.reverse());
            if old_u < 10 {
                assert(nat_decimal(old_u as nat) == seq![c]);
            } else {
                assert(nat_decimal(old_u as nat) == nat_decimal(u as nat).push(c));
                assert(nat_decimal(u as nat).push(c) + before.reverse() =~= nat_decimal(u as nat)
                    + (seq![c] + before.reverse()));
            }
        }
        if u == 0 {
            break ;
        }
    }
    let mut out: Vec<char> = Vec::new();
    if neg {
        out.push('-');
    }
    let ghost head = out@;
    let mut i: usize = rev.len();
    while i > 0
        invariant
            i <= rev@.len(),
            out@ == head + rev@.subrange(i as int, rev@.len() as int).reverse(),
        decreases i,
    {
        i = i - 1;
        out.push(rev[i]);
        proof {
            assert(rev@.subrange(i as int, rev@.len() as int).reverse() =~= rev@.subrange(
                i + 1,
                rev@.len() as int,
            ).reverse().push(rev@[i as int]));
        }
    }
    proof {
        assert(rev@.subrange(0, rev@.len() as int) =~= rev@);
        if neg {
            assert((-(v as int)) as nat == n);
        }
    }
    string_from_chars(&out)
}

} // verus!
