//! Decimal rendering and parsing of 32-bit words for the manifest text
//! document, with the round-trip facts the manifest codec is proved from.
use crate::Error;
use vstd::prelude::*;

verus! {

pub open spec fn is_digit(c: char) -> bool {
    48 <= c as u32 <= 57
}

pub open spec fn digit_val(c: char) -> int {
    c as u32 - 48
}

pub open spec fn digit_char(d: int) -> char {
    if d == 0 {
        '0'
    } else if d == 1 {
        '1'
    } else if d == 2 {
        '2'
    } else if d == 3 {
        '3'
    } else if d == 4 {
        '4'
    } else if d == 5 {
        '5'
    } else if d == 6 {
        '6'
    } else if d == 7 {
        '7'
    } else if d == 8 {
        '8'
    } else {
        '9'
    }
}

/// Decimal digits of `n`, most significant first, no leading zeros.
pub open spec fn dec_chars(n: nat) -> Seq<char>
    decreases n,
{
    if n < 10 {
        seq![digit_char(n as int)]
    } else {
        dec_chars(n / 10).push(digit_char((n % 10) as int))
    }
}

pub open spec fn all_digits(s: Seq<char>) -> bool {
    forall|i: int| 0 <= i < s.len() ==> is_digit(#[trigger] s[i])
}

/// Value of a digit run, most significant first.
pub open spec fn digits_val(s: Seq<char>) -> int
    decreases s.len(),
{
    if s.len() == 0 {
        0
    } else {
        digits_val(s.drop_last()) * 10 + digit_val(s.last())
    }
}

proof fn lemma_digit_char_val(d: int)
    requires
        0 <= d < 10,
    ensures
        is_digit(digit_char(d)),
        digit_val(digit_char(d)) == d,
{
}

pub proof fn lemma_dec_chars(n: nat)
    ensures
        dec_chars(n).len() >= 1,
        all_digits(dec_chars(n)),
        digits_val(dec_chars(n)) == n,
    decreases n,
{
    if n < 10 {
        lemma_digit_char_val(n as int);
        let s = dec_chars(n);
        assert(s.len() == 1);
        assert(s.last() == digit_char(n as int));
        assert(s.drop_last() =~= Seq::<char>::empty());
        assert(digits_val(s.drop_last()) == 0);
        assert(digits_val(s) == digits_val(s.drop_last()) * 10 + digit_val(s.last()));
    } else {
        lemma_dec_chars(n / 10);
        lemma_digit_char_val((n % 10) as int);
        let p = dec_chars(n / 10);
        let s = p.push(digit_char((n % 10) as int));
        assert(s.drop_last() =~= p);
        assert(s.last() == digit_char((n % 10) as int));
        assert(digits_val(s) == (n / 10) * 10 + (n % 10));
        assert(forall|i: int| 0 <= i < s.len() ==> is_digit(#[trigger] s[i])) by {
            assert(forall|i: int| 0 <= i < p.len() ==> s[i] == #[trigger] p[i]);
        }
    }
}

/// Index just past the digit run starting at `off`.
pub open spec fn digits_end(s: Seq<char>, off: int) -> int
    decreases s.len() - off,
{
    if 0 <= off < s.len() && is_digit(s[off]) {
        digits_end(s, off + 1)
    } else {
        off
    }
}

pub proof fn lemma_digits_end_bounds(s: Seq<char>, off: int)
    requires
        0 <= off <= s.len(),
    ensures
        off <= digits_end(s, off) <= s.len(),
        forall|i: int| off <= i < digits_end(s, off) ==> is_digit(#[trigger] s[i]),
        digits_end(s, off) == s.len() || !is_digit(s[digits_end(s, off)]),
    decreases s.len() - off,
{
    if off < s.len() && is_digit(s[off]) {
        lemma_digits_end_bounds(s, off + 1);
    }
}

/// A run of `k` digits followed by a non-digit (or the end) ends exactly
/// at `off + k`.
pub proof fn lemma_digits_end_exact(s: Seq<char>, off: int, k: int)
    requires
        0 <= off,
        0 <= k,
        off + k <= s.len(),
        forall|i: int| off <= i < off + k ==> is_digit(#[trigger] s[i]),
        off + k == s.len() || !is_digit(s[off + k]),
    ensures
        digits_end(s, off) == off + k,
    decreases k,
{
    if k > 0 {
        assert(is_digit(s[off]));
        lemma_digits_end_exact(s, off + 1, k - 1);
    }
}

/// Greedy decimal token at `off`: its value and the index just past it.
/// `None` where no digit stands at `off` or the value overflows a word.
pub open spec fn spec_parse_u32(s: Seq<char>, off: int) -> Option<(u32, int)> {
    let e = digits_end(s, off);
    if e == off {
        None
    } else {
        let v = digits_val(s.subrange(off, e));
        if v <= u32::MAX {
            Some(((v as u32), e))
        } else {
            None
        }
    }
}

pub proof fn lemma_digits_val_nonneg(s: Seq<char>)
    requires
        all_digits(s),
    ensures
        digits_val(s) >= 0,
    decreases s.len(),
{
    if s.len() > 0 {
        assert(all_digits(s.drop_last())) by {
            assert(forall|i: int|
                0 <= i < s.len() - 1 ==> #[trigger] s.drop_last()[i] == s[i]);
        }
        lemma_digits_val_nonneg(s.drop_last());
        assert(is_digit(s.last()));
    }
}

/// The value of a digit run never shrinks as the run grows to the right.
pub proof fn lemma_digits_val_grow(s: Seq<char>, off: int, j: int, k: int)
    requires
        0 <= off <= j <= k <= s.len(),
        forall|i: int| off <= i < k ==> is_digit(#[trigger] s[i]),
    ensures
        digits_val(s.subrange(off, j)) <= digits_val(s.subrange(off, k)),
    decreases k - j,
{
    if j < k {
        lemma_digits_val_grow(s, off, j, k - 1);
        let a = s.subrange(off, k - 1);
        let b = s.subrange(off, k);
        assert(b.drop_last() =~= a);
        assert(all_digits(a));
        lemma_digits_val_nonneg(a);
        assert(is_digit(b.last()));
        assert(digits_val(b) == digits_val(a) * 10 + digit_val(b.last()));
    }
}

/// The decimal rendering of `n` placed between any prefix and any
/// non-digit-led rest parses back to exactly `n`.
pub proof fn lemma_parse_dec_chars(pre: Seq<char>, n: u32, rest: Seq<char>)
    requires
        rest.len() == 0 || !is_digit(rest[0]),
    ensures
        spec_parse_u32(pre + dec_chars(n as nat) + rest, pre.len() as int) == Some::<(u32, int)>(
            (n, pre.len() + dec_chars(n as nat).len() as int),
        ),
{
    lemma_dec_chars(n as nat);
    let d = dec_chars(n as nat);
    let s = pre + d + rest;
    let off = pre.len() as int;
    assert(forall|i: int| off <= i < off + d.len() ==> is_digit(#[trigger] s[i])) by {
        assert(forall|i: int|
            off <= i < off + d.len() ==> s[i] == #[trigger] d[i - off]);
    }
    assert(off + d.len() == s.len() || !is_digit(s[off + d.len() as int]));
    lemma_digits_end_exact(s, off, d.len() as int);
    assert(s.subrange(off, off + d.len() as int) =~= d);
}

/// Render `n` in decimal, most significant digit first.
pub fn u32_to_dec(n: u32) -> (s: String)
    ensures
        s@ == dec_chars(n as nat),
    decreases n,
{
    let d = n % 10;
    let ds = digit_str(d);
    if n < 10 {
        let s = ds.to_owned();
        proof {
            assert(s@ =~= dec_chars(n as nat));
        }
        s
    } else {
        let mut s = u32_to_dec(n / 10);
        s.append(ds);
        proof {
            assert(s@ =~= dec_chars(n as nat));
        }
        s
    }
}

fn digit_str(d: u32) -> (s: &'static str)
    requires
        d < 10,
    ensures
        s@ == seq![digit_char(d as int)],
{
    proof {
        reveal_strlit("0");
        reveal_strlit("1");
        reveal_strlit("2");
        reveal_strlit("3");
        reveal_strlit("4");
        reveal_strlit("5");
        reveal_strlit("6");
        reveal_strlit("7");
        reveal_strlit("8");
        reveal_strlit("9");
    }
    let s = match d {
        0 => "0",
        1 => "1",
        2 => "2",
        3 => "3",
        4 => "4",
        5 => "5",
        6 => "6",
        7 => "7",
        8 => "8",
        _ => "9",
    };
    proof {
        assert(s@ =~= seq![digit_char(d as int)]);
    }
    s
}

/// Read the greedy decimal token at `pos`; mirrors `spec_parse_u32`.
pub fn parse_u32_dec(s: &str, pos: usize) -> (r: Result<(u32, usize), Error>)
    requires
        pos <= s@.len(),
    ensures
        match r {
            Ok((n, e)) => {
                &&& spec_parse_u32(s@, pos as int) == Some::<(u32, int)>((n, e as int))
                &&& pos < e <= s@.len()
            },
            Err(err) => {
                &&& err == Error::Document
                &&& spec_parse_u32(s@, pos as int) is None
            },
        },
{
    let len = s.unicode_len();
    let mut j: usize = pos;
    let mut acc: u32 = 0;
    proof {
        lemma_digits_end_bounds(s@, pos as int);
        assert(s@.subrange(pos as int, pos as int) =~= Seq::<char>::empty());
    }
    loop
        invariant
            pos <= j <= len,
            len == s@.len(),
            forall|i: int| pos <= i < j ==> is_digit(#[trigger] s@[i]),
            digits_end(s@, pos as int) == digits_end(s@, j as int),
            acc == digits_val(s@.subrange(pos as int, j as int)),
        ensures
            pos <= j <= len,
            j == len || !is_digit(s@[j as int]),
            digits_end(s@, pos as int) == digits_end(s@, j as int),
            acc == digits_val(s@.subrange(pos as int, j as int)),
        decreases len - j,
    {
        if j == len {
            break;
        }
        let c = s.get_char(j);
        let u = c as u32;
        if !(48 <= u && u <= 57) {
            break;
        }
        let d = u - 48;
        let acc64: u64 = acc as u64 * 10 + d as u64;
        proof {
            assert(s@.subrange(pos as int, j + 1).drop_last() =~= s@.subrange(
                pos as int,
                j as int,
            ));
            assert(digits_val(s@.subrange(pos as int, j + 1)) == acc * 10 + d);
        }
        if acc64 > u32::MAX as u64 {
            // the full token overflows a word, however far it runs
            proof {
                lemma_digits_end_bounds(s@, j as int);
                let e = digits_end(s@, pos as int);
                assert(e == digits_end(s@, j + 1) && j + 1 <= e <= s@.len());
                assert(forall|i: int| pos <= i < e ==> is_digit(#[trigger] s@[i]));
                lemma_digits_val_grow(s@, pos as int, j + 1, e);
            }
            return Err(Error::Document);
        }
        acc = acc64 as u32;
        j = j + 1;
    }
    proof {
        lemma_digits_end_bounds(s@, j as int);
        assert(digits_end(s@, j as int) == j as int);
    }
    if j == pos {
        Err(Error::Document)
    } else {
        Ok((acc, j))
    }
}

} // verus!
