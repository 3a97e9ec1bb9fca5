//! The manifest document layer: a container is projected into a plain
//! text document of newline-terminated tokens — decimal words in the
//! field order of the binary layout, and length-prefixed strings — and
//! read back from one.  Writing then reading a token stream is proved to
//! restore it exactly.
use crate::num::{
    dec_chars, is_digit, lemma_dec_chars, lemma_parse_dec_chars, parse_u32_dec, spec_parse_u32,
    u32_to_dec,
};
use crate::Error;
use vstd::prelude::*;

verus! {

/// One decimal word token.
pub open spec fn num_tok(n: u32) -> Seq<char> {
    dec_chars(n as nat).push('\n')
}

/// A run of word tokens.
pub open spec fn nums_tok(ws: Seq<u32>) -> Seq<char>
    decreases ws.len(),
{
    if ws.len() == 0 {
        Seq::empty()
    } else {
        num_tok(ws[0]) + nums_tok(ws.drop_first())
    }
}

/// One string token: character count, one space, the characters verbatim.
pub open spec fn str_tok(t: Seq<char>) -> Seq<char> {
    dec_chars(t.len()).push(' ') + t + seq!['\n']
}

/// Word token at `off`: a decimal run closed by a newline.
pub open spec fn p_num(s: Seq<char>, off: int) -> Option<(u32, int)> {
    match spec_parse_u32(s, off) {
        Some((n, e)) => if e < s.len() && s[e] == '\n' {
            Some((n, e + 1))
        } else {
            None
        },
        None => None,
    }
}

/// `n` word tokens in a row.
pub open spec fn p_nums(s: Seq<char>, off: int, n: nat) -> Option<(Seq<u32>, int)>
    decreases n,
{
    if n == 0 {
        Some((Seq::empty(), off))
    } else {
        match p_num(s, off) {
            Some((x, e)) => match p_nums(s, e, (n - 1) as nat) {
                Some((xs, e2)) => Some((seq![x] + xs, e2)),
                None => None,
            },
            None => None,
        }
    }
}

/// String token at `off`: count, space, that many characters, newline.
pub open spec fn p_str(s: Seq<char>, off: int) -> Option<(Seq<char>, int)> {
    match spec_parse_u32(s, off) {
        Some((k, e)) => if e < s.len() && s[e] == ' ' && e + 1 + k <= s.len() && s[e + 1 + k]
            == '\n' && e + 2 + k <= s.len() {
            Some((s.subrange(e + 1, e + 1 + k), e + 2 + k))
        } else {
            None
        },
        None => None,
    }
}

pub proof fn lemma_p_num(pre: Seq<char>, n: u32, rest: Seq<char>)
    ensures
        p_num(pre + num_tok(n) + rest, pre.len() as int) == Some::<(u32, int)>(
            (n, pre.len() + num_tok(n).len() as int),
        ),
{
    let s = pre + num_tok(n) + rest;
    let tail = seq!['\n'] + rest;
    assert(s =~= pre + dec_chars(n as nat) + tail);
    assert(!is_digit(tail[0]));
    lemma_parse_dec_chars(pre, n, tail);
    lemma_dec_chars(n as nat);
    let e = pre.len() + dec_chars(n as nat).len() as int;
    assert(s[e] == '\n');
}

pub proof fn lemma_p_nums(pre: Seq<char>, ws: Seq<u32>, rest: Seq<char>)
    ensures
        p_nums(pre + nums_tok(ws) + rest, pre.len() as int, ws.len()) == Some::<(Seq<u32>, int)>(
            (ws, pre.len() + nums_tok(ws).len() as int),
        ),
    decreases ws.len(),
{
    let s = pre + nums_tok(ws) + rest;
    if ws.len() == 0 {
        assert(s.subrange(pre.len() as int, pre.len() as int) =~= Seq::<char>::empty());
        assert(p_nums(s, pre.len() as int, 0) == Some::<(Seq<u32>, int)>(
            (Seq::empty(), pre.len() as int),
        ));
        assert(ws =~= Seq::<u32>::empty());
    } else {
        let w0 = ws[0];
        let wr = ws.drop_first();
        assert(nums_tok(ws) == num_tok(w0) + nums_tok(wr));
        assert(s =~= pre + num_tok(w0) + (nums_tok(wr) + rest));
        lemma_p_num(pre, w0, nums_tok(wr) + rest);
        let e = pre.len() + num_tok(w0).len() as int;
        assert(s =~= (pre + num_tok(w0)) + nums_tok(wr) + rest);
        lemma_p_nums(pre + num_tok(w0), wr, rest);
        assert(seq![w0] + wr =~= ws);
    }
}

pub proof fn lemma_p_str(pre: Seq<char>, t: Seq<char>, rest: Seq<char>)
    requires
        t.len() <= u32::MAX,
    ensures
        p_str(pre + str_tok(t) + rest, pre.len() as int) == Some::<(Seq<char>, int)>(
            (t, pre.len() + str_tok(t).len() as int),
        ),
{
    let s = pre + str_tok(t) + rest;
    let k = t.len() as u32;
    let tail = seq![' '] + t + seq!['\n'] + rest;
    assert(s =~= pre + dec_chars(k as nat) + tail);
    assert(!is_digit(tail[0]));
    lemma_parse_dec_chars(pre, k, tail);
    lemma_dec_chars(k as nat);
    let e = pre.len() + dec_chars(k as nat).len() as int;
    assert(spec_parse_u32(s, pre.len() as int) == Some::<(u32, int)>((k, e)));
    assert(s[e] == ' ');
    assert(s[e + 1 + k] == '\n');
    assert(s.subrange(e + 1, e + 1 + k) =~= t);
}

/// Append one word token.
pub fn put_num(out: &mut String, n: u32)
    ensures
        final(out)@ == old(out)@ + num_tok(n),
{
    let d = u32_to_dec(n);
    out.append(d.as_str());
    out.append("\n");
    proof {
        reveal_strlit("\n");
        assert(final(out)@ =~= old(out)@ + num_tok(n));
    }
}

/// Append a run of word tokens.
pub fn put_nums(out: &mut String, ws: &Vec<u32>)
    ensures
        final(out)@ == old(out)@ + nums_tok(ws@),
{
    let mut i: usize = 0;
    while i < ws.len()
        invariant
            i <= ws@.len(),
            out@ == old(out)@ + nums_tok(ws@.take(i as int)),
        decreases ws@.len() - i,
    {
        put_num(out, ws[i]);
        i = i + 1;
        proof {
            lemma_nums_tok_push(ws@.take(i - 1), ws@[i - 1]);
            assert(ws@.take(i as int) =~= ws@.take(i - 1).push(ws@[i - 1]));
            assert(out@ =~= old(out)@ + nums_tok(ws@.take(i as int)));
        }
    }
    proof {
        assert(ws@.take(ws@.len() as int) =~= ws@);
    }
}

pub proof fn lemma_nums_tok_append(a: Seq<u32>, b: Seq<u32>)
    ensures
        nums_tok(a + b) == nums_tok(a) + nums_tok(b),
    decreases a.len(),
{
    if a.len() == 0 {
        assert(a + b =~= b);
        assert(nums_tok(a) + nums_tok(b) =~= nums_tok(b));
    } else {
        lemma_nums_tok_append(a.drop_first(), b);
        assert((a + b).drop_first() =~= a.drop_first() + b);
        assert(num_tok(a[0]) + (nums_tok(a.drop_first()) + nums_tok(b)) =~= (num_tok(a[0])
            + nums_tok(a.drop_first())) + nums_tok(b));
    }
}

/// Every word token from `off` to the end of the document.
pub open spec fn p_all_nums(s: Seq<char>, off: int) -> Option<Seq<u32>>
    decreases s.len() - off,
{
    if off == s.len() {
        Some(Seq::empty())
    } else {
        match p_num(s, off) {
            Some((x, e)) => if off < e <= s.len() {
                match p_all_nums(s, e) {
                    Some(xs) => Some(seq![x] + xs),
                    None => None,
                }
            } else {
                None
            },
            None => None,
        }
    }
}

/// A written token run followed by nothing reads back to exactly itself.
pub proof fn lemma_p_all_nums(pre: Seq<char>, ws: Seq<u32>)
    ensures
        p_all_nums(pre + nums_tok(ws), pre.len() as int) == Some(ws),
    decreases ws.len(),
{
    let s = pre + nums_tok(ws);
    if ws.len() == 0 {
        assert(pre.len() == s.len());
        assert(ws =~= Seq::<u32>::empty());
    } else {
        let w0 = ws[0];
        let wr = ws.drop_first();
        assert(nums_tok(ws) == num_tok(w0) + nums_tok(wr));
        assert(s =~= pre + num_tok(w0) + nums_tok(wr));
        lemma_p_num(pre, w0, nums_tok(wr));
        crate::num::lemma_dec_chars(w0 as nat);
        assert(s =~= (pre + num_tok(w0)) + nums_tok(wr));
        lemma_p_all_nums(pre + num_tok(w0), wr);
        assert(pre.len() < pre.len() + num_tok(w0).len());
        assert(seq![w0] + wr =~= ws);
    }
}

impl<'a> DocReader<'a> {
    /// Read every remaining word token to the end of the document;
    /// mirrors `p_all_nums`.
    pub fn read_all_nums(&mut self) -> (r: Result<Vec<u32>, Error>)
        requires
            old(self).wf(),
        ensures
            final(self).s@ == old(self).s@,
            final(self).wf(),
            match r {
                Ok(ws) => {
                    &&& p_all_nums(old(self).s@, old(self).pos as int) == Some(ws@)
                    &&& final(self).pos == old(self).s@.len()
                },
                Err(e) => {
                    &&& e == Error::Document
                    &&& p_all_nums(old(self).s@, old(self).pos as int) is None
                },
            },
    {
        let mut ws: Vec<u32> = Vec::new();
        let len = self.s.unicode_len();
        loop
            invariant
                self.wf(),
                self.s@ == old(self).s@,
                len == self.s@.len(),
                old(self).pos <= self.pos,
                p_all_nums(old(self).s@, old(self).pos as int) == (match p_all_nums(
                    self.s@,
                    self.pos as int,
                ) {
                    Some(rest) => Some(ws@ + rest),
                    None => None::<Seq<u32>>,
                }),
            ensures
                self.wf(),
                self.s@ == old(self).s@,
                self.pos == self.s@.len(),
                p_all_nums(old(self).s@, old(self).pos as int) == Some(ws@ + Seq::<u32>::empty()),
            decreases len - self.pos,
        {
            if self.pos == len {
                break;
            }
            let ghost p0 = self.pos as int;
            let x = match self.read_num() {
                Ok(x) => x,
                Err(_) => {
                    return Err(Error::Document);
                },
            };
            ws.push(x);
            proof {
                crate::num::lemma_digits_end_bounds(self.s@, p0);
                match p_all_nums(self.s@, self.pos as int) {
                    Some(rest) => {
                        assert(ws@.drop_last() + (seq![x] + rest) =~= ws@ + rest);
                    },
                    None => {},
                }
            }
        }
        proof {
            assert(ws@ + Seq::<u32>::empty() =~= ws@);
        }
        Ok(ws)
    }
}

/// A string token's content always fits the 32-bit count that frames it.
pub proof fn lemma_p_str_len(s: Seq<char>, off: int)
    requires
        0 <= off <= s.len(),
        p_str(s, off) is Some,
    ensures
        p_str(s, off)->Some_0.0.len() <= u32::MAX,
{
    crate::num::lemma_digits_end_bounds(s, off);
    let (k, e) = spec_parse_u32(s, off)->Some_0;
    assert(0 <= off < e);
    assert(e + 1 + k <= s.len());
    assert(p_str(s, off)->Some_0.0 == s.subrange(e + 1, e + 1 + k));
    assert(s.subrange(e + 1, e + 1 + k).len() == k);
}

/// A successful `p_nums` yields exactly `n` words.
pub proof fn lemma_p_nums_len(s: Seq<char>, off: int, n: nat)
    requires
        p_nums(s, off, n) is Some,
    ensures
        p_nums(s, off, n)->Some_0.0.len() == n,
    decreases n,
{
    if n > 0 {
        let (x, e) = p_num(s, off)->Some_0;
        lemma_p_nums_len(s, e, (n - 1) as nat);
    }
}

/// A word token is at least two characters, so `n` of them need `2 n`.
pub proof fn lemma_p_nums_min_len(s: Seq<char>, off: int, n: nat)
    requires
        0 <= off <= s.len(),
        p_nums(s, off, n) is Some,
    ensures
        off + 2 * n <= p_nums(s, off, n)->Some_0.1 <= s.len(),
    decreases n,
{
    if n > 0 {
        let (x, e) = p_num(s, off)->Some_0;
        crate::num::lemma_digits_end_bounds(s, off);
        lemma_p_nums_min_len(s, e, (n - 1) as nat);
    }
}

pub proof fn lemma_nums_tok_push(ws: Seq<u32>, x: u32)
    ensures
        nums_tok(ws.push(x)) == nums_tok(ws) + num_tok(x),
    decreases ws.len(),
{
    if ws.len() == 0 {
        let s = ws.push(x);
        assert(s.drop_first() =~= Seq::<u32>::empty());
        assert(nums_tok(s) == num_tok(x) + nums_tok(s.drop_first()));
        assert(num_tok(x) + Seq::<char>::empty() =~= num_tok(x));
        assert(Seq::<char>::empty() + num_tok(x) =~= num_tok(x));
    } else {
        lemma_nums_tok_push(ws.drop_first(), x);
        assert(ws.push(x).drop_first() =~= ws.drop_first().push(x));
        assert(ws.push(x)[0] == ws[0]);
        assert(num_tok(ws[0]) + (nums_tok(ws.drop_first()) + num_tok(x)) =~= (num_tok(ws[0])
            + nums_tok(ws.drop_first())) + num_tok(x));
    }
}

/// Append one string token.
pub fn put_str_tok(out: &mut String, t: &str)
    requires
        t@.len() <= u32::MAX,
    ensures
        final(out)@ == old(out)@ + str_tok(t@),
{
    let k = t.unicode_len();
    let d = u32_to_dec(k as u32);
    out.append(d.as_str());
    out.append(" ");
    out.append(t);
    out.append("\n");
    proof {
        reveal_strlit(" ");
        reveal_strlit("\n");
        assert(final(out)@ =~= old(out)@ + str_tok(t@));
    }
}

/// A sequential reader over a manifest document.
pub struct DocReader<'a> {
    pub s: &'a str,
    pub pos: usize,
}

impl<'a> DocReader<'a> {
    pub open spec fn wf(self) -> bool {
        self.pos <= self.s@.len()
    }

    pub fn new(s: &'a str) -> (r: DocReader<'a>)
        ensures
            r.s@ == s@,
            r.pos == 0,
            r.wf(),
    {
        DocReader { s, pos: 0 }
    }

    /// The document must be fully consumed.
    pub fn at_end(&self) -> (r: bool)
        requires
            self.wf(),
        ensures
            r == (self.pos == self.s@.len()),
    {
        self.pos == self.s.unicode_len()
    }

    /// Read one word token; mirrors `p_num`.
    pub fn read_num(&mut self) -> (r: Result<u32, Error>)
        requires
            old(self).wf(),
        ensures
            final(self).s@ == old(self).s@,
            final(self).wf(),
            match r {
                Ok(n) => p_num(old(self).s@, old(self).pos as int) == Some::<(u32, int)>(
                    (n, final(self).pos as int),
                ),
                Err(e) => {
                    &&& e == Error::Document
                    &&& p_num(old(self).s@, old(self).pos as int) is None
                },
            },
    {
        let (n, e) = match parse_u32_dec(self.s, self.pos) {
            Ok(v) => v,
            Err(_) => {
                return Err(Error::Document);
            },
        };
        if e == self.s.unicode_len() {
            return Err(Error::Document);
        }
        let c = self.s.get_char(e);
        if c != '\n' {
            return Err(Error::Document);
        }
        self.pos = e + 1;
        Ok(n)
    }

    /// Read `n` word tokens; mirrors `p_nums`.
    pub fn read_nums(&mut self, n: usize) -> (r: Result<Vec<u32>, Error>)
        requires
            old(self).wf(),
        ensures
            final(self).s@ == old(self).s@,
            final(self).wf(),
            match r {
                Ok(ws) => {
                    &&& p_nums(old(self).s@, old(self).pos as int, n as nat)
                        == Some::<(Seq<u32>, int)>((ws@, final(self).pos as int))
                    &&& ws@.len() == n
                },
                Err(e) => {
                    &&& e == Error::Document
                    &&& p_nums(old(self).s@, old(self).pos as int, n as nat) is None
                },
            },
    {
        let mut ws: Vec<u32> = Vec::new();
        let mut i: usize = 0;
        while i < n
            invariant
                self.wf(),
                self.s@ == old(self).s@,
                i <= n,
                ws@.len() == i,
                p_nums(old(self).s@, old(self).pos as int, n as nat) == (match p_nums(
                    self.s@,
                    self.pos as int,
                    (n - i) as nat,
                ) {
                    Some((xs, e)) => Some::<(Seq<u32>, int)>((ws@ + xs, e)),
                    None => None::<(Seq<u32>, int)>,
                }),
            decreases n - i,
        {
            let ghost pos0 = self.pos as int;
            let x = match self.read_num() {
                Ok(x) => x,
                Err(_) => {
                    return Err(Error::Document);
                },
            };
            ws.push(x);
            i = i + 1;
            proof {
                let left = (n - i) as nat;
                match p_nums(self.s@, self.pos as int, left) {
                    Some((xs, e)) => {
                        assert(ws@ + xs =~= ws@.drop_last() + (seq![x] + xs));
                    },
                    None => {},
                }
            }
        }
        proof {
            assert(ws@ + Seq::<u32>::empty() =~= ws@);
        }
        Ok(ws)
    }

    /// Read one string token; mirrors `p_str`.
    pub fn read_str(&mut self) -> (r: Result<String, Error>)
        requires
            old(self).wf(),
        ensures
            final(self).s@ == old(self).s@,
            final(self).wf(),
            match r {
                Ok(t) => p_str(old(self).s@, old(self).pos as int) == Some::<(Seq<char>, int)>(
                    (t@, final(self).pos as int),
                ),
                Err(e) => {
                    &&& e == Error::Document
                    &&& p_str(old(self).s@, old(self).pos as int) is None
                },
            },
    {
        let (k, e) = match parse_u32_dec(self.s, self.pos) {
            Ok(v) => v,
            Err(_) => {
                return Err(Error::Document);
            },
        };
        let len = self.s.unicode_len();
        if e == len {
            return Err(Error::Document);
        }
        let c = self.s.get_char(e);
        if c != ' ' {
            return Err(Error::Document);
        }
        if k as usize > len - (e + 1) {
            return Err(Error::Document);
        }
        let body_end = e + 1 + (k as usize);
        if body_end == len {
            return Err(Error::Document);
        }
        let c2 = self.s.get_char(body_end);
        if c2 != '\n' {
            return Err(Error::Document);
        }
        let t = self.s.substring_char(e + 1, body_end);
        self.pos = body_end + 1;
        Ok(t.to_owned())
    }

    /// Expect the literal `lit` at the cursor, consuming it.
    pub fn expect_lit(&mut self, lit: &str) -> (r: Result<(), Error>)
        requires
            old(self).wf(),
        ensures
            final(self).s@ == old(self).s@,
            final(self).wf(),
            match r {
                Ok(()) => {
                    &&& old(self).pos + lit@.len() <= old(self).s@.len()
                    &&& final(self).pos == old(self).pos + lit@.len()
                    &&& old(self).s@.subrange(
                        old(self).pos as int,
                        old(self).pos + lit@.len() as int,
                    ) == lit@
                },
                Err(e) => {
                    &&& e == Error::Document
                    &&& !(old(self).pos + lit@.len() <= old(self).s@.len()
                        && old(self).s@.subrange(
                        old(self).pos as int,
                        old(self).pos + lit@.len() as int,
                    ) == lit@)
                },
            },
    {
        let n = lit.unicode_len();
        if n > self.s.unicode_len() - self.pos {
            return Err(Error::Document);
        }
        let mut i: usize = 0;
        while i < n
            invariant
                self.wf(),
                i <= n,
                n == lit@.len(),
                self.pos + n <= self.s@.len(),
                self.s@.len() <= usize::MAX,
                forall|j: int|
                    0 <= j < i ==> self.s@[self.pos + j] == #[trigger] lit@[j],
            decreases n - i,
        {
            let a = self.s.get_char(self.pos + i);
            let b = lit.get_char(i);
            if a != b {
                proof {
                    assert(self.s@[self.pos + i] != lit@[i as int]);
                    assert(self.s@.subrange(self.pos as int, self.pos + lit@.len() as int)[i as int]
                        == self.s@[self.pos + i]);
                }
                return Err(Error::Document);
            }
            i = i + 1;
        }
        self.pos = self.pos + n;
        proof {
            assert(old(self).s@.subrange(old(self).pos as int, old(self).pos + lit@.len() as int)
                =~= lit@);
        }
        Ok(())
    }
}

} // verus!
