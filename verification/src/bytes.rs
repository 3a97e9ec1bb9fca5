//! Byte-level ground layer shared by every container codec: little-endian
//! 32-bit words over byte sequences, a bounds-checked reader, and a
//! random-access sink whose seek-and-overwrite operation carries the
//! offset back-patching protocol.
use crate::Error;
use vstd::assert_seqs_equal;
use vstd::bytes::{
    spec_u32_from_le_bytes, spec_u32_to_le_bytes, u32_from_le_bytes, u32_to_le_bytes,
    lemma_auto_spec_u32_to_from_le_bytes,
};
use vstd::prelude::*;
use vstd::slice::{slice_subrange, slice_to_vec};

verus! {

/// The little-endian 32-bit word stored at byte offset `off`.
pub open spec fn word_at(b: Seq<u8>, off: int) -> u32 {
    spec_u32_from_le_bytes(b.subrange(off, off + 4))
}

/// `n` consecutive little-endian words starting at byte offset `off`.
pub open spec fn words_at(b: Seq<u8>, off: int, n: nat) -> Seq<u32> {
    Seq::new(n, |i: int| word_at(b, off + 4 * i))
}

/// Canonical little-endian byte form of a word sequence.
pub open spec fn words_bytes(ws: Seq<u32>) -> Seq<u8>
    decreases ws.len(),
{
    if ws.len() == 0 {
        Seq::empty()
    } else {
        spec_u32_to_le_bytes(ws[0]) + words_bytes(ws.drop_first())
    }
}

pub proof fn lemma_words_bytes_len(ws: Seq<u32>)
    ensures
        words_bytes(ws).len() == 4 * ws.len(),
    decreases ws.len(),
{
    lemma_auto_spec_u32_to_from_le_bytes();
    if ws.len() > 0 {
        lemma_words_bytes_len(ws.drop_first());
    }
}

pub proof fn lemma_words_bytes_append(a: Seq<u32>, b: Seq<u32>)
    ensures
        words_bytes(a + b) == words_bytes(a) + words_bytes(b),
    decreases a.len(),
{
    if a.len() == 0 {
        assert(a + b =~= b);
        assert(words_bytes(a) + words_bytes(b) =~= words_bytes(b));
    } else {
        lemma_words_bytes_append(a.drop_first(), b);
        assert((a + b).drop_first() =~= a.drop_first() + b);
        assert(spec_u32_to_le_bytes(a[0]) + (words_bytes(a.drop_first()) + words_bytes(b))
            =~= (spec_u32_to_le_bytes(a[0]) + words_bytes(a.drop_first())) + words_bytes(b));
    }
}

pub proof fn lemma_words_bytes_push(a: Seq<u32>, x: u32)
    ensures
        words_bytes(a.push(x)) == words_bytes(a) + spec_u32_to_le_bytes(x),
{
    assert(a.push(x) =~= a + seq![x]);
    lemma_words_bytes_append(a, seq![x]);
    let s = seq![x];
    assert(s.drop_first() =~= Seq::<u32>::empty());
    assert(words_bytes(s) == spec_u32_to_le_bytes(s[0]) + words_bytes(s.drop_first()));
    assert(words_bytes(s.drop_first()) == Seq::<u8>::empty());
    assert(spec_u32_to_le_bytes(x) + Seq::<u8>::empty() =~= spec_u32_to_le_bytes(x));
}

/// Reading `n` words back out of their canonical bytes restores them,
/// and the canonical bytes of words read from a buffer are exactly the
/// byte range they were read from.
pub proof fn lemma_words_at_bytes(b: Seq<u8>, off: int, n: nat)
    requires
        0 <= off,
        off + 4 * n <= b.len(),
    ensures
        words_bytes(words_at(b, off, n)) =~= b.subrange(off, off + 4 * n),
    decreases n,
{
    lemma_auto_spec_u32_to_from_le_bytes();
    if n == 0 {
    } else {
        lemma_words_at_bytes(b, off + 4, (n - 1) as nat);
        let ws = words_at(b, off, n);
        assert(ws.drop_first() =~= words_at(b, off + 4, (n - 1) as nat));
        assert(spec_u32_to_le_bytes(ws[0]) =~= b.subrange(off, off + 4));
        assert(b.subrange(off, off + 4) + b.subrange(off + 4, off + 4 * n)
            =~= b.subrange(off, off + 4 * n));
    }
}

/// Concatenation of a sequence of byte chunks.
pub open spec fn cat(chunks: Seq<Seq<u8>>) -> Seq<u8>
    decreases chunks.len(),
{
    if chunks.len() == 0 {
        Seq::empty()
    } else {
        chunks[0] + cat(chunks.drop_first())
    }
}

/// Byte offset of chunk `i` inside the concatenation.
pub open spec fn cat_off(chunks: Seq<Seq<u8>>, i: int) -> int {
    cat(chunks.take(i)).len() as int
}

pub proof fn lemma_cat_len_nonneg(chunks: Seq<Seq<u8>>)
    ensures
        cat(chunks).len() >= 0,
{
}

pub proof fn lemma_cat_append(a: Seq<Seq<u8>>, b: Seq<Seq<u8>>)
    ensures
        cat(a + b) == cat(a) + cat(b),
    decreases a.len(),
{
    if a.len() == 0 {
        assert(a + b =~= b);
        assert(cat(a) + cat(b) =~= cat(b));
    } else {
        lemma_cat_append(a.drop_first(), b);
        assert((a + b).drop_first() =~= a.drop_first() + b);
        assert(a[0] + (cat(a.drop_first()) + cat(b)) =~= (a[0] + cat(a.drop_first())) + cat(b));
    }
}

pub proof fn lemma_cat_push(a: Seq<Seq<u8>>, x: Seq<u8>)
    ensures
        cat(a.push(x)) == cat(a) + x,
{
    assert(a.push(x) =~= a + seq![x]);
    lemma_cat_append(a, seq![x]);
    let s = seq![x];
    assert(s.drop_first() =~= Seq::<Seq<u8>>::empty());
    assert(cat(s) == s[0] + cat(s.drop_first()));
    assert(x + Seq::<u8>::empty() =~= x);
}

/// The concatenation splits around any one chunk.
pub proof fn lemma_cat_decompose(chunks: Seq<Seq<u8>>, i: int)
    requires
        0 <= i < chunks.len(),
    ensures
        cat(chunks) == cat(chunks.take(i)) + chunks[i] + cat(chunks.skip(i + 1)),
    decreases i,
{
    if i == 0 {
        assert(chunks.take(0) =~= Seq::<Seq<u8>>::empty());
        assert(chunks.skip(1) =~= chunks.drop_first());
        assert(cat(chunks) =~= Seq::empty() + chunks[0] + cat(chunks.drop_first()));
    } else {
        lemma_cat_decompose(chunks.drop_first(), i - 1);
        assert(chunks.drop_first().take(i - 1) =~= chunks.take(i).drop_first());
        assert(chunks.drop_first().skip(i) =~= chunks.skip(i + 1));
        assert(chunks.drop_first()[i - 1] == chunks[i]);
        assert(cat(chunks) == chunks[0] + cat(chunks.drop_first()));
        assert(cat(chunks.take(i)) == chunks.take(i)[0] + cat(chunks.take(i).drop_first()));
        assert(chunks.take(i)[0] == chunks[0]);
        assert(chunks[0] + (cat(chunks.take(i).drop_first()) + chunks[i] + cat(chunks.skip(i + 1)))
            =~= (chunks[0] + cat(chunks.take(i).drop_first())) + chunks[i] + cat(
            chunks.skip(i + 1),
        ));
    }
}

/// Chunk `i` sits at `cat_off(chunks, i)` in the concatenation.
pub proof fn lemma_cat_chunk_at(chunks: Seq<Seq<u8>>, i: int)
    requires
        0 <= i < chunks.len(),
    ensures
        0 <= cat_off(chunks, i),
        cat_off(chunks, i) + chunks[i].len() <= cat(chunks).len(),
        cat(chunks).subrange(cat_off(chunks, i), cat_off(chunks, i) + chunks[i].len() as int)
            == chunks[i],
{
    lemma_cat_decompose(chunks, i);
    let a = cat(chunks.take(i));
    let b = chunks[i];
    let c = cat(chunks.skip(i + 1));
    assert((a + b + c).subrange(a.len() as int, a.len() + b.len() as int) =~= b);
}

/// Overwriting a window inside chunk `i` of a framed concatenation
/// touches that window and nothing else.
pub proof fn lemma_cat_patch(
    pre: Seq<u8>,
    chunks: Seq<Seq<u8>>,
    post: Seq<u8>,
    i: int,
    w: int,
    x: Seq<u8>,
)
    requires
        0 <= i < chunks.len(),
        0 <= w,
        w + x.len() <= chunks[i].len(),
    ensures
        splice(pre + cat(chunks) + post, pre.len() + cat_off(chunks, i) + w, x) == pre + cat(
            chunks.update(i, splice(chunks[i], w, x)),
        ) + post,
{
    lemma_cat_decompose(chunks, i);
    let a = cat(chunks.take(i));
    let b = chunks[i];
    let c = cat(chunks.skip(i + 1));
    let b2 = splice(b, w, x);
    assert(b2 =~= b.take(w) + x + b.skip(w + x.len()));
    assert(b2.len() == b.len());
    let whole = pre + cat(chunks) + post;
    let p = pre.len() + a.len() + w;
    let before = pre + a + b.take(w);
    let after = b.skip(w + x.len()) + c + post;
    assert(whole =~= before + b.subrange(w, w + x.len()) + after);
    lemma_splice_mid(before, b.subrange(w, w + x.len()), after, x);
    assert(splice(whole, p, x) =~= before + x + after);
    lemma_cat_decompose(chunks.update(i, b2), i);
    assert(chunks.update(i, b2).take(i) =~= chunks.take(i));
    assert(chunks.update(i, b2).skip(i + 1) =~= chunks.skip(i + 1));
    assert(pre + cat(chunks.update(i, b2)) + post =~= before + x + after);
}

/// Replacing one word rewrites exactly its four bytes.
pub proof fn lemma_words_bytes_update(ws: Seq<u32>, k: int, x: u32)
    requires
        0 <= k < ws.len(),
    ensures
        words_bytes(ws.update(k, x)) == splice(words_bytes(ws), 4 * k, spec_u32_to_le_bytes(x)),
{
    lemma_auto_spec_u32_to_from_le_bytes();
    let a = ws.take(k);
    let b = ws.skip(k + 1);
    assert(ws =~= a + seq![ws[k]] + b);
    assert(ws.update(k, x) =~= a + seq![x] + b);
    lemma_words_bytes_append(a + seq![ws[k]], b);
    lemma_words_bytes_append(a, seq![ws[k]]);
    lemma_words_bytes_append(a + seq![x], b);
    lemma_words_bytes_append(a, seq![x]);
    lemma_words_bytes_push(Seq::empty(), ws[k]);
    lemma_words_bytes_push(Seq::empty(), x);
    assert(Seq::<u32>::empty().push(ws[k]) =~= seq![ws[k]]);
    assert(Seq::<u32>::empty().push(x) =~= seq![x]);
    assert(words_bytes(Seq::<u32>::empty()) + spec_u32_to_le_bytes(ws[k])
        =~= spec_u32_to_le_bytes(ws[k]));
    assert(words_bytes(Seq::<u32>::empty()) + spec_u32_to_le_bytes(x)
        =~= spec_u32_to_le_bytes(x));
    lemma_words_bytes_len(a);
    lemma_splice_mid(
        words_bytes(a),
        spec_u32_to_le_bytes(ws[k]),
        words_bytes(b),
        spec_u32_to_le_bytes(x),
    );
    assert(words_bytes(ws) == words_bytes(a) + spec_u32_to_le_bytes(ws[k]) + words_bytes(b));
    assert(words_bytes(ws.update(k, x)) == words_bytes(a) + spec_u32_to_le_bytes(x)
        + words_bytes(b));
}

/// Chunks cut consecutively out of one buffer concatenate back to the
/// whole cut range.
pub proof fn lemma_cat_adjacent(b: Seq<u8>, start: int, size: int, n: nat)
    requires
        0 <= start,
        0 < size,
        start + size * n <= b.len(),
    ensures
        cat(Seq::new(n, |i: int| b.subrange(start + size * i, start + size * (i + 1))))
            == b.subrange(start, start + size * n),
    decreases n,
{
    let chunks = Seq::new(n, |i: int| b.subrange(start + size * i, start + size * (i + 1)));
    if n == 0 {
        assert(size * n == 0) by (nonlinear_arith)
            requires
                n == 0,
        ;
        assert(cat(chunks) =~= b.subrange(start, start + size * n));
    } else {
        assert(size * n == size + size * (n - 1)) by (nonlinear_arith)
            requires
                n >= 1,
        ;
        lemma_cat_adjacent(b, start + size, size, (n - 1) as nat);
        let rest = Seq::new(
            (n - 1) as nat,
            |i: int| b.subrange(start + size + size * i, start + size + size * (i + 1)),
        );
        assert forall|i: int| 0 <= i < n - 1 implies chunks.drop_first()[i] == rest[i] by {
            assert(size * (i + 1) == size + size * i) by (nonlinear_arith);
            assert(size * (i + 2) == size + size * (i + 1)) by (nonlinear_arith);
        }
        assert(chunks.drop_first() =~= rest);
        assert(cat(chunks) == chunks[0] + cat(rest));
        assert(size * 1 == size) by (nonlinear_arith);
        assert(size * n >= size) by (nonlinear_arith)
            requires
                n >= 1 && size > 0,
        ;
        assert(chunks[0] == b.subrange(start, start + size));
        assert(start + size + size * ((n - 1) as nat) == start + size * n);
        assert(cat(rest) == b.subrange(start + size, start + size * n));
        assert(chunks[0] + b.subrange(start + size, start + size * n) =~= b.subrange(
            start,
            start + size * n,
        ));
        assert(cat(chunks) == b.subrange(start, start + size * n));
    }
}

/// A bounds-checked sequential reader over a borrowed byte buffer.
pub struct Reader<'a> {
    pub data: &'a [u8],
    pub pos: usize,
}

impl<'a> Reader<'a> {
    pub open spec fn wf(self) -> bool {
        self.pos <= self.data@.len()
    }

    pub fn new(data: &'a [u8]) -> (r: Reader<'a>)
        ensures
            r.data@ == data@,
            r.pos == 0,
            r.wf(),
    {
        Reader { data, pos: 0 }
    }

    pub fn remaining(&self) -> (n: usize)
        requires
            self.wf(),
        ensures
            n == self.data@.len() - self.pos,
    {
        self.data.len() - self.pos
    }

    /// Read one little-endian word; a short buffer is a format error.
    pub fn read_u32(&mut self) -> (r: Result<u32, Error>)
        requires
            old(self).wf(),
        ensures
            final(self).data@ == old(self).data@,
            final(self).wf(),
            match r {
                Ok(x) => {
                    &&& old(self).pos + 4 <= old(self).data@.len()
                    &&& final(self).pos == old(self).pos + 4
                    &&& x == word_at(old(self).data@, old(self).pos as int)
                },
                Err(e) => {
                    &&& e == Error::Format
                    &&& old(self).pos + 4 > old(self).data@.len()
                    &&& final(self).pos == old(self).pos
                },
            },
    {
        if self.data.len() - self.pos >= 4 {
            let s = slice_subrange(self.data, self.pos, self.pos + 4);
            let x = u32_from_le_bytes(s);
            self.pos = self.pos + 4;
            Ok(x)
        } else {
            Err(Error::Format)
        }
    }

    /// Read `n` consecutive little-endian words.
    pub fn read_words(&mut self, n: usize) -> (r: Result<Vec<u32>, Error>)
        requires
            old(self).wf(),
        ensures
            final(self).data@ == old(self).data@,
            final(self).wf(),
            match r {
                Ok(ws) => {
                    &&& old(self).pos + 4 * n <= old(self).data@.len()
                    &&& final(self).pos == old(self).pos + 4 * n
                    &&& ws@ == words_at(old(self).data@, old(self).pos as int, n as nat)
                },
                Err(e) => {
                    &&& e == Error::Format
                    &&& old(self).pos + 4 * n > old(self).data@.len()
                    &&& final(self).pos == old(self).pos
                },
            },
    {
        if (self.data.len() - self.pos) / 4 < n {
            return Err(Error::Format);
        }
        let ghost start = self.pos as int;
        let mut ws: Vec<u32> = Vec::new();
        let mut i: usize = 0;
        while i < n
            invariant
                self.wf(),
                self.data@ == old(self).data@,
                i <= n,
                start + 4 * n <= self.data@.len(),
                self.pos == start + 4 * i,
                ws@ =~= words_at(self.data@, start, i as nat),
            decreases n - i,
        {
            let x = match self.read_u32() {
                Ok(x) => x,
                Err(_) => {
                    proof {
                        assert(false);
                    }
                    return Err(Error::Format);
                },
            };
            ws.push(x);
            i = i + 1;
            proof {
                assert(ws@ =~= words_at(self.data@, start, i as nat));
            }
        }
        Ok(ws)
    }

    /// Copy out `n` raw bytes.
    pub fn read_bytes(&mut self, n: usize) -> (r: Result<Vec<u8>, Error>)
        requires
            old(self).wf(),
        ensures
            final(self).data@ == old(self).data@,
            final(self).wf(),
            match r {
                Ok(v) => {
                    &&& old(self).pos + n <= old(self).data@.len()
                    &&& final(self).pos == old(self).pos + n
                    &&& v@ == old(self).data@.subrange(
                        old(self).pos as int,
                        old(self).pos + n,
                    )
                },
                Err(e) => {
                    &&& e == Error::Format
                    &&& old(self).pos + n > old(self).data@.len()
                    &&& final(self).pos == old(self).pos
                },
            },
    {
        if self.data.len() - self.pos < n {
            return Err(Error::Format);
        }
        let s = slice_subrange(self.data, self.pos, self.pos + n);
        let v = slice_to_vec(s);
        self.pos = self.pos + n;
        Ok(v)
    }
}

/// `s` with `b` written over it at `pos`, growing it where `b` runs past
/// the end.  This is the whole effect of a positioned write.
pub open spec fn splice(s: Seq<u8>, pos: int, b: Seq<u8>) -> Seq<u8>
    recommends
        0 <= pos <= s.len(),
{
    if pos + b.len() <= s.len() {
        s.take(pos) + b + s.skip(pos + b.len())
    } else {
        s.take(pos) + b
    }
}

/// Writing at the very end is plain appending.
pub proof fn lemma_splice_append(s: Seq<u8>, b: Seq<u8>)
    ensures
        splice(s, s.len() as int, b) =~= s + b,
{
    if b.len() == 0 {
        assert(splice(s, s.len() as int, b) =~= s.take(s.len() as int) + b + s.skip(s.len() as int));
    }
}

/// Overwriting the middle piece of a three-piece concatenation with a
/// piece of equal length replaces it and nothing else.
pub proof fn lemma_splice_mid(a: Seq<u8>, b: Seq<u8>, c: Seq<u8>, b2: Seq<u8>)
    requires
        b.len() == b2.len(),
    ensures
        splice(a + b + c, a.len() as int, b2) =~= a + b2 + c,
{
}

/// Splicing inside the middle piece of a concatenation stays inside it.
pub proof fn lemma_splice_concat(a: Seq<u8>, b: Seq<u8>, c: Seq<u8>, p: int, x: Seq<u8>)
    requires
        0 <= p,
        p + x.len() <= b.len(),
    ensures
        splice(a + b + c, a.len() + p, x) == a + splice(b, p, x) + c,
{
    assert(splice(b, p, x) =~= b.take(p) + x + b.skip(p + x.len()));
    let before = a + b.take(p);
    let after = b.skip(p + x.len()) + c;
    assert(a + b + c =~= before + b.subrange(p, p + x.len()) + after);
    lemma_splice_mid(before, b.subrange(p, p + x.len()), after, x);
    assert(a + splice(b, p, x) + c =~= before + x + after);
}

/// Chunks that each sit at their own offset of one buffer, one after
/// another from `start`, concatenate to the byte range they cover.
pub proof fn lemma_cat_consecutive(b: Seq<u8>, start: int, chunks: Seq<Seq<u8>>)
    requires
        0 <= start,
        start + cat(chunks).len() <= b.len(),
        forall|i: int|
            0 <= i < chunks.len() ==> #[trigger] chunks[i] == b.subrange(
                start + cat_off(chunks, i),
                start + cat_off(chunks, i) + chunks[i].len(),
            ),
    ensures
        cat(chunks) == b.subrange(start, start + cat(chunks).len() as int),
    decreases chunks.len(),
{
    if chunks.len() == 0 {
        assert(cat(chunks) =~= b.subrange(start, start));
    } else {
        let c0 = chunks[0];
        let rest = chunks.drop_first();
        assert(chunks.take(0) =~= Seq::<Seq<u8>>::empty());
        assert(cat_off(chunks, 0) == 0);
        assert(c0 == b.subrange(start, start + c0.len()));
        assert forall|i: int| 0 <= i < rest.len() implies #[trigger] rest[i] == b.subrange(
            start + c0.len() + cat_off(rest, i),
            start + c0.len() + cat_off(rest, i) + rest[i].len(),
        ) by {
            assert(chunks.take(i + 1) =~= seq![c0] + rest.take(i));
            lemma_cat_append(seq![c0], rest.take(i));
            assert(seq![c0].drop_first() =~= Seq::<Seq<u8>>::empty());
            assert(cat(seq![c0]) == c0 + cat(Seq::<Seq<u8>>::empty()));
            assert(cat_off(chunks, i + 1) == c0.len() + cat_off(rest, i));
            assert(chunks[i + 1] == rest[i]);
        }
        lemma_cat_consecutive(b, start + c0.len() as int, rest);
        assert(c0 + b.subrange(start + c0.len(), start + c0.len() + cat(rest).len() as int)
            =~= b.subrange(start, start + cat(chunks).len() as int));
    }
}

/// Chunk offsets depend only on chunk lengths.
pub proof fn lemma_cat_off_eq(a: Seq<Seq<u8>>, b: Seq<Seq<u8>>)
    requires
        a.len() == b.len(),
        forall|j: int| 0 <= j < a.len() ==> (#[trigger] a[j]).len() == b[j].len(),
    ensures
        cat(a).len() == cat(b).len(),
        forall|i: int| 0 <= i <= a.len() ==> #[trigger] cat_off(a, i) == cat_off(b, i),
    decreases a.len(),
{
    if a.len() == 0 {
        assert(a.take(0) =~= a);
        assert(b.take(0) =~= b);
    } else {
        lemma_cat_off_eq(a.drop_first(), b.drop_first());
        assert forall|i: int| 0 <= i <= a.len() implies #[trigger] cat_off(a, i) == cat_off(
            b,
            i,
        ) by {
            if i == 0 {
                assert(a.take(0) =~= Seq::<Seq<u8>>::empty());
                assert(b.take(0) =~= Seq::<Seq<u8>>::empty());
            } else {
                assert(a.drop_first().take(i - 1) =~= a.take(i).drop_first());
                assert(b.drop_first().take(i - 1) =~= b.take(i).drop_first());
                assert(cat(a.take(i)) == a.take(i)[0] + cat(a.take(i).drop_first()));
                assert(cat(b.take(i)) == b.take(i)[0] + cat(b.take(i).drop_first()));
                assert(a.take(i)[0] == a[0] && b.take(i)[0] == b[0]);
                assert(cat_off(a.drop_first(), i - 1) == cat_off(b.drop_first(), i - 1));
            }
        }
    }
}

/// An append-or-overwrite byte sink with an explicit write cursor: the
/// random-access substrate of the two-pass back-patching protocol.
pub struct Sink {
    pub data: Vec<u8>,
    pub pos: usize,
}

impl Sink {
    pub open spec fn wf(self) -> bool {
        self.pos <= self.data@.len()
    }

    pub fn new() -> (s: Sink)
        ensures
            s.data@ == Seq::<u8>::empty(),
            s.pos == 0,
            s.wf(),
    {
        Sink { data: Vec::new(), pos: 0 }
    }

    pub fn len(&self) -> (n: usize)
        ensures
            n == self.data@.len(),
    {
        self.data.len()
    }

    pub fn cursor(&self) -> (p: usize)
        ensures
            p == self.pos,
    {
        self.pos
    }

    /// Move the write cursor; only positions inside the written span.
    pub fn seek(&mut self, p: usize)
        requires
            p <= old(self).data@.len(),
        ensures
            final(self).data@ == old(self).data@,
            final(self).pos == p,
            final(self).wf(),
    {
        self.pos = p;
    }

    /// Write `b` at the cursor, overwriting what is there and growing the
    /// buffer past its end; the cursor advances over the written bytes.
    pub fn write(&mut self, b: &[u8])
        requires
            old(self).wf(),
            old(self).pos + b@.len() <= usize::MAX,
        ensures
            final(self).data@ == splice(old(self).data@, old(self).pos as int, b@),
            final(self).pos == old(self).pos + b@.len(),
            final(self).wf(),
    {
        let ghost s0 = self.data@;
        let ghost p0 = self.pos as int;
        let mut i: usize = 0;
        while i < b.len() && self.pos < self.data.len()
            invariant
                self.wf(),
                i <= b@.len(),
                0 <= p0 <= s0.len(),
                self.pos == p0 + i,
                self.data@.len() == s0.len(),
                self.data@ =~= splice(s0, p0, b@.subrange(0, i as int)).take(s0.len() as int),
            decreases b@.len() - i,
        {
            let ghost before = self.data@;
            self.data.set(self.pos, b[i]);
            self.pos = self.pos + 1;
            i = i + 1;
            proof {
                assert(self.data@ =~= before.update(p0 + i - 1, b@[i - 1]));
                assert(self.data@ =~= splice(s0, p0, b@.subrange(0, i as int)).take(s0.len() as int));
            }
        }
        if i < b.len() {
            // the cursor reached the end: the rest is appended
            proof {
                assert(self.pos == self.data@.len());
                assert(self.data@ =~= splice(s0, p0, b@.subrange(0, i as int)));
            }
            let mut j: usize = i;
            while j < b.len()
                invariant
                    self.wf(),
                    i <= j <= b@.len(),
                    0 <= p0 <= s0.len(),
                    p0 + b@.len() >= s0.len(),
                    self.pos == p0 + j,
                    self.pos == self.data@.len(),
                    self.data@ =~= splice(s0, p0, b@.subrange(0, j as int)),
                    p0 + b@.len() <= usize::MAX,
                decreases b@.len() - j,
            {
                let ghost before = self.data@;
                self.data.push(b[j]);
                self.pos = self.pos + 1;
                j = j + 1;
                proof {
                    assert(b@.subrange(0, j as int) =~= b@.subrange(0, j - 1).push(b@[j - 1]));
                    assert(self.data@ =~= splice(s0, p0, b@.subrange(0, j as int)));
                }
            }
            proof {
                assert(b@.subrange(0, b@.len() as int) =~= b@);
            }
        } else {
            proof {
                assert(b@.subrange(0, i as int) =~= b@);
                if p0 + b@.len() <= s0.len() {
                    assert(self.data@ =~= splice(s0, p0, b@));
                } else {
                    assert(self.data@ =~= splice(s0, p0, b@));
                }
            }
        }
    }

    /// Write one word in little-endian form at the cursor.
    pub fn write_u32(&mut self, x: u32)
        requires
            old(self).wf(),
            old(self).pos + 4 <= usize::MAX,
        ensures
            final(self).data@ == splice(old(self).data@, old(self).pos as int, spec_u32_to_le_bytes(x)),
            final(self).pos == old(self).pos + 4,
            final(self).wf(),
            final(self).data@.len() == if old(self).pos + 4 <= old(self).data@.len() {
                old(self).data@.len() as int
            } else {
                old(self).pos + 4
            },
    {
        let v = u32_to_le_bytes(x);
        self.write(v.as_slice());
    }

    /// Append `b` at the end; the cursor must already sit there.
    pub fn append(&mut self, b: &[u8])
        requires
            old(self).wf(),
            old(self).pos == old(self).data@.len(),
            old(self).data@.len() + b@.len() <= usize::MAX,
        ensures
            final(self).data@ == old(self).data@ + b@,
            final(self).pos == final(self).data@.len(),
            final(self).wf(),
    {
        proof {
            lemma_splice_append(old(self).data@, b@);
        }
        self.write(b);
    }

    /// Append one word at the end; the cursor must already sit there.
    pub fn append_u32(&mut self, x: u32)
        requires
            old(self).wf(),
            old(self).pos == old(self).data@.len(),
            old(self).data@.len() + 4 <= usize::MAX,
        ensures
            final(self).data@ == old(self).data@ + spec_u32_to_le_bytes(x),
            final(self).pos == final(self).data@.len(),
            final(self).data@.len() == old(self).data@.len() + 4,
            final(self).wf(),
    {
        let v = u32_to_le_bytes(x);
        self.append(v.as_slice());
    }

    /// Append a run of words at the end in little-endian form.
    pub fn append_words(&mut self, ws: &Vec<u32>)
        requires
            old(self).wf(),
            old(self).pos == old(self).data@.len(),
            old(self).data@.len() + 4 * ws@.len() <= usize::MAX,
        ensures
            final(self).data@ == old(self).data@ + words_bytes(ws@),
            final(self).pos == final(self).data@.len(),
            final(self).data@.len() == old(self).data@.len() + 4 * ws@.len(),
            final(self).wf(),
    {
        let mut i: usize = 0;
        proof {
            lemma_words_bytes_len(ws@);
        }
        while i < ws.len()
            invariant
                self.wf(),
                self.pos == self.data@.len(),
                i <= ws@.len(),
                old(self).data@.len() + 4 * ws@.len() <= usize::MAX,
                self.data@ == old(self).data@ + words_bytes(ws@.take(i as int)),
                self.data@.len() == old(self).data@.len() + 4 * i,
            decreases ws@.len() - i,
        {
            self.append_u32(ws[i]);
            i = i + 1;
            proof {
                lemma_words_bytes_push(ws@.take(i - 1), ws@[i - 1]);
                assert(ws@.take(i as int) =~= ws@.take(i - 1).push(ws@[i - 1]));
                lemma_words_bytes_len(ws@.take(i as int));
                assert(self.data@ =~= old(self).data@ + words_bytes(ws@.take(i as int)));
            }
        }
        proof {
            assert(ws@.take(ws@.len() as int) =~= ws@);
        }
    }

    pub fn into_bytes(self) -> (v: Vec<u8>)
        ensures
            v@ == self.data@,
    {
        self.data
    }
}

/// Chunks of one uniform size sit at evenly spaced offsets.
pub proof fn lemma_cat_uniform(chunks: Seq<Seq<u8>>, size: int)
    requires
        forall|j: int| 0 <= j < chunks.len() ==> (#[trigger] chunks[j]).len() == size,
    ensures
        cat(chunks).len() == size * chunks.len(),
        forall|i: int| 0 <= i <= chunks.len() ==> cat_off(chunks, i) == size * i,
    decreases chunks.len(),
{
    if chunks.len() == 0 {
        assert(size * 0 == 0) by (nonlinear_arith);
        assert(chunks.take(0) =~= chunks);
    } else {
        lemma_cat_uniform(chunks.drop_first(), size);
        assert(size * chunks.len() == size + size * (chunks.len() - 1)) by (nonlinear_arith);
        assert(cat(chunks).len() == size * chunks.len());
        assert forall|i: int| 0 <= i <= chunks.len() implies cat_off(chunks, i) == size * i by {
            if i == 0 {
                assert(chunks.take(0) =~= Seq::<Seq<u8>>::empty());
                assert(size * 0 == 0) by (nonlinear_arith);
            } else {
                assert(chunks.drop_first().take(i - 1) =~= chunks.take(i).drop_first());
                assert(cat_off(chunks.drop_first(), i - 1) == size * (i - 1));
                assert(cat(chunks.take(i)) == chunks.take(i)[0] + cat(chunks.take(i).drop_first()));
                assert(chunks.take(i)[0] == chunks[0]);
                assert(size * i == size + size * (i - 1)) by (nonlinear_arith);
            }
        }
    }
}

/// Append every word of `src` to `dst`.
pub fn push_all(dst: &mut Vec<u32>, src: &Vec<u32>)
    ensures
        final(dst)@ == old(dst)@ + src@,
{
    let mut i: usize = 0;
    proof {
        assert(dst@ =~= old(dst)@ + src@.take(0));
    }
    while i < src.len()
        invariant
            i <= src@.len(),
            dst@ == old(dst)@ + src@.take(i as int),
        decreases src@.len() - i,
    {
        dst.push(src[i]);
        i = i + 1;
        proof {
            assert(dst@ =~= old(dst)@ + src@.take(i as int));
        }
    }
    proof {
        assert(src@.take(src@.len() as int) =~= src@);
    }
}

/// Copy out the words `v[a..b]`.
pub fn words_range(v: &Vec<u32>, a: usize, b: usize) -> (r: Vec<u32>)
    requires
        a <= b <= v@.len(),
    ensures
        r@ == v@.subrange(a as int, b as int),
{
    let mut r: Vec<u32> = Vec::new();
    let mut i: usize = a;
    while i < b
        invariant
            a <= i <= b <= v@.len(),
            r@ =~= v@.subrange(a as int, i as int),
        decreases b - i,
    {
        r.push(v[i]);
        i = i + 1;
        proof {
            assert(r@ =~= v@.subrange(a as int, i as int));
        }
    }
    r
}

/// Byte-for-byte equality of two buffers.
pub fn bytes_eq(a: &[u8], b: &[u8]) -> (r: bool)
    ensures
        r == (a@ == b@),
{
    if a.len() != b.len() {
        proof {
            assert(a@.len() != b@.len());
        }
        return false;
    }
    let n = a.len();
    let mut i: usize = 0;
    while i < n
        invariant
            i <= n,
            n == a@.len(),
            n == b@.len(),
            forall|j: int| 0 <= j < i ==> a@[j] == #[trigger] b@[j],
        decreases n - i,
    {
        if a[i] != b[i] {
            return false;
        }
        i = i + 1;
    }
    proof {
        assert(a@ =~= b@);
    }
    true
}

} // verus!
