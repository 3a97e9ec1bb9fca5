//! Terrain-block containers: a fixed header behind the magic signature
//! `LF\0\0kjc\0`, a table of blocks each carrying a payload reference,
//! and the payload blobs themselves.  Packing rebuilds the table with
//! placeholder references and back-patches them while streaming the
//! payloads; the header's date field is always rewritten to a fixed
//! constant, the one deliberate deviation from the parsed value.
use crate::bytes::{
    bytes_eq, cat, cat_off, lemma_cat_adjacent, lemma_cat_append, lemma_cat_chunk_at,
    lemma_cat_decompose, lemma_cat_patch, lemma_cat_push, lemma_cat_uniform,
    lemma_words_at_bytes, lemma_words_bytes_append, lemma_words_bytes_len,
    lemma_words_bytes_update, splice, word_at, words_at, words_bytes, Reader, Sink,
};
use crate::doc::{
    lemma_nums_tok_append, lemma_p_nums, nums_tok, p_nums, DocReader,
};
use crate::num::dec_chars;
use crate::Error;
use vstd::bytes::spec_u32_to_le_bytes;
use vstd::prelude::*;

verus! {

/// The date constant that packing always writes into the header.
pub const LF_PACK_DATE: u32 = 20090406;

pub struct LfHeader {
    pub unknown1: u32,
    pub version_date: u32,
    pub unknown2: u32,
    pub block_count: u32,
    /// thirteen words preserved verbatim
    pub unknown3: Vec<u32>,
    pub size_x: u32,
    pub size_y: u32,
    pub size_idx: u32,
    /// five words preserved verbatim (float bit patterns in the file)
    pub unknown4: Vec<u32>,
}

#[verifier::ext_equal]
pub struct LfHeaderV {
    pub unknown1: u32,
    pub version_date: u32,
    pub unknown2: u32,
    pub block_count: u32,
    pub unknown3: Seq<u32>,
    pub size_x: u32,
    pub size_y: u32,
    pub size_idx: u32,
    pub unknown4: Seq<u32>,
}

impl View for LfHeader {
    type V = LfHeaderV;

    open spec fn view(&self) -> LfHeaderV {
        LfHeaderV {
            unknown1: self.unknown1,
            version_date: self.version_date,
            unknown2: self.unknown2,
            block_count: self.block_count,
            unknown3: self.unknown3@,
            size_x: self.size_x,
            size_y: self.size_y,
            size_idx: self.size_idx,
            unknown4: self.unknown4@,
        }
    }
}

/// One record of the block table; `file_offset` and `file_length`
/// address its payload blob inside the container.
#[derive(Clone, Copy, PartialEq, Eq, Structural, Debug)]
pub struct LfBlock {
    pub index: u32,
    pub position_x: u32,
    pub position_y: u32,
    pub file_offset: u32,
    pub file_length: u32,
    pub unknown: u32,
}

pub struct Lf {
    pub header: LfHeader,
    pub blocks: Vec<LfBlock>,
}

#[verifier::ext_equal]
pub struct LfV {
    pub header: LfHeaderV,
    pub blocks: Seq<LfBlock>,
}

impl View for Lf {
    type V = LfV;

    open spec fn view(&self) -> LfV {
        LfV { header: self.header@, blocks: self.blocks@ }
    }
}

pub open spec fn lf_magic() -> Seq<u8> {
    seq![76u8, 70u8, 0u8, 0u8, 107u8, 106u8, 99u8, 0u8]
}

fn lf_magic_vec() -> (v: Vec<u8>)
    ensures
        v@ == lf_magic(),
{
    let mut v: Vec<u8> = Vec::new();
    v.push(76);
    v.push(70);
    v.push(0);
    v.push(0);
    v.push(107);
    v.push(106);
    v.push(99);
    v.push(0);
    proof {
        assert(v@ =~= lf_magic());
    }
    v
}

pub open spec fn lf_wf(c: LfV) -> bool {
    &&& c.header.unknown3.len() == 13
    &&& c.header.unknown4.len() == 5
    &&& c.blocks.len() == c.header.block_count
}

pub open spec fn lf_header_words(h: LfHeaderV) -> Seq<u32> {
    seq![h.unknown1, h.version_date, h.unknown2, h.block_count] + h.unknown3 + seq![
        h.size_x,
        h.size_y,
        h.size_idx,
    ] + h.unknown4
}

pub open spec fn lf_block_words(b: LfBlock) -> Seq<u32> {
    seq![b.index, b.position_x, b.position_y, b.file_offset, b.file_length, b.unknown]
}

pub open spec fn lf_header_of_words(ws: Seq<u32>) -> LfHeaderV {
    LfHeaderV {
        unknown1: ws[0],
        version_date: ws[1],
        unknown2: ws[2],
        block_count: ws[3],
        unknown3: ws.subrange(4, 17),
        size_x: ws[17],
        size_y: ws[18],
        size_idx: ws[19],
        unknown4: ws.subrange(20, 25),
    }
}

pub open spec fn lf_block_of_words(ws: Seq<u32>) -> LfBlock {
    LfBlock {
        index: ws[0],
        position_x: ws[1],
        position_y: ws[2],
        file_offset: ws[3],
        file_length: ws[4],
        unknown: ws[5],
    }
}

/// Byte length of magic, header and block table together.
pub open spec fn lf_size(c: LfV) -> int {
    108 + 24 * c.blocks.len() as int
}

pub open spec fn lf_table_chunks(bs: Seq<LfBlock>) -> Seq<Seq<u8>> {
    Seq::new(bs.len(), |i: int| words_bytes(lf_block_words(bs[i])))
}

/// Canonical byte form of magic, header and block table.
pub open spec fn lf_bytes(c: LfV) -> Seq<u8> {
    lf_magic() + words_bytes(lf_header_words(c.header)) + cat(lf_table_chunks(c.blocks))
}

/// The header and block table read from the front of `b`; the bytes
/// after the table are payload space and stay untouched.
pub open spec fn lf_parse_spec(b: Seq<u8>) -> Option<LfV> {
    if b.len() >= 108 && b.subrange(0, 8) == lf_magic() {
        let h = lf_header_of_words(words_at(b, 8, 25));
        if 108 + 24 * (h.block_count as int) <= b.len() {
            Some(
                LfV {
                    header: h,
                    blocks: Seq::new(
                        h.block_count as nat,
                        |i: int| lf_block_of_words(words_at(b, 108 + 24 * i, 6)),
                    ),
                },
            )
        } else {
            None
        }
    } else {
        None
    }
}

proof fn lemma_lf_header_words_inverse(ws: Seq<u32>)
    requires
        ws.len() == 25,
    ensures
        lf_header_words(lf_header_of_words(ws)) == ws,
{
    assert(lf_header_words(lf_header_of_words(ws)) =~= ws);
}

proof fn lemma_lf_block_words_inverse(ws: Seq<u32>)
    requires
        ws.len() == 6,
    ensures
        lf_block_words(lf_block_of_words(ws)) == ws,
{
    assert(lf_block_words(lf_block_of_words(ws)) =~= ws);
}

/// What the parser accepts re-serializes to exactly the bytes it read:
/// the byte-fidelity core of the terrain-block round trip.
pub proof fn lemma_lf_parse_bytes(b: Seq<u8>)
    requires
        lf_parse_spec(b) is Some,
    ensures
        lf_wf(lf_parse_spec(b)->Some_0),
        lf_size(lf_parse_spec(b)->Some_0) <= b.len(),
        lf_bytes(lf_parse_spec(b)->Some_0) == b.subrange(0, lf_size(lf_parse_spec(b)->Some_0)),
{
    let c = lf_parse_spec(b)->Some_0;
    let n = c.blocks.len() as int;
    lemma_words_at_bytes(b, 8, 25);
    lemma_lf_header_words_inverse(words_at(b, 8, 25));
    assert(c.header.unknown3.len() == 13);
    assert(c.header.unknown4.len() == 5);
    let chunks = lf_table_chunks(c.blocks);
    let ranges = Seq::new(n as nat, |i: int| b.subrange(108 + 24 * i, 108 + 24 * (i + 1)));
    assert forall|i: int| 0 <= i < n implies chunks[i] == ranges[i] by {
        lemma_words_at_bytes(b, 108 + 24 * i, 6);
        lemma_lf_block_words_inverse(words_at(b, 108 + 24 * i, 6));
    }
    assert(chunks =~= ranges);
    lemma_cat_adjacent(b, 108, 24, n as nat);
    assert(lf_magic() == b.subrange(0, 8));
    assert(words_bytes(lf_header_words(c.header)) == b.subrange(8, 108));
    assert(b.subrange(0, 8) + b.subrange(8, 108) + b.subrange(108, 108 + 24 * n) =~= b.subrange(
        0,
        108 + 24 * n,
    ));
}

/// The fixed header alone, read from the front of `b`: what the info
/// operation needs, whether or not the block table behind it is whole.
pub open spec fn lf_header_parse_spec(b: Seq<u8>) -> Option<LfHeaderV> {
    if b.len() >= 108 && b.subrange(0, 8) == lf_magic() {
        Some(lf_header_of_words(words_at(b, 8, 25)))
    } else {
        None
    }
}

/// Parse the magic and fixed header only; mirrors
/// `lf_header_parse_spec`.
pub fn lf_parse_header(data: &[u8]) -> (r: Result<LfHeader, Error>)
    ensures
        match r {
            Ok(h) => lf_header_parse_spec(data@) == Some(h@),
            Err(e) => {
                &&& e == Error::Format
                &&& lf_header_parse_spec(data@) is None
            },
        },
{
    let mut rd = Reader::new(data);
    let magic = match rd.read_bytes(8) {
        Ok(m) => m,
        Err(_) => {
            return Err(Error::Format);
        },
    };
    let mv = lf_magic_vec();
    if !bytes_eq(magic.as_slice(), mv.as_slice()) {
        return Err(Error::Format);
    }
    let hw = match rd.read_words(25) {
        Ok(w) => w,
        Err(_) => {
            return Err(Error::Format);
        },
    };
    let h = LfHeader {
        unknown1: hw[0],
        version_date: hw[1],
        unknown2: hw[2],
        block_count: hw[3],
        unknown3: crate::bytes::words_range(&hw, 4, 17),
        size_x: hw[17],
        size_y: hw[18],
        size_idx: hw[19],
        unknown4: crate::bytes::words_range(&hw, 20, 25),
    };
    proof {
        assert(h@ =~= lf_header_of_words(words_at(data@, 8, 25)));
    }
    Ok(h)
}

/// Parse the magic, header and block table from the front of a
/// container; mirrors `lf_parse_spec`.
pub fn lf_parse(data: &[u8]) -> (r: Result<Lf, Error>)
    ensures
        match r {
            Ok(c) => {
                &&& lf_parse_spec(data@) == Some(c@)
                &&& lf_wf(c@)
            },
            Err(e) => {
                &&& e == Error::Format
                &&& lf_parse_spec(data@) is None
            },
        },
{
    let mut rd = Reader::new(data);
    let magic = match rd.read_bytes(8) {
        Ok(m) => m,
        Err(_) => {
            return Err(Error::Format);
        },
    };
    let mv = lf_magic_vec();
    if !bytes_eq(magic.as_slice(), mv.as_slice()) {
        return Err(Error::Format);
    }
    let hw = match rd.read_words(25) {
        Ok(w) => w,
        Err(_) => {
            return Err(Error::Format);
        },
    };
    let h = LfHeader {
        unknown1: hw[0],
        version_date: hw[1],
        unknown2: hw[2],
        block_count: hw[3],
        unknown3: crate::bytes::words_range(&hw, 4, 17),
        size_x: hw[17],
        size_y: hw[18],
        size_idx: hw[19],
        unknown4: crate::bytes::words_range(&hw, 20, 25),
    };
    proof {
        assert(h@ =~= lf_header_of_words(words_at(data@, 8, 25)));
    }
    let bc = h.block_count;
    let rem = rd.remaining();
    if (rem as u64) / 24 < bc as u64 {
        proof {
            assert(108 + 24 * (bc as int) > data@.len());
        }
        return Err(Error::Format);
    }
    let mut blocks: Vec<LfBlock> = Vec::new();
    let mut i: usize = 0;
    let nb = bc as usize;
    while i < nb
        invariant
            rd.wf(),
            rd.data@ == data@,
            i <= nb,
            nb == bc,
            rd.pos == 108 + 24 * i,
            108 + 24 * (bc as int) <= data@.len(),
            blocks@ =~= Seq::new(
                i as nat,
                |j: int| lf_block_of_words(words_at(data@, 108 + 24 * j, 6)),
            ),
        decreases nb - i,
    {
        let ws = match rd.read_words(6) {
            Ok(w) => w,
            Err(_) => {
                proof {
                    assert(false);
                }
                return Err(Error::Format);
            },
        };
        blocks.push(
            LfBlock {
                index: ws[0],
                position_x: ws[1],
                position_y: ws[2],
                file_offset: ws[3],
                file_length: ws[4],
                unknown: ws[5],
            },
        );
        i = i + 1;
        proof {
            assert(blocks@ =~= Seq::new(
                i as nat,
                |j: int| lf_block_of_words(words_at(data@, 108 + 24 * j, 6)),
            ));
        }
    }
    let c = Lf { header: h, blocks };
    proof {
        assert(lf_parse_spec(data@) == Some(c@)) by {
            assert(c@ =~= lf_parse_spec(data@)->Some_0);
        }
    }
    Ok(c)
}

/// `b` with its payload reference cleared to the placeholder pair.
pub open spec fn lf_zero_ref(b: LfBlock) -> LfBlock {
    LfBlock {
        index: b.index,
        position_x: b.position_x,
        position_y: b.position_y,
        file_offset: 0,
        file_length: 0,
        unknown: b.unknown,
    }
}

pub open spec fn lf_patched_header(h: LfHeaderV) -> LfHeaderV {
    LfHeaderV {
        unknown1: h.unknown1,
        version_date: LF_PACK_DATE,
        unknown2: h.unknown2,
        block_count: h.block_count,
        unknown3: h.unknown3,
        size_x: h.size_x,
        size_y: h.size_y,
        size_idx: h.size_idx,
        unknown4: h.unknown4,
    }
}

/// Block `i` with its reference patched to the true payload position:
/// the payloads stream in table order right after the table.
pub open spec fn lf_patched_block(c: LfV, ps: Seq<Seq<u8>>, i: int) -> LfBlock {
    LfBlock {
        index: c.blocks[i].index,
        position_x: c.blocks[i].position_x,
        position_y: c.blocks[i].position_y,
        file_offset: (lf_size(c) + cat_off(ps, i)) as u32,
        file_length: ps[i].len() as u32,
        unknown: c.blocks[i].unknown,
    }
}

/// The container a pack run writes: fixed date, true references.
pub open spec fn lf_patched(c: LfV, ps: Seq<Seq<u8>>) -> LfV {
    LfV {
        header: lf_patched_header(c.header),
        blocks: Seq::new(c.blocks.len(), |i: int| lf_patched_block(c, ps, i)),
    }
}

/// The table chunks midway through pass two: the first `m` block
/// records carry their true references, the rest still the placeholder.
pub open spec fn lf_chunks_mid(c: LfV, ps: Seq<Seq<u8>>, m: int) -> Seq<Seq<u8>> {
    Seq::new(
        c.blocks.len(),
        |j: int|
            if j < m {
                words_bytes(lf_block_words(lf_patched_block(c, ps, j)))
            } else {
                words_bytes(lf_block_words(lf_zero_ref(c.blocks[j])))
            },
    )
}

/// Every patched reference must fit in a 32-bit word.
pub open spec fn lf_pack_fits(c: LfV, ps: Seq<Seq<u8>>) -> bool {
    lf_size(c) + cat(ps).len() <= u32::MAX
}

/// The whole packed container: table, then the payloads in table order.
pub open spec fn lf_pack_bytes(c: LfV, ps: Seq<Seq<u8>>) -> Seq<u8> {
    lf_bytes(lf_patched(c, ps)) + cat(ps)
}

/// Pack a container: write the header (with the fixed date) and the
/// table with placeholder references, then stream each payload and
/// back-patch its `(offset, length)` pair.
pub fn lf_pack(c: &Lf, payloads: &Vec<Vec<u8>>) -> (r: Result<Vec<u8>, Error>)
    requires
        lf_wf(c@),
        payloads@.len() == c.blocks@.len(),
    ensures
        match r {
            Ok(out) => {
                &&& lf_pack_fits(c@, payloads@.map_values(|p: Vec<u8>| p@))
                &&& out@ == lf_pack_bytes(c@, payloads@.map_values(|p: Vec<u8>| p@))
            },
            Err(e) => {
                &&& e == Error::Format
                &&& !lf_pack_fits(c@, payloads@.map_values(|p: Vec<u8>| p@))
            },
        },
{
    let ghost ps = payloads@.map_values(|p: Vec<u8>| p@);
    let n = c.blocks.len();
    proof {
        vstd::bytes::lemma_auto_spec_u32_to_from_le_bytes();
        assert(usize::MAX >= u32::MAX);
    }
    // reject up front any table or payload the references cannot address
    if (n as u64) > ((u32::MAX as u64) - 108) / 24 {
        proof {
            crate::bytes::lemma_cat_len_nonneg(ps);
        }
        return Err(Error::Format);
    }
    let mut total: u64 = 108 + 24 * (n as u64);
    let mut i: usize = 0;
    proof {
        assert(ps.take(0) =~= Seq::<Seq<u8>>::empty());
    }
    while i < n
        invariant
            i <= n,
            n == c.blocks@.len(),
            ps.len() == n,
            ps == payloads@.map_values(|p: Vec<u8>| p@),
            total == lf_size(c@) + cat(ps.take(i as int)).len(),
            total <= u32::MAX,
        decreases n - i,
    {
        let pl = payloads[i].len();
        proof {
            assert(ps.take(i + 1) =~= ps.take(i as int).push(ps[i as int]));
            lemma_cat_push(ps.take(i as int), ps[i as int]);
            assert(ps =~= ps.take(i + 1) + ps.skip(i + 1));
            lemma_cat_append(ps.take(i + 1), ps.skip(i + 1));
            crate::bytes::lemma_cat_len_nonneg(ps.skip(i + 1));
            assert(ps[i as int] == payloads@[i as int]@);
        }
        if (pl as u64) > (u32::MAX as u64) - total {
            return Err(Error::Format);
        }
        total = total + pl as u64;
        i = i + 1;
    }
    proof {
        assert(ps.take(n as int) =~= ps);
    }
    // pass one: header with the fixed date, table with placeholders
    let mut sink = Sink::new();
    let mv = lf_magic_vec();
    sink.append(mv.as_slice());
    proof {
        assert(sink.data@ =~= lf_magic());
    }
    let mut hw: Vec<u32> = Vec::new();
    hw.push(c.header.unknown1);
    hw.push(LF_PACK_DATE);
    hw.push(c.header.unknown2);
    hw.push(c.header.block_count);
    let mut k: usize = 0;
    while k < 13
        invariant
            k <= 13,
            c.header.unknown3@.len() == 13,
            hw@ =~= seq![
                c.header@.unknown1,
                LF_PACK_DATE,
                c.header@.unknown2,
                c.header@.block_count,
            ] + c.header.unknown3@.take(k as int),
        decreases 13 - k,
    {
        hw.push(c.header.unknown3[k]);
        k = k + 1;
        proof {
            assert(c.header.unknown3@.take(k as int) =~= c.header.unknown3@.take(k - 1).push(
                c.header.unknown3@[k - 1],
            ));
        }
    }
    hw.push(c.header.size_x);
    hw.push(c.header.size_y);
    hw.push(c.header.size_idx);
    let mut k2: usize = 0;
    while k2 < 5
        invariant
            k2 <= 5,
            c.header.unknown4@.len() == 5,
            hw@ =~= seq![
                c.header@.unknown1,
                LF_PACK_DATE,
                c.header@.unknown2,
                c.header@.block_count,
            ] + c.header.unknown3@ + seq![c.header@.size_x, c.header@.size_y, c.header@.size_idx]
                + c.header.unknown4@.take(k2 as int),
        decreases 5 - k2,
    {
        hw.push(c.header.unknown4[k2]);
        k2 = k2 + 1;
        proof {
            assert(c.header.unknown4@.take(k2 as int) =~= c.header.unknown4@.take(k2 - 1).push(
                c.header.unknown4@[k2 - 1],
            ));
        }
    }
    proof {
        assert(hw@ =~= lf_header_words(lf_patched_header(c@.header)));
        lemma_words_bytes_len(hw@);
    }
    sink.append_words(&hw);
    let ghost pre = lf_magic() + words_bytes(lf_header_words(lf_patched_header(c@.header)));
    proof {
        assert(sink.data@ =~= pre);
        assert(pre.len() == 108);
    }
    let ghost chunks0 = Seq::new(
        n as nat,
        |j: int| words_bytes(lf_block_words(lf_zero_ref(c.blocks@[j]))),
    );
    proof {
        assert forall|j: int| 0 <= j < n implies (#[trigger] chunks0[j]).len() == 24 by {
            lemma_words_bytes_len(lf_block_words(lf_zero_ref(c.blocks@[j])));
        }
    }
    let mut patches: Vec<usize> = Vec::new();
    let mut i1: usize = 0;
    proof {
        assert(chunks0.take(0) =~= Seq::<Seq<u8>>::empty());
        assert(sink.data@ =~= pre + cat(chunks0.take(0)));
    }
    while i1 < n
        invariant
            i1 <= n,
            n == c.blocks@.len(),
            108 + 24 * (n as int) <= u32::MAX,
            sink.wf(),
            sink.pos == sink.data@.len(),
            sink.data@.len() == 108 + 24 * (i1 as int),
            sink.data@ == pre + cat(chunks0.take(i1 as int)),
            chunks0 == Seq::new(
                n as nat,
                |j: int| words_bytes(lf_block_words(lf_zero_ref(c.blocks@[j]))),
            ),
            patches@.len() == i1,
            forall|j: int| 0 <= j < i1 ==> #[trigger] patches@[j] == 120 + 24 * j,
        decreases n - i1,
    {
        let b = &c.blocks[i1];
        let mut fw: Vec<u32> = Vec::new();
        fw.push(b.index);
        fw.push(b.position_x);
        fw.push(b.position_y);
        sink.append_words(&fw);
        patches.push(sink.cursor());
        let mut zw: Vec<u32> = Vec::new();
        zw.push(0);
        zw.push(0);
        sink.append_words(&zw);
        sink.append_u32(b.unknown);
        i1 = i1 + 1;
        proof {
            lemma_words_bytes_append(fw@, zw@);
            lemma_words_bytes_append(fw@ + zw@, seq![b.unknown]);
            assert(words_bytes(seq![b.unknown]) =~= spec_u32_to_le_bytes(b.unknown)) by {
                assert(seq![b.unknown].drop_first() =~= Seq::<u32>::empty());
                assert(words_bytes(Seq::<u32>::empty()) + Seq::<u8>::empty()
                    =~= words_bytes(Seq::<u32>::empty()));
                assert(spec_u32_to_le_bytes(b.unknown) + Seq::<u8>::empty()
                    =~= spec_u32_to_le_bytes(b.unknown));
            }
            assert(fw@ + zw@ + seq![b.unknown] =~= lf_block_words(lf_zero_ref(c.blocks@[i1 - 1])));
            assert(chunks0.take(i1 as int) =~= chunks0.take(i1 - 1).push(chunks0[i1 - 1]));
            lemma_cat_push(chunks0.take(i1 - 1), chunks0[i1 - 1]);
            assert(sink.data@ =~= pre + cat(chunks0.take(i1 as int)));
        }
    }
    proof {
        assert(chunks0.take(n as int) =~= chunks0);
    }
    // pass two: stream each payload, then patch its reference pair
    let ghost base = 108 + 24 * (n as int);
    let mut i2: usize = 0;
    proof {
        assert(ps.take(0) =~= Seq::<Seq<u8>>::empty());
        assert(lf_chunks_mid(c@, ps, 0) =~= chunks0);
        assert(sink.data@ + cat(ps.take(0)) =~= sink.data@);
    }
    while i2 < n
        invariant
            i2 <= n,
            n == c.blocks@.len(),
            ps.len() == n,
            ps == payloads@.map_values(|p: Vec<u8>| p@),
            lf_wf(c@),
            base == lf_size(c@),
            base + cat(ps).len() <= u32::MAX,
            sink.wf(),
            sink.pos == sink.data@.len(),
            sink.data@.len() == base + cat(ps.take(i2 as int)).len(),
            sink.data@ == pre + cat(lf_chunks_mid(c@, ps, i2 as int)) + cat(ps.take(i2 as int)),
            pre.len() == 108,
            patches@.len() == n,
            forall|j: int| 0 <= j < n ==> #[trigger] patches@[j] == 120 + 24 * j,
        decreases n - i2,
    {
        let ghost cs = lf_chunks_mid(c@, ps, i2 as int);
        proof {
            vstd::bytes::lemma_auto_spec_u32_to_from_le_bytes();
            assert forall|j: int| 0 <= j < n implies (#[trigger] cs[j]).len() == 24 by {
                lemma_words_bytes_len(lf_block_words(lf_patched_block(c@, ps, j)));
                lemma_words_bytes_len(lf_block_words(lf_zero_ref(c.blocks@[j])));
            }
            lemma_cat_uniform(cs, 24);
            assert(ps =~= ps.take(i2 + 1) + ps.skip(i2 + 1));
            lemma_cat_append(ps.take(i2 + 1), ps.skip(i2 + 1));
            crate::bytes::lemma_cat_len_nonneg(ps.skip(i2 + 1));
            assert(ps.take(i2 + 1) =~= ps.take(i2 as int).push(ps[i2 as int]));
            lemma_cat_push(ps.take(i2 as int), ps[i2 as int]);
            assert(ps[i2 as int] == payloads@[i2 as int]@);
        }
        let off = sink.len();
        let p = &payloads[i2];
        sink.append(p.as_slice());
        let pl = p.len();
        let ghost data_after = pre + cat(cs) + cat(ps.take(i2 + 1));
        proof {
            assert(sink.data@ =~= data_after);
        }
        sink.seek(patches[i2]);
        sink.write_u32(off as u32);
        proof {
            let zw = lf_block_words(lf_zero_ref(c.blocks@[i2 as int]));
            lemma_cat_patch(
                pre,
                cs,
                cat(ps.take(i2 + 1)),
                i2 as int,
                12,
                spec_u32_to_le_bytes(off as u32),
            );
            lemma_words_bytes_update(zw, 3, off as u32);
            assert(splice(cs[i2 as int], 12, spec_u32_to_le_bytes(off as u32)) == words_bytes(
                zw.update(3, off as u32),
            ));
        }
        sink.write_u32(pl as u32);
        proof {
            let zw = lf_block_words(lf_zero_ref(c.blocks@[i2 as int]));
            let w1 = zw.update(3, off as u32);
            let cs1 = cs.update(i2 as int, words_bytes(w1));
            assert forall|j: int| 0 <= j < n implies (#[trigger] cs1[j]).len() == 24 by {
                lemma_words_bytes_len(w1);
                lemma_words_bytes_len(lf_block_words(lf_patched_block(c@, ps, j)));
                lemma_words_bytes_len(lf_block_words(lf_zero_ref(c.blocks@[j])));
            }
            lemma_cat_uniform(cs1, 24);
            lemma_cat_patch(
                pre,
                cs1,
                cat(ps.take(i2 + 1)),
                i2 as int,
                16,
                spec_u32_to_le_bytes(pl as u32),
            );
            lemma_words_bytes_update(w1, 4, pl as u32);
            let w2 = w1.update(4, pl as u32);
            assert(w2 =~= lf_block_words(lf_patched_block(c@, ps, i2 as int)));
            assert(cs1.update(i2 as int, words_bytes(w2)) =~= lf_chunks_mid(c@, ps, i2 + 1));
            assert(sink.data@ == pre + cat(lf_chunks_mid(c@, ps, i2 + 1)) + cat(ps.take(i2 + 1)));
        }
        let end = sink.len();
        sink.seek(end);
        i2 = i2 + 1;
    }
    proof {
        assert(ps.take(n as int) =~= ps);
        assert(lf_chunks_mid(c@, ps, n as int) =~= lf_table_chunks(lf_patched(c@, ps).blocks));
        assert(pre =~= lf_magic() + words_bytes(lf_header_words(lf_patched(c@, ps).header)));
        assert(sink.data@ =~= lf_pack_bytes(c@, ps));
    }
    Ok(sink.into_bytes())
}

proof fn lemma_lf_header_of_words_inverse(h: LfHeaderV)
    requires
        h.unknown3.len() == 13,
        h.unknown4.len() == 5,
    ensures
        lf_header_of_words(lf_header_words(h)) == h,
{
    assert(lf_header_of_words(lf_header_words(h)) =~= h);
}

/// Flat word stream of the whole block table.
pub open spec fn lf_flat_words(bs: Seq<LfBlock>) -> Seq<u32>
    decreases bs.len(),
{
    if bs.len() == 0 {
        Seq::empty()
    } else {
        lf_block_words(bs[0]) + lf_flat_words(bs.drop_first())
    }
}

proof fn lemma_lf_flat_words(bs: Seq<LfBlock>)
    ensures
        lf_flat_words(bs).len() == 6 * bs.len(),
        forall|i: int|
            0 <= i < bs.len() ==> lf_flat_words(bs).subrange(6 * i, 6 * i + 6)
                == lf_block_words(#[trigger] bs[i]),
    decreases bs.len(),
{
    if bs.len() > 0 {
        lemma_lf_flat_words(bs.drop_first());
        let f = lf_flat_words(bs);
        let r = lf_flat_words(bs.drop_first());
        assert forall|i: int|
            0 <= i < bs.len() implies f.subrange(6 * i, 6 * i + 6) == lf_block_words(
            #[trigger] bs[i],
        ) by {
            if i == 0 {
                assert(f.subrange(0, 6) =~= lf_block_words(bs[0]));
            } else {
                assert(r.subrange(6 * (i - 1), 6 * (i - 1) + 6) == lf_block_words(
                    bs.drop_first()[i - 1],
                ));
                assert(f.subrange(6 * i, 6 * i + 6) =~= r.subrange(6 * (i - 1), 6 * (i - 1) + 6));
            }
        }
    }
}

proof fn lemma_lf_flat_words_push(bs: Seq<LfBlock>, b: LfBlock)
    ensures
        lf_flat_words(bs.push(b)) == lf_flat_words(bs) + lf_block_words(b),
    decreases bs.len(),
{
    if bs.len() == 0 {
        let s = bs.push(b);
        assert(s.drop_first() =~= Seq::<LfBlock>::empty());
        assert(lf_flat_words(s) == lf_block_words(b) + lf_flat_words(s.drop_first()));
        assert(lf_block_words(b) + Seq::<u32>::empty() =~= lf_block_words(b));
        assert(Seq::<u32>::empty() + lf_block_words(b) =~= lf_block_words(b));
    } else {
        lemma_lf_flat_words_push(bs.drop_first(), b);
        assert(bs.push(b).drop_first() =~= bs.drop_first().push(b));
        assert(bs.push(b)[0] == bs[0]);
        assert(lf_block_words(bs[0]) + (lf_flat_words(bs.drop_first()) + lf_block_words(b))
            =~= (lf_block_words(bs[0]) + lf_flat_words(bs.drop_first())) + lf_block_words(b));
    }
}

pub open spec fn lf_tag() -> Seq<char> {
    "terrain_blocks\n"@
}

/// The manifest document: format tag, then every word of the header and
/// the block table in field order, offset and length pairs included as
/// informational values.
pub open spec fn lf_doc(c: LfV) -> Seq<char> {
    lf_tag() + nums_tok(lf_header_words(c.header) + lf_flat_words(c.blocks))
}

pub open spec fn lf_doc_parse(s: Seq<char>) -> Option<LfV> {
    if s.len() >= lf_tag().len() && s.subrange(0, lf_tag().len() as int) == lf_tag() {
        match p_nums(s, lf_tag().len() as int, 25) {
            Some((hw, e)) => {
                let h = lf_header_of_words(hw);
                match p_nums(s, e, 6 * h.block_count as nat) {
                    Some((bw, e2)) => if e2 == s.len() {
                        Some(
                            LfV {
                                header: h,
                                blocks: Seq::new(
                                    h.block_count as nat,
                                    |i: int| lf_block_of_words(bw.subrange(6 * i, 6 * i + 6)),
                                ),
                            },
                        )
                    } else {
                        None
                    },
                    None => None,
                }
            },
            None => None,
        }
    } else {
        None
    }
}

/// Whatever the manifest parser accepts is well formed.
pub proof fn lemma_lf_doc_parse_wf(s: Seq<char>)
    requires
        lf_doc_parse(s) is Some,
    ensures
        lf_wf(lf_doc_parse(s)->Some_0),
{
    crate::doc::lemma_p_nums_len(s, lf_tag().len() as int, 25);
}

/// Serializing a container to a manifest document and reading it back
/// restores the container exactly.
pub proof fn lemma_lf_doc_roundtrip(c: LfV)
    requires
        lf_wf(c),
    ensures
        lf_doc_parse(lf_doc(c)) == Some(c),
{
    let hw = lf_header_words(c.header);
    let fw = lf_flat_words(c.blocks);
    lemma_lf_flat_words(c.blocks);
    let s = lf_doc(c);
    lemma_nums_tok_append(hw, fw);
    assert(s =~= lf_tag() + nums_tok(hw) + nums_tok(fw));
    assert(s.subrange(0, lf_tag().len() as int) =~= lf_tag());
    lemma_p_nums(lf_tag(), hw, nums_tok(fw));
    assert(p_nums(s, lf_tag().len() as int, 25) == Some::<(Seq<u32>, int)>(
        (hw, lf_tag().len() + nums_tok(hw).len() as int),
    ));
    lemma_lf_header_of_words_inverse(c.header);
    let e = lf_tag().len() + nums_tok(hw).len() as int;
    assert(s =~= (lf_tag() + nums_tok(hw)) + nums_tok(fw) + Seq::<char>::empty());
    lemma_p_nums(lf_tag() + nums_tok(hw), fw, Seq::empty());
    let n = c.blocks.len();
    assert(fw.len() == 6 * n);
    let c2 = lf_doc_parse(s)->Some_0;
    assert forall|i: int| 0 <= i < n implies c2.blocks[i] == c.blocks[i] by {
        assert(fw.subrange(6 * i, 6 * i + 6) == lf_block_words(c.blocks[i]));
        lemma_lf_block_words_inverse(lf_block_words(c.blocks[i]));
    }
    assert(c2 =~= c);
}

/// Re-serializing a parsed manifest document parses back to the very
/// same value: document formatting can differ, field values cannot.
pub proof fn lemma_lf_manifest_idempotent(s: Seq<char>)
    requires
        lf_doc_parse(s) is Some,
    ensures
        lf_doc_parse(lf_doc(lf_doc_parse(s)->Some_0)) == lf_doc_parse(s),
{
    lemma_lf_doc_parse_wf(s);
    lemma_lf_doc_roundtrip(lf_doc_parse(s)->Some_0);
}

fn lf_header_words_vec(h: &LfHeader, date: u32) -> (v: Vec<u32>)
    requires
        h@.unknown3.len() == 13,
        h@.unknown4.len() == 5,
    ensures
        v@ == lf_header_words(
            LfHeaderV {
                unknown1: h@.unknown1,
                version_date: date,
                unknown2: h@.unknown2,
                block_count: h@.block_count,
                unknown3: h@.unknown3,
                size_x: h@.size_x,
                size_y: h@.size_y,
                size_idx: h@.size_idx,
                unknown4: h@.unknown4,
            },
        ),
{
    let mut hw: Vec<u32> = Vec::new();
    hw.push(h.unknown1);
    hw.push(date);
    hw.push(h.unknown2);
    hw.push(h.block_count);
    let mut k: usize = 0;
    while k < 13
        invariant
            k <= 13,
            h.unknown3@.len() == 13,
            hw@ =~= seq![h@.unknown1, date, h@.unknown2, h@.block_count] + h.unknown3@.take(
                k as int,
            ),
        decreases 13 - k,
    {
        hw.push(h.unknown3[k]);
        k = k + 1;
        proof {
            assert(h.unknown3@.take(k as int) =~= h.unknown3@.take(k - 1).push(
                h.unknown3@[k - 1],
            ));
        }
    }
    hw.push(h.size_x);
    hw.push(h.size_y);
    hw.push(h.size_idx);
    let mut k2: usize = 0;
    while k2 < 5
        invariant
            k2 <= 5,
            h.unknown4@.len() == 5,
            hw@ =~= seq![h@.unknown1, date, h@.unknown2, h@.block_count] + h.unknown3@ + seq![
                h@.size_x,
                h@.size_y,
                h@.size_idx,
            ] + h.unknown4@.take(k2 as int),
        decreases 5 - k2,
    {
        hw.push(h.unknown4[k2]);
        k2 = k2 + 1;
        proof {
            assert(h.unknown4@.take(k2 as int) =~= h.unknown4@.take(k2 - 1).push(
                h.unknown4@[k2 - 1],
            ));
        }
    }
    proof {
        assert(hw@ =~= lf_header_words(
            LfHeaderV {
                unknown1: h@.unknown1,
                version_date: date,
                unknown2: h@.unknown2,
                block_count: h@.block_count,
                unknown3: h@.unknown3,
                size_x: h@.size_x,
                size_y: h@.size_y,
                size_idx: h@.size_idx,
                unknown4: h@.unknown4,
            },
        ));
    }
    hw
}

/// Project a container into its manifest document.
pub fn lf_manifest(c: &Lf) -> (s: String)
    requires
        lf_wf(c@),
    ensures
        s@ == lf_doc(c@),
{
    let mut ws = lf_header_words_vec(&c.header, c.header.version_date);
    proof {
        assert(LfHeaderV {
            unknown1: c.header@.unknown1,
            version_date: c.header@.version_date,
            unknown2: c.header@.unknown2,
            block_count: c.header@.block_count,
            unknown3: c.header@.unknown3,
            size_x: c.header@.size_x,
            size_y: c.header@.size_y,
            size_idx: c.header@.size_idx,
            unknown4: c.header@.unknown4,
        } =~= c.header@);
        assert(lf_flat_words(c.blocks@.take(0)) =~= Seq::<u32>::empty());
        assert(ws@ =~= lf_header_words(c@.header) + lf_flat_words(c.blocks@.take(0)));
    }
    let mut i: usize = 0;
    let n = c.blocks.len();
    while i < n
        invariant
            i <= n,
            n == c.blocks@.len(),
            ws@ == lf_header_words(c@.header) + lf_flat_words(c.blocks@.take(i as int)),
        decreases n - i,
    {
        let b = &c.blocks[i];
        ws.push(b.index);
        ws.push(b.position_x);
        ws.push(b.position_y);
        ws.push(b.file_offset);
        ws.push(b.file_length);
        ws.push(b.unknown);
        i = i + 1;
        proof {
            lemma_lf_flat_words_push(c.blocks@.take(i - 1), c.blocks@[i - 1]);
            assert(c.blocks@.take(i as int) =~= c.blocks@.take(i - 1).push(c.blocks@[i - 1]));
            assert(ws@ =~= lf_header_words(c@.header) + lf_flat_words(c.blocks@.take(i as int)));
        }
    }
    proof {
        assert(c.blocks@.take(n as int) =~= c.blocks@);
    }
    let mut out = String::new();
    out.append("terrain_blocks\n");
    crate::doc::put_nums(&mut out, &ws);
    proof {
        assert(out@ =~= lf_doc(c@));
    }
    out
}

/// Rebuild a container value from its manifest document; mirrors
/// `lf_doc_parse`.
pub fn lf_manifest_parse(s: &str) -> (r: Result<Lf, Error>)
    ensures
        match r {
            Ok(c) => {
                &&& lf_doc_parse(s@) == Some(c@)
                &&& lf_wf(c@)
            },
            Err(e) => {
                &&& e == Error::Document
                &&& lf_doc_parse(s@) is None
            },
        },
{
    let mut rd = DocReader::new(s);
    match rd.expect_lit("terrain_blocks\n") {
        Ok(()) => {},
        Err(_) => {
            return Err(Error::Document);
        },
    }
    let hw = match rd.read_nums(25) {
        Ok(w) => w,
        Err(_) => {
            return Err(Error::Document);
        },
    };
    let h = LfHeader {
        unknown1: hw[0],
        version_date: hw[1],
        unknown2: hw[2],
        block_count: hw[3],
        unknown3: crate::bytes::words_range(&hw, 4, 17),
        size_x: hw[17],
        size_y: hw[18],
        size_idx: hw[19],
        unknown4: crate::bytes::words_range(&hw, 20, 25),
    };
    proof {
        assert(h@ =~= lf_header_of_words(hw@));
    }
    let bc = h.block_count;
    let len = s.unicode_len();
    let ghost e1 = rd.pos as int;
    if (bc as u64) > ((len - rd.pos) as u64) / 12 {
        proof {
            if p_nums(s@, e1, 6 * bc as nat) is Some {
                crate::doc::lemma_p_nums_min_len(s@, e1, 6 * bc as nat);
            }
        }
        return Err(Error::Document);
    }
    let bw = match rd.read_nums(6 * (bc as usize)) {
        Ok(w) => w,
        Err(_) => {
            return Err(Error::Document);
        },
    };
    if !rd.at_end() {
        return Err(Error::Document);
    }
    let mut blocks: Vec<LfBlock> = Vec::new();
    let mut i: usize = 0;
    let nb = bc as usize;
    while i < nb
        invariant
            i <= nb,
            bw@.len() == 6 * nb,
            6 * nb <= usize::MAX,
            blocks@ =~= Seq::new(i as nat, |j: int| lf_block_of_words(bw@.subrange(6 * j, 6 * j + 6))),
        decreases nb - i,
    {
        blocks.push(
            LfBlock {
                index: bw[6 * i],
                position_x: bw[6 * i + 1],
                position_y: bw[6 * i + 2],
                file_offset: bw[6 * i + 3],
                file_length: bw[6 * i + 4],
                unknown: bw[6 * i + 5],
            },
        );
        i = i + 1;
        proof {
            assert(blocks@ =~= Seq::new(
                i as nat,
                |j: int| lf_block_of_words(bw@.subrange(6 * j, 6 * j + 6)),
            ));
        }
    }
    let c = Lf { header: h, blocks };
    proof {
        assert(c@ =~= lf_doc_parse(s@)->Some_0);
    }
    Ok(c)
}

/// Every payload range of the parsed table must lie inside the file.
pub open spec fn lf_extract_ok(c: LfV, b: Seq<u8>) -> bool {
    forall|i: int|
        0 <= i < c.blocks.len() ==> (#[trigger] c.blocks[i]).file_offset
            + c.blocks[i].file_length <= b.len()
}

/// The payload blobs of all blocks, in table order.
pub open spec fn lf_extract(c: LfV, b: Seq<u8>) -> Seq<Seq<u8>> {
    Seq::new(
        c.blocks.len(),
        |i: int| b.subrange(
            c.blocks[i].file_offset as int,
            c.blocks[i].file_offset + c.blocks[i].file_length,
        ),
    )
}

/// Random-access extraction of every block's payload byte range.
pub fn lf_extract_payloads(c: &Lf, data: &[u8]) -> (r: Result<Vec<Vec<u8>>, Error>)
    ensures
        match r {
            Ok(v) => {
                &&& lf_extract_ok(c@, data@)
                &&& v@.map_values(|p: Vec<u8>| p@) == lf_extract(c@, data@)
            },
            Err(e) => {
                &&& e == Error::Format
                &&& !lf_extract_ok(c@, data@)
            },
        },
{
    let mut out: Vec<Vec<u8>> = Vec::new();
    let n = c.blocks.len();
    let mut i: usize = 0;
    while i < n
        invariant
            i <= n,
            n == c.blocks@.len(),
            out@.len() == i,
            forall|j: int|
                0 <= j < i ==> (#[trigger] c.blocks@[j]).file_offset + c.blocks@[j].file_length
                    <= data@.len(),
            out@.map_values(|p: Vec<u8>| p@) =~= lf_extract(c@, data@).take(i as int),
        decreases n - i,
    {
        let b = &c.blocks[i];
        if (b.file_offset as u64) + (b.file_length as u64) > data.len() as u64 {
            return Err(Error::Format);
        }
        let start = b.file_offset as usize;
        let end = start + b.file_length as usize;
        let piece = vstd::slice::slice_to_vec(vstd::slice::slice_subrange(data, start, end));
        out.push(piece);
        i = i + 1;
        proof {
            assert(out@.map_values(|p: Vec<u8>| p@) =~= lf_extract(c@, data@).take(i as int));
        }
    }
    proof {
        assert(lf_extract(c@, data@).take(n as int) =~= lf_extract(c@, data@));
    }
    Ok(out)
}

/// Sidecar file name of a block: its index in decimal, then `.nif`.
pub open spec fn lf_sidecar_name_spec(index: u32) -> Seq<char> {
    dec_chars(index as nat) + ".nif"@
}

pub fn lf_sidecar_name(index: u32) -> (s: String)
    ensures
        s@ == lf_sidecar_name_spec(index),
{
    let mut s = crate::num::u32_to_dec(index);
    s.append(".nif");
    s
}

/// After a pack, reading `file_length` bytes at `file_offset` of any
/// block reproduces exactly that block's payload: the patched pairs
/// address precisely what was streamed.
pub proof fn lemma_lf_patch_invariant(c: LfV, ps: Seq<Seq<u8>>, i: int)
    requires
        lf_wf(c),
        ps.len() == c.blocks.len(),
        lf_pack_fits(c, ps),
        0 <= i < ps.len(),
    ensures
        ({
            let out = lf_pack_bytes(c, ps);
            let blk = lf_patched(c, ps).blocks[i];
            &&& blk.file_offset + blk.file_length <= out.len()
            &&& out.subrange(blk.file_offset as int, blk.file_offset + blk.file_length) == ps[i]
        }),
{
    let out = lf_pack_bytes(c, ps);
    let pc = lf_patched(c, ps);
    let blk = pc.blocks[i];
    let head = lf_bytes(pc);
    lemma_words_bytes_len(lf_header_words(pc.header));
    assert(lf_header_words(pc.header).len() == 25);
    let chunks = lf_table_chunks(pc.blocks);
    assert forall|j: int| 0 <= j < chunks.len() implies (#[trigger] chunks[j]).len() == 24 by {
        lemma_words_bytes_len(lf_block_words(pc.blocks[j]));
    }
    lemma_cat_uniform(chunks, 24);
    assert(head.len() == lf_size(c));
    lemma_cat_chunk_at(ps, i);
    assert(cat_off(ps, i) + ps[i].len() <= cat(ps).len());
    assert(blk.file_offset == lf_size(c) + cat_off(ps, i));
    assert(blk.file_length == ps[i].len());
    assert(out.subrange(blk.file_offset as int, blk.file_offset + blk.file_length)
        =~= cat(ps).subrange(cat_off(ps, i), cat_off(ps, i) + ps[i].len() as int));
}

/// The payload layout hypothesis of the byte-level round trip: the
/// parsed references address the payloads contiguously, in table order,
/// immediately after the table, and the last one ends the file.
pub open spec fn lf_contiguous(c: LfV, b: Seq<u8>) -> bool {
    &&& b.len() <= u32::MAX
    &&& lf_extract_ok(c, b)
    &&& (forall|i: int|
        0 <= i < c.blocks.len() ==> (#[trigger] c.blocks[i]).file_offset == lf_size(c) + cat_off(
            lf_extract(c, b),
            i,
        ))
    &&& b.len() == lf_size(c) + cat(lf_extract(c, b)).len()
}

/// The known deviation of the terrain-block round trip: packing what
/// was unpacked reproduces the container byte for byte, except that the
/// header's date word is replaced by the fixed pack constant.
pub proof fn lemma_lf_known_deviation(b: Seq<u8>)
    requires
        lf_parse_spec(b) is Some,
        lf_contiguous(lf_parse_spec(b)->Some_0, b),
    ensures
        ({
            let c = lf_parse_spec(b)->Some_0;
            let ps = lf_extract(c, b);
            &&& lf_pack_fits(c, ps)
            &&& lf_pack_bytes(c, ps) == splice(b, 12, spec_u32_to_le_bytes(LF_PACK_DATE))
        }),
{
    let c = lf_parse_spec(b)->Some_0;
    let ps = lf_extract(c, b);
    lemma_lf_parse_bytes(b);
    vstd::bytes::lemma_auto_spec_u32_to_from_le_bytes();
    let n = c.blocks.len() as int;
    assert(lf_pack_fits(c, ps)) by {
        assert(b.len() == lf_size(c) + cat(ps).len());
    }
    // the patched container equals the parsed one, except the date word
    let pc = lf_patched(c, ps);
    assert forall|i: int| 0 <= i < n implies pc.blocks[i] == c.blocks[i] by {
        assert(c.blocks[i].file_offset == lf_size(c) + cat_off(ps, i));
        assert(ps[i].len() == c.blocks[i].file_length);
    }
    assert(pc.blocks =~= c.blocks);
    // the payloads cover the whole byte range after the table
    assert forall|i: int| 0 <= i < n implies #[trigger] ps[i] == b.subrange(
        lf_size(c) + cat_off(ps, i),
        lf_size(c) + cat_off(ps, i) + ps[i].len(),
    ) by {
        assert(c.blocks[i].file_offset == lf_size(c) + cat_off(ps, i));
    }
    crate::bytes::lemma_cat_consecutive(b, lf_size(c), ps);
    assert(cat(ps) == b.subrange(lf_size(c), b.len() as int));
    // splicing the date word into the parsed bytes gives the packed bytes
    let hw = lf_header_words(c.header);
    lemma_words_bytes_len(hw);
    lemma_words_bytes_update(hw, 1, LF_PACK_DATE);
    assert(hw.update(1, LF_PACK_DATE) =~= lf_header_words(pc.header));
    let t = cat(lf_table_chunks(c.blocks)) + cat(ps);
    crate::bytes::lemma_splice_concat(
        lf_magic(),
        words_bytes(hw),
        t,
        4,
        spec_u32_to_le_bytes(LF_PACK_DATE),
    );
    assert(b =~= lf_magic() + words_bytes(hw) + t) by {
        assert(lf_bytes(c) == b.subrange(0, lf_size(c)));
        assert(b =~= b.subrange(0, lf_size(c)) + b.subrange(lf_size(c), b.len() as int));
        assert(lf_magic() + words_bytes(hw) + cat(lf_table_chunks(c.blocks)) + cat(ps)
            =~= lf_magic() + words_bytes(hw) + t);
    }
    assert(splice(b, 12, spec_u32_to_le_bytes(LF_PACK_DATE)) == lf_magic() + splice(
        words_bytes(hw),
        4,
        spec_u32_to_le_bytes(LF_PACK_DATE),
    ) + t);
    assert(lf_table_chunks(pc.blocks) =~= lf_table_chunks(c.blocks));
    assert(lf_pack_bytes(c, ps) =~= lf_magic() + words_bytes(lf_header_words(pc.header)) + t);
}

/// One terrain-block operation on plain values; the caller reads and
/// writes the files.
pub enum LfCommand {
    /// container bytes
    Info(Vec<u8>),
    /// container bytes
    Unpack(Vec<u8>),
    /// manifest text and, per block in table order, its sidecar bytes
    /// (`None` where the sidecar file is missing)
    Pack(String, Vec<Option<Vec<u8>>>),
}

pub struct LfOpts {
    pub cmd: LfCommand,
}

/// The header fields the info operation reports.
#[derive(Clone, Copy, PartialEq, Eq, Structural, Debug)]
pub struct LfInfo {
    pub size_x: u32,
    pub size_y: u32,
    pub block_count: u32,
}

pub enum LfOutcome {
    Info(LfInfo),
    /// the manifest document and one named sidecar per block
    Unpack(String, Vec<crate::Payload>),
    /// the packed container bytes
    Pack(Vec<u8>),
}

/// The sidecar payloads handed to a pack, in table order.
pub open spec fn lf_given_payloads(sidecars: Seq<Option<Vec<u8>>>, n: int) -> Seq<Seq<u8>> {
    Seq::new(n as nat, |i: int| sidecars[i]->Some_0@)
}

/// Every block's sidecar is present.
pub open spec fn lf_all_present(sidecars: Seq<Option<Vec<u8>>>, n: int) -> bool {
    forall|i: int| 0 <= i < n ==> i < sidecars.len() && (#[trigger] sidecars[i]) is Some
}

/// Run one terrain-block command on in-memory values.
#[verifier::loop_isolation(false)]
pub fn process_lf(opts: LfOpts) -> (r: Result<LfOutcome, Error>)
    ensures
        match opts.cmd {
            LfCommand::Info(data) => match r {
                Ok(o) => {
                    &&& lf_header_parse_spec(data@) is Some
                    &&& o matches LfOutcome::Info(info)
                    &&& info.size_x == lf_header_parse_spec(data@)->Some_0.size_x
                    &&& info.size_y == lf_header_parse_spec(data@)->Some_0.size_y
                    &&& info.block_count == lf_header_parse_spec(data@)->Some_0.block_count
                },
                Err(e) => {
                    &&& e == Error::Format
                    &&& lf_header_parse_spec(data@) is None
                },
            },
            LfCommand::Unpack(data) => match r {
                Ok(o) => {
                    let c = lf_parse_spec(data@)->Some_0;
                    &&& lf_parse_spec(data@) is Some
                    &&& lf_extract_ok(c, data@)
                    &&& o matches LfOutcome::Unpack(m, sc)
                    &&& m@ == lf_doc(c)
                    &&& sc@.len() == c.blocks.len()
                    &&& (forall|i: int|
                        0 <= i < c.blocks.len() ==> (#[trigger] sc@[i]).name@
                            == lf_sidecar_name_spec(c.blocks[i].index) && sc@[i].data@
                            == lf_extract(c, data@)[i])
                },
                Err(e) => {
                    &&& e == Error::Format
                    &&& (lf_parse_spec(data@) is None || !lf_extract_ok(
                        lf_parse_spec(data@)->Some_0,
                        data@,
                    ))
                },
            },
            LfCommand::Pack(m, sidecars) => match r {
                Ok(o) => {
                    let c = lf_doc_parse(m@)->Some_0;
                    let ps = lf_given_payloads(sidecars@, c.blocks.len() as int);
                    &&& lf_doc_parse(m@) is Some
                    &&& lf_all_present(sidecars@, c.blocks.len() as int)
                    &&& lf_pack_fits(c, ps)
                    &&& o matches LfOutcome::Pack(out)
                    &&& out@ == lf_pack_bytes(c, ps)
                },
                Err(Error::Document) => lf_doc_parse(m@) is None,
                Err(Error::MissingPayload) => {
                    &&& lf_doc_parse(m@) is Some
                    &&& !lf_all_present(sidecars@, lf_doc_parse(m@)->Some_0.blocks.len() as int)
                },
                Err(Error::Format) => {
                    let c = lf_doc_parse(m@)->Some_0;
                    &&& lf_doc_parse(m@) is Some
                    &&& lf_all_present(sidecars@, c.blocks.len() as int)
                    &&& !lf_pack_fits(c, lf_given_payloads(sidecars@, c.blocks.len() as int))
                },
            },
        },
{
    match opts.cmd {
        LfCommand::Info(data) => {
            let h = match lf_parse_header(data.as_slice()) {
                Ok(h) => h,
                Err(e) => {
                    return Err(e);
                },
            };
            Ok(
                LfOutcome::Info(
                    LfInfo {
                        size_x: h.size_x,
                        size_y: h.size_y,
                        block_count: h.block_count,
                    },
                ),
            )
        },
        LfCommand::Unpack(data) => {
            let c = match lf_parse(data.as_slice()) {
                Ok(c) => c,
                Err(e) => {
                    return Err(e);
                },
            };
            let m = lf_manifest(&c);
            let blobs = match lf_extract_payloads(&c, data.as_slice()) {
                Ok(v) => v,
                Err(e) => {
                    return Err(e);
                },
            };
            let mut sc: Vec<crate::Payload> = Vec::new();
            let mut i: usize = 0;
            let n = c.blocks.len();
            let mut rest = blobs;
            proof {
                assert(rest@.map_values(|p: Vec<u8>| p@) == lf_extract(c@, data@));
                assert(rest@.len() == n);
            }
            while i < n
                invariant
                    i <= n,
                    n == c.blocks@.len(),
                    rest@.len() == n - i,
                    sc@.len() == i,
                    forall|j: int|
                        0 <= j < i ==> (#[trigger] sc@[j]).name@ == lf_sidecar_name_spec(
                            c.blocks@[j].index,
                        ) && sc@[j].data@ == lf_extract(c@, data@)[j],
                    forall|j: int|
                        0 <= j < n - i ==> (#[trigger] rest@[j])@ == lf_extract(c@, data@)[i + j],
                decreases n - i,
            {
                let blob = rest.remove(0);
                let name = lf_sidecar_name(c.blocks[i].index);
                sc.push(crate::Payload { name, data: blob });
                i = i + 1;
            }
            Ok(LfOutcome::Unpack(m, sc))
        },
        LfCommand::Pack(m, sidecars) => {
            let c = match lf_manifest_parse(m.as_str()) {
                Ok(c) => c,
                Err(e) => {
                    return Err(e);
                },
            };
            let n = c.blocks.len();
            let mut ps: Vec<Vec<u8>> = Vec::new();
            let mut i: usize = 0;
            while i < n
                invariant
                    i <= n,
                    n == c.blocks@.len(),
                    lf_doc_parse(m@) == Some(c@),
                    ps@.len() == i,
                    forall|j: int| 0 <= j < i ==> j < sidecars@.len() && (#[trigger] sidecars@[j]) is Some,
                    ps@.map_values(|p: Vec<u8>| p@) =~= lf_given_payloads(sidecars@, n as int).take(
                        i as int,
                    ),
                decreases n - i,
            {
                if i >= sidecars.len() {
                    proof {
                        assert(!(i < sidecars@.len() && sidecars@[i as int] is Some));
                        assert(!lf_all_present(sidecars@, n as int));
                    }
                    return Err(Error::MissingPayload);
                }
                let blob = match &sidecars[i] {
                    Some(d) => vstd::slice::slice_to_vec(d.as_slice()),
                    None => {
                        proof {
                            assert(!(sidecars@[i as int] is Some));
                            assert(!lf_all_present(sidecars@, n as int));
                        }
                        return Err(Error::MissingPayload);
                    },
                };
                ps.push(blob);
                i = i + 1;
                proof {
                    assert(ps@.map_values(|p: Vec<u8>| p@) =~= lf_given_payloads(
                        sidecars@,
                        n as int,
                    ).take(i as int));
                }
            }
            proof {
                assert(lf_given_payloads(sidecars@, n as int).take(n as int) =~= lf_given_payloads(
                    sidecars@,
                    n as int,
                ));
            }
            let out = match lf_pack(&c, &ps) {
                Ok(v) => v,
                Err(e) => {
                    return Err(e);
                },
            };
            proof {
                assert(ps@.map_values(|p: Vec<u8>| p@) == lf_given_payloads(sidecars@, n as int));
            }
            Ok(LfOutcome::Pack(out))
        },
    }
}

} // verus!
