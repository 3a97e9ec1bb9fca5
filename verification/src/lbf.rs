//! Terrain block-object containers behind the magic `LBF\0kjc\0`: a
//! fixed header, then per block a count-prefixed list of objects, each
//! carrying a payload reference and a secondary tag id.  This format is
//! read and extracted only; no pack path exists for it.
use crate::bytes::{bytes_eq, word_at, words_at, Reader};
use crate::num::dec_chars;
use crate::Error;
use vstd::prelude::*;

verus! {

pub struct LbfHeader {
    pub unknown1: u32,
    pub version_date: u32,
    pub unknown2: u32,
    pub block_count: u32,
    pub block_object_count: u32,
}

/// One object of a block; `file_offset` and `file_length` address its
/// payload blob, `unk` is its secondary tag id.
#[derive(Clone, Copy, PartialEq, Eq, Structural, Debug)]
pub struct LbfBlockObject {
    pub unk: u32,
    pub index: u32,
    pub file_offset: u32,
    pub file_length: u32,
}

pub struct LbfBlock {
    pub object_count: u32,
    pub objects: Vec<LbfBlockObject>,
}

#[verifier::ext_equal]
pub struct LbfBlockV {
    pub object_count: u32,
    pub objects: Seq<LbfBlockObject>,
}

impl View for LbfBlock {
    type V = LbfBlockV;

    open spec fn view(&self) -> LbfBlockV {
        LbfBlockV { object_count: self.object_count, objects: self.objects@ }
    }
}

pub struct Lbf {
    pub header: LbfHeader,
    pub blocks: Vec<LbfBlock>,
}

#[verifier::ext_equal]
pub struct LbfV {
    pub header: LbfHeader,
    pub blocks: Seq<LbfBlockV>,
}

impl View for Lbf {
    type V = LbfV;

    open spec fn view(&self) -> LbfV {
        LbfV { header: self.header, blocks: self.blocks@.map_values(|b: LbfBlock| b@) }
    }
}

pub open spec fn lbf_magic() -> Seq<u8> {
    seq![76u8, 66u8, 70u8, 0u8, 107u8, 106u8, 99u8, 0u8]
}

fn lbf_magic_vec() -> (v: Vec<u8>)
    ensures
        v@ == lbf_magic(),
{
    let mut v: Vec<u8> = Vec::new();
    v.push(76);
    v.push(66);
    v.push(70);
    v.push(0);
    v.push(107);
    v.push(106);
    v.push(99);
    v.push(0);
    proof {
        assert(v@ =~= lbf_magic());
    }
    v
}

pub open spec fn lbf_obj_of_words(ws: Seq<u32>) -> LbfBlockObject {
    LbfBlockObject { unk: ws[0], index: ws[1], file_offset: ws[2], file_length: ws[3] }
}

/// The block list: each block is its object count, then that many
/// sixteen-byte objects.
pub open spec fn lbf_parse_blocks(b: Seq<u8>, off: int, n: nat) -> Option<(Seq<LbfBlockV>, int)>
    decreases n,
{
    if n == 0 {
        Some((Seq::empty(), off))
    } else if off + 4 <= b.len() {
        let cnt = word_at(b, off) as int;
        if off + 4 + 16 * cnt <= b.len() {
            let blk = LbfBlockV {
                object_count: cnt as u32,
                objects: Seq::new(
                    cnt as nat,
                    |i: int| lbf_obj_of_words(words_at(b, off + 4 + 16 * i, 4)),
                ),
            };
            match lbf_parse_blocks(b, off + 4 + 16 * cnt, (n - 1) as nat) {
                Some((rest, e)) => Some((seq![blk] + rest, e)),
                None => None,
            }
        } else {
            None
        }
    } else {
        None
    }
}

/// The header and block table read from the front of `b`; the bytes
/// after the table are payload space and stay untouched.
pub open spec fn lbf_parse_spec(b: Seq<u8>) -> Option<LbfV> {
    if b.len() >= 28 && b.subrange(0, 8) == lbf_magic() {
        let h = LbfHeader {
            unknown1: word_at(b, 8),
            version_date: word_at(b, 12),
            unknown2: word_at(b, 16),
            block_count: word_at(b, 20),
            block_object_count: word_at(b, 24),
        };
        match lbf_parse_blocks(b, 28, h.block_count as nat) {
            Some((bs, e)) => Some(LbfV { header: h, blocks: bs }),
            None => None,
        }
    } else {
        None
    }
}

/// The fixed header alone, read from the front of `b`: what the info
/// operation needs, whether or not the block table behind it is whole.
pub open spec fn lbf_header_parse_spec(b: Seq<u8>) -> Option<LbfHeader> {
    if b.len() >= 28 && b.subrange(0, 8) == lbf_magic() {
        Some(
            LbfHeader {
                unknown1: word_at(b, 8),
                version_date: word_at(b, 12),
                unknown2: word_at(b, 16),
                block_count: word_at(b, 20),
                block_object_count: word_at(b, 24),
            },
        )
    } else {
        None
    }
}

/// Parse the magic and fixed header only; mirrors
/// `lbf_header_parse_spec`.
pub fn lbf_parse_header(data: &[u8]) -> (r: Result<LbfHeader, Error>)
    ensures
        match r {
            Ok(h) => lbf_header_parse_spec(data@) == Some(h),
            Err(e) => {
                &&& e == Error::Format
                &&& lbf_header_parse_spec(data@) is None
            },
        },
{
    let mut rd = Reader::new(data);
    let magic = match rd.read_bytes(8) {
        Ok(m) => m,
        Err(_) => {
            return Err(Error::Format);
        },
    };
    let mv = lbf_magic_vec();
    if !bytes_eq(magic.as_slice(), mv.as_slice()) {
        return Err(Error::Format);
    }
    let hw = match rd.read_words(5) {
        Ok(w) => w,
        Err(_) => {
            return Err(Error::Format);
        },
    };
    Ok(
        LbfHeader {
            unknown1: hw[0],
            version_date: hw[1],
            unknown2: hw[2],
            block_count: hw[3],
            block_object_count: hw[4],
        },
    )
}

/// Parse the magic, header and nested block table; mirrors
/// `lbf_parse_spec`.
#[verifier::loop_isolation(false)]
pub fn lbf_parse(data: &[u8]) -> (r: Result<Lbf, Error>)
    ensures
        match r {
            Ok(c) => lbf_parse_spec(data@) == Some(c@),
            Err(e) => {
                &&& e == Error::Format
                &&& lbf_parse_spec(data@) is None
            },
        },
{
    let mut rd = Reader::new(data);
    let magic = match rd.read_bytes(8) {
        Ok(m) => m,
        Err(_) => {
            return Err(Error::Format);
        },
    };
    let mv = lbf_magic_vec();
    if !bytes_eq(magic.as_slice(), mv.as_slice()) {
        return Err(Error::Format);
    }
    let hw = match rd.read_words(5) {
        Ok(w) => w,
        Err(_) => {
            return Err(Error::Format);
        },
    };
    let h = LbfHeader {
        unknown1: hw[0],
        version_date: hw[1],
        unknown2: hw[2],
        block_count: hw[3],
        block_object_count: hw[4],
    };
    let nb = h.block_count as usize;
    let mut blocks: Vec<LbfBlock> = Vec::new();
    let mut i: usize = 0;
    while i < nb
        invariant
            rd.wf(),
            rd.data@ == data@,
            i <= nb,
            blocks@.len() == i,
            lbf_parse_blocks(data@, 28, nb as nat) == (match lbf_parse_blocks(
                data@,
                rd.pos as int,
                (nb - i) as nat,
            ) {
                Some((rest, e)) => Some::<(Seq<LbfBlockV>, int)>(
                    (blocks@.map_values(|x: LbfBlock| x@) + rest, e),
                ),
                None => None::<(Seq<LbfBlockV>, int)>,
            }),
        decreases nb - i,
    {
        let cnt = match rd.read_u32() {
            Ok(x) => x,
            Err(_) => {
                return Err(Error::Format);
            },
        };
        let ghost objs_base = rd.pos as int;
        let no = cnt as usize;
        let mut objects: Vec<LbfBlockObject> = Vec::new();
        let mut j: usize = 0;
        if (rd.remaining() as u64) / 16 < cnt as u64 {
            return Err(Error::Format);
        }
        while j < no
            invariant
                rd.wf(),
                rd.data@ == data@,
                j <= no,
                rd.pos == objs_base + 16 * j,
                objs_base + 16 * (no as int) <= data@.len(),
                objects@ =~= Seq::new(
                    j as nat,
                    |k: int| lbf_obj_of_words(words_at(data@, objs_base + 16 * k, 4)),
                ),
            decreases no - j,
        {
            let ws = match rd.read_words(4) {
                Ok(w) => w,
                Err(_) => {
                    proof {
                        assert(false);
                    }
                    return Err(Error::Format);
                },
            };
            objects.push(
                LbfBlockObject { unk: ws[0], index: ws[1], file_offset: ws[2], file_length: ws[3] },
            );
            j = j + 1;
            proof {
                assert(objects@ =~= Seq::new(
                    j as nat,
                    |k: int| lbf_obj_of_words(words_at(data@, objs_base + 16 * k, 4)),
                ));
            }
        }
        let blk = LbfBlock { object_count: cnt, objects };
        blocks.push(blk);
        i = i + 1;
        proof {
            let m0 = blocks@.take(i - 1).map_values(|x: LbfBlock| x@);
            let m1 = blocks@.map_values(|x: LbfBlock| x@);
            assert(m1 =~= m0.push(blocks@[i - 1]@));
            assert(blocks@.take(i - 1) =~= blocks@.drop_last());
            match lbf_parse_blocks(data@, rd.pos as int, (nb - i) as nat) {
                Some((rest, e)) => {
                    assert(m0 + (seq![blocks@[i - 1]@] + rest) =~= m1 + rest);
                },
                None => {},
            }
        }
    }
    proof {
        assert(blocks@.map_values(|x: LbfBlock| x@) + Seq::<LbfBlockV>::empty()
            =~= blocks@.map_values(|x: LbfBlock| x@));
    }
    let c = Lbf { header: h, blocks };
    proof {
        assert(c@ =~= lbf_parse_spec(data@)->Some_0);
    }
    Ok(c)
}

/// All objects of all blocks, in table order.
pub open spec fn lbf_flat_objects(bs: Seq<LbfBlockV>) -> Seq<LbfBlockObject>
    decreases bs.len(),
{
    if bs.len() == 0 {
        Seq::empty()
    } else {
        bs[0].objects + lbf_flat_objects(bs.drop_first())
    }
}

pub proof fn lemma_lbf_flat_objects_push(bs: Seq<LbfBlockV>, x: LbfBlockV)
    ensures
        lbf_flat_objects(bs.push(x)) == lbf_flat_objects(bs) + x.objects,
    decreases bs.len(),
{
    if bs.len() == 0 {
        let s = bs.push(x);
        assert(s.drop_first() =~= Seq::<LbfBlockV>::empty());
        assert(lbf_flat_objects(s) == x.objects + lbf_flat_objects(s.drop_first()));
        assert(x.objects + Seq::<LbfBlockObject>::empty() =~= x.objects);
        assert(Seq::<LbfBlockObject>::empty() + x.objects =~= x.objects);
    } else {
        lemma_lbf_flat_objects_push(bs.drop_first(), x);
        assert(bs.push(x).drop_first() =~= bs.drop_first().push(x));
        assert(bs.push(x)[0] == bs[0]);
        assert(bs[0].objects + (lbf_flat_objects(bs.drop_first()) + x.objects) =~= (bs[0].objects
            + lbf_flat_objects(bs.drop_first())) + x.objects);
    }
}

/// Every object's payload range lies inside the file.
pub open spec fn lbf_extract_ok(c: LbfV, b: Seq<u8>) -> bool {
    forall|k: int|
        0 <= k < lbf_flat_objects(c.blocks).len() ==> (#[trigger] lbf_flat_objects(
            c.blocks,
        )[k]).file_offset + lbf_flat_objects(c.blocks)[k].file_length <= b.len()
}

/// The preview label of one object: its block index and its tag id.
pub open spec fn lbf_label_spec(o: LbfBlockObject) -> Seq<char> {
    "Block"@ + dec_chars(o.index as nat) + "Object"@ + dec_chars(o.unk as nat)
}

pub fn lbf_label(o: &LbfBlockObject) -> (s: String)
    ensures
        s@ == lbf_label_spec(*o),
{
    let mut s = String::new();
    s.append("Block");
    let d1 = crate::num::u32_to_dec(o.index);
    s.append(d1.as_str());
    s.append("Object");
    let d2 = crate::num::u32_to_dec(o.unk);
    s.append(d2.as_str());
    proof {
        assert(s@ =~= lbf_label_spec(*o));
    }
    s
}

/// Extract every object's payload blob, labelled for the mesh consumer.
#[verifier::loop_isolation(false)]
pub fn lbf_extract_payloads(c: &Lbf, data: &[u8]) -> (r: Result<Vec<crate::Payload>, Error>)
    ensures
        match r {
            Ok(v) => {
                let objs = lbf_flat_objects(c@.blocks);
                &&& lbf_extract_ok(c@, data@)
                &&& v@.len() == objs.len()
                &&& (forall|k: int|
                    0 <= k < objs.len() ==> (#[trigger] v@[k]).name@ == lbf_label_spec(objs[k])
                        && v@[k].data@ == data@.subrange(
                        objs[k].file_offset as int,
                        objs[k].file_offset + objs[k].file_length,
                    ))
            },
            Err(e) => {
                &&& e == Error::Format
                &&& !lbf_extract_ok(c@, data@)
            },
        },
{
    let mut out: Vec<crate::Payload> = Vec::new();
    let nb = c.blocks.len();
    let mut bi: usize = 0;
    proof {
        assert(c@.blocks.take(0) =~= Seq::<LbfBlockV>::empty());
    }
    while bi < nb
        invariant
            bi <= nb,
            nb == c.blocks@.len(),
            out@.len() == lbf_flat_objects(c@.blocks.take(bi as int)).len(),
            forall|k: int|
                0 <= k < out@.len() ==> {
                    let objs = lbf_flat_objects(c@.blocks.take(bi as int));
                    (#[trigger] out@[k]).name@ == lbf_label_spec(objs[k]) && objs[k].file_offset
                        + objs[k].file_length <= data@.len() && out@[k].data@ == data@.subrange(
                        objs[k].file_offset as int,
                        objs[k].file_offset + objs[k].file_length,
                    )
                },
        decreases nb - bi,
    {
        let blk = &c.blocks[bi];
        let no = blk.objects.len();
        let mut oi: usize = 0;
        while oi < no
            invariant
                bi < nb,
                oi <= no,
                no == blk.objects@.len(),
                blk == &c.blocks[bi as int],
                out@.len() == lbf_flat_objects(c@.blocks.take(bi as int)).len() + oi,
                forall|k: int|
                    0 <= k < out@.len() ==> {
                        let objs = lbf_flat_objects(c@.blocks.take(bi as int)) + blk@.objects.take(
                            oi as int,
                        );
                        (#[trigger] out@[k]).name@ == lbf_label_spec(objs[k]) && objs[k].file_offset
                            + objs[k].file_length <= data@.len() && out@[k].data@
                            == data@.subrange(
                            objs[k].file_offset as int,
                            objs[k].file_offset + objs[k].file_length,
                        )
                    },
            decreases no - oi,
        {
            let o = &blk.objects[oi];
            if (o.file_offset as u64) + (o.file_length as u64) > data.len() as u64 {
                proof {
                    let objs = lbf_flat_objects(c@.blocks);
                    let pre = lbf_flat_objects(c@.blocks.take(bi as int));
                    assert(c@.blocks =~= c@.blocks.take(bi as int) + c@.blocks.skip(bi as int));
                    lemma_lbf_flat_objects_append(
                        c@.blocks.take(bi as int),
                        c@.blocks.skip(bi as int),
                    );
                    assert(c@.blocks.skip(bi as int)[0] == c@.blocks[bi as int]);
                    assert(lbf_flat_objects(c@.blocks.skip(bi as int)) == c@.blocks[bi as int].objects
                        + lbf_flat_objects(c@.blocks.skip(bi as int).drop_first()));
                    assert(objs[pre.len() + oi] == c@.blocks[bi as int].objects[oi as int]);
                    assert(!lbf_extract_ok(c@, data@));
                }
                return Err(Error::Format);
            }
            let start = o.file_offset as usize;
            let end = start + o.file_length as usize;
            let piece = vstd::slice::slice_to_vec(vstd::slice::slice_subrange(data, start, end));
            let name = lbf_label(o);
            out.push(crate::Payload { name, data: piece });
            oi = oi + 1;
            proof {
                assert(blk@.objects.take(oi as int) =~= blk@.objects.take(oi - 1).push(
                    blk@.objects[oi - 1],
                ));
                let pre = lbf_flat_objects(c@.blocks.take(bi as int));
                let objs_old = pre + blk@.objects.take(oi - 1);
                let objs_new = pre + blk@.objects.take(oi as int);
                assert forall|k: int| 0 <= k < out@.len() implies {
                    (#[trigger] out@[k]).name@ == lbf_label_spec(objs_new[k])
                        && objs_new[k].file_offset + objs_new[k].file_length <= data@.len()
                        && out@[k].data@ == data@.subrange(
                        objs_new[k].file_offset as int,
                        objs_new[k].file_offset + objs_new[k].file_length,
                    )
                } by {
                    if k < out@.len() - 1 {
                        assert(objs_new[k] == objs_old[k]);
                        assert(out@[k] == out@.drop_last()[k]);
                    } else {
                        assert(objs_new[k] == blk@.objects[oi - 1]);
                    }
                }
            }
        }
        bi = bi + 1;
        proof {
            assert(c@.blocks.take(bi as int) =~= c@.blocks.take(bi - 1).push(c@.blocks[bi - 1]));
            lemma_lbf_flat_objects_push(c@.blocks.take(bi - 1), c@.blocks[bi - 1]);
            assert(blk@.objects.take(blk@.objects.len() as int) =~= blk@.objects);
            let objs_old = lbf_flat_objects(c@.blocks.take(bi - 1)) + blk@.objects;
            let objs_new = lbf_flat_objects(c@.blocks.take(bi as int));
            assert(objs_new == objs_old);
            assert forall|k: int| 0 <= k < out@.len() implies {
                (#[trigger] out@[k]).name@ == lbf_label_spec(objs_new[k])
                    && objs_new[k].file_offset + objs_new[k].file_length <= data@.len()
                    && out@[k].data@ == data@.subrange(
                    objs_new[k].file_offset as int,
                    objs_new[k].file_offset + objs_new[k].file_length,
                )
            } by {
                assert(objs_new[k] == objs_old[k]);
            }
        }
    }
    proof {
        assert(c@.blocks.take(nb as int) =~= c@.blocks);
        let objs = lbf_flat_objects(c@.blocks);
        assert forall|k: int|
            0 <= k < objs.len() implies (#[trigger] objs[k]).file_offset + objs[k].file_length
            <= data@.len() by {
            assert(out@[k].name@ == lbf_label_spec(objs[k]) && objs[k].file_offset
                + objs[k].file_length <= data@.len());
        }
    }
    Ok(out)
}

pub proof fn lemma_lbf_flat_objects_append(a: Seq<LbfBlockV>, b: Seq<LbfBlockV>)
    ensures
        lbf_flat_objects(a + b) == lbf_flat_objects(a) + lbf_flat_objects(b),
    decreases a.len(),
{
    if a.len() == 0 {
        assert(a + b =~= b);
        assert(lbf_flat_objects(a) + lbf_flat_objects(b) =~= lbf_flat_objects(b));
    } else {
        lemma_lbf_flat_objects_append(a.drop_first(), b);
        assert((a + b).drop_first() =~= a.drop_first() + b);
        assert(a[0].objects + (lbf_flat_objects(a.drop_first()) + lbf_flat_objects(b)) =~= (
        a[0].objects + lbf_flat_objects(a.drop_first())) + lbf_flat_objects(b));
    }
}

/// One block-object operation on plain values.
pub enum LbfCommand {
    /// container bytes
    Info(Vec<u8>),
    /// container bytes; yields each object's labelled payload blob for
    /// the external mesh consumer
    Preview(Vec<u8>),
}

pub struct LbfOpts {
    pub cmd: LbfCommand,
}

#[derive(Clone, Copy, PartialEq, Eq, Structural, Debug)]
pub struct LbfInfo {
    pub block_count: u32,
}

pub enum LbfOutcome {
    Info(LbfInfo),
    Preview(Vec<crate::Payload>),
}

/// Run one block-object command on in-memory values.
pub fn process_lbf(opts: LbfOpts) -> (r: Result<LbfOutcome, Error>)
    ensures
        match opts.cmd {
            LbfCommand::Info(data) => match r {
                Ok(o) => {
                    &&& lbf_header_parse_spec(data@) is Some
                    &&& o matches LbfOutcome::Info(info)
                    &&& info.block_count == lbf_header_parse_spec(data@)->Some_0.block_count
                },
                Err(e) => {
                    &&& e == Error::Format
                    &&& lbf_header_parse_spec(data@) is None
                },
            },
            LbfCommand::Preview(data) => match r {
                Ok(o) => {
                    let c = lbf_parse_spec(data@)->Some_0;
                    let objs = lbf_flat_objects(c.blocks);
                    &&& lbf_parse_spec(data@) is Some
                    &&& lbf_extract_ok(c, data@)
                    &&& o matches LbfOutcome::Preview(v)
                    &&& v@.len() == objs.len()
                    &&& (forall|k: int|
                        0 <= k < objs.len() ==> (#[trigger] v@[k]).name@ == lbf_label_spec(objs[k])
                            && v@[k].data@ == data@.subrange(
                            objs[k].file_offset as int,
                            objs[k].file_offset + objs[k].file_length,
                        ))
                },
                Err(e) => {
                    &&& e == Error::Format
                    &&& (lbf_parse_spec(data@) is None || !lbf_extract_ok(
                        lbf_parse_spec(data@)->Some_0,
                        data@,
                    ))
                },
            },
        },
{
    match opts.cmd {
        LbfCommand::Info(data) => {
            let h = match lbf_parse_header(data.as_slice()) {
                Ok(h) => h,
                Err(e) => {
                    return Err(e);
                },
            };
            Ok(LbfOutcome::Info(LbfInfo { block_count: h.block_count }))
        },
        LbfCommand::Preview(data) => {
            let c = match lbf_parse(data.as_slice()) {
                Ok(c) => c,
                Err(e) => {
                    return Err(e);
                },
            };
            let v = match lbf_extract_payloads(&c, data.as_slice()) {
                Ok(v) => v,
                Err(e) => {
                    return Err(e);
                },
            };
            Ok(LbfOutcome::Preview(v))
        },
    }
}

} // verus!
