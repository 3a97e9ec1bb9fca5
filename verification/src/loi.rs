//! Object-instance list containers behind the magic `LOI\0kjc\0`: a
//! short header, per-block lists of object instances (placement fields
//! kept as raw float bit patterns), and four trailer sections preserved
//! without semantic interpretation.  Pure word data, no payload blobs:
//! packing what was unpacked is byte-identical.
use crate::bytes::{bytes_eq, lemma_words_at_bytes, words_at, words_bytes, Reader, Sink};
use crate::doc::{nums_tok, DocReader};
use crate::Error;
use vstd::prelude::*;

verus! {

/// One placed object instance; position, rotation and scale are float bit patterns preserved verbatim, `object_extra_index` a signed index's bit pattern.
#[derive(Clone, Copy, PartialEq, Eq, Structural, Debug)]
pub struct LoiObject {
    pub unknown1: u32,
    pub unknown2: u32,
    pub unknown3: u32,
    pub unknown4: u32,
    pub object_index: u32,
    pub block_index: u32,
    pub model_table_index: u32,
    pub position_x: u32,
    pub position_y: u32,
    pub position_z: u32,
    pub rotation_00: u32,
    pub rotation_01: u32,
    pub rotation_02: u32,
    pub rotation_10: u32,
    pub rotation_11: u32,
    pub rotation_12: u32,
    pub rotation_20: u32,
    pub rotation_21: u32,
    pub rotation_22: u32,
    pub scale: u32,
    pub unknown8: u32,
    pub unknown9: u32,
    pub object_extra_index: u32,
    pub unknown11: u32,
}

/// One per-object transform override; float bit patterns preserved verbatim.
#[derive(Clone, Copy, PartialEq, Eq, Structural, Debug)]
pub struct LoiObjectExtra {
    pub object_index: u32,
    pub object_extra_index: u32,
    pub unknown3: u32,
    pub position_x: u32,
    pub position_y: u32,
    pub position_z: u32,
    pub rotation_00: u32,
    pub rotation_01: u32,
    pub rotation_02: u32,
    pub rotation_10: u32,
    pub rotation_11: u32,
    pub rotation_12: u32,
    pub rotation_20: u32,
    pub rotation_21: u32,
    pub rotation_22: u32,
    pub unknown4_x: u32,
    pub unknown4_y: u32,
    pub unknown4_z: u32,
    pub unknown5: u32,
}

pub struct LoiBlock {
    pub block_index: u32,
    pub objects: Vec<LoiObject>,
}

#[verifier::ext_equal]
pub struct LoiBlockV {
    pub block_index: u32,
    pub objects: Seq<LoiObject>,
}

impl View for LoiBlock {
    type V = LoiBlockV;

    open spec fn view(&self) -> LoiBlockV {
        LoiBlockV { block_index: self.block_index, objects: self.objects@ }
    }
}

/// A count-prefixed raw word list trailer section entry.
pub struct LoiCounted {
    pub items: Vec<u32>,
}

#[verifier::ext_equal]
pub struct LoiCountedV {
    pub items: Seq<u32>,
}

impl View for LoiCounted {
    type V = LoiCountedV;

    open spec fn view(&self) -> LoiCountedV {
        LoiCountedV { items: self.items@ }
    }
}

/// A trailer section entry with one leading word, then a counted list.
pub struct LoiTagged {
    pub unknown1: u32,
    pub items: Vec<u32>,
}

#[verifier::ext_equal]
pub struct LoiTaggedV {
    pub unknown1: u32,
    pub items: Seq<u32>,
}

impl View for LoiTagged {
    type V = LoiTaggedV;

    open spec fn view(&self) -> LoiTaggedV {
        LoiTaggedV { unknown1: self.unknown1, items: self.items@ }
    }
}

pub struct Loi {
    pub unknown1: u32,
    pub version_date: u32,
    pub blocks: Vec<LoiBlock>,
    pub object_extras: Vec<LoiObjectExtra>,
    /// per block: a count-prefixed raw word list
    pub unknown_objects_2: Vec<LoiCounted>,
    pub unknown_objects_3: Vec<LoiTagged>,
    /// per block: a count, one tag word, then the raw words
    pub unknown_objects_4: Vec<LoiTagged>,
    /// per block: a count-prefixed list of object indices
    pub unknown_objects_5: Vec<LoiCounted>,
}

#[verifier::ext_equal]
pub struct LoiV {
    pub unknown1: u32,
    pub version_date: u32,
    pub blocks: Seq<LoiBlockV>,
    pub object_extras: Seq<LoiObjectExtra>,
    pub unknown_objects_2: Seq<LoiCountedV>,
    pub unknown_objects_3: Seq<LoiTaggedV>,
    pub unknown_objects_4: Seq<LoiTaggedV>,
    pub unknown_objects_5: Seq<LoiCountedV>,
}

impl View for Loi {
    type V = LoiV;

    open spec fn view(&self) -> LoiV {
        LoiV {
            unknown1: self.unknown1,
            version_date: self.version_date,
            blocks: self.blocks@.map_values(|b: LoiBlock| b@),
            object_extras: self.object_extras@,
            unknown_objects_2: self.unknown_objects_2@.map_values(|x: LoiCounted| x@),
            unknown_objects_3: self.unknown_objects_3@.map_values(|x: LoiTagged| x@),
            unknown_objects_4: self.unknown_objects_4@.map_values(|x: LoiTagged| x@),
            unknown_objects_5: self.unknown_objects_5@.map_values(|x: LoiCounted| x@),
        }
    }
}

pub open spec fn loi_magic() -> Seq<u8> {
    seq![76u8, 79u8, 73u8, 0u8, 107u8, 106u8, 99u8, 0u8]
}

fn loi_magic_vec() -> (v: Vec<u8>)
    ensures
        v@ == loi_magic(),
{
    let mut v: Vec<u8> = Vec::new();
    v.push(76);
    v.push(79);
    v.push(73);
    v.push(0);
    v.push(107);
    v.push(106);
    v.push(99);
    v.push(0);
    proof {
        assert(v@ =~= loi_magic());
    }
    v
}

pub open spec fn loi_obj_words(o: LoiObject) -> Seq<u32> {
    seq![o.unknown1, o.unknown2, o.unknown3, o.unknown4, o.object_index, o.block_index, o.model_table_index, o.position_x, o.position_y, o.position_z, o.rotation_00, o.rotation_01, o.rotation_02, o.rotation_10, o.rotation_11, o.rotation_12, o.rotation_20, o.rotation_21, o.rotation_22, o.scale, o.unknown8, o.unknown9, o.object_extra_index, o.unknown11]
}

pub open spec fn loi_obj_of_words(ws: Seq<u32>) -> LoiObject {
    LoiObject {
        unknown1: ws[0],
        unknown2: ws[1],
        unknown3: ws[2],
        unknown4: ws[3],
        object_index: ws[4],
        block_index: ws[5],
        model_table_index: ws[6],
        position_x: ws[7],
        position_y: ws[8],
        position_z: ws[9],
        rotation_00: ws[10],
        rotation_01: ws[11],
        rotation_02: ws[12],
        rotation_10: ws[13],
        rotation_11: ws[14],
        rotation_12: ws[15],
        rotation_20: ws[16],
        rotation_21: ws[17],
        rotation_22: ws[18],
        scale: ws[19],
        unknown8: ws[20],
        unknown9: ws[21],
        object_extra_index: ws[22],
        unknown11: ws[23],
    }
}

pub open spec fn loi_extra_words(x: LoiObjectExtra) -> Seq<u32> {
    seq![x.object_index, x.object_extra_index, x.unknown3, x.position_x, x.position_y, x.position_z, x.rotation_00, x.rotation_01, x.rotation_02, x.rotation_10, x.rotation_11, x.rotation_12, x.rotation_20, x.rotation_21, x.rotation_22, x.unknown4_x, x.unknown4_y, x.unknown4_z, x.unknown5]
}

pub open spec fn loi_extra_of_words(ws: Seq<u32>) -> LoiObjectExtra {
    LoiObjectExtra {
        object_index: ws[0],
        object_extra_index: ws[1],
        unknown3: ws[2],
        position_x: ws[3],
        position_y: ws[4],
        position_z: ws[5],
        rotation_00: ws[6],
        rotation_01: ws[7],
        rotation_02: ws[8],
        rotation_10: ws[9],
        rotation_11: ws[10],
        rotation_12: ws[11],
        rotation_20: ws[12],
        rotation_21: ws[13],
        rotation_22: ws[14],
        unknown4_x: ws[15],
        unknown4_y: ws[16],
        unknown4_z: ws[17],
        unknown5: ws[18],
    }
}

/// Flat word stream of an object list.
pub open spec fn loi_flat_objects(os: Seq<LoiObject>) -> Seq<u32>
    decreases os.len(),
{
    if os.len() == 0 {
        Seq::empty()
    } else {
        loi_obj_words(os[0]) + loi_flat_objects(os.drop_first())
    }
}

pub open spec fn loi_block_words(b: LoiBlockV) -> Seq<u32> {
    seq![b.block_index, b.objects.len() as u32] + loi_flat_objects(b.objects)
}

pub open spec fn loi_flat_blocks(bs: Seq<LoiBlockV>) -> Seq<u32>
    decreases bs.len(),
{
    if bs.len() == 0 {
        Seq::empty()
    } else {
        loi_block_words(bs[0]) + loi_flat_blocks(bs.drop_first())
    }
}

pub open spec fn loi_flat_extras(xs: Seq<LoiObjectExtra>) -> Seq<u32>
    decreases xs.len(),
{
    if xs.len() == 0 {
        Seq::empty()
    } else {
        loi_extra_words(xs[0]) + loi_flat_extras(xs.drop_first())
    }
}

pub open spec fn loi_counted_words(x: LoiCountedV) -> Seq<u32> {
    seq![x.items.len() as u32] + x.items
}

pub open spec fn loi_flat_counted(xs: Seq<LoiCountedV>) -> Seq<u32>
    decreases xs.len(),
{
    if xs.len() == 0 {
        Seq::empty()
    } else {
        loi_counted_words(xs[0]) + loi_flat_counted(xs.drop_first())
    }
}

pub open spec fn loi_tagged3_words(x: LoiTaggedV) -> Seq<u32> {
    seq![x.unknown1, x.items.len() as u32] + x.items
}

pub open spec fn loi_flat_tagged3(xs: Seq<LoiTaggedV>) -> Seq<u32>
    decreases xs.len(),
{
    if xs.len() == 0 {
        Seq::empty()
    } else {
        loi_tagged3_words(xs[0]) + loi_flat_tagged3(xs.drop_first())
    }
}

pub open spec fn loi_tagged4_words(x: LoiTaggedV) -> Seq<u32> {
    seq![x.items.len() as u32, x.unknown1] + x.items
}

pub open spec fn loi_flat_tagged4(xs: Seq<LoiTaggedV>) -> Seq<u32>
    decreases xs.len(),
{
    if xs.len() == 0 {
        Seq::empty()
    } else {
        loi_tagged4_words(xs[0]) + loi_flat_tagged4(xs.drop_first())
    }
}

/// Every word of the container after the magic, in file order; all
/// section counts are recomputed from the lists they prefix.
pub open spec fn loi_words(c: LoiV) -> Seq<u32> {
    seq![c.unknown1, c.version_date, c.blocks.len() as u32] + loi_flat_blocks(c.blocks) + seq![
        c.object_extras.len() as u32,
    ] + loi_flat_extras(c.object_extras) + loi_flat_counted(c.unknown_objects_2) + seq![
        c.unknown_objects_3.len() as u32,
    ] + loi_flat_tagged3(c.unknown_objects_3) + loi_flat_tagged4(c.unknown_objects_4)
        + loi_flat_counted(c.unknown_objects_5)
}

/// Canonical byte form of the whole container.
pub open spec fn loi_bytes(c: LoiV) -> Seq<u8> {
    loi_magic() + words_bytes(loi_words(c))
}

pub open spec fn pw_blocks(ws: Seq<u32>, off: int, n: nat) -> Option<(Seq<LoiBlockV>, int)>
    decreases n,
{
    if n == 0 {
        Some((Seq::empty(), off))
    } else if off + 2 <= ws.len() {
        let cnt = ws[off + 1] as int;
        if off + 2 + 24 * cnt <= ws.len() {
            let b = LoiBlockV {
                block_index: ws[off],
                objects: Seq::new(
                    cnt as nat,
                    |i: int| loi_obj_of_words(ws.subrange(off + 2 + 24 * i, off + 2 + 24 * i + 24)),
                ),
            };
            match pw_blocks(ws, off + 2 + 24 * cnt, (n - 1) as nat) {
                Some((rest, e)) => Some((seq![b] + rest, e)),
                None => None,
            }
        } else {
            None
        }
    } else {
        None
    }
}

pub open spec fn pw_counted(ws: Seq<u32>, off: int, n: nat) -> Option<(Seq<LoiCountedV>, int)>
    decreases n,
{
    if n == 0 {
        Some((Seq::empty(), off))
    } else if off + 1 <= ws.len() {
        let cnt = ws[off] as int;
        if off + 1 + cnt <= ws.len() {
            let x = LoiCountedV { items: ws.subrange(off + 1, off + 1 + cnt) };
            match pw_counted(ws, off + 1 + cnt, (n - 1) as nat) {
                Some((rest, e)) => Some((seq![x] + rest, e)),
                None => None,
            }
        } else {
            None
        }
    } else {
        None
    }
}

pub open spec fn pw_tagged3(ws: Seq<u32>, off: int, n: nat) -> Option<(Seq<LoiTaggedV>, int)>
    decreases n,
{
    if n == 0 {
        Some((Seq::empty(), off))
    } else if off + 2 <= ws.len() {
        let cnt = ws[off + 1] as int;
        if off + 2 + cnt <= ws.len() {
            let x = LoiTaggedV { unknown1: ws[off], items: ws.subrange(off + 2, off + 2 + cnt) };
            match pw_tagged3(ws, off + 2 + cnt, (n - 1) as nat) {
                Some((rest, e)) => Some((seq![x] + rest, e)),
                None => None,
            }
        } else {
            None
        }
    } else {
        None
    }
}

pub open spec fn pw_tagged4(ws: Seq<u32>, off: int, n: nat) -> Option<(Seq<LoiTaggedV>, int)>
    decreases n,
{
    if n == 0 {
        Some((Seq::empty(), off))
    } else if off + 2 <= ws.len() {
        let cnt = ws[off] as int;
        if off + 2 + cnt <= ws.len() {
            let x = LoiTaggedV { unknown1: ws[off + 1], items: ws.subrange(off + 2, off + 2 + cnt) };
            match pw_tagged4(ws, off + 2 + cnt, (n - 1) as nat) {
                Some((rest, e)) => Some((seq![x] + rest, e)),
                None => None,
            }
        } else {
            None
        }
    } else {
        None
    }
}

/// The whole container from its word stream; every word must be used.
pub open spec fn loi_from_words(ws: Seq<u32>) -> Option<LoiV> {
    if ws.len() >= 3 {
        let bc = ws[2] as int;
        match pw_blocks(ws, 3, bc as nat) {
            Some((bs, e1)) => if e1 + 1 <= ws.len() {
                let xc = ws[e1] as int;
                if e1 + 1 + 19 * xc <= ws.len() {
                    let xs = Seq::new(
                        xc as nat,
                        |i: int| loi_extra_of_words(
                            ws.subrange(e1 + 1 + 19 * i, e1 + 1 + 19 * i + 19),
                        ),
                    );
                    let e2 = e1 + 1 + 19 * xc;
                    match pw_counted(ws, e2, bc as nat) {
                        Some((u2, e3)) => if e3 + 1 <= ws.len() {
                            let tc = ws[e3] as int;
                            match pw_tagged3(ws, e3 + 1, tc as nat) {
                                Some((u3, e4)) => match pw_tagged4(ws, e4, bc as nat) {
                                    Some((u4, e5)) => match pw_counted(ws, e5, bc as nat) {
                                        Some((u5, e6)) => if e6 == ws.len() {
                                            Some(
                                                LoiV {
                                                    unknown1: ws[0],
                                                    version_date: ws[1],
                                                    blocks: bs,
                                                    object_extras: xs,
                                                    unknown_objects_2: u2,
                                                    unknown_objects_3: u3,
                                                    unknown_objects_4: u4,
                                                    unknown_objects_5: u5,
                                                },
                                            )
                                        } else {
                                            None
                                        },
                                        None => None,
                                    },
                                    None => None,
                                },
                                None => None,
                            }
                        } else {
                            None
                        },
                        None => None,
                    }
                } else {
                    None
                }
            } else {
                None
            },
            None => None,
        }
    } else {
        None
    }
}

/// The header and every section read from the front of `b`; the whole
/// buffer must be consumed, word-aligned after the magic.
pub open spec fn loi_parse_spec(b: Seq<u8>) -> Option<LoiV> {
    if b.len() >= 8 && b.subrange(0, 8) == loi_magic() && (b.len() - 8) % 4 == 0 {
        loi_from_words(words_at(b, 8, ((b.len() - 8) / 4) as nat))
    } else {
        None
    }
}

/// Objects sliced at fixed stride concatenate back to the word range.
proof fn lemma_loi_obj_slice(ws: Seq<u32>, base: int, cnt: int)
    requires
        0 <= base,
        cnt >= 0,
        base + 24 * cnt <= ws.len(),
    ensures
        loi_flat_objects(
            Seq::new(cnt as nat, |i: int| loi_obj_of_words(ws.subrange(base + 24 * i, base + 24 * i + 24))),
        ) == ws.subrange(base, base + 24 * cnt),
    decreases cnt,
{
    let os = Seq::new(cnt as nat, |i: int| loi_obj_of_words(ws.subrange(base + 24 * i, base + 24 * i + 24)));
    if cnt == 0 {
        assert(loi_flat_objects(os) =~= ws.subrange(base, base));
    } else {
        lemma_loi_obj_slice(ws, base + 24, cnt - 1);
        let rest = Seq::new((cnt - 1) as nat, |i: int| loi_obj_of_words(ws.subrange(base + 24 + 24 * i, base + 24 + 24 * i + 24)));
        assert(os.drop_first() =~= rest);
        assert(loi_obj_words(os[0]) =~= ws.subrange(base, base + 24));
        assert(loi_flat_objects(os) == loi_obj_words(os[0]) + loi_flat_objects(rest));
        assert(ws.subrange(base, base + 24) + ws.subrange(base + 24, base + 24 * cnt) =~= ws.subrange(base, base + 24 * cnt));
    }
}

/// Transform overrides sliced at fixed stride concatenate back likewise.
proof fn lemma_loi_extra_slice(ws: Seq<u32>, base: int, cnt: int)
    requires
        0 <= base,
        cnt >= 0,
        base + 19 * cnt <= ws.len(),
    ensures
        loi_flat_extras(
            Seq::new(cnt as nat, |i: int| loi_extra_of_words(ws.subrange(base + 19 * i, base + 19 * i + 19))),
        ) == ws.subrange(base, base + 19 * cnt),
    decreases cnt,
{
    let os = Seq::new(cnt as nat, |i: int| loi_extra_of_words(ws.subrange(base + 19 * i, base + 19 * i + 19)));
    if cnt == 0 {
        assert(loi_flat_extras(os) =~= ws.subrange(base, base));
    } else {
        lemma_loi_extra_slice(ws, base + 19, cnt - 1);
        let rest = Seq::new((cnt - 1) as nat, |i: int| loi_extra_of_words(ws.subrange(base + 19 + 19 * i, base + 19 + 19 * i + 19)));
        assert(os.drop_first() =~= rest);
        assert(loi_extra_words(os[0]) =~= ws.subrange(base, base + 19));
        assert(loi_flat_extras(os) == loi_extra_words(os[0]) + loi_flat_extras(rest));
        assert(ws.subrange(base, base + 19) + ws.subrange(base + 19, base + 19 * cnt) =~= ws.subrange(base, base + 19 * cnt));
    }
}

proof fn lemma_pw_blocks_words(ws: Seq<u32>, off: int, n: nat)
    requires
        0 <= off <= ws.len(),
        pw_blocks(ws, off, n) is Some,
    ensures
        ({
            let (bs, e) = pw_blocks(ws, off, n)->Some_0;
            &&& off <= e <= ws.len()
            &&& bs.len() == n
            &&& (forall|i: int| 0 <= i < bs.len() ==> (#[trigger] bs[i]).objects.len() <= u32::MAX)
            &&& loi_flat_blocks(bs) == ws.subrange(off, e)
        }),
    decreases n,
{
    let (bs, e) = pw_blocks(ws, off, n)->Some_0;
    if n == 0 {
        assert(loi_flat_blocks(bs) =~= ws.subrange(off, off));
    } else {
        let cnt = ws[off + 1] as int;
        let b0 = pw_blocks(ws, off, n)->Some_0.0[0];
        lemma_pw_blocks_words(ws, off + 2 + 24 * cnt, (n - 1) as nat);
        let (rest, e2) = pw_blocks(ws, off + 2 + 24 * cnt, (n - 1) as nat)->Some_0;
        assert(bs == seq![b0] + rest);
        lemma_loi_obj_slice(ws, off + 2, cnt);
        assert(loi_block_words(b0) =~= ws.subrange(off, off + 2 + 24 * cnt)) by {
            assert(seq![b0.block_index, b0.objects.len() as u32] =~= ws.subrange(off, off + 2));
            assert(ws.subrange(off, off + 2) + ws.subrange(off + 2, off + 2 + 24 * cnt) =~= ws.subrange(off, off + 2 + 24 * cnt));
        }
        assert(bs.drop_first() =~= rest);
        assert(bs[0] == b0);
        assert(loi_flat_blocks(bs) == loi_block_words(b0) + loi_flat_blocks(rest));
        assert(ws.subrange(off, off + 2 + 24 * cnt) + ws.subrange(off + 2 + 24 * cnt, e) =~= ws.subrange(off, e));
        assert forall|i: int| 0 <= i < bs.len() implies (#[trigger] bs[i]).objects.len() <= u32::MAX by {
            if i > 0 {
                assert(bs[i] == rest[i - 1]);
            }
        }
    }
}

proof fn lemma_pw_counted_words(ws: Seq<u32>, off: int, n: nat)
    requires
        0 <= off <= ws.len(),
        pw_counted(ws, off, n) is Some,
    ensures
        ({
            let (xs, e) = pw_counted(ws, off, n)->Some_0;
            &&& off <= e <= ws.len()
            &&& xs.len() == n
            &&& (forall|i: int| 0 <= i < xs.len() ==> (#[trigger] xs[i]).items.len() <= u32::MAX)
            &&& loi_flat_counted(xs) == ws.subrange(off, e)
        }),
    decreases n,
{
    let (xs, e) = pw_counted(ws, off, n)->Some_0;
    if n == 0 {
        assert(loi_flat_counted(xs) =~= ws.subrange(off, off));
    } else {
        let cnt = ws[off] as int;
        let x0 = pw_counted(ws, off, n)->Some_0.0[0];
        lemma_pw_counted_words(ws, off + 1 + cnt, (n - 1) as nat);
        let (rest, e2) = pw_counted(ws, off + 1 + cnt, (n - 1) as nat)->Some_0;
        assert(xs == seq![x0] + rest);
        assert(loi_counted_words(x0) =~= ws.subrange(off, off + 1 + cnt));
        assert(xs.drop_first() =~= rest);
        assert(xs[0] == x0);
        assert(loi_flat_counted(xs) == loi_counted_words(x0) + loi_flat_counted(rest));
        assert(ws.subrange(off, off + 1 + cnt) + ws.subrange(off + 1 + cnt, e) =~= ws.subrange(off, e));
        assert forall|i: int| 0 <= i < xs.len() implies (#[trigger] xs[i]).items.len() <= u32::MAX by {
            if i > 0 {
                assert(xs[i] == rest[i - 1]);
            }
        }
    }
}

proof fn lemma_pw_tagged3_words(ws: Seq<u32>, off: int, n: nat)
    requires
        0 <= off <= ws.len(),
        pw_tagged3(ws, off, n) is Some,
    ensures
        ({
            let (xs, e) = pw_tagged3(ws, off, n)->Some_0;
            &&& off <= e <= ws.len()
            &&& xs.len() == n
            &&& (forall|i: int| 0 <= i < xs.len() ==> (#[trigger] xs[i]).items.len() <= u32::MAX)
            &&& loi_flat_tagged3(xs) == ws.subrange(off, e)
        }),
    decreases n,
{
    let (xs, e) = pw_tagged3(ws, off, n)->Some_0;
    if n == 0 {
        assert(loi_flat_tagged3(xs) =~= ws.subrange(off, off));
    } else {
        let cnt = ws[off + 1] as int;
        let x0 = pw_tagged3(ws, off, n)->Some_0.0[0];
        lemma_pw_tagged3_words(ws, off + 2 + cnt, (n - 1) as nat);
        let (rest, e2) = pw_tagged3(ws, off + 2 + cnt, (n - 1) as nat)->Some_0;
        assert(xs == seq![x0] + rest);
        assert(loi_tagged3_words(x0) =~= ws.subrange(off, off + 2 + cnt));
        assert(xs.drop_first() =~= rest);
        assert(xs[0] == x0);
        assert(loi_flat_tagged3(xs) == loi_tagged3_words(x0) + loi_flat_tagged3(rest));
        assert(ws.subrange(off, off + 2 + cnt) + ws.subrange(off + 2 + cnt, e) =~= ws.subrange(off, e));
        assert forall|i: int| 0 <= i < xs.len() implies (#[trigger] xs[i]).items.len() <= u32::MAX by {
            if i > 0 {
                assert(xs[i] == rest[i - 1]);
            }
        }
    }
}

proof fn lemma_pw_tagged4_words(ws: Seq<u32>, off: int, n: nat)
    requires
        0 <= off <= ws.len(),
        pw_tagged4(ws, off, n) is Some,
    ensures
        ({
            let (xs, e) = pw_tagged4(ws, off, n)->Some_0;
            &&& off <= e <= ws.len()
            &&& xs.len() == n
            &&& (forall|i: int| 0 <= i < xs.len() ==> (#[trigger] xs[i]).items.len() <= u32::MAX)
            &&& loi_flat_tagged4(xs) == ws.subrange(off, e)
        }),
    decreases n,
{
    let (xs, e) = pw_tagged4(ws, off, n)->Some_0;
    if n == 0 {
        assert(loi_flat_tagged4(xs) =~= ws.subrange(off, off));
    } else {
        let cnt = ws[off] as int;
        let x0 = pw_tagged4(ws, off, n)->Some_0.0[0];
        lemma_pw_tagged4_words(ws, off + 2 + cnt, (n - 1) as nat);
        let (rest, e2) = pw_tagged4(ws, off + 2 + cnt, (n - 1) as nat)->Some_0;
        assert(xs == seq![x0] + rest);
        assert(loi_tagged4_words(x0) =~= ws.subrange(off, off + 2 + cnt));
        assert(xs.drop_first() =~= rest);
        assert(xs[0] == x0);
        assert(loi_flat_tagged4(xs) == loi_tagged4_words(x0) + loi_flat_tagged4(rest));
        assert(ws.subrange(off, off + 2 + cnt) + ws.subrange(off + 2 + cnt, e) =~= ws.subrange(off, e));
        assert forall|i: int| 0 <= i < xs.len() implies (#[trigger] xs[i]).items.len() <= u32::MAX by {
            if i > 0 {
                assert(xs[i] == rest[i - 1]);
            }
        }
    }
}

pub open spec fn loi_wf(c: LoiV) -> bool {
    &&& c.blocks.len() <= u32::MAX
    &&& (forall|i: int| 0 <= i < c.blocks.len() ==> (#[trigger] c.blocks[i]).objects.len() <= u32::MAX)
    &&& c.object_extras.len() <= u32::MAX
    &&& c.unknown_objects_2.len() == c.blocks.len()
    &&& c.unknown_objects_3.len() <= u32::MAX
    &&& c.unknown_objects_4.len() == c.blocks.len()
    &&& c.unknown_objects_5.len() == c.blocks.len()
    &&& (forall|i: int| 0 <= i < c.unknown_objects_2.len() ==> (#[trigger] c.unknown_objects_2[i]).items.len() <= u32::MAX)
    &&& (forall|i: int| 0 <= i < c.unknown_objects_3.len() ==> (#[trigger] c.unknown_objects_3[i]).items.len() <= u32::MAX)
    &&& (forall|i: int| 0 <= i < c.unknown_objects_4.len() ==> (#[trigger] c.unknown_objects_4[i]).items.len() <= u32::MAX)
    &&& (forall|i: int| 0 <= i < c.unknown_objects_5.len() ==> (#[trigger] c.unknown_objects_5[i]).items.len() <= u32::MAX)
}

/// An accepted word stream re-serializes to exactly itself: the
/// object-instance round trip at word level.
pub proof fn lemma_loi_from_words_roundtrip(ws: Seq<u32>)
    requires
        loi_from_words(ws) is Some,
    ensures
        loi_wf(loi_from_words(ws)->Some_0),
        loi_words(loi_from_words(ws)->Some_0) == ws,
{
    let c = loi_from_words(ws)->Some_0;
    let bc = ws[2] as int;
    lemma_pw_blocks_words(ws, 3, bc as nat);
    let (bs, e1) = pw_blocks(ws, 3, bc as nat)->Some_0;
    let xc = ws[e1] as int;
    let e2 = e1 + 1 + 19 * xc;
    assert(19 * xc >= 0) by (nonlinear_arith)
        requires
            xc >= 0,
    ;
    lemma_loi_extra_slice(ws, e1 + 1, xc);
    lemma_pw_counted_words(ws, e2, bc as nat);
    let (u2, e3) = pw_counted(ws, e2, bc as nat)->Some_0;
    let tc = ws[e3] as int;
    lemma_pw_tagged3_words(ws, e3 + 1, tc as nat);
    let (u3, e4) = pw_tagged3(ws, e3 + 1, tc as nat)->Some_0;
    lemma_pw_tagged4_words(ws, e4, bc as nat);
    let (u4, e5) = pw_tagged4(ws, e4, bc as nat)->Some_0;
    lemma_pw_counted_words(ws, e5, bc as nat);
    let (u5, e6) = pw_counted(ws, e5, bc as nat)->Some_0;
    assert(seq![c.unknown1, c.version_date, c.blocks.len() as u32] =~= ws.subrange(0, 3));
    assert(seq![c.object_extras.len() as u32] =~= ws.subrange(e1, e1 + 1));
    assert(seq![c.unknown_objects_3.len() as u32] =~= ws.subrange(e3, e3 + 1));
    assert(loi_words(c) =~= ws.subrange(0, 3) + ws.subrange(3, e1) + ws.subrange(e1, e1 + 1)
        + ws.subrange(e1 + 1, e2) + ws.subrange(e2, e3) + ws.subrange(e3, e3 + 1) + ws.subrange(
        e3 + 1,
        e4,
    ) + ws.subrange(e4, e5) + ws.subrange(e5, e6));
    assert(loi_words(c) =~= ws);
}

/// What the parser accepts re-serializes to exactly the bytes it read:
/// the object-instance round trip, byte for byte.
pub proof fn lemma_loi_parse_bytes(b: Seq<u8>)
    requires
        loi_parse_spec(b) is Some,
    ensures
        loi_wf(loi_parse_spec(b)->Some_0),
        loi_bytes(loi_parse_spec(b)->Some_0) == b,
{
    let nw = ((b.len() - 8) / 4) as nat;
    let ws = words_at(b, 8, nw);
    lemma_loi_from_words_roundtrip(ws);
    lemma_words_at_bytes(b, 8, nw);
    assert(8 + 4 * nw == b.len());
    assert(loi_bytes(loi_parse_spec(b)->Some_0) =~= b.subrange(0, 8) + b.subrange(8, b.len() as int));
    assert(b.subrange(0, 8) + b.subrange(8, b.len() as int) =~= b);
}

proof fn lemma_loi_flat_objects_push(a: Seq<LoiObject>, x: LoiObject)
    ensures
        loi_flat_objects(a.push(x)) == loi_flat_objects(a) + loi_obj_words(x),
    decreases a.len(),
{
    if a.len() == 0 {
        let s = a.push(x);
        assert(s.drop_first() =~= Seq::<LoiObject>::empty());
        assert(loi_flat_objects(s) == loi_obj_words(x) + loi_flat_objects(s.drop_first()));
        assert(loi_obj_words(x) + Seq::<u32>::empty() =~= loi_obj_words(x));
        assert(Seq::<u32>::empty() + loi_obj_words(x) =~= loi_obj_words(x));
    } else {
        lemma_loi_flat_objects_push(a.drop_first(), x);
        assert(a.push(x).drop_first() =~= a.drop_first().push(x));
        assert(a.push(x)[0] == a[0]);
        assert(loi_obj_words(a[0]) + (loi_flat_objects(a.drop_first()) + loi_obj_words(x)) =~= (loi_obj_words(a[0])
            + loi_flat_objects(a.drop_first())) + loi_obj_words(x));
    }
}

proof fn lemma_loi_flat_blocks_push(a: Seq<LoiBlockV>, x: LoiBlockV)
    ensures
        loi_flat_blocks(a.push(x)) == loi_flat_blocks(a) + loi_block_words(x),
    decreases a.len(),
{
    if a.len() == 0 {
        let s = a.push(x);
        assert(s.drop_first() =~= Seq::<LoiBlockV>::empty());
        assert(loi_flat_blocks(s) == loi_block_words(x) + loi_flat_blocks(s.drop_first()));
        assert(loi_block_words(x) + Seq::<u32>::empty() =~= loi_block_words(x));
        assert(Seq::<u32>::empty() + loi_block_words(x) =~= loi_block_words(x));
    } else {
        lemma_loi_flat_blocks_push(a.drop_first(), x);
        assert(a.push(x).drop_first() =~= a.drop_first().push(x));
        assert(a.push(x)[0] == a[0]);
        assert(loi_block_words(a[0]) + (loi_flat_blocks(a.drop_first()) + loi_block_words(x)) =~= (loi_block_words(a[0])
            + loi_flat_blocks(a.drop_first())) + loi_block_words(x));
    }
}

proof fn lemma_loi_flat_extras_push(a: Seq<LoiObjectExtra>, x: LoiObjectExtra)
    ensures
        loi_flat_extras(a.push(x)) == loi_flat_extras(a) + loi_extra_words(x),
    decreases a.len(),
{
    if a.len() == 0 {
        let s = a.push(x);
        assert(s.drop_first() =~= Seq::<LoiObjectExtra>::empty());
        assert(loi_flat_extras(s) == loi_extra_words(x) + loi_flat_extras(s.drop_first()));
        assert(loi_extra_words(x) + Seq::<u32>::empty() =~= loi_extra_words(x));
        assert(Seq::<u32>::empty() + loi_extra_words(x) =~= loi_extra_words(x));
    } else {
        lemma_loi_flat_extras_push(a.drop_first(), x);
        assert(a.push(x).drop_first() =~= a.drop_first().push(x));
        assert(a.push(x)[0] == a[0]);
        assert(loi_extra_words(a[0]) + (loi_flat_extras(a.drop_first()) + loi_extra_words(x)) =~= (loi_extra_words(a[0])
            + loi_flat_extras(a.drop_first())) + loi_extra_words(x));
    }
}

proof fn lemma_loi_flat_counted_push(a: Seq<LoiCountedV>, x: LoiCountedV)
    ensures
        loi_flat_counted(a.push(x)) == loi_flat_counted(a) + loi_counted_words(x),
    decreases a.len(),
{
    if a.len() == 0 {
        let s = a.push(x);
        assert(s.drop_first() =~= Seq::<LoiCountedV>::empty());
        assert(loi_flat_counted(s) == loi_counted_words(x) + loi_flat_counted(s.drop_first()));
        assert(loi_counted_words(x) + Seq::<u32>::empty() =~= loi_counted_words(x));
        assert(Seq::<u32>::empty() + loi_counted_words(x) =~= loi_counted_words(x));
    } else {
        lemma_loi_flat_counted_push(a.drop_first(), x);
        assert(a.push(x).drop_first() =~= a.drop_first().push(x));
        assert(a.push(x)[0] == a[0]);
        assert(loi_counted_words(a[0]) + (loi_flat_counted(a.drop_first()) + loi_counted_words(x)) =~= (loi_counted_words(a[0])
            + loi_flat_counted(a.drop_first())) + loi_counted_words(x));
    }
}

proof fn lemma_loi_flat_tagged3_push(a: Seq<LoiTaggedV>, x: LoiTaggedV)
    ensures
        loi_flat_tagged3(a.push(x)) == loi_flat_tagged3(a) + loi_tagged3_words(x),
    decreases a.len(),
{
    if a.len() == 0 {
        let s = a.push(x);
        assert(s.drop_first() =~= Seq::<LoiTaggedV>::empty());
        assert(loi_flat_tagged3(s) == loi_tagged3_words(x) + loi_flat_tagged3(s.drop_first()));
        assert(loi_tagged3_words(x) + Seq::<u32>::empty() =~= loi_tagged3_words(x));
        assert(Seq::<u32>::empty() + loi_tagged3_words(x) =~= loi_tagged3_words(x));
    } else {
        lemma_loi_flat_tagged3_push(a.drop_first(), x);
        assert(a.push(x).drop_first() =~= a.drop_first().push(x));
        assert(a.push(x)[0] == a[0]);
        assert(loi_tagged3_words(a[0]) + (loi_flat_tagged3(a.drop_first()) + loi_tagged3_words(x)) =~= (loi_tagged3_words(a[0])
            + loi_flat_tagged3(a.drop_first())) + loi_tagged3_words(x));
    }
}

proof fn lemma_loi_flat_tagged4_push(a: Seq<LoiTaggedV>, x: LoiTaggedV)
    ensures
        loi_flat_tagged4(a.push(x)) == loi_flat_tagged4(a) + loi_tagged4_words(x),
    decreases a.len(),
{
    if a.len() == 0 {
        let s = a.push(x);
        assert(s.drop_first() =~= Seq::<LoiTaggedV>::empty());
        assert(loi_flat_tagged4(s) == loi_tagged4_words(x) + loi_flat_tagged4(s.drop_first()));
        assert(loi_tagged4_words(x) + Seq::<u32>::empty() =~= loi_tagged4_words(x));
        assert(Seq::<u32>::empty() + loi_tagged4_words(x) =~= loi_tagged4_words(x));
    } else {
        lemma_loi_flat_tagged4_push(a.drop_first(), x);
        assert(a.push(x).drop_first() =~= a.drop_first().push(x));
        assert(a.push(x)[0] == a[0]);
        assert(loi_tagged4_words(a[0]) + (loi_flat_tagged4(a.drop_first()) + loi_tagged4_words(x)) =~= (loi_tagged4_words(a[0])
            + loi_flat_tagged4(a.drop_first())) + loi_tagged4_words(x));
    }
}

fn push_obj_words(v: &mut Vec<u32>, o: &LoiObject)
    ensures
        final(v)@ == old(v)@ + loi_obj_words(*o),
{
    v.push(o.unknown1);
    v.push(o.unknown2);
    v.push(o.unknown3);
    v.push(o.unknown4);
    v.push(o.object_index);
    v.push(o.block_index);
    v.push(o.model_table_index);
    v.push(o.position_x);
    v.push(o.position_y);
    v.push(o.position_z);
    v.push(o.rotation_00);
    v.push(o.rotation_01);
    v.push(o.rotation_02);
    v.push(o.rotation_10);
    v.push(o.rotation_11);
    v.push(o.rotation_12);
    v.push(o.rotation_20);
    v.push(o.rotation_21);
    v.push(o.rotation_22);
    v.push(o.scale);
    v.push(o.unknown8);
    v.push(o.unknown9);
    v.push(o.object_extra_index);
    v.push(o.unknown11);
    proof {
        assert(final(v)@ =~= old(v)@ + loi_obj_words(*o));
    }
}

fn push_extra_words(v: &mut Vec<u32>, x: &LoiObjectExtra)
    ensures
        final(v)@ == old(v)@ + loi_extra_words(*x),
{
    v.push(x.object_index);
    v.push(x.object_extra_index);
    v.push(x.unknown3);
    v.push(x.position_x);
    v.push(x.position_y);
    v.push(x.position_z);
    v.push(x.rotation_00);
    v.push(x.rotation_01);
    v.push(x.rotation_02);
    v.push(x.rotation_10);
    v.push(x.rotation_11);
    v.push(x.rotation_12);
    v.push(x.rotation_20);
    v.push(x.rotation_21);
    v.push(x.rotation_22);
    v.push(x.unknown4_x);
    v.push(x.unknown4_y);
    v.push(x.unknown4_z);
    v.push(x.unknown5);
    proof {
        assert(final(v)@ =~= old(v)@ + loi_extra_words(*x));
    }
}

fn obj_from_words(ws: &Vec<u32>, base: usize) -> (o: LoiObject)
    requires
        base + 24 <= ws@.len(),
    ensures
        o == loi_obj_of_words(ws@.subrange(base as int, base + 24)),
{
    let l = ws.len();
    let o = LoiObject {
        unknown1: ws[base + 0],
        unknown2: ws[base + 1],
        unknown3: ws[base + 2],
        unknown4: ws[base + 3],
        object_index: ws[base + 4],
        block_index: ws[base + 5],
        model_table_index: ws[base + 6],
        position_x: ws[base + 7],
        position_y: ws[base + 8],
        position_z: ws[base + 9],
        rotation_00: ws[base + 10],
        rotation_01: ws[base + 11],
        rotation_02: ws[base + 12],
        rotation_10: ws[base + 13],
        rotation_11: ws[base + 14],
        rotation_12: ws[base + 15],
        rotation_20: ws[base + 16],
        rotation_21: ws[base + 17],
        rotation_22: ws[base + 18],
        scale: ws[base + 19],
        unknown8: ws[base + 20],
        unknown9: ws[base + 21],
        object_extra_index: ws[base + 22],
        unknown11: ws[base + 23],
    };
    proof {
        assert(o =~= loi_obj_of_words(ws@.subrange(base as int, base + 24)));
    }
    o
}

fn extra_from_words(ws: &Vec<u32>, base: usize) -> (x: LoiObjectExtra)
    requires
        base + 19 <= ws@.len(),
    ensures
        x == loi_extra_of_words(ws@.subrange(base as int, base + 19)),
{
    let l = ws.len();
    let x = LoiObjectExtra {
        object_index: ws[base + 0],
        object_extra_index: ws[base + 1],
        unknown3: ws[base + 2],
        position_x: ws[base + 3],
        position_y: ws[base + 4],
        position_z: ws[base + 5],
        rotation_00: ws[base + 6],
        rotation_01: ws[base + 7],
        rotation_02: ws[base + 8],
        rotation_10: ws[base + 9],
        rotation_11: ws[base + 10],
        rotation_12: ws[base + 11],
        rotation_20: ws[base + 12],
        rotation_21: ws[base + 13],
        rotation_22: ws[base + 14],
        unknown4_x: ws[base + 15],
        unknown4_y: ws[base + 16],
        unknown4_z: ws[base + 17],
        unknown5: ws[base + 18],
    };
    proof {
        assert(x =~= loi_extra_of_words(ws@.subrange(base as int, base + 19)));
    }
    x
}

/// Every word of the container, in file order.
#[verifier::loop_isolation(false)]
#[verifier::rlimit(100)]
fn loi_words_vec(c: &Loi) -> (v: Vec<u32>)
    requires
        loi_wf(c@),
    ensures
        v@ == loi_words(c@),
{
    let mut v: Vec<u32> = Vec::new();
    v.push(c.unknown1);
    v.push(c.version_date);
    v.push(c.blocks.len() as u32);
    let ghost pre0 = seq![c@.unknown1, c@.version_date, c@.blocks.len() as u32];
    proof {
        assert(v@ =~= pre0 + loi_flat_blocks(c@.blocks.take(0)));
    }
    let nb = c.blocks.len();
    let mut i: usize = 0;
    while i < nb
        invariant
            i <= nb,
            v@ == pre0 + loi_flat_blocks(c@.blocks.take(i as int)),
        decreases nb - i,
    {
        let b = &c.blocks[i];
        let ghost vpre = v@;
        v.push(b.block_index);
        v.push(b.objects.len() as u32);
        let no = b.objects.len();
        let mut j: usize = 0;
        while j < no
            invariant
                j <= no,
                no == b.objects@.len(),
                v@ == vpre + seq![b@.block_index, b@.objects.len() as u32] + loi_flat_objects(
                    b@.objects.take(j as int),
                ),
            decreases no - j,
        {
            push_obj_words(&mut v, &b.objects[j]);
            j = j + 1;
            proof {
                lemma_loi_flat_objects_push(b@.objects.take(j - 1), b@.objects[j - 1]);
                assert(b@.objects.take(j as int) =~= b@.objects.take(j - 1).push(
                    b@.objects[j - 1],
                ));
                assert(v@ =~= vpre + seq![b@.block_index, b@.objects.len() as u32]
                    + loi_flat_objects(b@.objects.take(j as int)));
            }
        }
        i = i + 1;
        proof {
            assert(b@.objects.take(no as int) =~= b@.objects);
            assert(v@ =~= vpre + loi_block_words(c@.blocks[i - 1]));
            lemma_loi_flat_blocks_push(c@.blocks.take(i - 1), c@.blocks[i - 1]);
            assert(c@.blocks.take(i as int) =~= c@.blocks.take(i - 1).push(c@.blocks[i - 1]));
            assert(v@ =~= pre0 + loi_flat_blocks(c@.blocks.take(i as int)));
        }
    }
    proof {
        assert(c@.blocks.take(nb as int) =~= c@.blocks);
    }
    v.push(c.object_extras.len() as u32);
    let ghost pre1 = pre0 + loi_flat_blocks(c@.blocks) + seq![c@.object_extras.len() as u32];
    proof {
        assert(v@ =~= pre1 + loi_flat_extras(c@.object_extras.take(0)));
    }
    let nx = c.object_extras.len();
    let mut ix: usize = 0;
    while ix < nx
        invariant
            ix <= nx,
            v@ == pre1 + loi_flat_extras(c@.object_extras.take(ix as int)),
        decreases nx - ix,
    {
        push_extra_words(&mut v, &c.object_extras[ix]);
        ix = ix + 1;
        proof {
            lemma_loi_flat_extras_push(c@.object_extras.take(ix - 1), c@.object_extras[ix - 1]);
            assert(c@.object_extras.take(ix as int) =~= c@.object_extras.take(ix - 1).push(
                c@.object_extras[ix - 1],
            ));
            assert(v@ =~= pre1 + loi_flat_extras(c@.object_extras.take(ix as int)));
        }
    }
    proof {
        assert(c@.object_extras.take(nx as int) =~= c@.object_extras);
    }
    let ghost pre2 = pre1 + loi_flat_extras(c@.object_extras);
    proof {
        assert(v@ =~= pre2 + loi_flat_counted(c@.unknown_objects_2.take(0)));
    }
    let n2 = c.unknown_objects_2.len();
    let mut i2: usize = 0;
    while i2 < n2
        invariant
            i2 <= n2,
            v@ == pre2 + loi_flat_counted(c@.unknown_objects_2.take(i2 as int)),
        decreases n2 - i2,
    {
        let x = &c.unknown_objects_2[i2];
        v.push(x.items.len() as u32);
        crate::bytes::push_all(&mut v, &x.items);
        i2 = i2 + 1;
        proof {
            lemma_loi_flat_counted_push(
                c@.unknown_objects_2.take(i2 - 1),
                c@.unknown_objects_2[i2 - 1],
            );
            assert(c@.unknown_objects_2.take(i2 as int) =~= c@.unknown_objects_2.take(i2 - 1).push(
                c@.unknown_objects_2[i2 - 1],
            ));
            assert(v@ =~= pre2 + loi_flat_counted(c@.unknown_objects_2.take(i2 as int)));
        }
    }
    proof {
        assert(c@.unknown_objects_2.take(n2 as int) =~= c@.unknown_objects_2);
    }
    v.push(c.unknown_objects_3.len() as u32);
    let ghost pre3 = pre2 + loi_flat_counted(c@.unknown_objects_2) + seq![
        c@.unknown_objects_3.len() as u32,
    ];
    proof {
        assert(v@ =~= pre3 + loi_flat_tagged3(c@.unknown_objects_3.take(0)));
    }
    let n3 = c.unknown_objects_3.len();
    let mut i3: usize = 0;
    while i3 < n3
        invariant
            i3 <= n3,
            v@ == pre3 + loi_flat_tagged3(c@.unknown_objects_3.take(i3 as int)),
        decreases n3 - i3,
    {
        let x = &c.unknown_objects_3[i3];
        v.push(x.unknown1);
        v.push(x.items.len() as u32);
        crate::bytes::push_all(&mut v, &x.items);
        i3 = i3 + 1;
        proof {
            lemma_loi_flat_tagged3_push(
                c@.unknown_objects_3.take(i3 - 1),
                c@.unknown_objects_3[i3 - 1],
            );
            assert(c@.unknown_objects_3.take(i3 as int) =~= c@.unknown_objects_3.take(i3 - 1).push(
                c@.unknown_objects_3[i3 - 1],
            ));
            assert(v@ =~= pre3 + loi_flat_tagged3(c@.unknown_objects_3.take(i3 as int)));
        }
    }
    proof {
        assert(c@.unknown_objects_3.take(n3 as int) =~= c@.unknown_objects_3);
    }
    let ghost pre4 = pre3 + loi_flat_tagged3(c@.unknown_objects_3);
    proof {
        assert(v@ =~= pre4 + loi_flat_tagged4(c@.unknown_objects_4.take(0)));
    }
    let n4 = c.unknown_objects_4.len();
    let mut i4: usize = 0;
    while i4 < n4
        invariant
            i4 <= n4,
            v@ == pre4 + loi_flat_tagged4(c@.unknown_objects_4.take(i4 as int)),
        decreases n4 - i4,
    {
        let x = &c.unknown_objects_4[i4];
        v.push(x.items.len() as u32);
        v.push(x.unknown1);
        crate::bytes::push_all(&mut v, &x.items);
        i4 = i4 + 1;
        proof {
            lemma_loi_flat_tagged4_push(
                c@.unknown_objects_4.take(i4 - 1),
                c@.unknown_objects_4[i4 - 1],
            );
            assert(c@.unknown_objects_4.take(i4 as int) =~= c@.unknown_objects_4.take(i4 - 1).push(
                c@.unknown_objects_4[i4 - 1],
            ));
            assert(v@ =~= pre4 + loi_flat_tagged4(c@.unknown_objects_4.take(i4 as int)));
        }
    }
    proof {
        assert(c@.unknown_objects_4.take(n4 as int) =~= c@.unknown_objects_4);
    }
    let ghost pre5 = pre4 + loi_flat_tagged4(c@.unknown_objects_4);
    proof {
        assert(v@ =~= pre5 + loi_flat_counted(c@.unknown_objects_5.take(0)));
    }
    let n5 = c.unknown_objects_5.len();
    let mut i5: usize = 0;
    while i5 < n5
        invariant
            i5 <= n5,
            v@ == pre5 + loi_flat_counted(c@.unknown_objects_5.take(i5 as int)),
        decreases n5 - i5,
    {
        let x = &c.unknown_objects_5[i5];
        v.push(x.items.len() as u32);
        crate::bytes::push_all(&mut v, &x.items);
        i5 = i5 + 1;
        proof {
            lemma_loi_flat_counted_push(
                c@.unknown_objects_5.take(i5 - 1),
                c@.unknown_objects_5[i5 - 1],
            );
            assert(c@.unknown_objects_5.take(i5 as int) =~= c@.unknown_objects_5.take(i5 - 1).push(
                c@.unknown_objects_5[i5 - 1],
            ));
            assert(v@ =~= pre5 + loi_flat_counted(c@.unknown_objects_5.take(i5 as int)));
        }
    }
    proof {
        assert(c@.unknown_objects_5.take(n5 as int) =~= c@.unknown_objects_5);
        assert(v@ =~= loi_words(c@));
    }
    v
}

/// Write a container to its canonical byte form; fails only where the
/// output cannot exist in this address space.
pub fn loi_write(c: &Loi) -> (r: Result<Vec<u8>, Error>)
    requires
        loi_wf(c@),
    ensures
        match r {
            Ok(out) => out@ == loi_bytes(c@),
            Err(e) => {
                &&& e == Error::Format
                &&& 8 + 4 * loi_words(c@).len() > usize::MAX
            },
        },
{
    let ws = loi_words_vec(c);
    if ws.len() > (usize::MAX - 8) / 4 {
        return Err(Error::Format);
    }
    let mut sink = Sink::new();
    let mv = loi_magic_vec();
    sink.append(mv.as_slice());
    proof {
        assert(sink.data@ =~= loi_magic());
    }
    sink.append_words(&ws);
    Ok(sink.into_bytes())
}

/// Rebuild the container from its word stream; mirrors `loi_from_words`.
#[verifier::loop_isolation(false)]
fn loi_from_words_vec(ws: &Vec<u32>) -> (r: Result<Loi, Error>)
    ensures
        match r {
            Ok(c) => loi_from_words(ws@) == Some(c@),
            Err(e) => {
                &&& e == Error::Format
                &&& loi_from_words(ws@) is None
            },
        },
{
    let len = ws.len();
    if len < 3 {
        return Err(Error::Format);
    }
    let bc = ws[2] as usize;
    let mut pos: usize = 3;
    let mut blocks: Vec<LoiBlock> = Vec::new();
    let mut i: usize = 0;
    while i < bc
        invariant
            i <= bc,
            3 <= pos <= len,
            len == ws@.len(),
            blocks@.len() == i,
            pw_blocks(ws@, 3, bc as nat) == (match pw_blocks(ws@, pos as int, (bc - i) as nat) {
                Some((rest, e)) => Some::<(Seq<LoiBlockV>, int)>(
                    (blocks@.map_values(|x: LoiBlock| x@) + rest, e),
                ),
                None => None::<(Seq<LoiBlockV>, int)>,
            }),
        decreases bc - i,
    {
        if len - pos < 2 {
            return Err(Error::Format);
        }
        let cnt = ws[pos + 1] as usize;
        if (len - pos - 2) / 24 < cnt {
            return Err(Error::Format);
        }
        let ghost obase = pos + 2;
        let mut objects: Vec<LoiObject> = Vec::new();
        let mut j: usize = 0;
        while j < cnt
            invariant
                j <= cnt,
                obase + 24 * cnt <= len,
                len == ws@.len(),
                objects@ =~= Seq::new(
                    j as nat,
                    |k: int| loi_obj_of_words(
                        ws@.subrange(obase + 24 * k, obase + 24 * k + 24),
                    ),
                ),
            decreases cnt - j,
        {
            let o = obj_from_words(ws, pos + 2 + 24 * j);
            objects.push(o);
            j = j + 1;
            proof {
                assert(objects@ =~= Seq::new(
                    j as nat,
                    |k: int| loi_obj_of_words(
                        ws@.subrange(obase + 24 * k, obase + 24 * k + 24),
                    ),
                ));
            }
        }
        let blk = LoiBlock { block_index: ws[pos], objects };
        let ghost oldpos = pos as int;
        pos = pos + 2 + 24 * cnt;
        blocks.push(blk);
        i = i + 1;
        proof {
            let k = (bc - (i - 1)) as nat;
            let head = LoiBlockV {
                block_index: ws@[oldpos],
                objects: Seq::new(
                    (ws@[oldpos + 1] as int) as nat,
                    |q: int| loi_obj_of_words(
                        ws@.subrange(oldpos + 2 + 24 * q, oldpos + 2 + 24 * q + 24),
                    ),
                ),
            };
            assert(blocks@[i - 1]@ =~= head);
            let m0 = blocks@.take(i - 1).map_values(|x: LoiBlock| x@);
            let m1 = blocks@.map_values(|x: LoiBlock| x@);
            assert(blocks@.take(i - 1) =~= blocks@.drop_last());
            assert(m1 =~= m0.push(blocks@[i - 1]@));
            match pw_blocks(ws@, pos as int, (bc - i) as nat) {
                Some((rest, e)) => {
                    assert(m0 + (seq![blocks@[i - 1]@] + rest) =~= m1 + rest);
                },
                None => {},
            }
        }
    }
    proof {
        assert(blocks@.map_values(|x: LoiBlock| x@) + Seq::<LoiBlockV>::empty()
            =~= blocks@.map_values(|x: LoiBlock| x@));
    }
    if pos >= len {
        return Err(Error::Format);
    }
    let xc = ws[pos] as usize;
    if (len - pos - 1) / 19 < xc {
        return Err(Error::Format);
    }
    let ghost xbase = pos + 1;
    let mut extras: Vec<LoiObjectExtra> = Vec::new();
    let mut jx: usize = 0;
    while jx < xc
        invariant
            jx <= xc,
            xbase + 19 * xc <= len,
            len == ws@.len(),
            extras@ =~= Seq::new(
                jx as nat,
                |k: int| loi_extra_of_words(ws@.subrange(xbase + 19 * k, xbase + 19 * k + 19)),
            ),
        decreases xc - jx,
    {
        let x = extra_from_words(ws, pos + 1 + 19 * jx);
        extras.push(x);
        jx = jx + 1;
        proof {
            assert(extras@ =~= Seq::new(
                jx as nat,
                |k: int| loi_extra_of_words(ws@.subrange(xbase + 19 * k, xbase + 19 * k + 19)),
            ));
        }
    }
    let ghost e1g = pos as int;
    pos = pos + 1 + 19 * xc;
    let (u2, pos2) = match read_counted(ws, pos, bc) {
        Ok(v) => v,
        Err(e) => {
            return Err(Error::Format);
        },
    };
    pos = pos2;
    if pos >= len {
        return Err(Error::Format);
    }
    let tc = ws[pos] as usize;
    pos = pos + 1;
    let (u3, pos3) = match read_tagged3(ws, pos, tc) {
        Ok(v) => v,
        Err(e) => {
            return Err(Error::Format);
        },
    };
    pos = pos3;
    let (u4, pos4) = match read_tagged4(ws, pos, bc) {
        Ok(v) => v,
        Err(e) => {
            return Err(Error::Format);
        },
    };
    pos = pos4;
    let (u5, pos5) = match read_counted(ws, pos, bc) {
        Ok(v) => v,
        Err(e) => {
            return Err(Error::Format);
        },
    };
    pos = pos5;
    if pos != len {
        return Err(Error::Format);
    }
    let c = Loi {
        unknown1: ws[0],
        version_date: ws[1],
        blocks,
        object_extras: extras,
        unknown_objects_2: u2,
        unknown_objects_3: u3,
        unknown_objects_4: u4,
        unknown_objects_5: u5,
    };
    proof {
        assert(c@ =~= loi_from_words(ws@)->Some_0);
    }
    Ok(c)
}

/// Read `n` count-prefixed raw word lists.
#[verifier::loop_isolation(false)]
fn read_counted(ws: &Vec<u32>, start: usize, n: usize) -> (r: Result<(Vec<LoiCounted>, usize), Error>)
    requires
        start <= ws@.len(),
    ensures
        match r {
            Ok((xs, e)) => {
                &&& pw_counted(ws@, start as int, n as nat) == Some::<(Seq<LoiCountedV>, int)>(
                    (xs@.map_values(|x: LoiCounted| x@), e as int),
                )
                &&& e <= ws@.len()
            },
            Err(err) => {
                &&& err == Error::Format
                &&& pw_counted(ws@, start as int, n as nat) is None
            },
        },
{
    let len = ws.len();
    let mut xs: Vec<LoiCounted> = Vec::new();
    let mut pos: usize = start;
    let mut i: usize = 0;
    while i < n
        invariant
            i <= n,
            start <= pos <= len,
            len == ws@.len(),
            xs@.len() == i,
            pw_counted(ws@, start as int, n as nat) == (match pw_counted(
                ws@,
                pos as int,
                (n - i) as nat,
            ) {
                Some((rest, e)) => Some::<(Seq<LoiCountedV>, int)>(
                    (xs@.map_values(|x: LoiCounted| x@) + rest, e),
                ),
                None => None::<(Seq<LoiCountedV>, int)>,
            }),
        decreases n - i,
    {
        if pos >= len {
            return Err(Error::Format);
        }
        let cnt = ws[pos] as usize;
        if len - pos - 1 < cnt {
            return Err(Error::Format);
        }
        let items = crate::bytes::words_range(ws, pos + 1, pos + 1 + cnt);
        xs.push(LoiCounted { items });
        let ghost oldpos = pos as int;
        pos = pos + 1 + cnt;
        i = i + 1;
        proof {
            let m0 = xs@.take(i - 1).map_values(|x: LoiCounted| x@);
            let m1 = xs@.map_values(|x: LoiCounted| x@);
            assert(xs@.take(i - 1) =~= xs@.drop_last());
            assert(m1 =~= m0.push(xs@[i - 1]@));
            assert(xs@[i - 1]@ =~= LoiCountedV {
                items: ws@.subrange(oldpos + 1, oldpos + 1 + (ws@[oldpos] as int)),
            });
            match pw_counted(ws@, pos as int, (n - i) as nat) {
                Some((rest, e)) => {
                    assert(m0 + (seq![xs@[i - 1]@] + rest) =~= m1 + rest);
                },
                None => {},
            }
        }
    }
    proof {
        assert(xs@.map_values(|x: LoiCounted| x@) + Seq::<LoiCountedV>::empty()
            =~= xs@.map_values(|x: LoiCounted| x@));
    }
    Ok((xs, pos))
}

/// Read `n` tag-then-count word lists.
#[verifier::loop_isolation(false)]
fn read_tagged3(ws: &Vec<u32>, start: usize, n: usize) -> (r: Result<(Vec<LoiTagged>, usize), Error>)
    requires
        start <= ws@.len(),
    ensures
        match r {
            Ok((xs, e)) => {
                &&& pw_tagged3(ws@, start as int, n as nat) == Some::<(Seq<LoiTaggedV>, int)>(
                    (xs@.map_values(|x: LoiTagged| x@), e as int),
                )
                &&& e <= ws@.len()
            },
            Err(err) => {
                &&& err == Error::Format
                &&& pw_tagged3(ws@, start as int, n as nat) is None
            },
        },
{
    let len = ws.len();
    let mut xs: Vec<LoiTagged> = Vec::new();
    let mut pos: usize = start;
    let mut i: usize = 0;
    while i < n
        invariant
            i <= n,
            start <= pos <= len,
            len == ws@.len(),
            xs@.len() == i,
            pw_tagged3(ws@, start as int, n as nat) == (match pw_tagged3(
                ws@,
                pos as int,
                (n - i) as nat,
            ) {
                Some((rest, e)) => Some::<(Seq<LoiTaggedV>, int)>(
                    (xs@.map_values(|x: LoiTagged| x@) + rest, e),
                ),
                None => None::<(Seq<LoiTaggedV>, int)>,
            }),
        decreases n - i,
    {
        if len - pos < 2 {
            return Err(Error::Format);
        }
        let cnt = ws[pos + 1] as usize;
        if len - pos - 2 < cnt {
            return Err(Error::Format);
        }
        let items = crate::bytes::words_range(ws, pos + 2, pos + 2 + cnt);
        xs.push(LoiTagged { unknown1: ws[pos], items });
        let ghost oldpos = pos as int;
        pos = pos + 2 + cnt;
        i = i + 1;
        proof {
            let m0 = xs@.take(i - 1).map_values(|x: LoiTagged| x@);
            let m1 = xs@.map_values(|x: LoiTagged| x@);
            assert(xs@.take(i - 1) =~= xs@.drop_last());
            assert(m1 =~= m0.push(xs@[i - 1]@));
            assert(xs@[i - 1]@ =~= LoiTaggedV {
                unknown1: ws@[oldpos],
                items: ws@.subrange(oldpos + 2, oldpos + 2 + (ws@[oldpos + 1] as int)),
            });
            match pw_tagged3(ws@, pos as int, (n - i) as nat) {
                Some((rest, e)) => {
                    assert(m0 + (seq![xs@[i - 1]@] + rest) =~= m1 + rest);
                },
                None => {},
            }
        }
    }
    proof {
        assert(xs@.map_values(|x: LoiTagged| x@) + Seq::<LoiTaggedV>::empty()
            =~= xs@.map_values(|x: LoiTagged| x@));
    }
    Ok((xs, pos))
}

/// Read `n` count-then-tag word lists.
#[verifier::loop_isolation(false)]
fn read_tagged4(ws: &Vec<u32>, start: usize, n: usize) -> (r: Result<(Vec<LoiTagged>, usize), Error>)
    requires
        start <= ws@.len(),
    ensures
        match r {
            Ok((xs, e)) => {
                &&& pw_tagged4(ws@, start as int, n as nat) == Some::<(Seq<LoiTaggedV>, int)>(
                    (xs@.map_values(|x: LoiTagged| x@), e as int),
                )
                &&& e <= ws@.len()
            },
            Err(err) => {
                &&& err == Error::Format
                &&& pw_tagged4(ws@, start as int, n as nat) is None
            },
        },
{
    let len = ws.len();
    let mut xs: Vec<LoiTagged> = Vec::new();
    let mut pos: usize = start;
    let mut i: usize = 0;
    while i < n
        invariant
            i <= n,
            start <= pos <= len,
            len == ws@.len(),
            xs@.len() == i,
            pw_tagged4(ws@, start as int, n as nat) == (match pw_tagged4(
                ws@,
                pos as int,
                (n - i) as nat,
            ) {
                Some((rest, e)) => Some::<(Seq<LoiTaggedV>, int)>(
                    (xs@.map_values(|x: LoiTagged| x@) + rest, e),
                ),
                None => None::<(Seq<LoiTaggedV>, int)>,
            }),
        decreases n - i,
    {
        if len - pos < 2 {
            return Err(Error::Format);
        }
        let cnt = ws[pos] as usize;
        if len - pos - 2 < cnt {
            return Err(Error::Format);
        }
        let items = crate::bytes::words_range(ws, pos + 2, pos + 2 + cnt);
        xs.push(LoiTagged { unknown1: ws[pos + 1], items });
        let ghost oldpos = pos as int;
        pos = pos + 2 + cnt;
        i = i + 1;
        proof {
            let m0 = xs@.take(i - 1).map_values(|x: LoiTagged| x@);
            let m1 = xs@.map_values(|x: LoiTagged| x@);
            assert(xs@.take(i - 1) =~= xs@.drop_last());
            assert(m1 =~= m0.push(xs@[i - 1]@));
            assert(xs@[i - 1]@ =~= LoiTaggedV {
                unknown1: ws@[oldpos + 1],
                items: ws@.subrange(oldpos + 2, oldpos + 2 + (ws@[oldpos] as int)),
            });
            match pw_tagged4(ws@, pos as int, (n - i) as nat) {
                Some((rest, e)) => {
                    assert(m0 + (seq![xs@[i - 1]@] + rest) =~= m1 + rest);
                },
                None => {},
            }
        }
    }
    proof {
        assert(xs@.map_values(|x: LoiTagged| x@) + Seq::<LoiTaggedV>::empty()
            =~= xs@.map_values(|x: LoiTagged| x@));
    }
    Ok((xs, pos))
}

/// Parse a whole object-instance container; mirrors `loi_parse_spec`.
pub fn loi_parse(data: &[u8]) -> (r: Result<Loi, Error>)
    ensures
        match r {
            Ok(c) => {
                &&& loi_parse_spec(data@) == Some(c@)
                &&& loi_wf(c@)
            },
            Err(e) => {
                &&& e == Error::Format
                &&& loi_parse_spec(data@) is None
            },
        },
{
    let mut rd = Reader::new(data);
    let magic = match rd.read_bytes(8) {
        Ok(m) => m,
        Err(_) => {
            return Err(Error::Format);
        },
    };
    let mv = loi_magic_vec();
    if !bytes_eq(magic.as_slice(), mv.as_slice()) {
        return Err(Error::Format);
    }
    if (data.len() - 8) % 4 != 0 {
        return Err(Error::Format);
    }
    let nw = (data.len() - 8) / 4;
    let ws = match rd.read_words(nw) {
        Ok(w) => w,
        Err(_) => {
            proof {
                assert(false);
            }
            return Err(Error::Format);
        },
    };
    let c = match loi_from_words_vec(&ws) {
        Ok(c) => c,
        Err(_) => {
            return Err(Error::Format);
        },
    };
    proof {
        lemma_loi_from_words_roundtrip(ws@);
    }
    Ok(c)
}

pub open spec fn loi_tag() -> Seq<char> {
    "object_instances\n"@
}

/// The manifest document: format tag, then every word in file order.
pub open spec fn loi_doc(c: LoiV) -> Seq<char> {
    loi_tag() + nums_tok(loi_words(c))
}

pub open spec fn loi_doc_parse(s: Seq<char>) -> Option<LoiV> {
    if s.len() >= loi_tag().len() && s.subrange(0, loi_tag().len() as int) == loi_tag() {
        match crate::doc::p_all_nums(s, loi_tag().len() as int) {
            Some(ws) => loi_from_words(ws),
            None => None,
        }
    } else {
        None
    }
}

/// Whatever the manifest parser accepts is well formed.
pub proof fn lemma_loi_doc_parse_wf(s: Seq<char>)
    requires
        loi_doc_parse(s) is Some,
    ensures
        loi_wf(loi_doc_parse(s)->Some_0),
{
    let ws = crate::doc::p_all_nums(s, loi_tag().len() as int)->Some_0;
    lemma_loi_from_words_roundtrip(ws);
}

/// Re-serializing a parsed manifest document parses back to the very
/// same value: document formatting may differ, field values cannot.
pub proof fn lemma_loi_manifest_idempotent(s: Seq<char>)
    requires
        loi_doc_parse(s) is Some,
    ensures
        loi_doc_parse(loi_doc(loi_doc_parse(s)->Some_0)) == loi_doc_parse(s),
{
    let ws = crate::doc::p_all_nums(s, loi_tag().len() as int)->Some_0;
    lemma_loi_from_words_roundtrip(ws);
    let c = loi_doc_parse(s)->Some_0;
    assert(loi_words(c) == ws);
    let s2 = loi_doc(c);
    assert(s2.subrange(0, loi_tag().len() as int) =~= loi_tag());
    crate::doc::lemma_p_all_nums(loi_tag(), ws);
    assert(s2 =~= loi_tag() + nums_tok(ws));
}

/// Project a container into its manifest document.
pub fn loi_manifest(c: &Loi) -> (s: String)
    requires
        loi_wf(c@),
    ensures
        s@ == loi_doc(c@),
{
    let ws = loi_words_vec(c);
    let mut out = String::new();
    out.append("object_instances\n");
    crate::doc::put_nums(&mut out, &ws);
    proof {
        assert(out@ =~= loi_doc(c@));
    }
    out
}

/// Rebuild a container from its manifest document; mirrors
/// `loi_doc_parse`.
pub fn loi_manifest_parse(s: &str) -> (r: Result<Loi, Error>)
    ensures
        match r {
            Ok(c) => {
                &&& loi_doc_parse(s@) == Some(c@)
                &&& loi_wf(c@)
            },
            Err(e) => {
                &&& e == Error::Document
                &&& loi_doc_parse(s@) is None
            },
        },
{
    let mut rd = DocReader::new(s);
    match rd.expect_lit("object_instances\n") {
        Ok(()) => {},
        Err(_) => {
            return Err(Error::Document);
        },
    }
    let ws = match rd.read_all_nums() {
        Ok(w) => w,
        Err(_) => {
            return Err(Error::Document);
        },
    };
    let c = match loi_from_words_vec(&ws) {
        Ok(c) => c,
        Err(_) => {
            return Err(Error::Document);
        },
    };
    proof {
        lemma_loi_from_words_roundtrip(ws@);
    }
    Ok(c)
}

/// Blocks that place at least one object.
pub open spec fn loi_populated(bs: Seq<LoiBlockV>) -> int
    decreases bs.len(),
{
    if bs.len() == 0 {
        0
    } else {
        loi_populated(bs.drop_last()) + if bs.last().objects.len() > 0 {
            1int
        } else {
            0int
        }
    }
}

/// Total object count over all blocks.
pub open spec fn loi_object_total(bs: Seq<LoiBlockV>) -> int
    decreases bs.len(),
{
    if bs.len() == 0 {
        0
    } else {
        loi_object_total(bs.drop_last()) + bs.last().objects.len()
    }
}

pub open spec fn loi_block_max_index(os: Seq<LoiObject>) -> int
    decreases os.len(),
{
    if os.len() == 0 {
        0
    } else if os.last().object_index > loi_block_max_index(os.drop_last()) {
        os.last().object_index as int
    } else {
        loi_block_max_index(os.drop_last())
    }
}

/// Highest object index over all blocks, zero where none is placed.
pub open spec fn loi_max_object_index(bs: Seq<LoiBlockV>) -> int
    decreases bs.len(),
{
    if bs.len() == 0 {
        0
    } else if loi_block_max_index(bs.last().objects) > loi_max_object_index(bs.drop_last()) {
        loi_block_max_index(bs.last().objects)
    } else {
        loi_max_object_index(bs.drop_last())
    }
}

/// What the info operation reports about an object list.
#[derive(Clone, Copy, PartialEq, Eq, Structural, Debug)]
pub struct LoiInfo {
    pub block_count: u32,
    /// blocks with at least one object
    pub populated_blocks: u64,
    /// object count summed over all blocks
    pub object_total: u64,
    pub max_object_index: u32,
}

/// One object-instance-list operation on plain values.
pub enum LoiCommand {
    /// container bytes
    Info(Vec<u8>),
    /// container bytes
    Unpack(Vec<u8>),
    /// manifest text
    Pack(String),
}

pub struct LoiOpts {
    pub cmd: LoiCommand,
}

pub enum LoiOutcome {
    Info(LoiInfo),
    /// the manifest document
    Unpack(String),
    /// the packed container bytes
    Pack(Vec<u8>),
}

/// Run one object-instance-list command on in-memory values.
#[verifier::loop_isolation(false)]
pub fn process_loi(opts: LoiOpts) -> (r: Result<LoiOutcome, Error>)
    ensures
        match opts.cmd {
            LoiCommand::Info(data) => match r {
                Ok(o) => {
                    let c = loi_parse_spec(data@)->Some_0;
                    &&& loi_parse_spec(data@) is Some
                    &&& o matches LoiOutcome::Info(info)
                    &&& info.block_count == c.blocks.len()
                    &&& info.populated_blocks == loi_populated(c.blocks)
                    &&& info.object_total == loi_object_total(c.blocks)
                    &&& info.max_object_index == loi_max_object_index(c.blocks)
                },
                Err(e) => {
                    &&& e == Error::Format
                    &&& loi_parse_spec(data@) is None
                },
            },
            LoiCommand::Unpack(data) => match r {
                Ok(o) => {
                    &&& loi_parse_spec(data@) is Some
                    &&& o matches LoiOutcome::Unpack(m)
                    &&& m@ == loi_doc(loi_parse_spec(data@)->Some_0)
                },
                Err(e) => {
                    &&& e == Error::Format
                    &&& loi_parse_spec(data@) is None
                },
            },
            LoiCommand::Pack(m) => match r {
                Ok(o) => {
                    &&& loi_doc_parse(m@) is Some
                    &&& o matches LoiOutcome::Pack(out)
                    &&& out@ == loi_bytes(loi_doc_parse(m@)->Some_0)
                },
                Err(Error::Document) => loi_doc_parse(m@) is None,
                Err(e) => {
                    &&& e == Error::Format
                    &&& loi_doc_parse(m@) is Some
                    &&& 8 + 4 * loi_words(loi_doc_parse(m@)->Some_0).len() > usize::MAX
                },
            },
        },
{
    match opts.cmd {
        LoiCommand::Info(data) => {
            let c = match loi_parse(data.as_slice()) {
                Ok(c) => c,
                Err(e) => {
                    return Err(e);
                },
            };
            let n = c.blocks.len();
            let mut populated: u64 = 0;
            let mut total: u64 = 0;
            let mut maxidx: u32 = 0;
            let mut i: usize = 0;
            while i < n
                invariant
                    i <= n,
                    n == c.blocks@.len(),
                    populated == loi_populated(c@.blocks.take(i as int)),
                    populated <= i,
                    total == loi_object_total(c@.blocks.take(i as int)),
                    total <= i * (u32::MAX as int),
                    maxidx == loi_max_object_index(c@.blocks.take(i as int)),
                decreases n - i,
            {
                let b = &c.blocks[i];
                proof {
                    assert(c@.blocks[i as int] == c.blocks@[i as int]@);
                    assert(c@.blocks.take(i + 1).drop_last() =~= c@.blocks.take(i as int));
                    assert(c@.blocks.take(i + 1).last() == c@.blocks[i as int]);
                    assert((i + 1) * (u32::MAX as int) == i * (u32::MAX as int) + u32::MAX)
                        by (nonlinear_arith);
                }
                if b.objects.len() > 0 {
                    populated = populated + 1;
                }
                total = total + (b.objects.len() as u64);
                let no = b.objects.len();
                let mut j: usize = 0;
                let mut bmax: u32 = 0;
                while j < no
                    invariant
                        j <= no,
                        no == b.objects@.len(),
                        bmax == loi_block_max_index(b@.objects.take(j as int)),
                    decreases no - j,
                {
                    proof {
                        assert(b@.objects.take(j + 1).drop_last() =~= b@.objects.take(j as int));
                        assert(b@.objects.take(j + 1).last() == b@.objects[j as int]);
                    }
                    if b.objects[j].object_index > bmax {
                        bmax = b.objects[j].object_index;
                    }
                    j = j + 1;
                }
                proof {
                    assert(b@.objects.take(no as int) =~= b@.objects);
                }
                if bmax > maxidx {
                    maxidx = bmax;
                }
                i = i + 1;
            }
            proof {
                assert(c@.blocks.take(n as int) =~= c@.blocks);
            }
            Ok(
                LoiOutcome::Info(
                    LoiInfo {
                        block_count: n as u32,
                        populated_blocks: populated,
                        object_total: total,
                        max_object_index: maxidx,
                    },
                ),
            )
        },
        LoiCommand::Unpack(data) => {
            let c = match loi_parse(data.as_slice()) {
                Ok(c) => c,
                Err(e) => {
                    return Err(e);
                },
            };
            Ok(LoiOutcome::Unpack(loi_manifest(&c)))
        },
        LoiCommand::Pack(m) => {
            let c = match loi_manifest_parse(m.as_str()) {
                Ok(c) => c,
                Err(e) => {
                    return Err(e);
                },
            };
            let out = match loi_write(&c) {
                Ok(v) => v,
                Err(e) => {
                    return Err(e);
                },
            };
            Ok(LoiOutcome::Pack(out))
        },
    }
}

} // verus!
