//! Model-table containers behind the magic `LOF\0kjc\0`: a fixed header,
//! then one record per model holding numeric fields, two NUL-terminated
//! strings in the legacy regional encoding (display name and relative
//! file path), and a payload reference.  Packing writes the table with
//! placeholder references and back-patches them while streaming the
//! payloads addressed by the stored file paths.
use crate::bytes::{
    bytes_eq, cat, cat_off, lemma_cat_append, lemma_cat_chunk_at, lemma_cat_patch,
    lemma_cat_push, lemma_words_at_bytes, lemma_words_bytes_append, lemma_words_bytes_len, lemma_words_bytes_update,
    splice, word_at, words_at, words_bytes, Reader, Sink,
};
use crate::doc::{
    lemma_nums_tok_append, lemma_p_num, lemma_p_nums, lemma_p_str, num_tok, nums_tok, p_num,
    p_nums, p_str, str_tok, DocReader,
};
use crate::Error;
use vstd::bytes::spec_u32_to_le_bytes;
use vstd::prelude::*;

verus! {

/// Bytes of a text in the legacy regional encoding; they depend on the
/// characters alone.
pub uninterp spec fn euc_kr_encoded(s: Seq<char>) -> Seq<u8>;

/// Text decoded from legacy-encoded bytes; it depends on the bytes
/// alone, malformed sequences replaced by the decoder's policy.
pub uninterp spec fn euc_kr_decoded(b: Seq<u8>) -> Seq<char>;

/// Relies on encoding_rs's EUC_KR encoder: a pure function of the text;
/// characters outside the repertoire become numeric character
/// references, the encoder's documented lossy substitution.
#[verifier::external_body]
fn euc_kr_encode(s: &str) -> (r: Vec<u8>)
    ensures
        r@ == euc_kr_encoded(s@),
{
    let (b, _encoding, _had_errors) = encoding_rs::EUC_KR.encode(s);
    b.into_owned()
}

/// Relies on encoding_rs's EUC_KR decoder: a pure function of the
/// bytes; malformed sequences become replacement characters.
#[verifier::external_body]
fn euc_kr_decode(b: &[u8]) -> (r: String)
    ensures
        r@ == euc_kr_decoded(b@),
{
    let (s, _encoding, _had_errors) = encoding_rs::EUC_KR.decode(b);
    s.into_owned()
}

pub struct LofHeader {
    pub unknown1: u32,
    pub version_date: u32,
    pub model_count: u32,
    pub unknown2: u32,
}

pub struct LofModel {
    pub index: u32,
    pub unknown1: u32,
    pub unknown2: u32,
    pub unknown3: u32,
    pub unknown4: u32,
    pub unknown5: u32,
    /// display name, decoded from the legacy encoding
    pub name: String,
    /// relative sidecar file path, decoded from the legacy encoding
    pub file_name: String,
    /// a float bit pattern in the file, preserved verbatim
    pub unknown6: u32,
    pub unknown7: u32,
    pub unknown8: u32,
    pub file_offset: u32,
    pub file_length: u32,
}

#[verifier::ext_equal]
pub struct LofModelV {
    pub index: u32,
    pub unknown1: u32,
    pub unknown2: u32,
    pub unknown3: u32,
    pub unknown4: u32,
    pub unknown5: u32,
    pub name: Seq<char>,
    pub file_name: Seq<char>,
    pub unknown6: u32,
    pub unknown7: u32,
    pub unknown8: u32,
    pub file_offset: u32,
    pub file_length: u32,
}

impl View for LofModel {
    type V = LofModelV;

    open spec fn view(&self) -> LofModelV {
        LofModelV {
            index: self.index,
            unknown1: self.unknown1,
            unknown2: self.unknown2,
            unknown3: self.unknown3,
            unknown4: self.unknown4,
            unknown5: self.unknown5,
            name: self.name@,
            file_name: self.file_name@,
            unknown6: self.unknown6,
            unknown7: self.unknown7,
            unknown8: self.unknown8,
            file_offset: self.file_offset,
            file_length: self.file_length,
        }
    }
}

pub struct Lof {
    pub header: LofHeader,
    pub models: Vec<LofModel>,
}

#[verifier::ext_equal]
pub struct LofV {
    pub header: LofHeader,
    pub models: Seq<LofModelV>,
}

impl View for Lof {
    type V = LofV;

    open spec fn view(&self) -> LofV {
        LofV { header: self.header, models: self.models@.map_values(|m: LofModel| m@) }
    }
}

pub open spec fn lof_magic() -> Seq<u8> {
    seq![76u8, 79u8, 70u8, 0u8, 107u8, 106u8, 99u8, 0u8]
}

fn lof_magic_vec() -> (v: Vec<u8>)
    ensures
        v@ == lof_magic(),
{
    let mut v: Vec<u8> = Vec::new();
    v.push(76);
    v.push(79);
    v.push(70);
    v.push(0);
    v.push(107);
    v.push(106);
    v.push(99);
    v.push(0);
    proof {
        assert(v@ =~= lof_magic());
    }
    v
}

pub open spec fn lof_wf(c: LofV) -> bool {
    &&& c.models.len() == c.header.model_count
    &&& (forall|i: int|
        0 <= i < c.models.len() ==> (#[trigger] c.models[i]).name.len() <= u32::MAX
            && c.models[i].file_name.len() <= u32::MAX)
}

pub open spec fn lof_header_words(h: LofHeader) -> Seq<u32> {
    seq![h.unknown1, h.version_date, h.model_count, h.unknown2]
}

/// The record bytes before its payload reference pair.
pub open spec fn lof_rec_pre(m: LofModelV) -> Seq<u8> {
    words_bytes(seq![m.index, m.unknown1, m.unknown2, m.unknown3, m.unknown4, m.unknown5])
        + euc_kr_encoded(m.name) + seq![0u8] + euc_kr_encoded(m.file_name) + seq![0u8]
        + words_bytes(seq![m.unknown6, m.unknown7, m.unknown8])
}

pub open spec fn lof_rec_bytes(m: LofModelV) -> Seq<u8> {
    lof_rec_pre(m) + words_bytes(seq![m.file_offset, m.file_length])
}

pub open spec fn lof_table_chunks(ms: Seq<LofModelV>) -> Seq<Seq<u8>> {
    Seq::new(ms.len(), |i: int| lof_rec_bytes(ms[i]))
}

/// Canonical byte form of magic, header and model table.
pub open spec fn lof_bytes(c: LofV) -> Seq<u8> {
    lof_magic() + words_bytes(lof_header_words(c.header)) + cat(lof_table_chunks(c.models))
}

pub open spec fn lof_size(c: LofV) -> int {
    lof_bytes(c).len() as int
}

/// Index of the first NUL byte at or after `off`.
pub open spec fn nul_end(b: Seq<u8>, off: int) -> int
    decreases b.len() - off,
{
    if 0 <= off < b.len() && b[off] != 0 {
        nul_end(b, off + 1)
    } else {
        off
    }
}

pub proof fn lemma_nul_end_bounds(b: Seq<u8>, off: int)
    requires
        0 <= off <= b.len(),
    ensures
        off <= nul_end(b, off) <= b.len(),
        forall|i: int| off <= i < nul_end(b, off) ==> b[i] != 0,
        nul_end(b, off) == b.len() || b[nul_end(b, off)] == 0,
    decreases b.len() - off,
{
    if off < b.len() && b[off] != 0 {
        lemma_nul_end_bounds(b, off + 1);
    }
}

/// The model list, one variable-length record after another.
pub open spec fn p_lof_models(b: Seq<u8>, off: int, n: nat) -> Option<(Seq<LofModelV>, int)>
    decreases n,
{
    if n == 0 {
        Some((Seq::empty(), off))
    } else if off + 24 <= b.len() {
        let ne = nul_end(b, off + 24);
        if ne < b.len() {
            let fe = nul_end(b, ne + 1);
            if fe < b.len() && fe + 1 + 20 <= b.len() {
                let name = euc_kr_decoded(b.subrange(off + 24, ne));
                let file_name = euc_kr_decoded(b.subrange(ne + 1, fe));
                if name.len() <= u32::MAX && file_name.len() <= u32::MAX {
                    let m = LofModelV {
                        index: word_at(b, off),
                        unknown1: word_at(b, off + 4),
                        unknown2: word_at(b, off + 8),
                        unknown3: word_at(b, off + 12),
                        unknown4: word_at(b, off + 16),
                        unknown5: word_at(b, off + 20),
                        name: name,
                        file_name: file_name,
                        unknown6: word_at(b, fe + 1),
                        unknown7: word_at(b, fe + 5),
                        unknown8: word_at(b, fe + 9),
                        file_offset: word_at(b, fe + 13),
                        file_length: word_at(b, fe + 17),
                    };
                    match p_lof_models(b, fe + 21, (n - 1) as nat) {
                        Some((rest, e)) => Some((seq![m] + rest, e)),
                        None => None,
                    }
                } else {
                    None
                }
            } else {
                None
            }
        } else {
            None
        }
    } else {
        None
    }
}

/// The header and model table read from the front of `b`.
pub open spec fn lof_parse_spec(b: Seq<u8>) -> Option<LofV> {
    if b.len() >= 24 && b.subrange(0, 8) == lof_magic() {
        let h = LofHeader {
            unknown1: word_at(b, 8),
            version_date: word_at(b, 12),
            model_count: word_at(b, 16),
            unknown2: word_at(b, 20),
        };
        match p_lof_models(b, 24, h.model_count as nat) {
            Some((ms, e)) => Some(LofV { header: h, models: ms }),
            None => None,
        }
    } else {
        None
    }
}

/// The fixed header alone, read from the front of `b`: what the info
/// operation needs, whether or not the model table behind it is whole.
pub open spec fn lof_header_parse_spec(b: Seq<u8>) -> Option<LofHeader> {
    if b.len() >= 24 && b.subrange(0, 8) == lof_magic() {
        Some(
            LofHeader {
                unknown1: word_at(b, 8),
                version_date: word_at(b, 12),
                model_count: word_at(b, 16),
                unknown2: word_at(b, 20),
            },
        )
    } else {
        None
    }
}

/// Parse the magic and fixed header only; mirrors
/// `lof_header_parse_spec`.
pub fn lof_parse_header(data: &[u8]) -> (r: Result<LofHeader, Error>)
    ensures
        match r {
            Ok(h) => lof_header_parse_spec(data@) == Some(h),
            Err(e) => {
                &&& e == Error::Format
                &&& lof_header_parse_spec(data@) is None
            },
        },
{
    let mut rd = Reader::new(data);
    let magic = match rd.read_bytes(8) {
        Ok(m) => m,
        Err(_) => {
            return Err(Error::Format);
        },
    };
    let mv = lof_magic_vec();
    if !bytes_eq(magic.as_slice(), mv.as_slice()) {
        return Err(Error::Format);
    }
    let hw = match rd.read_words(4) {
        Ok(w) => w,
        Err(_) => {
            return Err(Error::Format);
        },
    };
    Ok(
        LofHeader {
            unknown1: hw[0],
            version_date: hw[1],
            model_count: hw[2],
            unknown2: hw[3],
        },
    )
}

/// Parse the magic, header and model table; mirrors `lof_parse_spec`.
#[verifier::loop_isolation(false)]
pub fn lof_parse(data: &[u8]) -> (r: Result<Lof, Error>)
    ensures
        match r {
            Ok(c) => {
                &&& lof_parse_spec(data@) == Some(c@)
                &&& lof_wf(c@)
            },
            Err(e) => {
                &&& e == Error::Format
                &&& lof_parse_spec(data@) is None
            },
        },
{
    let dlen = data.len();
    let mut rd = Reader::new(data);
    let magic = match rd.read_bytes(8) {
        Ok(m) => m,
        Err(_) => {
            return Err(Error::Format);
        },
    };
    let mv = lof_magic_vec();
    if !bytes_eq(magic.as_slice(), mv.as_slice()) {
        return Err(Error::Format);
    }
    let hw = match rd.read_words(4) {
        Ok(w) => w,
        Err(_) => {
            return Err(Error::Format);
        },
    };
    let h = LofHeader {
        unknown1: hw[0],
        version_date: hw[1],
        model_count: hw[2],
        unknown2: hw[3],
    };
    let nm = h.model_count as usize;
    let mut models: Vec<LofModel> = Vec::new();
    let mut i: usize = 0;
    while i < nm
        invariant
            rd.wf(),
            rd.data@ == data@,
            i <= nm,
            models@.len() == i,
            forall|j: int|
                0 <= j < i ==> (#[trigger] models@[j])@.name.len() <= u32::MAX
                    && models@[j]@.file_name.len() <= u32::MAX,
            p_lof_models(data@, 24, nm as nat) == (match p_lof_models(
                data@,
                rd.pos as int,
                (nm - i) as nat,
            ) {
                Some((rest, e)) => Some::<(Seq<LofModelV>, int)>(
                    (models@.map_values(|m: LofModel| m@) + rest, e),
                ),
                None => None::<(Seq<LofModelV>, int)>,
            }),
        decreases nm - i,
    {
        let ghost off = rd.pos as int;
        let fw = match rd.read_words(6) {
            Ok(w) => w,
            Err(_) => {
                return Err(Error::Format);
            },
        };
        let name_start = rd.pos;
        let name_end = match scan_nul(data, name_start) {
            Ok(e) => e,
            Err(_) => {
                return Err(Error::Format);
            },
        };
        let file_start = name_end + 1;
        let file_end = match scan_nul(data, file_start) {
            Ok(e) => e,
            Err(_) => {
                return Err(Error::Format);
            },
        };
        let name_b = vstd::slice::slice_subrange(data, name_start, name_end);
        let file_b = vstd::slice::slice_subrange(data, file_start, file_end);
        let name = euc_kr_decode(name_b);
        let file_name = euc_kr_decode(file_b);
        if data.len() - (file_end + 1) < 20 {
            return Err(Error::Format);
        }
        rd.pos = file_end + 1;
        let tw = match rd.read_words(5) {
            Ok(w) => w,
            Err(_) => {
                proof {
                    assert(false);
                }
                return Err(Error::Format);
            },
        };
        if name.unicode_len() > u32::MAX as usize || file_name.unicode_len() > u32::MAX as usize {
            return Err(Error::Format);
        }
        let m = LofModel {
            index: fw[0],
            unknown1: fw[1],
            unknown2: fw[2],
            unknown3: fw[3],
            unknown4: fw[4],
            unknown5: fw[5],
            name,
            file_name,
            unknown6: tw[0],
            unknown7: tw[1],
            unknown8: tw[2],
            file_offset: tw[3],
            file_length: tw[4],
        };
        models.push(m);
        i = i + 1;
        proof {
            let k = (nm - (i - 1)) as nat;
            let ne = nul_end(data@, off + 24);
            let fe = nul_end(data@, ne + 1);
            assert(ne == name_end as int);
            assert(fe == file_end as int);
            let head = LofModelV {
                index: word_at(data@, off),
                unknown1: word_at(data@, off + 4),
                unknown2: word_at(data@, off + 8),
                unknown3: word_at(data@, off + 12),
                unknown4: word_at(data@, off + 16),
                unknown5: word_at(data@, off + 20),
                name: euc_kr_decoded(data@.subrange(off + 24, ne)),
                file_name: euc_kr_decoded(data@.subrange(ne + 1, fe)),
                unknown6: word_at(data@, fe + 1),
                unknown7: word_at(data@, fe + 5),
                unknown8: word_at(data@, fe + 9),
                file_offset: word_at(data@, fe + 13),
                file_length: word_at(data@, fe + 17),
            };
            assert(models@[i - 1]@ =~= head);
            assert(rd.pos == fe + 21);
            assert(p_lof_models(data@, off, k) == (match p_lof_models(
                data@,
                fe + 21,
                (k - 1) as nat,
            ) {
                Some((rest, e)) => Some::<(Seq<LofModelV>, int)>((seq![head] + rest, e)),
                None => None::<(Seq<LofModelV>, int)>,
            }));
            let m0 = models@.take(i - 1).map_values(|x: LofModel| x@);
            let m1 = models@.map_values(|x: LofModel| x@);
            assert(models@.take(i - 1) =~= models@.drop_last());
            assert(m1 =~= m0.push(models@[i - 1]@));
            match p_lof_models(data@, rd.pos as int, (nm - i) as nat) {
                Some((rest, e)) => {
                    assert(m0 + (seq![models@[i - 1]@] + rest) =~= m1 + rest);
                },
                None => {},
            }

        }
    }
    proof {
        assert(models@.map_values(|x: LofModel| x@) + Seq::<LofModelV>::empty()
            =~= models@.map_values(|x: LofModel| x@));
    }
    let c = Lof { header: h, models };
    proof {
        assert(c@ =~= lof_parse_spec(data@)->Some_0);
        assert forall|j: int| 0 <= j < c@.models.len() implies (#[trigger] c@.models[j]).name.len()
            <= u32::MAX && c@.models[j].file_name.len() <= u32::MAX by {
            assert(c@.models[j] == models@[j]@);
        }
    }
    Ok(c)
}

/// `m` with its payload reference cleared to the placeholder pair.
pub open spec fn lof_zero_ref(m: LofModelV) -> LofModelV {
    LofModelV { file_offset: 0, file_length: 0, ..m }
}

/// Model `i` with its reference patched to the true payload position.
pub open spec fn lof_patched_model(c: LofV, ps: Seq<Seq<u8>>, i: int) -> LofModelV {
    LofModelV {
        file_offset: (lof_size(c) + cat_off(ps, i)) as u32,
        file_length: ps[i].len() as u32,
        ..c.models[i]
    }
}

/// The container a pack run writes: true references, all else as given.
pub open spec fn lof_patched(c: LofV, ps: Seq<Seq<u8>>) -> LofV {
    LofV {
        header: c.header,
        models: Seq::new(c.models.len(), |i: int| lof_patched_model(c, ps, i)),
    }
}

/// Every patched reference must fit in a 32-bit word.
pub open spec fn lof_pack_fits(c: LofV, ps: Seq<Seq<u8>>) -> bool {
    lof_size(c) + cat(ps).len() <= u32::MAX
}

/// The whole packed container: table, then the payloads in table order.
pub open spec fn lof_pack_bytes(c: LofV, ps: Seq<Seq<u8>>) -> Seq<u8> {
    lof_bytes(lof_patched(c, ps)) + cat(ps)
}

/// The table chunks midway through pass two.
pub open spec fn lof_chunks_mid(c: LofV, ps: Seq<Seq<u8>>, m: int) -> Seq<Seq<u8>> {
    Seq::new(
        c.models.len(),
        |j: int|
            if j < m {
                lof_rec_bytes(lof_patched_model(c, ps, j))
            } else {
                lof_rec_bytes(lof_zero_ref(c.models[j]))
            },
    )
}

/// The reference pair never changes a record's size or its leading part.
proof fn lemma_lof_rec_shape(m: LofModelV)
    ensures
        lof_rec_bytes(m).len() == lof_rec_pre(m).len() + 8,
        lof_rec_pre(lof_zero_ref(m)) == lof_rec_pre(m),
{
    vstd::bytes::lemma_auto_spec_u32_to_from_le_bytes();
    lemma_words_bytes_len(seq![m.file_offset, m.file_length]);
}

/// Pack a container: write the header and the table with placeholder
/// references, then stream each payload and back-patch its pair.
#[verifier::loop_isolation(false)]
#[verifier::rlimit(100)]
pub fn lof_pack(c: &Lof, payloads: &Vec<Vec<u8>>) -> (r: Result<Vec<u8>, Error>)
    requires
        lof_wf(c@),
        payloads@.len() == c.models@.len(),
    ensures
        match r {
            Ok(out) => {
                &&& lof_pack_fits(c@, payloads@.map_values(|p: Vec<u8>| p@))
                &&& out@ == lof_pack_bytes(c@, payloads@.map_values(|p: Vec<u8>| p@))
            },
            Err(e) => {
                &&& e == Error::Format
                &&& !lof_pack_fits(c@, payloads@.map_values(|p: Vec<u8>| p@))
            },
        },
{
    let ghost ps = payloads@.map_values(|p: Vec<u8>| p@);
    let n = c.models.len();
    let ghost chunks0 = Seq::new(
        n as nat,
        |j: int| lof_rec_bytes(lof_zero_ref(c.models@[j]@)),
    );
    proof {
        vstd::bytes::lemma_auto_spec_u32_to_from_le_bytes();
        assert(usize::MAX >= u32::MAX);
        assert forall|j: int| 0 <= j < n implies #[trigger] chunks0[j]
            == lof_rec_bytes(lof_zero_ref(c@.models[j])) by {}
        assert(lof_table_chunks(c@.models).len() == n);
        assert forall|j: int|
            0 <= j < n implies (#[trigger] chunks0[j]).len() == lof_table_chunks(
            c@.models,
        )[j].len() by {
            lemma_lof_rec_shape(c@.models[j]);
            lemma_lof_rec_shape(lof_zero_ref(c@.models[j]));
        }
        crate::bytes::lemma_cat_off_eq(chunks0, lof_table_chunks(c@.models));
        assert(lof_size(c@) == 24 + cat(lof_table_chunks(c@.models)).len()) by {
            lemma_words_bytes_len(lof_header_words(c@.header));
        }
    }
    // pass one: header, then the table with placeholder references
    let mut sink = Sink::new();
    let mv = lof_magic_vec();
    sink.append(mv.as_slice());
    let mut hw: Vec<u32> = Vec::new();
    hw.push(c.header.unknown1);
    hw.push(c.header.version_date);
    hw.push(c.header.model_count);
    hw.push(c.header.unknown2);
    proof {
        assert(hw@ =~= lof_header_words(c@.header));
    }
    sink.append_words(&hw);
    let ghost pre = lof_magic() + words_bytes(lof_header_words(c@.header));
    proof {
        assert(sink.data@ =~= pre);
        lemma_words_bytes_len(lof_header_words(c@.header));
        assert(pre.len() == 24);
    }
    let mut zero1: Vec<u8> = Vec::new();
    zero1.push(0);
    let mut patches: Vec<usize> = Vec::new();
    let mut i1: usize = 0;
    proof {
        assert(chunks0.take(0) =~= Seq::<Seq<u8>>::empty());
        assert(sink.data@ =~= pre + cat(chunks0.take(0)));
    }
    while i1 < n
        invariant
            i1 <= n,
            n == c.models@.len(),
            zero1@ == seq![0u8],
            sink.wf(),
            sink.pos == sink.data@.len(),
            sink.data@ == pre + cat(chunks0.take(i1 as int)),
            sink.data@.len() == 24 + cat(chunks0.take(i1 as int)).len(),
            sink.data@.len() <= u32::MAX,
            patches@.len() == i1,
            forall|j: int|
                0 <= j < i1 ==> #[trigger] patches@[j] == 24 + cat_off(chunks0, j)
                    + lof_rec_pre(c@.models[j]).len(),
        decreases n - i1,
    {
        let m = &c.models[i1];
        let enc_name = euc_kr_encode(m.name.as_str());
        let enc_file = euc_kr_encode(m.file_name.as_str());
        proof {
            lemma_lof_rec_shape(lof_zero_ref(c@.models[i1 as int]));
            lemma_lof_rec_shape(c@.models[i1 as int]);
            lemma_words_bytes_len(
                seq![m@.index, m@.unknown1, m@.unknown2, m@.unknown3, m@.unknown4, m@.unknown5],
            );
            lemma_words_bytes_len(seq![m@.unknown6, m@.unknown7, m@.unknown8]);
            assert(chunks0[i1 as int].len() == 46 + enc_name@.len() + enc_file@.len());
            assert(chunks0 =~= chunks0.take(i1 as int) + chunks0.skip(i1 as int));
            lemma_cat_append(chunks0.take(i1 as int), chunks0.skip(i1 as int));
            assert(chunks0.skip(i1 as int)[0] == chunks0[i1 as int]);
            assert(cat(chunks0.skip(i1 as int)) == chunks0[i1 as int] + cat(
                chunks0.skip(i1 as int).drop_first(),
            ));
            crate::bytes::lemma_cat_len_nonneg(chunks0.skip(i1 as int).drop_first());
        }
        if enc_name.len() as u64 > u32::MAX as u64 || enc_file.len() as u64 > u32::MAX as u64 {
            return Err(Error::Format);
        }
        let rec: u64 = 46 + enc_name.len() as u64 + enc_file.len() as u64;
        if (sink.len() as u64) + rec > u32::MAX as u64 {
            return Err(Error::Format);
        }
        let mut fw: Vec<u32> = Vec::new();
        fw.push(m.index);
        fw.push(m.unknown1);
        fw.push(m.unknown2);
        fw.push(m.unknown3);
        fw.push(m.unknown4);
        fw.push(m.unknown5);
        sink.append_words(&fw);
        sink.append(enc_name.as_slice());
        sink.append(zero1.as_slice());
        sink.append(enc_file.as_slice());
        sink.append(zero1.as_slice());
        let mut tw: Vec<u32> = Vec::new();
        tw.push(m.unknown6);
        tw.push(m.unknown7);
        tw.push(m.unknown8);
        sink.append_words(&tw);
        patches.push(sink.cursor());
        let mut zw: Vec<u32> = Vec::new();
        zw.push(0);
        zw.push(0);
        sink.append_words(&zw);
        i1 = i1 + 1;
        proof {
            assert(fw@ =~= seq![
                m@.index,
                m@.unknown1,
                m@.unknown2,
                m@.unknown3,
                m@.unknown4,
                m@.unknown5,
            ]);
            assert(tw@ =~= seq![m@.unknown6, m@.unknown7, m@.unknown8]);
            assert(zw@ =~= seq![0u32, 0u32]);
            let z = lof_zero_ref(c@.models[i1 - 1]);
            assert(words_bytes(seq![0u32, 0u32]) =~= words_bytes(seq![z.file_offset, z.file_length]));
            assert(sink.data@ =~= pre + cat(chunks0.take(i1 - 1)) + lof_rec_bytes(z));
            assert(chunks0.take(i1 as int) =~= chunks0.take(i1 - 1).push(chunks0[i1 - 1]));
            lemma_cat_push(chunks0.take(i1 - 1), chunks0[i1 - 1]);
            assert(sink.data@ =~= pre + cat(chunks0.take(i1 as int)));
            assert(patches@[i1 - 1] == 24 + cat_off(chunks0, i1 - 1) + lof_rec_pre(
                c@.models[i1 - 1],
            ).len());
        }
    }
    proof {
        assert(chunks0.take(n as int) =~= chunks0);
    }
    // every payload must stay addressable by a 32-bit pair
    let ghost base = 24 + cat(chunks0).len();
    let mut total: u64 = sink.len() as u64;
    let mut i0: usize = 0;
    proof {
        assert(ps.take(0) =~= Seq::<Seq<u8>>::empty());
    }
    while i0 < n
        invariant
            i0 <= n,
            n == c.models@.len(),
            ps.len() == n,
            ps == payloads@.map_values(|p: Vec<u8>| p@),
            base == lof_size(c@),
            total == base + cat(ps.take(i0 as int)).len(),
            total <= u32::MAX,
        decreases n - i0,
    {
        let pl = payloads[i0].len();
        proof {
            assert(ps.take(i0 + 1) =~= ps.take(i0 as int).push(ps[i0 as int]));
            lemma_cat_push(ps.take(i0 as int), ps[i0 as int]);
            assert(ps =~= ps.take(i0 + 1) + ps.skip(i0 + 1));
            lemma_cat_append(ps.take(i0 + 1), ps.skip(i0 + 1));
            crate::bytes::lemma_cat_len_nonneg(ps.skip(i0 + 1));
            assert(ps[i0 as int] == payloads@[i0 as int]@);
        }
        if (pl as u64) > (u32::MAX as u64) - total {
            return Err(Error::Format);
        }
        total = total + pl as u64;
        i0 = i0 + 1;
    }
    proof {
        assert(ps.take(n as int) =~= ps);
    }
    // pass two: stream each payload, then patch its reference pair
    let mut i2: usize = 0;
    proof {
        assert(lof_chunks_mid(c@, ps, 0) =~= chunks0);
        assert(sink.data@ + cat(ps.take(0)) =~= sink.data@);
    }
    while i2 < n
        invariant
            i2 <= n,
            n == c.models@.len(),
            ps.len() == n,
            ps == payloads@.map_values(|p: Vec<u8>| p@),
            lof_wf(c@),
            base == lof_size(c@),
            base + cat(ps).len() <= u32::MAX,
            sink.wf(),
            sink.pos == sink.data@.len(),
            sink.data@.len() == base + cat(ps.take(i2 as int)).len(),
            sink.data@ == pre + cat(lof_chunks_mid(c@, ps, i2 as int)) + cat(ps.take(i2 as int)),
            pre.len() == 24,
            patches@.len() == n,
            forall|j: int|
                0 <= j < n ==> #[trigger] patches@[j] == 24 + cat_off(chunks0, j)
                    + lof_rec_pre(c@.models[j]).len(),
            chunks0 == Seq::new(n as nat, |j: int| lof_rec_bytes(lof_zero_ref(c.models@[j]@))),
        decreases n - i2,
    {
        let ghost cs = lof_chunks_mid(c@, ps, i2 as int);
        proof {
            vstd::bytes::lemma_auto_spec_u32_to_from_le_bytes();
            assert forall|j: int| 0 <= j < n implies (#[trigger] cs[j]).len() == chunks0[j].len()
                && cs[j].len() == lof_rec_pre(c@.models[j]).len() + 8 by {
                lemma_lof_rec_shape(lof_patched_model(c@, ps, j));
                lemma_lof_rec_shape(lof_zero_ref(c@.models[j]));
                assert(lof_rec_pre(lof_patched_model(c@, ps, j)) == lof_rec_pre(c@.models[j]));
                assert(lof_rec_pre(lof_zero_ref(c@.models[j])) == lof_rec_pre(c@.models[j]));
            }
            crate::bytes::lemma_cat_off_eq(cs, chunks0);
            assert(ps =~= ps.take(i2 + 1) + ps.skip(i2 + 1));
            lemma_cat_append(ps.take(i2 + 1), ps.skip(i2 + 1));
            crate::bytes::lemma_cat_len_nonneg(ps.skip(i2 + 1));
            assert(ps.take(i2 + 1) =~= ps.take(i2 as int).push(ps[i2 as int]));
            lemma_cat_push(ps.take(i2 as int), ps[i2 as int]);
            assert(ps[i2 as int] == payloads@[i2 as int]@);
            lemma_cat_chunk_at(chunks0, i2 as int);
            assert(cat_off(chunks0, i2 as int) + chunks0[i2 as int].len() <= cat(chunks0).len());
        }
        let off = sink.len();
        let p = &payloads[i2];
        sink.append(p.as_slice());
        let pl = p.len();
        sink.seek(patches[i2]);
        sink.write_u32(off as u32);
        proof {
            let zw = lof_zero_ref(c@.models[i2 as int]);
            let w = lof_rec_pre(c@.models[i2 as int]).len() as int;
            lemma_cat_patch(
                pre,
                cs,
                cat(ps.take(i2 + 1)),
                i2 as int,
                w,
                spec_u32_to_le_bytes(off as u32),
            );
            let refw = seq![zw.file_offset, zw.file_length];
            assert(cs[i2 as int] == lof_rec_pre(c@.models[i2 as int]) + words_bytes(refw));
            crate::bytes::lemma_splice_concat(
                lof_rec_pre(c@.models[i2 as int]),
                words_bytes(refw),
                Seq::empty(),
                0,
                spec_u32_to_le_bytes(off as u32),
            );
            assert(lof_rec_pre(c@.models[i2 as int]) + words_bytes(refw) + Seq::<u8>::empty()
                =~= cs[i2 as int]);
            lemma_words_bytes_update(refw, 0, off as u32);
            assert(splice(words_bytes(refw), 0, spec_u32_to_le_bytes(off as u32)) == words_bytes(
                refw.update(0, off as u32),
            ));
            assert(splice(cs[i2 as int], w, spec_u32_to_le_bytes(off as u32)) =~= lof_rec_pre(
                c@.models[i2 as int],
            ) + words_bytes(refw.update(0, off as u32)));
        }
        sink.write_u32(pl as u32);
        proof {
            let w = lof_rec_pre(c@.models[i2 as int]).len() as int;
            let refw1 = seq![lof_zero_ref(c@.models[i2 as int]).file_offset, 0u32].update(
                0,
                off as u32,
            );
            let chunk1 = lof_rec_pre(c@.models[i2 as int]) + words_bytes(refw1);
            let cs1 = cs.update(i2 as int, chunk1);
            assert forall|j: int| 0 <= j < n implies (#[trigger] cs1[j]).len() == cs[j].len() by {
                lemma_words_bytes_len(refw1);
                lemma_lof_rec_shape(lof_patched_model(c@, ps, j));
                lemma_lof_rec_shape(lof_zero_ref(c@.models[j]));
            }
            crate::bytes::lemma_cat_off_eq(cs1, cs);
            lemma_cat_patch(
                pre,
                cs1,
                cat(ps.take(i2 + 1)),
                i2 as int,
                w + 4,
                spec_u32_to_le_bytes(pl as u32),
            );
            crate::bytes::lemma_splice_concat(
                lof_rec_pre(c@.models[i2 as int]),
                words_bytes(refw1),
                Seq::empty(),
                4,
                spec_u32_to_le_bytes(pl as u32),
            );
            assert(chunk1 + Seq::<u8>::empty() =~= chunk1);
            lemma_words_bytes_update(refw1, 1, pl as u32);
            let refw2 = refw1.update(1, pl as u32);
            assert(refw2 =~= seq![
                lof_patched_model(c@, ps, i2 as int).file_offset,
                lof_patched_model(c@, ps, i2 as int).file_length,
            ]);
            assert(lof_rec_pre(lof_patched_model(c@, ps, i2 as int)) == lof_rec_pre(
                c@.models[i2 as int],
            ));
            assert(cs1.update(i2 as int, lof_rec_pre(c@.models[i2 as int]) + words_bytes(refw2))
                =~= lof_chunks_mid(c@, ps, i2 + 1));
            assert(sink.data@ == pre + cat(lof_chunks_mid(c@, ps, i2 + 1)) + cat(
                ps.take(i2 + 1),
            ));
        }
        let end = sink.len();
        sink.seek(end);
        i2 = i2 + 1;
    }
    proof {
        assert(ps.take(n as int) =~= ps);
        assert(lof_chunks_mid(c@, ps, n as int) =~= lof_table_chunks(lof_patched(c@, ps).models));
        assert(sink.data@ =~= lof_pack_bytes(c@, ps));
    }
    Ok(sink.into_bytes())
}

/// After a pack, reading `file_length` bytes at `file_offset` of any
/// model reproduces exactly that model's payload.
pub proof fn lemma_lof_patch_invariant(c: LofV, ps: Seq<Seq<u8>>, i: int)
    requires
        lof_wf(c),
        ps.len() == c.models.len(),
        lof_pack_fits(c, ps),
        0 <= i < ps.len(),
    ensures
        ({
            let out = lof_pack_bytes(c, ps);
            let m = lof_patched(c, ps).models[i];
            &&& m.file_offset + m.file_length <= out.len()
            &&& out.subrange(m.file_offset as int, m.file_offset + m.file_length) == ps[i]
        }),
{
    let out = lof_pack_bytes(c, ps);
    let pc = lof_patched(c, ps);
    let m = pc.models[i];
    let a = lof_table_chunks(pc.models);
    let b = lof_table_chunks(c.models);
    assert forall|j: int| 0 <= j < a.len() implies (#[trigger] a[j]).len() == b[j].len() by {
        lemma_lof_rec_shape(pc.models[j]);
        lemma_lof_rec_shape(c.models[j]);
        assert(lof_rec_pre(pc.models[j]) == lof_rec_pre(c.models[j]));
    }
    crate::bytes::lemma_cat_off_eq(a, b);
    assert(lof_bytes(pc).len() == lof_size(c));
    lemma_cat_chunk_at(ps, i);
    assert(m.file_offset == lof_size(c) + cat_off(ps, i));
    assert(m.file_length == ps[i].len());
    assert(out.subrange(m.file_offset as int, m.file_offset + m.file_length) =~= cat(
        ps,
    ).subrange(cat_off(ps, i), cat_off(ps, i) + ps[i].len() as int));
}

/// Re-encoding the decoded strings of every record in the parsed range
/// restores exactly the bytes that were decoded.  This is the codec
/// stability hypothesis of the model-table byte round trip: it holds of
/// every well-formed legacy-encoded string, and fails only on malformed
/// byte sequences, which decode lossily.
pub open spec fn p_lof_stable(b: Seq<u8>, off: int, n: nat) -> bool
    decreases n,
{
    if n == 0 {
        true
    } else if off + 24 <= b.len() {
        let ne = nul_end(b, off + 24);
        if ne < b.len() {
            let fe = nul_end(b, ne + 1);
            if fe < b.len() && fe + 1 + 20 <= b.len() {
                &&& euc_kr_encoded(euc_kr_decoded(b.subrange(off + 24, ne))) == b.subrange(
                    off + 24,
                    ne,
                )
                &&& euc_kr_encoded(euc_kr_decoded(b.subrange(ne + 1, fe))) == b.subrange(
                    ne + 1,
                    fe,
                )
                &&& p_lof_stable(b, fe + 21, (n - 1) as nat)
            } else {
                true
            }
        } else {
            true
        }
    } else {
        true
    }
}

/// What the parser accepts re-serializes to exactly the bytes it read,
/// wherever re-encoding the decoded strings is stable: the model-table
/// round trip.
pub proof fn lemma_lof_models_bytes(b: Seq<u8>, off: int, n: nat)
    requires
        0 <= off <= b.len(),
        p_lof_models(b, off, n) is Some,
        p_lof_stable(b, off, n),
    ensures
        ({
            let (ms, e) = p_lof_models(b, off, n)->Some_0;
            &&& off <= e <= b.len()
            &&& cat(lof_table_chunks(ms)) == b.subrange(off, e)
        }),
    decreases n,
{
    vstd::bytes::lemma_auto_spec_u32_to_from_le_bytes();
    let (ms, e) = p_lof_models(b, off, n)->Some_0;
    if n == 0 {
        assert(lof_table_chunks(ms).len() == 0);
        assert(cat(lof_table_chunks(ms)) =~= b.subrange(off, off));
    } else {
        let ne = nul_end(b, off + 24);
        let fe = nul_end(b, ne + 1);
        lemma_nul_end_bounds(b, off + 24);
        lemma_nul_end_bounds(b, ne + 1);
        let head = p_lof_models(b, off, n)->Some_0.0[0];
        let (rest, e2) = p_lof_models(b, fe + 21, (n - 1) as nat)->Some_0;
        lemma_lof_models_bytes(b, fe + 21, (n - 1) as nat);
        assert(ms == seq![head] + rest);
        // the head record's bytes are exactly its byte range
        lemma_words_at_bytes(b, off, 6);
        lemma_words_at_bytes(b, fe + 1, 5);
        let w6 = seq![
            head.index,
            head.unknown1,
            head.unknown2,
            head.unknown3,
            head.unknown4,
            head.unknown5,
        ];
        let w5 = seq![head.unknown6, head.unknown7, head.unknown8];
        let wr = seq![head.file_offset, head.file_length];
        assert(w6 =~= words_at(b, off, 6));
        assert(words_bytes(w6) == b.subrange(off, off + 24));
        assert(euc_kr_encoded(head.name) == b.subrange(off + 24, ne));
        assert(euc_kr_encoded(head.file_name) == b.subrange(ne + 1, fe));
        assert(seq![0u8] =~= b.subrange(ne, ne + 1));
        assert(seq![0u8] =~= b.subrange(fe, fe + 1));
        assert(w5 + wr =~= words_at(b, fe + 1, 5));
        lemma_words_bytes_append(w5, wr);
        assert(words_bytes(w5) + words_bytes(wr) == b.subrange(fe + 1, fe + 21));
        lemma_words_bytes_len(w5);
        lemma_words_bytes_len(wr);
        assert(words_bytes(w5) =~= b.subrange(fe + 1, fe + 13));
        assert forall|k: int| 0 <= k < 8 implies words_bytes(wr)[k] == b.subrange(
            fe + 13,
            fe + 21,
        )[k] by {
            assert((words_bytes(w5) + words_bytes(wr))[12 + k] == words_bytes(wr)[k]);
            assert(b.subrange(fe + 1, fe + 21)[12 + k] == b[fe + 13 + k]);
        }
        assert(words_bytes(wr) =~= b.subrange(fe + 13, fe + 21));
        assert(lof_rec_bytes(head) =~= b.subrange(off, fe + 21));
        // and the rest follows by induction
        let chunks = lof_table_chunks(ms);
        assert(chunks.drop_first() =~= lof_table_chunks(rest));
        assert(chunks[0] == lof_rec_bytes(head));
        assert(cat(chunks) == chunks[0] + cat(lof_table_chunks(rest)));
        assert(b.subrange(off, fe + 21) + b.subrange(fe + 21, e) =~= b.subrange(off, e));
    }
}

/// The model-table round trip at full container level: packing what was
/// parsed, with the payloads laid out contiguously after the table,
/// restores the container byte for byte — given string-codec stability.
pub proof fn lemma_lof_known_roundtrip(b: Seq<u8>)
    requires
        lof_parse_spec(b) is Some,
        p_lof_stable(b, 24, lof_parse_spec(b)->Some_0.header.model_count as nat),
        b.len() <= u32::MAX,
        lof_contiguous(lof_parse_spec(b)->Some_0, b),
    ensures
        ({
            let c = lof_parse_spec(b)->Some_0;
            let ps = lof_extract(c, b);
            &&& lof_pack_fits(c, ps)
            &&& lof_pack_bytes(c, ps) == b
        }),
{
    let c = lof_parse_spec(b)->Some_0;
    let ps = lof_extract(c, b);
    vstd::bytes::lemma_auto_spec_u32_to_from_le_bytes();
    lemma_lof_models_bytes(b, 24, c.header.model_count as nat);
    let (ms, e) = p_lof_models(b, 24, c.header.model_count as nat)->Some_0;
    assert(ms == c.models);
    lemma_words_at_bytes(b, 8, 4);
    assert(lof_header_words(c.header) =~= words_at(b, 8, 4));
    assert(lof_bytes(c) =~= b.subrange(0, e));
    assert(lof_size(c) == e);
    assert(lof_pack_fits(c, ps)) by {
        assert(b.len() == lof_size(c) + cat(ps).len());
    }
    let pc = lof_patched(c, ps);
    assert forall|i: int| 0 <= i < c.models.len() implies pc.models[i] == c.models[i] by {
        assert(c.models[i].file_offset == lof_size(c) + cat_off(ps, i));
        assert(ps[i].len() == c.models[i].file_length);
    }
    assert(pc.models =~= c.models);
    assert forall|i: int| 0 <= i < ps.len() implies #[trigger] ps[i] == b.subrange(
        lof_size(c) + cat_off(ps, i),
        lof_size(c) + cat_off(ps, i) + ps[i].len(),
    ) by {
        assert(c.models[i].file_offset == lof_size(c) + cat_off(ps, i));
    }
    crate::bytes::lemma_cat_consecutive(b, lof_size(c), ps);
    assert(lof_pack_bytes(c, ps) =~= b);
}

/// Every model's payload range lies inside the file.
pub open spec fn lof_extract_ok(c: LofV, b: Seq<u8>) -> bool {
    forall|i: int|
        0 <= i < c.models.len() ==> (#[trigger] c.models[i]).file_offset
            + c.models[i].file_length <= b.len()
}

/// The payload blobs of all models, in table order.
pub open spec fn lof_extract(c: LofV, b: Seq<u8>) -> Seq<Seq<u8>> {
    Seq::new(
        c.models.len(),
        |i: int| b.subrange(
            c.models[i].file_offset as int,
            c.models[i].file_offset + c.models[i].file_length,
        ),
    )
}

/// The payload layout hypothesis of the byte-level round trip.
pub open spec fn lof_contiguous(c: LofV, b: Seq<u8>) -> bool {
    &&& lof_extract_ok(c, b)
    &&& (forall|i: int|
        0 <= i < c.models.len() ==> (#[trigger] c.models[i]).file_offset == lof_size(c) + cat_off(
            lof_extract(c, b),
            i,
        ))
    &&& b.len() == lof_size(c) + cat(lof_extract(c, b)).len()
}

/// Random-access extraction of every model's payload byte range.
pub fn lof_extract_payloads(c: &Lof, data: &[u8]) -> (r: Result<Vec<Vec<u8>>, Error>)
    ensures
        match r {
            Ok(v) => {
                &&& lof_extract_ok(c@, data@)
                &&& v@.map_values(|p: Vec<u8>| p@) == lof_extract(c@, data@)
            },
            Err(e) => {
                &&& e == Error::Format
                &&& !lof_extract_ok(c@, data@)
            },
        },
{
    let mut out: Vec<Vec<u8>> = Vec::new();
    let n = c.models.len();
    let mut i: usize = 0;
    while i < n
        invariant
            i <= n,
            n == c.models@.len(),
            out@.len() == i,
            forall|j: int|
                0 <= j < i ==> (#[trigger] c.models@[j])@.file_offset + c.models@[j]@.file_length
                    <= data@.len(),
            out@.map_values(|p: Vec<u8>| p@) =~= lof_extract(c@, data@).take(i as int),
        decreases n - i,
    {
        let m = &c.models[i];
        if (m.file_offset as u64) + (m.file_length as u64) > data.len() as u64 {
            proof {
                assert(c@.models[i as int] == c.models@[i as int]@);
                assert(!lof_extract_ok(c@, data@));
            }
            return Err(Error::Format);
        }
        let start = m.file_offset as usize;
        let end = start + m.file_length as usize;
        let piece = vstd::slice::slice_to_vec(vstd::slice::slice_subrange(data, start, end));
        out.push(piece);
        i = i + 1;
        proof {
            assert(out@.map_values(|p: Vec<u8>| p@) =~= lof_extract(c@, data@).take(i as int));
        }
    }
    proof {
        assert(lof_extract(c@, data@).take(n as int) =~= lof_extract(c@, data@));
    }
    Ok(out)
}

pub open spec fn lof_tag() -> Seq<char> {
    "model_table\n"@
}

pub open spec fn lof_model_front_words(m: LofModelV) -> Seq<u32> {
    seq![m.index, m.unknown1, m.unknown2, m.unknown3, m.unknown4, m.unknown5]
}

pub open spec fn lof_model_back_words(m: LofModelV) -> Seq<u32> {
    seq![m.unknown6, m.unknown7, m.unknown8, m.file_offset, m.file_length]
}

/// One model's manifest lines: six words, the two strings, five words.
pub open spec fn lof_model_doc(m: LofModelV) -> Seq<char> {
    nums_tok(lof_model_front_words(m)) + str_tok(m.name) + str_tok(m.file_name) + nums_tok(
        lof_model_back_words(m),
    )
}

pub open spec fn lof_models_doc(ms: Seq<LofModelV>) -> Seq<char>
    decreases ms.len(),
{
    if ms.len() == 0 {
        Seq::empty()
    } else {
        lof_model_doc(ms[0]) + lof_models_doc(ms.drop_first())
    }
}

/// The manifest document: format tag, header words, then each model.
pub open spec fn lof_doc(c: LofV) -> Seq<char> {
    lof_tag() + nums_tok(lof_header_words(c.header)) + lof_models_doc(c.models)
}

pub open spec fn p_lof_models_doc(s: Seq<char>, off: int, n: nat) -> Option<(Seq<LofModelV>, int)>
    decreases n,
{
    if n == 0 {
        Some((Seq::empty(), off))
    } else {
        match p_nums(s, off, 6) {
            Some((fw, e1)) => match p_str(s, e1) {
                Some((name, e2)) => match p_str(s, e2) {
                    Some((file_name, e3)) => match p_nums(s, e3, 5) {
                        Some((bw, e4)) => {
                            let m = LofModelV {
                                index: fw[0],
                                unknown1: fw[1],
                                unknown2: fw[2],
                                unknown3: fw[3],
                                unknown4: fw[4],
                                unknown5: fw[5],
                                name: name,
                                file_name: file_name,
                                unknown6: bw[0],
                                unknown7: bw[1],
                                unknown8: bw[2],
                                file_offset: bw[3],
                                file_length: bw[4],
                            };
                            match p_lof_models_doc(s, e4, (n - 1) as nat) {
                                Some((rest, e)) => Some((seq![m] + rest, e)),
                                None => None,
                            }
                        },
                        None => None,
                    },
                    None => None,
                },
                None => None,
            },
            None => None,
        }
    }
}

pub open spec fn lof_doc_parse(s: Seq<char>) -> Option<LofV> {
    if s.len() >= lof_tag().len() && s.subrange(0, lof_tag().len() as int) == lof_tag() {
        match p_nums(s, lof_tag().len() as int, 4) {
            Some((hw, e1)) => {
                let h = LofHeader {
                    unknown1: hw[0],
                    version_date: hw[1],
                    model_count: hw[2],
                    unknown2: hw[3],
                };
                match p_lof_models_doc(s, e1, h.model_count as nat) {
                    Some((ms, e2)) => if e2 == s.len() {
                        Some(LofV { header: h, models: ms })
                    } else {
                        None
                    },
                    None => None,
                }
            },
            None => None,
        }
    } else {
        None
    }
}

/// One model's manifest lines parse back to exactly that model.
#[verifier::rlimit(100)]
proof fn lemma_lof_model_doc_parse(pre: Seq<char>, m: LofModelV, rest: Seq<char>)
    requires
        m.name.len() <= u32::MAX,
        m.file_name.len() <= u32::MAX,
    ensures
        ({
            let s = pre + lof_model_doc(m) + rest;
            let fw = lof_model_front_words(m);
            let bw = lof_model_back_words(m);
            &&& p_nums(s, pre.len() as int, 6) == Some::<(Seq<u32>, int)>(
                (fw, pre.len() + nums_tok(fw).len() as int),
            )
            &&& p_str(s, pre.len() + nums_tok(fw).len() as int) == Some::<(Seq<char>, int)>(
                (m.name, pre.len() + nums_tok(fw).len() + str_tok(m.name).len() as int),
            )
            &&& p_str(s, pre.len() + nums_tok(fw).len() + str_tok(m.name).len() as int)
                == Some::<(Seq<char>, int)>(
                (
                    m.file_name,
                    pre.len() + nums_tok(fw).len() + str_tok(m.name).len() + str_tok(
                        m.file_name,
                    ).len() as int,
                ),
            )
            &&& p_nums(
                s,
                pre.len() + nums_tok(fw).len() + str_tok(m.name).len() + str_tok(
                    m.file_name,
                ).len() as int,
                5,
            ) == Some::<(Seq<u32>, int)>((bw, pre.len() + lof_model_doc(m).len() as int))
        }),
{
    let s = pre + lof_model_doc(m) + rest;
    let fw = lof_model_front_words(m);
    let bw = lof_model_back_words(m);
    let t1 = str_tok(m.name) + str_tok(m.file_name) + nums_tok(bw) + rest;
    assert(s =~= pre + nums_tok(fw) + t1);
    lemma_p_nums(pre, fw, t1);
    let p1 = pre + nums_tok(fw);
    let t2 = str_tok(m.file_name) + nums_tok(bw) + rest;
    assert(s =~= p1 + str_tok(m.name) + t2);
    lemma_p_str(p1, m.name, t2);
    let p2 = p1 + str_tok(m.name);
    let t3 = nums_tok(bw) + rest;
    assert(s =~= p2 + str_tok(m.file_name) + t3);
    lemma_p_str(p2, m.file_name, t3);
    let p3 = p2 + str_tok(m.file_name);
    assert(s =~= p3 + nums_tok(bw) + rest);
    lemma_p_nums(p3, bw, rest);
}

/// The manifest lines of a model list parse back to exactly that list.
#[verifier::rlimit(100)]
proof fn lemma_lof_models_doc_roundtrip(pre: Seq<char>, ms: Seq<LofModelV>, rest: Seq<char>)
    requires
        forall|i: int|
            0 <= i < ms.len() ==> (#[trigger] ms[i]).name.len() <= u32::MAX
                && ms[i].file_name.len() <= u32::MAX,
    ensures
        p_lof_models_doc(pre + lof_models_doc(ms) + rest, pre.len() as int, ms.len())
            == Some::<(Seq<LofModelV>, int)>(
            (ms, pre.len() + lof_models_doc(ms).len() as int),
        ),
    decreases ms.len(),
{
    let s = pre + lof_models_doc(ms) + rest;
    if ms.len() == 0 {
        assert(ms =~= Seq::<LofModelV>::empty());
    } else {
        let m = ms[0];
        let mr = ms.drop_first();
        assert(lof_models_doc(ms) == lof_model_doc(m) + lof_models_doc(mr));
        assert(s =~= pre + lof_model_doc(m) + (lof_models_doc(mr) + rest));
        lemma_lof_model_doc_parse(pre, m, lof_models_doc(mr) + rest);
        let p4 = pre + lof_model_doc(m);
        assert(s =~= p4 + lof_models_doc(mr) + rest);
        assert forall|i: int|
            0 <= i < mr.len() implies (#[trigger] mr[i]).name.len() <= u32::MAX
            && mr[i].file_name.len() <= u32::MAX by {
            assert(mr[i] == ms[i + 1]);
        }
        lemma_lof_models_doc_roundtrip(p4, mr, rest);
        let got = p_lof_models_doc(s, pre.len() as int, ms.len())->Some_0.0;
        assert(got[0] =~= m);
        assert(seq![got[0]] + mr =~= ms);
        assert(p4.len() + lof_models_doc(mr).len() == pre.len() + lof_models_doc(ms).len());
    }
}

/// Serializing a container to a manifest document and reading it back
/// restores the container exactly.
pub proof fn lemma_lof_doc_roundtrip(c: LofV)
    requires
        lof_wf(c),
    ensures
        lof_doc_parse(lof_doc(c)) == Some(c),
{
    let hw = lof_header_words(c.header);
    let s = lof_doc(c);
    assert(s =~= lof_tag() + nums_tok(hw) + lof_models_doc(c.models));
    assert(s.subrange(0, lof_tag().len() as int) =~= lof_tag());
    lemma_p_nums(lof_tag(), hw, lof_models_doc(c.models));
    assert(s =~= (lof_tag() + nums_tok(hw)) + lof_models_doc(c.models) + Seq::<char>::empty());
    lemma_lof_models_doc_roundtrip(lof_tag() + nums_tok(hw), c.models, Seq::empty());
    let c2 = lof_doc_parse(s)->Some_0;
    assert(c2 =~= c);
}

/// Whatever the manifest parser accepts is well formed.
pub proof fn lemma_lof_doc_parse_wf(s: Seq<char>)
    requires
        lof_doc_parse(s) is Some,
    ensures
        lof_wf(lof_doc_parse(s)->Some_0),
{
    let tl = lof_tag().len() as int;
    let (hw, e1) = p_nums(s, tl, 4)->Some_0;
    let n = hw[2] as nat;
    lemma_lof_models_doc_wf(s, e1, n);
    crate::doc::lemma_p_nums_len(s, tl, 4);
}

proof fn lemma_lof_models_doc_wf(s: Seq<char>, off: int, n: nat)
    requires
        p_lof_models_doc(s, off, n) is Some,
    ensures
        p_lof_models_doc(s, off, n)->Some_0.0.len() == n,
        forall|i: int|
            0 <= i < n ==> (#[trigger] p_lof_models_doc(s, off, n)->Some_0.0[i]).name.len()
                <= u32::MAX && p_lof_models_doc(s, off, n)->Some_0.0[i].file_name.len()
                <= u32::MAX,
    decreases n,
{
    if n > 0 {
        let (fw, e1) = p_nums(s, off, 6)->Some_0;
        let (name, e2) = p_str(s, e1)->Some_0;
        let (file_name, e3) = p_str(s, e2)->Some_0;
        let (bw, e4) = p_nums(s, e3, 5)->Some_0;
        lemma_lof_models_doc_wf(s, e4, (n - 1) as nat);
        let ms = p_lof_models_doc(s, off, n)->Some_0.0;
        let rest = p_lof_models_doc(s, e4, (n - 1) as nat)->Some_0.0;
        crate::doc::lemma_p_str_len(s, e1);
        crate::doc::lemma_p_str_len(s, e2);
        assert forall|i: int|
            0 <= i < n implies (#[trigger] ms[i]).name.len() <= u32::MAX
            && ms[i].file_name.len() <= u32::MAX by {
            if i > 0 {
                assert(ms[i] == rest[i - 1]);
            }
        }
    }
}

/// Re-serializing a parsed manifest document parses back to the very
/// same value.
pub proof fn lemma_lof_manifest_idempotent(s: Seq<char>)
    requires
        lof_doc_parse(s) is Some,
    ensures
        lof_doc_parse(lof_doc(lof_doc_parse(s)->Some_0)) == lof_doc_parse(s),
{
    lemma_lof_doc_parse_wf(s);
    lemma_lof_doc_roundtrip(lof_doc_parse(s)->Some_0);
}

/// Project a container into its manifest document.
pub fn lof_manifest(c: &Lof) -> (s: String)
    requires
        lof_wf(c@),
    ensures
        s@ == lof_doc(c@),
{
    let mut out = String::new();
    out.append("model_table\n");
    let mut hw: Vec<u32> = Vec::new();
    hw.push(c.header.unknown1);
    hw.push(c.header.version_date);
    hw.push(c.header.model_count);
    hw.push(c.header.unknown2);
    proof {
        assert(hw@ =~= lof_header_words(c@.header));
    }
    crate::doc::put_nums(&mut out, &hw);
    let ghost pre = lof_tag() + nums_tok(lof_header_words(c@.header));
    proof {
        assert(out@ =~= pre + lof_models_doc(c@.models.take(0)));
    }
    let n = c.models.len();
    let mut i: usize = 0;
    while i < n
        invariant
            i <= n,
            n == c.models@.len(),
            lof_wf(c@),
            out@ == pre + lof_models_doc(c@.models.take(i as int)),
        decreases n - i,
    {
        let m = &c.models[i];
        let mut fw: Vec<u32> = Vec::new();
        fw.push(m.index);
        fw.push(m.unknown1);
        fw.push(m.unknown2);
        fw.push(m.unknown3);
        fw.push(m.unknown4);
        fw.push(m.unknown5);
        crate::doc::put_nums(&mut out, &fw);
        proof {
            assert(c@.models[i as int] == c.models@[i as int]@);
            assert(m@.name.len() <= u32::MAX);
            assert(m@.file_name.len() <= u32::MAX);
        }
        crate::doc::put_str_tok(&mut out, m.name.as_str());
        crate::doc::put_str_tok(&mut out, m.file_name.as_str());
        let mut bw: Vec<u32> = Vec::new();
        bw.push(m.unknown6);
        bw.push(m.unknown7);
        bw.push(m.unknown8);
        bw.push(m.file_offset);
        bw.push(m.file_length);
        crate::doc::put_nums(&mut out, &bw);
        i = i + 1;
        proof {
            assert(fw@ =~= lof_model_front_words(c@.models[i - 1]));
            assert(bw@ =~= lof_model_back_words(c@.models[i - 1]));
            lemma_lof_models_doc_push(c@.models.take(i - 1), c@.models[i - 1]);
            assert(c@.models.take(i as int) =~= c@.models.take(i - 1).push(c@.models[i - 1]));
            assert(out@ =~= pre + lof_models_doc(c@.models.take(i as int)));
        }
    }
    proof {
        assert(c@.models.take(n as int) =~= c@.models);
    }
    out
}

proof fn lemma_lof_models_doc_push(ms: Seq<LofModelV>, m: LofModelV)
    ensures
        lof_models_doc(ms.push(m)) == lof_models_doc(ms) + lof_model_doc(m),
    decreases ms.len(),
{
    if ms.len() == 0 {
        let s = ms.push(m);
        assert(s.drop_first() =~= Seq::<LofModelV>::empty());
        assert(lof_models_doc(s) == lof_model_doc(m) + lof_models_doc(s.drop_first()));
        assert(lof_model_doc(m) + Seq::<char>::empty() =~= lof_model_doc(m));
        assert(Seq::<char>::empty() + lof_model_doc(m) =~= lof_model_doc(m));
    } else {
        lemma_lof_models_doc_push(ms.drop_first(), m);
        assert(ms.push(m).drop_first() =~= ms.drop_first().push(m));
        assert(ms.push(m)[0] == ms[0]);
        assert(lof_model_doc(ms[0]) + (lof_models_doc(ms.drop_first()) + lof_model_doc(m)) =~= (
        lof_model_doc(ms[0]) + lof_models_doc(ms.drop_first())) + lof_model_doc(m));
    }
}

/// Rebuild a container from its manifest document; mirrors
/// `lof_doc_parse`.
#[verifier::loop_isolation(false)]
pub fn lof_manifest_parse(s: &str) -> (r: Result<Lof, Error>)
    ensures
        match r {
            Ok(c) => {
                &&& lof_doc_parse(s@) == Some(c@)
                &&& lof_wf(c@)
            },
            Err(e) => {
                &&& e == Error::Document
                &&& lof_doc_parse(s@) is None
            },
        },
{
    let mut rd = DocReader::new(s);
    match rd.expect_lit("model_table\n") {
        Ok(()) => {},
        Err(_) => {
            return Err(Error::Document);
        },
    }
    let hw = match rd.read_nums(4) {
        Ok(w) => w,
        Err(_) => {
            return Err(Error::Document);
        },
    };
    let h = LofHeader {
        unknown1: hw[0],
        version_date: hw[1],
        model_count: hw[2],
        unknown2: hw[3],
    };
    let nm = h.model_count as usize;
    let ghost e1g = rd.pos as int;
    let mut models: Vec<LofModel> = Vec::new();
    let mut i: usize = 0;
    while i < nm
        invariant
            rd.wf(),
            rd.s@ == s@,
            i <= nm,
            models@.len() == i,
            forall|j: int|
                0 <= j < i ==> (#[trigger] models@[j])@.name.len() <= u32::MAX
                    && models@[j]@.file_name.len() <= u32::MAX,
            p_lof_models_doc(s@, e1g, nm as nat) == (match p_lof_models_doc(
                s@,
                rd.pos as int,
                (nm - i) as nat,
            ) {
                Some((rest, e)) => Some::<(Seq<LofModelV>, int)>(
                    (models@.map_values(|m: LofModel| m@) + rest, e),
                ),
                None => None::<(Seq<LofModelV>, int)>,
            }),
        decreases nm - i,
    {
        let fw = match rd.read_nums(6) {
            Ok(w) => w,
            Err(_) => {
                return Err(Error::Document);
            },
        };
        let ghost name_pos = rd.pos as int;
        let name = match rd.read_str() {
            Ok(t) => t,
            Err(_) => {
                return Err(Error::Document);
            },
        };
        let ghost file_pos = rd.pos as int;
        let file_name = match rd.read_str() {
            Ok(t) => t,
            Err(_) => {
                return Err(Error::Document);
            },
        };
        let bw = match rd.read_nums(5) {
            Ok(w) => w,
            Err(_) => {
                return Err(Error::Document);
            },
        };
        proof {
            crate::doc::lemma_p_str_len(s@, name_pos);
            crate::doc::lemma_p_str_len(s@, file_pos);
        }
        let m = LofModel {
            index: fw[0],
            unknown1: fw[1],
            unknown2: fw[2],
            unknown3: fw[3],
            unknown4: fw[4],
            unknown5: fw[5],
            name,
            file_name,
            unknown6: bw[0],
            unknown7: bw[1],
            unknown8: bw[2],
            file_offset: bw[3],
            file_length: bw[4],
        };
        proof {
            crate::num::lemma_digits_end_bounds(s@, rd.pos as int);
        }
        models.push(m);
        i = i + 1;
        proof {
            let m0 = models@.take(i - 1).map_values(|x: LofModel| x@);
            let m1 = models@.map_values(|x: LofModel| x@);
            assert(models@.take(i - 1) =~= models@.drop_last());
            assert(m1 =~= m0.push(models@[i - 1]@));
            match p_lof_models_doc(s@, rd.pos as int, (nm - i) as nat) {
                Some((rest, e)) => {
                    assert(m0 + (seq![models@[i - 1]@] + rest) =~= m1 + rest);
                },
                None => {},
            }
        }
    }
    if !rd.at_end() {
        return Err(Error::Document);
    }
    proof {
        assert(models@.map_values(|x: LofModel| x@) + Seq::<LofModelV>::empty()
            =~= models@.map_values(|x: LofModel| x@));
    }
    let c = Lof { header: h, models };
    proof {
        assert(c@ =~= lof_doc_parse(s@)->Some_0);
    }
    Ok(c)
}

/// One model-table operation on plain values; the caller reads and
/// writes the files.
pub enum LofCommand {
    /// container bytes
    Info(Vec<u8>),
    /// container bytes
    Unpack(Vec<u8>),
    /// manifest text and, per model in table order, the bytes of the
    /// sidecar file its stored path names (`None` where it is missing)
    Pack(String, Vec<Option<Vec<u8>>>),
}

pub struct LofOpts {
    pub cmd: LofCommand,
}

#[derive(Clone, Copy, PartialEq, Eq, Structural, Debug)]
pub struct LofInfo {
    pub model_count: u32,
}

pub enum LofOutcome {
    Info(LofInfo),
    /// the manifest document and one sidecar per model, named by its
    /// stored relative file path
    Unpack(String, Vec<crate::Payload>),
    /// the packed container bytes
    Pack(Vec<u8>),
}

pub open spec fn lof_given_payloads(sidecars: Seq<Option<Vec<u8>>>, n: int) -> Seq<Seq<u8>> {
    Seq::new(n as nat, |i: int| sidecars[i]->Some_0@)
}

pub open spec fn lof_all_present(sidecars: Seq<Option<Vec<u8>>>, n: int) -> bool {
    forall|i: int| 0 <= i < n ==> i < sidecars.len() && (#[trigger] sidecars[i]) is Some
}

/// Run one model-table command on in-memory values.
#[verifier::loop_isolation(false)]
pub fn process_lof(opts: LofOpts) -> (r: Result<LofOutcome, Error>)
    ensures
        match opts.cmd {
            LofCommand::Info(data) => match r {
                Ok(o) => {
                    &&& lof_header_parse_spec(data@) is Some
                    &&& o matches LofOutcome::Info(info)
                    &&& info.model_count == lof_header_parse_spec(data@)->Some_0.model_count
                },
                Err(e) => {
                    &&& e == Error::Format
                    &&& lof_header_parse_spec(data@) is None
                },
            },
            LofCommand::Unpack(data) => match r {
                Ok(o) => {
                    let c = lof_parse_spec(data@)->Some_0;
                    &&& lof_parse_spec(data@) is Some
                    &&& lof_extract_ok(c, data@)
                    &&& o matches LofOutcome::Unpack(m, sc)
                    &&& m@ == lof_doc(c)
                    &&& sc@.len() == c.models.len()
                    &&& (forall|i: int|
                        0 <= i < c.models.len() ==> (#[trigger] sc@[i]).name@
                            == c.models[i].file_name && sc@[i].data@ == lof_extract(c, data@)[i])
                },
                Err(e) => {
                    &&& e == Error::Format
                    &&& (lof_parse_spec(data@) is None || !lof_extract_ok(
                        lof_parse_spec(data@)->Some_0,
                        data@,
                    ))
                },
            },
            LofCommand::Pack(m, sidecars) => match r {
                Ok(o) => {
                    let c = lof_doc_parse(m@)->Some_0;
                    let ps = lof_given_payloads(sidecars@, c.models.len() as int);
                    &&& lof_doc_parse(m@) is Some
                    &&& lof_all_present(sidecars@, c.models.len() as int)
                    &&& lof_pack_fits(c, ps)
                    &&& o matches LofOutcome::Pack(out)
                    &&& out@ == lof_pack_bytes(c, ps)
                },
                Err(Error::Document) => lof_doc_parse(m@) is None,
                Err(Error::MissingPayload) => {
                    &&& lof_doc_parse(m@) is Some
                    &&& !lof_all_present(sidecars@, lof_doc_parse(m@)->Some_0.models.len() as int)
                },
                Err(Error::Format) => {
                    let c = lof_doc_parse(m@)->Some_0;
                    &&& lof_doc_parse(m@) is Some
                    &&& lof_all_present(sidecars@, c.models.len() as int)
                    &&& !lof_pack_fits(c, lof_given_payloads(sidecars@, c.models.len() as int))
                },
            },
        },
{
    match opts.cmd {
        LofCommand::Info(data) => {
            let h = match lof_parse_header(data.as_slice()) {
                Ok(h) => h,
                Err(e) => {
                    return Err(e);
                },
            };
            Ok(LofOutcome::Info(LofInfo { model_count: h.model_count }))
        },
        LofCommand::Unpack(data) => {
            let c = match lof_parse(data.as_slice()) {
                Ok(c) => c,
                Err(e) => {
                    return Err(e);
                },
            };
            let m = lof_manifest(&c);
            let blobs = match lof_extract_payloads(&c, data.as_slice()) {
                Ok(v) => v,
                Err(e) => {
                    return Err(e);
                },
            };
            let mut sc: Vec<crate::Payload> = Vec::new();
            let mut i: usize = 0;
            let n = c.models.len();
            let mut rest = blobs;
            proof {
                assert(rest@.map_values(|p: Vec<u8>| p@) == lof_extract(c@, data@));
                assert(rest@.len() == n);
            }
            while i < n
                invariant
                    i <= n,
                    n == c.models@.len(),
                    rest@.len() == n - i,
                    sc@.len() == i,
                    forall|j: int|
                        0 <= j < i ==> (#[trigger] sc@[j]).name@ == c@.models[j].file_name
                            && sc@[j].data@ == lof_extract(c@, data@)[j],
                    forall|j: int|
                        0 <= j < n - i ==> (#[trigger] rest@[j])@ == lof_extract(c@, data@)[i + j],
                decreases n - i,
            {
                let blob = rest.remove(0);
                let name = c.models[i].file_name.as_str().to_owned();
                sc.push(crate::Payload { name, data: blob });
                i = i + 1;
                proof {
                    assert(c@.models[i - 1] == c.models@[i - 1]@);
                }
            }
            Ok(LofOutcome::Unpack(m, sc))
        },
        LofCommand::Pack(m, sidecars) => {
            let c = match lof_manifest_parse(m.as_str()) {
                Ok(c) => c,
                Err(e) => {
                    return Err(e);
                },
            };
            let n = c.models.len();
            let mut ps: Vec<Vec<u8>> = Vec::new();
            let mut i: usize = 0;
            while i < n
                invariant
                    i <= n,
                    n == c.models@.len(),
                    lof_doc_parse(m@) == Some(c@),
                    ps@.len() == i,
                    forall|j: int|
                        0 <= j < i ==> j < sidecars@.len() && (#[trigger] sidecars@[j]) is Some,
                    ps@.map_values(|p: Vec<u8>| p@) =~= lof_given_payloads(
                        sidecars@,
                        n as int,
                    ).take(i as int),
                decreases n - i,
            {
                if i >= sidecars.len() {
                    proof {
                        assert(!(i < sidecars@.len() && sidecars@[i as int] is Some));
                        assert(!lof_all_present(sidecars@, n as int));
                    }
                    return Err(Error::MissingPayload);
                }
                let blob = match &sidecars[i] {
                    Some(d) => vstd::slice::slice_to_vec(d.as_slice()),
                    None => {
                        proof {
                            assert(!(sidecars@[i as int] is Some));
                            assert(!lof_all_present(sidecars@, n as int));
                        }
                        return Err(Error::MissingPayload);
                    },
                };
                ps.push(blob);
                i = i + 1;
                proof {
                    assert(ps@.map_values(|p: Vec<u8>| p@) =~= lof_given_payloads(
                        sidecars@,
                        n as int,
                    ).take(i as int));
                }
            }
            proof {
                assert(lof_given_payloads(sidecars@, n as int).take(n as int)
                    =~= lof_given_payloads(sidecars@, n as int));
            }
            let out = match lof_pack(&c, &ps) {
                Ok(v) => v,
                Err(e) => {
                    return Err(e);
                },
            };
            proof {
                assert(ps@.map_values(|p: Vec<u8>| p@) == lof_given_payloads(sidecars@, n as int));
            }
            Ok(LofOutcome::Pack(out))
        },
    }
}

/// Find the next NUL byte; the record is malformed without one.
fn scan_nul(data: &[u8], start: usize) -> (r: Result<usize, Error>)
    requires
        start <= data@.len(),
    ensures
        match r {
            Ok(e) => {
                &&& start <= e
                &&& e == nul_end(data@, start as int)
                &&& e < data@.len()
                &&& data@[e as int] == 0
            },
            Err(err) => {
                &&& err == Error::Format
                &&& nul_end(data@, start as int) == data@.len()
            },
        },
{
    let mut j: usize = start;
    loop
        invariant
            start <= j <= data@.len(),
            nul_end(data@, start as int) == nul_end(data@, j as int),
        ensures
            start <= j <= data@.len(),
            nul_end(data@, start as int) == nul_end(data@, j as int),
            j == data@.len() || data@[j as int] == 0,
        decreases data@.len() - j,
    {
        if j == data.len() {
            break;
        }
        if data[j] == 0 {
            break;
        }
        j = j + 1;
    }
    if j == data.len() {
        Err(Error::Format)
    } else {
        Ok(j)
    }
}

} // verus!
