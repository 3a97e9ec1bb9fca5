//! Parameter-table containers behind the magic `DPDB`: a header of four
//! length words and four id arrays, then four value tables whose row
//! count is fixed by the header's date and whose row width is the
//! matching length field.  Pure data, no payload blobs: packing what was
//! unpacked is byte-identical.
use crate::bytes::{
    bytes_eq, lemma_words_at_bytes, lemma_words_bytes_append, words_at, words_bytes, Reader,
    Sink,
};
use crate::doc::{lemma_nums_tok_append, lemma_p_nums, nums_tok, p_nums, DocReader};
use crate::Error;
use vstd::prelude::*;

verus! {

pub struct LmHeader {
    pub version_date: u32,
    pub speed_length: u32,
    pub accel_length: u32,
    pub dura_length: u32,
    pub boost_length: u32,
    pub speed_ids: Vec<u32>,
    pub accel_ids: Vec<u32>,
    pub dura_ids: Vec<u32>,
    pub boost_ids: Vec<u32>,
}

#[verifier::ext_equal]
pub struct LmHeaderV {
    pub version_date: u32,
    pub speed_length: u32,
    pub accel_length: u32,
    pub dura_length: u32,
    pub boost_length: u32,
    pub speed_ids: Seq<u32>,
    pub accel_ids: Seq<u32>,
    pub dura_ids: Seq<u32>,
    pub boost_ids: Seq<u32>,
}

impl View for LmHeader {
    type V = LmHeaderV;

    open spec fn view(&self) -> LmHeaderV {
        LmHeaderV {
            version_date: self.version_date,
            speed_length: self.speed_length,
            accel_length: self.accel_length,
            dura_length: self.dura_length,
            boost_length: self.boost_length,
            speed_ids: self.speed_ids@,
            accel_ids: self.accel_ids@,
            dura_ids: self.dura_ids@,
            boost_ids: self.boost_ids@,
        }
    }
}

/// A parameter table; each row of a value table is kept as the raw bit
/// patterns of its fixed-width numeric vector.
pub struct LevelModifier {
    pub header: LmHeader,
    pub speed: Vec<Vec<u32>>,
    pub accel: Vec<Vec<u32>>,
    pub dura: Vec<Vec<u32>>,
    pub boost: Vec<Vec<u32>>,
}

#[verifier::ext_equal]
pub struct LmV {
    pub header: LmHeaderV,
    pub speed: Seq<Seq<u32>>,
    pub accel: Seq<Seq<u32>>,
    pub dura: Seq<Seq<u32>>,
    pub boost: Seq<Seq<u32>>,
}

impl View for LevelModifier {
    type V = LmV;

    open spec fn view(&self) -> LmV {
        LmV {
            header: self.header@,
            speed: self.speed@.map_values(|r: Vec<u32>| r@),
            accel: self.accel@.map_values(|r: Vec<u32>| r@),
            dura: self.dura@.map_values(|r: Vec<u32>| r@),
            boost: self.boost@.map_values(|r: Vec<u32>| r@),
        }
    }
}

pub open spec fn lm_magic() -> Seq<u8> {
    seq![68u8, 80u8, 68u8, 66u8]
}

fn lm_magic_vec() -> (v: Vec<u8>)
    ensures
        v@ == lm_magic(),
{
    let mut v: Vec<u8> = Vec::new();
    v.push(68);
    v.push(80);
    v.push(68);
    v.push(66);
    proof {
        assert(v@ =~= lm_magic());
    }
    v
}

/// Row count of every value table, fixed by the header's date.
pub open spec fn lm_row_count(version_date: u32) -> int {
    if version_date > 20070507 {
        1001
    } else {
        801
    }
}

pub open spec fn rows_wf(rows: Seq<Seq<u32>>, nr: int, l: int) -> bool {
    &&& rows.len() == nr
    &&& forall|i: int| 0 <= i < rows.len() ==> (#[trigger] rows[i]).len() == l
}

pub open spec fn lm_wf(c: LmV) -> bool {
    &&& c.header.speed_ids.len() == c.header.speed_length
    &&& c.header.accel_ids.len() == c.header.accel_length
    &&& c.header.dura_ids.len() == c.header.dura_length
    &&& c.header.boost_ids.len() == c.header.boost_length
    &&& rows_wf(c.speed, lm_row_count(c.header.version_date), c.header.speed_length as int)
    &&& rows_wf(c.accel, lm_row_count(c.header.version_date), c.header.accel_length as int)
    &&& rows_wf(c.dura, lm_row_count(c.header.version_date), c.header.dura_length as int)
    &&& rows_wf(c.boost, lm_row_count(c.header.version_date), c.header.boost_length as int)
}

/// Flat word stream of a value table, row after row.
pub open spec fn flat_rows(rows: Seq<Seq<u32>>) -> Seq<u32>
    decreases rows.len(),
{
    if rows.len() == 0 {
        Seq::empty()
    } else {
        rows[0] + flat_rows(rows.drop_first())
    }
}

pub proof fn lemma_flat_rows_append(a: Seq<Seq<u32>>, b: Seq<Seq<u32>>)
    ensures
        flat_rows(a + b) == flat_rows(a) + flat_rows(b),
    decreases a.len(),
{
    if a.len() == 0 {
        assert(a + b =~= b);
        assert(flat_rows(a) + flat_rows(b) =~= flat_rows(b));
    } else {
        lemma_flat_rows_append(a.drop_first(), b);
        assert((a + b).drop_first() =~= a.drop_first() + b);
        assert(a[0] + (flat_rows(a.drop_first()) + flat_rows(b)) =~= (a[0] + flat_rows(
            a.drop_first(),
        )) + flat_rows(b));
    }
}

pub proof fn lemma_flat_rows_push(a: Seq<Seq<u32>>, x: Seq<u32>)
    ensures
        flat_rows(a.push(x)) == flat_rows(a) + x,
{
    assert(a.push(x) =~= a + seq![x]);
    lemma_flat_rows_append(a, seq![x]);
    let s = seq![x];
    assert(s.drop_first() =~= Seq::<Seq<u32>>::empty());
    assert(flat_rows(s) == s[0] + flat_rows(s.drop_first()));
    assert(x + Seq::<u32>::empty() =~= x);
}

pub proof fn lemma_flat_rows_len(rows: Seq<Seq<u32>>, l: int)
    requires
        forall|i: int| 0 <= i < rows.len() ==> (#[trigger] rows[i]).len() == l,
    ensures
        flat_rows(rows).len() == l * rows.len(),
    decreases rows.len(),
{
    if rows.len() == 0 {
        assert(l * 0 == 0) by (nonlinear_arith);
    } else {
        lemma_flat_rows_len(rows.drop_first(), l);
        assert(l * rows.len() == l + l * (rows.len() - 1)) by (nonlinear_arith);
    }
}

/// Every word of the container after the magic, in file order.
pub open spec fn lm_words(c: LmV) -> Seq<u32> {
    seq![
        c.header.version_date,
        c.header.speed_length,
        c.header.accel_length,
        c.header.dura_length,
        c.header.boost_length,
    ] + c.header.speed_ids + c.header.accel_ids + c.header.dura_ids + c.header.boost_ids
        + flat_rows(c.speed) + flat_rows(c.accel) + flat_rows(c.dura) + flat_rows(c.boost)
}

/// Canonical byte form of the whole container.
pub open spec fn lm_bytes(c: LmV) -> Seq<u8> {
    lm_magic() + words_bytes(lm_words(c))
}

/// Rows of one value table read from `b`.
pub open spec fn rows_of(b: Seq<u8>, base: int, nr: int, l: int) -> Seq<Seq<u32>> {
    Seq::new(nr as nat, |i: int| words_at(b, base + 4 * l * i, l as nat))
}

/// The parameter table read from `b`; the whole buffer must be consumed.
pub open spec fn lm_parse_spec(b: Seq<u8>) -> Option<LmV> {
    if b.len() >= 24 && b.subrange(0, 4) == lm_magic() {
        let vd = crate::bytes::word_at(b, 4);
        let sl = crate::bytes::word_at(b, 8) as int;
        let al = crate::bytes::word_at(b, 12) as int;
        let dl = crate::bytes::word_at(b, 16) as int;
        let bl = crate::bytes::word_at(b, 20) as int;
        let nr = lm_row_count(vd);
        let ids_end = 24 + 4 * (sl + al + dl + bl);
        let total = ids_end + 4 * nr * (sl + al + dl + bl);
        if b.len() == total {
            Some(
                LmV {
                    header: LmHeaderV {
                        version_date: vd,
                        speed_length: sl as u32,
                        accel_length: al as u32,
                        dura_length: dl as u32,
                        boost_length: bl as u32,
                        speed_ids: words_at(b, 24, sl as nat),
                        accel_ids: words_at(b, 24 + 4 * sl, al as nat),
                        dura_ids: words_at(b, 24 + 4 * (sl + al), dl as nat),
                        boost_ids: words_at(b, 24 + 4 * (sl + al + dl), bl as nat),
                    },
                    speed: rows_of(b, ids_end, nr, sl),
                    accel: rows_of(b, ids_end + 4 * nr * sl, nr, al),
                    dura: rows_of(b, ids_end + 4 * nr * (sl + al), nr, dl),
                    boost: rows_of(b, ids_end + 4 * nr * (sl + al + dl), nr, bl),
                },
            )
        } else {
            None
        }
    } else {
        None
    }
}

/// The bytes of one value table cut from `b`.
proof fn lemma_rows_of_bytes(b: Seq<u8>, base: int, nr: int, l: int)
    requires
        0 <= base,
        nr >= 0,
        l >= 0,
        base + 4 * nr * l <= b.len(),
    ensures
        rows_wf(rows_of(b, base, nr, l), nr, l),
        words_bytes(flat_rows(rows_of(b, base, nr, l))) == b.subrange(base, base + 4 * nr * l),
    decreases nr,
{
    let rows = rows_of(b, base, nr, l);
    if nr == 0 {
        assert(4 * nr * l == 0) by (nonlinear_arith)
            requires
                nr == 0,
        ;
        assert(words_bytes(flat_rows(rows)) =~= b.subrange(base, base));
    } else {
        assert(4 * nr * l == 4 * l + 4 * (nr - 1) * l) by (nonlinear_arith);
        assert(4 * (nr - 1) * l >= 0) by (nonlinear_arith)
            requires
                nr >= 1 && l >= 0,
        ;
        lemma_rows_of_bytes(b, base + 4 * l, nr - 1, l);
        let rest = rows_of(b, base + 4 * l, nr - 1, l);
        assert forall|i: int| 0 <= i < nr - 1 implies rows.drop_first()[i] == rest[i] by {
            assert(4 * l * (i + 1) == 4 * l + 4 * l * i) by (nonlinear_arith);
        }
        assert(rows.drop_first() =~= rest);
        assert(flat_rows(rows) == rows[0] + flat_rows(rest));
        lemma_words_bytes_append(rows[0], flat_rows(rest));
        assert(4 * l * 0 == 0) by (nonlinear_arith);
        lemma_words_at_bytes(b, base, l as nat);
        assert(words_bytes(rows[0]) == b.subrange(base, base + 4 * l));
        assert(b.subrange(base, base + 4 * l) + b.subrange(base + 4 * l, base + 4 * nr * l)
            =~= b.subrange(base, base + 4 * nr * l));
    }
}

/// What the parser accepts re-serializes to exactly the bytes it read:
/// the parameter-table round trip, byte for byte.
pub proof fn lemma_lm_parse_bytes(b: Seq<u8>)
    requires
        lm_parse_spec(b) is Some,
    ensures
        lm_wf(lm_parse_spec(b)->Some_0),
        lm_bytes(lm_parse_spec(b)->Some_0) == b,
{
    let c = lm_parse_spec(b)->Some_0;
    let sl = c.header.speed_length as int;
    let al = c.header.accel_length as int;
    let dl = c.header.dura_length as int;
    let bl = c.header.boost_length as int;
    let nr = lm_row_count(c.header.version_date);
    let ids_end = 24 + 4 * (sl + al + dl + bl);
    assert(4 * nr * (sl + al + dl + bl) == 4 * nr * sl + 4 * nr * al + 4 * nr * dl + 4 * nr * bl)
        by (nonlinear_arith);
    assert(4 * nr * (sl + al) == 4 * nr * sl + 4 * nr * al) by (nonlinear_arith);
    assert(4 * nr * (sl + al + dl) == 4 * nr * (sl + al) + 4 * nr * dl) by (nonlinear_arith);
    assert(4 * nr * (sl + al + dl + bl) == 4 * nr * (sl + al + dl) + 4 * nr * bl)
        by (nonlinear_arith);
    assert(4 * nr * sl >= 0 && 4 * nr * al >= 0 && 4 * nr * dl >= 0 && 4 * nr * bl >= 0)
        by (nonlinear_arith)
        requires
            nr >= 0 && sl >= 0 && al >= 0 && dl >= 0 && bl >= 0,
    ;
    lemma_words_at_bytes(b, 4, 5);
    lemma_words_at_bytes(b, 24, sl as nat);
    lemma_words_at_bytes(b, 24 + 4 * sl, al as nat);
    lemma_words_at_bytes(b, 24 + 4 * (sl + al), dl as nat);
    lemma_words_at_bytes(b, 24 + 4 * (sl + al + dl), bl as nat);
    lemma_rows_of_bytes(b, ids_end, nr, sl);
    lemma_rows_of_bytes(b, ids_end + 4 * nr * sl, nr, al);
    lemma_rows_of_bytes(b, ids_end + 4 * nr * (sl + al), nr, dl);
    lemma_rows_of_bytes(b, ids_end + 4 * nr * (sl + al + dl), nr, bl);
    let w0 = seq![
        c.header.version_date,
        c.header.speed_length,
        c.header.accel_length,
        c.header.dura_length,
        c.header.boost_length,
    ];
    assert(w0 =~= words_at(b, 4, 5));
    let ws = lm_words(c);
    lemma_words_bytes_append(w0, c.header.speed_ids);
    lemma_words_bytes_append(w0 + c.header.speed_ids, c.header.accel_ids);
    lemma_words_bytes_append(w0 + c.header.speed_ids + c.header.accel_ids, c.header.dura_ids);
    lemma_words_bytes_append(
        w0 + c.header.speed_ids + c.header.accel_ids + c.header.dura_ids,
        c.header.boost_ids,
    );
    let idw = w0 + c.header.speed_ids + c.header.accel_ids + c.header.dura_ids
        + c.header.boost_ids;
    lemma_words_bytes_append(idw, flat_rows(c.speed));
    lemma_words_bytes_append(idw + flat_rows(c.speed), flat_rows(c.accel));
    lemma_words_bytes_append(idw + flat_rows(c.speed) + flat_rows(c.accel), flat_rows(c.dura));
    lemma_words_bytes_append(
        idw + flat_rows(c.speed) + flat_rows(c.accel) + flat_rows(c.dura),
        flat_rows(c.boost),
    );
    assert(ws =~= idw + flat_rows(c.speed) + flat_rows(c.accel) + flat_rows(c.dura) + flat_rows(
        c.boost,
    ));
    assert(lm_bytes(c) =~= b);
}

pub proof fn lemma_flat_rows_index(rows: Seq<Seq<u32>>, l: int, i: int)
    requires
        forall|j: int| 0 <= j < rows.len() ==> (#[trigger] rows[j]).len() == l,
        0 <= i < rows.len(),
        l >= 0,
    ensures
        flat_rows(rows).subrange(l * i, l * i + l) == rows[i],
    decreases i,
{
    lemma_flat_rows_len(rows, l);
    if i == 0 {
        assert(l * 0 == 0) by (nonlinear_arith);
        lemma_flat_rows_len(rows.drop_first(), l);
        assert(flat_rows(rows).subrange(0, l) =~= rows[0]);
    } else {
        lemma_flat_rows_index(rows.drop_first(), l, i - 1);
        assert(l * i == l + l * (i - 1)) by (nonlinear_arith);
        assert(l * (i - 1) >= 0) by (nonlinear_arith)
            requires
                l >= 0 && i >= 1,
        ;
        lemma_flat_rows_len(rows.drop_first(), l);
        assert(l * i + l <= l * rows.len()) by (nonlinear_arith)
            requires
                0 <= i < rows.len() && l >= 0,
        ;
        assert(l * (rows.len() - 1) == l * rows.len() - l) by (nonlinear_arith);
        assert(flat_rows(rows) == rows[0] + flat_rows(rows.drop_first()));
        assert(flat_rows(rows).subrange(l * i, l * i + l) =~= flat_rows(
            rows.drop_first(),
        ).subrange(l * (i - 1), l * (i - 1) + l));
    }
}

/// Append every word of a container, in file order.
fn lm_words_vec(c: &LevelModifier) -> (v: Vec<u32>)
    ensures
        v@ == lm_words(c@),
{
    let mut v: Vec<u32> = Vec::new();
    v.push(c.header.version_date);
    v.push(c.header.speed_length);
    v.push(c.header.accel_length);
    v.push(c.header.dura_length);
    v.push(c.header.boost_length);
    crate::bytes::push_all(&mut v, &c.header.speed_ids);
    crate::bytes::push_all(&mut v, &c.header.accel_ids);
    crate::bytes::push_all(&mut v, &c.header.dura_ids);
    crate::bytes::push_all(&mut v, &c.header.boost_ids);
    push_rows(&mut v, &c.speed);
    push_rows(&mut v, &c.accel);
    push_rows(&mut v, &c.dura);
    push_rows(&mut v, &c.boost);
    proof {
        assert(v@ =~= lm_words(c@));
    }
    v
}

/// Append a value table row after row.
fn push_rows(dst: &mut Vec<u32>, rows: &Vec<Vec<u32>>)
    ensures
        final(dst)@ == old(dst)@ + flat_rows(rows@.map_values(|r: Vec<u32>| r@)),
{
    let ghost rv = rows@.map_values(|r: Vec<u32>| r@);
    let mut i: usize = 0;
    proof {
        assert(flat_rows(rv.take(0)) =~= Seq::<u32>::empty());
        assert(dst@ =~= old(dst)@ + flat_rows(rv.take(0)));
    }
    while i < rows.len()
        invariant
            i <= rows@.len(),
            rv == rows@.map_values(|r: Vec<u32>| r@),
            dst@ == old(dst)@ + flat_rows(rv.take(i as int)),
        decreases rows@.len() - i,
    {
        crate::bytes::push_all(dst, &rows[i]);
        i = i + 1;
        proof {
            lemma_flat_rows_push(rv.take(i - 1), rv[i - 1]);
            assert(rv.take(i as int) =~= rv.take(i - 1).push(rv[i - 1]));
            assert(dst@ =~= old(dst)@ + flat_rows(rv.take(i as int)));
        }
    }
    proof {
        assert(rv.take(rv.len() as int) =~= rv);
    }
}

/// Write a container to its canonical byte form.
pub fn lm_write(c: &LevelModifier) -> (out: Vec<u8>)
    requires
        4 + 4 * lm_words(c@).len() <= usize::MAX,
    ensures
        out@ == lm_bytes(c@),
{
    let ws = lm_words_vec(c);
    let mut sink = Sink::new();
    let mv = lm_magic_vec();
    sink.append(mv.as_slice());
    proof {
        assert(sink.data@ =~= lm_magic());
    }
    sink.append_words(&ws);
    sink.into_bytes()
}

/// Read one value table: `nr` rows of `l` words each.
fn read_rows(rd: &mut Reader, nr: usize, l: usize) -> (r: Result<Vec<Vec<u32>>, Error>)
    requires
        old(rd).wf(),
        old(rd).pos + 4 * (nr as int) * (l as int) <= old(rd).data@.len(),
    ensures
        final(rd).data@ == old(rd).data@,
        final(rd).wf(),
        r is Ok,
        ({
            let rows = r->Ok_0;
            &&& rows@.map_values(|x: Vec<u32>| x@) == rows_of(
                old(rd).data@,
                old(rd).pos as int,
                nr as int,
                l as int,
            )
            &&& final(rd).pos == old(rd).pos + 4 * (nr as int) * (l as int)
        }),
{
    let mut rows: Vec<Vec<u32>> = Vec::new();
    let mut i: usize = 0;
    let ghost base = old(rd).pos as int;
    proof {
        assert(4 * (nr as int) * (l as int) >= 0) by (nonlinear_arith)
            requires
                nr >= 0 && l >= 0,
        ;
    }
    while i < nr
        invariant
            rd.wf(),
            rd.data@ == old(rd).data@,
            i <= nr,
            base == old(rd).pos,
            base + 4 * (nr as int) * (l as int) <= rd.data@.len(),
            rd.pos == base + 4 * (l as int) * (i as int),
            rows@.len() == i,
            forall|j: int|
                0 <= j < i ==> (#[trigger] rows@[j])@ == words_at(
                    rd.data@,
                    base + 4 * (l as int) * j,
                    l as nat,
                ),
        decreases nr - i,
    {
        proof {
            assert(4 * (l as int) * (i as int) + 4 * (l as int) <= 4 * (nr as int) * (l as int))
                by (nonlinear_arith)
                requires
                    0 <= i < nr && l >= 0,
            ;
        }
        let row = match rd.read_words(l) {
            Ok(w) => w,
            Err(_) => {
                proof {
                    assert(false);
                }
                return Err(Error::Format);
            },
        };
        rows.push(row);
        i = i + 1;
        proof {
            assert(4 * (l as int) * (i as int) == 4 * (l as int) * (i - 1) + 4 * (l as int))
                by (nonlinear_arith);
        }
    }
    proof {
        let m = rows@.map_values(|x: Vec<u32>| x@);
        let target = rows_of(rd.data@, base, nr as int, l as int);
        assert forall|j: int| 0 <= j < nr implies m[j] == target[j] by {
            assert(rows@[j]@ == words_at(rd.data@, base + 4 * (l as int) * j, l as nat));
        }
        assert(m =~~= target);
        assert(4 * (l as int) * (nr as int) == 4 * (nr as int) * (l as int)) by (nonlinear_arith);
    }
    Ok(rows)
}

/// Parse a whole parameter-table container; mirrors `lm_parse_spec`.
#[verifier::loop_isolation(false)]
pub fn lm_parse(data: &[u8]) -> (r: Result<LevelModifier, Error>)
    ensures
        match r {
            Ok(c) => {
                &&& lm_parse_spec(data@) == Some(c@)
                &&& lm_wf(c@)
            },
            Err(e) => {
                &&& e == Error::Format
                &&& lm_parse_spec(data@) is None
            },
        },
{
    let mut rd = Reader::new(data);
    let magic = match rd.read_bytes(4) {
        Ok(m) => m,
        Err(_) => {
            return Err(Error::Format);
        },
    };
    let mv = lm_magic_vec();
    if !bytes_eq(magic.as_slice(), mv.as_slice()) {
        return Err(Error::Format);
    }
    let hw = match rd.read_words(5) {
        Ok(w) => w,
        Err(_) => {
            return Err(Error::Format);
        },
    };
    let vd = hw[0];
    let sl = hw[1];
    let al = hw[2];
    let dl = hw[3];
    let bl = hw[4];
    let nr: u64 = if vd > 20070507 {
        1001
    } else {
        801
    };
    let sum: u64 = sl as u64 + al as u64 + dl as u64 + bl as u64;
    proof {
        assert((4 * (nr as int)) * (sum as int) <= 0x100000000000000) by (nonlinear_arith)
            requires
                0 <= nr <= 1001 && 0 <= sum <= 0x3fffffffc,
        ;
    }
    let total: u64 = 24 + 4 * sum + (4 * nr) * sum;
    if (data.len() as u64) != total {
        proof {
            let sli = sl as int;
            let ali = al as int;
            let dli = dl as int;
            let bli = bl as int;
            let nri = nr as int;
            assert(4 * nri * (sli + ali + dli + bli) == (4 * nri) * (sum as int))
                by (nonlinear_arith)
                requires
                    sum == sli + ali + dli + bli,
            ;
        }
        return Err(Error::Format);
    }
    let ghost sli = sl as int;
    let ghost ali = al as int;
    let ghost dli = dl as int;
    let ghost bli = bl as int;
    let ghost nri = nr as int;
    proof {
        assert(4 * nri * (sli + ali + dli + bli) == (4 * nri) * (sum as int)) by (nonlinear_arith)
            requires
                sum == sli + ali + dli + bli,
        ;
        assert(4 * nri * (sli + ali + dli + bli) == 4 * nri * sli + 4 * nri * ali + 4 * nri * dli
            + 4 * nri * bli) by (nonlinear_arith);
        assert(4 * nri * sli >= 0 && 4 * nri * ali >= 0 && 4 * nri * dli >= 0 && 4 * nri * bli
            >= 0) by (nonlinear_arith)
            requires
                nri >= 0 && sli >= 0 && ali >= 0 && dli >= 0 && bli >= 0,
        ;
        assert(4 * nri * (sli + ali) == 4 * nri * sli + 4 * nri * ali) by (nonlinear_arith);
        assert(4 * nri * (sli + ali + dli) == 4 * nri * (sli + ali) + 4 * nri * dli)
            by (nonlinear_arith);
    }
    let speed_ids = match rd.read_words(sl as usize) {
        Ok(w) => w,
        Err(_) => {
            proof {
                assert(false);
            }
            return Err(Error::Format);
        },
    };
    let accel_ids = match rd.read_words(al as usize) {
        Ok(w) => w,
        Err(_) => {
            proof {
                assert(false);
            }
            return Err(Error::Format);
        },
    };
    let dura_ids = match rd.read_words(dl as usize) {
        Ok(w) => w,
        Err(_) => {
            proof {
                assert(false);
            }
            return Err(Error::Format);
        },
    };
    let boost_ids = match rd.read_words(bl as usize) {
        Ok(w) => w,
        Err(_) => {
            proof {
                assert(false);
            }
            return Err(Error::Format);
        },
    };
    let nru = nr as usize;
    let speed = match read_rows(&mut rd, nru, sl as usize) {
        Ok(v) => v,
        Err(_) => {
            proof {
                assert(false);
            }
            return Err(Error::Format);
        },
    };
    let accel = match read_rows(&mut rd, nru, al as usize) {
        Ok(v) => v,
        Err(_) => {
            proof {
                assert(false);
            }
            return Err(Error::Format);
        },
    };
    let dura = match read_rows(&mut rd, nru, dl as usize) {
        Ok(v) => v,
        Err(_) => {
            proof {
                assert(false);
            }
            return Err(Error::Format);
        },
    };
    let boost = match read_rows(&mut rd, nru, bl as usize) {
        Ok(v) => v,
        Err(_) => {
            proof {
                assert(false);
            }
            return Err(Error::Format);
        },
    };
    let c = LevelModifier {
        header: LmHeader {
            version_date: vd,
            speed_length: sl,
            accel_length: al,
            dura_length: dl,
            boost_length: bl,
            speed_ids,
            accel_ids,
            dura_ids,
            boost_ids,
        },
        speed,
        accel,
        dura,
        boost,
    };
    proof {
        assert(c@ =~= lm_parse_spec(data@)->Some_0);
        lemma_lm_parse_bytes(data@);
    }
    Ok(c)
}

pub open spec fn lm_tag() -> Seq<char> {
    "parameter_table\n"@
}

/// The manifest document: format tag, then every word in field order.
pub open spec fn lm_doc(c: LmV) -> Seq<char> {
    lm_tag() + nums_tok(lm_words(c))
}

/// Word count of everything after the five header scalars.
pub open spec fn lm_rest_count(vd: u32, s: int) -> int {
    (1 + lm_row_count(vd)) * s
}

pub open spec fn lm_doc_parse(s: Seq<char>) -> Option<LmV> {
    if s.len() >= lm_tag().len() && s.subrange(0, lm_tag().len() as int) == lm_tag() {
        match p_nums(s, lm_tag().len() as int, 5) {
            Some((hw, e1)) => {
                let vd = hw[0];
                let sl = hw[1] as int;
                let al = hw[2] as int;
                let dl = hw[3] as int;
                let bl = hw[4] as int;
                let nr = lm_row_count(vd);
                match p_nums(s, e1, lm_rest_count(vd, sl + al + dl + bl) as nat) {
                    Some((ws, e2)) => if e2 == s.len() {
                        let idw = sl + al + dl + bl;
                        Some(
                            LmV {
                                header: LmHeaderV {
                                    version_date: vd,
                                    speed_length: hw[1],
                                    accel_length: hw[2],
                                    dura_length: hw[3],
                                    boost_length: hw[4],
                                    speed_ids: ws.subrange(0, sl),
                                    accel_ids: ws.subrange(sl, sl + al),
                                    dura_ids: ws.subrange(sl + al, sl + al + dl),
                                    boost_ids: ws.subrange(sl + al + dl, idw),
                                },
                                speed: Seq::new(
                                    nr as nat,
                                    |i: int| ws.subrange(idw + sl * i, idw + sl * i + sl),
                                ),
                                accel: Seq::new(
                                    nr as nat,
                                    |i: int| ws.subrange(
                                        idw + nr * sl + al * i,
                                        idw + nr * sl + al * i + al,
                                    ),
                                ),
                                dura: Seq::new(
                                    nr as nat,
                                    |i: int| ws.subrange(
                                        idw + nr * (sl + al) + dl * i,
                                        idw + nr * (sl + al) + dl * i + dl,
                                    ),
                                ),
                                boost: Seq::new(
                                    nr as nat,
                                    |i: int| ws.subrange(
                                        idw + nr * (sl + al + dl) + bl * i,
                                        idw + nr * (sl + al + dl) + bl * i + bl,
                                    ),
                                ),
                            },
                        )
                    } else {
                        None
                    },
                    None => None,
                }
            },
            None => None,
        }
    } else {
        None
    }
}

/// Rows sliced back out of the flat word stream are the rows put in.
proof fn lemma_rows_slices(ws: Seq<u32>, base: int, rows: Seq<Seq<u32>>, l: int)
    requires
        l >= 0,
        forall|j: int| 0 <= j < rows.len() ==> (#[trigger] rows[j]).len() == l,
        0 <= base,
        base + flat_rows(rows).len() <= ws.len(),
        ws.subrange(base, base + flat_rows(rows).len() as int) == flat_rows(rows),
    ensures
        Seq::new(rows.len(), |i: int| ws.subrange(base + l * i, base + l * i + l)) == rows,
{
    lemma_flat_rows_len(rows, l);
    let got = Seq::new(rows.len(), |i: int| ws.subrange(base + l * i, base + l * i + l));
    assert forall|i: int| 0 <= i < rows.len() implies got[i] == rows[i] by {
        lemma_flat_rows_index(rows, l, i);
        assert(l * i >= 0 && l * i + l <= l * rows.len()) by (nonlinear_arith)
            requires
                l >= 0 && 0 <= i < rows.len(),
        ;
        assert(got[i] =~= flat_rows(rows).subrange(l * i, l * i + l));
    }
    assert(got =~= rows);
}

/// Serializing a parameter table to a manifest document and reading it
/// back restores the value exactly.
#[verifier::rlimit(80)]
pub proof fn lemma_lm_doc_roundtrip(c: LmV)
    requires
        lm_wf(c),
    ensures
        lm_doc_parse(lm_doc(c)) == Some(c),
{
    let vd = c.header.version_date;
    let sl = c.header.speed_length as int;
    let al = c.header.accel_length as int;
    let dl = c.header.dura_length as int;
    let bl = c.header.boost_length as int;
    let nr = lm_row_count(vd);
    let idw = sl + al + dl + bl;
    let w0 = seq![
        c.header.version_date,
        c.header.speed_length,
        c.header.accel_length,
        c.header.dura_length,
        c.header.boost_length,
    ];
    let rest = c.header.speed_ids + c.header.accel_ids + c.header.dura_ids + c.header.boost_ids
        + flat_rows(c.speed) + flat_rows(c.accel) + flat_rows(c.dura) + flat_rows(c.boost);
    assert(lm_words(c) =~= w0 + rest);
    let s = lm_doc(c);
    lemma_nums_tok_append(w0, rest);
    assert(s =~= lm_tag() + nums_tok(w0) + nums_tok(rest));
    assert(s.subrange(0, lm_tag().len() as int) =~= lm_tag());
    lemma_p_nums(lm_tag(), w0, nums_tok(rest));
    let e1 = lm_tag().len() + nums_tok(w0).len() as int;
    assert(s =~= (lm_tag() + nums_tok(w0)) + nums_tok(rest) + Seq::<char>::empty());
    lemma_p_nums(lm_tag() + nums_tok(w0), rest, Seq::empty());
    lemma_flat_rows_len(c.speed, sl);
    lemma_flat_rows_len(c.accel, al);
    lemma_flat_rows_len(c.dura, dl);
    lemma_flat_rows_len(c.boost, bl);
    assert(rest.len() == idw + sl * nr + al * nr + dl * nr + bl * nr);
    assert((1 + nr) * idw == idw + nr * idw) by (nonlinear_arith);
    assert(lm_rest_count(vd, idw) == (1 + nr) * idw);
    assert(nr * idw == sl * nr + al * nr + dl * nr + bl * nr) by (nonlinear_arith)
        requires
            idw == sl + al + dl + bl,
    ;
    assert(rest.len() == lm_rest_count(vd, idw));
    let c2 = lm_doc_parse(s)->Some_0;
    assert(c2.header.speed_ids =~= c.header.speed_ids);
    assert(c2.header.accel_ids =~= c.header.accel_ids);
    assert(c2.header.dura_ids =~= c.header.dura_ids);
    assert(c2.header.boost_ids =~= c.header.boost_ids);
    assert(nr * sl == sl * nr && nr * (sl + al) == sl * nr + al * nr && nr * (sl + al + dl) == sl
        * nr + al * nr + dl * nr) by (nonlinear_arith);
    assert(rest.subrange(idw, idw + flat_rows(c.speed).len() as int) =~= flat_rows(c.speed));
    lemma_rows_slices(rest, idw, c.speed, sl);
    assert(rest.subrange(idw + nr * sl, idw + nr * sl + flat_rows(c.accel).len() as int)
        =~= flat_rows(c.accel));
    lemma_rows_slices(rest, idw + nr * sl, c.accel, al);
    assert(rest.subrange(
        idw + nr * (sl + al),
        idw + nr * (sl + al) + flat_rows(c.dura).len() as int,
    ) =~= flat_rows(c.dura));
    lemma_rows_slices(rest, idw + nr * (sl + al), c.dura, dl);
    assert(rest.subrange(
        idw + nr * (sl + al + dl),
        idw + nr * (sl + al + dl) + flat_rows(c.boost).len() as int,
    ) =~= flat_rows(c.boost));
    lemma_rows_slices(rest, idw + nr * (sl + al + dl), c.boost, bl);
    assert(c2 =~= c);
}

/// Whatever the manifest parser accepts is well formed.
pub proof fn lemma_lm_doc_parse_wf(s: Seq<char>)
    requires
        lm_doc_parse(s) is Some,
    ensures
        lm_wf(lm_doc_parse(s)->Some_0),
{
    let tl = lm_tag().len() as int;
    crate::doc::lemma_p_nums_len(s, tl, 5);
    let (hw, e1) = p_nums(s, tl, 5)->Some_0;
    let vd = hw[0];
    let sl = hw[1] as int;
    let al = hw[2] as int;
    let dl = hw[3] as int;
    let bl = hw[4] as int;
    let nr = lm_row_count(vd);
    let idw = sl + al + dl + bl;
    crate::doc::lemma_p_nums_len(s, e1, lm_rest_count(vd, idw) as nat);
    assert((1 + nr) * idw == idw + nr * idw) by (nonlinear_arith);
    assert(lm_rest_count(vd, idw) == (1 + nr) * idw);
    assert(nr * idw >= 0) by (nonlinear_arith)
        requires
            nr >= 0 && idw >= 0,
    ;
    let (ws, e2) = p_nums(s, e1, lm_rest_count(vd, idw) as nat)->Some_0;
    assert(ws.len() == idw + nr * idw);
    let c = lm_doc_parse(s)->Some_0;
    assert forall|i: int| 0 <= i < c.speed.len() implies (#[trigger] c.speed[i]).len() == sl by {
        assert(0 <= idw + sl * i && idw + sl * i + sl <= idw + nr * idw) by (nonlinear_arith)
            requires
                0 <= i < nr && 0 <= sl && 0 <= al && 0 <= dl && 0 <= bl && idw == sl + al + dl
                    + bl,
        ;
    }
    assert forall|i: int| 0 <= i < c.accel.len() implies (#[trigger] c.accel[i]).len() == al by {
        assert(0 <= idw + nr * sl + al * i && idw + nr * sl + al * i + al <= idw + nr * idw)
            by (nonlinear_arith)
            requires
                0 <= i < nr && 0 <= sl && 0 <= al && 0 <= dl && 0 <= bl && idw == sl + al + dl
                    + bl,
        ;
    }
    assert forall|i: int| 0 <= i < c.dura.len() implies (#[trigger] c.dura[i]).len() == dl by {
        assert(0 <= idw + nr * (sl + al) + dl * i && idw + nr * (sl + al) + dl * i + dl <= idw
            + nr * idw) by (nonlinear_arith)
            requires
                0 <= i < nr && 0 <= sl && 0 <= al && 0 <= dl && 0 <= bl && idw == sl + al + dl
                    + bl,
        ;
    }
    assert forall|i: int| 0 <= i < c.boost.len() implies (#[trigger] c.boost[i]).len() == bl by {
        assert(0 <= idw + nr * (sl + al + dl) + bl * i && idw + nr * (sl + al + dl) + bl * i + bl
            <= idw + nr * idw) by (nonlinear_arith)
            requires
                0 <= i < nr && 0 <= sl && 0 <= al && 0 <= dl && 0 <= bl && idw == sl + al + dl
                    + bl,
        ;
    }
}

/// Re-serializing a parsed manifest document parses back to the very
/// same value.
pub proof fn lemma_lm_manifest_idempotent(s: Seq<char>)
    requires
        lm_doc_parse(s) is Some,
    ensures
        lm_doc_parse(lm_doc(lm_doc_parse(s)->Some_0)) == lm_doc_parse(s),
{
    lemma_lm_doc_parse_wf(s);
    lemma_lm_doc_roundtrip(lm_doc_parse(s)->Some_0);
}

/// A well-formed table holds exactly the words its header announces.
pub proof fn lemma_lm_words_len(c: LmV)
    requires
        lm_wf(c),
    ensures
        lm_words(c).len() == 5 + lm_rest_count(
            c.header.version_date,
            c.header.speed_length + c.header.accel_length + c.header.dura_length
                + c.header.boost_length,
        ),
{
    let sl = c.header.speed_length as int;
    let al = c.header.accel_length as int;
    let dl = c.header.dura_length as int;
    let bl = c.header.boost_length as int;
    let nr = lm_row_count(c.header.version_date);
    let idw = sl + al + dl + bl;
    lemma_flat_rows_len(c.speed, sl);
    lemma_flat_rows_len(c.accel, al);
    lemma_flat_rows_len(c.dura, dl);
    lemma_flat_rows_len(c.boost, bl);
    assert((1 + nr) * idw == idw + nr * idw) by (nonlinear_arith);
    assert(nr * idw == sl * nr + al * nr + dl * nr + bl * nr) by (nonlinear_arith)
        requires
            idw == sl + al + dl + bl,
    ;
}

/// Slice rows of width `l` back out of a flat word vector.
fn rows_from_words(ws: &Vec<u32>, off: usize, nr: usize, l: usize) -> (rows: Vec<Vec<u32>>)
    requires
        off + (nr as int) * (l as int) <= ws@.len(),
    ensures
        rows@.map_values(|x: Vec<u32>| x@) == Seq::new(
            nr as nat,
            |i: int| ws@.subrange(off + (l as int) * i, off + (l as int) * i + (l as int)),
        ),
{
    let mut rows: Vec<Vec<u32>> = Vec::new();
    let mut i: usize = 0;
    let wslen = ws.len();
    proof {
        assert((nr as int) * (l as int) >= 0) by (nonlinear_arith)
            requires
                nr >= 0 && l >= 0,
        ;
    }
    while i < nr
        invariant
            i <= nr,
            wslen == ws@.len(),
            off + (nr as int) * (l as int) <= ws@.len(),
            rows@.len() == i,
            forall|j: int|
                0 <= j < i ==> (#[trigger] rows@[j])@ == ws@.subrange(
                    off + (l as int) * j,
                    off + (l as int) * j + (l as int),
                ),
        decreases nr - i,
    {
        proof {
            assert((l as int) * (i as int) >= 0 && (l as int) * (i as int) + (l as int) <= (
            nr as int) * (l as int)) by (nonlinear_arith)
                requires
                    0 <= i < nr && l >= 0,
            ;
        }
        let start = off + l * i;
        let row = crate::bytes::words_range(ws, start, start + l);
        rows.push(row);
        i = i + 1;
    }
    proof {
        let m = rows@.map_values(|x: Vec<u32>| x@);
        let target = Seq::new(
            nr as nat,
            |i: int| ws@.subrange(off + (l as int) * i, off + (l as int) * i + (l as int)),
        );
        assert forall|j: int| 0 <= j < nr implies m[j] == target[j] by {
            assert(rows@[j]@ == ws@.subrange(
                off + (l as int) * j,
                off + (l as int) * j + (l as int),
            ));
        }
        assert(m =~~= target);
    }
    rows
}

/// Rebuild a parameter table from its manifest document; mirrors
/// `lm_doc_parse`.
#[verifier::loop_isolation(false)]
#[verifier::rlimit(60)]
pub fn lm_manifest_parse(s: &str) -> (r: Result<LevelModifier, Error>)
    ensures
        match r {
            Ok(c) => {
                &&& lm_doc_parse(s@) == Some(c@)
                &&& lm_wf(c@)
            },
            Err(e) => {
                &&& e == Error::Document
                &&& lm_doc_parse(s@) is None
            },
        },
{
    let mut rd = DocReader::new(s);
    match rd.expect_lit("parameter_table\n") {
        Ok(()) => {},
        Err(_) => {
            return Err(Error::Document);
        },
    }
    let hw = match rd.read_nums(5) {
        Ok(w) => w,
        Err(_) => {
            return Err(Error::Document);
        },
    };
    let vd = hw[0];
    let sl = hw[1];
    let al = hw[2];
    let dl = hw[3];
    let bl = hw[4];
    let nr: u64 = if vd > 20070507 {
        1001
    } else {
        801
    };
    let sum: u64 = sl as u64 + al as u64 + dl as u64 + bl as u64;
    proof {
        assert((1 + (nr as int)) * (sum as int) <= 0x100000000000000) by (nonlinear_arith)
            requires
                0 <= nr <= 1001 && 0 <= sum <= 0x3fffffffc,
        ;
    }
    let rest: u64 = (1 + nr) * sum;
    let len = s.unicode_len();
    let ghost e1 = rd.pos as int;
    proof {
        let sli = sl as int;
        let ali = al as int;
        let dli = dl as int;
        let bli = bl as int;
        assert(lm_rest_count(vd, sli + ali + dli + bli) == (1 + (nr as int)) * (sum as int))
            by (nonlinear_arith)
            requires
                sum == sli + ali + dli + bli && nr == lm_row_count(vd),
        ;
    }
    if rest > ((len - rd.pos) as u64) / 2 {
        proof {
            if p_nums(s@, e1, lm_rest_count(vd, (sum as int)) as nat) is Some {
                crate::doc::lemma_p_nums_min_len(s@, e1, lm_rest_count(vd, (sum as int)) as nat);
            }
        }
        return Err(Error::Document);
    }
    let ws = match rd.read_nums(rest as usize) {
        Ok(w) => w,
        Err(_) => {
            return Err(Error::Document);
        },
    };
    if !rd.at_end() {
        return Err(Error::Document);
    }
    proof {
        assert(sum <= (1 + (nr as int)) * (sum as int)) by (nonlinear_arith)
            requires
                nr >= 0 && sum >= 0,
        ;
        assert(sum as int <= usize::MAX);
    }
    let idw = (sl as usize) + (al as usize) + (dl as usize) + (bl as usize);
    let nru = nr as usize;
    proof {
        assert(ws@.len() == (1 + (nr as int)) * (sum as int));
        assert((1 + (nr as int)) * (sum as int) == (sum as int) + (nr as int) * (sum as int))
            by (nonlinear_arith);
        assert((nr as int) * (sum as int) == (nr as int) * (sl as int) + (nr as int) * (al as int)
            + (nr as int) * (dl as int) + (nr as int) * (bl as int)) by (nonlinear_arith)
            requires
                sum == sl as int + al as int + dl as int + bl as int,
        ;
        assert((nr as int) * (sl as int) >= 0 && (nr as int) * (al as int) >= 0 && (nr as int) * (
        dl as int) >= 0 && (nr as int) * (bl as int) >= 0) by (nonlinear_arith)
            requires
                nr >= 0 && sl >= 0 && al >= 0 && dl >= 0 && bl >= 0,
        ;
    }
    let speed_ids = crate::bytes::words_range(&ws, 0, sl as usize);
    let accel_ids = crate::bytes::words_range(&ws, sl as usize, (sl as usize) + (al as usize));
    let dura_ids = crate::bytes::words_range(
        &ws,
        (sl as usize) + (al as usize),
        (sl as usize) + (al as usize) + (dl as usize),
    );
    let boost_ids = crate::bytes::words_range(
        &ws,
        (sl as usize) + (al as usize) + (dl as usize),
        idw,
    );
    proof {
        assert((nru as int) * (sl as int) == (nr as int) * (sl as int));
    }
    let speed = rows_from_words(&ws, idw, nru, sl as usize);
    let off_a = idw + nru * (sl as usize);
    let accel = rows_from_words(&ws, off_a, nru, al as usize);
    let off_d = off_a + nru * (al as usize);
    let dura = rows_from_words(&ws, off_d, nru, dl as usize);
    let off_b = off_d + nru * (dl as usize);
    let boost = rows_from_words(&ws, off_b, nru, bl as usize);
    let c = LevelModifier {
        header: LmHeader {
            version_date: vd,
            speed_length: sl,
            accel_length: al,
            dura_length: dl,
            boost_length: bl,
            speed_ids,
            accel_ids,
            dura_ids,
            boost_ids,
        },
        speed,
        accel,
        dura,
        boost,
    };
    proof {
        let sc = lm_doc_parse(s@)->Some_0;
        assert((nr as int) * ((sl as int) + (al as int)) == (nr as int) * (sl as int) + (nr as int)
            * (al as int)) by (nonlinear_arith);
        assert((nr as int) * ((sl as int) + (al as int) + (dl as int)) == (nr as int) * (sl as int)
            + (nr as int) * (al as int) + (nr as int) * (dl as int)) by (nonlinear_arith);
        assert(c@.speed =~~= sc.speed);
        assert(c@.accel =~~= sc.accel);
        assert(c@.dura =~~= sc.dura);
        assert(c@.boost =~~= sc.boost);
        assert(c@ =~~= sc);
        lemma_lm_doc_parse_wf(s@);
    }
    Ok(c)
}

/// One parameter-table operation on plain values; the caller reads and
/// writes the files.
pub enum LevelModifierCommand {
    /// container bytes
    Unpack(Vec<u8>),
    /// manifest text
    Pack(String),
}

pub struct LevelModifierOpts {
    pub cmd: LevelModifierCommand,
}

pub enum LevelModifierOutcome {
    /// the manifest document
    Unpack(String),
    /// the packed container bytes
    Pack(Vec<u8>),
}

/// Run one parameter-table command on in-memory values.
pub fn process_levelmodifier(opts: LevelModifierOpts) -> (r: Result<
    LevelModifierOutcome,
    Error,
>)
    ensures
        match opts.cmd {
            LevelModifierCommand::Unpack(data) => match r {
                Ok(o) => {
                    &&& lm_parse_spec(data@) is Some
                    &&& o matches LevelModifierOutcome::Unpack(m)
                    &&& m@ == lm_doc(lm_parse_spec(data@)->Some_0)
                },
                Err(e) => {
                    &&& e == Error::Format
                    &&& lm_parse_spec(data@) is None
                },
            },
            LevelModifierCommand::Pack(m) => match r {
                Ok(o) => {
                    &&& lm_doc_parse(m@) is Some
                    &&& o matches LevelModifierOutcome::Pack(out)
                    &&& out@ == lm_bytes(lm_doc_parse(m@)->Some_0)
                },
                Err(Error::Document) => lm_doc_parse(m@) is None,
                Err(e) => {
                    &&& e == Error::Format
                    &&& lm_doc_parse(m@) is Some
                    &&& 4 + 4 * lm_words(lm_doc_parse(m@)->Some_0).len() > usize::MAX
                },
            },
        },
{
    match opts.cmd {
        LevelModifierCommand::Unpack(data) => {
            let c = match lm_parse(data.as_slice()) {
                Ok(c) => c,
                Err(e) => {
                    return Err(e);
                },
            };
            Ok(LevelModifierOutcome::Unpack(lm_manifest(&c)))
        },
        LevelModifierCommand::Pack(m) => {
            let c = match lm_manifest_parse(m.as_str()) {
                Ok(c) => c,
                Err(e) => {
                    return Err(e);
                },
            };
            let nr: u64 = if c.header.version_date > 20070507 {
                1001
            } else {
                801
            };
            let sum: u64 = c.header.speed_length as u64 + c.header.accel_length as u64
                + c.header.dura_length as u64 + c.header.boost_length as u64;
            proof {
                assert((1 + (nr as int)) * (sum as int) <= 0x100000000000000) by (nonlinear_arith)
                    requires
                        0 <= nr <= 1001 && 0 <= sum <= 0x3fffffffc,
                ;
                lemma_lm_words_len(c@);
                assert(lm_rest_count(c@.header.version_date, sum as int) == (1 + (nr as int)) * (
                sum as int)) by (nonlinear_arith)
                    requires
                        nr == lm_row_count(c@.header.version_date),
                ;
            }
            let total_words: u64 = 5 + (1 + nr) * sum;
            if total_words > ((usize::MAX as u64) - 4) / 4 {
                return Err(Error::Format);
            }
            let out = lm_write(&c);
            Ok(LevelModifierOutcome::Pack(out))
        },
    }
}

/// Project a parameter table into its manifest document.
pub fn lm_manifest(c: &LevelModifier) -> (s: String)
    ensures
        s@ == lm_doc(c@),
{
    let ws = lm_words_vec(c);
    let mut out = String::new();
    out.append("parameter_table\n");
    crate::doc::put_nums(&mut out, &ws);
    proof {
        assert(out@ =~= lm_doc(c@));
    }
    out
}

} // verus!
