//! The laws the decoder obeys, stated over the specification-level parser in
//! `wire` and proved once for all inputs. The encoder here is specification
//! only: producing frame bytes for transmission is a collaborator's job, but
//! its mathematical description is needed to state the round-trip law.

use crate::error::DecodeError;
use crate::model::{Codec, FrameView, GpsFix, IoBlockView, IoElement, RecordView};
use crate::wire;
use vstd::arithmetic::div_mod::{lemma_div_denominator, lemma_fundamental_div_mod};
use vstd::prelude::*;

verus! {

// ---------------------------------------------------------------------------
// The encoder, as specification: the bytes a well-formed frame occupies on
// the wire.
// ---------------------------------------------------------------------------
/// The two big-endian bytes of `v`.
pub open spec fn enc_u16(v: u16) -> Seq<u8> {
    seq![(v as int / 0x100) as u8, (v as int % 0x100) as u8]
}

/// The four big-endian bytes of `v`.
pub open spec fn enc_u32(v: u32) -> Seq<u8> {
    seq![
        (v as int / 0x1000000) as u8,
        ((v as int / 0x10000) % 0x100) as u8,
        ((v as int / 0x100) % 0x100) as u8,
        (v as int % 0x100) as u8,
    ]
}

/// The eight big-endian bytes of `v`.
pub open spec fn enc_u64(v: u64) -> Seq<u8> {
    enc_u32((v as int / 0x100000000) as u32) + enc_u32((v as int % 0x100000000) as u32)
}

/// An IO id or count field of width `w` (1 or 2 bytes).
pub open spec fn enc_io_field(v: u16, w: int) -> Seq<u8> {
    if w == 1 {
        seq![v as u8]
    } else {
        enc_u16(v)
    }
}

/// An IO element value of byte width `vw` (1, 2, 4 or 8).
pub open spec fn enc_io_value(v: u64, vw: int) -> Seq<u8> {
    if vw == 1 {
        seq![v as u8]
    } else if vw == 2 {
        enc_u16(v as u16)
    } else if vw == 4 {
        enc_u32(v as u32)
    } else {
        enc_u64(v)
    }
}

/// The 15 bytes of a GPS element.
pub open spec fn enc_gps(g: GpsFix) -> Seq<u8> {
    enc_u32(g.longitude) + enc_u32(g.latitude) + enc_u16(g.altitude) + enc_u16(g.angle)
        + seq![g.satellites] + enc_u16(g.speed)
}

/// The (id, value) pairs of one bucket, in order.
pub open spec fn enc_pairs(els: Seq<IoElement>, w: int, vw: int) -> Seq<u8>
    decreases els.len(),
{
    if els.len() == 0 {
        Seq::empty()
    } else {
        enc_io_field(els[0].id, w) + enc_io_value(els[0].value, vw) + enc_pairs(
            els.drop_first(),
            w,
            vw,
        )
    }
}

/// One bucket: its count, then its pairs.
pub open spec fn enc_bucket(els: Seq<IoElement>, w: int, vw: int) -> Seq<u8> {
    enc_io_field(els.len() as u16, w) + enc_pairs(els, w, vw)
}

/// The IO element block: event id, total count (the bucket-count sum), four
/// buckets in ascending value width.
pub open spec fn enc_io_block(io: IoBlockView, w: int) -> Seq<u8> {
    enc_io_field(io.event_io_id, w) + enc_io_field(io.total_count() as u16, w) + enc_bucket(
        io.ones,
        w,
        1,
    ) + enc_bucket(io.twos, w, 2) + enc_bucket(io.fours, w, 4) + enc_bucket(io.eights, w, 8)
}

/// One record: timestamp, priority, GPS element, IO block.
pub open spec fn enc_record(r: RecordView, w: int) -> Seq<u8> {
    enc_u64(r.timestamp) + seq![r.priority] + enc_gps(r.gps) + enc_io_block(r.io, w)
}

/// The records of a frame, in order.
pub open spec fn enc_records(rs: Seq<RecordView>, w: int) -> Seq<u8>
    decreases rs.len(),
{
    if rs.len() == 0 {
        Seq::empty()
    } else {
        enc_record(rs[0], w) + enc_records(rs.drop_first(), w)
    }
}

/// A whole frame: zero preamble, payload length (codec id through trailing
/// count), codec id, record count, records, trailing count.
pub open spec fn enc_frame(f: FrameView) -> Seq<u8> {
    let body = enc_records(f.records, f.codec.spec_id_width());
    seq![0u8, 0u8, 0u8, 0u8] + enc_u32((body.len() + 3) as u32) + seq![f.codec.spec_wire_id()]
        + seq![f.records.len() as u8] + body + seq![f.records.len() as u8]
}

// ---------------------------------------------------------------------------
// Which frames are well formed, that is, representable on the wire.
// ---------------------------------------------------------------------------
/// Largest value an IO id or count field of width `w` can carry.
pub open spec fn field_max(w: int) -> int {
    if w == 1 {
        0xff
    } else {
        0xffff
    }
}

/// Whether `v` fits in an IO value of byte width `vw`.
pub open spec fn value_fits(v: u64, vw: int) -> bool {
    if vw == 1 {
        v < 0x100
    } else if vw == 2 {
        v < 0x10000
    } else if vw == 4 {
        v < 0x100000000
    } else {
        true
    }
}

/// Whether one bucket is representable: every id fits the id field and every
/// value fits the bucket's width.
pub open spec fn bucket_wf(els: Seq<IoElement>, w: int, vw: int) -> bool {
    forall|i: int|
        0 <= i < els.len() ==> ((#[trigger] els[i]).id <= field_max(w) && value_fits(
            els[i].value,
            vw,
        ))
}

/// Whether an IO block is representable under id width `w`: the total element
/// count fits the count field (so each bucket count does too) and each bucket
/// is representable at its width.
pub open spec fn io_wf(io: IoBlockView, w: int) -> bool {
    &&& io.event_io_id <= field_max(w)
    &&& io.total_count() <= field_max(w)
    &&& bucket_wf(io.ones, w, 1)
    &&& bucket_wf(io.twos, w, 2)
    &&& bucket_wf(io.fours, w, 4)
    &&& bucket_wf(io.eights, w, 8)
}

/// Whether a frame is representable: at most 255 records, every record's IO
/// block well formed under the frame's codec, and the payload length fits its
/// 32-bit field.
pub open spec fn frame_wf(f: FrameView) -> bool {
    &&& f.records.len() <= 0xff
    &&& forall|i: int| 0 <= i < f.records.len() ==> io_wf(#[trigger] f.records[i].io, f.codec.spec_id_width())
    &&& enc_records(f.records, f.codec.spec_id_width()).len() + 3 <= 0xffffffff
}

// ---------------------------------------------------------------------------
// Reading back one encoded integer.
// ---------------------------------------------------------------------------
/// Reading two bytes that encode `v` yields `v`.
proof fn lemma_read_enc_u16(b: Seq<u8>, p: int, v: u16)
    requires
        0 <= p,
        p + 2 <= b.len(),
        b.subrange(p, p + 2) == enc_u16(v),
    ensures
        wire::r_u16(b, p) == Ok::<(u16, int), DecodeError>((v, p + 2)),
{
    assert(b[p] == enc_u16(v)[0]);
    assert(b[p + 1] == enc_u16(v)[1]);
    lemma_fundamental_div_mod(v as int, 0x100);
    assert(wire::u16_at(b, p) == v);
}

/// Reading four bytes that encode `v` yields `v`.
proof fn lemma_read_enc_u32(b: Seq<u8>, p: int, v: u32)
    requires
        0 <= p,
        p + 4 <= b.len(),
        b.subrange(p, p + 4) == enc_u32(v),
    ensures
        wire::r_u32(b, p) == Ok::<(u32, int), DecodeError>((v, p + 4)),
{
    assert(b[p] == enc_u32(v)[0]);
    assert(b[p + 1] == enc_u32(v)[1]);
    assert(b[p + 2] == enc_u32(v)[2]);
    assert(b[p + 3] == enc_u32(v)[3]);
    let x = v as int;
    lemma_fundamental_div_mod(x, 0x100);
    lemma_fundamental_div_mod(x / 0x100, 0x100);
    lemma_fundamental_div_mod(x / 0x10000, 0x100);
    lemma_div_denominator(x, 0x100, 0x100);
    lemma_div_denominator(x, 0x10000, 0x100);
    assert(x / 0x100 / 0x100 == x / 0x10000);
    assert(x / 0x10000 / 0x100 == x / 0x1000000);
    assert(wire::u32_at(b, p) == v);
}

/// Reading eight bytes that encode `v` yields `v`.
#[verifier::rlimit(60)]
proof fn lemma_read_enc_u64(b: Seq<u8>, p: int, v: u64)
    requires
        0 <= p,
        p + 8 <= b.len(),
        b.subrange(p, p + 8) == enc_u64(v),
    ensures
        wire::r_u64(b, p) == Ok::<(u64, int), DecodeError>((v, p + 8)),
{
    let hi = (v as int / 0x100000000) as u32;
    let lo = (v as int % 0x100000000) as u32;
    assert(enc_u64(v) == enc_u32(hi) + enc_u32(lo));
    assert(enc_u32(hi).len() == 4);
    assert(b.subrange(p, p + 4) =~= enc_u32(hi)) by {
        assert forall|j: int| 0 <= j < 4 implies b.subrange(p, p + 4)[j] == enc_u32(hi)[j] by {
            assert(b.subrange(p, p + 4)[j] == b[p + j]);
            assert(b.subrange(p, p + 8)[j] == b[p + j]);
            assert(b.subrange(p, p + 8)[j] == (enc_u32(hi) + enc_u32(lo))[j]);
        }
    }
    assert(b.subrange(p + 4, p + 8) =~= enc_u32(lo)) by {
        assert forall|j: int| 0 <= j < 4 implies b.subrange(p + 4, p + 8)[j] == enc_u32(lo)[j] by {
            assert(b.subrange(p + 4, p + 8)[j] == b[p + 4 + j]);
            assert(b.subrange(p, p + 8)[j + 4] == b[p + 4 + j]);
            assert(b.subrange(p, p + 8)[j + 4] == (enc_u32(hi) + enc_u32(lo))[j + 4]);
        }
    }
    lemma_read_enc_u32(b, p, hi);
    lemma_read_enc_u32(b, p + 4, lo);
    lemma_fundamental_div_mod(v as int, 0x100000000);
    assert(wire::u64_at(b, p) == v);
}

/// Reading an id/count field that encodes `v` yields `v`.
proof fn lemma_read_enc_io_field(b: Seq<u8>, p: int, v: u16, w: int)
    requires
        0 <= p,
        w == 1 || w == 2,
        v <= field_max(w),
        p + w <= b.len(),
        b.subrange(p, p + w) == enc_io_field(v, w),
    ensures
        wire::r_io_field(b, p, w) == Ok::<(u16, int), DecodeError>((v, p + w)),
{
    if w == 1 {
        assert(b[p] == enc_io_field(v, 1)[0]);
    } else {
        lemma_read_enc_u16(b, p, v);
    }
}

/// Reading a value field that encodes `v` at width `vw` yields `v`.
proof fn lemma_read_enc_io_value(b: Seq<u8>, p: int, v: u64, vw: int)
    requires
        0 <= p,
        vw == 1 || vw == 2 || vw == 4 || vw == 8,
        value_fits(v, vw),
        p + vw <= b.len(),
        b.subrange(p, p + vw) == enc_io_value(v, vw),
    ensures
        wire::r_io_value(b, p, vw) == Ok::<(u64, int), DecodeError>((v, p + vw)),
{
    if vw == 1 {
        assert(b[p] == enc_io_value(v, 1)[0]);
    } else if vw == 2 {
        lemma_read_enc_u16(b, p, v as u16);
    } else if vw == 4 {
        lemma_read_enc_u32(b, p, v as u32);
    } else {
        lemma_read_enc_u64(b, p, v);
    }
}

/// A range of `b` equal to a concatenation splits into its two parts.
proof fn lemma_split(b: Seq<u8>, p: int, s1: Seq<u8>, s2: Seq<u8>)
    requires
        0 <= p,
        p + s1.len() + s2.len() <= b.len(),
        b.subrange(p, p + s1.len() + s2.len()) == s1 + s2,
    ensures
        b.subrange(p, p + s1.len()) == s1,
        b.subrange(p + s1.len(), p + s1.len() + s2.len()) == s2,
{
    let n1 = s1.len() as int;
    let n2 = s2.len() as int;
    assert(b.subrange(p, p + n1) =~= s1) by {
        assert forall|j: int| 0 <= j < n1 implies b.subrange(p, p + n1)[j] == s1[j] by {
            assert(b.subrange(p, p + n1 + n2)[j] == b[p + j]);
            assert(b.subrange(p, p + n1 + n2)[j] == (s1 + s2)[j]);
            assert(b.subrange(p, p + n1)[j] == b[p + j]);
        }
    }
    assert(b.subrange(p + n1, p + n1 + n2) =~= s2) by {
        assert forall|j: int| 0 <= j < n2 implies b.subrange(p + n1, p + n1 + n2)[j] == s2[j] by {
            assert(b.subrange(p, p + n1 + n2)[j + n1] == b[p + n1 + j]);
            assert(b.subrange(p, p + n1 + n2)[j + n1] == (s1 + s2)[j + n1]);
            assert(b.subrange(p + n1, p + n1 + n2)[j] == b[p + n1 + j]);
        }
    }
}

/// Reading fifteen bytes that encode `g` yields `g`.
proof fn lemma_read_enc_gps(b: Seq<u8>, p: int, g: GpsFix)
    requires
        0 <= p,
        p + 15 <= b.len(),
        b.subrange(p, p + 15) == enc_gps(g),
    ensures
        wire::parse_gps(b, p) == Ok::<(GpsFix, int), DecodeError>((g, p + 15)),
{
    let e1 = enc_u32(g.longitude);
    let e2 = enc_u32(g.latitude);
    let e3 = enc_u16(g.altitude);
    let e4 = enc_u16(g.angle);
    let e5 = seq![g.satellites];
    let e6 = enc_u16(g.speed);
    assert(enc_gps(g) =~= e1 + (e2 + (e3 + (e4 + (e5 + e6)))));
    lemma_split(b, p, e1, e2 + (e3 + (e4 + (e5 + e6))));
    lemma_split(b, p + 4, e2, e3 + (e4 + (e5 + e6)));
    lemma_split(b, p + 8, e3, e4 + (e5 + e6));
    lemma_split(b, p + 10, e4, e5 + e6);
    lemma_split(b, p + 12, e5, e6);
    lemma_read_enc_u32(b, p, g.longitude);
    lemma_read_enc_u32(b, p + 4, g.latitude);
    lemma_read_enc_u16(b, p + 8, g.altitude);
    lemma_read_enc_u16(b, p + 10, g.angle);
    assert(b[p + 12] == b.subrange(p + 12, p + 13)[0]);
    lemma_read_enc_u16(b, p + 13, g.speed);
}

/// Reading back encoded pairs yields exactly those pairs.
#[verifier::rlimit(100)]
#[verifier::spinoff_prover]
proof fn lemma_read_enc_pairs(b: Seq<u8>, p: int, els: Seq<IoElement>, w: int, vw: int)
    requires
        0 <= p,
        w == 1 || w == 2,
        vw == 1 || vw == 2 || vw == 4 || vw == 8,
        bucket_wf(els, w, vw),
        p + enc_pairs(els, w, vw).len() <= b.len(),
        b.subrange(p, p + enc_pairs(els, w, vw).len()) == enc_pairs(els, w, vw),
    ensures
        wire::parse_pairs(b, p, els.len(), w, vw) == Ok::<(Seq<IoElement>, int), DecodeError>(
            (els, p + enc_pairs(els, w, vw).len()),
        ),
    decreases els.len(),
{
    if els.len() == 0 {
        assert(els =~= Seq::<IoElement>::empty());
    } else {
        let ef = enc_io_field(els[0].id, w);
        let ev = enc_io_value(els[0].value, vw);
        let rest = enc_pairs(els.drop_first(), w, vw);
        assert(els[0].id <= field_max(w) && value_fits(els[0].value, vw));
        assert(enc_pairs(els, w, vw) =~= ef + (ev + rest));
        lemma_split(b, p, ef, ev + rest);
        lemma_split(b, p + ef.len(), ev, rest);
        lemma_read_enc_io_field(b, p, els[0].id, w);
        lemma_read_enc_io_value(b, p + ef.len(), els[0].value, vw);
        assert(bucket_wf(els.drop_first(), w, vw)) by {
            assert forall|i: int| 0 <= i < els.drop_first().len() implies els.drop_first()[i].id
                <= field_max(w) && value_fits(#[trigger] els.drop_first()[i].value, vw) by {
                assert(els.drop_first()[i] == els[i + 1]);
                assert(els[i + 1].id <= field_max(w) && value_fits(els[i + 1].value, vw));
            }
        }
        lemma_read_enc_pairs(b, p + ef.len() + ev.len(), els.drop_first(), w, vw);
        assert(seq![els[0]] + els.drop_first() =~= els);
    }
}

/// Reading back an encoded bucket yields its pairs.
proof fn lemma_read_enc_bucket(b: Seq<u8>, p: int, els: Seq<IoElement>, w: int, vw: int)
    requires
        0 <= p,
        w == 1 || w == 2,
        vw == 1 || vw == 2 || vw == 4 || vw == 8,
        bucket_wf(els, w, vw),
        els.len() <= field_max(w),
        p + enc_bucket(els, w, vw).len() <= b.len(),
        b.subrange(p, p + enc_bucket(els, w, vw).len()) == enc_bucket(els, w, vw),
    ensures
        wire::parse_bucket(b, p, w, vw) == Ok::<(Seq<IoElement>, int), DecodeError>(
            (els, p + enc_bucket(els, w, vw).len()),
        ),
{
    let count = els.len() as u16;
    let ef = enc_io_field(count, w);
    let ep = enc_pairs(els, w, vw);
    assert(enc_bucket(els, w, vw) =~= ef + ep);
    lemma_split(b, p, ef, ep);
    lemma_read_enc_io_field(b, p, count, w);
    lemma_read_enc_pairs(b, p + ef.len(), els, w, vw);
}

/// Reading back an encoded IO block yields that block.
#[verifier::rlimit(100)]
proof fn lemma_read_enc_io_block(b: Seq<u8>, p: int, io: IoBlockView, w: int)
    requires
        0 <= p,
        w == 1 || w == 2,
        io_wf(io, w),
        p + enc_io_block(io, w).len() <= b.len(),
        b.subrange(p, p + enc_io_block(io, w).len()) == enc_io_block(io, w),
    ensures
        wire::parse_io_block(b, p, w) == Ok::<(IoBlockView, int), DecodeError>(
            (io, p + enc_io_block(io, w).len()),
        ),
{
    let e1 = enc_io_field(io.event_io_id, w);
    let e2 = enc_io_field(io.total_count() as u16, w);
    let b1 = enc_bucket(io.ones, w, 1);
    let b2 = enc_bucket(io.twos, w, 2);
    let b4 = enc_bucket(io.fours, w, 4);
    let b8 = enc_bucket(io.eights, w, 8);
    assert(enc_io_block(io, w) =~= e1 + (e2 + (b1 + (b2 + (b4 + b8)))));
    let p1 = p + e1.len();
    let p2 = p1 + e2.len();
    let p3 = p2 + b1.len();
    let p4 = p3 + b2.len();
    let p5 = p4 + b4.len();
    lemma_split(b, p, e1, e2 + (b1 + (b2 + (b4 + b8))));
    lemma_split(b, p1, e2, b1 + (b2 + (b4 + b8)));
    lemma_split(b, p2, b1, b2 + (b4 + b8));
    lemma_split(b, p3, b2, b4 + b8);
    lemma_split(b, p4, b4, b8);
    lemma_read_enc_io_field(b, p, io.event_io_id, w);
    lemma_read_enc_io_field(b, p1, io.total_count() as u16, w);
    lemma_read_enc_bucket(b, p2, io.ones, w, 1);
    lemma_read_enc_bucket(b, p3, io.twos, w, 2);
    lemma_read_enc_bucket(b, p4, io.fours, w, 4);
    lemma_read_enc_bucket(b, p5, io.eights, w, 8);
}

/// Reading back an encoded record yields that record.
#[verifier::rlimit(100)]
#[verifier::spinoff_prover]
proof fn lemma_read_enc_record(b: Seq<u8>, p: int, r: RecordView, w: int)
    requires
        0 <= p,
        w == 1 || w == 2,
        io_wf(r.io, w),
        p + enc_record(r, w).len() <= b.len(),
        b.subrange(p, p + enc_record(r, w).len()) == enc_record(r, w),
    ensures
        wire::parse_record(b, p, w) == Ok::<(RecordView, int), DecodeError>(
            (r, p + enc_record(r, w).len()),
        ),
{
    let e1 = enc_u64(r.timestamp);
    let e2 = seq![r.priority];
    let e3 = enc_gps(r.gps);
    let e4 = enc_io_block(r.io, w);
    assert(enc_record(r, w) =~= e1 + (e2 + (e3 + e4)));
    lemma_split(b, p, e1, e2 + (e3 + e4));
    lemma_split(b, p + 8, e2, e3 + e4);
    assert(e3.len() == 15);
    lemma_split(b, p + 9, e3, e4);
    lemma_read_enc_u64(b, p, r.timestamp);
    assert(b[p + 8] == b.subrange(p + 8, p + 9)[0]);
    lemma_read_enc_gps(b, p + 9, r.gps);
    lemma_read_enc_io_block(b, p + 24, r.io, w);
}

/// Reading back encoded records yields exactly those records.
#[verifier::rlimit(100)]
proof fn lemma_read_enc_records(b: Seq<u8>, p: int, rs: Seq<RecordView>, w: int)
    requires
        0 <= p,
        w == 1 || w == 2,
        forall|i: int| 0 <= i < rs.len() ==> io_wf(#[trigger] rs[i].io, w),
        p + enc_records(rs, w).len() <= b.len(),
        b.subrange(p, p + enc_records(rs, w).len()) == enc_records(rs, w),
    ensures
        wire::parse_records(b, p, rs.len(), w) == Ok::<(Seq<RecordView>, int), DecodeError>(
            (rs, p + enc_records(rs, w).len()),
        ),
    decreases rs.len(),
{
    if rs.len() == 0 {
        assert(rs =~= Seq::<RecordView>::empty());
    } else {
        let er = enc_record(rs[0], w);
        let rest = enc_records(rs.drop_first(), w);
        assert(enc_records(rs, w) =~= er + rest);
        lemma_split(b, p, er, rest);
        lemma_read_enc_record(b, p, rs[0], w);
        assert(forall|i: int|
            0 <= i < rs.drop_first().len() ==> io_wf(#[trigger] rs.drop_first()[i].io, w));
        lemma_read_enc_records(b, p + er.len(), rs.drop_first(), w);
        assert(seq![rs[0]] + rs.drop_first() =~= rs);
    }
}

// ---------------------------------------------------------------------------
// The laws.
// ---------------------------------------------------------------------------
/// The piece-level reads of an encoded frame: what each header field, the
/// record run, and the trailing count parse to.
#[verifier::rlimit(100)]
#[verifier::spinoff_prover]
proof fn lemma_read_enc_frame_pieces(f: FrameView)
    requires
        frame_wf(f),
    ensures
        wire::r_u32(enc_frame(f), 0) == Ok::<(u32, int), DecodeError>((0, 4)),
        wire::r_u32(enc_frame(f), 4) == Ok::<(u32, int), DecodeError>(
            ((enc_records(f.records, f.codec.spec_id_width()).len() + 3) as u32, 8),
        ),
        wire::r_u8(enc_frame(f), 8) == Ok::<(u8, int), DecodeError>((f.codec.spec_wire_id(), 9)),
        wire::r_u8(enc_frame(f), 9) == Ok::<(u8, int), DecodeError>((f.records.len() as u8, 10)),
        wire::parse_records(enc_frame(f), 10, f.records.len(), f.codec.spec_id_width()) == Ok::<
            (Seq<RecordView>, int),
            DecodeError,
        >((f.records, 10 + enc_records(f.records, f.codec.spec_id_width()).len() as int)),
        wire::r_u8(enc_frame(f), 10 + enc_records(f.records, f.codec.spec_id_width()).len() as int)
            == Ok::<(u8, int), DecodeError>(
            (
                f.records.len() as u8,
                11 + enc_records(f.records, f.codec.spec_id_width()).len() as int,
            ),
        ),
        enc_frame(f).len() == 11 + enc_records(f.records, f.codec.spec_id_width()).len(),
{
    let w = f.codec.spec_id_width();
    let body = enc_records(f.records, w);
    let n = f.records.len() as u8;
    let l = (body.len() + 3) as u32;
    let pre = seq![0u8, 0u8, 0u8, 0u8];
    let el = enc_u32(l);
    let ec = seq![f.codec.spec_wire_id()];
    let en = seq![n];
    let et = seq![n];
    let b = enc_frame(f);
    assert(b =~= pre + (el + (ec + (en + (body + et)))));
    assert(b.subrange(0, b.len() as int) =~= b);
    lemma_split(b, 0, pre, el + (ec + (en + (body + et))));
    lemma_split(b, 4, el, ec + (en + (body + et)));
    lemma_split(b, 8, ec, en + (body + et));
    lemma_split(b, 9, en, body + et);
    lemma_split(b, 10, body, et);
    assert(b[0] == b.subrange(0, 4)[0]);
    assert(b[1] == b.subrange(0, 4)[1]);
    assert(b[2] == b.subrange(0, 4)[2]);
    assert(b[3] == b.subrange(0, 4)[3]);
    assert(wire::u32_at(b, 0) == 0);
    lemma_read_enc_u32(b, 4, l);
    assert(b[8] == b.subrange(8, 9)[0]);
    assert(b[9] == b.subrange(9, 10)[0]);
    assert(forall|i: int| 0 <= i < f.records.len() ==> io_wf(#[trigger] f.records[i].io, w));
    lemma_read_enc_records(b, 10, f.records, w);
    assert(b[10 + body.len() as int] == b.subrange(10 + body.len() as int, 11 + body.len() as int)[0]);
}

/// Round-trip law: a well-formed frame, encoded to wire bytes and decoded
/// again, comes back equal — for every codec 8 and codec 8 extended frame.
#[verifier::spinoff_prover]
pub proof fn lemma_round_trip(f: FrameView)
    requires
        frame_wf(f),
    ensures
        wire::parse_frame(enc_frame(f)) == Ok::<FrameView, DecodeError>(f),
{
    lemma_read_enc_frame_pieces(f);
    let b = enc_frame(f);
    let w = f.codec.spec_id_width();
    let body = enc_records(f.records, w);
    assert(wire::codec_of(f.codec.spec_wire_id()) == Some(f.codec));
    assert((f.records.len() as u8) as nat == f.records.len());
    assert(b.len() - 8 >= (body.len() + 3) as u32);
    assert(wire::parse_frame(b) == Ok::<FrameView, DecodeError>(
        FrameView { codec: f.codec, records: f.records },
    ));
    assert(FrameView { codec: f.codec, records: f.records } == f);
}

/// For every count, a well-formed frame with that many records decodes to
/// exactly that many records, in their original order.
pub proof fn lemma_count_and_order(f: FrameView)
    requires
        frame_wf(f),
    ensures
        wire::parse_frame(enc_frame(f)) matches Ok(g) && g.records.len() == f.records.len()
            && forall|i: int| 0 <= i < f.records.len() ==> g.records[i] == #[trigger] f.records[i],
{
    lemma_round_trip(f);
}

/// Every successfully decoded frame has exactly as many records as its
/// header declared.
pub proof fn lemma_decoded_count_is_declared(b: Seq<u8>)
    requires
        wire::parse_frame(b) is Ok,
    ensures
        b.len() >= 10,
        wire::parse_frame(b) matches Ok(f) && f.records.len() == b[9],
{
    if let Ok((preamble, p1)) = wire::r_u32(b, 0) {
        if let Ok((length, p2)) = wire::r_u32(b, p1) {
            if let Ok((id, p3)) = wire::r_u8(b, p2) {
                if let Some(codec) = wire::codec_of(id) {
                    if let Ok((n, p4)) = wire::r_u8(b, p3) {
                        wire::lemma_parse_records_len(b, p4, n as nat, codec.spec_id_width());
                    }
                }
            }
        }
    }
}

/// Whenever the IO block's structure reads fine but the four bucket counts
/// do not sum to the declared total — as after corrupting a single count
/// field without shortening the readable structure — the block fails with
/// `CountMismatch` at the block's start offset, carrying both numbers.
pub proof fn lemma_io_count_mismatch(
    b: Seq<u8>,
    p: int,
    w: int,
    event: u16,
    p1: int,
    total: u16,
    p2: int,
    ones: Seq<IoElement>,
    p3: int,
    twos: Seq<IoElement>,
    p4: int,
    fours: Seq<IoElement>,
    p5: int,
    eights: Seq<IoElement>,
    p6: int,
)
    requires
        wire::r_io_field(b, p, w) == Ok::<(u16, int), DecodeError>((event, p1)),
        wire::r_io_field(b, p1, w) == Ok::<(u16, int), DecodeError>((total, p2)),
        wire::parse_bucket(b, p2, w, 1) == Ok::<(Seq<IoElement>, int), DecodeError>((ones, p3)),
        wire::parse_bucket(b, p3, w, 2) == Ok::<(Seq<IoElement>, int), DecodeError>((twos, p4)),
        wire::parse_bucket(b, p4, w, 4) == Ok::<(Seq<IoElement>, int), DecodeError>((fours, p5)),
        wire::parse_bucket(b, p5, w, 8) == Ok::<(Seq<IoElement>, int), DecodeError>((eights, p6)),
        ones.len() + twos.len() + fours.len() + eights.len() != total,
    ensures
        wire::parse_io_block(b, p, w) == Err::<(IoBlockView, int), DecodeError>(
            DecodeError::CountMismatch {
                offset: p as usize,
                expected: total as u32,
                actual: (ones.len() + twos.len() + fours.len() + eights.len()) as u32,
            },
        ),
{
}

/// Whenever everything up to the trailing count reads fine but the trailing
/// count does not echo the header's record count, the frame fails with
/// `RecordCountMismatch` carrying both counts.
pub proof fn lemma_trailing_mismatch(
    b: Seq<u8>,
    codec: Codec,
    rs: Seq<RecordView>,
    p5: int,
    trailing: u8,
    p6: int,
)
    requires
        b.len() >= 10,
        wire::u32_at(b, 0) == 0,
        b.len() - 8 >= wire::u32_at(b, 4),
        wire::codec_of(b[8]) == Some(codec),
        wire::parse_records(b, 10, b[9] as nat, codec.spec_id_width()) == Ok::<
            (Seq<RecordView>, int),
            DecodeError,
        >((rs, p5)),
        wire::r_u8(b, p5) == Ok::<(u8, int), DecodeError>((trailing, p6)),
        trailing != b[9],
    ensures
        wire::parse_frame(b) == Err::<FrameView, DecodeError>(
            DecodeError::RecordCountMismatch {
                offset: p5 as usize,
                declared: b[9],
                trailing: trailing,
            },
        ),
{
}

/// An unrecognised codec id fails with `UnsupportedCodec` naming that id, no
/// matter what the record body holds: nothing past the codec byte is
/// examined.
pub proof fn lemma_unknown_codec(b: Seq<u8>)
    requires
        b.len() >= 9,
        wire::u32_at(b, 0) == 0,
        b.len() - 8 >= wire::u32_at(b, 4),
        wire::codec_of(b[8]) is None,
    ensures
        wire::parse_frame(b) == Err::<FrameView, DecodeError>(
            DecodeError::UnsupportedCodec { offset: 8, id: b[8] },
        ),
{
}

// ---------------------------------------------------------------------------
// Truncation: cutting a valid frame short can only ever read as `Truncated`.
// ---------------------------------------------------------------------------
/// Truncating below a one-byte read's end turns it into `Truncated`; keeping
/// the end intact leaves it unchanged.
proof fn lemma_take_r_u8(b: Seq<u8>, i: int, p: int)
    requires
        0 <= p,
        0 <= i <= b.len(),
        wire::r_u8(b, p) is Ok,
    ensures
        p + 1 <= i ==> wire::r_u8(b.take(i), p) == wire::r_u8(b, p),
        i < p + 1 ==> (wire::r_u8(b.take(i), p) matches Err(e) && e is Truncated),
{
    if p + 1 <= i {
        assert(b.take(i)[p] == b[p]);
    }
}

/// As `lemma_take_r_u8`, for a two-byte read.
proof fn lemma_take_r_u16(b: Seq<u8>, i: int, p: int)
    requires
        0 <= p,
        0 <= i <= b.len(),
        wire::r_u16(b, p) is Ok,
    ensures
        p + 2 <= i ==> wire::r_u16(b.take(i), p) == wire::r_u16(b, p),
        i < p + 2 ==> (wire::r_u16(b.take(i), p) matches Err(e) && e is Truncated),
{
    if p + 2 <= i {
        assert(b.take(i)[p] == b[p]);
        assert(b.take(i)[p + 1] == b[p + 1]);
        assert(wire::u16_at(b.take(i), p) == wire::u16_at(b, p));
    }
}

/// As `lemma_take_r_u8`, for a four-byte read.
proof fn lemma_take_r_u32(b: Seq<u8>, i: int, p: int)
    requires
        0 <= p,
        0 <= i <= b.len(),
        wire::r_u32(b, p) is Ok,
    ensures
        p + 4 <= i ==> wire::r_u32(b.take(i), p) == wire::r_u32(b, p),
        i < p + 4 ==> (wire::r_u32(b.take(i), p) matches Err(e) && e is Truncated),
{
    if p + 4 <= i {
        assert(b.take(i)[p] == b[p]);
        assert(b.take(i)[p + 1] == b[p + 1]);
        assert(b.take(i)[p + 2] == b[p + 2]);
        assert(b.take(i)[p + 3] == b[p + 3]);
        assert(wire::u32_at(b.take(i), p) == wire::u32_at(b, p));
    }
}

/// As `lemma_take_r_u8`, for an eight-byte read.
proof fn lemma_take_r_u64(b: Seq<u8>, i: int, p: int)
    requires
        0 <= p,
        0 <= i <= b.len(),
        wire::r_u64(b, p) is Ok,
    ensures
        p + 8 <= i ==> wire::r_u64(b.take(i), p) == wire::r_u64(b, p),
        i < p + 8 ==> (wire::r_u64(b.take(i), p) matches Err(e) && e is Truncated),
{
    if p + 8 <= i {
        assert(b.take(i)[p] == b[p]);
        assert(b.take(i)[p + 1] == b[p + 1]);
        assert(b.take(i)[p + 2] == b[p + 2]);
        assert(b.take(i)[p + 3] == b[p + 3]);
        assert(b.take(i)[p + 4] == b[p + 4]);
        assert(b.take(i)[p + 5] == b[p + 5]);
        assert(b.take(i)[p + 6] == b[p + 6]);
        assert(b.take(i)[p + 7] == b[p + 7]);
        assert(wire::u32_at(b.take(i), p) == wire::u32_at(b, p));
        assert(wire::u32_at(b.take(i), p + 4) == wire::u32_at(b, p + 4));
        assert(wire::u64_at(b.take(i), p) == wire::u64_at(b, p));
    }
}

/// As `lemma_take_r_u8`, for an IO id/count field of width `w`.
proof fn lemma_take_r_io_field(b: Seq<u8>, i: int, p: int, w: int)
    requires
        0 <= p,
        0 <= i <= b.len(),
        w == 1 || w == 2,
        wire::r_io_field(b, p, w) is Ok,
    ensures
        p + w <= i ==> wire::r_io_field(b.take(i), p, w) == wire::r_io_field(b, p, w),
        i < p + w ==> (wire::r_io_field(b.take(i), p, w) matches Err(e) && e is Truncated),
{
    if w == 1 {
        lemma_take_r_u8(b, i, p);
    } else {
        lemma_take_r_u16(b, i, p);
    }
}

/// As `lemma_take_r_u8`, for an IO value of width `vw`.
proof fn lemma_take_r_io_value(b: Seq<u8>, i: int, p: int, vw: int)
    requires
        0 <= p,
        0 <= i <= b.len(),
        vw == 1 || vw == 2 || vw == 4 || vw == 8,
        wire::r_io_value(b, p, vw) is Ok,
    ensures
        p + vw <= i ==> wire::r_io_value(b.take(i), p, vw) == wire::r_io_value(b, p, vw),
        i < p + vw ==> (wire::r_io_value(b.take(i), p, vw) matches Err(e) && e is Truncated),
{
    if vw == 1 {
        lemma_take_r_u8(b, i, p);
    } else if vw == 2 {
        lemma_take_r_u16(b, i, p);
    } else if vw == 4 {
        lemma_take_r_u32(b, i, p);
    } else {
        lemma_take_r_u64(b, i, p);
    }
}

/// As `lemma_take_r_u8`, for the GPS element.
proof fn lemma_take_parse_gps(b: Seq<u8>, i: int, p: int)
    requires
        0 <= p,
        0 <= i <= b.len(),
        wire::parse_gps(b, p) is Ok,
    ensures
        p + 15 <= i ==> wire::parse_gps(b.take(i), p) == wire::parse_gps(b, p),
        i < p + 15 ==> (wire::parse_gps(b.take(i), p) matches Err(e) && e is Truncated),
{
    if let Ok((lon, p1)) = wire::r_u32(b, p) {
        lemma_take_r_u32(b, i, p);
        if p1 <= i {
            if let Ok((lat, p2)) = wire::r_u32(b, p1) {
                lemma_take_r_u32(b, i, p1);
                if p2 <= i {
                    if let Ok((alt, p3)) = wire::r_u16(b, p2) {
                        lemma_take_r_u16(b, i, p2);
                        if p3 <= i {
                            if let Ok((ang, p4)) = wire::r_u16(b, p3) {
                                lemma_take_r_u16(b, i, p3);
                                if p4 <= i {
                                    if let Ok((sat, p5)) = wire::r_u8(b, p4) {
                                        lemma_take_r_u8(b, i, p4);
                                        if p5 <= i {
                                            lemma_take_r_u16(b, i, p5);
                                        }
                                    }
                                }
                            }
                        }
                    }
                }
            }
        }
    }
}

/// As `lemma_take_r_u8`, for a run of `n` pairs ending at `end`.
#[verifier::rlimit(100)]
#[verifier::spinoff_prover]
proof fn lemma_take_parse_pairs(b: Seq<u8>, i: int, p: int, n: nat, w: int, vw: int)
    requires
        0 <= p,
        0 <= i <= b.len(),
        w == 1 || w == 2,
        vw == 1 || vw == 2 || vw == 4 || vw == 8,
        wire::parse_pairs(b, p, n, w, vw) is Ok,
    ensures
        wire::parse_pairs(b, p, n, w, vw)->Ok_0.1 <= i ==> wire::parse_pairs(b.take(i), p, n, w, vw)
            == wire::parse_pairs(b, p, n, w, vw),
        p <= i < wire::parse_pairs(b, p, n, w, vw)->Ok_0.1 ==> (wire::parse_pairs(
            b.take(i),
            p,
            n,
            w,
            vw,
        ) matches Err(e) && e is Truncated),
    decreases n,
{
    if n > 0 {
        if let Ok((id, p1)) = wire::r_io_field(b, p, w) {
            if let Ok((v, p2)) = wire::r_io_value(b, p1, vw) {
                wire::lemma_parse_pairs_len(b, p2, (n - 1) as nat, w, vw);
                lemma_take_r_io_field(b, i, p, w);
                if p1 <= i {
                    lemma_take_r_io_value(b, i, p1, vw);
                    if p2 <= i {
                        lemma_take_parse_pairs(b, i, p2, (n - 1) as nat, w, vw);
                    }
                }
            }
        }
    }
}

/// As `lemma_take_r_u8`, for one bucket.
proof fn lemma_take_parse_bucket(b: Seq<u8>, i: int, p: int, w: int, vw: int)
    requires
        0 <= p,
        0 <= i <= b.len(),
        w == 1 || w == 2,
        vw == 1 || vw == 2 || vw == 4 || vw == 8,
        wire::parse_bucket(b, p, w, vw) is Ok,
    ensures
        wire::parse_bucket(b, p, w, vw)->Ok_0.1 <= i ==> wire::parse_bucket(b.take(i), p, w, vw)
            == wire::parse_bucket(b, p, w, vw),
        i < wire::parse_bucket(b, p, w, vw)->Ok_0.1 ==> (wire::parse_bucket(b.take(i), p, w, vw)
            matches Err(e) && e is Truncated),
{
    if let Ok((count, p1)) = wire::r_io_field(b, p, w) {
        lemma_take_r_io_field(b, i, p, w);
        wire::lemma_parse_pairs_len(b, p1, count as nat, w, vw);
        if p1 <= i {
            lemma_take_parse_pairs(b, i, p1, count as nat, w, vw);
        }
    }
}

/// As `lemma_take_r_u8`, for the IO element block.
#[verifier::rlimit(100)]
#[verifier::spinoff_prover]
proof fn lemma_take_parse_io_block(b: Seq<u8>, i: int, p: int, w: int)
    requires
        0 <= p,
        0 <= i <= b.len(),
        w == 1 || w == 2,
        wire::parse_io_block(b, p, w) is Ok,
    ensures
        wire::parse_io_block(b, p, w)->Ok_0.1 <= i ==> wire::parse_io_block(b.take(i), p, w)
            == wire::parse_io_block(b, p, w),
        i < wire::parse_io_block(b, p, w)->Ok_0.1 ==> (wire::parse_io_block(b.take(i), p, w)
            matches Err(e) && e is Truncated),
{
    if let Ok((event, p1)) = wire::r_io_field(b, p, w) {
        if let Ok((total, p2)) = wire::r_io_field(b, p1, w) {
            if let Ok((ones, p3)) = wire::parse_bucket(b, p2, w, 1) {
                wire::lemma_parse_bucket_advances(b, p2, w, 1);
                if let Ok((twos, p4)) = wire::parse_bucket(b, p3, w, 2) {
                    wire::lemma_parse_bucket_advances(b, p3, w, 2);
                    if let Ok((fours, p5)) = wire::parse_bucket(b, p4, w, 4) {
                        wire::lemma_parse_bucket_advances(b, p4, w, 4);
                        if let Ok((eights, p6)) = wire::parse_bucket(b, p5, w, 8) {
                            wire::lemma_parse_bucket_advances(b, p5, w, 8);
                            lemma_take_r_io_field(b, i, p, w);
                            if p1 <= i {
                                lemma_take_r_io_field(b, i, p1, w);
                                if p2 <= i {
                                    lemma_take_parse_bucket(b, i, p2, w, 1);
                                    if p3 <= i {
                                        lemma_take_parse_bucket(b, i, p3, w, 2);
                                        if p4 <= i {
                                            lemma_take_parse_bucket(b, i, p4, w, 4);
                                            if p5 <= i {
                                                lemma_take_parse_bucket(b, i, p5, w, 8);
                                            }
                                        }
                                    }
                                }
                            }
                        }
                    }
                }
            }
        }
    }
}

/// As `lemma_take_r_u8`, for one record.
#[verifier::rlimit(100)]
#[verifier::spinoff_prover]
proof fn lemma_take_parse_record(b: Seq<u8>, i: int, p: int, w: int)
    requires
        0 <= p,
        0 <= i <= b.len(),
        w == 1 || w == 2,
        wire::parse_record(b, p, w) is Ok,
    ensures
        wire::parse_record(b, p, w)->Ok_0.1 <= i ==> wire::parse_record(b.take(i), p, w)
            == wire::parse_record(b, p, w),
        i < wire::parse_record(b, p, w)->Ok_0.1 ==> (wire::parse_record(b.take(i), p, w)
            matches Err(e) && e is Truncated),
{
    if let Ok((ts, p1)) = wire::r_u64(b, p) {
        if let Ok((prio, p2)) = wire::r_u8(b, p1) {
            if let Ok((gps, p3)) = wire::parse_gps(b, p2) {
                wire::lemma_parse_io_block_advances(b, p3, w);
                lemma_take_r_u64(b, i, p);
                if p1 <= i {
                    lemma_take_r_u8(b, i, p1);
                    if p2 <= i {
                        lemma_take_parse_gps(b, i, p2);
                        if p3 <= i {
                            lemma_take_parse_io_block(b, i, p3, w);
                        }
                    }
                }
            }
        }
    }
}

/// As `lemma_take_r_u8`, for a run of `n` records.
#[verifier::rlimit(100)]
#[verifier::spinoff_prover]
proof fn lemma_take_parse_records(b: Seq<u8>, i: int, p: int, n: nat, w: int)
    requires
        0 <= p,
        0 <= i <= b.len(),
        w == 1 || w == 2,
        wire::parse_records(b, p, n, w) is Ok,
    ensures
        wire::parse_records(b, p, n, w)->Ok_0.1 <= i ==> wire::parse_records(b.take(i), p, n, w)
            == wire::parse_records(b, p, n, w),
        p <= i < wire::parse_records(b, p, n, w)->Ok_0.1 ==> (wire::parse_records(b.take(i), p, n, w)
            matches Err(e) && e is Truncated),
    decreases n,
{
    if n > 0 {
        if let Ok((r, p1)) = wire::parse_record(b, p, w) {
            wire::lemma_parse_record_advances(b, p, w);
            wire::lemma_parse_records_len(b, p1, (n - 1) as nat, w);
            lemma_take_parse_record(b, i, p, w);
            if p1 <= i {
                lemma_take_parse_records(b, i, p1, (n - 1) as nat, w);
            }
        }
    }
}

/// The length in bytes of the frame at the start of `b`: everything through
/// the trailing record count. Meaningful when `b` parses successfully; bytes
/// past this offset are outside the frame and never examined.
pub open spec fn frame_len(b: Seq<u8>) -> int
    recommends
        wire::parse_frame(b) is Ok,
{
    match wire::codec_of(b[8]) {
        Some(codec) => match wire::parse_records(b, 10, b[9] as nat, codec.spec_id_width()) {
            Ok((rs, p5)) => p5 + 1,
            Err(e) => 0,
        },
        None => 0,
    }
}

/// Truncation law: cutting any valid frame at any offset before its end
/// yields `Truncated` — never a panic, never a different error, and never a
/// wrong-but-successful result.
#[verifier::rlimit(100)]
#[verifier::spinoff_prover]
pub proof fn lemma_truncation(b: Seq<u8>, i: int)
    requires
        wire::parse_frame(b) is Ok,
        0 <= i < frame_len(b),
    ensures
        wire::parse_frame(b.take(i)) matches Err(e) && e is Truncated,
{
    let t = b.take(i);
    if let Ok((preamble, pa)) = wire::r_u32(b, 0) {
        lemma_take_r_u32(b, i, 0);
        if 4 <= i {
            if let Ok((length, pb)) = wire::r_u32(b, 4) {
                lemma_take_r_u32(b, i, 4);
                if 8 <= i {
                    if i - 8 < length {
                        assert(wire::parse_frame(t) == Err::<FrameView, DecodeError>(
                            DecodeError::Truncated {
                                offset: 8,
                                needed: length as usize,
                                available: (i - 8) as usize,
                            },
                        ));
                    } else {
                        if let Ok((id, pc)) = wire::r_u8(b, 8) {
                            lemma_take_r_u8(b, i, 8);
                            if 9 <= i {
                                if let Some(codec) = wire::codec_of(id) {
                                    if let Ok((n, pd)) = wire::r_u8(b, 9) {
                                        lemma_take_r_u8(b, i, 9);
                                        if 10 <= i {
                                            let w = codec.spec_id_width();
                                            if let Ok((rs, p5)) = wire::parse_records(
                                                b,
                                                10,
                                                n as nat,
                                                w,
                                            ) {
                                                wire::lemma_parse_records_len(b, 10, n as nat, w);
                                                lemma_take_parse_records(b, i, 10, n as nat, w);
                                                if p5 <= i {
                                                    lemma_take_r_u8(b, i, p5);
                                                }
                                            }
                                        }
                                    }
                                }
                            }
                        }
                    }
                }
            }
        }
    }
}

} // verus!
