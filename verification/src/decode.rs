//! The executable decoder. Each function consumes bytes through a `Cursor`
//! and is proved to return exactly what the specification-level parser in
//! `wire` says, including which error is reported at which offset.

use crate::cursor::Cursor;
use crate::error::DecodeError;
use crate::model::{AvlRecord, Codec, Frame, GpsFix, IoBlock, IoElement};
use crate::wire;
use vstd::prelude::*;

verus! {

/// Read one IO id or count field, whose width the codec selects.
pub fn read_io_field(cur: &mut Cursor, codec: Codec) -> (r: Result<u16, DecodeError>)
    requires
        old(cur).wf(),
    ensures
        final(cur).wf(),
        final(cur).data_spec() == old(cur).data_spec(),
        match wire::r_io_field(old(cur).data_spec(), old(cur).pos_spec(), codec.spec_id_width()) {
            Ok((v, q)) => r == Ok::<u16, DecodeError>(v) && final(cur).pos_spec() == q,
            Err(e) => r == Err::<u16, DecodeError>(e) && final(cur).pos_spec() == old(
                cur,
            ).pos_spec(),
        },
{
    match codec {
        Codec::Codec8 => match cur.read_u8() {
            Ok(v) => Ok(v as u16),
            Err(e) => Err(e),
        },
        Codec::Codec8Extended => cur.read_u16_be(),
    }
}

/// Read one IO element value of byte width `vw`.
pub fn read_io_value(cur: &mut Cursor, vw: usize) -> (r: Result<u64, DecodeError>)
    requires
        old(cur).wf(),
        vw == 1 || vw == 2 || vw == 4 || vw == 8,
    ensures
        final(cur).wf(),
        final(cur).data_spec() == old(cur).data_spec(),
        match wire::r_io_value(old(cur).data_spec(), old(cur).pos_spec(), vw as int) {
            Ok((v, q)) => r == Ok::<u64, DecodeError>(v) && final(cur).pos_spec() == q,
            Err(e) => r == Err::<u64, DecodeError>(e) && final(cur).pos_spec() == old(
                cur,
            ).pos_spec(),
        },
{
    if vw == 1 {
        match cur.read_u8() {
            Ok(v) => Ok(v as u64),
            Err(e) => Err(e),
        }
    } else if vw == 2 {
        match cur.read_u16_be() {
            Ok(v) => Ok(v as u64),
            Err(e) => Err(e),
        }
    } else if vw == 4 {
        match cur.read_u32_be() {
            Ok(v) => Ok(v as u64),
            Err(e) => Err(e),
        }
    } else {
        cur.read_u64_be()
    }
}

/// Decode the fixed 15-byte GPS element. Fails only by truncation: every
/// byte value of every field is a legal wire value and passes through
/// unchanged.
pub fn read_gps(cur: &mut Cursor) -> (r: Result<GpsFix, DecodeError>)
    requires
        old(cur).wf(),
    ensures
        final(cur).wf(),
        final(cur).data_spec() == old(cur).data_spec(),
        match wire::parse_gps(old(cur).data_spec(), old(cur).pos_spec()) {
            Ok((g, q)) => r == Ok::<GpsFix, DecodeError>(g) && final(cur).pos_spec() == q,
            Err(e) => r == Err::<GpsFix, DecodeError>(e),
        },
{
    let longitude: u32 = match cur.read_u32_be() {
        Ok(v) => v,
        Err(e) => return Err(e),
    };
    let latitude: u32 = match cur.read_u32_be() {
        Ok(v) => v,
        Err(e) => return Err(e),
    };
    let altitude: u16 = match cur.read_u16_be() {
        Ok(v) => v,
        Err(e) => return Err(e),
    };
    let angle: u16 = match cur.read_u16_be() {
        Ok(v) => v,
        Err(e) => return Err(e),
    };
    let satellites: u8 = match cur.read_u8() {
        Ok(v) => v,
        Err(e) => return Err(e),
    };
    let speed: u16 = match cur.read_u16_be() {
        Ok(v) => v,
        Err(e) => return Err(e),
    };
    Ok(
        GpsFix {
            longitude: longitude,
            latitude: latitude,
            altitude: altitude,
            angle: angle,
            satellites: satellites,
            speed: speed,
        },
    )
}

/// Decode one bucket: its count field, then that many (id, value) pairs.
#[verifier::loop_isolation(false)]
pub fn read_bucket(cur: &mut Cursor, codec: Codec, vw: usize) -> (r: Result<
    Vec<IoElement>,
    DecodeError,
>)
    requires
        old(cur).wf(),
        vw == 1 || vw == 2 || vw == 4 || vw == 8,
    ensures
        final(cur).wf(),
        final(cur).data_spec() == old(cur).data_spec(),
        match wire::parse_bucket(
            old(cur).data_spec(),
            old(cur).pos_spec(),
            codec.spec_id_width(),
            vw as int,
        ) {
            Ok((els, q)) => r matches Ok(v) && v@ == els && final(cur).pos_spec() == q,
            Err(e) => r == Err::<Vec<IoElement>, DecodeError>(e),
        },
{
    let ghost b = old(cur).data_spec();
    let ghost w = codec.spec_id_width();
    let count: u16 = match read_io_field(cur, codec) {
        Ok(v) => v,
        Err(e) => return Err(e),
    };
    let ghost p1 = cur.pos_spec();
    let mut els: Vec<IoElement> = Vec::new();
    let mut i: usize = 0;
    while i < count as usize
        invariant
            cur.wf(),
            cur.data_spec() == b,
            i <= count,
            els@.len() == i,
            vw == 1 || vw == 2 || vw == 4 || vw == 8,
            w == 1 || w == 2,
            match wire::parse_pairs(b, cur.pos_spec(), (count - i) as nat, w, vw as int) {
                Ok((rest, end)) => wire::parse_pairs(b, p1, count as nat, w, vw as int) == Ok::<
                    (Seq<IoElement>, int),
                    DecodeError,
                >((els@ + rest, end)),
                Err(e) => wire::parse_pairs(b, p1, count as nat, w, vw as int) == Err::<
                    (Seq<IoElement>, int),
                    DecodeError,
                >(e),
            },
        decreases count - i,
    {
        let ghost n_left = (count - i) as nat;
        let ghost p_before = cur.pos_spec();
        let id: u16 = match read_io_field(cur, codec) {
            Ok(v) => v,
            Err(e) => return Err(e),
        };
        let value: u64 = match read_io_value(cur, vw) {
            Ok(v) => v,
            Err(e) => return Err(e),
        };
        let el = IoElement { id: id, value: value };
        let ghost els_old = els@;
        els.push(el);
        i = i + 1;
        proof {
            assert(els@ =~= els_old + seq![el]);
            if let Ok((rest, end)) = wire::parse_pairs(
                b,
                cur.pos_spec(),
                (count - i) as nat,
                w,
                vw as int,
            ) {
                assert(wire::parse_pairs(b, p_before, n_left, w, vw as int) matches Ok((all, e2))
                    && all == seq![el] + rest && e2 == end);
                assert(els@ + rest =~= els_old + (seq![el] + rest));
            }
        }
    }
    proof {
        assert(wire::parse_pairs(b, cur.pos_spec(), 0, w, vw as int) == Ok::<
            (Seq<IoElement>, int),
            DecodeError,
        >((Seq::<IoElement>::empty(), cur.pos_spec())));
        assert(els@ + Seq::<IoElement>::empty() =~= els@);
    }
    Ok(els)
}

/// Decode the IO element block following the GPS element: event-triggering
/// id, declared total count, then the four buckets in ascending value width.
/// After the buckets the bucket-count sum is cross-checked against the
/// declared total; a disagreement is a `CountMismatch` at the block's start.
pub fn read_io_block(cur: &mut Cursor, codec: Codec) -> (r: Result<IoBlock, DecodeError>)
    requires
        old(cur).wf(),
    ensures
        final(cur).wf(),
        final(cur).data_spec() == old(cur).data_spec(),
        match wire::parse_io_block(
            old(cur).data_spec(),
            old(cur).pos_spec(),
            codec.spec_id_width(),
        ) {
            Ok((io, q)) => r matches Ok(v) && v@ == io && final(cur).pos_spec() == q,
            Err(e) => r == Err::<IoBlock, DecodeError>(e),
        },
{
    let ghost b = old(cur).data_spec();
    let ghost w = codec.spec_id_width();
    let start: usize = cur.position();
    let event_io_id: u16 = match read_io_field(cur, codec) {
        Ok(v) => v,
        Err(e) => return Err(e),
    };
    let total: u16 = match read_io_field(cur, codec) {
        Ok(v) => v,
        Err(e) => return Err(e),
    };
    let ghost p2 = cur.pos_spec();
    let ones: Vec<IoElement> = match read_bucket(cur, codec, 1) {
        Ok(v) => v,
        Err(e) => return Err(e),
    };
    let twos: Vec<IoElement> = match read_bucket(cur, codec, 2) {
        Ok(v) => v,
        Err(e) => return Err(e),
    };
    let fours: Vec<IoElement> = match read_bucket(cur, codec, 4) {
        Ok(v) => v,
        Err(e) => return Err(e),
    };
    let eights: Vec<IoElement> = match read_bucket(cur, codec, 8) {
        Ok(v) => v,
        Err(e) => return Err(e),
    };
    proof {
        lemma_bucket_len(b, p2, w, 1);
        if let Ok((o1, p3)) = wire::parse_bucket(b, p2, w, 1) {
            lemma_bucket_len(b, p3, w, 2);
            if let Ok((o2, p4)) = wire::parse_bucket(b, p3, w, 2) {
                lemma_bucket_len(b, p4, w, 4);
                if let Ok((o4, p5)) = wire::parse_bucket(b, p4, w, 4) {
                    lemma_bucket_len(b, p5, w, 8);
                }
            }
        }
    }
    let sum: u32 = ones.len() as u32 + twos.len() as u32 + fours.len() as u32 + eights.len() as u32;
    if sum == total as u32 {
        Ok(
            IoBlock {
                event_io_id: event_io_id,
                ones: ones,
                twos: twos,
                fours: fours,
                eights: eights,
            },
        )
    } else {
        Err(
            DecodeError::CountMismatch { offset: start, expected: total as u32, actual: sum },
        )
    }
}

/// A successfully parsed bucket holds at most 65535 elements, its count
/// field's maximum.
proof fn lemma_bucket_len(b: Seq<u8>, p: int, w: int, vw: int)
    ensures
        wire::parse_bucket(b, p, w, vw) matches Ok((els, end)) ==> els.len() <= 0xffff,
{
    if let Ok((count, p1)) = wire::r_io_field(b, p, w) {
        wire::lemma_parse_pairs_len(b, p1, count as nat, w, vw);
    }
}

/// Decode one record: timestamp(8), priority(1), GPS element(15), IO element
/// block (variable). Any sub-decoder failure propagates unchanged; the
/// cursor's own position attributes the offset.
pub fn read_record(cur: &mut Cursor, codec: Codec) -> (r: Result<AvlRecord, DecodeError>)
    requires
        old(cur).wf(),
    ensures
        final(cur).wf(),
        final(cur).data_spec() == old(cur).data_spec(),
        match wire::parse_record(old(cur).data_spec(), old(cur).pos_spec(), codec.spec_id_width()) {
            Ok((rec, q)) => r matches Ok(v) && v@ == rec && final(cur).pos_spec() == q,
            Err(e) => r == Err::<AvlRecord, DecodeError>(e),
        },
{
    let timestamp: u64 = match cur.read_u64_be() {
        Ok(v) => v,
        Err(e) => return Err(e),
    };
    let priority: u8 = match cur.read_u8() {
        Ok(v) => v,
        Err(e) => return Err(e),
    };
    let gps: GpsFix = match read_gps(cur) {
        Ok(v) => v,
        Err(e) => return Err(e),
    };
    let io: IoBlock = match read_io_block(cur, codec) {
        Ok(v) => v,
        Err(e) => return Err(e),
    };
    Ok(AvlRecord { timestamp: timestamp, priority: priority, gps: gps, io: io })
}

/// Decode `count` consecutive records. The first failure aborts the whole
/// run: a corrupt record invalidates every later offset, so no partial
/// result is kept.
#[verifier::loop_isolation(false)]
pub fn read_records(cur: &mut Cursor, codec: Codec, count: u8) -> (r: Result<
    Vec<AvlRecord>,
    DecodeError,
>)
    requires
        old(cur).wf(),
    ensures
        final(cur).wf(),
        final(cur).data_spec() == old(cur).data_spec(),
        match wire::parse_records(
            old(cur).data_spec(),
            old(cur).pos_spec(),
            count as nat,
            codec.spec_id_width(),
        ) {
            Ok((rs, q)) => r matches Ok(v) && v@.map_values(|rec: AvlRecord| rec@) == rs && v@.len()
                == count && final(cur).pos_spec() == q,
            Err(e) => r == Err::<Vec<AvlRecord>, DecodeError>(e),
        },
{
    let ghost b = old(cur).data_spec();
    let ghost w = codec.spec_id_width();
    let ghost p0 = old(cur).pos_spec();
    let mut records: Vec<AvlRecord> = Vec::new();
    let mut i: usize = 0;
    while i < count as usize
        invariant
            cur.wf(),
            cur.data_spec() == b,
            i <= count,
            records@.len() == i,
            match wire::parse_records(b, cur.pos_spec(), (count - i) as nat, w) {
                Ok((rest, end)) => wire::parse_records(b, p0, count as nat, w) == Ok::<
                    (Seq<crate::model::RecordView>, int),
                    DecodeError,
                >((records@.map_values(|rec: AvlRecord| rec@) + rest, end)),
                Err(e) => wire::parse_records(b, p0, count as nat, w) == Err::<
                    (Seq<crate::model::RecordView>, int),
                    DecodeError,
                >(e),
            },
        decreases count - i,
    {
        let ghost n_left = (count - i) as nat;
        let ghost p_before = cur.pos_spec();
        let rec: AvlRecord = match read_record(cur, codec) {
            Ok(v) => v,
            Err(e) => return Err(e),
        };
        let ghost rv_old = records@.map_values(|r2: AvlRecord| r2@);
        records.push(rec);
        i = i + 1;
        proof {
            assert(records@.map_values(|r2: AvlRecord| r2@) =~= rv_old + seq![rec@]);
            if let Ok((rest, end)) = wire::parse_records(b, cur.pos_spec(), (count - i) as nat, w) {
                assert(wire::parse_records(b, p_before, n_left, w) matches Ok((all, e2)) && all
                    == seq![rec@] + rest && e2 == end);
                assert(records@.map_values(|r2: AvlRecord| r2@) + rest =~= rv_old + (seq![rec@]
                    + rest));
            }
        }
    }
    proof {
        assert(wire::parse_records(b, cur.pos_spec(), 0, w) == Ok::<
            (Seq<crate::model::RecordView>, int),
            DecodeError,
        >((Seq::<crate::model::RecordView>::empty(), cur.pos_spec())));
        assert(records@.map_values(|rec: AvlRecord| rec@) + Seq::<
            crate::model::RecordView,
        >::empty() =~= records@.map_values(|rec: AvlRecord| rec@));
    }
    Ok(records)
}

/// Decode one frame held in memory. This is the single entry point: it
/// returns either the fully validated frame or the first error met, exactly
/// as the specification-level `wire::parse_frame` describes for every byte
/// buffer.
pub fn decode(bytes: &[u8]) -> (r: Result<Frame, DecodeError>)
    ensures
        match wire::parse_frame(bytes@) {
            Ok(f) => r matches Ok(fr) && fr@ == f,
            Err(e) => r == Err::<Frame, DecodeError>(e),
        },
{
    let ghost b = bytes@;
    let mut cur = Cursor::new(bytes);
    let preamble: u32 = match cur.read_u32_be() {
        Ok(v) => v,
        Err(e) => return Err(e),
    };
    if preamble != 0 {
        return Err(DecodeError::BadPreamble { offset: 0 });
    }
    let length: u32 = match cur.read_u32_be() {
        Ok(v) => v,
        Err(e) => return Err(e),
    };
    let after_length: usize = bytes.len() - 8;
    if (after_length as u64) < (length as u64) {
        return Err(
            DecodeError::Truncated { offset: 8, needed: length as usize, available: after_length },
        );
    }
    let codec_id: u8 = match cur.read_u8() {
        Ok(v) => v,
        Err(e) => return Err(e),
    };
    let codec: Codec = if codec_id == 8 {
        Codec::Codec8
    } else if codec_id == 142 {
        Codec::Codec8Extended
    } else {
        return Err(DecodeError::UnsupportedCodec { offset: 8, id: codec_id });
    };
    let count: u8 = match cur.read_u8() {
        Ok(v) => v,
        Err(e) => return Err(e),
    };
    let records: Vec<AvlRecord> = match read_records(&mut cur, codec, count) {
        Ok(v) => v,
        Err(e) => return Err(e),
    };
    let trailing_at: usize = cur.position();
    let trailing: u8 = match cur.read_u8() {
        Ok(v) => v,
        Err(e) => return Err(e),
    };
    if trailing != count {
        return Err(
            DecodeError::RecordCountMismatch {
                offset: trailing_at,
                declared: count,
                trailing: trailing,
            },
        );
    }
    let frame = Frame { codec: codec, records: records };
    proof {
        assert(frame@.records =~= frame.records@.map_values(|rec: AvlRecord| rec@));
    }
    Ok(frame)
}

} // verus!
