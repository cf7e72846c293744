//! The wire grammar as one specification-level parser over a byte sequence.
//! Each function returns either the parsed value together with the position
//! just past it, or the exact error the decoder reports. The executable
//! decoder is proved to return precisely what `parse_frame` says.

use crate::error::DecodeError;
use crate::model::{Codec, FrameView, GpsFix, IoBlockView, IoElement, RecordView};
use vstd::prelude::*;

verus! {

/// Big-endian value of the 2 bytes at `p`.
pub open spec fn u16_at(b: Seq<u8>, p: int) -> int {
    b[p] * 0x100 + b[p + 1]
}

/// Big-endian value of the 4 bytes at `p`.
pub open spec fn u32_at(b: Seq<u8>, p: int) -> int {
    b[p] * 0x1000000 + b[p + 1] * 0x10000 + b[p + 2] * 0x100 + b[p + 3]
}

/// Big-endian value of the 8 bytes at `p`.
pub open spec fn u64_at(b: Seq<u8>, p: int) -> int {
    u32_at(b, p) * 0x100000000 + u32_at(b, p + 4)
}

/// The error reported when `needed` bytes are wanted at `p` but the buffer
/// of length `len` has fewer left.
pub open spec fn truncated(p: int, needed: int, len: int) -> DecodeError {
    DecodeError::Truncated {
        offset: p as usize,
        needed: needed as usize,
        available: (len - p) as usize,
    }
}

/// Read one byte.
pub open spec fn r_u8(b: Seq<u8>, p: int) -> Result<(u8, int), DecodeError> {
    if p + 1 <= b.len() {
        Ok((b[p], p + 1))
    } else {
        Err(truncated(p, 1, b.len() as int))
    }
}

/// Read a big-endian 16-bit integer.
pub open spec fn r_u16(b: Seq<u8>, p: int) -> Result<(u16, int), DecodeError> {
    if p + 2 <= b.len() {
        Ok((u16_at(b, p) as u16, p + 2))
    } else {
        Err(truncated(p, 2, b.len() as int))
    }
}

/// Read a big-endian 32-bit integer.
pub open spec fn r_u32(b: Seq<u8>, p: int) -> Result<(u32, int), DecodeError> {
    if p + 4 <= b.len() {
        Ok((u32_at(b, p) as u32, p + 4))
    } else {
        Err(truncated(p, 4, b.len() as int))
    }
}

/// Read a big-endian 64-bit integer.
pub open spec fn r_u64(b: Seq<u8>, p: int) -> Result<(u64, int), DecodeError> {
    if p + 8 <= b.len() {
        Ok((u64_at(b, p) as u64, p + 8))
    } else {
        Err(truncated(p, 8, b.len() as int))
    }
}

/// Read an IO id/count field of width `w` (1 for codec 8, 2 for codec 8
/// extended).
pub open spec fn r_io_field(b: Seq<u8>, p: int, w: int) -> Result<(u16, int), DecodeError> {
    if w == 1 {
        match r_u8(b, p) {
            Ok((v, q)) => Ok((v as u16, q)),
            Err(e) => Err(e),
        }
    } else {
        r_u16(b, p)
    }
}

/// Read an IO element value of byte width `vw` (1, 2, 4 or 8).
pub open spec fn r_io_value(b: Seq<u8>, p: int, vw: int) -> Result<(u64, int), DecodeError> {
    if vw == 1 {
        match r_u8(b, p) {
            Ok((v, q)) => Ok((v as u64, q)),
            Err(e) => Err(e),
        }
    } else if vw == 2 {
        match r_u16(b, p) {
            Ok((v, q)) => Ok((v as u64, q)),
            Err(e) => Err(e),
        }
    } else if vw == 4 {
        match r_u32(b, p) {
            Ok((v, q)) => Ok((v as u64, q)),
            Err(e) => Err(e),
        }
    } else {
        r_u64(b, p)
    }
}

/// Parse the fixed 15-byte GPS element: longitude(4), latitude(4),
/// altitude(2), angle(2), satellites(1), speed(2). No field-level validation:
/// every byte value is a legal wire value.
pub open spec fn parse_gps(b: Seq<u8>, p: int) -> Result<(GpsFix, int), DecodeError> {
    match r_u32(b, p) {
        Err(e) => Err(e),
        Ok((lon, p1)) => match r_u32(b, p1) {
            Err(e) => Err(e),
            Ok((lat, p2)) => match r_u16(b, p2) {
                Err(e) => Err(e),
                Ok((alt, p3)) => match r_u16(b, p3) {
                    Err(e) => Err(e),
                    Ok((ang, p4)) => match r_u8(b, p4) {
                        Err(e) => Err(e),
                        Ok((sat, p5)) => match r_u16(b, p5) {
                            Err(e) => Err(e),
                            Ok((spd, p6)) => Ok(
                                (
                                    GpsFix {
                                        longitude: lon,
                                        latitude: lat,
                                        altitude: alt,
                                        angle: ang,
                                        satellites: sat,
                                        speed: spd,
                                    },
                                    p6,
                                ),
                            ),
                        },
                    },
                },
            },
        },
    }
}

/// Parse `n` (id, value) pairs of one bucket: the id is `w` bytes, the value
/// `vw` bytes, with no padding between pairs.
pub open spec fn parse_pairs(b: Seq<u8>, p: int, n: nat, w: int, vw: int) -> Result<
    (Seq<IoElement>, int),
    DecodeError,
>
    decreases n,
{
    if n == 0 {
        Ok((Seq::empty(), p))
    } else {
        match r_io_field(b, p, w) {
            Err(e) => Err(e),
            Ok((id, p1)) => match r_io_value(b, p1, vw) {
                Err(e) => Err(e),
                Ok((v, p2)) => match parse_pairs(b, p2, (n - 1) as nat, w, vw) {
                    Err(e) => Err(e),
                    Ok((rest, end)) => Ok((seq![IoElement { id: id, value: v }] + rest, end)),
                },
            },
        }
    }
}

/// Parse one bucket: its own count field followed by that many pairs.
pub open spec fn parse_bucket(b: Seq<u8>, p: int, w: int, vw: int) -> Result<
    (Seq<IoElement>, int),
    DecodeError,
> {
    match r_io_field(b, p, w) {
        Err(e) => Err(e),
        Ok((count, p1)) => parse_pairs(b, p1, count as nat, w, vw),
    }
}

/// Parse the IO element block: event-triggering id, declared total element
/// count, then the four buckets in ascending value width (1, 2, 4, 8). After
/// the buckets, the sum of the bucket counts must equal the declared total;
/// a disagreement is a `CountMismatch` at the block's start offset.
pub open spec fn parse_io_block(b: Seq<u8>, p: int, w: int) -> Result<
    (IoBlockView, int),
    DecodeError,
> {
    match r_io_field(b, p, w) {
        Err(e) => Err(e),
        Ok((event, p1)) => match r_io_field(b, p1, w) {
            Err(e) => Err(e),
            Ok((total, p2)) => match parse_bucket(b, p2, w, 1) {
                Err(e) => Err(e),
                Ok((ones, p3)) => match parse_bucket(b, p3, w, 2) {
                    Err(e) => Err(e),
                    Ok((twos, p4)) => match parse_bucket(b, p4, w, 4) {
                        Err(e) => Err(e),
                        Ok((fours, p5)) => match parse_bucket(b, p5, w, 8) {
                            Err(e) => Err(e),
                            Ok((eights, p6)) => {
                                let sum = ones.len() + twos.len() + fours.len() + eights.len();
                                if sum == total {
                                    Ok(
                                        (
                                            IoBlockView {
                                                event_io_id: event,
                                                ones: ones,
                                                twos: twos,
                                                fours: fours,
                                                eights: eights,
                                            },
                                            p6,
                                        ),
                                    )
                                } else {
                                    Err(
                                        DecodeError::CountMismatch {
                                            offset: p as usize,
                                            expected: total as u32,
                                            actual: sum as u32,
                                        },
                                    )
                                }
                            },
                        },
                    },
                },
            },
        },
    }
}

/// Parse one record: timestamp(8), priority(1), GPS element(15), IO element
/// block (variable).
pub open spec fn parse_record(b: Seq<u8>, p: int, w: int) -> Result<(RecordView, int), DecodeError> {
    match r_u64(b, p) {
        Err(e) => Err(e),
        Ok((ts, p1)) => match r_u8(b, p1) {
            Err(e) => Err(e),
            Ok((prio, p2)) => match parse_gps(b, p2) {
                Err(e) => Err(e),
                Ok((gps, p3)) => match parse_io_block(b, p3, w) {
                    Err(e) => Err(e),
                    Ok((io, p4)) => Ok(
                        (RecordView { timestamp: ts, priority: prio, gps: gps, io: io }, p4),
                    ),
                },
            },
        },
    }
}

/// Parse `n` consecutive records.
pub open spec fn parse_records(b: Seq<u8>, p: int, n: nat, w: int) -> Result<
    (Seq<RecordView>, int),
    DecodeError,
>
    decreases n,
{
    if n == 0 {
        Ok((Seq::empty(), p))
    } else {
        match parse_record(b, p, w) {
            Err(e) => Err(e),
            Ok((r, p1)) => match parse_records(b, p1, (n - 1) as nat, w) {
                Err(e) => Err(e),
                Ok((rest, end)) => Ok((seq![r] + rest, end)),
            },
        }
    }
}

/// The codec selected by a codec id byte, if recognised.
pub open spec fn codec_of(id: u8) -> Option<Codec> {
    if id == 8 {
        Some(Codec::Codec8)
    } else if id == 142 {
        Some(Codec::Codec8Extended)
    } else {
        None
    }
}

/// Parse one whole frame: zero preamble(4), declared payload length(4) which
/// must not exceed the bytes remaining after it, codec id(1), record
/// count(1), that many records, and a trailing echo of the record count.
/// Bytes after the trailing count are not examined.
pub open spec fn parse_frame(b: Seq<u8>) -> Result<FrameView, DecodeError> {
    match r_u32(b, 0) {
        Err(e) => Err(e),
        Ok((preamble, p1)) => if preamble != 0 {
            Err(DecodeError::BadPreamble { offset: 0 })
        } else {
            match r_u32(b, p1) {
                Err(e) => Err(e),
                Ok((length, p2)) => if b.len() - 8 < length {
                    Err(
                        DecodeError::Truncated {
                            offset: 8,
                            needed: length as usize,
                            available: (b.len() - 8) as usize,
                        },
                    )
                } else {
                    match r_u8(b, p2) {
                        Err(e) => Err(e),
                        Ok((id, p3)) => match codec_of(id) {
                            None => Err(DecodeError::UnsupportedCodec { offset: 8, id: id }),
                            Some(codec) => match r_u8(b, p3) {
                                Err(e) => Err(e),
                                Ok((n, p4)) => match parse_records(
                                    b,
                                    p4,
                                    n as nat,
                                    codec.spec_id_width(),
                                ) {
                                    Err(e) => Err(e),
                                    Ok((records, p5)) => match r_u8(b, p5) {
                                        Err(e) => Err(e),
                                        Ok((trailing, p6)) => if trailing != n {
                                            Err(
                                                DecodeError::RecordCountMismatch {
                                                    offset: p5 as usize,
                                                    declared: n,
                                                    trailing: trailing,
                                                },
                                            )
                                        } else {
                                            Ok(FrameView { codec: codec, records: records })
                                        },
                                    },
                                },
                            },
                        },
                    }
                },
            }
        },
    }
}

/// Parsing `n` pairs yields exactly `n` elements.
pub proof fn lemma_parse_pairs_len(b: Seq<u8>, p: int, n: nat, w: int, vw: int)
    ensures
        parse_pairs(b, p, n, w, vw) matches Ok((els, end)) ==> els.len() == n && p <= end,
    decreases n,
{
    if n > 0 {
        if let Ok((id, p1)) = r_io_field(b, p, w) {
            if let Ok((v, p2)) = r_io_value(b, p1, vw) {
                lemma_parse_pairs_len(b, p2, (n - 1) as nat, w, vw);
            }
        }
    }
}

/// Parsing `n` records yields exactly `n` records, at a position no earlier
/// than where parsing began.
pub proof fn lemma_parse_records_len(b: Seq<u8>, p: int, n: nat, w: int)
    ensures
        parse_records(b, p, n, w) matches Ok((rs, end)) ==> rs.len() == n && p <= end,
    decreases n,
{
    if n > 0 {
        if let Ok((r, p1)) = parse_record(b, p, w) {
            lemma_parse_record_advances(b, p, w);
            lemma_parse_records_len(b, p1, (n - 1) as nat, w);
        }
    }
}

/// A successfully parsed record ends at or after its start.
pub proof fn lemma_parse_record_advances(b: Seq<u8>, p: int, w: int)
    ensures
        parse_record(b, p, w) matches Ok((r, end)) ==> p <= end,
{
    if let Ok((ts, p1)) = r_u64(b, p) {
        if let Ok((prio, p2)) = r_u8(b, p1) {
            if let Ok((gps, p3)) = parse_gps(b, p2) {
                if let Ok((io, p4)) = parse_io_block(b, p3, w) {
                    lemma_parse_io_block_advances(b, p3, w);
                }
            }
        }
    }
}

/// A successfully parsed IO block ends at or after its start.
pub proof fn lemma_parse_io_block_advances(b: Seq<u8>, p: int, w: int)
    ensures
        parse_io_block(b, p, w) matches Ok((io, end)) ==> p <= end,
{
    if let Ok((event, p1)) = r_io_field(b, p, w) {
        if let Ok((total, p2)) = r_io_field(b, p1, w) {
            if let Ok((ones, p3)) = parse_bucket(b, p2, w, 1) {
                lemma_parse_bucket_advances(b, p2, w, 1);
                if let Ok((twos, p4)) = parse_bucket(b, p3, w, 2) {
                    lemma_parse_bucket_advances(b, p3, w, 2);
                    if let Ok((fours, p5)) = parse_bucket(b, p4, w, 4) {
                        lemma_parse_bucket_advances(b, p4, w, 4);
                        if let Ok((eights, p6)) = parse_bucket(b, p5, w, 8) {
                            lemma_parse_bucket_advances(b, p5, w, 8);
                        }
                    }
                }
            }
        }
    }
}

/// A successfully parsed bucket ends at or after its start.
pub proof fn lemma_parse_bucket_advances(b: Seq<u8>, p: int, w: int, vw: int)
    ensures
        parse_bucket(b, p, w, vw) matches Ok((els, end)) ==> p <= end,
{
    if let Ok((count, p1)) = r_io_field(b, p, w) {
        lemma_parse_pairs_len(b, p1, count as nat, w, vw);
    }
}

} // verus!
