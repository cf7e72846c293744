use vstd::prelude::*;

verus! {

/// The wire-format variant. It selects the byte width of the IO element id
/// and per-bucket count fields inside each record.
#[derive(Copy, Clone, Debug, PartialEq, Eq, Structural)]
pub enum Codec {
    /// Codec 8: one-byte IO ids and per-bucket counts (wire id 8).
    Codec8,
    /// Codec 8 extended: two-byte IO ids and per-bucket counts (wire id 142).
    Codec8Extended,
}

impl Codec {
    /// Width in bytes of the IO id and count fields under this codec.
    pub open spec fn spec_id_width(self) -> int {
        match self {
            Codec::Codec8 => 1,
            Codec::Codec8Extended => 2,
        }
    }

    /// The codec id byte that selects this codec on the wire.
    pub open spec fn spec_wire_id(self) -> u8 {
        match self {
            Codec::Codec8 => 8,
            Codec::Codec8Extended => 142,
        }
    }

    /// Width in bytes of the IO id and count fields under this codec.
    pub fn id_width(self) -> (r: usize)
        ensures
            r == self.spec_id_width(),
    {
        match self {
            Codec::Codec8 => 1,
            Codec::Codec8Extended => 2,
        }
    }

    /// The codec id byte that selects this codec on the wire.
    pub fn wire_id(self) -> (r: u8)
        ensures
            r == self.spec_wire_id(),
    {
        match self {
            Codec::Codec8 => 8,
            Codec::Codec8Extended => 142,
        }
    }
}

/// A GPS fix as carried on the wire. No field is range-validated: out-of-range
/// values are legal wire values and pass through the decoder unchanged (a
/// device may report 0 satellites to mean "no fix").
#[derive(Copy, Clone, Debug, PartialEq, Eq, Structural)]
pub struct GpsFix {
    /// 32-bit signed-magnitude fixed point, unit 1e-7 degree, raw wire value.
    pub longitude: u32,
    /// Same encoding as `longitude`.
    pub latitude: u32,
    /// Meters.
    pub altitude: u16,
    /// Degrees.
    pub angle: u16,
    /// Number of visible satellites.
    pub satellites: u8,
    /// Km/h.
    pub speed: u16,
}

/// One (property id, value) telemetry reading. The value is stored as an
/// unsigned integer of the bucket's width (1, 2, 4 or 8 bytes); the id is an
/// 8- or 16-bit code whose meaning is device-specific and treated opaquely.
#[derive(Copy, Clone, Debug, PartialEq, Eq, Structural)]
pub struct IoElement {
    pub id: u16,
    pub value: u64,
}

/// The IO element block of one record: the event-triggering IO id and the
/// elements grouped by the byte width of their values. Duplicate ids across
/// buckets are preserved, not deduplicated.
#[derive(Clone, Debug)]
pub struct IoBlock {
    /// The id of the IO element that triggered this record; recorded but not
    /// otherwise interpreted.
    pub event_io_id: u16,
    /// Elements whose values are 1 byte wide.
    pub ones: Vec<IoElement>,
    /// Elements whose values are 2 bytes wide.
    pub twos: Vec<IoElement>,
    /// Elements whose values are 4 bytes wide.
    pub fours: Vec<IoElement>,
    /// Elements whose values are 8 bytes wide.
    pub eights: Vec<IoElement>,
}

/// Mathematical model of an `IoBlock`.
pub ghost struct IoBlockView {
    pub event_io_id: u16,
    pub ones: Seq<IoElement>,
    pub twos: Seq<IoElement>,
    pub fours: Seq<IoElement>,
    pub eights: Seq<IoElement>,
}

impl View for IoBlock {
    type V = IoBlockView;

    open spec fn view(&self) -> IoBlockView {
        IoBlockView {
            event_io_id: self.event_io_id,
            ones: self.ones@,
            twos: self.twos@,
            fours: self.fours@,
            eights: self.eights@,
        }
    }
}

impl IoBlockView {
    /// Total number of IO elements over all four buckets.
    pub open spec fn total_count(self) -> nat {
        self.ones.len() + self.twos.len() + self.fours.len() + self.eights.len()
    }

    /// All elements as one flat sequence, in bucket order, ascending width.
    pub open spec fn elements(self) -> Seq<IoElement> {
        self.ones + self.twos + self.fours + self.eights
    }
}

impl IoBlock {
    /// All elements as one flat sequence, in bucket order, ascending width.
    pub fn elements(&self) -> (r: Vec<IoElement>)
        ensures
            r@ == self@.elements(),
    {
        let mut r: Vec<IoElement> = Vec::new();
        let mut i: usize = 0;
        while i < self.ones.len()
            invariant
                i <= self.ones@.len(),
                r@ == self.ones@.take(i as int),
            decreases self.ones@.len() - i,
        {
            r.push(self.ones[i]);
            proof {
                assert(self.ones@.take(i + 1) =~= self.ones@.take(i as int).push(self.ones@[i as int]));
            }
            i = i + 1;
        }
        let mut j: usize = 0;
        while j < self.twos.len()
            invariant
                j <= self.twos@.len(),
                r@ == self.ones@ + self.twos@.take(j as int),
            decreases self.twos@.len() - j,
        {
            r.push(self.twos[j]);
            proof {
                assert(self.ones@ + self.twos@.take(j + 1) =~= (self.ones@
                    + self.twos@.take(j as int)).push(self.twos@[j as int]));
            }
            j = j + 1;
        }
        let mut k: usize = 0;
        while k < self.fours.len()
            invariant
                k <= self.fours@.len(),
                r@ == self.ones@ + self.twos@ + self.fours@.take(k as int),
            decreases self.fours@.len() - k,
        {
            r.push(self.fours[k]);
            proof {
                assert(self.ones@ + self.twos@ + self.fours@.take(k + 1) =~= (self.ones@
                    + self.twos@ + self.fours@.take(k as int)).push(self.fours@[k as int]));
            }
            k = k + 1;
        }
        let mut m: usize = 0;
        while m < self.eights.len()
            invariant
                m <= self.eights@.len(),
                r@ == self.ones@ + self.twos@ + self.fours@ + self.eights@.take(m as int),
            decreases self.eights@.len() - m,
        {
            r.push(self.eights[m]);
            proof {
                assert(self.ones@ + self.twos@ + self.fours@ + self.eights@.take(m + 1) =~= (
                self.ones@ + self.twos@ + self.fours@ + self.eights@.take(m as int)).push(
                    self.eights@[m as int],
                ));
            }
            m = m + 1;
        }
        proof {
            assert(self.ones@.take(self.ones@.len() as int) =~= self.ones@);
            assert(self.twos@.take(self.twos@.len() as int) =~= self.twos@);
            assert(self.fours@.take(self.fours@.len() as int) =~= self.fours@);
            assert(self.eights@.take(self.eights@.len() as int) =~= self.eights@);
        }
        r
    }
}

/// One timestamped AVL sample: when it was taken, how urgent it is, where the
/// device was, and what its sensors reported.
#[derive(Clone, Debug)]
pub struct AvlRecord {
    /// Milliseconds since the Unix epoch.
    pub timestamp: u64,
    /// 0 = low, 1 = high, 2 = panic; other values pass through unvalidated.
    pub priority: u8,
    pub gps: GpsFix,
    pub io: IoBlock,
}

/// Mathematical model of an `AvlRecord`.
pub ghost struct RecordView {
    pub timestamp: u64,
    pub priority: u8,
    pub gps: GpsFix,
    pub io: IoBlockView,
}

impl View for AvlRecord {
    type V = RecordView;

    open spec fn view(&self) -> RecordView {
        RecordView {
            timestamp: self.timestamp,
            priority: self.priority,
            gps: self.gps,
            io: self.io@,
        }
    }
}

/// One decoded frame: the codec it was transmitted under and its records in
/// wire order. A frame exists only as a complete, validated decode result:
/// the declared record count and the trailing echo both equal
/// `records.len()`, enforced during decoding.
#[derive(Clone, Debug)]
pub struct Frame {
    pub codec: Codec,
    pub records: Vec<AvlRecord>,
}

/// Mathematical model of a `Frame`.
pub ghost struct FrameView {
    pub codec: Codec,
    pub records: Seq<RecordView>,
}

impl View for Frame {
    type V = FrameView;

    open spec fn view(&self) -> FrameView {
        FrameView {
            codec: self.codec,
            records: Seq::new(self.records@.len(), |i: int| self.records@[i]@),
        }
    }
}

impl Frame {
    /// Number of records, which equals both the declared record count and the
    /// trailing echo of every successfully decoded frame.
    pub fn record_count(&self) -> (r: usize)
        ensures
            r == self@.records.len(),
    {
        self.records.len()
    }
}

} // verus!
