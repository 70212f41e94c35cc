//! Target records and the decoding of a frame's payload.
use vstd::prelude::*;

verus! {

/// Width in bytes of one target record inside a payload.
pub const RECORD_SIZE: usize = 5;

/// Bias of the angle byte: the stored byte is the angle plus this value.
pub const ANGLE_BIAS: i16 = 128;

/// Which way a detected target moves relative to the sensor.
#[derive(Debug, Clone, Copy, PartialEq, Eq, Structural)]
pub enum Direction {
    Approaching,
    Receding,
}

/// One detected target, as reported in a frame.
#[derive(Debug, Clone, Copy, PartialEq, Eq, Structural)]
pub struct TargetData {
    pub angle: i8,
    pub distance: u8,
    pub direction: Direction,
    pub speed: u8,
    pub snr: u8,
}

/// Why a payload was rejected. A rejected payload yields no records at all.
#[derive(Debug, Clone, Copy, PartialEq, Eq, Structural)]
pub enum FrameError {
    /// Fewer than the two leading bytes (target count and status).
    TooShort,
    /// The bytes after the two leading ones are not a whole number of records.
    Misaligned,
    /// A record's direction byte is neither 0 nor 1.
    InvalidDirection,
    /// The number of records differs from the declared target count.
    CountMismatch,
}

/// The direction byte of the wire format: 1 approaching, 0 receding.
pub open spec fn direction_code(d: Direction) -> u8 {
    match d {
        Direction::Approaching => 1,
        Direction::Receding => 0,
    }
}

/// Number of records a payload of this length would hold.
pub open spec fn record_count(payload: Seq<u8>) -> int {
    (payload.len() - 2) / RECORD_SIZE as int
}

/// Offset in the payload of byte `j` of record `k`.
pub open spec fn field_at(k: int, j: int) -> int {
    2 + RECORD_SIZE as int * k + j
}

/// Whether record `k` of the payload has a direction byte other than 0 or 1.
pub open spec fn bad_direction(payload: Seq<u8>, k: int) -> bool {
    payload[field_at(k, 2)] > 1
}

/// Record `k` of a payload whose direction bytes are all valid.
pub open spec fn record_spec(payload: Seq<u8>, k: int) -> TargetData {
    TargetData {
        angle: (payload[field_at(k, 0)] - ANGLE_BIAS) as i8,
        distance: payload[field_at(k, 1)],
        direction: if payload[field_at(k, 2)] == 0 {
            Direction::Receding
        } else {
            Direction::Approaching
        },
        speed: payload[field_at(k, 3)],
        snr: payload[field_at(k, 4)],
    }
}

/// What a payload decodes to: the first failing check, in the order count and
/// status bytes present, record alignment, direction bytes, declared count.
pub open spec fn decode_spec(payload: Seq<u8>) -> Result<Seq<TargetData>, FrameError> {
    if payload.len() < 2 {
        Err(FrameError::TooShort)
    } else if (payload.len() - 2) % RECORD_SIZE as int != 0 {
        Err(FrameError::Misaligned)
    } else if exists|k: int| 0 <= k < record_count(payload) && #[trigger] bad_direction(payload, k) {
        Err(FrameError::InvalidDirection)
    } else if record_count(payload) != payload[0] as int {
        Err(FrameError::CountMismatch)
    } else {
        Ok(Seq::new(record_count(payload) as nat, |k: int| record_spec(payload, k)))
    }
}

/// Decodes a frame's payload: a target count, a status byte, then that many
/// five-byte records (angle, distance, direction, speed, signal-to-noise).
pub fn parse_frame(frame: &[u8]) -> (r: Result<Vec<TargetData>, FrameError>)
    ensures
        match r {
            Ok(v) => decode_spec(frame@) == Ok::<Seq<TargetData>, FrameError>(v@),
            Err(e) => decode_spec(frame@) == Err::<Seq<TargetData>, FrameError>(e),
        },
{
    let len = frame.len();
    if len < 2 {
        return Err(FrameError::TooShort);
    }
    let target_count = frame[0] as usize;
    if (len - 2) % RECORD_SIZE != 0 {
        return Err(FrameError::Misaligned);
    }
    let n: usize = (len - 2) / RECORD_SIZE;
    let mut targets: Vec<TargetData> = Vec::new();
    let mut k: usize = 0;
    while k < n
        invariant
            len == frame@.len(),
            len >= 2,
            (len - 2) % RECORD_SIZE as int == 0,
            n == record_count(frame@),
            k <= n,
            targets@.len() == k,
            forall|i: int| 0 <= i < k ==> !bad_direction(frame@, i),
            forall|i: int| 0 <= i < k ==> targets@[i] == record_spec(frame@, i),
        decreases n - k,
    {
        assert(field_at(k as int, 4) < len) by (nonlinear_arith)
            requires
                k < n,
                n == (len - 2) / 5,
                field_at(k as int, 4) == 2 + 5 * k + 4,
        ;
        let base: usize = 2 + RECORD_SIZE * k;
        let angle_byte = frame[base];
        let distance = frame[base + 1];
        let direction_byte = frame[base + 2];
        let speed = frame[base + 3];
        let snr = frame[base + 4];
        let direction = if direction_byte == 0 {
            Direction::Receding
        } else if direction_byte == 1 {
            Direction::Approaching
        } else {
            assert(bad_direction(frame@, k as int));
            return Err(FrameError::InvalidDirection);
        };
        let angle = (angle_byte as i16 - ANGLE_BIAS) as i8;
        targets.push(TargetData { angle, distance, direction, speed, snr });
        k = k + 1;
    }
    if n != target_count {
        return Err(FrameError::CountMismatch);
    }
    assert(targets@ =~= Seq::new(n as nat, |i: int| record_spec(frame@, i)));
    Ok(targets)
}

} // verus!
