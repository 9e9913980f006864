//! The decoded measurement record and its payload layout.

use vstd::prelude::*;

verus! {

/// Number of payload bytes in a frame.
pub const PAYLOAD_LEN: usize = 26;

/// The unsigned 16-bit value whose big-endian encoding is `hi`, `lo`.
pub open spec fn be16(hi: u8, lo: u8) -> u16 {
    (hi as int * 256 + lo as int) as u16
}

/// The big-endian 16-bit field that starts at `offset` in `bytes`.
pub open spec fn field_at(bytes: Seq<u8>, offset: int) -> u16
    recommends
        0 <= offset,
        offset + 1 < bytes.len(),
{
    be16(bytes[offset], bytes[offset + 1])
}

/// Reads two bytes as a big-endian unsigned 16-bit value.
pub fn read_be16(hi: u8, lo: u8) -> (value: u16)
    ensures
        value == be16(hi, lo),
{
    (hi as u16) * 256 + (lo as u16)
}

/// Mass concentration in µg/m³ at three particle size thresholds.
#[derive(Debug, Clone, Copy, PartialEq, Eq)]
pub struct Concentrations {
    pub pm1p0: u16,
    pub pm2p5: u16,
    pub pm10p0: u16,
}

/// Particle counts per 0.1 l of air at six size thresholds.
#[derive(Debug, Clone, Copy, PartialEq, Eq)]
pub struct Absolutes {
    pub pm0p3: u16,
    pub pm0p5: u16,
    pub pm1p0: u16,
    pub pm2p5: u16,
    pub pm5p0: u16,
    pub pm10p0: u16,
}

/// One decoded frame: standard and atmospheric concentrations, and counts.
#[derive(Debug, Clone, Copy, PartialEq, Eq)]
pub struct Measurement {
    pub ug_per_m3: Concentrations,
    pub ug_per_m3_atmospheric: Concentrations,
    pub per_0p1l: Absolutes,
}

impl Measurement {
    /// The measurement that a payload encodes: twelve big-endian fields at
    /// the even offsets 0 to 22. The bytes at offsets 24 and 25 are reserved
    /// and take no part.
    pub open spec fn parsed(payload: Seq<u8>) -> Measurement
        recommends
            payload.len() == PAYLOAD_LEN,
    {
        Measurement {
            ug_per_m3: Concentrations {
                pm1p0: field_at(payload, 0),
                pm2p5: field_at(payload, 2),
                pm10p0: field_at(payload, 4),
            },
            ug_per_m3_atmospheric: Concentrations {
                pm1p0: field_at(payload, 6),
                pm2p5: field_at(payload, 8),
                pm10p0: field_at(payload, 10),
            },
            per_0p1l: Absolutes {
                pm0p3: field_at(payload, 12),
                pm0p5: field_at(payload, 14),
                pm1p0: field_at(payload, 16),
                pm2p5: field_at(payload, 18),
                pm5p0: field_at(payload, 20),
                pm10p0: field_at(payload, 22),
            },
        }
    }

    /// Decodes a payload. Every payload decodes; nothing is validated here.
    pub fn parse(data: [u8; 26]) -> (measurement: Self)
        ensures
            measurement == Self::parsed(data@),
    {
        Measurement {
            ug_per_m3: Concentrations {
                pm1p0: read_be16(data[0], data[1]),
                pm2p5: read_be16(data[2], data[3]),
                pm10p0: read_be16(data[4], data[5]),
            },
            ug_per_m3_atmospheric: Concentrations {
                pm1p0: read_be16(data[6], data[7]),
                pm2p5: read_be16(data[8], data[9]),
                pm10p0: read_be16(data[10], data[11]),
            },
            per_0p1l: Absolutes {
                pm0p3: read_be16(data[12], data[13]),
                pm0p5: read_be16(data[14], data[15]),
                pm1p0: read_be16(data[16], data[17]),
                pm2p5: read_be16(data[18], data[19]),
                pm5p0: read_be16(data[20], data[21]),
                pm10p0: read_be16(data[22], data[23]),
            },
        }
    }
}

} // verus!
