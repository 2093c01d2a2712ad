use vstd::prelude::*;
use vstd::bytes::{spec_u32_from_le_bytes, spec_u32_to_le_bytes, u32_to_le_bytes};

verus! {

/// Size in bytes of one stored position record.
pub const POSITION_SIZE: usize = 16;

/// A compact position sample, as stored in the queue files (16 bytes).
#[derive(Debug, Clone, Copy)]
pub struct GPSPositionRaw {
    /// Unix timestamp, seconds since 1970-01-01 UTC
    pub timestamp: u32,
    /// Latitude x 1e7 (ex: 30.1234567° -> 301234567)
    pub lat: i32,
    /// Longitude x 1e7
    pub lng: i32,
    /// Speed in km/h (0-255)
    pub speed: u8,
    /// 0-360 -> 0-255
    pub course: u8,
    /// 0.1-100+ -> 0-255 Horizontal Dilution of Precision
    pub hdop: u8,
    /// Number of satellites used in the fix
    pub sats: u8,
}

/// The on-flash record of a position: the fields in declaration order,
/// packed, each integer in little-endian byte order.
pub open spec fn record_bytes(p: GPSPositionRaw) -> Seq<u8> {
    spec_u32_to_le_bytes(p.timestamp) + spec_u32_to_le_bytes(p.lat as u32)
        + spec_u32_to_le_bytes(p.lng as u32) + seq![p.speed, p.course, p.hdop, p.sats]
}

/// Every record is exactly `POSITION_SIZE` bytes long.
pub proof fn lemma_record_len(p: GPSPositionRaw)
    ensures
        record_bytes(p).len() == POSITION_SIZE,
{
    vstd::bytes::lemma_auto_spec_u32_to_from_le_bytes();
}

/// Reading a record back gives the position: bytes 0..4, 4..8 and 8..12 are
/// the little-endian timestamp, latitude and longitude (the signed values in
/// two's complement), and bytes 12..16 are speed, course, HDOP and satellites.
pub proof fn lemma_record_decodes(p: GPSPositionRaw)
    ensures
        record_bytes(p).len() == 16,
        spec_u32_from_le_bytes(record_bytes(p).subrange(0, 4)) == p.timestamp,
        spec_u32_from_le_bytes(record_bytes(p).subrange(4, 8)) as i32 == p.lat,
        spec_u32_from_le_bytes(record_bytes(p).subrange(8, 12)) as i32 == p.lng,
        record_bytes(p)[12] == p.speed,
        record_bytes(p)[13] == p.course,
        record_bytes(p)[14] == p.hdop,
        record_bytes(p)[15] == p.sats,
{
    vstd::bytes::lemma_auto_spec_u32_to_from_le_bytes();
    let t = spec_u32_to_le_bytes(p.timestamp);
    let a = spec_u32_to_le_bytes(p.lat as u32);
    let g = spec_u32_to_le_bytes(p.lng as u32);
    let r = record_bytes(p);
    assert(r.subrange(0, 4) =~= t);
    assert(r.subrange(4, 8) =~= a);
    assert(r.subrange(8, 12) =~= g);
    let lat = p.lat;
    let lng = p.lng;
    assert((lat as u32) as i32 == lat) by (bit_vector);
    assert((lng as u32) as i32 == lng) by (bit_vector);
}

/// Distinct positions have distinct records.
pub proof fn lemma_record_injective(p: GPSPositionRaw, q: GPSPositionRaw)
    requires
        record_bytes(p) == record_bytes(q),
    ensures
        p == q,
{
    lemma_record_decodes(p);
    lemma_record_decodes(q);
}

impl GPSPositionRaw {
    /// Serializes the position into its packed 16-byte record.
    pub fn to_bytes(&self) -> (bytes: Vec<u8>)
        ensures
            bytes@ == record_bytes(*self),
            bytes@.len() == POSITION_SIZE,
            spec_u32_from_le_bytes(bytes@.subrange(0, 4)) == self.timestamp,
            spec_u32_from_le_bytes(bytes@.subrange(4, 8)) as i32 == self.lat,
            spec_u32_from_le_bytes(bytes@.subrange(8, 12)) as i32 == self.lng,
            bytes@[12] == self.speed,
            bytes@[13] == self.course,
            bytes@[14] == self.hdop,
            bytes@[15] == self.sats,
    {
        proof {
            lemma_record_len(*self);
        }
        let mut bytes = u32_to_le_bytes(self.timestamp);
        let mut lat = u32_to_le_bytes(self.lat as u32);
        let mut lng = u32_to_le_bytes(self.lng as u32);
        bytes.append(&mut lat);
        bytes.append(&mut lng);
        bytes.push(self.speed);
        bytes.push(self.course);
        bytes.push(self.hdop);
        bytes.push(self.sats);
        proof {
            lemma_record_decodes(*self);
            assert(bytes@ =~= record_bytes(*self));
        }
        bytes
    }
}

} // verus!
