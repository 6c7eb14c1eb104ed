use objstream::block::{create_reader, create_writer};
use objstream::pair::Pair;
use objstream::envelope::{read_obj, write_obj};
use objstream::tag::{TagRead, TagWrite, Value};
use objstream::{Deserialize, Error, Read, ReadPrimitive, Serialize, Write, WritePrimitive};

#[derive(Debug, Clone, Copy, PartialEq, Eq, Hash)]
struct DataVer0 {
    a: u32,
    b: u16,
}

#[derive(Debug, Clone, Copy, PartialEq, Eq, Hash)]
struct DataVer1 {
    a: u32,
    b: u16,
    c: u8,
}

impl Serialize for DataVer0 {
    fn version() -> u16 {
        0
    }
    fn serialize<W: Write>(&self, write: &mut W) -> Result<(), Error> {
        write.u32(self.a)?;
        write.u16(self.b)?;
        Ok(())
    }
}

impl Serialize for DataVer1 {
    fn version() -> u16 {
        1
    }
    fn serialize<W: Write>(&self, write: &mut W) -> Result<(), Error> {
        write.u32(self.a)?;
        write.u16(self.b)?;
        write.u8(self.c)?;
        Ok(())
    }
}

impl Deserialize for DataVer1 {
    fn deserialize<R: Read>(read: &mut R, version: u16) -> Result<Self, Error> {
        match version {
            0 => Ok(DataVer1 {
                a: read.u32()?,
                b: read.u16()?,
                c: 0,
            }),
            1 => Ok(DataVer1 {
                a: read.u32()?,
                b: read.u16()?,
                c: read.u8()?,
            }),
            _ => Err(Error::NotImplemented),
        }
    }
}

#[test]
fn it_works() {
    let x1 = DataVer0 { a: 123, b: 456 };
    let x2 = DataVer1 {
        a: 321,
        b: 654,
        c: 111,
    };
    {
        let mut w = create_writer(Vec::new());
        write_obj(&mut w, &x1).unwrap();
        let mut r = create_reader(w.into_inner());
        let y: DataVer1 = read_obj(&mut r).unwrap();
        let y = DataVer0 { a: y.a, b: y.b };
        assert_eq!(x1, y);
    }
    {
        let mut w = create_writer(Vec::new());
        write_obj(&mut w, &x2).unwrap();
        let mut r = create_reader(w.into_inner());
        let y: DataVer1 = read_obj(&mut r).unwrap();
        assert_eq!(x2, y);
    }
}

#[test]
fn u32_wire_bytes() {
    // Tag byte 4, then the little-endian payload.
    let mut w = create_writer(Vec::new());
    w.u32(0x01020304).unwrap();
    let bytes = w.into_inner();
    assert_eq!(bytes, vec![4u8, 0x04, 0x03, 0x02, 0x01]);
    let mut r = create_reader(bytes);
    assert_eq!(r.u32().unwrap(), 0x01020304);
}

#[test]
fn u16_wire_bytes() {
    let mut w = create_writer(Vec::new());
    w.u16(0x1234).unwrap();
    assert_eq!(w.into_inner(), vec![3u8, 0x34, 0x12]);
}

#[test]
fn primitive_round_trips() {
    let mut w = create_writer(Vec::new());
    w.u8(0xAB).unwrap();
    w.u16(0xCDEF).unwrap();
    w.u32(0xDEADBEEF).unwrap();
    w.u128(0x0102030405060708090A0B0C0D0E0F10).unwrap();
    w.begin().unwrap();
    w.end().unwrap();
    let mut r = create_reader(w.into_inner());
    assert_eq!(r.u8().unwrap(), 0xAB);
    assert_eq!(r.u16().unwrap(), 0xCDEF);
    assert_eq!(r.u32().unwrap(), 0xDEADBEEF);
    assert_eq!(r.u128().unwrap(), 0x0102030405060708090A0B0C0D0E0F10);
    assert_eq!(r.primitive().unwrap(), Value::Begin);
    assert_eq!(r.primitive().unwrap(), Value::End);
}

#[test]
fn tokens_round_trip_via_primitive() {
    let vals = [
        Value::Begin,
        Value::U8(7),
        Value::U16(65535),
        Value::U32(0),
        Value::U128(u128::MAX),
        Value::End,
    ];
    let mut w = create_writer(Vec::new());
    for v in vals {
        w.primitive(v).unwrap();
    }
    let mut r = create_reader(w.into_inner());
    for v in vals {
        assert_eq!(r.primitive().unwrap(), v);
    }
}

#[test]
fn forward_compatible_skip() {
    // A newer writer appends fields this reader does not know, flat and
    // nested; skip-to-end discards them all.
    let mut w = create_writer(Vec::new());
    w.begin().unwrap();
    w.u16(1).unwrap();
    w.u32(321).unwrap();
    w.u16(654).unwrap();
    w.u8(111).unwrap();
    // Unknown trailing fields of a future version.
    w.u128(0xFFEE).unwrap();
    w.begin().unwrap();
    w.u8(9).unwrap();
    w.begin().unwrap();
    w.end().unwrap();
    w.end().unwrap();
    w.end().unwrap();
    let mut r = create_reader(w.into_inner());
    let y: DataVer1 = read_obj(&mut r).unwrap();
    assert_eq!(
        y,
        DataVer1 {
            a: 321,
            b: 654,
            c: 111
        }
    );
}

#[test]
fn backward_compatible_defaults() {
    // A version-0 stream read by the version-1 decoder: old fields from the
    // wire, the new field at its default.
    let x1 = DataVer0 { a: 123, b: 456 };
    let mut w = create_writer(Vec::new());
    write_obj(&mut w, &x1).unwrap();
    let mut r = create_reader(w.into_inner());
    let y: DataVer1 = read_obj(&mut r).unwrap();
    assert_eq!(y, DataVer1 { a: 123, b: 456, c: 0 });
}

#[test]
fn tag_mismatch_is_detected() {
    // A u16 token where a u8 is demanded.
    let mut w = create_writer(Vec::new());
    w.u16(7).unwrap();
    let mut r = create_reader(w.into_inner());
    assert_eq!(r.u8().unwrap_err(), Error::TagMismatch);
}

#[test]
fn tag_mismatch_in_object_body() {
    // The writer put a u16 where the version-1 decoder reads a u32: no
    // partial value comes back.
    let mut w = create_writer(Vec::new());
    w.begin().unwrap();
    w.u16(1).unwrap();
    w.u16(321).unwrap();
    w.end().unwrap();
    let mut r = create_reader(w.into_inner());
    let y: Result<DataVer1, Error> = read_obj(&mut r);
    assert_eq!(y.unwrap_err(), Error::TagMismatch);
}

#[test]
fn illegal_tag_byte() {
    let mut r = create_reader(vec![9u8, 0, 0]);
    assert_eq!(r.u8().unwrap_err(), Error::TagMismatch);
    let mut r2 = create_reader(vec![9u8, 0, 0]);
    assert_eq!(r2.primitive().unwrap_err(), Error::TagMismatch);
}

#[test]
fn short_reads_are_io_errors() {
    // Payload cut short.
    let mut r = create_reader(vec![4u8, 1, 2]);
    assert_eq!(r.u32().unwrap_err(), Error::IoError);
    // Nothing at all.
    let mut r2 = create_reader(Vec::new());
    assert_eq!(r2.u8().unwrap_err(), Error::IoError);
    // Skip-to-end runs off the stream.
    let mut r3 = create_reader(vec![2u8, 5]);
    assert_eq!(r3.end().unwrap_err(), Error::IoError);
}

#[test]
fn string_slot_not_implemented() {
    let mut w = create_writer(Vec::new());
    assert_eq!(w.str("abc").unwrap_err(), Error::NotImplemented);
    let mut r = create_reader(Vec::new());
    assert_eq!(r.str().unwrap_err(), Error::NotImplemented);
}

#[test]
fn plain_writer_has_no_references() {
    let mut w = create_writer(Vec::new());
    assert_eq!(w.rc(0).unwrap_err(), Error::NotImplemented);
    let mut r = create_reader(vec![4u8, 0, 0, 0, 0]);
    assert_eq!(r.rc().unwrap_err(), Error::NotImplemented);
}

#[test]
fn unknown_version_is_rejected() {
    let mut w = create_writer(Vec::new());
    w.begin().unwrap();
    w.u16(9).unwrap();
    w.end().unwrap();
    let mut r = create_reader(w.into_inner());
    let y: Result<DataVer1, Error> = read_obj(&mut r);
    assert_eq!(y.unwrap_err(), Error::NotImplemented);
}

#[test]
fn pair_reference_codec() {
    let x = Pair { a: 7, b: 40000 };
    let mut w = create_writer(Vec::new());
    write_obj(&mut w, &x).unwrap();
    let mut r = create_reader(w.into_inner());
    let y: Pair = read_obj(&mut r).unwrap();
    assert_eq!(x, y);
}
