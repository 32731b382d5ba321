//! End-to-end checks of the codec: descriptor lookup, decoding, construction,
//! the two-phase encoder, and the round-trip and compatibility scenarios.

use protowire::decode::{Decoder, MAX_NESTING_DEPTH};
use protowire::descriptor::{DescriptorTable, FieldDescriptor, FieldKind, MsgDef, Multiplicity};
use protowire::encode::{encode, encoded_length};
use protowire::descriptor::MsgDefObj;
use protowire::err::Error;
use protowire::value::{FieldMap, MsgObj, Value};

// name tokens used by the test schema
const MSG_PAYMENT: u16 = 100;
const MSG_NESTED: u16 = 101;
const ENUM_NS_MESSAGE_TYPE: u16 = 7;
const F_AMOUNT: u16 = 1001;
const F_NOTE: u16 = 1002;

fn field(tag: u32, name: u16, kind: FieldKind, mult: Multiplicity) -> FieldDescriptor {
    FieldDescriptor { tag, name, kind, mult, experimental: false, msg_offset: None, enum_id: None }
}

/// A table with one message: `{1: varint "amount" (required), 2:
/// length-delimited "note" (optional)}`, registered under wire id 42.
fn payment_table() -> (DescriptorTable, u16) {
    let mut t = DescriptorTable::new();
    let def = MsgDef {
        name: MSG_PAYMENT,
        wire_id: Some(42),
        offset: 0,
        fields: vec![
            field(1, F_AMOUNT, FieldKind::Int, Multiplicity::Required),
            field(2, F_NOTE, FieldKind::Str, Multiplicity::Optional),
        ],
    };
    let off = t.add_message(def);
    t.add_wire_id(ENUM_NS_MESSAGE_TYPE, 42, off);
    (t, off)
}

fn decode(t: &DescriptorTable, off: u16, bytes: &[u8], allow: bool) -> Result<MsgObj, Error> {
    let d = t.get_msg(off);
    Decoder { enable_experimental: allow }.message_from_slice(t, bytes, d)
}

fn int_field(rec: &MsgObj, name: u16) -> i128 {
    match rec.get_field(name) {
        Some(Value::Int(i)) => *i,
        other => panic!("expected an integer field, got {:?}", other.is_some()),
    }
}

fn assert_absent(rec: &MsgObj, name: u16) {
    match rec.get_field(name) {
        Some(Value::Absent) => {},
        _ => panic!("expected the field to be absent"),
    }
}

#[test]
fn concrete_scenario_decodes_amount_150() {
    let (t, off) = payment_table();
    let rec = decode(&t, off, &[0x08, 0x96, 0x01], false).unwrap();
    assert_eq!(int_field(&rec, F_AMOUNT), 150);
    assert_absent(&rec, F_NOTE);
}

#[test]
fn concrete_scenario_encodes_to_three_bytes() {
    let (t, off) = payment_table();
    let mut values = FieldMap::with_capacity(1);
    values.insert(F_AMOUNT, Value::Int(150));
    let rec = Decoder { enable_experimental: true }
        .message_from_values(&t, values, t.get_msg(off))
        .unwrap();
    let n = encoded_length(&t, &rec).unwrap();
    assert_eq!(n, 3);
    let mut buf = vec![0u8; 3];
    let written = encode(&t, &rec, &mut buf).unwrap();
    assert_eq!(written, 3);
    assert_eq!(buf, vec![0x08, 0x96, 0x01]);
}

#[test]
fn round_trip_with_note() {
    let (t, off) = payment_table();
    let mut values = FieldMap::with_capacity(2);
    values.insert(F_AMOUNT, Value::Int(1234567));
    values.insert(F_NOTE, Value::Bytes(b"tea".to_vec()));
    let rec = Decoder { enable_experimental: true }
        .message_from_values(&t, values, t.get_msg(off))
        .unwrap();
    let n = encoded_length(&t, &rec).unwrap();
    let mut buf = vec![0u8; n];
    assert_eq!(encode(&t, &rec, &mut buf).unwrap(), n);
    let back = decode(&t, off, &buf, true).unwrap();
    assert_eq!(int_field(&back, F_AMOUNT), 1234567);
    match back.get_field(F_NOTE) {
        Some(Value::Bytes(b)) => assert_eq!(b, &b"tea".to_vec()),
        _ => panic!("note lost in the round trip"),
    }
}

#[test]
fn smaller_buffer_fails_with_buffer_too_small() {
    let (t, off) = payment_table();
    let mut values = FieldMap::with_capacity(1);
    values.insert(F_AMOUNT, Value::Int(150));
    let rec = Decoder { enable_experimental: true }
        .message_from_values(&t, values, t.get_msg(off))
        .unwrap();
    let mut buf = vec![0u8; 2];
    assert_eq!(encode(&t, &rec, &mut buf), Err(Error::BufferTooSmall));
    assert_eq!(buf, vec![0u8, 0u8]);
}

#[test]
fn unknown_tag_is_skipped() {
    let (t, off) = payment_table();
    // tag 3 (varint), value 7, prepended to a valid amount
    let rec = decode(&t, off, &[0x18, 0x07, 0x08, 0x96, 0x01], false).unwrap();
    assert_eq!(int_field(&rec, F_AMOUNT), 150);
    // tag 4 (length-delimited), two bytes, appended
    let rec2 = decode(&t, off, &[0x08, 0x96, 0x01, 0x22, 0x02, 0xAB, 0xCD], false).unwrap();
    assert_eq!(int_field(&rec2, F_AMOUNT), 150);
    // tag 5 fixed32 and tag 6 fixed64 are skipped whole
    let rec3 = decode(
        &t,
        off,
        &[0x2D, 1, 2, 3, 4, 0x31, 1, 2, 3, 4, 5, 6, 7, 8, 0x08, 0x96, 0x01],
        false,
    )
    .unwrap();
    assert_eq!(int_field(&rec3, F_AMOUNT), 150);
}

#[test]
fn wire_id_dispatch() {
    let (t, _off) = payment_table();
    let d = t.resolve_by_wire_id(ENUM_NS_MESSAGE_TYPE, 42).unwrap();
    assert_eq!(d.name, MSG_PAYMENT);
    assert_eq!(t.resolve_by_wire_id(ENUM_NS_MESSAGE_TYPE, 43).err(), Some(Error::NotFound));
    // same id under a different enum namespace is not registered
    assert_eq!(t.resolve_by_wire_id(ENUM_NS_MESSAGE_TYPE + 1, 42).err(), Some(Error::NotFound));
}

#[test]
fn resolve_by_name_finds_registered_messages() {
    let (t, _off) = payment_table();
    assert_eq!(t.resolve_by_name(MSG_PAYMENT).unwrap().name, MSG_PAYMENT);
    assert_eq!(t.resolve_by_name(9999).err(), Some(Error::NotFound));
    assert_eq!(t.name_of(0), Some(MSG_PAYMENT));
    assert_eq!(t.name_of(7), None);
}

/// A table with a repeated varint field (tag 1) beside the amount.
fn repeated_table() -> (DescriptorTable, u16) {
    let mut t = DescriptorTable::new();
    let def = MsgDef {
        name: MSG_PAYMENT,
        wire_id: None,
        offset: 0,
        fields: vec![field(1, F_AMOUNT, FieldKind::Int, Multiplicity::Repeated)],
    };
    let off = t.add_message(def);
    (t, off)
}

#[test]
fn packed_and_unpacked_decode_alike() {
    let (t, off) = repeated_table();
    // packed: tag 1 wire 2, run of three varints 3, 270, 86942
    let packed = [0x0A, 0x06, 0x03, 0x8E, 0x02, 0x9E, 0xA7, 0x05];
    // unpacked: tag 1 wire 0, three times
    let unpacked = [0x08, 0x03, 0x08, 0x8E, 0x02, 0x08, 0x9E, 0xA7, 0x05];
    let a = decode(&t, off, &packed, false).unwrap();
    let b = decode(&t, off, &unpacked, false).unwrap();
    for rec in [&a, &b] {
        match rec.get_field(F_AMOUNT) {
            Some(Value::List(items)) => {
                assert_eq!(items.len(), 3);
                for (item, expected) in items.iter().zip([3i128, 270, 86942]) {
                    match item {
                        Value::Int(i) => assert_eq!(*i, expected),
                        _ => panic!("expected integers"),
                    }
                }
            },
            _ => panic!("expected a repeated field"),
        }
    }
}

#[test]
fn repeated_field_missing_decodes_to_empty_list() {
    let (t, off) = repeated_table();
    let rec = decode(&t, off, &[], false).unwrap();
    match rec.get_field(F_AMOUNT) {
        Some(Value::List(items)) => assert_eq!(items.len(), 0),
        _ => panic!("expected an empty list"),
    }
}

/// A table whose message carries one experimental varint field (tag 1).
fn experimental_table() -> (DescriptorTable, u16) {
    let mut t = DescriptorTable::new();
    let def = MsgDef {
        name: MSG_PAYMENT,
        wire_id: None,
        offset: 0,
        fields: vec![FieldDescriptor {
            tag: 1,
            name: F_AMOUNT,
            kind: FieldKind::Int,
            mult: Multiplicity::Optional,
            experimental: true,
            msg_offset: None,
            enum_id: None,
        }],
    };
    let off = t.add_message(def);
    (t, off)
}

#[test]
fn experimental_field_gated_by_decoder_policy() {
    let (t, off) = experimental_table();
    let bytes = [0x08, 0x2A];
    let gated = decode(&t, off, &bytes, false).unwrap();
    assert_absent(&gated, F_AMOUNT);
    let open = decode(&t, off, &bytes, true).unwrap();
    assert_eq!(int_field(&open, F_AMOUNT), 42);
}

#[test]
fn truncated_and_malformed_varints_are_rejected() {
    let (t, off) = payment_table();
    // buffer ends inside the amount varint
    assert_eq!(decode(&t, off, &[0x08, 0x96], false).err(), Some(Error::TruncatedInput));
    // eleven continuation bytes overrun the 64-bit budget
    let mut bad = vec![0x08];
    bad.extend_from_slice(&[0x80; 10]);
    bad.push(0x01);
    assert_eq!(decode(&t, off, &bad, false).err(), Some(Error::MalformedVarint));
    // a 10-byte varint whose final group overflows 64 bits
    let mut over = vec![0x08];
    over.extend_from_slice(&[0xFF; 9]);
    over.push(0x02);
    assert_eq!(decode(&t, off, &over, false).err(), Some(Error::MalformedVarint));
    // the largest value still fits
    let mut max = vec![0x08];
    max.extend_from_slice(&[0xFF; 9]);
    max.push(0x01);
    let rec = decode(&t, off, &max, false).unwrap();
    assert_eq!(int_field(&rec, F_AMOUNT), u64::MAX as i128);
}

#[test]
fn wire_type_mismatch_is_a_hard_error() {
    let (t, off) = payment_table();
    // tag 1 declared varint, sent length-delimited
    assert_eq!(decode(&t, off, &[0x0A, 0x01, 0x07], false).err(), Some(Error::WireTypeMismatch));
    // an unknown tag with an invalid wire type (3) cannot be skipped
    assert_eq!(
        decode(&t, off, &[0x1B, 0x08, 0x96, 0x01], false).err(),
        Some(Error::WireTypeMismatch)
    );
}

#[test]
fn missing_required_field_is_rejected() {
    let (t, off) = payment_table();
    assert_eq!(decode(&t, off, &[], false).err(), Some(Error::MissingRequiredField));
    // construction from values misses it too
    let values = FieldMap::with_capacity(0);
    let r = Decoder { enable_experimental: true }.message_from_values(&t, values, t.get_msg(off));
    assert_eq!(r.err(), Some(Error::MissingRequiredField));
}

#[test]
fn construction_rejects_unknown_names_and_bad_types() {
    let (t, off) = payment_table();
    let mut unknown = FieldMap::with_capacity(2);
    unknown.insert(F_AMOUNT, Value::Int(1));
    unknown.insert(4242, Value::Int(5));
    let r = Decoder { enable_experimental: true }.message_from_values(&t, unknown, t.get_msg(off));
    assert_eq!(r.err(), Some(Error::UnknownFieldName));
    let mut bad = FieldMap::with_capacity(1);
    bad.insert(F_AMOUNT, Value::Bool(true));
    let r2 = Decoder { enable_experimental: true }.message_from_values(&t, bad, t.get_msg(off));
    assert_eq!(r2.err(), Some(Error::TypeMismatch));
    let mut negative = FieldMap::with_capacity(1);
    negative.insert(F_AMOUNT, Value::Int(-1));
    let r3 = Decoder { enable_experimental: true }.message_from_values(
        &t,
        negative,
        t.get_msg(off),
    );
    assert_eq!(r3.err(), Some(Error::TypeMismatch));
}

/// A table with a self-nesting message: `{1: varint "amount" (optional),
/// 2: nested (optional)}`.
fn nested_table() -> (DescriptorTable, u16) {
    let mut t = DescriptorTable::new();
    let def = MsgDef {
        name: MSG_NESTED,
        wire_id: None,
        offset: 0,
        fields: vec![
            field(1, F_AMOUNT, FieldKind::Int, Multiplicity::Optional),
            FieldDescriptor {
                tag: 2,
                name: F_NOTE,
                kind: FieldKind::Msg,
                mult: Multiplicity::Optional,
                experimental: false,
                msg_offset: Some(0),
                enum_id: None,
            },
        ],
    };
    let off = t.add_message(def);
    (t, off)
}

#[test]
fn nested_message_round_trip() {
    let (t, off) = nested_table();
    let dec = Decoder { enable_experimental: true };
    let mut inner_values = FieldMap::with_capacity(1);
    inner_values.insert(F_AMOUNT, Value::Int(7));
    let inner = dec.message_from_values(&t, inner_values, t.get_msg(off)).unwrap();
    let mut outer_values = FieldMap::with_capacity(2);
    outer_values.insert(F_AMOUNT, Value::Int(1));
    outer_values.insert(F_NOTE, Value::Msg(inner));
    let outer = dec.message_from_values(&t, outer_values, t.get_msg(off)).unwrap();
    let n = encoded_length(&t, &outer).unwrap();
    let mut buf = vec![0u8; n];
    assert_eq!(encode(&t, &outer, &mut buf).unwrap(), n);
    let back = decode(&t, off, &buf, true).unwrap();
    assert_eq!(int_field(&back, F_AMOUNT), 1);
    match back.get_field(F_NOTE) {
        Some(Value::Msg(m)) => assert_eq!(int_field(m, F_AMOUNT), 7),
        _ => panic!("nested message lost"),
    }
}

#[test]
fn nesting_past_the_limit_is_rejected() {
    let (t, off) = nested_table();
    // one message nested per layer: tag 2 wire 2, length of the remainder
    let mut bytes: Vec<u8> = Vec::new();
    for depth in 0..(MAX_NESTING_DEPTH + 1) {
        let inner_len = 2 * (MAX_NESTING_DEPTH - depth);
        bytes.push(0x12);
        bytes.push(inner_len as u8);
    }
    assert_eq!(decode(&t, off, &bytes, false).err(), Some(Error::NestingTooDeep));
    // one layer fewer decodes
    let mut ok_bytes: Vec<u8> = Vec::new();
    for depth in 0..MAX_NESTING_DEPTH {
        let inner_len = 2 * (MAX_NESTING_DEPTH - 1 - depth);
        ok_bytes.push(0x12);
        ok_bytes.push(inner_len as u8);
    }
    assert!(decode(&t, off, &ok_bytes, false).is_ok());
}

#[test]
fn record_host_interface_rejects_unknown_names() {
    let (t, off) = payment_table();
    let mut values = FieldMap::with_capacity(1);
    values.insert(F_AMOUNT, Value::Int(5));
    let mut rec = Decoder { enable_experimental: true }
        .message_from_values(&t, values, t.get_msg(off))
        .unwrap();
    assert!(rec.set_field(F_AMOUNT, Value::Int(9)).is_ok());
    assert_eq!(int_field(&rec, F_AMOUNT), 9);
    assert_eq!(rec.set_field(4242, Value::Int(1)), Err(Error::UnknownFieldName));
    assert!(rec.get_field(4242).is_none());
    assert_eq!(rec.msg_offset(), off);
    assert_eq!(rec.wire_id(), Some(42));
}

#[test]
fn encoded_length_rejects_foreign_records() {
    let (t, off) = payment_table();
    let mut values = FieldMap::with_capacity(1);
    values.insert(F_AMOUNT, Value::Int(5));
    let rec = Decoder { enable_experimental: true }
        .message_from_values(&t, values, t.get_msg(off))
        .unwrap();
    let empty = DescriptorTable::new();
    assert_eq!(encoded_length(&empty, &rec), Err(Error::NotFound));
    // a record mutated to the wrong type no longer encodes
    let mut bad = rec;
    bad.set_field(F_AMOUNT, Value::Bool(true)).unwrap();
    assert_eq!(encoded_length(&t, &bad), Err(Error::TypeMismatch));
}

#[test]
fn zigzag_encoding_round_trips_signed_fields() {
    let mut t = DescriptorTable::new();
    let def = MsgDef {
        name: MSG_PAYMENT,
        wire_id: None,
        offset: 0,
        fields: vec![field(1, F_AMOUNT, FieldKind::Sint, Multiplicity::Required)],
    };
    let off = t.add_message(def);
    let dec = Decoder { enable_experimental: true };
    for v in [0i128, -1, 1, -2, 2, i64::MIN as i128, i64::MAX as i128] {
        let mut values = FieldMap::with_capacity(1);
        values.insert(F_AMOUNT, Value::Int(v));
        let rec = dec.message_from_values(&t, values, t.get_msg(off)).unwrap();
        let n = encoded_length(&t, &rec).unwrap();
        let mut buf = vec![0u8; n];
        encode(&t, &rec, &mut buf).unwrap();
        let back = dec.message_from_slice(&t, &buf, t.get_msg(off)).unwrap();
        assert_eq!(int_field(&back, F_AMOUNT), v);
    }
    // zig-zag maps small magnitudes to short varints
    let mut values = FieldMap::with_capacity(1);
    values.insert(F_AMOUNT, Value::Int(-1));
    let rec = dec.message_from_values(&t, values, t.get_msg(off)).unwrap();
    assert_eq!(encoded_length(&t, &rec).unwrap(), 2);
}

#[test]
fn enum_fields_check_their_value_table() {
    let mut t = DescriptorTable::new();
    let enum_id = t.add_enum(vec![0, 2, 5]);
    let def = MsgDef {
        name: MSG_PAYMENT,
        wire_id: None,
        offset: 0,
        fields: vec![FieldDescriptor {
            tag: 1,
            name: F_AMOUNT,
            kind: FieldKind::Enum,
            mult: Multiplicity::Required,
            experimental: false,
            msg_offset: None,
            enum_id: Some(enum_id),
        }],
    };
    let off = t.add_message(def);
    let dec = Decoder { enable_experimental: true };
    let rec = dec.message_from_slice(&t, &[0x08, 0x05], t.get_msg(off)).unwrap();
    assert_eq!(int_field(&rec, F_AMOUNT), 5);
    assert_eq!(
        dec.message_from_slice(&t, &[0x08, 0x03], t.get_msg(off)).err(),
        Some(Error::TypeMismatch)
    );
}

#[test]
fn later_scalar_occurrences_override_earlier_ones() {
    let (t, off) = payment_table();
    let rec = decode(&t, off, &[0x08, 0x01, 0x08, 0x02], false).unwrap();
    assert_eq!(int_field(&rec, F_AMOUNT), 2);
}

#[test]
fn envelope_round_trip() {
    let mut buf = vec![0u8; 6];
    let end = protowire::envelope::write_envelope(&mut buf, 0, 42, 0x01020304);
    assert_eq!(end, 6);
    assert_eq!(buf, vec![42, 0, 0x04, 0x03, 0x02, 0x01]);
    let (id, len) = protowire::envelope::parse_envelope(&buf).unwrap();
    assert_eq!(id, 42);
    assert_eq!(len, 0x01020304);
    assert_eq!(
        protowire::envelope::parse_envelope(&buf[0..5]).err(),
        Some(Error::TruncatedInput)
    );
}

#[test]
fn varint_primitives_round_trip() {
    for v in [0u64, 1, 127, 128, 300, u32::MAX as u64, u64::MAX] {
        let len = protowire::wire::varint_len(v);
        let mut buf = vec![0u8; len];
        let end = protowire::wire::write_varint(&mut buf, 0, v);
        assert_eq!(end, len);
        let (back, consumed) = protowire::wire::read_varint(&buf, 0).unwrap();
        assert_eq!(back, v);
        assert_eq!(consumed, len);
    }
}

#[test]
fn fixed_width_primitives_round_trip() {
    let mut buf = vec![0u8; 12];
    protowire::wire::write_fixed32(&mut buf, 0, 0xA1B2C3D4);
    protowire::wire::write_fixed64(&mut buf, 4, 0x1122334455667788);
    assert_eq!(protowire::wire::read_fixed32(&buf, 0), 0xA1B2C3D4);
    assert_eq!(protowire::wire::read_fixed64(&buf, 4), 0x1122334455667788);
    assert_eq!(protowire::wire::read_u16_le(&buf, 0), 0xC3D4);
}

#[test]
fn map_access_mirrors_the_field_interface() {
    let (t, off) = payment_table();
    let mut values = FieldMap::with_capacity(1);
    values.insert(F_AMOUNT, Value::Int(3));
    let mut rec = Decoder { enable_experimental: true }
        .message_from_values(&t, values, t.get_msg(off))
        .unwrap();
    assert_eq!(rec.map().len(), 2);
    rec.map_mut().insert(F_AMOUNT, Value::Int(8));
    assert_eq!(int_field(&rec, F_AMOUNT), 8);
    assert!(rec.map().contains_key(F_NOTE));
    assert!(!rec.map().contains_key(4242));
}

#[test]
fn type_identity_is_descriptor_offset_equality() {
    let (t, off) = payment_table();
    let mut values = FieldMap::with_capacity(1);
    values.insert(F_AMOUNT, Value::Int(1));
    let rec = Decoder { enable_experimental: true }
        .message_from_values(&t, values, t.get_msg(off))
        .unwrap();
    let handle = MsgDefObj::alloc_def(t.get_msg(off).clone());
    assert!(handle.is_type_of(&rec));
    assert_eq!(handle.msg().name, MSG_PAYMENT);
    // a second message in the same table has another offset
    let mut t2 = t;
    let def2 = MsgDef {
        name: MSG_NESTED,
        wire_id: None,
        offset: 0,
        fields: vec![field(1, F_AMOUNT, FieldKind::Int, Multiplicity::Optional)],
    };
    let off2 = t2.add_message(def2);
    let other = Decoder { enable_experimental: true }
        .message_from_values(&t2, FieldMap::with_capacity(0), t2.get_msg(off2))
        .unwrap();
    assert!(!handle.is_type_of(&other));
}
