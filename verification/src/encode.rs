//! Two-phase encoder: an exact length pass, then a write pass that provably
//! emits the same bytes the length pass counted.

use vstd::prelude::*;
use crate::descriptor::{
    DescriptorTable, FieldDescriptor, FieldKind, MsgDef, MsgDefV, Multiplicity, TableV,
};
use crate::err::Error;
use crate::value::{
    fields_compat, lemma_list_view_index, lemma_list_view_len, lemma_msg_view_parts,
    lemma_pairs_view_index, lemma_pairs_view_len, list_compat, list_view, pairs_view, rec_compat,
    scalar_compat, slot_compat, MsgObj, RecV, ValV, Value,
};
use crate::wire::{vbytes, zigzag_enc, WireType};

verus! {

broadcast use vstd::std_specs::vec::axiom_vec_decreases_to_view, vstd::seq::axiom_seq_index_decreases;

/// Bytes of the tag key announcing field `tag` with wire shape `w`.
pub open spec fn key_bytes(tag: u32, w: WireType) -> Seq<u8> {
    vbytes((tag * 8 + w.num()) as nat)
}

/// Bytes of one present scalar value of a field: tag key, then payload.
pub open spec fn enc_scalar(v: ValV, f: FieldDescriptor, t: TableV) -> Seq<u8>
    decreases v, 0int,
{
    match f.kind {
        FieldKind::Int | FieldKind::Enum => key_bytes(f.tag, WireType::Varint) + vbytes(
            v->Int_0 as nat,
        ),
        FieldKind::Sint => key_bytes(f.tag, WireType::Varint) + vbytes(zigzag_enc(v->Int_0)),
        FieldKind::Bool => key_bytes(f.tag, WireType::Varint) + vbytes(
            if v->Bool_0 {
                1
            } else {
                0
            },
        ),
        FieldKind::Str | FieldKind::Bytes => key_bytes(f.tag, WireType::LenDelim) + vbytes(
            v->Bytes_0.len(),
        ) + v->Bytes_0,
        FieldKind::Msg => match v {
            ValV::Msg(r) => {
                let body = enc_msg(r, t.msgs[f.msg_offset->Some_0 as int], t);
                key_bytes(f.tag, WireType::LenDelim) + vbytes(body.len()) + body
            },
            _ => Seq::empty(),
        },
    }
}

/// Bytes of a repeated field's elements, one tagged entry per element, in
/// list order.
pub open spec fn enc_list(items: Seq<ValV>, f: FieldDescriptor, t: TableV) -> Seq<u8>
    decreases items, 0int,
{
    if items.len() == 0 {
        Seq::empty()
    } else {
        enc_list(items.drop_last(), f, t) + enc_scalar(items.last(), f, t)
    }
}

/// Bytes a field's stored slot contributes: nothing when absent, one entry
/// when present, one entry per element when repeated.
pub open spec fn enc_slot(v: ValV, f: FieldDescriptor, t: TableV) -> Seq<u8>
    decreases v, 1int,
{
    match f.mult {
        Multiplicity::Repeated => if v is List {
            enc_list(v->List_0, f, t)
        } else {
            Seq::empty()
        },
        _ => if v is Absent {
            Seq::empty()
        } else {
            enc_scalar(v, f, t)
        },
    }
}

/// Bytes of record entries against their fields, in declaration order.
pub open spec fn enc_fields(rf: Seq<(u16, ValV)>, df: Seq<FieldDescriptor>, t: TableV) -> Seq<u8>
    decreases rf, 0int,
{
    if rf.len() == 0 || df.len() == 0 {
        Seq::empty()
    } else {
        enc_fields(rf.drop_last(), df.drop_last(), t) + enc_slot(rf.last().1, df.last(), t)
    }
}

/// The canonical encoding of a record under its descriptor.
pub open spec fn enc_msg(r: RecV, d: MsgDefV, t: TableV) -> Seq<u8>
    decreases r, 0int,
{
    enc_fields(r.fields, d.fields, t)
}

/// Prefix decomposition of `enc_fields`, for walking front to back.
pub proof fn lemma_enc_fields_take(
    rf: Seq<(u16, ValV)>,
    df: Seq<FieldDescriptor>,
    t: TableV,
    i: int,
)
    requires
        rf.len() == df.len(),
        0 <= i < rf.len(),
    ensures
        enc_fields(rf.take(i + 1), df.take(i + 1), t) == enc_fields(rf.take(i), df.take(i), t)
            + enc_slot(rf[i].1, df[i], t),
{
    assert(rf.take(i + 1).drop_last() =~= rf.take(i));
    assert(df.take(i + 1).drop_last() =~= df.take(i));
    assert(rf.take(i + 1).last() == rf[i]);
    assert(df.take(i + 1).last() == df[i]);
}

/// Prefix decomposition of `enc_list`.
pub proof fn lemma_enc_list_take(items: Seq<ValV>, f: FieldDescriptor, t: TableV, i: int)
    requires
        0 <= i < items.len(),
    ensures
        enc_list(items.take(i + 1), f, t) == enc_list(items.take(i), f, t) + enc_scalar(
            items[i],
            f,
            t,
        ),
{
    assert(items.take(i + 1).drop_last() =~= items.take(i));
    assert(items.take(i + 1).last() == items[i]);
}

/// Adds `a + b` within the byte-count domain.
fn checked_add(a: usize, b: usize) -> (r: Option<usize>)
    ensures
        r matches Some(n) ==> n == a + b,
        r is None ==> a + b > usize::MAX,
{
    if a <= usize::MAX - b {
        Some(a + b)
    } else {
        None
    }
}

/// Encoded length of the tag key of `f` under wire shape `w`.
fn key_len(tag: u32, w: WireType) -> (l: usize)
    ensures
        l == key_bytes(tag, w).len(),
        1 <= l <= 10,
{
    crate::wire::varint_len((tag as u64) * 8 + w.as_num())
}

/// Length pass for one present scalar value.
fn len_scalar(table: &DescriptorTable, v: &Value, f: &FieldDescriptor) -> (r: Result<usize, Error>)
    requires
        table@.wf(),
        crate::descriptor::field_wf(*f, table@),
    ensures
        match r {
            Ok(n) => scalar_compat(v@, *f, table@) && n == enc_scalar(v@, *f, table@).len(),
            Err(e) => (e == Error::TypeMismatch && !scalar_compat(v@, *f, table@)) || (e
                == Error::LengthOverflow && (scalar_compat(v@, *f, table@) ==> enc_scalar(
                v@,
                *f,
                table@,
            ).len() > usize::MAX)),
        },
    decreases v, 0int,
{
    match f.kind {
        FieldKind::Int | FieldKind::Enum => {
            match v {
                Value::Int(i) => {
                    if *i < 0 || *i > u64::MAX as i128 {
                        return Err(Error::TypeMismatch);
                    }
                    let u = *i as u64;
                    if f.kind == FieldKind::Enum {
                        let enum_id = match f.enum_id {
                            Some(e) => e,
                            None => {
                                return Err(Error::TypeMismatch);
                            },
                        };
                        if !table.enum_allows(enum_id, u) {
                            return Err(Error::TypeMismatch);
                        }
                    }
                    let l = key_len(f.tag, WireType::Varint);
                    Ok(l + crate::wire::varint_len(u))
                },
                _ => Err(Error::TypeMismatch),
            }
        },
        FieldKind::Sint => {
            match v {
                Value::Int(i) => {
                    if *i < i64::MIN as i128 || *i > i64::MAX as i128 {
                        return Err(Error::TypeMismatch);
                    }
                    let u = crate::wire::zigzag_encode(*i as i64);
                    let l = key_len(f.tag, WireType::Varint);
                    Ok(l + crate::wire::varint_len(u))
                },
                _ => Err(Error::TypeMismatch),
            }
        },
        FieldKind::Bool => {
            match v {
                Value::Bool(b) => {
                    let l = key_len(f.tag, WireType::Varint);
                    let payload: u64 = if *b {
                        1
                    } else {
                        0
                    };
                    Ok(l + crate::wire::varint_len(payload))
                },
                _ => Err(Error::TypeMismatch),
            }
        },
        FieldKind::Str | FieldKind::Bytes => {
            match v {
                Value::Bytes(b) => {
                    let l = key_len(f.tag, WireType::LenDelim);
                    let ll = crate::wire::varint_len(b.len() as u64);
                    match checked_add(l + ll, b.len()) {
                        Some(n) => Ok(n),
                        None => Err(Error::LengthOverflow),
                    }
                },
                _ => Err(Error::TypeMismatch),
            }
        },
        FieldKind::Msg => {
            match v {
                Value::Msg(m) => {
                    proof {
                        lemma_msg_view_parts(*m);
                    }
                    let o = match f.msg_offset {
                        Some(o) => o,
                        None => {
                            return Err(Error::TypeMismatch);
                        },
                    };
                    if m.msg_offset != o {
                        return Err(Error::TypeMismatch);
                    }
                    let d = table.get_msg(o);
                    match len_msg(table, m, d) {
                        Ok(body) => {
                            let l = key_len(f.tag, WireType::LenDelim);
                            let ll = crate::wire::varint_len(body as u64);
                            match checked_add(l + ll, body) {
                                Some(n) => Ok(n),
                                None => Err(Error::LengthOverflow),
                            }
                        },
                        Err(e) => Err(e),
                    }
                },
                _ => Err(Error::TypeMismatch),
            }
        },
    }
}

/// Length pass for a repeated field's list.
fn len_list(table: &DescriptorTable, items: &Vec<Value>, f: &FieldDescriptor) -> (r: Result<
    usize,
    Error,
>)
    requires
        table@.wf(),
        crate::descriptor::field_wf(*f, table@),
    ensures
        match r {
            Ok(n) => list_compat(list_view(items@), *f, table@) && n == enc_list(
                list_view(items@),
                *f,
                table@,
            ).len(),
            Err(e) => (e == Error::TypeMismatch && !list_compat(list_view(items@), *f, table@))
                || (e == Error::LengthOverflow && (list_compat(list_view(items@), *f, table@)
                ==> enc_list(list_view(items@), *f, table@).len() > usize::MAX)),
        },
    decreases items, 0int,
{
    let ghost lv = list_view(items@);
    proof {
        lemma_list_view_len(items@);
    }
    let mut total: usize = 0;
    let mut i: usize = 0;
    while i < items.len()
        invariant
            table@.wf(),
            crate::descriptor::field_wf(*f, table@),
            lv == list_view(items@),
            lv.len() == items@.len(),
            i <= items@.len(),
            list_compat(lv.take(i as int), *f, table@),
            total == enc_list(lv.take(i as int), *f, table@).len(),
        decreases items@.len() - i,
    {
        proof {
            lemma_list_view_index(items@, i as int);
        }
        let n = match len_scalar(table, &items[i], f) {
            Ok(n) => n,
            Err(e) => {
                proof {
                    if e == Error::TypeMismatch {
                        lemma_list_compat_not(lv, *f, table@, i as int);
                    } else {
                        if list_compat(lv, *f, table@) {
                            crate::value::lemma_list_compat_index(lv, *f, table@);
                            lemma_enc_list_len_ge(lv, *f, table@, i as int);
                        }
                    }
                }
                return Err(e);
            },
        };
        let new_total = match checked_add(total, n) {
            Some(nt) => nt,
            None => {
                proof {
                    if list_compat(lv, *f, table@) {
                        crate::value::lemma_list_compat_index(lv, *f, table@);
                        lemma_enc_list_len_ge(lv, *f, table@, i as int);
                        lemma_enc_list_take(lv, *f, table@, i as int);
                    }
                }
                return Err(Error::LengthOverflow);
            },
        };
        proof {
            lemma_enc_list_take(lv, *f, table@, i as int);
            assert(list_compat(lv.take(i + 1), *f, table@)) by {
                assert(lv.take(i + 1).drop_last() =~= lv.take(i as int));
                assert(lv.take(i + 1).last() == lv[i as int]);
            }
        }
        total = new_total;
        i += 1;
    }
    proof {
        assert(lv.take(lv.len() as int) =~= lv);
    }
    Ok(total)
}

/// Whatever the bytes of the elements past `i` are, the whole list's
/// encoding is at least as long as the prefix through `i`.
proof fn lemma_enc_list_len_ge(items: Seq<ValV>, f: FieldDescriptor, t: TableV, i: int)
    requires
        0 <= i < items.len(),
    ensures
        enc_list(items, f, t).len() >= enc_list(items.take(i), f, t).len() + enc_scalar(
            items[i],
            f,
            t,
        ).len(),
    decreases items.len(),
{
    if i == items.len() - 1 {
        assert(items.drop_last() =~= items.take(i));
        assert(items.last() == items[i]);
    } else {
        lemma_enc_list_len_ge(items.drop_last(), f, t, i);
        assert(items.drop_last().take(i) =~= items.take(i));
        assert(items.drop_last()[i] == items[i]);
    }
}

/// If one element does not fit the field, the list does not.
proof fn lemma_list_compat_not(items: Seq<ValV>, f: FieldDescriptor, t: TableV, i: int)
    requires
        0 <= i < items.len(),
        !scalar_compat(items[i], f, t),
    ensures
        !list_compat(items, f, t),
{
    crate::value::lemma_list_compat_index(items, f, t);
}

/// Length pass for a whole record against its descriptor.
fn len_msg(table: &DescriptorTable, rec: &MsgObj, d: &MsgDef) -> (r: Result<usize, Error>)
    requires
        table@.wf(),
        d@ == table@.msgs[d@.offset as int],
        0 <= (d@.offset as int) < table@.msgs.len(),
        rec@.offset == d@.offset,
    ensures
        match r {
            Ok(n) => rec_compat(rec@, d@, table@) && n == enc_msg(rec@, d@, table@).len(),
            Err(e) => (e == Error::TypeMismatch && !rec_compat(rec@, d@, table@)) || (e
                == Error::LengthOverflow && (rec_compat(rec@, d@, table@) ==> enc_msg(
                rec@,
                d@,
                table@,
            ).len() > usize::MAX)),
        },
    decreases rec, 1int,
{
    let ghost rv = rec@;
    let ghost dv = d@;
    let ghost t = table@;
    proof {
        lemma_msg_view_parts(*rec);
        lemma_pairs_view_len(rec.map.entries@);
    }
    let wire_id_matches = match (rec.msg_wire_id, d.wire_id) {
        (None, None) => true,
        (Some(a), Some(b)) => a == b,
        _ => false,
    };
    if !wire_id_matches {
        return Err(Error::TypeMismatch);
    }
    if rec.map.entries.len() != d.fields.len() {
        return Err(Error::TypeMismatch);
    }
    let n = d.fields.len();
    let mut total: usize = 0;
    let mut i: usize = 0;
    while i < n
        invariant
            table@.wf(),
            dv == d@,
            rv == rec@,
            t == table@,
            dv == t.msgs[dv.offset as int],
            0 <= (dv.offset as int) < t.msgs.len(),
            rv.fields == pairs_view(rec.map.entries@),
            rv.fields.len() == rec.map.entries@.len(),
            n == d.fields@.len(),
            n == rec.map.entries@.len(),
            i <= n,
            fields_compat(rv.fields.take(i as int), dv.fields.take(i as int), t),
            forall|j: int|
                0 <= j < i ==> (#[trigger] rv.fields[j]).0 == dv.fields[j].name && slot_compat(
                    rv.fields[j].1,
                    dv.fields[j],
                    t,
                ),
            total == enc_fields(rv.fields.take(i as int), dv.fields.take(i as int), t).len(),
        decreases n - i,
    {
        proof {
            lemma_pairs_view_index(rec.map.entries@, i as int);
            assert(crate::descriptor::msg_wf(dv, t));
            assert(crate::descriptor::field_wf(dv.fields[i as int], t));
        }
        let fd = &d.fields[i];
        let name = rec.map.entries[i].0;
        if name != fd.name {
            proof {
                lemma_rec_compat_not_name(rv, dv, t, i as int);
            }
            return Err(Error::TypeMismatch);
        }
        let v = &rec.map.entries[i].1;
        let n_slot = match len_slot(table, v, fd) {
            Ok(m) => m,
            Err(e) => {
                proof {
                    if e == Error::TypeMismatch {
                        lemma_rec_compat_not_slot(rv, dv, t, i as int);
                    } else {
                        if rec_compat(rv, dv, t) {
                            crate::value::lemma_fields_compat_index(rv.fields, dv.fields, t);
                            lemma_enc_fields_len_ge(rv.fields, dv.fields, t, i as int);
                        }
                    }
                }
                return Err(e);
            },
        };
        let new_total = match checked_add(total, n_slot) {
            Some(nt) => nt,
            None => {
                proof {
                    if rec_compat(rv, dv, t) {
                        crate::value::lemma_fields_compat_index(rv.fields, dv.fields, t);
                        lemma_enc_fields_len_ge(rv.fields, dv.fields, t, i as int);
                        lemma_enc_fields_take(rv.fields, dv.fields, t, i as int);
                    }
                }
                return Err(Error::LengthOverflow);
            },
        };
        proof {
            lemma_enc_fields_take(rv.fields, dv.fields, t, i as int);
            assert(fields_compat(rv.fields.take(i + 1), dv.fields.take(i + 1), t)) by {
                assert(rv.fields.take(i + 1).drop_last() =~= rv.fields.take(i as int));
                assert(dv.fields.take(i + 1).drop_last() =~= dv.fields.take(i as int));
                assert(rv.fields.take(i + 1).last() == rv.fields[i as int]);
                assert(dv.fields.take(i + 1).last() == dv.fields[i as int]);
            }
        }
        total = new_total;
        i += 1;
    }
    proof {
        assert(rv.fields.take(n as int) =~= rv.fields);
        assert(dv.fields.take(n as int) =~= dv.fields);
        crate::value::lemma_fields_compat_index(rv.fields, dv.fields, t);
    }
    Ok(total)
}

/// If an entry's name disagrees with its field, the record does not match.
proof fn lemma_rec_compat_not_name(r: RecV, d: MsgDefV, t: TableV, i: int)
    requires
        0 <= i < r.fields.len(),
        r.fields.len() == d.fields.len(),
        r.fields[i].0 != d.fields[i].name,
    ensures
        !rec_compat(r, d, t),
{
    if fields_compat(r.fields, d.fields, t) {
        crate::value::lemma_fields_compat_index(r.fields, d.fields, t);
    }
}

/// If an entry's slot does not fit its field, the record does not match.
proof fn lemma_rec_compat_not_slot(r: RecV, d: MsgDefV, t: TableV, i: int)
    requires
        0 <= i < r.fields.len(),
        r.fields.len() == d.fields.len(),
        !slot_compat(r.fields[i].1, d.fields[i], t),
    ensures
        !rec_compat(r, d, t),
{
    if fields_compat(r.fields, d.fields, t) {
        crate::value::lemma_fields_compat_index(r.fields, d.fields, t);
    }
}

/// Whatever the later fields contribute, the whole encoding is at least the
/// prefix through `i`.
proof fn lemma_enc_fields_len_ge(rf: Seq<(u16, ValV)>, df: Seq<FieldDescriptor>, t: TableV, i: int)
    requires
        rf.len() == df.len(),
        0 <= i < rf.len(),
    ensures
        enc_fields(rf, df, t).len() >= enc_fields(rf.take(i), df.take(i), t).len() + enc_slot(
            rf[i].1,
            df[i],
            t,
        ).len(),
    decreases rf.len(),
{
    if i == rf.len() - 1 {
        assert(rf.drop_last() =~= rf.take(i));
        assert(df.drop_last() =~= df.take(i));
        assert(rf.last() == rf[i]);
        assert(df.last() == df[i]);
    } else {
        lemma_enc_fields_len_ge(rf.drop_last(), df.drop_last(), t, i);
        assert(rf.drop_last().take(i) =~= rf.take(i));
        assert(df.drop_last().take(i) =~= df.take(i));
        assert(rf.drop_last()[i] == rf[i]);
        assert(df.drop_last()[i] == df[i]);
    }
}

/// Length pass for one stored slot.
fn len_slot(table: &DescriptorTable, v: &Value, f: &FieldDescriptor) -> (r: Result<usize, Error>)
    requires
        table@.wf(),
        crate::descriptor::field_wf(*f, table@),
    ensures
        match r {
            Ok(n) => slot_compat(v@, *f, table@) && n == enc_slot(v@, *f, table@).len(),
            Err(e) => (e == Error::TypeMismatch && !slot_compat(v@, *f, table@)) || (e
                == Error::LengthOverflow && (slot_compat(v@, *f, table@) ==> enc_slot(
                v@,
                *f,
                table@,
            ).len() > usize::MAX)),
        },
    decreases v, 1int,
{
    match f.mult {
        Multiplicity::Repeated => {
            match v {
                Value::List(items) => len_list(table, items, f),
                _ => Err(Error::TypeMismatch),
            }
        },
        _ => {
            match v {
                Value::Absent => {
                    if f.mult == Multiplicity::Required {
                        Err(Error::TypeMismatch)
                    } else {
                        Ok(0)
                    }
                },
                _ => len_scalar(table, v, f),
            }
        },
    }
}

/// Computes the exact number of bytes `encode` will write for `rec`,
/// walking nested messages bottom-up.
pub fn encoded_length(table: &DescriptorTable, rec: &MsgObj) -> (r: Result<usize, Error>)
    requires
        table@.wf(),
    ensures
        match r {
            Ok(n) => (rec@.offset as int) < table@.msgs.len() && rec_compat(
                rec@,
                table@.msgs[rec@.offset as int],
                table@,
            ) && n == enc_msg(rec@, table@.msgs[rec@.offset as int], table@).len(),
            Err(e) => (e == Error::NotFound && (rec@.offset as int) >= table@.msgs.len()) || ((
            rec@.offset as int) < table@.msgs.len() && ((e == Error::TypeMismatch && !rec_compat(
                rec@,
                table@.msgs[rec@.offset as int],
                table@,
            )) || (e == Error::LengthOverflow && (rec_compat(
                rec@,
                table@.msgs[rec@.offset as int],
                table@,
            ) ==> enc_msg(rec@, table@.msgs[rec@.offset as int], table@).len() > usize::MAX)))),
        },
{
    let off = rec.msg_offset();
    if (off as usize) >= table.msg_count() {
        return Err(Error::NotFound);
    }
    let d = table.get_msg(off);
    len_msg(table, rec, d)
}


/// Write pass for one present scalar value; the caller has established that
/// the value fits its field and that the bytes fit the buffer.
fn write_scalar(
    table: &DescriptorTable,
    v: &Value,
    f: &FieldDescriptor,
    buf: &mut Vec<u8>,
    pos: usize,
) -> (end: usize)
    requires
        table@.wf(),
        crate::descriptor::field_wf(*f, table@),
        scalar_compat(v@, *f, table@),
        pos + enc_scalar(v@, *f, table@).len() <= old(buf)@.len(),
    ensures
        end == pos + enc_scalar(v@, *f, table@).len(),
        final(buf)@ == crate::wire::spliced(old(buf)@, pos as int, enc_scalar(v@, *f, table@)),
    decreases v, 0int,
{
    let buf_len = buf.len();
    let ghost t = table@;
    let ghost bytes = enc_scalar(v@, *f, t);
    match f.kind {
        FieldKind::Int | FieldKind::Enum => {
            match v {
                Value::Int(i) => {
                    let u = *i as u64;
                    let key: u64 = (f.tag as u64) * 8 + WireType::Varint.as_num();
                    let mid = crate::wire::write_varint(buf, pos, key);
                    let end = crate::wire::write_varint(buf, mid, u);
                    proof {
                        crate::wire::lemma_spliced_chain(
                            old(buf)@,
                            pos as int,
                            key_bytes(f.tag, WireType::Varint),
                            vbytes(u as nat),
                        );
                    }
                    end
                },
                _ => {
                    proof {
                        assert(false);
                    }
                    pos
                },
            }
        },
        FieldKind::Sint => {
            match v {
                Value::Int(i) => {
                    let u = crate::wire::zigzag_encode(*i as i64);
                    let key: u64 = (f.tag as u64) * 8 + WireType::Varint.as_num();
                    let mid = crate::wire::write_varint(buf, pos, key);
                    let end = crate::wire::write_varint(buf, mid, u);
                    proof {
                        crate::wire::lemma_spliced_chain(
                            old(buf)@,
                            pos as int,
                            key_bytes(f.tag, WireType::Varint),
                            vbytes(u as nat),
                        );
                    }
                    end
                },
                _ => {
                    proof {
                        assert(false);
                    }
                    pos
                },
            }
        },
        FieldKind::Bool => {
            match v {
                Value::Bool(b) => {
                    let u: u64 = if *b {
                        1
                    } else {
                        0
                    };
                    let key: u64 = (f.tag as u64) * 8 + WireType::Varint.as_num();
                    let mid = crate::wire::write_varint(buf, pos, key);
                    let end = crate::wire::write_varint(buf, mid, u);
                    proof {
                        crate::wire::lemma_spliced_chain(
                            old(buf)@,
                            pos as int,
                            key_bytes(f.tag, WireType::Varint),
                            vbytes(u as nat),
                        );
                    }
                    end
                },
                _ => {
                    proof {
                        assert(false);
                    }
                    pos
                },
            }
        },
        FieldKind::Str | FieldKind::Bytes => {
            match v {
                Value::Bytes(b) => {
                    let key: u64 = (f.tag as u64) * 8 + WireType::LenDelim.as_num();
                    let mid = crate::wire::write_varint(buf, pos, key);
                    let ghost buf1 = buf@;
                    let mid2 = crate::wire::write_varint(buf, mid, b.len() as u64);
                    let end = crate::wire::write_bytes(buf, mid2, b);
                    proof {
                        crate::wire::lemma_spliced_chain(
                            buf1,
                            mid as int,
                            vbytes(b@.len()),
                            b@,
                        );
                        crate::wire::lemma_spliced_chain(
                            old(buf)@,
                            pos as int,
                            key_bytes(f.tag, WireType::LenDelim),
                            vbytes(b@.len()) + b@,
                        );
                        assert(key_bytes(f.tag, WireType::LenDelim) + (vbytes(b@.len()) + b@)
                            =~= bytes);
                    }
                    end
                },
                _ => {
                    proof {
                        assert(false);
                    }
                    pos
                },
            }
        },
        FieldKind::Msg => {
            match v {
                Value::Msg(m) => {
                    proof {
                        lemma_msg_view_parts(*m);
                    }
                    let o = match f.msg_offset {
                        Some(o) => o,
                        None => {
                            proof {
                                assert(false);
                            }
                            return pos;
                        },
                    };
                    let d = table.get_msg(o);
                    let ghost body = enc_msg(m@, d@, t);
                    proof {
                        assert(t.msgs[o as int].offset == o);
                        assert(bytes == key_bytes(f.tag, WireType::LenDelim) + vbytes(body.len())
                            + body);
                        assert(body.len() <= bytes.len());
                    }
                    let body_len = match len_msg(table, m, d) {
                        Ok(n) => n,
                        Err(_) => {
                            proof {
                                assert(false);
                            }
                            return pos;
                        },
                    };
                    let key: u64 = (f.tag as u64) * 8 + WireType::LenDelim.as_num();
                    let mid = crate::wire::write_varint(buf, pos, key);
                    let ghost buf1 = buf@;
                    let mid2 = crate::wire::write_varint(buf, mid, body_len as u64);
                    let end = write_msg(table, m, d, buf, mid2);
                    proof {
                        crate::wire::lemma_spliced_chain(
                            buf1,
                            mid as int,
                            vbytes(body.len()),
                            body,
                        );
                        crate::wire::lemma_spliced_chain(
                            old(buf)@,
                            pos as int,
                            key_bytes(f.tag, WireType::LenDelim),
                            vbytes(body.len()) + body,
                        );
                        assert(key_bytes(f.tag, WireType::LenDelim) + (vbytes(body.len()) + body)
                            =~= bytes);
                    }
                    end
                },
                _ => {
                    proof {
                        assert(false);
                    }
                    pos
                },
            }
        },
    }
}

/// Write pass for a repeated field's list.
fn write_list(
    table: &DescriptorTable,
    items: &Vec<Value>,
    f: &FieldDescriptor,
    buf: &mut Vec<u8>,
    pos: usize,
) -> (end: usize)
    requires
        table@.wf(),
        crate::descriptor::field_wf(*f, table@),
        list_compat(list_view(items@), *f, table@),
        pos + enc_list(list_view(items@), *f, table@).len() <= old(buf)@.len(),
    ensures
        end == pos + enc_list(list_view(items@), *f, table@).len(),
        final(buf)@ == crate::wire::spliced(
            old(buf)@,
            pos as int,
            enc_list(list_view(items@), *f, table@),
        ),
    decreases items, 0int,
{
    let ghost t = table@;
    let ghost lv = list_view(items@);
    proof {
        lemma_list_view_len(items@);
        crate::value::lemma_list_compat_index(lv, *f, t);
        assert(lv.take(0) =~= Seq::<ValV>::empty());
        crate::wire::lemma_spliced_empty(old(buf)@, pos as int);
    }
    let mut cur: usize = pos;
    let mut i: usize = 0;
    while i < items.len()
        invariant
            table@.wf(),
            crate::descriptor::field_wf(*f, table@),
            t == table@,
            lv == list_view(items@),
            lv.len() == items@.len(),
            forall|j: int| 0 <= j < lv.len() ==> scalar_compat(#[trigger] lv[j], *f, t),
            pos + enc_list(lv, *f, t).len() <= old(buf)@.len(),
            i <= items@.len(),
            cur == pos + enc_list(lv.take(i as int), *f, t).len(),
            buf@ == crate::wire::spliced(old(buf)@, pos as int, enc_list(lv.take(i as int), *f, t)),
            buf@.len() == old(buf)@.len(),
        decreases items@.len() - i,
    {
        proof {
            lemma_list_view_index(items@, i as int);
            lemma_enc_list_take(lv, *f, t, i as int);
            lemma_enc_list_len_ge(lv, *f, t, i as int);
        }
        let ghost prefix = enc_list(lv.take(i as int), *f, t);
        cur = write_scalar(table, &items[i], f, buf, cur);
        proof {
            crate::wire::lemma_spliced_chain(
                old(buf)@,
                pos as int,
                prefix,
                enc_scalar(lv[i as int], *f, t),
            );
        }
        i += 1;
    }
    proof {
        assert(lv.take(lv.len() as int) =~= lv);
    }
    cur
}

/// Write pass for one stored slot.
fn write_slot(
    table: &DescriptorTable,
    v: &Value,
    f: &FieldDescriptor,
    buf: &mut Vec<u8>,
    pos: usize,
) -> (end: usize)
    requires
        table@.wf(),
        crate::descriptor::field_wf(*f, table@),
        slot_compat(v@, *f, table@),
        pos + enc_slot(v@, *f, table@).len() <= old(buf)@.len(),
    ensures
        end == pos + enc_slot(v@, *f, table@).len(),
        final(buf)@ == crate::wire::spliced(old(buf)@, pos as int, enc_slot(v@, *f, table@)),
    decreases v, 1int,
{
    match f.mult {
        Multiplicity::Repeated => {
            match v {
                Value::List(items) => write_list(table, items, f, buf, pos),
                _ => {
                    proof {
                        assert(false);
                    }
                    pos
                },
            }
        },
        _ => {
            match v {
                Value::Absent => {
                    proof {
                        crate::wire::lemma_spliced_empty(old(buf)@, pos as int);
                    }
                    pos
                },
                _ => write_scalar(table, v, f, buf, pos),
            }
        },
    }
}

/// Write pass for a whole record.
fn write_msg(
    table: &DescriptorTable,
    rec: &MsgObj,
    d: &MsgDef,
    buf: &mut Vec<u8>,
    pos: usize,
) -> (end: usize)
    requires
        table@.wf(),
        d@ == table@.msgs[d@.offset as int],
        0 <= (d@.offset as int) < table@.msgs.len(),
        rec_compat(rec@, d@, table@),
        pos + enc_msg(rec@, d@, table@).len() <= old(buf)@.len(),
    ensures
        end == pos + enc_msg(rec@, d@, table@).len(),
        final(buf)@ == crate::wire::spliced(old(buf)@, pos as int, enc_msg(rec@, d@, table@)),
    decreases rec, 1int,
{
    let ghost t = table@;
    let ghost rv = rec@;
    let ghost dv = d@;
    proof {
        lemma_msg_view_parts(*rec);
        lemma_pairs_view_len(rec.map.entries@);
        crate::value::lemma_fields_compat_index(rv.fields, dv.fields, t);
        assert(rv.fields.take(0) =~= Seq::<(u16, ValV)>::empty());
        assert(dv.fields.take(0) =~= Seq::<FieldDescriptor>::empty());
        crate::wire::lemma_spliced_empty(old(buf)@, pos as int);
    }
    let n = d.fields.len();
    let mut cur: usize = pos;
    let mut i: usize = 0;
    while i < n
        invariant
            table@.wf(),
            t == table@,
            rv == rec@,
            dv == d@,
            dv == t.msgs[dv.offset as int],
            0 <= (dv.offset as int) < t.msgs.len(),
            rv.fields == pairs_view(rec.map.entries@),
            rv.fields.len() == rec.map.entries@.len(),
            rv.fields.len() == dv.fields.len(),
            n == d.fields@.len(),
            n == rec.map.entries@.len(),
            forall|j: int|
                0 <= j < rv.fields.len() ==> (#[trigger] rv.fields[j]).0 == dv.fields[j].name
                    && slot_compat(rv.fields[j].1, dv.fields[j], t),
            pos + enc_msg(rv, dv, t).len() <= old(buf)@.len(),
            i <= n,
            cur == pos + enc_fields(rv.fields.take(i as int), dv.fields.take(i as int), t).len(),
            buf@ == crate::wire::spliced(
                old(buf)@,
                pos as int,
                enc_fields(rv.fields.take(i as int), dv.fields.take(i as int), t),
            ),
            buf@.len() == old(buf)@.len(),
        decreases n - i,
    {
        proof {
            lemma_pairs_view_index(rec.map.entries@, i as int);
            lemma_enc_fields_take(rv.fields, dv.fields, t, i as int);
            lemma_enc_fields_len_ge(rv.fields, dv.fields, t, i as int);
            assert(crate::descriptor::msg_wf(dv, t));
        }
        let fd = &d.fields[i];
        let ghost prefix = enc_fields(rv.fields.take(i as int), dv.fields.take(i as int), t);
        cur = write_slot(table, &rec.map.entries[i].1, fd, buf, cur);
        proof {
            crate::wire::lemma_spliced_chain(
                old(buf)@,
                pos as int,
                prefix,
                enc_slot(rv.fields[i as int].1, dv.fields[i as int], t),
            );
        }
        i += 1;
    }
    proof {
        assert(rv.fields.take(n as int) =~= rv.fields);
        assert(dv.fields.take(n as int) =~= dv.fields);
    }
    cur
}

/// Serializes `rec` into the caller-supplied buffer, which must hold at
/// least `encoded_length` bytes; writes exactly that many bytes at the
/// buffer's start and leaves the rest untouched.
pub fn encode(table: &DescriptorTable, rec: &MsgObj, buf: &mut Vec<u8>) -> (r: Result<usize, Error>)
    requires
        table@.wf(),
    ensures
        final(buf)@.len() == old(buf)@.len(),
        match r {
            Ok(n) => {
                let d = table@.msgs[rec@.offset as int];
                &&& (rec@.offset as int) < table@.msgs.len()
                &&& rec_compat(rec@, d, table@)
                &&& n == enc_msg(rec@, d, table@).len()
                &&& n <= old(buf)@.len()
                &&& final(buf)@ == crate::wire::spliced(old(buf)@, 0, enc_msg(rec@, d, table@))
            },
            Err(e) => final(buf)@ == old(buf)@ && ((e == Error::NotFound && (rec@.offset as int)
                >= table@.msgs.len()) || ((rec@.offset as int) < table@.msgs.len() && ((e
                == Error::TypeMismatch && !rec_compat(
                rec@,
                table@.msgs[rec@.offset as int],
                table@,
            )) || (e == Error::LengthOverflow && (rec_compat(
                rec@,
                table@.msgs[rec@.offset as int],
                table@,
            ) ==> enc_msg(rec@, table@.msgs[rec@.offset as int], table@).len() > usize::MAX)) || (e
                == Error::BufferTooSmall && rec_compat(
                rec@,
                table@.msgs[rec@.offset as int],
                table@,
            ) && enc_msg(rec@, table@.msgs[rec@.offset as int], table@).len()
                > old(buf)@.len())))),
        },
{
    let total = match encoded_length(table, rec) {
        Ok(n) => n,
        Err(e) => {
            return Err(e);
        },
    };
    if total > buf.len() {
        return Err(Error::BufferTooSmall);
    }
    let d = table.get_msg(rec.msg_offset());
    let end = write_msg(table, rec, d, buf, 0);
    if end != total {
        proof {
            assert(false);
        }
        return Err(Error::EncodeLengthMismatch);
    }
    Ok(end)
}

} // verus!
