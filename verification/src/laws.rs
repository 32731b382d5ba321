//! The codec's global laws, proved over the wire-format model: encodings
//! decode back to the record they came from, unknown fields are skipped
//! without a trace, and packed and unpacked repeated fields decode alike.

use vstd::prelude::*;
use vstd::arithmetic::div_mod::lemma_fundamental_div_mod_converse;
use crate::decode::{
    acc_put, acc_put_packed, construct, fill_fields, finalize, parse_fields, parse_msg,
    parse_packed, scalar_of_varint, skip_parse, validate_values,
};
use crate::descriptor::{
    kind_wire, msg_wf, spec_field_by_tag, FieldDescriptor, FieldKind, MsgDefV, Multiplicity,
    TableV,
};
use crate::encode::{enc_fields, enc_list, enc_msg, enc_scalar, enc_slot, key_bytes};
use crate::err::Error;
use crate::value::{list_compat, rec_compat, scalar_compat, slot_compat, RecV, ValV};
use crate::wire::{
    lemma_p128_values, lemma_varint_roundtrip, lemma_vbytes_len, p128, varint_parse, vbytes,
    VarParse, WireType,
};

verus! {

/// Nesting depth of a value: how many message layers sit inside it.
pub open spec fn val_depth(v: ValV) -> nat
    decreases v, 1int,
{
    match v {
        ValV::Msg(r) => 1 + fields_depth(r.fields),
        ValV::List(items) => list_depth(items),
        _ => 0,
    }
}

pub open spec fn list_depth(items: Seq<ValV>) -> nat
    decreases items, 0int,
{
    if items.len() == 0 {
        0
    } else {
        let d0 = list_depth(items.drop_last());
        let d1 = val_depth(items.last());
        if d0 >= d1 {
            d0
        } else {
            d1
        }
    }
}

/// Nesting depth of a record's fields.
pub open spec fn fields_depth(rf: Seq<(u16, ValV)>) -> nat
    decreases rf, 2int,
{
    if rf.len() == 0 {
        0
    } else {
        let d0 = fields_depth(rf.drop_last());
        let d1 = val_depth(rf.last().1);
        if d0 >= d1 {
            d0
        } else {
            d1
        }
    }
}

/// Parsing the minimal encoding of a 64-bit value consumes it exactly.
proof fn lemma_varint_roundtrip_u64(v: nat, rest: Seq<u8>)
    requires
        v < 0x10000000000000000,
    ensures
        varint_parse(vbytes(v) + rest, 10) == VarParse::Val(v, vbytes(v).len() as nat),
        1 <= vbytes(v).len() <= 10,
{
    lemma_p128_values();
    assert(p128(10) == 0x400000000000000000);
    lemma_vbytes_len(v, 10);
    lemma_varint_roundtrip(v, rest, 10);
}

/// The tag key of a field: its number and wire type recombine by division.
proof fn lemma_key_split(tag: u32, w: WireType)
    ensures
        ((tag * 8 + w.num()) as nat) / 8 == tag as nat,
        ((tag * 8 + w.num()) as nat) % 8 == w.num() as nat,
        ((tag * 8 + w.num()) as nat) < 0x10000000000000000,
{
    lemma_fundamental_div_mod_converse(
        (tag * 8 + w.num()) as int,
        8,
        tag as int,
        w.num() as int,
    );
}

/// The first field carrying a unique tag is that field itself.
proof fn lemma_field_by_tag_unique(fields: Seq<FieldDescriptor>, k: int)
    requires
        0 <= k < fields.len(),
        forall|i: int, j: int|
            0 <= i < j < fields.len() ==> #[trigger] fields[i].tag != #[trigger] fields[j].tag,
    ensures
        spec_field_by_tag(fields, fields[k].tag as u64) == Some(fields[k]),
    decreases fields.len(),
{
    if k == 0 {
    } else {
        assert(fields[0].tag != fields[k].tag);
        assert forall|i: int, j: int|
            0 <= i < j < fields.skip(1).len() implies #[trigger] fields.skip(1)[i].tag
            != #[trigger] fields.skip(1)[j].tag by {
            assert(fields.skip(1)[i] == fields[i + 1]);
            assert(fields.skip(1)[j] == fields[j + 1]);
        }
        assert(fields.skip(1)[k - 1] == fields[k]);
        lemma_field_by_tag_unique(fields.skip(1), k - 1);
    }
}

/// Front decomposition of `enc_fields`.
proof fn lemma_enc_fields_skip(rf: Seq<(u16, ValV)>, df: Seq<FieldDescriptor>, t: TableV)
    requires
        rf.len() == df.len(),
        rf.len() > 0,
    ensures
        enc_fields(rf, df, t) == enc_slot(rf[0].1, df[0], t) + enc_fields(
            rf.skip(1),
            df.skip(1),
            t,
        ),
    decreases rf.len(),
{
    if rf.len() == 1 {
        assert(rf.drop_last().len() == 0);
        assert(rf.skip(1).len() == 0);
        assert(rf.last() == rf[0]);
        assert(df.last() == df[0]);
        assert(enc_fields(rf.drop_last(), df.drop_last(), t) == Seq::<u8>::empty());
        assert(enc_fields(rf.skip(1), df.skip(1), t) == Seq::<u8>::empty());
        assert(enc_fields(rf, df, t) =~= enc_slot(rf[0].1, df[0], t) + enc_fields(
            rf.skip(1),
            df.skip(1),
            t,
        ));
    } else {
        lemma_enc_fields_skip(rf.drop_last(), df.drop_last(), t);
        assert(rf.drop_last()[0] == rf[0]);
        assert(df.drop_last()[0] == df[0]);
        assert(rf.skip(1).drop_last() =~= rf.drop_last().skip(1));
        assert(df.skip(1).drop_last() =~= df.drop_last().skip(1));
        assert(rf.skip(1).last() == rf.last());
        assert(df.skip(1).last() == df.last());
        assert(enc_fields(rf.skip(1), df.skip(1), t) == enc_fields(
            rf.drop_last().skip(1),
            df.drop_last().skip(1),
            t,
        ) + enc_slot(rf.last().1, df.last(), t));
        assert((enc_slot(rf[0].1, df[0], t) + enc_fields(
            rf.drop_last().skip(1),
            df.drop_last().skip(1),
            t,
        )) + enc_slot(rf.last().1, df.last(), t) =~= enc_slot(rf[0].1, df[0], t) + enc_fields(
            rf.skip(1),
            df.skip(1),
            t,
        ));
    }
}

/// Front decomposition of `enc_list`.
proof fn lemma_enc_list_skip(items: Seq<ValV>, f: FieldDescriptor, t: TableV)
    requires
        items.len() > 0,
    ensures
        enc_list(items, f, t) == enc_scalar(items[0], f, t) + enc_list(items.skip(1), f, t),
    decreases items.len(),
{
    if items.len() == 1 {
        assert(items.last() == items[0]);
        assert(items.skip(1).len() == 0);
        assert(items.drop_last().len() == 0);
        assert(enc_list(items.drop_last(), f, t) == Seq::<u8>::empty());
        assert(enc_list(items.skip(1), f, t) == Seq::<u8>::empty());
        assert(enc_list(items, f, t) =~= enc_scalar(items[0], f, t) + enc_list(
            items.skip(1),
            f,
            t,
        ));
    } else {
        lemma_enc_list_skip(items.drop_last(), f, t);
        assert(items.drop_last()[0] == items[0]);
        assert(items.skip(1).drop_last() =~= items.drop_last().skip(1));
        assert(items.skip(1).last() == items.last());
        assert(enc_list(items.skip(1), f, t) == enc_list(items.drop_last().skip(1), f, t)
            + enc_scalar(items.last(), f, t));
        assert((enc_scalar(items[0], f, t) + enc_list(items.drop_last().skip(1), f, t))
            + enc_scalar(items.last(), f, t) =~= enc_scalar(items[0], f, t) + enc_list(
            items.skip(1),
            f,
            t,
        ));
    }
}


/// Whether `pb` is one well-formed wire value of wire type `w`.
pub open spec fn wire_value_wf(w: nat, pb: Seq<u8>) -> bool {
    if w == 0 {
        exists|v: nat| v < 0x10000000000000000 && pb == vbytes(v)
    } else if w == 1 {
        pb.len() == 8
    } else if w == 5 {
        pb.len() == 4
    } else if w == 2 {
        exists|data: Seq<u8>|
            data.len() < 0x10000000000000000 && pb == #[trigger] (vbytes(data.len()) + data)
    } else {
        false
    }
}

/// Forward compatibility: a tag the descriptor does not know, or an
/// experimental field while the decoder gates them, is skipped without a
/// trace, provided it carries a valid wire type and a well-formed value:
/// the buffer decodes exactly as if those bytes were not there.
pub proof fn lemma_unknown_field_skipped(
    t: TableV,
    d: MsgDefV,
    tag: u64,
    w: nat,
    pb: Seq<u8>,
    rest: Seq<u8>,
    allow: bool,
    depth: nat,
    acc: Map<u16, ValV>,
)
    requires
        tag < 0x2000000000000000,
        w == 0 || w == 1 || w == 2 || w == 5,
        wire_value_wf(w, pb),
        match spec_field_by_tag(d.fields, tag) {
            None => true,
            Some(f) => f.experimental && !allow,
        },
    ensures
        parse_fields(t, d, vbytes((tag * 8 + w) as nat) + (pb + rest), allow, depth, acc) == parse_fields(
            t,
            d,
            rest,
            allow,
            depth,
            acc,
        ),
{
    let key: nat = (tag * 8 + w) as nat;
    let s = vbytes(key) + (pb + rest);
    lemma_varint_roundtrip_u64(key, pb + rest);
    lemma_fundamental_div_mod_converse(key as int, 8, tag as int, w as int);
    assert(key / 8 == tag as nat);
    assert(key % 8 == w);
    let c = vbytes(key).len() as nat;
    assert(s.skip(c as int) =~= pb + rest);
    // the value is skipped whole
    assert(skip_parse(w, pb + rest) == Ok::<int, Error>(pb.len() as int)) by {
        if w == 0 {
            let v = choose|v: nat| v < 0x10000000000000000 && pb == vbytes(v);
            lemma_varint_roundtrip_u64(v, rest);
            assert(pb + rest =~= vbytes(v) + rest);
        } else if w == 2 {
            let data = choose|data: Seq<u8>|
                data.len() < 0x10000000000000000 && pb == #[trigger] (vbytes(data.len()) + data);
            lemma_varint_roundtrip_u64(data.len(), data + rest);
            assert(pb + rest =~= vbytes(data.len()) + (data + rest));
            let c2 = vbytes(data.len()).len() as nat;
            assert(varint_parse(pb + rest, 10) == VarParse::Val(data.len(), c2));
            assert(c2 + data.len() == pb.len());
            assert(pb.len() <= (pb + rest).len());
        }
    }
    assert((pb + rest).skip(pb.len() as int) =~= rest);
}


/// The values of a sequence of varints, under a field's kind.
pub open spec fn scalar_vals(vals: Seq<nat>, f: FieldDescriptor, t: TableV) -> Seq<ValV>
    decreases vals.len(),
{
    if vals.len() == 0 {
        Seq::empty()
    } else {
        seq![scalar_of_varint(vals[0], f, t)->Ok_0] + scalar_vals(vals.skip(1), f, t)
    }
}

/// The varint encodings of a sequence of values, back to back.
pub open spec fn varint_concat(vals: Seq<nat>) -> Seq<u8>
    decreases vals.len(),
{
    if vals.len() == 0 {
        Seq::empty()
    } else {
        vbytes(vals[0]) + varint_concat(vals.skip(1))
    }
}

/// One decoded value after another lands in the accumulated fields.
pub open spec fn acc_puts(acc: Map<u16, ValV>, f: FieldDescriptor, vs: Seq<ValV>) -> Map<u16, ValV>
    decreases vs.len(),
{
    if vs.len() == 0 {
        acc
    } else {
        acc_puts(acc_put(acc, f, vs[0]), f, vs.skip(1))
    }
}

/// For a repeated field, adding values one at a time amounts to adding them
/// as one run.
proof fn lemma_acc_puts_packed(acc: Map<u16, ValV>, f: FieldDescriptor, vs: Seq<ValV>)
    requires
        f.mult == Multiplicity::Repeated,
        vs.len() >= 1,
    ensures
        acc_puts(acc, f, vs) == acc_put_packed(acc, f, vs),
    decreases vs.len(),
{
    let prev = if acc.contains_key(f.name) && acc[f.name] is List {
        acc[f.name]->List_0
    } else {
        Seq::empty()
    };
    let acc1 = acc_put(acc, f, vs[0]);
    assert(acc1 == acc.insert(f.name, ValV::List(prev.push(vs[0]))));
    if vs.len() == 1 {
        assert(acc_puts(acc1, f, vs.skip(1)) == acc1);
        assert(prev.push(vs[0]) =~= prev + vs);
    } else {
        lemma_acc_puts_packed(acc1, f, vs.skip(1));
        let prev1 = acc1[f.name]->List_0;
        assert(prev1 == prev.push(vs[0]));
        assert(acc_put_packed(acc1, f, vs.skip(1)) == acc1.insert(
            f.name,
            ValV::List(prev1 + vs.skip(1)),
        ));
        assert(prev.push(vs[0]) + vs.skip(1) =~= prev + vs);
        assert(acc1.insert(f.name, ValV::List(prev + vs)) =~= acc.insert(
            f.name,
            ValV::List(prev + vs),
        ));
    }
}

/// A packed run of well-formed varints decodes to its values.
proof fn lemma_parse_packed_concat(vals: Seq<nat>, f: FieldDescriptor, t: TableV)
    requires
        forall|i: int|
            0 <= i < vals.len() ==> (#[trigger] vals[i]) < 0x10000000000000000
                && scalar_of_varint(vals[i], f, t) is Ok,
    ensures
        parse_packed(varint_concat(vals), f, t) == Ok::<Seq<ValV>, Error>(
            scalar_vals(vals, f, t),
        ),
    decreases vals.len(),
{
    if vals.len() == 0 {
        assert(varint_concat(vals).len() == 0);
    } else {
        let run = varint_concat(vals);
        let tail = varint_concat(vals.skip(1));
        lemma_varint_roundtrip_u64(vals[0], tail);
        assert(run == vbytes(vals[0]) + tail);
        let c = vbytes(vals[0]).len();
        assert(run.skip(c as int) =~= tail);
        assert forall|i: int|
            0 <= i < vals.skip(1).len() implies (#[trigger] vals.skip(1)[i])
            < 0x10000000000000000 && scalar_of_varint(vals.skip(1)[i], f, t) is Ok by {
            assert(vals.skip(1)[i] == vals[i + 1]);
        }
        lemma_parse_packed_concat(vals.skip(1), f, t);
        assert(run.len() > 0) by {
            lemma_p128_values();
            lemma_vbytes_len(vals[0], 10);
        }
        assert(scalar_vals(vals, f, t) == seq![scalar_of_varint(vals[0], f, t)->Ok_0]
            + scalar_vals(vals.skip(1), f, t));
    }
}

/// One unpacked entry of a known repeated varint field folds its value in.
proof fn lemma_parse_one_unpacked(
    t: TableV,
    d: MsgDefV,
    k: int,
    v: nat,
    rest: Seq<u8>,
    allow: bool,
    depth: nat,
    acc: Map<u16, ValV>,
)
    requires
        0 <= k < d.fields.len(),
        forall|i: int, j: int|
            0 <= i < j < d.fields.len() ==> #[trigger] d.fields[i].tag
                != #[trigger] d.fields[j].tag,
        kind_wire(d.fields[k].kind) == WireType::Varint,
        !(d.fields[k].experimental && !allow),
        d.fields[k].mult != Multiplicity::Repeated || true,
        v < 0x10000000000000000,
        scalar_of_varint(v, d.fields[k], t) is Ok,
    ensures
        parse_fields(
            t,
            d,
            key_bytes(d.fields[k].tag, WireType::Varint) + (vbytes(v) + rest),
            allow,
            depth,
            acc,
        ) == parse_fields(
            t,
            d,
            rest,
            allow,
            depth,
            acc_put(acc, d.fields[k], scalar_of_varint(v, d.fields[k], t)->Ok_0),
        ),
{
    let f = d.fields[k];
    lemma_key_split(f.tag, WireType::Varint);
    let key: nat = (f.tag * 8 + WireType::Varint.num()) as nat;
    let s = key_bytes(f.tag, WireType::Varint) + (vbytes(v) + rest);
    lemma_varint_roundtrip_u64(key, vbytes(v) + rest);
    let c = vbytes(key).len();
    assert(s.skip(c as int) =~= vbytes(v) + rest);
    lemma_field_by_tag_unique(d.fields, k);
    lemma_varint_roundtrip_u64(v, rest);
    let c2 = vbytes(v).len();
    assert((vbytes(v) + rest).skip(c2 as int) =~= rest);
}

/// The bytes of a repeated varint field sent unpacked: one tagged entry per
/// value.
pub open spec fn unpacked_bytes(f: FieldDescriptor, vals: Seq<nat>) -> Seq<u8>
    decreases vals.len(),
{
    if vals.len() == 0 {
        Seq::empty()
    } else {
        key_bytes(f.tag, WireType::Varint) + vbytes(vals[0]) + unpacked_bytes(f, vals.skip(1))
    }
}

/// The bytes of a repeated varint field sent packed: one length-delimited
/// run of varints.
pub open spec fn packed_bytes(f: FieldDescriptor, vals: Seq<nat>) -> Seq<u8> {
    key_bytes(f.tag, WireType::LenDelim) + vbytes(varint_concat(vals).len()) + varint_concat(vals)
}

/// A run of unpacked entries folds all its values in, one at a time.
proof fn lemma_parse_unpacked(
    t: TableV,
    d: MsgDefV,
    k: int,
    vals: Seq<nat>,
    rest: Seq<u8>,
    allow: bool,
    depth: nat,
    acc: Map<u16, ValV>,
)
    requires
        0 <= k < d.fields.len(),
        forall|i: int, j: int|
            0 <= i < j < d.fields.len() ==> #[trigger] d.fields[i].tag
                != #[trigger] d.fields[j].tag,
        kind_wire(d.fields[k].kind) == WireType::Varint,
        !(d.fields[k].experimental && !allow),
        forall|i: int|
            0 <= i < vals.len() ==> (#[trigger] vals[i]) < 0x10000000000000000
                && scalar_of_varint(vals[i], d.fields[k], t) is Ok,
    ensures
        parse_fields(t, d, unpacked_bytes(d.fields[k], vals) + rest, allow, depth, acc)
            == parse_fields(
            t,
            d,
            rest,
            allow,
            depth,
            acc_puts(acc, d.fields[k], scalar_vals(vals, d.fields[k], t)),
        ),
    decreases vals.len(),
{
    let f = d.fields[k];
    if vals.len() == 0 {
        assert(unpacked_bytes(f, vals) + rest =~= rest);
    } else {
        let tail = unpacked_bytes(f, vals.skip(1)) + rest;
        assert(unpacked_bytes(f, vals) + rest =~= key_bytes(f.tag, WireType::Varint) + (vbytes(
            vals[0],
        ) + tail));
        lemma_parse_one_unpacked(t, d, k, vals[0], tail, allow, depth, acc);
        assert forall|i: int|
            0 <= i < vals.skip(1).len() implies (#[trigger] vals.skip(1)[i])
            < 0x10000000000000000 && scalar_of_varint(vals.skip(1)[i], f, t) is Ok by {
            assert(vals.skip(1)[i] == vals[i + 1]);
        }
        lemma_parse_unpacked(
            t,
            d,
            k,
            vals.skip(1),
            rest,
            allow,
            depth,
            acc_put(acc, f, scalar_of_varint(vals[0], f, t)->Ok_0),
        );
        assert(scalar_vals(vals, f, t)[0] == scalar_of_varint(vals[0], f, t)->Ok_0);
        assert(scalar_vals(vals, f, t).skip(1) =~= scalar_vals(vals.skip(1), f, t)) by {
            lemma_scalar_vals_len(vals, f, t);
            lemma_scalar_vals_len(vals.skip(1), f, t);
            assert forall|i: int|
                0 <= i < scalar_vals(vals, f, t).skip(1).len() implies scalar_vals(
                vals,
                f,
                t,
            ).skip(1)[i] == scalar_vals(vals.skip(1), f, t)[i] by {
                lemma_scalar_vals_index(vals, f, t, i + 1);
                lemma_scalar_vals_index(vals.skip(1), f, t, i);
                assert(vals.skip(1)[i] == vals[i + 1]);
            }
        }
        assert(acc_puts(acc, f, scalar_vals(vals, f, t)) == acc_puts(
            acc_put(acc, f, scalar_vals(vals, f, t)[0]),
            f,
            scalar_vals(vals, f, t).skip(1),
        ));
    }
}

proof fn lemma_scalar_vals_len(vals: Seq<nat>, f: FieldDescriptor, t: TableV)
    ensures
        scalar_vals(vals, f, t).len() == vals.len(),
    decreases vals.len(),
{
    if vals.len() > 0 {
        lemma_scalar_vals_len(vals.skip(1), f, t);
    }
}

proof fn lemma_scalar_vals_index(vals: Seq<nat>, f: FieldDescriptor, t: TableV, i: int)
    requires
        0 <= i < vals.len(),
    ensures
        scalar_vals(vals, f, t)[i] == scalar_of_varint(vals[i], f, t)->Ok_0,
    decreases vals.len(),
{
    lemma_scalar_vals_len(vals, f, t);
    if i > 0 {
        lemma_scalar_vals_index(vals.skip(1), f, t, i - 1);
        assert(vals.skip(1)[i - 1] == vals[i]);
    }
}

/// Packed and unpacked transmission of a repeated integer field decode to
/// the same accumulated values, so the whole buffers decode alike.
pub proof fn lemma_packed_unpacked_equivalent(
    t: TableV,
    d: MsgDefV,
    k: int,
    vals: Seq<nat>,
    rest: Seq<u8>,
    allow: bool,
    depth: nat,
    acc: Map<u16, ValV>,
)
    requires
        0 <= k < d.fields.len(),
        forall|i: int, j: int|
            0 <= i < j < d.fields.len() ==> #[trigger] d.fields[i].tag
                != #[trigger] d.fields[j].tag,
        d.fields[k].mult == Multiplicity::Repeated,
        kind_wire(d.fields[k].kind) == WireType::Varint,
        !(d.fields[k].experimental && !allow),
        vals.len() >= 1,
        varint_concat(vals).len() < 0x10000000000000000,
        forall|i: int|
            0 <= i < vals.len() ==> (#[trigger] vals[i]) < 0x10000000000000000
                && scalar_of_varint(vals[i], d.fields[k], t) is Ok,
    ensures
        parse_fields(t, d, packed_bytes(d.fields[k], vals) + rest, allow, depth, acc)
            == parse_fields(t, d, unpacked_bytes(d.fields[k], vals) + rest, allow, depth, acc),
{
    let f = d.fields[k];
    let run = varint_concat(vals);
    // the packed form decodes to one appended run
    lemma_key_split(f.tag, WireType::LenDelim);
    let key: nat = (f.tag * 8 + WireType::LenDelim.num()) as nat;
    assert(packed_bytes(f, vals) + rest =~= key_bytes(f.tag, WireType::LenDelim) + ((vbytes(
        run.len(),
    ) + run) + rest));
    lemma_varint_roundtrip_u64(key, (vbytes(run.len()) + run) + rest);
    let c = vbytes(key).len();
    assert((key_bytes(f.tag, WireType::LenDelim) + ((vbytes(run.len()) + run) + rest)).skip(
        c as int,
    ) =~= vbytes(run.len()) + (run + rest));
    lemma_field_by_tag_unique(d.fields, k);
    lemma_varint_roundtrip_u64(run.len(), run + rest);
    let c2 = vbytes(run.len()).len();
    let body = (vbytes(run.len()) + (run + rest)).subrange(c2 as int, (c2 + run.len()) as int);
    assert(body =~= run);
    lemma_parse_packed_concat(vals, f, t);
    assert((vbytes(run.len()) + (run + rest)).skip((c2 + run.len()) as int) =~= rest);
    // the unpacked form decodes value by value to the same result
    lemma_parse_unpacked(t, d, k, vals, rest, allow, depth, acc);
    lemma_scalar_vals_len(vals, f, t);
    lemma_acc_puts_packed(acc, f, scalar_vals(vals, f, t));
}


/// Whether every length the encoder writes as a varint prefix fits the
/// 64-bit budget the decoder grants it.
pub open spec fn scalar_size_ok(v: ValV, f: FieldDescriptor, t: TableV) -> bool
    decreases v, 0int,
{
    match f.kind {
        FieldKind::Str | FieldKind::Bytes => v matches ValV::Bytes(b) && b.len()
            < 0x10000000000000000,
        FieldKind::Msg => v matches ValV::Msg(r) && (f.msg_offset matches Some(o) && (o as int)
            < t.msgs.len() && enc_msg(r, t.msgs[o as int], t).len() < 0x10000000000000000
            && fields_sizes_ok(r.fields, t.msgs[o as int].fields, t)),
        _ => true,
    }
}

pub open spec fn list_sizes_ok(items: Seq<ValV>, f: FieldDescriptor, t: TableV) -> bool
    decreases items, 0int,
{
    if items.len() == 0 {
        true
    } else {
        list_sizes_ok(items.drop_last(), f, t) && scalar_size_ok(items.last(), f, t)
    }
}

pub open spec fn slot_size_ok(v: ValV, f: FieldDescriptor, t: TableV) -> bool
    decreases v, 1int,
{
    match f.mult {
        Multiplicity::Repeated => v matches ValV::List(items) && list_sizes_ok(items, f, t),
        _ => v is Absent || scalar_size_ok(v, f, t),
    }
}

pub open spec fn fields_sizes_ok(rf: Seq<(u16, ValV)>, df: Seq<FieldDescriptor>, t: TableV) -> bool
    decreases rf, 2int,
{
    if rf.len() == 0 || df.len() == 0 {
        true
    } else {
        fields_sizes_ok(rf.drop_last(), df.drop_last(), t) && slot_size_ok(
            rf.last().1,
            df.last(),
            t,
        )
    }
}

proof fn lemma_fields_sizes_ok_index(rf: Seq<(u16, ValV)>, df: Seq<FieldDescriptor>, t: TableV)
    requires
        rf.len() == df.len(),
        fields_sizes_ok(rf, df, t),
    ensures
        forall|k: int| 0 <= k < rf.len() ==> slot_size_ok((#[trigger] rf[k]).1, df[k], t),
    decreases rf,
{
    if rf.len() > 0 {
        lemma_fields_sizes_ok_index(rf.drop_last(), df.drop_last(), t);
        assert forall|k: int| 0 <= k < rf.len() implies slot_size_ok(
            (#[trigger] rf[k]).1,
            df[k],
            t,
        ) by {
            if k < rf.len() - 1 {
                assert(rf.drop_last()[k] == rf[k]);
                assert(df.drop_last()[k] == df[k]);
            } else {
                assert(rf.last() == rf[k]);
                assert(df.last() == df[k]);
            }
        }
    }
}

proof fn lemma_list_sizes_ok_index(items: Seq<ValV>, f: FieldDescriptor, t: TableV)
    requires
        list_sizes_ok(items, f, t),
    ensures
        forall|k: int| 0 <= k < items.len() ==> scalar_size_ok(#[trigger] items[k], f, t),
    decreases items,
{
    if items.len() > 0 {
        lemma_list_sizes_ok_index(items.drop_last(), f, t);
        assert forall|k: int| 0 <= k < items.len() implies scalar_size_ok(
            #[trigger] items[k],
            f,
            t,
        ) by {
            if k < items.len() - 1 {
                assert(items.drop_last()[k] == items[k]);
            } else {
                assert(items.last() == items[k]);
            }
        }
    }
}

proof fn lemma_fields_depth_index(rf: Seq<(u16, ValV)>)
    ensures
        forall|k: int| 0 <= k < rf.len() ==> val_depth((#[trigger] rf[k]).1) <= fields_depth(rf),
    decreases rf,
{
    if rf.len() > 0 {
        lemma_fields_depth_index(rf.drop_last());
        assert forall|k: int| 0 <= k < rf.len() implies val_depth((#[trigger] rf[k]).1)
            <= fields_depth(rf) by {
            if k < rf.len() - 1 {
                assert(rf.drop_last()[k] == rf[k]);
            } else {
                assert(rf.last() == rf[k]);
            }
        }
    }
}

proof fn lemma_list_depth_index(items: Seq<ValV>)
    ensures
        forall|k: int| 0 <= k < items.len() ==> val_depth(#[trigger] items[k]) <= list_depth(
            items,
        ),
    decreases items,
{
    if items.len() > 0 {
        lemma_list_depth_index(items.drop_last());
        assert forall|k: int| 0 <= k < items.len() implies val_depth(#[trigger] items[k])
            <= list_depth(items) by {
            if k < items.len() - 1 {
                assert(items.drop_last()[k] == items[k]);
            } else {
                assert(items.last() == items[k]);
            }
        }
    }
}

/// Whether a slot leaves any entry in the accumulated fields when its
/// encoding is parsed back.
pub open spec fn slot_emits(v: ValV, f: FieldDescriptor) -> bool {
    if f.mult == Multiplicity::Repeated {
        v is List && v->List_0.len() > 0
    } else {
        !(v is Absent)
    }
}

/// What one slot's parsed-back values add to the accumulated fields.
pub open spec fn slot_acc(acc: Map<u16, ValV>, f: FieldDescriptor, v: ValV) -> Map<u16, ValV> {
    if f.mult == Multiplicity::Repeated {
        if v is List {
            acc_puts(acc, f, v->List_0)
        } else {
            acc
        }
    } else {
        if v is Absent {
            acc
        } else {
            acc_put(acc, f, v)
        }
    }
}

/// The accumulated fields after a record's slots are parsed back in order.
pub open spec fn fields_acc(
    acc: Map<u16, ValV>,
    rf: Seq<(u16, ValV)>,
    df: Seq<FieldDescriptor>,
) -> Map<u16, ValV>
    decreases rf.len(),
{
    if rf.len() == 0 || df.len() == 0 {
        acc
    } else {
        fields_acc(slot_acc(acc, df[0], rf[0].1), rf.skip(1), df.skip(1))
    }
}

/// Adding values only ever touches the field's own name.
proof fn lemma_acc_puts_other(acc: Map<u16, ValV>, f: FieldDescriptor, vs: Seq<ValV>, nm: u16)
    requires
        nm != f.name,
    ensures
        acc_puts(acc, f, vs).contains_key(nm) == acc.contains_key(nm),
        acc.contains_key(nm) ==> acc_puts(acc, f, vs)[nm] == acc[nm],
    decreases vs.len(),
{
    if vs.len() > 0 {
        lemma_acc_puts_other(acc_put(acc, f, vs[0]), f, vs.skip(1), nm);
    }
}

proof fn lemma_slot_acc_other(acc: Map<u16, ValV>, f: FieldDescriptor, v: ValV, nm: u16)
    requires
        nm != f.name,
    ensures
        slot_acc(acc, f, v).contains_key(nm) == acc.contains_key(nm),
        acc.contains_key(nm) ==> slot_acc(acc, f, v)[nm] == acc[nm],
{
    if f.mult == Multiplicity::Repeated && v is List {
        lemma_acc_puts_other(acc, f, v->List_0, nm);
    }
}

/// What one slot's own name holds afterwards: the slot's value when it
/// emits anything, no entry otherwise (starting from a name not yet seen).
proof fn lemma_slot_acc_own(acc: Map<u16, ValV>, f: FieldDescriptor, v: ValV, t: TableV)
    requires
        !acc.contains_key(f.name),
        slot_compat(v, f, t),
    ensures
        slot_emits(v, f) ==> slot_acc(acc, f, v).contains_key(f.name) && slot_acc(acc, f, v)[
            f.name
        ] == v,
        !slot_emits(v, f) ==> !slot_acc(acc, f, v).contains_key(f.name),
{
    if f.mult == Multiplicity::Repeated {
        let items = v->List_0;
        if items.len() > 0 {
            lemma_acc_puts_packed(acc, f, items);
            assert(Seq::<ValV>::empty() + items =~= items);
        }
    }
}

/// Names outside the remaining fields pass through the fold unchanged.
proof fn lemma_fields_acc_other(
    acc: Map<u16, ValV>,
    rf: Seq<(u16, ValV)>,
    df: Seq<FieldDescriptor>,
    nm: u16,
)
    requires
        rf.len() == df.len(),
        forall|j: int| 0 <= j < df.len() ==> (#[trigger] df[j]).name != nm,
    ensures
        fields_acc(acc, rf, df).contains_key(nm) == acc.contains_key(nm),
        acc.contains_key(nm) ==> fields_acc(acc, rf, df)[nm] == acc[nm],
    decreases rf.len(),
{
    if rf.len() > 0 {
        assert(df[0].name != nm);
        lemma_slot_acc_other(acc, df[0], rf[0].1, nm);
        assert forall|j: int| 0 <= j < df.skip(1).len() implies (#[trigger] df.skip(1)[j]).name
            != nm by {
            assert(df.skip(1)[j] == df[j + 1]);
        }
        lemma_fields_acc_other(slot_acc(acc, df[0], rf[0].1), rf.skip(1), df.skip(1), nm);
    }
}

/// What the accumulated fields hold for each field after a whole record's
/// slots are parsed back: exactly the emitting slots' values.
proof fn lemma_fields_acc_get(
    acc: Map<u16, ValV>,
    rf: Seq<(u16, ValV)>,
    df: Seq<FieldDescriptor>,
    t: TableV,
    k: int,
)
    requires
        rf.len() == df.len(),
        0 <= k < df.len(),
        forall|i: int, j: int|
            0 <= i < j < df.len() ==> (#[trigger] df[i]).name != (#[trigger] df[j]).name,
        forall|j: int| 0 <= j < df.len() ==> !acc.contains_key((#[trigger] df[j]).name),
        forall|j: int| 0 <= j < rf.len() ==> slot_compat((#[trigger] rf[j]).1, df[j], t),
    ensures
        slot_emits(rf[k].1, df[k]) ==> fields_acc(acc, rf, df).contains_key(df[k].name)
            && fields_acc(acc, rf, df)[df[k].name] == rf[k].1,
        !slot_emits(rf[k].1, df[k]) ==> !fields_acc(acc, rf, df).contains_key(df[k].name),
    decreases rf.len(),
{
    let acc1 = slot_acc(acc, df[0], rf[0].1);
    assert(slot_compat(rf[0].1, df[0], t));
    if k == 0 {
        lemma_slot_acc_own(acc, df[0], rf[0].1, t);
        assert forall|j: int| 0 <= j < df.skip(1).len() implies (#[trigger] df.skip(1)[j]).name
            != df[0].name by {
            assert(df.skip(1)[j] == df[j + 1]);
        }
        lemma_fields_acc_other(acc1, rf.skip(1), df.skip(1), df[0].name);
    } else {
        lemma_slot_acc_other(acc, df[0], rf[0].1, df[k].name);
        assert forall|i: int, j: int|
            0 <= i < j < df.skip(1).len() implies (#[trigger] df.skip(1)[i]).name
            != (#[trigger] df.skip(1)[j]).name by {
            assert(df.skip(1)[i] == df[i + 1]);
            assert(df.skip(1)[j] == df[j + 1]);
        }
        assert forall|j: int| 0 <= j < df.skip(1).len() implies !acc1.contains_key(
            (#[trigger] df.skip(1)[j]).name,
        ) by {
            assert(df.skip(1)[j] == df[j + 1]);
            lemma_slot_acc_other(acc, df[0], rf[0].1, df[j + 1].name);
        }
        assert forall|j: int| 0 <= j < rf.skip(1).len() implies slot_compat(
            (#[trigger] rf.skip(1)[j]).1,
            df.skip(1)[j],
            t,
        ) by {
            assert(rf.skip(1)[j] == rf[j + 1]);
            assert(df.skip(1)[j] == df[j + 1]);
        }
        lemma_fields_acc_get(acc1, rf.skip(1), df.skip(1), t, k - 1);
        assert(rf.skip(1)[k - 1] == rf[k]);
        assert(df.skip(1)[k - 1] == df[k]);
    }
}

/// Filling a record back from the accumulated fields reproduces its slots.
proof fn lemma_finalize_exact(
    df: Seq<FieldDescriptor>,
    rf: Seq<(u16, ValV)>,
    facc: Map<u16, ValV>,
    t: TableV,
)
    requires
        rf.len() == df.len(),
        forall|k: int|
            0 <= k < df.len() ==> (slot_emits((#[trigger] rf[k]).1, df[k]) ==> facc.contains_key(
                df[k].name,
            ) && facc[df[k].name] == rf[k].1),
        forall|k: int|
            0 <= k < df.len() ==> (!slot_emits((#[trigger] rf[k]).1, df[k])
                ==> !facc.contains_key(df[k].name)),
        forall|k: int| 0 <= k < rf.len() ==> slot_compat((#[trigger] rf[k]).1, df[k], t),
        forall|k: int| 0 <= k < rf.len() ==> (#[trigger] rf[k]).0 == df[k].name,
    ensures
        finalize(df, facc) == Ok::<Seq<(u16, ValV)>, Error>(rf),
    decreases df.len(),
{
    if df.len() == 0 {
        assert(rf =~= Seq::<(u16, ValV)>::empty());
    } else {
        assert forall|k: int|
            0 <= k < df.drop_last().len() implies (slot_emits(
            (#[trigger] rf.drop_last()[k]).1,
            df.drop_last()[k],
        ) ==> facc.contains_key(df.drop_last()[k].name) && facc[df.drop_last()[k].name]
            == rf.drop_last()[k].1) && (!slot_emits(rf.drop_last()[k].1, df.drop_last()[k])
            ==> !facc.contains_key(df.drop_last()[k].name)) && slot_compat(
            rf.drop_last()[k].1,
            df.drop_last()[k],
            t,
        ) && rf.drop_last()[k].0 == df.drop_last()[k].name by {
            assert(rf.drop_last()[k] == rf[k]);
            assert(df.drop_last()[k] == df[k]);
        }
        lemma_finalize_exact(df.drop_last(), rf.drop_last(), facc, t);
        let n = df.len() - 1;
        let f = df.last();
        let v = rf.last().1;
        assert(f == df[n]);
        assert(rf.last() == rf[n]);
        if slot_emits(v, f) {
            assert(finalize(df, facc) == Ok::<Seq<(u16, ValV)>, Error>(
                rf.drop_last().push((f.name, v)),
            ));
        } else {
            if f.mult == Multiplicity::Repeated {
                assert(v is List && v->List_0.len() == 0);
                assert(v == ValV::List(Seq::<ValV>::empty())) by {
                    assert(v->List_0 =~= Seq::<ValV>::empty());
                }
            } else {
                assert(v is Absent);
                assert(f.mult != Multiplicity::Required);
            }
        }
        assert(rf.drop_last().push(rf.last()) =~= rf);
    }
}


/// Parsing the encoding of one present varint-kind scalar.
#[verifier::rlimit(100)]
#[verifier::spinoff_prover]
proof fn lemma_parse_enc_scalar_varint(
    t: TableV,
    d: MsgDefV,
    k: int,
    v: ValV,
    rest: Seq<u8>,
    depth: nat,
    acc: Map<u16, ValV>,
)
    requires
        t.wf(),
        0 <= k < d.fields.len(),
        forall|i: int, j: int|
            0 <= i < j < d.fields.len() ==> #[trigger] d.fields[i].tag
                != #[trigger] d.fields[j].tag,
        crate::descriptor::field_wf(d.fields[k], t),
        scalar_compat(v, d.fields[k], t),
        kind_wire(d.fields[k].kind) == WireType::Varint,
    ensures
        parse_fields(t, d, enc_scalar(v, d.fields[k], t) + rest, true, depth, acc)
            == parse_fields(t, d, rest, true, depth, acc_put(acc, d.fields[k], v)),
{
    let f = d.fields[k];
    lemma_field_by_tag_unique(d.fields, k);
    lemma_key_split(f.tag, WireType::Varint);
    let key: nat = (f.tag * 8 + WireType::Varint.num()) as nat;
    let payload: nat = match f.kind {
        FieldKind::Sint => crate::wire::zigzag_enc(v->Int_0),
        FieldKind::Bool => if v->Bool_0 {
            1
        } else {
            0
        },
        _ => v->Int_0 as nat,
    };
    if f.kind == FieldKind::Sint {
        crate::wire::lemma_zigzag_roundtrip(v->Int_0);
    }
    assert(enc_scalar(v, f, t) + rest =~= vbytes(key) + (vbytes(payload) + rest));
    lemma_varint_roundtrip_u64(key, vbytes(payload) + rest);
    let c = vbytes(key).len();
    assert((vbytes(key) + (vbytes(payload) + rest)).skip(c as int) =~= vbytes(payload) + rest);
    lemma_varint_roundtrip_u64(payload, rest);
    let c2 = vbytes(payload).len();
    assert((vbytes(payload) + rest).skip(c2 as int) =~= rest);
    assert(scalar_of_varint(payload, f, t) == Ok::<ValV, Error>(v));
}

/// Parsing the encoding of one present byte-run scalar.
#[verifier::rlimit(100)]
#[verifier::spinoff_prover]
proof fn lemma_parse_enc_scalar_bytes(
    t: TableV,
    d: MsgDefV,
    k: int,
    v: ValV,
    rest: Seq<u8>,
    depth: nat,
    acc: Map<u16, ValV>,
)
    requires
        t.wf(),
        0 <= k < d.fields.len(),
        forall|i: int, j: int|
            0 <= i < j < d.fields.len() ==> #[trigger] d.fields[i].tag
                != #[trigger] d.fields[j].tag,
        crate::descriptor::field_wf(d.fields[k], t),
        scalar_compat(v, d.fields[k], t),
        scalar_size_ok(v, d.fields[k], t),
        d.fields[k].kind == FieldKind::Str || d.fields[k].kind == FieldKind::Bytes,
    ensures
        parse_fields(t, d, enc_scalar(v, d.fields[k], t) + rest, true, depth, acc)
            == parse_fields(t, d, rest, true, depth, acc_put(acc, d.fields[k], v)),
{
    let f = d.fields[k];
    lemma_field_by_tag_unique(d.fields, k);
    lemma_key_split(f.tag, WireType::LenDelim);
    let key: nat = (f.tag * 8 + WireType::LenDelim.num()) as nat;
    let data = v->Bytes_0;
    assert(enc_scalar(v, f, t) + rest =~= vbytes(key) + ((vbytes(data.len()) + data) + rest));
    lemma_varint_roundtrip_u64(key, (vbytes(data.len()) + data) + rest);
    let c = vbytes(key).len();
    assert((enc_scalar(v, f, t) + rest).skip(c as int) =~= vbytes(data.len()) + (data + rest));
    lemma_varint_roundtrip_u64(data.len(), data + rest);
    let c2 = vbytes(data.len()).len();
    let sub = vbytes(data.len()) + (data + rest);
    assert(sub.subrange(c2 as int, (c2 + data.len()) as int) =~= data);
    assert(sub.skip((c2 + data.len()) as int) =~= rest);
}

/// Parsing the encoding of one present scalar folds exactly that value in.
#[verifier::rlimit(100)]
#[verifier::spinoff_prover]
proof fn lemma_parse_enc_scalar(
    t: TableV,
    d: MsgDefV,
    k: int,
    v: ValV,
    rest: Seq<u8>,
    depth: nat,
    acc: Map<u16, ValV>,
)
    requires
        t.wf(),
        0 <= k < d.fields.len(),
        forall|i: int, j: int|
            0 <= i < j < d.fields.len() ==> #[trigger] d.fields[i].tag
                != #[trigger] d.fields[j].tag,
        crate::descriptor::field_wf(d.fields[k], t),
        scalar_compat(v, d.fields[k], t),
        scalar_size_ok(v, d.fields[k], t),
        val_depth(v) <= depth,
    ensures
        parse_fields(t, d, enc_scalar(v, d.fields[k], t) + rest, true, depth, acc)
            == parse_fields(t, d, rest, true, depth, acc_put(acc, d.fields[k], v)),
    decreases v, 0int,
{
    let f = d.fields[k];
    match f.kind {
        FieldKind::Int | FieldKind::Enum | FieldKind::Sint | FieldKind::Bool => {
            lemma_parse_enc_scalar_varint(t, d, k, v, rest, depth, acc);
        },
        FieldKind::Str | FieldKind::Bytes => {
            lemma_parse_enc_scalar_bytes(t, d, k, v, rest, depth, acc);
        },
        FieldKind::Msg => {
            lemma_field_by_tag_unique(d.fields, k);
            lemma_key_split(f.tag, WireType::LenDelim);
            let key: nat = (f.tag * 8 + WireType::LenDelim.num()) as nat;
            let r = v->Msg_0;
            let o = f.msg_offset->Some_0;
            let d2 = t.msgs[o as int];
            let body = enc_msg(r, d2, t);
            assert(enc_scalar(v, f, t) + rest =~= vbytes(key) + ((vbytes(body.len()) + body)
                + rest));
            lemma_varint_roundtrip_u64(key, (vbytes(body.len()) + body) + rest);
            let c = vbytes(key).len();
            assert((enc_scalar(v, f, t) + rest).skip(c as int) =~= vbytes(body.len()) + (body
                + rest));
            lemma_varint_roundtrip_u64(body.len(), body + rest);
            let c2 = vbytes(body.len()).len();
            let sub = vbytes(body.len()) + (body + rest);
            assert(sub.subrange(c2 as int, (c2 + body.len()) as int) =~= body);
            assert(sub.skip((c2 + body.len()) as int) =~= rest);
            assert(d2.offset == o);
            lemma_parse_enc_msg(t, d2, r, (depth - 1) as nat);
        },
    }
}

/// Parsing the unpacked encodings of a repeated field's elements folds them
/// all in, in order.
proof fn lemma_parse_enc_list(
    t: TableV,
    d: MsgDefV,
    k: int,
    items: Seq<ValV>,
    rest: Seq<u8>,
    depth: nat,
    acc: Map<u16, ValV>,
)
    requires
        t.wf(),
        0 <= k < d.fields.len(),
        forall|i: int, j: int|
            0 <= i < j < d.fields.len() ==> #[trigger] d.fields[i].tag
                != #[trigger] d.fields[j].tag,
        crate::descriptor::field_wf(d.fields[k], t),
        list_compat(items, d.fields[k], t),
        list_sizes_ok(items, d.fields[k], t),
        list_depth(items) <= depth,
    ensures
        parse_fields(t, d, enc_list(items, d.fields[k], t) + rest, true, depth, acc)
            == parse_fields(t, d, rest, true, depth, acc_puts(acc, d.fields[k], items)),
    decreases items, 0int,
{
    let f = d.fields[k];
    if items.len() == 0 {
        assert(enc_list(items, f, t) + rest =~= rest);
    } else {
        crate::value::lemma_list_compat_index(items, f, t);
        lemma_list_sizes_ok_index(items, f, t);
        lemma_list_depth_index(items);
        lemma_enc_list_skip(items, f, t);
        assert(enc_list(items, f, t) + rest =~= enc_scalar(items[0], f, t) + (enc_list(
            items.skip(1),
            f,
            t,
        ) + rest));
        lemma_parse_enc_scalar(t, d, k, items[0], enc_list(items.skip(1), f, t) + rest, depth, acc);
        assert forall|j: int| 0 <= j < items.skip(1).len() implies scalar_compat(
            #[trigger] items.skip(1)[j],
            f,
            t,
        ) && scalar_size_ok(items.skip(1)[j], f, t) && val_depth(items.skip(1)[j]) <= depth by {
            assert(items.skip(1)[j] == items[j + 1]);
        }
        assert(list_compat(items.skip(1), f, t)) by {
            crate::value::lemma_list_compat_index(items.skip(1), f, t);
        }
        assert(list_sizes_ok(items.skip(1), f, t)) by {
            lemma_list_sizes_ok_all(items.skip(1), f, t);
        }
        assert(list_depth(items.skip(1)) <= depth) by {
            lemma_list_depth_all(items.skip(1), depth);
        }
        lemma_parse_enc_list(t, d, k, items.skip(1), rest, depth, acc_put(acc, f, items[0]));
        assert(acc_puts(acc, f, items) == acc_puts(acc_put(acc, f, items[0]), f, items.skip(1)));
    }
}

/// Elementwise size bounds make the whole list's.
proof fn lemma_list_sizes_ok_all(items: Seq<ValV>, f: FieldDescriptor, t: TableV)
    requires
        forall|j: int| 0 <= j < items.len() ==> scalar_size_ok(#[trigger] items[j], f, t),
    ensures
        list_sizes_ok(items, f, t),
    decreases items,
{
    if items.len() > 0 {
        assert forall|j: int| 0 <= j < items.drop_last().len() implies scalar_size_ok(
            #[trigger] items.drop_last()[j],
            f,
            t,
        ) by {
            assert(items.drop_last()[j] == items[j]);
        }
        lemma_list_sizes_ok_all(items.drop_last(), f, t);
        assert(items.last() == items[items.len() - 1]);
    }
}

/// Elementwise depth bounds make the whole list's.
proof fn lemma_list_depth_all(items: Seq<ValV>, depth: nat)
    requires
        forall|j: int| 0 <= j < items.len() ==> val_depth(#[trigger] items[j]) <= depth,
    ensures
        list_depth(items) <= depth,
    decreases items,
{
    if items.len() > 0 {
        assert forall|j: int| 0 <= j < items.drop_last().len() implies val_depth(
            #[trigger] items.drop_last()[j],
        ) <= depth by {
            assert(items.drop_last()[j] == items[j]);
        }
        lemma_list_depth_all(items.drop_last(), depth);
        assert(items.last() == items[items.len() - 1]);
    }
}

/// Parsing the encodings of a record's slots from field `k0` on folds them
/// all in.
proof fn lemma_parse_enc_fields_fold(
    t: TableV,
    d: MsgDefV,
    k0: int,
    rf: Seq<(u16, ValV)>,
    rest: Seq<u8>,
    depth: nat,
    acc: Map<u16, ValV>,
)
    requires
        t.wf(),
        0 <= k0 <= d.fields.len(),
        rf.len() == d.fields.len() - k0,
        forall|i: int, j: int|
            0 <= i < j < d.fields.len() ==> #[trigger] d.fields[i].tag
                != #[trigger] d.fields[j].tag,
        forall|j: int|
            0 <= j < rf.len() ==> crate::descriptor::field_wf(#[trigger] d.fields[k0 + j], t),
        forall|j: int|
            0 <= j < rf.len() ==> slot_compat((#[trigger] rf[j]).1, d.fields[k0 + j], t),
        forall|j: int|
            0 <= j < rf.len() ==> slot_size_ok((#[trigger] rf[j]).1, d.fields[k0 + j], t),
        forall|j: int| 0 <= j < rf.len() ==> val_depth((#[trigger] rf[j]).1) <= depth,
    ensures
        parse_fields(t, d, enc_fields(rf, d.fields.skip(k0), t) + rest, true, depth, acc)
            == parse_fields(t, d, rest, true, depth, fields_acc(acc, rf, d.fields.skip(k0))),
    decreases rf, 1int,
{
    let df = d.fields.skip(k0);
    if rf.len() == 0 {
        assert(enc_fields(rf, df, t) + rest =~= rest);
    } else {
        lemma_enc_fields_skip(rf, df, t);
        let f = df[0];
        assert(f == d.fields[k0]);
        let v = rf[0].1;
        let tail = enc_fields(rf.skip(1), df.skip(1), t) + rest;
        assert(enc_fields(rf, df, t) + rest =~= enc_slot(v, f, t) + tail);
        // one slot's bytes fold its values in
        assert(parse_fields(t, d, enc_slot(v, f, t) + tail, true, depth, acc) == parse_fields(
            t,
            d,
            tail,
            true,
            depth,
            slot_acc(acc, f, v),
        )) by {
            if f.mult == Multiplicity::Repeated {
                let items = v->List_0;
                lemma_parse_enc_list(t, d, k0, items, tail, depth, acc);
                assert(list_depth(items) <= depth) by {
                    assert(val_depth(v) <= depth);
                }
            } else {
                if v is Absent {
                    assert(enc_slot(v, f, t) + tail =~= tail);
                } else {
                    lemma_parse_enc_scalar(t, d, k0, v, tail, depth, acc);
                }
            }
        }
        assert forall|j: int|
            0 <= j < rf.skip(1).len() implies crate::descriptor::field_wf(
            #[trigger] d.fields[k0 + 1 + j],
            t,
        ) && slot_compat(rf.skip(1)[j].1, d.fields[k0 + 1 + j], t) && slot_size_ok(
            rf.skip(1)[j].1,
            d.fields[k0 + 1 + j],
            t,
        ) && val_depth(rf.skip(1)[j].1) <= depth by {
            assert(rf.skip(1)[j] == rf[j + 1]);
            assert(d.fields[k0 + 1 + j] == d.fields[k0 + (j + 1)]);
        }
        lemma_parse_enc_fields_fold(
            t,
            d,
            k0 + 1,
            rf.skip(1),
            rest,
            depth,
            slot_acc(acc, f, v),
        );
        assert(df.skip(1) =~= d.fields.skip(k0 + 1));
    }
}

/// A record that fits its descriptor decodes, from its own encoding, back
/// to itself; the decoder allows experimental fields and grants at least
/// the record's nesting depth.
pub proof fn lemma_parse_enc_msg(t: TableV, d2: MsgDefV, r: RecV, depth: nat)
    requires
        t.wf(),
        0 <= (d2.offset as int) < t.msgs.len(),
        d2 == t.msgs[d2.offset as int],
        rec_compat(r, d2, t),
        fields_sizes_ok(r.fields, d2.fields, t),
        fields_depth(r.fields) <= depth,
    ensures
        parse_msg(t, d2, enc_msg(r, d2, t), true, depth) == Ok::<RecV, Error>(r),
    decreases r, 1int,
{
    assert(msg_wf(d2, t));
    crate::value::lemma_fields_compat_index(r.fields, d2.fields, t);
    lemma_fields_sizes_ok_index(r.fields, d2.fields, t);
    lemma_fields_depth_index(r.fields);
    assert forall|j: int|
        0 <= j < r.fields.len() implies crate::descriptor::field_wf(
        #[trigger] d2.fields[0 + j],
        t,
    ) && slot_compat(r.fields[j].1, d2.fields[0 + j], t) && slot_size_ok(
        r.fields[j].1,
        d2.fields[0 + j],
        t,
    ) && val_depth(r.fields[j].1) <= depth by {
        assert(d2.fields[0 + j] == d2.fields[j]);
        assert(slot_compat(r.fields[j].1, d2.fields[j], t));
        assert(slot_size_ok(r.fields[j].1, d2.fields[j], t));
    }
    assert(d2.fields.skip(0) =~= d2.fields);
    lemma_parse_enc_fields_fold(
        t,
        d2,
        0,
        r.fields,
        Seq::empty(),
        depth,
        Map::empty(),
    );
    assert(enc_fields(r.fields, d2.fields, t) + Seq::<u8>::empty() =~= enc_msg(r, d2, t));
    let facc = fields_acc(Map::empty(), r.fields, d2.fields);
    assert(parse_fields(t, d2, enc_msg(r, d2, t), true, depth, Map::empty()) == Ok::<
        Map<u16, ValV>,
        Error,
    >(facc)) by {
        assert(parse_fields(
            t,
            d2,
            Seq::<u8>::empty(),
            true,
            depth,
            facc,
        ) == Ok::<Map<u16, ValV>, Error>(facc));
    }
    // the accumulated fields hold exactly the emitting slots
    assert forall|k: int| 0 <= k < d2.fields.len() implies (slot_emits(
        (#[trigger] r.fields[k]).1,
        d2.fields[k],
    ) ==> facc.contains_key(d2.fields[k].name) && facc[d2.fields[k].name] == r.fields[k].1) && (
    !slot_emits(r.fields[k].1, d2.fields[k]) ==> !facc.contains_key(d2.fields[k].name)) by {
        lemma_fields_acc_get(Map::empty(), r.fields, d2.fields, t, k);
    }
    lemma_finalize_exact(d2.fields, r.fields, facc, t);
}


/// The first field carrying a unique name is that field itself.
proof fn lemma_field_by_name_unique(fields: Seq<FieldDescriptor>, k: int)
    requires
        0 <= k < fields.len(),
        forall|i: int, j: int|
            0 <= i < j < fields.len() ==> (#[trigger] fields[i]).name
                != (#[trigger] fields[j]).name,
    ensures
        crate::descriptor::spec_field_index_by_name(fields, fields[k].name) == Some(k),
    decreases fields.len(),
{
    if k == 0 {
    } else {
        assert(fields[0].name != fields[k].name);
        assert forall|i: int, j: int|
            0 <= i < j < fields.skip(1).len() implies (#[trigger] fields.skip(1)[i]).name
            != (#[trigger] fields.skip(1)[j]).name by {
            assert(fields.skip(1)[i] == fields[i + 1]);
            assert(fields.skip(1)[j] == fields[j + 1]);
        }
        assert(fields.skip(1)[k - 1] == fields[k]);
        lemma_field_by_name_unique(fields.skip(1), k - 1);
    }
}

/// When validation passed, every supplied entry names a field and fits it.
proof fn lemma_validate_ok(t: TableV, d: MsgDefV, values: Seq<(u16, ValV)>)
    requires
        validate_values(t, d, values) is None,
    ensures
        forall|j: int|
            0 <= j < values.len() ==> {
                let idx = crate::descriptor::spec_field_index_by_name(
                    d.fields,
                    (#[trigger] values[j]).0,
                );
                idx is Some && slot_compat(values[j].1, d.fields[idx->Some_0], t)
            },
    decreases values.len(),
{
    if values.len() > 0 {
        lemma_validate_ok(t, d, values.skip(1));
        assert forall|j: int|
            0 <= j < values.len() implies {
            let idx = crate::descriptor::spec_field_index_by_name(
                d.fields,
                (#[trigger] values[j]).0,
            );
            idx is Some && slot_compat(values[j].1, d.fields[idx->Some_0], t)
        } by {
            if j > 0 {
                assert(values.skip(1)[j - 1] == values[j]);
            }
        }
    }
}

/// What construction fills in: entries named and shaped by the descriptor.
proof fn lemma_fill_props(t: TableV, d: MsgDefV, values: Seq<(u16, ValV)>, m: int)
    requires
        0 <= m <= d.fields.len(),
        forall|i: int, j: int|
            0 <= i < j < d.fields.len() ==> (#[trigger] d.fields[i]).name
                != (#[trigger] d.fields[j]).name,
        validate_values(t, d, values) is None,
        fill_fields(d.fields.take(m), values) is Ok,
    ensures
        fill_fields(d.fields.take(m), values)->Ok_0.len() == m,
        forall|k: int|
            0 <= k < m ==> (#[trigger] fill_fields(d.fields.take(m), values)->Ok_0[k]).0
                == d.fields[k].name && slot_compat(
                fill_fields(d.fields.take(m), values)->Ok_0[k].1,
                d.fields[k],
                t,
            ),
    decreases m,
{
    if m > 0 {
        crate::decode::lemma_fill_fields_take(d.fields, values, m - 1);
        lemma_fill_props(t, d, values, m - 1);
        let f = d.fields[m - 1];
        let prev = fill_fields(d.fields.take(m - 1), values)->Ok_0;
        let cur = fill_fields(d.fields.take(m), values)->Ok_0;
        match crate::value::entry_index_of(values, f.name) {
            Some(j) => {
                crate::value::lemma_entry_index_of_props(values, f.name);
                assert(values[j].0 == f.name);
                lemma_validate_ok(t, d, values);
                let idx = crate::descriptor::spec_field_index_by_name(d.fields, values[j].0);
                assert(idx is Some && slot_compat(values[j].1, d.fields[idx->Some_0], t));
                lemma_field_by_name_unique(d.fields, m - 1);
                assert(idx == Some(m - 1));
                assert(cur == prev.push((f.name, values[j].1)));
            },
            None => {
                if f.mult == Multiplicity::Repeated {
                    assert(cur == prev.push((f.name, ValV::List(Seq::empty()))));
                    assert(slot_compat(ValV::List(Seq::empty()), f, t));
                } else {
                    assert(f.mult != Multiplicity::Required);
                    assert(cur == prev.push((f.name, ValV::Absent)));
                    assert(slot_compat(ValV::Absent, f, t));
                }
            },
        }
        assert forall|k: int| 0 <= k < m implies (#[trigger] cur[k]).0 == d.fields[k].name
            && slot_compat(cur[k].1, d.fields[k], t) by {
            if k < m - 1 {
                assert(cur[k] == prev[k]);
            }
        }
    }
}

/// A record built from validated values has exactly the descriptor's shape.
pub proof fn lemma_construct_compat(t: TableV, d: MsgDefV, values: Seq<(u16, ValV)>, r: RecV)
    requires
        t.wf(),
        0 <= (d.offset as int) < t.msgs.len(),
        d == t.msgs[d.offset as int],
        construct(t, d, values) == Ok::<RecV, Error>(r),
    ensures
        rec_compat(r, d, t),
{
    assert(msg_wf(d, t));
    assert(d.fields.take(d.fields.len() as int) =~= d.fields);
    lemma_fill_props(t, d, values, d.fields.len() as int);
    crate::value::lemma_fields_compat_index(r.fields, d.fields, t);
}

/// Round trip: a record built from admissible named values decodes, from
/// its own encoding, back to itself, field for field. The decoder allows
/// experimental fields and grants at least the record's nesting depth; the
/// byte runs the record holds fit their 64-bit length prefixes.
pub proof fn lemma_construct_round_trip(
    t: TableV,
    d: MsgDefV,
    values: Seq<(u16, ValV)>,
    r: RecV,
    depth: nat,
)
    requires
        t.wf(),
        0 <= (d.offset as int) < t.msgs.len(),
        d == t.msgs[d.offset as int],
        construct(t, d, values) == Ok::<RecV, Error>(r),
        fields_sizes_ok(r.fields, d.fields, t),
        fields_depth(r.fields) <= depth,
    ensures
        rec_compat(r, d, t),
        parse_msg(t, d, enc_msg(r, d, t), true, depth) == Ok::<RecV, Error>(r),
{
    lemma_construct_compat(t, d, values, r);
    lemma_parse_enc_msg(t, d, r, depth);
}


/// A found field is one of the descriptor's fields.
proof fn lemma_field_by_tag_member(fields: Seq<FieldDescriptor>, tag: u64)
    requires
        spec_field_by_tag(fields, tag) is Some,
    ensures
        exists|k: int|
            0 <= k < fields.len() && #[trigger] fields[k] == spec_field_by_tag(
                fields,
                tag,
            )->Some_0,
    decreases fields.len(),
{
    if fields.len() > 0 {
        if fields[0].tag as u64 == tag {
            assert(fields[0] == spec_field_by_tag(fields, tag)->Some_0);
        } else {
            lemma_field_by_tag_member(fields.skip(1), tag);
            let k = choose|k: int|
                0 <= k < fields.skip(1).len() && #[trigger] fields.skip(1)[k]
                    == spec_field_by_tag(fields.skip(1), tag)->Some_0;
            assert(fields[k + 1] == spec_field_by_tag(fields, tag)->Some_0);
        }
    }
}

/// A decoded varint value fits the field it was decoded for.
proof fn lemma_scalar_of_varint_compat(v: nat, f: FieldDescriptor, t: TableV)
    requires
        v < 0x10000000000000000,
        scalar_of_varint(v, f, t) is Ok,
    ensures
        scalar_compat(scalar_of_varint(v, f, t)->Ok_0, f, t),
{
}

/// Every value of a packed run fits its field.
proof fn lemma_parse_packed_compat(s: Seq<u8>, f: FieldDescriptor, t: TableV)
    requires
        parse_packed(s, f, t) is Ok,
    ensures
        forall|i: int|
            0 <= i < parse_packed(s, f, t)->Ok_0.len() ==> scalar_compat(
                #[trigger] parse_packed(s, f, t)->Ok_0[i],
                f,
                t,
            ),
    decreases s.len(),
{
    if s.len() > 0 {
        crate::wire::lemma_varint_parse_bound(s, 10);
        let c = varint_parse(s, 10)->Val_1;
        let v = varint_parse(s, 10)->Val_0;
        lemma_p128_values();
        lemma_scalar_of_varint_compat(v, f, t);
        lemma_parse_packed_compat(s.skip(c as int), f, t);
        let vals = parse_packed(s, f, t)->Ok_0;
        let rest = parse_packed(s.skip(c as int), f, t)->Ok_0;
        assert forall|i: int| 0 <= i < vals.len() implies scalar_compat(
            #[trigger] vals[i],
            f,
            t,
        ) by {
            if i == 0 {
                assert(vals[i] == scalar_of_varint(v, f, t)->Ok_0);
            } else {
                assert(vals[i] == rest[i - 1]);
            }
        }
    }
}

/// Whether an accumulated value fits its field: list-shaped for repeated
/// fields, a plain scalar otherwise.
pub open spec fn acc_slot_ok(v: ValV, f: FieldDescriptor, t: TableV) -> bool {
    if f.mult == Multiplicity::Repeated {
        v is List && list_compat(v->List_0, f, t)
    } else {
        scalar_compat(v, f, t)
    }
}

/// Every value the parser has accumulated fits its field.
pub open spec fn acc_ok(acc: Map<u16, ValV>, d: MsgDefV, t: TableV) -> bool {
    forall|k: int|
        0 <= k < d.fields.len() && acc.contains_key((#[trigger] d.fields[k]).name)
            ==> acc_slot_ok(acc[d.fields[k].name], d.fields[k], t)
}

/// Folding one decoded value in preserves the accumulator's soundness.
proof fn lemma_acc_put_ok(acc: Map<u16, ValV>, d: MsgDefV, t: TableV, f: FieldDescriptor, v: ValV)
    requires
        acc_ok(acc, d, t),
        msg_wf(d, t),
        exists|k: int| 0 <= k < d.fields.len() && #[trigger] d.fields[k] == f,
        scalar_compat(v, f, t),
    ensures
        acc_ok(acc_put(acc, f, v), d, t),
{
    let acc2 = acc_put(acc, f, v);
    assert forall|k: int|
        0 <= k < d.fields.len() && acc2.contains_key((#[trigger] d.fields[k]).name)
        implies acc_slot_ok(acc2[d.fields[k].name], d.fields[k], t) by {
        let kf = choose|kf: int| 0 <= kf < d.fields.len() && #[trigger] d.fields[kf] == f;
        if d.fields[k].name == f.name {
            assert(d.fields[k] == f) by {
                if k != kf {
                    assert(d.fields[k].name != d.fields[kf].name);
                }
            }
            if f.mult == Multiplicity::Repeated {
                let prev = if acc.contains_key(f.name) && acc[f.name] is List {
                    acc[f.name]->List_0
                } else {
                    Seq::empty()
                };
                assert(list_compat(prev, f, t)) by {
                    if acc.contains_key(f.name) && acc[f.name] is List {
                    } else {
                        assert(prev.len() == 0);
                    }
                }
                assert(list_compat(prev.push(v), f, t)) by {
                    assert(prev.push(v).drop_last() =~= prev);
                    assert(prev.push(v).last() == v);
                }
            }
        } else {
            assert(acc2[d.fields[k].name] == acc[d.fields[k].name]);
            assert(acc.contains_key(d.fields[k].name));
        }
    }
}

/// Folding a packed run in preserves the accumulator's soundness.
proof fn lemma_acc_put_packed_ok(
    acc: Map<u16, ValV>,
    d: MsgDefV,
    t: TableV,
    f: FieldDescriptor,
    vals: Seq<ValV>,
)
    requires
        acc_ok(acc, d, t),
        msg_wf(d, t),
        exists|k: int| 0 <= k < d.fields.len() && #[trigger] d.fields[k] == f,
        f.mult == Multiplicity::Repeated,
        forall|i: int| 0 <= i < vals.len() ==> scalar_compat(#[trigger] vals[i], f, t),
    ensures
        acc_ok(acc_put_packed(acc, f, vals), d, t),
{
    let acc2 = acc_put_packed(acc, f, vals);
    let prev = if acc.contains_key(f.name) && acc[f.name] is List {
        acc[f.name]->List_0
    } else {
        Seq::empty()
    };
    let kf = choose|kf: int| 0 <= kf < d.fields.len() && #[trigger] d.fields[kf] == f;
    assert(list_compat(prev, f, t)) by {
        if acc.contains_key(f.name) && acc[f.name] is List {
        } else {
            assert(prev.len() == 0);
        }
    }
    assert(list_compat(prev + vals, f, t)) by {
        crate::value::lemma_list_compat_index(prev, f, t);
        crate::value::lemma_list_compat_index(prev + vals, f, t);
        assert forall|i: int| 0 <= i < (prev + vals).len() implies scalar_compat(
            #[trigger] (prev + vals)[i],
            f,
            t,
        ) by {
            if i < prev.len() {
                assert((prev + vals)[i] == prev[i]);
            } else {
                assert((prev + vals)[i] == vals[i - prev.len()]);
            }
        }
    }
    assert forall|k: int|
        0 <= k < d.fields.len() && acc2.contains_key((#[trigger] d.fields[k]).name)
        implies acc_slot_ok(acc2[d.fields[k].name], d.fields[k], t) by {
        if d.fields[k].name == f.name {
            assert(d.fields[k] == f) by {
                if k != kf {
                    assert(d.fields[k].name != d.fields[kf].name);
                }
            }
        } else {
            assert(acc2[d.fields[k].name] == acc[d.fields[k].name]);
            assert(acc.contains_key(d.fields[k].name));
        }
    }
}

/// Whatever the parser accumulates from sound state stays sound.
#[verifier::rlimit(100)]
#[verifier::spinoff_prover]
proof fn lemma_parse_fields_ok(
    t: TableV,
    d: MsgDefV,
    s: Seq<u8>,
    allow: bool,
    depth: nat,
    acc: Map<u16, ValV>,
)
    requires
        t.wf(),
        0 <= (d.offset as int) < t.msgs.len(),
        d == t.msgs[d.offset as int],
        acc_ok(acc, d, t),
        parse_fields(t, d, s, allow, depth, acc) is Ok,
    ensures
        acc_ok(parse_fields(t, d, s, allow, depth, acc)->Ok_0, d, t),
    decreases depth, s.len(), 0int,
{
    assert(msg_wf(d, t));
    if s.len() == 0 {
    } else {
        crate::wire::lemma_varint_parse_bound(s, 10);
        lemma_p128_values();
        let key = varint_parse(s, 10)->Val_0;
        let c = varint_parse(s, 10)->Val_1;
        let fieldnum = (key / 8) as u64;
        let wire = key % 8;
        let rest = s.skip(c as int);
        let lookup = spec_field_by_tag(d.fields, fieldnum);
        let known = match lookup {
            Some(f) => !(f.experimental && !allow),
            None => false,
        };
        if !known {
            lemma_skip_parse_bound_laws(wire, rest);
            let consumed = skip_parse(wire, rest)->Ok_0;
            lemma_parse_fields_ok(t, d, rest.skip(consumed), allow, depth, acc);
        } else {
            let f = lookup->Some_0;
            lemma_field_by_tag_member(d.fields, fieldnum);
            let dw = kind_wire(f.kind).num() as nat;
            crate::wire::lemma_varint_parse_bound(rest, 10);
            if f.mult == Multiplicity::Repeated && dw == 0 && wire == 2 {
                let l = varint_parse(rest, 10)->Val_0;
                let c2 = varint_parse(rest, 10)->Val_1;
                let run = rest.subrange(c2 as int, (c2 + l) as int);
                lemma_parse_packed_compat(run, f, t);
                lemma_acc_put_packed_ok(acc, d, t, f, parse_packed(run, f, t)->Ok_0);
                lemma_parse_fields_ok(
                    t,
                    d,
                    rest.skip((c2 + l) as int),
                    allow,
                    depth,
                    acc_put_packed(acc, f, parse_packed(run, f, t)->Ok_0),
                );
            } else if dw == 0 {
                let v = varint_parse(rest, 10)->Val_0;
                let c2 = varint_parse(rest, 10)->Val_1;
                lemma_scalar_of_varint_compat(v, f, t);
                lemma_acc_put_ok(acc, d, t, f, scalar_of_varint(v, f, t)->Ok_0);
                lemma_parse_fields_ok(
                    t,
                    d,
                    rest.skip(c2 as int),
                    allow,
                    depth,
                    acc_put(acc, f, scalar_of_varint(v, f, t)->Ok_0),
                );
            } else {
                let l = varint_parse(rest, 10)->Val_0;
                let c2 = varint_parse(rest, 10)->Val_1;
                let body = rest.subrange(c2 as int, (c2 + l) as int);
                let after = rest.skip((c2 + l) as int);
                match f.kind {
                    FieldKind::Str | FieldKind::Bytes => {
                        assert(scalar_compat(ValV::Bytes(body), f, t));
                        lemma_acc_put_ok(acc, d, t, f, ValV::Bytes(body));
                        lemma_parse_fields_ok(
                            t,
                            d,
                            after,
                            allow,
                            depth,
                            acc_put(acc, f, ValV::Bytes(body)),
                        );
                    },
                    FieldKind::Msg => {
                        let o = f.msg_offset->Some_0;
                        let d2 = t.msgs[o as int];
                        assert(crate::descriptor::field_wf(f, t));
                        assert(d2.offset == o);
                        let r = parse_msg(t, d2, body, allow, (depth - 1) as nat)->Ok_0;
                        lemma_parse_msg_compat(t, d2, body, allow, (depth - 1) as nat);
                        assert(scalar_compat(ValV::Msg(r), f, t));
                        lemma_acc_put_ok(acc, d, t, f, ValV::Msg(r));
                        lemma_parse_fields_ok(
                            t,
                            d,
                            after,
                            allow,
                            depth,
                            acc_put(acc, f, ValV::Msg(r)),
                        );
                    },
                    _ => {},
                }
            }
        }
    }
}

/// `skip_parse` bounds, for the suffix measure.
proof fn lemma_skip_parse_bound_laws(wire: nat, s: Seq<u8>)
    ensures
        skip_parse(wire, s) matches Ok(c) ==> 1 <= c <= s.len(),
{
    crate::wire::lemma_varint_parse_bound(s, 10);
}

/// Filling sound accumulated fields in yields sound slots.
proof fn lemma_finalize_ok(m: int, acc: Map<u16, ValV>, d: MsgDefV, t: TableV)
    requires
        0 <= m <= d.fields.len(),
        finalize(d.fields.take(m), acc) is Ok,
        acc_ok(acc, d, t),
        msg_wf(d, t),
    ensures
        finalize(d.fields.take(m), acc)->Ok_0.len() == m,
        forall|k: int|
            0 <= k < m ==> (#[trigger] finalize(d.fields.take(m), acc)->Ok_0[k]).0
                == d.fields[k].name && slot_compat(
                finalize(d.fields.take(m), acc)->Ok_0[k].1,
                d.fields[k],
                t,
            ),
    decreases m,
{
    if m > 0 {
        assert(d.fields.take(m).drop_last() =~= d.fields.take(m - 1));
        assert(d.fields.take(m).last() == d.fields[m - 1]);
        lemma_finalize_ok(m - 1, acc, d, t);
        let f = d.fields[m - 1];
        let entries = finalize(d.fields.take(m), acc)->Ok_0;
        let prev = finalize(d.fields.take(m - 1), acc)->Ok_0;
        if acc.contains_key(f.name) {
            assert(entries == prev.push((f.name, acc[f.name])));
            assert(acc_slot_ok(acc[f.name], f, t));
            assert(slot_compat(acc[f.name], f, t));
        } else if f.mult == Multiplicity::Repeated {
            assert(entries == prev.push((f.name, ValV::List(Seq::empty()))));
        } else {
            assert(entries == prev.push((f.name, ValV::Absent)));
            assert(f.mult != Multiplicity::Required);
        }
        assert forall|k: int| 0 <= k < m implies (#[trigger] entries[k]).0 == d.fields[k].name
            && slot_compat(entries[k].1, d.fields[k], t) by {
            if k < m - 1 {
                assert(entries[k] == prev[k]);
            }
        }
    }
}

/// Whatever a buffer decodes to has exactly the descriptor's shape, so a
/// decoded record can always go back through the encoder.
#[verifier::rlimit(100)]
#[verifier::spinoff_prover]
pub proof fn lemma_parse_msg_compat(t: TableV, d: MsgDefV, s: Seq<u8>, allow: bool, depth: nat)
    requires
        t.wf(),
        0 <= (d.offset as int) < t.msgs.len(),
        d == t.msgs[d.offset as int],
        parse_msg(t, d, s, allow, depth) is Ok,
    ensures
        rec_compat(parse_msg(t, d, s, allow, depth)->Ok_0, d, t),
    decreases depth, s.len(), 1int,
{
    assert(msg_wf(d, t));
    assert(acc_ok(Map::empty(), d, t));
    lemma_parse_fields_ok(t, d, s, allow, depth, Map::empty());
    let acc = parse_fields(t, d, s, allow, depth, Map::empty())->Ok_0;
    assert(d.fields.take(d.fields.len() as int) =~= d.fields);
    lemma_finalize_ok(d.fields.len() as int, acc, d, t);
    let r = parse_msg(t, d, s, allow, depth)->Ok_0;
    crate::value::lemma_fields_compat_index(r.fields, d.fields, t);
}

} // verus!
