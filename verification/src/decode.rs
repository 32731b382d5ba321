//! Decoder: turns untrusted wire bytes into records, tolerating unknown
//! fields, enforcing wire types, and bounding nesting depth; also builds
//! records directly from caller-supplied named values.

use vstd::prelude::*;
use crate::descriptor::{
    kind_wire, kind_wire_of, spec_enum_allows, spec_field_by_tag, DescriptorTable, FieldDescriptor,
    FieldKind, MsgDef, MsgDefV, Multiplicity, TableV,
};
use crate::err::Error;
use crate::value::{
    fields_compat, names_unique, pairs_view, rec_compat, scalar_compat, slot_compat, value_view,
    FieldMap, MsgObj, RecV, ValV, Value,
};
use crate::wire::{varint_parse, VarParse};

verus! {

broadcast use vstd::std_specs::vec::axiom_vec_decreases_to_view, vstd::seq::axiom_seq_index_decreases;

/// Deepest message nesting the decoder will follow; bounds recursion on
/// attacker-controlled input.
pub const MAX_NESTING_DEPTH: usize = 16;

/// Bytes an unknown field's value occupies at the head of `s`, by the wire
/// type announced in its tag.
pub open spec fn skip_parse(wire: nat, s: Seq<u8>) -> Result<int, Error> {
    if wire == 0 {
        match varint_parse(s, 10) {
            VarParse::Val(_, c) => Ok(c as int),
            VarParse::Trunc => Err(Error::TruncatedInput),
            VarParse::Malformed => Err(Error::MalformedVarint),
        }
    } else if wire == 1 {
        if s.len() >= 8 {
            Ok(8)
        } else {
            Err(Error::TruncatedInput)
        }
    } else if wire == 5 {
        if s.len() >= 4 {
            Ok(4)
        } else {
            Err(Error::TruncatedInput)
        }
    } else if wire == 2 {
        match varint_parse(s, 10) {
            VarParse::Val(l, c) => if c + l <= s.len() {
                Ok(c + l as int)
            } else {
                Err(Error::TruncatedInput)
            },
            VarParse::Trunc => Err(Error::TruncatedInput),
            VarParse::Malformed => Err(Error::MalformedVarint),
        }
    } else {
        Err(Error::WireTypeMismatch)
    }
}

pub proof fn lemma_skip_parse_bound(wire: nat, s: Seq<u8>)
    ensures
        skip_parse(wire, s) matches Ok(c) ==> 1 <= c <= s.len(),
{
    crate::wire::lemma_varint_parse_bound(s, 10);
}

/// The value a varint carries for a field of a varint kind.
pub open spec fn scalar_of_varint(v: nat, f: FieldDescriptor, t: TableV) -> Result<ValV, Error> {
    match f.kind {
        FieldKind::Int => Ok(ValV::Int(v as int)),
        FieldKind::Sint => Ok(ValV::Int(crate::wire::zigzag_dec(v))),
        FieldKind::Bool => Ok(ValV::Bool(v != 0)),
        FieldKind::Enum => if f.enum_id matches Some(e) && (e as int) < t.enums.len()
            && spec_enum_allows(t.enums[e as int], v as u64) {
            Ok(ValV::Int(v as int))
        } else {
            Err(Error::TypeMismatch)
        },
        _ => Err(Error::WireTypeMismatch),
    }
}

/// Values of one packed run: varints parsed back to back until the run is
/// exhausted.
pub open spec fn parse_packed(s: Seq<u8>, f: FieldDescriptor, t: TableV) -> Result<Seq<ValV>, Error>
    decreases s.len(),
    via parse_packed_dec
{
    if s.len() == 0 {
        Ok(Seq::empty())
    } else {
        match varint_parse(s, 10) {
            VarParse::Trunc => Err(Error::TruncatedInput),
            VarParse::Malformed => Err(Error::MalformedVarint),
            VarParse::Val(v, c) => match scalar_of_varint(v, f, t) {
                Err(e) => Err(e),
                Ok(val) => match parse_packed(s.skip(c as int), f, t) {
                    Err(e) => Err(e),
                    Ok(rest) => Ok(seq![val] + rest),
                },
            },
        }
    }
}

#[via_fn]
proof fn parse_packed_dec(s: Seq<u8>, f: FieldDescriptor, t: TableV) {
    crate::wire::lemma_varint_parse_bound(s, 10);
}

/// Adds one decoded value of field `f` to the accumulated fields: repeated
/// fields grow their list, others keep the latest value.
pub open spec fn acc_put(acc: Map<u16, ValV>, f: FieldDescriptor, v: ValV) -> Map<u16, ValV> {
    if f.mult == Multiplicity::Repeated {
        let prev = if acc.contains_key(f.name) && acc[f.name] is List {
            acc[f.name]->List_0
        } else {
            Seq::empty()
        };
        acc.insert(f.name, ValV::List(prev.push(v)))
    } else {
        acc.insert(f.name, v)
    }
}

/// Adds a packed run's values to the accumulated fields.
pub open spec fn acc_put_packed(acc: Map<u16, ValV>, f: FieldDescriptor, vals: Seq<ValV>) -> Map<
    u16,
    ValV,
> {
    let prev = if acc.contains_key(f.name) && acc[f.name] is List {
        acc[f.name]->List_0
    } else {
        Seq::empty()
    };
    acc.insert(f.name, ValV::List(prev + vals))
}

/// Reads tag/value pairs from `s` until it is exhausted, accumulating
/// decoded fields; unknown tags and gated experimental fields are skipped
/// by their wire type.
pub open spec fn parse_fields(
    t: TableV,
    d: MsgDefV,
    s: Seq<u8>,
    allow: bool,
    depth: nat,
    acc: Map<u16, ValV>,
) -> Result<Map<u16, ValV>, Error>
    decreases depth, s.len(), 0int,
    via parse_fields_dec
{
    if s.len() == 0 {
        Ok(acc)
    } else {
        match varint_parse(s, 10) {
            VarParse::Trunc => Err(Error::TruncatedInput),
            VarParse::Malformed => Err(Error::MalformedVarint),
            VarParse::Val(key, c) => {
                let fieldnum = (key / 8) as u64;
                let wire = key % 8;
                let rest = s.skip(c as int);
                let lookup = spec_field_by_tag(d.fields, fieldnum);
                let known = match lookup {
                    Some(f) => !(f.experimental && !allow),
                    None => false,
                };
                if !known {
                    match skip_parse(wire, rest) {
                        Err(e) => Err(e),
                        Ok(consumed) => parse_fields(t, d, rest.skip(consumed), allow, depth, acc),
                    }
                } else {
                    let f = lookup->Some_0;
                    let dw = kind_wire(f.kind).num() as nat;
                    if f.mult == Multiplicity::Repeated && dw == 0 && wire == 2 {
                        match varint_parse(rest, 10) {
                            VarParse::Trunc => Err(Error::TruncatedInput),
                            VarParse::Malformed => Err(Error::MalformedVarint),
                            VarParse::Val(l, c2) => if c2 + l > rest.len() {
                                Err(Error::TruncatedInput)
                            } else {
                                match parse_packed(rest.subrange(c2 as int, (c2 + l) as int), f, t) {
                                    Err(e) => Err(e),
                                    Ok(vals) => parse_fields(
                                        t,
                                        d,
                                        rest.skip(c2 + l as int),
                                        allow,
                                        depth,
                                        acc_put_packed(acc, f, vals),
                                    ),
                                }
                            },
                        }
                    } else if wire != dw {
                        Err(Error::WireTypeMismatch)
                    } else if dw == 0 {
                        match varint_parse(rest, 10) {
                            VarParse::Trunc => Err(Error::TruncatedInput),
                            VarParse::Malformed => Err(Error::MalformedVarint),
                            VarParse::Val(v, c2) => match scalar_of_varint(v, f, t) {
                                Err(e) => Err(e),
                                Ok(val) => parse_fields(
                                    t,
                                    d,
                                    rest.skip(c2 as int),
                                    allow,
                                    depth,
                                    acc_put(acc, f, val),
                                ),
                            },
                        }
                    } else {
                        match varint_parse(rest, 10) {
                            VarParse::Trunc => Err(Error::TruncatedInput),
                            VarParse::Malformed => Err(Error::MalformedVarint),
                            VarParse::Val(l, c2) => if c2 + l > rest.len() {
                                Err(Error::TruncatedInput)
                            } else {
                                let body = rest.subrange(c2 as int, (c2 + l) as int);
                                let after = rest.skip(c2 + l as int);
                                match f.kind {
                                    FieldKind::Str | FieldKind::Bytes => parse_fields(
                                        t,
                                        d,
                                        after,
                                        allow,
                                        depth,
                                        acc_put(acc, f, ValV::Bytes(body)),
                                    ),
                                    FieldKind::Msg => if depth == 0 {
                                        Err(Error::NestingTooDeep)
                                    } else {
                                        match parse_msg(
                                            t,
                                            t.msgs[f.msg_offset->Some_0 as int],
                                            body,
                                            allow,
                                            (depth - 1) as nat,
                                        ) {
                                            Err(e) => Err(e),
                                            Ok(r) => parse_fields(
                                                t,
                                                d,
                                                after,
                                                allow,
                                                depth,
                                                acc_put(acc, f, ValV::Msg(r)),
                                            ),
                                        }
                                    },
                                    _ => Err(Error::WireTypeMismatch),
                                }
                            },
                        }
                    }
                }
            },
        }
    }
}

#[via_fn]
proof fn parse_fields_dec(
    t: TableV,
    d: MsgDefV,
    s: Seq<u8>,
    allow: bool,
    depth: nat,
    acc: Map<u16, ValV>,
) {
    crate::wire::lemma_varint_parse_bound(s, 10);
    if varint_parse(s, 10) is Val {
        let c = varint_parse(s, 10)->Val_1 as int;
        let key = varint_parse(s, 10)->Val_0;
        let wire = key % 8;
        let rest = s.skip(c);
        lemma_skip_parse_bound(wire, rest);
        crate::wire::lemma_varint_parse_bound(rest, 10);
    }
}

/// Fills a record's slots from accumulated fields in declaration order:
/// required fields must have arrived, optional ones default to absent,
/// repeated ones to the empty list.
pub open spec fn finalize(fields: Seq<FieldDescriptor>, acc: Map<u16, ValV>) -> Result<
    Seq<(u16, ValV)>,
    Error,
>
    decreases fields.len(),
{
    if fields.len() == 0 {
        Ok(Seq::empty())
    } else {
        match finalize(fields.drop_last(), acc) {
            Err(e) => Err(e),
            Ok(entries) => {
                let f = fields.last();
                if acc.contains_key(f.name) {
                    Ok(entries.push((f.name, acc[f.name])))
                } else if f.mult == Multiplicity::Required {
                    Err(Error::MissingRequiredField)
                } else if f.mult == Multiplicity::Repeated {
                    Ok(entries.push((f.name, ValV::List(Seq::empty()))))
                } else {
                    Ok(entries.push((f.name, ValV::Absent)))
                }
            },
        }
    }
}

/// The record a byte buffer decodes to against descriptor `d`, or the first
/// error on the way; the whole wire-format grammar of one message.
pub open spec fn parse_msg(t: TableV, d: MsgDefV, s: Seq<u8>, allow: bool, depth: nat) -> Result<
    RecV,
    Error,
>
    decreases depth, s.len(), 1int,
{
    match parse_fields(t, d, s, allow, depth, Map::empty()) {
        Err(e) => Err(e),
        Ok(acc) => match finalize(d.fields, acc) {
            Err(e) => Err(e),
            Ok(entries) => Ok(RecV { wire_id: d.wire_id, offset: d.offset, fields: entries }),
        },
    }
}


/// The accumulated-field map that a slot array and seen flags stand for.
pub open spec fn acc_of(df: Seq<FieldDescriptor>, sv: Seq<ValV>, seen: Seq<bool>) -> Map<u16, ValV>
    decreases df.len(),
{
    if df.len() == 0 {
        Map::empty()
    } else {
        let m = acc_of(df.drop_last(), sv.drop_last(), seen.drop_last());
        if seen.last() {
            m.insert(df.last().name, sv.last())
        } else {
            m
        }
    }
}

/// Distinct names per field.
pub open spec fn field_names_unique(df: Seq<FieldDescriptor>) -> bool {
    forall|i: int, j: int|
        0 <= i < j < df.len() ==> (#[trigger] df[i]).name != (#[trigger] df[j]).name
}

proof fn lemma_acc_of_empty(df: Seq<FieldDescriptor>, sv: Seq<ValV>, seen: Seq<bool>)
    requires
        sv.len() == df.len(),
        seen.len() == df.len(),
        forall|i: int| 0 <= i < seen.len() ==> !(#[trigger] seen[i]),
    ensures
        acc_of(df, sv, seen) == Map::<u16, ValV>::empty(),
    decreases df.len(),
{
    if df.len() > 0 {
        lemma_acc_of_empty(df.drop_last(), sv.drop_last(), seen.drop_last());
        assert(!seen.last());
    }
}

proof fn lemma_acc_of_get(df: Seq<FieldDescriptor>, sv: Seq<ValV>, seen: Seq<bool>, i: int)
    requires
        sv.len() == df.len(),
        seen.len() == df.len(),
        field_names_unique(df),
        0 <= i < df.len(),
    ensures
        seen[i] ==> acc_of(df, sv, seen).contains_key(df[i].name) && acc_of(df, sv, seen)[df[i].name]
            == sv[i],
        !seen[i] ==> !acc_of(df, sv, seen).contains_key(df[i].name),
    decreases df.len(),
{
    if i == df.len() - 1 {
        if !seen[i] {
            lemma_acc_of_not_contains(df.drop_last(), sv.drop_last(), seen.drop_last(), df[i].name);
        }
    } else {
        assert(df.drop_last()[i] == df[i]);
        assert(sv.drop_last()[i] == sv[i]);
        assert(seen.drop_last()[i] == seen[i]);
        lemma_acc_of_get(df.drop_last(), sv.drop_last(), seen.drop_last(), i);
        assert(df[i].name != df.last().name);
    }
}

/// A name outside the fields never appears in the accumulated map.
proof fn lemma_acc_of_not_contains(
    df: Seq<FieldDescriptor>,
    sv: Seq<ValV>,
    seen: Seq<bool>,
    name: u16,
)
    requires
        sv.len() == df.len(),
        seen.len() == df.len(),
        forall|i: int| 0 <= i < df.len() ==> (#[trigger] df[i]).name != name,
    ensures
        !acc_of(df, sv, seen).contains_key(name),
    decreases df.len(),
{
    if df.len() > 0 {
        assert forall|i: int| 0 <= i < df.drop_last().len() implies (#[trigger] df.drop_last()[
            i
        ]).name != name by {
            assert(df.drop_last()[i] == df[i]);
        }
        lemma_acc_of_not_contains(df.drop_last(), sv.drop_last(), seen.drop_last(), name);
        assert(df.last() == df[df.len() - 1]);
    }
}

proof fn lemma_acc_of_update(
    df: Seq<FieldDescriptor>,
    sv: Seq<ValV>,
    seen: Seq<bool>,
    i: int,
    v: ValV,
)
    requires
        sv.len() == df.len(),
        seen.len() == df.len(),
        field_names_unique(df),
        0 <= i < df.len(),
    ensures
        acc_of(df, sv.update(i, v), seen.update(i, true)) == acc_of(df, sv, seen).insert(
            df[i].name,
            v,
        ),
    decreases df.len(),
{
    let n = df.len() as int;
    if i == n - 1 {
        assert(sv.update(i, v).drop_last() =~= sv.drop_last());
        assert(seen.update(i, true).drop_last() =~= seen.drop_last());
        assert(sv.update(i, v).last() == v);
        assert(seen.update(i, true).last() == true);
        let m = acc_of(df.drop_last(), sv.drop_last(), seen.drop_last());
        if seen.last() {
            assert(m.insert(df.last().name, sv.last()).insert(df[i].name, v) =~= m.insert(
                df[i].name,
                v,
            ));
        }
    } else {
        assert(sv.update(i, v).drop_last() =~= sv.drop_last().update(i, v));
        assert(seen.update(i, true).drop_last() =~= seen.drop_last().update(i, true));
        assert(sv.update(i, v).last() == sv.last());
        assert(seen.update(i, true).last() == seen.last());
        assert forall|a: int, b: int|
            0 <= a < b < df.drop_last().len() implies (#[trigger] df.drop_last()[a]).name
            != (#[trigger] df.drop_last()[b]).name by {
            assert(df.drop_last()[a] == df[a]);
            assert(df.drop_last()[b] == df[b]);
        }
        assert(df.drop_last()[i] == df[i]);
        lemma_acc_of_update(df.drop_last(), sv.drop_last(), seen.drop_last(), i, v);
        if seen.last() {
            let m = acc_of(df.drop_last(), sv.drop_last(), seen.drop_last());
            assert(df[i].name != df.last().name);
            assert(m.insert(df[i].name, v).insert(df.last().name, sv.last()) =~= m.insert(
                df.last().name,
                sv.last(),
            ).insert(df[i].name, v));
        }
    }
}

/// Copies `buf[from..to]` into an owned byte vector.
fn copy_range(buf: &[u8], from: usize, to: usize) -> (r: Vec<u8>)
    requires
        from <= to <= buf@.len(),
    ensures
        r@ == buf@.subrange(from as int, to as int),
{
    let mut r: Vec<u8> = Vec::new();
    let mut j: usize = from;
    while j < to
        invariant
            from <= j <= to <= buf@.len(),
            r@ =~= buf@.subrange(from as int, j as int),
        decreases to - j,
    {
        r.push(buf[j]);
        proof {
            assert(r@ =~= buf@.subrange(from as int, j + 1));
        }
        j += 1;
    }
    r
}

/// Advances past one unknown field's value, by its wire type.
fn skip_value(buf: &[u8], pos: usize, end: usize, wire: u64) -> (r: Result<usize, Error>)
    requires
        pos <= end <= buf@.len(),
    ensures
        match r {
            Ok(np) => skip_parse(wire as nat, buf@.subrange(pos as int, end as int)) == Ok::<
                int,
                Error,
            >(np - pos) && pos < np <= end,
            Err(e) => skip_parse(wire as nat, buf@.subrange(pos as int, end as int)) == Err::<
                int,
                Error,
            >(e),
        },
{
    let ghost s = buf@.subrange(pos as int, end as int);
    proof {
        crate::wire::lemma_varint_parse_bound(s, 10);
    }
    if wire == 0 {
        match crate::wire::read_varint_at(buf, pos, end) {
            Ok((_, np)) => Ok(np),
            Err(e) => Err(e),
        }
    } else if wire == 1 {
        if end - pos >= 8 {
            Ok(pos + 8)
        } else {
            Err(Error::TruncatedInput)
        }
    } else if wire == 5 {
        if end - pos >= 4 {
            Ok(pos + 4)
        } else {
            Err(Error::TruncatedInput)
        }
    } else if wire == 2 {
        match crate::wire::read_varint_at(buf, pos, end) {
            Ok((l, np)) => {
                if l <= (end - np) as u64 {
                    Ok(np + l as usize)
                } else {
                    Err(Error::TruncatedInput)
                }
            },
            Err(e) => Err(e),
        }
    } else {
        Err(Error::WireTypeMismatch)
    }
}

/// Turns one varint payload into the value of a varint-kind field.
fn varint_to_value(table: &DescriptorTable, v: u64, f: &FieldDescriptor) -> (r: Result<
    Value,
    Error,
>)
    requires
        table@.wf(),
        crate::descriptor::field_wf(*f, table@),
        kind_wire(f.kind) == crate::wire::WireType::Varint,
    ensures
        match r {
            Ok(val) => scalar_of_varint(v as nat, *f, table@) == Ok::<ValV, Error>(val@),
            Err(e) => scalar_of_varint(v as nat, *f, table@) == Err::<ValV, Error>(e),
        },
{
    match f.kind {
        FieldKind::Int => Ok(Value::Int(v as i128)),
        FieldKind::Sint => Ok(Value::Int(crate::wire::zigzag_decode(v) as i128)),
        FieldKind::Bool => Ok(Value::Bool(v != 0)),
        FieldKind::Enum => {
            let enum_id = match f.enum_id {
                Some(e) => e,
                None => {
                    proof {
                        assert(false);
                    }
                    return Err(Error::TypeMismatch);
                },
            };
            if table.enum_allows(enum_id, v) {
                Ok(Value::Int(v as i128))
            } else {
                Err(Error::TypeMismatch)
            }
        },
        _ => {
            proof {
                assert(false);
            }
            Err(Error::WireTypeMismatch)
        },
    }
}

/// Stores one decoded value into a field's slot: repeated fields grow their
/// list, others keep the latest value.
fn slot_put(slot: &mut Value, repeated: bool, v: Value) -> (r: ())
    ensures
        value_view(*final(slot)) == (if repeated {
            let prev = if value_view(*old(slot)) is List {
                value_view(*old(slot))->List_0
            } else {
                Seq::empty()
            };
            ValV::List(prev.push(value_view(v)))
        } else {
            value_view(v)
        }),
{
    if !repeated {
        *slot = v;
    } else {
        let mut tmp = Value::Absent;
        core::mem::swap(&mut tmp, slot);
        match tmp {
            Value::List(mut items) => {
                let ghost old_items = items@;
                items.push(v);
                proof {
                    assert(items@.drop_last() =~= old_items);
                    assert(items@.last() == v);
                    crate::value::lemma_list_view_len(old_items);
                    assert(crate::value::list_view(items@) == crate::value::list_view(
                        old_items,
                    ).push(value_view(v)));
                }
                *slot = Value::List(items);
            },
            _ => {
                let items = vec![v];
                proof {
                    assert(items@ =~= seq![v]);
                    assert(items@.drop_last() =~= Seq::<Value>::empty());
                    assert(items@.last() == v);
                    assert(crate::value::list_view(Seq::<Value>::empty()) == Seq::<ValV>::empty());
                    assert(crate::value::list_view(items@) == Seq::<ValV>::empty().push(
                        value_view(v),
                    ));
                }
                *slot = Value::List(items);
            },
        }
    }
}

/// Appends a packed run's values to a repeated field's slot.
fn slot_extend(slot: &mut Value, vals: Vec<Value>) -> (r: ())
    ensures
        value_view(*final(slot)) == (
            {
                let prev = if value_view(*old(slot)) is List {
                    value_view(*old(slot))->List_0
                } else {
                    Seq::empty()
                };
                ValV::List(prev + crate::value::list_view(vals@))
            }
        ),
{
    let ghost vals0 = vals@;
    let mut vals = vals;
    let mut tmp = Value::Absent;
    core::mem::swap(&mut tmp, slot);
    match tmp {
        Value::List(mut items) => {
            let ghost old_items = items@;
            items.append(&mut vals);
            proof {
                lemma_list_view_concat(old_items, vals0);
            }
            *slot = Value::List(items);
        },
        _ => {
            proof {
                lemma_list_view_concat(Seq::<Value>::empty(), vals0);
                assert(Seq::<Value>::empty() + vals0 =~= vals0);
                assert(crate::value::list_view(Seq::<Value>::empty()) + crate::value::list_view(
                    vals0,
                ) =~= crate::value::list_view(vals0));
            }
            *slot = Value::List(vals);
        },
    }
}

/// The view of a concatenation is the concatenation of the views.
pub proof fn lemma_list_view_concat(a: Seq<Value>, b: Seq<Value>)
    ensures
        crate::value::list_view(a + b) == crate::value::list_view(a) + crate::value::list_view(b),
    decreases b.len(),
{
    if b.len() == 0 {
        assert(a + b =~= a);
        assert(crate::value::list_view(a) + crate::value::list_view(b) =~= crate::value::list_view(
            a,
        ));
    } else {
        lemma_list_view_concat(a, b.drop_last());
        assert((a + b).drop_last() =~= a + b.drop_last());
        assert((a + b).last() == b.last());
        assert(crate::value::list_view(a) + crate::value::list_view(b) =~= (crate::value::list_view(
            a,
        ) + crate::value::list_view(b.drop_last())).push(value_view(b.last())));
    }
}



/// An error while finalizing any prefix of the fields is the error of the
/// whole.
proof fn lemma_finalize_err_mono(fields: Seq<FieldDescriptor>, acc: Map<u16, ValV>, k: int)
    requires
        0 <= k <= fields.len(),
        finalize(fields.take(k), acc) is Err,
    ensures
        finalize(fields, acc) == finalize(fields.take(k), acc),
    decreases fields.len(),
{
    if k == fields.len() {
        assert(fields.take(k) =~= fields);
    } else {
        assert(fields.drop_last().take(k) =~= fields.take(k));
        lemma_finalize_err_mono(fields.drop_last(), acc, k);
    }
}

/// One step of the finalize recursion, front to back.
proof fn lemma_finalize_take(fields: Seq<FieldDescriptor>, acc: Map<u16, ValV>, i: int)
    requires
        0 <= i < fields.len(),
    ensures
        finalize(fields.take(i + 1), acc) == (match finalize(fields.take(i), acc) {
            Err(e) => Err::<Seq<(u16, ValV)>, Error>(e),
            Ok(entries) => {
                let f = fields[i];
                if acc.contains_key(f.name) {
                    Ok(entries.push((f.name, acc[f.name])))
                } else if f.mult == Multiplicity::Required {
                    Err(Error::MissingRequiredField)
                } else if f.mult == Multiplicity::Repeated {
                    Ok(entries.push((f.name, ValV::List(Seq::empty()))))
                } else {
                    Ok(entries.push((f.name, ValV::Absent)))
                }
            },
        }),
{
    assert(fields.take(i + 1).drop_last() =~= fields.take(i));
    assert(fields.take(i + 1).last() == fields[i]);
}


/// Parses one known field's value at `p1` and folds it into the slots;
/// hands back the position after the value.
#[verifier::rlimit(100)]
fn handle_known(
    table: &DescriptorTable,
    buf: &[u8],
    d: &MsgDef,
    i: usize,
    key: u64,
    pos: usize,
    p1: usize,
    end: usize,
    slots: &mut Vec<Value>,
    seen: &mut Vec<bool>,
    allow: bool,
    depth: usize,
) -> (r: Result<usize, Error>)
    requires
        table@.wf(),
        d@ == table@.msgs[d@.offset as int],
        0 <= (d@.offset as int) < table@.msgs.len(),
        i < d@.fields.len(),
        pos <= p1 <= end <= buf@.len(),
        pos < p1,
        varint_parse(buf@.subrange(pos as int, end as int), 10) == VarParse::Val(
            key as nat,
            (p1 - pos) as nat,
        ),
        spec_field_by_tag(d@.fields, key / 8) == Some(d@.fields[i as int]),
        !(d@.fields[i as int].experimental && !allow),
        old(slots)@.len() == d@.fields.len(),
        old(seen)@.len() == d@.fields.len(),
        forall|j: int|
            0 <= j < d@.fields.len() && !old(seen)@[j]
                ==> #[trigger] crate::value::list_view(old(slots)@)[j] == ValV::Absent,
    ensures
        final(slots)@.len() == d@.fields.len(),
        final(seen)@.len() == d@.fields.len(),
        forall|j: int|
            0 <= j < d@.fields.len() && !final(seen)@[j]
                ==> #[trigger] crate::value::list_view(final(slots)@)[j] == ValV::Absent,
        match r {
            Ok(np) => pos < np <= end && parse_fields(
                table@,
                d@,
                buf@.subrange(pos as int, end as int),
                allow,
                depth as nat,
                acc_of(d@.fields, crate::value::list_view(old(slots)@), old(seen)@),
            ) == parse_fields(
                table@,
                d@,
                buf@.subrange(np as int, end as int),
                allow,
                depth as nat,
                acc_of(d@.fields, crate::value::list_view(final(slots)@), final(seen)@),
            ),
            Err(e) => parse_fields(
                table@,
                d@,
                buf@.subrange(pos as int, end as int),
                allow,
                depth as nat,
                acc_of(d@.fields, crate::value::list_view(old(slots)@), old(seen)@),
            ) == Err::<Map<u16, ValV>, Error>(e),
        },
    decreases depth, end - pos, 0int,
{
    let ghost t = table@;
    let ghost dv = d@;
    let ghost n = d@.fields.len();
    let ghost sub = buf@.subrange(pos as int, end as int);
    let ghost acc = acc_of(dv.fields, crate::value::list_view(slots@), seen@);
    let fieldnum = key / 8;
    let wire = key % 8;
    let ghost rest = sub.skip((p1 - pos) as int);
    proof {
        assert(crate::descriptor::msg_wf(dv, t));
        crate::value::lemma_list_view_len(slots@);
        assert(rest =~= buf@.subrange(p1 as int, end as int));
        assert(fieldnum as nat == (key as nat) / 8);
        assert(wire as nat == (key as nat) % 8);
    }
            let fd = d.fields[i];
            let ghost sv0 = crate::value::list_view(slots@);
            let ghost seen0 = seen@;
            let ghost fname = fd.name;
            proof {
                assert(dv.fields[i as int] == fd);
                assert(crate::descriptor::field_wf(fd, t));
                lemma_acc_of_get(dv.fields, sv0, seen0, i as int);
            }
            let dw = kind_wire_of(fd.kind).as_num();
            if fd.mult == Multiplicity::Repeated && dw == 0 && wire == 2 {
                // a packed run of varint scalars
                let (l, p2) = match crate::wire::read_varint_at(buf, p1, end) {
                    Ok(lp) => lp,
                    Err(e) => {
                        return Err(e);
                    },
                };
                if l > (end - p2) as u64 {
                    return Err(Error::TruncatedInput);
                }
                let run_end = p2 + (l as usize);
                let ghost run = buf@.subrange(p2 as int, run_end as int);
                proof {
                    assert(run =~= rest.subrange(
                        (p2 - p1) as int,
                        (p2 - p1) + (l as usize) as int,
                    ));
                }
                let mut vals: Vec<Value> = Vec::new();
                let mut q: usize = p2;
                proof {
                    assert(crate::value::list_view(vals@) =~= Seq::<ValV>::empty());
                    if parse_packed(run, fd, t) is Ok {
                        assert(Seq::<ValV>::empty() + parse_packed(run, fd, t)->Ok_0
                            =~= parse_packed(run, fd, t)->Ok_0);
                    }
                    if parse_packed(run, fd, t) is Err {
                        let e = parse_packed(run, fd, t)->Err_0;
                        assert(parse_fields(t, dv, sub, allow, depth as nat, acc) == Err::<
                            Map<u16, ValV>,
                            Error,
                        >(e));
                    }
                }
                while q < run_end
                    invariant
                        table@.wf(),
                        t == table@,
                        dv == d@,
                        sub == buf@.subrange(pos as int, end as int),
                        pos <= end <= buf@.len(),
                        slots@ == old(slots)@,
                        seen@ == old(seen)@,
                        slots@.len() == dv.fields.len(),
                        seen@.len() == dv.fields.len(),
                        forall|j: int|
                            0 <= j < dv.fields.len() && !seen@[j]
                                ==> #[trigger] crate::value::list_view(slots@)[j] == ValV::Absent,
                        acc == acc_of(dv.fields, crate::value::list_view(slots@), seen@),
                        crate::descriptor::field_wf(fd, t),
                        kind_wire(fd.kind) == crate::wire::WireType::Varint,
                        p2 <= q <= run_end <= buf@.len(),
                        run == buf@.subrange(p2 as int, run_end as int),
                        parse_packed(run, fd, t) is Err ==> parse_fields(
                            t,
                            dv,
                            sub,
                            allow,
                            depth as nat,
                            acc,
                        ) == Err::<Map<u16, ValV>, Error>(parse_packed(run, fd, t)->Err_0),
                        parse_packed(run, fd, t) == (match parse_packed(
                            buf@.subrange(q as int, run_end as int),
                            fd,
                            t,
                        ) {
                            Ok(more) => Ok::<Seq<ValV>, Error>(
                                crate::value::list_view(vals@) + more,
                            ),
                            Err(e) => Err::<Seq<ValV>, Error>(e),
                        }),
                    decreases run_end - q,
                {
                    let ghost runsub = buf@.subrange(q as int, run_end as int);
                    let (v, q2) = match crate::wire::read_varint_at(buf, q, run_end) {
                        Ok(vp) => vp,
                        Err(e) => {
                            proof {
                                assert(parse_packed(runsub, fd, t) == Err::<Seq<ValV>, Error>(e));
                                assert(parse_packed(run, fd, t) == Err::<Seq<ValV>, Error>(e));
                            }
                            return Err(e);
                        },
                    };
                    let val = match varint_to_value(table, v, &fd) {
                        Ok(val) => val,
                        Err(e) => {
                            proof {
                                assert(parse_packed(runsub, fd, t) == Err::<Seq<ValV>, Error>(e));
                                assert(parse_packed(run, fd, t) == Err::<Seq<ValV>, Error>(e));
                            }
                            return Err(e);
                        },
                    };
                    let ghost old_vals = vals@;
                    vals.push(val);
                    proof {
                        assert(runsub.skip((q2 - q) as int) =~= buf@.subrange(
                            q2 as int,
                            run_end as int,
                        ));
                        assert(vals@.drop_last() =~= old_vals);
                        crate::value::lemma_list_view_len(old_vals);
                        assert(crate::value::list_view(vals@) == crate::value::list_view(
                            old_vals,
                        ).push(val@));
                        if parse_packed(buf@.subrange(q2 as int, run_end as int), fd, t) is Ok {
                            let more = parse_packed(
                                buf@.subrange(q2 as int, run_end as int),
                                fd,
                                t,
                            )->Ok_0;
                            assert(crate::value::list_view(old_vals) + (seq![val@] + more)
                                =~= crate::value::list_view(vals@) + more);
                        }
                    }
                    q = q2;
                }
                let ghost vals_v = crate::value::list_view(vals@);
                proof {
                    assert(buf@.subrange(q as int, run_end as int).len() == 0);
                    assert(parse_packed(buf@.subrange(q as int, run_end as int), fd, t) == Ok::<
                        Seq<ValV>,
                        Error,
                    >(Seq::empty()));
                    assert(vals_v + Seq::<ValV>::empty() =~= vals_v);
                    assert(parse_packed(run, fd, t) == Ok::<Seq<ValV>, Error>(vals_v));
                }
                let ghost slots_pre = slots@;
                proof {
                    crate::value::lemma_list_view_index(slots_pre, i as int);
                }
                slot_extend(&mut slots[i], vals);
                seen[i] = true;
                proof {
                    assert(slots@ == slots_pre.update(i as int, slots@[i as int]));
                    crate::value::lemma_list_view_update(slots_pre, i as int, slots@[i as int]);
                    let nv = crate::value::value_view(slots@[i as int]);
                    assert(crate::value::list_view(slots@) == sv0.update(i as int, nv));
                    assert(seen@ == seen0.update(i as int, true));
                    lemma_acc_of_update(dv.fields, sv0, seen0, i as int, nv);
                    assert(acc_of(dv.fields, crate::value::list_view(slots@), seen@)
                        == acc.insert(fname, nv));
                    // the new slot is exactly what the accumulated-field model adds
                    assert(nv == (acc_put_packed(acc, fd, vals_v))[fname]);
                    assert(acc.insert(fname, nv) =~= acc_put_packed(acc, fd, vals_v));
                    // the remaining bytes line up
                    assert(rest.skip((p2 - p1) + (l as usize) as int) =~= buf@.subrange(
                        run_end as int,
                        end as int,
                    ));
                    // the loop invariant steps by one parsed field
                    assert(parse_fields(t, dv, sub, allow, depth as nat, acc) == parse_fields(
                        t,
                        dv,
                        buf@.subrange(run_end as int, end as int),
                        allow,
                        depth as nat,
                        acc_put_packed(acc, fd, vals_v),
                    ));
                    assert forall|j: int|
                        0 <= j < n && !seen@[j] implies #[trigger] crate::value::list_view(
                        slots@,
                    )[j] == ValV::Absent by {
                        assert(crate::value::list_view(slots@)[j] == sv0[j]);
                    }
                }
                Ok(run_end)
            } else if wire != dw {
                Err(Error::WireTypeMismatch)
            } else if dw == 0 {
                // a single varint scalar
                let (v, p2) = match crate::wire::read_varint_at(buf, p1, end) {
                    Ok(vp) => vp,
                    Err(e) => {
                        return Err(e);
                    },
                };
                let val = match varint_to_value(table, v, &fd) {
                    Ok(val) => val,
                    Err(e) => {
                        return Err(e);
                    },
                };
                let ghost valv = val@;
                let rep = fd.mult == Multiplicity::Repeated;
                let ghost slots_pre = slots@;
                proof {
                    crate::value::lemma_list_view_index(slots_pre, i as int);
                }
                slot_put(&mut slots[i], rep, val);
                seen[i] = true;
                proof {
                    assert(slots@ == slots_pre.update(i as int, slots@[i as int]));
                    crate::value::lemma_list_view_update(slots_pre, i as int, slots@[i as int]);
                    let nv = crate::value::value_view(slots@[i as int]);
                    assert(crate::value::list_view(slots@) == sv0.update(i as int, nv));
                    assert(seen@ == seen0.update(i as int, true));
                    lemma_acc_of_update(dv.fields, sv0, seen0, i as int, nv);
                    assert(nv == (acc_put(acc, fd, valv))[fname]);
                    assert(acc.insert(fname, nv) =~= acc_put(acc, fd, valv));
                    assert(rest.skip((p2 - p1) as int) =~= buf@.subrange(p2 as int, end as int));
                    assert(parse_fields(t, dv, sub, allow, depth as nat, acc) == parse_fields(
                        t,
                        dv,
                        buf@.subrange(p2 as int, end as int),
                        allow,
                        depth as nat,
                        acc_put(acc, fd, valv),
                    ));
                    assert forall|j: int|
                        0 <= j < n && !seen@[j] implies #[trigger] crate::value::list_view(
                        slots@,
                    )[j] == ValV::Absent by {
                        assert(crate::value::list_view(slots@)[j] == sv0[j]);
                    }
                }
                Ok(p2)
            } else {
                // a length-delimited value
                let (l, p2) = match crate::wire::read_varint_at(buf, p1, end) {
                    Ok(lp) => lp,
                    Err(e) => {
                        return Err(e);
                    },
                };
                if l > (end - p2) as u64 {
                    return Err(Error::TruncatedInput);
                }
                let body_end = p2 + (l as usize);
                let ghost body = buf@.subrange(p2 as int, body_end as int);
                proof {
                    assert(body =~= rest.subrange(
                        (p2 - p1) as int,
                        (p2 - p1) + (l as usize) as int,
                    ));
                }
                let val = match fd.kind {
                    FieldKind::Str | FieldKind::Bytes => Value::Bytes(
                        copy_range(buf, p2, body_end),
                    ),
                    FieldKind::Msg => {
                        if depth == 0 {
                            return Err(Error::NestingTooDeep);
                        }
                        let o = match fd.msg_offset {
                            Some(o) => o,
                            None => {
                                proof {
                                    assert(false);
                                }
                                return Err(Error::NotFound);
                            },
                        };
                        let nested = table.get_msg(o);
                        proof {
                            assert(t.msgs[o as int].offset == o);
                        }
                        match decode_msg_range(table, buf, p2, body_end, nested, allow, depth - 1) {
                            Ok(m) => Value::Msg(m),
                            Err(e) => {
                                return Err(e);
                            },
                        }
                    },
                    _ => {
                        proof {
                            assert(false);
                        }
                        return Err(Error::WireTypeMismatch);
                    },
                };
                let ghost valv = val@;
                let rep = fd.mult == Multiplicity::Repeated;
                let ghost slots_pre = slots@;
                proof {
                    crate::value::lemma_list_view_index(slots_pre, i as int);
                }
                slot_put(&mut slots[i], rep, val);
                seen[i] = true;
                proof {
                    assert(slots@ == slots_pre.update(i as int, slots@[i as int]));
                    crate::value::lemma_list_view_update(slots_pre, i as int, slots@[i as int]);
                    let nv = crate::value::value_view(slots@[i as int]);
                    assert(crate::value::list_view(slots@) == sv0.update(i as int, nv));
                    assert(seen@ == seen0.update(i as int, true));
                    lemma_acc_of_update(dv.fields, sv0, seen0, i as int, nv);
                    assert(nv == (acc_put(acc, fd, valv))[fname]);
                    assert(acc.insert(fname, nv) =~= acc_put(acc, fd, valv));
                    assert(rest.skip((p2 - p1) + (l as usize) as int) =~= buf@.subrange(
                        body_end as int,
                        end as int,
                    ));
                    assert(parse_fields(t, dv, sub, allow, depth as nat, acc) == parse_fields(
                        t,
                        dv,
                        buf@.subrange(body_end as int, end as int),
                        allow,
                        depth as nat,
                        acc_put(acc, fd, valv),
                    ));
                    assert forall|j: int|
                        0 <= j < n && !seen@[j] implies #[trigger] crate::value::list_view(
                        slots@,
                    )[j] == ValV::Absent by {
                        assert(crate::value::list_view(slots@)[j] == sv0[j]);
                    }
                }
                Ok(body_end)
            }
}

/// Decodes the wire bytes in `buf[start..end]` against descriptor `d`.
#[verifier::rlimit(100)]
fn decode_msg_range(
    table: &DescriptorTable,
    buf: &[u8],
    start: usize,
    end: usize,
    d: &MsgDef,
    allow: bool,
    depth: usize,
) -> (r: Result<MsgObj, Error>)
    requires
        table@.wf(),
        d@ == table@.msgs[d@.offset as int],
        0 <= (d@.offset as int) < table@.msgs.len(),
        start <= end <= buf@.len(),
    ensures
        match r {
            Ok(m) => parse_msg(
                table@,
                d@,
                buf@.subrange(start as int, end as int),
                allow,
                depth as nat,
            ) == Ok::<RecV, Error>(m@),
            Err(e) => parse_msg(
                table@,
                d@,
                buf@.subrange(start as int, end as int),
                allow,
                depth as nat,
            ) == Err::<RecV, Error>(e),
        },
    decreases depth, end - start, 1int,
{
    let ghost t = table@;
    let ghost dv = d@;
    let ghost full = buf@.subrange(start as int, end as int);
    proof {
        assert(crate::descriptor::msg_wf(dv, t));
    }
    let n = d.fields.len();
    let mut slots: Vec<Value> = Vec::new();
    let mut seen: Vec<bool> = Vec::new();
    let mut k: usize = 0;
    while k < n
        invariant
            k <= n,
            slots@.len() == k,
            seen@.len() == k,
            forall|j: int| 0 <= j < k ==> crate::value::list_view(slots@)[j] == ValV::Absent,
            forall|j: int| 0 <= j < k ==> !(#[trigger] seen@[j]),
        decreases n - k,
    {
        let ghost old_slots = slots@;
        slots.push(Value::Absent);
        seen.push(false);
        proof {
            crate::value::lemma_list_view_len(slots@);
            crate::value::lemma_list_view_len(old_slots);
            assert(slots@.drop_last() =~= old_slots);
            assert forall|j: int| 0 <= j < k + 1 implies crate::value::list_view(slots@)[j]
                == ValV::Absent by {
                crate::value::lemma_list_view_index(slots@, j);
                if j < k {
                    crate::value::lemma_list_view_index(old_slots, j);
                }
            }
        }
        k += 1;
    }
    proof {
        crate::value::lemma_list_view_len(slots@);
        lemma_acc_of_empty(dv.fields, crate::value::list_view(slots@), seen@);
    }
    let mut pos: usize = start;
    while pos < end
        invariant
            table@.wf(),
            t == table@,
            dv == d@,
            dv == t.msgs[dv.offset as int],
            0 <= (dv.offset as int) < t.msgs.len(),
            crate::descriptor::msg_wf(dv, t),
            field_names_unique(dv.fields),
            start <= pos <= end <= buf@.len(),
            n == dv.fields.len(),
            n == d.fields@.len(),
            slots@.len() == n,
            seen@.len() == n,
            full == buf@.subrange(start as int, end as int),
            forall|j: int|
                0 <= j < n && !seen@[j] ==> #[trigger] crate::value::list_view(slots@)[j]
                    == ValV::Absent,
            parse_fields(t, dv, full, allow, depth as nat, Map::empty()) == parse_fields(
                t,
                dv,
                buf@.subrange(pos as int, end as int),
                allow,
                depth as nat,
                acc_of(dv.fields, crate::value::list_view(slots@), seen@),
            ),
        decreases end - pos,
    {
        let ghost sub = buf@.subrange(pos as int, end as int);
        let ghost acc = acc_of(dv.fields, crate::value::list_view(slots@), seen@);
        proof {
            crate::value::lemma_list_view_len(slots@);
        }
        let (key, p1) = match crate::wire::read_varint_at(buf, pos, end) {
            Ok(kp) => kp,
            Err(e) => {
                return Err(e);
            },
        };
        let fieldnum = key / 8;
        let wire = key % 8;
        let ghost rest = sub.skip((p1 - pos) as int);
        proof {
            assert(rest =~= buf@.subrange(p1 as int, end as int));
            assert(fieldnum as nat == (key as nat) / 8);
            assert(wire as nat == (key as nat) % 8);
        }
        let idx = d.field_index_by_tag(fieldnum);
        let known = match idx {
            Some(i) => !(d.fields[i].experimental && !allow),
            None => false,
        };
        if !known {
            let np = match skip_value(buf, p1, end, wire) {
                Ok(np) => np,
                Err(e) => {
                    return Err(e);
                },
            };
            proof {
                assert(rest.skip((np - p1) as int) =~= buf@.subrange(np as int, end as int));
            }
            pos = np;
        } else {
            let i = match idx {
                Some(i) => i,
                None => {
                    proof {
                        assert(false);
                    }
                    return Err(Error::NotFound);
                },
            };
            let np = match handle_known(
                table,
                buf,
                d,
                i,
                key,
                pos,
                p1,
                end,
                &mut slots,
                &mut seen,
                allow,
                depth,
            ) {
                Ok(np) => np,
                Err(e) => {
                    return Err(e);
                },
            };
            pos = np;
        }
    }
    // the buffer is consumed: fill the record in declaration order
    let ghost acc = acc_of(dv.fields, crate::value::list_view(slots@), seen@);
    proof {
        assert(buf@.subrange(pos as int, end as int).len() == 0);
        assert(parse_fields(t, dv, full, allow, depth as nat, Map::empty()) == Ok::<
            Map<u16, ValV>,
            Error,
        >(acc));
        crate::value::lemma_list_view_len(slots@);
    }
    let ghost sv0 = crate::value::list_view(slots@);
    let ghost slots0 = slots@;
    let ghost seen0 = seen@;
    let mut entries: Vec<(u16, Value)> = Vec::new();
    let mut i: usize = 0;
    proof {
        assert(dv.fields.take(0) =~= Seq::<FieldDescriptor>::empty());
        assert(crate::value::pairs_view(entries@) =~= Seq::<(u16, ValV)>::empty());
    }
    while i < n
        invariant
            t == table@,
            dv == d@,
            field_names_unique(dv.fields),
            n == dv.fields.len(),
            n == d.fields@.len(),
            slots@.len() == n,
            seen@ == seen0,
            seen@.len() == n,
            sv0.len() == n,
            slots0.len() == n,
            sv0 == crate::value::list_view(slots0),
            i <= n,
            acc == acc_of(dv.fields, sv0, seen0),
            full == buf@.subrange(start as int, end as int),
            parse_fields(t, dv, full, allow, depth as nat, Map::empty()) == Ok::<
                Map<u16, ValV>,
                Error,
            >(acc),
            forall|j: int| i <= j < n ==> slots@[j] == slots0[j],
            finalize(dv.fields.take(i as int), acc) == Ok::<Seq<(u16, ValV)>, Error>(
                crate::value::pairs_view(entries@),
            ),
            entries@.len() == i,
            forall|j: int|
                0 <= j < i ==> (#[trigger] crate::value::pairs_view(entries@)[j]).0
                    == dv.fields[j].name,
        decreases n - i,
    {
        let fd = d.fields[i];
        let ghost entries0 = entries@;
        proof {
            lemma_finalize_take(dv.fields, acc, i as int);
            lemma_acc_of_get(dv.fields, sv0, seen0, i as int);
            crate::value::lemma_pairs_view_len(entries@);
        }
        if seen[i] {
            let mut tmp = Value::Absent;
            core::mem::swap(&mut tmp, &mut slots[i]);
            proof {
                crate::value::lemma_list_view_index(slots0, i as int);
                assert(tmp == slots0[i as int]);
                assert(crate::value::value_view(tmp) == sv0[i as int]);
            }
            entries.push((fd.name, tmp));
            proof {
                assert(entries@.drop_last() =~= entries0);
                assert(crate::value::pairs_view(entries@) == crate::value::pairs_view(
                    entries0,
                ).push((fd.name, sv0[i as int])));
            }
        } else if fd.mult == Multiplicity::Required {
            proof {
                lemma_finalize_err_mono(dv.fields, acc, i + 1);
            }
            return Err(Error::MissingRequiredField);
        } else if fd.mult == Multiplicity::Repeated {
            let empty_items: Vec<Value> = Vec::new();
            let v = Value::List(empty_items);
            proof {
                assert(crate::value::value_view(v) == ValV::List(Seq::empty())) by {
                    assert(crate::value::list_view(v->List_0@) =~= Seq::<ValV>::empty());
                }
            }
            entries.push((fd.name, v));
            proof {
                assert(entries@.drop_last() =~= entries0);
                assert(entries@.last().1 == v);
                assert(crate::value::pairs_view(entries@) == crate::value::pairs_view(
                    entries0,
                ).push((fd.name, ValV::List(Seq::empty()))));
            }
        } else {
            entries.push((fd.name, Value::Absent));
            proof {
                assert(entries@.drop_last() =~= entries0);
                assert(crate::value::pairs_view(entries@) == crate::value::pairs_view(
                    entries0,
                ).push((fd.name, ValV::Absent)));
            }
        }
        proof {
            crate::value::lemma_pairs_view_len(entries@);
            assert forall|j: int|
                0 <= j < i + 1 implies (#[trigger] crate::value::pairs_view(entries@)[j]).0
                == dv.fields[j].name by {
                if j < i {
                    assert(crate::value::pairs_view(entries@)[j] == crate::value::pairs_view(
                        entries0,
                    )[j]);
                }
            }
        }
        i += 1;
    }
    proof {
        assert(dv.fields.take(n as int) =~= dv.fields);
        crate::value::lemma_pairs_view_len(entries@);
        assert(crate::value::names_unique(crate::value::pairs_view(entries@))) by {
            assert forall|a: int, b: int|
                0 <= a < b < crate::value::pairs_view(entries@).len() implies (
            #[trigger] crate::value::pairs_view(entries@)[a]).0 != (
            #[trigger] crate::value::pairs_view(entries@)[b]).0 by {
                assert(crate::value::pairs_view(entries@)[a].0 == dv.fields[a].name);
                assert(crate::value::pairs_view(entries@)[b].0 == dv.fields[b].name);
            }
        }
    }
    let map = FieldMap::from_entries(entries, n);
    let rec = MsgObj::from_parts(map, d.wire_id, d.offset);
    Ok(rec)
}


/// The decoder: stateless per call; carries only the experimental-field
/// policy.
pub struct Decoder {
    pub enable_experimental: bool,
}

impl Decoder {
    /// Decodes a whole buffer into a record of the message `msg` describes.
    pub fn message_from_slice(&self, table: &DescriptorTable, buf: &[u8], msg: &MsgDef) -> (r:
        Result<MsgObj, Error>)
        requires
            table@.wf(),
            (msg@.offset as int) < table@.msgs.len(),
            msg@ == table@.msgs[msg@.offset as int],
        ensures
            match r {
                Ok(m) => parse_msg(
                    table@,
                    msg@,
                    buf@,
                    self.enable_experimental,
                    MAX_NESTING_DEPTH as nat,
                ) == Ok::<RecV, Error>(m@),
                Err(e) => parse_msg(
                    table@,
                    msg@,
                    buf@,
                    self.enable_experimental,
                    MAX_NESTING_DEPTH as nat,
                ) == Err::<RecV, Error>(e),
            },
    {
        proof {
            assert(buf@.subrange(0, buf@.len() as int) =~= buf@);
        }
        decode_msg_range(
            table,
            buf,
            0,
            buf.len(),
            msg,
            self.enable_experimental,
            MAX_NESTING_DEPTH,
        )
    }
}

/// First problem with the supplied named values, scanned in order: an
/// unknown name, or a value that does not fit its field.
pub open spec fn validate_values(t: TableV, d: MsgDefV, values: Seq<(u16, ValV)>) -> Option<Error>
    decreases values.len(),
{
    if values.len() == 0 {
        None
    } else {
        match crate::descriptor::spec_field_index_by_name(d.fields, values[0].0) {
            None => Some(Error::UnknownFieldName),
            Some(i) => if !slot_compat(values[0].1, d.fields[i], t) {
                Some(Error::TypeMismatch)
            } else {
                validate_values(t, d, values.skip(1))
            },
        }
    }
}

/// Record entries built from supplied values, field by field in declaration
/// order, defaulting what was not supplied.
pub open spec fn fill_fields(fields: Seq<FieldDescriptor>, values: Seq<(u16, ValV)>) -> Result<
    Seq<(u16, ValV)>,
    Error,
>
    decreases fields.len(),
{
    if fields.len() == 0 {
        Ok(Seq::empty())
    } else {
        match fill_fields(fields.drop_last(), values) {
            Err(e) => Err(e),
            Ok(entries) => {
                let f = fields.last();
                match crate::value::entry_index_of(values, f.name) {
                    Some(j) => Ok(entries.push((f.name, values[j].1))),
                    None => if f.mult == Multiplicity::Required {
                        Err(Error::MissingRequiredField)
                    } else if f.mult == Multiplicity::Repeated {
                        Ok(entries.push((f.name, ValV::List(Seq::empty()))))
                    } else {
                        Ok(entries.push((f.name, ValV::Absent)))
                    },
                }
            },
        }
    }
}

/// The record that constructing a message from named values yields, or the
/// first error: construction is strict, unknown names are rejected.
pub open spec fn construct(t: TableV, d: MsgDefV, values: Seq<(u16, ValV)>) -> Result<RecV, Error> {
    match validate_values(t, d, values) {
        Some(e) => Err(e),
        None => match fill_fields(d.fields, values) {
            Err(e) => Err(e),
            Ok(entries) => Ok(RecV { wire_id: d.wire_id, offset: d.offset, fields: entries }),
        },
    }
}

proof fn lemma_fill_fields_err_mono(
    fields: Seq<FieldDescriptor>,
    values: Seq<(u16, ValV)>,
    k: int,
)
    requires
        0 <= k <= fields.len(),
        fill_fields(fields.take(k), values) is Err,
    ensures
        fill_fields(fields, values) == fill_fields(fields.take(k), values),
    decreases fields.len(),
{
    if k == fields.len() {
        assert(fields.take(k) =~= fields);
    } else {
        assert(fields.drop_last().take(k) =~= fields.take(k));
        lemma_fill_fields_err_mono(fields.drop_last(), values, k);
    }
}

pub(crate) proof fn lemma_fill_fields_take(fields: Seq<FieldDescriptor>, values: Seq<(u16, ValV)>, i: int)
    requires
        0 <= i < fields.len(),
    ensures
        fill_fields(fields.take(i + 1), values) == (match fill_fields(fields.take(i), values) {
            Err(e) => Err::<Seq<(u16, ValV)>, Error>(e),
            Ok(entries) => {
                let f = fields[i];
                match crate::value::entry_index_of(values, f.name) {
                    Some(j) => Ok(entries.push((f.name, values[j].1))),
                    None => if f.mult == Multiplicity::Required {
                        Err(Error::MissingRequiredField)
                    } else if f.mult == Multiplicity::Repeated {
                        Ok(entries.push((f.name, ValV::List(Seq::empty()))))
                    } else {
                        Ok(entries.push((f.name, ValV::Absent)))
                    },
                }
            },
        }),
{
    assert(fields.take(i + 1).drop_last() =~= fields.take(i));
    assert(fields.take(i + 1).last() == fields[i]);
}

/// Checks one value against a field's kind, walking nested records.
fn check_scalar(table: &DescriptorTable, v: &Value, f: &FieldDescriptor) -> (r: bool)
    requires
        table@.wf(),
        crate::descriptor::field_wf(*f, table@),
    ensures
        r == scalar_compat(v@, *f, table@),
    decreases v, 0int,
{
    match f.kind {
        FieldKind::Int => {
            match v {
                Value::Int(i) => *i >= 0 && *i <= u64::MAX as i128,
                _ => false,
            }
        },
        FieldKind::Sint => {
            match v {
                Value::Int(i) => *i >= i64::MIN as i128 && *i <= i64::MAX as i128,
                _ => false,
            }
        },
        FieldKind::Bool => matches!(v, Value::Bool(_)),
        FieldKind::Enum => {
            match v {
                Value::Int(i) => {
                    if *i < 0 || *i > u64::MAX as i128 {
                        return false;
                    }
                    let enum_id = match f.enum_id {
                        Some(e) => e,
                        None => {
                            proof {
                                assert(false);
                            }
                            return false;
                        },
                    };
                    table.enum_allows(enum_id, *i as u64)
                },
                _ => false,
            }
        },
        FieldKind::Str | FieldKind::Bytes => matches!(v, Value::Bytes(_)),
        FieldKind::Msg => {
            match v {
                Value::Msg(m) => {
                    proof {
                        crate::value::lemma_msg_view_parts(*m);
                    }
                    let o = match f.msg_offset {
                        Some(o) => o,
                        None => {
                            proof {
                                assert(false);
                            }
                            return false;
                        },
                    };
                    if m.msg_offset != o {
                        return false;
                    }
                    let d = table.get_msg(o);
                    proof {
                        assert(table@.msgs[o as int].offset == o);
                    }
                    check_rec(table, m, d)
                },
                _ => false,
            }
        },
    }
}

/// Checks a whole record against its descriptor's shape.
fn check_rec(table: &DescriptorTable, rec: &MsgObj, d: &MsgDef) -> (r: bool)
    requires
        table@.wf(),
        d@ == table@.msgs[d@.offset as int],
        0 <= (d@.offset as int) < table@.msgs.len(),
        rec@.offset == d@.offset,
    ensures
        r == rec_compat(rec@, d@, table@),
    decreases rec, 1int,
{
    let ghost t = table@;
    let ghost rv = rec@;
    let ghost dv = d@;
    proof {
        crate::value::lemma_msg_view_parts(*rec);
        crate::value::lemma_pairs_view_len(rec.map.entries@);
    }
    let wire_id_matches = match (rec.msg_wire_id, d.wire_id) {
        (None, None) => true,
        (Some(a), Some(b)) => a == b,
        _ => false,
    };
    if !wire_id_matches {
        return false;
    }
    if rec.map.entries.len() != d.fields.len() {
        return false;
    }
    let n = d.fields.len();
    let mut i: usize = 0;
    while i < n
        invariant
            table@.wf(),
            t == table@,
            rv == rec@,
            dv == d@,
            dv == t.msgs[dv.offset as int],
            0 <= (dv.offset as int) < t.msgs.len(),
            rv.fields == pairs_view(rec.map.entries@),
            rv.fields.len() == rec.map.entries@.len(),
            rv.fields.len() == dv.fields.len(),
            n == d.fields@.len(),
            n == rec.map.entries@.len(),
            i <= n,
            forall|j: int|
                0 <= j < i ==> (#[trigger] rv.fields[j]).0 == dv.fields[j].name && slot_compat(
                    rv.fields[j].1,
                    dv.fields[j],
                    t,
                ),
        decreases n - i,
    {
        proof {
            crate::value::lemma_pairs_view_index(rec.map.entries@, i as int);
            assert(crate::descriptor::msg_wf(dv, t));
            assert(crate::descriptor::field_wf(dv.fields[i as int], t));
        }
        let fd = &d.fields[i];
        if rec.map.entries[i].0 != fd.name {
            proof {
                if fields_compat(rv.fields, dv.fields, t) {
                    crate::value::lemma_fields_compat_index(rv.fields, dv.fields, t);
                }
            }
            return false;
        }
        if !check_slot(table, &rec.map.entries[i].1, fd) {
            proof {
                if fields_compat(rv.fields, dv.fields, t) {
                    crate::value::lemma_fields_compat_index(rv.fields, dv.fields, t);
                }
            }
            return false;
        }
        i += 1;
    }
    proof {
        crate::value::lemma_fields_compat_index(rv.fields, dv.fields, t);
    }
    true
}

/// Checks one stored slot against a field, minding its multiplicity.
fn check_slot(table: &DescriptorTable, v: &Value, f: &FieldDescriptor) -> (r: bool)
    requires
        table@.wf(),
        crate::descriptor::field_wf(*f, table@),
    ensures
        r == slot_compat(v@, *f, table@),
    decreases v, 1int,
{
    match f.mult {
        Multiplicity::Repeated => {
            match v {
                Value::List(items) => {
                    let ghost lv = crate::value::list_view(items@);
                    proof {
                        crate::value::lemma_list_view_len(items@);
                        crate::value::lemma_list_compat_index(lv, *f, table@);
                    }
                    let mut i: usize = 0;
                    while i < items.len()
                        invariant
                            table@.wf(),
                            crate::descriptor::field_wf(*f, table@),
                            v@ == ValV::List(lv),
                            *v == Value::List(*items),
                            f.mult == Multiplicity::Repeated,
                            lv == crate::value::list_view(items@),
                            lv.len() == items@.len(),
                            i <= items@.len(),
                            forall|j: int|
                                0 <= j < i ==> scalar_compat(#[trigger] lv[j], *f, table@),
                        decreases items@.len() - i,
                    {
                        proof {
                            crate::value::lemma_list_view_index(items@, i as int);
                        }
                        if !check_scalar(table, &items[i], f) {
                            proof {
                                crate::value::lemma_list_compat_index(lv, *f, table@);
                            }
                            return false;
                        }
                        i += 1;
                    }
                    proof {
                        crate::value::lemma_list_compat_index(lv, *f, table@);
                    }
                    true
                },
                _ => false,
            }
        },
        _ => {
            match v {
                Value::Absent => f.mult != Multiplicity::Required,
                _ => check_scalar(table, v, f),
            }
        },
    }
}

impl Decoder {
    /// Builds a record from caller-supplied named values, validating every
    /// name and value against the descriptor and filling defaults; unlike
    /// wire decoding, unknown names are rejected.
    pub fn message_from_values(&self, table: &DescriptorTable, values: FieldMap, msg: &MsgDef) -> (r:
        Result<MsgObj, Error>)
        requires
            table@.wf(),
            (msg@.offset as int) < table@.msgs.len(),
            msg@ == table@.msgs[msg@.offset as int],
        ensures
            match r {
                Ok(m) => construct(table@, msg@, values@) == Ok::<RecV, Error>(m@),
                Err(e) => construct(table@, msg@, values@) == Err::<RecV, Error>(e),
            },
    {
        let ghost t = table@;
        let ghost dv = msg@;
        let ghost vv = values@;
        proof {
            assert(crate::descriptor::msg_wf(dv, t));
            crate::value::lemma_pairs_view_len(values.entries@);
            crate::value::lemma_fieldmap_view(values);
            assert(vv.skip(0) =~= vv);
        }
        // validation pass
        let m = values.len();
        let mut j: usize = 0;
        while j < m
            invariant
                table@.wf(),
                t == table@,
                dv == msg@,
                crate::descriptor::msg_wf(dv, t),
                m == vv.len(),
                vv == values@,
                vv == pairs_view(values.entries@),
                m == values.entries@.len(),
                j <= m,
                validate_values(t, dv, vv) == validate_values(t, dv, vv.skip(j as int)),
            decreases m - j,
        {
            proof {
                crate::value::lemma_pairs_view_index(values.entries@, j as int);
                assert(vv.skip(j as int)[0] == vv[j as int]);
            }
            let name = values.entries[j].0;
            let i = match msg.field_index_by_name(name) {
                Some(i) => i,
                None => {
                    return Err(Error::UnknownFieldName);
                },
            };
            proof {
                crate::descriptor::lemma_field_index_by_name_props(dv.fields, name);
                assert(crate::descriptor::field_wf(dv.fields[i as int], t));
            }
            if !check_slot(table, &values.entries[j].1, &msg.fields[i]) {
                return Err(Error::TypeMismatch);
            }
            proof {
                assert(vv.skip(j as int).skip(1) =~= vv.skip(j + 1));
            }
            j += 1;
        }
        proof {
            assert(vv.skip(m as int).len() == 0);
            assert(validate_values(t, dv, vv) is None);
        }
        // fill pass: move each supplied value into its field's slot
        let n = msg.fields.len();
        let mut supplied = values;
        let ghost ev0 = supplied.entries@;
        let mut entries: Vec<(u16, Value)> = Vec::new();
        let mut i: usize = 0;
        proof {
            assert(dv.fields.take(0) =~= Seq::<FieldDescriptor>::empty());
            assert(pairs_view(entries@) =~= Seq::<(u16, ValV)>::empty());
        }
        while i < n
            invariant
                t == table@,
                dv == msg@,
                crate::descriptor::msg_wf(dv, t),
                field_names_unique(dv.fields),
                n == dv.fields.len(),
                n == msg.fields@.len(),
                vv == pairs_view(ev0),
                vv == values@,
                m == ev0.len(),
                supplied.entries@.len() == m,
                validate_values(t, dv, vv) is None,
                i <= n,
                forall|j: int|
                    0 <= j < m ==> (#[trigger] supplied.entries@[j]).0 == ev0[j].0,
                forall|j: int|
                    0 <= j < m ==> ((#[trigger] supplied.entries@[j]).1 == ev0[j].1 || exists|k: int|
                        0 <= k < i && (#[trigger] dv.fields[k]).name == ev0[j].0),
                fill_fields(dv.fields.take(i as int), vv) == Ok::<Seq<(u16, ValV)>, Error>(
                    pairs_view(entries@),
                ),
                entries@.len() == i,
                forall|j: int|
                    0 <= j < i ==> (#[trigger] pairs_view(entries@)[j]).0 == dv.fields[j].name,
            decreases n - i,
        {
            let fd = msg.fields[i];
            let ghost entries0 = entries@;
            proof {
                lemma_fill_fields_take(dv.fields, vv, i as int);
                crate::value::lemma_entry_index_of_props(vv, fd.name);
                crate::value::lemma_pairs_view_len(entries@);
                crate::value::lemma_pairs_view_len(ev0);
            }
            // the supplied entries carry the same names as their views
            let jopt = find_entry(&supplied.entries, fd.name);
            match jopt {
                Some(j) => {
                    proof {
                        crate::value::lemma_pairs_view_len(supplied.entries@);
                        assert forall|q: int|
                            0 <= q < m implies (#[trigger] pairs_view(supplied.entries@)[q]).0
                            == vv[q].0 by {
                            crate::value::lemma_pairs_view_index(supplied.entries@, q);
                            crate::value::lemma_pairs_view_index(ev0, q);
                        }
                        crate::value::lemma_entry_index_of_names(
                            pairs_view(supplied.entries@),
                            vv,
                            fd.name,
                        );
                        assert(crate::value::entry_index_of(vv, fd.name) == Some(j as int));
                        crate::value::lemma_pairs_view_index(supplied.entries@, j as int);
                        crate::value::lemma_pairs_view_index(ev0, j as int);
                        assert(supplied.entries@[j as int].1 == ev0[j as int].1) by {
                            if exists|k: int|
                                0 <= k < i && (#[trigger] dv.fields[k]).name == ev0[j as int].0 {
                                let k = choose|k: int|
                                    0 <= k < i && (#[trigger] dv.fields[k]).name == ev0[
                                        j as int
                                    ].0;
                                assert(dv.fields[k].name == fd.name);
                                assert(false);
                            }
                        }
                    }
                    let mut taken = Value::Absent;
                    let ghost ev_pre = supplied.entries@;
                    core::mem::swap(&mut taken, &mut supplied.entries[j].1);
                    proof {
                        assert(taken == ev0[j as int].1);
                        assert(taken@ == vv[j as int].1);
                        assert forall|q: int| 0 <= q < m implies (#[trigger] supplied.entries@[
                            q
                        ]).0 == ev0[q].0 by {
                            if q != j {
                                assert(supplied.entries@[q] == ev_pre[q]);
                            }
                        }
                    }
                    entries.push((fd.name, taken));
                    proof {
                        assert(entries@.drop_last() =~= entries0);
                        assert(pairs_view(entries@) == pairs_view(entries0).push(
                            (fd.name, vv[j as int].1),
                        ));
                    }
                },
                None => {
                    proof {
                        crate::value::lemma_pairs_view_len(supplied.entries@);
                        assert forall|q: int|
                            0 <= q < m implies (#[trigger] pairs_view(supplied.entries@)[q]).0
                            == vv[q].0 by {
                            crate::value::lemma_pairs_view_index(supplied.entries@, q);
                            crate::value::lemma_pairs_view_index(ev0, q);
                        }
                        crate::value::lemma_entry_index_of_names(
                            pairs_view(supplied.entries@),
                            vv,
                            fd.name,
                        );
                        assert(crate::value::entry_index_of(vv, fd.name) is None);
                    }
                    if fd.mult == Multiplicity::Required {
                        proof {
                            lemma_fill_fields_err_mono(dv.fields, vv, i + 1);
                        }
                        return Err(Error::MissingRequiredField);
                    } else if fd.mult == Multiplicity::Repeated {
                        let empty_items: Vec<Value> = Vec::new();
                        let v = Value::List(empty_items);
                        proof {
                            assert(crate::value::value_view(v) == ValV::List(Seq::empty())) by {
                                assert(crate::value::list_view(v->List_0@) =~= Seq::<
                                    ValV,
                                >::empty());
                            }
                        }
                        entries.push((fd.name, v));
                        proof {
                            assert(entries@.drop_last() =~= entries0);
                            assert(entries@.last().1 == v);
                            assert(pairs_view(entries@) == pairs_view(entries0).push(
                                (fd.name, ValV::List(Seq::empty())),
                            ));
                        }
                    } else {
                        entries.push((fd.name, Value::Absent));
                        proof {
                            assert(entries@.drop_last() =~= entries0);
                            assert(entries@.last() == (fd.name, Value::Absent));
                            assert(crate::value::value_view(Value::Absent) == ValV::Absent);
                            assert(pairs_view(entries@) == pairs_view(entries0).push(
                                (fd.name, ValV::Absent),
                            ));
                        }
                    }
                },
            }
            proof {
                crate::value::lemma_pairs_view_len(entries@);
                assert forall|q: int|
                    0 <= q < i + 1 implies (#[trigger] pairs_view(entries@)[q]).0
                    == dv.fields[q].name by {
                    if q < i {
                        assert(pairs_view(entries@)[q] == pairs_view(entries0)[q]);
                    }
                }
                assert forall|q: int|
                    0 <= q < m implies ((#[trigger] supplied.entries@[q]).1 == ev0[q].1 || exists|
                        k: int,
                    |
                        0 <= k < i + 1 && (#[trigger] dv.fields[k]).name == ev0[q].0) by {}
            }
            i += 1;
        }
        proof {
            assert(dv.fields.take(n as int) =~= dv.fields);
            crate::value::lemma_pairs_view_len(entries@);
            assert(crate::value::names_unique(pairs_view(entries@))) by {
                assert forall|a: int, b: int|
                    0 <= a < b < pairs_view(entries@).len() implies (#[trigger] pairs_view(
                    entries@,
                )[a]).0 != (#[trigger] pairs_view(entries@)[b]).0 by {
                    assert(pairs_view(entries@)[a].0 == dv.fields[a].name);
                    assert(pairs_view(entries@)[b].0 == dv.fields[b].name);
                }
            }
        }
        let map = FieldMap::from_entries(entries, n);
        let rec = MsgObj::from_parts(map, msg.wire_id, msg.offset);
        Ok(rec)
    }
}

/// Position of the first entry stored under `name`.
fn find_entry(entries: &Vec<(u16, Value)>, name: u16) -> (r: Option<usize>)
    ensures
        match r {
            Some(j) => crate::value::entry_index_of(pairs_view(entries@), name) == Some(j as int),
            None => crate::value::entry_index_of(pairs_view(entries@), name) is None,
        },
{
    let ghost pv = pairs_view(entries@);
    proof {
        crate::value::lemma_pairs_view_len(entries@);
        assert(pv.skip(0) =~= pv);
    }
    let mut j: usize = 0;
    while j < entries.len()
        invariant
            pv == pairs_view(entries@),
            pv.len() == entries@.len(),
            j <= entries@.len(),
            crate::value::entry_index_of(pv.skip(j as int), name) is Some
                ==> crate::value::entry_index_of(pv, name) == Some(
                crate::value::entry_index_of(pv.skip(j as int), name)->Some_0 + j,
            ),
            crate::value::entry_index_of(pv.skip(j as int), name) is None
                ==> crate::value::entry_index_of(pv, name) is None,
        decreases entries@.len() - j,
    {
        proof {
            crate::value::lemma_pairs_view_index(entries@, j as int);
            assert(pv.skip(j as int)[0] == pv[j as int]);
        }
        if entries[j].0 == name {
            return Some(j);
        }
        proof {
            assert(pv.skip(j as int).skip(1) =~= pv.skip(j + 1));
        }
        j += 1;
    }
    None
}

} // verus!
