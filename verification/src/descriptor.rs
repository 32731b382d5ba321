//! Compiled, read-only schema metadata: field and message descriptors, the
//! descriptor table, and lookup by name or by wire id.

use vstd::prelude::*;
use crate::err::Error;

verus! {

/// Semantic kind of a field's values.
#[derive(Clone, Copy, PartialEq, Eq, Debug, Structural)]
pub enum FieldKind {
    /// Unsigned integer, plain varint.
    Int,
    /// Signed integer, zig-zag varint.
    Sint,
    Bool,
    /// UTF-8 text carried as a length-delimited byte run.
    Str,
    Bytes,
    /// Integer restricted to a table of admissible values.
    Enum,
    /// Embedded message decoded against a nested descriptor.
    Msg,
}

/// How many values of a field a message may carry.
#[derive(Clone, Copy, PartialEq, Eq, Debug, Structural)]
pub enum Multiplicity {
    Required,
    Optional,
    Repeated,
}

/// Describes one field of a message. Immutable once the table is built.
#[derive(Clone, Copy, Debug)]
pub struct FieldDescriptor {
    /// Wire-format field identifier; positive.
    pub tag: u32,
    /// Name token the decoded value is stored under.
    pub name: u16,
    pub kind: FieldKind,
    pub mult: Multiplicity,
    /// Included on decode only when the decoder allows experimental fields.
    pub experimental: bool,
    /// Offset of the nested message descriptor, for `Msg` kind.
    pub msg_offset: Option<u16>,
    /// Index of the admissible-value table, for `Enum` kind.
    pub enum_id: Option<u16>,
}

/// Mathematical model of a message descriptor.
pub struct MsgDefV {
    pub name: u16,
    pub wire_id: Option<u16>,
    pub offset: u16,
    pub fields: Seq<FieldDescriptor>,
}

/// Describes one message: its name token, optional wire id, position in the
/// table, and its fields in declaration order.
#[derive(Debug)]
pub struct MsgDef {
    pub name: u16,
    pub wire_id: Option<u16>,
    pub offset: u16,
    pub fields: Vec<FieldDescriptor>,
}

impl View for MsgDef {
    type V = MsgDefV;

    open spec fn view(&self) -> MsgDefV {
        MsgDefV { name: self.name, wire_id: self.wire_id, offset: self.offset, fields: self.fields@ }
    }
}

impl Clone for MsgDef {
    fn clone(&self) -> (r: Self)
        ensures
            r@ == self@,
    {
        let mut fields: Vec<FieldDescriptor> = Vec::new();
        let mut i: usize = 0;
        while i < self.fields.len()
            invariant
                i <= self.fields.len(),
                fields@ =~= self.fields@.take(i as int),
            decreases self.fields.len() - i,
        {
            fields.push(self.fields[i]);
            i += 1;
        }
        proof {
            assert(fields@ =~= self.fields@);
        }
        MsgDef { name: self.name, wire_id: self.wire_id, offset: self.offset, fields }
    }
}

/// First field carrying the given tag, if any.
pub open spec fn spec_field_by_tag(fields: Seq<FieldDescriptor>, tag: u64) -> Option<FieldDescriptor>
    decreases fields.len(),
{
    if fields.len() == 0 {
        None
    } else if fields[0].tag as u64 == tag {
        Some(fields[0])
    } else {
        spec_field_by_tag(fields.skip(1), tag)
    }
}

/// Index of the first field carrying the given name, if any.
pub open spec fn spec_field_index_by_name(fields: Seq<FieldDescriptor>, name: u16) -> Option<int>
    decreases fields.len(),
{
    if fields.len() == 0 {
        None
    } else if fields[0].name == name {
        Some(0)
    } else {
        match spec_field_index_by_name(fields.skip(1), name) {
            Some(i) => Some(i + 1),
            None => None,
        }
    }
}

pub proof fn lemma_field_index_by_name_props(fields: Seq<FieldDescriptor>, name: u16)
    ensures
        spec_field_index_by_name(fields, name) matches Some(i) ==> 0 <= i < fields.len()
            && fields[i].name == name,
        spec_field_index_by_name(fields, name) is None <==> forall|i: int|
            0 <= i < fields.len() ==> #[trigger] fields[i].name != name,
    decreases fields.len(),
{
    if fields.len() == 0 {
    } else if fields[0].name == name {
    } else {
        lemma_field_index_by_name_props(fields.skip(1), name);
        if spec_field_index_by_name(fields.skip(1), name) is Some {
            let i = spec_field_index_by_name(fields.skip(1), name)->Some_0;
            assert(fields.skip(1)[i] == fields[i + 1]);
        }
        assert forall|i: int| 0 <= i < fields.len() && fields[i].name == name implies
            !(spec_field_index_by_name(fields, name) is None) by {
            if i > 0 {
                assert(fields.skip(1)[i - 1] == fields[i]);
            }
        }
    }
}

impl MsgDef {
    /// Looks a field up by its wire tag; linear search in declaration order.
    pub fn field_by_tag(&self, tag: u64) -> (r: Option<&FieldDescriptor>)
        ensures
            match r {
                Some(f) => spec_field_by_tag(self@.fields, tag) == Some(*f),
                None => spec_field_by_tag(self@.fields, tag) is None,
            },
    {
        proof {
            assert(self@.fields.skip(0) =~= self@.fields);
        }
        let mut i: usize = 0;
        while i < self.fields.len()
            invariant
                i <= self.fields.len(),
                spec_field_by_tag(self@.fields, tag) == spec_field_by_tag(
                    self@.fields.skip(i as int),
                    tag,
                ),
            decreases self.fields.len() - i,
        {
            if self.fields[i].tag as u64 == tag {
                proof {
                    assert(self@.fields.skip(i as int)[0] == self@.fields[i as int]);
                }
                return Some(&self.fields[i]);
            }
            proof {
                assert(self@.fields.skip(i as int)[0] == self@.fields[i as int]);
                assert(self@.fields.skip(i as int).skip(1) =~= self@.fields.skip(i + 1));
            }
            i += 1;
        }
        None
    }

    /// Position of the field carrying the given wire tag, if any.
    pub fn field_index_by_tag(&self, tag: u64) -> (r: Option<usize>)
        ensures
            match r {
                Some(i) => i < self@.fields.len() && spec_field_by_tag(self@.fields, tag) == Some(
                    self@.fields[i as int],
                ),
                None => spec_field_by_tag(self@.fields, tag) is None,
            },
    {
        proof {
            assert(self@.fields.skip(0) =~= self@.fields);
        }
        let mut i: usize = 0;
        while i < self.fields.len()
            invariant
                i <= self.fields.len(),
                spec_field_by_tag(self@.fields, tag) == spec_field_by_tag(
                    self@.fields.skip(i as int),
                    tag,
                ),
            decreases self.fields.len() - i,
        {
            if self.fields[i].tag as u64 == tag {
                proof {
                    assert(self@.fields.skip(i as int)[0] == self@.fields[i as int]);
                }
                return Some(i);
            }
            proof {
                assert(self@.fields.skip(i as int)[0] == self@.fields[i as int]);
                assert(self@.fields.skip(i as int).skip(1) =~= self@.fields.skip(i + 1));
            }
            i += 1;
        }
        None
    }

    /// Index of the field stored under `name`, if any.
    pub fn field_index_by_name(&self, name: u16) -> (r: Option<usize>)
        ensures
            match r {
                Some(i) => spec_field_index_by_name(self@.fields, name) == Some(i as int),
                None => spec_field_index_by_name(self@.fields, name) is None,
            },
    {
        proof {
            assert(self@.fields.skip(0) =~= self@.fields);
        }
        let mut i: usize = 0;
        while i < self.fields.len()
            invariant
                i <= self.fields.len(),
                spec_field_index_by_name(self@.fields.skip(i as int), name) is Some
                    ==> spec_field_index_by_name(self@.fields, name) == Some(
                    spec_field_index_by_name(self@.fields.skip(i as int), name)->Some_0 + i,
                ),
                spec_field_index_by_name(self@.fields.skip(i as int), name) is None
                    ==> spec_field_index_by_name(self@.fields, name) is None,
            decreases self.fields.len() - i,
        {
            if self.fields[i].name == name {
                proof {
                    assert(self@.fields.skip(i as int)[0] == self@.fields[i as int]);
                }
                return Some(i);
            }
            proof {
                assert(self@.fields.skip(i as int)[0] == self@.fields[i as int]);
                assert(self@.fields.skip(i as int).skip(1) =~= self@.fields.skip(i + 1));
            }
            i += 1;
        }
        None
    }

    /// Number of fields the message declares.
    pub fn field_count(&self) -> (n: usize)
        ensures
            n == self@.fields.len(),
    {
        self.fields.len()
    }
}

/// One registration of a wire id inside an enum namespace.
#[derive(Clone, Copy, Debug)]
pub struct WireEntry {
    pub enum_name: u16,
    pub wire_id: u16,
    pub offset: u16,
}

/// Mathematical model of the descriptor table.
pub struct TableV {
    pub msgs: Seq<MsgDefV>,
    pub enums: Seq<Seq<u16>>,
    pub wire_ids: Seq<WireEntry>,
}

/// The compiled schema: every message descriptor, every enum value table,
/// and the wire-id registry. Built once, read-only afterwards.
pub struct DescriptorTable {
    pub msgs: Vec<MsgDef>,
    pub enums: Vec<Vec<u16>>,
    pub wire_ids: Vec<WireEntry>,
}

impl View for DescriptorTable {
    type V = TableV;

    open spec fn view(&self) -> TableV {
        TableV {
            msgs: Seq::new(self.msgs@.len(), |i: int| self.msgs@[i]@),
            enums: Seq::new(self.enums@.len(), |i: int| self.enums@[i]@),
            wire_ids: self.wire_ids@,
        }
    }
}

/// Structural soundness of one field against the table.
pub open spec fn field_wf(f: FieldDescriptor, t: TableV) -> bool {
    &&& f.tag >= 1
    &&& (f.kind == FieldKind::Msg ==> (f.msg_offset matches Some(o) && (o as int)
        < t.msgs.len()))
    &&& (f.kind == FieldKind::Enum ==> (f.enum_id matches Some(e) && (e as int)
        < t.enums.len()))
}

/// Structural soundness of one message descriptor against the table.
pub open spec fn msg_wf(d: MsgDefV, t: TableV) -> bool {
    &&& forall|i: int, j: int|
        0 <= i < j < d.fields.len() ==> #[trigger] d.fields[i].tag != #[trigger] d.fields[j].tag
    &&& forall|i: int, j: int|
        0 <= i < j < d.fields.len() ==> #[trigger] d.fields[i].name != #[trigger] d.fields[j].name
    &&& forall|i: int| 0 <= i < d.fields.len() ==> field_wf(#[trigger] d.fields[i], t)
}

impl TableV {
    /// Soundness of the whole table: offsets index the table, names and
    /// wire-id registrations are unambiguous, all references stay inside.
    pub open spec fn wf(self) -> bool {
        &&& self.msgs.len() <= 0x10000
        &&& self.enums.len() <= 0x10000
        &&& forall|i: int|
            0 <= i < self.msgs.len() ==> (#[trigger] self.msgs[i]).offset as int == i
        &&& forall|i: int| 0 <= i < self.msgs.len() ==> msg_wf(#[trigger] self.msgs[i], self)
        &&& forall|i: int, j: int|
            0 <= i < j < self.msgs.len() ==> (#[trigger] self.msgs[i]).name
                != (#[trigger] self.msgs[j]).name
        &&& forall|i: int|
            0 <= i < self.wire_ids.len() ==> ((#[trigger] self.wire_ids[i]).offset as int)
                < self.msgs.len() && self.msgs[self.wire_ids[i].offset as int].wire_id
                == Some(self.wire_ids[i].wire_id)
        &&& forall|i: int, j: int|
            0 <= i < j < self.wire_ids.len() ==> !((#[trigger] self.wire_ids[i]).enum_name
                == (#[trigger] self.wire_ids[j]).enum_name && self.wire_ids[i].wire_id
                == self.wire_ids[j].wire_id)
    }
}

impl DescriptorTable {
    /// An empty table.
    pub fn new() -> (r: Self)
        ensures
            r@.wf(),
            r@.msgs.len() == 0,
            r@.enums.len() == 0,
            r@.wire_ids.len() == 0,
    {
        let r = DescriptorTable { msgs: Vec::new(), enums: Vec::new(), wire_ids: Vec::new() };
        proof {
            assert(r@.msgs =~= Seq::<MsgDefV>::empty());
            assert(r@.enums =~= Seq::<Seq<u16>>::empty());
        }
        r
    }

    /// Registers an enum value table and hands back its index.
    pub fn add_enum(&mut self, values: Vec<u16>) -> (id: u16)
        requires
            old(self)@.wf(),
            old(self)@.enums.len() < 0x10000,
        ensures
            final(self)@.wf(),
            id as int == old(self)@.enums.len(),
            final(self)@.enums =~= old(self)@.enums.push(values@),
            final(self)@.msgs == old(self)@.msgs,
            final(self)@.wire_ids == old(self)@.wire_ids,
    {
        let id = self.enums.len() as u16;
        self.enums.push(values);
        proof {
            assert(self@.msgs =~= old(self)@.msgs);
            assert(self@.enums =~= old(self)@.enums.push(self.enums@.last()@));
            assert forall|i: int| 0 <= i < self@.msgs.len() implies msg_wf(
                #[trigger] self@.msgs[i],
                self@,
            ) by {
                assert(msg_wf(old(self)@.msgs[i], old(self)@));
                assert forall|k: int| 0 <= k < self@.msgs[i].fields.len() implies field_wf(
                    #[trigger] self@.msgs[i].fields[k],
                    self@,
                ) by {
                    assert(field_wf(old(self)@.msgs[i].fields[k], old(self)@));
                }
            }
        }
        id
    }

    /// Appends a message descriptor, assigning its offset. The caller vouches
    /// for the schema invariants: unique tags and names among the fields,
    /// a fresh message name, and references that stay inside the table
    /// (a message may reference itself).
    pub fn add_message(&mut self, def: MsgDef) -> (off: u16)
        requires
            old(self)@.wf(),
            old(self)@.msgs.len() < 0x10000,
            forall|i: int, j: int|
                0 <= i < j < def@.fields.len() ==> #[trigger] def@.fields[i].tag
                    != #[trigger] def@.fields[j].tag,
            forall|i: int, j: int|
                0 <= i < j < def@.fields.len() ==> #[trigger] def@.fields[i].name
                    != #[trigger] def@.fields[j].name,
            forall|i: int|
                0 <= i < def@.fields.len() ==> (#[trigger] def@.fields[i]).tag >= 1,
            forall|i: int|
                0 <= i < def@.fields.len() ==> ((#[trigger] def@.fields[i]).kind
                    == FieldKind::Msg ==> (def@.fields[i].msg_offset matches Some(o) && o as int
                    <= old(self)@.msgs.len())),
            forall|i: int|
                0 <= i < def@.fields.len() ==> ((#[trigger] def@.fields[i]).kind
                    == FieldKind::Enum ==> (def@.fields[i].enum_id matches Some(e) && (e as int)
                    < old(self)@.enums.len())),
            forall|i: int|
                0 <= i < old(self)@.msgs.len() ==> (#[trigger] old(self)@.msgs[i]).name
                    != def@.name,
        ensures
            final(self)@.wf(),
            off as int == old(self)@.msgs.len(),
            final(self)@.msgs.len() == old(self)@.msgs.len() + 1,
            final(self)@.msgs =~= old(self)@.msgs.push(
                MsgDefV { name: def@.name, wire_id: def@.wire_id, offset: off, fields: def@.fields },
            ),
            final(self)@.enums == old(self)@.enums,
            final(self)@.wire_ids == old(self)@.wire_ids,
    {
        let off = self.msgs.len() as u16;
        let def = MsgDef { name: def.name, wire_id: def.wire_id, offset: off, fields: def.fields };
        self.msgs.push(def);
        proof {
            assert(self@.enums =~= old(self)@.enums);
            let newv = self@;
            let oldv = old(self)@;
            assert(newv.msgs =~= oldv.msgs.push(newv.msgs.last()));
            assert forall|i: int| 0 <= i < newv.msgs.len() implies msg_wf(
                #[trigger] newv.msgs[i],
                newv,
            ) by {
                if i < oldv.msgs.len() {
                    assert(msg_wf(oldv.msgs[i], oldv));
                    assert forall|k: int| 0 <= k < newv.msgs[i].fields.len() implies field_wf(
                        #[trigger] newv.msgs[i].fields[k],
                        newv,
                    ) by {
                        assert(field_wf(oldv.msgs[i].fields[k], oldv));
                    }
                } else {
                    assert forall|k: int| 0 <= k < newv.msgs[i].fields.len() implies field_wf(
                        #[trigger] newv.msgs[i].fields[k],
                        newv,
                    ) by {
                        assert(newv.msgs[i].fields[k] == def@.fields[k]);
                    }
                }
            }
        }
        off
    }

    /// Registers `wire_id` under the `enum_name` namespace as denoting the
    /// message at `offset`.
    pub fn add_wire_id(&mut self, enum_name: u16, wire_id: u16, offset: u16) -> (r: ())
        requires
            old(self)@.wf(),
            (offset as int) < old(self)@.msgs.len(),
            old(self)@.msgs[offset as int].wire_id == Some(wire_id),
            forall|i: int|
                0 <= i < old(self)@.wire_ids.len() ==> !((#[trigger] old(
                    self,
                )@.wire_ids[i]).enum_name == enum_name && old(self)@.wire_ids[i].wire_id
                    == wire_id),
        ensures
            final(self)@.wf(),
            final(self)@.wire_ids =~= old(self)@.wire_ids.push(
                WireEntry { enum_name, wire_id, offset },
            ),
            final(self)@.msgs == old(self)@.msgs,
            final(self)@.enums == old(self)@.enums,
    {
        self.wire_ids.push(WireEntry { enum_name, wire_id, offset });
        proof {
            assert(self@.msgs =~= old(self)@.msgs);
            assert(self@.enums =~= old(self)@.enums);
            assert forall|i: int| 0 <= i < self@.msgs.len() implies msg_wf(
                #[trigger] self@.msgs[i],
                self@,
            ) by {
                assert(msg_wf(old(self)@.msgs[i], old(self)@));
                assert forall|k: int| 0 <= k < self@.msgs[i].fields.len() implies field_wf(
                    #[trigger] self@.msgs[i].fields[k],
                    self@,
                ) by {
                    assert(field_wf(old(self)@.msgs[i].fields[k], old(self)@));
                }
            }
        }
    }

    /// Number of registered messages.
    pub fn msg_count(&self) -> (n: usize)
        ensures
            n == self@.msgs.len(),
    {
        self.msgs.len()
    }

    /// The descriptor at a given table offset.
    pub fn get_msg(&self, offset: u16) -> (r: &MsgDef)
        requires
            (offset as int) < self@.msgs.len(),
        ensures
            r@ == self@.msgs[offset as int],
    {
        &self.msgs[offset as usize]
    }

    /// Name token of the message at `offset`, used for diagnostics and the
    /// self-describing name query.
    pub fn name_of(&self, offset: u16) -> (r: Option<u16>)
        ensures
            match r {
                Some(n) => (offset as int) < self@.msgs.len() && n == self@.msgs[offset as int].name,
                None => (offset as int) >= self@.msgs.len(),
            },
    {
        if (offset as usize) < self.msgs.len() {
            Some(self.msgs[offset as usize].name)
        } else {
            None
        }
    }

    /// Finds the descriptor registered under a message name.
    pub fn resolve_by_name(&self, name: u16) -> (r: Result<&MsgDef, Error>)
        ensures
            match r {
                Ok(d) => exists|i: int|
                    0 <= i < self@.msgs.len() && #[trigger] self@.msgs[i] == d@ && d@.name == name,
                Err(e) => e == Error::NotFound && forall|i: int|
                    0 <= i < self@.msgs.len() ==> (#[trigger] self@.msgs[i]).name != name,
            },
    {
        let mut i: usize = 0;
        while i < self.msgs.len()
            invariant
                i <= self.msgs.len(),
                forall|j: int| 0 <= j < i ==> (#[trigger] self@.msgs[j]).name != name,
            decreases self.msgs.len() - i,
        {
            if self.msgs[i].name == name {
                proof {
                    assert(self@.msgs[i as int] == self.msgs@[i as int]@);
                }
                return Ok(&self.msgs[i]);
            }
            i += 1;
        }
        Err(Error::NotFound)
    }

    /// Finds the descriptor registered under `(enum_name, wire_id)`. An
    /// unregistered id is NotFound, never a fallback descriptor.
    pub fn resolve_by_wire_id(&self, enum_name: u16, wire_id: u16) -> (r: Result<&MsgDef, Error>)
        requires
            self@.wf(),
        ensures
            match r {
                Ok(d) => exists|i: int|
                    0 <= i < self@.wire_ids.len() && (#[trigger] self@.wire_ids[i]).enum_name
                        == enum_name && self@.wire_ids[i].wire_id == wire_id && d@
                        == self@.msgs[self@.wire_ids[i].offset as int],
                Err(e) => e == Error::NotFound && forall|i: int|
                    0 <= i < self@.wire_ids.len() ==> !((#[trigger] self@.wire_ids[i]).enum_name
                        == enum_name && self@.wire_ids[i].wire_id == wire_id),
            },
    {
        let mut i: usize = 0;
        while i < self.wire_ids.len()
            invariant
                self@.wf(),
                i <= self.wire_ids.len(),
                forall|j: int|
                    0 <= j < i ==> !((#[trigger] self@.wire_ids[j]).enum_name == enum_name
                        && self@.wire_ids[j].wire_id == wire_id),
            decreases self.wire_ids.len() - i,
        {
            let e = self.wire_ids[i];
            proof {
                assert(e == self@.wire_ids[i as int]);
            }
            if e.enum_name == enum_name && e.wire_id == wire_id {
                proof {
                    assert((self@.wire_ids[i as int].offset as int) < self@.msgs.len());
                }
                return Ok(&self.msgs[e.offset as usize]);
            }
            i += 1;
        }
        Err(Error::NotFound)
    }

    /// Whether `v` is admissible for the enum value table `enum_id`.
    pub fn enum_allows(&self, enum_id: u16, v: u64) -> (r: bool)
        requires
            (enum_id as int) < self@.enums.len(),
        ensures
            r == spec_enum_allows(self@.enums[enum_id as int], v),
    {
        let vals = &self.enums[enum_id as usize];
        let mut i: usize = 0;
        while i < vals.len()
            invariant
                i <= vals@.len(),
                vals@ == self@.enums[enum_id as int],
                forall|j: int| 0 <= j < i ==> (#[trigger] vals@[j]) as u64 != v,
            decreases vals@.len() - i,
        {
            if vals[i] as u64 == v {
                return true;
            }
            i += 1;
        }
        false
    }
}

/// A first-class handle on one message definition, as handed to the
/// scripting host: message "types" share one runtime shape and differ only
/// in the descriptor carried here.
pub struct MsgDefObj {
    def: MsgDef,
}

impl MsgDefObj {
    /// Wraps a message definition for the host.
    pub fn alloc_def(def: MsgDef) -> (r: Self)
        ensures
            r.msg_spec() == def@,
    {
        MsgDefObj { def }
    }

    /// The wrapped definition.
    pub fn msg(&self) -> (r: &MsgDef)
        ensures
            r@ == self.msg_spec(),
    {
        &self.def
    }

    /// The wrapped definition's value.
    pub closed spec fn msg_spec(&self) -> MsgDefV {
        self.def@
    }

    /// Whether a record is an instance of this message type: type identity
    /// is descriptor-offset equality, not structural subtyping.
    pub fn is_type_of(&self, rec: &crate::value::MsgObj) -> (r: bool)
        ensures
            r == (rec@.offset == self.msg_spec().offset),
    {
        rec.msg_offset() == self.def.offset
    }
}

/// Whether `v` appears in the enum value table.
pub open spec fn spec_enum_allows(vals: Seq<u16>, v: u64) -> bool {
    exists|i: int| 0 <= i < vals.len() && #[trigger] vals[i] as u64 == v
}

/// Wire type implied by a field's declared kind.
pub open spec fn kind_wire(k: FieldKind) -> crate::wire::WireType {
    match k {
        FieldKind::Int | FieldKind::Sint | FieldKind::Bool | FieldKind::Enum =>
            crate::wire::WireType::Varint,
        FieldKind::Str | FieldKind::Bytes | FieldKind::Msg => crate::wire::WireType::LenDelim,
    }
}

/// Wire type implied by a field's declared kind.
pub fn kind_wire_of(k: FieldKind) -> (w: crate::wire::WireType)
    ensures
        w == kind_wire(k),
{
    match k {
        FieldKind::Int | FieldKind::Sint | FieldKind::Bool | FieldKind::Enum =>
            crate::wire::WireType::Varint,
        FieldKind::Str | FieldKind::Bytes | FieldKind::Msg => crate::wire::WireType::LenDelim,
    }
}

} // verus!
