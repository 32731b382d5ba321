//! Runtime values carried by message records.

use vstd::prelude::*;

verus! {

broadcast use vstd::std_specs::vec::axiom_vec_decreases_to_view, vstd::seq::axiom_seq_index_decreases;

/// Mathematical model of a field value.
pub enum ValV {
    Absent,
    Bool(bool),
    Int(int),
    Bytes(Seq<u8>),
    List(Seq<ValV>),
    Msg(RecV),
}

/// Mathematical model of a message record: named field values in
/// declaration order, together with the identity of the descriptor the
/// record was built from.
pub struct RecV {
    pub wire_id: Option<u16>,
    pub offset: u16,
    pub fields: Seq<(u16, ValV)>,
}

/// A field value: a tagged union over the shapes a decoded field can take.
pub enum Value {
    /// An optional field that is not set; distinct from any set value.
    Absent,
    Bool(bool),
    /// An integer; wide enough for the unsigned and the signed 64-bit range,
    /// which kind the field's descriptor decides.
    Int(i128),
    /// A byte run; carries text fields as their UTF-8 bytes.
    Bytes(Vec<u8>),
    /// The ordered values of a repeated field.
    List(Vec<Value>),
    /// An embedded message.
    Msg(MsgObj),
}

/// Name-indexed field storage with a fixed capacity.
pub struct FieldMap {
    pub(crate) entries: Vec<(u16, Value)>,
    pub(crate) capacity: usize,
}

/// A decoded or constructed message instance.
pub struct MsgObj {
    pub(crate) map: FieldMap,
    pub(crate) msg_wire_id: Option<u16>,
    pub(crate) msg_offset: u16,
}

pub open spec fn value_view(v: Value) -> ValV
    decreases v,
{
    match v {
        Value::Absent => ValV::Absent,
        Value::Bool(b) => ValV::Bool(b),
        Value::Int(i) => ValV::Int(i as int),
        Value::Bytes(b) => ValV::Bytes(b@),
        Value::List(items) => ValV::List(list_view(items@)),
        Value::Msg(m) => ValV::Msg(msg_view(m)),
    }
}

pub open spec fn list_view(s: Seq<Value>) -> Seq<ValV>
    decreases s,
{
    if s.len() == 0 {
        Seq::empty()
    } else {
        list_view(s.drop_last()).push(value_view(s.last()))
    }
}

pub open spec fn pairs_view(s: Seq<(u16, Value)>) -> Seq<(u16, ValV)>
    decreases s,
{
    if s.len() == 0 {
        Seq::empty()
    } else {
        pairs_view(s.drop_last()).push((s.last().0, value_view(s.last().1)))
    }
}

pub closed spec fn msg_view(m: MsgObj) -> RecV
    decreases m,
{
    RecV {
        wire_id: m.msg_wire_id,
        offset: m.msg_offset,
        fields: pairs_view(m.map.entries@),
    }
}

impl View for Value {
    type V = ValV;

    open spec fn view(&self) -> ValV {
        value_view(*self)
    }
}

impl View for MsgObj {
    type V = RecV;

    open spec fn view(&self) -> RecV {
        msg_view(*self)
    }
}

impl View for FieldMap {
    type V = Seq<(u16, ValV)>;

    closed spec fn view(&self) -> Seq<(u16, ValV)> {
        pairs_view(self.entries@)
    }
}

pub broadcast proof fn lemma_pairs_view_len(s: Seq<(u16, Value)>)
    ensures
        #[trigger] pairs_view(s).len() == s.len(),
    decreases s,
{
    if s.len() > 0 {
        lemma_pairs_view_len(s.drop_last());
    }
}

pub broadcast proof fn lemma_pairs_view_index(s: Seq<(u16, Value)>, i: int)
    requires
        0 <= i < s.len(),
    ensures
        #[trigger] pairs_view(s)[i] == (s[i].0, value_view(s[i].1)),
    decreases s,
{
    lemma_pairs_view_len(s);
    if i < s.len() - 1 {
        lemma_pairs_view_index(s.drop_last(), i);
    }
}

pub broadcast proof fn lemma_list_view_len(s: Seq<Value>)
    ensures
        #[trigger] list_view(s).len() == s.len(),
    decreases s,
{
    if s.len() > 0 {
        lemma_list_view_len(s.drop_last());
    }
}

pub broadcast proof fn lemma_list_view_index(s: Seq<Value>, i: int)
    requires
        0 <= i < s.len(),
    ensures
        #[trigger] list_view(s)[i] == value_view(s[i]),
    decreases s,
{
    lemma_list_view_len(s);
    if i < s.len() - 1 {
        lemma_list_view_index(s.drop_last(), i);
    }
}

pub broadcast proof fn lemma_list_view_update(s: Seq<Value>, i: int, v: Value)
    requires
        0 <= i < s.len(),
    ensures
        #[trigger] list_view(s.update(i, v)) == list_view(s).update(i, value_view(v)),
{
    lemma_list_view_len(s);
    lemma_list_view_len(s.update(i, v));
    assert forall|j: int| 0 <= j < s.len() implies list_view(s.update(i, v))[j] == list_view(
        s,
    ).update(i, value_view(v))[j] by {
        lemma_list_view_index(s.update(i, v), j);
        lemma_list_view_index(s, j);
    }
    assert(list_view(s.update(i, v)) =~= list_view(s).update(i, value_view(v)));
}

/// No name token appears twice.
pub open spec fn names_unique(s: Seq<(u16, ValV)>) -> bool {
    forall|i: int, j: int| 0 <= i < j < s.len() ==> (#[trigger] s[i]).0 != (#[trigger] s[j]).0
}

/// Index of the first entry stored under `name`, if any.
pub open spec fn entry_index_of(s: Seq<(u16, ValV)>, name: u16) -> Option<int>
    decreases s.len(),
{
    if s.len() == 0 {
        None
    } else if s[0].0 == name {
        Some(0)
    } else {
        match entry_index_of(s.skip(1), name) {
            Some(i) => Some(i + 1),
            None => None,
        }
    }
}

pub proof fn lemma_entry_index_of_props(s: Seq<(u16, ValV)>, name: u16)
    ensures
        entry_index_of(s, name) matches Some(i) ==> 0 <= i < s.len() && s[i].0 == name,
        entry_index_of(s, name) is None <==> forall|i: int|
            0 <= i < s.len() ==> (#[trigger] s[i]).0 != name,
    decreases s.len(),
{
    if s.len() == 0 {
    } else if s[0].0 == name {
    } else {
        lemma_entry_index_of_props(s.skip(1), name);
        if entry_index_of(s.skip(1), name) is Some {
            let i = entry_index_of(s.skip(1), name)->Some_0;
            assert(s.skip(1)[i] == s[i + 1]);
        }
        assert forall|i: int| 0 <= i < s.len() && s[i].0 == name implies !(entry_index_of(s, name)
            is None) by {
            if i > 0 {
                assert(s.skip(1)[i - 1] == s[i]);
            }
        }
    }
}

/// Which position a name is found at depends on the names alone.
pub proof fn lemma_entry_index_of_names(a: Seq<(u16, ValV)>, b: Seq<(u16, ValV)>, name: u16)
    requires
        a.len() == b.len(),
        forall|i: int| 0 <= i < a.len() ==> (#[trigger] a[i]).0 == b[i].0,
    ensures
        entry_index_of(a, name) == entry_index_of(b, name),
    decreases a.len(),
{
    if a.len() > 0 {
        assert(a[0].0 == b[0].0);
        assert forall|i: int| 0 <= i < a.skip(1).len() implies (#[trigger] a.skip(1)[i]).0
            == b.skip(1)[i].0 by {
            assert(a.skip(1)[i] == a[i + 1]);
            assert(b.skip(1)[i] == b[i + 1]);
        }
        lemma_entry_index_of_names(a.skip(1), b.skip(1), name);
    }
}

impl FieldMap {
    /// Whether names are unambiguous and the store is within its capacity.
    pub open spec fn wf(&self) -> bool {
        names_unique(self@) && self@.len() <= self.spec_capacity()
    }

    /// The fixed number of entries this store may hold.
    pub closed spec fn spec_capacity(&self) -> usize {
        self.capacity
    }

    /// An empty store that may grow to `capacity` entries.
    pub fn with_capacity(capacity: usize) -> (r: Self)
        ensures
            r@ =~= Seq::<(u16, ValV)>::empty(),
            r.wf(),
            r.spec_capacity() == capacity,
    {
        let r = FieldMap { entries: Vec::new(), capacity };
        proof {
            lemma_pairs_view_len(r.entries@);
        }
        r
    }

    /// Builds a store holding exactly the given entries.
    pub(crate) fn from_entries(entries: Vec<(u16, Value)>, capacity: usize) -> (r: Self)
        requires
            names_unique(pairs_view(entries@)),
            entries@.len() <= capacity,
    ensures
            r@ == pairs_view(entries@),
            r.wf(),
            r.spec_capacity() == capacity,
    {
        let r = FieldMap { entries, capacity };
        proof {
            lemma_pairs_view_len(r.entries@);
        }
        r
    }

    pub fn len(&self) -> (n: usize)
        ensures
            n == self@.len(),
    {
        proof {
            lemma_pairs_view_len(self.entries@);
        }
        self.entries.len()
    }

    /// The entry at position `i`: its name token and a borrow of its value.
    pub fn entry_at(&self, i: usize) -> (r: (u16, &Value))
        requires
            i < self@.len(),
        ensures
            r.0 == self@[i as int].0,
            r.1@ == self@[i as int].1,
    {
        proof {
            lemma_pairs_view_len(self.entries@);
            lemma_pairs_view_index(self.entries@, i as int);
        }
        (self.entries[i].0, &self.entries[i].1)
    }

    /// Position of the entry stored under `name`, if any.
    pub fn index_of(&self, name: u16) -> (r: Option<usize>)
        ensures
            match r {
                Some(i) => entry_index_of(self@, name) == Some(i as int),
                None => entry_index_of(self@, name) is None,
            },
    {
        proof {
            lemma_pairs_view_len(self.entries@);
            assert(self@.skip(0) =~= self@);
        }
        let mut i: usize = 0;
        while i < self.entries.len()
            invariant
                i <= self@.len(),
                self@.len() == self.entries@.len(),
                self@ == pairs_view(self.entries@),
                entry_index_of(self@.skip(i as int), name) is Some ==> entry_index_of(self@, name)
                    == Some(entry_index_of(self@.skip(i as int), name)->Some_0 + i),
                entry_index_of(self@.skip(i as int), name) is None ==> entry_index_of(self@, name)
                    is None,
            decreases self@.len() - i,
        {
            proof {
                lemma_pairs_view_index(self.entries@, i as int);
                assert(self@.skip(i as int)[0] == self@[i as int]);
            }
            if self.entries[i].0 == name {
                return Some(i);
            }
            proof {
                assert(self@.skip(i as int).skip(1) =~= self@.skip(i + 1));
            }
            i += 1;
        }
        None
    }

    /// Whether an entry is stored under `name`.
    pub fn contains_key(&self, name: u16) -> (r: bool)
        ensures
            r == !(entry_index_of(self@, name) is None),
    {
        self.index_of(name).is_some()
    }

    /// The value stored under `name`, if any.
    pub fn get(&self, name: u16) -> (r: Option<&Value>)
        ensures
            match r {
                Some(v) => (entry_index_of(self@, name) matches Some(i) && v@ == self@[i].1),
                None => entry_index_of(self@, name) is None,
            },
    {
        proof {
            lemma_entry_index_of_props(self@, name);
            lemma_pairs_view_len(self.entries@);
        }
        match self.index_of(name) {
            Some(i) => {
                proof {
                    lemma_pairs_view_index(self.entries@, i as int);
                }
                Some(&self.entries[i].1)
            },
            None => None,
        }
    }

    /// Stores `value` under `name`: replaces the existing entry, or appends
    /// a fresh one while capacity is left.
    pub fn insert(&mut self, name: u16, value: Value) -> (r: ())
        requires
            old(self).wf(),
            entry_index_of(old(self)@, name) is Some || old(self)@.len() < old(
                self,
            ).spec_capacity(),
        ensures
            final(self).wf(),
            final(self).spec_capacity() == old(self).spec_capacity(),
            match entry_index_of(old(self)@, name) {
                Some(i) => final(self)@ =~= old(self)@.update(i, (name, value_view(value))),
                None => final(self)@ =~= old(self)@.push((name, value_view(value))),
            },
    {
        proof {
            lemma_entry_index_of_props(self@, name);
            lemma_pairs_view_len(self.entries@);
        }
        match self.index_of(name) {
            Some(i) => {
                self.entries[i] = (name, value);
                proof {
                    let i = i as int;
                    lemma_pairs_view_len(self.entries@);
                    assert forall|j: int| 0 <= j < self.entries@.len() implies #[trigger] pairs_view(
                        self.entries@,
                    )[j] == old(self)@.update(i, (name, value_view(value)))[j] by {
                        lemma_pairs_view_index(self.entries@, j);
                        lemma_pairs_view_index(old(self).entries@, j);
                    }
                    assert(names_unique(self@)) by {
                        assert forall|a: int, b: int|
                            0 <= a < b < self@.len() implies (#[trigger] self@[a]).0
                            != (#[trigger] self@[b]).0 by {
                            assert(old(self)@[a].0 != old(self)@[b].0);
                            assert(old(self)@[i].0 == name);
                        }
                    }
                }
            },
            None => {
                self.entries.push((name, value));
                proof {
                    lemma_pairs_view_len(self.entries@);
                    assert forall|j: int| 0 <= j < self.entries@.len() implies #[trigger] pairs_view(
                        self.entries@,
                    )[j] == old(self)@.push((name, value_view(value)))[j] by {
                        lemma_pairs_view_index(self.entries@, j);
                        if j < self.entries@.len() - 1 {
                            lemma_pairs_view_index(old(self).entries@, j);
                        }
                    }
                    lemma_entry_index_of_props(old(self)@, name);
                    assert(names_unique(self@)) by {
                        assert forall|a: int, b: int|
                            0 <= a < b < self@.len() implies (#[trigger] self@[a]).0
                            != (#[trigger] self@[b]).0 by {
                            if b < self@.len() - 1 {
                                assert(old(self)@[a].0 != old(self)@[b].0);
                            } else {
                                assert(old(self)@[a].0 != name);
                            }
                        }
                    }
                }
            },
        }
    }
}

impl MsgObj {
    /// Allocates an empty record shaped for `msg`: room for one value per
    /// field, carrying the descriptor's identity.
    pub fn alloc_with_capacity(capacity: usize, msg: &crate::descriptor::MsgDef) -> (r: Self)
        ensures
            r@.fields =~= Seq::<(u16, ValV)>::empty(),
            r@.wire_id == msg@.wire_id,
            r@.offset == msg@.offset,
            r.spec_map().wf(),
            r.spec_map().spec_capacity() == capacity,
    {
        MsgObj {
            map: FieldMap::with_capacity(capacity),
            msg_wire_id: msg.wire_id,
            msg_offset: msg.offset,
        }
    }

    /// Builds a record from parts.
    pub(crate) fn from_parts(map: FieldMap, wire_id: Option<u16>, offset: u16) -> (r: Self)
        ensures
            r@ == (RecV { wire_id, offset, fields: map@ }),
            r.spec_map() == map,
    {
        MsgObj { map, msg_wire_id: wire_id, msg_offset: offset }
    }

    /// The field storage, for spec-level reasoning.
    pub closed spec fn spec_map(&self) -> FieldMap {
        self.map
    }

    /// The name-indexed field storage.
    pub fn map(&self) -> (r: &FieldMap)
        ensures
            r@ == self@.fields,
    {
        &self.map
    }

    /// Mutable access to the field storage; the record's identity is kept.
    pub fn map_mut(&mut self) -> (r: &mut FieldMap)
        ensures
            *r == old(self).spec_map(),
            final(self)@.fields == final(r)@,
            final(self)@.wire_id == old(self)@.wire_id,
            final(self)@.offset == old(self)@.offset,
    {
        &mut self.map
    }

    /// Wire id of the record's message type, if it has one.
    pub fn wire_id(&self) -> (r: Option<u16>)
        ensures
            r == self@.wire_id,
    {
        self.msg_wire_id
    }

    /// Table offset of the record's message type: its type identity.
    pub fn msg_offset(&self) -> (r: u16)
        ensures
            r == self@.offset,
    {
        self.msg_offset
    }

    /// Reads a field value by name, as the record host does.
    pub fn get_field(&self, name: u16) -> (r: Option<&Value>)
        ensures
            match r {
                Some(v) => (entry_index_of(self@.fields, name) matches Some(i) && v@
                    == self@.fields[i].1),
                None => entry_index_of(self@.fields, name) is None,
            },
    {
        self.map.get(name)
    }

    /// Writes a field value by name; a name outside the record's fixed field
    /// set is rejected.
    pub fn set_field(&mut self, name: u16, value: Value) -> (r: Result<(), crate::err::Error>)
        requires
            old(self).spec_map().wf(),
        ensures
            final(self).spec_map().wf(),
            final(self)@.wire_id == old(self)@.wire_id,
            final(self)@.offset == old(self)@.offset,
            match r {
                Ok(()) => entry_index_of(old(self)@.fields, name) matches Some(i)
                    && final(self)@.fields =~= old(self)@.fields.update(
                    i,
                    (name, value_view(value)),
                ),
                Err(e) => e == crate::err::Error::UnknownFieldName && entry_index_of(
                    old(self)@.fields,
                    name,
                ) is None && final(self)@.fields == old(self)@.fields,
            },
    {
        if self.map.contains_key(name) {
            self.map.insert(name, value);
            Ok(())
        } else {
            Err(crate::err::Error::UnknownFieldName)
        }
    }
}


/// Spells the record view out over the record's parts, for this crate's
/// own proofs.
pub(crate) proof fn lemma_msg_view_parts(m: MsgObj)
    ensures
        m@ == (RecV {
            wire_id: m.msg_wire_id,
            offset: m.msg_offset,
            fields: pairs_view(m.map.entries@),
        }),
{
}

/// Spells the store view out over its entries, for this crate's own proofs.
pub(crate) proof fn lemma_fieldmap_view(fm: FieldMap)
    ensures
        fm@ == pairs_view(fm.entries@),
        fm.spec_capacity() == fm.capacity,
{
}

/// Whether a single value fits a field's declared kind (the field's
/// multiplicity aside).
pub open spec fn scalar_compat(
    v: ValV,
    f: crate::descriptor::FieldDescriptor,
    t: crate::descriptor::TableV,
) -> bool
    decreases v, 0int,
{
    match f.kind {
        crate::descriptor::FieldKind::Int => v matches ValV::Int(i) && 0 <= i <= u64::MAX,
        crate::descriptor::FieldKind::Sint => v matches ValV::Int(i) && i64::MIN <= i
            <= i64::MAX,
        crate::descriptor::FieldKind::Bool => v is Bool,
        crate::descriptor::FieldKind::Enum => v matches ValV::Int(i) && 0 <= i <= u64::MAX
            && (f.enum_id matches Some(e) && (e as int) < t.enums.len()
            && crate::descriptor::spec_enum_allows(t.enums[e as int], i as u64)),
        crate::descriptor::FieldKind::Str | crate::descriptor::FieldKind::Bytes => v is Bytes,
        crate::descriptor::FieldKind::Msg => v matches ValV::Msg(r) && (f.msg_offset
            matches Some(o) && (o as int) < t.msgs.len() && r.offset == o && rec_compat(
            r,
            t.msgs[o as int],
            t,
        )),
    }
}

/// Every element of a repeated field's list fits the field's kind.
pub open spec fn list_compat(
    items: Seq<ValV>,
    f: crate::descriptor::FieldDescriptor,
    t: crate::descriptor::TableV,
) -> bool
    decreases items, 0int,
{
    if items.len() == 0 {
        true
    } else {
        list_compat(items.drop_last(), f, t) && scalar_compat(items.last(), f, t)
    }
}

/// Whether the stored slot of a field is admissible: present and fitting for
/// required fields, possibly absent for optional ones, an ordered list for
/// repeated ones.
pub open spec fn slot_compat(
    v: ValV,
    f: crate::descriptor::FieldDescriptor,
    t: crate::descriptor::TableV,
) -> bool
    decreases v, 1int,
{
    match f.mult {
        crate::descriptor::Multiplicity::Required => scalar_compat(v, f, t),
        crate::descriptor::Multiplicity::Optional => v is Absent || scalar_compat(v, f, t),
        crate::descriptor::Multiplicity::Repeated => v matches ValV::List(items) && list_compat(
            items,
            f,
            t,
        ),
    }
}

/// Positional agreement of record entries with the descriptor's fields.
pub open spec fn fields_compat(
    rf: Seq<(u16, ValV)>,
    df: Seq<crate::descriptor::FieldDescriptor>,
    t: crate::descriptor::TableV,
) -> bool
    decreases rf, 0int,
{
    if rf.len() == 0 {
        true
    } else {
        fields_compat(rf.drop_last(), df.drop_last(), t) && df.len() == rf.len()
            && rf.last().0 == df.last().name && slot_compat(rf.last().1, df.last(), t)
    }
}

/// A record has exactly the descriptor's shape: the descriptor's identity,
/// one slot per field in declaration order, every slot admissible.
pub open spec fn rec_compat(
    r: RecV,
    d: crate::descriptor::MsgDefV,
    t: crate::descriptor::TableV,
) -> bool
    decreases r, 0int,
{
    r.offset == d.offset && r.wire_id == d.wire_id && r.fields.len() == d.fields.len()
        && fields_compat(r.fields, d.fields, t)
}

pub proof fn lemma_fields_compat_index(
    rf: Seq<(u16, ValV)>,
    df: Seq<crate::descriptor::FieldDescriptor>,
    t: crate::descriptor::TableV,
)
    requires
        rf.len() == df.len(),
    ensures
        fields_compat(rf, df, t) <==> forall|i: int|
            0 <= i < rf.len() ==> (#[trigger] rf[i]).0 == df[i].name && slot_compat(
                rf[i].1,
                df[i],
                t,
            ),
    decreases rf,
{
    if rf.len() > 0 {
        lemma_fields_compat_index(rf.drop_last(), df.drop_last(), t);
        if fields_compat(rf, df, t) {
            assert forall|i: int| 0 <= i < rf.len() implies (#[trigger] rf[i]).0 == df[i].name
                && slot_compat(rf[i].1, df[i], t) by {
                if i < rf.len() - 1 {
                    assert(rf.drop_last()[i] == rf[i]);
                    assert(df.drop_last()[i] == df[i]);
                } else {
                    assert(rf.last() == rf[i]);
                }
            }
        }
        if forall|i: int|
            0 <= i < rf.len() ==> (#[trigger] rf[i]).0 == df[i].name && slot_compat(
                rf[i].1,
                df[i],
                t,
            ) {
            assert forall|i: int|
                0 <= i < rf.drop_last().len() implies (#[trigger] rf.drop_last()[i]).0
                == df.drop_last()[i].name && slot_compat(
                rf.drop_last()[i].1,
                df.drop_last()[i],
                t,
            ) by {
                assert(rf.drop_last()[i] == rf[i]);
                assert(df.drop_last()[i] == df[i]);
            }
            assert(rf.last() == rf[rf.len() - 1]);
        }
    }
}

pub proof fn lemma_list_compat_index(
    items: Seq<ValV>,
    f: crate::descriptor::FieldDescriptor,
    t: crate::descriptor::TableV,
)
    ensures
        list_compat(items, f, t) <==> forall|i: int|
            0 <= i < items.len() ==> scalar_compat(#[trigger] items[i], f, t),
    decreases items,
{
    if items.len() > 0 {
        lemma_list_compat_index(items.drop_last(), f, t);
        if list_compat(items, f, t) {
            assert forall|i: int| 0 <= i < items.len() implies scalar_compat(
                #[trigger] items[i],
                f,
                t,
            ) by {
                if i < items.len() - 1 {
                    assert(items.drop_last()[i] == items[i]);
                } else {
                    assert(items.last() == items[i]);
                }
            }
        }
        if forall|i: int| 0 <= i < items.len() ==> scalar_compat(#[trigger] items[i], f, t) {
            assert forall|i: int| 0 <= i < items.drop_last().len() implies scalar_compat(
                #[trigger] items.drop_last()[i],
                f,
                t,
            ) by {
                assert(items.drop_last()[i] == items[i]);
            }
            assert(items.last() == items[items.len() - 1]);
        }
    }
}

} // verus!
