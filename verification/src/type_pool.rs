//! Type descriptors of a JFR chunk, as plain values, and the lookups that
//! the schema traversal makes on a pool of them.
use vstd::prelude::*;

use jfrs::reader::type_descriptor::TypePool;
use jfrs::reader::Chunk;

verus! {

#[verifier::external_type_specification]
#[verifier::external_body]
pub struct ExTypePool(TypePool);

#[verifier::external_type_specification]
#[verifier::external_body]
pub struct ExChunk(Chunk);

/// How a JFR `long` value counts time in ticks.
#[derive(Debug, Clone, Copy, PartialEq, Eq, Structural)]
pub enum TickUnit {
    Timespan,
    Timestamp,
}

/// The unit annotated on a JFR field.
#[derive(Debug, Clone, Copy, PartialEq, Eq, Structural)]
pub enum Unit {
    Byte,
    PercentUnity,
    AddressUnity,
    Hz,
    Nanosecond,
    Millisecond,
    Second,
    EpochNano,
    EpochMilli,
    EpochSecond,
}

/// The tick unit that a code stands for: codes follow the order in which
/// the units are declared.
pub open spec fn tick_unit_of_code(code: u8) -> Option<TickUnit> {
    if code == 0 {
        Some(TickUnit::Timespan)
    } else if code == 1 {
        Some(TickUnit::Timestamp)
    } else {
        None
    }
}

/// The unit that a code stands for: codes follow the order in which the
/// units are declared.
pub open spec fn unit_of_code(code: u8) -> Option<Unit> {
    if code == 0 {
        Some(Unit::Byte)
    } else if code == 1 {
        Some(Unit::PercentUnity)
    } else if code == 2 {
        Some(Unit::AddressUnity)
    } else if code == 3 {
        Some(Unit::Hz)
    } else if code == 4 {
        Some(Unit::Nanosecond)
    } else if code == 5 {
        Some(Unit::Millisecond)
    } else if code == 6 {
        Some(Unit::Second)
    } else if code == 7 {
        Some(Unit::EpochNano)
    } else if code == 8 {
        Some(Unit::EpochMilli)
    } else if code == 9 {
        Some(Unit::EpochSecond)
    } else {
        None
    }
}

pub open spec fn opt_tick_unit(code: Option<u8>) -> Option<TickUnit> {
    match code {
        Some(c) => tick_unit_of_code(c),
        None => None,
    }
}

pub open spec fn opt_unit(code: Option<u8>) -> Option<Unit> {
    match code {
        Some(c) => unit_of_code(c),
        None => None,
    }
}

impl TickUnit {
    pub open spec fn spec_code(self) -> u8 {
        match self {
            TickUnit::Timespan => 0,
            TickUnit::Timestamp => 1,
        }
    }

    /// The code of this tick unit.
    pub fn code(self) -> (c: u8)
        ensures
            c == self.spec_code(),
            tick_unit_of_code(c) == Some(self),
    {
        match self {
            TickUnit::Timespan => 0,
            TickUnit::Timestamp => 1,
        }
    }

    /// The tick unit of a code, if the code stands for one.
    pub fn from_code(code: u8) -> (r: Option<TickUnit>)
        ensures
            r == tick_unit_of_code(code),
    {
        if code == 0 {
            Some(TickUnit::Timespan)
        } else if code == 1 {
            Some(TickUnit::Timestamp)
        } else {
            None
        }
    }
}

impl Unit {
    pub open spec fn spec_code(self) -> u8 {
        match self {
            Unit::Byte => 0,
            Unit::PercentUnity => 1,
            Unit::AddressUnity => 2,
            Unit::Hz => 3,
            Unit::Nanosecond => 4,
            Unit::Millisecond => 5,
            Unit::Second => 6,
            Unit::EpochNano => 7,
            Unit::EpochMilli => 8,
            Unit::EpochSecond => 9,
        }
    }

    /// The code of this unit.
    pub fn code(self) -> (c: u8)
        ensures
            c == self.spec_code(),
            unit_of_code(c) == Some(self),
    {
        match self {
            Unit::Byte => 0,
            Unit::PercentUnity => 1,
            Unit::AddressUnity => 2,
            Unit::Hz => 3,
            Unit::Nanosecond => 4,
            Unit::Millisecond => 5,
            Unit::Second => 6,
            Unit::EpochNano => 7,
            Unit::EpochMilli => 8,
            Unit::EpochSecond => 9,
        }
    }

    /// The unit of a code, if the code stands for one.
    pub fn from_code(code: u8) -> (r: Option<Unit>)
        ensures
            r == unit_of_code(code),
    {
        if code == 0 {
            Some(Unit::Byte)
        } else if code == 1 {
            Some(Unit::PercentUnity)
        } else if code == 2 {
            Some(Unit::AddressUnity)
        } else if code == 3 {
            Some(Unit::Hz)
        } else if code == 4 {
            Some(Unit::Nanosecond)
        } else if code == 5 {
            Some(Unit::Millisecond)
        } else if code == 6 {
            Some(Unit::Second)
        } else if code == 7 {
            Some(Unit::EpochNano)
        } else if code == 8 {
            Some(Unit::EpochMilli)
        } else if code == 9 {
            Some(Unit::EpochSecond)
        } else {
            None
        }
    }
}

/// The codes of the tick units and the units undo each other: a unit's
/// code stands for that unit, and a code that stands for a unit is that
/// unit's code.
pub proof fn lemma_unit_codes_round_trip(t: TickUnit, u: Unit, code: u8)
    ensures
        tick_unit_of_code(t.spec_code()) == Some(t),
        tick_unit_of_code(code) matches Some(t2) ==> t2.spec_code() == code,
        unit_of_code(u.spec_code()) == Some(u),
        unit_of_code(code) matches Some(u2) ==> u2.spec_code() == code,
{
}

/// jfrs's tick units, in the order its `TickUnit` enum declares them.
pub open spec fn jfrs_tick_units() -> Seq<TickUnit> {
    seq![TickUnit::Timespan, TickUnit::Timestamp]
}

/// jfrs's units, in the order its `Unit` enum declares them: `Byte`,
/// `PercentUnity`, `AddressUnity`, `Hz`, `Nanosecond`, `Millisecond`,
/// `Second`, `EpochNano`, `EpochMilli`, `EpochSecond`.
pub open spec fn jfrs_units() -> Seq<Unit> {
    seq![
        Unit::Byte,
        Unit::PercentUnity,
        Unit::AddressUnity,
        Unit::Hz,
        Unit::Nanosecond,
        Unit::Millisecond,
        Unit::Second,
        Unit::EpochNano,
        Unit::EpochMilli,
        Unit::EpochSecond,
    ]
}

/// Law: a code is the position of a unit among jfrs's units as jfrs
/// declares them, which is what jfrs's descriptors carry. The code `k`
/// stands for the `k`-th of them and a code past the last stands for none;
/// a unit's own code is its position. So a field that jfrs marks as
/// milliseconds since the epoch gets `EpochMilli`, and so on.
pub proof fn lemma_unit_code_is_declared_position(code: u8, t: TickUnit, u: Unit)
    ensures
        code < jfrs_tick_units().len() ==> tick_unit_of_code(code) == Some(jfrs_tick_units()[code as int]),
        code >= jfrs_tick_units().len() ==> tick_unit_of_code(code) is None,
        code < jfrs_units().len() ==> unit_of_code(code) == Some(jfrs_units()[code as int]),
        code >= jfrs_units().len() ==> unit_of_code(code) is None,
        jfrs_tick_units()[t.spec_code() as int] == t,
        jfrs_units()[u.spec_code() as int] == u,
{
}

/// A field of a type descriptor, as a mathematical value.
pub ghost struct FieldSpec {
    pub name: Seq<char>,
    pub class_id: i64,
    pub array_type: bool,
    pub tick_unit: Option<u8>,
    pub unit: Option<u8>,
}

/// A type descriptor, as a mathematical value.
pub ghost struct TypeSpec {
    pub class_id: i64,
    pub name: Seq<char>,
    pub super_type: Option<Seq<char>>,
    pub fields: Seq<FieldSpec>,
}

/// A field of a type descriptor: its name, the class of its values, whether
/// it holds an array of them, and the codes of its tick unit and unit.
#[derive(Debug, Clone)]
pub struct FieldInfo {
    pub name: String,
    pub class_id: i64,
    pub array_type: bool,
    pub tick_unit: Option<u8>,
    pub unit: Option<u8>,
}

impl View for FieldInfo {
    type V = FieldSpec;

    open spec fn view(&self) -> FieldSpec {
        FieldSpec {
            name: self.name@,
            class_id: self.class_id,
            array_type: self.array_type,
            tick_unit: self.tick_unit,
            unit: self.unit,
        }
    }
}

impl FieldInfo {
    /// A field with the given units.
    pub fn new(
        name: String,
        class_id: i64,
        array_type: bool,
        tick_unit: Option<TickUnit>,
        unit: Option<Unit>,
    ) -> (f: FieldInfo)
        ensures
            f.name == name,
            f.class_id == class_id,
            f.array_type == array_type,
            opt_tick_unit(f.tick_unit) == tick_unit,
            opt_unit(f.unit) == unit,
    {
        let tick_code = match tick_unit {
            Some(t) => Some(t.code()),
            None => None,
        };
        let unit_code = match unit {
            Some(u) => Some(u.code()),
            None => None,
        };
        FieldInfo { name, class_id, array_type, tick_unit: tick_code, unit: unit_code }
    }

    /// A copy of this field.
    pub fn duplicate(&self) -> (f: FieldInfo)
        ensures
            f@ == self@,
    {
        FieldInfo {
            name: self.name.clone(),
            class_id: self.class_id,
            array_type: self.array_type,
            tick_unit: self.tick_unit,
            unit: self.unit,
        }
    }
}

/// A type descriptor: its class id, name, super type and fields.
#[derive(Debug, Clone)]
pub struct TypeInfo {
    pub class_id: i64,
    pub name: String,
    pub super_type: Option<String>,
    pub fields: Vec<FieldInfo>,
}

pub open spec fn opt_string_view(s: Option<String>) -> Option<Seq<char>> {
    match s {
        Some(s) => Some(s@),
        None => None,
    }
}

impl TypeInfo {
    /// A copy of this descriptor.
    pub fn duplicate(&self) -> (t: TypeInfo)
        ensures
            t@ == self@,
    {
        let mut fields: Vec<FieldInfo> = Vec::new();
        let mut i: usize = 0;
        while i < self.fields.len()
            invariant
                i <= self.fields@.len(),
                fields@.len() == i,
                forall|j: int| 0 <= j < i ==> #[trigger] fields@[j]@ == self.fields@[j]@,
            decreases self.fields@.len() - i,
        {
            fields.push(self.fields[i].duplicate());
            i = i + 1;
        }
        let super_type = match &self.super_type {
            Some(s) => Some(s.clone()),
            None => None,
        };
        let t = TypeInfo { class_id: self.class_id, name: self.name.clone(), super_type, fields };
        assert(t@.fields =~= self@.fields);
        t
    }
}

impl View for TypeInfo {
    type V = TypeSpec;

    open spec fn view(&self) -> TypeSpec {
        TypeSpec {
            class_id: self.class_id,
            name: self.name@,
            super_type: opt_string_view(self.super_type),
            fields: self.fields@.map_values(|f: FieldInfo| f@),
        }
    }
}

/// Whether the types, taken as values, are exactly the entries of `e`.
pub open spec fn lists_entries(types: Seq<TypeSpec>, e: Map<i64, TypeSpec>) -> bool {
    &&& e.dom().finite()
    &&& types.len() == e.dom().len()
    &&& forall|i: int| 0 <= i < types.len() ==> #[trigger] e.contains_value(types[i])
    &&& forall|k: i64| #[trigger] e.contains_key(k) ==> types.contains(e[k])
}

/// A pool of type descriptors keyed by class id.
pub trait TypeLookup {
    /// Whether the pool is in a consistent state.
    spec fn pool_wf(&self) -> bool;

    /// The descriptors of the pool, by class id.
    spec fn type_entries(&self) -> Map<i64, TypeSpec>;

    /// The descriptor registered under `class_id`.
    fn lookup(&self, class_id: i64) -> (r: Option<TypeInfo>)
        requires
            self.pool_wf(),
        ensures
            r is Some <==> self.type_entries().contains_key(class_id),
            r matches Some(t) ==> t@ == self.type_entries()[class_id],
    ;

    /// Every descriptor of the pool, each once, in an order that the pool
    /// chooses.
    fn all_types(&self) -> (r: Vec<TypeInfo>)
        requires
            self.pool_wf(),
        ensures
            lists_entries(r@.map_values(|t: TypeInfo| t@), self.type_entries()),
    ;
}

/// What a jfrs type pool holds, by class id.
pub uninterp spec fn type_pool_entries(pool: TypePool) -> Map<i64, TypeSpec>;

/// Calls `TypePool::get` and copies the descriptor found into plain
/// values; the unit codes are the positions of jfrs's unit variants.
/// Trusted: the result is the pool's entry for `class_id`.
#[verifier::external_body]
fn type_pool_get(pool: &TypePool, class_id: i64) -> (r: Option<TypeInfo>)
    ensures
        r is Some <==> type_pool_entries(*pool).contains_key(class_id),
        r matches Some(t) ==> t@ == type_pool_entries(*pool)[class_id],
{
    pool.get(class_id).map(|d| TypeInfo {
        class_id: d.class_id,
        name: d.name().to_string(),
        super_type: d.super_type().map(|s| s.to_string()),
        fields: d.fields.iter().map(|f| FieldInfo {
            name: f.name().to_string(),
            class_id: f.class_id,
            array_type: f.array_type,
            tick_unit: f.tick_unit.map(|u| u as u8),
            unit: f.unit.map(|u| u as u8),
        }).collect(),
    })
}

/// Calls `TypePool::get_types` and copies each descriptor into plain
/// values, in the order of the pool's hash map. Trusted: the pool, which
/// holds a hash map, has finitely many entries; every one comes out once,
/// and nothing else does.
#[verifier::external_body]
fn type_pool_types(pool: &TypePool) -> (r: Vec<TypeInfo>)
    ensures
        lists_entries(r@.map_values(|t: TypeInfo| t@), type_pool_entries(*pool)),
{
    pool.get_types().map(|d| TypeInfo {
        class_id: d.class_id,
        name: d.name().to_string(),
        super_type: d.super_type().map(|s| s.to_string()),
        fields: d.fields.iter().map(|f| FieldInfo {
            name: f.name().to_string(),
            class_id: f.class_id,
            array_type: f.array_type,
            tick_unit: f.tick_unit.map(|u| u as u8),
            unit: f.unit.map(|u| u as u8),
        }).collect(),
    }).collect()
}

impl TypeLookup for TypePool {
    open spec fn pool_wf(&self) -> bool {
        true
    }

    open spec fn type_entries(&self) -> Map<i64, TypeSpec> {
        type_pool_entries(*self)
    }

    fn lookup(&self, class_id: i64) -> (r: Option<TypeInfo>) {
        type_pool_get(self, class_id)
    }

    fn all_types(&self) -> (r: Vec<TypeInfo>) {
        type_pool_types(self)
    }
}

/// A pool of type descriptors held in memory, keyed by class id, as a
/// chunk's metadata keys them.
pub struct TypeTable {
    keys: Vec<i64>,
    types: Vec<TypeInfo>,
}

impl TypeTable {
    /// Each class id is registered at most once.
    pub closed spec fn keys_distinct(&self) -> bool {
        &&& self.keys@.len() == self.types@.len()
        &&& forall|i: int, j: int|
            0 <= i < j < self.keys@.len() ==> self.keys@[i] != self.keys@[j]
    }

    /// An empty table.
    pub fn new() -> (t: TypeTable)
        ensures
            t.type_entries() == Map::<i64, TypeSpec>::empty(),
            t.pool_wf(),
    {
        let t = TypeTable { keys: Vec::new(), types: Vec::new() };
        assert(t.type_entries() =~= Map::<i64, TypeSpec>::empty());
        t
    }

    fn position(&self, class_id: i64) -> (r: Option<usize>)
        requires
            self.keys_distinct(),
        ensures
            match r {
                Some(i) => i < self.keys@.len() && self.keys@[i as int] == class_id,
                None => !self.keys@.contains(class_id),
            },
    {
        let mut i: usize = 0;
        while i < self.keys.len()
            invariant
                i <= self.keys@.len(),
                forall|j: int| 0 <= j < i ==> self.keys@[j] != class_id,
            decreases self.keys@.len() - i,
        {
            if self.keys[i] == class_id {
                return Some(i);
            }
            i = i + 1;
        }
        None
    }

    /// Registers `desc` under `class_id`, replacing what was registered
    /// there.
    pub fn register(&mut self, class_id: i64, desc: TypeInfo)
        requires
            old(self).pool_wf(),
        ensures
            final(self).pool_wf(),
            final(self).type_entries() == old(self).type_entries().insert(class_id, desc@),
    {
        let ghost old_entries = self.type_entries();
        match self.position(class_id) {
            Some(i) => {
                let ghost old_keys = self.keys@;
                let ghost old_types = self.types@;
                self.types.set(i, desc);
                proof {
                    assert(self.keys@ == old_keys);
                    assert forall|k: i64| #![trigger self.keys@.contains(k)]
                        self.keys@.contains(k) && k != class_id
                        implies self.keys@.index_of(k) != i as int by {
                        let j = self.keys@.index_of(k);
                        assert(self.keys@[j] == k);
                    }
                    assert forall|k: i64| #![trigger self.keys@.contains(k)]
                        self.keys@.contains(k) && k == class_id
                        implies self.keys@.index_of(k) == i as int by {
                        let j = self.keys@.index_of(k);
                        assert(self.keys@[j] == k);
                        if j != i as int {
                            if j < i as int {
                                assert(self.keys@[j] != self.keys@[i as int]);
                            } else {
                                assert(self.keys@[i as int] != self.keys@[j]);
                            }
                        }
                    }
                    assert(self.type_entries() =~= old_entries.insert(class_id, desc@));
                }
            },
            None => {
                let ghost old_keys = self.keys@;
                self.keys.push(class_id);
                self.types.push(desc);
                proof {
                    assert forall|k: i64| #![trigger self.keys@.contains(k)]
                        self.keys@.contains(k) && k != class_id
                        implies self.keys@.index_of(k) == old_keys.index_of(k)
                            && old_keys.contains(k) by {
                        let j = self.keys@.index_of(k);
                        assert(self.keys@[j] == k);
                        assert(j < old_keys.len());
                        assert(old_keys[j] == k);
                        let j2 = old_keys.index_of(k);
                        assert(old_keys[j2] == k);
                        if j != j2 {
                            if j < j2 {
                                assert(self.keys@[j] != self.keys@[j2]);
                            } else {
                                assert(self.keys@[j2] != self.keys@[j]);
                            }
                        }
                    }
                    assert forall|k: i64| old_keys.contains(k) implies #[trigger] self.keys@.contains(k) by {
                        let j = old_keys.index_of(k);
                        assert(self.keys@[j] == k);
                    }
                    let n = old_keys.len() as int;
                    assert(self.keys@[n] == class_id);
                    assert(self.keys@.contains(class_id));
                    let j = self.keys@.index_of(class_id);
                    assert(self.keys@[j] == class_id);
                    assert(j == n);
                    assert(self.type_entries() =~= old_entries.insert(class_id, desc@));
                }
            },
        }
    }
}

/// What a lookup gives back of a registration: after registering `desc`
/// under `class_id`, the pool holds `desc` there, and every other class id
/// keeps its entry, or its lack of one.
pub proof fn lemma_lookup_after_register(
    entries: Map<i64, TypeSpec>,
    class_id: i64,
    desc: TypeSpec,
    other: i64,
)
    ensures
        entries.insert(class_id, desc).contains_key(class_id),
        entries.insert(class_id, desc)[class_id] == desc,
        other != class_id ==> (entries.insert(class_id, desc).contains_key(other)
            == entries.contains_key(other)),
        other != class_id && entries.contains_key(other) ==> entries.insert(class_id, desc)[other]
            == entries[other],
{
}

impl TypeLookup for TypeTable {
    closed spec fn pool_wf(&self) -> bool {
        self.keys_distinct()
    }

    closed spec fn type_entries(&self) -> Map<i64, TypeSpec> {
        Map::new(
            |k: i64| self.keys@.contains(k),
            |k: i64| self.types@[self.keys@.index_of(k)]@,
        )
    }

    fn lookup(&self, class_id: i64) -> (r: Option<TypeInfo>) {
        proof {
            assert(self.type_entries().dom() =~= self.keys@.to_set());
        }
        match self.position(class_id) {
            Some(i) => {
                proof {
                    let j = self.keys@.index_of(class_id);
                    assert(self.keys@[j] == class_id);
                    if j != i as int {
                        if j < i as int {
                            assert(self.keys@[j] != self.keys@[i as int]);
                        } else {
                            assert(self.keys@[i as int] != self.keys@[j]);
                        }
                    }
                }
                Some(self.types[i].duplicate())
            },
            None => None,
        }
    }

    fn all_types(&self) -> (r: Vec<TypeInfo>) {
        let mut out: Vec<TypeInfo> = Vec::new();
        let mut i: usize = 0;
        while i < self.types.len()
            invariant
                self.keys@.len() == self.types@.len(),
                forall|a: int, b: int|
                    0 <= a < b < self.keys@.len() ==> self.keys@[a] != self.keys@[b],
                i <= self.types@.len(),
                out@.len() == i,
                forall|j: int| 0 <= j < i ==> #[trigger] out@[j]@ == self.types@[j]@,
            decreases self.types@.len() - i,
        {
            out.push(self.types[i].duplicate());
            i = i + 1;
        }
        proof {
            let e = self.type_entries();
            let vs = out@.map_values(|t: TypeInfo| t@);
            assert(e.dom() =~= self.keys@.to_set());
            assert forall|j: int| 0 <= j < vs.len() implies #[trigger] e.contains_value(vs[j]) by {
                let k = self.keys@[j];
                assert(self.keys@.contains(k));
                let m = self.keys@.index_of(k);
                assert(self.keys@[m] == k);
                if m != j {
                    if m < j {
                        assert(self.keys@[m] != self.keys@[j]);
                    } else {
                        assert(self.keys@[j] != self.keys@[m]);
                    }
                }
                assert(e.contains_key(k));
                assert(e[k] == vs[j]);
                assert(e.dom().contains(k) && e[k] == vs[j]);
            }
            assert forall|k: i64| #[trigger] e.contains_key(k) implies vs.contains(e[k]) by {
                let m = self.keys@.index_of(k);
                assert(vs[m] == e[k]);
            }
            self.keys@.unique_seq_to_set();
        }
        out
    }
}

/// What the type pool of a chunk's metadata holds, by class id.
pub uninterp spec fn chunk_types(chunk: Chunk) -> Map<i64, TypeSpec>;

/// The type pool of a chunk's metadata (the field `metadata.type_pool`).
/// Trusted: the pool is the one whose entries `chunk_types` names.
#[verifier::external_body]
pub(crate) fn chunk_type_pool(chunk: &Chunk) -> (pool: &TypePool)
    ensures
        type_pool_entries(*pool) == chunk_types(*chunk),
{
    &chunk.metadata.type_pool
}

} // verus!
