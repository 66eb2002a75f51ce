//! The schema of a JFR event type: the tree of its fields, expanded through
//! the type pool of a chunk, with each field numbered in preorder.
use vstd::prelude::*;

use jfrs::reader::Chunk;

use crate::type_pool::{
    chunk_type_pool, chunk_types, opt_tick_unit, opt_unit, FieldSpec, TickUnit, TypeInfo,
    TypeLookup, TypeSpec, Unit,
};

verus! {

/// A field of the schema tree, as a mathematical value.
pub ghost struct FieldNode {
    pub idx: int,
    pub is_array: bool,
    pub name: Seq<char>,
    pub class_name: Seq<char>,
    pub tick_unit: Option<TickUnit>,
    pub unit: Option<Unit>,
    pub children: Seq<FieldNode>,
    pub valid: bool,
}

/// A field of an event type. `idx` numbers the fields of the tree in
/// preorder; a field is not `valid` where its type already occurs on the
/// path from the root, and such a field is not expanded.
#[derive(Debug, PartialEq, Eq)]
pub struct JfrField {
    pub idx: usize,
    pub is_array: bool,
    pub name: String,
    pub class_name: String,
    pub tick_unit: Option<TickUnit>,
    pub unit: Option<Unit>,
    pub children: Vec<JfrField>,
    pub valid: bool,
}

/// Why the schema of an event type could not be built.
#[derive(Debug, Clone, PartialEq, Eq)]
pub enum SchemaError {
    /// No type of the pool has the requested name.
    TypeNotFound(String),
    /// A field refers to a class that the pool does not hold.
    ClassNotFound(i64),
    /// The tree has more fields than a `usize` can number.
    TooManyFields,
}

impl JfrField {
    /// This field and its subtree, as a mathematical value.
    pub open spec fn node(&self) -> FieldNode
        decreases self,
    {
        FieldNode {
            idx: self.idx as int,
            is_array: self.is_array,
            name: self.name@,
            class_name: self.class_name@,
            tick_unit: self.tick_unit,
            unit: self.unit,
            children: Seq::new(
                self.children@.len(),
                |i: int|
                    if 0 <= i < self.children@.len() {
                        self.children@[i].node()
                    } else {
                        self.node_default()
                    },
            ),
            valid: self.valid,
        }
    }

    pub open spec fn node_default(&self) -> FieldNode {
        FieldNode {
            idx: 0,
            is_array: false,
            name: Seq::empty(),
            class_name: Seq::empty(),
            tick_unit: None,
            unit: None,
            children: Seq::empty(),
            valid: false,
        }
    }
}

/// The class ids that the descriptors of a pool carry.
pub open spec fn class_ids(e: Map<i64, TypeSpec>) -> Set<i64> {
    e.dom().map(|k: i64| e[k].class_id)
}

/// How many classes of the pool are not yet on the path.
pub open spec fn unvisited(e: Map<i64, TypeSpec>, visited: Seq<i64>) -> nat {
    class_ids(e).difference(visited.to_set()).len()
}

/// Whether `tpe` is a descriptor that a finite pool holds.
pub open spec fn in_pool(e: Map<i64, TypeSpec>, tpe: TypeSpec) -> bool {
    &&& e.dom().finite()
    &&& class_ids(e).contains(tpe.class_id)
}

pub proof fn lemma_class_ids_finite(e: Map<i64, TypeSpec>)
    requires
        e.dom().finite(),
    ensures
        class_ids(e).finite(),
{
    e.dom().lemma_map_finite(|k: i64| e[k].class_id);
    assert(class_ids(e) =~= e.dom().map(|k: i64| e[k].class_id));
}

/// Visiting a class of the pool that is not yet on the path leaves fewer
/// classes unvisited.
pub proof fn lemma_visit_decreases(e: Map<i64, TypeSpec>, visited: Seq<i64>, id: i64)
    requires
        e.dom().finite(),
        class_ids(e).contains(id),
        !visited.contains(id),
    ensures
        unvisited(e, visited.push(id)) < unvisited(e, visited),
{
    lemma_class_ids_finite(e);
    visited.lemma_push_to_set_commute(id);
    assert(!visited.to_set().contains(id));
    class_ids(e).lemma_set_insert_diff_decreases(visited.to_set(), id);
}

/// The result of expanding a type: whether the field is valid, the fields
/// below it, and the counter after the last of them; or why it failed.
pub ghost enum Expansion {
    Built { valid: bool, children: Seq<FieldNode>, end: nat },
    MissingClass(i64),
    TooManyFields,
}

/// Puts `pre` in front of the fields of an expansion.
pub open spec fn prepend(pre: Seq<FieldNode>, x: Expansion) -> Expansion {
    match x {
        Expansion::Built { valid, children, end } => Expansion::Built {
            valid,
            children: pre + children,
            end,
        },
        other => other,
    }
}

/// The field that a field descriptor of type `next` becomes.
pub open spec fn child_node(
    f: FieldSpec,
    next: TypeSpec,
    idx: nat,
    valid: bool,
    children: Seq<FieldNode>,
) -> FieldNode {
    FieldNode {
        idx: idx as int,
        is_array: f.array_type,
        name: f.name,
        class_name: next.name,
        tick_unit: opt_tick_unit(f.tick_unit),
        unit: opt_unit(f.unit),
        children,
        valid,
    }
}

/// Expands a field of type `tpe` whose number is `counter`, with the
/// classes of `visited` on the path above it.
pub open spec fn expand(
    e: Map<i64, TypeSpec>,
    tpe: TypeSpec,
    visited: Seq<i64>,
    counter: nat,
) -> Expansion
    decreases unvisited(e, visited), 0nat, 0int,
{
    if counter >= usize::MAX {
        Expansion::TooManyFields
    } else if visited.contains(tpe.class_id) {
        Expansion::Built { valid: false, children: Seq::empty(), end: counter + 1 }
    } else if tpe.fields.len() == 0 || !in_pool(e, tpe) {
        Expansion::Built { valid: true, children: Seq::empty(), end: counter + 1 }
    } else {
        proof {
            lemma_visit_decreases(e, visited, tpe.class_id);
        }
        match expand_fields(e, tpe.fields, visited.push(tpe.class_id), 0, counter + 1) {
            Expansion::Built { children, end, .. } => Expansion::Built {
                valid: true,
                children,
                end,
            },
            other => other,
        }
    }
}

/// Expands the fields from the `k`-th on, the first of them numbered
/// `counter`.
pub open spec fn expand_fields(
    e: Map<i64, TypeSpec>,
    fields: Seq<FieldSpec>,
    visited: Seq<i64>,
    k: nat,
    counter: nat,
) -> Expansion
    decreases unvisited(e, visited), 1nat, fields.len() - k,
{
    if k >= fields.len() {
        Expansion::Built { valid: true, children: Seq::empty(), end: counter }
    } else {
        let f = fields[k as int];
        if !e.contains_key(f.class_id) {
            Expansion::MissingClass(f.class_id)
        } else {
            let next = e[f.class_id];
            match expand(e, next, visited, counter) {
                Expansion::Built { valid, children, end } => prepend(
                    seq![child_node(f, next, counter, valid, children)],
                    expand_fields(e, fields, visited, k + 1, end),
                ),
                other => other,
            }
        }
    }
}

/// The name of the root field.
pub open spec fn root_name() -> Seq<char> {
    seq!['r', 'o', 'o', 't']
}

/// The root field of the schema of `event_type`.
pub open spec fn root_node(event_type: Seq<char>, children: Seq<FieldNode>) -> FieldNode {
    FieldNode {
        idx: 0,
        is_array: false,
        name: root_name(),
        class_name: event_type,
        tick_unit: None,
        unit: None,
        children,
        valid: true,
    }
}

/// Whether `r` is the schema of the type `tpe`, named `event_type`: the root
/// and the number of fields in the tree, the root included, or the error.
pub open spec fn schema_from(
    e: Map<i64, TypeSpec>,
    tpe: TypeSpec,
    event_type: Seq<char>,
    r: Result<(JfrField, usize), SchemaError>,
) -> bool {
    match expand(e, tpe, Seq::empty(), 0) {
        Expansion::Built { children, end, .. } => match r {
            Ok((root, count)) => root.node() == root_node(event_type, children) && count as int
                == end as int,
            Err(_) => false,
        },
        Expansion::MissingClass(c) => r == Err::<(JfrField, usize), SchemaError>(
            SchemaError::ClassNotFound(c),
        ),
        Expansion::TooManyFields => r == Err::<(JfrField, usize), SchemaError>(
            SchemaError::TooManyFields,
        ),
    }
}

/// Whether the pool holds a type named `name`.
pub open spec fn has_type_named(e: Map<i64, TypeSpec>, name: Seq<char>) -> bool {
    exists|k: i64| #[trigger] e.contains_key(k) && e[k].name == name
}

/// What building the schema of `event_type` gives: the schema of a type of
/// that name, or, where the pool holds none, `TypeNotFound`.
pub open spec fn schema_outcome(
    e: Map<i64, TypeSpec>,
    event_type: Seq<char>,
    r: Result<(JfrField, usize), SchemaError>,
) -> bool {
    if has_type_named(e, event_type) {
        exists|k: i64|
            #[trigger] e.contains_key(k) && e[k].name == event_type && schema_from(
                e,
                e[k],
                event_type,
                r,
            )
    } else {
        match r {
            Err(SchemaError::TypeNotFound(n)) => n@ == event_type,
            _ => false,
        }
    }
}

/// What `traverse` leaves behind, starting from counter `idx0`, running
/// maximum `max0` and field `f0`.
pub open spec fn traverse_post(
    e: Map<i64, TypeSpec>,
    tpe: TypeSpec,
    visited: Seq<i64>,
    idx0: usize,
    max0: usize,
    f0: JfrField,
    idx1: usize,
    max1: usize,
    f1: JfrField,
    r: Result<(), SchemaError>,
) -> bool {
    match expand(e, tpe, visited, idx0 as nat) {
        Expansion::Built { valid, children, end } => {
            &&& r is Ok
            &&& idx1 == end
            &&& max1 == (if end > idx0 + 1 {
                if max0 >= end - 1 {
                    max0 as int
                } else {
                    end - 1
                }
            } else {
                max0 as int
            })
            &&& f1.node() == FieldNode { children, valid, ..f0.node() }
        },
        Expansion::MissingClass(c) => r == Err::<(), SchemaError>(SchemaError::ClassNotFound(c)),
        Expansion::TooManyFields => r == Err::<(), SchemaError>(SchemaError::TooManyFields),
    }
}

/// The counter only grows: an expanded field takes at least one number.
pub proof fn lemma_expand_end(e: Map<i64, TypeSpec>, tpe: TypeSpec, visited: Seq<i64>, counter: nat)
    ensures
        expand(e, tpe, visited, counter) matches Expansion::Built { end, .. } ==> end > counter,
    decreases unvisited(e, visited), 0nat, 0int,
{
    if counter >= usize::MAX {
    } else if visited.contains(tpe.class_id) {
    } else if tpe.fields.len() == 0 || !in_pool(e, tpe) {
    } else {
        lemma_visit_decreases(e, visited, tpe.class_id);
        lemma_expand_fields_end(e, tpe.fields, visited.push(tpe.class_id), 0, counter + 1);
    }
}

/// The counter only grows over the fields of a type.
pub proof fn lemma_expand_fields_end(
    e: Map<i64, TypeSpec>,
    fields: Seq<FieldSpec>,
    visited: Seq<i64>,
    k: nat,
    counter: nat,
)
    ensures
        expand_fields(e, fields, visited, k, counter) matches Expansion::Built { end, .. } ==> end
            >= counter,
    decreases unvisited(e, visited), 1nat, fields.len() - k,
{
    if k < fields.len() {
        let f = fields[k as int];
        if e.contains_key(f.class_id) {
            lemma_expand_end(e, e[f.class_id], visited, counter);
            match expand(e, e[f.class_id], visited, counter) {
                Expansion::Built { end, .. } => {
                    lemma_expand_fields_end(e, fields, visited, k + 1, end);
                },
                _ => {},
            }
        }
    }
}

pub proof fn lemma_prepend_prepend(a: Seq<FieldNode>, b: Seq<FieldNode>, x: Expansion)
    ensures
        prepend(a, prepend(b, x)) == prepend(a + b, x),
{
    match x {
        Expansion::Built { valid, children, end } => {
            assert(a + (b + children) =~= (a + b) + children);
        },
        _ => {},
    }
}

pub proof fn lemma_prepend_empty(x: Expansion)
    ensures
        prepend(Seq::empty(), x) == x,
{
    match x {
        Expansion::Built { valid, children, end } => {
            assert(Seq::<FieldNode>::empty() + children =~= children);
        },
        _ => {},
    }
}

/// The numbers of the fields of a forest, in preorder.
pub open spec fn preorder(nodes: Seq<FieldNode>) -> Seq<int>
    decreases nodes,
{
    if nodes.len() == 0 {
        Seq::empty()
    } else {
        proof {
            assert(decreases_to!(nodes => nodes[0]));
        }
        seq![nodes[0].idx] + preorder(nodes[0].children) + preorder(nodes.drop_first())
    }
}

/// The integers from `lo` up to, not including, `hi`.
pub open spec fn int_range(lo: int, hi: int) -> Seq<int> {
    Seq::new((hi - lo) as nat, |i: int| lo + i)
}

proof fn lemma_preorder_cons(x: FieldNode, rest: Seq<FieldNode>)
    ensures
        preorder(seq![x] + rest) == seq![x.idx] + preorder(x.children) + preorder(rest),
{
    let s = seq![x] + rest;
    assert(s[0] == x);
    assert(s.drop_first() =~= rest);
}

proof fn lemma_range_concat(a: int, b: int, c: int)
    requires
        a <= b <= c,
    ensures
        int_range(a, b) + int_range(b, c) == int_range(a, c),
{
    assert(int_range(a, b) + int_range(b, c) =~= int_range(a, c));
}

/// The fields below an expanded field are numbered, in preorder, with the
/// numbers that follow its own, up to the counter's final value.
pub proof fn lemma_expand_preorder(e: Map<i64, TypeSpec>, tpe: TypeSpec, visited: Seq<i64>, counter: nat)
    ensures
        expand(e, tpe, visited, counter) matches Expansion::Built { children, end, .. } ==> preorder(
            children,
        ) == int_range(counter + 1int, end as int),
    decreases unvisited(e, visited), 0nat, 0int,
{
    if counter >= usize::MAX {
    } else if visited.contains(tpe.class_id) {
        assert(int_range(counter + 1int, counter + 1int) =~= Seq::<int>::empty());
    } else if tpe.fields.len() == 0 || !in_pool(e, tpe) {
        assert(int_range(counter + 1int, counter + 1int) =~= Seq::<int>::empty());
    } else {
        lemma_visit_decreases(e, visited, tpe.class_id);
        lemma_expand_fields_preorder(e, tpe.fields, visited.push(tpe.class_id), 0, counter + 1);
    }
}

/// The fields that the fields of a type expand to are numbered, in
/// preorder, from `counter` up to the counter's final value.
pub proof fn lemma_expand_fields_preorder(
    e: Map<i64, TypeSpec>,
    fields: Seq<FieldSpec>,
    visited: Seq<i64>,
    k: nat,
    counter: nat,
)
    ensures
        expand_fields(e, fields, visited, k, counter) matches Expansion::Built { children, end, .. }
            ==> preorder(children) == int_range(counter as int, end as int),
    decreases unvisited(e, visited), 1nat, fields.len() - k,
{
    if k >= fields.len() {
        assert(int_range(counter as int, counter as int) =~= Seq::<int>::empty());
    } else {
        let f = fields[k as int];
        if e.contains_key(f.class_id) {
            let next = e[f.class_id];
            lemma_expand_preorder(e, next, visited, counter);
            lemma_expand_end(e, next, visited, counter);
            match expand(e, next, visited, counter) {
                Expansion::Built { valid, children, end } => {
                    lemma_expand_fields_preorder(e, fields, visited, k + 1, end);
                    lemma_expand_fields_end(e, fields, visited, k + 1, end);
                    match expand_fields(e, fields, visited, k + 1, end) {
                        Expansion::Built { children: rest, end: end2, .. } => {
                            let child = child_node(f, next, counter, valid, children);
                            lemma_preorder_cons(child, rest);
                            assert(seq![counter as int] =~= int_range(
                                counter as int,
                                counter + 1int,
                            ));
                            lemma_range_concat(counter as int, counter + 1int, end as int);
                            lemma_range_concat(counter as int, end as int, end2 as int);
                        },
                        _ => {},
                    }
                },
                _ => {},
            }
        }
    }
}

/// Law: the fields of a schema are numbered 0, 1, 2, ... in preorder, from
/// the root on, and the count that comes with the schema is the number of
/// fields in the tree, the root included.
pub proof fn lemma_schema_numbered_in_preorder(
    e: Map<i64, TypeSpec>,
    event_type: Seq<char>,
    root: JfrField,
    count: usize,
)
    requires
        schema_outcome(e, event_type, Ok((root, count))),
    ensures
        preorder(seq![root.node()]) == int_range(0, preorder(seq![root.node()]).len() as int),
        count as int == preorder(seq![root.node()]).len(),
{
    let k = choose|k: i64|
        #[trigger] e.contains_key(k) && e[k].name == event_type && schema_from(
            e,
            e[k],
            event_type,
            Ok((root, count)),
        );
    lemma_expand_preorder(e, e[k], Seq::empty(), 0);
    match expand(e, e[k], Seq::empty(), 0) {
        Expansion::Built { children, end, .. } => {
            let rn = root.node();
            lemma_preorder_cons(rn, Seq::empty());
            assert(preorder(Seq::<FieldNode>::empty()) =~= Seq::<int>::empty());
            assert(seq![rn] + Seq::<FieldNode>::empty() =~= seq![rn]);
            assert(seq![0int] =~= int_range(0, 1));
            lemma_expand_end(e, e[k], Seq::empty(), 0);
            lemma_range_concat(0, 1, end as int);
            assert(preorder(seq![rn]) =~= int_range(0, end as int));
        },
        _ => {},
    }
}

fn contains_class(v: &Vec<i64>, id: i64) -> (r: bool)
    ensures
        r == v@.contains(id),
{
    let mut i: usize = 0;
    while i < v.len()
        invariant
            i <= v@.len(),
            forall|j: int| 0 <= j < i ==> v@[j] != id,
        decreases v@.len() - i,
    {
        if v[i] == id {
            assert(v@[i as int] == id);
            return true;
        }
        i = i + 1;
    }
    false
}

fn copy_classes(v: &Vec<i64>) -> (r: Vec<i64>)
    ensures
        r@ == v@,
{
    let mut out: Vec<i64> = Vec::new();
    let mut i: usize = 0;
    while i < v.len()
        invariant
            i <= v@.len(),
            out@ == v@.subrange(0, i as int),
        decreases v@.len() - i,
    {
        out.push(v[i]);
        i = i + 1;
        assert(out@ =~= v@.subrange(0, i as int));
    }
    assert(v@.subrange(0, v@.len() as int) =~= v@);
    out
}

fn tick_unit_of(code: Option<u8>) -> (r: Option<TickUnit>)
    ensures
        r == opt_tick_unit(code),
{
    match code {
        Some(c) => TickUnit::from_code(c),
        None => None,
    }
}

fn unit_of(code: Option<u8>) -> (r: Option<Unit>)
    ensures
        r == opt_unit(code),
{
    match code {
        Some(c) => Unit::from_code(c),
        None => None,
    }
}

/// The position of the first type named `wanted`.
fn find_named(types: &Vec<TypeInfo>, wanted: &String) -> (r: Option<usize>)
    ensures
        match r {
            Some(p) => p < types@.len() && types@[p as int].name@ == wanted@,
            None => forall|j: int| 0 <= j < types@.len() ==> types@[j].name@ != wanted@,
        },
{
    let mut i: usize = 0;
    while i < types.len()
        invariant
            i <= types@.len(),
            forall|j: int| 0 <= j < i ==> types@[j].name@ != wanted@,
        decreases types@.len() - i,
    {
        if types[i].name == *wanted {
            return Some(i);
        }
        i = i + 1;
    }
    None
}

impl JfrField {
    /// Expands `current_field`, of type `tpe`, below the classes of
    /// `visited_classes`: numbers its fields from `idx` on and keeps in
    /// `max_idx` the largest number handed to a field below it.
    fn traverse<P: TypeLookup>(
        idx: &mut usize,
        max_idx: &mut usize,
        current_field: &mut JfrField,
        tpe: &TypeInfo,
        type_pool: &P,
        visited_classes: Vec<i64>,
    ) -> (r: Result<(), SchemaError>)
        requires
            type_pool.pool_wf(),
            in_pool(type_pool.type_entries(), tpe@),
            old(current_field).children@.len() == 0,
            old(current_field).valid,
        ensures
            traverse_post(
                type_pool.type_entries(),
                tpe@,
                visited_classes@,
                *old(idx),
                *old(max_idx),
                *old(current_field),
                *final(idx),
                *final(max_idx),
                *final(current_field),
                r,
            ),
        decreases unvisited(type_pool.type_entries(), visited_classes@),
    {
        let ghost e = type_pool.type_entries();
        let ghost f0 = *current_field;
        let ghost idx0 = *idx;
        if *idx == usize::MAX {
            return Err(SchemaError::TooManyFields);
        }
        *idx = *idx + 1;

        // the type already occurs on the path from the root
        if contains_class(&visited_classes, tpe.class_id) {
            current_field.valid = false;
            proof {
                assert(current_field.node().children =~= Seq::<FieldNode>::empty());
                assert(current_field.node() == FieldNode {
                    children: Seq::empty(),
                    valid: false,
                    ..f0.node()
                });
            }
            return Ok(());
        }
        // a type without fields is a leaf
        if tpe.fields.len() == 0 {
            proof {
                assert(current_field.node().children =~= Seq::<FieldNode>::empty());
                assert(tpe@.fields.len() == 0);
            }
            return Ok(());
        }

        let mut v = copy_classes(&visited_classes);
        v.push(tpe.class_id);
        proof {
            lemma_visit_decreases(e, visited_classes@, tpe.class_id);
        }
        let ghost fields = tpe@.fields;
        let ghost c1: nat = *idx as nat;
        let ghost m0 = *max_idx;
        proof {
            lemma_prepend_empty(expand_fields(e, fields, v@, 0, c1));
            assert(current_field.node().children =~= Seq::<FieldNode>::empty());
        }
        let mut k: usize = 0;
        while k < tpe.fields.len()
            invariant
                e == type_pool.type_entries(),
                type_pool.pool_wf(),
                e.dom().finite(),
                fields == tpe@.fields,
                fields.len() == tpe.fields@.len(),
                v@ == visited_classes@.push(tpe.class_id),
                unvisited(e, v@) < unvisited(e, visited_classes@),
                k <= fields.len(),
                c1 == idx0 + 1,
                idx0 == *old(idx),
                m0 == *old(max_idx),
                f0 == *old(current_field),
                idx0 < usize::MAX,
                !visited_classes@.contains(tpe@.class_id),
                in_pool(e, tpe@),
                fields.len() > 0,
                expand_fields(e, fields, v@, 0, c1) == prepend(
                    current_field.node().children,
                    expand_fields(e, fields, v@, k as nat, *idx as nat),
                ),
                k == 0 ==> *idx == c1 && *max_idx == m0,
                k > 0 ==> *idx > c1 && *max_idx == (if m0 >= *idx - 1 {
                    m0 as int
                } else {
                    *idx - 1
                }),
                current_field.node() == (FieldNode {
                    children: current_field.node().children,
                    ..f0.node()
                }),
                current_field.children@.len() == current_field.node().children.len(),
            decreases fields.len() - k,
        {
            let f = &tpe.fields[k];
            proof {
                assert(tpe@.fields[k as int] == f@);
            }
            let next_tpe = match type_pool.lookup(f.class_id) {
                Some(t) => t,
                None => {
                    proof {
                        assert(expand_fields(e, fields, v@, k as nat, *idx as nat)
                            == Expansion::MissingClass(f.class_id));
                        assert(expand_fields(e, fields, v@, 0, c1) == Expansion::MissingClass(
                            f.class_id,
                        ));
                        assert(expand(e, tpe@, visited_classes@, idx0 as nat)
                            == Expansion::MissingClass(f.class_id));
                    }
                    return Err(SchemaError::ClassNotFound(f.class_id));
                },
            };
            proof {
                assert(e.contains_key(f.class_id));
                assert(class_ids(e).contains(next_tpe@.class_id)) by {
                    assert(e.dom().contains(f.class_id));
                }
            }
            let ghost before = *idx;
            let mut child = JfrField {
                idx: *idx,
                is_array: f.array_type,
                name: f.name.clone(),
                class_name: next_tpe.name.clone(),
                tick_unit: tick_unit_of(f.tick_unit),
                unit: unit_of(f.unit),
                children: Vec::new(),
                valid: true,
            };
            if *idx > *max_idx {
                *max_idx = *idx;
            }
            let child_visited = copy_classes(&v);
            let res = JfrField::traverse(idx, max_idx, &mut child, &next_tpe, type_pool, child_visited);
            match res {
                Ok(()) => {},
                Err(err) => {
                    proof {
                        let x = expand(e, next_tpe@, v@, before as nat);
                        assert(x is MissingClass || x is TooManyFields);
                        assert(expand_fields(e, fields, v@, k as nat, before as nat) == x);
                        assert(expand_fields(e, fields, v@, 0, c1) == x);
                    }
                    return Err(err);
                },
            }
            proof {
                lemma_expand_end(e, next_tpe@, v@, before as nat);
            }
            let ghost old_children = current_field.node().children;
            current_field.children.push(child);
            proof {
                let cn = child.node();
                assert(current_field.node().children =~= old_children.push(cn));
                assert(old_children.push(cn) =~= old_children + seq![cn]);
                lemma_prepend_prepend(
                    old_children,
                    seq![cn],
                    expand_fields(e, fields, v@, (k + 1) as nat, *idx as nat),
                );
                assert(cn.children =~= child.node().children);
            }
            k = k + 1;
        }
        proof {
            assert(current_field.node().children =~= current_field.node().children + Seq::<
                FieldNode,
            >::empty());
        }
        Ok(())
    }

    /// The schema of the type named `event_type` in `type_pool`, and the
    /// number of fields in the tree, the root included.
    pub fn from_types<P: TypeLookup>(type_pool: &P, event_type: &str) -> (r: Result<
        (JfrField, usize),
        SchemaError,
    >)
        requires
            type_pool.pool_wf(),
        ensures
            schema_outcome(type_pool.type_entries(), event_type@, r),
    {
        let ghost e = type_pool.type_entries();
        let types = type_pool.all_types();
        let ghost views = types@.map_values(|t: TypeInfo| t@);
        let wanted = event_type.to_owned();
        let pos = match find_named(&types, &wanted) {
            Some(p) => p,
            None => {
                proof {
                    if has_type_named(e, event_type@) {
                        let k = choose|k: i64| #[trigger] e.contains_key(k) && e[k].name
                            == event_type@;
                        assert(views.contains(e[k]));
                        let j = choose|j: int| 0 <= j < views.len() && views[j] == e[k];
                        assert(types@[j].name@ == views[j].name);
                    }
                }
                return Err(SchemaError::TypeNotFound(wanted));
            },
        };
        let tpe = &types[pos];
        let ghost key = choose|k: i64| #[trigger] e.dom().contains(k) && e[k] == views[pos as int];
        proof {
            assert(e.contains_value(views[pos as int]));
            assert(e.contains_key(key) && e[key] == tpe@);
            assert(class_ids(e).contains(tpe@.class_id)) by {
                assert(e.dom().contains(key));
            }
        }
        let mut idx: usize = 0;
        let mut root = JfrField {
            idx,
            is_array: false,
            name: "root".to_owned(),
            class_name: event_type.to_owned(),
            tick_unit: None,
            unit: None,
            children: Vec::new(),
            valid: true,
        };
        proof {
            reveal_strlit("root");
        }
        let mut max_idx: usize = 1;
        let no_classes: Vec<i64> = Vec::new();
        proof {
            assert(no_classes@ =~= Seq::<i64>::empty());
        }
        let res = JfrField::traverse(&mut idx, &mut max_idx, &mut root, tpe, type_pool, no_classes);
        proof {
            assert(root_name() =~= "root"@);
        }
        match res {
            Ok(()) => {
                let count = idx;
                proof {
                    assert(root.node() == root_node(event_type@, root.node().children));
                    assert(has_type_named(e, event_type@));
                    assert(schema_from(e, e[key], event_type@, Ok((root, count))));
                }
                Ok((root, count))
            },
            Err(err) => {
                proof {
                    assert(has_type_named(e, event_type@));
                    assert(schema_from(e, e[key], event_type@, Err(err)));
                }
                Err(err)
            },
        }
    }

    /// The schema of the type named `event_type` in the metadata of `chunk`,
    /// and the number of fields it holds.
    pub fn from_chunk(chunk: &Chunk, event_type: &str) -> (r: Result<(JfrField, usize), SchemaError>)
        ensures
            schema_outcome(chunk_types(*chunk), event_type@, r),
    {
        let pool = chunk_type_pool(chunk);
        JfrField::from_types(pool, event_type)
    }
}

} // verus!
