//! The `jfr_attach` table function: one view per event type of a
//! recording, each scanning that type with `jfr_scan`.
use vstd::prelude::*;

use crate::reader::InputError;
use crate::text::{
    char_seq_lt, chars_lt, chars_of, lemma_char_seq_lt_irreflexive,
    lemma_char_seq_lt_transitive, str_eq,
};
use crate::type_pool::{
    chunk_type_pool, chunk_types, lists_entries, TypeInfo, TypeLookup, TypeSpec,
};
use jfrs::reader::Chunk;

verus! {

/// The super type of the types that record events.
pub const EVENT_SUPER_TYPE: &'static str = "jdk.jfr.Event";

/// The table function that each view calls.
pub const SCAN_FUNCTION_NAME: &'static str = "jfr_scan";

/// What binding `jfr_attach` keeps: the file, and whether the views are
/// registered already.
pub struct AttachBindData {
    pub done: bool,
    pub filename: String,
}

/// A view to register: its name, the table function it calls, and the
/// parameters of the call.
#[derive(Debug, Clone, PartialEq, Eq)]
pub struct ViewDef {
    pub name: String,
    pub function_name: String,
    pub parameters: Vec<String>,
}

/// Whether a type records events: its super type is `jdk.jfr.Event` and it
/// has fields.
pub open spec fn is_event_type(t: TypeSpec) -> bool {
    t.super_type == Some(EVENT_SUPER_TYPE@) && t.fields.len() > 0
}

/// The names of the event types among `types`, in their order.
pub open spec fn event_names(types: Seq<TypeSpec>) -> Seq<Seq<char>>
    decreases types.len(),
{
    if types.len() == 0 {
        Seq::empty()
    } else if is_event_type(types.last()) {
        event_names(types.drop_last()).push(types.last().name)
    } else {
        event_names(types.drop_last())
    }
}

/// The descriptors, as mathematical values.
pub open spec fn type_views(types: Seq<TypeInfo>) -> Seq<TypeSpec> {
    types.map_values(|t: TypeInfo| t@)
}

/// Whether the names are in order.
pub open spec fn names_sorted(names: Seq<Seq<char>>) -> bool {
    forall|i: int, j: int| 0 <= i < j < names.len() ==> !char_seq_lt(names[j], names[i])
}

fn is_event(t: &TypeInfo) -> (r: bool)
    ensures
        r == is_event_type(t@),
{
    let has_fields = t.fields.len() > 0;
    match &t.super_type {
        Some(s) => str_eq(s.as_str(), EVENT_SUPER_TYPE) && has_fields,
        None => false,
    }
}

/// Inserts `name` after the names that do not come after it.
fn insert_sorted(out: &mut Vec<String>, keys: &mut Vec<Vec<char>>, name: String)
    requires
        old(keys)@.len() == old(out)@.len(),
        forall|i: int| 0 <= i < old(out)@.len() ==> #[trigger] old(keys)@[i]@ == old(out)@[i]@,
        names_sorted(old(out)@.map_values(|s: String| s@)),
    ensures
        final(keys)@.len() == final(out)@.len(),
        forall|i: int| 0 <= i < final(out)@.len() ==> #[trigger] final(keys)@[i]@ == final(out)@[i]@,
        names_sorted(final(out)@.map_values(|s: String| s@)),
        final(out)@.map_values(|s: String| s@).to_multiset() == old(out)@.map_values(
            |s: String| s@,
        ).to_multiset().insert(name@),
{
    let key = chars_of(name.as_str());
    let ghost before = out@.map_values(|s: String| s@);
    let mut pos: usize = 0;
    while pos < keys.len()
        invariant
            pos <= keys@.len(),
            keys@.len() == out@.len(),
            forall|i: int| 0 <= i < out@.len() ==> #[trigger] keys@[i]@ == out@[i]@,
            before == out@.map_values(|s: String| s@),
            key@ == name@,
            forall|q: int| 0 <= q < pos ==> !char_seq_lt(name@, #[trigger] before[q]),
        ensures
            pos <= keys@.len(),
            keys@.len() == out@.len(),
            before == out@.map_values(|s: String| s@),
            forall|q: int| 0 <= q < pos ==> !char_seq_lt(name@, #[trigger] before[q]),
            pos < keys@.len() ==> char_seq_lt(name@, before[pos as int]),
        decreases keys@.len() - pos,
    {
        if chars_lt(&key, &keys[pos]) {
            break;
        }
        pos = pos + 1;
    }
    proof {
        assert(pos < before.len() ==> char_seq_lt(name@, before[pos as int]));
    }
    out.insert(pos, name);
    keys.insert(pos, key);
    proof {
        let after = out@.map_values(|s: String| s@);
        assert(after =~= before.insert(pos as int, name@));
        vstd::seq_lib::to_multiset_insert(before, pos as int, name@);
        assert forall|i: int, j: int| 0 <= i < j < after.len() implies !char_seq_lt(
            after[j],
            after[i],
        ) by {
            if j < pos {
            } else if j == pos {
            } else if i < pos {
                assert(after[j] == before[j - 1]);
                assert(after[i] == before[i]);
            } else if i == pos {
                assert(after[j] == before[j - 1]);
                assert(after[i] == name@);
                if char_seq_lt(before[j - 1], name@) {
                    if j - 1 == pos as int {
                        lemma_char_seq_lt_transitive(name@, before[pos as int], name@);
                        lemma_char_seq_lt_irreflexive(name@);
                    } else {
                        lemma_char_seq_lt_transitive(before[j - 1], name@, before[pos as int]);
                    }
                }
            } else {
                assert(after[j] == before[j - 1]);
                assert(after[i] == before[i - 1]);
            }
        }
    }
}

/// Law: a type gets a view exactly when it records events: a name is
/// listed exactly when some type of that name has `jdk.jfr.Event` as its
/// super type and at least one field, whatever the name.
pub proof fn lemma_event_names_are_event_types(types: Seq<TypeSpec>, name: Seq<char>)
    ensures
        event_names(types).contains(name) <==> exists|i: int|
            0 <= i < types.len() && (#[trigger] types[i]).name == name && types[i].super_type
                == Some("jdk.jfr.Event"@) && types[i].fields.len() > 0,
    decreases types.len(),
{
    if types.len() > 0 {
        let prev = types.drop_last();
        let last = types.last();
        lemma_event_names_are_event_types(prev, name);
        let listed = event_names(types);
        let before = event_names(prev);
        if is_event_type(last) {
            assert(listed == before.push(last.name));
        } else {
            assert(listed == before);
        }
        if listed.contains(name) {
            if before.contains(name) {
                let i = choose|i: int|
                    0 <= i < prev.len() && (#[trigger] prev[i]).name == name && prev[i].super_type
                        == Some("jdk.jfr.Event"@) && prev[i].fields.len() > 0;
                assert(types[i] == prev[i]);
            } else {
                let k = choose|k: int| 0 <= k < listed.len() && listed[k] == name;
                assert(k == before.len());
                assert(types[types.len() - 1] == last);
            }
        }
        if exists|i: int|
            0 <= i < types.len() && (#[trigger] types[i]).name == name && types[i].super_type
                == Some("jdk.jfr.Event"@) && types[i].fields.len() > 0 {
            let i = choose|i: int|
                0 <= i < types.len() && (#[trigger] types[i]).name == name && types[i].super_type
                    == Some("jdk.jfr.Event"@) && types[i].fields.len() > 0;
            if i < types.len() - 1 {
                assert(prev[i] == types[i]);
                let k = choose|k: int| 0 <= k < before.len() && before[k] == name;
                if is_event_type(last) {
                    assert(listed[k] == name);
                }
            } else {
                assert(listed[listed.len() - 1] == name);
            }
        }
    }
}

/// The names of the event types among `types`, in order (of equal names,
/// the first first).
pub fn event_type_names(types: &Vec<TypeInfo>) -> (r: Vec<String>)
    ensures
        names_sorted(r@.map_values(|s: String| s@)),
        r@.map_values(|s: String| s@).to_multiset() == event_names(
            types@.map_values(|t: TypeInfo| t@),
        ).to_multiset(),
{
    let ghost views = types@.map_values(|t: TypeInfo| t@);
    let mut out: Vec<String> = Vec::new();
    let mut keys: Vec<Vec<char>> = Vec::new();
    let mut i: usize = 0;
    proof {
        assert(views.take(0) =~= Seq::<TypeSpec>::empty());
        assert(out@.map_values(|s: String| s@) =~= Seq::<Seq<char>>::empty());
    }
    while i < types.len()
        invariant
            i <= types@.len(),
            views == types@.map_values(|t: TypeInfo| t@),
            keys@.len() == out@.len(),
            forall|k: int| 0 <= k < out@.len() ==> #[trigger] keys@[k]@ == out@[k]@,
            names_sorted(out@.map_values(|s: String| s@)),
            out@.map_values(|s: String| s@).to_multiset() == event_names(views.take(i as int)).to_multiset(),
        decreases types@.len() - i,
    {
        let t = &types[i];
        proof {
            assert(views.take(i + 1).drop_last() =~= views.take(i as int));
            assert(views.take(i + 1).last() == t@);
        }
        if is_event(t) {
            insert_sorted(&mut out, &mut keys, t.name.clone());
            proof {
                vstd::seq_lib::to_multiset_build(event_names(views.take(i as int)), t@.name);
            }
        }
        i = i + 1;
    }
    proof {
        assert(views.take(types@.len() as int) =~= views);
    }
    out
}

/// The view of an event type: named after the type, it scans the type in
/// the file.
pub fn view_def(filename: &String, type_name_of_event: &String) -> (v: ViewDef)
    ensures
        v.name@ == type_name_of_event@,
        v.function_name@ == SCAN_FUNCTION_NAME@,
        v.parameters@.len() == 2,
        v.parameters@[0]@ == filename@,
        v.parameters@[1]@ == type_name_of_event@,
{
    let mut parameters: Vec<String> = Vec::new();
    parameters.push(filename.clone());
    parameters.push(type_name_of_event.clone());
    ViewDef {
        name: type_name_of_event.clone(),
        function_name: SCAN_FUNCTION_NAME.to_owned(),
        parameters,
    }
}

/// Whether `r` are the views of the event types among the descriptors
/// `entries`, in the order of their names, each scanning its type in the
/// file `filename`.
pub open spec fn views_of(r: Seq<ViewDef>, entries: Map<i64, TypeSpec>, filename: Seq<char>) -> bool {
    exists|types: Seq<TypeInfo>|
        #![trigger type_views(types)]
        {
            let names = event_names(type_views(types));
            &&& lists_entries(type_views(types), entries)
            &&& r.len() == names.len()
            &&& names_sorted(r.map_values(|v: ViewDef| v.name@))
            &&& r.map_values(|v: ViewDef| v.name@).to_multiset() == names.to_multiset()
            &&& forall|i: int| 0 <= i < r.len() ==> {
                &&& (#[trigger] r[i]).function_name@ == SCAN_FUNCTION_NAME@
                &&& r[i].parameters@.len() == 2
                &&& r[i].parameters@[0]@ == filename
                &&& r[i].parameters@[1]@ == r[i].name@
            }
        }
}

/// The views of the event types of a pool, in the order of their names.
pub fn views_of_pool<P: TypeLookup>(pool: &P, filename: &String) -> (r: Vec<ViewDef>)
    requires
        pool.pool_wf(),
    ensures
        views_of(r@, pool.type_entries(), filename@),
{
    let types = pool.all_types();
    let names = event_type_names(&types);
    let mut views: Vec<ViewDef> = Vec::new();
    let mut i: usize = 0;
    while i < names.len()
        invariant
            i <= names@.len(),
            views@.len() == i,
            forall|k: int| 0 <= k < i ==> (#[trigger] views@[k]).name@ == names@[k]@,
            forall|k: int| 0 <= k < i ==> {
                &&& (#[trigger] views@[k]).function_name@ == SCAN_FUNCTION_NAME@
                &&& views@[k].parameters@.len() == 2
                &&& views@[k].parameters@[0]@ == filename@
                &&& views@[k].parameters@[1]@ == views@[k].name@
            },
        decreases names@.len() - i,
    {
        views.push(view_def(filename, &names[i]));
        i = i + 1;
    }
    proof {
        assert(type_views(types@) == types@.map_values(|t: TypeInfo| t@));
        assert(views@.map_values(|v: ViewDef| v.name@) =~= names@.map_values(|s: String| s@));
        vstd::seq_lib::to_multiset_len(names@.map_values(|s: String| s@));
        vstd::seq_lib::to_multiset_len(event_names(types@.map_values(|t: TypeInfo| t@)));
    }
    views
}

impl AttachBindData {
    /// What binding `jfr_attach` on `filename` keeps.
    pub fn new(filename: String) -> (b: AttachBindData)
        ensures
            !b.done,
            b.filename == filename,
    {
        AttachBindData { done: false, filename }
    }
}

/// Attaches the recording in the bound file, from what jfrs gave for its
/// first chunk (its type metadata alone): the views of the event types of
/// that chunk, once; nothing where they are registered already. A
/// recording without chunks has no views; an error reading the chunk is
/// passed on.
pub fn attach(bind_data: &mut AttachBindData, first: Option<Result<Chunk, String>>) -> (r: Result<
    Vec<ViewDef>,
    InputError,
>)
    ensures
        old(bind_data).done ==> (r matches Ok(v) && v@.len() == 0),
        final(bind_data).filename == old(bind_data).filename,
        final(bind_data).done == (old(bind_data).done || r is Ok),
        !old(bind_data).done ==> match first {
            None => r matches Ok(v) && v@.len() == 0,
            Some(Err(msg)) => r == Err::<Vec<ViewDef>, InputError>(InputError::Read(msg)),
            Some(Ok(c)) => r matches Ok(v) && views_of(v@, chunk_types(c), old(bind_data).filename@),
        },
{
    if bind_data.done {
        return Ok(Vec::new());
    }
    let views = match first {
        Some(Ok(chunk)) => views_of_pool(chunk_type_pool(&chunk), &bind_data.filename),
        None => Vec::new(),
        Some(Err(msg)) => return Err(InputError::Read(msg)),
    };
    bind_data.done = true;
    Ok(views)
}

} // verus!
