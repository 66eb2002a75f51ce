//! The `jfr_scan` table function: the column types of an event type, the
//! text of stack traces, and what goes into the columns for each event.
use vstd::prelude::*;

use jfrs::reader::event::Accessor;
use rustc_hash::FxHashMap;

use crate::duckdb::bindings::LogicalTypeId;
use crate::jfr_access::{
    array_elements, as_elements, as_int, as_text, event_class, event_class_name, event_offset,
    event_start, event_value, event_value_of, get_field, get_field_raw, kind_of, object_field, primitive_of, resolve,
    array_elements_of, elements_of, field_at, object_field_at, raw_field_at, resolved, value_int,
    value_kind, value_primitive, value_text, PrimitiveValue, ValueKind,
};
use jfrs::reader::event::Event;
use jfrs::reader::Chunk;

use crate::reader::{first_chunk, first_chunk_outcome, InputError};
use crate::jfr_schema::{
    int_range, lemma_schema_numbered_in_preorder, preorder, schema_outcome, FieldNode, JfrField,
    SchemaError,
};
use crate::text::{decimal, join_lines, join_with_newline, str_eq, to_decimal};
use crate::type_pool::{chunk_types, TickUnit, TypeSpec, Unit};
use vstd::utf8::encode_utf8;

verus! {

/// Stack traces are stored as text: one frame per line.
pub const STACK_TRACE_TYPE: &'static str = "jdk.types.StackTrace";

/// The column index that DuckDB asks for when it wants the row id.
pub const ROW_ID_COLUMN_ID: usize = usize::MAX;

/// The type of a column: a DuckDB type, a list of a column type, or a
/// struct of named column types.
#[derive(Debug, PartialEq, Eq)]
pub enum ColumnType {
    Primitive(LogicalTypeId),
    List(Box<ColumnType>),
    Struct(Vec<(String, ColumnType)>),
}

/// A column type, as a mathematical value.
pub ghost enum ColumnTypeSpec {
    Primitive(LogicalTypeId),
    List(Box<ColumnTypeSpec>),
    Struct(Seq<(Seq<char>, ColumnTypeSpec)>),
}

impl ColumnType {
    /// This column type as a mathematical value.
    pub open spec fn spec_of(&self) -> ColumnTypeSpec
        decreases self,
    {
        match self {
            ColumnType::Primitive(t) => ColumnTypeSpec::Primitive(*t),
            ColumnType::List(inner) => ColumnTypeSpec::List(Box::new(inner.spec_of())),
            ColumnType::Struct(members) => ColumnTypeSpec::Struct(
                Seq::new(
                    members@.len(),
                    |i: int|
                        if 0 <= i < members@.len() {
                            (members@[i].0@, members@[i].1.spec_of())
                        } else {
                            (Seq::empty(), ColumnTypeSpec::Primitive(LogicalTypeId::Boolean))
                        },
                ),
            ),
        }
    }
}

/// Whether a `long` field holds a point in time.
pub open spec fn is_time_point(tick_unit: Option<TickUnit>, unit: Option<Unit>) -> bool {
    tick_unit == Some(TickUnit::Timestamp) || unit == Some(Unit::EpochNano) || unit == Some(
        Unit::EpochMilli,
    ) || unit == Some(Unit::EpochSecond)
}

/// The DuckDB type of a field whose JFR type is a primitive, a string or a
/// stack trace.
pub open spec fn primitive_type(class_name: Seq<char>, tick_unit: Option<TickUnit>, unit: Option<Unit>) -> Option<LogicalTypeId> {
    if class_name == "int"@ {
        Some(LogicalTypeId::Integer)
    } else if class_name == "long"@ {
        if is_time_point(tick_unit, unit) {
            Some(LogicalTypeId::Timestamp)
        } else {
            Some(LogicalTypeId::Bigint)
        }
    } else if class_name == "float"@ {
        Some(LogicalTypeId::Float)
    } else if class_name == "double"@ {
        Some(LogicalTypeId::Double)
    } else if class_name == "char"@ {
        Some(LogicalTypeId::Varchar)
    } else if class_name == "boolean"@ {
        Some(LogicalTypeId::Boolean)
    } else if class_name == "short"@ {
        Some(LogicalTypeId::Smallint)
    } else if class_name == "byte"@ {
        Some(LogicalTypeId::Tinyint)
    } else if class_name == "java.lang.String"@ {
        Some(LogicalTypeId::Varchar)
    } else if class_name == STACK_TRACE_TYPE@ {
        Some(LogicalTypeId::Varchar)
    } else {
        None
    }
}

/// The column type of a field: its primitive type, or a struct of its
/// valid fields, where an array field becomes a list.
pub open spec fn column_type(node: FieldNode) -> ColumnTypeSpec
    decreases node,
{
    match primitive_type(node.class_name, node.tick_unit, node.unit) {
        Some(t) => ColumnTypeSpec::Primitive(t),
        None => ColumnTypeSpec::Struct(struct_members(node.children)),
    }
}

/// The members of the struct that a list of fields becomes.
pub open spec fn struct_members(children: Seq<FieldNode>) -> Seq<(Seq<char>, ColumnTypeSpec)>
    decreases children,
{
    if children.len() == 0 {
        Seq::empty()
    } else {
        let c = children.last();
        let front = struct_members(children.drop_last());
        if c.valid {
            front.push(
                (
                    c.name,
                    if c.is_array {
                        ColumnTypeSpec::List(Box::new(column_type(c)))
                    } else {
                        column_type(c)
                    },
                ),
            )
        } else {
            front
        }
    }
}

/// The type of a member: a list where the field is an array.
pub open spec fn member_type(c: FieldNode) -> ColumnTypeSpec {
    if c.is_array {
        ColumnTypeSpec::List(Box::new(column_type(c)))
    } else {
        column_type(c)
    }
}

/// The DuckDB type of `field`, where its JFR type is a primitive, a string
/// or a stack trace.
pub fn map_primitive_type(field: &JfrField) -> (r: Option<LogicalTypeId>)
    ensures
        r == primitive_type(field.class_name@, field.tick_unit, field.unit),
{
    let name = field.class_name.as_str();
    if str_eq(name, "int") {
        Some(LogicalTypeId::Integer)
    } else if str_eq(name, "long") {
        let time_point = match (field.tick_unit, field.unit) {
            (Some(TickUnit::Timestamp), _) => true,
            (_, Some(Unit::EpochNano)) => true,
            (_, Some(Unit::EpochMilli)) => true,
            (_, Some(Unit::EpochSecond)) => true,
            _ => false,
        };
        if time_point {
            Some(LogicalTypeId::Timestamp)
        } else {
            Some(LogicalTypeId::Bigint)
        }
    } else if str_eq(name, "float") {
        Some(LogicalTypeId::Float)
    } else if str_eq(name, "double") {
        Some(LogicalTypeId::Double)
    } else if str_eq(name, "char") {
        Some(LogicalTypeId::Varchar)
    } else if str_eq(name, "boolean") {
        Some(LogicalTypeId::Boolean)
    } else if str_eq(name, "short") {
        Some(LogicalTypeId::Smallint)
    } else if str_eq(name, "byte") {
        Some(LogicalTypeId::Tinyint)
    } else if str_eq(name, "java.lang.String") {
        Some(LogicalTypeId::Varchar)
    } else if str_eq(name, STACK_TRACE_TYPE) {
        // stack traces are stored as text rather than as a list of frames
        Some(LogicalTypeId::Varchar)
    } else {
        None
    }
}

/// The column type of `field`.
pub fn create_type(field: &JfrField) -> (r: ColumnType)
    ensures
        r.spec_of() == column_type(field.node()),
    decreases field,
{
    match map_primitive_type(field) {
        Some(t) => ColumnType::Primitive(t),
        None => {
            let ghost kids = field.node().children;
            let mut shape: Vec<(String, ColumnType)> = Vec::new();
            let mut i: usize = 0;
            proof {
                assert(kids.take(0) =~= Seq::<FieldNode>::empty());
                if let ColumnTypeSpec::Struct(m) = ColumnType::Struct(shape).spec_of() {
                    assert(m =~= Seq::<(Seq<char>, ColumnTypeSpec)>::empty());
                }
            }
            while i < field.children.len()
                invariant
                    i <= field.children@.len(),
                    kids == field.node().children,
                    kids.len() == field.children@.len(),
                    ColumnType::Struct(shape).spec_of() == ColumnTypeSpec::Struct(
                        struct_members(kids.take(i as int)),
                    ),
                decreases field.children@.len() - i,
            {
                let s = &field.children[i];
                proof {
                    assert(kids[i as int] == s.node());
                    assert(kids.take(i + 1).drop_last() =~= kids.take(i as int));
                    assert(kids.take(i + 1).last() == s.node());
                }
                if s.valid {
                    let t = create_type(s);
                    let t = if s.is_array {
                        ColumnType::List(Box::new(t))
                    } else {
                        t
                    };
                    let ghost before = ColumnType::Struct(shape).spec_of();
                    let name = s.name.clone();
                    shape.push((name, t));
                    proof {
                        let after = ColumnType::Struct(shape).spec_of();
                        assert(t.spec_of() == member_type(s.node()));
                        if let ColumnTypeSpec::Struct(b) = before {
                            if let ColumnTypeSpec::Struct(a) = after {
                                assert(a =~= b.push((s.name@, member_type(s.node()))));
                            }
                        }
                    }
                } else {
                    proof {
                        assert(struct_members(kids.take(i + 1)) == struct_members(
                            kids.take(i as int),
                        ));
                    }
                }
                i = i + 1;
            }
            proof {
                assert(kids.take(field.children@.len() as int) =~= kids);
            }
            ColumnType::Struct(shape)
        },
    }
}

/// A frame of a stack trace: the class and method it runs, the kind of
/// frame, and the line it is at.
#[derive(Debug, Clone, PartialEq, Eq)]
pub struct StackFrame {
    pub class_name: String,
    pub method_name: String,
    pub frame_type: String,
    pub line_number: i32,
}

/// Why the text of a stack trace could not be read.
#[derive(Debug, Clone, Copy, PartialEq, Eq, Structural)]
pub enum StackTraceError {
    MissingFrames,
    MissingTypeName,
    MissingMethodName,
    MissingFrameType,
    MissingLineNumber,
}

/// Whether a frame of this kind runs Java code.
pub open spec fn is_java_frame(frame_type: Seq<char>) -> bool {
    frame_type == "Interpreted"@ || frame_type == "JIT compiled"@ || frame_type == "Inlined"@
        || frame_type == "C1 compiled"@
}

/// A frame of a stack trace, as a mathematical value.
pub ghost struct FrameSpec {
    pub class_name: Seq<char>,
    pub method_name: Seq<char>,
    pub frame_type: Seq<char>,
    pub line_number: i32,
}

impl StackFrame {
    pub open spec fn spec_of(&self) -> FrameSpec {
        FrameSpec {
            class_name: self.class_name@,
            method_name: self.method_name@,
            frame_type: self.frame_type@,
            line_number: self.line_number,
        }
    }
}

/// The line of a frame: `Class.method:line` for a Java frame of a known
/// class (without `:line` where the line is not positive), else the bare
/// method name.
pub open spec fn frame_line(f: FrameSpec) -> Seq<char> {
    if is_java_frame(f.frame_type) && f.class_name.len() > 0 {
        f.class_name + seq!['.'] + f.method_name + if f.line_number > 0 {
            seq![':'] + decimal(f.line_number as nat)
        } else {
            Seq::empty()
        }
    } else {
        f.method_name
    }
}

/// The line of a frame.
pub open spec fn frame_text(f: StackFrame) -> Seq<char> {
    frame_line(f.spec_of())
}

/// The text of a stack trace: one line per frame.
pub open spec fn stack_text(frames: Seq<StackFrame>) -> Seq<char> {
    join_lines(frames.map_values(|f: StackFrame| frame_text(f)))
}

/// The line of a frame.
pub fn format_frame(frame: &StackFrame) -> (s: String)
    ensures
        s@ == frame_text(*frame),
{
    let t = frame.frame_type.as_str();
    let java = str_eq(t, "Interpreted") || str_eq(t, "JIT compiled") || str_eq(t, "Inlined")
        || str_eq(t, "C1 compiled");
    if java && !frame.class_name.as_str().is_empty() {
        let mut s = frame.class_name.clone();
        s.append(".");
        s.append(frame.method_name.as_str());
        proof {
            reveal_strlit(".");
            reveal_strlit(":");
        }
        if frame.line_number > 0 {
            s.append(":");
            let digits = to_decimal(frame.line_number as u32);
            s.append(digits.as_str());
        }
        s
    } else {
        frame.method_name.clone()
    }
}

/// The text of a stack trace and its length in bytes.
pub fn format_stacktrace(frames: &Vec<StackFrame>) -> (r: (String, usize))
    ensures
        r.0@ == stack_text(frames@),
        r.1 == encode_utf8(r.0@).len() as usize,
{
    let mut lines: Vec<String> = Vec::new();
    let mut i: usize = 0;
    while i < frames.len()
        invariant
            i <= frames@.len(),
            lines@.len() == i,
            forall|j: int| 0 <= j < i ==> #[trigger] lines@[j]@ == frame_text(frames@[j]),
        decreases frames@.len() - i,
    {
        lines.push(format_frame(&frames[i]));
        i = i + 1;
    }
    let text = join_with_newline(&lines);
    proof {
        assert(lines@.map_values(|l: String| l@) =~= frames@.map_values(
            |f: StackFrame| frame_text(f),
        ));
    }
    let len = text.as_str().len();
    (text, len)
}

/// The value at the end of a chain of fields, where every step is there.
pub open spec fn follow(value: Accessor, path: Seq<Seq<char>>) -> Option<Accessor>
    decreases path.len(),
{
    if path.len() == 0 {
        Some(value)
    } else {
        match field_at(value, path[0]) {
            Some(v) => follow(v, path.drop_first()),
            None => None,
        }
    }
}

/// The text at the end of a chain of fields.
pub open spec fn text_along(value: Accessor, path: Seq<Seq<char>>) -> Option<Seq<char>> {
    match follow(value, path) {
        Some(v) => value_text(v),
        None => None,
    }
}

/// An optional text, as a mathematical value.
pub open spec fn opt_text(t: Option<String>) -> Option<Seq<char>> {
    match t {
        Some(s) => Some(s@),
        None => None,
    }
}

/// What reading a frame gives: its class name, method name, frame type
/// and line number, or the first of them that is missing.
pub open spec fn frame_read(frame: Accessor) -> Result<FrameSpec, StackTraceError> {
    match text_along(frame, seq!["method"@, "type"@, "name"@, "string"@]) {
        None => Err(StackTraceError::MissingTypeName),
        Some(class_name) => match text_along(frame, seq!["method"@, "name"@, "string"@]) {
            None => Err(StackTraceError::MissingMethodName),
            Some(method_name) => match text_along(frame, seq!["type"@, "description"@]) {
                None => Err(StackTraceError::MissingFrameType),
                Some(frame_type) => match field_at(frame, "lineNumber"@) {
                    None => Err(StackTraceError::MissingLineNumber),
                    Some(l) => match value_int(l) {
                        None => Err(StackTraceError::MissingLineNumber),
                        Some(line_number) => Ok(
                            FrameSpec { class_name, method_name, frame_type, line_number },
                        ),
                    },
                },
            },
        },
    }
}

/// What reading the frames gives: each frame, or the error of the first
/// frame that cannot be read.
pub open spec fn frames_read(frames: Seq<Accessor>) -> Result<Seq<FrameSpec>, StackTraceError>
    decreases frames.len(),
{
    if frames.len() == 0 {
        Ok(Seq::empty())
    } else {
        match frames_read(frames.drop_last()) {
            Err(e) => Err(e),
            Ok(fs) => match frame_read(frames.last()) {
                Err(e) => Err(e),
                Ok(f) => Ok(fs.push(f)),
            },
        }
    }
}

proof fn lemma_frames_read_error(frames: Seq<Accessor>, k: int)
    requires
        0 <= k <= frames.len(),
        frames_read(frames.take(k)) is Err,
    ensures
        frames_read(frames) == frames_read(frames.take(k)),
    decreases frames.len() - k,
{
    if k < frames.len() {
        let shorter = frames.drop_last();
        assert(shorter.take(k) =~= frames.take(k));
        lemma_frames_read_error(shorter, k);
    } else {
        assert(frames.take(k) =~= frames);
    }
}

/// What reading a stack trace value gives: the text of its frames, one
/// line each, or why it cannot be read.
pub open spec fn trace_read(value: Accessor) -> Result<Seq<char>, StackTraceError> {
    match field_at(value, "frames"@) {
        None => Err(StackTraceError::MissingFrames),
        Some(f) => match elements_of(f) {
            None => Err(StackTraceError::MissingFrames),
            Some(els) => trace_of(frames_read(els)),
        },
    }
}

/// The text of frames that were read, one line each, or why they could not
/// be read.
pub open spec fn trace_of(frames: Result<Seq<FrameSpec>, StackTraceError>) -> Result<Seq<char>, StackTraceError> {
    match frames {
        Err(e) => Err(e),
        Ok(fs) => Ok(join_lines(fs.map_values(|x: FrameSpec| frame_line(x)))),
    }
}

/// The text at the end of a chain of fields, where every step is there.
fn text_at(value: &Accessor, path: &Vec<&str>) -> (r: Option<String>)
    requires
        path@.len() > 0,
    ensures
        opt_text(r) == text_along(*value, path@.map_values(|s: &str| s@)),
{
    let ghost p = path@.map_values(|s: &str| s@);
    let mut cur = match get_field(value, path[0]) {
        Some(v) => v,
        None => return None,
    };
    proof {
        assert(p.drop_first() =~= p.skip(1));
    }
    let mut i: usize = 1;
    while i < path.len()
        invariant
            1 <= i <= path@.len(),
            p == path@.map_values(|s: &str| s@),
            follow(*value, p) == follow(cur, p.skip(i as int)),
        decreases path@.len() - i,
    {
        let next = get_field(&cur, path[i]);
        proof {
            assert(p.skip(i as int)[0] == path@[i as int]@);
            assert(p.skip(i as int).drop_first() =~= p.skip(i + 1));
        }
        cur = match next {
            Some(v) => v,
            None => return None,
        };
        i = i + 1;
    }
    proof {
        assert(p.skip(i as int) =~= Seq::<Seq<char>>::empty());
    }
    as_text(&cur)
}

/// Reads a frame of a stack trace; an error names the part of the frame
/// that could not be read.
fn read_frame(frame: &Accessor) -> (r: Result<StackFrame, StackTraceError>)
    ensures
        match frame_read(*frame) {
            Ok(f) => r matches Ok(sf) && sf.spec_of() == f,
            Err(e) => r == Err::<StackFrame, StackTraceError>(e),
        },
{
    let type_path = vec!["method", "type", "name", "string"];
    let method_path = vec!["method", "name", "string"];
    let kind_path = vec!["type", "description"];
    proof {
        assert(type_path@.map_values(|s: &str| s@) =~= seq!["method"@, "type"@, "name"@, "string"@]);
        assert(method_path@.map_values(|s: &str| s@) =~= seq!["method"@, "name"@, "string"@]);
        assert(kind_path@.map_values(|s: &str| s@) =~= seq!["type"@, "description"@]);
    }
    let class_name = match text_at(frame, &type_path) {
        Some(s) => s,
        None => return Err(StackTraceError::MissingTypeName),
    };
    let method_name = match text_at(frame, &method_path) {
        Some(s) => s,
        None => return Err(StackTraceError::MissingMethodName),
    };
    let frame_type = match text_at(frame, &kind_path) {
        Some(s) => s,
        None => return Err(StackTraceError::MissingFrameType),
    };
    let line_number = match get_field(frame, "lineNumber") {
        Some(l) => match as_int(&l) {
            Some(n) => n,
            None => return Err(StackTraceError::MissingLineNumber),
        },
        None => return Err(StackTraceError::MissingLineNumber),
    };
    Ok(StackFrame { class_name, method_name, frame_type, line_number })
}

/// Reads the frames of a stack trace value and gives its text and length
/// in bytes, or why it cannot be read.
pub fn parse_stacktrace(accessor: &Accessor) -> (r: Result<(String, usize), StackTraceError>)
    ensures
        match trace_read(*accessor) {
            Ok(t) => r matches Ok((s, n)) && s@ == t && n == encode_utf8(t).len() as usize,
            Err(e) => r == Err::<(String, usize), StackTraceError>(e),
        },
{
    let elements = match get_field(accessor, "frames") {
        Some(f) => as_elements(f),
        None => None,
    };
    let elements = match elements {
        Some(e) => e,
        None => return Err(StackTraceError::MissingFrames),
    };
    let ghost els = elements@;
    let mut frames: Vec<StackFrame> = Vec::new();
    let mut i: usize = 0;
    proof {
        assert(els.take(0) =~= Seq::<Accessor>::empty());
        assert(frames@.map_values(|f: StackFrame| f.spec_of()) =~= Seq::<FrameSpec>::empty());
    }
    while i < elements.len()
        invariant
            i <= elements@.len(),
            els == elements@,
            trace_read(*accessor) == trace_of(frames_read(els)),
            frames_read(els.take(i as int)) == Ok::<Seq<FrameSpec>, StackTraceError>(
                frames@.map_values(|f: StackFrame| f.spec_of()),
            ),
        decreases elements@.len() - i,
    {
        proof {
            assert(els.take(i + 1).drop_last() =~= els.take(i as int));
            assert(els.take(i + 1).last() == els[i as int]);
        }
        match read_frame(&elements[i]) {
            Ok(f) => {
                let ghost before = frames@;
                frames.push(f);
                proof {
                    assert(frames@.map_values(|x: StackFrame| x.spec_of()) =~= before.map_values(
                        |x: StackFrame| x.spec_of(),
                    ).push(f.spec_of()));
                }
            },
            Err(e) => {
                proof {
                    assert(frame_read(els[i as int]) == Err::<FrameSpec, StackTraceError>(e));
                    assert(frames_read(els.take(i + 1)) == Err::<Seq<FrameSpec>, StackTraceError>(e));
                    lemma_frames_read_error(els, i + 1);
                }
                return Err(e);
            },
        }
        i = i + 1;
    }
    proof {
        assert(els.take(i as int) =~= els);
        assert(frames@.map_values(|f: StackFrame| frame_text(f)) =~= frames@.map_values(
            |f: StackFrame| f.spec_of(),
        ).map_values(|x: FrameSpec| frame_line(x)));
    }
    Ok(format_stacktrace(&frames))
}

/// The stack traces already turned into text, by chunk and constant index.
#[verifier::external_body]
pub struct StackTraceCache {
    traces: FxHashMap<(usize, i64), (String, usize)>,
}

/// What a cache holds, by chunk and constant index.
pub uninterp spec fn cached_traces(cache: StackTraceCache) -> Map<(usize, i64), (Seq<char>, usize)>;

/// A cache that holds nothing.
pub open spec fn no_traces() -> Map<(usize, i64), (Seq<char>, usize)> {
    Map::empty()
}

/// Creates an empty `FxHashMap`. Trusted: it holds nothing.
#[verifier::external_body]
fn new_trace_cache() -> (cache: StackTraceCache)
    ensures
        cached_traces(cache) == no_traces(),
{
    StackTraceCache { traces: FxHashMap::default() }
}

/// `FxHashMap::get`, copying the entry out. Trusted: the result is the
/// entry under the key, where there is one.
#[verifier::external_body]
fn cache_get(cache: &StackTraceCache, chunk_idx: usize, constant_idx: i64) -> (r: Option<(String, usize)>)
    ensures
        r is Some <==> cached_traces(*cache).contains_key((chunk_idx, constant_idx)),
        r matches Some(v) ==> (v.0@, v.1) == cached_traces(*cache)[(chunk_idx, constant_idx)],
{
    cache.traces.get(&(chunk_idx, constant_idx)).cloned()
}

/// `FxHashMap::insert`. Trusted: the entry under the key becomes `value`,
/// and the others stay.
#[verifier::external_body]
fn cache_insert(cache: &mut StackTraceCache, chunk_idx: usize, constant_idx: i64, value: (String, usize))
    ensures
        cached_traces(*final(cache)) == cached_traces(*old(cache)).insert(
            (chunk_idx, constant_idx),
            (value.0@, value.1),
        ),
{
    cache.traces.insert((chunk_idx, constant_idx), value);
}

/// What a read of the next free list row gives back of a write: after
/// setting field `i` to `row`, field `i` reads `row`, and every other
/// field reads what it read before.
pub proof fn lemma_list_row_after_set(rows: Seq<usize>, i: int, row: usize, j: int)
    requires
        0 <= i < rows.len(),
        0 <= j < rows.len(),
    ensures
        rows.update(i, row)[i] == row,
        j != i ==> rows.update(i, row)[j] == rows[j],
        rows.update(i, row).len() == rows.len(),
{
}

/// A stack trace is read at most once per chunk and constant: once the
/// text of a key is cached, a lookup of the key gives that text and leaves
/// the cache as it is, whatever value it is handed; caching another key
/// keeps it.
pub proof fn lemma_trace_cache_keeps_text(
    cache: Map<(usize, i64), (Seq<char>, usize)>,
    key: (usize, i64),
    text: (Seq<char>, usize),
    other: (usize, i64),
    other_text: (Seq<char>, usize),
)
    requires
        other != key,
    ensures
        cache.insert(key, text).contains_key(key),
        cache.insert(key, text)[key] == text,
        cache.insert(key, text).insert(other, other_text)[key] == text,
{
}

/// What a scan keeps while it fills one output chunk: the next free row of
/// the child vector of each list column, by field number, and the stack
/// traces already turned into text.
pub struct Pool {
    pub list_children_idx: Vec<usize>,
    pub stacktrace_cache: StackTraceCache,
}

impl Pool {
    /// A pool for a schema of `field_count` fields.
    pub fn new(field_count: usize) -> (p: Pool)
        ensures
            p.list_children_idx@ == Seq::new(field_count as nat, |i: int| 0usize),
            cached_traces(p.stacktrace_cache) == no_traces(),
    {
        let mut list_children_idx: Vec<usize> = Vec::new();
        let mut i: usize = 0;
        while i < field_count
            invariant
                i <= field_count,
                list_children_idx@ == Seq::new(i as nat, |j: int| 0usize),
            decreases field_count - i,
        {
            list_children_idx.push(0);
            i = i + 1;
            assert(list_children_idx@ =~= Seq::new(i as nat, |j: int| 0usize));
        }
        Pool { list_children_idx, stacktrace_cache: new_trace_cache() }
    }

    /// The next free row of the list of field `field_idx`.
    pub fn get_list_child_row_idx(&self, field_idx: usize) -> (r: usize)
        requires
            field_idx < self.list_children_idx@.len(),
        ensures
            r == self.list_children_idx@[field_idx as int],
    {
        self.list_children_idx[field_idx]
    }

    /// Sets the next free row of the list of field `field_idx`.
    pub fn set_list_child_row_idx(&mut self, field_idx: usize, row_idx: usize)
        requires
            field_idx < old(self).list_children_idx@.len(),
        ensures
            final(self).list_children_idx@ == old(self).list_children_idx@.update(
                field_idx as int,
                row_idx,
            ),
            final(self).stacktrace_cache == old(self).stacktrace_cache,
    {
        self.list_children_idx.set(field_idx, row_idx);
    }

    /// The text of the stack trace at `constant_idx` of chunk `chunk_idx`:
    /// the cached one, or the one read from `accessor`, which is then
    /// cached.
    pub fn get_stacktrace(
        &mut self,
        chunk_idx: usize,
        constant_idx: i64,
        accessor: &Accessor,
    ) -> (r: Result<(String, usize), StackTraceError>)
        ensures
            final(self).list_children_idx == old(self).list_children_idx,
            ({
                let key = (chunk_idx, constant_idx);
                let before = cached_traces(old(self).stacktrace_cache);
                let after = cached_traces(final(self).stacktrace_cache);
                if before.contains_key(key) {
                    &&& r matches Ok(v) && (v.0@, v.1) == before[key]
                    &&& after == before
                } else {
                    match trace_read(*accessor) {
                        Ok(t) => {
                            &&& r matches Ok(v) && v.0@ == t && v.1 == encode_utf8(t).len() as usize
                            &&& after == before.insert(key, (t, encode_utf8(t).len() as usize))
                        },
                        Err(e) => r == Err::<(String, usize), StackTraceError>(e) && after == before,
                    }
                }
            }),
    {
        match cache_get(&self.stacktrace_cache, chunk_idx, constant_idx) {
            Some(v) => Ok(v),
            None => {
                let parsed = parse_stacktrace(accessor);
                match parsed {
                    Ok(v) => {
                        let copy = (v.0.clone(), v.1);
                        cache_insert(&mut self.stacktrace_cache, chunk_idx, constant_idx, copy);
                        Ok(v)
                    },
                    Err(e) => Err(e),
                }
            },
        }
    }
}

/// A value of an event, read along the schema: what the columns need of it.
#[derive(Debug, PartialEq, Eq)]
pub enum JfrValue {
    /// A primitive value and the chunk it was read from, whose clock a
    /// point in time counts the ticks of.
    Primitive(PrimitiveValue, usize),
    /// The values of the fields of an object, one per field of the schema.
    Object(Vec<JfrValue>),
    Array(Vec<JfrValue>),
    /// The text of a stack trace.
    StackTrace(String),
    /// A value that is absent, or that the chunk could not resolve.
    Missing,
}

/// A step from a column's vector to one of its child vectors.
#[derive(Debug, Clone, Copy, PartialEq, Eq, Structural)]
pub enum VectorStep {
    /// The child vector of the `i`-th member of a struct.
    StructChild(usize),
    /// The child vector of a list.
    ListChild,
}

/// What is done to a row of a vector.
#[derive(Debug, Clone, PartialEq, Eq)]
pub enum WriteOp {
    SetNull,
    Int(i32),
    Long(i64),
    /// A point in time counted in ticks of the clock of the chunk numbered
    /// `chunk`, which becomes microseconds since the epoch with that chunk's
    /// header.
    TicksTimestamp { ticks: i64, chunk: usize },
    /// The bits of a `float`.
    Float(u32),
    /// The bits of a `double`.
    Double(u64),
    Text(String),
    Bool(bool),
    Short(i16),
    Byte(i8),
    /// Makes room for this many rows in the child vector of a list.
    ReserveList(usize),
    /// Sets the list at the row to `length` rows of the child vector from
    /// `offset` on.
    ListEntry { offset: usize, length: usize },
    /// Sets the number of rows of the child vector of a list.
    ListSize(usize),
}

/// A write into the vector that `path` leads to from a column's vector.
#[derive(Debug, Clone, PartialEq, Eq)]
pub struct ColumnWrite {
    pub path: Vec<VectorStep>,
    pub row: usize,
    pub op: WriteOp,
}

/// A write operation, as a mathematical value.
pub ghost enum OpSpec {
    SetNull,
    Int(i32),
    Long(i64),
    TicksTimestamp(i64, usize),
    Float(u32),
    Double(u64),
    Text(Seq<char>),
    Bool(bool),
    Short(i16),
    Byte(i8),
    ReserveList(usize),
    ListEntry(usize, usize),
    ListSize(usize),
}

/// A write, as a mathematical value.
pub ghost struct WriteSpec {
    pub path: Seq<VectorStep>,
    pub row: usize,
    pub op: OpSpec,
}

impl WriteOp {
    pub open spec fn spec_of(&self) -> OpSpec {
        match self {
            WriteOp::SetNull => OpSpec::SetNull,
            WriteOp::Int(v) => OpSpec::Int(*v),
            WriteOp::Long(v) => OpSpec::Long(*v),
            WriteOp::TicksTimestamp { ticks, chunk } => OpSpec::TicksTimestamp(*ticks, *chunk),
            WriteOp::Float(v) => OpSpec::Float(*v),
            WriteOp::Double(v) => OpSpec::Double(*v),
            WriteOp::Text(s) => OpSpec::Text(s@),
            WriteOp::Bool(v) => OpSpec::Bool(*v),
            WriteOp::Short(v) => OpSpec::Short(*v),
            WriteOp::Byte(v) => OpSpec::Byte(*v),
            WriteOp::ReserveList(n) => OpSpec::ReserveList(*n),
            WriteOp::ListEntry { offset, length } => OpSpec::ListEntry(*offset, *length),
            WriteOp::ListSize(n) => OpSpec::ListSize(*n),
        }
    }
}

impl ColumnWrite {
    pub open spec fn spec_of(&self) -> WriteSpec {
        WriteSpec { path: self.path@, row: self.row, op: self.op.spec_of() }
    }
}

pub open spec fn writes_of(ws: Seq<ColumnWrite>) -> Seq<WriteSpec> {
    ws.map_values(|w: ColumnWrite| w.spec_of())
}

/// Nulls a row of a vector, and, for a struct, the row of each member's
/// vector: a struct member's validity is its own and its parent's.
pub open spec fn null_writes(path: Seq<VectorStep>, row: usize, field: FieldNode) -> Seq<WriteSpec>
    decreases field, 0nat,
{
    seq![WriteSpec { path, row, op: OpSpec::SetNull }] + if field.children.len() > 0
        && !field.is_array {
        null_members(path, row, field.children, 0, 0)
    } else {
        Seq::empty()
    }
}

/// The null writes of the valid members from the `i`-th field on, the
/// first of them the `ii`-th member.
pub open spec fn null_members(
    path: Seq<VectorStep>,
    row: usize,
    children: Seq<FieldNode>,
    i: nat,
    ii: nat,
) -> Seq<WriteSpec>
    decreases children, children.len() - i,
{
    if i >= children.len() {
        Seq::empty()
    } else if children[i as int].valid {
        null_writes(path.push(VectorStep::StructChild(ii as usize)), row, children[i as int])
            + null_members(path, row, children, i + 1, ii + 1)
    } else {
        null_members(path, row, children, i + 1, ii)
    }
}

/// A `long` in the unit that the column holds: microseconds for points in
/// time counted from the epoch (multiplications wrap around), ticks left
/// for the clock of chunk `chunk`, or the value itself.
pub open spec fn long_op(field: FieldNode, v: i64, chunk: usize) -> OpSpec {
    if field.tick_unit == Some(TickUnit::Timestamp) {
        OpSpec::TicksTimestamp(v, chunk)
    } else if field.unit == Some(Unit::EpochNano) {
        OpSpec::Long(
            match v.checked_div(1000) {
                Some(q) => q,
                None => 0,
            },
        )
    } else if field.unit == Some(Unit::EpochMilli) {
        OpSpec::Long(v.wrapping_mul(1000))
    } else if field.unit == Some(Unit::EpochSecond) {
        OpSpec::Long(v.wrapping_mul(1_000_000))
    } else {
        OpSpec::Long(v)
    }
}

/// The write of a primitive value read from chunk `chunk`; `None` where the
/// value is a null string.
pub open spec fn primitive_op(field: FieldNode, p: PrimitiveValue, chunk: usize) -> Option<OpSpec> {
    match p {
        PrimitiveValue::Integer(v) => Some(OpSpec::Int(v)),
        PrimitiveValue::Long(v) => Some(long_op(field, v, chunk)),
        PrimitiveValue::Float(v) => Some(OpSpec::Float(v)),
        PrimitiveValue::Double(v) => Some(OpSpec::Double(v)),
        PrimitiveValue::Character(s) => Some(OpSpec::Text(s@)),
        PrimitiveValue::Boolean(v) => Some(OpSpec::Bool(v)),
        PrimitiveValue::Short(v) => Some(OpSpec::Short(v)),
        PrimitiveValue::Byte(v) => Some(OpSpec::Byte(v)),
        PrimitiveValue::NullString => None,
        PrimitiveValue::Text(s) => Some(OpSpec::Text(s@)),
    }
}

/// The writes that put `value`, a value of `field`, into row `row` of the
/// vector at `path`, and the next free rows of the lists afterwards; `None`
/// where a list row would not fit in a `usize`.
pub open spec fn populate(
    path: Seq<VectorStep>,
    row: usize,
    field: FieldNode,
    value: JfrValue,
    offsets: Seq<usize>,
) -> Option<(Seq<WriteSpec>, Seq<usize>)>
    decreases value, 0nat,
{
    match value {
        JfrValue::StackTrace(s) => Some(
            (seq![WriteSpec { path, row, op: OpSpec::Text(s@) }], offsets),
        ),
        JfrValue::Primitive(p, c) => match primitive_op(field, p, c) {
            Some(op) => Some((seq![WriteSpec { path, row, op }], offsets)),
            None => Some((null_writes(path, row, field), offsets)),
        },
        JfrValue::Object(vals) => populate_members(path, row, field.children, vals@, 0, 0, offsets),
        JfrValue::Array(elems) => {
            let child_offset = offsets[field.idx];
            let n = elems@.len();
            if child_offset + n > usize::MAX {
                None
            } else {
                let end = (child_offset + n) as usize;
                match populate_elements(
                    path.push(VectorStep::ListChild),
                    child_offset,
                    field,
                    elems@,
                    0,
                    offsets,
                ) {
                    Some((ws, offs)) => Some(
                        (
                            seq![WriteSpec { path, row, op: OpSpec::ReserveList(end) }] + ws + seq![
                                WriteSpec { path, row, op: OpSpec::ListEntry(child_offset, n as usize) },
                                WriteSpec { path, row, op: OpSpec::ListSize(end) },
                            ],
                            offs.update(field.idx, end),
                        ),
                    ),
                    None => None,
                }
            }
        },
        JfrValue::Missing => Some((null_writes(path, row, field), offsets)),
    }
}

/// The writes of the valid members of a struct from the `i`-th field on,
/// the first of them the `ii`-th member.
pub open spec fn populate_members(
    path: Seq<VectorStep>,
    row: usize,
    children: Seq<FieldNode>,
    vals: Seq<JfrValue>,
    i: nat,
    ii: nat,
    offsets: Seq<usize>,
) -> Option<(Seq<WriteSpec>, Seq<usize>)>
    decreases vals, children.len() - i,
{
    if i >= children.len() {
        Some((Seq::empty(), offsets))
    } else if !children[i as int].valid {
        populate_members(path, row, children, vals, i + 1, ii, offsets)
    } else {
        let member = path.push(VectorStep::StructChild(ii as usize));
        let first = if i < vals.len() {
            populate(member, row, children[i as int], vals[i as int], offsets)
        } else {
            Some((null_writes(member, row, children[i as int]), offsets))
        };
        match first {
            Some((ws, offs)) => match populate_members(path, row, children, vals, i + 1, ii + 1, offs) {
                Some((rest, offs2)) => Some((ws + rest, offs2)),
                None => None,
            },
            None => None,
        }
    }
}

/// The writes of the elements of a list from the `j`-th on, the first of
/// them into row `base + j` of the child vector at `path`.
pub open spec fn populate_elements(
    path: Seq<VectorStep>,
    base: usize,
    field: FieldNode,
    elems: Seq<JfrValue>,
    j: nat,
    offsets: Seq<usize>,
) -> Option<(Seq<WriteSpec>, Seq<usize>)>
    decreases elems, elems.len() - j,
{
    if j >= elems.len() {
        Some((Seq::empty(), offsets))
    } else if base + j > usize::MAX {
        None
    } else {
        match populate(path, (base + j) as usize, field, elems[j as int], offsets) {
            Some((ws, offs)) => match populate_elements(path, base, field, elems, j + 1, offs) {
                Some((rest, offs2)) => Some((ws + rest, offs2)),
                None => None,
            },
            None => None,
        }
    }
}

proof fn lemma_populate_len(
    path: Seq<VectorStep>,
    row: usize,
    field: FieldNode,
    value: JfrValue,
    offsets: Seq<usize>,
)
    requires
        indices_below(field, offsets.len()),
    ensures
        populate(path, row, field, value, offsets) matches Some((_, offs)) ==> offs.len() == offsets.len(),
    decreases value, 0nat,
{
    match value {
        JfrValue::Object(vals) => {
            lemma_members_len(path, row, field.children, vals@, 0, 0, offsets);
            assert(populate(path, row, field, value, offsets) == populate_members(
                path,
                row,
                field.children,
                vals@,
                0,
                0,
                offsets,
            ));
        },
        JfrValue::Array(elems) => {
            let child_offset = offsets[field.idx];
            let n = elems@.len();
            if child_offset + n <= usize::MAX {
                let end = (child_offset + n) as usize;
                lemma_elements_len(path.push(VectorStep::ListChild), child_offset, field, elems@, 0, offsets);
                match populate_elements(path.push(VectorStep::ListChild), child_offset, field, elems@, 0, offsets) {
                    Some((ws, offs)) => {
                        assert(offs.update(field.idx, end).len() == offs.len());
                    },
                    None => {},
                }
            }
        },
        _ => {},
    }
}

proof fn lemma_members_len(
    path: Seq<VectorStep>,
    row: usize,
    children: Seq<FieldNode>,
    vals: Seq<JfrValue>,
    i: nat,
    ii: nat,
    offsets: Seq<usize>,
)
    requires
        all_indices_below(children, offsets.len()),
    ensures
        populate_members(path, row, children, vals, i, ii, offsets) matches Some((_, offs))
            ==> offs.len() == offsets.len(),
    decreases vals, children.len() - i,
{
    if i < children.len() {
        if !children[i as int].valid {
            lemma_members_len(path, row, children, vals, i + 1, ii, offsets);
        } else {
            let member = path.push(VectorStep::StructChild(ii as usize));
            lemma_all_indices_below(children, offsets.len(), i as int);
            if i < vals.len() {
                lemma_populate_len(member, row, children[i as int], vals[i as int], offsets);
            }
            let first = if i < vals.len() {
                populate(member, row, children[i as int], vals[i as int], offsets)
            } else {
                Some((null_writes(member, row, children[i as int]), offsets))
            };
            match first {
                Some((ws, offs)) => {
                    lemma_members_len(path, row, children, vals, i + 1, ii + 1, offs);
                },
                None => {},
            }
        }
    }
}

proof fn lemma_elements_len(
    path: Seq<VectorStep>,
    base: usize,
    field: FieldNode,
    elems: Seq<JfrValue>,
    j: nat,
    offsets: Seq<usize>,
)
    requires
        indices_below(field, offsets.len()),
    ensures
        populate_elements(path, base, field, elems, j, offsets) matches Some((_, offs))
            ==> offs.len() == offsets.len(),
    decreases elems, elems.len() - j,
{
    if j < elems.len() && base + j <= usize::MAX {
        lemma_populate_len(path, (base + j) as usize, field, elems[j as int], offsets);
        match populate(path, (base + j) as usize, field, elems[j as int], offsets) {
            Some((ws, offs)) => {
                lemma_elements_len(path, base, field, elems, j + 1, offs);
            },
            None => {},
        }
    }
}

/// Whether field number `j` is in the tree of `node`: the node itself or a
/// field below it.
pub open spec fn in_tree(node: FieldNode, j: int) -> bool
    decreases node, 1nat,
{
    node.idx == j || in_forest(node.children, j)
}

/// Whether field number `j` is in one of the trees of `nodes`.
pub open spec fn in_forest(nodes: Seq<FieldNode>, j: int) -> bool
    decreases nodes, 0nat,
{
    nodes.len() > 0 && (in_tree(nodes[0], j) || in_forest(nodes.drop_first(), j))
}

proof fn lemma_in_forest(nodes: Seq<FieldNode>, j: int, i: int)
    requires
        !in_forest(nodes, j),
        0 <= i < nodes.len(),
    ensures
        !in_tree(nodes[i], j),
    decreases nodes.len(),
{
    if i > 0 {
        lemma_in_forest(nodes.drop_first(), j, i - 1);
    }
}

/// The length of the list a value makes, where it is one.
pub open spec fn list_len(v: Option<JfrValue>) -> nat {
    match v {
        Some(JfrValue::Array(elems)) => elems@.len(),
        _ => 0,
    }
}

/// Writing a value of a field moves only the next free list rows of the
/// fields in its tree.
proof fn lemma_populate_keeps(
    path: Seq<VectorStep>,
    row: usize,
    field: FieldNode,
    value: JfrValue,
    offsets: Seq<usize>,
    j: int,
)
    requires
        indices_below(field, offsets.len()),
        0 <= j < offsets.len(),
        !in_tree(field, j),
    ensures
        populate(path, row, field, value, offsets) matches Some((_, offs)) ==> offs[j] == offsets[j],
    decreases value, 0nat,
{
    match value {
        JfrValue::Object(vals) => {
            lemma_members_keeps(path, row, field.children, vals@, 0, 0, offsets, j);
            assert(populate(path, row, field, value, offsets) == populate_members(
                path,
                row,
                field.children,
                vals@,
                0,
                0,
                offsets,
            ));
        },
        JfrValue::Array(elems) => {
            let child_offset = offsets[field.idx];
            let n = elems@.len();
            if child_offset + n <= usize::MAX {
                let end = (child_offset + n) as usize;
                lemma_elements_keeps(path.push(VectorStep::ListChild), child_offset, field, elems@, 0, offsets, j);
                lemma_elements_len(path.push(VectorStep::ListChild), child_offset, field, elems@, 0, offsets);
                match populate_elements(path.push(VectorStep::ListChild), child_offset, field, elems@, 0, offsets) {
                    Some((ws, offs)) => {
                        assert(offs.update(field.idx, end)[j] == offs[j]);
                    },
                    None => {},
                }
            }
        },
        _ => {},
    }
}

proof fn lemma_members_keeps(
    path: Seq<VectorStep>,
    row: usize,
    children: Seq<FieldNode>,
    vals: Seq<JfrValue>,
    i: nat,
    ii: nat,
    offsets: Seq<usize>,
    j: int,
)
    requires
        all_indices_below(children, offsets.len()),
        0 <= j < offsets.len(),
        !in_forest(children, j),
    ensures
        populate_members(path, row, children, vals, i, ii, offsets) matches Some((_, offs))
            ==> offs[j] == offsets[j],
    decreases vals, children.len() - i,
{
    if i < children.len() {
        if !children[i as int].valid {
            lemma_members_keeps(path, row, children, vals, i + 1, ii, offsets, j);
        } else {
            let member = path.push(VectorStep::StructChild(ii as usize));
            lemma_all_indices_below(children, offsets.len(), i as int);
            lemma_in_forest(children, j, i as int);
            if i < vals.len() {
                lemma_populate_keeps(member, row, children[i as int], vals[i as int], offsets, j);
                lemma_populate_len(member, row, children[i as int], vals[i as int], offsets);
            }
            let first = if i < vals.len() {
                populate(member, row, children[i as int], vals[i as int], offsets)
            } else {
                Some((null_writes(member, row, children[i as int]), offsets))
            };
            match first {
                Some((ws, offs)) => {
                    lemma_members_keeps(path, row, children, vals, i + 1, ii + 1, offs, j);
                },
                None => {},
            }
        }
    }
}

proof fn lemma_elements_keeps(
    path: Seq<VectorStep>,
    base: usize,
    field: FieldNode,
    elems: Seq<JfrValue>,
    k: nat,
    offsets: Seq<usize>,
    j: int,
)
    requires
        indices_below(field, offsets.len()),
        0 <= j < offsets.len(),
        !in_tree(field, j),
    ensures
        populate_elements(path, base, field, elems, k, offsets) matches Some((_, offs))
            ==> offs[j] == offsets[j],
    decreases elems, elems.len() - k,
{
    if k < elems.len() && base + k <= usize::MAX {
        lemma_populate_keeps(path, (base + k) as usize, field, elems[k as int], offsets, j);
        lemma_populate_len(path, (base + k) as usize, field, elems[k as int], offsets);
        match populate(path, (base + k) as usize, field, elems[k as int], offsets) {
            Some((ws, offs)) => {
                lemma_elements_keeps(path, base, field, elems, k + 1, offs, j);
            },
            None => {},
        }
    }
}

/// Writing a value of a list field that is not numbered again below itself
/// moves the field's next free list row on by the length of the list, and
/// not at all for any other value.
proof fn lemma_populate_own(
    path: Seq<VectorStep>,
    row: usize,
    field: FieldNode,
    value: JfrValue,
    offsets: Seq<usize>,
)
    requires
        indices_below(field, offsets.len()),
        !in_forest(field.children, field.idx),
    ensures
        populate(path, row, field, value, offsets) matches Some((_, offs)) ==> offs[field.idx]
            == offsets[field.idx] + list_len(Some(value)),
{
    match value {
        JfrValue::Object(vals) => {
            lemma_members_keeps(path, row, field.children, vals@, 0, 0, offsets, field.idx);
            assert(populate(path, row, field, value, offsets) == populate_members(
                path,
                row,
                field.children,
                vals@,
                0,
                0,
                offsets,
            ));
        },
        JfrValue::Array(elems) => {
            let child_offset = offsets[field.idx];
            let n = elems@.len();
            if child_offset + n <= usize::MAX {
                lemma_elements_len(path.push(VectorStep::ListChild), child_offset, field, elems@, 0, offsets);
            }
        },
        _ => {},
    }
}

/// The lists of a field take consecutive rows of its child vector: a list
/// of `n` elements written while the field's next free row is `o` takes
/// rows `o .. o + n`, its entry says so, and the field's next free row
/// becomes `o + n`, where the next list of the field starts.
pub proof fn lemma_list_rows_contiguous(
    path: Seq<VectorStep>,
    row: usize,
    field: FieldNode,
    elems: Vec<JfrValue>,
    offsets: Seq<usize>,
)
    requires
        populate(path, row, field, JfrValue::Array(elems), offsets) is Some,
        indices_below(field, offsets.len()),
    ensures
        ({
            let (ws, offs) = populate(path, row, field, JfrValue::Array(elems), offsets)->0;
            let o = offsets[field.idx];
            let n = elems@.len();
            &&& ws.len() >= 3
            &&& ws[0] == WriteSpec { path, row, op: OpSpec::ReserveList((o + n) as usize) }
            &&& ws[ws.len() - 2] == WriteSpec { path, row, op: OpSpec::ListEntry(o, n as usize) }
            &&& ws[ws.len() - 1] == WriteSpec { path, row, op: OpSpec::ListSize((o + n) as usize) }
            &&& offs[field.idx] == o + n
        }),
{
    let o = offsets[field.idx];
    let n = elems@.len();
    let end = (o + n) as usize;
    lemma_elements_len(path.push(VectorStep::ListChild), o, field, elems@, 0, offsets);
    match populate_elements(path.push(VectorStep::ListChild), o, field, elems@, 0, offsets) {
        Some((ws, offs)) => {
            let all = seq![WriteSpec { path, row, op: OpSpec::ReserveList(end) }] + ws + seq![
                WriteSpec { path, row, op: OpSpec::ListEntry(o, n as usize) },
                WriteSpec { path, row, op: OpSpec::ListSize(end) },
            ];
            assert(all[all.len() - 2] == WriteSpec { path, row, op: OpSpec::ListEntry(o, n as usize) });
            assert(all[all.len() - 1] == WriteSpec { path, row, op: OpSpec::ListSize(end) });
            assert(all[0] == WriteSpec { path, row, op: OpSpec::ReserveList(end) });
        },
        None => {},
    }
}

/// Why a scan failed.
#[derive(Debug, Clone, PartialEq, Eq)]
pub enum ScanError {
    /// The text of a stack trace could not be read.
    StackTrace(StackTraceError),
    /// A list would need more rows than a `usize` can number.
    TooManyListRows,
    /// An event could not be read; the message says why.
    Read(String),
}

/// The fields of a list, as mathematical values.
pub open spec fn nodes_of(fields: Seq<JfrField>) -> Seq<FieldNode> {
    Seq::new(fields.len(), |i: int| fields[i].node())
}

pub proof fn lemma_children_nodes(field: JfrField)
    ensures
        field.node().children == nodes_of(field.children@),
{
    assert(field.node().children =~= nodes_of(field.children@));
}

/// Whether every field of the tree is numbered below `n`.
pub open spec fn indices_below(node: FieldNode, n: nat) -> bool
    decreases node, 1nat,
{
    &&& 0 <= node.idx < n
    &&& all_indices_below(node.children, n)
}

/// Whether every field of the forest is numbered below `n`.
pub open spec fn all_indices_below(nodes: Seq<FieldNode>, n: nat) -> bool
    decreases nodes, 0nat,
{
    nodes.len() == 0 || (indices_below(nodes[0], n) && all_indices_below(nodes.drop_first(), n))
}

pub proof fn lemma_all_indices_below(nodes: Seq<FieldNode>, n: nat, i: int)
    requires
        all_indices_below(nodes, n),
        0 <= i < nodes.len(),
    ensures
        indices_below(nodes[i], n),
    decreases nodes.len(),
{
    if i > 0 {
        lemma_all_indices_below(nodes.drop_first(), n, i - 1);
    }
}

proof fn lemma_writes_push(ws: Seq<ColumnWrite>, w: ColumnWrite)
    ensures
        writes_of(ws.push(w)) == writes_of(ws).push(w.spec_of()),
{
    assert(writes_of(ws.push(w)) =~= writes_of(ws).push(w.spec_of()));
}

fn copy_path(path: &Vec<VectorStep>) -> (r: Vec<VectorStep>)
    ensures
        r@ == path@,
{
    let mut out: Vec<VectorStep> = Vec::new();
    let mut i: usize = 0;
    while i < path.len()
        invariant
            i <= path@.len(),
            out@ == path@.subrange(0, i as int),
        decreases path@.len() - i,
    {
        out.push(path[i]);
        i = i + 1;
        assert(out@ =~= path@.subrange(0, i as int));
    }
    assert(path@.subrange(0, path@.len() as int) =~= path@);
    out
}

fn extend_path(path: &Vec<VectorStep>, step: VectorStep) -> (r: Vec<VectorStep>)
    ensures
        r@ == path@.push(step),
{
    let mut out = copy_path(path);
    out.push(step);
    out
}

fn push_write(out: &mut Vec<ColumnWrite>, path: &Vec<VectorStep>, row: usize, op: WriteOp)
    ensures
        writes_of(final(out)@) == writes_of(old(out)@) + seq![
            WriteSpec { path: path@, row, op: op.spec_of() },
        ],
{
    let w = ColumnWrite { path: copy_path(path), row, op };
    let ghost ws = w.spec_of();
    proof {
        lemma_writes_push(out@, w);
    }
    out.push(w);
    assert(writes_of(old(out)@).push(ws) =~= writes_of(old(out)@) + seq![ws]);
}

/// Nulls row `row_idx` of the vector at `path`, which holds `field`, and
/// the rows of its members where it is a struct.
pub fn set_null(out: &mut Vec<ColumnWrite>, path: &Vec<VectorStep>, row_idx: usize, field: &JfrField)
    ensures
        writes_of(final(out)@) == writes_of(old(out)@) + null_writes(path@, row_idx, field.node()),
    decreases field,
{
    push_write(out, path, row_idx, WriteOp::SetNull);
    proof {
        lemma_children_nodes(*field);
    }
    if field.children.len() > 0 && !field.is_array {
        let ghost mid = writes_of(out@);
        set_null_members(out, path, row_idx, &field.children, 0, 0);
        assert(writes_of(old(out)@) + null_writes(path@, row_idx, field.node()) =~= writes_of(
            old(out)@,
        ) + seq![WriteSpec { path: path@, row: row_idx, op: OpSpec::SetNull }]
            + null_members(path@, row_idx, nodes_of(field.children@), 0, 0));
    } else {
        assert(null_writes(path@, row_idx, field.node()) =~= seq![
            WriteSpec { path: path@, row: row_idx, op: OpSpec::SetNull },
        ]);
    }
}

fn set_null_members(
    out: &mut Vec<ColumnWrite>,
    path: &Vec<VectorStep>,
    row_idx: usize,
    children: &Vec<JfrField>,
    i: usize,
    ii: usize,
)
    requires
        i <= children@.len(),
        ii <= i,
    ensures
        writes_of(final(out)@) == writes_of(old(out)@) + null_members(
            path@,
            row_idx,
            nodes_of(children@),
            i as nat,
            ii as nat,
        ),
    decreases children@, children@.len() - i,
{
    let ghost nodes = nodes_of(children@);
    if i >= children.len() {
        assert(writes_of(old(out)@) + Seq::<WriteSpec>::empty() =~= writes_of(old(out)@));
        return;
    }
    let s = &children[i];
    assert(nodes[i as int] == s.node());
    if s.valid {
        let member = extend_path(path, VectorStep::StructChild(ii));
        set_null(out, &member, row_idx, s);
        let ghost mid = writes_of(out@);
        set_null_members(out, path, row_idx, children, i + 1, ii + 1);
        assert(writes_of(old(out)@) + null_members(path@, row_idx, nodes, i as nat, ii as nat)
            =~= writes_of(old(out)@) + null_writes(member@, row_idx, s.node()) + null_members(
            path@,
            row_idx,
            nodes,
            (i + 1) as nat,
            (ii + 1) as nat,
        ));
    } else {
        set_null_members(out, path, row_idx, children, i + 1, ii);
    }
}

fn long_write(field: &JfrField, v: i64, chunk: usize) -> (op: WriteOp)
    ensures
        op.spec_of() == long_op(field.node(), v, chunk),
{
    match (field.tick_unit, field.unit) {
        (Some(TickUnit::Timestamp), _) => WriteOp::TicksTimestamp { ticks: v, chunk },
        (_, Some(Unit::EpochNano)) => WriteOp::Long(
            match v.checked_div(1000) {
                Some(q) => q,
                None => 0,
            },
        ),
        (_, Some(Unit::EpochMilli)) => WriteOp::Long(v.wrapping_mul(1000)),
        (_, Some(Unit::EpochSecond)) => WriteOp::Long(v.wrapping_mul(1_000_000)),
        _ => WriteOp::Long(v),
    }
}

fn primitive_write(field: &JfrField, p: &PrimitiveValue, chunk: usize) -> (op: Option<WriteOp>)
    ensures
        match op {
            Some(o) => primitive_op(field.node(), *p, chunk) == Some(o.spec_of()),
            None => primitive_op(field.node(), *p, chunk) is None,
        },
{
    match p {
        PrimitiveValue::Integer(v) => Some(WriteOp::Int(*v)),
        PrimitiveValue::Long(v) => Some(long_write(field, *v, chunk)),
        PrimitiveValue::Float(v) => Some(WriteOp::Float(*v)),
        PrimitiveValue::Double(v) => Some(WriteOp::Double(*v)),
        PrimitiveValue::Character(s) => Some(WriteOp::Text(s.clone())),
        PrimitiveValue::Boolean(v) => Some(WriteOp::Bool(*v)),
        PrimitiveValue::Short(v) => Some(WriteOp::Short(*v)),
        PrimitiveValue::Byte(v) => Some(WriteOp::Byte(*v)),
        PrimitiveValue::NullString => None,
        PrimitiveValue::Text(s) => Some(WriteOp::Text(s.clone())),
    }
}

/// What `populate_column` leaves behind.
pub open spec fn populated(
    expected: Option<(Seq<WriteSpec>, Seq<usize>)>,
    out0: Seq<ColumnWrite>,
    out1: Seq<ColumnWrite>,
    offs1: Seq<usize>,
    r: Result<(), ScanError>,
) -> bool {
    match expected {
        Some((ws, offs)) => {
            &&& r is Ok
            &&& writes_of(out1) == writes_of(out0) + ws
            &&& offs1 == offs
        },
        None => r == Err::<(), ScanError>(ScanError::TooManyListRows),
    }
}

/// Puts `value`, a value of `field`, into row `row_idx` of the vector at
/// `path`: appends the writes to `out` and keeps the next free row of each
/// list in `pool`.
pub fn populate_column(
    out: &mut Vec<ColumnWrite>,
    path: &Vec<VectorStep>,
    row_idx: usize,
    field: &JfrField,
    value: &JfrValue,
    pool: &mut Pool,
) -> (r: Result<(), ScanError>)
    requires
        indices_below(field.node(), old(pool).list_children_idx@.len()),
    ensures
        final(pool).stacktrace_cache == old(pool).stacktrace_cache,
        final(pool).list_children_idx@.len() == old(pool).list_children_idx@.len(),
        populated(
            populate(path@, row_idx, field.node(), *value, old(pool).list_children_idx@),
            old(out)@,
            final(out)@,
            final(pool).list_children_idx@,
            r,
        ),
    decreases value, 0nat,
{
    proof {
        lemma_children_nodes(*field);
    }
    match value {
        JfrValue::StackTrace(s) => {
            push_write(out, path, row_idx, WriteOp::Text(s.clone()));
            Ok(())
        },
        JfrValue::Primitive(p, c) => {
            match primitive_write(field, p, *c) {
                Some(op) => push_write(out, path, row_idx, op),
                None => set_null(out, path, row_idx, field),
            }
            Ok(())
        },
        JfrValue::Object(vals) => {
            proof {
                let n = old(pool).list_children_idx@.len();
                assert(pool.list_children_idx@.len() == n);
                assert forall|i: int| 0 <= i < field.children@.len() implies indices_below(
                    #[trigger] field.children@[i].node(),
                    pool.list_children_idx@.len(),
                ) by {
                    assert(field.node().children[i] == field.children@[i].node());
                    lemma_all_indices_below(field.node().children, n, i);
                }
            }
            fill_members(out, path, row_idx, &field.children, vals, 0, 0, pool)
        },
        JfrValue::Array(elems) => {
            let child_offset = pool.get_list_child_row_idx(field.idx);
            let n = elems.len();
            if child_offset > usize::MAX - n {
                return Err(ScanError::TooManyListRows);
            }
            let end = child_offset + n;
            let ghost before = writes_of(out@);
            push_write(out, path, row_idx, WriteOp::ReserveList(end));
            let child_path = extend_path(path, VectorStep::ListChild);
            let ghost offs0 = pool.list_children_idx@;
            let ghost mid = writes_of(out@);
            match fill_elements(out, &child_path, child_offset, field, elems, 0, pool) {
                Ok(()) => {},
                Err(e) => {
                    return Err(e);
                },
            }
            let ghost after_elems = writes_of(out@);
            push_write(out, path, row_idx, WriteOp::ListEntry { offset: child_offset, length: n });
            pool.set_list_child_row_idx(field.idx, end);
            push_write(out, path, row_idx, WriteOp::ListSize(end));
            proof {
                match populate_elements(child_path@, child_offset, field.node(), elems@, 0, offs0) {
                    Some((ws, offs)) => {
                        assert(writes_of(out@) =~= before + (seq![
                            WriteSpec { path: path@, row: row_idx, op: OpSpec::ReserveList(end) },
                        ] + ws + seq![
                            WriteSpec {
                                path: path@,
                                row: row_idx,
                                op: OpSpec::ListEntry(child_offset, n),
                            },
                            WriteSpec { path: path@, row: row_idx, op: OpSpec::ListSize(end) },
                        ]));
                    },
                    None => {},
                }
            }
            Ok(())
        },
        JfrValue::Missing => {
            set_null(out, path, row_idx, field);
            Ok(())
        },
    }
}

fn fill_members(
    out: &mut Vec<ColumnWrite>,
    path: &Vec<VectorStep>,
    row_idx: usize,
    children: &Vec<JfrField>,
    vals: &Vec<JfrValue>,
    i: usize,
    ii: usize,
    pool: &mut Pool,
) -> (r: Result<(), ScanError>)
    requires
        i <= children@.len(),
        ii <= i,
        forall|j: int|
            0 <= j < children@.len() ==> indices_below(
                #[trigger] children@[j].node(),
                old(pool).list_children_idx@.len(),
            ),
    ensures
        final(pool).stacktrace_cache == old(pool).stacktrace_cache,
        final(pool).list_children_idx@.len() == old(pool).list_children_idx@.len(),
        populated(
            populate_members(
                path@,
                row_idx,
                nodes_of(children@),
                vals@,
                i as nat,
                ii as nat,
                old(pool).list_children_idx@,
            ),
            old(out)@,
            final(out)@,
            final(pool).list_children_idx@,
            r,
        ),
    decreases vals@, children@.len() - i,
{
    let ghost nodes = nodes_of(children@);
    if i >= children.len() {
        assert(writes_of(old(out)@) + Seq::<WriteSpec>::empty() =~= writes_of(old(out)@));
        return Ok(());
    }
    let s = &children[i];
    assert(nodes[i as int] == s.node());
    if !s.valid {
        return fill_members(out, path, row_idx, children, vals, i + 1, ii, pool);
    }
    let member = extend_path(path, VectorStep::StructChild(ii));
    let ghost offs0 = pool.list_children_idx@;
    if i < vals.len() {
        match populate_column(out, &member, row_idx, s, &vals[i], pool) {
            Ok(()) => {},
            Err(e) => {
                return Err(e);
            },
        }
    } else {
        set_null(out, &member, row_idx, s);
    }
    let ghost mid = writes_of(out@);
    let ghost offs1 = pool.list_children_idx@;
    let res = fill_members(out, path, row_idx, children, vals, i + 1, ii + 1, pool);
    proof {
        let first = if i < vals@.len() {
            populate(member@, row_idx, nodes[i as int], vals@[i as int], offs0)
        } else {
            Some((null_writes(member@, row_idx, nodes[i as int]), offs0))
        };
        match first {
            Some((ws, offs)) => {
                match populate_members(path@, row_idx, nodes, vals@, (i + 1) as nat, (ii + 1) as nat, offs) {
                    Some((rest, offs2)) => {
                        assert(writes_of(old(out)@) + (ws + rest) =~= writes_of(old(out)@) + ws + rest);
                    },
                    None => {},
                }
            },
            None => {},
        }
    }
    res
}

fn fill_elements(
    out: &mut Vec<ColumnWrite>,
    path: &Vec<VectorStep>,
    base: usize,
    field: &JfrField,
    elems: &Vec<JfrValue>,
    j: usize,
    pool: &mut Pool,
) -> (r: Result<(), ScanError>)
    requires
        j <= elems@.len(),
        indices_below(field.node(), old(pool).list_children_idx@.len()),
    ensures
        final(pool).stacktrace_cache == old(pool).stacktrace_cache,
        final(pool).list_children_idx@.len() == old(pool).list_children_idx@.len(),
        populated(
            populate_elements(
                path@,
                base,
                field.node(),
                elems@,
                j as nat,
                old(pool).list_children_idx@,
            ),
            old(out)@,
            final(out)@,
            final(pool).list_children_idx@,
            r,
        ),
    decreases elems@, elems@.len() - j,
{
    if j >= elems.len() {
        assert(writes_of(old(out)@) + Seq::<WriteSpec>::empty() =~= writes_of(old(out)@));
        return Ok(());
    }
    if base > usize::MAX - j {
        return Err(ScanError::TooManyListRows);
    }
    let ghost offs0 = pool.list_children_idx@;
    match populate_column(out, path, base + j, field, &elems[j], pool) {
        Ok(()) => {},
        Err(e) => {
            return Err(e);
        },
    }
    let res = fill_elements(out, path, base, field, elems, j + 1, pool);
    proof {
        match populate(path@, (base + j) as usize, field.node(), elems@[j as int], offs0) {
            Some((ws, offs)) => {
                match populate_elements(path@, base, field.node(), elems@, (j + 1) as nat, offs) {
                    Some((rest, offs2)) => {
                        assert(writes_of(old(out)@) + (ws + rest) =~= writes_of(old(out)@) + ws + rest);
                    },
                    None => {},
                }
            },
            None => {},
        }
    }
    res
}

/// Whether `v` is a value of `field` as it is read from chunk `chunk`:
/// missing, or the text of a stack trace for a stack trace field; else a
/// primitive value
/// read from that chunk, an object with one value per field below, which
/// is missing for a field that is not valid, an array of values of the
/// field (but within an array), or missing.
pub open spec fn value_of_field(v: JfrValue, field: FieldNode, in_array: bool, chunk: usize) -> bool
    decreases v,
{
    if field.class_name == STACK_TRACE_TYPE@ {
        v is StackTrace || v is Missing
    } else {
        match v {
            JfrValue::Primitive(_, c) => c == chunk,
            JfrValue::Object(vals) => {
                &&& vals@.len() == field.children.len()
                &&& forall|i: int|
                    0 <= i < vals@.len() ==> if field.children[i].valid {
                        value_of_field(#[trigger] vals@[i], field.children[i], false, chunk)
                    } else {
                        vals@[i] is Missing
                    }
            },
            JfrValue::Array(elems) => {
                &&& !in_array
                &&& forall|j: int|
                    0 <= j < elems@.len() ==> value_of_field(#[trigger] elems@[j], field, true, chunk)
            },
            JfrValue::StackTrace(_) => false,
            JfrValue::Missing => true,
        }
    }
}

/// Whether no field of the tree that is read is a stack trace: neither the
/// field itself nor a valid field below it.
pub open spec fn no_stack_trace(node: FieldNode) -> bool
    decreases node, 1nat,
{
    &&& node.class_name != STACK_TRACE_TYPE@
    &&& no_stack_trace_in(node.children)
}

/// Whether no valid field of the forest holds a stack trace.
pub open spec fn no_stack_trace_in(nodes: Seq<FieldNode>) -> bool
    decreases nodes, 0nat,
{
    nodes.len() == 0 || ((!nodes[0].valid || no_stack_trace(nodes[0])) && no_stack_trace_in(
        nodes.drop_first(),
    ))
}

proof fn lemma_no_stack_trace_in(nodes: Seq<FieldNode>, i: int)
    requires
        no_stack_trace_in(nodes),
        0 <= i < nodes.len(),
        nodes[i].valid,
    ensures
        no_stack_trace(nodes[i]),
    decreases nodes.len(),
{
    if i > 0 {
        lemma_no_stack_trace_in(nodes.drop_first(), i - 1);
    }
}

/// A value read along the schema, as a mathematical value.
pub ghost enum ValueSpec {
    Primitive(PrimitiveValue, usize),
    Object(Seq<ValueSpec>),
    Array(Seq<ValueSpec>),
    StackTrace(Seq<char>),
    Missing,
}

impl JfrValue {
    /// This value as a mathematical value.
    pub open spec fn spec_of(&self) -> ValueSpec
        decreases self,
    {
        match self {
            JfrValue::Primitive(p, c) => ValueSpec::Primitive(*p, *c),
            JfrValue::Object(vals) => ValueSpec::Object(
                Seq::new(
                    vals@.len(),
                    |i: int|
                        if 0 <= i < vals@.len() {
                            vals@[i].spec_of()
                        } else {
                            ValueSpec::Missing
                        },
                ),
            ),
            JfrValue::Array(vals) => ValueSpec::Array(
                Seq::new(
                    vals@.len(),
                    |i: int|
                        if 0 <= i < vals@.len() {
                            vals@[i].spec_of()
                        } else {
                            ValueSpec::Missing
                        },
                ),
            ),
            JfrValue::StackTrace(s) => ValueSpec::StackTrace(s@),
            JfrValue::Missing => ValueSpec::Missing,
        }
    }
}

/// Values as mathematical values, in order.
pub open spec fn specs_of(vals: Seq<JfrValue>) -> Seq<ValueSpec> {
    Seq::new(vals.len(), |i: int| vals[i].spec_of())
}

/// What reading a stack trace from `accessor` gives, and the cached traces
/// afterwards: a constant's text is served from the cache where its chunk
/// and constant index are there, else read and cached; any other value is
/// read each time.
pub open spec fn trace_value_read(
    cache: Map<(usize, i64), (Seq<char>, usize)>,
    chunk_idx: usize,
    accessor: Accessor,
) -> (Result<ValueSpec, ScanError>, Map<(usize, i64), (Seq<char>, usize)>) {
    match value_kind(accessor) {
        ValueKind::Constant(constant_index) => {
            let key = (chunk_idx, constant_index);
            if cache.contains_key(key) {
                (Ok(ValueSpec::StackTrace(cache[key].0)), cache)
            } else {
                match trace_read(accessor) {
                    Ok(t) => (
                        Ok(ValueSpec::StackTrace(t)),
                        cache.insert(key, (t, encode_utf8(t).len() as usize)),
                    ),
                    Err(e) => (Err(ScanError::StackTrace(e)), cache),
                }
            }
        },
        _ => match trace_read(accessor) {
            Ok(t) => (Ok(ValueSpec::StackTrace(t)), cache),
            Err(e) => (Err(ScanError::StackTrace(e)), cache),
        },
    }
}

/// What reading `field` from `accessor` of chunk `chunk` gives, along the
/// schema, and the cached stack traces afterwards: a stack trace becomes
/// its text; else the value is resolved (missing where the constant pool
/// lacks it), a primitive is kept with the chunk's number, an object gives
/// the values of its fields and an array those of its elements; an array
/// met among the elements of an array, and anything else, is missing.
pub open spec fn value_read(
    cache: Map<(usize, i64), (Seq<char>, usize)>,
    chunk: Chunk,
    chunk_idx: usize,
    field: FieldNode,
    accessor: Accessor,
    in_array: bool,
) -> (Result<ValueSpec, ScanError>, Map<(usize, i64), (Seq<char>, usize)>)
    decreases field, if in_array { 1nat } else { 3nat }, 0nat,
{
    if field.class_name == STACK_TRACE_TYPE@ {
        trace_value_read(cache, chunk_idx, accessor)
    } else {
        match resolved(accessor) {
            None => (Ok(ValueSpec::Missing), cache),
            Some(a) => match value_kind(a) {
                ValueKind::Primitive => (
                    Ok(
                        match value_primitive(a) {
                            Some(p) => ValueSpec::Primitive(p, chunk_idx),
                            None => ValueSpec::Missing,
                        },
                    ),
                    cache,
                ),
                ValueKind::Object => {
                    let (r, c) = members_read(cache, chunk, chunk_idx, field, a, field.children.len());
                    match r {
                        Ok(vs) => (Ok(ValueSpec::Object(vs)), c),
                        Err(e) => (Err(e), c),
                    }
                },
                ValueKind::Array => if in_array {
                    (Ok(ValueSpec::Missing), cache)
                } else {
                    match array_elements_of(chunk, a) {
                        None => (Ok(ValueSpec::Missing), cache),
                        Some(es) => {
                            let (r, c) = elements_read(cache, chunk, chunk_idx, field, es, es.len());
                            match r {
                                Ok(vs) => (Ok(ValueSpec::Array(vs)), c),
                                Err(e) => (Err(e), c),
                            }
                        },
                    }
                },
                ValueKind::Constant(_) => (Ok(ValueSpec::Missing), cache),
            },
        }
    }
}

/// What reading the first `k` fields of `field` from the object `object`
/// gives, in order, and the cached stack traces afterwards: a field that
/// the schema cuts off, or that the object lacks, is missing; the first
/// error stops the reading.
pub open spec fn members_read(
    cache: Map<(usize, i64), (Seq<char>, usize)>,
    chunk: Chunk,
    chunk_idx: usize,
    field: FieldNode,
    object: Accessor,
    k: nat,
) -> (Result<Seq<ValueSpec>, ScanError>, Map<(usize, i64), (Seq<char>, usize)>)
    decreases field, 0nat, k,
{
    if k == 0 {
        (Ok(Seq::empty()), cache)
    } else {
        let (prev, c1) = members_read(cache, chunk, chunk_idx, field, object, (k - 1) as nat);
        match prev {
            Err(e) => (Err(e), c1),
            Ok(vs) => if k > field.children.len() || !field.children[k - 1].valid {
                (Ok(vs.push(ValueSpec::Missing)), c1)
            } else {
                match object_field_at(chunk, object, (k - 1) as usize) {
                    None => (Ok(vs.push(ValueSpec::Missing)), c1),
                    Some(a) => {
                        let (r, c2) = value_read(c1, chunk, chunk_idx, field.children[k - 1], a, false);
                        match r {
                            Ok(v) => (Ok(vs.push(v)), c2),
                            Err(e) => (Err(e), c2),
                        }
                    },
                }
            },
        }
    }
}

/// What reading the first `k` of the elements `elements` of an array of
/// `field` gives, in order, and the cached stack traces afterwards; the
/// first error stops the reading.
pub open spec fn elements_read(
    cache: Map<(usize, i64), (Seq<char>, usize)>,
    chunk: Chunk,
    chunk_idx: usize,
    field: FieldNode,
    elements: Seq<Accessor>,
    k: nat,
) -> (Result<Seq<ValueSpec>, ScanError>, Map<(usize, i64), (Seq<char>, usize)>)
    decreases field, 2nat, k,
{
    if k == 0 {
        (Ok(Seq::empty()), cache)
    } else {
        let (prev, c1) = elements_read(cache, chunk, chunk_idx, field, elements, (k - 1) as nat);
        match prev {
            Err(e) => (Err(e), c1),
            Ok(vs) => {
                let (r, c2) = value_read(c1, chunk, chunk_idx, field, elements[k - 1], true);
                match r {
                    Ok(v) => (Ok(vs.push(v)), c2),
                    Err(e) => (Err(e), c2),
                }
            },
        }
    }
}

/// The outcome of a read as it is handed back: the value, or the error.
pub open spec fn read_outcome(r: Result<JfrValue, ScanError>) -> Result<ValueSpec, ScanError> {
    match r {
        Ok(v) => Ok(v.spec_of()),
        Err(e) => Err(e),
    }
}

/// An object's or an array's values, as mathematical values.
proof fn lemma_spec_of_values(vals: Vec<JfrValue>)
    ensures
        JfrValue::Object(vals).spec_of() == ValueSpec::Object(specs_of(vals@)),
        JfrValue::Array(vals).spec_of() == ValueSpec::Array(specs_of(vals@)),
{
    let o = JfrValue::Object(vals).spec_of();
    let a = JfrValue::Array(vals).spec_of();
    match o {
        ValueSpec::Object(s) => assert(s =~= specs_of(vals@)),
        _ => {},
    }
    match a {
        ValueSpec::Array(s) => assert(s =~= specs_of(vals@)),
        _ => {},
    }
}

proof fn lemma_members_error(
    cache: Map<(usize, i64), (Seq<char>, usize)>,
    chunk: Chunk,
    chunk_idx: usize,
    field: FieldNode,
    object: Accessor,
    k0: nat,
    k: nat,
)
    requires
        k0 <= k,
        members_read(cache, chunk, chunk_idx, field, object, k0).0 is Err,
    ensures
        members_read(cache, chunk, chunk_idx, field, object, k) == members_read(
            cache,
            chunk,
            chunk_idx,
            field,
            object,
            k0,
        ),
    decreases k - k0,
{
    if k > k0 {
        lemma_members_error(cache, chunk, chunk_idx, field, object, k0, (k - 1) as nat);
    }
}

proof fn lemma_elements_error(
    cache: Map<(usize, i64), (Seq<char>, usize)>,
    chunk: Chunk,
    chunk_idx: usize,
    field: FieldNode,
    elements: Seq<Accessor>,
    k0: nat,
    k: nat,
)
    requires
        k0 <= k,
        elements_read(cache, chunk, chunk_idx, field, elements, k0).0 is Err,
    ensures
        elements_read(cache, chunk, chunk_idx, field, elements, k) == elements_read(
            cache,
            chunk,
            chunk_idx,
            field,
            elements,
            k0,
        ),
    decreases k - k0,
{
    if k > k0 {
        lemma_elements_error(cache, chunk, chunk_idx, field, elements, k0, (k - 1) as nat);
    }
}

/// The vector path of a run of struct members: the members' positions
/// among the valid members, one level after the other.
pub open spec fn struct_path(steps: Seq<usize>) -> Seq<VectorStep> {
    steps.map_values(|s: usize| VectorStep::StructChild(s))
}

/// The `m`-th valid field among `children` from the `i`-th on.
pub open spec fn nth_valid_from(children: Seq<FieldNode>, i: nat, m: nat) -> Option<FieldNode>
    decreases children.len() - i,
{
    if i >= children.len() {
        None
    } else if children[i as int].valid {
        if m == 0 {
            Some(children[i as int])
        } else {
            nth_valid_from(children, i + 1, (m - 1) as nat)
        }
    } else {
        nth_valid_from(children, i + 1, m)
    }
}

/// Whether `steps` lead from `field` down to a field of its struct column:
/// each step picks a valid member of a struct field that is not a list.
pub open spec fn reaches(field: FieldNode, steps: Seq<usize>) -> bool
    decreases steps.len(),
{
    if steps.len() == 0 {
        true
    } else {
        &&& !field.is_array
        &&& nth_valid_from(field.children, 0, steps[0] as nat) matches Some(g)
        &&& reaches(g, steps.drop_first())
    }
}

proof fn lemma_nth_valid_below(children: Seq<FieldNode>, i: nat, m: nat)
    ensures
        nth_valid_from(children, i, m) matches Some(g) ==> exists|k: int|
            i <= k < children.len() && #[trigger] children[k] == g,
    decreases children.len() - i,
{
    if i < children.len() {
        if children[i as int].valid {
            if m > 0 {
                lemma_nth_valid_below(children, i + 1, (m - 1) as nat);
            }
        } else {
            lemma_nth_valid_below(children, i + 1, m);
        }
    }
}

/// Law: a null struct is null all the way down. Setting a field's value to
/// null at `path` writes a null at the path of the field itself and of
/// every valid field below it that no list stands between, at the same
/// row, however deep.
pub proof fn lemma_null_reaches_every_member(
    path: Seq<VectorStep>,
    row: usize,
    field: FieldNode,
    steps: Seq<usize>,
)
    requires
        reaches(field, steps),
    ensures
        null_writes(path, row, field).contains(
            WriteSpec { path: path + struct_path(steps), row, op: OpSpec::SetNull },
        ),
    decreases field, 0nat,
{
    let w = WriteSpec { path: path + struct_path(steps), row, op: OpSpec::SetNull };
    let first = WriteSpec { path, row, op: OpSpec::SetNull };
    let below = if field.children.len() > 0 && !field.is_array {
        null_members(path, row, field.children, 0, 0)
    } else {
        Seq::empty()
    };
    assert(null_writes(path, row, field) == seq![first] + below);
    if steps.len() == 0 {
        assert(path + struct_path(steps) =~= path);
        assert((seq![first] + below)[0] == first);
    } else {
        let g = nth_valid_from(field.children, 0, steps[0] as nat)->0;
        lemma_nth_valid_below(field.children, 0, steps[0] as nat);
        assert(field.children.len() > 0);
        lemma_null_members_reach(path, row, field.children, 0, 0, steps[0] as nat, steps.drop_first());
        assert(path + struct_path(steps) =~= path.push(VectorStep::StructChild(steps[0]))
            + struct_path(steps.drop_first()));
        let k = choose|k: int| 0 <= k < below.len() && below[k] == w;
        assert((seq![first] + below)[k + 1] == w);
    }
}

proof fn lemma_null_members_reach(
    path: Seq<VectorStep>,
    row: usize,
    children: Seq<FieldNode>,
    i: nat,
    ii: nat,
    m: nat,
    rest: Seq<usize>,
)
    requires
        nth_valid_from(children, i, m) matches Some(g) && reaches(g, rest),
        ii + m <= usize::MAX,
    ensures
        null_members(path, row, children, i, ii).contains(
            WriteSpec {
                path: path.push(VectorStep::StructChild((ii + m) as usize)) + struct_path(rest),
                row,
                op: OpSpec::SetNull,
            },
        ),
    decreases children, children.len() - i,
{
    let w = WriteSpec {
        path: path.push(VectorStep::StructChild((ii + m) as usize)) + struct_path(rest),
        row,
        op: OpSpec::SetNull,
    };
    if children[i as int].valid {
        let here = null_writes(path.push(VectorStep::StructChild(ii as usize)), row, children[i as int]);
        let after = null_members(path, row, children, i + 1, ii + 1);
        assert(null_members(path, row, children, i, ii) == here + after);
        if m == 0 {
            lemma_null_reaches_every_member(
                path.push(VectorStep::StructChild(ii as usize)),
                row,
                children[i as int],
                rest,
            );
            let k = choose|k: int| 0 <= k < here.len() && here[k] == w;
            assert((here + after)[k] == w);
        } else {
            lemma_null_members_reach(path, row, children, i + 1, ii + 1, (m - 1) as nat, rest);
            let k = choose|k: int| 0 <= k < after.len() && after[k] == w;
            assert((here + after)[here.len() + k] == w);
        }
    } else {
        lemma_null_members_reach(path, row, children, i + 1, ii, m, rest);
    }
}

/// Law: a stack trace that is a constant of a chunk is the one that chunk
/// holds. The text is looked up and cached under the chunk's number and
/// the constant's index: where the cache has no text under that key,
/// whatever other chunks have cached under the same index, the text is
/// read from the value itself and cached under the key; where it has one,
/// that text is given and the cache stays as it is.
pub proof fn lemma_stack_trace_of_its_chunk(
    cache: Map<(usize, i64), (Seq<char>, usize)>,
    chunk: Chunk,
    chunk_idx: usize,
    field: FieldNode,
    accessor: Accessor,
    in_array: bool,
    constant_index: i64,
)
    requires
        field.class_name == STACK_TRACE_TYPE@,
        value_kind(accessor) == ValueKind::Constant(constant_index),
    ensures
        ({
            let (r, after) = value_read(cache, chunk, chunk_idx, field, accessor, in_array);
            &&& !cache.contains_key((chunk_idx, constant_index)) ==> match trace_read(accessor) {
                Ok(t) => {
                    &&& r == Ok::<ValueSpec, ScanError>(ValueSpec::StackTrace(t))
                    &&& after == cache.insert((chunk_idx, constant_index), (t, encode_utf8(t).len() as usize))
                },
                Err(e) => r == Err::<ValueSpec, ScanError>(ScanError::StackTrace(e)) && after == cache,
            }
            &&& cache.contains_key((chunk_idx, constant_index)) ==> {
                &&& r == Ok::<ValueSpec, ScanError>(
                    ValueSpec::StackTrace(cache[(chunk_idx, constant_index)].0),
                )
                &&& after == cache
            }
        }),
{
}

/// Law: only Java frames of a known class are written `Class.method:line`.
/// A frame whose type is none of "Interpreted", "JIT compiled", "Inlined"
/// and "C1 compiled", or whose class is unknown, is its bare method name,
/// whatever its class and line; a Java frame of a known class starts with
/// its class, a dot and its method.
pub proof fn lemma_frame_line_by_type(f: FrameSpec)
    ensures
        (f.frame_type != "Interpreted"@ && f.frame_type != "JIT compiled"@ && f.frame_type
            != "Inlined"@ && f.frame_type != "C1 compiled"@) ==> frame_line(f) == f.method_name,
        f.class_name.len() == 0 ==> frame_line(f) == f.method_name,
        (f.frame_type == "Interpreted"@ || f.frame_type == "JIT compiled"@ || f.frame_type
            == "Inlined"@ || f.frame_type == "C1 compiled"@) && f.class_name.len() > 0 ==> {
            let head = f.class_name + seq!['.'] + f.method_name;
            &&& frame_line(f).len() >= head.len()
            &&& frame_line(f).subrange(0, head.len() as int) == head
        },
{
    let head = f.class_name + seq!['.'] + f.method_name;
    if is_java_frame(f.frame_type) && f.class_name.len() > 0 {
        let tail = if f.line_number > 0 {
            seq![':'] + decimal(f.line_number as nat)
        } else {
            Seq::<char>::empty()
        };
        assert((head + tail).subrange(0, head.len() as int) =~= head);
    }
}

/// Reads the value of `field` from `accessor`, along the schema: a stack
/// trace becomes its text (cached by chunk and constant index where it is a
/// constant), a constant is resolved, an object gives the values of its
/// fields and an array those of its elements. An array met while reading
/// the elements of an array is read as missing.
pub fn read_value(
    chunk: &Chunk,
    chunk_idx: usize,
    field: &JfrField,
    accessor: Accessor,
    in_array: bool,
    pool: &mut Pool,
) -> (r: Result<JfrValue, ScanError>)
    ensures
        final(pool).list_children_idx == old(pool).list_children_idx,
        ({
            let (res, after) = value_read(
                cached_traces(old(pool).stacktrace_cache),
                *chunk,
                chunk_idx,
                field.node(),
                accessor,
                in_array,
            );
            &&& read_outcome(r) == res
            &&& cached_traces(final(pool).stacktrace_cache) == after
        }),
        r matches Ok(v) ==> value_of_field(v, field.node(), in_array, chunk_idx),
        r matches Err(e) ==> e is StackTrace,
        no_stack_trace(field.node()) ==> r is Ok,
        field.class_name@ == STACK_TRACE_TYPE@ ==> (r matches Ok(v) ==> v is StackTrace),
    decreases field, if in_array { 0nat } else { 1nat },
{
    let ghost c0 = cached_traces(pool.stacktrace_cache);
    let ghost node = field.node();
    let ghost acc = accessor;
    // A stack trace is kept as one text, which is cheaper than a list of
    // frame structs.
    if str_eq(field.class_name.as_str(), STACK_TRACE_TYPE) {
        let text = match kind_of(&accessor) {
            ValueKind::Constant(constant_index) => pool.get_stacktrace(
                chunk_idx,
                constant_index,
                &accessor,
            ),
            // A stack trace outside the constant pool is read each time.
            _ => parse_stacktrace(&accessor),
        };
        return match text {
            Ok((s, _)) => Ok(JfrValue::StackTrace(s)),
            Err(e) => Err(ScanError::StackTrace(e)),
        };
    }
    let target = match resolve(accessor) {
        Some(a) => a,
        None => return Ok(JfrValue::Missing),
    };
    let ghost res_acc = target;
    match kind_of(&target) {
        ValueKind::Primitive => match primitive_of(&target) {
            Some(p) => Ok(JfrValue::Primitive(p, chunk_idx)),
            None => Ok(JfrValue::Missing),
        },
        ValueKind::Object => {
            let mut vals: Vec<JfrValue> = Vec::new();
            let mut i: usize = 0;
            proof {
                lemma_children_nodes(*field);
                assert(specs_of(vals@) =~= Seq::<ValueSpec>::empty());
            }
            while i < field.children.len()
                invariant
                    i <= field.children@.len(),
                    vals@.len() == i,
                    pool.list_children_idx == old(pool).list_children_idx,
                    field.node().children == nodes_of(field.children@),
                    node == field.node(),
                    res_acc == target,
                    resolved(acc) == Some(res_acc),
                    value_kind(res_acc) == ValueKind::Object,
                    c0 == cached_traces(old(pool).stacktrace_cache),
                    acc == accessor,
                    forall|k: int|
                        0 <= k < i ==> if field.children@[k].valid {
                            value_of_field(#[trigger] vals@[k], field.children@[k].node(), false, chunk_idx)
                        } else {
                            vals@[k] is Missing
                        },
                    field.class_name@ != STACK_TRACE_TYPE@,
                    members_read(c0, *chunk, chunk_idx, node, res_acc, i as nat) == (
                        Ok::<Seq<ValueSpec>, ScanError>(specs_of(vals@)),
                        cached_traces(pool.stacktrace_cache),
                    ),
                decreases field.children@.len() - i,
            {
                let s = &field.children[i];
                proof {
                    assert(node.children[i as int] == s.node());
                    if no_stack_trace(field.node()) && s.valid {
                        lemma_no_stack_trace_in(field.node().children, i as int);
                    }
                }
                let ghost before = vals@;
                let ghost k1: nat = (i + 1) as nat;
                let v = if !s.valid {
                    JfrValue::Missing
                } else {
                    match object_field(chunk, &target, i) {
                        Some(a) => match read_value(chunk, chunk_idx, s, a, false, pool) {
                            Ok(v) => v,
                            Err(e) => {
                                proof {
                                    assert(members_read(c0, *chunk, chunk_idx, node, res_acc, k1).0 is Err);
                                    lemma_members_error(
                                        c0,
                                        *chunk,
                                        chunk_idx,
                                        node,
                                        res_acc,
                                        (i + 1) as nat,
                                        node.children.len(),
                                    );
                                }
                                return Err(e);
                            },
                        },
                        None => JfrValue::Missing,
                    }
                };
                proof {
                    assert(members_read(c0, *chunk, chunk_idx, node, res_acc, k1) == (
                        Ok::<Seq<ValueSpec>, ScanError>(specs_of(before).push(v.spec_of())),
                        cached_traces(pool.stacktrace_cache),
                    ));
                }
                vals.push(v);
                proof {
                    assert(specs_of(vals@) =~= specs_of(before).push(v.spec_of()));
                }
                i = i + 1;
            }
            proof {
                lemma_spec_of_values(vals);
            }
            Ok(JfrValue::Object(vals))
        },
        ValueKind::Array => {
            if in_array {
                return Ok(JfrValue::Missing);
            }
            let mut rest = match array_elements(chunk, &target) {
                Some(e) => e,
                None => return Ok(JfrValue::Missing),
            };
            let ghost els = rest@;
            let mut vals: Vec<JfrValue> = Vec::new();
            proof {
                assert(specs_of(vals@) =~= Seq::<ValueSpec>::empty());
                assert(els.subrange(0, els.len() as int) =~= els);
            }
            while rest.len() > 0
                invariant
                    !in_array,
                    node == field.node(),
                    field.class_name@ != STACK_TRACE_TYPE@,
                    resolved(acc) == Some(res_acc),
                    value_kind(res_acc) == ValueKind::Array,
                    array_elements_of(*chunk, res_acc) == Some(els),
                    c0 == cached_traces(old(pool).stacktrace_cache),
                    acc == accessor,
                    vals@.len() <= els.len(),
                    rest@ == els.subrange(vals@.len() as int, els.len() as int),
                    pool.list_children_idx == old(pool).list_children_idx,
                    forall|j: int|
                        0 <= j < vals@.len() ==> value_of_field(#[trigger] vals@[j], field.node(), true, chunk_idx),
                    elements_read(c0, *chunk, chunk_idx, node, els, vals@.len()) == (
                        Ok::<Seq<ValueSpec>, ScanError>(specs_of(vals@)),
                        cached_traces(pool.stacktrace_cache),
                    ),
                decreases rest@.len(),
            {
                let ghost before = vals@;
                let a = rest.remove(0);
                proof {
                    assert(a == els[before.len() as int]);
                    assert(rest@ =~= els.subrange(before.len() + 1 as int, els.len() as int));
                }
                match read_value(chunk, chunk_idx, field, a, true, pool) {
                    Ok(v) => {
                        vals.push(v);
                        proof {
                            assert(specs_of(vals@) =~= specs_of(before).push(v.spec_of()));
                        }
                    },
                    Err(e) => {
                        proof {
                            lemma_elements_error(
                                c0,
                                *chunk,
                                chunk_idx,
                                node,
                                els,
                                (before.len() + 1) as nat,
                                els.len(),
                            );
                        }
                        return Err(e);
                    },
                }
            }
            proof {
                lemma_spec_of_values(vals);
            }
            Ok(JfrValue::Array(vals))
        },
        ValueKind::Constant(_) => Ok(JfrValue::Missing),
    }
}

proof fn lemma_preorder_bounds_indices(nodes: Seq<FieldNode>, n: nat)
    requires
        forall|k: int| 0 <= k < preorder(nodes).len() ==> 0 <= #[trigger] preorder(nodes)[k] < n,
    ensures
        all_indices_below(nodes, n),
    decreases nodes,
{
    if nodes.len() > 0 {
        let p = preorder(nodes);
        let a = preorder(nodes[0].children);
        let b = preorder(nodes.drop_first());
        assert(p == seq![nodes[0].idx] + a + b);
        assert(p[0] == nodes[0].idx);
        assert forall|k: int| 0 <= k < a.len() implies 0 <= #[trigger] a[k] < n by {
            assert(a[k] == p[1 + k]);
        }
        assert forall|k: int| 0 <= k < b.len() implies 0 <= #[trigger] b[k] < n by {
            assert(b[k] == p[1 + a.len() + k]);
        }
        assert(decreases_to!(nodes => nodes[0]));
        lemma_preorder_bounds_indices(nodes[0].children, n);
        lemma_preorder_bounds_indices(nodes.drop_first(), n);
        assert(indices_below(nodes[0], n));
    }
}

/// Law: every field of a schema is numbered below the count that comes
/// with it, so a pool of that many list rows serves every field.
pub proof fn lemma_schema_indices_below_count(
    e: Map<i64, TypeSpec>,
    event_type: Seq<char>,
    root: JfrField,
    count: usize,
)
    requires
        schema_outcome(e, event_type, Ok((root, count))),
    ensures
        indices_below(root.node(), count as nat),
{
    lemma_schema_numbered_in_preorder(e, event_type, root, count);
    let p = preorder(seq![root.node()]);
    assert forall|k: int| 0 <= k < p.len() implies 0 <= #[trigger] p[k] < count by {
        assert(p[k] == int_range(0, p.len() as int)[k]);
    }
    lemma_preorder_bounds_indices(seq![root.node()], count as nat);
    lemma_all_indices_below(seq![root.node()], count as nat, 0);
}

/// Whether every field of the tree of `field` is numbered below `n`.
pub fn numbered_below(field: &JfrField, n: usize) -> (r: bool)
    ensures
        r == indices_below(field.node(), n as nat),
    decreases field,
{
    proof {
        lemma_children_nodes(*field);
    }
    if field.idx >= n {
        return false;
    }
    proof {
        assert(nodes_of(field.children@).subrange(0, field.children@.len() as int) =~= nodes_of(
            field.children@,
        ));
    }
    all_numbered_below(&field.children, 0, n)
}

fn all_numbered_below(children: &Vec<JfrField>, i: usize, n: usize) -> (r: bool)
    requires
        i <= children@.len(),
    ensures
        r == all_indices_below(nodes_of(children@).subrange(i as int, children@.len() as int), n as nat),
    decreases children@, children@.len() - i,
{
    let ghost rest = nodes_of(children@).subrange(i as int, children@.len() as int);
    if i >= children.len() {
        return true;
    }
    assert(rest[0] == children@[i as int].node());
    assert(rest.drop_first() =~= nodes_of(children@).subrange(i + 1, children@.len() as int));
    if !numbered_below(&children[i], n) {
        return false;
    }
    all_numbered_below(children, i + 1, n)
}

/// The writes of one projected column for one event: the row id, or the
/// value of the column's field, or nulls where the event lacks the field.
pub open spec fn cell_writes(
    column: usize,
    columns: Seq<FieldNode>,
    row: usize,
    value: Option<JfrValue>,
    offsets: Seq<usize>,
) -> Option<(Seq<WriteSpec>, Seq<usize>)> {
    if column == ROW_ID_COLUMN_ID {
        Some((seq![WriteSpec { path: Seq::empty(), row, op: OpSpec::Long(42) }], offsets))
    } else {
        match value {
            Some(v) => populate(Seq::empty(), row, columns[column as int], v, offsets),
            None => Some((null_writes(Seq::empty(), row, columns[column as int]), offsets)),
        }
    }
}

/// The writes of the projected columns from the `p`-th on for one event,
/// column by column, and the next free list rows afterwards.
pub open spec fn row_writes(
    projection: Seq<usize>,
    columns: Seq<FieldNode>,
    row: usize,
    values: Seq<Option<JfrValue>>,
    p: nat,
    offsets: Seq<usize>,
) -> Option<(Seq<Seq<WriteSpec>>, Seq<usize>)>
    decreases projection.len() - p,
{
    if p >= projection.len() {
        Some((Seq::empty(), offsets))
    } else {
        let v = if p < values.len() {
            values[p as int]
        } else {
            None
        };
        match cell_writes(projection[p as int], columns, row, v, offsets) {
            Some((ws, offs)) => match row_writes(projection, columns, row, values, p + 1, offs) {
                Some((rest, offs2)) => Some((seq![ws] + rest, offs2)),
                None => None,
            },
            None => None,
        }
    }
}

/// Whether each projected column is the row id or a column of the schema.
pub open spec fn projection_fits(projection: Seq<usize>, column_count: nat) -> bool {
    forall|p: int|
        0 <= p < projection.len() ==> #[trigger] projection[p] == ROW_ID_COLUMN_ID
            || projection[p] < column_count
}

/// Whether every column of the schema is numbered below `n`.
pub open spec fn columns_below(columns: Seq<FieldNode>, n: nat) -> bool {
    forall|i: int| 0 <= i < columns.len() ==> #[trigger] indices_below(columns[i], n)
}

/// The value of an optional value, as a spec value.
pub open spec fn v_ghost_of(value: &Option<JfrValue>) -> Option<JfrValue> {
    *value
}

proof fn lemma_row_writes_len(
    projection: Seq<usize>,
    columns: Seq<FieldNode>,
    row: usize,
    values: Seq<Option<JfrValue>>,
    p: nat,
    offsets: Seq<usize>,
)
    ensures
        row_writes(projection, columns, row, values, p, offsets) matches Some((ws, _)) ==> ws.len()
            == if p <= projection.len() {
            projection.len() - p
        } else {
            0
        },
    decreases projection.len() - p,
{
    if p < projection.len() {
        let v = if p < values.len() {
            values[p as int]
        } else {
            None
        };
        match cell_writes(projection[p as int], columns, row, v, offsets) {
            Some((ws, offs)) => {
                lemma_row_writes_len(projection, columns, row, values, p + 1, offs);
            },
            None => {},
        }
    }
}

/// Puts the values of one event into row `row` of the projected columns:
/// appends the writes of the `p`-th projected column to `columns[p]`.
#[verifier::rlimit(30)]
pub fn populate_row(
    columns: &mut Vec<Vec<ColumnWrite>>,
    projection: &Vec<usize>,
    schema: &JfrField,
    row: usize,
    values: Vec<Option<JfrValue>>,
    pool: &mut Pool,
) -> (r: Result<(), ScanError>)
    requires
        old(columns)@.len() == projection@.len(),
        projection_fits(projection@, schema.children@.len()),
        columns_below(nodes_of(schema.children@), old(pool).list_children_idx@.len()),
    ensures
        final(pool).stacktrace_cache == old(pool).stacktrace_cache,
        final(pool).list_children_idx@.len() == old(pool).list_children_idx@.len(),
        final(columns)@.len() == old(columns)@.len(),
        match row_writes(
            projection@,
            nodes_of(schema.children@),
            row,
            values@,
            0,
            old(pool).list_children_idx@,
        ) {
            Some((ws, offs)) => {
                &&& r is Ok
                &&& forall|p: int|
                    0 <= p < projection@.len() ==> writes_of(#[trigger] final(columns)@[p]@)
                        == writes_of(old(columns)@[p]@) + ws[p]
                &&& final(pool).list_children_idx@ == offs
            },
            None => r == Err::<(), ScanError>(ScanError::TooManyListRows),
        },
{
    let ghost kids = nodes_of(schema.children@);
    let ghost offs0 = pool.list_children_idx@;
    let ghost cols0 = columns@;
    let mut p: usize = 0;
    while p < projection.len()
        invariant
            p <= projection@.len(),
            columns@.len() == projection@.len(),
            kids == nodes_of(schema.children@),
            projection_fits(projection@, schema.children@.len()),
            columns_below(kids, offs0.len()),
            pool.list_children_idx@.len() == offs0.len(),
            pool.stacktrace_cache == old(pool).stacktrace_cache,
            cols0 == old(columns)@,
            cols0.len() == projection@.len(),
            offs0 == old(pool).list_children_idx@,
            forall|q: int| p <= q < projection@.len() ==> #[trigger] columns@[q] == cols0[q],
            row_writes(projection@, kids, row, values@, 0, offs0) matches Some((ws, offs)) ==> {
                &&& row_writes(projection@, kids, row, values@, p as nat, pool.list_children_idx@)
                    matches Some((rest, offs2))
                &&& ws == ws.subrange(0, p as int) + rest
                &&& offs2 == offs
                &&& forall|q: int|
                    0 <= q < p ==> writes_of(#[trigger] columns@[q]@) == writes_of(cols0[q]@)
                        + ws[q]
            },
            row_writes(projection@, kids, row, values@, 0, offs0) is None ==> row_writes(
                projection@,
                kids,
                row,
                values@,
                p as nat,
                pool.list_children_idx@,
            ) is None,
        decreases projection@.len() - p,
    {
        let i = projection[p];
        let mut cell: Vec<ColumnWrite> = Vec::new();
        let path: Vec<VectorStep> = Vec::new();
        let ghost offs_p = pool.list_children_idx@;
        let ghost v = if p < values@.len() {
            values@[p as int]
        } else {
            None
        };
        if i == ROW_ID_COLUMN_ID {
            push_write(&mut cell, &path, row, WriteOp::Long(42));
        } else {
            let field = &schema.children[i];
            proof {
                assert(kids[i as int] == field.node());
                assert(indices_below(kids[i as int], offs0.len()));
            }
            let value = if p < values.len() {
                &values[p]
            } else {
                &None
            };
            match value {
                Some(v) => {
                    match populate_column(&mut cell, &path, row, field, v, pool) {
                        Ok(()) => {},
                        Err(e) => {
                            proof {
                                assert(path@ =~= Seq::<VectorStep>::empty());
                                assert(cell_writes(i, kids, row, v_ghost_of(value), offs_p) is None);
                            }
                            return Err(e);
                        },
                    }
                },
                None => set_null(&mut cell, &path, row, field),
            }
        }
        proof {
            assert(path@ =~= Seq::<VectorStep>::empty());
            assert(writes_of(Seq::<ColumnWrite>::empty()) =~= Seq::<WriteSpec>::empty());
        }
        let ghost cell_ws = writes_of(cell@);
        let mut column = Vec::new();
        std::mem::swap(&mut column, &mut columns[p]);
        let ghost col_before = column@;
        column.append(&mut cell);
        columns.set(p, column);
        proof {
            assert(writes_of(columns@[p as int]@) =~= writes_of(col_before) + cell_ws);
            assert(cell_writes(i, kids, row, v, offs_p) == Some((cell_ws, pool.list_children_idx@)));
            lemma_row_writes_len(projection@, kids, row, values@, (p + 1) as nat, pool.list_children_idx@);
            match row_writes(projection@, kids, row, values@, 0, offs0) {
                Some((ws, offs)) => {
                    let rest = (row_writes(projection@, kids, row, values@, p as nat, offs_p)->0).0;
                    let rest2 = (row_writes(projection@, kids, row, values@, (p + 1) as nat, pool.list_children_idx@)->0).0;
                    assert(rest == seq![cell_ws] + rest2);
                    lemma_row_writes_len(projection@, kids, row, values@, 0, offs0);
                    assert(ws == ws.subrange(0, p as int) + rest);
                    assert(ws[p as int] == rest[0]);
                    assert(ws[p as int] == cell_ws);
                    assert(ws =~= ws.subrange(0, p + 1) + rest2);
                },
                None => {},
            }
        }
        p = p + 1;
    }
    proof {
        match row_writes(projection@, kids, row, values@, 0, offs0) {
            Some((ws, offs)) => {
                assert(ws.subrange(0, projection@.len() as int) =~= ws);
            },
            None => {},
        }
    }
    Ok(())
}

/// Whether `v` is what a row holds for column `column`: nothing for the
/// row id, else nothing or a value of the column's field read from chunk
/// `chunk`.
pub open spec fn column_value(v: Option<JfrValue>, column: usize, columns: Seq<JfrField>, chunk: usize) -> bool {
    if column == ROW_ID_COLUMN_ID {
        v is None
    } else {
        v matches Some(x) ==> value_of_field(x, columns[column as int].node(), false, chunk)
    }
}

/// Whether the values are those of the projected columns of a row read from
/// chunk `chunk`, one per column.
pub open spec fn row_values(
    values: Seq<Option<JfrValue>>,
    projection: Seq<usize>,
    columns: Seq<JfrField>,
    chunk: usize,
) -> bool {
    &&& values.len() == projection.len()
    &&& forall|p: int| 0 <= p < values.len() ==> #[trigger] column_value(values[p], projection[p], columns, chunk)
}

/// Whether no projected column reads a stack trace.
pub open spec fn no_projected_stack_trace(projection: Seq<usize>, columns: Seq<JfrField>) -> bool {
    forall|p: int|
        0 <= p < projection.len() && #[trigger] projection[p] != ROW_ID_COLUMN_ID ==> no_stack_trace(
            columns[projection[p] as int].node(),
        )
}

/// Optional values, as mathematical values, in order.
pub open spec fn opt_specs(vals: Seq<Option<JfrValue>>) -> Seq<Option<ValueSpec>> {
    Seq::new(
        vals.len(),
        |i: int|
            match vals[i] {
                Some(v) => Some(v.spec_of()),
                None => None,
            },
    )
}

/// What reading the first `k` projected columns from the value `event` of
/// an event of chunk `chunk` gives, in order, and the cached stack traces
/// afterwards: nothing for the row id and for a field that the event lacks,
/// else the value read along the column's field; the first error stops the
/// reading.
pub open spec fn row_read(
    cache: Map<(usize, i64), (Seq<char>, usize)>,
    chunk: Chunk,
    chunk_idx: usize,
    columns: Seq<JfrField>,
    projection: Seq<usize>,
    event: Accessor,
    k: nat,
) -> (Result<Seq<Option<ValueSpec>>, ScanError>, Map<(usize, i64), (Seq<char>, usize)>)
    decreases k,
{
    if k == 0 {
        (Ok(Seq::empty()), cache)
    } else {
        let (prev, c1) = row_read(cache, chunk, chunk_idx, columns, projection, event, (k - 1) as nat);
        match prev {
            Err(e) => (Err(e), c1),
            Ok(vs) => {
                let i = projection[k - 1];
                if i == ROW_ID_COLUMN_ID {
                    (Ok(vs.push(None)), c1)
                } else {
                    let f = columns[i as int];
                    match raw_field_at(event, f.name@) {
                        None => (Ok(vs.push(None)), c1),
                        Some(a) => {
                            let (r, c2) = value_read(c1, chunk, chunk_idx, f.node(), a, false);
                            match r {
                                Ok(v) => (Ok(vs.push(Some(v))), c2),
                                Err(e) => (Err(e), c2),
                            }
                        },
                    }
                }
            },
        }
    }
}

proof fn lemma_row_error(
    cache: Map<(usize, i64), (Seq<char>, usize)>,
    chunk: Chunk,
    chunk_idx: usize,
    columns: Seq<JfrField>,
    projection: Seq<usize>,
    event: Accessor,
    k0: nat,
    k: nat,
)
    requires
        k0 <= k,
        row_read(cache, chunk, chunk_idx, columns, projection, event, k0).0 is Err,
    ensures
        row_read(cache, chunk, chunk_idx, columns, projection, event, k) == row_read(
            cache,
            chunk,
            chunk_idx,
            columns,
            projection,
            event,
            k0,
        ),
    decreases k - k0,
{
    if k > k0 {
        lemma_row_error(cache, chunk, chunk_idx, columns, projection, event, k0, (k - 1) as nat);
    }
}

/// Reads the values of the projected columns from an event's value: none
/// for the row id and for fields that the event lacks.
pub fn read_row(
    chunk: &Chunk,
    chunk_idx: usize,
    schema: &JfrField,
    projection: &Vec<usize>,
    event: &Accessor,
    pool: &mut Pool,
) -> (r: Result<Vec<Option<JfrValue>>, ScanError>)
    requires
        projection_fits(projection@, schema.children@.len()),
    ensures
        final(pool).list_children_idx == old(pool).list_children_idx,
        ({
            let (res, after) = row_read(
                cached_traces(old(pool).stacktrace_cache),
                *chunk,
                chunk_idx,
                schema.children@,
                projection@,
                *event,
                projection@.len(),
            );
            &&& match r {
                Ok(vs) => res == Ok::<Seq<Option<ValueSpec>>, ScanError>(opt_specs(vs@)),
                Err(e) => res == Err::<Seq<Option<ValueSpec>>, ScanError>(e),
            }
            &&& cached_traces(final(pool).stacktrace_cache) == after
        }),
        r matches Ok(vs) ==> row_values(vs@, projection@, schema.children@, chunk_idx),
        r matches Err(e) ==> e is StackTrace,
        no_projected_stack_trace(projection@, schema.children@) ==> r is Ok,
{
    let ghost c0 = cached_traces(pool.stacktrace_cache);
    let mut values: Vec<Option<JfrValue>> = Vec::new();
    let mut p: usize = 0;
    proof {
        assert(opt_specs(values@) =~= Seq::<Option<ValueSpec>>::empty());
    }
    while p < projection.len()
        invariant
            p <= projection@.len(),
            values@.len() == p,
            projection_fits(projection@, schema.children@.len()),
            pool.list_children_idx == old(pool).list_children_idx,
            c0 == cached_traces(old(pool).stacktrace_cache),
            forall|q: int| 0 <= q < p ==> #[trigger] column_value(values@[q], projection@[q], schema.children@, chunk_idx),
            row_read(c0, *chunk, chunk_idx, schema.children@, projection@, *event, p as nat) == (
                Ok::<Seq<Option<ValueSpec>>, ScanError>(opt_specs(values@)),
                cached_traces(pool.stacktrace_cache),
            ),
        decreases projection@.len() - p,
    {
        let ghost before = values@;
        let ghost k1: nat = (p + 1) as nat;
        let i = projection[p];
        if i == ROW_ID_COLUMN_ID {
            values.push(None);
        } else {
            let field = &schema.children[i];
            match get_field_raw(event, field.name.as_str()) {
                Some(a) => match read_value(chunk, chunk_idx, field, a, false, pool) {
                    Ok(v) => values.push(Some(v)),
                    Err(e) => {
                        proof {
                            assert(row_read(c0, *chunk, chunk_idx, schema.children@, projection@, *event, k1).0 is Err);
                            lemma_row_error(
                                c0,
                                *chunk,
                                chunk_idx,
                                schema.children@,
                                projection@,
                                *event,
                                k1,
                                projection@.len(),
                            );
                        }
                        return Err(e);
                    },
                },
                None => values.push(None),
            }
        }
        proof {
            assert(opt_specs(values@) =~= opt_specs(before).push(opt_specs(values@).last()));
        }
        p = p + 1;
    }
    Ok(values)
}

/// What binding `jfr_scan` keeps: the file and event type to scan, the
/// schema of the event type and its field count.
pub struct ScanBindData {
    pub filename: String,
    pub table_name: String,
    pub schema: JfrField,
    pub field_count: usize,
}

/// Where a scan stands: whether it is done, the number of chunks of the
/// recording (once they are read; the caller holds them and hands over
/// their events), the chunk and byte offset to go on from, and the columns
/// projected.
pub struct ScanInitData {
    pub done: bool,
    pub chunk_count: usize,
    pub chunk_idx: Option<usize>,
    pub offset_in_chunk: u64,
    pub projection: Vec<usize>,
}

/// An output chunk as it is filled: its number of rows, the writes of each
/// projected column, the pool of the scan, and, as ghost values, the events
/// taken to fill it and the values that each row holds.
pub struct ScanOutput {
    pub size: usize,
    pub columns: Vec<Vec<ColumnWrite>>,
    pub pool: Pool,
    pub seen: Ghost<Seq<SeenEvent>>,
    pub rows: Ghost<Seq<Seq<Option<JfrValue>>>>,
}

/// What the caller does once an event is taken.
#[derive(Debug, Clone, Copy, PartialEq, Eq, Structural)]
pub enum Step {
    /// Hand over the next event of the chunk.
    Next,
    /// The output chunk is full: emit it. The scan goes on, with the next
    /// output chunk, from the event just handed over.
    Paused,
    /// The chunk is read to its end: go on where the scan now stands, or
    /// emit the output chunk where the scan is done.
    ChunkEnd,
}

/// The writes of consecutive rows into the projected columns, row `r`
/// holding the values `rows[r]`: the writes of each column row after row,
/// with the next free list rows threaded from `offsets` on; `None` where a
/// list row would not fit in a `usize`.
pub open spec fn page_writes(
    projection: Seq<usize>,
    columns: Seq<FieldNode>,
    rows: Seq<Seq<Option<JfrValue>>>,
    offsets: Seq<usize>,
) -> Option<(Seq<Seq<WriteSpec>>, Seq<usize>)>
    decreases rows.len(),
{
    if rows.len() == 0 {
        Some((Seq::new(projection.len(), |p: int| Seq::<WriteSpec>::empty()), offsets))
    } else {
        match page_writes(projection, columns, rows.drop_last(), offsets) {
            Some((cols, offs)) => match row_writes(
                projection,
                columns,
                (rows.len() - 1) as usize,
                rows.last(),
                0,
                offs,
            ) {
                Some((ws, offs2)) => Some(
                    (Seq::new(projection.len(), |p: int| cols[p] + ws[p]), offs2),
                ),
                None => None,
            },
            None => None,
        }
    }
}

proof fn lemma_page_writes_push(
    projection: Seq<usize>,
    columns: Seq<FieldNode>,
    rows: Seq<Seq<Option<JfrValue>>>,
    values: Seq<Option<JfrValue>>,
    offsets: Seq<usize>,
)
    ensures
        page_writes(projection, columns, rows.push(values), offsets) == match page_writes(
            projection,
            columns,
            rows,
            offsets,
        ) {
            Some((cols, offs)) => match row_writes(projection, columns, rows.len() as usize, values, 0, offs) {
                Some((ws, offs2)) => Some((Seq::new(projection.len(), |p: int| cols[p] + ws[p]), offs2)),
                None => None,
            },
            None => None,
        },
{
    assert(rows.push(values).drop_last() =~= rows);
}

/// The value of the `p`-th projected column in a row's values; none where
/// the row holds fewer.
pub open spec fn cell_value(values: Seq<Option<JfrValue>>, p: int) -> Option<JfrValue> {
    if 0 <= p < values.len() {
        values[p]
    } else {
        None
    }
}

/// The number of list elements that the `p`-th projected column holds in
/// the first `k` rows.
pub open spec fn list_total(rows: Seq<Seq<Option<JfrValue>>>, p: int, k: nat) -> nat
    decreases k,
{
    if k == 0 {
        0
    } else {
        list_total(rows, p, (k - 1) as nat) + list_len(cell_value(rows[k - 1], p))
    }
}

/// Whether the next free list row of the field of the `p`-th projected
/// column is moved by that column alone: no other projected column is the
/// same, no other column's tree holds the field's number, and the field is
/// not numbered again below itself.
pub open spec fn list_column_apart(projection: Seq<usize>, columns: Seq<FieldNode>, p: int) -> bool {
    &&& 0 <= p < projection.len()
    &&& projection[p] != ROW_ID_COLUMN_ID
    &&& projection[p] < columns.len()
    &&& forall|q: int| 0 <= q < projection.len() && q != p ==> #[trigger] projection[q] != projection[p]
    &&& forall|d: int|
        0 <= d < columns.len() && d != projection[p] ==> !in_tree(
            #[trigger] columns[d],
            columns[projection[p] as int].idx,
        )
    &&& !in_forest(columns[projection[p] as int].children, columns[projection[p] as int].idx)
}

proof fn lemma_row_list(
    projection: Seq<usize>,
    columns: Seq<FieldNode>,
    row: usize,
    values: Seq<Option<JfrValue>>,
    q: nat,
    offsets: Seq<usize>,
    p: int,
)
    requires
        list_column_apart(projection, columns, p),
        projection_fits(projection, columns.len()),
        columns_below(columns, offsets.len()),
        row_writes(projection, columns, row, values, q, offsets) is Some,
    ensures
        ({
            let f = columns[projection[p] as int];
            let (ws, offs) = row_writes(projection, columns, row, values, q, offsets)->0;
            &&& offs.len() == offsets.len()
            &&& q <= p ==> offs[f.idx] == offsets[f.idx] + list_len(cell_value(values, p))
            &&& q > p ==> offs[f.idx] == offsets[f.idx]
            &&& q <= p ==> (cell_value(values, p) matches Some(JfrValue::Array(e)) ==> ws[p - q].contains(
                WriteSpec {
                    path: Seq::empty(),
                    row,
                    op: OpSpec::ListEntry(offsets[f.idx], e@.len() as usize),
                },
            ))
        }),
    decreases projection.len() - q,
{
    let c = projection[p];
    let f = columns[c as int];
    assert(indices_below(columns[c as int], offsets.len()));
    if q < projection.len() {
        let d = projection[q as int];
        let v = if q < values.len() {
            values[q as int]
        } else {
            None
        };
        assert(v == cell_value(values, q as int));
        let (w, o1) = cell_writes(d, columns, row, v, offsets)->0;
        if d != ROW_ID_COLUMN_ID {
            assert(indices_below(columns[d as int], offsets.len()));
            match v {
                Some(val) => {
                    lemma_populate_len(Seq::empty(), row, columns[d as int], val, offsets);
                    if q as int == p {
                        lemma_populate_own(Seq::empty(), row, f, val, offsets);
                        match val {
                            JfrValue::Array(e) => {
                                lemma_list_rows_contiguous(Seq::empty(), row, f, e, offsets);
                                let n = w.len();
                                assert(w[n - 2] == WriteSpec {
                                    path: Seq::empty(),
                                    row,
                                    op: OpSpec::ListEntry(offsets[f.idx], e@.len() as usize),
                                });
                            },
                            _ => {},
                        }
                    } else {
                        lemma_populate_keeps(Seq::empty(), row, columns[d as int], val, offsets, f.idx);
                    }
                },
                None => {},
            }
        }
        lemma_row_list(projection, columns, row, values, q + 1, o1, p);
        lemma_row_writes_len(projection, columns, row, values, q + 1, o1);
        let (rest, o2) = row_writes(projection, columns, row, values, q + 1, o1)->0;
        assert(row_writes(projection, columns, row, values, q, offsets)->0 == (seq![w] + rest, o2));
        if (q as int) < p {
            assert((seq![w] + rest)[p - q] == rest[p - (q + 1)]);
        }
    }
}

proof fn lemma_list_total_prefix(rows: Seq<Seq<Option<JfrValue>>>, p: int, k: nat)
    requires
        k < rows.len(),
    ensures
        list_total(rows.drop_last(), p, k) == list_total(rows, p, k),
    decreases k,
{
    if k > 0 {
        lemma_list_total_prefix(rows, p, (k - 1) as nat);
    }
}

/// Law: the lists of a list column take consecutive rows of its child
/// vector, row after row. In an output chunk, the list of row `r` starts
/// where the lists of the rows before it end and takes as many rows as it
/// has elements, so no two lists overlap; the column's next free list row
/// ends up past all of them.
#[verifier::rlimit(50)]
pub proof fn lemma_list_column_contiguous(
    projection: Seq<usize>,
    columns: Seq<FieldNode>,
    rows: Seq<Seq<Option<JfrValue>>>,
    offsets: Seq<usize>,
    p: int,
)
    requires
        list_column_apart(projection, columns, p),
        projection_fits(projection, columns.len()),
        columns_below(columns, offsets.len()),
        page_writes(projection, columns, rows, offsets) is Some,
    ensures
        ({
            let f = columns[projection[p] as int];
            let (cols, offs) = page_writes(projection, columns, rows, offsets)->0;
            &&& offs.len() == offsets.len()
            &&& offs[f.idx] == offsets[f.idx] + list_total(rows, p, rows.len())
            &&& forall|r: int|
                0 <= r < rows.len() ==> (cell_value(#[trigger] rows[r], p) matches Some(
                    JfrValue::Array(e),
                ) ==> cols[p].contains(
                    WriteSpec {
                        path: Seq::empty(),
                        row: r as usize,
                        op: OpSpec::ListEntry(
                            (offsets[f.idx] + list_total(rows, p, r as nat)) as usize,
                            e@.len() as usize,
                        ),
                    },
                ))
        }),
    decreases rows.len(),
{
    let f = columns[projection[p] as int];
    assert(indices_below(columns[projection[p] as int], offsets.len()));
    if rows.len() > 0 {
        let prev = rows.drop_last();
        lemma_list_column_contiguous(projection, columns, prev, offsets, p);
        let (cols, offs) = page_writes(projection, columns, prev, offsets)->0;
        let last = (rows.len() - 1) as usize;
        lemma_row_list(projection, columns, last, rows.last(), 0, offs, p);
        let (ws, offs2) = row_writes(projection, columns, last, rows.last(), 0, offs)->0;
        let cols2 = Seq::new(projection.len(), |k: int| cols[k] + ws[k]);
        lemma_page_writes_push(projection, columns, prev, rows.last(), offsets);
        assert(rows =~= prev.push(rows.last()));
        lemma_list_total_prefix(rows, p, (rows.len() - 1) as nat);
        assert forall|r: int|
            0 <= r < rows.len() implies (cell_value(#[trigger] rows[r], p) matches Some(
                JfrValue::Array(e),
            ) ==> cols2[p].contains(
                WriteSpec {
                    path: Seq::empty(),
                    row: r as usize,
                    op: OpSpec::ListEntry(
                        (offsets[f.idx] + list_total(rows, p, r as nat)) as usize,
                        e@.len() as usize,
                    ),
                },
            )) by {
            if r < rows.len() - 1 {
                lemma_list_total_prefix(rows, p, r as nat);
                assert(prev[r] == rows[r]);
            }
            lemma_contains_concat(cols[p], ws[p]);
        }
    }
}

proof fn lemma_contains_concat(a: Seq<WriteSpec>, b: Seq<WriteSpec>)
    ensures
        forall|w: WriteSpec| a.contains(w) || b.contains(w) ==> #[trigger] (a + b).contains(w),
{
    assert forall|w: WriteSpec| a.contains(w) || b.contains(w) implies #[trigger] (a + b).contains(w) by {
        if a.contains(w) {
            let k = choose|k: int| 0 <= k < a.len() && a[k] == w;
            assert((a + b)[k] == w);
        } else {
            let k = choose|k: int| 0 <= k < b.len() && b[k] == w;
            assert((a + b)[a.len() + k] == w);
        }
    }
}

/// Whether the columns hold exactly the writes `written`, column by column.
pub open spec fn columns_hold(columns: Seq<Vec<ColumnWrite>>, written: Seq<Seq<WriteSpec>>) -> bool {
    &&& columns.len() == written.len()
    &&& forall|p: int| 0 <= p < columns.len() ==> writes_of(#[trigger] columns[p]@) == written[p]
}

/// Whether row `r` holds the values of the projected columns read from the
/// chunk of `events[r]`, for each row.
pub open spec fn rows_read_from(
    rows: Seq<Seq<Option<JfrValue>>>,
    events: Seq<SeenEvent>,
    projection: Seq<usize>,
    columns: Seq<JfrField>,
) -> bool {
    &&& rows.len() <= events.len()
    &&& forall|r: int|
        0 <= r < rows.len() ==> row_values(#[trigger] rows[r], projection, columns, events[r].chunk)
}

/// The next free list rows of a pool that has just been made.
pub open spec fn no_list_rows(field_count: usize) -> Seq<usize> {
    Seq::new(field_count as nat, |i: int| 0usize)
}

/// An event that a scan read: the chunk it is in, the name of its type and
/// where it starts in the body of the chunk.
pub ghost struct SeenEvent {
    pub chunk: usize,
    pub class_name: Seq<char>,
    pub offset: u64,
}

/// The events among `seen` of the type named `table`, in their order.
pub open spec fn matching(seen: Seq<SeenEvent>, table: Seq<char>) -> Seq<SeenEvent>
    decreases seen.len(),
{
    if seen.len() == 0 {
        Seq::empty()
    } else if seen.last().class_name == table {
        matching(seen.drop_last(), table).push(seen.last())
    } else {
        matching(seen.drop_last(), table)
    }
}

proof fn lemma_matching_push(seen: Seq<SeenEvent>, table: Seq<char>, e: SeenEvent)
    ensures
        matching(seen.push(e), table) == if e.class_name == table {
            matching(seen, table).push(e)
        } else {
            matching(seen, table)
        },
{
    assert(seen.push(e).drop_last() =~= seen);
}

/// The events of `a` then `b` of a type are those of `a` then those of `b`.
pub proof fn lemma_matching_concat(a: Seq<SeenEvent>, b: Seq<SeenEvent>, table: Seq<char>)
    ensures
        matching(a + b, table) == matching(a, table) + matching(b, table),
    decreases b.len(),
{
    if b.len() == 0 {
        assert(a + b =~= a);
        assert(matching(a, table) + matching(b, table) =~= matching(a, table));
    } else {
        lemma_matching_concat(a, b.drop_last(), table);
        assert((a + b).drop_last() =~= a + b.drop_last());
        assert((a + b).last() == b.last());
        if b.last().class_name == table {
            assert(matching(a, table) + matching(b.drop_last(), table).push(b.last())
                =~= (matching(a, table) + matching(b.drop_last(), table)).push(b.last()));
        }
    }
}

/// The events that consecutive output chunks took, one after the other.
pub open spec fn stream_of(logs: Seq<Seq<SeenEvent>>) -> Seq<SeenEvent>
    decreases logs.len(),
{
    if logs.len() == 0 {
        Seq::empty()
    } else {
        logs[0] + stream_of(logs.drop_first())
    }
}

/// The rows of consecutive output chunks, one after the other: the events
/// of the type named `table` that each took.
pub open spec fn rows_of(logs: Seq<Seq<SeenEvent>>, table: Seq<char>) -> Seq<SeenEvent>
    decreases logs.len(),
{
    if logs.len() == 0 {
        Seq::empty()
    } else {
        matching(logs[0], table) + rows_of(logs.drop_first(), table)
    }
}

/// Paging loses and repeats no event: the rows of consecutive output
/// chunks, one after the other, are the events of the scanned type among
/// all that they took, each once and in order.
pub proof fn lemma_pages_partition_matching(logs: Seq<Seq<SeenEvent>>, table: Seq<char>)
    ensures
        rows_of(logs, table) == matching(stream_of(logs), table),
    decreases logs.len(),
{
    if logs.len() > 0 {
        lemma_pages_partition_matching(logs.drop_first(), table);
        lemma_matching_concat(logs[0], stream_of(logs.drop_first()), table);
    }
}

/// Whether an output chunk holds, row after row, the values read from the
/// events of the scanned type among those it took, written into the
/// projected columns.
pub open spec fn page_holds(o: ScanOutput, projection: Seq<usize>, bind_data: ScanBindData) -> bool {
    let table = bind_data.table_name@;
    let children = bind_data.schema.children@;
    &&& o.columns@.len() == projection.len()
    &&& o.pool.list_children_idx@.len() == bind_data.field_count
    &&& o.rows@.len() == o.size
    &&& matching(o.seen@, table).len() == o.size
    &&& rows_read_from(o.rows@, matching(o.seen@, table), projection, children)
    &&& page_writes(projection, nodes_of(children), o.rows@, no_list_rows(bind_data.field_count))
        matches Some((cols, offs)) && columns_hold(o.columns@, cols) && o.pool.list_children_idx@
        == offs
}

/// Whether every column holds no write.
pub open spec fn all_empty(columns: Seq<Vec<ColumnWrite>>) -> bool {
    forall|p: int| 0 <= p < columns.len() ==> #[trigger] columns[p]@.len() == 0
}

fn empty_columns(n: usize) -> (r: Vec<Vec<ColumnWrite>>)
    ensures
        r@.len() == n,
        all_empty(r@),
{
    let mut columns: Vec<Vec<ColumnWrite>> = Vec::new();
    let mut i: usize = 0;
    while i < n
        invariant
            i <= n,
            columns@.len() == i,
            all_empty(columns@),
        decreases n - i,
    {
        columns.push(Vec::new());
        i = i + 1;
    }
    columns
}

impl ScanInitData {
    /// A scan that has not started, of the columns `projection`.
    pub fn new(projection: Vec<usize>) -> (d: ScanInitData)
        ensures
            !d.done,
            d.chunk_count == 0,
            d.chunk_idx is None,
            d.offset_in_chunk == 0,
            d.projection == projection,
    {
        ScanInitData { done: false, chunk_count: 0, chunk_idx: None, offset_in_chunk: 0, projection }
    }

    /// Whether the chunks of the file must be read before the next output
    /// chunk.
    pub fn needs_chunks(&self) -> (r: bool)
        ensures
            r == (!self.done && self.chunk_idx is None),
    {
        !self.done && self.chunk_idx.is_none()
    }

    /// Takes note that the recording was read, `count` chunks of it: a
    /// recording without chunks is done at once, else the scan starts at
    /// the first chunk.
    pub fn chunks_loaded(&mut self, count: usize)
        ensures
            final(self).chunk_count == count,
            final(self).projection == old(self).projection,
            final(self).offset_in_chunk == old(self).offset_in_chunk,
            count == 0 ==> final(self).done && final(self).chunk_idx == old(self).chunk_idx,
            count > 0 ==> final(self).done == old(self).done && final(self).chunk_idx == Some(0usize),
    {
        self.chunk_count = count;
        if count == 0 {
            self.done = true;
        } else {
            self.chunk_idx = Some(0);
        }
    }

    /// Where the next event is to be read: the chunk and the byte offset in
    /// its body; none once the scan is done, or before the chunks are read.
    pub fn position(&self) -> (r: Option<(usize, u64)>)
        ensures
            r == if self.done {
                None
            } else {
                match self.chunk_idx {
                    Some(i) => Some((i, self.offset_in_chunk)),
                    None => None,
                }
            },
    {
        if self.done {
            return None;
        }
        match self.chunk_idx {
            Some(i) => Some((i, self.offset_in_chunk)),
            None => None,
        }
    }

    /// An empty output chunk for the scan bound by `bind_data`.
    pub fn start_page(&self, bind_data: &ScanBindData) -> (o: ScanOutput)
        ensures
            o.size == 0,
            o.seen@.len() == 0,
            all_empty(o.columns@),
            o.pool.list_children_idx@ == no_list_rows(bind_data.field_count),
            cached_traces(o.pool.stacktrace_cache) == no_traces(),
            page_holds(o, self.projection@, *bind_data),
    {
        let columns = empty_columns(self.projection.len());
        let pool = Pool::new(bind_data.field_count);
        let o = ScanOutput { size: 0, columns, pool, seen: Ghost(Seq::empty()), rows: Ghost(Seq::empty()) };
        proof {
            let projection = self.projection@;
            assert(o.pool.list_children_idx@ =~= no_list_rows(bind_data.field_count));
            let cols = Seq::new(projection.len(), |p: int| Seq::<WriteSpec>::empty());
            assert forall|p: int| 0 <= p < o.columns@.len() implies writes_of(#[trigger] o.columns@[p]@) == cols[p] by {
                assert(writes_of(o.columns@[p]@) =~= Seq::<WriteSpec>::empty());
            }
        }
        o
    }

    /// Takes the next event of the chunk the scan stands in, as the caller
    /// read it, into the output chunk `out`: the end of the chunk moves the
    /// scan to the next chunk, or ends it after the last; an error reading
    /// the event is passed on; an event of another type is passed over; an
    /// event of the scanned type fills the next row, or, where `out` is
    /// full, the scan pauses at it.
    #[verifier::rlimit(40)]
    pub fn take_event(
        &mut self,
        out: &mut ScanOutput,
        bind_data: &ScanBindData,
        vector_size: usize,
        chunk: &Chunk,
        event: Option<Result<Event, String>>,
    ) -> (r: Result<Step, ScanError>)
        requires
            !old(self).done,
            old(self).chunk_idx matches Some(i) && i < old(self).chunk_count,
            projection_fits(old(self).projection@, bind_data.schema.children@.len()),
            columns_below(nodes_of(bind_data.schema.children@), bind_data.field_count as nat),
            page_holds(*old(out), old(self).projection@, *bind_data),
            old(out).size <= vector_size,
        ensures
            final(self).projection == old(self).projection,
            final(self).chunk_count == old(self).chunk_count,
            r is Ok ==> page_holds(*final(out), old(self).projection@, *bind_data) && final(out).size
                <= vector_size,
            event is None ==> {
                let i = old(self).chunk_idx->0;
                &&& r == Ok::<Step, ScanError>(Step::ChunkEnd)
                &&& *final(out) == *old(out)
                &&& final(self).offset_in_chunk == 0
                &&& i + 1 < old(self).chunk_count ==> !final(self).done && final(self).chunk_idx == Some(
                    (i + 1) as usize,
                )
                &&& i + 1 >= old(self).chunk_count ==> final(self).done && final(self).chunk_idx
                    == old(self).chunk_idx
            },
            event matches Some(Err(msg)) ==> {
                &&& r == Err::<Step, ScanError>(ScanError::Read(msg))
                &&& *final(self) == *old(self)
                &&& *final(out) == *old(out)
            },
            event matches Some(Ok(e)) ==> {
                let seen_e = SeenEvent {
                    chunk: old(self).chunk_idx->0,
                    class_name: event_class(e),
                    offset: event_start(e),
                };
                let table = bind_data.table_name@;
                &&& event_class(e) != table ==> {
                    &&& r == Ok::<Step, ScanError>(Step::Next)
                    &&& *final(self) == *old(self)
                    &&& final(out).seen@ == old(out).seen@.push(seen_e)
                    &&& final(out).size == old(out).size
                    &&& final(out).columns == old(out).columns
                    &&& final(out).pool == old(out).pool
                    &&& final(out).rows == old(out).rows
                }
                &&& event_class(e) == table && old(out).size >= vector_size ==> {
                    &&& r == Ok::<Step, ScanError>(Step::Paused)
                    &&& *final(out) == *old(out)
                    &&& final(self).offset_in_chunk == event_start(e)
                    &&& final(self).chunk_idx == old(self).chunk_idx
                    &&& final(self).done == old(self).done
                }
                &&& event_class(e) == table && old(out).size < vector_size ==> {
                    let (res, after) = row_read(
                        cached_traces(old(out).pool.stacktrace_cache),
                        *chunk,
                        old(self).chunk_idx->0,
                        bind_data.schema.children@,
                        old(self).projection@,
                        event_value_of(e),
                        old(self).projection@.len(),
                    );
                    &&& *final(self) == *old(self)
                    &&& res matches Err(err) ==> r == Err::<Step, ScanError>(err)
                    &&& res matches Ok(vs) ==> {
                        &&& r matches Ok(s) ==> {
                            &&& s == Step::Next
                            &&& final(out).seen@ == old(out).seen@.push(seen_e)
                            &&& final(out).size == old(out).size + 1
                            &&& final(out).rows@.drop_last() == old(out).rows@
                            &&& opt_specs(final(out).rows@.last()) == vs
                            &&& cached_traces(final(out).pool.stacktrace_cache) == after
                        }
                        &&& r matches Err(err) ==> {
                            &&& err == ScanError::TooManyListRows
                            &&& exists|vals: Seq<Option<JfrValue>>|
                                #[trigger] opt_specs(vals) == vs && row_writes(
                                    old(self).projection@,
                                    nodes_of(bind_data.schema.children@),
                                    old(out).size,
                                    vals,
                                    0,
                                    old(out).pool.list_children_idx@,
                                ) is None
                        }
                    }
                    &&& r matches Err(err) ==> (err is StackTrace && !no_projected_stack_trace(
                        old(self).projection@,
                        bind_data.schema.children@,
                    )) || err is TooManyListRows
                }
            },
    {
        let chunk_idx: usize = match self.chunk_idx {
            Some(i) => i,
            None => 0,
        };
        let event = match event {
            None => {
                self.offset_in_chunk = 0;
                if chunk_idx + 1 < self.chunk_count {
                    self.chunk_idx = Some(chunk_idx + 1);
                } else {
                    self.done = true;
                }
                return Ok(Step::ChunkEnd);
            },
            Some(Err(msg)) => return Err(ScanError::Read(msg)),
            Some(Ok(e)) => e,
        };
        let name = event_class_name(&event);
        let here = event_offset(&event);
        let ghost table = bind_data.table_name@;
        let ghost seen0 = out.seen@;
        let ghost e = SeenEvent { chunk: chunk_idx, class_name: name@, offset: here };
        proof {
            lemma_matching_push(seen0, table, e);
            assert(seen0.push(e).drop_last() =~= seen0);
        }
        if !str_eq(name.as_str(), bind_data.table_name.as_str()) {
            out.seen = Ghost(seen0.push(e));
            return Ok(Step::Next);
        }
        if out.size >= vector_size {
            self.offset_in_chunk = here;
            return Ok(Step::Paused);
        }
        let ghost projection = self.projection@;
        let ghost kids = nodes_of(bind_data.schema.children@);
        let ghost offsets0 = no_list_rows(bind_data.field_count);
        let ghost rows0 = out.rows@;
        let ghost cols0 = out.columns@;
        let ghost offs0 = out.pool.list_children_idx@;
        let value = event_value(&event);
        let values = match read_row(chunk, chunk_idx, &bind_data.schema, &self.projection, &value, &mut out.pool) {
            Ok(v) => v,
            Err(err) => return Err(err),
        };
        let ghost vals = values@;
        match populate_row(&mut out.columns, &self.projection, &bind_data.schema, out.size, values, &mut out.pool) {
            Ok(()) => {},
            Err(err) => {
                proof {
                    assert(opt_specs(vals) == opt_specs(vals));
                }
                return Err(err);
            },
        }
        proof {
            lemma_page_writes_push(projection, kids, rows0, vals, offsets0);
            let (cols, offs) = page_writes(projection, kids, rows0, offsets0)->0;
            let (ws, offs2) = row_writes(projection, kids, out.size, vals, 0, offs)->0;
            let cols2 = Seq::new(projection.len(), |p: int| cols[p] + ws[p]);
            assert forall|p: int| 0 <= p < out.columns@.len() implies writes_of(#[trigger] out.columns@[p]@) == cols2[p] by {
                assert(writes_of(out.columns@[p]@) == writes_of(cols0[p]@) + ws[p]);
            }
            let m = matching(seen0.push(e), table);
            assert forall|r: int| 0 <= r < rows0.len() + 1 implies row_values(
                #[trigger] rows0.push(vals)[r],
                projection,
                bind_data.schema.children@,
                m[r].chunk,
            ) by {
                if r < rows0.len() {
                    assert(rows0.push(vals)[r] == rows0[r]);
                    assert(m[r] == matching(seen0, table)[r]);
                }
            }
            assert(rows0.push(vals).drop_last() =~= rows0);
        }
        out.seen = Ghost(seen0.push(e));
        out.rows = Ghost(rows0.push(vals));
        out.size = out.size + 1;
        Ok(Step::Next)
    }
}

/// Why binding `jfr_scan` failed.
#[derive(Debug, Clone, PartialEq, Eq)]
pub enum BindError {
    Input(InputError),
    Schema(SchemaError),
}

/// Whether the result columns are, in order, the fields below the root of
/// the schema with their names and column types.
pub open spec fn result_columns(cols: Seq<(String, ColumnType)>, children: Seq<JfrField>) -> bool {
    &&& cols.len() == children.len()
    &&& forall|i: int|
        0 <= i < cols.len() ==> (#[trigger] cols[i]).0@ == children[i].name@ && cols[i].1.spec_of()
            == column_type(children[i].node())
}

/// What binding a scan of `table_name` gives, from what jfrs gave for the
/// first chunk of the recording: the error of reading that chunk, or the
/// schema of the type in the chunk's type pool with its result columns, or
/// the error of building it.
pub open spec fn bind_outcome(
    first: Option<Result<Chunk, String>>,
    filename: String,
    table_name: String,
    r: Result<(ScanBindData, Vec<(String, ColumnType)>), BindError>,
) -> bool {
    match first_chunk_outcome(first) {
        Err(e) => r == Err::<(ScanBindData, Vec<(String, ColumnType)>), BindError>(BindError::Input(e)),
        Ok(c) => match r {
            Ok((b, cols)) => {
                &&& b.filename == filename
                &&& b.table_name == table_name
                &&& schema_outcome(chunk_types(c), table_name@, Ok((b.schema, b.field_count)))
                &&& result_columns(cols@, b.schema.children@)
            },
            Err(BindError::Schema(e)) => schema_outcome(
                chunk_types(c),
                table_name@,
                Err::<(JfrField, usize), SchemaError>(e),
            ),
            Err(BindError::Input(_)) => false,
        },
    }
}

/// Binds a scan of the events of type `table_name` in the file `filename`,
/// from what jfrs gave for the first chunk of the recording (its type
/// metadata alone): the schema of the type, from that chunk, and the
/// result columns, one per field below the root.
pub fn bind(first: Option<Result<Chunk, String>>, filename: String, table_name: String) -> (r: Result<
    (ScanBindData, Vec<(String, ColumnType)>),
    BindError,
>)
    ensures
        bind_outcome(first, filename, table_name, r),
        r matches Ok((b, _)) ==> columns_below(nodes_of(b.schema.children@), b.field_count as nat),
{
    let chunk = match first_chunk(first) {
        Ok(c) => c,
        Err(e) => return Err(BindError::Input(e)),
    };
    let (root, count) = match JfrField::from_chunk(&chunk, table_name.as_str()) {
        Ok(v) => v,
        Err(e) => return Err(BindError::Schema(e)),
    };
    proof {
        lemma_schema_indices_below_count(chunk_types(chunk), table_name@, root, count);
        lemma_children_nodes(root);
        assert forall|i: int| 0 <= i < root.children@.len() implies #[trigger] indices_below(
            nodes_of(root.children@)[i],
            count as nat,
        ) by {
            lemma_all_indices_below(root.node().children, count as nat, i);
        }
    }
    let mut cols: Vec<(String, ColumnType)> = Vec::new();
    let mut i: usize = 0;
    while i < root.children.len()
        invariant
            i <= root.children@.len(),
            cols@.len() == i,
            forall|j: int|
                0 <= j < i ==> (#[trigger] cols@[j]).0@ == root.children@[j].name@
                    && cols@[j].1.spec_of() == column_type(root.children@[j].node()),
        decreases root.children@.len() - i,
    {
        let s = &root.children[i];
        cols.push((s.name.clone(), create_type(s)));
        i = i + 1;
    }
    Ok((ScanBindData { filename, table_name, schema: root, field_count: count }, cols))
}

impl ScanBindData {
    /// Whether a scan of the columns `projection` can run on this binding:
    /// each projected column is the row id or a field below the root, and
    /// every field is numbered below the field count.
    pub fn fits(&self, projection: &Vec<usize>) -> (r: bool)
        ensures
            r == (projection_fits(projection@, self.schema.children@.len())
                && columns_below(nodes_of(self.schema.children@), self.field_count as nat)),
    {
        let mut p: usize = 0;
        while p < projection.len()
            invariant
                p <= projection@.len(),
                forall|q: int|
                    0 <= q < p ==> #[trigger] projection@[q] == ROW_ID_COLUMN_ID || projection@[q]
                        < self.schema.children@.len(),
            decreases projection@.len() - p,
        {
            let i = projection[p];
            if i != ROW_ID_COLUMN_ID && i >= self.schema.children.len() {
                return false;
            }
            p = p + 1;
        }
        let mut i: usize = 0;
        while i < self.schema.children.len()
            invariant
                i <= self.schema.children@.len(),
                projection_fits(projection@, self.schema.children@.len()),
                forall|j: int|
                    0 <= j < i ==> #[trigger] indices_below(
                        nodes_of(self.schema.children@)[j],
                        self.field_count as nat,
                    ),
            decreases self.schema.children@.len() - i,
        {
            if !numbered_below(&self.schema.children[i], self.field_count) {
                proof {
                    assert(nodes_of(self.schema.children@)[i as int] == self.schema.children@[i as int].node());
                    assert(!indices_below(nodes_of(self.schema.children@)[i as int], self.field_count as nat));
                }
                return false;
            }
            i = i + 1;
        }
        true
    }
}

} // verus!
