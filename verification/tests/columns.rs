//! Column types, the writes that fill columns, stack trace text, and the
//! small helpers around them, on hand-built values.

use duckdb_jfr::duckdb::bind_info::BindInfo;
use duckdb_jfr::duckdb::bindings::LogicalTypeId;
use duckdb_jfr::duckdb::data_chunk::DataChunk;
use duckdb_jfr::duckdb::database::{Connection, Database, Ownership};
use duckdb_jfr::duckdb::file::{FileHandle, SeekOrigin};
use duckdb_jfr::duckdb::function_info::FunctionInfo;
use duckdb_jfr::duckdb::init_info::InitInfo;
use duckdb_jfr::duckdb::vector::Vector;
use duckdb_jfr::jfr_access::PrimitiveValue;
use duckdb_jfr::jfr_scan::{
    create_type, format_frame, format_stacktrace, map_primitive_type, populate_column, populate_row,
    set_null, ColumnType, ColumnWrite, JfrValue, Pool, ScanError, ScanInitData, StackFrame,
    VectorStep, WriteOp, ROW_ID_COLUMN_ID,
};
use duckdb_jfr::jfr_schema::JfrField;
use duckdb_jfr::text::{chars_lt, chars_of, ends_with, join_with_newline, str_eq, to_decimal};
use duckdb_jfr::type_pool::{TickUnit, Unit};

fn field(idx: usize, name: &str, class_name: &str, children: Vec<JfrField>) -> JfrField {
    JfrField {
        idx,
        is_array: false,
        name: name.to_string(),
        class_name: class_name.to_string(),
        tick_unit: None,
        unit: None,
        children,
        valid: true,
    }
}

fn long_field(tick_unit: Option<TickUnit>, unit: Option<Unit>) -> JfrField {
    JfrField { tick_unit, unit, ..field(1, "v", "long", vec![]) }
}

fn w(path: Vec<VectorStep>, row: usize, op: WriteOp) -> ColumnWrite {
    ColumnWrite { path, row, op }
}

fn long_value(v: i64) -> JfrValue {
    JfrValue::Primitive(PrimitiveValue::Long(v), 0)
}

fn int_value(v: i32) -> JfrValue {
    JfrValue::Primitive(PrimitiveValue::Integer(v), 0)
}

fn filled(f: &JfrField, value: JfrValue, pool: &mut Pool) -> Vec<ColumnWrite> {
    let mut out = vec![];
    populate_column(&mut out, &vec![], 3, f, &value, pool).unwrap();
    out
}

/// `thread { name: String, ids: int[] (array), parent: Thread (cut) }`
fn thread_field() -> JfrField {
    let ids = JfrField { is_array: true, ..field(3, "ids", "int", vec![]) };
    let parent = JfrField { valid: false, ..field(4, "parent", "Thread", vec![]) };
    field(1, "thread", "Thread", vec![field(2, "name", "java.lang.String", vec![]), ids, parent])
}

#[test]
fn primitive_types_map_to_duckdb_types() {
    let cases = [
        ("int", Some(LogicalTypeId::Integer)),
        ("long", Some(LogicalTypeId::Bigint)),
        ("float", Some(LogicalTypeId::Float)),
        ("double", Some(LogicalTypeId::Double)),
        ("char", Some(LogicalTypeId::Varchar)),
        ("boolean", Some(LogicalTypeId::Boolean)),
        ("short", Some(LogicalTypeId::Smallint)),
        ("byte", Some(LogicalTypeId::Tinyint)),
        ("java.lang.String", Some(LogicalTypeId::Varchar)),
        ("jdk.types.StackTrace", Some(LogicalTypeId::Varchar)),
        ("java.lang.Thread", None),
    ];
    for (class_name, expected) in cases {
        assert_eq!(expected, map_primitive_type(&field(0, "f", class_name, vec![])), "{}", class_name);
    }
}

#[test]
fn points_in_time_are_timestamps() {
    let ts = Some(LogicalTypeId::Timestamp);
    assert_eq!(ts, map_primitive_type(&long_field(Some(TickUnit::Timestamp), None)));
    assert_eq!(ts, map_primitive_type(&long_field(None, Some(Unit::EpochNano))));
    assert_eq!(ts, map_primitive_type(&long_field(None, Some(Unit::EpochMilli))));
    assert_eq!(ts, map_primitive_type(&long_field(None, Some(Unit::EpochSecond))));
    assert_eq!(Some(LogicalTypeId::Bigint), map_primitive_type(&long_field(Some(TickUnit::Timespan), None)));
    assert_eq!(Some(LogicalTypeId::Bigint), map_primitive_type(&long_field(None, Some(Unit::Nanosecond))));
    assert_eq!(None, map_primitive_type(&JfrField { tick_unit: Some(TickUnit::Timestamp), ..field(0, "f", "int2", vec![]) }));
}

#[test]
fn struct_type_skips_cut_fields_and_lists_arrays() {
    let expected = ColumnType::Struct(vec![
        ("name".to_string(), ColumnType::Primitive(LogicalTypeId::Varchar)),
        ("ids".to_string(), ColumnType::List(Box::new(ColumnType::Primitive(LogicalTypeId::Integer)))),
    ]);
    assert_eq!(expected, create_type(&thread_field()));
    assert_eq!(ColumnType::Primitive(LogicalTypeId::Integer), create_type(&field(0, "f", "int", vec![])));
    assert_eq!(ColumnType::Struct(vec![]), create_type(&field(0, "f", "Empty", vec![])));
}

#[test]
fn null_struct_nulls_its_valid_members() {
    let mut out = vec![];
    set_null(&mut out, &vec![VectorStep::ListChild], 7, &thread_field());
    let expected = vec![
        w(vec![VectorStep::ListChild], 7, WriteOp::SetNull),
        w(vec![VectorStep::ListChild, VectorStep::StructChild(0)], 7, WriteOp::SetNull),
        w(vec![VectorStep::ListChild, VectorStep::StructChild(1)], 7, WriteOp::SetNull),
    ];
    assert_eq!(expected, out);
}

#[test]
fn null_array_nulls_only_itself() {
    let mut out = vec![];
    let arr = JfrField { is_array: true, ..thread_field() };
    set_null(&mut out, &vec![], 0, &arr);
    assert_eq!(vec![w(vec![], 0, WriteOp::SetNull)], out);
}

#[test]
fn longs_are_converted_by_unit() {
    let mut pool = Pool::new(2);
    let cases = [
        (long_field(None, Some(Unit::EpochNano)), 1_685_952_702_474_123_456, WriteOp::Long(1_685_952_702_474_123)),
        (long_field(None, Some(Unit::EpochNano)), -1_999, WriteOp::Long(-1)),
        (long_field(None, Some(Unit::EpochMilli)), 1_685_952_702_474, WriteOp::Long(1_685_952_702_474_000)),
        (long_field(None, Some(Unit::EpochSecond)), 1_685_952_702, WriteOp::Long(1_685_952_702_000_000)),
        (long_field(None, Some(Unit::Byte)), 77, WriteOp::Long(77)),
        (long_field(Some(TickUnit::Timestamp), Some(Unit::EpochMilli)), 5, WriteOp::TicksTimestamp { ticks: 5, chunk: 0 }),
        (long_field(Some(TickUnit::Timespan), None), -5, WriteOp::Long(-5)),
    ];
    for (f, v, op) in cases {
        assert_eq!(vec![w(vec![], 3, op)], filled(&f, long_value(v), &mut pool));
    }
}

#[test]
fn primitives_are_written_as_they_are() {
    let mut pool = Pool::new(1);
    let f = field(0, "v", "x", vec![]);
    let cases = [
        (PrimitiveValue::Integer(-3), WriteOp::Int(-3)),
        (PrimitiveValue::Float(0x4049_0fdb), WriteOp::Float(0x4049_0fdb)),
        (PrimitiveValue::Double(7), WriteOp::Double(7)),
        (PrimitiveValue::Character("é".to_string()), WriteOp::Text("é".to_string())),
        (PrimitiveValue::Boolean(true), WriteOp::Bool(true)),
        (PrimitiveValue::Short(-2), WriteOp::Short(-2)),
        (PrimitiveValue::Byte(9), WriteOp::Byte(9)),
        (PrimitiveValue::Text("abc".to_string()), WriteOp::Text("abc".to_string())),
    ];
    for (p, op) in cases {
        assert_eq!(vec![w(vec![], 3, op)], filled(&f, JfrValue::Primitive(p, 4), &mut pool));
    }
    assert_eq!(vec![w(vec![], 3, WriteOp::SetNull)], filled(&f, JfrValue::Primitive(PrimitiveValue::NullString, 0), &mut pool));
    assert_eq!(vec![w(vec![], 3, WriteOp::SetNull)], filled(&f, JfrValue::Missing, &mut pool));
    assert_eq!(
        vec![w(vec![], 3, WriteOp::Text("a\nb".to_string()))],
        filled(&f, JfrValue::StackTrace("a\nb".to_string()), &mut pool)
    );
}

#[test]
fn objects_fill_the_members_in_order() {
    let mut pool = Pool::new(5);
    let value = JfrValue::Object(vec![
        JfrValue::Primitive(PrimitiveValue::Text("main".to_string()), 0),
        JfrValue::Array(vec![int_value(10), int_value(11)]),
        JfrValue::Missing,
    ]);
    let expected = vec![
        w(vec![VectorStep::StructChild(0)], 3, WriteOp::Text("main".to_string())),
        w(vec![VectorStep::StructChild(1)], 3, WriteOp::ReserveList(2)),
        w(vec![VectorStep::StructChild(1), VectorStep::ListChild], 0, WriteOp::Int(10)),
        w(vec![VectorStep::StructChild(1), VectorStep::ListChild], 1, WriteOp::Int(11)),
        w(vec![VectorStep::StructChild(1)], 3, WriteOp::ListEntry { offset: 0, length: 2 }),
        w(vec![VectorStep::StructChild(1)], 3, WriteOp::ListSize(2)),
    ];
    assert_eq!(expected, filled(&thread_field(), value, &mut pool));
    assert_eq!(vec![0, 0, 0, 2, 0], pool.list_children_idx);
}

#[test]
fn short_objects_null_the_missing_members() {
    let mut pool = Pool::new(5);
    let value = JfrValue::Object(vec![JfrValue::Primitive(PrimitiveValue::Text("t".to_string()), 0)]);
    let expected = vec![
        w(vec![VectorStep::StructChild(0)], 3, WriteOp::Text("t".to_string())),
        w(vec![VectorStep::StructChild(1)], 3, WriteOp::SetNull),
    ];
    assert_eq!(expected, filled(&thread_field(), value, &mut pool));
}

#[test]
fn lists_go_on_where_the_last_one_ended() {
    let mut pool = Pool::new(2);
    let arr = JfrField { is_array: true, ..field(1, "ids", "int", vec![]) };
    filled(&arr, JfrValue::Array(vec![int_value(1), int_value(2), int_value(3)]), &mut pool);
    let second = filled(&arr, JfrValue::Array(vec![int_value(4)]), &mut pool);
    let expected = vec![
        w(vec![], 3, WriteOp::ReserveList(4)),
        w(vec![VectorStep::ListChild], 3, WriteOp::Int(4)),
        w(vec![], 3, WriteOp::ListEntry { offset: 3, length: 1 }),
        w(vec![], 3, WriteOp::ListSize(4)),
    ];
    assert_eq!(expected, second);
    assert_eq!(4, pool.get_list_child_row_idx(1));
    let empty = filled(&arr, JfrValue::Array(vec![]), &mut pool);
    assert_eq!(
        vec![
            w(vec![], 3, WriteOp::ReserveList(4)),
            w(vec![], 3, WriteOp::ListEntry { offset: 4, length: 0 }),
            w(vec![], 3, WriteOp::ListSize(4)),
        ],
        empty
    );
}

#[test]
fn list_rows_beyond_usize_are_refused() {
    let mut pool = Pool::new(2);
    pool.set_list_child_row_idx(1, usize::MAX);
    let arr = JfrField { is_array: true, ..field(1, "ids", "int", vec![]) };
    let mut out = vec![];
    let r = populate_column(&mut out, &vec![], 0, &arr, &JfrValue::Array(vec![int_value(1)]), &mut pool);
    assert_eq!(Err(ScanError::TooManyListRows), r);
    assert_eq!(usize::MAX, pool.get_list_child_row_idx(1));
}

#[test]
fn a_row_fills_each_projected_column() {
    let schema = field(0, "root", "jdk.Sample", vec![long_field(None, None), thread_field()]);
    let mut pool = Pool::new(6);
    let mut columns = vec![vec![], vec![], vec![]];
    let projection = vec![ROW_ID_COLUMN_ID, 0, 1];
    populate_row(&mut columns, &projection, &schema, 5, vec![None, Some(long_value(9)), None], &mut pool).unwrap();
    assert_eq!(vec![w(vec![], 5, WriteOp::Long(42))], columns[0]);
    assert_eq!(vec![w(vec![], 5, WriteOp::Long(9))], columns[1]);
    assert_eq!(
        vec![
            w(vec![], 5, WriteOp::SetNull),
            w(vec![VectorStep::StructChild(0)], 5, WriteOp::SetNull),
            w(vec![VectorStep::StructChild(1)], 5, WriteOp::SetNull),
        ],
        columns[2]
    );
    populate_row(&mut columns, &projection, &schema, 6, vec![None, Some(long_value(10))], &mut pool).unwrap();
    assert_eq!(vec![w(vec![], 5, WriteOp::Long(9)), w(vec![], 6, WriteOp::Long(10))], columns[1]);
    assert_eq!(6, columns[2].len());
}

fn frame(class_name: &str, method: &str, frame_type: &str, line: i32) -> StackFrame {
    StackFrame {
        class_name: class_name.to_string(),
        method_name: method.to_string(),
        frame_type: frame_type.to_string(),
        line_number: line,
    }
}

#[test]
fn java_frames_name_class_method_and_line() {
    assert_eq!("a.B.run:12", format_frame(&frame("a.B", "run", "Interpreted", 12)));
    assert_eq!("a.B.run:1", format_frame(&frame("a.B", "run", "JIT compiled", 1)));
    assert_eq!("a.B.run:2147483647", format_frame(&frame("a.B", "run", "Inlined", i32::MAX)));
    assert_eq!("a.B.run", format_frame(&frame("a.B", "run", "C1 compiled", 0)));
    assert_eq!("a.B.run", format_frame(&frame("a.B", "run", "Inlined", -1)));
}

#[test]
fn native_frames_name_the_method_only() {
    assert_eq!("pthread_cond_timedwait", format_frame(&frame("", "pthread_cond_timedwait", "Native", 0)));
    assert_eq!("run", format_frame(&frame("a.B", "run", "Kernel", 3)));
    assert_eq!("run", format_frame(&frame("", "run", "Interpreted", 3)));
}

#[test]
fn stack_trace_text_joins_frames_with_newlines() {
    let frames = vec![
        frame("", "/usr/lib/aarch64-linux-gnu/libc.so.6", "Native", 0),
        frame("", "pthread_cond_timedwait", "Native", 0),
        frame("Spin", "work", "JIT compiled", 2),
    ];
    let (text, len) = format_stacktrace(&frames);
    assert_eq!("/usr/lib/aarch64-linux-gnu/libc.so.6\npthread_cond_timedwait\nSpin.work:2", text);
    assert_eq!(text.len(), len);
    assert_eq!((String::new(), 0), format_stacktrace(&vec![]));
    let (text, len) = format_stacktrace(&vec![frame("é", "ü", "Interpreted", 5)]);
    assert_eq!(("é.ü:5".to_string(), 7), (text, len));
}

#[test]
fn text_helpers() {
    assert_eq!("0", to_decimal(0));
    assert_eq!("907", to_decimal(907));
    assert_eq!("4294967295", to_decimal(u32::MAX));
    assert_eq!("", join_with_newline(&vec![]));
    assert_eq!("a", join_with_newline(&vec!["a".to_string()]));
    assert_eq!("a\n\nb", join_with_newline(&vec!["a".to_string(), String::new(), "b".to_string()]));
    assert!(ends_with("rec.jfr.gz", ".gz"));
    assert!(!ends_with("rec.jfr", ".gz"));
    assert!(!ends_with("gz", ".gz"));
    assert!(ends_with(".gz", ".gz"));
    assert!(str_eq("jdk.ExecutionSample", "jdk.ExecutionSample"));
    assert!(!str_eq("jdk.ExecutionSample", "jdk.ExecutionSampl"));
    assert!(chars_lt(&chars_of("jdk.A"), &chars_of("jdk.B")));
    assert!(chars_lt(&chars_of("jdk"), &chars_of("jdk.A")));
    assert!(!chars_lt(&chars_of("jdk.A"), &chars_of("jdk.A")));
    assert!(!chars_lt(&chars_of("b"), &chars_of("a.long.name")));
}

#[test]
fn pool_rows_start_at_zero_and_keep_what_is_set() {
    let mut pool = Pool::new(3);
    assert_eq!(vec![0, 0, 0], pool.list_children_idx);
    pool.set_list_child_row_idx(2, 9);
    assert_eq!(9, pool.get_list_child_row_idx(2));
    assert_eq!(0, pool.get_list_child_row_idx(1));
}

#[test]
fn a_new_scan_needs_the_chunks() {
    let init = ScanInitData::new(vec![1, ROW_ID_COLUMN_ID]);
    assert!(init.needs_chunks());
    assert!(!init.done);
    assert_eq!(None, init.chunk_idx);
    assert_eq!(0, init.offset_in_chunk);
    assert_eq!(vec![1, ROW_ID_COLUMN_ID], init.projection);
}

#[test]
fn handles_keep_their_address() {
    assert_eq!(0x1000, BindInfo::from_ptr(0x1000).ptr());
    assert_eq!(0x2000, DataChunk::from_ptr(0x2000).ptr());
    assert_eq!(0x3000, FunctionInfo::from_ptr(0x3000).ptr());
    assert_eq!(0x4000, InitInfo::from_ptr(0x4000).ptr());
    assert_eq!(0x5000, Vector::from_ptr(0x5000).ptr());
    assert_eq!(0x6000, Connection::from_ptr(0x6000).ptr());
}

#[test]
fn only_an_owned_database_is_closed() {
    let borrowed = Database::from_ptr(0x10);
    assert_eq!(0x10, borrowed.ptr());
    assert!(!borrowed.closes_on_drop());
    let owned = Database::owned(0x20);
    assert_eq!(Ownership::Owned(0x20), owned.0);
    assert!(owned.closes_on_drop());
    assert!(!Database::owned(0).closes_on_drop());
    assert_eq!(0x20, Ownership::Owned(0x20).ptr());
    assert!(Connection::from_ptr(7).disconnects_on_drop());
    assert!(!Connection::from_ptr(0).disconnects_on_drop());
}

#[test]
fn file_position_moves_with_reads_and_seeks() {
    let mut f = FileHandle::new(0x99, 100);
    assert_eq!(Ok(40), f.advance(40));
    assert_eq!(40, f.pos);
    assert_eq!(Err(()), f.advance(-1));
    assert_eq!(40, f.pos);
    assert_eq!(Ok(45), f.seek(SeekOrigin::Current(5)));
    assert_eq!(Ok(10), f.seek(SeekOrigin::Start(10)));
    assert_eq!(Ok(10), f.seek(SeekOrigin::Current(0)));
    assert_eq!(Ok(90), f.seek(SeekOrigin::End(-10)));
    assert_eq!(90, f.pos);
    assert_eq!(Ok(7), f.advance(7));
    assert_eq!(97, f.pos);
}

#[test]
fn seeks_before_the_start_are_refused() {
    let mut f = FileHandle::new(0x99, 100);
    f.seek(SeekOrigin::Start(10)).unwrap();
    assert_eq!(Err(()), f.seek(SeekOrigin::End(-200)));
    assert_eq!(Err(()), f.seek(SeekOrigin::Current(-11)));
    assert_eq!(10, f.pos);
    assert_eq!(Ok(0), f.seek(SeekOrigin::Current(-10)));
    assert_eq!(Ok(u64::MAX), f.seek(SeekOrigin::Start(u64::MAX)));
    assert_eq!(Err(()), f.seek(SeekOrigin::Current(1)));
    assert_eq!(u64::MAX, f.pos);
}

#[test]
fn list_column_entries_follow_one_another_across_rows() {
    let arr = JfrField { is_array: true, ..field(1, "ids", "int", vec![]) };
    let schema = field(0, "root", "jdk.Sample", vec![arr]);
    let projection = vec![0, ROW_ID_COLUMN_ID];
    let mut pool = Pool::new(2);
    let mut columns = vec![vec![], vec![]];
    let rows = vec![
        vec![Some(JfrValue::Array(vec![int_value(1), int_value(2)])), None],
        vec![None, None],
        vec![Some(JfrValue::Array(vec![int_value(3), int_value(4), int_value(5)])), None],
    ];
    for (r, values) in rows.into_iter().enumerate() {
        populate_row(&mut columns, &projection, &schema, r, values, &mut pool).unwrap();
    }
    let entries: Vec<(usize, usize, usize)> = columns[0]
        .iter()
        .filter_map(|c| match c.op {
            WriteOp::ListEntry { offset, length } => Some((c.row, offset, length)),
            _ => None,
        })
        .collect();
    assert_eq!(vec![(0, 0, 2), (2, 2, 3)], entries);
    assert_eq!(5, pool.get_list_child_row_idx(1));
    assert!(columns[0].contains(&w(vec![], 1, WriteOp::SetNull)));
    assert_eq!(3, columns[1].len());
}
