use duckdb_jfr::jfr_attach::{event_type_names, views_of_pool};
use duckdb_jfr::jfr_schema::{JfrField, SchemaError};
use duckdb_jfr::type_pool::{FieldInfo, TickUnit, TypeInfo, TypeLookup, TypeTable, Unit};

fn field(name: &str, class_id: i64) -> FieldInfo {
    FieldInfo::new(name.to_string(), class_id, false, None, None)
}

fn ty(class_id: i64, name: &str, super_type: Option<&str>, fields: Vec<FieldInfo>) -> TypeInfo {
    TypeInfo {
        class_id,
        name: name.to_string(),
        super_type: super_type.map(|s| s.to_string()),
        fields,
    }
}

/// The types that `jdk.ExecutionSample` reaches in an async-profiler recording.
fn execution_sample_pool() -> TypeTable {
    let mut t = TypeTable::new();
    let types = vec![
        ty(1, "long", None, vec![]),
        ty(2, "int", None, vec![]),
        ty(3, "boolean", None, vec![]),
        ty(4, "java.lang.String", None, vec![]),
        ty(
            10,
            "jdk.ExecutionSample",
            Some("jdk.jfr.Event"),
            vec![
                FieldInfo::new("startTime".to_string(), 1, false, Some(TickUnit::Timestamp), None),
                field("sampledThread", 11),
                field("stackTrace", 12),
                field("state", 19),
            ],
        ),
        ty(
            11,
            "java.lang.Thread",
            None,
            vec![
                field("osName", 4),
                field("osThreadId", 1),
                field("javaName", 4),
                field("javaThreadId", 1),
            ],
        ),
        ty(
            12,
            "jdk.types.StackTrace",
            None,
            vec![
                field("truncated", 3),
                FieldInfo::new("frames".to_string(), 13, true, None, None),
            ],
        ),
        ty(
            13,
            "jdk.types.StackFrame",
            None,
            vec![
                field("method", 14),
                field("lineNumber", 2),
                field("bytecodeIndex", 2),
                field("type", 18),
            ],
        ),
        ty(
            14,
            "jdk.types.Method",
            None,
            vec![
                field("type", 15),
                field("name", 16),
                field("descriptor", 16),
                field("modifiers", 2),
                field("hidden", 3),
            ],
        ),
        ty(
            15,
            "java.lang.Class",
            None,
            vec![
                field("classLoader", 17),
                field("name", 16),
                field("package", 20),
                field("modifiers", 2),
            ],
        ),
        ty(16, "jdk.types.Symbol", None, vec![field("string", 4)]),
        ty(17, "jdk.types.ClassLoader", None, vec![field("type", 15), field("name", 16)]),
        ty(18, "jdk.types.FrameType", None, vec![field("description", 4)]),
        ty(19, "jdk.types.ThreadState", None, vec![field("name", 4)]),
        ty(20, "jdk.types.Package", None, vec![field("name", 16)]),
    ];
    for d in types {
        let id = d.class_id;
        t.register(id, d);
    }
    t
}

fn leaf(idx: usize, name: &str, class_name: &str) -> JfrField {
    node(idx, name, class_name, vec![])
}

fn node(idx: usize, name: &str, class_name: &str, children: Vec<JfrField>) -> JfrField {
    JfrField {
        idx,
        is_array: false,
        name: name.to_string(),
        class_name: class_name.to_string(),
        tick_unit: None,
        unit: None,
        children,
        valid: true,
    }
}

#[test]
fn schema_of_execution_sample() {
    let pool = execution_sample_pool();
    let (root, count) = JfrField::from_types(&pool, "jdk.ExecutionSample").unwrap();
    let mut start_time = leaf(1, "startTime", "long");
    start_time.tick_unit = Some(TickUnit::Timestamp);
    let mut class_loader_type = leaf(13, "type", "java.lang.Class");
    class_loader_type.valid = false;
    let mut frames = node(
        9,
        "frames",
        "jdk.types.StackFrame",
        vec![
            node(
                10,
                "method",
                "jdk.types.Method",
                vec![
                    node(
                        11,
                        "type",
                        "java.lang.Class",
                        vec![
                            node(
                                12,
                                "classLoader",
                                "jdk.types.ClassLoader",
                                vec![
                                    class_loader_type,
                                    node(14, "name", "jdk.types.Symbol", vec![leaf(15, "string", "java.lang.String")]),
                                ],
                            ),
                            node(16, "name", "jdk.types.Symbol", vec![leaf(17, "string", "java.lang.String")]),
                            node(
                                18,
                                "package",
                                "jdk.types.Package",
                                vec![node(19, "name", "jdk.types.Symbol", vec![leaf(20, "string", "java.lang.String")])],
                            ),
                            leaf(21, "modifiers", "int"),
                        ],
                    ),
                    node(22, "name", "jdk.types.Symbol", vec![leaf(23, "string", "java.lang.String")]),
                    node(24, "descriptor", "jdk.types.Symbol", vec![leaf(25, "string", "java.lang.String")]),
                    leaf(26, "modifiers", "int"),
                    leaf(27, "hidden", "boolean"),
                ],
            ),
            leaf(28, "lineNumber", "int"),
            leaf(29, "bytecodeIndex", "int"),
            node(30, "type", "jdk.types.FrameType", vec![leaf(31, "description", "java.lang.String")]),
        ],
    );
    frames.is_array = true;
    let expected = node(
        0,
        "root",
        "jdk.ExecutionSample",
        vec![
            start_time,
            node(
                2,
                "sampledThread",
                "java.lang.Thread",
                vec![
                    leaf(3, "osName", "java.lang.String"),
                    leaf(4, "osThreadId", "long"),
                    leaf(5, "javaName", "java.lang.String"),
                    leaf(6, "javaThreadId", "long"),
                ],
            ),
            node(
                7,
                "stackTrace",
                "jdk.types.StackTrace",
                vec![leaf(8, "truncated", "boolean"), frames],
            ),
            node(32, "state", "jdk.types.ThreadState", vec![leaf(33, "name", "java.lang.String")]),
        ],
    );
    assert_eq!(root, expected);
    assert_eq!(count, 34);
}

#[test]
fn schema_of_unknown_type() {
    let pool = execution_sample_pool();
    let r = JfrField::from_types(&pool, "jdk.CPULoad");
    assert_eq!(r, Err(SchemaError::TypeNotFound("jdk.CPULoad".to_string())));
}

#[test]
fn schema_with_missing_class() {
    let mut pool = TypeTable::new();
    pool.register(1, ty(1, "my.Event", Some("jdk.jfr.Event"), vec![field("a", 2), field("b", 99)]));
    pool.register(2, ty(2, "int", None, vec![]));
    assert_eq!(JfrField::from_types(&pool, "my.Event"), Err(SchemaError::ClassNotFound(99)));
}

#[test]
fn schema_of_primitive_type_counts_its_root() {
    let mut pool = TypeTable::new();
    pool.register(2, ty(2, "int", None, vec![]));
    let (root, count) = JfrField::from_types(&pool, "int").unwrap();
    assert!(root.children.is_empty());
    assert!(root.valid);
    assert_eq!(count, 1);
}

#[test]
fn schema_with_one_field_counts_two() {
    let mut pool = TypeTable::new();
    pool.register(1, ty(1, "my.Event", None, vec![field("v", 2)]));
    pool.register(2, ty(2, "int", None, vec![]));
    let (root, count) = JfrField::from_types(&pool, "my.Event").unwrap();
    assert_eq!(root.children.len(), 1);
    assert_eq!(root.children[0].idx, 1);
    assert_eq!(count, 2);
}

#[test]
fn self_referencing_type_is_cut_at_the_repeat() {
    let mut pool = TypeTable::new();
    pool.register(1, ty(1, "my.Node", None, vec![field("next", 1), field("value", 2)]));
    pool.register(2, ty(2, "long", None, vec![]));
    let (root, count) = JfrField::from_types(&pool, "my.Node").unwrap();
    // root's type is on the path, so the field `next` is invalid and not expanded
    assert_eq!(root.children.len(), 2);
    assert!(!root.children[0].valid);
    assert!(root.children[0].children.is_empty());
    assert!(root.children[1].valid);
    assert_eq!(root.children[1].idx, 2);
    assert_eq!(count, 3);
}

#[test]
fn fields_keep_their_units() {
    let mut pool = TypeTable::new();
    pool.register(
        1,
        ty(
            1,
            "my.Event",
            None,
            vec![
                FieldInfo::new("at".to_string(), 2, false, None, Some(Unit::EpochMilli)),
                FieldInfo::new("took".to_string(), 2, false, Some(TickUnit::Timespan), None),
                FieldInfo::new("size".to_string(), 2, false, None, Some(Unit::Byte)),
            ],
        ),
    );
    pool.register(2, ty(2, "long", None, vec![]));
    let (root, _) = JfrField::from_types(&pool, "my.Event").unwrap();
    assert_eq!(root.children[0].unit, Some(Unit::EpochMilli));
    assert_eq!(root.children[1].tick_unit, Some(TickUnit::Timespan));
    assert_eq!(root.children[2].unit, Some(Unit::Byte));
}

#[test]
fn type_table_register_replaces() {
    let mut pool = TypeTable::new();
    pool.register(7, ty(7, "a", None, vec![]));
    pool.register(7, ty(7, "b", None, vec![]));
    assert_eq!(pool.lookup(7).unwrap().name, "b");
    assert!(pool.lookup(8).is_none());
    assert_eq!(pool.all_types().len(), 1);
}

#[test]
fn unit_codes_round_trip() {
    for u in [Unit::Byte, Unit::Hz, Unit::EpochNano, Unit::EpochMilli, Unit::EpochSecond] {
        assert_eq!(Unit::from_code(u.code()), Some(u));
    }
    assert_eq!(TickUnit::from_code(TickUnit::Timestamp.code()), Some(TickUnit::Timestamp));
    assert_eq!(Unit::from_code(10), None);
}

#[test]
fn event_type_names_are_the_event_types_in_order() {
    let types = vec![
        ty(30, "jdk.ThreadPark", Some("jdk.jfr.Event"), vec![field("duration", 1)]),
        ty(31, "jdk.types.StackTrace", None, vec![field("frames", 2)]),
        ty(32, "jdk.CPULoad", Some("jdk.jfr.Event"), vec![field("jvmUser", 1)]),
        ty(33, "jdk.Empty", Some("jdk.jfr.Event"), vec![]),
        ty(34, "jdk.ClassLoad", Some("jdk.jfr.Event"), vec![field("loadedClass", 4)]),
        ty(35, "my.Event", Some("my.Base"), vec![field("x", 1)]),
    ];
    assert_eq!(vec!["jdk.CPULoad", "jdk.ClassLoad", "jdk.ThreadPark"], event_type_names(&types));
    assert_eq!(Vec::<String>::new(), event_type_names(&vec![]));

    let mut pool = TypeTable::new();
    for t in types {
        pool.register(t.class_id, t);
    }
    let views = views_of_pool(&pool, &"x.jfr".to_string());
    let names: Vec<&str> = views.iter().map(|v| v.name.as_str()).collect();
    assert_eq!(vec!["jdk.CPULoad", "jdk.ClassLoad", "jdk.ThreadPark"], names);
    assert_eq!(vec!["x.jfr".to_string(), "jdk.ClassLoad".to_string()], views[1].parameters);
    assert_eq!("jfr_scan", views[1].function_name);
}
