use gts::cast::{JsonEntityCastResult, SchemaCastError};
use gts::ids::{GtsError, GtsID, GtsWildcard};
use gts::json::Json;
use gts::schema::{check_backward_compatibility, check_forward_compatibility, flatten_schema};

fn obj(entries: Vec<(&str, Json)>) -> Json {
    Json::Obj(entries.into_iter().map(|(k, v)| (k.to_string(), v)).collect())
}

fn s(x: &str) -> Json {
    Json::Str(x.to_string())
}

fn strs(xs: Vec<&str>) -> Json {
    Json::Arr(xs.into_iter().map(s).collect())
}

#[test]
fn test_gts_id_valid() {
    let id = GtsID::new("gts.x.core.events.event.v1~").unwrap();
    assert_eq!(id.id, "gts.x.core.events.event.v1~");
    assert!(id.is_type());
}

#[test]
fn test_gts_id_invalid_uppercase() {
    let result = GtsID::new("gts.X.core.events.event.v1~");
    assert!(result.is_err());
}

#[test]
fn test_gts_wildcard() {
    let pattern = GtsWildcard::new("gts.x.core.events.*").unwrap();
    let id = GtsID::new("gts.x.core.events.event.v1~").unwrap();
    assert!(id.wildcard_match(&pattern));
}

#[test]
fn test_uuid_generation() {
    let id = GtsID::new("gts.x.core.events.event.v1~").unwrap();
    let uuid = id.to_uuid();
    assert!(!uuid.is_empty());
}

#[test]
fn test_parse_segment_fields() {
    let id = GtsID::new("gts.x.core.events.event.v1~").unwrap();
    assert_eq!(id.gts_id_segments.len(), 1);
    let seg = &id.gts_id_segments[0];
    assert_eq!(seg.vendor, "x");
    assert_eq!(seg.package, "core");
    assert_eq!(seg.namespace, "events");
    assert_eq!(seg.typename, "event");
    assert_eq!(seg.ver_major, 1);
    assert_eq!(seg.ver_minor, None);
    assert!(seg.is_type);
    assert!(!seg.is_wildcard);
}

#[test]
fn test_uppercase_cause() {
    match GtsID::new("gts.X.core.events.event.v1~") {
        Err(GtsError::InvalidId { id, cause }) => {
            assert_eq!(id, "gts.X.core.events.event.v1~");
            assert_eq!(cause, "Must be lower case");
        }
        other => panic!("expected InvalidId, got {:?}", other),
    }
}

#[test]
fn test_error_message_rendering() {
    let err = GtsID::new("gts.X.core.events.event.v1~").unwrap_err();
    assert_eq!(
        err.message(),
        "Invalid GTS identifier: gts.X.core.events.event.v1~: Must be lower case"
    );
}

#[test]
fn test_segment_error_message_offsets() {
    // The second segment is invalid: the message carries its 1-based
    // number and byte offset.
    let err = GtsID::new("gts.a.b.c.d.v1~UP.q.r.s.v2").unwrap_err();
    match &err {
        GtsError::InvalidId { cause, .. } => {
            assert_eq!(cause, "Must be lower case");
        }
        other => panic!("unexpected {:?}", other),
    }
    let err2 = GtsID::new("gts.a.b.c.d.v1~x.y.v2").unwrap_err();
    match &err2 {
        GtsError::InvalidSegment {
            num,
            offset,
            segment,
            cause,
        } => {
            assert_eq!(*num, 2);
            assert_eq!(*offset, 15);
            assert_eq!(segment, "x.y.v2");
            assert_eq!(cause, "Too few tokens");
            assert_eq!(
                err2.message(),
                "Invalid GTS segment #2 @ offset 15: 'x.y.v2': Too few tokens"
            );
        }
        other => panic!("unexpected {:?}", other),
    }
}

#[test]
fn test_id_rejections() {
    assert!(matches!(
        GtsID::new("gts.a-b.c.d.e.v1"),
        Err(GtsError::InvalidId { .. })
    ));
    assert!(matches!(
        GtsID::new("nope.a.b.c.d.v1"),
        Err(GtsError::InvalidId { .. })
    ));
    let long = format!("gts.{}.b.c.d.v1", "a".repeat(1100));
    match GtsID::new(&long) {
        Err(GtsError::InvalidId { cause, .. }) => assert_eq!(cause, "Too long"),
        other => panic!("unexpected {:?}", other),
    }
    match GtsID::new("gts.a.b.c.d.v1.2.3") {
        Err(GtsError::InvalidSegment { cause, .. }) => assert_eq!(cause, "Too many tokens"),
        other => panic!("unexpected {:?}", other),
    }
    match GtsID::new("gts.a.9b.c.d.v1") {
        Err(GtsError::InvalidSegment { cause, .. }) => {
            assert_eq!(cause, "Invalid segment token: 9b")
        }
        other => panic!("unexpected {:?}", other),
    }
    match GtsID::new("gts.a.b.c.d.w1") {
        Err(GtsError::InvalidSegment { cause, .. }) => {
            assert_eq!(cause, "Major version must start with 'v'")
        }
        other => panic!("unexpected {:?}", other),
    }
    match GtsID::new("gts.a.b.c.d.v01") {
        Err(GtsError::InvalidSegment { cause, .. }) => {
            assert_eq!(cause, "Major version must be an integer")
        }
        other => panic!("unexpected {:?}", other),
    }
    match GtsID::new("gts.a.b.c.d.v1.00") {
        Err(GtsError::InvalidSegment { cause, .. }) => {
            assert_eq!(cause, "Minor version must be an integer")
        }
        other => panic!("unexpected {:?}", other),
    }
    match GtsID::new("gts.a.b~c.d.e.v1") {
        Err(GtsError::InvalidSegment { cause, .. }) => {
            assert_eq!(cause, "Too few tokens")
        }
        other => panic!("unexpected {:?}", other),
    }
    match gts::ids::GtsIdSegment::new(1, 4, "a~b.c.d.e.v1") {
        Err(GtsError::InvalidSegment { cause, .. }) => {
            assert_eq!(cause, " '~' must be at the end")
        }
        other => panic!("unexpected {:?}", other),
    }
    match gts::ids::GtsIdSegment::new(1, 4, "a~b~.c.d.e.v1") {
        Err(GtsError::InvalidSegment { cause, .. }) => {
            assert_eq!(cause, "Too many '~' characters")
        }
        other => panic!("unexpected {:?}", other),
    }
    match GtsID::new("gts.~") {
        Err(GtsError::InvalidId { cause, .. }) => {
            assert_eq!(cause, "GTS segment #1 @ offset 4 is empty")
        }
        other => panic!("unexpected {:?}", other),
    }
}

#[test]
fn test_trim_and_identity() {
    let id = GtsID::new("  gts.x.core.events.event.v1~  ").unwrap();
    assert_eq!(id.id, "gts.x.core.events.event.v1~");
}

#[test]
fn test_is_valid() {
    assert!(GtsID::is_valid("gts.x.core.events.event.v1"));
    assert!(!GtsID::is_valid("gts.X.core.events.event.v1"));
    assert!(!GtsID::is_valid(" gts.x.core.events.event.v1"));
    assert!(!GtsID::is_valid("other.x.core.events.event.v1"));
}

#[test]
fn test_type_id() {
    let id = GtsID::new("gts.a.b.c.d.v1~x.y.z.w.v2").unwrap();
    assert_eq!(id.gts_id_segments.len(), 2);
    let tid = id.get_type_id().unwrap();
    assert_eq!(tid, "gts.a.b.c.d.v1~");
    assert!(GtsID::is_valid(&tid));
    assert_eq!(GtsID::new(&tid).unwrap().gts_id_segments.len(), 1);
    let single = GtsID::new("gts.a.b.c.d.v1").unwrap();
    assert!(single.get_type_id().is_none());
}

#[test]
fn test_type_id_with_inner_whitespace() {
    // Whitespace after a `~` is trimmed from the following segment; the
    // type id is still a valid identifier with one segment fewer.
    let id = GtsID::new("gts.a.b.c.d.v1~ x.y.z.w.v2").unwrap();
    assert_eq!(id.gts_id_segments.len(), 2);
    assert_eq!(id.gts_id_segments[1].segment, "x.y.z.w.v2");
    let tid = id.get_type_id().unwrap();
    assert_eq!(tid, "gts.a.b.c.d.v1~");
    assert!(GtsID::is_valid(&tid));
    assert_eq!(GtsID::new(&tid).unwrap().gts_id_segments.len(), 1);
}

#[test]
fn test_uuid_deterministic_v5() {
    let a = GtsID::new("gts.x.core.events.event.v1~").unwrap();
    let b = GtsID::new("gts.x.core.events.event.v1~").unwrap();
    let ua = a.to_uuid();
    let ub = b.to_uuid();
    assert_eq!(ua, ub);
    assert_eq!(ua.len(), 16);
    assert_eq!(ua[6] >> 4, 5);
    assert_eq!(ua[8] >> 6, 2);
}

#[test]
fn test_wildcard_reflexive_concrete() {
    let id = GtsID::new("gts.x.core.events.event.v1~").unwrap();
    let pattern = GtsWildcard::new("gts.x.core.events.event.v1~").unwrap();
    assert!(id.wildcard_match(&pattern));
}

#[test]
fn test_wildcard_minor_flexibility() {
    let id = GtsID::new("gts.x.core.events.event.v1.4").unwrap();
    let no_minor = GtsWildcard::new("gts.x.core.events.event.v1").unwrap();
    assert!(id.wildcard_match(&no_minor));
    let wrong_minor = GtsWildcard::new("gts.x.core.events.event.v1.5").unwrap();
    assert!(!id.wildcard_match(&wrong_minor));
    let exact_minor = GtsWildcard::new("gts.x.core.events.event.v1.4").unwrap();
    assert!(id.wildcard_match(&exact_minor));
}

#[test]
fn test_wildcard_rejections() {
    match GtsWildcard::new("gts.x.*.events.*") {
        Err(GtsError::InvalidWildcard { cause, .. }) => {
            assert_eq!(cause, "The wildcard '*' token is allowed only once")
        }
        other => panic!("unexpected {:?}", other),
    }
    match GtsWildcard::new("gts.x.*.events") {
        Err(GtsError::InvalidWildcard { cause, .. }) => assert_eq!(
            cause,
            "The wildcard '*' token is allowed only at the end of the pattern"
        ),
        other => panic!("unexpected {:?}", other),
    }
    match GtsWildcard::new("nope.x.core.events.*") {
        Err(GtsError::InvalidWildcard { cause, .. }) => {
            assert_eq!(cause, "Does not start with 'gts.'")
        }
        other => panic!("unexpected {:?}", other),
    }
}

#[test]
fn test_split_at_path() {
    let (g, p) = GtsID::split_at_path("gts.a.b.c.d.v1").unwrap();
    assert_eq!(g, "gts.a.b.c.d.v1");
    assert!(p.is_none());
    let (g2, p2) = GtsID::split_at_path("gts.a.b.c.d.v1@x.y").unwrap();
    assert_eq!(g2, "gts.a.b.c.d.v1");
    assert_eq!(p2.as_deref(), Some("x.y"));
    match GtsID::split_at_path("gts.a.b.c.d.v1@") {
        Err(GtsError::InvalidId { cause, .. }) => {
            assert_eq!(cause, "Attribute path cannot be empty")
        }
        other => panic!("unexpected {:?}", other),
    }
}

#[test]
fn test_flatten_merges_allof() {
    let schema = obj(vec![
        (
            "allOf",
            Json::Arr(vec![
                obj(vec![
                    ("properties", obj(vec![("a", obj(vec![("type", s("string"))]))])),
                    ("required", strs(vec!["a"])),
                ]),
                obj(vec![(
                    "properties",
                    obj(vec![(
                        "b",
                        obj(vec![("type", s("integer")), ("default", Json::Int(3))]),
                    )]),
                )]),
            ]),
        ),
        ("additionalProperties", Json::Bool(false)),
    ]);
    let flat = flatten_schema(&schema);
    let expected = obj(vec![
        (
            "properties",
            obj(vec![
                ("a", obj(vec![("type", s("string"))])),
                (
                    "b",
                    obj(vec![("type", s("integer")), ("default", Json::Int(3))]),
                ),
            ]),
        ),
        ("required", strs(vec!["a"])),
        ("additionalProperties", Json::Bool(false)),
    ]);
    assert_eq!(flat, expected);
}

#[test]
fn test_flatten_idempotent_concrete() {
    let schema = obj(vec![
        (
            "allOf",
            Json::Arr(vec![obj(vec![
                ("properties", obj(vec![("a", obj(vec![("type", s("string"))]))])),
                ("required", strs(vec!["a"])),
            ])]),
        ),
        ("additionalProperties", Json::Bool(true)),
    ]);
    let once = flatten_schema(&schema);
    let twice = flatten_schema(&once);
    assert_eq!(once, twice);
}

#[test]
fn test_backward_compat_added_required() {
    let old = obj(vec![
        ("properties", obj(vec![("x", obj(vec![("type", s("string"))]))])),
        ("required", strs(vec!["x"])),
    ]);
    let new = obj(vec![
        (
            "properties",
            obj(vec![
                ("x", obj(vec![("type", s("string"))])),
                ("y", obj(vec![("type", s("integer"))])),
            ]),
        ),
        ("required", strs(vec!["x", "y"])),
    ]);
    let (ok, errs) = check_backward_compatibility(&old, &new);
    assert!(!ok);
    assert_eq!(errs, vec!["Added required properties: y".to_string()]);
    let (fwd_ok, fwd_errs) = check_forward_compatibility(&old, &new);
    assert!(fwd_ok);
    assert!(fwd_errs.is_empty());
}

#[test]
fn test_compat_type_and_bounds() {
    let old = obj(vec![(
        "properties",
        obj(vec![
            ("n", obj(vec![("type", s("integer")), ("minimum", Json::Int(3))])),
            ("t", obj(vec![("type", s("string"))])),
        ]),
    )]);
    let new = obj(vec![(
        "properties",
        obj(vec![
            ("n", obj(vec![("type", s("integer")), ("minimum", Json::Int(5))])),
            ("t", obj(vec![("type", s("integer"))])),
        ]),
    )]);
    let (ok, errs) = check_backward_compatibility(&old, &new);
    assert!(!ok);
    assert_eq!(
        errs,
        vec![
            "Property 'n' minimum increased from 3 to 5".to_string(),
            "Property 't' type changed from string to integer".to_string(),
        ]
    );
}

#[test]
fn test_compat_enum_values() {
    let old = obj(vec![(
        "properties",
        obj(vec![("e", obj(vec![("type", s("string")), ("enum", strs(vec!["a", "b"]))]))]),
    )]);
    let new = obj(vec![(
        "properties",
        obj(vec![("e", obj(vec![("type", s("string")), ("enum", strs(vec!["a", "b", "c"]))]))]),
    )]);
    let (ok, errs) = check_backward_compatibility(&old, &new);
    assert!(!ok);
    assert_eq!(
        errs,
        vec!["Property 'e' added enum values: [\"c\"]".to_string()]
    );
    let (fok, ferrs) = check_forward_compatibility(&new, &old);
    assert!(!fok);
    assert_eq!(
        ferrs,
        vec!["Property 'e' removed enum values: [\"c\"]".to_string()]
    );
}

fn kind_schema(const_id: &str) -> Json {
    obj(vec![
        (
            "properties",
            obj(vec![(
                "kind",
                obj(vec![("type", s("string")), ("const", s(const_id))]),
            )]),
        ),
        ("required", strs(vec!["kind"])),
    ])
}

#[test]
fn test_cast_const_upgrade() {
    let schema_v10 = kind_schema("gts.x.a.b.t.v1.0");
    let schema_v11 = kind_schema("gts.x.a.b.t.v1.1");
    let inst = obj(vec![("kind", s("gts.x.a.b.t.v1.0"))]);
    let res = JsonEntityCastResult::cast(
        "gts.x.a.b.t.v1.0",
        "gts.x.a.b.t.v1.1",
        &inst,
        &schema_v10,
        &schema_v11,
        None,
    )
    .unwrap();
    assert_eq!(res.direction, "up");
    assert!(res.added_properties.is_empty());
    let casted = res.casted_entity.unwrap();
    match &casted {
        Json::Obj(entries) => {
            assert_eq!(entries.len(), 1);
            assert_eq!(entries[0].0, "kind");
            assert_eq!(entries[0].1, s("gts.x.a.b.t.v1.1"));
        }
        other => panic!("unexpected {:?}", other),
    }
}

#[test]
fn test_cast_fills_defaults_and_prunes() {
    let target = obj(vec![
        (
            "properties",
            obj(vec![
                ("a", obj(vec![("type", s("string")), ("default", s("filled"))])),
                ("b", obj(vec![("type", s("integer"))])),
            ]),
        ),
        ("required", strs(vec!["a", "b"])),
        ("additionalProperties", Json::Bool(false)),
    ]);
    let inst = obj(vec![("extra", Json::Int(1)), ("b", Json::Int(2))]);
    let res = JsonEntityCastResult::cast(
        "gts.x.a.b.t.v1.0",
        "gts.x.a.b.t.v1.1",
        &inst,
        &target,
        &target,
        None,
    )
    .unwrap();
    assert_eq!(res.added_properties, vec!["a".to_string()]);
    assert_eq!(res.removed_properties, vec!["extra".to_string()]);
    assert!(res.incompatibility_reasons.is_empty());
    let casted = res.casted_entity.unwrap();
    let expected = obj(vec![("b", Json::Int(2)), ("a", s("filled"))]);
    assert_eq!(casted, expected);
}

#[test]
fn test_cast_missing_required_reason() {
    let target = obj(vec![
        ("properties", obj(vec![("a", obj(vec![("type", s("string"))]))])),
        ("required", strs(vec!["a"])),
    ]);
    let inst = obj(vec![]);
    let res = JsonEntityCastResult::cast(
        "gts.x.a.b.t.v1.0",
        "gts.x.a.b.t.v1.0",
        &inst,
        &target,
        &target,
        None,
    )
    .unwrap();
    assert_eq!(res.direction, "none");
    assert_eq!(
        res.incompatibility_reasons,
        vec!["Missing required property 'a' and no default is defined".to_string()]
    );
}

#[test]
fn test_cast_missing_required_undeclared() {
    // A required name that `properties` does not declare still yields the
    // missing-required diagnostic.
    let target = obj(vec![("required", strs(vec!["a"]))]);
    let inst = obj(vec![]);
    let res = JsonEntityCastResult::cast(
        "gts.x.a.b.t.v1.0",
        "gts.x.a.b.t.v1.0",
        &inst,
        &target,
        &target,
        None,
    )
    .unwrap();
    assert_eq!(
        res.incompatibility_reasons,
        vec!["Missing required property 'a' and no default is defined".to_string()]
    );
    // The entity itself is unchanged: the missing default is a
    // diagnostic, not a transformation.
    assert_eq!(res.casted_entity.unwrap(), obj(vec![]));
    assert!(res.added_properties.is_empty());
    assert!(res.removed_properties.is_empty());
}

#[test]
fn test_cast_missing_required_non_object_schema() {
    // A required name whose sub-schema is not an object supplies no
    // default, so the diagnostic is emitted.
    let target = obj(vec![
        ("properties", obj(vec![("a", Json::Bool(true))])),
        ("required", strs(vec!["a"])),
    ]);
    let inst = obj(vec![]);
    let res = JsonEntityCastResult::cast(
        "gts.x.a.b.t.v1.0",
        "gts.x.a.b.t.v1.0",
        &inst,
        &target,
        &target,
        None,
    )
    .unwrap();
    assert_eq!(
        res.incompatibility_reasons,
        vec!["Missing required property 'a' and no default is defined".to_string()]
    );
}

#[test]
fn test_cast_rejects_non_object() {
    let target = obj(vec![]);
    let err = JsonEntityCastResult::cast(
        "gts.x.a.b.t.v1.0",
        "gts.x.a.b.t.v1.1",
        &Json::Int(7),
        &target,
        &target,
        None,
    )
    .unwrap_err();
    assert!(matches!(err, SchemaCastError::InstanceMustBeObject));
    assert_eq!(err.message(), "Instance must be an object for casting");
}

#[test]
fn test_infer_direction() {
    assert_eq!(
        JsonEntityCastResult::infer_direction("gts.x.a.b.t.v1.0", "gts.x.a.b.t.v1.1"),
        "up"
    );
    assert_eq!(
        JsonEntityCastResult::infer_direction("gts.x.a.b.t.v1.1", "gts.x.a.b.t.v1.0"),
        "down"
    );
    assert_eq!(
        JsonEntityCastResult::infer_direction("gts.x.a.b.t.v1.1", "gts.x.a.b.t.v1.1"),
        "none"
    );
    assert_eq!(
        JsonEntityCastResult::infer_direction("gts.x.a.b.t.v1", "gts.x.a.b.t.v1.1"),
        "unknown"
    );
    assert_eq!(
        JsonEntityCastResult::infer_direction("junk", "gts.x.a.b.t.v1.1"),
        "unknown"
    );
}

#[test]
fn test_cast_nested_object_and_array() {
    let target = obj(vec![
        (
            "properties",
            obj(vec![
                (
                    "inner",
                    obj(vec![
                        ("type", s("object")),
                        (
                            "properties",
                            obj(vec![("z", obj(vec![("default", Json::Int(9))]))]),
                        ),
                        ("required", strs(vec!["z"])),
                    ]),
                ),
                (
                    "list",
                    obj(vec![
                        ("type", s("array")),
                        (
                            "items",
                            obj(vec![
                                ("type", s("object")),
                                (
                                    "properties",
                                    obj(vec![("w", obj(vec![("default", s("d"))]))]),
                                ),
                                ("required", strs(vec!["w"])),
                            ]),
                        ),
                    ]),
                ),
            ]),
        ),
        ("required", strs(vec![])),
    ]);
    let inst = obj(vec![
        ("inner", obj(vec![])),
        ("list", Json::Arr(vec![obj(vec![]), Json::Int(5)])),
    ]);
    let res = JsonEntityCastResult::cast(
        "gts.x.a.b.t.v1.0",
        "gts.x.a.b.t.v1.1",
        &inst,
        &target,
        &target,
        None,
    )
    .unwrap();
    assert_eq!(
        res.added_properties,
        vec!["inner.z".to_string(), "list[0].w".to_string()]
    );
    let casted = res.casted_entity.unwrap();
    let expected = obj(vec![
        ("inner", obj(vec![("z", Json::Int(9))])),
        (
            "list",
            Json::Arr(vec![obj(vec![("w", s("d"))]), Json::Int(5)]),
        ),
    ]);
    assert_eq!(casted, expected);
}

#[test]
fn test_to_dict_shape() {
    let target = obj(vec![("properties", obj(vec![]))]);
    let inst = obj(vec![("k", Json::Int(1))]);
    let res = JsonEntityCastResult::cast(
        "gts.x.a.b.t.v1.0",
        "gts.x.a.b.t.v1.1",
        &inst,
        &target,
        &target,
        None,
    )
    .unwrap();
    let dict = res.to_dict();
    match &dict {
        Json::Obj(entries) => {
            let keys: Vec<&str> = entries.iter().map(|(k, _)| k.as_str()).collect();
            assert_eq!(
                keys,
                vec![
                    "from",
                    "to",
                    "old",
                    "new",
                    "direction",
                    "added_properties",
                    "removed_properties",
                    "changed_properties",
                    "is_fully_compatible",
                    "is_backward_compatible",
                    "is_forward_compatible",
                    "incompatibility_reasons",
                    "backward_errors",
                    "forward_errors",
                    "casted_entity",
                ]
            );
            assert_eq!(entries[0].1, s("gts.x.a.b.t.v1.0"));
            assert_eq!(entries[4].1, s("up"));
        }
        other => panic!("unexpected {:?}", other),
    }
}

#[test]
fn test_cast_idempotent_when_schemas_equal() {
    let schema = obj(vec![
        (
            "properties",
            obj(vec![
                ("a", obj(vec![("type", s("string"))])),
                ("b", obj(vec![("type", s("integer"))])),
            ]),
        ),
        ("required", strs(vec!["a"])),
        ("additionalProperties", Json::Bool(false)),
    ]);
    let inst = obj(vec![("a", s("hello")), ("b", Json::Int(4))]);
    let res = JsonEntityCastResult::cast(
        "gts.x.a.b.t.v1.0",
        "gts.x.a.b.t.v1.0",
        &inst,
        &schema,
        &schema,
        None,
    )
    .unwrap();
    assert_eq!(res.casted_entity.unwrap(), inst);
    assert!(res.added_properties.is_empty());
    assert!(res.removed_properties.is_empty());
}
