use myroute::{
    parse_location_text, split_coordinates, LocationError,
    check_trailing_data, default_graph_path, escape_script_data, plan_graph_path,
    push_count_change, validate_graph_size, validate_header, GraphFileError, GraphHeader,
    GraphPathPlan, GRAPH_MAGIC, GRAPH_SCHEMA_VERSION, MAX_GRAPH_FILE_SIZE_BYTES,
};

#[test]
fn import_output_replaces_final_extension() {
    assert_eq!(default_graph_path("map.osm.pbf"), "map.myroute");
}

#[test]
fn graph_paths_keep_directories_and_other_names() {
    assert_eq!(default_graph_path("data/nj.osm.pbf"), "data/nj.myroute");
    assert_eq!(default_graph_path("data/new-jersey.osm.pbf"), "data/new-jersey.myroute");
    assert_eq!(default_graph_path("maps/us/nj.osm.pbf"), "maps/us/nj.myroute");
    assert_eq!(default_graph_path("maps/us/nj.pbf"), "maps/us/nj.myroute");
    assert_eq!(default_graph_path("extract.pbf"), "extract.myroute");
    assert_eq!(default_graph_path("extract"), "extract.myroute");
    assert_eq!(
        plan_graph_path(Some("a.osm.pbf")),
        GraphPathPlan::ReplaceFileName("a.myroute".to_string())
    );
    assert_eq!(
        plan_graph_path(Some(".osm.pbf")),
        GraphPathPlan::ReplaceFileName(".myroute".to_string())
    );
    assert_eq!(plan_graph_path(Some("a.osm")), GraphPathPlan::SetExtension);
    assert_eq!(plan_graph_path(None), GraphPathPlan::SetExtension);
}

#[test]
fn html_embeds_data_safely_and_attributes_osm() {
    let data = "{\"value\":\"</script><script>alert(1)</script>&\u{2028}\"}";
    let escaped = escape_script_data(data);
    assert!(!escaped.contains("</script><script>alert"));
    assert!(escaped.contains("\\u003c/script\\u003e"));
    assert_eq!(
        escaped,
        "{\"value\":\"\\u003c/script\\u003e\\u003cscript\\u003ealert(1)\\u003c/script\\u003e\\u0026\\u2028\"}"
    );
}

#[test]
fn escaping_covers_every_unsafe_character() {
    assert_eq!(escape_script_data("a<b>c&d\u{2028}e\u{2029}"), "a\\u003cb\\u003ec\\u0026d\\u2028e\\u2029");
    assert_eq!(escape_script_data(""), "");
    assert_eq!(escape_script_data("plain é text"), "plain é text");
}

#[test]
fn count_changes_are_signed_and_skip_zero() {
    let mut changes = vec!["first".to_string()];
    push_count_change(&mut changes, "traffic lights", 3, 5);
    push_count_change(&mut changes, "left turns", 7, 7);
    push_count_change(&mut changes, "U-turns", 12, 0);
    push_count_change(&mut changes, "right turns", 0, 1000);
    assert_eq!(
        changes,
        vec![
            "first".to_string(),
            "-2 traffic lights".to_string(),
            "+12 U-turns".to_string(),
            "-1000 right turns".to_string(),
        ]
    );
    let mut big = Vec::new();
    push_count_change(&mut big, "x", usize::MAX, 0);
    assert_eq!(big, vec![format!("+{} x", usize::MAX)]);
}

#[test]
fn rejects_wrong_magic_and_version() {
    let wrong_magic = GraphHeader { magic: *b"NOTGRAPH", schema_version: GRAPH_SCHEMA_VERSION };
    assert!(matches!(
        validate_header(&wrong_magic),
        Err(GraphFileError::InvalidMagic { .. })
    ));
    let wrong_version = GraphHeader { magic: GRAPH_MAGIC, schema_version: GRAPH_SCHEMA_VERSION + 1 };
    assert!(matches!(
        validate_header(&wrong_version),
        Err(GraphFileError::UnsupportedSchemaVersion { .. })
    ));
    let good = GraphHeader { magic: *b"MYROUTE\0", schema_version: 2 };
    assert_eq!(validate_header(&good), Ok(()));
    assert_eq!(
        validate_header(&GraphHeader { magic: *b"NOTGRAPH", schema_version: 9 }),
        Err(GraphFileError::InvalidMagic { expected: GRAPH_MAGIC, actual: *b"NOTGRAPH" })
    );
}

#[test]
fn size_and_trailing_data_limits() {
    assert_eq!(MAX_GRAPH_FILE_SIZE_BYTES, 2 * 1024 * 1024 * 1024);
    assert_eq!(validate_graph_size(MAX_GRAPH_FILE_SIZE_BYTES), Ok(()));
    assert_eq!(
        validate_graph_size(MAX_GRAPH_FILE_SIZE_BYTES + 1),
        Err(GraphFileError::GraphTooLarge {
            size: MAX_GRAPH_FILE_SIZE_BYTES + 1,
            max: MAX_GRAPH_FILE_SIZE_BYTES
        })
    );
    assert_eq!(check_trailing_data(10, 10), Ok(()));
    assert_eq!(check_trailing_data(9, 10), Err(GraphFileError::TrailingData(1)));
}

#[test]
fn endpoint_text_must_be_two_values_without_letters() {
    assert_eq!(parse_location_text("40.3431, -74.6514"), Ok(("40.3431", " -74.6514")));
    assert_eq!(parse_location_text("Princeton, NJ"), Err(LocationError::PlaceName));
    assert_eq!(parse_location_text("0,1,2"), Err(LocationError::TooManyValues));
    assert_eq!(parse_location_text("4042"), Err(LocationError::MissingComma));
    assert_eq!(parse_location_text("1e5,2"), Err(LocationError::PlaceName));
    assert_eq!(split_coordinates(",5"), Ok(("", "5")));
    assert_eq!(split_coordinates("91,0"), Ok(("91", "0")));
}
