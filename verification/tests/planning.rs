use fishy::current::{get_current_schemas, CurrentSchema};
use fishy::diff::{get_diff, get_schema_diffs, is_plannable, FieldTypeDiff, SchemaDiff};
use fishy::error::UpdateError;
use fishy::graph::sort_schemas;
use fishy::panda::{PandaFieldType, Schema, SchemaFieldView, SchemaId, SchemaView};
use fishy::previous::{PreviousSchema, PreviousSchemas};
use fishy::relations::{check_links, find_current_schema, has_links_to};
use fishy::schema_file::{
    is_schema_name_valid, FieldType, RelationId, RelationSchema, RelationType, SchemaDefinition,
    SchemaField, SchemaFields, SchemaFile,
};

fn text(field_name: &str) -> (String, SchemaField) {
    (field_name.to_string(), SchemaField::Field { field_type: FieldType::String })
}

fn relation(field_name: &str, id: RelationId) -> (String, SchemaField) {
    (
        field_name.to_string(),
        SchemaField::Relation {
            field_type: RelationType::RelationList,
            schema: RelationSchema { id },
        },
    )
}

fn link(field_name: &str, schema: &str) -> (String, SchemaField) {
    relation(field_name, RelationId::Name(schema.to_string()))
}

fn definition(description: &str, entries: Vec<(String, SchemaField)>) -> SchemaDefinition {
    SchemaDefinition { description: description.to_string(), fields: SchemaFields { entries } }
}

fn schema(name: &str, entries: Vec<(String, SchemaField)>) -> CurrentSchema {
    CurrentSchema::new(
        &name.to_string(),
        &format!("About {name}"),
        &SchemaFields { entries },
    )
}

fn names(diffs: &[SchemaDiff]) -> Vec<&str> {
    diffs.iter().map(|diff| diff.name.as_str()).collect()
}

fn previous(name: &str, field_names: &[&str]) -> PreviousSchema {
    let view = SchemaView {
        view_id: format!("{name}_view"),
        name: name.to_string(),
        description: "Earlier".to_string(),
        fields: field_names.iter().map(|field| format!("{field}_view")).collect(),
    };
    let fields: Vec<SchemaFieldView> = field_names
        .iter()
        .map(|field| SchemaFieldView {
            id: format!("{field}_view"),
            name: field.to_string(),
            field_type: PandaFieldType::Boolean,
        })
        .collect();
    let schema = Schema {
        id: SchemaId::Application(name.to_string(), view.view_id.clone()),
    };
    PreviousSchema::new(&schema, &view, &fields)
}

#[test]
fn empty_schema_file_is_refused() {
    let file = SchemaFile { entries: vec![] };
    assert!(matches!(file.check_not_empty(), Err(UpdateError::EmptySchemaFile)));
    let file = SchemaFile {
        entries: vec![("cafe".to_string(), definition("Places", vec![text("name")]))],
    };
    assert!(file.check_not_empty().is_ok());
}

fn places(names: &[&str], description: &str, field_names: &[&str]) -> SchemaFile {
    let entries = names
        .iter()
        .map(|name| {
            let fields = field_names.iter().map(|field| text(field)).collect();
            (name.to_string(), definition(description, fields))
        })
        .collect();
    SchemaFile { entries }
}

#[test]
fn names_in_a_valid_file_are_valid_and_differ() {
    assert!(places(&[], "Places", &[]).is_valid());
    assert!(places(&["cafe", "ca", "Bar_2"], "Places", &["name", "city"]).is_valid());
    assert!(places(&[&"c".repeat(64)], &"\u{fc}".repeat(256), &["name"]).is_valid());

    assert!(!places(&["cafe", "bar", "cafe"], "Places", &["name"]).is_valid());
    assert!(!places(&["cafe"], "Places", &["name", "city", "name"]).is_valid());
    assert!(!places(&["cafe"], &"p".repeat(257), &["name"]).is_valid());
    for name in ["", "c", "2cafe", "_cafe", "cafe_", "ca-fe", "caf\u{e9}", &"c".repeat(65)] {
        assert!(!places(&["bar", name], "Places", &["name"]).is_valid());
        assert!(!is_schema_name_valid(name));
    }
}

#[test]
fn current_schemas_keep_the_order_of_the_file() {
    let file = SchemaFile {
        entries: vec![
            ("venue".to_string(), definition("Venues", vec![text("title"), text("city")])),
            ("cafe".to_string(), definition("Places", vec![text("name")])),
        ],
    };
    let schemas = get_current_schemas(&file).unwrap();
    assert_eq!(schemas.len(), 2);
    assert_eq!(schemas[0].name, "venue");
    assert_eq!(schemas[0].description, "Venues");
    assert_eq!(schemas[0].fields.entries.len(), 2);
    assert_eq!(schemas[0].fields.entries[1].0, "city");
    assert_eq!(schemas[1].name, "cafe");
    assert_eq!(schemas[1].description, "Places");
}

#[test]
fn first_schema_without_fields_is_named() {
    let file = SchemaFile {
        entries: vec![
            ("cafe".to_string(), definition("Places", vec![text("name")])),
            ("void".to_string(), definition("Nothing", vec![])),
            ("blank".to_string(), definition("Nothing", vec![])),
        ],
    };
    match get_current_schemas(&file) {
        Err(UpdateError::NoFields(name)) => assert_eq!(name, "void"),
        other => panic!("unexpected {other:?}"),
    }
}

#[test]
fn relation_by_id_is_refused() {
    let schemas = vec![
        schema("a", vec![link("b", "a")]),
        schema("b", vec![relation("c", RelationId::Id("c_0020".to_string()))]),
    ];
    assert!(matches!(sort_schemas(&schemas), Err(UpdateError::RelationById)));
    assert!(matches!(
        get_diff(PreviousSchemas::new(), schemas),
        Err(UpdateError::RelationById)
    ));
}

#[test]
fn cycles_are_refused() {
    let circle = vec![
        schema("a", vec![link("to_b", "b")]),
        schema("b", vec![link("to_c", "c")]),
        schema("c", vec![text("title"), link("to_a", "a")]),
        schema("d", vec![text("title")]),
    ];
    assert!(matches!(
        get_diff(PreviousSchemas::new(), circle),
        Err(UpdateError::CyclicRelations)
    ));
    let own = vec![schema("a", vec![link("parent", "a")])];
    assert!(matches!(sort_schemas(&own), Err(UpdateError::CyclicRelations)));
}

#[test]
fn schemas_come_behind_those_they_relate_to() {
    let schemas = vec![
        schema("tour", vec![link("stops", "venue"), link("band", "band")]),
        schema("venue", vec![link("city", "city"), link("other", "city")]),
        schema("city", vec![text("title")]),
        schema("band", vec![text("title")]),
    ];
    let names = sort_schemas(&schemas).unwrap();
    assert_eq!(names.groups, vec!["tour"]);
    let mut first = names.sorted[0..2].to_vec();
    first.sort();
    assert_eq!(first, vec!["band", "city"]);
    assert_eq!(names.sorted[2..], ["venue", "tour"]);
}

#[test]
fn groups_are_sorted_by_name() {
    let schemas = vec![
        schema("venue", vec![text("title")]),
        schema("Zebra", vec![text("title")]),
        schema("cafe", vec![text("title")]),
        schema("caf", vec![text("title")]),
    ];
    let diffs = get_diff(PreviousSchemas::new(), schemas).unwrap();
    assert_eq!(names(&diffs), vec!["Zebra", "caf", "cafe", "venue"]);
}

#[test]
fn plan_nests_linked_schemas() {
    let a = schema(
        "a",
        vec![(
            "x".to_string(),
            SchemaField::Relation {
                field_type: RelationType::Relation,
                schema: RelationSchema { id: RelationId::Name("b".to_string()) },
            },
        )],
    );
    let b = schema(
        "b",
        vec![("y".to_string(), SchemaField::Field { field_type: FieldType::Integer })],
    );
    let schemas = vec![a, b];
    assert!(is_plannable(&schemas));
    let diffs = get_diff(PreviousSchemas::new(), schemas).unwrap();
    assert_eq!(names(&diffs), vec!["a"]);
    assert!(diffs[0].previous_schema_view.is_none());
    assert_eq!(diffs[0].current_description, "About a");
    assert_eq!(diffs[0].current_fields.len(), 1);
    assert_eq!(diffs[0].current_fields[0].name, "x");
    assert!(diffs[0].current_fields[0].previous_field_view.is_none());
    match &diffs[0].current_fields[0].current_field_type {
        FieldTypeDiff::Relation(RelationType::Relation, linked) => {
            assert_eq!(linked.name, "b");
            assert_eq!(linked.current_fields.len(), 1);
            assert_eq!(linked.current_fields[0].name, "y");
            assert!(linked.current_fields[0].previous_field_view.is_none());
            assert!(matches!(
                linked.current_fields[0].current_field_type,
                FieldTypeDiff::Field(FieldType::Integer)
            ));
        }
        other => panic!("unexpected {other:?}"),
    }
}

/// Collects the names of a diff and of all that it nests.
fn nested_names(diff: &SchemaDiff, found: &mut Vec<String>) {
    found.push(diff.name.clone());
    for field in &diff.current_fields {
        if let FieldTypeDiff::Relation(_, linked) = &field.current_field_type {
            nested_names(linked, found);
        }
    }
}

#[test]
fn no_schema_is_lost() {
    let schemas = vec![
        schema("tour", vec![link("stops", "venue"), link("band", "band")]),
        schema("venue", vec![link("city", "city")]),
        schema("label", vec![link("band", "band")]),
        schema("city", vec![text("title")]),
        schema("band", vec![text("title")]),
        schema("alone", vec![text("title")]),
    ];
    let diffs = get_diff(PreviousSchemas::new(), schemas).unwrap();
    assert_eq!(names(&diffs), vec!["alone", "label", "tour"]);
    let mut found = Vec::new();
    for diff in &diffs {
        nested_names(diff, &mut found);
    }
    found.sort();
    assert_eq!(found, vec!["alone", "band", "band", "city", "label", "tour", "venue"]);
}

#[test]
fn links_are_recognised() {
    let schemas = vec![
        schema("venue", vec![text("title"), link("city", "city")]),
        schema("city", vec![text("title")]),
    ];
    assert!(has_links_to(&schemas, &"city".to_string()));
    assert!(!has_links_to(&schemas, &"venue".to_string()));
}

#[test]
fn diffs_nest_linked_schemas() {
    let schemas = vec![
        schema("venue", vec![text("title"), link("city", "city")]),
        schema("city", vec![text("title")]),
    ];
    let sorted = sort_schemas(&schemas).unwrap().sorted;
    let diffs = get_schema_diffs(&PreviousSchemas::new(), &schemas, &sorted);
    assert_eq!(names(&diffs), vec!["city", "venue"]);
    let fields = &diffs[1].current_fields;
    assert_eq!(fields.len(), 2);
    assert!(matches!(fields[0].current_field_type, FieldTypeDiff::Field(FieldType::String)));
    match &fields[1].current_field_type {
        FieldTypeDiff::Relation(RelationType::RelationList, linked) => {
            assert_eq!(linked.name, "city");
            assert_eq!(linked.current_fields[0].name, "title");
        }
        other => panic!("unexpected {other:?}"),
    }
}

#[test]
fn unknown_links_are_found() {
    let schemas = vec![schema("venue", vec![text("title"), link("city", "city")])];
    assert!(!check_links(&schemas));
    assert!(find_current_schema(&schemas, &"city".to_string()).is_none());
    assert!(find_current_schema(&schemas, &"venue".to_string()).is_some());
}

#[test]
fn diffs_hold_previous_versions() {
    let mut previous_schemas = PreviousSchemas::new();
    previous_schemas.insert("venue".to_string(), previous("venue", &["title", "title"]));
    let schemas = vec![
        schema("venue", vec![text("title"), text("city")]),
        schema("cafe", vec![text("title")]),
    ];
    let diffs = get_diff(previous_schemas, schemas).unwrap();
    assert_eq!(names(&diffs), vec!["cafe", "venue"]);
    assert!(diffs[0].previous_schema_view.is_none());
    assert!(diffs[0].current_fields[0].previous_field_view.is_none());
    let view = diffs[1].previous_schema_view.as_ref().unwrap();
    assert_eq!(view.view_id, "venue_view");
    assert_eq!(view.description, "Earlier");
    let field = diffs[1].current_fields[0].previous_field_view.as_ref().unwrap();
    assert_eq!(field.id, "title_view");
    assert!(diffs[1].current_fields[1].previous_field_view.is_none());
}

#[test]
fn same_inputs_give_the_same_plan() {
    let make = || {
        vec![
            schema("d", vec![link("c", "c")]),
            schema("c", vec![text("title")]),
            schema("b", vec![text("title")]),
            schema("a", vec![text("title"), text("city")]),
        ]
    };
    let first = get_diff(PreviousSchemas::new(), make()).unwrap();
    let second = get_diff(PreviousSchemas::new(), make()).unwrap();
    assert_eq!(format!("{first:?}"), format!("{second:?}"));
    assert_eq!(names(&first), vec!["a", "b", "d"]);
}

#[test]
fn later_schemas_of_a_name_are_shadowed() {
    let schemas = vec![
        schema("cafe", vec![text("name")]),
        schema("cafe", vec![text("title"), text("city")]),
    ];
    let diffs = get_diff(PreviousSchemas::new(), schemas).unwrap();
    assert_eq!(diffs.len(), 1);
    assert_eq!(diffs[0].current_fields.len(), 1);
    assert_eq!(diffs[0].current_fields[0].name, "name");
}
