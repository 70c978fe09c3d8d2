use fishy::commit::Commit;
use fishy::current::get_current_schemas;
use fishy::diff::get_diff;
use fishy::executor::{execute_plan, Progress};
use fishy::previous::{FieldDocument, PendingSchema, PreviousSchemas};
use fishy::schema_file::{
    FieldType, RelationId, RelationSchema, RelationType, SchemaDefinition, SchemaField, SchemaFields,
    SchemaFile,
};
use p2panda_rs::api::publish;
use p2panda_rs::document::traits::AsDocument;
use p2panda_rs::entry::traits::AsEncodedEntry;
use p2panda_rs::entry::EncodedEntry;
use p2panda_rs::identity::KeyPair;
use p2panda_rs::operation::EncodedOperation;
use p2panda_rs::schema::SchemaId;
use p2panda_rs::storage_provider::traits::DocumentStore;
use p2panda_rs::test_utils::memory_store::helpers::send_to_store;
use p2panda_rs::test_utils::memory_store::MemoryStore;
use std::future::Future;
use std::sync::Arc;
use std::task::{Context, Poll, Wake, Waker};

struct Idle;

impl Wake for Idle {
    fn wake(self: Arc<Self>) {}
}

fn block_on<F: Future>(future: F) -> F::Output {
    let waker = Waker::from(Arc::new(Idle));
    let mut context = Context::from_waker(&waker);
    let mut future = Box::pin(future);
    loop {
        if let Poll::Ready(output) = future.as_mut().poll(&mut context) {
            return output;
        }
    }
}

fn file(description: &str, fields: &[(&str, FieldType)]) -> SchemaFile {
    let entries = fields
        .iter()
        .map(|(name, field_type)| {
            (name.to_string(), SchemaField::Field { field_type: *field_type })
        })
        .collect();
    SchemaFile {
        entries: vec![(
            "cafe".to_string(),
            SchemaDefinition {
                description: description.to_string(),
                fields: SchemaFields { entries },
            },
        )],
    }
}

/// Publishes commits in a new store and reads the schemas back.
async fn materialize(store: &MemoryStore, commits: &[Commit]) -> PreviousSchemas {
    for commit in commits {
        let checked = commit.check().unwrap();
        publish(
            store,
            checked.schema,
            &EncodedEntry::from_bytes(&commit.entry),
            &checked.operation,
            &EncodedOperation::from_bytes(&commit.operation),
        )
        .await
        .unwrap();
    }
    let mut previous = PreviousSchemas::new();
    let definitions =
        store.get_documents_by_schema(&SchemaId::SchemaDefinition(1)).await.unwrap();
    for definition in definitions {
        if let Some(mut pending) = PendingSchema::begin(definition.view()).unwrap() {
            while let Some(id) = pending.next_field() {
                let found = store.get_document_by_view_id(&id).await.unwrap().unwrap();
                pending.add_field(FieldDocument::View(found.view().unwrap())).unwrap();
            }
            pending.assemble(&mut previous).unwrap();
        }
    }
    previous
}

async fn update(key_pair: &KeyPair, commits: &[Commit], file: &SchemaFile) -> Vec<Commit> {
    let store = MemoryStore::default();
    let previous = materialize(&store, commits).await;
    let plans = get_diff(previous, get_current_schemas(file).unwrap()).unwrap();
    let mut progress = execute_plan(&plans).unwrap();
    loop {
        match progress {
            Progress::Done(commits) => return commits,
            Progress::Publish(pending) => {
                let prepared = pending.operation();
                let (entry, _) =
                    send_to_store(&store, &prepared.operation, prepared.schema, key_pair)
                        .await
                        .unwrap();
                progress = pending.commit(&entry.into_bytes()).unwrap();
            }
        }
    }
}

fn related_file(city_fields: &[(&str, FieldType)]) -> SchemaFile {
    let basic = |fields: &[(&str, FieldType)]| -> Vec<(String, SchemaField)> {
        fields
            .iter()
            .map(|(name, field_type)| {
                (name.to_string(), SchemaField::Field { field_type: *field_type })
            })
            .collect()
    };
    let mut venue = basic(&[("title", FieldType::String)]);
    venue.push((
        "city".to_string(),
        SchemaField::Relation {
            field_type: RelationType::Relation,
            schema: RelationSchema { id: RelationId::Name("city".to_string()) },
        },
    ));
    let definition = |description: &str, entries: Vec<(String, SchemaField)>| SchemaDefinition {
        description: description.to_string(),
        fields: SchemaFields { entries },
    };
    SchemaFile {
        entries: vec![
            ("venue".to_string(), definition("Venues", venue)),
            ("city".to_string(), definition("Cities", basic(city_fields))),
        ],
    }
}

#[test]
fn related_schemas_are_all_created() {
    block_on(async {
        let key_pair = KeyPair::new();
        let first = related_file(&[("name", FieldType::String)]);

        // City field, city, two venue fields and venue
        let mut commits = update(&key_pair, &[], &first).await;
        assert_eq!(commits.len(), 5);
        let store = MemoryStore::default();
        let previous = materialize(&store, &commits).await;
        assert_eq!(previous.len(), 2);
        let city = previous.get("city").unwrap();
        let venue = previous.get("venue").unwrap();
        assert_eq!(city.schema_view.description, "Cities");
        assert_eq!(city.schema_field_views[0].name, "name");
        assert_eq!(venue.schema_view.description, "Venues");
        assert_eq!(venue.schema_field_views[0].name, "title");
        assert_eq!(venue.schema_field_views[1].name, "city");
        assert_eq!(
            venue.schema_field_views[1].field_type.text(),
            format!("relation(city_{})", city.schema_view.view_id)
        );

        // Nothing has changed
        assert!(update(&key_pair, &commits, &first).await.is_empty());

        // A changed field reaches the schemas that depend on it
        let second = related_file(&[("name", FieldType::Integer)]);
        let more = update(&key_pair, &commits, &second).await;
        assert_eq!(more.len(), 4);
        commits.extend(more);
        assert!(update(&key_pair, &commits, &second).await.is_empty());
    });
}

#[test]
fn updates_build_on_each_other() {
    block_on(async {
        let key_pair = KeyPair::new();
        let first = file("Places", &[("name", FieldType::String), ("open", FieldType::Boolean)]);

        // Everything is new
        let mut commits = update(&key_pair, &[], &first).await;
        assert_eq!(commits.len(), 3);

        // Nothing has changed
        assert!(update(&key_pair, &commits, &first).await.is_empty());

        // One field has another type, one is new and one is gone
        let second = file("Places", &[("name", FieldType::Float), ("size", FieldType::Integer)]);
        let more = update(&key_pair, &commits, &second).await;
        assert_eq!(more.len(), 3);
        commits.extend(more);
        assert!(update(&key_pair, &commits, &second).await.is_empty());

        // The description changes
        let third = file("Bars", &[("name", FieldType::Float), ("size", FieldType::Integer)]);
        let more = update(&key_pair, &commits, &third).await;
        assert_eq!(more.len(), 1);
        commits.extend(more);

        let store = MemoryStore::default();
        let previous = materialize(&store, &commits).await;
        assert_eq!(previous.len(), 1);
        let cafe = previous.get("cafe").unwrap();
        assert_eq!(cafe.schema_view.description, "Bars");
        assert_eq!(cafe.schema_field_views.len(), 2);
        assert_eq!(cafe.schema_field_views[0].field_type.text(), "float");
        assert_eq!(cafe.schema_field_views[1].name, "size");
        assert_eq!(cafe.schema_view.view_id, commits[6].entry_hash);
    });
}
