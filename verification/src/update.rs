//! What an update does, from the schemas of the user to the documents in the store.
use crate::bridge::{decoded_operation, entry_hash_text, plain_content, DocumentFieldsModel};
use crate::calls::{
    law_current_schemas_are_those_of_the_file, lemma_same_texts, lemma_type_text, links_to,
    same_field, same_fields, type_text,
};
use crate::commit::{Commit, CommitModel};
use crate::current::{get_current_schemas, CurrentSchema};
use crate::diff::{
    field_diff_models, get_diff, is_part, is_part_of_field, is_part_of_plan,
    lemma_field_diff_models, FieldDiff, FieldTypeDiff, SchemaDiff, SchemaDiffModel,
};
use crate::documents::{
    hold_previous_field, hold_previous_schema, hold_written, is_written,
    law_field_operation_writes_current, law_schema_operation_writes_current, Documents,
};
use crate::error::UpdateError;
use crate::executor::{
    execute_plan, is_finished, is_progress, records, replies_of, run_with, PendingCommit, Progress,
};
use crate::laws::law_no_schema_is_lost;
use crate::operation::{OperationModel, OperationValueModel};
use crate::panda::{
    basic_type, field_type_text, relation_type, PandaFieldType, PandaFieldTypeModel,
    SchemaFieldView, SchemaFieldViewModel, SchemaId, SchemaIdModel, SchemaView, SchemaViewModel,
    SystemSchema,
};
use crate::plan::{
    field_change, lemma_field_names, lemma_run_field, lemma_run_fields, lemma_run_plans,
    lemma_run_schema, replies_behind, run_field, run_fields, run_plans, run_schema, schema_change,
    Run,
};
use crate::planned::{
    compares, compares_field, is_first_named, is_first_view, is_named, is_wanted, is_wanted_field,
    law_plan_compares_committed_and_wanted_schemas, leads, lemma_links, only_leads_to_schemas,
    same_field_view,
};
use crate::previous::{
    field_document, previous_model, schema_document, PreviousSchema, PreviousSchemas,
};
use crate::published::{
    are_new_entries, law_published_documents_hold_what_was_written, with_all_published,
};
use crate::schema_file::{
    FieldName, FieldType, RelationId, RelationType, SchemaDefinition, SchemaField, SchemaFields,
    SchemaFile, SchemaName,
};
use vstd::prelude::*;

verus! {

/// The text form of a basic type.
pub open spec fn basic_text(field_type: FieldType) -> Seq<char> {
    match field_type {
        FieldType::String => "str"@,
        FieldType::Boolean => "bool"@,
        FieldType::Float => "float"@,
        FieldType::Integer => "int"@,
    }
}

/// The text form of a relation of this kind to the version `view_id` of the schema `name`.
pub open spec fn relation_text(
    kind: RelationType,
    name: Seq<char>,
    view_id: Seq<char>,
) -> Seq<char> {
    let id = if view_id.len() == 0 {
        name
    } else {
        name + "_"@ + view_id
    };
    match kind {
        RelationType::Relation => "relation("@ + id + ")"@,
        RelationType::RelationList => "relation_list("@ + id + ")"@,
        RelationType::PinnedRelation => "pinned_relation("@ + id + ")"@,
        RelationType::PinnedRelationList => "pinned_relation_list("@ + id + ")"@,
    }
}

/// The text of the type that the user wants for a field, where `linked` is the version of the schema
/// that it links to.
pub open spec fn wanted_text(field: SchemaField, linked: Seq<char>) -> Seq<char> {
    match field {
        SchemaField::Field { field_type } => basic_text(field_type),
        SchemaField::Relation { field_type, schema } => match schema.id {
            RelationId::Name(name) => relation_text(field_type, name@, linked),
            RelationId::Id(id) => Seq::empty(),
        },
    }
}

/// A field has the type that the user wants, where `linked` is the version of the schema that it
/// links to.
pub open spec fn has_wanted_type(
    field: SchemaField,
    linked: Seq<char>,
    field_type: PandaFieldType,
) -> bool {
    match (field, field_type) {
        (SchemaField::Field { field_type: FieldType::String }, PandaFieldType::String) => true,
        (SchemaField::Field { field_type: FieldType::Boolean }, PandaFieldType::Boolean) => true,
        (SchemaField::Field { field_type: FieldType::Float }, PandaFieldType::Float) => true,
        (SchemaField::Field { field_type: FieldType::Integer }, PandaFieldType::Integer) => true,
        (
            SchemaField::Relation { field_type: RelationType::Relation, schema },
            PandaFieldType::Relation(id),
        ) => is_version_of_linked(schema.id, linked, id),
        (
            SchemaField::Relation { field_type: RelationType::RelationList, schema },
            PandaFieldType::RelationList(id),
        ) => is_version_of_linked(schema.id, linked, id),
        (
            SchemaField::Relation { field_type: RelationType::PinnedRelation, schema },
            PandaFieldType::PinnedRelation(id),
        ) => is_version_of_linked(schema.id, linked, id),
        (
            SchemaField::Relation { field_type: RelationType::PinnedRelationList, schema },
            PandaFieldType::PinnedRelationList(id),
        ) => is_version_of_linked(schema.id, linked, id),
        _ => false,
    }
}

/// The id is that of the version `linked` of the schema that a relation refers to by name.
pub open spec fn is_version_of_linked(relation: RelationId, linked: Seq<char>, id: SchemaId) -> bool {
    &&& relation matches RelationId::Name(name)
    &&& id matches SchemaId::Application(id_name, view_id)
    &&& id_name@ == name@
    &&& view_id@ == linked
}

/// The operation that a commit holds.
pub open spec fn operation_of(commit: Commit) -> Option<OperationModel> {
    match decoded_operation(commit.operation@) {
        Ok(plain) => plain_content(plain).operation,
        Err(_) => None,
    }
}

/// One of the commits created a document of this schema, in the version `id`.
pub open spec fn is_created(commits: Seq<Commit>, schema: SystemSchema, id: Seq<char>) -> bool {
    exists|k: int|
        {
            &&& 0 <= k < commits.len()
            &&& (#[trigger] commits[k]).entry_hash@ == id
            &&& operation_of(commits[k]) matches Some(OperationModel::Create { schema: of, .. })
            &&& of == schema
        }
}

/// One of the commits updated the version `earlier` of a document of this schema to the version `id`
/// and wrote these fields.
pub open spec fn is_updated(
    commits: Seq<Commit>,
    schema: SystemSchema,
    earlier: Seq<char>,
    id: Seq<char>,
    written: Set<Seq<char>>,
) -> bool {
    exists|k: int|
        {
            &&& 0 <= k < commits.len()
            &&& (#[trigger] commits[k]).entry_hash@ == id
            &&& operation_of(commits[k]) matches Some(
                OperationModel::Update { schema: of, previous, fields },
            )
            &&& of == schema
            &&& previous == earlier
            &&& fields.dom() == written
        }
}

/// Where two of these versions were committed, the first one of them was committed earlier.
pub open spec fn are_in_order(commits: Seq<Commit>, ids: Seq<Seq<char>>) -> bool {
    forall|i: int, j: int, a: int, b: int|
        #![trigger ids[i], ids[j], commits[a], commits[b]]
        0 <= i < j < ids.len() && 0 <= a < commits.len() && 0 <= b < commits.len()
            && commits[a].entry_hash@ == ids[i] && commits[b].entry_hash@ == ids[j] ==> a < b
}

/// The document has this text in the field `name`.
pub open spec fn has_text(fields: DocumentFieldsModel, name: Seq<char>, text: Seq<char>) -> bool {
    fields.contains_key(name) && fields[name] == Some(OperationValueModel::String(text))
}

/// The document has this pinned relation list in the field `name`.
pub open spec fn has_list(
    fields: DocumentFieldsModel,
    name: Seq<char>,
    ids: Seq<Seq<char>>,
) -> bool {
    fields.contains_key(name) && fields[name] == Some(OperationValueModel::PinnedRelationList(ids))
}

/// What was there before an update, what it committed and what is there after it.
pub struct Update {
    /// Previous schemas by name.
    pub previous: Map<Seq<char>, PreviousSchema>,
    /// Schemas that the user wants.
    pub current: Seq<CurrentSchema>,
    pub commits: Seq<Commit>,
    /// Documents after the update, by view id.
    pub documents: Documents,
    /// Names of schemas, with the versions that their definitions came to.
    pub versions: Set<(Seq<char>, Seq<char>)>,
}

/// A definition of a field of the schema `schema` came to the version `id`: the document has the name
/// of the field and exactly the type that the user wants, with the version that the linked schema
/// came to, which was committed before. Where the field has a previous version, that one stays as it
/// is if it has the wanted type, and else is updated, and only its type written. A document is
/// created exactly where there was no previous version.
pub open spec fn is_field_version(
    update: Update,
    schema: Seq<char>,
    name: Seq<char>,
    field: SchemaField,
    id: Seq<char>,
) -> bool {
    exists|linked: Seq<char>| #[trigger]
        is_field_version_with(update, schema, name, field, id, linked)
}

/// The same, where `linked` is the version that the linked schema came to.
pub open spec fn is_field_version_with(
    update: Update,
    schema: Seq<char>,
    name: Seq<char>,
    field: SchemaField,
    id: Seq<char>,
    linked: Seq<char>,
) -> bool {
    &&& field matches SchemaField::Relation { schema: relation, .. } ==> {
        &&& relation.id matches RelationId::Name(to)
        &&& update.versions.contains((to@, linked))
        &&& are_in_order(update.commits, seq![linked, id])
    }
    &&& update.documents.contains_key(id)
    &&& update.documents[id].dom() == set!["name"@, "type"@]
    &&& has_text(update.documents[id], "name"@, name)
    &&& has_text(update.documents[id], "type"@, wanted_text(field, linked))
    &&& if update.previous.contains_key(schema) && exists|k: int| #[trigger]
        is_first_view(update.previous[schema].schema_field_views@, name, k) {
        forall|k: int| #[trigger]
            is_first_view(update.previous[schema].schema_field_views@, name, k) ==> {
                let view = update.previous[schema].schema_field_views@[k];
                if has_wanted_type(field, linked, view.field_type) {
                    id == view.id@
                } else {
                    is_updated(
                        update.commits,
                        SystemSchema::SchemaFieldDefinition(1),
                        view.id@,
                        id,
                        set!["type"@],
                    )
                }
            }
    } else {
        is_created(update.commits, SystemSchema::SchemaFieldDefinition(1), id)
    }
}

/// The definition of a schema came to the version `id`: the document has its name, its description
/// and, in their order, the definitions of its fields, which were committed before, one after the
/// other. Where the schema has a previous version, that one stays as it is if it has this description
/// and these fields, and else is updated, and only what differs written, also where fields were
/// added, removed, renamed or reordered. A document is created exactly where there was no previous
/// version.
pub open spec fn is_schema_version(
    update: Update,
    name: Seq<char>,
    description: Seq<char>,
    fields: SchemaFields,
    id: Seq<char>,
) -> bool {
    exists|ids: Seq<Seq<char>>| #[trigger]
        is_schema_version_with(update, name, description, fields, id, ids)
}

/// The same, where `ids` are the versions that the definitions of the fields came to.
pub open spec fn is_schema_version_with(
    update: Update,
    name: Seq<char>,
    description: Seq<char>,
    fields: SchemaFields,
    id: Seq<char>,
    ids: Seq<Seq<char>>,
) -> bool {
    &&& update.documents.contains_key(id)
    &&& update.documents[id].dom() == set!["name"@, "description"@, "fields"@]
    &&& has_text(update.documents[id], "name"@, name)
    &&& has_text(update.documents[id], "description"@, description)
    &&& has_list(update.documents[id], "fields"@, ids)
    &&& ids.len() == fields.entries@.len()
    &&& are_in_order(update.commits, ids.push(id))
    &&& forall|i: int|
        0 <= i < ids.len() ==> is_field_version(
            update,
            name,
            fields.entries@[i].0@,
            fields.entries@[i].1,
            #[trigger] ids[i],
        )
    &&& if update.previous.contains_key(name) {
        let view = update.previous[name].schema_view;
        if view.description@ == description && is_list_of(view.fields@, ids) {
            id == view.view_id@
        } else {
            is_updated(
                update.commits,
                SystemSchema::SchemaDefinition(1),
                view.view_id@,
                id,
                differing(view, description, ids),
            )
        }
    } else {
        is_created(update.commits, SystemSchema::SchemaDefinition(1), id)
    }
}

/// The fields in which the wanted version of a schema differs from the previous one.
pub open spec fn differing(
    view: SchemaView,
    description: Seq<char>,
    ids: Seq<Seq<char>>,
) -> Set<Seq<char>> {
    let other_description = if view.description@ == description {
        Set::empty()
    } else {
        set!["description"@]
    };
    if is_list_of(view.fields@, ids) {
        other_description
    } else {
        other_description.insert("fields"@)
    }
}

/// The list holds these texts.
pub open spec fn is_list_of(list: Seq<String>, texts: Seq<Seq<char>>) -> bool {
    list.len() == texts.len() && forall|i: int|
        0 <= i < list.len() ==> (#[trigger] list[i])@ == texts[i]
}

/// Everything that the user wants came to a version of its own: each version is that of a schema of
/// the user, each schema of the user has one, and each commit brought about the version of a schema
/// or of one of its fields.
pub open spec fn is_done(update: Update) -> bool {
    &&& forall|name: Seq<char>, id: Seq<char>| #[trigger]
        update.versions.contains((name, id)) ==> is_version(update, name, id)
    &&& forall|n: int|
        0 <= n < update.current.len() ==> has_version(update, (#[trigger] update.current[n]).name@)
    &&& forall|k: int|
        0 <= k < update.commits.len() ==> is_brought_about(
            update,
            (#[trigger] update.commits[k]).entry_hash@,
        )
}

/// The definition of a schema of this name came to a version.
pub open spec fn has_version(update: Update, name: Seq<char>) -> bool {
    exists|id: Seq<char>| #[trigger] update.versions.contains((name, id))
}

/// The version is that of the first schema of this name.
pub open spec fn is_version(update: Update, name: Seq<char>, id: Seq<char>) -> bool {
    exists|n: int| #[trigger]
        is_first_named(update.current, name, n) && is_schema_version(
            update,
            name,
            update.current[n].description@,
            update.current[n].fields,
            id,
        )
}

/// The schemas of the diffs came to their versions one after the other.
pub open spec fn are_executed_in_order(update: Update, diffs: Seq<SchemaDiff>) -> bool {
    exists|ids: Seq<Seq<char>>|
        {
            &&& ids.len() == diffs.len()
            &&& forall|i: int|
                0 <= i < diffs.len() ==> update.versions.contains(
                    (diffs[i].name@, #[trigger] ids[i]),
                )
            &&& #[trigger] are_in_order(update.commits, ids)
        }
}

/// A definition of a schema came to this version, or pins it.
pub open spec fn is_brought_about(update: Update, id: Seq<char>) -> bool {
    exists|name: Seq<char>, version: Seq<char>| #[trigger]
        update.versions.contains((name, version)) && (version == id || pins(
            update.documents,
            version,
            id,
        ))
}

/// The definition `version` of a schema pins the definition `id` of a field.
pub open spec fn pins(documents: Documents, version: Seq<char>, id: Seq<char>) -> bool {
    exists|ids: Seq<Seq<char>>|
        documents.contains_key(version) && #[trigger] has_list(
            documents[version],
            "fields"@,
            ids,
        ) && ids.contains(id)
}

/// The documents hold what was committed of a schema earlier, under its own name.
spec fn is_held(documents: Documents, name: Seq<char>, schema: PreviousSchema) -> bool {
    &&& schema.schema_view.name@ == name
    &&& documents.contains_key(schema.schema_view.view_id@)
    &&& documents[schema.schema_view.view_id@] == schema_document(schema.schema_view.deep_view())
    &&& forall|k: int|
        0 <= k < schema.schema_field_views@.len() ==> {
            &&& documents.contains_key((#[trigger] schema.schema_field_views@[k]).id@)
            &&& documents[schema.schema_field_views@[k].id@] == field_document(
                schema.schema_field_views@[k].deep_view(),
            )
        }
}

/// The commits record the operations, and the documents hold what was there before and what the
/// operations wrote.
spec fn is_recorded(
    update: Update,
    operations: Seq<OperationModel>,
    replies: Seq<Seq<char>>,
) -> bool {
    &&& operations.len() == update.commits.len()
    &&& replies.len() == update.commits.len()
    &&& forall|k: int|
        0 <= k < update.commits.len() ==> operation_of(#[trigger] update.commits[k]) == Some(
            operations[k],
        ) && update.commits[k].entry_hash@ == replies[k]
    &&& hold_written(update.documents, operations, replies)
    &&& replies.no_duplicates()
    &&& forall|name: Seq<char>| #[trigger]
        update.previous.contains_key(name) ==> is_held(
            update.documents,
            name,
            update.previous[name],
        ) && is_earlier(replies, update.previous[name])
}

/// The definitions of a previous schema were not committed now.
spec fn is_earlier(replies: Seq<Seq<char>>, schema: PreviousSchema) -> bool {
    &&& !replies.contains(schema.schema_view.view_id@)
    &&& forall|k: int|
        0 <= k < schema.schema_field_views@.len() ==> !replies.contains(
            (#[trigger] schema.schema_field_views@[k]).id@,
        )
}

/// The version was not committed now, or in this part of the execution.
spec fn is_at(replies: Seq<Seq<char>>, id: Seq<char>, from: int, to: int) -> bool {
    !replies.contains(id) || exists|p: int|
        from <= p < to && 0 <= p < replies.len() && #[trigger] replies[p] == id
}

/// All versions were not committed now, or in this part of the execution.
spec fn are_at(replies: Seq<Seq<char>>, ids: Seq<Seq<char>>, from: int, to: int) -> bool {
    forall|i: int| 0 <= i < ids.len() ==> is_at(replies, #[trigger] ids[i], from, to)
}

/// A version that was committed behind all others comes last.
proof fn lemma_in_order(
    update: Update,
    operations: Seq<OperationModel>,
    replies: Seq<Seq<char>>,
    ids: Seq<Seq<char>>,
    id: Seq<char>,
    from: int,
    at: int,
    to: int,
)
    requires
        is_recorded(update, operations, replies),
        are_in_order(update.commits, ids),
        are_at(replies, ids, from, at),
        is_at(replies, id, at, to),
    ensures
        are_in_order(update.commits, ids.push(id)),
{
    let all = ids.push(id);
    let commits = update.commits;
    assert forall|i: int, j: int, a: int, b: int|
        #![trigger all[i], all[j], commits[a], commits[b]]
        0 <= i < j < all.len() && 0 <= a < commits.len() && 0 <= b < commits.len()
            && commits[a].entry_hash@ == all[i] && commits[b].entry_hash@ == all[j] implies a < b by {
        assert(all[i] == ids[i]);
        assert(replies[a] == all[i] && replies[b] == all[j]);
        if j < ids.len() {
            assert(all[j] == ids[j]);
        } else {
            assert(is_at(replies, ids[i], from, at));
            assert(replies.contains(ids[i]) && replies.contains(id));
        }
    }
}

/// The run is finished, and its operations stand at this place.
spec fn stands_at(run: Run, operations: Seq<OperationModel>, place: int) -> bool {
    &&& run.view_ids is Some
    &&& 0 <= place
    &&& place + run.operations.len() <= operations.len()
    &&& forall|i: int|
        0 <= i < run.operations.len() ==> #[trigger] run.operations[i] == operations[place + i]
}

/// The versions that the execution of a schema comes to, with those of all that it links to.
spec fn versions_of(diff: SchemaDiff, replies: Seq<Seq<char>>) -> Set<(Seq<char>, Seq<char>)>
    decreases diff,
{
    versions_of_fields(diff.current_fields@, replies).insert(
        (diff.name@, run_schema(diff.deep_view(), replies).view_ids->0[0]),
    )
}

spec fn versions_of_fields(diffs: Seq<FieldDiff>, replies: Seq<Seq<char>>) -> Set<
    (Seq<char>, Seq<char>),
>
    decreases diffs,
{
    if diffs.len() == 0 {
        Set::empty()
    } else {
        versions_of_fields(diffs.drop_last(), replies).union(
            versions_of_field(
                diffs.last(),
                replies_behind(run_fields(field_diff_models(diffs.drop_last()), replies), replies),
            ),
        )
    }
}

spec fn versions_of_field(diff: FieldDiff, replies: Seq<Seq<char>>) -> Set<(Seq<char>, Seq<char>)>
    decreases diff,
{
    match diff.current_field_type {
        FieldTypeDiff::Field(_) => Set::empty(),
        FieldTypeDiff::Relation(_, schema) => versions_of(schema, replies),
    }
}

/// What the user wants came to these versions.
spec fn are_versions(update: Update, versions: Set<(Seq<char>, Seq<char>)>) -> bool {
    forall|name: Seq<char>, id: Seq<char>| #[trigger]
        versions.contains((name, id)) ==> is_version(update, name, id)
}

/// What the document of a schema holds.
proof fn lemma_schema_document(view: SchemaViewModel)
    ensures
        schema_document(view).dom() == set!["name"@, "description"@, "fields"@],
        has_text(schema_document(view), "name"@, view.name),
        has_text(schema_document(view), "description"@, view.description),
        has_list(schema_document(view), "fields"@, view.fields),
{
    lemma_field_names();
    assert(schema_document(view).dom() =~= set!["name"@, "description"@, "fields"@]);
}

/// What the document of a field holds.
proof fn lemma_field_document(view: SchemaFieldViewModel)
    ensures
        field_document(view).dom() == set!["name"@, "type"@],
        has_text(field_document(view), "name"@, view.name),
        has_text(field_document(view), "type"@, field_type_text(view.field_type)),
{
    lemma_field_names();
    assert(field_document(view).dom() =~= set!["name"@, "type"@]);
}

/// The materialized type that the diff of a field comes to.
pub(crate) open spec fn type_of_diff(diff: FieldDiff, linked: Seq<char>) -> PandaFieldTypeModel {
    match diff.current_field_type {
        FieldTypeDiff::Field(field_type) => basic_type(field_type),
        FieldTypeDiff::Relation(kind, schema) => relation_type(
            kind,
            SchemaIdModel::Application(schema.name@, linked),
        ),
    }
}

/// The type that the diff of a field comes to is the one that the user wants.
pub(crate) proof fn lemma_wanted_type(
    entry: (FieldName, SchemaField),
    diff: FieldDiff,
    linked: Seq<char>,
    field_type: PandaFieldType,
)
    requires
        is_wanted_field(entry, diff),
    ensures
        field_type_text(type_of_diff(diff, linked)) == wanted_text(entry.1, linked),
        field_type.deep_view() == type_of_diff(diff, linked) <==> has_wanted_type(
            entry.1,
            linked,
            field_type,
        ),
{
}

/// The execution of a field whose linked schema came to `linked` at the operations behind `place`.
proof fn lemma_own_operation_of_field(
    update: Update,
    operations: Seq<OperationModel>,
    replies: Seq<Seq<char>>,
    schema: Seq<char>,
    entry: (FieldName, SchemaField),
    diff: FieldDiff,
    linked: Seq<char>,
    change: Option<OperationModel>,
    from: int,
    place: int,
    id: Seq<char>,
)
    requires
        is_recorded(update, operations, replies),
        is_wanted_field(entry, diff),
        compares_field(update.previous, update.current, schema, diff),
        diff.current_field_type matches FieldTypeDiff::Relation(_, inner)
            ==> update.versions.contains((inner.name@, linked)),
        change == field_change(
            diff.name@,
            diff.previous_field_view.deep_view(),
            type_of_diff(diff, linked),
        ),
        change is Some ==> 0 <= place < operations.len() && operations[place] == change->0 && id
            == replies[place],
        change is None ==> id == (diff.previous_field_view->0).id@,
        diff.current_field_type is Relation ==> is_at(replies, linked, from, place),
        0 <= from <= place,
    ensures
        is_field_version(update, schema, entry.0@, entry.1, id),
        is_at(replies, id, place, place + if change is Some {
            1int
        } else {
            0int
        }),
{
    let field_type = type_of_diff(diff, linked);
    let name = entry.0@;
    let view = SchemaFieldViewModel { id, name, field_type };
    let committed = update.previous[schema].schema_field_views@;
    lemma_field_document(view);
    lemma_wanted_type(entry, diff, linked, PandaFieldType::Boolean);
    if change is Some {
        assert(is_written(update.documents, change->0, replies[place]));
        assert(update.commits[place].entry_hash@ == id);
        law_field_operation_writes_current(
            diff.name@,
            diff.previous_field_view.deep_view(),
            field_type,
            id,
        );
    }
    if change is None {
        let earlier = diff.previous_field_view->0;
        assert(is_earlier(replies, update.previous[schema]));
        let k = choose|k: int| #[trigger]
            is_first_view(committed, diff.name@, k) && same_field_view(earlier, committed[k]);
        assert(!replies.contains(committed[k].id@));
    }
    if diff.current_field_type is Relation {
        lemma_in_order(
            update,
            operations,
            replies,
            seq![linked],
            id,
            from,
            place,
            place + if change is Some {
                1int
            } else {
                0int
            },
        );
        assert(seq![linked].push(id) =~= seq![linked, id]);
    }
    match diff.previous_field_view {
        Some(earlier) => {
            assert(diff.previous_field_view.deep_view() == Some(earlier.deep_view()));
            let k = choose|k: int| #[trigger]
                is_first_view(committed, diff.name@, k) && same_field_view(earlier, committed[k]);
            assert(is_held(update.documents, schema, update.previous[schema]));
            assert(earlier.deep_view() == committed[k].deep_view());
            lemma_wanted_type(entry, diff, linked, committed[k].field_type);
            assert forall|other: int| #[trigger] is_first_view(committed, name, other) implies other
                == k by {
                if other < k {
                    assert(committed[other].name@ != name);
                } else if k < other {
                    assert(committed[k].name@ != name);
                }
            }
            assert(update.documents[id] == field_document(view));
            if change is Some {
                assert(change->0->Update_fields.dom() =~= set!["type"@]);
                assert(is_updated(
                    update.commits,
                    SystemSchema::SchemaFieldDefinition(1),
                    committed[k].id@,
                    id,
                    set!["type"@],
                ));
            }
        },
        None => {
            assert(diff.previous_field_view.deep_view() is None);
            assert(update.documents[id] == field_document(view));
            if update.previous.contains_key(schema) {
                assert forall|k: int| !#[trigger] is_first_view(committed, name, k) by {
                    if is_first_view(committed, name, k) {
                        assert(committed[k].name@ != name);
                    }
                }
            }
            assert(is_created(update.commits, SystemSchema::SchemaFieldDefinition(1), id));
        },
    }
    assert(is_field_version_with(update, schema, name, entry.1, id, linked));
}

/// The execution of a schema whose fields came to `ids` at the operations behind `place`.
proof fn lemma_own_operation_of_schema(
    update: Update,
    operations: Seq<OperationModel>,
    replies: Seq<Seq<char>>,
    diff: SchemaDiff,
    n: int,
    ids: Seq<Seq<char>>,
    change: Option<OperationModel>,
    from: int,
    place: int,
    id: Seq<char>,
)
    requires
        is_recorded(update, operations, replies),
        compares(update.previous, update.current, diff),
        is_first_named(update.current, diff.name@, n),
        is_wanted(update.current[n], diff),
        ids.len() == diff.current_fields@.len(),
        forall|i: int|
            0 <= i < ids.len() ==> is_field_version(
                update,
                diff.name@,
                update.current[n].fields.entries@[i].0@,
                update.current[n].fields.entries@[i].1,
                #[trigger] ids[i],
            ),
        change == schema_change(
            diff.name@,
            diff.previous_schema_view.deep_view(),
            diff.current_description@,
            ids,
        ),
        change is Some ==> 0 <= place < operations.len() && operations[place] == change->0 && id
            == replies[place],
        change is None ==> id == (diff.previous_schema_view->0).view_id@,
        are_in_order(update.commits, ids),
        are_at(replies, ids, from, place),
        0 <= from <= place,
    ensures
        is_version(update, diff.name@, id),
        is_at(replies, id, place, place + if change is Some {
            1int
        } else {
            0int
        }),
        has_list(update.documents[id], "fields"@, ids),
        update.documents.contains_key(id),
{
    let name = diff.name@;
    let description = diff.current_description@;
    let view = SchemaViewModel { view_id: id, name, description, fields: ids };
    lemma_schema_document(view);
    if change is Some {
        assert(is_written(update.documents, change->0, replies[place]));
        assert(update.commits[place].entry_hash@ == id);
        law_schema_operation_writes_current(
            name,
            diff.previous_schema_view.deep_view(),
            description,
            ids,
            id,
        );
    }
    if change is None {
        assert(is_earlier(replies, update.previous[name]));
    }
    lemma_in_order(
        update,
        operations,
        replies,
        ids,
        id,
        from,
        place,
        place + if change is Some {
            1int
        } else {
            0int
        },
    );
    match diff.previous_schema_view {
        Some(earlier) => {
            let committed = update.previous[name].schema_view;
            assert(diff.previous_schema_view.deep_view() == Some(earlier.deep_view()));
            assert(is_held(update.documents, name, update.previous[name]));
            lemma_same_texts(earlier.fields, committed.fields);
            assert(earlier.deep_view() == committed.deep_view());
            lemma_list_of(committed.fields, ids);
            assert(update.documents[id] == schema_document(view));
            if change is Some {
                lemma_field_names();
                assert(change->0->Update_fields.dom() =~= differing(committed, description, ids));
                assert(is_updated(
                    update.commits,
                    SystemSchema::SchemaDefinition(1),
                    committed.view_id@,
                    id,
                    differing(committed, description, ids),
                ));
            }
        },
        None => {
            assert(diff.previous_schema_view.deep_view() is None);
            assert(update.documents[id] == schema_document(view));
            assert(is_created(update.commits, SystemSchema::SchemaDefinition(1), id));
        },
    }
    assert(is_schema_version_with(
        update,
        name,
        description,
        update.current[n].fields,
        id,
        ids,
    ));
}

proof fn lemma_list_of(list: Vec<String>, texts: Seq<Seq<char>>)
    ensures
        list.deep_view() == texts <==> is_list_of(list@, texts),
{
    if list.deep_view() == texts {
        assert forall|i: int| 0 <= i < list@.len() implies (#[trigger] list@[i])@ == texts[i] by {
            assert(list.deep_view()[i] == texts[i]);
        }
    }
    if is_list_of(list@, texts) {
        assert(list.deep_view() =~= texts);
    }
}

/// The operations of these places brought about versions, or the given ones.
spec fn are_brought_about(
    update: Update,
    replies: Seq<Seq<char>>,
    from: int,
    to: int,
    ids: Seq<Seq<char>>,
) -> bool {
    forall|k: int|
        from <= k < to ==> is_brought_about(update, #[trigger] replies[k]) || ids.contains(
            replies[k],
        )
}

/// Executing a schema brings about the versions that the user wants.
proof fn lemma_schema_versions(
    update: Update,
    operations: Seq<OperationModel>,
    replies: Seq<Seq<char>>,
    diff: SchemaDiff,
    place: int,
)
    requires
        is_recorded(update, operations, replies),
        compares(update.previous, update.current, diff),
        0 <= place <= replies.len(),
        stands_at(run_schema(diff.deep_view(), replies.skip(place)), operations, place),
        versions_of(diff, replies.skip(place)).subset_of(update.versions),
    ensures
        are_versions(update, versions_of(diff, replies.skip(place))),
        are_brought_about(
            update,
            replies,
            place,
            place + run_schema(diff.deep_view(), replies.skip(place)).operations.len(),
            Seq::empty(),
        ),
        is_at(
            replies,
            run_schema(diff.deep_view(), replies.skip(place)).view_ids->0[0],
            place,
            place + run_schema(diff.deep_view(), replies.skip(place)).operations.len(),
        ),
    decreases diff,
{
    let local = replies.skip(place);
    let model = diff.deep_view();
    let run = run_schema(model, local);
    let fields = run_fields(model.fields, local);
    let ids = fields.view_ids->0;
    let count = fields.operations.len() as int;
    let change = schema_change(model.name, model.previous, model.description, ids);
    let id = run.view_ids->0[0];
    let n = choose|n: int| #[trigger]
        is_first_named(update.current, diff.name@, n) && is_wanted(update.current[n], diff);
    let entries = update.current[n].fields.entries@;
    lemma_run_schema(model, local);
    lemma_run_fields(model.fields, local);
    lemma_field_diff_models(diff.current_fields@);
    assert(fields.view_ids is Some);
    assert forall|i: int| 0 <= i < count implies #[trigger] fields.operations[i]
        == operations[place + i] by {
        assert(run.operations[i] == fields.operations[i]);
    }
    assert(versions_of_fields(diff.current_fields@, local).subset_of(update.versions));
    lemma_fields_versions(
        update,
        operations,
        replies,
        diff.name@,
        entries,
        diff.current_fields@,
        place,
    );
    if change is Some {
        assert(run.operations[count] == change->0);
        assert(id == local[count]);
    }
    lemma_own_operation_of_schema(
        update,
        operations,
        replies,
        diff,
        n,
        ids,
        change,
        place,
        place + count,
        id,
    );
    assert(update.versions.contains((diff.name@, id)));
    assert forall|k: int| place <= k < place + run.operations.len() implies is_brought_about(
        update,
        #[trigger] replies[k],
    ) by {
        if ids.contains(replies[k]) {
            assert(pins(update.documents, id, replies[k]));
        }
    }
}

proof fn lemma_fields_versions(
    update: Update,
    operations: Seq<OperationModel>,
    replies: Seq<Seq<char>>,
    schema: Seq<char>,
    entries: Seq<(FieldName, SchemaField)>,
    diffs: Seq<FieldDiff>,
    place: int,
)
    requires
        is_recorded(update, operations, replies),
        forall|i: int|
            0 <= i < diffs.len() ==> compares_field(
                update.previous,
                update.current,
                schema,
                #[trigger] diffs[i],
            ),
        entries.len() == diffs.len(),
        forall|i: int| 0 <= i < diffs.len() ==> is_wanted_field(entries[i], #[trigger] diffs[i]),
        0 <= place <= replies.len(),
        stands_at(run_fields(field_diff_models(diffs), replies.skip(place)), operations, place),
        versions_of_fields(diffs, replies.skip(place)).subset_of(update.versions),
    ensures
        run_fields(field_diff_models(diffs), replies.skip(place)).view_ids->0.len() == diffs.len(),
        forall|i: int|
            0 <= i < diffs.len() ==> is_field_version(
                update,
                schema,
                entries[i].0@,
                entries[i].1,
                #[trigger] run_fields(
                    field_diff_models(diffs),
                    replies.skip(place),
                ).view_ids->0[i],
            ),
        are_versions(update, versions_of_fields(diffs, replies.skip(place))),
        are_brought_about(
            update,
            replies,
            place,
            place + run_fields(field_diff_models(diffs), replies.skip(place)).operations.len(),
            run_fields(field_diff_models(diffs), replies.skip(place)).view_ids->0,
        ),
        are_in_order(
            update.commits,
            run_fields(field_diff_models(diffs), replies.skip(place)).view_ids->0,
        ),
        are_at(
            replies,
            run_fields(field_diff_models(diffs), replies.skip(place)).view_ids->0,
            place,
            place + run_fields(field_diff_models(diffs), replies.skip(place)).operations.len(),
        ),
    decreases diffs,
{
    let local = replies.skip(place);
    let models = field_diff_models(diffs);
    let run = run_fields(models, local);
    lemma_run_fields(models, local);
    lemma_field_diff_models(diffs);
    if diffs.len() > 0 {
        let front_diffs = diffs.drop_last();
        let front_entries = entries.drop_last();
        let front_models = field_diff_models(front_diffs);
        let last_diff = diffs[diffs.len() - 1];
        let last_entry = entries[entries.len() - 1];
        let front = run_fields(front_models, local);
        let left = replies_behind(front, local);
        assert(models.drop_last() =~= front_models);
        assert(models.last() == last_diff.deep_view());
        let last = run_field(last_diff.deep_view(), left);
        let count = front.operations.len() as int;
        lemma_run_fields(front_models, local);
        assert(front.view_ids is Some && last.view_ids is Some);
        assert(left =~= replies.skip(place + count));
        assert forall|i: int| 0 <= i < count implies #[trigger] front.operations[i]
            == operations[place + i] by {
            assert(run.operations[i] == front.operations[i]);
        }
        assert forall|i: int| 0 <= i < last.operations.len() implies #[trigger] last.operations[i]
            == operations[place + count + i] by {
            assert(run.operations[count + i] == last.operations[i]);
        }
        assert forall|i: int| 0 <= i < front_diffs.len() implies compares_field(
            update.previous,
            update.current,
            schema,
            #[trigger] front_diffs[i],
        ) && is_wanted_field(front_entries[i], front_diffs[i]) by {
            assert(front_diffs[i] == diffs[i]);
        }
        lemma_fields_versions(
            update,
            operations,
            replies,
            schema,
            front_entries,
            front_diffs,
            place,
        );
        assert(decreases_to!(diffs => diffs[diffs.len() - 1]));
        assert(compares_field(update.previous, update.current, schema, last_diff));
        assert(is_wanted_field(last_entry, last_diff));
        lemma_field_versions(
            update,
            operations,
            replies,
            schema,
            last_entry,
            last_diff,
            place + count,
        );
        lemma_run_field(last_diff.deep_view(), left);
        let front_ids = front.view_ids->0;
        let last_ids = last.view_ids->0;
        let ids = run.view_ids->0;
        assert(ids == front_ids + last_ids);
        lemma_in_order(
            update,
            operations,
            replies,
            front_ids,
            last_ids[0],
            place,
            place + count,
            place + run.operations.len(),
        );
        assert(ids =~= front_ids.push(last_ids[0]));
        assert forall|i: int| 0 <= i < ids.len() implies is_at(
            replies,
            #[trigger] ids[i],
            place,
            place + run.operations.len(),
        ) by {
            if i < front_ids.len() {
                assert(is_at(replies, front_ids[i], place, place + count));
            }
        }
        assert forall|i: int| 0 <= i < diffs.len() implies is_field_version(
            update,
            schema,
            entries[i].0@,
            entries[i].1,
            #[trigger] ids[i],
        ) by {
            if i < front_diffs.len() {
                assert(ids[i] == front_ids[i]);
                assert(front_entries[i] == entries[i]);
            } else {
                assert(ids[i] == last_ids[0]);
            }
        }
        assert forall|k: int| place <= k < place + run.operations.len() implies is_brought_about(
            update,
            #[trigger] replies[k],
        ) || ids.contains(replies[k]) by {
            if k < place + count {
                if front_ids.contains(replies[k]) {
                    assert(ids[front_ids.index_of(replies[k])] == replies[k]);
                }
            } else {
                if last_ids.contains(replies[k]) {
                    assert(ids[front_ids.len() + last_ids.index_of(replies[k])] == replies[k]);
                }
            }
        }
    }
}

proof fn lemma_field_versions(
    update: Update,
    operations: Seq<OperationModel>,
    replies: Seq<Seq<char>>,
    schema: Seq<char>,
    entry: (FieldName, SchemaField),
    diff: FieldDiff,
    place: int,
)
    requires
        is_recorded(update, operations, replies),
        compares_field(update.previous, update.current, schema, diff),
        is_wanted_field(entry, diff),
        0 <= place <= replies.len(),
        stands_at(run_field(diff.deep_view(), replies.skip(place)), operations, place),
        versions_of_field(diff, replies.skip(place)).subset_of(update.versions),
    ensures
        is_field_version(
            update,
            schema,
            entry.0@,
            entry.1,
            run_field(diff.deep_view(), replies.skip(place)).view_ids->0[0],
        ),
        are_versions(update, versions_of_field(diff, replies.skip(place))),
        are_brought_about(
            update,
            replies,
            place,
            place + run_field(diff.deep_view(), replies.skip(place)).operations.len(),
            run_field(diff.deep_view(), replies.skip(place)).view_ids->0,
        ),
        is_at(
            replies,
            run_field(diff.deep_view(), replies.skip(place)).view_ids->0[0],
            place,
            place + run_field(diff.deep_view(), replies.skip(place)).operations.len(),
        ),
    decreases diff,
{
    let local = replies.skip(place);
    let model = diff.deep_view();
    let run = run_field(model, local);
    let id = run.view_ids->0[0];
    lemma_run_field(model, local);
    match diff.current_field_type {
        FieldTypeDiff::Field(_) => {
            let linked = Seq::<char>::empty();
            let change = field_change(model.name, model.previous, type_of_diff(diff, linked));
            if change is Some {
                assert(run.operations[0] == change->0);
            }
            lemma_own_operation_of_field(
                update,
                operations,
                replies,
                schema,
                entry,
                diff,
                linked,
                change,
                place,
                place,
                id,
            );
            assert forall|k: int| place <= k < place + run.operations.len() implies run.view_ids->0.contains(
                #[trigger] replies[k],
            ) by {
                assert(run.view_ids->0[0] == replies[k]);
            }
        },
        FieldTypeDiff::Relation(_, inner) => {
            let inner_run = run_schema(inner.deep_view(), local);
            let linked = inner_run.view_ids->0[0];
            let count = inner_run.operations.len() as int;
            let change = field_change(model.name, model.previous, type_of_diff(diff, linked));
            lemma_run_schema(inner.deep_view(), local);
            assert forall|i: int| 0 <= i < count implies #[trigger] inner_run.operations[i]
                == operations[place + i] by {
                assert(run.operations[i] == inner_run.operations[i]);
            }
            lemma_schema_versions(update, operations, replies, inner, place);
            assert(update.versions.contains((inner.name@, linked)));
            if change is Some {
                assert(run.operations[count] == change->0);
            }
            lemma_own_operation_of_field(
                update,
                operations,
                replies,
                schema,
                entry,
                diff,
                linked,
                change,
                place,
                place + count,
                id,
            );
            assert forall|k: int|
                place <= k < place + run.operations.len() implies is_brought_about(
                update,
                #[trigger] replies[k],
            ) || run.view_ids->0.contains(replies[k]) by {
                if k >= place + count {
                    assert(run.view_ids->0[0] == replies[k]);
                }
            }
        },
    }
}

/// What diffs stand for.
spec fn models_of(plans: Seq<SchemaDiff>) -> Seq<SchemaDiffModel> {
    plans.map_values(|diff: SchemaDiff| diff.deep_view())
}

/// The versions that the execution of plans comes to.
spec fn versions_of_plans(plans: Seq<SchemaDiff>, replies: Seq<Seq<char>>) -> Set<
    (Seq<char>, Seq<char>),
>
    decreases plans.len(),
{
    if plans.len() == 0 {
        Set::empty()
    } else {
        versions_of_plans(plans.drop_last(), replies).union(
            versions_of(
                plans.last(),
                replies_behind(run_plans(models_of(plans.drop_last()), replies), replies),
            ),
        )
    }
}

proof fn lemma_plans_versions(
    update: Update,
    operations: Seq<OperationModel>,
    replies: Seq<Seq<char>>,
    plans: Seq<SchemaDiff>,
)
    requires
        is_recorded(update, operations, replies),
        forall|i: int|
            0 <= i < plans.len() ==> compares(
                update.previous,
                update.current,
                #[trigger] plans[i],
            ),
        stands_at(run_plans(models_of(plans), replies), operations, 0),
        versions_of_plans(plans, replies).subset_of(update.versions),
    ensures
        are_versions(update, versions_of_plans(plans, replies)),
        are_brought_about(
            update,
            replies,
            0,
            run_plans(models_of(plans), replies).operations.len() as int,
            Seq::empty(),
        ),
        run_plans(models_of(plans), replies).view_ids->0.len() == plans.len(),
        forall|i: int|
            0 <= i < plans.len() ==> versions_of_plans(plans, replies).contains(
                (
                    plans[i].name@,
                    #[trigger] run_plans(models_of(plans), replies).view_ids->0[i],
                ),
            ),
        are_in_order(update.commits, run_plans(models_of(plans), replies).view_ids->0),
        are_at(
            replies,
            run_plans(models_of(plans), replies).view_ids->0,
            0,
            run_plans(models_of(plans), replies).operations.len() as int,
        ),
    decreases plans.len(),
{
    if plans.len() > 0 {
        let models = models_of(plans);
        let run = run_plans(models, replies);
        let front_plans = plans.drop_last();
        let last_plan = plans[plans.len() - 1];
        let front = run_plans(models_of(front_plans), replies);
        let left = replies_behind(front, replies);
        let count = front.operations.len() as int;
        assert(models.drop_last() =~= models_of(front_plans));
        assert(models.last() == last_plan.deep_view());
        let last = run_schema(last_plan.deep_view(), left);
        lemma_run_plans(models_of(front_plans), replies);
        assert(front.view_ids is Some && last.view_ids is Some);
        assert(left == replies.skip(count));
        assert forall|i: int| 0 <= i < count implies #[trigger] front.operations[i]
            == operations[0 + i] by {
            assert(run.operations[i] == front.operations[i]);
        }
        assert forall|i: int| 0 <= i < last.operations.len() implies #[trigger] last.operations[i]
            == operations[count + i] by {
            assert(run.operations[count + i] == last.operations[i]);
        }
        assert forall|i: int| 0 <= i < front_plans.len() implies compares(
            update.previous,
            update.current,
            #[trigger] front_plans[i],
        ) by {
            assert(front_plans[i] == plans[i]);
        }
        lemma_plans_versions(update, operations, replies, front_plans);
        assert(compares(update.previous, update.current, last_plan));
        lemma_schema_versions(update, operations, replies, last_plan, count);
        lemma_run_schema(last_plan.deep_view(), left);
        let front_ids = front.view_ids->0;
        let id = last.view_ids->0[0];
        let ids = run.view_ids->0;
        assert(ids =~= front_ids.push(id));
        lemma_in_order(
            update,
            operations,
            replies,
            front_ids,
            id,
            0,
            count,
            run.operations.len() as int,
        );
        assert forall|i: int| 0 <= i < plans.len() implies versions_of_plans(
            plans,
            replies,
        ).contains((plans[i].name@, #[trigger] ids[i])) && is_at(
            replies,
            ids[i],
            0,
            run.operations.len() as int,
        ) by {
            if i < front_plans.len() {
                assert(ids[i] == front_ids[i]);
                assert(front_plans[i] == plans[i]);
                assert(is_at(replies, front_ids[i], 0, count));
            } else {
                assert(versions_of(last_plan, left).contains((last_plan.name@, id)));
            }
        }
        let nothing = Seq::<Seq<char>>::empty();
        assert forall|k: int| 0 <= k < run.operations.len() implies is_brought_about(
            update,
            #[trigger] replies[k],
        ) by {
            assert(!nothing.contains(replies[k]));
        }
    }
}

/// What is part of a plan comes to a version.
proof fn lemma_part_has_version(
    diff: SchemaDiff,
    part: SchemaDiffModel,
    replies: Seq<Seq<char>>,
) -> (id: Seq<char>)
    requires
        is_part(diff.deep_view(), part),
    ensures
        versions_of(diff, replies).contains((part.name, id)),
    decreases diff,
{
    let model = diff.deep_view();
    if model == part {
        run_schema(model, replies).view_ids->0[0]
    } else {
        lemma_field_diff_models(diff.current_fields@);
        let i = choose|i: int|
            0 <= i < model.fields.len() && is_part_of_field(#[trigger] model.fields[i], part);
        assert(model.fields[i] == diff.current_fields@[i].deep_view());
        lemma_part_of_field_has_version(diff.current_fields@, i, part, replies)
    }
}

proof fn lemma_part_of_field_has_version(
    diffs: Seq<FieldDiff>,
    index: int,
    part: SchemaDiffModel,
    replies: Seq<Seq<char>>,
) -> (id: Seq<char>)
    requires
        0 <= index < diffs.len(),
        is_part_of_field(diffs[index].deep_view(), part),
    ensures
        versions_of_fields(diffs, replies).contains((part.name, id)),
    decreases diffs,
{
    let front = diffs.drop_last();
    if index < diffs.len() - 1 {
        assert(front[index] == diffs[index]);
        lemma_part_of_field_has_version(front, index, part, replies)
    } else {
        let last = diffs[diffs.len() - 1];
        let left = replies_behind(run_fields(field_diff_models(front), replies), replies);
        assert(decreases_to!(diffs => diffs[diffs.len() - 1]));
        assert(last.current_field_type is Relation);
        let inner = last.current_field_type->Relation_1;
        let id = lemma_part_has_version(inner, part, left);
        assert(versions_of_field(diffs.last(), left).contains((part.name, id)));
        id
    }
}

proof fn lemma_planned_has_version(
    plans: Seq<SchemaDiff>,
    index: int,
    part: SchemaDiffModel,
    replies: Seq<Seq<char>>,
) -> (id: Seq<char>)
    requires
        0 <= index < plans.len(),
        is_part(plans[index].deep_view(), part),
    ensures
        versions_of_plans(plans, replies).contains((part.name, id)),
    decreases plans.len(),
{
    let front = plans.drop_last();
    if index < plans.len() - 1 {
        assert(front[index] == plans[index]);
        lemma_planned_has_version(front, index, part, replies)
    } else {
        let left = replies_behind(run_plans(models_of(front), replies), replies);
        lemma_part_has_version(plans[plans.len() - 1], part, left)
    }
}

/// Plans were executed: publishing each operation brought back an entry, which was committed before
/// the execution went on.
pub open spec fn is_execution(
    plans: Vec<SchemaDiff>,
    entries: Seq<Vec<u8>>,
    progress: Seq<Result<Progress, UpdateError>>,
) -> bool {
    &&& progress.len() == entries.len() + 1
    &&& call_ensures(execute_plan, (&plans,), progress[0])
    &&& forall|k: int|
        0 <= k < entries.len() ==> is_committed(
            #[trigger] progress[k],
            entries[k],
            progress[k + 1],
        )
}

/// An operation was to be published, and committing its entry gave `later`.
pub open spec fn is_committed(
    earlier: Result<Progress, UpdateError>,
    entry: Vec<u8>,
    later: Result<Progress, UpdateError>,
) -> bool {
    earlier matches Ok(Progress::Publish(pending)) && call_ensures(
        PendingCommit::commit,
        (pending, &entry),
        later,
    )
}

/// The operation that was to be published after so many entries.
pub open spec fn pending_at(progress: Seq<Result<Progress, UpdateError>>, k: int) -> PendingCommit {
    progress[k]->Ok_0->Publish_0
}

/// How far an execution got behind its first entries.
pub(crate) proof fn lemma_execution(
    plans: Vec<SchemaDiff>,
    entries: Seq<Vec<u8>>,
    progress: Seq<Result<Progress, UpdateError>>,
    count: int,
) -> (commits: Seq<CommitModel>)
    requires
        is_execution(plans, entries, progress),
        0 <= count <= entries.len(),
    ensures
        is_progress(plans.deep_view(), commits, progress[count]),
        commits.len() == count,
        forall|k: int| 0 <= k < count ==> (#[trigger] commits[k]).entry == entries[k]@,
        forall|k: int|
            0 <= k < count ==> (#[trigger] commits[k]).entry_hash == entry_hash_text(entries[k]@),
        forall|k: int|
            0 <= k < count ==> (#[trigger] commits[k]).operation
                == pending_at(progress, k).prepared_operation().encoded@,
    decreases count,
{
    if count == 0 {
        Seq::empty()
    } else {
        let commits = lemma_execution(plans, entries, progress, count - 1);
        let earlier = progress[count - 1];
        assert(is_committed(earlier, entries[count - 1], progress[count - 1 + 1]));
        let pending = earlier->Ok_0->Publish_0;
        commits.push(
            CommitModel {
                entry_hash: entry_hash_text(entries[count - 1]@),
                entry: entries[count - 1]@,
                operation: pending.prepared_operation().encoded@,
            },
        )
    }
}

/// Every entry is committed, with its hash and in its order.
pub proof fn law_every_entry_is_committed(
    plans: Vec<SchemaDiff>,
    entries: Seq<Vec<u8>>,
    progress: Seq<Result<Progress, UpdateError>>,
)
    requires
        is_execution(plans, entries, progress),
    ensures
        progress.last() matches Ok(Progress::Done(commits)) ==> commits@.len() == entries.len()
            && forall|k: int|
            0 <= k < entries.len() ==> (#[trigger] commits@[k]).entry@ == entries[k]@
                && commits@[k].entry_hash@ == entry_hash_text(entries[k]@),
{
    let models = lemma_execution(plans, entries, progress, entries.len() as int);
    if let Ok(Progress::Done(commits)) = progress.last() {
        assert(commits.deep_view().len() == models.len());
        assert forall|k: int| 0 <= k < entries.len() implies (#[trigger] commits@[k]).entry@
            == entries[k]@ && commits@[k].entry_hash@ == entry_hash_text(entries[k]@) by {
            assert(commits.deep_view()[k] == commits@[k].deep_view());
        }
    }
}

/// The texts in a list.
pub open spec fn texts_of(list: Seq<String>) -> Seq<Seq<char>> {
    list.map_values(|text: String| text@)
}

/// The documents hold the definition of a schema.
pub open spec fn hold_schema_view(documents: Documents, view: SchemaView) -> bool {
    &&& documents.contains_key(view.view_id@)
    &&& documents[view.view_id@].dom() == set!["name"@, "description"@, "fields"@]
    &&& has_text(documents[view.view_id@], "name"@, view.name@)
    &&& has_text(documents[view.view_id@], "description"@, view.description@)
    &&& has_list(documents[view.view_id@], "fields"@, texts_of(view.fields@))
}

/// The documents hold the definition of a field.
pub open spec fn hold_field_view(documents: Documents, view: SchemaFieldView) -> bool {
    &&& documents.contains_key(view.id@)
    &&& documents[view.id@].dom() == set!["name"@, "type"@]
    &&& has_text(documents[view.id@], "name"@, view.name@)
    &&& has_text(documents[view.id@], "type"@, type_text(view.field_type))
}

/// The documents hold the definitions of all previous schemas and of their fields, and each schema
/// is kept under its own name.
pub open spec fn hold_previous(
    documents: Documents,
    previous: Map<Seq<char>, PreviousSchema>,
) -> bool {
    forall|name: Seq<char>| #[trigger]
        previous.contains_key(name) ==> {
            &&& previous[name].schema_view.name@ == name
            &&& hold_schema_view(documents, previous[name].schema_view)
            &&& forall|k: int|
                0 <= k < previous[name].schema_field_views@.len() ==> hold_field_view(
                    documents,
                    #[trigger] previous[name].schema_field_views@[k],
                )
        }
}

proof fn lemma_held(documents: Documents, previous: Map<Seq<char>, PreviousSchema>, name: Seq<char>)
    requires
        hold_previous(documents, previous),
        previous.contains_key(name),
    ensures
        is_held(documents, name, previous[name]),
{
    let schema = previous[name];
    let view = schema.schema_view;
    lemma_schema_document(view.deep_view());
    assert(view.fields.deep_view() =~= texts_of(view.fields@));
    lemma_field_names();
    assert(documents[view.view_id@] =~= schema_document(view.deep_view()));
    assert forall|k: int| 0 <= k < schema.schema_field_views@.len() implies {
        &&& documents.contains_key((#[trigger] schema.schema_field_views@[k]).id@)
        &&& documents[schema.schema_field_views@[k].id@] == field_document(
            schema.schema_field_views@[k].deep_view(),
        )
    } by {
        let field = schema.schema_field_views@[k];
        assert(hold_field_view(documents, previous[name].schema_field_views@[k]));
        lemma_field_document(field.deep_view());
        lemma_type_text(field.field_type);
        assert(documents[field.id@] =~= field_document(field.deep_view()));
    }
}

/// The documents hold the previous definitions in a diff.
proof fn lemma_hold_previous(
    documents: Documents,
    previous: Map<Seq<char>, PreviousSchema>,
    current: Seq<CurrentSchema>,
    diff: SchemaDiff,
)
    requires
        hold_previous(documents, previous),
        compares(previous, current, diff),
    ensures
        hold_previous_schema(documents, diff.deep_view()),
    decreases diff,
{
    let model = diff.deep_view();
    lemma_field_diff_models(diff.current_fields@);
    if let Some(view) = diff.previous_schema_view {
        lemma_held(documents, previous, diff.name@);
        let committed = previous[diff.name@].schema_view;
        lemma_same_texts(view.fields, committed.fields);
        assert(view.deep_view() == committed.deep_view());
    }
    assert forall|i: int| 0 <= i < model.fields.len() implies hold_previous_field(
        documents,
        #[trigger] model.fields[i],
    ) by {
        let field = diff.current_fields@[i];
        assert(model.fields[i] == field.deep_view());
        assert(compares_field(previous, current, diff.name@, field));
        if let Some(view) = field.previous_field_view {
            lemma_held(documents, previous, diff.name@);
            let committed = previous[diff.name@].schema_field_views@;
            let k = choose|k: int| #[trigger]
                is_first_view(committed, field.name@, k) && same_field_view(view, committed[k]);
            assert(view.deep_view() == committed[k].deep_view());
        }
        if let FieldTypeDiff::Relation(_, inner) = field.current_field_type {
            assert(decreases_to!(diff => diff.current_fields@));
            assert(decreases_to!(diff.current_fields@ => diff.current_fields@[i]));
            lemma_hold_previous(documents, previous, current, inner);
        }
    }
}

/// No two schemas have the same name.
pub open spec fn have_own_names(schemas: Seq<CurrentSchema>) -> bool {
    forall|i: int, j: int|
        0 <= i < j < schemas.len() ==> (#[trigger] schemas[i]).name@ != (#[trigger] schemas[j]).name@
}

/// Every commit has an entry hash of its own, which none of the documents has as its view id.
pub open spec fn are_new_commits(documents: Documents, commits: Seq<Commit>) -> bool {
    &&& forall|i: int, j: int|
        0 <= i < j < commits.len() ==> (#[trigger] commits[i]).entry_hash@ != (
        #[trigger] commits[j]).entry_hash@
    &&& forall|i: int|
        0 <= i < commits.len() ==> !documents.contains_key((#[trigger] commits[i]).entry_hash@)
}

/// An update brings about what the user wants: where the plan for the schemas that the user wants
/// was executed to its end, and the documents hold what was committed earlier, publishing the commits
/// brings every one of these schemas to a version of exactly its name, description, field names and
/// field types. What has a previous version is updated where it differs and else left as it is, what
/// has none is created, and nothing else is committed.
pub proof fn law_update_brings_about_what_is_wanted(
    previous: PreviousSchemas,
    current: Vec<CurrentSchema>,
    plans: Vec<SchemaDiff>,
    entries: Seq<Vec<u8>>,
    progress: Seq<Result<Progress, UpdateError>>,
    commits: Vec<Commit>,
    documents: Documents,
) -> (update: Update)
    requires
        have_own_names(current@),
        only_leads_to_schemas(current@),
        call_ensures(
            get_diff,
            (previous, current),
            Ok::<Vec<SchemaDiff>, UpdateError>(plans),
        ),
        is_execution(plans, entries, progress),
        progress.last() == Ok::<Progress, UpdateError>(Progress::Done(commits)),
        hold_previous(documents, previous@),
        are_new_commits(documents, commits@),
    ensures
        update.previous == previous@,
        update.current == current@,
        update.commits == commits@,
        update.documents == with_all_published(documents, commits.deep_view()),
        is_done(update),
        are_executed_in_order(update, plans@),
{
    let models = plans.deep_view();
    let made = lemma_execution(plans, entries, progress, entries.len() as int);
    assert(made == commits.deep_view());
    assert(is_finished(models, made));
    let replies = replies_of(made);
    let operations = run_with(models, made).operations;
    let later = with_all_published(documents, made);
    let versions = versions_of_plans(plans@, replies);
    let update = Update {
        previous: previous@,
        current: current@,
        commits: commits@,
        documents: later,
        versions,
    };
    law_plan_compares_committed_and_wanted_schemas(
        previous,
        current,
        Ok::<Vec<SchemaDiff>, UpdateError>(plans),
    );
    assert(models_of(plans@) =~= models);
    lemma_run_plans(models, replies);
    assert forall|k: int| 0 <= k < commits@.len() implies operation_of(#[trigger] commits@[k])
        == Some(operations[k]) && commits@[k].entry_hash@ == replies[k] by {
        assert(commits.deep_view()[k] == commits@[k].deep_view());
        assert(records(made[k], operations[k]));
    }
    assert forall|i: int, j: int| 0 <= i < j < replies.len() implies replies[i] != replies[j] by {
        assert(commits@[i].entry_hash@ == replies[i]);
        assert(commits@[j].entry_hash@ == replies[j]);
    }
    assert(replies.no_duplicates());
    assert(are_new_entries(documents, made)) by {
        assert forall|i: int| 0 <= i < made.len() implies !documents.contains_key(
            #[trigger] replies[i],
        ) by {
            assert(commits@[i].entry_hash@ == replies[i]);
        }
    }
    assert forall|i: int| 0 <= i < models.len() implies hold_previous_schema(
        documents,
        #[trigger] models[i],
    ) by {
        assert(models[i] == plans@[i].deep_view());
        lemma_hold_previous(documents, previous@, current@, plans@[i]);
    }
    law_published_documents_hold_what_was_written(documents, models, made);
    assert forall|id: Seq<char>| #[trigger] documents.contains_key(id) implies !replies.contains(
        id,
    ) by {
        if replies.contains(id) {
            assert(!documents.contains_key(replies[replies.index_of(id)]));
        }
    }
    assert forall|name: Seq<char>| #[trigger] previous@.contains_key(name) implies is_held(
        later,
        name,
        previous@[name],
    ) && is_earlier(replies, previous@[name]) by {
        lemma_held(documents, previous@, name);
        let schema = previous@[name];
        assert(documents.contains_key(schema.schema_view.view_id@));
        assert forall|k: int| 0 <= k < schema.schema_field_views@.len() implies {
            &&& later.contains_key((#[trigger] schema.schema_field_views@[k]).id@)
            &&& later[schema.schema_field_views@[k].id@] == field_document(
                schema.schema_field_views@[k].deep_view(),
            )
        } by {
            assert(documents.contains_key(schema.schema_field_views@[k].id@));
        }
        assert forall|k: int| 0 <= k < schema.schema_field_views@.len() implies !replies.contains(
            (#[trigger] schema.schema_field_views@[k]).id@,
        ) by {
            assert(documents.contains_key(schema.schema_field_views@[k].id@));
        }
    }
    assert(is_recorded(update, operations, replies));
    assert(stands_at(run_plans(models, replies), operations, 0));
    lemma_plans_versions(update, operations, replies, plans@);
    let ids = run_plans(models, replies).view_ids->0;
    assert(forall|i: int|
        0 <= i < plans@.len() ==> update.versions.contains((plans@[i].name@, #[trigger] ids[i])));
    assert forall|n: int| 0 <= n < current@.len() implies has_version(
        update,
        (#[trigger] current@[n]).name@,
    ) by {
        let id = lemma_every_schema_has_version(previous, current, plans, replies, n);
        assert(update.versions.contains((current@[n].name@, id)));
    }
    let nothing = Seq::<Seq<char>>::empty();
    assert forall|k: int| 0 <= k < commits@.len() implies is_brought_about(
        update,
        (#[trigger] commits@[k]).entry_hash@,
    ) by {
        assert(commits@[k].entry_hash@ == replies[k]);
        assert(!nothing.contains(replies[k]));
    }
    update
}

proof fn lemma_every_schema_has_version(
    previous: PreviousSchemas,
    current: Vec<CurrentSchema>,
    plans: Vec<SchemaDiff>,
    replies: Seq<Seq<char>>,
    n: int,
) -> (id: Seq<char>)
    requires
        have_own_names(current@),
        only_leads_to_schemas(current@),
        call_ensures(
            get_diff,
            (previous, current),
            Ok::<Vec<SchemaDiff>, UpdateError>(plans),
        ),
        0 <= n < current@.len(),
    ensures
        versions_of_plans(plans@, replies).contains((current@[n].name@, id)),
{
    let models = plans.deep_view();
    let schemas = current.deep_view();
    assert forall|i: int, j: int| 0 <= i < j < schemas.len() implies (#[trigger] schemas[i]).name
        != (#[trigger] schemas[j]).name by {
        assert(schemas[i] == current@[i].deep_view());
        assert(schemas[j] == current@[j].deep_view());
    }
    lemma_links(current);
    assert(schemas[n] == current@[n].deep_view());
    law_no_schema_is_lost(previous_model(previous@), schemas, models, n);
    let part = choose|part: SchemaDiffModel| #[trigger]
        is_part_of_plan(models, part) && part.name == schemas[n].name;
    let i = choose|i: int| 0 <= i < models.len() && is_part(#[trigger] models[i], part);
    assert(models[i] == plans@[i].deep_view());
    lemma_planned_has_version(plans@, i, part, replies)
}

/// No two entries of the file have the same name, and every field that links to a schema by name
/// links to one of the file.
pub open spec fn is_linked_file(file: SchemaFile) -> bool {
    &&& forall|i: int, j: int|
        0 <= i < j < file.entries@.len() ==> (#[trigger] file.entries@[i]).0@ != (
        #[trigger] file.entries@[j]).0@
    &&& forall|n: int, j: int|
        #![trigger file.entries@[n].1.fields.entries@[j]]
        0 <= n < file.entries@.len() && 0 <= j < file.entries@[n].1.fields.entries@.len() ==> (
        file.entries@[n].1.fields.entries@[j].1 matches SchemaField::Relation { schema, .. } ==> (
        schema.id matches RelationId::Name(to) ==> is_entry_name(file, to@)))
}

/// An entry of the file has this name.
pub open spec fn is_entry_name(file: SchemaFile, name: Seq<char>) -> bool {
    exists|n: int| 0 <= n < file.entries@.len() && (#[trigger] file.entries@[n]).0@ == name
}

/// The definition of the schema of a file's entry came to a version.
pub open spec fn is_entry_done(update: Update, entry: (SchemaName, SchemaDefinition)) -> bool {
    exists|id: Seq<char>| #[trigger]
        update.versions.contains((entry.0@, id)) && is_schema_version(
            update,
            entry.0@,
            entry.1.description@,
            entry.1.fields,
            id,
        )
}

/// What is a version of fields is one of the same fields.
proof fn lemma_same_version(
    update: Update,
    name: Seq<char>,
    description: Seq<char>,
    left: SchemaFields,
    right: SchemaFields,
    id: Seq<char>,
)
    requires
        same_fields(left, right),
        is_schema_version(update, name, description, left, id),
    ensures
        is_schema_version(update, name, description, right, id),
{
    let ids = choose|ids: Seq<Seq<char>>| #[trigger]
        is_schema_version_with(update, name, description, left, id, ids);
    assert forall|i: int| 0 <= i < ids.len() implies is_field_version(
        update,
        name,
        right.entries@[i].0@,
        right.entries@[i].1,
        #[trigger] ids[i],
    ) by {
        assert(left.entries@[i].0@ == right.entries@[i].0@);
        let field = left.entries@[i].1;
        let other = right.entries@[i].1;
        assert(same_field(field, other));
        assert(is_field_version(update, name, left.entries@[i].0@, field, ids[i]));
        let linked = choose|linked: Seq<char>| #[trigger]
            is_field_version_with(update, name, left.entries@[i].0@, field, ids[i], linked);
        assert(is_field_version_with(
            update,
            name,
            right.entries@[i].0@,
            other,
            ids[i],
            linked,
        ));
    }
    assert(is_schema_version_with(update, name, description, right, id, ids));
}

/// An update brings about the file: every schema of the file comes to a version which has exactly
/// the name, the description, the field names and the field types that the file says.
pub proof fn law_update_brings_about_the_file(
    file: SchemaFile,
    previous: PreviousSchemas,
    current: Vec<CurrentSchema>,
    plans: Vec<SchemaDiff>,
    entries: Seq<Vec<u8>>,
    progress: Seq<Result<Progress, UpdateError>>,
    commits: Vec<Commit>,
    documents: Documents,
) -> (update: Update)
    requires
        is_linked_file(file),
        call_ensures(
            get_current_schemas,
            (&file,),
            Ok::<Vec<CurrentSchema>, UpdateError>(current),
        ),
        call_ensures(
            get_diff,
            (previous, current),
            Ok::<Vec<SchemaDiff>, UpdateError>(plans),
        ),
        is_execution(plans, entries, progress),
        progress.last() == Ok::<Progress, UpdateError>(Progress::Done(commits)),
        hold_previous(documents, previous@),
        are_new_commits(documents, commits@),
    ensures
        update.previous == previous@,
        update.current == current@,
        update.commits == commits@,
        update.documents == with_all_published(documents, commits.deep_view()),
        is_done(update),
        are_executed_in_order(update, plans@),
        forall|n: int|
            0 <= n < file.entries@.len() ==> is_entry_done(update, #[trigger] file.entries@[n]),
{
    law_current_schemas_are_those_of_the_file(
        &file,
        Ok::<Vec<CurrentSchema>, UpdateError>(current),
    );
    assert forall|i: int, j: int| 0 <= i < j < current@.len() implies (
    #[trigger] current@[i]).name@ != (#[trigger] current@[j]).name@ by {
        assert(file.entries@[i].0@ != file.entries@[j].0@);
    }
    assert forall|from: Seq<char>, to: Seq<char>| #[trigger]
        leads(current@, from, to) implies is_named(current@, to) by {
        let (n, j) = choose|n: int, j: int|
            0 <= n < current@.len() && current@[n].name@ == from && #[trigger] links_to(
                current@[n],
                j,
                to,
            );
        assert(same_fields(current@[n].fields, file.entries@[n].1.fields));
        assert(current@[n].fields.entries@[j].0@ == file.entries@[n].1.fields.entries@[j].0@);
        assert(same_field(
            current@[n].fields.entries@[j].1,
            file.entries@[n].1.fields.entries@[j].1,
        ));
        assert(is_entry_name(file, to));
        let m = choose|m: int|
            0 <= m < file.entries@.len() && (#[trigger] file.entries@[m]).0@ == to;
        assert(current@[m].name@ == to);
    }
    let update = law_update_brings_about_what_is_wanted(
        previous,
        current,
        plans,
        entries,
        progress,
        commits,
        documents,
    );
    assert forall|n: int| 0 <= n < file.entries@.len() implies is_entry_done(
        update,
        #[trigger] file.entries@[n],
    ) by {
        let name = current@[n].name@;
        assert(has_version(update, update.current[n].name@));
        let id = choose|id: Seq<char>| #[trigger] update.versions.contains((name, id));
        assert(is_version(update, name, id));
        let m = choose|m: int| #[trigger]
            is_first_named(update.current, name, m) && is_schema_version(
                update,
                name,
                update.current[m].description@,
                update.current[m].fields,
                id,
            );
        if m < n {
            assert(current@[m].name@ != current@[n].name@);
        } else if n < m {
            assert(current@[n].name@ != name);
        }
        lemma_same_version(
            update,
            name,
            current@[n].description@,
            current@[n].fields,
            file.entries@[n].1.fields,
            id,
        );
    }
    update
}

/// The commit of a schema definition: a document is created where no schema of its name was committed
/// earlier, else the version of the committed one is updated.
pub open spec fn is_commit_of_schema(update: Update, commit: Commit, name: Seq<char>) -> bool {
    &&& is_named(update.current, name)
    &&& has_text(update.documents[commit.entry_hash@], "name"@, name)
    &&& match operation_of(commit) {
        Some(OperationModel::Create { schema, .. }) => {
            &&& schema == SystemSchema::SchemaDefinition(1)
            &&& !update.previous.contains_key(name)
        },
        Some(OperationModel::Update { schema, previous, .. }) => {
            &&& schema == SystemSchema::SchemaDefinition(1)
            &&& update.previous.contains_key(name)
            &&& previous == update.previous[name].schema_view.view_id@
        },
        None => false,
    }
}

/// The commit of the definition of a field of the schema `schema`: a document is created where no
/// field of its name was committed earlier, else the version of the committed one is updated, and
/// only its type written.
pub open spec fn is_commit_of_field(
    update: Update,
    commit: Commit,
    schema: Seq<char>,
    name: Seq<char>,
) -> bool {
    let views = update.previous[schema].schema_field_views@;
    &&& is_named(update.current, schema)
    &&& has_text(update.documents[commit.entry_hash@], "name"@, name)
    &&& match operation_of(commit) {
        Some(OperationModel::Create { schema: of, .. }) => {
            &&& of == SystemSchema::SchemaFieldDefinition(1)
            &&& update.previous.contains_key(schema) ==> forall|k: int|
                0 <= k < views.len() ==> (#[trigger] views[k]).name@ != name
        },
        Some(OperationModel::Update { schema: of, previous, fields }) => {
            &&& of == SystemSchema::SchemaFieldDefinition(1)
            &&& update.previous.contains_key(schema)
            &&& exists|k: int| #[trigger]
                is_first_view(views, name, k) && previous == views[k].id@
            &&& fields.dom() == set!["type"@]
        },
        None => false,
    }
}

proof fn lemma_first_view_exists(views: Seq<SchemaFieldView>, name: Seq<char>, at: int)
    requires
        0 <= at < views.len(),
        views[at].name@ == name,
    ensures
        exists|k: int| #[trigger] is_first_view(views, name, k),
    decreases at,
{
    if exists|i: int| 0 <= i < at && (#[trigger] views[i]).name@ == name {
        let i = choose|i: int| 0 <= i < at && (#[trigger] views[i]).name@ == name;
        lemma_first_view_exists(views, name, i);
    } else {
        assert(is_first_view(views, name, at));
    }
}

/// Committed definitions are updated, never created again: each commit of an update is that of a
/// schema or of a field which the user wants, and it creates a document exactly where none of that
/// name was committed earlier. Else it updates the committed version.
pub proof fn law_committed_definitions_are_updated(update: Update, documents: Documents, k: int)
    requires
        is_done(update),
        hold_previous(documents, update.previous),
        are_new_commits(documents, update.commits),
        0 <= k < update.commits.len(),
    ensures
        (exists|name: Seq<char>| #[trigger]
            is_commit_of_schema(update, update.commits[k], name)) || (exists|
            schema: Seq<char>,
            name: Seq<char>,
        | #[trigger]
            is_commit_of_field(update, update.commits[k], schema, name)),
{
    let commit = update.commits[k];
    let id = commit.entry_hash@;
    assert(is_brought_about(update, update.commits[k].entry_hash@));
    let (schema, version) = choose|schema: Seq<char>, version: Seq<char>| #[trigger]
        update.versions.contains((schema, version)) && (version == id || pins(
            update.documents,
            version,
            id,
        ));
    assert(is_version(update, schema, version));
    let n = choose|n: int| #[trigger]
        is_first_named(update.current, schema, n) && is_schema_version(
            update,
            schema,
            update.current[n].description@,
            update.current[n].fields,
            version,
        );
    assert(update.current[n].name@ == schema);
    let fields = update.current[n].fields;
    let ids = choose|ids: Seq<Seq<char>>| #[trigger]
        is_schema_version_with(
            update,
            schema,
            update.current[n].description@,
            fields,
            version,
            ids,
        );
    assert forall|other: int|
        0 <= other < update.commits.len() && (#[trigger] update.commits[other]).entry_hash@
            == id implies other == k by {
        if other < k {
            assert(update.commits[other].entry_hash@ != update.commits[k].entry_hash@);
        } else if k < other {
            assert(update.commits[k].entry_hash@ != update.commits[other].entry_hash@);
        }
    }
    assert(!documents.contains_key(id));
    if version == id {
        assert(is_commit_of_schema(update, commit, schema));
    } else {
        let pinned = choose|pinned: Seq<Seq<char>>|
            update.documents.contains_key(version) && #[trigger] has_list(
                update.documents[version],
                "fields"@,
                pinned,
            ) && pinned.contains(id);
        assert(pinned == ids);
        let i = ids.index_of(id);
        let name = fields.entries@[i].0@;
        let field = fields.entries@[i].1;
        assert(is_field_version(update, schema, name, field, ids[i]));
        let linked = choose|linked: Seq<char>| #[trigger]
            is_field_version_with(update, schema, name, field, id, linked);
        let views = update.previous[schema].schema_field_views@;
        if update.previous.contains_key(schema) && exists|k: int| #[trigger]
            is_first_view(views, name, k) {
            let at = choose|k: int| #[trigger] is_first_view(views, name, k);
            assert(hold_field_view(documents, update.previous[schema].schema_field_views@[at]));
        } else if update.previous.contains_key(schema) {
            assert forall|at: int| 0 <= at < views.len() implies (#[trigger] views[at]).name@
                != name by {
                if views[at].name@ == name {
                    lemma_first_view_exists(views, name, at);
                }
            }
        }
        assert(is_commit_of_field(update, commit, schema, name));
    }
}

} // verus!
