//! Documents that publishing commits brings about, and what the next update makes of them.
use crate::bridge::{are_valid_field_names, is_valid_schema};
use crate::commit::{committed_operation, CommitModel};
use crate::current::{current_schemas, CurrentSchemaModel};
use crate::diff::{
    is_part_of_plan, is_plan, is_planned, FieldDiffModel, FieldTypeDiffModel, SchemaDiffModel,
};
use crate::documents::{
    are_definitions_of, are_entry_hashes, are_written_definitions, current_field_names, field_names,
    has_valid_links, hold_previous_field, hold_previous_fields, hold_previous_plans,
    hold_previous_schema, hold_written, is_new, is_schema_of, is_version_of, is_version_of_entry,
    is_written, law_commits_give_back_schemas, law_first_update_needs_no_second,
    law_first_update_of_unrelated_schemas_needs_no_second, law_recorded_replies_are_entry_hashes,
    law_written_documents_need_no_update, law_written_file_is_read, lemma_first_diff_is_new,
    lemma_new_has_no_documents, read_schemas, written_fields, Documents,
};
use crate::error::UpdateError;
use crate::executor::{is_finished, is_progress, records, replies_of, run_with, Progress};
use crate::laws::{
    is_pinning, law_changed_field_updates_schema, law_dependencies_are_committed_first,
    previous_ids, previous_ids_of_field, previous_ids_of_fields, previous_ids_of_plans, refers_to,
    settled_plans,
};
use crate::operation::OperationModel;
use crate::plan::{lemma_run_schema, replies_behind, run_fields, run_plans, run_schema};
use crate::previous::{is_keyed_by_name, PreviousSchemaModel};
use crate::relations::{
    field_names_are_distinct, has_cycle, has_relation_by_id, is_schema_name, links_are_known,
    relates,
};
use crate::schema_file::{is_valid_file, SchemaDefinitionModel};
use vstd::prelude::*;

verus! {

/// The documents after a commit was published: its operation brings about a version of a document
/// which has the hash of the entry as its view id.
pub open spec fn with_published(documents: Documents, commit: CommitModel) -> Documents {
    let id = commit.entry_hash;
    match committed_operation(commit) {
        Some(OperationModel::Create { schema, fields }) => documents.insert(
            id,
            written_fields(Map::empty(), OperationModel::Create { schema, fields }),
        ),
        Some(OperationModel::Update { schema, previous, fields }) => if documents.contains_key(
            previous,
        ) {
            documents.insert(
                id,
                written_fields(
                    documents[previous],
                    OperationModel::Update { schema, previous, fields },
                ),
            )
        } else {
            documents
        },
        None => documents,
    }
}

/// The documents after commits were published one after the other.
pub open spec fn with_all_published(documents: Documents, commits: Seq<CommitModel>) -> Documents
    decreases commits.len(),
{
    if commits.len() == 0 {
        documents
    } else {
        with_published(with_all_published(documents, commits.drop_last()), commits.last())
    }
}

/// The documents that publishing commits in an empty store brings about.
pub open spec fn published(commits: Seq<CommitModel>) -> Documents {
    with_all_published(Map::empty(), commits)
}

/// Every commit has an entry hash of its own, which no document has as its view id.
pub open spec fn are_new_entries(documents: Documents, commits: Seq<CommitModel>) -> bool {
    &&& replies_of(commits).no_duplicates()
    &&& forall|i: int|
        0 <= i < commits.len() ==> !documents.contains_key(#[trigger] replies_of(commits)[i])
}

/// The earlier documents are among the later ones.
spec fn are_kept(earlier: Documents, later: Documents) -> bool {
    forall|id: Seq<char>| #[trigger]
        earlier.contains_key(id) ==> later.contains_key(id) && later[id] == earlier[id]
}

proof fn lemma_kept_schema(earlier: Documents, later: Documents, diff: SchemaDiffModel)
    requires
        are_kept(earlier, later),
        hold_previous_schema(earlier, diff),
    ensures
        hold_previous_schema(later, diff),
    decreases diff,
{
    assert forall|i: int| 0 <= i < diff.fields.len() implies hold_previous_field(
        later,
        #[trigger] diff.fields[i],
    ) by {
        assert(hold_previous_field(earlier, diff.fields[i]));
        if let FieldTypeDiffModel::Relation(_, linked) = diff.fields[i].field_type {
            assert(decreases_to!(diff => diff.fields));
            assert(decreases_to!(diff.fields => diff.fields[i]));
            lemma_kept_schema(earlier, later, linked);
        }
    }
}

/// Documents that hold the previous definitions have their view ids.
proof fn lemma_schema_ids(documents: Documents, diff: SchemaDiffModel, id: Seq<char>)
    requires
        hold_previous_schema(documents, diff),
        previous_ids(diff).contains(id),
    ensures
        documents.contains_key(id),
    decreases diff,
{
    if previous_ids_of_fields(diff.fields).contains(id) {
        lemma_fields_ids(documents, diff.fields, id);
    }
}

proof fn lemma_fields_ids(documents: Documents, diffs: Seq<FieldDiffModel>, id: Seq<char>)
    requires
        hold_previous_fields(documents, diffs),
        previous_ids_of_fields(diffs).contains(id),
    ensures
        documents.contains_key(id),
    decreases diffs,
{
    let front = diffs.drop_last();
    if previous_ids_of_fields(front).contains(id) {
        assert forall|i: int| 0 <= i < front.len() implies hold_previous_field(
            documents,
            #[trigger] front[i],
        ) by {
            assert(front[i] == diffs[i]);
        }
        lemma_fields_ids(documents, front, id);
    } else {
        let last = diffs[diffs.len() - 1];
        assert(hold_previous_field(documents, last));
        assert(decreases_to!(diffs => diffs[diffs.len() - 1]));
        lemma_field_ids(documents, last, id);
    }
}

proof fn lemma_field_ids(documents: Documents, diff: FieldDiffModel, id: Seq<char>)
    requires
        hold_previous_field(documents, diff),
        previous_ids_of_field(diff).contains(id),
    ensures
        documents.contains_key(id),
    decreases diff,
{
    if let FieldTypeDiffModel::Relation(_, linked) = diff.field_type {
        if previous_ids(linked).contains(id) {
            lemma_schema_ids(documents, linked, id);
        }
    }
}

proof fn lemma_plans_ids(documents: Documents, plans: Seq<SchemaDiffModel>, id: Seq<char>)
    requires
        hold_previous_plans(documents, plans),
        previous_ids_of_plans(plans).contains(id),
    ensures
        documents.contains_key(id),
    decreases plans.len(),
{
    let front = plans.drop_last();
    if previous_ids_of_plans(front).contains(id) {
        assert forall|i: int| 0 <= i < front.len() implies hold_previous_schema(
            documents,
            #[trigger] front[i],
        ) by {
            assert(front[i] == plans[i]);
        }
        lemma_plans_ids(documents, front, id);
    } else {
        assert(hold_previous_schema(documents, plans[plans.len() - 1]));
        lemma_schema_ids(documents, plans.last(), id);
    }
}

/// What the first commits of a finished execution brought about.
spec fn is_published_up_to(
    documents: Documents,
    operations: Seq<OperationModel>,
    replies: Seq<Seq<char>>,
    count: int,
    later: Documents,
) -> bool {
    &&& are_kept(documents, later)
    &&& forall|id: Seq<char>| #[trigger]
        later.contains_key(id) ==> documents.contains_key(id) || exists|i: int|
            0 <= i < count && #[trigger] replies[i] == id
    &&& forall|i: int| 0 <= i < count ==> is_written(later, #[trigger] operations[i], replies[i])
}

proof fn lemma_published_up_to(
    documents: Documents,
    plans: Seq<SchemaDiffModel>,
    commits: Seq<CommitModel>,
    count: int,
)
    requires
        is_finished(plans, commits),
        hold_previous_plans(documents, plans),
        are_new_entries(documents, commits),
        0 <= count <= commits.len(),
    ensures
        is_published_up_to(
            documents,
            run_with(plans, commits).operations,
            replies_of(commits),
            count,
            with_all_published(documents, commits.take(count)),
        ),
    decreases count,
{
    let operations = run_with(plans, commits).operations;
    let replies = replies_of(commits);
    if count > 0 {
        let n = count - 1;
        let before = with_all_published(documents, commits.take(n));
        let after = with_all_published(documents, commits.take(count));
        let operation = operations[n];
        lemma_published_up_to(documents, plans, commits, n);
        assert(commits.take(count).drop_last() =~= commits.take(n));
        assert(records(commits[n], operation));
        assert(committed_operation(commits[n]) == Some(operation));
        assert(replies[n] == commits[n].entry_hash);
        if let OperationModel::Update { previous, .. } = operation {
            assert(refers_to(operation, previous));
            law_dependencies_are_committed_first(plans, replies, n, previous);
            if previous_ids_of_plans(plans).contains(previous) {
                lemma_plans_ids(documents, plans, previous);
            } else {
                let i = choose|i: int| 0 <= i < n && i < replies.len() && #[trigger] replies[i]
                    == previous;
                assert(is_written(before, operations[i], replies[i]));
            }
        }
        assert(!before.contains_key(replies[n])) by {
            if before.contains_key(replies[n]) {
                assert(!documents.contains_key(replies[n]));
                let i = choose|i: int| 0 <= i < n && #[trigger] replies[i] == replies[n];
                assert(replies[i] != replies[n]);
            }
        }
        assert(after == before.insert(replies[n], after[replies[n]]));
        assert(is_written(after, operation, replies[n]));
        assert forall|i: int| 0 <= i < count implies is_written(
            after,
            #[trigger] operations[i],
            replies[i],
        ) by {
            if i < n {
                assert(is_written(before, operations[i], replies[i]));
            }
        }
        assert forall|id: Seq<char>| #[trigger] after.contains_key(id) implies documents.contains_key(
            id,
        ) || exists|i: int| 0 <= i < count && #[trigger] replies[i] == id by {
            if !before.contains_key(id) {
                assert(replies[n] == id);
            } else if !documents.contains_key(id) {
                let i = choose|i: int| 0 <= i < n && #[trigger] replies[i] == id;
                assert(replies[i] == id);
            }
        }
    }
}

/// Publishing the commits of a finished execution brings about what its operations wrote, and keeps
/// the previous definitions and all other documents.
pub proof fn law_published_documents_hold_what_was_written(
    documents: Documents,
    plans: Seq<SchemaDiffModel>,
    commits: Seq<CommitModel>,
)
    requires
        is_finished(plans, commits),
        hold_previous_plans(documents, plans),
        are_new_entries(documents, commits),
    ensures
        hold_written(
            with_all_published(documents, commits),
            run_with(plans, commits).operations,
            replies_of(commits),
        ),
        hold_previous_plans(with_all_published(documents, commits), plans),
        forall|id: Seq<char>| #[trigger]
            documents.contains_key(id) ==> with_all_published(documents, commits).contains_key(id)
                && with_all_published(documents, commits)[id] == documents[id],
{
    let later = with_all_published(documents, commits);
    lemma_published_up_to(documents, plans, commits, commits.len() as int);
    assert(commits.take(commits.len() as int) =~= commits);
    assert forall|i: int| 0 <= i < plans.len() implies hold_previous_schema(
        later,
        #[trigger] plans[i],
    ) by {
        lemma_kept_schema(documents, later, plans[i]);
    }
}

/// A changed field gives its schema a new version: where a schema was executed to its end, and one of
/// its fields came to a view id that the previous definition does not pin, the last commit updates
/// that definition and pins the view ids that the fields came to. Where its entry is new to the
/// documents, the schema comes to another version than the previous one.
pub proof fn law_changed_field_gives_a_new_version(
    documents: Documents,
    diff: SchemaDiffModel,
    commits: Seq<CommitModel>,
    index: int,
)
    requires
        diff.previous is Some,
        is_finished(seq![diff], commits),
        0 <= index < run_fields(diff.fields, replies_of(commits)).view_ids->0.len(),
        !(diff.previous->0).fields.contains(
            run_fields(diff.fields, replies_of(commits)).view_ids->0[index],
        ),
        documents.contains_key((diff.previous->0).view_id),
        are_new_entries(documents, commits),
    ensures
        commits.len() > 0,
        committed_operation(commits.last()) matches Some(operation) && is_pinning(
            operation,
            diff.previous->0,
            run_fields(diff.fields, replies_of(commits)).view_ids->0,
        ),
        run_with(seq![diff], commits).view_ids == Some(seq![commits.last().entry_hash]),
        commits.last().entry_hash != (diff.previous->0).view_id,
{
    let plans = seq![diff];
    let replies = replies_of(commits);
    let run = run_schema(diff, replies);
    let front = run_plans(plans.drop_last(), replies);
    assert(plans.drop_last() =~= Seq::empty());
    assert(replies_behind(front, replies) =~= replies);
    assert(run_with(plans, commits).operations =~= run.operations);
    assert(run_with(plans, commits).view_ids is Some);
    lemma_run_schema(diff, replies);
    assert(run.view_ids is Some);
    law_changed_field_updates_schema(diff, replies, index);
    let n = run.operations.len() - 1;
    assert(records(commits[n], run.operations[n]));
    assert(replies[n] == commits[n].entry_hash);
    assert(!documents.contains_key(replies[n]));
    assert(Seq::<Seq<char>>::empty() + run.view_ids->0 =~= run.view_ids->0);
}

/// Committed schemas are read back: where plans of new schemas were executed to their end, and
/// schemas of one name are the same and valid, publishing the commits in an empty store brings about
/// documents from which all the written definitions can be read. They are exactly those of the
/// planned schemas, nested ones included, with the names, the descriptions and, in their order, the
/// field names of the plans.
pub proof fn law_committed_schemas_are_read_back(
    plans: Seq<SchemaDiffModel>,
    commits: Seq<CommitModel>,
    ids: Seq<Seq<char>>,
)
    requires
        forall|i: int| 0 <= i < plans.len() ==> is_new(#[trigger] plans[i]),
        forall|left: SchemaDiffModel, right: SchemaDiffModel|
            #![trigger is_part_of_plan(plans, left), is_part_of_plan(plans, right)]
            is_part_of_plan(plans, left) && is_part_of_plan(plans, right) && left.name == right.name
                ==> left == right,
        forall|part: SchemaDiffModel| #[trigger]
            is_part_of_plan(plans, part) ==> is_valid_schema(
                part.name,
                part.description,
                field_names(part.fields),
            ),
        is_finished(plans, commits),
        replies_of(commits).no_duplicates(),
        are_written_definitions(ids, run_with(plans, commits).operations, replies_of(commits)),
    ensures
        read_schemas(published(commits), ids) is Some,
        forall|name: Seq<char>| #[trigger]
            (read_schemas(published(commits), ids)->0).contains_key(name) <==> is_planned(
                plans,
                name,
            ),
        forall|diff: SchemaDiffModel| #[trigger]
            is_part_of_plan(plans, diff) ==> is_schema_of(
                (read_schemas(published(commits), ids)->0)[diff.name],
                diff,
            ),
{
    lemma_first_publication(plans, commits);
    law_commits_give_back_schemas(plans, replies_of(commits), published(commits), ids);
}

/// Publishing the commits of new plans in an empty store brings about what was written.
proof fn lemma_first_publication(plans: Seq<SchemaDiffModel>, commits: Seq<CommitModel>)
    requires
        forall|i: int| 0 <= i < plans.len() ==> is_new(#[trigger] plans[i]),
        is_finished(plans, commits),
        replies_of(commits).no_duplicates(),
    ensures
        hold_written(
            published(commits),
            run_with(plans, commits).operations,
            replies_of(commits),
        ),
        are_entry_hashes(replies_of(commits)),
{
    let empty: Documents = Map::empty();
    assert forall|i: int| 0 <= i < plans.len() implies hold_previous_schema(
        empty,
        #[trigger] plans[i],
    ) by {
        lemma_new_has_no_documents(empty, plans[i]);
    }
    law_published_documents_hold_what_was_written(empty, plans, commits);
    law_recorded_replies_are_entry_hashes(commits, run_with(plans, commits).operations);
}

/// A first update gives back the file: where the file is valid, its relations are plannable, all its
/// field names are valid, and the first plan ever was executed to its end, publishing the commits in
/// an empty store brings about documents from which schemas can be read. They are exactly those of
/// the file, with their names, descriptions and, in their order, field names.
pub proof fn law_first_update_gives_back_the_file(
    file: Seq<(Seq<char>, SchemaDefinitionModel)>,
    plan: Seq<SchemaDiffModel>,
    commits: Seq<CommitModel>,
    ids: Seq<Seq<char>>,
)
    requires
        is_valid_file(file),
        forall|i: int|
            0 <= i < current_schemas(file).len() ==> are_valid_field_names(
                current_field_names(#[trigger] current_schemas(file)[i]),
            ),
        links_are_known(current_schemas(file)),
        !has_relation_by_id(current_schemas(file)),
        !has_cycle(current_schemas(file)),
        is_plan(Map::empty(), current_schemas(file), plan),
        is_finished(plan, commits),
        replies_of(commits).no_duplicates(),
        are_written_definitions(ids, run_with(plan, commits).operations, replies_of(commits)),
    ensures
        read_schemas(published(commits), ids) is Some,
        forall|name: Seq<char>| #[trigger]
            (read_schemas(published(commits), ids)->0).contains_key(name) <==> is_schema_name(
                current_schemas(file),
                name,
            ),
        forall|i: int|
            0 <= i < current_schemas(file).len() ==> is_version_of(
                (read_schemas(published(commits), ids)->0)[current_schemas(file)[i].name],
                #[trigger] current_schemas(file)[i],
            ),
        forall|i: int|
            0 <= i < file.len() ==> (read_schemas(published(commits), ids)->0).contains_key(
                file[i].0,
            ) && is_version_of_entry(
                (read_schemas(published(commits), ids)->0)[file[i].0],
                #[trigger] file[i],
            ),
{
    lemma_first_plan_is_new(current_schemas(file), plan);
    lemma_first_publication(plan, commits);
    law_written_file_is_read(file, plan, replies_of(commits), published(commits), ids);
}

proof fn lemma_first_plan_is_new(current: Seq<CurrentSchemaModel>, plan: Seq<SchemaDiffModel>)
    requires
        is_plan(Map::empty(), current, plan),
    ensures
        forall|i: int| 0 <= i < plan.len() ==> is_new(#[trigger] plan[i]),
{
    assert forall|i: int| 0 <= i < plan.len() implies is_new(#[trigger] plan[i]) by {
        lemma_first_diff_is_new(current, plan[i].name, plan[i]);
    }
}

/// An execution without any operation is done at once, without any commits.
proof fn lemma_idle_progress(plans: Seq<SchemaDiffModel>, result: Result<Progress, UpdateError>)
    requires
        is_progress(plans, Seq::empty(), result),
        run_plans(plans, Seq::empty()).operations.len() == 0,
        run_plans(plans, Seq::empty()).view_ids is Some,
    ensures
        result matches Ok(Progress::Done(commits)) && commits@.len() == 0,
{
    assert(replies_of(Seq::empty()) =~= Seq::empty());
    if let Ok(Progress::Done(commits)) = result {
        assert(commits.deep_view().len() == 0);
    }
}

/// Updating twice is like updating once: where a plan was executed to its end, and the schemas were
/// read from what publishing its commits brought about, executing the next plan is done at once,
/// without any commits. The view ids that are read are those of the definitions which were left
/// behind, and no definition of the same name is read besides.
pub proof fn law_second_update_is_done_at_once(
    previous: Map<Seq<char>, PreviousSchemaModel>,
    current: Seq<CurrentSchemaModel>,
    plan: Seq<SchemaDiffModel>,
    documents: Documents,
    commits: Seq<CommitModel>,
    ids: Seq<Seq<char>>,
    schemas: Map<Seq<char>, PreviousSchemaModel>,
    next_plan: Seq<SchemaDiffModel>,
    result: Result<Progress, UpdateError>,
)
    requires
        is_keyed_by_name(previous),
        field_names_are_distinct(current),
        is_plan(previous, current, plan),
        forall|part: SchemaDiffModel| #[trigger]
            is_part_of_plan(plan, part) ==> has_valid_links(part),
        hold_previous_plans(documents, plan),
        is_finished(plan, commits),
        are_new_entries(documents, commits),
        are_definitions_of(
            ids,
            with_all_published(documents, commits),
            settled_plans(plan, replies_of(commits)),
        ),
        read_schemas(with_all_published(documents, commits), ids) == Some(schemas),
        is_plan(schemas, current, next_plan),
        is_progress(next_plan, Seq::empty(), result),
    ensures
        result matches Ok(Progress::Done(more)) && more@.len() == 0,
{
    law_published_documents_hold_what_was_written(documents, plan, commits);
    law_recorded_replies_are_entry_hashes(commits, run_with(plan, commits).operations);
    law_written_documents_need_no_update(
        previous,
        current,
        plan,
        replies_of(commits),
        with_all_published(documents, commits),
        ids,
        schemas,
        next_plan,
        Seq::empty(),
    );
    lemma_idle_progress(next_plan, result);
}

/// After a first update nothing is left to do: where the first plan ever was executed to its end, and
/// the schemas were read from what publishing its commits in an empty store brought about, executing
/// the next plan is done at once, without any commits. Every schema is to be left behind once: a
/// schema that several others relate to is executed with each of them.
pub proof fn law_update_after_the_first_is_done_at_once(
    current: Seq<CurrentSchemaModel>,
    plan: Seq<SchemaDiffModel>,
    commits: Seq<CommitModel>,
    ids: Seq<Seq<char>>,
    schemas: Map<Seq<char>, PreviousSchemaModel>,
    next_plan: Seq<SchemaDiffModel>,
    result: Result<Progress, UpdateError>,
)
    requires
        field_names_are_distinct(current),
        is_plan(Map::empty(), current, plan),
        forall|part: SchemaDiffModel| #[trigger]
            is_part_of_plan(plan, part) ==> has_valid_links(part),
        is_finished(plan, commits),
        replies_of(commits).no_duplicates(),
        forall|left: SchemaDiffModel, right: SchemaDiffModel|
            #[trigger] is_part_of_plan(settled_plans(plan, replies_of(commits)), left)
                && #[trigger] is_part_of_plan(settled_plans(plan, replies_of(commits)), right)
                && left.name == right.name ==> left == right,
        are_written_definitions(ids, run_with(plan, commits).operations, replies_of(commits)),
        read_schemas(published(commits), ids) == Some(schemas),
        is_plan(schemas, current, next_plan),
        is_progress(next_plan, Seq::empty(), result),
    ensures
        result matches Ok(Progress::Done(more)) && more@.len() == 0,
{
    lemma_first_plan_is_new(current, plan);
    lemma_first_publication(plan, commits);
    law_first_update_needs_no_second(
        current,
        plan,
        replies_of(commits),
        published(commits),
        ids,
        schemas,
        next_plan,
        Seq::empty(),
    );
    lemma_idle_progress(next_plan, result);
}

/// After a first update of schemas that do not relate to each other nothing is left to do.
pub proof fn law_update_after_the_first_of_unrelated_schemas_is_done_at_once(
    current: Seq<CurrentSchemaModel>,
    plan: Seq<SchemaDiffModel>,
    commits: Seq<CommitModel>,
    ids: Seq<Seq<char>>,
    schemas: Map<Seq<char>, PreviousSchemaModel>,
    next_plan: Seq<SchemaDiffModel>,
    result: Result<Progress, UpdateError>,
)
    requires
        field_names_are_distinct(current),
        forall|from: Seq<char>, to: Seq<char>| !#[trigger] relates(current, from, to),
        is_plan(Map::empty(), current, plan),
        is_finished(plan, commits),
        replies_of(commits).no_duplicates(),
        are_written_definitions(ids, run_with(plan, commits).operations, replies_of(commits)),
        read_schemas(published(commits), ids) == Some(schemas),
        is_plan(schemas, current, next_plan),
        is_progress(next_plan, Seq::empty(), result),
    ensures
        result matches Ok(Progress::Done(more)) && more@.len() == 0,
{
    lemma_first_plan_is_new(current, plan);
    lemma_first_publication(plan, commits);
    law_first_update_of_unrelated_schemas_needs_no_second(
        current,
        plan,
        replies_of(commits),
        published(commits),
        ids,
        schemas,
        next_plan,
        Seq::empty(),
    );
    lemma_idle_progress(next_plan, result);
}

} // verus!
