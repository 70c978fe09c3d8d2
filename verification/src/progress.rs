//! How executions of plans go on, fail and end.
use crate::bridge::{encoded_operation, is_view_id, operation_model, schema_id_model};
use crate::calls::lemma_same_texts;
use crate::commit::{Commit, CommitModel};
use crate::current::CurrentSchema;
use crate::diff::{
    field_diff_models, get_diff, lemma_field_diff_models, FieldDiff, FieldDiffModel, FieldTypeDiff,
    SchemaDiff, SchemaDiffModel,
};
use crate::error::UpdateError;
use crate::executor::{
    execute_plan, is_progress, records, replies_of, run_with, PendingCommit, Progress,
};
use crate::laws::{
    are_fields_current, is_field_current, is_schema_current, law_only_changes_need_operations,
    law_only_encoding_can_fail, previous_field_ids, previous_ids, previous_ids_of_field,
    previous_ids_of_fields, previous_ids_of_plans,
};
use crate::operation::{OperationModel, PreparedOperation};
use crate::panda::{SchemaIdModel, SystemSchema};
use crate::plan::{lemma_run_plans, replies_behind, run_field, run_fields, run_plans, run_schema};
use crate::planned::{
    compares, compares_field, is_first_named, is_first_view, is_wanted, is_wanted_field,
    law_plan_compares_committed_and_wanted_schemas, same_field_view,
};
use crate::previous::{PreviousSchema, PreviousSchemas};
use crate::schema_file::{RelationId, SchemaField};
use crate::update::{
    has_wanted_type, is_committed, is_execution, lemma_execution, lemma_wanted_type, operation_of,
    pending_at,
};
use vstd::prelude::*;

verus! {

/// The schema of the document that an operation creates or updates.
pub open spec fn schema_of_model(operation: OperationModel) -> SystemSchema {
    match operation {
        OperationModel::Create { schema, .. } => schema,
        OperationModel::Update { schema, .. } => schema,
    }
}

/// What is published is what is committed: the operation that an execution gave out to be published
/// is the one in the commit, with the bytes of the commit and with the schema of that operation.
pub proof fn law_published_operation_is_the_committed_one(
    plans: Vec<SchemaDiff>,
    entries: Seq<Vec<u8>>,
    progress: Seq<Result<Progress, UpdateError>>,
    commits: Vec<Commit>,
    k: int,
    prepared: &PreparedOperation,
)
    requires
        is_execution(plans, entries, progress),
        progress.last() == Ok::<Progress, UpdateError>(Progress::Done(commits)),
        0 <= k < entries.len(),
        call_ensures(PendingCommit::operation, (&pending_at(progress, k),), prepared),
    ensures
        commits@.len() == entries.len(),
        commits@[k].operation@ == prepared.encoded@,
        operation_of(commits@[k]) is Some,
        operation_model(prepared.operation) == operation_of(commits@[k]),
        schema_id_model(*prepared.schema) == SchemaIdModel::System(
            schema_of_model(operation_of(commits@[k])->0),
        ),
{
    let models = lemma_execution(plans, entries, progress, entries.len() as int);
    let earlier = lemma_execution(plans, entries, progress, k);
    let operations = run_with(plans.deep_view(), models).operations;
    assert(commits.deep_view() == models);
    assert(commits.deep_view()[k] == commits@[k].deep_view());
    assert(records(models[k], operations[k]));
    assert(progress[k] matches Ok(Progress::Publish(_))) by {
        assert(is_committed(progress[k], entries[k], progress[k + 1]));
    }
    assert(models[k].operation == pending_at(progress, k).prepared_operation().encoded@);
}

/// An execution only fails where the operation that comes next holds an invalid view id, or where
/// p2panda can not encode it.
pub proof fn law_executions_fail_with_the_next_operation(
    plans: Vec<SchemaDiff>,
    entries: Seq<Vec<u8>>,
    progress: Seq<Result<Progress, UpdateError>>,
    k: int,
)
    requires
        is_execution(plans, entries, progress),
        0 <= k < progress.len(),
    ensures
        match progress[k] {
            Ok(_) => true,
            Err(UpdateError::InvalidViewId(_)) => true,
            Err(UpdateError::EncodeOperation(error)) => exists|operation: OperationModel|
                #[trigger] encoded_operation(operation) matches Err(reason) && reason == error,
            Err(_) => false,
        },
{
    let models = lemma_execution(plans, entries, progress, k);
    if let Err(error) = progress[k] {
        let operation = run_with(plans.deep_view(), models).operations.last();
        if let UpdateError::EncodeOperation(reason) = error {
            assert(encoded_operation(operation) matches Err(found) && found == reason);
        }
    }
}

/// The view ids of all previous definitions are valid.
pub open spec fn have_valid_ids(previous: Map<Seq<char>, PreviousSchema>) -> bool {
    forall|name: Seq<char>| #[trigger]
        previous.contains_key(name) ==> is_view_id(previous[name].schema_view.view_id@) && forall|
            k: int,
        |
            0 <= k < previous[name].schema_field_views@.len() ==> is_view_id(
                (#[trigger] previous[name].schema_field_views@[k]).id@,
            )
}

proof fn lemma_valid_schema_ids(
    previous: Map<Seq<char>, PreviousSchema>,
    current: Seq<CurrentSchema>,
    diff: SchemaDiff,
    id: Seq<char>,
)
    requires
        have_valid_ids(previous),
        compares(previous, current, diff),
        previous_ids(diff.deep_view()).contains(id),
    ensures
        is_view_id(id),
    decreases diff,
{
    let model = diff.deep_view();
    if previous_ids_of_fields(model.fields).contains(id) {
        assert forall|i: int| 0 <= i < diff.current_fields@.len() implies compares_field(
            previous,
            current,
            diff.name@,
            #[trigger] diff.current_fields@[i],
        ) by {}
        lemma_valid_fields_ids(previous, current, diff.name@, diff.current_fields@, id);
    }
}

proof fn lemma_valid_fields_ids(
    previous: Map<Seq<char>, PreviousSchema>,
    current: Seq<CurrentSchema>,
    schema: Seq<char>,
    diffs: Seq<FieldDiff>,
    id: Seq<char>,
)
    requires
        have_valid_ids(previous),
        forall|i: int|
            0 <= i < diffs.len() ==> compares_field(previous, current, schema, #[trigger] diffs[i]),
        previous_ids_of_fields(field_diff_models(diffs)).contains(id),
    ensures
        is_view_id(id),
    decreases diffs,
{
    lemma_field_diff_models(diffs);
    let models = field_diff_models(diffs);
    let front = diffs.drop_last();
    assert(models.drop_last() =~= field_diff_models(front));
    if previous_ids_of_fields(field_diff_models(front)).contains(id) {
        assert forall|i: int| 0 <= i < front.len() implies compares_field(
            previous,
            current,
            schema,
            #[trigger] front[i],
        ) by {
            assert(front[i] == diffs[i]);
        }
        lemma_valid_fields_ids(previous, current, schema, front, id);
    } else {
        let last = diffs[diffs.len() - 1];
        assert(compares_field(previous, current, schema, last));
        assert(models.last() == last.deep_view());
        assert(decreases_to!(diffs => diffs[diffs.len() - 1]));
        assert(previous_ids_of_field(last.deep_view()).contains(id));
        if let Some(view) = last.previous_field_view {
            assert(last.deep_view().previous == Some(view.deep_view()));
            let committed = previous[schema].schema_field_views@;
            let k = choose|k: int| #[trigger]
                is_first_view(committed, last.name@, k) && same_field_view(view, committed[k]);
            assert(is_view_id(committed[k].id@));
        }
        if last.previous_field_view is None {
            assert(last.deep_view().previous is None);
        }
        if let FieldTypeDiff::Relation(_, inner) = last.current_field_type {
            if previous_ids(inner.deep_view()).contains(id) {
                lemma_valid_schema_ids(previous, current, inner, id);
            }
        }
    }
}

/// Where the view ids of all previous definitions are valid, the execution of a plan only fails where
/// p2panda can not encode an operation.
pub proof fn law_valid_ids_stay_valid(
    previous: PreviousSchemas,
    current: Vec<CurrentSchema>,
    plans: Vec<SchemaDiff>,
    entries: Seq<Vec<u8>>,
    progress: Seq<Result<Progress, UpdateError>>,
    k: int,
)
    requires
        have_valid_ids(previous@),
        call_ensures(
            get_diff,
            (previous, current),
            Ok::<Vec<SchemaDiff>, UpdateError>(plans),
        ),
        is_execution(plans, entries, progress),
        0 <= k < progress.len(),
    ensures
        progress[k] matches Err(error) ==> error is EncodeOperation,
{
    let models = plans.deep_view();
    let made = lemma_execution(plans, entries, progress, k);
    law_plan_compares_committed_and_wanted_schemas(
        previous,
        current,
        Ok::<Vec<SchemaDiff>, UpdateError>(plans),
    );
    assert forall|id: Seq<char>| #[trigger]
        previous_ids_of_plans(models).contains(id) implies is_view_id(id) by {
        let i = lemma_plan_of_id(models, id);
        assert(models[i] == plans@[i].deep_view());
        lemma_valid_schema_ids(previous@, current@, plans@[i], id);
    }
    law_only_encoding_can_fail(models, made, progress[k]);
}

proof fn lemma_plan_of_id(plans: Seq<SchemaDiffModel>, id: Seq<char>) -> (i: int)
    requires
        previous_ids_of_plans(plans).contains(id),
    ensures
        0 <= i < plans.len(),
        previous_ids(plans[i]).contains(id),
    decreases plans.len(),
{
    if previous_ids(plans.last()).contains(id) {
        plans.len() - 1
    } else {
        lemma_plan_of_id(plans.drop_last(), id)
    }
}

/// The number of definitions in a diff: that of the schema, those of its fields and those of all that
/// they link to.
pub open spec fn definitions_in(diff: SchemaDiff) -> nat
    decreases diff,
{
    1 + definitions_in_fields(diff.current_fields@)
}

/// The number of definitions of fields and of all that they link to.
pub open spec fn definitions_in_fields(diffs: Seq<FieldDiff>) -> nat
    decreases diffs,
{
    if diffs.len() == 0 {
        0
    } else {
        definitions_in_fields(diffs.drop_last()) + definitions_in_field(diffs.last())
    }
}

/// The number of definitions of a field and of all that it links to.
pub open spec fn definitions_in_field(diff: FieldDiff) -> nat
    decreases diff,
{
    match diff.current_field_type {
        FieldTypeDiff::Field(_) => 1,
        FieldTypeDiff::Relation(_, schema) => 1 + definitions_in(schema),
    }
}

/// The number of definitions in plans.
pub open spec fn definitions_in_plans(plans: Seq<SchemaDiff>) -> nat
    decreases plans.len(),
{
    if plans.len() == 0 {
        0
    } else {
        definitions_in_plans(plans.drop_last()) + definitions_in(plans.last())
    }
}

proof fn lemma_operations_of_schema(diff: SchemaDiff, replies: Seq<Seq<char>>)
    ensures
        run_schema(diff.deep_view(), replies).operations.len() <= definitions_in(diff),
    decreases diff,
{
    lemma_operations_of_fields(diff.current_fields@, replies);
}

proof fn lemma_operations_of_fields(diffs: Seq<FieldDiff>, replies: Seq<Seq<char>>)
    ensures
        run_fields(field_diff_models(diffs), replies).operations.len() <= definitions_in_fields(
            diffs,
        ),
    decreases diffs,
{
    if diffs.len() > 0 {
        let front = diffs.drop_last();
        let models = field_diff_models(diffs);
        lemma_field_diff_models(diffs);
        assert(models.drop_last() =~= field_diff_models(front));
        let left = replies_behind(run_fields(field_diff_models(front), replies), replies);
        lemma_operations_of_fields(front, replies);
        let last = diffs[diffs.len() - 1];
        assert(decreases_to!(diffs => diffs[diffs.len() - 1]));
        assert(models.last() == last.deep_view());
        match last.current_field_type {
            FieldTypeDiff::Relation(_, inner) => {
                lemma_operations_of_schema(inner, left);
                assert(run_field(last.deep_view(), left).operations.len() <= definitions_in_field(
                    last,
                ));
            },
            FieldTypeDiff::Field(_) => {
                assert(run_field(last.deep_view(), left).operations.len() <= 1);
            },
        }
    }
}

proof fn lemma_operations_of_plans(plans: Vec<SchemaDiff>, replies: Seq<Seq<char>>, count: int)
    requires
        0 <= count <= plans@.len(),
    ensures
        run_plans(plans.deep_view().take(count), replies).operations.len() <= definitions_in_plans(
            plans@.take(count),
        ),
    decreases count,
{
    if count > 0 {
        let models = plans.deep_view().take(count);
        let front = plans.deep_view().take(count - 1);
        assert(models.drop_last() =~= front);
        assert(plans@.take(count).drop_last() =~= plans@.take(count - 1));
        assert(models.last() == plans@[count - 1].deep_view());
        let left = replies_behind(run_plans(front, replies), replies);
        lemma_operations_of_plans(plans, replies, count - 1);
        lemma_operations_of_schema(plans@[count - 1], left);
    }
}

/// Every execution ends: at most one operation is published for each definition in the plans.
pub proof fn law_each_definition_is_published_once_at_most(
    plans: Vec<SchemaDiff>,
    entries: Seq<Vec<u8>>,
    progress: Seq<Result<Progress, UpdateError>>,
    k: int,
)
    requires
        is_execution(plans, entries, progress),
        0 <= k < progress.len(),
    ensures
        k <= definitions_in_plans(plans@),
        progress[k] matches Ok(Progress::Publish(_)) ==> k < definitions_in_plans(plans@),
{
    let made = lemma_execution(plans, entries, progress, k);
    let models = plans.deep_view();
    let replies = replies_of(made);
    lemma_run_plans(models, replies);
    assert(models.take(plans@.len() as int) =~= models);
    assert(plans@.take(plans@.len() as int) =~= plans@);
    lemma_operations_of_plans(plans, replies, plans@.len() as int);
}

/// The committed version of a schema is what the user wants: it has the description and, in their
/// order, the fields, each with the wanted type in the version of the linked schema.
pub open spec fn is_as_wanted(
    previous: Map<Seq<char>, PreviousSchema>,
    schema: CurrentSchema,
) -> bool {
    let name = schema.name@;
    let view = previous[name].schema_view;
    let entries = schema.fields.entries@;
    &&& previous.contains_key(name)
    &&& view.description@ == schema.description@
    &&& view.fields@.len() == entries.len()
    &&& forall|i: int|
        0 <= i < entries.len() ==> is_field_as_wanted(
            previous,
            previous[name],
            (#[trigger] entries[i]).0@,
            entries[i].1,
            view.fields@[i]@,
        )
}

/// The committed version of a field has the wanted type, and the schema pins it.
pub open spec fn is_field_as_wanted(
    previous: Map<Seq<char>, PreviousSchema>,
    schema: PreviousSchema,
    name: Seq<char>,
    field: SchemaField,
    id: Seq<char>,
) -> bool {
    exists|k: int| #[trigger]
        is_first_view(schema.schema_field_views@, name, k) && schema.schema_field_views@[k].id@ == id
            && has_wanted_type(
            field,
            linked_version(previous, field),
            schema.schema_field_views@[k].field_type,
        )
}

/// The committed version of the schema that a field links to.
pub open spec fn linked_version(
    previous: Map<Seq<char>, PreviousSchema>,
    field: SchemaField,
) -> Seq<char> {
    match field {
        SchemaField::Relation { schema, .. } => match schema.id {
            RelationId::Name(name) => previous[name@].schema_view.view_id@,
            RelationId::Id(id) => Seq::empty(),
        },
        SchemaField::Field { .. } => Seq::empty(),
    }
}

proof fn lemma_current(
    previous: Map<Seq<char>, PreviousSchema>,
    current: Seq<CurrentSchema>,
    diff: SchemaDiff,
)
    requires
        compares(previous, current, diff),
        forall|n: int|
            0 <= n < current.len() ==> is_as_wanted(previous, #[trigger] current[n]),
    ensures
        is_schema_current(diff.deep_view()),
        previous.contains_key(diff.name@),
        diff.deep_view().previous matches Some(view) && view.view_id
            == previous[diff.name@].schema_view.view_id@,
    decreases diff,
{
    let model = diff.deep_view();
    let name = diff.name@;
    let n = choose|n: int| #[trigger]
        is_first_named(current, name, n) && is_wanted(current[n], diff);
    let entries = current[n].fields.entries@;
    assert(is_as_wanted(previous, current[n]));
    let committed = previous[name].schema_view;
    let view = diff.previous_schema_view->0;
    lemma_same_texts(view.fields, committed.fields);
    assert(model.previous == Some(view.deep_view()));
    lemma_field_diff_models(diff.current_fields@);
    assert forall|i: int| 0 <= i < model.fields.len() implies is_field_current(
        #[trigger] model.fields[i],
    ) && (model.fields[i].previous->0).id == committed.fields@[i]@ by {
        let field = diff.current_fields@[i];
        assert(model.fields[i] == field.deep_view());
        assert(is_wanted_field(entries[i], field));
        assert(compares_field(previous, current, name, field));
        assert(entries[i].0@ == field.name@);
        assert(is_field_as_wanted(
            previous,
            previous[name],
            entries[i].0@,
            entries[i].1,
            committed.fields@[i]@,
        ));
        let views = previous[name].schema_field_views@;
        let linked = linked_version(previous, entries[i].1);
        let k = choose|k: int| #[trigger]
            is_first_view(views, entries[i].0@, k) && views[k].id@ == committed.fields@[i]@
                && has_wanted_type(entries[i].1, linked, views[k].field_type);
        if field.previous_field_view is None {
            assert(views[k].name@ != field.name@);
        }
        let earlier = field.previous_field_view->0;
        let j = choose|j: int| #[trigger]
            is_first_view(views, field.name@, j) && same_field_view(earlier, views[j]);
        if j < k {
            assert(views[j].name@ != field.name@);
        } else if k < j {
            assert(views[k].name@ != field.name@);
        }
        assert(field.deep_view().previous == Some(earlier.deep_view()));
        lemma_wanted_type(entries[i], field, linked, views[k].field_type);
        assert(earlier.field_type.deep_view() == views[k].field_type.deep_view());
        if let FieldTypeDiff::Relation(_, inner) = field.current_field_type {
            assert(decreases_to!(diff => diff.current_fields@));
            assert(decreases_to!(diff.current_fields@ => diff.current_fields@[i]));
            lemma_current(previous, current, inner);
        }
    }
    lemma_fields_current(model.fields);
    assert(view.fields.deep_view().len() == model.fields.len());
    assert forall|i: int| 0 <= i < model.fields.len() implies view.fields.deep_view()[i]
        == previous_field_ids(model.fields)[i] by {
        assert(is_field_current(model.fields[i]));
        assert(view.fields@[i]@ == committed.fields@[i]@);
    }
    assert(view.fields.deep_view() =~= previous_field_ids(model.fields));
}

proof fn lemma_fields_current(diffs: Seq<FieldDiffModel>)
    requires
        forall|i: int| 0 <= i < diffs.len() ==> is_field_current(#[trigger] diffs[i]),
    ensures
        are_fields_current(diffs),
    decreases diffs.len(),
{
    if diffs.len() > 0 {
        let front = diffs.drop_last();
        assert forall|i: int| 0 <= i < front.len() implies is_field_current(#[trigger] front[i]) by {
            assert(front[i] == diffs[i]);
        }
        lemma_fields_current(front);
        assert(is_field_current(diffs[diffs.len() - 1]));
    }
}

proof fn lemma_idle_plans(plans: Seq<SchemaDiffModel>)
    requires
        forall|i: int| 0 <= i < plans.len() ==> is_schema_current(#[trigger] plans[i]),
    ensures
        run_plans(plans, Seq::empty()).operations.len() == 0,
        run_plans(plans, Seq::empty()).view_ids is Some,
    decreases plans.len(),
{
    if plans.len() > 0 {
        let front = plans.drop_last();
        assert forall|i: int| 0 <= i < front.len() implies is_schema_current(#[trigger] front[i]) by {
            assert(front[i] == plans[i]);
        }
        lemma_idle_plans(front);
        let left = replies_behind(run_plans(front, Seq::empty()), Seq::<Seq<char>>::empty());
        assert(is_schema_current(plans[plans.len() - 1]));
        law_only_changes_need_operations(plans.last(), left);
    }
}

/// Where all committed schemas are what the user wants, there is nothing to do: executing the plan is
/// done at once, without any commits.
pub proof fn law_nothing_is_committed_where_nothing_differs(
    previous: PreviousSchemas,
    current: Vec<CurrentSchema>,
    plans: Vec<SchemaDiff>,
    result: Result<Progress, UpdateError>,
)
    requires
        forall|n: int|
            0 <= n < current@.len() ==> is_as_wanted(previous@, #[trigger] current@[n]),
        call_ensures(
            get_diff,
            (previous, current),
            Ok::<Vec<SchemaDiff>, UpdateError>(plans),
        ),
        call_ensures(execute_plan, (&plans,), result),
    ensures
        result matches Ok(Progress::Done(commits)) && commits@.len() == 0,
{
    let models = plans.deep_view();
    law_plan_compares_committed_and_wanted_schemas(
        previous,
        current,
        Ok::<Vec<SchemaDiff>, UpdateError>(plans),
    );
    assert forall|i: int| 0 <= i < models.len() implies is_schema_current(#[trigger] models[i]) by {
        assert(models[i] == plans@[i].deep_view());
        lemma_current(previous@, current@, plans@[i]);
    }
    lemma_idle_plans(models);
    let nothing = Seq::<CommitModel>::empty();
    assert(replies_of(nothing) =~= Seq::empty());
    assert(is_progress(models, nothing, result));
    if let Ok(Progress::Done(commits)) = result {
        assert(commits.deep_view().len() == 0);
    }
}

/// Plans can be executed, and every entry can be committed.
pub proof fn law_executions_can_go_on(
    plans: Vec<SchemaDiff>,
    pending: PendingCommit,
    entry: Vec<u8>,
)
    ensures
        call_requires(execute_plan, (&plans,)),
        call_requires(PendingCommit::operation, (&pending,)),
        call_requires(PendingCommit::commit, (pending, &entry)),
{
}

/// Nothing was committed earlier.
pub open spec fn is_nothing(previous: Map<Seq<char>, PreviousSchema>) -> bool {
    forall|name: Seq<char>| !#[trigger] previous.contains_key(name)
}

proof fn lemma_new_schema(
    previous: Map<Seq<char>, PreviousSchema>,
    current: Seq<CurrentSchema>,
    diff: SchemaDiff,
    replies: Seq<Seq<char>>,
)
    requires
        is_nothing(previous),
        compares(previous, current, diff),
        run_schema(diff.deep_view(), replies).view_ids is Some,
    ensures
        run_schema(diff.deep_view(), replies).operations.len() == definitions_in(diff),
    decreases diff,
{
    assert forall|i: int| 0 <= i < diff.current_fields@.len() implies compares_field(
        previous,
        current,
        diff.name@,
        #[trigger] diff.current_fields@[i],
    ) by {}
    assert(!previous.contains_key(diff.name@));
    assert(diff.deep_view().previous is None);
    lemma_new_fields(previous, current, diff.name@, diff.current_fields@, replies);
}

proof fn lemma_new_fields(
    previous: Map<Seq<char>, PreviousSchema>,
    current: Seq<CurrentSchema>,
    schema: Seq<char>,
    diffs: Seq<FieldDiff>,
    replies: Seq<Seq<char>>,
)
    requires
        is_nothing(previous),
        forall|i: int|
            0 <= i < diffs.len() ==> compares_field(previous, current, schema, #[trigger] diffs[i]),
        run_fields(field_diff_models(diffs), replies).view_ids is Some,
    ensures
        run_fields(field_diff_models(diffs), replies).operations.len() == definitions_in_fields(
            diffs,
        ),
    decreases diffs,
{
    if diffs.len() > 0 {
        let front = diffs.drop_last();
        let models = field_diff_models(diffs);
        lemma_field_diff_models(diffs);
        assert(models.drop_last() =~= field_diff_models(front));
        let left = replies_behind(run_fields(field_diff_models(front), replies), replies);
        assert forall|i: int| 0 <= i < front.len() implies compares_field(
            previous,
            current,
            schema,
            #[trigger] front[i],
        ) by {
            assert(front[i] == diffs[i]);
        }
        lemma_new_fields(previous, current, schema, front, replies);
        let last = diffs[diffs.len() - 1];
        assert(compares_field(previous, current, schema, last));
        assert(!previous.contains_key(schema));
        assert(last.deep_view().previous is None);
        assert(models.last() == last.deep_view());
        assert(decreases_to!(diffs => diffs[diffs.len() - 1]));
        assert(run_field(last.deep_view(), left).view_ids is Some);
        match last.current_field_type {
            FieldTypeDiff::Relation(_, inner) => {
                lemma_new_schema(previous, current, inner, left);
                assert(run_field(last.deep_view(), left).operations.len() == definitions_in_field(
                    last,
                ));
            },
            FieldTypeDiff::Field(_) => {
                assert(run_field(last.deep_view(), left).operations.len() == 1);
            },
        }
    }
}

proof fn lemma_new_plans(
    previous: Map<Seq<char>, PreviousSchema>,
    current: Seq<CurrentSchema>,
    plans: Vec<SchemaDiff>,
    replies: Seq<Seq<char>>,
    count: int,
)
    requires
        is_nothing(previous),
        forall|i: int| 0 <= i < plans@.len() ==> compares(previous, current, #[trigger] plans@[i]),
        0 <= count <= plans@.len(),
        run_plans(plans.deep_view().take(count), replies).view_ids is Some,
    ensures
        run_plans(plans.deep_view().take(count), replies).operations.len() == definitions_in_plans(
            plans@.take(count),
        ),
    decreases count,
{
    if count > 0 {
        let models = plans.deep_view().take(count);
        let front = plans.deep_view().take(count - 1);
        assert(models.drop_last() =~= front);
        assert(plans@.take(count).drop_last() =~= plans@.take(count - 1));
        assert(models.last() == plans@[count - 1].deep_view());
        let left = replies_behind(run_plans(front, replies), replies);
        lemma_new_plans(previous, current, plans, replies, count - 1);
        assert(compares(previous, current, plans@[count - 1]));
        lemma_new_schema(previous, current, plans@[count - 1], left);
    }
}

/// A first update commits every definition in the plan: that of each schema and of each of its
/// fields, as often as the plan holds it.
pub proof fn law_first_update_commits_every_definition(
    previous: PreviousSchemas,
    current: Vec<CurrentSchema>,
    plans: Vec<SchemaDiff>,
    entries: Seq<Vec<u8>>,
    progress: Seq<Result<Progress, UpdateError>>,
    commits: Vec<Commit>,
)
    requires
        is_nothing(previous@),
        call_ensures(
            get_diff,
            (previous, current),
            Ok::<Vec<SchemaDiff>, UpdateError>(plans),
        ),
        is_execution(plans, entries, progress),
        progress.last() == Ok::<Progress, UpdateError>(Progress::Done(commits)),
    ensures
        commits@.len() == definitions_in_plans(plans@),
{
    let made = lemma_execution(plans, entries, progress, entries.len() as int);
    let models = plans.deep_view();
    assert(commits.deep_view() == made);
    law_plan_compares_committed_and_wanted_schemas(
        previous,
        current,
        Ok::<Vec<SchemaDiff>, UpdateError>(plans),
    );
    assert(models.take(plans@.len() as int) =~= models);
    assert(plans@.take(plans@.len() as int) =~= plans@);
    lemma_new_plans(previous@, current@, plans, replies_of(made), plans@.len() as int);
}

} // verus!
