//! Plans as flat lists of steps.
use crate::diff::{
    field_diff_models, FieldDiff, FieldDiffModel, FieldTypeDiff, FieldTypeDiffModel, SchemaDiff,
    SchemaDiffModel,
};
use crate::operation::{all_fields_count, given_fields, Operation, OperationModel};
use crate::panda::{
    basic_type, relation_type, DocumentViewId, PandaFieldType, SchemaFieldView,
    SchemaFieldViewModel, SchemaId, SchemaIdModel, SchemaView, SchemaViewModel,
};
use crate::plan::{
    after, field_change, field_operation, field_view_id, lemma_run_field, lemma_run_fields,
    lemma_run_plans, lemma_run_schema, replies_behind, run_field, run_fields, run_plans, run_schema,
    schema_change, schema_operation, schema_view_id, with_change, Run,
};
use crate::schema_file::{FieldName, FieldType, RelationType, SchemaDescription, SchemaName};
use vstd::prelude::*;

verus! {

/// Step of an execution. It works on a stack of view ids, of which it takes those that it depends
/// on and to which it adds the one of the definition that it brings up to date.
#[allow(inconsistent_fields)]
pub enum Step {
    /// Field of a basic type.
    Field { name: FieldName, previous: Option<SchemaFieldView>, field_type: FieldType },
    /// Field that relates to the schema `schema`, whose view id it takes.
    Relation {
        name: FieldName,
        previous: Option<SchemaFieldView>,
        kind: RelationType,
        schema: SchemaName,
    },
    /// Schema, which takes the view ids of its `count` fields.
    Schema {
        name: SchemaName,
        previous: Option<SchemaView>,
        description: SchemaDescription,
        count: usize,
    },
}

/// Model of a [`Step`].
#[allow(inconsistent_fields)]
pub enum StepModel {
    Field { name: Seq<char>, previous: Option<SchemaFieldViewModel>, field_type: FieldType },
    Relation {
        name: Seq<char>,
        previous: Option<SchemaFieldViewModel>,
        kind: RelationType,
        schema: Seq<char>,
    },
    Schema {
        name: Seq<char>,
        previous: Option<SchemaViewModel>,
        description: Seq<char>,
        count: nat,
    },
}

impl DeepView for Step {
    type V = StepModel;

    open spec fn deep_view(&self) -> StepModel {
        match self {
            Step::Field { name, previous, field_type } => StepModel::Field {
                name: name@,
                previous: previous.deep_view(),
                field_type: *field_type,
            },
            Step::Relation { name, previous, kind, schema } => StepModel::Relation {
                name: name@,
                previous: previous.deep_view(),
                kind: *kind,
                schema: schema@,
            },
            Step::Schema { name, previous, description, count } => StepModel::Schema {
                name: name@,
                previous: previous.deep_view(),
                description: description@,
                count: *count as nat,
            },
        }
    }
}

/// Number of view ids that the step takes.
pub open spec fn taken_count(step: StepModel) -> nat {
    match step {
        StepModel::Field { .. } => 0,
        StepModel::Relation { .. } => 1,
        StepModel::Schema { count, .. } => count,
    }
}

/// What the step leaves of the stack.
pub open spec fn left_ids(step: StepModel, stack: Seq<Seq<char>>) -> Seq<Seq<char>> {
    stack.take(stack.len() - taken_count(step))
}

/// What the step takes of the stack.
pub open spec fn taken_ids(step: StepModel, stack: Seq<Seq<char>>) -> Seq<Seq<char>> {
    stack.skip(stack.len() - taken_count(step))
}

/// The operation that the step needs, given the view ids that it took.
pub open spec fn step_change(step: StepModel, taken: Seq<Seq<char>>) -> Option<
    OperationModel,
> {
    match step {
        StepModel::Field { name, previous, field_type } => field_change(
            name,
            previous,
            basic_type(field_type),
        ),
        StepModel::Relation { name, previous, kind, schema } => field_change(
            name,
            previous,
            relation_type(kind, SchemaIdModel::Application(schema, taken[0])),
        ),
        StepModel::Schema { name, previous, description, .. } => schema_change(
            name,
            previous,
            description,
            taken,
        ),
    }
}

/// View id that the step adds where it needs no operation.
pub open spec fn unchanged_id(step: StepModel) -> Seq<char> {
    match step {
        StepModel::Field { previous, .. } => field_view_id(previous),
        StepModel::Relation { previous, .. } => field_view_id(previous),
        StepModel::Schema { previous, .. } => schema_view_id(previous),
    }
}

/// The run that goes on with `run` after these operations.
pub open spec fn behind(operations: Seq<OperationModel>, run: Run) -> Run {
    Run { operations: operations + run.operations, view_ids: run.view_ids }
}

/// Executes steps on a stack of view ids. The run comes to the stack that is left in the end.
pub open spec fn run_steps(
    steps: Seq<StepModel>,
    stack: Seq<Seq<char>>,
    replies: Seq<Seq<char>>,
) -> Run
    decreases steps.len(), 1int,
{
    if steps.len() == 0 {
        Run { operations: Seq::empty(), view_ids: Some(stack) }
    } else {
        let left = left_ids(steps[0], stack);
        match step_change(steps[0], taken_ids(steps[0], stack)) {
            None => run_steps(steps.skip(1), left.push(unchanged_id(steps[0])), replies),
            Some(operation) => run_waiting(operation, steps.skip(1), left, replies),
        }
    }
}

/// Waits for the reply to an operation, adds it to the stack and executes the steps behind.
pub open spec fn run_waiting(
    operation: OperationModel,
    steps: Seq<StepModel>,
    stack: Seq<Seq<char>>,
    replies: Seq<Seq<char>>,
) -> Run
    decreases steps.len(), 2int,
{
    if replies.len() == 0 {
        Run { operations: seq![operation], view_ids: None }
    } else {
        behind(seq![operation], run_steps(steps, stack.push(replies[0]), replies.skip(1)))
    }
}

/// Every step finds the view ids that it takes on a stack of this height.
pub open spec fn fits(steps: Seq<StepModel>, height: int) -> bool
    decreases steps.len(),
{
    steps.len() == 0 || (taken_count(steps[0]) <= height && fits(
        steps.skip(1),
        height - taken_count(steps[0]) + 1,
    ))
}

/// Last step of a schema.
pub open spec fn schema_step(diff: SchemaDiffModel) -> StepModel {
    StepModel::Schema {
        name: diff.name,
        previous: diff.previous,
        description: diff.description,
        count: diff.fields.len(),
    }
}

/// Last step of a field.
pub open spec fn field_step(diff: FieldDiffModel) -> StepModel {
    match diff.field_type {
        FieldTypeDiffModel::Field(field_type) => StepModel::Field {
            name: diff.name,
            previous: diff.previous,
            field_type,
        },
        FieldTypeDiffModel::Relation(kind, schema) => StepModel::Relation {
            name: diff.name,
            previous: diff.previous,
            kind,
            schema: schema.name,
        },
    }
}

/// Steps of a schema: those of its fields, then its own.
pub open spec fn schema_steps(diff: SchemaDiffModel) -> Seq<StepModel>
    decreases diff,
{
    field_list_steps(diff.fields).push(schema_step(diff))
}

/// Steps of fields, one field after the other.
pub open spec fn field_list_steps(diffs: Seq<FieldDiffModel>) -> Seq<StepModel>
    decreases diffs,
{
    if diffs.len() == 0 {
        Seq::empty()
    } else {
        field_list_steps(diffs.drop_last()) + field_steps(diffs.last())
    }
}

/// Steps of a field: those of the schema that it links to, then its own.
pub open spec fn field_steps(diff: FieldDiffModel) -> Seq<StepModel>
    decreases diff,
{
    match diff.field_type {
        FieldTypeDiffModel::Field(_) => seq![field_step(diff)],
        FieldTypeDiffModel::Relation(_, schema) => schema_steps(schema).push(field_step(diff)),
    }
}

/// Steps of plans, one plan after the other.
pub open spec fn plan_steps(plans: Seq<SchemaDiffModel>) -> Seq<StepModel>
    decreases plans.len(),
{
    if plans.len() == 0 {
        Seq::empty()
    } else {
        plan_steps(plans.drop_last()) + schema_steps(plans.last())
    }
}

/// Copies the previous version of a field.
fn copy_field_view(view: &Option<SchemaFieldView>) -> (copy: Option<SchemaFieldView>)
    ensures
        copy.deep_view() == view.deep_view(),
{
    match view {
        Some(view) => Some(view.clone()),
        None => None,
    }
}

/// Adds the steps of a schema.
fn push_schema_steps(diff: &SchemaDiff, steps: &mut Vec<Step>)
    ensures
        final(steps).deep_view() == old(steps).deep_view() + schema_steps(diff.deep_view()),
    decreases diff,
{
    let ghost before = steps.deep_view();
    assert(field_diff_models(diff.current_fields@.take(0)) =~= Seq::empty());
    assert(before + field_list_steps(Seq::empty()) =~= before);
    for i in 0..diff.current_fields.len()
        invariant
            steps.deep_view() == before + field_list_steps(
                field_diff_models(diff.current_fields@.take(i as int)),
            ),
    {
        let ghost front = field_diff_models(diff.current_fields@.take(i as int));
        push_field_steps(&diff.current_fields[i], steps);
        proof {
            let taken = diff.current_fields@.take(i + 1);
            assert(taken.drop_last() =~= diff.current_fields@.take(i as int));
            assert(field_diff_models(taken).drop_last() =~= front);
            assert(steps.deep_view() =~= before + field_list_steps(field_diff_models(taken)));
        }
    }
    assert(diff.current_fields@.take(diff.current_fields@.len() as int) =~= diff.current_fields@);
    let previous = match &diff.previous_schema_view {
        Some(view) => Some(view.clone()),
        None => None,
    };
    let ghost fields_done = steps.deep_view();
    let step = Step::Schema {
        name: diff.name.clone(),
        previous,
        description: diff.current_description.clone(),
        count: diff.current_fields.len(),
    };
    proof {
        crate::diff::lemma_field_diff_models(diff.current_fields@);
        assert(step.deep_view() == schema_step(diff.deep_view()));
    }
    steps.push(step);
    assert(steps.deep_view() =~= fields_done.push(schema_step(diff.deep_view())));
    assert(steps.deep_view() =~= before + schema_steps(diff.deep_view()));
}

/// Adds the steps of a field.
fn push_field_steps(diff: &FieldDiff, steps: &mut Vec<Step>)
    ensures
        final(steps).deep_view() == old(steps).deep_view() + field_steps(diff.deep_view()),
    decreases diff,
{
    let ghost before = steps.deep_view();
    let name = diff.name.clone();
    let previous = copy_field_view(&diff.previous_field_view);
    let step = match &diff.current_field_type {
        FieldTypeDiff::Field(field_type) => Step::Field {
            name,
            previous,
            field_type: *field_type,
        },
        FieldTypeDiff::Relation(kind, schema) => {
            push_schema_steps(schema, steps);
            Step::Relation { name, previous, kind: *kind, schema: schema.name.clone() }
        },
    };
    let ghost linked_done = steps.deep_view();
    assert(step.deep_view() == field_step(diff.deep_view()));
    steps.push(step);
    assert(steps.deep_view() =~= linked_done.push(field_step(diff.deep_view())));
    assert(steps.deep_view() =~= before + field_steps(diff.deep_view()));
}

/// Flattens plans into steps.
pub fn get_steps(plans: &Vec<SchemaDiff>) -> (steps: Vec<Step>)
    ensures
        steps.deep_view() == plan_steps(plans.deep_view()),
{
    let ghost models = plans.deep_view();
    let mut steps: Vec<Step> = Vec::new();
    assert(steps.deep_view() =~= plan_steps(models.take(0)));
    for i in 0..plans.len()
        invariant
            models == plans.deep_view(),
            steps.deep_view() == plan_steps(models.take(i as int)),
    {
        push_schema_steps(&plans[i], &mut steps);
        assert(models.take(i + 1).drop_last() =~= models.take(i as int));
        assert(models.take(i + 1).last() == plans@[i as int].deep_view());
    }
    assert(models.take(models.len() as int) =~= models);
    steps
}

impl Step {
    /// Takes the view ids that the step depends on from the stack, and decides on the operation
    /// that it needs.
    pub fn take(&self, stack: &mut Vec<DocumentViewId>) -> (operation: Option<Operation>)
        requires
            taken_count(self.deep_view()) <= old(stack)@.len(),
        ensures
            final(stack).deep_view() == left_ids(self.deep_view(), old(stack).deep_view()),
            operation.deep_view() == step_change(
                self.deep_view(),
                taken_ids(self.deep_view(), old(stack).deep_view()),
            ),
            operation matches Some(operation) ==> all_fields_count(given_fields(operation)),
    {
        let count: usize = match self {
            Step::Field { .. } => 0,
            Step::Relation { .. } => 1,
            Step::Schema { count, .. } => *count,
        };
        let at = stack.len() - count;
        let taken = stack.split_off(at);
        proof {
            assert(stack.deep_view() =~= left_ids(self.deep_view(), old(stack).deep_view()));
            assert(taken.deep_view() =~= taken_ids(self.deep_view(), old(stack).deep_view()));
        }
        match self {
            Step::Field { name, previous, field_type } => {
                // Convert all basic field types
                field_operation(name, previous, &PandaFieldType::basic(*field_type))
            },
            Step::Relation { name, previous, kind, schema } => {
                // The linked schema was executed before, its view id now tells the schema id we can
                // use to link to it
                let schema_id = SchemaId::Application(schema.clone(), taken[0].clone());
                field_operation(name, previous, &PandaFieldType::relation(*kind, schema_id))
            },
            Step::Schema { name, previous, description, .. } => {
                schema_operation(name, previous, description, &taken)
            },
        }
    }

    /// Returns the view id of the previous version.
    pub fn previous_id(&self) -> (id: DocumentViewId)
        ensures
            id@ == unchanged_id(self.deep_view()),
    {
        match self {
            Step::Field { previous: Some(view), .. } => view.id.clone(),
            Step::Relation { previous: Some(view), .. } => view.id.clone(),
            Step::Schema { previous: Some(view), .. } => view.view_id.clone(),
            _ => {
                let id = String::new();
                assert(id@ =~= Seq::empty());
                id
            },
        }
    }
}

/// Goes on with the steps `rest` after a run, on top of `stack`.
spec fn continued(
    run: Run,
    rest: Seq<StepModel>,
    stack: Seq<Seq<char>>,
    replies: Seq<Seq<char>>,
) -> Run {
    match run.view_ids {
        None => run,
        Some(ids) => behind(
            run.operations,
            run_steps(rest, stack + ids, replies_behind(run, replies)),
        ),
    }
}

/// One step behind a run that came to the view ids which the step takes.
proof fn lemma_step(
    operations: Seq<OperationModel>,
    step: StepModel,
    stack: Seq<Seq<char>>,
    ids: Seq<Seq<char>>,
    rest: Seq<StepModel>,
    replies: Seq<Seq<char>>,
)
    requires
        operations.len() <= replies.len(),
        ids.len() == taken_count(step),
    ensures
        behind(
            operations,
            run_steps(seq![step] + rest, stack + ids, replies.skip(operations.len() as int)),
        ) == continued(
            with_change(operations, step_change(step, ids), unchanged_id(step), replies),
            rest,
            stack,
            replies,
        ),
{
    let steps = seq![step] + rest;
    let full = stack + ids;
    let left = replies.skip(operations.len() as int);
    assert(steps[0] == step);
    assert(steps.skip(1) =~= rest);
    assert(left_ids(step, full) =~= stack);
    assert(taken_ids(step, full) =~= ids);
    let whole = run_steps(steps, full, left);
    let run = with_change(operations, step_change(step, ids), unchanged_id(step), replies);
    match step_change(step, ids) {
        None => {
            assert(stack.push(unchanged_id(step)) =~= stack + seq![unchanged_id(step)]);
        },
        Some(operation) => {
            if left.len() > 0 {
                let reply = replies[operations.len() as int];
                assert(left[0] == reply);
                assert(stack.push(reply) =~= stack + seq![reply]);
                assert(left.skip(1) =~= replies.skip((operations.len() + 1) as int));
                let tail = run_steps(rest, stack.push(reply), left.skip(1));
                assert(whole == run_waiting(operation, rest, stack, left));
                assert(whole == behind(seq![operation], tail));
                assert(run.view_ids == Some(seq![reply]));
                assert(replies_behind(run, replies) =~= left.skip(1));
                assert(operations + (seq![operation] + tail.operations) =~= operations.push(
                    operation,
                ) + tail.operations);
            } else {
                assert(whole == run_waiting(operation, rest, stack, left));
                assert(operations + seq![operation] =~= operations.push(operation));
            }
        },
    }
}

/// The steps of a schema run as the schema does.
proof fn lemma_schema_steps(
    diff: SchemaDiffModel,
    rest: Seq<StepModel>,
    stack: Seq<Seq<char>>,
    replies: Seq<Seq<char>>,
)
    ensures
        run_steps(schema_steps(diff) + rest, stack, replies) == continued(
            run_schema(diff, replies),
            rest,
            stack,
            replies,
        ),
    decreases diff,
{
    let step = schema_step(diff);
    let fields = run_fields(diff.fields, replies);
    assert(schema_steps(diff) + rest =~= field_list_steps(diff.fields) + (seq![step] + rest));
    lemma_field_list_steps(diff.fields, seq![step] + rest, stack, replies);
    lemma_run_fields(diff.fields, replies);
    if let Some(ids) = fields.view_ids {
        lemma_step(fields.operations, step, stack, ids, rest, replies);
    }
}

/// The steps of fields run as the fields do.
proof fn lemma_field_list_steps(
    diffs: Seq<FieldDiffModel>,
    rest: Seq<StepModel>,
    stack: Seq<Seq<char>>,
    replies: Seq<Seq<char>>,
)
    ensures
        run_steps(field_list_steps(diffs) + rest, stack, replies) == continued(
            run_fields(diffs, replies),
            rest,
            stack,
            replies,
        ),
    decreases diffs,
{
    if diffs.len() == 0 {
        assert(field_list_steps(diffs) + rest =~= rest);
        assert(stack + Seq::empty() =~= stack);
        assert(replies.skip(0) =~= replies);
        let tail = run_steps(rest, stack, replies);
        assert(Seq::<OperationModel>::empty() + tail.operations =~= tail.operations);
    } else {
        let front = run_fields(diffs.drop_last(), replies);
        let last_steps = field_steps(diffs.last());
        assert(field_list_steps(diffs) + rest =~= field_list_steps(diffs.drop_last()) + (last_steps
            + rest));
        lemma_field_list_steps(diffs.drop_last(), last_steps + rest, stack, replies);
        lemma_run_fields(diffs.drop_last(), replies);
        if let Some(ids) = front.view_ids {
            let left = replies_behind(front, replies);
            let last = run_field(diffs.last(), left);
            lemma_field_steps(diffs.last(), rest, stack + ids, left);
            lemma_run_field(diffs.last(), left);
            lemma_after(front, last, rest, stack, replies);
        }
    }
}

/// The steps of a field run as the field does.
proof fn lemma_field_steps(
    diff: FieldDiffModel,
    rest: Seq<StepModel>,
    stack: Seq<Seq<char>>,
    replies: Seq<Seq<char>>,
)
    ensures
        run_steps(field_steps(diff) + rest, stack, replies) == continued(
            run_field(diff, replies),
            rest,
            stack,
            replies,
        ),
    decreases diff,
{
    let step = field_step(diff);
    match diff.field_type {
        FieldTypeDiffModel::Field(_) => {
            assert(stack + Seq::empty() =~= stack);
            assert(replies.skip(0) =~= replies);
            let whole = run_steps(seq![step] + rest, stack, replies);
            assert(Seq::<OperationModel>::empty() + whole.operations =~= whole.operations);
            lemma_step(Seq::empty(), step, stack, Seq::empty(), rest, replies);
        },
        FieldTypeDiffModel::Relation(_, schema) => {
            let linked = run_schema(schema, replies);
            assert(field_steps(diff) + rest =~= schema_steps(schema) + (seq![step] + rest));
            lemma_schema_steps(schema, seq![step] + rest, stack, replies);
            lemma_run_schema(schema, replies);
            if let Some(ids) = linked.view_ids {
                lemma_step(linked.operations, step, stack, ids, rest, replies);
            }
        },
    }
}

/// Two runs, one after the other, and steps behind them.
proof fn lemma_after(
    first: Run,
    second: Run,
    rest: Seq<StepModel>,
    stack: Seq<Seq<char>>,
    replies: Seq<Seq<char>>,
)
    requires
        first.view_ids is Some,
        first.operations.len() <= replies.len(),
        second.view_ids is Some ==> second.operations.len() <= replies_behind(first, replies).len(),
    ensures
        behind(
            first.operations,
            continued(second, rest, stack + first.view_ids->0, replies_behind(first, replies)),
        ) == continued(after(first, second), rest, stack, replies),
{
    let ids = first.view_ids->0;
    if let Some(more) = second.view_ids {
        let left = replies_behind(first, replies);
        assert((stack + ids) + more =~= stack + (ids + more));
        assert(replies_behind(second, left) =~= replies_behind(after(first, second), replies));
        let tail = run_steps(rest, stack + (ids + more), replies_behind(second, left));
        assert(first.operations + (second.operations + tail.operations) =~= (first.operations
            + second.operations) + tail.operations);
    }
}

/// The steps of plans run as the plans do.
proof fn lemma_plan_steps_continued(
    plans: Seq<SchemaDiffModel>,
    rest: Seq<StepModel>,
    replies: Seq<Seq<char>>,
)
    ensures
        run_steps(plan_steps(plans) + rest, Seq::empty(), replies) == continued(
            run_plans(plans, replies),
            rest,
            Seq::empty(),
            replies,
        ),
    decreases plans.len(),
{
    let stack = Seq::<Seq<char>>::empty();
    if plans.len() == 0 {
        assert(plan_steps(plans) + rest =~= rest);
        assert(stack + Seq::empty() =~= stack);
        assert(replies.skip(0) =~= replies);
        let tail = run_steps(rest, stack, replies);
        assert(Seq::<OperationModel>::empty() + tail.operations =~= tail.operations);
    } else {
        let front = run_plans(plans.drop_last(), replies);
        let last_steps = schema_steps(plans.last());
        assert(plan_steps(plans) + rest =~= plan_steps(plans.drop_last()) + (last_steps + rest));
        lemma_plan_steps_continued(plans.drop_last(), last_steps + rest, replies);
        lemma_run_plans(plans.drop_last(), replies);
        if let Some(ids) = front.view_ids {
            let left = replies_behind(front, replies);
            let last = run_schema(plans.last(), left);
            lemma_schema_steps(plans.last(), rest, stack + ids, left);
            lemma_run_schema(plans.last(), left);
            lemma_after(front, last, rest, stack, replies);
        }
    }
}

/// The steps of plans run as the plans do.
pub proof fn lemma_plan_steps(plans: Seq<SchemaDiffModel>, replies: Seq<Seq<char>>)
    ensures
        run_steps(plan_steps(plans), Seq::empty(), replies) == run_plans(plans, replies),
{
    let run = run_plans(plans, replies);
    lemma_plan_steps_continued(plans, Seq::empty(), replies);
    assert(plan_steps(plans) + Seq::empty() =~= plan_steps(plans));
    if let Some(ids) = run.view_ids {
        assert(Seq::empty() + ids =~= ids);
        assert(run.operations + Seq::empty() =~= run.operations);
    }
}

/// The steps of a schema need nothing on the stack and add one view id to it.
proof fn lemma_schema_fits(diff: SchemaDiffModel, rest: Seq<StepModel>, height: int)
    requires
        height >= 0,
        fits(rest, height + 1),
    ensures
        fits(schema_steps(diff) + rest, height),
    decreases diff,
{
    let step = schema_step(diff);
    assert((seq![step] + rest).skip(1) =~= rest);
    assert(schema_steps(diff) + rest =~= field_list_steps(diff.fields) + (seq![step] + rest));
    lemma_field_list_fits(diff.fields, seq![step] + rest, height);
}

proof fn lemma_field_list_fits(diffs: Seq<FieldDiffModel>, rest: Seq<StepModel>, height: int)
    requires
        height >= 0,
        fits(rest, height + diffs.len()),
    ensures
        fits(field_list_steps(diffs) + rest, height),
    decreases diffs,
{
    if diffs.len() == 0 {
        assert(field_list_steps(diffs) + rest =~= rest);
    } else {
        let last_steps = field_steps(diffs.last());
        assert(field_list_steps(diffs) + rest =~= field_list_steps(diffs.drop_last()) + (last_steps
            + rest));
        lemma_field_fits(diffs.last(), rest, height + diffs.len() - 1);
        lemma_field_list_fits(diffs.drop_last(), last_steps + rest, height);
    }
}

proof fn lemma_field_fits(diff: FieldDiffModel, rest: Seq<StepModel>, height: int)
    requires
        height >= 0,
        fits(rest, height + 1),
    ensures
        fits(field_steps(diff) + rest, height),
    decreases diff,
{
    let step = field_step(diff);
    assert((seq![step] + rest).skip(1) =~= rest);
    if let FieldTypeDiffModel::Relation(_, schema) = diff.field_type {
        assert(field_steps(diff) + rest =~= schema_steps(schema) + (seq![step] + rest));
        lemma_schema_fits(schema, seq![step] + rest, height);
    }
}

/// The steps of plans need nothing on the stack.
pub proof fn lemma_plans_fit(plans: Seq<SchemaDiffModel>, rest: Seq<StepModel>)
    requires
        fits(rest, plans.len() as int),
    ensures
        fits(plan_steps(plans) + rest, 0),
    decreases plans.len(),
{
    if plans.len() == 0 {
        assert(plan_steps(plans) + rest =~= rest);
    } else {
        let last_steps = schema_steps(plans.last());
        assert(plan_steps(plans) + rest =~= plan_steps(plans.drop_last()) + (last_steps + rest));
        lemma_schema_fits(plans.last(), rest, plans.len() - 1);
        lemma_plans_fit(plans.drop_last(), last_steps + rest);
    }
}

} // verus!
