//! Laws of plans and of their execution.
use crate::bridge::{
    is_known_system_schema, is_valid_operation, is_valid_value, is_view_id, lemma_hash_is_view_id,
};
use crate::commit::{committed_operation, is_valid_commit, CommitModel};
use crate::current::CurrentSchemaModel;
use crate::diff::{
    has_diff, is_field_diff, is_part, is_part_of_field, is_part_of_plan, is_plan, is_planned,
    is_schema_diff, law_schema_diff_is_unique, previous_field, FieldDiffModel, FieldTypeDiffModel,
    SchemaDiffModel,
};
use crate::error::UpdateError;
use crate::executor::{is_progress, record, records, replies_of, run_with, Progress};
use crate::graph::{is_stuck, lemma_circle, steps_along};
use crate::operation::{operation_fields, operation_schema, OperationModel, OperationValueModel};
use crate::panda::{
    basic_type, related_schema, relation_type, PandaFieldTypeModel, SchemaFieldViewModel,
    SchemaIdModel, SchemaViewModel, SystemSchema,
};
use crate::plan::{
    after, field_change, field_view_id, lemma_run_field, lemma_run_fields, lemma_run_plans,
    lemma_run_schema, replies_behind, run_field, run_fields, run_plans, run_schema, schema_change,
    schema_view_id, with_change, Run,
};
use crate::previous::PreviousSchemaModel;
use crate::relations::{
    find_schema, has_cycle, has_relation_by_id, is_group, is_link, is_path, is_schema_name, is_step,
    lemma_find_schema, linked_name, links_are_known, names_are_distinct, relates,
};
use crate::text::{lemma_ascending_is_unique, text_lt};
use vstd::prelude::*;

verus! {

/// The inputs determine the plan: there is one diff for each group, and their order is that of the
/// names.
pub proof fn law_plan_is_unique(
    previous: Map<Seq<char>, PreviousSchemaModel>,
    current: Seq<CurrentSchemaModel>,
    left: Seq<SchemaDiffModel>,
    right: Seq<SchemaDiffModel>,
)
    requires
        is_plan(previous, current, left),
        is_plan(previous, current, right),
    ensures
        left == right,
{
    let left_names = left.map_values(|diff: SchemaDiffModel| diff.name);
    let right_names = right.map_values(|diff: SchemaDiffModel| diff.name);
    assert forall|name: Seq<char>| #[trigger]
        left_names.contains(name) <==> right_names.contains(name) by {
        lemma_names_of_diffs(left, name);
        lemma_names_of_diffs(right, name);
    }
    assert forall|i: int, j: int| 0 <= i < j < left_names.len() implies text_lt(
        #[trigger] left_names[i],
        #[trigger] left_names[j],
    ) by {
        assert(text_lt(left[i].name, left[j].name));
    }
    assert forall|i: int, j: int| 0 <= i < j < right_names.len() implies text_lt(
        #[trigger] right_names[i],
        #[trigger] right_names[j],
    ) by {
        assert(text_lt(right[i].name, right[j].name));
    }
    lemma_ascending_is_unique(left_names, right_names);
    assert(left_names.len() == right_names.len());
    assert forall|i: int| 0 <= i < left.len() implies left[i] == right[i] by {
        assert(left_names[i] == right_names[i]);
        assert(is_schema_diff(previous, current, left[i].name, left[i]));
        assert(is_schema_diff(previous, current, right[i].name, right[i]));
        law_schema_diff_is_unique(previous, current, left[i].name, left[i], right[i]);
    }
    assert(left =~= right);
}

proof fn lemma_names_of_diffs(diffs: Seq<SchemaDiffModel>, name: Seq<char>)
    ensures
        diffs.map_values(|diff: SchemaDiffModel| diff.name).contains(name) <==> has_diff(
            diffs,
            name,
        ),
{
    let names = diffs.map_values(|diff: SchemaDiffModel| diff.name);
    if names.contains(name) {
        let i = names.index_of(name);
        assert(diffs[i].name == name);
    }
    if has_diff(diffs, name) {
        let i = choose|i: int| 0 <= i < diffs.len() && (#[trigger] diffs[i]).name == name;
        assert(names[i] == name);
    }
}

/// A diff that is linked from a part is a part too.
pub(crate) proof fn lemma_linked_part(
    whole: SchemaDiffModel,
    part: SchemaDiffModel,
    index: int,
    linked: SchemaDiffModel,
)
    requires
        is_part(whole, part),
        0 <= index < part.fields.len(),
        part.fields[index].field_type matches FieldTypeDiffModel::Relation(_, schema) && schema
            == linked,
    ensures
        is_part(whole, linked),
    decreases whole,
{
    if whole == part {
        assert(is_part(linked, linked));
        assert(is_part_of_field(whole.fields[index], linked));
    } else {
        let i = choose|i: int|
            0 <= i < whole.fields.len() && is_part_of_field(#[trigger] whole.fields[i], part);
        let next = whole.fields[i].field_type->Relation_1;
        assert(decreases_to!(whole => whole.fields));
        assert(decreases_to!(whole.fields => whole.fields[i]));
        lemma_linked_part(next, part, index, linked);
        assert(is_part_of_field(whole.fields[i], linked));
    }
}

/// The parts of a diff are diffs themselves.
pub(crate) proof fn lemma_part_is_diff(
    previous: Map<Seq<char>, PreviousSchemaModel>,
    current: Seq<CurrentSchemaModel>,
    name: Seq<char>,
    whole: SchemaDiffModel,
    part: SchemaDiffModel,
)
    requires
        is_schema_diff(previous, current, name, whole),
        is_part(whole, part),
    ensures
        is_schema_diff(previous, current, part.name, part),
    decreases whole,
{
    if whole != part {
        let schema = find_schema(current, name)->0;
        let i = choose|i: int|
            0 <= i < whole.fields.len() && is_part_of_field(#[trigger] whole.fields[i], part);
        let next = whole.fields[i].field_type->Relation_1;
        assert(is_field_diff(previous, current, name, schema.fields[i], whole.fields[i]));
        assert(decreases_to!(whole => whole.fields));
        assert(decreases_to!(whole.fields => whole.fields[i]));
        lemma_part_is_diff(previous, current, linked_name(schema.fields[i].1)->0, next, part);
    }
}

/// With distinct names, the first schema of a name is the only one.
pub(crate) proof fn lemma_find_only(current: Seq<CurrentSchemaModel>, index: int)
    requires
        names_are_distinct(current),
        0 <= index < current.len(),
    ensures
        find_schema(current, current[index].name) == Some(current[index]),
{
    let name = current[index].name;
    lemma_find_schema(current, name);
    assert(is_schema_name(current, name));
    let schema = find_schema(current, name)->0;
    let i = choose|i: int|
        0 <= i < current.len() && #[trigger] current[i] == schema && schema.name == name;
    if i < index {
        assert(current[i].name != current[index].name);
    } else if index < i {
        assert(current[index].name != current[i].name);
    }
}

/// What a planned schema links to is planned too.
proof fn lemma_linked_is_planned(
    previous: Map<Seq<char>, PreviousSchemaModel>,
    current: Seq<CurrentSchemaModel>,
    plan: Seq<SchemaDiffModel>,
    from: Seq<char>,
    to: Seq<char>,
)
    requires
        is_plan(previous, current, plan),
        names_are_distinct(current),
        relates(current, from, to),
        is_planned(plan, from),
    ensures
        is_planned(plan, to),
{
    let part = choose|part: SchemaDiffModel| #[trigger]
        is_part_of_plan(plan, part) && part.name == from;
    let n = choose|n: int| 0 <= n < plan.len() && is_part(#[trigger] plan[n], part);
    let (i, j) = choose|i: int, j: int| #[trigger] is_link(current, i, j, from, to);
    assert(is_schema_diff(previous, current, plan[n].name, plan[n]));
    lemma_part_is_diff(previous, current, plan[n].name, plan[n], part);
    lemma_find_only(current, i);
    assert(is_field_diff(previous, current, from, current[i].fields[j], part.fields[j]));
    let linked = part.fields[j].field_type->Relation_1;
    assert(linked.name == to);
    lemma_linked_part(plan[n], part, j, linked);
    assert(is_part_of_plan(plan, linked));
}

/// No schema is lost: every current schema has its diff in the plan, at the top or nested in the
/// diff of another one.
pub proof fn law_no_schema_is_lost(
    previous: Map<Seq<char>, PreviousSchemaModel>,
    current: Seq<CurrentSchemaModel>,
    plan: Seq<SchemaDiffModel>,
    index: int,
)
    requires
        names_are_distinct(current),
        links_are_known(current),
        !has_relation_by_id(current),
        !has_cycle(current),
        is_plan(previous, current, plan),
        0 <= index < current.len(),
    ensures
        is_planned(plan, current[index].name),
{
    let name = current[index].name;
    if !is_planned(plan, name) {
        let names = current.map_values(|schema: CurrentSchemaModel| schema.name).to_set();
        assert forall|other: Seq<char>| #[trigger]
            names.contains(other) <==> is_schema_name(current, other) by {
            lemma_set_of_names(current, other);
        }
        // Every schema that is lost is linked from another one that is lost
        let lost = Map::new(
            |other: Seq<char>| names.contains(other) && !is_planned(plan, other),
            |other: Seq<char>|
                Set::new(
                    |from: Seq<char>| relates(current, from, other) && !is_planned(plan, from),
                ),
        );
        assert(is_schema_name(current, name));
        assert(lost.dom().contains(name));
        assert(lost.dom().subset_of(names));
        vstd::set_lib::lemma_len_subset(lost.dom(), names);
        assert(lost.dom().len() > 0) by {
            if lost.dom().len() == 0 {
                assert(lost.dom() =~= Set::empty());
            }
        }
        assert(is_stuck(lost)) by {
            reveal(is_stuck);
            assert forall|e: Seq<char>| #[trigger] lost.contains_key(e) implies exists|
                o: Seq<char>,
            | #[trigger] lost[e].contains(o) by {
                if is_group(current, e) {
                    lemma_group_is_planned(previous, current, plan, e);
                }
                let from = choose|from: Seq<char>| #[trigger] relates(current, from, e);
                if is_planned(plan, from) {
                    lemma_linked_is_planned(previous, current, plan, from, e);
                }
                assert(lost[e].contains(from));
            }
        }
        assert forall|e: Seq<char>, o: Seq<char>|
            lost.contains_key(e) && #[trigger] lost[e].contains(o) implies lost.contains_key(o) by {
            let (i, j) = choose|i: int, j: int| #[trigger] is_link(current, i, j, o, e);
            assert(current[i].name == o);
            assert(is_schema_name(current, o));
        }
        let circle = lemma_circle(lost);
        let path = circle.reverse();
        assert forall|k: int| 0 <= k < path.len() - 1 implies #[trigger] is_step(
            current,
            path,
            k,
        ) by {
            let back = circle.len() - 2 - k;
            assert(lost.contains_key(circle[back]));
            assert(steps_along(lost, circle, back));
        }
        assert(is_path(current, path));
    }
}

proof fn lemma_set_of_names(current: Seq<CurrentSchemaModel>, name: Seq<char>)
    ensures
        current.map_values(|schema: CurrentSchemaModel| schema.name).to_set().contains(name)
            <==> is_schema_name(current, name),
{
    let names = current.map_values(|schema: CurrentSchemaModel| schema.name);
    if names.contains(name) {
        assert(current[names.index_of(name)].name == name);
    }
    if is_schema_name(current, name) {
        let i = choose|i: int| 0 <= i < current.len() && (#[trigger] current[i]).name == name;
        assert(names[i] == name);
    }
}

/// A schema which no other one links to is planned at the top.
proof fn lemma_group_is_planned(
    previous: Map<Seq<char>, PreviousSchemaModel>,
    current: Seq<CurrentSchemaModel>,
    plan: Seq<SchemaDiffModel>,
    name: Seq<char>,
)
    requires
        is_plan(previous, current, plan),
        is_group(current, name),
    ensures
        is_planned(plan, name),
{
    assert(has_diff(plan, name));
    let i = choose|i: int| 0 <= i < plan.len() && (#[trigger] plan[i]).name == name;
    assert(is_part(plan[i], plan[i]));
    assert(is_part_of_plan(plan, plan[i]));
}

/// The schema definition is the same in its previous and its current version, and so are all the
/// definitions that it depends on.
pub open spec fn is_schema_current(diff: SchemaDiffModel) -> bool
    decreases diff,
{
    &&& are_fields_current(diff.fields)
    &&& diff.previous matches Some(view)
    &&& view.description == diff.description
    &&& view.fields == previous_field_ids(diff.fields)
}

/// The field definitions are the same in their previous and their current version, and so are all
/// the definitions that they depend on.
pub open spec fn are_fields_current(diffs: Seq<FieldDiffModel>) -> bool
    decreases diffs,
{
    diffs.len() == 0 || (are_fields_current(diffs.drop_last()) && is_field_current(diffs.last()))
}

/// The field definition is the same in its previous and its current version, and so are all the
/// definitions that it depends on.
pub open spec fn is_field_current(diff: FieldDiffModel) -> bool
    decreases diff,
{
    &&& diff.previous matches Some(view)
    &&& match diff.field_type {
        FieldTypeDiffModel::Field(field_type) => view.field_type == basic_type(field_type),
        FieldTypeDiffModel::Relation(kind, schema) => {
            &&& is_schema_current(schema)
            &&& view.field_type == relation_type(
                kind,
                SchemaIdModel::Application(schema.name, schema_view_id(schema.previous)),
            )
        },
    }
}

/// View ids of the previous field definitions.
pub open spec fn previous_field_ids(diffs: Seq<FieldDiffModel>) -> Seq<Seq<char>> {
    diffs.map_values(|diff: FieldDiffModel| field_view_id(diff.previous))
}

/// The run that needs no operation and comes to these view ids.
pub open spec fn idle_run(ids: Seq<Seq<char>>) -> Run {
    Run { operations: Seq::empty(), view_ids: Some(ids) }
}

/// The execution of a schema needs no operation exactly where nothing has changed, and then comes
/// to the view id of the previous definition.
pub proof fn law_only_changes_need_operations(diff: SchemaDiffModel, replies: Seq<Seq<char>>)
    ensures
        run_schema(diff, replies).operations.len() == 0 <==> is_schema_current(diff),
        is_schema_current(diff) ==> run_schema(diff, replies) == idle_run(
            seq![schema_view_id(diff.previous)],
        ),
    decreases diff,
{
    lemma_idle_fields(diff.fields, replies);
    lemma_run_fields(diff.fields, replies);
    if is_schema_current(diff) {
        assert(run_schema(diff, replies) =~= idle_run(seq![schema_view_id(diff.previous)]));
    }
}

proof fn lemma_idle_fields(diffs: Seq<FieldDiffModel>, replies: Seq<Seq<char>>)
    ensures
        run_fields(diffs, replies).operations.len() == 0 <==> are_fields_current(diffs),
        are_fields_current(diffs) ==> run_fields(diffs, replies) == idle_run(
            previous_field_ids(diffs),
        ),
    decreases diffs,
{
    if diffs.len() == 0 {
        assert(previous_field_ids(diffs) =~= Seq::empty());
    } else {
        let front = run_fields(diffs.drop_last(), replies);
        lemma_idle_fields(diffs.drop_last(), replies);
        lemma_run_fields(diffs.drop_last(), replies);
        let left = replies_behind(front, replies);
        lemma_idle_field(diffs.last(), left);
        if are_fields_current(diffs) {
            assert(previous_field_ids(diffs) =~= previous_field_ids(diffs.drop_last()) + seq![
                field_view_id(diffs.last().previous),
            ]);
            assert(run_fields(diffs, replies) =~= idle_run(previous_field_ids(diffs)));
        }
    }
}

proof fn lemma_idle_field(diff: FieldDiffModel, replies: Seq<Seq<char>>)
    ensures
        run_field(diff, replies).operations.len() == 0 <==> is_field_current(diff),
        is_field_current(diff) ==> run_field(diff, replies) == idle_run(
            seq![field_view_id(diff.previous)],
        ),
    decreases diff,
{
    if let FieldTypeDiffModel::Relation(_, schema) = diff.field_type {
        law_only_changes_need_operations(schema, replies);
        lemma_run_schema(schema, replies);
    }
    if is_field_current(diff) {
        assert(run_field(diff, replies) =~= idle_run(seq![field_view_id(diff.previous)]));
    }
}

/// The operation updates the definition `view` of a schema and pins these fields.
pub open spec fn is_pinning(
    operation: OperationModel,
    view: SchemaViewModel,
    field_ids: Seq<Seq<char>>,
) -> bool {
    &&& operation matches OperationModel::Update { schema, previous, fields }
    &&& schema == SystemSchema::SchemaDefinition(1)
    &&& previous == view.view_id
    &&& fields.contains_key("fields"@)
    &&& fields["fields"@] == OperationValueModel::PinnedRelationList(field_ids)
}

/// The last operation of the run updates the definition `view` of a schema and pins these fields.
pub open spec fn ends_with_pinning(
    run: Run,
    view: SchemaViewModel,
    field_ids: Seq<Seq<char>>,
) -> bool {
    run.operations.len() > 0 && is_pinning(run.operations.last(), view, field_ids)
}

/// A changed field carries over to its schema: where the fields come to a view id that the previous
/// definition does not pin, the schema is updated behind them and pins their new view ids. The run
/// then comes to the reply to that update.
pub proof fn law_changed_field_updates_schema(
    diff: SchemaDiffModel,
    replies: Seq<Seq<char>>,
    index: int,
)
    requires
        diff.previous is Some,
        run_fields(diff.fields, replies).view_ids is Some,
        0 <= index < run_fields(diff.fields, replies).view_ids->0.len(),
        !(diff.previous->0).fields.contains(run_fields(diff.fields, replies).view_ids->0[index]),
    ensures
        ends_with_pinning(
            run_schema(diff, replies),
            diff.previous->0,
            run_fields(diff.fields, replies).view_ids->0,
        ),
        run_schema(diff, replies).operations.drop_last() == run_fields(
            diff.fields,
            replies,
        ).operations,
        run_schema(diff, replies).view_ids == {
            let count = run_fields(diff.fields, replies).operations.len();
            if count < replies.len() {
                Some(seq![replies[count as int]])
            } else {
                None
            }
        },
{
    let fields = run_fields(diff.fields, replies);
    let ids = fields.view_ids->0;
    let view = diff.previous->0;
    if ids == view.fields {
        assert(view.fields.contains(ids[index]));
    }
    assert(run_schema(diff, replies).operations.drop_last() =~= fields.operations);
}

/// View ids that the previous definitions of a schema, and of all that it depends on, speak of.
pub open spec fn earlier_ids(diff: SchemaDiffModel) -> Set<Seq<char>>
    decreases diff,
{
    match diff.previous {
        Some(view) => earlier_ids_of_fields(diff.fields).union(view.fields.to_set()).insert(
            view.view_id,
        ),
        None => earlier_ids_of_fields(diff.fields),
    }
}

/// View ids that the previous definitions of fields, and of all that they depend on, speak of.
pub open spec fn earlier_ids_of_fields(diffs: Seq<FieldDiffModel>) -> Set<Seq<char>>
    decreases diffs,
{
    if diffs.len() == 0 {
        Set::empty()
    } else {
        earlier_ids_of_fields(diffs.drop_last()).union(earlier_ids_of_field(diffs.last()))
    }
}

/// View ids that the previous definitions of a field, and of all that it depends on, speak of.
pub open spec fn earlier_ids_of_field(diff: FieldDiffModel) -> Set<Seq<char>>
    decreases diff,
{
    let linked = match diff.field_type {
        FieldTypeDiffModel::Field(_) => Set::empty(),
        FieldTypeDiffModel::Relation(_, schema) => earlier_ids(schema),
    };
    match diff.previous {
        Some(view) => match related_schema(view.field_type) {
            Some(SchemaIdModel::Application(_, id)) => linked.insert(id),
            _ => linked,
        },
        None => linked,
    }
}

/// None of the replies is one of these view ids.
pub open spec fn are_new(replies: Seq<Seq<char>>, ids: Set<Seq<char>>) -> bool {
    forall|i: int| 0 <= i < replies.len() ==> !ids.contains(#[trigger] replies[i])
}

/// The run came to the reply to its last operation.
spec fn ends_with_reply(run: Run, replies: Seq<Seq<char>>) -> bool {
    &&& 0 < run.operations.len() <= replies.len()
    &&& run.view_ids == Some(seq![replies[run.operations.len() - 1]])
}

/// A change reaches the schema: where a finished execution of a schema needed any operation and
/// every reply is a new view id, the last operation updates the definition of the schema itself, and
/// the view id that the run comes to is new.
pub proof fn law_change_reaches_the_schema(diff: SchemaDiffModel, replies: Seq<Seq<char>>)
    requires
        diff.previous is Some,
        are_new(replies, earlier_ids(diff)),
        run_schema(diff, replies).view_ids is Some,
        run_schema(diff, replies).operations.len() > 0,
    ensures
        run_schema(diff, replies).operations.last() matches OperationModel::Update {
            schema,
            previous,
            ..
        } && schema == SystemSchema::SchemaDefinition(1) && previous == (diff.previous->0).view_id,
        run_fields(diff.fields, replies).operations.len() > 0 ==> ends_with_pinning(
            run_schema(diff, replies),
            diff.previous->0,
            run_fields(diff.fields, replies).view_ids->0,
        ),
        run_schema(diff, replies).view_ids->0[0] != (diff.previous->0).view_id,
{
    let run = run_schema(diff, replies);
    let fields = run_fields(diff.fields, replies);
    let view = diff.previous->0;
    lemma_schema_ends_with_reply(diff, replies);
    assert(run.view_ids->0[0] == replies[run.operations.len() - 1]);
    if fields.operations.len() > 0 {
        lemma_fields_come_to_reply(diff.fields, replies);
        let ids = fields.view_ids->0;
        let (i, k) = choose|i: int, k: int|
            0 <= i < ids.len() && 0 <= k < replies.len() && #[trigger] ids[i]
                == #[trigger] replies[k];
        assert(!view.fields.to_set().contains(replies[k]));
        law_changed_field_updates_schema(diff, replies, i);
    }
}

proof fn lemma_schema_ends_with_reply(diff: SchemaDiffModel, replies: Seq<Seq<char>>)
    requires
        are_new(replies, earlier_ids(diff)),
        run_schema(diff, replies).view_ids is Some,
        run_schema(diff, replies).operations.len() > 0,
    ensures
        ends_with_reply(run_schema(diff, replies), replies),
        schema_change(
            diff.name,
            diff.previous,
            diff.description,
            run_fields(diff.fields, replies).view_ids->0,
        ) is Some,
    decreases diff,
{
    let fields = run_fields(diff.fields, replies);
    let ids = fields.view_ids->0;
    lemma_run_schema(diff, replies);
    if fields.operations.len() > 0 && diff.previous is Some {
        assert(are_new(replies, earlier_ids_of_fields(diff.fields)));
        lemma_fields_come_to_reply(diff.fields, replies);
        let view = diff.previous->0;
        let (i, k) = choose|i: int, k: int|
            0 <= i < ids.len() && 0 <= k < replies.len() && #[trigger] ids[i]
                == #[trigger] replies[k];
        assert(!earlier_ids(diff).contains(replies[k]));
        assert(!view.fields.to_set().contains(replies[k]));
        if ids == view.fields {
            assert(view.fields.contains(ids[i]));
        }
    }
}

proof fn lemma_fields_come_to_reply(diffs: Seq<FieldDiffModel>, replies: Seq<Seq<char>>)
    requires
        are_new(replies, earlier_ids_of_fields(diffs)),
        run_fields(diffs, replies).view_ids is Some,
        run_fields(diffs, replies).operations.len() > 0,
    ensures
        exists|i: int, k: int|
            0 <= i < run_fields(diffs, replies).view_ids->0.len() && 0 <= k < replies.len()
                && #[trigger] run_fields(diffs, replies).view_ids->0[i] == #[trigger] replies[k],
    decreases diffs,
{
    let front = run_fields(diffs.drop_last(), replies);
    let left = replies_behind(front, replies);
    let last = run_field(diffs.last(), left);
    let ids = run_fields(diffs, replies).view_ids->0;
    lemma_run_fields(diffs.drop_last(), replies);
    lemma_run_field(diffs.last(), left);
    if last.operations.len() > 0 {
        assert forall|i: int| 0 <= i < left.len() implies !earlier_ids_of_field(
            diffs.last(),
        ).contains(#[trigger] left[i]) by {
            assert(!earlier_ids_of_fields(diffs).contains(
                replies[front.operations.len() + i],
            ));
        }
        lemma_field_ends_with_reply(diffs.last(), left);
        let k = front.operations.len() + last.operations.len() - 1;
        assert(ids[ids.len() - 1] == replies[k]);
    } else {
        assert(are_new(replies, earlier_ids_of_fields(diffs.drop_last())));
        lemma_fields_come_to_reply(diffs.drop_last(), replies);
        let front_ids = front.view_ids->0;
        let (i, k) = choose|i: int, k: int|
            0 <= i < front_ids.len() && 0 <= k < replies.len() && #[trigger] front_ids[i]
                == #[trigger] replies[k];
        assert(ids[i] == replies[k]);
    }
}

proof fn lemma_field_ends_with_reply(diff: FieldDiffModel, replies: Seq<Seq<char>>)
    requires
        are_new(replies, earlier_ids_of_field(diff)),
        run_field(diff, replies).view_ids is Some,
        run_field(diff, replies).operations.len() > 0,
    ensures
        ends_with_reply(run_field(diff, replies), replies),
    decreases diff,
{
    lemma_run_field(diff, replies);
    if let FieldTypeDiffModel::Relation(kind, schema) = diff.field_type {
        let linked = run_schema(schema, replies);
        if linked.operations.len() > 0 && diff.previous is Some {
            assert(are_new(replies, earlier_ids(schema)));
            lemma_schema_ends_with_reply(schema, replies);
            let id = linked.view_ids->0[0];
            let panda_type = relation_type(kind, SchemaIdModel::Application(schema.name, id));
            assert(id == replies[linked.operations.len() - 1]);
            assert(related_schema(panda_type) == Some(
                SchemaIdModel::Application(schema.name, id),
            ));
            assert(!earlier_ids_of_field(diff).contains(id));
        }
    }
}

/// The diff of a schema against the definitions that a finished execution left behind.
pub open spec fn settled_schema(
    diff: SchemaDiffModel,
    replies: Seq<Seq<char>>,
) -> SchemaDiffModel
    decreases diff,
{
    SchemaDiffModel {
        name: diff.name,
        previous: Some(
            SchemaViewModel {
                view_id: run_schema(diff, replies).view_ids->0[0],
                name: match diff.previous {
                    Some(view) => view.name,
                    None => diff.name,
                },
                description: diff.description,
                fields: run_fields(diff.fields, replies).view_ids->0,
            },
        ),
        description: diff.description,
        fields: settled_fields(diff.fields, replies),
    }
}

/// The diffs of fields against the definitions that a finished execution left behind.
pub open spec fn settled_fields(
    diffs: Seq<FieldDiffModel>,
    replies: Seq<Seq<char>>,
) -> Seq<FieldDiffModel>
    decreases diffs,
{
    if diffs.len() == 0 {
        Seq::empty()
    } else {
        let front = run_fields(diffs.drop_last(), replies);
        settled_fields(diffs.drop_last(), replies).push(
            settled_field(diffs.last(), replies_behind(front, replies)),
        )
    }
}

/// The diff of a field against the definitions that a finished execution left behind.
pub open spec fn settled_field(diff: FieldDiffModel, replies: Seq<Seq<char>>) -> FieldDiffModel
    decreases diff,
{
    FieldDiffModel {
        name: diff.name,
        previous: Some(
            SchemaFieldViewModel {
                id: run_field(diff, replies).view_ids->0[0],
                name: match diff.previous {
                    Some(view) => view.name,
                    None => diff.name,
                },
                field_type: match diff.field_type {
                    FieldTypeDiffModel::Field(field_type) => basic_type(field_type),
                    FieldTypeDiffModel::Relation(kind, schema) => relation_type(
                        kind,
                        SchemaIdModel::Application(
                            schema.name,
                            run_schema(schema, replies).view_ids->0[0],
                        ),
                    ),
                },
            },
        ),
        field_type: match diff.field_type {
            FieldTypeDiffModel::Field(field_type) => FieldTypeDiffModel::Field(field_type),
            FieldTypeDiffModel::Relation(kind, schema) => FieldTypeDiffModel::Relation(
                kind,
                settled_schema(schema, replies),
            ),
        },
    }
}

/// After a finished execution nothing is left to do: executing the schema again, against the
/// definitions that were left behind, needs no operation and comes to the same view id.
pub proof fn law_second_execution_is_idle(
    diff: SchemaDiffModel,
    replies: Seq<Seq<char>>,
    later: Seq<Seq<char>>,
)
    requires
        run_schema(diff, replies).view_ids is Some,
    ensures
        run_schema(settled_schema(diff, replies), later) == idle_run(
            run_schema(diff, replies).view_ids->0,
        ),
{
    let settled = settled_schema(diff, replies);
    lemma_settled_schema(diff, replies);
    law_only_changes_need_operations(settled, later);
    lemma_run_schema(diff, replies);
    assert(seq![schema_view_id(settled.previous)] =~= run_schema(diff, replies).view_ids->0);
}

pub(crate) proof fn lemma_settled_schema(diff: SchemaDiffModel, replies: Seq<Seq<char>>)
    requires
        run_schema(diff, replies).view_ids is Some,
    ensures
        is_schema_current(settled_schema(diff, replies)),
    decreases diff,
{
    lemma_settled_fields(diff.fields, replies);
}

pub(crate) proof fn lemma_settled_fields(diffs: Seq<FieldDiffModel>, replies: Seq<Seq<char>>)
    requires
        run_fields(diffs, replies).view_ids is Some,
    ensures
        are_fields_current(settled_fields(diffs, replies)),
        previous_field_ids(settled_fields(diffs, replies)) == run_fields(
            diffs,
            replies,
        ).view_ids->0,
    decreases diffs,
{
    let settled = settled_fields(diffs, replies);
    if diffs.len() == 0 {
        assert(previous_field_ids(settled) =~= Seq::empty());
    } else {
        let front = run_fields(diffs.drop_last(), replies);
        let left = replies_behind(front, replies);
        let front_settled = settled_fields(diffs.drop_last(), replies);
        lemma_settled_fields(diffs.drop_last(), replies);
        lemma_settled_field(diffs.last(), left);
        lemma_run_field(diffs.last(), left);
        assert(settled.drop_last() =~= front_settled);
        assert(run_field(diffs.last(), left).view_ids->0 =~= seq![
            field_view_id(settled.last().previous),
        ]);
        assert(previous_field_ids(settled) =~= previous_field_ids(front_settled) + seq![
            field_view_id(settled.last().previous),
        ]);
    }
}

pub(crate) proof fn lemma_settled_field(diff: FieldDiffModel, replies: Seq<Seq<char>>)
    requires
        run_field(diff, replies).view_ids is Some,
    ensures
        is_field_current(settled_field(diff, replies)),
    decreases diff,
{
    if let FieldTypeDiffModel::Relation(_, schema) = diff.field_type {
        lemma_settled_schema(schema, replies);
    }
}

/// The diffs of plans against the definitions that a finished execution left behind.
pub open spec fn settled_plans(
    plans: Seq<SchemaDiffModel>,
    replies: Seq<Seq<char>>,
) -> Seq<SchemaDiffModel>
    decreases plans.len(),
{
    if plans.len() == 0 {
        Seq::empty()
    } else {
        let front = run_plans(plans.drop_last(), replies);
        settled_plans(plans.drop_last(), replies).push(
            settled_schema(plans.last(), replies_behind(front, replies)),
        )
    }
}

/// After a finished execution nothing is left to do: executing the plans again, against the
/// definitions that were left behind, needs no operation and comes to the same view ids.
pub proof fn law_second_execution_of_plans_is_idle(
    plans: Seq<SchemaDiffModel>,
    replies: Seq<Seq<char>>,
    later: Seq<Seq<char>>,
)
    requires
        run_plans(plans, replies).view_ids is Some,
    ensures
        run_plans(settled_plans(plans, replies), later) == idle_run(
            run_plans(plans, replies).view_ids->0,
        ),
    decreases plans.len(),
{
    let settled = settled_plans(plans, replies);
    if plans.len() > 0 {
        let front = run_plans(plans.drop_last(), replies);
        let left = replies_behind(front, replies);
        law_second_execution_of_plans_is_idle(plans.drop_last(), replies, later);
        assert(settled.drop_last() =~= settled_plans(plans.drop_last(), replies));
        let again = run_plans(settled.drop_last(), later);
        law_second_execution_is_idle(plans.last(), left, replies_behind(again, later));
        assert(run_plans(settled, later) =~= idle_run(run_plans(plans, replies).view_ids->0));
    }
}

/// The previous schemas hold the previous versions that the diff of a schema names.
pub open spec fn hold_schema(
    schemas: Map<Seq<char>, PreviousSchemaModel>,
    diff: SchemaDiffModel,
) -> bool
    decreases diff,
{
    &&& schemas.contains_key(diff.name)
    &&& diff.previous == Some(schemas[diff.name].schema_view)
    &&& forall|i: int|
        0 <= i < diff.fields.len() ==> hold_field(schemas, diff.name, #[trigger] diff.fields[i])
}

/// The previous schemas hold the previous versions that the diff of a field names.
pub open spec fn hold_field(
    schemas: Map<Seq<char>, PreviousSchemaModel>,
    schema: Seq<char>,
    diff: FieldDiffModel,
) -> bool
    decreases diff,
{
    &&& previous_field(schemas, schema, diff.name) == diff.previous
    &&& diff.field_type matches FieldTypeDiffModel::Relation(_, linked) ==> hold_schema(
        schemas,
        linked,
    )
}

/// Updating twice is like updating once: where the plan was executed to its end and the previous
/// schemas are now those that this left behind, the next plan for the same current schemas needs no
/// operation.
pub proof fn law_second_update_commits_nothing(
    previous: Map<Seq<char>, PreviousSchemaModel>,
    current: Seq<CurrentSchemaModel>,
    plan: Seq<SchemaDiffModel>,
    replies: Seq<Seq<char>>,
    next_previous: Map<Seq<char>, PreviousSchemaModel>,
    next_plan: Seq<SchemaDiffModel>,
    later: Seq<Seq<char>>,
)
    requires
        is_plan(previous, current, plan),
        run_plans(plan, replies).view_ids is Some,
        forall|i: int|
            0 <= i < plan.len() ==> hold_schema(
                next_previous,
                #[trigger] settled_plans(plan, replies)[i],
            ),
        is_plan(next_previous, current, next_plan),
    ensures
        run_plans(next_plan, later).operations.len() == 0,
        run_plans(next_plan, later).view_ids == run_plans(plan, replies).view_ids,
{
    let settled = settled_plans(plan, replies);
    lemma_settled_plans(plan, replies);
    assert forall|i: int| 0 <= i < settled.len() implies is_schema_diff(
        next_previous,
        current,
        settled[i].name,
        #[trigger] settled[i],
    ) by {
        assert(is_settled_schema(settled[i], plan[i]));
        let r = choose|r: Seq<Seq<char>>| settled[i] == #[trigger] settled_schema(plan[i], r);
        assert(is_schema_diff(previous, current, plan[i].name, plan[i]));
        assert(hold_schema(next_previous, settled_plans(plan, replies)[i]));
        lemma_settled_diff(previous, next_previous, current, plan[i].name, plan[i], r);
    }
    assert forall|i: int| 0 <= i < settled.len() implies (#[trigger] settled[i]).name
        == plan[i].name by {
        assert(is_settled_schema(settled[i], plan[i]));
    }
    assert forall|name: Seq<char>| #[trigger]
        has_diff(settled, name) <==> is_group(current, name) by {
        assert(has_diff(plan, name) <==> is_group(current, name));
        if has_diff(settled, name) {
            let i = choose|i: int| 0 <= i < settled.len() && (#[trigger] settled[i]).name == name;
            assert(plan[i].name == name);
        }
        if has_diff(plan, name) {
            let i = choose|i: int| 0 <= i < plan.len() && (#[trigger] plan[i]).name == name;
            assert(settled[i].name == name);
        }
    }
    assert forall|i: int, j: int| 0 <= i < j < settled.len() implies text_lt(
        (#[trigger] settled[i]).name,
        (#[trigger] settled[j]).name,
    ) by {
        assert(text_lt(plan[i].name, plan[j].name));
    }
    law_plan_is_unique(next_previous, current, settled, next_plan);
    law_second_execution_of_plans_is_idle(plan, replies, later);
}

/// `settled` is what some replies make of `diff`.
pub(crate) open spec fn is_settled_schema(settled: SchemaDiffModel, diff: SchemaDiffModel) -> bool {
    exists|replies: Seq<Seq<char>>| settled == #[trigger] settled_schema(diff, replies)
}

/// `settled` is what some replies make of `diff`.
pub(crate) open spec fn is_settled_field(settled: FieldDiffModel, diff: FieldDiffModel) -> bool {
    exists|replies: Seq<Seq<char>>| settled == #[trigger] settled_field(diff, replies)
}

pub(crate) proof fn lemma_settled_plans(plans: Seq<SchemaDiffModel>, replies: Seq<Seq<char>>)
    ensures
        settled_plans(plans, replies).len() == plans.len(),
        forall|i: int|
            0 <= i < plans.len() ==> is_settled_schema(
                #[trigger] settled_plans(plans, replies)[i],
                plans[i],
            ),
    decreases plans.len(),
{
    if plans.len() > 0 {
        let front = plans.drop_last();
        let settled = settled_plans(plans, replies);
        lemma_settled_plans(front, replies);
        assert forall|i: int| 0 <= i < plans.len() implies is_settled_schema(
            #[trigger] settled[i],
            plans[i],
        ) by {
            if i < front.len() {
                assert(settled[i] == settled_plans(front, replies)[i]);
                assert(front[i] == plans[i]);
            } else {
                let left = replies_behind(run_plans(front, replies), replies);
                assert(settled[i] == settled_schema(plans[i], left));
            }
        }
    }
}

pub(crate) proof fn lemma_settled_field_list(diffs: Seq<FieldDiffModel>, replies: Seq<Seq<char>>)
    ensures
        settled_fields(diffs, replies).len() == diffs.len(),
        forall|i: int|
            0 <= i < diffs.len() ==> is_settled_field(
                #[trigger] settled_fields(diffs, replies)[i],
                diffs[i],
            ),
    decreases diffs.len(),
{
    if diffs.len() > 0 {
        let front = diffs.drop_last();
        let settled = settled_fields(diffs, replies);
        lemma_settled_field_list(front, replies);
        assert forall|i: int| 0 <= i < diffs.len() implies is_settled_field(
            #[trigger] settled[i],
            diffs[i],
        ) by {
            if i < front.len() {
                assert(settled[i] == settled_fields(front, replies)[i]);
                assert(front[i] == diffs[i]);
            } else {
                let left = replies_behind(run_fields(front, replies), replies);
                assert(settled[i] == settled_field(diffs[i], left));
            }
        }
    }
}

/// Against what an execution left behind, the diff of a schema is the settled one.
proof fn lemma_settled_diff(
    previous: Map<Seq<char>, PreviousSchemaModel>,
    next_previous: Map<Seq<char>, PreviousSchemaModel>,
    current: Seq<CurrentSchemaModel>,
    name: Seq<char>,
    diff: SchemaDiffModel,
    replies: Seq<Seq<char>>,
)
    requires
        is_schema_diff(previous, current, name, diff),
        hold_schema(next_previous, settled_schema(diff, replies)),
    ensures
        is_schema_diff(next_previous, current, name, settled_schema(diff, replies)),
    decreases diff,
{
    let schema = find_schema(current, name)->0;
    let settled = settled_schema(diff, replies);
    lemma_settled_field_list(diff.fields, replies);
    assert forall|i: int| 0 <= i < settled.fields.len() implies is_field_diff(
        next_previous,
        current,
        name,
        schema.fields[i],
        #[trigger] settled.fields[i],
    ) by {
        let field = diff.fields[i];
        assert(is_field_diff(previous, current, name, schema.fields[i], field));
        assert(settled.fields[i] == settled_fields(diff.fields, replies)[i]);
        assert(is_settled_field(settled.fields[i], field));
        let r = choose|r: Seq<Seq<char>>| settled.fields[i] == #[trigger] settled_field(field, r);
        assert(hold_field(next_previous, settled.name, settled.fields[i]));
        if let FieldTypeDiffModel::Relation(_, linked) = field.field_type {
            let linked_name = linked_name(schema.fields[i].1)->0;
            assert(decreases_to!(diff => diff.fields));
            assert(decreases_to!(diff.fields => diff.fields[i]));
            lemma_settled_diff(previous, next_previous, current, linked_name, linked, r);
        }
    }
}

/// The operation has the fields of a definition: a new definition gets all the fields of its system
/// schema and no others, and an update changes at least one of those that can change and no others.
pub open spec fn is_well_formed(operation: OperationModel) -> bool {
    match operation {
        OperationModel::Create { schema, fields } => {
            ||| {
                &&& schema == SystemSchema::SchemaDefinition(1)
                &&& fields.dom() == set!["name"@, "description"@, "fields"@]
            }
            ||| {
                &&& schema == SystemSchema::SchemaFieldDefinition(1)
                &&& fields.dom() == set!["name"@, "type"@]
            }
        },
        OperationModel::Update { schema, fields, .. } => {
            ||| {
                &&& schema == SystemSchema::SchemaDefinition(1)
                &&& fields.dom().subset_of(set!["description"@, "fields"@])
                &&& fields.dom() != Set::<Seq<char>>::empty()
            }
            ||| {
                &&& schema == SystemSchema::SchemaFieldDefinition(1)
                &&& fields.dom() == set!["type"@]
            }
        },
    }
}

/// The operation pins this view id in the field `name`.
pub open spec fn pins(operation: OperationModel, name: Seq<char>, id: Seq<char>) -> bool {
    &&& operation_fields(operation).contains_key(name)
    &&& operation_fields(operation)[name] matches OperationValueModel::PinnedRelationList(ids)
    &&& ids.contains(id)
}

/// The operation refers to this view id: it updates that version or pins it.
pub open spec fn refers_to(operation: OperationModel, id: Seq<char>) -> bool {
    ||| operation matches OperationModel::Update { previous, .. } && previous == id
    ||| exists|name: Seq<char>| #[trigger] pins(operation, name, id)
}

/// View ids of the previous definitions of a schema and of all that it depends on.
pub open spec fn previous_ids(diff: SchemaDiffModel) -> Set<Seq<char>>
    decreases diff,
{
    match diff.previous {
        Some(view) => previous_ids_of_fields(diff.fields).insert(view.view_id),
        None => previous_ids_of_fields(diff.fields),
    }
}

/// View ids of the previous definitions of fields and of all that they depend on.
pub open spec fn previous_ids_of_fields(diffs: Seq<FieldDiffModel>) -> Set<Seq<char>>
    decreases diffs,
{
    if diffs.len() == 0 {
        Set::empty()
    } else {
        previous_ids_of_fields(diffs.drop_last()).union(previous_ids_of_field(diffs.last()))
    }
}

/// View ids of the previous definitions of a field and of all that it depends on.
pub open spec fn previous_ids_of_field(diff: FieldDiffModel) -> Set<Seq<char>>
    decreases diff,
{
    let linked = match diff.field_type {
        FieldTypeDiffModel::Field(_) => Set::empty(),
        FieldTypeDiffModel::Relation(_, schema) => previous_ids(schema),
    };
    match diff.previous {
        Some(view) => linked.insert(view.id),
        None => linked,
    }
}

/// View ids of the previous definitions of plans and of all that they depend on.
pub open spec fn previous_ids_of_plans(plans: Seq<SchemaDiffModel>) -> Set<Seq<char>>
    decreases plans.len(),
{
    if plans.len() == 0 {
        Set::empty()
    } else {
        previous_ids_of_plans(plans.drop_last()).union(previous_ids(plans.last()))
    }
}

/// The view id is a previous one, or one of the first `count` replies.
pub open spec fn is_known(
    previous: Set<Seq<char>>,
    replies: Seq<Seq<char>>,
    count: int,
    id: Seq<char>,
) -> bool {
    previous.contains(id) || exists|i: int|
        0 <= i < count && i < replies.len() && #[trigger] replies[i] == id
}

/// Every operation is well formed and refers only to view ids that are known when it comes up, and
/// the view ids that the run comes to are known in the end.
spec fn is_sound(run: Run, previous: Set<Seq<char>>, replies: Seq<Seq<char>>) -> bool {
    &&& forall|i: int|
        0 <= i < run.operations.len() ==> is_sound_operation(
            #[trigger] run.operations[i],
            previous,
            replies,
            i,
        )
    &&& run.view_ids matches Some(ids) ==> are_known(
        ids,
        previous,
        replies,
        run.operations.len() as int,
    )
}

spec fn is_sound_operation(
    operation: OperationModel,
    previous: Set<Seq<char>>,
    replies: Seq<Seq<char>>,
    count: int,
) -> bool {
    &&& is_well_formed(operation)
    &&& forall|id: Seq<char>| #[trigger]
        refers_to(operation, id) ==> is_known(previous, replies, count, id)
}

spec fn are_known(
    ids: Seq<Seq<char>>,
    previous: Set<Seq<char>>,
    replies: Seq<Seq<char>>,
    count: int,
) -> bool {
    forall|i: int| 0 <= i < ids.len() ==> is_known(previous, replies, count, #[trigger] ids[i])
}

proof fn lemma_schema_change(
    name: Seq<char>,
    previous: Option<SchemaViewModel>,
    description: Seq<char>,
    ids: Seq<Seq<char>>,
)
    ensures
        schema_change(name, previous, description, ids) matches Some(operation) ==> {
            &&& is_well_formed(operation)
            &&& forall|id: Seq<char>| #[trigger]
                refers_to(operation, id) ==> ids.contains(id) || (previous matches Some(view)
                    && view.view_id == id)
        },
{
    if let Some(operation) = schema_change(name, previous, description, ids) {
        match operation {
            OperationModel::Create { fields, .. } => {
                assert(fields.dom() =~= set!["name"@, "description"@, "fields"@]);
            },
            OperationModel::Update { fields, .. } => {
                if description != previous->0.description {
                    assert(fields.dom().contains("description"@));
                } else {
                    assert(fields.dom().contains("fields"@));
                }
            },
        }
    }
}

proof fn lemma_field_change(
    name: Seq<char>,
    previous: Option<SchemaFieldViewModel>,
    field_type: PandaFieldTypeModel,
)
    ensures
        field_change(name, previous, field_type) matches Some(operation) ==> {
            &&& is_well_formed(operation)
            &&& forall|id: Seq<char>| #[trigger]
                refers_to(operation, id) ==> (previous matches Some(view) && view.id == id)
        },
{
    if let Some(operation) = field_change(name, previous, field_type) {
        match operation {
            OperationModel::Create { fields, .. } => {
                assert(fields.dom() =~= set!["name"@, "type"@]);
            },
            OperationModel::Update { fields, .. } => {
                assert(fields.dom() =~= set!["type"@]);
            },
        }
    }
}

/// What is known stays known with more previous view ids and more replies.
proof fn lemma_known_grows(
    previous: Set<Seq<char>>,
    more: Set<Seq<char>>,
    replies: Seq<Seq<char>>,
    skipped: int,
    count: int,
    id: Seq<char>,
)
    requires
        previous.subset_of(more),
        0 <= skipped <= replies.len(),
        is_known(previous, replies.skip(skipped), count, id),
    ensures
        is_known(more, replies, skipped + count, id),
{
    if !previous.contains(id) {
        let left = replies.skip(skipped);
        let i = choose|i: int|
            0 <= i < count && i < left.len() && #[trigger] left[i] == id;
        assert(replies[skipped + i] == id);
    }
}

/// A change behind a sound run.
proof fn lemma_sound_change(
    run: Run,
    change: Option<OperationModel>,
    unchanged: Seq<char>,
    previous: Set<Seq<char>>,
    replies: Seq<Seq<char>>,
)
    requires
        is_sound(run, previous, replies),
        change matches Some(operation) ==> is_sound_operation(
            operation,
            previous,
            replies,
            run.operations.len() as int,
        ),
        change is None ==> previous.contains(unchanged),
    ensures
        is_sound(with_change(run.operations, change, unchanged, replies), previous, replies),
{
    let whole = with_change(run.operations, change, unchanged, replies);
    assert forall|i: int| 0 <= i < whole.operations.len() implies is_sound_operation(
        #[trigger] whole.operations[i],
        previous,
        replies,
        i,
    ) by {
        if i < run.operations.len() {
            assert(whole.operations[i] == run.operations[i]);
        }
    }
}

/// Two sound runs, one after the other.
proof fn lemma_sound_after(
    first: Run,
    second: Run,
    first_previous: Set<Seq<char>>,
    second_previous: Set<Seq<char>>,
    replies: Seq<Seq<char>>,
)
    requires
        first.operations.len() <= replies.len() || first.view_ids is None,
        is_sound(first, first_previous, replies),
        first.view_ids is Some ==> is_sound(
            second,
            second_previous,
            replies_behind(first, replies),
        ),
    ensures
        is_sound(after(first, second), first_previous.union(second_previous), replies),
{
    let whole = after(first, second);
    let previous = first_previous.union(second_previous);
    let count = first.operations.len() as int;
    let left = replies_behind(first, replies);
    assert(replies.skip(0) =~= replies);
    assert forall|i: int| 0 <= i < whole.operations.len() implies is_sound_operation(
        #[trigger] whole.operations[i],
        previous,
        replies,
        i,
    ) by {
        let operation = whole.operations[i];
        if i < count {
            assert(operation == first.operations[i]);
            assert forall|id: Seq<char>| #[trigger] refers_to(operation, id) implies is_known(
                previous,
                replies,
                i,
                id,
            ) by {
                lemma_known_grows(first_previous, previous, replies, 0, i, id);
            }
        } else {
            assert(operation == second.operations[i - count]);
            assert forall|id: Seq<char>| #[trigger] refers_to(operation, id) implies is_known(
                previous,
                replies,
                i,
                id,
            ) by {
                lemma_known_grows(second_previous, previous, replies, count, i - count, id);
            }
        }
    }
    if let Some(ids) = whole.view_ids {
        let first_ids = first.view_ids->0;
        let total = whole.operations.len() as int;
        assert forall|i: int| 0 <= i < ids.len() implies is_known(
            previous,
            replies,
            total,
            #[trigger] ids[i],
        ) by {
            if i < first_ids.len() {
                assert(ids[i] == first_ids[i]);
                lemma_known_grows(first_previous, previous, replies, 0, count, ids[i]);
            } else {
                assert(ids[i] == (second.view_ids->0)[i - first_ids.len()]);
                lemma_known_grows(
                    second_previous,
                    previous,
                    replies,
                    count,
                    total - count,
                    ids[i],
                );
            }
        }
    }
}

/// More previous view ids leave a run sound.
proof fn lemma_sound_grows(
    run: Run,
    previous: Set<Seq<char>>,
    more: Set<Seq<char>>,
    replies: Seq<Seq<char>>,
)
    requires
        is_sound(run, previous, replies),
        previous.subset_of(more),
    ensures
        is_sound(run, more, replies),
{
    assert forall|i: int| 0 <= i < run.operations.len() implies is_sound_operation(
        #[trigger] run.operations[i],
        more,
        replies,
        i,
    ) by {
        assert(is_sound_operation(run.operations[i], previous, replies, i));
    }
    if let Some(ids) = run.view_ids {
        assert forall|i: int| 0 <= i < ids.len() implies is_known(
            more,
            replies,
            run.operations.len() as int,
            #[trigger] ids[i],
        ) by {
            assert(is_known(previous, replies, run.operations.len() as int, ids[i]));
        }
    }
}

proof fn lemma_sound_schema(diff: SchemaDiffModel, replies: Seq<Seq<char>>)
    ensures
        is_sound(run_schema(diff, replies), previous_ids(diff), replies),
    decreases diff,
{
    let fields = run_fields(diff.fields, replies);
    let previous = previous_ids(diff);
    lemma_sound_fields(diff.fields, replies);
    lemma_sound_grows(fields, previous_ids_of_fields(diff.fields), previous, replies);
    if let Some(ids) = fields.view_ids {
        let change = schema_change(diff.name, diff.previous, diff.description, ids);
        let count = fields.operations.len() as int;
        lemma_schema_change(diff.name, diff.previous, diff.description, ids);
        if let Some(operation) = change {
            assert forall|id: Seq<char>| #[trigger] refers_to(operation, id) implies is_known(
                previous,
                replies,
                count,
                id,
            ) by {
                if ids.contains(id) {
                    let i = ids.index_of(id);
                    assert(is_known(previous, replies, count, ids[i]));
                }
            }
        }
        lemma_sound_change(fields, change, schema_view_id(diff.previous), previous, replies);
    }
}

proof fn lemma_sound_fields(diffs: Seq<FieldDiffModel>, replies: Seq<Seq<char>>)
    ensures
        is_sound(run_fields(diffs, replies), previous_ids_of_fields(diffs), replies),
    decreases diffs,
{
    if diffs.len() > 0 {
        let front = run_fields(diffs.drop_last(), replies);
        let left = replies_behind(front, replies);
        lemma_sound_fields(diffs.drop_last(), replies);
        lemma_run_fields(diffs.drop_last(), replies);
        lemma_sound_field(diffs.last(), left);
        lemma_sound_after(
            front,
            run_field(diffs.last(), left),
            previous_ids_of_fields(diffs.drop_last()),
            previous_ids_of_field(diffs.last()),
            replies,
        );
    }
}

proof fn lemma_sound_field(diff: FieldDiffModel, replies: Seq<Seq<char>>)
    ensures
        is_sound(run_field(diff, replies), previous_ids_of_field(diff), replies),
    decreases diff,
{
    let previous = previous_ids_of_field(diff);
    match diff.field_type {
        FieldTypeDiffModel::Field(field_type) => {
            let panda_type = basic_type(field_type);
            let change = field_change(diff.name, diff.previous, panda_type);
            lemma_field_change(diff.name, diff.previous, panda_type);
            lemma_sound_change(
                idle_run(Seq::empty()),
                change,
                field_view_id(diff.previous),
                previous,
                replies,
            );
        },
        FieldTypeDiffModel::Relation(kind, schema) => {
            let linked = run_schema(schema, replies);
            lemma_sound_schema(schema, replies);
            lemma_sound_grows(linked, previous_ids(schema), previous, replies);
            if let Some(ids) = linked.view_ids {
                let panda_type = relation_type(
                    kind,
                    SchemaIdModel::Application(schema.name, ids[0]),
                );
                let change = field_change(diff.name, diff.previous, panda_type);
                lemma_field_change(diff.name, diff.previous, panda_type);
                lemma_sound_change(linked, change, field_view_id(diff.previous), previous, replies);
            }
        },
    }
}

proof fn lemma_sound_plans(plans: Seq<SchemaDiffModel>, replies: Seq<Seq<char>>)
    ensures
        is_sound(run_plans(plans, replies), previous_ids_of_plans(plans), replies),
    decreases plans.len(),
{
    if plans.len() > 0 {
        let front = run_plans(plans.drop_last(), replies);
        let left = replies_behind(front, replies);
        lemma_sound_plans(plans.drop_last(), replies);
        lemma_run_plans(plans.drop_last(), replies);
        lemma_sound_schema(plans.last(), left);
        lemma_sound_after(
            front,
            run_schema(plans.last(), left),
            previous_ids_of_plans(plans.drop_last()),
            previous_ids(plans.last()),
            replies,
        );
    }
}

/// Every operation of an execution is well formed.
pub proof fn law_operations_are_well_formed(
    plans: Seq<SchemaDiffModel>,
    replies: Seq<Seq<char>>,
    index: int,
)
    requires
        0 <= index < run_plans(plans, replies).operations.len(),
    ensures
        is_well_formed(run_plans(plans, replies).operations[index]),
{
    lemma_sound_plans(plans, replies);
}

/// Dependencies are committed first: every operation of an execution refers only to versions that
/// existed before, or that came from the operations in front of it.
pub proof fn law_dependencies_are_committed_first(
    plans: Seq<SchemaDiffModel>,
    replies: Seq<Seq<char>>,
    index: int,
    id: Seq<char>,
)
    requires
        0 <= index < run_plans(plans, replies).operations.len(),
        refers_to(run_plans(plans, replies).operations[index], id),
    ensures
        is_known(previous_ids_of_plans(plans), replies, index, id),
{
    lemma_sound_plans(plans, replies);
    let run = run_plans(plans, replies);
    assert(is_sound_operation(run.operations[index], previous_ids_of_plans(plans), replies, index));
}

/// Where the view ids of all previous definitions are valid, and every reply is a valid one, every
/// operation of an execution holds valid view ids only.
pub proof fn law_operations_hold_valid_ids(
    plans: Seq<SchemaDiffModel>,
    replies: Seq<Seq<char>>,
    index: int,
)
    requires
        forall|id: Seq<char>| #[trigger]
            previous_ids_of_plans(plans).contains(id) ==> is_view_id(id),
        forall|i: int| 0 <= i < replies.len() ==> is_view_id(#[trigger] replies[i]),
        0 <= index < run_plans(plans, replies).operations.len(),
    ensures
        is_valid_operation(run_plans(plans, replies).operations[index]),
{
    let operation = run_plans(plans, replies).operations[index];
    assert forall|id: Seq<char>| #[trigger] refers_to(operation, id) implies is_view_id(
        id,
    ) by {
        law_dependencies_are_committed_first(plans, replies, index, id);
    }
    if let OperationModel::Update { previous, .. } = operation {
        assert(refers_to(operation, previous));
    }
    let fields = operation_fields(operation);
    assert forall|name: Seq<char>| #[trigger] fields.contains_key(name) implies is_valid_value(
        fields[name],
    ) by {
        if let OperationValueModel::PinnedRelationList(ids) = fields[name] {
            assert forall|i: int| 0 <= i < ids.len() implies is_view_id(
                #[trigger] ids[i],
            ) by {
                assert(ids.contains(ids[i]));
                assert(pins(operation, name, ids[i]));
                assert(refers_to(operation, ids[i]));
            }
        }
    }
}

/// Where the view ids of all previous definitions are valid, an execution only fails where p2panda
/// can not encode an operation.
pub proof fn law_only_encoding_can_fail(
    plans: Seq<SchemaDiffModel>,
    commits: Seq<CommitModel>,
    result: Result<Progress, UpdateError>,
)
    requires
        forall|id: Seq<char>| #[trigger]
            previous_ids_of_plans(plans).contains(id) ==> is_view_id(id),
        is_progress(plans, commits, result),
    ensures
        result matches Err(error) ==> error is EncodeOperation,
{
    if let Err(error) = result {
        let replies = replies_of(commits);
        let operations = run_with(plans, commits).operations;
        lemma_run_plans(plans, replies);
        assert forall|i: int| 0 <= i < replies.len() implies is_view_id(
            #[trigger] replies[i],
        ) by {
            assert(records(commits[i], operations.drop_last()[i]));
            lemma_hash_is_view_id(replies[i]);
        }
        law_operations_hold_valid_ids(plans, replies, operations.len() - 1);
    }
}

/// What an execution commits, the next update accepts: every commit that records an operation names
/// the hash of its entry and holds an operation of a known system schema, which is the recorded one.
pub proof fn law_commits_are_valid(
    plans: Seq<SchemaDiffModel>,
    replies: Seq<Seq<char>>,
    commits: Seq<CommitModel>,
    index: int,
)
    requires
        record(commits, run_plans(plans, replies).operations),
        0 <= index < commits.len(),
    ensures
        is_valid_commit(commits[index]),
        committed_operation(commits[index]) == Some(run_plans(plans, replies).operations[index]),
{
    let operation = run_plans(plans, replies).operations[index];
    law_operations_are_well_formed(plans, replies, index);
    assert(records(commits[index], operation));
    assert(is_known_system_schema(operation_schema(operation)));
}

} // verus!
