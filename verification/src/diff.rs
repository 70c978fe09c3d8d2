//! Differences between the schemas the user has and those they want.
use crate::current::{CurrentSchema, CurrentSchemaModel};
use crate::error::UpdateError;
use crate::graph::sort_schemas;
use crate::panda::{SchemaFieldView, SchemaFieldViewModel, SchemaView, SchemaViewModel};
use crate::previous::{previous_model, PreviousSchemaModel, PreviousSchemas};
use crate::relations::{
    check_links, find_current_schema, find_schema, has_cycle, has_relation_by_id, is_group, is_link,
    is_mentioned, is_relation_by_id, is_topological_order, lemma_find_schema, linked_name,
    links_are_known, relates,
};
use crate::schema_file::{
    FieldName, FieldType, RelationId, RelationIdModel, RelationType, SchemaDescription, SchemaField,
    SchemaFieldModel, SchemaName,
};
use crate::text::text_lt;
use vstd::pervasive::unreached;
use vstd::prelude::*;

verus! {

/// Information about the previous and current version of a schema.
///
/// The contained field definition documents are direct dependencies of the schema definition
/// document.
#[derive(Debug)]
pub struct SchemaDiff {
    /// Name of the schema.
    pub name: SchemaName,
    /// Previous version of this schema (if it existed).
    pub previous_schema_view: Option<SchemaView>,
    /// Current version of the schema description.
    pub current_description: SchemaDescription,
    /// Current version of the schema fields.
    pub current_fields: Vec<FieldDiff>,
}

/// Information about the previous and current version of a field.
///
/// A field of relation type links to a schema which is a direct dependency.
#[derive(Debug)]
pub struct FieldDiff {
    /// Name of the schema field.
    pub name: FieldName,
    /// Previous version of this field (if it existed).
    pub previous_field_view: Option<SchemaFieldView>,
    /// Current version of the field type.
    pub current_field_type: FieldTypeDiff,
}

/// Current version of a field type.
#[derive(Debug)]
pub enum FieldTypeDiff {
    /// Basic schema field type.
    Field(FieldType),
    /// Relation field type linked to a schema.
    Relation(RelationType, SchemaDiff),
}

/// Model of a [`SchemaDiff`].
pub struct SchemaDiffModel {
    pub name: Seq<char>,
    pub previous: Option<SchemaViewModel>,
    pub description: Seq<char>,
    pub fields: Seq<FieldDiffModel>,
}

/// Model of a [`FieldDiff`].
pub struct FieldDiffModel {
    pub name: Seq<char>,
    pub previous: Option<SchemaFieldViewModel>,
    pub field_type: FieldTypeDiffModel,
}

/// Model of a [`FieldTypeDiff`].
pub enum FieldTypeDiffModel {
    Field(FieldType),
    Relation(RelationType, SchemaDiffModel),
}

/// The model that a schema diff stands for.
pub open spec fn schema_diff_model(diff: SchemaDiff) -> SchemaDiffModel
    decreases diff,
{
    SchemaDiffModel {
        name: diff.name@,
        previous: diff.previous_schema_view.deep_view(),
        description: diff.current_description@,
        fields: field_diff_models(diff.current_fields@),
    }
}

/// The models that field diffs stand for.
pub open spec fn field_diff_models(diffs: Seq<FieldDiff>) -> Seq<FieldDiffModel>
    decreases diffs,
{
    if diffs.len() == 0 {
        Seq::empty()
    } else {
        field_diff_models(diffs.drop_last()).push(field_diff_model(diffs.last()))
    }
}

/// The model that a field diff stands for.
pub open spec fn field_diff_model(diff: FieldDiff) -> FieldDiffModel
    decreases diff,
{
    FieldDiffModel {
        name: diff.name@,
        previous: diff.previous_field_view.deep_view(),
        field_type: match diff.current_field_type {
            FieldTypeDiff::Field(field_type) => FieldTypeDiffModel::Field(field_type),
            FieldTypeDiff::Relation(relation_type, schema) => FieldTypeDiffModel::Relation(
                relation_type,
                schema_diff_model(schema),
            ),
        },
    }
}

impl DeepView for SchemaDiff {
    type V = SchemaDiffModel;

    open spec fn deep_view(&self) -> SchemaDiffModel {
        schema_diff_model(*self)
    }
}

impl DeepView for FieldDiff {
    type V = FieldDiffModel;

    open spec fn deep_view(&self) -> FieldDiffModel {
        field_diff_model(*self)
    }
}

pub(crate) proof fn lemma_field_diff_models(diffs: Seq<FieldDiff>)
    ensures
        field_diff_models(diffs).len() == diffs.len(),
        forall|i: int|
            0 <= i < diffs.len() ==> #[trigger] field_diff_models(diffs)[i] == field_diff_model(
                diffs[i],
            ),
    decreases diffs.len(),
{
    if diffs.len() > 0 {
        lemma_field_diff_models(diffs.drop_last());
    }
}

impl Clone for SchemaDiff {
    fn clone(&self) -> (copy: Self)
        ensures
            copy.deep_view() == self.deep_view(),
        decreases self,
    {
        let previous_schema_view = match &self.previous_schema_view {
            Some(view) => Some(view.clone()),
            None => None,
        };
        let mut current_fields: Vec<FieldDiff> = Vec::new();
        for i in 0..self.current_fields.len()
            invariant
                field_diff_models(current_fields@) == field_diff_models(
                    self.current_fields@.take(i as int),
                ),
        {
            let field = self.current_fields[i].clone();
            let ghost before = current_fields@;
            current_fields.push(field);
            assert(current_fields@.drop_last() =~= before);
            assert(self.current_fields@.take(i + 1).drop_last() =~= self.current_fields@.take(
                i as int,
            ));
        }
        assert(self.current_fields@.take(self.current_fields@.len() as int)
            =~= self.current_fields@);
        SchemaDiff {
            name: self.name.clone(),
            previous_schema_view,
            current_description: self.current_description.clone(),
            current_fields,
        }
    }
}

impl Clone for FieldDiff {
    fn clone(&self) -> (copy: Self)
        ensures
            copy.deep_view() == self.deep_view(),
        decreases self,
    {
        let previous_field_view = match &self.previous_field_view {
            Some(view) => Some(view.clone()),
            None => None,
        };
        let current_field_type = match &self.current_field_type {
            FieldTypeDiff::Field(field_type) => FieldTypeDiff::Field(*field_type),
            FieldTypeDiff::Relation(relation_type, schema) => FieldTypeDiff::Relation(
                *relation_type,
                schema.clone(),
            ),
        };
        FieldDiff { name: self.name.clone(), previous_field_view, current_field_type }
    }
}

/// The first field view of this name.
pub open spec fn find_field_view(
    views: Seq<SchemaFieldViewModel>,
    name: Seq<char>,
) -> Option<SchemaFieldViewModel>
    decreases views.len(),
{
    if views.len() == 0 {
        None
    } else if views[0].name == name {
        Some(views[0])
    } else {
        find_field_view(views.skip(1), name)
    }
}

/// The previous version of the field `field` of the schema `schema`, where there was one.
pub open spec fn previous_field(
    previous: Map<Seq<char>, PreviousSchemaModel>,
    schema: Seq<char>,
    field: Seq<char>,
) -> Option<SchemaFieldViewModel> {
    if previous.contains_key(schema) {
        find_field_view(previous[schema].schema_field_views, field)
    } else {
        None
    }
}

/// `diff` holds the previous and the current version of the schema `name`, and with each relation
/// the diff of the schema that it links to.
pub open spec fn is_schema_diff(
    previous: Map<Seq<char>, PreviousSchemaModel>,
    current: Seq<CurrentSchemaModel>,
    name: Seq<char>,
    diff: SchemaDiffModel,
) -> bool
    decreases diff,
{
    &&& find_schema(current, name) matches Some(schema)
    &&& diff.name == name
    &&& diff.previous == if previous.contains_key(name) {
        Some(previous[name].schema_view)
    } else {
        None
    }
    &&& diff.description == schema.description
    &&& diff.fields.len() == schema.fields.len()
    &&& forall|i: int|
        0 <= i < diff.fields.len() ==> is_field_diff(
            previous,
            current,
            name,
            schema.fields[i],
            #[trigger] diff.fields[i],
        )
}

/// `diff` holds the previous and the current version of the field `field` of the schema `schema`.
pub open spec fn is_field_diff(
    previous: Map<Seq<char>, PreviousSchemaModel>,
    current: Seq<CurrentSchemaModel>,
    schema: Seq<char>,
    field: (Seq<char>, SchemaFieldModel),
    diff: FieldDiffModel,
) -> bool
    decreases diff,
{
    &&& diff.name == field.0
    &&& diff.previous == previous_field(previous, schema, field.0)
    &&& match (field.1, diff.field_type) {
        (
            SchemaFieldModel::Field(field_type),
            FieldTypeDiffModel::Field(diff_type),
        ) => field_type == diff_type,
        (
            SchemaFieldModel::Relation(relation_type, RelationIdModel::Name(linked)),
            FieldTypeDiffModel::Relation(diff_type, linked_diff),
        ) => relation_type == diff_type && is_schema_diff(previous, current, linked, linked_diff),
        _ => false,
    }
}

/// The inputs determine the diff of a schema.
pub proof fn law_schema_diff_is_unique(
    previous: Map<Seq<char>, PreviousSchemaModel>,
    current: Seq<CurrentSchemaModel>,
    name: Seq<char>,
    left: SchemaDiffModel,
    right: SchemaDiffModel,
)
    requires
        is_schema_diff(previous, current, name, left),
        is_schema_diff(previous, current, name, right),
    ensures
        left == right,
    decreases left,
{
    let schema = find_schema(current, name)->0;
    assert forall|i: int| 0 <= i < left.fields.len() implies left.fields[i] == right.fields[i] by {
        assert(is_field_diff(previous, current, name, schema.fields[i], left.fields[i]));
        assert(is_field_diff(previous, current, name, schema.fields[i], right.fields[i]));
        match (left.fields[i].field_type, right.fields[i].field_type) {
            (
                FieldTypeDiffModel::Relation(_, left_linked),
                FieldTypeDiffModel::Relation(_, right_linked),
            ) => {
                let linked = linked_name(schema.fields[i].1)->0;
                assert(decreases_to!(left => left.fields));
                assert(decreases_to!(left.fields => left.fields[i]));
                law_schema_diff_is_unique(previous, current, linked, left_linked, right_linked);
            },
            _ => {},
        }
    }
    assert(left.fields =~= right.fields);
}

/// One of the diffs has this name.
pub open spec fn has_diff(diffs: Seq<SchemaDiffModel>, name: Seq<char>) -> bool {
    exists|i: int| 0 <= i < diffs.len() && (#[trigger] diffs[i]).name == name
}

/// `part` is the diff `whole` itself, or nested in it.
pub open spec fn is_part(whole: SchemaDiffModel, part: SchemaDiffModel) -> bool
    decreases whole,
{
    whole == part || is_part_of_fields(whole.fields, part)
}

/// `part` is the diff of a schema that one of the fields links to, or nested in it.
pub open spec fn is_part_of_fields(fields: Seq<FieldDiffModel>, part: SchemaDiffModel) -> bool
    decreases fields,
{
    exists|i: int| 0 <= i < fields.len() && is_part_of_field(#[trigger] fields[i], part)
}

/// `part` is the diff of the schema that the field links to, or nested in it.
pub open spec fn is_part_of_field(field: FieldDiffModel, part: SchemaDiffModel) -> bool
    decreases field,
{
    field.field_type matches FieldTypeDiffModel::Relation(_, linked) && is_part(linked, part)
}

/// `part` is one of the diffs, or nested in one of them.
pub open spec fn is_part_of_plan(diffs: Seq<SchemaDiffModel>, part: SchemaDiffModel) -> bool {
    exists|i: int| 0 <= i < diffs.len() && is_part(#[trigger] diffs[i], part)
}

/// A schema of this name has its diff among the diffs, at the top or nested.
pub open spec fn is_planned(diffs: Seq<SchemaDiffModel>, name: Seq<char>) -> bool {
    exists|part: SchemaDiffModel| #[trigger] is_part_of_plan(diffs, part) && part.name == name
}

/// `diffs` holds one diff for each group, in the order of their names. Every diff nests those of the
/// schemas that it relates to.
pub open spec fn is_plan(
    previous: Map<Seq<char>, PreviousSchemaModel>,
    current: Seq<CurrentSchemaModel>,
    diffs: Seq<SchemaDiffModel>,
) -> bool {
    &&& forall|i: int, j: int|
        0 <= i < j < diffs.len() ==> text_lt(
            (#[trigger] diffs[i]).name,
            (#[trigger] diffs[j]).name,
        )
    &&& forall|name: Seq<char>| #[trigger]
        has_diff(diffs, name) <==> is_group(current, name)
    &&& forall|i: int|
        0 <= i < diffs.len() ==> is_schema_diff(
            previous,
            current,
            diffs[i].name,
            #[trigger] diffs[i],
        )
}

/// Returns a copy of the first field view of this name.
fn find_previous_field(views: &Vec<SchemaFieldView>, name: &FieldName) -> (found: Option<
    SchemaFieldView,
>)
    ensures
        found.deep_view() == find_field_view(views.deep_view(), name@),
{
    let ghost models = views.deep_view();
    assert(models.skip(0) =~= models);
    for i in 0..views.len()
        invariant
            models == views.deep_view(),
            find_field_view(models, name@) == find_field_view(models.skip(i as int), name@),
    {
        assert(models.skip(i as int)[0] == views@[i as int].deep_view());
        assert(models.skip(i as int).skip(1) =~= models.skip(i + 1));
        if views[i].name == *name {
            return Some(views[i].clone());
        }
    }
    None
}

/// Returns the position of a diff of this name.
fn find_diff(diffs: &Vec<SchemaDiff>, name: &SchemaName) -> (index: usize)
    requires
        exists|i: int| 0 <= i < diffs@.len() && (#[trigger] diffs@[i]).name@ == name@,
    ensures
        index < diffs@.len(),
        diffs@[index as int].name@ == name@,
{
    let count = diffs.len();
    let mut index: usize = 0;
    while diffs[index].name != *name
        invariant
            index < count == diffs@.len(),
            exists|i: int| index <= i < diffs@.len() && (#[trigger] diffs@[i]).name@ == name@,
        decreases count - index,
    {
        index = index + 1;
    }
    index
}

/// Derives the diff of one field of the schema `schema_name` from its previous and current version
/// and from the diffs of the schemas that were visited before.
fn get_field_diff(
    previous_schemas: &PreviousSchemas,
    current_schemas: &Vec<CurrentSchema>,
    schema_name: &SchemaName,
    field: &(FieldName, SchemaField),
    schema_diffs: &Vec<SchemaDiff>,
) -> (diff: FieldDiff)
    requires
        !is_relation_by_id(field.1.deep_view()),
        linked_name(field.1.deep_view()) matches Some(linked) ==> exists|i: int|
            0 <= i < schema_diffs@.len() && (#[trigger] schema_diffs@[i]).name@ == linked,
        forall|i: int|
            0 <= i < schema_diffs@.len() ==> is_schema_diff(
                previous_model(previous_schemas@),
                current_schemas.deep_view(),
                (#[trigger] schema_diffs@[i]).name@,
                schema_diffs@[i].deep_view(),
            ),
    ensures
        is_field_diff(
            previous_model(previous_schemas@),
            current_schemas.deep_view(),
            schema_name@,
            field.deep_view(),
            diff.deep_view(),
        ),
{
    let (field_name, field_definition) = field;
    // Get the current field version
    let current_field_type = match field_definition {
        SchemaField::Field { field_type } => FieldTypeDiff::Field(*field_type),
        SchemaField::Relation { field_type, schema } => match &schema.id {
            RelationId::Name(linked) => {
                let index = find_diff(schema_diffs, linked);
                FieldTypeDiff::Relation(*field_type, schema_diffs[index].clone())
            },
            RelationId::Id(_) => unreached(),
        },
    };
    // Get the previous field version (if it existed)
    let previous_field_view = match previous_schemas.get(schema_name.as_str()) {
        Some(schema) => find_previous_field(&schema.schema_field_views, field_name),
        None => None,
    };
    FieldDiff { name: field_name.clone(), previous_field_view, current_field_type }
}

/// Extends schemas in topological order with information about what was previously given and what
/// the current state is. Every diff nests those of the schemas that it relates to.
pub fn get_schema_diffs(
    previous_schemas: &PreviousSchemas,
    current_schemas: &Vec<CurrentSchema>,
    sorted_schemas: &Vec<SchemaName>,
) -> (diffs: Vec<SchemaDiff>)
    requires
        !has_relation_by_id(current_schemas.deep_view()),
        links_are_known(current_schemas.deep_view()),
        is_topological_order(current_schemas.deep_view(), sorted_schemas.deep_view()),
    ensures
        diffs@.len() == sorted_schemas@.len(),
        forall|i: int|
            0 <= i < diffs@.len() ==> is_schema_diff(
                previous_model(previous_schemas@),
                current_schemas.deep_view(),
                sorted_schemas@[i]@,
                (#[trigger] diffs@[i]).deep_view(),
            ),
{
    let ghost previous = previous_model(previous_schemas@);
    let ghost current = current_schemas.deep_view();
    let ghost sorted = sorted_schemas.deep_view();
    let mut diffs: Vec<SchemaDiff> = Vec::new();
    for n in 0..sorted_schemas.len()
        invariant
            previous == previous_model(previous_schemas@),
            current == current_schemas.deep_view(),
            sorted == sorted_schemas.deep_view(),
            !has_relation_by_id(current),
            links_are_known(current),
            is_topological_order(current, sorted),
            diffs@.len() == n,
            forall|i: int|
                0 <= i < n ==> is_schema_diff(
                    previous,
                    current,
                    sorted[i],
                    (#[trigger] diffs@[i]).deep_view(),
                ),
    {
        let name = &sorted_schemas[n];
        proof {
            assert(sorted[n as int] == name@);
            assert(sorted.contains(name@));
            assert(is_mentioned(current, name@));
            lemma_find_schema(current, name@);
        }
        // Get the previous (if it exists) and current schema versions
        let previous_schema_view = match previous_schemas.get(name.as_str()) {
            Some(schema) => Some(schema.schema_view.clone()),
            None => None,
        };
        let schema = match find_current_schema(current_schemas, name) {
            Some(schema) => schema,
            None => unreached(),
        };
        let ghost fields = schema.fields.deep_view();
        let ghost at = choose|i: int|
            0 <= i < current.len() && #[trigger] current[i] == schema.deep_view();
        // Get the regarding current or previously existing fields and derive plans from it
        let mut field_diffs: Vec<FieldDiff> = Vec::new();
        for j in 0..schema.fields.entries.len()
            invariant
                previous == previous_model(previous_schemas@),
                current == current_schemas.deep_view(),
                sorted == sorted_schemas.deep_view(),
                !has_relation_by_id(current),
                is_topological_order(current, sorted),
                0 <= n < sorted.len(),
                sorted[n as int] == name@,
                fields == schema.fields.deep_view(),
                0 <= at < current.len(),
                current[at].fields == fields,
                current[at].name == name@,
                diffs@.len() == n,
                forall|i: int|
                    0 <= i < n ==> is_schema_diff(
                        previous,
                        current,
                        sorted[i],
                        (#[trigger] diffs@[i]).deep_view(),
                    ),
                field_diffs@.len() == j,
                forall|i: int|
                    0 <= i < j ==> is_field_diff(
                        previous,
                        current,
                        name@,
                        fields[i],
                        (#[trigger] field_diffs@[i]).deep_view(),
                    ),
        {
            let field = &schema.fields.entries[j];
            proof {
                assert(fields[j as int] == field.deep_view());
                assert(!is_relation_by_id(current[at].fields[j as int].1));
                if linked_name(field.1.deep_view()) is Some {
                    let linked = linked_name(field.1.deep_view())->0;
                    assert(is_link(current, at, j as int, name@, linked));
                    assert(relates(current, sorted[n as int], linked));
                    let front = sorted.take(n as int);
                    let k = front.index_of(linked);
                    assert(front[k] == linked);
                    assert(diffs@[k].deep_view().name == linked);
                }
                assert forall|i: int| 0 <= i < diffs@.len() implies is_schema_diff(
                    previous,
                    current,
                    (#[trigger] diffs@[i]).name@,
                    diffs@[i].deep_view(),
                ) by {
                    assert(diffs@[i].deep_view().name == sorted[i]);
                }
            }
            field_diffs.push(
                get_field_diff(previous_schemas, current_schemas, name, field, &diffs),
            );
        }
        let diff = SchemaDiff {
            name: name.clone(),
            previous_schema_view,
            current_description: schema.description.clone(),
            current_fields: field_diffs,
        };
        proof {
            lemma_field_diff_models(diff.current_fields@);
            let model = diff.deep_view();
            assert forall|i: int| 0 <= i < model.fields.len() implies is_field_diff(
                previous,
                current,
                name@,
                fields[i],
                #[trigger] model.fields[i],
            ) by {
                assert(model.fields[i] == diff.current_fields@[i].deep_view());
            }
            assert(is_schema_diff(previous, current, name@, model));
        }
        diffs.push(diff);
    }
    diffs
}

/// Tells whether [`get_diff`] can be asked for these schemas.
pub fn is_plannable(current_schemas: &Vec<CurrentSchema>) -> (plannable: bool)
    ensures
        plannable == (has_relation_by_id(current_schemas.deep_view()) || has_cycle(
            current_schemas.deep_view(),
        ) || links_are_known(current_schemas.deep_view())),
{
    match sort_schemas(current_schemas) {
        Ok(_) => check_links(current_schemas),
        Err(_) => true,
    }
}

/// Gathers the differences between the current and the previous versions and organises them in
/// nested, topological order as some changes depend on each other.
///
/// There is one diff for each group, that is for each schema that no other one relates to, in the
/// order of their names. Every diff nests the required changes inside itself.
///
/// Fails where a relation refers to its schema by id, else where schemas relate to each other in a
/// circle. Else every relation has to link to a schema that is there: [`is_plannable`] tells.
pub fn get_diff(
    previous_schemas: PreviousSchemas,
    current_schemas: Vec<CurrentSchema>,
) -> (result: Result<Vec<SchemaDiff>, UpdateError>)
    requires
        has_relation_by_id(current_schemas.deep_view()) || has_cycle(current_schemas.deep_view())
            || links_are_known(current_schemas.deep_view()),
    ensures
        match result {
            Ok(diffs) => {
                &&& !has_relation_by_id(current_schemas.deep_view())
                &&& !has_cycle(current_schemas.deep_view())
                &&& is_plan(
                    previous_model(previous_schemas@),
                    current_schemas.deep_view(),
                    diffs.deep_view(),
                )
            },
            Err(UpdateError::RelationById) => has_relation_by_id(current_schemas.deep_view()),
            Err(UpdateError::CyclicRelations) => !has_relation_by_id(current_schemas.deep_view())
                && has_cycle(current_schemas.deep_view()),
            Err(_) => false,
        },
{
    let names = match sort_schemas(&current_schemas) {
        Ok(names) => names,
        Err(error) => return Err(error),
    };
    let schema_diffs = get_schema_diffs(&previous_schemas, &current_schemas, &names.sorted);
    let ghost previous = previous_model(previous_schemas@);
    let ghost current = current_schemas.deep_view();
    let ghost groups = names.groups.deep_view();
    let ghost sorted = names.sorted.deep_view();
    proof {
        assert forall|name: Seq<char>| #[trigger] groups.contains(name) implies sorted.contains(
            name,
        ) by {
            assert(is_mentioned(current, name));
        }
    }
    // For each group we return one diff each. Every diff nests the required changes inside itself
    let mut diffs: Vec<SchemaDiff> = Vec::new();
    for n in 0..names.groups.len()
        invariant
            groups == names.groups.deep_view(),
            sorted == names.sorted.deep_view(),
            forall|name: Seq<char>| #[trigger] groups.contains(name) ==> sorted.contains(name),
            schema_diffs@.len() == sorted.len(),
            forall|i: int|
                0 <= i < schema_diffs@.len() ==> is_schema_diff(
                    previous,
                    current,
                    sorted[i],
                    (#[trigger] schema_diffs@[i]).deep_view(),
                ),
            diffs@.len() == n,
            forall|i: int|
                0 <= i < n ==> is_schema_diff(
                    previous,
                    current,
                    groups[i],
                    (#[trigger] diffs@[i]).deep_view(),
                ),
    {
        proof {
            assert forall|i: int| 0 <= i < schema_diffs@.len() implies (
            #[trigger] schema_diffs@[i]).name@ == sorted[i] by {
                assert(schema_diffs@[i].deep_view().name == sorted[i]);
            }
            assert(groups.contains(groups[n as int]));
            let k = sorted.index_of(groups[n as int]);
            assert(schema_diffs@[k].name@ == groups[n as int]);
        }
        let index = find_diff(&schema_diffs, &names.groups[n]);
        diffs.push(schema_diffs[index].clone());
    }
    proof {
        let models = diffs.deep_view();
        assert forall|i: int| 0 <= i < models.len() implies (#[trigger] models[i]).name
            == groups[i] by {
            assert(diffs@[i].deep_view() == models[i]);
        }
        assert forall|name: Seq<char>| #[trigger]
            has_diff(models, name) <==> is_group(current, name) by {
            assert(groups.contains(name) <==> is_group(current, name));
            if has_diff(models, name) {
                let i = choose|i: int| 0 <= i < models.len() && (#[trigger] models[i]).name == name;
                assert(groups[i] == name);
            }
            if groups.contains(name) {
                let i = groups.index_of(name);
                assert(models[i].name == name);
            }
        }
        assert forall|i: int, j: int| 0 <= i < j < models.len() implies text_lt(
            (#[trigger] models[i]).name,
            (#[trigger] models[j]).name,
        ) by {
            assert(names.groups@[i]@ == groups[i]);
            assert(names.groups@[j]@ == groups[j]);
        }
        assert forall|i: int| 0 <= i < models.len() implies is_schema_diff(
            previous,
            current,
            models[i].name,
            #[trigger] models[i],
        ) by {
            assert(models[i] == diffs@[i].deep_view());
        }
    }
    Ok(diffs)
}

} // verus!
