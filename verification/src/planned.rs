//! What planning an update gives, in terms of the schemas that go into it.
use crate::calls::{
    lemma_same_fields, lemma_same_texts, links_to, same_fields, same_texts, same_type,
};
use crate::current::{CurrentSchema, CurrentSchemaModel};
use crate::diff::{
    find_field_view, get_diff, get_schema_diffs, has_diff, is_field_diff, is_plannable,
    is_schema_diff, lemma_field_diff_models, FieldDiff, FieldTypeDiff, SchemaDiff,
};
use crate::error::UpdateError;
use crate::graph::{sort_schemas, SortedSchemas};
use crate::panda::{SchemaFieldView, SchemaFieldViewModel, SchemaView};
use crate::previous::{previous_model, PreviousSchema, PreviousSchemas};
use crate::relations::{
    check_links, find_current_schema, find_schema, has_cycle, has_links_to, has_relation_by_id,
    is_group, is_link, is_path, is_relation_by_id, is_schema_name, is_step, is_topological_order,
    lemma_find_schema, linked_name, links_are_known, relates,
};
use crate::schema_file::{FieldName, RelationId, SchemaField, SchemaName};
use crate::text::text_lt;
use vstd::prelude::*;

verus! {

/// Two definitions of a schema are the same version.
pub open spec fn same_view(left: SchemaView, right: SchemaView) -> bool {
    &&& left.view_id@ == right.view_id@
    &&& left.name@ == right.name@
    &&& left.description@ == right.description@
    &&& same_texts(left.fields@, right.fields@)
}

/// Two definitions of a field are the same version.
pub open spec fn same_field_view(left: SchemaFieldView, right: SchemaFieldView) -> bool {
    &&& left.id@ == right.id@
    &&& left.name@ == right.name@
    &&& same_type(left.field_type, right.field_type)
}

/// Schema `n` is the first one of this name.
pub open spec fn is_first_named(schemas: Seq<CurrentSchema>, name: Seq<char>, n: int) -> bool {
    &&& 0 <= n < schemas.len()
    &&& schemas[n].name@ == name
    &&& forall|i: int| 0 <= i < n ==> (#[trigger] schemas[i]).name@ != name
}

/// Field view `k` is the first one of this name.
pub open spec fn is_first_view(views: Seq<SchemaFieldView>, name: Seq<char>, k: int) -> bool {
    &&& 0 <= k < views.len()
    &&& views[k].name@ == name
    &&& forall|i: int| 0 <= i < k ==> (#[trigger] views[i]).name@ != name
}

/// What is said to be the previous version of a field is the first field view of its name, where
/// there is one.
pub open spec fn is_previous_version(
    views: Seq<SchemaFieldView>,
    name: Seq<char>,
    said: Option<SchemaFieldView>,
) -> bool {
    match said {
        Some(view) => exists|k: int| #[trigger]
            is_first_view(views, name, k) && same_field_view(view, views[k]),
        None => forall|k: int| 0 <= k < views.len() ==> (#[trigger] views[k]).name@ != name,
    }
}

/// The diff sets the previous and the current version of a schema against each other: the previous
/// version is the committed one of its name, whatever its fields are. Description and fields are
/// those that the user wants, and with each relation goes the diff of the schema that it links to.
pub open spec fn compares(
    previous: Map<Seq<char>, PreviousSchema>,
    current: Seq<CurrentSchema>,
    diff: SchemaDiff,
) -> bool
    decreases diff,
{
    &&& diff.previous_schema_view is Some <==> previous.contains_key(diff.name@)
    &&& diff.previous_schema_view matches Some(view) ==> same_view(
        view,
        previous[diff.name@].schema_view,
    )
    &&& exists|n: int| #[trigger]
        is_first_named(current, diff.name@, n) && is_wanted(current[n], diff)
    &&& forall|i: int|
        0 <= i < diff.current_fields@.len() ==> compares_field(
            previous,
            current,
            diff.name@,
            #[trigger] diff.current_fields@[i],
        )
}

/// The diff has the description and, in their order, the fields of the schema.
pub open spec fn is_wanted(schema: CurrentSchema, diff: SchemaDiff) -> bool {
    &&& diff.current_description@ == schema.description@
    &&& diff.current_fields@.len() == schema.fields.entries@.len()
    &&& forall|i: int|
        0 <= i < diff.current_fields@.len() ==> is_wanted_field(
            schema.fields.entries@[i],
            #[trigger] diff.current_fields@[i],
        )
}

/// The diff has the name of the field and a type of exactly its kind, with the linked schema's diff.
pub open spec fn is_wanted_field(field: (FieldName, SchemaField), diff: FieldDiff) -> bool {
    &&& diff.name@ == field.0@
    &&& match (field.1, diff.current_field_type) {
        (
            SchemaField::Field { field_type },
            FieldTypeDiff::Field(diff_type),
        ) => field_type == diff_type,
        (
            SchemaField::Relation { field_type, schema },
            FieldTypeDiff::Relation(diff_type, linked),
        ) => {
            &&& field_type == diff_type
            &&& schema.id matches RelationId::Name(name) && linked.name@ == name@
        },
        _ => false,
    }
}

/// The diff of a field of the schema `schema` holds its previous version, and the diff of the schema
/// that it links to.
pub open spec fn compares_field(
    previous: Map<Seq<char>, PreviousSchema>,
    current: Seq<CurrentSchema>,
    schema: Seq<char>,
    diff: FieldDiff,
) -> bool
    decreases diff,
{
    &&& if previous.contains_key(schema) {
        is_previous_version(
            previous[schema].schema_field_views@,
            diff.name@,
            diff.previous_field_view,
        )
    } else {
        diff.previous_field_view is None
    }
    &&& diff.current_field_type matches FieldTypeDiff::Relation(_, linked) ==> compares(
        previous,
        current,
        linked,
    )
}

proof fn lemma_find_first(schemas: Vec<CurrentSchema>, name: Seq<char>)
    ensures
        find_schema(schemas.deep_view(), name) matches Some(schema) ==> exists|n: int| #[trigger]
            is_first_named(schemas@, name, n) && schemas@[n].deep_view() == schema,
{
    let models = schemas.deep_view();
    lemma_find_first_from(models, name);
    if find_schema(models, name) is Some {
        let n = choose|n: int|
            {
                &&& 0 <= n < models.len()
                &&& #[trigger] models[n] == find_schema(models, name)->0
                &&& models[n].name == name
                &&& forall|i: int| 0 <= i < n ==> (#[trigger] models[i]).name != name
            };
        assert(models[n] == schemas@[n].deep_view());
        assert forall|i: int| 0 <= i < n implies (#[trigger] schemas@[i]).name@ != name by {
            assert(models[i] == schemas@[i].deep_view());
        }
        assert(is_first_named(schemas@, name, n));
    }
}

proof fn lemma_find_first_from(models: Seq<CurrentSchemaModel>, name: Seq<char>)
    ensures
        find_schema(models, name) matches Some(schema) ==> exists|n: int|
            {
                &&& 0 <= n < models.len()
                &&& #[trigger] models[n] == schema
                &&& models[n].name == name
                &&& forall|i: int| 0 <= i < n ==> (#[trigger] models[i]).name != name
            },
    decreases models.len(),
{
    if models.len() > 0 && models[0].name != name {
        let rest = models.skip(1);
        lemma_find_first_from(rest, name);
        if find_schema(rest, name) is Some {
            let n = choose|n: int|
                {
                    &&& 0 <= n < rest.len()
                    &&& #[trigger] rest[n] == find_schema(rest, name)->0
                    &&& rest[n].name == name
                    &&& forall|i: int| 0 <= i < n ==> (#[trigger] rest[i]).name != name
                };
            assert(models[n + 1] == rest[n]);
            assert forall|i: int| 0 <= i < n + 1 implies (#[trigger] models[i]).name != name by {
                if i > 0 {
                    assert(rest[i - 1] == models[i]);
                }
            }
        }
    } else if models.len() > 0 {
        assert(models[0] == find_schema(models, name)->0);
    }
}

proof fn lemma_find_first_view(views: Vec<SchemaFieldView>, name: Seq<char>)
    ensures
        match find_field_view(views.deep_view(), name) {
            Some(view) => exists|k: int| #[trigger]
                is_first_view(views@, name, k) && views@[k].deep_view() == view,
            None => forall|k: int| 0 <= k < views@.len() ==> (#[trigger] views@[k]).name@ != name,
        },
{
    let models = views.deep_view();
    lemma_find_first_view_from(models, name);
    match find_field_view(models, name) {
        Some(view) => {
            let k = choose|k: int|
                {
                    &&& 0 <= k < models.len()
                    &&& #[trigger] models[k] == view
                    &&& models[k].name == name
                    &&& forall|i: int| 0 <= i < k ==> (#[trigger] models[i]).name != name
                };
            assert(models[k] == views@[k].deep_view());
            assert forall|i: int| 0 <= i < k implies (#[trigger] views@[i]).name@ != name by {
                assert(models[i] == views@[i].deep_view());
            }
            assert(is_first_view(views@, name, k));
        },
        None => {
            assert forall|k: int| 0 <= k < views@.len() implies (#[trigger] views@[k]).name@
                != name by {
                assert(models[k] == views@[k].deep_view());
            }
        },
    }
}

proof fn lemma_find_first_view_from(models: Seq<SchemaFieldViewModel>, name: Seq<char>)
    ensures
        match find_field_view(models, name) {
            Some(view) => exists|k: int|
                {
                    &&& 0 <= k < models.len()
                    &&& #[trigger] models[k] == view
                    &&& models[k].name == name
                    &&& forall|i: int| 0 <= i < k ==> (#[trigger] models[i]).name != name
                },
            None => forall|k: int| 0 <= k < models.len() ==> (#[trigger] models[k]).name != name,
        },
    decreases models.len(),
{
    if models.len() > 0 && models[0].name != name {
        let rest = models.skip(1);
        lemma_find_first_view_from(rest, name);
        match find_field_view(rest, name) {
            Some(view) => {
                let k = choose|k: int|
                    {
                        &&& 0 <= k < rest.len()
                        &&& #[trigger] rest[k] == view
                        &&& rest[k].name == name
                        &&& forall|i: int| 0 <= i < k ==> (#[trigger] rest[i]).name != name
                    };
                assert(models[k + 1] == rest[k]);
                assert forall|i: int| 0 <= i < k + 1 implies (#[trigger] models[i]).name != name by {
                    if i > 0 {
                        assert(rest[i - 1] == models[i]);
                    }
                }
            },
            None => {
                assert forall|k: int| 0 <= k < models.len() implies (#[trigger] models[k]).name
                    != name by {
                    if k > 0 {
                        assert(rest[k - 1] == models[k]);
                    }
                }
            },
        }
    } else if models.len() > 0 {
        assert(models[0] == find_field_view(models, name)->0);
    }
}

proof fn lemma_compares(
    previous: Map<Seq<char>, PreviousSchema>,
    current: Vec<CurrentSchema>,
    name: Seq<char>,
    diff: SchemaDiff,
)
    requires
        is_schema_diff(previous_model(previous), current.deep_view(), name, diff.deep_view()),
    ensures
        diff.name@ == name,
        compares(previous, current@, diff),
    decreases diff,
{
    let model = diff.deep_view();
    let models = previous_model(previous);
    let schema = find_schema(current.deep_view(), name)->0;
    lemma_field_diff_models(diff.current_fields@);
    assert(model.name == diff.name@);
    if let Some(view) = diff.previous_schema_view {
        assert(model.previous == Some(view.deep_view()));
        assert(models[name] == previous[name].deep_view());
        lemma_same_texts(view.fields, previous[name].schema_view.fields);
    } else {
        assert(model.previous is None);
    }
    lemma_find_first(current, name);
    let n = choose|n: int| #[trigger]
        is_first_named(current@, name, n) && current@[n].deep_view() == schema;
    let entries = current@[n].fields.entries;
    assert(schema.fields == entries.deep_view());
    assert forall|i: int| 0 <= i < diff.current_fields@.len() implies is_wanted_field(
        entries@[i],
        #[trigger] diff.current_fields@[i],
    ) && compares_field(previous, current@, name, diff.current_fields@[i]) by {
        let field = diff.current_fields@[i];
        assert(model.fields[i] == field.deep_view());
        assert(entries.deep_view()[i] == entries@[i].deep_view());
        assert(is_field_diff(models, current.deep_view(), name, schema.fields[i], model.fields[i]));
        assert(decreases_to!(diff => diff.current_fields@));
        assert(decreases_to!(diff.current_fields@ => diff.current_fields@[i]));
        if previous.contains_key(name) {
            let views = previous[name].schema_field_views;
            assert(models[name] == previous[name].deep_view());
            lemma_find_first_view(views, field.name@);
            if let Some(view) = field.previous_field_view {
                assert(field.deep_view().previous == Some(view.deep_view()));
                let k = choose|k: int| #[trigger]
                    is_first_view(views@, field.name@, k) && views@[k].deep_view()
                        == view.deep_view();
                assert(same_field_view(view, views@[k]));
            } else {
                assert(field.deep_view().previous is None);
            }
        } else {
            assert(field.previous_field_view.deep_view() is None);
        }
        if let FieldTypeDiff::Relation(_, linked) = field.current_field_type {
            let to = linked_name(schema.fields[i].1)->0;
            lemma_compares(previous, current, to, linked);
        }
    }
    assert(is_wanted(current@[n], diff));
}

/// Every diff that is derived for schemas in topological order sets the committed version of its
/// schema against the one that the user wants.
pub proof fn law_diffs_compare_committed_and_wanted_schemas(
    previous: &PreviousSchemas,
    current: &Vec<CurrentSchema>,
    sorted: &Vec<SchemaName>,
    diffs: Vec<SchemaDiff>,
)
    requires
        call_ensures(get_schema_diffs, (previous, current, sorted), diffs),
    ensures
        diffs@.len() == sorted@.len(),
        forall|i: int|
            0 <= i < diffs@.len() ==> (#[trigger] diffs@[i]).name@ == sorted@[i]@ && compares(
                previous@,
                current@,
                diffs@[i],
            ),
{
    assert forall|i: int| 0 <= i < diffs@.len() implies (#[trigger] diffs@[i]).name@ == sorted@[i]@
        && compares(previous@, current@, diffs@[i]) by {
        lemma_compares(previous@, *current, sorted@[i]@, diffs@[i]);
    }
}

/// A schema of the name `from` has a field that links to the name `to`.
pub open spec fn leads(schemas: Seq<CurrentSchema>, from: Seq<char>, to: Seq<char>) -> bool {
    exists|n: int, j: int|
        0 <= n < schemas.len() && schemas[n].name@ == from && #[trigger] links_to(
            schemas[n],
            j,
            to,
        )
}

/// A schema has this name.
pub open spec fn is_named(schemas: Seq<CurrentSchema>, name: Seq<char>) -> bool {
    exists|n: int| 0 <= n < schemas.len() && (#[trigger] schemas[n]).name@ == name
}

/// The names lead from one to the next, and in the end back to the first.
pub open spec fn is_circle(schemas: Seq<CurrentSchema>, names: Seq<Seq<char>>) -> bool {
    &&& names.len() >= 2
    &&& names[0] == names[names.len() - 1]
    &&& forall|k: int|
        0 <= k < names.len() - 1 ==> leads(schemas, #[trigger] names[k], names[k + 1])
}

/// A field of some schema refers to its schema by id.
pub open spec fn refers_by_id(schemas: Seq<CurrentSchema>) -> bool {
    exists|n: int, j: int|
        {
            &&& 0 <= n < schemas.len()
            &&& 0 <= j < schemas[n].fields.entries@.len()
            &&& (#[trigger] schemas[n].fields.entries@[j]).1 matches SchemaField::Relation {
                schema,
                ..
            }
            &&& schema.id is Id
        }
}

/// Every name that a field links to is that of a schema.
pub open spec fn only_leads_to_schemas(schemas: Seq<CurrentSchema>) -> bool {
    forall|from: Seq<char>, to: Seq<char>| #[trigger]
        leads(schemas, from, to) ==> is_named(schemas, to)
}

proof fn lemma_model(schemas: Vec<CurrentSchema>)
    ensures
        schemas.deep_view().len() == schemas@.len(),
        forall|n: int|
            0 <= n < schemas@.len() ==> #[trigger] schemas.deep_view()[n]
                == schemas@[n].deep_view(),
        forall|n: int, j: int|
            0 <= n < schemas@.len() && 0 <= j < schemas@[n].fields.entries@.len() ==> #[trigger]
            schemas.deep_view()[n].fields[j] == schemas@[n].fields.entries@[j].deep_view(),
{
}

proof fn lemma_leads(schemas: Vec<CurrentSchema>, from: Seq<char>, to: Seq<char>)
    ensures
        relates(schemas.deep_view(), from, to) <==> leads(schemas@, from, to),
{
    lemma_model(schemas);
    let models = schemas.deep_view();
    if relates(models, from, to) {
        let (n, j) = choose|n: int, j: int| #[trigger] is_link(models, n, j, from, to);
        assert(models[n] == schemas@[n].deep_view());
        assert(models[n].fields[j] == schemas@[n].fields.entries@[j].deep_view());
        assert(links_to(schemas@[n], j, to));
    }
    if leads(schemas@, from, to) {
        let (n, j) = choose|n: int, j: int|
            0 <= n < schemas@.len() && schemas@[n].name@ == from && #[trigger] links_to(
                schemas@[n],
                j,
                to,
            );
        assert(models[n] == schemas@[n].deep_view());
        assert(models[n].fields[j] == schemas@[n].fields.entries@[j].deep_view());
        assert(is_link(models, n, j, from, to));
    }
}

proof fn lemma_named(schemas: Vec<CurrentSchema>, name: Seq<char>)
    ensures
        is_schema_name(schemas.deep_view(), name) <==> is_named(schemas@, name),
{
    let models = schemas.deep_view();
    if is_schema_name(models, name) {
        let n = choose|n: int| 0 <= n < models.len() && (#[trigger] models[n]).name == name;
        assert(models[n] == schemas@[n].deep_view());
        assert(schemas@[n].name@ == name);
    }
    if is_named(schemas@, name) {
        let n = choose|n: int| 0 <= n < schemas@.len() && (#[trigger] schemas@[n]).name@ == name;
        assert(models[n] == schemas@[n].deep_view());
    }
}

proof fn lemma_refers_by_id(schemas: Vec<CurrentSchema>)
    ensures
        has_relation_by_id(schemas.deep_view()) <==> refers_by_id(schemas@),
{
    lemma_model(schemas);
    let models = schemas.deep_view();
    if has_relation_by_id(models) {
        let (n, j) = choose|n: int, j: int|
            0 <= n < models.len() && 0 <= j < models[n].fields.len() && is_relation_by_id(
                (#[trigger] models[n].fields[j]).1,
            );
        assert(models[n] == schemas@[n].deep_view());
        assert(models[n].fields[j] == schemas@[n].fields.entries@[j].deep_view());
    }
    if refers_by_id(schemas@) {
        let (n, j) = choose|n: int, j: int|
            {
                &&& 0 <= n < schemas@.len()
                &&& 0 <= j < schemas@[n].fields.entries@.len()
                &&& (#[trigger] schemas@[n].fields.entries@[j]).1 matches SchemaField::Relation {
                    schema,
                    ..
                }
                &&& schema.id is Id
            };
        assert(models[n].fields[j] == schemas@[n].fields.entries@[j].deep_view());
    }
}

proof fn lemma_circle(schemas: Vec<CurrentSchema>)
    ensures
        has_cycle(schemas.deep_view()) <==> exists|names: Seq<Seq<char>>| #[trigger]
            is_circle(schemas@, names),
{
    let models = schemas.deep_view();
    if has_cycle(models) {
        let path = choose|path: Seq<Seq<char>>| #[trigger]
            is_path(models, path) && path.len() >= 2 && path.first() == path.last();
        assert forall|k: int| 0 <= k < path.len() - 1 implies leads(
            schemas@,
            #[trigger] path[k],
            path[k + 1],
        ) by {
            assert(is_step(models, path, k));
            lemma_leads(schemas, path[k], path[k + 1]);
        }
        assert(is_circle(schemas@, path));
    }
    if exists|names: Seq<Seq<char>>| #[trigger] is_circle(schemas@, names) {
        let names = choose|names: Seq<Seq<char>>| #[trigger] is_circle(schemas@, names);
        assert forall|k: int| 0 <= k < names.len() - 1 implies #[trigger] is_step(
            models,
            names,
            k,
        ) by {
            assert(leads(schemas@, names[k], names[k + 1]));
            lemma_leads(schemas, names[k], names[k + 1]);
        }
        assert(is_path(models, names));
    }
}

pub(crate) proof fn lemma_links(schemas: Vec<CurrentSchema>)
    ensures
        links_are_known(schemas.deep_view()) <==> only_leads_to_schemas(schemas@),
{
    let models = schemas.deep_view();
    if links_are_known(models) {
        assert forall|from: Seq<char>, to: Seq<char>| #[trigger]
            leads(schemas@, from, to) implies is_named(schemas@, to) by {
            lemma_leads(schemas, from, to);
            lemma_named(schemas, to);
        }
    }
    if only_leads_to_schemas(schemas@) {
        assert forall|from: Seq<char>, to: Seq<char>| #[trigger]
            relates(models, from, to) implies is_schema_name(models, to) by {
            lemma_leads(schemas, from, to);
            lemma_named(schemas, to);
        }
    }
}

/// A schema of this name is there, and no field links to it.
pub open spec fn is_top(schemas: Seq<CurrentSchema>, name: Seq<char>) -> bool {
    is_named(schemas, name) && forall|from: Seq<char>| !#[trigger] leads(schemas, from, name)
}

proof fn lemma_top(schemas: Vec<CurrentSchema>, name: Seq<char>)
    ensures
        is_group(schemas.deep_view(), name) <==> is_top(schemas@, name),
{
    let models = schemas.deep_view();
    lemma_named(schemas, name);
    if is_group(models, name) {
        assert forall|from: Seq<char>| !#[trigger] leads(schemas@, from, name) by {
            lemma_leads(schemas, from, name);
            assert(!relates(models, from, name));
        }
    }
    if is_top(schemas@, name) {
        assert forall|from: Seq<char>| !#[trigger] relates(models, from, name) by {
            lemma_leads(schemas, from, name);
            assert(!leads(schemas@, from, name));
        }
    }
}

/// A plan has one diff for each schema that no field links to, in the order of their names. Each
/// diff, nested ones included, sets the committed version of its schema against the one that the
/// user wants.
///
/// There is no plan exactly where a relation refers to its schema by id or schemas relate to each
/// other in a circle.
pub proof fn law_plan_compares_committed_and_wanted_schemas(
    previous: PreviousSchemas,
    current: Vec<CurrentSchema>,
    result: Result<Vec<SchemaDiff>, UpdateError>,
)
    requires
        call_ensures(get_diff, (previous, current), result),
    ensures
        match result {
            Ok(plans) => {
                &&& !refers_by_id(current@)
                &&& forall|names: Seq<Seq<char>>| !#[trigger] is_circle(current@, names)
                &&& forall|i: int|
                    0 <= i < plans@.len() ==> compares(previous@, current@, #[trigger] plans@[i])
                        && is_top(current@, plans@[i].name@)
                &&& forall|name: Seq<char>| #[trigger]
                    is_top(current@, name) ==> exists|i: int|
                        0 <= i < plans@.len() && (#[trigger] plans@[i]).name@ == name
                &&& forall|i: int, j: int|
                    0 <= i < j < plans@.len() ==> text_lt(
                        (#[trigger] plans@[i]).name@,
                        (#[trigger] plans@[j]).name@,
                    )
            },
            Err(UpdateError::RelationById) => refers_by_id(current@),
            Err(UpdateError::CyclicRelations) => !refers_by_id(current@) && exists|
                names: Seq<Seq<char>>,
            | #[trigger]
                is_circle(current@, names),
            Err(_) => false,
        },
{
    lemma_refers_by_id(current);
    lemma_circle(current);
    if let Ok(plans) = result {
        let models = plans.deep_view();
        let schemas = current.deep_view();
        assert forall|i: int| 0 <= i < plans@.len() implies compares(
            previous@,
            current@,
            #[trigger] plans@[i],
        ) && is_top(current@, plans@[i].name@) by {
            assert(models[i] == plans@[i].deep_view());
            lemma_compares(previous@, current, models[i].name, plans@[i]);
            assert(has_diff(models, models[i].name));
            lemma_top(current, models[i].name);
        }
        assert forall|name: Seq<char>| #[trigger] is_top(current@, name) implies exists|i: int|
            0 <= i < plans@.len() && (#[trigger] plans@[i]).name@ == name by {
            lemma_top(current, name);
            assert(has_diff(models, name));
            let i = choose|i: int| 0 <= i < models.len() && (#[trigger] models[i]).name == name;
            assert(models[i] == plans@[i].deep_view());
            assert(plans@[i].name@ == name);
        }
        assert forall|i: int, j: int| 0 <= i < j < plans@.len() implies text_lt(
            (#[trigger] plans@[i]).name@,
            (#[trigger] plans@[j]).name@,
        ) by {
            assert(models[i] == plans@[i].deep_view());
            assert(models[j] == plans@[j].deep_view());
            assert(text_lt(models[i].name, models[j].name));
        }
    }
}

/// Schemas can be planned wherever all their links lead to schemas, and [`is_plannable`] says so.
pub proof fn law_linked_schemas_can_be_planned(
    previous: PreviousSchemas,
    current: Vec<CurrentSchema>,
    plannable: bool,
)
    requires
        call_ensures(is_plannable, (&current,), plannable),
    ensures
        only_leads_to_schemas(current@) ==> plannable,
        refers_by_id(current@) ==> plannable,
        plannable ==> call_requires(get_diff, (previous, current)),
        plannable && !only_leads_to_schemas(current@) ==> refers_by_id(current@) || exists|
            names: Seq<Seq<char>>,
        | #[trigger]
            is_circle(current@, names),
{
    lemma_links(current);
    lemma_refers_by_id(current);
    lemma_circle(current);
}

/// One of the names is this one.
pub open spec fn is_among(names: Seq<SchemaName>, name: Seq<char>) -> bool {
    exists|i: int| 0 <= i < names.len() && (#[trigger] names[i])@ == name
}

/// Sorted schemas are all the schemas that are there or linked to, each once and behind those that
/// it links to. The groups are those which no field links to, in the order of their names.
pub proof fn law_schemas_are_sorted_behind_those_they_link_to(
    schemas: &Vec<CurrentSchema>,
    result: Result<SortedSchemas, UpdateError>,
)
    requires
        call_ensures(sort_schemas, (schemas,), result),
    ensures
        match result {
            Ok(names) => {
                &&& !refers_by_id(schemas@)
                &&& forall|circle: Seq<Seq<char>>| !#[trigger] is_circle(schemas@, circle)
                &&& forall|i: int, j: int|
                    0 <= i < j < names.sorted@.len() ==> (#[trigger] names.sorted@[i])@ != (
                    #[trigger] names.sorted@[j])@
                &&& forall|n: int|
                    0 <= n < schemas@.len() ==> is_among(
                        names.sorted@,
                        (#[trigger] schemas@[n]).name@,
                    )
                &&& forall|i: int|
                    0 <= i < names.sorted@.len() ==> is_named(
                        schemas@,
                        (#[trigger] names.sorted@[i])@,
                    ) || exists|from: Seq<char>| #[trigger]
                        leads(schemas@, from, names.sorted@[i]@)
                &&& forall|i: int, to: Seq<char>|
                    0 <= i < names.sorted@.len() && #[trigger] leads(
                        schemas@,
                        names.sorted@[i]@,
                        to,
                    ) ==> exists|k: int| 0 <= k < i && (#[trigger] names.sorted@[k])@ == to
                &&& forall|i: int, j: int|
                    0 <= i < j < names.groups@.len() ==> text_lt(
                        (#[trigger] names.groups@[i])@,
                        (#[trigger] names.groups@[j])@,
                    )
                &&& forall|i: int|
                    0 <= i < names.groups@.len() ==> is_top(
                        schemas@,
                        (#[trigger] names.groups@[i])@,
                    )
                &&& forall|name: Seq<char>| #[trigger]
                    is_top(schemas@, name) ==> exists|i: int|
                        0 <= i < names.groups@.len() && (#[trigger] names.groups@[i])@ == name
            },
            Err(UpdateError::RelationById) => refers_by_id(schemas@),
            Err(UpdateError::CyclicRelations) => !refers_by_id(schemas@) && exists|
                circle: Seq<Seq<char>>,
            | #[trigger]
                is_circle(schemas@, circle),
            Err(_) => false,
        },
{
    lemma_refers_by_id(*schemas);
    lemma_circle(*schemas);
    if let Ok(names) = result {
        let models = schemas.deep_view();
        let sorted = names.sorted.deep_view();
        let groups = names.groups.deep_view();
        assert(is_topological_order(models, sorted));
        assert forall|i: int, j: int| 0 <= i < j < names.sorted@.len() implies (
        #[trigger] names.sorted@[i])@ != (#[trigger] names.sorted@[j])@ by {
            assert(sorted[i] != sorted[j]);
        }
        assert forall|n: int| 0 <= n < schemas@.len() implies is_among(
            names.sorted@,
            (#[trigger] schemas@[n]).name@,
        ) by {
            assert(models[n] == schemas@[n].deep_view());
            assert(is_schema_name(models, models[n].name));
            assert(sorted.contains(models[n].name));
            let i = sorted.index_of(models[n].name);
            assert(names.sorted@[i]@ == sorted[i]);
        }
        assert forall|i: int| 0 <= i < names.sorted@.len() implies is_named(
            schemas@,
            (#[trigger] names.sorted@[i])@,
        ) || exists|from: Seq<char>| #[trigger] leads(schemas@, from, names.sorted@[i]@) by {
            assert(sorted[i] == names.sorted@[i]@);
            assert(sorted.contains(sorted[i]));
            lemma_named(*schemas, sorted[i]);
            if !is_schema_name(models, sorted[i]) {
                let from = choose|from: Seq<char>| #[trigger] relates(models, from, sorted[i]);
                lemma_leads(*schemas, from, sorted[i]);
            }
        }
        assert forall|i: int, to: Seq<char>|
            0 <= i < names.sorted@.len() && #[trigger] leads(
                schemas@,
                names.sorted@[i]@,
                to,
            ) implies exists|k: int| 0 <= k < i && (#[trigger] names.sorted@[k])@ == to by {
            assert(sorted[i] == names.sorted@[i]@);
            lemma_leads(*schemas, sorted[i], to);
            assert(sorted.take(i).contains(to));
            let k = sorted.take(i).index_of(to);
            assert(sorted.take(i)[k] == sorted[k]);
            assert(names.sorted@[k]@ == to);
        }
        assert forall|i: int, j: int| 0 <= i < j < names.groups@.len() implies text_lt(
            (#[trigger] names.groups@[i])@,
            (#[trigger] names.groups@[j])@,
        ) by {
            assert(text_lt(names.groups@[i]@, names.groups@[j]@));
        }
        assert forall|i: int| 0 <= i < names.groups@.len() implies is_top(
            schemas@,
            (#[trigger] names.groups@[i])@,
        ) by {
            assert(groups[i] == names.groups@[i]@);
            assert(groups.contains(groups[i]));
            lemma_top(*schemas, groups[i]);
        }
        assert forall|name: Seq<char>| #[trigger] is_top(schemas@, name) implies exists|i: int|
            0 <= i < names.groups@.len() && (#[trigger] names.groups@[i])@ == name by {
            lemma_top(*schemas, name);
            assert(groups.contains(name));
            let i = groups.index_of(name);
            assert(names.groups@[i]@ == groups[i]);
        }
    }
}

/// Looking for a schema finds the first one of the name, and nothing exactly where none has it.
pub proof fn law_first_schema_of_the_name_is_found(
    schemas: &Vec<CurrentSchema>,
    name: &SchemaName,
    found: Option<&CurrentSchema>,
)
    requires
        call_ensures(find_current_schema, (schemas, name), found),
    ensures
        match found {
            Some(schema) => exists|n: int| #[trigger]
                is_first_named(schemas@, name@, n) && schema.name@ == name@ && schema.description@
                    == schemas@[n].description@ && same_fields(schema.fields, schemas@[n].fields),
            None => !is_named(schemas@, name@),
        },
{
    lemma_find_first(*schemas, name@);
    lemma_find_schema(schemas.deep_view(), name@);
    lemma_named(*schemas, name@);
    if let Some(schema) = found {
        let n = choose|n: int| #[trigger]
            is_first_named(schemas@, name@, n) && schemas@[n].deep_view() == schema.deep_view();
        lemma_same_fields(schema.fields, schemas@[n].fields);
    }
}

/// The checks on links say what holds of the fields.
pub proof fn law_links_are_recognised(
    schemas: &Vec<CurrentSchema>,
    name: &SchemaName,
    linked: bool,
    known: bool,
)
    requires
        call_ensures(has_links_to, (schemas, name), linked),
        call_ensures(check_links, (schemas,), known),
    ensures
        linked <==> exists|from: Seq<char>| #[trigger] leads(schemas@, from, name@),
        known <==> only_leads_to_schemas(schemas@),
{
    lemma_links(*schemas);
    if linked {
        let from = choose|from: Seq<char>| #[trigger] relates(schemas.deep_view(), from, name@);
        lemma_leads(*schemas, from, name@);
    }
    if exists|from: Seq<char>| #[trigger] leads(schemas@, from, name@) {
        let from = choose|from: Seq<char>| #[trigger] leads(schemas@, from, name@);
        lemma_leads(*schemas, from, name@);
    }
}

/// Every order that sorting gives can be used to derive diffs, where all links lead to schemas.
pub proof fn law_sorted_schemas_can_be_compared(
    previous: PreviousSchemas,
    current: Vec<CurrentSchema>,
    names: SortedSchemas,
)
    requires
        call_ensures(
            sort_schemas,
            (&current,),
            Ok::<SortedSchemas, UpdateError>(names),
        ),
        only_leads_to_schemas(current@),
    ensures
        call_requires(get_schema_diffs, (&previous, &current, &names.sorted)),
        call_requires(sort_schemas, (&current,)),
        call_requires(is_plannable, (&current,)),
{
    lemma_links(current);
}

} // verus!
