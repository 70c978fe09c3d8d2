//! Relations between schemas.
use crate::current::{CurrentSchema, CurrentSchemaModel};
use crate::schema_file::{RelationId, RelationIdModel, SchemaField, SchemaFieldModel, SchemaName};
use vstd::prelude::*;

verus! {

/// Name of the schema that a field links to, where it links to one by name.
pub open spec fn linked_name(field: SchemaFieldModel) -> Option<Seq<char>> {
    match field {
        SchemaFieldModel::Relation(_, RelationIdModel::Name(name)) => Some(name),
        _ => None,
    }
}

/// The field links to a schema by id.
pub open spec fn is_relation_by_id(field: SchemaFieldModel) -> bool {
    field matches SchemaFieldModel::Relation(_, RelationIdModel::Id(_))
}

/// Field `j` of schema `i`, which has the name `from`, links to the name `to`.
pub open spec fn is_link(
    schemas: Seq<CurrentSchemaModel>,
    i: int,
    j: int,
    from: Seq<char>,
    to: Seq<char>,
) -> bool {
    &&& 0 <= i < schemas.len()
    &&& 0 <= j < schemas[i].fields.len()
    &&& schemas[i].name == from
    &&& linked_name(schemas[i].fields[j].1) == Some(to)
}

/// A schema with the name `from` has a field that links to the name `to`.
pub open spec fn relates(schemas: Seq<CurrentSchemaModel>, from: Seq<char>, to: Seq<char>) -> bool {
    exists|i: int, j: int| #[trigger] is_link(schemas, i, j, from, to)
}

/// A schema has this name.
pub open spec fn is_schema_name(schemas: Seq<CurrentSchemaModel>, name: Seq<char>) -> bool {
    exists|i: int| 0 <= i < schemas.len() && (#[trigger] schemas[i]).name == name
}

/// A schema has this name, or a field links to it.
pub open spec fn is_mentioned(schemas: Seq<CurrentSchemaModel>, name: Seq<char>) -> bool {
    is_schema_name(schemas, name) || is_linked(schemas, name)
}

/// Some field links to a schema by id.
pub open spec fn has_relation_by_id(schemas: Seq<CurrentSchemaModel>) -> bool {
    exists|i: int, j: int|
        0 <= i < schemas.len() && 0 <= j < schemas[i].fields.len() && is_relation_by_id(
            (#[trigger] schemas[i].fields[j]).1,
        )
}

/// The name at `i` relates to the one behind it.
pub open spec fn is_step(schemas: Seq<CurrentSchemaModel>, path: Seq<Seq<char>>, i: int) -> bool {
    relates(schemas, path[i], path[i + 1])
}

/// Each name of `path` relates to the one behind it.
pub open spec fn is_path(schemas: Seq<CurrentSchemaModel>, path: Seq<Seq<char>>) -> bool {
    forall|i: int| 0 <= i < path.len() - 1 ==> #[trigger] is_step(schemas, path, i)
}

/// Schemas relate to each other in a circle: a path leads from a name back to it.
pub open spec fn has_cycle(schemas: Seq<CurrentSchemaModel>) -> bool {
    exists|path: Seq<Seq<char>>| #[trigger]
        is_path(schemas, path) && path.len() >= 2 && path.first() == path.last()
}

/// Every name that a field links to is the name of a schema.
pub open spec fn links_are_known(schemas: Seq<CurrentSchemaModel>) -> bool {
    forall|from: Seq<char>, to: Seq<char>| #[trigger]
        relates(schemas, from, to) ==> is_schema_name(schemas, to)
}

/// No two schemas have the same name.
pub open spec fn names_are_distinct(schemas: Seq<CurrentSchemaModel>) -> bool {
    forall|i: int, j: int|
        0 <= i < j < schemas.len() ==> (#[trigger] schemas[i]).name != (#[trigger] schemas[j]).name
}

/// No two fields of one schema have the same name.
pub open spec fn field_names_are_distinct(schemas: Seq<CurrentSchemaModel>) -> bool {
    forall|n: int, i: int, j: int|
        #![trigger schemas[n].fields[i], schemas[n].fields[j]]
        0 <= n < schemas.len() && 0 <= i < j < schemas[n].fields.len() ==> schemas[n].fields[i].0
            != schemas[n].fields[j].0
}

/// Some schema has a field that links to this name.
pub open spec fn is_linked(schemas: Seq<CurrentSchemaModel>, name: Seq<char>) -> bool {
    exists|from: Seq<char>| #[trigger] relates(schemas, from, name)
}

/// The name stands for a group: it is that of a schema which no other one links to.
pub open spec fn is_group(schemas: Seq<CurrentSchemaModel>, name: Seq<char>) -> bool {
    is_schema_name(schemas, name) && forall|from: Seq<char>|
        !#[trigger] relates(schemas, from, name)
}

/// The first schema of this name.
pub open spec fn find_schema(schemas: Seq<CurrentSchemaModel>, name: Seq<char>) -> Option<
    CurrentSchemaModel,
>
    decreases schemas.len(),
{
    if schemas.len() == 0 {
        None
    } else if schemas[0].name == name {
        Some(schemas[0])
    } else {
        find_schema(schemas.skip(1), name)
    }
}

/// A name is the name of a schema where a first schema of that name is found.
pub(crate) proof fn lemma_find_schema(schemas: Seq<CurrentSchemaModel>, name: Seq<char>)
    ensures
        is_schema_name(schemas, name) <==> find_schema(schemas, name) is Some,
        find_schema(schemas, name) matches Some(schema) ==> exists|i: int|
            0 <= i < schemas.len() && #[trigger] schemas[i] == schema && schema.name == name,
    decreases schemas.len(),
{
    if schemas.len() > 0 {
        let rest = schemas.skip(1);
        lemma_find_schema(rest, name);
        if schemas[0].name != name {
            if is_schema_name(schemas, name) {
                let i = choose|i: int|
                    0 <= i < schemas.len() && (#[trigger] schemas[i]).name == name;
                assert(rest[i - 1] == schemas[i]);
            }
            if find_schema(rest, name) is Some {
                let schema = find_schema(rest, name)->0;
                let i = choose|i: int|
                    0 <= i < rest.len() && #[trigger] rest[i] == schema && schema.name == name;
                assert(schemas[i + 1] == schema);
            }
        }
    }
}

/// Returns the first schema of this name.
pub fn find_current_schema<'a>(schemas: &'a Vec<CurrentSchema>, name: &SchemaName) -> (found: Option<
    &'a CurrentSchema,
>)
    ensures
        match found {
            Some(schema) => find_schema(schemas.deep_view(), name@) == Some(schema.deep_view()),
            None => find_schema(schemas.deep_view(), name@) is None,
        },
{
    let ghost models = schemas.deep_view();
    assert(models.skip(0) =~= models);
    for i in 0..schemas.len()
        invariant
            models == schemas.deep_view(),
            find_schema(models, name@) == find_schema(models.skip(i as int), name@),
    {
        assert(models.skip(i as int)[0] == schemas@[i as int].deep_view());
        assert(models.skip(i as int).skip(1) =~= models.skip(i + 1));
        if schemas[i].name == *name {
            return Some(&schemas[i]);
        }
    }
    None
}

/// Tells whether every name that a field links to is the name of a schema.
pub fn check_links(schemas: &Vec<CurrentSchema>) -> (known: bool)
    ensures
        known == links_are_known(schemas.deep_view()),
{
    let ghost models = schemas.deep_view();
    for i in 0..schemas.len()
        invariant
            models == schemas.deep_view(),
            forall|n: int, j: int, from: Seq<char>, to: Seq<char>|
                n < i && #[trigger] is_link(models, n, j, from, to) ==> is_schema_name(models, to),
    {
        let fields = &schemas[i].fields;
        assert(models[i as int].fields == fields.deep_view());
        for j in 0..fields.entries.len()
            invariant
                models == schemas.deep_view(),
                0 <= i < models.len(),
                models[i as int].fields == fields.deep_view(),
                forall|k: int, from: Seq<char>, to: Seq<char>|
                    k < j && #[trigger] is_link(models, i as int, k, from, to) ==> is_schema_name(
                        models,
                        to,
                    ),
        {
            let (_, field) = &fields.entries[j];
            assert(models[i as int].fields[j as int].1 == field.deep_view());
            if let SchemaField::Relation { schema, .. } = field {
                if let RelationId::Name(name) = &schema.id {
                    proof {
                        lemma_find_schema(models, name@);
                    }
                    if find_current_schema(schemas, name).is_none() {
                        assert(is_link(
                            models,
                            i as int,
                            j as int,
                            models[i as int].name,
                            name@,
                        ));
                        assert(relates(models, models[i as int].name, name@));
                        return false;
                    }
                }
            }
        }
    }
    assert forall|from: Seq<char>, to: Seq<char>| #[trigger]
        relates(models, from, to) implies is_schema_name(models, to) by {
        let (i, j) = choose|i: int, j: int| #[trigger] is_link(models, i, j, from, to);
        assert(is_link(models, i, j, from, to));
    }
    true
}

/// Tells whether some schema has a field that links to this name.
pub fn has_links_to(schemas: &Vec<CurrentSchema>, name: &SchemaName) -> (linked: bool)
    ensures
        linked == is_linked(schemas.deep_view(), name@),
{
    let ghost models = schemas.deep_view();
    for i in 0..schemas.len()
        invariant
            models == schemas.deep_view(),
            forall|n: int, j: int, from: Seq<char>|
                n < i ==> !#[trigger] is_link(models, n, j, from, name@),
    {
        let fields = &schemas[i].fields;
        assert(models[i as int].fields == fields.deep_view());
        for j in 0..fields.entries.len()
            invariant
                models == schemas.deep_view(),
                0 <= i < models.len(),
                models[i as int].fields == fields.deep_view(),
                forall|k: int, from: Seq<char>|
                    k < j ==> !#[trigger] is_link(models, i as int, k, from, name@),
        {
            let (_, field) = &fields.entries[j];
            assert(models[i as int].fields[j as int].1 == field.deep_view());
            if let SchemaField::Relation { schema, .. } = field {
                if let RelationId::Name(linked) = &schema.id {
                    if *linked == *name {
                        let ghost from = models[i as int].name;
                        assert(is_link(models, i as int, j as int, from, name@));
                        assert(relates(models, from, name@));
                        return true;
                    }
                }
            }
        }
    }
    false
}

/// `sorted` holds every mentioned name once, each behind all the names that it relates to.
pub open spec fn is_topological_order(
    schemas: Seq<CurrentSchemaModel>,
    sorted: Seq<Seq<char>>,
) -> bool {
    &&& sorted.no_duplicates()
    &&& forall|name: Seq<char>| #[trigger]
        sorted.contains(name) <==> is_mentioned(schemas, name)
    &&& forall|i: int, to: Seq<char>|
        0 <= i < sorted.len() && #[trigger] relates(schemas, sorted[i], to) ==> sorted.take(
            i,
        ).contains(to)
}

} // verus!
