//! Schemas the user wants to have.
use crate::error::UpdateError;
use crate::relations::{field_names_are_distinct, names_are_distinct};
use crate::schema_file::{
    is_valid_entry, is_valid_file, SchemaDefinitionModel, SchemaDescription, SchemaFields,
    SchemaFieldsModel, SchemaFile, SchemaName,
};
use vstd::prelude::*;

verus! {

/// Schema which was defined in the user's schema file.
#[derive(Debug)]
pub struct CurrentSchema {
    pub name: SchemaName,
    pub description: SchemaDescription,
    pub fields: SchemaFields,
}

/// Model of a [`CurrentSchema`].
pub struct CurrentSchemaModel {
    pub name: Seq<char>,
    pub description: Seq<char>,
    pub fields: SchemaFieldsModel,
}

impl DeepView for CurrentSchema {
    type V = CurrentSchemaModel;

    open spec fn deep_view(&self) -> CurrentSchemaModel {
        CurrentSchemaModel {
            name: self.name@,
            description: self.description@,
            fields: self.fields.deep_view(),
        }
    }
}

impl CurrentSchema {
    /// Makes a schema from copies of its parts.
    pub fn new(name: &SchemaName, description: &SchemaDescription, fields: &SchemaFields) -> (schema:
        Self)
        ensures
            schema.deep_view() == (CurrentSchemaModel {
                name: name@,
                description: description@,
                fields: fields.deep_view(),
            }),
    {
        CurrentSchema {
            name: name.clone(),
            description: description.clone(),
            fields: fields.clone(),
        }
    }
}

/// The schema that an entry of the schema file stands for.
pub open spec fn current_schema(entry: (Seq<char>, SchemaDefinitionModel)) -> CurrentSchemaModel {
    CurrentSchemaModel {
        name: entry.0,
        description: entry.1.description,
        fields: entry.1.fields,
    }
}

/// The schemas that a schema file stands for, in its order.
pub open spec fn current_schemas(file: Seq<(Seq<char>, SchemaDefinitionModel)>) -> Seq<
    CurrentSchemaModel,
> {
    file.map_values(|entry: (Seq<char>, SchemaDefinitionModel)| current_schema(entry))
}

/// The entry at `index` is the first one of the schema file without any fields.
pub open spec fn is_first_without_fields(
    file: Seq<(Seq<char>, SchemaDefinitionModel)>,
    index: int,
) -> bool {
    &&& 0 <= index < file.len()
    &&& file[index].1.fields.len() == 0
    &&& forall|i: int| 0 <= i < index ==> (#[trigger] file[i]).1.fields.len() > 0
}

/// The schemas of a valid file have distinct names, and so have the fields of each.
pub(crate) proof fn lemma_valid_file(file: Seq<(Seq<char>, SchemaDefinitionModel)>)
    requires
        is_valid_file(file),
    ensures
        names_are_distinct(current_schemas(file)),
        field_names_are_distinct(current_schemas(file)),
{
    let schemas = current_schemas(file);
    assert forall|i: int, j: int| 0 <= i < j < schemas.len() implies (#[trigger] schemas[i]).name
        != (#[trigger] schemas[j]).name by {
        assert(file[i].0 != file[j].0);
    }
    assert forall|n: int, i: int, j: int|
        #![trigger schemas[n].fields[i], schemas[n].fields[j]]
        0 <= n < schemas.len() && 0 <= i < j < schemas[n].fields.len() implies schemas[n].fields[i].0
        != schemas[n].fields[j].0 by {
        assert(is_valid_entry(file[n]));
        assert(file[n].1.fields[i].0 != file[n].1.fields[j].0);
    }
}

/// Extracts all schema definitions from the user file and returns them as current schemas, in the
/// order of the file. Fails with the name of the first schema that does not contain any fields. Those
/// of a valid file have distinct names, and so have the fields of each.
pub fn get_current_schemas(schema_file: &SchemaFile) -> (result: Result<
    Vec<CurrentSchema>,
    UpdateError,
>)
    ensures
        match result {
            Ok(schemas) => {
                &&& forall|i: int|
                    0 <= i < schema_file.deep_view().len() ==> (
                    #[trigger] schema_file.deep_view()[i]).1.fields.len() > 0
                &&& schemas.deep_view() == current_schemas(schema_file.deep_view())
                &&& is_valid_file(schema_file.deep_view()) ==> names_are_distinct(
                    schemas.deep_view(),
                ) && field_names_are_distinct(schemas.deep_view())
            },
            Err(error) => exists|index: int| #[trigger]
                is_first_without_fields(schema_file.deep_view(), index) && (error matches
                    UpdateError::NoFields(name) && name@ == schema_file.deep_view()[index].0),
        },
{
    let ghost file = schema_file.deep_view();
    let mut schemas: Vec<CurrentSchema> = Vec::new();
    for i in 0..schema_file.entries.len()
        invariant
            file == schema_file.deep_view(),
            schemas.deep_view() == current_schemas(file.take(i as int)),
            forall|k: int| 0 <= k < i ==> (#[trigger] file[k]).1.fields.len() > 0,
    {
        let (name, definition) = &schema_file.entries[i];
        assert(file[i as int] == (name@, definition.deep_view()));
        if definition.fields.entries.len() == 0 {
            assert(is_first_without_fields(file, i as int));
            return Err(UpdateError::NoFields(name.clone()));
        }
        let ghost before = schemas.deep_view();
        schemas.push(CurrentSchema::new(name, &definition.description, &definition.fields));
        assert(schemas.deep_view() =~= before.push(current_schema(file[i as int])));
        assert(schemas.deep_view() =~= current_schemas(file.take(i + 1)));
    }
    assert(file.take(file.len() as int) =~= file);
    proof {
        if is_valid_file(file) {
            lemma_valid_file(file);
        }
    }
    Ok(schemas)
}

} // verus!
