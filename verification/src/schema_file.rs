//! Schemas as the user describes them.
use crate::bridge::is_valid_schema_name;
use crate::error::UpdateError;
use crate::text::{is_letter, is_word_character};
use vstd::prelude::*;

verus! {

/// Name of a schema.
pub type SchemaName = String;

/// Description of a schema.
pub type SchemaDescription = String;

/// Name of a schema field.
pub type FieldName = String;

/// Basic type of a field.
#[derive(Clone, Copy, Debug, PartialEq, Eq, Structural)]
pub enum FieldType {
    String,
    Boolean,
    Float,
    Integer,
}

/// Kind of a relation between a field and a schema.
#[derive(Clone, Copy, Debug, PartialEq, Eq, Structural)]
pub enum RelationType {
    Relation,
    RelationList,
    PinnedRelation,
    PinnedRelationList,
}

/// Way in which a relation refers to the linked schema.
#[derive(Debug)]
pub enum RelationId {
    /// The linked schema is defined under this name in the same file.
    Name(SchemaName),
    /// The linked schema has this id.
    Id(String),
}

/// Schema that a relation field links to.
#[derive(Debug)]
pub struct RelationSchema {
    pub id: RelationId,
}

/// Field of a schema.
#[allow(inconsistent_fields)]
#[derive(Debug)]
pub enum SchemaField {
    /// Field of a basic type.
    Field { field_type: FieldType },
    /// Field that relates to a schema.
    Relation { field_type: RelationType, schema: RelationSchema },
}

/// Fields of a schema by name, in the order in which they are walked.
#[derive(Debug)]
pub struct SchemaFields {
    pub entries: Vec<(FieldName, SchemaField)>,
}

/// Definition of a schema.
#[derive(Debug)]
pub struct SchemaDefinition {
    pub description: SchemaDescription,
    pub fields: SchemaFields,
}

/// Schema definitions by name, in the order in which they are walked.
#[derive(Debug)]
pub struct SchemaFile {
    pub entries: Vec<(SchemaName, SchemaDefinition)>,
}

/// Model of a [`RelationId`].
pub enum RelationIdModel {
    Name(Seq<char>),
    Id(Seq<char>),
}

/// Model of a [`SchemaField`].
pub enum SchemaFieldModel {
    Field(FieldType),
    Relation(RelationType, RelationIdModel),
}

/// Model of a [`SchemaFields`] value.
pub type SchemaFieldsModel = Seq<(Seq<char>, SchemaFieldModel)>;

/// Model of a [`SchemaDefinition`].
pub struct SchemaDefinitionModel {
    pub description: Seq<char>,
    pub fields: SchemaFieldsModel,
}

impl DeepView for RelationId {
    type V = RelationIdModel;

    open spec fn deep_view(&self) -> RelationIdModel {
        match self {
            RelationId::Name(name) => RelationIdModel::Name(name@),
            RelationId::Id(id) => RelationIdModel::Id(id@),
        }
    }
}

impl DeepView for SchemaField {
    type V = SchemaFieldModel;

    open spec fn deep_view(&self) -> SchemaFieldModel {
        match self {
            SchemaField::Field { field_type } => SchemaFieldModel::Field(*field_type),
            SchemaField::Relation { field_type, schema } => SchemaFieldModel::Relation(
                *field_type,
                schema.id.deep_view(),
            ),
        }
    }
}

impl DeepView for SchemaFields {
    type V = SchemaFieldsModel;

    open spec fn deep_view(&self) -> SchemaFieldsModel {
        self.entries.deep_view()
    }
}

impl DeepView for SchemaDefinition {
    type V = SchemaDefinitionModel;

    open spec fn deep_view(&self) -> SchemaDefinitionModel {
        SchemaDefinitionModel {
            description: self.description@,
            fields: self.fields.deep_view(),
        }
    }
}

impl DeepView for SchemaFile {
    type V = Seq<(Seq<char>, SchemaDefinitionModel)>;

    open spec fn deep_view(&self) -> Seq<(Seq<char>, SchemaDefinitionModel)> {
        self.entries.deep_view()
    }
}

/// No two entries have the same name.
pub open spec fn entries_are_distinct<T>(entries: Seq<(Seq<char>, T)>) -> bool {
    forall|i: int, j: int|
        0 <= i < j < entries.len() ==> (#[trigger] entries[i]).0 != (#[trigger] entries[j]).0
}

/// The schema has a valid name, a description of at most 256 characters, and no two fields of the
/// same name.
pub open spec fn is_valid_entry(entry: (Seq<char>, SchemaDefinitionModel)) -> bool {
    &&& is_valid_schema_name(entry.0)
    &&& entry.1.description.len() <= 256
    &&& entries_are_distinct(entry.1.fields)
}

/// No two schemas have the same name, and each of them is valid.
pub open spec fn is_valid_file(file: Seq<(Seq<char>, SchemaDefinitionModel)>) -> bool {
    &&& entries_are_distinct(file)
    &&& forall|i: int| 0 <= i < file.len() ==> is_valid_entry(#[trigger] file[i])
}

/// Tells whether no two entries have the same name.
fn has_distinct_entries<T: DeepView>(entries: &Vec<(String, T)>) -> (distinct: bool)
    ensures
        distinct == entries_are_distinct(entries.deep_view()),
{
    let ghost model = entries.deep_view();
    for j in 0..entries.len()
        invariant
            model == entries.deep_view(),
            entries_are_distinct(model.take(j as int)),
    {
        for i in 0..j
            invariant
                model == entries.deep_view(),
                j < entries@.len(),
                forall|k: int| 0 <= k < i ==> (#[trigger] model[k]).0 != model[j as int].0,
        {
            if entries[i].0 == entries[j].0 {
                assert(model[i as int].0 == model[j as int].0);
                return false;
            }
        }
        assert(entries_are_distinct(model.take(j + 1))) by {
            let front = model.take(j as int);
            let more = model.take(j + 1);
            assert forall|i: int, k: int| 0 <= i < k < more.len() implies (#[trigger] more[i]).0 != (
            #[trigger] more[k]).0 by {
                assert(more[i] == model[i] && front[i] == model[i]);
                if k < j {
                    assert(front[k] == more[k]);
                }
            }
        }
    }
    assert(model.take(model.len() as int) =~= model);
    true
}

/// Tells whether p2panda accepts the name for a schema.
pub fn is_schema_name_valid(name: &str) -> (valid: bool)
    ensures
        valid == is_valid_schema_name(name@),
{
    let length = name.unicode_len();
    if length < 2 || length > 64 {
        return false;
    }
    let first = name.get_char(0);
    if !(('a' <= first && first <= 'z') || ('A' <= first && first <= 'Z')) {
        assert(!is_letter(name@[0]));
        return false;
    }
    if name.get_char(length - 1) == '_' {
        return false;
    }
    for i in 0..length
        invariant
            length == name@.len(),
            forall|k: int| 0 <= k < i ==> is_word_character(#[trigger] name@[k]),
    {
        let c = name.get_char(i);
        if !(('a' <= c && c <= 'z') || ('A' <= c && c <= 'Z') || ('0' <= c && c <= '9') || c == '_') {
            assert(!is_word_character(name@[i as int]));
            return false;
        }
    }
    true
}

impl SchemaFile {
    /// Tells whether the schemas have valid names and descriptions, and no name is used twice, neither
    /// for schemas nor for the fields of one schema.
    pub fn is_valid(&self) -> (valid: bool)
        ensures
            valid == is_valid_file(self.deep_view()),
    {
        let ghost file = self.deep_view();
        if !has_distinct_entries(&self.entries) {
            return false;
        }
        for i in 0..self.entries.len()
            invariant
                file == self.deep_view(),
                forall|k: int| 0 <= k < i ==> is_valid_entry(#[trigger] file[k]),
        {
            let (name, definition) = &self.entries[i];
            assert(file[i as int] == (name@, definition.deep_view()));
            if !is_schema_name_valid(name.as_str()) || definition.description.as_str().unicode_len()
                > 256 || !has_distinct_entries(&definition.fields.entries) {
                assert(!is_valid_entry(file[i as int]));
                return false;
            }
        }
        true
    }

    /// Fails where the file does not define any schema.
    pub fn check_not_empty(&self) -> (result: Result<(), UpdateError>)
        ensures
            match result {
                Ok(()) => self.deep_view().len() > 0,
                Err(error) => self.deep_view().len() == 0 && error is EmptySchemaFile,
            },
    {
        if self.entries.len() == 0 {
            Err(UpdateError::EmptySchemaFile)
        } else {
            Ok(())
        }
    }
}

impl Clone for RelationId {
    fn clone(&self) -> (copy: Self)
        ensures
            copy.deep_view() == self.deep_view(),
    {
        match self {
            RelationId::Name(name) => RelationId::Name(name.clone()),
            RelationId::Id(id) => RelationId::Id(id.clone()),
        }
    }
}

impl Clone for SchemaField {
    fn clone(&self) -> (copy: Self)
        ensures
            copy.deep_view() == self.deep_view(),
    {
        match self {
            SchemaField::Field { field_type } => SchemaField::Field { field_type: *field_type },
            SchemaField::Relation { field_type, schema } => SchemaField::Relation {
                field_type: *field_type,
                schema: RelationSchema { id: schema.id.clone() },
            },
        }
    }
}

impl Clone for SchemaFields {
    fn clone(&self) -> (copy: Self)
        ensures
            copy.deep_view() == self.deep_view(),
    {
        let mut entries: Vec<(FieldName, SchemaField)> = Vec::new();
        for i in 0..self.entries.len()
            invariant
                entries.deep_view() == self.entries.deep_view().take(i as int),
        {
            let ghost before = entries.deep_view();
            let (name, field) = &self.entries[i];
            entries.push((name.clone(), field.clone()));
            assert(entries.deep_view() =~= before.push(self.entries.deep_view()[i as int]));
            assert(entries.deep_view() =~= self.entries.deep_view().take(i + 1));
        }
        SchemaFields { entries }
    }
}

} // verus!
