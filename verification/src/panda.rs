//! Plain values of p2panda: ids, materialized views and operations.
use crate::schema_file::{FieldName, FieldType, RelationType, SchemaDescription, SchemaName};
use crate::text::{copy_texts, decimal, decimal_text};
use vstd::prelude::*;

verus! {

/// Id of a document view, in its text form: the ids of its operations, joined by `_`.
pub type DocumentViewId = String;

/// Schema that p2panda itself defines, with its version.
#[derive(Clone, Copy, Debug, PartialEq, Eq, Structural)]
pub enum SystemSchema {
    /// Describes a schema.
    SchemaDefinition(u8),
    /// Describes a field of a schema.
    SchemaFieldDefinition(u8),
}

/// Id of a schema.
#[derive(Debug)]
pub enum SchemaId {
    /// A schema of the application, by its name and the view of its definition document.
    Application(SchemaName, DocumentViewId),
    /// A schema of p2panda itself.
    System(SystemSchema),
}

/// Materialized type of a field.
#[derive(Debug)]
pub enum PandaFieldType {
    Boolean,
    Integer,
    Float,
    String,
    Relation(SchemaId),
    RelationList(SchemaId),
    PinnedRelation(SchemaId),
    PinnedRelationList(SchemaId),
}

/// Materialized definition of a schema.
#[derive(Debug)]
pub struct SchemaView {
    pub view_id: DocumentViewId,
    pub name: SchemaName,
    pub description: SchemaDescription,
    /// Views of the field definitions, in the order of the fields.
    pub fields: Vec<DocumentViewId>,
}

/// Materialized definition of a field.
#[derive(Debug)]
pub struct SchemaFieldView {
    pub id: DocumentViewId,
    pub name: FieldName,
    pub field_type: PandaFieldType,
}

/// Assembled schema.
#[derive(Debug)]
pub struct Schema {
    pub id: SchemaId,
}

/// Model of a [`SchemaId`].
pub enum SchemaIdModel {
    Application(Seq<char>, Seq<char>),
    System(SystemSchema),
}

/// Model of a [`PandaFieldType`].
pub enum PandaFieldTypeModel {
    Boolean,
    Integer,
    Float,
    String,
    Relation(SchemaIdModel),
    RelationList(SchemaIdModel),
    PinnedRelation(SchemaIdModel),
    PinnedRelationList(SchemaIdModel),
}

/// Model of a [`SchemaView`].
pub struct SchemaViewModel {
    pub view_id: Seq<char>,
    pub name: Seq<char>,
    pub description: Seq<char>,
    pub fields: Seq<Seq<char>>,
}

/// Model of a [`SchemaFieldView`].
pub struct SchemaFieldViewModel {
    pub id: Seq<char>,
    pub name: Seq<char>,
    pub field_type: PandaFieldTypeModel,
}

impl DeepView for SchemaId {
    type V = SchemaIdModel;

    open spec fn deep_view(&self) -> SchemaIdModel {
        match self {
            SchemaId::Application(name, view_id) => SchemaIdModel::Application(name@, view_id@),
            SchemaId::System(schema) => SchemaIdModel::System(*schema),
        }
    }
}

impl DeepView for PandaFieldType {
    type V = PandaFieldTypeModel;

    open spec fn deep_view(&self) -> PandaFieldTypeModel {
        match self {
            PandaFieldType::Boolean => PandaFieldTypeModel::Boolean,
            PandaFieldType::Integer => PandaFieldTypeModel::Integer,
            PandaFieldType::Float => PandaFieldTypeModel::Float,
            PandaFieldType::String => PandaFieldTypeModel::String,
            PandaFieldType::Relation(id) => PandaFieldTypeModel::Relation(id.deep_view()),
            PandaFieldType::RelationList(id) => PandaFieldTypeModel::RelationList(id.deep_view()),
            PandaFieldType::PinnedRelation(id) => PandaFieldTypeModel::PinnedRelation(
                id.deep_view(),
            ),
            PandaFieldType::PinnedRelationList(id) => PandaFieldTypeModel::PinnedRelationList(
                id.deep_view(),
            ),
        }
    }
}

impl DeepView for SchemaView {
    type V = SchemaViewModel;

    open spec fn deep_view(&self) -> SchemaViewModel {
        SchemaViewModel {
            view_id: self.view_id@,
            name: self.name@,
            description: self.description@,
            fields: self.fields.deep_view(),
        }
    }
}

impl DeepView for SchemaFieldView {
    type V = SchemaFieldViewModel;

    open spec fn deep_view(&self) -> SchemaFieldViewModel {
        SchemaFieldViewModel {
            id: self.id@,
            name: self.name@,
            field_type: self.field_type.deep_view(),
        }
    }
}

impl DeepView for Schema {
    type V = SchemaIdModel;

    open spec fn deep_view(&self) -> SchemaIdModel {
        self.id.deep_view()
    }
}

impl PartialEq for SchemaId {
    fn eq(&self, other: &Self) -> (equal: bool) {
        match (self, other) {
            (SchemaId::Application(name, view_id), SchemaId::Application(other_name, other_id)) => {
                *name == *other_name && *view_id == *other_id
            },
            (SchemaId::System(schema), SchemaId::System(other_schema)) => *schema == *other_schema,
            _ => false,
        }
    }
}

impl vstd::std_specs::cmp::PartialEqSpecImpl for SchemaId {
    open spec fn obeys_eq_spec() -> bool {
        true
    }

    open spec fn eq_spec(&self, other: &Self) -> bool {
        self.deep_view() == other.deep_view()
    }
}

impl PartialEq for PandaFieldType {
    fn eq(&self, other: &Self) -> (equal: bool) {
        match (self, other) {
            (PandaFieldType::Boolean, PandaFieldType::Boolean) => true,
            (PandaFieldType::Integer, PandaFieldType::Integer) => true,
            (PandaFieldType::Float, PandaFieldType::Float) => true,
            (PandaFieldType::String, PandaFieldType::String) => true,
            (PandaFieldType::Relation(id), PandaFieldType::Relation(other_id)) => *id == *other_id,
            (PandaFieldType::RelationList(id), PandaFieldType::RelationList(other_id)) => {
                *id == *other_id
            },
            (PandaFieldType::PinnedRelation(id), PandaFieldType::PinnedRelation(other_id)) => {
                *id == *other_id
            },
            (
                PandaFieldType::PinnedRelationList(id),
                PandaFieldType::PinnedRelationList(other_id),
            ) => *id == *other_id,
            _ => false,
        }
    }
}

impl vstd::std_specs::cmp::PartialEqSpecImpl for PandaFieldType {
    open spec fn obeys_eq_spec() -> bool {
        true
    }

    open spec fn eq_spec(&self, other: &Self) -> bool {
        self.deep_view() == other.deep_view()
    }
}

impl Clone for SchemaId {
    fn clone(&self) -> (copy: Self)
        ensures
            copy.deep_view() == self.deep_view(),
    {
        match self {
            SchemaId::Application(name, view_id) => SchemaId::Application(
                name.clone(),
                view_id.clone(),
            ),
            SchemaId::System(schema) => SchemaId::System(*schema),
        }
    }
}

impl Clone for PandaFieldType {
    fn clone(&self) -> (copy: Self)
        ensures
            copy.deep_view() == self.deep_view(),
    {
        match self {
            PandaFieldType::Boolean => PandaFieldType::Boolean,
            PandaFieldType::Integer => PandaFieldType::Integer,
            PandaFieldType::Float => PandaFieldType::Float,
            PandaFieldType::String => PandaFieldType::String,
            PandaFieldType::Relation(id) => PandaFieldType::Relation(id.clone()),
            PandaFieldType::RelationList(id) => PandaFieldType::RelationList(id.clone()),
            PandaFieldType::PinnedRelation(id) => PandaFieldType::PinnedRelation(id.clone()),
            PandaFieldType::PinnedRelationList(id) => PandaFieldType::PinnedRelationList(
                id.clone(),
            ),
        }
    }
}

impl Clone for SchemaView {
    fn clone(&self) -> (copy: Self)
        ensures
            copy.deep_view() == self.deep_view(),
    {
        SchemaView {
            view_id: self.view_id.clone(),
            name: self.name.clone(),
            description: self.description.clone(),
            fields: copy_texts(&self.fields),
        }
    }
}

impl Clone for SchemaFieldView {
    fn clone(&self) -> (copy: Self)
        ensures
            copy.deep_view() == self.deep_view(),
    {
        SchemaFieldView {
            id: self.id.clone(),
            name: self.name.clone(),
            field_type: self.field_type.clone(),
        }
    }
}

impl Clone for Schema {
    fn clone(&self) -> (copy: Self)
        ensures
            copy.deep_view() == self.deep_view(),
    {
        Schema { id: self.id.clone() }
    }
}

/// Materialized type that a basic type stands for.
pub open spec fn basic_type(field_type: FieldType) -> PandaFieldTypeModel {
    match field_type {
        FieldType::String => PandaFieldTypeModel::String,
        FieldType::Boolean => PandaFieldTypeModel::Boolean,
        FieldType::Float => PandaFieldTypeModel::Float,
        FieldType::Integer => PandaFieldTypeModel::Integer,
    }
}

/// Materialized type of a relation of this kind to the schema `id`.
pub open spec fn relation_type(kind: RelationType, id: SchemaIdModel) -> PandaFieldTypeModel {
    match kind {
        RelationType::Relation => PandaFieldTypeModel::Relation(id),
        RelationType::RelationList => PandaFieldTypeModel::RelationList(id),
        RelationType::PinnedRelation => PandaFieldTypeModel::PinnedRelation(id),
        RelationType::PinnedRelationList => PandaFieldTypeModel::PinnedRelationList(id),
    }
}

/// The schema that a materialized type relates to, where it relates to one.
pub open spec fn related_schema(field_type: PandaFieldTypeModel) -> Option<SchemaIdModel> {
    match field_type {
        PandaFieldTypeModel::Relation(id) => Some(id),
        PandaFieldTypeModel::RelationList(id) => Some(id),
        PandaFieldTypeModel::PinnedRelation(id) => Some(id),
        PandaFieldTypeModel::PinnedRelationList(id) => Some(id),
        _ => None,
    }
}

/// Name part of a schema id.
pub open spec fn schema_id_name(id: SchemaIdModel) -> Seq<char> {
    match id {
        SchemaIdModel::Application(name, _) => name,
        SchemaIdModel::System(SystemSchema::SchemaDefinition(_)) => "schema_definition"@,
        SchemaIdModel::System(SystemSchema::SchemaFieldDefinition(_)) => "schema_field_definition"@,
    }
}

/// Text form of a schema id: an application schema is its name followed by the ids of the view's
/// operations, a system schema its name followed by the version.
pub open spec fn schema_id_text(id: SchemaIdModel) -> Seq<char> {
    match id {
        SchemaIdModel::Application(name, view_id) => if view_id.len() == 0 {
            name
        } else {
            name + "_"@ + view_id
        },
        SchemaIdModel::System(SystemSchema::SchemaDefinition(version)) => "schema_definition_v"@
            + decimal(version as nat),
        SchemaIdModel::System(SystemSchema::SchemaFieldDefinition(version)) =>
            "schema_field_definition_v"@ + decimal(version as nat),
    }
}

/// Text form of a field type.
pub open spec fn field_type_text(field_type: PandaFieldTypeModel) -> Seq<char> {
    match field_type {
        PandaFieldTypeModel::Boolean => "bool"@,
        PandaFieldTypeModel::Integer => "int"@,
        PandaFieldTypeModel::Float => "float"@,
        PandaFieldTypeModel::String => "str"@,
        PandaFieldTypeModel::Relation(id) => "relation("@ + schema_id_text(id) + ")"@,
        PandaFieldTypeModel::RelationList(id) => "relation_list("@ + schema_id_text(id) + ")"@,
        PandaFieldTypeModel::PinnedRelation(id) => "pinned_relation("@ + schema_id_text(id) + ")"@,
        PandaFieldTypeModel::PinnedRelationList(id) => "pinned_relation_list("@ + schema_id_text(id)
            + ")"@,
    }
}

impl SchemaId {
    /// Returns the name of the schema.
    pub fn name(&self) -> (name: SchemaName)
        ensures
            name@ == schema_id_name(self.deep_view()),
    {
        match self {
            SchemaId::Application(name, _) => name.clone(),
            SchemaId::System(SystemSchema::SchemaDefinition(_)) => "schema_definition".to_owned(),
            SchemaId::System(SystemSchema::SchemaFieldDefinition(_)) => {
                "schema_field_definition".to_owned()
            },
        }
    }

    /// Returns the text form of the id.
    pub fn text(&self) -> (text: String)
        ensures
            text@ == schema_id_text(self.deep_view()),
    {
        match self {
            SchemaId::Application(name, view_id) => {
                if view_id.as_str().unicode_len() == 0 {
                    name.clone()
                } else {
                    name.clone().concat("_").concat(view_id.as_str())
                }
            },
            SchemaId::System(SystemSchema::SchemaDefinition(version)) => {
                "schema_definition_v".to_owned().concat(decimal_text(*version).as_str())
            },
            SchemaId::System(SystemSchema::SchemaFieldDefinition(version)) => {
                "schema_field_definition_v".to_owned().concat(decimal_text(*version).as_str())
            },
        }
    }
}

impl PandaFieldType {
    /// Makes the materialized type that a basic type stands for.
    pub fn basic(field_type: FieldType) -> (panda_type: Self)
        ensures
            panda_type.deep_view() == basic_type(field_type),
    {
        match field_type {
            FieldType::String => PandaFieldType::String,
            FieldType::Boolean => PandaFieldType::Boolean,
            FieldType::Float => PandaFieldType::Float,
            FieldType::Integer => PandaFieldType::Integer,
        }
    }

    /// Makes the materialized type of a relation of this kind to the schema `id`.
    pub fn relation(kind: RelationType, id: SchemaId) -> (panda_type: Self)
        ensures
            panda_type.deep_view() == relation_type(kind, id.deep_view()),
    {
        match kind {
            RelationType::Relation => PandaFieldType::Relation(id),
            RelationType::RelationList => PandaFieldType::RelationList(id),
            RelationType::PinnedRelation => PandaFieldType::PinnedRelation(id),
            RelationType::PinnedRelationList => PandaFieldType::PinnedRelationList(id),
        }
    }

    /// Returns the text form of the type.
    pub fn text(&self) -> (text: String)
        ensures
            text@ == field_type_text(self.deep_view()),
    {
        match self {
            PandaFieldType::Boolean => "bool".to_owned(),
            PandaFieldType::Integer => "int".to_owned(),
            PandaFieldType::Float => "float".to_owned(),
            PandaFieldType::String => "str".to_owned(),
            PandaFieldType::Relation(id) => {
                "relation(".to_owned().concat(id.text().as_str()).concat(")")
            },
            PandaFieldType::RelationList(id) => {
                "relation_list(".to_owned().concat(id.text().as_str()).concat(")")
            },
            PandaFieldType::PinnedRelation(id) => {
                "pinned_relation(".to_owned().concat(id.text().as_str()).concat(")")
            },
            PandaFieldType::PinnedRelationList(id) => {
                "pinned_relation_list(".to_owned().concat(id.text().as_str()).concat(")")
            },
        }
    }
}

} // verus!
