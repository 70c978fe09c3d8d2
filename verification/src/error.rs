//! Reasons why an update fails.
use crate::panda::{schema_id_text, DocumentViewId, SchemaId};
use crate::schema_file::SchemaName;
use p2panda_rs::document::error::DocumentViewIdError;
use p2panda_rs::operation::error::{
    DecodeOperationError, EncodeOperationError, OperationBuilderError,
};
use p2panda_rs::schema::error::{SchemaError, SchemaIdError};
use p2panda_rs::schema::system::SystemSchemaError;
use vstd::prelude::*;

verus! {

/// Reason why an update fails.
#[derive(Debug)]
pub enum UpdateError {
    /// The schema file does not define any schema.
    EmptySchemaFile,
    /// The schema of this name does not contain any fields.
    NoFields(SchemaName),
    /// The entry of a commit does not have this hash.
    EntryHashMismatch(String),
    /// The operation of a commit could not be decoded.
    DecodeOperation(DecodeOperationError),
    /// The operation of a commit belongs to this schema, which is not one of p2panda itself.
    InvalidCommitSchema(SchemaId),
    /// A document does not define a schema.
    InvalidSchemaDefinition(SystemSchemaError),
    /// The field definition of this view id, which the schema of the second one pins, is missing.
    MissingFieldDefinition(DocumentViewId, DocumentViewId),
    /// A schema pins a field definition that was deleted.
    DeletedFieldDefinition,
    /// A document does not define a field.
    InvalidFieldDefinition(SystemSchemaError),
    /// The schema of this view id could not be assembled from its definitions.
    AssembleSchema(DocumentViewId, SchemaError),
    /// A text is not the id of a document view.
    InvalidViewId(DocumentViewIdError),
    /// An operation could not be built.
    BuildOperation(OperationBuilderError),
    /// An operation belongs to a system schema that does not exist.
    UnknownSystemSchema(SchemaIdError),
    /// An operation could not be encoded.
    EncodeOperation(EncodeOperationError),
    /// A relation refers to its schema by id, which is not supported.
    RelationById,
    /// Schemas relate to each other in a circle.
    CyclicRelations,
}

/// The message of an error in the words of this library, where it does not just pass on an error of
/// p2panda.
pub open spec fn error_message(error: UpdateError) -> Option<Seq<char>> {
    match error {
        UpdateError::EmptySchemaFile => Some("Schema file is empty"@),
        UpdateError::NoFields(name) => Some(
            "Schema "@ + name@ + " does not contain any fields"@,
        ),
        UpdateError::EntryHashMismatch(hash) => Some(
            "Entry hash "@ + hash@ + " does not match it's content"@,
        ),
        UpdateError::InvalidCommitSchema(id) => Some(
            "Detected commit with invalid schema id "@ + schema_id_text(id.deep_view())
                + " in lock file"@,
        ),
        UpdateError::MissingFieldDefinition(id, schema_id) => Some(
            "Missing field definition document "@ + id@ + " for schema "@ + schema_id@,
        ),
        UpdateError::DeletedFieldDefinition => Some(
            "Can not assign a deleted schema field to a schema"@,
        ),
        UpdateError::AssembleSchema(id, _) => Some(
            "Could not assemble schema with view id "@ + id@ + " from given documents"@,
        ),
        UpdateError::RelationById => Some(
            "Relating to schemas via `id` is not supported yet"@,
        ),
        UpdateError::CyclicRelations => Some("Cyclic dependency detected between relations"@),
        UpdateError::InvalidSchemaDefinition(_)
        | UpdateError::InvalidFieldDefinition(_)
        | UpdateError::DecodeOperation(_)
        | UpdateError::InvalidViewId(_)
        | UpdateError::BuildOperation(_)
        | UpdateError::UnknownSystemSchema(_)
        | UpdateError::EncodeOperation(_) => None,
    }
}

impl UpdateError {
    /// Returns the message of the error in the words of this library, or `None` where it just passes
    /// on an error of p2panda.
    pub fn message(&self) -> (message: Option<String>)
        ensures
            message.deep_view() == error_message(*self),
    {
        match self {
            UpdateError::EmptySchemaFile => Some("Schema file is empty".to_owned()),
            UpdateError::NoFields(name) => Some(
                "Schema ".to_owned().concat(name.as_str()).concat(" does not contain any fields"),
            ),
            UpdateError::EntryHashMismatch(hash) => Some(
                "Entry hash ".to_owned().concat(hash.as_str()).concat(
                    " does not match it's content",
                ),
            ),
            UpdateError::InvalidCommitSchema(id) => Some(
                "Detected commit with invalid schema id ".to_owned().concat(
                    id.text().as_str(),
                ).concat(" in lock file"),
            ),
            UpdateError::MissingFieldDefinition(id, schema_id) => Some(
                "Missing field definition document ".to_owned().concat(id.as_str()).concat(
                    " for schema ",
                ).concat(schema_id.as_str()),
            ),
            UpdateError::DeletedFieldDefinition => Some(
                "Can not assign a deleted schema field to a schema".to_owned(),
            ),
            UpdateError::AssembleSchema(id, _) => Some(
                "Could not assemble schema with view id ".to_owned().concat(id.as_str()).concat(
                    " from given documents",
                ),
            ),
            UpdateError::RelationById => Some(
                "Relating to schemas via `id` is not supported yet".to_owned(),
            ),
            UpdateError::CyclicRelations => Some(
                "Cyclic dependency detected between relations".to_owned(),
            ),
            UpdateError::InvalidSchemaDefinition(_)
            | UpdateError::InvalidFieldDefinition(_)
            | UpdateError::DecodeOperation(_)
            | UpdateError::InvalidViewId(_)
            | UpdateError::BuildOperation(_)
            | UpdateError::UnknownSystemSchema(_)
            | UpdateError::EncodeOperation(_) => None,
        }
    }
}

} // verus!
