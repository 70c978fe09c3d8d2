//! Commits of the lock file.
use crate::bridge::{
    decode_operation, decoded_operation, entry_hash_text, get_system, hash_entry, is_entry_hash,
    is_known_system_schema, plain_content, plain_operation_schema_id, plain_schema_id,
    read_schema_id, schema_id_model, system_schema,
};
use crate::error::UpdateError;
use crate::operation::OperationModel;
use crate::panda::{SchemaId, SchemaIdModel};
use p2panda_rs::operation::error::DecodeOperationError;
use p2panda_rs::operation::plain::PlainOperation;
use p2panda_rs::schema::error::SchemaIdError;
use p2panda_rs::schema::Schema as PandaSchema;
use vstd::prelude::*;

verus! {

/// Signed entry with its operation.
#[derive(Debug)]
pub struct Commit {
    /// Hash of the entry.
    pub entry_hash: String,
    /// The entry as bytes.
    pub entry: Vec<u8>,
    /// The operation as bytes.
    pub operation: Vec<u8>,
}

/// Commits the user already made.
#[derive(Debug)]
pub struct LockFile {
    /// The commits, where the file defines any.
    pub commits: Option<Vec<Commit>>,
}

/// Model of a [`Commit`].
pub struct CommitModel {
    pub entry_hash: Seq<char>,
    pub entry: Seq<u8>,
    pub operation: Seq<u8>,
}

impl DeepView for Commit {
    type V = CommitModel;

    open spec fn deep_view(&self) -> CommitModel {
        CommitModel {
            entry_hash: self.entry_hash@,
            entry: self.entry@,
            operation: self.operation@,
        }
    }
}

/// Copies bytes.
fn copy_bytes(bytes: &Vec<u8>) -> (copy: Vec<u8>)
    ensures
        copy@ == bytes@,
{
    let mut copy: Vec<u8> = Vec::new();
    for i in 0..bytes.len()
        invariant
            copy@ == bytes@.take(i as int),
    {
        copy.push(bytes[i]);
        assert(copy@ =~= bytes@.take(i + 1));
    }
    assert(bytes@.take(bytes@.len() as int) =~= bytes@);
    copy
}

impl Commit {
    /// Makes a commit from an entry and its operation.
    pub fn new(entry: &Vec<u8>, operation: &Vec<u8>) -> (commit: Self)
        ensures
            commit.deep_view() == (CommitModel {
                entry_hash: entry_hash_text(entry@),
                entry: entry@,
                operation: operation@,
            }),
            is_entry_hash(commit.entry_hash@),
    {
        Commit {
            entry_hash: hash_entry(entry),
            entry: copy_bytes(entry),
            operation: copy_bytes(operation),
        }
    }

    /// Checks the integrity of the commit and derives the schema of its operation, which has to be
    /// one that p2panda itself defines.
    ///
    /// Fails where the entry has another hash, else where the operation can not be decoded, else
    /// where it belongs to a schema of an application, else where the version of its system schema
    /// is unknown.
    pub fn check(&self) -> (result: Result<CheckedCommit, UpdateError>)
        ensures
            match result {
                Ok(checked) => {
                    &&& is_valid_commit(self.deep_view())
                    &&& decoded_operation(self.operation@) == Ok::<
                        PlainOperation,
                        DecodeOperationError,
                    >(checked.operation)
                    &&& schema_id_model(*checked.schema) == plain_schema_id(checked.operation)
                },
                Err(UpdateError::EntryHashMismatch(hash)) => {
                    &&& !has_entry_hash(self.deep_view())
                    &&& hash@ == self.entry_hash@
                },
                Err(UpdateError::DecodeOperation(error)) => {
                    &&& has_entry_hash(self.deep_view())
                    &&& decoded_operation(self.operation@) == Err::<
                        PlainOperation,
                        DecodeOperationError,
                    >(error)
                },
                Err(UpdateError::InvalidCommitSchema(id)) => {
                    &&& has_entry_hash(self.deep_view())
                    &&& decoded_operation(self.operation@) matches Ok(operation)
                    &&& plain_schema_id(operation) is Application
                    &&& id.deep_view() == plain_schema_id(operation)
                },
                Err(UpdateError::UnknownSystemSchema(error)) => {
                    &&& has_entry_hash(self.deep_view())
                    &&& decoded_operation(self.operation@) matches Ok(operation)
                    &&& plain_schema_id(operation) matches SchemaIdModel::System(schema)
                    &&& !is_known_system_schema(schema)
                    &&& system_schema(schema) == Err::<&'static PandaSchema, SchemaIdError>(error)
                },
                Err(_) => false,
            },
    {
        // Check entry hash integrity
        if self.entry_hash != hash_entry(&self.entry) {
            return Err(UpdateError::EntryHashMismatch(self.entry_hash.clone()));
        }
        // Decode operation
        let operation = match decode_operation(&self.operation) {
            Ok(operation) => operation,
            Err(error) => return Err(UpdateError::DecodeOperation(error)),
        };
        // Derive schema definition from the operation's schema id
        match read_schema_id(plain_operation_schema_id(&operation)) {
            SchemaId::System(schema) => match get_system(schema) {
                Ok(schema) => Ok(CheckedCommit { operation, schema }),
                Err(error) => Err(UpdateError::UnknownSystemSchema(error)),
            },
            SchemaId::Application(name, view_id) => Err(
                UpdateError::InvalidCommitSchema(SchemaId::Application(name, view_id)),
            ),
        }
    }
}

/// What publishing a commit needs, next to the commit itself.
#[derive(Debug)]
pub struct CheckedCommit {
    pub operation: PlainOperation,
    /// Schema of the operation.
    pub schema: &'static PandaSchema,
}

/// The commit names the hash of its entry.
pub open spec fn has_entry_hash(commit: CommitModel) -> bool {
    commit.entry_hash == entry_hash_text(commit.entry)
}

/// The operation of a commit, where it can be decoded to one that creates or updates a document of a
/// system schema.
pub open spec fn committed_operation(commit: CommitModel) -> Option<OperationModel> {
    match decoded_operation(commit.operation) {
        Ok(operation) => plain_content(operation).operation,
        Err(_) => None,
    }
}

/// The commit names the hash of its entry and holds an operation of a known system schema.
pub open spec fn is_valid_commit(commit: CommitModel) -> bool {
    &&& has_entry_hash(commit)
    &&& decoded_operation(commit.operation) matches Ok(operation)
    &&& plain_schema_id(operation) matches SchemaIdModel::System(schema)
    &&& is_known_system_schema(schema)
}

impl LockFile {
    /// Makes a lock file without any commits.
    pub fn empty() -> (file: Self)
        ensures
            file.commits matches Some(commits) && commits@.len() == 0,
    {
        LockFile { commits: Some(Vec::new()) }
    }

    /// Returns the commits. Sometimes `commits` is not defined in the file, then there are none.
    pub fn into_commits(self) -> (commits: Vec<Commit>)
        ensures
            commits.deep_view() == match self.commits {
                Some(commits) => commits.deep_view(),
                None => Seq::empty(),
            },
    {
        match self.commits {
            Some(commits) => commits,
            None => {
                let commits: Vec<Commit> = Vec::new();
                assert(commits.deep_view() =~= Seq::empty());
                commits
            },
        }
    }
}

} // verus!
