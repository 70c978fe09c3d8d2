//! Execution of plans.
use crate::bridge::{
    encoded_operation, entry_hash_text, is_entry_hash, is_known_system_schema, is_valid_operation,
};
use crate::commit::{Commit, CommitModel};
use crate::diff::{SchemaDiff, SchemaDiffModel};
use crate::error::UpdateError;
use crate::operation::{
    is_encoding, is_prepared, lemma_given_ids, operation_schema, OperationModel, PreparedOperation,
};
use crate::panda::DocumentViewId;
use crate::plan::{run_plans, Run};
use crate::steps::{
    behind, fits, get_steps, lemma_plan_steps, lemma_plans_fit, plan_steps, run_steps, run_waiting,
    unchanged_id, Step, StepModel,
};
use p2panda_rs::operation::error::EncodeOperationError;
use vstd::prelude::*;

verus! {

/// The replies that commits stand for: the hash of an entry is the view id of the changed document.
pub open spec fn replies_of(commits: Seq<CommitModel>) -> Seq<Seq<char>> {
    commits.map_values(|commit: CommitModel| entry_hash_text(commit.entry))
}

/// The commits record these operations: each names the hash of its entry and holds the bytes of its
/// operation.
pub open spec fn record(commits: Seq<CommitModel>, operations: Seq<OperationModel>) -> bool {
    &&& commits.len() == operations.len()
    &&& forall|i: int| 0 <= i < commits.len() ==> #[trigger] records(commits[i], operations[i])
}

/// The commit names the hash of its entry and holds the bytes of the operation.
pub open spec fn records(commit: CommitModel, operation: OperationModel) -> bool {
    &&& commit.entry_hash == entry_hash_text(commit.entry)
    &&& is_entry_hash(commit.entry_hash)
    &&& is_encoding(operation, commit.operation)
}

/// How far an execution of plans got with the commits that were made.
pub open spec fn run_with(plans: Seq<SchemaDiffModel>, commits: Seq<CommitModel>) -> Run {
    run_plans(plans, replies_of(commits))
}

/// The execution of plans is finished with these commits, which record all its operations.
pub open spec fn is_finished(plans: Seq<SchemaDiffModel>, commits: Seq<CommitModel>) -> bool {
    &&& run_with(plans, commits).view_ids is Some
    &&& record(commits, run_with(plans, commits).operations)
}

/// `error` is a reason for which the operation can not be prepared.
pub open spec fn fails_with(operation: OperationModel, error: UpdateError) -> bool {
    match error {
        UpdateError::InvalidViewId(_) => !is_valid_operation(operation),
        UpdateError::EncodeOperation(encode_error) => {
            &&& is_valid_operation(operation)
            &&& encoded_operation(operation) == Err::<Seq<u8>, EncodeOperationError>(encode_error)
        },
        _ => false,
    }
}

/// Iterates over the dependencies of plans in a depth-first order and keeps track of the commits.
struct Executor {
    /// Steps of the plans.
    steps: Vec<Step>,
    /// Number of steps which were executed.
    position: usize,
    /// View ids which the steps ahead depend on.
    view_ids: Vec<DocumentViewId>,
    /// Commits which were made.
    commits: Vec<Commit>,
    plans: Ghost<Seq<SchemaDiffModel>>,
    /// Operations which were committed.
    operations: Ghost<Seq<OperationModel>>,
}

impl Executor {
    spec fn steps_ahead(self) -> Seq<StepModel> {
        self.steps.deep_view().skip(self.position as int)
    }

    spec fn replies(self) -> Seq<Seq<char>> {
        replies_of(self.commits.deep_view())
    }

    spec fn has_recorded(self) -> bool {
        &&& self.position <= self.steps@.len()
        &&& record(self.commits.deep_view(), self.operations@)
    }

    /// The steps ahead bring the plans to their end.
    spec fn is_on_track(self) -> bool {
        &&& self.has_recorded()
        &&& fits(self.steps_ahead(), self.view_ids@.len() as int)
        &&& forall|more: Seq<Seq<char>>| #[trigger]
            run_plans(self.plans@, self.replies() + more) == behind(
                self.operations@,
                run_steps(self.steps_ahead(), self.view_ids.deep_view(), more),
            )
    }

    /// The reply to the operation and the steps ahead bring the plans to their end.
    spec fn waits_for(self, operation: OperationModel) -> bool {
        &&& self.has_recorded()
        &&& fits(self.steps_ahead(), self.view_ids@.len() as int + 1)
        &&& forall|more: Seq<Seq<char>>| #[trigger]
            run_plans(self.plans@, self.replies() + more) == behind(
                self.operations@,
                run_waiting(operation, self.steps_ahead(), self.view_ids.deep_view(), more),
            )
    }

    /// Starts with the first step of the plans.
    fn new(plans: &Vec<SchemaDiff>) -> (executor: Self)
        ensures
            executor.is_on_track(),
            executor.plans@ == plans.deep_view(),
            executor.commits.deep_view() == Seq::<CommitModel>::empty(),
    {
        let executor = Executor {
            steps: get_steps(plans),
            position: 0,
            view_ids: Vec::new(),
            commits: Vec::new(),
            plans: Ghost(plans.deep_view()),
            operations: Ghost(Seq::empty()),
        };
        proof {
            let models = plans.deep_view();
            assert(executor.commits.deep_view() =~= Seq::empty());
            assert(executor.view_ids.deep_view() =~= Seq::empty());
            assert(executor.steps_ahead() =~= plan_steps(models));
            lemma_plans_fit(models, Seq::empty());
            assert(plan_steps(models) + Seq::empty() =~= plan_steps(models));
            assert forall|more: Seq<Seq<char>>| #[trigger]
                run_plans(models, executor.replies() + more) == behind(
                    Seq::empty(),
                    run_steps(plan_steps(models), Seq::empty(), more),
                ) by {
                assert(executor.replies() + more =~= more);
                lemma_plan_steps(models, more);
                let run = run_plans(models, more);
                assert(Seq::<OperationModel>::empty() + run.operations =~= run.operations);
            }
        }
        executor
    }

    /// Executes the steps that need no operation, up to the next one that needs one or to the end.
    fn advance(self) -> (result: Result<Progress, UpdateError>)
        requires
            self.is_on_track(),
        ensures
            is_progress(self.plans@, self.commits.deep_view(), result),
    {
        let mut executor = self;
        while executor.position < executor.steps.len()
            invariant
                executor.is_on_track(),
                executor.plans == self.plans,
                executor.commits == self.commits,
            decreases executor.steps@.len() - executor.position,
        {
            let ghost before = executor;
            let ghost ahead = executor.steps_ahead();
            let ghost stack = executor.view_ids.deep_view();
            proof {
                assert(ahead[0] == executor.steps@[executor.position as int].deep_view());
                assert(fits(ahead, stack.len() as int));
            }
            let Executor { steps, position, mut view_ids, commits, plans, operations } = executor;
            let operation = steps[position].take(&mut view_ids);
            match operation {
                None => {
                    let ghost left = view_ids.deep_view();
                    view_ids.push(steps[position].previous_id());
                    executor = Executor {
                        steps,
                        position: position + 1,
                        view_ids,
                        commits,
                        plans,
                        operations,
                    };
                    proof {
                        assert(executor.steps_ahead() =~= ahead.skip(1));
                        assert(executor.view_ids.deep_view() =~= left.push(
                            unchanged_id(ahead[0]),
                        ));
                        assert forall|more: Seq<Seq<char>>| #[trigger]
                            run_plans(executor.plans@, executor.replies() + more) == behind(
                                executor.operations@,
                                run_steps(
                                    executor.steps_ahead(),
                                    executor.view_ids.deep_view(),
                                    more,
                                ),
                            ) by {
                            assert(run_plans(before.plans@, before.replies() + more) == behind(
                                before.operations@,
                                run_steps(ahead, stack, more),
                            ));
                        }
                    }
                },
                Some(operation) => {
                    let ghost model = operation.deep_view();
                    let waiting = Executor {
                        steps,
                        position: position + 1,
                        view_ids,
                        commits,
                        plans,
                        operations,
                    };
                    proof {
                        lemma_given_ids(operation);
                        assert(waiting.steps_ahead() =~= ahead.skip(1));
                        assert forall|more: Seq<Seq<char>>| #[trigger]
                            run_plans(waiting.plans@, waiting.replies() + more) == behind(
                                waiting.operations@,
                                run_waiting(
                                    model,
                                    waiting.steps_ahead(),
                                    waiting.view_ids.deep_view(),
                                    more,
                                ),
                            ) by {
                            assert(run_plans(before.plans@, before.replies() + more) == behind(
                                before.operations@,
                                run_steps(ahead, stack, more),
                            ));
                        }
                        lemma_waits(waiting, model);
                        let run = run_with(self.plans@, self.commits.deep_view());
                        assert(run.operations.last() == model);
                        assert(run.operations.drop_last() =~= waiting.operations@);
                        assert(is_known_system_schema(operation_schema(model)));
                    }
                    return match operation.prepare() {
                        Ok(prepared) => Ok(
                            Progress::Publish(
                                PendingCommit {
                                    executor: waiting,
                                    prepared,
                                    operation: Ghost(model),
                                },
                            ),
                        ),
                        Err(error) => Err(error),
                    };
                },
            }
        }
        proof {
            let replies = executor.replies();
            assert(replies + Seq::empty() =~= replies);
            assert(run_plans(executor.plans@, replies + Seq::empty()) == behind(
                executor.operations@,
                run_steps(executor.steps_ahead(), executor.view_ids.deep_view(), Seq::empty()),
            ));
            assert(executor.operations@ + Seq::empty() =~= executor.operations@);
        }
        Ok(Progress::Done(executor.commits))
    }
}

/// An executor which waits for a reply has one operation more than commits.
proof fn lemma_waits(executor: Executor, operation: OperationModel)
    requires
        executor.waits_for(operation),
    ensures
        run_with(executor.plans@, executor.commits.deep_view()).view_ids is None,
        run_with(executor.plans@, executor.commits.deep_view()).operations
            == executor.operations@.push(operation),
{
    let replies = executor.replies();
    assert(replies + Seq::empty() =~= replies);
    assert(run_plans(executor.plans@, replies + Seq::empty()) == behind(
        executor.operations@,
        run_waiting(
            operation,
            executor.steps_ahead(),
            executor.view_ids.deep_view(),
            Seq::empty(),
        ),
    ));
    assert(executor.operations@ + seq![operation] =~= executor.operations@.push(operation));
}

/// Operation which has to be published before the execution goes on.
pub struct PendingCommit {
    executor: Executor,
    prepared: PreparedOperation,
    operation: Ghost<OperationModel>,
}

impl PendingCommit {
    #[verifier::type_invariant]
    closed spec fn is_well_formed(self) -> bool {
        &&& self.executor.waits_for(self.operation@)
        &&& is_prepared(self.operation@, self.prepared)
    }

    /// Plans which are executed.
    pub closed spec fn plans(self) -> Seq<SchemaDiffModel> {
        self.executor.plans@
    }

    /// Commits which were made so far.
    pub closed spec fn commits(self) -> Seq<CommitModel> {
        self.executor.commits.deep_view()
    }

    /// The operation to publish.
    pub closed spec fn prepared_operation(self) -> PreparedOperation {
        self.prepared
    }

    /// Returns the operation to publish.
    pub fn operation(&self) -> (prepared: &PreparedOperation)
        ensures
            *prepared == self.prepared_operation(),
    {
        &self.prepared
    }

    /// Keeps track of the commit which resulted from publishing the operation with this entry, and
    /// goes on to the next operation.
    pub fn commit(self, entry: &Vec<u8>) -> (result: Result<Progress, UpdateError>)
        ensures
            is_progress(
                self.plans(),
                self.commits().push(
                    CommitModel {
                        entry_hash: entry_hash_text(entry@),
                        entry: entry@,
                        operation: self.prepared_operation().encoded@,
                    },
                ),
                result,
            ),
    {
        proof {
            use_type_invariant(&self);
        }
        let PendingCommit { executor: before, prepared, operation } = self;
        let Executor { steps, position, mut view_ids, mut commits, plans, operations } = before;
        let commit = Commit::new(entry, &prepared.encoded);
        let ghost reply = commit.entry_hash@;
        view_ids.push(commit.entry_hash.clone());
        commits.push(commit);
        let executor = Executor {
            steps,
            position,
            view_ids,
            commits,
            plans,
            operations: Ghost(operations@.push(operation@)),
        };
        proof {
            let old_commits = before.commits.deep_view();
            assert(executor.commits.deep_view() =~= old_commits.push(commit.deep_view()));
            assert(executor.replies() =~= before.replies().push(reply));
            assert(executor.view_ids.deep_view() =~= before.view_ids.deep_view().push(reply));
            assert forall|i: int| 0 <= i < executor.commits@.len() implies #[trigger] records(
                executor.commits.deep_view()[i],
                executor.operations@[i],
            ) by {
                if i < old_commits.len() {
                    assert(records(old_commits[i], before.operations@[i]));
                }
            }
            assert forall|more: Seq<Seq<char>>| #[trigger]
                run_plans(executor.plans@, executor.replies() + more) == behind(
                    executor.operations@,
                    run_steps(executor.steps_ahead(), executor.view_ids.deep_view(), more),
                ) by {
                let all = seq![reply] + more;
                assert(executor.replies() + more =~= before.replies() + all);
                assert(all.skip(1) =~= more);
                let tail = run_steps(executor.steps_ahead(), executor.view_ids.deep_view(), more);
                assert(run_plans(before.plans@, before.replies() + all) == behind(
                    before.operations@,
                    run_waiting(
                        operation@,
                        before.steps_ahead(),
                        before.view_ids.deep_view(),
                        all,
                    ),
                ));
                assert(before.operations@ + (seq![operation@] + tail.operations)
                    =~= executor.operations@ + tail.operations);
            }
        }
        executor.advance()
    }
}

/// How far the execution of plans got.
pub enum Progress {
    /// An operation has to be published.
    Publish(PendingCommit),
    /// Everything was executed, with these commits.
    Done(Vec<Commit>),
}

/// `result` is how far the execution of plans gets with the commits that were made: either it is
/// done, and these commits record all its operations, or the next operation has to be published, or
/// that operation can not be prepared.
pub open spec fn is_progress(
    plans: Seq<SchemaDiffModel>,
    commits: Seq<CommitModel>,
    result: Result<Progress, UpdateError>,
) -> bool {
    match result {
        Ok(Progress::Done(all)) => is_finished(plans, commits) && all.deep_view() == commits,
        Ok(Progress::Publish(pending)) => {
            &&& run_with(plans, commits).view_ids is None
            &&& pending.plans() == plans
            &&& pending.commits() == commits
            &&& record(commits, run_with(plans, commits).operations.drop_last())
            &&& is_prepared(
                run_with(plans, commits).operations.last(),
                pending.prepared_operation(),
            )
        },
        Err(error) => {
            &&& run_with(plans, commits).view_ids is None
            &&& record(commits, run_with(plans, commits).operations.drop_last())
            &&& fails_with(run_with(plans, commits).operations.last(), error)
        },
    }
}

/// Executes plans up to the first operation that has to be published.
pub fn execute_plan(plans: &Vec<SchemaDiff>) -> (result: Result<Progress, UpdateError>)
    ensures
        is_progress(plans.deep_view(), Seq::empty(), result),
{
    Executor::new(plans).advance()
}

} // verus!
