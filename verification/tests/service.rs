use gvector::error::IndexError;
use gvector::service::{
    answer, default_k, index_error_response, plan_batch, Command, WriterStep, MAX_BATCH,
};
use gvector::types::VectorId;

#[test]
fn errors_map_to_statuses() {
    let (code, text) = index_error_response(&IndexError::NotFound(VectorId(3)));
    assert_eq!((code, text.as_str()), (404, "id not found: VectorId(3)"));
    let (code, text) = index_error_response(&IndexError::DuplicateId(VectorId(3)));
    assert_eq!((code, text.as_str()), (409, "id already exists: VectorId(3)"));
    let (code, _) = index_error_response(&IndexError::DimensionMismatch {
        expected: 1,
        got: 2,
    });
    assert_eq!(code, 400);
    let (code, text) = index_error_response(&IndexError::Storage("x".to_string()));
    assert_eq!((code, text.as_str()), (400, "persistence error: x"));
    let (code, _) = index_error_response(&IndexError::Unsupported("x"));
    assert_eq!(code, 400);
}

#[test]
fn ten_results_are_usual() {
    assert_eq!(default_k(), 10);
    assert_eq!(MAX_BATCH, 256);
}

#[test]
fn batches_are_committed_before_they_are_answered() {
    let (commit, reply) = (WriterStep::Commit, WriterStep::Answer);
    let (apply, checkpoint) = (WriterStep::Apply, WriterStep::Checkpoint);
    assert_eq!(plan_batch(&vec![]), vec![]);
    assert_eq!(
        plan_batch(&vec![Command::Write, Command::Write]),
        vec![apply(0), apply(1), commit, reply]
    );
    assert_eq!(
        plan_batch(&vec![Command::Write, Command::Checkpoint, Command::Write]),
        vec![
            apply(0),
            commit,
            reply,
            checkpoint(1),
            apply(2),
            commit,
            reply
        ]
    );
    assert_eq!(
        plan_batch(&vec![Command::Checkpoint]),
        vec![commit, reply, checkpoint(0)]
    );
}

#[test]
fn failed_commit_is_no_success() {
    let failed = Err("no space".to_string());
    assert_eq!(
        answer(Ok(()), &failed),
        Err(IndexError::Storage("no space".to_string()))
    );
    assert_eq!(answer(Ok(()), &Ok(())), Ok(()));
    assert_eq!(
        answer(Err(IndexError::NotFound(VectorId(1))), &Ok(())),
        Err(IndexError::NotFound(VectorId(1)))
    );
}
