//! The decisions of the service around the index: how a batch of commands is
//! worked off, and what a client is answered.
//!
//! All writes pass through one writer, which takes the commands that are
//! waiting as a batch. A write is answered only after the durability that the
//! log's policy promises has been reached: the writer applies the writes of a
//! batch, commits the log once, and answers then.

use vstd::prelude::*;
use vstd::string::StringExecFns;
use crate::error::{error_message, IndexError};

verus! {

/// The largest batch.
pub const MAX_BATCH: usize = 256;

/// How many results are given where a client does not say.
pub fn default_k() -> (k: usize)
    ensures
        k == 10,
{
    10
}

/// The HTTP status that an error is answered with.
pub open spec fn status(e: IndexError) -> u16 {
    match e {
        IndexError::NotFound(_) => 404,
        IndexError::DuplicateId(_) => 409,
        _ => 400,
    }
}

/// The status and the text that an error is answered with.
pub fn index_error_response(e: &IndexError) -> (r: (u16, String))
    ensures
        r.0 == status(*e),
        r.1@ == error_message(*e),
{
    let code: u16 = match e {
        IndexError::NotFound(_) => 404,
        IndexError::DuplicateId(_) => 409,
        _ => 400,
    };
    (code, e.message())
}

/// A command to the writer.
#[derive(Debug, Clone, Copy, PartialEq, Eq, Structural)]
pub enum Command {
    /// An insertion or a deletion.
    Write,
    Checkpoint,
}

/// What the writer does next; commands go by their place in the batch.
#[derive(Debug, Clone, Copy, PartialEq, Eq, Structural)]
pub enum WriterStep {
    /// Apply a write and keep its outcome.
    Apply(usize),
    /// Commit the log.
    Commit,
    /// Answer the writes whose outcomes were kept.
    Answer,
    /// Write a checkpoint and answer it.
    Checkpoint(usize),
}

/// The steps for the first `n` commands.
pub open spec fn steps(batch: Seq<Command>, n: int) -> Seq<WriterStep>
    decreases n,
{
    if n <= 0 {
        Seq::empty()
    } else {
        let before = steps(batch, n - 1);
        match batch[n - 1] {
            Command::Write => before.push(WriterStep::Apply((n - 1) as usize)),
            Command::Checkpoint => before.push(WriterStep::Commit).push(WriterStep::Answer).push(
                WriterStep::Checkpoint((n - 1) as usize),
            ),
        }
    }
}

/// Is a write of the first `n` commands not answered yet?
pub open spec fn owing(batch: Seq<Command>, n: int) -> bool {
    n > 0 && batch[n - 1] == Command::Write
}

/// The steps for a batch. Writes that come before a checkpoint are committed
/// and answered before it; the rest at the end.
pub open spec fn batch_steps(batch: Seq<Command>) -> Seq<WriterStep> {
    let n = batch.len() as int;
    if owing(batch, n) {
        steps(batch, n).push(WriterStep::Commit).push(WriterStep::Answer)
    } else {
        steps(batch, n)
    }
}

/// Plans a batch.
pub fn plan_batch(batch: &Vec<Command>) -> (out: Vec<WriterStep>)
    ensures
        out@ == batch_steps(batch@),
{
    let mut out: Vec<WriterStep> = Vec::new();
    let mut i: usize = 0;
    while i < batch.len()
        invariant
            i <= batch@.len(),
            out@ == steps(batch@, i as int),
        decreases batch@.len() - i,
    {
        match batch[i] {
            Command::Write => {
                out.push(WriterStep::Apply(i));
            },
            Command::Checkpoint => {
                out.push(WriterStep::Commit);
                out.push(WriterStep::Answer);
                out.push(WriterStep::Checkpoint(i));
            },
        }
        i = i + 1;
    }
    if i > 0 && batch[i - 1] == Command::Write {
        out.push(WriterStep::Commit);
        out.push(WriterStep::Answer);
    }
    out
}

/// Writes are answered right after a commit of the log, and no write goes
/// unanswered: an answer follows every write that is applied, with a commit in
/// between.
pub proof fn answers_follow_a_commit(batch: Seq<Command>, p: int)
    requires
        0 <= p < batch_steps(batch).len(),
    ensures
        batch_steps(batch)[p] == WriterStep::Answer ==> p > 0 && batch_steps(batch)[p - 1]
            == WriterStep::Commit,
        batch_steps(batch)[p] is Apply ==> exists|q: int|
            p < q - 1 && q < batch_steps(batch).len() && (#[trigger] batch_steps(batch)[q])
                == WriterStep::Answer && batch_steps(batch)[q - 1] == WriterStep::Commit,
        batch_steps(batch)[p] is Checkpoint ==> p >= 2 && batch_steps(batch)[p - 1]
            == WriterStep::Answer,
{
    let n = batch.len() as int;
    let all = batch_steps(batch);
    let s = steps(batch, n);
    if p < s.len() {
        lemma_steps(batch, n, p);
        assert(all[p] == s[p]);
        if s[p] is Apply && owing(batch, n) {
            assert(all[s.len() as int + 1] == WriterStep::Answer);
        } else if s[p] is Apply {
            let q = choose|q: int|
                p < q - 1 && q < s.len() && (#[trigger] s[q]) == WriterStep::Answer && s[q - 1]
                    == WriterStep::Commit;
            assert(all[q] == WriterStep::Answer);
        }
    }
}

proof fn lemma_steps(batch: Seq<Command>, n: int, p: int)
    requires
        0 <= n <= batch.len(),
        0 <= p < steps(batch, n).len(),
    ensures
        ({
            let s = steps(batch, n);
            &&& s[p] == WriterStep::Answer ==> p > 0 && s[p - 1] == WriterStep::Commit
            &&& s[p] is Checkpoint ==> p >= 2 && s[p - 1] == WriterStep::Answer
            &&& s[p] is Apply && !owing(batch, n) ==> exists|q: int|
                p < q - 1 && q < s.len() && (#[trigger] s[q]) == WriterStep::Answer && s[q - 1]
                    == WriterStep::Commit
        }),
    decreases n,
{
    if n > 0 {
        let s = steps(batch, n);
        let t = steps(batch, n - 1);
        if p < t.len() {
            lemma_steps(batch, n - 1, p);
            assert(s[p] == t[p]);
            if s[p] is Apply && batch[n - 1] == Command::Checkpoint {
                assert(s[t.len() as int + 1] == WriterStep::Answer);
            }
        }
    }
}

/// Every command of a batch is worked off, in order.
pub proof fn commands_are_worked_off_in_order(batch: Seq<Command>, i: int, j: int)
    requires
        0 <= i < j < batch.len() <= usize::MAX,
    ensures
        exists|p: int, q: int|
            0 <= p < q < batch_steps(batch).len() && #[trigger] handles(
                batch_steps(batch)[p],
                i,
            ) && #[trigger] handles(batch_steps(batch)[q], j),
{
    let n = batch.len() as int;
    let all = batch_steps(batch);
    let p = step_of(batch, i);
    let q = step_of(batch, j);
    lemma_step_of(batch, i, n);
    lemma_step_of(batch, j, n);
    lemma_lengths(batch, i, j);
    assert(all[p] == steps(batch, n)[p]);
    assert(all[q] == steps(batch, n)[q]);
    assert(handles(all[p], i) && handles(all[q], j));
}

/// The step works off the command at a place.
pub open spec fn handles(s: WriterStep, i: int) -> bool {
    s == WriterStep::Apply(i as usize) || s == WriterStep::Checkpoint(i as usize)
}

/// The place of the step that works off a command.
spec fn step_of(batch: Seq<Command>, i: int) -> int {
    steps(batch, i + 1).len() - 1
}

proof fn lemma_step_of(batch: Seq<Command>, i: int, n: int)
    requires
        0 <= i < n <= batch.len(),
    ensures
        0 <= step_of(batch, i) < steps(batch, n).len(),
        handles(steps(batch, n)[step_of(batch, i)], i),
    decreases n,
{
    if i < n - 1 {
        lemma_step_of(batch, i, n - 1);
    }
}

proof fn lemma_lengths(batch: Seq<Command>, i: int, j: int)
    requires
        0 <= i < j < batch.len(),
    ensures
        step_of(batch, i) < step_of(batch, j),
    decreases j,
{
    if i < j - 1 {
        lemma_lengths(batch, i, j - 1);
    }
}

/// What a write is answered, given how the commit went: one that could not be
/// committed is not durable, and is never reported as a success.
pub fn answer(outcome: Result<(), IndexError>, commit: &Result<(), String>) -> (r: Result<
    (),
    IndexError,
>)
    ensures
        match *commit {
            Ok(_) => r == outcome,
            Err(why) => r matches Err(IndexError::Storage(t)) && t@ == why@,
        },
        r is Ok ==> outcome is Ok && *commit is Ok,
{
    match commit {
        Ok(_) => outcome,
        Err(why) => Err(IndexError::Storage(String::from_str(why.as_str()))),
    }
}

/// Every command of a batch is worked off, as what it is.
pub proof fn every_command_is_worked_off(batch: Seq<Command>, i: int)
    requires
        0 <= i < batch.len() <= usize::MAX,
    ensures
        batch_steps(batch).contains(
            match batch[i] {
                Command::Write => WriterStep::Apply(i as usize),
                Command::Checkpoint => WriterStep::Checkpoint(i as usize),
            },
        ),
{
    let n = batch.len() as int;
    lemma_worked_off(batch, i, n);
    let all = batch_steps(batch);
    let p = step_of(batch, i);
    assert(all[p] == steps(batch, n)[p]);
}

proof fn lemma_worked_off(batch: Seq<Command>, i: int, n: int)
    requires
        0 <= i < n <= batch.len(),
    ensures
        0 <= step_of(batch, i) < steps(batch, n).len(),
        steps(batch, n)[step_of(batch, i)] == (match batch[i] {
            Command::Write => WriterStep::Apply(i as usize),
            Command::Checkpoint => WriterStep::Checkpoint(i as usize),
        }),
    decreases n,
{
    if i < n - 1 {
        lemma_worked_off(batch, i, n - 1);
    }
}

} // verus!
