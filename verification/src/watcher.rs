use vstd::prelude::*;

verus! {

/// One decoded task-request event: the value to work on and the block the
/// event was observed at.
#[derive(Clone, Copy, PartialEq, Eq, Structural, Debug)]
pub struct TaskEvent {
    pub value: u128,
    pub block_number: u64,
}

/// Where the next poll starts after a batch: the old checkpoint pushed past
/// every event block seen, one block at a time.
pub open spec fn advance_checkpoint(checkpoint: u64, events: Seq<TaskEvent>) -> int
    decreases events.len(),
{
    if events.len() == 0 {
        checkpoint as int
    } else {
        let p = advance_checkpoint(checkpoint, events.drop_last());
        if events.last().block_number + 1 > p {
            events.last().block_number + 1
        } else {
            p
        }
    }
}

/// The advanced checkpoint never falls back, clears every event seen, and is
/// nothing but the old checkpoint or one past some event's block.
pub proof fn lemma_advance_checkpoint_properties(checkpoint: u64, events: Seq<TaskEvent>)
    ensures
        advance_checkpoint(checkpoint, events) >= checkpoint,
        forall|i: int|
            0 <= i < events.len() ==> #[trigger] events[i].block_number < advance_checkpoint(
                checkpoint,
                events,
            ),
        advance_checkpoint(checkpoint, events) == checkpoint || exists|i: int|
            0 <= i < events.len() && advance_checkpoint(checkpoint, events) == #[trigger] events[i].block_number
                + 1,
    decreases events.len(),
{
    if events.len() > 0 {
        lemma_advance_checkpoint_properties(checkpoint, events.drop_last());
        let p = advance_checkpoint(checkpoint, events.drop_last());
        let r = advance_checkpoint(checkpoint, events);
        assert forall|i: int|
            0 <= i < events.len() implies #[trigger] events[i].block_number < r by {
            if i < events.len() - 1 {
                assert(events.drop_last()[i] == events[i]);
            }
        }
        if r != checkpoint {
            if events.last().block_number + 1 > p {
                assert(r == events[events.len() - 1].block_number + 1);
            } else {
                let i = choose|i: int|
                    0 <= i < events.drop_last().len() && p == #[trigger] events.drop_last()[i].block_number
                        + 1;
                assert(r == events[i].block_number + 1);
            }
        }
    }
}

/// Computes the checkpoint to persist after a batch of events, whatever came
/// of each event's aggregation or submission: the maximum of the old
/// checkpoint and one past the highest event block seen.
pub fn next_checkpoint(checkpoint: u64, events: &Vec<TaskEvent>) -> (r: u64)
    requires
        forall|i: int| 0 <= i < events@.len() ==> #[trigger] events@[i].block_number < u64::MAX,
    ensures
        r == advance_checkpoint(checkpoint, events@),
        r >= checkpoint,
        forall|i: int| 0 <= i < events@.len() ==> #[trigger] events@[i].block_number < r,
{
    let n = events.len();
    let mut m: u64 = checkpoint;
    let mut k: usize = 0;
    while k < n
        invariant
            n == events@.len(),
            k <= n,
            forall|i: int| 0 <= i < n ==> #[trigger] events@[i].block_number < u64::MAX,
            m == advance_checkpoint(checkpoint, events@.take(k as int)),
        decreases n - k,
    {
        proof {
            assert(events@.take(k as int + 1).drop_last() =~= events@.take(k as int));
            assert(events@.take(k as int + 1).last() == events@[k as int]);
        }
        let b = events[k].block_number;
        if b + 1 > m {
            m = b + 1;
        }
        k = k + 1;
    }
    proof {
        assert(events@.take(n as int) =~= events@);
        lemma_advance_checkpoint_properties(checkpoint, events@);
    }
    m
}

} // verus!
