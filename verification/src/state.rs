//! Abstract model of the persisted contract state and the laws that
//! the counter operations obey.

use vstd::prelude::*;

verus! {

/// Least value the counter can hold.
pub const COUNTER_MIN: i8 = -128;

/// Greatest value the counter can hold.
pub const COUNTER_MAX: i8 = 127;

/// Whether a mathematical integer lies in the counter's representable
/// range.
pub open spec fn in_range(v: int) -> bool {
    COUNTER_MIN as int <= v <= COUNTER_MAX as int
}

/// Abstract model of the persisted state: the counter value as a
/// mathematical integer, the per-account records as a sequence of
/// key/value byte strings, and the local account identifier.
pub ghost struct CounterState {
    pub value: int,
    pub records: Seq<(Seq<u8>, Seq<u8>)>,
    pub local_account_id: Seq<u8>,
}

/// The record keys are pairwise distinct.
pub open spec fn unique_keys(records: Seq<(Seq<u8>, Seq<u8>)>) -> bool {
    forall|i: int, j: int| 0 <= i < j < records.len() ==> records[i].0 != records[j].0
}

/// Whether some record carries the given key.
pub open spec fn has_key(records: Seq<(Seq<u8>, Seq<u8>)>, key: Seq<u8>) -> bool {
    exists|i: int| 0 <= i < records.len() && records[i].0 == key
}

impl CounterState {
    /// The value is representable in eight signed bits and the record
    /// keys are pairwise distinct.
    pub open spec fn wf(self) -> bool {
        &&& in_range(self.value)
        &&& unique_keys(self.records)
    }

    /// The same state with another counter value.
    pub open spec fn with_value(self, v: int) -> CounterState {
        CounterState { value: v, ..self }
    }
}

/// The state a counter holds when it is first created.
pub open spec fn initial_state() -> CounterState {
    CounterState { value: 0, records: Seq::empty(), local_account_id: Seq::empty() }
}

/// What one successful increment does to the state.
pub open spec fn spec_increment(s: CounterState) -> CounterState {
    s.with_value(s.value + 1)
}

/// What one successful decrement does to the state.
pub open spec fn spec_decrement(s: CounterState) -> CounterState {
    s.with_value(s.value - 1)
}

/// What a reset does to the state.
pub open spec fn spec_reset(s: CounterState) -> CounterState {
    s.with_value(0)
}

/// The record list after a message is filed under a key: an existing
/// record with that key is replaced in place, otherwise a new record
/// is appended.
pub open spec fn insert_record(
    records: Seq<(Seq<u8>, Seq<u8>)>,
    key: Seq<u8>,
    msg: Seq<u8>,
) -> Seq<(Seq<u8>, Seq<u8>)>
    decreases records.len(),
{
    if records.len() == 0 {
        seq![(key, msg)]
    } else if records[0].0 == key {
        seq![(key, msg)] + records.drop_first()
    } else {
        seq![records[0]] + insert_record(records.drop_first(), key, msg)
    }
}

/// What filing a message does to the state: only the record list
/// moves.
pub open spec fn spec_record(s: CounterState, key: Seq<u8>, msg: Seq<u8>) -> CounterState {
    CounterState { records: insert_record(s.records, key, msg), ..s }
}

/// What the account-input step does to the state: the input line is
/// prepended to the local account identifier and the message is filed
/// under the account key.
pub open spec fn spec_apply_account_input(
    s: CounterState,
    input_line: Seq<u8>,
    key: Seq<u8>,
    msg: Seq<u8>,
) -> CounterState {
    CounterState {
        value: s.value,
        records: insert_record(s.records, key, msg),
        local_account_id: input_line + s.local_account_id,
    }
}

/// When the key already sits at position `i` of a record list with
/// distinct keys, filing under it replaces that one entry.
pub proof fn lemma_insert_record_found(
    records: Seq<(Seq<u8>, Seq<u8>)>,
    key: Seq<u8>,
    msg: Seq<u8>,
    i: int,
)
    requires
        0 <= i < records.len(),
        records[i].0 == key,
        forall|j: int| 0 <= j < i ==> records[j].0 != key,
    ensures
        insert_record(records, key, msg) == records.update(i, (key, msg)),
    decreases i,
{
    if i == 0 {
        assert(insert_record(records, key, msg) =~= records.update(0, (key, msg)));
    } else {
        lemma_insert_record_found(records.drop_first(), key, msg, i - 1);
        assert(seq![records[0]] + records.drop_first().update(i - 1, (key, msg))
            =~= records.update(i, (key, msg)));
    }
}

/// When the key is absent, filing under it appends one record.
pub proof fn lemma_insert_record_absent(records: Seq<(Seq<u8>, Seq<u8>)>, key: Seq<u8>, msg: Seq<u8>)
    requires
        !has_key(records, key),
    ensures
        insert_record(records, key, msg) == records.push((key, msg)),
    decreases records.len(),
{
    if records.len() == 0 {
        assert(insert_record(records, key, msg) =~= records.push((key, msg)));
    } else {
        assert(records[0].0 != key);
        assert(!has_key(records.drop_first(), key)) by {
            assert(forall|j: int|
                0 <= j < records.drop_first().len() ==> records.drop_first()[j] == records[j + 1]);
        }
        lemma_insert_record_absent(records.drop_first(), key, msg);
        assert(seq![records[0]] + records.drop_first().push((key, msg))
            =~= records.push((key, msg)));
    }
}

/// One step of a run: which of the two moving operations is taken.
pub enum CounterOp {
    Increment,
    Decrement,
}

/// What one step does to the state.
pub open spec fn op_apply(s: CounterState, op: CounterOp) -> CounterState {
    match op {
        CounterOp::Increment => spec_increment(s),
        CounterOp::Decrement => spec_decrement(s),
    }
}

/// The state after a whole run of steps.
pub open spec fn run_ops(s: CounterState, ops: Seq<CounterOp>) -> CounterState
    decreases ops.len(),
{
    if ops.len() == 0 {
        s
    } else {
        op_apply(run_ops(s, ops.drop_last()), ops.last())
    }
}

/// The algebraic sum of a run's steps: plus one for an increment,
/// minus one for a decrement.
pub open spec fn signed_step_sum(ops: Seq<CounterOp>) -> int
    decreases ops.len(),
{
    if ops.len() == 0 {
        0
    } else {
        signed_step_sum(ops.drop_last()) + match ops.last() {
            CounterOp::Increment => 1,
            CounterOp::Decrement => -1,
        }
    }
}

/// Law: a run of increments and decrements that keeps the running
/// value inside the representable range leaves the counter at the
/// algebraic sum of its steps, started from zero.
pub proof fn lemma_value_tracks_signed_sum(ops: Seq<CounterOp>)
    requires
        forall|i: int|
            0 <= i <= ops.len() ==> in_range(
                #[trigger] run_ops(initial_state(), ops.take(i)).value,
            ),
    ensures
        run_ops(initial_state(), ops).value == signed_step_sum(ops),
    decreases ops.len(),
{
    if ops.len() > 0 {
        let prefix = ops.drop_last();
        assert forall|i: int|
            0 <= i <= prefix.len() implies in_range(
            #[trigger] run_ops(initial_state(), prefix.take(i)).value,
        ) by {
            assert(prefix.take(i) =~= ops.take(i));
        }
        lemma_value_tracks_signed_sum(prefix);
    }
}

/// Law: a reset always yields value zero, whatever the prior state,
/// and resetting again changes nothing more.
pub proof fn lemma_reset_idempotent(s: CounterState)
    ensures
        spec_reset(s).value == 0,
        spec_reset(spec_reset(s)) == spec_reset(s),
{
}

} // verus!
