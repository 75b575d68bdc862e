//! The counter itself: a signed eight-bit value with strict overflow
//! detection, an auxiliary per-account record list and a local account
//! identifier.

use vstd::prelude::*;
use vstd::std_specs::cmp::PartialEqSpec;

use crate::codec::{
    byte_of_value, encode_state, le_bytes, le_value, lemma_encode_records_snoc, parse_records,
    parse_state, push_chunk, push_u64_le, read_chunk, read_u64_le, value_of_byte,
};
use crate::state::{
    initial_state, spec_apply_account_input, spec_decrement, spec_increment, spec_record,
    spec_reset, unique_keys, CounterState, COUNTER_MAX, COUNTER_MIN,
};

verus! {

/// The model of an exec record list: each key and message as the byte
/// string it holds.
pub open spec fn records_model(rs: Seq<(Vec<u8>, Vec<u8>)>) -> Seq<(Seq<u8>, Seq<u8>)> {
    rs.map_values(|p: (Vec<u8>, Vec<u8>)| (p.0@, p.1@))
}

/// The one failure the counter can report: an arithmetic step whose
/// result would leave the representable range.
#[derive(Clone, Copy, PartialEq, Eq, Structural, Debug)]
pub struct ArithmeticBoundsViolation;

/// The persistent counter. Holds the bounded value, the per-account
/// records and the local account identifier; account identifiers and
/// messages are carried as byte strings.
pub struct Counter {
    pub(crate) val: i8,
    pub(crate) records: Vec<(Vec<u8>, Vec<u8>)>,
    pub(crate) local_account_id: Vec<u8>,
}

impl View for Counter {
    type V = CounterState;

    closed spec fn view(&self) -> CounterState {
        CounterState {
            value: self.val as int,
            records: records_model(self.records@),
            local_account_id: self.local_account_id@,
        }
    }
}

impl Default for Counter {
    /// A fresh counter: value zero, no records, empty local identifier.
    fn default() -> (c: Counter)
        ensures
            c@ == initial_state(),
            c@.wf(),
    {
        let c = Counter { val: 0, records: Vec::new(), local_account_id: Vec::new() };
        proof {
            assert(c@.records =~= initial_state().records);
            assert(c@.local_account_id =~= initial_state().local_account_id);
        }
        c
    }
}

/// Scans a record list for a key. Returns the first position holding
/// it, or nothing when no record carries it.
fn find_record_index(records: &Vec<(Vec<u8>, Vec<u8>)>, key: &Vec<u8>) -> (r: Option<usize>)
    ensures
        match r {
            Some(i) => {
                &&& i < records@.len()
                &&& records@[i as int].0@ == key@
                &&& forall|j: int| 0 <= j < i ==> records@[j].0@ != key@
            },
            None => forall|j: int| 0 <= j < records@.len() ==> records@[j].0@ != key@,
        },
{
    let n = records.len();
    let mut i: usize = 0;
    while i < n
        invariant
            i <= n,
            n == records@.len(),
            forall|j: int| 0 <= j < i ==> records@[j].0@ != key@,
        decreases n - i,
    {
        if records[i].0 == *key {
            proof {
                assert(records@[i as int].0@ =~= key@);
            }
            return Some(i);
        }
        proof {
            if records@[i as int].0@ == key@ {
                assert(records@[i as int].0.eq_spec(key));
            }
        }
        i = i + 1;
    }
    None
}

/// Checks that no two records carry the same key.
fn keys_unique_check(records: &Vec<(Vec<u8>, Vec<u8>)>) -> (r: bool)
    ensures
        r == unique_keys(records_model(records@)),
{
    let n = records.len();
    let mut i: usize = 0;
    while i < n
        invariant
            i <= n,
            n == records@.len(),
            forall|a: int, b: int| 0 <= a < b < i ==> records@[a].0@ != records@[b].0@,
        decreases n - i,
    {
        let mut j: usize = 0;
        while j < i
            invariant
                j <= i,
                i < n,
                n == records@.len(),
                forall|a: int, b: int| 0 <= a < b < i ==> records@[a].0@ != records@[b].0@,
                forall|a: int| 0 <= a < j ==> records@[a].0@ != records@[i as int].0@,
            decreases i - j,
        {
            if records[j].0 == records[i].0 {
                proof {
                    assert(records@[j as int].0@ =~= records@[i as int].0@);
                    assert(records_model(records@)[j as int].0 == records_model(
                        records@,
                    )[i as int].0);
                    assert(!unique_keys(records_model(records@)));
                }
                return false;
            }
            proof {
                if records@[j as int].0@ == records@[i as int].0@ {
                    assert(records@[j as int].0.eq_spec(&records@[i as int].0));
                }
            }
            j = j + 1;
        }
        i = i + 1;
    }
    proof {
        assert forall|a: int, b: int|
            0 <= a < b < records_model(records@).len() implies records_model(records@)[a].0
            != records_model(records@)[b].0 by {
            assert(records@[a].0@ != records@[b].0@);
        }
    }
    true
}

impl Counter {
    /// Returns the counter value. Never fails and changes nothing.
    pub fn get_num(&self) -> (r: i8)
        ensures
            r as int == self@.value,
    {
        self.val
    }

    /// Moves the counter up by one. The caller must know the value is
    /// below [`COUNTER_MAX`]; the call cannot fail.
    pub fn increment(&mut self)
        requires
            old(self)@.value < COUNTER_MAX as int,
        ensures
            final(self)@ == spec_increment(old(self)@),
    {
        self.val = self.val + 1;
    }

    /// Moves the counter down by one. The caller must know the value
    /// is above [`COUNTER_MIN`]; the call cannot fail.
    pub fn decrement(&mut self)
        requires
            old(self)@.value > COUNTER_MIN as int,
        ensures
            final(self)@ == spec_decrement(old(self)@),
    {
        self.val = self.val - 1;
    }

    /// Moves the counter up by one, or reports the bounds violation
    /// and leaves the whole state untouched when the value already
    /// sits at [`COUNTER_MAX`].
    pub fn try_increment(&mut self) -> (r: Result<(), ArithmeticBoundsViolation>)
        ensures
            r is Ok <==> old(self)@.value < COUNTER_MAX as int,
            r is Ok ==> final(self)@ == spec_increment(old(self)@),
            r is Err ==> final(self)@ == old(self)@,
    {
        if self.val < COUNTER_MAX {
            self.val = self.val + 1;
            Ok(())
        } else {
            Err(ArithmeticBoundsViolation)
        }
    }

    /// Moves the counter down by one, or reports the bounds violation
    /// and leaves the whole state untouched when the value already
    /// sits at [`COUNTER_MIN`].
    pub fn try_decrement(&mut self) -> (r: Result<(), ArithmeticBoundsViolation>)
        ensures
            r is Ok <==> old(self)@.value > COUNTER_MIN as int,
            r is Ok ==> final(self)@ == spec_decrement(old(self)@),
            r is Err ==> final(self)@ == old(self)@,
    {
        if self.val > COUNTER_MIN {
            self.val = self.val - 1;
            Ok(())
        } else {
            Err(ArithmeticBoundsViolation)
        }
    }

    /// Sets the counter back to zero. Never fails, whatever the prior
    /// state; records and identifier are left as they are.
    pub fn reset(&mut self)
        ensures
            final(self)@ == spec_reset(old(self)@),
    {
        self.val = 0;
    }

    /// Files a message under an account key: an existing record with
    /// that key is overwritten, otherwise a record is appended.
    pub fn record_message(&mut self, account_id: Vec<u8>, message: Vec<u8>)
        requires
            old(self)@.wf(),
        ensures
            final(self)@.wf(),
            final(self)@ == spec_record(old(self)@, account_id@, message@),
            crate::state::has_key(final(self)@.records, account_id@),
    {
        let found = find_record_index(&self.records, &account_id);
        match found {
            Some(i) => {
                self.records[i] = (account_id, message);
                proof {
                    crate::state::lemma_insert_record_found(
                        old(self)@.records,
                        account_id@,
                        message@,
                        i as int,
                    );
                    assert(self@.records =~= old(self)@.records.update(
                        i as int,
                        (account_id@, message@),
                    ));
                    let m = self@.records;
                    let oldm = old(self)@.records;
                    assert(oldm[i as int] == (
                        old(self).records@[i as int].0@,
                        old(self).records@[i as int].1@,
                    ));
                    assert forall|a: int, b: int| 0 <= a < b < m.len() implies m[a].0 != m[b].0 by {
                        assert(oldm[a] == (
                            old(self).records@[a].0@,
                            old(self).records@[a].1@,
                        ));
                        assert(oldm[b] == (
                            old(self).records@[b].0@,
                            old(self).records@[b].1@,
                        ));
                        assert(oldm[a].0 != oldm[b].0);
                    }
                    assert(unique_keys(self@.records));
                    assert(m[i as int].0 == account_id@);
                }
            },
            None => {
                self.records.push((account_id, message));
                proof {
                    assert(!crate::state::has_key(old(self)@.records, account_id@));
                    crate::state::lemma_insert_record_absent(
                        old(self)@.records,
                        account_id@,
                        message@,
                    );
                    assert(self@.records =~= old(self)@.records.push((account_id@, message@)));
                    let m = self@.records;
                    let oldm = old(self)@.records;
                    assert forall|a: int, b: int| 0 <= a < b < m.len() implies m[a].0 != m[b].0 by {
                        assert(oldm[a] == (
                            old(self).records@[a].0@,
                            old(self).records@[a].1@,
                        ));
                        if b < oldm.len() {
                            assert(oldm[b] == (
                                old(self).records@[b].0@,
                                old(self).records@[b].1@,
                            ));
                            assert(oldm[a].0 != oldm[b].0);
                        } else {
                            assert(m[b] == (account_id@, message@));
                            assert(old(self).records@[a].0@ != account_id@);
                        }
                    }
                    assert(unique_keys(self@.records));
                    assert(m[m.len() - 1].0 == account_id@);
                }
            },
        }
    }

    /// The computing core of the account-id routine: prepends the
    /// input line to the local account identifier, files the message
    /// under the account key, and reports whether the resulting local
    /// identifier is non-empty.
    pub fn apply_account_input(
        &mut self,
        input_line: Vec<u8>,
        account_id: Vec<u8>,
        message: Vec<u8>,
    ) -> (accepted: bool)
        requires
            old(self)@.wf(),
        ensures
            final(self)@.wf(),
            final(self)@ == spec_apply_account_input(
                old(self)@,
                input_line@,
                account_id@,
                message@,
            ),
            accepted == (final(self)@.local_account_id.len() > 0),
            crate::state::has_key(final(self)@.records, account_id@),
    {
        let mut new_id = input_line;
        new_id.append(&mut self.local_account_id);
        self.local_account_id = new_id;
        self.record_message(account_id, message);
        !self.local_account_id.is_empty()
    }

    /// Builds a counter from its parts, when the record keys are
    /// pairwise distinct; reports the duplicate otherwise.
    pub fn from_parts(
        val: i8,
        records: Vec<(Vec<u8>, Vec<u8>)>,
        local_account_id: Vec<u8>,
    ) -> (r: Option<Counter>)
        ensures
            match r {
                Some(c) => {
                    &&& c@.wf()
                    &&& c@ == (CounterState {
                        value: val as int,
                        records: records_model(records@),
                        local_account_id: local_account_id@,
                    })
                },
                None => !unique_keys(records_model(records@)),
            },
    {
        if keys_unique_check(&records) {
            Some(Counter { val, records, local_account_id })
        } else {
            None
        }
    }

    /// Takes the counter apart into its value, records and local
    /// identifier.
    pub fn into_parts(self) -> (parts: (i8, Vec<(Vec<u8>, Vec<u8>)>, Vec<u8>))
        ensures
            parts.0 as int == self@.value,
            records_model(parts.1@) == self@.records,
            parts.2@ == self@.local_account_id,
    {
        (self.val, self.records, self.local_account_id)
    }

    /// Lays the whole state out as bytes, in the persisted record
    /// layout.
    pub fn to_bytes(&self) -> (out: Vec<u8>)
        ensures
            out@ == encode_state(self@),
    {
        let mut out: Vec<u8> = Vec::new();
        let b: u8 = if self.val >= 0 {
            self.val as u8
        } else {
            ((self.val as i16) + 256) as u8
        };
        out.push(b);
        proof {
            assert(b == byte_of_value(self@.value));
            assert(out@ =~= seq![byte_of_value(self@.value)]);
        }
        push_u64_le(&mut out, self.records.len() as u64);
        let n = self.records.len();
        proof {
            assert(self@.records.take(0) =~= Seq::<(Seq<u8>, Seq<u8>)>::empty());
            assert(out@ =~= seq![byte_of_value(self@.value)] + le_bytes(self@.records.len(), 8)
                + crate::codec::encode_records(self@.records.take(0)));
        }
        let mut i: usize = 0;
        while i < n
            invariant
                i <= n,
                n == self.records@.len(),
                out@ == seq![byte_of_value(self@.value)] + le_bytes(self@.records.len(), 8)
                    + crate::codec::encode_records(self@.records.take(i as int)),
            decreases n - i,
        {
            push_chunk(&mut out, &self.records[i].0);
            push_chunk(&mut out, &self.records[i].1);
            proof {
                assert(self@.records[i as int] == (
                    self.records@[i as int].0@,
                    self.records@[i as int].1@,
                ));
                lemma_encode_records_snoc(self@.records.take(i as int), self@.records[i as int]);
                assert(self@.records.take(i as int + 1) =~= self@.records.take(i as int).push(
                    self@.records[i as int],
                ));
                assert(out@ =~= seq![byte_of_value(self@.value)] + le_bytes(
                    self@.records.len(),
                    8,
                ) + crate::codec::encode_records(self@.records.take(i as int + 1)));
            }
            i = i + 1;
        }
        push_chunk(&mut out, &self.local_account_id);
        proof {
            assert(self@.records.take(n as int) =~= self@.records);
            assert(out@ =~= encode_state(self@));
        }
        out
    }

    /// Reads a persisted record back. Yields the counter it lays out,
    /// or nothing when the bytes are not such a record.
    pub fn from_bytes(bytes: &Vec<u8>) -> (r: Option<Counter>)
        ensures
            match parse_state(bytes@) {
                Some(s) => r matches Some(c) && c@ == s && c@.wf(),
                None => r is None,
            },
    {
        if bytes.len() < 9 {
            return None;
        }
        let b0 = bytes[0];
        let v: i8 = if b0 < 128 {
            b0 as i8
        } else {
            ((b0 as i16) - 256) as i8
        };
        let k64 = read_u64_le(bytes, 1);
        proof {
            assert(bytes@.subrange(1, 9) == bytes@.subrange(1 as int, 1 as int + 8));
            assert(v as int == value_of_byte(bytes@[0]));
        }
        let mut recs: Vec<(Vec<u8>, Vec<u8>)> = Vec::new();
        let mut pos: usize = 9;
        let mut j: u64 = 0;
        proof {
            assert(records_model(recs@) =~= Seq::<(Seq<u8>, Seq<u8>)>::empty());
            assert(records_model(recs@) + Seq::<(Seq<u8>, Seq<u8>)>::empty() =~= records_model(
                recs@,
            ));
        }
        while j < k64
            invariant
                j <= k64,
                9 <= pos <= bytes@.len(),
                bytes@.len() >= 9,
                k64 as nat == le_value(bytes@.subrange(1, 9)),
                parse_records(bytes@.skip(9), k64 as nat) == (match parse_records(
                    bytes@.skip(pos as int),
                    (k64 - j) as nat,
                ) {
                    Option::None => Option::<(Seq<(Seq<u8>, Seq<u8>)>, Seq<u8>)>::None,
                    Option::Some((more, rest)) => Option::Some((
                        records_model(recs@) + more,
                        rest,
                    )),
                }),
            decreases k64 - j,
        {
            let kr = read_chunk(bytes, pos);
            let key: Vec<u8>;
            let pos2: usize;
            match kr {
                Some(p) => {
                    key = p.0;
                    pos2 = p.1;
                },
                None => {
                    proof {
                        assert(parse_records(bytes@.skip(pos as int), (k64 - j) as nat) is None);
                        assert(parse_state(bytes@) is None);
                    }
                    return None;
                },
            }
            let mr = read_chunk(bytes, pos2);
            let msg: Vec<u8>;
            let pos3: usize;
            match mr {
                Some(p) => {
                    msg = p.0;
                    pos3 = p.1;
                },
                None => {
                    proof {
                        assert(parse_records(bytes@.skip(pos as int), (k64 - j) as nat) is None);
                        assert(parse_state(bytes@) is None);
                    }
                    return None;
                },
            }
            let ghost prev = records_model(recs@);
            let ghost key_view = key@;
            let ghost msg_view = msg@;
            recs.push((key, msg));
            proof {
                assert(records_model(recs@) =~= prev.push((key_view, msg_view)));
                match parse_records(bytes@.skip(pos3 as int), (k64 - j - 1) as nat) {
                    Option::None => {
                        assert(parse_records(bytes@.skip(pos as int), (k64 - j) as nat) is None);
                    },
                    Option::Some(pr) => {
                        assert(parse_records(bytes@.skip(pos as int), (k64 - j) as nat) == Some((
                            seq![(key_view, msg_view)] + pr.0,
                            pr.1,
                        )));
                        assert(prev + (seq![(key_view, msg_view)] + pr.0) =~= records_model(recs@)
                            + pr.0);
                    },
                }
            }
            pos = pos3;
            j = j + 1;
        }
        proof {
            assert(parse_records(bytes@.skip(pos as int), 0) == Some((
                Seq::<(Seq<u8>, Seq<u8>)>::empty(),
                bytes@.skip(pos as int),
            )));
            assert(records_model(recs@) + Seq::<(Seq<u8>, Seq<u8>)>::empty() =~= records_model(
                recs@,
            ));
        }
        let lr = read_chunk(bytes, pos);
        let lid: Vec<u8>;
        let pos4: usize;
        match lr {
            Some(p) => {
                lid = p.0;
                pos4 = p.1;
            },
            None => {
                proof {
                    assert(parse_state(bytes@) is None);
                }
                return None;
            },
        }
        if pos4 != bytes.len() {
            proof {
                assert(bytes@.skip(pos4 as int).len() > 0);
                assert(parse_state(bytes@) is None);
            }
            return None;
        }
        if !keys_unique_check(&recs) {
            proof {
                assert(parse_state(bytes@) is None);
            }
            return None;
        }
        let c = Counter { val: v, records: recs, local_account_id: lid };
        proof {
            assert(bytes@.skip(pos4 as int) =~= Seq::<u8>::empty());
            assert(parse_state(bytes@) == Some(c@));
        }
        Some(c)
    }
}

} // verus!
