//! The sampler: what happens on every timer event of every processor.
//!
//! The sampler asks for the identifier of the stack that is running, in a
//! capture mode that depends on who is running, and counts the identifier in
//! the aggregation map. The map keeps one count for each stack and each
//! processor; a processor only ever touches its own counts, so the counting
//! needs no lock.

use vstd::prelude::*;
use crate::counts::{lemma_sum_update, lemma_sum_zero, sum};

verus! {

/// Capture flag: walk the user-space stack instead of the kernel stack.
pub const USER_STACK: u64 = 0x100;

/// Capture flag: tell stacks apart by their hash alone.
pub const FAST_STACK_COMPARE: u64 = 0x200;

/// Capture flag: where two stacks meet in one slot, give the slot to the new
/// one.
pub const REUSE_STACK_ID: u64 = 0x400;

/// The process identifier under which the kernel's own threads are sampled.
pub const KERNEL_CONTEXT: u32 = 0;

/// The flags with which the stack of the context `pid` is captured: the
/// kernel stack for the kernel's own context, the user-space stack for any
/// other. Either way stacks are told apart by hash and identifiers are reused,
/// so that a stack that was seen before gets the identifier it had.
pub open spec fn capture_flags(pid: u32) -> u64 {
    if pid == KERNEL_CONTEXT {
        FAST_STACK_COMPARE | REUSE_STACK_ID
    } else {
        USER_STACK | FAST_STACK_COMPARE | REUSE_STACK_ID
    }
}

/// A capture with these flags walks the user-space stack.
pub open spec fn captures_user_stack(flags: u64) -> bool {
    flags & USER_STACK != 0
}

/// Chooses the flags with which the stack of the context `pid` is captured.
pub fn stack_flags(pid: u32) -> (flags: u64)
    ensures
        flags == capture_flags(pid),
        pid == KERNEL_CONTEXT ==> flags == 0x600,
        pid != KERNEL_CONTEXT ==> flags == 0x700,
        captures_user_stack(flags) <==> pid != KERNEL_CONTEXT,
        flags & FAST_STACK_COMPARE != 0,
        flags & REUSE_STACK_ID != 0,
{
    assert(0x200u64 | 0x400u64 == 0x600u64) by (bit_vector);
    assert(0x100u64 | 0x200u64 | 0x400u64 == 0x700u64) by (bit_vector);
    assert(0x600u64 & 0x100u64 == 0) by (bit_vector);
    assert(0x700u64 & 0x100u64 != 0) by (bit_vector);
    assert(0x600u64 & 0x200u64 != 0 && 0x600u64 & 0x400u64 != 0) by (bit_vector);
    assert(0x700u64 & 0x200u64 != 0 && 0x700u64 & 0x400u64 != 0) by (bit_vector);
    if pid == KERNEL_CONTEXT {
        FAST_STACK_COMPARE | REUSE_STACK_ID
    } else {
        USER_STACK | FAST_STACK_COMPARE | REUSE_STACK_ID
    }
}

/// What a processor's count of a stack is after one more sample: one for a
/// stack that it had no count for. There is none where the count is already
/// as high as a `u64` goes.
pub open spec fn count_after(current: Option<u64>) -> Option<u64> {
    match current {
        None => Some(1u64),
        Some(n) => if n < u64::MAX {
            Some((n + 1) as u64)
        } else {
            None
        },
    }
}

/// Counts one more sample: gives what a processor's count of a stack becomes,
/// from what it is. `current` is `None` for a stack that the processor has no
/// count for.
pub fn next_count(current: Option<u64>) -> (next: Option<u64>)
    ensures
        next == count_after(current),
{
    match current {
        None => Some(1),
        Some(n) => n.checked_add(1),
    }
}

/// The counts of one stack: how often each processor sampled it.
#[derive(Clone, Debug, PartialEq, Eq)]
pub struct StackCounts {
    pub stack_id: i64,
    pub values: Vec<u64>,
}

/// The aggregation map: a count for each stack and each processor.
///
/// The map holds one entry for each stack that was counted, in the order in
/// which the stacks were first counted, and in each entry one count for each
/// processor.
pub struct AggregationMap {
    processors: usize,
    rows: Vec<StackCounts>,
}

/// The views of entries: each an identifier and the counts of the
/// processors.
pub open spec fn rows_view(rows: Seq<StackCounts>) -> Seq<(i64, Seq<u64>)> {
    Seq::new(rows.len(), |i: int| (rows[i].stack_id, rows[i].values@))
}

/// Some entry is that of the stack `stack_id`.
pub open spec fn has_stack(rows: Seq<(i64, Seq<u64>)>, stack_id: i64) -> bool {
    exists|i: int| 0 <= i < rows.len() && rows[i].0 == stack_id
}

/// The position of the entry of the stack `stack_id`.
pub open spec fn stack_index(rows: Seq<(i64, Seq<u64>)>, stack_id: i64) -> int {
    choose|i: int| 0 <= i < rows.len() && rows[i].0 == stack_id
}

/// No two entries are of the same stack, and every entry has one count for
/// each of the processors.
pub open spec fn well_formed(rows: Seq<(i64, Seq<u64>)>, processors: nat) -> bool {
    &&& forall|i: int, j: int| 0 <= i < j < rows.len() ==> rows[i].0 != rows[j].0
    &&& forall|i: int| 0 <= i < rows.len() ==> (#[trigger] rows[i]).1.len() == processors
}

/// How often `processor` counted the stack `stack_id`; zero for a stack
/// without an entry.
pub open spec fn count(rows: Seq<(i64, Seq<u64>)>, processor: int, stack_id: i64) -> nat {
    if has_stack(rows, stack_id) && 0 <= processor < rows[stack_index(rows, stack_id)].1.len() {
        rows[stack_index(rows, stack_id)].1[processor] as nat
    } else {
        0
    }
}

/// How many samples were counted in all: the sum of all counts of all
/// processors.
pub open spec fn samples_counted(rows: Seq<(i64, Seq<u64>)>) -> nat
    decreases rows.len(),
{
    if rows.len() == 0 {
        0
    } else {
        samples_counted(rows.drop_last()) + sum(rows.last().1)
    }
}

/// The counts of a stack that `processor` has sampled once and no other
/// processor has sampled.
pub open spec fn first_sample(processors: nat, processor: int) -> Seq<u64> {
    Seq::new(
        processors,
        |i: int|
            if i == processor {
                1u64
            } else {
                0u64
            },
    )
}

/// The entries after `processor` has counted the stack `stack_id` once more:
/// its count in the entry of that stack is one higher, or a new last entry
/// holds its first sample of the stack.
pub open spec fn recorded(
    rows: Seq<(i64, Seq<u64>)>,
    processors: nat,
    processor: int,
    stack_id: i64,
) -> Seq<(i64, Seq<u64>)> {
    if has_stack(rows, stack_id) {
        let i = stack_index(rows, stack_id);
        rows.update(i, (stack_id, rows[i].1.update(processor, (rows[i].1[processor] + 1) as u64)))
    } else {
        rows.push((stack_id, first_sample(processors, processor)))
    }
}

proof fn lemma_stack_at(rows: Seq<(i64, Seq<u64>)>, processors: nat, i: int)
    requires
        well_formed(rows, processors),
        0 <= i < rows.len(),
    ensures
        has_stack(rows, rows[i].0),
        stack_index(rows, rows[i].0) == i,
{
    let j = stack_index(rows, rows[i].0);
    if j < i {
        assert(rows[j].0 != rows[i].0);
    } else if i < j {
        assert(rows[i].0 != rows[j].0);
    }
}

proof fn lemma_counted_update(rows: Seq<(i64, Seq<u64>)>, i: int, row: (i64, Seq<u64>))
    requires
        0 <= i < rows.len(),
    ensures
        samples_counted(rows.update(i, row)) + sum(rows[i].1) == samples_counted(rows) + sum(
            row.1,
        ),
    decreases rows.len(),
{
    let changed = rows.update(i, row);
    if i == rows.len() - 1 {
        assert(changed.drop_last() =~= rows.drop_last());
    } else {
        lemma_counted_update(rows.drop_last(), i, row);
        assert(changed.drop_last() =~= rows.drop_last().update(i, row));
    }
}

proof fn lemma_first_sample(processors: nat, processor: int)
    requires
        0 <= processor < processors,
    ensures
        sum(first_sample(processors, processor)) == 1,
{
    let zeros = Seq::new(processors, |i: int| 0u64);
    lemma_sum_zero(zeros);
    lemma_sum_update(zeros, processor, 1);
    assert(zeros.update(processor, 1) =~= first_sample(processors, processor));
}

/// What counting one more sample does to a well-formed map: the map stays
/// well formed and holds one sample more, which is `processor`'s sample of
/// the stack `stack_id`; every other count, of any processor for any stack, is
/// what it was.
pub proof fn lemma_recorded(
    rows: Seq<(i64, Seq<u64>)>,
    processors: nat,
    processor: int,
    stack_id: i64,
)
    requires
        well_formed(rows, processors),
        0 <= processor < processors,
        count(rows, processor, stack_id) < u64::MAX,
    ensures
        well_formed(recorded(rows, processors, processor, stack_id), processors),
        samples_counted(recorded(rows, processors, processor, stack_id)) == samples_counted(
            rows,
        ) + 1,
        count(recorded(rows, processors, processor, stack_id), processor, stack_id) == count(
            rows,
            processor,
            stack_id,
        ) + 1,
        forall|other: int, id: i64|
            other != processor || id != stack_id ==> count(
                recorded(rows, processors, processor, stack_id),
                other,
                id,
            ) == count(rows, other, id),
        forall|id: i64|
            has_stack(recorded(rows, processors, processor, stack_id), id) <==> (id == stack_id
                || has_stack(rows, id)),
{
    let after = recorded(rows, processors, processor, stack_id);
    if has_stack(rows, stack_id) {
        let i = stack_index(rows, stack_id);
        let values = rows[i].1;
        let bumped = values.update(processor, (values[processor] + 1) as u64);
        assert(after == rows.update(i, (stack_id, bumped)));
        assert(forall|j: int| 0 <= j < after.len() ==> (#[trigger] after[j]).0 == rows[j].0);
        assert(well_formed(after, processors)) by {
            assert forall|j: int| 0 <= j < after.len() implies (#[trigger] after[j]).1.len()
                == processors by {
                if j != i {
                    assert(after[j] == rows[j]);
                }
            }
        }
        lemma_counted_update(rows, i, (stack_id, bumped));
        lemma_sum_update(values, processor, (values[processor] + 1) as u64);
        lemma_stack_at(after, processors, i);
        assert forall|id: i64| has_stack(after, id) <==> (id == stack_id || has_stack(
            rows,
            id,
        )) by {
            if has_stack(after, id) {
                let j = stack_index(after, id);
                assert(rows[j].0 == id);
            }
            if has_stack(rows, id) {
                let j = stack_index(rows, id);
                assert(after[j].0 == id);
            }
        }
        assert forall|other: int, id: i64| other != processor || id != stack_id implies count(
            after,
            other,
            id,
        ) == count(rows, other, id) by {
            if has_stack(rows, id) {
                let j = stack_index(rows, id);
                lemma_stack_at(rows, processors, j);
                assert(after[j].0 == id);
                lemma_stack_at(after, processors, j);
                if j != i {
                    assert(after[j] == rows[j]);
                }
            }
        }
    } else {
        let fresh = first_sample(processors, processor);
        assert(after == rows.push((stack_id, fresh)));
        assert(after.drop_last() =~= rows);
        lemma_first_sample(processors, processor);
        assert(well_formed(after, processors)) by {
            assert forall|i: int, j: int| 0 <= i < j < after.len() implies after[i].0
                != after[j].0 by {
                if j == rows.len() {
                    assert(rows[i].0 != stack_id);
                }
            }
            assert forall|j: int| 0 <= j < after.len() implies (#[trigger] after[j]).1.len()
                == processors by {
                if j < rows.len() {
                    assert(after[j] == rows[j]);
                }
            }
        }
        lemma_stack_at(after, processors, rows.len() as int);
        assert forall|id: i64| has_stack(after, id) <==> (id == stack_id || has_stack(
            rows,
            id,
        )) by {
            if has_stack(after, id) {
                let j = stack_index(after, id);
                if j < rows.len() {
                    assert(rows[j].0 == id);
                }
            }
            if has_stack(rows, id) {
                let j = stack_index(rows, id);
                assert(after[j].0 == id);
            }
        }
        assert forall|other: int, id: i64| other != processor || id != stack_id implies count(
            after,
            other,
            id,
        ) == count(rows, other, id) by {
            if has_stack(rows, id) {
                let j = stack_index(rows, id);
                lemma_stack_at(rows, processors, j);
                assert(after[j] == rows[j]);
                lemma_stack_at(after, processors, j);
            }
        }
    }
}

impl View for AggregationMap {
    type V = Seq<(i64, Seq<u64>)>;

    /// The entries of the map, each an identifier and the counts of the
    /// processors.
    closed spec fn view(&self) -> Seq<(i64, Seq<u64>)> {
        rows_view(self.rows@)
    }
}

impl AggregationMap {
    #[verifier::type_invariant]
    spec fn sound(self) -> bool {
        well_formed(rows_view(self.rows@), self.processors as nat)
    }

    /// The number of processors that the map keeps counts for.
    pub closed spec fn processors(&self) -> nat {
        self.processors as nat
    }

    /// An empty map for that many processors.
    pub fn new(processors: usize) -> (map: Self)
        ensures
            map@ == Seq::<(i64, Seq<u64>)>::empty(),
            map.processors() == processors,
    {
        let map = AggregationMap { processors, rows: Vec::new() };
        assert(map@ =~= Seq::<(i64, Seq<u64>)>::empty());
        map
    }

    /// The number of processors that the map keeps counts for. Every entry
    /// of the map has one count for each of them.
    pub fn processor_count(&self) -> (n: usize)
        ensures
            n == self.processors(),
            well_formed(self@, self.processors()),
    {
        proof {
            use_type_invariant(self);
        }
        self.processors
    }

    /// The position of the entry of the stack `stack_id`.
    fn find(&self, stack_id: i64) -> (at: Option<usize>)
        ensures
            at is Some <==> has_stack(self@, stack_id),
            at matches Some(i) ==> i < self@.len() && self@[i as int].0 == stack_id
                && stack_index(self@, stack_id) == i,
    {
        proof {
            use_type_invariant(self);
        }
        let mut i: usize = 0;
        while i < self.rows.len()
            invariant
                i <= self.rows@.len(),
                well_formed(rows_view(self.rows@), self.processors as nat),
                forall|j: int| 0 <= j < i ==> rows_view(self.rows@)[j].0 != stack_id,
            decreases self.rows@.len() - i,
        {
            if self.rows[i].stack_id == stack_id {
                proof {
                    lemma_stack_at(rows_view(self.rows@), self.processors as nat, i as int);
                }
                return Some(i);
            }
            i = i + 1;
        }
        None
    }

    /// Handles one timer event on `processor`. `capture` is what the stack
    /// trace store answered: the identifier of the running stack, or the
    /// reason why it has none.
    ///
    /// Returns whether the sample was counted. A sample without a stack
    /// identifier is skipped. So is one that the map has no place for: a
    /// sample of a processor that the map does not know, and one whose count
    /// is already as high as a `u64` goes.
    pub fn sample(&mut self, processor: usize, capture: Result<i64, i64>) -> (counted: bool)
        ensures
            final(self).processors() == old(self).processors(),
            well_formed(final(self)@, old(self).processors()),
            counted <==> (capture matches Ok(stack_id) && processor < old(self).processors()
                && count(old(self)@, processor as int, stack_id) < u64::MAX),
            counted ==> final(self)@ == recorded(
                old(self)@,
                old(self).processors(),
                processor as int,
                capture->Ok_0,
            ),
            !counted ==> final(self)@ == old(self)@,
            counted ==> samples_counted(final(self)@) == samples_counted(old(self)@) + 1,
            counted ==> count(final(self)@, processor as int, capture->Ok_0) == count(
                old(self)@,
                processor as int,
                capture->Ok_0,
            ) + 1,
            forall|other: int, id: i64|
                !(capture matches Ok(stack_id) && other == processor && id == stack_id) ==> count(
                    final(self)@,
                    other,
                    id,
                ) == count(old(self)@, other, id),
    {
        proof {
            use_type_invariant(&*self);
        }
        let stack_id: i64 = match capture {
            Ok(stack_id) => stack_id,
            Err(_) => {
                return false;
            },
        };
        if processor >= self.processors {
            return false;
        }
        proof {
            if count(self@, processor as int, stack_id) < u64::MAX {
                lemma_recorded(self@, self.processors as nat, processor as int, stack_id);
            }
        }
        let at = self.find(stack_id);
        let processors: usize = self.processors;
        let mut rows: Vec<StackCounts> = Vec::new();
        core::mem::swap(&mut self.rows, &mut rows);
        let ghost before = rows_view(rows@);
        let mut counted = true;
        match at {
            Some(i) => {
                match next_count(Some(rows[i].values[processor])) {
                    Some(next) => {
                        let mut row = StackCounts { stack_id, values: Vec::new() };
                        rows.set_and_swap(i, &mut row);
                        row.values.set(processor, next);
                        rows.set_and_swap(i, &mut row);
                        assert(rows_view(rows@) =~= recorded(
                            before,
                            processors as nat,
                            processor as int,
                            stack_id,
                        ));
                    },
                    None => {
                        counted = false;
                    },
                }
            },
            None => {
                let mut values: Vec<u64> = Vec::new();
                let mut p: usize = 0;
                while p < processors
                    invariant
                        p <= processors,
                        processor < processors,
                        values@.len() == p,
                        forall|j: int|
                            0 <= j < p ==> values@[j] == if j == processor {
                                1u64
                            } else {
                                0u64
                            },
                    decreases processors - p,
                {
                    values.push(
                        if p == processor {
                            1
                        } else {
                            0
                        },
                    );
                    p = p + 1;
                }
                assert(values@ =~= first_sample(processors as nat, processor as int));
                rows.push(StackCounts { stack_id, values });
                assert(rows_view(rows@) =~= recorded(
                    before,
                    processors as nat,
                    processor as int,
                    stack_id,
                ));
            },
        }
        core::mem::swap(&mut self.rows, &mut rows);
        counted
    }

    /// Takes the entries out of the map, when the observation window has
    /// closed: for each stack that was counted, what each processor counted.
    pub fn drain(self) -> (entries: Vec<StackCounts>)
        ensures
            rows_view(entries@) == self@,
            well_formed(rows_view(entries@), self.processors()),
    {
        proof {
            use_type_invariant(&self);
        }
        self.rows
    }
}

/// The sampler's entry point: handles one timer event on `processor` and
/// returns the exit code of the handler, `0` where the sample was counted and
/// `1` where it was skipped.
pub fn c_oncpu(map: &mut AggregationMap, processor: usize, capture: Result<i64, i64>) -> (code:
    u32)
    ensures
        final(map).processors() == old(map).processors(),
        well_formed(final(map)@, old(map).processors()),
        code == 0 <==> (capture matches Ok(stack_id) && processor < old(map).processors() && count(
            old(map)@,
            processor as int,
            stack_id,
        ) < u64::MAX),
        code == 0 ==> final(map)@ == recorded(
            old(map)@,
            old(map).processors(),
            processor as int,
            capture->Ok_0,
        ),
        code != 0 ==> code == 1 && final(map)@ == old(map)@,
        code == 0 ==> samples_counted(final(map)@) == samples_counted(old(map)@) + 1,
        code == 0 ==> count(final(map)@, processor as int, capture->Ok_0) == count(
            old(map)@,
            processor as int,
            capture->Ok_0,
        ) + 1,
        forall|other: int, id: i64|
            !(capture matches Ok(stack_id) && other == processor && id == stack_id) ==> count(
                final(map)@,
                other,
                id,
            ) == count(old(map)@, other, id),
{
    if map.sample(processor, capture) {
        0
    } else {
        1
    }
}

} // verus!
