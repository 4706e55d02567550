//! Laws that hold across the stages of the pipeline.

use vstd::prelude::*;
use crate::report::{
    count_for, distinct_keys, lemma_count_for_concat, lemma_merged, lemma_total_concat, merged,
    total,
};
use crate::sampler::{capture_flags, captures_user_stack, samples_counted, KERNEL_CONTEXT};
use crate::symbol::{
    frame_text, joined_frames, lemma_entries_total, sample_entries, samples_total, stack_text,
    unknown_text, Sample, SymView,
};

verus! {

/// Conservation. Whatever the texts of the stacks are, the lines of the
/// report count together exactly what the processors counted, and the line of
/// each text counts what the stacks with that text were counted together.
/// Merging moves counts from one line to another and drops none.
pub proof fn conservation(samples: Seq<Sample>, ksyms: Map<u64, Seq<char>>)
    ensures
        total(merged(sample_entries(samples, ksyms))) == samples_total(samples),
        distinct_keys(merged(sample_entries(samples, ksyms))),
        forall|key: Seq<char>|
            count_for(merged(sample_entries(samples, ksyms)), key) == count_for(
                sample_entries(samples, ksyms),
                key,
            ),
{
    lemma_merged(sample_entries(samples, ksyms));
    lemma_entries_total(samples, ksyms);
}

/// The order in which stacks are merged is immaterial to the counts: merged
/// one way round or the other, two lists of entries give every text the same
/// count, and the same sum of all counts.
pub proof fn merge_order(
    first: Seq<(Seq<char>, nat)>,
    second: Seq<(Seq<char>, nat)>,
    key: Seq<char>,
)
    ensures
        count_for(merged(first + second), key) == count_for(merged(second + first), key),
        total(merged(first + second)) == total(merged(second + first)),
{
    lemma_merged(first + second);
    lemma_merged(second + first);
    lemma_count_for_concat(first, second, key);
    lemma_count_for_concat(second, first, key);
    lemma_total_concat(first, second);
    lemma_total_concat(second, first);
}

/// The stacks that were drained from an aggregation map hold together what
/// the map counted.
pub proof fn drained_total(rows: Seq<(i64, Seq<u64>)>, samples: Seq<Sample>)
    requires
        samples.len() == rows.len(),
        forall|i: int| 0 <= i < rows.len() ==> (#[trigger] samples[i]).values@ == rows[i].1,
    ensures
        samples_total(samples) == samples_counted(rows),
    decreases rows.len(),
{
    if rows.len() > 0 {
        drained_total(rows.drop_last(), samples.drop_last());
    }
}

/// Symbolization can be repeated. Two passes over the same addresses, with
/// the same answers of the process-level resolver and the same kernel
/// symbols, give the same line of text.
pub proof fn symbolization_repeats(
    addrs: Seq<u64>,
    first_answers: Seq<Option<SymView>>,
    first_ksyms: Map<u64, Seq<char>>,
    second_answers: Seq<Option<SymView>>,
    second_ksyms: Map<u64, Seq<char>>,
)
    requires
        first_answers =~= second_answers,
        first_ksyms =~= second_ksyms,
    ensures
        stack_text(addrs, first_answers, first_ksyms) == stack_text(
            addrs,
            second_answers,
            second_ksyms,
        ),
{
}

/// Graceful degradation. An address that the process tier did not resolve,
/// and below which no kernel symbol starts, is shown as the placeholder
/// `unknown_0x` with the address.
pub proof fn unresolved_frame(addr: u64, ksyms: Map<u64, Seq<char>>)
    requires
        forall|key: u64| ksyms.dom().contains(key) ==> key > addr,
    ensures
        frame_text(None, addr, ksyms) == unknown_text(addr),
{
}

/// An unresolved address keeps its place in the line of its stack: the line
/// up to and with the frame at position `i` ends with the placeholder, after
/// the `;` that parts it from the frames before.
pub proof fn unresolved_frame_in_stack(
    addrs: Seq<u64>,
    answers: Seq<Option<SymView>>,
    ksyms: Map<u64, Seq<char>>,
    i: int,
)
    requires
        0 <= i < addrs.len(),
        i < answers.len(),
        answers[i] is None,
        forall|key: u64| ksyms.dom().contains(key) ==> key > addrs[i],
    ensures
        i == 0 ==> joined_frames(addrs, answers, ksyms, 1) == unknown_text(addrs[i]),
        i > 0 ==> joined_frames(addrs, answers, ksyms, (i + 1) as nat) == joined_frames(
            addrs,
            answers,
            ksyms,
            i as nat,
        ) + ";"@ + unknown_text(addrs[i]),
{
    unresolved_frame(addrs[i], ksyms);
}

/// Context selection. The user-space stack is captured for every context but
/// the kernel's own, for which the kernel stack is captured.
pub proof fn capture_follows_context(pid: u32)
    ensures
        captures_user_stack(capture_flags(pid)) <==> pid != KERNEL_CONTEXT,
        pid != KERNEL_CONTEXT ==> capture_flags(pid) != capture_flags(KERNEL_CONTEXT),
{
    assert(0x200u64 | 0x400u64 == 0x600u64) by (bit_vector);
    assert(0x100u64 | 0x200u64 | 0x400u64 == 0x700u64) by (bit_vector);
    assert(0x600u64 & 0x100u64 == 0) by (bit_vector);
    assert(0x700u64 & 0x100u64 != 0) by (bit_vector);
}

} // verus!
