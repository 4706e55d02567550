use c_oncpu::sampler::{
    c_oncpu, stack_flags, AggregationMap, StackCounts, FAST_STACK_COMPARE, KERNEL_CONTEXT,
    REUSE_STACK_ID, USER_STACK,
};

fn rows(entries: &Vec<StackCounts>) -> Vec<(i64, Vec<u64>)> {
    entries.iter().map(|entry| (entry.stack_id, entry.values.clone())).collect()
}

#[test]
fn kernel_context_captures_the_kernel_stack() {
    let flags = stack_flags(KERNEL_CONTEXT);
    assert_eq!(flags, 0x600);
    assert_eq!(flags & USER_STACK, 0);
    assert_eq!(flags & FAST_STACK_COMPARE, FAST_STACK_COMPARE);
    assert_eq!(flags & REUSE_STACK_ID, REUSE_STACK_ID);
}

#[test]
fn user_context_captures_the_user_stack() {
    for pid in [1u32, 2, 4242, u32::MAX] {
        let flags = stack_flags(pid);
        assert_eq!(flags, 0x700);
        assert_eq!(flags & USER_STACK, USER_STACK);
        assert_eq!(flags & FAST_STACK_COMPARE, FAST_STACK_COMPARE);
        assert_eq!(flags & REUSE_STACK_ID, REUSE_STACK_ID);
    }
}

/// A stack trace store for the tests: it knows one kernel stack and one user
/// stack and hands out the one that the flags ask for.
fn capture(flags: u64) -> Result<i64, i64> {
    if flags & USER_STACK != 0 {
        Ok(11)
    } else {
        Ok(22)
    }
}

#[test]
fn alternating_contexts_are_counted_under_their_own_stacks() {
    let mut map = AggregationMap::new(1);
    for pid in [0u32, 314, 0, 314, 0] {
        assert_eq!(c_oncpu(&mut map, 0, capture(stack_flags(pid))), 0);
    }
    assert_eq!(rows(&map.drain()), vec![(22, vec![3]), (11, vec![2])]);
}

#[test]
fn first_sample_of_a_stack_counts_one() {
    let mut map = AggregationMap::new(4);
    assert_eq!(map.processor_count(), 4);
    assert!(map.sample(2, Ok(7)));
    assert_eq!(rows(&map.drain()), vec![(7, vec![0, 0, 1, 0])]);
}

#[test]
fn each_processor_counts_for_itself() {
    let mut map = AggregationMap::new(3);
    assert!(map.sample(0, Ok(7)));
    assert!(map.sample(2, Ok(7)));
    assert!(map.sample(2, Ok(7)));
    assert!(map.sample(1, Ok(9)));
    assert!(map.sample(0, Ok(-3)));
    assert!(map.sample(2, Ok(9)));
    assert_eq!(
        rows(&map.drain()),
        vec![(7, vec![1, 0, 2]), (9, vec![0, 1, 1]), (-3, vec![1, 0, 0])]
    );
}

#[test]
fn sample_without_a_stack_is_skipped() {
    let mut map = AggregationMap::new(2);
    assert_eq!(c_oncpu(&mut map, 0, Ok(7)), 0);
    assert_eq!(c_oncpu(&mut map, 0, Err(-14)), 1);
    assert_eq!(c_oncpu(&mut map, 1, Err(-17)), 1);
    assert!(!map.sample(1, Err(-2)));
    assert_eq!(rows(&map.drain()), vec![(7, vec![1, 0])]);
}

#[test]
fn sample_of_an_unknown_processor_is_skipped() {
    let mut map = AggregationMap::new(2);
    assert_eq!(c_oncpu(&mut map, 2, Ok(7)), 1);
    assert!(!map.sample(usize::MAX, Ok(7)));
    assert!(map.drain().is_empty());
    let mut none = AggregationMap::new(0);
    assert!(!none.sample(0, Ok(7)));
    assert!(none.drain().is_empty());
}

#[test]
fn empty_map_drains_to_nothing() {
    assert!(AggregationMap::new(8).drain().is_empty());
}

#[test]
fn capture_flags_are_those_of_the_kernel_interface() {
    assert_eq!(USER_STACK, u64::from(aya_obj::generated::BPF_F_USER_STACK));
    assert_eq!(FAST_STACK_COMPARE, u64::from(aya_obj::generated::BPF_F_FAST_STACK_CMP));
    assert_eq!(REUSE_STACK_ID, u64::from(aya_obj::generated::BPF_F_REUSE_STACKID));
}

#[test]
fn counting_one_sample_changes_one_count() {
    let mut map = AggregationMap::new(2);
    assert!(map.sample(0, Ok(7)));
    assert!(map.sample(1, Ok(9)));
    let mut next = AggregationMap::new(2);
    assert!(next.sample(0, Ok(7)));
    assert!(next.sample(1, Ok(9)));
    assert!(next.sample(1, Ok(7)));
    let before = rows(&map.drain());
    let after = rows(&next.drain());
    assert_eq!(before, vec![(7, vec![1, 0]), (9, vec![0, 1])]);
    assert_eq!(after, vec![(7, vec![1, 1]), (9, vec![0, 1])]);
    let sum = |rows: &Vec<(i64, Vec<u64>)>| -> u64 {
        rows.iter().map(|row| row.1.iter().sum::<u64>()).sum()
    };
    assert_eq!(sum(&after), sum(&before) + 1);
}

#[test]
fn count_after_one_more_sample() {
    assert_eq!(c_oncpu::sampler::next_count(None), Some(1));
    assert_eq!(c_oncpu::sampler::next_count(Some(0)), Some(1));
    assert_eq!(c_oncpu::sampler::next_count(Some(41)), Some(42));
    assert_eq!(c_oncpu::sampler::next_count(Some(u64::MAX - 1)), Some(u64::MAX));
    assert_eq!(c_oncpu::sampler::next_count(Some(u64::MAX)), None);
}
