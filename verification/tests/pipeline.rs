use c_oncpu::ksyms::KernelSymbolTable;
use c_oncpu::report::Report;
use c_oncpu::sampler::{c_oncpu, stack_flags, AggregationMap, USER_STACK};
use c_oncpu::symbol::{dump_stack_frames, root_first, Sample, Sym};

fn sym(name: &str, offset: usize) -> Option<Sym> {
    Some(Sym { name: String::from(name), offset, code_info: None, inlined: Vec::new() })
}

fn lines_of(report: &Report) -> Vec<(String, u64)> {
    let mut lines = Vec::new();
    let mut i = 0;
    while i < report.len() {
        let line = report.line(i).unwrap();
        lines.push((line.key.clone(), line.count));
        i += 1;
    }
    lines
}

fn sample(values: Vec<u64>, addrs: Vec<u64>, answers: Vec<Option<Sym>>) -> Sample {
    Sample { values, addrs, answers }
}

#[test]
fn two_stacks_with_the_same_text_become_one_line() {
    let ksyms = KernelSymbolTable::new();
    let samples = vec![
        sample(
            vec![1],
            vec![0x1000, 0x2000, 0x3010],
            vec![sym("main", 0), sym("work", 0), sym("compute", 0x10)],
        ),
        sample(
            vec![0, 1],
            vec![0x1000, 0x2000, 0x3010],
            vec![sym("main", 0), sym("work", 0), sym("compute", 0x10)],
        ),
        sample(vec![1, 0], vec![0x1000, 0x4004], vec![sym("main", 0), sym("idle", 0x4)]),
    ];
    let report = dump_stack_frames(&samples, &ksyms).unwrap();
    assert_eq!(
        lines_of(&report),
        vec![
            (String::from("main +0x0;work +0x0;compute +0x10"), 2),
            (String::from("main +0x0;idle +0x4"), 1),
        ]
    );
    assert_eq!(
        report.render(),
        "main +0x0;work +0x0;compute +0x10 2\nmain +0x0;idle +0x4 1\n"
    );
}

#[test]
fn report_counts_what_the_processors_counted() {
    let mut ksyms = KernelSymbolTable::new();
    ksyms.insert(0xffff_ffff_8100_0000, String::from("schedule"));
    let samples = vec![
        sample(vec![3, 0, 4, 1], vec![0x1000], vec![sym("main", 0)]),
        sample(vec![0, 0, 0, 9], vec![0xffff_ffff_8100_0020], vec![None]),
        sample(vec![1, 1, 1, 1], vec![0x1000], vec![sym("main", 0)]),
        sample(vec![0, 2, 0, 0], vec![0x77], vec![None]),
        sample(vec![0, 0, 0, 0], vec![0x78], vec![None]),
    ];
    let counted: u128 = samples
        .iter()
        .map(|sample| sample.values.iter().map(|value| *value as u128).sum::<u128>())
        .sum();
    let report = dump_stack_frames(&samples, &ksyms).unwrap();
    assert_eq!(counted, 23);
    assert_eq!(report.total(), counted);
    assert_eq!(
        lines_of(&report),
        vec![
            (String::from("main +0x0"), 12),
            (String::from("schedule+0x20"), 9),
            (String::from("unknown_0x00000077"), 2),
            (String::from("unknown_0x00000078"), 0),
        ]
    );
}

#[test]
fn unresolved_stack_keeps_its_whole_count() {
    let ksyms = KernelSymbolTable::new();
    let samples = vec![
        sample(vec![5, 6], vec![0xdead_beef, 0x10], vec![None, None]),
        sample(vec![1, 0], vec![0x1000], vec![sym("main", 0x8)]),
    ];
    let report = dump_stack_frames(&samples, &ksyms).unwrap();
    assert_eq!(report.count_of("unknown_0xdeadbeef;unknown_0x00000010"), 11);
    assert_eq!(report.count_of("main +0x8"), 1);
    assert_eq!(report.total(), 12);
}

#[test]
fn no_stacks_give_an_empty_report() {
    let report = dump_stack_frames(&Vec::new(), &KernelSymbolTable::new()).unwrap();
    assert_eq!(report.len(), 0);
    assert_eq!(report.render(), "");
}

#[test]
fn stack_that_was_sampled_too_often_gives_no_report() {
    let ksyms = KernelSymbolTable::new();
    let one = vec![sample(vec![u64::MAX, 1], vec![0x1000], vec![sym("main", 0)])];
    assert!(dump_stack_frames(&one, &ksyms).is_none());
    let two = vec![
        sample(vec![u64::MAX], vec![0x1000], vec![sym("main", 0)]),
        sample(vec![7], vec![0x2000], vec![sym("work", 0)]),
        sample(vec![1], vec![0x1000], vec![sym("main", 0)]),
    ];
    assert!(dump_stack_frames(&two, &ksyms).is_none());
    let fits = vec![
        sample(vec![u64::MAX], vec![0x1000], vec![sym("main", 0)]),
        sample(vec![u64::MAX], vec![0x2000], vec![sym("work", 0)]),
    ];
    assert_eq!(dump_stack_frames(&fits, &ksyms).unwrap().total(), 2 * (u64::MAX as u128));
}

/// The frames of the stacks that the test's stack trace store knows, from the
/// innermost frame outwards.
fn frames_of(stack_id: i64) -> Vec<u64> {
    match stack_id {
        1 => vec![0x40_3010, 0x40_2000, 0x40_1000],
        2 => vec![0x40_4004, 0x40_1000],
        3 => vec![0xffff_ffff_8100_0040],
        _ => Vec::new(),
    }
}

/// What the test's resolver knows about the addresses of the process.
fn resolve(addr: u64) -> Option<Sym> {
    match addr {
        0x40_1000 => sym("main", 0),
        0x40_2000 => sym("work", 0),
        0x40_3010 => sym("compute", 0x10),
        0x40_4004 => sym("idle", 0x4),
        _ => None,
    }
}

#[test]
fn from_the_timer_events_to_the_report() {
    let mut map = AggregationMap::new(2);
    let events: Vec<(usize, u32, Result<i64, i64>, Result<i64, i64>)> = vec![
        (0, 500, Ok(1), Ok(3)),
        (1, 500, Ok(1), Ok(3)),
        (0, 0, Ok(1), Ok(3)),
        (1, 500, Ok(2), Ok(3)),
        (0, 500, Err(-14), Ok(3)),
        (1, 0, Ok(2), Err(-14)),
        (0, 500, Ok(1), Ok(3)),
        (5, 500, Ok(1), Ok(3)),
    ];
    let mut counted: u128 = 0;
    for (processor, pid, user_stack, kernel_stack) in events {
        let capture = if stack_flags(pid) & USER_STACK != 0 {
            user_stack
        } else {
            kernel_stack
        };
        if c_oncpu(&mut map, processor, capture) == 0 {
            counted += 1;
        }
    }
    assert_eq!(counted, 5);

    let mut ksyms = KernelSymbolTable::new();
    ksyms.insert(0xffff_ffff_8100_0000, String::from("do_idle"));
    let mut samples = Vec::new();
    for entry in map.drain() {
        let addrs = root_first(&frames_of(entry.stack_id));
        let answers = addrs.iter().map(|addr| resolve(*addr)).collect();
        samples.push(Sample { values: entry.values, addrs, answers });
    }
    let report = dump_stack_frames(&samples, &ksyms).unwrap();
    assert_eq!(report.total(), counted);
    assert_eq!(
        report.render(),
        "main +0x0;work +0x0;compute +0x10 3\ndo_idle+0x40 1\nmain +0x0;idle +0x4 1\n"
    );
}
