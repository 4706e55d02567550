//! The symbolizer: from the addresses of a call stack to one line of text.
//!
//! Every address is resolved by the first of three tiers that knows it: the
//! symbol that the process-level resolver found for it, the nearest kernel
//! symbol at or below it, or a placeholder that shows the address itself.

use vstd::prelude::*;
use crate::counts::{merge_processors, sum};
use crate::ksyms::{floor_key, has_floor, lemma_floor_unique, KernelSymbolTable};
use crate::report::{
    count_for, distinct_keys, has_key, lemma_count_for_covers, lemma_merged, lines_view, merge,
    merged, total, Line, Report,
};
use crate::text::{decimal, decimal_digits, hex, hex_digits, hex_padded, zero_padded};

verus! {

/// Where in the source code an instruction comes from.
#[derive(Clone, Debug, PartialEq, Eq)]
pub struct CodeInfo {
    /// The directory of the source file.
    pub dir: Option<String>,
    /// The source file.
    pub file: String,
    /// The line in that file.
    pub line: Option<u32>,
}

/// A function that was inlined at the resolved address.
#[derive(Clone, Debug, PartialEq, Eq)]
pub struct InlinedFn {
    /// The name of the inlined function.
    pub name: String,
    /// Where the inlined code comes from.
    pub code_info: Option<CodeInfo>,
}

/// What the process-level resolver found for one address.
#[derive(Clone, Debug, PartialEq, Eq)]
pub struct Sym {
    /// The name of the symbol that the address belongs to.
    pub name: String,
    /// How many bytes the address lies behind the start of the symbol.
    pub offset: usize,
    /// Where the instruction at the address comes from.
    pub code_info: Option<CodeInfo>,
    /// The functions inlined at the address, outermost first.
    pub inlined: Vec<InlinedFn>,
}

/// A stack as it was drained after the observation window, with what the
/// process-level resolver found for it.
#[derive(Clone, Debug, PartialEq, Eq)]
pub struct Sample {
    /// How often each processor sampled the stack.
    pub values: Vec<u64>,
    /// The addresses of the stack, from the root to the leaf.
    pub addrs: Vec<u64>,
    /// What the resolver found for each address, in the order of `addrs`.
    pub answers: Vec<Option<Sym>>,
}

/// The view of a [`CodeInfo`].
pub struct CodeInfoView {
    pub dir: Option<Seq<char>>,
    pub file: Seq<char>,
    pub line: Option<u32>,
}

/// The view of an [`InlinedFn`].
pub struct InlinedFnView {
    pub name: Seq<char>,
    pub code_info: Option<CodeInfoView>,
}

/// The view of a [`Sym`].
pub struct SymView {
    pub name: Seq<char>,
    pub offset: nat,
    pub code_info: Option<CodeInfoView>,
    pub inlined: Seq<InlinedFnView>,
}

/// The view of a [`Sample`].
pub struct SampleView {
    pub values: Seq<u64>,
    pub addrs: Seq<u64>,
    pub answers: Seq<Option<SymView>>,
}

impl View for CodeInfo {
    type V = CodeInfoView;

    open spec fn view(&self) -> CodeInfoView {
        CodeInfoView {
            dir: match self.dir {
                Some(dir) => Some(dir@),
                None => None,
            },
            file: self.file@,
            line: self.line,
        }
    }
}

/// The view of a source location that may be missing.
pub open spec fn code_info_view(info: Option<CodeInfo>) -> Option<CodeInfoView> {
    match info {
        Some(info) => Some(info@),
        None => None,
    }
}

impl View for InlinedFn {
    type V = InlinedFnView;

    open spec fn view(&self) -> InlinedFnView {
        InlinedFnView { name: self.name@, code_info: code_info_view(self.code_info) }
    }
}

impl View for Sym {
    type V = SymView;

    open spec fn view(&self) -> SymView {
        SymView {
            name: self.name@,
            offset: self.offset as nat,
            code_info: code_info_view(self.code_info),
            inlined: Seq::new(self.inlined@.len(), |i: int| self.inlined@[i]@),
        }
    }
}

/// The view of the resolver's answer for one address.
pub open spec fn answer_view(answer: Option<Sym>) -> Option<SymView> {
    match answer {
        Some(sym) => Some(sym@),
        None => None,
    }
}

/// The views of the resolver's answers for the addresses of one stack.
pub open spec fn answers_view(answers: Seq<Option<Sym>>) -> Seq<Option<SymView>> {
    Seq::new(answers.len(), |i: int| answer_view(answers[i]))
}

impl View for Sample {
    type V = SampleView;

    open spec fn view(&self) -> SampleView {
        SampleView {
            values: self.values@,
            addrs: self.addrs@,
            answers: answers_view(self.answers@),
        }
    }
}

/// The first address of the kernel's part of the address space: of its upper
/// half where addresses have 64 bits, of its last quarter where they have 32.
pub open spec fn kernel_space_start() -> u64 {
    if usize::BITS == 64 {
        0xFFFF_8000_0000_0000
    } else {
        0xC000_0000
    }
}

/// A source location as text: `dir/file:line`, without the parts that are
/// missing.
pub open spec fn code_info_text(info: CodeInfoView) -> Seq<char> {
    let path = match info.dir {
        Some(dir) => dir + "/"@ + info.file,
        None => info.file,
    };
    match info.line {
        Some(line) => path + ":"@ + decimal_digits(line as nat),
        None => path,
    }
}

/// The part of a symbol's text that names the first function inlined at the
/// address; empty where nothing was inlined there.
pub open spec fn inlined_text(sym: SymView) -> Seq<char> {
    if sym.inlined.len() > 0 {
        " <inlined:"@ + sym.inlined[0].name + ">"@
    } else {
        Seq::empty()
    }
}

/// The source location that a symbol's text shows: the symbol's own, or else
/// that of the first function inlined at the address.
pub open spec fn shown_code_info(sym: SymView) -> Option<CodeInfoView> {
    if sym.code_info is Some {
        sym.code_info
    } else if sym.inlined.len() > 0 {
        sym.inlined[0].code_info
    } else {
        None
    }
}

/// The part of a symbol's text that gives the source location, in
/// parentheses; empty where none is known.
pub open spec fn location_text(sym: SymView) -> Seq<char> {
    match shown_code_info(sym) {
        Some(info) => " ("@ + code_info_text(info) + ")"@,
        None => Seq::empty(),
    }
}

/// The text of an address that the process tier resolved:
/// `name <inlined:inner> (dir/file:line) +0xoffset`, without the parts that
/// are missing.
pub open spec fn sym_text(sym: SymView) -> Seq<char> {
    sym.name + inlined_text(sym) + location_text(sym) + " +0x"@ + hex_digits(sym.offset)
}

/// The text of an address whose nearest kernel symbol is `name`, starting at
/// `sym_addr`: `name+0xoffset` for an address in the kernel's part of the
/// address space, the bare name for any other.
pub open spec fn kernel_sym_text(name: Seq<char>, sym_addr: u64, ip: u64) -> Seq<char> {
    if ip >= kernel_space_start() {
        name + "+0x"@ + hex_digits((ip - sym_addr) as nat)
    } else {
        name
    }
}

/// The text that the kernel tier gives for `ip`; none where no kernel symbol
/// starts at or below `ip`.
pub open spec fn kernel_text(ksyms: Map<u64, Seq<char>>, ip: u64) -> Option<Seq<char>> {
    if has_floor(ksyms, ip) {
        let sym_addr = floor_key(ksyms, ip);
        Some(kernel_sym_text(ksyms[sym_addr], sym_addr, ip))
    } else {
        None
    }
}

/// The placeholder for an address that no tier resolved: `unknown_0x` and the
/// address in hexadecimal, with at least eight digits.
pub open spec fn unknown_text(addr: u64) -> Seq<char> {
    "unknown_0x"@ + zero_padded(hex_digits(addr as nat), 8)
}

/// The text of one frame: that of the first tier that resolves the address.
pub open spec fn frame_text(
    answer: Option<SymView>,
    addr: u64,
    ksyms: Map<u64, Seq<char>>,
) -> Seq<char> {
    match answer {
        Some(sym) => sym_text(sym),
        None => match kernel_text(ksyms, addr) {
            Some(text) => text,
            None => unknown_text(addr),
        },
    }
}

/// The texts of the first `n` frames, joined by `;`.
pub open spec fn joined_frames(
    addrs: Seq<u64>,
    answers: Seq<Option<SymView>>,
    ksyms: Map<u64, Seq<char>>,
    n: nat,
) -> Seq<char>
    decreases n,
{
    if n == 0 {
        Seq::empty()
    } else if n == 1 {
        frame_text(answers[0], addrs[0], ksyms)
    } else {
        joined_frames(addrs, answers, ksyms, (n - 1) as nat) + ";"@ + frame_text(
            answers[n - 1],
            addrs[n - 1],
            ksyms,
        )
    }
}

/// The number of frames of a stack: every address that has an answer.
pub open spec fn frame_count(addrs: Seq<u64>, answers: Seq<Option<SymView>>) -> nat {
    if addrs.len() <= answers.len() {
        addrs.len()
    } else {
        answers.len()
    }
}

/// The line of text that stands for a stack: the texts of its frames in the
/// order of the addresses, joined by `;`.
pub open spec fn stack_text(
    addrs: Seq<u64>,
    answers: Seq<Option<SymView>>,
    ksyms: Map<u64, Seq<char>>,
) -> Seq<char> {
    joined_frames(addrs, answers, ksyms, frame_count(addrs, answers))
}

/// What a drained stack contributes to the report: the text of the stack,
/// and the processors' counts added up.
pub open spec fn sample_entry(sample: SampleView, ksyms: Map<u64, Seq<char>>) -> (Seq<char>, nat) {
    (stack_text(sample.addrs, sample.answers, ksyms), sum(sample.values))
}

/// What the drained stacks contribute to the report, one entry for each.
pub open spec fn sample_entries(samples: Seq<Sample>, ksyms: Map<u64, Seq<char>>) -> Seq<
    (Seq<char>, nat),
> {
    Seq::new(samples.len(), |i: int| sample_entry(samples[i]@, ksyms))
}

/// The sum of all counts of all processors.
pub open spec fn samples_total(samples: Seq<Sample>) -> nat
    decreases samples.len(),
{
    if samples.len() == 0 {
        0
    } else {
        samples_total(samples.drop_last()) + sum(samples.last().values@)
    }
}

/// The first address of the kernel's part of the address space.
pub fn kernel_addr_start() -> (start: u64)
    ensures
        start == kernel_space_start(),
{
    if usize::BITS == 64 {
        0xFFFF_8000_0000_0000
    } else {
        0xC000_0000
    }
}

/// Renders a source location as `dir/file:line`, without the parts that are
/// missing.
pub fn format_code_info(code_info: &CodeInfo) -> (text: String)
    ensures
        text@ == code_info_text(code_info@),
{
    let mut text = match &code_info.dir {
        Some(dir) => {
            let mut path = dir.clone();
            path.append("/");
            path.append(code_info.file.as_str());
            path
        },
        None => code_info.file.clone(),
    };
    match code_info.line {
        Some(line) => {
            text.append(":");
            text.append(decimal(line as u64).as_str());
        },
        None => {},
    }
    text
}

/// Renders what the process tier found for an address as
/// `name <inlined:inner> (dir/file:line) +0xoffset`. Of the functions inlined
/// at the address only the first is shown. The source location is the
/// symbol's own, or else that of the inlined function shown.
pub fn format_symbolize(sym: &Sym) -> (text: String)
    ensures
        text@ == sym_text(sym@),
{
    let mut text = sym.name.clone();
    let ghost name = text@;
    if sym.inlined.len() > 0 {
        text.append(" <inlined:");
        text.append(sym.inlined[0].name.as_str());
        text.append(">");
    }
    assert(text@ == name + inlined_text(sym@));
    match &sym.code_info {
        Some(code_info) => {
            text.append(" (");
            text.append(format_code_info(code_info).as_str());
            text.append(")");
        },
        None => {
            if sym.inlined.len() > 0 {
                match &sym.inlined[0].code_info {
                    Some(code_info) => {
                        text.append(" (");
                        text.append(format_code_info(code_info).as_str());
                        text.append(")");
                    },
                    None => {},
                }
            }
        },
    }
    assert(text@ == name + inlined_text(sym@) + location_text(sym@));
    text.append(" +0x");
    text.append(hex(sym.offset as u64).as_str());
    text
}

/// Resolves `ip` by the kernel's symbols: finds the nearest symbol at or
/// below `ip` and renders it as `name+0xoffset` where `ip` lies in the
/// kernel's part of the address space, as the bare name where it does not.
/// Returns `None` where every kernel symbol starts above `ip`.
pub fn ksymbols_search(ksyms: &KernelSymbolTable, ip: u64) -> (text: Option<String>)
    ensures
        text is Some <==> has_floor(ksyms@, ip),
        text matches Some(text) ==> kernel_text(ksyms@, ip) == Some(text@),
{
    match ksyms.floor(ip) {
        None => None,
        Some((sym_addr, name)) => {
            proof {
                lemma_floor_unique(ksyms@, ip, sym_addr);
            }
            let mut text = name.clone();
            if ip >= kernel_addr_start() {
                text.append("+0x");
                text.append(hex(ip - sym_addr).as_str());
            }
            Some(text)
        },
    }
}

/// Renders the placeholder for an address that no tier resolved.
pub fn format_unknown(addr: u64) -> (text: String)
    ensures
        text@ == unknown_text(addr),
{
    let mut text = String::from_str("unknown_0x");
    text.append(hex_padded(addr, 8).as_str());
    text
}

/// Renders one frame: by the process tier's answer where there is one, else
/// by the kernel's symbols, else as the placeholder.
pub fn symbolize_frame(answer: &Option<Sym>, addr: u64, ksyms: &KernelSymbolTable) -> (text:
    String)
    ensures
        text@ == frame_text(answer_view(*answer), addr, ksyms@),
{
    match answer {
        Some(sym) => format_symbolize(sym),
        None => match ksymbols_search(ksyms, addr) {
            Some(text) => text,
            None => format_unknown(addr),
        },
    }
}

/// Renders a stack as one line of text: its frames in the order of `addrs`,
/// joined by `;`. `answers` holds what the process tier found for each
/// address, in the same order; an address without an answer is left out.
pub fn symbolize_stack_frames(
    addrs: &Vec<u64>,
    answers: &Vec<Option<Sym>>,
    ksyms: &KernelSymbolTable,
) -> (key: String)
    ensures
        key@ == stack_text(addrs@, answers_view(answers@), ksyms@),
{
    let n: usize = if addrs.len() <= answers.len() {
        addrs.len()
    } else {
        answers.len()
    };
    let mut key = String::new();
    let mut i: usize = 0;
    while i < n
        invariant
            i <= n,
            n == frame_count(addrs@, answers_view(answers@)),
            key@ == joined_frames(addrs@, answers_view(answers@), ksyms@, i as nat),
        decreases n - i,
    {
        if i > 0 {
            key.append(";");
        }
        let frame = symbolize_frame(&answers[i], addrs[i], ksyms);
        key.append(frame.as_str());
        i = i + 1;
    }
    key
}

/// The addresses of a captured stack in the order in which they are shown:
/// the stack is captured from the innermost frame outwards and shown from the
/// root to the leaf.
pub fn root_first(frames: &Vec<u64>) -> (addrs: Vec<u64>)
    ensures
        addrs@ == frames@.reverse(),
{
    let mut addrs: Vec<u64> = Vec::new();
    let mut i: usize = frames.len();
    while i > 0
        invariant
            i <= frames@.len(),
            addrs@.len() == frames@.len() - i,
            forall|j: int| 0 <= j < addrs@.len() ==> addrs@[j] == frames@[frames@.len() - 1 - j],
        decreases i,
    {
        i = i - 1;
        addrs.push(frames[i]);
    }
    addrs
}

/// The answers for a stack that the process tier was not asked about, as the
/// stack of the kernel's own context, which belongs to no process: no answer
/// for any of its addresses, so that every frame goes to the kernel tier.
pub fn unanswered(addrs: &Vec<u64>) -> (answers: Vec<Option<Sym>>)
    ensures
        answers@.len() == addrs@.len(),
        forall|i: int| 0 <= i < answers@.len() ==> answers@[i] is None,
{
    let mut answers: Vec<Option<Sym>> = Vec::new();
    let mut i: usize = 0;
    while i < addrs.len()
        invariant
            i <= addrs@.len(),
            answers@.len() == i,
            forall|j: int| 0 <= j < answers@.len() ==> answers@[j] is None,
        decreases addrs@.len() - i,
    {
        answers.push(None);
        i = i + 1;
    }
    answers
}

/// The entries that the drained stacks contribute count together what the
/// processors counted, whatever the texts of the stacks are.
pub proof fn lemma_entries_total(samples: Seq<Sample>, ksyms: Map<u64, Seq<char>>)
    ensures
        total(sample_entries(samples, ksyms)) == samples_total(samples),
    decreases samples.len(),
{
    if samples.len() > 0 {
        lemma_entries_total(samples.drop_last(), ksyms);
        assert(sample_entries(samples, ksyms).drop_last() =~= sample_entries(
            samples.drop_last(),
            ksyms,
        ));
    }
}

/// Builds the report from the drained stacks: adds up each stack's counts
/// over the processors, renders the stack as one line of text, and merges the
/// stacks with the same text by adding their counts.
///
/// There is no report where the stacks with one text were sampled more often
/// than a `u64` holds. Where there is one, it has one line for each text of
/// the stacks, which counts what the processors counted for the stacks with
/// that text, and its lines count together exactly what the processors
/// counted.
pub fn dump_stack_frames(samples: &Vec<Sample>, ksyms: &KernelSymbolTable) -> (report: Option<
    Report,
>)
    ensures
        report is Some <==> forall|key: Seq<char>|
            count_for(sample_entries(samples@, ksyms@), key) <= u64::MAX,
        report matches Some(report) ==> report@ == merged(sample_entries(samples@, ksyms@)),
        report matches Some(report) ==> distinct_keys(report@),
        report matches Some(report) ==> total(report@) == samples_total(samples@),
        report matches Some(report) ==> forall|key: Seq<char>|
            count_for(report@, key) == count_for(sample_entries(samples@, ksyms@), key),
        report matches Some(report) ==> forall|key: Seq<char>|
            has_key(report@, key) <==> has_key(sample_entries(samples@, ksyms@), key),
{
    let ghost all = sample_entries(samples@, ksyms@);
    let mut entries: Vec<Line> = Vec::new();
    let mut i: usize = 0;
    while i < samples.len()
        invariant
            i <= samples@.len(),
            all == sample_entries(samples@, ksyms@),
            entries@.len() == i,
            lines_view(entries@) == all.take(i as int),
        decreases samples@.len() - i,
    {
        let sample = &samples[i];
        let key = symbolize_stack_frames(&sample.addrs, &sample.answers, ksyms);
        match merge_processors(&sample.values) {
            Some(count) => {
                let ghost before = lines_view(entries@);
                entries.push(Line { key, count });
                proof {
                    let after = lines_view(entries@);
                    assert(after[i as int] == sample_entry(sample@, ksyms@));
                    assert(all[i as int] == sample_entry(samples@[i as int]@, ksyms@));
                    assert forall|j: int| 0 <= j < i implies after[j] == all.take(i + 1)[j] by {
                        assert(after[j] == before[j]);
                    }
                    assert(after =~= all.take(i + 1));
                }
            },
            None => {
                proof {
                    lemma_count_for_covers(all, i as int);
                }
                return None;
            },
        }
        i = i + 1;
    }
    proof {
        assert(all.take(i as int) =~= all);
        lemma_merged(all);
        lemma_entries_total(samples@, ksyms@);
    }
    merge(&entries)
}

} // verus!
