//! The reporter: sample counts merged by the text of their stack, and the
//! collapsed-stack report made of them.

use vstd::prelude::*;
use crate::text::{decimal, decimal_digits};

verus! {

/// One line of a report: the text of a stack and how often it was sampled.
#[derive(Clone, Debug, PartialEq, Eq)]
pub struct Line {
    pub key: String,
    pub count: u64,
}

/// Sample counts by the text of their stack.
///
/// No two lines of a report have the same text. The lines stand in the order
/// in which their texts were first added.
pub struct Report {
    lines: Vec<Line>,
}

/// The views of lines: each a text and a count.
pub open spec fn lines_view(lines: Seq<Line>) -> Seq<(Seq<char>, nat)> {
    Seq::new(lines.len(), |i: int| (lines[i].key@, lines[i].count as nat))
}

/// The sum of the counts of all entries.
pub open spec fn total(entries: Seq<(Seq<char>, nat)>) -> nat
    decreases entries.len(),
{
    if entries.len() == 0 {
        0
    } else {
        total(entries.drop_last()) + entries.last().1
    }
}

/// The sum of the counts of the entries with the text `key`.
pub open spec fn count_for(entries: Seq<(Seq<char>, nat)>, key: Seq<char>) -> nat
    decreases entries.len(),
{
    if entries.len() == 0 {
        0
    } else if entries.last().0 == key {
        count_for(entries.drop_last(), key) + entries.last().1
    } else {
        count_for(entries.drop_last(), key)
    }
}

/// Some entry has the text `key`.
pub open spec fn has_key(entries: Seq<(Seq<char>, nat)>, key: Seq<char>) -> bool {
    exists|i: int| 0 <= i < entries.len() && entries[i].0 == key
}

/// The position of an entry with the text `key`.
pub open spec fn key_index(entries: Seq<(Seq<char>, nat)>, key: Seq<char>) -> int {
    choose|i: int| 0 <= i < entries.len() && entries[i].0 == key
}

/// No two entries have the same text.
pub open spec fn distinct_keys(entries: Seq<(Seq<char>, nat)>) -> bool {
    forall|i: int, j: int| 0 <= i < j < entries.len() ==> entries[i].0 != entries[j].0
}

/// `lines` after `count` samples of the stack `key` were added: the line with
/// that text counts `count` more, or a new last line holds them.
pub open spec fn add_entry(lines: Seq<(Seq<char>, nat)>, key: Seq<char>, count: nat) -> Seq<
    (Seq<char>, nat),
> {
    if has_key(lines, key) {
        let i = key_index(lines, key);
        lines.update(i, (key, lines[i].1 + count))
    } else {
        lines.push((key, count))
    }
}

/// The entries merged by their text: one line for each text, which counts
/// what the entries with that text count together, in the order in which the
/// texts first occur.
pub open spec fn merged(entries: Seq<(Seq<char>, nat)>) -> Seq<(Seq<char>, nat)>
    decreases entries.len(),
{
    if entries.len() == 0 {
        Seq::empty()
    } else {
        add_entry(merged(entries.drop_last()), entries.last().0, entries.last().1)
    }
}

/// One line of the report file: the text of the stack, a space, the count in
/// decimal, and a line feed.
pub open spec fn line_text(key: Seq<char>, count: nat) -> Seq<char> {
    key + " "@ + decimal_digits(count) + "\n"@
}

/// The report file: the lines one after the other.
pub open spec fn report_text(lines: Seq<(Seq<char>, nat)>) -> Seq<char>
    decreases lines.len(),
{
    if lines.len() == 0 {
        Seq::empty()
    } else {
        report_text(lines.drop_last()) + line_text(lines.last().0, lines.last().1)
    }
}

/// An entry counts no more than all entries with its text together.
pub proof fn lemma_count_for_covers(entries: Seq<(Seq<char>, nat)>, i: int)
    requires
        0 <= i < entries.len(),
    ensures
        count_for(entries, entries[i].0) >= entries[i].1,
    decreases entries.len(),
{
    if i < entries.len() - 1 {
        lemma_count_for_covers(entries.drop_last(), i);
    }
}

/// The entries with one text count no less in a list than in a prefix of it.
pub proof fn lemma_count_for_prefix(entries: Seq<(Seq<char>, nat)>, n: int, key: Seq<char>)
    requires
        0 <= n <= entries.len(),
    ensures
        count_for(entries.take(n), key) <= count_for(entries, key),
    decreases entries.len(),
{
    if n == entries.len() {
        assert(entries.take(n) =~= entries);
    } else {
        lemma_count_for_prefix(entries.drop_last(), n, key);
        assert(entries.drop_last().take(n) =~= entries.take(n));
    }
}

/// The entries with one text count in two lists put together what they count
/// in the one and in the other.
pub proof fn lemma_count_for_concat(
    first: Seq<(Seq<char>, nat)>,
    second: Seq<(Seq<char>, nat)>,
    key: Seq<char>,
)
    ensures
        count_for(first + second, key) == count_for(first, key) + count_for(second, key),
    decreases second.len(),
{
    if second.len() == 0 {
        assert(first + second =~= first);
    } else {
        lemma_count_for_concat(first, second.drop_last(), key);
        assert((first + second).drop_last() =~= first + second.drop_last());
    }
}

/// Two lists put together count what the one and the other count.
pub proof fn lemma_total_concat(first: Seq<(Seq<char>, nat)>, second: Seq<(Seq<char>, nat)>)
    ensures
        total(first + second) == total(first) + total(second),
    decreases second.len(),
{
    if second.len() == 0 {
        assert(first + second =~= first);
    } else {
        lemma_total_concat(first, second.drop_last());
        assert((first + second).drop_last() =~= first + second.drop_last());
    }
}

/// Where no entry has the text `key`, the entries with that text count zero.
pub proof fn lemma_count_for_absent(entries: Seq<(Seq<char>, nat)>, key: Seq<char>)
    requires
        !has_key(entries, key),
    ensures
        count_for(entries, key) == 0,
    decreases entries.len(),
{
    if entries.len() > 0 {
        assert(entries[entries.len() - 1].0 != key);
        assert(!has_key(entries.drop_last(), key)) by {
            if has_key(entries.drop_last(), key) {
                let i = key_index(entries.drop_last(), key);
                assert(entries[i].0 == key);
            }
        }
        lemma_count_for_absent(entries.drop_last(), key);
    }
}

/// Where no two entries have the same text, the entries with the text of one
/// of them count what that one counts.
pub proof fn lemma_count_for_at(entries: Seq<(Seq<char>, nat)>, i: int)
    requires
        distinct_keys(entries),
        0 <= i < entries.len(),
    ensures
        count_for(entries, entries[i].0) == entries[i].1,
    decreases entries.len(),
{
    let rest = entries.drop_last();
    if i == entries.len() - 1 {
        assert(!has_key(rest, entries[i].0)) by {
            if has_key(rest, entries[i].0) {
                let j = key_index(rest, entries[i].0);
                assert(entries[j].0 == entries[i].0);
            }
        }
        lemma_count_for_absent(rest, entries[i].0);
    } else {
        assert(entries[i].0 != entries[entries.len() - 1].0);
        lemma_count_for_at(rest, i);
    }
}

proof fn lemma_total_update(entries: Seq<(Seq<char>, nat)>, i: int, entry: (Seq<char>, nat))
    requires
        0 <= i < entries.len(),
    ensures
        total(entries.update(i, entry)) + entries[i].1 == total(entries) + entry.1,
    decreases entries.len(),
{
    let changed = entries.update(i, entry);
    if i == entries.len() - 1 {
        assert(changed.drop_last() =~= entries.drop_last());
    } else {
        lemma_total_update(entries.drop_last(), i, entry);
        assert(changed.drop_last() =~= entries.drop_last().update(i, entry));
    }
}

/// What adding samples to distinct lines does: the lines stay distinct, the
/// sum of all counts grows by what was added, and so does the count of the
/// text that it was added to, while every other text keeps its count.
pub proof fn lemma_add_entry(lines: Seq<(Seq<char>, nat)>, key: Seq<char>, count: nat)
    requires
        distinct_keys(lines),
    ensures
        distinct_keys(add_entry(lines, key, count)),
        total(add_entry(lines, key, count)) == total(lines) + count,
        count_for(add_entry(lines, key, count), key) == count_for(lines, key) + count,
        forall|other: Seq<char>|
            other != key ==> count_for(add_entry(lines, key, count), other) == count_for(
                lines,
                other,
            ),
        forall|other: Seq<char>|
            has_key(add_entry(lines, key, count), other) <==> (other == key || has_key(
                lines,
                other,
            )),
{
    let after = add_entry(lines, key, count);
    if has_key(lines, key) {
        let i = key_index(lines, key);
        assert(after.len() == lines.len());
        assert(forall|j: int| 0 <= j < after.len() ==> (#[trigger] after[j]).0 == lines[j].0);
        lemma_total_update(lines, i, (key, lines[i].1 + count));
        lemma_count_for_at(lines, i);
        lemma_count_for_at(after, i);
        assert forall|other: Seq<char>| has_key(after, other) <==> (other == key || has_key(
            lines,
            other,
        )) by {
            if has_key(after, other) {
                let j = key_index(after, other);
                assert(lines[j].0 == other);
            }
            if has_key(lines, other) {
                let j = key_index(lines, other);
                assert(after[j].0 == other);
            }
            if other == key {
                assert(after[i].0 == other);
            }
        }
        assert forall|other: Seq<char>| other != key implies count_for(after, other)
            == count_for(lines, other) by {
            if has_key(lines, other) {
                let j = key_index(lines, other);
                assert(after[j] == lines[j]);
                lemma_count_for_at(lines, j);
                lemma_count_for_at(after, j);
            } else {
                lemma_count_for_absent(lines, other);
                lemma_count_for_absent(after, other);
            }
        }
    } else {
        assert(after.drop_last() =~= lines);
        assert forall|i: int, j: int| 0 <= i < j < after.len() implies after[i].0
            != after[j].0 by {
            if j == lines.len() {
                assert(lines[i].0 != key);
            }
        }
        assert forall|other: Seq<char>| has_key(after, other) <==> (other == key || has_key(
            lines,
            other,
        )) by {
            if has_key(after, other) {
                let j = key_index(after, other);
                if j < lines.len() {
                    assert(lines[j].0 == other);
                }
            }
            if has_key(lines, other) {
                let j = key_index(lines, other);
                assert(after[j].0 == other);
            }
            if other == key {
                assert(after[lines.len() as int].0 == other);
            }
        }
    }
}

/// Merging keeps what the entries count: in all, and for every text. The
/// merged lines have distinct texts, those of the entries.
pub proof fn lemma_merged(entries: Seq<(Seq<char>, nat)>)
    ensures
        distinct_keys(merged(entries)),
        total(merged(entries)) == total(entries),
        forall|key: Seq<char>| count_for(merged(entries), key) == count_for(entries, key),
        forall|key: Seq<char>| has_key(merged(entries), key) <==> has_key(entries, key),
    decreases entries.len(),
{
    if entries.len() > 0 {
        let rest = entries.drop_last();
        let last = entries.last();
        lemma_merged(rest);
        lemma_add_entry(merged(rest), last.0, last.1);
        assert forall|key: Seq<char>| count_for(merged(entries), key) == count_for(
            entries,
            key,
        ) by {
            assert(count_for(merged(rest), key) == count_for(rest, key));
            if key != last.0 {
                assert(count_for(merged(entries), key) == count_for(merged(rest), key));
            }
        }
        assert forall|key: Seq<char>| has_key(merged(entries), key) <==> has_key(
            entries,
            key,
        ) by {
            if has_key(rest, key) {
                let i = key_index(rest, key);
                assert(entries[i].0 == key);
            }
            if has_key(entries, key) {
                let i = key_index(entries, key);
                if i < rest.len() {
                    assert(rest[i].0 == key);
                }
            }
            if key == last.0 {
                assert(entries[entries.len() - 1].0 == key);
            }
        }
    } else {
        assert forall|key: Seq<char>| !has_key(entries, key) by {}
    }
}

/// Renders one line of the report file: the text of the stack, a space, the
/// count in decimal, and a line feed.
pub fn render_line(key: &str, count: u64) -> (text: String)
    ensures
        text@ == line_text(key@, count as nat),
{
    let mut text = String::from_str(key);
    text.append(" ");
    text.append(decimal(count).as_str());
    text.append("\n");
    text
}

impl View for Report {
    type V = Seq<(Seq<char>, nat)>;

    /// The lines of the report, each a text and a count.
    closed spec fn view(&self) -> Seq<(Seq<char>, nat)> {
        lines_view(self.lines@)
    }
}

impl Report {
    #[verifier::type_invariant]
    spec fn distinct(self) -> bool {
        distinct_keys(lines_view(self.lines@))
    }

    /// A report without lines.
    pub fn new() -> (report: Self)
        ensures
            report@ == Seq::<(Seq<char>, nat)>::empty(),
    {
        let report = Report { lines: Vec::new() };
        assert(report@ =~= Seq::<(Seq<char>, nat)>::empty());
        report
    }

    /// The position of the line with the text `key`.
    fn find(&self, key: &String) -> (at: Option<usize>)
        ensures
            at is Some <==> has_key(self@, key@),
            at matches Some(i) ==> i < self@.len() && self@[i as int].0 == key@ && key_index(
                self@,
                key@,
            ) == i,
    {
        proof {
            use_type_invariant(self);
        }
        let mut i: usize = 0;
        while i < self.lines.len()
            invariant
                i <= self.lines@.len(),
                distinct_keys(lines_view(self.lines@)),
                forall|j: int| 0 <= j < i ==> lines_view(self.lines@)[j].0 != key@,
            decreases self.lines@.len() - i,
        {
            if self.lines[i].key == *key {
                proof {
                    let view = lines_view(self.lines@);
                    assert(view[i as int].0 == key@);
                    let chosen = key_index(view, key@);
                    assert(chosen == i) by {
                        if chosen < i {
                            assert(view[chosen].0 != view[i as int].0);
                        } else if chosen > i {
                            assert(view[i as int].0 != view[chosen].0);
                        }
                    }
                }
                return Some(i);
            }
            i = i + 1;
        }
        None
    }

    /// Adds `count` samples of the stack with the text `key`: to the line
    /// with that text, or as a new last line. Returns whether they were
    /// added. They are not, and the report stays as it was, where the line
    /// would count more than a `u64` holds.
    pub fn add(&mut self, key: String, count: u64) -> (added: bool)
        ensures
            added <==> count_for(old(self)@, key@) + count <= u64::MAX,
            added ==> final(self)@ == add_entry(old(self)@, key@, count as nat),
            !added ==> final(self)@ == old(self)@,
            distinct_keys(final(self)@),
    {
        proof {
            use_type_invariant(&*self);
            lemma_add_entry(self@, key@, count as nat);
        }
        let at = self.find(&key);
        let mut lines: Vec<Line> = Vec::new();
        core::mem::swap(&mut self.lines, &mut lines);
        let ghost before = lines_view(lines@);
        let mut added = true;
        match at {
            Some(i) => {
                proof {
                    lemma_count_for_at(before, i as int);
                }
                match lines[i].count.checked_add(count) {
                    Some(sum) => {
                        lines.set(i, Line { key, count: sum });
                        assert(lines_view(lines@) =~= add_entry(before, key@, count as nat));
                    },
                    None => {
                        added = false;
                    },
                }
            },
            None => {
                proof {
                    lemma_count_for_absent(before, key@);
                }
                lines.push(Line { key, count });
                assert(lines_view(lines@) =~= add_entry(before, key@, count as nat));
            },
        }
        core::mem::swap(&mut self.lines, &mut lines);
        added
    }

    /// The number of lines. No two of them have the same text.
    pub fn len(&self) -> (n: usize)
        ensures
            n == self@.len(),
            distinct_keys(self@),
    {
        proof {
            use_type_invariant(self);
        }
        self.lines.len()
    }

    /// The line at position `i`, where the report has that many lines.
    pub fn line(&self, i: usize) -> (line: Option<&Line>)
        ensures
            line is Some <==> i < self@.len(),
            line matches Some(line) ==> (line.key@, line.count as nat) == self@[i as int],
    {
        if i < self.lines.len() {
            Some(&self.lines[i])
        } else {
            None
        }
    }

    /// How often the stack with the text `key` was sampled; zero for a text
    /// that the report does not hold.
    pub fn count_of(&self, key: &str) -> (count: u64)
        ensures
            count == count_for(self@, key@),
    {
        proof {
            use_type_invariant(self);
        }
        match self.find(&String::from_str(key)) {
            Some(i) => {
                proof {
                    lemma_count_for_at(self@, i as int);
                }
                self.lines[i].count
            },
            None => {
                proof {
                    lemma_count_for_absent(self@, key@);
                }
                0
            },
        }
    }

    /// The sum of the counts of all lines.
    pub fn total(&self) -> (sum: u128)
        ensures
            sum == total(self@),
    {
        let mut sum: u128 = 0;
        let mut i: usize = 0;
        while i < self.lines.len()
            invariant
                i <= self.lines@.len(),
                sum == total(self@.take(i as int)),
                sum <= i * 0xFFFF_FFFF_FFFF_FFFF,
            decreases self.lines@.len() - i,
        {
            assert(self@.take(i + 1).drop_last() =~= self@.take(i as int));
            assert((i + 1) * 0xFFFF_FFFF_FFFF_FFFF <= 0xFFFF_FFFF_FFFF_FFFF
                * 0x1_0000_0000_0000_0000) by (nonlinear_arith)
                requires
                    i < 0x1_0000_0000_0000_0000,
            ;
            sum = sum + self.lines[i].count as u128;
            i = i + 1;
        }
        assert(self@.take(i as int) =~= self@);
        sum
    }

    /// Renders the report file: one line for each stack, in the order of the
    /// report's lines.
    pub fn render(&self) -> (text: String)
        ensures
            text@ == report_text(self@),
    {
        let mut text = String::new();
        let mut i: usize = 0;
        while i < self.lines.len()
            invariant
                i <= self.lines@.len(),
                text@ == report_text(self@.take(i as int)),
            decreases self.lines@.len() - i,
        {
            assert(self@.take(i + 1).drop_last() =~= self@.take(i as int));
            let line = &self.lines[i];
            text.append(render_line(line.key.as_str(), line.count).as_str());
            i = i + 1;
        }
        assert(self@.take(i as int) =~= self@);
        text
    }
}

/// Merges entries by their text: the report has one line for each text of
/// the entries, which counts what the entries with that text count together.
/// There is no report where the entries with one text count more together
/// than a `u64` holds.
pub fn merge(entries: &Vec<Line>) -> (report: Option<Report>)
    ensures
        report is Some <==> forall|key: Seq<char>|
            count_for(lines_view(entries@), key) <= u64::MAX,
        report matches Some(report) ==> report@ == merged(lines_view(entries@)),
        report matches Some(report) ==> distinct_keys(report@),
        report matches Some(report) ==> total(report@) == total(lines_view(entries@)),
        report matches Some(report) ==> forall|key: Seq<char>|
            count_for(report@, key) == count_for(lines_view(entries@), key),
        report matches Some(report) ==> forall|key: Seq<char>|
            has_key(report@, key) <==> has_key(lines_view(entries@), key),
{
    let ghost all = lines_view(entries@);
    let mut report = Report::new();
    let mut i: usize = 0;
    while i < entries.len()
        invariant
            i <= entries@.len(),
            all == lines_view(entries@),
            report@ == merged(all.take(i as int)),
            forall|key: Seq<char>| count_for(all.take(i as int), key) <= u64::MAX,
        decreases entries@.len() - i,
    {
        let ghost done = all.take(i as int);
        let ghost next = all.take(i + 1);
        let entry = &entries[i];
        proof {
            assert(next.drop_last() =~= done);
            assert(next.last() == all[i as int]);
            lemma_merged(done);
            assert(count_for(merged(done), entry.key@) == count_for(done, entry.key@));
            assert(count_for(next, entry.key@) == count_for(done, entry.key@) + entry.count);
        }
        let added = report.add(entry.key.clone(), entry.count);
        if !added {
            proof {
                lemma_count_for_prefix(all, i + 1, entry.key@);
                assert(count_for(all, entry.key@) > u64::MAX);
            }
            return None;
        }
        proof {
            assert forall|key: Seq<char>| count_for(next, key) <= u64::MAX by {
                assert(count_for(done, key) <= u64::MAX);
            }
        }
        i = i + 1;
    }
    proof {
        assert(all.take(i as int) =~= all);
        lemma_merged(all);
    }
    Some(report)
}

} // verus!
