//! Diffs in hunks and lines, and the byte budget under which they are loaded.

use vstd::prelude::*;
use vstd::string::StringExecFns;
use crate::error::AppError;
use crate::text::{chars_of, digits, lines_of, push_decimal, split_lines};

verus! {

/// Limits on how much of a diff is loaded.
pub struct DiffConfig {
    /// Bytes of line content after which the hunks that follow stay unloaded.
    pub max_diff_bytes: usize,
    /// Size in bytes above which an untracked file is read under the budget.
    pub max_file_size: u64,
}

impl Default for DiffConfig {
    fn default() -> (config: Self)
        ensures
            config.max_diff_bytes == 1_048_576,
            config.max_file_size == 1_048_576,
    {
        DiffConfig { max_diff_bytes: 1_048_576, max_file_size: 1_048_576 }
    }
}

impl DiffConfig {
    /// The limits under which everything is loaded.
    pub fn unlimited() -> (config: Self)
        ensures
            config.max_diff_bytes == usize::MAX,
            config.max_file_size == u64::MAX,
    {
        DiffConfig { max_diff_bytes: usize::MAX, max_file_size: u64::MAX }
    }
}

#[derive(Debug, Clone, Copy, PartialEq, Eq, Structural)]
pub enum LineType {
    Context,
    Addition,
    Deletion,
    Header,
}

#[derive(Debug, Clone)]
pub struct DiffLine {
    /// The line's text, with its line feed where the source has one.
    pub content: String,
    pub line_type: LineType,
    pub old_lineno: Option<u32>,
    pub new_lineno: Option<u32>,
}

/// A line of a hunk as a value: its kind, its text and its line numbers.
pub struct HunkLine {
    pub kind: LineType,
    pub content: Seq<char>,
    pub old_lineno: Option<u32>,
    pub new_lineno: Option<u32>,
}

impl View for DiffLine {
    type V = HunkLine;

    open spec fn view(&self) -> HunkLine {
        HunkLine {
            kind: self.line_type,
            content: self.content@,
            old_lineno: self.old_lineno,
            new_lineno: self.new_lineno,
        }
    }
}

#[derive(Debug, Clone)]
pub struct DiffHunk {
    pub header: String,
    pub old_start: u32,
    pub old_lines: u32,
    pub new_start: u32,
    pub new_lines: u32,
    pub lines: Vec<DiffLine>,
    /// False for a hunk whose lines were left out because the budget was spent.
    pub is_loaded: bool,
}

/// A hunk as a value.
pub struct Hunk {
    pub header: Seq<char>,
    pub old_start: u32,
    pub old_lines: u32,
    pub new_start: u32,
    pub new_lines: u32,
    pub lines: Seq<HunkLine>,
    pub is_loaded: bool,
}

impl View for DiffHunk {
    type V = Hunk;

    open spec fn view(&self) -> Hunk {
        Hunk {
            header: self.header@,
            old_start: self.old_start,
            old_lines: self.old_lines,
            new_start: self.new_start,
            new_lines: self.new_lines,
            lines: self.changes(),
            is_loaded: self.is_loaded,
        }
    }
}

impl DiffHunk {
    /// The hunk's lines as values.
    pub open spec fn changes(&self) -> Seq<HunkLine> {
        self.lines@.map_values(|l: DiffLine| l@)
    }
}

#[derive(Debug, Clone)]
pub struct FileDiff {
    pub path: String,
    pub hunks: Vec<DiffHunk>,
    pub is_binary: bool,
    /// Lines seen in the diff, loaded or not.
    pub total_lines: u32,
}

/// The diff of a file as a value.
pub struct Changes {
    pub path: Seq<char>,
    pub hunks: Seq<Hunk>,
    pub is_binary: bool,
    pub total_lines: u32,
}

/// The hunks of a list as values.
pub open spec fn hunk_views(hunks: Seq<DiffHunk>) -> Seq<Hunk> {
    hunks.map_values(|h: DiffHunk| h@)
}

impl View for FileDiff {
    type V = Changes;

    open spec fn view(&self) -> Changes {
        Changes {
            path: self.path@,
            hunks: hunk_views(self.hunks@),
            is_binary: self.is_binary,
            total_lines: self.total_lines,
        }
    }
}

/// The head of a hunk, as the backend reports it with each of the hunk's lines.
#[derive(Debug)]
pub struct HunkHeader {
    pub header: String,
    pub old_start: u32,
    pub old_lines: u32,
    pub new_start: u32,
    pub new_lines: u32,
}

/// One line of a patch, as the backend reports it.
#[derive(Debug)]
pub struct PatchLine {
    pub content: String,
    /// `+` for an added line, `-` for a deleted one, a blank for context.
    pub origin: char,
    pub old_lineno: Option<u32>,
    pub new_lineno: Option<u32>,
}

/// One report of the backend while it prints a patch.
#[derive(Debug)]
pub struct PatchEvent {
    /// Whether the file that the line belongs to is binary.
    pub is_binary: bool,
    /// The hunk that the line belongs to, if it belongs to one.
    pub hunk: Option<HunkHeader>,
    pub line: PatchLine,
}

/// A report of the backend as a value.
pub struct Report {
    pub is_binary: bool,
    /// The hunk that the line belongs to, without lines.
    pub hunk: Option<Hunk>,
    pub line: HunkLine,
}

/// The kind of line that an origin mark stands for.
pub open spec fn kind_of(origin: char) -> LineType {
    if origin == '+' {
        LineType::Addition
    } else if origin == '-' {
        LineType::Deletion
    } else if origin == ' ' {
        LineType::Context
    } else {
        LineType::Header
    }
}

impl View for PatchEvent {
    type V = Report;

    open spec fn view(&self) -> Report {
        Report {
            is_binary: self.is_binary,
            hunk: match self.hunk {
                Some(h) => Some(
                    Hunk {
                        header: h.header@,
                        old_start: h.old_start,
                        old_lines: h.old_lines,
                        new_start: h.new_start,
                        new_lines: h.new_lines,
                        lines: Seq::empty(),
                        is_loaded: true,
                    },
                ),
                None => None,
            },
            line: HunkLine {
                kind: kind_of(self.line.origin),
                content: self.line.content@,
                old_lineno: self.line.old_lineno,
                new_lineno: self.line.new_lineno,
            },
        }
    }
}

/// Number of bytes that a text takes.
pub open spec fn byte_len(s: Seq<char>) -> nat {
    vstd::utf8::encode_utf8(s).len()
}

/// A diff while it is being loaded.
pub struct Loading {
    /// The hunks that are complete.
    pub hunks: Seq<Hunk>,
    /// The hunk that lines are added to.
    pub current: Option<Hunk>,
    /// Bytes of line content loaded so far, counted up to the largest `usize`.
    pub bytes: nat,
    /// Whether the budget is spent.
    pub exceeded: bool,
    pub is_binary: bool,
    /// Lines seen, loaded or not.
    pub total_lines: nat,
}

/// The sum of two byte counts, counted up to the largest `usize`.
pub open spec fn capped_sum(a: nat, b: nat) -> nat {
    if a + b > usize::MAX {
        usize::MAX as nat
    } else {
        a + b
    }
}

/// Whether a report begins a hunk: it names a hunk, and no hunk of that
/// header is being added to.
pub open spec fn begins_hunk(st: Loading, report: Report) -> bool {
    report.hunk matches Some(h) && !(st.current matches Some(c) && c.header == h.header)
}

/// The state with the current hunk closed and the reported one begun: to be
/// loaded while the budget lasts, left unloaded once it is spent.
pub open spec fn begin_hunk(st: Loading, report: Report) -> Loading {
    Loading {
        hunks: match st.current {
            Some(c) => st.hunks.push(c),
            None => st.hunks,
        },
        current: Some(Hunk { lines: Seq::empty(), is_loaded: !st.exceeded, ..report.hunk->0 }),
        ..st
    }
}

/// The hunk without its lines, marked as not loaded.
pub open spec fn unloaded(hunk: Hunk) -> Hunk {
    Hunk { lines: Seq::empty(), is_loaded: false, ..hunk }
}

/// The state with one more line of the current hunk counted. While the
/// budget lasts the line is loaded too; once the bytes loaded exceed
/// `max_bytes` the budget is spent, and the current hunk is left unloaded.
pub open spec fn count_line(st: Loading, line: HunkLine, max_bytes: nat) -> Loading {
    match st.current {
        None => st,
        Some(c) => if st.exceeded {
            Loading { total_lines: st.total_lines + 1, ..st }
        } else {
            let bytes = capped_sum(st.bytes, byte_len(line.content));
            Loading {
                current: Some(
                    if bytes > max_bytes {
                        unloaded(c)
                    } else {
                        Hunk { lines: c.lines.push(line), ..c }
                    },
                ),
                bytes,
                exceeded: bytes > max_bytes,
                total_lines: st.total_lines + 1,
                ..st
            }
        },
    }
}

/// The state after one report. A report on a binary file marks the diff as
/// binary and does nothing else.
pub open spec fn feed(st: Loading, report: Report, max_bytes: nat) -> Loading {
    if report.is_binary {
        Loading { is_binary: true, ..st }
    } else if begins_hunk(st, report) {
        count_line(begin_hunk(st, report), report.line, max_bytes)
    } else {
        count_line(st, report.line, max_bytes)
    }
}

/// The state before any report.
pub open spec fn nothing_loaded() -> Loading {
    Loading {
        hunks: Seq::empty(),
        current: None,
        bytes: 0,
        exceeded: false,
        is_binary: false,
        total_lines: 0,
    }
}

/// The state after the first `n` reports.
pub open spec fn fed(reports: Seq<Report>, max_bytes: nat, n: nat) -> Loading
    decreases n,
{
    if n == 0 {
        nothing_loaded()
    } else {
        feed(fed(reports, max_bytes, (n - 1) as nat), reports[n - 1], max_bytes)
    }
}

/// The hunks of a diff that is loaded: the complete ones and the current one.
pub open spec fn all_hunks(st: Loading) -> Seq<Hunk> {
    match st.current {
        Some(c) => st.hunks.push(c),
        None => st.hunks,
    }
}

/// Loads a diff from the reports of the backend, within the budget.
pub struct DiffCollector {
    path: String,
    hunks: Vec<DiffHunk>,
    current: Option<DiffHunk>,
    bytes_collected: usize,
    budget_exceeded: bool,
    is_binary: bool,
    total_lines: u32,
    max_diff_bytes: usize,
}

impl View for DiffCollector {
    type V = Loading;

    closed spec fn view(&self) -> Loading {
        Loading {
            hunks: hunk_views(self.hunks@),
            current: match self.current {
                Some(h) => Some(h@),
                None => None,
            },
            bytes: self.bytes_collected as nat,
            exceeded: self.budget_exceeded,
            is_binary: self.is_binary,
            total_lines: self.total_lines as nat,
        }
    }
}

impl DiffCollector {
    /// The path of the file whose diff is loaded.
    pub closed spec fn path(&self) -> Seq<char> {
        self.path@
    }

    /// The budget in bytes.
    pub closed spec fn budget(&self) -> nat {
        self.max_diff_bytes as nat
    }

    /// A collector for the diff of `path` that has seen nothing yet.
    pub fn new(path: &str, config: &DiffConfig) -> (collector: Self)
        ensures
            collector@ == nothing_loaded(),
            collector.path() == path@,
            collector.budget() == config.max_diff_bytes,
    {
        let collector = DiffCollector {
            path: path.to_owned(),
            hunks: Vec::new(),
            current: None,
            bytes_collected: 0,
            budget_exceeded: false,
            is_binary: false,
            total_lines: 0,
            max_diff_bytes: config.max_diff_bytes,
        };
        proof {
            assert(hunk_views(collector.hunks@) =~= Seq::empty());
        }
        collector
    }

    /// Lines seen so far, loaded or not.
    pub fn total_lines(&self) -> (total: u32)
        ensures
            total == self@.total_lines,
    {
        self.total_lines
    }

    /// Takes one report of the backend.
    pub fn on_line(&mut self, event: PatchEvent)
        requires
            old(self)@.total_lines < u32::MAX,
        ensures
            final(self)@ == feed(old(self)@, event@, old(self).budget()),
            final(self).path() == old(self).path(),
            final(self).budget() == old(self).budget(),
    {
        let ghost report = event@;
        let ghost before = self@;
        if event.is_binary {
            self.is_binary = true;
            return ;
        }
        match event.hunk {
            Some(h) => {
                let same = match &self.current {
                    Some(c) => c.header == h.header,
                    None => false,
                };
                assert(same == !begins_hunk(before, report));
                if !same {
                    match self.current.take() {
                        Some(done) => {
                            proof {
                                assert(hunk_views(self.hunks@.push(done)) =~= hunk_views(
                                    self.hunks@,
                                ).push(done@));
                            }
                            self.hunks.push(done);
                        },
                        None => {},
                    }
                    let begun = DiffHunk {
                        header: h.header,
                        old_start: h.old_start,
                        old_lines: h.old_lines,
                        new_start: h.new_start,
                        new_lines: h.new_lines,
                        lines: Vec::new(),
                        is_loaded: !self.budget_exceeded,
                    };
                    proof {
                        assert(begun.changes() =~= Seq::empty());
                    }
                    self.current = Some(begun);
                    assert(self@ == begin_hunk(before, report));
                }
            },
            None => {
                assert(!begins_hunk(before, report));
            },
        }
        let ghost begun = self@;
        let line = event.line;
        let line_type = if line.origin == '+' {
            LineType::Addition
        } else if line.origin == '-' {
            LineType::Deletion
        } else if line.origin == ' ' {
            LineType::Context
        } else {
            LineType::Header
        };
        let size = line.content.as_str().as_bytes().len();
        let budget = self.max_diff_bytes;
        let bytes = self.bytes_collected.saturating_add(size);
        match self.current.take() {
            Some(hunk) => {
                let mut hunk = hunk;
                let ghost open = hunk@;
                if !self.budget_exceeded {
                    self.bytes_collected = bytes;
                    if bytes > budget {
                        self.budget_exceeded = true;
                        hunk.lines = Vec::new();
                        hunk.is_loaded = false;
                        proof {
                            assert(hunk.changes() =~= Seq::empty());
                        }
                    } else {
                        let entry = DiffLine {
                            content: line.content,
                            line_type,
                            old_lineno: line.old_lineno,
                            new_lineno: line.new_lineno,
                        };
                        proof {
                            assert(entry@ == report.line);
                            assert(hunk.lines@.push(entry).map_values(|l: DiffLine| l@)
                                =~= hunk.changes().push(entry@));
                        }
                        hunk.lines.push(entry);
                        assert(hunk@ == (Hunk { lines: open.lines.push(report.line), ..open }));
                    }
                }
                self.total_lines = self.total_lines + 1;
                self.current = Some(hunk);
            },
            None => {},
        }
        proof {
            assert(self@ == count_line(begun, report.line, budget as nat));
        }
    }

    /// The diff that was loaded.
    pub fn finish(self) -> (diff: FileDiff)
        ensures
            diff@ == (Changes {
                path: self.path(),
                hunks: all_hunks(self@),
                is_binary: self@.is_binary,
                total_lines: self@.total_lines as u32,
            }),
    {
        let mut hunks = self.hunks;
        match self.current {
            Some(last) => {
                proof {
                    assert(hunk_views(hunks@.push(last)) =~= hunk_views(hunks@).push(last@));
                }
                hunks.push(last);
            },
            None => {},
        }
        FileDiff {
            path: self.path,
            hunks,
            is_binary: self.is_binary,
            total_lines: self.total_lines,
        }
    }
}

/// The total of lines after the first `n` reports is at most `n`.
pub proof fn lemma_fed_total(reports: Seq<Report>, max_bytes: nat, n: nat)
    ensures
        fed(reports, max_bytes, n).total_lines <= n,
    decreases n,
{
    if n > 0 {
        lemma_fed_total(reports, max_bytes, (n - 1) as nat);
    }
}

/// The reports of a list as values.
pub open spec fn reports_of(events: Seq<PatchEvent>) -> Seq<Report> {
    events.map_values(|e: PatchEvent| e@)
}

/// Loads the diff of `path` from all the reports of the backend, within the
/// budget of `config`.
pub fn load_diff(path: &str, config: &DiffConfig, events: Vec<PatchEvent>) -> (diff: FileDiff)
    requires
        events.len() <= u32::MAX,
    ensures
        diff@ == ({
            let loaded = fed(reports_of(events@), config.max_diff_bytes as nat, events.len() as nat);
            Changes {
                path: path@,
                hunks: all_hunks(loaded),
                is_binary: loaded.is_binary,
                total_lines: loaded.total_lines as u32,
            }
        }),
{
    let ghost reports = reports_of(events@);
    let ghost max = config.max_diff_bytes as nat;
    let mut collector = DiffCollector::new(path, config);
    for event in it: events
        invariant
            it.seq() == events@,
            reports == reports_of(events@),
            events.len() <= u32::MAX,
            max == config.max_diff_bytes,
            collector.path() == path@,
            collector.budget() == max,
            collector@ == fed(reports, max, it.index() as nat),
    {
        proof {
            lemma_fed_total(reports, max, it.index() as nat);
            assert(reports[it.index() as int] == event@);
        }
        collector.on_line(event);
    }
    proof {
        lemma_fed_total(reports, max, events.len() as nat);
    }
    collector.finish()
}

/// The hunk at `hunk_index` of a diff.
pub fn get_diff_hunk(file_diff: FileDiff, hunk_index: usize) -> (result: Result<
    DiffHunk,
    AppError,
>)
    ensures
        hunk_index < file_diff.hunks.len() ==> result is Ok && result->Ok_0
            == file_diff.hunks[hunk_index as int],
        hunk_index >= file_diff.hunks.len() ==> result is Err && result->Err_0 == (
        AppError::IndexOutOfRange { index: hunk_index, len: file_diff.hunks.len() }),
{
    let mut hunks = file_diff.hunks;
    let len = hunks.len();
    if hunk_index < len {
        Ok(hunks.remove(hunk_index))
    } else {
        Err(AppError::IndexOutOfRange { index: hunk_index, len })
    }
}

/// Whether a zero byte stands among the first 8192 bytes of `content`, which
/// is taken as the sign of a binary file.
pub open spec fn looks_binary(content: Seq<u8>) -> bool {
    exists|i: int| 0 <= i < content.len() && i < 8192 && content[i] == 0
}

/// Tells a binary file by a zero byte among its first 8192 bytes.
pub fn is_binary_content(content: &[u8]) -> (binary: bool)
    ensures
        binary == looks_binary(content@),
{
    let mut i: usize = 0;
    while i < content.len() && i < 8192
        invariant
            i <= content.len(),
            i <= 8192,
            forall|j: int| 0 <= j < i ==> content@[j] != 0,
        decreases content.len() - i,
    {
        if content[i] == 0 {
            return true;
        }
        i += 1;
    }
    false
}

/// The diff of a file that is binary: no hunks, no lines.
pub fn binary_file_diff(path: &str) -> (diff: FileDiff)
    ensures
        diff@ == (Changes {
            path: path@,
            hunks: Seq::empty(),
            is_binary: true,
            total_lines: 0,
        }),
{
    let diff = FileDiff {
        path: path.to_owned(),
        hunks: Vec::new(),
        is_binary: true,
        total_lines: 0,
    };
    proof {
        assert(hunk_views(diff.hunks@) =~= Seq::empty());
    }
    diff
}

/// Line `index` of a new file, counted from 0, as an added line.
pub open spec fn added_line(text: Seq<char>, index: int) -> HunkLine {
    HunkLine {
        kind: LineType::Addition,
        content: text.push('\n'),
        old_lineno: None,
        new_lineno: Some((index + 1) as u32),
    }
}

/// The lines of a new file as added lines.
pub open spec fn added_lines(lines: Seq<Seq<char>>) -> Seq<HunkLine> {
    Seq::new(lines.len(), |i: int| added_line(lines[i], i))
}

/// The header of the one hunk of a new file of `count` lines.
pub open spec fn new_file_header(count: nat) -> Seq<char> {
    "@@ -0,0 +1,"@ + digits(count) + " @@\n"@
}

/// The one hunk of a new file: `count` lines, of which `lines` are held.
pub open spec fn new_file_hunk(count: nat, lines: Seq<HunkLine>, is_loaded: bool) -> Hunk {
    Hunk {
        header: new_file_header(count),
        old_start: 0,
        old_lines: 0,
        new_start: 1,
        new_lines: count as u32,
        lines,
        is_loaded,
    }
}

/// The diff of an untracked file with the given lines: every line is an
/// addition, in one hunk; a file without lines has no hunk.
pub open spec fn new_file_changes(path: Seq<char>, lines: Seq<Seq<char>>) -> Changes {
    Changes {
        path,
        hunks: if lines.len() == 0 {
            Seq::empty()
        } else {
            seq![new_file_hunk(lines.len(), added_lines(lines), true)]
        },
        is_binary: false,
        total_lines: lines.len() as u32,
    }
}

fn new_file_diff_hunk(count: u64, lines: Vec<DiffLine>, is_loaded: bool) -> (hunk: DiffHunk)
    ensures
        hunk@ == new_file_hunk(
            count as nat,
            lines@.map_values(|l: DiffLine| l@),
            is_loaded,
        ),
{
    let mut header = String::from_str("@@ -0,0 +1,");
    push_decimal(&mut header, count);
    header.append(" @@\n");
    DiffHunk {
        header,
        old_start: 0,
        old_lines: 0,
        new_start: 1,
        new_lines: #[verifier::truncate]
        (count as u32),
        lines,
        is_loaded,
    }
}

/// The diff of an untracked file from its text, all of it loaded.
pub fn untracked_file_diff(path: &str, text: &str) -> (diff: FileDiff)
    ensures
        diff@ == new_file_changes(path@, split_lines(text@)),
{
    let chars = chars_of(text);
    let lines = lines_of(&chars);
    let n = lines.len();
    let ghost texts = split_lines(text@);
    let mut hunks: Vec<DiffHunk> = Vec::new();
    if n > 0 {
        let mut entries: Vec<DiffLine> = Vec::new();
        let mut i: usize = 0;
        while i < n
            invariant
                n == lines.len(),
                texts == crate::text::line_views(lines@),
                i <= n,
                entries@.map_values(|l: DiffLine| l@) == added_lines(texts).take(i as int),
            decreases n - i,
        {
            let mut content = String::new();
            let line = &lines[i];
            let mut j: usize = 0;
            while j < line.len()
                invariant
                    j <= line.len(),
                    content@ == line@.take(j as int),
                decreases line.len() - j,
            {
                proof {
                    assert(line@.take(j as int).push(line@[j as int]) =~= line@.take(j + 1));
                }
                content.push(line[j]);
                j += 1;
            }
            content.push('\n');
            let entry = DiffLine {
                content,
                line_type: LineType::Addition,
                old_lineno: None,
                new_lineno: Some(
                    #[verifier::truncate]
                    ((i + 1) as u32),
                ),
            };
            proof {
                assert(line@.take(line.len() as int) =~= line@);
                assert(entry@ == added_line(texts[i as int], i as int));
                assert(texts.len() == n);
                assert(added_lines(texts)[i as int] == entry@);
                assert(entries@.push(entry).map_values(|l: DiffLine| l@) =~= entries@.map_values(
                    |l: DiffLine| l@,
                ).push(entry@));
                assert(added_lines(texts).take(i + 1) =~= added_lines(texts).take(i as int).push(
                    entry@,
                ));
            }
            entries.push(entry);
            i += 1;
        }
        proof {
            assert(added_lines(texts).take(n as int) =~= added_lines(texts));
        }
        let hunk = new_file_diff_hunk(n as u64, entries, true);
        hunks.push(hunk);
        proof {
            assert(hunk_views(hunks@) =~= seq![hunk@]);
        }
    } else {
        proof {
            assert(hunk_views(hunks@) =~= Seq::empty());
        }
    }
    FileDiff {
        path: path.to_owned(),
        hunks,
        is_binary: false,
        total_lines: #[verifier::truncate]
        (n as u32),
    }
}

/// The lines of a large untracked file while they are read.
pub struct Reading {
    /// The lines that are held.
    pub lines: Seq<HunkLine>,
    /// Bytes of the lines held, counted up to the largest `usize`.
    pub bytes: nat,
    /// Whether the budget is spent.
    pub exceeded: bool,
    /// Lines read.
    pub total_lines: nat,
}

/// The state after one more line of the file. While the budget lasts the
/// line is held, with its line feed; once the bytes held exceed `max_bytes`
/// the budget is spent and no line is held any more.
pub open spec fn read_line(st: Reading, text: Seq<char>, max_bytes: nat) -> Reading {
    if st.exceeded {
        Reading { total_lines: st.total_lines + 1, ..st }
    } else {
        let line = added_line(text, st.total_lines as int);
        let bytes = capped_sum(st.bytes, byte_len(line.content));
        Reading {
            lines: if bytes > max_bytes {
                Seq::empty()
            } else {
                st.lines.push(line)
            },
            bytes,
            exceeded: bytes > max_bytes,
            total_lines: st.total_lines + 1,
        }
    }
}

/// Reads an untracked file line by line, within the budget.
pub struct UntrackedLoader {
    lines: Vec<DiffLine>,
    bytes_collected: usize,
    budget_exceeded: bool,
    total_line_count: u32,
    max_diff_bytes: usize,
}

impl View for UntrackedLoader {
    type V = Reading;

    closed spec fn view(&self) -> Reading {
        Reading {
            lines: self.lines@.map_values(|l: DiffLine| l@),
            bytes: self.bytes_collected as nat,
            exceeded: self.budget_exceeded,
            total_lines: self.total_line_count as nat,
        }
    }
}

impl UntrackedLoader {
    /// The budget in bytes.
    pub closed spec fn budget(&self) -> nat {
        self.max_diff_bytes as nat
    }

    /// A loader that has read nothing yet.
    pub fn new(config: &DiffConfig) -> (loader: Self)
        ensures
            loader@ == (Reading {
                lines: Seq::empty(),
                bytes: 0,
                exceeded: false,
                total_lines: 0,
            }),
            loader.budget() == config.max_diff_bytes,
    {
        let loader = UntrackedLoader {
            lines: Vec::new(),
            bytes_collected: 0,
            budget_exceeded: false,
            total_line_count: 0,
            max_diff_bytes: config.max_diff_bytes,
        };
        proof {
            assert(loader@.lines =~= Seq::empty());
        }
        loader
    }

    /// Lines read so far.
    pub fn total_lines(&self) -> (total: u32)
        ensures
            total == self@.total_lines,
    {
        self.total_line_count
    }

    /// Takes the next line of the file, given without its line feed.
    pub fn on_line(&mut self, line_text: String)
        requires
            old(self)@.total_lines < u32::MAX,
        ensures
            final(self)@ == read_line(old(self)@, line_text@, old(self).budget()),
            final(self).budget() == old(self).budget(),
    {
        let ghost before = self@;
        self.total_line_count = self.total_line_count + 1;
        if !self.budget_exceeded {
            let mut content = line_text;
            content.push('\n');
            let size = content.as_str().as_bytes().len();
            self.bytes_collected = self.bytes_collected.saturating_add(size);
            if self.bytes_collected > self.max_diff_bytes {
                self.budget_exceeded = true;
                self.lines = Vec::new();
                proof {
                    assert(self@.lines =~= Seq::empty());
                }
            } else {
                let entry = DiffLine {
                    content,
                    line_type: LineType::Addition,
                    old_lineno: None,
                    new_lineno: Some(self.total_line_count),
                };
                proof {
                    assert(entry@ == added_line(line_text@, before.total_lines as int));
                    assert(self.lines@.push(entry).map_values(|l: DiffLine| l@)
                        =~= before.lines.push(entry@));
                }
                self.lines.push(entry);
            }
        }
    }

    /// The diff of the file at `path`: one hunk with the lines that are
    /// held, loaded unless the budget was spent.
    pub fn finish(self, path: &str) -> (diff: FileDiff)
        ensures
            diff@ == (Changes {
                path: path@,
                hunks: seq![
                    new_file_hunk(self@.total_lines, self@.lines, !self@.exceeded),
                ],
                is_binary: false,
                total_lines: self@.total_lines as u32,
            }),
    {
        let total = self.total_line_count;
        let hunk = new_file_diff_hunk(total as u64, self.lines, !self.budget_exceeded);
        let mut hunks: Vec<DiffHunk> = Vec::new();
        hunks.push(hunk);
        proof {
            assert(hunk_views(hunks@) =~= seq![hunk@]);
        }
        FileDiff { path: path.to_owned(), hunks, is_binary: false, total_lines: total }
    }
}

} // verus!
