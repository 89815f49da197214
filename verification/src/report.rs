//! The report of a benchmark.

use vstd::prelude::*;

use crate::cli::CliRequest;
use crate::inventory::{Inventory, Load};
use crate::number::{decimal, decimal_text, is_digit, lemma_decimal_value};
use crate::remote::{destination, label, lemma_label_round_trip, Destination};
use crate::text::{lemma_split_at, lemma_split_whole, split, views};

verus! {

/// What is reported of one number of workers. The times are in seconds, written out.
#[derive(Debug)]
pub struct ReportRow {
    pub jobs: usize,
    pub times: Vec<String>,
    pub median: String,
    pub mean: String,
    pub remote_run_roots: Vec<String>,
}

/// What is reported of one number of workers, as a specification speaks of it.
pub struct Row {
    pub jobs: nat,
    pub times: Seq<Seq<char>>,
    pub median: Seq<char>,
    pub mean: Seq<char>,
    pub roots: Seq<Seq<char>>,
}

impl View for ReportRow {
    type V = Row;

    open spec fn view(&self) -> Row {
        Row {
            jobs: self.jobs as nat,
            times: views(self.times@),
            median: self.median@,
            mean: self.mean@,
            roots: views(self.remote_run_roots@),
        }
    }
}

pub open spec fn row_views(rows: Seq<ReportRow>) -> Seq<Row> {
    rows.map_values(|r: ReportRow| r@)
}

/// What is reported of a benchmark.
#[derive(Debug)]
pub struct BenchmarkReport {
    pub source: String,
    pub remote: String,
    pub files: usize,
    pub total_bytes: u64,
    pub fsync: bool,
    pub rows: Vec<ReportRow>,
}

/// What is reported of a benchmark, as a specification speaks of it.
pub struct Findings {
    pub source: Seq<char>,
    pub remote: Seq<char>,
    pub files: nat,
    pub total_bytes: nat,
    pub fsync: bool,
    pub rows: Seq<Row>,
}

impl View for BenchmarkReport {
    type V = Findings;

    open spec fn view(&self) -> Findings {
        Findings {
            source: self.source@,
            remote: self.remote@,
            files: self.files as nat,
            total_bytes: self.total_bytes as nat,
            fsync: self.fsync,
            rows: row_views(self.rows@),
        }
    }
}

/// The times one behind the other.
pub open spec fn time_list(times: Seq<Seq<char>>) -> Seq<char>
    decreases times.len(),
{
    if times.len() == 0 {
        Seq::empty()
    } else if times.len() == 1 {
        times[0] + "s"@
    } else {
        time_list(times.drop_last()) + ", "@ + times.last() + "s"@
    }
}

/// The line of the table for one number of workers.
pub open spec fn row_line(row: Row) -> Seq<char> {
    "| Parsync Rust push | "@ + decimal(row.jobs) + " | "@ + decimal(row.times.len()) + " | "@
        + time_list(row.times) + " | "@ + row.median + "s | "@ + row.mean + "s |"@
}

pub open spec fn root_line(root: Seq<char>) -> Seq<char> {
    "- `"@ + root + "`"@
}

/// The lines ahead of the rows of the table.
pub open spec fn head_lines(f: Findings) -> Seq<Seq<char>> {
    seq![
        "# Concurrent Rust SFTP push benchmark"@,
        ""@,
        "- Source: `"@ + f.source + "`"@,
        "- Remote destination: `"@ + f.remote + "`"@,
        "- Files: "@ + decimal(f.files),
        "- Total size: "@ + decimal(f.total_bytes) + " bytes"@,
        "- Transfer: parsync ConnectionPool + ssh2::Sftp with Rayon concurrency"@,
        "- SFTP fsync requested: "@ + if f.fsync {
            "yes"@
        } else {
            "no"@
        },
        ""@,
        "| Strategy | Workers (--jobs) | Runs | Times | Median | Mean |"@,
        "|---|---:|---:|---|---:|---:|"@,
    ]
}

pub open spec fn row_lines(rows: Seq<Row>) -> Seq<Seq<char>> {
    rows.map_values(|r: Row| row_line(r))
}

/// The lines between the table and the list of directories.
pub open spec fn note_lines() -> Seq<Seq<char>> {
    seq![
        ""@,
        "Remote benchmark directories left in place for inspection and manual cleanup:"@,
    ]
}

pub open spec fn root_lines(roots: Seq<Seq<char>>) -> Seq<Seq<char>> {
    roots.map_values(|r: Seq<char>| root_line(r))
}

/// The lines that name the directories of all rows.
pub open spec fn all_root_lines(rows: Seq<Row>) -> Seq<Seq<char>>
    decreases rows.len(),
{
    if rows.len() == 0 {
        Seq::empty()
    } else {
        all_root_lines(rows.drop_last()) + root_lines(rows.last().roots)
    }
}

/// The lines of the report.
pub open spec fn report_lines(f: Findings) -> Seq<Seq<char>> {
    head_lines(f) + row_lines(f.rows) + note_lines() + all_root_lines(f.rows)
}

/// The text that consists of these lines.
pub open spec fn text_of(lines: Seq<Seq<char>>) -> Seq<char>
    decreases lines.len(),
{
    if lines.len() == 0 {
        Seq::empty()
    } else {
        text_of(lines.drop_last()) + lines.last() + "\n"@
    }
}

proof fn lemma_text_append(a: Seq<Seq<char>>, b: Seq<Seq<char>>)
    ensures
        text_of(a + b) == text_of(a) + text_of(b),
    decreases b.len(),
{
    if b.len() == 0 {
        assert(a + b =~= a);
        assert(text_of(a) + text_of(b) =~= text_of(a));
    } else {
        lemma_text_append(a, b.drop_last());
        assert((a + b).drop_last() =~= a + b.drop_last());
        assert(text_of(a + b) =~= text_of(a) + text_of(b));
    }
}

/// Writes the times one behind the other.
fn write_times(times: &Vec<String>) -> (r: String)
    ensures
        r@ == time_list(views(times@)),
{
    let mut out: String = "".to_owned();
    let mut i: usize = 0;
    let ghost all = views(times@);
    proof {
        reveal_strlit("");
        assert(all.take(0) =~= Seq::empty());
        assert(out@ =~= Seq::empty());
    }
    while i < times.len()
        invariant
            all == views(times@),
            i <= times.len(),
            out@ == time_list(all.take(i as int)),
        decreases times.len() - i,
    {
        let ghost before = out@;
        if i > 0 {
            out.append(", ");
        }
        out.append(times[i].as_str());
        out.append("s");
        proof {
            let longer = all.take(i + 1);
            assert(longer.drop_last() =~= all.take(i as int));
            assert(longer.last() == times@[i as int]@);
            if i == 0 {
                assert(before =~= Seq::empty());
                assert(out@ =~= longer[0] + "s"@);
            }
            assert(out@ == time_list(longer));
        }
        i += 1;
    }
    assert(all.take(all.len() as int) =~= all);
    out
}

/// Writes the line of the table for one number of workers.
fn write_row(row: &ReportRow) -> (r: String)
    ensures
        r@ == row_line(row@),
{
    let mut out: String = "| Parsync Rust push | ".to_owned();
    let jobs: String = decimal_text(row.jobs as u64);
    let runs: String = decimal_text(row.times.len() as u64);
    let times: String = write_times(&row.times);
    out.append(jobs.as_str());
    out.append(" | ");
    out.append(runs.as_str());
    out.append(" | ");
    out.append(times.as_str());
    out.append(" | ");
    out.append(row.median.as_str());
    out.append("s | ");
    out.append(row.mean.as_str());
    out.append("s |");
    out
}

/// Writes three pieces one behind the other.
fn three(before: &str, between: &str, behind: &str) -> (r: String)
    ensures
        r@ == before@ + between@ + behind@,
{
    let mut out: String = before.to_owned();
    out.append(between);
    out.append(behind);
    out
}

/// Adds a line.
fn add_line(out: &mut String, line: &str)
    ensures
        forall|lines: Seq<Seq<char>>|
            old(out)@ == #[trigger] text_of(lines) ==> final(out)@ == text_of(lines.push(line@)),
{
    let ghost before = out@;
    out.append(line);
    out.append("\n");
    assert forall|lines: Seq<Seq<char>>| before == #[trigger] text_of(lines) implies out@ == text_of(
        lines.push(line@),
    ) by {
        assert(lines.push(line@).drop_last() =~= lines);
        assert(out@ =~= text_of(lines.push(line@)));
    }
}

/// Writes what stands ahead of the rows of the table.
fn write_head(report: &BenchmarkReport) -> (r: String)
    ensures
        r@ == text_of(head_lines(report@)),
{
    let mut out: String = "".to_owned();
    let ghost lines = head_lines(report@);
    let source: String = three("- Source: `", report.source.as_str(), "`");
    let remote: String = three("- Remote destination: `", report.remote.as_str(), "`");
    let files: String = decimal_text(report.files as u64);
    let mut file_line: String = "- Files: ".to_owned();
    file_line.append(files.as_str());
    let total: String = decimal_text(report.total_bytes);
    let size: String = three("- Total size: ", total.as_str(), " bytes");
    let mut fsync: String = "- SFTP fsync requested: ".to_owned();
    if report.fsync {
        fsync.append("yes");
    } else {
        fsync.append("no");
    }
    proof {
        reveal_strlit("");
        assert(out@ =~= text_of(lines.take(0)));
        assert forall|n: int| 0 < n <= lines.len() implies #[trigger] lines.take(n) == lines.take(
            n - 1,
        ).push(lines[n - 1]) by {
            assert(lines.take(n) =~= lines.take(n - 1).push(lines[n - 1]));
        }
    }
    add_line(&mut out, "# Concurrent Rust SFTP push benchmark");
    assert(out@ == text_of(lines.take(1)));
    add_line(&mut out, "");
    assert(out@ == text_of(lines.take(2)));
    add_line(&mut out, source.as_str());
    assert(out@ == text_of(lines.take(3)));
    add_line(&mut out, remote.as_str());
    assert(out@ == text_of(lines.take(4)));
    add_line(&mut out, file_line.as_str());
    assert(out@ == text_of(lines.take(5)));
    add_line(&mut out, size.as_str());
    assert(out@ == text_of(lines.take(6)));
    add_line(
        &mut out,
        "- Transfer: parsync ConnectionPool + ssh2::Sftp with Rayon concurrency",
    );
    assert(out@ == text_of(lines.take(7)));
    add_line(&mut out, fsync.as_str());
    assert(out@ == text_of(lines.take(8)));
    add_line(&mut out, "");
    assert(out@ == text_of(lines.take(9)));
    add_line(&mut out, "| Strategy | Workers (--jobs) | Runs | Times | Median | Mean |");
    assert(out@ == text_of(lines.take(10)));
    add_line(&mut out, "|---|---:|---:|---|---:|---:|");
    assert(out@ == text_of(lines.take(11)));
    assert(lines.take(11) =~= lines);
    out
}

/// Writes the rows of the table.
fn write_rows(rows: &Vec<ReportRow>) -> (r: String)
    ensures
        r@ == text_of(row_lines(row_views(rows@))),
{
    let mut out: String = "".to_owned();
    let ghost lines = row_lines(row_views(rows@));
    let mut i: usize = 0;
    proof {
        reveal_strlit("");
        assert(out@ =~= text_of(lines.take(0)));
    }
    while i < rows.len()
        invariant
            lines == row_lines(row_views(rows@)),
            i <= rows.len(),
            out@ == text_of(lines.take(i as int)),
        decreases rows.len() - i,
    {
        let line: String = write_row(&rows[i]);
        add_line(&mut out, line.as_str());
        proof {
            assert(row_views(rows@)[i as int] == rows@[i as int]@);
            assert(lines.take(i as int).push(line@) =~= lines.take(i + 1));
        }
        i += 1;
    }
    assert(lines.take(lines.len() as int) =~= lines);
    out
}

/// Writes the lines that name directories.
fn write_roots(roots: &Vec<String>) -> (r: String)
    ensures
        r@ == text_of(root_lines(views(roots@))),
{
    let mut out: String = "".to_owned();
    let ghost lines = root_lines(views(roots@));
    let mut i: usize = 0;
    proof {
        reveal_strlit("");
        assert(out@ =~= text_of(lines.take(0)));
    }
    while i < roots.len()
        invariant
            lines == root_lines(views(roots@)),
            i <= roots.len(),
            out@ == text_of(lines.take(i as int)),
        decreases roots.len() - i,
    {
        let line: String = three("- `", roots[i].as_str(), "`");
        add_line(&mut out, line.as_str());
        proof {
            assert(views(roots@)[i as int] == roots@[i as int]@);
            assert(lines.take(i as int).push(line@) =~= lines.take(i + 1));
        }
        i += 1;
    }
    assert(lines.take(lines.len() as int) =~= lines);
    out
}

/// Writes the lines that name the directories of all rows.
fn write_all_roots(rows: &Vec<ReportRow>) -> (r: String)
    ensures
        r@ == text_of(all_root_lines(row_views(rows@))),
{
    let mut out: String = "".to_owned();
    let ghost all = row_views(rows@);
    let mut i: usize = 0;
    proof {
        reveal_strlit("");
        assert(all_root_lines(all.take(0)) =~= Seq::empty());
        assert(out@ =~= text_of(all_root_lines(all.take(0))));
    }
    while i < rows.len()
        invariant
            all == row_views(rows@),
            i <= rows.len(),
            out@ == text_of(all_root_lines(all.take(i as int))),
        decreases rows.len() - i,
    {
        let more: String = write_roots(&rows[i].remote_run_roots);
        out.append(more.as_str());
        proof {
            let longer = all.take(i + 1);
            assert(longer.drop_last() =~= all.take(i as int));
            assert(longer.last() == rows@[i as int]@);
            lemma_text_append(all_root_lines(all.take(i as int)), root_lines(longer.last().roots));
        }
        i += 1;
    }
    assert(all.take(all.len() as int) =~= all);
    out
}

/// What is reported ahead of any result.
pub open spec fn header(source: Seq<char>, d: Destination, load: Load, fsync: bool) -> Findings {
    Findings {
        source,
        remote: label(d),
        files: load.files.len(),
        total_bytes: load.total_bytes as nat,
        fsync,
        rows: Seq::empty(),
    }
}

/// A report begins with the source and the destination as they were written, the number of files and
/// their size, and whether syncing was asked for.
pub proof fn lemma_header(source: Seq<char>, remote: Seq<char>, load: Load, fsync: bool)
    requires
        destination(remote) is Some,
        load.total_bytes >= 0,
    ensures
        ({
            let f = header(source, destination(remote).unwrap(), load, fsync);
            &&& f.source == source
            &&& f.remote == remote
            &&& f.files == load.files.len()
            &&& f.total_bytes == load.total_bytes
            &&& f.fsync == fsync
            &&& f.rows.len() == 0
        }),
{
    lemma_label_round_trip(remote);
}

/// The report of a benchmark of which nothing has been measured yet.
pub fn begin_report(request: &CliRequest, inventory: &Inventory) -> (r: BenchmarkReport)
    ensures
        r@ == header(request.source@, request.remote@, inventory@, request.options.fsync),
        r.source@ == request.source@,
        r.remote@ == label(request.remote@),
        r.files == inventory.files@.len(),
        r.total_bytes == inventory.total_bytes,
        r.fsync == request.options.fsync,
        r.rows@.len() == 0,
{
    let r: BenchmarkReport = BenchmarkReport {
        source: request.source.as_str().to_owned(),
        remote: request.remote.label(),
        files: inventory.files.len(),
        total_bytes: inventory.total_bytes,
        fsync: request.options.fsync,
        rows: Vec::new(),
    };
    assert(row_views(r.rows@) =~= Seq::empty());
    r
}

/// Writes the report in Markdown.
pub fn render_markdown(report: &BenchmarkReport) -> (r: String)
    ensures
        r@ == text_of(report_lines(report@)),
        report@.source == report.source@,
        report@.remote == report.remote@,
        report@.files == report.files,
        report@.total_bytes == report.total_bytes,
        report@.fsync == report.fsync,
        report@.rows.len() == report.rows@.len(),
        forall|i: int|
            0 <= i < report.rows@.len() ==> {
                let row = #[trigger] report.rows@[i];
                let shown = report@.rows[i];
                &&& shown.jobs == row.jobs
                &&& shown.median == row.median@
                &&& shown.mean == row.mean@
                &&& shown.times == row.times@.map_values(|t: String| t@)
                &&& shown.roots == row.remote_run_roots@.map_values(|t: String| t@)
            },
{
    let mut out: String = write_head(report);
    let rows: String = write_rows(&report.rows);
    let roots: String = write_all_roots(&report.rows);
    let ghost lines = head_lines(report@) + row_lines(report@.rows);
    out.append(rows.as_str());
    proof {
        lemma_text_append(head_lines(report@), row_lines(report@.rows));
    }
    add_line(&mut out, "");
    add_line(
        &mut out,
        "Remote benchmark directories left in place for inspection and manual cleanup:",
    );
    proof {
        let above = lines + note_lines();
        assert(above =~= lines.push(note_lines()[0]).push(note_lines()[1]));
        lemma_text_append(above, all_root_lines(report@.rows));
    }
    out.append(roots.as_str());
    out
}

/// The report names every directory that a run left behind.
pub proof fn lemma_report_names_roots(f: Findings, i: int, k: int)
    requires
        0 <= i < f.rows.len(),
        0 <= k < f.rows[i].roots.len(),
    ensures
        report_lines(f).contains(root_line(f.rows[i].roots[k])),
{
    let ahead = head_lines(f) + row_lines(f.rows) + note_lines();
    let line = root_line(f.rows[i].roots[k]);
    lemma_roots_named(f.rows, i, k);
    let at = choose|at: int|
        0 <= at < all_root_lines(f.rows).len() && all_root_lines(f.rows)[at] == line;
    assert(report_lines(f)[ahead.len() + at] == line);
}

proof fn lemma_roots_named(rows: Seq<Row>, i: int, k: int)
    requires
        0 <= i < rows.len(),
        0 <= k < rows[i].roots.len(),
    ensures
        all_root_lines(rows).contains(root_line(rows[i].roots[k])),
    decreases rows.len(),
{
    let line = root_line(rows[i].roots[k]);
    let before = all_root_lines(rows.drop_last());
    if i == rows.len() - 1 {
        assert(all_root_lines(rows)[before.len() + k] == line);
    } else {
        lemma_roots_named(rows.drop_last(), i, k);
        let at = choose|at: int| 0 <= at < before.len() && before[at] == line;
        assert(all_root_lines(rows)[at] == line);
    }
}

/// What is reported of results put together is what is reported of each, put together.
pub proof fn lemma_results_joined(a: Seq<Row>, b: Seq<Row>)
    ensures
        row_lines(a + b) == row_lines(a) + row_lines(b),
        all_root_lines(a + b) == all_root_lines(a) + all_root_lines(b),
    decreases b.len(),
{
    assert(row_lines(a + b) =~= row_lines(a) + row_lines(b));
    if b.len() == 0 {
        assert(a + b =~= a);
        assert(all_root_lines(a) + all_root_lines(b) =~= all_root_lines(a));
    } else {
        lemma_results_joined(a, b.drop_last());
        assert((a + b).drop_last() =~= a + b.drop_last());
        assert(all_root_lines(a + b) =~= all_root_lines(a) + all_root_lines(b));
    }
}

proof fn lemma_lines_ahead(lines: Seq<Seq<char>>, tail: Seq<char>)
    requires
        forall|i: int| 0 <= i < lines.len() ==> !(#[trigger] lines[i]).contains('\n'),
    ensures
        split(text_of(lines) + tail, '\n') == lines + split(tail, '\n'),
    decreases lines.len(),
{
    reveal_strlit("\n");
    if lines.len() == 0 {
        assert(text_of(lines) + tail =~= tail);
        assert(lines + split(tail, '\n') =~= split(tail, '\n'));
    } else {
        let front = lines.drop_last();
        let last = lines.last();
        let rest = last.push('\n') + tail;
        assert forall|i: int| 0 <= i < front.len() implies !(#[trigger] front[i]).contains('\n') by {
            assert(front[i] == lines[i]);
        }
        lemma_lines_ahead(front, rest);
        assert(!lines[lines.len() - 1].contains('\n'));
        lemma_split_at(last, tail, '\n');
        lemma_split_whole(last, '\n');
        assert(text_of(lines) + tail =~= text_of(front) + rest);
        assert(front + (seq![last] + split(tail, '\n')) =~= lines + split(tail, '\n'));
    }
}

/// The lines of a text are found between its line ends, each of them and in their order.
pub proof fn lemma_lines_apart(lines: Seq<Seq<char>>)
    requires
        forall|i: int| 0 <= i < lines.len() ==> !(#[trigger] lines[i]).contains('\n'),
    ensures
        split(text_of(lines), '\n') == lines.push(Seq::empty()),
{
    let none = Seq::<char>::empty();
    lemma_lines_ahead(lines, none);
    assert(text_of(lines) + none =~= text_of(lines));
    assert(split(none, '\n') =~= seq![none]);
    assert(lines + seq![none] =~= lines.push(none));
}

/// All the times are listed, in their order and with a comma between them.
pub proof fn lemma_times_listed(a: Seq<Seq<char>>, b: Seq<Seq<char>>, t: Seq<char>)
    ensures
        time_list(Seq::empty()) == Seq::<char>::empty(),
        time_list(seq![t]) == t.push('s'),
        a.len() > 0 && b.len() > 0 ==> time_list(a + b) == time_list(a) + seq![',', ' ']
            + time_list(b),
    decreases b.len(),
{
    reveal_strlit("s");
    reveal_strlit(", ");
    assert(time_list(seq![t]) =~= t.push('s'));
    if a.len() > 0 && b.len() > 0 {
        let whole = a + b;
        assert(whole.drop_last() =~= a + b.drop_last());
        assert(whole.last() == b.last());
        if b.len() == 1 {
            assert(a + b.drop_last() =~= a);
        } else {
            lemma_times_listed(a, b.drop_last(), t);
        }
        assert(time_list(whole) =~= time_list(a) + seq![',', ' '] + time_list(b));
    }
}

proof fn lemma_cell(a: Seq<char>, b: Seq<char>)
    requires
        !a.contains('|'),
    ensures
        split(a.push('|') + b, '|') == seq![a] + split(b, '|'),
{
    lemma_split_at(a, b, '|');
    lemma_split_whole(a, '|');
}

proof fn lemma_no_bar(a: Seq<char>, s: Seq<char>, b: Seq<char>)
    requires
        !a.contains('|'),
        !s.contains('|'),
        !b.contains('|'),
    ensures
        !(a + s + b).contains('|'),
{
    let whole = a + s + b;
    if whole.contains('|') {
        let i = choose|i: int| 0 <= i < whole.len() && whole[i] == '|';
        if i < a.len() {
            assert(a[i] == '|');
        } else if i < a.len() + s.len() {
            assert(s[i - a.len()] == '|');
        } else {
            assert(b[i - a.len() - s.len()] == '|');
        }
    }
}

proof fn lemma_decimal_no_bar(n: nat)
    ensures
        !decimal(n).contains('|'),
{
    lemma_decimal_value(n);
    if decimal(n).contains('|') {
        let i = choose|i: int| 0 <= i < decimal(n).len() && decimal(n)[i] == '|';
        assert(is_digit(decimal(n)[i]));
    }
}

/// Between its bars, a row of the table holds the number of workers, the number of times, the times,
/// the median and the mean.
pub proof fn lemma_row_cells(row: Row)
    requires
        !time_list(row.times).contains('|'),
        !row.median.contains('|'),
        !row.mean.contains('|'),
    ensures
        split(row_line(row), '|') == seq![
            Seq::empty(),
            " Parsync Rust push "@,
            seq![' '] + decimal(row.jobs) + seq![' '],
            seq![' '] + decimal(row.times.len()) + seq![' '],
            seq![' '] + time_list(row.times) + seq![' '],
            seq![' '] + row.median + seq!['s', ' '],
            seq![' '] + row.mean + seq!['s', ' '],
            Seq::empty(),
        ],
{
    reveal_strlit("| Parsync Rust push | ");
    reveal_strlit(" Parsync Rust push ");
    reveal_strlit(" | ");
    reveal_strlit("s | ");
    reveal_strlit("s |");
    let none = Seq::<char>::empty();
    let blank = seq![' '];
    let unit = seq!['s', ' '];
    assert(!blank.contains('|'));
    assert(!unit.contains('|'));
    lemma_decimal_no_bar(row.jobs);
    lemma_decimal_no_bar(row.times.len());
    let c1 = " Parsync Rust push "@;
    let c2 = blank + decimal(row.jobs) + blank;
    let c3 = blank + decimal(row.times.len()) + blank;
    let c4 = blank + time_list(row.times) + blank;
    let c5 = blank + row.median + unit;
    let c6 = blank + row.mean + unit;
    assert(!c1.contains('|'));
    lemma_no_bar(blank, decimal(row.jobs), blank);
    lemma_no_bar(blank, decimal(row.times.len()), blank);
    lemma_no_bar(blank, time_list(row.times), blank);
    lemma_no_bar(blank, row.median, unit);
    lemma_no_bar(blank, row.mean, unit);
    let r6 = c6.push('|') + none;
    let r5 = c5.push('|') + r6;
    let r4 = c4.push('|') + r5;
    let r3 = c3.push('|') + r4;
    let r2 = c2.push('|') + r3;
    let r1 = c1.push('|') + r2;
    assert(row_line(row) =~= none.push('|') + r1);
    lemma_cell(none, r1);
    lemma_cell(c1, r2);
    lemma_cell(c2, r3);
    lemma_cell(c3, r4);
    lemma_cell(c4, r5);
    lemma_cell(c5, r6);
    lemma_cell(c6, none);
    assert(split(none, '|') =~= seq![none]);
    assert(split(row_line(row), '|') =~= seq![none, c1, c2, c3, c4, c5, c6, none]);
}

/// The report says the source, the destination, the files, their size and whether syncing was asked
/// for, has one row for each number of workers, and then the directories of all of them.
pub proof fn lemma_report_laid_out(f: Findings)
    ensures
        ({
            let lines = report_lines(f);
            let n = f.rows.len() as int;
            &&& lines.len() == 13 + n + all_root_lines(f.rows).len()
            &&& lines[0] == "# Concurrent Rust SFTP push benchmark"@
            &&& lines[1] == ""@
            &&& lines[2] == "- Source: `"@ + f.source + "`"@
            &&& lines[3] == "- Remote destination: `"@ + f.remote + "`"@
            &&& lines[4] == "- Files: "@ + decimal(f.files)
            &&& lines[5] == "- Total size: "@ + decimal(f.total_bytes) + " bytes"@
            &&& lines[6]
                == "- Transfer: parsync ConnectionPool + ssh2::Sftp with Rayon concurrency"@
            &&& f.fsync ==> lines[7] == "- SFTP fsync requested: "@ + "yes"@
            &&& !f.fsync ==> lines[7] == "- SFTP fsync requested: "@ + "no"@
            &&& lines[8] == ""@
            &&& lines[9] == "| Strategy | Workers (--jobs) | Runs | Times | Median | Mean |"@
            &&& lines[10] == "|---|---:|---:|---|---:|---:|"@
            &&& forall|i: int| 0 <= i < n ==> #[trigger] lines[11 + i] == row_line(f.rows[i])
            &&& lines[11 + n] == ""@
            &&& lines[12 + n]
                == "Remote benchmark directories left in place for inspection and manual cleanup:"@
            &&& lines.skip(13 + n) == all_root_lines(f.rows)
        }),
{
    let lines = report_lines(f);
    let n = f.rows.len() as int;
    assert(lines.skip(13 + n) =~= all_root_lines(f.rows));
}

/// A result by itself has one line for each of its directories, in their order, and no result has
/// none.
pub proof fn lemma_roots_listed(row: Row)
    ensures
        all_root_lines(Seq::empty()) == Seq::<Seq<char>>::empty(),
        all_root_lines(seq![row]).len() == row.roots.len(),
        forall|k: int|
            0 <= k < row.roots.len() ==> #[trigger] all_root_lines(seq![row])[k] == seq![
                '-',
                ' ',
                '`',
            ] + row.roots[k] + seq!['`'],
{
    reveal_strlit("- `");
    reveal_strlit("`");
    let one = seq![row];
    assert(one.drop_last() =~= Seq::empty());
    assert(all_root_lines(one.drop_last()) =~= Seq::empty());
    assert(all_root_lines(one) =~= root_lines(row.roots));
    assert forall|k: int| 0 <= k < row.roots.len() implies #[trigger] all_root_lines(one)[k] == seq![
        '-',
        ' ',
        '`',
    ] + row.roots[k] + seq!['`'] by {
        assert(root_line(row.roots[k]) =~= seq!['-', ' ', '`'] + row.roots[k] + seq!['`']);
    }
}

} // verus!
