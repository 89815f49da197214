use std::path::{Path, PathBuf};

use parsync::cli::parse_cli;
use parsync::inventory::{Inventory, PushFile};
use parsync::path::UnixPath;
use parsync::plan::{plan_run, remote_run_root, token_of};
use parsync::report::{begin_report, render_markdown, BenchmarkReport, ReportRow};
use parsync::session::{worker_count, BenchmarkSession};
use parsync::timing::Middle;

fn text(path: &UnixPath) -> String {
    String::from_utf8(path.bytes.clone()).unwrap()
}

fn load(directories: &[&str], files: &[&str]) -> Inventory {
    Inventory {
        directories: directories.iter().map(|d| UnixPath::from_text(d)).collect(),
        files: files
            .iter()
            .map(|f| PushFile {
                local_path: UnixPath::from_text(&format!("/src/{f}")),
                relative_path: UnixPath::from_text(f),
            })
            .collect(),
        total_bytes: 0,
    }
}

#[test]
fn tokens_are_the_low_bits_in_hexadecimal() {
    for seconds in [0u64, 1, 0xffffff, 0x1000000, 0x1234567, 1_700_000_000, u64::MAX] {
        assert_eq!(token_of(seconds), format!("{:x}", seconds & 0xffffff));
    }
    assert_eq!(token_of(0x1abcdef), "abcdef");
}

#[test]
fn run_roots_lie_below_the_destination() {
    let name = ".parsync-push-bench-rust-j4-ab12-007";
    assert_eq!(remote_run_root("", "ab12", 4, 7), name);
    assert_eq!(remote_run_root(".", "ab12", 4, 7), name);
    for base in ["dir", "/", "/abs/dir", "dir/", "./x", "..", "~/x", "ä", "//"] {
        let theirs = PathBuf::from(base).join(name);
        assert_eq!(remote_run_root(base, "ab12", 4, 7), theirs.to_str().unwrap());
    }
    assert_eq!(remote_run_root("d", "0", 16, 1234), "d/.parsync-push-bench-rust-j16-0-1234");
}

#[test]
fn run_roots_differ() {
    let mut seen: Vec<String> = Vec::new();
    for jobs in [1, 11, 111] {
        for run in [1, 11, 111, 1111] {
            for token in ["1", "11", "1f"] {
                let root = remote_run_root("base", token, jobs, run);
                assert!(!seen.contains(&root), "{root}");
                seen.push(root);
            }
        }
    }
}

#[test]
fn a_run_makes_its_directories_and_sends_its_files() {
    let inventory = load(&["sub", "sub/deep"], &["a.txt", "sub/deep/b", "./c"]);
    let plan = plan_run("/data", "f00", 2, 3, &inventory);
    assert_eq!(plan.jobs, 2);
    assert_eq!(plan.remote_run_root, "/data/.parsync-push-bench-rust-j2-f00-003");
    let root = Path::new(&plan.remote_run_root);
    let made: Vec<String> = plan.directories.iter().map(text).collect();
    assert_eq!(made[0], plan.remote_run_root);
    assert_eq!(made[1], root.join("sub").to_str().unwrap());
    assert_eq!(made[2], root.join("sub/deep").to_str().unwrap());
    assert_eq!(made.len(), 3);
    assert_eq!(plan.uploads.len(), 3);
    for (i, upload) in plan.uploads.iter().enumerate() {
        let relative = text(&inventory.files[i].relative_path);
        let final_path = root.join(&relative);
        let temp_name = format!(".parsync-part-f00-{:06}", i + 1);
        let temp_path = match final_path.parent() {
            Some(parent) => parent.join(&temp_name),
            None => PathBuf::from(&temp_name),
        };
        assert_eq!(text(&upload.final_path), final_path.to_str().unwrap());
        assert_eq!(text(&upload.temp_path), temp_path.to_str().unwrap());
        assert_eq!(text(&upload.local_path), format!("/src/{relative}"));
        assert!(made.iter().any(|d| Path::new(d) == temp_path.parent().unwrap()));
        assert!(temp_path.starts_with(root));
    }
    assert_eq!(
        text(&plan.uploads[1].temp_path),
        "/data/.parsync-push-bench-rust-j2-f00-003/sub/deep/.parsync-part-f00-000002"
    );
}

#[test]
fn temporary_names_differ() {
    let names: Vec<String> = (0..12).map(|i| format!("f{i}")).collect();
    let names: Vec<&str> = names.iter().map(|s| s.as_str()).collect();
    let plan = plan_run("", "1", 1, 1, &load(&[], &names));
    for i in 0..plan.uploads.len() {
        for j in 0..i {
            assert!(!plan.uploads[i].temp_path.same_place(&plan.uploads[j].temp_path));
            assert!(!plan.uploads[i].final_path.same_place(&plan.uploads[j].final_path));
        }
    }
    assert_eq!(
        text(&plan.uploads[11].temp_path),
        ".parsync-push-bench-rust-j1-1-001/.parsync-part-1-000012"
    );
}

#[test]
fn no_worker_means_one() {
    assert_eq!(worker_count(0), 1);
    assert_eq!(worker_count(1), 1);
    assert_eq!(worker_count(9), 9);
}

#[test]
fn a_session_goes_through_all_runs() {
    let mut session = BenchmarkSession::start(
        "d".to_string(),
        "9".to_string(),
        vec![0, 4],
        2,
        load(&[], &["a"]),
    );
    let mut asked = Vec::new();
    let mut elapsed = 10u128;
    while let Some(plan) = session.next_run() {
        asked.push((plan.jobs, plan.remote_run_root));
        session.record(elapsed);
        elapsed -= 1;
    }
    assert_eq!(
        asked,
        vec![
            (1, "d/.parsync-push-bench-rust-j1-9-001".to_string()),
            (1, "d/.parsync-push-bench-rust-j1-9-002".to_string()),
            (4, "d/.parsync-push-bench-rust-j4-9-001".to_string()),
            (4, "d/.parsync-push-bench-rust-j4-9-002".to_string()),
        ]
    );
    let results = session.finish();
    assert_eq!(results.len(), 2);
    assert_eq!(results[0].jobs, 1);
    assert_eq!(results[0].runs_nanos, vec![10, 9]);
    assert_eq!(results[0].median, Middle::Two(9, 10));
    assert_eq!(results[0].remote_run_roots, vec![asked[0].1.clone(), asked[1].1.clone()]);
    assert_eq!(results[1].jobs, 4);
    assert_eq!(results[1].runs_nanos, vec![8, 7]);
    assert_eq!(results[1].remote_run_roots, vec![asked[2].1.clone(), asked[3].1.clone()]);
}

#[test]
fn a_session_without_runs_has_empty_results() {
    let session =
        BenchmarkSession::start(String::new(), "9".to_string(), vec![3, 5], 0, load(&[], &["a"]));
    assert!(session.next_run().is_none());
    let results = session.finish();
    assert_eq!(results.len(), 2);
    assert_eq!(results[0].jobs, 3);
    assert_eq!(results[1].jobs, 5);
    for result in &results {
        assert!(result.runs_nanos.is_empty());
        assert!(result.remote_run_roots.is_empty());
        assert_eq!(result.median, Middle::Nothing);
    }
}

#[test]
fn a_session_without_worker_counts_is_over() {
    let session =
        BenchmarkSession::start(String::new(), "9".to_string(), Vec::new(), 3, load(&[], &[]));
    assert!(session.next_run().is_none());
    assert!(session.finish().is_empty());
}

#[test]
fn three_runs_have_one_in_the_middle() {
    let mut session =
        BenchmarkSession::start(".".to_string(), "1".to_string(), vec![1], 3, load(&[], &["a"]));
    for elapsed in [30u128, 10, 20] {
        session.record(elapsed);
    }
    let results = session.finish();
    assert_eq!(results[0].median, Middle::One(20));
    assert_eq!(results[0].runs_nanos, vec![30, 10, 20]);
}

fn row(jobs: usize, times: &[&str], roots: &[&str]) -> ReportRow {
    ReportRow {
        jobs,
        times: times.iter().map(|s| s.to_string()).collect(),
        median: "1.500".to_string(),
        mean: "1.667".to_string(),
        remote_run_roots: roots.iter().map(|s| s.to_string()).collect(),
    }
}

#[test]
fn the_report_is_laid_out() {
    let report = BenchmarkReport {
        source: "/home/me/data".to_string(),
        remote: "me@host:dir".to_string(),
        files: 12,
        total_bytes: 34567,
        fsync: true,
        rows: vec![
            row(1, &["1.500", "2.000", "1.500"], &["dir/r1", "dir/r2", "dir/r3"]),
            row(8, &["0.250"], &["dir/r4"]),
        ],
    };
    assert_eq!(
        render_markdown(&report),
        "# Concurrent Rust SFTP push benchmark\n\
         \n\
         - Source: `/home/me/data`\n\
         - Remote destination: `me@host:dir`\n\
         - Files: 12\n\
         - Total size: 34567 bytes\n\
         - Transfer: parsync ConnectionPool + ssh2::Sftp with Rayon concurrency\n\
         - SFTP fsync requested: yes\n\
         \n\
         | Strategy | Workers (--jobs) | Runs | Times | Median | Mean |\n\
         |---|---:|---:|---|---:|---:|\n\
         | Parsync Rust push | 1 | 3 | 1.500s, 2.000s, 1.500s | 1.500s | 1.667s |\n\
         | Parsync Rust push | 8 | 1 | 0.250s | 1.500s | 1.667s |\n\
         \n\
         Remote benchmark directories left in place for inspection and manual cleanup:\n\
         - `dir/r1`\n\
         - `dir/r2`\n\
         - `dir/r3`\n\
         - `dir/r4`\n"
    );
}

#[test]
fn a_report_without_runs_names_no_directory() {
    let report = BenchmarkReport {
        source: "s".to_string(),
        remote: "h:".to_string(),
        files: 1,
        total_bytes: 0,
        fsync: false,
        rows: vec![row(2, &[], &[])],
    };
    let text = render_markdown(&report);
    assert!(text.contains("- SFTP fsync requested: no\n"));
    assert!(text.contains("| Parsync Rust push | 2 | 0 |  | 1.500s | 1.667s |\n"));
    assert!(text.ends_with("inspection and manual cleanup:\n"));
}

#[test]
fn a_report_begins_with_what_was_asked_for() {
    let args: Vec<String> =
        ["p", "data", "me@host:dir", "--fsync"].iter().map(|s| s.to_string()).collect();
    let request = parse_cli(&args).unwrap();
    let mut inventory = load(&["d"], &["a", "d/b"]);
    inventory.total_bytes = 77;
    let report = begin_report(&request, &inventory);
    assert_eq!(report.source, "data");
    assert_eq!(report.remote, "me@host:dir");
    assert_eq!(report.files, 2);
    assert_eq!(report.total_bytes, 77);
    assert!(report.fsync);
    assert!(report.rows.is_empty());
}

#[test]
fn results_put_together_are_reported_one_behind_the_other() {
    let make = |rows: Vec<ReportRow>| -> Vec<String> {
        let report = BenchmarkReport {
            source: String::new(),
            remote: String::new(),
            files: 0,
            total_bytes: 0,
            fsync: false,
            rows,
        };
        render_markdown(&report)
            .lines()
            .filter(|l| l.starts_with("| Parsync") || l.starts_with("- `"))
            .map(|l| l.to_string())
            .collect()
    };
    let one = make(vec![row(1, &["0.100"], &["r1"])]);
    let two = make(vec![row(2, &["0.200"], &["r2", "r3"])]);
    let both = make(vec![row(1, &["0.100"], &["r1"]), row(2, &["0.200"], &["r2", "r3"])]);
    assert_eq!(both[0], one[0]);
    assert_eq!(both[1], two[0]);
    assert_eq!(both[2..3], one[1..]);
    assert_eq!(both[3..], two[1..]);
}
