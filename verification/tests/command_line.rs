use parsync::cli::{parse_cli, parse_jobs, CliError, CliRequest};
use parsync::mode::{select_mode, Mode};
use parsync::remote::RemoteSpec;

fn args(list: &[&str]) -> Vec<String> {
    list.iter().map(|s| s.to_string()).collect()
}

fn read(list: &[&str]) -> CliRequest {
    parse_cli(&args(list)).unwrap()
}

fn refused(list: &[&str]) -> CliError {
    parse_cli(&args(list)).unwrap_err()
}

#[test]
fn defaults_stand_where_nothing_is_said() {
    let r = read(&["parsync", "--prototype-push", "src", "host:dir"]);
    assert_eq!(r.source, "src");
    assert_eq!(r.remote.user, None);
    assert_eq!(r.remote.host, "host");
    assert_eq!(r.remote.path, "dir");
    assert_eq!(r.options.jobs_list, vec![1]);
    assert_eq!(r.options.runs, 3);
    assert!(!r.options.fsync);
    assert_eq!(r.options.selected_files, None);
    assert_eq!(r.options.json_path, None);
}

#[test]
fn options_take_their_value_from_the_next_argument() {
    let r = read(&[
        "parsync", "src", "--jobs", "1, 2,,4", "--runs", "5", "--fsync", "me@host:/d", "--json",
        "out.json", "--selected-files", " a , b/c,",
    ]);
    assert_eq!(r.options.jobs_list, vec![1, 2, 4]);
    assert_eq!(r.options.runs, 5);
    assert!(r.options.fsync);
    assert_eq!(r.options.json_path.as_deref(), Some("out.json"));
    assert_eq!(r.options.selected_files, Some(args(&["a", "b/c"])));
    assert_eq!(r.remote.user.as_deref(), Some("me"));
    assert_eq!(r.remote.path, "/d");
}

#[test]
fn options_take_their_value_behind_an_equals_sign() {
    let spaced = read(&["p", "s", "h:", "-j", "8", "--runs", "0", "--json", "j", "--selected-files", "x"]);
    let joined = read(&["p", "s", "h:", "--jobs=8", "--runs=0", "--json=j", "--selected-files=x"]);
    assert_eq!(spaced.options.jobs_list, joined.options.jobs_list);
    assert_eq!(spaced.options.runs, joined.options.runs);
    assert_eq!(spaced.options.json_path, joined.options.json_path);
    assert_eq!(spaced.options.selected_files, joined.options.selected_files);
    assert_eq!(joined.options.jobs_list, vec![8]);
    assert_eq!(joined.options.runs, 0);
}

#[test]
fn last_value_stands() {
    let r = read(&["p", "s", "h:", "--jobs", "1", "--jobs=2,3", "--runs=1", "--runs", "9"]);
    assert_eq!(r.options.jobs_list, vec![2, 3]);
    assert_eq!(r.options.runs, 9);
}

#[test]
fn an_option_at_the_end_changes_nothing() {
    for option in ["--jobs", "-j", "--runs", "--json", "--selected-files"] {
        let r = read(&["p", "s", "h:", option]);
        assert_eq!(r.options.jobs_list, vec![1]);
        assert_eq!(r.options.runs, 3);
        assert_eq!(r.options.json_path, None);
        assert_eq!(r.options.selected_files, None);
    }
}

#[test]
fn unknown_options_are_passed_over() {
    let r = read(&["p", "--verbose", "s", "-x", "--jobs-more=4", "h:", "--internal-push-prototype"]);
    assert_eq!(r.source, "s");
    assert_eq!(r.options.jobs_list, vec![1]);
}

#[test]
fn the_program_name_is_no_argument() {
    let r = read(&["ignored", "s", "h:p"]);
    assert_eq!(r.source, "s");
    assert!(matches!(refused(&[]), CliError::MissingSource));
}

#[test]
fn an_empty_argument_is_positional() {
    let r = read(&["p", "", "h:p"]);
    assert_eq!(r.source, "");
}

#[test]
fn an_empty_selection_is_kept() {
    let r = read(&["p", "s", "h:p", "--selected-files=,"]);
    assert_eq!(r.options.selected_files, Some(Vec::new()));
}

#[test]
fn faults_have_their_words() {
    assert_eq!(refused(&["p"]).message(), "missing source directory");
    assert_eq!(
        refused(&["p", "s"]).message(),
        "missing remote destination ([user@]host:path)"
    );
    assert_eq!(
        refused(&["p", "s", "h:", "more"]).message(),
        "unexpected positional argument: more"
    );
    assert_eq!(refused(&["p", "s", "h:", "--jobs", " , "]).message(), "--jobs cannot be empty");
    assert_eq!(
        refused(&["p", "s", "h:", "--jobs=1,x"]).message(),
        "invalid worker count in --jobs"
    );
    assert_eq!(refused(&["p", "s", "h:", "--runs="]).message(), "invalid --runs value");
    assert_eq!(
        refused(&["p", "s", "nowhere"]).message(),
        "remote destination is not [user@]host:path"
    );
}

#[test]
fn number_faults_have_a_cause() {
    let jobs = refused(&["p", "s", "h:", "--jobs=1,x"]);
    assert_eq!(jobs.cause(), Some("invalid digit found in string"));
    let runs = refused(&["p", "s", "h:", "--runs="]);
    assert_eq!(runs.cause(), Some("cannot parse integer from empty string"));
    let many = refused(&["p", "s", "h:", "--runs", "99999999999999999999"]);
    assert_eq!(many.message(), "invalid --runs value");
    assert_eq!(many.cause(), Some("number too large to fit in target type"));
    for list in [&["p"][..], &["p", "s"], &["p", "s", "h:", "more"], &["p", "--jobs="], &["p", "s", "n"]] {
        assert_eq!(refused(list).cause(), None);
    }
}

#[test]
fn the_first_fault_is_told() {
    let fault = refused(&["p", "--runs", "x", "--jobs", ""]);
    assert_eq!(fault.message(), "invalid --runs value");
    assert_eq!(fault.cause(), Some("invalid digit found in string"));
}

#[test]
fn values_are_read_ahead_of_what_is_missing() {
    assert_eq!(refused(&["parsync", "--jobs=, ,"]).message(), "--jobs cannot be empty");
    assert_eq!(refused(&["parsync", "-j", "2,x"]).message(), "invalid worker count in --jobs");
    for list in [&["parsync", "--runs=-1"][..], &["parsync", "--runs", "--fsync"], &["parsync", "--runs="]] {
        assert_eq!(refused(list).message(), "invalid --runs value");
    }
}

#[test]
fn an_earlier_value_might_as_well_be_left_out() {
    let twice = read(&["p", "--json", "a", "s", "--runs=2", "--json", "b", "h:p", "--runs", "4"]);
    let once = read(&["p", "s", "--json", "b", "h:p", "--runs", "4"]);
    assert_eq!(twice.options.json_path, once.options.json_path);
    assert_eq!(twice.options.runs, once.options.runs);
    assert_eq!(twice.source, once.source);
    assert_eq!(once.options.json_path.as_deref(), Some("b"));
    assert_eq!(once.options.runs, 4);
}

#[test]
fn a_value_of_a_runs_option_is_not_trimmed() {
    assert!(matches!(refused(&["p", "s", "h:", "--runs", " 3"]), CliError::InvalidRuns(_)));
}

#[test]
fn worker_counts_are_listed() {
    assert_eq!(parse_jobs("1,2,+3").unwrap(), vec![1, 2, 3]);
    assert_eq!(parse_jobs(" 0 ").unwrap(), vec![0]);
    assert!(matches!(parse_jobs(""), Err(CliError::EmptyJobs)));
    assert!(matches!(parse_jobs("1,-2"), Err(CliError::InvalidJobs(_))));
}

#[test]
fn destinations_are_shown_as_they_were_written() {
    for text in ["host:", "host:path", "user@host:/a/b", "user@host:a:b", "host:a@b"] {
        assert_eq!(RemoteSpec::parse(text).unwrap().label(), text);
    }
    for text in ["", "host", ":path", "@host:p", "user@:p"] {
        let e = RemoteSpec::parse(text).unwrap_err();
        assert_eq!(e.message(), "remote destination is not [user@]host:path");
    }
}

#[test]
fn modes_are_told_by_their_words() {
    let helper = args(&["p", "--prototype-push", "--internal-rdma-send", "--internal-remote-helper"]);
    assert_eq!(select_mode(&helper, true), Mode::RemoteHelper);
    assert_eq!(select_mode(&helper, false), Mode::RemoteHelper);
    let send = args(&["p", "--prototype-push", "--internal-rdma-send"]);
    assert_eq!(select_mode(&send, true), Mode::RdmaSend);
    assert_eq!(select_mode(&send, false), Mode::PushPrototype);
    assert_eq!(select_mode(&args(&["p", "--internal-push-prototype"]), true), Mode::PushPrototype);
    assert_eq!(select_mode(&args(&["p", "--prototype-pushy", "a"]), true), Mode::Sync);
    assert_eq!(select_mode(&[], true), Mode::Sync);
}

#[test]
fn modes_do_not_depend_on_order() {
    let one = args(&["a", "--prototype-push", "b"]);
    let two = args(&["b", "a", "--prototype-push"]);
    assert_eq!(select_mode(&one, true), select_mode(&two, true));
}

#[test]
fn the_name_of_the_program_makes_no_difference() {
    let one = read(&["parsync", "s", "h:p", "--runs=7"]);
    let two = read(&["--runs=9", "s", "h:p", "--runs=7"]);
    assert_eq!(one.options.runs, two.options.runs);
    assert_eq!(one.source, two.source);
}
