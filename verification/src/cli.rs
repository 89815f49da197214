//! The command line of the push benchmark.

use vstd::prelude::*;

use crate::number::{parse_usize, unsigned, NumberError};
use crate::remote::{destination, Destination, RemoteError, RemoteSpec};
use crate::text::{after_prefix, comma_items, comma_list, opt_view, same_text, strip_prefix, views};

verus! {

/// How a benchmark is run.
#[derive(Debug)]
pub struct PushOptions {
    pub jobs_list: Vec<usize>,
    pub runs: usize,
    pub fsync: bool,
    pub selected_files: Option<Vec<String>>,
    pub json_path: Option<String>,
}

/// What the command line asks for.
#[derive(Debug)]
pub struct CliRequest {
    pub source: String,
    pub remote: RemoteSpec,
    pub options: PushOptions,
}

/// Why a command line is refused.
#[derive(Debug)]
pub enum CliError {
    InvalidJobs(NumberError),
    EmptyJobs,
    InvalidRuns(NumberError),
    UnexpectedPositional(String),
    MissingSource,
    MissingRemote,
    InvalidRemote(RemoteError),
}

/// Why a command line is refused, as a specification speaks of it.
pub enum Fault {
    InvalidJobs(NumberError),
    EmptyJobs,
    InvalidRuns(NumberError),
    UnexpectedPositional(Seq<char>),
    MissingSource,
    MissingRemote,
    InvalidRemote,
}

impl View for CliError {
    type V = Fault;

    open spec fn view(&self) -> Fault {
        match self {
            CliError::InvalidJobs(e) => Fault::InvalidJobs(*e),
            CliError::EmptyJobs => Fault::EmptyJobs,
            CliError::InvalidRuns(e) => Fault::InvalidRuns(*e),
            CliError::UnexpectedPositional(arg) => Fault::UnexpectedPositional(arg@),
            CliError::MissingSource => Fault::MissingSource,
            CliError::MissingRemote => Fault::MissingRemote,
            CliError::InvalidRemote(_) => Fault::InvalidRemote,
        }
    }
}

/// What the arguments read so far have set.
pub struct Settings {
    pub source: Option<Seq<char>>,
    pub remote: Option<Seq<char>>,
    pub jobs_list: Seq<usize>,
    pub runs: usize,
    pub fsync: bool,
    pub selected_files: Option<Seq<Seq<char>>>,
    pub json_path: Option<Seq<char>>,
}

/// What is set before any argument is read: one worker, three runs.
pub open spec fn defaults() -> Settings {
    Settings {
        source: None,
        remote: None,
        jobs_list: seq![1usize],
        runs: 3,
        fsync: false,
        selected_files: None,
        json_path: None,
    }
}

/// The options that take a value.
#[derive(Debug, Clone, Copy, PartialEq, Eq, Structural)]
pub enum Flag {
    Jobs,
    Runs,
    Json,
    SelectedFiles,
}

/// What one argument is.
pub enum Arg {
    /// Of no account here.
    Ignored,
    /// An option whose value is the next argument.
    Bare(Flag),
    /// An option together with its value.
    Given(Flag, Seq<char>),
    Fsync,
    Positional,
}

/// What the argument `s` is.
pub open spec fn classify(s: Seq<char>) -> Arg {
    if s == "--prototype-push"@ || s == "--internal-push-prototype"@ {
        Arg::Ignored
    } else if s == "--jobs"@ || s == "-j"@ {
        Arg::Bare(Flag::Jobs)
    } else if let Some(v) = after_prefix(s, "--jobs="@) {
        Arg::Given(Flag::Jobs, v)
    } else if s == "--runs"@ {
        Arg::Bare(Flag::Runs)
    } else if let Some(v) = after_prefix(s, "--runs="@) {
        Arg::Given(Flag::Runs, v)
    } else if s == "--fsync"@ {
        Arg::Fsync
    } else if s == "--json"@ {
        Arg::Bare(Flag::Json)
    } else if let Some(v) = after_prefix(s, "--json="@) {
        Arg::Given(Flag::Json, v)
    } else if s == "--selected-files"@ {
        Arg::Bare(Flag::SelectedFiles)
    } else if let Some(v) = after_prefix(s, "--selected-files="@) {
        Arg::Given(Flag::SelectedFiles, v)
    } else if after_prefix(s, "-"@) is Some {
        Arg::Ignored
    } else {
        Arg::Positional
    }
}

/// The numbers that the items stand for; the first that is none decides the error.
pub open spec fn numbers(items: Seq<Seq<char>>) -> Result<Seq<usize>, NumberError>
    decreases items.len(),
{
    if items.len() == 0 {
        Ok(Seq::empty())
    } else {
        match numbers(items.drop_last()) {
            Err(e) => Err(e),
            Ok(list) => match unsigned(items.last(), usize::MAX as nat) {
                Ok(n) => Ok(list.push(n as usize)),
                Err(e) => Err(e),
            },
        }
    }
}

/// The worker counts that the text of `--jobs` lists.
pub open spec fn worker_counts(s: Seq<char>) -> Result<Seq<usize>, Fault> {
    match numbers(comma_items(s)) {
        Err(e) => Err(Fault::InvalidJobs(e)),
        Ok(list) => if list.len() == 0 {
            Err(Fault::EmptyJobs)
        } else {
            Ok(list)
        },
    }
}

/// What giving an option the value `v` sets.
pub open spec fn set_option(flag: Flag, v: Seq<char>, st: Settings) -> Result<Settings, Fault> {
    match flag {
        Flag::Jobs => match worker_counts(v) {
            Ok(jobs_list) => Ok(Settings { jobs_list, ..st }),
            Err(e) => Err(e),
        },
        Flag::Runs => match unsigned(v, usize::MAX as nat) {
            Ok(n) => Ok(Settings { runs: n as usize, ..st }),
            Err(e) => Err(Fault::InvalidRuns(e)),
        },
        Flag::Json => Ok(Settings { json_path: Some(v), ..st }),
        Flag::SelectedFiles => Ok(Settings { selected_files: Some(comma_items(v)), ..st }),
    }
}

/// What the positional argument `s` sets: the source first, then the destination.
pub open spec fn set_positional(s: Seq<char>, st: Settings) -> Result<Settings, Fault> {
    if st.source is None {
        Ok(Settings { source: Some(s), ..st })
    } else if st.remote is None {
        Ok(Settings { remote: Some(s), ..st })
    } else {
        Err(Fault::UnexpectedPositional(s))
    }
}

/// What the arguments set on top of `st`. An option at the very end without its value sets
/// nothing.
pub open spec fn read_args(args: Seq<Seq<char>>, st: Settings) -> Result<Settings, Fault>
    decreases args.len(),
{
    if args.len() == 0 {
        Ok(st)
    } else {
        match classify(args[0]) {
            Arg::Ignored => read_args(args.skip(1), st),
            Arg::Bare(flag) => if args.len() == 1 {
                Ok(st)
            } else {
                match set_option(flag, args[1], st) {
                    Ok(next) => read_args(args.skip(2), next),
                    Err(e) => Err(e),
                }
            },
            Arg::Given(flag, v) => match set_option(flag, v, st) {
                Ok(next) => read_args(args.skip(1), next),
                Err(e) => Err(e),
            },
            Arg::Fsync => read_args(args.skip(1), Settings { fsync: true, ..st }),
            Arg::Positional => match set_positional(args[0], st) {
                Ok(next) => read_args(args.skip(1), next),
                Err(e) => Err(e),
            },
        }
    }
}

/// Whether a request holds what the settings and the destination say.
pub open spec fn holds(r: CliRequest, st: Settings, d: Destination) -> bool {
    &&& st.source == Some(r.source@)
    &&& r.remote@ == d
    &&& r.options.jobs_list@ == st.jobs_list
    &&& r.options.runs == st.runs
    &&& r.options.fsync == st.fsync
    &&& opt_view(r.options.json_path) == st.json_path
    &&& st.selected_files == match r.options.selected_files {
        Some(list) => Some(views(list@)),
        None => None,
    }
}

/// What a whole command line asks for: the settings, and the destination they name. The first
/// argument is the name of the program.
pub open spec fn command_line(args: Seq<Seq<char>>) -> Result<(Settings, Destination), Fault> {
    let behind = if args.len() == 0 {
        args
    } else {
        args.skip(1)
    };
    match read_args(behind, defaults()) {
        Err(e) => Err(e),
        Ok(st) => if st.source is None {
            Err(Fault::MissingSource)
        } else if st.remote is None {
            Err(Fault::MissingRemote)
        } else {
            match destination(st.remote.unwrap()) {
                Some(d) => Ok((st, d)),
                None => Err(Fault::InvalidRemote),
            }
        },
    }
}

/// What one argument is, as a value.
enum ArgKind<'a> {
    Ignored,
    Bare(Flag),
    Given(Flag, &'a str),
    Fsync,
    Positional,
}

impl<'a> ArgKind<'a> {
    spec fn meaning(self) -> Arg {
        match self {
            ArgKind::Ignored => Arg::Ignored,
            ArgKind::Bare(flag) => Arg::Bare(flag),
            ArgKind::Given(flag, v) => Arg::Given(flag, v@),
            ArgKind::Fsync => Arg::Fsync,
            ArgKind::Positional => Arg::Positional,
        }
    }
}

/// Tells what the argument `s` is.
fn kind_of<'a>(s: &'a str) -> (r: ArgKind<'a>)
    ensures
        r.meaning() == classify(s@),
{
    if same_text(s, "--prototype-push") || same_text(s, "--internal-push-prototype") {
        return ArgKind::Ignored;
    }
    if same_text(s, "--jobs") || same_text(s, "-j") {
        return ArgKind::Bare(Flag::Jobs);
    }
    if let Some(v) = strip_prefix(s, "--jobs=") {
        return ArgKind::Given(Flag::Jobs, v);
    }
    if same_text(s, "--runs") {
        return ArgKind::Bare(Flag::Runs);
    }
    if let Some(v) = strip_prefix(s, "--runs=") {
        return ArgKind::Given(Flag::Runs, v);
    }
    if same_text(s, "--fsync") {
        return ArgKind::Fsync;
    }
    if same_text(s, "--json") {
        return ArgKind::Bare(Flag::Json);
    }
    if let Some(v) = strip_prefix(s, "--json=") {
        return ArgKind::Given(Flag::Json, v);
    }
    if same_text(s, "--selected-files") {
        return ArgKind::Bare(Flag::SelectedFiles);
    }
    if let Some(v) = strip_prefix(s, "--selected-files=") {
        return ArgKind::Given(Flag::SelectedFiles, v);
    }
    if strip_prefix(s, "-").is_some() {
        return ArgKind::Ignored;
    }
    ArgKind::Positional
}

/// Reads the worker counts that the text of `--jobs` lists.
pub fn parse_jobs(s: &str) -> (r: Result<Vec<usize>, CliError>)
    ensures
        match r {
            Ok(list) => worker_counts(s@) == Ok::<Seq<usize>, Fault>(list@),
            Err(e) => worker_counts(s@) == Err::<Seq<usize>, Fault>(e@),
        },
{
    let items: Vec<String> = comma_list(s);
    let ghost all = views(items@);
    let mut list: Vec<usize> = Vec::new();
    let mut i: usize = 0;
    assert(all.take(0) =~= Seq::empty());
    while i < items.len()
        invariant
            all == views(items@),
            all == comma_items(s@),
            i <= items.len(),
            numbers(all.take(i as int)) == Ok::<Seq<usize>, NumberError>(list@),
        decreases items.len() - i,
    {
        proof {
            assert(all.take(i + 1).drop_last() =~= all.take(i as int));
            assert(all.take(i + 1).last() == items[i as int]@);
        }
        match parse_usize(items[i].as_str()) {
            Ok(n) => {
                list.push(n);
            },
            Err(e) => {
                proof {
                    lemma_numbers_fail(all, i + 1);
                }
                return Err(CliError::InvalidJobs(e));
            },
        }
        i += 1;
    }
    assert(all.take(i as int) =~= all);
    if list.len() == 0 {
        return Err(CliError::EmptyJobs);
    }
    Ok(list)
}

/// An item that is no number decides, whatever follows it.
proof fn lemma_numbers_fail(items: Seq<Seq<char>>, n: int)
    requires
        0 <= n <= items.len(),
        numbers(items.take(n)) is Err,
    ensures
        numbers(items) == numbers(items.take(n)),
    decreases items.len(),
{
    if n == items.len() {
        assert(items.take(n) =~= items);
    } else {
        assert(items.drop_last().take(n) =~= items.take(n));
        lemma_numbers_fail(items.drop_last(), n);
    }
}

/// The settings while the arguments are read.
struct Draft {
    source: Option<String>,
    remote: Option<String>,
    jobs_list: Vec<usize>,
    runs: usize,
    fsync: bool,
    selected_files: Option<Vec<String>>,
    json_path: Option<String>,
}

impl Draft {
    spec fn settings(self) -> Settings {
        Settings {
            source: opt_view(self.source),
            remote: opt_view(self.remote),
            jobs_list: self.jobs_list@,
            runs: self.runs,
            fsync: self.fsync,
            selected_files: match self.selected_files {
                Some(list) => Some(views(list@)),
                None => None,
            },
            json_path: opt_view(self.json_path),
        }
    }

    fn new() -> (r: Draft)
        ensures
            r.settings() == defaults(),
    {
        let mut jobs_list: Vec<usize> = Vec::new();
        jobs_list.push(1);
        assert(jobs_list@ =~= seq![1usize]);
        Draft {
            source: None,
            remote: None,
            jobs_list,
            runs: 3,
            fsync: false,
            selected_files: None,
            json_path: None,
        }
    }

    fn set_option(&mut self, flag: Flag, v: &str) -> (r: Result<(), CliError>)
        ensures
            match r {
                Ok(_) => set_option(flag, v@, old(self).settings()) == Ok::<Settings, Fault>(
                    final(self).settings(),
                ),
                Err(e) => set_option(flag, v@, old(self).settings()) == Err::<Settings, Fault>(e@),
            },
    {
        match flag {
            Flag::Jobs => match parse_jobs(v) {
                Ok(list) => {
                    self.jobs_list = list;
                    Ok(())
                },
                Err(e) => Err(e),
            },
            Flag::Runs => match parse_usize(v) {
                Ok(n) => {
                    self.runs = n;
                    Ok(())
                },
                Err(e) => Err(CliError::InvalidRuns(e)),
            },
            Flag::Json => {
                self.json_path = Some(v.to_owned());
                Ok(())
            },
            Flag::SelectedFiles => {
                self.selected_files = Some(comma_list(v));
                Ok(())
            },
        }
    }

    fn set_positional(&mut self, s: &str) -> (r: Result<(), CliError>)
        ensures
            match r {
                Ok(_) => set_positional(s@, old(self).settings()) == Ok::<Settings, Fault>(
                    final(self).settings(),
                ),
                Err(e) => set_positional(s@, old(self).settings()) == Err::<Settings, Fault>(e@),
            },
    {
        if self.source.is_none() {
            self.source = Some(s.to_owned());
            Ok(())
        } else if self.remote.is_none() {
            self.remote = Some(s.to_owned());
            Ok(())
        } else {
            Err(CliError::UnexpectedPositional(s.to_owned()))
        }
    }
}

/// Reads the command line `args`, whose first argument is the name of the program.
pub fn parse_cli(args: &[String]) -> (r: Result<CliRequest, CliError>)
    ensures
        match command_line(views(args@)) {
            Ok((st, d)) => r matches Ok(request) && holds(request, st, d),
            Err(fault) => r matches Err(e) && e@ == fault,
        },
        r matches Ok(request) ==> {
            let st = (command_line(views(args@))->Ok_0).0;
            &&& st.source == Some(request.source@)
            &&& request.options.jobs_list@ == st.jobs_list
            &&& request.options.runs == st.runs
            &&& request.options.fsync == st.fsync
            &&& st.json_path is Some <==> request.options.json_path is Some
            &&& request.options.json_path matches Some(path) ==> st.json_path == Some(path@)
            &&& st.selected_files is Some <==> request.options.selected_files is Some
            &&& request.options.selected_files matches Some(list) ==> {
                &&& st.selected_files.unwrap().len() == list@.len()
                &&& forall|i: int|
                    0 <= i < list@.len() ==> st.selected_files.unwrap()[i] == (#[trigger] list@[i])@
            }
            &&& request.remote.user is Some <==> (command_line(views(args@))->Ok_0).1.user is Some
            &&& request.remote.user matches Some(user) ==> (command_line(
                views(args@),
            )->Ok_0).1.user == Some(user@)
            &&& request.remote.host@ == (command_line(views(args@))->Ok_0).1.host
            &&& request.remote.path@ == (command_line(views(args@))->Ok_0).1.path
        },
{
    let ghost all = views(args@);
    let ghost behind = if all.len() == 0 {
        all
    } else {
        all.skip(1)
    };
    let mut draft: Draft = Draft::new();
    let mut i: usize = if args.len() == 0 {
        0
    } else {
        1
    };
    assert(all.skip(0) =~= all);
    while i < args.len()
        invariant
            all == views(args@),
            behind == if all.len() == 0 {
                all
            } else {
                all.skip(1)
            },
            i <= args.len(),
            read_args(all.skip(i as int), draft.settings()) == read_args(behind, defaults()),
        decreases args.len() - i,
    {
        let arg: &str = args[i].as_str();
        let ghost rest = all.skip(i as int);
        proof {
            assert(rest[0] == arg@);
            assert(rest.skip(1) =~= all.skip(i + 1));
            if i + 1 < args.len() {
                assert(rest[1] == args[i + 1]@);
                assert(rest.skip(2) =~= all.skip(i + 2));
            } else {
                assert(all.skip(i + 1) =~= Seq::empty());
            }
        }
        let mut next: usize = i + 1;
        match kind_of(arg) {
            ArgKind::Ignored => {},
            ArgKind::Bare(flag) => {
                if next < args.len() {
                    match draft.set_option(flag, args[next].as_str()) {
                        Ok(_) => {},
                        Err(e) => {
                            return Err(e);
                        },
                    }
                    next += 1;
                }
            },
            ArgKind::Given(flag, v) => match draft.set_option(flag, v) {
                Ok(_) => {},
                Err(e) => {
                    return Err(e);
                },
            },
            ArgKind::Fsync => {
                draft.fsync = true;
            },
            ArgKind::Positional => match draft.set_positional(arg) {
                Ok(_) => {},
                Err(e) => {
                    return Err(e);
                },
            },
        }
        i = next;
    }
    assert(all.skip(i as int) =~= Seq::empty());
    let source: String = match draft.source {
        Some(s) => s,
        None => {
            return Err(CliError::MissingSource);
        },
    };
    let remote: String = match draft.remote {
        Some(s) => s,
        None => {
            return Err(CliError::MissingRemote);
        },
    };
    match RemoteSpec::parse(remote.as_str()) {
        Ok(spec) => {
            let options: PushOptions = PushOptions {
                jobs_list: draft.jobs_list,
                runs: draft.runs,
                fsync: draft.fsync,
                selected_files: draft.selected_files,
                json_path: draft.json_path,
            };
            Ok(CliRequest { source, remote: spec, options })
        },
        Err(e) => Err(CliError::InvalidRemote(e)),
    }
}

impl Fault {
    /// What is wrong, in words.
    pub open spec fn text(self) -> Seq<char> {
        match self {
            Fault::InvalidJobs(_) => "invalid worker count in --jobs"@,
            Fault::EmptyJobs => "--jobs cannot be empty"@,
            Fault::InvalidRuns(_) => "invalid --runs value"@,
            Fault::UnexpectedPositional(arg) => "unexpected positional argument: "@ + arg,
            Fault::MissingSource => "missing source directory"@,
            Fault::MissingRemote => "missing remote destination ([user@]host:path)"@,
            Fault::InvalidRemote => "remote destination is not [user@]host:path"@,
        }
    }

    /// What lies behind it, in words, where something does.
    pub open spec fn cause(self) -> Option<Seq<char>> {
        match self {
            Fault::InvalidJobs(e) => Some(e.text()),
            Fault::InvalidRuns(e) => Some(e.text()),
            _ => None,
        }
    }
}

impl CliError {
    /// Says what is wrong.
    pub fn message(&self) -> (r: String)
        ensures
            r@ == self@.text(),
    {
        match self {
            CliError::InvalidJobs(_) => "invalid worker count in --jobs".to_owned(),
            CliError::EmptyJobs => "--jobs cannot be empty".to_owned(),
            CliError::InvalidRuns(_) => "invalid --runs value".to_owned(),
            CliError::UnexpectedPositional(arg) => "unexpected positional argument: ".to_owned().concat(
                arg.as_str(),
            ),
            CliError::MissingSource => "missing source directory".to_owned(),
            CliError::MissingRemote => "missing remote destination ([user@]host:path)".to_owned(),
            CliError::InvalidRemote(e) => e.message(),
        }
    }

    /// Says what lies behind it, where something does.
    pub fn cause(&self) -> (r: Option<&str>)
        ensures
            match self@.cause() {
                Some(t) => r matches Some(s) && s@ == t,
                None => r is None,
            },
    {
        match self {
            CliError::InvalidJobs(e) => Some(e.message()),
            CliError::InvalidRuns(e) => Some(e.message()),
            _ => None,
        }
    }
}

/// The name of an option that takes a value.
pub open spec fn flag_name(flag: Flag) -> Seq<char> {
    match flag {
        Flag::Jobs => "--jobs"@,
        Flag::Runs => "--runs"@,
        Flag::Json => "--json"@,
        Flag::SelectedFiles => "--selected-files"@,
    }
}

/// The words of the command line, character by character.
proof fn lemma_words()
    ensures
        "--prototype-push"@ == seq![
            '-', '-', 'p', 'r', 'o', 't', 'o', 't', 'y', 'p', 'e', '-', 'p', 'u', 's', 'h',
        ],
        "--internal-push-prototype"@ == seq![
            '-', '-', 'i', 'n', 't', 'e', 'r', 'n', 'a', 'l', '-', 'p', 'u', 's', 'h', '-', 'p',
            'r', 'o', 't', 'o', 't', 'y', 'p', 'e',
        ],
        "--jobs"@ == seq!['-', '-', 'j', 'o', 'b', 's'],
        "-j"@ == seq!['-', 'j'],
        "--jobs="@ == seq!['-', '-', 'j', 'o', 'b', 's', '='],
        "--runs"@ == seq!['-', '-', 'r', 'u', 'n', 's'],
        "--runs="@ == seq!['-', '-', 'r', 'u', 'n', 's', '='],
        "--fsync"@ == seq!['-', '-', 'f', 's', 'y', 'n', 'c'],
        "--json"@ == seq!['-', '-', 'j', 's', 'o', 'n'],
        "--json="@ == seq!['-', '-', 'j', 's', 'o', 'n', '='],
        "--selected-files"@ == seq![
            '-', '-', 's', 'e', 'l', 'e', 'c', 't', 'e', 'd', '-', 'f', 'i', 'l', 'e', 's',
        ],
        "--selected-files="@ == seq![
            '-', '-', 's', 'e', 'l', 'e', 'c', 't', 'e', 'd', '-', 'f', 'i', 'l', 'e', 's', '=',
        ],
        "-"@ == seq!['-'],
        "="@ == seq!['='],
{
    reveal_strlit("--prototype-push");
    reveal_strlit("--internal-push-prototype");
    reveal_strlit("--jobs");
    reveal_strlit("-j");
    reveal_strlit("--jobs=");
    reveal_strlit("--runs");
    reveal_strlit("--runs=");
    reveal_strlit("--fsync");
    reveal_strlit("--json");
    reveal_strlit("--json=");
    reveal_strlit("--selected-files");
    reveal_strlit("--selected-files=");
    reveal_strlit("-");
    reveal_strlit("=");
}

proof fn lemma_classify_bare(flag: Flag)
    ensures
        classify(flag_name(flag)) == Arg::Bare(flag),
        classify("-j"@) == Arg::Bare(Flag::Jobs),
{
    lemma_words();
    let s = flag_name(flag);
    assert("--prototype-push"@.len() == 16);
    assert("--internal-push-prototype"@.len() == 25);
    match flag {
        Flag::Jobs => {},
        Flag::Runs => {
            assert(s[2] == 'r' && "--jobs"@[2] == 'j');
        },
        Flag::Json => {
            assert(s[3] == 's' && "--jobs"@[3] == 'o' && "--runs"@[2] == 'r');
        },
        Flag::SelectedFiles => {
            assert(s[2] == 's' && "--jobs="@[2] == 'j' && "--runs="@[2] == 'r' && "--json="@[2]
                == 'j');
            assert("--prototype-push"@[2] == 'p');
            assert(s.subrange(0, 7)[2] == 's');
        },
    }
}

proof fn lemma_classify_given(flag: Flag, v: Seq<char>)
    ensures
        classify(flag_name(flag) + "="@ + v) == Arg::Given(flag, v),
{
    lemma_words();
    let s = flag_name(flag) + "="@ + v;
    let head = flag_name(flag) + "="@;
    assert(s.skip(head.len() as int) =~= v);
    assert(s.subrange(0, head.len() as int) =~= head);
    assert("--prototype-push"@[2] == 'p' && "--internal-push-prototype"@[2] == 'i' && "--jobs"@[2]
        == 'j' && "-j"@.len() == 2 && "--runs"@[2] == 'r' && "--fsync"@[2] == 'f');
    match flag {
        Flag::Jobs => {
            assert(s[2] == 'j');
            assert(head =~= "--jobs="@);
        },
        Flag::Runs => {
            assert(s[2] == 'r');
            assert(head =~= "--runs="@);
            assert("--jobs="@[2] == 'j');
        },
        Flag::Json => {
            assert(s[2] == 'j' && s[3] == 's');
            assert(head =~= "--json="@);
            assert("--jobs="@[3] == 'o' && "--jobs"@[3] == 'o' && "--runs="@[2] == 'r');
            assert("--json"@.len() == 6);
        },
        Flag::SelectedFiles => {
            assert(s[2] == 's');
            assert(head =~= "--selected-files="@);
            assert("--jobs="@[2] == 'j' && "--runs="@[2] == 'r' && "--json="@[2] == 'j' && "--json"@[2]
                == 'j');
            assert("--selected-files"@.len() == 16);
        },
    }
}

/// Whether no option among `args` is left without its value.
pub open spec fn complete(args: Seq<Seq<char>>) -> bool
    decreases args.len(),
{
    if args.len() == 0 {
        true
    } else {
        match classify(args[0]) {
            Arg::Bare(_) => args.len() > 1 && complete(args.skip(2)),
            _ => complete(args.skip(1)),
        }
    }
}

/// Behind arguments that leave no option without its value, reading starts afresh.
proof fn lemma_read_append(pre: Seq<Seq<char>>, post: Seq<Seq<char>>, st: Settings)
    requires
        complete(pre),
    ensures
        read_args(pre + post, st) == match read_args(pre, st) {
            Ok(mid) => read_args(post, mid),
            Err(e) => Err(e),
        },
    decreases pre.len(),
{
    let all = pre + post;
    if pre.len() == 0 {
        assert(all =~= post);
    } else {
        assert(all[0] == pre[0]);
        assert(all.skip(1) =~= pre.skip(1) + post);
        match classify(pre[0]) {
            Arg::Ignored => lemma_read_append(pre.skip(1), post, st),
            Arg::Bare(flag) => {
                assert(all[1] == pre[1]);
                assert(all.skip(2) =~= pre.skip(2) + post);
                if let Ok(next) = set_option(flag, pre[1], st) {
                    lemma_read_append(pre.skip(2), post, next);
                }
            },
            Arg::Given(flag, v) => if let Ok(next) = set_option(flag, v, st) {
                lemma_read_append(pre.skip(1), post, next);
            },
            Arg::Fsync => lemma_read_append(pre.skip(1), post, Settings { fsync: true, ..st }),
            Arg::Positional => if let Ok(next) = set_positional(pre[0], st) {
                lemma_read_append(pre.skip(1), post, next);
            },
        }
    }
}

/// Arguments that read the same behind `pre` make the same command line there.
proof fn lemma_same_behind(
    program: Seq<char>,
    pre: Seq<Seq<char>>,
    a: Seq<Seq<char>>,
    b: Seq<Seq<char>>,
)
    requires
        complete(pre),
        read_args(pre, defaults()) matches Ok(mid) ==> read_args(a, mid) == read_args(b, mid),
    ensures
        command_line(seq![program] + pre + a) == command_line(seq![program] + pre + b),
{
    lemma_read_append(pre, a, defaults());
    lemma_read_append(pre, b, defaults());
    assert((seq![program] + pre + a).skip(1) =~= pre + a);
    assert((seq![program] + pre + b).skip(1) =~= pre + b);
}

/// An option says the same whether its value stands behind an equals sign or in an argument of
/// its own, wherever on the command line it is given.
pub proof fn lemma_spellings_agree(
    program: Seq<char>,
    pre: Seq<Seq<char>>,
    flag: Flag,
    v: Seq<char>,
    post: Seq<Seq<char>>,
)
    requires
        complete(pre),
    ensures
        command_line(seq![program] + pre + (seq![flag_name(flag), v] + post)) == command_line(
            seq![program] + pre + (seq![flag_name(flag) + "="@ + v] + post),
        ),
        command_line(seq![program] + pre + (seq!["-j"@, v] + post)) == command_line(
            seq![program] + pre + (seq!["--jobs"@, v] + post),
        ),
{
    lemma_classify_bare(flag);
    lemma_classify_bare(Flag::Jobs);
    lemma_classify_given(flag, v);
    let apart = seq![flag_name(flag), v] + post;
    let one = seq![flag_name(flag) + "="@ + v] + post;
    let short = seq!["-j"@, v] + post;
    let long = seq!["--jobs"@, v] + post;
    assert(apart.skip(2) =~= post);
    assert(one.skip(1) =~= post);
    assert(short.skip(2) =~= post);
    assert(long.skip(2) =~= post);
    assert(apart[0] == flag_name(flag) && apart[1] == v);
    assert(one[0] == flag_name(flag) + "="@ + v);
    lemma_same_behind(program, pre, apart, one);
    lemma_same_behind(program, pre, short, long);
}

/// An argument that starts with a dash and is no known option changes nothing, unless it is the
/// value of an option.
pub proof fn lemma_unknown_option_ignored(
    program: Seq<char>,
    pre: Seq<Seq<char>>,
    s: Seq<char>,
    post: Seq<Seq<char>>,
)
    requires
        complete(pre),
        s.len() > 0,
        s[0] == '-',
        s != "-j"@,
        s != "--fsync"@,
        forall|flag: Flag|
            s != #[trigger] flag_name(flag) && !(flag_name(flag) + "="@).is_prefix_of(s),
    ensures
        command_line(seq![program] + pre + (seq![s] + post)) == command_line(
            seq![program] + pre + post,
        ),
{
    lemma_words();
    assert(flag_name(Flag::Jobs) + "="@ =~= "--jobs="@);
    assert(flag_name(Flag::Runs) + "="@ =~= "--runs="@);
    assert(flag_name(Flag::Json) + "="@ =~= "--json="@);
    assert(flag_name(Flag::SelectedFiles) + "="@ =~= "--selected-files="@);
    assert(s.subrange(0, 1) =~= "-"@);
    assert((seq![s] + post).skip(1) =~= post);
    assert((seq![s] + post)[0] == s);
    lemma_same_behind(program, pre, seq![s] + post, post);
}

/// An option at the end of the command line, without its value, changes nothing.
pub proof fn lemma_option_at_end_ignored(program: Seq<char>, pre: Seq<Seq<char>>, flag: Flag)
    requires
        complete(pre),
    ensures
        command_line(seq![program] + pre + seq![flag_name(flag)]) == command_line(
            seq![program] + pre,
        ),
        command_line(seq![program] + pre + seq!["-j"@]) == command_line(seq![program] + pre),
{
    lemma_classify_bare(flag);
    let none = Seq::<Seq<char>>::empty();
    assert(seq![program] + pre + none =~= seq![program] + pre);
    lemma_same_behind(program, pre, seq![flag_name(flag)], none);
    lemma_same_behind(program, pre, seq!["-j"@], none);
}

/// The name under which the program is called changes nothing.
pub proof fn lemma_program_name_ignored(
    program: Seq<char>,
    other: Seq<char>,
    args: Seq<Seq<char>>,
)
    ensures
        command_line(seq![program] + args) == command_line(seq![other] + args),
{
    assert((seq![program] + args).skip(1) =~= args);
    assert((seq![other] + args).skip(1) =~= args);
}

/// Whether the settings are the same but for the value of `flag`.
spec fn alike(flag: Flag, a: Settings, b: Settings) -> bool {
    &&& a.source == b.source
    &&& a.remote == b.remote
    &&& a.fsync == b.fsync
    &&& flag == Flag::Jobs || a.jobs_list == b.jobs_list
    &&& flag == Flag::Runs || a.runs == b.runs
    &&& flag == Flag::Json || a.json_path == b.json_path
    &&& flag == Flag::SelectedFiles || a.selected_files == b.selected_files
}

/// What the arguments set does not depend on what is set already.
proof fn lemma_read_alike(args: Seq<Seq<char>>, flag: Flag, a: Settings, b: Settings)
    requires
        alike(flag, a, b),
    ensures
        match (read_args(args, a), read_args(args, b)) {
            (Ok(x), Ok(y)) => alike(flag, x, y),
            (Err(e), Err(f)) => e == f,
            _ => false,
        },
    decreases args.len(),
{
    if args.len() > 0 {
        match classify(args[0]) {
            Arg::Ignored => lemma_read_alike(args.skip(1), flag, a, b),
            Arg::Bare(other) => if args.len() > 1 {
                if let (Ok(x), Ok(y)) = (
                    set_option(other, args[1], a),
                    set_option(other, args[1], b),
                ) {
                    lemma_read_alike(args.skip(2), flag, x, y);
                }
            },
            Arg::Given(other, v) => if let (Ok(x), Ok(y)) = (
                set_option(other, v, a),
                set_option(other, v, b),
            ) {
                lemma_read_alike(args.skip(1), flag, x, y);
            },
            Arg::Fsync => lemma_read_alike(
                args.skip(1),
                flag,
                Settings { fsync: true, ..a },
                Settings { fsync: true, ..b },
            ),
            Arg::Positional => if let (Ok(x), Ok(y)) = (
                set_positional(args[0], a),
                set_positional(args[0], b),
            ) {
                lemma_read_alike(args.skip(1), flag, x, y);
            },
        }
    }
}

/// Where an option is given twice, the later value stands, whatever is said in between: the
/// earlier one might as well be left out, as long as it is a value of the option at all.
pub proof fn lemma_later_value_stands(
    program: Seq<char>,
    pre: Seq<Seq<char>>,
    flag: Flag,
    v: Seq<char>,
    between: Seq<Seq<char>>,
    w: Seq<char>,
    post: Seq<Seq<char>>,
)
    requires
        complete(pre),
        complete(between),
        set_option(flag, v, defaults()) is Ok,
    ensures
        command_line(
            seq![program] + pre + (seq![flag_name(flag), v] + (between + (seq![flag_name(flag), w]
                + post))),
        ) == command_line(seq![program] + pre + (between + (seq![flag_name(flag), w] + post))),
{
    lemma_classify_bare(flag);
    let late = seq![flag_name(flag), w] + post;
    let once = between + late;
    let twice = seq![flag_name(flag), v] + once;
    assert(twice.skip(2) =~= once);
    assert(twice[0] == flag_name(flag) && twice[1] == v);
    assert(late.skip(2) =~= post);
    assert(late[0] == flag_name(flag) && late[1] == w);
    if let Ok(mid) = read_args(pre, defaults()) {
        assert(set_option(flag, v, mid) is Ok);
        let set = set_option(flag, v, mid)->Ok_0;
        assert(read_args(twice, mid) == read_args(once, set));
        lemma_read_append(between, late, mid);
        lemma_read_append(between, late, set);
        lemma_read_alike(between, flag, mid, set);
        if let (Ok(x), Ok(y)) = (read_args(between, mid), read_args(between, set)) {
            assert(set_option(flag, w, x) == set_option(flag, w, y));
        }
    }
    lemma_same_behind(program, pre, twice, once);
}

/// The list of worker counts is never empty.
pub proof fn lemma_some_worker_count(args: Seq<Seq<char>>)
    ensures
        command_line(args) matches Ok((st, d)) ==> st.jobs_list.len() > 0,
{
    lemma_jobs_kept(
        if args.len() == 0 {
            args
        } else {
            args.skip(1)
        },
        defaults(),
    );
}

proof fn lemma_jobs_kept(args: Seq<Seq<char>>, st: Settings)
    requires
        st.jobs_list.len() > 0,
    ensures
        read_args(args, st) matches Ok(after) ==> after.jobs_list.len() > 0,
    decreases args.len(),
{
    if args.len() > 0 {
        match classify(args[0]) {
            Arg::Ignored => lemma_jobs_kept(args.skip(1), st),
            Arg::Bare(flag) => if args.len() > 1 {
                if let Ok(next) = set_option(flag, args[1], st) {
                    lemma_jobs_kept(args.skip(2), next);
                }
            },
            Arg::Given(flag, v) => if let Ok(next) = set_option(flag, v, st) {
                lemma_jobs_kept(args.skip(1), next);
            },
            Arg::Fsync => lemma_jobs_kept(args.skip(1), Settings { fsync: true, ..st }),
            Arg::Positional => if let Ok(next) = set_positional(args[0], st) {
                lemma_jobs_kept(args.skip(1), next);
            },
        }
    }
}

proof fn lemma_numbers_each(items: Seq<Seq<char>>)
    ensures
        match numbers(items) {
            Ok(list) => {
                &&& list.len() == items.len()
                &&& forall|i: int|
                    0 <= i < items.len() ==> unsigned(#[trigger] items[i], usize::MAX as nat) == Ok::<
                        nat,
                        NumberError,
                    >(list[i] as nat)
            },
            Err(e) => exists|i: int| #[trigger] first_fault(items, e, i),
        },
    decreases items.len(),
{
    if items.len() > 0 {
        let front = items.drop_last();
        let last = items.len() - 1;
        lemma_numbers_each(front);
        lemma_number_bound(items.last());
        match numbers(front) {
            Err(e) => {
                let i = choose|i: int| #[trigger] first_fault(front, e, i);
                assert forall|k: int| 0 <= k < i implies unsigned(
                    #[trigger] items[k],
                    usize::MAX as nat,
                ) is Ok by {
                    assert(front[k] == items[k]);
                }
                assert(front[i] == items[i]);
                assert(first_fault(items, e, i));
            },
            Ok(list) => {
                assert forall|k: int| 0 <= k < last implies unsigned(
                    #[trigger] items[k],
                    usize::MAX as nat,
                ) == Ok::<nat, NumberError>(list[k] as nat) by {
                    assert(front[k] == items[k]);
                }
                if let Err(e) = unsigned(items.last(), usize::MAX as nat) {
                    assert(first_fault(items, e, last));
                }
            },
        }
    }
}

proof fn lemma_number_bound(s: Seq<char>)
    ensures
        unsigned(s, usize::MAX as nat) matches Ok(n) ==> n <= usize::MAX,
{
    if let Ok(n) = unsigned(s, usize::MAX as nat) {
        crate::number::lemma_number_read(s, usize::MAX as nat, n);
    }
}

/// Whether the item at `i` is the first that is no number, and `e` says why.
pub open spec fn first_fault(items: Seq<Seq<char>>, e: NumberError, i: int) -> bool {
    &&& 0 <= i < items.len()
    &&& unsigned(items[i], usize::MAX as nat) == Err::<nat, NumberError>(e)
    &&& forall|k: int| 0 <= k < i ==> unsigned(#[trigger] items[k], usize::MAX as nat) is Ok
}

/// There are as many worker counts as the list has items, and each is the number that its item
/// stands for. Otherwise the first item that is no number decides, or there is no item at all.
pub proof fn lemma_worker_counts_each(s: Seq<char>)
    ensures
        match worker_counts(s) {
            Ok(list) => {
                &&& list.len() == comma_items(s).len()
                &&& list.len() > 0
                &&& forall|i: int|
                    0 <= i < list.len() ==> unsigned(
                        comma_items(s)[i],
                        usize::MAX as nat,
                    ) == Ok::<nat, NumberError>(#[trigger] list[i] as nat)
            },
            Err(Fault::InvalidJobs(e)) => exists|i: int| #[trigger]
                first_fault(comma_items(s), e, i),
            Err(fault) => fault == Fault::EmptyJobs && comma_items(s).len() == 0,
        },
{
    lemma_numbers_each(comma_items(s));
    if let Ok(list) = worker_counts(s) {
        assert forall|i: int| 0 <= i < list.len() implies unsigned(
            comma_items(s)[i],
            usize::MAX as nat,
        ) == Ok::<nat, NumberError>(#[trigger] list[i] as nat) by {
            assert(unsigned(comma_items(s)[i], usize::MAX as nat) is Ok);
        }
    }
}

/// An option and the argument behind it set what that option is for, and nothing else; reading goes
/// on behind them. A value that is none stops it.
pub proof fn lemma_option_read(flag: Flag, v: Seq<char>, post: Seq<Seq<char>>, st: Settings)
    ensures
        read_args(seq![flag_name(flag), v] + post, st) == match flag {
            Flag::Jobs => match worker_counts(v) {
                Ok(list) => read_args(post, Settings { jobs_list: list, ..st }),
                Err(e) => Err(e),
            },
            Flag::Runs => match unsigned(v, usize::MAX as nat) {
                Ok(n) => read_args(post, Settings { runs: n as usize, ..st }),
                Err(e) => Err(Fault::InvalidRuns(e)),
            },
            Flag::Json => read_args(post, Settings { json_path: Some(v), ..st }),
            Flag::SelectedFiles => read_args(
                post,
                Settings { selected_files: Some(comma_items(v)), ..st },
            ),
        },
        read_args(seq![flag_name(flag) + "="@ + v] + post, st) == read_args(
            seq![flag_name(flag), v] + post,
            st,
        ),
        read_args(seq!["-j"@, v] + post, st) == read_args(seq!["--jobs"@, v] + post, st),
        read_args(seq![flag_name(flag)], st) == Ok::<Settings, Fault>(st),
        read_args(Seq::empty(), st) == Ok::<Settings, Fault>(st),
{
    lemma_classify_bare(flag);
    lemma_classify_bare(Flag::Jobs);
    lemma_classify_given(flag, v);
    let apart = seq![flag_name(flag), v] + post;
    let one = seq![flag_name(flag) + "="@ + v] + post;
    let short = seq!["-j"@, v] + post;
    let long = seq!["--jobs"@, v] + post;
    assert(apart.skip(2) =~= post);
    assert(one.skip(1) =~= post);
    assert(short.skip(2) =~= post);
    assert(long.skip(2) =~= post);
    assert(apart[0] == flag_name(flag) && apart[1] == v);
    assert(one[0] == flag_name(flag) + "="@ + v);
}

/// The request for syncing sets that and nothing else.
pub proof fn lemma_fsync_read(post: Seq<Seq<char>>, st: Settings)
    ensures
        read_args(seq!["--fsync"@] + post, st) == read_args(post, Settings { fsync: true, ..st }),
{
    lemma_words();
    let args = seq!["--fsync"@] + post;
    let s = "--fsync"@;
    assert(args.skip(1) =~= post);
    assert(args[0] == s);
    assert(s[2] == 'f' && "--jobs"@[2] == 'j' && "--runs"@[2] == 'r' && "-j"@.len() == 2
        && "--jobs="@[2] == 'j' && "--runs="@[2] == 'r' && "--prototype-push"@.len() == 16
        && "--internal-push-prototype"@.len() == 25);
    assert(s.subrange(0, 7)[2] == 'f');
}

/// An argument without a dash in front is the source, the next such one the destination, and a
/// third is one too many.
pub proof fn lemma_positional_read(s: Seq<char>, post: Seq<Seq<char>>, st: Settings)
    requires
        s.len() > 0 ==> s[0] != '-',
    ensures
        read_args(seq![s] + post, st) == if st.source is None {
            read_args(post, Settings { source: Some(s), ..st })
        } else if st.remote is None {
            read_args(post, Settings { remote: Some(s), ..st })
        } else {
            Err(Fault::UnexpectedPositional(s))
        },
{
    lemma_words();
    let args = seq![s] + post;
    assert(args.skip(1) =~= post);
    assert(args[0] == s);
    assert forall|w: Seq<char>| w.len() > 0 && w[0] == '-' implies s != w && !#[trigger]
        w.is_prefix_of(s) by {
        if w.is_prefix_of(s) {
            assert(w =~= s.subrange(0, w.len() as int));
            assert(w[0] == s[0]);
        }
    }
    assert(classify(s) == Arg::Positional) by {
        assert(!"--jobs="@.is_prefix_of(s));
        assert(!"--runs="@.is_prefix_of(s));
        assert(!"--json="@.is_prefix_of(s));
        assert(!"--selected-files="@.is_prefix_of(s));
        assert(!"-"@.is_prefix_of(s));
        assert(!"--jobs"@.is_prefix_of(s));
        assert(!"-j"@.is_prefix_of(s));
        assert(!"--runs"@.is_prefix_of(s));
        assert(!"--json"@.is_prefix_of(s));
        assert(!"--fsync"@.is_prefix_of(s));
        assert(!"--selected-files"@.is_prefix_of(s));
        assert(!"--prototype-push"@.is_prefix_of(s));
        assert(!"--internal-push-prototype"@.is_prefix_of(s));
    }
}

/// Where an unknown option stands at the front, reading goes on behind it.
pub proof fn lemma_unknown_read(s: Seq<char>, post: Seq<Seq<char>>, st: Settings)
    requires
        s.len() > 0,
        s[0] == '-',
        s != "-j"@,
        s != "--fsync"@,
        forall|flag: Flag|
            s != #[trigger] flag_name(flag) && !(flag_name(flag) + "="@).is_prefix_of(s),
    ensures
        read_args(seq![s] + post, st) == read_args(post, st),
{
    lemma_words();
    assert(flag_name(Flag::Jobs) + "="@ =~= "--jobs="@);
    assert(flag_name(Flag::Runs) + "="@ =~= "--runs="@);
    assert(flag_name(Flag::Json) + "="@ =~= "--json="@);
    assert(flag_name(Flag::SelectedFiles) + "="@ =~= "--selected-files="@);
    assert(s.subrange(0, 1) =~= "-"@);
    assert((seq![s] + post).skip(1) =~= post);
    assert((seq![s] + post)[0] == s);
}

/// Reading starts with one worker, three runs and nothing else set. What is missing behind the last
/// argument is told, the source first; a destination that is none is refused.
pub proof fn lemma_command_line_read(program: Seq<char>, args: Seq<Seq<char>>)
    ensures
        ({
            let start = Settings {
                source: None,
                remote: None,
                jobs_list: seq![1usize],
                runs: 3,
                fsync: false,
                selected_files: None,
                json_path: None,
            };
            let r = command_line(seq![program] + args);
            match read_args(args, start) {
                Err(fault) => r == Err::<(Settings, Destination), Fault>(fault),
                Ok(st) => {
                    &&& st.source is None ==> r == Err::<(Settings, Destination), Fault>(
                        Fault::MissingSource,
                    )
                    &&& st.source is Some && st.remote is None ==> r == Err::<
                        (Settings, Destination),
                        Fault,
                    >(Fault::MissingRemote)
                    &&& st.source is Some && st.remote is Some ==> match destination(
                        st.remote.unwrap(),
                    ) {
                        Some(d) => r == Ok::<(Settings, Destination), Fault>((st, d)),
                        None => r == Err::<(Settings, Destination), Fault>(Fault::InvalidRemote),
                    }
                },
            }
        }),
        command_line(Seq::empty()) == Err::<(Settings, Destination), Fault>(Fault::MissingSource),
{
    assert((seq![program] + args).skip(1) =~= args);
    assert(read_args(Seq::empty(), defaults()) == Ok::<Settings, Fault>(defaults()));
}

/// A command line of a source and a destination only asks for one worker and three runs.
pub proof fn lemma_plain_command_line(
    program: Seq<char>,
    source: Seq<char>,
    remote: Seq<char>,
    d: Destination,
)
    requires
        source.len() > 0 ==> source[0] != '-',
        remote.len() > 0 ==> remote[0] != '-',
        destination(remote) == Some(d),
    ensures
        command_line(seq![program, source, remote]) == Ok::<(Settings, Destination), Fault>(
            (
                Settings {
                    source: Some(source),
                    remote: Some(remote),
                    jobs_list: seq![1usize],
                    runs: 3,
                    fsync: false,
                    selected_files: None,
                    json_path: None,
                },
                d,
            ),
        ),
{
    let none = Seq::<Seq<char>>::empty();
    let first = defaults();
    let second = Settings { source: Some(source), ..first };
    let last = Settings { remote: Some(remote), ..second };
    lemma_positional_read(source, seq![remote], first);
    lemma_positional_read(remote, none, second);
    assert(seq![source] + seq![remote] =~= seq![source, remote]);
    assert(seq![remote] + none =~= seq![remote]);
    assert(read_args(none, last) == Ok::<Settings, Fault>(last));
    assert(seq![program, source, remote].skip(1) =~= seq![source, remote]);
}

/// The argument that is one too many is told as it is.
pub proof fn lemma_unexpected_told(arg: Seq<char>)
    ensures
        Fault::UnexpectedPositional(arg).text() == Fault::UnexpectedPositional(Seq::empty()).text()
            + arg,
{
    let none = Seq::<char>::empty();
    let head = "unexpected positional argument: "@;
    assert(head + none =~= head);
}

/// A value that is no number is told in the same words whatever is wrong with it, and what is wrong
/// lies behind it. Nothing lies behind any other fault.
pub proof fn lemma_causes(e: NumberError, f: NumberError, fault: Fault)
    ensures
        Fault::InvalidJobs(e).cause() == Some(e.text()),
        Fault::InvalidRuns(e).cause() == Some(e.text()),
        Fault::InvalidJobs(e).text() == Fault::InvalidJobs(f).text(),
        Fault::InvalidRuns(e).text() == Fault::InvalidRuns(f).text(),
        fault !is InvalidJobs && fault !is InvalidRuns ==> fault.cause() is None,
{
}

} // verus!
