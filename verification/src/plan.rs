//! What each run of the benchmark does on the remote side.

use vstd::prelude::*;
use vstd::utf8::encode_utf8;

use crate::inventory::{Inventory, Load, Pushed};
use crate::number::{
    decimal, decimal_text, digits, hex_text, is_digit, is_hex_digit, lemma_decimal_value,
    lemma_digits_written, lemma_padded_decimal, padded_decimal, padded_decimal_text, radix_value,
};
use crate::path::{join, parent, path_views, UnixPath};
use crate::text::{chars_of, lemma_split_at, lemma_split_whole, same_text, split};

verus! {

/// The mark of a session, taken from the time at which it began.
pub open spec fn session_token(seconds: u64) -> Seq<char> {
    digits((seconds % 0x1000000) as nat, 16)
}

/// The name of a run's directory.
pub open spec fn run_name(token: Seq<char>, jobs: nat, run: nat) -> Seq<char> {
    ".parsync-push-bench-rust-j"@ + decimal(jobs) + "-"@ + token + "-"@ + padded_decimal(run, 3)
}

/// Where a run puts its files, where the destination names the directory `base`.
pub open spec fn run_root(base: Seq<char>, name: Seq<char>) -> Seq<char> {
    if base.len() == 0 || base == "."@ {
        name
    } else if base.last() == '/' {
        base + name
    } else {
        base + "/"@ + name
    }
}

/// The name that a file has while it is uploaded.
pub open spec fn temp_name(token: Seq<char>, number: nat) -> Seq<char> {
    ".parsync-part-"@ + token + "-"@ + padded_decimal(number, 6)
}

/// The upload of one file.
#[derive(Debug)]
pub struct Upload {
    pub local_path: UnixPath,
    /// Where the bytes go while they are sent.
    pub temp_path: UnixPath,
    /// Where the file goes once it is complete.
    pub final_path: UnixPath,
}

/// The upload of one file, as a specification speaks of it.
pub struct Transfer {
    pub local: Seq<u8>,
    pub temp: Seq<u8>,
    pub target: Seq<u8>,
}

impl View for Upload {
    type V = Transfer;

    open spec fn view(&self) -> Transfer {
        Transfer { local: self.local_path@, temp: self.temp_path@, target: self.final_path@ }
    }
}

pub open spec fn upload_views(list: Seq<Upload>) -> Seq<Transfer> {
    list.map_values(|u: Upload| u@)
}

/// Where a file with the final path `target` goes while it is sent: beside where it will be.
pub open spec fn temp_path(target: Seq<u8>, name: Seq<u8>) -> Seq<u8> {
    match parent(target) {
        Some(dir) => join(dir, name),
        None => name,
    }
}

/// The upload of `file`, which is the `number`th, to the directory `root`.
pub open spec fn transfer(root: Seq<u8>, token: Seq<char>, file: Pushed, number: nat) -> Transfer {
    let target = join(root, file.relative);
    Transfer {
        local: file.local,
        temp: temp_path(target, encode_utf8(temp_name(token, number))),
        target,
    }
}

/// One run: with how many workers, and what is made and sent.
#[derive(Debug)]
pub struct RunPlan {
    pub jobs: usize,
    pub remote_run_root: String,
    /// The directories to make, in this order, before anything is sent.
    pub directories: Vec<UnixPath>,
    pub uploads: Vec<Upload>,
}

/// One run, as a specification speaks of it.
pub struct Plan {
    pub jobs: nat,
    pub root: Seq<char>,
    pub directories: Seq<Seq<u8>>,
    pub uploads: Seq<Transfer>,
}

impl View for RunPlan {
    type V = Plan;

    open spec fn view(&self) -> Plan {
        Plan {
            jobs: self.jobs as nat,
            root: self.remote_run_root@,
            directories: path_views(self.directories@),
            uploads: upload_views(self.uploads@),
        }
    }
}

/// The directories that a run makes: its own, and in it those of the load.
pub open spec fn made_directories(root: Seq<u8>, load: Load) -> Seq<Seq<u8>> {
    seq![root] + Seq::new(load.directories.len(), |i: int| join(root, load.directories[i]))
}

/// What a run sends: every file of the load, numbered from one.
pub open spec fn made_transfers(root: Seq<u8>, token: Seq<char>, load: Load) -> Seq<Transfer> {
    Seq::new(load.files.len(), |i: int| transfer(root, token, load.files[i], (i + 1) as nat))
}

/// The plan of a run.
pub open spec fn plan(base: Seq<char>, token: Seq<char>, jobs: nat, run: nat, load: Load) -> Plan {
    let root = run_root(base, run_name(token, jobs, run));
    Plan {
        jobs,
        root,
        directories: made_directories(encode_utf8(root), load),
        uploads: made_transfers(encode_utf8(root), token, load),
    }
}

/// The mark of a session that began so many seconds into the epoch.
pub fn token_of(seconds: u64) -> (r: String)
    ensures
        r@ == session_token(seconds),
{
    assert(seconds & 0xffffff == seconds % 0x1000000) by (bit_vector);
    hex_text(seconds & 0xffffff)
}

/// The directory of the `run`th run with so many workers.
pub fn remote_run_root(base: &str, token: &str, jobs: usize, run: usize) -> (r: String)
    ensures
        r@ == run_root(base@, run_name(token@, jobs as nat, run as nat)),
{
    let mut name: String = ".parsync-push-bench-rust-j".to_owned();
    let jobs_text: String = decimal_text(jobs as u64);
    let run_text: String = padded_decimal_text(run as u64, 3);
    name.append(jobs_text.as_str());
    name.append("-");
    name.append(token);
    name.append("-");
    name.append(run_text.as_str());
    if base.is_empty() || same_text(base, ".") {
        return name;
    }
    let chars: Vec<char> = chars_of(base);
    let mut out: String = base.to_owned();
    if chars[chars.len() - 1] != '/' {
        out.append("/");
    }
    out.append(name.as_str());
    out
}

/// Where a file with this final path goes while it is sent.
fn temp_for(target: &UnixPath, token: &str, number: usize) -> (r: UnixPath)
    ensures
        r@ == temp_path(target@, encode_utf8(temp_name(token@, number as nat))),
{
    let mut text: String = ".parsync-part-".to_owned();
    let number_text: String = padded_decimal_text(number as u64, 6);
    text.append(token);
    text.append("-");
    text.append(number_text.as_str());
    let name: UnixPath = UnixPath::from_text(text.as_str());
    match target.parent() {
        Some(dir) => dir.join(&name),
        None => name,
    }
}

/// Plans the `run`th run with so many workers.
pub fn plan_run(
    base: &str,
    token: &str,
    jobs: usize,
    run: usize,
    inventory: &Inventory,
) -> (r: RunPlan)
    ensures
        r@ == plan(base@, token@, jobs as nat, run as nat, inventory@),
        r.jobs == jobs,
        r.uploads@.len() == inventory.files@.len(),
        forall|i: int|
            0 <= i < inventory.files@.len() ==> (#[trigger] r.uploads@[i]).local_path@
                == inventory.files@[i].local_path@,
        forall|i: int|
            0 <= i < inventory.files@.len() ==> (#[trigger] r.uploads@[i]).final_path@ == join(
                encode_utf8(r.remote_run_root@),
                inventory.files@[i].relative_path@,
            ),
        forall|i: int|
            0 <= i < inventory.files@.len() ==> (#[trigger] r.uploads@[i]).temp_path@ == temp_path(
                r.uploads@[i].final_path@,
                encode_utf8(temp_name(token@, (i + 1) as nat)),
            ),
        r.remote_run_root@ == run_root(base@, run_name(token@, jobs as nat, run as nat)),
        r.directories@.len() == inventory.directories@.len() + 1,
        r.directories@[0]@ == encode_utf8(r.remote_run_root@),
        forall|i: int|
            0 <= i < inventory.directories@.len() ==> (#[trigger] r.directories@[i + 1])@ == join(
                encode_utf8(r.remote_run_root@),
                inventory.directories@[i]@,
            ),
{
    let text: String = remote_run_root(base, token, jobs, run);
    let root: UnixPath = UnixPath::from_text(text.as_str());
    let ghost load = inventory@;
    let mut directories: Vec<UnixPath> = Vec::new();
    directories.push(root.clone());
    let mut i: usize = 0;
    assert(path_views(directories@) =~= made_directories(root@, load).take(1));
    while i < inventory.directories.len()
        invariant
            load == inventory@,
            i <= inventory.directories.len(),
            path_views(directories@) == made_directories(root@, load).take(i + 1),
        decreases inventory.directories.len() - i,
    {
        let ghost before = directories@;
        let dir: UnixPath = root.join(&inventory.directories[i]);
        directories.push(dir);
        proof {
            assert(load.directories[i as int] == inventory.directories@[i as int]@);
            assert(path_views(directories@) =~= path_views(before).push(dir@));
            assert(made_directories(root@, load).take(i + 2) =~= made_directories(
                root@,
                load,
            ).take(i + 1).push(dir@));
        }
        i += 1;
    }
    let mut uploads: Vec<Upload> = Vec::new();
    let mut k: usize = 0;
    assert(upload_views(uploads@) =~= made_transfers(root@, token@, load).take(0));
    while k < inventory.files.len()
        invariant
            load == inventory@,
            k <= inventory.files.len(),
            upload_views(uploads@) == made_transfers(root@, token@, load).take(k as int),
        decreases inventory.files.len() - k,
    {
        let ghost before = uploads@;
        let final_path: UnixPath = root.join(&inventory.files[k].relative_path);
        let temp_path: UnixPath = temp_for(&final_path, token, k + 1);
        let upload: Upload = Upload {
            local_path: inventory.files[k].local_path.clone(),
            temp_path,
            final_path,
        };
        uploads.push(upload);
        proof {
            assert(load.files[k as int] == inventory.files@[k as int]@);
            assert(upload_views(uploads@) =~= upload_views(before).push(upload@));
            assert(made_transfers(root@, token@, load).take(k + 1) =~= made_transfers(
                root@,
                token@,
                load,
            ).take(k as int).push(upload@));
        }
        k += 1;
    }
    proof {
        assert(made_directories(root@, load).take(i + 1) =~= made_directories(root@, load));
        assert(made_transfers(root@, token@, load).take(k as int) =~= made_transfers(
            root@,
            token@,
            load,
        ));
        lemma_plan_sends(base@, token@, jobs as nat, run as nat, load);
        assert(upload_views(uploads@).len() == uploads@.len());
        assert(path_views(directories@).len() == directories@.len());
        assert forall|i: int| 0 <= i < inventory.files@.len() implies (
        #[trigger] uploads@[i]).local_path@ == inventory.files@[i].local_path@
            && uploads@[i].final_path@ == join(root@, inventory.files@[i].relative_path@)
            && uploads@[i].temp_path@ == temp_path(
            uploads@[i].final_path@,
            encode_utf8(temp_name(token@, (i + 1) as nat)),
        ) by {
            assert(upload_views(uploads@)[i] == uploads@[i]@);
            assert(load.files[i] == inventory.files@[i]@);
        }
        assert(path_views(directories@)[0] == directories@[0]@);
        assert forall|i: int| 0 <= i < inventory.directories@.len() implies (
        #[trigger] directories@[i + 1])@ == join(root@, inventory.directories@[i]@) by {
            assert(path_views(directories@)[i + 1] == directories@[i + 1]@);
            assert(load.directories[i] == inventory.directories@[i]@);
        }
    }
    RunPlan { jobs, remote_run_root: text, directories, uploads }
}

/// A run sends every file of the load, from where it is to its path below the directory of the run,
/// and makes that directory and every directory of the load below it.
pub proof fn lemma_plan_sends(base: Seq<char>, token: Seq<char>, jobs: nat, run: nat, load: Load)
    ensures
        ({
            let p = plan(base, token, jobs, run, load);
            let root = encode_utf8(p.root);
            &&& p.jobs == jobs
            &&& p.root == run_root(base, run_name(token, jobs, run))
            &&& p.uploads.len() == load.files.len()
            &&& forall|i: int|
                0 <= i < load.files.len() ==> (#[trigger] p.uploads[i]).local == load.files[i].local
                    && p.uploads[i].target == join(root, load.files[i].relative)
            &&& p.uploads == made_transfers(root, token, load)
            &&& p.directories.len() == load.directories.len() + 1
            &&& p.directories[0] == root
            &&& forall|i: int|
                0 <= i < load.directories.len() ==> #[trigger] p.directories[i + 1] == join(
                    root,
                    load.directories[i],
                )
            &&& p.directories == made_directories(root, load)
        }),
{
}

/// The upload made for a file reads that file.
pub proof fn lemma_own_file_sent(root: Seq<u8>, token: Seq<char>, load: Load)
    ensures
        made_transfers(root, token, load).len() == load.files.len(),
        forall|i: int|
            0 <= i < load.files.len() ==> (#[trigger] made_transfers(root, token, load)[i]).local
                == load.files[i].local,
{
}

/// The directory of a run has its name, and lies where the destination says: nowhere else if that
/// is empty or a single dot, and behind it otherwise, with one slash between them.
pub proof fn lemma_run_root_placed(base: Seq<char>, name: Seq<char>)
    ensures
        base.len() == 0 || base == seq!['.'] ==> run_root(base, name) == name,
        base.len() > 0 && base != seq!['.'] ==> {
            let root = run_root(base, name);
            let n = base.len() as int;
            if base.last() == '/' {
                root.take(n) == base && root.skip(n) == name
            } else {
                root.take(n) == base && root[n] == '/' && root.skip(n + 1) == name
            }
        },
{
    reveal_strlit(".");
    reveal_strlit("/");
    assert("."@ =~= seq!['.']);
    let root = run_root(base, name);
    let n = base.len() as int;
    if base.len() > 0 && base != seq!['.'] {
        assert(root.take(n) =~= base);
        if base.last() == '/' {
            assert(root.skip(n) =~= name);
        } else {
            assert(root.skip(n + 1) =~= name);
        }
    }
}

/// The mark of a session stands, in hexadecimal and without zeros in front, for the number of
/// seconds that are left of the time once whole sixteen million odd are taken off.
pub proof fn lemma_token_written(seconds: u64)
    ensures
        radix_value(session_token(seconds), 16) == seconds as int % 0x1000000,
        session_token(seconds).len() > 1 ==> session_token(seconds)[0] != '0',
        forall|i: int|
            0 <= i < session_token(seconds).len() ==> is_hex_digit(
                #[trigger] session_token(seconds)[i],
            ),
{
    lemma_digits_written((seconds % 0x1000000) as nat, 16);
}

proof fn lemma_split_lead(a: Seq<char>, b: Seq<char>)
    requires
        !a.contains('-'),
    ensures
        split(a.push('-') + b, '-') == seq![a] + split(b, '-'),
{
    lemma_split_at(a, b, '-');
    lemma_split_whole(a, '-');
}

proof fn lemma_no_dash(s: Seq<char>)
    requires
        forall|i: int| 0 <= i < s.len() ==> is_hex_digit(#[trigger] s[i]),
    ensures
        !s.contains('-'),
{
    if s.contains('-') {
        let i = choose|i: int| 0 <= i < s.len() && s[i] == '-';
        assert(is_hex_digit(s[i]));
    }
}

/// Between its dashes, the name of a run's directory says the number of workers, the mark of the
/// session and the number of the run with three digits at least.
pub proof fn lemma_run_name_fields(token: Seq<char>, jobs: nat, run: nat)
    requires
        forall|i: int| 0 <= i < token.len() ==> is_hex_digit(#[trigger] token[i]),
    ensures
        split(run_name(token, jobs, run), '-') == seq![
            ".parsync"@,
            "push"@,
            "bench"@,
            "rust"@,
            "j"@ + decimal(jobs),
            token,
            padded_decimal(run, 3),
        ],
{
    reveal_strlit(".parsync-push-bench-rust-j");
    reveal_strlit(".parsync");
    reveal_strlit("push");
    reveal_strlit("bench");
    reveal_strlit("rust");
    reveal_strlit("j");
    reveal_strlit("-");
    let end = padded_decimal(run, 3);
    let workers = "j"@ + decimal(jobs);
    lemma_padded_decimal(run, 3);
    lemma_decimal_value(jobs);
    assert forall|i: int| 0 <= i < end.len() implies is_hex_digit(#[trigger] end[i]) by {
        assert(is_digit(end[i]));
    }
    lemma_no_dash(end);
    lemma_no_dash(token);
    assert(!workers.contains('-')) by {
        if workers.contains('-') {
            let i = choose|i: int| 0 <= i < workers.len() && workers[i] == '-';
            assert(is_digit(decimal(jobs)[i - 1]));
        }
    }
    let r5 = token.push('-') + end;
    let r4 = workers.push('-') + r5;
    let r3 = "rust"@.push('-') + r4;
    let r2 = "bench"@.push('-') + r3;
    let r1 = "push"@.push('-') + r2;
    assert(run_name(token, jobs, run) =~= ".parsync"@.push('-') + r1);
    assert(!".parsync"@.contains('-'));
    assert(!"push"@.contains('-'));
    assert(!"bench"@.contains('-'));
    assert(!"rust"@.contains('-'));
    lemma_split_lead(".parsync"@, r1);
    lemma_split_lead("push"@, r2);
    lemma_split_lead("bench"@, r3);
    lemma_split_lead("rust"@, r4);
    lemma_split_lead(workers, r5);
    lemma_split_lead(token, end);
    lemma_split_whole(end, '-');
    assert(split(run_name(token, jobs, run), '-') =~= seq![
        ".parsync"@,
        "push"@,
        "bench"@,
        "rust"@,
        workers,
        token,
        end,
    ]);
}

/// Between its dashes, the name of a file that is being sent says the mark of the session and the
/// number of the file with six digits at least.
pub proof fn lemma_temp_name_fields(token: Seq<char>, number: nat)
    requires
        forall|i: int| 0 <= i < token.len() ==> is_hex_digit(#[trigger] token[i]),
    ensures
        split(temp_name(token, number), '-') == seq![
            ".parsync"@,
            "part"@,
            token,
            padded_decimal(number, 6),
        ],
{
    reveal_strlit(".parsync-part-");
    reveal_strlit(".parsync");
    reveal_strlit("part");
    reveal_strlit("-");
    let end = padded_decimal(number, 6);
    lemma_padded_decimal(number, 6);
    assert forall|i: int| 0 <= i < end.len() implies is_hex_digit(#[trigger] end[i]) by {
        assert(is_digit(end[i]));
    }
    lemma_no_dash(end);
    lemma_no_dash(token);
    let r2 = token.push('-') + end;
    let r1 = "part"@.push('-') + r2;
    assert(temp_name(token, number) =~= ".parsync"@.push('-') + r1);
    assert(!".parsync"@.contains('-'));
    assert(!"part"@.contains('-'));
    lemma_split_lead(".parsync"@, r1);
    lemma_split_lead("part"@, r2);
    lemma_split_lead(token, end);
    lemma_split_whole(end, '-');
    assert(split(temp_name(token, number), '-') =~= seq![".parsync"@, "part"@, token, end]);
}

} // verus!
