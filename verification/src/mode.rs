//! What a command line asks the program to do.

use vstd::prelude::*;

use crate::text::{same_text, views};

verus! {

/// What the program is to do.
#[derive(Debug, Clone, Copy, PartialEq, Eq, Structural)]
pub enum Mode {
    /// Answer the other side over the standard streams.
    RemoteHelper,
    /// Send over remote memory access.
    RdmaSend,
    /// Run the push benchmark.
    PushPrototype,
    /// Synchronise.
    Sync,
}

/// The mode that the arguments ask for, where `rdma` says whether this system can send over
/// remote memory access.
pub open spec fn mode(args: Seq<Seq<char>>, rdma: bool) -> Mode {
    if args.contains("--internal-remote-helper"@) {
        Mode::RemoteHelper
    } else if rdma && args.contains("--internal-rdma-send"@) {
        Mode::RdmaSend
    } else if args.contains("--prototype-push"@) || args.contains("--internal-push-prototype"@) {
        Mode::PushPrototype
    } else {
        Mode::Sync
    }
}

/// Whether one of the arguments is `word`.
fn mentions(args: &[String], word: &str) -> (r: bool)
    ensures
        r == views(args@).contains(word@),
{
    let mut i: usize = 0;
    while i < args.len()
        invariant
            i <= args.len(),
            forall|k: int| 0 <= k < i ==> #[trigger] args@[k]@ != word@,
        decreases args.len() - i,
    {
        if same_text(args[i].as_str(), word) {
            assert(views(args@)[i as int] == word@);
            return true;
        }
        i += 1;
    }
    assert forall|k: int| 0 <= k < views(args@).len() implies #[trigger] views(args@)[k]
        != word@ by {
        assert(args@[k]@ != word@);
    }
    false
}

/// Picks the mode that the arguments ask for.
pub fn select_mode(args: &[String], rdma: bool) -> (r: Mode)
    ensures
        r == mode(views(args@), rdma),
{
    if mentions(args, "--internal-remote-helper") {
        Mode::RemoteHelper
    } else if rdma && mentions(args, "--internal-rdma-send") {
        Mode::RdmaSend
    } else if mentions(args, "--prototype-push") || mentions(args, "--internal-push-prototype") {
        Mode::PushPrototype
    } else {
        Mode::Sync
    }
}

/// The order of the arguments does not matter for the mode.
pub proof fn lemma_mode_of_any_order(a: Seq<Seq<char>>, b: Seq<Seq<char>>, rdma: bool)
    requires
        a.to_multiset() == b.to_multiset(),
    ensures
        mode(a, rdma) == mode(b, rdma),
{
    broadcast use vstd::seq_lib::group_to_multiset_ensures;

    assert forall|w: Seq<char>| #[trigger] a.contains(w) == b.contains(w) by {
        assert(a.contains(w) <==> a.to_multiset().count(w) > 0);
        assert(b.contains(w) <==> b.to_multiset().count(w) > 0);
    }
}

/// Each word stands for its mode wherever it is given; among several, the first of the helper's, the
/// sender's, where there is one, and the benchmark's decides.
pub proof fn lemma_mode_of_words(args: Seq<Seq<char>>, rdma: bool)
    ensures
        ({
            let helper = exists|i: int|
                0 <= i < args.len() && #[trigger] args[i] == "--internal-remote-helper"@;
            let sender = rdma && exists|i: int|
                0 <= i < args.len() && #[trigger] args[i] == "--internal-rdma-send"@;
            let push = exists|i: int|
                0 <= i < args.len() && (#[trigger] args[i] == "--prototype-push"@ || args[i]
                    == "--internal-push-prototype"@);
            &&& helper <==> mode(args, rdma) == Mode::RemoteHelper
            &&& !helper && sender <==> mode(args, rdma) == Mode::RdmaSend
            &&& !helper && !sender && push <==> mode(args, rdma) == Mode::PushPrototype
            &&& !helper && !sender && !push <==> mode(args, rdma) == Mode::Sync
        }),
{
}

} // verus!
