//! Where the files are pushed to.

use vstd::prelude::*;

use crate::text::{chars_of, opt_view};

verus! {

/// A remote destination, written `[user@]host:path`.
#[derive(Debug)]
pub struct RemoteSpec {
    pub user: Option<String>,
    pub host: String,
    pub path: String,
}

/// What a remote destination says.
pub struct Destination {
    pub user: Option<Seq<char>>,
    pub host: Seq<char>,
    pub path: Seq<char>,
}

impl View for RemoteSpec {
    type V = Destination;

    open spec fn view(&self) -> Destination {
        Destination { user: opt_view(self.user), host: self.host@, path: self.path@ }
    }
}

/// A text without a host, a colon behind it, or a user ahead of an at sign.
#[derive(Debug, Clone, Copy, PartialEq, Eq, Structural)]
pub struct RemoteError {}

/// The parts of `s` ahead of the first `c` and behind it.
pub open spec fn cut(s: Seq<char>, c: char) -> Option<(Seq<char>, Seq<char>)> {
    match s.index_of_first(c) {
        Some(i) => Some((s.take(i), s.skip(i + 1))),
        None => None,
    }
}

/// The user and the host that stand ahead of the colon.
pub open spec fn login(head: Seq<char>) -> (Option<Seq<char>>, Seq<char>) {
    match cut(head, '@') {
        Some((user, host)) => (Some(user), host),
        None => (None, head),
    }
}

/// What `s` says as a remote destination.
pub open spec fn destination(s: Seq<char>) -> Option<Destination> {
    match cut(s, ':') {
        Some((head, path)) => {
            let (user, host) = login(head);
            if host.len() == 0 || user == Some(Seq::<char>::empty()) {
                None
            } else {
                Some(Destination { user, host, path })
            }
        },
        None => None,
    }
}

/// A remote destination as it is shown.
pub open spec fn label(d: Destination) -> Seq<char> {
    (match d.user {
        Some(user) => user + "@"@,
        None => Seq::empty(),
    }) + d.host + ":"@ + d.path
}

proof fn lemma_cut(s: Seq<char>, c: char)
    ensures
        cut(s, c) matches Some((head, tail)) ==> s == head.push(c) + tail,
{
    s.index_of_first_ensures(c);
    if let Some(i) = s.index_of_first(c) {
        assert(s =~= s.take(i).push(c) + s.skip(i + 1));
    }
}

/// A destination is shown as it was written.
pub proof fn lemma_label_round_trip(s: Seq<char>)
    ensures
        destination(s) matches Some(d) ==> label(d) == s,
{
    reveal_strlit("@");
    reveal_strlit(":");
    if let Some(d) = destination(s) {
        lemma_cut(s, ':');
        let (head, path) = cut(s, ':').unwrap();
        lemma_cut(head, '@');
        assert(label(d) =~= s);
    }
}

/// Where `c` first stands in `chars[..to]`.
fn find_char(chars: &Vec<char>, to: usize, c: char) -> (r: Option<usize>)
    requires
        to <= chars.len(),
    ensures
        match r {
            Some(i) => i < to && chars@.take(to as int).index_of_first(c) == Some(i as int),
            None => chars@.take(to as int).index_of_first(c) is None,
        },
{
    let ghost s = chars@.take(to as int);
    proof {
        s.index_of_first_ensures(c);
    }
    let mut i: usize = 0;
    while i < to
        invariant
            to <= chars.len(),
            s == chars@.take(to as int),
            i <= to,
            forall|k: int| 0 <= k < i ==> s[k] != c,
        decreases to - i,
    {
        if chars[i] == c {
            proof {
                s.index_of_first_ensures(c);
                assert(s[i as int] == c);
                assert(s.contains(c));
            }
            return Some(i);
        }
        i += 1;
    }
    None
}

impl RemoteSpec {
    /// Reads a remote destination.
    pub fn parse(text: &str) -> (r: Result<RemoteSpec, RemoteError>)
        ensures
            match r {
                Ok(spec) => destination(text@) == Some(spec@),
                Err(_) => destination(text@) is None,
            },
            r matches Ok(spec) ==> {
                let d = destination(text@).unwrap();
                &&& spec.host@ == d.host
                &&& spec.path@ == d.path
                &&& spec.user is Some <==> d.user is Some
                &&& spec.user matches Some(user) ==> d.user == Some(user@)
            },
    {
        let chars: Vec<char> = chars_of(text);
        let n: usize = chars.len();
        assert(chars@.take(n as int) =~= text@);
        let colon: usize = match find_char(&chars, n, ':') {
            Some(i) => i,
            None => {
                return Err(RemoteError {  });
            },
        };
        let ghost head = text@.take(colon as int);
        assert(chars@.take(colon as int) =~= head);
        let path: String = text.substring_char(colon + 1, n).to_owned();
        assert(path@ =~= text@.skip(colon + 1));
        match find_char(&chars, colon, '@') {
            Some(at) => {
                if at == 0 || at + 1 == colon {
                    assert(at == 0 ==> head.take(at as int) =~= Seq::<char>::empty());
                    assert(head.skip(at + 1).len() == colon - at - 1);
                    return Err(RemoteError {  });
                }
                let user: String = text.substring_char(0, at).to_owned();
                let host: String = text.substring_char(at + 1, colon).to_owned();
                assert(user@ =~= head.take(at as int));
                assert(host@ =~= head.skip(at + 1));
                Ok(RemoteSpec { user: Some(user), host, path })
            },
            None => {
                if colon == 0 {
                    return Err(RemoteError {  });
                }
                let host: String = text.substring_char(0, colon).to_owned();
                assert(host@ =~= head);
                Ok(RemoteSpec { user: None, host, path })
            },
        }
    }

    /// The destination as it is shown.
    pub fn label(&self) -> (r: String)
        ensures
            r@ == label(self@),
    {
        let mut out: String = String::new();
        if let Some(user) = &self.user {
            out.append(user.as_str());
            out.append("@");
            assert(out@ =~= user@ + "@"@);
        }
        out.append(self.host.as_str());
        out.append(":");
        out.append(self.path.as_str());
        out
    }
}

impl RemoteError {
    /// What is wrong, in words.
    pub fn message(&self) -> (r: String)
        ensures
            r@ == "remote destination is not [user@]host:path"@,
    {
        "remote destination is not [user@]host:path".to_owned()
    }
}

/// What stands ahead of the first colon is the host, with the user ahead of its first at sign where
/// it has one; what stands behind the colon is the path, colons and at signs included. Neither a
/// user nor a host may be empty.
pub proof fn lemma_destination_read(user: Seq<char>, host: Seq<char>, path: Seq<char>)
    requires
        !user.contains(':'),
        !user.contains('@'),
        !host.contains(':'),
    ensures
        destination(user + seq!['@'] + host + seq![':'] + path) == if user.len() > 0 && host.len()
            > 0 {
            Some(Destination { user: Some(user), host, path })
        } else {
            None
        },
        !host.contains('@') ==> destination(host + seq![':'] + path) == if host.len() > 0 {
            Some(Destination { user: None, host, path })
        } else {
            None
        },
{
    let head = user + seq!['@'] + host;
    let s = head + seq![':'] + path;
    assert(!head.contains(':')) by {
        if head.contains(':') {
            let i = choose|i: int| 0 <= i < head.len() && head[i] == ':';
            if i < user.len() {
                assert(user[i] == ':');
            } else {
                assert(host[i - user.len() - 1] == ':');
            }
        }
    }
    lemma_cut_at(head, path, ':');
    assert(s =~= head.push(':') + path);
    lemma_cut_at(user, host, '@');
    assert(head =~= user.push('@') + host);
    let t = host + seq![':'] + path;
    lemma_cut_at(host, path, ':');
    assert(t =~= host.push(':') + path);
    if user.len() == 0 {
        assert(user =~= Seq::empty());
    }
    if !host.contains('@') {
        host.index_of_first_ensures('@');
    }
}

/// A text without a colon is no destination.
pub proof fn lemma_no_destination(s: Seq<char>)
    requires
        !s.contains(':'),
    ensures
        destination(s) is None,
{
    s.index_of_first_ensures(':');
}

/// A text is cut where the character first stands.
proof fn lemma_cut_at(a: Seq<char>, b: Seq<char>, c: char)
    requires
        !a.contains(c),
    ensures
        cut(a.push(c) + b, c) == Some((a, b)),
{
    let s = a.push(c) + b;
    let n = a.len() as int;
    s.index_of_first_ensures(c);
    assert(s[n] == c);
    assert(s.contains(c));
    let i = s.index_of_first(c).unwrap();
    if i < n {
        assert(a[i] == c);
    }
    assert(s.take(n) =~= a);
    assert(s.skip(n + 1) =~= b);
}

/// A destination is shown as its host and its path with a colon between them, and behind the user
/// and an at sign where there is a user.
pub proof fn lemma_label_written(user: Seq<char>, host: Seq<char>, path: Seq<char>)
    ensures
        label(Destination { user: None, host, path }) == host + seq![':'] + path,
        label(Destination { user: Some(user), host, path }) == user + seq!['@'] + label(
            Destination { user: None, host, path },
        ),
{
    reveal_strlit("@");
    reveal_strlit(":");
    let plain = label(Destination { user: None, host, path });
    assert(plain =~= host + seq![':'] + path);
    assert(label(Destination { user: Some(user), host, path }) =~= user + seq!['@'] + plain);
}

} // verus!
