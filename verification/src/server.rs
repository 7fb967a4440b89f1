//! The server: who may log in, what a session does with a command, and how
//! many sessions run at a time.
//!
//! `SoftServer` keeps count of the sessions. It starts no thread and waits
//! for nothing: the host asks it for a place before it starts a session, and
//! tells it which sessions have ended.

use crate::common::{blob_frame, parse_blob, parse_line, recv_file, send_file};
use crate::error::{Error, Result};
use crate::server::connection::{parse_command, read_command};
use crate::server::users::{names_distinct, parse_users, with_user, Users};
use crate::types::Command;
use vstd::prelude::*;

pub mod connection;
pub mod users;

verus! {

/// The number of sessions a server runs at a time unless told otherwise.
pub const DEFAULT_MAX_THREADS: usize = 8;

/// The largest number of sessions at a time for a given wish: eight where
/// none is given, and never less than one.
pub open spec fn sessions_limit(max_threads: Option<usize>) -> usize {
    match max_threads {
        None => DEFAULT_MAX_THREADS,
        Some(n) => if n < 1 {
            1
        } else {
            n
        },
    }
}

/// The directory, below the data directory of the application, that holds
/// the user database of the server with the given name.
pub open spec fn db_dir_of(name: Seq<char>) -> Seq<char> {
    seq!['d', 'b', '/'] + name
}

/// Whether no number occurs twice.
pub open spec fn distinct(ids: Seq<u64>) -> bool {
    forall|i: int, j: int| 0 <= i < j < ids.len() ==> ids[i] != ids[j]
}

/// The smallest number that is not among `ids`.
pub open spec fn first_free(ids: Seq<u64>) -> nat {
    first_free_from(ids, 0)
}

/// The smallest number from `from` on that is not among `ids`.
pub open spec fn first_free_from(ids: Seq<u64>, from: nat) -> nat
    decreases ids.len() + 1 - from,
{
    if from <= ids.len() && from <= u64::MAX && ids.contains(from as u64) {
        first_free_from(ids, from + 1)
    } else {
        from
    }
}

/// A server as a mathematical value.
pub struct ServerView {
    /// The sessions that run, each under its number, in the order in which
    /// they were admitted.
    pub live: Seq<u64>,
    /// The largest number of sessions at a time.
    pub max_threads: usize,
    /// The users who may log in.
    pub users: Seq<(Seq<char>, Seq<char>)>,
    /// Whether the server is open for users without a name.
    pub allow_anonymous: bool,
}

/// The server: its users, and the sessions that run.
#[derive(Debug)]
pub struct SoftServer {
    connection_handlers: Vec<u64>,
    users: Users,
    max_threads: usize,
    allow_anonymous: bool,
}

impl View for SoftServer {
    type V = ServerView;

    closed spec fn view(&self) -> ServerView {
        ServerView {
            live: self.connection_handlers@,
            max_threads: self.max_threads,
            users: self.users@,
            allow_anonymous: self.allow_anonymous,
        }
    }
}

impl ServerView {
    /// What holds of every server: it has room for one session at least, it
    /// never runs more sessions than it has room for, no two sessions share
    /// a number, and no user is there twice.
    pub open spec fn well_formed(self) -> bool {
        &&& 1 <= self.max_threads
        &&& self.live.len() <= self.max_threads
        &&& distinct(self.live)
        &&& names_distinct(self.users)
    }

    /// Whether there is room for one more session.
    pub open spec fn has_room(self) -> bool {
        self.live.len() + 1 <= self.max_threads
    }
}

/// Where each number below `count` is among `ids`, there are `count`
/// numbers at least.
proof fn lemma_pigeonhole(ids: Seq<u64>, count: int)
    requires
        forall|k: u64| k < count ==> #[trigger] ids.contains(k),
        0 <= count <= u64::MAX + 1,
    ensures
        count <= ids.len(),
    decreases count,
{
    if count > 0 {
        let top = (count - 1) as u64;
        assert(ids.contains(top));
        let at = choose|i: int| 0 <= i < ids.len() && ids[i] == top;
        let rest = ids.remove(at);
        assert forall|k: u64| k < top implies #[trigger] rest.contains(k) by {
            assert(ids.contains(k));
            let j = choose|i: int| 0 <= i < ids.len() && ids[i] == k;
            if j < at {
                assert(rest[j] == k);
            } else {
                assert(rest[j - 1] == k);
            }
        }
        lemma_pigeonhole(rest, top as int);
    }
}

/// The number that `first_free_from` finds is free, and each number between
/// `from` and it is taken.
proof fn lemma_first_free_from(ids: Seq<u64>, from: nat)
    requires
        ids.len() <= u64::MAX,
        forall|k: u64| k < from ==> #[trigger] ids.contains(k),
    ensures
        from <= first_free_from(ids, from) <= ids.len(),
        !ids.contains(first_free_from(ids, from) as u64),
        forall|k: u64| k < first_free_from(ids, from) ==> #[trigger] ids.contains(k),
    decreases ids.len() + 1 - from,
{
    if from <= u64::MAX {
        lemma_pigeonhole(ids, from as int);
    } else {
        lemma_pigeonhole(ids, u64::MAX + 1);
    }
    if from <= ids.len() && ids.contains(from as u64) {
        assert forall|k: u64| k < from + 1 implies #[trigger] ids.contains(k) by {}
        lemma_first_free_from(ids, from + 1);
    }
}

/// The number that a new session gets is the smallest that is free: no
/// session runs under it, and one runs under each number below it. It is
/// never larger than the number of the sessions that run.
pub proof fn lemma_first_free(ids: Seq<u64>)
    requires
        ids.len() <= u64::MAX,
    ensures
        first_free(ids) <= ids.len(),
        !ids.contains(first_free(ids) as u64),
        forall|k: u64| k < first_free(ids) ==> #[trigger] ids.contains(k),
{
    lemma_first_free_from(ids, 0);
}

/// The sessions that stay when those in `finished` are taken off.
pub open spec fn remaining(live: Seq<u64>, finished: Seq<u64>) -> Seq<u64> {
    live.filter(|id: u64| !finished.contains(id))
}

/// The sessions that stay are not more than those that ran, and fewer
/// where one of them has ended.
pub proof fn lemma_remaining_len(live: Seq<u64>, finished: Seq<u64>)
    ensures
        remaining(live, finished).len() <= live.len(),
        (exists|i: int| 0 <= i < live.len() && finished.contains(live[i])) ==> remaining(
            live,
            finished,
        ).len() < live.len(),
    decreases live.len(),
{
    reveal(Seq::filter);
    if live.len() > 0 {
        let init = live.drop_last();
        lemma_remaining_len(init, finished);
        if exists|i: int| 0 <= i < live.len() && finished.contains(live[i]) {
            let i = choose|i: int| 0 <= i < live.len() && finished.contains(live[i]);
            if i < init.len() {
                assert(init[i] == live[i]);
            }
        }
    }
}

/// A server that is full has room again as soon as one of its sessions has
/// ended and was taken off; until then it has none.
pub proof fn lemma_room_after_reaping(server: ServerView, finished: Seq<u64>)
    requires
        server.well_formed(),
        !server.has_room(),
    ensures
        (ServerView { live: remaining(server.live, finished), ..server }).has_room() <==> exists|
            i: int,
        |
            0 <= i < server.live.len() && finished.contains(server.live[i]),
{
    lemma_remaining_len(server.live, finished);
    if !exists|i: int| 0 <= i < server.live.len() && finished.contains(server.live[i]) {
        lemma_remaining_all(server.live, finished);
    }
}

/// Where no session has ended, all of them stay.
proof fn lemma_remaining_all(live: Seq<u64>, finished: Seq<u64>)
    requires
        forall|i: int| 0 <= i < live.len() ==> !finished.contains(live[i]),
    ensures
        remaining(live, finished) == live,
    decreases live.len(),
{
    reveal(Seq::filter);
    if live.len() > 0 {
        let init = live.drop_last();
        assert forall|i: int| 0 <= i < init.len() implies !finished.contains(init[i]) by {
            assert(init[i] == live[i]);
        }
        lemma_remaining_all(init, finished);
        assert(!finished.contains(live[live.len() - 1]));
        assert(init.push(live.last()) == live);
    }
}

/// The directory, below the data directory of the application, that holds
/// the user database of the server with the given name.
pub fn db_dir(name: &str) -> (r: String)
    ensures
        r@ == db_dir_of(name@),
{
    let mut r = String::new();
    r.push('d');
    r.push('b');
    r.push('/');
    assert(r@ =~= seq!['d', 'b', '/']);
    r.append(name);
    r
}

impl SoftServer {
    #[verifier::type_invariant]
    spec fn sound(&self) -> bool {
        self@.well_formed()
    }

    /// Initialize a new server from the text of its user database. The
    /// server runs `max_threads` sessions at a time: eight where none is
    /// given, and one at least.
    pub fn new(database: &str, max_threads: Option<usize>, allow_anonymous: bool) -> (r: Result<
        SoftServer,
    >)
        ensures
            match parse_users(database@) {
                Some(users) => r matches Ok(server) && server@ == (ServerView {
                    live: Seq::empty(),
                    max_threads: sessions_limit(max_threads),
                    users,
                    allow_anonymous,
                }) && server@.well_formed(),
                None => r matches Err(Error::InvalidUserDB),
            },
    {
        let mut limit = match max_threads {
            Some(n) => n,
            None => DEFAULT_MAX_THREADS,
        };
        if limit < 1 {
            limit = 1;
        }
        let users = match Users::load(database) {
            Ok(users) => users,
            Err(_) => {
                return Err(Error::InvalidUserDB);
            },
        };
        Ok(
            SoftServer {
                connection_handlers: Vec::new(),
                users,
                max_threads: limit,
                allow_anonymous,
            },
        )
    }

    /// Asks for a place for one more session. With room for it, the session
    /// is entered under a number of its own, the smallest that is free, and
    /// the host starts it. `None` means that the server is full: the host
    /// waits, lets `check_connections` see which sessions have ended, and
    /// asks again.
    pub fn new_connection(&mut self) -> (r: Option<u64>)
        ensures
            final(self)@.well_formed(),
            match r {
                Some(id) => old(self)@.has_room() && id == first_free(old(self)@.live)
                    && !old(self)@.live.contains(id) && final(self)@ == (ServerView {
                    live: old(self)@.live.push(id),
                    ..old(self)@
                }),
                None => !old(self)@.has_room() && final(self)@ == old(self)@,
            },
    {
        proof {
            use_type_invariant(&*self);
        }
        if self.connection_handlers.len() >= self.max_threads {
            return None;
        }
        let id = self.free_id();
        let mut live: Vec<u64> = Vec::new();
        core::mem::swap(&mut self.connection_handlers, &mut live);
        live.push(id);
        proof {
            assert forall|i: int, j: int| 0 <= i < j < live@.len() implies live@[i] != live@[j] by {
                if j == live@.len() - 1 {
                    assert(old(self)@.live[i] == live@[i]);
                } else {
                    assert(old(self)@.live[i] == live@[i]);
                    assert(old(self)@.live[j] == live@[j]);
                }
            }
        }
        core::mem::swap(&mut self.connection_handlers, &mut live);
        Some(id)
    }

    /// The smallest number that no session runs under.
    fn free_id(&self) -> (id: u64)
        ensures
            id == first_free(self@.live),
            !self@.live.contains(id),
    {
        let n = self.connection_handlers.len();
        let mut id: u64 = 0;
        loop
            invariant
                n == self@.live.len(),
                first_free(self@.live) == first_free_from(self@.live, id as nat),
                forall|k: u64| k < id ==> #[trigger] self@.live.contains(k),
                id <= n,
            decreases n + 1 - id,
        {
            if !self.runs(id) {
                return id;
            }
            proof {
                assert forall|k: u64| k < id + 1 implies #[trigger] self@.live.contains(k) by {}
                lemma_pigeonhole(self@.live, id + 1);
            }
            id += 1;
        }
    }

    /// Whether a session runs under the number.
    fn runs(&self, id: u64) -> (r: bool)
        ensures
            r == self@.live.contains(id),
    {
        let mut i: usize = 0;
        while i < self.connection_handlers.len()
            invariant
                i <= self.connection_handlers.len(),
                forall|k: int| 0 <= k < i ==> self@.live[k] != id,
            decreases self.connection_handlers.len() - i,
        {
            if self.connection_handlers[i] == id {
                return true;
            }
            i += 1;
        }
        false
    }

    /// Check connections and remove those who are stopped: `finished` holds
    /// the numbers of the sessions that the host found ended. The others
    /// stay, in their order.
    pub fn check_connections(&mut self, finished: &Vec<u64>)
        ensures
            final(self)@.well_formed(),
            final(self)@ == (ServerView {
                live: remaining(old(self)@.live, finished@),
                ..old(self)@
            }),
    {
        proof {
            use_type_invariant(&*self);
        }
        let ghost keep = |id: u64| !finished@.contains(id);
        let ghost before = self@.live;
        let mut live: Vec<u64> = Vec::new();
        let mut i: usize = 0;
        while i < self.connection_handlers.len()
            invariant
                i <= self.connection_handlers.len(),
                self@ == old(self)@,
                before == self@.live,
                distinct(before),
                keep == |id: u64| !finished@.contains(id),
                live@ == before.take(i as int).filter(keep),
                forall|k: int|
                    0 <= k < live@.len() ==> exists|j: int|
                        0 <= j < i && before[j] == #[trigger] live@[k],
                live@.len() <= i,
                distinct(live@),
            decreases self.connection_handlers.len() - i,
        {
            let id = self.connection_handlers[i];
            proof {
                assert(before.take(i + 1).drop_last() == before.take(i as int));
                reveal(Seq::filter);
            }
            if !contains(finished, id) {
                proof {
                    assert forall|a: int, b: int| 0 <= a < b < live@.len() + 1 implies live@.push(
                        id,
                    )[a] != live@.push(id)[b] by {
                        if b == live@.len() {
                            let j = choose|j: int| 0 <= j < i && before[j] == live@[a];
                            assert(before[j] != before[i as int]);
                        }
                    }
                    assert forall|k: int| 0 <= k < live@.len() + 1 implies exists|j: int|
                        0 <= j < i + 1 && before[j] == #[trigger] live@.push(id)[k] by {
                        if k == live@.len() {
                            assert(before[i as int] == id);
                        } else {
                            let j = choose|j: int| 0 <= j < i && before[j] == live@[k];
                            assert(before[j] == live@.push(id)[k]);
                        }
                    }
                }
                live.push(id);
            }
            i += 1;
        }
        assert(before.take(before.len() as int) == before);
        core::mem::swap(&mut self.connection_handlers, &mut live);
    }

    /// The users of the server.
    pub fn get_users(&self) -> (users: &Users)
        ensures
            users@ == self@.users,
    {
        &self.users
    }

    /// Add a new user to the server. A user who is there already keeps the
    /// password that is there.
    pub fn add_user(&mut self, user: &str, pass: &str)
        ensures
            final(self)@.well_formed(),
            final(self)@ == (ServerView {
                users: with_user(old(self)@.users, user@, pass@),
                ..old(self)@
            }),
    {
        proof {
            use_type_invariant(&*self);
        }
        let mut users = Users::new();
        core::mem::swap(&mut self.users, &mut users);
        users.add_user(user, pass);
        core::mem::swap(&mut self.users, &mut users);
    }

    /// Receive file from client: see `recv_file` of the framing.
    pub fn recv_file(&self, input: &[u8]) -> (r: Option<(Vec<u8>, usize)>)
        ensures
            match parse_blob(input@) {
                Some((data, used)) => r matches Some((v, n)) && v@ == data && n == used,
                None => r is None,
            },
    {
        recv_file(input)
    }

    /// Send file to client: the frame of its bytes.
    pub fn send_file(&self, data: &[u8]) -> (frame: Vec<u8>)
        ensures
            frame@ == blob_frame(data@),
    {
        send_file(data)
    }

    /// Read command sent by client: see `read_command` of the session.
    pub fn read_command(&self, input: &[u8]) -> (r: Option<(Result<Command>, usize)>)
        ensures
            match parse_command(input@) {
                Some((Some(c), used)) => r matches Some((Ok(command), n)) && command@ == c && n
                    == used,
                Some((None, used)) => r matches Some((Err(Error::InvalidCommand(line)), n)) && n
                    == used && Some((line@, used)) == parse_line(input@),
                None => r is None,
            },
    {
        read_command(input)
    }

    /// The numbers of the sessions that run, in the order in which they
    /// were admitted.
    pub fn connection_handlers(&self) -> (live: &Vec<u64>)
        ensures
            live@ == self@.live,
            self@.well_formed(),
    {
        proof {
            use_type_invariant(self);
        }
        &self.connection_handlers
    }

    /// The largest number of sessions at a time.
    pub fn max_threads(&self) -> (n: usize)
        ensures
            n == self@.max_threads,
    {
        self.max_threads
    }

    /// Whether the server is open for users without a name.
    pub fn allow_anonymous(&self) -> (r: bool)
        ensures
            r == self@.allow_anonymous,
    {
        self.allow_anonymous
    }
}

/// Whether the number is among the numbers.
fn contains(ids: &Vec<u64>, id: u64) -> (r: bool)
    ensures
        r == ids@.contains(id),
{
    let mut i: usize = 0;
    while i < ids.len()
        invariant
            i <= ids.len(),
            forall|k: int| 0 <= k < i ==> ids@[k] != id,
        decreases ids.len() - i,
    {
        if ids[i] == id {
            return true;
        }
        i += 1;
    }
    false
}

} // verus!
