//! The client's side of the protocol: the bytes of each request, and what
//! the bytes of an answer mean.
//!
//! The client touches no network. Each request comes out as the bytes to
//! send, and each answer is read from the bytes that have arrived.

use crate::common::{
    blob_frame, is_line, lemma_blob_round_trip, lemma_line_round_trip, lemma_list_round_trip,
    line_frame, list_frame, parse_blob, parse_line, parse_list, read_line, recv_file,
    recv_list_file, send_file, write_line,
};
use crate::error::{Error, Result};
use crate::order::{sort_strings, sorted};
use crate::text::chars_of;
use crate::types::{byte_to_status, encode, status_to_byte, Command, CommandView, Status};
use vstd::prelude::*;

verus! {

/// The bytes of a request: the line of the command, with its newline.
pub open spec fn request(command: CommandView) -> Seq<u8> {
    line_frame(encode(command))
}

/// What follows the status byte in the answer to a command.
#[derive(Clone, Copy, Debug, PartialEq, Eq, Structural)]
pub enum Expect {
    /// Nothing.
    Status,
    /// The frame of a file.
    File,
    /// The frame of a listing.
    List,
    /// One line of text.
    Line,
}

/// What follows the status byte in the answer to the given command.
pub open spec fn expected(command: CommandView) -> Expect {
    match command {
        CommandView::Get(_) => Expect::File,
        CommandView::List(_) => Expect::List,
        CommandView::Cwd => Expect::Line,
        _ => Expect::Status,
    }
}

/// The error that a status means to the client: a refused login, and a
/// command that came before a login. Every other status is no error.
pub open spec fn status_error(status: Status) -> Option<Error> {
    match status {
        Status::WrongLogin => Some(Error::InvalidLogin),
        Status::NotConnected => Some(Error::NotConnected),
        _ => None,
    }
}

/// What a complete answer holds.
#[derive(Clone, Debug, PartialEq, Eq)]
pub enum Reply {
    /// The status alone.
    Done,
    /// The bytes of a file.
    File(Vec<u8>),
    /// The entries of a listing.
    List(Vec<String>),
    /// A line of text.
    Line(String),
}

/// An answer as a mathematical value.
pub enum ReplyView {
    Done,
    File(Seq<u8>),
    List(Seq<Seq<char>>),
    Line(Seq<char>),
}

impl View for Reply {
    type V = ReplyView;

    open spec fn view(&self) -> ReplyView {
        match *self {
            Reply::Done => ReplyView::Done,
            Reply::File(data) => ReplyView::File(data@),
            Reply::List(list) => ReplyView::List(list.deep_view()),
            Reply::Line(line) => ReplyView::Line(line@),
        }
    }
}

/// The outcome of an answer: what it holds, or the error its status means.
pub enum Outcome {
    Answer(ReplyView),
    Refused(Error),
}

/// The answer at the head of the input and the number of bytes it took:
/// the status byte, and behind a status that means no error what `expect`
/// names. `None` while the answer is not complete.
pub open spec fn parse_reply(expect: Expect, input: Seq<u8>) -> Option<(Outcome, nat)> {
    if input.len() == 0 {
        None
    } else {
        match status_error(byte_to_status(input[0])) {
            Some(e) => Some((Outcome::Refused(e), 1)),
            None => match expect {
                Expect::Status => Some((Outcome::Answer(ReplyView::Done), 1)),
                Expect::File => match parse_blob(input.skip(1)) {
                    Some((data, used)) => Some((Outcome::Answer(ReplyView::File(data)), 1 + used)),
                    None => None,
                },
                Expect::List => match parse_list(input.skip(1)) {
                    Some((list, used)) => Some((Outcome::Answer(ReplyView::List(list)), 1 + used)),
                    None => None,
                },
                Expect::Line => match parse_line(input.skip(1)) {
                    Some((line, used)) => Some((Outcome::Answer(ReplyView::Line(line)), 1 + used)),
                    None => None,
                },
            },
        }
    }
}

/// A file that the server sends behind a status that is no error is what
/// the client receives, whatever follows it on the wire.
pub proof fn lemma_file_answer(status: Status, data: Seq<u8>, rest: Seq<u8>)
    requires
        status_error(status) is None,
        data.len() <= u64::MAX,
    ensures
        parse_reply(Expect::File, seq![status_to_byte(status)] + blob_frame(data) + rest) == Some(
            (Outcome::Answer(ReplyView::File(data)), 1 + blob_frame(data).len()),
        ),
{
    let input = seq![status_to_byte(status)] + blob_frame(data) + rest;
    crate::types::lemma_status_round_trip(status);
    assert(input[0] == status_to_byte(status));
    assert(input.skip(1) == blob_frame(data) + rest);
    lemma_blob_round_trip(data, rest);
}

/// A listing that the server sends behind a status that is no error is
/// what the client receives, provided that each of its names is ASCII and
/// holds no newline.
pub proof fn lemma_list_answer(status: Status, list: Seq<Seq<char>>, rest: Seq<u8>)
    requires
        status_error(status) is None,
        list.len() <= u64::MAX,
        forall|i: int| 0 <= i < list.len() ==> is_line(#[trigger] list[i]),
    ensures
        parse_reply(Expect::List, seq![status_to_byte(status)] + list_frame(list) + rest) == Some(
            (Outcome::Answer(ReplyView::List(list)), 1 + list_frame(list).len()),
        ),
{
    let input = seq![status_to_byte(status)] + list_frame(list) + rest;
    crate::types::lemma_status_round_trip(status);
    assert(input[0] == status_to_byte(status));
    assert(input.skip(1) == list_frame(list) + rest);
    lemma_list_round_trip(list, rest);
}

/// A line that the server sends behind a status that is no error is what
/// the client receives, provided that it is ASCII and holds no newline.
pub proof fn lemma_line_answer(status: Status, line: Seq<char>, rest: Seq<u8>)
    requires
        status_error(status) is None,
        is_line(line),
    ensures
        parse_reply(Expect::Line, seq![status_to_byte(status)] + line_frame(line) + rest) == Some(
            (Outcome::Answer(ReplyView::Line(line)), 1 + line_frame(line).len()),
        ),
{
    let input = seq![status_to_byte(status)] + line_frame(line) + rest;
    crate::types::lemma_status_round_trip(status);
    assert(input[0] == status_to_byte(status));
    assert(input.skip(1) == line_frame(line) + rest);
    lemma_line_round_trip(line, rest);
}

/// Whether a name in a listing is that of a directory: it ends in a slash.
pub open spec fn is_dir_name(name: Seq<char>) -> bool {
    name.len() > 0 && name.last() == '/'
}

/// The names of directories in a listing, in their order.
pub open spec fn dirs_of(listing: Seq<Seq<char>>) -> Seq<Seq<char>> {
    listing.filter(|name: Seq<char>| is_dir_name(name))
}

/// Soft client: it remembers only whether it has said goodbye.
#[derive(Debug)]
pub struct SoftClient {
    exited: bool,
}

impl SoftClient {
    /// Whether the client has said goodbye.
    pub closed spec fn has_exited(&self) -> bool {
        self.exited
    }

    /// Initialize a new client.
    pub fn new() -> (client: SoftClient)
        ensures
            !client.has_exited(),
    {
        SoftClient { exited: false }
    }

    /// Whether the client has said goodbye. A host that lets go of a
    /// client that has not, sends `exit` first.
    pub fn exited(&self) -> (r: bool)
        ensures
            r == self.has_exited(),
    {
        self.exited
    }

    /// Login to soft server: the request.
    pub fn login(&self, user: &str, pass: &str) -> (bytes: Vec<u8>)
        ensures
            bytes@ == request(CommandView::Login(user@, pass@)),
    {
        self.write_command(&Command::Login(String::from_str(user), String::from_str(pass)))
    }

    /// Ask for a file from soft server: the request. The answer holds the
    /// file.
    pub fn get(&self, path: &str) -> (bytes: Vec<u8>)
        ensures
            bytes@ == request(CommandView::Get(path@)),
    {
        self.write_command(&Command::Get(String::from_str(path)))
    }

    /// Ask to put a file to soft server: the request. Once the answer has
    /// come without an error, the frame of the file follows: see
    /// `send_file`.
    pub fn put(&self, remote_path: &str) -> (bytes: Vec<u8>)
        ensures
            bytes@ == request(CommandView::Put(remote_path@)),
    {
        self.write_command(&Command::Put(String::from_str(remote_path)))
    }

    /// Ask for the list of a directory from soft server: the request. The
    /// answer holds the listing.
    pub fn list(&self, path: &str) -> (bytes: Vec<u8>)
        ensures
            bytes@ == request(CommandView::List(path@)),
    {
        self.write_command(&Command::List(String::from_str(path)))
    }

    /// Ask and list files recursively from soft server: the first request,
    /// and the walk that takes the answers. See `ListWalk::feed`.
    pub fn list_recursive(&self, path: &str) -> (r: (ListWalk, Vec<u8>))
        ensures
            r.0@ == (WalkView { pending: Seq::empty(), found: Seq::empty() }),
            r.1@ == request(CommandView::List(path@)),
    {
        let walk = ListWalk { pending: Vec::new(), found: Vec::new() };
        assert(walk@.pending =~= Seq::empty() && walk@.found =~= Seq::empty());
        (walk, self.list(path))
    }

    /// Ask for the current working directory: the request. The answer
    /// holds it as a line.
    pub fn cwd(&self) -> (bytes: Vec<u8>)
        ensures
            bytes@ == request(CommandView::Cwd),
    {
        self.write_command(&Command::Cwd)
    }

    /// Change directory: the request.
    pub fn cd(&self, path: &str) -> (bytes: Vec<u8>)
        ensures
            bytes@ == request(CommandView::Cd(path@)),
    {
        self.write_command(&Command::Cd(String::from_str(path)))
    }

    /// Make directory: the request.
    pub fn mkdir(&self, path: &str) -> (bytes: Vec<u8>)
        ensures
            bytes@ == request(CommandView::Mkdir(path@)),
    {
        self.write_command(&Command::Mkdir(String::from_str(path)))
    }

    /// Remove a file: the request.
    pub fn rm(&self, path: &str) -> (bytes: Vec<u8>)
        ensures
            bytes@ == request(CommandView::Rm(path@)),
    {
        self.write_command(&Command::Rm(String::from_str(path)))
    }

    /// Remove a directory: the request.
    pub fn rmdir(&self, path: &str, recursive: bool) -> (bytes: Vec<u8>)
        ensures
            bytes@ == request(CommandView::Rmdir(path@, recursive)),
    {
        self.write_command(&Command::Rmdir(String::from_str(path), recursive))
    }

    /// Check presence of server: the request.
    pub fn presence(&self) -> (bytes: Vec<u8>)
        ensures
            bytes@ == request(CommandView::Presence),
    {
        self.write_command(&Command::Presence)
    }

    /// Say goodbye to the server: the request. From now on the client
    /// counts as gone.
    pub fn exit(&mut self) -> (bytes: Vec<u8>)
        ensures
            bytes@ == request(CommandView::Exit),
            final(self).has_exited(),
    {
        self.exited = true;
        self.write_command(&Command::Exit)
    }

    /// Check a status that was sent: a refused login and a command before
    /// a login are errors, and nothing else is.
    pub fn check_status(&self, status: Status) -> (r: Result<()>)
        ensures
            match status_error(status) {
                Some(e) => r == Err::<(), Error>(e),
                None => r is Ok,
            },
    {
        if status.is_negative() {
            match status {
                Status::WrongLogin => {
                    return Err(Error::InvalidLogin);
                },
                Status::NotConnected => {
                    return Err(Error::NotConnected);
                },
                _ => {},
            }
        }
        Ok(())
    }

    // Low level functions

    /// The bytes of a command for the server.
    ///
    /// Warning: this is a low level function
    pub fn write_command(&self, command: &Command) -> (bytes: Vec<u8>)
        ensures
            bytes@ == request(command@),
    {
        write_line(command.to_string().as_str())
    }

    /// Receive status from server: the first byte of the input, if there
    /// is one.
    ///
    /// Warning: this is a low level function
    pub fn read_status(&self, input: &[u8]) -> (r: Option<Status>)
        ensures
            match r {
                Some(status) => input@.len() > 0 && status == byte_to_status(input@[0]),
                None => input@.len() == 0,
            },
    {
        if input.len() == 0 {
            None
        } else {
            Some(Status::from(input[0]))
        }
    }

    /// Receive file from soft server: see `recv_file` of the framing.
    ///
    /// Warning: this is a low level function
    pub fn recv_file(&self, input: &[u8]) -> (r: Option<(Vec<u8>, usize)>)
        ensures
            match parse_blob(input@) {
                Some((data, used)) => r matches Some((v, n)) && v@ == data && n == used,
                None => r is None,
            },
    {
        recv_file(input)
    }

    /// Receive list of file from soft server: see `recv_list_file` of the
    /// framing.
    ///
    /// Warning: this is a low level function
    pub fn recv_list_file(&self, input: &[u8]) -> (r: Option<(Vec<String>, usize)>)
        ensures
            match parse_list(input@) {
                Some((lines, used)) => r matches Some((v, n)) && v.deep_view() == lines && n
                    == used,
                None => r is None,
            },
    {
        recv_list_file(input)
    }

    /// Send file to soft server: the frame of its bytes.
    ///
    /// Warning: this is a low level function
    pub fn send_file(&self, data: &[u8]) -> (frame: Vec<u8>)
        ensures
            frame@ == blob_frame(data@),
    {
        send_file(data)
    }

    /// Read a single line: see `read_line` of the framing.
    pub fn read_line(&self, input: &[u8]) -> (r: Option<(String, usize)>)
        ensures
            match parse_line(input@) {
                Some((text, used)) => r matches Some((s, n)) && s@ == text && n == used,
                None => r is None,
            },
    {
        read_line(input)
    }

    /// Reads the answer to a command from the head of the input: the
    /// status, and what follows it. `None` while the answer is not
    /// complete: more bytes have to arrive first. An answer comes with the
    /// number of bytes that it took.
    pub fn read_reply(&self, expect: Expect, input: &[u8]) -> (r: Option<(Result<Reply>, usize)>)
        ensures
            match parse_reply(expect, input@) {
                Some((Outcome::Answer(reply), used)) => r matches Some((Ok(v), n)) && v@ == reply
                    && n == used,
                Some((Outcome::Refused(e), used)) => r matches Some((Err(v), n)) && v == e && n
                    == used,
                None => r is None,
            },
    {
        let status = match self.read_status(input) {
            Some(status) => status,
            None => {
                return None;
            },
        };
        match self.check_status(status) {
            Err(e) => {
                return Some((Err(e), 1));
            },
            Ok(_) => {},
        }
        let rest = vstd::slice::slice_subrange(input, 1, input.len());
        assert(rest@ == input@.skip(1));
        match expect {
            Expect::Status => Some((Ok(Reply::Done), 1)),
            Expect::File => match recv_file(rest) {
                Some((data, used)) => Some((Ok(Reply::File(data)), 1 + used)),
                None => None,
            },
            Expect::List => match recv_list_file(rest) {
                Some((list, used)) => Some((Ok(Reply::List(list)), 1 + used)),
                None => None,
            },
            Expect::Line => match read_line(rest) {
                Some((line, used)) => Some((Ok(Reply::Line(line)), 1 + used)),
                None => None,
            },
        }
    }
}

/// What follows the status byte in the answer to the given command.
pub fn expects(command: &Command) -> (r: Expect)
    ensures
        r == expected(command@),
{
    match command {
        Command::Get(_) => Expect::File,
        Command::List(_) => Expect::List,
        Command::Cwd => Expect::Line,
        _ => Expect::Status,
    }
}

/// A recursive listing under way: the directories that are still to be
/// listed, and the names found so far.
#[derive(Debug)]
pub struct ListWalk {
    pending: Vec<String>,
    found: Vec<String>,
}

/// A recursive listing under way, as a mathematical value.
pub struct WalkView {
    /// The directories that are still to be listed; the last comes next.
    pub pending: Seq<Seq<char>>,
    /// The names found so far, in the order in which they came.
    pub found: Seq<Seq<char>>,
}

impl View for ListWalk {
    type V = WalkView;

    closed spec fn view(&self) -> WalkView {
        WalkView { pending: self.pending.deep_view(), found: self.found.deep_view() }
    }
}

/// How a recursive listing goes on after an answer.
#[derive(Debug)]
pub enum WalkStep {
    /// The next request, and the walk that takes its answer.
    More(ListWalk, Vec<u8>),
    /// All the names that were found, in the order of the dictionary.
    Done(Vec<String>),
}

impl ListWalk {
    /// Takes the listing that answered the last request. Its names are
    /// kept, and its directories are listed next, the first of them first
    /// and each with all below it before the one behind it. When no
    /// directory is left, the names come back sorted.
    pub fn feed(self, listing: Vec<String>) -> (step: WalkStep)
        ensures
            ({
                let found = self@.found + listing.deep_view();
                let pending = self@.pending + dirs_of(listing.deep_view()).reverse();
                match step {
                    WalkStep::More(walk, bytes) => pending.len() > 0 && walk@ == (WalkView {
                        pending: pending.drop_last(),
                        found,
                    }) && bytes@ == request(CommandView::List(pending.last())),
                    WalkStep::Done(list) => pending.len() == 0 && sorted(list.deep_view())
                        && list.deep_view().to_multiset() == found.to_multiset(),
                }
            }),
    {
        let ghost old_found = self@.found;
        let ghost old_pending = self@.pending;
        let ghost names = listing.deep_view();
        let ListWalk { mut pending, mut found } = self;
        let mut i: usize = 0;
        assert(names.take(0) =~= Seq::<Seq<char>>::empty());
        assert(found.deep_view() =~= old_found + names.take(0));
        while i < listing.len()
            invariant
                i <= listing.len(),
                names == listing.deep_view(),
                found.deep_view() == old_found + names.take(i as int),
            decreases listing.len() - i,
        {
            let ghost before = found.deep_view();
            found.push(listing[i].clone());
            assert(found.deep_view() =~= before.push(names[i as int]));
            assert(names.take(i + 1) =~= names.take(i as int).push(names[i as int]));
            i += 1;
        }
        assert(names.take(listing.len() as int) == names);
        let ghost is_dir = |name: Seq<char>| is_dir_name(name);
        let mut k: usize = listing.len();
        assert(names.skip(k as int) =~= Seq::<Seq<char>>::empty());
        assert(pending.deep_view() =~= old_pending + names.skip(k as int).filter(is_dir).reverse());
        while k > 0
            invariant
                k <= listing.len(),
                names == listing.deep_view(),
                is_dir == |name: Seq<char>| is_dir_name(name),
                pending.deep_view() == old_pending + names.skip(k as int).filter(is_dir).reverse(),
            decreases k,
        {
            k -= 1;
            let ghost before = pending.deep_view();
            let ghost tail = names.skip(k + 1);
            proof {
                assert(names.skip(k as int) =~= seq![names[k as int]] + tail);
                lemma_filter_front(names[k as int], tail, is_dir);
            }
            if ends_with_slash(listing[k].as_str()) {
                pending.push(listing[k].clone());
                proof {
                    assert(pending.deep_view() =~= before.push(names[k as int]));
                    let kept = tail.filter(is_dir);
                    assert((seq![names[k as int]] + kept).reverse() =~= kept.reverse().push(
                        names[k as int],
                    ));
                }
            }
        }
        assert(names.skip(0) == names);
        match pending.pop() {
            Some(next) => {
                let ghost all = old_pending + dirs_of(names).reverse();
                assert(pending.deep_view() =~= all.drop_last());
                let bytes = write_line(Command::List(next).to_string().as_str());
                WalkStep::More(ListWalk { pending, found }, bytes)
            },
            None => WalkStep::Done(sort_strings(found)),
        }
    }

    /// The number of names found so far.
    pub fn found(&self) -> (n: usize)
        ensures
            n == self@.found.len(),
    {
        assert(self.found.deep_view().len() == self.found@.len());
        self.found.len()
    }
}

/// The directories of a listing are the first name, if it is one, and the
/// directories among the rest.
proof fn lemma_filter_front(
    first: Seq<char>,
    rest: Seq<Seq<char>>,
    pred: spec_fn(Seq<char>) -> bool,
)
    ensures
        (seq![first] + rest).filter(pred) == if pred(first) {
            seq![first] + rest.filter(pred)
        } else {
            rest.filter(pred)
        },
{
    Seq::filter_distributes_over_add(seq![first], rest, pred);
    reveal_with_fuel(Seq::filter, 2);
    assert(seq![first].drop_last() =~= Seq::<Seq<char>>::empty());
    assert(seq![first].filter(pred) =~= if pred(first) {
        seq![first]
    } else {
        Seq::empty()
    });
    assert(Seq::<Seq<char>>::empty() + rest.filter(pred) =~= rest.filter(pred));
}

/// Whether the text ends in a slash.
fn ends_with_slash(name: &str) -> (r: bool)
    ensures
        r == is_dir_name(name@),
{
    let chars = chars_of(name);
    chars.len() > 0 && chars[chars.len() - 1] == '/'
}

} // verus!
