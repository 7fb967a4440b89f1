//! One session of the server: what a command does to the session and what
//! the host has to do for it.
//!
//! The session touches neither the network nor the file system. For each
//! command it hands out an `Action`; the host carries it out.

use crate::common::{
    all_names, beautify, beautify_chars, beautify_path, blob_frame, canonical, canonical_chars,
    is_dot_dot, is_line, is_name, join_segments, lemma_canonical, lemma_dot_segments,
    lemma_line_round_trip,
    lemma_resolve_dots_append, line_frame, list_frame, parse_blob, parse_line, read_line,
    recv_file, resolve_dots, segments, send_file, send_list_file,
};
use crate::error::{Error, Result};
use crate::server::users::{password_of, Users};
use crate::text::{
    chars_of, lemma_pieces_are_pieces, lemma_pieces_concat, lemma_pieces_single, pieces, string_of,
    Separator,
};
use crate::types::{decode, encode, status_to_byte, Command, CommandView, Status};
use vstd::prelude::*;

verus! {

/// What the host found at a path of the file system.
#[derive(Clone, Copy, Debug, PartialEq, Eq, Structural)]
pub enum PathKind {
    /// Nothing is there.
    Missing,
    /// Something that is no directory.
    File,
    /// A directory.
    Directory,
}

/// A child of a directory, as the host found it.
#[derive(Clone, Debug, PartialEq, Eq)]
pub struct Entry {
    /// The name of the child, without the path that leads to it.
    pub name: String,
    /// Whether the child is itself a directory.
    pub is_dir: bool,
}

/// What the host has to do for a command. Every action starts with one
/// status byte on the wire, or ends with it: `status` tells which byte, and
/// `answers_first` whether it comes first.
#[derive(Clone, Debug, PartialEq, Eq)]
pub enum Action {
    /// Write the status.
    Reply(Status),
    /// Write `Connected`, then find the private directory of the user and
    /// hand it to `bind_root`.
    Bind(String),
    /// Write `Okay`, then the frame of the file at the path.
    SendFile(String),
    /// Write `Okay`, then receive a file and keep it at the path, in place
    /// of whatever was there.
    StoreFile(String),
    /// Write `Okay`, then the frame of the listing.
    SendList(Vec<String>),
    /// Write `Okay`, then read the children of the directory at `path`, name
    /// them with `list_files` under `server_path`, and write the frame of
    /// that listing.
    ListDir { path: String, server_path: String },
    /// Write `Okay`, then the line.
    SendLine(String),
    /// Make the directory at the path, with the directories that lead to
    /// it, then write `Okay`.
    MakeDir(String),
    /// Delete the file at the path, then write `Okay`.
    RemoveFile(String),
    /// Delete the directory at the path, then write `Okay`. With `true` the
    /// directory goes with all that it holds; with `false` only an empty
    /// directory goes.
    RemoveDir(String, bool),
    /// Write `Disconnected` and end the session.
    Close,
}

/// An action as a mathematical value.
pub enum ActionView {
    Reply(Status),
    Bind(Seq<char>),
    SendFile(Seq<char>),
    StoreFile(Seq<char>),
    SendList(Seq<Seq<char>>),
    ListDir { path: Seq<char>, server_path: Seq<char> },
    SendLine(Seq<char>),
    MakeDir(Seq<char>),
    RemoveFile(Seq<char>),
    RemoveDir(Seq<char>, bool),
    Close,
}

impl View for Action {
    type V = ActionView;

    open spec fn view(&self) -> ActionView {
        match *self {
            Action::Reply(s) => ActionView::Reply(s),
            Action::Bind(u) => ActionView::Bind(u@),
            Action::SendFile(p) => ActionView::SendFile(p@),
            Action::StoreFile(p) => ActionView::StoreFile(p@),
            Action::SendList(l) => ActionView::SendList(l.deep_view()),
            Action::ListDir { path, server_path } => ActionView::ListDir {
                path: path@,
                server_path: server_path@,
            },
            Action::SendLine(l) => ActionView::SendLine(l@),
            Action::MakeDir(p) => ActionView::MakeDir(p@),
            Action::RemoveFile(p) => ActionView::RemoveFile(p@),
            Action::RemoveDir(p, r) => ActionView::RemoveDir(p@, r),
            Action::Close => ActionView::Close,
        }
    }
}

impl ActionView {
    /// The status byte that belongs to the action.
    pub open spec fn status(self) -> Status {
        match self {
            ActionView::Reply(s) => s,
            ActionView::Bind(_) => Status::Connected,
            ActionView::Close => Status::Disconnected,
            _ => Status::Okay,
        }
    }

    /// Whether the status byte is written before the rest of the action is
    /// done. Where it is not, it is written afterwards: what fails before
    /// then is never answered.
    pub open spec fn answers_first(self) -> bool {
        !(self is MakeDir || self is RemoveFile || self is RemoveDir)
    }

    /// Whether the host reads or changes the file system for the action.
    pub open spec fn touches_files(self) -> bool {
        !(self is Reply || self is SendList || self is SendLine || self is Close)
    }
}

impl Action {
    /// The status byte that belongs to the action.
    pub fn status(&self) -> (s: Status)
        ensures
            s == self@.status(),
    {
        match self {
            Action::Reply(s) => *s,
            Action::Bind(_) => Status::Connected,
            Action::Close => Status::Disconnected,
            _ => Status::Okay,
        }
    }

    /// Whether the status byte is written before the rest of the action is
    /// done, and not after it.
    pub fn answers_first(&self) -> (r: bool)
        ensures
            r == self@.answers_first(),
    {
        match self {
            Action::MakeDir(_) | Action::RemoveFile(_) | Action::RemoveDir(_, _) => false,
            _ => true,
        }
    }
}

/// A session as a mathematical value.
pub struct SessionView {
    /// The directory the user is confined to; `None` before a login.
    pub root: Option<Seq<char>>,
    /// The working directory, as a path below the root.
    pub cwd: Seq<char>,
}

/// The path below the root that a path of the client stands for. The path
/// is joined to the root, through the working directory unless it starts
/// with a slash, and brought into canonical form. Where the result starts
/// with the text of the root, what follows that text is the answer; where it
/// does not, the answer is `/`.
pub open spec fn resolve(root: Seq<char>, cwd: Seq<char>, path: Seq<char>) -> Seq<char> {
    let base = beautify(root);
    let full = if path.len() > 0 && path[0] == '/' {
        base + seq!['/'] + path
    } else {
        base + seq!['/'] + beautify(cwd) + seq!['/'] + path
    };
    let found = canonical(full);
    if base.is_prefix_of(found) {
        found.skip(base.len() as int)
    } else {
        seq!['/']
    }
}

/// The path in the file system of a path below the root.
pub open spec fn root_path(root: Seq<char>, server_path: Seq<char>) -> Seq<char> {
    root + seq!['/'] + server_path
}

/// The place in the file system that a path of the client stands for.
pub open spec fn place(root: Seq<char>, cwd: Seq<char>, path: Seq<char>) -> Seq<char> {
    root_path(root, resolve(root, cwd, path))
}

/// The directory, below the data directory of the application, that is the
/// root of a user.
pub open spec fn user_dir_of(user: Seq<char>) -> Seq<char> {
    seq!['u', 's', 'e', 'r', 's', '/'] + user
}

/// The children of a directory as texts.
pub open spec fn entries_view(entries: Seq<Entry>) -> Seq<(Seq<char>, bool)> {
    Seq::new(entries.len(), |i: int| (entries[i].name@, entries[i].is_dir))
}

/// The name under which a child of the directory `server_path` is listed:
/// the tidy path of the directory, a slash and the name of the child, and
/// one more slash behind a directory.
pub open spec fn listed_name(server_path: Seq<char>, entry: (Seq<char>, bool)) -> Seq<char> {
    let plain = beautify(server_path) + seq!['/'] + entry.0;
    if entry.1 {
        plain.push('/')
    } else {
        plain
    }
}

/// The listing of the directory `server_path` with the given children, in
/// the order of the children.
pub open spec fn listing(server_path: Seq<char>, entries: Seq<(Seq<char>, bool)>) -> Seq<
    Seq<char>,
> {
    Seq::new(entries.len(), |i: int| listed_name(server_path, entries[i]))
}

/// The path whose kind decides what a command does: that of `List`, `Rm`
/// and `Rmdir` in a session that is logged in.
pub open spec fn probed(session: SessionView, command: CommandView) -> Option<Seq<char>> {
    match session.root {
        None => None,
        Some(root) => match command {
            CommandView::List(p) => Some(place(root, session.cwd, p)),
            CommandView::Rm(p) => Some(place(root, session.cwd, p)),
            CommandView::Rmdir(p, _) => Some(place(root, session.cwd, p)),
            _ => None,
        },
    }
}

/// The command at the head of the input and the number of bytes its line
/// took: `None` while the input holds no complete line. The command itself
/// is `None` where the line spells none.
pub open spec fn parse_command(input: Seq<u8>) -> Option<(Option<CommandView>, nat)> {
    match parse_line(input) {
        Some((line, used)) => Some((decode(line), used)),
        None => None,
    }
}

/// What a command does: the session afterwards, and the action. `kind` is
/// what the host found at the path `probed`; for a command that probes no
/// path it decides nothing.
///
/// `Login`, `Presence` and `Exit` are served in every session, the other
/// commands only after a login. No command but `Cd` changes the session.
pub open spec fn step(
    session: SessionView,
    command: CommandView,
    users: Seq<(Seq<char>, Seq<char>)>,
    kind: PathKind,
) -> (SessionView, ActionView) {
    let cwd = session.cwd;
    match (command, session.root) {
        (CommandView::Login(u, p), _) => if password_of(users, u) == Some(p) {
            (session, ActionView::Bind(u))
        } else {
            (session, ActionView::Reply(Status::WrongLogin))
        },
        (CommandView::Presence, _) => (session, ActionView::Reply(Status::Okay)),
        (CommandView::Exit, _) => (session, ActionView::Close),
        (_, None) => (session, ActionView::Reply(Status::NotConnected)),
        (CommandView::Get(p), Some(root)) => (session, ActionView::SendFile(place(root, cwd, p))),
        (CommandView::Put(p), Some(root)) => (session, ActionView::StoreFile(place(root, cwd, p))),
        (CommandView::List(p), Some(root)) => if kind == PathKind::Directory {
            (
                session,
                ActionView::ListDir {
                    path: place(root, cwd, p),
                    server_path: resolve(root, cwd, p),
                },
            )
        } else {
            (session, ActionView::SendList(seq![beautify(resolve(root, cwd, p))]))
        },
        (CommandView::Cwd, Some(_)) => (session, ActionView::SendLine(cwd)),
        (CommandView::Cd(p), Some(root)) => (
            SessionView { root: session.root, cwd: resolve(root, cwd, p) },
            ActionView::Reply(Status::Okay),
        ),
        (CommandView::Mkdir(p), Some(root)) => (session, ActionView::MakeDir(place(root, cwd, p))),
        (CommandView::Rm(p), Some(root)) => match kind {
            PathKind::Missing => (session, ActionView::Reply(Status::PathUnknown)),
            PathKind::Directory => (session, ActionView::Reply(Status::NotFile)),
            PathKind::File => (session, ActionView::RemoveFile(place(root, cwd, p))),
        },
        (CommandView::Rmdir(p, recursive), Some(root)) => match kind {
            PathKind::Missing => (session, ActionView::Reply(Status::PathUnknown)),
            PathKind::File => (session, ActionView::Reply(Status::NotDir)),
            PathKind::Directory => (
                session,
                ActionView::RemoveDir(place(root, cwd, p), recursive),
            ),
        },
    }
}

/// The state of one connection: the root of the user once logged in, and
/// the working directory below it.
#[derive(Debug)]
pub struct SoftConnection {
    root: Option<String>,
    cwd: String,
    allow_anonymous: bool,
}

impl View for SoftConnection {
    type V = SessionView;

    closed spec fn view(&self) -> SessionView {
        SessionView {
            root: match self.root {
                Some(r) => Some(r@),
                None => None,
            },
            cwd: self.cwd@,
        }
    }
}

/// Reads a command from the head of the input: one line, and the command
/// that it spells, with the number of bytes that the line took. `None`
/// while the line is not complete. A line that spells no command comes back
/// as an error.
pub fn read_command(input: &[u8]) -> (r: Option<(Result<Command>, usize)>)
    ensures
        match parse_command(input@) {
            Some((Some(c), used)) => r matches Some((Ok(command), n)) && command@ == c && n
                == used,
            Some((None, used)) => r matches Some((Err(Error::InvalidCommand(line)), n)) && n
                == used && Some((line@, used)) == parse_line(input@),
            None => r is None,
        },
{
    match read_line(input) {
        Some((line, used)) => Some((Command::try_from(line.as_str()), used)),
        None => None,
    }
}

/// `to_server_path` on plain texts.
pub fn resolve_path(root: &str, cwd: &str, path: &str) -> (r: String)
    ensures
        r@ == resolve(root@, cwd@, path@),
{
    let base = beautify_chars(chars_of(root).as_slice());
    let p = chars_of(path);
    let mut full: Vec<char> = Vec::new();
    append_chars(&mut full, base.as_slice());
    full.push('/');
    if !(p.len() > 0 && p[0] == '/') {
        let tidy = beautify_chars(chars_of(cwd).as_slice());
        append_chars(&mut full, tidy.as_slice());
        full.push('/');
        append_chars(&mut full, p.as_slice());
        assert(full@ =~= base@ + seq!['/'] + beautify(cwd@) + seq!['/'] + path@);
    } else {
        append_chars(&mut full, p.as_slice());
        assert(full@ =~= base@ + seq!['/'] + path@);
    }
    let found = chars_of(canonical_chars(full.as_slice()).as_str());
    if starts_with(found.as_slice(), base.as_slice()) {
        let rest = vstd::slice::slice_subrange(found.as_slice(), base.len(), found.len());
        assert(rest@ == found@.skip(base.len() as int));
        string_of(rest)
    } else {
        let mut r = String::new();
        r.push('/');
        assert(r@ =~= seq!['/']);
        r
    }
}

/// Appends the characters of `src` to `out`.
fn append_chars(out: &mut Vec<char>, src: &[char])
    ensures
        final(out)@ == old(out)@ + src@,
{
    let mut i: usize = 0;
    while i < src.len()
        invariant
            i <= src.len(),
            out@ == old(out)@ + src@.take(i as int),
        decreases src.len() - i,
    {
        out.push(src[i]);
        i += 1;
    }
    assert(src@.take(src.len() as int) == src@);
}

/// Whether `text` starts with `prefix`.
fn starts_with(text: &[char], prefix: &[char]) -> (r: bool)
    ensures
        r == prefix@.is_prefix_of(text@),
{
    if prefix.len() > text.len() {
        return false;
    }
    let mut i: usize = 0;
    while i < prefix.len()
        invariant
            i <= prefix.len() <= text.len(),
            forall|k: int| 0 <= k < i ==> prefix@[k] == text@[k],
        decreases prefix.len() - i,
    {
        if prefix[i] != text[i] {
            assert(prefix@[i as int] != text@.subrange(0, prefix@.len() as int)[i as int]);
            return false;
        }
        i += 1;
    }
    assert(prefix@ =~= text@.subrange(0, prefix@.len() as int));
    true
}

/// The directory, below the data directory of the application, that is the
/// root of a user.
pub fn user_dir(user: &str) -> (r: String)
    ensures
        r@ == user_dir_of(user@),
{
    let mut r = String::new();
    r.push('u');
    r.push('s');
    r.push('e');
    r.push('r');
    r.push('s');
    r.push('/');
    assert(r@ =~= seq!['u', 's', 'e', 'r', 's', '/']);
    r.append(user);
    r
}

impl SoftConnection {
    /// A session that is not logged in.
    pub fn new(allow_anonymous: bool) -> (connection: SoftConnection)
        ensures
            connection@.root is None,
            connection@.cwd == Seq::<char>::empty(),
            connection.allows_anonymous() == allow_anonymous,
    {
        SoftConnection { root: None, cwd: String::new(), allow_anonymous }
    }

    /// Whether the session was opened for users without a name.
    pub closed spec fn allows_anonymous(&self) -> bool {
        self.allow_anonymous
    }

    /// Whether the session was opened for users without a name.
    pub fn allow_anonymous(&self) -> (r: bool)
        ensures
            r == self.allows_anonymous(),
    {
        self.allow_anonymous
    }

    /// Whether a user is logged in.
    pub fn is_connected(&self) -> (r: bool)
        ensures
            r == self@.root is Some,
    {
        self.root.is_some()
    }

    /// The directory the user is confined to, once logged in.
    pub fn root(&self) -> (r: Option<&String>)
        ensures
            match r {
                Some(root) => self@.root == Some(root@),
                None => self@.root is None,
            },
    {
        self.root.as_ref()
    }

    /// The working directory, as a path below the root.
    pub fn cwd(&self) -> (r: &String)
        ensures
            r@ == self@.cwd,
    {
        &self.cwd
    }

    /// Takes the private directory of the user who has just logged in: from
    /// now on the session is confined to it, and works at its top.
    pub fn bind_root(&mut self, root: String)
        ensures
            final(self)@ == (SessionView { root: Some(root@), cwd: seq!['/'] }),
            final(self).allows_anonymous() == old(self).allows_anonymous(),
    {
        let mut cwd = String::new();
        cwd.push('/');
        assert(cwd@ =~= seq!['/']);
        self.root = Some(root);
        self.cwd = cwd;
    }

    /// Return a valid path from server root: the path below the root that
    /// a path of the client stands for.
    pub fn to_server_path(&self, path: &str) -> (r: String)
        requires
            self@.root is Some,
        ensures
            r@ == resolve(self@.root->0, self@.cwd, path@),
    {
        match &self.root {
            Some(root) => resolve_path(root.as_str(), self.cwd.as_str(), path),
            None => vstd::pervasive::unreached(),
        }
    }

    /// Return a valid path from system root: the path in the file system
    /// of a path below the root.
    pub fn to_root_path(&self, server_path: &str) -> (r: String)
        requires
            self@.root is Some,
        ensures
            r@ == root_path(self@.root->0, server_path@),
    {
        match &self.root {
            Some(root) => {
                let mut r = root.clone();
                r.push('/');
                r.append(server_path);
                r
            },
            None => vstd::pervasive::unreached(),
        }
    }

    /// The place in the file system that a path of the client stands for.
    fn place_of(&self, path: &str) -> (r: String)
        requires
            self@.root is Some,
        ensures
            r@ == place(self@.root->0, self@.cwd, path@),
    {
        let server_path = self.to_server_path(path);
        self.to_root_path(server_path.as_str())
    }

    /// List files of a directory: the names of its children as the client
    /// sees them, below `server_path`, in the order in which they are
    /// given.
    pub fn list_files(&self, server_path: &str, entries: &Vec<Entry>) -> (list: Vec<String>)
        ensures
            list.deep_view() == listing(server_path@, entries_view(entries@)),
    {
        let dir = beautify_chars(chars_of(server_path).as_slice());
        let mut list: Vec<String> = Vec::new();
        let mut i: usize = 0;
        let ghost all = listing(server_path@, entries_view(entries@));
        assert(list.deep_view() =~= all.take(0));
        while i < entries.len()
            invariant
                i <= entries.len(),
                dir@ == beautify(server_path@),
                all == listing(server_path@, entries_view(entries@)),
                list.deep_view() == all.take(i as int),
            decreases entries.len() - i,
        {
            let ghost before = list.deep_view();
            let mut name = string_of(dir.as_slice());
            name.push('/');
            name.append(entries[i].name.as_str());
            if entries[i].is_dir {
                name.push('/');
            }
            assert(name@ == all[i as int]);
            list.push(name);
            assert(list.deep_view() =~= before.push(all[i as int]));
            assert(all.take(i + 1) =~= all.take(i as int).push(all[i as int]));
            i += 1;
        }
        assert(all.take(entries.len() as int) == all);
        list
    }

    /// Read command sent by client from the head of the input: one line,
    /// and the command that it spells. `None` while the line is not
    /// complete: more bytes have to arrive first. A line that spells no
    /// command ends the session: it comes back as an error.
    pub fn read_command(&self, input: &[u8]) -> (r: Option<(Result<Command>, usize)>)
        ensures
            match parse_command(input@) {
                Some((Some(c), used)) => r matches Some((Ok(command), n)) && command@ == c && n
                    == used,
                Some((None, used)) => r matches Some((Err(Error::InvalidCommand(line)), n)) && n
                    == used && Some((line@, used)) == parse_line(input@),
                None => r is None,
            },
    {
        read_command(input)
    }

    /// Write status to client: the one byte that stands for it.
    pub fn write_status(&self, status: Status) -> (bytes: Vec<u8>)
        ensures
            bytes@ == seq![status_to_byte(status)],
    {
        let mut bytes: Vec<u8> = Vec::new();
        bytes.push(status.to_byte());
        bytes
    }

    /// Receive file from client: see `recv_file` of the framing.
    pub fn recv_file(&self, input: &[u8]) -> (r: Option<(Vec<u8>, usize)>)
        ensures
            match parse_blob(input@) {
                Some((data, used)) => r matches Some((v, n)) && v@ == data && n == used,
                None => r is None,
            },
    {
        recv_file(input)
    }

    /// Send file to client: the frame of its bytes.
    pub fn send_file(&self, data: &[u8]) -> (frame: Vec<u8>)
        ensures
            frame@ == blob_frame(data@),
    {
        send_file(data)
    }

    /// Send list of file: the frame of the listing.
    pub fn send_list_file(&self, list: &Vec<String>) -> (frame: Vec<u8>)
        ensures
            frame@ == list_frame(list.deep_view()),
    {
        send_list_file(list)
    }

    /// The path that the host has to look at before it hands the command to
    /// `handle`: what it finds there is the `kind` that `handle` asks for.
    /// `None` for a command that needs no such look.
    pub fn probe(&self, command: &Command) -> (r: Option<String>)
        ensures
            match probed(self@, command@) {
                Some(p) => r matches Some(path) && path@ == p,
                None => r is None,
            },
    {
        if self.root.is_none() {
            return None;
        }
        match command {
            Command::List(p) => Some(self.place_of(p.as_str())),
            Command::Rm(p) => Some(self.place_of(p.as_str())),
            Command::Rmdir(p, _) => Some(self.place_of(p.as_str())),
            _ => None,
        }
    }

    /// Decides what a command does. The session changes as the command
    /// asks, and the action says what the host has to do. `kind` is what the
    /// host found at the path that `probe` gave for the command.
    pub fn handle(&mut self, command: Command, users: &Users, kind: PathKind) -> (action: Action)
        ensures
            (final(self)@, action@) == step(old(self)@, command@, users@, kind),
            final(self).allows_anonymous() == old(self).allows_anonymous(),
    {
        let connected = self.root.is_some();
        match command {
            Command::Login(u, p) => {
                if users.is_valid(u.as_str(), p.as_str()) {
                    Action::Bind(u)
                } else {
                    Action::Reply(Status::WrongLogin)
                }
            },
            Command::Presence => Action::Reply(Status::Okay),
            Command::Exit => Action::Close,
            _ if !connected => Action::Reply(Status::NotConnected),
            Command::Get(p) => Action::SendFile(self.place_of(p.as_str())),
            Command::Put(p) => Action::StoreFile(self.place_of(p.as_str())),
            Command::List(p) => {
                let server_path = self.to_server_path(p.as_str());
                match kind {
                    PathKind::Directory => Action::ListDir {
                        path: self.place_of(p.as_str()),
                        server_path,
                    },
                    _ => {
                        let name = beautify_path(server_path.as_str());
                        let mut list: Vec<String> = Vec::new();
                        list.push(name);
                        assert(list.deep_view() =~= seq![name@]);
                        Action::SendList(list)
                    },
                }
            },
            Command::Cwd => Action::SendLine(self.cwd.clone()),
            Command::Cd(p) => {
                let cwd = self.to_server_path(p.as_str());
                self.cwd = cwd;
                Action::Reply(Status::Okay)
            },
            Command::Mkdir(p) => Action::MakeDir(self.place_of(p.as_str())),
            Command::Rm(p) => match kind {
                PathKind::Missing => Action::Reply(Status::PathUnknown),
                PathKind::Directory => Action::Reply(Status::NotFile),
                PathKind::File => Action::RemoveFile(self.place_of(p.as_str())),
            },
            Command::Rmdir(p, recursive) => match kind {
                PathKind::Missing => Action::Reply(Status::PathUnknown),
                PathKind::File => Action::Reply(Status::NotDir),
                PathKind::Directory => Action::RemoveDir(self.place_of(p.as_str()), recursive),
            },
        }
    }
}

/// A command that the client has written is read by the server as it was,
/// whatever follows it on the wire, provided that each of its texts is one
/// token and all of them are ASCII.
pub proof fn lemma_command_round_trip(command: CommandView, rest: Seq<u8>)
    requires
        command.representable(),
        command.ascii(),
    ensures
        parse_command(line_frame(encode(command)) + rest) == Some(
            (Some(command), line_frame(encode(command)).len()),
        ),
{
    let line = encode(command);
    crate::types::lemma_encode_is_line(command);
    assert(is_line(line));
    lemma_line_round_trip(line, rest);
    crate::types::lemma_decode_encode(command);
}

/// Whether a place lies in the directory `root` or below it: the names that
/// lead to the root lead to the place as well.
pub open spec fn within(root: Seq<char>, place: Seq<char>) -> bool {
    resolve_dots(segments(root)).is_prefix_of(resolve_dots(segments(place)))
}

/// Whether a path of the client gets out of the root. The text of the root
/// can end in the middle of a name of the canonical path, and what is left
/// of that name can be `..`: then the place lies one directory above the
/// root, unless the name that follows leads back into it.
pub open spec fn escapes(root: Seq<char>, cwd: Seq<char>, path: Seq<char>) -> bool {
    let kept = resolve_dots(segments(root));
    let left = segments(resolve(root, cwd, path));
    &&& kept.len() > 0
    &&& left.len() > 0
    &&& is_dot_dot(left[0])
    &&& !(left.len() > 1 && left[1] == kept.last())
}

/// Whether each segment but the first is a name.
pub open spec fn tail_names(segs: Seq<Seq<char>>) -> bool {
    forall|i: int| 1 <= i < segs.len() ==> is_name(#[trigger] segs[i])
}

/// What is left of a canonical path when characters are cut off at its
/// front: names, but for the first segment, which may be the rest of a name.
proof fn lemma_suffix_segments(segs: Seq<Seq<char>>, k: int)
    requires
        all_names(segs),
        0 <= k <= join_segments(segs).len(),
    ensures
        tail_names(segments(join_segments(segs).skip(k))),
    decreases segs.len(),
{
    let whole = join_segments(segs);
    if segs.len() == 0 {
        assert(whole.skip(k).len() == 0);
    } else {
        let init = segs.drop_last();
        let last = segs.last();
        let head = join_segments(init);
        assert(is_name(segs[segs.len() - 1]));
        assert forall|i: int| 0 <= i < init.len() implies is_name(#[trigger] init[i]) by {
            assert(init[i] == segs[i]);
        }
        if k > head.len() {
            let part = last.skip(k - head.len() - 1);
            assert(whole.skip(k) == part);
            if part.len() > 0 {
                assert forall|i: int| 0 <= i < part.len() implies !Separator::Slash.splits(
                    #[trigger] part[i],
                ) by {
                    assert(part[i] == last[i + k - head.len() - 1]);
                }
                lemma_pieces_single(Separator::Slash, part);
            }
        } else {
            let front = head.skip(k);
            assert(whole.skip(k) == front + seq!['/'] + last);
            lemma_pieces_concat(Separator::Slash, front, '/', last);
            lemma_pieces_single(Separator::Slash, last);
            lemma_suffix_segments(init, k);
            let b = segments(front);
            let all = segments(whole.skip(k));
            assert(all == b + seq![last]);
            assert forall|i: int| 1 <= i < all.len() implies is_name(#[trigger] all[i]) by {
                if i < b.len() {
                    assert(all[i] == b[i]);
                } else {
                    assert(all[i] == last);
                }
            }
        }
    }
}

/// A path of the client stands for a place in the root or below it,
/// whatever the path, the working directory and the root are, with one
/// exception: the paths that `escapes` tells of.
pub proof fn lemma_resolve_contained(root: Seq<char>, cwd: Seq<char>, path: Seq<char>)
    ensures
        within(root, place(root, cwd, path)) <==> !escapes(root, cwd, path),
{
    let base = beautify(root);
    let full = if path.len() > 0 && path[0] == '/' {
        base + seq!['/'] + path
    } else {
        base + seq!['/'] + beautify(cwd) + seq!['/'] + path
    };
    let found = canonical(full);
    let names = resolve_dots(segments(full));
    let rel = resolve(root, cwd, path);
    let a = segments(root);
    let kept = resolve_dots(a);
    let left = segments(rel);
    lemma_pieces_concat(Separator::Slash, root, '/', rel);
    assert(segments(place(root, cwd, path)) == a + left);
    lemma_canonical(full);
    lemma_pieces_are_pieces(Separator::Slash, full);
    crate::common::lemma_resolve_dots_names(segments(full));
    if base.is_prefix_of(found) {
        lemma_suffix_segments(names, base.len() as int);
    } else {
        assert(rel.skip(1).len() == 0);
        assert(pieces(Separator::Slash, rel.skip(1)).len() == 0);
        assert(left.len() == 0);
    }
    assert(tail_names(left));
    if left.len() == 0 {
        assert(a + left == a);
    } else {
        let first = left[0];
        let rest = left.skip(1);
        assert forall|i: int| 0 <= i < rest.len() implies is_name(#[trigger] rest[i]) by {
            assert(rest[i] == left[i + 1]);
        }
        assert(a + left == (a + seq![first]) + rest);
        lemma_resolve_dots_append(a + seq![first], rest);
        assert((a + seq![first]).drop_last() == a);
        assert((a + seq![first]).last() == first);
        let landed = resolve_dots(a + left);
        if is_dot_dot(first) && kept.len() > 0 {
            lemma_dot_segments(first);
            assert(resolve_dots(a + seq![first]) == kept.drop_last());
            assert(landed == kept.drop_last() + rest);
            if rest.len() > 0 && rest[0] == kept.last() {
                assert(landed[kept.len() - 1] == rest[0]);
                assert(kept =~= landed.subrange(0, kept.len() as int));
            } else if rest.len() > 0 {
                assert(landed[kept.len() - 1] == rest[0]);
            }
        } else {
            assert(kept =~= landed.subrange(0, kept.len() as int));
        }
    }
}

/// Before a login, a command other than `Login`, `Presence` and `Exit` is
/// answered with `NotConnected`: the session stays as it is, and the host
/// does not go near the file system.
pub proof fn lemma_gating(
    session: SessionView,
    command: CommandView,
    users: Seq<(Seq<char>, Seq<char>)>,
    kind: PathKind,
)
    requires
        session.root is None,
        !(command is Login || command is Presence || command is Exit),
    ensures
        step(session, command, users, kind) == (
            session,
            ActionView::Reply(Status::NotConnected),
        ),
        !step(session, command, users, kind).1.touches_files(),
        probed(session, command) is None,
{
}

/// After a login, `Rm` takes nothing but files and `Rmdir` nothing but
/// directories: what is missing is answered with `PathUnknown`, a
/// directory in place of a file with `NotFile`, and a file in place of a
/// directory with `NotDir`. In each of these cases the host goes near no
/// file.
pub proof fn lemma_remove_answers(
    session: SessionView,
    path: Seq<char>,
    recursive: bool,
    users: Seq<(Seq<char>, Seq<char>)>,
)
    requires
        session.root is Some,
    ensures
        step(session, CommandView::Rm(path), users, PathKind::Missing).1 == ActionView::Reply(
            Status::PathUnknown,
        ),
        step(session, CommandView::Rm(path), users, PathKind::Directory).1 == ActionView::Reply(
            Status::NotFile,
        ),
        step(session, CommandView::Rm(path), users, PathKind::File).1 is RemoveFile,
        step(session, CommandView::Rmdir(path, recursive), users, PathKind::Missing).1
            == ActionView::Reply(Status::PathUnknown),
        step(session, CommandView::Rmdir(path, recursive), users, PathKind::File).1
            == ActionView::Reply(Status::NotDir),
        step(session, CommandView::Rmdir(path, recursive), users, PathKind::Directory).1
            is RemoveDir,
{
}

/// No command but `Cd` changes the working directory, and none changes the
/// root: only `bind_root` does.
pub proof fn lemma_step_keeps_root(
    session: SessionView,
    command: CommandView,
    users: Seq<(Seq<char>, Seq<char>)>,
    kind: PathKind,
)
    ensures
        step(session, command, users, kind).0.root == session.root,
        !(command is Cd) ==> step(session, command, users, kind).0 == session,
{
}

} // verus!
