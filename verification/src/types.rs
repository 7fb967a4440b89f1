//! The commands a client sends and the status codes a server answers with.

use crate::common::is_line;
use crate::error::{Error, Result};
use crate::text::{
    is_token, lemma_pieces_concat, lemma_pieces_single, split_whitespace, str_eq, tokens,
    Separator,
};
use vstd::prelude::*;
use vstd::utf8::is_ascii_chars;

verus! {

/// A request of the client. On the wire it is one line: the verb and its
/// arguments, separated by single spaces.
#[derive(Clone, Debug, PartialEq, Eq)]
pub enum Command {
    /// Login to server with a user name and a password.
    Login(String, String),
    /// Get a file.
    Get(String),
    /// Put a file.
    Put(String),
    /// List a directory.
    List(String),
    /// Ask for the current working directory.
    Cwd,
    /// Change the working directory.
    Cd(String),
    /// Make a directory.
    Mkdir(String),
    /// Remove a file.
    Rm(String),
    /// Remove a directory; with `true`, together with what it holds.
    Rmdir(String, bool),
    /// Ask whether the server is there.
    Presence,
    /// End the session.
    Exit,
}

/// A command as a mathematical value: its texts are character sequences.
pub enum CommandView {
    Login(Seq<char>, Seq<char>),
    Get(Seq<char>),
    Put(Seq<char>),
    List(Seq<char>),
    Cwd,
    Cd(Seq<char>),
    Mkdir(Seq<char>),
    Rm(Seq<char>),
    Rmdir(Seq<char>, bool),
    Presence,
    Exit,
}

impl View for Command {
    type V = CommandView;

    open spec fn view(&self) -> CommandView {
        match *self {
            Command::Login(u, p) => CommandView::Login(u@, p@),
            Command::Get(p) => CommandView::Get(p@),
            Command::Put(p) => CommandView::Put(p@),
            Command::List(p) => CommandView::List(p@),
            Command::Cwd => CommandView::Cwd,
            Command::Cd(p) => CommandView::Cd(p@),
            Command::Mkdir(p) => CommandView::Mkdir(p@),
            Command::Rm(p) => CommandView::Rm(p@),
            Command::Rmdir(p, r) => CommandView::Rmdir(p@, r),
            Command::Presence => CommandView::Presence,
            Command::Exit => CommandView::Exit,
        }
    }
}

impl CommandView {
    /// Whether the command carries a user name and a password.
    pub open spec fn has_login(self) -> bool {
        self is Login
    }

    /// Whether the command carries a path.
    pub open spec fn has_path(self) -> bool {
        self is Get || self is Put || self is List || self is Cd || self is Mkdir || self is Rm
            || self is Rmdir
    }

    /// The path the command carries, if it carries one.
    pub open spec fn path(self) -> Seq<char> {
        match self {
            CommandView::Get(p) => p,
            CommandView::Put(p) => p,
            CommandView::List(p) => p,
            CommandView::Cd(p) => p,
            CommandView::Mkdir(p) => p,
            CommandView::Rm(p) => p,
            CommandView::Rmdir(p, _) => p,
            _ => Seq::empty(),
        }
    }

    /// Whether each text of the command is ASCII.
    pub open spec fn ascii(self) -> bool {
        match self {
            CommandView::Login(u, p) => is_ascii_chars(u) && is_ascii_chars(p),
            _ => is_ascii_chars(self.path()),
        }
    }

    /// Whether each text of the command is one token, so that the line that
    /// `encode` writes can be read back.
    pub open spec fn representable(self) -> bool {
        match self {
            CommandView::Login(u, p) => is_token(u) && is_token(p),
            CommandView::Get(p) => is_token(p),
            CommandView::Put(p) => is_token(p),
            CommandView::List(p) => is_token(p),
            CommandView::Cd(p) => is_token(p),
            CommandView::Mkdir(p) => is_token(p),
            CommandView::Rm(p) => is_token(p),
            CommandView::Rmdir(p, _) => is_token(p),
            _ => true,
        }
    }
}

/// The first word of a command.
#[derive(Clone, Copy, Debug, PartialEq, Eq, Structural)]
pub enum Verb {
    Login,
    Get,
    Put,
    List,
    Cwd,
    Cd,
    Mkdir,
    Rm,
    Rmdir,
    Presence,
    Exit,
}

impl Verb {
    /// How the verb is written on the wire: in capitals.
    pub open spec fn text(self) -> Seq<char> {
        match self {
            Verb::Login => "LOGIN"@,
            Verb::Get => "GET"@,
            Verb::Put => "PUT"@,
            Verb::List => "LIST"@,
            Verb::Cwd => "CWD"@,
            Verb::Cd => "CD"@,
            Verb::Mkdir => "MKDIR"@,
            Verb::Rm => "RM"@,
            Verb::Rmdir => "RMDIR"@,
            Verb::Presence => "PRESENCE"@,
            Verb::Exit => "EXIT"@,
        }
    }

    /// The number of tokens in a line with this verb, the verb included.
    pub open spec fn arity(self) -> nat {
        match self {
            Verb::Login | Verb::Rmdir => 3,
            Verb::Cwd | Verb::Presence | Verb::Exit => 1,
            _ => 2,
        }
    }

    /// The verb that a token spells, if it spells one.
    pub open spec fn of(token: Seq<char>) -> Option<Verb> {
        if token == "LOGIN"@ {
            Some(Verb::Login)
        } else if token == "GET"@ {
            Some(Verb::Get)
        } else if token == "PUT"@ {
            Some(Verb::Put)
        } else if token == "LIST"@ {
            Some(Verb::List)
        } else if token == "CWD"@ {
            Some(Verb::Cwd)
        } else if token == "CD"@ {
            Some(Verb::Cd)
        } else if token == "MKDIR"@ {
            Some(Verb::Mkdir)
        } else if token == "RM"@ {
            Some(Verb::Rm)
        } else if token == "RMDIR"@ {
            Some(Verb::Rmdir)
        } else if token == "PRESENCE"@ {
            Some(Verb::Presence)
        } else if token == "EXIT"@ {
            Some(Verb::Exit)
        } else {
            None
        }
    }

    /// The verb that a token spells, if it spells one.
    pub fn from_token(token: &str) -> (r: Option<Verb>)
        ensures
            r == Verb::of(token@),
    {
        if str_eq(token, "LOGIN") {
            Some(Verb::Login)
        } else if str_eq(token, "GET") {
            Some(Verb::Get)
        } else if str_eq(token, "PUT") {
            Some(Verb::Put)
        } else if str_eq(token, "LIST") {
            Some(Verb::List)
        } else if str_eq(token, "CWD") {
            Some(Verb::Cwd)
        } else if str_eq(token, "CD") {
            Some(Verb::Cd)
        } else if str_eq(token, "MKDIR") {
            Some(Verb::Mkdir)
        } else if str_eq(token, "RM") {
            Some(Verb::Rm)
        } else if str_eq(token, "RMDIR") {
            Some(Verb::Rmdir)
        } else if str_eq(token, "PRESENCE") {
            Some(Verb::Presence)
        } else if str_eq(token, "EXIT") {
            Some(Verb::Exit)
        } else {
            None
        }
    }

    /// The number of tokens in a line with this verb, the verb included.
    pub fn token_count(&self) -> (n: usize)
        ensures
            n == self.arity(),
    {
        match self {
            Verb::Login | Verb::Rmdir => 3,
            Verb::Cwd | Verb::Presence | Verb::Exit => 1,
            _ => 2,
        }
    }

    /// How the verb is written on the wire: in capitals.
    pub fn as_str(&self) -> (s: &'static str)
        ensures
            s@ == self.text(),
    {
        match self {
            Verb::Login => "LOGIN",
            Verb::Get => "GET",
            Verb::Put => "PUT",
            Verb::List => "LIST",
            Verb::Cwd => "CWD",
            Verb::Cd => "CD",
            Verb::Mkdir => "MKDIR",
            Verb::Rm => "RM",
            Verb::Rmdir => "RMDIR",
            Verb::Presence => "PRESENCE",
            Verb::Exit => "EXIT",
        }
    }
}

impl CommandView {
    /// The verb of the command.
    pub open spec fn verb(self) -> Verb {
        match self {
            CommandView::Login(_, _) => Verb::Login,
            CommandView::Get(_) => Verb::Get,
            CommandView::Put(_) => Verb::Put,
            CommandView::List(_) => Verb::List,
            CommandView::Cwd => Verb::Cwd,
            CommandView::Cd(_) => Verb::Cd,
            CommandView::Mkdir(_) => Verb::Mkdir,
            CommandView::Rm(_) => Verb::Rm,
            CommandView::Rmdir(_, _) => Verb::Rmdir,
            CommandView::Presence => Verb::Presence,
            CommandView::Exit => Verb::Exit,
        }
    }

    /// What follows the verb on the line of the command, token by token.
    pub open spec fn arguments(self) -> Seq<Seq<char>> {
        match self {
            CommandView::Login(u, p) => seq![u, p],
            CommandView::Rmdir(p, r) => seq![p, flag_text(r)],
            CommandView::Cwd | CommandView::Presence | CommandView::Exit => Seq::empty(),
            _ => seq![self.path()],
        }
    }
}

/// How a flag is written on the wire.
pub open spec fn flag_text(flag: bool) -> Seq<char> {
    if flag {
        "true"@
    } else {
        "false"@
    }
}

/// The flag a token stands for, if it stands for one.
pub open spec fn parse_flag(token: Seq<char>) -> Option<bool> {
    if token == "true"@ {
        Some(true)
    } else if token == "false"@ {
        Some(false)
    } else {
        None
    }
}

/// Some words on one line, a space in front of each.
pub open spec fn spaced(words: Seq<Seq<char>>) -> Seq<char>
    decreases words.len(),
{
    if words.len() == 0 {
        Seq::empty()
    } else {
        spaced(words.drop_last()) + seq![' '] + words.last()
    }
}

/// The line of a command, without the newline that ends it on the wire:
/// the verb, then each argument behind one space.
pub open spec fn encode(c: CommandView) -> Seq<char> {
    c.verb().text() + spaced(c.arguments())
}

/// The command that a sequence of tokens stands for: the first token is the
/// verb, and the number of tokens is the one the verb asks for.
pub open spec fn decode_tokens(t: Seq<Seq<char>>) -> Option<CommandView> {
    if t.len() == 0 {
        None
    } else {
        match Verb::of(t[0]) {
            None => None,
            Some(verb) => if t.len() != verb.arity() {
                None
            } else {
                match verb {
                    Verb::Login => Some(CommandView::Login(t[1], t[2])),
                    Verb::Get => Some(CommandView::Get(t[1])),
                    Verb::Put => Some(CommandView::Put(t[1])),
                    Verb::List => Some(CommandView::List(t[1])),
                    Verb::Cwd => Some(CommandView::Cwd),
                    Verb::Cd => Some(CommandView::Cd(t[1])),
                    Verb::Mkdir => Some(CommandView::Mkdir(t[1])),
                    Verb::Rm => Some(CommandView::Rm(t[1])),
                    Verb::Rmdir => match parse_flag(t[2]) {
                        Some(r) => Some(CommandView::Rmdir(t[1], r)),
                        None => None,
                    },
                    Verb::Presence => Some(CommandView::Presence),
                    Verb::Exit => Some(CommandView::Exit),
                }
            },
        }
    }
}

/// The command a line stands for, if it stands for one.
pub open spec fn decode(line: Seq<char>) -> Option<CommandView> {
    decode_tokens(tokens(line))
}

impl Command {
    /// Reads a command from a line. A line that is no command comes back
    /// inside `Error::InvalidCommand`.
    pub fn try_from(s: &str) -> (r: Result<Command>)
        ensures
            match decode(s@) {
                Some(c) => r matches Ok(command) && command@ == c,
                None => r matches Err(Error::InvalidCommand(line)) && line@ == s@,
            },
    {
        let t = split_whitespace(s);
        let n = t.len();
        assert(t.deep_view().len() == n);
        assert(forall|i: int| 0 <= i < n ==> t.deep_view()[i] == #[trigger] t@[i]@);
        if n == 0 {
            return Err(Error::InvalidCommand(String::from_str(s)));
        }
        let verb = match Verb::from_token(t[0].as_str()) {
            Some(verb) => verb,
            None => {
                return Err(Error::InvalidCommand(String::from_str(s)));
            },
        };
        if n != verb.token_count() {
            return Err(Error::InvalidCommand(String::from_str(s)));
        }
        match verb {
            Verb::Login => Ok(Command::Login(t[1].clone(), t[2].clone())),
            Verb::Get => Ok(Command::Get(t[1].clone())),
            Verb::Put => Ok(Command::Put(t[1].clone())),
            Verb::List => Ok(Command::List(t[1].clone())),
            Verb::Cwd => Ok(Command::Cwd),
            Verb::Cd => Ok(Command::Cd(t[1].clone())),
            Verb::Mkdir => Ok(Command::Mkdir(t[1].clone())),
            Verb::Rm => Ok(Command::Rm(t[1].clone())),
            Verb::Rmdir => {
                if str_eq(t[2].as_str(), "true") {
                    Ok(Command::Rmdir(t[1].clone(), true))
                } else if str_eq(t[2].as_str(), "false") {
                    Ok(Command::Rmdir(t[1].clone(), false))
                } else {
                    Err(Error::InvalidCommand(String::from_str(s)))
                }
            },
            Verb::Presence => Ok(Command::Presence),
            Verb::Exit => Ok(Command::Exit),
        }
    }

    /// The verb of the command.
    pub fn verb(&self) -> (v: Verb)
        ensures
            v == self@.verb(),
    {
        match self {
            Command::Login(_, _) => Verb::Login,
            Command::Get(_) => Verb::Get,
            Command::Put(_) => Verb::Put,
            Command::List(_) => Verb::List,
            Command::Cwd => Verb::Cwd,
            Command::Cd(_) => Verb::Cd,
            Command::Mkdir(_) => Verb::Mkdir,
            Command::Rm(_) => Verb::Rm,
            Command::Rmdir(_, _) => Verb::Rmdir,
            Command::Presence => Verb::Presence,
            Command::Exit => Verb::Exit,
        }
    }

    /// The line of the command, without a newline at its end.
    pub fn to_string(&self) -> (s: String)
        ensures
            s@ == encode(self@),
    {
        let mut s = String::from_str(self.verb().as_str());
        proof {
            reveal_with_fuel(spaced, 3);
            assert(spaced(Seq::<Seq<char>>::empty()) == Seq::<char>::empty());
            assert(s@ + Seq::<char>::empty() == s@);
        }
        match self {
            Command::Login(u, p) => {
                s.push(' ');
                s.append(u.as_str());
                s.push(' ');
                s.append(p.as_str());
                proof {
                    let args = seq![u@, p@];
                    assert(args.drop_last() == seq![u@]);
                    assert(seq![u@].drop_last() == Seq::<Seq<char>>::empty());
                    assert(s@ =~= encode(self@));
                }
            },
            Command::Rmdir(p, r) => {
                s.push(' ');
                s.append(p.as_str());
                s.push(' ');
                if *r {
                    s.append("true");
                } else {
                    s.append("false");
                }
                proof {
                    let args = seq![p@, flag_text(*r)];
                    assert(args.drop_last() == seq![p@]);
                    assert(seq![p@].drop_last() == Seq::<Seq<char>>::empty());
                    assert(s@ =~= encode(self@));
                }
            },
            Command::Get(p) | Command::Put(p) | Command::List(p) | Command::Cd(p) | Command::Mkdir(
                p,
            ) | Command::Rm(p) => {
                s.push(' ');
                s.append(p.as_str());
                proof {
                    assert(seq![p@].drop_last() == Seq::<Seq<char>>::empty());
                    assert(s@ =~= encode(self@));
                }
            },
            Command::Cwd | Command::Presence | Command::Exit => {},
        }
        s
    }

    /// Get login username and password.
    /// Only for `Login`: no other command carries them.
    pub fn unwrap_login(self) -> (r: (String, String))
        requires
            self@.has_login(),
        ensures
            self@ == CommandView::Login(r.0@, r.1@),
    {
        match self {
            Command::Login(u, p) => (u, p),
            _ => vstd::pervasive::unreached(),
        }
    }

    /// Get the path from command.
    /// Only for the commands that carry a path.
    pub fn unwrap_path(self) -> (r: String)
        requires
            self@.has_path(),
        ensures
            r@ == self@.path(),
    {
        match self {
            Command::Get(s) | Command::Put(s) | Command::List(s) | Command::Cd(s) | Command::Rm(
                s,
            ) | Command::Rmdir(s, _) | Command::Mkdir(s) => s,
            _ => vstd::pervasive::unreached(),
        }
    }
}

/// Each verb is one token, and is read back from its text.
pub proof fn lemma_verb_text(verb: Verb)
    ensures
        is_token(verb.text()),
        Verb::of(verb.text()) == Some(verb),
        forall|i: int| 0 <= i < verb.text().len() ==> 'A' <= #[trigger] verb.text()[i] <= 'Z',
{
    reveal_strlit("LOGIN");
    reveal_strlit("GET");
    reveal_strlit("PUT");
    reveal_strlit("LIST");
    reveal_strlit("CWD");
    reveal_strlit("CD");
    reveal_strlit("MKDIR");
    reveal_strlit("RM");
    reveal_strlit("RMDIR");
    reveal_strlit("PRESENCE");
    reveal_strlit("EXIT");
    let t = verb.text();
    match verb {
        Verb::Login => {
            assert(t.len() == 5);
        },
        Verb::Get => {
            assert(t.len() == 3);
        },
        Verb::Put => {
            assert(t.len() == 3 && t[0] == 'P');
        },
        Verb::List => {
            assert(t.len() == 4);
        },
        Verb::Cwd => {
            assert(t.len() == 3 && t[0] == 'C');
        },
        Verb::Cd => {
            assert(t.len() == 2);
        },
        Verb::Mkdir => {
            assert(t.len() == 5 && t[0] == 'M');
        },
        Verb::Rm => {
            assert(t.len() == 2 && t[0] == 'R');
        },
        Verb::Rmdir => {
            assert(t.len() == 5 && t[0] == 'R');
        },
        Verb::Presence => {
            assert(t.len() == 8);
        },
        Verb::Exit => {
            assert(t.len() == 4 && t[0] == 'E');
        },
    }
}

/// A flag is one token, and is read back from its text.
pub proof fn lemma_flag_text(flag: bool)
    ensures
        is_token(flag_text(flag)),
        parse_flag(flag_text(flag)) == Some(flag),
        forall|i: int|
            0 <= i < flag_text(flag).len() ==> 'a' <= #[trigger] flag_text(flag)[i] <= 'z',
{
    reveal_strlit("true");
    reveal_strlit("false");
    assert(flag_text(flag).len() == if flag {
        4int
    } else {
        5int
    });
}

/// A token in front of a line of words is its first token; the words, each
/// being one token, are the others.
pub proof fn lemma_tokens_spaced(first: Seq<char>, words: Seq<Seq<char>>)
    requires
        is_token(first),
        forall|i: int| 0 <= i < words.len() ==> is_token(#[trigger] words[i]),
    ensures
        tokens(first + spaced(words)) == seq![first] + words,
    decreases words.len(),
{
    if words.len() == 0 {
        assert(first + spaced(words) == first);
        lemma_pieces_single(Separator::Whitespace, first);
        assert(seq![first] + words == seq![first]);
    } else {
        let init = words.drop_last();
        let last = words.last();
        assert(is_token(words[words.len() - 1]));
        assert forall|i: int| 0 <= i < init.len() implies is_token(#[trigger] init[i]) by {
            assert(init[i] == words[i]);
        }
        lemma_tokens_spaced(first, init);
        assert(first + spaced(words) == (first + spaced(init)) + seq![' '] + last);
        lemma_pieces_concat(Separator::Whitespace, first + spaced(init), ' ', last);
        lemma_pieces_single(Separator::Whitespace, last);
        assert((seq![first] + init) + seq![last] == seq![first] + words);
    }
}

/// Reading back the line of a command gives the command, provided that each
/// of its texts is one token.
pub proof fn lemma_decode_encode(c: CommandView)
    requires
        c.representable(),
    ensures
        decode(encode(c)) == Some(c),
{
    let verb = c.verb();
    let args = c.arguments();
    lemma_verb_text(verb);
    if c is Rmdir {
        lemma_flag_text(c->Rmdir_1);
    }
    assert forall|i: int| 0 <= i < args.len() implies is_token(#[trigger] args[i]) by {}
    lemma_tokens_spaced(verb.text(), args);
    let t = tokens(encode(c));
    assert(t == seq![verb.text()] + args);
    assert(t[0] == verb.text());
    assert(t.len() == verb.arity());
    assert(forall|i: int| 0 <= i < args.len() ==> t[i + 1] == args[i]);
    match c {
        CommandView::Login(u, p) => {
            assert(t[1] == args[0] && t[2] == args[1]);
        },
        CommandView::Rmdir(p, r) => {
            assert(t[1] == args[0] && t[2] == args[1]);
        },
        CommandView::Cwd => {},
        CommandView::Presence => {},
        CommandView::Exit => {},
        _ => {
            assert(t[1] == args[0]);
        },
    }
}

/// Words that can travel as a line make a line that can.
proof fn lemma_spaced_is_line(words: Seq<Seq<char>>)
    requires
        forall|i: int| 0 <= i < words.len() ==> is_line(#[trigger] words[i]),
    ensures
        is_line(spaced(words)),
    decreases words.len(),
{
    if words.len() > 0 {
        let init = words.drop_last();
        let last = words.last();
        assert(is_line(words[words.len() - 1]));
        assert forall|i: int| 0 <= i < init.len() implies is_line(#[trigger] init[i]) by {
            assert(init[i] == words[i]);
        }
        lemma_spaced_is_line(init);
        let head = spaced(init);
        let line = spaced(words);
        assert forall|i: int| 0 <= i < line.len() implies '\0' <= #[trigger] line[i] <= '\u{7f}'
            && line[i] != '\n' by {
            if i < head.len() {
                assert(line[i] == head[i]);
            } else if i > head.len() {
                assert(line[i] == last[i - head.len() - 1]);
            }
        }
    }
}

/// The line of a command whose texts are ASCII tokens is ASCII and holds no
/// newline.
pub proof fn lemma_encode_is_line(c: CommandView)
    requires
        c.representable(),
        c.ascii(),
    ensures
        is_line(encode(c)),
{
    let verb = c.verb().text();
    let args = c.arguments();
    lemma_verb_text(c.verb());
    if c is Rmdir {
        lemma_flag_text(c->Rmdir_1);
    }
    assert forall|i: int| 0 <= i < args.len() implies is_line(#[trigger] args[i]) by {
        let word = args[i];
        assert(is_token(word));
        assert forall|k: int| 0 <= k < word.len() implies '\0' <= #[trigger] word[k] <= '\u{7f}'
            && word[k] != '\n' by {
            assert(!Separator::Whitespace.splits(word[k]));
        }
    }
    lemma_spaced_is_line(args);
    let rest = spaced(args);
    let line = encode(c);
    assert forall|i: int| 0 <= i < line.len() implies '\0' <= #[trigger] line[i] <= '\u{7f}'
        && line[i] != '\n' by {
        if i < verb.len() {
            assert(line[i] == verb[i]);
        } else {
            assert(line[i] == rest[i - verb.len()]);
        }
    }
}

/// A line whose first token is a verb, but which does not hold as many
/// tokens as that verb asks for, is no command.
pub proof fn lemma_wrong_arity(line: Seq<char>, verb: Verb)
    requires
        tokens(line).len() > 0,
        Verb::of(tokens(line)[0]) == Some(verb),
        tokens(line).len() != verb.arity(),
    ensures
        decode(line) is None,
{
}

/// A line is a command only if its first token is the verb of the command
/// and it holds as many tokens as that verb asks for.
pub proof fn lemma_decode_arity(line: Seq<char>)
    ensures
        decode(line) matches Some(c) ==> tokens(line).len() == c.verb().arity() && Verb::of(
            tokens(line)[0],
        ) == Some(c.verb()),
{
}

/// The status code that answers a command: one byte on the wire.
#[derive(Clone, Copy, Debug, PartialEq, Eq, Structural)]
pub enum Status {
    /// The login was accepted.
    Connected,
    /// The session is over.
    Disconnected,
    /// User name or password did not match.
    WrongLogin,
    /// The command needs a login first.
    NotConnected,
    /// The command was carried out.
    Okay,
    /// The path is not a regular file.
    NotFile,
    /// The path is not a directory.
    NotDir,
    /// Nothing exists at the path.
    PathUnknown,
    /// Any byte that stands for none of the above.
    UnknownError,
}

/// The byte that stands for a status on the wire.
pub open spec fn status_to_byte(status: Status) -> u8 {
    match status {
        Status::Connected => 1,
        Status::Disconnected => 2,
        Status::WrongLogin => 3,
        Status::NotConnected => 4,
        Status::Okay => 5,
        Status::NotFile => 6,
        Status::NotDir => 7,
        Status::PathUnknown => 8,
        Status::UnknownError => 255,
    }
}

/// The status a byte stands for; every byte outside 1..=8 is `UnknownError`.
pub open spec fn byte_to_status(byte: u8) -> Status {
    if byte == 1 {
        Status::Connected
    } else if byte == 2 {
        Status::Disconnected
    } else if byte == 3 {
        Status::WrongLogin
    } else if byte == 4 {
        Status::NotConnected
    } else if byte == 5 {
        Status::Okay
    } else if byte == 6 {
        Status::NotFile
    } else if byte == 7 {
        Status::NotDir
    } else if byte == 8 {
        Status::PathUnknown
    } else {
        Status::UnknownError
    }
}

impl Status {
    /// Whether the status reports success.
    pub open spec fn positive(self) -> bool {
        self == Status::Connected || self == Status::Disconnected || self == Status::Okay
    }

    /// Check if status is positive.
    pub fn is_positive(&self) -> (r: bool)
        ensures
            r == self.positive(),
    {
        match *self {
            Status::Connected | Status::Disconnected | Status::Okay => true,
            _ => false,
        }
    }

    /// Check if status is negative.
    pub fn is_negative(&self) -> (r: bool)
        ensures
            r == !self.positive(),
    {
        !self.is_positive()
    }

    /// The byte that stands for this status on the wire.
    pub fn to_byte(&self) -> (b: u8)
        ensures
            b == status_to_byte(*self),
    {
        match *self {
            Status::Connected => 1,
            Status::Disconnected => 2,
            Status::WrongLogin => 3,
            Status::NotConnected => 4,
            Status::Okay => 5,
            Status::NotFile => 6,
            Status::NotDir => 7,
            Status::PathUnknown => 8,
            Status::UnknownError => 255,
        }
    }
}

impl From<u8> for Status {
    fn from(from: u8) -> (status: Status) {
        match from {
            1 => Status::Connected,
            2 => Status::Disconnected,
            3 => Status::WrongLogin,
            4 => Status::NotConnected,
            5 => Status::Okay,
            6 => Status::NotFile,
            7 => Status::NotDir,
            8 => Status::PathUnknown,
            _ => Status::UnknownError,
        }
    }
}

impl vstd::std_specs::convert::FromSpecImpl<u8> for Status {
    open spec fn obeys_from_spec() -> bool {
        true
    }

    open spec fn from_spec(from: u8) -> Status {
        byte_to_status(from)
    }
}

/// A status survives the trip through its byte, and the byte of every
/// status but `UnknownError` lies in 1..=8.
pub proof fn lemma_status_round_trip(status: Status)
    ensures
        byte_to_status(status_to_byte(status)) == status,
        status != Status::UnknownError ==> 1 <= status_to_byte(status) <= 8,
{
}

/// A byte outside 1..=8 stands for `UnknownError`, and only such a byte does.
pub proof fn lemma_unknown_bytes(byte: u8)
    ensures
        byte_to_status(byte) == Status::UnknownError <==> !(1 <= byte <= 8),
{
}

} // verus!
