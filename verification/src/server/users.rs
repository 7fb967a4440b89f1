//! The credential store: user names with their passwords.

use crate::error::{Error, Result};
use crate::text::{
    is_token, lemma_pieces_cons, lemma_pieces_single, pieces, split, str_eq, tokens, Separator,
};
use vstd::prelude::*;

verus! {

/// The users of a server, each with a password. No name occurs twice.
#[derive(Debug)]
pub struct Users {
    entries: Vec<(String, String)>,
}

/// Whether no name occurs twice among the entries.
pub open spec fn names_distinct(entries: Seq<(Seq<char>, Seq<char>)>) -> bool {
    forall|i: int, j: int|
        0 <= i < j < entries.len() ==> (#[trigger] entries[i]).0 != (#[trigger] entries[j]).0
}

/// The place of a name among the entries, if it is there.
pub open spec fn position_of(entries: Seq<(Seq<char>, Seq<char>)>, user: Seq<char>) -> Option<int>
    decreases entries.len(),
{
    if entries.len() == 0 {
        None
    } else if entries.last().0 == user {
        Some(entries.len() - 1)
    } else {
        position_of(entries.drop_last(), user)
    }
}

/// The password that is kept for a name, if the name is known.
pub open spec fn password_of(entries: Seq<(Seq<char>, Seq<char>)>, user: Seq<char>) -> Option<
    Seq<char>,
> {
    match position_of(entries, user) {
        Some(i) => Some(entries[i].1),
        None => None,
    }
}

/// The entries after `user` was added: a known name keeps its password.
pub open spec fn with_user(
    entries: Seq<(Seq<char>, Seq<char>)>,
    user: Seq<char>,
    pass: Seq<char>,
) -> Seq<(Seq<char>, Seq<char>)> {
    if position_of(entries, user) is Some {
        entries
    } else {
        entries.push((user, pass))
    }
}

/// The entries after a line of the database was read: a name that was read
/// before takes the new password.
pub open spec fn with_password(
    entries: Seq<(Seq<char>, Seq<char>)>,
    user: Seq<char>,
    pass: Seq<char>,
) -> Seq<(Seq<char>, Seq<char>)> {
    match position_of(entries, user) {
        Some(i) => entries.update(i, (user, pass)),
        None => entries.push((user, pass)),
    }
}

/// The entries that some lines of a database hold: each line is a name and
/// a password. `None` where a line holds anything else.
pub open spec fn parse_lines(lines: Seq<Seq<char>>) -> Option<Seq<(Seq<char>, Seq<char>)>>
    decreases lines.len(),
{
    if lines.len() == 0 {
        Some(Seq::empty())
    } else {
        let words = tokens(lines.last());
        match parse_lines(lines.drop_last()) {
            None => None,
            Some(entries) => if words.len() == 2 {
                Some(with_password(entries, words[0], words[1]))
            } else {
                None
            },
        }
    }
}

/// The entries that the text of a database holds. Its lines end in a
/// newline, and empty lines do not count.
pub open spec fn parse_users(text: Seq<char>) -> Option<Seq<(Seq<char>, Seq<char>)>> {
    parse_lines(pieces(Separator::Newline, text))
}

/// The text of a database: for each entry a line with the name, a space and
/// the password.
pub open spec fn dump_users(entries: Seq<(Seq<char>, Seq<char>)>) -> Seq<char>
    decreases entries.len(),
{
    if entries.len() == 0 {
        Seq::empty()
    } else {
        dump_users(entries.drop_last()) + entries.last().0 + seq![' '] + entries.last().1 + seq![
            '\n',
        ]
    }
}

/// `position_of` finds a place that holds the name, and none only where no
/// place holds it.
pub proof fn lemma_position_of(entries: Seq<(Seq<char>, Seq<char>)>, user: Seq<char>)
    ensures
        match position_of(entries, user) {
            Some(i) => 0 <= i < entries.len() && entries[i].0 == user,
            None => forall|i: int| 0 <= i < entries.len() ==> (#[trigger] entries[i]).0 != user,
        },
    decreases entries.len(),
{
    if entries.len() > 0 && entries.last().0 != user {
        lemma_position_of(entries.drop_last(), user);
        let init = entries.drop_last();
        if position_of(entries, user) is None {
            assert forall|i: int| 0 <= i < entries.len() implies (#[trigger] entries[i]).0
                != user by {
                if i < init.len() {
                    assert(init[i] == entries[i]);
                }
            }
        }
    }
}

/// The entries as texts.
pub open spec fn entries_view(entries: Seq<(String, String)>) -> Seq<(Seq<char>, Seq<char>)> {
    Seq::new(entries.len(), |i: int| (entries[i].0@, entries[i].1@))
}

impl View for Users {
    type V = Seq<(Seq<char>, Seq<char>)>;

    /// The entries, in the order in which they came.
    closed spec fn view(&self) -> Seq<(Seq<char>, Seq<char>)> {
        entries_view(self.entries@)
    }
}

impl Users {
    #[verifier::type_invariant]
    spec fn well_formed(&self) -> bool {
        names_distinct(self@)
    }

    /// A store without users.
    pub fn new() -> (users: Users)
        ensures
            users@ == Seq::<(Seq<char>, Seq<char>)>::empty(),
    {
        let users = Users { entries: Vec::new() };
        assert(users@ =~= Seq::empty());
        users
    }

    /// Load a database from its text: one user on each line, the name and
    /// the password with whitespace between them. The text of a database
    /// that does not exist yet is empty.
    pub fn load(text: &str) -> (r: Result<Users>)
        ensures
            match parse_users(text@) {
                Some(entries) => r matches Ok(users) && users@ == entries && names_distinct(
                    entries,
                ),
                None => r matches Err(Error::InvalidUserDB),
            },
    {
        let lines = split(Separator::Newline, text);
        let ghost all = lines.deep_view();
        let mut users = Users::new();
        let mut i: usize = 0;
        while i < lines.len()
            invariant
                i <= lines.len(),
                all == lines.deep_view(),
                all == pieces(Separator::Newline, text@),
                parse_lines(all.take(i as int)) == Some(users@),
            decreases lines.len() - i,
        {
            proof {
                assert(all.take(i + 1).drop_last() == all.take(i as int));
                assert(all.take(i + 1).last() == lines@[i as int]@);
            }
            let words = split(Separator::Whitespace, lines[i].as_str());
            assert(words.deep_view().len() == words.len());
            if words.len() != 2 {
                proof {
                    assert(parse_lines(all.take(i + 1)) is None);
                    lemma_parse_lines_fails(all, i + 1);
                }
                return Err(Error::InvalidUserDB);
            }
            assert(words.deep_view()[0] == words@[0]@ && words.deep_view()[1] == words@[1]@);
            users.set_user(words[0].clone(), words[1].clone());
            i += 1;
        }
        proof {
            assert(all.take(lines.len() as int) == all);
            use_type_invariant(&users);
        }
        Ok(users)
    }

    /// The place of a user among the entries.
    fn find(&self, user: &str) -> (r: Option<usize>)
        ensures
            match r {
                Some(i) => i < self.entries@.len() && position_of(self@, user@) == Some(i as int),
                None => position_of(self@, user@) is None,
            },
    {
        let mut i: usize = 0;
        while i < self.entries.len()
            invariant
                i <= self.entries.len(),
                forall|k: int| 0 <= k < i ==> (#[trigger] self@[k]).0 != user@,
            decreases self.entries.len() - i,
        {
            if str_eq(self.entries[i].0.as_str(), user) {
                proof {
                    use_type_invariant(self);
                    lemma_position_of(self@, user@);
                    assert(self@[i as int].0 == user@);
                    let j = position_of(self@, user@)->0;
                    assert(self@[j].0 == user@);
                    assert(j == i);
                }
                return Some(i);
            }
            i += 1;
        }
        proof {
            lemma_position_of(self@, user@);
        }
        None
    }

    /// Check if the user provided is present and if his password is valid.
    pub fn is_valid(&self, user: &str, pass: &str) -> (r: bool)
        ensures
            r == (password_of(self@, user@) == Some(pass@)),
    {
        match self.find(user) {
            Some(i) => str_eq(self.entries[i].1.as_str(), pass),
            None => false,
        }
    }

    /// Add a new user to database. A user who is there already keeps the
    /// password that is there.
    pub fn add_user(&mut self, user: &str, pass: &str)
        ensures
            final(self)@ == with_user(old(self)@, user@, pass@),
            names_distinct(final(self)@),
    {
        proof {
            use_type_invariant(&*self);
        }
        if self.find(user).is_none() {
            proof {
                lemma_position_of(self@, user@);
            }
            let mut entries: Vec<(String, String)> = Vec::new();
            core::mem::swap(&mut self.entries, &mut entries);
            entries.push((String::from_str(user), String::from_str(pass)));
            assert(entries_view(entries@) =~= old(self)@.push((user@, pass@)));
            core::mem::swap(&mut self.entries, &mut entries);
        }
    }

    /// Keeps the password for the user, whether the user is new or not.
    fn set_user(&mut self, user: String, pass: String)
        ensures
            final(self)@ == with_password(old(self)@, user@, pass@),
    {
        proof {
            use_type_invariant(&*self);
        }
        let found = self.find(user.as_str());
        proof {
            lemma_position_of(self@, user@);
        }
        let mut entries: Vec<(String, String)> = Vec::new();
        core::mem::swap(&mut self.entries, &mut entries);
        match found {
            Some(i) => {
                entries.set(i, (user, pass));
                assert(entries_view(entries@) =~= old(self)@.update(i as int, (user@, pass@)));
                core::mem::swap(&mut self.entries, &mut entries);
            },
            None => {
                entries.push((user, pass));
                assert(entries_view(entries@) =~= old(self)@.push((user@, pass@)));
                core::mem::swap(&mut self.entries, &mut entries);
            },
        }
    }

    /// The number of users.
    pub fn len(&self) -> (n: usize)
        ensures
            n == self@.len(),
    {
        self.entries.len()
    }

    /// The text of the database, as `load` reads it: one line for each
    /// user, in the order in which the users came.
    pub fn dump(&self) -> (text: String)
        ensures
            text@ == dump_users(self@),
    {
        let mut text = String::new();
        let mut i: usize = 0;
        while i < self.entries.len()
            invariant
                i <= self.entries.len(),
                text@ == dump_users(self@.take(i as int)),
            decreases self.entries.len() - i,
        {
            proof {
                assert(self@.take(i + 1).drop_last() == self@.take(i as int));
                assert(self@.take(i + 1).last() == self@[i as int]);
            }
            text.append(self.entries[i].0.as_str());
            text.push(' ');
            text.append(self.entries[i].1.as_str());
            text.push('\n');
            i += 1;
        }
        assert(self@.take(self.entries.len() as int) == self@);
        text
    }
}

/// Whether each name and each password is one token, so that the text that
/// `dump` writes can be read back.
pub open spec fn all_tokens(entries: Seq<(Seq<char>, Seq<char>)>) -> bool {
    forall|i: int|
        0 <= i < entries.len() ==> is_token((#[trigger] entries[i]).0) && is_token(entries[i].1)
}

/// The lines of a database, without their newlines.
pub open spec fn dump_lines(entries: Seq<(Seq<char>, Seq<char>)>) -> Seq<Seq<char>> {
    Seq::new(entries.len(), |i: int| entries[i].0 + seq![' '] + entries[i].1)
}

/// The text of a database, with any text behind it, falls into the lines of
/// its entries and the lines of that text.
proof fn lemma_dump_lines(entries: Seq<(Seq<char>, Seq<char>)>, tail: Seq<char>)
    requires
        all_tokens(entries),
    ensures
        pieces(Separator::Newline, dump_users(entries) + tail) == dump_lines(entries) + pieces(
            Separator::Newline,
            tail,
        ),
    decreases entries.len(),
{
    if entries.len() == 0 {
        assert(dump_users(entries) + tail == tail);
        assert(dump_lines(entries) + pieces(Separator::Newline, tail) == pieces(
            Separator::Newline,
            tail,
        ));
    } else {
        let init = entries.drop_last();
        let last = entries.last();
        let line = last.0 + seq![' '] + last.1;
        assert(is_token(entries[entries.len() - 1].0) && is_token(entries[entries.len() - 1].1));
        assert forall|i: int| 0 <= i < init.len() implies is_token((#[trigger] init[i]).0)
            && is_token(init[i].1) by {
            assert(init[i] == entries[i]);
        }
        assert forall|i: int| 0 <= i < line.len() implies !Separator::Newline.splits(
            #[trigger] line[i],
        ) by {
            if i < last.0.len() {
                assert(line[i] == last.0[i]);
            } else if i > last.0.len() {
                assert(line[i] == last.1[i - last.0.len() - 1]);
            }
        }
        assert(dump_users(entries) + tail == dump_users(init) + (line + seq!['\n'] + tail));
        lemma_dump_lines(init, line + seq!['\n'] + tail);
        lemma_pieces_cons(Separator::Newline, line, '\n', tail);
        assert(dump_lines(entries) =~= dump_lines(init) + seq![line]);
    }
}

/// A database that was written by `dump` is read back by `load` as it was,
/// provided that each name and each password is one token.
pub proof fn lemma_load_dump(entries: Seq<(Seq<char>, Seq<char>)>)
    requires
        names_distinct(entries),
        all_tokens(entries),
    ensures
        parse_users(dump_users(entries)) == Some(entries),
{
    lemma_dump_lines(entries, Seq::empty());
    assert(dump_users(entries) + Seq::<char>::empty() == dump_users(entries));
    assert(pieces(Separator::Newline, Seq::<char>::empty()) == Seq::<Seq<char>>::empty());
    assert(dump_lines(entries) + Seq::<Seq<char>>::empty() == dump_lines(entries));
    lemma_parse_dump_lines(entries);
}

/// The lines of a database are read back as its entries.
proof fn lemma_parse_dump_lines(entries: Seq<(Seq<char>, Seq<char>)>)
    requires
        names_distinct(entries),
        all_tokens(entries),
    ensures
        parse_lines(dump_lines(entries)) == Some(entries),
    decreases entries.len(),
{
    let lines = dump_lines(entries);
    if entries.len() == 0 {
        assert(entries =~= Seq::empty());
    } else {
        let init = entries.drop_last();
        let last = entries.last();
        assert(is_token(entries[entries.len() - 1].0) && is_token(entries[entries.len() - 1].1));
        assert forall|i: int| 0 <= i < init.len() implies is_token((#[trigger] init[i]).0)
            && is_token(init[i].1) by {
            assert(init[i] == entries[i]);
        }
        assert forall|i: int, j: int| 0 <= i < j < init.len() implies (#[trigger] init[i]).0 != (
        #[trigger] init[j]).0 by {
            assert(init[i] == entries[i] && init[j] == entries[j]);
        }
        lemma_parse_dump_lines(init);
        assert(lines.drop_last() =~= dump_lines(init));
        assert(lines.last() == last.0 + seq![' '] + last.1);
        lemma_pieces_single(Separator::Whitespace, last.1);
        lemma_pieces_cons(Separator::Whitespace, last.0, ' ', last.1);
        assert(tokens(lines.last()) == seq![last.0, last.1]);
        lemma_position_of(init, last.0);
        if position_of(init, last.0) is Some {
            let i = position_of(init, last.0)->0;
            assert(init[i] == entries[i]);
            assert(entries[i].0 != entries[entries.len() - 1].0);
        }
        assert(init.push((last.0, last.1)) =~= entries);
    }
}

/// Where the first `n` lines of a database cannot be read, the database
/// cannot be read.
pub proof fn lemma_parse_lines_fails(lines: Seq<Seq<char>>, n: int)
    requires
        0 <= n <= lines.len(),
        parse_lines(lines.take(n)) is None,
    ensures
        parse_lines(lines) is None,
    decreases lines.len() - n,
{
    if n < lines.len() {
        assert(lines.take(n + 1).drop_last() == lines.take(n));
        lemma_parse_lines_fails(lines, n + 1);
    } else {
        assert(lines.take(n) == lines);
    }
}

} // verus!
