//! The cache of a tree of files: for each path the age of its last change,
//! in seconds. The cache is a text with one record on each line.

use crate::common::{canonical_in, canonicalize};
use crate::text::{
    chars_of, is_token, lemma_pieces_cons, lemma_pieces_single, pieces, split, split_whitespace,
    tokens, Separator,
};
use vstd::prelude::*;

verus! {

/// A sync cache: a path, and the seconds since it was changed last.
pub type SyncCache = (String, u64);

/// The character of a digit below sixteen.
pub open spec fn digit_char(d: nat) -> char
    recommends
        d < 16,
{
    if d < 10 {
        (48 + d) as char
    } else {
        (87 + d) as char
    }
}

/// A number in decimal digits: without zeros in front, and `0` as one
/// digit.
pub open spec fn decimal(n: nat) -> Seq<char>
    decreases n,
{
    if n < 10 {
        seq![digit_char(n)]
    } else {
        decimal(n / 10).push(digit_char(n % 10))
    }
}

/// A number in hexadecimal digits, the letters small: without zeros in
/// front, and `0` as one digit.
pub open spec fn hexadecimal(n: nat) -> Seq<char>
    decreases n,
{
    if n < 16 {
        seq![digit_char(n)]
    } else {
        hexadecimal(n / 16).push(digit_char(n % 16))
    }
}

/// Whether a character is a decimal digit.
pub open spec fn is_digit(c: char) -> bool {
    '0' <= c <= '9'
}

/// The number that a decimal digit stands for.
pub open spec fn digit_value(c: char) -> nat
    recommends
        is_digit(c),
{
    (c as nat - 48) as nat
}

/// The number that decimal digits spell.
pub open spec fn digits_value(digits: Seq<char>) -> nat
    decreases digits.len(),
{
    if digits.len() == 0 {
        0
    } else {
        digits_value(digits.drop_last()) * 10 + digit_value(digits.last())
    }
}

/// Whether each character is a decimal digit.
pub open spec fn all_digits(digits: Seq<char>) -> bool {
    forall|i: int| 0 <= i < digits.len() ==> is_digit(#[trigger] digits[i])
}

/// The number that a text spells: decimal digits, one at least, with or
/// without a `+` in front of them. `None` for any other text, and for a
/// number that does not fit in 64 bits.
pub open spec fn parse_decimal(text: Seq<char>) -> Option<u64> {
    let digits = if text.len() > 0 && text[0] == '+' {
        text.skip(1)
    } else {
        text
    };
    if digits.len() > 0 && all_digits(digits) && digits_value(digits) <= u64::MAX {
        Some(digits_value(digits) as u64)
    } else {
        None
    }
}

/// The record of a path in the cache: the canonical form of the path, a
/// space, and the age in decimal digits.
pub open spec fn record(path: Seq<char>, current: Seq<char>, age: u64) -> Seq<char> {
    canonical_in(path, current) + seq![' '] + decimal(age as nat)
}

/// What some lines of a cache hold: a line of two tokens is a record, its
/// second token being the age, and any other line is passed over. `None`
/// where the second of two tokens is no number.
pub open spec fn parse_records(lines: Seq<Seq<char>>) -> Option<Seq<(Seq<char>, u64)>>
    decreases lines.len(),
{
    if lines.len() == 0 {
        Some(Seq::empty())
    } else {
        let words = tokens(lines.last());
        match parse_records(lines.drop_last()) {
            None => None,
            Some(records) => if words.len() == 2 {
                match parse_decimal(words[1]) {
                    Some(age) => Some(records.push((words[0], age))),
                    None => None,
                }
            } else {
                Some(records)
            },
        }
    }
}

/// What the text of a cache holds. Its lines end in a newline, and empty
/// lines do not count.
pub open spec fn parse_cache(text: Seq<char>) -> Option<Seq<(Seq<char>, u64)>> {
    parse_records(pieces(Separator::Newline, text))
}

/// The records of a cache as texts.
pub open spec fn records_view(records: Seq<SyncCache>) -> Seq<(Seq<char>, u64)> {
    Seq::new(records.len(), |i: int| (records[i].0@, records[i].1))
}

/// Some lines as one text, a newline behind each.
pub open spec fn lines_text(lines: Seq<Seq<char>>) -> Seq<char>
    decreases lines.len(),
{
    if lines.len() == 0 {
        Seq::empty()
    } else {
        lines_text(lines.drop_last()) + lines.last() + seq!['\n']
    }
}

/// The text of a cache: of a directory, its records with a newline behind
/// each; of a file, its one record and no newline.
pub open spec fn cache_text(records: Seq<Seq<char>>, is_dir: bool) -> Seq<char> {
    if is_dir {
        lines_text(records)
    } else {
        records.flatten()
    }
}

/// The decimal digits of a number are digits, and spell the number.
pub proof fn lemma_decimal(n: nat)
    ensures
        decimal(n).len() > 0,
        all_digits(decimal(n)),
        digits_value(decimal(n)) == n,
    decreases n,
{
    let all = decimal(n);
    if n >= 10 {
        lemma_decimal(n / 10);
        let init = decimal(n / 10);
        assert(all.drop_last() == init);
        assert(all.last() == digit_char(n % 10));
        assert(digit_value(digit_char(n % 10)) == n % 10);
        assert forall|i: int| 0 <= i < all.len() implies is_digit(#[trigger] all[i]) by {
            if i < init.len() {
                assert(all[i] == init[i]);
            }
        }
    } else {
        assert(all.drop_last().len() == 0);
        assert(all.last() == digit_char(n));
        assert(digit_value(digit_char(n)) == n);
        assert(digits_value(all.drop_last()) == 0);
    }
}

/// A number that fits in 64 bits is read back from its decimal digits,
/// which are one token.
pub proof fn lemma_parse_decimal(n: u64)
    ensures
        parse_decimal(decimal(n as nat)) == Some(n),
        is_token(decimal(n as nat)),
{
    lemma_decimal(n as nat);
    let d = decimal(n as nat);
    assert(is_digit(d[0]));
    assert forall|i: int| 0 <= i < d.len() implies !Separator::Whitespace.splits(
        #[trigger] d[i],
    ) by {
        assert(is_digit(d[i]));
    }
}

/// Digits are worth at least as much as those of them that stand in front.
proof fn lemma_digits_value_grows(digits: Seq<char>, n: int)
    requires
        0 <= n <= digits.len(),
        all_digits(digits),
    ensures
        digits_value(digits.take(n)) <= digits_value(digits),
    decreases digits.len() - n,
{
    if n < digits.len() {
        lemma_digits_value_grows(digits, n + 1);
        assert(digits.take(n + 1).drop_last() == digits.take(n));
        assert(is_digit(digits[n]));
    } else {
        assert(digits.take(n) == digits);
    }
}

/// The character of a digit below sixteen.
fn digit(d: u8) -> (c: char)
    requires
        d < 16,
    ensures
        c == digit_char(d as nat),
{
    if d < 10 {
        (48u8 + d) as char
    } else {
        (87u8 + d) as char
    }
}

/// The string of some characters, the last of them first.
fn reversed(chars: &Vec<char>) -> (s: String)
    ensures
        s@ == chars@.reverse(),
{
    let mut s = String::new();
    let mut i: usize = chars.len();
    while i > 0
        invariant
            i <= chars.len(),
            s@ == chars@.reverse().take(chars.len() - i),
        decreases i,
    {
        i -= 1;
        s.push(chars[i]);
        assert(s@ =~= chars@.reverse().take(chars.len() - i));
    }
    assert(chars@.reverse().take(chars.len() as int) == chars@.reverse());
    s
}

/// A number in decimal digits.
pub fn write_decimal(n: u64) -> (s: String)
    ensures
        s@ == decimal(n as nat),
{
    let mut low: Vec<char> = Vec::new();
    let mut m: u64 = n;
    assert(low@.reverse() =~= Seq::<char>::empty());
    while m >= 10
        invariant
            decimal(n as nat) == decimal(m as nat) + low@.reverse(),
        decreases m,
    {
        let ghost before = low@;
        low.push(digit((m % 10) as u8));
        assert(low@.reverse() =~= seq![digit_char((m % 10) as nat)] + before.reverse());
        m = m / 10;
    }
    let ghost before = low@;
    low.push(digit(m as u8));
    assert(low@.reverse() =~= seq![digit_char(m as nat)] + before.reverse());
    reversed(&low)
}

/// A number in hexadecimal digits, the letters small.
pub fn write_hexadecimal(n: u64) -> (s: String)
    ensures
        s@ == hexadecimal(n as nat),
{
    let mut low: Vec<char> = Vec::new();
    let mut m: u64 = n;
    assert(low@.reverse() =~= Seq::<char>::empty());
    while m >= 16
        invariant
            hexadecimal(n as nat) == hexadecimal(m as nat) + low@.reverse(),
        decreases m,
    {
        let ghost before = low@;
        low.push(digit((m % 16) as u8));
        assert(low@.reverse() =~= seq![digit_char((m % 16) as nat)] + before.reverse());
        m = m / 16;
    }
    let ghost before = low@;
    low.push(digit(m as u8));
    assert(low@.reverse() =~= seq![digit_char(m as nat)] + before.reverse());
    reversed(&low)
}

/// The number that a text spells in decimal digits, with or without a `+`
/// in front. `None` for any other text, and for a number that does not fit
/// in 64 bits.
pub fn parse_number(text: &str) -> (r: Option<u64>)
    ensures
        r == parse_decimal(text@),
{
    let chars = chars_of(text);
    let start: usize = if chars.len() > 0 && chars[0] == '+' {
        1
    } else {
        0
    };
    let ghost digits = chars@.skip(start as int);
    assert(chars@.skip(0) == chars@);
    if chars.len() == start {
        return None;
    }
    let mut value: u64 = 0;
    let mut i: usize = start;
    assert(digits.take(0) =~= Seq::<char>::empty());
    while i < chars.len()
        invariant
            start <= i <= chars.len(),
            start < chars.len(),
            chars@ == text@,
            digits == chars@.skip(start as int),
            digits == if text@.len() > 0 && text@[0] == '+' {
                text@.skip(1)
            } else {
                text@
            },
            all_digits(digits.take(i - start)),
            value == digits_value(digits.take(i - start)),
        decreases chars.len() - i,
    {
        let c = chars[i];
        let ghost upto = digits.take(i - start + 1);
        proof {
            assert(digits[i - start] == c);
            assert(upto.drop_last() == digits.take(i - start));
            assert(upto.last() == c);
        }
        if !('0' <= c && c <= '9') {
            assert(!is_digit(digits[i - start]));
            return None;
        }
        let d = (c as u8 - 48u8) as u64;
        assert(d == digit_value(c));
        if value > (u64::MAX - d) / 10 {
            proof {
                // The digits so far are worth more than 64 bits hold.
                assert(digits_value(upto) > u64::MAX);
                if all_digits(digits) {
                    lemma_digits_value_grows(digits, i - start + 1);
                }
            }
            return None;
        }
        value = value * 10 + d;
        proof {
            assert forall|k: int| 0 <= k < upto.len() implies is_digit(#[trigger] upto[k]) by {
                if k < i - start {
                    assert(upto[k] == digits.take(i - start)[k]);
                }
            }
        }
        i += 1;
    }
    assert(digits.take(chars.len() - start) == digits);
    Some(value)
}

/// The name of the file that keeps the cache of a path: the hash of the
/// path in hexadecimal digits.
pub fn hash_path(hash: u64) -> (name: String)
    ensures
        name@ == hexadecimal(hash as nat),
{
    write_hexadecimal(hash)
}

/// Cache file: the record of a path that was changed `elapsed` seconds
/// ago. A path that does not start at the root is taken to start in
/// `current_dir`.
pub fn cache_file(path: &str, current_dir: &str, elapsed: u64) -> (line: String)
    ensures
        line@ == record(path@, current_dir@, elapsed),
{
    let mut line = canonicalize(path, current_dir);
    line.push(' ');
    line.append(write_decimal(elapsed).as_str());
    line
}

/// Cache path: the text of the cache that holds the given records. The
/// cache of a directory holds a line for each record; the cache of a file
/// holds its one record and no newline.
pub fn build_cache(records: &Vec<String>, is_dir: bool) -> (text: String)
    ensures
        text@ == cache_text(records.deep_view(), is_dir),
{
    let ghost all = records.deep_view();
    let mut text = String::new();
    let mut i: usize = 0;
    assert(all.take(0) =~= Seq::<Seq<char>>::empty());
    assert(all.take(0).flatten() =~= Seq::<char>::empty());
    while i < records.len()
        invariant
            i <= records.len(),
            all == records.deep_view(),
            text@ == cache_text(all.take(i as int), is_dir),
        decreases records.len() - i,
    {
        proof {
            let upto = all.take(i + 1);
            assert(upto.drop_last() == all.take(i as int));
            assert(upto.last() == records@[i as int]@);
            assert(upto == all.take(i as int).push(upto.last()));
            all.take(i as int).lemma_flatten_push(upto.last());
        }
        text.append(records[i].as_str());
        if is_dir {
            text.push('\n');
        }
        i += 1;
    }
    assert(all.take(records.len() as int) == all);
    text
}

/// Read cache: the records that the text of a cache holds. A line that
/// does not hold two tokens is passed over. `None` where a line holds two
/// tokens of which the second is no number.
pub fn read_cache(text: &str) -> (r: Option<Vec<SyncCache>>)
    ensures
        match parse_cache(text@) {
            Some(records) => r matches Some(v) && records_view(v@) == records,
            None => r is None,
        },
{
    let lines = split(Separator::Newline, text);
    let ghost all = lines.deep_view();
    let mut vec: Vec<SyncCache> = Vec::new();
    let mut i: usize = 0;
    assert(records_view(vec@) =~= Seq::empty());
    while i < lines.len()
        invariant
            i <= lines.len(),
            all == lines.deep_view(),
            all == pieces(Separator::Newline, text@),
            parse_records(all.take(i as int)) == Some(records_view(vec@)),
        decreases lines.len() - i,
    {
        proof {
            assert(all.take(i + 1).drop_last() == all.take(i as int));
            assert(all.take(i + 1).last() == lines@[i as int]@);
        }
        let splitted = split_whitespace(lines[i].as_str());
        assert(splitted.deep_view().len() == splitted.len());
        if splitted.len() == 2 {
            assert(splitted.deep_view()[0] == splitted@[0]@ && splitted.deep_view()[1]
                == splitted@[1]@);
            let path = splitted[0].clone();
            match parse_number(splitted[1].as_str()) {
                Some(time) => {
                    let ghost before = records_view(vec@);
                    vec.push((path, time));
                    assert(records_view(vec@) =~= before.push((path@, time)));
                },
                None => {
                    proof {
                        assert(parse_records(all.take(i + 1)) is None);
                        lemma_parse_records_fails(all, i + 1);
                    }
                    return None;
                },
            }
        }
        i += 1;
    }
    assert(all.take(lines.len() as int) == all);
    Some(vec)
}

/// Where the first `n` lines of a cache cannot be read, the cache cannot be
/// read.
proof fn lemma_parse_records_fails(lines: Seq<Seq<char>>, n: int)
    requires
        0 <= n <= lines.len(),
        parse_records(lines.take(n)) is None,
    ensures
        parse_records(lines) is None,
    decreases lines.len() - n,
{
    if n < lines.len() {
        assert(lines.take(n + 1).drop_last() == lines.take(n));
        lemma_parse_records_fails(lines, n + 1);
    } else {
        assert(lines.take(n) == lines);
    }
}

/// Sync cacher to cache all files: it knows the directory of its caches.
#[derive(Debug)]
pub struct SyncCacher {
    cacher_path: String,
}

impl View for SyncCacher {
    type V = Seq<char>;

    /// The directory of the caches.
    closed spec fn view(&self) -> Seq<char> {
        self.cacher_path@
    }
}

impl SyncCacher {
    /// A cacher that keeps its caches in the given directory.
    pub fn new(cacher_path: &str) -> (cacher: SyncCacher)
        ensures
            cacher@ == cacher_path@,
    {
        SyncCacher { cacher_path: String::from_str(cacher_path) }
    }

    /// The file that keeps the cache of the path with the given hash: it
    /// lies in the directory of the caches and is named by the hash.
    pub fn cache_path(&self, hash: u64) -> (path: String)
        ensures
            path@ == self@ + seq!['/'] + hexadecimal(hash as nat),
    {
        let mut path = self.cacher_path.clone();
        path.push('/');
        path.append(hash_path(hash).as_str());
        path
    }

    /// Cache path: the text to keep in the cache of a path; see the
    /// function `build_cache`.
    pub fn build_cache(&self, records: &Vec<String>, is_dir: bool) -> (text: String)
        ensures
            text@ == cache_text(records.deep_view(), is_dir),
    {
        build_cache(records, is_dir)
    }

    /// Query cache for path: the records that the text of its cache holds;
    /// see `read_cache`.
    pub fn query_cache(&self, text: &str) -> (r: Option<Vec<SyncCache>>)
        ensures
            match parse_cache(text@) {
                Some(records) => r matches Some(v) && records_view(v@) == records,
                None => r is None,
            },
    {
        read_cache(text)
    }
}

/// The lines of some records, with any text behind them, fall into those
/// lines and the lines of that text.
proof fn lemma_lines_text(lines: Seq<Seq<char>>, tail: Seq<char>)
    requires
        forall|i: int|
            0 <= i < lines.len() ==> crate::text::is_piece(Separator::Newline, #[trigger] lines[i]),
    ensures
        pieces(Separator::Newline, lines_text(lines) + tail) == lines + pieces(
            Separator::Newline,
            tail,
        ),
    decreases lines.len(),
{
    if lines.len() == 0 {
        assert(lines_text(lines) + tail == tail);
        assert(lines + pieces(Separator::Newline, tail) == pieces(Separator::Newline, tail));
    } else {
        let init = lines.drop_last();
        let last = lines.last();
        assert(crate::text::is_piece(Separator::Newline, lines[lines.len() - 1]));
        assert forall|i: int| 0 <= i < init.len() implies crate::text::is_piece(
            Separator::Newline,
            #[trigger] init[i],
        ) by {
            assert(init[i] == lines[i]);
        }
        assert(lines_text(lines) + tail == lines_text(init) + (last + seq!['\n'] + tail));
        lemma_lines_text(init, last + seq!['\n'] + tail);
        lemma_pieces_cons(Separator::Newline, last, '\n', tail);
        assert(init + (seq![last] + pieces(Separator::Newline, tail)) == lines + pieces(
            Separator::Newline,
            tail,
        ));
    }
}

/// The lines of some records: for each its path, a space and its age.
pub open spec fn record_lines(records: Seq<(Seq<char>, u64)>) -> Seq<Seq<char>> {
    Seq::new(records.len(), |i: int| records[i].0 + seq![' '] + decimal(records[i].1 as nat))
}

/// The cache of a directory is read back as the records that were written,
/// provided that the path of each record is one token.
pub proof fn lemma_read_cache_round_trip(records: Seq<(Seq<char>, u64)>)
    requires
        forall|i: int| 0 <= i < records.len() ==> is_token((#[trigger] records[i]).0),
    ensures
        parse_cache(cache_text(record_lines(records), true)) == Some(records),
{
    let lines = record_lines(records);
    assert forall|i: int| 0 <= i < lines.len() implies crate::text::is_piece(
        Separator::Newline,
        #[trigger] lines[i],
    ) by {
        let line = lines[i];
        let path = records[i].0;
        let age = decimal(records[i].1 as nat);
        lemma_parse_decimal(records[i].1);
        assert(is_token(path));
        assert forall|k: int| 0 <= k < line.len() implies !Separator::Newline.splits(
            #[trigger] line[k],
        ) by {
            if k < path.len() {
                assert(line[k] == path[k]);
                assert(!Separator::Whitespace.splits(path[k]));
            } else if k > path.len() {
                assert(line[k] == age[k - path.len() - 1]);
                assert(!Separator::Whitespace.splits(age[k - path.len() - 1]));
            }
        }
    }
    lemma_lines_text(lines, Seq::empty());
    assert(lines_text(lines) + Seq::<char>::empty() == lines_text(lines));
    assert(pieces(Separator::Newline, Seq::<char>::empty()) == Seq::<Seq<char>>::empty());
    assert(lines + Seq::<Seq<char>>::empty() == lines);
    lemma_parse_record_lines(records);
}

/// The lines of some records are read back as those records.
proof fn lemma_parse_record_lines(records: Seq<(Seq<char>, u64)>)
    requires
        forall|i: int| 0 <= i < records.len() ==> is_token((#[trigger] records[i]).0),
    ensures
        parse_records(record_lines(records)) == Some(records),
    decreases records.len(),
{
    let lines = record_lines(records);
    if records.len() == 0 {
        assert(records =~= Seq::empty());
    } else {
        let init = records.drop_last();
        let last = records.last();
        assert(is_token(records[records.len() - 1].0));
        assert forall|i: int| 0 <= i < init.len() implies is_token((#[trigger] init[i]).0) by {
            assert(init[i] == records[i]);
        }
        lemma_parse_record_lines(init);
        assert(lines.drop_last() =~= record_lines(init));
        let age = decimal(last.1 as nat);
        assert(lines.last() == last.0 + seq![' '] + age);
        lemma_parse_decimal(last.1);
        lemma_pieces_single(Separator::Whitespace, age);
        lemma_pieces_cons(Separator::Whitespace, last.0, ' ', age);
        assert(tokens(lines.last()) == seq![last.0, age]);
        assert(init.push((last.0, last.1)) =~= records);
    }
}

} // verus!
