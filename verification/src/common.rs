//! What client and server share: the framing of numbers, files, lines and
//! listings on the wire, and the paths of the served tree.

use crate::text::{
    chars_of, is_piece, lemma_pieces_are_pieces, lemma_pieces_concat, lemma_pieces_single, pieces,
    split_chars, str_eq, string_of, Separator,
};
use vstd::prelude::*;
use vstd::utf8::{encode_utf8, is_ascii_chars, is_ascii_chars_encode_utf8};

verus! {

/// The number that eight bytes stand for, the first byte weighing most.
pub open spec fn be_value(b: Seq<u8>) -> nat
    recommends
        b.len() == 8,
{
    (b[0] as nat) * 0x100_0000_0000_0000 + (b[1] as nat) * 0x1_0000_0000_0000 + (b[2] as nat)
        * 0x100_0000_0000 + (b[3] as nat) * 0x1_0000_0000 + (b[4] as nat) * 0x100_0000 + (
    b[5] as nat) * 0x1_0000 + (b[6] as nat) * 0x100 + (b[7] as nat)
}

/// The eight bytes that stand for a number, the first byte weighing most.
pub open spec fn be_bytes(n: u64) -> Seq<u8> {
    seq![
        (n / 0x100_0000_0000_0000) as u8,
        (n / 0x1_0000_0000_0000 % 256) as u8,
        (n / 0x100_0000_0000 % 256) as u8,
        (n / 0x1_0000_0000 % 256) as u8,
        (n / 0x100_0000 % 256) as u8,
        (n / 0x1_0000 % 256) as u8,
        (n / 0x100 % 256) as u8,
        (n % 256) as u8,
    ]
}

/// The bytes of a number stand for that number.
pub proof fn lemma_be_value_of_bytes(n: u64)
    ensures
        be_bytes(n).len() == 8,
        be_value(be_bytes(n)) == n,
{
    let q1 = n / 0x100;
    let q2 = q1 / 0x100;
    let q3 = q2 / 0x100;
    let q4 = q3 / 0x100;
    let q5 = q4 / 0x100;
    let q6 = q5 / 0x100;
    let q7 = q6 / 0x100;
    assert(n / 0x1_0000 == q2);
    assert(n / 0x100_0000 == q3);
    assert(n / 0x1_0000_0000 == q4);
    assert(n / 0x100_0000_0000 == q5);
    assert(n / 0x1_0000_0000_0000 == q6);
    assert(n / 0x100_0000_0000_0000 == q7);
    assert(q7 < 256);
    let b = be_bytes(n);
    assert(b[0] == q7 && b[1] == q6 % 256 && b[2] == q5 % 256 && b[3] == q4 % 256);
    assert(b[4] == q3 % 256 && b[5] == q2 % 256 && b[6] == q1 % 256 && b[7] == n % 256);
    assert(q6 == q7 * 256 + q6 % 256);
    assert(q5 == q6 * 256 + q5 % 256);
    assert(q4 == q5 * 256 + q4 % 256);
    assert(q3 == q4 * 256 + q3 % 256);
    assert(q2 == q3 * 256 + q2 % 256);
    assert(q1 == q2 * 256 + q1 % 256);
    assert(n == q1 * 256 + n % 256);
}

/// The number of eight bytes fits in 64 bits, and its bytes are those eight.
pub proof fn lemma_be_bytes_of_value(b: Seq<u8>)
    requires
        b.len() == 8,
    ensures
        be_value(b) <= u64::MAX,
        be_bytes(be_value(b) as u64) == b,
{
    let n = be_value(b) as u64;
    let b0 = b[0] as int;
    let b1 = b[1] as int;
    let b2 = b[2] as int;
    let b3 = b[3] as int;
    let b4 = b[4] as int;
    let b5 = b[5] as int;
    let b6 = b[6] as int;
    let b7 = b[7] as int;
    let q7 = b0;
    let q6 = q7 * 256 + b1;
    let q5 = q6 * 256 + b2;
    let q4 = q5 * 256 + b3;
    let q3 = q4 * 256 + b4;
    let q2 = q3 * 256 + b5;
    let q1 = q2 * 256 + b6;
    assert(n == q1 * 256 + b7);
    assert(n / 0x100 == q1 && n % 256 == b7);
    assert(q1 / 0x100 == q2 && q1 % 256 == b6);
    assert(q2 / 0x100 == q3 && q2 % 256 == b5);
    assert(q3 / 0x100 == q4 && q3 % 256 == b4);
    assert(q4 / 0x100 == q5 && q4 % 256 == b3);
    assert(q5 / 0x100 == q6 && q5 % 256 == b2);
    assert(q6 / 0x100 == q7 && q6 % 256 == b1);
    assert(n / 0x1_0000 == q2);
    assert(n / 0x100_0000 == q3);
    assert(n / 0x1_0000_0000 == q4);
    assert(n / 0x100_0000_0000 == q5);
    assert(n / 0x1_0000_0000_0000 == q6);
    assert(n / 0x100_0000_0000_0000 == q7);
    assert(be_bytes(n) =~= b);
}

/// Convert an u64 to an array of u8, the first byte weighing most.
pub fn u64_as_bytes(num: u64) -> (arr: [u8; 8])
    ensures
        arr@ == be_bytes(num),
{
    let arr: [u8; 8] = [
        (num / 0x100_0000_0000_0000) as u8,
        (num / 0x1_0000_0000_0000 % 256) as u8,
        (num / 0x100_0000_0000 % 256) as u8,
        (num / 0x1_0000_0000 % 256) as u8,
        (num / 0x100_0000 % 256) as u8,
        (num / 0x1_0000 % 256) as u8,
        (num / 0x100 % 256) as u8,
        (num % 256) as u8,
    ];
    assert(arr@ =~= be_bytes(num));
    arr
}

/// Convert an array of u8 to u64, the first byte weighing most.
pub fn bytes_to_u64(arr: [u8; 8]) -> (num: u64)
    ensures
        num == be_value(arr@),
{
    (arr[0] as u64) * 0x100_0000_0000_0000 + (arr[1] as u64) * 0x1_0000_0000_0000 + (arr[2] as u64)
        * 0x100_0000_0000 + (arr[3] as u64) * 0x1_0000_0000 + (arr[4] as u64) * 0x100_0000 + (
    arr[5] as u64) * 0x1_0000 + (arr[6] as u64) * 0x100 + (arr[7] as u64)
}

/// The number at the head of the input: `None` while fewer than eight
/// bytes are there.
pub open spec fn parse_size(input: Seq<u8>) -> Option<nat> {
    if input.len() < 8 {
        None
    } else {
        Some(be_value(input.take(8)))
    }
}

/// A file on the wire: its length in eight bytes, then its bytes.
pub open spec fn blob_frame(data: Seq<u8>) -> Seq<u8>
    recommends
        data.len() <= u64::MAX,
{
    be_bytes(data.len() as u64) + data
}

/// The file at the head of the input and the number of bytes it took:
/// `None` while the input is shorter than the length it declares.
pub open spec fn parse_blob(input: Seq<u8>) -> Option<(Seq<u8>, nat)> {
    match parse_size(input) {
        None => None,
        Some(n) => if input.len() < 8 + n {
            None
        } else {
            Some((input.subrange(8, 8 + n as int), 8 + n))
        },
    }
}

/// The character each byte of a line stands for: the one with its number.
pub open spec fn chars_of_bytes(bytes: Seq<u8>) -> Seq<char> {
    Seq::new(bytes.len(), |i: int| bytes[i] as char)
}

/// The number of bytes in front of the first newline, or the length of the
/// input where it holds none.
pub open spec fn line_len(input: Seq<u8>) -> nat
    decreases input.len(),
{
    if input.len() == 0 || input[0] == 10 {
        0
    } else {
        1 + line_len(input.skip(1))
    }
}

/// A line on the wire: the bytes of its text, then a newline.
pub open spec fn line_frame(text: Seq<char>) -> Seq<u8> {
    encode_utf8(text).push(10)
}

/// The line at the head of the input, without its newline, and the number
/// of bytes it took: `None` while the input holds no newline.
pub open spec fn parse_line(input: Seq<u8>) -> Option<(Seq<char>, nat)> {
    let n = line_len(input);
    if n < input.len() {
        Some((chars_of_bytes(input.take(n as int)), n + 1))
    } else {
        None
    }
}

/// Lines on the wire, one after the other.
pub open spec fn lines_frame(lines: Seq<Seq<char>>) -> Seq<u8>
    decreases lines.len(),
{
    if lines.len() == 0 {
        Seq::empty()
    } else {
        lines_frame(lines.drop_last()) + line_frame(lines.last())
    }
}

/// A listing on the wire: the number of its entries in eight bytes, then
/// each entry as a line.
pub open spec fn list_frame(list: Seq<Seq<char>>) -> Seq<u8>
    recommends
        list.len() <= u64::MAX,
{
    be_bytes(list.len() as u64) + lines_frame(list)
}

/// The first `count` lines of the input and the number of bytes they took:
/// `None` while the input holds fewer lines.
pub open spec fn parse_lines(input: Seq<u8>, count: nat) -> Option<(Seq<Seq<char>>, nat)>
    decreases count,
{
    if count == 0 {
        Some((Seq::empty(), 0))
    } else {
        match parse_lines(input, (count - 1) as nat) {
            None => None,
            Some((lines, used)) => match parse_line(input.skip(used as int)) {
                None => None,
                Some((line, n)) => Some((lines.push(line), used + n)),
            },
        }
    }
}

/// The listing at the head of the input and the number of bytes it took:
/// `None` while the input holds fewer lines than it declares.
pub open spec fn parse_list(input: Seq<u8>) -> Option<(Seq<Seq<char>>, nat)> {
    match parse_size(input) {
        None => None,
        Some(count) => match parse_lines(input.skip(8), count) {
            None => None,
            Some((lines, used)) => Some((lines, 8 + used)),
        },
    }
}

/// A prefix of `n` bytes without a newline, which ends the input or stands
/// in front of a newline, is the first line.
pub proof fn lemma_line_len_is(input: Seq<u8>, n: int)
    requires
        0 <= n <= input.len(),
        forall|i: int| 0 <= i < n ==> input[i] != 10,
        n < input.len() ==> input[n] == 10,
    ensures
        line_len(input) == n,
    decreases n,
{
    if n == 0 {
    } else {
        let rest = input.skip(1);
        assert forall|i: int| 0 <= i < n - 1 implies rest[i] != 10 by {
            assert(rest[i] == input[i + 1]);
        }
        lemma_line_len_is(rest, n - 1);
    }
}

/// Whether a text can travel as a line: it is ASCII and holds no newline.
pub open spec fn is_line(text: Seq<char>) -> bool {
    is_ascii_chars(text) && forall|i: int| 0 <= i < text.len() ==> #[trigger] text[i] != '\n'
}

/// A file that was framed is received as it was, whatever follows it on the
/// wire, and the frame is used up exactly.
pub proof fn lemma_blob_round_trip(data: Seq<u8>, rest: Seq<u8>)
    requires
        data.len() <= u64::MAX,
    ensures
        parse_blob(blob_frame(data) + rest) == Some((data, blob_frame(data).len())),
        blob_frame(data).len() == 8 + data.len(),
{
    let input = blob_frame(data) + rest;
    lemma_be_value_of_bytes(data.len() as u64);
    assert(input.take(8) == be_bytes(data.len() as u64));
    assert(input.subrange(8, 8 + data.len() as int) == data);
}

/// While a part of a framed file is missing, nothing is received.
pub proof fn lemma_blob_incomplete(data: Seq<u8>, n: int)
    requires
        data.len() <= u64::MAX,
        0 <= n < 8 + data.len(),
    ensures
        parse_blob(blob_frame(data).take(n)) is None,
{
    let input = blob_frame(data).take(n);
    if n >= 8 {
        lemma_be_value_of_bytes(data.len() as u64);
        assert(input.take(8) == be_bytes(data.len() as u64));
    }
}

/// A line that was framed is read back as it was, whatever follows it on
/// the wire, provided that its text is ASCII and holds no newline.
pub proof fn lemma_line_round_trip(text: Seq<char>, rest: Seq<u8>)
    requires
        is_line(text),
    ensures
        parse_line(line_frame(text) + rest) == Some((text, line_frame(text).len())),
        line_frame(text).len() == text.len() + 1,
{
    let input = line_frame(text) + rest;
    let n = text.len() as int;
    is_ascii_chars_encode_utf8(text);
    assert forall|i: int| 0 <= i < n implies input[i] != 10 by {
        assert(input[i] == encode_utf8(text)[i]);
        assert(text[i] != '\n');
    }
    assert(input[n] == 10);
    lemma_line_len_is(input, n);
    assert(chars_of_bytes(input.take(n)) =~= text) by {
        assert forall|i: int| 0 <= i < n implies chars_of_bytes(input.take(n))[i] == text[i] by {
            assert(input.take(n)[i] == encode_utf8(text)[i]);
        }
    }
}

/// Some lines, framed one after the other, are read back as they were,
/// whatever follows them on the wire.
pub proof fn lemma_lines_round_trip(lines: Seq<Seq<char>>, rest: Seq<u8>)
    requires
        forall|i: int| 0 <= i < lines.len() ==> is_line(#[trigger] lines[i]),
    ensures
        parse_lines(lines_frame(lines) + rest, lines.len()) == Some(
            (lines, lines_frame(lines).len()),
        ),
    decreases lines.len(),
{
    if lines.len() > 0 {
        let init = lines.drop_last();
        let last = lines.last();
        let input = lines_frame(lines) + rest;
        assert(input == lines_frame(init) + (line_frame(last) + rest));
        lemma_lines_round_trip(init, line_frame(last) + rest);
        let used = lines_frame(init).len() as int;
        assert(input.skip(used) == line_frame(last) + rest);
        lemma_line_round_trip(last, rest);
        assert(init.push(last) == lines);
    }
}

/// A listing that was framed is received as it was, whatever follows it on
/// the wire, provided that each entry is ASCII and holds no newline.
pub proof fn lemma_list_round_trip(list: Seq<Seq<char>>, rest: Seq<u8>)
    requires
        list.len() <= u64::MAX,
        forall|i: int| 0 <= i < list.len() ==> is_line(#[trigger] list[i]),
    ensures
        parse_list(list_frame(list) + rest) == Some((list, list_frame(list).len())),
{
    let input = list_frame(list) + rest;
    lemma_be_value_of_bytes(list.len() as u64);
    assert(input.take(8) == be_bytes(list.len() as u64));
    assert(input.skip(8) == lines_frame(list) + rest);
    lemma_lines_round_trip(list, rest);
}

/// Appends the bytes of `src` to `out`.
fn append_bytes(out: &mut Vec<u8>, src: &[u8])
    ensures
        final(out)@ == old(out)@ + src@,
{
    let mut i: usize = 0;
    while i < src.len()
        invariant
            i <= src.len(),
            out@ == old(out)@ + src@.take(i as int),
        decreases src.len() - i,
    {
        out.push(src[i]);
        i += 1;
    }
    assert(src@.take(src.len() as int) == src@);
}

/// Reads the size of a file, or the count of a listing, from the head of the
/// input. `None` while fewer than eight bytes are there.
pub fn read_size(input: &[u8]) -> (r: Option<u64>)
    ensures
        match parse_size(input@) {
            Some(n) => r == Some(n as u64) && n <= u64::MAX,
            None => r is None,
        },
{
    if input.len() < 8 {
        return None;
    }
    let arr: [u8; 8] = [
        input[0],
        input[1],
        input[2],
        input[3],
        input[4],
        input[5],
        input[6],
        input[7],
    ];
    proof {
        assert(arr@ =~= input@.take(8));
        lemma_be_bytes_of_value(arr@);
    }
    Some(bytes_to_u64(arr))
}

/// Frames a file for the wire: its length, then its bytes.
pub fn send_file(data: &[u8]) -> (frame: Vec<u8>)
    ensures
        frame@ == blob_frame(data@),
{
    let mut frame: Vec<u8> = Vec::new();
    let size = u64_as_bytes(data.len() as u64);
    append_bytes(&mut frame, size.as_slice());
    append_bytes(&mut frame, data);
    frame
}

/// Receives a file from the head of the input, together with the number of
/// bytes that it took. `None` while the input is shorter than the length it
/// declares: more bytes have to arrive first.
pub fn recv_file(input: &[u8]) -> (r: Option<(Vec<u8>, usize)>)
    ensures
        match parse_blob(input@) {
            Some((data, used)) => r matches Some((v, n)) && v@ == data && n == used && n
                <= input@.len(),
            None => r is None,
        },
{
    let size = match read_size(input) {
        Some(size) => size,
        None => {
            return None;
        },
    };
    let rest = input.len() - 8;
    if size > rest as u64 {
        return None;
    }
    let end: usize = 8 + size as usize;
    let mut data: Vec<u8> = Vec::new();
    let mut i: usize = 8;
    while i < end
        invariant
            8 <= i <= end <= input.len(),
            data@ == input@.subrange(8, i as int),
        decreases end - i,
    {
        data.push(input[i]);
        i += 1;
    }
    Some((data, end))
}

/// Reads a line from the head of the input: the text in front of the first
/// newline, each byte taken as one character, and the number of bytes that
/// it took, the newline included. `None` while the input holds no newline.
pub fn read_line(input: &[u8]) -> (r: Option<(String, usize)>)
    ensures
        match parse_line(input@) {
            Some((text, used)) => r matches Some((s, n)) && s@ == text && n == used && n
                <= input@.len(),
            None => r is None,
        },
{
    let mut buf: Vec<char> = Vec::new();
    let mut i: usize = 0;
    while i < input.len() && input[i] != 10
        invariant
            i <= input.len(),
            forall|k: int| 0 <= k < i ==> input@[k] != 10,
            buf@ == chars_of_bytes(input@.take(i as int)),
        decreases input.len() - i,
    {
        buf.push(input[i] as char);
        i += 1;
        assert(buf@ =~= chars_of_bytes(input@.take(i as int)));
    }
    proof {
        lemma_line_len_is(input@, i as int);
    }
    if i < input.len() {
        Some((string_of(buf.as_slice()), i + 1))
    } else {
        None
    }
}

/// Frames a line for the wire: the bytes of the text, then a newline.
pub fn write_line(text: &str) -> (frame: Vec<u8>)
    ensures
        frame@ == line_frame(text@),
{
    let mut frame: Vec<u8> = Vec::new();
    append_bytes(&mut frame, text.as_bytes());
    frame.push(10);
    frame
}

/// Frames a listing for the wire: the number of entries, then one line for
/// each.
pub fn send_list_file(list: &Vec<String>) -> (frame: Vec<u8>)
    ensures
        frame@ == list_frame(list.deep_view()),
{
    let mut frame: Vec<u8> = Vec::new();
    let count = u64_as_bytes(list.len() as u64);
    append_bytes(&mut frame, count.as_slice());
    let ghost lines = list.deep_view();
    let mut i: usize = 0;
    while i < list.len()
        invariant
            i <= list.len(),
            lines == list.deep_view(),
            frame@ == be_bytes(list.len() as u64) + lines_frame(lines.take(i as int)),
        decreases list.len() - i,
    {
        proof {
            let upto = lines.take(i + 1);
            assert(upto.drop_last() == lines.take(i as int));
            assert(upto.last() == list@[i as int]@);
        }
        append_bytes(&mut frame, list[i].as_str().as_bytes());
        frame.push(10);
        i += 1;
    }
    assert(lines.take(list.len() as int) == lines);
    frame
}

/// Receives a listing from the head of the input, together with the number
/// of bytes that it took. `None` while the input holds fewer lines than it
/// declares: more bytes have to arrive first.
pub fn recv_list_file(input: &[u8]) -> (r: Option<(Vec<String>, usize)>)
    ensures
        match parse_list(input@) {
            Some((lines, used)) => r matches Some((v, n)) && v.deep_view() == lines && n == used
                && n <= input@.len(),
            None => r is None,
        },
{
    let count = match read_size(input) {
        Some(count) => count,
        None => {
            return None;
        },
    };
    let body = vstd::slice::slice_subrange(input, 8, input.len());
    assert(body@ == input@.skip(8));
    let mut list: Vec<String> = Vec::new();
    let mut pos: usize = 0;
    let mut k: u64 = 0;
    assert(list.deep_view() == Seq::<Seq<char>>::empty());
    while k < count
        invariant
            k <= count,
            pos <= body.len(),
            body@ == input@.skip(8),
            parse_size(input@) == Some(count as nat),
            parse_lines(body@, k as nat) == Some((list.deep_view(), pos as nat)),
        decreases count - k,
    {
        let tail = vstd::slice::slice_subrange(body, pos, body.len());
        assert(tail@ == body@.skip(pos as int));
        match read_line(tail) {
            None => {
                proof {
                    assert(parse_lines(body@, (k + 1) as nat) is None);
                    lemma_parse_lines_prefix(body@, (k + 1) as nat, count as nat);
                }
                return None;
            },
            Some((line, used)) => {
                proof {
                    let before = list.deep_view();
                    assert(Seq::new(list@.len() + 1, |j: int| list@.push(line)[j].deep_view())
                        == before.push(line@));
                }
                list.push(line);
                pos = pos + used;
                k += 1;
            },
        }
    }
    Some((list, 8 + pos))
}

/// Where the input holds fewer than `few` lines, it holds fewer than `many`.
pub proof fn lemma_parse_lines_prefix(input: Seq<u8>, few: nat, many: nat)
    requires
        few <= many,
        parse_lines(input, few) is None,
    ensures
        parse_lines(input, many) is None,
    decreases many,
{
    if few < many {
        lemma_parse_lines_prefix(input, few, (many - 1) as nat);
    }
}

/// A text without the slashes that follow a slash.
pub open spec fn collapse_slashes(s: Seq<char>) -> Seq<char>
    decreases s.len(),
{
    if s.len() == 0 {
        s
    } else {
        let init = collapse_slashes(s.drop_last());
        if s.len() >= 2 && s[s.len() - 2] == '/' && s.last() == '/' {
            init
        } else {
            init.push(s.last())
        }
    }
}

/// A text without the slash at its end, if it ends in one.
pub open spec fn strip_slash(s: Seq<char>) -> Seq<char> {
    if s.len() > 0 && s.last() == '/' {
        s.drop_last()
    } else {
        s
    }
}

/// A text without its occurrences of `./`, found from left to right; what
/// the removal brings together is not looked at again.
pub open spec fn remove_dot_slash(s: Seq<char>) -> Seq<char>
    decreases s.len(),
{
    if s.len() < 2 {
        s
    } else if s[0] == '.' && s[1] == '/' {
        remove_dot_slash(s.skip(2))
    } else {
        seq![s[0]] + remove_dot_slash(s.skip(1))
    }
}

/// A path made tidy for display: repeated slashes collapsed, one slash at
/// the end stripped, and each `./` removed.
pub open spec fn beautify(path: Seq<char>) -> Seq<char> {
    remove_dot_slash(strip_slash(collapse_slashes(path)))
}

/// Remove slash in double, remove slash at ends, and remove each `./`.
pub fn beautify_path(path: &str) -> (r: String)
    ensures
        r@ == beautify(path@),
{
    let chars = chars_of(path);
    let tidy = beautify_chars(chars.as_slice());
    string_of(tidy.as_slice())
}

/// `beautify_path` on characters.
pub fn beautify_chars(chars: &[char]) -> (r: Vec<char>)
    ensures
        r@ == beautify(chars@),
{
    let n = chars.len();
    let mut kept: Vec<char> = Vec::new();
    let mut i: usize = 0;
    while i < n
        invariant
            n == chars.len(),
            i <= n,
            kept@ == collapse_slashes(chars@.take(i as int)),
        decreases n - i,
    {
        proof {
            assert(chars@.take(i + 1).drop_last() == chars@.take(i as int));
        }
        if !(i >= 1 && chars[i - 1] == '/' && chars[i] == '/') {
            kept.push(chars[i]);
        }
        i += 1;
    }
    assert(chars@.take(n as int) == chars@);
    if kept.len() > 0 && kept[kept.len() - 1] == '/' {
        kept.pop();
    }
    let m = kept.len();
    let mut out: Vec<char> = Vec::new();
    let mut j: usize = 0;
    assert(kept@.skip(0) == kept@);
    while j < m
        invariant
            m == kept.len(),
            j <= m,
            remove_dot_slash(kept@) == out@ + remove_dot_slash(kept@.skip(j as int)),
        decreases m - j,
    {
        let ghost rest = kept@.skip(j as int);
        if m - j >= 2 && kept[j] == '.' && kept[j + 1] == '/' {
            assert(rest.skip(2) == kept@.skip(j + 2));
            j += 2;
        } else {
            proof {
                if m - j >= 2 {
                    assert(rest.skip(1) == kept@.skip(j + 1));
                } else {
                    assert(rest =~= seq![kept@[j as int]]);
                    assert(kept@.skip(j + 1).len() == 0);
                }
            }
            out.push(kept[j]);
            j += 1;
        }
    }
    assert(kept@.skip(m as int).len() == 0);
    out
}

/// The segments of a path: what stands between its slashes, without the
/// empty pieces.
pub open spec fn segments(path: Seq<char>) -> Seq<Seq<char>> {
    pieces(Separator::Slash, path)
}

/// Whether a segment stands for the directory it is in.
pub open spec fn is_dot(segment: Seq<char>) -> bool {
    segment == seq!['.']
}

/// Whether a segment stands for the directory above.
pub open spec fn is_dot_dot(segment: Seq<char>) -> bool {
    segment == seq!['.', '.']
}

/// The segments that remain when each `.` is dropped and each `..` takes
/// away the segment kept last; at the root `..` takes away nothing.
pub open spec fn resolve_dots(segs: Seq<Seq<char>>) -> Seq<Seq<char>>
    decreases segs.len(),
{
    if segs.len() == 0 {
        segs
    } else {
        let init = resolve_dots(segs.drop_last());
        let last = segs.last();
        if is_dot(last) {
            init
        } else if is_dot_dot(last) {
            if init.len() > 0 {
                init.drop_last()
            } else {
                init
            }
        } else {
            init.push(last)
        }
    }
}

/// The path of some segments: a slash in front of each. The path of no
/// segment is empty.
pub open spec fn join_segments(segs: Seq<Seq<char>>) -> Seq<char>
    decreases segs.len(),
{
    if segs.len() == 0 {
        Seq::empty()
    } else {
        join_segments(segs.drop_last()) + seq!['/'] + segs.last()
    }
}

/// The canonical form of an absolute path, found from its text alone.
pub open spec fn canonical(path: Seq<char>) -> Seq<char> {
    join_segments(resolve_dots(segments(path)))
}

/// Whether a path starts at the root.
pub open spec fn is_absolute(path: Seq<char>) -> bool {
    path.len() > 0 && path[0] == '/'
}

/// The canonical form of a path; one that does not start at the root is
/// taken to start in the directory `current`.
pub open spec fn canonical_in(path: Seq<char>, current: Seq<char>) -> Seq<char> {
    if is_absolute(path) {
        canonical(path)
    } else {
        canonical(current + seq!['/'] + path)
    }
}

/// The segment `..` is not the segment `.`.
pub proof fn lemma_dot_segments(segment: Seq<char>)
    ensures
        is_dot(segment) ==> segment.len() == 1 && !is_dot_dot(segment),
        is_dot_dot(segment) ==> segment.len() == 2 && !is_dot(segment),
{
    assert(seq!['.'].len() == 1);
    assert(seq!['.', '.'].len() == 2);
}

/// Whether a segment is a name: not empty, free of slashes, and neither `.`
/// nor `..`.
pub open spec fn is_name(segment: Seq<char>) -> bool {
    is_piece(Separator::Slash, segment) && !is_dot(segment) && !is_dot_dot(segment)
}

/// Whether each of the segments is a name.
pub open spec fn all_names(segs: Seq<Seq<char>>) -> bool {
    forall|i: int| 0 <= i < segs.len() ==> is_name(#[trigger] segs[i])
}

/// What `resolve_dots` leaves of the segments of a path are names.
pub proof fn lemma_resolve_dots_names(segs: Seq<Seq<char>>)
    requires
        forall|i: int| 0 <= i < segs.len() ==> is_piece(Separator::Slash, #[trigger] segs[i]),
    ensures
        all_names(resolve_dots(segs)),
    decreases segs.len(),
{
    if segs.len() > 0 {
        let init = segs.drop_last();
        assert forall|i: int| 0 <= i < init.len() implies is_piece(
            Separator::Slash,
            #[trigger] init[i],
        ) by {
            assert(init[i] == segs[i]);
        }
        lemma_resolve_dots_names(init);
        let kept = resolve_dots(init);
        let all = resolve_dots(segs);
        assert forall|i: int| 0 <= i < all.len() implies is_name(#[trigger] all[i]) by {
            if i < kept.len() {
                assert(all[i] == kept[i]);
            } else {
                assert(all[i] == segs.last());
                assert(is_piece(Separator::Slash, segs[segs.len() - 1]));
            }
        }
    }
}

/// Names at the end of a path stay where they are.
pub proof fn lemma_resolve_dots_append(a: Seq<Seq<char>>, b: Seq<Seq<char>>)
    requires
        all_names(b),
    ensures
        resolve_dots(a + b) == resolve_dots(a) + b,
    decreases b.len(),
{
    if b.len() == 0 {
        assert(a + b == a);
        assert(resolve_dots(a) + b == resolve_dots(a));
    } else {
        let init = b.drop_last();
        assert forall|i: int| 0 <= i < init.len() implies is_name(#[trigger] init[i]) by {
            assert(init[i] == b[i]);
        }
        lemma_resolve_dots_append(a, init);
        assert((a + b).drop_last() == a + init);
        assert((a + b).last() == b.last());
        assert(is_name(b[b.len() - 1]));
        assert((resolve_dots(a) + init).push(b.last()) == resolve_dots(a) + b);
    }
}

/// The path that is made of names has those names as its segments.
pub proof fn lemma_segments_of_join(segs: Seq<Seq<char>>)
    requires
        forall|i: int| 0 <= i < segs.len() ==> is_piece(Separator::Slash, #[trigger] segs[i]),
    ensures
        segments(join_segments(segs)) == segs,
    decreases segs.len(),
{
    if segs.len() > 0 {
        let init = segs.drop_last();
        let last = segs.last();
        assert forall|i: int| 0 <= i < init.len() implies is_piece(
            Separator::Slash,
            #[trigger] init[i],
        ) by {
            assert(init[i] == segs[i]);
        }
        lemma_segments_of_join(init);
        assert(is_piece(Separator::Slash, segs[segs.len() - 1]));
        lemma_pieces_concat(Separator::Slash, join_segments(init), '/', last);
        lemma_pieces_single(Separator::Slash, last);
        assert(init + seq![last] == segs);
    }
}

/// A canonical path is made of names only, and is its own canonical form:
/// to bring a path into canonical form twice changes nothing.
pub proof fn lemma_canonical(path: Seq<char>)
    ensures
        segments(canonical(path)) == resolve_dots(segments(path)),
        all_names(segments(canonical(path))),
        canonical(canonical(path)) == canonical(path),
{
    let segs = segments(path);
    lemma_pieces_are_pieces(Separator::Slash, path);
    lemma_resolve_dots_names(segs);
    let kept = resolve_dots(segs);
    assert forall|i: int| 0 <= i < kept.len() implies is_piece(
        Separator::Slash,
        #[trigger] kept[i],
    ) by {
        assert(is_name(kept[i]));
    }
    lemma_segments_of_join(kept);
    lemma_resolve_dots_append(Seq::empty(), kept);
    assert(Seq::<Seq<char>>::empty() + kept == kept);
}

/// The canonical form of the path that the characters spell, taken as
/// absolute.
pub fn canonical_chars(chars: &[char]) -> (r: String)
    ensures
        r@ == canonical(chars@),
{
    let segs = split_chars(Separator::Slash, chars);
    let ghost all = segs.deep_view();
    let mut kept: Vec<String> = Vec::new();
    let mut i: usize = 0;
    assert(kept.deep_view() =~= resolve_dots(all.take(0)));
    while i < segs.len()
        invariant
            i <= segs.len(),
            all == segs.deep_view(),
            kept.deep_view() == resolve_dots(all.take(i as int)),
        decreases segs.len() - i,
    {
        let ghost before = kept.deep_view();
        proof {
            assert(all.take(i + 1).drop_last() == all.take(i as int));
            assert(all.take(i + 1).last() == segs@[i as int]@);
            reveal_strlit(".");
            reveal_strlit("..");
            assert("."@ =~= seq!['.']);
            assert(".."@ =~= seq!['.', '.']);
        }
        let seg = segs[i].as_str();
        if str_eq(seg, ".") {
        } else if str_eq(seg, "..") {
            kept.pop();
            assert(kept.deep_view() =~= if before.len() > 0 {
                before.drop_last()
            } else {
                before
            });
        } else {
            kept.push(segs[i].clone());
            assert(kept.deep_view() =~= before.push(segs@[i as int]@));
        }
        i += 1;
    }
    assert(all.take(segs.len() as int) == all);
    let ghost parts = kept.deep_view();
    let mut out = String::new();
    let mut j: usize = 0;
    while j < kept.len()
        invariant
            j <= kept.len(),
            parts == kept.deep_view(),
            out@ == join_segments(parts.take(j as int)),
        decreases kept.len() - j,
    {
        proof {
            assert(parts.take(j + 1).drop_last() == parts.take(j as int));
            assert(parts.take(j + 1).last() == kept@[j as int]@);
        }
        out.push('/');
        out.append(kept[j].as_str());
        j += 1;
    }
    assert(parts.take(kept.len() as int) == parts);
    out
}

/// Return the canonical form of a path. Only its text is looked at: `.` and
/// empty segments go, and `..` takes the segment before it along. A path
/// that does not start at the root is taken to start in `current_dir`.
pub fn canonicalize(path: &str, current_dir: &str) -> (r: String)
    ensures
        r@ == canonical_in(path@, current_dir@),
{
    let p = chars_of(path);
    if p.len() > 0 && p[0] == '/' {
        canonical_chars(p.as_slice())
    } else {
        let mut full = chars_of(current_dir);
        full.push('/');
        let mut i: usize = 0;
        while i < p.len()
            invariant
                i <= p.len(),
                full@ == current_dir@ + seq!['/'] + p@.take(i as int),
            decreases p.len() - i,
        {
            full.push(p[i]);
            i += 1;
        }
        assert(p@.take(p.len() as int) == p@);
        canonical_chars(full.as_slice())
    }
}

} // verus!
