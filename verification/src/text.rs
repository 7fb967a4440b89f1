//! Text as sequences of characters: whitespace, tokens, and the conversions
//! between strings and character vectors.

use vstd::prelude::*;

verus! {

/// `String::push` of the standard library: the character is appended to the
/// end of the string and nothing else changes.
pub assume_specification[ String::push ](s: &mut String, c: char)
    ensures
        final(s)@ == old(s)@.push(c),
;

/// Whether a character separates tokens: the characters with the Unicode
/// property `White_Space`.
pub open spec fn is_space(c: char) -> bool {
    let u = c as u32;
    ||| 0x09 <= u <= 0x0D
    ||| u == 0x20
    ||| u == 0x85
    ||| u == 0xA0
    ||| u == 0x1680
    ||| 0x2000 <= u <= 0x200A
    ||| u == 0x2028
    ||| u == 0x2029
    ||| u == 0x202F
    ||| u == 0x205F
    ||| u == 0x3000
}

/// What separates the pieces of a text.
#[derive(Clone, Copy, Debug, PartialEq, Eq, Structural)]
pub enum Separator {
    /// Any whitespace character: between the tokens of a line.
    Whitespace,
    /// The character `/`: between the segments of a path.
    Slash,
    /// The character `\n`: between the lines of a text.
    Newline,
}

impl Separator {
    /// Whether the character is one that separates.
    pub open spec fn splits(self, c: char) -> bool {
        match self {
            Separator::Whitespace => is_space(c),
            Separator::Slash => c == '/',
            Separator::Newline => c == '\n',
        }
    }

    /// Whether the character is one that separates.
    pub fn separates(&self, c: char) -> (r: bool)
        ensures
            r == self.splits(c),
    {
        match self {
            Separator::Whitespace => is_whitespace(c),
            Separator::Slash => c == '/',
            Separator::Newline => c == '\n',
        }
    }
}

/// Whether no character of the text separates.
pub open spec fn free_of(sep: Separator, s: Seq<char>) -> bool {
    forall|i: int| 0 <= i < s.len() ==> !sep.splits(#[trigger] s[i])
}

/// Whether the text is one piece: not empty, and free of separators.
pub open spec fn is_piece(sep: Separator, s: Seq<char>) -> bool {
    s.len() > 0 && free_of(sep, s)
}

/// Whether the text is one token: not empty, and free of whitespace.
pub open spec fn is_token(s: Seq<char>) -> bool {
    is_piece(Separator::Whitespace, s)
}

/// The length of the longest prefix that holds no separator.
pub open spec fn run_len(sep: Separator, s: Seq<char>) -> nat
    decreases s.len(),
{
    if s.len() == 0 || sep.splits(s[0]) {
        0
    } else {
        1 + run_len(sep, s.skip(1))
    }
}

/// The pieces of a text: its maximal runs of characters that are not
/// separators, in order. No piece is empty.
pub open spec fn pieces(sep: Separator, s: Seq<char>) -> Seq<Seq<char>>
    decreases s.len(),
{
    if s.len() == 0 {
        Seq::empty()
    } else if sep.splits(s[0]) {
        pieces(sep, s.skip(1))
    } else {
        proof {
            lemma_run_len(sep, s);
        }
        let n = run_len(sep, s) as int;
        seq![s.take(n)] + pieces(sep, s.skip(n))
    }
}

/// The tokens of a line: the pieces between its whitespace.
pub open spec fn tokens(s: Seq<char>) -> Seq<Seq<char>> {
    pieces(Separator::Whitespace, s)
}

/// `run_len` stays within the text, covers no separator, and stops at the
/// end of the text or in front of a separator.
pub proof fn lemma_run_len(sep: Separator, s: Seq<char>)
    ensures
        run_len(sep, s) <= s.len(),
        s.len() > 0 && !sep.splits(s[0]) ==> run_len(sep, s) > 0,
        free_of(sep, s.take(run_len(sep, s) as int)),
        run_len(sep, s) < s.len() ==> sep.splits(s[run_len(sep, s) as int]),
    decreases s.len(),
{
    if s.len() == 0 || sep.splits(s[0]) {
    } else {
        let rest = s.skip(1);
        lemma_run_len(sep, rest);
        let n = run_len(sep, s) as int;
        assert forall|i: int| 0 <= i < n implies !sep.splits(#[trigger] s.take(n)[i]) by {
            if i > 0 {
                assert(s.take(n)[i] == rest.take(n - 1)[i - 1]);
            }
        }
    }
}

/// A prefix of `n` characters without a separator, which ends the text or
/// stands in front of a separator, is the first run.
pub proof fn lemma_run_len_is(sep: Separator, s: Seq<char>, n: int)
    requires
        0 <= n <= s.len(),
        free_of(sep, s.take(n)),
        n < s.len() ==> sep.splits(s[n]),
    ensures
        run_len(sep, s) == n,
    decreases n,
{
    if n == 0 {
    } else {
        assert(s.take(n)[0] == s[0]);
        let rest = s.skip(1);
        assert forall|i: int| 0 <= i < n - 1 implies !sep.splits(
            #[trigger] rest.take(n - 1)[i],
        ) by {
            assert(rest.take(n - 1)[i] == s.take(n)[i + 1]);
        }
        lemma_run_len_is(sep, rest, n - 1);
    }
}

/// A text that is one piece has itself as its only piece.
pub proof fn lemma_pieces_single(sep: Separator, w: Seq<char>)
    requires
        is_piece(sep, w),
    ensures
        pieces(sep, w) == seq![w],
{
    assert(w.take(w.len() as int) == w);
    lemma_run_len_is(sep, w, w.len() as int);
    assert(!sep.splits(w[0]));
    assert(pieces(sep, w.skip(w.len() as int)) == Seq::<Seq<char>>::empty());
}

/// A piece, a separator and more text: the piece, then the pieces of the
/// rest.
pub proof fn lemma_pieces_cons(sep: Separator, w: Seq<char>, c: char, rest: Seq<char>)
    requires
        is_piece(sep, w),
        sep.splits(c),
    ensures
        pieces(sep, w + seq![c] + rest) == seq![w] + pieces(sep, rest),
{
    let s = w + seq![c] + rest;
    let n = w.len() as int;
    assert(s.take(n) == w);
    assert(s[n] == c);
    lemma_run_len_is(sep, s, n);
    assert(s[0] == w[0]);
    assert(!sep.splits(w[0]));
    let tail = s.skip(n);
    assert(tail[0] == c);
    assert(tail.skip(1) == rest);
    assert(pieces(sep, tail) == pieces(sep, rest));
}

/// The pieces of two texts with a separator between them are the pieces of
/// the first, then the pieces of the second.
pub proof fn lemma_pieces_concat(sep: Separator, a: Seq<char>, c: char, b: Seq<char>)
    requires
        sep.splits(c),
    ensures
        pieces(sep, a + seq![c] + b) == pieces(sep, a) + pieces(sep, b),
    decreases a.len(),
{
    let s = a + seq![c] + b;
    if a.len() == 0 {
        assert(s[0] == c);
        assert(s.skip(1) == b);
        assert(pieces(sep, a) + pieces(sep, b) == pieces(sep, b));
    } else if sep.splits(a[0]) {
        assert(s[0] == a[0]);
        assert(s.skip(1) == a.skip(1) + seq![c] + b);
        lemma_pieces_concat(sep, a.skip(1), c, b);
    } else {
        lemma_run_len(sep, a);
        let n = run_len(sep, a) as int;
        assert(s[0] == a[0]);
        assert(s.take(n) == a.take(n));
        if n < a.len() {
            assert(s[n] == a[n]);
        } else {
            assert(s[n] == c);
        }
        lemma_run_len_is(sep, s, n);
        assert(s.skip(n) == a.skip(n) + seq![c] + b);
        lemma_pieces_concat(sep, a.skip(n), c, b);
        assert(pieces(sep, s) == seq![a.take(n)] + (pieces(sep, a.skip(n)) + pieces(sep, b)));
        assert(pieces(sep, a) == seq![a.take(n)] + pieces(sep, a.skip(n)));
    }
}

/// Every piece of a text is not empty and holds no separator.
pub proof fn lemma_pieces_are_pieces(sep: Separator, s: Seq<char>)
    ensures
        forall|i: int|
            0 <= i < pieces(sep, s).len() ==> is_piece(sep, #[trigger] pieces(sep, s)[i]),
    decreases s.len(),
{
    let all = pieces(sep, s);
    if s.len() == 0 {
        assert(all.len() == 0);
    } else if sep.splits(s[0]) {
        lemma_pieces_are_pieces(sep, s.skip(1));
        assert(all == pieces(sep, s.skip(1)));
    } else {
        lemma_run_len(sep, s);
        let n = run_len(sep, s) as int;
        let tail = pieces(sep, s.skip(n));
        lemma_pieces_are_pieces(sep, s.skip(n));
        assert(all == seq![s.take(n)] + tail);
        assert forall|i: int| 0 <= i < all.len() implies is_piece(sep, #[trigger] all[i]) by {
            if i > 0 {
                assert(all[i] == tail[i - 1]);
            } else {
                assert(all[0] == s.take(n));
            }
        }
    }
}

/// Whether a character separates tokens.
pub fn is_whitespace(c: char) -> (r: bool)
    ensures
        r == is_space(c),
{
    let u: u32 = c as u32;
    (0x09 <= u && u <= 0x0D) || u == 0x20 || u == 0x85 || u == 0xA0 || u == 0x1680 || (0x2000 <= u
        && u <= 0x200A) || u == 0x2028 || u == 0x2029 || u == 0x202F || u == 0x205F || u == 0x3000
}

/// The characters of a string, in order.
pub fn chars_of(s: &str) -> (v: Vec<char>)
    ensures
        v@ == s@,
{
    broadcast use vstd::string::group_string_axioms;

    let mut v: Vec<char> = Vec::new();
    for c in it: s.chars()
        invariant
            it.seq() == s@,
            v@ == s@.take(it.index() as int),
    {
        v.push(c);
    }
    v
}

/// The string made of the given characters.
pub fn string_of(v: &[char]) -> (s: String)
    ensures
        s@ == v@,
{
    let mut s = String::new();
    let mut i: usize = 0;
    while i < v.len()
        invariant
            i <= v.len(),
            s@ == v@.take(i as int),
        decreases v.len() - i,
    {
        s.push(v[i]);
        i += 1;
    }
    s
}

/// The string made of the characters `v[from..to]`.
fn substring(v: &[char], from: usize, to: usize) -> (s: String)
    requires
        from <= to <= v.len(),
    ensures
        s@ == v@.subrange(from as int, to as int),
{
    let mut s = String::new();
    let mut i: usize = from;
    while i < to
        invariant
            from <= i <= to <= v.len(),
            s@ == v@.subrange(from as int, i as int),
        decreases to - i,
    {
        s.push(v[i]);
        i += 1;
    }
    s
}

/// Splits a sequence of characters into its pieces.
pub fn split_chars(sep: Separator, v: &[char]) -> (r: Vec<String>)
    ensures
        r.deep_view() == pieces(sep, v@),
{
    let n = v.len();
    let mut out: Vec<String> = Vec::new();
    let mut i: usize = 0;
    proof {
        assert(v@.skip(0) == v@);
        assert(out.deep_view() == Seq::<Seq<char>>::empty());
    }
    while i < n
        invariant
            n == v.len(),
            i <= n,
            pieces(sep, v@) == out.deep_view() + pieces(sep, v@.skip(i as int)),
        decreases n - i,
    {
        let ghost rest = v@.skip(i as int);
        if sep.separates(v[i]) {
            assert(rest.skip(1) == v@.skip(i + 1));
            i += 1;
        } else {
            let mut j: usize = i + 1;
            while j < n && !sep.separates(v[j])
                invariant
                    n == v.len(),
                    i < j <= n,
                    forall|k: int| i <= k < j ==> !sep.splits(#[trigger] v@[k]),
                decreases n - j,
            {
                j += 1;
            }
            let word = substring(v, i, j);
            proof {
                assert(rest.take(j - i) == v@.subrange(i as int, j as int));
                lemma_run_len_is(sep, rest, j - i);
                assert(rest.skip(j - i) == v@.skip(j as int));
                let before = out.deep_view();
                assert(out@.push(word).len() == before.len() + 1);
                assert(Seq::new(out@.len() + 1, |k: int| out@.push(word)[k].deep_view())
                    == before + seq![word@]);
            }
            out.push(word);
            i = j;
        }
    }
    proof {
        assert(v@.skip(n as int).len() == 0);
    }
    out
}

/// Splits a string into its pieces.
pub fn split(sep: Separator, s: &str) -> (r: Vec<String>)
    ensures
        r.deep_view() == pieces(sep, s@),
{
    let v = chars_of(s);
    split_chars(sep, v.as_slice())
}

/// Splits a string at whitespace into its tokens.
pub fn split_whitespace(s: &str) -> (r: Vec<String>)
    ensures
        r.deep_view() == tokens(s@),
{
    split(Separator::Whitespace, s)
}

/// Whether two strings hold the same characters.
pub fn str_eq(a: &str, b: &str) -> (r: bool)
    ensures
        r == (a@ == b@),
{
    broadcast use vstd::utf8::encode_utf8_decode_utf8;

    let x = a.as_bytes();
    let y = b.as_bytes();
    if x.len() != y.len() {
        return false;
    }
    let mut i: usize = 0;
    while i < x.len()
        invariant
            x@ == vstd::utf8::encode_utf8(a@),
            y@ == vstd::utf8::encode_utf8(b@),
            x.len() == y.len(),
            i <= x.len(),
            x@.take(i as int) == y@.take(i as int),
        decreases x.len() - i,
    {
        if x[i] != y[i] {
            return false;
        }
        assert(x@.take(i + 1) == x@.take(i as int).push(x@[i as int]));
        assert(y@.take(i + 1) == y@.take(i as int).push(y@[i as int]));
        i += 1;
    }
    assert(x@.take(x.len() as int) == x@);
    assert(y@.take(y.len() as int) == y@);
    assert(vstd::utf8::decode_utf8(x@) == a@);
    assert(vstd::utf8::decode_utf8(y@) == b@);
    true
}

} // verus!
