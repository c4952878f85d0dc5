//! Characters, strings and a character stream shared by the lexer and the
//! grammar reader.
use vstd::prelude::*;
use vstd::utf8::encode_utf8;

verus! {

/// What `char::is_alphabetic` answers for `c`: whether `c` has the Unicode
/// `Alphabetic` property.
pub uninterp spec fn alphabetic(c: char) -> bool;

/// What `char::is_alphanumeric` answers for `c`.
pub uninterp spec fn alphanumeric(c: char) -> bool;

/// Whether `c` has the Unicode `White_Space` property, which is what
/// `char::is_whitespace` answers: the code points that the Unicode Character
/// Database (PropList.txt) lists for it.
pub open spec fn whitespace(c: char) -> bool {
    ||| ('\u{9}' <= c && c <= '\u{D}')
    ||| c == ' '
    ||| c == '\u{85}'
    ||| c == '\u{A0}'
    ||| c == '\u{1680}'
    ||| ('\u{2000}' <= c && c <= '\u{200A}')
    ||| c == '\u{2028}'
    ||| c == '\u{2029}'
    ||| c == '\u{202F}'
    ||| c == '\u{205F}'
    ||| c == '\u{3000}'
}

pub open spec fn is_ascii_letter(c: char) -> bool {
    ('a' <= c && c <= 'z') || ('A' <= c && c <= 'Z')
}

pub open spec fn is_ascii_digit(c: char) -> bool {
    '0' <= c && c <= '9'
}

/// Calls `char::is_alphabetic`. Its documentation says the result is the
/// Unicode `Alphabetic` property; the contract names that result and states
/// only what the property is on ASCII: exactly the Latin letters.
#[verifier::external_body]
pub(crate) fn char_is_alphabetic(c: char) -> (b: bool)
    ensures
        b == alphabetic(c),
        c <= '\x7F' ==> (b <==> is_ascii_letter(c)),
{
    c.is_alphabetic()
}

/// Calls `char::is_alphanumeric`, which the documentation defines as
/// `is_alphabetic() || is_numeric()`. The contract names the result and
/// states that alphabetic characters are alphanumeric, that on ASCII exactly
/// the Latin letters and the digits are, and that no `White_Space` character
/// is (those are separators and controls, neither alphabetic nor numeric).
#[verifier::external_body]
pub(crate) fn char_is_alphanumeric(c: char) -> (b: bool)
    ensures
        b == alphanumeric(c),
        alphabetic(c) ==> b,
        c <= '\x7F' ==> (b <==> is_ascii_letter(c) || is_ascii_digit(c)),
        whitespace(c) ==> !b,
{
    c.is_alphanumeric()
}

/// Whether `c` has the Unicode `White_Space` property, as
/// `char::is_whitespace` answers.
pub fn char_is_whitespace(c: char) -> (b: bool)
    ensures
        b == whitespace(c),
{
    ('\u{9}' <= c && c <= '\u{D}') || c == ' ' || c == '\u{85}' || c == '\u{A0}' || c == '\u{1680}'
        || ('\u{2000}' <= c && c <= '\u{200A}') || c == '\u{2028}' || c == '\u{2029}' || c == '\u{202F}'
        || c == '\u{205F}' || c == '\u{3000}'
}

/// Calls `String::push`, which appends one character.
#[verifier::external_body]
pub(crate) fn push_char(s: &mut String, c: char)
    ensures
        final(s)@ == old(s)@.push(c),
{
    s.push(c)
}

/// The characters of each string.
pub open spec fn strings_view(v: Seq<String>) -> Seq<Seq<char>> {
    v.map_values(|s: String| s@)
}

/// The characters of a string slice, in order.
pub fn str_chars(s: &str) -> (v: Vec<char>)
    ensures
        v@ == s@,
{
    let mut v: Vec<char> = Vec::new();
    for c in it: s.chars()
        invariant
            v@ == it.seq().take(it.index() as int),
    {
        v.push(c);
    }
    proof {
        broadcast use vstd::string::group_string_axioms;
    }
    v
}

/// A string holding the given characters.
pub fn chars_to_string(v: &[char]) -> (s: String)
    ensures
        s@ == v@,
{
    let mut s = String::new();
    let mut i: usize = 0;
    while i < v.len()
        invariant
            i <= v@.len(),
            s@ == v@.take(i as int),
        decreases v@.len() - i,
    {
        push_char(&mut s, v[i]);
        i = i + 1;
        assert(s@ =~= v@.take(i as int));
    }
    assert(v@.take(v@.len() as int) =~= v@);
    s
}

/// A string holding the characters of `s` followed by those of `t`.
pub fn concat_str(s: &str, t: &str) -> (r: String)
    ensures
        r@ == s@ + t@,
{
    let a = str_chars(s);
    let b = str_chars(t);
    let mut out = chars_to_string(a.as_slice());
    let mut i: usize = 0;
    while i < b.len()
        invariant
            i <= b@.len(),
            b@ == t@,
            out@ == s@ + b@.take(i as int),
        decreases b@.len() - i,
    {
        push_char(&mut out, b[i]);
        i = i + 1;
        assert(out@ =~= s@ + b@.take(i as int));
    }
    assert(b@.take(b@.len() as int) =~= b@);
    out
}

/// The number of bytes of the UTF-8 encoding of `s`, which is what `str::len`
/// counts.
pub open spec fn byte_len(s: Seq<char>) -> nat {
    encode_utf8(s).len()
}

pub proof fn lemma_byte_len_concat(a: Seq<char>, b: Seq<char>)
    ensures
        byte_len(a + b) == byte_len(a) + byte_len(b),
    decreases a.len(),
{
    if a.len() == 0 {
        assert(a + b =~= b);
    } else {
        lemma_byte_len_concat(a.drop_first(), b);
        assert((a + b).drop_first() =~= a.drop_first() + b);
    }
}

pub proof fn lemma_byte_len_at_least_len(a: Seq<char>)
    ensures
        byte_len(a) >= a.len(),
    decreases a.len(),
{
    if a.len() > 0 {
        lemma_byte_len_at_least_len(a.drop_first());
    }
}

/// A stream of characters read from the front, the way the grammar reader
/// walks through its input.
pub struct CharStream {
    chars: Vec<char>,
    pos: usize,
}

impl CharStream {
    #[verifier::type_invariant]
    spec fn inv(self) -> bool {
        self.pos <= self.chars@.len()
    }
}

impl View for CharStream {
    type V = Seq<char>;

    /// The characters not read yet.
    closed spec fn view(&self) -> Seq<char> {
        self.chars@.skip(self.pos as int)
    }
}

impl CharStream {
    pub fn new(s: &str) -> (r: CharStream)
        ensures
            r@ == s@,
    {
        let chars = str_chars(s);
        let r = CharStream { chars, pos: 0 };
        assert(r.chars@.skip(0) =~= r.chars@);
        r
    }

    pub fn from_chars(chars: Vec<char>) -> (r: CharStream)
        ensures
            r@ == chars@,
    {
        let r = CharStream { chars, pos: 0 };
        assert(r.chars@.skip(0) =~= r.chars@);
        r
    }

    /// Reads one character.
    pub fn next(&mut self) -> (c: Option<char>)
        ensures
            old(self)@.len() == 0 ==> c is None && final(self)@ == old(self)@,
            old(self)@.len() > 0 ==> c == Some(old(self)@[0]) && final(self)@ == old(self)@.drop_first(),
    {
        proof {
            use_type_invariant(&*self);
        }
        if self.pos < self.chars.len() {
            let c = self.chars[self.pos];
            self.pos = self.pos + 1;
            assert(self.chars@.skip(self.pos as int) =~= old(self)@.drop_first());
            Some(c)
        } else {
            None
        }
    }

    /// The next character, left unread.
    pub fn peek(&self) -> (c: Option<char>)
        ensures
            self@.len() == 0 ==> c is None,
            self@.len() > 0 ==> c == Some(self@[0]),
    {
        proof {
            use_type_invariant(self);
        }
        if self.pos < self.chars.len() {
            Some(self.chars[self.pos])
        } else {
            None
        }
    }
}

} // verus!
