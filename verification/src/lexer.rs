//! Splitting an input text into the tokens that a grammar knows.
use vstd::prelude::*;

use crate::grammar::{GPart, Grammer, GrammerPart, TokenType};
use crate::text::{
    alphabetic, alphanumeric, byte_len, char_is_alphabetic, char_is_alphanumeric,
    char_is_whitespace, chars_to_string, is_ascii_digit, strings_view, lemma_byte_len_at_least_len,
    lemma_byte_len_concat, str_chars, whitespace,
};

verus! {

/// A token of an input text.
#[derive(Debug)]
pub enum Token {
    Symbol(String),
    Number(String),
    ID(String),
    END,
}

/// The mathematical value of a [`Token`].
pub enum TokenView {
    Symbol(Seq<char>),
    Number(Seq<char>),
    ID(Seq<char>),
    End,
}

impl View for Token {
    type V = TokenView;

    open spec fn view(&self) -> TokenView {
        match self {
            Token::Symbol(s) => TokenView::Symbol(s@),
            Token::Number(s) => TokenView::Number(s@),
            Token::ID(s) => TokenView::ID(s@),
            Token::END => TokenView::End,
        }
    }
}

pub open spec fn tokens_view(v: Seq<Token>) -> Seq<TokenView> {
    v.map_values(|t: Token| t@)
}

/// The text a token stands for; the end marker stands for `END`.
pub open spec fn token_value(t: TokenView) -> Seq<char> {
    match t {
        TokenView::Symbol(s) => s,
        TokenView::Number(s) => s,
        TokenView::ID(s) => s,
        TokenView::End => seq!['E', 'N', 'D'],
    }
}

/// Whether a token is accepted by a terminal or a base part of a grammar:
/// a symbol by the terminal of the same text, a number by `NUMBER`, an
/// identifier by `ID`.
pub open spec fn token_matches(t: TokenView, p: GPart) -> bool {
    match (t, p) {
        (TokenView::Symbol(s), GPart::Terminal(u)) => s == u,
        (TokenView::Number(_), GPart::Base(TokenType::Number)) => true,
        (TokenView::ID(_), GPart::Base(TokenType::ID)) => true,
        _ => false,
    }
}

impl Token {
    pub fn get_value(&self) -> (s: String)
        ensures
            s@ == token_value(self@),
    {
        match self {
            Token::Symbol(val) => val.clone(),
            Token::Number(val) => val.clone(),
            Token::ID(val) => val.clone(),
            Token::END => {
                let mut s = String::new();
                crate::text::push_char(&mut s, 'E');
                crate::text::push_char(&mut s, 'N');
                crate::text::push_char(&mut s, 'D');
                assert(s@ =~= seq!['E', 'N', 'D']);
                s
            },
        }
    }

    pub fn matches(&self, grammer_part: &GrammerPart) -> (b: bool)
        ensures
            b == token_matches(self@, grammer_part@),
    {
        match (self, grammer_part) {
            (Token::Symbol(s), GrammerPart::Terminal(t)) => *s == *t,
            (Token::Number(_), GrammerPart::Base(TokenType::Number)) => true,
            (Token::ID(_), GrammerPart::Base(TokenType::ID)) => true,
            _ => false,
        }
    }

    pub fn is_end(&self) -> (b: bool)
        ensures
            b == (self@ is End),
    {
        match self {
            Token::END => true,
            _ => false,
        }
    }
}

pub open spec fn is_prefix(p: Seq<char>, s: Seq<char>) -> bool {
    p.len() <= s.len() && s.take(p.len() as int) == p
}

/// `t` is a terminal that begins `s`, and no terminal that begins `s` is
/// longer in bytes.
pub open spec fn is_longest_terminal(terms: Set<Seq<char>>, s: Seq<char>, t: Seq<char>) -> bool {
    &&& terms.contains(t)
    &&& is_prefix(t, s)
    &&& forall|u: Seq<char>| terms.contains(u) && is_prefix(u, s) ==> byte_len(u) <= byte_len(t)
}

/// The longest terminal, counted in bytes, that begins `s`, if any does.
pub open spec fn longest_terminal(terms: Set<Seq<char>>, s: Seq<char>) -> Option<Seq<char>> {
    if exists|t: Seq<char>| is_longest_terminal(terms, s, t) {
        Some(choose|t: Seq<char>| is_longest_terminal(terms, s, t))
    } else {
        None
    }
}

pub open spec fn is_id_char(c: char) -> bool {
    alphanumeric(c) || c == '_'
}

/// The number of ASCII digits at the front of `s`.
pub open spec fn digits_len(s: Seq<char>) -> nat
    decreases s.len(),
{
    if s.len() > 0 && is_ascii_digit(s[0]) {
        1 + digits_len(s.drop_first())
    } else {
        0
    }
}

/// The number of identifier characters at the front of `s`.
pub open spec fn id_chars_len(s: Seq<char>) -> nat
    decreases s.len(),
{
    if s.len() > 0 && is_id_char(s[0]) {
        1 + id_chars_len(s.drop_first())
    } else {
        0
    }
}

pub proof fn lemma_digits_len_bound(s: Seq<char>)
    ensures
        digits_len(s) <= s.len(),
    decreases s.len(),
{
    if s.len() > 0 && is_ascii_digit(s[0]) {
        lemma_digits_len_bound(s.drop_first());
    }
}

pub proof fn lemma_id_chars_len_bound(s: Seq<char>)
    ensures
        id_chars_len(s) <= s.len(),
    decreases s.len(),
{
    if s.len() > 0 && is_id_char(s[0]) {
        lemma_id_chars_len_bound(s.drop_first());
    }
}

/// The tokens of `s`, the end marker not included; `None` where the lexer
/// stops on a character it does not know, or would loop on a terminal of no
/// characters.
///
/// Whitespace is skipped. Where a terminal begins the text, the longest one
/// becomes a symbol, and the text moves on by as many characters as the
/// terminal has bytes. Else a run of ASCII digits becomes a number, and an
/// alphabetic character with the identifier characters after it an
/// identifier.
pub open spec fn lex_rest(terms: Set<Seq<char>>, s: Seq<char>) -> Option<Seq<TokenView>>
    decreases s.len(),
{
    if s.len() == 0 {
        Some(Seq::empty())
    } else if whitespace(s[0]) {
        lex_rest(terms, s.drop_first())
    } else {
        match longest_terminal(terms, s) {
            Some(t) => {
                if byte_len(t) == 0 {
                    None
                } else {
                    let n = if byte_len(t) < s.len() { byte_len(t) as int } else { s.len() as int };
                    match lex_rest(terms, s.skip(n)) {
                        Some(r) => Some(seq![TokenView::Symbol(t)] + r),
                        None => None,
                    }
                }
            },
            None => {
                if is_ascii_digit(s[0]) {
                    let rest = s.drop_first();
                    let n = digits_len(rest);
                    proof {
                        lemma_digits_len_bound(rest);
                    }
                    match lex_rest(terms, rest.skip(n as int)) {
                        Some(r) => Some(seq![TokenView::Number(s.take(n + 1int))] + r),
                        None => None,
                    }
                } else if alphabetic(s[0]) {
                    let rest = s.drop_first();
                    let n = id_chars_len(rest);
                    proof {
                        lemma_id_chars_len_bound(rest);
                    }
                    match lex_rest(terms, rest.skip(n as int)) {
                        Some(r) => Some(seq![TokenView::ID(s.take(n + 1int))] + r),
                        None => None,
                    }
                } else {
                    None
                }
            },
        }
    }
}

/// The tokens of `s` followed by the end marker, or `None` where the lexer
/// does not come to an end.
pub open spec fn spec_lex(terms: Set<Seq<char>>, s: Seq<char>) -> Option<Seq<TokenView>> {
    match lex_rest(terms, s) {
        Some(r) => Some(r.push(TokenView::End)),
        None => None,
    }
}

/// Two terminals that begin the same text and have as many bytes are one.
pub proof fn lemma_prefix_byte_len_unique(s: Seq<char>, t: Seq<char>, u: Seq<char>)
    requires
        is_prefix(t, s),
        is_prefix(u, s),
        byte_len(t) == byte_len(u),
    ensures
        t == u,
{
    if t.len() <= u.len() {
        let w = u.skip(t.len() as int);
        assert(u.take(t.len() as int) =~= s.take(t.len() as int));
        assert(u =~= t + w);
        lemma_byte_len_concat(t, w);
        lemma_byte_len_at_least_len(w);
        assert(u =~= t);
    } else {
        let w = t.skip(u.len() as int);
        assert(t.take(u.len() as int) =~= s.take(u.len() as int));
        assert(t =~= u + w);
        lemma_byte_len_concat(u, w);
        lemma_byte_len_at_least_len(w);
        assert(u =~= t);
    }
}

/// There is at most one longest terminal at the front of a text.
pub proof fn lemma_longest_terminal_unique(terms: Set<Seq<char>>, s: Seq<char>, t: Seq<char>)
    requires
        is_longest_terminal(terms, s, t),
    ensures
        longest_terminal(terms, s) == Some(t),
{
    let c = choose|x: Seq<char>| is_longest_terminal(terms, s, x);
    assert(is_longest_terminal(terms, s, c));
    lemma_prefix_byte_len_unique(s, t, c);
}

/// Whether `p` occurs in `s` at position `pos`.
fn occurs_at(p: &Vec<char>, s: &Vec<char>, pos: usize) -> (b: bool)
    requires
        pos <= s@.len(),
    ensures
        b == is_prefix(p@, s@.skip(pos as int)),
{
    if p.len() > s.len() - pos {
        return false;
    }
    let mut k: usize = 0;
    while k < p.len()
        invariant
            pos <= s@.len(),
            s@.len() <= usize::MAX,
            p@.len() <= s@.len() - pos,
            k <= p@.len(),
            forall|m: int| 0 <= m < k ==> p@[m] == s@[pos + m],
        decreases p@.len() - k,
    {
        if p[k] != s[pos + k] {
            assert(s@.skip(pos as int).take(p@.len() as int)[k as int] != p@[k as int]);
            return false;
        }
        k = k + 1;
    }
    assert(s@.skip(pos as int).take(p@.len() as int) =~= p@);
    true
}

/// The index of the longest terminal, in bytes, that occurs at `pos`.
fn longest_terminal_at(
    terms: &Vec<Vec<char>>,
    s: &Vec<char>,
    pos: usize,
    Ghost(set): Ghost<Set<Seq<char>>>,
) -> (r: Option<usize>)
    requires
        pos <= s@.len(),
        forall|t: Seq<char>| set.contains(t) <==> exists|k: int| 0 <= k < terms@.len() && terms@[k]@ == t,
    ensures
        match r {
            Some(k) => k < terms@.len() && longest_terminal(set, s@.skip(pos as int)) == Some(terms@[k as int]@),
            None => longest_terminal(set, s@.skip(pos as int)) is None,
        },
{
    let ghost rest = s@.skip(pos as int);
    let mut best: Option<usize> = None;
    let mut k: usize = 0;
    while k < terms.len()
        invariant
            k <= terms@.len(),
            pos <= s@.len(),
            rest == s@.skip(pos as int),
            match best {
                Some(b) => b < k && is_prefix(terms@[b as int]@, rest) && forall|m: int|
                    0 <= m < k && is_prefix(#[trigger] terms@[m]@, rest) ==> terms@[m]@.len()
                        <= terms@[b as int]@.len(),
                None => forall|m: int| 0 <= m < k ==> !is_prefix(#[trigger] terms@[m]@, rest),
            },
        decreases terms@.len() - k,
    {
        if occurs_at(&terms[k], s, pos) {
            match best {
                Some(b) => {
                    if terms[k].len() > terms[b].len() {
                        best = Some(k);
                    }
                },
                None => {
                    best = Some(k);
                },
            }
        }
        k = k + 1;
    }
    match best {
        Some(b) => {
            let ghost t = terms@[b as int]@;
            assert forall|u: Seq<char>| set.contains(u) && is_prefix(u, rest) implies byte_len(u)
                <= byte_len(t) by {
                let m = choose|m: int| 0 <= m < terms@.len() && terms@[m]@ == u;
                assert(is_prefix(terms@[m]@, rest));
                lemma_prefix_byte_len_order(rest, u, t);
            }
            assert(set.contains(t));
            proof {
                lemma_longest_terminal_unique(set, rest, t);
            }
        },
        None => {
            assert forall|t: Seq<char>| !is_longest_terminal(set, rest, t) by {
                if set.contains(t) {
                    let m = choose|m: int| 0 <= m < terms@.len() && terms@[m]@ == t;
                    assert(!is_prefix(terms@[m]@, rest));
                }
            }
        },
    }
    best
}

pub proof fn lemma_digits_len_exact(x: Seq<char>, k: int)
    requires
        0 <= k <= x.len(),
        forall|m: int| 0 <= m < k ==> is_ascii_digit(#[trigger] x[m]),
        k == x.len() || !is_ascii_digit(x[k]),
    ensures
        digits_len(x) == k,
    decreases k,
{
    if k > 0 {
        lemma_digits_len_exact(x.drop_first(), k - 1);
    }
}

pub proof fn lemma_id_chars_len_exact(x: Seq<char>, k: int)
    requires
        0 <= k <= x.len(),
        forall|m: int| 0 <= m < k ==> is_id_char(#[trigger] x[m]),
        k == x.len() || !is_id_char(x[k]),
    ensures
        id_chars_len(x) == k,
    decreases k,
{
    if k > 0 {
        lemma_id_chars_len_exact(x.drop_first(), k - 1);
    }
}

/// Of two terminals that begin the same text, the one with fewer characters
/// has no more bytes.
pub proof fn lemma_prefix_byte_len_order(s: Seq<char>, t: Seq<char>, u: Seq<char>)
    requires
        is_prefix(t, s),
        is_prefix(u, s),
        t.len() <= u.len(),
    ensures
        byte_len(t) <= byte_len(u),
{
    let w = u.skip(t.len() as int);
    assert(u.take(t.len() as int) =~= s.take(t.len() as int));
    assert(u =~= t + w);
    lemma_byte_len_concat(t, w);
}

/// The number of bytes of the UTF-8 encoding of `c`, as `char::len_utf8`
/// gives it.
fn utf8_width(c: char) -> (n: usize)
    ensures
        n == byte_len(seq![c]),
{
    proof {
        broadcast use vstd::utf8::char_is_scalar;
        assert(vstd::utf8::is_scalar(c as u32));
        assert(seq![c].drop_first() =~= Seq::<char>::empty());
        assert(seq![c][0] == c);
        assert(vstd::utf8::encode_utf8(seq![c]) == vstd::utf8::encode_scalar(c as u32)
            + vstd::utf8::encode_utf8(Seq::<char>::empty()));
        assert(vstd::utf8::encode_utf8(seq![c]) =~= vstd::utf8::encode_scalar(c as u32));
    }
    let u = c as u32;
    if u <= 0x7F {
        1
    } else if u <= 0x7FF {
        2
    } else if u <= 0xFFFF {
        3
    } else {
        4
    }
}

/// The smaller of the number of bytes of `t` and `avail`.
fn advance_len(t: &Vec<char>, avail: usize) -> (n: usize)
    ensures
        n == if byte_len(t@) < avail { byte_len(t@) } else { avail as nat },
{
    let mut sum: usize = 0;
    let mut i: usize = 0;
    assert(t@.take(0) =~= Seq::<char>::empty());
    while i < t.len()
        invariant
            i <= t@.len(),
            sum == byte_len(t@.take(i as int)),
            sum < avail || (sum == 0 && avail == 0),
        decreases t@.len() - i,
    {
        let w = utf8_width(t[i]);
        proof {
            assert(t@.take(i + 1) =~= t@.take(i as int) + seq![t@[i as int]]);
            lemma_byte_len_concat(t@.take(i as int), seq![t@[i as int]]);
            assert(t@ =~= t@.take(i + 1) + t@.skip(i + 1));
            lemma_byte_len_concat(t@.take(i + 1), t@.skip(i + 1));
        }
        if w >= avail - sum {
            return avail;
        }
        sum = sum + w;
        i = i + 1;
    }
    assert(t@.take(t@.len() as int) =~= t@);
    if avail == 0 {
        proof {
            lemma_byte_len_at_least_len(t@);
        }
        return 0;
    }
    sum
}

pub open spec fn prepend(a: Seq<TokenView>, r: Option<Seq<TokenView>>) -> Option<Seq<TokenView>> {
    match r {
        Some(x) => Some(a + x),
        None => None,
    }
}

proof fn lemma_prepend_push(a: Seq<TokenView>, t: TokenView, r: Option<Seq<TokenView>>)
    ensures
        prepend(a.push(t), r) == prepend(
            a,
            match r {
                Some(x) => Some(seq![t] + x),
                None => None,
            },
        ),
{
    match r {
        Some(x) => {
            assert(a.push(t) + x =~= a + (seq![t] + x));
        },
        None => {},
    }
}

/// `s` without its whitespace characters.
pub open spec fn strip_whitespace(s: Seq<char>) -> Seq<char>
    decreases s.len(),
{
    if s.len() == 0 {
        s
    } else if whitespace(s[0]) {
        strip_whitespace(s.drop_first())
    } else {
        seq![s[0]] + strip_whitespace(s.drop_first())
    }
}

/// The texts of the tokens, one after the other.
pub open spec fn values_text(r: Seq<TokenView>) -> Seq<char>
    decreases r.len(),
{
    if r.len() == 0 {
        Seq::empty()
    } else {
        values_text(r.drop_last()) + token_value(r.last())
    }
}

/// Every terminal has a character, and all its characters are ASCII and not
/// whitespace.
pub open spec fn terminals_plain(terms: Set<Seq<char>>) -> bool {
    forall|t: Seq<char>| #[trigger] terms.contains(t) ==> t.len() > 0 && forall|i: int|
        0 <= i < t.len() ==> (t[i] as u32) <= 0x7F && !whitespace(#[trigger] t[i])
}

pub proof fn lemma_strip_concat(a: Seq<char>, b: Seq<char>)
    ensures
        strip_whitespace(a + b) == strip_whitespace(a) + strip_whitespace(b),
    decreases a.len(),
{
    if a.len() == 0 {
        assert(a + b =~= b);
        assert(Seq::<char>::empty() + strip_whitespace(b) =~= strip_whitespace(b));
    } else {
        lemma_strip_concat(a.drop_first(), b);
        assert((a + b).drop_first() =~= a.drop_first() + b);
        assert((a + b)[0] == a[0]);
        if !whitespace(a[0]) {
            assert(seq![a[0]] + (strip_whitespace(a.drop_first()) + strip_whitespace(b)) =~= (seq![a[0]]
                + strip_whitespace(a.drop_first())) + strip_whitespace(b));
        }
    }
}

pub proof fn lemma_strip_no_whitespace(a: Seq<char>)
    requires
        forall|i: int| 0 <= i < a.len() ==> !whitespace(#[trigger] a[i]),
    ensures
        strip_whitespace(a) == a,
    decreases a.len(),
{
    if a.len() > 0 {
        assert forall|i: int| 0 <= i < a.drop_first().len() implies !whitespace(#[trigger] a.drop_first()[i]) by {
            assert(a.drop_first()[i] == a[i + 1]);
        }
        lemma_strip_no_whitespace(a.drop_first());
        assert(seq![a[0]] + a.drop_first() =~= a);
    }
}

proof fn lemma_values_text_push(r: Seq<TokenView>, t: TokenView)
    ensures
        values_text(r.push(t)) == values_text(r) + token_value(t),
{
    assert(r.push(t).drop_last() =~= r);
}

proof fn lemma_ascii_byte_len(t: Seq<char>)
    requires
        forall|i: int| 0 <= i < t.len() ==> (#[trigger] t[i] as u32) <= 0x7F,
    ensures
        byte_len(t) == t.len(),
    decreases t.len(),
{
    if t.len() > 0 {
        assert((t[0] as u32) <= 0x7F);
        assert(vstd::utf8::encode_utf8(t) == vstd::utf8::encode_scalar(t[0] as u32)
            + vstd::utf8::encode_utf8(t.drop_first()));
        assert(vstd::utf8::encode_scalar(t[0] as u32).len() == 1);
        assert forall|i: int| 0 <= i < t.drop_first().len() implies (#[trigger] t.drop_first()[i] as u32) <= 0x7F by {
            assert(t.drop_first()[i] == t[i + 1]);
        }
        lemma_ascii_byte_len(t.drop_first());
    }
}

pub proof fn lemma_longest_terminal_is(terms: Set<Seq<char>>, s: Seq<char>)
    requires
        longest_terminal(terms, s) is Some,
    ensures
        is_longest_terminal(terms, s, longest_terminal(terms, s)->0),
{
}

proof fn lemma_strip_step(s: Seq<char>, a: int, b: int)
    requires
        0 <= a <= b <= s.len(),
    ensures
        strip_whitespace(s.take(b)) == strip_whitespace(s.take(a)) + strip_whitespace(s.subrange(a, b)),
{
    assert(s.take(b) =~= s.take(a) + s.subrange(a, b));
    lemma_strip_concat(s.take(a), s.subrange(a, b));
}

/// Splits `expression` into the tokens that the grammar knows, ending with
/// the end marker; `None` where the lexer stops on a character it does not
/// know or would loop on a terminal of no characters.
///
/// Where every terminal is ASCII, not empty and free of whitespace, the texts
/// of the tokens before the end marker give back the expression without its
/// whitespace.
pub fn try_lex(grammar: &Grammer, expression: &String) -> (r: Option<Vec<Token>>)
    ensures
        match r {
            Some(v) => spec_lex(grammar@.terminals, expression@) == Some(tokens_view(v@)),
            None => spec_lex(grammar@.terminals, expression@) is None,
        },
        terminals_plain(grammar@.terminals) ==> (r matches Some(v) ==> values_text(
            tokens_view(v@).drop_last(),
        ) == strip_whitespace(expression@)),
{
    let ghost set = grammar@.terminals;
    let mut terms: Vec<Vec<char>> = Vec::new();
    let mut k: usize = 0;
    while k < grammar.terminals.len()
        invariant
            k <= grammar.terminals@.len(),
            terms@.len() == k,
            forall|m: int| 0 <= m < k ==> (#[trigger] terms@[m])@ == grammar.terminals@[m]@,
        decreases grammar.terminals@.len() - k,
    {
        let t = &grammar.terminals[k];
        terms.push(str_chars(t.as_str()));
        k = k + 1;
    }
    assert forall|t: Seq<char>| set.contains(t) <==> exists|m: int|
        0 <= m < terms@.len() && terms@[m]@ == t by {
        if set.contains(t) {
            let m = choose|m: int|
                0 <= m < strings_view(grammar.terminals@).len() && strings_view(
                    grammar.terminals@,
                )[m] == t;
            assert(terms@[m]@ == t);
        }
        if exists|m: int| 0 <= m < terms@.len() && terms@[m]@ == t {
            let m = choose|m: int| 0 <= m < terms@.len() && terms@[m]@ == t;
            assert(strings_view(grammar.terminals@)[m] == t);
        }
    }
    let chars = str_chars(expression.as_str());
    let ghost s = chars@;
    let mut tokens: Vec<Token> = Vec::new();
    let mut pos: usize = 0;
    assert(s.skip(0) =~= s);
    assert(tokens_view(tokens@) + Seq::<TokenView>::empty() =~= Seq::<TokenView>::empty());
    while pos < chars.len()
        invariant
            pos <= s.len(),
            s == chars@,
            s == expression@,
            terms@.len() == grammar.terminals@.len(),
            forall|m: int| 0 <= m < terms@.len() ==> (#[trigger] terms@[m])@ == grammar.terminals@[m]@,
            forall|t: Seq<char>| set.contains(t) <==> exists|m: int|
                0 <= m < terms@.len() && terms@[m]@ == t,
            set == grammar@.terminals,
            lex_rest(set, s) == prepend(tokens_view(tokens@), lex_rest(set, s.skip(pos as int))),
            terminals_plain(set) ==> values_text(tokens_view(tokens@)) == strip_whitespace(
                s.take(pos as int),
            ),
        decreases s.len() - pos,
    {
        let ghost rest = s.skip(pos as int);
        let ch = chars[pos];
        assert(rest[0] == ch);
        if char_is_whitespace(ch) {
            assert(rest.drop_first() =~= s.skip(pos + 1));
            assert(strip_whitespace(s.take(pos + 1)) == strip_whitespace(s.take(pos as int))) by {
                lemma_strip_step(s, pos as int, pos + 1);
                assert(s.subrange(pos as int, pos + 1) =~= seq![ch]);
                assert(seq![ch].drop_first() =~= Seq::<char>::empty());
                assert(strip_whitespace(seq![ch]) == strip_whitespace(Seq::<char>::empty()));
                assert(strip_whitespace(Seq::<char>::empty()) == Seq::<char>::empty());
                assert(strip_whitespace(s.take(pos as int)) + Seq::<char>::empty() =~= strip_whitespace(
                    s.take(pos as int),
                ));
            }
            pos = pos + 1;
            continue;
        }
        match longest_terminal_at(&terms, &chars, pos, Ghost(set)) {
            Some(k) => {
                let ghost t = terms@[k as int]@;
                if terms[k].len() == 0 {
                    assert(byte_len(t) == 0);
                    return None;
                }
                proof {
                    lemma_byte_len_at_least_len(t);
                }
                let n = advance_len(&terms[k], chars.len() - pos);
                let term = &grammar.terminals[k];
                let sym = Token::Symbol(term.clone());
                assert(sym@ == TokenView::Symbol(t));
                proof {
                    lemma_prepend_push(tokens_view(tokens@), sym@, lex_rest(set, rest.skip(n as int)));
                }
                let ghost before = tokens_view(tokens@);
                tokens.push(sym);
                assert(tokens_view(tokens@) =~= before.push(sym@));
                assert(rest.skip(n as int) =~= s.skip(pos + n));
                proof {
                    lemma_values_text_push(before, sym@);
                    if terminals_plain(set) {
                        lemma_longest_terminal_is(set, rest);
                        assert(set.contains(t));
                        lemma_ascii_byte_len(t);
                        assert(n == t.len());
                        assert(s.subrange(pos as int, pos + n) =~= t);
                        lemma_strip_step(s, pos as int, pos + n);
                        lemma_strip_no_whitespace(t);
                    }
                }
                pos = pos + n;
            },
            None => {
                if '0' <= ch && ch <= '9' {
                    let mut j: usize = pos;
                    while j < chars.len() && '0' <= chars[j] && chars[j] <= '9'
                        invariant
                            pos < j <= s.len() || j == pos,
                            pos < s.len(),
                            s == chars@,
                            is_ascii_digit(s[pos as int]),
                            forall|m: int| pos <= m < j ==> is_ascii_digit(#[trigger] s[m]),
                        decreases s.len() - j,
                    {
                        j = j + 1;
                    }
                    proof {
                        lemma_digits_len_exact(rest.drop_first(), j - pos - 1);
                    }
                    assert(s.subrange(pos as int, j as int) =~= rest.take(j - pos));
                    let number = Token::Number(chars_to_string(&chars.as_slice()[pos..j]));
                    assert(number@ == TokenView::Number(rest.take(j - pos)));
                    proof {
                        lemma_prepend_push(tokens_view(tokens@), number@, lex_rest(set, rest.drop_first().skip(j - pos - 1)));
                    }
                    let ghost before = tokens_view(tokens@);
                    tokens.push(number);
                    assert(tokens_view(tokens@) =~= before.push(number@));
                    assert(rest.drop_first().skip(j - pos - 1) =~= s.skip(j as int));
                    proof {
                        lemma_values_text_push(before, number@);
                        lemma_strip_step(s, pos as int, j as int);
                        assert forall|m: int| 0 <= m < j - pos implies !whitespace(
                            #[trigger] s.subrange(pos as int, j as int)[m],
                        ) by {
                            assert(is_ascii_digit(s[pos + m]));
                        }
                        lemma_strip_no_whitespace(s.subrange(pos as int, j as int));
                    }
                    pos = j;
                } else if char_is_alphabetic(ch) {
                    let mut j: usize = pos;
                    while j < chars.len() && (char_is_alphanumeric(chars[j]) || chars[j] == '_')
                        invariant
                            pos < j <= s.len() || j == pos,
                            pos < s.len(),
                            s == chars@,
                            alphabetic(s[pos as int]),
                            forall|m: int| pos <= m < j ==> is_id_char(#[trigger] s[m]),
                            forall|m: int| pos <= m < j ==> !whitespace(#[trigger] s[m]),
                        decreases s.len() - j,
                    {
                        j = j + 1;
                    }
                    proof {
                        lemma_id_chars_len_exact(rest.drop_first(), j - pos - 1);
                    }
                    assert(s.subrange(pos as int, j as int) =~= rest.take(j - pos));
                    let id = Token::ID(chars_to_string(&chars.as_slice()[pos..j]));
                    assert(id@ == TokenView::ID(rest.take(j - pos)));
                    proof {
                        lemma_prepend_push(tokens_view(tokens@), id@, lex_rest(set, rest.drop_first().skip(j - pos - 1)));
                    }
                    let ghost before = tokens_view(tokens@);
                    tokens.push(id);
                    assert(tokens_view(tokens@) =~= before.push(id@));
                    assert(rest.drop_first().skip(j - pos - 1) =~= s.skip(j as int));
                    proof {
                        lemma_values_text_push(before, id@);
                        lemma_strip_step(s, pos as int, j as int);
                        assert forall|m: int| 0 <= m < j - pos implies !whitespace(
                            #[trigger] s.subrange(pos as int, j as int)[m],
                        ) by {
                            assert(s.subrange(pos as int, j as int)[m] == s[pos + m]);
                        }
                        lemma_strip_no_whitespace(s.subrange(pos as int, j as int));
                    }
                    pos = j;
                } else {
                    return None;
                }
            },
        }
    }
    assert(s.skip(s.len() as int) =~= Seq::<char>::empty());
    proof {
        lemma_prepend_push(tokens_view(tokens@), TokenView::End, Some(Seq::<TokenView>::empty()));
    }
    let ghost before = tokens_view(tokens@);
    tokens.push(Token::END);
    assert(tokens_view(tokens@) =~= before.push(TokenView::End));
    assert(tokens_view(tokens@).drop_last() =~= before);
    assert(s.take(s.len() as int) =~= s);
    Some(tokens)
}

/// Splits `expression` into the tokens that the grammar knows, ending with
/// the end marker.
pub fn lex(grammar: &Grammer, expression: String) -> (r: Vec<Token>)
    requires
        spec_lex(grammar@.terminals, expression@) is Some,
    ensures
        spec_lex(grammar@.terminals, expression@) == Some(tokens_view(r@)),
        terminals_plain(grammar@.terminals) ==> values_text(tokens_view(r@).drop_last())
            == strip_whitespace(expression@),
{
    match try_lex(grammar, &expression) {
        Some(v) => v,
        None => {
            assert(false);
            Vec::new()
        },
    }
}

pub open spec fn no_end_marker(r: Seq<TokenView>) -> bool {
    forall|i: int| 0 <= i < r.len() ==> !(r[i] is End)
}

proof fn lemma_lex_rest_no_end(terms: Set<Seq<char>>, s: Seq<char>)
    ensures
        lex_rest(terms, s) matches Some(r) ==> no_end_marker(r),
    decreases s.len(),
{
    if s.len() == 0 {
    } else if whitespace(s[0]) {
        lemma_lex_rest_no_end(terms, s.drop_first());
    } else {
        match longest_terminal(terms, s) {
            Some(t) => {
                if byte_len(t) != 0 {
                    let n = if byte_len(t) < s.len() { byte_len(t) as int } else { s.len() as int };
                    lemma_lex_rest_no_end(terms, s.skip(n));
                    if let Some(r) = lex_rest(terms, s.skip(n)) {
                        assert forall|i: int| 0 <= i < r.len() + 1 implies !((seq![TokenView::Symbol(t)] + r)[i] is End) by {
                            if i > 0 {
                                assert((seq![TokenView::Symbol(t)] + r)[i] == r[i - 1]);
                            }
                        }
                    }
                }
            },
            None => {
                let rest = s.drop_first();
                if is_ascii_digit(s[0]) {
                    let n = digits_len(rest);
                    lemma_digits_len_bound(rest);
                    lemma_lex_rest_no_end(terms, rest.skip(n as int));
                    if let Some(r) = lex_rest(terms, rest.skip(n as int)) {
                        let x = seq![TokenView::Number(s.take(n + 1int))] + r;
                        assert forall|i: int| 0 <= i < x.len() implies !(x[i] is End) by {
                            if i > 0 {
                                assert(x[i] == r[i - 1]);
                            }
                        }
                    }
                } else if alphabetic(s[0]) {
                    let n = id_chars_len(rest);
                    lemma_id_chars_len_bound(rest);
                    lemma_lex_rest_no_end(terms, rest.skip(n as int));
                    if let Some(r) = lex_rest(terms, rest.skip(n as int)) {
                        let x = seq![TokenView::ID(s.take(n + 1int))] + r;
                        assert forall|i: int| 0 <= i < x.len() implies !(x[i] is End) by {
                            if i > 0 {
                                assert(x[i] == r[i - 1]);
                            }
                        }
                    }
                }
            },
        }
    }
}

/// The tokens of a text end with the end marker, and it occurs nowhere else.
pub proof fn lemma_lex_ends_with_end(terms: Set<Seq<char>>, s: Seq<char>)
    ensures
        spec_lex(terms, s) matches Some(r) ==> {
            &&& r.len() >= 1
            &&& r.last() is End
            &&& no_end_marker(r.drop_last())
        },
{
    lemma_lex_rest_no_end(terms, s);
    if let Some(r) = lex_rest(terms, s) {
        assert(r.push(TokenView::End).drop_last() =~= r);
    }
}

/// What every token of a text is made of: a symbol is a terminal of the
/// grammar, a number a non-empty run of ASCII digits, an identifier an
/// alphabetic character followed by identifier characters.
pub open spec fn token_well_made(terms: Set<Seq<char>>, t: TokenView) -> bool {
    match t {
        TokenView::Symbol(x) => terms.contains(x),
        TokenView::Number(x) => x.len() > 0 && forall|j: int| 0 <= j < x.len() ==> is_ascii_digit(#[trigger] x[j]),
        TokenView::ID(x) => x.len() > 0 && alphabetic(x[0]) && forall|j: int|
            1 <= j < x.len() ==> is_id_char(#[trigger] x[j]),
        TokenView::End => true,
    }
}

proof fn lemma_digits_run(x: Seq<char>)
    ensures
        forall|j: int| 0 <= j < digits_len(x) ==> is_ascii_digit(#[trigger] x[j]),
        digits_len(x) < x.len() ==> !is_ascii_digit(x[digits_len(x) as int]),
    decreases x.len(),
{
    lemma_digits_len_bound(x);
    if x.len() > 0 && is_ascii_digit(x[0]) {
        lemma_digits_run(x.drop_first());
        assert forall|j: int| 0 <= j < digits_len(x) implies is_ascii_digit(#[trigger] x[j]) by {
            if j > 0 {
                assert(x[j] == x.drop_first()[j - 1]);
            }
        }
    }
}

proof fn lemma_id_run(x: Seq<char>)
    ensures
        forall|j: int| 0 <= j < id_chars_len(x) ==> is_id_char(#[trigger] x[j]),
    decreases x.len(),
{
    lemma_id_chars_len_bound(x);
    if x.len() > 0 && is_id_char(x[0]) {
        lemma_id_run(x.drop_first());
        assert forall|j: int| 0 <= j < id_chars_len(x) implies is_id_char(#[trigger] x[j]) by {
            if j > 0 {
                assert(x[j] == x.drop_first()[j - 1]);
            }
        }
    }
}

proof fn lemma_lex_rest_well_made(terms: Set<Seq<char>>, s: Seq<char>)
    ensures
        lex_rest(terms, s) matches Some(r) ==> forall|i: int| 0 <= i < r.len() ==> token_well_made(terms, #[trigger] r[i]),
    decreases s.len(),
{
    if s.len() == 0 {
    } else if whitespace(s[0]) {
        lemma_lex_rest_well_made(terms, s.drop_first());
    } else {
        match longest_terminal(terms, s) {
            Some(t) => {
                lemma_longest_terminal_is(terms, s);
                if byte_len(t) != 0 {
                    let k = if byte_len(t) < s.len() { byte_len(t) as int } else { s.len() as int };
                    lemma_lex_rest_well_made(terms, s.skip(k));
                    if let Some(r) = lex_rest(terms, s.skip(k)) {
                        let x = seq![TokenView::Symbol(t)] + r;
                        assert forall|i: int| 0 <= i < x.len() implies token_well_made(terms, #[trigger] x[i]) by {
                            if i > 0 {
                                assert(x[i] == r[i - 1]);
                            }
                        }
                    }
                }
            },
            None => {
                let rest = s.drop_first();
                lemma_digits_len_bound(rest);
                lemma_id_chars_len_bound(rest);
                if is_ascii_digit(s[0]) {
                    let k = digits_len(rest);
                    lemma_digits_run(rest);
                    lemma_lex_rest_well_made(terms, rest.skip(k as int));
                    let w = s.take(k + 1int);
                    assert forall|j: int| 0 <= j < w.len() implies is_ascii_digit(#[trigger] w[j]) by {
                        if j > 0 {
                            assert(w[j] == rest[j - 1]);
                        }
                    }
                    if let Some(r) = lex_rest(terms, rest.skip(k as int)) {
                        let x = seq![TokenView::Number(w)] + r;
                        assert forall|i: int| 0 <= i < x.len() implies token_well_made(terms, #[trigger] x[i]) by {
                            if i > 0 {
                                assert(x[i] == r[i - 1]);
                            }
                        }
                    }
                } else if alphabetic(s[0]) {
                    let k = id_chars_len(rest);
                    lemma_id_run(rest);
                    lemma_lex_rest_well_made(terms, rest.skip(k as int));
                    let w = s.take(k + 1int);
                    assert forall|j: int| 1 <= j < w.len() implies is_id_char(#[trigger] w[j]) by {
                        assert(w[j] == rest[j - 1]);
                    }
                    if let Some(r) = lex_rest(terms, rest.skip(k as int)) {
                        let x = seq![TokenView::ID(w)] + r;
                        assert forall|i: int| 0 <= i < x.len() implies token_well_made(terms, #[trigger] x[i]) by {
                            if i > 0 {
                                assert(x[i] == r[i - 1]);
                            }
                        }
                    }
                }
            },
        }
    }
}

/// Every token of a text is well made: each symbol is a terminal of the
/// grammar, each number a non-empty run of ASCII digits only, each
/// identifier an alphabetic character and identifier characters after it.
pub proof fn lemma_lex_tokens_well_made(terms: Set<Seq<char>>, s: Seq<char>)
    ensures
        spec_lex(terms, s) matches Some(r) ==> forall|i: int| 0 <= i < r.len() ==> token_well_made(terms, #[trigger] r[i]),
{
    lemma_lex_rest_well_made(terms, s);
    if let Some(r) = lex_rest(terms, s) {
        let x = r.push(TokenView::End);
        assert forall|i: int| 0 <= i < x.len() implies token_well_made(terms, #[trigger] x[i]) by {
            if i < r.len() {
                assert(x[i] == r[i]);
            }
        }
    }
}

/// Where no terminal begins a text and it starts with an ASCII digit, its
/// first token is the number made of all the digits at its front: the
/// character after them, where there is one, is no ASCII digit.
pub proof fn lemma_lex_number_maximal(terms: Set<Seq<char>>, s: Seq<char>)
    requires
        s.len() > 0,
        is_ascii_digit(s[0]),
        longest_terminal(terms, s) is None,
    ensures
        lex_rest(terms, s) matches Some(r) ==> {
            &&& r.len() > 0
            &&& r[0] matches TokenView::Number(x) && {
                &&& x == s.take(x.len() as int)
                &&& forall|j: int| 0 <= j < x.len() ==> is_ascii_digit(#[trigger] x[j])
                &&& x.len() == s.len() || !is_ascii_digit(s[x.len() as int])
            }
        },
{
    assert(!whitespace(s[0]));
    let rest = s.drop_first();
    lemma_digits_len_bound(rest);
    let k = digits_len(rest);
    lemma_digits_run(rest);
    let w = s.take(k + 1int);
    assert forall|j: int| 0 <= j < w.len() implies is_ascii_digit(#[trigger] w[j]) by {
        if j > 0 {
            assert(w[j] == rest[j - 1]);
        }
    }
    if k < rest.len() {
        assert(s[k + 1int] == rest[k as int]);
    }
    if let Some(r) = lex_rest(terms, rest.skip(k as int)) {
        assert((seq![TokenView::Number(w)] + r)[0] == TokenView::Number(w));
    }
}

} // verus!
