//! Grammars written in a small EBNF notation, and the reader that builds
//! them from text.
use vstd::prelude::*;

use crate::text::{
    alphabetic, char_is_alphabetic, char_is_whitespace, chars_to_string, push_char, str_chars,
    strings_view, whitespace, CharStream,
};

verus! {

/// The two kinds of token that a grammar can name without quoting them.
#[derive(Debug, Clone, Copy, PartialEq, Eq)]
pub enum TokenType {
    Number,
    ID,
}

/// One element of the right-hand side of a rule.
#[derive(Debug)]
pub enum GrammerPart {
    Base(TokenType),
    Terminal(String),
    NonTerminal(String),
    Choice(Vec<Vec<GrammerPart>>),
    Repeat(Vec<GrammerPart>),
    Optional(Vec<GrammerPart>),
    Group(Vec<GrammerPart>),
}

/// The mathematical value of a [`GrammerPart`].
pub enum GPart {
    Base(TokenType),
    Terminal(Seq<char>),
    NonTerminal(Seq<char>),
    Choice(Seq<Seq<GPart>>),
    Repeat(Seq<GPart>),
    Optional(Seq<GPart>),
    Group(Seq<GPart>),
}

pub open spec fn view_parts(v: Seq<GrammerPart>) -> Seq<GPart>
    decreases v, 0int,
{
    Seq::new(
        v.len(),
        |i: int|
            if 0 <= i < v.len() {
                view_part(v[i])
            } else {
                GPart::Group(Seq::empty())
            },
    )
}

pub open spec fn view_choices(v: Seq<Vec<GrammerPart>>) -> Seq<Seq<GPart>>
    decreases v, 0int,
{
    Seq::new(
        v.len(),
        |i: int|
            if 0 <= i < v.len() {
                view_parts(v[i]@)
            } else {
                Seq::empty()
            },
    )
}

pub open spec fn view_part(p: GrammerPart) -> GPart
    decreases p, 1int,
{
    match p {
        GrammerPart::Base(t) => GPart::Base(t),
        GrammerPart::Terminal(s) => GPart::Terminal(s@),
        GrammerPart::NonTerminal(s) => GPart::NonTerminal(s@),
        GrammerPart::Choice(alts) => GPart::Choice(view_choices(alts@)),
        GrammerPart::Repeat(v) => GPart::Repeat(view_parts(v@)),
        GrammerPart::Optional(v) => GPart::Optional(view_parts(v@)),
        GrammerPart::Group(v) => GPart::Group(view_parts(v@)),
    }
}

impl View for GrammerPart {
    type V = GPart;

    open spec fn view(&self) -> GPart {
        view_part(*self)
    }
}

fn clone_parts(v: &Vec<GrammerPart>) -> (r: Vec<GrammerPart>)
    ensures
        view_parts(r@) == view_parts(v@),
    decreases v, 0int,
{
    let mut r: Vec<GrammerPart> = Vec::new();
    let mut i: usize = 0;
    assert(view_parts(r@) =~= view_parts(v@.take(0)));
    while i < v.len()
        invariant
            i <= v@.len(),
            view_parts(r@) == view_parts(v@.take(i as int)),
        decreases v@.len() - i,
    {
        let p = clone_part(&v[i]);
        proof {
            lemma_view_parts_push(r@, p);
            assert(v@.take(i + 1) =~= v@.take(i as int).push(v@[i as int]));
            lemma_view_parts_push(v@.take(i as int), v@[i as int]);
        }
        r.push(p);
        i = i + 1;
    }
    assert(v@.take(v@.len() as int) =~= v@);
    r
}

fn clone_part(p: &GrammerPart) -> (r: GrammerPart)
    ensures
        r@ == p@,
    decreases p, 1int,
{
    match p {
        GrammerPart::Base(t) => GrammerPart::Base(*t),
        GrammerPart::Terminal(s) => GrammerPart::Terminal(s.clone()),
        GrammerPart::NonTerminal(s) => GrammerPart::NonTerminal(s.clone()),
        GrammerPart::Choice(alts) => {
            let mut r: Vec<Vec<GrammerPart>> = Vec::new();
            let mut j: usize = 0;
            assert(view_choices(r@) =~= view_choices(alts@.take(0)));
            while j < alts.len()
                invariant
                    j <= alts@.len(),
                    *p == GrammerPart::Choice(*alts),
                    view_choices(r@) == view_choices(alts@.take(j as int)),
                decreases alts@.len() - j,
            {
                proof {
                    assert(decreases_to!(*p => (*p)->Choice_0));
                    assert((*p)->Choice_0 == *alts);
                    assert(decreases_to!(*alts => alts@));
                    assert(decreases_to!(alts@ => alts@[j as int]));
                    assert(decreases_to!(*p => alts@[j as int]));
                }
                let a = clone_parts(&alts[j]);
                proof {
                    lemma_view_choices_push(r@, a);
                    assert(alts@.take(j + 1) =~= alts@.take(j as int).push(alts@[j as int]));
                    lemma_view_choices_push(alts@.take(j as int), alts@[j as int]);
                }
                r.push(a);
                j = j + 1;
            }
            assert(alts@.take(alts@.len() as int) =~= alts@);
            GrammerPart::Choice(r)
        },
        GrammerPart::Repeat(v) => GrammerPart::Repeat(clone_parts(v)),
        GrammerPart::Optional(v) => GrammerPart::Optional(clone_parts(v)),
        GrammerPart::Group(v) => GrammerPart::Group(clone_parts(v)),
    }
}

impl Clone for GrammerPart {
    fn clone(&self) -> (r: Self)
        ensures
            r@ == self@,
    {
        clone_part(self)
    }
}

/// A named rule of a grammar.
#[derive(Debug)]
pub struct Rule {
    pub name: String,
    pub parts: Vec<GrammerPart>,
}

pub struct RuleView {
    pub name: Seq<char>,
    pub parts: Seq<GPart>,
}

impl View for Rule {
    type V = RuleView;

    open spec fn view(&self) -> RuleView {
        RuleView { name: self.name@, parts: view_parts(self.parts@) }
    }
}

impl Clone for Rule {
    fn clone(&self) -> (r: Self)
        ensures
            r@ == self@,
    {
        Rule { name: self.name.clone(), parts: clone_parts(&self.parts) }
    }
}

/// A grammar: its start rule, its rules by name, and the quoted terminals
/// that occur in its text.
///
/// The rules are kept in a vector, and the terminals in another, since
/// vstd's hash-map and hash-set contracts hold only for keys with a key model
/// (integers and the like), not for `String`. A well-formed grammar holds no
/// two rules of one name and no terminal twice, and its view is a map and
/// sets, as hash collections would give.
#[derive(Debug)]
pub struct Grammer {
    pub start_rule: String,
    pub rules: Vec<Rule>,
    pub terminals: Vec<String>,
    pub ignore: Vec<String>,
}

pub struct GrammerView {
    pub start_rule: Seq<char>,
    pub rules: Map<Seq<char>, RuleView>,
    pub terminals: Set<Seq<char>>,
    pub ignore: Set<Seq<char>>,
}

/// The rules as a map from name to rule; a later rule of a name replaces an
/// earlier one.
pub open spec fn rules_map(rs: Seq<Rule>) -> Map<Seq<char>, RuleView>
    decreases rs.len(),
{
    if rs.len() == 0 {
        Map::empty()
    } else {
        rules_map(rs.drop_last()).insert(rs.last().name@, rs.last()@)
    }
}

pub open spec fn names_unique(rs: Seq<Rule>) -> bool {
    forall|i: int, j: int| 0 <= i < j < rs.len() ==> rs[i].name@ != rs[j].name@
}

impl View for Grammer {
    type V = GrammerView;

    open spec fn view(&self) -> GrammerView {
        GrammerView {
            start_rule: self.start_rule@,
            rules: rules_map(self.rules@),
            terminals: strings_view(self.terminals@).to_set(),
            ignore: strings_view(self.ignore@).to_set(),
        }
    }
}

impl Grammer {
    /// No rule name and no terminal occurs twice.
    pub open spec fn wf(&self) -> bool {
        &&& names_unique(self.rules@)
        &&& strings_view(self.terminals@).no_duplicates()
        &&& strings_view(self.ignore@).no_duplicates()
    }
}

proof fn lemma_rules_map_same_views(a: Seq<Rule>, b: Seq<Rule>)
    requires
        a.len() == b.len(),
        forall|i: int| 0 <= i < a.len() ==> (#[trigger] a[i])@ == b[i]@,
    ensures
        rules_map(a) == rules_map(b),
    decreases a.len(),
{
    if a.len() > 0 {
        lemma_rules_map_same_views(a.drop_last(), b.drop_last());
        assert(a.last()@ == b.last()@);
    }
}

fn clone_strings(v: &Vec<String>) -> (r: Vec<String>)
    ensures
        strings_view(r@) == strings_view(v@),
{
    let mut r: Vec<String> = Vec::new();
    let mut i: usize = 0;
    while i < v.len()
        invariant
            i <= v@.len(),
            strings_view(r@) == strings_view(v@.take(i as int)),
        decreases v@.len() - i,
    {
        let c = v[i].clone();
        let ghost prev = r@;
        r.push(c);
        assert(strings_view(r@) =~= strings_view(prev).push(v@[i as int]@));
        assert(strings_view(v@.take(i + 1)) =~= strings_view(v@.take(i as int)).push(v@[i as int]@));
        i = i + 1;
    }
    assert(v@.take(v@.len() as int) =~= v@);
    r
}

impl Clone for Grammer {
    fn clone(&self) -> (r: Self)
        ensures
            r@ == self@,
            self.wf() ==> r.wf(),
    {
        let mut rules: Vec<Rule> = Vec::new();
        let mut i: usize = 0;
        while i < self.rules.len()
            invariant
                i <= self.rules@.len(),
                rules@.len() == i,
                forall|k: int| 0 <= k < i ==> (#[trigger] rules@[k])@ == self.rules@[k]@,
            decreases self.rules@.len() - i,
        {
            rules.push(self.rules[i].clone());
            i = i + 1;
        }
        proof {
            lemma_rules_map_same_views(rules@, self.rules@);
        }
        let r = Grammer {
            start_rule: self.start_rule.clone(),
            rules,
            terminals: clone_strings(&self.terminals),
            ignore: clone_strings(&self.ignore),
        };
        assert(names_unique(self.rules@) ==> names_unique(r.rules@)) by {
            if names_unique(self.rules@) {
                assert forall|a: int, b: int| 0 <= a < b < r.rules@.len() implies r.rules@[a].name@
                    != r.rules@[b].name@ by {
                    assert(r.rules@[a]@ == self.rules@[a]@);
                    assert(r.rules@[b]@ == self.rules@[b]@);
                }
            }
        }
        r
    }
}

impl Default for Grammer {
    fn default() -> (g: Grammer)
        ensures
            g.wf(),
            g.rules@.len() == 0,
            g.terminals@.len() == 0,
            g.ignore@.len() == 0,
            g@.start_rule == Seq::<char>::empty(),
            g@.rules == Map::<Seq<char>, RuleView>::empty(),
            g@.terminals == Set::<Seq<char>>::empty(),
            g@.ignore == Set::<Seq<char>>::empty(),
    {
        let g = Grammer {
            start_rule: String::new(),
            rules: Vec::new(),
            terminals: Vec::new(),
            ignore: Vec::new(),
        };
        assert(strings_view(g.terminals@) =~= Seq::<Seq<char>>::empty());
        assert(strings_view(g.ignore@) =~= Seq::<Seq<char>>::empty());
        g
    }
}

/// The text before the first `ch` in `s`, and how many characters reading it
/// takes: the text, and the `ch` after it where there is one.
pub open spec fn until_split(s: Seq<char>, ch: char) -> (Seq<char>, nat)
    decreases s.len(),
{
    if s.len() == 0 {
        (Seq::empty(), 0)
    } else if s[0] == ch {
        (Seq::empty(), 1)
    } else {
        let (w, n) = until_split(s.drop_first(), ch);
        (seq![s[0]] + w, n + 1)
    }
}

/// The alphabetic characters at the front of `s`, and how many characters
/// reading them takes: they, and the character after them where there is one.
pub open spec fn alpha_split(s: Seq<char>) -> (Seq<char>, nat)
    decreases s.len(),
{
    if s.len() == 0 {
        (Seq::empty(), 0)
    } else if alphabetic(s[0]) {
        let (w, n) = alpha_split(s.drop_first());
        (seq![s[0]] + w, n + 1)
    } else {
        (Seq::empty(), 1)
    }
}

pub proof fn lemma_until_split_bound(s: Seq<char>, ch: char)
    ensures
        until_split(s, ch).1 <= s.len(),
    decreases s.len(),
{
    if s.len() > 0 && s[0] != ch {
        lemma_until_split_bound(s.drop_first(), ch);
    }
}

pub proof fn lemma_alpha_split_bound(s: Seq<char>)
    ensures
        alpha_split(s).1 <= s.len(),
    decreases s.len(),
{
    if s.len() > 0 && alphabetic(s[0]) {
        lemma_alpha_split_bound(s.drop_first());
    }
}

/// `n`, or `len` where `n` is larger.
pub open spec fn at_most(n: nat, len: nat) -> nat {
    if n <= len {
        n
    } else {
        len
    }
}

/// The parts a rule's text ends with: the alternatives as one choice where
/// `|` separated more than one, else the parts read.
pub open spec fn finish_rule(cur: Seq<GPart>, all: Seq<Seq<GPart>>) -> Seq<GPart> {
    if all.len() > 0 {
        seq![GPart::Choice(all.push(cur))]
    } else {
        cur
    }
}

pub open spec fn word_number() -> Seq<char> {
    seq!['N', 'U', 'M', 'B', 'E', 'R']
}

pub open spec fn word_id() -> Seq<char> {
    seq!['I', 'D']
}

/// Reads the right-hand side of a rule from `s`, with the parts `cur` of the
/// current alternative and the finished alternatives `all` read before;
/// gives the parts and how many characters were read.
///
/// `<name>` is a non-terminal, `"text"` a terminal, `{..}` a repetition,
/// `(..)` a group, `[..]` an option; a closing bracket ends the list; `|`
/// closes an alternative and skips the character after it; the words
/// `NUMBER` and `ID` are base parts, other words are dropped with the
/// character that ends them; any other character is skipped.
pub open spec fn rule_loop(s: Seq<char>, cur: Seq<GPart>, all: Seq<Seq<GPart>>) -> (Seq<GPart>, nat)
    decreases s.len(),
{
    if s.len() == 0 {
        (finish_rule(cur, all), 0)
    } else {
        let c = s[0];
        let t = s.drop_first();
        if c == '}' || c == ')' || c == ']' {
            (finish_rule(cur, all), 1)
        } else if c == '<' || c == '"' {
            let (w, n) = until_split(t, if c == '<' { '>' } else { '"' });
            let n2 = at_most(n, t.len());
            let part = if c == '<' { GPart::NonTerminal(w) } else { GPart::Terminal(w) };
            let (r, m) = rule_loop(t.skip(n2 as int), cur.push(part), all);
            (r, 1 + n2 + m)
        } else if c == '|' {
            let n2: nat = if t.len() > 0 { 1 } else { 0 };
            let (r, m) = rule_loop(t.skip(n2 as int), Seq::empty(), all.push(cur));
            (r, 1 + n2 + m)
        } else if c == '{' || c == '(' || c == '[' {
            let (sub, n) = rule_loop(t, Seq::empty(), Seq::empty());
            let n2 = at_most(n, t.len());
            let part = if c == '{' {
                GPart::Repeat(sub)
            } else if c == '(' {
                GPart::Group(sub)
            } else {
                GPart::Optional(sub)
            };
            let (r, m) = rule_loop(t.skip(n2 as int), cur.push(part), all);
            (r, 1 + n2 + m)
        } else if alphabetic(c) {
            let (w, n) = alpha_split(t);
            let n2 = at_most(n, t.len());
            let word = seq![c] + w;
            let cur2 = if word == word_number() {
                cur.push(GPart::Base(TokenType::Number))
            } else if word == word_id() {
                cur.push(GPart::Base(TokenType::ID))
            } else {
                cur
            };
            let (r, m) = rule_loop(t.skip(n2 as int), cur2, all);
            (r, 1 + n2 + m)
        } else {
            let (r, m) = rule_loop(t, cur, all);
            (r, 1 + m)
        }
    }
}

/// The parts that `parse_rule` reads from `s`, and how many characters it
/// reads.
#[verifier::opaque]
pub open spec fn spec_parse_rule(s: Seq<char>) -> (Seq<GPart>, nat) {
    rule_loop(s, Seq::empty(), Seq::empty())
}

pub proof fn lemma_rule_loop_bound(s: Seq<char>, cur: Seq<GPart>, all: Seq<Seq<GPart>>)
    ensures
        rule_loop(s, cur, all).1 <= s.len(),
    decreases s.len(),
{
    if s.len() > 0 {
        let c = s[0];
        let t = s.drop_first();
        if c == '}' || c == ')' || c == ']' {
        } else if c == '<' || c == '"' {
            let (w, n) = until_split(t, if c == '<' { '>' } else { '"' });
            let n2 = at_most(n, t.len());
            let part = if c == '<' { GPart::NonTerminal(w) } else { GPart::Terminal(w) };
            lemma_rule_loop_bound(t.skip(n2 as int), cur.push(part), all);
        } else if c == '|' {
            let n2: nat = if t.len() > 0 { 1 } else { 0 };
            lemma_rule_loop_bound(t.skip(n2 as int), Seq::empty(), all.push(cur));
        } else if c == '{' || c == '(' || c == '[' {
            let (sub, n) = rule_loop(t, Seq::empty(), Seq::empty());
            let n2 = at_most(n, t.len());
            let part = if c == '{' {
                GPart::Repeat(sub)
            } else if c == '(' {
                GPart::Group(sub)
            } else {
                GPart::Optional(sub)
            };
            lemma_rule_loop_bound(t.skip(n2 as int), cur.push(part), all);
        } else if alphabetic(c) {
            let (w, n) = alpha_split(t);
            let n2 = at_most(n, t.len());
            let word = seq![c] + w;
            let cur2 = if word == word_number() {
                cur.push(GPart::Base(TokenType::Number))
            } else if word == word_id() {
                cur.push(GPart::Base(TokenType::ID))
            } else {
                cur
            };
            lemma_rule_loop_bound(t.skip(n2 as int), cur2, all);
        } else {
            lemma_rule_loop_bound(t, cur, all);
        }
    }
}

/// Reads characters up to the first `until`, which is read too but not
/// kept, and gives the characters before it.
pub fn consume_until(chars: &mut CharStream, until: char) -> (r: String)
    ensures
        r@ == until_split(old(chars)@, until).0,
        final(chars)@ == old(chars)@.skip(until_split(old(chars)@, until).1 as int),
{
    let ghost s0 = chars@;
    let mut accumulator = String::new();
    assert(s0.skip(0) =~= s0);
    loop
        invariant_except_break
            chars@.len() <= s0.len(),
            s0.skip(s0.len() - chars@.len()) == chars@,
            until_split(s0, until).0 == accumulator@ + until_split(chars@, until).0,
            until_split(s0, until).1 == (s0.len() - chars@.len()) + until_split(chars@, until).1,
        ensures
            accumulator@ == until_split(s0, until).0,
            chars@ == s0.skip(until_split(s0, until).1 as int),
        decreases chars@.len(),
    {
        let ghost before = chars@;
        match chars.next() {
            Some(c) => {
                if c != until {
                    push_char(&mut accumulator, c);
                    assert(before.drop_first() =~= s0.skip(s0.len() - chars@.len()));
                    assert(until_split(s0, until).0 =~= accumulator@ + until_split(chars@, until).0);
                } else {
                    assert(before.drop_first() =~= s0.skip(s0.len() - chars@.len()));
                    assert(accumulator@ =~= accumulator@ + Seq::<char>::empty());
                    break;
                }
            },
            None => {
                assert(accumulator@ =~= accumulator@ + Seq::<char>::empty());
                break;
            },
        }
    }
    accumulator
}

/// Reads the alphabetic characters at the front, and the character after
/// them where there is one.
fn read_word(chars: &mut CharStream) -> (r: Vec<char>)
    ensures
        r@ == alpha_split(old(chars)@).0,
        final(chars)@ == old(chars)@.skip(alpha_split(old(chars)@).1 as int),
{
    let ghost s0 = chars@;
    let mut word: Vec<char> = Vec::new();
    assert(s0.skip(0) =~= s0);
    loop
        invariant_except_break
            chars@.len() <= s0.len(),
            s0.skip(s0.len() - chars@.len()) == chars@,
            alpha_split(s0).0 == word@ + alpha_split(chars@).0,
            alpha_split(s0).1 == (s0.len() - chars@.len()) + alpha_split(chars@).1,
        ensures
            word@ == alpha_split(s0).0,
            chars@ == s0.skip(alpha_split(s0).1 as int),
        decreases chars@.len(),
    {
        let ghost before = chars@;
        match chars.next() {
            Some(c) => {
                if char_is_alphabetic(c) {
                    word.push(c);
                    assert(before.drop_first() =~= s0.skip(s0.len() - chars@.len()));
                    assert(alpha_split(s0).0 =~= word@ + alpha_split(chars@).0);
                } else {
                    assert(before.drop_first() =~= s0.skip(s0.len() - chars@.len()));
                    assert(word@ =~= word@ + Seq::<char>::empty());
                    break;
                }
            },
            None => {
                assert(word@ =~= word@ + Seq::<char>::empty());
                break;
            },
        }
    }
    word
}

fn is_word(w: &Vec<char>, lit: &[char]) -> (b: bool)
    ensures
        b == (w@ == lit@),
{
    if w.len() != lit.len() {
        return false;
    }
    let mut k: usize = 0;
    while k < w.len()
        invariant
            k <= w@.len(),
            w@.len() == lit@.len(),
            forall|m: int| 0 <= m < k ==> w@[m] == lit@[m],
        decreases w@.len() - k,
    {
        if w[k] != lit[k] {
            return false;
        }
        k = k + 1;
    }
    assert(w@ =~= lit@);
    true
}

proof fn lemma_view_parts_push(v: Seq<GrammerPart>, p: GrammerPart)
    ensures
        view_parts(v.push(p)) == view_parts(v).push(p@),
{
    assert(view_parts(v.push(p)) =~= view_parts(v).push(p@));
}

proof fn lemma_view_choices_push(v: Seq<Vec<GrammerPart>>, p: Vec<GrammerPart>)
    ensures
        view_choices(v.push(p)) == view_choices(v).push(view_parts(p@)),
{
    assert(view_choices(v.push(p)) =~= view_choices(v).push(view_parts(p@)));
}

/// Reads the right-hand side of a rule, up to the closing bracket that ends
/// it or the end of the text.
pub fn parse_rule(chars: &mut CharStream) -> (r: Vec<GrammerPart>)
    ensures
        view_parts(r@) == spec_parse_rule(old(chars)@).0,
        final(chars)@ == old(chars)@.skip(spec_parse_rule(old(chars)@).1 as int),
    decreases old(chars)@.len(),
{
    let ghost s0 = chars@;
    let ghost goal = spec_parse_rule(s0);
    reveal(spec_parse_rule);
    let mut current_seq: Vec<GrammerPart> = Vec::new();
    let mut all_seq: Vec<Vec<GrammerPart>> = Vec::new();
    assert(s0.skip(0) =~= s0);
    assert(view_parts(current_seq@) =~= Seq::<GPart>::empty());
    assert(view_choices(all_seq@) =~= Seq::<Seq<GPart>>::empty());
    proof {
        lemma_rule_loop_bound(s0, Seq::empty(), Seq::empty());
    }
    loop
        invariant_except_break
            chars@.len() <= s0.len(),
            s0.skip(s0.len() - chars@.len()) == chars@,
            goal == spec_parse_rule(s0),
            s0 == old(chars)@,
            rule_loop(chars@, view_parts(current_seq@), view_choices(all_seq@)).0 == goal.0,
            (s0.len() - chars@.len()) + rule_loop(chars@, view_parts(current_seq@), view_choices(all_seq@)).1
                == goal.1,
        ensures
            finish_rule(view_parts(current_seq@), view_choices(all_seq@)) == goal.0,
            chars@ == s0.skip(goal.1 as int),
        decreases chars@.len(),
    {
        let ghost before = chars@;
        let ghost cur = view_parts(current_seq@);
        let ghost all = view_choices(all_seq@);
        proof {
            lemma_rule_loop_bound(before, cur, all);
        }
        let item = match chars.next() {
            Some(c) => c,
            None => {
                break;
            },
        };
        let ghost t = chars@;
        assert(t == before.drop_first());
        assert(before.drop_first() =~= s0.skip(s0.len() - chars@.len()));
        if item == '}' || item == ')' || item == ']' {
            break;
        } else if item == '<' || item == '"' {
            let closing = if item == '<' { '>' } else { '"' };
            let result = consume_until(chars, closing);
            proof {
                lemma_until_split_bound(t, closing);
            }
            let part = if item == '<' {
                GrammerPart::NonTerminal(result)
            } else {
                GrammerPart::Terminal(result)
            };
            proof {
                lemma_view_parts_push(current_seq@, part);
            }
            current_seq.push(part);
            assert(t.skip(until_split(t, closing).1 as int) =~= s0.skip(s0.len() - chars@.len()));
        } else if item == '|' {
            let ghost n2: nat = if t.len() > 0 { 1 } else { 0 };
            chars.next();
            assert(t.skip(n2 as int) =~= chars@);
            assert(chars@ =~= s0.skip(s0.len() - chars@.len()));
            proof {
                lemma_view_choices_push(all_seq@, current_seq);
            }
            all_seq.push(current_seq);
            current_seq = Vec::new();
            assert(view_parts(current_seq@) =~= Seq::<GPart>::empty());
        } else if item == '{' || item == '(' || item == '[' {
            let result = parse_rule(chars);
            proof {
                reveal(spec_parse_rule);
                lemma_rule_loop_bound(t, Seq::empty(), Seq::empty());
            }
            let part = if item == '{' {
                GrammerPart::Repeat(result)
            } else if item == '(' {
                GrammerPart::Group(result)
            } else {
                GrammerPart::Optional(result)
            };
            proof {
                lemma_view_parts_push(current_seq@, part);
            }
            current_seq.push(part);
            assert(chars@ =~= s0.skip(s0.len() - chars@.len()));
        } else if char_is_alphabetic(item) {
            let rest = read_word(chars);
            proof {
                lemma_alpha_split_bound(t);
            }
            let mut word: Vec<char> = Vec::new();
            word.push(item);
            let mut k: usize = 0;
            while k < rest.len()
                invariant
                    k <= rest@.len(),
                    word@ == seq![item] + rest@.take(k as int),
                decreases rest@.len() - k,
            {
                word.push(rest[k]);
                k = k + 1;
                assert(word@ =~= seq![item] + rest@.take(k as int));
            }
            assert(rest@.take(rest@.len() as int) =~= rest@);
            let number_word: [char; 6] = ['N', 'U', 'M', 'B', 'E', 'R'];
            let id_word: [char; 2] = ['I', 'D'];
            assert(number_word@ =~= word_number());
            assert(id_word@ =~= word_id());
            if is_word(&word, &number_word) {
                let part = GrammerPart::Base(TokenType::Number);
                proof {
                    lemma_view_parts_push(current_seq@, part);
                }
                current_seq.push(part);
            } else if is_word(&word, &id_word) {
                let part = GrammerPart::Base(TokenType::ID);
                proof {
                    lemma_view_parts_push(current_seq@, part);
                }
                current_seq.push(part);
            }
            assert(chars@ =~= s0.skip(s0.len() - chars@.len()));
        } else {
            continue;
        }
    }
    if all_seq.len() == 0 {
        current_seq
    } else {
        proof {
            lemma_view_choices_push(all_seq@, current_seq);
        }
        all_seq.push(current_seq);
        let mut r: Vec<GrammerPart> = Vec::new();
        let choice = GrammerPart::Choice(all_seq);
        proof {
            lemma_view_parts_push(r@, choice);
            assert(view_parts(r@) =~= Seq::<GPart>::empty());
        }
        r.push(choice);
        r
    }
}

/// The texts between double quotes in `s`, in order: each `"` opens a text
/// that the next `"` closes, or the end of `s`.
pub open spec fn quoted(s: Seq<char>) -> Seq<Seq<char>>
    decreases s.len(),
{
    if s.len() == 0 {
        Seq::empty()
    } else if s[0] == '"' {
        let t = s.drop_first();
        let (w, n) = until_split(t, '"');
        seq![w] + quoted(t.skip(at_most(n, t.len()) as int))
    } else {
        quoted(s.drop_first())
    }
}

proof fn lemma_to_set_cons(w: Seq<char>, q: Seq<Seq<char>>)
    ensures
        (seq![w] + q).to_set() == q.to_set().insert(w),
{
    let a = seq![w] + q;
    assert forall|x: Seq<char>| a.contains(x) <==> (x == w || q.contains(x)) by {
        if a.contains(x) {
            let i = choose|i: int| 0 <= i < a.len() && a[i] == x;
            if i > 0 {
                assert(q[i - 1] == x);
            }
        }
        if q.contains(x) {
            let i = choose|i: int| 0 <= i < q.len() && q[i] == x;
            assert(a[i + 1] == x);
        }
        if x == w {
            assert(a[0] == x);
        }
    }
    assert(a.to_set() =~= q.to_set().insert(w));
}

/// Adds `s` to `v` unless it is there already.
fn insert_string(v: &mut Vec<String>, s: String)
    ensures
        strings_view(final(v)@).to_set() == strings_view(old(v)@).to_set().insert(s@),
        strings_view(old(v)@).no_duplicates() ==> strings_view(final(v)@).no_duplicates(),
{
    let mut k: usize = 0;
    while k < v.len()
        invariant
            k <= v@.len(),
            forall|m: int| 0 <= m < k ==> v@[m]@ != s@,
        decreases v@.len() - k,
    {
        if v[k] == s {
            assert(strings_view(v@)[k as int] == s@);
            assert(strings_view(v@).to_set() =~= strings_view(v@).to_set().insert(s@));
            return;
        }
        k = k + 1;
    }
    let ghost before = strings_view(v@);
    v.push(s);
    assert(strings_view(v@) =~= before.push(s@));
    proof {
        before.lemma_push_to_set_commute(s@);
    }
    assert(!before.contains(s@)) by {
        if before.contains(s@) {
            let m = choose|m: int| 0 <= m < before.len() && before[m] == s@;
            assert(v@[m]@ == s@);
        }
    }
}

/// Adds to `terminals` every text between double quotes in `text`.
fn collect_quoted(text: &str, terminals: &mut Vec<String>)
    ensures
        strings_view(final(terminals)@).to_set() == strings_view(old(terminals)@).to_set() + quoted(
            text@,
        ).to_set(),
        strings_view(old(terminals)@).no_duplicates() ==> strings_view(final(terminals)@).no_duplicates(),
{
    let mut chars = CharStream::new(text);
    let ghost s0 = text@;
    let ghost base = strings_view(terminals@).to_set();
    let ghost nodup = strings_view(terminals@).no_duplicates();
    assert(strings_view(terminals@).to_set() + quoted(chars@).to_set() =~= base + quoted(s0).to_set());
    loop
        invariant
            strings_view(terminals@).to_set() + quoted(chars@).to_set() == base + quoted(s0).to_set(),
            nodup ==> strings_view(terminals@).no_duplicates(),
            base == strings_view(old(terminals)@).to_set(),
            nodup == strings_view(old(terminals)@).no_duplicates(),
            s0 == text@,
        ensures
            strings_view(terminals@).to_set() == base + quoted(s0).to_set(),
            nodup ==> strings_view(terminals@).no_duplicates(),
        decreases chars@.len(),
    {
        let ghost before = chars@;
        match chars.next() {
            Some(c) => {
                if c == '"' {
                    let ghost t = chars@;
                    let result = consume_until(&mut chars, '"');
                    proof {
                        lemma_until_split_bound(t, '"');
                    }
                    let ghost w = result@;
                    let ghost terms_before = strings_view(terminals@).to_set();
                    insert_string(terminals, result);
                    assert(quoted(before) == seq![w] + quoted(chars@));
                    proof {
                        lemma_to_set_cons(w, quoted(chars@));
                    }
                    assert(strings_view(terminals@).to_set() + quoted(chars@).to_set() =~= terms_before
                        + quoted(before).to_set());
                } else {
                    assert(quoted(before) == quoted(chars@));
                }
            },
            None => {
                assert(quoted(before).to_set() =~= Set::<Seq<char>>::empty());
                assert(strings_view(terminals@).to_set() =~= strings_view(terminals@).to_set()
                    + quoted(before).to_set());
                break;
            },
        }
    }
}

/// Adds to `terminals` every text between double quotes in the grammar's
/// text, which it leaves as it was.
pub fn get_terminals(grammer: &mut String, terminals: &mut Vec<String>)
    ensures
        *final(grammer) == *old(grammer),
        strings_view(final(terminals)@).to_set() == strings_view(old(terminals)@).to_set() + quoted(
            old(grammer)@,
        ).to_set(),
        strings_view(old(terminals)@).no_duplicates() ==> strings_view(final(terminals)@).no_duplicates(),
{
    collect_quoted(grammer.as_str(), terminals);
}

/// The pieces of `s` between the separators `c`, as `str::split` gives them:
/// one more piece than there are separators.
pub open spec fn split_on(s: Seq<char>, c: char) -> Seq<Seq<char>>
    decreases s.len(),
{
    if s.len() == 0 {
        seq![Seq::empty()]
    } else {
        let r = split_on(s.drop_last(), c);
        if s.last() == c {
            r.push(Seq::empty())
        } else {
            r.update(r.len() - 1, r.last().push(s.last()))
        }
    }
}

/// The number of whitespace characters at the front of `s`.
pub open spec fn leading_ws(s: Seq<char>) -> nat
    decreases s.len(),
{
    if s.len() > 0 && whitespace(s[0]) {
        1 + leading_ws(s.drop_first())
    } else {
        0
    }
}

/// The number of whitespace characters at the back of `s`.
pub open spec fn trailing_ws(s: Seq<char>) -> nat
    decreases s.len(),
{
    if s.len() > 0 && whitespace(s.last()) {
        1 + trailing_ws(s.drop_last())
    } else {
        0
    }
}

pub proof fn lemma_leading_ws_exact(s: Seq<char>, k: int)
    requires
        0 <= k <= s.len(),
        forall|m: int| 0 <= m < k ==> whitespace(#[trigger] s[m]),
        k == s.len() || !whitespace(s[k]),
    ensures
        leading_ws(s) == k,
    decreases k,
{
    if k > 0 {
        lemma_leading_ws_exact(s.drop_first(), k - 1);
    }
}

pub proof fn lemma_trailing_ws_exact(s: Seq<char>, k: int)
    requires
        0 <= k <= s.len(),
        forall|m: int| s.len() - k <= m < s.len() ==> whitespace(#[trigger] s[m]),
        k == s.len() || !whitespace(s[s.len() - k - 1]),
    ensures
        trailing_ws(s) == k,
    decreases k,
{
    if k > 0 {
        lemma_trailing_ws_exact(s.drop_last(), k - 1);
    }
}

/// `s` without whitespace at either end, as `str::trim` gives it.
pub open spec fn trim(s: Seq<char>) -> Seq<char> {
    let u = s.skip(leading_ws(s) as int);
    u.take(u.len() - trailing_ws(u))
}

/// `::=` begins at index `k` of `t`.
pub open spec fn sep_at(t: Seq<char>, k: int) -> bool {
    0 <= k && k + 3 <= t.len() && t[k] == ':' && t[k + 1] == ':' && t[k + 2] == '='
}

/// The index of the first `::=` in `t`.
#[verifier::opaque]
pub open spec fn first_sep(t: Seq<char>) -> Option<int> {
    if exists|k: int| sep_at(t, k) {
        Some(choose|k: int| sep_at(t, k) && forall|j: int| 0 <= j < k ==> !sep_at(t, j))
    } else {
        None
    }
}

/// `s` without the characters `<` and `>`.
pub open spec fn drop_brackets(s: Seq<char>) -> Seq<char>
    decreases s.len(),
{
    if s.len() == 0 {
        s
    } else {
        let r = drop_brackets(s.drop_last());
        if s.last() == '<' || s.last() == '>' {
            r
        } else {
            r.push(s.last())
        }
    }
}

fn split_chars(s: &Vec<char>, c: char) -> (r: Vec<Vec<char>>)
    ensures
        r@.map_values(|v: Vec<char>| v@) == split_on(s@, c),
{
    let mut r: Vec<Vec<char>> = Vec::new();
    r.push(Vec::new());
    let mut i: usize = 0;
    assert(s@.take(0) =~= Seq::<char>::empty());
    assert(r@.map_values(|v: Vec<char>| v@) =~= split_on(s@.take(0), c));
    while i < s.len()
        invariant
            i <= s@.len(),
            r@.len() >= 1,
            r@.map_values(|v: Vec<char>| v@) == split_on(s@.take(i as int), c),
        decreases s@.len() - i,
    {
        assert(s@.take(i + 1).drop_last() =~= s@.take(i as int));
        assert(s@.take(i + 1).last() == s@[i as int]);
        let ghost before = r@.map_values(|v: Vec<char>| v@);
        if s[i] == c {
            r.push(Vec::new());
            assert(r@.map_values(|v: Vec<char>| v@) =~= before.push(Seq::<char>::empty()));
        } else {
            let last = r.len() - 1;
            let mut piece = r.pop().unwrap();
            piece.push(s[i]);
            r.push(piece);
            assert(r@.map_values(|v: Vec<char>| v@) =~= before.update(last as int, before.last().push(s@[i as int])));
        }
        i = i + 1;
    }
    assert(s@.take(s@.len() as int) =~= s@);
    r
}

/// The bounds of `s` without whitespace at either end.
fn trim_bounds(s: &[char]) -> (r: (usize, usize))
    ensures
        r.0 <= r.1 <= s@.len(),
        s@.subrange(r.0 as int, r.1 as int) == trim(s@),
{
    let mut a: usize = 0;
    while a < s.len() && char_is_whitespace(s[a])
        invariant
            a <= s@.len(),
            forall|m: int| 0 <= m < a ==> whitespace(#[trigger] s@[m]),
        decreases s@.len() - a,
    {
        a = a + 1;
    }
    proof {
        lemma_leading_ws_exact(s@, a as int);
    }
    let ghost u = s@.skip(a as int);
    let mut b: usize = s.len();
    while b > a && char_is_whitespace(s[b - 1])
        invariant
            a <= b <= s@.len(),
            u == s@.skip(a as int),
            forall|m: int| b <= m < s@.len() ==> whitespace(#[trigger] s@[m]),
        decreases b,
    {
        b = b - 1;
    }
    proof {
        assert forall|m: int| u.len() - (s@.len() - b) <= m < u.len() implies whitespace(#[trigger] u[m]) by {
            assert(u[m] == s@[a + m]);
        }
        if b > a {
            assert(u[u.len() - (s@.len() - b) - 1] == s@[b - 1]);
        }
        lemma_trailing_ws_exact(u, s@.len() - b);
        assert(s@.subrange(a as int, b as int) =~= u.take(u.len() - (s@.len() - b)));
    }
    (a, b)
}

proof fn lemma_first_sep_is(t: Seq<char>, k: int)
    requires
        sep_at(t, k),
        forall|j: int| 0 <= j < k ==> !sep_at(t, j),
    ensures
        first_sep(t) == Some(k),
{
    reveal(first_sep);
    let c = choose|c: int| sep_at(t, c) && forall|j: int| 0 <= j < c ==> !sep_at(t, j);
    assert(sep_at(t, c) && forall|j: int| 0 <= j < c ==> !sep_at(t, j));
    if c < k {
        assert(!sep_at(t, c));
    }
    if k < c {
        assert(!sep_at(t, k));
    }
}

fn find_sep(t: &[char]) -> (r: Option<usize>)
    ensures
        match r {
            Some(k) => first_sep(t@) == Some(k as int) && sep_at(t@, k as int),
            None => first_sep(t@) is None,
        },
{
    let mut k: usize = 0;
    while t.len() >= 3 && k <= t.len() - 3
        invariant
            k <= t@.len(),
            forall|j: int| 0 <= j < k ==> !sep_at(t@, j),
        decreases t@.len() - k,
    {
        if t[k] == ':' && t[k + 1] == ':' && t[k + 2] == '=' {
            proof {
                lemma_first_sep_is(t@, k as int);
            }
            return Some(k);
        }
        k = k + 1;
    }
    assert forall|j: int| !sep_at(t@, j) by {
        if 0 <= j && j + 3 <= t@.len() {
            assert(j < k);
        }
    }
    reveal(first_sep);
    None
}

fn without_brackets(s: &[char]) -> (r: Vec<char>)
    ensures
        r@ == drop_brackets(s@),
{
    let mut r: Vec<char> = Vec::new();
    let mut i: usize = 0;
    assert(s@.take(0) =~= Seq::<char>::empty());
    while i < s.len()
        invariant
            i <= s@.len(),
            r@ == drop_brackets(s@.take(i as int)),
        decreases s@.len() - i,
    {
        assert(s@.take(i + 1).drop_last() =~= s@.take(i as int));
        assert(s@.take(i + 1).last() == s@[i as int]);
        if s[i] != '<' && s[i] != '>' {
            r.push(s[i]);
        }
        i = i + 1;
    }
    assert(s@.take(s@.len() as int) =~= s@);
    r
}

/// In rules of distinct names, the map holds each rule under its name and
/// nothing else.
pub proof fn lemma_rules_map_unique(rs: Seq<Rule>)
    requires
        names_unique(rs),
    ensures
        forall|k: Seq<char>| rules_map(rs).contains_key(k) <==> exists|i: int|
            0 <= i < rs.len() && rs[i].name@ == k,
        forall|i: int| 0 <= i < rs.len() ==> rules_map(rs)[#[trigger] rs[i].name@] == rs[i]@,
    decreases rs.len(),
{
    if rs.len() > 0 {
        let init = rs.drop_last();
        assert(names_unique(init)) by {
            assert forall|i: int, j: int| 0 <= i < j < init.len() implies init[i].name@ != init[j].name@ by {
                assert(init[i] == rs[i] && init[j] == rs[j]);
            }
        }
        lemma_rules_map_unique(init);
        assert forall|k: Seq<char>| rules_map(rs).contains_key(k) <==> exists|i: int|
            0 <= i < rs.len() && rs[i].name@ == k by {
            if rules_map(init).contains_key(k) {
                let i = choose|i: int| 0 <= i < init.len() && init[i].name@ == k;
                assert(rs[i].name@ == k);
            }
            if exists|i: int| 0 <= i < rs.len() && rs[i].name@ == k {
                let i = choose|i: int| 0 <= i < rs.len() && rs[i].name@ == k;
                if i < rs.len() - 1 {
                    assert(init[i].name@ == k);
                }
            }
        }
        assert forall|i: int| 0 <= i < rs.len() implies rules_map(rs)[#[trigger] rs[i].name@] == rs[i]@ by {
            if i < rs.len() - 1 {
                assert(init[i] == rs[i]);
                assert(rs[i].name@ != rs.last().name@);
            }
        }
    }
}

/// Puts `rule` under its name: a rule of that name is replaced, else the rule
/// is added.
fn insert_rule(rules: &mut Vec<Rule>, rule: Rule)
    requires
        names_unique(old(rules)@),
    ensures
        names_unique(final(rules)@),
        rules_map(final(rules)@) == rules_map(old(rules)@).insert(rule.name@, rule@),
{
    let ghost old_rules = rules@;
    let ghost name = rule.name@;
    let ghost rv = rule@;
    proof {
        lemma_rules_map_unique(old_rules);
    }
    let mut k: usize = 0;
    while k < rules.len()
        invariant
            k <= rules@.len(),
            rules@ == old_rules,
            old_rules == old(rules)@,
            name == rule.name@,
            rv == rule@,
            names_unique(old_rules),
            forall|m: int| 0 <= m < k ==> rules@[m].name@ != name,
        decreases rules@.len() - k,
    {
        if rules[k].name == rule.name {
            proof {
                lemma_rules_map_unique(old_rules);
            }
            rules.set(k, rule);
            assert(rules@ == old_rules.update(k as int, rules@[k as int]));
            assert(names_unique(rules@)) by {
                assert forall|i: int, j: int| 0 <= i < j < rules@.len() implies rules@[i].name@
                    != rules@[j].name@ by {
                    assert(old_rules[i].name@ != old_rules[j].name@);
                }
            }
            proof {
                lemma_rules_map_unique(rules@);
            }
            assert(rules_map(rules@) =~= rules_map(old_rules).insert(name, rv)) by {
                assert forall|key: Seq<char>| #[trigger] rules_map(rules@).contains_key(key)
                    implies rules_map(rules@)[key] == rules_map(old_rules).insert(name, rv)[key] by {
                    let i = choose|i: int| 0 <= i < rules@.len() && rules@[i].name@ == key;
                    if i != k {
                        assert(old_rules[i] == rules@[i]);
                    }
                }
                assert forall|key: Seq<char>| rules_map(old_rules).insert(name, rv).contains_key(key)
                    implies #[trigger] rules_map(rules@).contains_key(key) by {
                    if key != name {
                        let i = choose|i: int| 0 <= i < old_rules.len() && old_rules[i].name@ == key;
                        assert(rules@[i].name@ == key);
                    } else {
                        assert(rules@[k as int].name@ == key);
                    }
                }
            }
            return;
        }
        k = k + 1;
    }
    proof {
        lemma_rules_map_unique(old_rules);
    }
    rules.push(rule);
    assert(rules@.drop_last() =~= old_rules);
    assert(names_unique(rules@)) by {
        assert forall|i: int, j: int| 0 <= i < j < rules@.len() implies rules@[i].name@
            != rules@[j].name@ by {
            if j < old_rules.len() {
                assert(old_rules[i].name@ != old_rules[j].name@);
            }
        }
    }
}

pub open spec fn rule_name(t: Seq<char>, k: int) -> Seq<char> {
    drop_brackets(trim(t.take(k)))
}

pub open spec fn rule_body(t: Seq<char>, k: int) -> Seq<char> {
    trim(t.skip(k + 3))
}

/// The start rule and rules after reading one more piece of a grammar's
/// text: a blank piece is skipped, and any other is `name ::= body`, the
/// name without `<` and `>`; the first rule's name is the start rule, unless
/// it is empty, and a later rule of a name replaces an earlier one. `None`
/// where a piece that is not blank has no `::=`.
pub open spec fn add_piece(
    acc: Option<(Seq<char>, Map<Seq<char>, RuleView>)>,
    piece: Seq<char>,
) -> Option<(Seq<char>, Map<Seq<char>, RuleView>)> {
    match acc {
        None => None,
        Some((start, rules)) => {
            let t = trim(piece);
            if t.len() == 0 {
                Some((start, rules))
            } else {
                match first_sep(t) {
                    None => None,
                    Some(k) => {
                        let name = rule_name(t, k);
                        let parts = spec_parse_rule(rule_body(t, k)).0;
                        Some(
                            (
                                if start.len() == 0 {
                                    name
                                } else {
                                    start
                                },
                                rules.insert(name, RuleView { name, parts }),
                            ),
                        )
                    },
                }
            }
        },
    }
}

pub open spec fn build_rules(pieces: Seq<Seq<char>>) -> Option<(Seq<char>, Map<Seq<char>, RuleView>)>
    decreases pieces.len(),
{
    if pieces.len() == 0 {
        Some((Seq::empty(), Map::empty()))
    } else {
        add_piece(build_rules(pieces.drop_last()), pieces.last())
    }
}

/// The grammar that a text written as `name ::= body;` rules describes, its
/// terminals being the texts between double quotes anywhere in it; `None`
/// where a rule has no `::=`.
pub open spec fn spec_build_grammer(s: Seq<char>) -> Option<GrammerView> {
    match build_rules(split_on(s, ';')) {
        Some((start, rules)) => Some(
            GrammerView { start_rule: start, rules, terminals: quoted(s).to_set(), ignore: Set::empty() },
        ),
        None => None,
    }
}

/// Reads one piece of a grammar's text into the start rule and the rules;
/// `false` where the piece is not blank and has no `::=`.
fn read_piece(start_rule: &mut String, rules: &mut Vec<Rule>, piece: &[char]) -> (ok: bool)
    requires
        names_unique(old(rules)@),
    ensures
        names_unique(final(rules)@),
        add_piece(Some((old(start_rule)@, rules_map(old(rules)@))), piece@) == if ok {
            Some((final(start_rule)@, rules_map(final(rules)@)))
        } else {
            None
        },
{
    let ghost acc = Some((start_rule@, rules_map(rules@)));
    let (a, b) = trim_bounds(piece);
    let t = &piece[a..b];
    let ghost tv = trim(piece@);
    assert(t@ == tv);
    if t.len() == 0 {
        assert(add_piece(acc, piece@) == acc);
        return true;
    }
    match find_sep(t) {
        None => {
            assert(add_piece(acc, piece@) is None);
            false
        },
        Some(k) => {
            let name = read_name(t, k);
            let parts = read_body(t, k);
            let ghost nm = name@;
            let ghost ps = view_parts(parts@);
            let ghost new_start = if start_rule@.len() == 0 { nm } else { start_rule@ };
            let ghost new_rules = rules_map(rules@).insert(nm, RuleView { name: nm, parts: ps });
            assert(add_piece(acc, piece@) == Some((new_start, new_rules)));
            if start_rule.as_str().is_empty() {
                *start_rule = name.clone();
            }
            let rule = Rule { name, parts };
            assert(rule@ == RuleView { name: nm, parts: ps });
            insert_rule(rules, rule);
            true
        },
    }
}

/// The name of a rule whose `::=` begins at index `k` of its text.
fn read_name(t: &[char], k: usize) -> (name: String)
    requires
        k <= t@.len(),
    ensures
        name@ == rule_name(t@, k as int),
{
    let head = &t[0..k];
    let (na, nb) = trim_bounds(head);
    let name_chars = without_brackets(&head[na..nb]);
    chars_to_string(name_chars.as_slice())
}

/// The parts of a rule whose `::=` begins at index `k` of its text.
fn read_body(t: &[char], k: usize) -> (parts: Vec<GrammerPart>)
    requires
        sep_at(t@, k as int),
    ensures
        view_parts(parts@) == spec_parse_rule(rule_body(t@, k as int)).0,
{
    let len = t.len();
    assert(k + 3 <= len);
    let tail = &t[k + 3..len];
    assert(tail@ == t@.skip(k + 3));
    let (ba, bb) = trim_bounds(tail);
    let body = vstd::slice::slice_to_vec(&tail[ba..bb]);
    let mut stream = CharStream::from_chars(body);
    parse_rule(&mut stream)
}

proof fn lemma_build_rules_none_extends(a: Seq<Seq<char>>, b: Seq<Seq<char>>)
    requires
        build_rules(a) is None,
    ensures
        build_rules(a + b) is None,
    decreases b.len(),
{
    if b.len() == 0 {
        assert(a + b =~= a);
    } else {
        lemma_build_rules_none_extends(a, b.drop_last());
        assert((a + b).drop_last() =~= a + b.drop_last());
    }
}

/// Builds the grammar that the text describes; `None` where a rule has no
/// `::=`.
pub fn try_build_grammer(grammer_str: &String) -> (r: Option<Grammer>)
    ensures
        match r {
            Some(g) => spec_build_grammer(grammer_str@) == Some(g@) && g.wf(),
            None => spec_build_grammer(grammer_str@) is None,
        },
{
    let chars = str_chars(grammer_str.as_str());
    let pieces = split_chars(&chars, ';');
    let ghost pv = pieces@.map_values(|v: Vec<char>| v@);
    let mut grammer = Grammer::default();
    let mut i: usize = 0;
    assert(pv.take(0) =~= Seq::<Seq<char>>::empty());
    assert(rules_map(grammer.rules@) =~= Map::<Seq<char>, RuleView>::empty());
    while i < pieces.len()
        invariant
            i <= pieces@.len(),
            pv == pieces@.map_values(|v: Vec<char>| v@),
            pv == split_on(grammer_str@, ';'),
            build_rules(pv.take(i as int)) == Some((grammer.start_rule@, rules_map(grammer.rules@))),
            names_unique(grammer.rules@),
            grammer.terminals@.len() == 0,
            grammer.ignore@.len() == 0,
        decreases pieces@.len() - i,
    {
        assert(pv.take(i + 1).drop_last() =~= pv.take(i as int));
        assert(pv.take(i + 1).last() == pieces@[i as int]@);
        if !read_piece(&mut grammer.start_rule, &mut grammer.rules, pieces[i].as_slice()) {
            assert(pv =~= pv.take(i + 1) + pv.skip(i + 1));
            proof {
                lemma_build_rules_none_extends(pv.take(i + 1), pv.skip(i + 1));
            }
            return None;
        }
        i = i + 1;
    }
    assert(pv.take(pieces@.len() as int) =~= pv);
    assert(strings_view(grammer.terminals@) =~= Seq::<Seq<char>>::empty());
    collect_quoted(grammer_str.as_str(), &mut grammer.terminals);
    assert(strings_view(grammer.ignore@) =~= Seq::<Seq<char>>::empty());
    assert(grammer@.terminals =~= quoted(grammer_str@).to_set());
    assert(grammer@.ignore =~= Set::<Seq<char>>::empty());
    Some(grammer)
}

/// Builds the grammar that the text describes, which it leaves as it was.
pub fn build_grammer(grammer_str: &mut String) -> (r: Option<Grammer>)
    requires
        spec_build_grammer(old(grammer_str)@) is Some,
    ensures
        *final(grammer_str) == *old(grammer_str),
        r matches Some(g) && spec_build_grammer(old(grammer_str)@) == Some(g@) && g.wf(),
{
    try_build_grammer(grammer_str)
}

/// Reading up to a character that occurs in the text gives what comes before
/// its first occurrence, and reads past that occurrence.
pub proof fn lemma_until_split_found(s: Seq<char>, ch: char, k: int)
    requires
        0 <= k < s.len(),
        s[k] == ch,
        forall|m: int| 0 <= m < k ==> s[m] != ch,
    ensures
        until_split(s, ch) == (s.take(k), (k + 1) as nat),
    decreases k,
{
    if k > 0 {
        lemma_until_split_found(s.drop_first(), ch, k - 1);
        assert(seq![s[0]] + s.drop_first().take(k - 1) =~= s.take(k));
    } else {
        assert(s.take(0) =~= Seq::<char>::empty());
    }
}

/// Reading up to a character that does not occur in the text gives the whole
/// text and reads all of it.
pub proof fn lemma_until_split_absent(s: Seq<char>, ch: char)
    requires
        !s.contains(ch),
    ensures
        until_split(s, ch) == (s, s.len()),
    decreases s.len(),
{
    if s.len() > 0 {
        assert(s[0] != ch);
        assert(!s.drop_first().contains(ch)) by {
            if s.drop_first().contains(ch) {
                let m = choose|m: int| 0 <= m < s.drop_first().len() && s.drop_first()[m] == ch;
                assert(s[m + 1] == ch);
            }
        }
        lemma_until_split_absent(s.drop_first(), ch);
        assert(seq![s[0]] + s.drop_first() =~= s);
    }
}

/// A grammar read from text that has any rule has its start rule among them.
pub proof fn lemma_start_rule_defined(s: Seq<char>)
    ensures
        spec_build_grammer(s) matches Some(g) ==> g.rules == Map::<Seq<char>, RuleView>::empty()
            || g.rules.contains_key(g.start_rule),
{
    lemma_build_rules_start(split_on(s, ';'));
}

proof fn lemma_build_rules_start(pieces: Seq<Seq<char>>)
    ensures
        build_rules(pieces) matches Some((start, rules)) ==> (rules == Map::<Seq<char>, RuleView>::empty()
            && start.len() == 0) || rules.contains_key(start),
    decreases pieces.len(),
{
    if pieces.len() > 0 {
        lemma_build_rules_start(pieces.drop_last());
        if let Some((start, rules)) = build_rules(pieces.drop_last()) {
            let t = trim(pieces.last());
            if t.len() > 0 {
                if let Some(k) = first_sep(t) {
                    let name = rule_name(t, k);
                    let parts = spec_parse_rule(rule_body(t, k)).0;
                    assert(rules.insert(name, RuleView { name, parts }).contains_key(name));
                }
            }
        }
    }
}

/// Every piece of the text that is not blank holds `::=`.
pub open spec fn pieces_well_formed(pieces: Seq<Seq<char>>) -> bool {
    forall|i: int|
        0 <= i < pieces.len() ==> trim(#[trigger] pieces[i]).len() == 0 || exists|k: int|
            sep_at(trim(pieces[i]), k)
}

proof fn lemma_build_rules_some(pieces: Seq<Seq<char>>)
    requires
        pieces_well_formed(pieces),
    ensures
        build_rules(pieces) is Some,
    decreases pieces.len(),
{
    if pieces.len() > 0 {
        let init = pieces.drop_last();
        assert forall|i: int| 0 <= i < init.len() implies trim(#[trigger] init[i]).len() == 0 || exists|
            k: int,
        | sep_at(trim(init[i]), k) by {
            assert(init[i] == pieces[i]);
        }
        lemma_build_rules_some(init);
        let t = trim(pieces.last());
        assert(pieces.last() == pieces[pieces.len() - 1]);
        if t.len() > 0 {
            reveal(first_sep);
            assert(exists|k: int| sep_at(t, k));
            let w = choose|k: int| sep_at(t, k);
            lemma_first_sep_exists(t, w);
        }
    }
}

/// Where `::=` occurs in `t`, there is a first occurrence.
proof fn lemma_first_sep_exists(t: Seq<char>, w: int)
    requires
        sep_at(t, w),
    ensures
        first_sep(t) is Some,
    decreases w,
{
    if exists|j: int| 0 <= j < w && sep_at(t, j) {
        let j = choose|j: int| 0 <= j < w && sep_at(t, j);
        lemma_first_sep_exists(t, j);
    } else {
        lemma_first_sep_is(t, w);
    }
}

/// A text in which every `;`-separated piece that is not blank holds `::=`
/// always makes a grammar.
pub proof fn lemma_build_grammer_some(s: Seq<char>)
    requires
        pieces_well_formed(split_on(s, ';')),
    ensures
        spec_build_grammer(s) is Some,
{
    lemma_build_rules_some(split_on(s, ';'));
}

/// A terminal written between double quotes.
pub open spec fn in_quotes(t: Seq<char>) -> Seq<char> {
    seq!['"'] + t + seq!['"']
}

/// Terminals written as the alternatives of a rule: `"a"| "b"| "c"`.
pub open spec fn alternatives_text(ts: Seq<Seq<char>>) -> Seq<char>
    decreases ts.len(),
{
    if ts.len() == 0 {
        Seq::empty()
    } else if ts.len() == 1 {
        in_quotes(ts[0])
    } else {
        in_quotes(ts[0]) + seq!['|', ' '] + alternatives_text(ts.drop_first())
    }
}

/// One alternative of a single terminal for each text.
pub open spec fn single_terminals(ts: Seq<Seq<char>>) -> Seq<Seq<GPart>> {
    Seq::new(ts.len(), |i: int| seq![GPart::Terminal(ts[i])])
}

pub open spec fn no_quote_in(ts: Seq<Seq<char>>) -> bool {
    forall|i: int, m: int| 0 <= i < ts.len() && 0 <= m < ts[i].len() ==> #[trigger] ts[i][m] != '"'
}

proof fn lemma_read_in_quotes(t0: Seq<char>, after: Seq<char>)
    requires
        forall|m: int| 0 <= m < t0.len() ==> t0[m] != '"',
    ensures
        ({
            let t = (in_quotes(t0) + after).drop_first();
            &&& until_split(t, '"') == (t0, t0.len() + 1)
            &&& at_most(t0.len() + 1, t.len()) == t0.len() + 1
            &&& t.skip(t0.len() + 1int) == after
        }),
{
    let t = (in_quotes(t0) + after).drop_first();
    assert(t =~= t0 + seq!['"'] + after);
    assert forall|m: int| 0 <= m < t0.len() implies t[m] != '"' by {
        assert(t[m] == t0[m]);
    }
    assert(t[t0.len() as int] == '"');
    lemma_until_split_found(t, '"', t0.len() as int);
    assert(t.take(t0.len() as int) =~= t0);
    assert(t.skip(t0.len() + 1int) =~= after);
}

proof fn lemma_rule_loop_alternatives(ts: Seq<Seq<char>>, all: Seq<Seq<GPart>>)
    requires
        ts.len() >= 1,
        no_quote_in(ts),
    ensures
        rule_loop(alternatives_text(ts), Seq::empty(), all) == (
            finish_rule(seq![GPart::Terminal(ts.last())], all + single_terminals(ts.drop_last())),
            alternatives_text(ts).len(),
        ),
    decreases ts.len(),
{
    let t0 = ts[0];
    assert forall|m: int| 0 <= m < t0.len() implies t0[m] != '"' by {
        assert(ts[0][m] != '"');
    }
    let s = alternatives_text(ts);
    let cur = seq![GPart::Terminal(t0)];
    assert(Seq::<GPart>::empty().push(GPart::Terminal(t0)) =~= cur);
    if ts.len() == 1 {
        lemma_read_in_quotes(t0, Seq::empty());
        assert(in_quotes(t0) + Seq::<char>::empty() =~= s);
        assert(s[0] == '"');
        assert(rule_loop(Seq::<char>::empty(), cur, all) == (finish_rule(cur, all), 0nat));
        assert(rule_loop(s, Seq::empty(), all) == (finish_rule(cur, all), 1 + (t0.len() + 1) + 0));
        assert(ts.drop_last() =~= Seq::<Seq<char>>::empty());
        assert(all + single_terminals(ts.drop_last()) =~= all);
    } else {
        let rest = ts.drop_first();
        let r = alternatives_text(rest);
        let after = seq!['|', ' '] + r;
        lemma_read_in_quotes(t0, after);
        assert(in_quotes(t0) + after =~= s);
        assert(s[0] == '"');
        lemma_rule_loop_alternatives(rest, all.push(cur));
        assert(after[0] == '|');
        assert(after.drop_first().skip(1) =~= r);
        assert(rule_loop(after, cur, all) == (rule_loop(r, Seq::empty(), all.push(cur)).0, 2 + r.len()));
        assert(rest.last() == ts.last());
        assert(all.push(cur) + single_terminals(rest.drop_last()) =~= all + single_terminals(ts.drop_last()));
        assert(rule_loop(s, Seq::empty(), all) == (rule_loop(after, cur, all).0, 1 + (t0.len() + 1) + rule_loop(after, cur, all).1));
    }
}

/// A rule body of quoted terminals separated by `|` reads as those
/// terminals, the whole text read: one alone stands as itself; two or more
/// become a single choice with exactly one alternative per terminal, each the
/// terminal written at its place, in the order written.
pub proof fn lemma_parse_rule_alternatives(ts: Seq<Seq<char>>)
    requires
        ts.len() >= 1,
        no_quote_in(ts),
    ensures
        spec_parse_rule(alternatives_text(ts)).1 == alternatives_text(ts).len(),
        ts.len() == 1 ==> spec_parse_rule(alternatives_text(ts)).0 == seq![GPart::Terminal(ts[0])],
        ts.len() > 1 ==> spec_parse_rule(alternatives_text(ts)).0 == seq![GPart::Choice(single_terminals(ts))],
{
    reveal(spec_parse_rule);
    lemma_rule_loop_alternatives(ts, Seq::empty());
    let done = Seq::<Seq<GPart>>::empty() + single_terminals(ts.drop_last());
    assert(done.len() == ts.len() - 1);
    if ts.len() > 1 {
        assert(done.push(seq![GPart::Terminal(ts.last())]) =~= single_terminals(ts));
    }
}

} // verus!
