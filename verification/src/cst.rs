//! Concrete syntax trees, built from tokens by walking the rules of a grammar.
use vstd::prelude::*;

use crate::grammar::{GPart, Grammer, GrammerPart, GrammerView, Rule, rules_map, view_parts, view_choices};
use crate::lexer::{Token, TokenView, token_matches, token_value, tokens_view};

verus! {

/// A node of a concrete syntax tree: a leaf holds the text of a token, an
/// inner node holds its children.
#[derive(Debug)]
pub struct CstNode {
    pub value: Option<String>,
    pub children: Vec<CstNode>,
}

/// The mathematical value of a [`CstNode`].
pub struct CstView {
    pub value: Option<Seq<char>>,
    pub children: Seq<CstView>,
}

pub open spec fn view_opt_string(v: Option<String>) -> Option<Seq<char>> {
    match v {
        Some(s) => Some(s@),
        None => None,
    }
}

pub open spec fn view_nodes(v: Seq<CstNode>) -> Seq<CstView>
    decreases v, 0int,
{
    Seq::new(
        v.len(),
        |i: int|
            if 0 <= i < v.len() {
                view_node(v[i])
            } else {
                CstView { value: None, children: Seq::empty() }
            },
    )
}

pub open spec fn view_node(n: CstNode) -> CstView
    decreases n, 1int,
{
    CstView { value: view_opt_string(n.value), children: view_nodes(n.children@) }
}

impl View for CstNode {
    type V = CstView;

    open spec fn view(&self) -> CstView {
        view_node(*self)
    }
}

fn clone_node(n: &CstNode) -> (r: CstNode)
    ensures
        r@ == n@,
    decreases n,
{
    let value = match &n.value {
        Some(v) => Some(v.clone()),
        None => None,
    };
    let mut children: Vec<CstNode> = Vec::new();
    let mut i: usize = 0;
    while i < n.children.len()
        invariant
            i <= n.children@.len(),
            view_nodes(children@) == view_nodes(n.children@.take(i as int)),
        decreases n.children@.len() - i,
    {
        let c = clone_node(&n.children[i]);
        proof {
            lemma_view_nodes_push(children@, c);
            assert(n.children@.take(i + 1) =~= n.children@.take(i as int).push(n.children@[i as int]));
            lemma_view_nodes_push(n.children@.take(i as int), n.children@[i as int]);
        }
        children.push(c);
        i = i + 1;
    }
    assert(n.children@.take(n.children@.len() as int) =~= n.children@);
    let r = CstNode { value, children };
    assert(r@ == n@);
    r
}

impl Clone for CstNode {
    fn clone(&self) -> (r: Self)
        ensures
            r@ == self@,
    {
        clone_node(self)
    }
}

pub open spec fn view_opt_node(n: Option<CstNode>) -> Option<CstView> {
    match n {
        Some(n) => Some(n@),
        None => None,
    }
}

pub open spec fn leaf(v: Seq<char>) -> CstView {
    CstView { value: Some(v), children: Seq::empty() }
}

pub open spec fn inner(children: Seq<CstView>) -> CstView {
    CstView { value: None, children }
}

/// Why a walk of the rules stopped without an answer.
#[derive(Debug, Clone, Copy, PartialEq, Eq)]
pub enum ParseFailure {
    /// A non-terminal names no rule of the grammar.
    MissingRule,
    /// The token position would pass the largest `usize`.
    CursorOverflow,
    /// A repetition matched without moving on, so it would repeat forever.
    Loops,
    /// The walk went deeper than the depth it was given.
    OutOfDepth,
}

/// What a walk of a list of parts comes to: a node or no match, with the
/// token position after it, or a failure.
pub enum Step {
    Returned(Option<CstView>, nat),
    Failed(ParseFailure),
}

/// Where a repetition or a choice leaves the walk of the enclosing list:
/// go on with these children at this position, or stop with this step.
pub enum Flow {
    Next(Seq<CstView>, nat),
    Stop(Step),
}

/// Walks `parts` over the tokens from position `cursor`, with at most `fuel`
/// nested walks.
///
/// Every terminal and base part of the list is compared with the token at the
/// position where the walk of the list began.
pub open spec fn run_parser(
    g: GrammerView,
    toks: Seq<TokenView>,
    parts: Seq<GPart>,
    cursor: nat,
    fuel: nat,
) -> Step
    decreases fuel, 3int, 0int,
{
    if toks.len() <= 1 || cursor >= toks.len() {
        Step::Returned(None, cursor)
    } else if toks[cursor as int] is End {
        Step::Returned(None, cursor)
    } else if fuel == 0 {
        Step::Failed(ParseFailure::OutOfDepth)
    } else {
        run_parts(g, toks, parts, 0, toks[cursor as int], cursor, Seq::empty(), fuel)
    }
}

/// Walks the parts of a list from index `i` on, against the token `tok`.
pub open spec fn run_parts(
    g: GrammerView,
    toks: Seq<TokenView>,
    parts: Seq<GPart>,
    i: int,
    tok: TokenView,
    cursor: nat,
    children: Seq<CstView>,
    fuel: nat,
) -> Step
    decreases fuel, 2int, parts.len() - i,
{
    if fuel == 0 {
        Step::Failed(ParseFailure::OutOfDepth)
    } else if !(0 <= i < parts.len()) {
        Step::Returned(Some(inner(children)), cursor)
    } else {
        match parts[i] {
            GPart::Base(_) | GPart::Terminal(_) => {
                if token_matches(tok, parts[i]) {
                    if cursor + 1 > usize::MAX {
                        Step::Failed(ParseFailure::CursorOverflow)
                    } else {
                        run_parts(
                            g,
                            toks,
                            parts,
                            i + 1,
                            tok,
                            cursor + 1,
                            children.push(leaf(token_value(tok))),
                            fuel,
                        )
                    }
                } else {
                    Step::Returned(None, cursor)
                }
            },
            GPart::NonTerminal(name) => {
                if !g.rules.contains_key(name) {
                    Step::Failed(ParseFailure::MissingRule)
                } else {
                    let r = run_parser(g, toks, g.rules[name].parts, cursor, (fuel - 1) as nat);
                    match r {
                        Step::Returned(Some(child), c) => run_parts(
                            g,
                            toks,
                            parts,
                            i + 1,
                            tok,
                            c,
                            children.push(child),
                            fuel,
                        ),
                        _ => r,
                    }
                }
            },
            GPart::Repeat(sub) => {
                match run_repeat(g, toks, sub, cursor, children, fuel) {
                    Flow::Next(ch, c) => run_parts(g, toks, parts, i + 1, tok, c, ch, fuel),
                    Flow::Stop(s) => s,
                }
            },
            GPart::Choice(alts) => {
                match run_choice(g, toks, alts, 0, cursor, children, fuel) {
                    Flow::Next(ch, c) => run_parts(g, toks, parts, i + 1, tok, c, ch, fuel),
                    Flow::Stop(s) => s,
                }
            },
            GPart::Optional(opt) => {
                let r = run_parser(g, toks, opt, cursor, (fuel - 1) as nat);
                match r {
                    Step::Returned(Some(child), c) => run_parts(
                        g,
                        toks,
                        parts,
                        i + 1,
                        tok,
                        c,
                        children.push(child),
                        fuel,
                    ),
                    Step::Returned(None, c) => run_parts(g, toks, parts, i + 1, tok, c, children, fuel),
                    _ => r,
                }
            },
            GPart::Group(grp) => {
                let r = run_parser(g, toks, grp, cursor, (fuel - 1) as nat);
                match r {
                    Step::Returned(Some(child), c) => run_parts(
                        g,
                        toks,
                        parts,
                        i + 1,
                        tok,
                        c,
                        children.push(child),
                        fuel,
                    ),
                    _ => r,
                }
            },
        }
    }
}

/// Repeats the walk of `sub` while it matches. A list of more than one part
/// is walked as its first part and then the rest, and both children are
/// kept.
pub open spec fn run_repeat(
    g: GrammerView,
    toks: Seq<TokenView>,
    sub: Seq<GPart>,
    cursor: nat,
    children: Seq<CstView>,
    fuel: nat,
) -> Flow
    decreases fuel, 1int, usize::MAX - cursor,
{
    if fuel == 0 {
        Flow::Stop(Step::Failed(ParseFailure::OutOfDepth))
    } else if sub.len() > 1 {
        let r1 = run_parser(g, toks, sub.take(1), cursor, (fuel - 1) as nat);
        match r1 {
            Step::Returned(None, c1) => Flow::Next(children, c1),
            Step::Returned(Some(first), c1) => {
                let r2 = run_parser(g, toks, sub.skip(1), c1, (fuel - 1) as nat);
                match r2 {
                    Step::Returned(Some(second), c2) => {
                        if cursor < c2 <= usize::MAX {
                            run_repeat(g, toks, sub, c2, children + seq![first, second], fuel)
                        } else {
                            Flow::Stop(Step::Failed(ParseFailure::Loops))
                        }
                    },
                    _ => Flow::Stop(r2),
                }
            },
            _ => Flow::Stop(r1),
        }
    } else {
        let r = run_parser(g, toks, sub, cursor, (fuel - 1) as nat);
        match r {
            Step::Returned(None, c1) => Flow::Next(children, c1),
            Step::Returned(Some(child), c1) => {
                if cursor < c1 <= usize::MAX {
                    run_repeat(g, toks, sub, c1, children.push(child), fuel)
                } else {
                    Flow::Stop(Step::Failed(ParseFailure::Loops))
                }
            },
            _ => Flow::Stop(r),
        }
    }
}

/// Tries the alternatives from index `j` on, each from where the one before
/// left the position, and keeps the first that matches; when none matches
/// the walk goes on without a child.
pub open spec fn run_choice(
    g: GrammerView,
    toks: Seq<TokenView>,
    alts: Seq<Seq<GPart>>,
    j: int,
    cursor: nat,
    children: Seq<CstView>,
    fuel: nat,
) -> Flow
    decreases fuel, 1int, alts.len() - j,
{
    if fuel == 0 {
        Flow::Stop(Step::Failed(ParseFailure::OutOfDepth))
    } else if !(0 <= j < alts.len()) {
        Flow::Next(children, cursor)
    } else {
        let r = run_parser(g, toks, alts[j], cursor, (fuel - 1) as nat);
        match r {
            Step::Returned(Some(child), c) => Flow::Next(children.push(child), c),
            Step::Returned(None, c) => run_choice(g, toks, alts, j + 1, c, children, fuel),
            _ => Flow::Stop(r),
        }
    }
}

/// Whether an exec result and final position are those that a step describes.
pub open spec fn step_is(s: Step, r: Result<Option<CstNode>, ParseFailure>, c: usize) -> bool {
    match s {
        Step::Returned(n, c0) => r matches Ok(v) && view_opt_node(v) == n && c == c0,
        Step::Failed(f) => r == Err::<Option<CstNode>, ParseFailure>(f),
    }
}

/// Whether an exec outcome of a repetition or choice is the flow described:
/// `Ok(true)` goes on with the children and position, `Ok(false)` answers no
/// match at the position.
pub open spec fn flow_is(
    fl: Flow,
    r: Result<bool, ParseFailure>,
    children: Seq<CstNode>,
    c: usize,
) -> bool {
    match fl {
        Flow::Next(ch, c0) => r == Ok::<bool, ParseFailure>(true) && view_nodes(children) == ch && c == c0,
        Flow::Stop(Step::Returned(None, c0)) => r == Ok::<bool, ParseFailure>(false) && c == c0,
        Flow::Stop(Step::Returned(Some(_), _)) => false,
        Flow::Stop(Step::Failed(f)) => r == Err::<bool, ParseFailure>(f),
    }
}

proof fn lemma_view_nodes_push(v: Seq<CstNode>, n: CstNode)
    ensures
        view_nodes(v.push(n)) == view_nodes(v).push(n@),
{
    assert(view_nodes(v.push(n)) =~= view_nodes(v).push(n@));
}

proof fn lemma_rules_map_step(rs: Seq<Rule>, i: int)
    requires
        0 <= i < rs.len(),
    ensures
        rules_map(rs.take(i + 1)) == rules_map(rs.take(i)).insert(rs[i].name@, rs[i]@),
{
    assert(rs.take(i + 1).drop_last() =~= rs.take(i));
}

/// The index of the rule that the grammar's map gives for `name`.
fn find_rule(rules: &Vec<Rule>, name: &String) -> (r: Option<usize>)
    ensures
        match r {
            Some(k) => k < rules@.len() && rules_map(rules@).contains_key(name@)
                && rules_map(rules@)[name@] == rules@[k as int]@,
            None => !rules_map(rules@).contains_key(name@),
        },
{
    let mut found: Option<usize> = None;
    let mut i: usize = 0;
    assert(rules@.take(0) =~= Seq::<Rule>::empty());
    while i < rules.len()
        invariant
            i <= rules@.len(),
            match found {
                Some(k) => k < i && rules_map(rules@.take(i as int)).contains_key(name@)
                    && rules_map(rules@.take(i as int))[name@] == rules@[k as int]@,
                None => !rules_map(rules@.take(i as int)).contains_key(name@),
            },
        decreases rules@.len() - i,
    {
        proof {
            lemma_rules_map_step(rules@, i as int);
        }
        if rules[i].name == *name {
            found = Some(i);
        }
        i = i + 1;
    }
    assert(rules@.take(rules@.len() as int) =~= rules@);
    found
}

proof fn lemma_view_parts_subrange(v: Seq<GrammerPart>, a: int, b: int)
    requires
        0 <= a <= b <= v.len(),
    ensures
        view_parts(v.subrange(a, b)) == view_parts(v).subrange(a, b),
{
    assert(view_parts(v.subrange(a, b)) =~= view_parts(v).subrange(a, b));
}

/// Walks `parts` over `tokens` from `*cursor`, going at most `fuel` walks
/// deep, and leaves `*cursor` where the walk ended.
fn parser(
    grammar: &Grammer,
    tokens: &[Token],
    parts: &[GrammerPart],
    cursor: &mut usize,
    fuel: usize,
) -> (r: Result<Option<CstNode>, ParseFailure>)
    ensures
        step_is(
            run_parser(grammar@, tokens_view(tokens@), view_parts(parts@), *old(cursor) as nat, fuel as nat),
            r,
            *final(cursor),
        ),
        *final(cursor) >= *old(cursor),
    decreases fuel, 3int,
{
    if tokens.len() <= 1 || *cursor >= tokens.len() {
        return Ok(None);
    }
    let current_token = &tokens[*cursor];
    if current_token.is_end() {
        return Ok(None);
    }
    if fuel == 0 {
        return Err(ParseFailure::OutOfDepth);
    }
    let ghost g = grammar@;
    let ghost toks = tokens_view(tokens@);
    let ghost ps = view_parts(parts@);
    let ghost tok = current_token@;
    let ghost c0 = *cursor;
    let ghost target = run_parts(g, toks, ps, 0, tok, c0 as nat, Seq::empty(), fuel as nat);
    assert(toks[c0 as int] == tok);
    let mut children: Vec<CstNode> = Vec::new();
    assert(view_nodes(children@) =~= Seq::<CstView>::empty());
    let mut i: usize = 0;
    while i < parts.len()
        invariant
            i <= parts@.len(),
            *cursor >= c0,
            c0 == *old(cursor),
            fuel > 0,
            g == grammar@,
            toks == tokens_view(tokens@),
            ps == view_parts(parts@),
            tok == current_token@,
            run_parser(grammar@, tokens_view(tokens@), view_parts(parts@), *old(cursor) as nat, fuel as nat)
                == target,
            run_parts(g, toks, ps, i as int, tok, *cursor as nat, view_nodes(children@), fuel as nat)
                == target,
        decreases parts@.len() - i,
    {
        let part = &parts[i];
        assert(ps[i as int] == part@);
        match part {
            GrammerPart::Base(_) | GrammerPart::Terminal(_) => {
                if current_token.matches(part) {
                    if *cursor == usize::MAX {
                        return Err(ParseFailure::CursorOverflow);
                    }
                    let v = current_token.get_value();
                    let leaf_node = CstNode { value: Some(v), children: Vec::new() };
                    assert(view_nodes(leaf_node.children@) =~= Seq::<CstView>::empty());
                    assert(leaf_node@ == leaf(token_value(tok)));
                    proof {
                        lemma_view_nodes_push(children@, leaf_node);
                    }
                    children.push(leaf_node);
                    *cursor = *cursor + 1;
                } else {
                    return Ok(None);
                }
            },
            GrammerPart::NonTerminal(term) => {
                match find_rule(&grammar.rules, term) {
                    None => {
                        return Err(ParseFailure::MissingRule);
                    },
                    Some(k) => {
                        let sub = parser(grammar, tokens, grammar.rules[k].parts.as_slice(), cursor, fuel - 1);
                        match sub {
                            Ok(Some(child)) => {
                                proof {
                                    lemma_view_nodes_push(children@, child);
                                }
                                children.push(child);
                            },
                            Ok(None) => {
                                return Ok(None);
                            },
                            Err(e) => {
                                return Err(e);
                            },
                        }
                    },
                }
            },
            GrammerPart::Repeat(sub_parts) => {
                match repeat_part(grammar, tokens, sub_parts.as_slice(), cursor, &mut children, fuel) {
                    Ok(true) => {},
                    Ok(false) => {
                        return Ok(None);
                    },
                    Err(e) => {
                        return Err(e);
                    },
                }
            },
            GrammerPart::Choice(choices) => {
                match choice_part(grammar, tokens, choices, cursor, &mut children, fuel) {
                    Ok(true) => {},
                    Ok(false) => {
                        return Ok(None);
                    },
                    Err(e) => {
                        return Err(e);
                    },
                }
            },
            GrammerPart::Optional(option) => {
                match parser(grammar, tokens, option.as_slice(), cursor, fuel - 1) {
                    Ok(Some(child)) => {
                        proof {
                            lemma_view_nodes_push(children@, child);
                        }
                        children.push(child);
                    },
                    Ok(None) => {},
                    Err(e) => {
                        return Err(e);
                    },
                }
            },
            GrammerPart::Group(group) => {
                match parser(grammar, tokens, group.as_slice(), cursor, fuel - 1) {
                    Ok(Some(child)) => {
                        proof {
                            lemma_view_nodes_push(children@, child);
                        }
                        children.push(child);
                    },
                    Ok(None) => {
                        return Ok(None);
                    },
                    Err(e) => {
                        return Err(e);
                    },
                }
            },
        }
        i = i + 1;
    }
    let node = CstNode { value: None, children };
    assert(node@ == inner(view_nodes(node.children@)));
    Ok(Some(node))
}

/// The walk of a repetition part: `Ok(true)` when the list goes on,
/// `Ok(false)` when the enclosing list does not match.
fn repeat_part(
    grammar: &Grammer,
    tokens: &[Token],
    sub_parts: &[GrammerPart],
    cursor: &mut usize,
    children: &mut Vec<CstNode>,
    fuel: usize,
) -> (r: Result<bool, ParseFailure>)
    requires
        fuel > 0,
    ensures
        flow_is(
            run_repeat(
                grammar@,
                tokens_view(tokens@),
                view_parts(sub_parts@),
                *old(cursor) as nat,
                view_nodes(old(children)@),
                fuel as nat,
            ),
            r,
            final(children)@,
            *final(cursor),
        ),
        *final(cursor) >= *old(cursor),
    decreases fuel, 1int,
{
    let ghost g = grammar@;
    let ghost toks = tokens_view(tokens@);
    let ghost sub = view_parts(sub_parts@);
    let ghost c0 = *cursor;
    let ghost target = run_repeat(g, toks, sub, c0 as nat, view_nodes(children@), fuel as nat);
    if sub_parts.len() > 1 {
        let entry_part = &sub_parts[0..1];
        let rest_of_subseq = &sub_parts[1..sub_parts.len()];
        proof {
            lemma_view_parts_subrange(sub_parts@, 0, 1);
            lemma_view_parts_subrange(sub_parts@, 1, sub_parts@.len() as int);
            assert(sub.take(1) == sub.subrange(0, 1));
            assert(sub.skip(1) == sub.subrange(1, sub.len() as int));
        }
        loop
            invariant
                *cursor >= c0,
                c0 == *old(cursor),
                fuel > 0,
                g == grammar@,
                toks == tokens_view(tokens@),
                sub == view_parts(sub_parts@),
                sub.len() > 1,
                view_parts(entry_part@) == sub.take(1),
                view_parts(rest_of_subseq@) == sub.skip(1),
                run_repeat(g, toks, sub, *cursor as nat, view_nodes(children@), fuel as nat) == target,
                target == run_repeat(g, toks, sub, *old(cursor) as nat, view_nodes(old(children)@), fuel as nat),
            decreases usize::MAX - *cursor,
        {
            let before: usize = *cursor;
            match parser(grammar, tokens, entry_part, cursor, fuel - 1) {
                Ok(Some(first_child)) => {
                    match parser(grammar, tokens, rest_of_subseq, cursor, fuel - 1) {
                        Ok(Some(second_child)) => {
                            if *cursor == before {
                                return Err(ParseFailure::Loops);
                            }
                            proof {
                                lemma_view_nodes_push(children@, first_child);
                                lemma_view_nodes_push(children@.push(first_child), second_child);
                                assert(view_nodes(children@).push(first_child@).push(second_child@)
                                    =~= view_nodes(children@) + seq![first_child@, second_child@]);
                            }
                            children.push(first_child);
                            children.push(second_child);
                        },
                        Ok(None) => {
                            return Ok(false);
                        },
                        Err(e) => {
                            return Err(e);
                        },
                    }
                },
                Ok(None) => {
                    return Ok(true);
                },
                Err(e) => {
                    return Err(e);
                },
            }
        }
    } else {
        loop
            invariant
                *cursor >= c0,
                c0 == *old(cursor),
                fuel > 0,
                g == grammar@,
                toks == tokens_view(tokens@),
                sub == view_parts(sub_parts@),
                sub.len() <= 1,
                run_repeat(g, toks, sub, *cursor as nat, view_nodes(children@), fuel as nat) == target,
                target == run_repeat(g, toks, sub, *old(cursor) as nat, view_nodes(old(children)@), fuel as nat),
            decreases usize::MAX - *cursor,
        {
            let before: usize = *cursor;
            match parser(grammar, tokens, sub_parts, cursor, fuel - 1) {
                Ok(Some(first_child)) => {
                    if *cursor == before {
                        return Err(ParseFailure::Loops);
                    }
                    proof {
                        lemma_view_nodes_push(children@, first_child);
                    }
                    children.push(first_child);
                },
                Ok(None) => {
                    return Ok(true);
                },
                Err(e) => {
                    return Err(e);
                },
            }
        }
    }
}

/// The walk of a choice part: `Ok(true)` when the list goes on, whether or
/// not an alternative matched.
fn choice_part(
    grammar: &Grammer,
    tokens: &[Token],
    choices: &Vec<Vec<GrammerPart>>,
    cursor: &mut usize,
    children: &mut Vec<CstNode>,
    fuel: usize,
) -> (r: Result<bool, ParseFailure>)
    requires
        fuel > 0,
    ensures
        flow_is(
            run_choice(
                grammar@,
                tokens_view(tokens@),
                view_choices(choices@),
                0,
                *old(cursor) as nat,
                view_nodes(old(children)@),
                fuel as nat,
            ),
            r,
            final(children)@,
            *final(cursor),
        ),
        *final(cursor) >= *old(cursor),
    decreases fuel, 1int,
{
    let ghost g = grammar@;
    let ghost toks = tokens_view(tokens@);
    let ghost alts = view_choices(choices@);
    let ghost c0 = *cursor;
    let ghost target = run_choice(g, toks, alts, 0, c0 as nat, view_nodes(children@), fuel as nat);
    let mut j: usize = 0;
    while j < choices.len()
        invariant
            j <= choices@.len(),
            *cursor >= c0,
            c0 == *old(cursor),
            fuel > 0,
            g == grammar@,
            toks == tokens_view(tokens@),
            alts == view_choices(choices@),
            view_nodes(children@) == view_nodes(old(children)@),
            run_choice(g, toks, alts, j as int, *cursor as nat, view_nodes(children@), fuel as nat) == target,
            target == run_choice(g, toks, alts, 0, *old(cursor) as nat, view_nodes(old(children)@), fuel as nat),
        decreases choices@.len() - j,
    {
        assert(alts[j as int] == view_parts(choices@[j as int]@));
        match parser(grammar, tokens, choices[j].as_slice(), cursor, fuel - 1) {
            Ok(Some(choice_child)) => {
                proof {
                    lemma_view_nodes_push(children@, choice_child);
                }
                children.push(choice_child);
                return Ok(true);
            },
            Ok(None) => {},
            Err(e) => {
                return Err(e);
            },
        }
        j = j + 1;
    }
    Ok(true)
}

/// What walking the grammar's start rule over the tokens from the first one
/// comes to, at most `depth` walks deep.
pub open spec fn spec_parse_expression(g: GrammerView, toks: Seq<TokenView>, depth: nat) -> Step {
    if !g.rules.contains_key(g.start_rule) {
        Step::Failed(ParseFailure::MissingRule)
    } else {
        run_parser(g, toks, g.rules[g.start_rule].parts, 0, depth)
    }
}

/// Parses the tokens by the grammar's start rule, at most `depth` walks deep:
/// `Ok(Some(tree))`, `Ok(None)` where the start rule does not match, or why
/// the walk stopped.
pub fn try_parse_expression(grammar: &Grammer, tokens: &[Token], depth: usize) -> (r: Result<
    Option<CstNode>,
    ParseFailure,
>)
    ensures
        match spec_parse_expression(grammar@, tokens_view(tokens@), depth as nat) {
            Step::Returned(n, _) => r matches Ok(v) && view_opt_node(v) == n,
            Step::Failed(f) => r == Err::<Option<CstNode>, ParseFailure>(f),
        },
        !grammar@.rules.contains_key(grammar@.start_rule) ==> r == Err::<Option<CstNode>, ParseFailure>(
            ParseFailure::MissingRule,
        ),
        grammar@.rules.contains_key(grammar@.start_rule) ==> match run_parser(
            grammar@,
            tokens_view(tokens@),
            grammar@.rules[grammar@.start_rule].parts,
            0,
            depth as nat,
        ) {
            Step::Returned(n, _) => r matches Ok(v) && view_opt_node(v) == n,
            Step::Failed(f) => r == Err::<Option<CstNode>, ParseFailure>(f),
        },
{
    let mut cursor: usize = 0;
    match find_rule(&grammar.rules, &grammar.start_rule) {
        None => Err(ParseFailure::MissingRule),
        Some(k) => parser(grammar, tokens, grammar.rules[k].parts.as_slice(), &mut cursor, depth),
    }
}

/// Parses the tokens by the grammar's start rule into a concrete syntax tree.
pub fn parse_expression(grammar: &Grammer, tokens: &[Token]) -> (r: CstNode)
    requires
        spec_parse_expression(grammar@, tokens_view(tokens@), usize::MAX as nat) matches Step::Returned(
            Some(_),
            _,
        ),
    ensures
        spec_parse_expression(grammar@, tokens_view(tokens@), usize::MAX as nat) matches Step::Returned(
            Some(n),
            _,
        ) && r@ == n,
        grammar@.rules.contains_key(grammar@.start_rule),
        run_parser(
            grammar@,
            tokens_view(tokens@),
            grammar@.rules[grammar@.start_rule].parts,
            0,
            usize::MAX as nat,
        ) matches Step::Returned(Some(n), _) && r@ == n,
{
    match try_parse_expression(grammar, tokens, usize::MAX) {
        Ok(Some(n)) => n,
        _ => {
            assert(false);
            CstNode { value: None, children: Vec::new() }
        },
    }
}

pub open spec fn out_of_depth(s: Step) -> bool {
    s == Step::Failed(ParseFailure::OutOfDepth)
}

pub open spec fn flow_out_of_depth(f: Flow) -> bool {
    f == Flow::Stop(Step::Failed(ParseFailure::OutOfDepth))
}

/// A walk that comes to an answer within some depth comes to the same answer
/// with any larger depth: the depth only cuts walks off, it never changes
/// what they give.
pub proof fn lemma_run_parser_depth(
    g: GrammerView,
    toks: Seq<TokenView>,
    parts: Seq<GPart>,
    cursor: nat,
    f1: nat,
    f2: nat,
)
    requires
        f1 <= f2,
        !out_of_depth(run_parser(g, toks, parts, cursor, f1)),
    ensures
        run_parser(g, toks, parts, cursor, f2) == run_parser(g, toks, parts, cursor, f1),
    decreases f1, 3int, 0int,
{
    if toks.len() <= 1 || cursor >= toks.len() {
    } else if toks[cursor as int] is End {
    } else {
        lemma_run_parts_depth(g, toks, parts, 0, toks[cursor as int], cursor, Seq::empty(), f1, f2);
    }
}

pub proof fn lemma_run_parts_depth(
    g: GrammerView,
    toks: Seq<TokenView>,
    parts: Seq<GPart>,
    i: int,
    tok: TokenView,
    cursor: nat,
    children: Seq<CstView>,
    f1: nat,
    f2: nat,
)
    requires
        f1 <= f2,
        !out_of_depth(run_parts(g, toks, parts, i, tok, cursor, children, f1)),
    ensures
        run_parts(g, toks, parts, i, tok, cursor, children, f2) == run_parts(
            g,
            toks,
            parts,
            i,
            tok,
            cursor,
            children,
            f1,
        ),
    decreases f1, 2int, parts.len() - i,
{
    if f1 == 0 || !(0 <= i < parts.len()) {
    } else {
        match parts[i] {
            GPart::Base(_) | GPart::Terminal(_) => {
                if token_matches(tok, parts[i]) && cursor + 1 <= usize::MAX {
                    lemma_run_parts_depth(
                        g,
                        toks,
                        parts,
                        i + 1,
                        tok,
                        cursor + 1,
                        children.push(leaf(token_value(tok))),
                        f1,
                        f2,
                    );
                }
            },
            GPart::NonTerminal(name) => {
                if g.rules.contains_key(name) {
                    let r = run_parser(g, toks, g.rules[name].parts, cursor, (f1 - 1) as nat);
                    lemma_run_parser_depth(g, toks, g.rules[name].parts, cursor, (f1 - 1) as nat, (f2 - 1) as nat);
                    if let Step::Returned(Some(child), c) = r {
                        lemma_run_parts_depth(g, toks, parts, i + 1, tok, c, children.push(child), f1, f2);
                    }
                }
            },
            GPart::Repeat(sub) => {
                lemma_run_repeat_depth(g, toks, sub, cursor, children, f1, f2);
                if let Flow::Next(ch, c) = run_repeat(g, toks, sub, cursor, children, f1) {
                    lemma_run_parts_depth(g, toks, parts, i + 1, tok, c, ch, f1, f2);
                }
            },
            GPart::Choice(alts) => {
                lemma_run_choice_depth(g, toks, alts, 0, cursor, children, f1, f2);
                if let Flow::Next(ch, c) = run_choice(g, toks, alts, 0, cursor, children, f1) {
                    lemma_run_parts_depth(g, toks, parts, i + 1, tok, c, ch, f1, f2);
                }
            },
            GPart::Optional(opt) => {
                let r = run_parser(g, toks, opt, cursor, (f1 - 1) as nat);
                lemma_run_parser_depth(g, toks, opt, cursor, (f1 - 1) as nat, (f2 - 1) as nat);
                match r {
                    Step::Returned(Some(child), c) => {
                        lemma_run_parts_depth(g, toks, parts, i + 1, tok, c, children.push(child), f1, f2);
                    },
                    Step::Returned(None, c) => {
                        lemma_run_parts_depth(g, toks, parts, i + 1, tok, c, children, f1, f2);
                    },
                    _ => {},
                }
            },
            GPart::Group(grp) => {
                let r = run_parser(g, toks, grp, cursor, (f1 - 1) as nat);
                lemma_run_parser_depth(g, toks, grp, cursor, (f1 - 1) as nat, (f2 - 1) as nat);
                if let Step::Returned(Some(child), c) = r {
                    lemma_run_parts_depth(g, toks, parts, i + 1, tok, c, children.push(child), f1, f2);
                }
            },
        }
    }
}

pub proof fn lemma_run_repeat_depth(
    g: GrammerView,
    toks: Seq<TokenView>,
    sub: Seq<GPart>,
    cursor: nat,
    children: Seq<CstView>,
    f1: nat,
    f2: nat,
)
    requires
        f1 <= f2,
        !flow_out_of_depth(run_repeat(g, toks, sub, cursor, children, f1)),
    ensures
        run_repeat(g, toks, sub, cursor, children, f2) == run_repeat(g, toks, sub, cursor, children, f1),
    decreases f1, 1int, usize::MAX - cursor,
{
    if f1 == 0 {
    } else if sub.len() > 1 {
        let r1 = run_parser(g, toks, sub.take(1), cursor, (f1 - 1) as nat);
        lemma_run_parser_depth(g, toks, sub.take(1), cursor, (f1 - 1) as nat, (f2 - 1) as nat);
        if let Step::Returned(Some(first), c1) = r1 {
            let r2 = run_parser(g, toks, sub.skip(1), c1, (f1 - 1) as nat);
            lemma_run_parser_depth(g, toks, sub.skip(1), c1, (f1 - 1) as nat, (f2 - 1) as nat);
            if let Step::Returned(Some(second), c2) = r2 {
                if cursor < c2 <= usize::MAX {
                    lemma_run_repeat_depth(g, toks, sub, c2, children + seq![first, second], f1, f2);
                }
            }
        }
    } else {
        let r = run_parser(g, toks, sub, cursor, (f1 - 1) as nat);
        lemma_run_parser_depth(g, toks, sub, cursor, (f1 - 1) as nat, (f2 - 1) as nat);
        if let Step::Returned(Some(child), c1) = r {
            if cursor < c1 <= usize::MAX {
                lemma_run_repeat_depth(g, toks, sub, c1, children.push(child), f1, f2);
            }
        }
    }
}

pub proof fn lemma_run_choice_depth(
    g: GrammerView,
    toks: Seq<TokenView>,
    alts: Seq<Seq<GPart>>,
    j: int,
    cursor: nat,
    children: Seq<CstView>,
    f1: nat,
    f2: nat,
)
    requires
        f1 <= f2,
        !flow_out_of_depth(run_choice(g, toks, alts, j, cursor, children, f1)),
    ensures
        run_choice(g, toks, alts, j, cursor, children, f2) == run_choice(g, toks, alts, j, cursor, children, f1),
    decreases f1, 1int, alts.len() - j,
{
    if f1 == 0 || !(0 <= j < alts.len()) {
    } else {
        let r = run_parser(g, toks, alts[j], cursor, (f1 - 1) as nat);
        lemma_run_parser_depth(g, toks, alts[j], cursor, (f1 - 1) as nat, (f2 - 1) as nat);
        if let Step::Returned(None, c) = r {
            lemma_run_choice_depth(g, toks, alts, j + 1, c, children, f1, f2);
        }
    }
}

/// A parse of the whole token list that comes to an answer within some depth
/// comes to the same answer with any larger depth.
pub proof fn lemma_parse_expression_depth(g: GrammerView, toks: Seq<TokenView>, d1: nat, d2: nat)
    requires
        d1 <= d2,
        !out_of_depth(spec_parse_expression(g, toks, d1)),
    ensures
        spec_parse_expression(g, toks, d2) == spec_parse_expression(g, toks, d1),
{
    if g.rules.contains_key(g.start_rule) {
        lemma_run_parser_depth(g, toks, g.rules[g.start_rule].parts, 0, d1, d2);
    }
}

pub open spec fn step_moves_forward(s: Step, cursor: nat) -> bool {
    s matches Step::Returned(_, c) ==> c >= cursor
}

pub open spec fn flow_moves_forward(f: Flow, cursor: nat) -> bool {
    &&& f matches Flow::Next(_, c) ==> c >= cursor
    &&& f matches Flow::Stop(s) ==> step_moves_forward(s, cursor)
}

/// A walk never moves the token position back.
pub proof fn lemma_run_parser_forward(
    g: GrammerView,
    toks: Seq<TokenView>,
    parts: Seq<GPart>,
    cursor: nat,
    fuel: nat,
)
    ensures
        step_moves_forward(run_parser(g, toks, parts, cursor, fuel), cursor),
    decreases fuel, 3int, 0int,
{
    if toks.len() <= 1 || cursor >= toks.len() {
    } else if toks[cursor as int] is End {
    } else if fuel > 0 {
        lemma_run_parts_forward(g, toks, parts, 0, toks[cursor as int], cursor, Seq::empty(), fuel);
    }
}

pub proof fn lemma_run_parts_forward(
    g: GrammerView,
    toks: Seq<TokenView>,
    parts: Seq<GPart>,
    i: int,
    tok: TokenView,
    cursor: nat,
    children: Seq<CstView>,
    fuel: nat,
)
    ensures
        step_moves_forward(run_parts(g, toks, parts, i, tok, cursor, children, fuel), cursor),
    decreases fuel, 2int, parts.len() - i,
{
    if fuel == 0 || !(0 <= i < parts.len()) {
    } else {
        match parts[i] {
            GPart::Base(_) | GPart::Terminal(_) => {
                if token_matches(tok, parts[i]) && cursor + 1 <= usize::MAX {
                    lemma_run_parts_forward(
                        g,
                        toks,
                        parts,
                        i + 1,
                        tok,
                        cursor + 1,
                        children.push(leaf(token_value(tok))),
                        fuel,
                    );
                }
            },
            GPart::NonTerminal(name) => {
                if g.rules.contains_key(name) {
                    let r = run_parser(g, toks, g.rules[name].parts, cursor, (fuel - 1) as nat);
                    lemma_run_parser_forward(g, toks, g.rules[name].parts, cursor, (fuel - 1) as nat);
                    if let Step::Returned(Some(child), c) = r {
                        lemma_run_parts_forward(g, toks, parts, i + 1, tok, c, children.push(child), fuel);
                    }
                }
            },
            GPart::Repeat(sub) => {
                lemma_run_repeat_forward(g, toks, sub, cursor, children, fuel);
                if let Flow::Next(ch, c) = run_repeat(g, toks, sub, cursor, children, fuel) {
                    lemma_run_parts_forward(g, toks, parts, i + 1, tok, c, ch, fuel);
                }
            },
            GPart::Choice(alts) => {
                lemma_run_choice_forward(g, toks, alts, 0, cursor, children, fuel);
                if let Flow::Next(ch, c) = run_choice(g, toks, alts, 0, cursor, children, fuel) {
                    lemma_run_parts_forward(g, toks, parts, i + 1, tok, c, ch, fuel);
                }
            },
            GPart::Optional(opt) => {
                let r = run_parser(g, toks, opt, cursor, (fuel - 1) as nat);
                lemma_run_parser_forward(g, toks, opt, cursor, (fuel - 1) as nat);
                match r {
                    Step::Returned(Some(child), c) => {
                        lemma_run_parts_forward(g, toks, parts, i + 1, tok, c, children.push(child), fuel);
                    },
                    Step::Returned(None, c) => {
                        lemma_run_parts_forward(g, toks, parts, i + 1, tok, c, children, fuel);
                    },
                    _ => {},
                }
            },
            GPart::Group(grp) => {
                let r = run_parser(g, toks, grp, cursor, (fuel - 1) as nat);
                lemma_run_parser_forward(g, toks, grp, cursor, (fuel - 1) as nat);
                if let Step::Returned(Some(child), c) = r {
                    lemma_run_parts_forward(g, toks, parts, i + 1, tok, c, children.push(child), fuel);
                }
            },
        }
    }
}

pub proof fn lemma_run_repeat_forward(
    g: GrammerView,
    toks: Seq<TokenView>,
    sub: Seq<GPart>,
    cursor: nat,
    children: Seq<CstView>,
    fuel: nat,
)
    ensures
        flow_moves_forward(run_repeat(g, toks, sub, cursor, children, fuel), cursor),
    decreases fuel, 1int, usize::MAX - cursor,
{
    if fuel == 0 {
    } else if sub.len() > 1 {
        let r1 = run_parser(g, toks, sub.take(1), cursor, (fuel - 1) as nat);
        lemma_run_parser_forward(g, toks, sub.take(1), cursor, (fuel - 1) as nat);
        if let Step::Returned(Some(first), c1) = r1 {
            let r2 = run_parser(g, toks, sub.skip(1), c1, (fuel - 1) as nat);
            lemma_run_parser_forward(g, toks, sub.skip(1), c1, (fuel - 1) as nat);
            if let Step::Returned(Some(second), c2) = r2 {
                if cursor < c2 <= usize::MAX {
                    lemma_run_repeat_forward(g, toks, sub, c2, children + seq![first, second], fuel);
                }
            }
        }
    } else {
        let r = run_parser(g, toks, sub, cursor, (fuel - 1) as nat);
        lemma_run_parser_forward(g, toks, sub, cursor, (fuel - 1) as nat);
        if let Step::Returned(Some(child), c1) = r {
            if cursor < c1 <= usize::MAX {
                lemma_run_repeat_forward(g, toks, sub, c1, children.push(child), fuel);
            }
        }
    }
}

pub proof fn lemma_run_choice_forward(
    g: GrammerView,
    toks: Seq<TokenView>,
    alts: Seq<Seq<GPart>>,
    j: int,
    cursor: nat,
    children: Seq<CstView>,
    fuel: nat,
)
    ensures
        flow_moves_forward(run_choice(g, toks, alts, j, cursor, children, fuel), cursor),
    decreases fuel, 1int, alts.len() - j,
{
    if fuel == 0 || !(0 <= j < alts.len()) {
    } else {
        let r = run_parser(g, toks, alts[j], cursor, (fuel - 1) as nat);
        lemma_run_parser_forward(g, toks, alts[j], cursor, (fuel - 1) as nat);
        if let Step::Returned(None, c) = r {
            lemma_run_choice_forward(g, toks, alts, j + 1, c, children, fuel);
        }
    }
}

/// `front` stands, in order, at the front of `all`.
pub open spec fn at_front(front: Seq<CstView>, all: Seq<CstView>) -> bool {
    front.len() <= all.len() && all.take(front.len() as int) == front
}

proof fn lemma_at_front_trans(a: Seq<CstView>, b: Seq<CstView>, c: Seq<CstView>)
    requires
        at_front(a, b),
        at_front(b, c),
    ensures
        at_front(a, c),
{
    assert(c.take(a.len() as int) =~= c.take(b.len() as int).take(a.len() as int));
}

proof fn lemma_run_repeat_keeps(
    g: GrammerView,
    toks: Seq<TokenView>,
    sub: Seq<GPart>,
    cursor: nat,
    children: Seq<CstView>,
    fuel: nat,
)
    ensures
        run_repeat(g, toks, sub, cursor, children, fuel) matches Flow::Next(ch, _) ==> at_front(children, ch),
        !(run_repeat(g, toks, sub, cursor, children, fuel) matches Flow::Stop(Step::Returned(Some(_), _))),
    decreases usize::MAX - cursor,
{
    if fuel == 0 {
    } else if sub.len() > 1 {
        let r1 = run_parser(g, toks, sub.take(1), cursor, (fuel - 1) as nat);
        if let Step::Returned(Some(first), c1) = r1 {
            let r2 = run_parser(g, toks, sub.skip(1), c1, (fuel - 1) as nat);
            if let Step::Returned(Some(second), c2) = r2 {
                if cursor < c2 <= usize::MAX {
                    let more = children + seq![first, second];
                    lemma_run_repeat_keeps(g, toks, sub, c2, more, fuel);
                    assert(more.take(children.len() as int) =~= children);
                    if let Flow::Next(ch, _) = run_repeat(g, toks, sub, c2, more, fuel) {
                        lemma_at_front_trans(children, more, ch);
                    }
                }
            }
        } else {
            assert(children.take(children.len() as int) =~= children);
        }
    } else {
        let r = run_parser(g, toks, sub, cursor, (fuel - 1) as nat);
        if let Step::Returned(Some(child), c1) = r {
            if cursor < c1 <= usize::MAX {
                let more = children.push(child);
                lemma_run_repeat_keeps(g, toks, sub, c1, more, fuel);
                assert(more.take(children.len() as int) =~= children);
                if let Flow::Next(ch, _) = run_repeat(g, toks, sub, c1, more, fuel) {
                    lemma_at_front_trans(children, more, ch);
                }
            }
        } else {
            assert(children.take(children.len() as int) =~= children);
        }
    }
}

proof fn lemma_run_choice_keeps(
    g: GrammerView,
    toks: Seq<TokenView>,
    alts: Seq<Seq<GPart>>,
    j: int,
    cursor: nat,
    children: Seq<CstView>,
    fuel: nat,
)
    ensures
        run_choice(g, toks, alts, j, cursor, children, fuel) matches Flow::Next(ch, _) ==> at_front(children, ch),
        !(run_choice(g, toks, alts, j, cursor, children, fuel) matches Flow::Stop(Step::Returned(Some(_), _))),
    decreases alts.len() - j,
{
    assert(children.take(children.len() as int) =~= children);
    if fuel == 0 || !(0 <= j < alts.len()) {
    } else {
        let r = run_parser(g, toks, alts[j], cursor, (fuel - 1) as nat);
        match r {
            Step::Returned(Some(child), c) => {
                assert(children.push(child).take(children.len() as int) =~= children);
            },
            Step::Returned(None, c) => {
                lemma_run_choice_keeps(g, toks, alts, j + 1, c, children, fuel);
            },
            _ => {},
        }
    }
}

/// The walk of a list never drops a child it has collected: the children it
/// starts with stand, in order, at the front of the children of the node it
/// returns.
pub proof fn lemma_run_parts_keeps(
    g: GrammerView,
    toks: Seq<TokenView>,
    parts: Seq<GPart>,
    i: int,
    tok: TokenView,
    cursor: nat,
    children: Seq<CstView>,
    fuel: nat,
)
    ensures
        run_parts(g, toks, parts, i, tok, cursor, children, fuel) matches Step::Returned(Some(n), _) ==> at_front(
            children,
            n.children,
        ),
    decreases parts.len() - i,
{
    assert(children.take(children.len() as int) =~= children);
    if fuel == 0 || !(0 <= i < parts.len()) {
    } else {
        let res = run_parts(g, toks, parts, i, tok, cursor, children, fuel);
        let mut next: Seq<CstView> = children;
        let mut c: nat = cursor;
        let mut goes_on = false;
        match parts[i] {
            GPart::Base(_) | GPart::Terminal(_) => {
                if token_matches(tok, parts[i]) && cursor + 1 <= usize::MAX {
                    next = children.push(leaf(token_value(tok)));
                    c = cursor + 1;
                    goes_on = true;
                }
            },
            GPart::NonTerminal(name) => {
                if g.rules.contains_key(name) {
                    if let Step::Returned(Some(child), c1) = run_parser(
                        g,
                        toks,
                        g.rules[name].parts,
                        cursor,
                        (fuel - 1) as nat,
                    ) {
                        next = children.push(child);
                        c = c1;
                        goes_on = true;
                    }
                }
            },
            GPart::Repeat(sub) => {
                lemma_run_repeat_keeps(g, toks, sub, cursor, children, fuel);
                if let Flow::Next(ch, c1) = run_repeat(g, toks, sub, cursor, children, fuel) {
                    next = ch;
                    c = c1;
                    goes_on = true;
                }
            },
            GPart::Choice(alts) => {
                lemma_run_choice_keeps(g, toks, alts, 0, cursor, children, fuel);
                if let Flow::Next(ch, c1) = run_choice(g, toks, alts, 0, cursor, children, fuel) {
                    next = ch;
                    c = c1;
                    goes_on = true;
                }
            },
            GPart::Optional(opt) => {
                match run_parser(g, toks, opt, cursor, (fuel - 1) as nat) {
                    Step::Returned(Some(child), c1) => {
                        next = children.push(child);
                        c = c1;
                        goes_on = true;
                    },
                    Step::Returned(None, c1) => {
                        c = c1;
                        goes_on = true;
                    },
                    _ => {},
                }
            },
            GPart::Group(grp) => {
                if let Step::Returned(Some(child), c1) = run_parser(g, toks, grp, cursor, (fuel - 1) as nat) {
                    next = children.push(child);
                    c = c1;
                    goes_on = true;
                }
            },
        }
        if goes_on {
            assert(res == run_parts(g, toks, parts, i + 1, tok, c, next, fuel));
            assert(at_front(children, next)) by {
                assert(next.take(children.len() as int) =~= children);
            }
            lemma_run_parts_keeps(g, toks, parts, i + 1, tok, c, next, fuel);
            if let Step::Returned(Some(n), _) = res {
                lemma_at_front_trans(children, next, n.children);
            }
        }
    }
}

/// Where an optional part matches, its node is kept: the walk goes on from
/// where the option left the position, and the node the list returns holds
/// the children collected before the option, then the option's node right
/// after them.
pub proof fn lemma_optional_match_kept(
    g: GrammerView,
    toks: Seq<TokenView>,
    parts: Seq<GPart>,
    i: int,
    opt: Seq<GPart>,
    tok: TokenView,
    cursor: nat,
    children: Seq<CstView>,
    fuel: nat,
)
    requires
        0 <= i < parts.len(),
        parts[i] == GPart::Optional(opt),
        fuel > 0,
        run_parser(g, toks, opt, cursor, (fuel - 1) as nat) is Returned,
        run_parser(g, toks, opt, cursor, (fuel - 1) as nat)->Returned_0 is Some,
    ensures
        ({
            let child = run_parser(g, toks, opt, cursor, (fuel - 1) as nat)->Returned_0.unwrap();
            let c = run_parser(g, toks, opt, cursor, (fuel - 1) as nat)->Returned_1;
            &&& run_parts(g, toks, parts, i, tok, cursor, children, fuel) == run_parts(
                g,
                toks,
                parts,
                i + 1,
                tok,
                c,
                children.push(child),
                fuel,
            )
            &&& run_parts(g, toks, parts, i, tok, cursor, children, fuel) matches Step::Returned(Some(n), _)
                ==> {
                &&& n.children.len() > children.len()
                &&& n.children.take(children.len() as int) == children
                &&& n.children[children.len() as int] == child
            }
        }),
{
    let child = run_parser(g, toks, opt, cursor, (fuel - 1) as nat)->Returned_0.unwrap();
    let c = run_parser(g, toks, opt, cursor, (fuel - 1) as nat)->Returned_1;
    let more = children.push(child);
    lemma_run_parts_keeps(g, toks, parts, i + 1, tok, c, more, fuel);
    if let Step::Returned(Some(n), _) = run_parts(g, toks, parts, i + 1, tok, c, more, fuel) {
        assert(n.children.take(more.len() as int)[children.len() as int] == n.children[children.len() as int]);
        assert(n.children.take(children.len() as int) =~= n.children.take(more.len() as int).take(
            children.len() as int,
        ));
        assert(more.take(children.len() as int) =~= children);
    }
}

proof fn lemma_run_parts_same_tail(
    g: GrammerView,
    toks: Seq<TokenView>,
    p1: Seq<GPart>,
    p2: Seq<GPart>,
    i: int,
    tok: TokenView,
    cursor: nat,
    children: Seq<CstView>,
    fuel: nat,
)
    requires
        p1.len() == p2.len(),
        forall|k: int| 0 <= k && i <= k < p1.len() ==> p1[k] == p2[k],
    ensures
        run_parts(g, toks, p1, i, tok, cursor, children, fuel) == run_parts(g, toks, p2, i, tok, cursor, children, fuel),
    decreases p1.len() - i,
{
    if fuel > 0 && 0 <= i < p1.len() {
        assert(p1[i] == p2[i]);
        match p1[i] {
            GPart::Base(_) | GPart::Terminal(_) => {
                lemma_run_parts_same_tail(
                    g,
                    toks,
                    p1,
                    p2,
                    i + 1,
                    tok,
                    cursor + 1,
                    children.push(leaf(token_value(tok))),
                    fuel,
                );
            },
            GPart::NonTerminal(name) => {
                if g.rules.contains_key(name) {
                    if let Step::Returned(Some(child), c) = run_parser(
                        g,
                        toks,
                        g.rules[name].parts,
                        cursor,
                        (fuel - 1) as nat,
                    ) {
                        lemma_run_parts_same_tail(g, toks, p1, p2, i + 1, tok, c, children.push(child), fuel);
                    }
                }
            },
            GPart::Repeat(sub) => {
                if let Flow::Next(ch, c) = run_repeat(g, toks, sub, cursor, children, fuel) {
                    lemma_run_parts_same_tail(g, toks, p1, p2, i + 1, tok, c, ch, fuel);
                }
            },
            GPart::Choice(alts) => {
                if let Flow::Next(ch, c) = run_choice(g, toks, alts, 0, cursor, children, fuel) {
                    lemma_run_parts_same_tail(g, toks, p1, p2, i + 1, tok, c, ch, fuel);
                }
            },
            GPart::Optional(opt) => {
                match run_parser(g, toks, opt, cursor, (fuel - 1) as nat) {
                    Step::Returned(Some(child), c) => {
                        lemma_run_parts_same_tail(g, toks, p1, p2, i + 1, tok, c, children.push(child), fuel);
                    },
                    Step::Returned(None, c) => {
                        lemma_run_parts_same_tail(g, toks, p1, p2, i + 1, tok, c, children, fuel);
                    },
                    _ => {},
                }
            },
            GPart::Group(grp) => {
                if let Step::Returned(Some(child), c) = run_parser(g, toks, grp, cursor, (fuel - 1) as nat) {
                    lemma_run_parts_same_tail(g, toks, p1, p2, i + 1, tok, c, children.push(child), fuel);
                }
            },
        }
    }
}

/// An optional part that matches is walked exactly as a group of the same
/// parts would be.
pub proof fn lemma_optional_match_as_group(
    g: GrammerView,
    toks: Seq<TokenView>,
    parts: Seq<GPart>,
    i: int,
    opt: Seq<GPart>,
    tok: TokenView,
    cursor: nat,
    children: Seq<CstView>,
    fuel: nat,
)
    requires
        0 <= i < parts.len(),
        parts[i] == GPart::Optional(opt),
        run_parser(g, toks, opt, cursor, (fuel - 1) as nat) is Returned,
        run_parser(g, toks, opt, cursor, (fuel - 1) as nat)->Returned_0 is Some,
    ensures
        run_parts(g, toks, parts, i, tok, cursor, children, fuel) == run_parts(
            g,
            toks,
            parts.update(i, GPart::Group(opt)),
            i,
            tok,
            cursor,
            children,
            fuel,
        ),
{
    let p2 = parts.update(i, GPart::Group(opt));
    let child = run_parser(g, toks, opt, cursor, (fuel - 1) as nat)->Returned_0.unwrap();
    let c = run_parser(g, toks, opt, cursor, (fuel - 1) as nat)->Returned_1;
    lemma_run_parts_same_tail(g, toks, parts, p2, i + 1, tok, c, children.push(child), fuel);
}

} // verus!
