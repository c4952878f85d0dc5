//! Arithmetic expressions: tokens, a parser that builds a tree by operator
//! priority, an evaluator, and a drawing of the tree.
//!
//! `1 + 2 - 3` becomes `(1 + 2) - 3`: the operator of the largest priority
//! outside parentheses, the last of them where several have it, is the root,
//! so `+` and `-` (priority 2) bind more loosely than `*` and `/`
//! (priority 1), and operators of one priority group from the left.
use vstd::prelude::*;

use crate::text::{chars_to_string, push_char, str_chars, strings_view};

verus! {

/// An arithmetic operator together with its priority.
///
/// A larger priority binds more loosely: the operator with the largest
/// priority at the top level of an expression becomes its root.
#[derive(Debug, Clone, Copy, PartialEq, Eq)]
pub enum OpType {
    Add(u8),
    Multiply(u8),
    Divide(u8),
    Subtract(u8),
}

impl OpType {
    /// The priority carried by the operator.
    pub open spec fn priority(self) -> u8 {
        match self {
            OpType::Add(a) => a,
            OpType::Multiply(a) => a,
            OpType::Divide(a) => a,
            OpType::Subtract(a) => a,
        }
    }

    pub fn get_priority(&self) -> (p: u8)
        ensures
            p == self.priority(),
    {
        match self {
            OpType::Add(a) => *a,
            OpType::Divide(a) => *a,
            OpType::Multiply(a) => *a,
            OpType::Subtract(a) => *a,
        }
    }
}

/// A token of an arithmetic expression.
#[derive(Debug, Clone)]
pub enum Token {
    Op(OpType),
    Delimiter(String),
    Lit(i32),
}

/// The mathematical value of a [`Token`].
pub enum TokenView {
    Op(OpType),
    Delimiter(Seq<char>),
    Lit(i32),
}

impl View for Token {
    type V = TokenView;

    open spec fn view(&self) -> TokenView {
        match self {
            Token::Op(op) => TokenView::Op(*op),
            Token::Delimiter(d) => TokenView::Delimiter(d@),
            Token::Lit(v) => TokenView::Lit(*v),
        }
    }
}

pub open spec fn tokens_view(v: Seq<Token>) -> Seq<TokenView> {
    v.map_values(|t: Token| t@)
}

impl Token {
    /// The operator of an operator token.
    pub fn get_op(&self) -> (op: OpType)
        requires
            self@ is Op,
        ensures
            self@ == TokenView::Op(op),
    {
        match self {
            Token::Op(op) => *op,
            _ => {
                assert(false);
                OpType::Add(0)
            },
        }
    }
}

/// An arithmetic expression: a literal, or an operator applied to two
/// expressions.
#[derive(Debug)]
pub enum Expr {
    Binary { left: Box<Expr>, op: OpType, right: Box<Expr> },
    Lit(i32),
}

/// The operators by their character, with their priorities: `+` and `-`
/// have priority 2, `/` and `*` priority 1.
pub open spec fn standard_priorities() -> Seq<(char, OpType)> {
    seq![('+', OpType::Add(2)), ('-', OpType::Subtract(2)), ('/', OpType::Divide(1)), ('*', OpType::Multiply(1))]
}

/// No character occurs twice among the keys of a map.
pub open spec fn distinct_keys(m: Seq<(char, OpType)>) -> bool {
    forall|i: int, j: int| 0 <= i < j < m.len() ==> m[i].0 != m[j].0
}

pub fn build_proirity_map() -> (m: Vec<(char, OpType)>)
    ensures
        m@ == standard_priorities(),
        distinct_keys(m@),
{
    let mut op_priority: Vec<(char, OpType)> = Vec::new();
    op_priority.push(('+', OpType::Add(2)));
    op_priority.push(('-', OpType::Subtract(2)));
    op_priority.push(('/', OpType::Divide(1)));
    op_priority.push(('*', OpType::Multiply(1)));
    assert(op_priority@ =~= standard_priorities());
    op_priority
}

/// The operator that the map gives for `c`: that of its first entry for `c`.
pub open spec fn lookup_op(m: Seq<(char, OpType)>, c: char) -> Option<OpType>
    decreases m.len(),
{
    if m.len() == 0 {
        None
    } else if m[0].0 == c {
        Some(m[0].1)
    } else {
        lookup_op(m.drop_first(), c)
    }
}

pub open spec fn is_operand(c: char) -> bool {
    c == '+' || c == '-' || c == '/' || c == '*'
}

pub open spec fn is_delimiter(c: char) -> bool {
    c == '(' || c == ')'
}

/// What one character of an expression becomes: `Some(Some(token))`, or
/// `Some(None)` for a space, which is dropped, or `None` for a character the
/// tokenizer stops on: an operator the map does not know, or anything but an
/// operator, a parenthesis, a space or an ASCII digit.
pub open spec fn char_token(c: char, m: Seq<(char, OpType)>) -> Option<Option<TokenView>> {
    if is_operand(c) {
        match lookup_op(m, c) {
            Some(op) => Some(Some(TokenView::Op(op))),
            None => None,
        }
    } else if is_delimiter(c) {
        Some(Some(TokenView::Delimiter(seq![c])))
    } else if c == ' ' {
        Some(None)
    } else if '0' <= c && c <= '9' {
        Some(Some(TokenView::Lit((c as int - '0' as int) as i32)))
    } else {
        None
    }
}

/// The tokens of an expression, one per character but for spaces; each digit
/// is a literal of its own.
pub open spec fn tokenize(s: Seq<char>, m: Seq<(char, OpType)>) -> Option<Seq<TokenView>>
    decreases s.len(),
{
    if s.len() == 0 {
        Some(Seq::empty())
    } else {
        match tokenize(s.drop_last(), m) {
            None => None,
            Some(r) => match char_token(s.last(), m) {
                None => None,
                Some(None) => Some(r),
                Some(Some(t)) => Some(r.push(t)),
            },
        }
    }
}

fn find_op(m: &Vec<(char, OpType)>, c: char) -> (r: Option<OpType>)
    ensures
        r == lookup_op(m@, c),
{
    let mut k: usize = 0;
    assert(m@.skip(0) =~= m@);
    while k < m.len()
        invariant
            k <= m@.len(),
            lookup_op(m@, c) == lookup_op(m@.skip(k as int), c),
        decreases m@.len() - k,
    {
        assert(m@.skip(k as int).drop_first() =~= m@.skip(k + 1));
        if m[k].0 == c {
            return Some(m[k].1);
        }
        k = k + 1;
    }
    None
}

/// A string holding the one character `c`.
fn char_string(c: char) -> (s: String)
    ensures
        s@ == seq![c],
{
    let mut s = String::new();
    push_char(&mut s, c);
    assert(s@ =~= seq![c]);
    s
}

/// The tokens of an expression; `None` where the tokenizer stops.
pub fn try_tokenize(input_expression: &str, op_priority: &Vec<(char, OpType)>) -> (r: Option<Vec<Token>>)
    ensures
        match r {
            Some(v) => tokenize(input_expression@, op_priority@) == Some(tokens_view(v@)),
            None => tokenize(input_expression@, op_priority@) is None,
        },
{
    let chunks = str_chars(input_expression);
    let ghost m = op_priority@;
    let mut tokens: Vec<Token> = Vec::new();
    let mut i: usize = 0;
    assert(chunks@.take(0) =~= Seq::<char>::empty());
    assert(tokens_view(tokens@) =~= Seq::<TokenView>::empty());
    while i < chunks.len()
        invariant
            i <= chunks@.len(),
            m == op_priority@,
            chunks@ == input_expression@,
            tokenize(chunks@.take(i as int), m) == Some(tokens_view(tokens@)),
        decreases chunks@.len() - i,
    {
        let c = chunks[i];
        assert(chunks@.take(i + 1).drop_last() =~= chunks@.take(i as int));
        assert(chunks@.take(i + 1).last() == c);
        let ghost before = tokens_view(tokens@);
        if c == '+' || c == '-' || c == '/' || c == '*' {
            match find_op(op_priority, c) {
                Some(op) => {
                    tokens.push(Token::Op(op));
                },
                None => {
                    assert(tokenize(chunks@.take(i + 1), m) is None);
                    proof {
                        lemma_tokenize_none_extends(chunks@.take(i + 1), chunks@.skip(i + 1), m);
                        assert(chunks@ =~= chunks@.take(i + 1) + chunks@.skip(i + 1));
                    }
                    return None;
                },
            }
        } else if c == '(' || c == ')' {
            tokens.push(Token::Delimiter(char_string(c)));
        } else if c == ' ' {
        } else if '0' <= c && c <= '9' {
            let d = (c as u32 - '0' as u32) as i32;
            tokens.push(Token::Lit(d));
        } else {
            assert(tokenize(chunks@.take(i + 1), m) is None);
            proof {
                lemma_tokenize_none_extends(chunks@.take(i + 1), chunks@.skip(i + 1), m);
                assert(chunks@ =~= chunks@.take(i + 1) + chunks@.skip(i + 1));
            }
            return None;
        }
        assert(tokens_view(tokens@) =~= match char_token(c, m) {
            Some(Some(t)) => before.push(t),
            _ => before,
        });
        i = i + 1;
    }
    assert(chunks@.take(chunks@.len() as int) =~= chunks@);
    Some(tokens)
}

pub proof fn lemma_tokenize_none_extends(a: Seq<char>, b: Seq<char>, m: Seq<(char, OpType)>)
    requires
        tokenize(a, m) is None,
    ensures
        tokenize(a + b, m) is None,
    decreases b.len(),
{
    if b.len() == 0 {
        assert(a + b =~= a);
    } else {
        lemma_tokenize_none_extends(a, b.drop_last(), m);
        assert((a + b).drop_last() =~= a + b.drop_last());
    }
}

/// The tokens of an expression, for one on which the tokenizer does not stop.
pub fn tokenizer(input_expression: &str, op_priority: &Vec<(char, OpType)>) -> (r: Vec<Token>)
    requires
        tokenize(input_expression@, op_priority@) is Some,
    ensures
        tokenize(input_expression@, op_priority@) == Some(tokens_view(r@)),
{
    match try_tokenize(input_expression, op_priority) {
        Some(v) => v,
        None => {
            assert(false);
            Vec::new()
        },
    }
}

/// How much a token changes the parenthesis depth.
pub open spec fn depth_change(t: TokenView) -> int {
    match t {
        TokenView::Delimiter(d) => if d == seq!['('] {
            1
        } else if d == seq![')'] {
            -1
        } else {
            0
        },
        _ => 0,
    }
}

/// The parenthesis depth before the token at index `i`.
pub open spec fn depth_before(toks: Seq<TokenView>, i: int) -> int
    decreases i,
{
    if i <= 0 {
        0
    } else {
        depth_before(toks, i - 1) + depth_change(toks[i - 1])
    }
}

/// The token at `i` is an operator outside all parentheses.
pub open spec fn is_top_op(toks: Seq<TokenView>, i: int) -> bool {
    0 <= i < toks.len() && toks[i] is Op && depth_before(toks, i) == 0
}

pub open spec fn prio_at(toks: Seq<TokenView>, i: int) -> int {
    match toks[i] {
        TokenView::Op(op) => op.priority() as int,
        _ => 0,
    }
}

/// The token at `i` is where the expression splits: an operator outside
/// parentheses whose priority no such operator exceeds, and the last one with
/// that priority.
pub open spec fn is_pivot(toks: Seq<TokenView>, i: int) -> bool {
    &&& is_top_op(toks, i)
    &&& forall|j: int| is_top_op(toks, j) ==> prio_at(toks, j) <= prio_at(toks, i)
    &&& forall|j: int| i < j && is_top_op(toks, j) ==> prio_at(toks, j) < prio_at(toks, i)
}

#[verifier::opaque]
pub open spec fn pivot(toks: Seq<TokenView>) -> Option<int> {
    if exists|i: int| is_pivot(toks, i) {
        Some(choose|i: int| is_pivot(toks, i))
    } else {
        None
    }
}

/// There is at most one split point.
pub proof fn lemma_pivot_unique(toks: Seq<TokenView>, i: int)
    requires
        is_pivot(toks, i),
    ensures
        pivot(toks) == Some(i),
{
    reveal(pivot);
    let c = choose|c: int| is_pivot(toks, c);
    assert(is_pivot(toks, c));
    if c < i {
        assert(prio_at(toks, i) < prio_at(toks, c));
    }
    if i < c {
        assert(prio_at(toks, c) < prio_at(toks, i));
    }
}

pub proof fn lemma_pivot_none(toks: Seq<TokenView>)
    requires
        forall|i: int| !is_top_op(toks, i),
    ensures
        pivot(toks) is None,
{
    reveal(pivot);
}

pub proof fn lemma_pivot_is_pivot(toks: Seq<TokenView>)
    requires
        pivot(toks) is Some,
    ensures
        is_pivot(toks, pivot(toks)->0),
{
    reveal(pivot);
}

/// The expression that the tokens make, or `None` where the parser gives up.
///
/// A single literal is itself. Else the tokens split at the pivot into a left
/// and a right expression. With no operator outside parentheses, tokens that
/// begin with `(` are read without their first and last token.
pub open spec fn expr_of(toks: Seq<TokenView>) -> Option<Expr>
    decreases toks.len(),
{
    if toks.len() == 1 {
        match toks[0] {
            TokenView::Lit(v) => Some(Expr::Lit(v)),
            _ => None,
        }
    } else {
        match pivot(toks) {
            Some(i) => if 0 <= i < toks.len() {
                match (expr_of(toks.take(i)), expr_of(toks.skip(i + 1)), toks[i]) {
                    (Some(l), Some(r), TokenView::Op(op)) => Some(
                        Expr::Binary { left: Box::new(l), op, right: Box::new(r) },
                    ),
                    _ => None,
                }
            } else {
                None
            },
            None => if toks.len() >= 2 && toks[0] == TokenView::Delimiter(seq!['(']) {
                expr_of(toks.subrange(1, toks.len() - 1))
            } else {
                None
            },
        }
    }
}

/// Whether `d` is the one character `c`.
fn is_char(d: &String, c: char) -> (b: bool)
    ensures
        b == (d@ == seq![c]),
{
    let v = str_chars(d.as_str());
    if v.len() == 1 && v[0] == c {
        assert(v@ =~= seq![c]);
        true
    } else {
        assert(v@.len() != 1 ==> v@ != seq![c]);
        false
    }
}

/// Finds the pivot of the tokens.
fn find_pivot(tokens: &[Token]) -> (r: Option<usize>)
    ensures
        match r {
            Some(p) => pivot(tokens_view(tokens@)) == Some(p as int),
            None => pivot(tokens_view(tokens@)) is None,
        },
{
    let ghost toks = tokens_view(tokens@);
    let mut opens: usize = 0;
    let mut closes: usize = 0;
    let mut pivot_idx: Option<usize> = None;
    let mut current_max: u8 = 0;
    let mut i: usize = 0;
    while i < tokens.len()
        invariant
            i <= tokens@.len(),
            toks == tokens_view(tokens@),
            opens <= i,
            closes <= i,
            opens - closes == depth_before(toks, i as int),
            match pivot_idx {
                None => current_max == 0 && forall|j: int| 0 <= j < i ==> !is_top_op(toks, j),
                Some(p) => {
                    &&& p < i
                    &&& is_top_op(toks, p as int)
                    &&& prio_at(toks, p as int) == current_max
                    &&& forall|j: int| 0 <= j < i && is_top_op(toks, j) ==> prio_at(toks, j) <= current_max
                    &&& forall|j: int| p < j < i && is_top_op(toks, j) ==> prio_at(toks, j) < current_max
                },
            },
        decreases tokens@.len() - i,
    {
        assert(toks[i as int] == tokens@[i as int]@);
        match &tokens[i] {
            Token::Delimiter(d) => {
                if is_char(d, '(') {
                    opens = opens + 1;
                } else if is_char(d, ')') {
                    closes = closes + 1;
                }
            },
            Token::Op(kind) => {
                if opens == closes {
                    let pr = kind.get_priority();
                    if pr >= current_max {
                        current_max = pr;
                        pivot_idx = Some(i);
                    }
                }
            },
            _ => {},
        }
        i = i + 1;
    }
    match pivot_idx {
        Some(p) => {
            assert(is_pivot(toks, p as int));
            proof {
                lemma_pivot_unique(toks, p as int);
            }
        },
        None => {
            proof {
                lemma_pivot_none(toks);
            }
        },
    }
    pivot_idx
}

proof fn lemma_tokens_view_subrange(v: Seq<Token>, a: int, b: int)
    requires
        0 <= a <= b <= v.len(),
    ensures
        tokens_view(v.subrange(a, b)) == tokens_view(v).subrange(a, b),
{
    assert(tokens_view(v.subrange(a, b)) =~= tokens_view(v).subrange(a, b));
}

/// The expression that the tokens make; `None` where the parser gives up.
pub fn try_parse_expression(tokens: &[Token]) -> (r: Option<Expr>)
    ensures
        r == expr_of(tokens_view(tokens@)),
    decreases tokens@.len(),
{
    let ghost toks = tokens_view(tokens@);
    if tokens.len() == 1 {
        assert(toks[0] == tokens@[0]@);
        match &tokens[0] {
            Token::Lit(val) => {
                return Some(Expr::Lit(*val));
            },
            _ => {
                return None;
            },
        }
    }
    match find_pivot(tokens) {
        Some(idx) => {
            proof {
                lemma_pivot_is_pivot(toks);
                lemma_tokens_view_subrange(tokens@, 0, idx as int);
                lemma_tokens_view_subrange(tokens@, idx + 1, tokens@.len() as int);
                assert(toks.take(idx as int) == toks.subrange(0, idx as int));
                assert(toks.skip(idx + 1) == toks.subrange(idx + 1, toks.len() as int));
                assert(toks[idx as int] == tokens@[idx as int]@);
            }
            let left = match try_parse_expression(&tokens[0..idx]) {
                Some(l) => l,
                None => {
                    return None;
                },
            };
            let op = tokens[idx].get_op();
            let right = match try_parse_expression(&tokens[idx + 1..tokens.len()]) {
                Some(r) => r,
                None => {
                    return None;
                },
            };
            Some(Expr::Binary { left: Box::new(left), op, right: Box::new(right) })
        },
        None => {
            if tokens.len() >= 2 {
                assert(toks[0] == tokens@[0]@);
                if let Token::Delimiter(d) = &tokens[0] {
                    if is_char(d, '(') {
                        proof {
                            lemma_tokens_view_subrange(tokens@, 1, tokens@.len() - 1);
                        }
                        return try_parse_expression(&tokens[1..tokens.len() - 1]);
                    }
                }
            }
            None
        },
    }
}

/// The expression that the tokens make, for tokens the parser does not give
/// up on.
pub fn parse_expression(tokens: &[Token]) -> (r: Expr)
    requires
        expr_of(tokens_view(tokens@)) is Some,
    ensures
        expr_of(tokens_view(tokens@)) == Some(r),
{
    match try_parse_expression(tokens) {
        Some(e) => e,
        None => {
            assert(false);
            Expr::Lit(0)
        },
    }
}

pub open spec fn i32_range(v: int) -> bool {
    i32::MIN <= v <= i32::MAX
}

/// Division of integers that rounds toward zero, as `/` on `i32` does.
pub open spec fn trunc_div(a: int, b: int) -> int {
    let q = (if a < 0 { -a } else { a }) / (if b < 0 { -b } else { b });
    if (a < 0) == (b < 0) {
        q
    } else {
        -q
    }
}

/// The value of `l op r` on `i32`; `None` where the operation overflows or
/// divides by zero.
pub open spec fn apply_op(op: OpType, l: int, r: int) -> Option<int> {
    let v = match op {
        OpType::Add(_) => l + r,
        OpType::Subtract(_) => l - r,
        OpType::Multiply(_) => l * r,
        OpType::Divide(_) => if r == 0 { 0 } else { trunc_div(l, r) },
    };
    if (op is Divide && r == 0) || !i32_range(v) {
        None
    } else {
        Some(v)
    }
}

/// The value of an expression on `i32`; `None` where a step overflows or
/// divides by zero.
pub open spec fn eval(e: Expr) -> Option<int>
    decreases e,
{
    match e {
        Expr::Lit(v) => Some(v as int),
        Expr::Binary { left, op, right } => match (eval(*left), eval(*right)) {
            (Some(l), Some(r)) => apply_op(op, l, r),
            _ => None,
        },
    }
}

fn in_i32(v: i64) -> (r: Option<i32>)
    ensures
        match r {
            Some(x) => x as int == v as int,
            None => !i32_range(v as int),
        },
{
    if v < i32::MIN as i64 || v > i32::MAX as i64 {
        None
    } else {
        Some(v as i32)
    }
}

fn checked_div(l: i32, r: i32) -> (res: Option<i32>)
    ensures
        match res {
            Some(v) => r != 0 && i32_range(trunc_div(l as int, r as int)) && v as int == trunc_div(
                l as int,
                r as int,
            ),
            None => r == 0 || !i32_range(trunc_div(l as int, r as int)),
        },
{
    if r == 0 {
        return None;
    }
    let a: i64 = if l < 0 { -(l as i64) } else { l as i64 };
    let b: i64 = if r < 0 { -(r as i64) } else { r as i64 };
    let q = a / b;
    assert(0 <= q <= a) by (nonlinear_arith)
        requires
            0 <= a,
            1 <= b,
            q == a / b,
    ;
    assert(b == 1 ==> q == a) by (nonlinear_arith)
        requires
            q == a / b,
    ;
    assert(trunc_div(l as int, r as int) == if (l < 0) == (r < 0) { q as int } else { -q });
    if (l < 0) == (r < 0) {
        in_i32(q)
    } else {
        in_i32(-q)
    }
}

fn checked_apply(op: OpType, l: i32, r: i32) -> (res: Option<i32>)
    ensures
        match res {
            Some(v) => apply_op(op, l as int, r as int) == Some(v as int),
            None => apply_op(op, l as int, r as int) is None,
        },
{
    let a = l as i64;
    let b = r as i64;
    match op {
        OpType::Add(_) => in_i32(a + b),
        OpType::Subtract(_) => in_i32(a - b),
        OpType::Multiply(_) => {
            assert(-0x4000_0000_0000_0000 <= a * b <= 0x4000_0000_0000_0000) by (nonlinear_arith)
                requires
                    -0x8000_0000 <= a <= 0x7fff_ffff,
                    -0x8000_0000 <= b <= 0x7fff_ffff,
            ;
            in_i32(a * b)
        },
        OpType::Divide(_) => checked_div(l, r),
    }
}

/// The value of an expression; `None` where a step overflows or divides by
/// zero.
pub fn try_eval_expression(expr: &Expr) -> (r: Option<i32>)
    ensures
        match r {
            Some(v) => eval(*expr) == Some(v as int),
            None => eval(*expr) is None,
        },
    decreases expr,
{
    match expr {
        Expr::Lit(v) => Some(*v),
        Expr::Binary { left, op, right } => {
            let l = match try_eval_expression(left) {
                Some(l) => l,
                None => {
                    return None;
                },
            };
            let r = match try_eval_expression(right) {
                Some(r) => r,
                None => {
                    return None;
                },
            };
            checked_apply(*op, l, r)
        },
    }
}

/// The value of an expression in which no step overflows or divides by zero.
pub fn eval_expression(expr: &Expr) -> (r: i32)
    requires
        eval(*expr) is Some,
    ensures
        eval(*expr) == Some(r as int),
{
    match try_eval_expression(expr) {
        Some(v) => v,
        None => {
            assert(false);
            0
        },
    }
}

pub open spec fn digit_char(d: nat) -> char {
    (d + '0' as int) as char
}

/// The decimal digits of `n`.
pub open spec fn digits(n: nat) -> Seq<char>
    decreases n,
{
    if n < 10 {
        seq![digit_char(n)]
    } else {
        digits(n / 10).push(digit_char(n % 10))
    }
}

/// `v` written in decimal, with a `-` in front where it is negative, as
/// `i32`'s `Display` writes it.
pub open spec fn decimal(v: int) -> Seq<char> {
    if v < 0 {
        seq!['-'] + digits((-v) as nat)
    } else {
        digits(v as nat)
    }
}

fn digits_of(n: u64) -> (r: Vec<char>)
    ensures
        r@ == digits(n as nat),
    decreases n,
{
    let d = (n % 10) as u8;
    let c = (0x30u8 + d) as char;
    assert(c == digit_char((n % 10) as nat));
    if n < 10 {
        let mut r = Vec::new();
        r.push(c);
        r
    } else {
        let mut r = digits_of(n / 10);
        r.push(c);
        r
    }
}

/// `v` in decimal.
pub fn decimal_chars(v: i32) -> (r: Vec<char>)
    ensures
        r@ == decimal(v as int),
{
    if v < 0 {
        let n = (-(v as i64)) as u64;
        let d = digits_of(n);
        let mut r: Vec<char> = Vec::new();
        r.push('-');
        let mut k: usize = 0;
        while k < d.len()
            invariant
                k <= d@.len(),
                r@ == seq!['-'] + d@.take(k as int),
            decreases d@.len() - k,
        {
            r.push(d[k]);
            k = k + 1;
            assert(r@ =~= seq!['-'] + d@.take(k as int));
        }
        assert(d@.take(d@.len() as int) =~= d@);
        r
    } else {
        digits_of(v as u64)
    }
}

/// The marker in front of a node of a drawn tree: a bar for the root, a
/// corner for a last child, a tee for any other.
pub open spec fn marker(is_last: bool, is_first: bool) -> Seq<char> {
    if is_first {
        seq!['\u{2502}', ' ', ' ']
    } else if is_last {
        seq!['\u{2514}', '\u{2500}']
    } else {
        seq!['\u{251C}', '\u{2500}']
    }
}

pub open spec fn op_char(op: OpType) -> char {
    match op {
        OpType::Add(_) => '+',
        OpType::Subtract(_) => '-',
        OpType::Multiply(_) => '*',
        OpType::Divide(_) => '/',
    }
}

/// The indentation of the children of a node drawn with `indent`.
pub open spec fn child_indent(indent: Seq<char>, is_last: bool) -> Seq<char> {
    if is_last {
        indent + seq![' ', ' ']
    } else {
        indent + seq!['\u{2502}', ' ', ' ']
    }
}

/// The lines of a drawing of the tree of `e`: the node, with its indent and
/// marker, then its left and its right subtree one level deeper.
pub open spec fn tree_lines(e: Expr, indent: Seq<char>, is_last: bool, is_first: bool) -> Seq<Seq<char>>
    decreases e,
{
    match e {
        Expr::Lit(v) => seq![indent + marker(is_last, is_first) + decimal(v as int)],
        Expr::Binary { left, op, right } => {
            let inner = child_indent(indent, is_last);
            seq![indent + marker(is_last, is_first) + seq![op_char(op)]] + tree_lines(
                *left,
                inner,
                false,
                false,
            ) + tree_lines(*right, inner, true, false)
        },
    }
}

fn push_all(v: &mut Vec<char>, s: &[char])
    ensures
        final(v)@ == old(v)@ + s@,
{
    let mut k: usize = 0;
    while k < s.len()
        invariant
            k <= s@.len(),
            v@ == old(v)@ + s@.take(k as int),
        decreases s@.len() - k,
    {
        v.push(s[k]);
        k = k + 1;
        assert(v@ =~= old(v)@ + s@.take(k as int));
    }
    assert(s@.take(s@.len() as int) =~= s@);
}

fn marker_chars(is_last: bool, is_first: bool) -> (r: Vec<char>)
    ensures
        r@ == marker(is_last, is_first),
{
    let mut r: Vec<char> = Vec::new();
    if is_first {
        r.push('\u{2502}');
        r.push(' ');
        r.push(' ');
    } else if is_last {
        r.push('\u{2514}');
        r.push('\u{2500}');
    } else {
        r.push('\u{251C}');
        r.push('\u{2500}');
    }
    assert(r@ =~= marker(is_last, is_first));
    r
}

fn render(expr: &Expr, indent: &Vec<char>, is_last: bool, is_first: bool, out: &mut Vec<String>)
    ensures
        strings_view(final(out)@) == strings_view(old(out)@) + tree_lines(*expr, indent@, is_last, is_first),
    decreases expr,
{
    let mut line: Vec<char> = Vec::new();
    push_all(&mut line, indent.as_slice());
    let m = marker_chars(is_last, is_first);
    push_all(&mut line, m.as_slice());
    let ghost before = strings_view(out@);
    match expr {
        Expr::Lit(val) => {
            let d = decimal_chars(*val);
            push_all(&mut line, d.as_slice());
            out.push(chars_to_string(line.as_slice()));
            assert(strings_view(out@) =~= before + tree_lines(*expr, indent@, is_last, is_first));
        },
        Expr::Binary { left, op, right } => {
            let op_c = match op {
                OpType::Add(_) => '+',
                OpType::Subtract(_) => '-',
                OpType::Multiply(_) => '*',
                OpType::Divide(_) => '/',
            };
            assert(op_c == op_char(*op));
            line.push(op_c);
            assert(line@ =~= indent@ + marker(is_last, is_first) + seq![op_char(*op)]);
            out.push(chars_to_string(line.as_slice()));
            let ghost after_node = strings_view(out@);
            assert(after_node =~= before + seq![indent@ + marker(is_last, is_first) + seq![op_char(*op)]]);
            let mut new_indent: Vec<char> = Vec::new();
            push_all(&mut new_indent, indent.as_slice());
            if is_last {
                new_indent.push(' ');
                new_indent.push(' ');
            } else {
                new_indent.push('\u{2502}');
                new_indent.push(' ');
                new_indent.push(' ');
            }
            assert(new_indent@ =~= child_indent(indent@, is_last));
            render(left, &new_indent, false, false, out);
            render(right, &new_indent, true, false, out);
            assert(strings_view(out@) =~= before + tree_lines(*expr, indent@, is_last, is_first));
        },
    }
}

/// The lines of a drawing of the tree of `expr`, each node on a line of its
/// own under `indent`.
pub fn expression_lines(expr: &Expr, indent: &String, is_last: bool, is_first: bool) -> (r: Vec<String>)
    ensures
        strings_view(r@) == tree_lines(*expr, indent@, is_last, is_first),
{
    let ind = str_chars(indent.as_str());
    let mut out: Vec<String> = Vec::new();
    assert(strings_view(out@) =~= Seq::<Seq<char>>::empty());
    render(expr, &ind, is_last, is_first, &mut out);
    assert(Seq::<Seq<char>>::empty() + tree_lines(*expr, indent@, is_last, is_first) =~= tree_lines(*expr, indent@, is_last, is_first));
    out
}

pub open spec fn join_tokens(a: Option<Seq<TokenView>>, b: Option<Seq<TokenView>>) -> Option<Seq<TokenView>> {
    match (a, b) {
        (Some(x), Some(y)) => Some(x + y),
        _ => None,
    }
}

/// The tokens of two texts written one after the other are the tokens of the
/// first followed by those of the second.
pub proof fn lemma_tokenize_concat(a: Seq<char>, b: Seq<char>, m: Seq<(char, OpType)>)
    ensures
        tokenize(a + b, m) == join_tokens(tokenize(a, m), tokenize(b, m)),
    decreases b.len(),
{
    if tokenize(a, m) is None {
        lemma_tokenize_none_extends(a, b, m);
    } else if b.len() == 0 {
        assert(a + b =~= a);
        assert(tokenize(a, m).unwrap() + Seq::<TokenView>::empty() =~= tokenize(a, m).unwrap());
    } else {
        lemma_tokenize_concat(a, b.drop_last(), m);
        assert((a + b).drop_last() =~= a + b.drop_last());
        assert((a + b).last() == b.last());
        if let (Some(x), Some(y)) = (tokenize(a, m), tokenize(b.drop_last(), m)) {
            if let Some(Some(t)) = char_token(b.last(), m) {
                assert((x + y).push(t) =~= x + y.push(t));
            }
        }
    }
}

pub open spec fn open_paren() -> TokenView {
    TokenView::Delimiter(seq!['('])
}

pub open spec fn close_paren() -> TokenView {
    TokenView::Delimiter(seq![')'])
}

/// Reading the tokens from the left, no `)` closes more than the `(` before
/// it opened.
pub open spec fn never_below_zero(t: Seq<TokenView>) -> bool {
    forall|i: int| 0 <= i <= t.len() ==> depth_before(t, i) >= 0
}

proof fn lemma_depth_in_parens(t: Seq<TokenView>, i: int)
    requires
        1 <= i <= t.len() + 1,
    ensures
        depth_before(seq![open_paren()] + t + seq![close_paren()], i) == 1 + depth_before(t, i - 1),
    decreases i,
{
    let w = seq![open_paren()] + t + seq![close_paren()];
    if i > 1 {
        lemma_depth_in_parens(t, i - 1);
        assert(w[i - 1] == t[i - 2]);
        assert(depth_before(w, i) == depth_before(w, i - 1) + depth_change(w[i - 1]));
        assert(depth_before(t, i - 1) == depth_before(t, i - 2) + depth_change(t[i - 2]));
    } else {
        assert(w[0] == open_paren());
        assert(depth_before(w, 0) == 0);
        assert(depth_before(t, 0) == 0);
        assert(depth_change(open_paren()) == 1);
        assert(depth_before(w, 1) == depth_before(w, 0) + depth_change(w[0]));
    }
}

/// Putting parentheses around tokens in which no `)` closes more than was
/// opened does not change the expression they make.
pub proof fn lemma_parenthesized(t: Seq<TokenView>)
    requires
        never_below_zero(t),
    ensures
        expr_of(seq![open_paren()] + t + seq![close_paren()]) == expr_of(t),
{
    let w = seq![open_paren()] + t + seq![close_paren()];
    assert forall|i: int| !is_top_op(w, i) by {
        if 1 <= i <= t.len() {
            lemma_depth_in_parens(t, i);
        }
        if i == 0 {
            assert(w[0] == open_paren());
        }
        if i == t.len() + 1 {
            assert(w[i] == close_paren());
        }
    }
    lemma_pivot_none(w);
    assert(w[0] == open_paren());
    assert(w.subrange(1, w.len() - 1) =~= t);
}

/// A space between two texts changes nothing of their tokens.
pub proof fn lemma_spaces_ignored(a: Seq<char>, b: Seq<char>, m: Seq<(char, OpType)>)
    ensures
        tokenize(a + seq![' '] + b, m) == tokenize(a + b, m),
{
    lemma_tokenize_concat(a + seq![' '], b, m);
    lemma_tokenize_concat(a, seq![' '], m);
    lemma_tokenize_concat(a, b, m);
    assert(seq![' '].drop_last() =~= Seq::<char>::empty());
    assert(seq![' '].last() == ' ');
    assert(tokenize(Seq::<char>::empty(), m) == Some(Seq::<TokenView>::empty()));
    assert(char_token(' ', m) == Some(None::<TokenView>));
    assert(tokenize(seq![' '], m) == Some(Seq::<TokenView>::empty()));
    if let Some(x) = tokenize(a, m) {
        assert(x + Seq::<TokenView>::empty() =~= x);
    }
}

/// The size of an integer without its sign.
pub open spec fn magnitude(x: int) -> int {
    if x < 0 {
        -x
    } else {
        x
    }
}

/// Every value an expression evaluates to fits in `i32`.
pub proof fn lemma_eval_in_range(e: Expr)
    ensures
        eval(e) matches Some(v) ==> i32_range(v),
    decreases e,
{
    if let Expr::Binary { left, op, right } = e {
        lemma_eval_in_range(*left);
        lemma_eval_in_range(*right);
    }
}

/// Dividing the value `l` of one expression by the value `r` of another
/// fails exactly where `r` is zero or the quotient leaves `i32`
/// (`i32::MIN / -1`). Otherwise it gives the quotient rounded toward zero:
/// `|r| * |v| <= |l| < |r| * (|v| + 1)`, and a non-zero `v` has the sign of
/// `l * r`, so two negative operands give a positive quotient.
pub proof fn lemma_eval_divide(left: Expr, right: Expr, p: u8, l: int, r: int)
    requires
        eval(left) == Some(l),
        eval(right) == Some(r),
    ensures
        eval(Expr::Binary { left: Box::new(left), op: OpType::Divide(p), right: Box::new(right) }) is None
            <==> (r == 0 || (l == i32::MIN && r == -1)),
        eval(Expr::Binary { left: Box::new(left), op: OpType::Divide(p), right: Box::new(right) }) matches Some(v)
            ==> {
            &&& magnitude(r) * magnitude(v) <= magnitude(l) < magnitude(r) * (magnitude(v) + 1)
            &&& v > 0 ==> l * r > 0
            &&& v < 0 ==> l * r < 0
        },
{
    lemma_eval_in_range(left);
    lemma_eval_in_range(right);
    let e = Expr::Binary { left: Box::new(left), op: OpType::Divide(p), right: Box::new(right) };
    assert(eval(e) == apply_op(OpType::Divide(p), l, r));
    if r != 0 {
        let a = magnitude(l);
        let b = magnitude(r);
        let q = a / b;
        assert(b * q <= a < b * (q + 1) && 0 <= q <= a) by (nonlinear_arith)
            requires
                0 <= a,
                1 <= b,
                q == a / b,
        ;
        assert(b == 1 ==> q == a) by (nonlinear_arith)
            requires
                q == a / b,
        ;
        assert(b >= 2 ==> 2 * q <= a) by (nonlinear_arith)
            requires
                b * q <= a,
                0 <= q,
        ;
        assert(trunc_div(l, r) == if (l < 0) == (r < 0) { q } else { -q });
        assert(q > 0 ==> a > 0);
        assert(l > 0 && r > 0 ==> l * r > 0) by (nonlinear_arith);
        assert(l < 0 && r < 0 ==> l * r > 0) by (nonlinear_arith);
        assert(l > 0 && r < 0 ==> l * r < 0) by (nonlinear_arith);
        assert(l < 0 && r > 0 ==> l * r < 0) by (nonlinear_arith);
    }
}

/// Whether two operators are of the same kind, whatever their priorities.
pub open spec fn same_kind(a: OpType, b: OpType) -> bool {
    ||| a is Add && b is Add
    ||| a is Subtract && b is Subtract
    ||| a is Multiply && b is Multiply
    ||| a is Divide && b is Divide
}

/// The first line of the drawing of an operator node is its indent and its
/// marker followed by one character, the operator's own sign: `+` for an
/// addition, `-` for a subtraction, `*` for a multiplication, `/` for a
/// division.
pub proof fn lemma_node_sign(e: Expr, indent: Seq<char>, is_last: bool, is_first: bool)
    requires
        e is Binary,
    ensures
        tree_lines(e, indent, is_last, is_first).len() >= 1,
        tree_lines(e, indent, is_last, is_first)[0] == indent + marker(is_last, is_first) + seq![
            tree_lines(e, indent, is_last, is_first)[0].last(),
        ],
        e->op is Add ==> tree_lines(e, indent, is_last, is_first)[0].last() == '+',
        e->op is Subtract ==> tree_lines(e, indent, is_last, is_first)[0].last() == '-',
        e->op is Multiply ==> tree_lines(e, indent, is_last, is_first)[0].last() == '*',
        e->op is Divide ==> tree_lines(e, indent, is_last, is_first)[0].last() == '/',
{
    let line = indent + marker(is_last, is_first) + seq![op_char(e->op)];
    assert(tree_lines(e, indent, is_last, is_first)[0] == line);
    assert(line.last() == op_char(e->op));
    assert(line =~= indent + marker(is_last, is_first) + seq![line.last()]);
}

/// Operators of different kinds are drawn with different signs.
pub proof fn lemma_node_signs_differ(
    e1: Expr,
    e2: Expr,
    indent: Seq<char>,
    is_last: bool,
    is_first: bool,
)
    requires
        e1 is Binary,
        e2 is Binary,
        !same_kind(e1->op, e2->op),
    ensures
        tree_lines(e1, indent, is_last, is_first)[0].last() != tree_lines(e2, indent, is_last, is_first)[0].last(),
{
    lemma_node_sign(e1, indent, is_last, is_first);
    lemma_node_sign(e2, indent, is_last, is_first);
}

/// Adding, subtracting or multiplying the values `l` and `r` of two
/// expressions gives the sum, difference or product, and fails exactly
/// where that leaves `i32`.
pub proof fn lemma_eval_arith(left: Expr, op: OpType, right: Expr, l: int, r: int)
    requires
        eval(left) == Some(l),
        eval(right) == Some(r),
        !(op is Divide),
    ensures
        ({
            let v = if op is Add {
                l + r
            } else if op is Subtract {
                l - r
            } else {
                l * r
            };
            eval(Expr::Binary { left: Box::new(left), op, right: Box::new(right) }) == if i32::MIN <= v
                && v <= i32::MAX {
                Some(v)
            } else {
                None
            }
        }),
{
}

/// The number that a text of decimal digits stands for.
pub open spec fn digits_value(s: Seq<char>) -> int
    decreases s.len(),
{
    if s.len() == 0 {
        0
    } else {
        digits_value(s.drop_last()) * 10 + (s.last() as int - '0' as int)
    }
}

proof fn lemma_digits_read_back(n: nat)
    ensures
        digits(n).len() >= 1,
        forall|j: int| 0 <= j < digits(n).len() ==> '0' <= #[trigger] digits(n)[j] <= '9',
        digits_value(digits(n)) == n,
    decreases n,
{
    if n < 10 {
        assert(digit_char(n) as int == n + '0' as int);
        assert(digits(n).drop_last() =~= Seq::<char>::empty());
        assert(digits_value(Seq::<char>::empty()) == 0);
    } else {
        lemma_digits_read_back(n / 10);
        let d = digits(n / 10);
        let x = d.push(digit_char(n % 10));
        assert(x.drop_last() =~= d);
        assert(x.last() == digit_char(n % 10));
        assert(digit_char(n % 10) as int == n % 10 + '0' as int);
        assert(n == (n / 10) * 10 + n % 10);
        assert(digits(n) == x);
        assert(digits_value(x) == digits_value(d) * 10 + (x.last() as int - '0' as int));
        assert(digits_value(x) == n);
        assert forall|j: int| 0 <= j < x.len() implies '0' <= #[trigger] x[j] <= '9' by {
            if j < d.len() {
                assert(x[j] == d[j]);
            }
        }
    }
}

/// A number is drawn in decimal: an optional `-` and then ASCII digits only,
/// which read back give the number.
pub proof fn lemma_decimal_reads_back(v: int)
    ensures
        ({
            let s = decimal(v);
            let ds = if v < 0 {
                s.drop_first()
            } else {
                s
            };
            &&& v < 0 ==> s.len() >= 1 && s[0] == '-'
            &&& ds.len() >= 1
            &&& forall|j: int| 0 <= j < ds.len() ==> '0' <= #[trigger] ds[j] <= '9'
            &&& digits_value(ds) == if v < 0 {
                -v
            } else {
                v
            }
        }),
{
    if v < 0 {
        lemma_digits_read_back((-v) as nat);
        assert((seq!['-'] + digits((-v) as nat)).drop_first() =~= digits((-v) as nat));
    } else {
        lemma_digits_read_back(v as nat);
    }
}

} // verus!
