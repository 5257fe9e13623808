use vstd::prelude::*;
use crate::lexer::{Lexer, Token, Lexeme, spec_next_token, lemma_next_token_advances};

verus! {

/// An expression: a literal, a variable read, or a binary operation
/// over two sub-expressions.
#[derive(Debug)]
pub enum Expr {
    Number(i64),
    BinaryOp(Box<Expr>, BinaryOpKind, Box<Expr>),
    Variable(String),
}

/// The binary operators of the language.
#[derive(Debug, Clone, Copy, PartialEq, Eq, Structural)]
pub enum BinaryOpKind {
    Add,
    Sub,
    Mul,
    Div,
    Equals,
    LessThan,
    GreaterThan,
}

/// A statement: declaration, assignment, conditional, loop, or print.
/// Blocks are ordered sequences of statements.
#[derive(Debug)]
pub enum Statement {
    Let(String, Expr),
    Assign(String, Expr),
    If(Expr, Vec<Statement>, Vec<Statement>),
    While(Expr, Vec<Statement>),
    Print(Expr),
}

/// Why a parse failed: the expected token against what stood there,
/// or a missing identifier, statement or expression.
#[derive(Debug)]
pub enum ParseError {
    Expected(Token, Option<Token>),
    ExpectedIdentifier,
    ExpectedStatement,
    ExpectedExpression,
}

/// The mathematical value of an expression tree: names as character
/// sequences.
pub ghost enum ExprModel {
    Number(i64),
    BinaryOp(Box<ExprModel>, BinaryOpKind, Box<ExprModel>),
    Variable(Seq<char>),
}

/// The mathematical value of a statement tree.
pub ghost enum StmtModel {
    Let(Seq<char>, ExprModel),
    Assign(Seq<char>, ExprModel),
    If(ExprModel, Seq<StmtModel>, Seq<StmtModel>),
    While(ExprModel, Seq<StmtModel>),
    Print(ExprModel),
}

/// The mathematical value of a parse error.
pub ghost enum PErrorModel {
    Expected(Lexeme, Option<Lexeme>),
    ExpectedIdentifier,
    ExpectedStatement,
    ExpectedExpression,
}

pub open spec fn expr_model(e: Expr) -> ExprModel
    decreases e,
{
    match e {
        Expr::Number(n) => ExprModel::Number(n),
        Expr::BinaryOp(l, op, r) => ExprModel::BinaryOp(
            Box::new(expr_model(*l)),
            op,
            Box::new(expr_model(*r)),
        ),
        Expr::Variable(name) => ExprModel::Variable(name@),
    }
}

pub open spec fn stmt_model(s: Statement) -> StmtModel
    decreases s,
{
    match s {
        Statement::Let(name, e) => StmtModel::Let(name@, expr_model(e)),
        Statement::Assign(name, e) => StmtModel::Assign(name@, expr_model(e)),
        Statement::If(c, t, e) => StmtModel::If(expr_model(c), stmts_model(t@), stmts_model(e@)),
        Statement::While(c, b) => StmtModel::While(expr_model(c), stmts_model(b@)),
        Statement::Print(e) => StmtModel::Print(expr_model(e)),
    }
}

pub open spec fn stmts_model(ss: Seq<Statement>) -> Seq<StmtModel>
    decreases ss,
{
    if ss.len() == 0 {
        Seq::empty()
    } else {
        seq![stmt_model(ss[0])] + stmts_model(ss.subrange(1, ss.len() as int))
    }
}

/// The lexeme a held token stands for, if one is held.
pub open spec fn opt_lexeme(t: Option<Token>) -> Option<Lexeme> {
    match t {
        Some(tok) => Some(tok@),
        None => None,
    }
}

pub open spec fn perror_model(e: ParseError) -> PErrorModel {
    match e {
        ParseError::Expected(exp, got) => PErrorModel::Expected(exp@, opt_lexeme(got)),
        ParseError::ExpectedIdentifier => PErrorModel::ExpectedIdentifier,
        ParseError::ExpectedStatement => PErrorModel::ExpectedStatement,
        ParseError::ExpectedExpression => PErrorModel::ExpectedExpression,
    }
}

/// The mathematical state of a parser: the text, the cursor past the
/// lookahead token, and the lookahead token itself.
#[verifier::ext_equal]
pub ghost struct ParserModel {
    pub input: Seq<char>,
    pub pos: nat,
    pub cur: Option<Lexeme>,
}

impl ParserModel {
    /// The cursor never leaves the input.
    pub open spec fn wf(self) -> bool {
        self.pos <= self.input.len()
    }
}

/// How much input is left to consume: the unread characters, plus one
/// for a held lookahead token. Every token taken strictly shrinks it,
/// which is what bounds the recursive descent.
pub open spec fn pmeasure(m: ParserModel) -> nat {
    (m.input.len() - m.pos + (if m.cur is Some { 1int } else { 0int })) as nat
}

/// The parser state after taking one token from the lexer.
pub open spec fn sp_advance(st: ParserModel) -> ParserModel {
    let (t, p) = spec_next_token(st.input, st.pos);
    ParserModel { input: st.input, pos: p, cur: t }
}

/// Stepping over one given lexeme: the advanced state, or the error
/// naming it against what actually stood there.
pub open spec fn sp_expect(st: ParserModel, expected: Lexeme) -> Result<ParserModel, PErrorModel> {
    if st.cur == Some(expected) {
        Ok(sp_advance(st))
    } else {
        Err(PErrorModel::Expected(expected, st.cur))
    }
}

/// The outcome of a fuelled grammar derivation: a result (the parsed
/// value and the state after, or the first structural mismatch), or
/// `Short` when the fuel ran out before a outcome was reached. Fuel
/// only delays the outcome: it never changes one (see the
/// monotonicity lemmas), so "some fuel yields `Done`" determines the
/// result uniquely.
pub ghost enum POut<A> {
    Done(Result<(A, ParserModel), PErrorModel>),
    Short,
}

/// A primary expression: a literal, a variable, or a parenthesized
/// sub-expression.
pub open spec fn sp_primary(st: ParserModel, fuel: nat) -> POut<ExprModel>
    decreases fuel,
{
    if fuel == 0 {
        POut::Short
    } else {
        let f = (fuel - 1) as nat;
        match st.cur {
            Some(Lexeme::Number(n)) => POut::Done(Ok((ExprModel::Number(n), sp_advance(st)))),
            Some(Lexeme::Identifier(w)) => POut::Done(
                Ok((ExprModel::Variable(w), sp_advance(st))),
            ),
            Some(Lexeme::LParen) => match sp_expression(sp_advance(st), f) {
                POut::Short => POut::Short,
                POut::Done(Err(e)) => POut::Done(Err(e)),
                POut::Done(Ok((e, st1))) => match sp_expect(st1, Lexeme::RParen) {
                    Err(pe) => POut::Done(Err(pe)),
                    Ok(st2) => POut::Done(Ok((e, st2))),
                },
            },
            _ => POut::Done(Err(PErrorModel::ExpectedExpression)),
        }
    }
}

/// The left-associative tail of the multiplicative tier: fold further
/// `*` / `/` operands onto `acc`.
pub open spec fn sp_mult_tail(acc: ExprModel, st: ParserModel, fuel: nat) -> POut<ExprModel>
    decreases fuel,
{
    if fuel == 0 {
        POut::Short
    } else {
        let f = (fuel - 1) as nat;
        match st.cur {
            Some(Lexeme::Star) | Some(Lexeme::Slash) => {
                let op = if st.cur == Some(Lexeme::Star) {
                    BinaryOpKind::Mul
                } else {
                    BinaryOpKind::Div
                };
                match sp_primary(sp_advance(st), f) {
                    POut::Short => POut::Short,
                    POut::Done(Err(e)) => POut::Done(Err(e)),
                    POut::Done(Ok((r, st1))) => sp_mult_tail(
                        ExprModel::BinaryOp(Box::new(acc), op, Box::new(r)),
                        st1,
                        f,
                    ),
                }
            },
            _ => POut::Done(Ok((acc, st))),
        }
    }
}

/// `*` and `/`, left-associative, the tightest binary tier.
pub open spec fn sp_multiplicative(st: ParserModel, fuel: nat) -> POut<ExprModel>
    decreases fuel,
{
    if fuel == 0 {
        POut::Short
    } else {
        let f = (fuel - 1) as nat;
        match sp_primary(st, f) {
            POut::Short => POut::Short,
            POut::Done(Err(e)) => POut::Done(Err(e)),
            POut::Done(Ok((e, st1))) => sp_mult_tail(e, st1, f),
        }
    }
}

/// The left-associative tail of the additive tier.
pub open spec fn sp_add_tail(acc: ExprModel, st: ParserModel, fuel: nat) -> POut<ExprModel>
    decreases fuel,
{
    if fuel == 0 {
        POut::Short
    } else {
        let f = (fuel - 1) as nat;
        match st.cur {
            Some(Lexeme::Plus) | Some(Lexeme::Minus) => {
                let op = if st.cur == Some(Lexeme::Plus) {
                    BinaryOpKind::Add
                } else {
                    BinaryOpKind::Sub
                };
                match sp_multiplicative(sp_advance(st), f) {
                    POut::Short => POut::Short,
                    POut::Done(Err(e)) => POut::Done(Err(e)),
                    POut::Done(Ok((r, st1))) => sp_add_tail(
                        ExprModel::BinaryOp(Box::new(acc), op, Box::new(r)),
                        st1,
                        f,
                    ),
                }
            },
            _ => POut::Done(Ok((acc, st))),
        }
    }
}

/// `+` and `-`, left-associative.
pub open spec fn sp_additive(st: ParserModel, fuel: nat) -> POut<ExprModel>
    decreases fuel,
{
    if fuel == 0 {
        POut::Short
    } else {
        let f = (fuel - 1) as nat;
        match sp_multiplicative(st, f) {
            POut::Short => POut::Short,
            POut::Done(Err(e)) => POut::Done(Err(e)),
            POut::Done(Ok((e, st1))) => sp_add_tail(e, st1, f),
        }
    }
}

/// The left-associative tail of the comparison tier.
pub open spec fn sp_cmp_tail(acc: ExprModel, st: ParserModel, fuel: nat) -> POut<ExprModel>
    decreases fuel,
{
    if fuel == 0 {
        POut::Short
    } else {
        let f = (fuel - 1) as nat;
        match st.cur {
            Some(Lexeme::DoubleEquals) | Some(Lexeme::LessThan) | Some(Lexeme::GreaterThan) => {
                let op = if st.cur == Some(Lexeme::DoubleEquals) {
                    BinaryOpKind::Equals
                } else if st.cur == Some(Lexeme::LessThan) {
                    BinaryOpKind::LessThan
                } else {
                    BinaryOpKind::GreaterThan
                };
                match sp_additive(sp_advance(st), f) {
                    POut::Short => POut::Short,
                    POut::Done(Err(e)) => POut::Done(Err(e)),
                    POut::Done(Ok((r, st1))) => sp_cmp_tail(
                        ExprModel::BinaryOp(Box::new(acc), op, Box::new(r)),
                        st1,
                        f,
                    ),
                }
            },
            _ => POut::Done(Ok((acc, st))),
        }
    }
}

/// `==`, `<` and `>`, left-associative, one precedence tier, the
/// loosest.
pub open spec fn sp_comparison(st: ParserModel, fuel: nat) -> POut<ExprModel>
    decreases fuel,
{
    if fuel == 0 {
        POut::Short
    } else {
        let f = (fuel - 1) as nat;
        match sp_additive(st, f) {
            POut::Short => POut::Short,
            POut::Done(Err(e)) => POut::Done(Err(e)),
            POut::Done(Ok((e, st1))) => sp_cmp_tail(e, st1, f),
        }
    }
}

/// An expression: the comparison tier.
pub open spec fn sp_expression(st: ParserModel, fuel: nat) -> POut<ExprModel>
    decreases fuel,
{
    if fuel == 0 {
        POut::Short
    } else {
        sp_comparison(st, (fuel - 1) as nat)
    }
}

/// A `let` statement, from the state just past the keyword.
pub open spec fn sp_let_stmt(st1: ParserModel, fuel: nat) -> POut<StmtModel>
    decreases fuel,
{
    if fuel == 0 {
        POut::Short
    } else {
        let f = (fuel - 1) as nat;
        match st1.cur {
            Some(Lexeme::Identifier(w)) => {
                let st2 = sp_advance(st1);
                match sp_expect(st2, Lexeme::Equals) {
                    Err(pe) => POut::Done(Err(pe)),
                    Ok(st3) => match sp_expression(st3, f) {
                        POut::Short => POut::Short,
                        POut::Done(Err(e)) => POut::Done(Err(e)),
                        POut::Done(Ok((e, st4))) => match sp_expect(st4, Lexeme::Semicolon) {
                            Err(pe) => POut::Done(Err(pe)),
                            Ok(st5) => POut::Done(Ok((StmtModel::Let(w, e), st5))),
                        },
                    },
                }
            },
            _ => POut::Done(Err(PErrorModel::ExpectedIdentifier)),
        }
    }
}

/// An `if` statement, from the state just past the keyword.
pub open spec fn sp_if_stmt(st1: ParserModel, fuel: nat) -> POut<StmtModel>
    decreases fuel,
{
    if fuel == 0 {
        POut::Short
    } else {
        let f = (fuel - 1) as nat;
        match sp_expression(st1, f) {
            POut::Short => POut::Short,
            POut::Done(Err(e)) => POut::Done(Err(e)),
            POut::Done(Ok((cond, st2))) => match sp_block(st2, f) {
                POut::Short => POut::Short,
                POut::Done(Err(e)) => POut::Done(Err(e)),
                POut::Done(Ok((then_b, st3))) => {
                    if st3.cur == Some(Lexeme::Else) {
                        match sp_block(sp_advance(st3), f) {
                            POut::Short => POut::Short,
                            POut::Done(Err(e)) => POut::Done(Err(e)),
                            POut::Done(Ok((else_b, st4))) => POut::Done(
                                Ok((StmtModel::If(cond, then_b, else_b), st4)),
                            ),
                        }
                    } else {
                        POut::Done(Ok((StmtModel::If(cond, then_b, Seq::empty()), st3)))
                    }
                },
            },
        }
    }
}

/// A `while` statement, from the state just past the keyword.
pub open spec fn sp_while_stmt(st1: ParserModel, fuel: nat) -> POut<StmtModel>
    decreases fuel,
{
    if fuel == 0 {
        POut::Short
    } else {
        let f = (fuel - 1) as nat;
        match sp_expression(st1, f) {
            POut::Short => POut::Short,
            POut::Done(Err(e)) => POut::Done(Err(e)),
            POut::Done(Ok((cond, st2))) => match sp_block(st2, f) {
                POut::Short => POut::Short,
                POut::Done(Err(e)) => POut::Done(Err(e)),
                POut::Done(Ok((body, st3))) => POut::Done(Ok((StmtModel::While(cond, body), st3))),
            },
        }
    }
}

/// A `print` statement, from the state just past the keyword.
pub open spec fn sp_print_stmt(st1: ParserModel, fuel: nat) -> POut<StmtModel>
    decreases fuel,
{
    if fuel == 0 {
        POut::Short
    } else {
        let f = (fuel - 1) as nat;
        match sp_expression(st1, f) {
            POut::Short => POut::Short,
            POut::Done(Err(e)) => POut::Done(Err(e)),
            POut::Done(Ok((e, st2))) => match sp_expect(st2, Lexeme::Semicolon) {
                Err(pe) => POut::Done(Err(pe)),
                Ok(st3) => POut::Done(Ok((StmtModel::Print(e), st3))),
            },
        }
    }
}

/// An assignment, from the state just past the identifier `w`.
pub open spec fn sp_assign_stmt(w: Seq<char>, st1: ParserModel, fuel: nat) -> POut<StmtModel>
    decreases fuel,
{
    if fuel == 0 {
        POut::Short
    } else {
        let f = (fuel - 1) as nat;
        match sp_expect(st1, Lexeme::Equals) {
            Err(pe) => POut::Done(Err(pe)),
            Ok(st2) => match sp_expression(st2, f) {
                POut::Short => POut::Short,
                POut::Done(Err(e)) => POut::Done(Err(e)),
                POut::Done(Ok((e, st3))) => match sp_expect(st3, Lexeme::Semicolon) {
                    Err(pe) => POut::Done(Err(pe)),
                    Ok(st4) => POut::Done(Ok((StmtModel::Assign(w, e), st4))),
                },
            },
        }
    }
}

/// One statement, dispatched on the lookahead.
pub open spec fn sp_statement(st: ParserModel, fuel: nat) -> POut<StmtModel>
    decreases fuel,
{
    if fuel == 0 {
        POut::Short
    } else {
        let f = (fuel - 1) as nat;
        match st.cur {
            Some(Lexeme::Let) => sp_let_stmt(sp_advance(st), f),
            Some(Lexeme::If) => sp_if_stmt(sp_advance(st), f),
            Some(Lexeme::While) => sp_while_stmt(sp_advance(st), f),
            Some(Lexeme::Print) => sp_print_stmt(sp_advance(st), f),
            Some(Lexeme::Identifier(w)) => sp_assign_stmt(w, sp_advance(st), f),
            _ => POut::Done(Err(PErrorModel::ExpectedStatement)),
        }
    }
}

/// A block: one statement, or a parenthesized statement sequence.
pub open spec fn sp_block(st: ParserModel, fuel: nat) -> POut<Seq<StmtModel>>
    decreases fuel,
{
    if fuel == 0 {
        POut::Short
    } else {
        let f = (fuel - 1) as nat;
        if st.cur == Some(Lexeme::LParen) {
            match sp_block_items(sp_advance(st), f) {
                POut::Short => POut::Short,
                POut::Done(Err(e)) => POut::Done(Err(e)),
                POut::Done(Ok((items, st1))) => match sp_expect(st1, Lexeme::RParen) {
                    Err(pe) => POut::Done(Err(pe)),
                    Ok(st2) => POut::Done(Ok((items, st2))),
                },
            }
        } else {
            match sp_statement(st, f) {
                POut::Short => POut::Short,
                POut::Done(Err(e)) => POut::Done(Err(e)),
                POut::Done(Ok((s, st1))) => POut::Done(Ok((seq![s], st1))),
            }
        }
    }
}

/// The statements of a parenthesized block, up to (not consuming) the
/// closing parenthesis or the end of the stream.
pub open spec fn sp_block_items(st: ParserModel, fuel: nat) -> POut<Seq<StmtModel>>
    decreases fuel,
{
    if fuel == 0 {
        POut::Short
    } else {
        let f = (fuel - 1) as nat;
        match st.cur {
            None => POut::Done(Ok((Seq::empty(), st))),
            Some(Lexeme::RParen) => POut::Done(Ok((Seq::empty(), st))),
            Some(_) => match sp_statement(st, f) {
                POut::Short => POut::Short,
                POut::Done(Err(e)) => POut::Done(Err(e)),
                POut::Done(Ok((s, st1))) => match sp_block_items(st1, f) {
                    POut::Short => POut::Short,
                    POut::Done(Err(e)) => POut::Done(Err(e)),
                    POut::Done(Ok((rest, st2))) => POut::Done(Ok((seq![s] + rest, st2))),
                },
            },
        }
    }
}

/// The whole program: statements until the token stream ends. This is
/// the grammar relation `parse_program` is verified against: `Done(Ok)`
/// exactly when the entire stream derives a statement sequence, with
/// the derived statements; `Done(Err)` names the first structural
/// mismatch.
pub open spec fn sp_program(st: ParserModel, fuel: nat) -> POut<Seq<StmtModel>>
    decreases fuel,
{
    if fuel == 0 {
        POut::Short
    } else {
        let f = (fuel - 1) as nat;
        match st.cur {
            None => POut::Done(Ok((Seq::empty(), st))),
            Some(_) => match sp_statement(st, f) {
                POut::Short => POut::Short,
                POut::Done(Err(e)) => POut::Done(Err(e)),
                POut::Done(Ok((s, st1))) => match sp_program(st1, f) {
                    POut::Short => POut::Short,
                    POut::Done(Err(e)) => POut::Done(Err(e)),
                    POut::Done(Ok((rest, st2))) => POut::Done(Ok((seq![s] + rest, st2))),
                },
            },
        }
    }
}

/// Law: fuel never changes a outcome, it only delays one. Together
/// with the parse functions' contracts this makes the derivation the
/// functions are held to unique: any two `Done` outcomes for the same
/// state agree.
pub proof fn lemma_sp_primary_mono(st: ParserModel, f1: nat, f2: nat)
    requires
        f1 <= f2,
        !(sp_primary(st, f1) is Short),
    ensures
        sp_primary(st, f2) == sp_primary(st, f1),
    decreases f1,
{
    match st.cur {
        Some(Lexeme::LParen) => {
            lemma_sp_expression_mono(sp_advance(st), (f1 - 1) as nat, (f2 - 1) as nat);
        },
        _ => {},
    }
}

pub proof fn lemma_sp_mult_tail_mono(acc: ExprModel, st: ParserModel, f1: nat, f2: nat)
    requires
        f1 <= f2,
        !(sp_mult_tail(acc, st, f1) is Short),
    ensures
        sp_mult_tail(acc, st, f2) == sp_mult_tail(acc, st, f1),
    decreases f1,
{
    match st.cur {
        Some(Lexeme::Star) | Some(Lexeme::Slash) => {
            let op = if st.cur == Some(Lexeme::Star) {
                BinaryOpKind::Mul
            } else {
                BinaryOpKind::Div
            };
            lemma_sp_primary_mono(sp_advance(st), (f1 - 1) as nat, (f2 - 1) as nat);
            match sp_primary(sp_advance(st), (f1 - 1) as nat) {
                POut::Done(Ok((r, st1))) => {
                    lemma_sp_mult_tail_mono(
                        ExprModel::BinaryOp(Box::new(acc), op, Box::new(r)),
                        st1,
                        (f1 - 1) as nat,
                        (f2 - 1) as nat,
                    );
                },
                _ => {},
            }
        },
        _ => {},
    }
}

pub proof fn lemma_sp_multiplicative_mono(st: ParserModel, f1: nat, f2: nat)
    requires
        f1 <= f2,
        !(sp_multiplicative(st, f1) is Short),
    ensures
        sp_multiplicative(st, f2) == sp_multiplicative(st, f1),
    decreases f1,
{
    lemma_sp_primary_mono(st, (f1 - 1) as nat, (f2 - 1) as nat);
    match sp_primary(st, (f1 - 1) as nat) {
        POut::Done(Ok((e, st1))) => {
            lemma_sp_mult_tail_mono(e, st1, (f1 - 1) as nat, (f2 - 1) as nat);
        },
        _ => {},
    }
}

pub proof fn lemma_sp_add_tail_mono(acc: ExprModel, st: ParserModel, f1: nat, f2: nat)
    requires
        f1 <= f2,
        !(sp_add_tail(acc, st, f1) is Short),
    ensures
        sp_add_tail(acc, st, f2) == sp_add_tail(acc, st, f1),
    decreases f1,
{
    match st.cur {
        Some(Lexeme::Plus) | Some(Lexeme::Minus) => {
            let op = if st.cur == Some(Lexeme::Plus) {
                BinaryOpKind::Add
            } else {
                BinaryOpKind::Sub
            };
            lemma_sp_multiplicative_mono(sp_advance(st), (f1 - 1) as nat, (f2 - 1) as nat);
            match sp_multiplicative(sp_advance(st), (f1 - 1) as nat) {
                POut::Done(Ok((r, st1))) => {
                    lemma_sp_add_tail_mono(
                        ExprModel::BinaryOp(Box::new(acc), op, Box::new(r)),
                        st1,
                        (f1 - 1) as nat,
                        (f2 - 1) as nat,
                    );
                },
                _ => {},
            }
        },
        _ => {},
    }
}

pub proof fn lemma_sp_additive_mono(st: ParserModel, f1: nat, f2: nat)
    requires
        f1 <= f2,
        !(sp_additive(st, f1) is Short),
    ensures
        sp_additive(st, f2) == sp_additive(st, f1),
    decreases f1,
{
    lemma_sp_multiplicative_mono(st, (f1 - 1) as nat, (f2 - 1) as nat);
    match sp_multiplicative(st, (f1 - 1) as nat) {
        POut::Done(Ok((e, st1))) => {
            lemma_sp_add_tail_mono(e, st1, (f1 - 1) as nat, (f2 - 1) as nat);
        },
        _ => {},
    }
}

pub proof fn lemma_sp_cmp_tail_mono(acc: ExprModel, st: ParserModel, f1: nat, f2: nat)
    requires
        f1 <= f2,
        !(sp_cmp_tail(acc, st, f1) is Short),
    ensures
        sp_cmp_tail(acc, st, f2) == sp_cmp_tail(acc, st, f1),
    decreases f1,
{
    match st.cur {
        Some(Lexeme::DoubleEquals) | Some(Lexeme::LessThan) | Some(Lexeme::GreaterThan) => {
            let op = if st.cur == Some(Lexeme::DoubleEquals) {
                BinaryOpKind::Equals
            } else if st.cur == Some(Lexeme::LessThan) {
                BinaryOpKind::LessThan
            } else {
                BinaryOpKind::GreaterThan
            };
            lemma_sp_additive_mono(sp_advance(st), (f1 - 1) as nat, (f2 - 1) as nat);
            match sp_additive(sp_advance(st), (f1 - 1) as nat) {
                POut::Done(Ok((r, st1))) => {
                    lemma_sp_cmp_tail_mono(
                        ExprModel::BinaryOp(Box::new(acc), op, Box::new(r)),
                        st1,
                        (f1 - 1) as nat,
                        (f2 - 1) as nat,
                    );
                },
                _ => {},
            }
        },
        _ => {},
    }
}

pub proof fn lemma_sp_comparison_mono(st: ParserModel, f1: nat, f2: nat)
    requires
        f1 <= f2,
        !(sp_comparison(st, f1) is Short),
    ensures
        sp_comparison(st, f2) == sp_comparison(st, f1),
    decreases f1,
{
    lemma_sp_additive_mono(st, (f1 - 1) as nat, (f2 - 1) as nat);
    match sp_additive(st, (f1 - 1) as nat) {
        POut::Done(Ok((e, st1))) => {
            lemma_sp_cmp_tail_mono(e, st1, (f1 - 1) as nat, (f2 - 1) as nat);
        },
        _ => {},
    }
}

pub proof fn lemma_sp_expression_mono(st: ParserModel, f1: nat, f2: nat)
    requires
        f1 <= f2,
        !(sp_expression(st, f1) is Short),
    ensures
        sp_expression(st, f2) == sp_expression(st, f1),
    decreases f1,
{
    lemma_sp_comparison_mono(st, (f1 - 1) as nat, (f2 - 1) as nat);
}

pub proof fn lemma_sp_let_stmt_mono(st1: ParserModel, f1: nat, f2: nat)
    requires
        f1 <= f2,
        !(sp_let_stmt(st1, f1) is Short),
    ensures
        sp_let_stmt(st1, f2) == sp_let_stmt(st1, f1),
    decreases f1,
{
    match st1.cur {
        Some(Lexeme::Identifier(w)) => {
            match sp_expect(sp_advance(st1), Lexeme::Equals) {
                Ok(st3) => {
                    lemma_sp_expression_mono(st3, (f1 - 1) as nat, (f2 - 1) as nat);
                },
                _ => {},
            }
        },
        _ => {},
    }
}

pub proof fn lemma_sp_if_stmt_mono(st1: ParserModel, f1: nat, f2: nat)
    requires
        f1 <= f2,
        !(sp_if_stmt(st1, f1) is Short),
    ensures
        sp_if_stmt(st1, f2) == sp_if_stmt(st1, f1),
    decreases f1,
{
    let f = (f1 - 1) as nat;
    let g = (f2 - 1) as nat;
    lemma_sp_expression_mono(st1, f, g);
    match sp_expression(st1, f) {
        POut::Done(Ok((cond, st2))) => {
            lemma_sp_block_mono(st2, f, g);
            match sp_block(st2, f) {
                POut::Done(Ok((then_b, st3))) => {
                    if st3.cur == Some(Lexeme::Else) {
                        lemma_sp_block_mono(sp_advance(st3), f, g);
                    }
                },
                _ => {},
            }
        },
        _ => {},
    }
}

pub proof fn lemma_sp_while_stmt_mono(st1: ParserModel, f1: nat, f2: nat)
    requires
        f1 <= f2,
        !(sp_while_stmt(st1, f1) is Short),
    ensures
        sp_while_stmt(st1, f2) == sp_while_stmt(st1, f1),
    decreases f1,
{
    let f = (f1 - 1) as nat;
    let g = (f2 - 1) as nat;
    lemma_sp_expression_mono(st1, f, g);
    match sp_expression(st1, f) {
        POut::Done(Ok((cond, st2))) => {
            lemma_sp_block_mono(st2, f, g);
        },
        _ => {},
    }
}

pub proof fn lemma_sp_print_stmt_mono(st1: ParserModel, f1: nat, f2: nat)
    requires
        f1 <= f2,
        !(sp_print_stmt(st1, f1) is Short),
    ensures
        sp_print_stmt(st1, f2) == sp_print_stmt(st1, f1),
    decreases f1,
{
    lemma_sp_expression_mono(st1, (f1 - 1) as nat, (f2 - 1) as nat);
}

pub proof fn lemma_sp_assign_stmt_mono(w: Seq<char>, st1: ParserModel, f1: nat, f2: nat)
    requires
        f1 <= f2,
        !(sp_assign_stmt(w, st1, f1) is Short),
    ensures
        sp_assign_stmt(w, st1, f2) == sp_assign_stmt(w, st1, f1),
    decreases f1,
{
    match sp_expect(st1, Lexeme::Equals) {
        Ok(st2) => {
            lemma_sp_expression_mono(st2, (f1 - 1) as nat, (f2 - 1) as nat);
        },
        _ => {},
    }
}

pub proof fn lemma_sp_statement_mono(st: ParserModel, f1: nat, f2: nat)
    requires
        f1 <= f2,
        !(sp_statement(st, f1) is Short),
    ensures
        sp_statement(st, f2) == sp_statement(st, f1),
    decreases f1,
{
    let f = (f1 - 1) as nat;
    let g = (f2 - 1) as nat;
    match st.cur {
        Some(Lexeme::Let) => {
            lemma_sp_let_stmt_mono(sp_advance(st), f, g);
        },
        Some(Lexeme::If) => {
            lemma_sp_if_stmt_mono(sp_advance(st), f, g);
        },
        Some(Lexeme::While) => {
            lemma_sp_while_stmt_mono(sp_advance(st), f, g);
        },
        Some(Lexeme::Print) => {
            lemma_sp_print_stmt_mono(sp_advance(st), f, g);
        },
        Some(Lexeme::Identifier(w)) => {
            lemma_sp_assign_stmt_mono(w, sp_advance(st), f, g);
        },
        _ => {},
    }
}

pub proof fn lemma_sp_block_mono(st: ParserModel, f1: nat, f2: nat)
    requires
        f1 <= f2,
        !(sp_block(st, f1) is Short),
    ensures
        sp_block(st, f2) == sp_block(st, f1),
    decreases f1,
{
    if st.cur == Some(Lexeme::LParen) {
        lemma_sp_block_items_mono(sp_advance(st), (f1 - 1) as nat, (f2 - 1) as nat);
    } else {
        lemma_sp_statement_mono(st, (f1 - 1) as nat, (f2 - 1) as nat);
    }
}

pub proof fn lemma_sp_block_items_mono(st: ParserModel, f1: nat, f2: nat)
    requires
        f1 <= f2,
        !(sp_block_items(st, f1) is Short),
    ensures
        sp_block_items(st, f2) == sp_block_items(st, f1),
    decreases f1,
{
    match st.cur {
        None => {},
        Some(Lexeme::RParen) => {},
        Some(_) => {
            lemma_sp_statement_mono(st, (f1 - 1) as nat, (f2 - 1) as nat);
            match sp_statement(st, (f1 - 1) as nat) {
                POut::Done(Ok((s, st1))) => {
                    lemma_sp_block_items_mono(st1, (f1 - 1) as nat, (f2 - 1) as nat);
                },
                _ => {},
            }
        },
    }
}

pub proof fn lemma_sp_program_mono(st: ParserModel, f1: nat, f2: nat)
    requires
        f1 <= f2,
        !(sp_program(st, f1) is Short),
    ensures
        sp_program(st, f2) == sp_program(st, f1),
    decreases f1,
{
    match st.cur {
        None => {},
        Some(_) => {
            lemma_sp_statement_mono(st, (f1 - 1) as nat, (f2 - 1) as nat);
            match sp_statement(st, (f1 - 1) as nat) {
                POut::Done(Ok((s, st1))) => {
                    lemma_sp_program_mono(st1, (f1 - 1) as nat, (f2 - 1) as nat);
                },
                _ => {},
            }
        },
    }
}

/// Law: the derivation's outcome is unique — any two fuels at which
/// the whole-program grammar reaches a outcome from the same state
/// yield the same outcome. A source text therefore has exactly one
/// parse outcome.
pub proof fn lemma_sp_program_outcome_unique(st: ParserModel, f1: nat, f2: nat)
    requires
        !(sp_program(st, f1) is Short),
        !(sp_program(st, f2) is Short),
    ensures
        sp_program(st, f1) == sp_program(st, f2),
{
    if f1 <= f2 {
        lemma_sp_program_mono(st, f1, f2);
    } else {
        lemma_sp_program_mono(st, f2, f1);
    }
}

/// The larger of two fuel amounts.
pub open spec fn nmax(a: nat, b: nat) -> nat {
    if a >= b {
        a
    } else {
        b
    }
}

/// One successful step of the top-level sequence, at combined fuel.
proof fn lemma_sp_program_step_ok(
    st0: ParserModel,
    fs: nat,
    fr: nat,
    s: StmtModel,
    st1: ParserModel,
    rest: Seq<StmtModel>,
    st2: ParserModel,
)
    requires
        st0.cur is Some,
        sp_statement(st0, fs) == POut::<StmtModel>::Done(Ok((s, st1))),
        sp_program(st1, fr) == POut::<Seq<StmtModel>>::Done(Ok((rest, st2))),
    ensures
        sp_program(st0, nmax(fs, fr) + 1) == POut::<Seq<StmtModel>>::Done(
            Ok((seq![s] + rest, st2)),
        ),
{
    lemma_sp_statement_mono(st0, fs, nmax(fs, fr));
    lemma_sp_program_mono(st1, fr, nmax(fs, fr));
}

/// A failing rest of the top-level sequence, at combined fuel.
proof fn lemma_sp_program_step_err(
    st0: ParserModel,
    fs: nat,
    fr: nat,
    s: StmtModel,
    st1: ParserModel,
    e: PErrorModel,
)
    requires
        st0.cur is Some,
        sp_statement(st0, fs) == POut::<StmtModel>::Done(Ok((s, st1))),
        sp_program(st1, fr) == POut::<Seq<StmtModel>>::Done(Err(e)),
    ensures
        sp_program(st0, nmax(fs, fr) + 1) == POut::<Seq<StmtModel>>::Done(Err(e)),
{
    lemma_sp_statement_mono(st0, fs, nmax(fs, fr));
    lemma_sp_program_mono(st1, fr, nmax(fs, fr));
}

/// A conditional with an `else` arm, at combined fuel.
proof fn lemma_sp_if_ok_else(
    st1: ParserModel,
    fc: nat,
    ft: nat,
    fl: nat,
    cond: ExprModel,
    st2: ParserModel,
    then_b: Seq<StmtModel>,
    st3: ParserModel,
    else_b: Seq<StmtModel>,
    st4: ParserModel,
)
    requires
        sp_expression(st1, fc) == POut::<ExprModel>::Done(Ok((cond, st2))),
        sp_block(st2, ft) == POut::<Seq<StmtModel>>::Done(Ok((then_b, st3))),
        st3.cur == Some(Lexeme::Else),
        sp_block(sp_advance(st3), fl) == POut::<Seq<StmtModel>>::Done(Ok((else_b, st4))),
    ensures
        sp_if_stmt(st1, nmax(nmax(fc, ft), fl) + 1) == POut::<StmtModel>::Done(
            Ok((StmtModel::If(cond, then_b, else_b), st4)),
        ),
{
    let b = nmax(nmax(fc, ft), fl);
    lemma_sp_expression_mono(st1, fc, b);
    lemma_sp_block_mono(st2, ft, b);
    lemma_sp_block_mono(sp_advance(st3), fl, b);
}

/// A conditional without an `else` arm, at combined fuel.
proof fn lemma_sp_if_ok_noelse(
    st1: ParserModel,
    fc: nat,
    ft: nat,
    cond: ExprModel,
    st2: ParserModel,
    then_b: Seq<StmtModel>,
    st3: ParserModel,
)
    requires
        sp_expression(st1, fc) == POut::<ExprModel>::Done(Ok((cond, st2))),
        sp_block(st2, ft) == POut::<Seq<StmtModel>>::Done(Ok((then_b, st3))),
        st3.cur != Some(Lexeme::Else),
    ensures
        sp_if_stmt(st1, nmax(fc, ft) + 1) == POut::<StmtModel>::Done(
            Ok((StmtModel::If(cond, then_b, Seq::empty()), st3)),
        ),
{
    lemma_sp_expression_mono(st1, fc, nmax(fc, ft));
    lemma_sp_block_mono(st2, ft, nmax(fc, ft));
}

/// A conditional whose then-block fails, at combined fuel.
proof fn lemma_sp_if_err_then(
    st1: ParserModel,
    fc: nat,
    ft: nat,
    cond: ExprModel,
    st2: ParserModel,
    e: PErrorModel,
)
    requires
        sp_expression(st1, fc) == POut::<ExprModel>::Done(Ok((cond, st2))),
        sp_block(st2, ft) == POut::<Seq<StmtModel>>::Done(Err(e)),
    ensures
        sp_if_stmt(st1, nmax(fc, ft) + 1) == POut::<StmtModel>::Done(Err(e)),
{
    lemma_sp_expression_mono(st1, fc, nmax(fc, ft));
    lemma_sp_block_mono(st2, ft, nmax(fc, ft));
}

/// A conditional whose else-block fails, at combined fuel.
proof fn lemma_sp_if_err_else(
    st1: ParserModel,
    fc: nat,
    ft: nat,
    fl: nat,
    cond: ExprModel,
    st2: ParserModel,
    then_b: Seq<StmtModel>,
    st3: ParserModel,
    e: PErrorModel,
)
    requires
        sp_expression(st1, fc) == POut::<ExprModel>::Done(Ok((cond, st2))),
        sp_block(st2, ft) == POut::<Seq<StmtModel>>::Done(Ok((then_b, st3))),
        st3.cur == Some(Lexeme::Else),
        sp_block(sp_advance(st3), fl) == POut::<Seq<StmtModel>>::Done(Err(e)),
    ensures
        sp_if_stmt(st1, nmax(nmax(fc, ft), fl) + 1) == POut::<StmtModel>::Done(Err(e)),
{
    let b = nmax(nmax(fc, ft), fl);
    lemma_sp_expression_mono(st1, fc, b);
    lemma_sp_block_mono(st2, ft, b);
    lemma_sp_block_mono(sp_advance(st3), fl, b);
}

/// A parse result as a grammar outcome: the parsed value's model with
/// the state after, or the error's model.
pub open spec fn out_expr(r: Result<Expr, ParseError>, st: ParserModel) -> POut<ExprModel> {
    match r {
        Ok(e) => POut::Done(Ok((expr_model(e), st))),
        Err(pe) => POut::Done(Err(perror_model(pe))),
    }
}

pub open spec fn out_stmt(r: Result<Statement, ParseError>, st: ParserModel) -> POut<StmtModel> {
    match r {
        Ok(s) => POut::Done(Ok((stmt_model(s), st))),
        Err(pe) => POut::Done(Err(perror_model(pe))),
    }
}

pub open spec fn out_stmts(r: Result<Vec<Statement>, ParseError>, st: ParserModel) -> POut<
    Seq<StmtModel>,
> {
    match r {
        Ok(v) => POut::Done(Ok((stmts_model(v@), st))),
        Err(pe) => POut::Done(Err(perror_model(pe))),
    }
}

/// Prepending one statement to a sequence prepends its model.
proof fn lemma_stmts_model_cons(s: Statement, rest: Seq<Statement>)
    ensures
        stmts_model(seq![s] + rest) == seq![stmt_model(s)] + stmts_model(rest),
{
    let ss = seq![s] + rest;
    assert(ss.subrange(1, ss.len() as int) =~= rest);
    assert(stmts_model(ss) =~= seq![stmt_model(s)] + stmts_model(rest));
}

/// A recursive-descent parser with one token of lookahead.
pub struct Parser {
    lexer: Lexer,
    current_token: Option<Token>,
}

impl View for Parser {
    type V = ParserModel;

    closed spec fn view(&self) -> ParserModel {
        ParserModel {
            input: self.lexer@.input,
            pos: self.lexer@.position,
            cur: opt_lexeme(self.current_token),
        }
    }
}

impl Parser {
    /// A parser over the given text, with the first token pulled.
    pub fn new(input: &str) -> (p: Parser)
        ensures
            p@.wf(),
            p@.input == input@,
            p@ == sp_advance(ParserModel { input: input@, pos: 0, cur: None }),
    {
        let mut lexer = Lexer::new(input);
        proof {
            lemma_next_token_advances(input@, 0);
        }
        let current_token = lexer.next_token();
        let p = Parser { lexer, current_token };
        proof {
            assert(p@ =~= sp_advance(ParserModel { input: input@, pos: 0, cur: None }));
        }
        p
    }

    /// Pull the next token into the lookahead slot.
    fn advance(&mut self)
        requires
            old(self)@.wf(),
        ensures
            final(self)@.wf(),
            final(self)@ == sp_advance(old(self)@),
            pmeasure(final(self)@) <= pmeasure(old(self)@),
            old(self)@.cur is Some ==> pmeasure(final(self)@) < pmeasure(old(self)@),
    {
        proof {
            lemma_next_token_advances(self@.input, self@.pos);
        }
        self.current_token = self.lexer.next_token();
        proof {
            assert(final(self)@ =~= sp_advance(old(self)@));
        }
    }

    /// Step over the given token, or fail naming it against what the
    /// lookahead actually holds, leaving the state untouched.
    fn expect(&mut self, expected: Token) -> (r: Result<(), ParseError>)
        requires
            old(self)@.wf(),
        ensures
            final(self)@.wf(),
            final(self)@.input == old(self)@.input,
            pmeasure(final(self)@) <= pmeasure(old(self)@),
            match r {
                Ok(()) => sp_expect(old(self)@, expected@) == Ok::<ParserModel, PErrorModel>(
                    final(self)@,
                ) && pmeasure(final(self)@) < pmeasure(old(self)@),
                Err(e) => sp_expect(old(self)@, expected@) == Err::<ParserModel, PErrorModel>(
                    perror_model(e),
                ) && final(self)@ == old(self)@,
            },
    {
        let matches_expected = match &self.current_token {
            Some(t) => *t == expected,
            None => false,
        };
        if matches_expected {
            self.advance();
            Ok(())
        } else {
            let got = match &self.current_token {
                Some(t) => Some(t.clone()),
                None => None,
            };
            Err(ParseError::Expected(expected, got))
        }
    }

    /// Parse the whole program. The result is exactly the grammar's
    /// outcome on the stream: `Ok` with the derived statements when
    /// the entire stream derives a statement sequence, the first
    /// structural mismatch otherwise.
    pub fn parse_program(&mut self) -> (r: Result<Vec<Statement>, ParseError>)
        requires
            old(self)@.wf(),
        ensures
            final(self)@.wf(),
            final(self)@.input == old(self)@.input,
            r is Ok ==> final(self)@.cur is None,
            exists|fuel: nat| sp_program(old(self)@, fuel) == out_stmts(r, final(self)@),
    {
        self.parse_program_items()
    }

    /// The statements of the top-level sequence, until the stream ends.
    #[verifier::rlimit(100)]
    #[verifier::spinoff_prover]
    fn parse_program_items(&mut self) -> (r: Result<Vec<Statement>, ParseError>)
        requires
            old(self)@.wf(),
        ensures
            final(self)@.wf(),
            final(self)@.input == old(self)@.input,
            pmeasure(final(self)@) <= pmeasure(old(self)@),
            r is Ok ==> final(self)@.cur is None,
            exists|fuel: nat| sp_program(old(self)@, fuel) == out_stmts(r, final(self)@),
        decreases pmeasure(old(self)@), 8int,
    {
        let ghost st0 = self@;
        match &self.current_token {
            None => {
                let empty: Vec<Statement> = Vec::new();
                proof {
                    assert(sp_program(st0, 1) == out_stmts(Ok(empty), final(self)@));
                }
                return Ok(empty);
            },
            Some(_) => {},
        }
        let r_s = self.parse_statement();
        let ghost st1 = self@;
        let s = match r_s {
            Ok(s) => s,
            Err(e) => {
                proof {
                    let fs = choose|f: nat| sp_statement(st0, f) == out_stmt(r_s, st1);
                    assert(sp_program(st0, fs + 1) == out_stmts(
                        Err::<Vec<Statement>, ParseError>(e),
                        final(self)@,
                    ));
                }
                return Err(e);
            },
        };
        let r_rest = self.parse_program_items();
        let ghost st2 = self@;
        let mut rest = match r_rest {
            Ok(v) => v,
            Err(e) => {
                proof {
                    let fs = choose|f: nat| sp_statement(st0, f) == out_stmt(r_s, st1);
                    let fr = choose|f: nat| sp_program(st1, f) == out_stmts(r_rest, st2);
                    lemma_sp_program_step_err(
                        st0,
                        fs,
                        fr,
                        stmt_model(r_s->Ok_0),
                        st1,
                        perror_model(e),
                    );
                    assert(sp_program(st0, nmax(fs, fr) + 1) == out_stmts(
                        Err::<Vec<Statement>, ParseError>(e),
                        final(self)@,
                    ));
                }
                return Err(e);
            },
        };
        rest.insert(0, s);
        proof {
            let fs = choose|f: nat| sp_statement(st0, f) == out_stmt(r_s, st1);
            let fr = choose|f: nat| sp_program(st1, f) == out_stmts(r_rest, st2);
            let tail = r_rest->Ok_0;
            lemma_sp_program_step_ok(
                st0,
                fs,
                fr,
                stmt_model(s),
                st1,
                stmts_model(tail@),
                st2,
            );
            assert(rest@ =~= seq![s] + tail@);
            lemma_stmts_model_cons(s, tail@);
            assert(sp_program(st0, nmax(fs, fr) + 1) == out_stmts(Ok(rest), final(self)@));
        }
        Ok(rest)
    }

    /// Parse one statement, dispatched on the lookahead: `let`, `if`,
    /// `while`, `print`, or an assignment beginning with an identifier.
    /// The result is the grammar's outcome at the current state.
    #[verifier::rlimit(100)]
    #[verifier::spinoff_prover]
    fn parse_statement(&mut self) -> (r: Result<Statement, ParseError>)
        requires
            old(self)@.wf(),
        ensures
            final(self)@.wf(),
            final(self)@.input == old(self)@.input,
            pmeasure(final(self)@) <= pmeasure(old(self)@),
            r is Ok ==> pmeasure(final(self)@) < pmeasure(old(self)@),
            exists|fuel: nat| sp_statement(old(self)@, fuel) == out_stmt(r, final(self)@),
        decreases pmeasure(old(self)@), 5int,
    {
        let ghost st0 = self@;
        match &self.current_token {
            Some(Token::Let) => {
                self.advance();
                let ghost st1 = self@;
                let r = self.parse_let_stmt();
                proof {
                    let f = choose|f: nat| sp_let_stmt(st1, f) == out_stmt(r, final(self)@);
                    assert(sp_statement(st0, f + 1) == out_stmt(r, final(self)@));
                }
                r
            },
            Some(Token::If) => {
                self.advance();
                let ghost st1 = self@;
                let r = self.parse_if_stmt();
                proof {
                    let f = choose|f: nat| sp_if_stmt(st1, f) == out_stmt(r, final(self)@);
                    assert(sp_statement(st0, f + 1) == out_stmt(r, final(self)@));
                }
                r
            },
            Some(Token::While) => {
                self.advance();
                let ghost st1 = self@;
                let r = self.parse_while_stmt();
                proof {
                    let f = choose|f: nat| sp_while_stmt(st1, f) == out_stmt(r, final(self)@);
                    assert(sp_statement(st0, f + 1) == out_stmt(r, final(self)@));
                }
                r
            },
            Some(Token::Print) => {
                self.advance();
                let ghost st1 = self@;
                let r = self.parse_print_stmt();
                proof {
                    let f = choose|f: nat| sp_print_stmt(st1, f) == out_stmt(r, final(self)@);
                    assert(sp_statement(st0, f + 1) == out_stmt(r, final(self)@));
                }
                r
            },
            Some(Token::Identifier(name)) => {
                let name = name.clone();
                self.advance();
                let ghost st1 = self@;
                let r = self.parse_assign_stmt(name);
                proof {
                    let f = choose|f: nat|
                        sp_assign_stmt(name@, st1, f) == out_stmt(r, final(self)@);
                    assert(sp_statement(st0, f + 1) == out_stmt(r, final(self)@));
                }
                r
            },
            _ => {
                proof {
                    assert(sp_statement(st0, 1) == out_stmt(
                        Err::<Statement, ParseError>(ParseError::ExpectedStatement),
                        final(self)@,
                    ));
                }
                Err(ParseError::ExpectedStatement)
            },
        }
    }

    /// The rest of a `let` statement, after its keyword.
    #[verifier::rlimit(100)]
    #[verifier::spinoff_prover]
    fn parse_let_stmt(&mut self) -> (r: Result<Statement, ParseError>)
        requires
            old(self)@.wf(),
        ensures
            final(self)@.wf(),
            final(self)@.input == old(self)@.input,
            pmeasure(final(self)@) <= pmeasure(old(self)@),
            exists|fuel: nat| sp_let_stmt(old(self)@, fuel) == out_stmt(r, final(self)@),
        decreases pmeasure(old(self)@), 4int,
    {
        let ghost st1 = self@;
        let name = match &self.current_token {
            Some(Token::Identifier(n)) => n.clone(),
            _ => {
                proof {
                    assert(sp_let_stmt(st1, 1) == out_stmt(
                        Err::<Statement, ParseError>(ParseError::ExpectedIdentifier),
                        final(self)@,
                    ));
                }
                return Err(ParseError::ExpectedIdentifier);
            },
        };
        self.advance();
        let r_eq = self.expect(Token::Equals);
        match r_eq {
            Ok(()) => {},
            Err(e) => {
                proof {
                    assert(sp_let_stmt(st1, 1) == out_stmt(
                        Err::<Statement, ParseError>(e),
                        final(self)@,
                    ));
                }
                return Err(e);
            },
        }
        let ghost st3 = self@;
        let r_e = self.parse_expression();
        let ghost st4 = self@;
        let expr = match r_e {
            Ok(e) => e,
            Err(e) => {
                proof {
                    let fe = choose|f: nat| sp_expression(st3, f) == out_expr(r_e, st4);
                    assert(sp_let_stmt(st1, fe + 1) == out_stmt(
                        Err::<Statement, ParseError>(e),
                        final(self)@,
                    ));
                }
                return Err(e);
            },
        };
        let r_sc = self.expect(Token::Semicolon);
        match r_sc {
            Ok(()) => {},
            Err(e) => {
                proof {
                    let fe = choose|f: nat| sp_expression(st3, f) == out_expr(r_e, st4);
                    assert(sp_let_stmt(st1, fe + 1) == out_stmt(
                        Err::<Statement, ParseError>(e),
                        final(self)@,
                    ));
                }
                return Err(e);
            },
        }
        let stmt = Statement::Let(name, expr);
        proof {
            let fe = choose|f: nat| sp_expression(st3, f) == out_expr(r_e, st4);
            assert(sp_let_stmt(st1, fe + 1) == out_stmt(Ok(stmt), final(self)@));
        }
        Ok(stmt)
    }

    /// The rest of an `if` statement, after its keyword.
    #[verifier::rlimit(100)]
    #[verifier::spinoff_prover]
    fn parse_if_stmt(&mut self) -> (r: Result<Statement, ParseError>)
        requires
            old(self)@.wf(),
        ensures
            final(self)@.wf(),
            final(self)@.input == old(self)@.input,
            pmeasure(final(self)@) <= pmeasure(old(self)@),
            exists|fuel: nat| sp_if_stmt(old(self)@, fuel) == out_stmt(r, final(self)@),
        decreases pmeasure(old(self)@), 4int,
    {
        let ghost st1 = self@;
        let r_c = self.parse_expression();
        let ghost st2 = self@;
        let condition = match r_c {
            Ok(e) => e,
            Err(e) => {
                proof {
                    let fc = choose|f: nat| sp_expression(st1, f) == out_expr(r_c, st2);
                    assert(sp_if_stmt(st1, fc + 1) == out_stmt(
                        Err::<Statement, ParseError>(e),
                        final(self)@,
                    ));
                }
                return Err(e);
            },
        };
        let r_t = self.parse_block();
        let ghost st3 = self@;
        let then_block = match r_t {
            Ok(b) => b,
            Err(e) => {
                proof {
                    let fc = choose|f: nat| sp_expression(st1, f) == out_expr(r_c, st2);
                    let ft = choose|f: nat| sp_block(st2, f) == out_stmts(r_t, st3);
                    lemma_sp_if_err_then(
                        st1,
                        fc,
                        ft,
                        expr_model(r_c->Ok_0),
                        st2,
                        perror_model(e),
                    );
                    assert(sp_if_stmt(st1, nmax(fc, ft) + 1) == out_stmt(
                        Err::<Statement, ParseError>(e),
                        final(self)@,
                    ));
                }
                return Err(e);
            },
        };
        let has_else = match &self.current_token {
            Some(Token::Else) => true,
            _ => false,
        };
        if has_else {
            self.advance();
            let ghost st4 = self@;
            let r_el = self.parse_block();
            let ghost st5 = self@;
            let else_block = match r_el {
                Ok(b) => b,
                Err(e) => {
                    proof {
                        let fc = choose|f: nat| sp_expression(st1, f) == out_expr(r_c, st2);
                        let ft = choose|f: nat| sp_block(st2, f) == out_stmts(r_t, st3);
                        let fl = choose|f: nat| sp_block(st4, f) == out_stmts(r_el, st5);
                        lemma_sp_if_err_else(
                            st1,
                            fc,
                            ft,
                            fl,
                            expr_model(r_c->Ok_0),
                            st2,
                            stmts_model(r_t->Ok_0@),
                            st3,
                            perror_model(e),
                        );
                        assert(sp_if_stmt(st1, nmax(nmax(fc, ft), fl) + 1) == out_stmt(
                            Err::<Statement, ParseError>(e),
                            final(self)@,
                        ));
                    }
                    return Err(e);
                },
            };
            let stmt = Statement::If(condition, then_block, else_block);
            proof {
                let fc = choose|f: nat| sp_expression(st1, f) == out_expr(r_c, st2);
                let ft = choose|f: nat| sp_block(st2, f) == out_stmts(r_t, st3);
                let fl = choose|f: nat| sp_block(st4, f) == out_stmts(r_el, st5);
                lemma_sp_if_ok_else(
                    st1,
                    fc,
                    ft,
                    fl,
                    expr_model(r_c->Ok_0),
                    st2,
                    stmts_model(r_t->Ok_0@),
                    st3,
                    stmts_model(r_el->Ok_0@),
                    st5,
                );
                assert(sp_if_stmt(st1, nmax(nmax(fc, ft), fl) + 1) == out_stmt(
                    Ok(stmt),
                    final(self)@,
                ));
            }
            Ok(stmt)
        } else {
            let stmt = Statement::If(condition, then_block, Vec::new());
            proof {
                let fc = choose|f: nat| sp_expression(st1, f) == out_expr(r_c, st2);
                let ft = choose|f: nat| sp_block(st2, f) == out_stmts(r_t, st3);
                lemma_sp_if_ok_noelse(
                    st1,
                    fc,
                    ft,
                    expr_model(r_c->Ok_0),
                    st2,
                    stmts_model(r_t->Ok_0@),
                    st3,
                );
                assert(stmts_model(Seq::<Statement>::empty()) =~= Seq::<StmtModel>::empty());
                assert(sp_if_stmt(st1, nmax(fc, ft) + 1) == out_stmt(Ok(stmt), final(self)@));
            }
            Ok(stmt)
        }
    }

    /// The rest of a `while` statement, after its keyword.
    #[verifier::rlimit(100)]
    #[verifier::spinoff_prover]
    fn parse_while_stmt(&mut self) -> (r: Result<Statement, ParseError>)
        requires
            old(self)@.wf(),
        ensures
            final(self)@.wf(),
            final(self)@.input == old(self)@.input,
            pmeasure(final(self)@) <= pmeasure(old(self)@),
            exists|fuel: nat| sp_while_stmt(old(self)@, fuel) == out_stmt(r, final(self)@),
        decreases pmeasure(old(self)@), 4int,
    {
        let ghost st1 = self@;
        let r_c = self.parse_expression();
        let ghost st2 = self@;
        let condition = match r_c {
            Ok(e) => e,
            Err(e) => {
                proof {
                    let fc = choose|f: nat| sp_expression(st1, f) == out_expr(r_c, st2);
                    assert(sp_while_stmt(st1, fc + 1) == out_stmt(
                        Err::<Statement, ParseError>(e),
                        final(self)@,
                    ));
                }
                return Err(e);
            },
        };
        let r_b = self.parse_block();
        let ghost st3 = self@;
        let block = match r_b {
            Ok(b) => b,
            Err(e) => {
                proof {
                    let fc = choose|f: nat| sp_expression(st1, f) == out_expr(r_c, st2);
                    let fb = choose|f: nat| sp_block(st2, f) == out_stmts(r_b, st3);
                    let b = if fc >= fb { fc } else { fb };
                    lemma_sp_expression_mono(st1, fc, b);
                    lemma_sp_block_mono(st2, fb, b);
                    assert(sp_while_stmt(st1, b + 1) == out_stmt(
                        Err::<Statement, ParseError>(e),
                        final(self)@,
                    ));
                }
                return Err(e);
            },
        };
        let stmt = Statement::While(condition, block);
        proof {
            let fc = choose|f: nat| sp_expression(st1, f) == out_expr(r_c, st2);
            let fb = choose|f: nat| sp_block(st2, f) == out_stmts(r_b, st3);
            let b = if fc >= fb { fc } else { fb };
            lemma_sp_expression_mono(st1, fc, b);
            lemma_sp_block_mono(st2, fb, b);
            assert(sp_while_stmt(st1, b + 1) == out_stmt(Ok(stmt), final(self)@));
        }
        Ok(stmt)
    }

    /// The rest of a `print` statement, after its keyword.
    #[verifier::rlimit(100)]
    #[verifier::spinoff_prover]
    fn parse_print_stmt(&mut self) -> (r: Result<Statement, ParseError>)
        requires
            old(self)@.wf(),
        ensures
            final(self)@.wf(),
            final(self)@.input == old(self)@.input,
            pmeasure(final(self)@) <= pmeasure(old(self)@),
            exists|fuel: nat| sp_print_stmt(old(self)@, fuel) == out_stmt(r, final(self)@),
        decreases pmeasure(old(self)@), 4int,
    {
        let ghost st1 = self@;
        let r_e = self.parse_expression();
        let ghost st2 = self@;
        let expr = match r_e {
            Ok(e) => e,
            Err(e) => {
                proof {
                    let fe = choose|f: nat| sp_expression(st1, f) == out_expr(r_e, st2);
                    assert(sp_print_stmt(st1, fe + 1) == out_stmt(
                        Err::<Statement, ParseError>(e),
                        final(self)@,
                    ));
                }
                return Err(e);
            },
        };
        let r_sc = self.expect(Token::Semicolon);
        match r_sc {
            Ok(()) => {},
            Err(e) => {
                proof {
                    let fe = choose|f: nat| sp_expression(st1, f) == out_expr(r_e, st2);
                    assert(sp_print_stmt(st1, fe + 1) == out_stmt(
                        Err::<Statement, ParseError>(e),
                        final(self)@,
                    ));
                }
                return Err(e);
            },
        }
        let stmt = Statement::Print(expr);
        proof {
            let fe = choose|f: nat| sp_expression(st1, f) == out_expr(r_e, st2);
            assert(sp_print_stmt(st1, fe + 1) == out_stmt(Ok(stmt), final(self)@));
        }
        Ok(stmt)
    }

    /// The rest of an assignment, after the identifier it targets.
    #[verifier::rlimit(100)]
    #[verifier::spinoff_prover]
    fn parse_assign_stmt(&mut self, name: String) -> (r: Result<Statement, ParseError>)
        requires
            old(self)@.wf(),
        ensures
            final(self)@.wf(),
            final(self)@.input == old(self)@.input,
            pmeasure(final(self)@) <= pmeasure(old(self)@),
            exists|fuel: nat| sp_assign_stmt(name@, old(self)@, fuel) == out_stmt(r, final(self)@),
        decreases pmeasure(old(self)@), 4int,
    {
        let ghost st1 = self@;
        let r_eq = self.expect(Token::Equals);
        match r_eq {
            Ok(()) => {},
            Err(e) => {
                proof {
                    assert(sp_assign_stmt(name@, st1, 1) == out_stmt(
                        Err::<Statement, ParseError>(e),
                        final(self)@,
                    ));
                }
                return Err(e);
            },
        }
        let ghost st2 = self@;
        let r_e = self.parse_expression();
        let ghost st3 = self@;
        let expr = match r_e {
            Ok(e) => e,
            Err(e) => {
                proof {
                    let fe = choose|f: nat| sp_expression(st2, f) == out_expr(r_e, st3);
                    assert(sp_assign_stmt(name@, st1, fe + 1) == out_stmt(
                        Err::<Statement, ParseError>(e),
                        final(self)@,
                    ));
                }
                return Err(e);
            },
        };
        let r_sc = self.expect(Token::Semicolon);
        match r_sc {
            Ok(()) => {},
            Err(e) => {
                proof {
                    let fe = choose|f: nat| sp_expression(st2, f) == out_expr(r_e, st3);
                    assert(sp_assign_stmt(name@, st1, fe + 1) == out_stmt(
                        Err::<Statement, ParseError>(e),
                        final(self)@,
                    ));
                }
                return Err(e);
            },
        }
        let stmt = Statement::Assign(name, expr);
        proof {
            let fe = choose|f: nat| sp_expression(st2, f) == out_expr(r_e, st3);
            assert(sp_assign_stmt(name@, st1, fe + 1) == out_stmt(Ok(stmt), final(self)@));
        }
        Ok(stmt)
    }

    /// Parse a block: one statement, or a parenthesized sequence.
    #[verifier::rlimit(100)]
    #[verifier::spinoff_prover]
    fn parse_block(&mut self) -> (r: Result<Vec<Statement>, ParseError>)
        requires
            old(self)@.wf(),
        ensures
            final(self)@.wf(),
            final(self)@.input == old(self)@.input,
            pmeasure(final(self)@) <= pmeasure(old(self)@),
            r is Ok ==> pmeasure(final(self)@) < pmeasure(old(self)@),
            exists|fuel: nat| sp_block(old(self)@, fuel) == out_stmts(r, final(self)@),
        decreases pmeasure(old(self)@), 6int,
    {
        let ghost st0 = self@;
        let is_paren = match &self.current_token {
            Some(Token::LParen) => true,
            _ => false,
        };
        if is_paren {
            self.advance();
            let ghost st1 = self@;
            let r_items = self.parse_block_items();
            let ghost st2 = self@;
            let statements = match r_items {
                Ok(v) => v,
                Err(e) => {
                    proof {
                        let fi = choose|f: nat| sp_block_items(st1, f) == out_stmts(r_items, st2);
                        assert(sp_block(st0, fi + 1) == out_stmts(
                            Err::<Vec<Statement>, ParseError>(e),
                            final(self)@,
                        ));
                    }
                    return Err(e);
                },
            };
            let r_rp = self.expect(Token::RParen);
            match r_rp {
                Ok(()) => {},
                Err(e) => {
                    proof {
                        let fi = choose|f: nat| sp_block_items(st1, f) == out_stmts(r_items, st2);
                        assert(sp_block(st0, fi + 1) == out_stmts(
                            Err::<Vec<Statement>, ParseError>(e),
                            final(self)@,
                        ));
                    }
                    return Err(e);
                },
            }
            proof {
                let fi = choose|f: nat| sp_block_items(st1, f) == out_stmts(r_items, st2);
                assert(sp_block(st0, fi + 1) == out_stmts(Ok(statements), final(self)@));
            }
            Ok(statements)
        } else {
            let r_s = self.parse_statement();
            let ghost st1 = self@;
            let s = match r_s {
                Ok(s) => s,
                Err(e) => {
                    proof {
                        let fs = choose|f: nat| sp_statement(st0, f) == out_stmt(r_s, st1);
                        assert(sp_block(st0, fs + 1) == out_stmts(
                            Err::<Vec<Statement>, ParseError>(e),
                            final(self)@,
                        ));
                    }
                    return Err(e);
                },
            };
            let mut statements = Vec::new();
            statements.push(s);
            proof {
                let fs = choose|f: nat| sp_statement(st0, f) == out_stmt(r_s, st1);
                assert(statements@ =~= seq![s] + Seq::<Statement>::empty());
                lemma_stmts_model_cons(s, Seq::<Statement>::empty());
                assert(stmts_model(statements@) =~= seq![stmt_model(s)]);
                assert(sp_block(st0, fs + 1) == out_stmts(Ok(statements), final(self)@));
            }
            Ok(statements)
        }
    }

    /// The statements of a parenthesized block, up to the closing
    /// parenthesis or the end of the stream.
    #[verifier::rlimit(100)]
    #[verifier::spinoff_prover]
    fn parse_block_items(&mut self) -> (r: Result<Vec<Statement>, ParseError>)
        requires
            old(self)@.wf(),
        ensures
            final(self)@.wf(),
            final(self)@.input == old(self)@.input,
            pmeasure(final(self)@) <= pmeasure(old(self)@),
            exists|fuel: nat| sp_block_items(old(self)@, fuel) == out_stmts(r, final(self)@),
        decreases pmeasure(old(self)@), 7int,
    {
        let ghost st0 = self@;
        let done = match &self.current_token {
            None => true,
            Some(Token::RParen) => true,
            Some(_) => false,
        };
        if done {
            let empty: Vec<Statement> = Vec::new();
            proof {
                assert(sp_block_items(st0, 1) == out_stmts(Ok(empty), final(self)@));
            }
            return Ok(empty);
        }
        let r_s = self.parse_statement();
        let ghost st1 = self@;
        let s = match r_s {
            Ok(s) => s,
            Err(e) => {
                proof {
                    let fs = choose|f: nat| sp_statement(st0, f) == out_stmt(r_s, st1);
                    assert(sp_block_items(st0, fs + 1) == out_stmts(
                        Err::<Vec<Statement>, ParseError>(e),
                        final(self)@,
                    ));
                }
                return Err(e);
            },
        };
        let r_rest = self.parse_block_items();
        let ghost st2 = self@;
        let mut rest = match r_rest {
            Ok(v) => v,
            Err(e) => {
                proof {
                    let fs = choose|f: nat| sp_statement(st0, f) == out_stmt(r_s, st1);
                    let fr = choose|f: nat| sp_block_items(st1, f) == out_stmts(r_rest, st2);
                    let b = if fs >= fr { fs } else { fr };
                    lemma_sp_statement_mono(st0, fs, b);
                    lemma_sp_block_items_mono(st1, fr, b);
                    assert(sp_block_items(st0, b + 1) == out_stmts(
                        Err::<Vec<Statement>, ParseError>(e),
                        final(self)@,
                    ));
                }
                return Err(e);
            },
        };
        rest.insert(0, s);
        proof {
            let fs = choose|f: nat| sp_statement(st0, f) == out_stmt(r_s, st1);
            let fr = choose|f: nat| sp_block_items(st1, f) == out_stmts(r_rest, st2);
            let b = if fs >= fr { fs } else { fr };
            lemma_sp_statement_mono(st0, fs, b);
            lemma_sp_block_items_mono(st1, fr, b);
            let tail = r_rest->Ok_0;
            assert(rest@ =~= seq![s] + tail@);
            lemma_stmts_model_cons(s, tail@);
            assert(sp_block_items(st0, b + 1) == out_stmts(Ok(rest), final(self)@));
        }
        Ok(rest)
    }

    /// Parse an expression: the comparison tier is the loosest.
    #[verifier::rlimit(100)]
    #[verifier::spinoff_prover]
    fn parse_expression(&mut self) -> (r: Result<Expr, ParseError>)
        requires
            old(self)@.wf(),
        ensures
            final(self)@.wf(),
            final(self)@.input == old(self)@.input,
            pmeasure(final(self)@) <= pmeasure(old(self)@),
            r is Ok ==> pmeasure(final(self)@) < pmeasure(old(self)@),
            exists|fuel: nat| sp_expression(old(self)@, fuel) == out_expr(r, final(self)@),
        decreases pmeasure(old(self)@), 4int,
    {
        let ghost st0 = self@;
        let r = self.parse_comparison();
        proof {
            let fc = choose|f: nat| sp_comparison(st0, f) == out_expr(r, final(self)@);
            assert(sp_expression(st0, fc + 1) == out_expr(r, final(self)@));
        }
        r
    }

    /// `==`, `<` and `>`, left-associative, one precedence tier.
    #[verifier::rlimit(100)]
    #[verifier::spinoff_prover]
    fn parse_comparison(&mut self) -> (r: Result<Expr, ParseError>)
        requires
            old(self)@.wf(),
        ensures
            final(self)@.wf(),
            final(self)@.input == old(self)@.input,
            pmeasure(final(self)@) <= pmeasure(old(self)@),
            r is Ok ==> pmeasure(final(self)@) < pmeasure(old(self)@),
            exists|fuel: nat| sp_comparison(old(self)@, fuel) == out_expr(r, final(self)@),
        decreases pmeasure(old(self)@), 3int,
    {
        let ghost st0 = self@;
        let r_a = self.parse_additive();
        let ghost st1 = self@;
        let first = match r_a {
            Ok(e) => e,
            Err(e) => {
                proof {
                    let fa = choose|f: nat| sp_additive(st0, f) == out_expr(r_a, st1);
                    assert(sp_comparison(st0, fa + 1) == out_expr(
                        Err::<Expr, ParseError>(e),
                        final(self)@,
                    ));
                }
                return Err(e);
            },
        };
        let r = self.parse_cmp_tail(first);
        proof {
            let fa = choose|f: nat| sp_additive(st0, f) == out_expr(r_a, st1);
            let ft = choose|f: nat|
                sp_cmp_tail(expr_model(r_a->Ok_0), st1, f) == out_expr(r, final(self)@);
            let b = if fa >= ft { fa } else { ft };
            lemma_sp_additive_mono(st0, fa, b);
            lemma_sp_cmp_tail_mono(expr_model(r_a->Ok_0), st1, ft, b);
            assert(sp_comparison(st0, b + 1) == out_expr(r, final(self)@));
        }
        r
    }

    /// Fold further comparison operators onto `acc`, left-associatively.
    #[verifier::rlimit(100)]
    #[verifier::spinoff_prover]
    fn parse_cmp_tail(&mut self, acc: Expr) -> (r: Result<Expr, ParseError>)
        requires
            old(self)@.wf(),
        ensures
            final(self)@.wf(),
            final(self)@.input == old(self)@.input,
            pmeasure(final(self)@) <= pmeasure(old(self)@),
            exists|fuel: nat|
                sp_cmp_tail(expr_model(acc), old(self)@, fuel) == out_expr(r, final(self)@),
        decreases pmeasure(old(self)@), 0int,
    {
        let ghost st0 = self@;
        let op = match &self.current_token {
            Some(Token::DoubleEquals) => BinaryOpKind::Equals,
            Some(Token::LessThan) => BinaryOpKind::LessThan,
            Some(Token::GreaterThan) => BinaryOpKind::GreaterThan,
            _ => {
                proof {
                    assert(sp_cmp_tail(expr_model(acc), st0, 1) == out_expr(
                        Ok(acc),
                        final(self)@,
                    ));
                }
                return Ok(acc);
            },
        };
        self.advance();
        let ghost st1 = self@;
        let r_r = self.parse_additive();
        let ghost st2 = self@;
        let right = match r_r {
            Ok(e) => e,
            Err(e) => {
                proof {
                    let fr = choose|f: nat| sp_additive(st1, f) == out_expr(r_r, st2);
                    assert(sp_cmp_tail(expr_model(acc), st0, fr + 1) == out_expr(
                        Err::<Expr, ParseError>(e),
                        final(self)@,
                    ));
                }
                return Err(e);
            },
        };
        let next = Expr::BinaryOp(Box::new(acc), op, Box::new(right));
        let ghost next_m = expr_model(next);
        let ghost acc_m = expr_model(acc);
        let r = self.parse_cmp_tail(next);
        proof {
            let fr = choose|f: nat| sp_additive(st1, f) == out_expr(r_r, st2);
            let ft = choose|f: nat| sp_cmp_tail(next_m, st2, f) == out_expr(r, final(self)@);
            let b = if fr >= ft { fr } else { ft };
            lemma_sp_additive_mono(st1, fr, b);
            lemma_sp_cmp_tail_mono(next_m, st2, ft, b);
            assert(sp_cmp_tail(acc_m, st0, b + 1) == out_expr(r, final(self)@));
        }
        r
    }

    /// `+` and `-`, left-associative.
    #[verifier::rlimit(100)]
    #[verifier::spinoff_prover]
    fn parse_additive(&mut self) -> (r: Result<Expr, ParseError>)
        requires
            old(self)@.wf(),
        ensures
            final(self)@.wf(),
            final(self)@.input == old(self)@.input,
            pmeasure(final(self)@) <= pmeasure(old(self)@),
            r is Ok ==> pmeasure(final(self)@) < pmeasure(old(self)@),
            exists|fuel: nat| sp_additive(old(self)@, fuel) == out_expr(r, final(self)@),
        decreases pmeasure(old(self)@), 2int,
    {
        let ghost st0 = self@;
        let r_m = self.parse_multiplicative();
        let ghost st1 = self@;
        let first = match r_m {
            Ok(e) => e,
            Err(e) => {
                proof {
                    let fm = choose|f: nat| sp_multiplicative(st0, f) == out_expr(r_m, st1);
                    assert(sp_additive(st0, fm + 1) == out_expr(
                        Err::<Expr, ParseError>(e),
                        final(self)@,
                    ));
                }
                return Err(e);
            },
        };
        let r = self.parse_add_tail(first);
        proof {
            let fm = choose|f: nat| sp_multiplicative(st0, f) == out_expr(r_m, st1);
            let ft = choose|f: nat|
                sp_add_tail(expr_model(r_m->Ok_0), st1, f) == out_expr(r, final(self)@);
            let b = if fm >= ft { fm } else { ft };
            lemma_sp_multiplicative_mono(st0, fm, b);
            lemma_sp_add_tail_mono(expr_model(r_m->Ok_0), st1, ft, b);
            assert(sp_additive(st0, b + 1) == out_expr(r, final(self)@));
        }
        r
    }

    /// Fold further `+` / `-` operands onto `acc`, left-associatively.
    #[verifier::rlimit(100)]
    #[verifier::spinoff_prover]
    fn parse_add_tail(&mut self, acc: Expr) -> (r: Result<Expr, ParseError>)
        requires
            old(self)@.wf(),
        ensures
            final(self)@.wf(),
            final(self)@.input == old(self)@.input,
            pmeasure(final(self)@) <= pmeasure(old(self)@),
            exists|fuel: nat|
                sp_add_tail(expr_model(acc), old(self)@, fuel) == out_expr(r, final(self)@),
        decreases pmeasure(old(self)@), 0int,
    {
        let ghost st0 = self@;
        let op = match &self.current_token {
            Some(Token::Plus) => BinaryOpKind::Add,
            Some(Token::Minus) => BinaryOpKind::Sub,
            _ => {
                proof {
                    assert(sp_add_tail(expr_model(acc), st0, 1) == out_expr(
                        Ok(acc),
                        final(self)@,
                    ));
                }
                return Ok(acc);
            },
        };
        self.advance();
        let ghost st1 = self@;
        let r_r = self.parse_multiplicative();
        let ghost st2 = self@;
        let right = match r_r {
            Ok(e) => e,
            Err(e) => {
                proof {
                    let fr = choose|f: nat| sp_multiplicative(st1, f) == out_expr(r_r, st2);
                    assert(sp_add_tail(expr_model(acc), st0, fr + 1) == out_expr(
                        Err::<Expr, ParseError>(e),
                        final(self)@,
                    ));
                }
                return Err(e);
            },
        };
        let next = Expr::BinaryOp(Box::new(acc), op, Box::new(right));
        let ghost next_m = expr_model(next);
        let ghost acc_m = expr_model(acc);
        let r = self.parse_add_tail(next);
        proof {
            let fr = choose|f: nat| sp_multiplicative(st1, f) == out_expr(r_r, st2);
            let ft = choose|f: nat| sp_add_tail(next_m, st2, f) == out_expr(r, final(self)@);
            let b = if fr >= ft { fr } else { ft };
            lemma_sp_multiplicative_mono(st1, fr, b);
            lemma_sp_add_tail_mono(next_m, st2, ft, b);
            assert(sp_add_tail(acc_m, st0, b + 1) == out_expr(r, final(self)@));
        }
        r
    }

    /// `*` and `/`, left-associative, the tightest binary tier.
    #[verifier::rlimit(100)]
    #[verifier::spinoff_prover]
    fn parse_multiplicative(&mut self) -> (r: Result<Expr, ParseError>)
        requires
            old(self)@.wf(),
        ensures
            final(self)@.wf(),
            final(self)@.input == old(self)@.input,
            pmeasure(final(self)@) <= pmeasure(old(self)@),
            r is Ok ==> pmeasure(final(self)@) < pmeasure(old(self)@),
            exists|fuel: nat| sp_multiplicative(old(self)@, fuel) == out_expr(r, final(self)@),
        decreases pmeasure(old(self)@), 1int,
    {
        let ghost st0 = self@;
        let r_p = self.parse_primary();
        let ghost st1 = self@;
        let first = match r_p {
            Ok(e) => e,
            Err(e) => {
                proof {
                    let fp = choose|f: nat| sp_primary(st0, f) == out_expr(r_p, st1);
                    assert(sp_multiplicative(st0, fp + 1) == out_expr(
                        Err::<Expr, ParseError>(e),
                        final(self)@,
                    ));
                }
                return Err(e);
            },
        };
        let r = self.parse_mult_tail(first);
        proof {
            let fp = choose|f: nat| sp_primary(st0, f) == out_expr(r_p, st1);
            let ft = choose|f: nat|
                sp_mult_tail(expr_model(r_p->Ok_0), st1, f) == out_expr(r, final(self)@);
            let b = if fp >= ft { fp } else { ft };
            lemma_sp_primary_mono(st0, fp, b);
            lemma_sp_mult_tail_mono(expr_model(r_p->Ok_0), st1, ft, b);
            assert(sp_multiplicative(st0, b + 1) == out_expr(r, final(self)@));
        }
        r
    }

    /// Fold further `*` / `/` operands onto `acc`, left-associatively.
    #[verifier::rlimit(100)]
    #[verifier::spinoff_prover]
    fn parse_mult_tail(&mut self, acc: Expr) -> (r: Result<Expr, ParseError>)
        requires
            old(self)@.wf(),
        ensures
            final(self)@.wf(),
            final(self)@.input == old(self)@.input,
            pmeasure(final(self)@) <= pmeasure(old(self)@),
            exists|fuel: nat|
                sp_mult_tail(expr_model(acc), old(self)@, fuel) == out_expr(r, final(self)@),
        decreases pmeasure(old(self)@), 0int,
    {
        let ghost st0 = self@;
        let op = match &self.current_token {
            Some(Token::Star) => BinaryOpKind::Mul,
            Some(Token::Slash) => BinaryOpKind::Div,
            _ => {
                proof {
                    assert(sp_mult_tail(expr_model(acc), st0, 1) == out_expr(
                        Ok(acc),
                        final(self)@,
                    ));
                }
                return Ok(acc);
            },
        };
        self.advance();
        let ghost st1 = self@;
        let r_r = self.parse_primary();
        let ghost st2 = self@;
        let right = match r_r {
            Ok(e) => e,
            Err(e) => {
                proof {
                    let fr = choose|f: nat| sp_primary(st1, f) == out_expr(r_r, st2);
                    assert(sp_mult_tail(expr_model(acc), st0, fr + 1) == out_expr(
                        Err::<Expr, ParseError>(e),
                        final(self)@,
                    ));
                }
                return Err(e);
            },
        };
        let next = Expr::BinaryOp(Box::new(acc), op, Box::new(right));
        let ghost next_m = expr_model(next);
        let ghost acc_m = expr_model(acc);
        let r = self.parse_mult_tail(next);
        proof {
            let fr = choose|f: nat| sp_primary(st1, f) == out_expr(r_r, st2);
            let ft = choose|f: nat| sp_mult_tail(next_m, st2, f) == out_expr(r, final(self)@);
            let b = if fr >= ft { fr } else { ft };
            lemma_sp_primary_mono(st1, fr, b);
            lemma_sp_mult_tail_mono(next_m, st2, ft, b);
            assert(sp_mult_tail(acc_m, st0, b + 1) == out_expr(r, final(self)@));
        }
        r
    }

    /// A literal, a variable, or a parenthesized sub-expression.
    #[verifier::rlimit(100)]
    #[verifier::spinoff_prover]
    fn parse_primary(&mut self) -> (r: Result<Expr, ParseError>)
        requires
            old(self)@.wf(),
        ensures
            final(self)@.wf(),
            final(self)@.input == old(self)@.input,
            pmeasure(final(self)@) <= pmeasure(old(self)@),
            r is Ok ==> pmeasure(final(self)@) < pmeasure(old(self)@),
            exists|fuel: nat| sp_primary(old(self)@, fuel) == out_expr(r, final(self)@),
        decreases pmeasure(old(self)@), 0int,
    {
        let ghost st0 = self@;
        match &self.current_token {
            Some(Token::Number(n)) => {
                let n = *n;
                self.advance();
                proof {
                    assert(sp_primary(st0, 1) == out_expr(Ok(Expr::Number(n)), final(self)@));
                }
                Ok(Expr::Number(n))
            },
            Some(Token::Identifier(name)) => {
                let name = name.clone();
                self.advance();
                proof {
                    assert(sp_primary(st0, 1) == out_expr(
                        Ok(Expr::Variable(name)),
                        final(self)@,
                    ));
                }
                Ok(Expr::Variable(name))
            },
            Some(Token::LParen) => {
                self.advance();
                let ghost st1 = self@;
                let r_e = self.parse_expression();
                let ghost st2 = self@;
                let expr = match r_e {
                    Ok(e) => e,
                    Err(e) => {
                        proof {
                            let fe = choose|f: nat| sp_expression(st1, f) == out_expr(r_e, st2);
                            assert(sp_primary(st0, fe + 1) == out_expr(
                                Err::<Expr, ParseError>(e),
                                final(self)@,
                            ));
                        }
                        return Err(e);
                    },
                };
                let r_rp = self.expect(Token::RParen);
                match r_rp {
                    Ok(()) => {},
                    Err(e) => {
                        proof {
                            let fe = choose|f: nat| sp_expression(st1, f) == out_expr(r_e, st2);
                            assert(sp_primary(st0, fe + 1) == out_expr(
                                Err::<Expr, ParseError>(e),
                                final(self)@,
                            ));
                        }
                        return Err(e);
                    },
                }
                proof {
                    let fe = choose|f: nat| sp_expression(st1, f) == out_expr(r_e, st2);
                    assert(sp_primary(st0, fe + 1) == out_expr(Ok(expr), final(self)@));
                }
                Ok(expr)
            },
            _ => {
                proof {
                    assert(sp_primary(st0, 1) == out_expr(
                        Err::<Expr, ParseError>(ParseError::ExpectedExpression),
                        final(self)@,
                    ));
                }
                Err(ParseError::ExpectedExpression)
            },
        }
    }
}

} // verus!
