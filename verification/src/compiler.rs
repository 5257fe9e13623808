use vstd::prelude::*;
use vstd::bytes::u64_to_le_bytes;
use crate::parser::{Expr, BinaryOpKind, Statement};
use crate::vm::{Opcode, opcode_byte, opcode_of, spec_i64_to_le_bytes, lemma_i64_le_bytes_roundtrip};

verus! {

/// The address the compiler assigns to a name: the position of its
/// first occurrence in the allocation order, or the next free address
/// (the table's length) if the name is new.
pub open spec fn var_index(vars: Seq<Seq<char>>, name: Seq<char>) -> nat
    decreases vars.len(),
{
    if vars.len() == 0 {
        0
    } else if vars[0] == name {
        0
    } else {
        1 + var_index(vars.drop_first(), name)
    }
}

/// The allocation table after resolving a name: unchanged if the name
/// is known, extended by it otherwise.
pub open spec fn vars_after(vars: Seq<Seq<char>>, name: Seq<char>) -> Seq<Seq<char>> {
    if vars.contains(name) {
        vars
    } else {
        vars.push(name)
    }
}

/// A forward scan that saw no match in the first `i` names pins
/// `var_index` down: the match is at `i`, or past it.
proof fn lemma_var_index_prefix(vars: Seq<Seq<char>>, name: Seq<char>, i: int)
    requires
        0 <= i <= vars.len(),
        forall|j: int| 0 <= j < i ==> vars[j] != name,
    ensures
        i < vars.len() && vars[i] == name ==> var_index(vars, name) == i,
        i == vars.len() ==> var_index(vars, name) == vars.len(),
    decreases i,
{
    if i > 0 {
        lemma_var_index_prefix(vars.drop_first(), name, i - 1);
    }
}

/// The bytecode of a push-immediate: the opcode and the 8-byte
/// little-endian operand.
pub open spec fn push_code(v: i64) -> Seq<u8> {
    seq![opcode_byte(Opcode::Push)] + spec_i64_to_le_bytes(v)
}

/// A push-immediate instruction is always 9 bytes.
pub proof fn lemma_push_code_len(v: i64)
    ensures
        push_code(v).len() == 9,
{
    lemma_i64_le_bytes_roundtrip(v);
}

/// The opcode emitted for a binary operator. Greater-than has no opcode
/// of its own: it is desugared to less-than over swapped operands.
pub open spec fn binop_opcode(op: BinaryOpKind) -> Opcode {
    match op {
        BinaryOpKind::Add => Opcode::Add,
        BinaryOpKind::Sub => Opcode::Sub,
        BinaryOpKind::Mul => Opcode::Mul,
        BinaryOpKind::Div => Opcode::Div,
        BinaryOpKind::Equals => Opcode::Equal,
        BinaryOpKind::LessThan => Opcode::Less,
        BinaryOpKind::GreaterThan => Opcode::Less,
    }
}

/// The code that leaves a condition's negation on the stack: compare
/// the condition value with zero. It follows the condition's own code
/// wherever a branch is taken on the condition being false.
pub open spec fn negate_code() -> Seq<u8> {
    push_code(0) + seq![opcode_byte(Opcode::Equal)]
}

/// The bytecode of an expression, and the allocation table it leaves
/// behind. Operands are pushed in source order; `a > b` compiles its
/// right operand first and emits less-than.
pub open spec fn expr_code(e: Expr, vars: Seq<Seq<char>>) -> (Seq<u8>, Seq<Seq<char>>)
    decreases e,
{
    match e {
        Expr::Number(n) => (push_code(n), vars),
        Expr::Variable(name) => (
            push_code(var_index(vars, name@) as i64) + seq![opcode_byte(Opcode::Load)],
            vars_after(vars, name@),
        ),
        Expr::BinaryOp(left, op, right) => {
            if op == BinaryOpKind::GreaterThan {
                let (rc, vars1) = expr_code(*right, vars);
                let (lc, vars2) = expr_code(*left, vars1);
                (rc + lc + seq![opcode_byte(Opcode::Less)], vars2)
            } else {
                let (lc, vars1) = expr_code(*left, vars);
                let (rc, vars2) = expr_code(*right, vars1);
                (lc + rc + seq![opcode_byte(binop_opcode(op))], vars2)
            }
        },
    }
}

/// The bytecode of a declaration or assignment: the resolved address is
/// pushed first, then the value, then `store` (which pops the value and
/// then the address). Resolving the address may allocate it.
pub open spec fn store_code(name: Seq<char>, e: Expr, vars: Seq<Seq<char>>) -> (
    Seq<u8>,
    Seq<Seq<char>>,
) {
    let addr = var_index(vars, name);
    let vars1 = vars_after(vars, name);
    let (ec, vars2) = expr_code(e, vars1);
    (push_code(addr as i64) + ec + seq![opcode_byte(Opcode::Store)], vars2)
}

/// The bytecode of one statement placed at absolute offset `base`.
/// Branches push their absolute target before `jump` / `jump-if`, the
/// one addressing convention the machine decodes; a conditional branch
/// to a false-case target goes through the negation sequence.
pub open spec fn stmt_code(s: Statement, base: nat, vars: Seq<Seq<char>>) -> (
    Seq<u8>,
    Seq<Seq<char>>,
)
    decreases s,
{
    match s {
        Statement::Let(name, e) => store_code(name@, e, vars),
        Statement::Assign(name, e) => store_code(name@, e, vars),
        Statement::If(cond, then_b, else_b) => {
            let (cc, vars1) = expr_code(cond, vars);
            let then_base = (base + cc.len() + negate_code().len() + 10) as nat;
            let (tc, vars2) = stmts_code(then_b@, then_base, vars1);
            let else_base = (then_base + tc.len() + 10) as nat;
            let (ec, vars3) = stmts_code(else_b@, else_base, vars2);
            let end = (else_base + ec.len()) as nat;
            (
                cc + negate_code()
                    + push_code(else_base as i64) + seq![opcode_byte(Opcode::JumpIf)]
                    + tc
                    + push_code(end as i64) + seq![opcode_byte(Opcode::Jump)]
                    + ec,
                vars3,
            )
        },
        Statement::While(cond, body) => {
            let (cc, vars1) = expr_code(cond, vars);
            let body_base = (base + cc.len() + negate_code().len() + 10) as nat;
            let (bc, vars2) = stmts_code(body@, body_base, vars1);
            let end = (body_base + bc.len() + 10) as nat;
            (
                cc + negate_code()
                    + push_code(end as i64) + seq![opcode_byte(Opcode::JumpIf)]
                    + bc
                    + push_code(base as i64) + seq![opcode_byte(Opcode::Jump)],
                vars2,
            )
        },
        Statement::Print(e) => {
            let (ec, vars1) = expr_code(e, vars);
            (ec + seq![opcode_byte(Opcode::Print)], vars1)
        },
    }
}

/// The bytecode of a statement sequence starting at offset `base`.
pub open spec fn stmts_code(ss: Seq<Statement>, base: nat, vars: Seq<Seq<char>>) -> (
    Seq<u8>,
    Seq<Seq<char>>,
)
    decreases ss,
{
    if ss.len() == 0 {
        (Seq::empty(), vars)
    } else {
        let (c1, vars1) = stmt_code(ss[0], base, vars);
        let (c2, vars2) = stmts_code(
            ss.subrange(1, ss.len() as int),
            (base + c1.len()) as nat,
            vars1,
        );
        (c1 + c2, vars2)
    }
}

/// Patching a placeholder push operand inside a concatenation: only the
/// 8 operand bytes change.
proof fn lemma_patch_aligned(before: Seq<u8>, x: i64, after: Seq<u8>, v: i64)
    ensures
        ({
            let code = before + push_code(x) + after;
            let p = before.len() + 1;
            code.subrange(0, p as int) + spec_i64_to_le_bytes(v)
                + code.subrange(p as int + 8, code.len() as int)
                == before + push_code(v) + after
        }),
{
    lemma_i64_le_bytes_roundtrip(x);
    lemma_i64_le_bytes_roundtrip(v);
    let code = before + push_code(x) + after;
    let p = before.len() + 1;
    assert(code.subrange(0, p as int) + spec_i64_to_le_bytes(v)
        + code.subrange(p as int + 8, code.len() as int)
        =~= before + push_code(v) + after);
}

/// The mathematical state of a compiler: the bytes emitted so far and
/// the variable allocation table, in allocation order.
#[verifier::ext_equal]
pub ghost struct CompilerModel {
    pub code: Seq<u8>,
    pub vars: Seq<Seq<char>>,
}

/// A single-pass bytecode compiler: a growing byte arena and a table
/// assigning each variable name a dense address in order of first use.
pub struct Compiler {
    bytecode: Vec<u8>,
    variables: Vec<String>,
}

impl View for Compiler {
    type V = CompilerModel;

    closed spec fn view(&self) -> CompilerModel {
        CompilerModel {
            code: self.bytecode@,
            vars: self.variables@.map_values(|s: String| s@),
        }
    }
}

impl Compiler {
    /// A compiler with an empty arena and no variables allocated.
    pub fn new() -> (c: Compiler)
        ensures
            c@.code == Seq::<u8>::empty(),
            c@.vars == Seq::<Seq<char>>::empty(),
    {
        let c = Compiler { bytecode: Vec::new(), variables: Vec::new() };
        proof {
            assert(c@.vars =~= Seq::<Seq<char>>::empty());
        }
        c
    }

    fn emit(&mut self, opcode: u8)
        ensures
            final(self)@.code == old(self)@.code.push(opcode),
            final(self)@.vars == old(self)@.vars,
    {
        self.bytecode.push(opcode);
    }

    fn emit_i64(&mut self, value: i64)
        ensures
            final(self)@.code == old(self)@.code + spec_i64_to_le_bytes(value),
            final(self)@.vars == old(self)@.vars,
    {
        let mut bytes = u64_to_le_bytes(value as u64);
        self.bytecode.append(&mut bytes);
    }

    /// Overwrite the 8 operand bytes at `pos` with a value learned only
    /// after further code was emitted.
    fn patch_i64(&mut self, pos: usize, value: i64)
        requires
            pos + 8 <= old(self)@.code.len(),
        ensures
            final(self)@.code == old(self)@.code.subrange(0, pos as int)
                + spec_i64_to_le_bytes(value)
                + old(self)@.code.subrange(pos + 8, old(self)@.code.len() as int),
            final(self)@.vars == old(self)@.vars,
    {
        let len = self.bytecode.len();
        let mut tail = self.bytecode.split_off(pos + 8);
        self.bytecode.truncate(pos);
        let mut bytes = u64_to_le_bytes(value as u64);
        self.bytecode.append(&mut bytes);
        self.bytecode.append(&mut tail);
        proof {
            assert(final(self)@.code =~= old(self)@.code.subrange(0, pos as int)
                + spec_i64_to_le_bytes(value)
                + old(self)@.code.subrange(pos + 8, old(self)@.code.len() as int));
        }
    }

    /// The dense address of a name: its existing slot, or a fresh one.
    fn get_var_address(&mut self, name: &String) -> (addr: usize)
        ensures
            addr as nat == var_index(old(self)@.vars, name@),
            final(self)@.vars == vars_after(old(self)@.vars, name@),
            final(self)@.code == old(self)@.code,
    {
        let n = self.variables.len();
        let mut i: usize = 0;
        while i < n
            invariant
                i <= n,
                n == self.variables.len(),
                self@ == old(self)@,
                forall|j: int| 0 <= j < i ==> self@.vars[j] != name@,
            decreases n - i,
        {
            if self.variables[i] == *name {
                proof {
                    assert(self@.vars[i as int] == name@);
                    lemma_var_index_prefix(self@.vars, name@, i as int);
                    assert(self@.vars.contains(name@));
                }
                return i;
            }
            i = i + 1;
        }
        proof {
            lemma_var_index_prefix(self@.vars, name@, n as int);
            assert(!old(self)@.vars.contains(name@));
        }
        self.variables.push(name.clone());
        proof {
            assert(final(self)@.vars =~= vars_after(old(self)@.vars, name@));
        }
        n
    }

    fn compile_expr(&mut self, expr: &Expr)
        ensures
            ({
                let (c, vs) = expr_code(*expr, old(self)@.vars);
                final(self)@.code == old(self)@.code + c && final(self)@.vars == vs
            }),
        decreases *expr,
    {
        match expr {
            Expr::Number(n) => {
                self.emit(Opcode::Push.as_byte());
                self.emit_i64(*n);
                proof {
                    assert(final(self)@.code =~= old(self)@.code + push_code(*n));
                }
            },
            Expr::Variable(name) => {
                let addr = self.get_var_address(name);
                self.emit(Opcode::Push.as_byte());
                self.emit_i64(addr as i64);
                self.emit(Opcode::Load.as_byte());
                proof {
                    assert(final(self)@.code =~= old(self)@.code
                        + (push_code(var_index(old(self)@.vars, name@) as i64)
                            + seq![opcode_byte(Opcode::Load)]));
                }
            },
            Expr::BinaryOp(left, op, right) => {
                match op {
                    BinaryOpKind::GreaterThan => {
                        self.compile_expr(&**right);
                        self.compile_expr(&**left);
                        self.emit(Opcode::Less.as_byte());
                        proof {
                            let (rc, vars1) = expr_code(**right, old(self)@.vars);
                            let (lc, vars2) = expr_code(**left, vars1);
                            assert(final(self)@.code =~= old(self)@.code
                                + (rc + lc + seq![opcode_byte(Opcode::Less)]));
                        }
                    },
                    _ => {
                        self.compile_expr(&**left);
                        self.compile_expr(&**right);
                        let bop = match op {
                            BinaryOpKind::Add => Opcode::Add,
                            BinaryOpKind::Sub => Opcode::Sub,
                            BinaryOpKind::Mul => Opcode::Mul,
                            BinaryOpKind::Div => Opcode::Div,
                            BinaryOpKind::Equals => Opcode::Equal,
                            _ => Opcode::Less,
                        };
                        self.emit(bop.as_byte());
                        proof {
                            let (lc, vars1) = expr_code(**left, old(self)@.vars);
                            let (rc, vars2) = expr_code(**right, vars1);
                            assert(final(self)@.code =~= old(self)@.code
                                + (lc + rc + seq![opcode_byte(binop_opcode(*op))]));
                        }
                    },
                }
            },
        }
    }

    #[verifier::rlimit(100)]
    fn compile_statement(&mut self, statement: &Statement)
        ensures
            ({
                let (c, vs) = stmt_code(
                    *statement,
                    old(self)@.code.len() as nat,
                    old(self)@.vars,
                );
                final(self)@.code == old(self)@.code + c && final(self)@.vars == vs
            }),
        decreases *statement,
    {
        match statement {
            Statement::Let(name, e) | Statement::Assign(name, e) => {
                let addr = self.get_var_address(name);
                self.emit(Opcode::Push.as_byte());
                self.emit_i64(addr as i64);
                self.compile_expr(e);
                self.emit(Opcode::Store.as_byte());
                proof {
                    let vars1 = vars_after(old(self)@.vars, name@);
                    let (ec, vars2) = expr_code(*e, vars1);
                    assert(final(self)@.code =~= old(self)@.code
                        + (push_code(var_index(old(self)@.vars, name@) as i64) + ec
                            + seq![opcode_byte(Opcode::Store)]));
                }
            },
            Statement::If(cond, then_b, else_b) => {
                proof {
                    lemma_push_code_len(0);
                    assert(then_b@.subrange(0, then_b@.len() as int) =~= then_b@);
                    assert(else_b@.subrange(0, else_b@.len() as int) =~= else_b@);
                    assert(decreases_to!(*statement => then_b@));
                    assert(decreases_to!(*statement => else_b@));
                }
                let ghost base = self@.code.len();
                let ghost cv = expr_code(*cond, self@.vars);
                let ghost then_base = (base + cv.0.len() + negate_code().len() + 10) as nat;
                let ghost tv = stmts_code(then_b@, then_base, cv.1);
                let ghost else_base = (then_base + tv.0.len() + 10) as nat;
                let ghost ev = stmts_code(else_b@, else_base, tv.1);
                let ghost end = (else_base + ev.0.len()) as nat;
                self.compile_expr(cond);
                self.emit(Opcode::Push.as_byte());
                self.emit_i64(0);
                self.emit(Opcode::Equal.as_byte());
                self.emit(Opcode::Push.as_byte());
                let p1 = self.bytecode.len();
                self.emit_i64(0);
                self.emit(Opcode::JumpIf.as_byte());
                self.compile_block(then_b, 0);
                self.emit(Opcode::Push.as_byte());
                let p2 = self.bytecode.len();
                self.emit_i64(0);
                self.emit(Opcode::Jump.as_byte());
                let else_pos = self.bytecode.len();
                self.compile_block(else_b, 0);
                let end_pos = self.bytecode.len();
                let ghost a1 = old(self)@.code + cv.0 + negate_code();
                let ghost b1 = seq![opcode_byte(Opcode::JumpIf)] + tv.0 + push_code(0)
                    + seq![opcode_byte(Opcode::Jump)] + ev.0;
                proof {
                    lemma_push_code_len(else_pos as i64);
                    lemma_push_code_len(end_pos as i64);
                    assert(self@.code =~= a1 + push_code(0) + b1);
                    assert(p1 as int == a1.len() + 1);
                    assert(else_pos as nat == else_base);
                    assert(end_pos as nat == end);
                }
                self.patch_i64(p1, else_pos as i64);
                let ghost a2 = a1 + push_code(else_pos as i64) + seq![opcode_byte(Opcode::JumpIf)]
                    + tv.0;
                let ghost b2 = seq![opcode_byte(Opcode::Jump)] + ev.0;
                proof {
                    lemma_patch_aligned(a1, 0, b1, else_pos as i64);
                    assert(self@.code == a1 + push_code(else_pos as i64) + b1);
                    assert(self@.code =~= a2 + push_code(0) + b2);
                    assert(p2 as int == a2.len() + 1);
                }
                self.patch_i64(p2, end_pos as i64);
                proof {
                    lemma_patch_aligned(a2, 0, b2, end_pos as i64);
                    assert(self@.code == a2 + push_code(end_pos as i64) + b2);
                    assert(else_pos as i64 == else_base as i64);
                    assert(end_pos as i64 == end as i64);
                    assert(final(self)@.code =~= old(self)@.code
                        + (cv.0 + negate_code()
                            + push_code(else_base as i64) + seq![opcode_byte(Opcode::JumpIf)]
                            + tv.0
                            + push_code(end as i64) + seq![opcode_byte(Opcode::Jump)]
                            + ev.0));
                }
            },
            Statement::While(cond, body) => {
                proof {
                    lemma_push_code_len(0);
                    assert(body@.subrange(0, body@.len() as int) =~= body@);
                    assert(decreases_to!(*statement => body@));
                }
                let ghost base = self@.code.len();
                let ghost cv = expr_code(*cond, self@.vars);
                let ghost body_base = (base + cv.0.len() + negate_code().len() + 10) as nat;
                let ghost bv = stmts_code(body@, body_base, cv.1);
                let ghost end = (body_base + bv.0.len() + 10) as nat;
                let start_pos = self.bytecode.len();
                self.compile_expr(cond);
                self.emit(Opcode::Push.as_byte());
                self.emit_i64(0);
                self.emit(Opcode::Equal.as_byte());
                self.emit(Opcode::Push.as_byte());
                let p1 = self.bytecode.len();
                self.emit_i64(0);
                self.emit(Opcode::JumpIf.as_byte());
                self.compile_block(body, 0);
                self.emit(Opcode::Push.as_byte());
                self.emit_i64(start_pos as i64);
                self.emit(Opcode::Jump.as_byte());
                let end_pos = self.bytecode.len();
                let ghost a1 = old(self)@.code + cv.0 + negate_code();
                let ghost b1 = seq![opcode_byte(Opcode::JumpIf)] + bv.0
                    + push_code(start_pos as i64) + seq![opcode_byte(Opcode::Jump)];
                proof {
                    lemma_push_code_len(end_pos as i64);
                    lemma_push_code_len(start_pos as i64);
                    assert(self@.code =~= a1 + push_code(0) + b1);
                    assert(p1 as int == a1.len() + 1);
                    assert(end_pos as nat == end);
                }
                self.patch_i64(p1, end_pos as i64);
                proof {
                    lemma_patch_aligned(a1, 0, b1, end_pos as i64);
                    assert(self@.code == a1 + push_code(end_pos as i64) + b1);
                    assert(end_pos as i64 == end as i64);
                    assert(start_pos as i64 == base as i64);
                    assert(final(self)@.code =~= old(self)@.code
                        + (cv.0 + negate_code()
                            + push_code(end as i64) + seq![opcode_byte(Opcode::JumpIf)]
                            + bv.0
                            + push_code(base as i64) + seq![opcode_byte(Opcode::Jump)]));
                }
            },
            Statement::Print(e) => {
                self.compile_expr(e);
                self.emit(Opcode::Print.as_byte());
                proof {
                    let (ec, vars1) = expr_code(*e, old(self)@.vars);
                    assert(final(self)@.code =~= old(self)@.code
                        + (ec + seq![opcode_byte(Opcode::Print)]));
                }
            },
        }
    }

    fn compile_block(&mut self, statements: &Vec<Statement>, from: usize)
        requires
            from <= statements@.len(),
        ensures
            ({
                let (c, vs) = stmts_code(
                    statements@.subrange(from as int, statements@.len() as int),
                    old(self)@.code.len() as nat,
                    old(self)@.vars,
                );
                final(self)@.code == old(self)@.code + c && final(self)@.vars == vs
            }),
        decreases statements@.subrange(from as int, statements@.len() as int),
    {
        let n = statements.len();
        if from < n {
            let ghost sub = statements@.subrange(from as int, statements@.len() as int);
            proof {
                assert(sub[0] == statements@[from as int]);
                assert(sub.subrange(1, sub.len() as int)
                    =~= statements@.subrange(from as int + 1, statements@.len() as int));
            }
            self.compile_statement(&statements[from]);
            self.compile_block(statements, from + 1);
            proof {
                let (c1, vars1) = stmt_code(sub[0], old(self)@.code.len() as nat, old(self)@.vars);
                let (c2, vars2) = stmts_code(
                    sub.subrange(1, sub.len() as int),
                    (old(self)@.code.len() + c1.len()) as nat,
                    vars1,
                );
                assert(final(self)@.code =~= old(self)@.code + (c1 + c2));
            }
        } else {
            proof {
                assert(statements@.subrange(from as int, statements@.len() as int)
                    =~= Seq::<Statement>::empty());
            }
        }
    }

    /// Compile a whole program: the statements' code, closed by `halt`.
    /// The returned buffer is the full arena, so jump targets are
    /// absolute offsets into it.
    pub fn compile(&mut self, statements: Vec<Statement>) -> (r: Vec<u8>)
        ensures
            ({
                let (c, vs) = stmts_code(
                    statements@,
                    old(self)@.code.len() as nat,
                    old(self)@.vars,
                );
                final(self)@.code == old(self)@.code + c + seq![opcode_byte(Opcode::Halt)]
                    && final(self)@.vars == vs
                    && r@ == final(self)@.code
            }),
    {
        proof {
            assert(statements@.subrange(0, statements@.len() as int) =~= statements@);
        }
        self.compile_block(&statements, 0);
        self.emit(Opcode::Halt.as_byte());
        let r = self.bytecode.clone();
        proof {
            let (c, vs) = stmts_code(statements@, old(self)@.code.len() as nat, old(self)@.vars);
            assert(final(self)@.code =~= old(self)@.code + c + seq![opcode_byte(Opcode::Halt)]);
            assert(r@ =~= final(self)@.code);
        }
        r
    }
}


/// A sequential decode of the byte range from `pos` to the end: each
/// step reads one opcode and, for push, its 8 operand bytes; the walk
/// must land exactly on the end, never inside an operand.
pub open spec fn decodes_from(code: Seq<u8>, pos: nat) -> bool
    decreases code.len() - pos,
{
    if pos >= code.len() {
        pos == code.len()
    } else {
        match opcode_of(code[pos as int]) {
            None => false,
            Some(op) => {
                if op == Opcode::Push {
                    pos + 9 <= code.len() && decodes_from(code, (pos + 9) as nat)
                } else {
                    decodes_from(code, (pos + 1) as nat)
                }
            },
        }
    }
}

/// A decodable tail keeps decoding at the same place after bytes are
/// put in front of the whole buffer.
proof fn lemma_decode_shift(a: Seq<u8>, b: Seq<u8>, q: nat)
    requires
        q <= b.len(),
        decodes_from(b, q),
    ensures
        decodes_from(a + b, (a.len() + q) as nat),
    decreases b.len() - q,
{
    if q < b.len() {
        assert((a + b)[a.len() + q as int] == b[q as int]);
        match opcode_of(b[q as int]) {
            Some(op) => {
                if op == Opcode::Push {
                    lemma_decode_shift(a, b, (q + 9) as nat);
                } else {
                    lemma_decode_shift(a, b, (q + 1) as nat);
                }
            },
            None => {},
        }
    }
}

/// Decodable pieces decode as one buffer.
proof fn lemma_decode_append(c1: Seq<u8>, c2: Seq<u8>, p: nat)
    requires
        p <= c1.len(),
        decodes_from(c1, p),
        decodes_from(c2, 0),
    ensures
        decodes_from(c1 + c2, p),
    decreases c1.len() - p,
{
    if p == c1.len() {
        lemma_decode_shift(c1, c2, 0);
    } else {
        assert((c1 + c2)[p as int] == c1[p as int]);
        match opcode_of(c1[p as int]) {
            Some(op) => {
                if op == Opcode::Push {
                    lemma_decode_append(c1, c2, (p + 9) as nat);
                } else {
                    lemma_decode_append(c1, c2, (p + 1) as nat);
                }
            },
            None => {},
        }
    }
}

/// A push-immediate instruction is one decode step.
proof fn lemma_push_code_decodes(v: i64)
    ensures
        decodes_from(push_code(v), 0),
{
    lemma_push_code_len(v);
    assert(push_code(v)[0] == opcode_byte(Opcode::Push));
    assert(decodes_from(push_code(v), 9));
}

/// A one-byte instruction is one decode step.
proof fn lemma_opcode_decodes(op: Opcode)
    requires
        op != Opcode::Push,
    ensures
        decodes_from(seq![opcode_byte(op)], 0),
{
    assert(seq![opcode_byte(op)][0] == opcode_byte(op));
    assert(opcode_of(opcode_byte(op)) == Some(op));
    assert(decodes_from(seq![opcode_byte(op)], 1));
}

/// The code of every expression decodes cleanly.
proof fn lemma_expr_code_decodes(e: Expr, vars: Seq<Seq<char>>)
    ensures
        decodes_from(expr_code(e, vars).0, 0),
    decreases e,
{
    match e {
        Expr::Number(n) => {
            lemma_push_code_decodes(n);
        },
        Expr::Variable(name) => {
            lemma_push_code_decodes(var_index(vars, name@) as i64);
            lemma_opcode_decodes(Opcode::Load);
            lemma_decode_append(
                push_code(var_index(vars, name@) as i64),
                seq![opcode_byte(Opcode::Load)],
                0,
            );
        },
        Expr::BinaryOp(left, op, right) => {
            if op == BinaryOpKind::GreaterThan {
                let (rc, vars1) = expr_code(*right, vars);
                let (lc, vars2) = expr_code(*left, vars1);
                lemma_expr_code_decodes(*right, vars);
                lemma_expr_code_decodes(*left, vars1);
                lemma_opcode_decodes(Opcode::Less);
                lemma_decode_append(lc, seq![opcode_byte(Opcode::Less)], 0);
                lemma_decode_append(rc, lc + seq![opcode_byte(Opcode::Less)], 0);
                assert(rc + lc + seq![opcode_byte(Opcode::Less)]
                    =~= rc + (lc + seq![opcode_byte(Opcode::Less)]));
            } else {
                let (lc, vars1) = expr_code(*left, vars);
                let (rc, vars2) = expr_code(*right, vars1);
                lemma_expr_code_decodes(*left, vars);
                lemma_expr_code_decodes(*right, vars1);
                lemma_opcode_decodes(binop_opcode(op));
                lemma_decode_append(rc, seq![opcode_byte(binop_opcode(op))], 0);
                lemma_decode_append(lc, rc + seq![opcode_byte(binop_opcode(op))], 0);
                assert(lc + rc + seq![opcode_byte(binop_opcode(op))]
                    =~= lc + (rc + seq![opcode_byte(binop_opcode(op))]));
            }
        },
    }
}

/// The negation sequence decodes cleanly.
proof fn lemma_negate_code_decodes()
    ensures
        decodes_from(negate_code(), 0),
{
    lemma_push_code_decodes(0);
    lemma_opcode_decodes(Opcode::Equal);
    lemma_decode_append(push_code(0), seq![opcode_byte(Opcode::Equal)], 0);
}

/// The code of every statement decodes cleanly.
proof fn lemma_stmt_code_decodes(s: Statement, base: nat, vars: Seq<Seq<char>>)
    ensures
        decodes_from(stmt_code(s, base, vars).0, 0),
    decreases s,
{
    match s {
        Statement::Let(name, e) | Statement::Assign(name, e) => {
            let addr = var_index(vars, name@);
            let vars1 = vars_after(vars, name@);
            let (ec, vars2) = expr_code(e, vars1);
            lemma_push_code_decodes(addr as i64);
            lemma_expr_code_decodes(e, vars1);
            lemma_opcode_decodes(Opcode::Store);
            lemma_decode_append(ec, seq![opcode_byte(Opcode::Store)], 0);
            lemma_decode_append(push_code(addr as i64), ec + seq![opcode_byte(Opcode::Store)], 0);
            assert(push_code(addr as i64) + ec + seq![opcode_byte(Opcode::Store)]
                =~= push_code(addr as i64) + (ec + seq![opcode_byte(Opcode::Store)]));
        },
        Statement::If(cond, then_b, else_b) => {
            let (cc, vars1) = expr_code(cond, vars);
            let then_base = (base + cc.len() + negate_code().len() + 10) as nat;
            let (tc, vars2) = stmts_code(then_b@, then_base, vars1);
            let else_base = (then_base + tc.len() + 10) as nat;
            let (ec, vars3) = stmts_code(else_b@, else_base, vars2);
            let end = (else_base + ec.len()) as nat;
            lemma_expr_code_decodes(cond, vars);
            lemma_negate_code_decodes();
            lemma_push_code_decodes(else_base as i64);
            lemma_push_code_decodes(end as i64);
            lemma_opcode_decodes(Opcode::JumpIf);
            lemma_opcode_decodes(Opcode::Jump);
            lemma_stmts_code_decodes(then_b@, then_base, vars1);
            lemma_stmts_code_decodes(else_b@, else_base, vars2);
            let t8 = ec;
            let t7 = seq![opcode_byte(Opcode::Jump)] + t8;
            let t6 = push_code(end as i64) + t7;
            let t5 = tc + t6;
            let t4 = seq![opcode_byte(Opcode::JumpIf)] + t5;
            let t3 = push_code(else_base as i64) + t4;
            let t2 = negate_code() + t3;
            let t1 = cc + t2;
            lemma_decode_append(seq![opcode_byte(Opcode::Jump)], t8, 0);
            lemma_decode_append(push_code(end as i64), t7, 0);
            lemma_decode_append(tc, t6, 0);
            lemma_decode_append(seq![opcode_byte(Opcode::JumpIf)], t5, 0);
            lemma_decode_append(push_code(else_base as i64), t4, 0);
            lemma_decode_append(negate_code(), t3, 0);
            lemma_decode_append(cc, t2, 0);
            assert(stmt_code(s, base, vars).0 =~= t1);
        },
        Statement::While(cond, body) => {
            let (cc, vars1) = expr_code(cond, vars);
            let body_base = (base + cc.len() + negate_code().len() + 10) as nat;
            let (bc, vars2) = stmts_code(body@, body_base, vars1);
            let end = (body_base + bc.len() + 10) as nat;
            lemma_expr_code_decodes(cond, vars);
            lemma_negate_code_decodes();
            lemma_push_code_decodes(end as i64);
            lemma_push_code_decodes(base as i64);
            lemma_opcode_decodes(Opcode::JumpIf);
            lemma_opcode_decodes(Opcode::Jump);
            lemma_stmts_code_decodes(body@, body_base, vars1);
            let t6 = seq![opcode_byte(Opcode::Jump)];
            let t5 = push_code(base as i64) + t6;
            let t4 = bc + t5;
            let t3 = seq![opcode_byte(Opcode::JumpIf)] + t4;
            let t2 = push_code(end as i64) + t3;
            let t1 = negate_code() + t2;
            let t0 = cc + t1;
            lemma_decode_append(push_code(base as i64), t6, 0);
            lemma_decode_append(bc, t5, 0);
            lemma_decode_append(seq![opcode_byte(Opcode::JumpIf)], t4, 0);
            lemma_decode_append(push_code(end as i64), t3, 0);
            lemma_decode_append(negate_code(), t2, 0);
            lemma_decode_append(cc, t1, 0);
            assert(stmt_code(s, base, vars).0 =~= t0);
        },
        Statement::Print(e) => {
            let (ec, vars1) = expr_code(e, vars);
            lemma_expr_code_decodes(e, vars);
            lemma_opcode_decodes(Opcode::Print);
            lemma_decode_append(ec, seq![opcode_byte(Opcode::Print)], 0);
        },
    }
}

/// The code of every statement sequence decodes cleanly.
proof fn lemma_stmts_code_decodes(ss: Seq<Statement>, base: nat, vars: Seq<Seq<char>>)
    ensures
        decodes_from(stmts_code(ss, base, vars).0, 0),
    decreases ss,
{
    if ss.len() > 0 {
        let (c1, vars1) = stmt_code(ss[0], base, vars);
        let (c2, vars2) = stmts_code(ss.subrange(1, ss.len() as int), (base + c1.len()) as nat, vars1);
        lemma_stmt_code_decodes(ss[0], base, vars);
        lemma_stmts_code_decodes(ss.subrange(1, ss.len() as int), (base + c1.len()) as nat, vars1);
        lemma_decode_append(c1, c2, 0);
    }
}

/// Law (round trip): a compiled program decodes opcode-by-opcode from
/// its first byte to its last: the decoding walk lands on every
/// instruction boundary in turn and never inside an 8-byte operand,
/// ending exactly on the closing halt.
pub proof fn lemma_compiled_program_decodes(ss: Seq<Statement>, base: nat, vars: Seq<Seq<char>>)
    ensures
        decodes_from(stmts_code(ss, base, vars).0 + seq![opcode_byte(Opcode::Halt)], 0),
{
    lemma_stmts_code_decodes(ss, base, vars);
    lemma_opcode_decodes(Opcode::Halt);
    lemma_decode_append(stmts_code(ss, base, vars).0, seq![opcode_byte(Opcode::Halt)], 0);
}


/// The set of absolute branch targets a statement's code pushes before
/// its `jump` / `jump-if` instructions, nested blocks included.
pub open spec fn stmt_targets(s: Statement, base: nat, vars: Seq<Seq<char>>) -> Set<nat>
    decreases s,
{
    match s {
        Statement::Let(name, e) => Set::empty(),
        Statement::Assign(name, e) => Set::empty(),
        Statement::Print(e) => Set::empty(),
        Statement::If(cond, then_b, else_b) => {
            let (cc, vars1) = expr_code(cond, vars);
            let then_base = (base + cc.len() + negate_code().len() + 10) as nat;
            let (tc, vars2) = stmts_code(then_b@, then_base, vars1);
            let else_base = (then_base + tc.len() + 10) as nat;
            let (ec, vars3) = stmts_code(else_b@, else_base, vars2);
            let end = (else_base + ec.len()) as nat;
            set![else_base, end]
                .union(stmts_targets(then_b@, then_base, vars1))
                .union(stmts_targets(else_b@, else_base, vars2))
        },
        Statement::While(cond, body) => {
            let (cc, vars1) = expr_code(cond, vars);
            let body_base = (base + cc.len() + negate_code().len() + 10) as nat;
            let (bc, vars2) = stmts_code(body@, body_base, vars1);
            let end = (body_base + bc.len() + 10) as nat;
            set![end, base].union(stmts_targets(body@, body_base, vars1))
        },
    }
}

/// The branch targets of a statement sequence.
pub open spec fn stmts_targets(ss: Seq<Statement>, base: nat, vars: Seq<Seq<char>>) -> Set<nat>
    decreases ss,
{
    if ss.len() == 0 {
        Set::empty()
    } else {
        let (c1, vars1) = stmt_code(ss[0], base, vars);
        stmt_targets(ss[0], base, vars).union(
            stmts_targets(ss.subrange(1, ss.len() as int), (base + c1.len()) as nat, vars1),
        )
    }
}

/// Whether the sequential decode walk started at `pos` passes exactly
/// through `target`: the offsets it visits are the instruction
/// boundaries, and the buffer's end.
pub open spec fn walk_reaches(code: Seq<u8>, pos: nat, target: nat) -> bool
    decreases code.len() - pos,
{
    if pos == target {
        true
    } else if pos >= code.len() {
        false
    } else {
        match opcode_of(code[pos as int]) {
            None => false,
            Some(op) => {
                if op == Opcode::Push {
                    pos + 9 <= code.len() && walk_reaches(code, (pos + 9) as nat, target)
                } else {
                    walk_reaches(code, (pos + 1) as nat, target)
                }
            },
        }
    }
}

/// The decode walk is transitive across an intermediate boundary.
proof fn lemma_walk_trans(code: Seq<u8>, p: nat, q: nat, t: nat)
    requires
        walk_reaches(code, p, q),
        walk_reaches(code, q, t),
    ensures
        walk_reaches(code, p, t),
    decreases code.len() - p,
{
    if p != q {
        match opcode_of(code[p as int]) {
            Some(op) => {
                if op == Opcode::Push {
                    lemma_walk_trans(code, (p + 9) as nat, q, t);
                } else {
                    lemma_walk_trans(code, (p + 1) as nat, q, t);
                }
            },
            None => {},
        }
    }
}

/// A cleanly decoding buffer is walked from front to back.
proof fn lemma_decode_walk(m: Seq<u8>, p: nat)
    requires
        decodes_from(m, p),
    ensures
        walk_reaches(m, p, m.len() as nat),
    decreases m.len() - p,
{
    if p < m.len() {
        match opcode_of(m[p as int]) {
            Some(op) => {
                if op == Opcode::Push {
                    lemma_decode_walk(m, (p + 9) as nat);
                } else {
                    lemma_decode_walk(m, (p + 1) as nat);
                }
            },
            None => {},
        }
    }
}

/// A walk that ends inside the buffer is unmoved by appended bytes.
proof fn lemma_walk_append(m: Seq<u8>, b: Seq<u8>, p: nat, q: nat)
    requires
        q <= m.len(),
        walk_reaches(m, p, q),
    ensures
        walk_reaches(m + b, p, q),
    decreases m.len() - p,
{
    if p != q {
        assert((m + b)[p as int] == m[p as int]);
        match opcode_of(m[p as int]) {
            Some(op) => {
                if op == Opcode::Push {
                    lemma_walk_append(m, b, (p + 9) as nat, q);
                } else {
                    lemma_walk_append(m, b, (p + 1) as nat, q);
                }
            },
            None => {},
        }
    }
}

/// A walk is shifted whole by bytes put in front of the buffer.
proof fn lemma_walk_prepend(a: Seq<u8>, m: Seq<u8>, p: nat, q: nat)
    requires
        p <= m.len(),
        walk_reaches(m, p, q),
    ensures
        walk_reaches(a + m, (a.len() + p) as nat, (a.len() + q) as nat),
    decreases m.len() - p,
{
    if p != q {
        assert((a + m)[a.len() + p as int] == m[p as int]);
        match opcode_of(m[p as int]) {
            Some(op) => {
                if op == Opcode::Push {
                    lemma_walk_prepend(a, m, (p + 9) as nat, q);
                } else {
                    lemma_walk_prepend(a, m, (p + 1) as nat, q);
                }
            },
            None => {},
        }
    }
}

/// A walk inside a piece of a larger buffer is a walk of the whole.
proof fn lemma_walk_embed(a: Seq<u8>, m: Seq<u8>, b: Seq<u8>, q: nat)
    requires
        q <= m.len(),
        walk_reaches(m, 0, q),
    ensures
        walk_reaches(a + m + b, a.len() as nat, (a.len() + q) as nat),
{
    lemma_walk_append(m, b, 0, q);
    lemma_walk_prepend(a, m + b, 0, q);
    assert(a + (m + b) =~= a + m + b);
}

/// A cleanly decoding piece is walked across in place.
proof fn lemma_walk_piece(a: Seq<u8>, m: Seq<u8>, b: Seq<u8>)
    requires
        decodes_from(m, 0),
    ensures
        walk_reaches(a + m + b, a.len() as nat, (a.len() + m.len()) as nat),
{
    lemma_decode_walk(m, 0);
    lemma_walk_embed(a, m, b, m.len() as nat);
}


/// Every branch target a statement emits lies in its own code range
/// and on the decode walk of that code.
#[verifier::rlimit(100)]
proof fn lemma_stmt_targets_walk(s: Statement, base: nat, vars: Seq<Seq<char>>)
    ensures
        forall|t: nat| stmt_targets(s, base, vars).contains(t)
            ==> base <= t <= base + stmt_code(s, base, vars).0.len()
                && walk_reaches(stmt_code(s, base, vars).0, 0, (t - base) as nat),
    decreases s,
{
    let c = stmt_code(s, base, vars).0;
    match s {
        Statement::Let(name, e) => {},
        Statement::Assign(name, e) => {},
        Statement::Print(e) => {},
        Statement::If(cond, then_b, else_b) => {
            let (cc, vars1) = expr_code(cond, vars);
            let then_base = (base + cc.len() + negate_code().len() + 10) as nat;
            let (tc, vars2) = stmts_code(then_b@, then_base, vars1);
            let else_base = (then_base + tc.len() + 10) as nat;
            let (ec, vars3) = stmts_code(else_b@, else_base, vars2);
            let end = (else_base + ec.len()) as nat;
            let pj1 = push_code(else_base as i64) + seq![opcode_byte(Opcode::JumpIf)];
            let pj2 = push_code(end as i64) + seq![opcode_byte(Opcode::Jump)];
            lemma_push_code_len(0);
            lemma_push_code_len(else_base as i64);
            lemma_push_code_len(end as i64);
            lemma_expr_code_decodes(cond, vars);
            lemma_negate_code_decodes();
            lemma_stmts_code_decodes(then_b@, then_base, vars1);
            lemma_stmts_code_decodes(else_b@, else_base, vars2);
            lemma_push_code_decodes(else_base as i64);
            lemma_push_code_decodes(end as i64);
            lemma_opcode_decodes(Opcode::JumpIf);
            lemma_opcode_decodes(Opcode::Jump);
            lemma_decode_append(push_code(else_base as i64), seq![opcode_byte(Opcode::JumpIf)], 0);
            lemma_decode_append(push_code(end as i64), seq![opcode_byte(Opcode::Jump)], 0);
            let o1 = cc.len() as nat;
            let o2 = (o1 + 10) as nat;
            let o3 = (o2 + 10) as nat;
            let o4 = (o3 + tc.len()) as nat;
            let o5 = (o4 + 10) as nat;
            let o6 = (o5 + ec.len()) as nat;
            assert(c =~= Seq::<u8>::empty() + cc + (negate_code() + pj1 + tc + pj2 + ec));
            lemma_walk_piece(Seq::<u8>::empty(), cc, negate_code() + pj1 + tc + pj2 + ec);
            assert(c =~= cc + negate_code() + (pj1 + tc + pj2 + ec));
            lemma_walk_piece(cc, negate_code(), pj1 + tc + pj2 + ec);
            assert(c =~= (cc + negate_code()) + pj1 + (tc + pj2 + ec));
            lemma_walk_piece(cc + negate_code(), pj1, tc + pj2 + ec);
            assert(c =~= (cc + negate_code() + pj1) + tc + (pj2 + ec));
            lemma_walk_piece(cc + negate_code() + pj1, tc, pj2 + ec);
            assert(c =~= (cc + negate_code() + pj1 + tc) + pj2 + ec);
            lemma_walk_piece(cc + negate_code() + pj1 + tc, pj2, ec);
            assert(c =~= (cc + negate_code() + pj1 + tc + pj2) + ec + Seq::<u8>::empty());
            lemma_walk_piece(cc + negate_code() + pj1 + tc + pj2, ec, Seq::<u8>::empty());
            assert(walk_reaches(c, 0, o1));
            assert(walk_reaches(c, o1, o2));
            assert(walk_reaches(c, o2, o3));
            assert(walk_reaches(c, o3, o4));
            assert(walk_reaches(c, o4, o5));
            assert(walk_reaches(c, o5, o6));
            lemma_walk_trans(c, 0, o1, o2);
            lemma_walk_trans(c, 0, o2, o3);
            lemma_walk_trans(c, 0, o3, o4);
            lemma_walk_trans(c, 0, o4, o5);
            lemma_walk_trans(c, 0, o5, o6);
            lemma_stmts_targets_walk(then_b@, then_base, vars1);
            lemma_stmts_targets_walk(else_b@, else_base, vars2);
            assert forall|t: nat| stmt_targets(s, base, vars).contains(t)
                implies base <= t <= base + c.len()
                    && walk_reaches(c, 0, (t - base) as nat) by {
                if t == else_base {
                    assert((t - base) as nat == o5);
                } else if t == end {
                    assert((t - base) as nat == o6);
                } else if stmts_targets(then_b@, then_base, vars1).contains(t) {
                    assert(then_base <= t <= then_base + tc.len());
                    lemma_walk_embed(cc + negate_code() + pj1, tc, pj2 + ec,
                        (t - then_base) as nat);
                    assert(walk_reaches(c, o3, (o3 + (t - then_base)) as nat));
                    lemma_walk_trans(c, 0, o3, (o3 + (t - then_base)) as nat);
                    assert((t - base) as nat == (o3 + (t - then_base)) as nat);
                } else {
                    assert(stmts_targets(else_b@, else_base, vars2).contains(t));
                    assert(else_base <= t <= else_base + ec.len());
                    lemma_walk_embed(cc + negate_code() + pj1 + tc + pj2, ec,
                        Seq::<u8>::empty(), (t - else_base) as nat);
                    assert(walk_reaches(c, o5, (o5 + (t - else_base)) as nat));
                    lemma_walk_trans(c, 0, o5, (o5 + (t - else_base)) as nat);
                    assert((t - base) as nat == (o5 + (t - else_base)) as nat);
                }
            }
        },
        Statement::While(cond, body) => {
            let (cc, vars1) = expr_code(cond, vars);
            let body_base = (base + cc.len() + negate_code().len() + 10) as nat;
            let (bc, vars2) = stmts_code(body@, body_base, vars1);
            let end = (body_base + bc.len() + 10) as nat;
            let pj1 = push_code(end as i64) + seq![opcode_byte(Opcode::JumpIf)];
            let pj2 = push_code(base as i64) + seq![opcode_byte(Opcode::Jump)];
            lemma_push_code_len(0);
            lemma_push_code_len(end as i64);
            lemma_push_code_len(base as i64);
            lemma_expr_code_decodes(cond, vars);
            lemma_negate_code_decodes();
            lemma_stmts_code_decodes(body@, body_base, vars1);
            lemma_push_code_decodes(end as i64);
            lemma_push_code_decodes(base as i64);
            lemma_opcode_decodes(Opcode::JumpIf);
            lemma_opcode_decodes(Opcode::Jump);
            lemma_decode_append(push_code(end as i64), seq![opcode_byte(Opcode::JumpIf)], 0);
            lemma_decode_append(push_code(base as i64), seq![opcode_byte(Opcode::Jump)], 0);
            let o1 = cc.len() as nat;
            let o2 = (o1 + 10) as nat;
            let o3 = (o2 + 10) as nat;
            let o4 = (o3 + bc.len()) as nat;
            let o5 = (o4 + 10) as nat;
            assert(c =~= Seq::<u8>::empty() + cc + (negate_code() + pj1 + bc + pj2));
            lemma_walk_piece(Seq::<u8>::empty(), cc, negate_code() + pj1 + bc + pj2);
            assert(c =~= cc + negate_code() + (pj1 + bc + pj2));
            lemma_walk_piece(cc, negate_code(), pj1 + bc + pj2);
            assert(c =~= (cc + negate_code()) + pj1 + (bc + pj2));
            lemma_walk_piece(cc + negate_code(), pj1, bc + pj2);
            assert(c =~= (cc + negate_code() + pj1) + bc + pj2);
            lemma_walk_piece(cc + negate_code() + pj1, bc, pj2);
            assert(c =~= (cc + negate_code() + pj1 + bc) + pj2 + Seq::<u8>::empty());
            lemma_walk_piece(cc + negate_code() + pj1 + bc, pj2, Seq::<u8>::empty());
            assert(walk_reaches(c, 0, o1));
            assert(walk_reaches(c, o1, o2));
            assert(walk_reaches(c, o2, o3));
            assert(walk_reaches(c, o3, o4));
            assert(walk_reaches(c, o4, o5));
            lemma_walk_trans(c, 0, o1, o2);
            lemma_walk_trans(c, 0, o2, o3);
            lemma_walk_trans(c, 0, o3, o4);
            lemma_walk_trans(c, 0, o4, o5);
            lemma_stmts_targets_walk(body@, body_base, vars1);
            assert forall|t: nat| stmt_targets(s, base, vars).contains(t)
                implies base <= t <= base + c.len()
                    && walk_reaches(c, 0, (t - base) as nat) by {
                if t == end {
                    assert((t - base) as nat == o5);
                } else if t == base {
                    assert((t - base) as nat == 0nat);
                } else {
                    assert(stmts_targets(body@, body_base, vars1).contains(t));
                    assert(body_base <= t <= body_base + bc.len());
                    lemma_walk_embed(cc + negate_code() + pj1, bc, pj2,
                        (t - body_base) as nat);
                    assert(walk_reaches(c, o3, (o3 + (t - body_base)) as nat));
                    lemma_walk_trans(c, 0, o3, (o3 + (t - body_base)) as nat);
                    assert((t - base) as nat == (o3 + (t - body_base)) as nat);
                }
            }
        },
    }
}

/// Every branch target a statement sequence emits lies in its code
/// range and on the decode walk of that code.
proof fn lemma_stmts_targets_walk(ss: Seq<Statement>, base: nat, vars: Seq<Seq<char>>)
    ensures
        forall|t: nat| stmts_targets(ss, base, vars).contains(t)
            ==> base <= t <= base + stmts_code(ss, base, vars).0.len()
                && walk_reaches(stmts_code(ss, base, vars).0, 0, (t - base) as nat),
    decreases ss,
{
    if ss.len() > 0 {
        let (c1, vars1) = stmt_code(ss[0], base, vars);
        let rest = ss.subrange(1, ss.len() as int);
        let (c2, vars2) = stmts_code(rest, (base + c1.len()) as nat, vars1);
        let c = stmts_code(ss, base, vars).0;
        lemma_stmt_targets_walk(ss[0], base, vars);
        lemma_stmts_targets_walk(rest, (base + c1.len()) as nat, vars1);
        lemma_stmt_code_decodes(ss[0], base, vars);
        lemma_decode_walk(c1, 0);
        lemma_walk_append(c1, c2, 0, c1.len() as nat);
        assert forall|t: nat| stmts_targets(ss, base, vars).contains(t)
            implies base <= t <= base + c.len()
                && walk_reaches(c, 0, (t - base) as nat) by {
            if stmt_targets(ss[0], base, vars).contains(t) {
                lemma_walk_append(c1, c2, 0, (t - base) as nat);
            } else {
                assert(stmts_targets(rest, (base + c1.len()) as nat, vars1).contains(t));
                assert(base + c1.len() <= t <= base + c1.len() + c2.len());
                lemma_walk_prepend(c1, c2, 0, (t - (base + c1.len())) as nat);
                assert(walk_reaches(c, c1.len() as nat,
                    (c1.len() + (t - (base + c1.len()))) as nat));
                lemma_walk_trans(c, 0, c1.len() as nat,
                    (c1.len() + (t - (base + c1.len()))) as nat);
                assert((t - base) as nat == (c1.len() + (t - (base + c1.len()))) as nat);
            }
        }
    }
}

/// Law (round trip, branch targets): in a compiled program, every
/// pushed branch target is an offset the sequential decode walk lands
/// on: a valid instruction boundary, never the middle of an operand.
pub proof fn lemma_compiled_jump_targets(ss: Seq<Statement>, base: nat, vars: Seq<Seq<char>>)
    ensures
        forall|t: nat| stmts_targets(ss, base, vars).contains(t)
            ==> base <= t <= base + stmts_code(ss, base, vars).0.len()
                && walk_reaches(
                    stmts_code(ss, base, vars).0 + seq![opcode_byte(Opcode::Halt)],
                    0,
                    (t - base) as nat,
                ),
{
    lemma_stmts_targets_walk(ss, base, vars);
    let c = stmts_code(ss, base, vars).0;
    assert forall|t: nat| stmts_targets(ss, base, vars).contains(t)
        implies base <= t <= base + c.len()
            && walk_reaches(c + seq![opcode_byte(Opcode::Halt)], 0, (t - base) as nat) by {
        lemma_walk_append(c, seq![opcode_byte(Opcode::Halt)], 0, (t - base) as nat);
    }
}

} // verus!
