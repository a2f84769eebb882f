//! The text form of control flow graphs, as printed for debugging.
use crate::bignum::{nat_decimal, int_decimal, big_to_decimal, u64_to_decimal};
use crate::output::{join2, join3, join4, join5};
use super::{Contract, type_text};
use super::cfg::{ControlFlowGraph, Expression, Instr, BasicBlock, Variable, expression_wf, instr_wf, block_wf, cfg_wf,
    lemma_expression_wf_grow};
use vstd::prelude::*;

verus! {

/// A hexadecimal digit, lower case.
pub open spec fn hex_char(d: nat) -> char {
    if d < 10 {
        (d + 48) as char
    } else {
        (d - 10 + 97) as char
    }
}

/// Two lower case hexadecimal digits per byte, most significant first.
pub open spec fn hex_text(b: Seq<u8>) -> Seq<char>
    decreases b.len(),
{
    if b.len() == 0 {
        Seq::empty()
    } else {
        hex_text(b.drop_last()) + seq![hex_char((b.last() / 16) as nat), hex_char((b.last() % 16) as nat)]
    }
}

/// Lower case hexadecimal text of bytes; the `hex` crate's `encode`.
#[verifier::external_body]
fn hex_encode(data: &Vec<u8>) -> (r: String)
    ensures
        r@ == hex_text(data@),
{
    hex::encode(data)
}

/// `(l op r)`
pub open spec fn bin_text(l: Seq<char>, op: Seq<char>, r: Seq<char>) -> Seq<char> {
    "("@ + l + " "@ + op + " "@ + r + ")"@
}

/// `(op ty e)`
pub open spec fn conv_text(op: Seq<char>, ty: Seq<char>, e: Seq<char>) -> Seq<char> {
    "("@ + op + " "@ + ty + " "@ + e + ")"@
}

/// `%` and the name of the variable.
pub open spec fn var_text(vars: Seq<Variable>, pos: usize) -> Seq<char> {
    "%"@ + vars[pos as int].id.name@
}

/// How an expression is printed. Ternaries, index accesses, `||`, `&&` and
/// poison print as nothing.
pub open spec fn expr_text(e: Expression, vars: Seq<Variable>, c: Contract) -> Seq<char>
    decreases e,
{
    match e {
        Expression::BoolLiteral(b) => if b { "true"@ } else { "false"@ },
        Expression::BytesLiteral(s) => "hex\""@ + hex_text(s@) + "\""@,
        Expression::NumberLiteral(bits, n) => "i"@ + nat_decimal(bits as nat) + " "@ + int_decimal(n@),
        Expression::Add(l, r) => bin_text(expr_text(*l, vars, c), "+"@, expr_text(*r, vars, c)),
        Expression::Subtract(l, r) => bin_text(expr_text(*l, vars, c), "-"@, expr_text(*r, vars, c)),
        Expression::BitwiseOr(l, r) => bin_text(expr_text(*l, vars, c), "|"@, expr_text(*r, vars, c)),
        Expression::BitwiseAnd(l, r) => bin_text(expr_text(*l, vars, c), "&"@, expr_text(*r, vars, c)),
        Expression::BitwiseXor(l, r) => bin_text(expr_text(*l, vars, c), "^"@, expr_text(*r, vars, c)),
        Expression::ShiftLeft(l, r) => bin_text(expr_text(*l, vars, c), "<<"@, expr_text(*r, vars, c)),
        Expression::ShiftRight(l, r, _) => bin_text(expr_text(*l, vars, c), ">>"@, expr_text(*r, vars, c)),
        Expression::Multiply(l, r) => bin_text(expr_text(*l, vars, c), "*"@, expr_text(*r, vars, c)),
        Expression::UDivide(l, r) => bin_text(expr_text(*l, vars, c), "/"@, expr_text(*r, vars, c)),
        Expression::SDivide(l, r) => bin_text(expr_text(*l, vars, c), "/"@, expr_text(*r, vars, c)),
        Expression::UModulo(l, r) => bin_text(expr_text(*l, vars, c), "%"@, expr_text(*r, vars, c)),
        Expression::SModulo(l, r) => bin_text(expr_text(*l, vars, c), "%"@, expr_text(*r, vars, c)),
        Expression::Power(l, r) => bin_text(expr_text(*l, vars, c), "**"@, expr_text(*r, vars, c)),
        Expression::Variable(_, pos) => var_text(vars, pos),
        Expression::ZeroExt(t, x) => conv_text("zext"@, type_text(t, c), expr_text(*x, vars, c)),
        Expression::SignExt(t, x) => conv_text("sext"@, type_text(t, c), expr_text(*x, vars, c)),
        Expression::Trunc(t, x) => conv_text("trunc"@, type_text(t, c), expr_text(*x, vars, c)),
        Expression::SMore(l, r) => bin_text(expr_text(*l, vars, c), ">(s)"@, expr_text(*r, vars, c)),
        Expression::SLess(l, r) => bin_text(expr_text(*l, vars, c), "<(s)"@, expr_text(*r, vars, c)),
        Expression::SMoreEqual(l, r) => bin_text(expr_text(*l, vars, c), ">=(s)"@, expr_text(*r, vars, c)),
        Expression::SLessEqual(l, r) => bin_text(expr_text(*l, vars, c), "<=(s)"@, expr_text(*r, vars, c)),
        Expression::UMore(l, r) => bin_text(expr_text(*l, vars, c), ">(u)"@, expr_text(*r, vars, c)),
        Expression::ULess(l, r) => bin_text(expr_text(*l, vars, c), "<(u)"@, expr_text(*r, vars, c)),
        Expression::UMoreEqual(l, r) => bin_text(expr_text(*l, vars, c), ">=(u)"@, expr_text(*r, vars, c)),
        Expression::ULessEqual(l, r) => bin_text(expr_text(*l, vars, c), "<=(u)"@, expr_text(*r, vars, c)),
        Expression::Equal(l, r) => bin_text(expr_text(*l, vars, c), "="@, expr_text(*r, vars, c)),
        Expression::NotEqual(l, r) => bin_text(expr_text(*l, vars, c), "!="@, expr_text(*r, vars, c)),
        Expression::Not(x) => "!"@ + expr_text(*x, vars, c),
        Expression::Complement(x) => "~"@ + expr_text(*x, vars, c),
        Expression::UnaryMinus(x) => "-"@ + expr_text(*x, vars, c),
        _ => Seq::empty(),
    }
}

/// `(a op b)` from two printed operands.
fn bin(a: String, op: &str, b: String) -> (r: String)
    ensures
        r@ == bin_text(a@, op@, b@),
{
    let s = join5("(", a.as_str(), " ", op, " ");
    join3(s.as_str(), b.as_str(), ")")
}

/// `(op ty e)` from printed parts.
fn conv(op: &str, ty: String, e: String) -> (r: String)
    ensures
        r@ == conv_text(op@, ty@, e@),
{
    let s = join5("(", op, " ", ty.as_str(), " ");
    join3(s.as_str(), e.as_str(), ")")
}

/// The printed expressions, separated by `, `.
pub open spec fn exprs_text(es: Seq<Expression>, vars: Seq<Variable>, c: Contract) -> Seq<char>
    decreases es.len(),
{
    if es.len() == 0 {
        Seq::empty()
    } else if es.len() == 1 {
        expr_text(es[0], vars, c)
    } else {
        exprs_text(es.drop_last(), vars, c) + ", "@ + expr_text(es.last(), vars, c)
    }
}

/// The printed variables, separated by `, `; `%` in front of each where `percent`.
pub open spec fn names_text(ps: Seq<usize>, vars: Seq<Variable>, percent: bool) -> Seq<char>
    decreases ps.len(),
{
    let one = |p: usize| if percent { var_text(vars, p) } else { vars[p as int].id.name@ };
    if ps.len() == 0 {
        Seq::empty()
    } else if ps.len() == 1 {
        one(ps[0])
    } else {
        names_text(ps.drop_last(), vars, percent) + ", "@ + one(ps.last())
    }
}

/// How an instruction is printed.
pub open spec fn instr_text(i: Instr, vars: Seq<Variable>, c: Contract) -> Seq<char> {
    match i {
        Instr::Return { value } => "return "@ + exprs_text(value@, vars, c),
        Instr::Assign { res, expr } => var_text(vars, res) + " = "@ + expr_text(expr, vars, c),
        Instr::Constant { res, constant } => var_text(vars, res) + " = const "@ + expr_text(c.constants@[constant as int], vars, c),
        Instr::Branch { bb } => "branch bb"@ + nat_decimal(bb as nat),
        Instr::BranchCond { cond, true_, false_ } => "branchcond "@ + expr_text(cond, vars, c) + ", bb"@
            + nat_decimal(true_ as nat) + ", bb"@ + nat_decimal(false_ as nat),
        Instr::FuncArg { res, arg } => var_text(vars, res) + " = funcarg("@ + nat_decimal(arg as nat) + ")"@,
        Instr::SetStorage { local, storage } => "setstorage %"@ + nat_decimal(storage as nat) + " = "@ + var_text(vars, local),
        Instr::GetStorage { local, storage } => "getstorage %"@ + nat_decimal(storage as nat) + " = "@ + var_text(vars, local),
        Instr::AssertFailure {} => "assert-failure"@,
        Instr::Call { res, func, args } => names_text(res@, vars, true) + " = call "@ + nat_decimal(func as nat) + " "@
            + c.functions@[func as int].name@ + " "@ + exprs_text(args@, vars, c),
    }
}

/// The printed instructions, each on a line of its own after a tab.
pub open spec fn instrs_text(is: Seq<Instr>, vars: Seq<Variable>, c: Contract) -> Seq<char>
    decreases is.len(),
{
    if is.len() == 0 {
        Seq::empty()
    } else {
        instrs_text(is.drop_last(), vars, c) + "\t"@ + instr_text(is.last(), vars, c) + "\n"@
    }
}

/// How a block is printed: its header, the variables that need phi nodes, and
/// its instructions.
pub open spec fn block_text(b: BasicBlock, pos: nat, vars: Seq<Variable>, c: Contract) -> Seq<char> {
    "bb"@ + nat_decimal(pos) + ": # "@ + b.name@ + "\n"@
        + match b.phis {
            Some(p) => "# phis: "@ + names_text(p@, vars, false) + "\n"@,
            None => Seq::empty(),
        }
        + instrs_text(b.instr@, vars, c)
}

/// How the first `n` blocks of a graph are printed.
pub open spec fn blocks_text(bbs: Seq<BasicBlock>, n: nat, vars: Seq<Variable>, c: Contract) -> Seq<char>
    decreases n,
{
    if n == 0 {
        Seq::empty()
    } else {
        blocks_text(bbs, (n - 1) as nat, vars, c) + block_text(bbs[n - 1], (n - 1) as nat, vars, c)
    }
}

impl ControlFlowGraph {
    /// The text of an expression.
    pub fn expr_to_string(&self, ns: &Contract, expr: &Expression) -> (r: String)
        requires
            ns.wf(),
            expression_wf(*expr, self.vars@.len(), *ns),
        ensures
            r@ == expr_text(*expr, self.vars@, *ns),
        decreases expr,
    {
        match expr {
            Expression::BoolLiteral(b) => {
                if *b { String::from_str("true") } else { String::from_str("false") }
            },
            Expression::BytesLiteral(s) => join3("hex\"", hex_encode(s).as_str(), "\""),
            Expression::NumberLiteral(bits, n) => {
                join4("i", u64_to_decimal(*bits as u64).as_str(), " ", big_to_decimal(n).as_str())
            },
            Expression::Add(l, r) => bin(self.expr_to_string(ns, l), "+", self.expr_to_string(ns, r)),
            Expression::Subtract(l, r) => bin(self.expr_to_string(ns, l), "-", self.expr_to_string(ns, r)),
            Expression::BitwiseOr(l, r) => bin(self.expr_to_string(ns, l), "|", self.expr_to_string(ns, r)),
            Expression::BitwiseAnd(l, r) => bin(self.expr_to_string(ns, l), "&", self.expr_to_string(ns, r)),
            Expression::BitwiseXor(l, r) => bin(self.expr_to_string(ns, l), "^", self.expr_to_string(ns, r)),
            Expression::ShiftLeft(l, r) => bin(self.expr_to_string(ns, l), "<<", self.expr_to_string(ns, r)),
            Expression::ShiftRight(l, r, _) => bin(self.expr_to_string(ns, l), ">>", self.expr_to_string(ns, r)),
            Expression::Multiply(l, r) => bin(self.expr_to_string(ns, l), "*", self.expr_to_string(ns, r)),
            Expression::UDivide(l, r) => bin(self.expr_to_string(ns, l), "/", self.expr_to_string(ns, r)),
            Expression::SDivide(l, r) => bin(self.expr_to_string(ns, l), "/", self.expr_to_string(ns, r)),
            Expression::UModulo(l, r) => bin(self.expr_to_string(ns, l), "%", self.expr_to_string(ns, r)),
            Expression::SModulo(l, r) => bin(self.expr_to_string(ns, l), "%", self.expr_to_string(ns, r)),
            Expression::Power(l, r) => bin(self.expr_to_string(ns, l), "**", self.expr_to_string(ns, r)),
            Expression::Variable(_, res) => join2("%", self.vars[*res].id.name.as_str()),
            Expression::ZeroExt(ty, e) => conv("zext", ty.to_string(ns), self.expr_to_string(ns, e)),
            Expression::SignExt(ty, e) => conv("sext", ty.to_string(ns), self.expr_to_string(ns, e)),
            Expression::Trunc(ty, e) => conv("trunc", ty.to_string(ns), self.expr_to_string(ns, e)),
            Expression::SMore(l, r) => bin(self.expr_to_string(ns, l), ">(s)", self.expr_to_string(ns, r)),
            Expression::SLess(l, r) => bin(self.expr_to_string(ns, l), "<(s)", self.expr_to_string(ns, r)),
            Expression::SMoreEqual(l, r) => bin(self.expr_to_string(ns, l), ">=(s)", self.expr_to_string(ns, r)),
            Expression::SLessEqual(l, r) => bin(self.expr_to_string(ns, l), "<=(s)", self.expr_to_string(ns, r)),
            Expression::UMore(l, r) => bin(self.expr_to_string(ns, l), ">(u)", self.expr_to_string(ns, r)),
            Expression::ULess(l, r) => bin(self.expr_to_string(ns, l), "<(u)", self.expr_to_string(ns, r)),
            Expression::UMoreEqual(l, r) => bin(self.expr_to_string(ns, l), ">=(u)", self.expr_to_string(ns, r)),
            Expression::ULessEqual(l, r) => bin(self.expr_to_string(ns, l), "<=(u)", self.expr_to_string(ns, r)),
            Expression::Equal(l, r) => bin(self.expr_to_string(ns, l), "=", self.expr_to_string(ns, r)),
            Expression::NotEqual(l, r) => bin(self.expr_to_string(ns, l), "!=", self.expr_to_string(ns, r)),
            Expression::Not(e) => join2("!", self.expr_to_string(ns, e).as_str()),
            Expression::Complement(e) => join2("~", self.expr_to_string(ns, e).as_str()),
            Expression::UnaryMinus(e) => join2("-", self.expr_to_string(ns, e).as_str()),
            _ => String::new(),
        }
    }
}


impl ControlFlowGraph {
    /// The printed expressions, separated by `, `.
    fn exprs_to_string(&self, ns: &Contract, es: &Vec<Expression>) -> (r: String)
        requires
            ns.wf(),
            forall|k: int| 0 <= k < es@.len() ==> expression_wf(#[trigger] es@[k], self.vars@.len(), *ns),
        ensures
            r@ == exprs_text(es@, self.vars@, *ns),
    {
        let mut s = String::new();
        let mut i: usize = 0;
        while i < es.len()
            invariant
                0 <= i <= es@.len(),
                ns.wf(),
                forall|k: int| 0 <= k < es@.len() ==> expression_wf(#[trigger] es@[k], self.vars@.len(), *ns),
                s@ == exprs_text(es@.take(i as int), self.vars@, *ns),
            decreases es@.len() - i,
        {
            let t = self.expr_to_string(ns, &es[i]);
            proof {
                assert(es@.take(i + 1).drop_last() =~= es@.take(i as int));
                assert(es@.take(i + 1).last() == es@[i as int]);
            }
            if i > 0 {
                s = join3(s.as_str(), ", ", t.as_str());
            } else {
                s = t;
            }
            i += 1;
        }
        assert(es@.take(es@.len() as int) =~= es@);
        s
    }

    /// The printed variables, separated by `, `.
    fn names_to_string(&self, ps: &Vec<usize>, percent: bool) -> (r: String)
        requires
            forall|k: int| 0 <= k < ps@.len() ==> (#[trigger] ps@[k]) < self.vars@.len(),
        ensures
            r@ == names_text(ps@, self.vars@, percent),
    {
        let mut s = String::new();
        let mut i: usize = 0;
        while i < ps.len()
            invariant
                0 <= i <= ps@.len(),
                forall|k: int| 0 <= k < ps@.len() ==> (#[trigger] ps@[k]) < self.vars@.len(),
                s@ == names_text(ps@.take(i as int), self.vars@, percent),
            decreases ps@.len() - i,
        {
            let name = &self.vars[ps[i]].id.name;
            let t = if percent { join2("%", name.as_str()) } else { name.clone() };
            proof {
                assert(ps@.take(i + 1).drop_last() =~= ps@.take(i as int));
                assert(ps@.take(i + 1).last() == ps@[i as int]);
            }
            if i > 0 {
                s = join3(s.as_str(), ", ", t.as_str());
            } else {
                s = t;
            }
            i += 1;
        }
        assert(ps@.take(ps@.len() as int) =~= ps@);
        s
    }

    /// The text of an instruction.
    pub fn instr_to_string(&self, ns: &Contract, instr: &Instr) -> (r: String)
        requires
            ns.wf(),
            instr_wf(*instr, self.vars@.len(), self.bb@.len(), *ns),
        ensures
            r@ == instr_text(*instr, self.vars@, *ns),
    {
        match instr {
            Instr::Return { value } => join2("return ", self.exprs_to_string(ns, value).as_str()),
            Instr::Assign { res, expr } => {
                let e = self.expr_to_string(ns, expr);
                join4("%", self.vars[*res].id.name.as_str(), " = ", e.as_str())
            },
            Instr::Constant { res, constant } => {
                proof {
                    assert(expression_wf(ns.constants@[*constant as int], 0, *ns));
                    lemma_expression_wf_grow(ns.constants@[*constant as int], 0, self.vars@.len(), *ns);
                }
                let e = self.expr_to_string(ns, &ns.constants[*constant]);
                join4("%", self.vars[*res].id.name.as_str(), " = const ", e.as_str())
            },
            Instr::Branch { bb } => join2("branch bb", u64_to_decimal(*bb as u64).as_str()),
            Instr::BranchCond { cond, true_, false_ } => {
                let c = self.expr_to_string(ns, cond);
                let a = join4("branchcond ", c.as_str(), ", bb", u64_to_decimal(*true_ as u64).as_str());
                join3(a.as_str(), ", bb", u64_to_decimal(*false_ as u64).as_str())
            },
            Instr::FuncArg { res, arg } => {
                let a = join4("%", self.vars[*res].id.name.as_str(), " = funcarg(", u64_to_decimal(*arg as u64).as_str());
                join2(a.as_str(), ")")
            },
            Instr::SetStorage { local, storage } => {
                let a = join4("setstorage %", u64_to_decimal(*storage as u64).as_str(), " = ", "%");
                join2(a.as_str(), self.vars[*local].id.name.as_str())
            },
            Instr::GetStorage { local, storage } => {
                let a = join4("getstorage %", u64_to_decimal(*storage as u64).as_str(), " = ", "%");
                join2(a.as_str(), self.vars[*local].id.name.as_str())
            },
            Instr::AssertFailure {} => String::from_str("assert-failure"),
            Instr::Call { res, func, args } => {
                let rs = self.names_to_string(res, true);
                let a = join4(rs.as_str(), " = call ", u64_to_decimal(*func as u64).as_str(), " ");
                let b = join3(a.as_str(), ns.functions[*func].name.as_str(), " ");
                join2(b.as_str(), self.exprs_to_string(ns, args).as_str())
            },
        }
    }

    /// The text of a block: `bb<pos>: # <name>`, the phi variables, and one
    /// line per instruction.
    pub fn basic_block_to_string(&self, ns: &Contract, pos: usize) -> (r: String)
        requires
            ns.wf(),
            pos < self.bb@.len(),
            block_wf(self.bb@[pos as int], self.vars@.len(), self.bb@.len(), *ns),
        ensures
            r@ == block_text(self.bb@[pos as int], pos as nat, self.vars@, *ns),
    {
        let b = &self.bb[pos];
        let mut s = join5("bb", u64_to_decimal(pos as u64).as_str(), ": # ", b.name.as_str(), "\n");
        let ghost head = s@;
        match &b.phis {
            Some(phis) => {
                let p = self.names_to_string(phis, false);
                s = join4(s.as_str(), "# phis: ", p.as_str(), "\n");
            },
            None => {},
        }
        let ghost with_phis = s@;
        let mut i: usize = 0;
        while i < b.instr.len()
            invariant
                0 <= i <= b.instr@.len(),
                ns.wf(),
                b == self.bb@[pos as int],
                block_wf(*b, self.vars@.len(), self.bb@.len(), *ns),
                s@ == with_phis + instrs_text(b.instr@.take(i as int), self.vars@, *ns),
            decreases b.instr@.len() - i,
        {
            let t = self.instr_to_string(ns, &b.instr[i]);
            proof {
                assert(b.instr@.take(i + 1).drop_last() =~= b.instr@.take(i as int));
                assert(b.instr@.take(i + 1).last() == b.instr@[i as int]);
            }
            s = join4(s.as_str(), "\t", t.as_str(), "\n");
            i += 1;
        }
        assert(b.instr@.take(b.instr@.len() as int) =~= b.instr@);
        s
    }

    /// The text of the whole graph, block after block.
    pub fn to_string(&self, ns: &Contract) -> (r: String)
        requires
            ns.wf(),
            cfg_wf(*self, self.vars@.len(), *ns),
        ensures
            r@ == blocks_text(self.bb@, self.bb@.len(), self.vars@, *ns),
    {
        let mut s = String::new();
        let mut i: usize = 0;
        while i < self.bb.len()
            invariant
                0 <= i <= self.bb@.len(),
                ns.wf(),
                cfg_wf(*self, self.vars@.len(), *ns),
                s@ == blocks_text(self.bb@, i as nat, self.vars@, *ns),
            decreases self.bb@.len() - i,
        {
            let t = self.basic_block_to_string(ns, i);
            s = join2(s.as_str(), t.as_str());
            i += 1;
        }
        s
    }
}

} // verus!
