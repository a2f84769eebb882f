//! Lowering of statements into a control flow graph: blocks, branches,
//! loops and return statements.
use crate::ast;
use crate::ast::{Loc, PrimitiveType, statement_loc};
use crate::bignum::{BigNum, big_greater, u64_to_decimal};
use crate::output::{Output, Level, ErrorType, is_diag, extends, error_added, push_error, lemma_pushed_error, lemma_extends_one, join2, join3, join4};
use super::{Contract, Type, TypeV, FunctionDecl, function_wf, params_wf, type_wf, resolve_type_spec};
use super::cast::cast;
use super::cfg::{ControlFlowGraph, Expression, Instr, Vartable, LoopScopes, Storage, expression_wf, instr_wf, cfg_wf,
    state_wf, progressed, loops_wf, pos_set_wf, emit, open_block, switch_block, lemma_progressed_trans,
    lemma_progressed_refl, lemma_table_grew, lemma_expression_wf_grow, lemma_cfg_wf_grow, instr_added, instrs_kept, instr_at, instr_count};
use super::expression::{expression, expr_ok, resolved, literal_expr, literal_typing, literal_outcome, expression_done};
use super::cast::cast_outcome_view;
use vstd::prelude::*;

verus! {

/// The parts of a statement that the resolver relies on without checking:
/// its expressions are those that `expression` accepts.
pub open spec fn stmt_ok(s: ast::Statement) -> bool
    decreases s,
{
    match s {
        ast::Statement::VariableDefinition(_, _, init) => init matches Some(e) ==> expr_ok(e),
        ast::Statement::Block(_, bs) => forall|i: int| 0 <= i < bs@.len() ==> stmt_ok(#[trigger] bs@[i]),
        ast::Statement::Return(_, es) => forall|i: int| 0 <= i < es@.len() ==> expr_ok(#[trigger] es@[i]),
        ast::Statement::Expression(_, e) => expr_ok(e),
        ast::Statement::If(_, c, t, e) => expr_ok(c) && stmt_ok(*t) && (e matches Some(x) ==> stmt_ok(*x)),
        ast::Statement::DoWhile(_, b, c) => stmt_ok(*b) && expr_ok(c),
        ast::Statement::While(_, c, b) => expr_ok(c) && stmt_ok(*b),
        ast::Statement::For(_, init, cond, next, body) => {
            &&& (init matches Some(x) ==> stmt_ok(*x))
            &&& (cond matches Some(c) ==> expr_ok(c))
            &&& (next matches Some(x) ==> stmt_ok(*x))
            &&& (body matches Some(x) ==> stmt_ok(*x))
        },
        _ => true,
    }
}

/// Does the statement, where it is accepted, leave a `break` (`is_break`) or a
/// `continue` for the innermost loop around it? Loops inside it take their
/// own; the `init` of a `for` is outside its loop, and so is its `next`,
/// which is lowered only where the body can complete or continues.
pub open spec fn jumps_out(s: ast::Statement, is_break: bool) -> bool
    decreases s, 0nat,
{
    match s {
        ast::Statement::Break(_) => is_break,
        ast::Statement::Continue(_) => !is_break,
        ast::Statement::Block(_, bs) => exists|i: int| 0 <= i < bs@.len() && jumps_out(#[trigger] bs@[i], is_break),
        ast::Statement::If(_, _, t, e) => jumps_out(*t, is_break) || (e matches Some(x) && jumps_out(*x, is_break)),
        ast::Statement::For(_, init, _, next, body) => {
            ||| (init matches Some(x) && jumps_out(*x, is_break))
            ||| (next matches Some(x) && jumps_out(*x, is_break) && match body {
                    Some(b) => completes(*b) || jumps_out(*b, false),
                    None => true,
                })
        },
        _ => false,
    }
}

/// Can the statement, where it is accepted, complete normally? A block
/// completes where its last statement does; `return`, `break` and `continue`
/// do not; an `if` with `else` completes where a branch does; a `do`-`while`
/// where its body completes, continues or breaks; a `for` without condition
/// only where its body breaks.
pub open spec fn completes(s: ast::Statement) -> bool
    decreases s, 1nat,
{
    match s {
        ast::Statement::Block(_, bs) => bs@.len() == 0 || completes(bs@.last()),
        ast::Statement::Return(..) | ast::Statement::Break(_) | ast::Statement::Continue(_) => false,
        ast::Statement::If(_, _, t, e) => match e {
            Some(x) => completes(*t) || completes(*x),
            None => true,
        },
        ast::Statement::DoWhile(_, b, _) => completes(*b) || jumps_out(*b, false) || jumps_out(*b, true),
        ast::Statement::For(_, _, cond, _, body) => cond is Some || (body matches Some(b) && jumps_out(*b, true)),
        _ => true,
    }
}

/// In a block, every statement but the last can complete: a statement after
/// one that cannot is refused as unreachable.
pub open spec fn all_reachable(s: ast::Statement) -> bool {
    s matches ast::Statement::Block(_, bs) ==> forall|j: int| 0 <= j < bs@.len() - 1 ==> completes(#[trigger] bs@[j])
}

/// Statements whose acceptance depends only on their form and on whether a
/// loop is around them: expression statements and conditions built of
/// literals, `break`, `continue`, and blocks, `if`, `while`, `do`-`while` and
/// `for` made of such statements.
pub open spec fn stmt_frag(s: ast::Statement) -> bool
    decreases s,
{
    match s {
        ast::Statement::Expression(_, e) => literal_expr(e),
        ast::Statement::Break(_) | ast::Statement::Continue(_) => true,
        ast::Statement::Block(_, bs) => forall|i: int| 0 <= i < bs@.len() ==> stmt_frag(#[trigger] bs@[i]),
        ast::Statement::If(_, c, t, e) => literal_expr(c) && stmt_frag(*t) && (e matches Some(x) ==> stmt_frag(*x)),
        ast::Statement::While(_, c, b) => literal_expr(c) && stmt_frag(*b),
        ast::Statement::DoWhile(_, b, c) => stmt_frag(*b) && literal_expr(c),
        ast::Statement::For(_, init, cond, next, body) => {
            &&& (init matches Some(x) ==> stmt_frag(*x))
            &&& (cond matches Some(e) ==> literal_expr(e))
            &&& (next matches Some(x) ==> stmt_frag(*x))
            &&& (body matches Some(x) ==> stmt_frag(*x))
        },
        _ => false,
    }
}

/// Is a condition built of literals accepted: it resolves, and to a value
/// that converts implicitly to `bool`?
pub open spec fn cond_accepted(e: ast::Expression, c: Contract) -> bool {
    literal_typing(e, c) matches Some((p, v))
        && !(cast_outcome_view(v, Type::Primitive(p), Type::Primitive(PrimitiveType::Bool), true, c) is Refused)
}

/// Is a statement of `stmt_frag` accepted, inside a loop (`in_loop`) or not:
/// its expressions resolve and its conditions convert to `bool`; `break` and
/// `continue` need a loop; a block needs every statement but the last to be
/// able to complete; the body of a loop is inside a loop; the condition of a
/// `do`-`while` is checked only where its body can complete or continues, and
/// so is the `next` of a `for`, which like its `init` is outside the loop.
pub open spec fn stmt_accepts(s: ast::Statement, in_loop: bool, c: Contract) -> bool
    decreases s,
{
    match s {
        ast::Statement::Expression(_, e) => literal_typing(e, c) is Some,
        ast::Statement::Break(_) | ast::Statement::Continue(_) => in_loop,
        ast::Statement::Block(_, bs) => all_reachable(s)
            && forall|i: int| 0 <= i < bs@.len() ==> stmt_accepts(#[trigger] bs@[i], in_loop, c),
        ast::Statement::If(_, cond, t, e) => cond_accepted(cond, c) && stmt_accepts(*t, in_loop, c)
            && (e matches Some(x) ==> stmt_accepts(*x, in_loop, c)),
        ast::Statement::While(_, cond, b) => cond_accepted(cond, c) && stmt_accepts(*b, true, c),
        ast::Statement::DoWhile(_, b, cond) => stmt_accepts(*b, true, c)
            && ((completes(*b) || jumps_out(*b, false)) ==> cond_accepted(cond, c)),
        ast::Statement::For(_, init, cond, next, body) => {
            &&& (init matches Some(x) ==> stmt_accepts(*x, in_loop, c))
            &&& (cond matches Some(e) ==> cond_accepted(e, c))
            &&& (body matches Some(b) ==> stmt_accepts(*b, true, c))
            &&& (next matches Some(x) ==> (match body {
                    Some(b) => completes(*b) || jumps_out(*b, false),
                    None => true,
                } ==> stmt_accepts(*x, in_loop, c)))
        },
        _ => false,
    }
}

/// Is `j` the first statement of a block that follows one that cannot
/// complete?
pub open spec fn unreachable_index(bs: Seq<ast::Statement>, j: int) -> bool {
    &&& 0 < j < bs.len()
    &&& !completes(bs[j - 1])
    &&& forall|k: int| 0 <= k < j - 1 ==> completes(#[trigger] bs[k])
}

/// A statement whose acceptance is stated here: one of `stmt_frag` that is
/// accepted, or a `return` without values that is not refused in function
/// `f` with table `v`.
pub open spec fn settled_ok(s: ast::Statement, in_loop: bool, c: Contract, f: FunctionDecl, v: Vartable) -> bool {
    ||| stmt_frag(s) && stmt_accepts(s, in_loop, c)
    ||| s matches ast::Statement::Return(_, vals) && vals@.len() == 0 && !returns_refused(s, f, v)
}

/// Where a block reaches a statement after one that cannot complete, every
/// statement before it being accepted as `settled_ok` says (the statement
/// itself and those after it may be of any form), the block is refused with
/// "unreachable statement" at that statement.
pub open spec fn unreachable_reported(
    s: ast::Statement, in_loop: bool, c: Contract, f: FunctionDecl, v: Vartable, r: Result<bool, ()>, e1: Seq<Output>,
) -> bool {
    s matches ast::Statement::Block(_, bs) ==> forall|j: int| #[trigger] unreachable_index(bs@, j)
        && (forall|k: int| 0 <= k < j ==> settled_ok(#[trigger] bs@[k], in_loop, c, f, v)) ==> {
            &&& r is Err
            &&& is_diag(e1.last(), Level::Error, ErrorType::SyntaxError, statement_loc(bs@[j]), "unreachable statement"@)
        }
}

/// How lowering a statement changed the loops around it: only the counts
/// of the innermost loop, which record the `break` and `continue` that leave
/// the statement.
pub open spec fn jumps_counted(l0: LoopScopes, l1: LoopScopes, s: ast::Statement) -> bool {
    &&& l1.0@.len() == l0.0@.len()
    &&& l0.0@.len() > 0 ==> {
        &&& l1.0@.drop_last() == l0.0@.drop_last()
        &&& (l1.0@.last().no_breaks > 0) == (l0.0@.last().no_breaks > 0 || jumps_out(s, true))
        &&& (l1.0@.last().no_continues > 0) == (l0.0@.last().no_continues > 0 || jumps_out(s, false))
    }
}

/// A step of lowering statements: the graph and table are well formed,
/// the table kept its variables, outer scopes, trackers and return values,
/// blocks were only added, and the loops kept their targets, which are blocks.
pub open spec fn stepped(
    g0: ControlFlowGraph, g1: ControlFlowGraph, v0: Vartable, v1: Vartable,
    l0: LoopScopes, l1: LoopScopes, c: Contract,
) -> bool {
    &&& state_wf(g1, v1, c)
    &&& v0.len() <= v1.len()
    &&& forall|i: int| 0 <= i < v0.len() ==> #[trigger] v1.var(i) == v0.var(i)
    &&& v1.scope_count() == v0.scope_count()
    &&& v1.scopes().drop_last() == v0.scopes().drop_last()
    &&& v1.tracker_count() == v0.tracker_count()
    &&& v1.return_positions() == v0.return_positions()
    &&& g0.bb@.len() <= g1.bb@.len()
    &&& instrs_kept(g0, g1)
    &&& l1.0@.len() == l0.0@.len()
    &&& forall|i: int| 0 <= i < l0.0@.len() ==> (#[trigger] l1.0@[i]).break_bb == l0.0@[i].break_bb
        && l1.0@[i].continue_bb == l0.0@[i].continue_bb
    &&& loops_wf(l1, g1.bb@.len())
}

/// A step of expression resolution is a step of statement lowering.
proof fn lemma_stepped(g0: ControlFlowGraph, g1: ControlFlowGraph, v0: Vartable, v1: Vartable, l: LoopScopes, c: Contract)
    requires
        progressed(g0, g1, v0, v1, c),
        loops_wf(l, g0.bb@.len()),
    ensures
        stepped(g0, g1, v0, v1, l, l, c),
{
    Vartable::lemma_grows_parts(&v0, &v1);
    Vartable::lemma_same_scopes(&v1, &v0);
}

/// `emit` as a step.
fn st_emit(cfg: &mut ControlFlowGraph, vartab: &mut Vartable, loops: &LoopScopes, ns: &Contract, ins: Instr)
    requires
        state_wf(*old(cfg), *old(vartab), *ns),
        loops_wf(*loops, old(cfg).bb@.len()),
        instr_wf(ins, old(vartab).len(), old(cfg).bb@.len(), *ns),
    ensures
        stepped(*old(cfg), *final(cfg), *old(vartab), *final(vartab), *loops, *loops, *ns),
        instr_added(*old(cfg), *final(cfg), ins),
        final(vartab).same_scopes(old(vartab)),
        final(cfg).bb@.len() == old(cfg).bb@.len(),
        final(cfg).current == old(cfg).current,
        final(vartab).len() == old(vartab).len(),
{
    let ghost g0 = *cfg;
    let ghost v0 = *vartab;
    emit(cfg, vartab, ns, ins);
    proof { lemma_stepped(g0, *cfg, v0, *vartab, *loops, *ns); }
}

/// `open_block` as a step.
fn st_open(cfg: &mut ControlFlowGraph, vartab: &Vartable, loops: &LoopScopes, ns: &Contract, name: &str) -> (r: usize)
    requires
        state_wf(*old(cfg), *vartab, *ns),
        loops_wf(*loops, old(cfg).bb@.len()),
    ensures
        stepped(*old(cfg), *final(cfg), *vartab, *vartab, *loops, *loops, *ns),
        r == old(cfg).bb@.len(),
        final(cfg).bb@.len() == r + 1,
        final(cfg).current == old(cfg).current,
        forall|k: int| 0 <= k < r ==> #[trigger] final(cfg).bb@[k] == old(cfg).bb@[k],
{
    let ghost g0 = *cfg;
    let r = open_block(cfg, vartab, ns, name);
    proof { lemma_stepped(g0, *cfg, *vartab, *vartab, *loops, *ns); }
    r
}

/// `switch_block` as a step.
fn st_switch(cfg: &mut ControlFlowGraph, vartab: &Vartable, loops: &LoopScopes, ns: &Contract, pos: usize)
    requires
        state_wf(*old(cfg), *vartab, *ns),
        loops_wf(*loops, old(cfg).bb@.len()),
        pos < old(cfg).bb@.len(),
    ensures
        stepped(*old(cfg), *final(cfg), *vartab, *vartab, *loops, *loops, *ns),
        final(cfg).bb@.len() == old(cfg).bb@.len(),
        final(cfg).current == pos,
{
    let ghost g0 = *cfg;
    switch_block(cfg, vartab, ns, pos);
    proof { lemma_stepped(g0, *cfg, *vartab, *vartab, *loops, *ns); }
}

/// `set_phis` as a step.
fn st_phis(cfg: &mut ControlFlowGraph, vartab: &Vartable, loops: &LoopScopes, ns: &Contract, bb: usize, phis: Vec<usize>)
    requires
        state_wf(*old(cfg), *vartab, *ns),
        loops_wf(*loops, old(cfg).bb@.len()),
        bb < old(cfg).bb@.len(),
        pos_set_wf(phis@, vartab.len()),
    ensures
        stepped(*old(cfg), *final(cfg), *vartab, *vartab, *loops, *loops, *ns),
        final(cfg).bb@.len() == old(cfg).bb@.len(),
        final(cfg).current == old(cfg).current,
        final(cfg).bb@[bb as int].phis == if phis@.len() > 0 { Some(phis) } else { old(cfg).bb@[bb as int].phis },
        final(cfg).bb@[bb as int].instr == old(cfg).bb@[bb as int].instr,
        final(cfg).bb@[bb as int].name == old(cfg).bb@[bb as int].name,
        forall|k: int| 0 <= k < old(cfg).bb@.len() && k != bb ==> #[trigger] final(cfg).bb@[k] == old(cfg).bb@[k],
{
    cfg.set_phis(bb, phis);
    proof {
        Vartable::lemma_grows_refl(vartab);
        lemma_progressed_refl(*cfg, *vartab, *ns);
    }
}

/// Resolve an expression of a function body, as a step.
fn st_expr(expr: &ast::Expression, cfg: &mut ControlFlowGraph, ns: &Contract, vartab: &mut Vartable, loops: &LoopScopes,
    errors: &mut Vec<Output>) -> (r: Result<(Expression, Type), ()>)
    requires
        ns.wf(),
        state_wf(*old(cfg), *old(vartab), *ns),
        loops_wf(*loops, old(cfg).bb@.len()),
        expr_ok(*expr),
    ensures
        extends(old(errors)@, final(errors)@),
        r is Err ==> error_added(old(errors)@, final(errors)@),
        r is Ok ==> stepped(*old(cfg), *final(cfg), *old(vartab), *final(vartab), *loops, *loops, *ns),
        r is Ok ==> expression_wf(r.unwrap().0, final(vartab).len(), *ns),
        r is Ok ==> type_wf(r.unwrap().1, ns.enums@.len(), ns.structs@.len()),
        r is Ok ==> final(vartab).same_scopes(old(vartab)),
        literal_expr(*expr) ==> literal_outcome(*expr, r, *ns),
        expression_done(*expr, *old(cfg), *final(cfg), *old(vartab), *final(vartab), old(errors)@, final(errors)@, r, false, *ns),
{
    let ghost g0 = *cfg;
    let ghost v0 = *vartab;
    let r = expression(expr, cfg, ns, vartab, false, errors);
    proof { lemma_stepped(g0, *cfg, v0, *vartab, *loops, *ns); }
    r
}

/// Resolve a condition and branch on it.
fn st_branch_on(cond: &ast::Expression, true_: usize, false_: usize, cfg: &mut ControlFlowGraph, ns: &Contract,
    vartab: &mut Vartable, loops: &LoopScopes, errors: &mut Vec<Output>) -> (r: Result<(), ()>)
    requires
        ns.wf(),
        state_wf(*old(cfg), *old(vartab), *ns),
        loops_wf(*loops, old(cfg).bb@.len()),
        expr_ok(*cond),
        true_ < old(cfg).bb@.len(),
        false_ < old(cfg).bb@.len(),
    ensures
        extends(old(errors)@, final(errors)@),
        r is Err ==> error_added(old(errors)@, final(errors)@),
        r is Ok ==> stepped(*old(cfg), *final(cfg), *old(vartab), *final(vartab), *loops, *loops, *ns),
        r is Ok ==> final(cfg).bb@[final(cfg).current as int].instr@.len() > 0
            && (final(cfg).bb@[final(cfg).current as int].instr@.last() matches Instr::BranchCond { cond: c, true_: t, false_: f }
                && t == true_ && f == false_ && expression_wf(c, final(vartab).len(), *ns)),
        literal_expr(*cond) ==> (r is Ok <==> cond_accepted(*cond, *ns)),
{
    let (e, ty) = st_expr(cond, cfg, ns, vartab, loops, errors)?;
    let c = cast(&cond.loc(), e, &ty, &Type::new_bool(), true, ns, errors)?;
    st_emit(cfg, vartab, loops, ns, Instr::BranchCond { cond: c, true_, false_ });
    Ok(())
}


/// What an accepted variable definition did: its type resolves; where the
/// name was not declared yet, the last variable of the table is the new one,
/// of that type, bound to the name in the open scopes, and an initializer is
/// assigned to it by the last instruction of the current block.
pub open spec fn var_defined(stmt: ast::Statement, c: Contract, v0: Vartable, v1: Vartable, g: ControlFlowGraph) -> bool {
    stmt matches ast::Statement::VariableDefinition(_, decl, init) ==> {
        &&& resolve_type_spec(c, decl.typ) is Ok
        &&& !v0.declared(decl.name.name@) ==> {
            let p = v1.len() - 1;
            &&& v1.len() > v0.len()
            &&& v1.var(p).id.name@ == decl.name.name@
            &&& resolve_type_spec(c, decl.typ) == Ok::<TypeV, (Loc, Seq<char>)>(v1.var(p).ty@)
            &&& v1.var(p).storage == Storage::Local
            &&& v1.local_binding(decl.name.name@, p as usize)
            &&& (init is Some ==> g.bb@[g.current as int].instr@.len() > 0
                && (g.bb@[g.current as int].instr@.last() matches Instr::Assign { res, .. } && res == p))
        }
    }
}

/// A local variable definition: its type is resolved (and may not take more
/// than a megabyte), the initializer is converted to it, and the variable is
/// declared in the innermost scope.
fn st_var_def(
    stmt: &ast::Statement,
    f: &FunctionDecl,
    cfg: &mut ControlFlowGraph,
    ns: &Contract,
    vartab: &mut Vartable,
    loops: &mut LoopScopes,
    errors: &mut Vec<Output>,
) -> (r: Result<bool, ()>)
    requires
        ns.wf(),
        function_wf(*f, *ns),
        state_wf(*old(cfg), *old(vartab), *ns),
        old(vartab).scope_count() >= 1,
        loops_wf(*old(loops), old(cfg).bb@.len()),
        stmt_ok(*stmt),
        *stmt is VariableDefinition,
    ensures
        extends(old(errors)@, final(errors)@),
        r is Err ==> error_added(old(errors)@, final(errors)@),
        r is Ok ==> stepped(*old(cfg), *final(cfg), *old(vartab), *final(vartab), *old(loops), *final(loops), *ns),
        r is Ok ==> r == Ok::<bool, ()>(completes(*stmt)),
        r is Ok ==> jumps_counted(*old(loops), *final(loops), *stmt),
        r is Ok ==> var_defined(*stmt, *ns, *old(vartab), *final(vartab), *final(cfg)),
    decreases stmt, 1nat,
{
    let ghost g0 = *cfg;
    let ghost v0 = *vartab;
    let ghost e0 = errors@;
    match stmt {
        ast::Statement::VariableDefinition(loc, decl, init) => {
            let var_ty = match ns.resolve_type(&decl.typ, errors) {
                Ok(t) => t,
                Err(()) => {
                    proof { lemma_pushed_error(e0, errors@); }
                    return Err(());
                },
            };
            if big_greater(&var_ty.size_hint(ns), &BigNum::from_u64(1048576)) {
                push_error(errors, Output::error(*loc, String::from_str("type to large to fit into memory")));
                return Err(());
            }
            let e_t = match init {
                Some(init) => {
                    let (expr, init_ty) = st_expr(init, cfg, ns, vartab, loops, errors)?;
                    let e = cast(&decl.name.loc, expr, &init_ty, &var_ty, true, ns, errors)?;
                    Some(e)
                },
                None => None,
            };
            let ghost g1 = *cfg;
            let ghost v1 = *vartab;
            let ghost e1 = errors@;
            proof {
                if init is Some {
                    Vartable::lemma_same_scopes(&v1, &v0);
                }
            }
            assert(v1.declared(decl.name.name@) == v0.declared(decl.name.name@));
            let ghost ty_g = var_ty;
            let added = vartab.add(&decl.name, var_ty, errors);
            let ghost v2 = *vartab;
            proof {
                lemma_table_grew_add(g1, v1, *vartab, *ns);
                if added is None {
                    lemma_extends_one(e1, errors@);
                }
            }
            match added {
                Some(pos) => {
                    let ghost e2 = errors@;
                    ns.check_shadowing(&decl.name, errors);
                    proof {
                        if errors@ != e2 {
                            lemma_extends_one(e2, errors@);
                        }
                    }
                    match e_t {
                        Some(expr) => {
                            proof { lemma_expression_wf_grow(expr, v1.len(), vartab.len(), *ns); }
                            st_emit(cfg, vartab, loops, ns, Instr::Assign { res: pos, expr });
                            proof {
                                Vartable::lemma_same_scopes(&*vartab, &v2);
                                assert(vartab.var(pos as int) == v2.var(pos as int));
                            }
                        },
                        None => {},
                    }
                    assert(resolve_type_spec(*ns, decl.typ) == Ok::<TypeV, (Loc, Seq<char>)>(ty_g@));
                },
                None => {},
            }
            Ok(true)
        },
        _ => vstd::pervasive::unreached(),
    }
}

/// A graph stays well formed when a variable is declared.
proof fn lemma_table_grew_add(g: ControlFlowGraph, v0: Vartable, v1: Vartable, c: Contract)
    requires
        cfg_wf(g, v0.len(), c),
        v0.len() <= v1.len(),
    ensures
        cfg_wf(g, v1.len(), c),
{
    lemma_cfg_wf_grow(g, v0.len(), v1.len(), c);
}

/// A block: its statements in a scope of their own. A statement after one
/// that cannot complete (a return, break or continue) is an error.
fn st_block(
    stmt: &ast::Statement,
    f: &FunctionDecl,
    cfg: &mut ControlFlowGraph,
    ns: &Contract,
    vartab: &mut Vartable,
    loops: &mut LoopScopes,
    errors: &mut Vec<Output>,
) -> (r: Result<bool, ()>)
    requires
        ns.wf(),
        function_wf(*f, *ns),
        state_wf(*old(cfg), *old(vartab), *ns),
        old(vartab).scope_count() >= 1,
        loops_wf(*old(loops), old(cfg).bb@.len()),
        stmt_ok(*stmt),
        *stmt is Block,
    ensures
        extends(old(errors)@, final(errors)@),
        r is Err ==> error_added(old(errors)@, final(errors)@),
        r is Ok ==> stepped(*old(cfg), *final(cfg), *old(vartab), *final(vartab), *old(loops), *final(loops), *ns),
        r is Ok ==> r == Ok::<bool, ()>(completes(*stmt)),
        r is Ok ==> jumps_counted(*old(loops), *final(loops), *stmt),
        r is Ok ==> all_reachable(*stmt),
        stmt_frag(*stmt) ==> (r is Ok <==> stmt_accepts(*stmt, old(loops).0@.len() > 0, *ns)),
        unreachable_reported(*stmt, old(loops).0@.len() > 0, *ns, *f, *old(vartab), r, final(errors)@),
    decreases stmt, 1nat,
{
    let ghost g0 = *cfg;
    let ghost v0 = *vartab;
    let ghost e0 = errors@;
    let ghost l0 = *loops;
    match stmt {
        ast::Statement::Block(_, bs) => {
            vartab.new_scope();
            let ghost v1 = *vartab;
            let mut reachable = true;
            let mut i: usize = 0;
            while i < bs.len()
                invariant
                    0 <= i <= bs@.len(),
                    ns.wf(),
                    function_wf(*f, *ns),
                    forall|j: int| 0 <= j < bs@.len() ==> stmt_ok(#[trigger] bs@[j]),
                    *stmt matches ast::Statement::Block(_, b) && b == bs,
                    v1.scopes().drop_last() == v0.scopes(),
                    v1.scope_count() == v0.scope_count() + 1,
                    v0.scope_count() >= 1,
                    state_wf(g0, v0, *ns),
                    loops_wf(l0, g0.bb@.len()),
                    v1.len() == v0.len(),
                    forall|k: int| 0 <= k < v0.len() ==> #[trigger] v1.var(k) == v0.var(k),
                    v1.tracker_count() == v0.tracker_count(),
                    v1.return_positions() == v0.return_positions(),
                    v1.wf(*ns),
                    stepped(g0, *cfg, v1, *vartab, l0, *loops, *ns),
                    extends(e0, errors@),
                    g0 == *old(cfg),
                    v0 == *old(vartab),
                    e0 == old(errors)@,
                    l0 == *old(loops),
                    reachable == (i == 0 || completes(bs@[i - 1])),
                    forall|j: int| 0 <= j < i - 1 ==> completes(#[trigger] bs@[j]),
                    loops.0@.len() == l0.0@.len(),
                    forall|j: int| 0 <= j < i && stmt_frag(#[trigger] bs@[j]) ==> stmt_accepts(bs@[j], l0.0@.len() > 0, *ns),
                    forall|j: int| #[trigger] unreachable_index(bs@, j)
                        && (forall|k: int| 0 <= k < j ==> settled_ok(#[trigger] bs@[k], l0.0@.len() > 0, *ns, *f, v0)) ==> i <= j,
                    l0.0@.len() > 0 ==> {
                        &&& loops.0@.drop_last() == l0.0@.drop_last()
                        &&& (loops.0@.last().no_breaks > 0)
                            == (l0.0@.last().no_breaks > 0 || exists|j: int| 0 <= j < i && jumps_out(#[trigger] bs@[j], true))
                        &&& (loops.0@.last().no_continues > 0)
                            == (l0.0@.last().no_continues > 0 || exists|j: int| 0 <= j < i && jumps_out(#[trigger] bs@[j], false))
                    },
                decreases bs@.len() - i,
            {
                if !reachable {
                    push_error(errors, Output::error(bs[i].loc(), String::from_str("unreachable statement")));
                    proof {
                        assert(!completes(bs@[i - 1]));
                        assert(!all_reachable(*stmt));
                    }
                    return Err(());
                }
                proof {
                    assert(decreases_to!(*stmt => *bs));
                    assert(decreases_to!(*bs => bs@));
                    assert(decreases_to!(bs@ => bs@[i as int]));
                }
                let ghost vi = *vartab;
                let rs = statement(&bs[i], f, cfg, ns, vartab, loops, errors);
                match rs {
                    Ok(b) => { reachable = b; },
                    Err(()) => {
                        proof {
                            if stmt_frag(*stmt) {
                                assert(stmt_frag(bs@[i as int]));
                                assert(!stmt_accepts(bs@[i as int], l0.0@.len() > 0, *ns));
                            }
                            assert(!unreachable_index(bs@, i as int));
                            assert(returns_refused(bs@[i as int], *f, vi) == returns_refused(bs@[i as int], *f, v0));
                            assert forall|j: int| #[trigger] unreachable_index(bs@, j)
                                && (forall|k: int| 0 <= k < j ==> settled_ok(#[trigger] bs@[k], l0.0@.len() > 0, *ns, *f, v0))
                                implies false by {
                                assert(i < j);
                                assert(settled_ok(bs@[i as int], l0.0@.len() > 0, *ns, *f, v0));
                            }
                        }
                        return Err(());
                    },
                }
                i += 1;
            }
            assert(jumps_out(*stmt, true) == exists|j: int| 0 <= j < bs@.len() && jumps_out(#[trigger] bs@[j], true));
            assert(jumps_out(*stmt, false) == exists|j: int| 0 <= j < bs@.len() && jumps_out(#[trigger] bs@[j], false));
            vartab.leave_scope();
            Ok(reachable)
        },
        _ => vstd::pervasive::unreached(),
    }
}

/// Is a `return` refused for its number of values: without values, the
/// function must have named all its return values; with values, it must
/// return exactly that many.
pub open spec fn returns_refused(stmt: ast::Statement, f: FunctionDecl, vartab: Vartable) -> bool {
    match stmt {
        ast::Statement::Return(_, v) => if v@.len() == 0 {
            vartab.return_positions().len() != f.returns@.len()
        } else {
            v@.len() != f.returns@.len()
        },
        _ => false,
    }
}

/// `return` with or without values: the values are converted to the return
/// types; without values, the named return variables are returned.
fn st_return(
    stmt: &ast::Statement,
    f: &FunctionDecl,
    cfg: &mut ControlFlowGraph,
    ns: &Contract,
    vartab: &mut Vartable,
    loops: &mut LoopScopes,
    errors: &mut Vec<Output>,
) -> (r: Result<bool, ()>)
    requires
        ns.wf(),
        function_wf(*f, *ns),
        state_wf(*old(cfg), *old(vartab), *ns),
        old(vartab).scope_count() >= 1,
        loops_wf(*old(loops), old(cfg).bb@.len()),
        stmt_ok(*stmt),
        *stmt is Return,
    ensures
        extends(old(errors)@, final(errors)@),
        r is Err ==> error_added(old(errors)@, final(errors)@),
        r is Ok ==> stepped(*old(cfg), *final(cfg), *old(vartab), *final(vartab), *old(loops), *final(loops), *ns),
        r is Ok ==> r == Ok::<bool, ()>(completes(*stmt)),
        r is Ok ==> jumps_counted(*old(loops), *final(loops), *stmt),
        returns_refused(*stmt, *f, *old(vartab)) ==> r is Err,
        *stmt matches ast::Statement::Return(_, v) && v@.len() == 0 ==> (r is Err <==> returns_refused(*stmt, *f, *old(vartab))),
    decreases stmt, 1nat,
{
    let ghost g0 = *cfg;
    let ghost v0 = *vartab;
    let ghost e0 = errors@;
    match stmt {
        ast::Statement::Return(loc, results) => {
            let no_returns = f.returns.len();
            if results.len() == 0 {
                if vartab.return_vars().len() != no_returns {
                    let msg = join3("missing return value, ", u64_to_decimal(no_returns as u64).as_str(), " return values expected");
                    push_error(errors, Output::error(*loc, msg));
                    return Err(());
                }
                let value = return_values(vartab, ns);
                st_emit(cfg, vartab, loops, ns, Instr::Return { value });
                return Ok(false);
            }
            if no_returns == 0 {
                push_error(errors, Output::error(*loc, String::from_str("function has no return values")));
                return Err(());
            }
            if no_returns != results.len() {
                let a = join4("incorrect number of return values, expected ", u64_to_decimal(no_returns as u64).as_str(),
                    " but got ", u64_to_decimal(results.len() as u64).as_str());
                push_error(errors, Output::error(*loc, a));
                return Err(());
            }
            let mut exprs: Vec<Expression> = Vec::new();
            let mut i: usize = 0;
            while i < results.len()
                invariant
                    0 <= i <= results@.len(),
                    results@.len() == f.returns@.len(),
                    results@.len() > 0,
                    *stmt matches ast::Statement::Return(_, v) && v@ == results@,
                    ns.wf(),
                    function_wf(*f, *ns),
                    forall|j: int| 0 <= j < results@.len() ==> expr_ok(#[trigger] results@[j]),
                    loops_wf(*loops, g0.bb@.len()),
                    *loops == *old(loops),
                    state_wf(g0, v0, *ns),
                    stepped(g0, *cfg, v0, *vartab, *loops, *loops, *ns),
                    extends(e0, errors@),
                    exprs@.len() == i,
                    forall|j: int| 0 <= j < i ==> expression_wf(#[trigger] exprs@[j], vartab.len(), *ns),
                    g0 == *old(cfg),
                    v0 == *old(vartab),
                    e0 == old(errors)@,
                decreases results@.len() - i,
            {
                let ghost vi = *vartab;
                let (e, ty) = st_expr(&results[i], cfg, ns, vartab, loops, errors)?;
                assert(type_wf(f.returns@[i as int].ty, ns.enums@.len(), ns.structs@.len()));
                let c = cast(&results[i].loc(), e, &ty, &f.returns[i].ty, true, ns, errors)?;
                proof {
                    assert forall|j: int| 0 <= j < i implies expression_wf(#[trigger] exprs@[j], vartab.len(), *ns) by {
                        lemma_expression_wf_grow(exprs@[j], vi.len(), vartab.len(), *ns);
                    }
                }
                exprs.push(c);
                i += 1;
            }
            st_emit(cfg, vartab, loops, ns, Instr::Return { value: exprs });
            Ok(false)
        },
        _ => vstd::pervasive::unreached(),
    }
}

/// The named return variables, as expressions.
fn return_values(vartab: &Vartable, ns: &Contract) -> (r: Vec<Expression>)
    requires
        vartab.wf_core(),
    ensures
        forall|j: int| 0 <= j < r@.len() ==> expression_wf(#[trigger] r@[j], vartab.len(), *ns),
        r@.len() == vartab.return_positions().len(),
        forall|j: int| 0 <= j < r@.len() ==> r@[j] == Expression::Variable(Loc(0, 0), vartab.return_positions()[j]),
{
    proof { vartab.lemma_wf_parts(); }
    let positions = vartab.return_vars();
    let mut r: Vec<Expression> = Vec::new();
    let mut i: usize = 0;
    while i < positions.len()
        invariant
            0 <= i <= positions@.len(),
            positions@ == vartab.return_positions(),
            forall|k: int| 0 <= k < positions@.len() ==> (#[trigger] positions@[k]) < vartab.len(),
            r@.len() == i,
            forall|j: int| 0 <= j < i ==> r@[j] == Expression::Variable(Loc(0, 0), positions@[j]),
            forall|j: int| 0 <= j < i ==> expression_wf(#[trigger] r@[j], vartab.len(), *ns),
        decreases positions@.len() - i,
    {
        let e = Expression::Variable(Loc(0, 0), positions[i]);
        assert(expression_wf(e, vartab.len(), *ns));
        r.push(e);
        i += 1;
    }
    r
}

/// A branch of an `if`: in a scope of its own; if it can complete, it goes
/// on at `endif`.
fn st_branch_body(
    body: &ast::Statement,
    f: &FunctionDecl,
    endif: usize,
    cfg: &mut ControlFlowGraph,
    ns: &Contract,
    vartab: &mut Vartable,
    loops: &mut LoopScopes,
    errors: &mut Vec<Output>,
    Ghost(parent): Ghost<ast::Statement>,
) -> (r: Result<bool, ()>)
    requires
        ns.wf(),
        function_wf(*f, *ns),
        state_wf(*old(cfg), *old(vartab), *ns),
        old(vartab).scope_count() >= 1,
        loops_wf(*old(loops), old(cfg).bb@.len()),
        stmt_ok(*body),
        endif < old(cfg).bb@.len(),
        decreases_to!(parent => *body),
    ensures
        extends(old(errors)@, final(errors)@),
        r is Err ==> error_added(old(errors)@, final(errors)@),
        r is Ok ==> stepped(*old(cfg), *final(cfg), *old(vartab), *final(vartab), *old(loops), *final(loops), *ns)
            && final(vartab).scopes() == old(vartab).scopes(),
        r is Ok ==> r == Ok::<bool, ()>(completes(*body)),
        r is Ok ==> jumps_counted(*old(loops), *final(loops), *body),
        stmt_frag(*body) ==> (r is Ok <==> stmt_accepts(*body, old(loops).0@.len() > 0, *ns)),
    decreases parent, 0nat,
{
    let ghost g0 = *cfg;
    let ghost v0 = *vartab;
    vartab.new_scope();
    let ghost v1 = *vartab;
    let reachable = statement(body, f, cfg, ns, vartab, loops, errors)?;
    if reachable {
        st_emit(cfg, vartab, loops, ns, Instr::Branch { bb: endif });
    }
    vartab.leave_scope();
    Ok(reachable)
}

/// `if` with or without `else`: the condition branches to `then` (and
/// `else`); both go on at `endif`, where the variables assigned in the
/// branches need phi nodes.
fn st_if(
    stmt: &ast::Statement,
    f: &FunctionDecl,
    cfg: &mut ControlFlowGraph,
    ns: &Contract,
    vartab: &mut Vartable,
    loops: &mut LoopScopes,
    errors: &mut Vec<Output>,
) -> (r: Result<bool, ()>)
    requires
        ns.wf(),
        function_wf(*f, *ns),
        state_wf(*old(cfg), *old(vartab), *ns),
        old(vartab).scope_count() >= 1,
        loops_wf(*old(loops), old(cfg).bb@.len()),
        stmt_ok(*stmt),
        *stmt is If,
    ensures
        extends(old(errors)@, final(errors)@),
        r is Err ==> error_added(old(errors)@, final(errors)@),
        r is Ok ==> stepped(*old(cfg), *final(cfg), *old(vartab), *final(vartab), *old(loops), *final(loops), *ns),
        r is Ok ==> r == Ok::<bool, ()>(completes(*stmt)),
        r is Ok ==> jumps_counted(*old(loops), *final(loops), *stmt),
        stmt_frag(*stmt) ==> (r is Ok <==> stmt_accepts(*stmt, old(loops).0@.len() > 0, *ns)),
        r is Ok ==> final(cfg).current == old(cfg).bb@.len() + (if (*stmt matches ast::Statement::If(_, _, _, Some(_))) { 2int } else { 1int })
            && final(cfg).bb@.len() > final(cfg).current,
        r is Ok ==> branches_on(*final(cfg), old(cfg).bb@.len() as int, old(cfg).bb@.len() + 1int),
    decreases stmt, 1nat,
{
    let ghost g0 = *cfg;
    let ghost v0 = *vartab;
    let ghost e0 = errors@;
    let ghost l0 = *loops;
    match stmt {
        ast::Statement::If(_, cond, then_stmt, else_stmt) => {
            let then = st_open(cfg, vartab, loops, ns, "then");
            let else_ = match else_stmt {
                Some(_) => st_open(cfg, vartab, loops, ns, "else"),
                None => 0,
            };
            let endif = st_open(cfg, vartab, loops, ns, "endif");
            let false_ = match else_stmt {
                Some(_) => else_,
                None => endif,
            };
            st_branch_on(cond, then, false_, cfg, ns, vartab, loops, errors)?;
            let ghost gb = *cfg;
            let ghost bb = gb.current as int;
            let ghost kb = instr_count(gb, bb) - 1;
            assert(instr_at(gb, bb, kb) matches Instr::BranchCond { true_, false_: f2, .. } && true_ == then && f2 == false_);
            st_switch(cfg, vartab, loops, ns, then);
            vartab.new_dirty_tracker();
            let then_reachable = st_branch_body(then_stmt, f, endif, cfg, ns, vartab, loops, errors, Ghost(*stmt))?;
            let reachable = match else_stmt {
                Some(else_stmt) => {
                    st_switch(cfg, vartab, loops, ns, else_);
                    let else_reachable = st_branch_body(else_stmt, f, endif, cfg, ns, vartab, loops, errors, Ghost(*stmt))?;
                    then_reachable || else_reachable
                },
                None => true,
            };
            let set = vartab.pop_dirty_tracker();
            st_phis(cfg, vartab, loops, ns, endif, set);
            st_switch(cfg, vartab, loops, ns, endif);
            proof {
                assert(instr_at(*cfg, bb, kb) == instr_at(gb, bb, kb));
            }
            Ok(reachable)
        },
        _ => vstd::pervasive::unreached(),
    }
}

/// A `break` or `continue` was lowered: a branch to the innermost loop's
/// end or next iteration was appended to the current block.
pub open spec fn jump_lowered(s: ast::Statement, g0: ControlFlowGraph, g1: ControlFlowGraph, l0: LoopScopes) -> bool {
    &&& l0.0@.len() > 0
    &&& instr_added(g0, g1, Instr::Branch {
        bb: if s is Break { l0.0@.last().break_bb } else { l0.0@.last().continue_bb },
    })
}

/// `break` and `continue`: a branch to the innermost loop's end or next
/// iteration; outside a loop, an error.
fn st_jump(
    stmt: &ast::Statement,
    f: &FunctionDecl,
    cfg: &mut ControlFlowGraph,
    ns: &Contract,
    vartab: &mut Vartable,
    loops: &mut LoopScopes,
    errors: &mut Vec<Output>,
) -> (r: Result<bool, ()>)
    requires
        ns.wf(),
        function_wf(*f, *ns),
        state_wf(*old(cfg), *old(vartab), *ns),
        old(vartab).scope_count() >= 1,
        loops_wf(*old(loops), old(cfg).bb@.len()),
        *stmt is Break || *stmt is Continue,
    ensures
        extends(old(errors)@, final(errors)@),
        r is Err ==> error_added(old(errors)@, final(errors)@),
        r is Ok ==> stepped(*old(cfg), *final(cfg), *old(vartab), *final(vartab), *old(loops), *final(loops), *ns),
        r is Ok ==> r == Ok::<bool, ()>(completes(*stmt)),
        r is Ok ==> jumps_counted(*old(loops), *final(loops), *stmt),
        r is Err <==> old(loops).0@.len() == 0,
        r is Err ==> final(errors)@ == old(errors)@.push(final(errors)@.last())
            && is_diag(final(errors)@.last(), Level::Error, ErrorType::SyntaxError, statement_loc(*stmt),
                if *stmt is Break { "break statement not in loop"@ } else { "continue statement not in loop"@ }),
        r is Err ==> *final(cfg) == *old(cfg) && *final(vartab) == *old(vartab),
        r is Ok ==> jump_lowered(*stmt, *old(cfg), *final(cfg), *old(loops)),
{
    let is_break = if let ast::Statement::Break(_) = stmt { true } else { false };
    let target = if is_break { loops.do_break() } else { loops.do_continue() };
    match target {
        Some(bb) => {
            st_emit(cfg, vartab, loops, ns, Instr::Branch { bb });
            Ok(false)
        },
        None => {
            let msg = if is_break {
                String::from_str("break statement not in loop")
            } else {
                String::from_str("continue statement not in loop")
            };
            push_error(errors, Output::error(stmt.loc(), msg));
            Err(())
        },
    }
}

/// A copy of a list of positions.
fn copy_positions(v: &Vec<usize>) -> (r: Vec<usize>)
    ensures
        r@ == v@,
{
    let mut r: Vec<usize> = Vec::new();
    let mut i: usize = 0;
    while i < v.len()
        invariant
            0 <= i <= v@.len(),
            r@ == v@.take(i as int),
        decreases v@.len() - i,
    {
        r.push(v[i]);
        i += 1;
        assert(r@ =~= v@.take(i as int));
    }
    assert(v@.take(v@.len() as int) =~= v@);
    r
}

/// `do body while (cond)`: the body runs first in a scope of its own; the
/// condition is evaluated only when the body can complete (or continues);
/// `break` goes to the end and `continue` to the condition.
fn st_do_while(
    stmt: &ast::Statement,
    f: &FunctionDecl,
    cfg: &mut ControlFlowGraph,
    ns: &Contract,
    vartab: &mut Vartable,
    loops: &mut LoopScopes,
    errors: &mut Vec<Output>,
) -> (r: Result<bool, ()>)
    requires
        ns.wf(),
        function_wf(*f, *ns),
        state_wf(*old(cfg), *old(vartab), *ns),
        old(vartab).scope_count() >= 1,
        loops_wf(*old(loops), old(cfg).bb@.len()),
        stmt_ok(*stmt),
        *stmt is DoWhile,
    ensures
        extends(old(errors)@, final(errors)@),
        r is Err ==> error_added(old(errors)@, final(errors)@),
        r is Ok ==> stepped(*old(cfg), *final(cfg), *old(vartab), *final(vartab), *old(loops), *final(loops), *ns),
        r is Ok ==> r == Ok::<bool, ()>(completes(*stmt)),
        r is Ok ==> jumps_counted(*old(loops), *final(loops), *stmt),
        stmt_frag(*stmt) ==> (r is Ok <==> stmt_accepts(*stmt, old(loops).0@.len() > 0, *ns)),
        r is Ok ==> final(cfg).current == old(cfg).bb@.len() + 2 && final(cfg).bb@.len() > final(cfg).current,
        r is Ok && (*stmt matches ast::Statement::DoWhile(_, b, _) && (completes(*b) || jumps_out(*b, false)))
            ==> branches_on(*final(cfg), old(cfg).bb@.len() as int, old(cfg).bb@.len() + 2int),
    decreases stmt, 1nat,
{
    let ghost mut bb: int = 0;
    let ghost mut kb: int = 0;
    let ghost mut gb: ControlFlowGraph = *cfg;
    match stmt {
        ast::Statement::DoWhile(_, body_stmt, cond_expr) => {
            let body = st_open(cfg, vartab, loops, ns, "body");
            let cond = st_open(cfg, vartab, loops, ns, "conf");
            let end = st_open(cfg, vartab, loops, ns, "enddowhile");
            st_emit(cfg, vartab, loops, ns, Instr::Branch { bb: body });
            st_switch(cfg, vartab, loops, ns, body);
            vartab.new_scope();
            vartab.new_dirty_tracker();
            loops.new_scope(end, cond);
            let mut body_reachable = statement(body_stmt, f, cfg, ns, vartab, loops, errors)?;
            if body_reachable {
                st_emit(cfg, vartab, loops, ns, Instr::Branch { bb: cond });
            }
            vartab.leave_scope();
            let control = loops.leave_scope();
            if control.no_continues > 0 {
                body_reachable = true;
            }
            if body_reachable {
                st_switch(cfg, vartab, loops, ns, cond);
                st_branch_on(cond_expr, body, end, cfg, ns, vartab, loops, errors)?;
                proof {
                    gb = *cfg;
                    bb = gb.current as int;
                    kb = instr_count(gb, bb) - 1;
                    assert(instr_at(gb, bb, kb) matches Instr::BranchCond { true_, false_, .. } && true_ == body && false_ == end);
                }
            }
            let set = vartab.pop_dirty_tracker();
            st_phis(cfg, vartab, loops, ns, end, copy_positions(&set));
            st_phis(cfg, vartab, loops, ns, body, copy_positions(&set));
            st_phis(cfg, vartab, loops, ns, cond, set);
            st_switch(cfg, vartab, loops, ns, end);
            proof {
                if body_reachable {
                    assert(instr_at(*cfg, bb, kb) == instr_at(gb, bb, kb));
                }
            }
            Ok(body_reachable || control.no_breaks > 0)
        },
        _ => vstd::pervasive::unreached(),
    }
}

/// Somewhere in `g` a condition is branched on, to block `t` when it holds
/// and to block `f` when it does not.
pub open spec fn branches_on(g: ControlFlowGraph, t: int, f: int) -> bool {
    exists|b: int, k: int| 0 <= b < g.bb@.len() && 0 <= k < instr_count(g, b)
        && (#[trigger] instr_at(g, b, k) matches Instr::BranchCond { true_, false_, .. } && true_ == t && false_ == f)
}

/// How `while (c) body` was lowered into `g1` from `g0`: the block that was
/// current jumps to a new block, which evaluates the condition, and where
/// the condition is decided control goes to the next new block, the body,
/// when it holds, and to the one after, the end of the loop, when it does
/// not.
pub open spec fn while_lowered(g0: ControlFlowGraph, g1: ControlFlowGraph) -> bool {
    &&& instr_at(g1, g0.current as int, instr_count(g0, g0.current as int)) matches Instr::Branch { bb }
        && bb == g0.bb@.len()
    &&& exists|b: int, k: int| 0 <= b < g1.bb@.len() && 0 <= k < instr_count(g1, b)
        && (#[trigger] instr_at(g1, b, k) matches Instr::BranchCond { true_, false_, .. }
            && true_ == g0.bb@.len() + 1 && false_ == g0.bb@.len() + 2)
}

/// After lowering into `g1` from `g0`, control goes back to the block `g0`
/// made next (the condition of a loop) from an instruction other than the
/// one that enters it from the block that was current.
pub open spec fn loops_back(g0: ControlFlowGraph, g1: ControlFlowGraph) -> bool {
    exists|b: int, k: int| 0 <= b < g1.bb@.len() && 0 <= k < instr_count(g1, b)
        && (b != g0.current || k != instr_count(g0, g0.current as int))
        && (#[trigger] instr_at(g1, b, k) matches Instr::Branch { bb } && bb == g0.bb@.len())
}

/// Lowering `while (c) body` runs the body while the condition holds and
/// leaves the loop when it does not: where the condition is decided, the
/// branch goes to the body block (the second new block) when it holds and to
/// the end block (the third) when it does not, and the block that was
/// current jumps to the condition block (the first).
pub proof fn law_while_runs_body_while_condition_holds(g0: ControlFlowGraph, g1: ControlFlowGraph)
    requires
        while_lowered(g0, g1),
    ensures
        (exists|b: int, k: int| 0 <= b < g1.bb@.len() && 0 <= k < instr_count(g1, b)
            && (#[trigger] instr_at(g1, b, k) matches Instr::BranchCond { true_, false_, .. }
                && true_ == g0.bb@.len() + 1 && false_ == g0.bb@.len() + 2)),
        instr_at(g1, g0.current as int, instr_count(g0, g0.current as int)) == (Instr::Branch { bb: g0.bb@.len() as usize }),
{
}

/// `while (cond) body`: the condition is checked first; the body runs in a
/// scope of its own and goes back to the condition; `break` goes to the end
/// and `continue` to the condition. Lowering goes on in the end block.
fn st_while(
    stmt: &ast::Statement,
    f: &FunctionDecl,
    cfg: &mut ControlFlowGraph,
    ns: &Contract,
    vartab: &mut Vartable,
    loops: &mut LoopScopes,
    errors: &mut Vec<Output>,
) -> (r: Result<bool, ()>)
    requires
        ns.wf(),
        function_wf(*f, *ns),
        state_wf(*old(cfg), *old(vartab), *ns),
        old(vartab).scope_count() >= 1,
        loops_wf(*old(loops), old(cfg).bb@.len()),
        stmt_ok(*stmt),
        *stmt is While,
    ensures
        extends(old(errors)@, final(errors)@),
        r is Err ==> error_added(old(errors)@, final(errors)@),
        r is Ok ==> stepped(*old(cfg), *final(cfg), *old(vartab), *final(vartab), *old(loops), *final(loops), *ns),
        r is Ok ==> r == Ok::<bool, ()>(completes(*stmt)),
        r is Ok ==> jumps_counted(*old(loops), *final(loops), *stmt),
        r is Ok ==> final(cfg).bb@.len() >= old(cfg).bb@.len() + 3 && final(cfg).current == old(cfg).bb@.len() + 2,
        r is Ok ==> while_lowered(*old(cfg), *final(cfg)),
        r is Ok && (*stmt matches ast::Statement::While(_, _, b) && completes(*b)) ==> loops_back(*old(cfg), *final(cfg)),
        stmt_frag(*stmt) ==> (r is Ok <==> stmt_accepts(*stmt, old(loops).0@.len() > 0, *ns)),
    decreases stmt, 1nat,
{
    let ghost g0 = *cfg;
    match stmt {
        ast::Statement::While(_, cond_expr, body_stmt) => {
            let cond = st_open(cfg, vartab, loops, ns, "cond");
            let body = st_open(cfg, vartab, loops, ns, "body");
            let end = st_open(cfg, vartab, loops, ns, "endwhile");
            let ghost gpre = *cfg;
            assert(gpre.bb@[g0.current as int] == g0.bb@[g0.current as int]);
            st_emit(cfg, vartab, loops, ns, Instr::Branch { bb: cond });
            let ghost ge = *cfg;
            let ghost n0 = instr_count(g0, g0.current as int);
            assert(instr_at(ge, g0.current as int, n0) == Instr::Branch { bb: cond });
            st_switch(cfg, vartab, loops, ns, cond);
            st_branch_on(cond_expr, body, end, cfg, ns, vartab, loops, errors)?;
            let ghost gb = *cfg;
            let ghost bb = gb.current as int;
            let ghost kb = instr_count(gb, bb) - 1;
            assert(instr_at(gb, bb, kb) matches Instr::BranchCond { true_, false_, .. } && true_ == body && false_ == end);
            st_switch(cfg, vartab, loops, ns, body);
            vartab.new_scope();
            vartab.new_dirty_tracker();
            loops.new_scope(end, cond);
            let body_reachable = statement(body_stmt, f, cfg, ns, vartab, loops, errors)?;
            let ghost mut gl = *cfg;
            let ghost mut bl: int = 0;
            let ghost mut kl: int = 0;
            if body_reachable {
                proof {
                    bl = cfg.current as int;
                    kl = instr_count(*cfg, bl);
                    if bl == g0.current as int {
                        assert(instr_count(ge, bl) == n0 + 1);
                    }
                }
                st_emit(cfg, vartab, loops, ns, Instr::Branch { bb: cond });
                proof {
                    gl = *cfg;
                    assert(instr_at(gl, bl, kl) == Instr::Branch { bb: cond });
                }
            }
            vartab.leave_scope();
            loops.leave_scope();
            let set = vartab.pop_dirty_tracker();
            st_phis(cfg, vartab, loops, ns, end, copy_positions(&set));
            st_phis(cfg, vartab, loops, ns, cond, set);
            st_switch(cfg, vartab, loops, ns, end);
            proof {
                assert(instr_at(*cfg, g0.current as int, n0) == instr_at(ge, g0.current as int, n0));
                assert(instr_at(*cfg, bb, kb) == instr_at(gb, bb, kb));
                if body_reachable {
                    assert(instr_at(*cfg, bl, kl) == instr_at(gl, bl, kl));
                }
            }
            Ok(true)
        },
        _ => vstd::pervasive::unreached(),
    }
}

/// `for (init; cond; next) body`, all parts optional: `init` runs in a scope
/// that holds the whole loop; without a condition the loop only ends by
/// `break`. `continue` goes to `next` if there is one, else to the condition
/// (or the body).
#[verifier::rlimit(80)]
fn st_for(
    stmt: &ast::Statement,
    f: &FunctionDecl,
    cfg: &mut ControlFlowGraph,
    ns: &Contract,
    vartab: &mut Vartable,
    loops: &mut LoopScopes,
    errors: &mut Vec<Output>,
) -> (r: Result<bool, ()>)
    requires
        ns.wf(),
        function_wf(*f, *ns),
        state_wf(*old(cfg), *old(vartab), *ns),
        old(vartab).scope_count() >= 1,
        loops_wf(*old(loops), old(cfg).bb@.len()),
        stmt_ok(*stmt),
        *stmt is For,
    ensures
        extends(old(errors)@, final(errors)@),
        r is Err ==> error_added(old(errors)@, final(errors)@),
        r is Ok ==> stepped(*old(cfg), *final(cfg), *old(vartab), *final(vartab), *old(loops), *final(loops), *ns),
        r is Ok ==> r == Ok::<bool, ()>(completes(*stmt)),
        r is Ok ==> jumps_counted(*old(loops), *final(loops), *stmt),
        stmt_frag(*stmt) ==> (r is Ok <==> stmt_accepts(*stmt, old(loops).0@.len() > 0, *ns)),
        r is Ok ==> final(cfg).current == old(cfg).bb@.len() + (if (*stmt matches ast::Statement::For(_, _, Some(_), _, _)) { 3int } else { 2int })
            && final(cfg).bb@.len() > final(cfg).current,
        r is Ok && (*stmt matches ast::Statement::For(_, _, Some(_), _, _))
            ==> branches_on(*final(cfg), old(cfg).bb@.len() as int, old(cfg).bb@.len() + 3int),
    decreases stmt, 1nat,
{
    let ghost mut bb: int = 0;
    let ghost mut kb: int = 0;
    let ghost mut gb: ControlFlowGraph = *cfg;
    match stmt {
        ast::Statement::For(_, init_stmt, cond_expr, next_stmt, body_stmt) => {
            let body = st_open(cfg, vartab, loops, ns, "body");
            let cond = match cond_expr {
                Some(_) => st_open(cfg, vartab, loops, ns, "cond"),
                None => body,
            };
            let next = st_open(cfg, vartab, loops, ns, "next");
            let end = st_open(cfg, vartab, loops, ns, "endfor");
            vartab.new_scope();
            match init_stmt {
                Some(init_stmt) => {
                    statement(init_stmt, f, cfg, ns, vartab, loops, errors)?;
                },
                None => {},
            }
            match cond_expr {
                Some(cond_expr) => {
                    st_emit(cfg, vartab, loops, ns, Instr::Branch { bb: cond });
                    st_switch(cfg, vartab, loops, ns, cond);
                    st_branch_on(cond_expr, body, end, cfg, ns, vartab, loops, errors)?;
                    proof {
                        gb = *cfg;
                        bb = gb.current as int;
                        kb = instr_count(gb, bb) - 1;
                        assert(instr_at(gb, bb, kb) matches Instr::BranchCond { true_, false_, .. } && true_ == body && false_ == end);
                    }
                    st_switch(cfg, vartab, loops, ns, body);
                },
                None => {
                    st_emit(cfg, vartab, loops, ns, Instr::Branch { bb: body });
                    st_switch(cfg, vartab, loops, ns, body);
                },
            }
            let continue_bb = match next_stmt {
                Some(_) => next,
                None => cond,
            };
            loops.new_scope(end, continue_bb);
            vartab.new_dirty_tracker();
            let mut body_reachable = match body_stmt {
                Some(body_stmt) => statement(body_stmt, f, cfg, ns, vartab, loops, errors)?,
                None => true,
            };
            if body_reachable {
                st_emit(cfg, vartab, loops, ns, Instr::Branch { bb: next });
            }
            let control = loops.leave_scope();
            if control.no_continues > 0 {
                body_reachable = true;
            }
            if body_reachable {
                match next_stmt {
                    Some(next_stmt) => {
                        st_switch(cfg, vartab, loops, ns, next);
                        body_reachable = statement(next_stmt, f, cfg, ns, vartab, loops, errors)?;
                    },
                    None => {},
                }
                if body_reachable {
                    st_emit(cfg, vartab, loops, ns, Instr::Branch { bb: cond });
                }
            }
            match cond_expr {
                Some(_) => {
                    vartab.leave_scope();
                    st_switch(cfg, vartab, loops, ns, end);
                    let set = vartab.pop_dirty_tracker();
                    if control.no_continues > 0 {
                        st_phis(cfg, vartab, loops, ns, next, copy_positions(&set));
                    }
                    if control.no_breaks > 0 {
                        st_phis(cfg, vartab, loops, ns, end, copy_positions(&set));
                    }
                    st_phis(cfg, vartab, loops, ns, cond, set);
                    proof {
                        assert(instr_at(*cfg, bb, kb) == instr_at(gb, bb, kb));
                    }
                    Ok(true)
                },
                None => {
                    let set = vartab.pop_dirty_tracker();
                    if control.no_continues > 0 {
                        st_phis(cfg, vartab, loops, ns, next, copy_positions(&set));
                    }
                    st_phis(cfg, vartab, loops, ns, body, copy_positions(&set));
                    st_phis(cfg, vartab, loops, ns, end, set);
                    vartab.leave_scope();
                    st_switch(cfg, vartab, loops, ns, end);
                    Ok(control.no_breaks > 0)
                },
            }
        },
        _ => vstd::pervasive::unreached(),
    }
}

/// Lower a statement of a function body into the graph; `f` is the
/// function. The result says whether the statement can complete normally
/// (is not a return, break or continue on every path). Every refused
/// statement adds an error.
pub fn statement(
    stmt: &ast::Statement,
    f: &FunctionDecl,
    cfg: &mut ControlFlowGraph,
    ns: &Contract,
    vartab: &mut Vartable,
    loops: &mut LoopScopes,
    errors: &mut Vec<Output>,
) -> (r: Result<bool, ()>)
    requires
        ns.wf(),
        function_wf(*f, *ns),
        state_wf(*old(cfg), *old(vartab), *ns),
        old(vartab).scope_count() >= 1,
        loops_wf(*old(loops), old(cfg).bb@.len()),
        stmt_ok(*stmt),
    ensures
        extends(old(errors)@, final(errors)@),
        r is Err ==> error_added(old(errors)@, final(errors)@),
        r is Ok ==> stepped(*old(cfg), *final(cfg), *old(vartab), *final(vartab), *old(loops), *final(loops), *ns),
        r is Ok ==> r == Ok::<bool, ()>(completes(*stmt)),
        r is Ok ==> jumps_counted(*old(loops), *final(loops), *stmt),
        r is Ok ==> all_reachable(*stmt),
        returns_refused(*stmt, *f, *old(vartab)) ==> r is Err,
        *stmt matches ast::Statement::Return(_, v) && v@.len() == 0 ==> (r is Err <==> returns_refused(*stmt, *f, *old(vartab))),
        *stmt is Break || *stmt is Continue ==> (r is Err <==> old(loops).0@.len() == 0),
        (*stmt is Break || *stmt is Continue) && r is Err ==> final(errors)@ == old(errors)@.push(final(errors)@.last())
            && is_diag(final(errors)@.last(), Level::Error, ErrorType::SyntaxError, statement_loc(*stmt),
                if *stmt is Break { "break statement not in loop"@ } else { "continue statement not in loop"@ }),
        (*stmt is Break || *stmt is Continue) && r is Err ==> *final(cfg) == *old(cfg),
        (*stmt is Break || *stmt is Continue) && r is Ok ==> jump_lowered(*stmt, *old(cfg), *final(cfg), *old(loops)),
        r is Ok ==> var_defined(*stmt, *ns, *old(vartab), *final(vartab), *final(cfg)),
        r is Ok && *stmt is While ==> while_lowered(*old(cfg), *final(cfg)),
        r is Ok && (*stmt matches ast::Statement::While(_, _, b) && completes(*b)) ==> loops_back(*old(cfg), *final(cfg)),
        r is Ok && *stmt is If ==> branches_on(*final(cfg), old(cfg).bb@.len() as int, old(cfg).bb@.len() + 1int),
        r is Ok && (*stmt matches ast::Statement::For(_, _, Some(_), _, _))
            ==> branches_on(*final(cfg), old(cfg).bb@.len() as int, old(cfg).bb@.len() + 3int),
        r is Ok && (*stmt matches ast::Statement::DoWhile(_, b, _) && (completes(*b) || jumps_out(*b, false)))
            ==> branches_on(*final(cfg), old(cfg).bb@.len() as int, old(cfg).bb@.len() + 2int),
        stmt_frag(*stmt) ==> (r is Ok <==> stmt_accepts(*stmt, old(loops).0@.len() > 0, *ns)),
        unreachable_reported(*stmt, old(loops).0@.len() > 0, *ns, *f, *old(vartab), r, final(errors)@),
        *stmt matches ast::Statement::Expression(_, e) ==> *final(loops) == *old(loops)
            && exists|res: Result<(Expression, Type), ()>| #[trigger] expression_done(e, *old(cfg), *final(cfg), *old(vartab),
                *final(vartab), old(errors)@, final(errors)@, res, false, *ns) && (r is Ok <==> res is Ok),
    decreases stmt, 2nat,
{
    match stmt {
        ast::Statement::VariableDefinition(..) => st_var_def(stmt, f, cfg, ns, vartab, loops, errors),
        ast::Statement::Block(..) => st_block(stmt, f, cfg, ns, vartab, loops, errors),
        ast::Statement::Return(..) => st_return(stmt, f, cfg, ns, vartab, loops, errors),
        ast::Statement::Expression(_, e) => {
            let res = st_expr(e, cfg, ns, vartab, loops, errors);
            proof {
                assert(expression_done(*e, *old(cfg), *cfg, *old(vartab), *vartab, old(errors)@, errors@, res, false, *ns));
            }
            res?;
            Ok(true)
        },
        ast::Statement::If(..) => st_if(stmt, f, cfg, ns, vartab, loops, errors),
        ast::Statement::Break(_) | ast::Statement::Continue(_) => st_jump(stmt, f, cfg, ns, vartab, loops, errors),
        ast::Statement::DoWhile(..) => st_do_while(stmt, f, cfg, ns, vartab, loops, errors),
        ast::Statement::While(..) => st_while(stmt, f, cfg, ns, vartab, loops, errors),
        ast::Statement::For(..) => st_for(stmt, f, cfg, ns, vartab, loops, errors),
    }
}


/// At the end of a body that can complete: unless the current block already
/// ends with a return, the named return values are returned; a function with
/// unnamed return values needs a return statement.
pub fn check_return(
    f: &ast::FunctionDefinition,
    cfg: &mut ControlFlowGraph,
    vartab: &mut Vartable,
    ns: &Contract,
    errors: &mut Vec<Output>,
) -> (r: Result<(), ()>)
    requires
        state_wf(*old(cfg), *old(vartab), *ns),
    ensures
        extends(old(errors)@, final(errors)@),
        r is Err ==> error_added(old(errors)@, final(errors)@),
        r is Ok ==> progressed(*old(cfg), *final(cfg), *old(vartab), *final(vartab), *ns),
        r is Ok ==> final(cfg).bb@[final(cfg).current as int].instr@.len() > 0
            && final(cfg).bb@[final(cfg).current as int].instr@.last() is Return,
        r is Err <==> ((old(cfg).bb@[old(cfg).current as int].instr@.len() == 0
            || !(old(cfg).bb@[old(cfg).current as int].instr@.last() is Return))
            && f.returns@.len() > 0 && old(vartab).return_positions().len() == 0),
        old(cfg).bb@[old(cfg).current as int].instr@.len() > 0
            && old(cfg).bb@[old(cfg).current as int].instr@.last() is Return ==> *final(cfg) == *old(cfg),
        r is Err ==> *final(cfg) == *old(cfg) && final(errors)@ == old(errors)@.push(final(errors)@.last())
            && is_diag(final(errors)@.last(), Level::Error, ErrorType::SyntaxError, statement_loc(f.body), "missing return statement"@),
        r is Ok && !(old(cfg).bb@[old(cfg).current as int].instr@.len() > 0
            && old(cfg).bb@[old(cfg).current as int].instr@.last() is Return) ==> {
            &&& final(cfg).bb@.len() == old(cfg).bb@.len()
            &&& final(cfg).current == old(cfg).current
            &&& final(cfg).bb@[final(cfg).current as int].instr@.drop_last() == old(cfg).bb@[old(cfg).current as int].instr@
            &&& final(cfg).bb@[final(cfg).current as int].instr@.last() matches Instr::Return { value }
                && value@.len() == old(vartab).return_positions().len()
                && forall|j: int| 0 <= j < value@.len() ==> #[trigger] value@[j] == Expression::Variable(Loc(0, 0), old(vartab).return_positions()[j])
        },
{
    let current = cfg.current;
    let n = cfg.bb[current].instr.len();
    if n > 0 {
        if let Instr::Return { .. } = &cfg.bb[current].instr[n - 1] {
            proof { lemma_progressed_refl(*cfg, *vartab, *ns); }
            return Ok(());
        }
    }
    if f.returns.len() == 0 || vartab.return_vars().len() > 0 {
        let value = return_values(vartab, ns);
        emit(cfg, vartab, ns, Instr::Return { value });
        Ok(())
    } else {
        push_error(errors, Output::error(f.body.loc(), String::from_str("missing return statement")));
        Err(())
    }
}

/// Does some return value have a name?
pub open spec fn has_named_return(f: ast::FunctionDefinition) -> bool {
    exists|i: int| 0 <= i < f.returns@.len() && ((#[trigger] f.returns@[i]).1 matches Some(p) && p.name is Some)
}

/// What building the graph of the body of `ast_f`, declared as `f`, does:
/// messages `e0` become `e1`, and the result is `r`.
pub open spec fn generate_cfg_done(ast_f: ast::FunctionDefinition, f: FunctionDecl, c: Contract, e0: Seq<Output>, e1: Seq<Output>, r: Result<Box<ControlFlowGraph>, ()>) -> bool {
    &&& extends(e0, e1)
    &&& (r is Err ==> error_added(e0, e1))
    &&& (r is Ok ==> cfg_wf(*r.unwrap(), r.unwrap().vars@.len(), c))
    &&& (r is Ok ==> forall|i: int| 0 <= i < r.unwrap().vars@.len() ==> (#[trigger] r.unwrap().vars@[i]).pos == i)
    &&& (ast_f.returns@.len() == 0 && stmt_frag(ast_f.body) ==> (r is Ok <==> stmt_accepts(ast_f.body, false, c)))
}

/// Build the control flow graph of a function body. The parameters become
/// variables set from the arguments; where some return value is named, all
/// return values get variables set to zero and a body may end without a
/// return. The body must end with a return where it can complete. Without
/// return values, a body of `stmt_frag` is accepted as `stmt_accepts` says,
/// outside any loop.
pub fn generate_cfg(
    ast_f: &ast::FunctionDefinition,
    resolve_f: &FunctionDecl,
    ns: &Contract,
    errors: &mut Vec<Output>,
) -> (r: Result<Box<ControlFlowGraph>, ()>)
    requires
        ns.wf(),
        function_wf(*resolve_f, *ns),
        resolve_f.params@.len() == ast_f.params@.len(),
        resolve_f.returns@.len() == ast_f.returns@.len(),
        stmt_ok(ast_f.body),
        has_named_return(*ast_f) ==> forall|i: int| 0 <= i < resolve_f.returns@.len()
            ==> super::cfg::has_default(#[trigger] resolve_f.returns@[i].ty),
    ensures
        generate_cfg_done(*ast_f, *resolve_f, *ns, old(errors)@, final(errors)@, r),
{
    let mut cfg = ControlFlowGraph::new();
    let mut vartab = Vartable::new();
    let mut loops = LoopScopes::new();
    let ghost e0 = errors@;
    assert(state_wf(cfg, vartab, *ns));
    let mut i: usize = 0;
    while i < ast_f.params.len()
        invariant
            0 <= i <= ast_f.params@.len(),
            resolve_f.params@.len() == ast_f.params@.len(),
            ns.wf(),
            function_wf(*resolve_f, *ns),
            state_wf(cfg, vartab, *ns),
            vartab.scope_count() == 1,
            vartab.tracker_count() == 0,
            vartab.return_positions().len() == 0,
            extends(e0, errors@),
            e0 == old(errors)@,
        decreases ast_f.params@.len() - i,
    {
        if let (_, Some(p)) = &ast_f.params[i] {
            if let Some(name) = &p.name {
                assert(type_wf(resolve_f.params@[i as int].ty, ns.enums@.len(), ns.structs@.len()));
                let ghost v0 = vartab;
                let ghost e1 = errors@;
                let added = vartab.add(name, resolve_f.params[i].ty.duplicate(), errors);
                proof {
                    lemma_table_grew_add(cfg, v0, vartab, *ns);
                    if added is None {
                        lemma_extends_one(e1, errors@);
                    }
                }
                if let Some(pos) = added {
                    let ghost e2 = errors@;
                    ns.check_shadowing(name, errors);
                    proof {
                        if errors@ != e2 {
                            lemma_extends_one(e2, errors@);
                        }
                    }
                    let ghost v1 = vartab;
                    emit(&mut cfg, &mut vartab, ns, Instr::FuncArg { res: pos, arg: i });
                    proof { Vartable::lemma_grows_parts(&v1, &vartab); }
                }
            }
        }
        i += 1;
    }
    let mut named = false;
    let mut k: usize = 0;
    while k < ast_f.returns.len()
        invariant
            0 <= k <= ast_f.returns@.len(),
            named <==> exists|j: int| 0 <= j < k && ((#[trigger] ast_f.returns@[j]).1 matches Some(p) && p.name is Some),
        decreases ast_f.returns@.len() - k,
    {
        if let (_, Some(p)) = &ast_f.returns[k] {
            if p.name.is_some() {
                named = true;
            }
        }
        k += 1;
    }
    if named {
        let mut positions: Vec<usize> = Vec::new();
        let mut j: usize = 0;
        while j < ast_f.returns.len()
            invariant
                0 <= j <= ast_f.returns@.len(),
                resolve_f.returns@.len() == ast_f.returns@.len(),
                ns.wf(),
                function_wf(*resolve_f, *ns),
                forall|i: int| 0 <= i < resolve_f.returns@.len() ==> super::cfg::has_default(#[trigger] resolve_f.returns@[i].ty),
                state_wf(cfg, vartab, *ns),
                vartab.scope_count() == 1,
                vartab.tracker_count() == 0,
                vartab.return_positions().len() == 0,
                positions@.len() == j,
                forall|q: int| 0 <= q < j ==> (#[trigger] positions@[q]) < vartab.len(),
                extends(e0, errors@),
                e0 == old(errors)@,
            decreases ast_f.returns@.len() - j,
        {
            let ty = &resolve_f.returns[j].ty;
            assert(type_wf(*ty, ns.enums@.len(), ns.structs@.len()));
            assert(super::cfg::has_default(*ty));
            let ghost v0 = vartab;
            let ghost e1 = errors@;
            let name = match &ast_f.returns[j] {
                (_, Some(p)) => match &p.name {
                    Some(name) => Some(name),
                    None => None,
                },
                (_, None) => None,
            };
            let pos = match name {
                Some(name) => {
                    let added = vartab.add(name, ty.duplicate(), errors);
                    proof {
                        lemma_table_grew_add(cfg, v0, vartab, *ns);
                        if added is None {
                            lemma_extends_one(e1, errors@);
                            v0.lemma_declared_nonempty(name.name@);
                        }
                    }
                    match added {
                        Some(pos) => {
                            let ghost e2 = errors@;
                            ns.check_shadowing(name, errors);
                            proof {
                                if errors@ != e2 {
                                    lemma_extends_one(e2, errors@);
                                }
                            }
                            let zero = ty.default(ns);
                            let ghost v1 = vartab;
                            emit(&mut cfg, &mut vartab, ns, Instr::Assign { res: pos, expr: zero });
                            proof { Vartable::lemma_grows_parts(&v1, &vartab); }
                            pos
                        },
                        None => 0,
                    }
                },
                None => {
                    let label = join2("arg", u64_to_decimal(j as u64).as_str());
                    let pos = vartab.temp(&ast::Identifier { loc: Loc(0, 0), name: label }, ty);
                    proof {
                        lemma_table_grew(cfg, v0, vartab, *ns);
                        Vartable::lemma_grows_parts(&v0, &vartab);
                        Vartable::lemma_same_scopes(&vartab, &v0);
                    }
                    let zero = ty.default(ns);
                    let ghost v1 = vartab;
                    emit(&mut cfg, &mut vartab, ns, Instr::Assign { res: pos, expr: zero });
                    proof { Vartable::lemma_grows_parts(&v1, &vartab); }
                    pos
                },
            };
            positions.push(pos);
            j += 1;
        }
        vartab.set_return_vars(positions);
    }
    let reachable = statement(&ast_f.body, resolve_f, &mut cfg, ns, &mut vartab, &mut loops, errors)?;
    if reachable {
        check_return(ast_f, &mut cfg, &mut vartab, ns, errors)?;
    }
    let vars = vartab.drain();
    cfg.vars = vars;
    Ok(Box::new(cfg))
}

} // verus!
