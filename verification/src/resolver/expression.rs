//! Resolution of expressions: each expression of the source becomes an
//! expression of the control flow graph with its type; assignments, calls and
//! the short circuit of `||` and `&&` become instructions.
use crate::ast;
use crate::ast::{Loc, PrimitiveType, BinaryOp, UnaryOp, IncDecOp, AssignOp};
use crate::bignum::{BigNum, all_hex_digits, hex_digit_value, hex_value, big_from_hex, big_bits, u64_to_decimal, bit_length, abs_int, int_decimal};
use crate::output::{Output, Level, ErrorType, is_diag, extends, error_added, has_error, push_error,
    lemma_error_added_trans, lemma_pushed_error, lemma_extends_trans, join2, join3, join4, join5};
use super::{Contract, FunctionDecl, Type, TypeV, Symbol, EnumDecl, dims_view, type_wf, type_signed, dims_positive, lookup, symbol_index,
    symbol_wf, lemma_symbol_index, resolve_type_spec, array_type};
use super::cast::{cast, coerce, coerce_int, get_int_length, coerce_int_result, int_length, bigint_to_expression, literal_width,
    cast_outcome, cast_outcome_view, cast_done, lemma_cast_outcome_same_literal, lemma_cast_same_type, LitView, lit_view};
use super::cfg::{ControlFlowGraph, Expression, Instr, Vartable, Variable, Storage, expression_wf, instr_wf, cfg_wf,
    state_wf, progressed, cast_shift_arg, ty_bits, emit, instr_added, open_block, switch_block, get_contract_storage, set_contract_storage, lemma_progressed_trans,
    lemma_progressed_refl, lemma_table_grew, lemma_expression_wf_grow, lemma_cfg_wf_grow, copy_of};
use super::address::{to_hexstr_eip55, eip55_text};
use vstd::prelude::*;

verus! {

/// The text with its escape sequences replaced, where they are valid.
pub uninterp spec fn unescaped(s: Seq<char>) -> Option<Seq<char>>;

/// Replace the escape sequences of a string literal; the `unescape` crate's
/// `unescape`. A text without a backslash comes back as it is.
#[verifier::external_body]
fn unescape_text(s: &str) -> (r: Option<String>)
    ensures
        r is Some ==> unescaped(s@) == Some(r.unwrap()@),
        r is None ==> unescaped(s@) is None,
        (forall|i: int| 0 <= i < s@.len() ==> s@[i] != '\\') ==> (r is Some && r.unwrap()@ == s@),
{
    unescape::unescape(s)
}

/// The bytes that pairs of hexadecimal digits stand for.
pub open spec fn hex_bytes(s: Seq<char>) -> Seq<u8>
    decreases s.len(),
{
    if s.len() < 2 {
        Seq::empty()
    } else {
        hex_bytes(s.drop_last().drop_last())
            + seq![(hex_digit_value(s[s.len() - 2]).unwrap_or(0) * 16 + hex_digit_value(s.last()).unwrap_or(0)) as u8]
    }
}

/// Decode pairs of hexadecimal digits; the `hex` crate's `decode`, which
/// accepts an even number of digits of either case.
#[verifier::external_body]
fn hex_decode(s: &str) -> (r: Option<Vec<u8>>)
    ensures
        s@.len() % 2 == 0 && all_hex_digits(s@) ==> (r is Some && r.unwrap()@ == hex_bytes(s@)),
{
    hex::decode(s).ok()
}

/// The parts of a source expression that the resolver relies on without
/// checking: hex literals hold hexadecimal digits, an address literal has
/// its two character prefix and at most 64 hexadecimal digits, and a
/// conversion to a primitive array type has positive sizes.
pub open spec fn expr_ok(e: ast::Expression) -> bool
    decreases e,
{
    match e {
        ast::Expression::HexLiteral(v) => forall|i: int| 0 <= i < v@.len() ==> all_hex_digits((#[trigger] v@[i]).hex@),
        ast::Expression::AddressLiteral(_, s) => 2 < s@.len() <= 66 && all_hex_digits(s@.skip(2)),
        ast::Expression::Binary(_, _, l, r) => expr_ok(*l) && expr_ok(*r),
        ast::Expression::Unary(_, _, x) => expr_ok(*x),
        ast::Expression::Ternary(_, a, b, c) => expr_ok(*a) && expr_ok(*b) && expr_ok(*c),
        ast::Expression::Assign(_, _, _, x) => expr_ok(*x),
        ast::Expression::IndexAccess(_, _, x) => expr_ok(*x),
        ast::Expression::FunctionCall(_, t, args) => {
            &&& (t matches ast::Type::Primitive(_, dims) ==> dims_positive(dims@))
            &&& forall|i: int| 0 <= i < args@.len() ==> expr_ok(#[trigger] args@[i])
        },
        _ => true,
    }
}

/// Is the operator a comparison, with a `bool` result?
pub open spec fn is_comparison(op: BinaryOp) -> bool {
    op is More || op is Less || op is MoreEqual || op is LessEqual || op is Equal || op is NotEqual
}

/// Is the operator a shift?
pub open spec fn is_shift(op: BinaryOp) -> bool {
    op is ShiftLeft || op is ShiftRight
}

/// Does the operator give a `bool`: a comparison, `||` or `&&`?
pub open spec fn gives_bool(op: BinaryOp) -> bool {
    is_comparison(op) || op is Or || op is And
}

/// May the operands be `bytesN` values?
pub open spec fn allows_bytes(op: BinaryOp) -> bool {
    op is BitwiseOr || op is BitwiseAnd || op is BitwiseXor || op is More || op is Less
        || op is MoreEqual || op is LessEqual
}

/// The type of the result of a binary operator on operands of these types,
/// when it is defined.
pub open spec fn binary_type(op: BinaryOp, l: Type, r: Type) -> Option<TypeV> {
    if is_shift(op) {
        if int_length(l, true) is Some && int_length(r, false) is Some { Some(l@) } else { None }
    } else if op is Equal || op is NotEqual {
        if l@ == r@ || coerce_int_result(l, r, true) is Some { Some(TypeV::Primitive(PrimitiveType::Bool)) } else { None }
    } else {
        match coerce_int_result(l, r, allows_bytes(op)) {
            Some(p) => if is_comparison(op) { Some(TypeV::Primitive(PrimitiveType::Bool)) } else { Some(TypeV::Primitive(p)) },
            None => None,
        }
    }
}

/// The type that both operands of an operator other than a shift are
/// converted to, where they differ in type or the operator is not `==`/`!=`.
pub open spec fn operand_type(op: BinaryOp, l: Type, r: Type) -> Option<PrimitiveType> {
    coerce_int_result(l, r, allows_bytes(op) || op is Equal || op is NotEqual)
}

/// Do the operands of `==` or `!=` have the same type, so that they are
/// compared as they are?
pub open spec fn same_type_equality(op: BinaryOp, l: Type, r: Type) -> bool {
    (op is Equal || op is NotEqual) && l@ == r@
}

/// Is the binary operator (other than `||` and `&&`) defined on operands of
/// these types, of which only the literal values matter: a shift needs
/// integers (the left one may be `bytesN`); `**` refuses signed operands; the
/// others need a common type to which both operands convert implicitly.
pub open spec fn binary_defined_view(op: BinaryOp, lv: LitView, lt: Type, rv: LitView, rt: Type, c: Contract) -> bool {
    if is_shift(op) {
        int_length(lt, true) is Some && int_length(rt, false) is Some
    } else if op is Power && (type_signed(lt@) || type_signed(rt@)) {
        false
    } else if same_type_equality(op, lt, rt) {
        true
    } else {
        match operand_type(op, lt, rt) {
            Some(p) => !(cast_outcome_view(lv, lt, Type::Primitive(p), true, c) is Refused)
                && !(cast_outcome_view(rv, rt, Type::Primitive(p), true, c) is Refused),
            None => false,
        }
    }
}

/// Is the binary operator (other than `||` and `&&`) defined on these
/// operands?
pub open spec fn binary_defined(op: BinaryOp, left: Expression, lt: Type, right: Expression, rt: Type, c: Contract) -> bool {
    binary_defined_view(op, lit_view(left), lt, lit_view(right), rt, c)
}

/// The operands of a node that the operator makes, where the node is of the
/// kind the operator and the signedness of the operands call for.
pub open spec fn binary_children(op: BinaryOp, e: Expression, signed: bool) -> Option<(Expression, Expression)> {
    match (op, e) {
        (BinaryOp::Add, Expression::Add(a, b)) => Some((*a, *b)),
        (BinaryOp::Subtract, Expression::Subtract(a, b)) => Some((*a, *b)),
        (BinaryOp::Multiply, Expression::Multiply(a, b)) => Some((*a, *b)),
        (BinaryOp::Divide, Expression::SDivide(a, b)) if signed => Some((*a, *b)),
        (BinaryOp::Divide, Expression::UDivide(a, b)) if !signed => Some((*a, *b)),
        (BinaryOp::Modulo, Expression::SModulo(a, b)) if signed => Some((*a, *b)),
        (BinaryOp::Modulo, Expression::UModulo(a, b)) if !signed => Some((*a, *b)),
        (BinaryOp::Power, Expression::Power(a, b)) => Some((*a, *b)),
        (BinaryOp::BitwiseOr, Expression::BitwiseOr(a, b)) => Some((*a, *b)),
        (BinaryOp::BitwiseAnd, Expression::BitwiseAnd(a, b)) => Some((*a, *b)),
        (BinaryOp::BitwiseXor, Expression::BitwiseXor(a, b)) => Some((*a, *b)),
        (BinaryOp::More, Expression::SMore(a, b)) if signed => Some((*a, *b)),
        (BinaryOp::More, Expression::UMore(a, b)) if !signed => Some((*a, *b)),
        (BinaryOp::Less, Expression::SLess(a, b)) if signed => Some((*a, *b)),
        (BinaryOp::Less, Expression::ULess(a, b)) if !signed => Some((*a, *b)),
        (BinaryOp::MoreEqual, Expression::SMoreEqual(a, b)) if signed => Some((*a, *b)),
        (BinaryOp::MoreEqual, Expression::UMoreEqual(a, b)) if !signed => Some((*a, *b)),
        (BinaryOp::LessEqual, Expression::SLessEqual(a, b)) if signed => Some((*a, *b)),
        (BinaryOp::LessEqual, Expression::ULessEqual(a, b)) if !signed => Some((*a, *b)),
        (BinaryOp::Equal, Expression::Equal(a, b)) => Some((*a, *b)),
        (BinaryOp::NotEqual, Expression::NotEqual(a, b)) => Some((*a, *b)),
        _ => None,
    }
}

/// The shift amount fitted to the width of the value shifted.
pub open spec fn shift_arg_done(e: Expression, amount: Expression, from_width: u16, ty: Type) -> bool {
    if from_width == ty_bits(ty) {
        e == amount
    } else if from_width < ty_bits(ty) {
        if type_signed(ty@) {
            e matches Expression::SignExt(t, x) && t@ == ty@ && *x == amount
        } else {
            e matches Expression::ZeroExt(t, x) && t@ == ty@ && *x == amount
        }
    } else {
        e matches Expression::Trunc(t, x) && t@ == ty@ && *x == amount
    }
}

/// The node that a defined binary operator makes: a shift keeps its left
/// operand and fits the amount to it; `==`/`!=` on operands of one type
/// compares them as they are; otherwise both operands are converted to the
/// common type, and the node is the signed one where that type is signed.
pub open spec fn binary_done(op: BinaryOp, left: Expression, lt: Type, right: Expression, rt: Type, c: Contract, e: Expression) -> bool {
    if is_shift(op) {
        let w = int_length(rt, false).unwrap().0;
        if op is ShiftLeft {
            e matches Expression::ShiftLeft(a, b) && *a == left && shift_arg_done(*b, right, w, lt)
        } else {
            e matches Expression::ShiftRight(a, b, s) && *a == left && shift_arg_done(*b, right, w, lt)
                && s == type_signed(lt@)
        }
    } else if same_type_equality(op, lt, rt) {
        binary_children(op, e, type_signed(lt@)) == Some((left, right))
    } else {
        let p = operand_type(op, lt, rt).unwrap();
        let ty = Type::Primitive(p);
        binary_children(op, e, p is Int) matches Some((a, b))
            && cast_done(Ok(a), left, ty, cast_outcome(left, lt, ty, true, c))
            && cast_done(Ok(b), right, ty, cast_outcome(right, rt, ty, true, c))
    }
}

/// Combine two resolved operands with a binary operator other than `||` and
/// `&&`: both are converted to their common type (a comparison gives `bool`,
/// a division, modulo or comparison of signed values is the signed one). A
/// shift keeps the type of its left operand and fits the right one to it.
/// `**` is not allowed on signed values.
#[verifier::rlimit(60)]
pub fn binary(
    loc: &Loc,
    op: BinaryOp,
    left: Expression,
    left_type: &Type,
    l_loc: &Loc,
    right: Expression,
    right_type: &Type,
    r_loc: &Loc,
    ns: &Contract,
    errors: &mut Vec<Output>,
) -> (r: Result<(Expression, Type), ()>)
    requires
        ns.wf(),
        !(op is Or) && !(op is And),
        type_wf(*left_type, ns.enums@.len(), ns.structs@.len()),
        type_wf(*right_type, ns.enums@.len(), ns.structs@.len()),
    ensures
        extends(old(errors)@, final(errors)@),
        r is Err ==> error_added(old(errors)@, final(errors)@),
        r is Ok ==> final(errors)@ == old(errors)@,
        r is Ok <==> binary_defined(op, left, *left_type, right, *right_type, *ns),
        r is Ok ==> binary_done(op, left, *left_type, right, *right_type, *ns, r.unwrap().0),
        r is Ok ==> binary_type(op, *left_type, *right_type) == Some(r.unwrap().1@),
        r is Ok ==> type_wf(r.unwrap().1, ns.enums@.len(), ns.structs@.len()),
        r is Ok ==> forall|n: nat| expression_wf(left, n, *ns) && expression_wf(right, n, *ns)
            ==> #[trigger] expression_wf(r.unwrap().0, n, *ns),
        op is Power && (type_signed(left_type@) || type_signed(right_type@)) ==> r is Err
            && final(errors)@ == old(errors)@.push(final(errors)@.last())
            && is_diag(final(errors)@.last(), Level::Error, ErrorType::SyntaxError, *loc,
                "exponation (**) is not allowed with signed types"@),
{
    let ghost e0 = errors@;
    if let BinaryOp::ShiftLeft | BinaryOp::ShiftRight = op {
        let _ = get_int_length(left_type, l_loc, true, ns, errors)?;
        let (right_length, _) = get_int_length(right_type, r_loc, false, ns, errors)?;
        let signed = left_type.signed();
        let shift = cast_shift_arg(right, right_length, left_type);
        let ghost sg = shift;
        let ghost lg = left;
        let e = if let BinaryOp::ShiftLeft = op {
            Expression::ShiftLeft(Box::new(left), Box::new(shift))
        } else {
            Expression::ShiftRight(Box::new(left), Box::new(shift), signed)
        };
        assert forall|n: nat| expression_wf(lg, n, *ns) && expression_wf(right, n, *ns) implies #[trigger] expression_wf(e, n, *ns) by {
            assert(expression_wf(sg, n, *ns));
        }
        return Ok((e, left_type.duplicate()));
    }
    if let BinaryOp::Power = op {
        if left_type.signed() || right_type.signed() {
            push_error(errors, Output::error(*loc, String::from_str("exponation (**) is not allowed with signed types")));
            return Err(());
        }
    }
    let ty = if let BinaryOp::Equal | BinaryOp::NotEqual = op {
        coerce(left_type, l_loc, right_type, r_loc, ns, errors)?
    } else {
        let allow = match op {
            BinaryOp::BitwiseOr | BinaryOp::BitwiseAnd | BinaryOp::BitwiseXor | BinaryOp::More
            | BinaryOp::Less | BinaryOp::MoreEqual | BinaryOp::LessEqual => true,
            _ => false,
        };
        coerce_int(left_type, l_loc, right_type, r_loc, allow, ns, errors)?
    };
    let ghost e1 = errors@;
    let l = cast(l_loc, left, left_type, &ty, true, ns, errors)?;
    let r = cast(r_loc, right, right_type, &ty, true, ns, errors)?;
    let signed = ty.signed();
    let ghost lg = l;
    let ghost rg = r;
    let l = Box::new(l);
    let r = Box::new(r);
    let e = match op {
        BinaryOp::Add => Expression::Add(l, r),
        BinaryOp::Subtract => Expression::Subtract(l, r),
        BinaryOp::Multiply => Expression::Multiply(l, r),
        BinaryOp::Divide => if signed { Expression::SDivide(l, r) } else { Expression::UDivide(l, r) },
        BinaryOp::Modulo => if signed { Expression::SModulo(l, r) } else { Expression::UModulo(l, r) },
        BinaryOp::Power => Expression::Power(l, r),
        BinaryOp::BitwiseOr => Expression::BitwiseOr(l, r),
        BinaryOp::BitwiseAnd => Expression::BitwiseAnd(l, r),
        BinaryOp::BitwiseXor => Expression::BitwiseXor(l, r),
        BinaryOp::More => if signed { Expression::SMore(l, r) } else { Expression::UMore(l, r) },
        BinaryOp::Less => if signed { Expression::SLess(l, r) } else { Expression::ULess(l, r) },
        BinaryOp::MoreEqual => if signed { Expression::SMoreEqual(l, r) } else { Expression::UMoreEqual(l, r) },
        BinaryOp::LessEqual => if signed { Expression::SLessEqual(l, r) } else { Expression::ULessEqual(l, r) },
        BinaryOp::Equal => Expression::Equal(l, r),
        BinaryOp::NotEqual => Expression::NotEqual(l, r),
        _ => Expression::Poison,
    };
    assert forall|n: nat| expression_wf(left, n, *ns) && expression_wf(right, n, *ns) implies #[trigger] expression_wf(e, n, *ns) by {
        assert(expression_wf(lg, n, *ns));
        assert(expression_wf(rg, n, *ns));
    }
    let t = match op {
        BinaryOp::More | BinaryOp::Less | BinaryOp::MoreEqual | BinaryOp::LessEqual
        | BinaryOp::Equal | BinaryOp::NotEqual => Type::new_bool(),
        _ => ty,
    };
    Ok((e, t))
}


/// The node a unary operator makes of its operand: `!` negates the operand
/// converted to `bool`, `~` and `-` wrap it, `+` is the operand itself.
pub open spec fn unary_done(op: UnaryOp, x: Expression, t: Type, c: Contract, e: Expression) -> bool {
    let b = Type::Primitive(PrimitiveType::Bool);
    match op {
        UnaryOp::Not => e matches Expression::Not(a) && cast_done(Ok(*a), x, b, cast_outcome(x, t, b, true, c)),
        UnaryOp::Complement => e == Expression::Complement(Box::new(x)),
        UnaryOp::UnaryMinus => e == Expression::UnaryMinus(Box::new(x)),
        UnaryOp::UnaryPlus => e == x,
    }
}

/// Apply a unary operator to a resolved operand: `!` needs a `bool`, `~`
/// an integer or `bytesN`, `-` and `+` an integer; `+` leaves the operand as
/// it is.
pub fn unary(loc: &Loc, op: UnaryOp, x: Expression, t: Type, ns: &Contract, errors: &mut Vec<Output>)
    -> (r: Result<(Expression, Type), ()>)
    requires
        ns.wf(),
        type_wf(t, ns.enums@.len(), ns.structs@.len()),
    ensures
        extends(old(errors)@, final(errors)@),
        r is Err ==> error_added(old(errors)@, final(errors)@),
        r is Ok ==> type_wf(r.unwrap().1, ns.enums@.len(), ns.structs@.len()),
        r is Ok ==> forall|n: nat| expression_wf(x, n, *ns) ==> #[trigger] expression_wf(r.unwrap().0, n, *ns),
        r is Ok && op is Not ==> r.unwrap().1@ == TypeV::Primitive(PrimitiveType::Bool),
        r is Ok && !(op is Not) ==> r.unwrap().1@ == t@,
        op is Complement ==> (r is Ok <==> int_length(t, true) is Some),
        op is UnaryMinus || op is UnaryPlus ==> (r is Ok <==> int_length(t, false) is Some),
        op is Not ==> (r is Ok <==> !(cast_outcome(x, t, Type::Primitive(PrimitiveType::Bool), true, *ns) is Refused)),
        r is Ok ==> unary_done(op, x, t, *ns, r.unwrap().0),
        r is Ok ==> final(errors)@ == old(errors)@,
        r is Ok && !(op is Not) ==> r.unwrap().1 == t,
{
    let ghost e0 = errors@;
    match op {
        UnaryOp::Not => {
            let b = Type::new_bool();
            let e = cast(loc, x, &t, &b, true, ns, errors);
            match e {
                Ok(e) => {
                    let ghost eg = e;
                    let r = Expression::Not(Box::new(e));
                    assert forall|n: nat| expression_wf(x, n, *ns) implies #[trigger] expression_wf(r, n, *ns) by {
                        assert(expression_wf(eg, n, *ns));
                    }
                    Ok((r, b))
                },
                Err(()) => {
                    proof { lemma_pushed_error(e0, errors@); }
                    Err(())
                },
            }
        },
        UnaryOp::Complement => {
            match get_int_length(&t, loc, true, ns, errors) {
                Ok(_) => Ok((Expression::Complement(Box::new(x)), t)),
                Err(()) => {
                    proof { lemma_pushed_error(e0, errors@); }
                    Err(())
                },
            }
        },
        UnaryOp::UnaryMinus => {
            match get_int_length(&t, loc, false, ns, errors) {
                Ok(_) => Ok((Expression::UnaryMinus(Box::new(x)), t)),
                Err(()) => {
                    proof { lemma_pushed_error(e0, errors@); }
                    Err(())
                },
            }
        },
        UnaryOp::UnaryPlus => {
            match get_int_length(&t, loc, false, ns, errors) {
                Ok(_) => Ok((x, t)),
                Err(()) => {
                    proof { lemma_pushed_error(e0, errors@); }
                    Err(())
                },
            }
        },
    }
}

/// The text of the pieces of a string literal, escapes replaced, while all
/// escapes are valid.
pub open spec fn unescaped_all(v: Seq<ast::StringLiteral>) -> Option<Seq<char>>
    decreases v.len(),
{
    if v.len() == 0 {
        Some(Seq::empty())
    } else {
        match (unescaped_all(v.drop_last()), unescaped(v.last().string@)) {
            (Some(a), Some(b)) => Some(a + b),
            _ => None,
        }
    }
}

/// A string literal is its UTF-8 bytes, of type `bytesN` for its length (the
/// length is taken modulo 256). An invalid escape is an error at the piece
/// that holds it.
pub fn string_literal(v: &Vec<ast::StringLiteral>, errors: &mut Vec<Output>) -> (r: Result<(Expression, Type), ()>)
    ensures
        extends(old(errors)@, final(errors)@),
        unescaped_all(v@) is None <==> r is Err,
        r is Err ==> error_added(old(errors)@, final(errors)@),
        r is Ok ==> final(errors)@ == old(errors)@,
        unescaped_all(v@) matches Some(text) ==> (r matches Ok((e, t)) && (e matches Expression::BytesLiteral(b)
            && b@ == vstd::utf8::encode_utf8(text)
            && t@ == TypeV::Primitive(PrimitiveType::Bytes((b@.len() % 256) as u8)))),
{
    let mut result = String::new();
    let mut i: usize = 0;
    while i < v.len()
        invariant
            0 <= i <= v@.len(),
            unescaped_all(v@.take(i as int)) == Some(result@),
            errors@ == old(errors)@,
        decreases v@.len() - i,
    {
        proof {
            assert(v@.take(i + 1).drop_last() =~= v@.take(i as int));
        }
        match unescape_text(v[i].string.as_str()) {
            Some(t) => {
                result = join2(result.as_str(), t.as_str());
            },
            None => {
                proof {
                    if unescaped_all(v@) is Some {
                        lemma_unescaped_prefix(v@, i as int + 1);
                    }
                }
                let msg = join3("string \"", v[i].string.as_str(), "\" has invalid escape");
                push_error(errors, Output::error(v[i].loc, msg));
                return Err(());
            },
        }
        i += 1;
    }
    assert(v@.take(v@.len() as int) =~= v@);
    let bytes = result.as_str().as_bytes_vec();
    let length = bytes.len();
    Ok((Expression::BytesLiteral(bytes), Type::Primitive(PrimitiveType::Bytes((length % 256) as u8))))
}

/// A prefix of pieces whose escapes are valid has valid escapes.
proof fn lemma_unescaped_prefix(v: Seq<ast::StringLiteral>, k: int)
    requires
        0 <= k <= v.len(),
        unescaped_all(v) is Some,
    ensures
        unescaped_all(v.take(k)) is Some,
    decreases v.len(),
{
    if k < v.len() {
        assert(v.drop_last().take(k) =~= v.take(k));
        lemma_unescaped_prefix(v.drop_last(), k);
    } else {
        assert(v.take(k) =~= v);
    }
}

/// The bytes of the pieces of a hex literal, while each has an even number of
/// digits.
pub open spec fn hex_all(v: Seq<ast::HexLiteral>) -> Option<Seq<u8>>
    decreases v.len(),
{
    if v.len() == 0 {
        Some(Seq::empty())
    } else {
        match hex_all(v.drop_last()) {
            Some(a) => if v.last().hex@.len() % 2 == 0 { Some(a + hex_bytes(v.last().hex@)) } else { None },
            None => None,
        }
    }
}

/// A hex literal is its bytes, of type `bytesN` for its length (modulo 256). A
/// piece with an odd number of digits is an error.
pub fn hex_literal(v: &Vec<ast::HexLiteral>, errors: &mut Vec<Output>) -> (r: Result<(Expression, Type), ()>)
    requires
        forall|i: int| 0 <= i < v@.len() ==> all_hex_digits((#[trigger] v@[i]).hex@),
    ensures
        extends(old(errors)@, final(errors)@),
        hex_all(v@) is None <==> r is Err,
        r is Err ==> error_added(old(errors)@, final(errors)@),
        r is Ok ==> final(errors)@ == old(errors)@,
        hex_all(v@) matches Some(bytes) ==> (r matches Ok((e, t)) && (e matches Expression::BytesLiteral(b)
            && b@ == bytes && t@ == TypeV::Primitive(PrimitiveType::Bytes((bytes.len() % 256) as u8)))),
{
    let mut result: Vec<u8> = Vec::new();
    let mut i: usize = 0;
    while i < v.len()
        invariant
            0 <= i <= v@.len(),
            forall|i: int| 0 <= i < v@.len() ==> all_hex_digits((#[trigger] v@[i]).hex@),
            hex_all(v@.take(i as int)) == Some(result@),
            errors@ == old(errors)@,
        decreases v@.len() - i,
    {
        proof {
            assert(v@.take(i + 1).drop_last() =~= v@.take(i as int));
        }
        if v[i].hex.unicode_len() % 2 != 0 {
            proof {
                if hex_all(v@) is Some {
                    lemma_hex_prefix(v@, i as int + 1);
                }
            }
            let msg = join3("hex string \"", v[i].hex.as_str(), "\" has odd number of characters");
            push_error(errors, Output::error(v[i].loc, msg));
            return Err(());
        }
        assert(all_hex_digits(v@[i as int].hex@));
        match hex_decode(v[i].hex.as_str()) {
            Some(mut bytes) => {
                result.append(&mut bytes);
            },
            None => {
                return vstd::pervasive::unreached();
            },
        }
        i += 1;
    }
    assert(v@.take(v@.len() as int) =~= v@);
    let length = result.len();
    Ok((Expression::BytesLiteral(result), Type::Primitive(PrimitiveType::Bytes((length % 256) as u8))))
}

/// A prefix of pieces with an even number of digits has an even number of digits.
proof fn lemma_hex_prefix(v: Seq<ast::HexLiteral>, k: int)
    requires
        0 <= k <= v.len(),
        hex_all(v) is Some,
    ensures
        hex_all(v.take(k)) is Some,
    decreases v.len(),
{
    if k < v.len() {
        assert(v.drop_last().take(k) =~= v.take(k));
        lemma_hex_prefix(v.drop_last(), k);
    } else {
        assert(v.take(k) =~= v);
    }
}

/// An address literal is a 160 bit number when it has the right checksum;
/// otherwise an error says what the checksummed form is.
pub fn address_literal(loc: &Loc, n: &String, errors: &mut Vec<Output>) -> (r: Result<(Expression, Type), ()>)
    requires
        2 < n@.len() <= 66,
        all_hex_digits(n@.skip(2)),
    ensures
        extends(old(errors)@, final(errors)@),
        eip55_text(n@) == n@ ==> (r matches Ok((e, t)) && (e matches Expression::NumberLiteral(w, v)
            && w == 160 && v@ == hex_value(n@.skip(2)))
            && t@ == TypeV::Primitive(PrimitiveType::Address)) && final(errors)@ == old(errors)@,
        eip55_text(n@) != n@ ==> r is Err && error_added(old(errors)@, final(errors)@)
            && final(errors)@ == old(errors)@.push(final(errors)@.last())
            && is_diag(final(errors)@.last(), Level::Error, ErrorType::SyntaxError, *loc,
                "address literal has incorrect checksum, expected ‘"@ + eip55_text(n@) + "’"@),
{
    let address = to_hexstr_eip55(n.as_str());
    if address == *n {
        let len = n.as_str().unicode_len();
        let digits = n.as_str().substring_char(2, len);
        assert(digits@ =~= n@.skip(2));
        match big_from_hex(digits) {
            Some(v) => Ok((Expression::NumberLiteral(160, v), Type::Primitive(PrimitiveType::Address))),
            None => vstd::pervasive::unreached(),
        }
    } else {
        let msg = join3("address literal has incorrect checksum, expected ‘", address.as_str(), "’");
        push_error(errors, Output::error(*loc, msg));
        Err(())
    }
}


/// Does a name resolve to a variable: one declared in an open scope, a
/// contract variable already used in the function, or a contract variable?
pub open spec fn var_resolves(vt: Vartable, c: Contract, name: Seq<char>) -> bool {
    ||| vt.declared(name)
    ||| vt.storage_bound(name)
    ||| lookup(c.symbols@, name) matches Some(Symbol::Variable(_, _))
}

/// Does the current block end with an assignment to position `p`, followed
/// by its store where `p` holds a contract variable?
pub open spec fn ends_with_assign(g: ControlFlowGraph, p: usize) -> bool {
    let b = g.bb@[g.current as int].instr@;
    ||| (b.len() >= 1 && (b.last() matches Instr::Assign { res, .. } && res == p))
    ||| (b.len() >= 2 && (b[b.len() - 2] matches Instr::Assign { res, .. } && res == p)
        && (b.last() matches Instr::SetStorage { local, .. } && local == p))
}

/// Look a variable up for use in an expression, loading a contract variable
/// into its local first.
pub fn find_variable(id: &ast::Identifier, cfg: &mut ControlFlowGraph, ns: &Contract, vartab: &mut Vartable, errors: &mut Vec<Output>)
    -> (r: Result<Variable, ()>)
    requires
        ns.wf(),
        state_wf(*old(cfg), *old(vartab), *ns),
    ensures
        progressed(*old(cfg), *final(cfg), *old(vartab), *final(vartab), *ns),
        extends(old(errors)@, final(errors)@),
        r is Err ==> error_added(old(errors)@, final(errors)@),
        r is Ok ==> final(errors)@ == old(errors)@,
        r is Ok ==> ({
            let v = r.unwrap();
            &&& v.pos < final(vartab).len()
            &&& v.id.name@ == id.name@
            &&& v.ty@ == final(vartab).var(v.pos as int).ty@
            &&& final(vartab).var(v.pos as int).id.name@ == id.name@
            &&& v.storage == final(vartab).var(v.pos as int).storage
            &&& type_wf(v.ty, ns.enums@.len(), ns.structs@.len())
            &&& (v.storage matches Storage::Constant(k) ==> k < ns.constants@.len())
        }),
        r is Ok <==> var_resolves(*old(vartab), *ns, id.name@),
{
    let ghost g0 = *cfg;
    let ghost v0 = *vartab;
    let ghost e0 = errors@;
    let found = vartab.find(id, ns, errors);
    proof {
        lemma_table_grew(g0, v0, *vartab, *ns);
    }
    match found {
        Ok(v) => {
            proof {
                vartab.lemma_types_wf_var(*ns, v.pos as int);
            }
            let ghost v1 = *vartab;
            get_contract_storage(&v, cfg, vartab);
            proof {
                Vartable::lemma_grows_trans(&v0, &v1, &*vartab);
                Vartable::lemma_same_scopes_trans(&*vartab, &v1, &v0);
                Vartable::lemma_grows_len(&v1, &*vartab);
            }
            Ok(v)
        },
        Err(()) => {
            proof { lemma_pushed_error(e0, errors@); }
            Err(())
        },
    }
}

/// Resolve a variable that is read: its local, loaded from the contract
/// first where it is a contract variable.
pub fn read_variable(id: &ast::Identifier, cfg: &mut ControlFlowGraph, ns: &Contract, vartab: &mut Vartable, errors: &mut Vec<Output>)
    -> (r: Result<(Expression, Type), ()>)
    requires
        ns.wf(),
        state_wf(*old(cfg), *old(vartab), *ns),
    ensures
        progressed(*old(cfg), *final(cfg), *old(vartab), *final(vartab), *ns),
        extends(old(errors)@, final(errors)@),
        r is Err ==> error_added(old(errors)@, final(errors)@),
        r is Ok ==> expression_wf(r.unwrap().0, final(vartab).len(), *ns) && type_wf(r.unwrap().1, ns.enums@.len(), ns.structs@.len()),
        r is Ok ==> (r.unwrap().0 matches Expression::Variable(l, p) && l == id.loc && p < final(vartab).len()
            && r.unwrap().1@ == final(vartab).var(p as int).ty@ && final(vartab).var(p as int).id.name@ == id.name@),
        r is Ok <==> var_resolves(*old(vartab), *ns, id.name@),
{
    let v = find_variable(id, cfg, ns, vartab, errors)?;
    Ok((Expression::Variable(id.loc, v.pos), v.ty))
}


/// `++` and `--`, before or after: the variable (an integer) is changed by one
/// and the value before or after is kept in a temporary, which is the result.
pub fn inc_dec(loc: &Loc, op: IncDecOp, id: &ast::Identifier, cfg: &mut ControlFlowGraph, ns: &Contract,
    vartab: &mut Vartable, errors: &mut Vec<Output>) -> (r: Result<(Expression, Type), ()>)
    requires
        ns.wf(),
        state_wf(*old(cfg), *old(vartab), *ns),
    ensures
        progressed(*old(cfg), *final(cfg), *old(vartab), *final(vartab), *ns),
        extends(old(errors)@, final(errors)@),
        r is Err ==> error_added(old(errors)@, final(errors)@),
        r is Ok ==> expression_wf(r.unwrap().0, final(vartab).len(), *ns) && type_wf(r.unwrap().1, ns.enums@.len(), ns.structs@.len()),
        r is Ok ==> int_length(r.unwrap().1, false) is Some,
        r is Ok ==> (r.unwrap().0 matches Expression::Variable(l, t) && l == id.loc && old(vartab).len() <= t < final(vartab).len()
            && final(vartab).var(t as int).ty@ == r.unwrap().1@),
        r is Ok ==> (r.unwrap().0 matches Expression::Variable(_, t) && exists|p: int| 0 <= p < t
            && #[trigger] final(vartab).var(p).id.name@ == id.name@ && final(vartab).var(p).ty@ == r.unwrap().1@),
{
    let ghost g0 = *cfg;
    let ghost v0 = *vartab;
    let ghost e0 = errors@;
    let var = find_variable(id, cfg, ns, vartab, errors)?;
    let ghost g1 = *cfg;
    let ghost v1 = *vartab;
    let ghost e1 = errors@;
    let pos = var.pos;
    let ty = var.ty.duplicate();
    match get_int_length(&ty, loc, false, ns, errors) {
        Ok(_) => {},
        Err(()) => {
            proof { lemma_pushed_error(e1, errors@); }
            return Err(());
        },
    }
    let temp_pos = vartab.temp(id, &ty);
    let ghost v2 = *vartab;
    proof {
        lemma_table_grew(g1, v1, v2, *ns);
        Vartable::lemma_grows_trans(&v0, &v1, &v2);
        Vartable::lemma_same_scopes_trans(&v2, &v1, &v0);
        Vartable::lemma_grows_len(&v1, &v2);
        assert(progressed(g1, g1, v1, v2, *ns));
        lemma_progressed_trans(g0, g1, g1, v0, v1, v2, *ns);
    }
    let one = Expression::NumberLiteral(ty.bits(), BigNum::from_u64(1));
    let ghost one_g = one;
    let var_expr = Expression::Variable(id.loc, pos);
    assert(expression_wf(var_expr, vartab.len(), *ns));
    let changed = match op {
        IncDecOp::PostIncrement | IncDecOp::PreIncrement => Expression::Add(Box::new(var_expr), Box::new(one)),
        _ => Expression::Subtract(Box::new(var_expr), Box::new(one)),
    };
    assert(expression_wf(one_g, vartab.len(), *ns));
    assert(expression_wf(changed, vartab.len(), *ns));
    let is_post = match op {
        IncDecOp::PostIncrement | IncDecOp::PostDecrement => true,
        _ => false,
    };
    let (first, second) = if is_post {
        (Instr::Assign { res: temp_pos, expr: Expression::Variable(id.loc, pos) }, Instr::Assign { res: pos, expr: changed })
    } else {
        (Instr::Assign { res: pos, expr: changed }, Instr::Assign { res: temp_pos, expr: Expression::Variable(id.loc, pos) })
    };
    emit(cfg, vartab, ns, first);
    let ghost g2 = *cfg;
    let ghost v2b = *vartab;
    proof { lemma_progressed_trans(g0, g1, g2, v0, v2, v2b, *ns); }
    emit(cfg, vartab, ns, second);
    let ghost g3 = *cfg;
    let ghost v3 = *vartab;
    proof {
        lemma_progressed_trans(g0, g2, g3, v0, v2b, v3, *ns);
    }
    match set_contract_storage(id, &var, cfg, vartab, errors) {
        Ok(()) => {},
        Err(()) => {
            proof {
                lemma_pushed_error(e1, errors@);
                Vartable::lemma_grows_trans(&v0, &v3, &*vartab);
                Vartable::lemma_same_scopes_trans(&*vartab, &v3, &v0);
            }
            return Err(());
        },
    }
    proof {
        Vartable::lemma_grows_trans(&v0, &v3, &*vartab);
        Vartable::lemma_same_scopes_trans(&*vartab, &v3, &v0);
        Vartable::lemma_grows_trans(&v2, &v2b, &v3);
        Vartable::lemma_grows_trans(&v2, &v3, &*vartab);
        Vartable::lemma_grows_parts(&v2, &*vartab);
        Vartable::lemma_grows_len(&v0, &v1);
        Vartable::lemma_grows_parts(&v1, &v2);
        assert(vartab.var(pos as int) == v1.var(pos as int));
        assert(vartab.var(pos as int).id.name@ == id.name@ && vartab.var(pos as int).ty@ == ty@);
    }
    Ok((Expression::Variable(id.loc, temp_pos), ty))
}


/// Is `a` before `b` when pairs of width and signedness are compared
/// (width first, unsigned before signed)?
pub open spec fn length_before(a: (u16, bool), b: (u16, bool)) -> bool {
    a.0 < b.0 || (a.0 == b.0 && !a.1 && b.1)
}

/// Fit the shift amount of `<<=` and `>>=` to the variable's type.
fn fit_shift(set: Expression, set_type: &Type, ty: &Type, left: (u16, bool), right: (u16, bool)) -> (r: Expression)
    ensures
        forall|n: nat, c: Contract| expression_wf(set, n, c) && type_wf(*ty, c.enums@.len(), c.structs@.len())
            ==> #[trigger] expression_wf(r, n, c),
        left == right ==> r == set,
        left != right && length_before(right, left) && type_signed(set_type@) ==> (r matches Expression::SignExt(t, x) && t@ == ty@ && *x == set),
        left != right && length_before(right, left) && !type_signed(set_type@) ==> (r matches Expression::ZeroExt(t, x) && t@ == ty@ && *x == set),
        left != right && !length_before(right, left) ==> (r matches Expression::Trunc(t, x) && t@ == ty@ && *x == set),
{
    let before = right.0 < left.0 || (right.0 == left.0 && !right.1 && left.1);
    if left.0 == right.0 && left.1 == right.1 {
        set
    } else if before && set_type.signed() {
        Expression::SignExt(ty.duplicate(), Box::new(set))
    } else if before {
        Expression::ZeroExt(ty.duplicate(), Box::new(set))
    } else {
        Expression::Trunc(ty.duplicate(), Box::new(set))
    }
}

/// Assignment and compound assignment to a variable. The value is converted
/// to the variable's type (a shift amount is fitted to it); a compound
/// assignment needs an integer or `bytesN` variable. The result is the
/// variable; a contract variable is stored after the assignment.
#[verifier::rlimit(60)]
pub fn assign(loc: &Loc, op: AssignOp, id: &ast::Identifier, set: Expression, set_type: &Type, e_loc: &Loc,
    cfg: &mut ControlFlowGraph, ns: &Contract, vartab: &mut Vartable, errors: &mut Vec<Output>)
    -> (r: Result<(Expression, Type), ()>)
    requires
        ns.wf(),
        state_wf(*old(cfg), *old(vartab), *ns),
        expression_wf(set, old(vartab).len(), *ns),
        type_wf(*set_type, ns.enums@.len(), ns.structs@.len()),
    ensures
        progressed(*old(cfg), *final(cfg), *old(vartab), *final(vartab), *ns),
        extends(old(errors)@, final(errors)@),
        r is Err ==> error_added(old(errors)@, final(errors)@),
        r is Ok ==> expression_wf(r.unwrap().0, final(vartab).len(), *ns) && type_wf(r.unwrap().1, ns.enums@.len(), ns.structs@.len()),
        r is Ok ==> (r.unwrap().0 matches Expression::Variable(l, p) && l == id.loc && p < final(vartab).len()
            && r.unwrap().1@ == final(vartab).var(p as int).ty@ && final(vartab).var(p as int).id.name@ == id.name@),
        r is Ok ==> (r.unwrap().0 matches Expression::Variable(_, p) && ends_with_assign(*final(cfg), p)),
{
    let ghost g0 = *cfg;
    let ghost v0 = *vartab;
    let ghost e0 = errors@;
    let ghost set_g = set;
    let var = if let AssignOp::Assign = op {
        let found = vartab.find(id, ns, errors);
        proof { lemma_table_grew(g0, v0, *vartab, *ns); }
        match found {
            Ok(v) => {
                proof { vartab.lemma_types_wf_var(*ns, v.pos as int); }
                v
            },
            Err(()) => {
                proof { lemma_pushed_error(e0, errors@); }
                return Err(());
            },
        }
    } else {
        find_variable(id, cfg, ns, vartab, errors)?
    };
    let ghost g1 = *cfg;
    let ghost v1 = *vartab;
    let ghost e1 = errors@;
    proof {
        Vartable::lemma_grows_len(&v0, &v1);
        lemma_expression_wf_grow(set, v0.len(), v1.len(), *ns);
        if op is Assign {
            lemma_progressed_refl(g0, v1, *ns);
            assert(progressed(g0, g1, v0, v1, *ns));
        }
    }
    let pos = var.pos;
    let ty = var.ty.duplicate();
    let value = if let AssignOp::Assign = op {
        match cast(&id.loc, set, set_type, &ty, true, ns, errors) {
            Ok(e) => e,
            Err(()) => {
                proof { lemma_pushed_error(e1, errors@); }
                return Err(());
            },
        }
    } else {
        let ok_type = match &ty {
            Type::Primitive(PrimitiveType::Bytes(_)) | Type::Primitive(PrimitiveType::Int(_)) | Type::Primitive(PrimitiveType::Uint(_)) => true,
            _ => false,
        };
        if !ok_type {
            let msg = join4("variable ", id.name.as_str(), " of incorrect type ", ty.to_string(ns).as_str());
            push_error(errors, Output::error(id.loc, msg));
            return Err(());
        }
        let set = if let AssignOp::AssignShiftLeft | AssignOp::AssignShiftRight = op {
            let left = match get_int_length(&ty, loc, true, ns, errors) {
                Ok(x) => x,
                Err(()) => {
                    proof { lemma_pushed_error(e1, errors@); }
                    return Err(());
                },
            };
            let right = match get_int_length(set_type, e_loc, false, ns, errors) {
                Ok(x) => x,
                Err(()) => {
                    proof { lemma_pushed_error(e1, errors@); }
                    return Err(());
                },
            };
            fit_shift(set, set_type, &ty, left, right)
        } else {
            match cast(&id.loc, set, set_type, &ty, true, ns, errors) {
                Ok(e) => e,
                Err(()) => {
                    proof { lemma_pushed_error(e1, errors@); }
                    return Err(());
                },
            }
        };
        let ghost sg = set;
        let v = Box::new(Expression::Variable(id.loc, pos));
        let s = Box::new(set);
        let signed = ty.signed();
        let e = match op {
            AssignOp::AssignAdd => Expression::Add(v, s),
            AssignOp::AssignSubtract => Expression::Subtract(v, s),
            AssignOp::AssignMultiply => Expression::Multiply(v, s),
            AssignOp::AssignOr => Expression::BitwiseOr(v, s),
            AssignOp::AssignAnd => Expression::BitwiseAnd(v, s),
            AssignOp::AssignXor => Expression::BitwiseXor(v, s),
            AssignOp::AssignShiftLeft => Expression::ShiftLeft(v, s),
            AssignOp::AssignShiftRight => Expression::ShiftRight(v, s, signed),
            AssignOp::AssignDivide => if signed { Expression::SDivide(v, s) } else { Expression::UDivide(v, s) },
            AssignOp::AssignModulo => if signed { Expression::SModulo(v, s) } else { Expression::UModulo(v, s) },
            AssignOp::Assign => Expression::Poison,
        };
        assert(expression_wf(Expression::Variable(id.loc, pos), v1.len(), *ns));
        assert(expression_wf(sg, v1.len(), *ns));
        assert(expression_wf(e, v1.len(), *ns));
        e
    };
    emit(cfg, vartab, ns, Instr::Assign { res: pos, expr: value });
    let ghost g2 = *cfg;
    let ghost v2 = *vartab;
    proof { lemma_progressed_trans(g0, g1, g2, v0, v1, v2, *ns); }
    match set_contract_storage(id, &var, cfg, vartab, errors) {
        Ok(()) => {},
        Err(()) => {
            proof {
                lemma_pushed_error(errors@.drop_last(), errors@);
                Vartable::lemma_grows_trans(&v0, &v2, &*vartab);
                Vartable::lemma_same_scopes_trans(&*vartab, &v2, &v0);
            }
            return Err(());
        },
    }
    proof {
        Vartable::lemma_grows_trans(&v0, &v2, &*vartab);
        Vartable::lemma_same_scopes_trans(&*vartab, &v2, &v0);
        Vartable::lemma_grows_trans(&v1, &v2, &*vartab);
        Vartable::lemma_grows_len(&v1, &*vartab);
    }
    Ok((Expression::Variable(id.loc, pos), var.ty))
}


/// Does the enum have a value with this name?
pub open spec fn has_enum_value(d: EnumDecl, name: Seq<char>) -> bool {
    exists|k: int| 0 <= k < d.values@.len() && (#[trigger] d.values@[k]).0@ == name
}

/// `E.v` for a value of an enum, which is a number literal of the enum's
/// width and has the enum's type; `x.length` for a `bytesN` or an array
/// variable. Anything else is an error.
pub fn member_access(loc: &Loc, namespace: &ast::Identifier, id: &ast::Identifier, cfg: &mut ControlFlowGraph,
    ns: &Contract, vartab: &mut Vartable, constant: bool, errors: &mut Vec<Output>)
    -> (r: Result<(Expression, Type), ()>)
    requires
        ns.wf(),
        state_wf(*old(cfg), *old(vartab), *ns),
    ensures
        progressed(*old(cfg), *final(cfg), *old(vartab), *final(vartab), *ns),
        *final(cfg) == *old(cfg),
        constant ==> *final(vartab) == *old(vartab),
        extends(old(errors)@, final(errors)@),
        r is Err ==> error_added(old(errors)@, final(errors)@),
        r is Ok ==> expression_wf(r.unwrap().0, final(vartab).len(), *ns) && type_wf(r.unwrap().1, ns.enums@.len(), ns.structs@.len()),
        lookup(ns.symbols@, namespace.name@) matches Some(Symbol::Enum(_, e)) ==> {
            &&& (r is Ok <==> has_enum_value(ns.enums@[e as int], id.name@))
            &&& r is Ok ==> (r.unwrap().1@ == TypeV::Enum(e) && exists|k: int| 0 <= k < ns.enums@[e as int].values@.len()
                && (#[trigger] ns.enums@[e as int].values@[k]).0@ == id.name@
                && (r.unwrap().0 matches Expression::NumberLiteral(w, v) && v@ == ns.enums@[e as int].values@[k].2))
        },
{
    let ghost v0 = *vartab;
    proof { lemma_progressed_refl(*cfg, *vartab, *ns); }
    match ns.resolve_enum(namespace) {
        Some(e) => {
            proof {
                lemma_symbol_index(ns.symbols@, namespace.name@);
                let i = symbol_index(ns.symbols@, namespace.name@).unwrap();
                assert(symbol_wf(ns.symbols@[i].1, *ns));
                assert(lookup(ns.symbols@, namespace.name@) == Some(ns.symbols@[i].1));
                assert(e < ns.enums@.len());
                assert(ns.enums@[e as int].ty is Uint);
            }
            let values = &ns.enums[e].values;
            let mut k: usize = 0;
            while k < values.len()
                invariant
                    0 <= k <= values@.len(),
                    e < ns.enums@.len(),
                    ns.enums@[e as int].ty is Uint,
                    values == ns.enums@[e as int].values,
                    *cfg == *old(cfg),
                    *vartab == *old(vartab),
                    progressed(*old(cfg), *old(cfg), *old(vartab), *old(vartab), *ns),
                    lookup(ns.symbols@, namespace.name@) matches Some(Symbol::Enum(_, x)) && x == e,
                    forall|j: int| 0 <= j < k ==> (#[trigger] values@[j]).0@ != id.name@,
                decreases values@.len() - k,
            {
                if values[k].0 == id.name {
                    let val = values[k].2;
                    let lit = Expression::NumberLiteral(ns.enums[e].ty.bits(), BigNum::from_u64(val as u64));
                    assert(ns.enums@[e as int].values@[k as int].0@ == id.name@);
                    return Ok((lit, Type::Enum(e)));
                }
                k += 1;
            }
            let msg = join4("enum ", ns.enums[e].name.as_str(), " does not have value ", id.name.as_str());
            push_error(errors, Output::error(id.loc, msg));
            Err(())
        },
        None => {
            if !constant {
                let ghost e0 = errors@;
                let ghost g0 = *cfg;
                let found = vartab.find(namespace, ns, errors);
                proof {
                    lemma_table_grew(g0, v0, *vartab, *ns);
                }
                match found {
                    Ok(var) => {
                        proof { vartab.lemma_types_wf_var(*ns, var.pos as int); }
                        let length = String::from_str("length");
                        if id.name == length {
                            match &var.ty {
                                Type::Primitive(PrimitiveType::Bytes(n)) => {
                                    let lit = Expression::NumberLiteral(8, BigNum::from_u64(*n as u64));
                                    return Ok((lit, Type::Primitive(PrimitiveType::Uint(8))));
                                },
                                Type::FixedArray(_, dim) => {
                                    assert(dims_view(dim@).len() == dim@.len());
                                    let ghost e1 = errors@;
                                    let res = bigint_to_expression(loc, &dim[dim.len() - 1], errors);
                                    proof {
                                        if res is Err {
                                            lemma_pushed_error(e1, errors@);
                                        }
                                    }
                                    return res;
                                },
                                _ => {},
                            }
                        }
                    },
                    Err(()) => {
                        proof { lemma_pushed_error(e0, errors@); }
                        return Err(());
                    },
                }
            }
            push_error(errors, Output::error(*loc, String::from_str("not found")));
            Err(())
        },
    }
}

/// The type of an element of an array type: the last dimension is dropped.
pub open spec fn element_type(t: TypeV) -> TypeV {
    match t {
        TypeV::FixedArray(ty, dims) => if dims.len() > 1 { TypeV::FixedArray(ty, dims.drop_last()) } else { *ty },
        _ => t,
    }
}

/// The type of an element of an array.
fn element(t: &Type) -> (r: Type)
    requires
        t matches Type::FixedArray(_, dims) && dims@.len() >= 1,
    ensures
        r@ == element_type(t@),
        forall|a: nat, b: nat| type_wf(*t, a, b) ==> #[trigger] type_wf(r, a, b),
{
    match t {
        Type::FixedArray(ty, dims) => {
            if dims.len() > 1 {
                let d = t.deref();
                d
            } else {
                ty.duplicate()
            }
        },
        _ => t.duplicate(),
    }
}


/// `a[i]` for an array or `bytesN` variable. The index is kept in a temporary
/// and checked against the length: a negative or too large index branches
/// to a block that fails. An element of `bytesN` is a `bytes1` shifted out
/// of the value.
#[verifier::rlimit(80)]
pub fn index_access(loc: &Loc, id: &ast::Identifier, index: Expression, index_type: &Type, index_loc: &Loc,
    cfg: &mut ControlFlowGraph, ns: &Contract, vartab: &mut Vartable, errors: &mut Vec<Output>)
    -> (r: Result<(Expression, Type), ()>)
    requires
        ns.wf(),
        state_wf(*old(cfg), *old(vartab), *ns),
        expression_wf(index, old(vartab).len(), *ns),
        type_wf(*index_type, ns.enums@.len(), ns.structs@.len()),
    ensures
        progressed(*old(cfg), *final(cfg), *old(vartab), *final(vartab), *ns),
        extends(old(errors)@, final(errors)@),
        r is Err ==> error_added(old(errors)@, final(errors)@),
        r is Ok ==> expression_wf(r.unwrap().0, final(vartab).len(), *ns) && type_wf(r.unwrap().1, ns.enums@.len(), ns.structs@.len()),
        r is Ok ==> int_length(*index_type, false) is Some,
        r is Ok ==> (r.unwrap().1@ == TypeV::Primitive(PrimitiveType::Bytes(1)) && r.unwrap().0 is Trunc)
            || (r.unwrap().0 matches Expression::IndexAccess(a, _) && (*a matches Expression::Variable(l, p)
                && l == id.loc && p < final(vartab).len() && final(vartab).var(p as int).ty@ is FixedArray
                && r.unwrap().1@ == element_type(final(vartab).var(p as int).ty@))),
{
    let ghost g0 = *cfg;
    let ghost v0 = *vartab;
    let ghost e0 = errors@;
    let var = find_variable(id, cfg, ns, vartab, errors)?;
    let ghost g1 = *cfg;
    let ghost v1 = *vartab;
    let ghost e1 = errors@;
    proof {
        Vartable::lemma_grows_len(&v0, &v1);
        lemma_expression_wf_grow(index, v0.len(), v1.len(), *ns);
    }
    let array_length = match &var.ty {
        Type::Primitive(PrimitiveType::Bytes(n)) => BigNum::from_u64(*n as u64),
        Type::FixedArray(_, dims) => {
            assert(dims_view(dims@).len() == dims@.len());
            dims[dims.len() - 1].duplicate()
        },
        _ => {
            let msg = join3("variable ‘", id.name.as_str(), "’ is not an array");
            push_error(errors, Output::error(*loc, msg));
            return Err(());
        },
    };
    let (index_width, _) = match get_int_length(index_type, index_loc, false, ns, errors) {
        Ok(x) => x,
        Err(()) => {
            proof { lemma_pushed_error(e1, errors@); }
            return Err(());
        },
    };
    let array_width = big_bits(&array_length);
    let pos = vartab.temp(&ast::Identifier::new(*loc, "index"), index_type);
    let ghost v2 = *vartab;
    proof {
        lemma_table_grew(g1, v1, v2, *ns);
        Vartable::lemma_grows_len(&v1, &v2);
        lemma_expression_wf_grow(index, v1.len(), v2.len(), *ns);
        assert(progressed(g1, g1, v1, v2, *ns));
        lemma_progressed_trans(g0, g1, g1, v0, v1, v2, *ns);
    }
    let ghost mut gp = g1;
    let ghost mut vp = v2;
    proof { lemma_progressed_refl(g1, v2, *ns); }
    emit(cfg, vartab, ns, Instr::Assign { res: pos, expr: index });
    proof { lemma_progressed_trans(g0, gp, *cfg, v0, vp, *vartab, *ns); lemma_progressed_trans(g1, gp, *cfg, v2, vp, *vartab, *ns); gp = *cfg; vp = *vartab; }
    let out_of_range = open_block(cfg, vartab, ns, "out_of_range");
    proof { lemma_progressed_trans(g0, gp, *cfg, v0, vp, *vartab, *ns); lemma_progressed_trans(g1, gp, *cfg, v2, vp, *vartab, *ns); gp = *cfg; vp = *vartab; }
    let in_range = open_block(cfg, vartab, ns, "in_range");
    proof { lemma_progressed_trans(g0, gp, *cfg, v0, vp, *vartab, *ns); lemma_progressed_trans(g1, gp, *cfg, v2, vp, *vartab, *ns); gp = *cfg; vp = *vartab; }
    assert(expression_wf(Expression::Variable(*index_loc, pos), vartab.len(), *ns));
    if index_type.signed() {
        let positive = open_block(cfg, vartab, ns, "positive");
        proof { lemma_progressed_trans(g0, gp, *cfg, v0, vp, *vartab, *ns); lemma_progressed_trans(g1, gp, *cfg, v2, vp, *vartab, *ns); gp = *cfg; vp = *vartab; }
        let zero = Expression::NumberLiteral(index_width, BigNum::zero());
        assert(expression_wf(zero, vartab.len(), *ns));
        let cond = Expression::SLess(Box::new(Expression::Variable(*index_loc, pos)), Box::new(zero));
        assert(expression_wf(cond, vartab.len(), *ns));
        emit(cfg, vartab, ns, Instr::BranchCond { cond, true_: out_of_range, false_: positive });
        proof { lemma_progressed_trans(g0, gp, *cfg, v0, vp, *vartab, *ns); lemma_progressed_trans(g1, gp, *cfg, v2, vp, *vartab, *ns); gp = *cfg; vp = *vartab; }
        switch_block(cfg, vartab, ns, positive);
        proof { lemma_progressed_trans(g0, gp, *cfg, v0, vp, *vartab, *ns); lemma_progressed_trans(g1, gp, *cfg, v2, vp, *vartab, *ns); gp = *cfg; vp = *vartab; }
        if index_width as u64 >= array_width {
            let len = Expression::NumberLiteral(index_width, array_length.duplicate());
            assert(expression_wf(len, vartab.len(), *ns));
            let cond = Expression::SMoreEqual(Box::new(Expression::Variable(*index_loc, pos)), Box::new(len));
            assert(expression_wf(cond, vartab.len(), *ns));
            emit(cfg, vartab, ns, Instr::BranchCond { cond, true_: out_of_range, false_: in_range });
            proof { lemma_progressed_trans(g0, gp, *cfg, v0, vp, *vartab, *ns); lemma_progressed_trans(g1, gp, *cfg, v2, vp, *vartab, *ns); gp = *cfg; vp = *vartab; }
        } else {
            emit(cfg, vartab, ns, Instr::Branch { bb: in_range });
            proof { lemma_progressed_trans(g0, gp, *cfg, v0, vp, *vartab, *ns); lemma_progressed_trans(g1, gp, *cfg, v2, vp, *vartab, *ns); gp = *cfg; vp = *vartab; }
        }
    } else if index_width as u64 <= array_width {
        let len = Expression::NumberLiteral(index_width, array_length.duplicate());
        assert(expression_wf(len, vartab.len(), *ns));
        let cond = Expression::UMoreEqual(Box::new(Expression::Variable(*index_loc, pos)), Box::new(len));
        assert(expression_wf(cond, vartab.len(), *ns));
        emit(cfg, vartab, ns, Instr::BranchCond { cond, true_: out_of_range, false_: in_range });
        proof { lemma_progressed_trans(g0, gp, *cfg, v0, vp, *vartab, *ns); lemma_progressed_trans(g1, gp, *cfg, v2, vp, *vartab, *ns); gp = *cfg; vp = *vartab; }
    } else {
        emit(cfg, vartab, ns, Instr::Branch { bb: in_range });
        proof { lemma_progressed_trans(g0, gp, *cfg, v0, vp, *vartab, *ns); lemma_progressed_trans(g1, gp, *cfg, v2, vp, *vartab, *ns); gp = *cfg; vp = *vartab; }
    }
    switch_block(cfg, vartab, ns, out_of_range);
    proof { lemma_progressed_trans(g0, gp, *cfg, v0, vp, *vartab, *ns); lemma_progressed_trans(g1, gp, *cfg, v2, vp, *vartab, *ns); gp = *cfg; vp = *vartab; }
    emit(cfg, vartab, ns, Instr::AssertFailure {});
    proof { lemma_progressed_trans(g0, gp, *cfg, v0, vp, *vartab, *ns); lemma_progressed_trans(g1, gp, *cfg, v2, vp, *vartab, *ns); gp = *cfg; vp = *vartab; }
    switch_block(cfg, vartab, ns, in_range);
    proof { lemma_progressed_trans(g0, gp, *cfg, v0, vp, *vartab, *ns); lemma_progressed_trans(g1, gp, *cfg, v2, vp, *vartab, *ns); gp = *cfg; vp = *vartab; }
    proof {
        Vartable::lemma_grows_trans(&v1, &v2, &*vartab);
        Vartable::lemma_grows_len(&v1, &*vartab);
        Vartable::lemma_grows_len(&v2, &*vartab);
        Vartable::lemma_grows_parts(&v1, &*vartab);
    }
    match &var.ty {
        Type::Primitive(PrimitiveType::Bytes(n)) => {
            let res_ty = Type::Primitive(PrimitiveType::Bytes(1));
            let width = (*n as u16) * 8;
            let last = if *n > 0 { *n - 1 } else { 0 };
            let top = Expression::NumberLiteral(width, BigNum::from_u64(last as u64));
            let shifted_index = cast_shift_arg(Expression::Variable(*index_loc, pos), index_width, &var.ty);
            assert(expression_wf(Expression::Variable(*index_loc, pos), vartab.len(), *ns));
            assert(expression_wf(shifted_index, vartab.len(), *ns));
            assert(expression_wf(top, vartab.len(), *ns));
            let bytes_off = Expression::Subtract(Box::new(top), Box::new(shifted_index));
            assert(expression_wf(bytes_off, vartab.len(), *ns));
            let three = Expression::NumberLiteral(width, BigNum::from_u64(3));
            assert(expression_wf(three, vartab.len(), *ns));
            let bits_off = Expression::ShiftLeft(Box::new(bytes_off), Box::new(three));
            assert(expression_wf(bits_off, vartab.len(), *ns));
            let value = Expression::Variable(*loc, var.pos);
            assert(expression_wf(value, vartab.len(), *ns));
            let shifted = Expression::ShiftRight(Box::new(value), Box::new(bits_off), false);
            assert(expression_wf(shifted, vartab.len(), *ns));
            let r = Expression::Trunc(res_ty.duplicate(), Box::new(shifted));
            assert(expression_wf(r, vartab.len(), *ns));
            Ok((r, res_ty))
        },
        Type::FixedArray(_, dims) => {
            assert(dims_view(dims@).len() == dims@.len());
            let a = Expression::Variable(id.loc, var.pos);
            assert(expression_wf(a, vartab.len(), *ns));
            let i = Expression::Variable(*loc, pos);
            assert(expression_wf(i, vartab.len(), *ns));
            let r = Expression::IndexAccess(Box::new(a), Box::new(i));
            assert(expression_wf(r, vartab.len(), *ns));
            Ok((r, element(&var.ty)))
        },
        _ => vstd::pervasive::unreached(),
    }
}


/// Do the arguments, of these types, convert implicitly to the parameters of
/// the function, one for one?
pub open spec fn fits(func: FunctionDecl, args: Seq<Expression>, types: Seq<Type>, c: Contract) -> bool {
    &&& func.params@.len() == args.len()
    &&& forall|i: int| 0 <= i < args.len()
        ==> !(#[trigger] cast_outcome(args[i], types[i], func.params@[i].ty, true, c) is Refused)
}

/// Is `a` what is passed for argument `arg` of type `from` to a parameter of
/// type `to`: a copy of `arg` converted implicitly to `to`?
pub open spec fn passed_as(a: Expression, arg: Expression, from: Type, to: Type, c: Contract) -> bool {
    exists|x: Expression| #[trigger] copy_of(x, arg) && cast_done(Ok(a), x, to, cast_outcome(arg, from, to, true, c))
}

/// Is the `k`th candidate the first whose parameters the arguments fit?
pub open spec fn first_fit(funcs: Seq<(Loc, usize)>, args: Seq<Expression>, types: Seq<Type>, c: Contract, k: int) -> bool {
    &&& 0 <= k < funcs.len()
    &&& fits(c.functions@[funcs[k].1 as int], args, types, c)
    &&& forall|j: int| 0 <= j < k ==> !fits(c.functions@[(#[trigger] funcs[j]).1 as int], args, types, c)
}

/// A call of a function with resolved arguments: the first overload whose
/// parameters take the arguments by implicit conversion is called. A result
/// is kept in a temporary; a function without return values gives no value
/// (`Poison` of the undefined type); more than one return value is an error
/// here. Where no overload fits, the errors of the only overload are
/// reported, or one error where there are several.
#[verifier::rlimit(80)]
pub fn call(loc: &Loc, funcs: &Vec<(Loc, usize)>, args: &Vec<Expression>, types: &Vec<Type>,
    cfg: &mut ControlFlowGraph, ns: &Contract, vartab: &mut Vartable, errors: &mut Vec<Output>)
    -> (r: Result<(Expression, Type), ()>)
    requires
        ns.wf(),
        state_wf(*old(cfg), *old(vartab), *ns),
        forall|i: int| 0 <= i < funcs@.len() ==> (#[trigger] funcs@[i]).1 < ns.functions@.len(),
        args@.len() == types@.len(),
        forall|i: int| 0 <= i < args@.len() ==> expression_wf(#[trigger] args@[i], old(vartab).len(), *ns),
        forall|i: int| 0 <= i < types@.len() ==> type_wf(#[trigger] types@[i], ns.enums@.len(), ns.structs@.len()),
    ensures
        progressed(*old(cfg), *final(cfg), *old(vartab), *final(vartab), *ns),
        extends(old(errors)@, final(errors)@),
        r is Err ==> error_added(old(errors)@, final(errors)@),
        r is Ok ==> expression_wf(r.unwrap().0, final(vartab).len(), *ns) && type_wf(r.unwrap().1, ns.enums@.len(), ns.structs@.len()),
        (forall|k: int| 0 <= k < funcs@.len() ==> !fits(ns.functions@[(#[trigger] funcs@[k]).1 as int], args@, types@, *ns)) ==> {
            &&& r is Err
            &&& funcs@.len() != 1 ==> final(errors)@ == old(errors)@.push(final(errors)@.last())
                && is_diag(final(errors)@.last(), Level::Error, ErrorType::SyntaxError, *loc,
                    "cannot find overloaded function which matches signature"@)
        },
        forall|k: int| #[trigger] first_fit(funcs@, args@, types@, *ns, k) ==> {
            let func = ns.functions@[funcs@[k].1 as int];
            &&& (r is Ok <==> func.returns@.len() <= 1)
            &&& r is Err ==> final(errors)@ == old(errors)@.push(final(errors)@.last())
                && is_diag(final(errors)@.last(), Level::Error, ErrorType::SyntaxError, *loc,
                    "in expression context a function cannot return more than one value"@)
            &&& r is Ok ==> final(errors)@ == old(errors)@
            &&& r is Ok ==> (final(cfg).bb@[old(cfg).current as int].instr@.last() matches Instr::Call { res, func: fno, args: a }
                && fno == funcs@[k].1 && a@.len() == args@.len()
                && (forall|j: int| 0 <= j < args@.len()
                    ==> passed_as(#[trigger] a@[j], args@[j], types@[j], func.params@[j].ty, *ns))
                && (func.returns@.len() == 1 ==> (r.unwrap().0 matches Expression::Variable(_, p) && res@ == seq![p]
                    && r.unwrap().1@ == func.returns@[0].ty@))
                && (func.returns@.len() == 0 ==> r.unwrap().0 is Poison && r.unwrap().1 is Undef && res@.len() == 0))
        },
{
    let ghost g0 = *cfg;
    let ghost v0 = *vartab;
    let ghost e0 = errors@;
    let mut temp_errors: Vec<Output> = Vec::new();
    let mut k: usize = 0;
    while k < funcs.len()
        invariant
            0 <= k <= funcs@.len(),
            k > 0 ==> has_error(temp_errors@),
            *cfg == g0,
            *vartab == v0,
            errors@ == e0,
            g0 == *old(cfg),
            v0 == *old(vartab),
            e0 == old(errors)@,
            ns.wf(),
            state_wf(g0, v0, *ns),
            forall|i: int| 0 <= i < funcs@.len() ==> (#[trigger] funcs@[i]).1 < ns.functions@.len(),
            args@.len() == types@.len(),
            forall|i: int| 0 <= i < args@.len() ==> expression_wf(#[trigger] args@[i], v0.len(), *ns),
            forall|i: int| 0 <= i < types@.len() ==> type_wf(#[trigger] types@[i], ns.enums@.len(), ns.structs@.len()),
            forall|j: int| 0 <= j < k ==> !fits(ns.functions@[(#[trigger] funcs@[j]).1 as int], args@, types@, *ns),
        decreases funcs@.len() - k,
    {
        let f = funcs[k].1;
        let func = &ns.functions[f];
        proof {
            assert(super::function_wf(ns.functions@[f as int], *ns));
        }
        let ghost t0 = temp_errors@;
        if func.params.len() != args.len() {
            let msg = join5("function expects ", u64_to_decimal(func.params.len() as u64).as_str(), " arguments, ",
                u64_to_decimal(args.len() as u64).as_str(), " provided");
            push_error(&mut temp_errors, Output::error(*loc, msg));
            assert(temp_errors@[t0.len() as int].level == Level::Error);
            k += 1;
            continue;
        }
        let mut cast_args: Vec<Expression> = Vec::new();
        let mut matches = true;
        let mut i: usize = 0;
        while i < func.params.len() && matches
            invariant
                0 <= i <= func.params@.len(),
                func.params@.len() == args@.len(),
                args@.len() == types@.len(),
                func == &ns.functions@[f as int],
                super::function_wf(*func, *ns),
                ns.wf(),
                matches ==> cast_args@.len() == i,
                matches ==> forall|j: int| 0 <= j < i
                    ==> passed_as(#[trigger] cast_args@[j], args@[j], types@[j], func.params@[j].ty, *ns),
                forall|j: int| 0 <= j < cast_args@.len() ==> expression_wf(#[trigger] cast_args@[j], v0.len(), *ns),
                !matches ==> has_error(temp_errors@),
                extends(t0, temp_errors@),
                k > 0 ==> has_error(t0),
                forall|i: int| 0 <= i < args@.len() ==> expression_wf(#[trigger] args@[i], v0.len(), *ns),
                forall|i: int| 0 <= i < types@.len() ==> type_wf(#[trigger] types@[i], ns.enums@.len(), ns.structs@.len()),
                matches ==> forall|j: int| 0 <= j < i
                    ==> !(#[trigger] cast_outcome(args@[j], types@[j], func.params@[j].ty, true, *ns) is Refused),
                !matches ==> !fits(*func, args@, types@, *ns),
            decreases func.params@.len() - i,
        {
            assert(type_wf(func.params@[i as int].ty, ns.enums@.len(), ns.structs@.len()));
            let ghost ti = temp_errors@;
            let arg = args[i].duplicate();
            let ghost argg = arg;
            proof {
                lemma_cast_outcome_same_literal(arg, args@[i as int], types@[i as int], func.params@[i as int].ty, true, *ns);
            }
            match cast(&Loc(0, 0), arg, &types[i], &func.params[i].ty, true, ns, &mut temp_errors) {
                Ok(e) => {
                    let ghost eg = e;
                    proof {
                        assert(copy_of(argg, args@[i as int]));
                        assert(passed_as(eg, args@[i as int], types@[i as int], func.params@[i as int].ty, *ns));
                    }
                    cast_args.push(e);
                    proof {
                        assert(cast_args@[i as int] == eg);
                    }
                },
                Err(()) => {
                    assert(temp_errors@[ti.len() as int].level == Level::Error);
                    matches = false;
                },
            }
            proof {
                if k > 0 {
                    let w = choose|w: int| 0 <= w < t0.len() && (#[trigger] t0[w]).level == Level::Error;
                    assert(temp_errors@[w] == t0[w]);
                }
            }
            i += 1;
        }
        if !matches {
            k += 1;
            continue;
        }
        assert(fits(*func, args@, types@, *ns));
        assert(first_fit(funcs@, args@, types@, *ns, k as int));
        if func.returns.len() > 1 {
            push_error(errors, Output::error(*loc, String::from_str("in expression context a function cannot return more than one value")));
            proof { lemma_progressed_refl(g0, v0, *ns); }
            return Err(());
        }
        if func.returns.len() == 1 {
            let ty = &func.returns[0].ty;
            assert(type_wf(func.returns@[0].ty, ns.enums@.len(), ns.structs@.len()));
            let temp_pos = vartab.temp(&ast::Identifier::new(Loc(0, 0), ""), ty);
            let ghost v1 = *vartab;
            proof {
                lemma_table_grew(g0, v0, v1, *ns);
                Vartable::lemma_grows_len(&v0, &v1);
                assert forall|j: int| 0 <= j < cast_args@.len() implies expression_wf(#[trigger] cast_args@[j], v1.len(), *ns) by {
                    lemma_expression_wf_grow(cast_args@[j], v0.len(), v1.len(), *ns);
                }
            }
            let mut res: Vec<usize> = Vec::new();
            res.push(temp_pos);
            emit(cfg, vartab, ns, Instr::Call { res, func: f, args: cast_args });
            proof {
                assert(progressed(g0, g0, v0, v1, *ns));
                lemma_progressed_trans(g0, g0, *cfg, v0, v1, *vartab, *ns);
                assert(extends(e0, errors@));
            }
            return Ok((Expression::Variable(Loc(0, 0), temp_pos), ty.duplicate()));
        } else {
            emit(cfg, vartab, ns, Instr::Call { res: Vec::new(), func: f, args: cast_args });
            return Ok((Expression::Poison, Type::Undef));
        }
    }
    if funcs.len() == 1 {
        let ghost t = temp_errors@;
        errors.append(&mut temp_errors);
        proof {
            let w = choose|w: int| 0 <= w < t.len() && (#[trigger] t[w]).level == Level::Error;
            assert(errors@[e0.len() + w] == t[w]);
        }
    } else {
        push_error(errors, Output::error(*loc, String::from_str("cannot find overloaded function which matches signature")));
    }
    proof { lemma_progressed_refl(g0, v0, *ns); }
    Err(())
}


/// The first half of `l || r` and `l && r` in a function: a temporary holds
/// the result, set to the value that the left operand decides (`true` for
/// `||`, `false` for `&&`); the right operand is evaluated in a block of its
/// own, which becomes the current one. The temporary's position, the right
/// block and the end block are returned.
fn logical_start(loc: &Loc, is_or: bool, l: Expression, cfg: &mut ControlFlowGraph, ns: &Contract, vartab: &mut Vartable)
    -> (r: (usize, usize, usize))
    requires
        ns.wf(),
        state_wf(*old(cfg), *old(vartab), *ns),
        expression_wf(l, old(vartab).len(), *ns),
    ensures
        progressed(*old(cfg), *final(cfg), *old(vartab), *final(vartab), *ns),
        r.0 < final(vartab).len(),
        final(vartab).var(r.0 as int).ty@ == TypeV::Primitive(PrimitiveType::Bool),
        r.2 < final(cfg).bb@.len(),
        final(cfg).current == r.1,
{
    let ghost g0 = *cfg;
    let ghost v0 = *vartab;
    let boolty = Type::new_bool();
    let name = if is_or { "or" } else { "and" };
    let pos = vartab.temp(&ast::Identifier::new(*loc, name), &boolty);
    let ghost v1 = *vartab;
    proof {
        lemma_table_grew(g0, v0, *vartab, *ns);
        lemma_expression_wf_grow(l, v0.len(), vartab.len(), *ns);
        assert(progressed(g0, g0, v0, *vartab, *ns));
        lemma_progressed_refl(g0, *vartab, *ns);
    }
    let ghost mut gp = g0;
    let ghost mut vp = *vartab;
    let right_side = open_block(cfg, vartab, ns, if is_or { "or_right_side" } else { "and_right_side" });
    proof { lemma_progressed_trans(g0, gp, *cfg, v0, vp, *vartab, *ns); lemma_progressed_trans(g0, gp, *cfg, v1, vp, *vartab, *ns); gp = *cfg; vp = *vartab; }
    let end = open_block(cfg, vartab, ns, if is_or { "or_end" } else { "and_end" });
    proof { lemma_progressed_trans(g0, gp, *cfg, v0, vp, *vartab, *ns); lemma_progressed_trans(g0, gp, *cfg, v1, vp, *vartab, *ns); gp = *cfg; vp = *vartab; }
    let init = Expression::BoolLiteral(is_or);
    assert(expression_wf(init, vartab.len(), *ns));
    emit(cfg, vartab, ns, Instr::Assign { res: pos, expr: init });
    proof { lemma_progressed_trans(g0, gp, *cfg, v0, vp, *vartab, *ns); lemma_progressed_trans(g0, gp, *cfg, v1, vp, *vartab, *ns); gp = *cfg; vp = *vartab; }
    if is_or {
        emit(cfg, vartab, ns, Instr::BranchCond { cond: l, true_: end, false_: right_side });
    } else {
        emit(cfg, vartab, ns, Instr::BranchCond { cond: l, true_: right_side, false_: end });
    }
    proof { lemma_progressed_trans(g0, gp, *cfg, v0, vp, *vartab, *ns); lemma_progressed_trans(g0, gp, *cfg, v1, vp, *vartab, *ns); gp = *cfg; vp = *vartab; }
    switch_block(cfg, vartab, ns, right_side);
    proof {
        lemma_progressed_trans(g0, gp, *cfg, v0, vp, *vartab, *ns);
        lemma_progressed_trans(g0, gp, *cfg, v1, vp, *vartab, *ns);
        Vartable::lemma_grows_len(&v1, &*vartab);
    }
    (pos, right_side, end)
}

/// The second half of `||` and `&&`: the right operand's value is stored in
/// the temporary, which needs a phi node at the end block; the end block
/// becomes the current one and the temporary is the result.
fn logical_end(loc: &Loc, pos: usize, end: usize, r: Expression, cfg: &mut ControlFlowGraph, ns: &Contract, vartab: &mut Vartable)
    -> (res: Expression)
    requires
        ns.wf(),
        state_wf(*old(cfg), *old(vartab), *ns),
        expression_wf(r, old(vartab).len(), *ns),
        pos < old(vartab).len(),
        end < old(cfg).bb@.len(),
    ensures
        progressed(*old(cfg), *final(cfg), *old(vartab), *final(vartab), *ns),
        res == Expression::Variable(*loc, pos),
        expression_wf(res, final(vartab).len(), *ns),
        final(cfg).current == end,
{
    let ghost g0 = *cfg;
    let ghost v0 = *vartab;
    emit(cfg, vartab, ns, Instr::Assign { res: pos, expr: r });
    let ghost g1 = *cfg;
    let ghost v1 = *vartab;
    let mut phis: Vec<usize> = Vec::new();
    phis.push(pos);
    assert(super::cfg::pos_set_wf(phis@, v1.len()));
    cfg.set_phis(end, phis);
    proof {
        lemma_progressed_refl(g1, v1, *ns);
        assert(progressed(g1, *cfg, v1, v1, *ns));
        lemma_progressed_trans(g0, g1, *cfg, v0, v1, v1, *ns);
    }
    let ghost g2 = *cfg;
    emit(cfg, vartab, ns, Instr::Branch { bb: end });
    proof { lemma_progressed_trans(g0, g2, *cfg, v0, v1, *vartab, *ns); }
    let ghost g3 = *cfg;
    let ghost v3 = *vartab;
    switch_block(cfg, vartab, ns, end);
    proof { lemma_progressed_trans(g0, g3, *cfg, v0, v3, *vartab, *ns); }
    Expression::Variable(*loc, pos)
}


/// What a string literal resolves to: its UTF-8 bytes as `bytesN`, or an
/// error where an escape is invalid.
pub open spec fn string_literal_result(v: Seq<ast::StringLiteral>, r: Result<(Expression, Type), ()>) -> bool {
    match unescaped_all(v) {
        None => r is Err,
        Some(text) => r matches Ok((e, t)) && (e matches Expression::BytesLiteral(b)
            && b@ == vstd::utf8::encode_utf8(text)
            && t@ == TypeV::Primitive(PrimitiveType::Bytes((b@.len() % 256) as u8))),
    }
}

/// What a hex literal resolves to: its bytes as `bytesN`, or an error where a
/// piece has an odd number of digits.
pub open spec fn hex_literal_result(v: Seq<ast::HexLiteral>, r: Result<(Expression, Type), ()>) -> bool {
    match hex_all(v) {
        None => r is Err,
        Some(bytes) => r matches Ok((e, t)) && (e matches Expression::BytesLiteral(b)
            && b@ == bytes && t@ == TypeV::Primitive(PrimitiveType::Bytes((bytes.len() % 256) as u8))),
    }
}

/// What a number literal resolves to: the number in the narrowest integer
/// type of whole bytes, signed where it is negative, or an error where it
/// does not fit 256 bits.
pub open spec fn number_literal_result(n: BigNum, r: Result<(Expression, Type), ()>) -> bool {
    let bits = bit_length(abs_int(n@));
    let too_large = if n@ < 0 { bits > 255 } else { bits > 256 };
    if too_large {
        r is Err
    } else {
        r matches Ok((e, t)) && (e matches Expression::NumberLiteral(w, v) && w == literal_width(bits) && v@ == n@)
            && t@ == TypeV::Primitive(if n@ < 0 { PrimitiveType::Int(literal_width(bits) as u16) } else { PrimitiveType::Uint(literal_width(bits) as u16) })
    }
}

/// What an address literal resolves to: a 160 bit number where its checksum
/// is right, otherwise an error.
pub open spec fn address_literal_result(n: Seq<char>, r: Result<(Expression, Type), ()>) -> bool {
    if eip55_text(n) == n {
        r matches Ok((e, t)) && (e matches Expression::NumberLiteral(w, v) && w == 160 && v@ == hex_value(n.skip(2)))
            && t@ == TypeV::Primitive(PrimitiveType::Address)
    } else {
        r is Err
    }
}

/// Expressions built of `bool` and number literals with unary and binary
/// operators: whether they resolve, and to what type, depends on nothing but
/// the expression itself.
pub open spec fn literal_expr(a: ast::Expression) -> bool
    decreases a,
{
    match a {
        ast::Expression::BoolLiteral(..) => true,
        ast::Expression::NumberLiteral(..) => true,
        ast::Expression::Binary(_, _, l, r) => literal_expr(*l) && literal_expr(*r),
        ast::Expression::Unary(_, _, x) => literal_expr(*x),
        _ => false,
    }
}

/// The type and literal value that an expression of literals resolves to,
/// or `None` where it is refused: a number gets the narrowest integer type of
/// whole bytes (signed where negative) and must fit 256 bits; `||` and `&&`
/// need operands that convert to `bool`; another operator must be defined on
/// the types and values of its operands.
pub open spec fn literal_typing(a: ast::Expression, c: Contract) -> Option<(PrimitiveType, LitView)>
    decreases a,
{
    match a {
        ast::Expression::BoolLiteral(..) => Some((PrimitiveType::Bool, LitView::Other)),
        ast::Expression::NumberLiteral(_, n) => {
            let bits = bit_length(abs_int(n@));
            if (if n@ < 0 { bits > 255 } else { bits > 256 }) {
                None
            } else {
                let w = literal_width(bits) as u16;
                Some((if n@ < 0 { PrimitiveType::Int(w) } else { PrimitiveType::Uint(w) }, LitView::Number(n@)))
            }
        },
        ast::Expression::Binary(_, op, l, r) => match (literal_typing(*l, c), literal_typing(*r, c)) {
            (Some((lp, lv)), Some((rp, rv))) => if op is Or || op is And {
                    if !(cast_outcome_view(lv, Type::Primitive(lp), Type::Primitive(PrimitiveType::Bool), true, c) is Refused)
                        && !(cast_outcome_view(rv, Type::Primitive(rp), Type::Primitive(PrimitiveType::Bool), true, c) is Refused) {
                        Some((PrimitiveType::Bool, LitView::Other))
                    } else {
                        None
                    }
                } else if binary_defined_view(op, lv, Type::Primitive(lp), rv, Type::Primitive(rp), c) {
                    match binary_type(op, Type::Primitive(lp), Type::Primitive(rp)) {
                        Some(TypeV::Primitive(p)) => Some((p, LitView::Other)),
                        _ => None,
                    }
                } else {
                    None
                },
            _ => None,
        },
        ast::Expression::Unary(_, op, x) => match literal_typing(*x, c) {
            Some((p, v)) => match op {
                UnaryOp::Not => if !(cast_outcome_view(v, Type::Primitive(p), Type::Primitive(PrimitiveType::Bool), true, c) is Refused) {
                    Some((PrimitiveType::Bool, LitView::Other))
                } else {
                    None
                },
                UnaryOp::Complement => if int_length(Type::Primitive(p), true) is Some { Some((p, LitView::Other)) } else { None },
                UnaryOp::UnaryMinus => if int_length(Type::Primitive(p), false) is Some { Some((p, LitView::Other)) } else { None },
                UnaryOp::UnaryPlus => if int_length(Type::Primitive(p), false) is Some { Some((p, v)) } else { None },
            },
            None => None,
        },
        _ => None,
    }
}

/// The result of resolving an expression of literals: its type and literal
/// value where `literal_typing` gives them, otherwise a refusal.
pub open spec fn literal_outcome(a: ast::Expression, r: Result<(Expression, Type), ()>, c: Contract) -> bool {
    match literal_typing(a, c) {
        Some((p, v)) => r matches Ok((e, t)) && t == Type::Primitive(p) && lit_view(e) == v,
        None => r is Err,
    }
}

/// `**` on two operands built of literals, of which one resolves to a
/// signed type.
pub open spec fn signed_power(a: ast::Expression, c: Contract) -> bool {
    match a {
        ast::Expression::Binary(_, op, l, r) => op is Power && literal_expr(*l) && literal_expr(*r)
            && match (literal_typing(*l, c), literal_typing(*r, c)) {
                (Some((lp, _)), Some((rp, _))) => lp is Int || rp is Int,
                _ => false,
            },
        _ => false,
    }
}

/// What resolving an expression gives, as far as the expression and the
/// results of its operands fix it, with `tv` the type of the result and `vt`
/// the variable table after resolving: a literal gives its value and type; a
/// variable and an assignment refer to where the name was written and to a
/// variable of the table of that name, whose type the result has; an
/// operator other than `||` and `&&` builds its node from the results of its
/// operands, left before right, at the types those results have; a
/// conditional has the common type of its branches; `++` and `--` give a
/// temporary of the type of a variable of that name; an enum value has its
/// enum's type.
pub open spec fn produces(a: ast::Expression, e: Expression, tv: TypeV, c: Contract, vt: Vartable) -> bool
    decreases a,
{
    match a {
        ast::Expression::BoolLiteral(_, b) => e == Expression::BoolLiteral(b) && tv == TypeV::Primitive(PrimitiveType::Bool),
        ast::Expression::NumberLiteral(_, n) => {
            let w = literal_width(bit_length(abs_int(n@)));
            &&& e matches Expression::NumberLiteral(w2, v) && v@ == n@ && w2 == w
            &&& tv == TypeV::Primitive(if n@ < 0 { PrimitiveType::Int(w as u16) } else { PrimitiveType::Uint(w as u16) })
        },
        ast::Expression::Variable(id) => e matches Expression::Variable(l, p) && l == id.loc && p < vt.len()
            && tv == vt.var(p as int).ty@ && vt.var(p as int).id.name@ == id.name@,
        ast::Expression::Assign(_, _, id, _) => e matches Expression::Variable(l, p) && l == id.loc && p < vt.len()
            && tv == vt.var(p as int).ty@ && vt.var(p as int).id.name@ == id.name@,
        ast::Expression::Binary(_, op, l, r) => if op is Or || op is And {
            tv == TypeV::Primitive(PrimitiveType::Bool)
        } else {
            exists|le: Expression, lt: Type, re: Expression, rt: Type|
                #[trigger] binary_done(op, le, lt, re, rt, c, e) && binary_defined(op, le, lt, re, rt, c)
                && binary_type(op, lt, rt) == Some(tv) && produces(*l, le, lt@, c, vt) && produces(*r, re, rt@, c, vt)
        },
        ast::Expression::Unary(_, op, x) => exists|xe: Expression, xt: Type| #[trigger] unary_done(op, xe, xt, c, e)
            && produces(*x, xe, xt@, c, vt) && tv == (if op is Not { TypeV::Primitive(PrimitiveType::Bool) } else { xt@ }),
        ast::Expression::MemberAccess(_, namespace, _) => (lookup(c.symbols@, namespace.name@) matches Some(Symbol::Enum(_, en))
            ==> tv == TypeV::Enum(en)),
        ast::Expression::IncDec(_, _, id) => e matches Expression::Variable(_, t) && t < vt.len() && vt.var(t as int).ty@ == tv
            && exists|p: int| 0 <= p < t && #[trigger] vt.var(p).id.name@ == id.name@ && vt.var(p).ty@ == tv,
        ast::Expression::Ternary(_, _, l, r) => exists|le: Expression, lt: Type, re: Expression, rt: Type|
            #![trigger ternary_branches(e, le, re), common_type(lt, rt)]
            ternary_branches(e, le, re) && produces(*l, le, lt@, c, vt) && produces(*r, re, rt@, c, vt)
            && tv == common_type(lt, rt),
        _ => true,
    }
}

/// A conditional expression of the graph with branches `le` and `re`.
pub open spec fn ternary_branches(e: Expression, le: Expression, re: Expression) -> bool {
    e matches Expression::Ternary(_, l, r) && *l == le && *r == re
}

/// The type both branches of a conditional expression are brought to: their
/// own where they agree, else the wider integer (or bytes) type.
pub open spec fn common_type(lt: Type, rt: Type) -> TypeV {
    if lt@ == rt@ {
        lt@
    } else {
        match coerce_int_result(lt, rt, true) {
            Some(p) => TypeV::Primitive(p),
            None => rt@,
        }
    }
}

/// What resolving gave stays true as the table grows.
pub proof fn lemma_produces_grow(a: ast::Expression, e: Expression, tv: TypeV, c: Contract, v0: Vartable, v1: Vartable)
    requires
        produces(a, e, tv, c, v0),
        v0.len() <= v1.len(),
        forall|i: int| 0 <= i < v0.len() ==> #[trigger] v1.var(i) == v0.var(i),
    ensures
        produces(a, e, tv, c, v1),
    decreases a,
{
    match a {
        ast::Expression::Binary(_, op, l, r) => {
            if !(op is Or || op is And) {
                let (le, lt, re, rt) = choose|le: Expression, lt: Type, re: Expression, rt: Type|
                    #[trigger] binary_done(op, le, lt, re, rt, c, e) && binary_defined(op, le, lt, re, rt, c)
                    && binary_type(op, lt, rt) == Some(tv) && produces(*l, le, lt@, c, v0) && produces(*r, re, rt@, c, v0);
                lemma_produces_grow(*l, le, lt@, c, v0, v1);
                lemma_produces_grow(*r, re, rt@, c, v0, v1);
            }
        },
        ast::Expression::Unary(_, op, x) => {
            let (xe, xt) = choose|xe: Expression, xt: Type| #[trigger] unary_done(op, xe, xt, c, e)
                && produces(*x, xe, xt@, c, v0) && tv == (if op is Not { TypeV::Primitive(PrimitiveType::Bool) } else { xt@ });
            lemma_produces_grow(*x, xe, xt@, c, v0, v1);
        },
        ast::Expression::IncDec(_, _, id) => {
            let t = e->Variable_1;
            let p = choose|p: int| 0 <= p < t && #[trigger] v0.var(p).id.name@ == id.name@ && v0.var(p).ty@ == tv;
            assert(v1.var(p) == v0.var(p));
            assert(v1.var(t as int) == v0.var(t as int));
        },
        ast::Expression::Ternary(_, _, l, r) => {
            let (le, lt, re, rt) = choose|le: Expression, lt: Type, re: Expression, rt: Type|
                #![trigger ternary_branches(e, le, re), common_type(lt, rt)]
                ternary_branches(e, le, re) && produces(*l, le, lt@, c, v0) && produces(*r, re, rt@, c, v0)
                && tv == common_type(lt, rt);
            lemma_produces_grow(*l, le, lt@, c, v0, v1);
            lemma_produces_grow(*r, re, rt@, c, v0, v1);
        },
        _ => {},
    }
}

/// What resolving gave stays true after further steps of resolution.
proof fn lemma_produces_progressed(a: ast::Expression, e: Expression, tv: TypeV, c: Contract,
    g0: ControlFlowGraph, g1: ControlFlowGraph, v0: Vartable, v1: Vartable)
    requires
        produces(a, e, tv, c, v0),
        progressed(g0, g1, v0, v1, c),
    ensures
        produces(a, e, tv, c, v1),
{
    Vartable::lemma_grows_parts(&v0, &v1);
    lemma_produces_grow(a, e, tv, c, v0, v1);
}

/// The messages a number or address literal leaves: none where it resolves;
/// a number that does not fit 256 bits is too large, and an address with a
/// wrong checksum is refused with the checksummed form.
pub open spec fn literal_reported(a: ast::Expression, e0: Seq<Output>, e1: Seq<Output>) -> bool {
    match a {
        ast::Expression::NumberLiteral(loc, n) => {
            let bits = bit_length(abs_int(n@));
            if (if n@ < 0 { bits > 255 } else { bits > 256 }) {
                e1 == e0.push(e1.last()) && is_diag(e1.last(), Level::Error, ErrorType::SyntaxError, loc, int_decimal(n@) + " is too large"@)
            } else {
                e1 == e0
            }
        },
        ast::Expression::AddressLiteral(loc, n) => if eip55_text(n@) == n@ {
            e1 == e0
        } else {
            e1 == e0.push(e1.last()) && is_diag(e1.last(), Level::Error, ErrorType::SyntaxError, loc,
                "address literal has incorrect checksum, expected ‘"@ + eip55_text(n@) + "’"@)
        },
        ast::Expression::BoolLiteral(..) => e1 == e0,
        _ => true,
    }
}

/// What resolving an expression guarantees: the graph and table progressed,
/// diagnostics were only appended and a refusal appended an error, a result
/// is well formed, and a constant expression changed nothing.
pub open spec fn resolved(
    g0: ControlFlowGraph, g1: ControlFlowGraph, v0: Vartable, v1: Vartable,
    e0: Seq<Output>, e1: Seq<Output>, r: Result<(Expression, Type), ()>, constant: bool, c: Contract,
) -> bool {
    &&& progressed(g0, g1, v0, v1, c)
    &&& extends(e0, e1)
    &&& r is Err ==> error_added(e0, e1)
    &&& r is Ok ==> expression_wf(r.unwrap().0, v1.len(), c)
    &&& r is Ok ==> type_wf(r.unwrap().1, c.enums@.len(), c.structs@.len())
    &&& constant ==> g1 == g0 && v1 == v0
}

/// A binary operator: `||` and `&&` short circuit in a function; the others
/// combine their resolved operands.
#[verifier::rlimit(80)]
fn expr_binary(
    expr: &ast::Expression,
    cfg: &mut ControlFlowGraph,
    ns: &Contract,
    vartab: &mut Vartable,
    constant: bool,
    errors: &mut Vec<Output>,
) -> (r: Result<(Expression, Type), ()>)
    requires
        ns.wf(),
        state_wf(*old(cfg), *old(vartab), *ns),
        expr_ok(*expr),
        *expr is Binary,
    ensures
        resolved(*old(cfg), *final(cfg), *old(vartab), *final(vartab), old(errors)@, final(errors)@, r, constant, *ns),
        r is Ok ==> (*expr matches ast::Expression::Binary(_, op, _, _) && gives_bool(op) ==> r.unwrap().1@ == TypeV::Primitive(PrimitiveType::Bool)),
        r is Ok ==> produces(*expr, r.unwrap().0, r.unwrap().1@, *ns, *final(vartab)),
        literal_expr(*expr) ==> literal_outcome(*expr, r, *ns),
        literal_expr(*expr) && r is Ok ==> final(errors)@ == old(errors)@,
        *expr matches ast::Expression::Binary(loc, _, _, _) ==> (signed_power(*expr, *ns) ==> (r is Err
            && final(errors)@ == old(errors)@.push(final(errors)@.last())
            && is_diag(final(errors)@.last(), Level::Error, ErrorType::SyntaxError, loc,
                "exponation (**) is not allowed with signed types"@))),
    decreases expr, 0nat,
{
    let ghost g0 = *cfg;
    let ghost v0 = *vartab;
    let ghost e0 = errors@;
    proof { lemma_progressed_refl(g0, v0, *ns); }
    match expr {
        ast::Expression::Binary(loc, op, l, r) => {
            if let BinaryOp::Or | BinaryOp::And = op {
                let is_or = if let BinaryOp::Or = op { true } else { false };
                let boolty = Type::new_bool();
                let ghost ga1 = *cfg;
                let ghost va1 = *vartab;
                let res1 = expression(l, cfg, ns, vartab, constant, errors);
                proof { lemma_progressed_trans(g0, ga1, *cfg, v0, va1, *vartab, *ns); }
                let (left, left_type) = res1?;
                let left = cast(loc, left, &left_type, &boolty, true, ns, errors)?;
                if constant {
                    let ghost ga2 = *cfg;
                    let ghost va2 = *vartab;
                    let res2 = expression(r, cfg, ns, vartab, constant, errors);
                    proof { lemma_progressed_trans(g0, ga2, *cfg, v0, va2, *vartab, *ns); }
                    let (right, right_type) = res2?;
                    let right = cast(loc, right, &right_type, &boolty, true, ns, errors)?;
                    let ghost lg = left;
                    let ghost rg = right;
                    let e = if is_or {
                        Expression::Or(Box::new(left), Box::new(right))
                    } else {
                        Expression::And(Box::new(left), Box::new(right))
                    };
                    assert(expression_wf(lg, vartab.len(), *ns) && expression_wf(rg, vartab.len(), *ns));
                    return Ok((e, boolty));
                }
                let ghost gs = *cfg;
                let ghost vs = *vartab;
                let (pos, _right_side, end) = logical_start(loc, is_or, left, cfg, ns, vartab);
                proof { lemma_progressed_trans(g0, gs, *cfg, v0, vs, *vartab, *ns); }
                let ghost gs2 = *cfg;
                let ghost vs2 = *vartab;
                let ghost ga3 = *cfg;
                let ghost va3 = *vartab;
                let res3 = expression(r, cfg, ns, vartab, false, errors);
                proof { lemma_progressed_trans(g0, ga3, *cfg, v0, va3, *vartab, *ns); }
                let (right, right_type) = res3?;
                let right = cast(loc, right, &right_type, &boolty, true, ns, errors)?;
                let ghost ge = *cfg;
                let ghost ve = *vartab;
                proof {
                    lemma_progressed_trans(gs, gs2, ge, vs, vs2, ve, *ns);
                    Vartable::lemma_grows_len(&vs, &ve);
                }
                let res = logical_end(loc, pos, end, right, cfg, ns, vartab);
                proof { lemma_progressed_trans(g0, ge, *cfg, v0, ve, *vartab, *ns); }
                return Ok((res, boolty));
            }
            let ghost ga4 = *cfg;
            let ghost va4 = *vartab;
            let res4 = expression(l, cfg, ns, vartab, constant, errors);
            proof { lemma_progressed_trans(g0, ga4, *cfg, v0, va4, *vartab, *ns); }
            let (left, left_type) = res4?;
            let ghost v1 = *vartab;
            let ghost ga5 = *cfg;
            let ghost va5 = *vartab;
            let res5 = expression(r, cfg, ns, vartab, constant, errors);
            proof { lemma_progressed_trans(g0, ga5, *cfg, v0, va5, *vartab, *ns); }
            let (right, right_type) = res5?;
            proof { lemma_expression_wf_grow(left, v1.len(), vartab.len(), *ns); }
            let ghost lg = left;
            let ghost ltg = left_type;
            let ghost rg = right;
            let ghost rtg = right_type;
            proof {
                lemma_produces_progressed(**l, lg, ltg@, *ns, ga5, *cfg, va5, *vartab);
            }
            let rb = binary(loc, *op, left, &left_type, &l.loc(), right, &right_type, &r.loc(), ns, errors);
            proof {
                if rb is Ok {
                    assert(binary_done(*op, lg, ltg, rg, rtg, *ns, rb.unwrap().0));
                    assert(produces(**l, lg, ltg@, *ns, *vartab) && produces(**r, rg, rtg@, *ns, *vartab));
                }
            }
            rb
        },
        _ => vstd::pervasive::unreached(),
    }
}

/// A unary operator on its resolved operand.
fn expr_unary(
    expr: &ast::Expression,
    cfg: &mut ControlFlowGraph,
    ns: &Contract,
    vartab: &mut Vartable,
    constant: bool,
    errors: &mut Vec<Output>,
) -> (r: Result<(Expression, Type), ()>)
    requires
        ns.wf(),
        state_wf(*old(cfg), *old(vartab), *ns),
        expr_ok(*expr),
        *expr is Unary,
    ensures
        resolved(*old(cfg), *final(cfg), *old(vartab), *final(vartab), old(errors)@, final(errors)@, r, constant, *ns),
        r is Ok ==> (*expr matches ast::Expression::Unary(_, op, _) && op is Not ==> r.unwrap().1@ == TypeV::Primitive(PrimitiveType::Bool)),
        r is Ok ==> produces(*expr, r.unwrap().0, r.unwrap().1@, *ns, *final(vartab)),
        literal_expr(*expr) ==> literal_outcome(*expr, r, *ns),
        literal_expr(*expr) && r is Ok ==> final(errors)@ == old(errors)@,
        *expr matches ast::Expression::Binary(loc, _, _, _) ==> (signed_power(*expr, *ns) ==> (r is Err
            && final(errors)@ == old(errors)@.push(final(errors)@.last())
            && is_diag(final(errors)@.last(), Level::Error, ErrorType::SyntaxError, loc,
                "exponation (**) is not allowed with signed types"@))),
    decreases expr, 0nat,
{
    let ghost g0 = *cfg;
    let ghost v0 = *vartab;
    let ghost e0 = errors@;
    proof { lemma_progressed_refl(g0, v0, *ns); }
    match expr {
        ast::Expression::Unary(loc, op, e) => {
            let ghost ga6 = *cfg;
            let ghost va6 = *vartab;
            let res6 = expression(e, cfg, ns, vartab, constant, errors);
            proof { lemma_progressed_trans(g0, ga6, *cfg, v0, va6, *vartab, *ns); }
            let (x, t) = res6?;
            let ghost xg = x;
            let ghost tg = t;
            let ru = unary(loc, *op, x, t, ns, errors);
            proof {
                if ru is Ok {
                    assert(unary_done(*op, xg, tg, *ns, ru.unwrap().0));
                }
            }
            ru
        },
        _ => vstd::pervasive::unreached(),
    }
}

/// `c ? l : r`: the operands are resolved, then the condition; the result has
/// the common type of the two branches.
#[verifier::rlimit(80)]
fn expr_ternary(
    expr: &ast::Expression,
    cfg: &mut ControlFlowGraph,
    ns: &Contract,
    vartab: &mut Vartable,
    constant: bool,
    errors: &mut Vec<Output>,
) -> (r: Result<(Expression, Type), ()>)
    requires
        ns.wf(),
        state_wf(*old(cfg), *old(vartab), *ns),
        expr_ok(*expr),
        *expr is Ternary,
    ensures
        resolved(*old(cfg), *final(cfg), *old(vartab), *final(vartab), old(errors)@, final(errors)@, r, constant, *ns),
        r is Ok ==> produces(*expr, r.unwrap().0, r.unwrap().1@, *ns, *final(vartab)),
    decreases expr, 0nat,
{
    let ghost g0 = *cfg;
    let ghost v0 = *vartab;
    let ghost e0 = errors@;
    proof { lemma_progressed_refl(g0, v0, *ns); }
    match expr {
        ast::Expression::Ternary(_, c, l, r) => {
            let ghost ga7 = *cfg;
            let ghost va7 = *vartab;
            let res7 = expression(l, cfg, ns, vartab, constant, errors);
            proof { lemma_progressed_trans(g0, ga7, *cfg, v0, va7, *vartab, *ns); }
            let (left, left_type) = res7?;
            let ghost v1 = *vartab;
            let ghost ga8 = *cfg;
            let ghost va8 = *vartab;
            let res8 = expression(r, cfg, ns, vartab, constant, errors);
            proof { lemma_progressed_trans(g0, ga8, *cfg, v0, va8, *vartab, *ns); }
            let (right, right_type) = res8?;
            let ghost v2 = *vartab;
            let ghost ga9 = *cfg;
            let ghost va9 = *vartab;
            let res9 = expression(c, cfg, ns, vartab, constant, errors);
            proof { lemma_progressed_trans(g0, ga9, *cfg, v0, va9, *vartab, *ns); }
            let (cond, cond_type) = res9?;
            proof {
                lemma_progressed_trans(ga8, ga9, *cfg, va8, va9, *vartab, *ns);
                lemma_produces_progressed(**l, left, left_type@, *ns, ga8, *cfg, va8, *vartab);
                lemma_produces_progressed(**r, right, right_type@, *ns, ga9, *cfg, va9, *vartab);
            }
            let ghost ltg = left_type;
            let ghost rtg = right_type;
            let cond = cast(&c.loc(), cond, &cond_type, &Type::new_bool(), true, ns, errors)?;
            let ty = coerce(&left_type, &l.loc(), &right_type, &r.loc(), ns, errors)?;
            proof {
                lemma_expression_wf_grow(left, v1.len(), vartab.len(), *ns);
                lemma_expression_wf_grow(right, v2.len(), vartab.len(), *ns);
            }
            let ghost cg = cond;
            let ghost lg = left;
            let ghost rg = right;
            let e = Expression::Ternary(Box::new(cond), Box::new(left), Box::new(right));
            assert(expression_wf(cg, vartab.len(), *ns) && expression_wf(lg, vartab.len(), *ns) && expression_wf(rg, vartab.len(), *ns));
            assert(ternary_branches(e, lg, rg) && ty@ == common_type(ltg, rtg));
            Ok((e, ty))
        },
        _ => vstd::pervasive::unreached(),
    }
}

/// An assignment: the value is resolved first.
fn expr_assign(
    expr: &ast::Expression,
    cfg: &mut ControlFlowGraph,
    ns: &Contract,
    vartab: &mut Vartable,
    constant: bool,
    errors: &mut Vec<Output>,
) -> (r: Result<(Expression, Type), ()>)
    requires
        ns.wf(),
        state_wf(*old(cfg), *old(vartab), *ns),
        expr_ok(*expr),
        *expr is Assign,
    ensures
        resolved(*old(cfg), *final(cfg), *old(vartab), *final(vartab), old(errors)@, final(errors)@, r, constant, *ns),
        constant ==> r is Err,
        r is Ok ==> (*expr matches ast::Expression::Assign(_, _, id, _) ==> (r.unwrap().0 matches Expression::Variable(l, p)
            && l == id.loc && p < final(vartab).len() && r.unwrap().1@ == final(vartab).var(p as int).ty@
            && final(vartab).var(p as int).id.name@ == id.name@ && ends_with_assign(*final(cfg), p))),
        *expr matches ast::Expression::Assign(_, _, _, x) ==> (r is Ok ==> (*x matches ast::Expression::Variable(xid)
            ==> var_resolves(*old(vartab), *ns, xid.name@))),
    decreases expr, 0nat,
{
    let ghost g0 = *cfg;
    let ghost v0 = *vartab;
    let ghost e0 = errors@;
    proof { lemma_progressed_refl(g0, v0, *ns); }
    match expr {
        ast::Expression::Assign(loc, op, id, e) => {
            let ghost ga10 = *cfg;
            let ghost va10 = *vartab;
            let res10 = expression(e, cfg, ns, vartab, constant, errors);
            proof { lemma_progressed_trans(g0, ga10, *cfg, v0, va10, *vartab, *ns); }
            let (set, set_type) = res10?;
            if constant {
                let msg = join3("cannot access variable ", id.name.as_str(), " in constant expression");
                push_error(errors, Output::error(*loc, msg));
                Err(())
            } else {
                let ghost gz = *cfg;
                let ghost vz = *vartab;
                let rz = assign(loc, *op, id, set, &set_type, &e.loc(), cfg, ns, vartab, errors);
                proof { lemma_progressed_trans(g0, gz, *cfg, v0, vz, *vartab, *ns); }
                rz
            }
        },
        _ => vstd::pervasive::unreached(),
    }
}

/// `a[i]`: the index is resolved first.
fn expr_index(
    expr: &ast::Expression,
    cfg: &mut ControlFlowGraph,
    ns: &Contract,
    vartab: &mut Vartable,
    constant: bool,
    errors: &mut Vec<Output>,
) -> (r: Result<(Expression, Type), ()>)
    requires
        ns.wf(),
        state_wf(*old(cfg), *old(vartab), *ns),
        expr_ok(*expr),
        *expr is IndexAccess,
    ensures
        resolved(*old(cfg), *final(cfg), *old(vartab), *final(vartab), old(errors)@, final(errors)@, r, constant, *ns),
    decreases expr, 0nat,
{
    let ghost g0 = *cfg;
    let ghost v0 = *vartab;
    let ghost e0 = errors@;
    proof { lemma_progressed_refl(g0, v0, *ns); }
    match expr {
        ast::Expression::IndexAccess(loc, id, index) => {
            let ghost ga11 = *cfg;
            let ghost va11 = *vartab;
            let res11 = expression(index, cfg, ns, vartab, constant, errors);
            proof { lemma_progressed_trans(g0, ga11, *cfg, v0, va11, *vartab, *ns); }
            let (index_expr, index_type) = res11?;
            if constant {
                let msg = join3("cannot read variable ", id.name.as_str(), " in constant expression");
                push_error(errors, Output::error(*loc, msg));
                Err(())
            } else {
                let ghost gz = *cfg;
                let ghost vz = *vartab;
                let rz = index_access(loc, id, index_expr, &index_type, &index.loc(), cfg, ns, vartab, errors);
                proof { lemma_progressed_trans(g0, gz, *cfg, v0, vz, *vartab, *ns); }
                rz
            }
        },
        _ => vstd::pervasive::unreached(),
    }
}

/// A call: a type as callee is a conversion of its single argument;
/// otherwise the arguments are resolved and the overloads of the function
/// tried.
#[verifier::rlimit(80)]
fn expr_call(
    expr: &ast::Expression,
    cfg: &mut ControlFlowGraph,
    ns: &Contract,
    vartab: &mut Vartable,
    constant: bool,
    errors: &mut Vec<Output>,
) -> (r: Result<(Expression, Type), ()>)
    requires
        ns.wf(),
        state_wf(*old(cfg), *old(vartab), *ns),
        expr_ok(*expr),
        *expr is FunctionCall,
    ensures
        resolved(*old(cfg), *final(cfg), *old(vartab), *final(vartab), old(errors)@, final(errors)@, r, constant, *ns),
    decreases expr, 0nat,
{
    let ghost g0 = *cfg;
    let ghost v0 = *vartab;
    let ghost e0 = errors@;
    proof { lemma_progressed_refl(g0, v0, *ns); }
    match expr {
        ast::Expression::FunctionCall(loc, ty, args) => {
            let mut scratch: Vec<Output> = Vec::new();
            match ns.resolve_type(ty, &mut scratch) {
                Ok(to) => {
                    if args.len() == 0 {
                        push_error(errors, Output::error(*loc, String::from_str("missing argument to cast")));
                        Err(())
                    } else if args.len() > 1 {
                        push_error(errors, Output::error(*loc, String::from_str("too many arguments to cast")));
                        Err(())
                    } else {
                        let ghost ga12 = *cfg;
                        let ghost va12 = *vartab;
                        let res12 = expression(&args[0], cfg, ns, vartab, constant, errors);
                        proof { lemma_progressed_trans(g0, ga12, *cfg, v0, va12, *vartab, *ns); }
                        let (x, x_type) = res12?;
                        let e = cast(loc, x, &x_type, &to, false, ns, errors)?;
                        Ok((e, to))
                    }
                },
                Err(()) => {
                    let name = match ty {
                        ast::Type::Unresolved(name, _) => name,
                        ast::Type::Primitive(_, _) => {
                            return vstd::pervasive::unreached();
                        },
                    };
                    let funcs = ns.resolve_func(name, errors)?;
                    let mut resolved_args: Vec<Expression> = Vec::new();
                    let mut resolved_types: Vec<Type> = Vec::new();
                    let mut i: usize = 0;
                    while i < args.len()
                        invariant
                            0 <= i <= args@.len(),
                            ns.wf(),
                            state_wf(*cfg, *vartab, *ns),
                            progressed(g0, *cfg, v0, *vartab, *ns),
                            g0 == *old(cfg),
                            v0 == *old(vartab),
                            e0 == old(errors)@,
                            !(*expr is BoolLiteral),
                            *expr matches ast::Expression::FunctionCall(_, _, a) && a == args,
                            constant ==> *cfg == g0 && *vartab == v0,
                            extends(e0, errors@),
                            forall|j: int| 0 <= j < args@.len() ==> expr_ok(#[trigger] args@[j]),
                            resolved_args@.len() == i,
                            resolved_types@.len() == i,
                            forall|j: int| 0 <= j < i ==> expression_wf(#[trigger] resolved_args@[j], vartab.len(), *ns),
                            forall|j: int| 0 <= j < i ==> type_wf(#[trigger] resolved_types@[j], ns.enums@.len(), ns.structs@.len()),
                        decreases args@.len() - i,
                    {
                        let ghost vi = *vartab;
                        let ghost gi = *cfg;
                        proof {
                            assert(decreases_to!(*expr => *args));
                            assert(decreases_to!(*args => args@));
                            assert(decreases_to!(args@ => args@[i as int]));
                        }
                        let (e, t) = match expression(&args[i], cfg, ns, vartab, constant, errors) {
                            Ok(x) => x,
                            Err(()) => {
                                proof { lemma_progressed_trans(g0, gi, *cfg, v0, vi, *vartab, *ns); }
                                return Err(());
                            },
                        };
                        proof { lemma_progressed_trans(g0, gi, *cfg, v0, vi, *vartab, *ns); }
                        proof {
                            assert forall|j: int| 0 <= j < i implies expression_wf(#[trigger] resolved_args@[j], vartab.len(), *ns) by {
                                lemma_expression_wf_grow(resolved_args@[j], vi.len(), vartab.len(), *ns);
                            }
                        }
                        resolved_args.push(e);
                        resolved_types.push(t);
                        i += 1;
                    }
                    if constant {
                        push_error(errors, Output::error(*loc, String::from_str("cannot call function in constant expression")));
                        return Err(());
                    }
                    let ghost gz = *cfg;
                    let ghost vz = *vartab;
                    let rz = call(loc, funcs, &resolved_args, &resolved_types, cfg, ns, vartab, errors);
                    proof { lemma_progressed_trans(g0, gz, *cfg, v0, vz, *vartab, *ns); }
                    rz
                },
            }
        },
        _ => vstd::pervasive::unreached(),
    }
}

/// What resolving `a` does, from graph `g0`, table `v0` and messages `e0` to
/// `g1`, `v1` and `e1`, with result `r`, in a constant expression or not.
pub open spec fn expression_done(
    a: ast::Expression, g0: ControlFlowGraph, g1: ControlFlowGraph, v0: Vartable, v1: Vartable,
    e0: Seq<Output>, e1: Seq<Output>, r: Result<(Expression, Type), ()>, constant: bool, c: Contract,
) -> bool {
    &&& (resolved(g0, g1, v0, v1, e0, e1, r, constant, c))
    &&& (a matches ast::Expression::BoolLiteral(_, b) ==> (r matches Ok((e, t)) && e == Expression::BoolLiteral(b)
        && t@ == TypeV::Primitive(PrimitiveType::Bool)))
    &&& (a matches ast::Expression::StringLiteral(v) ==> string_literal_result(v@, r))
    &&& (a matches ast::Expression::HexLiteral(v) ==> hex_literal_result(v@, r))
    &&& (a matches ast::Expression::NumberLiteral(_, n) ==> number_literal_result(n, r))
    &&& (a matches ast::Expression::AddressLiteral(_, n) ==> address_literal_result(n@, r))
    &&& (constant && (a is Variable || a is IncDec || a is Assign) ==> r is Err)
    &&& (r is Ok ==> produces(a, r.unwrap().0, r.unwrap().1@, c, v1))
    &&& (literal_expr(a) ==> literal_outcome(a, r, c))
    &&& (literal_expr(a) && r is Ok ==> e1 == e0)
    &&& (a matches ast::Expression::Binary(loc, _, _, _) ==> (signed_power(a, c) ==> (r is Err
        && e1 == e0.push(e1.last())
        && is_diag(e1.last(), Level::Error, ErrorType::SyntaxError, loc,
            "exponation (**) is not allowed with signed types"@))))
    &&& (literal_reported(a, e0, e1))
    &&& ((a is BoolLiteral || a is StringLiteral || a is HexLiteral || a is NumberLiteral || a is AddressLiteral)
        ==> g1 == g0 && v1 == v0)
    &&& (r is Ok ==> (a matches ast::Expression::Variable(id) ==> (
        r.unwrap().0 matches Expression::Variable(l, p) && l == id.loc && p < v1.len()
        && r.unwrap().1@ == v1.var(p as int).ty@)))
    &&& (r is Ok ==> (a matches ast::Expression::Assign(_, _, id, _) ==> (
        r.unwrap().0 matches Expression::Variable(l, p) && l == id.loc && p < v1.len()
        && r.unwrap().1@ == v1.var(p as int).ty@ && ends_with_assign(g1, p))))
    &&& (a matches ast::Expression::Assign(_, _, _, x) ==> (r is Ok ==> (*x matches ast::Expression::Variable(xid)
        ==> var_resolves(v0, c, xid.name@))))
    &&& (a matches ast::Expression::Variable(id) ==> (!constant ==> (r is Ok <==> var_resolves(v0, c, id.name@))))
    &&& (r is Ok && a is IncDec ==> int_length(r.unwrap().1, false) is Some)
    &&& (r is Ok ==> (a matches ast::Expression::Binary(_, op, _, _) && gives_bool(op) ==> r.unwrap().1@ == TypeV::Primitive(PrimitiveType::Bool)))
    &&& (r is Ok ==> (a matches ast::Expression::Unary(_, op, _) && op is Not ==> r.unwrap().1@ == TypeV::Primitive(PrimitiveType::Bool)))
    &&& (a matches ast::Expression::MemberAccess(_, namespace, id) ==> (lookup(c.symbols@, namespace.name@) matches Some(Symbol::Enum(_, e)) ==> {
        &&& (r is Ok <==> has_enum_value(c.enums@[e as int], id.name@))
        &&& r is Ok ==> (r.unwrap().1@ == TypeV::Enum(e) && exists|k: int| 0 <= k < c.enums@[e as int].values@.len()
            && (#[trigger] c.enums@[e as int].values@[k]).0@ == id.name@
            && (r.unwrap().0 matches Expression::NumberLiteral(w, v) && v@ == c.enums@[e as int].values@[k].2))
    }))
}

/// Resolve an expression of the source into an expression of the graph and
/// its type. Instructions for side effects and short circuits are added to
/// `cfg`, temporaries and contract variables to `vartab`. In a constant
/// expression (`constant`) no variable may be read or written and no
/// function called; then neither `cfg` nor `vartab` changes. Every refused
/// expression adds an error.
#[verifier::rlimit(100)]
pub fn expression(
    expr: &ast::Expression,
    cfg: &mut ControlFlowGraph,
    ns: &Contract,
    vartab: &mut Vartable,
    constant: bool,
    errors: &mut Vec<Output>,
) -> (r: Result<(Expression, Type), ()>)
    requires
        ns.wf(),
        state_wf(*old(cfg), *old(vartab), *ns),
        expr_ok(*expr),
    ensures
        expression_done(*expr, *old(cfg), *final(cfg), *old(vartab), *final(vartab), old(errors)@, final(errors)@, r, constant, *ns),
    decreases expr, 1nat,
{
    let ghost g0 = *cfg;
    let ghost v0 = *vartab;
    let ghost e0 = errors@;
    proof { lemma_progressed_refl(g0, v0, *ns); }
    match expr {
        ast::Expression::BoolLiteral(_, v) => Ok((Expression::BoolLiteral(*v), Type::new_bool())),
        ast::Expression::StringLiteral(v) => string_literal(v, errors),
        ast::Expression::HexLiteral(v) => hex_literal(v, errors),
        ast::Expression::NumberLiteral(loc, b) => {
            let rn = bigint_to_expression(loc, b, errors);
            proof {
                if errors@.len() == e0.len() + 1 {
                    assert(errors@ =~= e0.push(errors@.last()));
                }
            }
            rn
        },
        ast::Expression::AddressLiteral(loc, n) => address_literal(loc, n, errors),
        ast::Expression::Variable(id) => {
            if constant {
                let msg = join3("cannot read variable ", id.name.as_str(), " in constant expression");
                push_error(errors, Output::error(id.loc, msg));
                Err(())
            } else {
                read_variable(id, cfg, ns, vartab, errors)
            }
        },
        ast::Expression::Binary(..) => expr_binary(expr, cfg, ns, vartab, constant, errors),
        ast::Expression::Unary(..) => expr_unary(expr, cfg, ns, vartab, constant, errors),
        ast::Expression::Ternary(..) => expr_ternary(expr, cfg, ns, vartab, constant, errors),
        ast::Expression::IncDec(loc, op, id) => {
            if constant {
                let msg = join3("cannot access variable ", id.name.as_str(), " in constant expression");
                push_error(errors, Output::error(*loc, msg));
                Err(())
            } else {
                inc_dec(loc, *op, id, cfg, ns, vartab, errors)
            }
        },
        ast::Expression::Assign(..) => expr_assign(expr, cfg, ns, vartab, constant, errors),
        ast::Expression::IndexAccess(..) => expr_index(expr, cfg, ns, vartab, constant, errors),
        ast::Expression::MemberAccess(loc, namespace, id) => member_access(loc, namespace, id, cfg, ns, vartab, constant, errors),
        ast::Expression::FunctionCall(..) => expr_call(expr, cfg, ns, vartab, constant, errors),
    }
}


/// An ordering comparison, a division or a remainder works on signed numbers
/// exactly when one of its operands is a signed integer, since their common
/// type is then signed: `a > b` on two `int8` values is the signed `>`, under
/// which `-1 > 1` is false; on unsigned integers or `bytesN` values it is
/// the unsigned one.
pub proof fn law_signedness_of_operators(op: BinaryOp, left: Expression, lt: Type, right: Expression, rt: Type,
    c: Contract, e: Expression)
    requires
        op is More || op is Less || op is MoreEqual || op is LessEqual || op is Divide || op is Modulo,
        binary_defined(op, left, lt, right, rt, c),
        binary_done(op, left, lt, right, rt, c, e),
    ensures
        ({
            let signed = lt matches Type::Primitive(PrimitiveType::Int(_)) || rt matches Type::Primitive(PrimitiveType::Int(_));
            &&& op is More ==> if signed { e is SMore } else { e is UMore }
            &&& op is Less ==> if signed { e is SLess } else { e is ULess }
            &&& op is MoreEqual ==> if signed { e is SMoreEqual } else { e is UMoreEqual }
            &&& op is LessEqual ==> if signed { e is SLessEqual } else { e is ULessEqual }
            &&& op is Divide ==> if signed { e is SDivide } else { e is UDivide }
            &&& op is Modulo ==> if signed { e is SModulo } else { e is UModulo }
        }),
{
}


/// A call passes each argument to the parameter at its own position,
/// converted to that parameter's type; an argument that already has its
/// parameter's type is passed as it is (an expression of the same form, with
/// the same variables and literal values), so `f(1, 2)` gives `f` the 1
/// first and the 2 second.
pub proof fn law_call_arguments_in_place(a: Seq<Expression>, args: Seq<Expression>, types: Seq<Type>, func: FunctionDecl,
    c: Contract)
    requires
        a.len() == args.len(),
        forall|j: int| 0 <= j < args.len() ==> passed_as(#[trigger] a[j], args[j], types[j], func.params@[j].ty, c),
    ensures
        forall|j: int| 0 <= j < args.len() && types[j]@ == func.params@[j].ty@ ==> copy_of(#[trigger] a[j], args[j]),
{
    assert forall|j: int| 0 <= j < args.len() && types[j]@ == func.params@[j].ty@ implies copy_of(#[trigger] a[j], args[j]) by {
        assert(passed_as(a[j], args[j], types[j], func.params@[j].ty, c));
        let x = choose|x: Expression| #[trigger] copy_of(x, args[j])
            && cast_done(Ok(a[j]), x, func.params@[j].ty, cast_outcome(args[j], types[j], func.params@[j].ty, true, c));
        lemma_cast_same_type(args[j], types[j], func.params@[j].ty, true, c);
    }
}


/// The operator a node of the graph computes and its two operands, left
/// first, for the nodes of operators other than shifts, `||` and `&&`.
pub open spec fn node_parts(e: Expression) -> Option<(BinaryOp, Expression, Expression)> {
    match e {
        Expression::Add(a, b) => Some((BinaryOp::Add, *a, *b)),
        Expression::Subtract(a, b) => Some((BinaryOp::Subtract, *a, *b)),
        Expression::Multiply(a, b) => Some((BinaryOp::Multiply, *a, *b)),
        Expression::UDivide(a, b) => Some((BinaryOp::Divide, *a, *b)),
        Expression::SDivide(a, b) => Some((BinaryOp::Divide, *a, *b)),
        Expression::UModulo(a, b) => Some((BinaryOp::Modulo, *a, *b)),
        Expression::SModulo(a, b) => Some((BinaryOp::Modulo, *a, *b)),
        Expression::Power(a, b) => Some((BinaryOp::Power, *a, *b)),
        Expression::BitwiseOr(a, b) => Some((BinaryOp::BitwiseOr, *a, *b)),
        Expression::BitwiseAnd(a, b) => Some((BinaryOp::BitwiseAnd, *a, *b)),
        Expression::BitwiseXor(a, b) => Some((BinaryOp::BitwiseXor, *a, *b)),
        Expression::UMore(a, b) => Some((BinaryOp::More, *a, *b)),
        Expression::SMore(a, b) => Some((BinaryOp::More, *a, *b)),
        Expression::ULess(a, b) => Some((BinaryOp::Less, *a, *b)),
        Expression::SLess(a, b) => Some((BinaryOp::Less, *a, *b)),
        Expression::UMoreEqual(a, b) => Some((BinaryOp::MoreEqual, *a, *b)),
        Expression::SMoreEqual(a, b) => Some((BinaryOp::MoreEqual, *a, *b)),
        Expression::ULessEqual(a, b) => Some((BinaryOp::LessEqual, *a, *b)),
        Expression::SLessEqual(a, b) => Some((BinaryOp::LessEqual, *a, *b)),
        Expression::Equal(a, b) => Some((BinaryOp::Equal, *a, *b)),
        Expression::NotEqual(a, b) => Some((BinaryOp::NotEqual, *a, *b)),
        _ => None,
    }
}

/// A binary operator other than a shift makes a node of that very operator,
/// whose first operand is the left one and whose second is the right one,
/// each converted to the common type of the two (or kept as they are where
/// `==` or `!=` compares values of one type).
pub proof fn law_operands_in_order(op: BinaryOp, left: Expression, lt: Type, right: Expression, rt: Type,
    c: Contract, e: Expression)
    requires
        !is_shift(op),
        !(op is Or) && !(op is And),
        binary_defined(op, left, lt, right, rt, c),
        binary_done(op, left, lt, right, rt, c, e),
    ensures
        node_parts(e) matches Some((o, a, b)) && o == op && (if same_type_equality(op, lt, rt) {
            a == left && b == right
        } else {
            let ty = Type::Primitive(operand_type(op, lt, rt).unwrap());
            &&& cast_done(Ok(a), left, ty, cast_outcome(left, lt, ty, true, c))
            &&& cast_done(Ok(b), right, ty, cast_outcome(right, rt, ty, true, c))
        }),
{
}

} // verus!
