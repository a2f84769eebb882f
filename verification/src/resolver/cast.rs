//! Implicit and explicit conversions between types, and the common type of
//! the two operands of an arithmetic operator.
use crate::ast::{Loc, PrimitiveType, primitive_name};
use crate::bignum::{BigNum, bit_length, abs_int, int_decimal, nat_decimal, big_bits, big_is_negative, big_add, big_to_decimal, u64_to_decimal};
use crate::output::{Output, Level, ErrorType, is_diag, join2, join3, join4, extends, error_added, lemma_pushed_error};
use super::{Contract, Type, TypeV, type_wf, type_text};
use super::cfg::{Expression, expression_wf, same_literal};
use vstd::prelude::*;

verus! {

/// Width and signedness of an integer type; `bytesN` counts as an unsigned
/// integer of `8 * N` bits where bytes are allowed.
pub open spec fn int_length(t: Type, allow_bytes: bool) -> Option<(u16, bool)> {
    match t {
        Type::Primitive(PrimitiveType::Uint(n)) => Some((n, false)),
        Type::Primitive(PrimitiveType::Int(n)) => Some((n, true)),
        Type::Primitive(PrimitiveType::Bytes(n)) => if allow_bytes {
            Some(((n as int * 8) as u16, false))
        } else {
            None
        },
        _ => None,
    }
}

/// The message for a type that is not an integer where one is needed.
pub open spec fn int_length_error(t: Type, c: Contract) -> Seq<char> {
    match t {
        Type::Primitive(p) => "expression of type "@ + primitive_name(p) + " not allowed"@,
        Type::Enum(n) => "type enum "@ + c.enums@[n as int].name@ + " not allowed"@,
        Type::FixedArray(_, _) => "type array "@ + type_text(t, c) + " not allowed"@,
        _ => "type "@ + type_text(t, c) + " not allowed"@,
    }
}

/// The width and signedness of an integer type (or of `bytesN`, where
/// `allow_bytes` is set). Any other type is an error. A struct, a reference
/// or the type of a call without a value is refused in the same way.
pub fn get_int_length(
    l: &Type,
    l_loc: &Loc,
    allow_bytes: bool,
    ns: &Contract,
    errors: &mut Vec<Output>,
) -> (r: Result<(u16, bool), ()>)
    requires
        ns.wf(),
        type_wf(*l, ns.enums@.len(), ns.structs@.len()),
    ensures
        int_length(*l, allow_bytes) matches Some(x) ==> r == Ok::<(u16, bool), ()>(x) && final(errors)@ == old(errors)@,
        int_length(*l, allow_bytes) is None ==> {
            &&& r is Err
            &&& final(errors)@.len() == old(errors)@.len() + 1
            &&& final(errors)@.drop_last() == old(errors)@
            &&& is_diag(final(errors)@.last(), Level::Error, ErrorType::SyntaxError, *l_loc, int_length_error(*l, *ns))
        },
        extends(old(errors)@, final(errors)@),
        r is Err ==> error_added(old(errors)@, final(errors)@),
{
    let msg = match l {
        Type::Primitive(PrimitiveType::Uint(n)) => {
            return Ok((*n, false));
        },
        Type::Primitive(PrimitiveType::Int(n)) => {
            return Ok((*n, true));
        },
        Type::Primitive(PrimitiveType::Bytes(n)) if allow_bytes => {
            return Ok((*n as u16 * 8, false));
        },
        Type::Primitive(t) => join3("expression of type ", t.to_string().as_str(), " not allowed"),
        Type::Enum(n) => join3("type enum ", ns.enums[*n].name.as_str(), " not allowed"),
        Type::FixedArray(_, _) => join3("type array ", l.to_string(ns).as_str(), " not allowed"),
        _ => join3("type ", l.to_string(ns).as_str(), " not allowed"),
    };
    let ghost old_errors = errors@;
    errors.push(Output::error(*l_loc, msg));
    assert(errors@.drop_last() =~= old_errors);
    proof { lemma_pushed_error(old_errors, errors@); }
    Err(())
}

/// The larger of two widths.
pub open spec fn max_u16(a: u16, b: u16) -> u16 {
    if a >= b { a } else { b }
}

/// One more byte than the width, at most 256 bits.
pub open spec fn widen_by_byte(a: u16) -> u16 {
    if a + 8 <= 256 { (a + 8) as u16 } else { 256 }
}

/// The common type of two integer operands: signed if either is, wide enough
/// for both; an unsigned operand needs a byte more to fit a signed type.
pub open spec fn common_int(l: (u16, bool), r: (u16, bool)) -> PrimitiveType {
    match (l.1, r.1) {
        (true, true) => PrimitiveType::Int(max_u16(l.0, r.0)),
        (false, false) => PrimitiveType::Uint(max_u16(l.0, r.0)),
        (true, false) => PrimitiveType::Int(max_u16(l.0, widen_by_byte(r.0))),
        (false, true) => PrimitiveType::Int(max_u16(widen_by_byte(l.0), r.0)),
    }
}

/// The common type of two operands, if there is one.
pub open spec fn coerce_int_result(l: Type, r: Type, allow_bytes: bool) -> Option<PrimitiveType> {
    match (l, r) {
        (Type::Primitive(PrimitiveType::Bytes(a)), Type::Primitive(PrimitiveType::Bytes(b))) if allow_bytes =>
            Some(PrimitiveType::Bytes(if a >= b { a } else { b })),
        _ => match (int_length(l, false), int_length(r, false)) {
            (Some(x), Some(y)) => Some(common_int(x, y)),
            _ => None,
        },
    }
}

/// `min(a + 8, 256)` without overflow.
fn widen_by_byte_exec(a: u16) -> (r: u16)
    ensures
        r == widen_by_byte(a),
{
    if a <= 248 { a + 8 } else { 256 }
}

/// The type that both operands are converted to before an arithmetic or
/// comparison operator. Two `bytesN` give the longer (where `allow_bytes`);
/// otherwise both must be integers. The first operand that is not an integer
/// is reported.
pub fn coerce_int(
    l: &Type,
    l_loc: &Loc,
    r: &Type,
    r_loc: &Loc,
    allow_bytes: bool,
    ns: &Contract,
    errors: &mut Vec<Output>,
) -> (res: Result<Type, ()>)
    requires
        ns.wf(),
        type_wf(*l, ns.enums@.len(), ns.structs@.len()),
        type_wf(*r, ns.enums@.len(), ns.structs@.len()),
    ensures
        coerce_int_result(*l, *r, allow_bytes) matches Some(p) ==> res == Ok::<Type, ()>(Type::Primitive(p))
            && final(errors)@ == old(errors)@,
        coerce_int_result(*l, *r, allow_bytes) is None ==> {
            &&& res is Err
            &&& final(errors)@.len() == old(errors)@.len() + 1
            &&& final(errors)@.drop_last() == old(errors)@
            &&& is_diag(final(errors)@.last(), Level::Error, ErrorType::SyntaxError,
                if int_length(*l, false) is None { *l_loc } else { *r_loc },
                if int_length(*l, false) is None { int_length_error(*l, *ns) } else { int_length_error(*r, *ns) })
        },
        extends(old(errors)@, final(errors)@),
        res is Err ==> error_added(old(errors)@, final(errors)@),
{
    if allow_bytes {
        if let (Type::Primitive(PrimitiveType::Bytes(a)), Type::Primitive(PrimitiveType::Bytes(b))) = (l, r) {
            return Ok(Type::Primitive(PrimitiveType::Bytes(if *a >= *b { *a } else { *b })));
        }
    }
    let (left_len, left_signed) = get_int_length(l, l_loc, false, ns, errors)?;
    let (right_len, right_signed) = get_int_length(r, r_loc, false, ns, errors)?;
    let p = if left_signed && right_signed {
        PrimitiveType::Int(if left_len >= right_len { left_len } else { right_len })
    } else if !left_signed && !right_signed {
        PrimitiveType::Uint(if left_len >= right_len { left_len } else { right_len })
    } else if left_signed {
        let w = widen_by_byte_exec(right_len);
        PrimitiveType::Int(if left_len >= w { left_len } else { w })
    } else {
        let w = widen_by_byte_exec(left_len);
        PrimitiveType::Int(if w >= right_len { w } else { right_len })
    };
    Ok(Type::Primitive(p))
}

/// The type both operands of `==` and `!=` are converted to: the same type
/// is kept; otherwise as `coerce_int` with bytes allowed.
pub fn coerce(
    l: &Type,
    l_loc: &Loc,
    r: &Type,
    r_loc: &Loc,
    ns: &Contract,
    errors: &mut Vec<Output>,
) -> (res: Result<Type, ()>)
    requires
        ns.wf(),
        type_wf(*l, ns.enums@.len(), ns.structs@.len()),
        type_wf(*r, ns.enums@.len(), ns.structs@.len()),
    ensures
        l@ == r@ ==> (res matches Ok(t) && t@ == l@) && final(errors)@ == old(errors)@,
        l@ != r@ ==> (coerce_int_result(*l, *r, true) matches Some(p) ==> res == Ok::<Type, ()>(Type::Primitive(p))
            && final(errors)@ == old(errors)@),
        l@ != r@ && coerce_int_result(*l, *r, true) is None ==> {
            &&& res is Err
            &&& final(errors)@.len() == old(errors)@.len() + 1
            &&& final(errors)@.drop_last() == old(errors)@
            &&& final(errors)@.last().level == Level::Error
        },
        res is Ok ==> type_wf(res.unwrap(), ns.enums@.len(), ns.structs@.len()),
        extends(old(errors)@, final(errors)@),
        res is Err ==> error_added(old(errors)@, final(errors)@),
{
    if l.same(r) {
        return Ok(l.duplicate());
    }
    coerce_int(l, l_loc, r, r_loc, true, ns, errors)
}

/// The width of the smallest integer type that holds a literal of this many bits.
pub open spec fn literal_width(bits: nat) -> nat {
    if bits < 7 { 8 } else { ((bits + 7) / 8) * 8 }
}

/// The number literal and its type: a signed type for a negative value, the
/// narrowest whole number of bytes. A negative value needs at most 255 bits,
/// another at most 256.
pub fn bigint_to_expression(loc: &Loc, n: &BigNum, errors: &mut Vec<Output>) -> (r: Result<(Expression, Type), ()>)
    ensures
        ({
            let bits = bit_length(abs_int(n@));
            let too_large = if n@ < 0 { bits > 255 } else { bits > 256 };
            &&& too_large ==> {
                &&& r is Err
                &&& final(errors)@.len() == old(errors)@.len() + 1
                &&& final(errors)@.drop_last() == old(errors)@
                &&& is_diag(final(errors)@.last(), Level::Error, ErrorType::SyntaxError, *loc, int_decimal(n@) + " is too large"@)
            }
            &&& !too_large ==> {
                &&& r matches Ok((e, t)) && (e matches Expression::NumberLiteral(w, v) && w == literal_width(bits) && v@ == n@ && (n.wf() ==> v.wf()))
                    && t@ == TypeV::Primitive(if n@ < 0 { PrimitiveType::Int(literal_width(bits) as u16) } else { PrimitiveType::Uint(literal_width(bits) as u16) })
                &&& final(errors)@ == old(errors)@
            }
        }),
        r is Ok ==> forall|k: nat, c: Contract| #[trigger] expression_wf(r.unwrap().0, k, c) && type_wf(r.unwrap().1, c.enums@.len(), c.structs@.len()),
        extends(old(errors)@, final(errors)@),
        r is Err ==> error_added(old(errors)@, final(errors)@),
{
    let bits = big_bits(n);
    let negative = big_is_negative(n);
    if (negative && bits > 255) || (!negative && bits > 256) {
        let msg = join2(big_to_decimal(n).as_str(), " is too large");
        let ghost old_errors = errors@;
        errors.push(Output::error(*loc, msg));
        assert(errors@.drop_last() =~= old_errors);
        proof { lemma_pushed_error(old_errors, errors@); }
        return Err(());
    }
    let int_size: u16 = if bits < 7 { 8 } else { (((bits + 7) / 8) * 8) as u16 };
    let ty = if negative { Type::Primitive(PrimitiveType::Int(int_size)) } else { Type::Primitive(PrimitiveType::Uint(int_size)) };
    Ok((Expression::NumberLiteral(int_size, n.duplicate()), ty))
}


/// What a conversion does.
pub enum CastOutcome {
    /// The expression is used as it is.
    Keep,
    /// The number literal gets this width.
    Literal(u16),
    /// The bytes literal is padded with zero bytes to this length.
    Padded(nat),
    /// Truncated to the target type.
    Trunc,
    /// Zero extended to the target type.
    ZeroExt,
    /// Sign extended to the target type.
    SignExt,
    /// A `bytesN` made longer: zero extended, then shifted left by this many
    /// bits (a literal of the given width).
    Widen(u16, nat),
    /// A `bytesN` made shorter: shifted right by this many bits (a literal of
    /// the given width), then truncated.
    Narrow(u16, nat),
    /// Refused with this message.
    Refused(Seq<char>),
}

/// The type a conversion works on: for an explicit conversion, an enum is its
/// integer type.
pub open spec fn conv_type(t: Type, implicit: bool, c: Contract) -> TypeV {
    match t {
        Type::Enum(n) => if implicit { t@ } else { TypeV::Primitive(c.enums@[n as int].ty) },
        _ => t@,
    }
}

/// `<text> from <from> to <to>`
pub open spec fn from_to(text: Seq<char>, from: Type, to: Type, c: Contract) -> Seq<char> {
    text + " from "@ + type_text(from, c) + " to "@ + type_text(to, c)
}

/// `<text> to <to> from <from> not allowed`
pub open spec fn to_from_refused(text: Seq<char>, from: Type, to: Type, c: Contract) -> Seq<char> {
    text + " to "@ + type_text(to, c) + " from "@ + type_text(from, c) + " not allowed"@
}

/// What converting between the two types does, apart from the special cases
/// of literals.
pub open spec fn cast_general(expr: LitView, f: TypeV, t: TypeV, from: Type, to: Type, implicit: bool, c: Contract) -> CastOutcome {
    let truncate = CastOutcome::Refused(from_to("implicit conversion would truncate"@, from, to, c));
    let sign = CastOutcome::Refused(from_to("implicit conversion would change sign"@, from, to, c));
    let implicit_refused = CastOutcome::Refused(to_from_refused("implicit conversion"@, from, to, c));
    let refused = CastOutcome::Refused(to_from_refused("conversion"@, from, to, c));
    match (f, t) {
        (TypeV::Primitive(PrimitiveType::Uint(fl)), TypeV::Primitive(PrimitiveType::Uint(tl))) =>
            if fl > tl { if implicit { truncate } else { CastOutcome::Trunc } }
            else if fl < tl { CastOutcome::ZeroExt } else { CastOutcome::Keep },
        (TypeV::Primitive(PrimitiveType::Int(fl)), TypeV::Primitive(PrimitiveType::Int(tl))) =>
            if fl > tl { if implicit { truncate } else { CastOutcome::Trunc } }
            else if fl < tl { CastOutcome::SignExt } else { CastOutcome::Keep },
        (TypeV::Primitive(PrimitiveType::Uint(fl)), TypeV::Primitive(PrimitiveType::Int(tl))) =>
            if tl > fl { CastOutcome::ZeroExt }
            else if implicit { sign }
            else if fl > tl { CastOutcome::Trunc } else { CastOutcome::Keep },
        (TypeV::Primitive(PrimitiveType::Int(fl)), TypeV::Primitive(PrimitiveType::Uint(tl))) =>
            if implicit { sign }
            else if fl > tl { CastOutcome::Trunc } else if fl < tl { CastOutcome::SignExt } else { CastOutcome::Keep },
        (TypeV::Primitive(PrimitiveType::Uint(fl)), TypeV::Primitive(PrimitiveType::Address))
        | (TypeV::Primitive(PrimitiveType::Int(fl)), TypeV::Primitive(PrimitiveType::Address)) =>
            if implicit { CastOutcome::Refused("implicit conversion from "@ + type_text(from, c) + " to address not allowed"@) }
            else if fl > 160 { CastOutcome::Trunc } else if fl < 160 { CastOutcome::ZeroExt } else { CastOutcome::Keep },
        (TypeV::Primitive(PrimitiveType::Address), TypeV::Primitive(PrimitiveType::Uint(tl)))
        | (TypeV::Primitive(PrimitiveType::Address), TypeV::Primitive(PrimitiveType::Int(tl))) =>
            if implicit { CastOutcome::Refused("implicit conversion to "@ + type_text(from, c) + " from address not allowed"@) }
            else if tl < 160 { CastOutcome::Trunc } else if tl > 160 { CastOutcome::ZeroExt } else { CastOutcome::Keep },
        (TypeV::Primitive(PrimitiveType::Bytes(fl)), TypeV::Primitive(PrimitiveType::Bytes(tl))) =>
            if implicit { truncate }
            else if tl > fl { CastOutcome::Widen((tl * 8) as u16, ((tl - fl) * 8) as nat) }
            else { CastOutcome::Narrow((fl * 8) as u16, ((fl - tl) * 8) as nat) },
        (TypeV::Primitive(PrimitiveType::Bytes(fl)), TypeV::Primitive(PrimitiveType::Uint(tl)))
        | (TypeV::Primitive(PrimitiveType::Bytes(fl)), TypeV::Primitive(PrimitiveType::Int(tl))) =>
            if implicit { implicit_refused } else if fl * 8 != tl { refused } else { CastOutcome::Keep },
        (TypeV::Primitive(PrimitiveType::Uint(fl)), TypeV::Primitive(PrimitiveType::Bytes(tl)))
        | (TypeV::Primitive(PrimitiveType::Int(fl)), TypeV::Primitive(PrimitiveType::Bytes(tl))) =>
            if implicit { implicit_refused } else if tl * 8 != fl { refused } else { CastOutcome::Keep },
        (TypeV::Primitive(PrimitiveType::Bytes(fl)), TypeV::Primitive(PrimitiveType::Address)) =>
            if implicit { implicit_refused } else if fl != 20 { refused } else { CastOutcome::Keep },
        (TypeV::Primitive(PrimitiveType::Address), TypeV::Primitive(PrimitiveType::Bytes(tl))) =>
            if implicit { implicit_refused } else if tl != 20 { refused } else { CastOutcome::Keep },
        (TypeV::Primitive(PrimitiveType::Bytes(_)), TypeV::Primitive(PrimitiveType::String)) => CastOutcome::Keep,
        (TypeV::Primitive(PrimitiveType::String), TypeV::Primitive(PrimitiveType::Bytes(tl))) =>
            match expr {
                LitView::Bytes(len) => if len > tl {
                    CastOutcome::Refused("string of "@ + nat_decimal(len) + " bytes is too long to fit into "@ + type_text(to, c))
                } else {
                    CastOutcome::Keep
                },
                _ => CastOutcome::Keep,
            },
        _ => CastOutcome::Refused("conversion from "@ + type_text(from, c) + " to "@ + type_text(to, c) + " not possible"@),
    }
}

/// Does the number fit a signed integer of `w` bits, from `-2^(w-1)` to
/// `2^(w-1) - 1`? A negative number fits where one more than it, taken
/// positively, has fewer than `w` bits.
pub open spec fn fits_signed(n: int, w: nat) -> bool {
    if n >= 0 { bit_length(n as nat) < w } else { bit_length(abs_int(n + 1)) < w }
}

/// What converting `expr` from one type to another does. The same type keeps
/// the expression. A number literal gets the width of an integer target when
/// it fits (and is not negative for an unsigned one); a bytes literal is
/// padded to a longer `bytesN`.
pub open spec fn cast_outcome(expr: Expression, from: Type, to: Type, implicit: bool, c: Contract) -> CastOutcome {
    cast_outcome_view(lit_view(expr), from, to, implicit, c)
}

/// What an expression is as far as conversions look at it: a number literal
/// with its value, a bytes literal with its length, or anything else.
pub enum LitView {
    Number(int),
    Bytes(nat),
    Other,
}

/// The literal view of an expression.
pub open spec fn lit_view(e: Expression) -> LitView {
    match e {
        Expression::NumberLiteral(_, n) => LitView::Number(n@),
        Expression::BytesLiteral(bs) => LitView::Bytes(bs@.len()),
        _ => LitView::Other,
    }
}

/// `cast_outcome` over the literal view of the expression.
pub open spec fn cast_outcome_view(expr: LitView, from: Type, to: Type, implicit: bool, c: Contract) -> CastOutcome {
    if from@ == to@ {
        CastOutcome::Keep
    } else {
        let f = conv_type(from, implicit, c);
        let t = conv_type(to, implicit, c);
        let truncate = CastOutcome::Refused(from_to("implicit conversion would truncate"@, from, to, c));
        match (expr, f, t) {
            (LitView::Number(n), TypeV::Primitive(_), TypeV::Primitive(PrimitiveType::Uint(tl))) =>
                if n < 0 {
                    CastOutcome::Refused("implicit conversion cannot change negative number to "@ + type_text(to, c))
                } else if bit_length(abs_int(n)) > tl {
                    truncate
                } else {
                    CastOutcome::Literal(tl)
                },
            (LitView::Number(n), TypeV::Primitive(_), TypeV::Primitive(PrimitiveType::Int(tl))) =>
                if !fits_signed(n, tl as nat) { truncate } else { CastOutcome::Literal(tl) },
            (LitView::Bytes(len), TypeV::Primitive(_), TypeV::Primitive(PrimitiveType::Bytes(tl))) =>
                if len > tl { truncate } else { CastOutcome::Padded(tl as nat) },
            _ => cast_general(expr, f, t, from, to, implicit, c),
        }
    }
}

/// A copy of an expression converts as the expression does.
pub proof fn lemma_cast_outcome_same_literal(a: Expression, b: Expression, from: Type, to: Type, implicit: bool, c: Contract)
    requires
        same_literal(a, b),
    ensures
        cast_outcome(a, from, to, implicit, c) == cast_outcome(b, from, to, implicit, c),
{
}

/// The result of a conversion is what the outcome says.
pub open spec fn cast_done(r: Result<Expression, ()>, expr: Expression, to: Type, o: CastOutcome) -> bool {
    match o {
        CastOutcome::Keep => r == Ok::<Expression, ()>(expr),
        CastOutcome::Literal(w) => r matches Ok(Expression::NumberLiteral(w2, n2)) && w2 == w
            && (expr matches Expression::NumberLiteral(_, n) && n2@ == n@ && (n.wf() ==> n2.wf())),
        CastOutcome::Padded(k) => r matches Ok(Expression::BytesLiteral(v))
            && (expr matches Expression::BytesLiteral(bs) && v@ == bs@ + Seq::new((k - bs@.len()) as nat, |i: int| 0u8)),
        CastOutcome::Trunc => r matches Ok(Expression::Trunc(t, e)) && t@ == to@ && *e == expr,
        CastOutcome::ZeroExt => r matches Ok(Expression::ZeroExt(t, e)) && t@ == to@ && *e == expr,
        CastOutcome::SignExt => r matches Ok(Expression::SignExt(t, e)) && t@ == to@ && *e == expr,
        CastOutcome::Widen(w, sh) => r matches Ok(Expression::ShiftLeft(a, b))
            && (*a matches Expression::ZeroExt(t, e) && t@ == to@ && *e == expr)
            && (*b matches Expression::NumberLiteral(w2, n) && w2 == w && n@ == sh),
        CastOutcome::Narrow(w, sh) => r matches Ok(Expression::Trunc(t, a)) && t@ == to@
            && (*a matches Expression::ShiftRight(x, y, signed) && !signed && *x == expr
                && (*y matches Expression::NumberLiteral(w2, n) && w2 == w && n@ == sh)),
        CastOutcome::Refused(_) => r is Err,
    }
}

/// `from_to` built at run time.
fn from_to_msg(text: &str, from: &Type, to: &Type, ns: &Contract) -> (r: String)
    requires
        ns.wf(),
        type_wf(*from, ns.enums@.len(), ns.structs@.len()),
        type_wf(*to, ns.enums@.len(), ns.structs@.len()),
    ensures
        r@ == from_to(text@, *from, *to, *ns),
{
    let f = from.to_string(ns);
    let t = to.to_string(ns);
    let a = join4(text, " from ", f.as_str(), " to ");
    join2(a.as_str(), t.as_str())
}

/// `to_from_refused` built at run time.
fn to_from_msg(text: &str, from: &Type, to: &Type, ns: &Contract) -> (r: String)
    requires
        ns.wf(),
        type_wf(*from, ns.enums@.len(), ns.structs@.len()),
        type_wf(*to, ns.enums@.len(), ns.structs@.len()),
    ensures
        r@ == to_from_refused(text@, *from, *to, *ns),
{
    let f = from.to_string(ns);
    let t = to.to_string(ns);
    let a = join4(text, " to ", t.as_str(), " from ");
    join3(a.as_str(), f.as_str(), " not allowed")
}

/// Report a refused conversion.
fn refuse(loc: &Loc, msg: String, errors: &mut Vec<Output>) -> (r: Result<Expression, ()>)
    ensures
        r is Err,
        final(errors)@ == old(errors)@.push(final(errors)@.last()),
        is_diag(final(errors)@.last(), Level::Error, ErrorType::TypeError, *loc, msg@),
{
    errors.push(Output::type_error(*loc, msg));
    Err(())
}

/// Convert an expression from one type to another; `implicit` is for the
/// conversions that assignments, operators and arguments do, which may not
/// lose information. A refused conversion is a type error at `loc`.
#[verifier::rlimit(60)]
pub fn cast(
    loc: &Loc,
    expr: Expression,
    from: &Type,
    to: &Type,
    implicit: bool,
    ns: &Contract,
    errors: &mut Vec<Output>,
) -> (r: Result<Expression, ()>)
    requires
        ns.wf(),
        type_wf(*from, ns.enums@.len(), ns.structs@.len()),
        type_wf(*to, ns.enums@.len(), ns.structs@.len()),
    ensures
        cast_done(r, expr, *to, cast_outcome(expr, *from, *to, implicit, *ns)),
        cast_outcome(expr, *from, *to, implicit, *ns) matches CastOutcome::Refused(m) ==> {
            &&& final(errors)@ == old(errors)@.push(final(errors)@.last())
            &&& is_diag(final(errors)@.last(), Level::Error, ErrorType::TypeError, *loc, m)
        },
        !(cast_outcome(expr, *from, *to, implicit, *ns) is Refused) ==> final(errors)@ == old(errors)@,
        r is Ok ==> forall|n: nat| expression_wf(expr, n, *ns) ==> #[trigger] expression_wf(r.unwrap(), n, *ns),
        r is Ok ==> final(errors)@ == old(errors)@,
        r is Err ==> final(errors)@ == old(errors)@.push(final(errors)@.last()) && final(errors)@.last().level == Level::Error,
        extends(old(errors)@, final(errors)@),
        r is Err ==> error_added(old(errors)@, final(errors)@),
{
    let ghost e0 = errors@;
    let r = cast_inner(loc, expr, from, to, implicit, ns, errors);
    proof {
        if r is Err {
            lemma_pushed_error(e0, errors@);
        }
    }
    r
}

/// `cast` without the summary of its diagnostics.
#[verifier::rlimit(60)]
fn cast_inner(
    loc: &Loc,
    expr: Expression,
    from: &Type,
    to: &Type,
    implicit: bool,
    ns: &Contract,
    errors: &mut Vec<Output>,
) -> (r: Result<Expression, ()>)
    requires
        ns.wf(),
        type_wf(*from, ns.enums@.len(), ns.structs@.len()),
        type_wf(*to, ns.enums@.len(), ns.structs@.len()),
    ensures
        cast_done(r, expr, *to, cast_outcome(expr, *from, *to, implicit, *ns)),
        cast_outcome(expr, *from, *to, implicit, *ns) matches CastOutcome::Refused(m) ==> {
            &&& final(errors)@ == old(errors)@.push(final(errors)@.last())
            &&& is_diag(final(errors)@.last(), Level::Error, ErrorType::TypeError, *loc, m)
        },
        !(cast_outcome(expr, *from, *to, implicit, *ns) is Refused) ==> final(errors)@ == old(errors)@,
        r is Ok ==> forall|n: nat| expression_wf(expr, n, *ns) ==> #[trigger] expression_wf(r.unwrap(), n, *ns),
        r is Ok ==> final(errors)@ == old(errors)@,
        r is Err ==> final(errors)@ == old(errors)@.push(final(errors)@.last()) && final(errors)@.last().level == Level::Error,
{
    if from.same(to) {
        return Ok(expr);
    }
    let from_conv = match from {
        Type::Enum(n) if !implicit => Type::Primitive(ns.enums[*n].ty),
        _ => from.duplicate(),
    };
    let to_conv = match to {
        Type::Enum(n) if !implicit => Type::Primitive(ns.enums[*n].ty),
        _ => to.duplicate(),
    };
    assert(from_conv@ == conv_type(*from, implicit, *ns));
    assert(to_conv@ == conv_type(*to, implicit, *ns));
    let literal_case = match (&expr, &from_conv, &to_conv) {
        (Expression::NumberLiteral(_, _), Type::Primitive(_), Type::Primitive(PrimitiveType::Uint(_))) => true,
        (Expression::NumberLiteral(_, _), Type::Primitive(_), Type::Primitive(PrimitiveType::Int(_))) => true,
        (Expression::BytesLiteral(_), Type::Primitive(_), Type::Primitive(PrimitiveType::Bytes(_))) => true,
        _ => false,
    };
    if literal_case {
        return cast_literal(loc, expr, from, to, &to_conv, ns, errors);
    }
    assert(cast_outcome(expr, *from, *to, implicit, *ns) == cast_general(lit_view(expr), from_conv@, to_conv@, *from, *to, implicit, *ns));
    cast_conv(loc, expr, from, to, &from_conv, &to_conv, implicit, ns, errors)
}

/// The literal cases of `cast`.
fn cast_literal(
    loc: &Loc,
    expr: Expression,
    from: &Type,
    to: &Type,
    to_conv: &Type,
    ns: &Contract,
    errors: &mut Vec<Output>,
) -> (r: Result<Expression, ()>)
    requires
        ns.wf(),
        type_wf(*from, ns.enums@.len(), ns.structs@.len()),
        type_wf(*to, ns.enums@.len(), ns.structs@.len()),
        match (expr, to_conv@) {
            (Expression::NumberLiteral(_, _), TypeV::Primitive(PrimitiveType::Uint(_))) => true,
            (Expression::NumberLiteral(_, _), TypeV::Primitive(PrimitiveType::Int(_))) => true,
            (Expression::BytesLiteral(_), TypeV::Primitive(PrimitiveType::Bytes(_))) => true,
            _ => false,
        },
    ensures
        ({
            let truncate = CastOutcome::Refused(from_to("implicit conversion would truncate"@, *from, *to, *ns));
            let o = match (expr, to_conv@) {
                (Expression::NumberLiteral(_, n), TypeV::Primitive(PrimitiveType::Uint(tl))) =>
                    if n@ < 0 {
                        CastOutcome::Refused("implicit conversion cannot change negative number to "@ + type_text(*to, *ns))
                    } else if bit_length(abs_int(n@)) > tl {
                        truncate
                    } else {
                        CastOutcome::Literal(tl)
                    },
                (Expression::NumberLiteral(_, n), TypeV::Primitive(PrimitiveType::Int(tl))) =>
                    if !fits_signed(n@, tl as nat) { truncate } else { CastOutcome::Literal(tl) },
                (Expression::BytesLiteral(bs), TypeV::Primitive(PrimitiveType::Bytes(tl))) =>
                    if bs@.len() > tl { truncate } else { CastOutcome::Padded(tl as nat) },
                _ => CastOutcome::Keep,
            };
            &&& cast_done(r, expr, *to, o)
            &&& o matches CastOutcome::Refused(m) ==> {
                &&& final(errors)@ == old(errors)@.push(final(errors)@.last())
                &&& is_diag(final(errors)@.last(), Level::Error, ErrorType::TypeError, *loc, m)
            }
            &&& !(o is Refused) ==> final(errors)@ == old(errors)@
        }),
        r is Ok ==> forall|n: nat, c: Contract| #[trigger] expression_wf(r.unwrap(), n, c),
{
    match (expr, to_conv) {
        (Expression::NumberLiteral(_, n), Type::Primitive(PrimitiveType::Uint(to_len))) => {
            if big_is_negative(&n) {
                proof { reveal_strlit("implicit conversion cannot change negative number to "); }
                let msg = join2("implicit conversion cannot change negative number to ", to.to_string(ns).as_str());
                refuse(loc, msg, errors)
            } else if big_bits(&n) > *to_len as u64 {
                refuse(loc, from_to_msg("implicit conversion would truncate", from, to, ns), errors)
            } else {
                Ok(Expression::NumberLiteral(*to_len, n))
            }
        },
        (Expression::NumberLiteral(_, n), Type::Primitive(PrimitiveType::Int(to_len))) => {
            // a negative number fits where one more than it does: -2^(w-1) fits w bits
            let magnitude_bits = if big_is_negative(&n) {
                big_bits(&big_add(&n, &BigNum::from_u64(1)))
            } else {
                big_bits(&n)
            };
            if magnitude_bits >= *to_len as u64 {
                refuse(loc, from_to_msg("implicit conversion would truncate", from, to, ns), errors)
            } else {
                Ok(Expression::NumberLiteral(*to_len, n))
            }
        },
        (Expression::BytesLiteral(bs), Type::Primitive(PrimitiveType::Bytes(to_len))) => {
            if bs.len() > *to_len as usize {
                refuse(loc, from_to_msg("implicit conversion would truncate", from, to, ns), errors)
            } else {
                let mut v = bs;
                let ghost orig = v@;
                while v.len() < *to_len as usize
                    invariant
                        orig.len() <= v@.len() <= *to_len as nat,
                        v@ == orig + Seq::new((v@.len() - orig.len()) as nat, |i: int| 0u8),
                    decreases *to_len as nat - v@.len(),
                {
                    v.push(0);
                    assert(v@ =~= orig + Seq::new((v@.len() - orig.len()) as nat, |i: int| 0u8));
                }
                Ok(Expression::BytesLiteral(v))
            }
        },
        _ => Ok(Expression::Poison),
    }
}


/// `ShiftLeft(ZeroExt(to, expr), shift)`: a `bytesN` made longer.
fn widen_bytes(expr: Expression, to: &Type, width: u16, shift: u64) -> (r: Expression)
    ensures
        r matches Expression::ShiftLeft(a, b)
            && (*a matches Expression::ZeroExt(t, e) && t@ == to@ && *e == expr)
            && (*b matches Expression::NumberLiteral(w2, n) && w2 == width && n@ == shift),
        forall|n: nat, c: Contract| expression_wf(expr, n, c) && type_wf(*to, c.enums@.len(), c.structs@.len())
            ==> #[trigger] expression_wf(r, n, c),
{
    let inner = Expression::ZeroExt(to.duplicate(), Box::new(expr));
    let lit = Expression::NumberLiteral(width, BigNum::from_u64(shift));
    assert forall|n: nat, c: Contract| expression_wf(expr, n, c) && type_wf(*to, c.enums@.len(), c.structs@.len())
        implies #[trigger] expression_wf(inner, n, c) && expression_wf(lit, n, c) by {
        assert(expression_wf(lit, n, c));
        assert(expression_wf(inner, n, c));
    }
    let r = Expression::ShiftLeft(Box::new(inner), Box::new(lit));
    assert forall|n: nat, c: Contract| expression_wf(expr, n, c) && type_wf(*to, c.enums@.len(), c.structs@.len())
        implies #[trigger] expression_wf(r, n, c) by {
        assert(expression_wf(inner, n, c) && expression_wf(lit, n, c));
    }
    r
}

/// `Trunc(to, ShiftRight(expr, shift))`: a `bytesN` made shorter.
fn narrow_bytes(expr: Expression, to: &Type, width: u16, shift: u64) -> (r: Expression)
    ensures
        r matches Expression::Trunc(t, a) && t@ == to@
            && (*a matches Expression::ShiftRight(x, y, signed) && !signed && *x == expr
                && (*y matches Expression::NumberLiteral(w2, n) && w2 == width && n@ == shift)),
        forall|n: nat, c: Contract| expression_wf(expr, n, c) && type_wf(*to, c.enums@.len(), c.structs@.len())
            ==> #[trigger] expression_wf(r, n, c),
{
    let lit = Expression::NumberLiteral(width, BigNum::from_u64(shift));
    let inner = Expression::ShiftRight(Box::new(expr), Box::new(lit), false);
    assert forall|n: nat, c: Contract| expression_wf(expr, n, c)
        implies #[trigger] expression_wf(inner, n, c) by {
        assert(expression_wf(lit, n, c));
    }
    let r = Expression::Trunc(to.duplicate(), Box::new(inner));
    assert forall|n: nat, c: Contract| expression_wf(expr, n, c) && type_wf(*to, c.enums@.len(), c.structs@.len())
        implies #[trigger] expression_wf(r, n, c) by {
        assert(expression_wf(inner, n, c));
    }
    r
}

/// The conversions of `cast` that depend only on the two types.
#[verifier::rlimit(80)]
fn cast_conv(
    loc: &Loc,
    expr: Expression,
    from: &Type,
    to: &Type,
    from_conv: &Type,
    to_conv: &Type,
    implicit: bool,
    ns: &Contract,
    errors: &mut Vec<Output>,
) -> (r: Result<Expression, ()>)
    requires
        ns.wf(),
        type_wf(*from, ns.enums@.len(), ns.structs@.len()),
        type_wf(*to, ns.enums@.len(), ns.structs@.len()),
    ensures
        ({
            let o = cast_general(lit_view(expr), from_conv@, to_conv@, *from, *to, implicit, *ns);
            &&& cast_done(r, expr, *to, o)
            &&& o matches CastOutcome::Refused(m) ==> {
                &&& final(errors)@ == old(errors)@.push(final(errors)@.last())
                &&& is_diag(final(errors)@.last(), Level::Error, ErrorType::TypeError, *loc, m)
            }
            &&& !(o is Refused) ==> final(errors)@ == old(errors)@
        }),
        r is Ok ==> forall|n: nat| expression_wf(expr, n, *ns) ==> #[trigger] expression_wf(r.unwrap(), n, *ns),
{
    proof {
        reveal_strlit("implicit conversion from ");
        reveal_strlit(" to address not allowed");
        reveal_strlit("implicit conversion to ");
        reveal_strlit(" from address not allowed");
    }
    match (from_conv, to_conv) {
        (Type::Primitive(PrimitiveType::Uint(fl)), Type::Primitive(PrimitiveType::Uint(tl))) => {
            if *fl > *tl {
                if implicit {
                    refuse(loc, from_to_msg("implicit conversion would truncate", from, to, ns), errors)
                } else {
                    Ok(Expression::Trunc(to.duplicate(), Box::new(expr)))
                }
            } else if *fl < *tl {
                Ok(Expression::ZeroExt(to.duplicate(), Box::new(expr)))
            } else {
                Ok(expr)
            }
        },
        (Type::Primitive(PrimitiveType::Int(fl)), Type::Primitive(PrimitiveType::Int(tl))) => {
            if *fl > *tl {
                if implicit {
                    refuse(loc, from_to_msg("implicit conversion would truncate", from, to, ns), errors)
                } else {
                    Ok(Expression::Trunc(to.duplicate(), Box::new(expr)))
                }
            } else if *fl < *tl {
                Ok(Expression::SignExt(to.duplicate(), Box::new(expr)))
            } else {
                Ok(expr)
            }
        },
        (Type::Primitive(PrimitiveType::Uint(fl)), Type::Primitive(PrimitiveType::Int(tl))) => {
            if *tl > *fl {
                Ok(Expression::ZeroExt(to.duplicate(), Box::new(expr)))
            } else if implicit {
                refuse(loc, from_to_msg("implicit conversion would change sign", from, to, ns), errors)
            } else if *fl > *tl {
                Ok(Expression::Trunc(to.duplicate(), Box::new(expr)))
            } else {
                Ok(expr)
            }
        },
        (Type::Primitive(PrimitiveType::Int(fl)), Type::Primitive(PrimitiveType::Uint(tl))) => {
            if implicit {
                refuse(loc, from_to_msg("implicit conversion would change sign", from, to, ns), errors)
            } else if *fl > *tl {
                Ok(Expression::Trunc(to.duplicate(), Box::new(expr)))
            } else if *fl < *tl {
                Ok(Expression::SignExt(to.duplicate(), Box::new(expr)))
            } else {
                Ok(expr)
            }
        },
        (Type::Primitive(PrimitiveType::Uint(fl)), Type::Primitive(PrimitiveType::Address))
        | (Type::Primitive(PrimitiveType::Int(fl)), Type::Primitive(PrimitiveType::Address)) => {
            if implicit {
                let msg = join3("implicit conversion from ", from.to_string(ns).as_str(), " to address not allowed");
                refuse(loc, msg, errors)
            } else if *fl > 160 {
                Ok(Expression::Trunc(to.duplicate(), Box::new(expr)))
            } else if *fl < 160 {
                Ok(Expression::ZeroExt(to.duplicate(), Box::new(expr)))
            } else {
                Ok(expr)
            }
        },
        (Type::Primitive(PrimitiveType::Address), Type::Primitive(PrimitiveType::Uint(tl)))
        | (Type::Primitive(PrimitiveType::Address), Type::Primitive(PrimitiveType::Int(tl))) => {
            if implicit {
                let msg = join3("implicit conversion to ", from.to_string(ns).as_str(), " from address not allowed");
                refuse(loc, msg, errors)
            } else if *tl < 160 {
                Ok(Expression::Trunc(to.duplicate(), Box::new(expr)))
            } else if *tl > 160 {
                Ok(Expression::ZeroExt(to.duplicate(), Box::new(expr)))
            } else {
                Ok(expr)
            }
        },
        (Type::Primitive(PrimitiveType::Bytes(fl)), Type::Primitive(PrimitiveType::Bytes(tl))) => {
            if implicit {
                refuse(loc, from_to_msg("implicit conversion would truncate", from, to, ns), errors)
            } else if *tl > *fl {
                Ok(widen_bytes(expr, to, *tl as u16 * 8, ((*tl - *fl) as u64) * 8))
            } else {
                Ok(narrow_bytes(expr, to, *fl as u16 * 8, ((*fl - *tl) as u64) * 8))
            }
        },
        (Type::Primitive(PrimitiveType::Bytes(fl)), Type::Primitive(PrimitiveType::Uint(tl)))
        | (Type::Primitive(PrimitiveType::Bytes(fl)), Type::Primitive(PrimitiveType::Int(tl))) => {
            if implicit {
                refuse(loc, to_from_msg("implicit conversion", from, to, ns), errors)
            } else if *fl as u16 * 8 != *tl {
                refuse(loc, to_from_msg("conversion", from, to, ns), errors)
            } else {
                Ok(expr)
            }
        },
        (Type::Primitive(PrimitiveType::Uint(fl)), Type::Primitive(PrimitiveType::Bytes(tl)))
        | (Type::Primitive(PrimitiveType::Int(fl)), Type::Primitive(PrimitiveType::Bytes(tl))) => {
            if implicit {
                refuse(loc, to_from_msg("implicit conversion", from, to, ns), errors)
            } else if *tl as u16 * 8 != *fl {
                refuse(loc, to_from_msg("conversion", from, to, ns), errors)
            } else {
                Ok(expr)
            }
        },
        (Type::Primitive(PrimitiveType::Bytes(fl)), Type::Primitive(PrimitiveType::Address)) => {
            if implicit {
                refuse(loc, to_from_msg("implicit conversion", from, to, ns), errors)
            } else if *fl != 20 {
                refuse(loc, to_from_msg("conversion", from, to, ns), errors)
            } else {
                Ok(expr)
            }
        },
        (Type::Primitive(PrimitiveType::Address), Type::Primitive(PrimitiveType::Bytes(tl))) => {
            if implicit {
                refuse(loc, to_from_msg("implicit conversion", from, to, ns), errors)
            } else if *tl != 20 {
                refuse(loc, to_from_msg("conversion", from, to, ns), errors)
            } else {
                Ok(expr)
            }
        },
        (Type::Primitive(PrimitiveType::Bytes(_)), Type::Primitive(PrimitiveType::String)) => Ok(expr),
        (Type::Primitive(PrimitiveType::String), Type::Primitive(PrimitiveType::Bytes(tl))) => {
            let too_long = match &expr {
                Expression::BytesLiteral(bs) => bs.len() > *tl as usize,
                _ => false,
            };
            if too_long {
                let len = match &expr {
                    Expression::BytesLiteral(bs) => bs.len(),
                    _ => 0,
                };
                proof {
                    reveal_strlit("string of ");
                    reveal_strlit(" bytes is too long to fit into ");
                }
                let msg = join4("string of ", u64_to_decimal(len as u64).as_str(), " bytes is too long to fit into ", to.to_string(ns).as_str());
                refuse(loc, msg, errors)
            } else {
                Ok(expr)
            }
        },
        _ => {
            proof {
                reveal_strlit("conversion from ");
                reveal_strlit(" to ");
                reveal_strlit(" not possible");
            }
            let f = from.to_string(ns);
            let t = to.to_string(ns);
            let msg = join5_owned("conversion from ", f.as_str(), " to ", t.as_str(), " not possible");
            refuse(loc, msg, errors)
        },
    }
}

/// Five pieces in a row.
fn join5_owned(a: &str, b: &str, c: &str, d: &str, e: &str) -> (r: String)
    ensures
        r@ == a@ + b@ + c@ + d@ + e@,
{
    crate::output::join5(a, b, c, d, e)
}

/// Converting a value to the type it already has leaves it as it is.
pub proof fn lemma_cast_same_type(expr: Expression, from: Type, to: Type, implicit: bool, c: Contract)
    requires
        from@ == to@,
    ensures
        cast_outcome(expr, from, to, implicit, c) == CastOutcome::Keep,
{
}


/// The number a `bytesN` value stands for: its bytes read big endian, the
/// first byte the most significant.
pub open spec fn be_value(b: Seq<u8>) -> nat
    decreases b.len(),
{
    if b.len() == 0 { 0 } else { be_value(b.drop_last()) * 256 + (b.last() as nat) }
}

/// `256` to the power `j`: shifting right by `8 * j` bits divides by it.
pub open spec fn p256(j: nat) -> nat
    decreases j,
{
    if j == 0 { 1 } else { 256 * p256((j - 1) as nat) }
}

/// A value splits into its first `m` bytes, worth `256` to the power of the
/// number of the other bytes, and those other bytes, worth less than that.
proof fn lemma_be_split(b: Seq<u8>, m: int)
    requires
        0 <= m <= b.len(),
    ensures
        be_value(b) == be_value(b.take(m)) * p256((b.len() - m) as nat) + be_value(b.skip(m)),
        be_value(b.skip(m)) < p256((b.len() - m) as nat),
    decreases b.len(),
{
    if b.len() == m {
        assert(b.take(m) =~= b);
        assert(b.skip(m) =~= Seq::<u8>::empty());
        let z = (b.len() - m) as nat;
        assert(z == 0);
        assert(p256(z) == 1);
        assert(be_value(b.skip(m)) == 0);
        assert(be_value(b.take(m)) == be_value(b));
        assert(be_value(b) == be_value(b.take(m)) * p256((b.len() - m) as nat) + be_value(b.skip(m)));
    } else {
        let c = b.drop_last();
        lemma_be_split(c, m);
        assert(c.take(m) =~= b.take(m));
        assert(b.skip(m).drop_last() =~= c.skip(m));
        assert(b.skip(m).last() == b.last());
        assert(be_value(b.skip(m)) == be_value(c.skip(m)) * 256 + (b.last() as nat));
        let p = p256((c.len() - m) as nat);
        let t = be_value(b.take(m));
        let r = be_value(c.skip(m));
        assert(p256((b.len() - m) as nat) == 256 * p);
        assert(be_value(b) == (t * p + r) * 256 + (b.last() as nat));
        assert((t * p + r) * 256 + (b.last() as nat) == t * (256 * p) + (r * 256 + (b.last() as nat))) by (nonlinear_arith);
        assert(r * 256 + (b.last() as nat) < 256 * p) by (nonlinear_arith)
            requires r < p, b.last() < 256;
        assert(be_value(b) == t * p256((b.len() - m) as nat) + be_value(b.skip(m)));
    }
}

/// Shifting a `bytesN` value right by the bits of its last `N - M` bytes
/// leaves the value of its first `M` bytes.
pub proof fn lemma_leading_bytes(b: Seq<u8>, m: int)
    requires
        0 <= m <= b.len(),
    ensures
        be_value(b) / p256((b.len() - m) as nat) == be_value(b.take(m)),
{
    lemma_be_split(b, m);
    vstd::arithmetic::div_mod::lemma_fundamental_div_mod_converse(be_value(b) as int, p256((b.len() - m) as nat) as int,
        be_value(b.take(m)) as int, be_value(b.skip(m)) as int);
}

/// Resizing a `bytesN` value explicitly keeps the bytes at its start: made
/// shorter (`bytesM`, `M < N`), the value is shifted right, unsigned, by the
/// bits of the `N - M` trailing bytes that are dropped, at the width of the
/// source, and then truncated, so `bytes4(0x0102030405060708)` is
/// `0x01020304`; made longer, it is zero extended and shifted left by the
/// bits of the `M - N` zero bytes added at its end.
pub proof fn law_bytes_resize_keeps_leading_bytes(expr: Expression, n: u8, m: u8, r: Result<Expression, ()>, c: Contract)
    requires
        !(expr is BytesLiteral),
        cast_done(r, expr, Type::Primitive(PrimitiveType::Bytes(m)),
            cast_outcome(expr, Type::Primitive(PrimitiveType::Bytes(n)), Type::Primitive(PrimitiveType::Bytes(m)), false, c)),
    ensures
        m < n ==> (r matches Ok(Expression::Trunc(t, a)) && t@ == TypeV::Primitive(PrimitiveType::Bytes(m))
            && (*a matches Expression::ShiftRight(x, y, signed) && !signed && *x == expr
                && (*y matches Expression::NumberLiteral(w, k) && w == n * 8 && k@ == (n - m) * 8
                    && forall|b: Seq<u8>| b.len() == n
                        ==> #[trigger] be_value(b) / p256((k@ / 8) as nat) == be_value(b.take(m as int))))),
        n < m ==> (r matches Ok(Expression::ShiftLeft(a, b))
            && (*a matches Expression::ZeroExt(t, x) && t@ == TypeV::Primitive(PrimitiveType::Bytes(m)) && *x == expr)
            && (*b matches Expression::NumberLiteral(w, k) && w == m * 8 && k@ == (m - n) * 8)),
        n == m ==> r == Ok::<Expression, ()>(expr),
{
    if m < n {
        assert forall|b: Seq<u8>| b.len() == n implies #[trigger] be_value(b) / p256((((n - m) * 8) / 8) as nat)
            == be_value(b.take(m as int)) by {
            assert(((n - m) * 8) / 8 == n - m);
            lemma_leading_bytes(b, m as int);
        }
    }
}


/// Converting between integer types of different widths keeps the number
/// where the target can hold it: a wider target extends the value by its own
/// sign, a signed source being sign extended and an unsigned one zero
/// extended; a narrower target truncates it, which only an explicit
/// conversion may do. An implicit conversion is refused where it could lose
/// the value: to a narrower type, from signed to unsigned, or from unsigned
/// to a signed type that is not wider. An explicit one is always done.
pub proof fn law_integer_resize(expr: Expression, from: Type, to: Type, implicit: bool, r: Result<Expression, ()>, c: Contract)
    requires
        !(expr is NumberLiteral),
        int_length(from, false) is Some,
        int_length(to, false) is Some,
        from@ != to@,
        cast_done(r, expr, to, cast_outcome(expr, from, to, implicit, c)),
    ensures
        ({
            let (fw, fs) = int_length(from, false).unwrap();
            let (tw, ts) = int_length(to, false).unwrap();
            &&& tw > fw && r is Ok ==> if fs {
                    r matches Ok(Expression::SignExt(t, x)) && t@ == to@ && *x == expr
                } else {
                    r matches Ok(Expression::ZeroExt(t, x)) && t@ == to@ && *x == expr
                }
            &&& tw < fw && r is Ok ==> (r matches Ok(Expression::Trunc(t, x)) && t@ == to@ && *x == expr)
            &&& !implicit ==> r is Ok
            &&& implicit ==> (r is Err <==> (tw < fw || (fs && !ts) || (!fs && ts && tw <= fw)))
        }),
{
}

} // verus!
