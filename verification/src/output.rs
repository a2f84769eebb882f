//! Compiler diagnostics: errors, warnings and informational messages.
use crate::ast::Loc;
use vstd::prelude::*;

verus! {

/// Severity of a diagnostic.
#[derive(PartialEq, Eq, Structural, Clone, Copy, Debug)]
pub enum Level {
    Debug,
    Info,
    Warning,
    Error,
}

/// The kind of problem a diagnostic reports.
#[derive(PartialEq, Eq, Structural, Clone, Copy, Debug)]
pub enum ErrorType {
    NoError,
    ParserError,
    SyntaxError,
    DeclarationError,
    TypeError,
    Warning,
}

/// A secondary location attached to a diagnostic.
#[derive(Debug)]
pub struct Note {
    pub pos: Loc,
    pub message: String,
}

/// One diagnostic.
#[derive(Debug)]
pub struct Output {
    pub level: Level,
    pub ty: ErrorType,
    pub pos: Loc,
    pub message: String,
    pub notes: Vec<Note>,
}

/// The diagnostic has the given level, position and message and no notes.
pub open spec fn is_diag(o: Output, level: Level, ty: ErrorType, pos: Loc, message: Seq<char>) -> bool {
    &&& o.level == level
    &&& o.ty == ty
    &&& o.pos == pos
    &&& o.message@ == message
    &&& o.notes@.len() == 0
}

/// The diagnostic has the given level, position and message and one note.
pub open spec fn is_diag_note(
    o: Output,
    level: Level,
    ty: ErrorType,
    pos: Loc,
    message: Seq<char>,
    note_pos: Loc,
    note: Seq<char>,
) -> bool {
    &&& o.level == level
    &&& o.ty == ty
    &&& o.pos == pos
    &&& o.message@ == message
    &&& o.notes@.len() == 1
    &&& o.notes@[0].pos == note_pos
    &&& o.notes@[0].message@ == note
}

/// The parts with `sep` between each two of them.
pub open spec fn joined(parts: Seq<Seq<char>>, sep: Seq<char>) -> Seq<char>
    decreases parts.len(),
{
    if parts.len() == 0 {
        Seq::empty()
    } else if parts.len() == 1 {
        parts[0]
    } else {
        joined(parts.drop_last(), sep) + sep + parts.last()
    }
}

/// `new` is `old` with diagnostics appended.
pub open spec fn extends(old: Seq<Output>, new: Seq<Output>) -> bool {
    &&& old.len() <= new.len()
    &&& forall|i: int| 0 <= i < old.len() ==> #[trigger] new[i] == old[i]
}

/// Some diagnostic appended after `old` is an error.
pub open spec fn error_added(old: Seq<Output>, new: Seq<Output>) -> bool {
    exists|i: int| old.len() <= i < new.len() && (#[trigger] new[i]).level == Level::Error
}

/// Some diagnostic in the list is an error.
pub open spec fn has_error(list: Seq<Output>) -> bool {
    exists|i: int| 0 <= i < list.len() && (#[trigger] list[i]).level == Level::Error
}

/// Appending keeps every diagnostic already present.
pub proof fn lemma_extends_trans(a: Seq<Output>, b: Seq<Output>, c: Seq<Output>)
    requires
        extends(a, b),
        extends(b, c),
    ensures
        extends(a, c),
{
}

/// An error added after `b`, which extends `a`, is an error added after `a`.
pub proof fn lemma_error_added_trans(a: Seq<Output>, b: Seq<Output>, c: Seq<Output>)
    requires
        extends(a, b),
        extends(b, c),
    ensures
        error_added(b, c) ==> error_added(a, c),
        error_added(a, b) ==> error_added(a, c),
{
    if error_added(a, b) {
        let i = choose|i: int| a.len() <= i < b.len() && (#[trigger] b[i]).level == Level::Error;
        assert(c[i] == b[i]);
    }
}

/// One diagnostic more, an error.
pub proof fn lemma_pushed_error(a: Seq<Output>, b: Seq<Output>)
    requires
        b == a.push(b.last()) || (b.len() == a.len() + 1 && b.drop_last() == a),
        b.last().level == Level::Error,
    ensures
        extends(a, b),
        error_added(a, b),
{
    if b.len() == a.len() + 1 && b.drop_last() == a {
        assert forall|i: int| 0 <= i < a.len() implies #[trigger] b[i] == a[i] by {
            assert(b.drop_last()[i] == b[i]);
        }
    }
    assert(b[a.len() as int] == b.last());
}

/// One diagnostic more keeps the ones before.
pub proof fn lemma_extends_one(a: Seq<Output>, b: Seq<Output>)
    requires
        b.len() == a.len() + 1,
        b.drop_last() == a,
    ensures
        extends(a, b),
{
    assert forall|i: int| 0 <= i < a.len() implies #[trigger] b[i] == a[i] by {
        assert(b.drop_last()[i] == b[i]);
    }
}

/// Add an error diagnostic.
pub fn push_error(errors: &mut Vec<Output>, o: Output)
    requires
        o.level == Level::Error,
    ensures
        final(errors)@ == old(errors)@.push(o),
        extends(old(errors)@, final(errors)@),
        error_added(old(errors)@, final(errors)@),
{
    errors.push(o);
    assert(errors@[old(errors)@.len() as int] == o);
}

/// Add a diagnostic that is not an error.
pub fn push_note(errors: &mut Vec<Output>, o: Output)
    ensures
        final(errors)@ == old(errors)@.push(o),
        extends(old(errors)@, final(errors)@),
{
    errors.push(o);
}

impl Output {
    /// An informational message.
    pub fn info(pos: Loc, message: String) -> (r: Output)
        ensures
            is_diag(r, Level::Info, ErrorType::NoError, pos, message@),
    {
        Output { level: Level::Info, ty: ErrorType::NoError, pos, message, notes: Vec::new() }
    }

    /// A syntax error.
    pub fn error(pos: Loc, message: String) -> (r: Output)
        ensures
            is_diag(r, Level::Error, ErrorType::SyntaxError, pos, message@),
    {
        Output { level: Level::Error, ty: ErrorType::SyntaxError, pos, message, notes: Vec::new() }
    }

    /// A declaration error.
    pub fn decl_error(pos: Loc, message: String) -> (r: Output)
        ensures
            is_diag(r, Level::Error, ErrorType::DeclarationError, pos, message@),
    {
        Output {
            level: Level::Error,
            ty: ErrorType::DeclarationError,
            pos,
            message,
            notes: Vec::new(),
        }
    }

    /// A type error.
    pub fn type_error(pos: Loc, message: String) -> (r: Output)
        ensures
            is_diag(r, Level::Error, ErrorType::TypeError, pos, message@),
    {
        Output { level: Level::Error, ty: ErrorType::TypeError, pos, message, notes: Vec::new() }
    }

    /// A warning.
    pub fn warning(pos: Loc, message: String) -> (r: Output)
        ensures
            is_diag(r, Level::Warning, ErrorType::Warning, pos, message@),
    {
        Output { level: Level::Warning, ty: ErrorType::Warning, pos, message, notes: Vec::new() }
    }

    /// A syntax error pointing at a second location.
    pub fn error_with_note(pos: Loc, message: String, note_pos: Loc, note: String) -> (r: Output)
        ensures
            is_diag_note(r, Level::Error, ErrorType::SyntaxError, pos, message@, note_pos, note@),
    {
        let mut notes = Vec::new();
        notes.push(Note { pos: note_pos, message: note });
        Output { level: Level::Error, ty: ErrorType::SyntaxError, pos, message, notes }
    }

    /// A syntax error pointing at several other locations.
    pub fn error_with_notes(pos: Loc, message: String, notes: Vec<Note>) -> (r: Output)
        ensures
            r.level == Level::Error,
            r.ty == ErrorType::SyntaxError,
            r.pos == pos,
            r.message@ == message@,
            r.notes@ == notes@,
    {
        Output { level: Level::Error, ty: ErrorType::SyntaxError, pos, message, notes }
    }

    /// A warning pointing at a second location.
    pub fn warning_with_note(pos: Loc, message: String, note_pos: Loc, note: String) -> (r: Output)
        ensures
            is_diag_note(r, Level::Warning, ErrorType::Warning, pos, message@, note_pos, note@),
    {
        let mut notes = Vec::new();
        notes.push(Note { pos: note_pos, message: note });
        Output { level: Level::Warning, ty: ErrorType::Warning, pos, message, notes }
    }

    /// A warning pointing at several other locations.
    pub fn warning_with_notes(pos: Loc, message: String, notes: Vec<Note>) -> (r: Output)
        ensures
            r.level == Level::Warning,
            r.ty == ErrorType::Warning,
            r.pos == pos,
            r.message@ == message@,
            r.notes@ == notes@,
    {
        Output { level: Level::Warning, ty: ErrorType::Warning, pos, message, notes }
    }
}

/// `a` followed by `b`.
pub fn join2(a: &str, b: &str) -> (r: String)
    ensures
        r@ == a@ + b@,
{
    String::from_str(a).concat(b)
}

/// `a`, `b` and `c` in a row.
pub fn join3(a: &str, b: &str, c: &str) -> (r: String)
    ensures
        r@ == a@ + b@ + c@,
{
    String::from_str(a).concat(b).concat(c)
}

/// Append one character; std's `String::push`.
#[verifier::external_body]
pub fn push_char(s: &mut String, c: char)
    ensures
        final(s)@ == old(s)@.push(c),
{
    s.push(c)
}

/// `a` to `d` in a row.
pub fn join4(a: &str, b: &str, c: &str, d: &str) -> (r: String)
    ensures
        r@ == a@ + b@ + c@ + d@,
{
    String::from_str(a).concat(b).concat(c).concat(d)
}

/// `a` to `e` in a row.
pub fn join5(a: &str, b: &str, c: &str, d: &str, e: &str) -> (r: String)
    ensures
        r@ == a@ + b@ + c@ + d@ + e@,
{
    String::from_str(a).concat(b).concat(c).concat(d).concat(e)
}

/// Does the list hold an error?
pub fn any_errors(list: &Vec<Output>) -> (r: bool)
    ensures
        r == has_error(list@),
{
    let mut i: usize = 0;
    while i < list.len()
        invariant
            0 <= i <= list.len(),
            forall|j: int| 0 <= j < i ==> (#[trigger] list@[j]).level != Level::Error,
        decreases list.len() - i,
    {
        if list[i].level == Level::Error {
            return true;
        }
        i += 1;
    }
    false
}

} // verus!
