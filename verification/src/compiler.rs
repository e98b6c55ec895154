//! The expression compiler: from the text of an expression to bytecode,
//! with the notes that the expression refers to.
//!
//! The text is a chain of calls. It is read into a small tree first, and the
//! tree is then written out in the order in which the stack machine needs
//! its operands. Text that cannot be read compiles to the constant zero.

use crate::bytecode::spec_i32_bytes;
use crate::bytecode::spec_u16_bytes;
use crate::bytecode::write_i32;
use crate::bytecode::write_u16;
use crate::bytecode::Op;
use crate::bytecode::Var;
use crate::decimal::decimal_to_fraction;
use crate::decimal::parse_decimal;
use crate::decimal::spec_decimal_to_fraction;
use crate::decimal::spec_parse_decimal;
use crate::rational::gcd;
use crate::sets::members;
use crate::syntax::is_product;
use crate::syntax::parts_view;
use crate::syntax::product_base;
use crate::syntax::product_parts;
use crate::syntax::first_product_call;
use crate::syntax::strip_outer_parens;
use crate::syntax::stripped;
use crate::syntax::sum_parts;
use crate::syntax::try_split_add_sub;
use crate::syntax::try_split_mul_div;
use crate::syntax::Part;
use crate::text::ends_with;
use crate::text::find;
use crate::text::first_occurrence;
use crate::text::last_byte;
use crate::text::occurs_at;
use crate::text::parse_i32;
use crate::text::parse_u32;
use crate::text::rfind_byte;
use crate::text::same_bytes;
use crate::text::slice_of;
use crate::text::spec_ends_with;
use crate::text::spec_parse_i32;
use crate::text::spec_parse_u32;
use crate::text::spec_starts_with;
use crate::text::starts_with;
use crate::text::trim;
use crate::text::trimmed;
use std::collections::HashSet;
use vstd::prelude::*;
use vstd::std_specs::hash::group_hash_axioms;
use vstd::string::StringSliceAdditionalSpecFns;

verus! {

broadcast use group_hash_axioms;

/// The four operations of a chain.
#[derive(Clone, Copy, Debug, PartialEq, Eq, Structural)]
pub enum BinOp {
    Add,
    Sub,
    Mul,
    Div,
}

/// An expression as a tree.
#[derive(Debug)]
pub enum Expr {
    /// A rational constant, as written.
    Constant(i32, i32),
    /// A variable of the base note.
    BaseVar(Var),
    /// A variable of the note with the given id.
    NoteVar(u32, Var),
    /// The negation of an expression.
    Negated(Box<Expr>),
    /// An operation on two expressions.
    Binary(BinOp, Box<Expr>, Box<Expr>),
    /// Text that could not be read. It counts as zero.
    Unread,
}

/// The note that a lookup refers to.
#[derive(Clone, Copy, Debug, PartialEq, Eq, Structural)]
pub enum RefKind {
    Base,
    Note(u32),
}

/// What reading a text as a single term gives.
pub enum AtomOutcome {
    /// The text is a term.
    Parsed(Expr),
    /// The text is a term that names a variable which does not exist.
    Failed,
    /// The text is no single term.
    NoAtom,
}

/// The variable with a given name in bytes, if there is one.
pub open spec fn spec_variable_named(name: Seq<u8>) -> Option<Var> {
    if name == "startTime".spec_bytes() {
        Some(Var::StartTime)
    } else if name == "duration".spec_bytes() {
        Some(Var::Duration)
    } else if name == "frequency".spec_bytes() {
        Some(Var::Frequency)
    } else if name == "tempo".spec_bytes() {
        Some(Var::Tempo)
    } else if name == "beatsPerMeasure".spec_bytes() {
        Some(Var::BeatsPerMeasure)
    } else if name == "measureLength".spec_bytes() {
        Some(Var::MeasureLength)
    } else {
        None
    }
}

/// The variable with a given name.
pub fn variable_named(name: &[u8]) -> (r: Option<Var>)
    ensures
        r == spec_variable_named(name@),
{
    if same_bytes(name, "startTime".as_bytes()) {
        Some(Var::StartTime)
    } else if same_bytes(name, "duration".as_bytes()) {
        Some(Var::Duration)
    } else if same_bytes(name, "frequency".as_bytes()) {
        Some(Var::Frequency)
    } else if same_bytes(name, "tempo".as_bytes()) {
        Some(Var::Tempo)
    } else if same_bytes(name, "beatsPerMeasure".as_bytes()) {
        Some(Var::BeatsPerMeasure)
    } else if same_bytes(name, "measureLength".as_bytes()) {
        Some(Var::MeasureLength)
    } else {
        None
    }
}

/// The arguments of a fraction literal as a constant: one decimal, or a
/// numerator and a denominator separated by a comma.
pub open spec fn spec_literal_arguments(args: Seq<u8>) -> Option<(int, int)> {
    let comma = first_occurrence(args, ",".spec_bytes(), 0);
    if !occurs_at(args, ",".spec_bytes(), comma) {
        match spec_parse_decimal(trimmed(args)) {
            Some(v) => Some(spec_decimal_to_fraction(v)),
            None => None,
        }
    } else {
        let second = args.subrange(comma + ",".spec_bytes().len(), args.len() as int);
        let more = first_occurrence(second, ",".spec_bytes(), 0);
        if occurs_at(second, ",".spec_bytes(), more) {
            None
        } else {
            match (
                spec_parse_i32(trimmed(args.subrange(0, comma))),
                spec_parse_i32(trimmed(second)),
            ) {
                (Some(n), Some(d)) => Some((n as int, d as int)),
                _ => None,
            }
        }
    }
}

/// The constant of a fraction literal `new Fraction(..)`, if the text is
/// one.
pub open spec fn spec_fraction_literal(t: Seq<u8>) -> Option<(int, int)> {
    let s = trimmed(t);
    let open = "Fraction(".spec_bytes();
    let start = first_occurrence(s, open, 0);
    let end = last_byte(s, 41, s.len() as int);
    if !spec_starts_with(s, "new".spec_bytes()) || !occurs_at(s, open, start) || end < 0 || end
        <= start + open.len() {
        None
    } else if trimmed(s.subrange(end + 1, s.len() as int)).len() != 0 {
        None
    } else {
        spec_literal_arguments(s.subrange(start + open.len(), end))
    }
}

/// Reads the arguments of a fraction literal.
fn literal_arguments(args: &[u8]) -> (r: Option<(i32, i32)>)
    ensures
        match r {
            Some(c) => spec_literal_arguments(args@) == Some((c.0 as int, c.1 as int)),
            None => spec_literal_arguments(args@) is None,
        },
{
    let comma_text = ",".as_bytes();
    let total = args.len();
    match find(args, comma_text) {
        None => match parse_decimal(trim(args)) {
            Some(v) => Some(decimal_to_fraction(&v)),
            None => None,
        },
        Some(comma) => {
            let second = slice_of(args, comma + comma_text.len(), total);
            match find(second, comma_text) {
                Some(_) => None,
                None => {
                    let n = parse_i32(trim(slice_of(args, 0, comma)));
                    let d = parse_i32(trim(second));
                    match (n, d) {
                        (Some(n), Some(d)) => Some((n, d)),
                        _ => None,
                    }
                },
            }
        },
    }
}

/// Reads a fraction literal.
pub fn match_fraction_literal(t: &[u8]) -> (r: Option<(i32, i32)>)
    ensures
        match r {
            Some(c) => spec_fraction_literal(t@) == Some((c.0 as int, c.1 as int)),
            None => spec_fraction_literal(t@) is None,
        },
{
    let s = trim(t);
    if !starts_with(s, "new".as_bytes()) {
        return None;
    }
    let open = "Fraction(".as_bytes();
    let total = s.len();
    let start = match find(s, open) {
        Some(i) => i,
        None => {
            return None;
        },
    };
    let end = match rfind_byte(s, 41) {
        Some(i) => i,
        None => {
            return None;
        },
    };
    if end <= start + open.len() {
        return None;
    }
    let after = trim(slice_of(s, end + 1, total));
    if after.len() != 0 {
        return None;
    }
    literal_arguments(slice_of(s, start + open.len(), end))
}

/// The text between a prefix and a suffix, if the text has both without
/// overlap.
pub open spec fn spec_between(t: Seq<u8>, prefix: Seq<u8>, suffix: Seq<u8>) -> Option<Seq<u8>> {
    if spec_starts_with(t, prefix) && spec_ends_with(t, suffix) && prefix.len() + suffix.len()
        <= t.len() {
        Some(t.subrange(prefix.len() as int, t.len() - suffix.len()))
    } else {
        None
    }
}

/// The text between a prefix and a suffix.
fn between<'a>(t: &'a [u8], prefix: &[u8], suffix: &[u8]) -> (r: Option<&'a [u8]>)
    ensures
        match r {
            Some(inner) => spec_between(t@, prefix@, suffix@) == Some(inner@) && inner@.len()
                <= t@.len(),
            None => spec_between(t@, prefix@, suffix@) is None,
        },
{
    if starts_with(t, prefix) && ends_with(t, suffix) && prefix.len() <= t.len() && suffix.len()
        <= t.len() - prefix.len() {
        Some(slice_of(t, prefix.len(), t.len() - suffix.len()))
    } else {
        None
    }
}

/// The note that the argument of a lookup refers to: the note with the id
/// in `module.getNoteById(id)`, and the base note for every other text.
pub open spec fn spec_ref_arg(text: Seq<u8>) -> RefKind {
    let s = trimmed(text);
    if s == "module.baseNote".spec_bytes() {
        RefKind::Base
    } else {
        match spec_between(s, "module.getNoteById(".spec_bytes(), ")".spec_bytes()) {
            Some(inner) => match spec_parse_u32(trimmed(inner)) {
                Some(id) => RefKind::Note(id),
                None => RefKind::Base,
            },
            None => RefKind::Base,
        }
    }
}

/// Reads the argument of a lookup.
pub fn parse_ref_arg(text: &[u8]) -> (r: RefKind)
    ensures
        r == spec_ref_arg(text@),
{
    let s = trim(text);
    if same_bytes(s, "module.baseNote".as_bytes()) {
        return RefKind::Base;
    }
    match between(s, "module.getNoteById(".as_bytes(), ")".as_bytes()) {
        Some(inner) => match parse_u32(trim(inner)) {
            Some(id) => RefKind::Note(id),
            None => RefKind::Base,
        },
        None => RefKind::Base,
    }
}

/// A note reference `module.getNoteById(id).getVariable('name')`: the id
/// and the name, if the text is one.
pub open spec fn spec_note_ref(t: Seq<u8>) -> Option<(u32, Seq<u8>)> {
    let prefix = "module.getNoteById(".spec_bytes();
    if !spec_starts_with(t, prefix) {
        None
    } else {
        let rest = t.subrange(prefix.len() as int, t.len() as int);
        let close = first_occurrence(rest, ")".spec_bytes(), 0);
        if !occurs_at(rest, ")".spec_bytes(), close) {
            None
        } else {
            match spec_parse_u32(trimmed(rest.subrange(0, close))) {
                None => None,
                Some(id) => match spec_between(
                    rest.subrange(close + ")".spec_bytes().len(), rest.len() as int),
                    ".getVariable('".spec_bytes(),
                    "')".spec_bytes(),
                ) {
                    Some(name) => Some((id, name)),
                    None => None,
                },
            }
        }
    }
}

/// Reads a note reference.
fn match_note_ref<'a>(t: &'a [u8]) -> (r: Option<(u32, &'a [u8])>)
    ensures
        match r {
            Some((id, name)) => spec_note_ref(t@) == Some((id, name@)),
            None => spec_note_ref(t@) is None,
        },
{
    let prefix = "module.getNoteById(".as_bytes();
    if !starts_with(t, prefix) {
        return None;
    }
    let rest = slice_of(t, prefix.len(), t.len());
    let close_text = ")".as_bytes();
    let close = match find(rest, close_text) {
        Some(i) => i,
        None => {
            return None;
        },
    };
    let id = match parse_u32(trim(slice_of(rest, 0, close))) {
        Some(v) => v,
        None => {
            return None;
        },
    };
    let after = slice_of(rest, close + close_text.len(), rest.len());
    match between(after, ".getVariable('".as_bytes(), "')".as_bytes()) {
        Some(name) => Some((id, name)),
        None => None,
    }
}

/// The load of a variable of the note that a lookup refers to.
pub open spec fn load_of(kind: RefKind, var: Var) -> Expr {
    match kind {
        RefKind::Base => Expr::BaseVar(var),
        RefKind::Note(id) => Expr::NoteVar(id, var),
    }
}

/// The term that a text is, tried in this order: a fraction literal; a
/// variable of the base note; a variable of another note; a tempo lookup;
/// a measure-length lookup; the beat unit, sixty divided by a tempo
/// lookup; a decimal number.
#[verifier::opaque]
pub open spec fn spec_atom(t: Seq<u8>) -> AtomOutcome {
    if let Some(c) = spec_fraction_literal(t) {
        AtomOutcome::Parsed(Expr::Constant(c.0 as i32, c.1 as i32))
    } else if let Some(name) = spec_between(
        t,
        "module.baseNote.getVariable('".spec_bytes(),
        "')".spec_bytes(),
    ) {
        match spec_variable_named(name) {
            Some(var) => AtomOutcome::Parsed(Expr::BaseVar(var)),
            None => AtomOutcome::Failed,
        }
    } else if let Some(note) = spec_note_ref(t) {
        match spec_variable_named(note.1) {
            Some(var) => AtomOutcome::Parsed(Expr::NoteVar(note.0, var)),
            None => AtomOutcome::Failed,
        }
    } else if let Some(arg) = spec_between(t, "module.findTempo(".spec_bytes(), ")".spec_bytes()) {
        AtomOutcome::Parsed(load_of(spec_ref_arg(arg), Var::Tempo))
    } else if let Some(arg) = spec_between(
        t,
        "module.findMeasureLength(".spec_bytes(),
        ")".spec_bytes(),
    ) {
        AtomOutcome::Parsed(load_of(spec_ref_arg(arg), Var::MeasureLength))
    } else if let Some(arg) = spec_between(
        t,
        "new Fraction(60).div(module.findTempo(".spec_bytes(),
        "))".spec_bytes(),
    ) {
        AtomOutcome::Parsed(
            Expr::Binary(
                BinOp::Div,
                Box::new(Expr::Constant(60, 1)),
                Box::new(load_of(spec_ref_arg(arg), Var::Tempo)),
            ),
        )
    } else if let Some(v) = spec_parse_decimal(t) {
        AtomOutcome::Parsed(
            Expr::Constant(
                spec_decimal_to_fraction(v).0 as i32,
                spec_decimal_to_fraction(v).1 as i32,
            ),
        )
    } else {
        AtomOutcome::NoAtom
    }
}

/// The load of a variable of the note that a lookup refers to.
fn load(kind: RefKind, var: Var) -> (r: Expr)
    ensures
        r == load_of(kind, var),
{
    match kind {
        RefKind::Base => Expr::BaseVar(var),
        RefKind::Note(id) => Expr::NoteVar(id, var),
    }
}

/// Reads a text as a single term.
pub fn match_atom(t: &[u8]) -> (r: AtomOutcome)
    ensures
        r == spec_atom(t@),
{
    reveal(spec_atom);
    match match_fraction_literal(t) {
        Some(c) => {
            return AtomOutcome::Parsed(Expr::Constant(c.0, c.1));
        },
        None => {},
    }
    match between(t, "module.baseNote.getVariable('".as_bytes(), "')".as_bytes()) {
        Some(name) => {
            return match variable_named(name) {
                Some(var) => AtomOutcome::Parsed(Expr::BaseVar(var)),
                None => AtomOutcome::Failed,
            };
        },
        None => {},
    }
    match match_note_ref(t) {
        Some((id, name)) => {
            return match variable_named(name) {
                Some(var) => AtomOutcome::Parsed(Expr::NoteVar(id, var)),
                None => AtomOutcome::Failed,
            };
        },
        None => {},
    }
    match between(t, "module.findTempo(".as_bytes(), ")".as_bytes()) {
        Some(arg) => {
            return AtomOutcome::Parsed(load(parse_ref_arg(arg), Var::Tempo));
        },
        None => {},
    }
    match between(t, "module.findMeasureLength(".as_bytes(), ")".as_bytes()) {
        Some(arg) => {
            return AtomOutcome::Parsed(load(parse_ref_arg(arg), Var::MeasureLength));
        },
        None => {},
    }
    match between(t, "new Fraction(60).div(module.findTempo(".as_bytes(), "))".as_bytes()) {
        Some(arg) => {
            return AtomOutcome::Parsed(
                Expr::Binary(
                    BinOp::Div,
                    Box::new(Expr::Constant(60, 1)),
                    Box::new(load(parse_ref_arg(arg), Var::Tempo)),
                ),
            );
        },
        None => {},
    }
    match parse_decimal(t) {
        Some(v) => {
            let c = decimal_to_fraction(&v);
            AtomOutcome::Parsed(Expr::Constant(c.0, c.1))
        },
        None => AtomOutcome::NoAtom,
    }
}

/// The operation of a part of a sum.
pub open spec fn sum_op(subtract: bool) -> BinOp {
    if subtract {
        BinOp::Sub
    } else {
        BinOp::Add
    }
}

/// The operation of a part of a product.
pub open spec fn product_op(divide: bool) -> BinOp {
    if divide {
        BinOp::Div
    } else {
        BinOp::Mul
    }
}

/// The tree of a whole expression: a sum where the text holds `.add(` or
/// `.sub(` outside parentheses, a product otherwise. Nothing where the text
/// names a variable that does not exist.
pub open spec fn spec_parse_expr(s: Seq<u8>) -> Option<Expr>
    decreases s.len(), 5nat, 0nat,
{
    let t = trimmed(s);
    let parts = sum_parts(t, 0, 0, 0, false);
    if t.len() > s.len() {
        None
    } else if parts.len() > 1 {
        spec_parse_sum(parts, t.len(), parts.len())
    } else {
        spec_parse_chain(t)
    }
}

/// The tree of the first `k` parts of a sum: the parts are products,
/// combined from the left. The first is negated where it is marked. Parts
/// that are not shorter than `bound` are not read.
pub open spec fn spec_parse_sum(parts: Seq<Part>, bound: nat, k: nat) -> Option<Expr>
    decreases bound, 1nat, k,
{
    if k == 0 || k > parts.len() {
        None
    } else {
        let part = parts[k - 1];
        let term = if part.1.len() < bound {
            spec_parse_product(part.1)
        } else {
            None
        };
        if k == 1 {
            match term {
                Some(e) => Some(
                    if part.0 {
                        Expr::Negated(Box::new(e))
                    } else {
                        e
                    },
                ),
                None => None,
            }
        } else {
            match (spec_parse_sum(parts, bound, (k - 1) as nat), term) {
                (Some(left), Some(right)) => Some(
                    Expr::Binary(sum_op(part.0), Box::new(left), Box::new(right)),
                ),
                _ => None,
            }
        }
    }
}

/// The tree of a product: its first operand combined from the left with
/// the operands of its `.mul(` and `.div(` calls; a single term where there
/// is no such call.
pub open spec fn spec_parse_product(s: Seq<u8>) -> Option<Expr>
    decreases s.len(), 4nat, 0nat,
{
    let t = trimmed(s);
    if t.len() > s.len() {
        None
    } else {
        spec_parse_chain(t)
    }
}

/// The tree of a text that holds no sum outside parentheses.
pub open spec fn spec_parse_chain(t: Seq<u8>) -> Option<Expr>
    decreases t.len(), 3nat, 0nat,
{
    if is_product(t) {
        let parts = product_parts(t, first_product_call(t, 0, 0), 0);
        spec_parse_operands(product_base(t), parts, t.len(), parts.len())
    } else {
        spec_parse_atom(t)
    }
}

/// The tree of a product of a first operand and the first `k` further
/// operands. Operands that are not shorter than `bound` are not read.
pub open spec fn spec_parse_operands(base: Seq<u8>, parts: Seq<Part>, bound: nat, k: nat) -> Option<
    Expr,
>
    decreases bound, 1nat, k,
{
    if k > parts.len() {
        None
    } else if k == 0 {
        if base.len() < bound {
            spec_parse_atom(base)
        } else {
            None
        }
    } else {
        let part = parts[k - 1];
        let operand = if part.1.len() < bound {
            spec_parse_atom(part.1)
        } else {
            None
        };
        match (spec_parse_operands(base, parts, bound, (k - 1) as nat), operand) {
            (Some(left), Some(right)) => Some(
                Expr::Binary(product_op(part.0), Box::new(left), Box::new(right)),
            ),
            _ => None,
        }
    }
}

/// The tree of a term. A single term is read as such. Text in parentheses
/// is read as a sum or a product of its own. A bare variable name is the
/// variable of the base note. Every other text is left unread and counts
/// as zero.
pub open spec fn spec_parse_atom(s: Seq<u8>) -> Option<Expr>
    decreases s.len(), 2nat, 0nat,
{
    let t = stripped(s);
    if t.len() > s.len() {
        None
    } else {
        match spec_atom(t) {
            AtomOutcome::Parsed(e) => Some(e),
            AtomOutcome::Failed => None,
            AtomOutcome::NoAtom => {
                let parts = sum_parts(t, 0, 0, 0, false);
                if parts.len() > 1 {
                    spec_parse_sum(parts, t.len(), parts.len())
                } else if is_product(t) {
                    let operands = product_parts(t, first_product_call(t, 0, 0), 0);
                    spec_parse_operands(product_base(t), operands, t.len(), operands.len())
                } else {
                    match spec_variable_named(t) {
                        Some(var) => Some(Expr::BaseVar(var)),
                        None => Some(Expr::Unread),
                    }
                }
            },
        }
    }
}

/// Reads a whole expression.
pub fn parse_and_emit(s: &[u8]) -> (r: Option<Expr>)
    ensures
        r == spec_parse_expr(s@),
    decreases s@.len(), 5nat, 0nat,
{
    let t = trim(s);
    match try_split_add_sub(t) {
        Some(parts) => emit_sum(&parts, Ghost(t@.len())),
        None => parse_and_emit_chain(t),
    }
}

/// Reads the parts of a sum.
fn emit_sum(parts: &Vec<(bool, Vec<u8>)>, Ghost(bound): Ghost<nat>) -> (r: Option<Expr>)
    requires
        parts@.len() >= 1,
        forall|k: int| 0 <= k < parts@.len() ==> (#[trigger] parts@[k]).1@.len() < bound,
    ensures
        r == spec_parse_sum(parts_view(parts@), bound, parts@.len()),
    decreases bound, 1nat, 0nat,
{
    let ghost views = parts_view(parts@);
    let first = parse_and_emit_product(parts[0].1.as_slice());
    let mut tree = match first {
        Some(e) => if parts[0].0 {
            Expr::Negated(Box::new(e))
        } else {
            e
        },
        None => {
            proof {
                lemma_sum_fails(views, bound, 1, parts@.len());
            }
            return None;
        },
    };
    let mut k: usize = 1;
    while k < parts.len()
        invariant
            1 <= k <= parts.len(),
            views == parts_view(parts@),
            forall|j: int| 0 <= j < parts@.len() ==> (#[trigger] parts@[j]).1@.len() < bound,
            spec_parse_sum(views, bound, k as nat) == Some(tree),
        decreases parts.len() - k,
    {
        let part = &parts[k];
        assert(views[k as int] == (part.0, part.1@));
        match parse_and_emit_product(part.1.as_slice()) {
            Some(e) => {
                let op = if part.0 {
                    BinOp::Sub
                } else {
                    BinOp::Add
                };
                tree = Expr::Binary(op, Box::new(tree), Box::new(e));
            },
            None => {
                proof {
                    lemma_sum_fails(views, bound, (k + 1) as nat, parts@.len());
                }
                return None;
            },
        }
        k = k + 1;
    }
    Some(tree)
}

/// A sum whose first `k` parts cannot be read cannot be read.
proof fn lemma_sum_fails(parts: Seq<Part>, bound: nat, k: nat, n: nat)
    requires
        1 <= k <= n <= parts.len(),
        spec_parse_sum(parts, bound, k) is None,
    ensures
        spec_parse_sum(parts, bound, n) is None,
    decreases n - k,
{
    if k < n {
        lemma_sum_fails(parts, bound, k, (n - 1) as nat);
    }
}

/// A product whose first `k` operands cannot be read cannot be read.
proof fn lemma_operands_fail(base: Seq<u8>, parts: Seq<Part>, bound: nat, k: nat, n: nat)
    requires
        k <= n <= parts.len(),
        spec_parse_operands(base, parts, bound, k) is None,
    ensures
        spec_parse_operands(base, parts, bound, n) is None,
    decreases n - k,
{
    if k < n {
        lemma_operands_fail(base, parts, bound, k, (n - 1) as nat);
    }
}

/// Reads a product.
pub fn parse_and_emit_product(s: &[u8]) -> (r: Option<Expr>)
    ensures
        r == spec_parse_product(s@),
    decreases s@.len(), 4nat, 0nat,
{
    let t = trim(s);
    parse_and_emit_chain(t)
}

/// Reads a text that holds no sum outside parentheses.
fn parse_and_emit_chain(t: &[u8]) -> (r: Option<Expr>)
    ensures
        r == spec_parse_chain(t@),
    decreases t@.len(), 3nat, 0nat,
{
    match try_split_mul_div(t) {
        Some((base, operations)) => emit_operands(&base, &operations, Ghost(t@.len())),
        None => parse_and_emit_atomic(t),
    }
}

/// Reads the operands of a product.
fn emit_operands(base: &Vec<u8>, parts: &Vec<(bool, Vec<u8>)>, Ghost(bound): Ghost<nat>) -> (r:
    Option<Expr>)
    requires
        base@.len() < bound,
        forall|k: int| 0 <= k < parts@.len() ==> (#[trigger] parts@[k]).1@.len() < bound,
    ensures
        r == spec_parse_operands(base@, parts_view(parts@), bound, parts@.len()),
    decreases bound, 1nat, 0nat,
{
    let ghost views = parts_view(parts@);
    let mut tree = match parse_and_emit_atomic(base.as_slice()) {
        Some(e) => e,
        None => {
            proof {
                lemma_operands_fail(base@, views, bound, 0, parts@.len());
            }
            return None;
        },
    };
    let mut k: usize = 0;
    while k < parts.len()
        invariant
            k <= parts.len(),
            views == parts_view(parts@),
            base@.len() < bound,
            forall|j: int| 0 <= j < parts@.len() ==> (#[trigger] parts@[j]).1@.len() < bound,
            spec_parse_operands(base@, views, bound, k as nat) == Some(tree),
        decreases parts.len() - k,
    {
        let part = &parts[k];
        assert(views[k as int] == (part.0, part.1@));
        match parse_and_emit_atomic(part.1.as_slice()) {
            Some(e) => {
                let op = if part.0 {
                    BinOp::Div
                } else {
                    BinOp::Mul
                };
                tree = Expr::Binary(op, Box::new(tree), Box::new(e));
            },
            None => {
                proof {
                    lemma_operands_fail(base@, views, bound, (k + 1) as nat, parts@.len());
                }
                return None;
            },
        }
        k = k + 1;
    }
    Some(tree)
}

/// Reads a term.
pub fn parse_and_emit_atomic(s: &[u8]) -> (r: Option<Expr>)
    ensures
        r == spec_parse_atom(s@),
    decreases s@.len(), 2nat, 0nat,
{
    let t = strip_outer_parens(s);
    match match_atom(t) {
        AtomOutcome::Parsed(e) => {
            return Some(e);
        },
        AtomOutcome::Failed => {
            return None;
        },
        AtomOutcome::NoAtom => {},
    }
    match try_split_add_sub(t) {
        Some(parts) => {
            return emit_sum(&parts, Ghost(t@.len()));
        },
        None => {},
    }
    match try_split_mul_div(t) {
        Some((base, operations)) => {
            return emit_operands(&base, &operations, Ghost(t@.len()));
        },
        None => {},
    }
    match variable_named(t) {
        Some(var) => Some(Expr::BaseVar(var)),
        None => Some(Expr::Unread),
    }
}

/// A constant in lowest terms with a positive denominator, as it is
/// written into bytecode. A zero denominator gives zero. A constant whose
/// lowest terms do not fit 32 bits is written as it is.
pub open spec fn normal_constant(num: i32, den: i32) -> (i32, i32) {
    if den == 0 {
        (0, 1)
    } else {
        let a = crate::rational::magnitude(num as int);
        let b = crate::rational::magnitude(den as int);
        let g = gcd(a, b);
        let n = a as int / g as int;
        let d = b as int / g as int;
        if n <= i32::MAX && d <= i32::MAX {
            (
                if (num < 0) != (den < 0) {
                    (-n) as i32
                } else {
                    n as i32
                },
                d as i32,
            )
        } else {
            (num, den)
        }
    }
}

/// The greatest common divisor.
fn gcd_of(a: u64, b: u64) -> (r: u64)
    ensures
        r == gcd(a as nat, b as nat),
{
    let mut x = a;
    let mut y = b;
    while y != 0
        invariant
            gcd(x as nat, y as nat) == gcd(a as nat, b as nat),
        decreases y,
    {
        let t = y;
        y = x % y;
        x = t;
    }
    x
}

/// A constant in lowest terms.
pub fn normalize_fraction(num: i32, den: i32) -> (r: (i32, i32))
    ensures
        r == normal_constant(num, den),
{
    if den == 0 {
        return (0, 1);
    }
    let a: u64 = if num < 0 {
        (-(num as i64)) as u64
    } else {
        num as u64
    };
    let b: u64 = if den < 0 {
        (-(den as i64)) as u64
    } else {
        den as u64
    };
    let g = gcd_of(a, b);
    proof {
        crate::rational::lemma_gcd_positive(a as nat, b as nat);
    }
    let n_abs = a / g;
    let d = b / g;
    if n_abs > 0x7fff_ffff || d > 0x7fff_ffff {
        return (num, den);
    }
    let n: i32 = if (num < 0) != (den < 0) {
        -(n_abs as i32)
    } else {
        n_abs as i32
    };
    (n, d as i32)
}

/// The bytecode of a constant.
pub open spec fn constant_code(num: i32, den: i32) -> Seq<u8> {
    let c = normal_constant(num, den);
    seq![Op::LoadConst.spec_byte()] + spec_i32_bytes(c.0) + spec_i32_bytes(c.1)
}

/// The bytecode operation of an operation of a chain.
pub open spec fn op_of(op: BinOp) -> Op {
    match op {
        BinOp::Add => Op::Add,
        BinOp::Sub => Op::Sub,
        BinOp::Mul => Op::Mul,
        BinOp::Div => Op::Div,
    }
}

/// The bytecode of a tree: operands first, then the operation.
pub open spec fn code_of(e: Expr) -> Seq<u8>
    decreases e,
{
    match e {
        Expr::Constant(num, den) => constant_code(num, den),
        Expr::BaseVar(var) => seq![Op::LoadBase.spec_byte(), var.spec_index()],
        Expr::NoteVar(id, var) => seq![Op::LoadRef.spec_byte()] + spec_u16_bytes(
            (id % 0x1_0000) as u16,
        ) + seq![var.spec_index()],
        Expr::Negated(inner) => code_of(*inner) + seq![Op::Neg.spec_byte()],
        Expr::Binary(op, left, right) => code_of(*left) + code_of(*right) + seq![
            op_of(op).spec_byte(),
        ],
        Expr::Unread => constant_code(0, 1),
    }
}

/// The notes that a tree refers to.
pub open spec fn deps_of(e: Expr) -> Set<u32>
    decreases e,
{
    match e {
        Expr::Constant(_, _) => Set::empty(),
        Expr::BaseVar(_) => Set::empty(),
        Expr::NoteVar(id, _) => set![id],
        Expr::Negated(inner) => deps_of(*inner),
        Expr::Binary(_, left, right) => deps_of(*left).union(deps_of(*right)),
        Expr::Unread => Set::empty(),
    }
}

/// Whether a tree refers to the base note.
pub open spec fn uses_base(e: Expr) -> bool
    decreases e,
{
    match e {
        Expr::Constant(_, _) => false,
        Expr::BaseVar(_) => true,
        Expr::NoteVar(_, _) => false,
        Expr::Negated(inner) => uses_base(*inner),
        Expr::Binary(_, left, right) => uses_base(*left) || uses_base(*right),
        Expr::Unread => false,
    }
}

/// Whether a tree holds text that could not be read.
pub open spec fn holds_unread(e: Expr) -> bool
    decreases e,
{
    match e {
        Expr::Negated(inner) => holds_unread(*inner),
        Expr::Binary(_, left, right) => holds_unread(*left) || holds_unread(*right),
        Expr::Unread => true,
        _ => false,
    }
}

/// Whether a text is compiled without being read in full: it names a
/// variable that does not exist, or a part of it is no expression.
pub open spec fn is_unreadable(text: Seq<u8>) -> bool {
    let t = trimmed(text);
    t.len() != 0 && match spec_parse_expr(t) {
        Some(e) => holds_unread(e),
        None => true,
    }
}

/// What a text compiles to: the tree of its text without white space
/// around it, or the constant zero where the text is empty or names a
/// variable that does not exist.
pub open spec fn compiled_tree(text: Seq<u8>) -> Expr {
    let t = trimmed(text);
    if t.len() == 0 {
        Expr::Constant(0, 1)
    } else {
        match spec_parse_expr(t) {
            Some(e) => e,
            None => Expr::Constant(0, 1),
        }
    }
}

/// The result of compiling an expression.
#[derive(Debug)]
pub struct CompiledExpression {
    /// The bytecode.
    pub bytecode: Vec<u8>,
    /// The ids of the notes that the expression refers to, each once.
    pub dependencies: Vec<u32>,
    /// Whether the expression refers to the base note.
    pub references_base: bool,
    /// The text that was compiled.
    pub source_text: String,
}

/// The compiler. It keeps the bytecode and the references of the
/// expression compiled last.
pub struct ExpressionCompiler {
    bytecode: Vec<u8>,
    dependencies: HashSet<u32>,
    references_base: bool,
    unread: bool,
}

impl Default for ExpressionCompiler {
    fn default() -> (r: ExpressionCompiler)
        ensures
            r.code() == Seq::<u8>::empty(),
            r.references() == Set::<u32>::empty(),
            !r.refers_to_base(),
            !r.left_unread(),
    {
        ExpressionCompiler::new()
    }
}

impl ExpressionCompiler {
    /// The bytecode emitted so far.
    pub closed spec fn code(&self) -> Seq<u8> {
        self.bytecode@
    }

    /// The notes referred to so far.
    pub closed spec fn references(&self) -> Set<u32> {
        self.dependencies@
    }

    /// Whether the base note has been referred to so far.
    pub closed spec fn refers_to_base(&self) -> bool {
        self.references_base
    }

    /// Whether the text compiled last was not read in full.
    pub closed spec fn left_unread(&self) -> bool {
        self.unread
    }

    /// A compiler that has compiled nothing.
    pub fn new() -> (r: ExpressionCompiler)
        ensures
            r.code() == Seq::<u8>::empty(),
            r.references() == Set::<u32>::empty(),
            !r.refers_to_base(),
            !r.left_unread(),
    {
        ExpressionCompiler {
            bytecode: Vec::new(),
            dependencies: HashSet::new(),
            references_base: false,
            unread: false,
        }
    }

    /// Whether the text compiled last was not read in full, so that all or
    /// a part of it was compiled to zero.
    pub fn last_unread(&self) -> (r: bool)
        ensures
            r == self.left_unread(),
    {
        self.unread
    }

    /// Writes a constant in lowest terms.
    fn emit_constant(&mut self, num: i32, den: i32)
        ensures
            final(self).code() == old(self).code() + constant_code(num, den),
            final(self).references() == old(self).references(),
            final(self).refers_to_base() == old(self).refers_to_base(),
            final(self).left_unread() == old(self).left_unread(),
    {
        let c = normalize_fraction(num, den);
        self.bytecode.push(Op::LoadConst.to_byte());
        write_i32(&mut self.bytecode, c.0);
        write_i32(&mut self.bytecode, c.1);
        assert(self.bytecode@ =~= old(self).bytecode@ + constant_code(num, den));
    }

    /// Writes a tree: operands first, then the operation.
    fn emit(&mut self, e: &Expr)
        ensures
            final(self).code() == old(self).code() + code_of(*e),
            final(self).references() == old(self).references().union(deps_of(*e)),
            final(self).refers_to_base() == (old(self).refers_to_base() || uses_base(*e)),
            final(self).left_unread() == (old(self).left_unread() || holds_unread(*e)),
        decreases *e,
    {
        match e {
            Expr::Constant(num, den) => {
                self.emit_constant(*num, *den);
                assert(self.dependencies@ =~= old(self).dependencies@.union(deps_of(*e)));
            },
            Expr::BaseVar(var) => {
                self.bytecode.push(Op::LoadBase.to_byte());
                self.bytecode.push(var.index());
                self.references_base = true;
                assert(self.bytecode@ =~= old(self).bytecode@ + code_of(*e));
                assert(self.dependencies@ =~= old(self).dependencies@.union(deps_of(*e)));
            },
            Expr::NoteVar(id, var) => {
                self.bytecode.push(Op::LoadRef.to_byte());
                write_u16(&mut self.bytecode, (*id % 0x1_0000) as u16);
                self.bytecode.push(var.index());
                self.dependencies.insert(*id);
                assert(self.bytecode@ =~= old(self).bytecode@ + code_of(*e));
                assert(self.dependencies@ =~= old(self).dependencies@.union(deps_of(*e)));
            },
            Expr::Negated(inner) => {
                self.emit(inner);
                self.bytecode.push(Op::Neg.to_byte());
                assert(self.bytecode@ =~= old(self).bytecode@ + code_of(*e));
            },
            Expr::Binary(op, left, right) => {
                self.emit(left);
                self.emit(right);
                let byte = match op {
                    BinOp::Add => Op::Add.to_byte(),
                    BinOp::Sub => Op::Sub.to_byte(),
                    BinOp::Mul => Op::Mul.to_byte(),
                    BinOp::Div => Op::Div.to_byte(),
                };
                self.bytecode.push(byte);
                assert(self.bytecode@ =~= old(self).bytecode@ + code_of(*e));
                assert(self.dependencies@ =~= old(self).dependencies@.union(deps_of(*e)));
            },
            Expr::Unread => {
                self.emit_constant(0, 1);
                self.unread = true;
                assert(self.dependencies@ =~= old(self).dependencies@.union(deps_of(*e)));
            },
        }
    }

    /// The result of the compilation done last.
    fn build_result(&self, source_text: String) -> (r: CompiledExpression)
        ensures
            r.bytecode@ == self.code(),
            r.dependencies@.to_set() == self.references(),
            r.dependencies@.no_duplicates(),
            r.references_base == self.refers_to_base(),
            r.source_text == source_text,
    {
        CompiledExpression {
            bytecode: crate::text::copy_bytes(self.bytecode.as_slice()),
            dependencies: members(&self.dependencies),
            references_base: self.references_base,
            source_text,
        }
    }

    /// Compiles the text of an expression. The bytecode is that of the
    /// tree that the text is read as. Text that is empty, or names a
    /// variable that does not exist, compiles to the constant zero.
    pub fn compile(&mut self, text_expr: &str) -> (r: CompiledExpression)
        ensures
            r.bytecode@ == code_of(compiled_tree(text_expr.spec_bytes())),
            r.dependencies@.to_set() == deps_of(compiled_tree(text_expr.spec_bytes())),
            r.dependencies@.no_duplicates(),
            r.references_base == uses_base(compiled_tree(text_expr.spec_bytes())),
            r.source_text@ == text_expr@,
            final(self).code() == r.bytecode@,
            final(self).references() == r.dependencies@.to_set(),
            final(self).refers_to_base() == r.references_base,
            final(self).left_unread() == is_unreadable(text_expr.spec_bytes()),
    {
        self.bytecode.clear();
        self.dependencies.clear();
        self.references_base = false;
        self.unread = false;
        let source_text = text_expr.to_owned();
        let text = trim(text_expr.as_bytes());
        let mut failed = false;
        let tree = if text.len() == 0 {
            Expr::Constant(0, 1)
        } else {
            match parse_and_emit(text) {
                Some(e) => e,
                None => {
                    failed = true;
                    Expr::Constant(0, 1)
                },
            }
        };
        self.emit(&tree);
        if failed {
            self.unread = true;
        }
        assert(self.bytecode@ =~= code_of(tree));
        assert(self.dependencies@ =~= deps_of(tree));
        self.build_result(source_text)
    }

    /// The fraction that stands for a decimal in bytecode.
    pub fn decimal_to_fraction(&self, value: &crate::fraction::Fraction) -> (r: (i32, i32))
        ensures
            r.0 == spec_decimal_to_fraction(value@).0,
            r.1 == spec_decimal_to_fraction(value@).1,
    {
        decimal_to_fraction(value)
    }
}

} // verus!
