//! The surface syntax of expressions: chains of calls, split into their
//! parts by byte-level scanning that respects parentheses.

use crate::text::occurs_at;
use crate::text::slice_of;
use crate::text::stands_at;
use crate::text::trim;
use crate::text::trimmed;
use vstd::prelude::*;
use vstd::string::is_ascii_spec_bytes;
use vstd::string::StringSliceAdditionalSpecFns;

verus! {

/// A part of a chain with a mark: for a sum, whether the part is
/// subtracted; for a product, whether it divides.
pub type Part = (bool, Seq<u8>);

/// The contents of a list of parts.
pub open spec fn parts_view(parts: Seq<(bool, Vec<u8>)>) -> Seq<Part> {
    parts.map_values(|p: (bool, Vec<u8>)| (p.0, p.1@))
}

/// The text `.add(`.
pub open spec fn add_call() -> Seq<u8> {
    ".add(".spec_bytes()
}

/// The text `.sub(`.
pub open spec fn sub_call() -> Seq<u8> {
    ".sub(".spec_bytes()
}

/// The text `.mul(`.
pub open spec fn mul_call() -> Seq<u8> {
    ".mul(".spec_bytes()
}

/// The text `.div(`.
pub open spec fn div_call() -> Seq<u8> {
    ".div(".spec_bytes()
}

/// Each of the four call openings is five bytes long.
pub proof fn lemma_call_lengths()
    ensures
        add_call().len() == 5,
        sub_call().len() == 5,
        mul_call().len() == 5,
        div_call().len() == 5,
        add_call()[0] == 46,
        sub_call()[0] == 46,
        mul_call()[0] == 46,
        div_call()[0] == 46,
{
    reveal_strlit(".add(");
    reveal_strlit(".sub(");
    reveal_strlit(".mul(");
    reveal_strlit(".div(");
    is_ascii_spec_bytes(".add(");
    is_ascii_spec_bytes(".sub(");
    is_ascii_spec_bytes(".mul(");
    is_ascii_spec_bytes(".div(");
    assert(vstd::string::is_ascii(".add("));
    assert(vstd::string::is_ascii(".sub("));
    assert(vstd::string::is_ascii(".mul("));
    assert(vstd::string::is_ascii(".div("));
}

/// The position of the `)` that closes a call whose argument starts at `i`
/// with `depth` parentheses open inside it, or the length of the text where
/// the call is not closed.
pub open spec fn close_at(s: Seq<u8>, i: int, depth: nat) -> int
    decreases s.len() - i,
{
    if i < 0 || i >= s.len() {
        s.len() as int
    } else if s[i] == 40 {
        close_at(s, i + 1, depth + 1)
    } else if s[i] == 41 {
        if depth == 0 {
            i
        } else {
            close_at(s, i + 1, (depth - 1) as nat)
        }
    } else {
        close_at(s, i + 1, depth)
    }
}

/// The position behind a call whose argument starts at `start`.
pub open spec fn after_call(s: Seq<u8>, start: int) -> int {
    let c = close_at(s, start, 0);
    if c < s.len() {
        c + 1
    } else {
        s.len() as int
    }
}

/// The argument of a call that starts at `start`, without white space
/// around it.
pub open spec fn call_argument(s: Seq<u8>, start: int) -> Seq<u8> {
    trimmed(s.subrange(start, close_at(s, start, 0)))
}

/// The closing position lies between the start and the end of the text.
pub proof fn lemma_close_at_bounds(s: Seq<u8>, i: int, depth: nat)
    requires
        0 <= i <= s.len(),
    ensures
        i <= close_at(s, i, depth) <= s.len(),
    decreases s.len() - i,
{
    if i < s.len() {
        if s[i] == 40 {
            lemma_close_at_bounds(s, i + 1, depth + 1);
        } else if s[i] == 41 {
            if depth != 0 {
                lemma_close_at_bounds(s, i + 1, (depth - 1) as nat);
            }
        } else {
            lemma_close_at_bounds(s, i + 1, depth);
        }
    }
}

/// Reads the argument of a call from `start` on. Returns the argument
/// without white space around it, and the position behind the call.
pub fn read_call_argument(expr: &[u8], start: usize) -> (r: (Vec<u8>, usize))
    requires
        start <= expr@.len(),
    ensures
        r.0@ == call_argument(expr@, start as int),
        r.1 == after_call(expr@, start as int),
        start <= r.1 <= expr@.len(),
        r.0@.len() <= expr@.len() - start,
{
    let mut depth: usize = 0;
    let mut i: usize = start;
    proof {
        lemma_close_at_bounds(expr@, start as int, 0);
    }
    while i < expr.len()
        invariant
            start <= i <= expr.len(),
            depth <= i - start,
            close_at(expr@, start as int, 0) == close_at(expr@, i as int, depth as nat),
        decreases expr.len() - i,
    {
        let b = expr[i];
        if b == 40 {
            depth = depth + 1;
        } else if b == 41 {
            if depth == 0 {
                let arg = trim(slice_of(expr, start, i));
                return (crate::text::copy_bytes(arg), i + 1);
            }
            depth = depth - 1;
        }
        i = i + 1;
    }
    let arg = trim(slice_of(expr, start, expr.len()));
    (crate::text::copy_bytes(arg), expr.len())
}

/// The parts of a sum from position `i` on, with `depth` parentheses open.
/// `last` is where the part before the next call starts, and `found` says
/// whether a call has been met. Each `.add(` and `.sub(` outside
/// parentheses contributes its argument; the first one also contributes
/// the text in front of it.
pub open spec fn sum_parts(s: Seq<u8>, i: int, depth: int, last: int, found: bool) -> Seq<Part>
    decreases s.len() - i,
{
    if i < 0 || i >= s.len() {
        Seq::empty()
    } else if s[i] == 40 {
        sum_parts(s, i + 1, depth + 1, last, found)
    } else if s[i] == 41 {
        sum_parts(s, i + 1, depth - 1, last, found)
    } else if depth == 0 && (occurs_at(s, add_call(), i) || occurs_at(s, sub_call(), i)) {
        let head: Seq<Part> = if found {
            Seq::empty()
        } else {
            seq![(false, trimmed(s.subrange(last, i)))]
        };
        let next = after_call(s, i + 5);
        let rest = if i < next <= s.len() {
            sum_parts(s, next, depth, next, true)
        } else {
            Seq::empty()
        };
        head + seq![(!occurs_at(s, add_call(), i), call_argument(s, i + 5))] + rest
    } else {
        sum_parts(s, i + 1, depth, last, found)
    }
}

/// Splits a chain at its `.add(` and `.sub(` calls outside parentheses.
/// Returns nothing where there is no such call.
pub fn try_split_add_sub(expr: &[u8]) -> (r: Option<Vec<(bool, Vec<u8>)>>)
    ensures
        match r {
            Some(parts) => parts_view(parts@) == sum_parts(expr@, 0, 0, 0, false) && parts@.len()
                >= 2,
            None => sum_parts(expr@, 0, 0, 0, false).len() == 0,
        },
        r matches Some(parts) ==> forall|k: int|
            0 <= k < parts@.len() ==> (#[trigger] parts@[k]).1@.len() < expr@.len(),
{
    let mut terms: Vec<(bool, Vec<u8>)> = Vec::new();
    let mut depth: i128 = 0;
    let mut i: usize = 0;
    let mut last_split: usize = 0;
    let mut found_first = false;
    let ghost whole = sum_parts(expr@, 0, 0, 0, false);
    proof {
        lemma_call_lengths();
        assert(parts_view(terms@) =~= Seq::<Part>::empty());
    }
    while i < expr.len()
        invariant
            i <= expr.len(),
            last_split <= i,
            -(i as int) <= depth <= i as int,
            add_call().len() == 5,
            sub_call().len() == 5,
            found_first <==> terms@.len() > 0,
            terms@.len() != 1,
            whole == parts_view(terms@) + sum_parts(
                expr@,
                i as int,
                depth as int,
                last_split as int,
                found_first,
            ),
            forall|k: int| 0 <= k < terms@.len() ==> (#[trigger] terms@[k]).1@.len() < expr@.len(),
        decreases expr.len() - i,
    {
        let b = expr[i];
        if b == 40 {
            depth = depth + 1;
        } else if b == 41 {
            depth = depth - 1;
        } else if depth == 0 {
            let is_add = stands_at(expr, ".add(".as_bytes(), i);
            let is_sub = !is_add && stands_at(expr, ".sub(".as_bytes(), i);
            if is_add || is_sub {
                let ghost before = parts_view(terms@);
                let ghost head: Seq<Part> = if found_first {
                    Seq::empty()
                } else {
                    seq![(false, trimmed(expr@.subrange(last_split as int, i as int)))]
                };
                if !found_first {
                    let first = trim(slice_of(expr, last_split, i));
                    terms.push((false, crate::text::copy_bytes(first)));
                    found_first = true;
                }
                let (arg, next) = read_call_argument(expr, i + 5);
                let ghost arg_view = arg@;
                terms.push((is_sub, arg));
                proof {
                    assert(parts_view(terms@) =~= before + head + seq![(is_sub, arg_view)]);
                    assert(before + (head + seq![(is_sub, arg_view)] + sum_parts(
                        expr@,
                        next as int,
                        depth as int,
                        next as int,
                        true,
                    )) =~= (before + head + seq![(is_sub, arg_view)]) + sum_parts(
                        expr@,
                        next as int,
                        depth as int,
                        next as int,
                        true,
                    ));
                }
                i = next;
                last_split = next;
                continue ;
            }
        }
        i = i + 1;
    }
    proof {
        assert(whole =~= parts_view(terms@));
    }
    if !found_first {
        return None;
    }
    Some(terms)
}

/// The position of the first `.mul(` or `.div(` outside parentheses from
/// `i` on, or the length of the text.
pub open spec fn first_product_call(s: Seq<u8>, i: int, depth: int) -> int
    decreases s.len() - i,
{
    if i < 0 || i >= s.len() {
        s.len() as int
    } else if s[i] == 40 {
        first_product_call(s, i + 1, depth + 1)
    } else if s[i] == 41 {
        first_product_call(s, i + 1, depth - 1)
    } else if depth == 0 && (occurs_at(s, mul_call(), i) || occurs_at(s, div_call(), i)) {
        i
    } else {
        first_product_call(s, i + 1, depth)
    }
}

/// The operands of a product from position `i` on, with `depth`
/// parentheses open: the argument of each `.mul(` and `.div(` outside
/// parentheses.
pub open spec fn product_parts(s: Seq<u8>, i: int, depth: int) -> Seq<Part>
    decreases s.len() - i,
{
    if i < 0 || i >= s.len() {
        Seq::empty()
    } else if s[i] == 40 {
        product_parts(s, i + 1, depth + 1)
    } else if s[i] == 41 {
        product_parts(s, i + 1, depth - 1)
    } else if depth == 0 && (occurs_at(s, mul_call(), i) || occurs_at(s, div_call(), i)) {
        let next = after_call(s, i + 5);
        let rest = if i < next <= s.len() {
            product_parts(s, next, depth)
        } else {
            Seq::empty()
        };
        seq![(!occurs_at(s, mul_call(), i), call_argument(s, i + 5))] + rest
    } else {
        product_parts(s, i + 1, depth)
    }
}

/// The first operand of a product: the text in front of its first call.
pub open spec fn product_base(s: Seq<u8>) -> Seq<u8> {
    trimmed(s.subrange(0, first_product_call(s, 0, 0)))
}

/// Whether a chain holds a `.mul(` or `.div(` outside parentheses.
pub open spec fn is_product(s: Seq<u8>) -> bool {
    first_product_call(s, 0, 0) < s.len()
}

/// The first product call lies between the start and the end of the text.
pub proof fn lemma_first_call_bounds(s: Seq<u8>, i: int, depth: int)
    requires
        0 <= i <= s.len(),
    ensures
        i <= first_product_call(s, i, depth) <= s.len(),
    decreases s.len() - i,
{
    if i < s.len() {
        if s[i] == 40 {
            lemma_first_call_bounds(s, i + 1, depth + 1);
        } else if s[i] == 41 {
            lemma_first_call_bounds(s, i + 1, depth - 1);
        } else if depth == 0 && (occurs_at(s, mul_call(), i) || occurs_at(s, div_call(), i)) {
        } else {
            lemma_first_call_bounds(s, i + 1, depth);
        }
    }
}

/// The position of the first `.mul(` or `.div(` outside parentheses, or
/// the length of the text.
fn find_product_call(expr: &[u8]) -> (r: usize)
    ensures
        r == first_product_call(expr@, 0, 0),
        r <= expr@.len(),
        r < expr@.len() ==> occurs_at(expr@, mul_call(), r as int) || occurs_at(
            expr@,
            div_call(),
            r as int,
        ),
{
    let mut depth: i128 = 0;
    let mut i: usize = 0;
    while i < expr.len()
        invariant
            i <= expr.len(),
            -(i as int) <= depth <= i as int,
            first_product_call(expr@, 0, 0) == first_product_call(expr@, i as int, depth as int),
        decreases expr.len() - i,
    {
        let b = expr[i];
        if b == 40 {
            depth = depth + 1;
        } else if b == 41 {
            depth = depth - 1;
        } else if depth == 0 {
            if stands_at(expr, ".mul(".as_bytes(), i) || stands_at(expr, ".div(".as_bytes(), i) {
                return i;
            }
        }
        i = i + 1;
    }
    expr.len()
}

/// Splits a chain at its `.mul(` and `.div(` calls outside parentheses.
/// Returns the first operand and the others, each marked where it
/// divides; nothing where there is no such call.
pub fn try_split_mul_div(expr: &[u8]) -> (r: Option<(Vec<u8>, Vec<(bool, Vec<u8>)>)>)
    ensures
        match r {
            Some((base, operations)) => is_product(expr@) && base@ == product_base(expr@)
                && parts_view(operations@) == product_parts(
                expr@,
                first_product_call(expr@, 0, 0),
                0,
            ) && operations@.len() >= 1,
            None => !is_product(expr@),
        },
        r matches Some(pair) ==> pair.0@.len() < expr@.len() && forall|k: int|
            0 <= k < pair.1@.len() ==> (#[trigger] pair.1@[k]).1@.len() < expr@.len(),
{
    proof {
        lemma_call_lengths();
    }
    let first = find_product_call(expr);
    if first >= expr.len() {
        return None;
    }
    assert(occurs_at(expr@, mul_call(), first as int) || occurs_at(expr@, div_call(), first as int));
    assert(expr@[first as int] == 46) by {
        if occurs_at(expr@, mul_call(), first as int) {
            assert(expr@.subrange(first as int, first + 5)[0] == mul_call()[0]);
        } else {
            assert(expr@.subrange(first as int, first + 5)[0] == div_call()[0]);
        }
    }
    let base = crate::text::copy_bytes(trim(slice_of(expr, 0, first)));
    let mut operations: Vec<(bool, Vec<u8>)> = Vec::new();
    let ghost whole = product_parts(expr@, first as int, 0);
    let mut depth: i128 = 0;
    let mut i: usize = first;
    assert(parts_view(operations@) =~= Seq::<Part>::empty());
    while i < expr.len()
        invariant
            first <= i <= expr.len(),
            first < expr.len(),
            expr@[first as int] == 46,
            -(i as int) <= depth <= i as int,
            mul_call().len() == 5,
            div_call().len() == 5,
            i == first ==> operations@.len() == 0 && depth == 0,
            i > first ==> operations@.len() >= 1,
            occurs_at(expr@, mul_call(), first as int) || occurs_at(
                expr@,
                div_call(),
                first as int,
            ),
            whole == parts_view(operations@) + product_parts(expr@, i as int, depth as int),
            forall|k: int|
                0 <= k < operations@.len() ==> (#[trigger] operations@[k]).1@.len() < expr@.len(),
        decreases expr.len() - i,
    {
        let b = expr[i];
        if b == 40 {
            depth = depth + 1;
        } else if b == 41 {
            depth = depth - 1;
        } else if depth == 0 {
            let is_mul = stands_at(expr, ".mul(".as_bytes(), i);
            let is_div = !is_mul && stands_at(expr, ".div(".as_bytes(), i);
            if is_mul || is_div {
                let ghost before = parts_view(operations@);
                let (arg, next) = read_call_argument(expr, i + 5);
                let ghost arg_view = arg@;
                operations.push((is_div, arg));
                proof {
                    assert(parts_view(operations@) =~= before + seq![(is_div, arg_view)]);
                    assert(before + (seq![(is_div, arg_view)] + product_parts(
                        expr@,
                        next as int,
                        depth as int,
                    )) =~= (before + seq![(is_div, arg_view)]) + product_parts(
                        expr@,
                        next as int,
                        depth as int,
                    ));
                }
                i = next;
                continue ;
            }
        }
        i = i + 1;
    }
    proof {
        assert(whole =~= parts_view(operations@));
    }
    Some((base, operations))
}

/// Whether the parenthesis that opens a text is closed before its end:
/// scanning from `i` with `depth` open, nothing where the count returns to
/// zero before the last byte, and the count at the end otherwise.
pub open spec fn paren_scan(s: Seq<u8>, i: int, depth: int) -> Option<int>
    decreases s.len() - i,
{
    if i < 0 || i >= s.len() {
        Some(depth)
    } else if s[i] == 40 {
        paren_scan(s, i + 1, depth + 1)
    } else if s[i] == 41 {
        if depth - 1 == 0 && i != s.len() - 1 {
            None
        } else {
            paren_scan(s, i + 1, depth - 1)
        }
    } else {
        paren_scan(s, i + 1, depth)
    }
}

/// The text without white space around it and without one pair of
/// parentheses that encloses all of it.
pub open spec fn stripped(s: Seq<u8>) -> Seq<u8> {
    let t = trimmed(s);
    if t.len() >= 2 && t[0] == 40 && t.last() == 41 && paren_scan(t, 0, 0) == Some(0int) {
        trimmed(t.subrange(1, t.len() - 1))
    } else {
        t
    }
}

/// Strips white space and one pair of enclosing parentheses.
pub fn strip_outer_parens(s: &[u8]) -> (r: &[u8])
    ensures
        r@ == stripped(s@),
        r@.len() <= s@.len(),
{
    let t = trim(s);
    if t.len() < 2 || t[0] != 40 || t[t.len() - 1] != 41 {
        return t;
    }
    let mut depth: i128 = 0;
    let mut i: usize = 0;
    while i < t.len()
        invariant
            i <= t.len(),
            -(i as int) <= depth <= i as int,
            t@ == trimmed(s@),
            t@.len() <= s@.len(),
            t@.len() >= 2,
            t@[0] == 40,
            t@.last() == 41,
            paren_scan(t@, 0, 0) == paren_scan(t@, i as int, depth as int),
        decreases t.len() - i,
    {
        let b = t[i];
        if b == 40 {
            depth = depth + 1;
        } else if b == 41 {
            depth = depth - 1;
            if depth == 0 && i != t.len() - 1 {
                return t;
            }
        }
        i = i + 1;
    }
    if depth == 0 {
        trim(slice_of(t, 1, t.len() - 1))
    } else {
        t
    }
}

} // verus!
