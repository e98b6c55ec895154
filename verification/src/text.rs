//! Byte-level reading of expression text in UTF-8: trimming, matching of
//! fixed parts, and whole numbers.

use vstd::prelude::*;

verus! {

/// Whether a byte is ASCII white space.
pub open spec fn is_space(b: u8) -> bool {
    b == 32 || (9 <= b <= 13)
}

/// Whether a byte is an ASCII digit.
pub open spec fn is_digit(b: u8) -> bool {
    48 <= b <= 57
}

/// Whether three bytes are a white-space character of three bytes in
/// UTF-8: U+1680, U+2000 to U+200A, U+2028, U+2029, U+202F, U+205F or
/// U+3000.
pub open spec fn is_wide_space(a: u8, b: u8, c: u8) -> bool {
    (a == 0xE1 && b == 0x9A && c == 0x80) || (a == 0xE2 && b == 0x80 && (0x80 <= c <= 0x8A || c
        == 0xA8 || c == 0xA9 || c == 0xAF)) || (a == 0xE2 && b == 0x81 && c == 0x9F) || (a == 0xE3
        && b == 0x80 && c == 0x80)
}

/// The number of bytes of the white-space character that begins at `i`, or
/// zero where none does. White space is what Unicode calls so: the ASCII
/// white space, U+0085, U+00A0 and the characters of three bytes.
pub open spec fn space_at(s: Seq<u8>, i: int) -> int {
    if i < 0 || i >= s.len() {
        0
    } else if is_space(s[i]) {
        1
    } else if i + 1 < s.len() && s[i] == 0xC2 && (s[i + 1] == 0x85 || s[i + 1] == 0xA0) {
        2
    } else if i + 2 < s.len() && is_wide_space(s[i], s[i + 1], s[i + 2]) {
        3
    } else {
        0
    }
}

/// The number of bytes of the white-space character that ends before `j`
/// and begins at or behind `lo`, or zero where none does.
pub open spec fn space_before(s: Seq<u8>, lo: int, j: int) -> int {
    if lo < 0 || j <= lo || j > s.len() {
        0
    } else if is_space(s[j - 1]) {
        1
    } else if j - 2 >= lo && s[j - 2] == 0xC2 && (s[j - 1] == 0x85 || s[j - 1] == 0xA0) {
        2
    } else if j - 3 >= lo && is_wide_space(s[j - 3], s[j - 2], s[j - 1]) {
        3
    } else {
        0
    }
}

/// The first position from `i` on at which no white space begins.
pub open spec fn skip_spaces(s: Seq<u8>, i: int) -> int
    decreases s.len() - i,
{
    if space_at(s, i) > 0 {
        skip_spaces(s, i + space_at(s, i))
    } else {
        i
    }
}

/// The end of the text before `j` once trailing white space is dropped, not
/// going below `lo`.
pub open spec fn drop_spaces(s: Seq<u8>, lo: int, j: int) -> int
    decreases j,
{
    if space_before(s, lo, j) > 0 {
        drop_spaces(s, lo, j - space_before(s, lo, j))
    } else {
        j
    }
}

/// The text without leading and trailing white space.
pub open spec fn trimmed(s: Seq<u8>) -> Seq<u8> {
    let lo = skip_spaces(s, 0);
    let hi = drop_spaces(s, lo, s.len() as int);
    s.subrange(lo, hi)
}

/// Whether `s` begins with `p`.
pub open spec fn spec_starts_with(s: Seq<u8>, p: Seq<u8>) -> bool {
    p.len() <= s.len() && s.subrange(0, p.len() as int) == p
}

/// Whether `s` ends with `p`.
pub open spec fn spec_ends_with(s: Seq<u8>, p: Seq<u8>) -> bool {
    p.len() <= s.len() && s.subrange(s.len() - p.len(), s.len() as int) == p
}

/// Whether `p` stands in `s` at position `i`.
pub open spec fn occurs_at(s: Seq<u8>, p: Seq<u8>, i: int) -> bool {
    0 <= i && i + p.len() <= s.len() && s.subrange(i, i + p.len()) == p
}

/// The first position at or after `from` where `p` stands in `s`, or the
/// length of `s` where there is none.
pub open spec fn first_occurrence(s: Seq<u8>, p: Seq<u8>, from: int) -> int
    decreases s.len() - from,
{
    if from < 0 || from + p.len() > s.len() {
        s.len() as int
    } else if occurs_at(s, p, from) {
        from
    } else if from >= s.len() {
        s.len() as int
    } else {
        first_occurrence(s, p, from + 1)
    }
}

/// The last position before `end` that holds the byte `b`, or -1.
pub open spec fn last_byte(s: Seq<u8>, b: u8, end: int) -> int
    decreases end,
{
    if end <= 0 || end > s.len() {
        -1
    } else if s[end - 1] == b {
        end - 1
    } else {
        last_byte(s, b, end - 1)
    }
}

/// The number that a sequence of digits denotes.
pub open spec fn digits_value(s: Seq<u8>) -> nat
    decreases s.len(),
{
    if s.len() == 0 {
        0
    } else {
        digits_value(s.drop_last()) * 10 + (s.last() - 48) as nat
    }
}

/// Whether every byte is a digit.
pub open spec fn all_digits(s: Seq<u8>) -> bool {
    forall|i: int| 0 <= i < s.len() ==> is_digit(#[trigger] s[i])
}

/// The unsigned number that a text denotes: digits, with `+` allowed in
/// front, denoting a number that fits 32 bits.
pub open spec fn spec_parse_u32(s: Seq<u8>) -> Option<u32> {
    let body = if s.len() > 0 && s[0] == 43 {
        s.subrange(1, s.len() as int)
    } else {
        s
    };
    if body.len() > 0 && all_digits(body) && digits_value(body) <= u32::MAX {
        Some(digits_value(body) as u32)
    } else {
        None
    }
}

/// The signed number that a text denotes: digits, with `+` or `-` allowed
/// in front, denoting a number that fits 32 bits.
pub open spec fn spec_parse_i32(s: Seq<u8>) -> Option<i32> {
    let negative = s.len() > 0 && s[0] == 45;
    let body = if s.len() > 0 && (s[0] == 43 || s[0] == 45) {
        s.subrange(1, s.len() as int)
    } else {
        s
    };
    if body.len() > 0 && all_digits(body) {
        let v = digits_value(body);
        if negative && v <= 0x8000_0000 {
            Some((-(v as int)) as i32)
        } else if !negative && v <= 0x7fff_ffff {
            Some(v as i32)
        } else {
            None
        }
    } else {
        None
    }
}

/// The part of a slice from `from` up to `to`.
pub fn slice_of(bytes: &[u8], from: usize, to: usize) -> (r: &[u8])
    requires
        from <= to <= bytes@.len(),
    ensures
        r@ == bytes@.subrange(from as int, to as int),
{
    &bytes[from..to]
}

/// A copy of a sequence of bytes.
pub fn copy_bytes(bytes: &[u8]) -> (r: Vec<u8>)
    ensures
        r@ == bytes@,
{
    let mut out: Vec<u8> = Vec::new();
    let mut i: usize = 0;
    while i < bytes.len()
        invariant
            i <= bytes.len(),
            out@ == bytes@.take(i as int),
        decreases bytes.len() - i,
    {
        out.push(bytes[i]);
        assert(bytes@.take(i as int + 1) =~= bytes@.take(i as int).push(bytes@[i as int]));
        i = i + 1;
    }
    assert(bytes@.take(bytes@.len() as int) =~= bytes@);
    out
}

/// Whether a byte is ASCII white space.
fn ascii_space(b: u8) -> (r: bool)
    ensures
        r == is_space(b),
{
    b == 32 || (9 <= b && b <= 13)
}

/// Whether three bytes are a white-space character of three bytes.
fn wide_space(a: u8, b: u8, c: u8) -> (r: bool)
    ensures
        r == is_wide_space(a, b, c),
{
    (a == 0xE1 && b == 0x9A && c == 0x80) || (a == 0xE2 && b == 0x80 && ((0x80 <= c && c <= 0x8A)
        || c == 0xA8 || c == 0xA9 || c == 0xAF)) || (a == 0xE2 && b == 0x81 && c == 0x9F) || (a
        == 0xE3 && b == 0x80 && c == 0x80)
}

/// The number of bytes of the white-space character that begins at `i`.
fn space_len_at(s: &[u8], i: usize) -> (n: usize)
    requires
        i <= s@.len(),
    ensures
        n == space_at(s@, i as int),
        i + n <= s@.len(),
{
    let total = s.len();
    if i >= total {
        0
    } else if ascii_space(s[i]) {
        1
    } else if total - i >= 2 && s[i] == 0xC2 && (s[i + 1] == 0x85 || s[i + 1] == 0xA0) {
        2
    } else if total - i >= 3 && wide_space(s[i], s[i + 1], s[i + 2]) {
        3
    } else {
        0
    }
}

/// The number of bytes of the white-space character that ends before `j`
/// and begins at or behind `lo`.
fn space_len_before(s: &[u8], lo: usize, j: usize) -> (n: usize)
    requires
        lo <= j <= s@.len(),
    ensures
        n == space_before(s@, lo as int, j as int),
        lo + n <= j,
{
    if j <= lo {
        0
    } else if ascii_space(s[j - 1]) {
        1
    } else if j - lo >= 2 && s[j - 2] == 0xC2 && (s[j - 1] == 0x85 || s[j - 1] == 0xA0) {
        2
    } else if j - lo >= 3 && wide_space(s[j - 3], s[j - 2], s[j - 1]) {
        3
    } else {
        0
    }
}

/// The text without leading and trailing white space.
pub fn trim(s: &[u8]) -> (r: &[u8])
    ensures
        r@ == trimmed(s@),
        r@.len() <= s@.len(),
{
    let mut lo: usize = 0;
    let mut step = space_len_at(s, lo);
    while step > 0
        invariant
            lo <= s.len(),
            step == space_at(s@, lo as int),
            lo + step <= s@.len(),
            skip_spaces(s@, 0) == skip_spaces(s@, lo as int),
        decreases s.len() - lo,
    {
        lo = lo + step;
        step = space_len_at(s, lo);
    }
    let mut hi: usize = s.len();
    let mut back = space_len_before(s, lo, hi);
    while back > 0
        invariant
            lo <= hi <= s.len(),
            back == space_before(s@, lo as int, hi as int),
            lo + back <= hi,
            drop_spaces(s@, lo as int, s@.len() as int) == drop_spaces(s@, lo as int, hi as int),
        decreases hi,
    {
        hi = hi - back;
        back = space_len_before(s, lo, hi);
    }
    slice_of(s, lo, hi)
}

/// Whether two texts are the same.
pub fn same_bytes(a: &[u8], b: &[u8]) -> (r: bool)
    ensures
        r == (a@ == b@),
{
    if a.len() != b.len() {
        return false;
    }
    let mut i: usize = 0;
    while i < a.len()
        invariant
            i <= a.len(),
            a@.len() == b@.len(),
            forall|k: int| 0 <= k < i ==> a@[k] == b@[k],
        decreases a.len() - i,
    {
        if a[i] != b[i] {
            return false;
        }
        i = i + 1;
    }
    assert(a@ =~= b@);
    true
}

/// Whether `p` stands in `s` at position `i`.
pub fn stands_at(s: &[u8], p: &[u8], i: usize) -> (r: bool)
    ensures
        r == occurs_at(s@, p@, i as int),
{
    if i > s.len() || p.len() > s.len() - i {
        return false;
    }
    same_bytes(slice_of(s, i, i + p.len()), p)
}

/// Whether `s` begins with `p`.
pub fn starts_with(s: &[u8], p: &[u8]) -> (r: bool)
    ensures
        r == spec_starts_with(s@, p@),
{
    stands_at(s, p, 0)
}

/// Whether `s` ends with `p`.
pub fn ends_with(s: &[u8], p: &[u8]) -> (r: bool)
    ensures
        r == spec_ends_with(s@, p@),
{
    if p.len() > s.len() {
        return false;
    }
    stands_at(s, p, s.len() - p.len())
}

/// The first position where `p` stands in `s`, if there is one.
pub fn find(s: &[u8], p: &[u8]) -> (r: Option<usize>)
    ensures
        match r {
            Some(i) => first_occurrence(s@, p@, 0) == i && occurs_at(s@, p@, i as int),
            None => first_occurrence(s@, p@, 0) == s@.len() && !occurs_at(
                s@,
                p@,
                s@.len() as int,
            ),
        },
{
    if p.len() > s.len() {
        return None;
    }
    let last = s.len() - p.len();
    let mut i: usize = 0;
    while i < last
        invariant
            i <= last,
            last + p@.len() == s@.len(),
            first_occurrence(s@, p@, 0) == first_occurrence(s@, p@, i as int),
        decreases last - i,
    {
        if stands_at(s, p, i) {
            return Some(i);
        }
        i = i + 1;
    }
    if stands_at(s, p, last) {
        Some(last)
    } else {
        assert(first_occurrence(s@, p@, last as int + 1) == s@.len());
        assert(first_occurrence(s@, p@, last as int) == s@.len());
        None
    }
}

/// The last position that holds the byte `b`, if there is one.
pub fn rfind_byte(s: &[u8], b: u8) -> (r: Option<usize>)
    ensures
        match r {
            Some(i) => last_byte(s@, b, s@.len() as int) == i && i < s@.len() && s@[i as int] == b,
            None => last_byte(s@, b, s@.len() as int) == -1,
        },
{
    let mut end: usize = s.len();
    while end > 0
        invariant
            end <= s.len(),
            last_byte(s@, b, s@.len() as int) == last_byte(s@, b, end as int),
        decreases end,
    {
        if s[end - 1] == b {
            return Some(end - 1);
        }
        end = end - 1;
    }
    None
}

/// The number that a sequence of digits denotes, where every byte is a digit
/// and the number is at most `limit`.
fn read_digits(s: &[u8], limit: u64) -> (r: Option<u64>)
    requires
        limit <= 0xffff_ffff,
    ensures
        match r {
            Some(v) => s@.len() > 0 && all_digits(s@) && digits_value(s@) == v && v <= limit,
            None => !(s@.len() > 0 && all_digits(s@) && digits_value(s@) <= limit),
        },
{
    if s.len() == 0 {
        return None;
    }
    let mut value: u64 = 0;
    let mut i: usize = 0;
    assert(s@.take(0) =~= Seq::<u8>::empty());
    while i < s.len()
        invariant
            i <= s.len(),
            limit <= 0xffff_ffff,
            all_digits(s@.take(i as int)),
            value == digits_value(s@.take(i as int)),
            value <= limit,
        decreases s.len() - i,
    {
        let b = s[i];
        let ghost next = s@.take(i as int + 1);
        assert(next.drop_last() =~= s@.take(i as int));
        assert(next.last() == b);
        if b < 48 || b > 57 {
            assert(!all_digits(s@)) by {
                assert(!is_digit(s@[i as int]));
            }
            return None;
        }
        let grown = value * 10 + (b - 48) as u64;
        if grown > limit {
            proof {
                lemma_digits_grow(s@, i as int + 1);
            }
            return None;
        }
        value = grown;
        assert(all_digits(next)) by {
            assert forall|k: int| 0 <= k < next.len() implies is_digit(#[trigger] next[k]) by {
                if k < i {
                    assert(next[k] == s@.take(i as int)[k]);
                }
            }
        }
        i = i + 1;
    }
    assert(s@.take(s@.len() as int) =~= s@);
    Some(value)
}

/// The number denoted by a sequence of digits is at least the number
/// denoted by any of its beginnings.
pub proof fn lemma_digits_grow(s: Seq<u8>, n: int)
    requires
        0 <= n <= s.len(),
    ensures
        digits_value(s.take(n)) <= digits_value(s),
    decreases s.len() - n,
{
    if n < s.len() {
        lemma_digits_grow(s, n + 1);
        let next = s.take(n + 1);
        assert(next.drop_last() =~= s.take(n));
        if s[n] < 48 {
            assert(digits_value(next) == digits_value(s.take(n)) * 10 + (next.last() - 48) as nat);
        }
    } else {
        assert(s.take(n) =~= s);
    }
}

/// Reads an unsigned 32-bit number.
pub fn parse_u32(s: &[u8]) -> (r: Option<u32>)
    ensures
        r == spec_parse_u32(s@),
{
    let body = if s.len() > 0 && s[0] == 43 {
        slice_of(s, 1, s.len())
    } else {
        s
    };
    match read_digits(body, 0xffff_ffff) {
        Some(v) => Some(v as u32),
        None => None,
    }
}

/// Reads a signed 32-bit number.
pub fn parse_i32(s: &[u8]) -> (r: Option<i32>)
    ensures
        r == spec_parse_i32(s@),
{
    let negative = s.len() > 0 && s[0] == 45;
    let body = if s.len() > 0 && (s[0] == 43 || s[0] == 45) {
        slice_of(s, 1, s.len())
    } else {
        s
    };
    if negative {
        match read_digits(body, 0x8000_0000) {
            Some(v) => Some((-(v as i64)) as i32),
            None => None,
        }
    } else {
        match read_digits(body, 0x7fff_ffff) {
            Some(v) => Some(v as i32),
            None => None,
        }
    }
}

} // verus!
