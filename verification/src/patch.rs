//! The reference patcher: a single left-to-right pass over an object's
//! interior that rewrites valid `<id> <gen> R` reference tokens through the
//! mapping, while copying comments, string literals, and everything from a
//! stream payload onward verbatim.

use vstd::prelude::*;

use crate::mapping::{map_fn_of, Mapping};
use crate::scanner::{
    digit_start, eat_suffix, is_digit, is_ws, lemma_run_start, pred_holds, run_start, ws_start,
    BytePred,
};

verus! {

/// The numeric value of a sequence of ASCII decimal digits.
pub open spec fn digits_val(s: Seq<u8>) -> int
    decreases s.len(),
{
    if s.len() == 0 {
        0
    } else {
        digits_val(s.drop_last()) * 10 + (s.last() - 0x30)
    }
}

/// The canonical decimal text of a non-negative integer.
pub open spec fn dec_of(n: int) -> Seq<u8>
    decreases n,
{
    if n < 10 {
        seq![(0x30 + if n < 0 { 0 } else { n }) as u8]
    } else {
        dec_of(n / 10).push((0x30 + n % 10) as u8)
    }
}

/// Decimal text consists of ASCII digits.
pub proof fn lemma_dec_of_digits(n: int)
    ensures
        forall|i: int| 0 <= i < dec_of(n).len() ==> is_digit(#[trigger] dec_of(n)[i]),
        dec_of(n).len() >= 1,
    decreases n,
{
    if n < 10 {
        assert(dec_of(n)[0] == (0x30 + if n < 0 {
            0int
        } else {
            n
        }) as u8);
    } else {
        lemma_dec_of_digits(n / 10);
        assert(forall|i: int|
            0 <= i < dec_of(n / 10).len() ==> dec_of(n)[i] == dec_of(n / 10)[i]);
        assert(dec_of(n)[dec_of(n).len() - 1] == (0x30 + n % 10) as u8);
    }
}

/// Parsing the decimal text of a non-negative number gives it back.
pub proof fn lemma_dec_of_val(n: int)
    requires
        n >= 0,
    ensures
        digits_val(dec_of(n)) == n,
    decreases n,
{
    if n < 10 {
        assert(dec_of(n).drop_last() =~= Seq::<u8>::empty());
        assert(dec_of(n).last() == (0x30 + n) as u8);
        assert((0x30 + n) as u8 == 0x30 + n);
        assert(digits_val(dec_of(n).drop_last()) == 0);
    } else {
        lemma_dec_of_val(n / 10);
        assert(0 <= n % 10 < 10);
        assert(dec_of(n).drop_last() =~= dec_of(n / 10));
        assert(dec_of(n).last() == (0x30 + n % 10) as u8);
        assert((0x30 + n % 10) as u8 == 0x30 + n % 10);
        assert(digits_val(dec_of(n)) == digits_val(dec_of(n / 10)) * 10 + (n % 10));
        assert(n / 10 * 10 + n % 10 == n) by (nonlinear_arith)
            requires
                n >= 10,
        ;
    }
}

/// The value of a digit run is at least the value of any of its prefixes.
pub proof fn lemma_digits_val_prefix(s: Seq<u8>, k: int)
    requires
        0 <= k <= s.len(),
        forall|i: int| 0 <= i < s.len() ==> is_digit(s[i]),
    ensures
        digits_val(s) >= digits_val(s.take(k)),
        digits_val(s.take(k)) >= 0,
    decreases s.len() - k,
{
    if k == s.len() {
        assert(s.take(k) =~= s);
        lemma_digits_val_nonneg(s);
    } else {
        lemma_digits_val_prefix(s, k + 1);
        assert(s.take(k + 1).drop_last() =~= s.take(k));
        lemma_digits_val_nonneg(s.take(k));
    }
}

/// A digit run has a non-negative value.
pub proof fn lemma_digits_val_nonneg(s: Seq<u8>)
    requires
        forall|i: int| 0 <= i < s.len() ==> is_digit(s[i]),
    ensures
        digits_val(s) >= 0,
    decreases s.len(),
{
    if s.len() > 0 {
        lemma_digits_val_nonneg(s.drop_last());
    }
}

/// Parse the digit run `s[start..end]` as a decimal number; `None` exactly
/// when it does not fit the id type.
pub fn parse_digits(s: &[u8], start: usize, end: usize) -> (r: Option<i32>)
    requires
        start <= end <= s@.len(),
        forall|i: int| start <= i < end ==> is_digit(s@[i]),
    ensures
        match r {
            Some(v) => v as int == digits_val(s@.subrange(start as int, end as int)) && v >= 0,
            None => digits_val(s@.subrange(start as int, end as int)) > i32::MAX,
        },
{
    let ghost all = s@.subrange(start as int, end as int);
    let mut v: i32 = 0;
    let mut i: usize = start;
    while i < end
        invariant
            start <= i <= end <= s@.len(),
            forall|j: int| start <= j < end ==> is_digit(s@[j]),
            all == s@.subrange(start as int, end as int),
            0 <= v,
            v as int == digits_val(s@.subrange(start as int, i as int)),
        decreases end - i,
    {
        let dg = (s[i] - 0x30) as i32;
        proof {
            assert(s@.subrange(start as int, i + 1).drop_last() =~= s@.subrange(
                start as int,
                i as int,
            ));
        }
        if v <= (i32::MAX - dg) / 10 {
            assert(v * 10 + dg <= i32::MAX) by (nonlinear_arith)
                requires
                    0 <= dg < 10,
                    0 <= v,
                    v <= (i32::MAX - dg) / 10,
            ;
            v = v * 10 + dg;
        } else {
            proof {
                assert(v * 10 + dg > i32::MAX) by (nonlinear_arith)
                    requires
                        0 <= dg < 10,
                        0 <= v,
                        v > (i32::MAX - dg) / 10,
                ;
                assert(all.take(i + 1 - start) =~= s@.subrange(start as int, i + 1));
                lemma_digits_val_prefix(all, i + 1 - start);
            }
            return None;
        }
        i = i + 1;
    }
    proof {
        assert(s@.subrange(start as int, end as int) =~= s@.subrange(start as int, i as int));
    }
    Some(v)
}

/// Eat an ASCII number, in reverse: trims the digit suffix of `s[..end]`
/// and parses it. `None` when there are no digits or the value does not
/// fit the id type; otherwise where the digits begin, and their value.
pub fn eat_number_rev(s: &[u8], end: usize) -> (r: Option<(usize, i32)>)
    requires
        end <= s@.len(),
    ensures
        match r {
            Some((start, v)) => start as int == digit_start(s@, end as int) && start < end && v
                as int == digits_val(s@.subrange(start as int, end as int)) && v >= 0,
            None => ({
                let start = digit_start(s@, end as int);
                start == end as int || digits_val(s@.subrange(start, end as int)) > i32::MAX
            }),
        },
{
    proof {
        lemma_run_start(s@, end as int, BytePred::Digit);
    }
    let d = eat_suffix(s, end, BytePred::Digit);
    if d == end {
        return None;
    }
    match parse_digits(s, d, end) {
        Some(v) => Some((d, v)),
        None => None,
    }
}

/// Append the canonical decimal text of a non-negative number.
pub fn push_decimal(buf: &mut Vec<u8>, n: i32)
    requires
        n >= 0,
    ensures
        final(buf)@ == old(buf)@ + dec_of(n as int),
    decreases n,
{
    if n >= 10 {
        push_decimal(buf, n / 10);
    }
    buf.push(0x30 + (n % 10) as u8);
    proof {
        assert(buf@ =~= old(buf)@ + dec_of(n as int));
    }
}

/// Whether the bytes already scanned, `s[..end]`, end with a well-formed
/// `<id> <gen> ` pattern: at least one whitespace byte, at least one digit
/// of a generation that fits the id type, at least one more whitespace
/// byte, and at least one digit of a positive id that fits the id type.
pub open spec fn ref_ok(s: Seq<u8>, end: int) -> bool {
    let a = ws_start(s, end);
    let b = digit_start(s, a);
    let c = ws_start(s, b);
    let d = digit_start(s, c);
    a < end && b < a && digits_val(s.subrange(b, a)) <= i32::MAX && c < b && d < c
        && digits_val(s.subrange(d, c)) <= i32::MAX && digits_val(s.subrange(d, c)) > 0
}

/// Where the matched `<id> <gen> R` token begins: the first digit of the id.
pub open spec fn ref_head(s: Seq<u8>, end: int) -> int {
    digit_start(s, ws_start(s, digit_start(s, ws_start(s, end))))
}

/// The id of the reference validated at `end`.
pub open spec fn ref_id(s: Seq<u8>, end: int) -> int {
    let c = ws_start(s, digit_start(s, ws_start(s, end)));
    digits_val(s.subrange(digit_start(s, c), c))
}

/// The generation of the reference validated at `end`.
pub open spec fn ref_gen(s: Seq<u8>, end: int) -> int {
    let a = ws_start(s, end);
    digits_val(s.subrange(digit_start(s, a), a))
}

/// A validated reference's token begins inside the scanned prefix, and
/// every byte between its start and the `R` is a digit or whitespace.
pub proof fn lemma_ref_head(s: Seq<u8>, end: int)
    requires
        0 <= end <= s.len(),
        ref_ok(s, end),
    ensures
        0 <= ref_head(s, end) <= end,
        forall|i: int| ref_head(s, end) <= i < end ==> is_ws(#[trigger] s[i]) || is_digit(s[i]),
{
    let a = ws_start(s, end);
    let b = digit_start(s, a);
    let c = ws_start(s, b);
    let d = digit_start(s, c);
    lemma_run_start(s, end, BytePred::Whitespace);
    lemma_run_start(s, a, BytePred::Digit);
    lemma_run_start(s, b, BytePred::Whitespace);
    lemma_run_start(s, c, BytePred::Digit);
    assert forall|i: int| d <= i < end implies is_ws(#[trigger] s[i]) || is_digit(s[i]) by {
        if i >= a {
            assert(pred_holds(BytePred::Whitespace, s[i]));
        } else if i >= b {
            assert(pred_holds(BytePred::Digit, s[i]));
        } else if i >= c {
            assert(pred_holds(BytePred::Whitespace, s[i]));
        } else {
            assert(pred_holds(BytePred::Digit, s[i]));
        }
    }
}

/// Validate a match for an indirect reference: the bytes before the `R` at
/// `end` must spell `<id> <gen> `. On success, returns where the token
/// begins, its id, and its generation.
pub fn validate_ref(s: &[u8], end: usize) -> (r: Option<(usize, i32, i32)>)
    requires
        end <= s@.len(),
    ensures
        match r {
            Some((head, id, gen)) => ref_ok(s@, end as int) && head as int == ref_head(
                s@,
                end as int,
            ) && id as int == ref_id(s@, end as int) && gen as int == ref_gen(s@, end as int)
                && 0 < id && 0 <= gen,
            None => !ref_ok(s@, end as int),
        },
{
    proof {
        lemma_run_start(s@, end as int, BytePred::Whitespace);
    }
    let a = eat_suffix(s, end, BytePred::Whitespace);
    if a == end {
        return None;
    }
    let (b, gen) = match eat_number_rev(s, a) {
        Some(r) => r,
        None => {
            return None;
        },
    };
    proof {
        lemma_run_start(s@, b as int, BytePred::Whitespace);
    }
    let c = eat_suffix(s, b, BytePred::Whitespace);
    if c == b {
        return None;
    }
    let (d, id) = match eat_number_rev(s, c) {
        Some(r) => r,
        None => {
            return None;
        },
    };
    if id > 0 {
        Some((d, id, gen))
    } else {
        None
    }
}

/// Position of the byte that ends a comment opened at or before `i`: the
/// next carriage return or line feed, or the end of the slice.
pub open spec fn comment_end(s: Seq<u8>, i: int) -> int
    decreases s.len() - i,
{
    if i >= s.len() {
        s.len() as int
    } else if s[i] == 0x0a || s[i] == 0x0d {
        i
    } else {
        comment_end(s, i + 1)
    }
}

/// A comment's end lies between where scanning began and the slice's end.
pub proof fn lemma_comment_end(s: Seq<u8>, i: int)
    requires
        0 <= i <= s.len(),
    ensures
        i <= comment_end(s, i) <= s.len(),
    decreases s.len() - i,
{
    if i < s.len() && !(s[i] == 0x0a || s[i] == 0x0d) {
        lemma_comment_end(s, i + 1);
    }
}

/// Advance the scan to the byte that ends a comment: the next carriage
/// return or line feed, or the end of the slice.
pub fn skip_comment(s: &[u8], start: usize) -> (r: usize)
    requires
        start <= s@.len(),
    ensures
        r as int == comment_end(s@, start as int),
        start <= r <= s@.len(),
{
    let mut i: usize = start;
    while i < s.len() && !(s[i] == 0x0a || s[i] == 0x0d)
        invariant
            start <= i <= s@.len(),
            comment_end(s@, start as int) == comment_end(s@, i as int),
        decreases s@.len() - i,
    {
        i = i + 1;
    }
    proof {
        lemma_comment_end(s@, start as int);
    }
    i
}

/// Where the scan of a balanced-parenthesis string opened at `i` stops:
/// the closing parenthesis of the outermost level, with a backslash
/// escaping the byte after it. Scanning may run one byte past the end
/// when a trailing backslash escapes nothing.
pub open spec fn string_skip(s: Seq<u8>, i: int, depth: int) -> int
    decreases s.len() + 2 - i,
{
    if i >= s.len() {
        i
    } else if s[i] == 0x29 && depth == 1 {
        i
    } else if s[i] == 0x28 {
        string_skip(s, i + 1, depth + 1)
    } else if s[i] == 0x29 {
        string_skip(s, i + 1, depth - 1)
    } else if s[i] == 0x5c {
        string_skip(s, i + 2, depth)
    } else {
        string_skip(s, i + 1, depth)
    }
}

/// The string scan never stops before where it began, nor more than one
/// byte past the end of the slice.
pub proof fn lemma_string_skip(s: Seq<u8>, i: int, depth: int)
    requires
        0 <= i <= s.len() + 1,
    ensures
        i <= string_skip(s, i, depth),
        string_skip(s, i, depth) <= s.len() + 1,
    decreases s.len() + 2 - i,
{
    if i < s.len() && !(s[i] == 0x29 && depth == 1) {
        if s[i] == 0x28 {
            lemma_string_skip(s, i + 1, depth + 1);
        } else if s[i] == 0x29 {
            lemma_string_skip(s, i + 1, depth - 1);
        } else if s[i] == 0x5c {
            lemma_string_skip(s, i + 2, depth);
        } else {
            lemma_string_skip(s, i + 1, depth);
        }
    }
}

/// Advance the scan through a balanced-parenthesis string literal opened
/// at `start`, honouring backslash escapes; stops on the closing
/// parenthesis or at the end of the slice. A backslash at the very end
/// escapes nothing: the scan conceptually overshoots the slice by one
/// byte, and the end of the slice is returned for it.
pub fn skip_string(s: &[u8], start: usize) -> (r: usize)
    requires
        start < s@.len(),
    ensures
        start <= r <= s@.len(),
        r as int == string_skip(s@, start as int, 0) || (string_skip(s@, start as int, 0) == s@.len()
            + 1 && r as int == s@.len()),
{
    let mut i: usize = start;
    let mut depth: i128 = 0;
    while i < s.len()
        invariant
            start <= i,
            i <= s@.len(),
            string_skip(s@, start as int, 0) == string_skip(s@, i as int, depth as int),
            -(i - start) <= depth as int <= i - start,
        decreases s@.len() - i,
    {
        let b = s[i];
        if b == 0x29 && depth == 1 {
            return i;
        }
        if b == 0x28 {
            depth = depth + 1;
            i = i + 1;
        } else if b == 0x29 {
            depth = depth - 1;
            i = i + 1;
        } else if b == 0x5c {
            if i + 1 < s.len() {
                i = i + 2;
            } else {
                proof {
                    assert(string_skip(s@, i as int, depth as int) == string_skip(
                        s@,
                        i + 2,
                        depth as int,
                    ));
                }
                return s.len();
            }
        } else {
            i = i + 1;
        }
    }
    i
}

/// The literal token that opens a stream payload.
pub open spec fn stream_lit() -> Seq<u8> {
    seq![0x73u8, 0x74u8, 0x72u8, 0x65u8, 0x61u8, 0x6du8]
}

/// Whether the whitespace-trimmed prefix `s[..end]` ends with the `>>`
/// that closes a dictionary, which is what must precede a stream payload.
pub open spec fn stream_prefix_ok(s: Seq<u8>, end: int) -> bool {
    let p = ws_start(s, end);
    p >= 2 && s[p - 1] == 0x3e && s[p - 2] == 0x3e
}

/// Validate a match for a stream: the already-scanned prefix, with
/// trailing whitespace trimmed, must end in `>>`.
pub fn validate_stream(s: &[u8], end: usize) -> (r: bool)
    requires
        end <= s@.len(),
    ensures
        r == stream_prefix_ok(s@, end as int),
{
    proof {
        lemma_run_start(s@, end as int, BytePred::Whitespace);
    }
    let p = eat_suffix(s, end, BytePred::Whitespace);
    p >= 2 && s[p - 1] == 0x3e && s[p - 2] == 0x3e
}

/// Whether scanning stops at `i`: the bytes from `i` spell `stream` and
/// the trimmed prefix ends with `>>`, so an opaque binary payload follows.
pub open spec fn stream_break_at(s: Seq<u8>, i: int) -> bool {
    0 <= i && i + 6 <= s.len() && s.subrange(i, i + 6) == stream_lit() && stream_prefix_ok(s, i)
}

/// Whether the bytes at `i` spell the literal `stream`.
fn stream_lit_at(s: &[u8], i: usize) -> (r: bool)
    requires
        i < s@.len(),
    ensures
        r == (i + 6 <= s@.len() && s@.subrange(i as int, i + 6) == stream_lit()),
{
    if s.len() - i < 6 {
        return false;
    }
    let r = s[i] == 0x73 && s[i + 1] == 0x74 && s[i + 2] == 0x72 && s[i + 3] == 0x65 && s[i + 4]
        == 0x61 && s[i + 5] == 0x6d;
    proof {
        if r {
            assert(s@.subrange(i as int, i + 6) =~= stream_lit());
        } else {
            assert(s@.subrange(i as int, i + 6) != stream_lit()) by {
                if s@.subrange(i as int, i + 6) == stream_lit() {
                    assert(s@.subrange(i as int, i + 6)[0] == 0x73u8);
                    assert(s@.subrange(i as int, i + 6)[1] == 0x74u8);
                    assert(s@.subrange(i as int, i + 6)[2] == 0x72u8);
                    assert(s@.subrange(i as int, i + 6)[3] == 0x65u8);
                    assert(s@.subrange(i as int, i + 6)[4] == 0x61u8);
                    assert(s@.subrange(i as int, i + 6)[5] == 0x6du8);
                }
            }
        }
    }
    r
}

/// The bytes that one scan step starting at `seen` appends to the output,
/// given that bytes before `written` are already copied: all remaining
/// bytes pass through verbatim except that each validated reference is
/// re-emitted with its id mapped through `m`, its generation kept, and
/// single spaces between the parts; nothing inside a comment or a string
/// literal is treated as a reference, and everything from a stream payload
/// start onward is copied verbatim.
pub open spec fn patch_from(s: Seq<u8>, m: spec_fn(int) -> int, seen: int, written: int) -> Seq<
    u8,
>
    decreases s.len() + 2 - seen via patch_from_decreases
{
    if seen >= s.len() || seen < 0 || written < 0 {
        s.subrange(if written <= s.len() { written } else { s.len() as int }, s.len() as int)
    } else if s[seen] == 0x52 {
        if ref_ok(s, seen) {
            s.subrange(written, ref_head(s, seen)) + dec_of(m(ref_id(s, seen))) + seq![0x20u8]
                + dec_of(ref_gen(s, seen)) + seq![0x20u8, 0x52u8] + patch_from(
                s,
                m,
                seen + 1,
                seen + 1,
            )
        } else {
            patch_from(s, m, seen + 1, written)
        }
    } else if s[seen] == 0x25 {
        patch_from(s, m, comment_end(s, seen) + 1, written)
    } else if s[seen] == 0x28 {
        patch_from(s, m, string_skip(s, seen, 0) + 1, written)
    } else if stream_break_at(s, seen) {
        s.subrange(written, s.len() as int)
    } else {
        patch_from(s, m, seen + 1, written)
    }
}

#[via_fn]
proof fn patch_from_decreases(s: Seq<u8>, m: spec_fn(int) -> int, seen: int, written: int) {
    if 0 <= seen < s.len() {
        lemma_comment_end(s, seen);
        lemma_string_skip(s, seen, 0);
    }
}

/// The fully patched interior: every validated reference rewritten through
/// `m`, every other byte copied verbatim.
pub open spec fn patched(s: Seq<u8>, m: spec_fn(int) -> int) -> Seq<u8> {
    patch_from(s, m, 0, 0)
}

proof fn lemma_patch_from_inert(s: Seq<u8>, m: spec_fn(int) -> int, seen: int, written: int)
    requires
        forall|j: int| 0 <= j < s.len() ==> !(s[j] == 0x52 && ref_ok(s, j)),
        forall|j: int| 0 <= j < s.len() ==> !stream_break_at(s, j),
        0 <= written <= s.len(),
        0 <= seen,
    ensures
        patch_from(s, m, seen, written) == s.subrange(written, s.len() as int),
    decreases s.len() + 2 - seen,
{
    if seen < s.len() {
        if s[seen] == 0x52 {
            lemma_patch_from_inert(s, m, seen + 1, written);
        } else if s[seen] == 0x25 {
            lemma_comment_end(s, seen);
            lemma_patch_from_inert(s, m, comment_end(s, seen) + 1, written);
        } else if s[seen] == 0x28 {
            lemma_string_skip(s, seen, 0);
            lemma_patch_from_inert(s, m, string_skip(s, seen, 0) + 1, written);
        } else {
            lemma_patch_from_inert(s, m, seen + 1, written);
        }
    }
}

/// A body in which no position carries a valid reference token and no
/// position starts a stream payload passes through the patcher
/// unchanged, whatever the mapping: the patcher rewrites nothing but
/// validated references.
pub proof fn lemma_patch_inert(s: Seq<u8>, m: spec_fn(int) -> int)
    requires
        forall|j: int| 0 <= j < s.len() ==> !(s[j] == 0x52 && ref_ok(s, j)),
        forall|j: int| 0 <= j < s.len() ==> !stream_break_at(s, j),
    ensures
        patched(s, m) == s,
{
    lemma_patch_from_inert(s, m, 0, 0);
    assert(s.subrange(0, s.len() as int) =~= s);
}

proof fn lemma_patch_from_agree(
    s: Seq<u8>,
    m1: spec_fn(int) -> int,
    m2: spec_fn(int) -> int,
    seen: int,
    written: int,
)
    requires
        forall|j: int|
            0 <= j < s.len() && s[j] == 0x52 && ref_ok(s, j) ==> m1(#[trigger] ref_id(s, j)) == m2(
                ref_id(s, j),
            ),
        0 <= seen,
    ensures
        patch_from(s, m1, seen, written) == patch_from(s, m2, seen, written),
    decreases s.len() + 2 - seen,
{
    if seen < s.len() {
        if s[seen] == 0x52 {
            if ref_ok(s, seen) {
                lemma_patch_from_agree(s, m1, m2, seen + 1, seen + 1);
            } else {
                lemma_patch_from_agree(s, m1, m2, seen + 1, written);
            }
        } else if s[seen] == 0x25 {
            lemma_comment_end(s, seen);
            lemma_patch_from_agree(s, m1, m2, comment_end(s, seen) + 1, written);
        } else if s[seen] == 0x28 {
            lemma_string_skip(s, seen, 0);
            lemma_patch_from_agree(s, m1, m2, string_skip(s, seen, 0) + 1, written);
        } else if !stream_break_at(s, seen) {
            lemma_patch_from_agree(s, m1, m2, seen + 1, written);
        }
    }
}

/// The patched output depends on the mapping only through the ids of the
/// valid references in the body: two mappings that agree on those ids
/// produce identical output. In particular every generation number is
/// re-emitted from the input alone, unchanged whatever the mapping maps
/// its id to.
pub proof fn lemma_patch_mapping_agreement(
    s: Seq<u8>,
    m1: spec_fn(int) -> int,
    m2: spec_fn(int) -> int,
)
    requires
        forall|j: int|
            0 <= j < s.len() && s[j] == 0x52 && ref_ok(s, j) ==> m1(#[trigger] ref_id(s, j)) == m2(
                ref_id(s, j),
            ),
    ensures
        patched(s, m1) == patched(s, m2),
{
    lemma_patch_from_agree(s, m1, m2, 0, 0);
}

/// Processes the interior of an indirect object and patches all indirect
/// references through the mapping, appending the result to `buf`.
pub fn patch_object<M: Mapping>(slice: &[u8], buf: &mut Vec<u8>, mapping: &mut M)
    ensures
        final(buf)@ == old(buf)@ + patched(slice@, map_fn_of(old(mapping))),
        forall|x: int| final(mapping).map_spec(x) == old(mapping).map_spec(x),
{
    let ghost m0 = *mapping;
    let ghost m = map_fn_of(&m0);
    let ghost orig_buf = buf@;
    let mut written: usize = 0;
    let mut seen: usize = 0;
    while seen < slice.len()
        invariant
            written <= seen,
            written <= slice@.len(),
            written == 0 || slice@[written - 1] == 0x52,
            buf@ + patch_from(slice@, m, seen as int, written as int) == orig_buf + patched(
                slice@,
                m,
            ),
            forall|x: int| mapping.map_spec(x) == m0.map_spec(x),
            m == map_fn_of(&m0),
        decreases slice@.len() - seen,
    {
        let ghost buf0 = buf@;
        let ghost w0 = written as int;
        let b = slice[seen];
        if b == 0x52 {
            match validate_ref(slice, seen) {
                Some((head, id, gen)) => {
                    proof {
                        lemma_ref_head(slice@, seen as int);
                        if written > 0 && ref_head(slice@, seen as int) <= written - 1 {
                            assert(is_ws(slice@[written - 1]) || is_digit(slice@[written - 1]));
                            assert(false);
                        }
                    }
                    let new_id = mapping.map_id(id);
                    push_range(buf, slice, written, head);
                    push_decimal(buf, new_id);
                    buf.push(0x20);
                    push_decimal(buf, gen);
                    buf.push(0x20);
                    buf.push(0x52);
                    proof {
                        assert(new_id as int == m(id as int));
                        assert(patch_from(slice@, m, seen as int, w0) == slice@.subrange(
                            w0,
                            ref_head(slice@, seen as int),
                        ) + dec_of(m(ref_id(slice@, seen as int))) + seq![0x20u8] + dec_of(
                            ref_gen(slice@, seen as int),
                        ) + seq![0x20u8, 0x52u8] + patch_from(slice@, m, seen + 1, seen + 1));
                        assert(buf@ =~= buf0 + slice@.subrange(w0, ref_head(slice@, seen as int))
                            + dec_of(m(ref_id(slice@, seen as int))) + seq![0x20u8] + dec_of(
                            ref_gen(slice@, seen as int),
                        ) + seq![0x20u8, 0x52u8]);
                        assert(buf@ + patch_from(slice@, m, seen + 1, seen + 1) =~= buf0
                            + patch_from(slice@, m, seen as int, w0));
                    }
                    written = seen + 1;
                },
                None => {},
            }
            seen = seen + 1;
        } else if b == 0x25 {
            let e = skip_comment(slice, seen);
            proof {
                assert(patch_from(slice@, m, seen as int, w0) == patch_from(
                    slice@,
                    m,
                    comment_end(slice@, seen as int) + 1,
                    w0,
                ));
            }
            if e == slice.len() {
                proof {
                    assert(patch_from(slice@, m, e as int, w0) == slice@.subrange(
                        w0,
                        slice@.len() as int,
                    ));
                    assert(patch_from(slice@, m, e + 1, w0) == slice@.subrange(
                        w0,
                        slice@.len() as int,
                    ));
                }
                seen = e;
            } else {
                seen = e + 1;
            }
        } else if b == 0x28 {
            let e = skip_string(slice, seen);
            proof {
                lemma_string_skip(slice@, seen as int, 0);
                assert(patch_from(slice@, m, seen as int, w0) == patch_from(
                    slice@,
                    m,
                    string_skip(slice@, seen as int, 0) + 1,
                    w0,
                ));
            }
            if e >= slice.len() {
                proof {
                    let ss = string_skip(slice@, seen as int, 0);
                    assert(ss == slice@.len() || ss == slice@.len() + 1);
                    assert(patch_from(slice@, m, ss + 1, w0) == slice@.subrange(
                        w0,
                        slice@.len() as int,
                    ));
                    assert(patch_from(slice@, m, slice@.len() as int, w0) == slice@.subrange(
                        w0,
                        slice@.len() as int,
                    ));
                }
                seen = slice.len();
            } else {
                seen = e + 1;
            }
        } else if b == 0x73 && stream_lit_at(slice, seen) && validate_stream(slice, seen) {
            proof {
                assert(stream_break_at(slice@, seen as int));
                assert(patch_from(slice@, m, seen as int, w0) == slice@.subrange(
                    w0,
                    slice@.len() as int,
                ));
                assert(patch_from(slice@, m, slice@.len() as int, w0) == slice@.subrange(
                    w0,
                    slice@.len() as int,
                ));
            }
            seen = slice.len();
        } else {
            proof {
                if seen as int + 6 <= slice@.len() && slice@.subrange(seen as int, seen as int + 6)
                    == stream_lit() {
                    assert(slice@.subrange(seen as int, seen as int + 6)[0] == slice@[seen as int]);
                }
                assert(!stream_break_at(slice@, seen as int));
            }
            seen = seen + 1;
        }
    }
    push_range(buf, slice, written, slice.len());
    proof {
        assert(patch_from(slice@, m, seen as int, written as int) == slice@.subrange(
            written as int,
            slice@.len() as int,
        ));
        assert(buf@ =~= orig_buf + patched(slice@, m));
        assert(map_fn_of(old(mapping)) == m);
    }
}

/// Copy `src[start..end]` to the end of `buf`.
pub fn push_range(buf: &mut Vec<u8>, src: &[u8], start: usize, end: usize)
    requires
        start <= end <= src@.len(),
    ensures
        final(buf)@ == old(buf)@ + src@.subrange(start as int, end as int),
{
    let mut i: usize = start;
    while i < end
        invariant
            start <= i <= end <= src@.len(),
            buf@ == old(buf)@ + src@.subrange(start as int, i as int),
        decreases end - i,
    {
        buf.push(src[i]);
        proof {
            assert(buf@ =~= old(buf)@ + src@.subrange(start as int, i + 1));
        }
        i = i + 1;
    }
    proof {
        assert(buf@ =~= old(buf)@ + src@.subrange(start as int, end as int));
    }
}

} // verus!

