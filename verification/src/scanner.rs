//! Byte-level scanning primitives: whitespace classification, reverse
//! "consume while a predicate holds" over slice views, and literal
//! byte-substring search.

use vstd::prelude::*;

verus! {

/// The format's whitespace set: null, tab, line feed, form feed,
/// carriage return, and space.
pub open spec fn is_ws(byte: u8) -> bool {
    byte == 0x00 || byte == 0x09 || byte == 0x0a || byte == 0x0c || byte == 0x0d
        || byte == 0x20
}

/// An ASCII decimal digit.
pub open spec fn is_digit(byte: u8) -> bool {
    0x30 <= byte && byte <= 0x39
}

/// Whether a character is whitespace according to the format's syntax
/// conventions.
pub fn is_whitespace(byte: u8) -> (r: bool)
    ensures
        r == is_ws(byte),
{
    byte == 0x00 || byte == 0x09 || byte == 0x0a || byte == 0x0c || byte == 0x0d
        || byte == 0x20
}

/// The per-byte predicates that the reverse scanner is used with.
#[derive(Clone, Copy)]
pub enum BytePred {
    Whitespace,
    Digit,
}

/// What a [`BytePred`] holds of a byte.
pub open spec fn pred_holds(pred: BytePred, byte: u8) -> bool {
    match pred {
        BytePred::Whitespace => is_ws(byte),
        BytePred::Digit => is_digit(byte),
    }
}

fn byte_matches(pred: BytePred, byte: u8) -> (r: bool)
    ensures
        r == pred_holds(pred, byte),
{
    match pred {
        BytePred::Whitespace => is_whitespace(byte),
        BytePred::Digit => 0x30 <= byte && byte <= 0x39,
    }
}

/// Start of the maximal run of bytes satisfying `pred` that ends just
/// before position `end`.
pub open spec fn run_start(s: Seq<u8>, end: int, pred: BytePred) -> int
    decreases end,
{
    if end <= 0 {
        end
    } else if pred_holds(pred, s[end - 1]) {
        run_start(s, end - 1, pred)
    } else {
        end
    }
}

/// Start of the maximal whitespace run ending just before `end`.
pub open spec fn ws_start(s: Seq<u8>, end: int) -> int {
    run_start(s, end, BytePred::Whitespace)
}

/// Start of the maximal digit run ending just before `end`.
pub open spec fn digit_start(s: Seq<u8>, end: int) -> int {
    run_start(s, end, BytePred::Digit)
}

/// The run trimmed by `run_start` lies inside the slice, consists of
/// bytes satisfying the predicate, and is maximal.
pub proof fn lemma_run_start(s: Seq<u8>, end: int, pred: BytePred)
    requires
        0 <= end <= s.len(),
    ensures
        0 <= run_start(s, end, pred) <= end,
        forall|i: int|
            run_start(s, end, pred) <= i < end ==> pred_holds(pred, s[i]),
        run_start(s, end, pred) > 0 ==> !pred_holds(pred, s[run_start(s, end, pred) - 1]),
    decreases end,
{
    if end > 0 && pred_holds(pred, s[end - 1]) {
        lemma_run_start(s, end - 1, pred);
    }
}

/// Trim the maximal suffix of `s[..end]` whose bytes satisfy `pred`;
/// returns the position where the trimmed suffix begins.
pub fn eat_suffix(s: &[u8], end: usize, pred: BytePred) -> (r: usize)
    requires
        end <= s@.len(),
    ensures
        r as int == run_start(s@, end as int, pred),
        r <= end,
{
    let mut i: usize = end;
    while i > 0 && byte_matches(pred, s[i - 1])
        invariant
            i <= end <= s@.len(),
            run_start(s@, end as int, pred) == run_start(s@, i as int, pred),
        decreases i,
    {
        i = i - 1;
    }
    i
}

/// Require at least one byte of whitespace, in reverse: trims the
/// whitespace suffix of `s[..end]` and returns where it begins, or
/// `None` if there was none.
pub fn require_whitespace_rev(s: &[u8], end: usize) -> (r: Option<usize>)
    requires
        end <= s@.len(),
    ensures
        match r {
            Some(w) => w as int == ws_start(s@, end as int) && w < end,
            None => ws_start(s@, end as int) == end as int,
        },
{
    let w = eat_suffix(s, end, BytePred::Whitespace);
    if w < end {
        Some(w)
    } else {
        None
    }
}

/// End of the whitespace run that begins at position `i`.
pub open spec fn ws_run_end(s: Seq<u8>, i: int) -> int
    decreases s.len() - i,
{
    if i < 0 || i >= s.len() {
        s.len() as int
    } else if is_ws(s[i]) {
        ws_run_end(s, i + 1)
    } else {
        i
    }
}

/// Skip forward over whitespace, starting at `start`.
pub fn skip_whitespace_fwd(s: &[u8], start: usize) -> (r: usize)
    requires
        start <= s@.len(),
    ensures
        r as int == ws_run_end(s@, start as int),
        start <= r <= s@.len(),
{
    let mut i: usize = start;
    while i < s.len() && is_whitespace(s[i])
        invariant
            start <= i <= s@.len(),
            ws_run_end(s@, start as int) == ws_run_end(s@, i as int),
        decreases s@.len() - i,
    {
        i = i + 1;
    }
    i
}

/// Whether `nd` occurs in `hay` starting at position `i`.
pub open spec fn match_at(hay: Seq<u8>, nd: Seq<u8>, i: int) -> bool {
    0 <= i && i + nd.len() <= hay.len() && hay.subrange(i, i + nd.len()) == nd
}

/// Index of the first occurrence of `nd` in `hay` at or after `i`,
/// or -1 if there is none.
pub open spec fn find_fwd_from(hay: Seq<u8>, nd: Seq<u8>, i: int) -> int
    decreases hay.len() - i + 1,
{
    if i < 0 || i + nd.len() > hay.len() {
        -1
    } else if hay.subrange(i, i + nd.len()) == nd {
        i
    } else {
        find_fwd_from(hay, nd, i + 1)
    }
}

/// Index of the first occurrence of `nd` in `hay`, or -1.
pub open spec fn find_first(hay: Seq<u8>, nd: Seq<u8>) -> int {
    find_fwd_from(hay, nd, 0)
}

/// Index of the last occurrence of `nd` in `hay` at or before `i`,
/// or -1 if there is none.
pub open spec fn find_bwd_from(hay: Seq<u8>, nd: Seq<u8>, i: int) -> int
    decreases i + 1,
{
    if i < 0 {
        -1
    } else if i + nd.len() <= hay.len() && hay.subrange(i, i + nd.len()) == nd {
        i
    } else {
        find_bwd_from(hay, nd, i - 1)
    }
}

/// Index of the last occurrence of `nd` in `hay`, or -1.
pub open spec fn find_last(hay: Seq<u8>, nd: Seq<u8>) -> int {
    find_bwd_from(hay, nd, hay.len() as int)
}

/// A found forward match is a match, and lies at or after the start
/// position.
pub proof fn lemma_find_fwd_from(hay: Seq<u8>, nd: Seq<u8>, i: int)
    requires
        0 <= i,
    ensures
        find_fwd_from(hay, nd, i) == -1 || (i <= find_fwd_from(hay, nd, i) && match_at(
            hay,
            nd,
            find_fwd_from(hay, nd, i),
        )),
    decreases hay.len() - i + 1,
{
    if !(i + nd.len() > hay.len()) && !(hay.subrange(i, i + nd.len()) == nd) {
        lemma_find_fwd_from(hay, nd, i + 1);
    }
}

/// A found backward match is a match, and lies at or before the start
/// position.
pub proof fn lemma_find_bwd_from(hay: Seq<u8>, nd: Seq<u8>, i: int)
    ensures
        find_bwd_from(hay, nd, i) == -1 || (find_bwd_from(hay, nd, i) <= i && match_at(
            hay,
            nd,
            find_bwd_from(hay, nd, i),
        )),
    decreases i + 1,
{
    if i >= 0 && !(i + nd.len() <= hay.len() && hay.subrange(i, i + nd.len()) == nd) {
        lemma_find_bwd_from(hay, nd, i - 1);
    }
}

/// Where a run's bytes are known exactly, `run_start` finds its start:
/// every byte in `[lo, hi)` satisfies the predicate and the byte before
/// `lo`, if any, does not.
pub proof fn lemma_run_start_exact(s: Seq<u8>, lo: int, hi: int, pred: BytePred)
    requires
        0 <= lo <= hi <= s.len(),
        forall|i: int| lo <= i < hi ==> pred_holds(pred, #[trigger] s[i]),
        lo > 0 ==> !pred_holds(pred, s[lo - 1]),
    ensures
        run_start(s, hi, pred) == lo,
    decreases hi - lo,
{
    if hi > lo {
        lemma_run_start_exact(s, lo, hi - 1, pred);
    }
}

/// Where a whitespace run's bytes are known exactly, `ws_run_end` finds
/// its end.
pub proof fn lemma_ws_run_end_exact(s: Seq<u8>, lo: int, hi: int)
    requires
        0 <= lo <= hi <= s.len(),
        forall|i: int| lo <= i < hi ==> is_ws(#[trigger] s[i]),
        hi < s.len() ==> !is_ws(s[hi]),
    ensures
        ws_run_end(s, lo) == hi,
    decreases hi - lo,
{
    if lo < hi {
        lemma_ws_run_end_exact(s, lo + 1, hi);
    }
}

/// A position that matches, with no match before it, is what the forward
/// search finds.
pub proof fn lemma_find_fwd_exact(hay: Seq<u8>, nd: Seq<u8>, lo: int, p: int)
    requires
        0 <= lo <= p,
        match_at(hay, nd, p),
        forall|j: int| lo <= j < p ==> !match_at(hay, nd, j),
    ensures
        find_fwd_from(hay, nd, lo) == p,
    decreases p - lo,
{
    if lo < p {
        assert(!match_at(hay, nd, lo));
        lemma_find_fwd_exact(hay, nd, lo + 1, p);
    }
}

/// A position that matches, with no match after it up to the search
/// start, is what the backward search finds.
pub proof fn lemma_find_bwd_exact(hay: Seq<u8>, nd: Seq<u8>, i: int, p: int)
    requires
        p <= i,
        match_at(hay, nd, p),
        forall|j: int| p < j <= i ==> !match_at(hay, nd, j),
    ensures
        find_bwd_from(hay, nd, i) == p,
    decreases i - p,
{
    if p < i {
        assert(!match_at(hay, nd, i));
        lemma_find_bwd_exact(hay, nd, i - 1, p);
    }
}

/// The literal token that opens an indirect object.
pub open spec fn obj_lit() -> Seq<u8> {
    seq![0x6fu8, 0x62u8, 0x6au8]
}

/// The literal token that closes an indirect object.
pub open spec fn endobj_lit() -> Seq<u8> {
    seq![0x65u8, 0x6eu8, 0x64u8, 0x6fu8, 0x62u8, 0x6au8]
}

/// Relies on memchr::memmem::find: returns the byte index of the first
/// occurrence of the literal "obj" in `hay`, or `None` if there is none.
#[verifier::external_body]
pub(crate) fn find_obj_forward(hay: &[u8]) -> (r: Option<usize>)
    ensures
        match r {
            Some(i) => i as int == find_first(hay@, obj_lit()),
            None => find_first(hay@, obj_lit()) == -1,
        },
{
    memchr::memmem::find(hay, b"obj")
}

/// Relies on memchr::memmem::rfind: returns the byte index of the last
/// occurrence of the literal "endobj" in `hay`, or `None` if there is none.
#[verifier::external_body]
pub(crate) fn find_endobj_backward(hay: &[u8]) -> (r: Option<usize>)
    ensures
        match r {
            Some(i) => i as int == find_last(hay@, endobj_lit()),
            None => find_last(hay@, endobj_lit()) == -1,
        },
{
    memchr::memmem::rfind(hay, b"endobj")
}

} // verus!
