//! Chunks of serialized indirect objects, the object extractor, and the
//! chunk renumberer that drives extraction and patching across a whole
//! source index, appending the surviving objects to a destination chunk.

use vstd::prelude::*;
use vstd::slice::slice_subrange;

use crate::mapping::{map_fn_of, Mapping};
use crate::patch::{
    dec_of, digits_val, eat_number_rev, lemma_dec_of_digits, lemma_dec_of_val, lemma_patch_inert,
    patch_object, patched, push_decimal, ref_ok, stream_break_at,
};
use crate::scanner::{
    digit_start, eat_suffix, endobj_lit, find_endobj_backward, find_first, find_last,
    find_obj_forward, is_digit, is_ws, lemma_find_bwd_exact,
    lemma_find_bwd_from, lemma_find_fwd_exact, lemma_find_fwd_from, lemma_run_start,
    lemma_run_start_exact, lemma_ws_run_end_exact, match_at, obj_lit, pred_holds,
    skip_whitespace_fwd, ws_run_end, ws_start, BytePred,
};

verus! {

/// A byte buffer holding zero or more serialized objects back to back,
/// plus an ordered index of (id, start offset) pairs. The index is the
/// only boundary information: each object's region ends where the next
/// entry begins, or at the end of the buffer for the last entry.
pub struct Chunk {
    pub buf: Vec<u8>,
    pub offsets: Vec<(i32, usize)>,
}

impl Chunk {
    /// Index entries carry positive ids and lie inside the buffer, in
    /// strictly increasing offset order matching physical layout.
    pub open spec fn wf(&self) -> bool {
        (forall|i: int|
            0 <= i < self.offsets@.len() ==> (#[trigger] self.offsets@[i]).1 <= self.buf@.len()
                && self.offsets@[i].0 > 0) && (forall|i: int|
            0 <= i && i + 1 < self.offsets@.len() ==> (#[trigger] self.offsets@[i]).1
                < self.offsets@[i + 1].1)
    }

    /// An empty chunk.
    pub fn new() -> (c: Chunk)
        ensures
            c.buf@ == Seq::<u8>::empty(),
            c.offsets@ == Seq::<(i32, usize)>::empty(),
            c.wf(),
    {
        Chunk { buf: Vec::new(), offsets: Vec::new() }
    }
}

/// What extraction yields on the region of one object: `None` when the
/// object is malformed (no `obj` token, no whitespace then digits of a
/// fitting generation before it, no `endobj` token, or an interior that
/// would begin after it ends), otherwise the generation number and the
/// interior's bounds, with leading whitespace after `obj` and trailing
/// whitespace before `endobj` trimmed.
pub open spec fn extract_spec(s: Seq<u8>) -> Option<(int, int, int)> {
    let o = find_first(s, obj_lit());
    if o < 0 {
        None
    } else {
        let a = ws_start(s, o);
        if a == o {
            None
        } else {
            let b = digit_start(s, a);
            if b == a || digits_val(s.subrange(b, a)) > i32::MAX {
                None
            } else {
                let e = find_last(s, endobj_lit());
                if e < 0 {
                    None
                } else {
                    let head = ws_run_end(s, o + 3);
                    let tail = ws_start(s, e);
                    if head > tail {
                        None
                    } else {
                        Some((digits_val(s.subrange(b, a)), head, tail))
                    }
                }
            }
        }
    }
}

/// Extract the generation number and interior bounds of an indirect
/// object from the byte region that spans it.
pub fn extract_object(slice: &[u8]) -> (r: Option<(i32, usize, usize)>)
    ensures
        match r {
            Some((gen, head, tail)) => extract_spec(slice@) == Some(
                (gen as int, head as int, tail as int),
            ) && head <= tail <= slice@.len() && gen >= 0,
            None => extract_spec(slice@) is None,
        },
{
    let o = match find_obj_forward(slice) {
        Some(o) => o,
        None => {
            return None;
        },
    };
    proof {
        lemma_find_fwd_from(slice@, obj_lit(), 0);
        assert(obj_lit().len() == 3);
        lemma_run_start(slice@, o as int, BytePred::Whitespace);
    }
    let a = eat_suffix(slice, o, BytePred::Whitespace);
    if a == o {
        return None;
    }
    let (b, gen) = match eat_number_rev(slice, a) {
        Some(r) => r,
        None => {
            return None;
        },
    };
    let e = match find_endobj_backward(slice) {
        Some(e) => e,
        None => {
            return None;
        },
    };
    proof {
        lemma_find_bwd_from(slice@, endobj_lit(), slice@.len() as int);
        assert(endobj_lit().len() == 6);
    }
    let n: usize = slice.len();
    proof {
        assert(match_at(slice@, obj_lit(), o as int));
        assert(o + 3 <= n);
    }
    let head = skip_whitespace_fwd(slice, o + 3);
    proof {
        lemma_run_start(slice@, e as int, BytePred::Whitespace);
    }
    let tail = eat_suffix(slice, e, BytePred::Whitespace);
    if head > tail {
        None
    } else {
        Some((gen, head, tail))
    }
}

/// The serialization of one renumbered object:
/// `<id> <gen> obj\n<interior>\nendobj\n\n`.
pub open spec fn emit_obj(new_id: int, gen: int, interior: Seq<u8>) -> Seq<u8> {
    dec_of(new_id) + seq![0x20u8] + dec_of(gen) + seq![0x20u8, 0x6fu8, 0x62u8, 0x6au8, 0x0au8]
        + interior + seq![0x0au8, 0x65u8, 0x6eu8, 0x64u8, 0x6fu8, 0x62u8, 0x6au8, 0x0au8, 0x0au8]
}

/// The byte region of the `k`-th object in a source chunk: from its
/// recorded offset to the next entry's offset, or to the buffer's end.
pub open spec fn region_of(buf: Seq<u8>, offs: Seq<(i32, usize)>, k: int) -> Seq<u8> {
    let start = offs[k].1 as int;
    let end = if k + 1 < offs.len() {
        offs[k + 1].1 as int
    } else {
        buf.len() as int
    };
    buf.subrange(start, end)
}

/// The bytes that renumbering appends for the source entries from `k`
/// on: for each object in stored order, nothing if extraction fails,
/// else its serialization with the id mapped and the interior patched.
pub open spec fn renumber_out(
    buf: Seq<u8>,
    offs: Seq<(i32, usize)>,
    k: int,
    m: spec_fn(int) -> int,
) -> Seq<u8>
    decreases offs.len() - k,
{
    if k < 0 || k >= offs.len() {
        Seq::empty()
    } else {
        let rest = renumber_out(buf, offs, k + 1, m);
        match extract_spec(region_of(buf, offs, k)) {
            None => rest,
            Some((gen, head, tail)) => emit_obj(
                m(offs[k].0 as int),
                gen,
                patched(region_of(buf, offs, k).subrange(head, tail), m),
            ) + rest,
        }
    }
}

/// The index entries that renumbering appends for the source entries
/// from `k` on, with `base` the destination length where the next
/// surviving object will begin: one (mapped id, offset) pair per
/// surviving object, its offset taken before its bytes are written.
pub open spec fn renumber_idx(
    buf: Seq<u8>,
    offs: Seq<(i32, usize)>,
    k: int,
    m: spec_fn(int) -> int,
    base: int,
) -> Seq<(int, int)>
    decreases offs.len() - k,
{
    if k < 0 || k >= offs.len() {
        Seq::empty()
    } else {
        match extract_spec(region_of(buf, offs, k)) {
            None => renumber_idx(buf, offs, k + 1, m, base),
            Some((gen, head, tail)) => {
                let bytes = emit_obj(
                    m(offs[k].0 as int),
                    gen,
                    patched(region_of(buf, offs, k).subrange(head, tail), m),
                );
                seq![(m(offs[k].0 as int), base)] + renumber_idx(
                    buf,
                    offs,
                    k + 1,
                    m,
                    base + bytes.len(),
                )
            },
        }
    }
}

/// The ids of the source entries from `k` on whose objects extraction
/// accepts, in stored order.
pub open spec fn surviving_ids(buf: Seq<u8>, offs: Seq<(i32, usize)>, k: int) -> Seq<int>
    decreases offs.len() - k,
{
    if k < 0 || k >= offs.len() {
        Seq::empty()
    } else {
        match extract_spec(region_of(buf, offs, k)) {
            None => surviving_ids(buf, offs, k + 1),
            Some((gen, head, tail)) => seq![offs[k].0 as int] + surviving_ids(buf, offs, k + 1),
        }
    }
}

/// Renumbering appends exactly one index entry per surviving object, in
/// source order: the entry's id is the mapped source id, and the
/// entries' offsets are strictly increasing, starting at or after the
/// destination length where renumbering began. A malformed object
/// contributes no entry, so two source chunks renumbered sequentially
/// into one destination under a shared mapping index all surviving
/// objects of the first, then all of the second.
pub proof fn lemma_renumber_index(
    buf: Seq<u8>,
    offs: Seq<(i32, usize)>,
    k: int,
    m: spec_fn(int) -> int,
    base: int,
)
    ensures
        ({
            let idx = renumber_idx(buf, offs, k, m, base);
            let ids = surviving_ids(buf, offs, k);
            idx.len() == ids.len() && (forall|j: int|
                0 <= j < idx.len() ==> (#[trigger] idx[j]).0 == m(ids[j]) && idx[j].1 >= base) && (
            forall|j1: int, j2: int|
                0 <= j1 < j2 < idx.len() ==> (#[trigger] idx[j1]).1 < (#[trigger] idx[j2]).1)
        }),
    decreases offs.len() - k,
{
    if 0 <= k < offs.len() {
        match extract_spec(region_of(buf, offs, k)) {
            None => {
                lemma_renumber_index(buf, offs, k + 1, m, base);
            },
            Some((gen, head, tail)) => {
                let bytes = emit_obj(
                    m(offs[k].0 as int),
                    gen,
                    patched(region_of(buf, offs, k).subrange(head, tail), m),
                );
                assert(bytes.len() >= 15);
                lemma_renumber_index(buf, offs, k + 1, m, base + bytes.len());
                let idx = renumber_idx(buf, offs, k, m, base);
                let tail_idx = renumber_idx(buf, offs, k + 1, m, base + bytes.len());
                let ids = surviving_ids(buf, offs, k);
                let tail_ids = surviving_ids(buf, offs, k + 1);
                assert forall|j: int| 0 <= j < idx.len() implies (#[trigger] idx[j]).0 == m(
                    ids[j],
                ) && idx[j].1 >= base by {
                    if j > 0 {
                        assert(idx[j] == tail_idx[j - 1]);
                        assert(ids[j] == tail_ids[j - 1]);
                    }
                }
                assert forall|j1: int, j2: int| 0 <= j1 < j2 < idx.len() implies (
                #[trigger] idx[j1]).1 < (#[trigger] idx[j2]).1 by {
                    assert(idx[j2] == tail_idx[j2 - 1]);
                    if j1 > 0 {
                        assert(idx[j1] == tail_idx[j1 - 1]);
                    }
                }
            },
        }
    }
}

/// Identity round trip: a chunk holding one canonically serialized
/// object — `<id> <gen> obj\n<body>\nendobj\n\n`, the body not opening or
/// closing with whitespace, carrying no valid reference token, and
/// starting no stream payload — is reproduced byte for byte by
/// renumbering under any mapping that fixes its id, and contributes
/// exactly one index entry, bearing that id.
#[verifier::rlimit(100)]
pub proof fn lemma_identity_roundtrip(
    id: int,
    gen: int,
    body: Seq<u8>,
    m: spec_fn(int) -> int,
    base: int,
)
    requires
        0 < id <= i32::MAX,
        0 <= gen <= i32::MAX,
        body.len() > 0,
        !is_ws(body[0]),
        !is_ws(body[body.len() - 1]),
        m(id) == id,
        forall|j: int| 0 <= j < body.len() ==> !(body[j] == 0x52 && ref_ok(body, j)),
        forall|j: int| 0 <= j < body.len() ==> !stream_break_at(body, j),
    ensures
        renumber_out(emit_obj(id, gen, body), seq![(id as i32, 0usize)], 0, m) == emit_obj(
            id,
            gen,
            body,
        ),
        renumber_idx(emit_obj(id, gen, body), seq![(id as i32, 0usize)], 0, m, base) == seq![
            (id, base),
        ],
{
    let s = emit_obj(id, gen, body);
    let offs: Seq<(i32, usize)> = seq![(id as i32, 0usize)];
    let d1 = dec_of(id).len() as int;
    let d2 = dec_of(gen).len() as int;
    let p = d1 + 1 + d2 + 1;
    let hstart = p + 4;
    let q = hstart + body.len();
    lemma_dec_of_digits(id);
    lemma_dec_of_digits(gen);
    lemma_dec_of_val(id);
    lemma_dec_of_val(gen);
    assert(s.len() == q + 9);
    assert(s.subrange(0, d1) =~= dec_of(id));
    assert(s[d1] == 0x20);
    assert(s.subrange(d1 + 1, d1 + 1 + d2) =~= dec_of(gen));
    assert(s[p - 1] == 0x20);
    assert(s.subrange(p, p + 3) =~= obj_lit());
    assert(s[p + 3] == 0x0a);
    assert(s.subrange(hstart, q) =~= body);
    assert(s[q] == 0x0a);
    assert(s.subrange(q + 1, q + 7) =~= endobj_lit());
    assert(s[q + 7] == 0x0a);
    assert(s[q + 8] == 0x0a);
    // Every byte before the header's "obj" token is a digit or a space,
    // so the token is the first occurrence.
    assert forall|j: int| 0 <= j < p implies !match_at(s, obj_lit(), j) by {
        if match_at(s, obj_lit(), j) {
            assert(s.subrange(j, j + 3)[0] == s[j]);
            assert(s[j] == 0x6f);
            if j < d1 {
                assert(is_digit(dec_of(id)[j]));
            } else if j == d1 || j == p - 1 {
            } else {
                assert(is_digit(dec_of(gen)[j - (d1 + 1)]));
            }
        }
    }
    lemma_find_fwd_exact(s, obj_lit(), 0, p);
    assert(find_first(s, obj_lit()) == p);
    // Nothing past the trailing "endobj" token can begin another one.
    assert forall|j: int| q + 1 < j <= s.len() implies !match_at(s, endobj_lit(), j) by {
        if match_at(s, endobj_lit(), j) {
            assert(s.subrange(j, j + 6)[0] == s[j]);
            assert(s[j] == 0x65);
        }
    }
    lemma_find_bwd_exact(s, endobj_lit(), s.len() as int, q + 1);
    assert(find_last(s, endobj_lit()) == q + 1);
    // The single space before "obj" and the generation digits before it.
    assert(is_digit(dec_of(gen)[d2 - 1]) && s[p - 2] == dec_of(gen)[d2 - 1]);
    assert forall|i: int| p - 1 <= i < p implies pred_holds(BytePred::Whitespace, s[i]) by {}
    lemma_run_start_exact(s, p - 1, p, BytePred::Whitespace);
    assert(ws_start(s, p) == p - 1);
    assert forall|i: int| d1 + 1 <= i < p - 1 implies pred_holds(BytePred::Digit, s[i]) by {
        assert(s[i] == dec_of(gen)[i - (d1 + 1)]);
    }
    assert(!pred_holds(BytePred::Digit, s[d1]));
    lemma_run_start_exact(s, d1 + 1, p - 1, BytePred::Digit);
    assert(digit_start(s, p - 1) == d1 + 1);
    assert(digits_val(s.subrange(d1 + 1, p - 1)) == gen);
    // Interior bounds: one line feed after "obj", one before "endobj".
    assert forall|i: int| p + 3 <= i < hstart implies is_ws(s[i]) by {}
    assert(s[hstart] == body[0]);
    lemma_ws_run_end_exact(s, p + 3, hstart);
    assert(ws_run_end(s, p + 3) == hstart);
    assert(s[q - 1] == body[body.len() - 1]);
    lemma_run_start_exact(s, q, q + 1, BytePred::Whitespace);
    assert(ws_start(s, q + 1) == q);
    assert(extract_spec(s) == Some((gen, hstart, q)));
    // The one region is the whole buffer; its patched interior is itself.
    assert(region_of(s, offs, 0) =~= s);
    assert(s.subrange(hstart, q) =~= body);
    lemma_patch_inert(body, m);
    assert((id as i32) as int == id);
    assert(renumber_out(s, offs, 0, m) =~= emit_obj(id, gen, body) + renumber_out(s, offs, 1, m));
    assert(renumber_out(s, offs, 1, m) =~= Seq::<u8>::empty());
    assert(renumber_out(s, offs, 0, m) =~= s);
    let tail_idx = renumber_idx(s, offs, 1, m, base + emit_obj(id, gen, body).len());
    assert(tail_idx =~= Seq::<(int, int)>::empty());
    assert(renumber_idx(s, offs, 0, m, base) =~= seq![(m(id), base)] + tail_idx);
    assert(seq![(m(id), base)] + tail_idx =~= seq![(id, base)]);
}

/// An index entry as a pair of mathematical integers.
pub open spec fn entry_view(p: (i32, usize)) -> (int, int) {
    (p.0 as int, p.1 as int)
}

/// Renumbers a chunk of objects into a destination chunk.
///
/// Walks the source index in stored order; malformed objects are dropped
/// silently. For each surviving object, one index entry is appended to
/// the destination (its offset taken before the object's bytes), and the
/// object is re-serialized with its id mapped, its generation kept, and
/// every valid reference in its interior patched through the same
/// mapping.
#[verifier::rlimit(100)]
pub fn renumber<M: Mapping>(source: &Chunk, target: &mut Chunk, mapping: &mut M)
    requires
        source.wf(),
    ensures
        final(target).buf@ == old(target).buf@ + renumber_out(
            source.buf@,
            source.offsets@,
            0,
            map_fn_of(old(mapping)),
        ),
        final(target).offsets@.map_values(|p: (i32, usize)| entry_view(p)) == old(
            target,
        ).offsets@.map_values(|p: (i32, usize)| entry_view(p)) + renumber_idx(
            source.buf@,
            source.offsets@,
            0,
            map_fn_of(old(mapping)),
            old(target).buf@.len() as int,
        ),
        forall|x: int| final(mapping).map_spec(x) == old(mapping).map_spec(x),
{
    let ghost m0 = *mapping;
    let ghost m = map_fn_of(&m0);
    let ghost sb = source.buf@;
    let ghost so = source.offsets@;
    let ghost obuf = target.buf@;
    let ghost oidx = target.offsets@.map_values(|p: (i32, usize)| entry_view(p));
    let mut k: usize = 0;
    while k < source.offsets.len()
        invariant
            k <= so.len(),
            source.wf(),
            sb == source.buf@,
            so == source.offsets@,
            obuf + renumber_out(sb, so, 0, m) == target.buf@ + renumber_out(sb, so, k as int, m),
            oidx + renumber_idx(sb, so, 0, m, obuf.len() as int) == target.offsets@.map_values(
                |p: (i32, usize)| entry_view(p),
            ) + renumber_idx(sb, so, k as int, m, target.buf@.len() as int),
            forall|x: int| mapping.map_spec(x) == m0.map_spec(x),
            m == map_fn_of(&m0),
        decreases so.len() - k,
    {
        let (id, offset) = source.offsets[k];
        let end = if k + 1 < source.offsets.len() {
            source.offsets[k + 1].1
        } else {
            source.buf.len()
        };
        let region = slice_subrange(source.buf.as_slice(), offset, end);
        proof {
            assert(region@ =~= region_of(sb, so, k as int));
        }
        match extract_object(region) {
            None => {},
            Some((gen, head, tail)) => {
                let new_id = mapping.map_id(id);
                proof {
                    assert(m(id as int) == m0.map_spec(id as int));
                    assert(new_id as int == m(id as int));
                }
                let ghost tb0 = target.buf@;
                let ghost ti0 = target.offsets@;
                target.offsets.push((new_id, target.buf.len()));
                push_decimal(&mut target.buf, new_id);
                target.buf.push(0x20);
                push_decimal(&mut target.buf, gen);
                target.buf.push(0x20);
                target.buf.push(0x6f);
                target.buf.push(0x62);
                target.buf.push(0x6a);
                target.buf.push(0x0a);
                let interior = slice_subrange(region, head, tail);
                let ghost mp = *mapping;
                proof {
                    assert(map_fn_of(&mp) =~= m);
                }
                patch_object(interior, &mut target.buf, mapping);
                target.buf.push(0x0a);
                target.buf.push(0x65);
                target.buf.push(0x6e);
                target.buf.push(0x64);
                target.buf.push(0x6f);
                target.buf.push(0x62);
                target.buf.push(0x6a);
                target.buf.push(0x0a);
                target.buf.push(0x0a);
                proof {
                    let ghost emitted = emit_obj(
                        m(id as int),
                        gen as int,
                        patched(region_of(sb, so, k as int).subrange(head as int, tail as int), m),
                    );
                    assert(interior@ =~= region_of(sb, so, k as int).subrange(
                        head as int,
                        tail as int,
                    ));
                    assert(target.buf@ =~= tb0 + emitted);
                    assert(renumber_out(sb, so, k as int, m) =~= emitted + renumber_out(
                        sb,
                        so,
                        k + 1,
                        m,
                    ));
                    assert(obuf + renumber_out(sb, so, 0, m) =~= target.buf@ + renumber_out(
                        sb,
                        so,
                        k + 1,
                        m,
                    ));
                    assert(target.offsets@.map_values(|p: (i32, usize)| entry_view(p))
                        =~= ti0.map_values(|p: (i32, usize)| entry_view(p)) + seq![
                        (new_id as int, tb0.len() as int),
                    ]);
                    assert(renumber_idx(sb, so, k as int, m, tb0.len() as int) =~= seq![
                        (m(id as int), tb0.len() as int),
                    ] + renumber_idx(sb, so, k + 1, m, tb0.len() + emitted.len() as int));
                    assert(oidx + renumber_idx(sb, so, 0, m, obuf.len() as int)
                        =~= target.offsets@.map_values(|p: (i32, usize)| entry_view(p))
                        + renumber_idx(sb, so, k + 1, m, target.buf@.len() as int));
                }
            },
        }
        k = k + 1;
    }
    proof {
        assert(map_fn_of(old(mapping)) =~= m);
    }
}

} // verus!
