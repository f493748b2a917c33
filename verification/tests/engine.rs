use renumber::chunk::{extract_object, renumber, Chunk};
use renumber::mapping::{IdentityMapping, Mapping, TableMapping};
use renumber::patch::{
    eat_number_rev, parse_digits, patch_object, push_decimal, validate_ref, validate_stream,
};
use renumber::scanner::{eat_suffix, require_whitespace_rev, BytePred};
use renumber::geom::sign_bit_to_2s_compliment;
use renumber::is_whitespace;
use renumber::vtf::le_u16;

fn chunk_of(buf: &[u8], offsets: &[(i32, usize)]) -> Chunk {
    Chunk { buf: buf.to_vec(), offsets: offsets.to_vec() }
}

fn table(pairs: &[(i32, i32)]) -> TableMapping {
    TableMapping { pairs: pairs.to_vec() }
}

#[test]
fn identity_reproduces_single_object() {
    let src = chunk_of(b"7 0 obj\n<< /Type /Page >>\nendobj\n\n", &[(7, 0)]);
    let mut dest = Chunk::new();
    let mut m = IdentityMapping;
    renumber(&src, &mut dest, &mut m);
    assert_eq!(dest.buf, b"7 0 obj\n<< /Type /Page >>\nendobj\n\n".to_vec());
    assert_eq!(dest.offsets, vec![(7, 0)]);
}

#[test]
fn reference_id_mapped_generation_kept() {
    let src = chunk_of(b"1 0 obj\n[5 0 R]\nendobj\n\n", &[(1, 0)]);
    let mut dest = Chunk::new();
    let mut m = table(&[(5, 9)]);
    renumber(&src, &mut dest, &mut m);
    assert_eq!(dest.buf, b"1 0 obj\n[9 0 R]\nendobj\n\n".to_vec());
    assert_eq!(dest.offsets, vec![(1, 0)]);
}

#[test]
fn reference_with_nonzero_generation_keeps_it() {
    let src = chunk_of(b"1 0 obj\n[5 3 R]\nendobj\n\n", &[(1, 0)]);
    let mut dest = Chunk::new();
    let mut m = table(&[(5, 9), (3, 8)]);
    renumber(&src, &mut dest, &mut m);
    assert_eq!(dest.buf, b"1 0 obj\n[9 3 R]\nendobj\n\n".to_vec());
}

#[test]
fn reference_inside_string_unchanged() {
    let body: &[u8] = b"(5 0 R)";
    let mut out: Vec<u8> = Vec::new();
    let mut m = table(&[(5, 9)]);
    patch_object(body, &mut out, &mut m);
    assert_eq!(out, body.to_vec());
}

#[test]
fn reference_inside_comment_unchanged() {
    let body: &[u8] = b"% 5 0 R\n";
    let mut out: Vec<u8> = Vec::new();
    let mut m = table(&[(5, 9)]);
    patch_object(body, &mut out, &mut m);
    assert_eq!(out, body.to_vec());
}

#[test]
fn stream_payload_copied_verbatim() {
    let body: &[u8] = b"<< /Length 6 >>\nstream\nQ 5 0 R xx\nendstream";
    let mut out: Vec<u8> = Vec::new();
    let mut m = table(&[(5, 9)]);
    patch_object(body, &mut out, &mut m);
    assert_eq!(out, body.to_vec());
}

#[test]
fn reference_before_stream_still_patched() {
    let body: &[u8] = b"/P 5 0 R << >>\nstream\n5 0 R\nendstream";
    let mut out: Vec<u8> = Vec::new();
    let mut m = table(&[(5, 9)]);
    patch_object(body, &mut out, &mut m);
    assert_eq!(out, b"/P 9 0 R << >>\nstream\n5 0 R\nendstream".to_vec());
}

#[test]
fn zero_id_reference_left_untouched() {
    let body: &[u8] = b"[0 0 R]";
    let mut out: Vec<u8> = Vec::new();
    let mut m = table(&[(0, 9)]);
    patch_object(body, &mut out, &mut m);
    assert_eq!(out, body.to_vec());
}

#[test]
fn overlong_id_reference_left_untouched() {
    let body: &[u8] = b"[99999999999 0 R]";
    let mut out: Vec<u8> = Vec::new();
    let mut m = table(&[(5, 9)]);
    patch_object(body, &mut out, &mut m);
    assert_eq!(out, body.to_vec());
}

#[test]
fn escaped_parens_in_string_honoured() {
    let body: &[u8] = b"(a\\) 5 0 R) 5 0 R";
    let mut out: Vec<u8> = Vec::new();
    let mut m = table(&[(5, 9)]);
    patch_object(body, &mut out, &mut m);
    assert_eq!(out, b"(a\\) 5 0 R) 9 0 R".to_vec());
}

#[test]
fn noncanonical_reference_is_canonicalised() {
    let body: &[u8] = b"[005  0  R]";
    let mut out: Vec<u8> = Vec::new();
    let mut m = IdentityMapping;
    patch_object(body, &mut out, &mut m);
    assert_eq!(out, b"[5 0 R]".to_vec());
}

#[test]
fn malformed_second_object_dropped() {
    let src = chunk_of(b"1 0 obj\nA\nendobj\n2 0 obj\nB\n", &[(1, 0), (2, 17)]);
    let mut dest = Chunk::new();
    let mut m = IdentityMapping;
    renumber(&src, &mut dest, &mut m);
    assert_eq!(dest.buf, b"1 0 obj\nA\nendobj\n\n".to_vec());
    assert_eq!(dest.offsets, vec![(1, 0)]);
}

#[test]
fn missing_whitespace_before_obj_drops_object() {
    let src = chunk_of(b"70obj\nA\nendobj\n", &[(7, 0)]);
    let mut dest = Chunk::new();
    let mut m = IdentityMapping;
    renumber(&src, &mut dest, &mut m);
    assert_eq!(dest.buf, Vec::<u8>::new());
    assert_eq!(dest.offsets, Vec::<(i32, usize)>::new());
}

#[test]
fn two_chunks_accumulate_under_shared_mapping() {
    let c1 = chunk_of(
        b"7 0 obj\n[9 0 R]\nendobj\n9 0 obj\nB\nendobj\n",
        &[(7, 0), (9, 23)],
    );
    let c2 = chunk_of(b"12 0 obj\nC\nendobj\n", &[(12, 0)]);
    let mut dest = Chunk::new();
    let mut m = table(&[(7, 1), (9, 2), (12, 3)]);
    renumber(&c1, &mut dest, &mut m);
    renumber(&c2, &mut dest, &mut m);
    let expect =
        b"1 0 obj\n[2 0 R]\nendobj\n\n2 0 obj\nB\nendobj\n\n3 0 obj\nC\nendobj\n\n".to_vec();
    assert_eq!(dest.buf, expect);
    assert_eq!(dest.offsets, vec![(1, 0), (2, 24), (3, 42)]);
}

#[test]
fn empty_chunk_appends_nothing() {
    let src = Chunk::new();
    let mut dest = chunk_of(b"1 0 obj\nA\nendobj\n\n", &[(1, 0)]);
    let mut m = IdentityMapping;
    renumber(&src, &mut dest, &mut m);
    assert_eq!(dest.buf, b"1 0 obj\nA\nendobj\n\n".to_vec());
    assert_eq!(dest.offsets, vec![(1, 0)]);
}

#[test]
fn largest_id_survives_identity() {
    let src = chunk_of(b"2147483647 0 obj\nA\nendobj\n\n", &[(2147483647, 0)]);
    let mut dest = Chunk::new();
    let mut m = IdentityMapping;
    renumber(&src, &mut dest, &mut m);
    assert_eq!(dest.buf, b"2147483647 0 obj\nA\nendobj\n\n".to_vec());
    assert_eq!(dest.offsets, vec![(2147483647, 0)]);
}

#[test]
fn extract_object_finds_generation_and_interior() {
    let region: &[u8] = b"4 17 obj\n /X \nendobj";
    let r = extract_object(region);
    assert_eq!(r, Some((17, 10, 12)));
}

#[test]
fn extract_object_rejects_missing_markers() {
    assert_eq!(extract_object(b"4 0 obnothing"), None);
    assert_eq!(extract_object(b"4 0 obj\nA\n"), None);
    assert_eq!(extract_object(b"obj\nA\nendobj"), None);
}

#[test]
fn validate_ref_accepts_well_formed_tail() {
    let s: &[u8] = b"x 5 0 R";
    assert_eq!(validate_ref(s, 6), Some((2, 5, 0)));
}

#[test]
fn validate_ref_rejects_missing_parts() {
    assert_eq!(validate_ref(b"50 R", 3), None);
    assert_eq!(validate_ref(b" 0 0 R", 5), None);
    assert_eq!(validate_ref(b"abc R", 4), None);
}

#[test]
fn validate_stream_wants_dict_close() {
    assert!(validate_stream(b">>\nstream", 3));
    assert!(!validate_stream(b"x\nstream", 2));
}

#[test]
fn parse_digits_exact_and_overflow() {
    assert_eq!(parse_digits(b"00123", 0, 5), Some(123));
    assert_eq!(parse_digits(b"2147483647", 0, 10), Some(2147483647));
    assert_eq!(parse_digits(b"2147483648", 0, 10), None);
}

#[test]
fn eat_number_rev_trims_and_parses() {
    assert_eq!(eat_number_rev(b"ab12", 4), Some((2, 12)));
    assert_eq!(eat_number_rev(b"ab", 2), None);
    assert_eq!(eat_number_rev(b"9999999999", 10), None);
}

#[test]
fn push_decimal_writes_canonical_text() {
    let mut v: Vec<u8> = Vec::new();
    push_decimal(&mut v, 0);
    push_decimal(&mut v, 2147483647);
    assert_eq!(v, b"02147483647".to_vec());
}

#[test]
fn eat_suffix_trims_maximal_run() {
    let s: &[u8] = b"ab12 \t";
    assert_eq!(eat_suffix(s, 6, BytePred::Whitespace), 4);
    assert_eq!(eat_suffix(s, 4, BytePred::Digit), 2);
    assert_eq!(eat_suffix(s, 2, BytePred::Digit), 2);
}

#[test]
fn require_whitespace_rev_needs_one_byte() {
    assert_eq!(require_whitespace_rev(b"a \n", 3), Some(1));
    assert_eq!(require_whitespace_rev(b"ab", 2), None);
}

#[test]
fn whitespace_set_is_the_formats() {
    for b in 0..=255u8 {
        let expect = matches!(b, 0x00 | 0x09 | 0x0a | 0x0c | 0x0d | 0x20);
        assert_eq!(is_whitespace(b), expect);
    }
}

#[test]
fn table_mapping_looks_up_pairs() {
    let mut m = table(&[(5, 9), (7, 2)]);
    assert_eq!(m.map_id(5), 9);
    assert_eq!(m.map_id(7), 2);
    assert_eq!(m.map_id(8), 8);
}

#[test]
fn vtf_signature_match() {
    assert!(renumber::vtf::matches(b"VTF\0rest"));
    assert!(!renumber::vtf::matches(b"VTF1"));
    assert!(!renumber::vtf::matches(b"VT"));
}

#[test]
fn le_u16_assembles_low_then_high() {
    assert_eq!(le_u16(0x34, 0x12), 0x1234);
    assert_eq!(le_u16(0xff, 0xff), 0xffff);
}

#[test]
fn sign_bit_conversion() {
    assert_eq!(sign_bit_to_2s_compliment(5), 5);
    assert_eq!(sign_bit_to_2s_compliment(0), 0);
    assert_eq!(sign_bit_to_2s_compliment(i32::MIN), 0);
    assert_eq!(sign_bit_to_2s_compliment(i32::MIN + 1), -1);
}
