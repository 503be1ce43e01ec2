//! What holds of the containers as a whole: reading back what was written,
//! what any accepted file carries, the cross-reference table of a PDF
//! document, that an SVG document holds no script, and what a file with one
//! byte changed reads back as.

use vstd::prelude::*;

use crate::{detected, embedded, extracted, pdf_magic, svg_tag, Format, Rejection, MAX_PAYLOAD};
use crate::pdf;
use crate::svg;
use crate::svg::{xml_escape_text, xml_escape_char, is_base64_char, base64_encode};
use vstd::utf8::{encode_utf8, is_ascii_chars_encode_utf8, valid_utf8};

use crate::decimal::{decimal, lemma_decimal_digits, all_digits, is_digit};
use crate::digest::{hex_lower, is_hex_digit, lemma_hex_digits, sha256};
use crate::pdf::{
    hash_key, length_key, lemma_key_lengths, stream_tag,
    body_upto, catalog, content, content_object, document, embedded_dict, embedded_file,
    escape_text, filespec, font, framed, header, marker, objects, page, pages, xref_entries,
    xref_section,
};
use crate::decimal::{digit_prefix, lemma_decimal_value, digits_to_usize, lemma_digit_prefix_concat, zero_padded};
use crate::seqs::{
    contains, find_from, lemma_find_from_first, lemma_find_in_part, lemma_find_from_none,
    lemma_occurs_in_part, lemma_absent_before_sep, lemma_find_from, lemma_occurs_left,
    lemma_occurs_right, foreign, lacks, lemma_absent_concat, lemma_absent_lacking, lemma_absent_pair_free,
    lemma_lacks_concat, lemma_pair_free_concat, lemma_pair_free_lacking, occurs_at, pair_free,
};

verus! {

#[verifier::spinoff_prover]
proof fn lemma_marker_bytes()
    ensures
        marker().len() == 19,
        marker()[0] == 47,
        marker()[1] == 84,
        marker()[7] == 69,
        foreign(marker(), 10),
        foreign(marker(), 40),
        foreign(marker(), 41),
        foreign(marker(), 60),
{
    reveal_strlit("/Type /EmbeddedFile");
    is_ascii_chars_encode_utf8("/Type /EmbeddedFile"@);
}

#[verifier::spinoff_prover]
proof fn lemma_decimal_lacks(n: nat, c: u8)
    requires
        !is_digit(c),
    ensures
        lacks(decimal(n), c),
{
    lemma_decimal_digits(n);
}

/// A text in which no `/T` is followed six bytes on by `E` holds no marker.
#[verifier::spinoff_prover]
proof fn lemma_literal_absent(s: Seq<u8>)
    requires
        forall|j: int|
            0 <= j && j + 19 <= s.len() ==> !(#[trigger] s[j] == 47 && s[j + 1] == 84 && s[j + 7] == 69),
    ensures
        !contains(s, marker()),
{
    lemma_marker_bytes();
    assert forall|j: int| !occurs_at(s, marker(), j) by {
        if occurs_at(s, marker(), j) {
            let w = s.subrange(j, j + 19);
            assert(w[0] == s[j] && w[1] == s[j + 1] && w[7] == s[j + 7]);
        }
    }
}

/// An object, numbered and framed, holds the marker only where its body does.
#[verifier::spinoff_prover]
proof fn lemma_framed_absent(i: nat, body: Seq<u8>)
    requires
        !contains(body, marker()),
    ensures
        !contains(framed(i, body), marker()),
        framed(i, body).len() > 0,
        framed(i, body).last() == 10,
{
    lemma_marker_bytes();
    reveal_strlit(" 0 obj\n");
    reveal_strlit("\nendobj\n");
    is_ascii_chars_encode_utf8(" 0 obj\n"@);
    is_ascii_chars_encode_utf8("\nendobj\n"@);
    let d = decimal(i + 1);
    let o = encode_utf8(" 0 obj\n"@);
    let e = encode_utf8("\nendobj\n"@);
    lemma_decimal_lacks(i + 1, 47);
    lemma_lacks_concat(d, o, 47);
    lemma_absent_lacking(d + o, marker(), 0);
    lemma_absent_concat(d + o, body, marker());
    lemma_absent_lacking(e, marker(), 0);
    lemma_absent_concat(d + o + body, e, marker());
}

/// The header and the first objects hold the marker only where an object does.
#[verifier::spinoff_prover]
proof fn lemma_body_absent(objs: Seq<Seq<u8>>, k: nat)
    requires
        k <= objs.len(),
        forall|i: int| 0 <= i < k ==> !contains(#[trigger] objs[i], marker()),
    ensures
        !contains(body_upto(objs, k), marker()),
        body_upto(objs, k).len() > 0,
        body_upto(objs, k).last() == 10,
    decreases k,
{
    lemma_marker_bytes();
    if k == 0 {
        reveal_strlit("%PDF-1.7\n%");
        reveal_strlit("\n");
        is_ascii_chars_encode_utf8("%PDF-1.7\n%"@);
        is_ascii_chars_encode_utf8("\n"@);
        assert(lacks(header(), 47));
        lemma_absent_lacking(header(), marker(), 0);
    } else {
        lemma_body_absent(objs, (k - 1) as nat);
        lemma_framed_absent((k - 1) as nat, objs[k - 1]);
        lemma_absent_concat(body_upto(objs, (k - 1) as nat), framed((k - 1) as nat, objs[k - 1]), marker());
    }
}

#[verifier::spinoff_prover]
proof fn lemma_fixed_objects_absent()
    ensures
        !contains(catalog(), marker()),
        !contains(pages(), marker()),
        !contains(page(), marker()),
        !contains(filespec(), marker()),
        !contains(font(), marker()),
{
    reveal_strlit(
        "<< /Type /Catalog /Pages 2 0 R /Names << /EmbeddedFiles << /Names [(program.imcp) 5 0 R] >> >> >>",
    );
    is_ascii_chars_encode_utf8(
        "<< /Type /Catalog /Pages 2 0 R /Names << /EmbeddedFiles << /Names [(program.imcp) 5 0 R] >> >> >>"@,
    );
    lemma_literal_absent(catalog());
    reveal_strlit("<< /Type /Pages /Kids [3 0 R] /Count 1 >>");
    is_ascii_chars_encode_utf8("<< /Type /Pages /Kids [3 0 R] /Count 1 >>"@);
    lemma_literal_absent(pages());
    reveal_strlit(
        "<< /Type /Page /Parent 2 0 R /MediaBox [0 0 612 792] /Contents 4 0 R /Resources << /Font << /F1 7 0 R >> >> >>",
    );
    is_ascii_chars_encode_utf8(
        "<< /Type /Page /Parent 2 0 R /MediaBox [0 0 612 792] /Contents 4 0 R /Resources << /Font << /F1 7 0 R >> >> >>"@,
    );
    lemma_literal_absent(page());
    reveal_strlit("<< /Type /Filespec /F (program.imcp) /UF (program.imcp) /EF << /F 6 0 R >> >>");
    is_ascii_chars_encode_utf8(
        "<< /Type /Filespec /F (program.imcp) /UF (program.imcp) /EF << /F 6 0 R >> >>"@,
    );
    lemma_literal_absent(filespec());
    reveal_strlit("<< /Type /Font /Subtype /Type1 /BaseFont /Helvetica >>");
    is_ascii_chars_encode_utf8("<< /Type /Font /Subtype /Type1 /BaseFont /Helvetica >>"@);
    lemma_literal_absent(font());
}

/// The content stream holds the marker only where the escaped title does.
#[verifier::spinoff_prover]
proof fn lemma_content_object_absent(t: Seq<char>)
    requires
        !contains(encode_utf8(escape_text(t)), marker()),
    ensures
        !contains(content_object(t), marker()),
{
    lemma_marker_bytes();
    let m = marker();
    let esc = encode_utf8(escape_text(t));
    reveal_strlit("BT /F1 18 Tf 72 720 Td (");
    reveal_strlit(") Tj ET");
    reveal_strlit("<< /Length ");
    reveal_strlit(" >>\nstream\n");
    reveal_strlit("\nendstream");
    is_ascii_chars_encode_utf8("BT /F1 18 Tf 72 720 Td ("@);
    is_ascii_chars_encode_utf8(") Tj ET"@);
    is_ascii_chars_encode_utf8("<< /Length "@);
    is_ascii_chars_encode_utf8(" >>\nstream\n"@);
    is_ascii_chars_encode_utf8("\nendstream"@);
    let c1 = encode_utf8("BT /F1 18 Tf 72 720 Td ("@);
    let c2 = encode_utf8(") Tj ET"@);
    assert(pair_free(c1, 47, 84, 0));
    lemma_absent_pair_free(c1, m, 0);
    lemma_absent_concat(c1, esc, m);
    lemma_absent_lacking(c2, m, 0);
    lemma_absent_concat(c1 + esc, c2, m);
    assert(content(t) == c1 + esc + c2);

    let l1 = encode_utf8("<< /Length "@);
    let l2 = encode_utf8(" >>\nstream\n"@);
    let d = decimal(content(t).len());
    assert(pair_free(l1, 47, 84, 0));
    lemma_decimal_lacks(content(t).len(), 47);
    lemma_pair_free_lacking(d, 47, 84);
    lemma_pair_free_concat(l1, d, 47, 84, 0);
    lemma_pair_free_lacking(l2, 47, 84);
    lemma_pair_free_concat(l1 + d, l2, 47, 84, 0);
    lemma_absent_pair_free(l1 + d + l2, m, 0);
    lemma_absent_concat(l1 + d + l2, content(t), m);
    let e = encode_utf8("\nendstream"@);
    lemma_absent_lacking(e, m, 0);
    lemma_absent_concat(l1 + d + l2 + content(t), e, m);
}

/// What stands in a PDF document before the dictionary of the embedded file.
spec fn pdf_before(payload: Seq<u8>, title: Seq<char>) -> Seq<u8> {
    body_upto(objects(payload, title), 5) + decimal(6) + encode_utf8(" 0 obj\n"@)
}

/// What stands before the dictionary is what stands before the escaped
/// title, the escaped title, and what follows it up to the dictionary.
#[verifier::spinoff_prover]
proof fn lemma_before_parts(payload: Seq<u8>, title: Seq<char>)
    ensures
        pdf_before(payload, title) == crate::inert::before_title(payload, title) + encode_utf8(
            escape_text(title),
        ) + crate::inert::after_title(),
{
    let objs = objects(payload, title);
    assert(objs[3] == content_object(title));
    assert(objs[4] == filespec());
    let b3 = body_upto(objs, 3);
    assert(body_upto(objs, 4) == b3 + framed(3, content_object(title)));
    assert(body_upto(objs, 5) == body_upto(objs, 4) + framed(4, filespec()));
    lemma_before_shape(
        b3,
        decimal(4),
        encode_utf8(" 0 obj\n"@),
        encode_utf8("<< /Length "@),
        decimal(content(title).len()),
        encode_utf8(" >>\nstream\n"@),
        encode_utf8("BT /F1 18 Tf 72 720 Td ("@),
        encode_utf8(escape_text(title)),
        encode_utf8(") Tj ET"@),
        encode_utf8("\nendstream"@),
        encode_utf8("\nendobj\n"@),
        framed(4, filespec()),
        decimal(6),
    );
}

proof fn lemma_before_shape(
    b3: Seq<u8>,
    d4: Seq<u8>,
    o: Seq<u8>,
    l: Seq<u8>,
    dn: Seq<u8>,
    l2: Seq<u8>,
    c1: Seq<u8>,
    esc: Seq<u8>,
    c2: Seq<u8>,
    es: Seq<u8>,
    e: Seq<u8>,
    f4: Seq<u8>,
    d6: Seq<u8>,
)
    ensures
        b3 + (d4 + o + (l + dn + l2 + (c1 + esc + c2) + es) + e) + f4 + d6 + o == (b3 + d4 + o + l
            + dn + l2 + c1) + esc + (c2 + es + e + f4 + d6 + o),
{
    assert(b3 + (d4 + o + (l + dn + l2 + (c1 + esc + c2) + es) + e) + f4 + d6 + o =~= (b3 + d4 + o
        + l + dn + l2 + c1) + esc + (c2 + es + e + f4 + d6 + o));
}

/// A PDF document is what stands before the dictionary, the dictionary, the
/// payload, and what stands after it.
#[verifier::spinoff_prover]
proof fn lemma_pdf_layout(payload: Seq<u8>, title: Seq<char>)
    ensures
        document(objects(payload, title)) == pdf_before(payload, title) + embedded_dict(payload)
            + payload + crate::inert::after_payload(payload, title),
{
    crate::inert::lemma_layout(payload, title);
    lemma_before_parts(payload, title);
    let a0 = crate::inert::before_title(payload, title);
    let esc = encode_utf8(escape_text(title));
    let a1 = crate::inert::after_title();
    let d = embedded_dict(payload);
    let a2 = crate::inert::after_payload(payload, title);
    assert(crate::inert::between(payload) == a1 + d);
    assert(a0 + esc + (a1 + d) + payload + a2 =~= (a0 + esc + a1) + d + payload + a2);
}

/// The cross-reference table and trailer hold no marker.
#[verifier::spinoff_prover]
proof fn lemma_xref_absent(objs: Seq<Seq<u8>>)
    ensures
        !contains(xref_section(objs), marker()),
        xref_section(objs).len() > 0,
{
    lemma_marker_bytes();
    reveal_strlit("xref\n0 ");
    reveal_strlit("\n0000000000 65535 f \n");
    reveal_strlit("trailer\n<< /Size ");
    reveal_strlit(" /Root 1 0 R >>\nstartxref\n");
    reveal_strlit("\n%%EOF\n");
    is_ascii_chars_encode_utf8("xref\n0 "@);
    is_ascii_chars_encode_utf8("\n0000000000 65535 f \n"@);
    is_ascii_chars_encode_utf8("trailer\n<< /Size "@);
    is_ascii_chars_encode_utf8(" /Root 1 0 R >>\nstartxref\n"@);
    is_ascii_chars_encode_utf8("\n%%EOF\n"@);
    reveal_strlit(" 00000 n \n");
    is_ascii_chars_encode_utf8(" 00000 n \n"@);
    assert(pair_free(encode_utf8("trailer\n<< /Size "@), 47, 84, 0));
    assert(pair_free(encode_utf8(" /Root 1 0 R >>\nstartxref\n"@), 47, 84, 0));
    crate::inert::lemma_xref_pair_free(objs, 47, 84);
    lemma_absent_pair_free(xref_section(objs), marker(), 0);
}

/// What follows the payload holds no marker, and begins with a line feed.
#[verifier::spinoff_prover]
proof fn lemma_after_absent(payload: Seq<u8>, title: Seq<char>)
    ensures
        !contains(crate::inert::after_payload(payload, title), marker()),
        crate::inert::after_payload(payload, title).len() > 0,
        crate::inert::after_payload(payload, title)[0] == 10,
{
    lemma_marker_bytes();
    reveal_strlit("\nendstream");
    reveal_strlit("\nendobj\n");
    is_ascii_chars_encode_utf8("\nendstream"@);
    is_ascii_chars_encode_utf8("\nendobj\n"@);
    let e1 = encode_utf8("\nendstream"@);
    let e2 = encode_utf8("\nendobj\n"@);
    lemma_lacks_concat(e1, e2, 47);
    lemma_absent_lacking(e1 + e2, marker(), 0);
    lemma_fixed_objects_absent();
    lemma_framed_absent(6, font());
    lemma_absent_concat(e1 + e2, framed(6, font()), marker());
    lemma_xref_absent(objects(payload, title));
    lemma_absent_concat(e1 + e2 + framed(6, font()), xref_section(objects(payload, title)), marker());
}

pub(crate) open spec fn dict_l1() -> Seq<u8> {
    encode_utf8("<< /Type /EmbeddedFile /Subtype /application#2Fjson /Length "@)
}

pub(crate) open spec fn dict_l2() -> Seq<u8> {
    encode_utf8(" /Params << /Size "@)
}

pub(crate) open spec fn dict_l3() -> Seq<u8> {
    encode_utf8(" /IMC_SHA256 ("@)
}

pub(crate) open spec fn dict_l4() -> Seq<u8> {
    encode_utf8(") >> >>\nstream\n"@)
}

#[verifier::spinoff_prover]
proof fn lemma_dict_literals()
    ensures
        dict_l1().len() == 60,
        dict_l2().len() == 18,
        dict_l3().len() == 14,
        dict_l4().len() == 15,
        lacks(dict_l1(), 10),
        lacks(dict_l2(), 10),
        lacks(dict_l3(), 10),
        dict_l1()[0] == 60 && dict_l1()[1] == 60 && dict_l1()[2] == 32,
        dict_l1().subrange(3, 22) == marker(),
        dict_l1().subrange(52, 60) == length_key(),
        dict_l3().subrange(1, 14) == hash_key(),
        dict_l4().subrange(8, 15) == stream_tag(),
        dict_l2()[0] == 32,
        dict_l3()[0] == 32,
        pair_free(dict_l1().skip(4), 47, 84, 0),
        pair_free(dict_l2(), 47, 84, 0),
        pair_free(dict_l3(), 47, 84, 0),
        lacks(dict_l4(), 47),
        pair_free(dict_l1().skip(3), 47, 73, 0),
        pair_free(dict_l2(), 47, 73, 0),
        forall|j: int| 0 <= j < 49 ==> !occurs_at(dict_l1().skip(3), length_key(), j),
        forall|k: int|
            0 <= k < 15 && #[trigger] dict_l4()[k] == 10 ==> k == 7 || k == 14,
        dict_l4()[1] == 32,
        forall|k: int| 0 <= k < 7 ==> #[trigger] dict_l4()[k] != 10,
        stream_tag().len() == 7,
        stream_tag()[0] == 115,
        stream_tag()[6] == 10,
        length_key().len() == 8,
        hash_key().len() == 13,
        hash_key()[0] == 47,
        hash_key()[1] == 73,
{
    reveal_strlit("<< /Type /EmbeddedFile /Subtype /application#2Fjson /Length ");
    reveal_strlit(" /Params << /Size ");
    reveal_strlit(" /IMC_SHA256 (");
    reveal_strlit(") >> >>\nstream\n");
    reveal_strlit("/Type /EmbeddedFile");
    reveal_strlit("/Length ");
    reveal_strlit("/IMC_SHA256 (");
    reveal_strlit("stream\n");
    is_ascii_chars_encode_utf8("<< /Type /EmbeddedFile /Subtype /application#2Fjson /Length "@);
    is_ascii_chars_encode_utf8(" /Params << /Size "@);
    is_ascii_chars_encode_utf8(" /IMC_SHA256 ("@);
    is_ascii_chars_encode_utf8(") >> >>\nstream\n"@);
    is_ascii_chars_encode_utf8("/Type /EmbeddedFile"@);
    is_ascii_chars_encode_utf8("/Length "@);
    is_ascii_chars_encode_utf8("/IMC_SHA256 ("@);
    is_ascii_chars_encode_utf8("stream\n"@);
    let l1 = dict_l1();
    assert(l1.subrange(3, 22) =~= marker());
    assert(l1.subrange(52, 60) =~= length_key());
    assert(dict_l3().subrange(1, 14) =~= hash_key());
    assert(dict_l4().subrange(8, 15) =~= stream_tag());
    assert forall|j: int| 0 <= j < 49 implies !occurs_at(l1.skip(3), length_key(), j) by {
        if occurs_at(l1.skip(3), length_key(), j) {
            let w = l1.skip(3).subrange(j, j + 8);
            assert(w[0] == l1[j + 3] && w[1] == l1[j + 4]);
        }
    }
}

/// The part of the dictionary before its last line.
spec fn dict_pre(payload: Seq<u8>) -> Seq<u8> {
    dict_l1() + decimal(payload.len()) + dict_l2() + decimal(payload.len()) + dict_l3()
        + hex_lower(sha256(payload)@)
}

#[verifier::spinoff_prover]
proof fn lemma_dict_pre(payload: Seq<u8>)
    ensures
        embedded_dict(payload) == dict_pre(payload) + dict_l4(),
        lacks(dict_pre(payload), 10),
        hex_lower(sha256(payload)@).len() == 64,
        dict_pre(payload).len() == 60 + 2 * decimal(payload.len()).len() + 18 + 14 + 64,
{
    lemma_dict_literals();
    let dn = decimal(payload.len());
    let h = hex_lower(sha256(payload)@);
    lemma_hex_digits(sha256(payload)@);
    lemma_decimal_lacks(payload.len(), 10);
    assert(lacks(h, 10));
    lemma_lacks_concat(dict_l1(), dn, 10);
    lemma_lacks_concat(dict_l1() + dn, dict_l2(), 10);
    lemma_lacks_concat(dict_l1() + dn + dict_l2(), dn, 10);
    lemma_lacks_concat(dict_l1() + dn + dict_l2() + dn, dict_l3(), 10);
    lemma_lacks_concat(dict_l1() + dn + dict_l2() + dn + dict_l3(), h, 10);
}

/// In the dictionary, the stream begins after its last line.
#[verifier::spinoff_prover]
proof fn lemma_dict_stream(payload: Seq<u8>)
    ensures
        find_from(embedded_dict(payload), stream_tag(), 3) == Some(
            embedded_dict(payload).len() - 7,
        ),
        embedded_dict(payload).len() >= 22,
{
    lemma_dict_literals();
    lemma_dict_pre(payload);
    let d = embedded_dict(payload);
    let pre = dict_pre(payload);
    let l4 = dict_l4();
    let st = stream_tag();
    assert(d.subrange(d.len() - 7, d.len() as int) =~= l4.subrange(8, 15));
    assert forall|j: int| 3 <= j < d.len() - 7 implies !occurs_at(d, st, j) by {
        if occurs_at(d, st, j) {
            let w = d.subrange(j, j + 7);
            assert(w[6] == d[j + 6]);
            assert(w[0] == d[j]);
            if j + 6 < pre.len() {
                assert(d[j + 6] == pre[j + 6]);
            } else {
                assert(d[j + 6] == l4[j + 6 - pre.len()]);
                if j >= pre.len() {
                    assert(d[j] == l4[j - pre.len()]);
                }
            }
        }
    }
    lemma_find_from_first(d, st, 3, d.len() - 7);
}

/// The dictionary as the loader cuts it out: from the marker to the stream.
spec fn dict_cut(payload: Seq<u8>) -> Seq<u8> {
    embedded_dict(payload).subrange(3, embedded_dict(payload).len() - 7)
}

#[verifier::spinoff_prover]
proof fn lemma_dict_fields(payload: Seq<u8>)
    ensures
        ({
            let dd = dict_cut(payload);
            let w = decimal(payload.len()).len() as int;
            &&& find_from(dd, length_key(), 0) == Some(49int)
            &&& digit_prefix(dd.skip(57)) == decimal(payload.len())
            &&& find_from(dd, hash_key(), 0) == Some(76 + 2 * w)
            &&& dd.len() == 161 + 2 * w
            &&& dd.subrange(89 + 2 * w, 153 + 2 * w) == hex_lower(sha256(payload)@)
        }),
{
    lemma_dict_literals();
    lemma_dict_pre(payload);
    let dn = decimal(payload.len());
    lemma_decimal_digits(payload.len());
    let h = hex_lower(sha256(payload)@);
    let l1s = dict_l1().skip(3);
    let l4t = dict_l4().take(8);
    let dd = dict_cut(payload);
    assert(dd =~= l1s + dn + dict_l2() + dn + dict_l3() + h + l4t);
    // the length key
    assert(dd.subrange(0, 57) =~= l1s);
    assert(l1s.subrange(49, 57) =~= dict_l1().subrange(52, 60));
    lemma_find_from_first(l1s, length_key(), 0, 49);
    lemma_find_in_part(dd, 0, l1s, length_key(), 0, 49);
    // the digits after it
    let rest = dict_l2() + dn + dict_l3() + h + l4t;
    assert(dd.skip(57) =~= dn + rest);
    lemma_digit_prefix_concat(dn, rest);
    // the checksum key
    let x1 = l1s + dn + dict_l2() + dn;
    lemma_decimal_lacks(payload.len(), 47);
    lemma_pair_free_lacking(dn, 47, 73);
    lemma_pair_free_concat(l1s, dn, 47, 73, 0);
    lemma_pair_free_concat(l1s + dn, dict_l2(), 47, 73, 0);
    lemma_pair_free_concat(l1s + dn + dict_l2(), dn, 47, 73, 0);
    assert(dd =~= x1 + dict_l3() + h + l4t);
    let hk: int = x1.len() as int + 1;
    assert(dd.subrange(hk, hk + 13) =~= dict_l3().subrange(1, 14));
    assert forall|j: int| 0 <= j < hk implies !occurs_at(dd, hash_key(), j) by {
        if occurs_at(dd, hash_key(), j) {
            let w = dd.subrange(j, j + 13);
            assert(w[0] == dd[j] && w[1] == dd[j + 1]);
            if j < x1.len() {
                assert(dd[j] == x1[j]);
                assert(dd[j + 1] == x1[j + 1]);
            } else {
                assert(dd[j] == dict_l3()[0]);
            }
        }
    }
    lemma_find_from_first(dd, hash_key(), 0, hk);
    assert(dd.subrange(x1.len() + 14int, x1.len() + 78int) =~= h);
}

#[verifier::spinoff_prover]
proof fn lemma_concat4(a: Seq<u8>, b: Seq<u8>, c: Seq<u8>, d: Seq<u8>)
    ensures
        a + b + c + d == a + (b + c + d),
        (a + b + c + d).len() == a.len() + b.len() + c.len() + d.len(),
        (a + b + c + d).subrange(a.len() as int, (a.len() + b.len()) as int) == b,
        (a + b + c + d).subrange((a.len() + b.len()) as int, (a.len() + b.len() + c.len()) as int) == c,
{
    assert(a + b + c + d =~= a + (b + c + d));
    assert((a + b + c + d).subrange(a.len() as int, (a.len() + b.len()) as int) =~= b);
    assert((a + b + c + d).subrange((a.len() + b.len()) as int, (a.len() + b.len() + c.len()) as int) =~= c);
}

/// What stands before the dictionary holds no marker and ends a line.
#[verifier::spinoff_prover]
proof fn lemma_before_absent(payload: Seq<u8>, title: Seq<char>)
    requires
        !contains(encode_utf8(escape_text(title)), marker()),
    ensures
        !contains(pdf_before(payload, title), marker()),
        pdf_before(payload, title).len() > 0,
        pdf_before(payload, title).last() == 10,
{
    lemma_marker_bytes();
    let objs = objects(payload, title);
    lemma_fixed_objects_absent();
    lemma_content_object_absent(title);
    assert forall|i: int| 0 <= i < 5 implies !contains(#[trigger] objs[i], marker()) by {}
    lemma_body_absent(objs, 5);
    reveal_strlit(" 0 obj\n");
    is_ascii_chars_encode_utf8(" 0 obj\n"@);
    let o = encode_utf8(" 0 obj\n"@);
    lemma_decimal_lacks(6, 47);
    lemma_lacks_concat(decimal(6), o, 47);
    lemma_absent_lacking(decimal(6) + o, marker(), 0);
    lemma_absent_concat(body_upto(objs, 5), decimal(6) + o, marker());
    assert(pdf_before(payload, title) == body_upto(objs, 5) + (decimal(6) + o));
}

/// From the fifth byte of the dictionary on, nothing holds the marker.
#[verifier::spinoff_prover]
proof fn lemma_tail_absent(payload: Seq<u8>, title: Seq<char>)
    requires
        !contains(payload, marker()),
    ensures
        !contains(embedded_dict(payload).skip(4) + payload + crate::inert::after_payload(payload, title), marker()),
{
    lemma_marker_bytes();
    lemma_dict_literals();
    lemma_dict_pre(payload);
    let dn = decimal(payload.len());
    let h = hex_lower(sha256(payload)@);
    lemma_hex_digits(sha256(payload)@);
    assert(lacks(h, 47));
    lemma_decimal_lacks(payload.len(), 47);
    let l1 = dict_l1().skip(4);
    lemma_pair_free_lacking(dn, 47, 84);
    lemma_pair_free_lacking(h, 47, 84);
    lemma_pair_free_lacking(dict_l4(), 47, 84);
    lemma_pair_free_concat(l1, dn, 47, 84, 0);
    lemma_pair_free_concat(l1 + dn, dict_l2(), 47, 84, 0);
    lemma_pair_free_concat(l1 + dn + dict_l2(), dn, 47, 84, 0);
    lemma_pair_free_concat(l1 + dn + dict_l2() + dn, dict_l3(), 47, 84, 0);
    lemma_pair_free_concat(l1 + dn + dict_l2() + dn + dict_l3(), h, 47, 84, 0);
    lemma_pair_free_concat(l1 + dn + dict_l2() + dn + dict_l3() + h, dict_l4(), 47, 84, 0);
    let d4 = embedded_dict(payload).skip(4);
    assert(d4 =~= l1 + dn + dict_l2() + dn + dict_l3() + h + dict_l4());
    lemma_absent_pair_free(d4, marker(), 0);
    assert(d4.last() == 10);
    lemma_absent_concat(d4, payload, marker());
    lemma_after_absent(payload, title);
    lemma_absent_concat(d4 + payload, crate::inert::after_payload(payload, title), marker());
}

/// Where the marker stands once, at the fourth byte of the dictionary.
#[verifier::spinoff_prover]
proof fn lemma_marker_once(f: Seq<u8>, a: Seq<u8>, d: Seq<u8>, p: Seq<u8>, af: Seq<u8>)
    requires
        f == a + d + p + af,
        !contains(a, marker()),
        a.len() > 0,
        a.last() == 10,
        d.len() >= 22,
        d.subrange(3, 22) == marker(),
        d[0] != 47 && d[1] != 47 && d[2] != 47,
        !contains(d.skip(4) + p + af, marker()),
    ensures
        find_from(f, marker(), 0) == Some(a.len() as int + 3),
        find_from(f, marker(), a.len() as int + 4) is None,
{
    let m = marker();
    lemma_marker_bytes();
    lemma_concat4(a, d, p, af);
    let pd = a.len() as int;
    let at = pd + 3;
    lemma_absent_before_sep(a, d + p + af, m);
    assert(f.subrange(at, at + 19) =~= d.subrange(3, 22));
    assert forall|j: int| 0 <= j < at implies !occurs_at(f, m, j) by {
        if j >= pd && occurs_at(f, m, j) {
            assert(f.subrange(j, j + 19)[0] == f[j]);
            assert(f[j] == d[j - pd]);
        }
    }
    lemma_find_from_first(f, m, 0, at);
    let t = d.skip(4) + p + af;
    assert(f.subrange(at + 1, f.len() as int) =~= t);
    assert forall|j: int| at + 1 <= j implies !occurs_at(f, m, j) by {
        if occurs_at(f, m, j) {
            lemma_occurs_in_part(f, at + 1, t, m, j);
        }
    }
    lemma_find_from_none(f, m, at + 1);
}

/// A file read back: the one marker, the stream after it, the dictionary
/// between them and the payload after the stream.
#[verifier::spinoff_prover]
proof fn lemma_unwrap_parts(f: Seq<u8>, at: int, stream: int, payload: Seq<u8>)
    requires
        0 <= at,
        find_from(f, marker(), 0) == Some(at),
        find_from(f, marker(), at + 1) is None,
        find_from(f, stream_tag(), at) == Some(stream),
        at <= stream,
        f.subrange(at, stream) == dict_cut(payload),
        stream + 7 + payload.len() <= f.len(),
        f.subrange(stream + 7, stream + 7 + payload.len()) == payload,
        payload.len() <= MAX_PAYLOAD,
    ensures
        pdf::unwrap_result(f) == Ok::<Seq<u8>, Rejection>(payload),
{
    lemma_key_lengths();
    lemma_dict_fields(payload);
    lemma_decimal_value(payload.len());
    lemma_decimal_digits(payload.len());
    assert(digits_to_usize(decimal(payload.len())) == Some(payload.len() as usize));
}

/// Reading back a PDF document gives the payload it was written with, for
/// every title whose escaped text holds no marker of the embedded file.
#[verifier::spinoff_prover]
#[verifier::rlimit(40)]
pub proof fn pdf_roundtrip(payload: Seq<u8>, title: Seq<char>)
    requires
        !contains(encode_utf8(escape_text(title)), marker()),
    ensures
        pdf::wrap_result(payload, title) matches Ok(file) ==> pdf::unwrap_result(file) == Ok::<
            Seq<u8>,
            Rejection,
        >(payload),
{
    if pdf::wrap_result(payload, title) is Ok {
        lemma_marker_bytes();
        lemma_dict_literals();
        let f = document(objects(payload, title));
        let a = pdf_before(payload, title);
        let d = embedded_dict(payload);
        let af = crate::inert::after_payload(payload, title);
        lemma_pdf_layout(payload, title);
        lemma_concat4(a, d, payload, af);
        lemma_before_absent(payload, title);
        lemma_tail_absent(payload, title);
        lemma_dict_stream(payload);
        assert(d.subrange(0, 60) =~= dict_l1());
        assert(d.subrange(3, 22) =~= dict_l1().subrange(3, 22));
        lemma_marker_once(f, a, d, payload, af);
        let pd = a.len() as int;
        lemma_find_in_part(f, pd, d, stream_tag(), 3, d.len() - 7);
        let stream = pd + d.len() - 7;
        assert(f.subrange(pd + 3, stream) =~= dict_cut(payload));
        lemma_unwrap_parts(f, pd + 3, stream, payload);
    }
}

/// UTF-8 encodes a character below 128 as its own byte, and any other
/// character with bytes of 128 and more.
#[verifier::spinoff_prover]
proof fn lemma_encode_scalar_bytes(x: u32)
    requires
        vstd::utf8::is_scalar(x),
    ensures
        x <= 0x7F ==> vstd::utf8::encode_scalar(x) == seq![x as u8],
        x > 0x7F ==> forall|k: int|
            0 <= k < vstd::utf8::encode_scalar(x).len() ==> #[trigger] vstd::utf8::encode_scalar(
                x,
            )[k] >= 0x80,
{
    if x <= 0x7F {
        assert((x & 0x7F) as u8 == x as u8) by (bit_vector)
            requires
                x <= 0x7F,
        ;
    } else {
        assert(forall|y: u8| (0xC0u8 | y) >= 0x80u8) by (bit_vector);
        assert(forall|y: u8| (0xE0u8 | y) >= 0x80u8) by (bit_vector);
        assert(forall|y: u8| (0xF0u8 | y) >= 0x80u8) by (bit_vector);
        assert(forall|y: u8| (0x80u8 | y) >= 0x80u8) by (bit_vector);
    }
}

/// The UTF-8 encoding of a text without a given ASCII character is
/// without that byte.
#[verifier::spinoff_prover]
pub(crate) proof fn lemma_encode_lacks(s: Seq<char>, c: u8)
    requires
        c < 128,
        forall|i: int| 0 <= i < s.len() ==> (#[trigger] s[i]) as u32 != c as u32,
    ensures
        lacks(encode_utf8(s), c),
    decreases s.len(),
{
    if s.len() > 0 {
        vstd::utf8::char_is_scalar(s[0]);
        lemma_encode_scalar_bytes(s[0] as u32);
        lemma_encode_lacks(s.drop_first(), c);
        lemma_lacks_concat(vstd::utf8::encode_scalar(s[0] as u32), encode_utf8(s.drop_first()), c);
    }
}

/// A title written as XML text has no `<`.
#[verifier::spinoff_prover]
pub(crate) proof fn lemma_xml_escape_no_lt(s: Seq<char>)
    ensures
        forall|i: int| 0 <= i < xml_escape_text(s).len() ==> (#[trigger] xml_escape_text(s)[i]) as u32
            != 60,
    decreases s.len(),
{
    if s.len() > 0 {
        lemma_xml_escape_no_lt(s.drop_last());
        let a = xml_escape_text(s.drop_last());
        let c = s.last();
        let b = xml_escape_char(c);
        assert forall|k: int| 0 <= k < b.len() implies (#[trigger] b[k]) as u32 != 60 by {
            assert('&' as u32 == 38 && 'l' as u32 == 108 && 't' as u32 == 116 && ';' as u32 == 59);
            assert('g' as u32 == 103 && 'a' as u32 == 97 && 'm' as u32 == 109 && 'p' as u32 == 112);
            assert('q' as u32 == 113 && 'u' as u32 == 117 && 'o' as u32 == 111 && '?' as u32 == 63);
            if c == '<' || c == '>' || c == '&' || c == '"' || svg::is_control(c) {
            } else {
                assert(b[k] == c);
                assert('<' as u32 == 60);
                vstd::utf8::char_u32_cast(c, c as u32);
            }
        }
        assert forall|i: int| 0 <= i < (a + b).len() implies (#[trigger] (a + b)[i]) as u32 != 60 by {
            if i >= a.len() {
                assert((a + b)[i] == b[i - a.len()]);
            } else {
                assert((a + b)[i] == a[i]);
            }
        }
    }
}

pub(crate) open spec fn svg_s1() -> Seq<u8> {
    encode_utf8(
        "<svg xmlns=\"http://www.w3.org/2000/svg\" xmlns:imc=\"urn:impossible-computer:artifact:1\" width=\"480\" height=\"120\" viewBox=\"0 0 480 120\">\n<title>"@,
    )
}

pub(crate) open spec fn svg_s2() -> Seq<u8> {
    encode_utf8("</title>\n<text x=\"20\" y=\"60\" font-family=\"sans-serif\" font-size=\"18\">"@)
}

pub(crate) open spec fn svg_s3() -> Seq<u8> {
    encode_utf8("</text>\n<metadata>"@)
}

pub(crate) open spec fn svg_sp() -> Seq<u8> {
    encode_utf8(" "@)
}

pub(crate) open spec fn svg_q() -> Seq<u8> {
    encode_utf8("\">"@)
}

pub(crate) open spec fn svg_s4() -> Seq<u8> {
    encode_utf8("</metadata>\n</svg>\n"@)
}

#[verifier::spinoff_prover]
pub(crate) proof fn lemma_svg_literals()
    ensures
        pair_free(svg_s1(), 60, 105, 0),
        pair_free(svg_s2(), 60, 105, 0),
        pair_free(svg_s3(), 60, 105, 0),
        pair_free(svg_s4(), 60, 105, 0),
        pair_free(svg::close_tag(), 60, 105, 0),
        svg_s1().len() >= 5 && svg_s1()[0] == 60 && svg_s1()[1] == 115 && svg_s1()[2] == 118
            && svg_s1()[3] == 103,
        svg::open_tag().len() == 13,
        svg::open_tag()[0] == 60 && svg::open_tag()[1] == 105,
        lacks(svg::open_tag().skip(1), 60),
        svg::close_tag().len() == 14,
        svg::close_tag()[0] == 60,
        svg::encoding_attr().len() == 17,
        svg::sha256_key().len() == 8,
        svg::sha256_key()[0] == 115 && svg::sha256_key()[1] == 104,
        svg_sp() == seq![32u8],
        svg_q() == seq![34u8, 62u8],
        svg::quote() == seq![34u8],
        svg::tag_end() == seq![62u8],
        lacks(svg::encoding_attr(), 60) && lacks(svg::encoding_attr(), 62),
        lacks(svg::sha256_key(), 60) && lacks(svg::sha256_key(), 62),
        pair_free(svg::encoding_attr() + svg_sp(), 115, 104, 0),
        forall|i: int| 0 <= i < 8 ==> (#[trigger] svg::sha256_key()[i]) != 115 || i == 0,
        forall|i: int| 0 <= i < svg_s1().len() ==> #[trigger] svg_s1()[i] < 128,
        forall|i: int| 0 <= i < svg_s2().len() ==> #[trigger] svg_s2()[i] < 128,
        forall|i: int| 0 <= i < svg_s3().len() ==> #[trigger] svg_s3()[i] < 128,
{
    reveal_strlit(
        "<svg xmlns=\"http://www.w3.org/2000/svg\" xmlns:imc=\"urn:impossible-computer:artifact:1\" width=\"480\" height=\"120\" viewBox=\"0 0 480 120\">\n<title>",
    );
    reveal_strlit("</title>\n<text x=\"20\" y=\"60\" font-family=\"sans-serif\" font-size=\"18\">");
    reveal_strlit("</text>\n<metadata>");
    reveal_strlit(" ");
    reveal_strlit("\">");
    reveal_strlit("</metadata>\n</svg>\n");
    reveal_strlit("<imc:program ");
    reveal_strlit("</imc:program>");
    reveal_strlit("encoding=\"base64\"");
    reveal_strlit("sha256=\"");
    reveal_strlit("\"");
    reveal_strlit(">");
    is_ascii_chars_encode_utf8(
        "<svg xmlns=\"http://www.w3.org/2000/svg\" xmlns:imc=\"urn:impossible-computer:artifact:1\" width=\"480\" height=\"120\" viewBox=\"0 0 480 120\">\n<title>"@,
    );
    is_ascii_chars_encode_utf8(
        "</title>\n<text x=\"20\" y=\"60\" font-family=\"sans-serif\" font-size=\"18\">"@,
    );
    is_ascii_chars_encode_utf8("</text>\n<metadata>"@);
    is_ascii_chars_encode_utf8(" "@);
    is_ascii_chars_encode_utf8("\">"@);
    is_ascii_chars_encode_utf8("</metadata>\n</svg>\n"@);
    is_ascii_chars_encode_utf8("<imc:program "@);
    is_ascii_chars_encode_utf8("</imc:program>"@);
    is_ascii_chars_encode_utf8("encoding=\"base64\""@);
    is_ascii_chars_encode_utf8("sha256=\""@);
    is_ascii_chars_encode_utf8("\""@);
    is_ascii_chars_encode_utf8(">"@);
    assert(svg_sp() =~= seq![32u8]);
    assert(svg_q() =~= seq![34u8, 62u8]);
    assert(svg::quote() =~= seq![34u8]);
    assert(svg::tag_end() =~= seq![62u8]);
    let es = svg::encoding_attr() + svg_sp();
    assert forall|k: int| 0 <= k < es.len() && #[trigger] es[k] == 115 implies k + 1 < es.len()
        && es[k + 1] != 104 by {
        if k < 17 {
            assert(es[k] == svg::encoding_attr()[k]);
            if k + 1 < 17 {
                assert(es[k + 1] == svg::encoding_attr()[k + 1]);
            }
        } else {
            assert(es[k] == svg_sp()[k - 17]);
        }
    }
}

/// The attributes of the payload element, as written.
spec fn svg_attrs(payload: Seq<u8>) -> Seq<u8> {
    svg::encoding_attr() + svg_sp() + svg::sha256_key() + hex_lower(sha256(payload)@) + seq![34u8]
}

#[verifier::spinoff_prover]
proof fn lemma_svg_attrs(payload: Seq<u8>)
    ensures
        svg::sha256_attr(svg_attrs(payload)) == Some(hex_lower(sha256(payload)@)),
        contains(svg_attrs(payload), svg::encoding_attr()),
        lacks(svg_attrs(payload), 60),
        lacks(svg_attrs(payload), 62),
        svg_attrs(payload).len() == 91,
{
    lemma_svg_literals();
    let h = hex_lower(sha256(payload)@);
    lemma_hex_digits(sha256(payload)@);
    let e = svg::encoding_attr();
    let k = svg::sha256_key();
    let attrs = svg_attrs(payload);
    let es = e + svg_sp();
    assert(attrs =~= es + (k + h + seq![34u8]));
    // the key stands after `encoding="base64" `
    assert(attrs.subrange(18, 26) =~= k);
    assert forall|j: int| 0 <= j < 18 implies !occurs_at(attrs, k, j) by {
        if occurs_at(attrs, k, j) {
            let w = attrs.subrange(j, j + 8);
            assert(w[0] == attrs[j] && w[1] == attrs[j + 1]);
            assert(attrs[j] == es[j]);
            if j + 1 < 18 {
                assert(attrs[j + 1] == es[j + 1]);
            } else {
                assert(attrs[j + 1] == k[0]);
            }
        }
    }
    lemma_find_from_first(attrs, k, 0, 18);
    // the value ends at the quote after the digest
    assert(attrs.subrange(90, 91) =~= seq![34u8]);
    assert forall|j: int| 26 <= j < 90 implies !occurs_at(attrs, svg::quote(), j) by {
        if occurs_at(attrs, svg::quote(), j) {
            assert(attrs.subrange(j, j + 1)[0] == attrs[j]);
            assert(attrs[j] == h[j - 26]);
        }
    }
    lemma_find_from_first(attrs, svg::quote(), 26, 90);
    assert forall|j: int| 26 <= j implies !occurs_at(attrs, k, j) by {
        if occurs_at(attrs, k, j) {
            assert(attrs.subrange(j, j + 8)[0] == attrs[j]);
            if j < 90 {
                assert(attrs[j] == h[j - 26]);
            }
        }
    }
    lemma_find_from_none(attrs, k, 26);
    assert(attrs.subrange(26, 90) =~= h);
    // the encoding attribute stands first
    assert(attrs.subrange(0, 17) =~= e);
    assert(occurs_at(attrs, e, 0));
    assert(lacks(h, 60) && lacks(h, 62));
    lemma_lacks_concat(e, svg_sp(), 60);
    lemma_lacks_concat(e + svg_sp(), k, 60);
    lemma_lacks_concat(e + svg_sp() + k, h, 60);
    lemma_lacks_concat(e + svg_sp() + k + h, seq![34u8], 60);
    lemma_lacks_concat(e, svg_sp(), 62);
    lemma_lacks_concat(e + svg_sp(), k, 62);
    lemma_lacks_concat(e + svg_sp() + k, h, 62);
    lemma_lacks_concat(e + svg_sp() + k + h, seq![34u8], 62);
}

/// Text that begins and ends with ASCII other than white space is its own trim.
#[verifier::spinoff_prover]
proof fn lemma_trim_plain(b: Seq<u8>)
    requires
        b.len() > 0 ==> (b[0] < 128 && !svg::is_ascii_space(b[0]) && b.last() < 128
            && !svg::is_ascii_space(b.last())),
    ensures
        svg::trim(b) == b,
{
    assert(svg::leading_space(b) == 0);
    assert(svg::trim_start(b) == b);
    assert(svg::trailing_space(b) == 0);
}

/// The start tag of the payload element stands once, right after a prefix
/// in which no `<` is followed by `i`.
#[verifier::spinoff_prover]
proof fn lemma_svg_open_once(f: Seq<u8>, pre: Seq<u8>, tail: Seq<u8>)
    requires
        f == pre + svg::open_tag() + tail,
        pair_free(pre, 60, 105, 0),
        pair_free(tail, 60, 105, 0),
    ensures
        find_from(f, svg::open_tag(), 0) == Some(pre.len() as int),
        find_from(f, svg::open_tag(), pre.len() as int + 1) is None,
        f.skip(pre.len() as int + 13) == tail,
{
    lemma_svg_literals();
    let o = svg::open_tag();
    let at = pre.len() as int;
    assert(f.subrange(at, at + 13) =~= o);
    assert forall|j: int| 0 <= j < at implies !occurs_at(f, o, j) by {
        if occurs_at(f, o, j) {
            assert(f.subrange(j, j + 13)[0] == f[j] && f.subrange(j, j + 13)[1] == f[j + 1]);
            assert(f[j] == pre[j]);
            if j + 1 < at {
                assert(f[j + 1] == pre[j + 1]);
            }
        }
    }
    lemma_find_from_first(f, o, 0, at);
    let u = o.skip(1) + tail;
    assert(f.subrange(at + 1, f.len() as int) =~= u);
    lemma_pair_free_lacking(o.skip(1), 60, 105);
    lemma_pair_free_concat(o.skip(1), tail, 60, 105, 0);
    lemma_absent_pair_free(u, o, 0);
    assert forall|j: int| at + 1 <= j implies !occurs_at(f, o, j) by {
        if occurs_at(f, o, j) {
            lemma_occurs_in_part(f, at + 1, u, o, j);
        }
    }
    lemma_find_from_none(f, o, at + 1);
    assert(f.skip(at + 13) =~= tail);
}

/// After the start tag: the tag ends after the attributes, and the end tag
/// follows the body.
#[verifier::spinoff_prover]
proof fn lemma_svg_element(rest: Seq<u8>, payload: Seq<u8>, b: Seq<u8>)
    requires
        rest == svg_attrs(payload) + seq![62u8] + b + svg::close_tag() + svg_s4(),
        lacks(b, 60),
    ensures
        find_from(rest, svg::tag_end(), 0) == Some(91int),
        find_from(rest, svg::close_tag(), 0) == Some(92 + b.len() as int),
        rest.take(91) == svg_attrs(payload),
        rest.subrange(92, 92 + b.len() as int) == b,
{
    lemma_svg_literals();
    lemma_svg_attrs(payload);
    let attrs = svg_attrs(payload);
    let c = svg::close_tag();
    assert(rest.subrange(91, 92) =~= seq![62u8]);
    assert forall|j: int| 0 <= j < 91 implies !occurs_at(rest, svg::tag_end(), j) by {
        if occurs_at(rest, svg::tag_end(), j) {
            assert(rest.subrange(j, j + 1)[0] == rest[j]);
            assert(rest[j] == attrs[j]);
        }
    }
    lemma_find_from_first(rest, svg::tag_end(), 0, 91);
    let be: int = 92 + b.len() as int;
    assert(rest.subrange(be, be + 14) =~= c);
    assert forall|j: int| 0 <= j < be implies !occurs_at(rest, c, j) by {
        if occurs_at(rest, c, j) {
            assert(rest.subrange(j, j + 14)[0] == rest[j]);
            if j < 91 {
                assert(rest[j] == attrs[j]);
            } else if j >= 92 {
                assert(rest[j] == b[j - 92]);
            }
        }
    }
    lemma_find_from_first(rest, c, 0, be);
    assert(rest.take(91) =~= attrs);
    assert(rest.subrange(92, be) =~= b);
}

/// A file read back: valid UTF-8, the one payload element after a prefix in
/// which no `<` is followed by `i`, its attributes as written, and a body
/// whose trimmed text decodes to the payload.
#[verifier::spinoff_prover]
proof fn lemma_svg_unwrap_parts(f: Seq<u8>, pre: Seq<u8>, b: Seq<u8>, payload: Seq<u8>)
    requires
        f == pre + svg::open_tag() + (svg_attrs(payload) + seq![62u8] + b + svg::close_tag()
            + svg_s4()),
        valid_utf8(f),
        pair_free(pre, 60, 105, 0),
        lacks(b, 60),
        b.len() <= svg::body_cap(),
        svg::base64_decode(svg::trim(b)) == Ok::<Seq<u8>, Seq<char>>(payload),
        payload.len() <= MAX_PAYLOAD,
    ensures
        svg::unwrap_result(f) == Ok::<Seq<u8>, Rejection>(payload),
{
    lemma_svg_literals();
    lemma_svg_attrs(payload);
    let attrs = svg_attrs(payload);
    let tail = attrs + seq![62u8] + b + svg::close_tag() + svg_s4();
    lemma_lacks_concat(attrs, seq![62u8], 60);
    lemma_lacks_concat(attrs + seq![62u8], b, 60);
    lemma_pair_free_lacking(attrs + seq![62u8] + b, 60, 105);
    lemma_pair_free_concat(attrs + seq![62u8] + b, svg::close_tag(), 60, 105, 0);
    lemma_pair_free_concat(attrs + seq![62u8] + b + svg::close_tag(), svg_s4(), 60, 105, 0);
    lemma_svg_open_once(f, pre, tail);
    lemma_svg_element(tail, payload, b);
}

#[verifier::spinoff_prover]
pub(crate) proof fn lemma_svg_shape(
    s1: Seq<u8>,
    t: Seq<u8>,
    s2: Seq<u8>,
    s3: Seq<u8>,
    o: Seq<u8>,
    e: Seq<u8>,
    sp: Seq<u8>,
    k: Seq<u8>,
    h: Seq<u8>,
    b: Seq<u8>,
    c: Seq<u8>,
    s4: Seq<u8>,
)
    ensures
        s1 + t + s2 + t + s3 + o + e + sp + k + h + seq![34u8, 62u8] + b + c + s4 == (s1 + t + s2
            + t + s3) + o + ((e + sp + k + h + seq![34u8]) + seq![62u8] + b + c + s4),
{
    assert(s1 + t + s2 + t + s3 + o + e + sp + k + h + seq![34u8, 62u8] + b + c + s4 =~= (s1 + t
        + s2 + t + s3) + o + ((e + sp + k + h + seq![34u8]) + seq![62u8] + b + c + s4));
}

/// The base64 text of a payload, as bytes: ASCII of the base64 alphabet.
#[verifier::spinoff_prover]
pub(crate) proof fn lemma_base64_bytes(payload: Seq<u8>)
    requires
        svg::base64_faithful(payload),
    ensures
        ({
            let b = encode_utf8(base64_encode(payload));
            &&& b.len() == base64_encode(payload).len()
            &&& lacks(b, 60)
            &&& lacks(b, 62)
            &&& forall|i: int| 0 <= i < b.len() ==> #[trigger] b[i] < 128 && !svg::is_ascii_space(b[i])
        }),
{
    let chars = base64_encode(payload);
    assert(vstd::utf8::is_ascii_chars(chars));
    is_ascii_chars_encode_utf8(chars);
    let b = encode_utf8(chars);
    assert forall|i: int| 0 <= i < b.len() implies #[trigger] b[i] < 128 && !svg::is_ascii_space(b[i])
        && b[i] != 60 && b[i] != 62 by {
        assert(is_base64_char(chars[i]));
        assert(b[i] == chars[i] as u8);
    }
}

/// Reading back an SVG document gives the payload it was written with, for
/// every title, as far as base64's engine decodes what it encoded.
#[verifier::spinoff_prover]
pub proof fn svg_roundtrip(payload: Seq<u8>, title: Seq<char>)
    requires
        svg::base64_faithful(payload),
    ensures
        svg::wrap_result(payload, title) matches Ok(file) ==> svg::unwrap_result(file) == Ok::<
            Seq<u8>,
            Rejection,
        >(payload),
{
    if payload.len() <= MAX_PAYLOAD {
        broadcast use vstd::utf8::encode_utf8_valid_utf8, vstd::utf8::valid_utf8_concat;

        lemma_svg_literals();
        let t = encode_utf8(xml_escape_text(title));
        let h = hex_lower(sha256(payload)@);
        let b = encode_utf8(base64_encode(payload));
        let f = svg::document(payload, title);
        assert(svg_q() == seq![34u8, 62u8]);
        lemma_svg_shape(
            svg_s1(),
            t,
            svg_s2(),
            svg_s3(),
            svg::open_tag(),
            svg::encoding_attr(),
            svg_sp(),
            svg::sha256_key(),
            h,
            b,
            svg::close_tag(),
            svg_s4(),
        );
        let pre = svg_s1() + t + svg_s2() + t + svg_s3();
        // the file is UTF-8
        lemma_hex_digits(sha256(payload)@);
        vstd::utf8::partial_valid_utf8_extend_ascii_block(h, 0, h.len() as int);
        assert(h.subrange(0, h.len() as int) =~= h);
        assert(Seq::<u8>::empty().subrange(0, 0) =~= Seq::<u8>::empty());
        assert(h.subrange(0, 0) =~= Seq::<u8>::empty());
        assert(vstd::utf8::valid_utf8(h));
        let v1 = svg_s1() + t;
        let v2 = v1 + svg_s2();
        let v3 = v2 + t;
        let v4 = v3 + svg_s3();
        let v5 = v4 + svg::open_tag();
        let v6 = v5 + svg::encoding_attr();
        let v7 = v6 + svg_sp();
        let v8 = v7 + svg::sha256_key();
        let v9 = v8 + h;
        let v10 = v9 + svg_q();
        let v11 = v10 + b;
        let v12 = v11 + svg::close_tag();
        let v13 = v12 + svg_s4();
        assert(valid_utf8(svg_s1()) && valid_utf8(t) && valid_utf8(svg_s2()) && valid_utf8(svg_s3()));
        assert(valid_utf8(svg::open_tag()) && valid_utf8(svg::encoding_attr()) && valid_utf8(svg_sp()));
        assert(valid_utf8(svg::sha256_key()) && valid_utf8(svg_q()) && valid_utf8(b));
        assert(valid_utf8(svg::close_tag()) && valid_utf8(svg_s4()));
        assert(valid_utf8(v1));
        assert(valid_utf8(v2));
        assert(valid_utf8(v3));
        assert(valid_utf8(v4));
        assert(valid_utf8(v5));
        assert(valid_utf8(v6));
        assert(valid_utf8(v7));
        assert(valid_utf8(v8));
        assert(valid_utf8(v9));
        assert(valid_utf8(v10));
        assert(valid_utf8(v11));
        assert(valid_utf8(v12));
        assert(valid_utf8(v13));
        assert(f == v13);
        // no `<i` before the payload element
        lemma_xml_escape_no_lt(title);
        lemma_encode_lacks(xml_escape_text(title), 60);
        lemma_pair_free_lacking(t, 60, 105);
        lemma_pair_free_concat(svg_s1(), t, 60, 105, 0);
        lemma_pair_free_concat(svg_s1() + t, svg_s2(), 60, 105, 0);
        lemma_pair_free_concat(svg_s1() + t + svg_s2(), t, 60, 105, 0);
        lemma_pair_free_concat(svg_s1() + t + svg_s2() + t, svg_s3(), 60, 105, 0);
        // the body is the base64 text, within the cap, its own trim
        lemma_base64_bytes(payload);
        assert((payload.len() + 2) / 3 <= 349526);
        lemma_trim_plain(b);
        lemma_svg_unwrap_parts(f, pre, b, payload);
    }
}

/// A PDF document begins with its header.
#[verifier::spinoff_prover]
proof fn lemma_body_starts(objs: Seq<Seq<u8>>, k: nat)
    ensures
        body_upto(objs, k).len() >= header().len(),
        body_upto(objs, k).subrange(0, header().len() as int) == header(),
    decreases k,
{
    if k > 0 {
        lemma_body_starts(objs, (k - 1) as nat);
        let b = body_upto(objs, (k - 1) as nat);
        assert((b + framed((k - 1) as nat, objs[k - 1])).subrange(0, header().len() as int)
            =~= b.subrange(0, header().len() as int));
    } else {
        assert(header().subrange(0, header().len() as int) =~= header());
    }
}

#[verifier::spinoff_prover]
proof fn lemma_detect_pdf(f: Seq<u8>, r: Seq<u8>)
    requires
        f == header() + r,
    ensures
        detected(f) == Some(Format::Pdf),
{
    reveal_strlit("%PDF-");
    reveal_strlit("%PDF-1.7\n%");
    is_ascii_chars_encode_utf8("%PDF-"@);
    is_ascii_chars_encode_utf8("%PDF-1.7\n%"@);
    assert(f.subrange(0, 5) =~= pdf_magic());
}

#[verifier::spinoff_prover]
proof fn lemma_detect_svg(f: Seq<u8>, r: Seq<u8>)
    requires
        f == svg_s1() + r,
    ensures
        detected(f) == Some(Format::Svg),
{
    reveal_strlit("%PDF-");
    reveal_strlit("<svg");
    is_ascii_chars_encode_utf8("%PDF-"@);
    is_ascii_chars_encode_utf8("<svg"@);
    lemma_svg_literals();
    assert(f[0] == svg_s1()[0]);
    assert(f.subrange(0, 5)[0] == f[0]);
    assert(!occurs_at(f, pdf_magic(), 0));
    assert(f.subrange(0, 4) =~= svg_tag());
    assert(0 <= 0int < 512 && occurs_at(f, svg_tag(), 0));
}

/// A wrapped payload is detected in the format it was wrapped in.
#[verifier::spinoff_prover]
pub proof fn detect_wrapped(format: Format, payload: Seq<u8>, title: Seq<char>)
    ensures
        embedded(format, payload, title) matches Ok(file) ==> detected(file) == Some(format),
{
    if embedded(format, payload, title) is Ok {
        match format {
            Format::Pdf => {
                let objs = objects(payload, title);
                let f = document(objs);
                lemma_body_starts(objs, objs.len());
                let rest = f.subrange(header().len() as int, f.len() as int);
                assert(f =~= header() + rest);
                lemma_detect_pdf(f, rest);
            },
            Format::Svg => {
                let f = svg::document(payload, title);
                let rest = f.subrange(svg_s1().len() as int, f.len() as int);
                assert(f =~= svg_s1() + rest);
                lemma_detect_svg(f, rest);
            },
        }
    }
}

/// Extracting what was embedded gives the payload back: for PDF, with a
/// title whose escaped text holds no marker of the embedded file; for SVG,
/// as far as base64's engine decodes what it encoded.
#[verifier::spinoff_prover]
pub proof fn extract_inverts_embed(format: Format, payload: Seq<u8>, title: Seq<char>)
    requires
        format == Format::Pdf ==> !contains(encode_utf8(escape_text(title)), marker()),
        format == Format::Svg ==> svg::base64_faithful(payload),
    ensures
        embedded(format, payload, title) matches Ok(file) ==> extracted(file) == Ok::<
            Seq<u8>,
            Rejection,
        >(payload),
{
    detect_wrapped(format, payload, title);
    match format {
        Format::Pdf => pdf_roundtrip(payload, title),
        Format::Svg => svg_roundtrip(payload, title),
    }
}

/// `needle` stands in `hay` at exactly one position.
pub open spec fn occurs_once(hay: Seq<u8>, needle: Seq<u8>) -> bool {
    exists|i: int|
        occurs_at(hay, needle, i) && forall|j: int| #[trigger] occurs_at(hay, needle, j) ==> j == i
}

#[verifier::spinoff_prover]
proof fn lemma_once(hay: Seq<u8>, needle: Seq<u8>, at: int)
    requires
        needle.len() > 0,
        find_from(hay, needle, 0) == Some(at),
        find_from(hay, needle, at + 1) is None,
    ensures
        occurs_once(hay, needle),
{
    lemma_find_from(hay, needle, 0);
    lemma_find_from(hay, needle, at + 1);
    assert forall|j: int| #[trigger] occurs_at(hay, needle, j) implies j == at by {}
}

#[verifier::spinoff_prover]
proof fn lemma_pdf_accepted(bytes: Seq<u8>)
    ensures
        pdf::unwrap_result(bytes) matches Ok(payload) ==> {
            &&& payload.len() <= MAX_PAYLOAD
            &&& contains(bytes, hex_lower(sha256(payload)@))
            &&& occurs_once(bytes, marker())
        },
{
    if pdf::unwrap_result(bytes) is Ok {
        lemma_key_lengths();
        let at = find_from(bytes, marker(), 0)->Some_0;
        lemma_find_from(bytes, marker(), 0);
        lemma_once(bytes, marker(), at);
        let stream = find_from(bytes, stream_tag(), at)->Some_0;
        lemma_find_from(bytes, stream_tag(), at);
        let dict = bytes.subrange(at, stream);
        let h = find_from(dict, hash_key(), 0)->Some_0;
        lemma_find_from(dict, hash_key(), 0);
        let h_at = h + 13;
        let payload = pdf::unwrap_result(bytes)->Ok_0;
        lemma_hex_digits(sha256(payload)@);
        assert(bytes.subrange(at + h_at, at + h_at + 64) =~= dict.subrange(h_at, h_at + 64));
        assert(occurs_at(bytes, hex_lower(sha256(payload)@), at + h_at));
    }
}

#[verifier::spinoff_prover]
proof fn lemma_svg_accepted(bytes: Seq<u8>)
    ensures
        svg::unwrap_result(bytes) matches Ok(payload) ==> {
            &&& payload.len() <= MAX_PAYLOAD
            &&& contains(bytes, hex_lower(sha256(payload)@))
            &&& occurs_once(bytes, svg::open_tag())
        },
{
    if svg::unwrap_result(bytes) is Ok {
        lemma_svg_literals();
        let o = svg::open_tag();
        let at = find_from(bytes, o, 0)->Some_0;
        lemma_find_from(bytes, o, 0);
        lemma_once(bytes, o, at);
        let rest = bytes.skip(at + 13);
        let gt = find_from(rest, svg::tag_end(), 0)->Some_0;
        lemma_find_from(rest, svg::tag_end(), 0);
        let attrs = rest.take(gt);
        let k = find_from(attrs, svg::sha256_key(), 0)->Some_0;
        lemma_find_from(attrs, svg::sha256_key(), 0);
        let a = k + 8;
        let e = svg::attr_value_end(attrs, a);
        lemma_find_from(attrs, svg::quote(), a);
        lemma_find_from(attrs, svg::sha256_key(), a);
        let payload = svg::unwrap_result(bytes)->Ok_0;
        lemma_hex_digits(sha256(payload)@);
        assert(attrs.subrange(a, e) == hex_lower(sha256(payload)@));
        assert(bytes.subrange(at + 13 + a, at + 13 + e) =~= attrs.subrange(a, e));
        assert(occurs_at(bytes, hex_lower(sha256(payload)@), at + 13 + a));
    }
}

/// Whatever the loader accepts is within the cap, carries in the file itself
/// the SHA-256 checksum of what it gives back, and holds exactly one payload
/// marker (PDF) or payload element (SVG).
#[verifier::spinoff_prover]
pub proof fn accepted_is_checked(bytes: Seq<u8>)
    ensures
        extracted(bytes) matches Ok(payload) ==> {
            &&& payload.len() <= MAX_PAYLOAD
            &&& contains(bytes, hex_lower(sha256(payload)@))
            &&& detected(bytes) == Some(Format::Pdf) ==> occurs_once(bytes, marker())
            &&& detected(bytes) == Some(Format::Svg) ==> occurs_once(bytes, svg::open_tag())
        },
{
    lemma_pdf_accepted(bytes);
    lemma_svg_accepted(bytes);
}

#[verifier::spinoff_prover]
proof fn lemma_body_prefix(objs: Seq<Seq<u8>>, k: nat, n: nat)
    requires
        k <= n,
    ensures
        body_upto(objs, k).len() <= body_upto(objs, n).len(),
        body_upto(objs, n).subrange(0, body_upto(objs, k).len() as int) == body_upto(objs, k),
    decreases n - k,
{
    if k < n {
        lemma_body_prefix(objs, k, (n - 1) as nat);
        let b = body_upto(objs, (n - 1) as nat);
        assert((b + framed((n - 1) as nat, objs[n - 1])).subrange(0, body_upto(objs, k).len() as int)
            =~= b.subrange(0, body_upto(objs, k).len() as int));
    } else {
        assert(body_upto(objs, n).subrange(0, body_upto(objs, n).len() as int) =~= body_upto(objs, n));
    }
}

#[verifier::spinoff_prover]
proof fn lemma_entries_prefix(objs: Seq<Seq<u8>>, k: nat, n: nat)
    requires
        k <= n,
    ensures
        xref_entries(objs, k).len() <= xref_entries(objs, n).len(),
        xref_entries(objs, n).subrange(0, xref_entries(objs, k).len() as int) == xref_entries(objs, k),
    decreases n - k,
{
    if k < n {
        lemma_entries_prefix(objs, k, (n - 1) as nat);
        let e = xref_entries(objs, (n - 1) as nat);
        let x = zero_padded(body_upto(objs, (n - 1) as nat).len(), 10) + encode_utf8(" 00000 n \n"@);
        assert(xref_entries(objs, n) =~= e + x);
        assert((e + x).subrange(0, xref_entries(objs, k).len() as int) =~= e.subrange(
            0,
            xref_entries(objs, k).len() as int,
        ));
    } else {
        assert(xref_entries(objs, n).subrange(0, xref_entries(objs, n).len() as int) =~= xref_entries(objs, n));
    }
}

/// Where the cross-reference table's entries begin in a document.
pub open spec fn xref_entries_start(objs: Seq<Seq<u8>>) -> int {
    (body_upto(objs, objs.len()).len() + encode_utf8("xref\n0 "@).len() + decimal(objs.len() + 1).len()
        + encode_utf8("\n0000000000 65535 f \n"@).len()) as int
}

#[verifier::spinoff_prover]
proof fn lemma_xref_object_line(objs: Seq<Seq<u8>>, k: nat)
    requires
        k < objs.len(),
    ensures
        occurs_at(
            document(objs),
            decimal(k + 1) + encode_utf8(" 0 obj\n"@),
            body_upto(objs, k).len() as int,
        ),
{
    let n = objs.len();
    let head = decimal(k + 1) + encode_utf8(" 0 obj\n"@);
    let fr = framed(k, objs[k as int]);
    assert(fr == head + (objs[k as int] + encode_utf8("\nendobj\n"@)));
    assert(fr.subrange(0, head.len() as int) =~= head);
    assert(occurs_at(fr, head, 0));
    lemma_occurs_right(body_upto(objs, k), fr, head, 0);
    assert(body_upto(objs, k + 1) == body_upto(objs, k) + fr);
    lemma_body_prefix(objs, k + 1, n);
    let b1 = body_upto(objs, k + 1);
    let bn = body_upto(objs, n);
    assert(bn == b1 + bn.subrange(b1.len() as int, bn.len() as int)) by {
        assert(bn =~= bn.subrange(0, b1.len() as int) + bn.subrange(b1.len() as int, bn.len() as int));
    }
    lemma_occurs_left(b1, bn.subrange(b1.len() as int, bn.len() as int), head, body_upto(objs, k).len() as int);
    lemma_occurs_left(bn, xref_section(objs), head, body_upto(objs, k).len() as int);
}

#[verifier::spinoff_prover]
proof fn lemma_xref_table(objs: Seq<Seq<u8>>)
    ensures
        occurs_at(document(objs), encode_utf8("xref\n"@), body_upto(objs, objs.len()).len() as int),
        ({
            let doc = document(objs);
            let tail = encode_utf8("startxref\n"@) + decimal(body_upto(objs, objs.len()).len())
                + encode_utf8("\n%%EOF\n"@);
            occurs_at(doc, tail, doc.len() - tail.len())
        }),
{
    reveal_strlit("xref\n0 ");
    reveal_strlit("xref\n");
    reveal_strlit(" /Root 1 0 R >>\nstartxref\n");
    reveal_strlit("startxref\n");
    is_ascii_chars_encode_utf8("xref\n0 "@);
    is_ascii_chars_encode_utf8("xref\n"@);
    is_ascii_chars_encode_utf8(" /Root 1 0 R >>\nstartxref\n"@);
    is_ascii_chars_encode_utf8("startxref\n"@);
    let body = body_upto(objs, objs.len());
    let x = xref_section(objs);
    assert(x.subrange(0, 5) =~= encode_utf8("xref\n"@));
    lemma_occurs_right(body, x, encode_utf8("xref\n"@), 0);
    let doc = document(objs);
    let tail = encode_utf8("startxref\n"@) + decimal(body.len()) + encode_utf8("\n%%EOF\n"@);
    assert(doc.subrange(doc.len() - tail.len(), doc.len() as int) =~= tail);
}

#[verifier::spinoff_prover]
proof fn lemma_xref_entry(objs: Seq<Seq<u8>>, k: nat)
    requires
        k < objs.len(),
    ensures
        occurs_at(
            document(objs),
            zero_padded(body_upto(objs, k).len(), 10) + encode_utf8(" 00000 n \n"@),
            xref_entries_start(objs) + xref_entries(objs, k).len(),
        ),
{
    let n = objs.len();
    let entry = zero_padded(body_upto(objs, k).len(), 10) + encode_utf8(" 00000 n \n"@);
    let e1 = xref_entries(objs, k + 1);
    let en = xref_entries(objs, n);
    assert(e1 == xref_entries(objs, k) + entry);
    assert(entry.subrange(0, entry.len() as int) =~= entry);
    lemma_occurs_right(xref_entries(objs, k), entry, entry, 0);
    lemma_entries_prefix(objs, k + 1, n);
    assert(en =~= e1 + en.subrange(e1.len() as int, en.len() as int));
    lemma_occurs_left(e1, en.subrange(e1.len() as int, en.len() as int), entry, xref_entries(objs, k).len() as int);
    let pre = encode_utf8("xref\n0 "@) + decimal(n + 1) + encode_utf8("\n0000000000 65535 f \n"@);
    let post = encode_utf8("trailer\n<< /Size "@) + decimal(n + 1) + encode_utf8(
        " /Root 1 0 R >>\nstartxref\n"@,
    ) + decimal(body_upto(objs, n).len()) + encode_utf8("\n%%EOF\n"@);
    lemma_occurs_left(en, post, entry, xref_entries(objs, k).len() as int);
    lemma_occurs_right(pre, en + post, entry, xref_entries(objs, k).len() as int);
    assert(xref_section(objs) =~= pre + (en + post));
    let body = body_upto(objs, n);
    lemma_occurs_right(body, xref_section(objs), entry, (pre.len() + xref_entries(objs, k).len()) as int);
}

/// In every PDF document the library writes, the trailer's `startxref`
/// gives the offset at which the cross-reference table begins, and the
/// table's entry for each object gives, padded to ten digits, the offset at
/// which that object's `n 0 obj` line begins.
#[verifier::spinoff_prover]
pub proof fn xref_is_consistent(objs: Seq<Seq<u8>>, k: int)
    requires
        0 <= k < objs.len(),
    ensures
        ({
            let doc = document(objs);
            let body = body_upto(objs, objs.len());
            let offset = body_upto(objs, k as nat).len();
            let tail = encode_utf8("startxref\n"@) + decimal(body.len()) + encode_utf8("\n%%EOF\n"@);
            &&& occurs_at(doc, decimal((k + 1) as nat) + encode_utf8(" 0 obj\n"@), offset as int)
            &&& occurs_at(doc, encode_utf8("xref\n"@), body.len() as int)
            &&& occurs_at(
                doc,
                zero_padded(offset, 10) + encode_utf8(" 00000 n \n"@),
                xref_entries_start(objs) + xref_entries(objs, k as nat).len(),
            )
            &&& occurs_at(doc, tail, doc.len() - tail.len())
        }),
{
    lemma_xref_object_line(objs, k as nat);
    lemma_xref_table(objs);
    lemma_xref_entry(objs, k as nat);
}

/// Two files alike but for the byte at `i`.
pub open spec fn alike_but_at(f: Seq<u8>, g: Seq<u8>, i: int) -> bool {
    &&& f.len() == g.len()
    &&& forall|k: int| 0 <= k < f.len() && k != i ==> #[trigger] f[k] == g[k]
}

/// An occurrence that does not cover the changed byte is one in both files.
#[verifier::spinoff_prover]
proof fn lemma_occurs_alike(f: Seq<u8>, g: Seq<u8>, i: int, m: Seq<u8>, j: int)
    requires
        alike_but_at(f, g, i),
        !(j <= i < j + m.len()),
    ensures
        occurs_at(f, m, j) == occurs_at(g, m, j),
{
    if 0 <= j && j + m.len() <= f.len() {
        assert(f.subrange(j, j + m.len()) =~= g.subrange(j, j + m.len()));
    }
}

/// Parts that do not cover the changed byte are alike.
#[verifier::spinoff_prover]
proof fn lemma_subrange_alike(f: Seq<u8>, g: Seq<u8>, i: int, a: int, b: int)
    requires
        alike_but_at(f, g, i),
        0 <= a <= b <= f.len(),
        !(a <= i < b),
    ensures
        f.subrange(a, b) == g.subrange(a, b),
{
    assert(f.subrange(a, b) =~= g.subrange(a, b));
}

/// Hexadecimal text determines the bytes it was written of.
#[verifier::spinoff_prover]
proof fn lemma_hex_injective(a: Seq<u8>, b: Seq<u8>)
    requires
        a.len() == b.len(),
        hex_lower(a) == hex_lower(b),
    ensures
        a == b,
{
    assert forall|k: int| 0 <= k < a.len() implies a[k] == b[k] by {
        assert((2 * k) / 2 == k && (2 * k) % 2 == 0);
        assert((2 * k + 1) / 2 == k && (2 * k + 1) % 2 == 1);
        assert(hex_lower(a)[2 * k] == crate::digest::hex_digit(a[k] / 16));
        assert(hex_lower(b)[2 * k] == crate::digest::hex_digit(b[k] / 16));
        assert(hex_lower(a)[2 * k + 1] == crate::digest::hex_digit(a[k] % 16));
        assert(hex_lower(b)[2 * k + 1] == crate::digest::hex_digit(b[k] % 16));
        let (x, y) = (a[k], b[k]);
        assert(x / 16 == y / 16);
        assert(x % 16 == y % 16);
        assert(x == (x / 16) * 16 + x % 16);
        assert(y == (y / 16) * 16 + y % 16);
    }
    assert(a =~= b);
}

/// Numerals of payload sizes within the cap have at most seven digits.
#[verifier::spinoff_prover]
proof fn lemma_decimal_short(n: nat)
    requires
        n < 10000000,
    ensures
        decimal(n).len() <= 7,
{
    assert(decimal(n).len() <= 7) by {
        if n >= 10 {
            let n1 = n / 10;
            if n1 >= 10 {
                let n2 = n1 / 10;
                if n2 >= 10 {
                    let n3 = n2 / 10;
                    if n3 >= 10 {
                        let n4 = n3 / 10;
                        if n4 >= 10 {
                            let n5 = n4 / 10;
                            if n5 >= 10 {
                                let n6 = n5 / 10;
                                assert(n6 < 10);
                                assert(decimal(n6).len() == 1);
                            }
                            assert(decimal(n5).len() <= 2);
                        }
                        assert(decimal(n4).len() <= 3);
                    }
                    assert(decimal(n3).len() <= 4);
                }
                assert(decimal(n2).len() <= 5);
            }
            assert(decimal(n1).len() <= 6);
        }
    }
}

/// Sixty-four hexadecimal digits in a row, from `j` on.
spec fn hex_run(s: Seq<u8>, j: int) -> bool {
    forall|k: int| 0 <= k < 64 ==> #[trigger] is_hex_digit(s[j + k])
}

/// In the dictionary as cut out, the checksum key stands only once, and the
/// only run of 64 hexadecimal digits is the checksum.
#[verifier::spinoff_prover]
proof fn lemma_dict_unique(payload: Seq<u8>)
    requires
        payload.len() <= MAX_PAYLOAD,
    ensures
        ({
            let dd = dict_cut(payload);
            let w = decimal(payload.len()).len() as int;
            &&& forall|j: int| #[trigger] occurs_at(dd, hash_key(), j) ==> j == 76 + 2 * w
            &&& forall|j: int|
                0 <= j && j + 64 <= dd.len() && #[trigger] hex_run(dd, j) ==> j == 89 + 2 * w
            &&& w <= 7
        }),
{
    lemma_dict_literals();
    lemma_dict_pre(payload);
    lemma_dict_fields(payload);
    let dn = decimal(payload.len());
    lemma_decimal_short(payload.len());
    lemma_decimal_digits(payload.len());
    let w = dn.len() as int;
    let h = hex_lower(sha256(payload)@);
    lemma_hex_digits(sha256(payload)@);
    let l1s = dict_l1().skip(3);
    let l4t = dict_l4().take(8);
    let dd = dict_cut(payload);
    assert(dd =~= l1s + dn + dict_l2() + dn + dict_l3() + h + l4t);
    reveal_strlit("<< /Type /EmbeddedFile /Subtype /application#2Fjson /Length ");
    reveal_strlit(" /Params << /Size ");
    reveal_strlit(" /IMC_SHA256 (");
    reveal_strlit(") >> >>\n");
    reveal_strlit(") >> >>\nstream\n");
    is_ascii_chars_encode_utf8("<< /Type /EmbeddedFile /Subtype /application#2Fjson /Length "@);
    is_ascii_chars_encode_utf8(" /Params << /Size "@);
    is_ascii_chars_encode_utf8(" /IMC_SHA256 ("@);
    is_ascii_chars_encode_utf8(") >> >>\nstream\n"@);
    // bytes that are not hexadecimal digits, spread through the dictionary
    assert(dd[56] == l1s[56]);
    assert(dd[74 + w] == dict_l2()[17]);
    assert(dd[88 + 2 * w] == dict_l3()[13]);
    assert(dd[153 + 2 * w] == l4t[0]);
    assert(!is_hex_digit(dd[56]) && !is_hex_digit(dd[74 + w]));
    assert(!is_hex_digit(dd[88 + 2 * w]) && !is_hex_digit(dd[153 + 2 * w]));
    assert forall|j: int| 0 <= j && j + 64 <= dd.len() && #[trigger] hex_run(dd, j) implies j == 89
        + 2 * w by {
        if j <= 56 {
            assert(is_hex_digit(dd[j + (56 - j)]));
        } else if j <= 74 + w {
            assert(is_hex_digit(dd[j + (74 + w - j)]));
        } else if j <= 88 + 2 * w {
            assert(is_hex_digit(dd[j + (88 + 2 * w - j)]));
        } else if j > 89 + 2 * w {
            assert(is_hex_digit(dd[j + (153 + 2 * w - j)]));
        }
    }
    // after the key, no `/`
    let tail = dict_l3().skip(2) + h + l4t;
    assert(dd.skip(77 + 2 * w) =~= tail);
    assert(lacks(dict_l3().skip(2), 47));
    assert(lacks(h, 47));
    assert(lacks(l4t, 47));
    lemma_lacks_concat(dict_l3().skip(2), h, 47);
    lemma_lacks_concat(dict_l3().skip(2) + h, l4t, 47);
    lemma_find_from(dd, hash_key(), 0);
    assert forall|j: int| #[trigger] occurs_at(dd, hash_key(), j) implies j == 76 + 2 * w by {
        if j > 76 + 2 * w {
            assert(dd.subrange(j, j + 13)[0] == dd[j]);
            assert(dd[j] == tail[j - (77 + 2 * w)]);
        }
    }
}

/// `m` stands in `s` at `j` but for its byte at `d`.
spec fn near(s: Seq<u8>, m: Seq<u8>, j: int, d: int) -> bool {
    forall|k: int| 0 <= k < m.len() && k != d ==> #[trigger] s[j + k] == m[k]
}

/// The bytes around the marker in every PDF document the library writes.
spec fn marker_area() -> Seq<u8> {
    encode_utf8("\nendobj\n6 0 obj\n"@) + dict_l1()
}

/// Around the marker, no other place is one byte away from holding it.
#[verifier::spinoff_prover]
proof fn lemma_marker_area()
    ensures
        marker_area().len() == 76,
        forall|j: int, d: int|
            1 <= j <= 37 && j != 19 && 0 <= d < 19 ==> !near(marker_area(), marker(), j, d),
{
    reveal_strlit("\nendobj\n6 0 obj\n");
    reveal_strlit("<< /Type /EmbeddedFile /Subtype /application#2Fjson /Length ");
    reveal_strlit("/Type /EmbeddedFile");
    is_ascii_chars_encode_utf8("\nendobj\n6 0 obj\n"@);
    is_ascii_chars_encode_utf8("<< /Type /EmbeddedFile /Subtype /application#2Fjson /Length "@);
    is_ascii_chars_encode_utf8("/Type /EmbeddedFile"@);
    let c = marker_area();
    let m = marker();
    assert forall|j: int, d: int| 1 <= j <= 37 && j != 19 && 0 <= d < 19 implies !near(c, m, j, d) by {
        if near(c, m, j, d) {
            if d != 0 {
                assert(c[j + 0] == m[0]);
            }
            if d != 1 {
                assert(c[j + 1] == m[1]);
            }
            if d != 2 {
                assert(c[j + 2] == m[2]);
            }
            if d != 3 {
                assert(c[j + 3] == m[3]);
            }
            if d != 4 {
                assert(c[j + 4] == m[4]);
            }
            if d != 5 {
                assert(c[j + 5] == m[5]);
            }
            if d != 6 {
                assert(c[j + 6] == m[6]);
            }
            if d != 7 {
                assert(c[j + 7] == m[7]);
            }
            if d != 8 {
                assert(c[j + 8] == m[8]);
            }
            if d != 9 {
                assert(c[j + 9] == m[9]);
            }
            if d != 10 {
                assert(c[j + 10] == m[10]);
            }
            if d != 11 {
                assert(c[j + 11] == m[11]);
            }
            if d != 12 {
                assert(c[j + 12] == m[12]);
            }
            if d != 13 {
                assert(c[j + 13] == m[13]);
            }
            if d != 14 {
                assert(c[j + 14] == m[14]);
            }
            if d != 15 {
                assert(c[j + 15] == m[15]);
            }
            if d != 16 {
                assert(c[j + 16] == m[16]);
            }
            if d != 17 {
                assert(c[j + 17] == m[17]);
            }
            if d != 18 {
                assert(c[j + 18] == m[18]);
            }
        }
    }
}

/// With a needle once in a file and no place near it one byte away from
/// holding it, a file alike but for one byte holds the needle once only at
/// the same place.
#[verifier::spinoff_prover]
proof fn lemma_corrupt_unique(f: Seq<u8>, g: Seq<u8>, i: int, at: int, m: Seq<u8>)
    requires
        alike_but_at(f, g, i),
        m.len() > 0,
        find_from(f, m, 0) == Some(at),
        find_from(f, m, at + 1) is None,
        forall|j: int, d: int|
            at - m.len() < j < at + m.len() && j != at && 0 <= d < m.len() ==> !near(f, m, j, d),
    ensures
        forall|a2: int|
            find_from(g, m, 0) == Some(a2) && find_from(g, m, a2 + 1) is None ==> a2 == at,
{
    let n = m.len() as int;
    lemma_find_from(f, m, 0);
    lemma_find_from(f, m, at + 1);
    assert forall|a2: int|
        find_from(g, m, 0) == Some(a2) && find_from(g, m, a2 + 1) is None implies a2 == at by {
        lemma_find_from(g, m, 0);
        lemma_find_from(g, m, a2 + 1);
        if !(a2 <= i < a2 + n) {
            lemma_occurs_alike(f, g, i, m, a2);
        } else if a2 != at {
            if !(at <= i < at + n) {
                lemma_occurs_alike(f, g, i, m, at);
            } else {
                assert forall|k: int| 0 <= k < n && k != i - a2 implies #[trigger] f[a2 + k]
                    == m[k] by {
                    assert(g.subrange(a2, a2 + n)[k] == g[a2 + k]);
                }
                assert(near(f, m, a2, i - a2));
            }
        }
    }
}

/// Where a file alike but for one byte is read with the checksum key found in
/// its dictionary and 64 hexadecimal digits after it, the key is the one of
/// the dictionary as written.
#[verifier::spinoff_prover]
proof fn lemma_corrupt_hash_position(
    f: Seq<u8>,
    g: Seq<u8>,
    i: int,
    at: int,
    stream: int,
    s2: int,
    h2: int,
    payload: Seq<u8>,
)
    requires
        alike_but_at(f, g, i),
        payload.len() <= MAX_PAYLOAD,
        0 <= at <= stream,
        stream + 7 <= f.len(),
        find_from(f, stream_tag(), at) == Some(stream),
        f.subrange(at, stream) == dict_cut(payload),
        find_from(g, stream_tag(), at) == Some(s2),
        find_from(g.subrange(at, s2), hash_key(), 0) == Some(h2),
        at + h2 + 13 + 64 <= s2,
        hex_run(g, at + h2 + 13),
    ensures
        h2 == 76 + 2 * decimal(payload.len()).len(),
{
    lemma_dict_literals();
    lemma_dict_unique(payload);
    lemma_dict_fields(payload);
    let st = stream_tag();
    let hk_key = hash_key();
    let dd = dict_cut(payload);
    let w = decimal(payload.len()).len() as int;
    let hk = at + 76 + 2 * w;
    let d2 = g.subrange(at, s2);
    let hk2 = at + h2;
    let r2 = hk2 + 13;
    lemma_find_from(f, st, at);
    lemma_find_from(g, st, at);
    lemma_find_from(d2, hk_key, 0);
    lemma_find_from(dd, hk_key, 0);
    lemma_occurs_in_part(g, at, d2, hk_key, hk2);
    assert(dd.len() == stream - at);
    if !(stream <= i < stream + 7) {
        lemma_occurs_alike(f, g, i, st, stream);
    }
    if r2 <= i < r2 + 64 {
        if hk2 != hk {
            lemma_occurs_alike(f, g, i, hk_key, hk2);
            if hk2 + 13 <= stream {
                lemma_occurs_in_part(f, at, dd, hk_key, hk2);

            } else {
                lemma_occurs_alike(f, g, i, hk_key, hk);
                lemma_occurs_in_part(f, at, dd, hk_key, hk);
                lemma_occurs_in_part(g, at, d2, hk_key, hk);

            }
        }
    } else {
        assert forall|k: int| 0 <= k < 64 implies #[trigger] is_hex_digit(f[r2 + k]) by {
            assert(is_hex_digit(g[r2 + k]));
        }
        if s2 <= stream {
            assert forall|k: int| 0 <= k < 64 implies #[trigger] is_hex_digit(dd[r2 - at + k]) by {
                assert(is_hex_digit(f[r2 + k]));
                assert(dd[r2 - at + k] == f[at + (r2 - at + k)]);
            }
            assert(hex_run(dd, r2 - at));
            assert(h2 == 76 + 2 * w);
        } else {
            assert(stream <= i < stream + 7);
            lemma_occurs_alike(f, g, i, hk_key, hk);
            lemma_occurs_in_part(f, at, dd, hk_key, hk);
            lemma_occurs_in_part(g, at, d2, hk_key, hk);
            if h2 < 76 + 2 * w {
                lemma_occurs_alike(f, g, i, hk_key, hk2);
                lemma_occurs_in_part(f, at, dd, hk_key, hk2);
            }
        }
    }
}

/// A file alike but for one byte of its checksum text, read with the
/// checksum where it stands, is read with the stream, length and
/// payload bytes as written.
#[verifier::spinoff_prover]
proof fn lemma_corrupt_checksum_only(
    f: Seq<u8>,
    g: Seq<u8>,
    i: int,
    at: int,
    stream: int,
    s2: int,
    payload: Seq<u8>,
)
    requires
        alike_but_at(f, g, i),
        payload.len() <= MAX_PAYLOAD,
        0 <= at <= stream,
        stream + 7 + payload.len() <= f.len(),
        find_from(f, stream_tag(), at) == Some(stream),
        f.subrange(at, stream) == dict_cut(payload),
        f.subrange(stream + 7, stream + 7 + payload.len()) == payload,
        at + 89 + 2 * decimal(payload.len()).len() <= i < at + 153 + 2 * decimal(payload.len()).len(),
        find_from(g, stream_tag(), at) == Some(s2),
        at + 153 + 2 * decimal(payload.len()).len() <= s2,
    ensures
        s2 == stream,
        find_from(g.subrange(at, s2), length_key(), 0) == Some(49int),
        digit_prefix(g.subrange(at, s2).skip(57)) == decimal(payload.len()),
        g.subrange(stream + 7, stream + 7 + payload.len()) == payload,
{
    lemma_dict_literals();
    lemma_dict_fields(payload);
    lemma_dict_pre(payload);
    let st = stream_tag();
    let lk = length_key();
    let dd = dict_cut(payload);
    let dn = decimal(payload.len());
    let w = dn.len() as int;
    lemma_decimal_short(payload.len());
    lemma_decimal_digits(payload.len());
    lemma_find_from(f, st, at);
    lemma_find_from(g, st, at);
    assert(dd.len() == stream - at);
    lemma_occurs_alike(f, g, i, st, stream);
    if s2 < stream {
        if !(s2 <= i < s2 + 7) {
            lemma_occurs_alike(f, g, i, st, s2);
        }
    }
    assert(s2 == stream);
    let d2 = g.subrange(at, s2);
    assert forall|k: int| 0 <= k < 57 + w + 1 implies #[trigger] d2[k] == dd[k] by {
        assert(d2[k] == g[at + k]);
        assert(dd[k] == f[at + k]);
    }
    // the length key stands where it did, first
    lemma_find_from(dd, lk, 0);
    assert(d2.subrange(49, 57) =~= dd.subrange(49, 57));
    assert(find_from(dd, lk, 0) == Some(49int));
    assert forall|j: int| 0 <= j < 49 implies !occurs_at(d2, lk, j) by {
        assert(!occurs_at(dd, lk, j));
        assert(d2.subrange(j, j + 8) =~= dd.subrange(j, j + 8));
    }
    lemma_find_from_first(d2, lk, 0, 49);
    // the digits after it
    let rest = dict_l2() + dn + dict_l3() + hex_lower(sha256(payload)@) + dict_l4().take(8);
    assert(dd.skip(57) =~= dn + rest);
    assert(d2.skip(57).subrange(0, w) =~= dn) by {
        assert forall|k: int| 0 <= k < w implies d2.skip(57)[k] == dn[k] by {
            assert(d2.skip(57)[k] == d2[57 + k]);
            assert(dd.skip(57)[k] == dd[57 + k]);
            assert((dn + rest)[k] == dn[k]);
        }
    }
    assert(d2.skip(57)[w] == 32) by {
        assert(d2.skip(57)[w] == d2[57 + w]);
        assert(dd.skip(57)[w] == dd[57 + w]);
        assert((dn + rest)[w] == rest[0]);
    }
    let tail2 = d2.skip(57 + w);
    assert(d2.skip(57) =~= dn + tail2);
    lemma_digit_prefix_concat(dn, tail2);
    lemma_subrange_alike(f, g, i, stream + 7, stream + 7 + payload.len());
}

/// What a PDF document that the loader accepts is read as: the marker, the
/// stream after it, the length key and the value read after it, and the
/// checksum key, all within the dictionary between marker and stream.
#[verifier::spinoff_prover]
proof fn lemma_pdf_read(g: Seq<u8>) -> (r: (int, int, int, int, int))
    requires
        pdf::unwrap_result(g) is Ok,
    ensures
        ({
            let (at, s, l, n, h) = r;
            let d = g.subrange(at, s);
            &&& find_from(g, marker(), 0) == Some(at)
            &&& find_from(g, marker(), at + 1) is None
            &&& find_from(g, stream_tag(), at) == Some(s)
            &&& 0 <= at <= s <= g.len()
            &&& find_from(d, length_key(), 0) == Some(l)
            &&& digits_to_usize(digit_prefix(d.skip(l + 8))) == Some(n as usize)
            &&& find_from(d, hash_key(), 0) == Some(h)
            &&& 0 <= h && h + 77 <= d.len()
            &&& s + 7 + n <= g.len()
            &&& pdf::unwrap_result(g) == Ok::<Seq<u8>, Rejection>(g.subrange(s + 7, s + 7 + n))
            &&& hex_lower(sha256(g.subrange(s + 7, s + 7 + n))@) == g.subrange(
                at + h + 13,
                at + h + 77,
            )
            &&& hex_run(g, at + h + 13)
            &&& 0 <= n <= usize::MAX
        }),
{
    lemma_key_lengths();
    let at = find_from(g, marker(), 0)->Some_0;
    lemma_find_from(g, marker(), 0);
    let s = find_from(g, stream_tag(), at)->Some_0;
    lemma_find_from(g, stream_tag(), at);
    let d = g.subrange(at, s);
    let l = find_from(d, length_key(), 0)->Some_0;
    let n = digits_to_usize(digit_prefix(d.skip(l + 8)))->Some_0;
    let h = find_from(d, hash_key(), 0)->Some_0;
    lemma_find_from(d, hash_key(), 0);
    assert(d.subrange(h + 13, h + 77) =~= g.subrange(at + h + 13, at + h + 77));
    let q = g.subrange(s + 7, s + 7 + n);
    let ht = g.subrange(at + h + 13, at + h + 77);
    lemma_hex_digits(sha256(q)@);
    assert forall|k: int| 0 <= k < 64 implies #[trigger] is_hex_digit(g[at + h + 13 + k]) by {
        assert(g[at + h + 13 + k] == ht[k]);
    }
    (at, s, l, n as int, h)
}

/// A file alike but for one byte to a file the library wrote, read with the
/// marker of the embedded file where it was written, is read with bytes of
/// the payload's digest.
#[verifier::spinoff_prover]
proof fn lemma_corrupt_at(
    f: Seq<u8>,
    g: Seq<u8>,
    i: int,
    at: int,
    stream: int,
    payload: Seq<u8>,
)
    requires
        alike_but_at(f, g, i),
        payload.len() <= MAX_PAYLOAD,
        0 <= at <= stream,
        find_from(f, stream_tag(), at) == Some(stream),
        f.subrange(at, stream) == dict_cut(payload),
        stream + 7 + payload.len() <= f.len(),
        f.subrange(stream + 7, stream + 7 + payload.len()) == payload,
        pdf::unwrap_result(g) is Ok,
        find_from(g, marker(), 0) == Some(at),
    ensures
        sha256(pdf::unwrap_result(g)->Ok_0) == sha256(payload),
{
    let (a2, s2, l2, n2, h2) = lemma_pdf_read(g);
    lemma_corrupt_hash_position(f, g, i, at, stream, s2, h2, payload);
    lemma_corrupt_read(f, g, i, at, stream, s2, l2, n2, payload);
}

/// A file alike but for one byte to a file the library wrote is, where it is
/// read at all, read with bytes of the payload's digest.
#[verifier::spinoff_prover]
proof fn lemma_corrupt_core(
    f: Seq<u8>,
    g: Seq<u8>,
    i: int,
    at: int,
    stream: int,
    payload: Seq<u8>,
)
    requires
        alike_but_at(f, g, i),
        payload.len() <= MAX_PAYLOAD,
        0 <= at <= stream,
        find_from(f, marker(), 0) == Some(at),
        find_from(f, marker(), at + 1) is None,
        forall|j: int, d: int|
            at - 18 <= j <= at + 18 && j != at && 0 <= d < 19 ==> !near(f, marker(), j, d),
        find_from(f, stream_tag(), at) == Some(stream),
        f.subrange(at, stream) == dict_cut(payload),
        stream + 7 + payload.len() <= f.len(),
        f.subrange(stream + 7, stream + 7 + payload.len()) == payload,
    ensures
        pdf::unwrap_result(g) matches Ok(q) ==> sha256(q) == sha256(payload),
{
    if pdf::unwrap_result(g) is Ok {
        let (a2, s2, l2, n2, h2) = lemma_pdf_read(g);
        lemma_marker_bytes();
        lemma_corrupt_unique(f, g, i, at, marker());
        assert(a2 == at);
        lemma_corrupt_at(f, g, i, at, stream, payload);
    }
}

/// The two ways a one-byte change can leave a file readable: in the checksum
/// text, with the payload read as it was written, or elsewhere, with the
/// checksum text as it was written.
#[verifier::spinoff_prover]
proof fn lemma_corrupt_read(
    f: Seq<u8>,
    g: Seq<u8>,
    i: int,
    at: int,
    stream: int,
    s2: int,
    l2: int,
    n2: int,
    payload: Seq<u8>,
)
    requires
        alike_but_at(f, g, i),
        payload.len() <= MAX_PAYLOAD,
        0 <= at <= stream,
        find_from(f, stream_tag(), at) == Some(stream),
        f.subrange(at, stream) == dict_cut(payload),
        stream + 7 + payload.len() <= f.len(),
        f.subrange(stream + 7, stream + 7 + payload.len()) == payload,
        find_from(g, stream_tag(), at) == Some(s2),
        at <= s2,
        at + 153 + 2 * decimal(payload.len()).len() <= s2,
        s2 + 7 + n2 <= g.len(),
        0 <= n2 <= usize::MAX,
        find_from(g.subrange(at, s2), length_key(), 0) == Some(l2),
        digits_to_usize(digit_prefix(g.subrange(at, s2).skip(l2 + 8))) == Some(n2 as usize),
        hex_lower(sha256(g.subrange(s2 + 7, s2 + 7 + n2))@) == g.subrange(
            at + 89 + 2 * decimal(payload.len()).len(),
            at + 153 + 2 * decimal(payload.len()).len(),
        ),
    ensures
        sha256(g.subrange(s2 + 7, s2 + 7 + n2)) == sha256(payload),
{
    broadcast use vstd::array::group_array_axioms;

    let q = g.subrange(s2 + 7, s2 + 7 + n2);
    lemma_dict_fields(payload);
    let w = decimal(payload.len()).len() as int;
    if at + 89 + 2 * w <= i < at + 153 + 2 * w {
        lemma_corrupt_checksum_only(f, g, i, at, stream, s2, payload);
        lemma_decimal_value(payload.len());
        lemma_decimal_digits(payload.len());
        assert(digits_to_usize(decimal(payload.len())) == Some(payload.len() as usize));
        assert(l2 == 49);
        assert(n2 == payload.len());
        assert(s2 == stream);
        assert(q == payload);
    } else {
        lemma_subrange_alike(f, g, i, at + 89 + 2 * w, at + 153 + 2 * w);
        assert(f.subrange(at + 89 + 2 * w, at + 153 + 2 * w) =~= dict_cut(payload).subrange(
            89 + 2 * w,
            153 + 2 * w,
        ));
        lemma_hex_injective(sha256(q)@, sha256(payload)@);
        assert(sha256(q) =~= sha256(payload));
    }
}

/// What stands before the dictionary of the embedded file ends with the end
/// of the fifth object and the head of the sixth.
#[verifier::spinoff_prover]
#[verifier::rlimit(40)]
proof fn lemma_before_ends(payload: Seq<u8>, title: Seq<char>)
    ensures
        ({
            let a = pdf_before(payload, title);
            &&& a.len() >= 16
            &&& a.subrange(a.len() - 16, a.len() as int) == encode_utf8("\nendobj\n6 0 obj\n"@)
        }),
{
    let objs = objects(payload, title);
    let a = pdf_before(payload, title);
    let b4 = body_upto(objs, 4);
    assert(objs[4] == filespec());
    assert(body_upto(objs, 5) == b4 + framed(4, filespec()));
    reveal_strlit("\nendobj\n6 0 obj\n");
    reveal_strlit("\nendobj\n");
    reveal_strlit(" 0 obj\n");
    is_ascii_chars_encode_utf8("\nendobj\n6 0 obj\n"@);
    is_ascii_chars_encode_utf8("\nendobj\n"@);
    is_ascii_chars_encode_utf8(" 0 obj\n"@);
    assert(decimal(6) == seq![54u8]);
    let e = encode_utf8("\nendobj\n"@);
    let o = encode_utf8(" 0 obj\n"@);
    let x = b4 + decimal(5) + o + filespec();
    assert(a =~= x + (e + decimal(6) + o));
    assert(a.subrange(a.len() - 16, a.len() as int) =~= e + decimal(6) + o);
    assert(e + decimal(6) + o =~= encode_utf8("\nendobj\n6 0 obj\n"@));
}

/// In a PDF document, the bytes around the marker are those of the marker
/// area: the end of the fifth object and the start of the sixth.
#[verifier::spinoff_prover]
proof fn lemma_marker_neighbourhood(payload: Seq<u8>, title: Seq<char>)
    ensures
        ({
            let f = document(objects(payload, title));
            let pd = pdf_before(payload, title).len() as int;
            &&& pd >= 16
            &&& pd + 60 <= f.len()
            &&& f.subrange(pd - 16, pd + 60) == marker_area()
        }),
{
    lemma_dict_literals();
    lemma_dict_pre(payload);
    lemma_pdf_layout(payload, title);
    lemma_before_ends(payload, title);
    let f = document(objects(payload, title));
    let a = pdf_before(payload, title);
    let d = embedded_dict(payload);
    let af = crate::inert::after_payload(payload, title);
    lemma_concat4(a, d, payload, af);
    let pd = a.len() as int;
    assert(d.subrange(0, 60) =~= dict_l1());
    assert(f.subrange(pd - 16, pd) =~= a.subrange(pd - 16, pd));
    assert(f.subrange(pd, pd + 60) =~= d.subrange(0, 60));
    assert(f.subrange(pd - 16, pd + 60) =~= f.subrange(pd - 16, pd) + f.subrange(pd, pd + 60));
}

/// In a PDF document, no place near the marker is one byte away from
/// holding it.
#[verifier::spinoff_prover]
proof fn lemma_marker_isolated(payload: Seq<u8>, title: Seq<char>)
    ensures
        ({
            let f = document(objects(payload, title));
            let at = pdf_before(payload, title).len() + 3;
            forall|j: int, d: int|
                at - 18 <= j <= at + 18 && j != at && 0 <= d < 19 ==> !near(f, marker(), j, d)
        }),
{
    lemma_marker_neighbourhood(payload, title);
    lemma_marker_area();
    lemma_marker_bytes();
    let f = document(objects(payload, title));
    let pd = pdf_before(payload, title).len() as int;
    let at = pd + 3;
    let c = marker_area();
    let m = marker();
    assert forall|j: int, d: int|
        at - 18 <= j <= at + 18 && j != at && 0 <= d < 19 implies !near(f, m, j, d) by {
        if near(f, m, j, d) {
            let jj = j - (pd - 16);
            assert forall|k: int| 0 <= k < m.len() && k != d implies #[trigger] c[jj + k] == m[k] by {
                assert(f[j + k] == m[k]);
                assert(c[jj + k] == f.subrange(pd - 16, pd + 60)[jj + k]);
            }
            assert(near(c, m, jj, d));
        }
    }
}

/// A PDF document with a title whose escaped text holds no marker, with any
/// one byte changed, is refused or read back with bytes of the payload's
/// digest.
#[verifier::spinoff_prover]
#[verifier::rlimit(40)]
proof fn lemma_corrupt_plain_title(payload: Seq<u8>, title: Seq<char>, corrupted: Seq<u8>, i: int)
    requires
        !contains(encode_utf8(escape_text(title)), marker()),
        pdf::wrap_result(payload, title) matches Ok(file) && alike_but_at(file, corrupted, i),
    ensures
        pdf::unwrap_result(corrupted) matches Ok(got) ==> sha256(got) == sha256(payload),
{
    lemma_marker_bytes();
    lemma_dict_literals();
    let f = document(objects(payload, title));
    let a = pdf_before(payload, title);
    let d = embedded_dict(payload);
    let af = crate::inert::after_payload(payload, title);
    lemma_pdf_layout(payload, title);
    lemma_concat4(a, d, payload, af);
    lemma_before_absent(payload, title);
    lemma_tail_absent(payload, title);
    lemma_dict_stream(payload);
    assert(d.subrange(0, 60) =~= dict_l1());
    assert(d.subrange(3, 22) =~= dict_l1().subrange(3, 22));
    lemma_marker_once(f, a, d, payload, af);
    let pd = a.len() as int;
    lemma_find_in_part(f, pd, d, stream_tag(), 3, d.len() - 7);
    let stream = pd + d.len() - 7;
    assert(f.subrange(pd + 3, stream) =~= dict_cut(payload));
    lemma_marker_isolated(payload, title);
    lemma_corrupt_core(f, corrupted, i, pd + 3, stream, payload);
}

/// A PDF document that the library wrote, with any one byte changed, is
/// refused by the loader or read back as bytes with the SHA-256 digest of
/// the payload it was written with. (Bytes other than the payload with that
/// digest would be a SHA-256 collision.)
#[verifier::spinoff_prover]
pub proof fn pdf_corruption(payload: Seq<u8>, title: Seq<char>, corrupted: Seq<u8>, i: int)
    requires
        pdf::wrap_result(payload, title) matches Ok(file) && alike_but_at(file, corrupted, i),
    ensures
        pdf::unwrap_result(corrupted) matches Ok(got) ==> sha256(got) == sha256(payload),
{
    if contains(encode_utf8(escape_text(title)), marker()) {
        lemma_corrupt_marked_title(payload, title, corrupted, i);
    } else {
        lemma_corrupt_plain_title(payload, title, corrupted, i);
    }
}

/// What an SVG document that the loader accepts is read as: the one start
/// tag, the end of the tag and the end tag after it, the body between them
/// that decodes to what is returned, and the checksum value: 64 bytes after
/// the key, within the tag, that are the digest of what is returned.
#[verifier::spinoff_prover]
proof fn lemma_svg_read(g: Seq<u8>) -> (r: (int, int, int, int))
    requires
        svg::unwrap_result(g) is Ok,
    ensures
        ({
            let (at, gt, be, v) = r;
            let rest = g.skip(at + 13);
            let q = svg::unwrap_result(g)->Ok_0;
            &&& find_from(g, svg::open_tag(), 0) == Some(at)
            &&& find_from(g, svg::open_tag(), at + 1) is None
            &&& 0 <= at && at + 13 <= g.len()
            &&& find_from(rest, svg::tag_end(), 0) == Some(gt)
            &&& find_from(rest, svg::close_tag(), 0) == Some(be)
            &&& 0 <= gt < be
            &&& be + 14 <= rest.len()
            &&& svg::base64_decode(svg::trim(rest.subrange(gt + 1, be))) == Ok::<
                Seq<u8>,
                Seq<char>,
            >(q)
            &&& 8 <= v && v + 64 <= gt
            &&& occurs_at(rest, svg::sha256_key(), v - 8)
            &&& rest.subrange(v, v + 64) == hex_lower(sha256(q)@)
            &&& hex_run(rest, v)
        }),
{
    lemma_svg_literals();
    let o = svg::open_tag();
    let at = find_from(g, o, 0)->Some_0;
    lemma_find_from(g, o, 0);
    let rest = g.skip(at + 13);
    let gt = find_from(rest, svg::tag_end(), 0)->Some_0;
    lemma_find_from(rest, svg::tag_end(), 0);
    let be = find_from(rest, svg::close_tag(), 0)->Some_0;
    lemma_find_from(rest, svg::close_tag(), 0);
    assert(rest.subrange(gt, gt + 1)[0] == rest[gt]);
    assert(rest.subrange(be, be + 14)[0] == rest[be]);
    let attrs = rest.take(gt);
    let k = find_from(attrs, svg::sha256_key(), 0)->Some_0;
    lemma_find_from(attrs, svg::sha256_key(), 0);
    let v = k + 8;
    lemma_find_from(attrs, svg::quote(), v);
    lemma_find_from(attrs, svg::sha256_key(), v);
    let e = svg::attr_value_end(attrs, v);
    let q = svg::unwrap_result(g)->Ok_0;
    lemma_hex_digits(sha256(q)@);
    assert(attrs.subrange(v, e) == hex_lower(sha256(q)@));
    assert(e == v + 64);
    assert(rest.subrange(v, v + 64) =~= attrs.subrange(v, e));
    assert(rest.subrange(k, k + 8) =~= attrs.subrange(k, k + 8));
    assert forall|j: int| 0 <= j < 64 implies #[trigger] is_hex_digit(rest[v + j]) by {
        assert(rest[v + j] == rest.subrange(v, v + 64)[j]);
    }
    (at, gt, be, v)
}

/// In the text after the start tag, a checksum value read from a file alike
/// but for one byte is read where it was written.
#[verifier::spinoff_prover]
proof fn lemma_svg_value_at(rf: Seq<u8>, rg: Seq<u8>, j: int, payload: Seq<u8>, v: int)
    requires
        alike_but_at(rf, rg, j),
        rf.len() >= 92,
        rf.take(92) == svg_attrs(payload) + seq![62u8],
        8 <= v,
        v + 64 <= rg.len(),
        occurs_at(rg, svg::sha256_key(), v - 8),
        hex_run(rg, v),
        v + 64 <= 91,
    ensures
        v == 26,
{
    lemma_svg_literals();
    reveal_strlit("sha256=\"");
    reveal_strlit(" ");
    is_ascii_chars_encode_utf8("sha256=\""@);
    is_ascii_chars_encode_utf8(" "@);
    let t = svg_attrs(payload) + seq![62u8];
    let key = svg::sha256_key();
    assert(rf[17] == t[17] && rf[19] == t[19] && rf[24] == t[24] && rf[25] == t[25]);
    assert(rf[90] == t[90] && rf[91] == t[91]);
    assert(t[17] == 32 && t[19] == 104 && t[24] == 61 && t[25] == 34 && t[90] == 34 && t[91] == 62);
    assert(rg.subrange(v - 8, v)[0] == rg[v - 8]);
    if v <= 17 {
        assert(is_hex_digit(rg[v + (17 - v)]));
        assert(is_hex_digit(rg[v + (24 - v)]));
    } else if v <= 24 {
        assert(is_hex_digit(rg[v + (24 - v)]));
        assert(is_hex_digit(rg[v + (25 - v)]));
    } else if v == 25 {
        assert(is_hex_digit(rg[v + 0]));
        assert(rg[17] == key[0]);
    } else if v == 27 {
        assert(is_hex_digit(rg[v + 63]));
        assert(rg[19] == key[0]);
    }
}

/// In the text after the start tag of a file alike but for one byte, the
/// tag, where an end tag follows it, ends no later than where it was written.
#[verifier::spinoff_prover]
proof fn lemma_svg_tag_end(
    rf: Seq<u8>,
    rg: Seq<u8>,
    j: int,
    payload: Seq<u8>,
    b: Seq<u8>,
    gt: int,
    be: int,
)
    requires
        alike_but_at(rf, rg, j),
        rf == svg_attrs(payload) + seq![62u8] + b + svg::close_tag() + svg_s4(),
        lacks(b, 62),
        find_from(rg, svg::tag_end(), 0) == Some(gt),
        find_from(rg, svg::close_tag(), 0) == Some(be),
        gt < be,
    ensures
        gt <= 91,
{
    lemma_svg_literals();
    lemma_svg_attrs(payload);
    reveal_strlit("</imc:program>");
    is_ascii_chars_encode_utf8("</imc:program>"@);
    let c = svg::close_tag();
    let cb = 92 + b.len() as int;
    lemma_find_from(rg, svg::tag_end(), 0);
    lemma_find_from(rg, c, 0);
    assert(rf[91] == 62);
    if gt > 91 {
        assert(!occurs_at(rg, svg::tag_end(), 91));
        assert(rg.subrange(91, 92) =~= seq![rg[91]]);
        assert(j == 91);
        assert(rf.subrange(cb, cb + 14) =~= c);
        lemma_occurs_alike(rf, rg, j, c, cb);
        assert(be <= cb);
        assert(rg.subrange(gt, gt + 1)[0] == rg[gt]);
        let x = svg_attrs(payload) + seq![62u8];
        assert(x.len() == 92);
        if gt < cb {
            assert(rf[gt] == (x + b)[gt]);
            assert((x + b)[gt] == b[gt - 92]);
            assert(rg[gt] == b[gt - 92]);
        } else if gt < cb + 13 {
            assert(rf[gt] == (x + b + c)[gt]);
            assert(rg[gt] == c[gt - cb]);
        }
    }
}

/// After the start tag, a file alike but for one byte is, where it is read
/// at all, read with bytes of the payload's digest: a change in the checksum
/// value leaves the body as written, any other change leaves the checksum.
#[verifier::spinoff_prover]
proof fn lemma_svg_corrupt_rest(
    rf: Seq<u8>,
    rg: Seq<u8>,
    j: int,
    payload: Seq<u8>,
    b: Seq<u8>,
    gt: int,
    be: int,
    v: int,
    q: Seq<u8>,
)
    requires
        alike_but_at(rf, rg, j),
        rf == svg_attrs(payload) + seq![62u8] + b + svg::close_tag() + svg_s4(),
        lacks(b, 60),
        lacks(b, 62),
        svg::trim(b) == b,
        svg::base64_decode(b) == Ok::<Seq<u8>, Seq<char>>(payload),
        find_from(rg, svg::tag_end(), 0) == Some(gt),
        find_from(rg, svg::close_tag(), 0) == Some(be),
        0 <= gt < be,
        be + 14 <= rg.len(),
        svg::base64_decode(svg::trim(rg.subrange(gt + 1, be))) == Ok::<Seq<u8>, Seq<char>>(q),
        8 <= v,
        v + 64 <= gt,
        occurs_at(rg, svg::sha256_key(), v - 8),
        rg.subrange(v, v + 64) == hex_lower(sha256(q)@),
        hex_run(rg, v),
    ensures
        sha256(q) == sha256(payload),
{
    broadcast use vstd::array::group_array_axioms;

    lemma_svg_literals();
    lemma_svg_attrs(payload);
    let x = svg_attrs(payload) + seq![62u8];
    let c = svg::close_tag();
    let h = hex_lower(sha256(payload)@);
    lemma_hex_digits(sha256(payload)@);
    assert(rf.take(92) =~= x);
    lemma_svg_tag_end(rf, rg, j, payload, b, gt, be);
    lemma_svg_value_at(rf, rg, j, payload, v);
    assert(x.subrange(26, 90) =~= h);
    if 26 <= j < 90 {
        let cb = 92 + b.len() as int;
        lemma_find_from(rg, svg::tag_end(), 0);
        lemma_find_from(rg, c, 0);
        assert(rg.subrange(gt, gt + 1)[0] == rg[gt]);
        assert(rf[90] == x[90]);
        assert(gt == 91);
        assert(rf.subrange(cb, cb + 14) =~= c);
        lemma_occurs_alike(rf, rg, j, c, cb);
        assert(be <= cb);
        if be < cb {
            assert(rg.subrange(be, be + 14)[0] == rg[be]);
            assert(c[0] == 60);
            assert(rf[be] == (x + b)[be]);
            assert((x + b)[be] == b[be - 92]);
        }
        assert(be == cb);
        lemma_subrange_alike(rf, rg, j, 92, cb);
        assert(rf.subrange(92, cb) =~= b);
        assert(q == payload);
    } else {
        lemma_subrange_alike(rf, rg, j, 26, 90);
        assert(rf.subrange(26, 90) =~= x.subrange(26, 90));
        lemma_hex_injective(sha256(q)@, sha256(payload)@);
        assert(sha256(q) =~= sha256(payload));
    }
}

/// The bytes around the start tag of the payload element in every SVG
/// document the library writes.
spec fn open_area() -> Seq<u8> {
    svg_s3() + svg::open_tag() + svg::encoding_attr() + svg_sp() + svg::sha256_key()
}

/// Around the start tag, no other place is one byte away from holding it.
#[verifier::spinoff_prover]
proof fn lemma_open_area()
    ensures
        open_area().len() == 57,
        forall|j: int, d: int|
            6 <= j <= 30 && j != 18 && 0 <= d < 13 ==> !near(open_area(), svg::open_tag(), j, d),
{
    reveal_strlit("</text>\n<metadata>");
    reveal_strlit("<imc:program ");
    reveal_strlit("encoding=\"base64\"");
    reveal_strlit(" ");
    reveal_strlit("sha256=\"");
    is_ascii_chars_encode_utf8("</text>\n<metadata>"@);
    is_ascii_chars_encode_utf8("<imc:program "@);
    is_ascii_chars_encode_utf8("encoding=\"base64\""@);
    is_ascii_chars_encode_utf8(" "@);
    is_ascii_chars_encode_utf8("sha256=\""@);
    let c = open_area();
    let m = svg::open_tag();
    assert forall|j: int, d: int| 6 <= j <= 30 && j != 18 && 0 <= d < 13 implies !near(c, m, j, d) by {
        if near(c, m, j, d) {
            if d != 0 {
                assert(c[j + 0] == m[0]);
            }
            if d != 1 {
                assert(c[j + 1] == m[1]);
            }
            if d != 2 {
                assert(c[j + 2] == m[2]);
            }
            if d != 3 {
                assert(c[j + 3] == m[3]);
            }
            if d != 4 {
                assert(c[j + 4] == m[4]);
            }
            if d != 5 {
                assert(c[j + 5] == m[5]);
            }
            if d != 6 {
                assert(c[j + 6] == m[6]);
            }
            if d != 7 {
                assert(c[j + 7] == m[7]);
            }
            if d != 8 {
                assert(c[j + 8] == m[8]);
            }
            if d != 9 {
                assert(c[j + 9] == m[9]);
            }
            if d != 10 {
                assert(c[j + 10] == m[10]);
            }
            if d != 11 {
                assert(c[j + 11] == m[11]);
            }
            if d != 12 {
                assert(c[j + 12] == m[12]);
            }
        }
    }
}

/// In an SVG document, no place near the start tag of the payload element
/// is one byte away from holding it.
#[verifier::spinoff_prover]
proof fn lemma_open_isolated(payload: Seq<u8>, title: Seq<char>, b: Seq<u8>)
    requires
        b == encode_utf8(base64_encode(payload)),
    ensures
        ({
            let f = svg::document(payload, title);
            let t = encode_utf8(xml_escape_text(title));
            let at = (svg_s1() + t + svg_s2() + t + svg_s3()).len() as int;
            &&& f == (svg_s1() + t + svg_s2() + t + svg_s3()) + svg::open_tag() + (svg_attrs(
                payload,
            ) + seq![62u8] + b + svg::close_tag() + svg_s4())
            &&& forall|j: int, d: int|
                at - 13 < j < at + 13 && j != at && 0 <= d < 13 ==> !near(
                    f,
                    svg::open_tag(),
                    j,
                    d,
                )
        }),
{
    lemma_svg_literals();
    lemma_open_area();
    let t = encode_utf8(xml_escape_text(title));
    let h = hex_lower(sha256(payload)@);
    let f = svg::document(payload, title);
    assert(svg_q() == seq![34u8, 62u8]);
    lemma_svg_shape(
        svg_s1(),
        t,
        svg_s2(),
        svg_s3(),
        svg::open_tag(),
        svg::encoding_attr(),
        svg_sp(),
        svg::sha256_key(),
        h,
        b,
        svg::close_tag(),
        svg_s4(),
    );
    let p4 = svg_s1() + t + svg_s2() + t;
    let pre = p4 + svg_s3();
    let tail = svg_attrs(payload) + seq![62u8] + b + svg::close_tag() + svg_s4();
    let at = pre.len() as int;
    let o = svg::open_tag();
    assert(f == pre + o + tail);
    reveal_strlit("</text>\n<metadata>");
    is_ascii_chars_encode_utf8("</text>\n<metadata>"@);
    assert(svg_s3().len() == 18);
    let area = f.subrange(at - 18, at + 39);
    assert forall|k: int| 0 <= k < 57 implies #[trigger] area[k] == open_area()[k] by {
        if k < 18 {
            assert(area[k] == pre[at - 18 + k]);
            assert(pre[at - 18 + k] == svg_s3()[k]);
        } else if k < 31 {
            assert(area[k] == o[k - 18]);
        } else {
            assert(area[k] == tail[k - 31]);
            assert(tail[k - 31] == svg_attrs(payload)[k - 31]);
        }
    }
    assert(area =~= open_area());
    let m = o;
    assert forall|j: int, d: int| at - 13 < j < at + 13 && j != at && 0 <= d < 13 implies !near(
        f,
        m,
        j,
        d,
    ) by {
        if near(f, m, j, d) {
            let jj = j - (at - 18);
            assert forall|k: int| 0 <= k < m.len() && k != d implies #[trigger] open_area()[jj + k]
                == m[k] by {
                assert(f[j + k] == m[k]);
                assert(open_area()[jj + k] == area[jj + k]);
            }
            assert(near(open_area(), m, jj, d));
        }
    }
}

/// An SVG document that the library wrote, with any one byte changed, is
/// refused by the loader or read back as bytes with the SHA-256 digest of
/// the payload it was written with, as far as base64's engine decodes what it
/// encoded. (Bytes other than the payload with that digest would be a SHA-256
/// collision.)
#[verifier::spinoff_prover]
pub proof fn svg_corruption(payload: Seq<u8>, title: Seq<char>, corrupted: Seq<u8>, i: int)
    requires
        svg::base64_faithful(payload),
        svg::wrap_result(payload, title) matches Ok(file) && alike_but_at(file, corrupted, i),
    ensures
        svg::unwrap_result(corrupted) matches Ok(got) ==> sha256(got) == sha256(payload),
{
    if svg::unwrap_result(corrupted) is Ok {
        lemma_svg_literals();
        let g = corrupted;
        let b = encode_utf8(base64_encode(payload));
        lemma_open_isolated(payload, title, b);
        let f = svg::document(payload, title);
        let t = encode_utf8(xml_escape_text(title));
        let pre = svg_s1() + t + svg_s2() + t + svg_s3();
        let attrs = svg_attrs(payload);
        let tail = attrs + seq![62u8] + b + svg::close_tag() + svg_s4();
        let at = pre.len() as int;
        // the start tag stands once in the file as written
        lemma_xml_escape_no_lt(title);
        lemma_encode_lacks(xml_escape_text(title), 60);
        lemma_pair_free_lacking(t, 60, 105);
        lemma_pair_free_concat(svg_s1(), t, 60, 105, 0);
        lemma_pair_free_concat(svg_s1() + t, svg_s2(), 60, 105, 0);
        lemma_pair_free_concat(svg_s1() + t + svg_s2(), t, 60, 105, 0);
        lemma_pair_free_concat(svg_s1() + t + svg_s2() + t, svg_s3(), 60, 105, 0);
        lemma_svg_attrs(payload);
        lemma_base64_bytes(payload);
        lemma_lacks_concat(attrs, seq![62u8], 60);
        lemma_lacks_concat(attrs + seq![62u8], b, 60);
        lemma_pair_free_lacking(attrs + seq![62u8] + b, 60, 105);
        lemma_pair_free_concat(attrs + seq![62u8] + b, svg::close_tag(), 60, 105, 0);
        lemma_pair_free_concat(attrs + seq![62u8] + b + svg::close_tag(), svg_s4(), 60, 105, 0);
        lemma_svg_open_once(f, pre, tail);
        // and where it stood, in the file as read
        let (a2, gt, be, v) = lemma_svg_read(g);
        lemma_corrupt_unique(f, g, i, at, svg::open_tag());
        assert(a2 == at);
        let rg = g.skip(at + 13);
        let j = i - (at + 13);
        assert(alike_but_at(tail, rg, j)) by {
            assert forall|k: int| 0 <= k < tail.len() && k != j implies #[trigger] tail[k] == rg[k] by {
                assert(tail[k] == f[at + 13 + k]);
            }
        }
        lemma_trim_plain(b);
        let q = svg::unwrap_result(g)->Ok_0;
        lemma_svg_corrupt_rest(tail, rg, j, payload, b, gt, be, v, q);
    }
}

/// In the fixed text of an SVG document, a `<` is followed by `s` only where
/// the document begins.
#[verifier::spinoff_prover]
proof fn lemma_svg_literals_script()
    ensures
        pair_free(svg_s1(), 60, 115, 1),
        svg_s1().len() > 2,
        svg_s1()[2] == 118,
        pair_free(svg_s2(), 60, 115, 0),
        pair_free(svg_s3(), 60, 115, 0),
        pair_free(svg::open_tag(), 60, 115, 0),
        pair_free(svg::encoding_attr(), 60, 115, 0),
        pair_free(svg_sp(), 60, 115, 0),
        pair_free(svg::sha256_key(), 60, 115, 0),
        pair_free(svg_q(), 60, 115, 0),
        pair_free(svg::close_tag(), 60, 115, 0),
        pair_free(svg_s4(), 60, 115, 0),
        script_tag().len() == 7,
        script_tag()[0] == 60 && script_tag()[1] == 115 && script_tag()[2] == 99,
{
    reveal_strlit(
        "<svg xmlns=\"http://www.w3.org/2000/svg\" xmlns:imc=\"urn:impossible-computer:artifact:1\" width=\"480\" height=\"120\" viewBox=\"0 0 480 120\">\n<title>",
    );
    reveal_strlit("</title>\n<text x=\"20\" y=\"60\" font-family=\"sans-serif\" font-size=\"18\">");
    reveal_strlit("</text>\n<metadata>");
    reveal_strlit(" ");
    reveal_strlit("\">");
    reveal_strlit("</metadata>\n</svg>\n");
    reveal_strlit("<imc:program ");
    reveal_strlit("</imc:program>");
    reveal_strlit("encoding=\"base64\"");
    reveal_strlit("sha256=\"");
    reveal_strlit("<script");
    is_ascii_chars_encode_utf8(
        "<svg xmlns=\"http://www.w3.org/2000/svg\" xmlns:imc=\"urn:impossible-computer:artifact:1\" width=\"480\" height=\"120\" viewBox=\"0 0 480 120\">\n<title>"@,
    );
    is_ascii_chars_encode_utf8(
        "</title>\n<text x=\"20\" y=\"60\" font-family=\"sans-serif\" font-size=\"18\">"@,
    );
    is_ascii_chars_encode_utf8("</text>\n<metadata>"@);
    is_ascii_chars_encode_utf8(" "@);
    is_ascii_chars_encode_utf8("\">"@);
    is_ascii_chars_encode_utf8("</metadata>\n</svg>\n"@);
    is_ascii_chars_encode_utf8("<imc:program "@);
    is_ascii_chars_encode_utf8("</imc:program>"@);
    is_ascii_chars_encode_utf8("encoding=\"base64\""@);
    is_ascii_chars_encode_utf8("sha256=\""@);
    is_ascii_chars_encode_utf8("<script"@);
}

/// The start of a script element.
pub open spec fn script_tag() -> Seq<u8> {
    encode_utf8("<script"@)
}

/// An SVG document that the library writes holds no script element: the
/// text `<script` stands nowhere in it, whatever the title.
#[verifier::spinoff_prover]
pub proof fn svg_has_no_script(payload: Seq<u8>, title: Seq<char>)
    requires
        svg::base64_faithful(payload),
    ensures
        svg::wrap_result(payload, title) matches Ok(file) ==> !contains(file, script_tag()),
{
    if payload.len() <= MAX_PAYLOAD {
        lemma_svg_literals_script();
        let t = encode_utf8(xml_escape_text(title));
        let h = hex_lower(sha256(payload)@);
        let b = encode_utf8(base64_encode(payload));
        let f = svg::document(payload, title);
        lemma_xml_escape_no_lt(title);
        lemma_encode_lacks(xml_escape_text(title), 60);
        lemma_hex_digits(sha256(payload)@);
        assert(lacks(h, 60));
        lemma_base64_bytes(payload);
        lemma_pair_free_lacking(t, 60, 115);
        lemma_pair_free_lacking(h, 60, 115);
        lemma_pair_free_lacking(b, 60, 115);
        let v1 = svg_s1() + t;
        let v2 = v1 + svg_s2();
        let v3 = v2 + t;
        let v4 = v3 + svg_s3();
        let v5 = v4 + svg::open_tag();
        let v6 = v5 + svg::encoding_attr();
        let v7 = v6 + svg_sp();
        let v8 = v7 + svg::sha256_key();
        let v9 = v8 + h;
        let v10 = v9 + svg_q();
        let v11 = v10 + b;
        let v12 = v11 + svg::close_tag();
        let v13 = v12 + svg_s4();
        assert(f == v13);
        lemma_pair_free_concat(svg_s1(), t, 60, 115, 1);
        lemma_pair_free_concat(v1, svg_s2(), 60, 115, 1);
        lemma_pair_free_concat(v2, t, 60, 115, 1);
        lemma_pair_free_concat(v3, svg_s3(), 60, 115, 1);
        lemma_pair_free_concat(v4, svg::open_tag(), 60, 115, 1);
        lemma_pair_free_concat(v5, svg::encoding_attr(), 60, 115, 1);
        lemma_pair_free_concat(v6, svg_sp(), 60, 115, 1);
        lemma_pair_free_concat(v7, svg::sha256_key(), 60, 115, 1);
        lemma_pair_free_concat(v8, h, 60, 115, 1);
        lemma_pair_free_concat(v9, svg_q(), 60, 115, 1);
        lemma_pair_free_concat(v10, b, 60, 115, 1);
        lemma_pair_free_concat(v11, svg::close_tag(), 60, 115, 1);
        lemma_pair_free_concat(v12, svg_s4(), 60, 115, 1);
        lemma_absent_pair_free(f, script_tag(), 1);
        assert(f[2] == svg_s1()[2]);
        assert(!occurs_at(f, script_tag(), 0)) by {
            if occurs_at(f, script_tag(), 0) {
                assert(f.subrange(0, 7)[2] == f[2]);
            }
        }
    }
}

/// Escaped PDF text is printable ASCII, and every `(` in it follows a
/// backslash.
#[verifier::spinoff_prover]
proof fn lemma_escape_shape(s: Seq<char>)
    ensures
        forall|k: int|
            0 <= k < escape_text(s).len() ==> pdf::is_ascii_printable(#[trigger] escape_text(s)[k]),
        forall|k: int|
            0 <= k < escape_text(s).len() && #[trigger] escape_text(s)[k] == '(' ==> k >= 1
                && escape_text(s)[k - 1] == '\\',
    decreases s.len(),
{
    if s.len() > 0 {
        lemma_escape_shape(s.drop_last());
        let a = escape_text(s.drop_last());
        let c = s.last();
        let b = pdf::escape_char(c);
        assert(escape_text(s) == a + b);
        assert forall|k: int| 0 <= k < b.len() implies pdf::is_ascii_printable(#[trigger] b[k]) by {
            if !(c == '(' || c == ')' || c == '\\') && pdf::is_ascii_printable(c) {
                assert(b[k] == c);
            }
        }
        assert forall|k: int| 0 <= k < b.len() && #[trigger] b[k] == '(' implies k >= 1 && b[k
            - 1] == '\\' by {
            if c == '(' || c == ')' || c == '\\' {
                assert(b == seq!['\\', c]);
            } else if pdf::is_ascii_printable(c) {
                assert(b[k] == c);
            }
        }
        assert forall|k: int| 0 <= k < (a + b).len() implies pdf::is_ascii_printable(
            #[trigger] (a + b)[k],
        ) by {
            if k < a.len() {
                assert((a + b)[k] == a[k]);
            } else {
                assert((a + b)[k] == b[k - a.len()]);
            }
        }
        assert forall|k: int| 0 <= k < (a + b).len() && #[trigger] (a + b)[k] == '(' implies k >= 1
            && (a + b)[k - 1] == '\\' by {
            if k < a.len() {
                assert((a + b)[k] == a[k]);
                assert((a + b)[k - 1] == a[k - 1]);
            } else {
                assert((a + b)[k] == b[k - a.len()]);
                if k - a.len() >= 1 {
                    assert((a + b)[k - 1] == b[k - 1 - a.len()]);
                } else {
                    assert(b[0] == '(');
                    assert(false);
                }
            }
        }
    }
}

/// Escaped PDF text as bytes: no line feed, and every `(` after a backslash.
#[verifier::spinoff_prover]
proof fn lemma_escape_bytes(t: Seq<char>)
    ensures
        ({
            let e = encode_utf8(escape_text(t));
            &&& lacks(e, 10)
            &&& forall|k: int| 0 <= k < e.len() && #[trigger] e[k] == 40 ==> k >= 1 && e[k - 1] == 92
        }),
{
    let cs = escape_text(t);
    lemma_escape_shape(t);
    assert(vstd::utf8::is_ascii_chars(cs));
    is_ascii_chars_encode_utf8(cs);
    let e = encode_utf8(cs);
    assert forall|k: int| 0 <= k < e.len() implies #[trigger] e[k] != 10 by {
        assert(e[k] == cs[k] as u8);
        assert(pdf::is_ascii_printable(cs[k]));
    }
    assert forall|k: int| 0 <= k < e.len() && #[trigger] e[k] == 40 implies k >= 1 && e[k - 1] == 92 by {
        assert(e[k] == cs[k] as u8);
        assert(pdf::is_ascii_printable(cs[k]));
        assert(cs[k] == '(');
        assert(e[k - 1] == cs[k - 1] as u8);
    }
}

/// The text after the escaped title: the end of the content stream and of
/// its object.
spec fn title_tail() -> Seq<u8> {
    encode_utf8(") Tj ET"@) + encode_utf8("\nendstream"@) + encode_utf8("\nendobj\n"@)
}

#[verifier::spinoff_prover]
proof fn lemma_title_tail()
    ensures
        title_tail().len() == 25,
        title_tail().subrange(11, 18) == stream_tag(),
        title_tail()[1] == 32,
        forall|k: int| 0 <= k < 18 && #[trigger] title_tail()[k] == 10 ==> k == 7 || k == 17,
        forall|k: int| 0 <= k < 11 ==> #[trigger] title_tail()[k] != 40,
{
    reveal_strlit(") Tj ET");
    reveal_strlit("\nendstream");
    reveal_strlit("\nendobj\n");
    reveal_strlit("stream\n");
    is_ascii_chars_encode_utf8(") Tj ET"@);
    is_ascii_chars_encode_utf8("\nendstream"@);
    is_ascii_chars_encode_utf8("\nendobj\n"@);
    is_ascii_chars_encode_utf8("stream\n"@);
    assert(title_tail().subrange(11, 18) =~= stream_tag());
}

/// Read from a marker inside the escaped title, a file alike but for one
/// byte beyond the content stream is refused: the first stream after the
/// marker is the content stream, and the text up to it holds no checksum
/// key, since every `(` of the escaped title follows a backslash.
#[verifier::spinoff_prover]
proof fn lemma_title_read_fails(
    f: Seq<u8>,
    g: Seq<u8>,
    i: int,
    pre: Seq<u8>,
    esc: Seq<u8>,
    rest: Seq<u8>,
    at: int,
)
    requires
        alike_but_at(f, g, i),
        f == pre + esc + rest,
        rest.len() >= 25,
        rest.subrange(0, 25) == title_tail(),
        lacks(esc, 10),
        forall|k: int| 0 <= k < esc.len() && #[trigger] esc[k] == 40 ==> k >= 1 && esc[k - 1] == 92,
        pre.len() <= at,
        at + 19 <= pre.len() + esc.len(),
        pre.len() + esc.len() + 18 <= i,
        find_from(g, marker(), 0) == Some(at),
    ensures
        !(pdf::unwrap_result(g) is Ok),
{
    if pdf::unwrap_result(g) is Ok {
        lemma_title_read_parts(f, g, i, pre, esc, rest, at);
    }
}

#[verifier::spinoff_prover]
proof fn lemma_title_read_parts(
    f: Seq<u8>,
    g: Seq<u8>,
    i: int,
    pre: Seq<u8>,
    esc: Seq<u8>,
    rest: Seq<u8>,
    at: int,
)
    requires
        alike_but_at(f, g, i),
        f == pre + esc + rest,
        rest.len() >= 25,
        rest.subrange(0, 25) == title_tail(),
        lacks(esc, 10),
        forall|k: int| 0 <= k < esc.len() && #[trigger] esc[k] == 40 ==> k >= 1 && esc[k - 1] == 92,
        pre.len() <= at,
        at + 19 <= pre.len() + esc.len(),
        pre.len() + esc.len() + 18 <= i,
        pdf::unwrap_result(g) is Ok,
        find_from(g, marker(), 0) == Some(at),
    ensures
        !(pdf::unwrap_result(g) is Ok),
{
    lemma_key_lengths();
    lemma_dict_literals();
    lemma_title_tail();
    let (a2, s2, l2, n2, h2) = lemma_pdf_read(g);
    let st = stream_tag();
    let t: int = pre.len() + esc.len() as int;
    assert forall|k: int| 0 <= k < 25 implies #[trigger] f[t + k] == title_tail()[k] by {
        assert(f[t + k] == rest[k]);
        assert(rest[k] == rest.subrange(0, 25)[k]);
    }
    assert forall|k: int| 0 <= k < esc.len() implies #[trigger] f[pre.len() + k] == esc[k] by {
        assert(f[pre.len() + k] == (pre + esc)[pre.len() + k]);
    }
    // the first stream after the marker starts in the tail
    lemma_find_from(g, st, at);
    assert(g.subrange(t + 11, t + 18) =~= title_tail().subrange(11, 18)) by {
        assert forall|k: int| 0 <= k < 7 implies g.subrange(t + 11, t + 18)[k] == title_tail().subrange(
            11,
            18,
        )[k] by {
            assert(g[t + 11 + k] == f[t + 11 + k]);
        }
    }
    assert(occurs_at(g, st, t + 11));
    assert(s2 <= t + 11);
    assert(g.subrange(s2, s2 + 7)[6] == g[s2 + 6]);
    assert(g.subrange(s2, s2 + 7)[0] == g[s2]);
    if s2 < t + 11 {
        assert(g[s2 + 6] == f[s2 + 6]);
        if s2 + 6 < t {
            assert(f[s2 + 6] == esc[s2 + 6 - pre.len()]);
        } else {
            assert(f[t + (s2 + 6 - t)] == title_tail()[s2 + 6 - t]);
            assert(title_tail()[s2 + 6 - t] == 10);
            assert(s2 == t + 1);
            assert(g[s2] == f[t + 1]);
        }
    }
    assert(s2 == t + 11);
    // no checksum key up to it
    let d2 = g.subrange(at, s2);
    lemma_find_from(d2, hash_key(), 0);
    let hk = hash_key();
    reveal_strlit("/IMC_SHA256 (");
    is_ascii_chars_encode_utf8("/IMC_SHA256 ("@);
    assert(hk[12] == 40 && hk[11] == 32);
    let x = at + h2 + 12;
    assert(d2.subrange(h2, h2 + 13)[12] == d2[h2 + 12]);
    assert(d2.subrange(h2, h2 + 13)[11] == d2[h2 + 11]);
    assert(g[x] == d2[h2 + 12]);
    assert(g[x - 1] == d2[h2 + 11]);
    assert(g[x] == f[x] && g[x - 1] == f[x - 1]);
    if x < t {
        let k = x - pre.len();
        assert(f[x] == esc[k]);
        assert(f[x - 1] == esc[k - 1]);
    } else {
        assert(f[t + (x - t)] == title_tail()[x - t]);
    }
}

/// What stands in a document after the escaped title.
spec fn title_rest(payload: Seq<u8>, title: Seq<char>) -> Seq<u8> {
    crate::inert::after_title() + embedded_dict(payload) + payload + crate::inert::after_payload(payload, title)
}

/// A document is what stands before the escaped title, the escaped title,
/// and the rest, which begins with the end of the content stream and holds
/// the dictionary and the payload where they were written.
#[verifier::spinoff_prover]
#[verifier::rlimit(40)]
proof fn lemma_marked_layout(payload: Seq<u8>, title: Seq<char>)
    ensures
        ({
            let f = document(objects(payload, title));
            let a0 = crate::inert::before_title(payload, title);
            let esc = encode_utf8(escape_text(title));
            let rest = title_rest(payload, title);
            let d = embedded_dict(payload);
            let pd = a0.len() + esc.len() + crate::inert::after_title().len() as int;
            &&& f == a0 + esc + rest
            &&& rest.len() >= 25
            &&& rest.subrange(0, 25) == title_tail()
            &&& crate::inert::after_title().len() >= 25
            &&& pd + d.len() + payload.len() <= f.len()
            &&& f.subrange(pd, pd + d.len()) == d
            &&& f.subrange(pd + d.len(), pd + d.len() + payload.len()) == payload
        }),
{
    lemma_title_tail();
    crate::inert::lemma_layout(payload, title);
    let f = document(objects(payload, title));
    let a0 = crate::inert::before_title(payload, title);
    let esc = encode_utf8(escape_text(title));
    let d = embedded_dict(payload);
    let a2 = crate::inert::after_payload(payload, title);
    let a1p = crate::inert::after_title();
    assert(crate::inert::between(payload) == a1p + d);
    assert(a1p.subrange(0, 25) =~= title_tail());
    let rest = title_rest(payload, title);
    assert(rest.subrange(0, 25) =~= title_tail());
    assert(f =~= a0 + esc + rest);
    assert(f =~= (a0 + esc + a1p) + d + payload + a2);
    lemma_concat4(a0 + esc + a1p, d, payload, a2);
}

/// In a document, the marker of the embedded file stands after the escaped
/// title, and read from it the document is read as written.
#[verifier::spinoff_prover]
#[verifier::rlimit(40)]
proof fn lemma_dict_after_title(payload: Seq<u8>, title: Seq<char>) -> (r: (int, int))
    requires
        payload.len() <= MAX_PAYLOAD,
    ensures
        ({
            let (at_d, stream) = r;
            let f = document(objects(payload, title));
            let t = crate::inert::before_title(payload, title).len() + encode_utf8(
                escape_text(title),
            ).len();
            &&& occurs_at(f, marker(), at_d)
            &&& t + 18 <= at_d <= stream
            &&& find_from(f, stream_tag(), at_d) == Some(stream)
            &&& f.subrange(at_d, stream) == dict_cut(payload)
            &&& stream + 7 + payload.len() <= f.len()
            &&& f.subrange(stream + 7, stream + 7 + payload.len()) == payload
        }),
{
    lemma_marker_bytes();
    lemma_dict_literals();
    lemma_dict_stream(payload);
    lemma_marked_layout(payload, title);
    let f = document(objects(payload, title));
    let d = embedded_dict(payload);
    let t: int = crate::inert::before_title(payload, title).len() + encode_utf8(
        escape_text(title),
    ).len() as int;
    let pd: int = t + crate::inert::after_title().len() as int;
    assert(d.subrange(3, 22) =~= dict_l1().subrange(3, 22));
    lemma_occurs_in_part(f, pd, d, marker(), pd + 3);
    lemma_find_in_part(f, pd, d, stream_tag(), 3, d.len() - 7);
    let stream: int = pd + d.len() as int - 7;
    assert(f.subrange(pd + 3, stream) =~= dict_cut(payload));
    (pd + 3, stream)
}

/// In a document whose escaped title holds the marker, a marker stands
/// inside the escaped title.
#[verifier::spinoff_prover]
proof fn lemma_title_marker(payload: Seq<u8>, title: Seq<char>) -> (at_t: int)
    requires
        contains(encode_utf8(escape_text(title)), marker()),
    ensures
        ({
            let f = document(objects(payload, title));
            let a0 = crate::inert::before_title(payload, title);
            let esc = encode_utf8(escape_text(title));
            &&& occurs_at(f, marker(), at_t)
            &&& a0.len() <= at_t
            &&& at_t + 19 <= a0.len() + esc.len()
        }),
{
    lemma_marker_bytes();
    lemma_marked_layout(payload, title);
    let m = marker();
    let f = document(objects(payload, title));
    let a0 = crate::inert::before_title(payload, title);
    let esc = encode_utf8(escape_text(title));
    let t: int = a0.len() + esc.len() as int;
    let e0 = choose|e: int| occurs_at(esc, m, e);
    let at_t: int = a0.len() as int + e0;
    assert(f.subrange(a0.len() as int, t) =~= esc);
    lemma_occurs_in_part(f, a0.len() as int, esc, m, at_t);
    at_t
}

/// A PDF document whose escaped title holds the marker, with any one byte
/// changed, is refused or read back with bytes of the payload's digest: one
/// change leaves either a marker of the title, read from which the file is
/// refused, or the marker of the embedded file, read from which it is read
/// as any other document.
#[verifier::spinoff_prover]
proof fn lemma_corrupt_marked_title(payload: Seq<u8>, title: Seq<char>, g: Seq<u8>, i: int)
    requires
        pdf::wrap_result(payload, title) matches Ok(file) && alike_but_at(file, g, i),
        contains(encode_utf8(escape_text(title)), marker()),
    ensures
        pdf::unwrap_result(g) matches Ok(q) ==> sha256(q) == sha256(payload),
{
    if pdf::unwrap_result(g) is Ok {
        lemma_marker_bytes();
        lemma_escape_bytes(title);
        lemma_marked_layout(payload, title);
        let at_t = lemma_title_marker(payload, title);
        let (at_d, stream) = lemma_dict_after_title(payload, title);
        let m = marker();
        let f = document(objects(payload, title));
        let a0 = crate::inert::before_title(payload, title);
        let esc = encode_utf8(escape_text(title));
        let rest = title_rest(payload, title);
        let (b2, s2, l2, n2, h2) = lemma_pdf_read(g);
        lemma_find_from(g, m, 0);
        lemma_find_from(g, m, b2 + 1);
        if at_d <= i < at_d + 19 {
            lemma_occurs_alike(f, g, i, m, at_t);
            assert(b2 == at_t);
            lemma_title_read_fails(f, g, i, a0, esc, rest, at_t);
        } else {
            lemma_occurs_alike(f, g, i, m, at_d);
            assert(b2 == at_d);
            lemma_corrupt_at(f, g, i, at_d, stream, payload);
        }
    }
}

/// `key` stands in `s`, as characters.
pub open spec fn holds_text(s: Seq<char>, key: Seq<char>) -> bool {
    exists|i: int| 0 <= i && i + key.len() <= s.len() && #[trigger] s.subrange(i, i + key.len()) == key
}

/// A text that escaping for PDF leaves as it is: printable ASCII, with no
/// parenthesis, backslash or `?`.
pub open spec fn escape_plain(key: Seq<char>) -> bool {
    forall|i: int|
        0 <= i < key.len() ==> pdf::is_ascii_printable(#[trigger] key[i]) && key[i] != '('
            && key[i] != ')' && key[i] != '\\' && key[i] != '?'
}

/// `s` ends with `e`.
spec fn ends_with(s: Seq<char>, e: Seq<char>) -> bool {
    e.len() <= s.len() && s.subrange(s.len() - e.len(), s.len() as int) == e
}

/// Where escaped text ends with the start of a plain key, or holds the key,
/// the text it was escaped from does too.
#[verifier::spinoff_prover]
#[verifier::rlimit(40)]
proof fn lemma_escape_keys(s: Seq<char>, key: Seq<char>)
    requires
        key.len() > 0,
        escape_plain(key),
    ensures
        forall|k: int|
            0 <= k <= key.len() && ends_with(escape_text(s), #[trigger] key.take(k)) ==> ends_with(
                s,
                key.take(k),
            ),
        holds_text(escape_text(s), key) ==> holds_text(s, key),
    decreases s.len(),
{
    let n = key.len() as int;
    if s.len() == 0 {
        assert forall|k: int|
            0 <= k <= key.len() && ends_with(escape_text(s), #[trigger] key.take(k)) implies ends_with(
            s,
            key.take(k),
        ) by {
            assert(key.take(k).len() == 0);
            assert(s.subrange(0, 0) =~= key.take(k));
        }
        assert(escape_text(s).len() == 0);
    } else {
        lemma_escape_keys(s.drop_last(), key);
        let s1 = s.drop_last();
        let a = escape_text(s1);
        let c = s.last();
        let b = pdf::escape_char(c);
        let e = escape_text(s);
        assert(e == a + b);
        assert(s1.push(c) =~= s);
        assert forall|k: int|
            0 <= k <= key.len() && ends_with(e, #[trigger] key.take(k)) implies ends_with(
            s,
            key.take(k),
        ) by {
            if k == 0 {
                assert(s.subrange(s.len() as int, s.len() as int) =~= key.take(0));
            } else {
                let x = key[k - 1];
                assert(key.take(k)[k - 1] == x);
                assert(e.subrange(e.len() - k, e.len() as int)[k - 1] == e[e.len() - 1]);
                assert(e[e.len() - 1] == b[b.len() - 1]);
                assert(pdf::is_ascii_printable(x) && x != '(' && x != ')' && x != '\\' && x != '?');
                if c == '(' || c == ')' || c == '\\' {
                    assert(b == seq!['\\', c]);
                } else if pdf::is_ascii_printable(c) {
                    assert(b == seq![c]);
                } else {
                    assert(b == seq!['?']);
                }
                assert(b == seq![c] && c == x);
                assert(ends_with(a, key.take(k - 1))) by {
                    assert forall|m: int| 0 <= m < k - 1 implies #[trigger] a.subrange(
                        a.len() - (k - 1),
                        a.len() as int,
                    )[m] == key.take(k - 1)[m] by {
                        assert(e.subrange(e.len() - k, e.len() as int)[m] == key.take(k)[m]);
                        assert(e[e.len() - k + m] == a[a.len() - (k - 1) + m]);
                    }
                    assert(a.subrange(a.len() - (k - 1), a.len() as int) =~= key.take(k - 1));
                }
                assert(ends_with(s1, key.take(k - 1)));
                assert forall|m: int| 0 <= m < k implies #[trigger] s.subrange(
                    s.len() - k,
                    s.len() as int,
                )[m] == key.take(k)[m] by {
                    if m < k - 1 {
                        assert(s1.subrange(s1.len() - (k - 1), s1.len() as int)[m] == key.take(
                            k - 1,
                        )[m]);
                        assert(s[s.len() - k + m] == s1[s1.len() - (k - 1) + m]);
                    }
                }
                assert(s.subrange(s.len() - k, s.len() as int) =~= key.take(k));
            }
        }
        if holds_text(e, key) {
            let i = choose|i: int|
                0 <= i && i + key.len() <= e.len() && #[trigger] e.subrange(i, i + key.len()) == key;
            if i + n <= a.len() {
                assert(a.subrange(i, i + n) =~= e.subrange(i, i + n));
                assert(holds_text(a, key));
                let i1 = choose|i1: int|
                    0 <= i1 && i1 + key.len() <= s1.len() && #[trigger] s1.subrange(
                        i1,
                        i1 + key.len(),
                    ) == key;
                assert(s.subrange(i1, i1 + n) =~= s1.subrange(i1, i1 + n));
                assert(s.subrange(i1, i1 + key.len()) == key);
            } else if i + n == e.len() {
                assert(key.take(n) =~= key);
                assert(ends_with(e, key.take(n)));
                assert(s.subrange(s.len() - n, s.len() as int) == key);
                assert(s.subrange(s.len() - n, (s.len() - n) + key.len()) == key);
            } else {
                assert(e.subrange(i, i + n)[a.len() - i] == e[a.len() as int]);
                assert(e[a.len() as int] == b[0]);
                if c == '(' || c == ')' || c == '\\' {
                    assert(b == seq!['\\', c]);
                } else if pdf::is_ascii_printable(c) {
                    assert(b == seq![c]);
                } else {
                    assert(b == seq!['?']);
                }
                assert(key[a.len() - i] == b[0]);
            }
        }
    }
}

/// Escaping a title for PDF adds no text that escaping leaves as it is:
/// where such a key stands in the escaped title, it stands in the title.
#[verifier::spinoff_prover]
pub proof fn escape_adds_no_key(title: Seq<char>, key: Seq<char>)
    requires
        key.len() > 0,
        escape_plain(key),
        !holds_text(title, key),
    ensures
        !contains(encode_utf8(escape_text(title)), encode_utf8(key)),
{
    lemma_escape_keys(title, key);
    lemma_escape_shape(title);
    let cs = escape_text(title);
    assert(vstd::utf8::is_ascii_chars(cs));
    is_ascii_chars_encode_utf8(cs);
    assert(vstd::utf8::is_ascii_chars(key));
    is_ascii_chars_encode_utf8(key);
    let e = encode_utf8(cs);
    let kb = encode_utf8(key);
    assert forall|j: int| !occurs_at(e, kb, j) by {
        if occurs_at(e, kb, j) {
            assert forall|m: int| 0 <= m < key.len() implies #[trigger] cs.subrange(
                j,
                j + key.len(),
            )[m] == key[m] by {
                assert(e.subrange(j, j + kb.len())[m] == kb[m]);
                assert(e[j + m] == cs[j + m] as u8);
                assert(kb[m] == key[m] as u8);
                assert(pdf::is_ascii_printable(cs[j + m]));
                assert(pdf::is_ascii_printable(key[m]));
            }
            assert(cs.subrange(j, j + key.len()) =~= key);
            assert(holds_text(cs, key));
        }
    }
}

/// The marker of the embedded file is text that escaping leaves as it is.
#[verifier::spinoff_prover]
proof fn lemma_marker_plain()
    ensures
        "/Type /EmbeddedFile"@.len() > 0,
        escape_plain("/Type /EmbeddedFile"@),
{
    reveal_strlit("/Type /EmbeddedFile");
}

/// Reading back a PDF document gives the payload it was written with, for
/// every title that does not hold `/Type /EmbeddedFile`.
#[verifier::spinoff_prover]
pub proof fn pdf_roundtrip_plain_title(payload: Seq<u8>, title: Seq<char>)
    requires
        !holds_text(title, "/Type /EmbeddedFile"@),
    ensures
        pdf::wrap_result(payload, title) matches Ok(file) ==> pdf::unwrap_result(file) == Ok::<
            Seq<u8>,
            Rejection,
        >(payload),
{
    lemma_marker_plain();
    escape_adds_no_key(title, "/Type /EmbeddedFile"@);
    pdf_roundtrip(payload, title);
}

/// Extracting from a container gives back the payload embedded in it; for
/// PDF, for every title that does not hold `/Type /EmbeddedFile`.
#[verifier::spinoff_prover]
pub proof fn extract_inverts_embed_plain_title(format: Format, payload: Seq<u8>, title: Seq<char>)
    requires
        format == Format::Pdf ==> !holds_text(title, "/Type /EmbeddedFile"@),
        format == Format::Svg ==> svg::base64_faithful(payload),
    ensures
        embedded(format, payload, title) matches Ok(file) ==> extracted(file) == Ok::<
            Seq<u8>,
            Rejection,
        >(payload),
{
    if format == Format::Pdf {
        lemma_marker_plain();
        escape_adds_no_key(title, "/Type /EmbeddedFile"@);
    }
    extract_inverts_embed(format, payload, title);
}

} // verus!
