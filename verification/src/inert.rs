//! What a PDF document of the library holds no more than its payload and
//! title bring in: keys of entries that make a viewer act.

use vstd::prelude::*;
use vstd::utf8::{encode_utf8, is_ascii_chars_encode_utf8};

use crate::decimal::{decimal, is_digit, lemma_decimal_digits, zero_padded};
use crate::digest::{hex_lower, lemma_hex_digits, sha256};
use crate::pdf::{
    body_upto, catalog, content, content_object, document, embedded_dict, embedded_file,
    escape_text, filespec, font, framed, header, objects, page, pages, wrap_result, xref_entries,
    xref_section,
};
use crate::laws::{dict_l1, dict_l2, dict_l3, dict_l4, escape_adds_no_key, escape_plain, holds_text};
use crate::seqs::{
    contains, foreign, lacks, lemma_absent_concat, lemma_lacks_concat, lemma_pair_free_concat,
    lemma_pair_free_lacking, occurs_at, pair_free,
};

verus! {

/// The keys of PDF entries that make a viewer act: JavaScript, a launch, an
/// action on opening, additional actions.
pub open spec fn active_keys() -> Seq<Seq<u8>> {
    seq![
        encode_utf8("/JavaScript"@),
        encode_utf8("/JS "@),
        encode_utf8("/Launch"@),
        encode_utf8("/OpenAction"@),
        encode_utf8("/AA "@),
    ]
}

/// Two bytes side by side in an active key that stand side by side nowhere
/// in the fixed text of a document: `/J`, `/O`, `/A` and `La`.
spec fn telling(c1: u8, c2: u8) -> bool {
    (c1 == 47 && (c2 == 74 || c2 == 79 || c2 == 65)) || (c1 == 76 && c2 == 97)
}

/// Each active key has a telling pair of bytes, and no line feed or
/// parenthesis.
#[verifier::spinoff_prover]
proof fn lemma_key(k: int) -> (i: int)
    requires
        0 <= k < 5,
    ensures
        0 <= i && i + 1 < active_keys()[k].len(),
        telling(active_keys()[k][i], active_keys()[k][i + 1]),
        foreign(active_keys()[k], 10),
        foreign(active_keys()[k], 40),
        foreign(active_keys()[k], 41),
{
    reveal_strlit("/JavaScript");
    reveal_strlit("/JS ");
    reveal_strlit("/Launch");
    reveal_strlit("/OpenAction");
    reveal_strlit("/AA ");
    is_ascii_chars_encode_utf8("/JavaScript"@);
    is_ascii_chars_encode_utf8("/JS "@);
    is_ascii_chars_encode_utf8("/Launch"@);
    is_ascii_chars_encode_utf8("/OpenAction"@);
    is_ascii_chars_encode_utf8("/AA "@);
    if k == 2 {
        1
    } else {
        0
    }
}

/// A text in which a telling pair of a key never stands holds no such key.
#[verifier::spinoff_prover]
proof fn lemma_absent_by_pair(s: Seq<u8>, m: Seq<u8>, i: int)
    requires
        0 <= i && i + 1 < m.len(),
        pair_free(s, m[i], m[i + 1], 0),
    ensures
        !contains(s, m),
{
    assert forall|j: int| !occurs_at(s, m, j) by {
        if occurs_at(s, m, j) {
            assert(s.subrange(j, j + m.len())[i] == s[j + i]);
            assert(s.subrange(j, j + m.len())[i + 1] == s[j + i + 1]);
        }
    }
}

/// The fixed objects hold no telling pair.
#[verifier::spinoff_prover]
proof fn lemma_fixed_objects(c1: u8, c2: u8)
    requires
        telling(c1, c2),
    ensures
        pair_free(catalog(), c1, c2, 0),
        pair_free(pages(), c1, c2, 0),
        pair_free(page(), c1, c2, 0),
        pair_free(filespec(), c1, c2, 0),
        pair_free(font(), c1, c2, 0),
{
    reveal_strlit(
        "<< /Type /Catalog /Pages 2 0 R /Names << /EmbeddedFiles << /Names [(program.imcp) 5 0 R] >> >> >>",
    );
    is_ascii_chars_encode_utf8(
        "<< /Type /Catalog /Pages 2 0 R /Names << /EmbeddedFiles << /Names [(program.imcp) 5 0 R] >> >> >>"@,
    );
    reveal_strlit("<< /Type /Pages /Kids [3 0 R] /Count 1 >>");
    is_ascii_chars_encode_utf8("<< /Type /Pages /Kids [3 0 R] /Count 1 >>"@);
    reveal_strlit(
        "<< /Type /Page /Parent 2 0 R /MediaBox [0 0 612 792] /Contents 4 0 R /Resources << /Font << /F1 7 0 R >> >> >>",
    );
    is_ascii_chars_encode_utf8(
        "<< /Type /Page /Parent 2 0 R /MediaBox [0 0 612 792] /Contents 4 0 R /Resources << /Font << /F1 7 0 R >> >> >>"@,
    );
    reveal_strlit("<< /Type /Filespec /F (program.imcp) /UF (program.imcp) /EF << /F 6 0 R >> >>");
    is_ascii_chars_encode_utf8(
        "<< /Type /Filespec /F (program.imcp) /UF (program.imcp) /EF << /F 6 0 R >> >>"@,
    );
    reveal_strlit("<< /Type /Font /Subtype /Type1 /BaseFont /Helvetica >>");
    is_ascii_chars_encode_utf8("<< /Type /Font /Subtype /Type1 /BaseFont /Helvetica >>"@);
}

/// The bytes of the fixed text around objects and streams hold neither `/`
/// nor `L`, but for the length key, which holds no telling pair.
#[verifier::spinoff_prover]
proof fn lemma_frame_literals(c1: u8, c2: u8)
    requires
        telling(c1, c2),
    ensures
        lacks(header(), c1),
        lacks(encode_utf8(" 0 obj\n"@), c1),
        lacks(encode_utf8("\nendobj\n"@), c1),
        lacks(encode_utf8("\nendstream"@), c1),
        lacks(encode_utf8(" >>\nstream\n"@), c1),
        lacks(encode_utf8(") Tj ET"@), c1),
        pair_free(encode_utf8("<< /Length "@), c1, c2, 0),
        pair_free(encode_utf8("BT /F1 18 Tf 72 720 Td ("@), c1, c2, 0),
        encode_utf8("BT /F1 18 Tf 72 720 Td ("@).len() > 0,
        encode_utf8("BT /F1 18 Tf 72 720 Td ("@).last() == 40,
        encode_utf8(") Tj ET"@).len() > 0,
        encode_utf8(") Tj ET"@)[0] == 41,
        encode_utf8("\nendstream"@).len() > 0,
        encode_utf8("\nendstream"@)[0] == 10,
{
    reveal_strlit("%PDF-1.7\n%");
    reveal_strlit("\n");
    reveal_strlit(" 0 obj\n");
    reveal_strlit("\nendobj\n");
    reveal_strlit("\nendstream");
    reveal_strlit(" >>\nstream\n");
    reveal_strlit(") Tj ET");
    reveal_strlit("<< /Length ");
    reveal_strlit("BT /F1 18 Tf 72 720 Td (");
    is_ascii_chars_encode_utf8("%PDF-1.7\n%"@);
    is_ascii_chars_encode_utf8("\n"@);
    is_ascii_chars_encode_utf8(" 0 obj\n"@);
    is_ascii_chars_encode_utf8("\nendobj\n"@);
    is_ascii_chars_encode_utf8("\nendstream"@);
    is_ascii_chars_encode_utf8(" >>\nstream\n"@);
    is_ascii_chars_encode_utf8(") Tj ET"@);
    is_ascii_chars_encode_utf8("<< /Length "@);
    is_ascii_chars_encode_utf8("BT /F1 18 Tf 72 720 Td ("@);
}

/// The fixed text of the embedded file's dictionary holds no telling pair.
#[verifier::spinoff_prover]
proof fn lemma_dict_pairs(c1: u8, c2: u8)
    requires
        telling(c1, c2),
    ensures
        pair_free(dict_l1(), c1, c2, 0),
        pair_free(dict_l2(), c1, c2, 0),
        pair_free(dict_l3(), c1, c2, 0),
        lacks(dict_l4(), c1),
        dict_l4().len() > 0,
        dict_l4().last() == 10,
{
    reveal_strlit("<< /Type /EmbeddedFile /Subtype /application#2Fjson /Length ");
    reveal_strlit(" /Params << /Size ");
    reveal_strlit(" /IMC_SHA256 (");
    reveal_strlit(") >> >>\nstream\n");
    is_ascii_chars_encode_utf8("<< /Type /EmbeddedFile /Subtype /application#2Fjson /Length "@);
    is_ascii_chars_encode_utf8(" /Params << /Size "@);
    is_ascii_chars_encode_utf8(" /IMC_SHA256 ("@);
    is_ascii_chars_encode_utf8(") >> >>\nstream\n"@);
}

/// The fixed text of the cross-reference table and trailer holds no telling
/// pair.
#[verifier::spinoff_prover]
proof fn lemma_xref_literals(c1: u8, c2: u8)
    requires
        telling(c1, c2),
    ensures
        lacks(encode_utf8("xref\n0 "@), c1),
        lacks(encode_utf8("\n0000000000 65535 f \n"@), c1),
        lacks(encode_utf8(" 00000 n \n"@), c1),
        pair_free(encode_utf8("trailer\n<< /Size "@), c1, c2, 0),
        pair_free(encode_utf8(" /Root 1 0 R >>\nstartxref\n"@), c1, c2, 0),
        lacks(encode_utf8("\n%%EOF\n"@), c1),
{
    reveal_strlit("xref\n0 ");
    reveal_strlit("\n0000000000 65535 f \n");
    reveal_strlit(" 00000 n \n");
    reveal_strlit("trailer\n<< /Size ");
    reveal_strlit(" /Root 1 0 R >>\nstartxref\n");
    reveal_strlit("\n%%EOF\n");
    is_ascii_chars_encode_utf8("xref\n0 "@);
    is_ascii_chars_encode_utf8("\n0000000000 65535 f \n"@);
    is_ascii_chars_encode_utf8(" 00000 n \n"@);
    is_ascii_chars_encode_utf8("trailer\n<< /Size "@);
    is_ascii_chars_encode_utf8(" /Root 1 0 R >>\nstartxref\n"@);
    is_ascii_chars_encode_utf8("\n%%EOF\n"@);
}

/// Numerals hold neither `/` nor `L`.
#[verifier::spinoff_prover]
proof fn lemma_numeral_lacks(n: nat, c1: u8, c2: u8)
    requires
        telling(c1, c2),
    ensures
        lacks(decimal(n), c1),
        pair_free(decimal(n), c1, c2, 0),
{
    lemma_decimal_digits(n);
}

/// An object, numbered and framed, holds no telling pair where its body
/// holds none.
#[verifier::spinoff_prover]
proof fn lemma_framed_pair_free(i: nat, body: Seq<u8>, c1: u8, c2: u8)
    requires
        telling(c1, c2),
        pair_free(body, c1, c2, 0),
    ensures
        pair_free(framed(i, body), c1, c2, 0),
{
    lemma_frame_literals(c1, c2);
    lemma_numeral_lacks(i + 1, c1, c2);
    let d = decimal(i + 1);
    let o = encode_utf8(" 0 obj\n"@);
    let e = encode_utf8("\nendobj\n"@);
    lemma_pair_free_lacking(o, c1, c2);
    lemma_pair_free_lacking(e, c1, c2);
    lemma_pair_free_concat(d, o, c1, c2, 0);
    lemma_pair_free_concat(d + o, body, c1, c2, 0);
    lemma_pair_free_concat(d + o + body, e, c1, c2, 0);
}

/// The header and the first objects hold no telling pair where the objects
/// hold none.
#[verifier::spinoff_prover]
proof fn lemma_body_pair_free(objs: Seq<Seq<u8>>, k: nat, c1: u8, c2: u8)
    requires
        telling(c1, c2),
        k <= objs.len(),
        forall|i: int| 0 <= i < k ==> pair_free(#[trigger] objs[i], c1, c2, 0),
    ensures
        pair_free(body_upto(objs, k), c1, c2, 0),
    decreases k,
{
    lemma_frame_literals(c1, c2);
    if k == 0 {
        lemma_pair_free_lacking(header(), c1, c2);
    } else {
        lemma_body_pair_free(objs, (k - 1) as nat, c1, c2);
        lemma_framed_pair_free((k - 1) as nat, objs[k - 1], c1, c2);
        lemma_pair_free_concat(
            body_upto(objs, (k - 1) as nat),
            framed((k - 1) as nat, objs[k - 1]),
            c1,
            c2,
            0,
        );
    }
}

/// Cross-reference entries hold no byte that is neither a digit nor one of
/// the text of an entry line.
#[verifier::spinoff_prover]
pub(crate) proof fn lemma_entries_lack(objs: Seq<Seq<u8>>, k: nat, c: u8)
    requires
        !is_digit(c),
        lacks(encode_utf8(" 00000 n \n"@), c),
    ensures
        lacks(xref_entries(objs, k), c),
    decreases k,
{
    if k > 0 {
        lemma_entries_lack(objs, (k - 1) as nat, c);
        let n = body_upto(objs, (k - 1) as nat).len();
        lemma_decimal_digits(n);
        assert(lacks(zero_padded(n, 10), c));
        lemma_lacks_concat(xref_entries(objs, (k - 1) as nat), zero_padded(n, 10), c);
        lemma_lacks_concat(
            xref_entries(objs, (k - 1) as nat) + zero_padded(n, 10),
            encode_utf8(" 00000 n \n"@),
            c,
        );
    }
}

/// The cross-reference table and trailer hold a pair of bytes only where
/// their fixed text does.
#[verifier::spinoff_prover]
pub(crate) proof fn lemma_xref_pair_free(objs: Seq<Seq<u8>>, c1: u8, c2: u8)
    requires
        !is_digit(c1),
        lacks(encode_utf8("xref\n0 "@), c1),
        lacks(encode_utf8("\n0000000000 65535 f \n"@), c1),
        lacks(encode_utf8(" 00000 n \n"@), c1),
        pair_free(encode_utf8("trailer\n<< /Size "@), c1, c2, 0),
        pair_free(encode_utf8(" /Root 1 0 R >>\nstartxref\n"@), c1, c2, 0),
        lacks(encode_utf8("\n%%EOF\n"@), c1),
    ensures
        pair_free(xref_section(objs), c1, c2, 0),
{
    let p1 = encode_utf8("xref\n0 "@);
    let d1 = decimal(objs.len() + 1);
    let p2 = encode_utf8("\n0000000000 65535 f \n"@);
    let en = xref_entries(objs, objs.len());
    let p3 = encode_utf8("trailer\n<< /Size "@);
    let p4 = encode_utf8(" /Root 1 0 R >>\nstartxref\n"@);
    let d2 = decimal(body_upto(objs, objs.len()).len());
    let p5 = encode_utf8("\n%%EOF\n"@);
    lemma_decimal_digits(objs.len() + 1);
    lemma_decimal_digits(body_upto(objs, objs.len()).len());
    lemma_entries_lack(objs, objs.len(), c1);
    lemma_pair_free_lacking(p1, c1, c2);
    lemma_pair_free_lacking(d1, c1, c2);
    lemma_pair_free_lacking(p2, c1, c2);
    lemma_pair_free_lacking(en, c1, c2);
    lemma_pair_free_lacking(d2, c1, c2);
    lemma_pair_free_lacking(p5, c1, c2);
    lemma_pair_free_concat(p1, d1, c1, c2, 0);
    lemma_pair_free_concat(p1 + d1, p2, c1, c2, 0);
    lemma_pair_free_concat(p1 + d1 + p2, en, c1, c2, 0);
    lemma_pair_free_concat(p1 + d1 + p2 + en, p3, c1, c2, 0);
    lemma_pair_free_concat(p1 + d1 + p2 + en + p3, d1, c1, c2, 0);
    lemma_pair_free_concat(p1 + d1 + p2 + en + p3 + d1, p4, c1, c2, 0);
    lemma_pair_free_concat(p1 + d1 + p2 + en + p3 + d1 + p4, d2, c1, c2, 0);
    lemma_pair_free_concat(p1 + d1 + p2 + en + p3 + d1 + p4 + d2, p5, c1, c2, 0);
}

/// What stands in a document before the escaped title.
pub(crate) open spec fn before_title(payload: Seq<u8>, title: Seq<char>) -> Seq<u8> {
    body_upto(objects(payload, title), 3) + decimal(4) + encode_utf8(" 0 obj\n"@) + encode_utf8(
        "<< /Length "@,
    ) + decimal(content(title).len()) + encode_utf8(" >>\nstream\n"@) + encode_utf8(
        "BT /F1 18 Tf 72 720 Td ("@,
    )
}

/// What stands in a document after the escaped title and before the
/// dictionary of the embedded file.
pub(crate) open spec fn after_title() -> Seq<u8> {
    encode_utf8(") Tj ET"@) + encode_utf8("\nendstream"@) + encode_utf8("\nendobj\n"@) + framed(
        4,
        filespec(),
    ) + decimal(6) + encode_utf8(" 0 obj\n"@)
}

/// What stands in a document between the escaped title and the payload.
pub(crate) open spec fn between(payload: Seq<u8>) -> Seq<u8> {
    after_title() + embedded_dict(payload)
}

/// What stands in a document after the payload.
pub(crate) open spec fn after_payload(payload: Seq<u8>, title: Seq<char>) -> Seq<u8> {
    encode_utf8("\nendstream"@) + encode_utf8("\nendobj\n"@) + framed(6, font()) + xref_section(
        objects(payload, title),
    )
}

#[verifier::spinoff_prover]
proof fn lemma_shape(
    b3: Seq<u8>,
    d4: Seq<u8>,
    o: Seq<u8>,
    l: Seq<u8>,
    dn: Seq<u8>,
    l2: Seq<u8>,
    c1: Seq<u8>,
    esc: Seq<u8>,
    c2: Seq<u8>,
    es: Seq<u8>,
    e: Seq<u8>,
    f4: Seq<u8>,
    d6: Seq<u8>,
    dict: Seq<u8>,
    p: Seq<u8>,
    f6: Seq<u8>,
    xs: Seq<u8>,
)
    ensures
        b3 + (d4 + o + (l + dn + l2 + (c1 + esc + c2) + es) + e) + f4 + (d6 + o + (dict + p + es)
            + e) + f6 + xs == (b3 + d4 + o + l + dn + l2 + c1) + esc + (c2 + es + e + f4 + d6 + o
            + dict) + p + (es + e + f6 + xs),
{
    assert(b3 + (d4 + o + (l + dn + l2 + (c1 + esc + c2) + es) + e) + f4 + (d6 + o + (dict + p
        + es) + e) + f6 + xs =~= (b3 + d4 + o + l + dn + l2 + c1) + esc + (c2 + es + e + f4 + d6
        + o + dict) + p + (es + e + f6 + xs));
}

/// A document is what stands before the escaped title, the escaped title,
/// what stands between it and the payload, the payload, and what follows.
#[verifier::spinoff_prover]
pub(crate) proof fn lemma_layout(payload: Seq<u8>, title: Seq<char>)
    ensures
        document(objects(payload, title)) == before_title(payload, title) + encode_utf8(
            escape_text(title),
        ) + between(payload) + payload + after_payload(payload, title),
{
    let objs = objects(payload, title);
    assert(objs.len() == 7);
    assert(objs[3] == content_object(title));
    assert(objs[4] == filespec());
    assert(objs[5] == embedded_file(payload));
    assert(objs[6] == font());
    let b3 = body_upto(objs, 3);
    assert(body_upto(objs, 4) == b3 + framed(3, content_object(title)));
    assert(body_upto(objs, 5) == body_upto(objs, 4) + framed(4, filespec()));
    assert(body_upto(objs, 6) == body_upto(objs, 5) + framed(5, embedded_file(payload)));
    assert(body_upto(objs, 7) == body_upto(objs, 6) + framed(6, font()));
    lemma_shape(
        b3,
        decimal(4),
        encode_utf8(" 0 obj\n"@),
        encode_utf8("<< /Length "@),
        decimal(content(title).len()),
        encode_utf8(" >>\nstream\n"@),
        encode_utf8("BT /F1 18 Tf 72 720 Td ("@),
        encode_utf8(escape_text(title)),
        encode_utf8(") Tj ET"@),
        encode_utf8("\nendstream"@),
        encode_utf8("\nendobj\n"@),
        framed(4, filespec()),
        decimal(6),
        embedded_dict(payload),
        payload,
        framed(6, font()),
        xref_section(objs),
    );
}

/// The fixed parts of a document hold no telling pair; they meet the title
/// and the payload at parentheses and line feeds.
#[verifier::spinoff_prover]
proof fn lemma_parts_pair_free(payload: Seq<u8>, title: Seq<char>, c1: u8, c2: u8)
    requires
        telling(c1, c2),
    ensures
        pair_free(before_title(payload, title), c1, c2, 0),
        pair_free(between(payload), c1, c2, 0),
        pair_free(after_payload(payload, title), c1, c2, 0),
        before_title(payload, title).len() > 0,
        before_title(payload, title).last() == 40,
        between(payload).len() > 0,
        between(payload)[0] == 41,
        between(payload).last() == 10,
        after_payload(payload, title).len() > 0,
        after_payload(payload, title)[0] == 10,
{
    lemma_fixed_objects(c1, c2);
    lemma_frame_literals(c1, c2);
    lemma_dict_pairs(c1, c2);
    let objs = objects(payload, title);
    assert forall|i: int| 0 <= i < 3 implies pair_free(#[trigger] objs[i], c1, c2, 0) by {}
    lemma_body_pair_free(objs, 3, c1, c2);
    let o = encode_utf8(" 0 obj\n"@);
    let e = encode_utf8("\nendobj\n"@);
    let es = encode_utf8("\nendstream"@);
    let c2s = encode_utf8(") Tj ET"@);
    lemma_pair_free_lacking(o, c1, c2);
    lemma_pair_free_lacking(e, c1, c2);
    lemma_pair_free_lacking(es, c1, c2);
    lemma_pair_free_lacking(c2s, c1, c2);
    lemma_pair_free_lacking(encode_utf8(" >>\nstream\n"@), c1, c2);
    lemma_numeral_lacks(4, c1, c2);
    lemma_numeral_lacks(6, c1, c2);
    lemma_numeral_lacks(content(title).len(), c1, c2);
    lemma_numeral_lacks(payload.len(), c1, c2);
    // before the title
    let b3 = body_upto(objs, 3);
    let x1 = b3 + decimal(4);
    let x2 = x1 + o;
    let x3 = x2 + encode_utf8("<< /Length "@);
    let x4 = x3 + decimal(content(title).len());
    let x5 = x4 + encode_utf8(" >>\nstream\n"@);
    let x6 = x5 + encode_utf8("BT /F1 18 Tf 72 720 Td ("@);
    lemma_pair_free_concat(b3, decimal(4), c1, c2, 0);
    lemma_pair_free_concat(x1, o, c1, c2, 0);
    lemma_pair_free_concat(x2, encode_utf8("<< /Length "@), c1, c2, 0);
    lemma_pair_free_concat(x3, decimal(content(title).len()), c1, c2, 0);
    lemma_pair_free_concat(x4, encode_utf8(" >>\nstream\n"@), c1, c2, 0);
    lemma_pair_free_concat(x5, encode_utf8("BT /F1 18 Tf 72 720 Td ("@), c1, c2, 0);
    assert(x6 == before_title(payload, title));
    // the dictionary of the embedded file
    let dn = decimal(payload.len());
    let h = hex_lower(sha256(payload)@);
    lemma_hex_digits(sha256(payload)@);
    assert(lacks(h, c1));
    lemma_pair_free_lacking(h, c1, c2);
    let l1 = dict_l1();
    let l2 = dict_l2();
    let l3 = dict_l3();
    let l4 = dict_l4();
    lemma_pair_free_lacking(l4, c1, c2);
    lemma_pair_free_concat(l1, dn, c1, c2, 0);
    lemma_pair_free_concat(l1 + dn, l2, c1, c2, 0);
    lemma_pair_free_concat(l1 + dn + l2, dn, c1, c2, 0);
    lemma_pair_free_concat(l1 + dn + l2 + dn, l3, c1, c2, 0);
    lemma_pair_free_concat(l1 + dn + l2 + dn + l3, h, c1, c2, 0);
    lemma_pair_free_concat(l1 + dn + l2 + dn + l3 + h, l4, c1, c2, 0);
    let dict = embedded_dict(payload);
    assert(dict == l1 + dn + l2 + dn + l3 + h + l4);
    // between the title and the payload
    lemma_framed_pair_free(4, filespec(), c1, c2);
    let f4 = framed(4, filespec());
    let y1 = c2s + es;
    let y2 = y1 + e;
    let y3 = y2 + f4;
    let y4 = y3 + decimal(6);
    let y5 = y4 + o;
    let y6 = y5 + dict;
    lemma_pair_free_concat(c2s, es, c1, c2, 0);
    lemma_pair_free_concat(y1, e, c1, c2, 0);
    lemma_pair_free_concat(y2, f4, c1, c2, 0);
    lemma_pair_free_concat(y3, decimal(6), c1, c2, 0);
    lemma_pair_free_concat(y4, o, c1, c2, 0);
    lemma_pair_free_concat(y5, dict, c1, c2, 0);
    assert(y6 == between(payload));
    assert(y6[0] == c2s[0]);
    assert(y6.last() == l4.last());
    // after the payload
    lemma_framed_pair_free(6, font(), c1, c2);
    lemma_xref_literals(c1, c2);
    lemma_xref_pair_free(objs, c1, c2);
    let f6 = framed(6, font());
    let xs = xref_section(objs);
    lemma_pair_free_concat(es, e, c1, c2, 0);
    lemma_pair_free_concat(es + e, f6, c1, c2, 0);
    lemma_pair_free_concat(es + e + f6, xs, c1, c2, 0);
    assert(es + e + f6 + xs == after_payload(payload, title));
    assert((es + e + f6 + xs)[0] == es[0]);
}

/// A PDF document that the library writes holds a key of an entry that makes
/// a viewer act (JavaScript, a launch, an action on opening, additional
/// actions) only where its payload or its escaped title holds it: the
/// document itself adds none.
#[verifier::spinoff_prover]
pub proof fn pdf_is_inert(payload: Seq<u8>, title: Seq<char>, k: int)
    requires
        0 <= k < active_keys().len(),
        !contains(payload, active_keys()[k]),
        !contains(encode_utf8(escape_text(title)), active_keys()[k]),
    ensures
        wrap_result(payload, title) matches Ok(file) ==> !contains(file, active_keys()[k]),
{
    let m = active_keys()[k];
    let i = lemma_key(k);
    let (c1, c2) = (m[i], m[i + 1]);
    lemma_parts_pair_free(payload, title, c1, c2);
    lemma_layout(payload, title);
    let a0 = before_title(payload, title);
    let esc = encode_utf8(escape_text(title));
    let a1 = between(payload);
    let a2 = after_payload(payload, title);
    lemma_absent_by_pair(a0, m, i);
    lemma_absent_by_pair(a1, m, i);
    lemma_absent_by_pair(a2, m, i);
    lemma_absent_concat(a0, esc, m);
    lemma_absent_concat(a0 + esc, a1, m);
    assert((a0 + esc + a1).last() == a1.last());
    lemma_absent_concat(a0 + esc + a1, payload, m);
    lemma_absent_concat(a0 + esc + a1 + payload, a2, m);
}

/// The keys of entries that make a viewer act, as text.
pub open spec fn active_key_texts() -> Seq<Seq<char>> {
    seq!["/JavaScript"@, "/JS "@, "/Launch"@, "/OpenAction"@, "/AA "@]
}

/// A PDF document that the library writes holds a key of an entry that makes
/// a viewer act only where its payload does, for every title that does not
/// hold that key.
#[verifier::spinoff_prover]
pub proof fn pdf_is_inert_plain_title(payload: Seq<u8>, title: Seq<char>, k: int)
    requires
        0 <= k < active_keys().len(),
        !contains(payload, active_keys()[k]),
        !holds_text(title, active_key_texts()[k]),
    ensures
        wrap_result(payload, title) matches Ok(file) ==> !contains(file, active_keys()[k]),
{
    reveal_strlit("/JavaScript");
    reveal_strlit("/JS ");
    reveal_strlit("/Launch");
    reveal_strlit("/OpenAction");
    reveal_strlit("/AA ");
    assert(active_keys()[k] == encode_utf8(active_key_texts()[k]));
    assert(escape_plain(active_key_texts()[k]));
    escape_adds_no_key(title, active_key_texts()[k]);
    pdf_is_inert(payload, title, k);
}

} // verus!
