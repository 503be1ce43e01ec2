//! The markup of an SVG document of the library is the template's own: every
//! `<` in it opens one of the template's tags, and none of those tags carries
//! an event handler or is a script.

use vstd::prelude::*;
use vstd::utf8::{encode_utf8, is_ascii_chars_encode_utf8};

use crate::digest::{hex_lower, is_hex_digit, lemma_hex_digits, sha256};
use crate::laws::{
    lemma_base64_bytes, lemma_encode_lacks, lemma_svg_literals, lemma_svg_shape,
    lemma_xml_escape_no_lt, svg_q, svg_s1, svg_s2, svg_s3, svg_s4, svg_sp,
};
use crate::seqs::{contains, lacks, lemma_absent_pair_free, occurs_at, pair_free};
use crate::svg;
use crate::svg::{base64_encode, xml_escape_text};

verus! {

/// The tags of every SVG document the library writes, but for the start tag
/// of the payload element, which carries the checksum.
pub open spec fn fixed_tags() -> Seq<Seq<u8>> {
    seq![
        encode_utf8(
            "<svg xmlns=\"http://www.w3.org/2000/svg\" xmlns:imc=\"urn:impossible-computer:artifact:1\" width=\"480\" height=\"120\" viewBox=\"0 0 480 120\">"@,
        ),
        encode_utf8("<title>"@),
        encode_utf8("</title>"@),
        encode_utf8("<text x=\"20\" y=\"60\" font-family=\"sans-serif\" font-size=\"18\">"@),
        encode_utf8("</text>"@),
        encode_utf8("<metadata>"@),
        encode_utf8("</imc:program>"@),
        encode_utf8("</metadata>"@),
        encode_utf8("</svg>"@),
    ]
}

/// The start tag of the payload element, up to its checksum value.
pub open spec fn payload_tag_head() -> Seq<u8> {
    encode_utf8("<imc:program encoding=\"base64\" sha256=\""@)
}

/// The text of an attribute that begins with `on`, such as an event handler.
pub open spec fn handler_attr() -> Seq<u8> {
    encode_utf8(" on"@)
}

/// A tag of the template starts at `k`: one of the fixed tags, or the start
/// tag of the payload element with 64 hexadecimal digits of checksum, a
/// closing quote and `>`.
pub open spec fn template_tag_at(f: Seq<u8>, k: int) -> bool {
    ||| exists|t: int| 0 <= t < fixed_tags().len() && occurs_at(f, #[trigger] fixed_tags()[t], k)
    ||| {
        &&& occurs_at(f, payload_tag_head(), k)
        &&& forall|j: int| 0 <= j < 64 ==> #[trigger] is_hex_digit(f[k + 39 + j])
        &&& occurs_at(f, seq![34u8, 62u8], k + 103)
    }
}

/// Every `<` of `s`, standing at `p` in `g`, opens a tag of the template.
spec fn tags_from(g: Seq<u8>, p: int, s: Seq<u8>) -> bool {
    forall|j: int| 0 <= j < s.len() && #[trigger] s[j] == 60 ==> template_tag_at(g, p + j)
}

/// The template's tags hold no attribute that begins with `on` and no
/// `<script`; each ends at its first `>`; the start tag of the payload
/// element holds no `>` before its checksum value, and the checksum value,
/// hexadecimal digits, holds neither a space nor `<` nor `>`.
#[verifier::spinoff_prover]
pub proof fn template_tags_hold_no_handler()
    ensures
        forall|t: int|
            0 <= t < fixed_tags().len() ==> {
                &&& !contains(#[trigger] fixed_tags()[t], handler_attr())
                &&& !contains(fixed_tags()[t], crate::laws::script_tag())
                &&& fixed_tags()[t].len() > 0
                &&& fixed_tags()[t].last() == 62
                &&& forall|j: int|
                    0 <= j < fixed_tags()[t].len() - 1 ==> fixed_tags()[t][j] != 62
            },
        !contains(payload_tag_head(), handler_attr()),
        !contains(payload_tag_head(), crate::laws::script_tag()),
        lacks(payload_tag_head(), 62),
        forall|b: u8| is_hex_digit(b) ==> b != 32 && b != 60 && b != 62,
{
    lemma_head_shape();
    assert forall|t: int| 0 <= t < fixed_tags().len() implies {
        &&& !contains(#[trigger] fixed_tags()[t], handler_attr())
        &&& !contains(fixed_tags()[t], crate::laws::script_tag())
        &&& fixed_tags()[t].len() > 0
        &&& fixed_tags()[t].last() == 62
        &&& forall|j: int| 0 <= j < fixed_tags()[t].len() - 1 ==> fixed_tags()[t][j] != 62
    } by {
        lemma_tag_shape(t);
        let s = fixed_tags()[t];
        lemma_absent_pair_free(s, handler_attr(), 0);
        assert forall|j: int| 0 <= j implies !occurs_at(s, crate::laws::script_tag(), j) by {
            if occurs_at(s, crate::laws::script_tag(), j) {
                let w = s.subrange(j, j + 7);
                assert(w[0] == s[j] && w[1] == s[j + 1] && w[2] == s[j + 2]);
                if j >= 1 {
                    assert(s.skip(1)[j - 1] == s[j]);
                }
            }
        }
    }
    lemma_absent_pair_free(payload_tag_head(), handler_attr(), 0);
    lemma_absent_pair_free(payload_tag_head(), crate::laws::script_tag(), 0);
}

/// The fixed text of the document, cut at its tags.
#[verifier::spinoff_prover]
#[verifier::rlimit(40)]
proof fn lemma_tag_cuts()
    ensures
        svg_s1() == fixed_tags()[0] + seq![10u8] + fixed_tags()[1],
        svg_s2() == fixed_tags()[2] + seq![10u8] + fixed_tags()[3],
        svg_s3() == fixed_tags()[4] + seq![10u8] + fixed_tags()[5],
        svg::close_tag() == fixed_tags()[6],
        svg_s4() == fixed_tags()[7] + seq![10u8] + fixed_tags()[8] + seq![10u8],
        svg::open_tag() + svg::encoding_attr() + svg_sp() + svg::sha256_key() == payload_tag_head(),
        svg_q() == seq![34u8, 62u8],
{
    reveal_strlit(
        "<svg xmlns=\"http://www.w3.org/2000/svg\" xmlns:imc=\"urn:impossible-computer:artifact:1\" width=\"480\" height=\"120\" viewBox=\"0 0 480 120\">\n<title>",
    );
    reveal_strlit(
        "<svg xmlns=\"http://www.w3.org/2000/svg\" xmlns:imc=\"urn:impossible-computer:artifact:1\" width=\"480\" height=\"120\" viewBox=\"0 0 480 120\">",
    );
    reveal_strlit("</title>\n<text x=\"20\" y=\"60\" font-family=\"sans-serif\" font-size=\"18\">");
    reveal_strlit("<text x=\"20\" y=\"60\" font-family=\"sans-serif\" font-size=\"18\">");
    reveal_strlit("</text>\n<metadata>");
    reveal_strlit("</metadata>\n</svg>\n");
    reveal_strlit("<title>");
    reveal_strlit("</title>");
    reveal_strlit("</text>");
    reveal_strlit("<metadata>");
    reveal_strlit("</imc:program>");
    reveal_strlit("</metadata>");
    reveal_strlit("</svg>");
    reveal_strlit("<imc:program ");
    reveal_strlit("encoding=\"base64\"");
    reveal_strlit(" ");
    reveal_strlit("sha256=\"");
    reveal_strlit("<imc:program encoding=\"base64\" sha256=\"");
    reveal_strlit("\">");
    reveal_strlit(" on");
    reveal_strlit("<script");
    is_ascii_chars_encode_utf8(
        "<svg xmlns=\"http://www.w3.org/2000/svg\" xmlns:imc=\"urn:impossible-computer:artifact:1\" width=\"480\" height=\"120\" viewBox=\"0 0 480 120\">\n<title>"@,
    );
    is_ascii_chars_encode_utf8(
        "<svg xmlns=\"http://www.w3.org/2000/svg\" xmlns:imc=\"urn:impossible-computer:artifact:1\" width=\"480\" height=\"120\" viewBox=\"0 0 480 120\">"@,
    );
    is_ascii_chars_encode_utf8(
        "</title>\n<text x=\"20\" y=\"60\" font-family=\"sans-serif\" font-size=\"18\">"@,
    );
    is_ascii_chars_encode_utf8(
        "<text x=\"20\" y=\"60\" font-family=\"sans-serif\" font-size=\"18\">"@,
    );
    is_ascii_chars_encode_utf8("</text>\n<metadata>"@);
    is_ascii_chars_encode_utf8("</metadata>\n</svg>\n"@);
    is_ascii_chars_encode_utf8("<title>"@);
    is_ascii_chars_encode_utf8("</title>"@);
    is_ascii_chars_encode_utf8("</text>"@);
    is_ascii_chars_encode_utf8("<metadata>"@);
    is_ascii_chars_encode_utf8("</imc:program>"@);
    is_ascii_chars_encode_utf8("</metadata>"@);
    is_ascii_chars_encode_utf8("</svg>"@);
    is_ascii_chars_encode_utf8("<imc:program "@);
    is_ascii_chars_encode_utf8("encoding=\"base64\""@);
    is_ascii_chars_encode_utf8(" "@);
    is_ascii_chars_encode_utf8("sha256=\""@);
    is_ascii_chars_encode_utf8("<imc:program encoding=\"base64\" sha256=\""@);
    is_ascii_chars_encode_utf8("\">"@);
    is_ascii_chars_encode_utf8(" on"@);
    is_ascii_chars_encode_utf8("<script"@);
    assert(svg_s1() =~= fixed_tags()[0] + seq![10u8] + fixed_tags()[1]);
    assert(svg_s2() =~= fixed_tags()[2] + seq![10u8] + fixed_tags()[3]);
    assert(svg_s3() =~= fixed_tags()[4] + seq![10u8] + fixed_tags()[5]);
    assert(svg_s4() =~= fixed_tags()[7] + seq![10u8] + fixed_tags()[8] + seq![10u8]);
    assert(svg::open_tag() + svg::encoding_attr() + svg_sp() + svg::sha256_key()
        =~= payload_tag_head());
    assert(svg_q() =~= seq![34u8, 62u8]);
}

/// The start tag of the payload element, up to its checksum value: `<` only
/// first, no `>`, no ` o`, no `<s`.
#[verifier::spinoff_prover]
proof fn lemma_head_shape()
    ensures
        payload_tag_head().len() == 39,
        payload_tag_head()[0] == 60,
        lacks(payload_tag_head().skip(1), 60),
        lacks(payload_tag_head(), 62),
        pair_free(payload_tag_head(), 32, 111, 0),
        pair_free(payload_tag_head(), 60, 115, 0),
        handler_attr().len() == 3 && handler_attr()[0] == 32 && handler_attr()[1] == 111,
        crate::laws::script_tag().len() == 7 && crate::laws::script_tag()[0] == 60
            && crate::laws::script_tag()[1] == 115 && crate::laws::script_tag()[2] == 99,
{
    reveal_strlit("<imc:program encoding=\"base64\" sha256=\"");
    reveal_strlit(" on");
    reveal_strlit("<script");
    is_ascii_chars_encode_utf8("<imc:program encoding=\"base64\" sha256=\""@);
    is_ascii_chars_encode_utf8(" on"@);
    is_ascii_chars_encode_utf8("<script"@);
}

/// A fixed tag: `<` only first, `>` only last, no ` o`, and `<s` only
/// first and not followed by `c`.
#[verifier::spinoff_prover]
#[verifier::rlimit(40)]
proof fn lemma_tag_shape(t: int)
    requires
        0 <= t < 9,
    ensures
        fixed_tags().len() == 9,
        fixed_tags()[t].len() > 2,
        fixed_tags()[t][0] == 60,
        lacks(fixed_tags()[t].skip(1), 60),
        fixed_tags()[t].last() == 62,
        forall|j: int| 0 <= j < fixed_tags()[t].len() - 1 ==> fixed_tags()[t][j] != 62,
        pair_free(fixed_tags()[t], 32, 111, 0),
        fixed_tags()[t][1] == 115 ==> fixed_tags()[t][2] != 99,
{
    if t == 0 {
        reveal_strlit(
            "<svg xmlns=\"http://www.w3.org/2000/svg\" xmlns:imc=\"urn:impossible-computer:artifact:1\" width=\"480\" height=\"120\" viewBox=\"0 0 480 120\">",
        );
        is_ascii_chars_encode_utf8(
            "<svg xmlns=\"http://www.w3.org/2000/svg\" xmlns:imc=\"urn:impossible-computer:artifact:1\" width=\"480\" height=\"120\" viewBox=\"0 0 480 120\">"@,
        );
    } else if t == 1 {
        reveal_strlit("<title>");
        is_ascii_chars_encode_utf8("<title>"@);
    } else if t == 2 {
        reveal_strlit("</title>");
        is_ascii_chars_encode_utf8("</title>"@);
    } else if t == 3 {
        reveal_strlit("<text x=\"20\" y=\"60\" font-family=\"sans-serif\" font-size=\"18\">");
        is_ascii_chars_encode_utf8(
            "<text x=\"20\" y=\"60\" font-family=\"sans-serif\" font-size=\"18\">"@,
        );
    } else if t == 4 {
        reveal_strlit("</text>");
        is_ascii_chars_encode_utf8("</text>"@);
    } else if t == 5 {
        reveal_strlit("<metadata>");
        is_ascii_chars_encode_utf8("<metadata>"@);
    } else if t == 6 {
        reveal_strlit("</imc:program>");
        is_ascii_chars_encode_utf8("</imc:program>"@);
    } else if t == 7 {
        reveal_strlit("</metadata>");
        is_ascii_chars_encode_utf8("</metadata>"@);
    } else {
        reveal_strlit("</svg>");
        is_ascii_chars_encode_utf8("</svg>"@);
    }
}

/// Every `<` of `s`, standing at `p` in `g`, opens a tag of the template.
proof fn lemma_tags_concat(g: Seq<u8>, p: int, a: Seq<u8>, b: Seq<u8>)
    requires
        tags_from(g, p, a),
        tags_from(g, p + a.len(), b),
    ensures
        tags_from(g, p, a + b),
{
    assert forall|j: int| 0 <= j < (a + b).len() && #[trigger] (a + b)[j] == 60 implies template_tag_at(
        g,
        p + j,
    ) by {
        if j < a.len() {
            assert((a + b)[j] == a[j]);
        } else {
            assert((a + b)[j] == b[j - a.len()]);
            assert(p + a.len() + (j - a.len()) == p + j);
        }
    }
}

proof fn lemma_tags_plain(g: Seq<u8>, p: int, s: Seq<u8>)
    requires
        lacks(s, 60),
    ensures
        tags_from(g, p, s),
{
}

/// A fixed tag standing in the document opens a tag of the template.
proof fn lemma_tags_fixed(g: Seq<u8>, p: int, t: int)
    requires
        0 <= t < 9,
        0 <= p,
        p + fixed_tags()[t].len() <= g.len(),
        g.subrange(p, p + fixed_tags()[t].len()) == fixed_tags()[t],
    ensures
        tags_from(g, p, fixed_tags()[t]),
{
    lemma_tag_shape(t);
    let s = fixed_tags()[t];
    assert(occurs_at(g, s, p));
    assert forall|j: int| 0 <= j < s.len() && #[trigger] s[j] == 60 implies template_tag_at(g, p + j) by {
        if j >= 1 {
            assert(s.skip(1)[j - 1] == s[j]);
        }
        assert(j == 0);
        assert(0 <= t < fixed_tags().len() && occurs_at(g, fixed_tags()[t], p + j));
    }
}

/// The start tag of the payload element, standing with its checksum value
/// and the closing quote and `>`, opens a tag of the template.
proof fn lemma_tags_head(g: Seq<u8>, p: int)
    requires
        0 <= p,
        p + 105 <= g.len(),
        g.subrange(p, p + 39) == payload_tag_head(),
        forall|j: int| 0 <= j < 64 ==> #[trigger] is_hex_digit(g[p + 39 + j]),
        g.subrange(p + 103, p + 105) == seq![34u8, 62u8],
    ensures
        tags_from(g, p, payload_tag_head()),
{
    lemma_head_shape();
    let s = payload_tag_head();
    assert forall|j: int| 0 <= j < s.len() && #[trigger] s[j] == 60 implies template_tag_at(g, p + j) by {
        if j >= 1 {
            assert(s.skip(1)[j - 1] == s[j]);
        }
        assert(j == 0);
    }
}

/// A prefix of a text, split in two.
proof fn lemma_step(g: Seq<u8>, v: Seq<u8>, s: Seq<u8>)
    requires
        (v + s).len() <= g.len(),
        g.subrange(0, (v + s).len() as int) == v + s,
    ensures
        g.subrange(0, v.len() as int) == v,
        g.subrange(v.len() as int, v.len() + s.len() as int) == s,
{
    assert(g.subrange(0, v.len() as int) =~= (v + s).subrange(0, v.len() as int));
    assert(g.subrange(v.len() as int, v.len() + s.len() as int) =~= (v + s).subrange(
        v.len() as int,
        v.len() + s.len() as int,
    ));
}

proof fn lemma_doc_shape(
    T0: Seq<u8>,
    T1: Seq<u8>,
    T2: Seq<u8>,
    T3: Seq<u8>,
    T4: Seq<u8>,
    T5: Seq<u8>,
    T6: Seq<u8>,
    T7: Seq<u8>,
    T8: Seq<u8>,
    nl: Seq<u8>,
    t: Seq<u8>,
    o: Seq<u8>,
    e: Seq<u8>,
    sp: Seq<u8>,
    k: Seq<u8>,
    h: Seq<u8>,
    q: Seq<u8>,
    b: Seq<u8>,
)
    ensures
        (T0 + nl + T1) + t + (T2 + nl + T3) + t + (T4 + nl + T5) + o + e + sp + k + h + q + b + T6
            + (T7 + nl + T8 + nl) == T0 + nl + T1 + t + T2 + nl + T3 + t + T4 + nl + T5 + (o + e
            + sp + k) + h + q + b + T6 + T7 + nl + T8 + nl,
{
    assert((T0 + nl + T1) + t + (T2 + nl + T3) + t + (T4 + nl + T5) + o + e + sp + k + h + q + b
        + T6 + (T7 + nl + T8 + nl) =~= T0 + nl + T1 + t + T2 + nl + T3 + t + T4 + nl + T5 + (o
        + e + sp + k) + h + q + b + T6 + T7 + nl + T8 + nl);
}

/// The markup of an SVG document that the library writes is the
/// template's, whatever the title: every `<` in it opens one of the fixed
/// tags or the start tag of the payload element with its checksum. With
/// `template_tags_hold_no_handler`, no tag of the document carries an event
/// handler and none is a script.
#[verifier::spinoff_prover]
#[verifier::rlimit(60)]
pub proof fn svg_tags_fixed(payload: Seq<u8>, title: Seq<char>)
    requires
        svg::base64_faithful(payload),
    ensures
        svg::wrap_result(payload, title) matches Ok(file) ==> forall|k: int|
            0 <= k < file.len() && #[trigger] file[k] == 60 ==> template_tag_at(file, k),
{
    if payload.len() <= crate::MAX_PAYLOAD {
        lemma_tag_cuts();
        lemma_head_shape();
        let t = encode_utf8(xml_escape_text(title));
        let h = hex_lower(sha256(payload)@);
        let b = encode_utf8(base64_encode(payload));
        lemma_xml_escape_no_lt(title);
        lemma_encode_lacks(xml_escape_text(title), 60);
        lemma_hex_digits(sha256(payload)@);
        assert(lacks(h, 60));
        lemma_base64_bytes(payload);
        let T0 = fixed_tags()[0];
        let T1 = fixed_tags()[1];
        let T2 = fixed_tags()[2];
        let T3 = fixed_tags()[3];
        let T4 = fixed_tags()[4];
        let T5 = fixed_tags()[5];
        let T6 = fixed_tags()[6];
        let T7 = fixed_tags()[7];
        let T8 = fixed_tags()[8];
        let nl = seq![10u8];
        let q = seq![34u8, 62u8];
        let H = payload_tag_head();
        let f = svg::document(payload, title);
        lemma_doc_shape(
            T0,
            T1,
            T2,
            T3,
            T4,
            T5,
            T6,
            T7,
            T8,
            nl,
            t,
            svg::open_tag(),
            svg::encoding_attr(),
            svg_sp(),
            svg::sha256_key(),
            h,
            q,
            b,
        );
        let v1 = T0;
        let v2 = v1 + nl;
        let v3 = v2 + T1;
        let v4 = v3 + t;
        let v5 = v4 + T2;
        let v6 = v5 + nl;
        let v7 = v6 + T3;
        let v8 = v7 + t;
        let v9 = v8 + T4;
        let v10 = v9 + nl;
        let v11 = v10 + T5;
        let v12 = v11 + H;
        let v13 = v12 + h;
        let v14 = v13 + q;
        let v15 = v14 + b;
        let v16 = v15 + T6;
        let v17 = v16 + T7;
        let v18 = v17 + nl;
        let v19 = v18 + T8;
        let v20 = v19 + nl;
        assert(f == v20);
        assert(f.subrange(0, v20.len() as int) =~= v20);
        lemma_step(f, v19, nl);
        lemma_step(f, v18, T8);
        lemma_step(f, v17, nl);
        lemma_step(f, v16, T7);
        lemma_step(f, v15, T6);
        lemma_step(f, v14, b);
        lemma_step(f, v13, q);
        lemma_step(f, v12, h);
        lemma_step(f, v11, H);
        lemma_step(f, v10, T5);
        lemma_step(f, v9, nl);
        lemma_step(f, v8, T4);
        lemma_step(f, v7, t);
        lemma_step(f, v6, T3);
        lemma_step(f, v5, nl);
        lemma_step(f, v4, T2);
        lemma_step(f, v3, t);
        lemma_step(f, v2, T1);
        lemma_step(f, v1, nl);
        assert forall|j: int| 0 <= j < 64 implies #[trigger] is_hex_digit(f[v12.len() + j]) by {
            assert(f[v12.len() + j] == f.subrange(v12.len() as int, v12.len() + h.len() as int)[j]);
        }
        assert(f.subrange(v13.len() as int, v13.len() as int + 2) == q);
        lemma_tags_fixed(f, 0, 0);
        lemma_tags_plain(f, v1.len() as int, nl);
        lemma_tags_fixed(f, v2.len() as int, 1);
        lemma_tags_plain(f, v3.len() as int, t);
        lemma_tags_fixed(f, v4.len() as int, 2);
        lemma_tags_plain(f, v5.len() as int, nl);
        lemma_tags_fixed(f, v6.len() as int, 3);
        lemma_tags_plain(f, v7.len() as int, t);
        lemma_tags_fixed(f, v8.len() as int, 4);
        lemma_tags_plain(f, v9.len() as int, nl);
        lemma_tags_fixed(f, v10.len() as int, 5);
        lemma_tags_head(f, v11.len() as int);
        lemma_tags_plain(f, v12.len() as int, h);
        lemma_tags_plain(f, v13.len() as int, q);
        lemma_tags_plain(f, v14.len() as int, b);
        lemma_tags_fixed(f, v15.len() as int, 6);
        lemma_tags_fixed(f, v16.len() as int, 7);
        lemma_tags_plain(f, v17.len() as int, nl);
        lemma_tags_fixed(f, v18.len() as int, 8);
        lemma_tags_plain(f, v19.len() as int, nl);
        lemma_tags_concat(f, 0, v1, nl);
        lemma_tags_concat(f, 0, v2, T1);
        lemma_tags_concat(f, 0, v3, t);
        lemma_tags_concat(f, 0, v4, T2);
        lemma_tags_concat(f, 0, v5, nl);
        lemma_tags_concat(f, 0, v6, T3);
        lemma_tags_concat(f, 0, v7, t);
        lemma_tags_concat(f, 0, v8, T4);
        lemma_tags_concat(f, 0, v9, nl);
        lemma_tags_concat(f, 0, v10, T5);
        lemma_tags_concat(f, 0, v11, H);
        lemma_tags_concat(f, 0, v12, h);
        lemma_tags_concat(f, 0, v13, q);
        lemma_tags_concat(f, 0, v14, b);
        lemma_tags_concat(f, 0, v15, T6);
        lemma_tags_concat(f, 0, v16, T7);
        lemma_tags_concat(f, 0, v17, nl);
        lemma_tags_concat(f, 0, v18, T8);
        lemma_tags_concat(f, 0, v19, nl);
        assert forall|k: int| 0 <= k < f.len() && #[trigger] f[k] == 60 implies template_tag_at(f, k) by {
            assert(v20[k] == f[k]);
        }
    }
}

} // verus!
