//! What the library accepts: the cap on payloads, which files are taken for
//! which format, when writing a container succeeds and what reading it back
//! gives, and the white space allowed around base64 text.

use vstd::prelude::*;

use crate::laws::{extract_inverts_embed_plain_title, holds_text};
use crate::pdf;
use crate::seqs::{contains, occurs_at};
use crate::svg;
use crate::svg::{leading_space, trailing_space, trim, trim_end, trim_start};
use crate::{detected, embedded, extracted, pdf_magic, svg_tag, Format, Rejection, MAX_PAYLOAD};

verus! {

/// The cap on payloads is one mebibyte.
#[verifier::spinoff_prover]
pub proof fn cap_is_one_mebibyte()
    ensures
        MAX_PAYLOAD == 1048576,
{
}

/// Every file that begins with the bytes `%PDF-` is taken for PDF, whatever
/// follows them.
#[verifier::spinoff_prover]
pub proof fn pdf_header_is_pdf(bytes: Seq<u8>)
    requires
        bytes.len() >= 5,
        bytes[0] == 37 && bytes[1] == 80 && bytes[2] == 68 && bytes[3] == 70 && bytes[4] == 45,
    ensures
        detected(bytes) == Some(Format::Pdf),
{
    reveal_strlit("%PDF-");
    vstd::utf8::is_ascii_chars_encode_utf8("%PDF-"@);
    assert(bytes.subrange(0, 5) =~= pdf_magic());
}

/// A file that does not begin with `%PDF-` and holds `<svg` starting within
/// its first 512 bytes is taken for SVG; one that holds neither is taken
/// for no format.
#[verifier::spinoff_prover]
pub proof fn svg_tag_is_svg(bytes: Seq<u8>)
    requires
        !(bytes.len() >= 5 && bytes[0] == 37 && bytes[1] == 80 && bytes[2] == 68 && bytes[3] == 70
            && bytes[4] == 45),
    ensures
        (exists|i: int|
            0 <= i < 512 && i + 4 <= bytes.len() && bytes[i] == 60 && bytes[i + 1] == 115
                && #[trigger] bytes[i + 2] == 118 && bytes[i + 3] == 103) ==> detected(bytes) == Some(
            Format::Svg,
        ),
        !(exists|i: int|
            0 <= i < 512 && i + 4 <= bytes.len() && bytes[i] == 60 && bytes[i + 1] == 115
                && #[trigger] bytes[i + 2] == 118 && bytes[i + 3] == 103) ==> detected(bytes) is None,
{
    reveal_strlit("%PDF-");
    vstd::utf8::is_ascii_chars_encode_utf8("%PDF-"@);
    reveal_strlit("<svg");
    vstd::utf8::is_ascii_chars_encode_utf8("<svg"@);
    if occurs_at(bytes, pdf_magic(), 0) {
        assert(bytes.subrange(0, 5)[0] == bytes[0]);
        assert(bytes.subrange(0, 5)[1] == bytes[1]);
        assert(bytes.subrange(0, 5)[2] == bytes[2]);
        assert(bytes.subrange(0, 5)[3] == bytes[3]);
        assert(bytes.subrange(0, 5)[4] == bytes[4]);
    }
    if exists|i: int|
        0 <= i < 512 && i + 4 <= bytes.len() && bytes[i] == 60 && bytes[i + 1] == 115
            && #[trigger] bytes[i + 2] == 118 && bytes[i + 3] == 103 {
        let i = choose|i: int|
            0 <= i < 512 && i + 4 <= bytes.len() && bytes[i] == 60 && bytes[i + 1] == 115
                && #[trigger] bytes[i + 2] == 118 && bytes[i + 3] == 103;
        assert(bytes.subrange(i, i + 4) =~= svg_tag());
        assert(0 <= i < 512 && occurs_at(bytes, svg_tag(), i));
    } else {
        assert forall|i: int| 0 <= i < 512 implies !occurs_at(bytes, svg_tag(), i) by {
            if occurs_at(bytes, svg_tag(), i) {
                let w = bytes.subrange(i, i + 4);
                assert(w[0] == bytes[i] && w[1] == bytes[i + 1] && w[2] == bytes[i + 2] && w[3]
                    == bytes[i + 3]);
            }
        }
    }
}

/// Wrapping a payload in a PDF document succeeds for every payload within
/// the cap that does not hold `/Type /EmbeddedFile`, whatever the title, and
/// is refused as too large for every payload over it.
#[verifier::spinoff_prover]
pub proof fn pdf_wrap_accepts(payload: Seq<u8>, title: Seq<char>)
    ensures
        payload.len() <= MAX_PAYLOAD && !contains(payload, pdf::marker()) ==> pdf::wrap_result(
            payload,
            title,
        ) is Ok,
        payload.len() > MAX_PAYLOAD ==> pdf::wrap_result(payload, title) == Err::<
            Seq<u8>,
            Rejection,
        >(Rejection::TooLarge(payload.len() as usize)),
{
}

/// Wrapping a payload in an SVG document succeeds for every payload within
/// the cap, whatever the title, and is refused as too large for every
/// payload over it.
#[verifier::spinoff_prover]
pub proof fn svg_wrap_accepts(payload: Seq<u8>, title: Seq<char>)
    ensures
        payload.len() <= MAX_PAYLOAD ==> svg::wrap_result(payload, title) is Ok,
        payload.len() > MAX_PAYLOAD ==> svg::wrap_result(payload, title) == Err::<
            Seq<u8>,
            Rejection,
        >(Rejection::TooLarge(payload.len() as usize)),
{
}

/// Embedding succeeds for every payload within the cap, in SVG always and
/// in PDF unless the payload holds `/Type /EmbeddedFile`; a payload over
/// the cap is refused as too large in either format.
#[verifier::spinoff_prover]
pub proof fn embed_accepts(format: Format, payload: Seq<u8>, title: Seq<char>)
    ensures
        payload.len() <= MAX_PAYLOAD && (format == Format::Pdf ==> !contains(payload, pdf::marker()))
            ==> embedded(format, payload, title) is Ok,
        payload.len() > MAX_PAYLOAD ==> embedded(format, payload, title) == Err::<
            Seq<u8>,
            Rejection,
        >(Rejection::TooLarge(payload.len() as usize)),
{
}

/// Every payload within the cap can be embedded and extracted again: in
/// SVG, as far as base64's engine decodes what it encoded; in PDF, when
/// neither the payload nor the title holds `/Type /EmbeddedFile`.
#[verifier::spinoff_prover]
pub proof fn embed_then_extract(format: Format, payload: Seq<u8>, title: Seq<char>)
    requires
        payload.len() <= MAX_PAYLOAD,
        format == Format::Pdf ==> !contains(payload, pdf::marker()) && !holds_text(
            title,
            "/Type /EmbeddedFile"@,
        ),
        format == Format::Svg ==> svg::base64_faithful(payload),
    ensures
        embedded(format, payload, title) matches Ok(file) && extracted(file) == Ok::<
            Seq<u8>,
            Rejection,
        >(payload),
{
    embed_accepts(format, payload, title);
    extract_inverts_embed_plain_title(format, payload, title);
}

/// The UTF-8 encodings of the white-space characters (Unicode White_Space,
/// as `char::is_whitespace` has it): tab, line feed, vertical tab, form
/// feed, carriage return, space, U+0085, U+00A0, U+1680, U+2000 to U+200A,
/// U+2028, U+2029, U+202F, U+205F and U+3000.
pub open spec fn white_space_encodings() -> Seq<Seq<u8>> {
    seq![
        seq![9u8], seq![10u8], seq![11u8], seq![12u8], seq![13u8], seq![32u8],
        seq![0xC2u8, 0x85u8], seq![0xC2u8, 0xA0u8],
        seq![0xE1u8, 0x9Au8, 0x80u8],
        seq![0xE2u8, 0x80u8, 0x80u8], seq![0xE2u8, 0x80u8, 0x81u8], seq![0xE2u8, 0x80u8, 0x82u8],
        seq![0xE2u8, 0x80u8, 0x83u8], seq![0xE2u8, 0x80u8, 0x84u8], seq![0xE2u8, 0x80u8, 0x85u8],
        seq![0xE2u8, 0x80u8, 0x86u8], seq![0xE2u8, 0x80u8, 0x87u8], seq![0xE2u8, 0x80u8, 0x88u8],
        seq![0xE2u8, 0x80u8, 0x89u8], seq![0xE2u8, 0x80u8, 0x8Au8],
        seq![0xE2u8, 0x80u8, 0xA8u8], seq![0xE2u8, 0x80u8, 0xA9u8], seq![0xE2u8, 0x80u8, 0xAFu8],
        seq![0xE2u8, 0x81u8, 0x9Fu8], seq![0xE3u8, 0x80u8, 0x80u8],
    ]
}

/// Each white-space encoding is found as such at the start and at the end
/// of a text, and its first byte is no continuation byte.
#[verifier::spinoff_prover]
proof fn lemma_space_encoding(k: int, y: Seq<u8>, z: Seq<u8>)
    requires
        0 <= k < 25,
    ensures
        ({
            let x = white_space_encodings()[k];
            &&& 1 <= x.len() <= 3
            &&& !(0x80 <= x[0] && x[0] <= 0xBF)
            &&& leading_space(x + z) == x.len()
            &&& trailing_space(y + x) == x.len()
        }),
{
    let x = white_space_encodings()[k];
    let a = x + z;
    let c = y + x;
    let n = c.len() as int;
    assert(a[0] == x[0]);
    if x.len() >= 2 {
        assert(a[1] == x[1]);
    }
    if x.len() >= 3 {
        assert(a[2] == x[2]);
    }
    assert(c[n - 1] == x[x.len() - 1]);
    if x.len() >= 2 {
        assert(c[n - 2] == x[x.len() - 2]);
    }
    if x.len() >= 3 {
        assert(c[n - 3] == x[x.len() - 3]);
    }
}

/// Appending text that begins with no continuation byte changes no white
/// space found at the start of a non-empty text.
#[verifier::spinoff_prover]
proof fn lemma_trim_start_append(s: Seq<u8>, x: Seq<u8>)
    requires
        x.len() >= 1,
        !(0x80 <= x[0] && x[0] <= 0xBF),
        leading_space(x) == x.len(),
        x.len() <= 3,
    ensures
        trim_start(s + x) == (if trim_start(s).len() == 0 {
            Seq::<u8>::empty()
        } else {
            trim_start(s) + x
        }),
    decreases s.len(),
{
    let t = s + x;
    if s.len() == 0 {
        assert(t =~= x);
        assert(x.skip(x.len() as int) =~= Seq::<u8>::empty());
        assert(trim_start(Seq::<u8>::empty()) == Seq::<u8>::empty());
        assert(trim_start(t) == trim_start(t.skip(x.len() as int)));
        assert(trim_start(s) == s);
    } else {
        assert(t[0] == s[0]);
        if s.len() >= 2 {
            assert(t[1] == s[1]);
        } else {
            assert(t[1] == x[0]);
        }
        if s.len() >= 3 {
            assert(t[2] == s[2]);
        } else if s.len() == 2 {
            assert(t[2] == x[0]);
        } else if x.len() >= 2 {
            assert(t[2] == x[1]);
        }
        assert(leading_space(t) == leading_space(s));
        let k = leading_space(s);
        if k > 0 {
            assert(t.skip(k) =~= s.skip(k) + x);
            lemma_trim_start_append(s.skip(k), x);
            assert(trim_start(t) == trim_start(t.skip(k)));
            assert(trim_start(s) == trim_start(s.skip(k)));
        } else {
            assert(trim_start(t) == t);
            assert(trim_start(s) == s);
        }
    }
}

/// White space is dropped from both ends, as `str::trim` drops it: trimming
/// text with a white-space character before it, or after it, gives what
/// trimming the text gives.
#[verifier::spinoff_prover]
pub proof fn trim_drops_white_space(s: Seq<u8>, k: int)
    requires
        0 <= k < white_space_encodings().len(),
    ensures
        trim(white_space_encodings()[k] + s) == trim(s),
        trim(s + white_space_encodings()[k]) == trim(s),
{
    let x = white_space_encodings()[k];
    lemma_space_encoding(k, Seq::<u8>::empty(), s);
    let a = x + s;
    assert(a.skip(x.len() as int) =~= s);
    assert(trim_start(a) == trim_start(s));
    lemma_space_encoding(k, s, Seq::<u8>::empty());
    assert(x + Seq::<u8>::empty() =~= x);
    lemma_trim_start_append(s, x);
    let t = trim_start(s);
    if t.len() > 0 {
        let y = t + x;
        lemma_space_encoding(k, t, Seq::<u8>::empty());
        assert(y.take(y.len() - x.len()) =~= t);
        assert(trim_end(y) == trim_end(t));
    } else {
        assert(trim_end(Seq::<u8>::empty()) == Seq::<u8>::empty());
    }
}

/// A file taken for no format is refused as of unknown format: one that
/// neither begins with `%PDF-` nor holds `<svg` within its first 512 bytes.
#[verifier::spinoff_prover]
pub proof fn extract_refuses_unknown(bytes: Seq<u8>)
    requires
        !(bytes.len() >= 5 && bytes[0] == 37 && bytes[1] == 80 && bytes[2] == 68 && bytes[3] == 70
            && bytes[4] == 45),
        !(exists|i: int|
            0 <= i < 512 && i + 4 <= bytes.len() && bytes[i] == 60 && bytes[i + 1] == 115
                && #[trigger] bytes[i + 2] == 118 && bytes[i + 3] == 103),
    ensures
        extracted(bytes) == Err::<Seq<u8>, Rejection>(Rejection::UnknownFormat),
{
    svg_tag_is_svg(bytes);
}

/// A PDF payload holding `/Type /EmbeddedFile` is refused at wrapping time.
#[verifier::spinoff_prover]
pub proof fn pdf_wrap_refuses_marker(payload: Seq<u8>, title: Seq<char>)
    requires
        payload.len() <= MAX_PAYLOAD,
        contains(payload, pdf::marker()),
    ensures
        pdf::wrap_result(payload, title) is Err,
        !(embedded(Format::Pdf, payload, title) is Ok),
{
}

} // verus!
