//! SVG container: the payload is base64 text inside a namespaced
//! `<metadata>` element, which renderers ignore. No `<script>`, no handlers.

use base64::{engine::general_purpose::STANDARD, Engine};
use vstd::prelude::*;
use vstd::slice::slice_subrange;
use vstd::utf8::{encode_utf8, valid_utf8};

use crate::digest::{hex_lower, sha256, sha256_hex_bytes};
use crate::seqs::{append, contains, find, find_from, lemma_find_from};
use crate::text::{chars_of, string_of_chars};
use vstd::string::StringExecFns;
use crate::{check_payload, checked, malformed, outcome, Error, Rejection, MAX_PAYLOAD};

verus! {

/// Standard base64 (alphabet `A-Z a-z 0-9 + /`, `=` padding) of a byte
/// string, as base64's `STANDARD` engine encodes it.
pub uninterp spec fn base64_encode(data: Seq<u8>) -> Seq<char>;

/// What base64's `STANDARD` engine decodes from a text: the bytes, or the
/// text of the decoding error.
pub uninterp spec fn base64_decode(text: Seq<u8>) -> Result<Seq<u8>, Seq<char>>;

/// A character of the standard base64 alphabet, or the padding `=`.
pub open spec fn is_base64_char(c: char) -> bool {
    ('A' <= c && c <= 'Z') || ('a' <= c && c <= 'z') || ('0' <= c && c <= '9') || c == '+' || c
        == '/' || c == '='
}

/// What base64's `STANDARD` engine gives for `payload`: four characters for
/// every three bytes or part of three, all of the standard alphabet or `=`,
/// from which decoding gives the payload back.
pub open spec fn base64_faithful(payload: Seq<u8>) -> bool {
    &&& base64_encode(payload).len() == 4 * ((payload.len() + 2) / 3)
    &&& forall|i: int|
        0 <= i < base64_encode(payload).len() ==> is_base64_char(#[trigger] base64_encode(payload)[i])
    &&& base64_decode(encode_utf8(base64_encode(payload))) == Ok::<Seq<u8>, Seq<char>>(payload)
}

/// `STANDARD.encode` of base64. Claimed: the text is `base64_encode` of the
/// input; it is four characters for every three bytes or part of three
/// (padding on); and every character is of the standard alphabet or `=`.
#[verifier::external_body]
fn encode_base64(data: &[u8]) -> (text: String)
    requires
        data@.len() <= MAX_PAYLOAD,
    ensures
        text@ == base64_encode(data@),
        text@.len() == 4 * ((data@.len() + 2) / 3),
        forall|i: int| 0 <= i < text@.len() ==> is_base64_char(#[trigger] text@[i]),
        forall|t: Seq<u8>|
            t == encode_utf8(text@) ==> base64_decode(t) is Ok && base64_decode(t)->Ok_0 == data@,
{
    STANDARD.encode(data)
}

/// `STANDARD.decode` of base64, with a failure turned into the text of its
/// `DecodeError`. Claimed: the result is `base64_decode` of the input, and
/// the text that `STANDARD.encode` made of some bytes decodes to those bytes.
#[verifier::external_body]
fn decode_base64(text: &[u8]) -> (r: Result<Vec<u8>, String>)
    ensures
        match r {
            Ok(v) => base64_decode(text@) matches Ok(d) && d == v@,
            Err(m) => base64_decode(text@) matches Err(e) && e == m@,
        },
        forall|d: Seq<u8>| text@ == encode_utf8(base64_encode(d)) ==> r is Ok && r->Ok_0@ == d,
{
    match STANDARD.decode(text) {
        Ok(v) => Ok(v),
        Err(e) => Err(e.to_string()),
    }
}

/// `std::str::from_utf8`, asked only whether it succeeds. Claimed: it does
/// exactly when the bytes are well-formed UTF-8.
#[verifier::external_body]
fn is_utf8(bytes: &[u8]) -> (ok: bool)
    ensures
        ok == valid_utf8(bytes@),
{
    match std::str::from_utf8(bytes) {
        Ok(_) => true,
        Err(_) => false,
    }
}

/// `c` is a control character (general category Cc), as `char::is_control` has it.
pub open spec fn is_control(c: char) -> bool {
    c as u32 <= 0x1f || (0x7f <= c as u32 && c as u32 <= 0x9f)
}

/// How one character of a title is written in XML text.
pub open spec fn xml_escape_char(c: char) -> Seq<char> {
    if c == '<' {
        seq!['&', 'l', 't', ';']
    } else if c == '>' {
        seq!['&', 'g', 't', ';']
    } else if c == '&' {
        seq!['&', 'a', 'm', 'p', ';']
    } else if c == '"' {
        seq!['&', 'q', 'u', 'o', 't', ';']
    } else if is_control(c) {
        seq!['?']
    } else {
        seq![c]
    }
}

/// A title written as XML text: markup characters as entities, control
/// characters replaced by `?`.
pub open spec fn xml_escape_text(s: Seq<char>) -> Seq<char>
    decreases s.len(),
{
    if s.len() == 0 {
        Seq::empty()
    } else {
        xml_escape_text(s.drop_last()) + xml_escape_char(s.last())
    }
}

/// A title written as XML text.
#[verifier::spinoff_prover]
fn xml_escape(s: &str) -> (out: String)
    ensures
        out@ == xml_escape_text(s@),
{
    let chars = chars_of(s);
    let mut out: Vec<char> = Vec::new();
    let n = chars.len();
    let mut i: usize = 0;
    while i < n
        invariant
            i <= n,
            n == chars@.len(),
            out@ == xml_escape_text(chars@.take(i as int)),
        decreases n - i,
    {
        let c = chars[i];
        let ghost before = out@;
        let code = c as u32;
        if c == '<' {
            out.push('&');
            out.push('l');
            out.push('t');
            out.push(';');
        } else if c == '>' {
            out.push('&');
            out.push('g');
            out.push('t');
            out.push(';');
        } else if c == '&' {
            out.push('&');
            out.push('a');
            out.push('m');
            out.push('p');
            out.push(';');
        } else if c == '"' {
            out.push('&');
            out.push('q');
            out.push('u');
            out.push('o');
            out.push('t');
            out.push(';');
        } else if code <= 0x1f || (0x7f <= code && code <= 0x9f) {
            out.push('?');
        } else {
            out.push(c);
        }
        proof {
            assert(chars@.take(i + 1).drop_last() =~= chars@.take(i as int));
            assert(out@ =~= before + xml_escape_char(c));
        }
        i = i + 1;
    }
    assert(chars@.take(n as int) =~= chars@);
    string_of_chars(out)
}

/// The start tag of the payload element, up to its attributes.
pub open spec fn open_tag() -> Seq<u8> {
    encode_utf8("<imc:program "@)
}

/// The end tag of the payload element.
pub open spec fn close_tag() -> Seq<u8> {
    encode_utf8("</imc:program>"@)
}

/// The attribute that announces base64 text.
pub open spec fn encoding_attr() -> Seq<u8> {
    encode_utf8("encoding=\"base64\""@)
}

/// The start of the checksum attribute, up to its opening quote.
pub open spec fn sha256_key() -> Seq<u8> {
    encode_utf8("sha256=\""@)
}

#[verifier::spinoff_prover]
fn open_tag_bytes() -> (b: &'static [u8])
    ensures
        b@ == open_tag(),
{
    "<imc:program ".as_bytes()
}

#[verifier::spinoff_prover]
fn close_tag_bytes() -> (b: &'static [u8])
    ensures
        b@ == close_tag(),
{
    "</imc:program>".as_bytes()
}

#[verifier::spinoff_prover]
fn encoding_attr_bytes() -> (b: &'static [u8])
    ensures
        b@ == encoding_attr(),
{
    "encoding=\"base64\"".as_bytes()
}

#[verifier::spinoff_prover]
fn sha256_key_bytes() -> (b: &'static [u8])
    ensures
        b@ == sha256_key(),
{
    "sha256=\"".as_bytes()
}

#[verifier::spinoff_prover]
proof fn lemma_tag_bytes()
    ensures
        open_tag().len() == 13,
        close_tag().len() == 14,
        close_tag()[0] == 60,
        sha256_key().len() == 8,
        encoding_attr().len() == 17,
{
    reveal_strlit("<imc:program ");
    reveal_strlit("</imc:program>");
    reveal_strlit("sha256=\"");
    reveal_strlit("encoding=\"base64\"");
    vstd::utf8::is_ascii_chars_encode_utf8("<imc:program "@);
    vstd::utf8::is_ascii_chars_encode_utf8("</imc:program>"@);
    vstd::utf8::is_ascii_chars_encode_utf8("sha256=\""@);
    vstd::utf8::is_ascii_chars_encode_utf8("encoding=\"base64\""@);
}

/// The document with the given title, carrying the given checksum text and
/// base64 text.
pub open spec fn document_with(title: Seq<char>, checksum: Seq<u8>, text: Seq<u8>) -> Seq<u8> {
    let t = encode_utf8(xml_escape_text(title));
    encode_utf8(
        "<svg xmlns=\"http://www.w3.org/2000/svg\" xmlns:imc=\"urn:impossible-computer:artifact:1\" width=\"480\" height=\"120\" viewBox=\"0 0 480 120\">\n<title>"@,
    ) + t + encode_utf8(
        "</title>\n<text x=\"20\" y=\"60\" font-family=\"sans-serif\" font-size=\"18\">"@,
    ) + t + encode_utf8("</text>\n<metadata>"@) + open_tag() + encoding_attr() + encode_utf8(
        " "@,
    ) + sha256_key() + checksum + encode_utf8("\">"@) + text + close_tag() + encode_utf8(
        "</metadata>\n</svg>\n"@,
    )
}

/// The document that carries a payload, with the given title.
pub open spec fn document(payload: Seq<u8>, title: Seq<char>) -> Seq<u8> {
    document_with(title, hex_lower(sha256(payload)@), encode_utf8(base64_encode(payload)))
}

/// The document with the given title, carrying the given checksum text and
/// base64 text.
#[verifier::spinoff_prover]
pub fn document_bytes(title: &str, checksum: &[u8], text: &[u8]) -> (out: Vec<u8>)
    ensures
        out@ == document_with(title@, checksum@, text@),
{
    let t = xml_escape(title);
    let t_bytes = t.as_str().as_bytes();
    let mut out: Vec<u8> = Vec::new();
    append(
        &mut out,
        "<svg xmlns=\"http://www.w3.org/2000/svg\" xmlns:imc=\"urn:impossible-computer:artifact:1\" width=\"480\" height=\"120\" viewBox=\"0 0 480 120\">\n<title>".as_bytes(),
    );
    append(&mut out, t_bytes);
    append(
        &mut out,
        "</title>\n<text x=\"20\" y=\"60\" font-family=\"sans-serif\" font-size=\"18\">".as_bytes(),
    );
    append(&mut out, t_bytes);
    append(&mut out, "</text>\n<metadata>".as_bytes());
    append(&mut out, open_tag_bytes());
    append(&mut out, encoding_attr_bytes());
    append(&mut out, " ".as_bytes());
    append(&mut out, sha256_key_bytes());
    append(&mut out, checksum);
    append(&mut out, "\">".as_bytes());
    append(&mut out, text);
    append(&mut out, close_tag_bytes());
    append(&mut out, "</metadata>\n</svg>\n".as_bytes());
    assert(out@ =~= document_with(title@, checksum@, text@));
    out
}

/// What wrapping a payload gives: the document, unless the payload is over the cap.
pub open spec fn wrap_result(payload: Seq<u8>, title: Seq<char>) -> Result<Seq<u8>, Rejection> {
    if payload.len() > MAX_PAYLOAD {
        Err(Rejection::TooLarge(payload.len() as usize))
    } else {
        Ok(document(payload, title))
    }
}

/// Wraps a payload in an SVG document with the given title. What it
/// writes reads back as the payload.
#[verifier::spinoff_prover]
pub fn wrap(payload: &[u8], title: &str) -> (r: Result<Vec<u8>, Error>)
    ensures
        outcome(r) == wrap_result(payload@, title@),
        r is Ok ==> base64_faithful(payload@),
        r matches Ok(file) ==> unwrap_result(file@) == Ok::<Seq<u8>, Rejection>(payload@),
{
    if payload.len() > MAX_PAYLOAD {
        return Err(Error::TooLarge(payload.len()));
    }
    let hash = sha256_hex_bytes(payload);
    let text = encode_base64(payload);
    let out = document_bytes(title, hash.as_slice(), text.as_str().as_bytes());
    proof {
        assert(base64_decode(encode_utf8(text@)) is Ok);
        crate::laws::svg_roundtrip(payload@, title@);
    }
    Ok(out)
}

/// An ASCII white-space byte: tab, line feed, vertical tab, form feed,
/// carriage return or space.
pub open spec fn is_ascii_space(b: u8) -> bool {
    (9 <= b && b <= 13) || b == 32
}

/// Three bytes that are the UTF-8 encoding of a white-space character of
/// three bytes: U+1680, U+2000 to U+200A, U+2028, U+2029, U+202F, U+205F or U+3000.
pub open spec fn is_wide_space(a: u8, b: u8, c: u8) -> bool {
    ||| (a == 0xE1 && b == 0x9A && c == 0x80)
    ||| (a == 0xE2 && b == 0x80 && ((0x80 <= c && c <= 0x8A) || c == 0xA8 || c == 0xA9 || c
        == 0xAF))
    ||| (a == 0xE2 && b == 0x81 && c == 0x9F)
    ||| (a == 0xE3 && b == 0x80 && c == 0x80)
}

/// Two bytes that are the UTF-8 encoding of U+0085 or U+00A0.
pub open spec fn is_narrow_space(a: u8, b: u8) -> bool {
    a == 0xC2 && (b == 0x85 || b == 0xA0)
}

/// The length of the UTF-8 encoding of the white-space character (Unicode
/// White_Space, as `char::is_whitespace` has it) that `s` begins with, or 0.
pub open spec fn leading_space(s: Seq<u8>) -> int {
    if s.len() >= 1 && is_ascii_space(s[0]) {
        1
    } else if s.len() >= 2 && is_narrow_space(s[0], s[1]) {
        2
    } else if s.len() >= 3 && is_wide_space(s[0], s[1], s[2]) {
        3
    } else {
        0
    }
}

/// The length of the UTF-8 encoding of the white-space character that `s`
/// ends with, or 0.
pub open spec fn trailing_space(s: Seq<u8>) -> int {
    let n = s.len() as int;
    if n >= 1 && is_ascii_space(s[n - 1]) {
        1
    } else if n >= 2 && is_narrow_space(s[n - 2], s[n - 1]) {
        2
    } else if n >= 3 && is_wide_space(s[n - 3], s[n - 2], s[n - 1]) {
        3
    } else {
        0
    }
}

/// UTF-8 text without its leading white space.
pub open spec fn trim_start(s: Seq<u8>) -> Seq<u8>
    decreases s.len(),
{
    if leading_space(s) > 0 {
        trim_start(s.skip(leading_space(s)))
    } else {
        s
    }
}

/// UTF-8 text without its trailing white space.
pub open spec fn trim_end(s: Seq<u8>) -> Seq<u8>
    decreases s.len(),
{
    if trailing_space(s) > 0 {
        trim_end(s.take(s.len() - trailing_space(s)))
    } else {
        s
    }
}

/// UTF-8 text without leading and trailing white space (`str::trim`).
pub open spec fn trim(s: Seq<u8>) -> Seq<u8> {
    trim_end(trim_start(s))
}

#[verifier::spinoff_prover]
fn leading_space_at(s: &[u8], i: usize, j: usize) -> (k: usize)
    requires
        i <= j <= s@.len(),
    ensures
        k == leading_space(s@.subrange(i as int, j as int)),
{
    let n = j - i;
    if n >= 1 && ((9 <= s[i] && s[i] <= 13) || s[i] == 32) {
        1
    } else if n >= 2 && s[i] == 0xC2 && (s[i + 1] == 0x85 || s[i + 1] == 0xA0) {
        2
    } else if n >= 3 && ((s[i] == 0xE1 && s[i + 1] == 0x9A && s[i + 2] == 0x80) || (s[i] == 0xE2
        && s[i + 1] == 0x80 && ((0x80 <= s[i + 2] && s[i + 2] <= 0x8A) || s[i + 2] == 0xA8
        || s[i + 2] == 0xA9 || s[i + 2] == 0xAF)) || (s[i] == 0xE2 && s[i + 1] == 0x81 && s[i
        + 2] == 0x9F) || (s[i] == 0xE3 && s[i + 1] == 0x80 && s[i + 2] == 0x80)) {
        3
    } else {
        0
    }
}

#[verifier::spinoff_prover]
fn trailing_space_at(s: &[u8], i: usize, j: usize) -> (k: usize)
    requires
        i <= j <= s@.len(),
    ensures
        k == trailing_space(s@.subrange(i as int, j as int)),
{
    let n = j - i;
    if n >= 1 && ((9 <= s[j - 1] && s[j - 1] <= 13) || s[j - 1] == 32) {
        1
    } else if n >= 2 && s[j - 2] == 0xC2 && (s[j - 1] == 0x85 || s[j - 1] == 0xA0) {
        2
    } else if n >= 3 && ((s[j - 3] == 0xE1 && s[j - 2] == 0x9A && s[j - 1] == 0x80) || (s[j - 3]
        == 0xE2 && s[j - 2] == 0x80 && ((0x80 <= s[j - 1] && s[j - 1] <= 0x8A) || s[j - 1] == 0xA8
        || s[j - 1] == 0xA9 || s[j - 1] == 0xAF)) || (s[j - 3] == 0xE2 && s[j - 2] == 0x81 && s[j
        - 1] == 0x9F) || (s[j - 3] == 0xE3 && s[j - 2] == 0x80 && s[j - 1] == 0x80)) {
        3
    } else {
        0
    }
}

/// Bounds of the text without leading and trailing white space.
#[verifier::spinoff_prover]
fn trim_bounds(s: &[u8]) -> (r: (usize, usize))
    ensures
        r.0 <= r.1 <= s@.len(),
        s@.subrange(r.0 as int, r.1 as int) == trim(s@),
{
    let len = s.len();
    let mut i: usize = 0;
    assert(s@.subrange(0, len as int) =~= s@);
    loop
        invariant
            i <= len,
            len == s@.len(),
            trim_start(s@) == trim_start(s@.subrange(i as int, len as int)),
        ensures
            i <= len,
            trim_start(s@) == s@.subrange(i as int, len as int),
        decreases len - i,
    {
        let k = leading_space_at(s, i, len);
        if k == 0 {
            break;
        }
        assert(s@.subrange(i as int, len as int).skip(k as int) =~= s@.subrange(i + k, len as int));
        i = i + k;
    }
    let mut j: usize = len;
    loop
        invariant
            i <= j <= len,
            len == s@.len(),
            trim(s@) == trim_end(s@.subrange(i as int, j as int)),
        ensures
            i <= j <= len,
            trim(s@) == s@.subrange(i as int, j as int),
        decreases j - i,
    {
        let k = trailing_space_at(s, i, j);
        if k == 0 {
            break;
        }
        assert(s@.subrange(i as int, j as int).take(j - i - k) =~= s@.subrange(i as int, j - k));
        j = j - k;
    }
    (i, j)
}

/// The closing quote of an attribute value.
pub open spec fn quote() -> Seq<u8> {
    seq![34u8]
}

/// The end of a tag.
pub open spec fn tag_end() -> Seq<u8> {
    seq![62u8]
}

#[verifier::spinoff_prover]
fn quote_bytes() -> (b: &'static [u8])
    ensures
        b@ == quote(),
{
    let b = "\"".as_bytes();
    proof {
        reveal_strlit("\"");
        vstd::utf8::is_ascii_chars_encode_utf8("\""@);
    }
    assert(b@ =~= quote());
    b
}

#[verifier::spinoff_prover]
fn tag_end_bytes() -> (b: &'static [u8])
    ensures
        b@ == tag_end(),
{
    let b = ">".as_bytes();
    proof {
        reveal_strlit(">");
        vstd::utf8::is_ascii_chars_encode_utf8(">"@);
    }
    assert(b@ =~= tag_end());
    b
}

/// Where the checksum value that starts at `a` ends: at the first quote or
/// the next `sha256="`, whichever comes first, or at the end.
pub open spec fn attr_value_end(attrs: Seq<u8>, a: int) -> int {
    match (find_from(attrs, quote(), a), find_from(attrs, sha256_key(), a)) {
        (Some(q), Some(k)) => if q < k {
            q
        } else {
            k
        },
        (Some(q), None) => q,
        (None, Some(k)) => k,
        (None, None) => attrs.len() as int,
    }
}

/// The value of the checksum attribute: the text after the first `sha256="`
/// up to the next quote.
pub open spec fn sha256_attr(attrs: Seq<u8>) -> Option<Seq<u8>> {
    match find_from(attrs, sha256_key(), 0) {
        None => None,
        Some(k) => {
            let a = k + sha256_key().len();
            Some(attrs.subrange(a, attr_value_end(attrs, a)))
        },
    }
}

/// Bounds of the checksum attribute's value.
#[verifier::spinoff_prover]
fn sha256_attr_bounds(attrs: &[u8]) -> (r: Option<(usize, usize)>)
    ensures
        match r {
            None => sha256_attr(attrs@) is None,
            Some((a, e)) => a <= e <= attrs@.len() && sha256_attr(attrs@) == Some(
                attrs@.subrange(a as int, e as int),
            ),
        },
{
    proof {
        lemma_tag_bytes();
    }
    let alen = attrs.len();
    let k = match find(attrs, sha256_key_bytes(), 0) {
        Some(k) => k,
        None => return None,
    };
    proof {
        lemma_find_from(attrs@, sha256_key(), 0);
    }
    let a = k + 8;
    let q = find(attrs, quote_bytes(), a);
    let n = find(attrs, sha256_key_bytes(), a);
    proof {
        lemma_find_from(attrs@, quote(), a as int);
        lemma_find_from(attrs@, sha256_key(), a as int);
    }
    let e = match (q, n) {
        (Some(q), Some(n)) => if q < n {
            q
        } else {
            n
        },
        (Some(q), None) => q,
        (None, Some(n)) => n,
        (None, None) => attrs.len(),
    };
    Some((a, e))
}

/// The largest body of base64 text that can hold a payload within the cap.
pub open spec fn body_cap() -> int {
    MAX_PAYLOAD * 4 / 3 + 4
}

/// A decoding result as a value of the specifications.
pub open spec fn decoding(r: Result<Vec<u8>, String>) -> Result<Seq<u8>, Seq<char>> {
    match r {
        Ok(v) => Ok(v@),
        Err(m) => Err(m@),
    }
}

/// What a decoded body gives: the payload, once within the cap and its
/// SHA-256 checksum text is the one carried; a decoding failure is a
/// malformed container.
pub open spec fn decoded(d: Result<Seq<u8>, Seq<char>>, carried: Seq<u8>) -> Result<
    Seq<u8>,
    Rejection,
> {
    match d {
        Err(e) => Err(Rejection::Malformed("base64: "@ + e)),
        Ok(payload) => if payload.len() > MAX_PAYLOAD {
            Err(Rejection::TooLarge(payload.len() as usize))
        } else {
            checked(payload, hex_lower(sha256(payload)@), carried)
        },
    }
}

/// Takes what decoding the body gave to the payload: a decoding failure is
/// reported as malformed; decoded bytes over the cap are refused; otherwise
/// the integrity check decides.
#[verifier::spinoff_prover]
pub fn decoded_payload(d: Result<Vec<u8>, String>, carried: &[u8]) -> (r: Result<Vec<u8>, Error>)
    ensures
        outcome(r) == decoded(decoding(d), carried@),
{
    match d {
        Ok(payload) => {
            if payload.len() > MAX_PAYLOAD {
                return Err(Error::TooLarge(payload.len()));
            }
            let got = sha256_hex_bytes(payload.as_slice());
            check_payload(payload.as_slice(), got.as_slice(), carried)
        },
        Err(m) => {
            let mut msg = "base64: ".to_owned();
            msg.append(m.as_str());
            Err(Error::Malformed(msg))
        },
    }
}

/// What reading the payload out of a file gives: the base64 text of the one
/// payload element, decoded, once its SHA-256 digest matches the checksum
/// attribute.
pub open spec fn unwrap_result(b: Seq<u8>) -> Result<Seq<u8>, Rejection> {
    if !valid_utf8(b) {
        Err(Rejection::Malformed("not utf-8"@))
    } else {
        match find_from(b, open_tag(), 0) {
            None => Err(Rejection::NotFound),
            Some(at) => if find_from(b, open_tag(), at + 1) is Some {
                Err(Rejection::Multiple)
            } else {
                let rest = b.skip(at + open_tag().len());
                match find_from(rest, tag_end(), 0) {
                    None => Err(Rejection::Malformed("unterminated tag"@)),
                    Some(gt) => match find_from(rest, close_tag(), 0) {
                        None => Err(Rejection::Malformed("no close tag"@)),
                        Some(body_end) => if body_end < gt {
                            Err(Rejection::Malformed("bad element"@))
                        } else {
                            let attrs = rest.take(gt);
                            let body = rest.subrange(gt + 1, body_end);
                            match sha256_attr(attrs) {
                                None => Err(Rejection::Malformed("no sha256 attribute"@)),
                                Some(want) => if !contains(attrs, encoding_attr()) {
                                    Err(Rejection::Malformed("unsupported encoding"@))
                                } else if body.len() > body_cap() {
                                    Err(Rejection::TooLarge(body.len() as usize))
                                } else {
                                    decoded(base64_decode(trim(body)), want)
                                },
                            }
                        },
                    },
                }
            },
        }
    }
}

/// Reads the payload out of an SVG document: well-formed UTF-8, exactly one
/// payload element in base64 with a checksum attribute, within the cap, its
/// checksum matching.
#[verifier::spinoff_prover]
pub fn unwrap(bytes: &[u8]) -> (r: Result<Vec<u8>, Error>)
    ensures
        outcome(r) == unwrap_result(bytes@),
{
    proof {
        lemma_tag_bytes();
    }
    if !is_utf8(bytes) {
        return Err(malformed("not utf-8"));
    }
    let total = bytes.len();
    let at = match find(bytes, open_tag_bytes(), 0) {
        Some(p) => p,
        None => return Err(Error::NotFound),
    };
    proof {
        lemma_find_from(bytes@, open_tag(), 0);
    }
    if find(bytes, open_tag_bytes(), at + 1).is_some() {
        return Err(Error::Multiple);
    }
    let rest = slice_subrange(bytes, at + 13, total);
    assert(rest@ =~= bytes@.skip(at + open_tag().len()));
    let gt = match find(rest, tag_end_bytes(), 0) {
        Some(p) => p,
        None => return Err(malformed("unterminated tag")),
    };
    proof {
        lemma_find_from(rest@, tag_end(), 0);
    }
    let body_end = match find(rest, close_tag_bytes(), 0) {
        Some(p) => p,
        None => return Err(malformed("no close tag")),
    };
    proof {
        lemma_find_from(rest@, close_tag(), 0);
    }
    if body_end < gt {
        return Err(malformed("bad element"));
    }
    proof {
        assert(rest@.subrange(gt as int, gt + 1)[0] == rest@[gt as int]);
        assert(rest@.subrange(body_end as int, body_end + 14)[0] == rest@[body_end as int]);
    }
    let attrs = slice_subrange(rest, 0, gt);
    assert(attrs@ =~= rest@.take(gt as int));
    let body = slice_subrange(rest, gt + 1, body_end);
    let (a, e) = match sha256_attr_bounds(attrs) {
        Some(bounds) => bounds,
        None => return Err(malformed("no sha256 attribute")),
    };
    let want = slice_subrange(attrs, a, e);
    proof {
        lemma_find_from(attrs@, encoding_attr(), 0);
    }
    if find(attrs, encoding_attr_bytes(), 0).is_none() {
        return Err(malformed("unsupported encoding"));
    }
    if body.len() > MAX_PAYLOAD * 4 / 3 + 4 {
        return Err(Error::TooLarge(body.len()));
    }
    let (s, t) = trim_bounds(body);
    let text = slice_subrange(body, s, t);
    decoded_payload(decode_base64(text), want)
}

} // verus!
