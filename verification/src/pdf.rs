//! PDF container: the payload is a standard embedded-file attachment
//! (`/EmbeddedFiles` name tree -> `/Filespec` -> `/EmbeddedFile` stream).
//! No JavaScript, no actions, no launch: a viewer just shows a page of text.

use vstd::prelude::*;
use vstd::slice::slice_subrange;
use vstd::slice::slice_to_vec;
use vstd::utf8::encode_utf8;

use crate::decimal::{
    decimal, digit_prefix, digit_run_end, digits_to_usize, lemma_digit_prefix_digits,
    parse_digits, push_decimal, push_zero_padded, zero_padded,
};
use crate::digest::{hex_lower, sha256, sha256_hex_bytes};
use crate::seqs::{append, contains, find, find_from, lemma_find_from};
use crate::text::{chars_of, string_of_chars};
use crate::{check_payload, malformed, outcome, Error, Rejection, MAX_PAYLOAD};

verus! {

/// The key that marks the embedded payload's dictionary.
pub open spec fn marker() -> Seq<u8> {
    encode_utf8("/Type /EmbeddedFile"@)
}

/// The keyword that opens a stream, with its end of line.
pub open spec fn stream_tag() -> Seq<u8> {
    encode_utf8("stream\n"@)
}

/// The key of a stream's length.
pub open spec fn length_key() -> Seq<u8> {
    encode_utf8("/Length "@)
}

/// The key of the payload's checksum, with the opening parenthesis.
pub open spec fn hash_key() -> Seq<u8> {
    encode_utf8("/IMC_SHA256 ("@)
}

#[verifier::spinoff_prover]
fn marker_bytes() -> (b: &'static [u8])
    ensures
        b@ == marker(),
{
    "/Type /EmbeddedFile".as_bytes()
}

#[verifier::spinoff_prover]
fn stream_tag_bytes() -> (b: &'static [u8])
    ensures
        b@ == stream_tag(),
{
    "stream\n".as_bytes()
}

#[verifier::spinoff_prover]
fn length_key_bytes() -> (b: &'static [u8])
    ensures
        b@ == length_key(),
{
    "/Length ".as_bytes()
}

#[verifier::spinoff_prover]
fn hash_key_bytes() -> (b: &'static [u8])
    ensures
        b@ == hash_key(),
{
    "/IMC_SHA256 (".as_bytes()
}

/// The lengths of the marker, the stream keyword and the two keys.
#[verifier::spinoff_prover]
pub proof fn lemma_key_lengths()
    ensures
        marker().len() == 19,
        stream_tag().len() == 7,
        length_key().len() == 8,
        hash_key().len() == 13,
{
    reveal_strlit("/Type /EmbeddedFile");
    reveal_strlit("stream\n");
    reveal_strlit("/Length ");
    reveal_strlit("/IMC_SHA256 (");
    vstd::utf8::is_ascii_chars_encode_utf8("/Type /EmbeddedFile"@);
    vstd::utf8::is_ascii_chars_encode_utf8("stream\n"@);
    vstd::utf8::is_ascii_chars_encode_utf8("/Length "@);
    vstd::utf8::is_ascii_chars_encode_utf8("/IMC_SHA256 ("@);
}

/// `c` is ASCII and not an ASCII control character.
pub open spec fn is_ascii_printable(c: char) -> bool {
    ' ' <= c && c <= '~'
}

/// How one character of a title is written inside a PDF string literal.
pub open spec fn escape_char(c: char) -> Seq<char> {
    if c == '(' || c == ')' || c == '\\' {
        seq!['\\', c]
    } else if is_ascii_printable(c) {
        seq![c]
    } else {
        seq!['?']
    }
}

/// A title written inside a PDF string literal: parentheses and backslashes
/// escaped, anything else outside printable ASCII replaced by `?`.
pub open spec fn escape_text(s: Seq<char>) -> Seq<char>
    decreases s.len(),
{
    if s.len() == 0 {
        Seq::empty()
    } else {
        escape_text(s.drop_last()) + escape_char(s.last())
    }
}

/// A title written inside a PDF string literal.
#[verifier::spinoff_prover]
fn escape(s: &str) -> (out: String)
    ensures
        out@ == escape_text(s@),
{
    let chars = chars_of(s);
    let mut out: Vec<char> = Vec::new();
    let n = chars.len();
    let mut i: usize = 0;
    while i < n
        invariant
            i <= n,
            n == chars@.len(),
            out@ == escape_text(chars@.take(i as int)),
        decreases n - i,
    {
        let c = chars[i];
        let ghost before = out@;
        if c == '(' || c == ')' || c == '\\' {
            out.push('\\');
            out.push(c);
        } else if ' ' <= c && c <= '~' {
            out.push(c);
        } else {
            out.push('?');
        }
        proof {
            assert(chars@.take(i + 1).drop_last() =~= chars@.take(i as int));
            assert(out@ =~= before + escape_char(c));
        }
        i = i + 1;
    }
    assert(chars@.take(n as int) =~= chars@);
    string_of_chars(out)
}

/// The page's content stream: the title as a line of text.
pub open spec fn content(title: Seq<char>) -> Seq<u8> {
    encode_utf8("BT /F1 18 Tf 72 720 Td ("@) + encode_utf8(escape_text(title)) + encode_utf8(
        ") Tj ET"@,
    )
}

/// The document catalog, naming the embedded file.
pub open spec fn catalog() -> Seq<u8> {
    encode_utf8(
        "<< /Type /Catalog /Pages 2 0 R /Names << /EmbeddedFiles << /Names [(program.imcp) 5 0 R] >> >> >>"@,
    )
}

/// The page tree, of one page.
pub open spec fn pages() -> Seq<u8> {
    encode_utf8("<< /Type /Pages /Kids [3 0 R] /Count 1 >>"@)
}

/// The one page, showing the content stream.
pub open spec fn page() -> Seq<u8> {
    encode_utf8(
        "<< /Type /Page /Parent 2 0 R /MediaBox [0 0 612 792] /Contents 4 0 R /Resources << /Font << /F1 7 0 R >> >> >>"@,
    )
}

/// The page's content stream object.
pub open spec fn content_object(title: Seq<char>) -> Seq<u8> {
    encode_utf8("<< /Length "@) + decimal(content(title).len()) + encode_utf8(" >>\nstream\n"@)
        + content(title) + encode_utf8("\nendstream"@)
}

/// The file specification of the embedded file.
pub open spec fn filespec() -> Seq<u8> {
    encode_utf8("<< /Type /Filespec /F (program.imcp) /UF (program.imcp) /EF << /F 6 0 R >> >>"@)
}

/// The dictionary of the embedded-file stream, up to and with `stream\n`,
/// with the given checksum text.
pub open spec fn embedded_dict_with(payload: Seq<u8>, checksum: Seq<u8>) -> Seq<u8> {
    encode_utf8("<< /Type /EmbeddedFile /Subtype /application#2Fjson /Length "@) + decimal(
        payload.len(),
    ) + encode_utf8(" /Params << /Size "@) + decimal(payload.len()) + encode_utf8(
        " /IMC_SHA256 ("@,
    ) + checksum + encode_utf8(") >> >>\nstream\n"@)
}

/// The dictionary of the embedded-file stream, with the payload's checksum.
pub open spec fn embedded_dict(payload: Seq<u8>) -> Seq<u8> {
    embedded_dict_with(payload, hex_lower(sha256(payload)@))
}

/// The embedded-file stream object that carries the payload, with the given
/// checksum text.
pub open spec fn embedded_file_with(payload: Seq<u8>, checksum: Seq<u8>) -> Seq<u8> {
    embedded_dict_with(payload, checksum) + payload + encode_utf8("\nendstream"@)
}

/// The embedded-file stream object that carries the payload.
pub open spec fn embedded_file(payload: Seq<u8>) -> Seq<u8> {
    embedded_file_with(payload, hex_lower(sha256(payload)@))
}

/// The font of the page's text.
pub open spec fn font() -> Seq<u8> {
    encode_utf8("<< /Type /Font /Subtype /Type1 /BaseFont /Helvetica >>"@)
}

/// The objects of the document, in order, with the given checksum text of
/// the payload; object `i + 1` is at index `i`.
pub open spec fn objects_with(payload: Seq<u8>, title: Seq<char>, checksum: Seq<u8>) -> Seq<
    Seq<u8>,
> {
    seq![
        catalog(),
        pages(),
        page(),
        content_object(title),
        filespec(),
        embedded_file_with(payload, checksum),
        font(),
    ]
}

/// The objects of the document, in order; object `i + 1` is at index `i`.
pub open spec fn objects(payload: Seq<u8>, title: Seq<char>) -> Seq<Seq<u8>> {
    objects_with(payload, title, hex_lower(sha256(payload)@))
}

/// The file header: version line and a comment line of four high bytes.
pub open spec fn header() -> Seq<u8> {
    encode_utf8("%PDF-1.7\n%"@) + seq![0xE2u8, 0xE3u8, 0xCFu8, 0xD3u8] + encode_utf8("\n"@)
}

/// Indirect object number `i + 1` with the given body.
pub open spec fn framed(i: nat, body: Seq<u8>) -> Seq<u8> {
    decimal(i + 1) + encode_utf8(" 0 obj\n"@) + body + encode_utf8("\nendobj\n"@)
}

/// The header followed by the first `k` objects.
pub open spec fn body_upto(objs: Seq<Seq<u8>>, k: nat) -> Seq<u8>
    decreases k,
{
    if k == 0 {
        header()
    } else {
        body_upto(objs, (k - 1) as nat) + framed((k - 1) as nat, objs[k - 1])
    }
}

/// Cross-reference entries of the first `k` objects: each gives the offset
/// at which its object starts.
pub open spec fn xref_entries(objs: Seq<Seq<u8>>, k: nat) -> Seq<u8>
    decreases k,
{
    if k == 0 {
        Seq::empty()
    } else {
        xref_entries(objs, (k - 1) as nat) + zero_padded(
            body_upto(objs, (k - 1) as nat).len(),
            10,
        ) + encode_utf8(" 00000 n \n"@)
    }
}

/// The cross-reference table and trailer after the objects: the table
/// gives each object's offset, the trailer where the table starts.
pub open spec fn xref_section(objs: Seq<Seq<u8>>) -> Seq<u8> {
    encode_utf8("xref\n0 "@) + decimal(objs.len() + 1) + encode_utf8("\n0000000000 65535 f \n"@)
        + xref_entries(objs, objs.len()) + encode_utf8("trailer\n<< /Size "@) + decimal(
        objs.len() + 1,
    ) + encode_utf8(" /Root 1 0 R >>\nstartxref\n"@) + decimal(
        body_upto(objs, objs.len()).len(),
    ) + encode_utf8("\n%%EOF\n"@)
}

/// A whole document: header, objects, cross-reference table and trailer.
pub open spec fn document(objs: Seq<Seq<u8>>) -> Seq<u8> {
    body_upto(objs, objs.len()) + xref_section(objs)
}

/// What wrapping a payload gives: the document, unless the payload is over
/// the cap or holds the marker of the embedded file.
pub open spec fn wrap_result(payload: Seq<u8>, title: Seq<char>) -> Result<Seq<u8>, Rejection> {
    if payload.len() > MAX_PAYLOAD {
        Err(Rejection::TooLarge(payload.len() as usize))
    } else if contains(payload, marker()) {
        Err(Rejection::Malformed("payload contains container marker"@))
    } else {
        Ok(document(objects(payload, title)))
    }
}

/// The page's content stream object for a title.
#[verifier::spinoff_prover]
fn content_object_bytes(title: &str) -> (out: Vec<u8>)
    ensures
        out@ == content_object(title@),
{
    let esc = escape(title);
    let mut content_bytes: Vec<u8> = Vec::new();
    append(&mut content_bytes, "BT /F1 18 Tf 72 720 Td (".as_bytes());
    append(&mut content_bytes, esc.as_str().as_bytes());
    append(&mut content_bytes, ") Tj ET".as_bytes());
    assert(content_bytes@ =~= content(title@));

    let mut obj: Vec<u8> = Vec::new();
    append(&mut obj, "<< /Length ".as_bytes());
    push_decimal(&mut obj, content_bytes.len());
    append(&mut obj, " >>\nstream\n".as_bytes());
    append(&mut obj, content_bytes.as_slice());
    append(&mut obj, "\nendstream".as_bytes());
    assert(obj@ =~= content_object(title@));
    obj
}

/// The embedded-file stream object for a payload and its checksum text.
#[verifier::spinoff_prover]
fn embedded_file_bytes(payload: &[u8], checksum: &[u8]) -> (out: Vec<u8>)
    ensures
        out@ == embedded_file_with(payload@, checksum@),
{
    let mut obj: Vec<u8> = Vec::new();
    append(&mut obj, "<< /Type /EmbeddedFile /Subtype /application#2Fjson /Length ".as_bytes());
    push_decimal(&mut obj, payload.len());
    append(&mut obj, " /Params << /Size ".as_bytes());
    push_decimal(&mut obj, payload.len());
    append(&mut obj, " /IMC_SHA256 (".as_bytes());
    append(&mut obj, checksum);
    append(&mut obj, ") >> >>\nstream\n".as_bytes());
    assert(obj@ =~= embedded_dict_with(payload@, checksum@));
    append(&mut obj, payload);
    append(&mut obj, "\nendstream".as_bytes());
    assert(obj@ =~= embedded_file_with(payload@, checksum@));
    obj
}

/// The bodies of a list of objects.
pub open spec fn bodies(objects: Seq<Vec<u8>>) -> Seq<Seq<u8>> {
    objects.map_values(|v: Vec<u8>| v@)
}

/// The header followed by the objects, with the offset at which each
/// object starts.
#[verifier::spinoff_prover]
fn write_body(objects_vec: &Vec<Vec<u8>>) -> (r: (Vec<u8>, Vec<usize>))
    requires
        objects_vec@.len() < 1000,
    ensures
        r.0@ == body_upto(bodies(objects_vec@), objects_vec@.len() as nat),
        r.1@.len() == objects_vec@.len(),
        forall|k: int|
            0 <= k < r.1@.len() ==> r.1@[k] == body_upto(bodies(objects_vec@), k as nat).len(),
{
    let ghost objs = bodies(objects_vec@);
    let mut out: Vec<u8> = Vec::new();
    append(&mut out, "%PDF-1.7\n%".as_bytes());
    out.push(0xE2);
    out.push(0xE3);
    out.push(0xCF);
    out.push(0xD3);
    append(&mut out, "\n".as_bytes());
    assert(out@ =~= body_upto(objs, 0));
    let count = objects_vec.len();
    let mut offsets: Vec<usize> = Vec::new();
    let mut i: usize = 0;
    while i < count
        invariant
            i <= count,
            count == objects_vec@.len(),
            count < 1000,
            objs == bodies(objects_vec@),
            out@ == body_upto(objs, i as nat),
            offsets@.len() == i,
            forall|k: int| 0 <= k < i ==> offsets@[k] == body_upto(objs, k as nat).len(),
        decreases count - i,
    {
        let ghost before = out@;
        offsets.push(out.len());
        push_decimal(&mut out, i + 1);
        append(&mut out, " 0 obj\n".as_bytes());
        append(&mut out, objects_vec[i].as_slice());
        append(&mut out, "\nendobj\n".as_bytes());
        assert(out@ =~= before + framed(i as nat, objs[i as int]));
        i = i + 1;
    }
    (out, offsets)
}

/// Appends the cross-reference entries of the objects, given the offset at
/// which each starts.
#[verifier::spinoff_prover]
fn push_xref_entries(out: &mut Vec<u8>, offsets: &Vec<usize>, objects_vec: &Vec<Vec<u8>>)
    requires
        offsets@.len() == objects_vec@.len(),
        forall|k: int|
            0 <= k < offsets@.len() ==> offsets@[k] == body_upto(bodies(objects_vec@), k as nat).len(),
    ensures
        final(out)@ == old(out)@ + xref_entries(bodies(objects_vec@), objects_vec@.len() as nat),
{
    let ghost objs = bodies(objects_vec@);
    let ghost before_entries = out@;
    let count = offsets.len();
    let mut j: usize = 0;
    assert(out@ =~= before_entries + xref_entries(objs, 0));
    while j < count
        invariant
            j <= count,
            count == offsets@.len(),
            count == objs.len(),
            objs == bodies(objects_vec@),
            forall|k: int| 0 <= k < count ==> offsets@[k] == body_upto(objs, k as nat).len(),
            out@ == before_entries + xref_entries(objs, j as nat),
        decreases count - j,
    {
        push_zero_padded(out, offsets[j], 10);
        append(out, " 00000 n \n".as_bytes());
        assert(out@ =~= before_entries + xref_entries(objs, (j + 1) as nat));
        j = j + 1;
    }
}

/// Header, objects, cross-reference table and trailer.
#[verifier::spinoff_prover]
fn assemble(objects_vec: &Vec<Vec<u8>>) -> (out: Vec<u8>)
    requires
        objects_vec@.len() < 1000,
    ensures
        out@ == document(bodies(objects_vec@)),
{
    let ghost objs = bodies(objects_vec@);
    let (mut out, offsets) = write_body(objects_vec);
    let count = objects_vec.len();
    let xref = out.len();
    append(&mut out, "xref\n0 ".as_bytes());
    push_decimal(&mut out, count + 1);
    append(&mut out, "\n0000000000 65535 f \n".as_bytes());
    push_xref_entries(&mut out, &offsets, objects_vec);
    append(&mut out, "trailer\n<< /Size ".as_bytes());
    push_decimal(&mut out, count + 1);
    append(&mut out, " /Root 1 0 R >>\nstartxref\n".as_bytes());
    push_decimal(&mut out, xref);
    append(&mut out, "\n%%EOF\n".as_bytes());
    assert(out@ =~= document(objs));
    out
}

/// The document that carries a payload, with the given title and the
/// given checksum text of the payload.
#[verifier::spinoff_prover]
pub fn document_with_checksum(payload: &[u8], title: &str, checksum: &[u8]) -> (out: Vec<u8>)
    ensures
        out@ == document(objects_with(payload@, title@, checksum@)),
{
    let objects_vec: Vec<Vec<u8>> = vec![
        slice_to_vec(
            "<< /Type /Catalog /Pages 2 0 R /Names << /EmbeddedFiles << /Names [(program.imcp) 5 0 R] >> >> >>".as_bytes(),
        ),
        slice_to_vec("<< /Type /Pages /Kids [3 0 R] /Count 1 >>".as_bytes()),
        slice_to_vec(
            "<< /Type /Page /Parent 2 0 R /MediaBox [0 0 612 792] /Contents 4 0 R /Resources << /Font << /F1 7 0 R >> >> >>".as_bytes(),
        ),
        content_object_bytes(title),
        slice_to_vec(
            "<< /Type /Filespec /F (program.imcp) /UF (program.imcp) /EF << /F 6 0 R >> >>".as_bytes(),
        ),
        embedded_file_bytes(payload, checksum),
        slice_to_vec("<< /Type /Font /Subtype /Type1 /BaseFont /Helvetica >>".as_bytes()),
    ];
    assert(bodies(objects_vec@) =~= objects_with(payload@, title@, checksum@));
    assemble(&objects_vec)
}

/// Wraps a payload in a PDF document with the given title. What it writes
/// reads back as the payload, unless the escaped title holds the marker.
#[verifier::spinoff_prover]
pub fn wrap(payload: &[u8], title: &str) -> (r: Result<Vec<u8>, Error>)
    ensures
        outcome(r) == wrap_result(payload@, title@),
        r matches Ok(file) ==> (!contains(encode_utf8(escape_text(title@)), marker())
            ==> unwrap_result(file@) == Ok::<Seq<u8>, Rejection>(payload@)),
{
    if payload.len() > MAX_PAYLOAD {
        return Err(Error::TooLarge(payload.len()));
    }
    proof {
        lemma_key_lengths();
        lemma_find_from(payload@, marker(), 0);
    }
    if find(payload, marker_bytes(), 0).is_some() {
        return Err(malformed("payload contains container marker"));
    }
    proof {
        if !contains(encode_utf8(escape_text(title@)), marker()) {
            crate::laws::pdf_roundtrip(payload@, title@);
        }
    }
    let checksum = sha256_hex_bytes(payload);
    Ok(document_with_checksum(payload, title, checksum.as_slice()))
}

/// What reading the payload out of a file gives: the bytes of the one
/// embedded-file stream, once its length is read from its dictionary and its
/// SHA-256 digest matches the checksum written there.
pub open spec fn unwrap_result(b: Seq<u8>) -> Result<Seq<u8>, Rejection> {
    match find_from(b, marker(), 0) {
        None => Err(Rejection::NotFound),
        Some(at) => if find_from(b, marker(), at + 1) is Some {
            Err(Rejection::Multiple)
        } else {
            match find_from(b, stream_tag(), at) {
                None => Err(Rejection::Malformed("no stream"@)),
                Some(stream) => {
                    let dict = b.subrange(at, stream);
                    match find_from(dict, length_key(), 0) {
                        None => Err(Rejection::Malformed("no /Length"@)),
                        Some(l) => match digits_to_usize(
                            digit_prefix(dict.skip(l + length_key().len())),
                        ) {
                            None => Err(Rejection::Malformed("bad /Length"@)),
                            Some(len) => if len > MAX_PAYLOAD {
                                Err(Rejection::TooLarge(len))
                            } else {
                                match find_from(dict, hash_key(), 0) {
                                    None => Err(Rejection::Malformed("no checksum"@)),
                                    Some(h) => {
                                        let h_at = h + hash_key().len();
                                        let start = stream + stream_tag().len();
                                        if h_at + 64 > dict.len() {
                                            Err(Rejection::Malformed("short checksum"@))
                                        } else if start + len > b.len() {
                                            Err(Rejection::Malformed("stream exceeds file"@))
                                        } else {
                                            let payload = b.subrange(start, start + len);
                                            if hex_lower(sha256(payload)@) != dict.subrange(
                                                h_at,
                                                h_at + 64,
                                            ) {
                                                Err(Rejection::HashMismatch)
                                            } else {
                                                Ok(payload)
                                            }
                                        }
                                    },
                                }
                            },
                        },
                    }
                },
            }
        },
    }
}

/// Reads the payload out of a PDF document: exactly one embedded file, its
/// declared length within the cap and the file, its checksum matching.
#[verifier::spinoff_prover]
pub fn unwrap(bytes: &[u8]) -> (r: Result<Vec<u8>, Error>)
    ensures
        outcome(r) == unwrap_result(bytes@),
{
    proof {
        lemma_key_lengths();
    }
    let total = bytes.len();
    let at = match find(bytes, marker_bytes(), 0) {
        Some(p) => p,
        None => return Err(Error::NotFound),
    };
    proof {
        lemma_find_from(bytes@, marker(), 0);
    }
    if find(bytes, marker_bytes(), at + 1).is_some() {
        return Err(Error::Multiple);
    }
    let stream = match find(bytes, stream_tag_bytes(), at) {
        Some(p) => p,
        None => return Err(malformed("no stream")),
    };
    proof {
        lemma_find_from(bytes@, stream_tag(), at as int);
    }
    let dict = slice_subrange(bytes, at, stream);
    let l = match find(dict, length_key_bytes(), 0) {
        Some(p) => p,
        None => return Err(malformed("no /Length")),
    };
    proof {
        lemma_find_from(dict@, length_key(), 0);
    }
    let len_at = l + 8;
    let digits_end = digit_run_end(dict, len_at);
    let digits = slice_subrange(dict, len_at, digits_end);
    proof {
        lemma_digit_prefix_digits(dict@.skip(len_at as int));
        assert(dict@.skip(len_at as int) =~= dict@.subrange(len_at as int, dict@.len() as int));
    }
    let len = match parse_digits(digits) {
        Some(v) => v,
        None => return Err(malformed("bad /Length")),
    };
    if len > MAX_PAYLOAD {
        return Err(Error::TooLarge(len));
    }
    let h = match find(dict, hash_key_bytes(), 0) {
        Some(p) => p,
        None => return Err(malformed("no checksum")),
    };
    proof {
        lemma_find_from(dict@, hash_key(), 0);
    }
    let h_at = h + 13;
    if h_at > dict.len() || dict.len() - h_at < 64 {
        return Err(malformed("short checksum"));
    }
    let want = slice_subrange(dict, h_at, h_at + 64);
    let start = stream + 7;
    if len > bytes.len() - start {
        return Err(malformed("stream exceeds file"));
    }
    let payload = slice_subrange(bytes, start, start + len);
    let got = sha256_hex_bytes(payload);
    check_payload(payload, got.as_slice(), want)
}

} // verus!
