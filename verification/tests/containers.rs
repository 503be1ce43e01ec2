use artifact::digest::hex_lower_bytes;
use artifact::{check_payload, detect, embed_payload, extract_payload, pdf, sha256_hex, svg, Error, Format, MAX_PAYLOAD};

const PROGRAM_JSON: &[u8] = br#"{"blocks":[{"name":"entry","ops":[{"LoadI":[0,0]},{"LoadI":[1,1]}]}]}"#;

fn bytes_from(seed: u64, len: usize) -> Vec<u8> {
    let mut x = seed.wrapping_mul(0x9E37_79B9_7F4A_7C15) | 1;
    (0..len)
        .map(|_| {
            x ^= x << 13;
            x ^= x >> 7;
            x ^= x << 17;
            (x >> 24) as u8
        })
        .collect()
}

fn as_text(bytes: &[u8]) -> String {
    bytes.iter().map(|&b| if b < 0x80 { b as char } else { '?' }).collect()
}

#[test]
fn payload_roundtrips_in_both_formats() {
    for fmt in [Format::Pdf, Format::Svg] {
        let bytes = embed_payload(fmt, PROGRAM_JSON, "Sum (1..5)").unwrap();
        assert_eq!(detect(&bytes), Some(fmt));
        assert_eq!(extract_payload(&bytes).unwrap(), PROGRAM_JSON.to_vec());
    }
}

#[test]
fn arbitrary_payloads_roundtrip() {
    for (seed, len) in [(1u64, 0usize), (2, 1), (3, 2), (4, 3), (5, 57), (6, 300), (7, 1999)] {
        let payload = bytes_from(seed, len);
        if let Ok(f) = pdf::wrap(&payload, "t") {
            assert_eq!(pdf::unwrap(&f).unwrap(), payload);
        }
        assert_eq!(svg::unwrap(&svg::wrap(&payload, "t").unwrap()).unwrap(), payload);
    }
}

#[test]
fn pdf_is_structurally_valid_xref_and_inert() {
    let bytes = embed_payload(Format::Pdf, PROGRAM_JSON, "T (with) \\ parens").unwrap();
    let text = as_text(&bytes);
    for bad in ["/JavaScript", "/JS ", "/Launch", "/OpenAction", "/AA "] {
        assert!(!text.contains(bad), "active content key {bad}");
    }
    let sx = text.rfind("startxref\n").unwrap() + "startxref\n".len();
    let xref: usize = text[sx..].lines().next().unwrap().parse().unwrap();
    assert!(text[xref..].starts_with("xref\n"));
    let mut seen = 0;
    for (i, line) in text[xref..]
        .lines()
        .skip(3)
        .take_while(|l| l.ends_with(" n "))
        .enumerate()
    {
        let off: usize = line[..10].parse().unwrap();
        assert!(text[off..].starts_with(&format!("{} 0 obj", i + 1)), "obj {}", i + 1);
        seen += 1;
    }
    assert_eq!(seen, 7);
    assert!(text.contains("(T \\(with\\) \\\\ parens)"));
}

#[test]
fn failure_modes_fail_closed() {
    assert_eq!(extract_payload(b"hello").unwrap_err(), Error::UnknownFormat);
    assert_eq!(extract_payload(b"%PDF-1.7\n%%EOF").unwrap_err(), Error::NotFound);
    let mut pdf_bytes = embed_payload(Format::Pdf, PROGRAM_JSON, "t").unwrap();
    let pos = pdf_bytes.windows(2).position(|w| w == b"{\"").unwrap();
    pdf_bytes[pos + 2] ^= 1;
    assert_eq!(extract_payload(&pdf_bytes).unwrap_err(), Error::HashMismatch);
    let svg_bytes = embed_payload(Format::Svg, PROGRAM_JSON, "t").unwrap();
    let doubled = [svg_bytes.clone(), svg_bytes].concat();
    assert_eq!(extract_payload(&doubled).unwrap_err(), Error::Multiple);
    let huge = vec![0u8; MAX_PAYLOAD + 1];
    assert!(matches!(pdf::wrap(&huge, "t"), Err(Error::TooLarge(_))));
}

#[test]
fn extract_refuses_unknown_and_empty_containers() {
    assert_eq!(extract_payload(b"hello").unwrap_err(), Error::UnknownFormat);
    assert_eq!(extract_payload(b"%PDF-1.7\n%%EOF").unwrap_err(), Error::NotFound);
}

#[test]
fn corrupted_pdf_payload_fails_integrity_check() {
    let mut pdf_bytes = embed_payload(Format::Pdf, PROGRAM_JSON, "t").unwrap();
    let pos = pdf_bytes.windows(2).position(|w| w == b"{\"").unwrap();
    pdf_bytes[pos + 2] ^= 1;
    assert_eq!(extract_payload(&pdf_bytes).unwrap_err(), Error::HashMismatch);
}

#[test]
fn doubled_svg_is_ambiguous() {
    let svg_bytes = embed_payload(Format::Svg, PROGRAM_JSON, "t").unwrap();
    let doubled = [svg_bytes.clone(), svg_bytes].concat();
    assert_eq!(extract_payload(&doubled).unwrap_err(), Error::Multiple);
}

#[test]
fn oversized_payloads_are_refused() {
    let huge = vec![0u8; MAX_PAYLOAD + 1];
    assert!(matches!(pdf::wrap(&huge, "t"), Err(Error::TooLarge(_))));
    assert_eq!(svg::wrap(&huge, "t").unwrap_err(), Error::TooLarge(MAX_PAYLOAD + 1));
    assert_eq!(
        embed_payload(Format::Pdf, &huge, "t").unwrap_err(),
        Error::TooLarge(MAX_PAYLOAD + 1)
    );
    let at_cap = vec![7u8; MAX_PAYLOAD];
    let f = svg::wrap(&at_cap, "t").unwrap();
    assert_eq!(svg::unwrap(&f).unwrap(), at_cap);
}

#[test]
fn payload_with_marker_is_refused_at_pack_time() {
    let payload = b"xx /Type /EmbeddedFile yy";
    assert_eq!(
        pdf::wrap(payload, "t").unwrap_err(),
        Error::Malformed("payload contains container marker".to_string())
    );
}

#[test]
fn title_holding_the_marker_makes_the_pdf_ambiguous() {
    let f = pdf::wrap(PROGRAM_JSON, "/Type /EmbeddedFile").unwrap();
    assert_eq!(pdf::unwrap(&f).unwrap_err(), Error::Multiple);
}

#[test]
fn single_byte_corruption_never_yields_different_payload() {
    let payload = bytes_from(42, 40);
    let pdf_file = pdf::wrap(&payload, "t").unwrap();
    let svg_file = svg::wrap(&payload, "t").unwrap();
    for (file, unwrap) in [
        (&pdf_file, pdf::unwrap as fn(&[u8]) -> Result<Vec<u8>, Error>),
        (&svg_file, svg::unwrap as fn(&[u8]) -> Result<Vec<u8>, Error>),
    ] {
        for i in 0..file.len() {
            for flip in [1u8, 0x20, 0x80, 0xff] {
                let mut bad = file.clone();
                bad[i] ^= flip;
                if let Ok(got) = unwrap(&bad) {
                    assert_eq!(got, payload);
                }
            }
        }
    }
}

#[test]
fn sha256_hex_of_known_inputs() {
    assert_eq!(
        sha256_hex(b""),
        "e3b0c44298fc1c149afbf4c8996fb92427ae41e4649b934ca495991b7852b855"
    );
    assert_eq!(
        sha256_hex(b"abc"),
        "ba7816bf8f01cfea414140de5dae2223b00361a396177a9cb410ff61f20015ad"
    );
}

#[test]
fn detect_by_leading_bytes() {
    assert_eq!(detect(b"%PDF-1.4 rest"), Some(Format::Pdf));
    assert_eq!(detect(b"<?xml version=\"1.0\"?>\n<svg>"), Some(Format::Svg));
    assert_eq!(detect(b"<sv"), None);
    let mut late = vec![b' '; 512];
    late.extend_from_slice(b"<svg");
    assert_eq!(detect(&late), None);
    let mut just_in = vec![b' '; 511];
    just_in.extend_from_slice(b"<svg");
    assert_eq!(detect(&just_in), Some(Format::Svg));
}

#[test]
fn pdf_malformed_dictionaries() {
    let m = |s: &str| Error::Malformed(s.to_string());
    assert_eq!(pdf::unwrap(b"%PDF /Type /EmbeddedFile no").unwrap_err(), m("no stream"));
    assert_eq!(
        pdf::unwrap(b"/Type /EmbeddedFile /Size 3 stream\n").unwrap_err(),
        m("no /Length")
    );
    assert_eq!(
        pdf::unwrap(b"/Type /EmbeddedFile /Length x stream\n").unwrap_err(),
        m("bad /Length")
    );
    assert_eq!(
        pdf::unwrap(b"/Type /EmbeddedFile /Length 99999999999999999999999 stream\n").unwrap_err(),
        m("bad /Length")
    );
    assert_eq!(
        pdf::unwrap(b"/Type /EmbeddedFile /Length 2000000 stream\n").unwrap_err(),
        Error::TooLarge(2_000_000)
    );
    assert_eq!(
        pdf::unwrap(b"/Type /EmbeddedFile /Length 3 stream\n").unwrap_err(),
        m("no checksum")
    );
    assert_eq!(
        pdf::unwrap(b"/Type /EmbeddedFile /Length 3 /IMC_SHA256 (abc) stream\n").unwrap_err(),
        m("short checksum")
    );
    let h = sha256_hex(b"abc");
    let file = format!("/Type /EmbeddedFile /Length 4 /IMC_SHA256 ({h}) stream\nabc");
    assert_eq!(pdf::unwrap(file.as_bytes()).unwrap_err(), m("stream exceeds file"));
    let file = format!("/Type /EmbeddedFile /Length 3 /IMC_SHA256 ({h}) stream\nabc");
    assert_eq!(pdf::unwrap(file.as_bytes()).unwrap(), b"abc".to_vec());
    let file = format!("/Type /EmbeddedFile /Length 3 /IMC_SHA256 ({h}) stream\nabd");
    assert_eq!(pdf::unwrap(file.as_bytes()).unwrap_err(), Error::HashMismatch);
}

#[test]
fn svg_malformed_elements() {
    let m = |s: &str| Error::Malformed(s.to_string());
    assert_eq!(svg::unwrap(b"<svg \xff").unwrap_err(), m("not utf-8"));
    assert_eq!(svg::unwrap(b"<svg></svg>").unwrap_err(), Error::NotFound);
    assert_eq!(svg::unwrap(b"<imc:program abc").unwrap_err(), m("unterminated tag"));
    assert_eq!(svg::unwrap(b"<imc:program a>b").unwrap_err(), m("no close tag"));
    assert_eq!(
        svg::unwrap(b"<imc:program </imc:program>>").unwrap_err(),
        m("bad element")
    );
    assert_eq!(
        svg::unwrap(b"<imc:program encoding=\"base64\">YWJj</imc:program>").unwrap_err(),
        m("no sha256 attribute")
    );
    let h = sha256_hex(b"abc");
    let doc = format!("<imc:program sha256=\"{h}\">YWJj</imc:program>");
    assert_eq!(svg::unwrap(doc.as_bytes()).unwrap_err(), m("unsupported encoding"));
    let doc = format!("<imc:program encoding=\"base64\" sha256=\"{h}\">YWJ</imc:program>");
    assert!(matches!(svg::unwrap(doc.as_bytes()), Err(Error::Malformed(s)) if s.starts_with("base64: ")));
    let doc = format!("<imc:program encoding=\"base64\" sha256=\"{h}\">\n  YWJj\u{a0}\u{3000}</imc:program>");
    assert_eq!(svg::unwrap(doc.as_bytes()).unwrap(), b"abc".to_vec());
    let doc = format!("<imc:program encoding=\"base64\" sha256=\"{h}\">YWJk</imc:program>");
    assert_eq!(svg::unwrap(doc.as_bytes()).unwrap_err(), Error::HashMismatch);
    let big = "A".repeat(MAX_PAYLOAD * 4 / 3 + 5);
    let doc = format!("<imc:program encoding=\"base64\" sha256=\"{h}\">{big}</imc:program>");
    assert_eq!(
        svg::unwrap(doc.as_bytes()).unwrap_err(),
        Error::TooLarge(MAX_PAYLOAD * 4 / 3 + 5)
    );
}

#[test]
fn svg_title_is_escaped() {
    let f = svg::wrap(b"p", "a<b>&\"c\u{1}\u{e9}").unwrap();
    let text = String::from_utf8(f.clone()).unwrap();
    assert!(text.contains("<title>a&lt;b&gt;&amp;&quot;c?\u{e9}</title>"));
    assert_eq!(svg::unwrap(&f).unwrap(), b"p".to_vec());
}

#[test]
fn pdf_title_is_escaped() {
    let f = pdf::wrap(b"p", "a(b)\\c\u{7}\u{e9}").unwrap();
    let text = as_text(&f);
    assert!(text.contains("Td (a\\(b\\)\\\\c??) Tj ET"));
    assert_eq!(pdf::unwrap(&f).unwrap(), b"p".to_vec());
}

#[test]
fn hex_of_bytes() {
    assert_eq!(hex_lower_bytes(&[0x00, 0x0f, 0xab, 0xff]), b"000fabff".to_vec());
    assert_eq!(hex_lower_bytes(&[]), Vec::<u8>::new());
}

#[test]
fn integrity_check_compares_checksum_text() {
    assert_eq!(check_payload(b"abc", b"12", b"12").unwrap(), b"abc".to_vec());
    assert_eq!(check_payload(b"abc", b"12", b"13").unwrap_err(), Error::HashMismatch);
    assert_eq!(check_payload(b"abc", b"12", b"123").unwrap_err(), Error::HashMismatch);
}

#[test]
fn pdf_document_carries_the_given_checksum() {
    let payload = b"{\"blocks\":[]}";
    let h = sha256_hex(payload);
    assert_eq!(
        pdf::document_with_checksum(payload, "t", h.as_bytes()),
        pdf::wrap(payload, "t").unwrap()
    );
    let zeros = "0".repeat(64);
    let forged = pdf::document_with_checksum(payload, "t", zeros.as_bytes());
    assert!(as_text(&forged).contains(&format!("/IMC_SHA256 ({zeros})")));
    assert_eq!(pdf::unwrap(&forged).unwrap_err(), Error::HashMismatch);
}

#[test]
fn svg_document_carries_the_given_texts() {
    let f = svg::wrap(b"hello", "t").unwrap();
    let text = String::from_utf8(f.clone()).unwrap();
    assert!(text.contains(">aGVsbG8=</imc:program>"));
    let h = sha256_hex(b"hello");
    assert_eq!(svg::document_bytes("t", h.as_bytes(), b"aGVsbG8="), f);
    let other = svg::document_bytes("t", h.as_bytes(), b"aGVsbG9=");
    assert!(svg::unwrap(&other).is_err());
}

#[test]
fn decoded_body_is_checked() {
    let h = sha256_hex(b"abc");
    assert_eq!(
        svg::decoded_payload(Ok(b"abc".to_vec()), h.as_bytes()).unwrap(),
        b"abc".to_vec()
    );
    assert_eq!(
        svg::decoded_payload(Ok(b"abd".to_vec()), h.as_bytes()).unwrap_err(),
        Error::HashMismatch
    );
    assert_eq!(
        svg::decoded_payload(Err("bad symbol".to_string()), h.as_bytes()).unwrap_err(),
        Error::Malformed("base64: bad symbol".to_string())
    );
    assert_eq!(
        svg::decoded_payload(Ok(vec![0u8; MAX_PAYLOAD + 1]), h.as_bytes()).unwrap_err(),
        Error::TooLarge(MAX_PAYLOAD + 1)
    );
}

#[test]
fn accepted_files_carry_their_checksum_and_one_payload() {
    for fmt in [Format::Pdf, Format::Svg] {
        let file = embed_payload(fmt, PROGRAM_JSON, "t").unwrap();
        let got = extract_payload(&file).unwrap();
        assert!(got.len() <= MAX_PAYLOAD);
        let text = as_text(&file);
        assert!(text.contains(&sha256_hex(&got)));
        let tag = if fmt == Format::Pdf { "/Type /EmbeddedFile" } else { "<imc:program " };
        assert_eq!(text.matches(tag).count(), 1);
    }
}

#[test]
fn svg_holds_no_script_whatever_the_title() {
    for title in ["<script>alert(1)</script>", "t", "<<script"] {
        let f = svg::wrap(b"<script>", title).unwrap();
        assert!(!as_text(&f).contains("<script"));
        assert_eq!(svg::unwrap(&f).unwrap(), b"<script>".to_vec());
    }
}

#[test]
fn pdf_active_keys_come_only_from_payload_or_title() {
    let keys = ["/JavaScript", "/JS ", "/Launch", "/OpenAction", "/AA "];
    let f = pdf::wrap(PROGRAM_JSON, "T (with) \\ parens").unwrap();
    for key in keys {
        assert!(!as_text(&f).contains(key));
    }
    let g = pdf::wrap(b"p", "/JS ").unwrap();
    assert_eq!(as_text(&g).matches("/JS ").count(), 1);
    let h = pdf::wrap(b"/Launch", "t").unwrap();
    assert_eq!(as_text(&h).matches("/Launch").count(), 1);
}

#[test]
fn single_byte_corruption_of_a_pdf_with_a_marked_title() {
    let payload = bytes_from(7, 24);
    let file = pdf::wrap(&payload, "/Type /EmbeddedFile /Length 3 /IMC_SHA256(").unwrap();
    assert_eq!(pdf::unwrap(&file).unwrap_err(), Error::Multiple);
    let mut read_back = 0;
    for i in 0..file.len() {
        for flip in [1u8, 0x20, 0x40, 0xff] {
            let mut bad = file.clone();
            bad[i] ^= flip;
            if let Ok(got) = pdf::unwrap(&bad) {
                assert_eq!(got, payload);
                read_back += 1;
            }
        }
    }
    assert!(read_back > 0);
}

#[test]
fn svg_tags_carry_no_event_handlers() {
    for title in ["onload=alert(1) <b onclick=x>", "\" onmouseover=\"x", "t"] {
    let f = svg::wrap(PROGRAM_JSON, title).unwrap();
    let text = String::from_utf8(f).unwrap();
    let mut rest = text.as_str();
    let mut tags = 0;
    while let Some(open) = rest.find('<') {
        let close = rest[open..].find('>').unwrap() + open;
        let tag = &rest[open..=close];
        assert!(!tag.contains(" on"), "handler in {tag}");
        tags += 1;
        rest = &rest[close + 1..];
    }
    assert_eq!(tags, 10);
    }
}
