use wom::config::{Config, Profile};
use wom::extract::{
    body_budget_chars, choose_extractor, content_hash, dedupe_preserving_order, embed_text, finish,
    is_media_ext, lines_of, looks_binary, media_args, name_tokens, normalise_ws, parse_media_output,
    pdf_args, read_size, split_words, text_of, tool_text, with_place, Capabilities, Extractor, Kind,
};
use wom::geo::city_fields;
use wom::office::{is_wanted, office_text, xml_text};

/// What a caller makes of the media tool's output: the last two lines are coordinates only where
/// they read as such.
fn media(s: &str) -> (String, Option<(f64, f64)>) {
    if let Some(m) = parse_media_output(s) {
        if let (Ok(lat), Ok(lon)) = (m.lat.parse::<f64>(), m.lon.parse::<f64>()) {
            if (-90.0..=90.0).contains(&lat) && (-180.0..=180.0).contains(&lon) {
                return (m.text, Some((lat, lon)));
            }
        }
    }
    (s.to_string(), None)
}

/// Extracts from what the head of a file holds.
fn extract_head(path: &str, head: Option<&[u8]>, profile: Profile) -> wom::extract::Extracted {
    let cfg = Config::default();
    let caps = Capabilities::detect(false, false);
    let e = choose_extractor(path, profile, &cfg.extract, &caps);
    let n = read_size(&cfg, body_budget_chars(profile));
    let raw = match e {
        Extractor::Head => head.and_then(|h| text_of(&h[..h.len().min(n)])),
        _ => None,
    };
    finish(e, raw, profile)
}

#[test]
fn binary_detection_uses_nul_and_control_density() {
    assert!(looks_binary(b"\x7fELF\x02\x01\x01\x00"));
    assert!(!looks_binary(b"fn main() {}\n"));
    assert!(!looks_binary(b""));
    assert!(!looks_binary("h\u{e9}llo w\u{f6}rld\n".as_bytes()));
    // Dense control bytes without a NUL.
    assert!(looks_binary(&[0x01u8; 64]));
}

#[test]
fn split_words_breaks_on_separators_and_camel_case() {
    let mut w = Vec::new();
    split_words("esp32_prayerTimesWithWeather_n5endpoint", &mut w);
    assert_eq!(w, vec!["esp32", "prayer", "times", "with", "weather", "n5endpoint"]);
}

#[test]
fn split_words_handles_the_specs_filenames() {
    let mut w = Vec::new();
    split_words("2024_W2.pdf", &mut w);
    assert_eq!(w, vec!["2024", "w2", "pdf"]);

    w.clear();
    split_words("dubrovnik_to_sarajevo.pdf", &mut w);
    assert_eq!(w, vec!["dubrovnik", "to", "sarajevo", "pdf"]);
}

#[test]
fn name_tokens_include_parent_directories() {
    let toks = name_tokens("/r/bosnia_croatia_trip_aug2024/dubrovnik_to_sarajevo.pdf", "/r");
    for want in ["bosnia", "croatia", "trip", "dubrovnik", "sarajevo"] {
        assert!(toks.contains(want), "{want:?} missing from {toks:?}");
    }
}

#[test]
fn name_tokens_deduplicate_repeated_components() {
    // Deep source trees repeat the project name at several levels; keeping one copy avoids drowning
    // the body in redundant tokens.
    let toks = name_tokens("/r/wom/src/wom/wom.rs", "/r");
    assert_eq!(toks.matches("wom").count(), 1, "got {toks:?}");
}

#[test]
fn name_tokens_drop_single_characters() {
    let toks = name_tokens("/r/a/b/notes.md", "/r");
    assert_eq!(toks, "notes md");
}

#[test]
fn repeated_words_keep_their_first_place() {
    let mut w: Vec<String> = ["b", "beta", "alpha", "beta", "c", "alpha"].map(String::from).to_vec();
    dedupe_preserving_order(&mut w);
    assert_eq!(w, vec!["beta", "alpha"]);
}

#[test]
fn embed_text_leads_with_the_path() {
    let s = embed_text(
        "/r/employment_docs/2024_W2.pdf",
        "/r",
        "employment docs 2024 w2 pdf",
        "Wage and Tax Statement",
    );
    assert!(s.starts_with("employment_docs/2024_W2.pdf\n"));
    assert!(s.contains("Wage and Tax Statement"));
}

#[test]
fn embed_text_omits_the_blank_line_when_there_is_no_body() {
    let s = embed_text("/r/a.png", "/r", "a png", "");
    assert_eq!(s, "a.png\na png");
}

#[test]
fn normalise_ws_collapses_runs_and_respects_the_budget() {
    assert_eq!(normalise_ws("a  \n\t b   c ", 100), "a b c");
    assert_eq!(normalise_ws("abcdefghij", 4), "abcd");
}

#[test]
fn normalise_ws_budget_counts_characters_not_bytes() {
    // A byte-based truncation here would split a multibyte char and panic.
    let out = normalise_ws("ααααααααα", 4);
    assert_eq!(out.chars().count(), 4);
}

#[test]
fn name_only_profile_extracts_no_body() {
    let got = extract_head("/t/a.txt", Some(b"some real text here"), Profile::NameOnly);
    assert_eq!(got.kind, Kind::NameOnly);
    assert!(got.body.is_empty());
}

#[test]
fn read_size_scales_with_the_profile_budget() {
    // The code profile must not pull the whole ceiling off disk to retain a few characters.
    let cfg = Config::default();
    let ceiling = (cfg.extract.max_read_kb * 1024) as usize;

    let code = read_size(&cfg, body_budget_chars(Profile::Code));
    let content = read_size(&cfg, body_budget_chars(Profile::Content));

    assert!(code < content, "code should read less than content");
    assert!(
        code < ceiling / 4,
        "code profile still reads {code} of a {ceiling} ceiling"
    );
    assert!(code >= 4096, "must still read enough to sniff for binary");
    assert!(content <= ceiling, "cannot exceed the configured ceiling");
}

#[test]
fn read_size_respects_a_tiny_configured_ceiling() {
    let mut cfg = Config::default();
    cfg.extract.max_read_kb = 1;
    // The floor must not override an explicit, smaller ceiling.
    assert!(read_size(&cfg, 100_000) <= 4096);
}

#[test]
fn long_file_still_fills_the_content_budget_after_the_read_shrank() {
    let text = "alpha beta gamma delta ".repeat(2000);
    let got = extract_head("/t/long.txt", Some(text.as_bytes()), Profile::Content);
    let budget = body_budget_chars(Profile::Content);
    assert!(
        got.body.chars().count() >= budget - 32,
        "body was {} chars, expected close to the {budget} budget",
        got.body.chars().count()
    );
}

#[test]
fn code_profile_truncates_more_aggressively_than_content() {
    let text = "word ".repeat(4000);
    let code = extract_head("/t/big.txt", Some(text.as_bytes()), Profile::Code);
    let content = extract_head("/t/big.txt", Some(text.as_bytes()), Profile::Content);
    assert!(code.body.len() < content.body.len());
    assert!(code.body.len() <= body_budget_chars(Profile::Code));
    assert!(content.body.len() <= body_budget_chars(Profile::Content));
}

#[test]
fn binary_file_degrades_to_name_only_without_erroring() {
    let got = extract_head("/t/blob.dat", Some(&[0u8, 1, 2, 3, 0, 5]), Profile::Content);
    assert_eq!(got.kind, Kind::NameOnly);
    assert!(got.body.is_empty());
}

#[test]
fn unreadable_file_degrades_instead_of_panicking() {
    let got = extract_head("/definitely/not/here.txt", None, Profile::Content);
    assert_eq!(got.kind, Kind::NameOnly);
}

#[test]
fn xml_text_extracts_character_data_and_breaks_paragraphs() {
    let xml = r#"<w:document><w:body>
            <w:p><w:r><w:t>Wage and Tax</w:t></w:r><w:r><w:t>Statement</w:t></w:r></w:p>
            <w:p><w:r><w:t>Employer</w:t></w:r></w:p>
        </w:body></w:document>"#;
    let out = xml_text(xml);
    assert!(out.contains("Wage and Tax"));
    assert!(out.contains("Statement"));
    assert!(out.contains("Employer"));
    // The paragraph break must stop "Statement" and "Employer" merging.
    assert!(!out.contains("StatementEmployer"));
}

#[test]
fn broken_xml_keeps_what_came_before() {
    let out = xml_text("<a><w:t>kept</w:t></b>");
    assert!(out.contains("kept"));
    assert!(!out.contains('<'));
}

#[test]
fn content_hash_is_stable_and_discriminating() {
    assert_eq!(content_hash("abc"), content_hash("abc"));
    assert_ne!(content_hash("abc"), content_hash("abd"));
    assert_eq!(content_hash("abc").len(), 16);
}

#[test]
fn content_hash_is_the_head_of_the_digest() {
    let whole = blake3::hash(b"abc");
    assert_eq!(content_hash("abc"), whole.as_bytes()[..16].to_vec());
}

#[test]
fn streamed_digests_match_the_digest_of_the_whole() {
    let mut d = wom::digest::StreamDigest::new();
    d.update(b"ab");
    d.update(b"c");
    assert_eq!(d.finish(), blake3::hash(b"abc").to_hex().to_string());
    assert_eq!(wom::digest::to_hex(&[0x0f, 0xa0]), "0fa0");
}

#[test]
fn media_output_parses_a_trailing_gps_pair() {
    let (text, coords) = media("Sunset over the old bridge\n43.8563\n18.4131");
    assert_eq!(text, "Sunset over the old bridge");
    let (lat, lon) = coords.expect("a lat/lon pair");
    assert!((lat - 43.8563).abs() < 1e-9);
    assert!((lon - 18.4131).abs() < 1e-9);
}

#[test]
fn media_output_without_gps_stays_text() {
    let (text, coords) = media("A title\nSome keywords");
    assert_eq!(text, "A title\nSome keywords");
    assert!(coords.is_none());

    // One float line is not a pair.
    let (_, coords) = media("43.8563");
    assert!(coords.is_none());

    // In-range-looking but out-of-range numbers are not coordinates.
    let (_, coords) = media("shot 2024\n120.5");
    assert!(coords.is_none());
}

#[test]
fn blank_lines_do_not_count_as_coordinates() {
    let m = parse_media_output("Title\r\n\n 43.5 \n\n18.25\n\n").unwrap();
    assert_eq!((m.text.as_str(), m.lat.as_str(), m.lon.as_str()), ("Title", "43.5", "18.25"));
    assert!(parse_media_output("\n \n").is_none());
    assert_eq!(lines_of("a\r\nb\n\nc"), vec!["a", "b", "", "c"]);
    assert_eq!(lines_of("a\n"), vec!["a"]);
}

#[test]
fn the_place_goes_before_the_text() {
    assert_eq!(with_place(&Some("Sarajevo, Bosnia".to_string()), "Sunset"), "Sarajevo, Bosnia\nSunset");
    assert_eq!(with_place(&None, "Sunset"), "Sunset");
}

#[test]
fn places_are_read_from_tabbed_lines() {
    let c = city_fields("43.84864\t18.35644\tSarajevo, Bosnia and Herzegovina").unwrap();
    assert_eq!(c.lat, "43.84864");
    assert_eq!(c.lon, "18.35644");
    assert_eq!(c.place, "Sarajevo, Bosnia and Herzegovina");
    assert!(city_fields("# latitude\tlongitude\tplace").is_none());
    assert!(city_fields("43.8\t18.3").is_none());
    assert!(city_fields("").is_none());
    assert_eq!(city_fields("\t\tx\ty").unwrap().place, "x");
}

#[test]
fn tools_are_asked_for_what_is_needed() {
    assert_eq!(pdf_args(3), vec!["-q", "-l", "3", "-enc", "UTF-8"]);
    assert_eq!(media_args(false).len(), 8);
    let a = media_args(true);
    assert_eq!(&a[8..], &["-n", "-GPSLatitude", "-GPSLongitude"]);
}

#[test]
fn extractors_follow_the_extension_and_the_tools() {
    let mut cfg = Config::default();
    cfg.extract.media = true;
    let none = Capabilities::detect(false, false);
    let all = Capabilities::detect(true, true);
    let pick = |p: &str, caps: &Capabilities| choose_extractor(p, Profile::Content, &cfg.extract, caps);
    assert_eq!(pick("/a/x.PDF", &all), Extractor::Pdf);
    assert_eq!(pick("/a/x.docx", &none), Extractor::Office);
    assert_eq!(pick("/a/x.jpg", &all), Extractor::Media);
    assert_eq!(pick("/a/x.rs", &none), Extractor::Head);
    assert_eq!(pick("/a/x.pdf", &none), Extractor::Nothing);
    assert_eq!(pick("/a/x.Pdf", &none), Extractor::Nothing);
    assert!(is_media_ext("jpg"));
    assert!(!is_media_ext("txt"));
}

#[test]
fn missing_tools_are_described() {
    assert!(Capabilities::detect(true, true).describe_gaps(true).is_empty());
    let gaps = Capabilities::detect(false, false).describe_gaps(true);
    assert_eq!(gaps.len(), 2);
    assert!(gaps[0].contains("pdftotext"));
    assert!(gaps[1].contains("exiftool"));
}

#[test]
fn tool_output_is_decoded_unless_it_is_empty() {
    assert_eq!(tool_text(b"abc").unwrap(), "abc");
    assert_eq!(tool_text(b"a\xffb").unwrap(), "a\u{fffd}b");
    assert!(tool_text(b"").is_none());
}

#[test]
fn no_archive_is_no_office_document() {
    assert!(office_text(b"not a zip".to_vec()).is_none());
    assert!(is_wanted("word/document.xml"));
    assert!(!is_wanted("word/media/image1.png"));
}

/// A zip archive with stored entries.
fn archive(entries: &[(&str, &str)]) -> Vec<u8> {
    let mut w = zip::ZipWriter::new(std::io::Cursor::new(Vec::new()));
    for (name, text) in entries {
        let o = zip::write::SimpleFileOptions::default()
            .compression_method(zip::CompressionMethod::Stored);
        w.start_file(*name, o).unwrap();
        std::io::Write::write_all(&mut w, text.as_bytes()).unwrap();
    }
    w.finish().unwrap().into_inner()
}

#[test]
fn office_documents_give_the_text_of_their_body() {
    let bytes = archive(&[
        ("word/media/image1.txt", "<t>not this</t>"),
        ("word/document.xml", "<w:p><w:t>Wage and Tax</w:t></w:p>"),
    ]);
    let out = office_text(bytes).unwrap();
    assert!(out.contains("Wage and Tax"));
    assert!(!out.contains("not this"));
}

#[test]
fn white_space_is_what_unicode_calls_so() {
    for c in ['\u{9}', '\u{d}', ' ', '\u{85}', '\u{a0}', '\u{1680}', '\u{200a}', '\u{2028}',
        '\u{2029}', '\u{202f}', '\u{205f}', '\u{3000}']
    {
        assert_eq!(normalise_ws(&format!("a{c}{c}b"), 10), "a b", "{c:?}");
    }
    for c in ['\u{200b}', '\u{180e}', '\u{2060}', '\u{feff}'] {
        assert_eq!(normalise_ws(&format!("a{c}b"), 10), format!("a{c}b"), "{c:?}");
    }
}

#[test]
fn normalising_twice_is_normalising_once() {
    let s = " \n a \t\u{1}b\u{a0}\u{a0} c\r\n\u{7f}d  ";
    let once = normalise_ws(s, 100);
    assert_eq!(once, "a b c d");
    assert_eq!(normalise_ws(&once, 100), once);
    for n in 0..8 {
        assert!(once.starts_with(&normalise_ws(s, n)), "{n}");
    }
}

#[test]
fn a_file_that_is_not_read_is_known_by_its_name() {
    let e = finish(Extractor::Nothing, Some("text".to_string()), Profile::Content);
    assert_eq!(e.kind, Kind::NameOnly);
    assert!(e.body.is_empty());
    let e = finish(Extractor::Head, Some(" \n ".to_string()), Profile::Content);
    assert_eq!(e.kind, Kind::NameOnly);
    let e = finish(Extractor::Head, Some(" x ".to_string()), Profile::Content);
    assert!(e.kind != Kind::NameOnly);
    assert_eq!(e.body, "x");
}
