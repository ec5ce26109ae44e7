use mikke::extract::{extension, extract_text, format_of, supported, Format};
use mikke::markup::{docx_text, html_text};

#[test]
fn supported_formats() {
    assert!(supported("/a/b/notes.md"));
    assert!(supported("notes.MARKDOWN"));
    assert!(supported("a.Txt"));
    assert!(supported("a.text"));
    assert!(supported("a.pdf"));
    assert!(supported("lettre.DOCX"));
    assert!(supported("page.html"));
    assert!(supported("page.htm"));
    assert!(!supported("photo.jpg"));
    assert!(!supported("a.doc"));
    assert!(!supported("README"));
    assert!(!supported("/a/.md"));
    assert!(!supported("/a/b.md/.."));
}

#[test]
fn extension_is_lowercased() {
    assert_eq!(extension("a/b.TXT"), Some(vec!['t', 'x', 't']));
    assert_eq!(extension("archive.tar.GZ"), Some(vec!['g', 'z']));
    assert_eq!(extension("noext"), None);
    assert_eq!(extension("dot."), Some(vec![]));
}

#[test]
fn extract_text_decodes_utf8() {
    assert_eq!(extract_text("café".as_bytes()), "café");
}

#[test]
fn extract_text_replaces_invalid_bytes() {
    let t = extract_text(b"ab\xffcd");
    assert_eq!(t, "ab\u{fffd}cd");
}

#[test]
fn format_by_extension() {
    assert_eq!(format_of("/a/notes.md"), Some(Format::Text));
    assert_eq!(format_of("/a/b.TXT"), Some(Format::Text));
    assert_eq!(format_of("/a/scan.Pdf"), Some(Format::Pdf));
    assert_eq!(format_of("/a/lettre.docx"), Some(Format::Docx));
    assert_eq!(format_of("/a/page.HTM"), Some(Format::Html));
    assert_eq!(format_of("/a/archive.zip"), None);
    assert_eq!(format_of("/a/README"), None);
}

#[test]
fn extract_text_replaces_a_leading_invalid_byte() {
    assert_eq!(extract_text(b"\xffabc"), "\u{fffd}abc");
    assert_eq!(extract_text(b""), "");
}

#[test]
fn html_texte_sans_script_ni_style() {
    let page = "<!DOCTYPE html>\n<html><head><title>Boutique</title>\n\
        <style>body { color: red; }</style>\n\
        <script type=\"text/javascript\">var x = \"bruit de script\";</script></head>\n\
        <body><!-- promo --><h1>Offre</h1><p>Un <b>casque</b> audio sans fil</p>\n\
        <p>Prix&nbsp;: 129,90 &euro;</p></body></html>";
    let text = html_text(page);
    assert!(text.contains("casque audio"), "{text:?}");
    assert!(text.contains("129,90"));
    assert!(!text.contains("bruit de script"));
    assert!(!text.contains("color: red"));
    assert!(!text.contains("promo"));
}

#[test]
fn html_text_decodes_entities_and_squeezes_spaces() {
    assert_eq!(html_text("  <p>a &amp; b</p>\n\n<p>&lt;c&gt;</p>"), "a & b <c> ");
    assert_eq!(html_text("<SCRIPT>x</SCRIPT>y<STYLE>z</Style>w"), "y w");
    // a tag whose name only starts like `script` is an ordinary tag
    assert_eq!(html_text("<scripted>t</scripted>"), "t ");
    // an unterminated comment runs to the end
    assert_eq!(html_text("a<!-- b"), "a ");
    assert_eq!(html_text(""), "");
}

#[test]
fn docx_texte() {
    let body = [
        r#"<?xml version="1.0" encoding="UTF-8" standalone="yes"?>"#,
        r#"<w:document xmlns:w="http://schemas.openxmlformats.org/wordprocessingml/2006/main"><w:body>"#,
        r#"<w:p><w:r><w:rPr><w:b/></w:rPr><w:t>Attestation de scolarite</w:t></w:r></w:p>"#,
        r#"<w:p><w:r><w:t xml:space="preserve">L'eleve est inscrit en </w:t></w:r>"#,
        r#"<w:r><w:t>classe de premiere au lycee.</w:t></w:r></w:p>"#,
        r#"<w:tbl><w:tr><w:tc><w:p><w:r><w:t>A &amp; B</w:t></w:r></w:p></w:tc></w:tr></w:tbl>"#,
        r#"</w:body></w:document>"#,
    ]
    .join("");
    let text = docx_text(&body);
    assert!(text.contains("Attestation de scolarite"));
    // two runs of one paragraph joined, paragraphs apart
    assert!(text.contains("classe de premiere au lycee."));
    assert!(text.contains('\n'));
    assert_eq!(
        text,
        "Attestation de scolarite\nL'eleve est inscrit en classe de premiere au lycee.\nA & B\n"
    );
}

#[test]
fn docx_text_tabs_and_breaks() {
    let body = "<w:p><w:pPr><w:tabs></w:tabs></w:pPr><w:r><w:t>a</w:t><w:tab/><w:t>b</w:t>\
                <w:br w:type=\"page\"/><w:t>c</w:t></w:r></w:p><w:p/>";
    assert_eq!(docx_text(body), "a\tb\nc\n");
    // text outside a run's text element is not content
    assert_eq!(docx_text("<w:body>x<w:t>y</w:t>z</w:body>"), "y");
    assert_eq!(docx_text(""), "");
}
