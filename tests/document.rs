use docx_pdf::media::{ImageMap, ImageParams, RelMap, media_lookup};
use docx_pdf::pdf_document::PdfDocument;
use docx_pdf::walker::{WalkState, XmlEvent};

fn text(b: &[u8]) -> String {
    String::from_utf8_lossy(b).to_string()
}

fn start(name: &str, attrs: &[(&str, &str)]) -> XmlEvent {
    XmlEvent::Start { name: name.as_bytes().to_vec(), attrs: pairs(attrs) }
}

fn empty(name: &str, attrs: &[(&str, &str)]) -> XmlEvent {
    XmlEvent::Empty { name: name.as_bytes().to_vec(), attrs: pairs(attrs) }
}

fn end(name: &str) -> XmlEvent {
    XmlEvent::End { name: name.as_bytes().to_vec() }
}

fn txt(t: &str) -> XmlEvent {
    XmlEvent::Text { text: t.as_bytes().to_vec() }
}

fn pairs(attrs: &[(&str, &str)]) -> Vec<(Vec<u8>, Vec<u8>)> {
    attrs.iter().map(|(k, v)| (k.as_bytes().to_vec(), v.as_bytes().to_vec())).collect()
}

/// Runs the walk over `events`, resolving images through `rels` and `images`,
/// with `data` standing in for every image file; returns the finished file.
fn walk(events: &[XmlEvent], rels: &RelMap, images: &ImageMap, data: &[u8]) -> String {
    let mut doc = PdfDocument::new();
    let mut state = WalkState::new();
    for ev in events {
        if let Some(rid) = state.handle_event(&mut doc, ev) {
            if let Some(p) = media_lookup(rels, images, &rid) {
                state.place_image(&mut doc, data, p.w, p.h);
            }
        }
    }
    state.finish(&mut doc).unwrap();
    let mut out = doc.take_output();
    out.extend(doc.finish_document().unwrap());
    text(&out)
}

fn params(w: u32, h: u32, path: &str) -> ImageParams {
    ImageParams { w, h, len: 10, path: path.as_bytes().to_vec() }
}

fn rels_of(pairs: &[(&str, &str)]) -> RelMap {
    let mut rels = RelMap::new();
    for (id, target) in pairs {
        rels.handle_event(&empty("Relationship", &[("Id", id), ("Target", target), ("Type", "image")]));
    }
    rels
}

#[test]
fn text_object_escapes_parentheses() {
    let mut doc = PdfDocument::new();
    let id = doc.new_text_obj(b"a (b) c").unwrap();
    assert_eq!(id, 2);
    let out = text(&doc.take_output());
    let content = "BT /F1 12 Tf 0 720 Td (a \\(b\\) c) Tj ET";
    let expected = format!("2 0 obj\n<< /Length {} >>\nstream\n{}\nendstream\n\nendobj\n", content.len(), content);
    assert!(out.ends_with(&expected), "{}", out);
}

#[test]
fn image_object_and_drawing_stream() {
    let mut doc = PdfDocument::new();
    let (img, draw) = doc.new_img_obj(b"JPEGDATA", 3, 4).unwrap();
    assert_eq!((img, draw), (2, 3));
    let out = text(&doc.take_output());
    assert!(out.contains("2 0 obj\n<< /Type /XObject /Subtype /Image /Width 3 /Height 4 /ColorSpace /DeviceRGB /BitsPerComponent 8 /Filter /DCTDecode /Length 8 >>\nstream\nJPEGDATA\nendstream\nendobj\n"));
    let content = "q\n500 0 0 500 0 0 cm\n/Im2 Do\nQ\n";
    assert!(out.contains(&format!("3 0 obj\n<< /Length {} >>\nstream\n{}\nendstream\nendobj\n", content.len(), content)));
}

#[test]
fn page_lists_text_before_images() {
    let mut doc = PdfDocument::new();
    let page = doc.new_page_obj(&[2, 5], &[(3, 4), (6, 7)]).unwrap();
    assert_eq!(page, 2);
    let out = text(&doc.take_output());
    assert!(out.contains("<< /Type /Page /Parent 1 0 R /MediaBox [0 0 595 842] /Resources << /XObject << /Im3 3 0 R /Im6 6 0 R >> >> /Contents [2 0 R 5 0 R 4 0 R 7 0 R] >>"));
}

#[test]
fn page_without_images_has_no_resources() {
    let mut doc = PdfDocument::new();
    doc.new_page_obj(&[2], &[]).unwrap();
    let out = text(&doc.take_output());
    assert!(out.contains("<< /Type /Page /Parent 1 0 R /MediaBox [0 0 595 842]  /Contents [2 0 R] >>"));
}

#[test]
fn finish_writes_pages_root_into_reserved_id() {
    let mut doc = PdfDocument::new();
    let t = doc.new_text_obj(b"hi").unwrap();
    doc.new_page_obj(&[t], &[]).unwrap();
    let mut out = doc.take_output();
    out.extend(doc.finish_document().unwrap());
    let s = text(&out);
    assert!(s.contains("1 0 obj\n<< /Type /Pages /Count 1 /Kids [3 0 R ] >>\nendobj\n"));
    assert!(s.contains("4 0 obj\n<< /Type /Catalog /Pages 1 0 R >>\nendobj\n"));
    // pages root, text, page, catalog: four objects and the free entry
    assert!(s.contains("trailer << /Size 5 /Root 4 0 R >>"));
}

#[test]
fn blank_paragraph_yields_no_text_object() {
    let events = vec![start("w:p", &[]), txt("   "), txt("\t"), end("w:p"), start("w:p", &[]), txt("Hello"), end("w:p")];
    let s = walk(&events, &RelMap::new(), &ImageMap { entries: vec![] }, b"");
    assert_eq!(s.matches("Tj ET").count(), 1);
    assert!(s.contains("(Hello) Tj ET"));
}

#[test]
fn text_in_drawing_is_not_captured() {
    let events = vec![
        start("w:p", &[]),
        txt("seen"),
        start("w:drawing", &[]),
        txt("hidden"),
        end("w:drawing"),
        txt("too"),
        end("w:p"),
    ];
    let s = walk(&events, &RelMap::new(), &ImageMap { entries: vec![] }, b"");
    assert!(s.contains("(seen too) Tj ET"));
    assert!(!s.contains("hidden"));
}

#[test]
fn two_images_across_a_page_break() {
    let rels = rels_of(&[("rId4", "media/a.png"), ("rId5", "media/b.jpg")]);
    let images = ImageMap {
        entries: vec![
            (b"word/media/a.png".to_vec(), params(2, 2, "a.jpg")),
            (b"word/media/b.jpg".to_vec(), params(3, 3, "b.jpg")),
        ],
    };
    let events = vec![
        start("w:drawing", &[]),
        empty("a:blip", &[("r:embed", "rId4")]),
        end("w:drawing"),
        empty("w:br", &[("w:type", "page")]),
        start("w:drawing", &[]),
        empty("a:blip", &[("r:embed", "rId5")]),
        end("w:drawing"),
    ];
    let s = walk(&events, &rels, &images, b"JPEG");
    assert_eq!(s.matches("/Type /Page ").count(), 2);
    assert!(s.contains("/Resources << /XObject << /Im2 2 0 R >> >>"));
    assert!(s.contains("/Resources << /XObject << /Im5 5 0 R >> >>"));
    assert!(s.contains("/Type /Pages /Count 2 "));
}

#[test]
fn failed_image_leaves_an_image_less_document() {
    let rels = rels_of(&[("rId4", "media/bad.png")]);
    let images = ImageMap::from_outcomes(vec![(b"word/media/bad.png".to_vec(), None)]);
    assert!(images.get(b"word/media/bad.png").is_none());
    let events = vec![empty("a:blip", &[("r:embed", "rId4")]), start("w:p", &[]), txt("x"), end("w:p")];
    let s = walk(&events, &rels, &images, b"JPEG");
    assert!(!s.contains("/XObject"));
    assert!(s.contains("/Type /Pages /Count 1 "));
    assert!(s.contains("%%EOF"));
}

#[test]
fn repeated_reference_is_resolved_once() {
    let mut doc = PdfDocument::new();
    let mut state = WalkState::new();
    let blip = empty("a:blip", &[("r:embed", "rId7")]);
    assert_eq!(state.handle_event(&mut doc, &blip), Some(b"rId7".to_vec()));
    assert_eq!(state.handle_event(&mut doc, &blip), None);
}

#[test]
fn section_properties_end_the_page() {
    let events = vec![start("w:p", &[]), txt("a"), end("w:p"), start("w:sectPr", &[]), end("w:sectPr")];
    let s = walk(&events, &RelMap::new(), &ImageMap { entries: vec![] }, b"");
    assert_eq!(s.matches("/Type /Page ").count(), 1);
}

#[test]
fn self_closing_section_properties_end_the_page() {
    let events = vec![start("w:p", &[]), txt("a"), end("w:p"), empty("w:sectPr", &[]), start("w:p", &[]), txt("b"), end("w:p")];
    let s = walk(&events, &RelMap::new(), &ImageMap { entries: vec![] }, b"");
    assert_eq!(s.matches("/Type /Page ").count(), 2);
}

#[test]
fn trailer_counts_every_issued_object() {
    let rels = rels_of(&[("rId1", "media/a.png")]);
    let images = ImageMap { entries: vec![(b"word/media/a.png".to_vec(), params(1, 1, "a.jpg"))] };
    let events = vec![
        start("w:p", &[]),
        txt("one"),
        end("w:p"),
        empty("a:blip", &[("r:embed", "rId1")]),
        empty("w:br", &[("w:type", "page")]),
        start("w:p", &[]),
        txt("two"),
        end("w:p"),
    ];
    let s = walk(&events, &rels, &images, b"J");
    // pages root + catalog + 2 texts + 2 for the image + 2 pages = 8 objects
    assert!(s.contains("trailer << /Size 9 "));
    assert!(s.contains("xref\n0 9\n"));
}

#[test]
fn jpeg_size_is_read_from_the_frame_header() {
    let mut buf = vec![0xFF, 0xD8, 0xFF, 0xE0, 0x00, 0x04, 0x00, 0x00];
    buf.extend([0xFF, 0xC0, 0x00, 0x11, 0x08, 0x00, 0x20, 0x00, 0x40, 0x03, 0, 0, 0, 0]);
    assert_eq!(docx_pdf::pdf_document::parse_jpeg_size(&buf), Some((64, 32)));
    assert_eq!(docx_pdf::pdf_document::parse_jpeg_size(&buf[..12]), None);
    assert_eq!(docx_pdf::pdf_document::parse_jpeg_size(&[]), None);
}

#[test]
fn no_break_space_paragraph_yields_no_text_object() {
    let events = vec![
        start("w:p", &[]),
        txt("\u{00A0}"),
        txt("\u{3000}\u{2003}"),
        end("w:p"),
        start("w:p", &[]),
        txt("\u{00A0}word\u{205F}"),
        end("w:p"),
    ];
    let s = walk(&events, &RelMap::new(), &ImageMap { entries: vec![] }, b"");
    assert_eq!(s.matches("Tj ET").count(), 1);
    assert!(s.contains("(word) Tj ET"));
}

#[test]
fn text_stays_hidden_until_the_drawing_container_ends() {
    let events = vec![
        start("w:p", &[]),
        txt("a"),
        start("w:drawing", &[]),
        start("wp:inline", &[]),
        txt("b"),
        end("wp:inline"),
        txt("c"),
        end("w:drawing"),
        txt("d"),
        end("w:p"),
    ];
    let s = walk(&events, &RelMap::new(), &ImageMap { entries: vec![] }, b"");
    assert!(s.contains("(a d) Tj ET"), "{}", s);
}
