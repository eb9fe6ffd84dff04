use lumen::pdf_text::keep_extracted_text;
use printpdf::{BuiltinFont, Mm, PdfDocument};
use lumen::pdf::{
    check_extracted_text, check_image_count, check_page_count, image_layer_name, is_jpeg_ext,
    merge_page_range, page_image_name, pdfium_asset, pdfium_url, reorder_order,
    rotation_for_degrees, single_page_range, split_page_name, text_pdf_layout, wrap_line, PageOp,
    PageRotation, Platform,
};

#[test]
fn wrap_short_line_is_kept() {
    assert_eq!(wrap_line("hello world", 20), vec!["hello world".to_string()]);
    assert_eq!(wrap_line("", 5), vec![String::new()]);
}

#[test]
fn wrap_at_spaces() {
    assert_eq!(wrap_line("aaa bbb ccc", 7), vec!["aaa bbb", "ccc"]);
    assert_eq!(wrap_line("one two three four", 9), vec!["one two", "three", "four"]);
}

#[test]
fn wrap_cuts_long_words() {
    assert_eq!(wrap_line("abcdefghij", 4), vec!["abcd", "efgh", "ij"]);
    assert_eq!(wrap_line("xy abcdefgh z", 4), vec!["xy", "abcd", "efgh", "z"]);
    assert_eq!(wrap_line("abcdefgh", 4), vec!["abcd", "efgh"]);
}

#[test]
fn wrap_lines_never_exceed_max() {
    let text = "lorem ipsum dolor sit amet consectetur adipiscing elit sed do eiusmod tempor";
    for max in 1..20 {
        for piece in wrap_line(text, max) {
            assert!(piece.chars().count() <= max);
            assert!(!piece.is_empty());
        }
    }
}

fn texts(ops: &[PageOp]) -> Vec<(u32, String)> {
    ops.iter()
        .filter_map(|o| match o {
            PageOp::Text { y_mm, text } => Some((*y_mm, text.clone())),
            PageOp::NewPage => None,
        })
        .collect()
}

fn new_pages(ops: &[PageOp]) -> usize {
    ops.iter().filter(|o| matches!(o, PageOp::NewPage)).count()
}

#[test]
fn layout_places_lines_from_the_top() {
    let ops = text_pdf_layout("first\nsecond\n\nfourth\n");
    assert_eq!(
        texts(&ops),
        vec![(277, "first".to_string()), (272, "second".to_string()), (262, "fourth".to_string())]
    );
    assert_eq!(new_pages(&ops), 0);
}

#[test]
fn layout_expands_tabs_and_trims_ends() {
    let ops = text_pdf_layout("\ta  \r\nb");
    assert_eq!(texts(&ops), vec![(277, "    a".to_string()), (272, "b".to_string())]);
}

#[test]
fn layout_breaks_pages() {
    let text: Vec<String> = (0..60).map(|i| format!("l{}", i)).collect();
    let ops = text_pdf_layout(&text.join("\n"));
    assert_eq!(new_pages(&ops), 1);
    let t = texts(&ops);
    assert_eq!(t.len(), 60);
    assert_eq!(t[51], (22, "l51".to_string()));
    assert_eq!(t[52], (277, "l52".to_string()));
    for (y, _) in &t {
        assert!(*y >= 20 && *y <= 277);
    }
}

#[test]
fn layout_wraps_long_lines() {
    let long = "w".repeat(100);
    let ops = text_pdf_layout(&long);
    assert_eq!(texts(&ops), vec![(277, "w".repeat(92)), (272, "w".repeat(8))]);
}

#[test]
fn layout_of_empty_text() {
    assert!(text_pdf_layout("").is_empty());
}

#[test]
fn rotation_values() {
    assert_eq!(rotation_for_degrees(90), PageRotation::Degrees90);
    assert_eq!(rotation_for_degrees(-90), PageRotation::Degrees270);
    assert_eq!(rotation_for_degrees(450), PageRotation::Degrees90);
    assert_eq!(rotation_for_degrees(180), PageRotation::Degrees180);
    assert_eq!(rotation_for_degrees(-180), PageRotation::Degrees180);
    assert_eq!(rotation_for_degrees(0), PageRotation::Upright);
    assert_eq!(rotation_for_degrees(45), PageRotation::Upright);
    assert_eq!(rotation_for_degrees(360), PageRotation::Upright);
    assert_eq!(rotation_for_degrees(i32::MIN), rotation_for_degrees(i32::MIN + 360));
}

#[test]
fn page_names() {
    assert_eq!(page_image_name("doc", "png", 1, 0), "doc.png");
    assert_eq!(page_image_name("doc", "png", 3, 0), "doc_pagina_1.png");
    assert_eq!(page_image_name("doc", "jpg", 12, 11), "doc_pagina_12.jpg");
    assert_eq!(split_page_name("livro", 0), "livro_pagina_1.pdf");
    assert_eq!(split_page_name("livro", 99), "livro_pagina_100.pdf");
    assert_eq!(single_page_range(4), "5");
    assert_eq!(image_layer_name(0), "Imagem 1");
    assert_eq!(image_layer_name(9), "Imagem 10");
}

#[test]
fn jpeg_extensions() {
    assert!(is_jpeg_ext("jpg"));
    assert!(is_jpeg_ext("jpeg"));
    assert!(!is_jpeg_ext("JPG"));
    assert!(!is_jpeg_ext("png"));
}

#[test]
fn merge_ranges() {
    assert_eq!(merge_page_range(0), None);
    assert_eq!(merge_page_range(1), Some("1-1".to_string()));
    assert_eq!(merge_page_range(37), Some("1-37".to_string()));
}

#[test]
fn reorder_checks() {
    assert_eq!(reorder_order("  3,1,2 "), Ok("3,1,2".to_string()));
    assert_eq!(
        reorder_order("   "),
        Err("informe a nova ordem das páginas (ex.: 3,1,2)".to_string())
    );
}

#[test]
fn content_checks() {
    assert_eq!(check_extracted_text(" some text "), Ok(()));
    assert_eq!(
        check_extracted_text(" \n "),
        Err("Nenhum texto encontrado (o PDF pode ser apenas imagens escaneadas).".to_string())
    );
    assert_eq!(check_page_count(3), Ok(()));
    assert_eq!(check_page_count(0), Err("o PDF não tem páginas".to_string()));
    assert_eq!(check_image_count(2), Ok(()));
    assert_eq!(check_image_count(0), Err("nenhuma imagem selecionada".to_string()));
}

#[test]
fn pdfium_download() {
    assert_eq!(pdfium_asset(Platform::Windows), "pdfium-win-x64.tgz");
    assert_eq!(pdfium_asset(Platform::MacArm), "pdfium-mac-arm64.tgz");
    assert_eq!(pdfium_asset(Platform::MacIntel), "pdfium-mac-x64.tgz");
    assert_eq!(pdfium_asset(Platform::Linux), "pdfium-linux-x64.tgz");
    assert_eq!(
        pdfium_url("pdfium-linux-x64.tgz"),
        "https://github.com/bblanchon/pdfium-binaries/releases/latest/download/pdfium-linux-x64.tgz"
    );
}

#[test]
fn wrapping_keeps_all_text() {
    let line = "a quick  brown fox jumps over the extraordinarilylongword dog";
    for max in 1..30 {
        let joined: String = wrap_line(line, max).concat();
        let a: String = joined.chars().filter(|c| *c != ' ').collect();
        let b: String = line.chars().filter(|c| *c != ' ').collect();
        assert_eq!(a, b);
    }
}

fn pdf_with_text(lines: &[&str]) -> Vec<u8> {
    let (doc, page, layer) = PdfDocument::new("t", Mm(210.0), Mm(297.0), "l");
    let font = doc.add_builtin_font(BuiltinFont::Helvetica).unwrap();
    let layer = doc.get_page(page).get_layer(layer);
    for (i, line) in lines.iter().enumerate() {
        layer.use_text(*line, 11.0, Mm(20.0), Mm(270.0 - 10.0 * i as f32), &font);
    }
    doc.save_to_bytes().unwrap()
}

fn pdf_text_from_bytes(bytes: &[u8]) -> Result<String, String> {
    let extracted = printpdf::lopdf::Document::load_mem(bytes).map_err(|e| e.to_string()).and_then(
        |doc| {
            let pages: Vec<u32> = doc.get_pages().keys().copied().collect();
            doc.extract_text(&pages).map_err(|e| e.to_string())
        },
    );
    keep_extracted_text(extracted)
}

#[test]
fn pdf_text_exports_the_text() {
    let text = pdf_text_from_bytes(&pdf_with_text(&["Hello", "World"])).unwrap();
    assert!(text.contains("Hello"));
    assert!(text.contains("World"));
    assert!(text.find("Hello").unwrap() < text.find("World").unwrap());
}

#[test]
fn pdf_text_refuses_a_document_without_text() {
    assert_eq!(
        pdf_text_from_bytes(&pdf_with_text(&[])),
        Err("Nenhum texto encontrado (o PDF pode ser apenas imagens escaneadas).".to_string())
    );
}

#[test]
fn pdf_text_reports_unparsable_bytes() {
    assert!(pdf_text_from_bytes(b"not a pdf").is_err());
}

#[test]
fn extracted_text_is_kept_unless_blank() {
    assert_eq!(keep_extracted_text(Ok("a b".to_string())), Ok("a b".to_string()));
    assert_eq!(
        keep_extracted_text(Ok(" \n".to_string())),
        Err("Nenhum texto encontrado (o PDF pode ser apenas imagens escaneadas).".to_string())
    );
    assert_eq!(keep_extracted_text(Err("bad".to_string())), Err("bad".to_string()));
}
