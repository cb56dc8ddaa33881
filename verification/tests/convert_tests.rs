use rust365::docx::{
    append_pt, highlight_css, hyperlink_from_instr, list_key, map_align, mime_for_path,
    resolve_zip_path, sv_to_hex, sv_to_int, toggle_on, ConvertOptions,
};
use rust365::docx::convert_docx_to_html;

/// A ZIP archive built by hand: (name, method, stored bytes, uncompressed size).
fn build_zip(entries: &[(&str, u16, &[u8], u32)]) -> Vec<u8> {
    let mut out = Vec::new();
    let mut central = Vec::new();
    for (name, method, data, usize_) in entries {
        let off = out.len() as u32;
        out.extend_from_slice(&0x04034b50u32.to_le_bytes());
        out.extend_from_slice(&20u16.to_le_bytes());
        out.extend_from_slice(&0u16.to_le_bytes());
        out.extend_from_slice(&method.to_le_bytes());
        out.extend_from_slice(&[0u8; 8]);
        out.extend_from_slice(&(data.len() as u32).to_le_bytes());
        out.extend_from_slice(&usize_.to_le_bytes());
        out.extend_from_slice(&(name.len() as u16).to_le_bytes());
        out.extend_from_slice(&0u16.to_le_bytes());
        out.extend_from_slice(name.as_bytes());
        out.extend_from_slice(data);

        central.extend_from_slice(&0x02014b50u32.to_le_bytes());
        central.extend_from_slice(&20u16.to_le_bytes());
        central.extend_from_slice(&20u16.to_le_bytes());
        central.extend_from_slice(&0u16.to_le_bytes());
        central.extend_from_slice(&method.to_le_bytes());
        central.extend_from_slice(&[0u8; 8]);
        central.extend_from_slice(&(data.len() as u32).to_le_bytes());
        central.extend_from_slice(&usize_.to_le_bytes());
        central.extend_from_slice(&(name.len() as u16).to_le_bytes());
        central.extend_from_slice(&[0u8; 12]);
        central.extend_from_slice(&off.to_le_bytes());
        central.extend_from_slice(name.as_bytes());
    }
    let cd_off = out.len() as u32;
    let cd_len = central.len() as u32;
    out.extend_from_slice(&central);
    out.extend_from_slice(&0x06054b50u32.to_le_bytes());
    out.extend_from_slice(&[0u8; 4]);
    out.extend_from_slice(&(entries.len() as u16).to_le_bytes());
    out.extend_from_slice(&(entries.len() as u16).to_le_bytes());
    out.extend_from_slice(&cd_len.to_le_bytes());
    out.extend_from_slice(&cd_off.to_le_bytes());
    out.extend_from_slice(&0u16.to_le_bytes());
    out
}


fn package(parts: &[(&str, &str)]) -> Vec<u8> {
    let entries: Vec<(&str, u16, &[u8], u32)> =
        parts.iter().map(|(n, c)| (*n, 0u16, c.as_bytes(), c.len() as u32)).collect();
    build_zip(&entries)
}

fn document(body: &str) -> String {
    format!(
        "<?xml version=\"1.0\" encoding=\"UTF-8\" standalone=\"yes\"?>\
         <w:document xmlns:w=\"w\"><w:body>{body}<w:sectPr><w:pgSz/></w:sectPr></w:body></w:document>"
    )
}

fn fragment_opts() -> ConvertOptions {
    let mut o = ConvertOptions::default();
    o.fragment = true;
    o
}

fn convert_parts(parts: &[(&str, &str)], opts: &ConvertOptions) -> Result<String, String> {
    convert_docx_to_html(&package(parts), opts)
}

fn body_html(body: &str) -> String {
    let doc = document(body);
    convert_parts(&[("word/document.xml", doc.as_str())], &fragment_opts()).unwrap()
}

fn body_html_with(body: &str, extra: &[(&str, &str)]) -> String {
    let doc = document(body);
    let mut parts = vec![("word/document.xml", doc.as_str())];
    parts.extend_from_slice(extra);
    convert_parts(&parts, &fragment_opts()).unwrap()
}

const NUMBERING: &str = "<w:numbering>\
<w:abstractNum w:abstractNumId=\"0\"><w:lvl w:ilvl=\"0\"><w:start w:val=\"1\"/><w:numFmt w:val=\"bullet\"/></w:lvl>\
<w:lvl w:ilvl=\"1\"><w:start w:val=\"3\"/><w:numFmt w:val=\"lowerLetter\"/></w:lvl></w:abstractNum>\
<w:abstractNum w:abstractNumId=\"1\"><w:lvl w:ilvl=\"0\"><w:start w:val=\"1\"/><w:numFmt w:val=\"decimal\"/></w:lvl></w:abstractNum>\
<w:num w:numId=\"1\"><w:abstractNumId w:val=\"0\"/></w:num>\
<w:num w:numId=\"2\"><w:abstractNumId w:val=\"1\"/><w:lvlOverride w:ilvl=\"0\"><w:startOverride w:val=\"5\"/></w:lvlOverride></w:num>\
</w:numbering>";

fn list_para(num: i32, lvl: i32, text: &str) -> String {
    format!(
        "<w:p><w:pPr><w:numPr><w:ilvl w:val=\"{lvl}\"/><w:numId w:val=\"{num}\"/></w:numPr></w:pPr>\
         <w:r><w:t>{text}</w:t></w:r></w:p>"
    )
}

// ---- helpers ----

#[test]
fn sv_to_int_reads_a_signed_prefix() {
    assert_eq!(sv_to_int("42"), 42);
    assert_eq!(sv_to_int("-12abc"), -12);
    assert_eq!(sv_to_int("+7"), 7);
    assert_eq!(sv_to_int(""), 0);
    assert_eq!(sv_to_int("x5"), 0);
    assert_eq!(sv_to_int("2147483648"), -2147483648);
}

#[test]
fn sv_to_hex_reads_hex_or_gives_zero() {
    assert_eq!(sv_to_hex("F0B7"), 0xF0B7);
    assert_eq!(sv_to_hex("00a9"), 0xA9);
    assert_eq!(sv_to_hex(""), 0);
    assert_eq!(sv_to_hex("12G"), 0);
}

#[test]
fn toggle_values() {
    assert!(toggle_on(""));
    assert!(toggle_on("1"));
    assert!(toggle_on("true"));
    assert!(!toggle_on("0"));
    assert!(!toggle_on("false"));
    assert!(!toggle_on("none"));
    assert!(!toggle_on("off"));
}

#[test]
fn alignment_and_highlight_names() {
    assert_eq!(map_align("center"), "center");
    assert_eq!(map_align("end"), "right");
    assert_eq!(map_align("distribute"), "justify");
    assert_eq!(map_align("start"), "left");
    assert_eq!(map_align("bogus"), "");
    assert_eq!(highlight_css("darkYellow"), "#808000");
    assert_eq!(highlight_css("Yellow"), "yellow");
}

#[test]
fn points_are_written_like_a_float_division() {
    let cases = [
        (0, ""),
        (20, "m:1pt;"),
        (30, "m:1.5pt;"),
        (1, "m:0.05pt;"),
        (7, "m:0.35pt;"),
        (283, "m:14.15pt;"),
        (-283, "m:-14.15pt;"),
        (-360, "m:-18pt;"),
        (720, "m:36pt;"),
        (i32::MIN, "m:-107374182.4pt;"),
    ];
    for (tw, want) in cases {
        let mut css = String::new();
        append_pt(&mut css, "m", tw);
        assert_eq!(css, want, "twips {tw}");
        assert_eq!(css, if tw == 0 { String::new() } else { format!("m:{}pt;", tw as f64 / 20.0) });
    }
}

#[test]
fn mime_types_by_extension() {
    assert_eq!(mime_for_path("word/media/a.PNG"), "image/png");
    assert_eq!(mime_for_path("x.jpeg"), "image/jpeg");
    assert_eq!(mime_for_path("x.tar.gif"), "image/gif");
    assert_eq!(mime_for_path("x.svg"), "image/svg+xml");
    assert_eq!(mime_for_path("noext"), "application/octet-stream");
    assert_eq!(mime_for_path("x."), "application/octet-stream");
}

#[test]
fn zip_paths_are_resolved() {
    assert_eq!(resolve_zip_path("word/", "media/a.png"), "word/media/a.png");
    assert_eq!(resolve_zip_path("word/", "../media/a.png"), "media/a.png");
    assert_eq!(resolve_zip_path("word/", "/customXml/item.xml"), "customXml/item.xml");
    assert_eq!(resolve_zip_path("", "./a//b/../c"), "a/c");
    assert_eq!(resolve_zip_path("", "../../x"), "x");
    assert_eq!(resolve_zip_path("", ""), "");
}

#[test]
fn hyperlink_field_instructions() {
    assert_eq!(hyperlink_from_instr(" HYPERLINK \"http://a.b/c\" "), "http://a.b/c");
    assert_eq!(hyperlink_from_instr("hyperlink http://x.y"), "http://x.y");
    assert_eq!(hyperlink_from_instr("HYPERLINK \\l \"sec\""), "#sec");
    assert_eq!(hyperlink_from_instr("HYPERLINK \"u\" \\l \"a\""), "u#a");
    assert_eq!(hyperlink_from_instr("HYPERLINK \\o \"tip\" \"u\""), "u");
    assert_eq!(hyperlink_from_instr("HYPERLINK \"u\" \"v\""), "u");
    assert_eq!(hyperlink_from_instr("PAGEREF x"), "");
    assert_eq!(hyperlink_from_instr("HYPERLINK"), "");
    assert_eq!(hyperlink_from_instr(""), "");
    assert_eq!(hyperlink_from_instr("HYPERLINK \"open"), "open");
}

#[test]
fn list_keys_pack_list_and_level() {
    assert_eq!(list_key(1, 0), 256);
    assert_eq!(list_key(2, 3), 515);
    assert_eq!(list_key(-1, -1), (0xFFFF_FFFFu64 << 8) | 0xFF);
}

// ---- conversion ----

#[test]
fn plain_paragraph() {
    assert_eq!(body_html("<w:p><w:r><w:t>Hello</w:t></w:r></w:p>"), "<p>Hello</p>");
    assert_eq!(body_html("<w:p/>"), "<p></p>");
}

#[test]
fn text_is_copied_as_written() {
    assert_eq!(body_html("<w:p><w:r><w:t>a &amp; b &lt; c</w:t></w:r></w:p>"), "<p>a &amp; b &lt; c</p>");
}

#[test]
fn run_formatting() {
    let html = body_html(
        "<w:p><w:r><w:rPr><w:b/><w:i/><w:u w:val=\"single\"/><w:color w:val=\"FF0000\"/></w:rPr>\
         <w:t>x</w:t></w:r><w:r><w:rPr><w:vertAlign w:val=\"superscript\"/><w:b w:val=\"0\"/></w:rPr>\
         <w:t>2</w:t></w:r><w:r><w:rPr><w:highlight w:val=\"darkYellow\"/><w:caps/><w:strike/></w:rPr><w:t>y</w:t></w:r></w:p>",
    );
    assert_eq!(
        html,
        "<p><strong><em><u><span style=\"color:#FF0000;\">x</span></u></em></strong><sup>2</sup>\
         <s><span style=\"background-color:#808000;text-transform:uppercase;\">y</span></s></p>"
    );
}

#[test]
fn headings_from_styles() {
    let styles = "<w:styles>\
        <w:style w:type=\"paragraph\" w:styleId=\"Heading2\"><w:name w:val=\"heading 2\"/></w:style>\
        <w:style w:type=\"paragraph\" w:styleId=\"MyTitle\"><w:name w:val=\"Title\"/></w:style>\
        <w:style w:type=\"paragraph\" w:styleId=\"Outline\"><w:pPr><w:outlineLvl w:val=\"2\"/></w:pPr></w:style>\
        <w:style w:type=\"character\" w:styleId=\"Strong\"><w:rPr><w:b/></w:rPr></w:style>\
        </w:styles>";
    let html = body_html_with(
        "<w:p><w:pPr><w:pStyle w:val=\"Heading2\"/></w:pPr><w:r><w:t>A</w:t></w:r></w:p>\
         <w:p><w:pPr><w:pStyle w:val=\"MyTitle\"/></w:pPr><w:r><w:t>B</w:t></w:r></w:p>\
         <w:p><w:pPr><w:pStyle w:val=\"Outline\"/></w:pPr><w:r><w:t>C</w:t></w:r></w:p>\
         <w:p><w:r><w:rPr><w:rStyle w:val=\"Strong\"/></w:rPr><w:t>D</w:t></w:r></w:p>",
        &[("word/styles.xml", styles)],
    );
    assert_eq!(html, "<h2>A</h2><h1>B</h1><h3>C</h3><p><strong>D</strong></p>");
}

#[test]
fn paragraph_alignment_indent_and_direction() {
    let html = body_html(
        "<w:p><w:pPr><w:jc w:val=\"both\"/><w:ind w:left=\"720\" w:hanging=\"360\"/><w:bidi/>\
         <w:shd w:fill=\"EEEEEE\"/></w:pPr><w:r><w:t>T</w:t></w:r></w:p>\
         <w:p><w:pPr><w:ind w:start=\"30\" w:firstLine=\"283\"/></w:pPr></w:p>",
    );
    assert_eq!(
        html,
        "<p dir=\"rtl\" style=\"text-align:justify;margin-left:36pt;text-indent:-18pt;background-color:#EEEEEE;\">T</p>\
         <p style=\"margin-left:1.5pt;text-indent:14.15pt;\"></p>"
    );
}

#[test]
fn nested_lists_follow_numbering() {
    let body = format!(
        "{}{}{}<w:p><w:r><w:t>D</w:t></w:r></w:p>",
        list_para(1, 0, "A"),
        list_para(1, 1, "B"),
        list_para(1, 0, "C")
    );
    let html = body_html_with(&body, &[("word/numbering.xml", NUMBERING)]);
    assert_eq!(
        html,
        "<ul><li>A<ol type=\"a\" start=\"3\"><li>B</li></ol></li><li>C</li></ul><p>D</p>"
    );
}

#[test]
fn numbered_list_with_start_override() {
    let body = format!("{}{}", list_para(2, 0, "one"), list_para(2, 0, "two"));
    let html = body_html_with(&body, &[("word/numbering.xml", NUMBERING)]);
    assert_eq!(html, "<ol start=\"5\"><li>one</li><li>two</li></ol>");
}

#[test]
fn list_without_numbering_part_is_decimal() {
    let body = list_para(7, 0, "x");
    assert_eq!(body_html(&body), "<ol><li>x</li></ol>");
}

#[test]
fn tables_with_spans_and_header() {
    let html = body_html(
        "<w:tbl><w:tblPr/><w:tblGrid/>\
         <w:tr><w:trPr><w:tblHeader/></w:trPr><w:tc><w:tcPr><w:gridSpan w:val=\"2\"/></w:tcPr><w:p><w:r><w:t>H</w:t></w:r></w:p></w:tc></w:tr>\
         <w:tr><w:tc><w:tcPr><w:vMerge w:val=\"restart\"/><w:shd w:fill=\"FFFF00\"/></w:tcPr><w:p><w:r><w:t>A</w:t></w:r></w:p></w:tc>\
         <w:tc><w:tcPr><w:vAlign w:val=\"center\"/></w:tcPr><w:p><w:r><w:t>B</w:t></w:r></w:p></w:tc></w:tr>\
         <w:tr><w:tc><w:tcPr><w:vMerge/></w:tcPr><w:p/></w:tc><w:tc><w:p><w:r><w:t>C</w:t></w:r></w:p></w:tc></w:tr>\
         </w:tbl>",
    );
    assert_eq!(
        html,
        "<table><tr><th colspan=\"2\"><p>H</p></th></tr>\
         <tr><td rowspan=\"2\" style=\"background-color:#FFFF00;\"><p>A</p></td><td style=\"vertical-align:middle;\"><p>B</p></td></tr>\
         <tr><td><p>C</p></td></tr></table>"
    );
}

#[test]
fn merge_chain_stops_at_a_row_without_continuation() {
    let cell = |m: &str, t: &str| format!("<w:tc><w:tcPr>{m}</w:tcPr><w:p><w:r><w:t>{t}</w:t></w:r></w:p></w:tc>");
    let body = format!(
        "<w:tbl><w:tr>{}</w:tr><w:tr>{}</w:tr><w:tr>{}</w:tr><w:tr>{}</w:tr></w:tbl>",
        cell("<w:vMerge w:val=\"restart\"/>", "a"),
        cell("<w:vMerge/>", "b"),
        cell("", "c"),
        cell("<w:vMerge/>", "d")
    );
    assert_eq!(
        body_html(&body),
        "<table><tr><td rowspan=\"2\"><p>a</p></td></tr><tr></tr><tr><td><p>c</p></td></tr><tr><td><p>d</p></td></tr></table>"
    );
}

#[test]
fn hyperlinks_and_bookmarks() {
    let rels = "<Relationships><Relationship Id=\"rId5\" Type=\"http://x/hyperlink\" \
        Target=\"https://example.com/?a=1&amp;b=2\" TargetMode=\"External\"/></Relationships>";
    let html = body_html_with(
        "<w:p><w:bookmarkStart w:id=\"0\" w:name=\"sec1\"/><w:bookmarkStart w:id=\"1\" w:name=\"_GoBack\"/>\
         <w:hyperlink r:id=\"rId5\" w:tooltip=\"Tip &amp; more\"><w:r><w:t>link</w:t></w:r></w:hyperlink>\
         <w:hyperlink w:anchor=\"sec1\"><w:r><w:t>in</w:t></w:r></w:hyperlink>\
         <w:hyperlink r:id=\"rId404\"><w:r><w:t>dead</w:t></w:r></w:hyperlink></w:p>",
        &[("word/_rels/document.xml.rels", rels)],
    );
    assert_eq!(
        html,
        "<p><a id=\"sec1\"></a><a href=\"https://example.com/?a=1&amp;b=2\" title=\"Tip &amp; more\">link</a>\
         <a href=\"#sec1\">in</a>dead</p>"
    );
}

#[test]
fn field_hyperlinks() {
    let html = body_html(
        "<w:p><w:fldSimple w:instr=\" HYPERLINK &quot;http://e.com/x&quot; \\l &quot;part&quot; \">\
         <w:r><w:t>e</w:t></w:r></w:fldSimple></w:p>\
         <w:p><w:r><w:fldChar w:fldCharType=\"begin\"/></w:r>\
         <w:r><w:instrText xml:space=\"preserve\"> HYPERLINK \"http://f.org\" </w:instrText></w:r>\
         <w:r><w:fldChar w:fldCharType=\"separate\"/></w:r><w:r><w:t>f</w:t></w:r>\
         <w:r><w:fldChar w:fldCharType=\"end\"/></w:r></w:p>\
         <w:p><w:r><w:fldChar w:fldCharType=\"begin\"/></w:r><w:r><w:instrText>HYPERLINK \"http://g\"</w:instrText></w:r>\
         <w:r><w:fldChar w:fldCharType=\"separate\"/></w:r><w:r><w:t>g</w:t></w:r></w:p>",
    );
    assert_eq!(
        html,
        "<p><a href=\"http://e.com/x#part\">e</a></p><p><a href=\"http://f.org\">f</a></p>\
         <p><a href=\"http://g\">g</a></p>"
    );
}

#[test]
fn tabs_breaks_and_symbols() {
    let html = body_html(
        "<w:p><w:r><w:t>a</w:t><w:tab/><w:t>b</w:t><w:br/><w:sym w:font=\"Symbol\" w:char=\"F0B7\"/>\
         <w:sym w:char=\"41\"/><w:noBreakHyphen/><w:softHyphen/><w:lastRenderedPageBreak/></w:r></w:p>",
    );
    assert_eq!(
        html,
        "<p>a<span class=\"tab\">\t</span>b<br><span style=\"font-family:'Symbol'\">&#xF0B7;</span>&#x41;&#8209;&shy;</p>"
    );
}

#[test]
fn alternate_content_uses_the_fallback() {
    let html = body_html(
        "<w:p><w:r><mc:AlternateContent><mc:Choice><w:t>choice</w:t></mc:Choice>\
         <mc:Fallback><w:t>fb</w:t></mc:Fallback></mc:AlternateContent></w:r>\
         <mc:AlternateContent><mc:Choice><w:r><w:t>c2</w:t></w:r></mc:Choice><mc:Fallback><w:r><w:t>f2</w:t></w:r></mc:Fallback></mc:AlternateContent></w:p>",
    );
    assert_eq!(html, "<p>fbf2</p>");
}

#[test]
fn deleted_text_is_dropped_and_insertions_kept() {
    let html = body_html(
        "<w:p><w:del><w:r><w:delText>gone</w:delText></w:r></w:del><w:ins><w:r><w:t>new</w:t></w:r></w:ins></w:p>\
         <w:del><w:p><w:r><w:t>x</w:t></w:r></w:p></w:del>",
    );
    assert_eq!(html, "<p>new</p>");
}

#[test]
fn footnotes_are_collected_at_the_end() {
    let notes = "<w:footnotes><w:footnote w:type=\"separator\" w:id=\"-1\"><w:p><w:r><w:separator/></w:r></w:p></w:footnote>\
        <w:footnote w:id=\"2\"><w:p><w:r><w:footnoteRef/></w:r><w:r><w:t>Note</w:t></w:r></w:p></w:footnote></w:footnotes>";
    let html = body_html_with(
        "<w:p><w:r><w:t>x</w:t></w:r><w:r><w:rPr><w:vertAlign w:val=\"superscript\"/></w:rPr>\
         <w:footnoteReference w:id=\"2\"/></w:r><w:r><w:footnoteReference w:id=\"2\"/></w:r></w:p>",
        &[("word/footnotes.xml", notes)],
    );
    assert_eq!(
        html,
        "<p>x<sup><a href=\"#fn-2\" id=\"fnref-2\">1</a></sup><sup><a href=\"#fn-2\" id=\"fnref-2\">1</a></sup></p>\
         <hr><section class=\"footnotes\"><ol><li id=\"fn-2\"><p>Note</p><a href=\"#fnref-2\">&#8617;</a></li></ol></section>"
    );
}

#[test]
fn endnotes_get_their_own_numbers() {
    let notes = "<w:endnotes><w:endnote w:id=\"7\"><w:p><w:r><w:t>E</w:t></w:r></w:p></w:endnote></w:endnotes>";
    let html = body_html_with(
        "<w:p><w:r><w:endnoteReference w:id=\"7\"/></w:r><w:r><w:endnoteReference w:id=\"9\"/></w:r></w:p>",
        &[("word/endnotes.xml", notes)],
    );
    assert_eq!(
        html,
        "<p><sup><a href=\"#en-7\" id=\"enref-7\">1</a></sup><sup><a href=\"#en-9\" id=\"enref-9\">2</a></sup></p>\
         <hr><section class=\"footnotes\"><ol><li id=\"en-7\"><p>E</p><a href=\"#enref-7\">&#8617;</a></li>\
         <li id=\"en-9\"><a href=\"#enref-9\">&#8617;</a></li></ol></section>"
    );
}

const IMAGE_RELS: &str = "<Relationships><Relationship Id=\"rId9\" Type=\"http://x/image\" Target=\"media/pic.png\"/>\
    <Relationship Id=\"rId10\" Type=\"http://x/image\" Target=\"http://img.example/p.gif\" TargetMode=\"External\"/></Relationships>";

const DRAWING: &str = "<w:p><w:r><w:drawing><wp:inline><wp:extent cx=\"952500\" cy=\"476250\"/><a:graphic><a:graphicData>\
    <pic:pic><pic:blipFill><a:blip r:embed=\"rId9\"/></pic:blipFill></pic:pic></a:graphicData></a:graphic></wp:inline></w:drawing></w:r>\
    <w:r><w:pict><v:shape><v:imagedata r:id=\"rId10\"/></v:shape></w:pict></w:r></w:p>";

#[test]
fn images_become_data_uris() {
    let pic = "\u{1}\u{2}\u{3}";
    let html = body_html_with(DRAWING, &[("word/_rels/document.xml.rels", IMAGE_RELS), ("word/media/pic.png", pic)]);
    assert_eq!(
        html,
        "<p><img src=\"data:image/png;base64,AQID\" alt=\"\" width=\"100\" height=\"50\"><img src=\"http://img.example/p.gif\" alt=\"\"></p>"
    );
}

#[test]
fn images_can_be_left_out() {
    let doc = document(DRAWING);
    let mut opts = fragment_opts();
    opts.embed_images = false;
    let html = convert_parts(
        &[("word/document.xml", doc.as_str()), ("word/_rels/document.xml.rels", IMAGE_RELS), ("word/media/pic.png", "x")],
        &opts,
    )
    .unwrap();
    assert_eq!(html, "<p></p>");
}

#[test]
fn text_boxes_are_converted_in_place() {
    let html = body_html(
        "<w:p><w:r><w:pict><v:shape><v:textbox><w:txbxContent><w:p><w:r><w:t>boxed</w:t></w:r></w:p></w:txbxContent></v:textbox></v:shape></w:pict></w:r></w:p>",
    );
    assert_eq!(html, "<p><p>boxed</p></p>");
}

#[test]
fn document_found_through_package_relationships() {
    let rels = "<Relationships><Relationship Id=\"rId1\" Type=\"http://schemas.openxmlformats.org/officeDocument/2006/relationships/officeDocument\" Target=\"/custom/main.xml\"/></Relationships>";
    let doc = document("<w:p><w:r><w:t>moved</w:t></w:r></w:p>");
    let styles = "<w:styles><w:style w:type=\"paragraph\" w:styleId=\"Heading1\"/></w:styles>";
    let html = convert_parts(
        &[("_rels/.rels", rels), ("custom/main.xml", doc.as_str()), ("custom/styles.xml", styles)],
        &fragment_opts(),
    )
    .unwrap();
    assert_eq!(html, "<p>moved</p>");
}

#[test]
fn full_page_has_doctype_title_and_wrapper() {
    let doc = document("<w:p><w:r><w:t>Hi</w:t></w:r></w:p>");
    let core = "<cp:coreProperties><dc:title>My &amp; Doc</dc:title></cp:coreProperties>";
    let html = convert_parts(&[("word/document.xml", doc.as_str()), ("docProps/core.xml", core)], &ConvertOptions::default()).unwrap();
    assert!(html.starts_with("<!DOCTYPE html>\n<html>\n<head>\n<meta charset=\"utf-8\">\n<title>My &amp; Doc</title>\n"));
    assert!(html.contains("<body>\n<p>Hi</p>\n</body>"));
    assert!(html.ends_with("\n</body>\n</html>\n"));
    assert_eq!(html.matches("<html>").count(), 1);
    assert_eq!(html.matches("</html>").count(), 1);

    let mut opts = ConvertOptions::default();
    opts.title = "Over <ride>".to_string();
    let html = convert_parts(&[("word/document.xml", doc.as_str()), ("docProps/core.xml", core)], &opts).unwrap();
    assert!(html.contains("<title>Over &lt;ride&gt;</title>"));

    let html = convert_parts(&[("word/document.xml", doc.as_str())], &ConvertOptions::default()).unwrap();
    assert!(html.contains("<title>Document</title>"));
}

#[test]
fn sample_converts_to_html() {
    let doc = document("<w:p><w:pPr><w:pStyle w:val=\"Heading1\"/></w:pPr><w:r><w:t>Title</w:t></w:r></w:p><w:p><w:r><w:t>Body</w:t></w:r></w:p>");
    let html = convert_parts(&[("word/document.xml", doc.as_str())], &ConvertOptions::default()).unwrap();
    assert!(html.contains("<!DOCTYPE html>"), "missing doctype");
    assert!(html.contains("<body>"), "missing body");
    assert!(html.trim_end().ends_with("</html>"), "missing closing html");
    assert_eq!(html.matches("<html>").count(), 1);
    assert_eq!(html.matches("</html>").count(), 1);
}

#[test]
fn fragment_has_no_wrapper() {
    let doc = document("<w:p><w:r><w:t>Body</w:t></w:r></w:p>");
    let html = convert_parts(&[("word/document.xml", doc.as_str())], &fragment_opts()).unwrap();
    assert!(!html.contains("<html>"), "fragment should have no <html> wrapper");
    assert!(!html.contains("<!DOCTYPE"), "fragment should have no doctype");
    assert_eq!(html, "<p>Body</p>");
}

#[test]
fn rejects_non_docx() {
    let r = convert_docx_to_html(b"this is not a zip file at all", &ConvertOptions::default());
    assert_eq!(r, Err("not a valid .docx file (ZIP archive could not be read)".to_string()));
}

#[test]
fn rejects_ole2_compound_files() {
    let mut data = vec![0xD0, 0xCF, 0x11, 0xE0, 0xA1, 0xB1, 0x1A, 0xE1];
    data.extend_from_slice(&[0u8; 100]);
    let r = convert_docx_to_html(&data, &ConvertOptions::default());
    assert_eq!(
        r,
        Err("OLE compound file: either a legacy binary .doc or a password-protected document (neither is supported)".to_string())
    );
}

#[test]
fn reports_a_missing_main_part() {
    let r = convert_parts(&[("other.xml", "<x/>")], &ConvertOptions::default());
    assert_eq!(r, Err("not a valid .docx file (missing word/document.xml)".to_string()));
}

#[test]
fn recognises_opendocument_files() {
    let r = convert_parts(&[("mimetype", "application/vnd.oasis.opendocument.text"), ("content.xml", "<x/>")], &ConvertOptions::default());
    assert_eq!(r, Err("OpenDocument file (.odt) with a .docx extension (not supported)".to_string()));
}

#[test]
fn deep_nesting_is_cut_off_without_failing() {
    let mut body = String::new();
    for _ in 0..300 {
        body.push_str("<w:sdt><w:sdtContent>");
    }
    body.push_str("<w:p><w:r><w:t>deep</w:t></w:r></w:p>");
    for _ in 0..300 {
        body.push_str("</w:sdtContent></w:sdt>");
    }
    body.push_str("<w:p><w:r><w:t>after</w:t></w:r></w:p>");
    assert_eq!(body_html(&body), "<p>after</p>");
}

#[test]
fn negative_list_levels_are_taken_as_zero() {
    let body = format!("{}{}", list_para(1, -1, "A"), list_para(1, -2, "B"));
    let html = body_html_with(&body, &[("word/numbering.xml", NUMBERING)]);
    assert_eq!(html, "<ul><li>A</li><li>B</li></ul>");
    let low = body_html(&list_para(7, -2147483647, "y"));
    assert_eq!(low, "<ol><li>y</li></ol>");
}

#[test]
fn deep_list_levels_open_every_level() {
    let deep = body_html(&list_para(7, 10, "x"));
    assert_eq!(deep, format!("{}<li>x</li>{}", "<ol>".repeat(11), "</ol>".repeat(11)));
}
