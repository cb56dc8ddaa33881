use rust365::docx_run::{split_dir, wrap_page};
use rust365::htmlutil::{append_escaped_attr, append_escaped_html, base64_encode};
use rust365::paths::{base_name, default_output_path};

#[test]
fn escape_html_replaces_markup_characters() {
    let mut out = String::from(">>");
    append_escaped_html("a<b>&\"c\"", &mut out);
    assert_eq!(out, ">>a&lt;b&gt;&amp;\"c\"");
}

#[test]
fn escape_attr_also_replaces_quotes() {
    let mut out = String::new();
    append_escaped_attr("x=\"1\" & y<2>", &mut out);
    assert_eq!(out, "x=&quot;1&quot; &amp; y&lt;2&gt;");
}

#[test]
fn escape_keeps_other_characters() {
    let mut out = String::new();
    append_escaped_html("héllo 'wörld' ✓", &mut out);
    assert_eq!(out, "héllo 'wörld' ✓");
    let mut a = String::new();
    append_escaped_attr("", &mut a);
    assert_eq!(a, "");
}

#[test]
fn escaped_text_has_no_angle_brackets() {
    let mut out = String::new();
    append_escaped_attr("<<\"&>>", &mut out);
    assert!(!out.contains('<') && !out.contains('>') && !out.contains('"'));
}

#[test]
fn base64_known_vectors() {
    assert_eq!(base64_encode(b""), "");
    assert_eq!(base64_encode(b"f"), "Zg==");
    assert_eq!(base64_encode(b"fo"), "Zm8=");
    assert_eq!(base64_encode(b"foo"), "Zm9v");
    assert_eq!(base64_encode(b"foob"), "Zm9vYg==");
    assert_eq!(base64_encode(b"fooba"), "Zm9vYmE=");
    assert_eq!(base64_encode(b"foobar"), "Zm9vYmFy");
    assert_eq!(base64_encode(&[0xFF, 0xFE, 0xFD]), "//79");
    assert_eq!(base64_encode(&[0, 0, 0, 0]), "AAAAAA==");
}

#[test]
fn base64_length_is_four_per_started_triple() {
    for n in 0..20usize {
        let data: Vec<u8> = (0..n).map(|i| (i * 37) as u8).collect();
        assert_eq!(base64_encode(&data).len(), (n + 2) / 3 * 4);
    }
}

#[test]
fn page_wraps_body_with_escaped_title() {
    let page = wrap_page("A<B", "<p>x</p>");
    assert!(page.starts_with("<!DOCTYPE html>\n<html>\n<head>\n<meta charset=\"utf-8\">\n<title>A&lt;B</title>\n<style>\n"));
    assert!(page.ends_with("</style>\n</head>\n<body>\n<p>x</p>\n</body>\n</html>\n"));
}

#[test]
fn page_without_title_is_called_document() {
    let page = wrap_page("", "");
    assert!(page.contains("<title>Document</title>"));
}

#[test]
fn split_dir_cuts_after_last_slash() {
    assert_eq!(split_dir("word/document.xml"), ("word/".to_string(), "document.xml".to_string()));
    assert_eq!(split_dir("a/b/c"), ("a/b/".to_string(), "c".to_string()));
    assert_eq!(split_dir("document.xml"), ("".to_string(), "document.xml".to_string()));
    assert_eq!(split_dir("dir/"), ("dir/".to_string(), "".to_string()));
}

#[test]
fn default_output_replaces_the_extension() {
    assert_eq!(default_output_path("report.docx"), "report.html");
    assert_eq!(default_output_path("dir/report.v2.docx"), "dir/report.v2.html");
    assert_eq!(default_output_path("dir.d/report"), "dir.d/report.html");
    assert_eq!(default_output_path("c:\\x.y\\doc"), "c:\\x.y\\doc.html");
    assert_eq!(default_output_path("noext"), "noext.html");
}

#[test]
fn base_name_drops_directories_and_extension() {
    assert_eq!(base_name("/tmp/My Report.docx"), "My Report");
    assert_eq!(base_name("a\\b\\c.tar.gz"), "c.tar");
    assert_eq!(base_name(".hidden"), ".hidden");
    assert_eq!(base_name("dir/"), "");
    assert_eq!(base_name("plain"), "plain");
}

#[test]
fn base64_uses_its_alphabet_and_padding() {
    for d in [&b""[..], b"f", b"fo", b"foo", b"\xff\xfe\xfd\x00"] {
        let s = base64_encode(d);
        let pad = (3 - d.len() % 3) % 3;
        let (body, tail) = s.split_at(s.len() - pad);
        assert!(body.chars().all(|c| c.is_ascii_alphanumeric() || c == '+' || c == '/'));
        assert!(tail.chars().all(|c| c == '='));
    }
    assert_ne!(base64_encode(b"\x00"), base64_encode(b"\x00\x00"));
    assert_ne!(base64_encode(b"ab"), base64_encode(b"ac"));
}
