use rust365::xml::{Event, XmlParser};
use rust365::htmlutil::{append_escaped_attr, append_escaped_html};

fn events(xml: &str) -> Vec<(Event, String)> {
    let mut xp = XmlParser::new(xml);
    let mut v = Vec::new();
    loop {
        let ev = xp.next();
        match ev {
            Event::Eof => break,
            Event::Start | Event::End => v.push((ev, xp.name().to_string())),
            Event::Text => v.push((ev, xp.text().to_string())),
        }
    }
    v
}

#[test]
fn reports_start_text_end() {
    let ev = events("<a><b>hi</b></a>");
    assert_eq!(
        ev,
        vec![
            (Event::Start, "a".to_string()),
            (Event::Start, "b".to_string()),
            (Event::Text, "hi".to_string()),
            (Event::End, "b".to_string()),
            (Event::End, "a".to_string()),
        ]
    );
}

#[test]
fn self_closing_tag_gives_start_then_end() {
    let ev = events("<w:p/>");
    assert_eq!(ev, vec![(Event::Start, "w:p".to_string()), (Event::End, "w:p".to_string())]);
}

#[test]
fn declarations_and_comments_are_skipped() {
    let ev = events("<?xml version=\"1.0\"?><!-- note --><r>x</r>");
    assert_eq!(
        ev,
        vec![
            (Event::Start, "r".to_string()),
            (Event::Text, "x".to_string()),
            (Event::End, "r".to_string()),
        ]
    );
}

#[test]
fn cdata_is_text() {
    let ev = events("<r><![CDATA[a<b]]></r>");
    assert_eq!(ev[1], (Event::Text, "a<b".to_string()));
}

#[test]
fn attributes_are_read_with_either_quote() {
    let mut xp = XmlParser::new("<w:t a=\"1\" b='two' c = \"x y\">");
    assert_eq!(xp.next(), Event::Start);
    assert_eq!(xp.name(), "w:t");
    assert_eq!(xp.attr("a"), "1");
    assert_eq!(xp.attr("b"), "two");
    assert_eq!(xp.attr("c"), "x y");
    assert_eq!(xp.attr("missing"), "");
    assert_eq!(xp.attrs().len(), 3);
    assert_eq!(xp.attrs()[1].name, "b");
    assert_eq!(xp.attrs()[1].value, "two");
}

#[test]
fn attribute_values_stay_undecoded() {
    let mut xp = XmlParser::new("<a v=\"&amp;&lt;\"/>");
    assert_eq!(xp.next(), Event::Start);
    assert_eq!(xp.attr("v"), "&amp;&lt;");
}

#[test]
fn skip_element_consumes_through_matching_end() {
    let mut xp = XmlParser::new("<a><b><c/><b>t</b></b><d/></a>");
    assert_eq!(xp.next(), Event::Start);
    assert_eq!(xp.next(), Event::Start);
    assert_eq!(xp.name(), "b");
    xp.skip_element();
    assert_eq!(xp.next(), Event::Start);
    assert_eq!(xp.name(), "d");
}

#[test]
fn end_of_input_repeats_eof() {
    let mut xp = XmlParser::new("");
    assert_eq!(xp.next(), Event::Eof);
    assert_eq!(xp.next(), Event::Eof);
}

#[test]
fn unterminated_tag_ends_the_stream() {
    let mut xp = XmlParser::new("<a");
    assert_eq!(xp.next(), Event::Eof);
}

#[test]
fn decodes_entities_and_references() {
    let mut out = String::from(">");
    XmlParser::append_decoded("a &lt;b&gt; &amp; &quot;c&quot; &apos;d&apos;", &mut out);
    assert_eq!(out, ">a <b> & \"c\" 'd'");
    let mut n = String::new();
    XmlParser::append_decoded("&#65;&#x42;&#x263A;", &mut n);
    assert_eq!(n, "AB\u{263A}");
}

#[test]
fn unknown_or_broken_entities_stay_as_written() {
    let mut out = String::new();
    XmlParser::append_decoded("&foo; & x &#xZZ; &#;", &mut out);
    // "& x &#xZZ;" is one unknown entity: its ';' is within reach of the first '&'
    assert_eq!(out, "&foo; & x &#xZZ; ");
    let mut a = String::new();
    XmlParser::append_decoded("[&#xZZ;][&#;][&#0;][&#x110000;]", &mut a);
    assert_eq!(a, "[][][][]");
    let mut b = String::new();
    XmlParser::append_decoded("a & b and more text;", &mut b);
    assert_eq!(b, "a & b and more text;");
}

#[test]
fn references_past_the_last_code_point_give_nothing() {
    let mut out = String::new();
    XmlParser::append_decoded("[&#4294967361;][&#1114112;][&#x110000;][&#1114111;]", &mut out);
    assert_eq!(out, "[][][][\u{10FFFF}]");
    let mut big = String::new();
    XmlParser::append_decoded("&#9999999999;&#xFFFFFFFFF;", &mut big);
    assert_eq!(big, "");
}

#[test]
fn escaped_text_decodes_back() {
    for s in ["plain", "a < b && c > d", "say \"hi\" & 'bye'", "é€𝄞 <&>", ""] {
        let mut e = String::new();
        append_escaped_attr(s, &mut e);
        let mut back = String::new();
        XmlParser::append_decoded(&e, &mut back);
        assert_eq!(back, s);
        let mut h = String::new();
        append_escaped_html(s, &mut h);
        let mut back2 = String::new();
        XmlParser::append_decoded(&h, &mut back2);
        assert_eq!(back2, s);
    }
}

#[test]
fn eof_comes_within_length_plus_one_calls() {
    for s in ["", "<a/>", "<a><b x='1'/>t</a>", "<<<<", "<!-- c --><x/>", "text only", "<a></a><b/><c/>"] {
        let mut xp = XmlParser::new(s);
        let mut calls = 0;
        loop {
            calls += 1;
            if xp.next() == Event::Eof {
                break;
            }
            assert!(calls <= s.len() + 1);
        }
        assert!(calls <= s.len() + 1);
    }
}

#[test]
fn names_texts_and_attributes_are_taken_from_the_input() {
    let s = "<w:p a=\"x &amp; y\" b='2'><![CDATA[raw <b>]]>t&lt;u</w:p><!-- c --><e/>";
    let mut xp = XmlParser::new(s);
    loop {
        match xp.next() {
            Event::Eof => break,
            Event::Text => assert!(s.contains(xp.text())),
            _ => {
                assert!(s.contains(xp.name()));
                for a in xp.attrs() {
                    assert!(s.contains(a.name) && s.contains(a.value));
                }
            }
        }
    }
    let mut xp = XmlParser::new(s);
    xp.next();
    assert_eq!(xp.attr("a"), "x &amp; y");
}

#[test]
fn tag_names_stop_at_their_delimiters() {
    let s = "<a/><b x='1'>t</b ><c\n/><d=e></d\t>";
    let mut xp = XmlParser::new(s);
    loop {
        match xp.next() {
            Event::Eof => break,
            Event::Start => assert!(!xp.name().contains([' ', '\t', '\r', '\n', '>', '/', '='])),
            Event::End => assert!(!xp.name().contains([' ', '\t', '\r', '\n', '>'])),
            Event::Text => {}
        }
    }
}

#[test]
fn hex_references_keep_their_low_32_bits() {
    let mut out = String::new();
    XmlParser::append_decoded("[&#x100000041;][&#x1000263A;]", &mut out);
    assert_eq!(out, "[A][]");
}
