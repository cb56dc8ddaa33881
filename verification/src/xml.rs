//! Minimal zero-copy XML pull parser, tuned for OOXML.
use vstd::prelude::*;
use crate::text::{bytes_eq, str_eq, str_or_empty, text_of};
use crate::htmlutil::{push_char, escape_attr, escape_attr_char, escape_html, escape_html_char};
use vstd::string::StringSliceAdditionalSpecFns;
use vstd::utf8::{encode_utf8, encode_scalar};

verus! {

broadcast use vstd::string::group_string_axioms;

pub const B_LT: u8 = 0x3C;
pub const B_GT: u8 = 0x3E;
pub const B_SLASH: u8 = 0x2F;
pub const B_QMARK: u8 = 0x3F;
pub const B_BANG: u8 = 0x21;
pub const B_EQ: u8 = 0x3D;
pub const B_DQUOTE: u8 = 0x22;
pub const B_SQUOTE: u8 = 0x27;
pub const B_SPACE: u8 = 0x20;
pub const B_TAB: u8 = 0x09;
pub const B_CR: u8 = 0x0D;
pub const B_LF: u8 = 0x0A;
pub const B_AMP: u8 = 0x26;
pub const B_SEMI: u8 = 0x3B;
pub const B_HASH: u8 = 0x23;

pub struct XmlAttr<'a> {
    pub name: &'a str,
    /// raw, entities not decoded
    pub value: &'a str,
}

#[derive(Debug, PartialEq, Eq, Structural, Clone, Copy)]
pub enum Event {
    Start,
    End,
    Text,
    Eof,
}

pub struct XmlParser<'a> {
    xml: &'a [u8],
    pos: usize,
    m_name: &'a str,
    m_text: &'a str,
    m_attrs: Vec<XmlAttr<'a>>,
    pending_end: bool,
}

pub open spec fn is_ws_byte(c: u8) -> bool {
    c == B_SPACE || c == B_TAB || c == B_CR || c == B_LF
}

pub open spec fn is_name_end_byte(c: u8) -> bool {
    is_ws_byte(c) || c == B_GT || c == B_SLASH || c == B_EQ
}

fn is_ws(c: u8) -> (r: bool)
    ensures
        r == is_ws_byte(c),
{
    c == B_SPACE || c == B_TAB || c == B_CR || c == B_LF
}

fn is_name_end(c: u8) -> (r: bool)
    ensures
        r == is_name_end_byte(c),
{
    is_ws(c) || c == B_GT || c == B_SLASH || c == B_EQ
}

/// The pair (name, value) of characters that an attribute stands for.
pub open spec fn attr_view(a: XmlAttr) -> (Seq<char>, Seq<char>) {
    (a.name@, a.value@)
}

/// The value of the first attribute named `name`, or the empty text.
pub open spec fn attr_lookup(attrs: Seq<(Seq<char>, Seq<char>)>, name: Seq<char>) -> Seq<char>
    decreases attrs.len(),
{
    if attrs.len() == 0 {
        Seq::empty()
    } else if attrs[0].0 == name {
        attrs[0].1
    } else {
        attr_lookup(attrs.drop_first(), name)
    }
}

/// `pat` occurs in `b` at index `at`.
pub open spec fn occurs_at(b: Seq<u8>, at: int, pat: Seq<u8>) -> bool {
    0 <= at && at + pat.len() <= b.len() && b.subrange(at, at + pat.len()) == pat
}

/// The bytes from `from` up to `to` (exclusive) hold no byte `c`.
pub open spec fn none_of(b: Seq<u8>, from: int, to: int, c: u8) -> bool {
    forall|j: int| from <= j < to ==> b[j] != c
}


/// The opening of a CDATA section after '<'.
pub open spec fn cdata_open() -> Seq<u8> {
    seq![0x21u8, 0x5B, 0x43, 0x44, 0x41, 0x54, 0x41, 0x5B]
}

/// The end of a CDATA section.
pub open spec fn cdata_close() -> Seq<u8> {
    seq![0x5Du8, 0x5D, 0x3E]
}

/// The first index at or after `from` whose byte satisfies `f`, or the length of `b`.
pub open spec fn first_where(b: Seq<u8>, from: int, f: spec_fn(u8) -> bool) -> int
    decreases b.len() - from,
{
    if from >= b.len() {
        b.len() as int
    } else if f(b[from]) {
        from
    } else {
        first_where(b, from + 1, f)
    }
}

/// Tests on a byte, for `first_where`.
pub open spec fn lt_test() -> spec_fn(u8) -> bool {
    |c: u8| c == B_LT
}

pub open spec fn gt_test() -> spec_fn(u8) -> bool {
    |c: u8| c == B_GT
}

pub open spec fn ws_test() -> spec_fn(u8) -> bool {
    |c: u8| is_ws_byte(c)
}

pub open spec fn non_ws_test() -> spec_fn(u8) -> bool {
    |c: u8| !is_ws_byte(c)
}

pub open spec fn name_end_test() -> spec_fn(u8) -> bool {
    |c: u8| is_name_end_byte(c)
}

pub open spec fn byte_test(q: u8) -> spec_fn(u8) -> bool {
    |c: u8| c == q
}

/// `first_where` lies between `from` and the end, satisfies `f` when inside, and nothing before
/// it does.
pub proof fn lemma_first_where(b: Seq<u8>, from: int, f: spec_fn(u8) -> bool)
    requires
        0 <= from,
    ensures
        from <= first_where(b, from, f) <= b.len() || (from > b.len() && first_where(b, from, f) == b.len()),
        first_where(b, from, f) < b.len() ==> f(b[first_where(b, from, f)]),
        forall|j: int| from <= j < first_where(b, from, f) ==> !f(#[trigger] b[j]),
    decreases b.len() - from,
{
    if from < b.len() && !f(b[from]) {
        lemma_first_where(b, from + 1, f);
    }
}

/// The first index satisfying `f` is the one a scan stopped at.
pub proof fn lemma_first_where_at(b: Seq<u8>, from: int, i: int, f: spec_fn(u8) -> bool)
    requires
        0 <= from <= i <= b.len(),
        forall|j: int| from <= j < i ==> !f(#[trigger] b[j]),
        i == b.len() || f(b[i]),
    ensures
        first_where(b, from, f) == i,
    decreases i - from,
{
    if from < i {
        lemma_first_where_at(b, from + 1, i, f);
    }
}

/// The first index at or after `from` where `pat` occurs.
pub open spec fn find_pat(b: Seq<u8>, from: int, pat: Seq<u8>) -> Option<int>
    decreases b.len() - from,
{
    if from < 0 || from + pat.len() > b.len() || pat.len() == 0 {
        None
    } else if occurs_at(b, from, pat) {
        Some(from)
    } else {
        find_pat(b, from + 1, pat)
    }
}

/// An occurrence found lies at or after `from` and within the bytes.
pub proof fn lemma_find_pat_bounds(b: Seq<u8>, from: int, pat: Seq<u8>)
    ensures
        find_pat(b, from, pat) matches Some(x) ==> from <= x && x + pat.len() <= b.len() && occurs_at(b, x, pat),
    decreases b.len() - from,
{
    if !(from < 0 || from + pat.len() > b.len() || pat.len() == 0) && !occurs_at(b, from, pat) {
        lemma_find_pat_bounds(b, from + 1, pat);
    }
}

proof fn lemma_find_pat(b: Seq<u8>, from: int, pat: Seq<u8>, r: Option<int>)
    requires
        0 <= from <= b.len(),
        pat.len() > 0,
        match r {
            Some(i) => from <= i && occurs_at(b, i, pat) && forall|j: int| from <= j < i ==> !occurs_at(b, j, pat),
            None => forall|j: int| from <= j ==> !occurs_at(b, j, pat),
        },
    ensures
        find_pat(b, from, pat) == r,
    decreases b.len() - from,
{
    if from + pat.len() <= b.len() && !occurs_at(b, from, pat) {
        lemma_find_pat(b, from + 1, pat, r);
    } else if from + pat.len() > b.len() {
        if let Some(i) = r {
            assert(occurs_at(b, i, pat));
        }
    }
}

/// The parser's state as plain values: where it stands, whether a self-closing tag still owes its
/// End, and the name, text and attributes of the latest events.
pub struct XmlState {
    pub pos: int,
    pub pending: bool,
    pub name: Seq<char>,
    pub text: Seq<char>,
    pub attrs: Seq<(Seq<char>, Seq<char>)>,
}

/// Reading the attributes of a start tag from `q` on, up to its '>' or "/>": the Start event and
/// the state after the tag, or Eof when the input ends inside it. `s` holds the tag's name and the
/// attributes read so far; an attribute without a quoted value gets the empty value.
pub open spec fn attr_loop(b: Seq<u8>, q: int, s: XmlState) -> (Event, XmlState)
    decreases b.len() - q,
{
    let q1 = first_where(b, q, non_ws_test());
    if q < 0 || q1 >= b.len() {
        (Event::Eof, XmlState { pos: q1, ..s })
    } else if b[q1] == B_GT {
        (Event::Start, XmlState { pos: q1 + 1, ..s })
    } else if b[q1] == B_SLASH {
        let q2 = q1 + 1;
        (
            Event::Start,
            XmlState {
                pos: if q2 < b.len() && b[q2] == B_GT {
                    q2 + 1
                } else {
                    q2
                },
                pending: true,
                ..s
            },
        )
    } else {
        proof {
            lemma_first_where(b, q, non_ws_test());
            lemma_first_where(b, q1, name_end_test());
        }
        let ae = first_where(b, q1, name_end_test());
        let an = text_of(b.subrange(q1, ae));
        let q3 = first_where(b, ae, non_ws_test());
        proof {
            lemma_first_where(b, ae, non_ws_test());
        }
        if q3 < b.len() && b[q3] == B_EQ {
            let q4 = first_where(b, q3 + 1, non_ws_test());
            proof {
                lemma_first_where(b, q3 + 1, non_ws_test());
            }
            if q4 < b.len() && (b[q4] == B_DQUOTE || b[q4] == B_SQUOTE) {
                let quote = b[q4];
                let ve = first_where(b, q4 + 1, byte_test(quote));
                proof {
                    lemma_first_where(b, q4 + 1, byte_test(quote));
                }
                if ve >= b.len() {
                    (Event::Eof, XmlState { pos: q4 + 1, ..s })
                } else {
                    attr_loop(
                        b,
                        ve + 1,
                        XmlState { attrs: s.attrs.push((an, text_of(b.subrange(q4 + 1, ve)))), ..s },
                    )
                }
            } else {
                attr_loop(b, q4, XmlState { attrs: s.attrs.push((an, Seq::empty())), ..s })
            }
        } else {
            attr_loop(b, q3, XmlState { attrs: s.attrs.push((an, Seq::empty())), ..s })
        }
    }
}

/// The next event from byte `p` on when no End is owed: character data up to the next '<'; an
/// end tag; a start tag with its attributes; a CDATA section as text; declarations, processing
/// instructions and comments passed over; Eof at the end or inside unfinished markup.
pub open spec fn scan(b: Seq<u8>, p: int, s: XmlState) -> (Event, XmlState)
    decreases b.len() - p,
{
    if p < 0 || p >= b.len() {
        (Event::Eof, XmlState { pos: p, ..s })
    } else if b[p] != B_LT {
        let lt = first_where(b, p, lt_test());
        (Event::Text, XmlState { pos: lt, text: text_of(b.subrange(p, lt)), ..s })
    } else if p + 1 >= b.len() {
        (Event::Eof, XmlState { pos: p + 1, ..s })
    } else if b[p + 1] == B_SLASH {
        let gt = first_where(b, p + 2, gt_test());
        if gt >= b.len() {
            (Event::Eof, XmlState { pos: p + 2, ..s })
        } else {
            let w = first_where(b, p + 2, ws_test());
            let e = if w < gt {
                w
            } else {
                gt
            };
            (Event::End, XmlState { pos: gt + 1, name: text_of(b.subrange(p + 2, e)), ..s })
        }
    } else if b[p + 1] == B_QMARK {
        let np = match find_pat(b, p + 1, seq![B_QMARK, B_GT]) {
            Some(x) => x + 2,
            None => b.len() as int,
        };
        proof {
            lemma_find_pat_bounds(b, p + 1, seq![B_QMARK, B_GT]);
        }
        scan(b, np, s)
    } else if b[p + 1] == B_BANG {
        if occurs_at(b, p + 1, seq![B_BANG, 0x2Du8, 0x2Du8]) {
            let np = match find_pat(b, p + 4, seq![0x2Du8, 0x2Du8, B_GT]) {
                Some(x) => x + 3,
                None => b.len() as int,
            };
            proof {
                lemma_find_pat_bounds(b, p + 4, seq![0x2Du8, 0x2Du8, B_GT]);
            }
            scan(b, np, s)
        } else if occurs_at(b, p + 1, cdata_open()) {
            let st = p + 9;
            match find_pat(b, st, cdata_close()) {
                Some(e) => (Event::Text, XmlState { pos: e + 3, text: text_of(b.subrange(st, e)), ..s }),
                None => (Event::Text, XmlState { pos: b.len() as int, text: text_of(b.subrange(st, b.len() as int)), ..s }),
            }
        } else {
            let gt = first_where(b, p + 1, gt_test());
            proof {
                lemma_first_where(b, p + 1, gt_test());
            }
            let np = if gt < b.len() {
                gt + 1
            } else {
                b.len() as int
            };
            scan(b, np, s)
        }
    } else {
        let ne = first_where(b, p + 1, name_end_test());
        attr_loop(b, ne, XmlState { name: text_of(b.subrange(p + 1, ne)), attrs: Seq::empty(), ..s })
    }
}

/// One event of the parser over the bytes `b` from state `st`, and the state after it.
pub open spec fn xml_step(b: Seq<u8>, st: XmlState) -> (Event, XmlState) {
    if st.pending {
        (Event::End, XmlState { pending: false, ..st })
    } else {
        scan(b, st.pos, st)
    }
}

/// A self-closing tag is reported as a Start that owes its End, and the next event is that End,
/// with the same name, read without moving on.
pub proof fn lemma_self_closing(b: Seq<u8>, st: XmlState)
    requires
        xml_step(b, st).0 == Event::Start,
        xml_step(b, st).1.pending,
    ensures
        xml_step(b, xml_step(b, st).1).0 == Event::End,
        xml_step(b, xml_step(b, st).1).1.name == xml_step(b, st).1.name,
        xml_step(b, xml_step(b, st).1).1.pos == xml_step(b, st).1.pos,
        !xml_step(b, xml_step(b, st).1).1.pending,
{
}

/// The text `t`, as UTF-8, is a stretch of the input `b`.
pub open spec fn from_input(b: Seq<u8>, t: Seq<char>) -> bool {
    exists|x: int, y: int| 0 <= x <= y <= b.len() && encode_utf8(t) == #[trigger] b.subrange(x, y)
}

/// The name, the text and every attribute name and value of `st` are stretches of the input.
pub open spec fn texts_from_input(b: Seq<u8>, st: XmlState) -> bool {
    &&& from_input(b, st.name)
    &&& from_input(b, st.text)
    &&& forall|i: int| 0 <= i < st.attrs.len() ==> from_input(b, (#[trigger] st.attrs[i]).0) && from_input(b, st.attrs[i].1)
}

proof fn lemma_text_of_from_input(b: Seq<u8>, x: int, y: int)
    requires
        0 <= x <= y <= b.len(),
    ensures
        from_input(b, text_of(b.subrange(x, y))),
{
    let r = b.subrange(x, y);
    if vstd::utf8::valid_utf8(r) {
        vstd::utf8::decode_utf8_encode_utf8(r);
        assert(encode_utf8(text_of(r)) == b.subrange(x, y));
    } else {
        assert(encode_utf8(Seq::<char>::empty()) =~= b.subrange(0, 0));
    }
}

proof fn lemma_attr_loop_texts(b: Seq<u8>, q: int, s: XmlState)
    requires
        texts_from_input(b, s),
    ensures
        texts_from_input(b, attr_loop(b, q, s).1),
    decreases b.len() - q,
{
    let q1 = first_where(b, q, non_ws_test());
    if !(q < 0 || q1 >= b.len()) && b[q1] != B_GT && b[q1] != B_SLASH {
        lemma_first_where(b, q, non_ws_test());
        lemma_first_where(b, q1, name_end_test());
        let ae = first_where(b, q1, name_end_test());
        lemma_text_of_from_input(b, q1, ae);
        let an = text_of(b.subrange(q1, ae));
        let q3 = first_where(b, ae, non_ws_test());
        lemma_first_where(b, ae, non_ws_test());
        if q3 < b.len() && b[q3] == B_EQ {
            let q4 = first_where(b, q3 + 1, non_ws_test());
            lemma_first_where(b, q3 + 1, non_ws_test());
            if q4 < b.len() && (b[q4] == B_DQUOTE || b[q4] == B_SQUOTE) {
                let quote = b[q4];
                let ve = first_where(b, q4 + 1, byte_test(quote));
                lemma_first_where(b, q4 + 1, byte_test(quote));
                if ve < b.len() {
                    lemma_text_of_from_input(b, q4 + 1, ve);
                    let s2 = XmlState { attrs: s.attrs.push((an, text_of(b.subrange(q4 + 1, ve)))), ..s };
                    assert(texts_from_input(b, s2)) by {
                        assert forall|i: int| 0 <= i < s2.attrs.len() implies from_input(b, (#[trigger] s2.attrs[i]).0)
                            && from_input(b, s2.attrs[i].1) by {
                            if i < s.attrs.len() {
                                assert(s2.attrs[i] == s.attrs[i]);
                            }
                        }
                    }
                    lemma_attr_loop_texts(b, ve + 1, s2);
                }
            } else {
                lemma_text_of_from_input(b, 0, 0);
                let s2 = XmlState { attrs: s.attrs.push((an, Seq::empty())), ..s };
                assert(text_of(b.subrange(0, 0)) =~= Seq::<char>::empty());
                assert(texts_from_input(b, s2)) by {
                    assert forall|i: int| 0 <= i < s2.attrs.len() implies from_input(b, (#[trigger] s2.attrs[i]).0)
                        && from_input(b, s2.attrs[i].1) by {
                        if i < s.attrs.len() {
                            assert(s2.attrs[i] == s.attrs[i]);
                        }
                    }
                }
                lemma_attr_loop_texts(b, q4, s2);
            }
        } else {
            lemma_text_of_from_input(b, 0, 0);
            let s2 = XmlState { attrs: s.attrs.push((an, Seq::empty())), ..s };
            assert(text_of(b.subrange(0, 0)) =~= Seq::<char>::empty());
            assert(texts_from_input(b, s2)) by {
                assert forall|i: int| 0 <= i < s2.attrs.len() implies from_input(b, (#[trigger] s2.attrs[i]).0)
                    && from_input(b, s2.attrs[i].1) by {
                    if i < s.attrs.len() {
                        assert(s2.attrs[i] == s.attrs[i]);
                    }
                }
            }
            lemma_attr_loop_texts(b, q3, s2);
        }
    }
}

proof fn lemma_scan_texts(b: Seq<u8>, p: int, s: XmlState)
    requires
        texts_from_input(b, s),
    ensures
        texts_from_input(b, scan(b, p, s).1),
    decreases b.len() - p,
{
    if p < 0 || p >= b.len() {
    } else if b[p] != B_LT {
        lemma_first_where(b, p, lt_test());
        lemma_text_of_from_input(b, p, first_where(b, p, lt_test()));
    } else if p + 1 >= b.len() {
    } else if b[p + 1] == B_SLASH {
        let gt = first_where(b, p + 2, gt_test());
        lemma_first_where(b, p + 2, gt_test());
        lemma_first_where(b, p + 2, ws_test());
        if gt < b.len() {
            let w = first_where(b, p + 2, ws_test());
            let e = if w < gt {
                w
            } else {
                gt
            };
            lemma_text_of_from_input(b, p + 2, e);
        }
    } else if b[p + 1] == B_QMARK {
        lemma_find_pat_bounds(b, p + 1, seq![B_QMARK, B_GT]);
        let np = match find_pat(b, p + 1, seq![B_QMARK, B_GT]) {
            Some(x) => x + 2,
            None => b.len() as int,
        };
        lemma_scan_texts(b, np, s);
    } else if b[p + 1] == B_BANG {
        if occurs_at(b, p + 1, seq![B_BANG, 0x2Du8, 0x2Du8]) {
            lemma_find_pat_bounds(b, p + 4, seq![0x2Du8, 0x2Du8, B_GT]);
            let np = match find_pat(b, p + 4, seq![0x2Du8, 0x2Du8, B_GT]) {
                Some(x) => x + 3,
                None => b.len() as int,
            };
            lemma_scan_texts(b, np, s);
        } else if occurs_at(b, p + 1, cdata_open()) {
            let st = p + 9;
            lemma_find_pat_bounds(b, st, cdata_close());
            match find_pat(b, st, cdata_close()) {
                Some(e) => {
                    lemma_text_of_from_input(b, st, e);
                },
                None => {
                    if st <= b.len() {
                        lemma_text_of_from_input(b, st, b.len() as int);
                    } else {
                        assert(b.subrange(st, b.len() as int) =~= Seq::<u8>::empty());
                        lemma_text_of_from_input(b, 0, 0);
                        assert(b.subrange(0, 0) =~= Seq::<u8>::empty());
                    }
                },
            }
        } else {
            let gt = first_where(b, p + 1, gt_test());
            lemma_first_where(b, p + 1, gt_test());
            let np = if gt < b.len() {
                gt + 1
            } else {
                b.len() as int
            };
            lemma_scan_texts(b, np, s);
        }
    } else {
        let ne = first_where(b, p + 1, name_end_test());
        lemma_first_where(b, p + 1, name_end_test());
        lemma_text_of_from_input(b, p + 1, ne);
        lemma_text_of_from_input(b, 0, 0);
        let s2 = XmlState { name: text_of(b.subrange(p + 1, ne)), attrs: Seq::empty(), ..s };
        lemma_attr_loop_texts(b, ne, s2);
    }
}

/// Every name, text and attribute name and value that the parser reports is a stretch of its
/// input, taken as it stands (attribute values not decoded): the empty state has only such
/// texts, and each event keeps it so.
pub proof fn lemma_texts_from_input(b: Seq<u8>, st: XmlState)
    ensures
        texts_from_input(b, XmlState { name: Seq::empty(), text: Seq::empty(), attrs: Seq::empty(), ..st }),
        texts_from_input(b, st) ==> texts_from_input(b, xml_step(b, st).1),
{
    assert(encode_utf8(Seq::<char>::empty()) =~= b.subrange(0, 0));
    if texts_from_input(b, st) && !st.pending {
        lemma_scan_texts(b, st.pos, st);
    }
}

/// No byte of the UTF-8 form of `t` passes `f`.
pub open spec fn avoids(t: Seq<char>, f: spec_fn(u8) -> bool) -> bool {
    forall|k: int| 0 <= k < encode_utf8(t).len() ==> !f(#[trigger] encode_utf8(t)[k])
}

proof fn lemma_text_of_avoids(b: Seq<u8>, x: int, y: int, f: spec_fn(u8) -> bool)
    requires
        0 <= x <= y <= b.len(),
        forall|j: int| x <= j < y ==> !f(#[trigger] b[j]),
    ensures
        avoids(text_of(b.subrange(x, y)), f),
{
    let r = b.subrange(x, y);
    if vstd::utf8::valid_utf8(r) {
        vstd::utf8::decode_utf8_encode_utf8(r);
        assert forall|k: int| 0 <= k < encode_utf8(text_of(r)).len() implies !f(
            #[trigger] encode_utf8(text_of(r))[k],
        ) by {
            assert(encode_utf8(text_of(r))[k] == b[x + k]);
        }
    } else {
        assert(encode_utf8(Seq::<char>::empty()) =~= Seq::<u8>::empty());
    }
}

proof fn lemma_attr_loop_keeps_name(b: Seq<u8>, q: int, s: XmlState)
    ensures
        attr_loop(b, q, s).1.name == s.name,
    decreases b.len() - q,
{
    let q1 = first_where(b, q, non_ws_test());
    if !(q < 0 || q1 >= b.len()) && b[q1] != B_GT && b[q1] != B_SLASH {
        lemma_first_where(b, q, non_ws_test());
        lemma_first_where(b, q1, name_end_test());
        let ae = first_where(b, q1, name_end_test());
        let an = text_of(b.subrange(q1, ae));
        let q3 = first_where(b, ae, non_ws_test());
        lemma_first_where(b, ae, non_ws_test());
        if q3 < b.len() && b[q3] == B_EQ {
            let q4 = first_where(b, q3 + 1, non_ws_test());
            lemma_first_where(b, q3 + 1, non_ws_test());
            if q4 < b.len() && (b[q4] == B_DQUOTE || b[q4] == B_SQUOTE) {
                let quote = b[q4];
                let ve = first_where(b, q4 + 1, byte_test(quote));
                lemma_first_where(b, q4 + 1, byte_test(quote));
                if ve < b.len() {
                    lemma_attr_loop_keeps_name(
                        b,
                        ve + 1,
                        XmlState { attrs: s.attrs.push((an, text_of(b.subrange(q4 + 1, ve)))), ..s },
                    );
                }
            } else {
                lemma_attr_loop_keeps_name(b, q4, XmlState { attrs: s.attrs.push((an, Seq::empty())), ..s });
            }
        } else {
            lemma_attr_loop_keeps_name(b, q3, XmlState { attrs: s.attrs.push((an, Seq::empty())), ..s });
        }
    }
}

proof fn lemma_scan_names(b: Seq<u8>, p: int, s: XmlState)
    ensures
        scan(b, p, s).0 == Event::Start ==> avoids(scan(b, p, s).1.name, name_end_test()),
        scan(b, p, s).0 == Event::End ==> avoids(scan(b, p, s).1.name, ws_test()) && avoids(
            scan(b, p, s).1.name,
            gt_test(),
        ),
    decreases b.len() - p,
{
    if p < 0 || p >= b.len() || b[p] != B_LT || p + 1 >= b.len() {
    } else if b[p + 1] == B_SLASH {
        let gt = first_where(b, p + 2, gt_test());
        lemma_first_where(b, p + 2, gt_test());
        lemma_first_where(b, p + 2, ws_test());
        if gt < b.len() {
            let w = first_where(b, p + 2, ws_test());
            let e = if w < gt {
                w
            } else {
                gt
            };
            lemma_text_of_avoids(b, p + 2, e, ws_test());
            lemma_text_of_avoids(b, p + 2, e, gt_test());
        }
    } else if b[p + 1] == B_QMARK {
        lemma_find_pat_bounds(b, p + 1, seq![B_QMARK, B_GT]);
        let np = match find_pat(b, p + 1, seq![B_QMARK, B_GT]) {
            Some(x) => x + 2,
            None => b.len() as int,
        };
        lemma_scan_names(b, np, s);
    } else if b[p + 1] == B_BANG {
        if occurs_at(b, p + 1, seq![B_BANG, 0x2Du8, 0x2Du8]) {
            lemma_find_pat_bounds(b, p + 4, seq![0x2Du8, 0x2Du8, B_GT]);
            let np = match find_pat(b, p + 4, seq![0x2Du8, 0x2Du8, B_GT]) {
                Some(x) => x + 3,
                None => b.len() as int,
            };
            lemma_scan_names(b, np, s);
        } else if !occurs_at(b, p + 1, cdata_open()) {
            let gt = first_where(b, p + 1, gt_test());
            lemma_first_where(b, p + 1, gt_test());
            let np = if gt < b.len() {
                gt + 1
            } else {
                b.len() as int
            };
            lemma_scan_names(b, np, s);
        }
    } else {
        let ne = first_where(b, p + 1, name_end_test());
        lemma_first_where(b, p + 1, name_end_test());
        lemma_text_of_avoids(b, p + 1, ne, name_end_test());
        let s2 = XmlState { name: text_of(b.subrange(p + 1, ne)), attrs: Seq::empty(), ..s };
        lemma_attr_loop_keeps_name(b, ne, s2);
    }
}

/// The name of a start tag holds no whitespace, '>', '/' or '=', and the name of an end tag no
/// whitespace or '>'. (The End owed by a self-closing tag repeats its Start's name.)
pub proof fn lemma_tag_names(b: Seq<u8>, st: XmlState)
    ensures
        xml_step(b, st).0 == Event::Start ==> avoids(xml_step(b, st).1.name, name_end_test()),
        xml_step(b, st).0 == Event::End && !st.pending ==> avoids(xml_step(b, st).1.name, ws_test())
            && avoids(xml_step(b, st).1.name, gt_test()),
{
    if !st.pending {
        lemma_scan_names(b, st.pos, st);
    }
}

/// Twice the bytes left after `st.pos`, plus one when an End is owed: every event but Eof
/// makes it smaller.
pub open spec fn state_rank(b: Seq<u8>, st: XmlState) -> int {
    2 * (b.len() - st.pos) + if st.pending {
        1int
    } else {
        0int
    }
}

/// The state reached from `st` by reading events until `depth` more End events than Start events
/// have been read, or the input ends. (A step that does not shrink `state_rank` ends the walk;
/// only Eof is such a step.)
pub open spec fn skip_from(b: Seq<u8>, st: XmlState, depth: int) -> XmlState
    decreases state_rank(b, st),
{
    if depth <= 0 {
        st
    } else {
        let (ev, next) = xml_step(b, st);
        if ev == Event::Eof || state_rank(b, next) >= state_rank(b, st) || state_rank(b, next) < 0 {
            next
        } else {
            skip_from(
                b,
                next,
                if ev == Event::Start {
                    depth + 1
                } else if ev == Event::End {
                    depth - 1
                } else {
                    depth
                },
            )
        }
    }
}

/// `b` is the state of a parser that was at `a` and has read on over the same input.
pub open spec fn progressed(a: XmlParser, b: XmlParser) -> bool {
    &&& b.wf()
    &&& b.input() == a.input()
    &&& b.rank() <= a.rank()
}

/// The bytes at `p` open markup that the parser passes over: "<?" or "<!" but not CDATA.
pub open spec fn skipped_markup(b: Seq<u8>, p: int) -> bool {
    &&& p + 1 < b.len()
    &&& b[p] == B_LT
    &&& (b[p + 1] == B_QMARK || b[p + 1] == B_BANG)
    &&& !occurs_at(b, p + 1, cdata_open())
}


/// The byte length that a UTF-8 sequence announces by its first byte (1 for a stray byte).
pub open spec fn utf8_len_spec(b: u8) -> int {
    if b < 0x80 {
        1
    } else if b >= 0xF0 {
        4
    } else if b >= 0xE0 {
        3
    } else if b >= 0xC0 {
        2
    } else {
        1
    }
}

/// The index of the first ';' at or after `from`, or the length when there is none.
pub open spec fn first_semi(b: Seq<u8>, from: int) -> int
    decreases b.len() - from,
{
    if from >= b.len() || from < 0 {
        b.len() as int
    } else if b[from] == B_SEMI {
        from
    } else {
        first_semi(b, from + 1)
    }
}

pub proof fn lemma_first_semi_bounds(b: Seq<u8>, from: int)
    requires
        0 <= from,
    ensures
        first_semi(b, from) == b.len() || (from <= first_semi(b, from) < b.len() && b[first_semi(
            b,
            from,
        )] == B_SEMI),
        forall|j: int| from <= j < first_semi(b, from) ==> b[j] != B_SEMI,
    decreases b.len() - from,
{
    if from < b.len() && b[from] != B_SEMI {
        lemma_first_semi_bounds(b, from + 1);
    }
}

pub open spec fn is_hex_digit(c: u8) -> bool {
    (0x30 <= c <= 0x39) || (0x61 <= c <= 0x66) || (0x41 <= c <= 0x46)
}

pub open spec fn hex_digit_val(c: u8) -> int {
    if 0x30 <= c <= 0x39 {
        c - 0x30
    } else if 0x61 <= c <= 0x66 {
        c - 0x61 + 10
    } else {
        c - 0x41 + 10
    }
}

/// Hexadecimal digits read most significant first into 32 bits (higher bits fall off),
/// or None when a byte is not a hex digit.
pub open spec fn hex_value(ds: Seq<u8>) -> Option<u32>
    decreases ds.len(),
{
    if ds.len() == 0 {
        Some(0u32)
    } else {
        match hex_value(ds.drop_last()) {
            Some(v) => if is_hex_digit(ds.last()) {
                Some(((v as int * 16) % 0x1_0000_0000 + hex_digit_val(ds.last())) as u32)
            } else {
                None
            },
            None => None,
        }
    }
}

/// The number that the decimal digits `ds` spell (most significant first), or None when a byte
/// is not a digit.
pub open spec fn dec_number(ds: Seq<u8>) -> Option<int>
    decreases ds.len(),
{
    if ds.len() == 0 {
        Some(0int)
    } else {
        match dec_number(ds.drop_last()) {
            Some(v) => if 0x30 <= ds.last() <= 0x39 {
                Some(v * 10 + (ds.last() - 0x30))
            } else {
                None
            },
            None => None,
        }
    }
}

/// The number that a numeric reference `#...` / `#x...` gives, when it is well formed:
/// hexadecimal digits read into 32 bits (higher bits fall off), decimal digits as the number
/// they spell.
pub open spec fn numeric_ref(ent: Seq<u8>) -> Option<int> {
    if ent.len() <= 1 {
        None
    } else if ent.len() > 2 && (ent[1] == 0x78 || ent[1] == 0x58) {
        match hex_value(ent.skip(2)) {
            Some(v) => Some(v as int),
            None => None,
        }
    } else {
        dec_number(ent.skip(1))
    }
}

/// The characters that a number contributes as a code point: itself when it is a non-zero
/// Unicode scalar value, nothing otherwise (in particular past U+10FFFF).
pub open spec fn code_point_chars(cp: int) -> Seq<char> {
    if 0 < cp <= 0x10FFFF && vstd::utf8::is_scalar(cp as u32) {
        seq![cp as char]
    } else {
        Seq::empty()
    }
}

/// A number as it is kept while reading a reference: itself up to U+10FFFF, one past that
/// beyond it.
pub open spec fn capped_code_point(n: int) -> int {
    if n > 0x10FFFF {
        0x110000
    } else {
        n
    }
}

/// What an entity `&ent;` (whose full text is `whole`) decodes to.
pub open spec fn entity_chars(ent: Seq<u8>, whole: Seq<u8>) -> Seq<char> {
    if ent == seq![0x61u8, 0x6D, 0x70] {
        seq!['&']
    } else if ent == seq![0x6Cu8, 0x74] {
        seq!['<']
    } else if ent == seq![0x67u8, 0x74] {
        seq!['>']
    } else if ent == seq![0x71u8, 0x75, 0x6F, 0x74] {
        seq!['"']
    } else if ent == seq![0x61u8, 0x70, 0x6F, 0x73] {
        seq!['\'']
    } else if ent.len() > 0 && ent[0] == B_HASH {
        match numeric_ref(ent) {
            Some(n) => code_point_chars(n),
            None => Seq::empty(),
        }
    } else {
        text_of(whole)
    }
}

/// The decoding of the text `b` from index `i` on: characters copied, the five named entities
/// and numeric references replaced, a '&' without a ';' within 12 bytes kept as it is.
pub open spec fn decoded_from(b: Seq<u8>, i: int) -> Seq<char>
    decreases b.len() - i,
{
    if i < 0 || i >= b.len() {
        Seq::empty()
    } else if b[i] != B_AMP {
        let end = if i + utf8_len_spec(b[i]) <= b.len() {
            i + utf8_len_spec(b[i])
        } else {
            b.len() as int
        };
        text_of(b.subrange(i, end)) + decoded_from(b, end)
    } else {
        let semi = first_semi(b, i + 1);
        proof {
            lemma_first_semi_bounds(b, i + 1);
        }
        if semi < b.len() && semi - i <= 12 {
            entity_chars(b.subrange(i + 1, semi), b.subrange(i, semi + 1)) + decoded_from(
                b,
                semi + 1,
            )
        } else {
            seq!['&'] + decoded_from(b, i + 1)
        }
    }
}

/// The decoding of the whole text.
pub open spec fn xml_decode(b: Seq<u8>) -> Seq<char> {
    decoded_from(b, 0)
}

proof fn lemma_first_semi_shift(p: Seq<u8>, r: Seq<u8>, k: int)
    requires
        0 <= k,
    ensures
        first_semi(p + r, p.len() + k) == p.len() + first_semi(r, k),
    decreases r.len() - k,
{
    if k < r.len() {
        assert((p + r)[p.len() + k] == r[k]);
        lemma_first_semi_shift(p, r, k + 1);
    }
}

/// Decoding does not look back: from an index inside `r`, `p + r` decodes as `r` does.
proof fn lemma_decoded_shift(p: Seq<u8>, r: Seq<u8>, j: int)
    requires
        0 <= j,
    ensures
        decoded_from(p + r, p.len() + j) == decoded_from(r, j),
    decreases r.len() - j,
{
    let b = p + r;
    let i = p.len() + j;
    if j < r.len() {
        assert(b[i] == r[j]);
        if r[j] != B_AMP {
            let end = if j + utf8_len_spec(r[j]) <= r.len() {
                j + utf8_len_spec(r[j])
            } else {
                r.len() as int
            };
            assert(b.subrange(i, p.len() + end) =~= r.subrange(j, end));
            lemma_decoded_shift(p, r, end);
        } else {
            lemma_first_semi_shift(p, r, j + 1);
            lemma_first_semi_bounds(r, j + 1);
            let semi = first_semi(r, j + 1);
            if semi < r.len() && semi - j <= 12 {
                assert(b.subrange(i + 1, p.len() + semi) =~= r.subrange(j + 1, semi));
                assert(b.subrange(i, p.len() + semi + 1) =~= r.subrange(j, semi + 1));
                lemma_decoded_shift(p, r, semi + 1);
            } else {
                lemma_decoded_shift(p, r, j + 1);
            }
        }
    }
}

proof fn lemma_ascii_byte(v: u32)
    by (bit_vector)
    requires
        v <= 0x7F,
    ensures
        ((v & 0x7F) as u8) as u32 == v,
{
}

/// The encoding of a character: its bytes, the first not '&' unless it is '&', and the length
/// that the first byte announces.
proof fn lemma_encode_char(c: char)
    ensures
        encode_utf8(seq![c]).len() == utf8_len_spec(encode_utf8(seq![c])[0]),
        (encode_utf8(seq![c])[0] == B_AMP) == (c == '&'),
        text_of(encode_utf8(seq![c])) == seq![c],
        (c as u32) < 0x80 ==> encode_utf8(seq![c]) == seq![c as u32 as u8],
{
    let cs = seq![c];
    let e = encode_utf8(cs);
    assert(cs.drop_first() =~= Seq::<char>::empty());
    assert(cs[0] == c);
    assert(encode_utf8(cs.drop_first()) =~= Seq::<u8>::empty());
    assert(e =~= encode_scalar(c as u32));
    vstd::utf8::encode_utf8_first_scalar(cs);
    vstd::utf8::encode_utf8_valid_utf8(cs);
    vstd::utf8::encode_utf8_decode_utf8(cs);
    vstd::utf8::char_is_scalar(c);
    if (c as u32) <= 0x7F {
        lemma_ascii_byte(c as u32);
        assert(e[0] as u32 == c as u32);
    }
}

/// Four ASCII characters (an entity's name and its ';') encode as their bytes.
proof fn lemma_encode_ascii(cs: Seq<char>)
    requires
        forall|i: int| 0 <= i < cs.len() ==> (#[trigger] cs[i] as u32) < 0x80,
    ensures
        encode_utf8(cs) == Seq::new(cs.len(), |i: int| cs[i] as u32 as u8),
    decreases cs.len(),
{
    if cs.len() > 0 {
        let c = cs[0];
        lemma_encode_char(c);
        assert(encode_scalar(c as u32) =~= encode_utf8(seq![c])) by {
            assert(seq![c].drop_first() =~= Seq::<char>::empty());
        }
        lemma_encode_ascii(cs.drop_first());
        assert(encode_utf8(cs) =~= Seq::new(cs.len(), |i: int| cs[i] as u32 as u8));
    }
}

proof fn lemma_encode_concat(a: Seq<char>, b: Seq<char>)
    ensures
        encode_utf8(a + b) == encode_utf8(a) + encode_utf8(b),
    decreases a.len(),
{
    if a.len() > 0 {
        assert((a + b).drop_first() =~= a.drop_first() + b);
        assert((a + b)[0] == a[0]);
        lemma_encode_concat(a.drop_first(), b);
    }
}

/// The escape of the character `c` for an attribute value (`attr`) or for element content.
spec fn escaped_char(c: char, attr: bool) -> Seq<char> {
    if attr {
        escape_attr_char(c)
    } else {
        escape_html_char(c)
    }
}

/// The escape of the text `s` for an attribute value (`attr`) or for element content.
spec fn escaped(s: Seq<char>, attr: bool) -> Seq<char> {
    if attr {
        escape_attr(s)
    } else {
        escape_html(s)
    }
}

/// The escape of one character decodes back to it, whatever follows.
proof fn lemma_decode_escaped_char(c: char, attr: bool, rest: Seq<u8>)
    ensures
        decoded_from(encode_utf8(escaped_char(c, attr)) + rest, 0) == seq![c] + decoded_from(rest, 0),
{
    let esc = escaped_char(c, attr);
    let e = encode_utf8(esc);
    let b = e + rest;
    if esc == seq![c] {
        lemma_encode_char(c);
        assert(c != '&');
        assert(b[0] == e[0]);
        assert(b.subrange(0, e.len() as int) =~= e);
        lemma_decoded_shift(e, rest, 0);
        assert(decoded_from(b, 0) == text_of(e) + decoded_from(b, e.len() as int));
    } else {
        lemma_encode_ascii(esc);
        let n = esc.len() as int;
        assert(e =~= Seq::new(esc.len(), |i: int| esc[i] as u32 as u8));
        assert(b[0] == B_AMP);
        assert forall|k: int| 1 <= k < n - 1 implies b[k] != B_SEMI by {
            assert(b[k] == esc[k] as u32 as u8);
        }
        assert(b[n - 1] == B_SEMI);
        assert(first_semi(b, n - 1) == n - 1);
        assert forall|k: int| 1 <= k <= n - 1 implies first_semi(b, k) == n - 1 by {
            lemma_first_semi_run(b, k, n - 1);
        }
        assert(first_semi(b, 1) == n - 1);
        let ent = b.subrange(1, n - 1);
        if c == '&' {
            assert(ent =~= seq![0x61u8, 0x6D, 0x70]);
        } else if c == '<' {
            assert(ent =~= seq![0x6Cu8, 0x74]);
        } else if c == '>' {
            assert(ent =~= seq![0x67u8, 0x74]);
        } else {
            assert(ent =~= seq![0x71u8, 0x75, 0x6F, 0x74]);
        }
        lemma_decoded_shift(e, rest, 0);
        assert(decoded_from(b, 0) == entity_chars(ent, b.subrange(0, n)) + decoded_from(b, n));
    }
}

proof fn lemma_first_semi_run(b: Seq<u8>, k: int, m: int)
    requires
        1 <= k <= m < b.len(),
        b[m] == B_SEMI,
        forall|j: int| k <= j < m ==> b[j] != B_SEMI,
    ensures
        first_semi(b, k) == m,
    decreases m - k,
{
    if k < m {
        lemma_first_semi_run(b, k + 1, m);
    }
}

proof fn lemma_escape_front(s: Seq<char>, attr: bool)
    requires
        s.len() > 0,
    ensures
        escaped(s, attr) == escaped_char(s[0], attr) + escaped(s.drop_first(), attr),
    decreases s.len(),
{
    if s.len() > 1 {
        lemma_escape_front(s.drop_last(), attr);
        assert(s.drop_last().drop_first() =~= s.drop_first().drop_last());
        assert(s.drop_last()[0] == s[0]);
        assert(s.drop_first().last() == s.last());
    } else {
        assert(s.drop_last() =~= Seq::<char>::empty());
        assert(s.drop_first() =~= Seq::<char>::empty());
    }
}

proof fn lemma_decode_escaped_prefix(s: Seq<char>, attr: bool, rest: Seq<u8>)
    ensures
        decoded_from(encode_utf8(escaped(s, attr)) + rest, 0) == s + decoded_from(rest, 0),
    decreases s.len(),
{
    if s.len() == 0 {
        assert(escaped(s, attr) =~= Seq::<char>::empty());
        assert(encode_utf8(Seq::<char>::empty()) =~= Seq::<u8>::empty());
        assert(Seq::<u8>::empty() + rest =~= rest);
        assert(s + decoded_from(rest, 0) =~= decoded_from(rest, 0));
    } else {
        let c = s[0];
        let head = escaped_char(c, attr);
        let tail = escaped(s.drop_first(), attr);
        lemma_escape_front(s, attr);
        lemma_encode_concat(head, tail);
        let r2 = encode_utf8(tail) + rest;
        assert(encode_utf8(escaped(s, attr)) + rest =~= encode_utf8(head) + r2);
        lemma_decode_escaped_char(c, attr, r2);
        lemma_decode_escaped_prefix(s.drop_first(), attr, rest);
        assert(seq![c] + (s.drop_first() + decoded_from(rest, 0)) =~= s + decoded_from(rest, 0));
    }
}

/// Decoding undoes escaping: text escaped for an attribute value or for element content, as
/// UTF-8, decodes back to the text itself.
pub proof fn lemma_decode_escaped(s: Seq<char>)
    ensures
        xml_decode(encode_utf8(escape_attr(s))) == s,
        xml_decode(encode_utf8(escape_html(s))) == s,
{
    lemma_decode_escaped_prefix(s, true, Seq::empty());
    lemma_decode_escaped_prefix(s, false, Seq::empty());
    assert(encode_utf8(escape_attr(s)) + Seq::<u8>::empty() =~= encode_utf8(escape_attr(s)));
    assert(encode_utf8(escape_html(s)) + Seq::<u8>::empty() =~= encode_utf8(escape_html(s)));
    assert(s + Seq::<char>::empty() =~= s);
}

/// The first ';' at or after `from`.
fn find_semi(b: &[u8], from: usize) -> (r: Option<usize>)
    requires
        from <= b@.len(),
    ensures
        match r {
            Some(j) => j == first_semi(b@, from as int) && j < b@.len(),
            None => first_semi(b@, from as int) == b@.len(),
        },
{
    let mut j = from;
    while j < b.len()
        invariant
            from <= j <= b@.len(),
            first_semi(b@, from as int) == first_semi(b@, j as int),
        decreases b@.len() - j,
    {
        if b[j] == B_SEMI {
            return Some(j);
        }
        j += 1;
    }
    None
}

fn utf8_len(b: u8) -> (n: usize)
    ensures
        n == utf8_len_spec(b),
{
    if b < 0x80 {
        1
    } else if b >= 0xF0 {
        4
    } else if b >= 0xE0 {
        3
    } else if b >= 0xC0 {
        2
    } else {
        1
    }
}

/// `char::from_u32`: the character with code point `cp`, exactly when `cp` is a Unicode scalar
/// value.
#[verifier::external_body]
fn char_from_u32(cp: u32) -> (r: Option<char>)
    ensures
        r is Some <==> vstd::utf8::is_scalar(cp),
        r matches Some(c) ==> c == cp as char,
{
    char::from_u32(cp)
}

fn append_utf8(cp: u32, out: &mut String)
    ensures
        final(out)@ == old(out)@ + (if vstd::utf8::is_scalar(cp) {
            seq![cp as char]
        } else {
            Seq::empty()
        }),
{
    if let Some(ch) = char_from_u32(cp) {
        push_char(out, ch);
    } else {
        assert(old(out)@ + Seq::<char>::empty() =~= old(out)@);
    }
}

pub proof fn lemma_hex_none_extends(ds: Seq<u8>, k: int)
    requires
        0 <= k <= ds.len(),
        hex_value(ds.take(k)) is None,
    ensures
        hex_value(ds) is None,
    decreases ds.len() - k,
{
    if k < ds.len() {
        assert(ds.take(k + 1).drop_last() =~= ds.take(k));
        lemma_hex_none_extends(ds, k + 1);
    } else {
        assert(ds.take(k) =~= ds);
    }
}

proof fn lemma_dec_none_extends(ds: Seq<u8>, k: int)
    requires
        0 <= k <= ds.len(),
        dec_number(ds.take(k)) is None,
    ensures
        dec_number(ds) is None,
    decreases ds.len() - k,
{
    if k < ds.len() {
        assert(ds.take(k + 1).drop_last() =~= ds.take(k));
        lemma_dec_none_extends(ds, k + 1);
    } else {
        assert(ds.take(k) =~= ds);
    }
}

/// The number that a numeric reference (`ent` starts with '#') spells, kept at one past
/// U+10FFFF once it goes beyond, or None when the reference is malformed.
fn parse_numeric_ref(ent: &[u8]) -> (r: Option<u32>)
    requires
        ent@.len() > 0,
        ent@[0] == B_HASH,
    ensures
        r is Some <==> numeric_ref(ent@) is Some,
        r matches Some(v) ==> v as int == capped_code_point(numeric_ref(ent@)->0),
{
    let mut cp: u32 = 0;
    let mut ok = ent.len() > 1;
    if ent.len() > 2 && (ent[1] == 0x78 || ent[1] == 0x58) {
        let ghost ds = ent@.skip(2);
        let mut k: usize = 2;
        assert(ds.take(0) =~= Seq::<u8>::empty());
        while k < ent.len()
            invariant
                2 <= k <= ent@.len(),
                ent@.len() > 2 && (ent@[1] == 0x78 || ent@[1] == 0x58),
                ds == ent@.skip(2),
                ok,
                hex_value(ds.take(k - 2)) == Some(cp),
            decreases ent@.len() - k,
        {
            let h = ent[k];
            proof {
                assert(ds.take(k - 1).drop_last() =~= ds.take(k - 2));
                assert(ds.take(k - 1).last() == h);
            }
            let sh: u32 = cp << 4u32;
            assert(sh == (cp as int * 16) % 0x1_0000_0000) by (bit_vector)
                requires sh == cp << 4u32;
            assert(sh % 16 == 0) by (bit_vector)
                requires sh == cp << 4u32;
            let dv: u32;
            if 0x30 <= h && h <= 0x39 {
                dv = (h - 0x30) as u32;
            } else if 0x61 <= h && h <= 0x66 {
                dv = (h - 0x61 + 10) as u32;
            } else if 0x41 <= h && h <= 0x46 {
                dv = (h - 0x41 + 10) as u32;
            } else {
                proof {
                    assert(!is_hex_digit(h));
                    assert(hex_value(ds.take(k - 1)) is None);
                    lemma_hex_none_extends(ds, k - 1);
                    assert(hex_value(ent@.skip(2)) is None);
                }
                return None;
            }
            assert(dv as int == hex_digit_val(h));
            assert(sh | dv == sh + dv) by (bit_vector)
                requires sh % 16 == 0, dv < 16;
            cp = sh | dv;
            k += 1;
        }
        assert(ds.take(k - 2) =~= ds);
        if cp > 0x10FFFF {
            cp = 0x110000;
        }
    } else {
        let ghost ds = ent@.skip(1);
        let mut k: usize = 1;
        assert(ds.take(0) =~= Seq::<u8>::empty());
        while k < ent.len()
            invariant
                1 <= k <= ent@.len(),
                !(ent@.len() > 2 && (ent@[1] == 0x78 || ent@[1] == 0x58)),
                ok == (ent@.len() > 1),
                ds == ent@.skip(1),
                dec_number(ds.take(k - 1)) is Some,
                cp as int == capped_code_point(dec_number(ds.take(k - 1))->0),
                dec_number(ds.take(k - 1))->0 >= 0,
            decreases ent@.len() - k,
        {
            let d = ent[k];
            proof {
                assert(ds.take(k as int).drop_last() =~= ds.take(k - 1));
                assert(ds.take(k as int).last() == d);
            }
            if !(0x30 <= d && d <= 0x39) {
                proof {
                    assert(dec_number(ds.take(k as int)) is None);
                    lemma_dec_none_extends(ds, k as int);
                }
                return None;
            }
            cp = cp * 10 + (d - 0x30) as u32;
            if cp > 0x10FFFF {
                cp = 0x110000;
            }
            k += 1;
        }
        assert(ds.take(k - 1) =~= ds);
    }
    if ok {
        Some(cp)
    } else {
        None
    }
}

/// What one call of `next` promises, `a` before it, `ev` its event and `b` after it: the input
/// kept, a smaller rank unless `ev` is Eof, a Start at least two bytes on, an End of a
/// self-closing tag owed only after its Start and given next without moving.
pub open spec fn next_call(a: XmlParser, ev: Event, b: XmlParser) -> bool {
    &&& a.wf()
    &&& b.wf()
    &&& b.input() == a.input()
    &&& (ev == Event::Eof || b.rank() < a.rank())
    &&& (ev == Event::Start ==> b.position() >= a.position() + 2)
    &&& (b.pending() ==> ev == Event::Start)
    &&& (a.pending() ==> ev == Event::End && b.position() == a.position())
}

/// Twice the bytes left, and two more while the End of a self-closing tag is owed.
spec fn parse_potential(p: XmlParser) -> int {
    2 * (p.input().len() - p.position()) + if p.pending() {
        2int
    } else {
        0int
    }
}

proof fn lemma_potential_falls(ps: Seq<XmlParser>, evs: Seq<Event>, k: int)
    requires
        ps.len() == evs.len() + 1,
        0 <= k <= evs.len(),
        forall|i: int| 0 <= i < evs.len() ==> next_call(ps[i], #[trigger] evs[i], ps[i + 1]),
        forall|i: int| 0 <= i < evs.len() ==> evs[i] != Event::Eof,
    ensures
        parse_potential(ps[k]) + 2 * k <= parse_potential(ps[0]),
        ps[k].input() == ps[0].input(),
    decreases k,
{
    if k > 0 {
        lemma_potential_falls(ps, evs, k - 1);
        assert(next_call(ps[k - 1], evs[k - 1], ps[k]));
        assert(evs[k - 1] != Event::Eof);
    }
}

/// A parser started on `n` bytes reports Eof within its first n + 1 calls: a run of calls of
/// `next` from a fresh parser (position 0, no End owed) in which none gives Eof has at most n
/// calls.
pub proof fn lemma_eof_within_len(ps: Seq<XmlParser>, evs: Seq<Event>)
    requires
        ps.len() == evs.len() + 1,
        ps[0].position() == 0,
        !ps[0].pending(),
        forall|i: int| 0 <= i < evs.len() ==> next_call(ps[i], #[trigger] evs[i], ps[i + 1]),
        forall|i: int| 0 <= i < evs.len() ==> evs[i] != Event::Eof,
    ensures
        evs.len() <= ps[0].input().len(),
{
    lemma_potential_falls(ps, evs, evs.len() as int);
    if evs.len() > 0 {
        assert(next_call(ps[evs.len() - 1], evs[evs.len() - 1], ps[evs.len() as int]));
    }
}

impl<'a> XmlParser<'a> {
    /// The bytes being parsed.
    pub closed spec fn input(&self) -> Seq<u8> {
        self.xml@
    }

    /// The index of the next byte to read.
    pub closed spec fn position(&self) -> int {
        self.pos as int
    }

    /// A self-closing tag was reported as Start and its End is still owed.
    pub closed spec fn pending(&self) -> bool {
        self.pending_end
    }

    pub closed spec fn cur_name(&self) -> Seq<char> {
        self.m_name@
    }

    pub closed spec fn cur_text(&self) -> Seq<char> {
        self.m_text@
    }

    pub closed spec fn cur_attrs(&self) -> Seq<(Seq<char>, Seq<char>)> {
        self.m_attrs@.map_values(|a: XmlAttr| attr_view(a))
    }

    pub open spec fn wf(&self) -> bool {
        &&& 0 <= self.position() <= self.input().len()
        &&& self.input().len() <= usize::MAX
    }

    /// A measure that every event but Eof makes smaller.
    pub open spec fn rank(&self) -> int {
        2 * (self.input().len() - self.position()) + if self.pending() {
            1int
        } else {
            0int
        }
    }

    pub fn new(xml: &'a str) -> (p: Self)
        ensures
            p.wf(),
            p.input() == xml.spec_bytes(),
            p.position() == 0,
            !p.pending(),
            p.cur_name().len() == 0,
            p.cur_text().len() == 0,
            p.cur_attrs().len() == 0,
    {
        proof {
            reveal_strlit("");
        }
        let p = XmlParser {
            xml: xml.as_bytes(),
            pos: 0,
            m_name: "",
            m_text: "",
            m_attrs: Vec::new(),
            pending_end: false,
        };
        assert(p.cur_attrs() =~= Seq::empty());
        assert(p.xml@.len() == p.xml.len());
        p
    }

    fn slice(&self, a: usize, b: usize) -> (s: &'a str)
        requires
            a <= b <= self.xml@.len(),
        ensures
            s@ == text_of(self.xml@.subrange(a as int, b as int)),
    {
        str_or_empty(&self.xml[a..b])
    }

    fn find_from(&self, from: usize, byte: u8) -> (r: Option<usize>)
        requires
            from <= self.xml@.len(),
        ensures
            match r {
                Some(i) => from <= i < self.xml@.len() && self.xml@[i as int] == byte && none_of(
                    self.xml@,
                    from as int,
                    i as int,
                    byte,
                ),
                None => none_of(self.xml@, from as int, self.xml@.len() as int, byte),
            },
    {
        let mut i = from;
        while i < self.xml.len()
            invariant
                from <= i <= self.xml@.len(),
                none_of(self.xml@, from as int, i as int, byte),
            decreases self.xml@.len() - i,
        {
            if self.xml[i] == byte {
                return Some(i);
            }
            i += 1;
        }
        None
    }

    fn starts_with(&self, at: usize, pat: &[u8]) -> (r: bool)
        requires
            at <= self.xml@.len(),
        ensures
            r == occurs_at(self.xml@, at as int, pat@),
    {
        if self.xml.len() - at < pat.len() {
            return false;
        }
        let mut k: usize = 0;
        while k < pat.len()
            invariant
                at <= self.xml@.len(),
                at + pat@.len() <= self.xml@.len(),
                self.xml@.len() == self.xml.len(),
                pat@.len() == pat.len(),
                k <= pat@.len(),
                forall|j: int| 0 <= j < k ==> self.xml@[at + j] == pat@[j],
            decreases pat@.len() - k,
        {
            if self.xml[at + k] != pat[k] {
                assert(self.xml@.subrange(at as int, at + pat@.len())[k as int] != pat@[k as int]);
                return false;
            }
            k += 1;
        }
        assert(self.xml@.subrange(at as int, at + pat@.len()) =~= pat@);
        true
    }

    /// The first index at or after `from` where `pat` occurs.
    fn find_seq(&self, from: usize, pat: &[u8]) -> (r: Option<usize>)
        requires
            from <= self.xml@.len(),
            pat@.len() > 0,
        ensures
            match r {
                Some(i) => from <= i && occurs_at(self.xml@, i as int, pat@) && forall|j: int|
                    from <= j < i ==> !occurs_at(self.xml@, j, pat@),
                None => forall|j: int| from <= j ==> !occurs_at(self.xml@, j, pat@),
            },
    {
        let mut i = from;
        while i < self.xml.len()
            invariant
                from <= i <= self.xml@.len(),
                forall|j: int| from <= j < i ==> !occurs_at(self.xml@, j, pat@),
            decreases self.xml@.len() - i,
        {
            if self.starts_with(i, pat) {
                return Some(i);
            }
            i += 1;
        }
        None
    }

    /// The parser's state as plain values.
    pub open spec fn state(&self) -> XmlState {
        XmlState {
            pos: self.position(),
            pending: self.pending(),
            name: self.cur_name(),
            text: self.cur_text(),
            attrs: self.cur_attrs(),
        }
    }

    /// Reads the next event.
    #[verifier::rlimit(80)]
    #[verifier::spinoff_prover]
    pub fn next(&mut self) -> (ev: Event)
        requires
            old(self).wf(),
        ensures
            final(self).wf(),
            final(self).input() == old(self).input(),
            (ev, final(self).state()) == xml_step(old(self).input(), old(self).state()),
            ev == Event::Eof || final(self).rank() < old(self).rank(),
            ev == Event::Start ==> final(self).position() >= old(self).position() + 2,
            final(self).position() >= old(self).position(),
            final(self).pending() ==> ev == Event::Start,
            old(self).pending() ==> ev == Event::End && final(self).position() == old(self).position()
                && final(self).cur_name() == old(self).cur_name(),
            !old(self).pending() && old(self).position() >= old(self).input().len() ==> ev
                == Event::Eof,
            next_call(*old(self), ev, *final(self)),
    {
        if self.pending_end {
            self.pending_end = false;
            return Event::End;
        }
        let size = self.xml.len();
        let ghost b = self.xml@;
        let ghost p0 = self.pos as int;
        let ghost s0 = self.state();
        loop
            invariant
                self.wf(),
                self.xml@ == b,
                b == old(self).input(),
                size == b.len(),
                p0 == old(self).position(),
                s0 == old(self).state(),
                !old(self).pending(),
                !self.pending_end,
                self.pos >= p0,
                self.pos == p0 || skipped_markup(b, p0),
                self.m_name == old(self).m_name,
                self.m_text == old(self).m_text,
                self.m_attrs == old(self).m_attrs,
                scan(b, self.pos as int, s0) == scan(b, p0, s0),
            decreases size - self.pos,
        {
            let ghost p = self.pos as int;
            if self.pos >= size {
                return Event::Eof;
            }
            if self.xml[self.pos] != B_LT {
                let start = self.pos;
                let lt = match self.find_from(self.pos, B_LT) {
                    Some(x) => x,
                    None => size,
                };
                proof {
                    lemma_first_where_at(b, p, lt as int, lt_test());
                }
                self.pos = lt;
                self.m_text = self.slice(start, lt);
                return Event::Text;
            }
            let ghost tag_at = self.pos as int;
            self.pos += 1;
            if self.pos >= size {
                return Event::Eof;
            }
            let c = self.xml[self.pos];
            if c == B_SLASH {
                self.pos += 1;
                let start = self.pos;
                let gt = match self.find_from(self.pos, B_GT) {
                    Some(x) => x,
                    None => {
                        proof {
                            lemma_first_where_at(b, p + 2, size as int, gt_test());
                        }
                        return Event::Eof;
                    },
                };
                proof {
                    lemma_first_where_at(b, p + 2, gt as int, gt_test());
                }
                let mut end = start;
                while end < gt && !is_ws(self.xml[end])
                    invariant
                        start <= end <= gt < size == self.xml@.len(),
                        forall|j: int| start <= j < end ==> !is_ws_byte(self.xml@[j]),
                    decreases gt - end,
                {
                    end += 1;
                }
                proof {
                    lemma_first_where(b, p + 2, ws_test());
                    if end < gt {
                        lemma_first_where_at(b, p + 2, end as int, ws_test());
                    } else {
                        let w = first_where(b, p + 2, ws_test());
                        if w < gt {
                            assert(is_ws_byte(b[w]));
                            assert(!is_ws_byte(b[w]));
                        }
                    }
                }
                self.m_name = self.slice(start, end);
                self.pos = gt + 1;
                return Event::End;
            }
            if c == B_QMARK {
                let qm: &[u8] = &[B_QMARK, B_GT];
                let found = self.find_seq(self.pos, qm);
                proof {
                    assert(qm@ == seq![B_QMARK, B_GT]);
                    lemma_find_pat(b, p + 1, qm@, match found {
                        Some(x) => Some(x as int),
                        None => None,
                    });
                }
                self.pos = match found {
                    Some(x) => x + 2,
                    None => size,
                };
                continue;
            }
            if c == B_BANG {
                let dash: &[u8] = &[B_BANG, 0x2Du8, 0x2D];
                assert(dash@ == seq![B_BANG, 0x2Du8, 0x2Du8]);
                if self.starts_with(self.pos, dash) {
                    proof {
                        if occurs_at(b, tag_at + 1, cdata_open()) {
                            assert(b.subrange(tag_at + 1, tag_at + 4)[1] == dash@[1]);
                            assert(b.subrange(tag_at + 1, tag_at + 9)[1] == cdata_open()[1]);
                        }
                    }
                    let close_c: &[u8] = &[0x2Du8, 0x2D, B_GT];
                    let found = self.find_seq(self.pos + 3, close_c);
                    proof {
                        assert(close_c@ == seq![0x2Du8, 0x2Du8, B_GT]);
                        lemma_find_pat(b, p + 4, close_c@, match found {
                            Some(x) => Some(x as int),
                            None => None,
                        });
                    }
                    self.pos = match found {
                        Some(x) => x + 3,
                        None => size,
                    };
                    continue;
                }
                let cd: &[u8] = &[B_BANG, 0x5Bu8, 0x43, 0x44, 0x41, 0x54, 0x41, 0x5B];
                assert(cd@ == cdata_open());
                if self.starts_with(self.pos, cd) {
                    let start = self.pos + 8;
                    let close: &[u8] = &[0x5Du8, 0x5D, B_GT];
                    assert(close@ == cdata_close());
                    let found = self.find_seq(start, close);
                    proof {
                        lemma_find_pat(b, p + 9, close@, match found {
                            Some(x) => Some(x as int),
                            None => None,
                        });
                    }
                    match found {
                        Some(e) => {
                            self.m_text = self.slice(start, e);
                            self.pos = e + 3;
                        },
                        None => {
                            self.m_text = self.slice(start, size);
                            self.pos = size;
                        },
                    }
                    return Event::Text;
                }
                let found = self.find_from(self.pos, B_GT);
                proof {
                    match found {
                        Some(e) => lemma_first_where_at(b, p + 1, e as int, gt_test()),
                        None => lemma_first_where_at(b, p + 1, size as int, gt_test()),
                    }
                }
                self.pos = match found {
                    Some(e) => e + 1,
                    None => size,
                };
                continue;
            }
            // start tag
            let start = self.pos;
            let mut q = self.pos;
            while q < size && !is_name_end(self.xml[q])
                invariant
                    start <= q <= size == self.xml@.len(),
                    forall|j: int| start <= j < q ==> !is_name_end_byte(self.xml@[j]),
                decreases size - q,
            {
                q += 1;
            }
            proof {
                lemma_first_where_at(b, p + 1, q as int, name_end_test());
            }
            self.pos = q;
            self.m_name = self.slice(start, self.pos);
            self.m_attrs.clear();
            assert(self.cur_attrs() =~= Seq::<(Seq<char>, Seq<char>)>::empty());
            loop
                invariant
                    self.wf(),
                    self.xml@ == b,
                    size == b.len(),
                    b == old(self).input(),
                    p0 == old(self).position(),
                    s0 == old(self).state(),
                    !old(self).pending(),
                    !self.pending_end,
                    p0 <= tag_at,
                    tag_at == p0 || skipped_markup(b, p0),
                    tag_at + 1 <= self.pos,
                    tag_at + 1 < size,
                    b[tag_at] == B_LT,
                    b[tag_at + 1] != B_SLASH && b[tag_at + 1] != B_QMARK && b[tag_at + 1] != B_BANG,
                    self.m_text == old(self).m_text,
                    attr_loop(b, self.pos as int, XmlState { pos: p0, ..self.state() }) == scan(b, p0, s0),
                decreases size - self.pos,
            {
                let ghost qa = self.pos as int;
                let ghost sa = XmlState { pos: p0, ..self.state() };
                let mut q = self.pos;
                while q < size && is_ws(self.xml[q])
                    invariant
                        self.pos <= q <= size == self.xml@.len(),
                        forall|j: int| self.pos <= j < q ==> is_ws_byte(self.xml@[j]),
                    decreases size - q,
                {
                    q += 1;
                }
                proof {
                    lemma_first_where_at(b, qa, q as int, non_ws_test());
                }
                self.pos = q;
                if self.pos >= size {
                    return Event::Eof;
                }
                let d = self.xml[self.pos];
                if d == B_GT {
                    self.pos += 1;
                    return Event::Start;
                }
                if d == B_SLASH {
                    self.pos += 1;
                    if self.pos < size && self.xml[self.pos] == B_GT {
                        self.pos += 1;
                    }
                    self.pending_end = true;
                    return Event::Start;
                }
                let before = self.pos;
                // attribute
                let as_ = self.pos;
                let mut q = self.pos;
                while q < size && !is_name_end(self.xml[q])
                    invariant
                        as_ <= q <= size == self.xml@.len(),
                        as_ < size,
                        d == self.xml@[as_ as int],
                        q == as_ ==> !is_name_end_byte(d) || (q < size && is_name_end_byte(self.xml@[q as int])),
                        forall|j: int| as_ <= j < q ==> !is_name_end_byte(self.xml@[j]),
                    decreases size - q,
                {
                    q += 1;
                }
                proof {
                    lemma_first_where_at(b, as_ as int, q as int, name_end_test());
                }
                assert(q == as_ ==> is_name_end_byte(d));
                let ghost q1 = q;
                let an = self.slice(as_, q);
                while q < size && is_ws(self.xml[q])
                    invariant
                        q1 <= q <= size == self.xml@.len(),
                        as_ <= q1,
                        as_ < size,
                        d == self.xml@[as_ as int],
                        forall|j: int| q1 <= j < q ==> is_ws_byte(self.xml@[j]),
                    decreases size - q,
                {
                    q += 1;
                }
                proof {
                    lemma_first_where_at(b, q1 as int, q as int, non_ws_test());
                }
                if q < size && self.xml[q] == B_EQ {
                    q += 1;
                    let ghost q2 = q;
                    while q < size && is_ws(self.xml[q])
                        invariant
                            as_ < q2 <= q <= size == self.xml@.len(),
                            forall|j: int| q2 <= j < q ==> is_ws_byte(self.xml@[j]),
                        decreases size - q,
                    {
                        q += 1;
                    }
                    proof {
                        lemma_first_where_at(b, q2 as int, q as int, non_ws_test());
                    }
                    if q < size && (self.xml[q] == B_DQUOTE || self.xml[q] == B_SQUOTE) {
                        let qc = self.xml[q];
                        q += 1;
                        let vs = q;
                        let ve = match self.find_from(q, qc) {
                            Some(x) => x,
                            None => {
                                proof {
                                    lemma_first_where_at(b, vs as int, size as int, byte_test(qc));
                                }
                                self.pos = q;
                                return Event::Eof;
                            },
                        };
                        proof {
                            lemma_first_where_at(b, vs as int, ve as int, byte_test(qc));
                        }
                        let value = self.slice(vs, ve);
                        let ghost av = self.cur_attrs();
                        self.m_attrs.push(XmlAttr { name: an, value });
                        assert(self.cur_attrs() =~= av.push((an@, value@)));
                        self.pos = ve + 1;
                        continue;
                    }
                }
                assert(q > before) by {
                    if q == before {
                        assert(is_name_end_byte(d));
                    }
                }
                self.pos = q;
                let empty: &str = "";
                proof {
                    reveal_strlit("");
                    assert(empty@ =~= Seq::<char>::empty());
                }
                let ghost av = self.cur_attrs();
                self.m_attrs.push(XmlAttr { name: an, value: empty });
                assert(self.cur_attrs() =~= av.push((an@, Seq::<char>::empty())));
            }
        }
    }

    /// Call immediately after a Start event: consumes through the matching End.
    pub fn skip_element(&mut self)
        requires
            old(self).wf(),
        ensures
            final(self).wf(),
            final(self).input() == old(self).input(),
            final(self).state() == skip_from(old(self).input(), old(self).state(), 1),
            final(self).rank() <= old(self).rank(),
            final(self).position() >= old(self).position(),
            !final(self).pending(),
    {
        let mut depth: usize = 1;
        let ghost p0 = self.pos as int;
        while depth > 0
            invariant
                self.wf(),
                self.input() == old(self).input(),
                self.rank() <= old(self).rank(),
                self.position() >= p0 == old(self).position(),
                2 * (depth - 1) <= self.position() - p0,
                depth == 0 ==> !self.pending(),
                skip_from(self.input(), self.state(), depth as int) == skip_from(
                    old(self).input(),
                    old(self).state(),
                    1,
                ),
            decreases self.rank(),
        {
            match self.next() {
                Event::Eof => return,
                Event::Start => depth += 1,
                Event::End => depth -= 1,
                _ => {},
            }
        }
    }

    /// Appends `raw` to `out`, decoding the five XML entities and numeric references.
    pub fn append_decoded(raw: &str, out: &mut String)
        ensures
            final(out)@ == old(out)@ + xml_decode(raw.spec_bytes()),
    {
        let b = raw.as_bytes();
        let ghost bs = b@;
        let ghost start = out@;
        let mut i: usize = 0;
        while i < b.len()
            invariant
                bs == b@,
                i <= bs.len(),
                out@ + decoded_from(bs, i as int) == start + decoded_from(bs, 0),
            decreases bs.len() - i,
        {
            if b[i] != B_AMP {
                let ch_len = utf8_len(b[i]);
                let end = if ch_len <= b.len() - i {
                    i + ch_len
                } else {
                    b.len()
                };
                out.append(str_or_empty(&b[i..end]));
                i = end;
                continue;
            }
            let semi = find_semi(b, i + 1);
            proof {
                lemma_first_semi_bounds(bs, i + 1);
            }
            match semi {
                Some(semi) if semi - i <= 12 => {
                    let ent = &b[i + 1..semi];
                    if bytes_eq(ent, &[0x61u8, 0x6D, 0x70]) {
                        push_char(out, '&');
                    } else if bytes_eq(ent, &[0x6Cu8, 0x74]) {
                        push_char(out, '<');
                    } else if bytes_eq(ent, &[0x67u8, 0x74]) {
                        push_char(out, '>');
                    } else if bytes_eq(ent, &[0x71u8, 0x75, 0x6F, 0x74]) {
                        push_char(out, '"');
                    } else if bytes_eq(ent, &[0x61u8, 0x70, 0x6F, 0x73]) {
                        push_char(out, '\'');
                    } else if ent.len() > 0 && ent[0] == B_HASH {
                        let ghost before = out@;
                        match parse_numeric_ref(ent) {
                            Some(cp) => {
                                if cp != 0 && cp <= 0x10FFFF {
                                    append_utf8(cp, out);
                                } else {
                                    assert(out@ =~= before + code_point_chars(cp as int));
                                }
                                assert(code_point_chars(cp as int) == code_point_chars(
                                    numeric_ref(ent@)->0,
                                ));
                            },
                            None => {
                                assert(out@ =~= before + Seq::<char>::empty());
                            },
                        }
                    } else {
                        out.append(str_or_empty(&b[i..semi + 1]));
                    }
                    i = semi + 1;
                },
                _ => {
                    push_char(out, '&');
                    i += 1;
                },
            }
        }
        proof {
            assert(decoded_from(bs, i as int) =~= Seq::<char>::empty());
        }
    }

    pub fn name(&self) -> (r: &'a str)
        ensures
            r@ == self.cur_name(),
    {
        self.m_name
    }

    pub fn text(&self) -> (r: &'a str)
        ensures
            r@ == self.cur_text(),
    {
        self.m_text
    }

    pub fn attr(&self, name: &str) -> (r: &'a str)
        ensures
            r@ == attr_lookup(self.cur_attrs(), name@),
    {
        let mut i: usize = 0;
        let ghost all = self.cur_attrs();
        assert(all.skip(0) =~= all);
        while i < self.m_attrs.len()
            invariant
                i <= self.m_attrs@.len(),
                all == self.cur_attrs(),
                all.len() == self.m_attrs@.len(),
                attr_lookup(all, name@) == attr_lookup(all.skip(i as int), name@),
            decreases self.m_attrs@.len() - i,
        {
            assert(all.skip(i as int)[0] == attr_view(self.m_attrs@[i as int]));
            if str_eq(self.m_attrs[i].name, name) {
                return self.m_attrs[i].value;
            }
            assert(all.skip(i as int).drop_first() =~= all.skip(i + 1));
            i += 1;
        }
        proof {
            reveal_strlit("");
            assert(all.skip(i as int).len() == 0);
        }
        ""
    }

    pub fn attrs(&self) -> (r: &[XmlAttr<'a>])
        ensures
            r@.map_values(|a: XmlAttr| attr_view(a)) == self.cur_attrs(),
    {
        self.m_attrs.as_slice()
    }
}

} // verus!
