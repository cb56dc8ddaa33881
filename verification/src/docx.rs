//! WordprocessingML -> HTML conversion: lookup tables from styles.xml, numbering.xml and the
//! relationship parts, then a single streaming pass over the main document part.
use vstd::prelude::*;
use crate::htmlutil::{push_char, escape_attr, escape_html};
use crate::text::{
    str_eq, to_lower, lower_text, decimal, append_decimal, text_of, owned,
};
use crate::xml::{XmlParser, hex_value, xml_decode};
use crate::zip::ZipArchive;
use crate::table::{StrMap, IntMap};
use vstd::string::{StringSliceAdditionalSpecFns, StrSliceExecFns};
pub use crate::docx_run::convert_docx_to_html;

verus! {

broadcast use vstd::string::group_string_axioms;

pub struct ConvertOptions {
    pub fragment: bool,
    pub embed_images: bool,
    pub title: String,
}

impl Default for ConvertOptions {
    fn default() -> (o: Self)
        ensures
            !o.fragment,
            o.embed_images,
            o.title@.len() == 0,
    {
        ConvertOptions { fragment: false, embed_images: true, title: String::new() }
    }
}

pub const MAX_DEPTH: i32 = 128;

// ---- helpers ----

pub open spec fn is_digit_byte(c: u8) -> bool {
    0x30 <= c <= 0x39
}

/// Decimal digits from index `i` on, folded into `v` with 32-bit wraparound, up to the first non-digit.
pub open spec fn digits_fold(b: Seq<u8>, i: int, v: i32) -> i32
    decreases b.len() - i,
{
    if 0 <= i < b.len() && is_digit_byte(b[i]) {
        digits_fold(b, i + 1, v.wrapping_mul(10).wrapping_add((b[i] - 0x30) as i32))
    } else {
        v
    }
}

/// `atoi` with an optional sign and 32-bit wraparound: the leading digits of `b`, 0 when there are none.
pub open spec fn int_value(b: Seq<u8>) -> i32 {
    if b.len() > 0 && (b[0] == 0x2D || b[0] == 0x2B) {
        let v = digits_fold(b, 1, 0);
        if b[0] == 0x2D {
            0i32.wrapping_sub(v)
        } else {
            v
        }
    } else {
        digits_fold(b, 0, 0)
    }
}

pub fn sv_to_int(s: &str) -> (r: i32)
    ensures
        r == int_value(s.spec_bytes()),
{
    let b = s.as_bytes();
    let mut v: i32 = 0;
    let mut neg = false;
    let mut i: usize = 0;
    if b.len() > 0 && (b[0] == 0x2D || b[0] == 0x2B) {
        neg = b[0] == 0x2D;
        i = 1;
    }
    let ghost start = i as int;
    while i < b.len() && 0x30 <= b[i] && b[i] <= 0x39
        invariant
            i <= b@.len(),
            b@ == s.spec_bytes(),
            digits_fold(b@, start, 0) == digits_fold(b@, i as int, v),
            start == if b@.len() > 0 && (b@[0] == 0x2D || b@[0] == 0x2B) { 1int } else { 0int },
            neg == (b@.len() > 0 && b@[0] == 0x2D),
        decreases b@.len() - i,
    {
        v = v.wrapping_mul(10).wrapping_add((b[i] - 0x30) as i32);
        i += 1;
    }
    if neg {
        0i32.wrapping_sub(v)
    } else {
        v
    }
}

/// Hexadecimal digits as a number (higher bits fall off), 0 when a byte is not a hex digit.
pub open spec fn hex_or_zero(b: Seq<u8>) -> u32 {
    match hex_value(b) {
        Some(v) => v,
        None => 0,
    }
}

pub fn sv_to_hex(s: &str) -> (r: u32)
    ensures
        r == hex_or_zero(s.spec_bytes()),
{
    let b = s.as_bytes();
    let mut v: u32 = 0;
    let mut k: usize = 0;
    assert(b@.take(0) =~= Seq::<u8>::empty());
    while k < b.len()
        invariant
            k <= b@.len(),
            b@ == s.spec_bytes(),
            hex_value(b@.take(k as int)) == Some(v),
        decreases b@.len() - k,
    {
        let c = b[k];
        proof {
            assert(b@.take(k + 1).drop_last() =~= b@.take(k as int));
            assert(b@.take(k + 1).last() == c);
        }
        let sh: u32 = v << 4u32;
        assert(sh == (v as int * 16) % 0x1_0000_0000) by (bit_vector)
            requires sh == v << 4u32;
        assert(sh % 16 == 0) by (bit_vector)
            requires sh == v << 4u32;
        let dv: u32 = if 0x30 <= c && c <= 0x39 {
            (c - 0x30) as u32
        } else if 0x61 <= c && c <= 0x66 {
            (c - 0x61 + 10) as u32
        } else if 0x41 <= c && c <= 0x46 {
            (c - 0x41 + 10) as u32
        } else {
            proof {
                crate::xml::lemma_hex_none_extends(b@, k + 1);
            }
            return 0;
        };
        assert(sh | dv == sh + dv) by (bit_vector)
            requires sh % 16 == 0, dv < 16;
        v = sh | dv;
        k += 1;
    }
    assert(b@.take(k as int) =~= b@);
    v
}

pub fn decode_attr(raw: &str) -> (r: String)
    ensures
        r@ == xml_decode(raw.spec_bytes()),
{
    let mut s = String::new();
    XmlParser::append_decoded(raw, &mut s);
    s
}

/// Whether a WordprocessingML on/off value switches the property on.
pub open spec fn is_on(val: Seq<char>) -> bool {
    !(val == "0"@ || val == "false"@ || val == "none"@ || val == "off"@)
}

pub fn toggle_on(val: &str) -> (r: bool)
    ensures
        r == is_on(val@),
{
    !(str_eq(val, "0") || str_eq(val, "false") || str_eq(val, "none") || str_eq(val, "off"))
}

/// The CSS `text-align` value for a `w:jc` value, or the empty text.
pub open spec fn align_of(jc: Seq<char>) -> Seq<char> {
    if jc == "center"@ {
        "center"@
    } else if jc == "right"@ || jc == "end"@ {
        "right"@
    } else if jc == "both"@ || jc == "distribute"@ {
        "justify"@
    } else if jc == "left"@ || jc == "start"@ {
        "left"@
    } else {
        ""@
    }
}

pub fn map_align(jc: &str) -> (r: &'static str)
    ensures
        r@ == align_of(jc@),
{
    if str_eq(jc, "center") {
        "center"
    } else if str_eq(jc, "right") || str_eq(jc, "end") {
        "right"
    } else if str_eq(jc, "both") || str_eq(jc, "distribute") {
        "justify"
    } else if str_eq(jc, "left") || str_eq(jc, "start") {
        "left"
    } else {
        ""
    }
}

/// The CSS colour for a `w:highlight` value.
pub open spec fn highlight_of(v: Seq<char>) -> Seq<char> {
    if v == "darkYellow"@ {
        "#808000"@
    } else {
        lower_text(v)
    }
}

pub fn highlight_css(v: &str) -> (r: String)
    ensures
        r@ == highlight_of(v@),
{
    if str_eq(v, "darkYellow") {
        owned("#808000")
    } else {
        to_lower(v)
    }
}

/// A length in twips (twentieths of a point) written in points, as the shortest decimal:
/// at most two decimals, no trailing zero, a '-' when negative.
pub open spec fn points_text(twips: int) -> Seq<char> {
    let a = if twips < 0 {
        -twips
    } else {
        twips
    };
    let whole = decimal((a / 20) as nat);
    let hundredths = (a % 20) * 5;
    let frac = if hundredths == 0 {
        Seq::<char>::empty()
    } else if hundredths % 10 == 0 {
        seq!['.', crate::text::digit_char(hundredths / 10)]
    } else {
        seq!['.', crate::text::digit_char(hundredths / 10), crate::text::digit_char(hundredths % 10)]
    };
    (if twips < 0 {
        seq!['-']
    } else {
        Seq::empty()
    }) + whole + frac
}

/// `prop:<points>pt;`, or nothing for a zero length.
pub open spec fn pt_decl(prop: Seq<char>, twips: int) -> Seq<char> {
    if twips == 0 {
        Seq::empty()
    } else {
        prop + seq![':'] + points_text(twips) + "pt;"@
    }
}

pub fn append_pt(css: &mut String, prop: &str, twips: i32)
    ensures
        final(css)@ == old(css)@ + pt_decl(prop@, twips as int),
{
    if twips == 0 {
        assert(old(css)@ + Seq::<char>::empty() =~= old(css)@);
        return;
    }
    let ghost c0 = css@;
    css.append(prop);
    push_char(css, ':');
    if twips < 0 {
        push_char(css, '-');
    }
    let a: u64 = if twips < 0 {
        (-(twips as i64)) as u64
    } else {
        twips as u64
    };
    append_decimal(css, a / 20);
    let h = (a % 20) * 5;
    if h != 0 {
        push_char(css, '.');
        push_char(css, ((h / 10) as u8 + 48) as char);
        if h % 10 != 0 {
            push_char(css, ((h % 10) as u8 + 48) as char);
        }
    }
    css.append("pt;");
    proof {
        let t = twips as int;
        let ai = if t < 0 { -t } else { t };
        assert(a as int == ai);
        assert(css@ =~= c0 + pt_decl(prop@, t));
    }
}

/// The MIME type for an image part, by the extension after the last '.', compared without case.
pub open spec fn mime_of_ext(ext: Seq<char>) -> Seq<char> {
    if ext == "png"@ {
        "image/png"@
    } else if ext == "jpg"@ || ext == "jpeg"@ {
        "image/jpeg"@
    } else if ext == "gif"@ {
        "image/gif"@
    } else if ext == "bmp"@ {
        "image/bmp"@
    } else if ext == "webp"@ {
        "image/webp"@
    } else if ext == "svg"@ {
        "image/svg+xml"@
    } else if ext == "tif"@ || ext == "tiff"@ {
        "image/tiff"@
    } else if ext == "emf"@ {
        "image/emf"@
    } else if ext == "wmf"@ {
        "image/wmf"@
    } else {
        "application/octet-stream"@
    }
}

/// The text after the last '.' (all of it when there is none).
pub open spec fn after_last_dot(s: Seq<char>) -> Seq<char>
    decreases s.len(),
{
    if s.len() == 0 {
        Seq::empty()
    } else if s.last() == '.' {
        Seq::empty()
    } else {
        after_last_dot(s.drop_last()).push(s.last())
    }
}

proof fn lemma_after_last_dot_ext(prefix: Seq<char>, e: Seq<char>)
    requires
        forall|i: int| 0 <= i < e.len() ==> e[i] != '.',
    ensures
        after_last_dot(prefix + seq!['.'] + e) == e,
    decreases e.len(),
{
    let s = prefix + seq!['.'] + e;
    if e.len() == 0 {
        assert(s.last() == '.');
    } else {
        assert(s.drop_last() =~= prefix + seq!['.'] + e.drop_last());
        assert(s.last() == e.last());
        lemma_after_last_dot_ext(prefix, e.drop_last());
        assert(e.drop_last().push(e.last()) =~= e);
    }
}

/// The media type of a file `prefix.e` (with `e` holding no '.') goes by its extension,
/// whatever the letters' case: `jpg` and `jpeg` are JPEG images, `png`, `gif`, `bmp`, `webp`,
/// `svg`, `tif`/`tiff`, `emf` and `wmf` their own image types, and only an extension that names
/// none of these falls back to `application/octet-stream`.
pub proof fn lemma_mime_by_extension(prefix: Seq<char>, e: Seq<char>)
    requires
        forall|i: int| 0 <= i < e.len() ==> e[i] != '.',
    ensures
        ({
            let m = mime_of_ext(lower_text(after_last_dot(prefix + seq!['.'] + e)));
            let x = lower_text(e);
            &&& (x == "jpg"@ || x == "jpeg"@) ==> m == "image/jpeg"@
            &&& x == "png"@ ==> m == "image/png"@
            &&& x == "gif"@ ==> m == "image/gif"@
            &&& x == "bmp"@ ==> m == "image/bmp"@
            &&& x == "webp"@ ==> m == "image/webp"@
            &&& x == "svg"@ ==> m == "image/svg+xml"@
            &&& (x == "tif"@ || x == "tiff"@) ==> m == "image/tiff"@
            &&& x == "emf"@ ==> m == "image/emf"@
            &&& x == "wmf"@ ==> m == "image/wmf"@
            &&& m == "application/octet-stream"@ ==> !(x == "jpg"@ || x == "jpeg"@ || x == "png"@
                || x == "gif"@ || x == "bmp"@ || x == "webp"@ || x == "svg"@ || x == "tif"@
                || x == "tiff"@ || x == "emf"@ || x == "wmf"@)
        }),
{
    lemma_after_last_dot_ext(prefix, e);
    reveal_strlit("jpg");
    reveal_strlit("jpeg");
    reveal_strlit("png");
    reveal_strlit("gif");
    reveal_strlit("bmp");
    reveal_strlit("webp");
    reveal_strlit("svg");
    reveal_strlit("tif");
    reveal_strlit("tiff");
    reveal_strlit("emf");
    reveal_strlit("wmf");
    reveal_strlit("image/jpeg");
    reveal_strlit("image/png");
    reveal_strlit("image/gif");
    reveal_strlit("image/bmp");
    reveal_strlit("image/webp");
    reveal_strlit("image/svg+xml");
    reveal_strlit("image/tiff");
    reveal_strlit("image/emf");
    reveal_strlit("image/wmf");
    reveal_strlit("application/octet-stream");
    assert("jpg"@.len() != "jpeg"@.len());
    assert("jpg"@ != "jpeg"@);
    assert("jpg"@[0] != "png"@[0]);
    assert("jpg"@ != "png"@);
    assert("jpg"@[0] != "gif"@[0]);
    assert("jpg"@ != "gif"@);
    assert("jpg"@[0] != "bmp"@[0]);
    assert("jpg"@ != "bmp"@);
    assert("jpg"@.len() != "webp"@.len());
    assert("jpg"@ != "webp"@);
    assert("jpg"@[0] != "svg"@[0]);
    assert("jpg"@ != "svg"@);
    assert("jpg"@[0] != "tif"@[0]);
    assert("jpg"@ != "tif"@);
    assert("jpg"@.len() != "tiff"@.len());
    assert("jpg"@ != "tiff"@);
    assert("jpg"@[0] != "emf"@[0]);
    assert("jpg"@ != "emf"@);
    assert("jpg"@[0] != "wmf"@[0]);
    assert("jpg"@ != "wmf"@);
    assert("jpeg"@.len() != "png"@.len());
    assert("jpeg"@ != "png"@);
    assert("jpeg"@.len() != "gif"@.len());
    assert("jpeg"@ != "gif"@);
    assert("jpeg"@.len() != "bmp"@.len());
    assert("jpeg"@ != "bmp"@);
    assert("jpeg"@[0] != "webp"@[0]);
    assert("jpeg"@ != "webp"@);
    assert("jpeg"@.len() != "svg"@.len());
    assert("jpeg"@ != "svg"@);
    assert("jpeg"@.len() != "tif"@.len());
    assert("jpeg"@ != "tif"@);
    assert("jpeg"@[0] != "tiff"@[0]);
    assert("jpeg"@ != "tiff"@);
    assert("jpeg"@.len() != "emf"@.len());
    assert("jpeg"@ != "emf"@);
    assert("jpeg"@.len() != "wmf"@.len());
    assert("jpeg"@ != "wmf"@);
    assert("png"@[0] != "gif"@[0]);
    assert("png"@ != "gif"@);
    assert("png"@[0] != "bmp"@[0]);
    assert("png"@ != "bmp"@);
    assert("png"@.len() != "webp"@.len());
    assert("png"@ != "webp"@);
    assert("png"@[0] != "svg"@[0]);
    assert("png"@ != "svg"@);
    assert("png"@[0] != "tif"@[0]);
    assert("png"@ != "tif"@);
    assert("png"@.len() != "tiff"@.len());
    assert("png"@ != "tiff"@);
    assert("png"@[0] != "emf"@[0]);
    assert("png"@ != "emf"@);
    assert("png"@[0] != "wmf"@[0]);
    assert("png"@ != "wmf"@);
    assert("gif"@[0] != "bmp"@[0]);
    assert("gif"@ != "bmp"@);
    assert("gif"@.len() != "webp"@.len());
    assert("gif"@ != "webp"@);
    assert("gif"@[0] != "svg"@[0]);
    assert("gif"@ != "svg"@);
    assert("gif"@[0] != "tif"@[0]);
    assert("gif"@ != "tif"@);
    assert("gif"@.len() != "tiff"@.len());
    assert("gif"@ != "tiff"@);
    assert("gif"@[0] != "emf"@[0]);
    assert("gif"@ != "emf"@);
    assert("gif"@[0] != "wmf"@[0]);
    assert("gif"@ != "wmf"@);
    assert("bmp"@.len() != "webp"@.len());
    assert("bmp"@ != "webp"@);
    assert("bmp"@[0] != "svg"@[0]);
    assert("bmp"@ != "svg"@);
    assert("bmp"@[0] != "tif"@[0]);
    assert("bmp"@ != "tif"@);
    assert("bmp"@.len() != "tiff"@.len());
    assert("bmp"@ != "tiff"@);
    assert("bmp"@[0] != "emf"@[0]);
    assert("bmp"@ != "emf"@);
    assert("bmp"@[0] != "wmf"@[0]);
    assert("bmp"@ != "wmf"@);
    assert("webp"@.len() != "svg"@.len());
    assert("webp"@ != "svg"@);
    assert("webp"@.len() != "tif"@.len());
    assert("webp"@ != "tif"@);
    assert("webp"@[0] != "tiff"@[0]);
    assert("webp"@ != "tiff"@);
    assert("webp"@.len() != "emf"@.len());
    assert("webp"@ != "emf"@);
    assert("webp"@.len() != "wmf"@.len());
    assert("webp"@ != "wmf"@);
    assert("svg"@[0] != "tif"@[0]);
    assert("svg"@ != "tif"@);
    assert("svg"@.len() != "tiff"@.len());
    assert("svg"@ != "tiff"@);
    assert("svg"@[0] != "emf"@[0]);
    assert("svg"@ != "emf"@);
    assert("svg"@[0] != "wmf"@[0]);
    assert("svg"@ != "wmf"@);
    assert("tif"@.len() != "tiff"@.len());
    assert("tif"@ != "tiff"@);
    assert("tif"@[0] != "emf"@[0]);
    assert("tif"@ != "emf"@);
    assert("tif"@[0] != "wmf"@[0]);
    assert("tif"@ != "wmf"@);
    assert("tiff"@.len() != "emf"@.len());
    assert("tiff"@ != "emf"@);
    assert("tiff"@.len() != "wmf"@.len());
    assert("tiff"@ != "wmf"@);
    assert("emf"@[0] != "wmf"@[0]);
    assert("emf"@ != "wmf"@);
    assert("image/jpeg"@.len() != "application/octet-stream"@.len());
    assert("image/jpeg"@ != "application/octet-stream"@);
    assert("image/png"@.len() != "application/octet-stream"@.len());
    assert("image/png"@ != "application/octet-stream"@);
    assert("image/gif"@.len() != "application/octet-stream"@.len());
    assert("image/gif"@ != "application/octet-stream"@);
    assert("image/bmp"@.len() != "application/octet-stream"@.len());
    assert("image/bmp"@ != "application/octet-stream"@);
    assert("image/webp"@.len() != "application/octet-stream"@.len());
    assert("image/webp"@ != "application/octet-stream"@);
    assert("image/svg+xml"@.len() != "application/octet-stream"@.len());
    assert("image/svg+xml"@ != "application/octet-stream"@);
    assert("image/tiff"@.len() != "application/octet-stream"@.len());
    assert("image/tiff"@ != "application/octet-stream"@);
    assert("image/emf"@.len() != "application/octet-stream"@.len());
    assert("image/emf"@ != "application/octet-stream"@);
    assert("image/wmf"@.len() != "application/octet-stream"@.len());
    assert("image/wmf"@ != "application/octet-stream"@);
}

pub fn mime_for_path(path: &str) -> (r: &'static str)
    ensures
        r@ == mime_of_ext(lower_text(after_last_dot(path@))),
{
    let mut ext = String::new();
    for c in it: path.chars()
        invariant
            it.seq() == path@,
            ext@ == lower_text(after_last_dot(path@.take(it.index() as int))),
    {
        assert(c == path@[it.index() as int]);
        assert(path@.take(it.index() + 1).drop_last() =~= path@.take(it.index() as int));
        if c == '.' {
            ext = String::new();
        } else {
            push_char(&mut ext, crate::text::lower_char(c));
        }
        assert(ext@ =~= lower_text(after_last_dot(path@.take(it.index() + 1))));
    }
    assert(path@.take(path@.len() as int) =~= path@);
    let e = ext.as_str();
    if str_eq(e, "png") {
        "image/png"
    } else if str_eq(e, "jpg") || str_eq(e, "jpeg") {
        "image/jpeg"
    } else if str_eq(e, "gif") {
        "image/gif"
    } else if str_eq(e, "bmp") {
        "image/bmp"
    } else if str_eq(e, "webp") {
        "image/webp"
    } else if str_eq(e, "svg") {
        "image/svg+xml"
    } else if str_eq(e, "tif") || str_eq(e, "tiff") {
        "image/tiff"
    } else if str_eq(e, "emf") {
        "image/emf"
    } else if str_eq(e, "wmf") {
        "image/wmf"
    } else {
        "application/octet-stream"
    }
}

/// The key under which the count of items emitted at list level `ilvl` of list `num_id` is kept.
pub open spec fn list_key_spec(num_id: i32, ilvl: i32) -> u64 {
    ((num_id as u32 as u64) * 256 + ((ilvl as u32) % 256) as u64) as u64
}

pub fn list_key(num_id: i32, ilvl: i32) -> (k: u64)
    ensures
        k == list_key_spec(num_id, ilvl),
{
    let a = num_id as u32 as u64;
    let lo = ilvl as u32 & 0xFFu32;
    assert(lo < 256) by (bit_vector)
        requires lo == ilvl as u32 & 0xFFu32;
    let b = lo as u64;
    assert(a << 8u64 == a * 256) by (bit_vector)
        requires a < 0x1_0000_0000;
    assert((a << 8u64) | b == (a << 8u64) + b) by (bit_vector)
        requires a < 0x1_0000_0000, b < 256;
    assert(ilvl as u32 & 0xFFu32 == (ilvl as u32) % 256) by (bit_vector);
    (a << 8u64) | b
}

/// The pieces between '/' characters, empty ones included (`str::split('/')`).
pub open spec fn split_slash(s: Seq<char>) -> Seq<Seq<char>>
    decreases s.len(),
{
    if s.len() == 0 {
        seq![Seq::empty()]
    } else {
        let prev = split_slash(s.drop_last());
        if s.last() == '/' {
            prev.push(Seq::empty())
        } else {
            prev.update(prev.len() - 1, prev.last().push(s.last()))
        }
    }
}

/// One path segment applied to a stack of directories: ".." goes up, "" and "." stay put.
pub open spec fn apply_segment(stack: Seq<Seq<char>>, seg: Seq<char>) -> Seq<Seq<char>> {
    if seg == ".."@ {
        if stack.len() > 0 {
            stack.drop_last()
        } else {
            stack
        }
    } else if seg.len() > 0 && seg != "."@ {
        stack.push(seg)
    } else {
        stack
    }
}

pub open spec fn resolve_segments(segs: Seq<Seq<char>>) -> Seq<Seq<char>>
    decreases segs.len(),
{
    if segs.len() == 0 {
        Seq::empty()
    } else {
        apply_segment(resolve_segments(segs.drop_last()), segs.last())
    }
}

/// The parts joined with '/'.
pub open spec fn join_slash(parts: Seq<Seq<char>>) -> Seq<char>
    decreases parts.len(),
{
    if parts.len() == 0 {
        Seq::empty()
    } else if parts.len() == 1 {
        parts[0]
    } else {
        join_slash(parts.drop_last()) + seq!['/'] + parts.last()
    }
}

/// The path of a part that `target` names relative to the directory `base_dir` (which ends in '/'
/// or is empty), or from the archive root when `target` starts with '/'.
pub open spec fn resolved_path(base_dir: Seq<char>, target: Seq<char>) -> Seq<char> {
    let full = if target.len() > 0 && target[0] == '/' {
        target.drop_first()
    } else {
        base_dir + target
    };
    join_slash(resolve_segments(split_slash(full)))
}

/// A segment that a resolved path may hold: not empty, not "." or "..", and without '/'.
pub open spec fn clean_segment(seg: Seq<char>) -> bool {
    seg.len() > 0 && seg != "."@ && seg != ".."@ && !seg.contains('/')
}

proof fn lemma_split_has_no_slash(s: Seq<char>)
    ensures
        forall|i: int| 0 <= i < split_slash(s).len() ==> !(#[trigger] split_slash(s)[i]).contains('/'),
        split_slash(s).len() >= 1,
    decreases s.len(),
{
    if s.len() > 0 {
        lemma_split_has_no_slash(s.drop_last());
        let prev = split_slash(s.drop_last());
        if s.last() != '/' {
            let last = prev.last().push(s.last());
            assert forall|j: int| 0 <= j < last.len() implies last[j] != '/' by {
                if j < prev.last().len() {
                    assert(last[j] == prev.last()[j]);
                    assert(!prev[prev.len() - 1].contains('/'));
                }
            }
            assert(!last.contains('/'));
        } else {
            assert(!Seq::<char>::empty().contains('/'));
        }
    }
}

proof fn lemma_resolve_keeps_clean(segs: Seq<Seq<char>>)
    requires
        forall|i: int| 0 <= i < segs.len() ==> !(#[trigger] segs[i]).contains('/'),
    ensures
        forall|i: int| 0 <= i < resolve_segments(segs).len() ==> clean_segment(#[trigger] resolve_segments(segs)[i]),
    decreases segs.len(),
{
    if segs.len() > 0 {
        let prev = segs.drop_last();
        assert forall|i: int| 0 <= i < prev.len() implies !(#[trigger] prev[i]).contains('/') by {
            assert(prev[i] == segs[i]);
        }
        lemma_resolve_keeps_clean(prev);
        let seg = segs.last();
        assert(!segs[segs.len() - 1].contains('/'));
        let r0 = resolve_segments(prev);
        let r = resolve_segments(segs);
        assert(r == apply_segment(r0, seg));
        assert forall|i: int| 0 <= i < r.len() implies clean_segment(#[trigger] r[i]) by {
            if seg == ".."@ {
                if r0.len() > 0 {
                    assert(r[i] == r0[i]);
                }
            } else if seg.len() > 0 && seg != "."@ {
                if i < r0.len() {
                    assert(r[i] == r0[i]);
                } else {
                    assert(r[i] == seg);
                }
            } else {
                assert(r[i] == r0[i]);
            }
        }
    }
}

proof fn lemma_join_starts_with_first(parts: Seq<Seq<char>>)
    requires
        parts.len() > 0,
        parts[0].len() > 0,
    ensures
        join_slash(parts).len() > 0,
        join_slash(parts)[0] == parts[0][0],
    decreases parts.len(),
{
    if parts.len() > 1 {
        lemma_join_starts_with_first(parts.drop_last());
    }
}

/// A resolved part path is its clean segments joined with '/': it never climbs above the
/// archive root, never starts with '/', and holds no empty, "." or ".." segment.
pub proof fn lemma_resolved_path_is_clean(base_dir: Seq<char>, target: Seq<char>)
    ensures
        ({
            let parts = resolve_segments(
                split_slash(
                    if target.len() > 0 && target[0] == '/' {
                        target.drop_first()
                    } else {
                        base_dir + target
                    },
                ),
            );
            &&& resolved_path(base_dir, target) == join_slash(parts)
            &&& forall|i: int| 0 <= i < parts.len() ==> clean_segment(#[trigger] parts[i])
        }),
        resolved_path(base_dir, target).len() == 0 || resolved_path(base_dir, target)[0] != '/',
{
    let full = if target.len() > 0 && target[0] == '/' {
        target.drop_first()
    } else {
        base_dir + target
    };
    lemma_split_has_no_slash(full);
    lemma_resolve_keeps_clean(split_slash(full));
    let parts = resolve_segments(split_slash(full));
    if parts.len() > 0 {
        assert(clean_segment(parts[0]));
        lemma_join_starts_with_first(parts);
        assert(parts[0][0] != '/') by {
            assert(!parts[0].contains('/'));
        }
    }
}

pub open spec fn strings_view(v: Seq<String>) -> Seq<Seq<char>> {
    v.map_values(|x: String| x@)
}

fn push_segment(parts: &mut Vec<String>, seg: String)
    ensures
        strings_view(final(parts)@) == apply_segment(strings_view(old(parts)@), seg@),
{
    let ghost st = strings_view(parts@);
    if str_eq(seg.as_str(), "..") {
        if parts.len() > 0 {
            parts.pop();
            assert(strings_view(parts@) =~= st.drop_last());
        }
    } else if !seg.as_str().is_empty() && !str_eq(seg.as_str(), ".") {
        parts.push(seg);
        assert(strings_view(parts@) =~= st.push(seg@));
    }
}

pub fn resolve_zip_path(base_dir: &str, target: &str) -> (r: String)
    ensures
        r@ == resolved_path(base_dir@, target@),
{
    let ghost full_spec = if target@.len() > 0 && target@[0] == '/' {
        target@.drop_first()
    } else {
        base_dir@ + target@
    };
    let mut full = String::new();
    let mut first = true;
    for c in it: target.chars()
        invariant
            it.seq() == target@,
            first == (it.index() == 0),
            full@ == if it.index() == 0 {
                Seq::<char>::empty()
            } else if target@[0] == '/' {
                target@.take(it.index() as int).drop_first()
            } else {
                base_dir@ + target@.take(it.index() as int)
            },
    {
        assert(c == target@[it.index() as int]);
        let ghost k = it.index();
        if first {
            if c != '/' {
                full.append(base_dir);
                push_char(&mut full, c);
            }
        } else {
            push_char(&mut full, c);
        }
        proof {
            if k == 0 {
                assert(target@.take(1).drop_first() =~= Seq::<char>::empty());
                assert(base_dir@ + target@.take(1) =~= base_dir@.push(c));
            } else if target@[0] == '/' {
                assert(target@.take(k + 1).drop_first() =~= target@.take(k as int).drop_first().push(c));
            } else {
                assert(base_dir@ + target@.take(k + 1) =~= (base_dir@ + target@.take(k as int)).push(c));
            }
        }
        first = false;
    }
    if first {
        full.append(base_dir);
    }
    proof {
        assert(target@.take(target@.len() as int) =~= target@);
        if first {
            assert(base_dir@ + target@ =~= base_dir@);
        }
    }
    assert(full@ == full_spec);
    // split on '/' and resolve "." and ".."
    let mut parts: Vec<String> = Vec::new();
    let mut cur = String::new();
    let fs = full.as_str();
    for c in it: fs.chars()
        invariant
            it.seq() == full_spec,
            fs@ == full_spec,
            ({
                let segs = split_slash(full_spec.take(it.index() as int));
                &&& strings_view(parts@) == resolve_segments(segs.drop_last())
                &&& cur@ == segs.last()
            }),
    {
        let ghost i = it.index();
        assert(c == full_spec[i as int]);
        assert(full_spec.take(i + 1).drop_last() =~= full_spec.take(i as int));
        let ghost segs = split_slash(full_spec.take(i as int));
        proof {
            lemma_split_nonempty(full_spec.take(i as int));
        }
        if c == '/' {
            let seg = cur;
            cur = String::new();
            push_segment(&mut parts, seg);
            proof {
                let ns = segs.push(Seq::empty());
                assert(ns.drop_last() =~= segs);
                assert(segs =~= segs.drop_last().push(segs.last()));
            }
        } else {
            push_char(&mut cur, c);
            proof {
                let ns = segs.update(segs.len() - 1, segs.last().push(c));
                assert(ns.drop_last() =~= segs.drop_last());
            }
        }
    }
    proof {
        assert(full_spec.take(full_spec.len() as int) =~= full_spec);
        lemma_split_nonempty(full_spec);
        let segs = split_slash(full_spec);
        assert(segs =~= segs.drop_last().push(segs.last()));
    }
    push_segment(&mut parts, cur);
    // join with '/'
    let mut r = String::new();
    let mut j: usize = 0;
    let ghost pv = strings_view(parts@);
    while j < parts.len()
        invariant
            j <= parts@.len(),
            pv == strings_view(parts@),
            r@ == join_slash(pv.take(j as int)),
        decreases parts@.len() - j,
    {
        if j > 0 {
            push_char(&mut r, '/');
        }
        r.append(parts[j].as_str());
        proof {
            assert(pv.take(j + 1).drop_last() =~= pv.take(j as int));
            if j == 0 {
                assert(pv.take(1)[0] == pv[0]);
            }
        }
        j += 1;
    }
    assert(pv.take(pv.len() as int) =~= pv);
    r
}

proof fn lemma_split_nonempty(s: Seq<char>)
    ensures
        split_slash(s).len() >= 1,
    decreases s.len(),
{
    if s.len() > 0 {
        lemma_split_nonempty(s.drop_last());
    }
}

pub open spec fn is_blank(c: u8) -> bool {
    c == 0x20 || c == 0x09 || c == 0x0D || c == 0x0A
}

/// The first index at or after `i` that does not hold white space.
pub open spec fn skip_blank(b: Seq<u8>, i: int) -> int
    decreases b.len() - i,
{
    if i < b.len() && is_blank(b[i]) {
        skip_blank(b, i + 1)
    } else {
        i
    }
}

/// The first index at or after `i` that holds a space or tab (or the end).
pub open spec fn word_end(b: Seq<u8>, i: int) -> int
    decreases b.len() - i,
{
    if i < b.len() && b[i] != 0x20 && b[i] != 0x09 {
        word_end(b, i + 1)
    } else {
        i
    }
}

/// The first index at or after `i` that holds '"' (or the end).
pub open spec fn quote_end(b: Seq<u8>, i: int) -> int
    decreases b.len() - i,
{
    if i < b.len() && b[i] != 0x22 {
        quote_end(b, i + 1)
    } else {
        i
    }
}

pub proof fn lemma_scan_bounds(b: Seq<u8>, i: int)
    requires
        i >= 0,
    ensures
        skip_blank(b, i) < b.len() ==> !is_blank(b[skip_blank(b, i)]),
        i < b.len() && b[i] != 0x20 && b[i] != 0x09 ==> word_end(b, i) > i,
        i <= skip_blank(b, i),
        i <= b.len() ==> skip_blank(b, i) <= b.len(),
        i <= word_end(b, i),
        i <= b.len() ==> word_end(b, i) <= b.len(),
        i <= quote_end(b, i),
        i <= b.len() ==> quote_end(b, i) <= b.len(),
    decreases b.len() - i,
{
    if i < b.len() {
        lemma_scan_bounds(b, i + 1);
    }
}

/// The arguments of a HYPERLINK field from index `i` on: the first plain token is the URL,
/// the one after the switch `\l` the anchor; tokens after `\o` and `\t` are dropped.
pub open spec fn link_args(b: Seq<u8>, i: int, url: Seq<char>, anchor: Seq<char>, pending: u8) -> (
    Seq<char>,
    Seq<char>,
)
    decreases b.len() + 2 - i,
{
    let j = skip_blank(b, i);
    proof {
        if i >= 0 {
            lemma_scan_bounds(b, i);
            if j >= 0 {
                lemma_scan_bounds(b, j);
                lemma_scan_bounds(b, j + 1);
            }
        }
    }
    if i < 0 || i > b.len() || j >= b.len() || j < i {
        (url, anchor)
    } else if b[j] == 0x5C {
        let f = if j + 1 < b.len() {
            b[j + 1]
        } else {
            0u8
        };
        let p = if f == 0x6C || f == 0x6F || f == 0x74 {
            f
        } else {
            0u8
        };
        link_args(b, j + 2, url, anchor, p)
    } else {
        let e = if b[j] == 0x22 {
            quote_end(b, j + 1)
        } else {
            word_end(b, j)
        };
        let tok = if b[j] == 0x22 {
            text_of(b.subrange(j + 1, e))
        } else {
            text_of(b.subrange(j, e))
        };
        let next = if b[j] == 0x22 {
            if e >= b.len() {
                b.len() as int
            } else {
                e + 1
            }
        } else {
            e
        };
        let (u2, a2) = if pending == 0x6C {
            (url, tok)
        } else if pending == 0x6F || pending == 0x74 {
            (url, anchor)
        } else if url.len() == 0 {
            (tok, anchor)
        } else {
            (url, anchor)
        };
        if next <= j {
            (u2, a2)
        } else {
            link_args(b, next, u2, a2, 0)
        }
    }
}

/// The link target of a field instruction `HYPERLINK url \l anchor ...`, or the empty text
/// when the instruction is not a hyperlink or names neither.
pub open spec fn hyperlink_target(b: Seq<u8>) -> Seq<char> {
    let ks = skip_blank(b, 0);
    let ke = word_end(b, ks);
    if lower_text(text_of(b.subrange(ks, ke))) != "hyperlink"@ {
        Seq::empty()
    } else {
        let (url, anchor) = link_args(b, ke, Seq::empty(), Seq::empty(), 0);
        if url.len() == 0 && anchor.len() == 0 {
            Seq::empty()
        } else if url.len() == 0 {
            seq!['#'] + anchor
        } else if anchor.len() > 0 {
            url + seq!['#'] + anchor
        } else {
            url
        }
    }
}

fn skip_ws_at(b: &[u8], i: usize) -> (r: usize)
    requires
        i <= b@.len(),
    ensures
        r == skip_blank(b@, i as int),
        r <= b@.len(),
{
    let mut j = i;
    while j < b.len() && (b[j] == 0x20 || b[j] == 0x09 || b[j] == 0x0D || b[j] == 0x0A)
        invariant
            i <= j <= b@.len(),
            skip_blank(b@, i as int) == skip_blank(b@, j as int),
        decreases b@.len() - j,
    {
        j += 1;
    }
    j
}

fn word_end_at(b: &[u8], i: usize) -> (r: usize)
    requires
        i <= b@.len(),
    ensures
        r == word_end(b@, i as int),
        i <= r <= b@.len(),
{
    let mut j = i;
    while j < b.len() && b[j] != 0x20 && b[j] != 0x09
        invariant
            i <= j <= b@.len(),
            word_end(b@, i as int) == word_end(b@, j as int),
        decreases b@.len() - j,
    {
        j += 1;
    }
    j
}

fn quote_end_at(b: &[u8], i: usize) -> (r: usize)
    requires
        i <= b@.len(),
    ensures
        r == quote_end(b@, i as int),
        i <= r <= b@.len(),
{
    let mut j = i;
    while j < b.len() && b[j] != 0x22
        invariant
            i <= j <= b@.len(),
            quote_end(b@, i as int) == quote_end(b@, j as int),
        decreases b@.len() - j,
    {
        j += 1;
    }
    j
}

pub fn hyperlink_from_instr(instr: &str) -> (r: String)
    ensures
        r@ == hyperlink_target(instr.spec_bytes()),
{
    let b = instr.as_bytes();
    let n = b.len();
    let ks = skip_ws_at(b, 0);
    let mut i = word_end_at(b, ks);
    let kw = to_lower(crate::text::str_or_empty(vstd::slice::slice_subrange(b, ks, i)));
    if !str_eq(kw.as_str(), "hyperlink") {
        return String::new();
    }
    let mut url = String::new();
    let mut anchor = String::new();
    let mut pending: u8 = 0;
    let ghost total = link_args(b@, i as int, Seq::empty(), Seq::empty(), 0);
    while i < n
        invariant
            n == b@.len(),
            b@ == instr.spec_bytes(),
            total == link_args(b@, i as int, url@, anchor@, pending),
        decreases n - i,
    {
        let j = skip_ws_at(b, i);
        let ghost u0 = url@;
        let ghost a0 = anchor@;
        let ghost p0 = pending;
        let ghost i0 = i as int;
        proof {
            lemma_scan_bounds(b@, i as int);
            lemma_scan_bounds(b@, j as int);
            lemma_scan_bounds(b@, j + 1);
        }
        if j >= n {
            i = n;
            assert(link_args(b@, i as int, url@, anchor@, pending) == (u0, a0));
        } else if b[j] == 0x5C {
            let f = if j + 1 < n {
                b[j + 1]
            } else {
                0
            };
            pending = if f == 0x6C || f == 0x6F || f == 0x74 {
                f
            } else {
                0
            };
            if n - j < 2 {
                i = n;
                proof {
                    assert(skip_blank(b@, j + 2) == j + 2);
                }
            } else {
                i = j + 2;
            }
            assert(link_args(b@, i0, u0, a0, p0) == link_args(b@, j + 2, u0, a0, pending));
            assert(link_args(b@, i as int, url@, anchor@, pending) == link_args(b@, j + 2, u0, a0, pending));
        } else {
            let tok;
            if b[j] == 0x22 {
                let e = quote_end_at(b, j + 1);
                tok = owned(crate::text::str_or_empty(vstd::slice::slice_subrange(b, j + 1, e)));
                i = if e == n {
                    n
                } else {
                    e + 1
                };
            } else {
                let e = word_end_at(b, j);
                tok = owned(crate::text::str_or_empty(vstd::slice::slice_subrange(b, j, e)));
                i = e;
            }
            assert(tok@ == (if b@[j as int] == 0x22 { text_of(b@.subrange(j + 1, quote_end(b@, j + 1))) } else { text_of(b@.subrange(j as int, word_end(b@, j as int))) }));
            if pending == 0x6C {
                anchor = tok;
            } else if pending == 0x6F || pending == 0x74 {
            } else if url.as_str().is_empty() {
                url = tok;
            }
            pending = 0;
            assert(total == link_args(b@, i as int, url@, anchor@, pending));
        }
    }
    if url.as_str().is_empty() && anchor.as_str().is_empty() {
        String::new()
    } else if url.as_str().is_empty() {
        let mut r = String::new();
        push_char(&mut r, '#');
        r.append(anchor.as_str());
        assert(r@ =~= seq!['#'] + anchor@);
        r
    } else if !anchor.as_str().is_empty() {
        let mut r = url;
        push_char(&mut r, '#');
        r.append(anchor.as_str());
        r
    } else {
        url
    }
}

pub struct Relationship {
    pub target: String,
    pub external: bool,
}

pub struct RunProps {
    pub b: bool,
    pub i: bool,
    pub u: bool,
    pub strike: bool,
    pub caps: bool,
    pub small_caps: bool,
    pub vanish: bool,
    pub vert: i32,
    pub color: String,
    pub highlight: String,
}

/// Run properties as plain values.
pub struct RunPropsView {
    pub b: bool,
    pub i: bool,
    pub u: bool,
    pub strike: bool,
    pub caps: bool,
    pub small_caps: bool,
    pub vanish: bool,
    pub vert: i32,
    pub color: Seq<char>,
    pub highlight: Seq<char>,
}

impl View for RunProps {
    type V = RunPropsView;

    open spec fn view(&self) -> RunPropsView {
        RunPropsView {
            b: self.b,
            i: self.i,
            u: self.u,
            strike: self.strike,
            caps: self.caps,
            small_caps: self.small_caps,
            vanish: self.vanish,
            vert: self.vert,
            color: self.color@,
            highlight: self.highlight@,
        }
    }
}

/// Properties that nothing has switched on.
pub open spec fn plain_run() -> RunPropsView {
    RunPropsView {
        b: false,
        i: false,
        u: false,
        strike: false,
        caps: false,
        small_caps: false,
        vanish: false,
        vert: 0,
        color: Seq::empty(),
        highlight: Seq::empty(),
    }
}

impl RunProps {
    pub fn empty() -> (r: Self)
        ensures
            r@ == plain_run(),
    {
        RunProps {
            b: false,
            i: false,
            u: false,
            strike: false,
            caps: false,
            small_caps: false,
            vanish: false,
            vert: 0,
            color: String::new(),
            highlight: String::new(),
        }
    }

    pub fn copy(&self) -> (r: Self)
        ensures
            r@ == self@,
    {
        RunProps {
            b: self.b,
            i: self.i,
            u: self.u,
            strike: self.strike,
            caps: self.caps,
            small_caps: self.small_caps,
            vanish: self.vanish,
            vert: self.vert,
            color: self.color.clone(),
            highlight: self.highlight.clone(),
        }
    }
}

/// The run properties after the property element `n` with value `val`.
pub open spec fn run_prop_applied(rp: RunPropsView, n: Seq<char>, val: Seq<char>) -> RunPropsView {
    let on = is_on(val);
    if n == "w:b"@ {
        RunPropsView { b: on, ..rp }
    } else if n == "w:i"@ {
        RunPropsView { i: on, ..rp }
    } else if n == "w:u"@ {
        RunPropsView { u: on, ..rp }
    } else if n == "w:strike"@ || n == "w:dstrike"@ {
        RunPropsView { strike: on, ..rp }
    } else if n == "w:caps"@ {
        RunPropsView { caps: on, ..rp }
    } else if n == "w:smallCaps"@ {
        RunPropsView { small_caps: on, ..rp }
    } else if n == "w:vanish"@ || n == "w:webHidden"@ {
        RunPropsView { vanish: on, ..rp }
    } else if n == "w:vertAlign"@ {
        RunPropsView {
            vert: if val == "superscript"@ {
                1i32
            } else if val == "subscript"@ {
                -1i32
            } else {
                0i32
            },
            ..rp
        }
    } else if n == "w:color"@ {
        if val.len() > 0 && val != "auto"@ {
            RunPropsView { color: val, ..rp }
        } else {
            rp
        }
    } else if n == "w:highlight"@ {
        if val.len() > 0 && val != "none"@ {
            RunPropsView { highlight: val, ..rp }
        } else {
            rp
        }
    } else {
        rp
    }
}

/// `s` holds `t` somewhere.
pub open spec fn holds_text(s: Seq<char>, t: Seq<char>) -> bool {
    exists|k: int| 0 <= k && k + t.len() <= s.len() && #[trigger] s.subrange(k, k + t.len()) == t
}

proof fn lemma_vert_applied(rp: RunPropsView, val: Seq<char>)
    ensures
        run_prop_applied(rp, "w:vertAlign"@, val) == (RunPropsView {
            vert: if val == "superscript"@ {
                1i32
            } else if val == "subscript"@ {
                -1i32
            } else {
                0i32
            },
            ..rp
        }),
{
    reveal_strlit("w:vertAlign");
    reveal_strlit("w:b");
    reveal_strlit("w:i");
    reveal_strlit("w:u");
    reveal_strlit("w:strike");
    reveal_strlit("w:dstrike");
    reveal_strlit("w:caps");
    reveal_strlit("w:smallCaps");
    reveal_strlit("w:vanish");
    reveal_strlit("w:webHidden");
    assert("w:vertAlign"@.len() != "w:b"@.len());
    assert("w:vertAlign"@.len() != "w:i"@.len());
    assert("w:vertAlign"@.len() != "w:u"@.len());
    assert("w:vertAlign"@.len() != "w:strike"@.len());
    assert("w:vertAlign"@.len() != "w:dstrike"@.len());
    assert("w:vertAlign"@.len() != "w:caps"@.len());
    assert("w:vertAlign"@[2] != "w:smallCaps"@[2]);
    assert("w:vertAlign"@.len() != "w:vanish"@.len());
    assert("w:vertAlign"@[2] != "w:webHidden"@[2]);
}

proof fn lemma_sub_tags(q: RunPropsView)
    requires
        q.vert == -1,
    ensures
        holds_text(run_open_tags(q), "<sub>"@),
        holds_text(run_close_tags(q), "</sub>"@),
{
    reveal_strlit("<sub>");
    reveal_strlit("</sub>");
    let o = run_open_tags(q);
    let c = run_close_tags(q);
    let f0 = when(q.b, "<strong>"@) + when(q.i, "<em>"@) + when(q.u, "<u>"@) + when(q.strike, "<s>"@);
    assert(format_open(q) =~= f0 + "<sub>"@);
    let k = f0.len() as int;
    assert(o.subrange(k, k + 5) =~= "<sub>"@);
    let kc = c.len() - format_close(q).len();
    assert(c.subrange(kc, kc + 6) =~= "</sub>"@);
}

proof fn lemma_sup_tags(q: RunPropsView)
    requires
        q.vert == 1,
    ensures
        holds_text(run_open_tags(q), "<sup>"@),
        holds_text(run_close_tags(q), "</sup>"@),
{
    reveal_strlit("<sup>");
    reveal_strlit("</sup>");
    let o = run_open_tags(q);
    let c = run_close_tags(q);
    let f0 = when(q.b, "<strong>"@) + when(q.i, "<em>"@) + when(q.u, "<u>"@) + when(q.strike, "<s>"@);
    assert(format_open(q) =~= f0 + "<sup>"@);
    let k = f0.len() as int;
    assert(o.subrange(k, k + 5) =~= "<sup>"@);
    let kc = c.len() - format_close(q).len();
    assert(c.subrange(kc, kc + 6) =~= "</sup>"@);
}

/// Vertical alignment: after `w:vertAlign` "subscript" a run is lowered (vertical alignment -1)
/// and wrapped in `<sub>`...`</sub>`, after "superscript" raised (+1) and wrapped in
/// `<sup>`...`</sup>`, and after any other value set on the baseline; nothing else of the
/// run's properties changes.
pub proof fn lemma_vert_align(rp: RunPropsView, val: Seq<char>)
    ensures
        ({
            let q = run_prop_applied(rp, "w:vertAlign"@, val);
            &&& q == (RunPropsView { vert: q.vert, ..rp })
            &&& val == "subscript"@ ==> q.vert == -1 && holds_text(run_open_tags(q), "<sub>"@)
                && holds_text(run_close_tags(q), "</sub>"@)
            &&& val == "superscript"@ ==> q.vert == 1 && holds_text(run_open_tags(q), "<sup>"@)
                && holds_text(run_close_tags(q), "</sup>"@)
            &&& val != "subscript"@ && val != "superscript"@ ==> q.vert == 0
        }),
{
    reveal_strlit("subscript");
    reveal_strlit("superscript");
    assert("subscript"@.len() != "superscript"@.len());
    lemma_vert_applied(rp, val);
    let q = run_prop_applied(rp, "w:vertAlign"@, val);
    if val == "subscript"@ {
        lemma_sub_tags(q);
    } else if val == "superscript"@ {
        lemma_sup_tags(q);
    }
}

pub fn apply_run_prop(rp: &mut RunProps, n: &str, val: &str)
    ensures
        final(rp)@ == run_prop_applied(old(rp)@, n@, val@),
{
    let on = toggle_on(val);
    if str_eq(n, "w:b") {
        rp.b = on;
    } else if str_eq(n, "w:i") {
        rp.i = on;
    } else if str_eq(n, "w:u") {
        rp.u = on;
    } else if str_eq(n, "w:strike") || str_eq(n, "w:dstrike") {
        rp.strike = on;
    } else if str_eq(n, "w:caps") {
        rp.caps = on;
    } else if str_eq(n, "w:smallCaps") {
        rp.small_caps = on;
    } else if str_eq(n, "w:vanish") || str_eq(n, "w:webHidden") {
        rp.vanish = on;
    } else if str_eq(n, "w:vertAlign") {
        rp.vert = if str_eq(val, "superscript") {
            1
        } else if str_eq(val, "subscript") {
            -1
        } else {
            0
        };
    } else if str_eq(n, "w:color") {
        if !val.is_empty() && !str_eq(val, "auto") {
            rp.color = owned(val);
        }
    } else if str_eq(n, "w:highlight") {
        if !val.is_empty() && !str_eq(val, "none") {
            rp.highlight = owned(val);
        }
    }
}

/// The text if the condition holds, else nothing.
pub open spec fn when(c: bool, s: Seq<char>) -> Seq<char> {
    if c {
        s
    } else {
        Seq::empty()
    }
}

/// The inline CSS of run properties.
pub open spec fn run_css(rp: RunPropsView) -> Seq<char> {
    when(rp.color.len() > 0, "color:#"@ + rp.color + ";"@) + when(
        rp.highlight.len() > 0,
        "background-color:"@ + highlight_of(rp.highlight) + ";"@,
    ) + when(rp.caps, "text-transform:uppercase;"@) + when(rp.small_caps, "font-variant:small-caps;"@)
        + when(rp.vanish, "display:none;"@)
}

/// The tags for the on/off formatting of a run, outermost first.
pub open spec fn format_open(rp: RunPropsView) -> Seq<char> {
    when(rp.b, "<strong>"@) + when(rp.i, "<em>"@) + when(rp.u, "<u>"@) + when(rp.strike, "<s>"@)
        + when(rp.vert == 1, "<sup>"@) + when(rp.vert == -1, "<sub>"@)
}

/// Their closing tags, innermost first.
pub open spec fn format_close(rp: RunPropsView) -> Seq<char> {
    when(rp.vert == -1, "</sub>"@) + (when(rp.vert == 1, "</sup>"@) + (when(rp.strike, "</s>"@) + (
    when(rp.u, "</u>"@) + (when(rp.i, "</em>"@) + when(rp.b, "</strong>"@)))))
}

/// The opening tags that a run with properties `rp` is wrapped in.
pub open spec fn run_open_tags(rp: RunPropsView) -> Seq<char> {
    format_open(rp) + when(run_css(rp).len() > 0, "<span style=\""@ + run_css(rp) + "\">"@)
}

/// The closing tags, innermost first.
pub open spec fn run_close_tags(rp: RunPropsView) -> Seq<char> {
    when(run_css(rp).len() > 0, "</span>"@) + format_close(rp)
}

fn wrap(o: &str, c: &str, open: &mut String, close: &mut String)
    ensures
        final(open)@ == old(open)@ + o@,
        final(close)@ == c@ + old(close)@,
{
    open.append(o);
    let mut nc = owned(c);
    nc.append(close.as_str());
    *close = nc;
}

fn run_css_string(rp: &RunProps) -> (css: String)
    ensures
        css@ == run_css(rp@),
{
    let mut css = String::new();
    let ghost c0 = when(rp.color@.len() > 0, "color:#"@ + rp.color@ + ";"@);
    if !rp.color.as_str().is_empty() {
        css.append("color:#");
        css.append(rp.color.as_str());
        css.append(";");
    }
    assert(css@ =~= c0);
    let ghost c1 = c0 + when(rp.highlight@.len() > 0, "background-color:"@ + highlight_of(rp.highlight@) + ";"@);
    if !rp.highlight.as_str().is_empty() {
        css.append("background-color:");
        let h = highlight_css(rp.highlight.as_str());
        css.append(h.as_str());
        css.append(";");
    }
    assert(css@ =~= c1);
    if rp.caps {
        css.append("text-transform:uppercase;");
    }
    let ghost c2 = c1 + when(rp.caps, "text-transform:uppercase;"@);
    assert(css@ =~= c2);
    if rp.small_caps {
        css.append("font-variant:small-caps;");
    }
    let ghost c3 = c2 + when(rp.small_caps, "font-variant:small-caps;"@);
    assert(css@ =~= c3);
    if rp.vanish {
        css.append("display:none;");
    }
    assert(css@ =~= c3 + when(rp.vanish, "display:none;"@));
    css
}

fn wrap_if(cond: bool, o: &str, c: &str, open: &mut String, close: &mut String)
    ensures
        final(open)@ == old(open)@ + when(cond, o@),
        final(close)@ == when(cond, c@) + old(close)@,
{
    if cond {
        wrap(o, c, open, close);
    } else {
        assert(old(open)@ + when(cond, o@) =~= old(open)@);
        assert(when(cond, c@) + old(close)@ =~= old(close)@);
    }
}

fn format_tags(rp: &RunProps, open: &mut String, close: &mut String)
    ensures
        final(open)@ == old(open)@ + format_open(rp@),
        final(close)@ == format_close(rp@) + old(close)@,
{
    let mut o = String::new();
    let mut c = String::new();
    let ghost v = rp@;
    proof {
        let w = when(v.b, "<strong>"@);
        let x = when(v.b, "</strong>"@);
        assert(Seq::<char>::empty() + w =~= w);
        assert(x + Seq::<char>::empty() =~= x);
    }
    wrap_if(rp.b, "<strong>", "</strong>", &mut o, &mut c);
    wrap_if(rp.i, "<em>", "</em>", &mut o, &mut c);
    wrap_if(rp.u, "<u>", "</u>", &mut o, &mut c);
    wrap_if(rp.strike, "<s>", "</s>", &mut o, &mut c);
    wrap_if(rp.vert == 1, "<sup>", "</sup>", &mut o, &mut c);
    wrap_if(rp.vert == -1, "<sub>", "</sub>", &mut o, &mut c);
    open.append(o.as_str());
    c.append(close.as_str());
    *close = c;
}

pub fn build_run_tags(rp: &RunProps, open: &mut String, close: &mut String)
    ensures
        final(open)@ == old(open)@ + run_open_tags(rp@),
        final(close)@ == run_close_tags(rp@) + old(close)@,
{
    let ghost o0 = open@;
    let ghost c0 = close@;
    let ghost v = rp@;
    format_tags(rp, open, close);
    let css = run_css_string(rp);
    let ghost o6 = open@;
    let ghost c6 = close@;
    if !css.as_str().is_empty() {
        open.append("<span style=\"");
        open.append(css.as_str());
        open.append("\">");
        let mut nc = owned("</span>");
        nc.append(close.as_str());
        *close = nc;
    }
    assert(open@ =~= o6 + when(run_css(v).len() > 0, "<span style=\""@ + run_css(v) + "\">"@));
    assert(close@ =~= when(run_css(v).len() > 0, "</span>"@) + c6);
}

/// A table key made of two 32-bit numbers.
pub open spec fn pair_key_spec(a: i32, b: i32) -> u64 {
    ((a as u32 as u64) * 0x1_0000_0000 + (b as u32 as u64)) as u64
}

pub fn pair_key(a: i32, b: i32) -> (k: u64)
    ensures
        k == pair_key_spec(a, b),
{
    let x = a as u32 as u64;
    let y = b as u32 as u64;
    assert((x << 32u64) | y == x * 0x1_0000_0000 + y) by (bit_vector)
        requires x < 0x1_0000_0000, y < 0x1_0000_0000;
    (x << 32u64) | y
}

/// `s` ends with `suffix` (compared as bytes).
pub fn ends_with(s: &str, suffix: &str) -> (r: bool)
    ensures
        r == (suffix.spec_bytes().len() <= s.spec_bytes().len() && s.spec_bytes().subrange(
            s.spec_bytes().len() - suffix.spec_bytes().len(),
            s.spec_bytes().len() as int,
        ) == suffix.spec_bytes()),
{
    let a = s.as_bytes();
    let b = suffix.as_bytes();
    if b.len() > a.len() {
        return false;
    }
    let tail = vstd::slice::slice_subrange(a, a.len() - b.len(), a.len());
    crate::text::bytes_eq(tail, b)
}

/// The heading level that a paragraph style id `HeadingN` (N in 1..=6) stands for, else 0.
pub open spec fn heading_of_id(b: Seq<u8>) -> i32 {
    if b.len() == 8 && b.take(7) == "Heading"@.map_values(|c: char| c as u8) && 0x31 <= b[7] <= 0x36 {
        (b[7] - 0x30) as i32
    } else {
        0
    }
}

pub fn heading_level_of_id(id: &str) -> (r: i32)
    ensures
        r == heading_of_id(id.spec_bytes()),
{
    let b = id.as_bytes();
    if b.len() != 8 {
        return 0;
    }
    let pre = vstd::slice::slice_subrange(b, 0, 7);
    let want: &[u8] = &[0x48u8, 0x65, 0x61, 0x64, 0x69, 0x6E, 0x67];
    proof {
        reveal_strlit("Heading");
        assert("Heading"@.map_values(|c: char| c as u8) =~= want@);
        assert(b@.take(7) =~= pre@);
    }
    if crate::text::bytes_eq(pre, want) && 0x31 <= b[7] && b[7] <= 0x36 {
        (b[7] - 0x30) as i32
    } else {
        0
    }
}

/// The heading level that a (lower-cased) style name stands for: "title" is 1, "heading N" is N
/// (N in 1..=6), anything else 0.
pub open spec fn heading_of_name(nm: Seq<char>) -> i32 {
    if nm == "title"@ {
        1
    } else if nm.len() == 9 && nm.take(8) == "heading "@ && '1' <= nm[8] <= '6' {
        (nm[8] as u32 - 48) as i32
    } else {
        0
    }
}

pub fn heading_level_of_name(nm: &str) -> (r: i32)
    ensures
        r == heading_of_name(nm@),
{
    if str_eq(nm, "title") {
        return 1;
    }
    let mut k: usize = 0;
    let mut last: char = ' ';
    let mut prefix = String::new();
    for c in it: nm.chars()
        invariant
            it.seq() == nm@,
            k == if it.index() < 9 { it.index() as usize } else { 9usize },
            prefix@ == nm@.take(if it.index() < 8 { it.index() as int } else { 8 }),
            it.index() >= 9 ==> last == nm@[8],
    {
        assert(c == nm@[it.index() as int]);
        let ghost i = it.index();
        if k < 8 {
            push_char(&mut prefix, c);
            assert(nm@.take(i + 1) =~= nm@.take(i as int).push(c));
        } else if k == 8 {
            last = c;
        }
        if k < 9 {
            k += 1;
        }
    }
    let n = nm.unicode_len();
    if n == 9 && str_eq(prefix.as_str(), "heading ") && '1' <= last && last <= '6' {
        (last as u32 - 48) as i32
    } else {
        0
    }
}

pub struct ParaProps {
    pub heading: i32,
    pub align: &'static str,
    pub num_id: i32,
    pub ilvl: i32,
    pub rtl: bool,
    pub style_id: String,
    pub css: String,
}

impl ParaProps {
    pub fn new() -> (p: Self)
        ensures
            p.heading == 0 && p.num_id == -1 && p.ilvl == 0 && !p.rtl,
            p.align@.len() == 0 && p.style_id@.len() == 0 && p.css@.len() == 0,
    {
        proof {
            reveal_strlit("");
        }
        ParaProps {
            heading: 0,
            align: "",
            num_id: -1,
            ilvl: 0,
            rtl: false,
            style_id: String::new(),
            css: String::new(),
        }
    }
}

pub struct CellData {
    pub html: String,
    pub css: String,
    pub colspan: i32,
    pub vmerge: i32,
}

pub struct RowData {
    pub cells: Vec<CellData>,
    pub header: bool,
}

pub struct Field {
    pub instr: String,
    pub collecting: bool,
    pub open: bool,
}

pub struct OpenList {
    pub tag: &'static str,
    pub li_open: bool,
}

#[derive(Clone, Copy)]
pub struct StyleNum {
    pub num_id: i32,
    pub ilvl: i32,
}

pub(crate) struct Converter<'a> {
    pub(crate) opts: &'a ConvertOptions,
    pub(crate) zip: ZipArchive<'a>,
    pub(crate) base_dir: String,
    pub(crate) rels: StrMap<Relationship>,
    pub(crate) heading_by_style: StrMap<i32>,
    pub(crate) style_num: StrMap<StyleNum>,
    pub(crate) char_style: StrMap<RunProps>,
    pub(crate) num_to_abstract: IntMap<i32>,
    pub(crate) abstract_fmt: IntMap<String>,
    pub(crate) abstract_start: IntMap<i32>,
    pub(crate) num_fmt_override: IntMap<String>,
    pub(crate) num_start_override: IntMap<i32>,
    pub(crate) list_emitted: IntMap<i32>,
    pub(crate) title: String,
    pub(crate) list_stack: Vec<OpenList>,
    pub(crate) fields: Vec<Field>,
    pub(crate) fn_order: Vec<String>,
    pub(crate) en_order: Vec<String>,
    pub(crate) out: String,
}

impl<'a> Converter<'a> {
    pub(crate) open spec fn wf(&self) -> bool {
        &&& self.rels.wf()
        &&& self.heading_by_style.wf()
        &&& self.style_num.wf()
        &&& self.char_style.wf()
        &&& self.num_to_abstract.wf()
        &&& self.abstract_fmt.wf()
        &&& self.abstract_start.wf()
        &&& self.num_fmt_override.wf()
        &&& self.num_start_override.wf()
        &&& self.list_emitted.wf()
    }
}

} // verus!
