//! The converter's passes: lookup tables, lists, document traversal, notes, images, tables.
use vstd::prelude::*;
use crate::docx::{
    Converter, Relationship, RunProps, StyleNum, ParaProps, CellData, RowData, Field, OpenList,
    ConvertOptions, MAX_DEPTH, apply_run_prop, build_run_tags, decode_attr, ends_with,
    heading_level_of_id, heading_level_of_name, hyperlink_from_instr, list_key, list_key_spec, map_align,
    mime_for_path, pair_key, pair_key_spec, resolve_zip_path, sv_to_hex, sv_to_int, toggle_on, append_pt,
    strings_view, RunPropsView, int_value, plain_run, run_prop_applied, heading_of_id, heading_of_name,
    align_of, pt_decl, is_on,
};
use crate::text::{lower_text, lemma_extends};
use crate::htmlutil::{append_escaped_attr, append_escaped_html, base64_encode, push_char};
use crate::text::{append_decimal, append_hex_upper, append_signed, owned, str_eq, to_lower, signed_decimal};
use crate::xml::{Event, XmlParser, XmlState, progressed, xml_step, state_rank, attr_lookup, xml_decode, skip_from};
use crate::docx::resolved_path;
use crate::zip::lossy_text;
use vstd::utf8::encode_utf8;
use vstd::string::StringSliceAdditionalSpecFns;
use crate::zip::{string_from_utf8_lossy, zip_entries, ZipArchive, part_data, first_named, EntryView};
use crate::table::{StrMap, IntMap};
use crate::htmlutil::{escape_html, escape_attr};
use crate::text::{hex_upper, decimal};
use crate::docx::{hex_or_zero, hyperlink_target, mime_of_ext, after_last_dot};
use crate::htmlutil::base64_spec;
use crate::grid::{append_table_html, table_html, rows_view, row_view, cell_view, RowView};
use crate::walk::{
    DocState, Env, doc_state, env_of, written, lists_closed, paragraph_opened, fld_char_done, instr_text_done,
    sym_done, note_ref_done, blocks_walk, block_child_walk, paragraph_children, paragraph_walk, inline_walk,
    alternate_inline_walk, inline_children_walk, run_walk, run_element_walk, run_children_walk,
    alternate_run_walk, drawing_content, drawing_walk, table_walk, rows_walk, row_walk, row_header_walk,
    cell_children, cell_walk, links_closed, with_style_numbering, plain_paragraph, field_links_closed,
    body_walk, body_done, notes_walk, notes_done, notes_rels, fresh_state, no_styles, no_numbering,
    package_env, converted_body, main_dir, main_name,
};

verus! {

broadcast use vstd::string::group_string_axioms, crate::text::lemma_prefix_trans;

/// The parser's state before the first event.
pub open spec fn start_state() -> XmlState {
    XmlState { pos: 0, pending: false, name: Seq::empty(), text: Seq::empty(), attrs: Seq::empty() }
}

/// The bytes `a` end with the bytes `suf`.
pub open spec fn bytes_end_with(a: Seq<u8>, suf: Seq<u8>) -> bool {
    suf.len() <= a.len() && a.subrange(a.len() - suf.len(), a.len() as int) == suf
}

/// Among the events of the relationship part `b` from state `st` on, the first `Relationship`
/// element whose `Type` ends with "/officeDocument": the part path its `Target` names.
pub open spec fn office_document(b: Seq<u8>, st: XmlState) -> Option<Seq<char>>
    decreases state_rank(b, st),
{
    let (ev, next) = xml_step(b, st);
    if ev == Event::Eof || state_rank(b, next) >= state_rank(b, st) || state_rank(b, next) < 0 {
        None
    } else if ev == Event::Start && next.name == "Relationship"@ && bytes_end_with(
        encode_utf8(attr_lookup(next.attrs, "Type"@)),
        encode_utf8("/officeDocument"@),
    ) {
        Some(resolved_path(""@, xml_decode(encode_utf8(attr_lookup(next.attrs, "Target"@)))))
    } else {
        office_document(b, next)
    }
}

/// The character data of the events from `st` on, after `acc`, up to the first End or the end of
/// the input.
pub open spec fn text_until_end(b: Seq<u8>, st: XmlState, acc: Seq<char>) -> Seq<char>
    decreases state_rank(b, st),
{
    let (ev, next) = xml_step(b, st);
    if ev == Event::Eof || ev == Event::End || state_rank(b, next) >= state_rank(b, st) || state_rank(b, next) < 0 {
        acc
    } else if ev == Event::Text {
        text_until_end(b, next, acc + next.text)
    } else {
        text_until_end(b, next, acc)
    }
}

/// The title that the first `dc:title` element among the events from `st` on holds, decoded.
pub open spec fn title_from(b: Seq<u8>, st: XmlState) -> Option<Seq<char>>
    decreases state_rank(b, st),
{
    let (ev, next) = xml_step(b, st);
    if ev == Event::Eof || state_rank(b, next) >= state_rank(b, st) || state_rank(b, next) < 0 {
        None
    } else if ev == Event::Start && next.name == "dc:title"@ {
        Some(xml_decode(encode_utf8(text_until_end(b, next, Seq::empty()))))
    } else {
        title_from(b, next)
    }
}

/// The document title from `docProps/core.xml`, or the empty text.
pub open spec fn doc_title(d: Seq<u8>, listing: Seq<EntryView>) -> Seq<char> {
    match part_data(d, listing, "docProps/core.xml"@) {
        Some(buf) => match title_from(encode_utf8(lossy_text(buf)), start_state()) {
            Some(t) => t,
            None => Seq::empty(),
        },
        None => Seq::empty(),
    }
}

/// The path of the main document part: the target of the package's officeDocument relationship
/// in `_rels/.rels`, or `word/document.xml` when there is none.
pub open spec fn main_part_path(d: Seq<u8>, listing: Seq<EntryView>) -> Seq<char> {
    match part_data(d, listing, "_rels/.rels"@) {
        Some(buf) => match office_document(encode_utf8(lossy_text(buf)), start_state()) {
            Some(p) => p,
            None => "word/document.xml"@,
        },
        None => "word/document.xml"@,
    }
}

/// A relationship as plain values: its decoded target, and whether its target mode is External.
pub type RelView = (Seq<char>, bool);

/// The relationship table as a map from ids.
pub open spec fn rels_view(t: StrMap<Relationship>) -> Map<Seq<char>, RelView> {
    Map::new(
        |k: Seq<char>| t.get_spec(k) is Some,
        |k: Seq<char>| (t.get_spec(k)->0.target@, t.get_spec(k)->0.external),
    )
}

/// The relationships that the `Relationship` elements among the events from `st` on add to `m`:
/// each id maps to its decoded target and whether its target mode is External; an id seen
/// before keeps its first relationship.
pub open spec fn rels_from(b: Seq<u8>, st: XmlState, m: Map<Seq<char>, RelView>) -> Map<Seq<char>, RelView>
    decreases state_rank(b, st),
{
    let (ev, next) = xml_step(b, st);
    if ev == Event::Eof || state_rank(b, next) >= state_rank(b, st) || state_rank(b, next) < 0 {
        m
    } else if ev == Event::Start && next.name == "Relationship"@ {
        let id = attr_lookup(next.attrs, "Id"@);
        let rel = (
            xml_decode(encode_utf8(attr_lookup(next.attrs, "Target"@))),
            attr_lookup(next.attrs, "TargetMode"@) == "External"@,
        );
        rels_from(b, next, if m.dom().contains(id) { m } else { m.insert(id, rel) })
    } else {
        rels_from(b, next, m)
    }
}

/// A table keyed by text, as a map.
pub open spec fn str_table<V>(t: StrMap<V>) -> Map<Seq<char>, V> {
    Map::new(|k: Seq<char>| t.get_spec(k) is Some, |k: Seq<char>| t.get_spec(k)->0)
}

/// The character styles as a map from style ids to run properties.
pub open spec fn char_table(t: StrMap<RunProps>) -> Map<Seq<char>, RunPropsView> {
    Map::new(|k: Seq<char>| t.get_spec(k) is Some, |k: Seq<char>| t.get_spec(k)->0@)
}

/// What the styles part fills: heading levels, list numbering and run properties, by style id.
pub type StyleTables = (Map<Seq<char>, i32>, Map<Seq<char>, StyleNum>, Map<Seq<char>, RunPropsView>);

/// The converter's style tables.
pub(crate) open spec fn style_tables(c: Converter) -> StyleTables {
    (str_table(c.heading_by_style), str_table(c.style_num), char_table(c.char_style))
}

/// The list numbering of style `id` before a `w:numId` or `w:ilvl` sets a part of it.
pub open spec fn style_num_of(m: Map<Seq<char>, StyleNum>, id: Seq<char>) -> StyleNum {
    if m.dom().contains(id) {
        m[id]
    } else {
        StyleNum { num_id: -1i32, ilvl: 0i32 }
    }
}

/// What an element `n` with attributes `attrs` inside the definition of style `id` of type `ty`
/// sets: for a paragraph style, its heading level from its name or outline level, or its list
/// numbering; for a character style, a run property.
pub open spec fn style_detail(
    t: StyleTables,
    id: Seq<char>,
    ty: Seq<char>,
    n: Seq<char>,
    attrs: Seq<(Seq<char>, Seq<char>)>,
) -> StyleTables {
    let val = attr_lookup(attrs, "w:val"@);
    if ty == "paragraph"@ {
        if n == "w:name"@ {
            let lvl = heading_of_name(lower_text(val));
            if lvl != 0 {
                (t.0.insert(id, lvl), t.1, t.2)
            } else {
                t
            }
        } else if n == "w:outlineLvl"@ {
            let lvl = int_value(encode_utf8(val));
            if 0 <= lvl <= 5 && !t.0.dom().contains(id) {
                (t.0.insert(id, (lvl + 1) as i32), t.1, t.2)
            } else {
                t
            }
        } else if n == "w:numId"@ {
            (t.0, t.1.insert(id, StyleNum { num_id: int_value(encode_utf8(val)), ..style_num_of(t.1, id) }), t.2)
        } else if n == "w:ilvl"@ {
            (t.0, t.1.insert(id, StyleNum { ilvl: int_value(encode_utf8(val)), ..style_num_of(t.1, id) }), t.2)
        } else {
            t
        }
    } else if ty == "character"@ {
        let rp = if t.2.dom().contains(id) {
            t.2[id]
        } else {
            plain_run()
        };
        (t.0, t.1, t.2.insert(id, run_prop_applied(rp, n, val)))
    } else {
        t
    }
}

/// The style tables after the events from `st` on, inside the definition of style `id` of type
/// `ty` (no style when `id` is empty): a `w:style` element starts a definition (a paragraph style
/// named HeadingN gets level N), its end leaves it, and elements inside it set its details.
pub open spec fn styles_from(b: Seq<u8>, st: XmlState, id: Seq<char>, ty: Seq<char>, t: StyleTables) -> StyleTables
    decreases state_rank(b, st),
{
    let (ev, next) = xml_step(b, st);
    if ev == Event::Eof || state_rank(b, next) >= state_rank(b, st) || state_rank(b, next) < 0 {
        t
    } else if ev == Event::End {
        styles_from(b, next, if next.name == "w:style"@ { Seq::empty() } else { id }, ty, t)
    } else if ev == Event::Start && next.name == "w:style"@ {
        let nid = attr_lookup(next.attrs, "w:styleId"@);
        let nty = attr_lookup(next.attrs, "w:type"@);
        let lvl = heading_of_id(encode_utf8(nid));
        styles_from(b, next, nid, nty, if nty == "paragraph"@ && lvl != 0 { (t.0.insert(nid, lvl), t.1, t.2) } else { t })
    } else if ev == Event::Start && id.len() > 0 {
        styles_from(b, next, id, ty, style_detail(t, id, ty, next.name, next.attrs))
    } else {
        styles_from(b, next, id, ty, t)
    }
}

/// A table keyed by integers, as a map.
pub open spec fn int_table<V>(t: IntMap<V>) -> Map<u64, V> {
    Map::new(|k: u64| t.get_spec(k) is Some, |k: u64| t.get_spec(k)->0)
}

/// A table of texts keyed by integers, as a map.
pub open spec fn text_table(t: IntMap<String>) -> Map<u64, Seq<char>> {
    Map::new(|k: u64| t.get_spec(k) is Some, |k: u64| t.get_spec(k)->0@)
}

/// What the numbering part fills: the abstract numbering of each list; the number format and
/// the start of each level of an abstract numbering; and the same two overridden for a list.
pub type NumberingTables = (
    Map<u64, i32>,
    Map<u64, Seq<char>>,
    Map<u64, i32>,
    Map<u64, Seq<char>>,
    Map<u64, i32>,
);

/// The converter's numbering tables.
pub(crate) open spec fn numbering_tables(c: Converter) -> NumberingTables {
    (
        int_table(c.num_to_abstract),
        text_table(c.abstract_fmt),
        int_table(c.abstract_start),
        text_table(c.num_fmt_override),
        int_table(c.num_start_override),
    )
}

/// Where the numbering part is: inside abstract numbering `ab`, level `lvl`, list `num`
/// (-1 where outside one).
pub type NumberingPlace = (i32, i32, i32);

/// What a start tag `n` with attributes `attrs` does at `at`: enter an abstract numbering, a
/// level or a list, or set a level's number format, its start, or a list's abstract numbering.
pub open spec fn numbering_start(
    t: NumberingTables,
    at: NumberingPlace,
    n: Seq<char>,
    attrs: Seq<(Seq<char>, Seq<char>)>,
) -> (NumberingPlace, NumberingTables) {
    let (ab, lvl, num) = at;
    let val = attr_lookup(attrs, "w:val"@);
    if n == "w:abstractNum"@ {
        ((int_value(encode_utf8(attr_lookup(attrs, "w:abstractNumId"@))), lvl, num), t)
    } else if n == "w:lvl"@ || n == "w:lvlOverride"@ {
        ((ab, int_value(encode_utf8(attr_lookup(attrs, "w:ilvl"@))), num), t)
    } else if n == "w:numFmt"@ && lvl >= 0 {
        (at, if ab >= 0 {
            (t.0, t.1.insert(pair_key_spec(ab, lvl), val), t.2, t.3, t.4)
        } else if num >= 0 {
            (t.0, t.1, t.2, t.3.insert(pair_key_spec(num, lvl), val), t.4)
        } else {
            t
        })
    } else if (n == "w:start"@ || n == "w:startOverride"@) && lvl >= 0 {
        (at, if ab >= 0 {
            (t.0, t.1, t.2.insert(pair_key_spec(ab, lvl), int_value(encode_utf8(val))), t.3, t.4)
        } else if num >= 0 {
            (t.0, t.1, t.2, t.3, t.4.insert(pair_key_spec(num, lvl), int_value(encode_utf8(val))))
        } else {
            t
        })
    } else if n == "w:num"@ {
        ((ab, lvl, int_value(encode_utf8(attr_lookup(attrs, "w:numId"@)))), t)
    } else if n == "w:abstractNumId"@ && num >= 0 {
        (at, (t.0.insert(num as u32 as u64, int_value(encode_utf8(val))), t.1, t.2, t.3, t.4))
    } else {
        (at, t)
    }
}

/// Where the numbering part is after the end tag `n` at `at`.
pub open spec fn numbering_end(at: NumberingPlace, n: Seq<char>) -> NumberingPlace {
    if n == "w:abstractNum"@ {
        (-1i32, -1i32, at.2)
    } else if n == "w:lvl"@ || n == "w:lvlOverride"@ {
        (at.0, -1i32, at.2)
    } else if n == "w:num"@ {
        (at.0, at.1, -1i32)
    } else {
        at
    }
}

/// The numbering tables after the events from `st` on, starting at `at`.
pub open spec fn numbering_from(b: Seq<u8>, st: XmlState, at: NumberingPlace, t: NumberingTables) -> NumberingTables
    decreases state_rank(b, st),
{
    let (ev, next) = xml_step(b, st);
    if ev == Event::Eof || state_rank(b, next) >= state_rank(b, st) || state_rank(b, next) < 0 {
        t
    } else if ev == Event::Start {
        let r = numbering_start(t, at, next.name, next.attrs);
        numbering_from(b, next, r.0, r.1)
    } else if ev == Event::End {
        numbering_from(b, next, numbering_end(at, next.name), t)
    } else {
        numbering_from(b, next, at, t)
    }
}

/// The attributes of a start tag, as (name, value) pairs.
pub type Attrs = Seq<(Seq<char>, Seq<char>)>;

/// The events from `st` on, inside an element open `depth` levels deep, up to the end tag that
/// closes it (or the end of the input): each start tag in it applies `apply` to `p`. The result,
/// and the parser's state after that end tag.
pub open spec fn element_walk<P>(
    b: Seq<u8>,
    st: XmlState,
    depth: int,
    p: P,
    apply: spec_fn(P, Seq<char>, Attrs) -> P,
) -> (P, XmlState)
    decreases state_rank(b, st),
{
    if depth <= 0 {
        (p, st)
    } else {
        let (ev, next) = xml_step(b, st);
        if ev == Event::Eof || state_rank(b, next) >= state_rank(b, st) || state_rank(b, next) < 0 {
            (p, next)
        } else if ev == Event::Start {
            element_walk(b, next, depth + 1, apply(p, next.name, next.attrs), apply)
        } else if ev == Event::End {
            element_walk(b, next, depth - 1, p, apply)
        } else {
            element_walk(b, next, depth, p, apply)
        }
    }
}

/// Paragraph properties as plain values.
pub struct ParaPropsView {
    pub heading: i32,
    pub align: Seq<char>,
    pub num_id: i32,
    pub ilvl: i32,
    pub rtl: bool,
    pub style_id: Seq<char>,
    pub css: Seq<char>,
}

impl View for ParaProps {
    type V = ParaPropsView;

    open spec fn view(&self) -> ParaPropsView {
        ParaPropsView {
            heading: self.heading,
            align: self.align@,
            num_id: self.num_id,
            ilvl: self.ilvl,
            rtl: self.rtl,
            style_id: self.style_id@,
            css: self.css@,
        }
    }
}

/// The CSS declaration of a background fill, unless the fill is empty or "auto".
pub open spec fn fill_css(fill: Seq<char>) -> Seq<char> {
    if fill.len() > 0 && fill != "auto"@ {
        "background-color:#"@ + fill + ";"@
    } else {
        Seq::empty()
    }
}

/// What a paragraph property element `n` with attributes `a` sets, with the heading levels of
/// the styles in `headings`: its style (and the style's heading level), alignment, list level,
/// list, indentation, shading or direction.
pub open spec fn para_prop_applied(headings: Map<Seq<char>, i32>, p: ParaPropsView, n: Seq<char>, a: Attrs) -> ParaPropsView {
    let val = attr_lookup(a, "w:val"@);
    if n == "w:pStyle"@ {
        ParaPropsView {
            style_id: val,
            heading: if headings.dom().contains(val) { headings[val] } else { p.heading },
            ..p
        }
    } else if n == "w:jc"@ {
        ParaPropsView { align: align_of(val), ..p }
    } else if n == "w:ilvl"@ {
        ParaPropsView { ilvl: int_value(encode_utf8(val)), ..p }
    } else if n == "w:numId"@ {
        ParaPropsView { num_id: int_value(encode_utf8(val)), ..p }
    } else if n == "w:ind"@ {
        let left = if attr_lookup(a, "w:left"@).len() == 0 {
            attr_lookup(a, "w:start"@)
        } else {
            attr_lookup(a, "w:left"@)
        };
        let hanging = int_value(encode_utf8(attr_lookup(a, "w:hanging"@)));
        let first_line = int_value(encode_utf8(attr_lookup(a, "w:firstLine"@)));
        ParaPropsView {
            css: p.css + pt_decl("margin-left"@, int_value(encode_utf8(left)) as int) + if hanging != 0 {
                pt_decl("text-indent"@, 0i32.wrapping_sub(hanging) as int)
            } else if first_line != 0 {
                pt_decl("text-indent"@, first_line as int)
            } else {
                Seq::empty()
            },
            ..p
        }
    } else if n == "w:shd"@ {
        ParaPropsView { css: p.css + fill_css(attr_lookup(a, "w:fill"@)), ..p }
    } else if n == "w:bidi"@ {
        ParaPropsView { rtl: is_on(val), ..p }
    } else {
        p
    }
}

/// `para_prop_applied` with the heading levels `headings`, as a function.
pub open spec fn para_step(headings: Map<Seq<char>, i32>) -> spec_fn(ParaPropsView, Seq<char>, Attrs) -> ParaPropsView {
    |p: ParaPropsView, n: Seq<char>, a: Attrs| para_prop_applied(headings, p, n, a)
}

/// What a run property element `n` with attributes `a` sets: a character style replaces the
/// properties with its own (when `styles` has it), another element sets one property.
pub open spec fn run_prop_step_of(styles: Map<Seq<char>, RunPropsView>, p: RunPropsView, n: Seq<char>, a: Attrs) -> RunPropsView {
    let val = attr_lookup(a, "w:val"@);
    if n == "w:rStyle"@ {
        if styles.dom().contains(val) {
            styles[val]
        } else {
            p
        }
    } else {
        run_prop_applied(p, n, val)
    }
}

/// `run_prop_step_of` with the character styles `styles`, as a function.
pub open spec fn run_step(styles: Map<Seq<char>, RunPropsView>) -> spec_fn(RunPropsView, Seq<char>, Attrs) -> RunPropsView {
    |p: RunPropsView, n: Seq<char>, a: Attrs| run_prop_step_of(styles, p, n, a)
}

/// A table cell's properties as plain values: its column span, its vertical merge (1 starts
/// one, 2 continues one) and its CSS.
pub type CellPropsView = (i32, i32, Seq<char>);

/// What a cell property element `n` with attributes `a` sets: the column span (at least 1),
/// the vertical merge, the shading or the vertical alignment.
pub open spec fn cell_prop_applied(p: CellPropsView, n: Seq<char>, a: Attrs) -> CellPropsView {
    let val = attr_lookup(a, "w:val"@);
    if n == "w:gridSpan"@ {
        let span = int_value(encode_utf8(val));
        (if span < 1 { 1i32 } else { span }, p.1, p.2)
    } else if n == "w:vMerge"@ {
        (p.0, if val == "restart"@ { 1i32 } else { 2i32 }, p.2)
    } else if n == "w:shd"@ {
        (p.0, p.1, p.2 + fill_css(attr_lookup(a, "w:fill"@)))
    } else if n == "w:vAlign"@ {
        (p.0, p.1, p.2 + if val == "center"@ {
            "vertical-align:middle;"@
        } else if val == "bottom"@ {
            "vertical-align:bottom;"@
        } else {
            Seq::empty()
        })
    } else {
        p
    }
}

/// `cell_prop_applied` as a function.
pub open spec fn cell_step() -> spec_fn(CellPropsView, Seq<char>, Attrs) -> CellPropsView {
    |p: CellPropsView, n: Seq<char>, a: Attrs| cell_prop_applied(p, n, a)
}

/// A cell's properties as plain values.
pub open spec fn cell_props(c: CellData) -> CellPropsView {
    (c.colspan, c.vmerge, c.css@)
}

/// Appends the CSS of a background fill (nothing for an empty fill or "auto").
pub fn append_fill(css: &mut String, fill: &str)
    ensures
        final(css)@ == old(css)@ + fill_css(fill@),
{
    if !fill.is_empty() && !str_eq(fill, "auto") {
        css.append("background-color:#");
        css.append(fill);
        push_char(css, ';');
        proof {
            reveal_strlit(";");
        }
    }
    assert(css@ =~= old(css)@ + fill_css(fill@));
}

/// The character data of the events from `st` on, after `acc`, up to the first End (or the end
/// of the input), each piece passed through `f`; and the parser's state after that End.
pub open spec fn text_walk(b: Seq<u8>, st: XmlState, acc: Seq<char>, decode: bool) -> (Seq<char>, XmlState)
    decreases state_rank(b, st),
{
    let (ev, next) = xml_step(b, st);
    if ev == Event::Eof || ev == Event::End || state_rank(b, next) >= state_rank(b, st) || state_rank(b, next) < 0 {
        (acc, next)
    } else if ev == Event::Text {
        text_walk(b, next, acc + if decode { xml_decode(encode_utf8(next.text)) } else { next.text }, decode)
    } else {
        text_walk(b, next, acc, decode)
    }
}

/// The converter's fields other than its output, open fields and notes are the same in `a` and `b`.
pub(crate) open spec fn same_but_fields(a: Converter, b: Converter) -> bool {
    &&& same_setup(a, b)
    &&& a.list_stack == b.list_stack
    &&& a.fn_order == b.fn_order
    &&& a.en_order == b.en_order
}

/// An open field as plain values: its instruction, whether its instruction is still being
/// collected, and whether it opened a link.
pub type FieldView = (Seq<char>, bool, bool);

pub open spec fn fields_view(fs: Seq<Field>) -> Seq<FieldView> {
    fs.map_values(|f: Field| (f.instr@, f.collecting, f.open))
}

/// What a field character of type `ty` does to the open fields `fs`, and what it writes: "begin"
/// opens a field; "separate" ends the collection of its instruction and opens a link when the
/// instruction names one; "end" closes the field and its link.
pub open spec fn fld_char_effect(fs: Seq<FieldView>, ty: Seq<char>) -> (Seq<FieldView>, Seq<char>) {
    if ty == "begin"@ {
        (fs.push((Seq::empty(), true, false)), Seq::empty())
    } else if ty == "separate"@ {
        if fs.len() > 0 && fs.last().1 {
            let href = hyperlink_target(encode_utf8(fs.last().0));
            (
                fs.drop_last().push((fs.last().0, false, href.len() > 0)),
                if href.len() > 0 {
                    "<a href=\""@ + escape_attr(href) + "\">"@
                } else {
                    Seq::empty()
                },
            )
        } else {
            (fs, Seq::empty())
        }
    } else if ty == "end"@ {
        if fs.len() > 0 {
            (fs.drop_last(), if fs.last().2 { "</a>"@ } else { Seq::empty() })
        } else {
            (fs, Seq::empty())
        }
    } else {
        (fs, Seq::empty())
    }
}

/// The HTML of a symbol with code point `cp` in font `font`: a character reference, in a span
/// with the font when there is one; nothing for code point 0.
pub open spec fn sym_html(font: Seq<char>, cp: u32) -> Seq<char> {
    if cp == 0 {
        Seq::empty()
    } else if font.len() > 0 {
        "<span style=\"font-family:'"@ + escape_attr(font) + "'\">"@ + "&#x"@ + hex_upper(cp as nat) + ";"@
            + "</span>"@
    } else {
        "&#x"@ + hex_upper(cp as nat) + ";"@
    }
}

/// The HTML of the reference to note `id`, numbered `num`: a link to the note (footnotes "fn",
/// endnotes "en"), superscript unless the run is superscript already.
pub open spec fn note_ref_html(footnote: bool, id: Seq<char>, num: nat, already_super: bool) -> Seq<char> {
    let prefix = if footnote { "fn"@ } else { "en"@ };
    (if already_super { Seq::empty() } else { "<sup>"@ }) + "<a href=\"#"@ + prefix + "-"@ + id + "\" id=\""@
        + prefix + "ref-"@ + id + "\">"@ + decimal(num) + "</a>"@ + (if already_super {
        Seq::empty()
    } else {
        "</sup>"@
    })
}

/// The index of the first `id` in `s` (the length of `s` when there is none).
pub open spec fn position_of(s: Seq<Seq<char>>, id: Seq<char>) -> int
    decreases s.len(),
{
    if s.len() == 0 || s[0] == id {
        0
    } else {
        1 + position_of(s.drop_first(), id)
    }
}

proof fn lemma_position_of(s: Seq<Seq<char>>, id: Seq<char>, k: int)
    requires
        0 <= k < s.len(),
        s[k] == id,
        forall|j: int| 0 <= j < k ==> s[j] != id,
    ensures
        position_of(s, id) == k,
    decreases s.len(),
{
    if k > 0 {
        assert(s[0] != id);
        lemma_position_of(s.drop_first(), id, k - 1);
    }
}

/// The order of notes after a reference to `id`: `id` added at the end when it is new.
pub open spec fn order_with(order: Seq<Seq<char>>, id: Seq<char>) -> Seq<Seq<char>> {
    if order.contains(id) {
        order
    } else {
        order.push(id)
    }
}

/// Appends the reference to note `id` numbered `num`.
#[verifier::rlimit(40)]
fn append_note_ref(out: &mut String, footnote: bool, id: &str, num: usize, already_super: bool)
    ensures
        final(out)@ == old(out)@ + note_ref_html(footnote, id@, num as nat, already_super),
{
    let prefix = if footnote { "fn" } else { "en" };
    if !already_super {
        out.append("<sup>");
    }
    out.append("<a href=\"#");
    out.append(prefix);
    push_char(out, '-');
    out.append(id);
    out.append("\" id=\"");
    out.append(prefix);
    out.append("ref-");
    out.append(id);
    out.append("\">");
    append_decimal(out, num as u64);
    out.append("</a>");
    if !already_super {
        out.append("</sup>");
    }
    proof {
        reveal_strlit("-");
        reveal_strlit("fn");
        reveal_strlit("en");
        assert(out@ =~= old(out)@ + note_ref_html(footnote, id@, num as nat, already_super));
    }
}

/// The open lists once an item opens in the innermost one.
pub open spec fn item_opened(ls: Seq<(Seq<char>, bool)>) -> Seq<(Seq<char>, bool)> {
    if ls.len() > 0 {
        ls.drop_last().push((ls.last().0, true))
    } else {
        ls
    }
}

/// The HTML that opens an item in the innermost open list, closing the item open there.
pub open spec fn item_html(ls: Seq<(Seq<char>, bool)>) -> Seq<char> {
    if ls.len() > 0 {
        (if ls.last().1 {
            "</li>"@
        } else {
            Seq::empty()
        }) + "<li>"@
    } else {
        Seq::empty()
    }
}

/// The key of the item count of level `l` of list `num_id`.
pub open spec fn level_key(num_id: i32, l: int) -> u64 {
    list_key_spec(num_id, l as i32)
}

/// The item counts after an item of level `ilvl` of list `num_id`, `m` before: one more at its
/// own level, none at the deeper levels (to 8), the rest as in `m`.
pub open spec fn counts_after_item(m: Map<u64, i32>, num_id: i32, ilvl: i32) -> Map<u64, i32> {
    let own = list_key_spec(num_id, ilvl);
    let deeper = |k: u64| exists|l: int| ilvl < l <= 8 && k == #[trigger] level_key(num_id, l);
    Map::new(
        |k: u64| !deeper(k) && (k == own || m.dom().contains(k)),
        |k: u64| if k == own {
            (if m.dom().contains(k) {
                m[k]
            } else {
                0i32
            }).wrapping_add(1)
        } else {
            m[k]
        },
    )
}

/// The tag of a paragraph with heading level `heading` (0 for none).
pub open spec fn para_tag(heading: i32) -> Seq<char> {
    if heading > 0 {
        "h"@ + signed_decimal(heading as int)
    } else {
        "p"@
    }
}

/// The inline style of a paragraph: its alignment, then its own CSS.
pub open spec fn para_style(p: ParaPropsView) -> Seq<char> {
    (if p.align.len() > 0 {
        "text-align:"@ + p.align + ";"@
    } else {
        Seq::empty()
    }) + p.css
}

/// The start tag of a paragraph with properties `p`.
pub open spec fn para_open_html(p: ParaPropsView) -> Seq<char> {
    "<"@ + para_tag(p.heading) + (if p.rtl {
        " dir=\"rtl\""@
    } else {
        Seq::empty()
    }) + (if para_style(p).len() > 0 {
        " style=\""@ + para_style(p) + "\""@
    } else {
        Seq::empty()
    }) + ">"@
}

/// Appends the start tag of a paragraph with properties `pp`; returns its end tag.
#[verifier::rlimit(40)]
fn para_open(out: &mut String, pp: &ParaProps) -> (close: String)
    ensures
        final(out)@ == old(out)@ + para_open_html(pp@),
        close@ == "</"@ + para_tag(pp.heading) + ">"@,
{
    let mut tag = String::new();
    if pp.heading > 0 {
        push_char(&mut tag, 'h');
        append_signed(&mut tag, pp.heading as i64);
    } else {
        push_char(&mut tag, 'p');
    }
    proof {
        reveal_strlit("h");
        reveal_strlit("p");
        assert(tag@ =~= para_tag(pp.heading));
    }
    let mut style = String::new();
    if !pp.align.is_empty() {
        style.append("text-align:");
        style.append(pp.align);
        push_char(&mut style, ';');
    }
    style.append(pp.css.as_str());
    proof {
        reveal_strlit(";");
        assert(style@ =~= para_style(pp@));
    }
    push_char(out, '<');
    out.append(tag.as_str());
    if pp.rtl {
        out.append(" dir=\"rtl\"");
    }
    if !style.as_str().is_empty() {
        out.append(" style=\"");
        out.append(style.as_str());
        push_char(out, '"');
    }
    push_char(out, '>');
    proof {
        reveal_strlit("<");
        reveal_strlit(">");
        reveal_strlit("\"");
        assert(out@ =~= old(out)@ + para_open_html(pp@));
    }
    let mut close = owned("</");
    close.append(tag.as_str());
    push_char(&mut close, '>');
    proof {
        assert(close@ =~= "</"@ + para_tag(pp.heading) + ">"@);
    }
    close
}

/// The HTML of an image whose source is `src`, `cx` by `cy` EMU large (sizes shown in pixels
/// when both are positive).
pub open spec fn img_html(src: Seq<char>, cx: i32, cy: i32) -> Seq<char> {
    "<img src=\""@ + escape_attr(src) + "\" alt=\"\""@ + (if cx > 0 && cy > 0 {
        " width=\""@ + signed_decimal(cx as int / 9525) + "\""@ + " height=\""@ + signed_decimal(
            cy as int / 9525,
        ) + "\""@
    } else {
        Seq::empty()
    }) + ">"@
}

/// The source of an image part at `path` with contents `data`: a data URL.
pub open spec fn data_url(path: Seq<char>, data: Seq<u8>) -> Seq<char> {
    "data:"@ + mime_of_ext(lower_text(after_last_dot(path))) + ";base64,"@ + base64_spec(data)
}

/// Appends the HTML of an image with source `src`, `cx` by `cy` EMU large.
#[verifier::rlimit(40)]
fn append_img(out: &mut String, src: &str, cx: i32, cy: i32)
    ensures
        final(out)@ == old(out)@ + img_html(src@, cx, cy),
{
    out.append("<img src=\"");
    append_escaped_attr(src, out);
    out.append("\" alt=\"\"");
    let ghost o1 = out@;
    if cx > 0 && cy > 0 {
        out.append(" width=\"");
        append_signed(out, (cx / 9525) as i64);
        push_char(out, '"');
        out.append(" height=\"");
        append_signed(out, (cy / 9525) as i64);
        push_char(out, '"');
    }
    push_char(out, '>');
    proof {
        reveal_strlit("\"");
        reveal_strlit(">");
        assert(out@ =~= old(out)@ + img_html(src@, cx, cy));
    }
}

/// The HTML of the item of note `id` (prefix "fn" or "en") with its body from `bodies` (empty
/// when there is none) and a link back to its reference.
pub open spec fn note_item_html(footnote: bool, id: Seq<char>, bodies: Map<Seq<char>, Seq<char>>) -> Seq<char> {
    note_item_with(footnote, id, if bodies.dom().contains(id) {
        bodies[id]
    } else {
        Seq::empty()
    })
}

/// The HTML of the item of note `id` with body `body`.
pub open spec fn note_item_with(footnote: bool, id: Seq<char>, body: Seq<char>) -> Seq<char> {
    let prefix = if footnote { "fn"@ } else { "en"@ };
    "<li id=\""@ + prefix + "-"@ + id + "\">"@ + body + "<a href=\"#"@ + prefix + "ref-"@ + id
        + "\">&#8617;</a></li>"@
}

/// The HTML of the items of the first `n` notes of `ids`.
pub open spec fn note_items_html(footnote: bool, ids: Seq<Seq<char>>, bodies: Map<Seq<char>, Seq<char>>, n: int) -> Seq<char>
    decreases n,
{
    if n <= 0 {
        Seq::empty()
    } else {
        note_items_html(footnote, ids, bodies, n - 1) + note_item_html(footnote, ids[n - 1], bodies)
    }
}

/// The HTML of the notes section listing the notes `ids` in order, with bodies from `bodies`.
pub open spec fn notes_html(footnote: bool, ids: Seq<Seq<char>>, bodies: Map<Seq<char>, Seq<char>>) -> Seq<char> {
    "<hr><section class=\"footnotes\"><ol>"@ + note_items_html(footnote, ids, bodies, ids.len() as int)
        + "</ol></section>"@
}

/// Appends the item of note `id` with body `body` to a notes section.
#[verifier::rlimit(40)]
fn append_note_item(out: &mut String, footnote: bool, id: &str, body: &str)
    ensures
        final(out)@ == old(out)@ + note_item_with(footnote, id@, body@),
{
    let prefix = if footnote { "fn" } else { "en" };
    out.append("<li id=\"");
    out.append(prefix);
    push_char(out, '-');
    out.append(id);
    out.append("\">");
    out.append(body);
    out.append("<a href=\"#");
    out.append(prefix);
    out.append("ref-");
    out.append(id);
    out.append("\">&#8617;</a></li>");
    proof {
        reveal_strlit("-");
        reveal_strlit("fn");
        reveal_strlit("en");
        assert(out@ =~= old(out)@ + note_item_with(footnote, id@, body@));
    }
}

/// The note bodies of a table, as a map from note ids.
pub open spec fn note_bodies(t: StrMap<String>) -> Map<Seq<char>, Seq<char>> {
    Map::new(|k: Seq<char>| t.get_spec(k) is Some, |k: Seq<char>| t.get_spec(k)->0@)
}

/// Appends the notes section listing the notes `order`, with their bodies from `bodies`.
fn append_notes_list(out: &mut String, footnote: bool, order: &Vec<String>, bodies: &StrMap<String>)
    requires
        bodies.wf(),
    ensures
        final(out)@ == old(out)@ + notes_html(footnote, strings_view(order@), note_bodies(*bodies)),
{
    let ghost ov = strings_view(order@);
    let ghost bm = note_bodies(*bodies);
    out.append("<hr><section class=\"footnotes\"><ol>");
    let ghost o1 = out@;
    let mut i: usize = 0;
    proof {
        assert(o1 + note_items_html(footnote, ov, bm, 0) =~= o1);
    }
    while i < order.len()
        invariant
            bodies.wf(),
            i <= order@.len(),
            ov == strings_view(order@),
            bm == note_bodies(*bodies),
            out@ == o1 + note_items_html(footnote, ov, bm, i as int),
        decreases order@.len() - i,
    {
        let id = order[i].as_str();
        match bodies.get(id) {
            Some(body) => append_note_item(out, footnote, id, body.as_str()),
            None => append_note_item(out, footnote, id, ""),
        }
        proof {
            reveal_strlit("");
        }
        i += 1;
    }
    out.append("</ol></section>");
    assert(out@ =~= old(out)@ + notes_html(footnote, ov, bm));
}

/// The start tag of a link to `href` with tooltip `title` (nothing without a target).
pub open spec fn link_open(href: Seq<char>, title: Seq<char>) -> Seq<char> {
    if href.len() > 0 {
        "<a href=\""@ + escape_attr(href) + (if title.len() > 0 {
            "\" title=\""@ + escape_attr(title)
        } else {
            Seq::empty()
        }) + "\">"@
    } else {
        Seq::empty()
    }
}

/// The end tag of a link to `href` (nothing without a target).
pub open spec fn link_close(href: Seq<char>) -> Seq<char> {
    if href.len() > 0 {
        "</a>"@
    } else {
        Seq::empty()
    }
}

/// The target of a field instruction `instr` given as an attribute value.
pub open spec fn field_href(instr: Seq<char>) -> Seq<char> {
    hyperlink_target(encode_utf8(xml_decode(encode_utf8(instr))))
}

/// The anchor of a bookmark named `nm` (none for an empty name or "_GoBack").
pub open spec fn bookmark_html(nm: Seq<char>) -> Seq<char> {
    if nm.len() > 0 && nm != "_GoBack"@ {
        "<a id=\""@ + escape_attr(xml_decode(encode_utf8(nm))) + "\"></a>"@
    } else {
        Seq::empty()
    }
}

/// The element names a run tells apart are different texts.
proof fn lemma_run_names()
    ensures
        "mc:AlternateContent"@.len() == 19 && "mc:AlternateContent"@[0] == 'm',
        "mc:Fallback"@.len() == 11 && "mc:Fallback"@[0] == 'm',
        "w:rPr"@.len() == 5 && "w:rPr"@[0] == 'w' && "w:rPr"@[2] == 'r',
        "w:fldChar"@.len() == 9 && "w:fldChar"@[0] == 'w' && "w:fldChar"@[2] == 'f',
        "w:instrText"@.len() == 11 && "w:instrText"@[0] == 'w' && "w:instrText"@[2] == 'i',
        "w:delText"@.len() == 9 && "w:delText"@[0] == 'w' && "w:delText"@[2] == 'd' && "w:delText"@[3] == 'e',
        "w:lastRenderedPageBreak"@.len() == 23 && "w:lastRenderedPageBreak"@[0] == 'w' && "w:lastRenderedPageBreak"@[2] == 'l',
        "w:footnoteRef"@.len() == 13 && "w:footnoteRef"@[0] == 'w',
        "w:endnoteRef"@.len() == 12 && "w:endnoteRef"@[0] == 'w' && "w:endnoteRef"@[2] == 'e',
        "w:separator"@.len() == 11 && "w:separator"@[0] == 'w' && "w:separator"@[2] == 's',
        "w:continuationSeparator"@.len() == 23 && "w:continuationSeparator"@[0] == 'w' && "w:continuationSeparator"@[2] == 'c',
        "w:commentReference"@.len() == 18 && "w:commentReference"@[0] == 'w' && "w:commentReference"@[2] == 'c',
        "w:annotationRef"@.len() == 15 && "w:annotationRef"@[0] == 'w' && "w:annotationRef"@[2] == 'a',
        "w:t"@.len() == 3 && "w:t"@[0] == 'w',
        "m:t"@.len() == 3 && "m:t"@[0] == 'm',
        "w:br"@.len() == 4 && "w:br"@[2] == 'b',
        "w:cr"@.len() == 4 && "w:cr"@[2] == 'c',
        "w:drawing"@.len() == 9 && "w:drawing"@[0] == 'w' && "w:drawing"@[2] == 'd' && "w:drawing"@[3] == 'r',
        "w:pict"@.len() == 6,
        "w:object"@.len() == 8,
        "w:tab"@.len() == 5 && "w:tab"@[0] == 'w' && "w:tab"@[2] == 't',
        "w:noBreakHyphen"@.len() == 15 && "w:noBreakHyphen"@[0] == 'w' && "w:noBreakHyphen"@[2] == 'n',
        "w:softHyphen"@.len() == 12 && "w:softHyphen"@[0] == 'w' && "w:softHyphen"@[2] == 's',
        "w:sym"@.len() == 5 && "w:sym"@[0] == 'w' && "w:sym"@[2] == 's',
        "w:footnoteReference"@.len() == 19 && "w:footnoteReference"@[0] == 'w',
        "w:endnoteReference"@.len() == 18 && "w:endnoteReference"@[0] == 'w' && "w:endnoteReference"@[2] == 'e',
{
    reveal_strlit("mc:AlternateContent");
    reveal_strlit("mc:Fallback");
    reveal_strlit("w:rPr");
    reveal_strlit("w:fldChar");
    reveal_strlit("w:instrText");
    reveal_strlit("w:delText");
    reveal_strlit("w:lastRenderedPageBreak");
    reveal_strlit("w:footnoteRef");
    reveal_strlit("w:endnoteRef");
    reveal_strlit("w:separator");
    reveal_strlit("w:continuationSeparator");
    reveal_strlit("w:commentReference");
    reveal_strlit("w:annotationRef");
    reveal_strlit("w:t");
    reveal_strlit("m:t");
    reveal_strlit("w:br");
    reveal_strlit("w:cr");
    reveal_strlit("w:drawing");
    reveal_strlit("w:pict");
    reveal_strlit("w:object");
    reveal_strlit("w:tab");
    reveal_strlit("w:noBreakHyphen");
    reveal_strlit("w:softHyphen");
    reveal_strlit("w:sym");
    reveal_strlit("w:footnoteReference");
    reveal_strlit("w:endnoteReference");
}

/// Reads the row properties element the parser stands on: whether it marks a header row.
/// Returns whether the input ended inside it.
fn read_row_header(xp: &mut XmlParser, header: &mut bool) -> (stop: bool)
    requires
        old(xp).wf(),
    ensures
        progressed(*old(xp), *final(xp)),
        (final(xp).state(), *final(header), stop) == row_header_walk(old(xp).input(), old(xp).state(), 1, *old(header)),
{
    let ghost b = xp.input();
    let ghost p0 = xp.position();
    let ghost goal = row_header_walk(b, xp.state(), 1, *header);
    let mut d: usize = 1;
    while d > 0
        invariant
            progressed(*old(xp), *xp),
            xp.position() >= p0 >= 0,
            p0 == old(xp).position(),
            2 * (d - 1) <= xp.position() - p0,
            b == old(xp).input(),
            goal == row_header_walk(b, old(xp).state(), 1, *old(header)),
            row_header_walk(b, xp.state(), d as int, *header) == goal,
        decreases xp.rank(),
    {
        let e2 = xp.next();
        if e2 == Event::Eof {
            return true;
        }
        if e2 == Event::Start {
            if str_eq(xp.name(), "w:tblHeader") && toggle_on(xp.attr("w:val")) {
                *header = true;
            }
            d += 1;
        } else if e2 == Event::End {
            d -= 1;
        }
    }
    false
}

/// The number format of level `ilvl` of list `num_id`: the list's own override, else its
/// abstract numbering's, else decimal.
pub open spec fn list_format(nt: NumberingTables, num_id: i32, ilvl: i32) -> Seq<char> {
    let k = pair_key_spec(num_id, ilvl);
    if nt.3.dom().contains(k) {
        nt.3[k]
    } else if nt.0.dom().contains(num_id as u32 as u64) && nt.1.dom().contains(pair_key_spec(nt.0[num_id as u32 as u64], ilvl)) {
        nt.1[pair_key_spec(nt.0[num_id as u32 as u64], ilvl)]
    } else {
        "decimal"@
    }
}

/// The start number of level `ilvl` of list `num_id`, chosen in the same way; 1 by default.
pub open spec fn list_start(nt: NumberingTables, num_id: i32, ilvl: i32) -> i32 {
    let k = pair_key_spec(num_id, ilvl);
    if nt.4.dom().contains(k) {
        nt.4[k]
    } else if nt.0.dom().contains(num_id as u32 as u64) && nt.2.dom().contains(pair_key_spec(nt.0[num_id as u32 as u64], ilvl)) {
        nt.2[pair_key_spec(nt.0[num_id as u32 as u64], ilvl)]
    } else {
        1i32
    }
}

/// The target of a hyperlink with attributes `a`: its relationship's target (from `rels`), or
/// its anchor in the document; none when neither is there.
pub open spec fn hyperlink_href_in(rels: Map<Seq<char>, RelView>, a: Attrs) -> Seq<char> {
    let rid = attr_lookup(a, "r:id"@);
    let anchor = attr_lookup(a, "w:anchor"@);
    if rid.len() > 0 {
        if rels.dom().contains(rid) {
            rels[rid].0
        } else {
            Seq::empty()
        }
    } else if anchor.len() > 0 {
        "#"@ + xml_decode(encode_utf8(anchor))
    } else {
        Seq::empty()
    }
}

/// The HTML of the image of relationship `rel_id`, `cx` by `cy` EMU large: an external target as
/// it is, an image part of the package as a data URL; nothing when images are not embedded, the
/// relationship is unknown or the part cannot be read.
pub open spec fn image_in(env: Env, rel_id: Seq<char>, cx: i32, cy: i32) -> Seq<char> {
    let rels = env.rels;
    if !env.embed_images || !rels.dom().contains(rel_id) {
        Seq::empty()
    } else if rels[rel_id].1 {
        img_html(rels[rel_id].0, cx, cy)
    } else {
        let path = resolved_path(env.base_dir, rels[rel_id].0);
        match part_data(env.bytes, env.listing, path) {
            Some(data) => img_html(data_url(path, data), cx, cy),
            None => Seq::empty(),
        }
    }
}

impl<'a> Converter<'a> {
    pub(crate) fn load_part(&self, path: &str) -> (r: Option<Vec<u8>>)
        ensures
            match r {
                Some(v) => part_data(self.zip.bytes(), self.zip.listing(), path@) == Some(v@),
                None => part_data(self.zip.bytes(), self.zip.listing(), path@) is None,
            },
    {
        match self.zip.find(path) {
            Some(e) => self.zip.extract(e),
            None => None,
        }
    }

    pub(crate) fn find_document_path(&self) -> (r: String)
        ensures
            r@ == main_part_path(self.zip.bytes(), self.zip.listing()),
    {
        if let Some(buf) = self.load_part("_rels/.rels") {
            let s = string_from_utf8_lossy(buf.as_slice());
            let mut xp = XmlParser::new(s.as_str());
            let ghost b = xp.input();
            proof {
                assert(xp.cur_name() =~= Seq::<char>::empty());
                assert(xp.cur_text() =~= Seq::<char>::empty());
                assert(xp.cur_attrs() =~= Seq::<(Seq<char>, Seq<char>)>::empty());
                assert(xp.state() == start_state());
            }
            loop
                invariant_except_break
                    office_document(b, xp.state()) == office_document(b, start_state()),
                invariant
                    xp.wf(),
                    xp.input() == b,
                    b == encode_utf8(lossy_text(buf@)),
                    part_data(self.zip.bytes(), self.zip.listing(), "_rels/.rels"@) == Some(buf@),
                ensures
                    office_document(b, start_state()) is None,
                decreases xp.rank(),
            {
                let ghost st = xp.state();
                let ev = xp.next();
                if ev == Event::Eof {
                    break;
                }
                if ev == Event::Start {
                    if str_eq(xp.name(), "Relationship") {
                        let ty = xp.attr("Type");
                        if ends_with(ty, "/officeDocument") {
                            let target = decode_attr(xp.attr("Target"));
                            return resolve_zip_path("", target.as_str());
                        }
                    }
                }
            }
        }
        owned("word/document.xml")
    }

    pub(crate) fn parse_rels(&mut self, xml: &str)
        requires
            old(self).wf(),
        ensures
            final(self).wf(),
            final(self).title == old(self).title,
            final(self).zip == old(self).zip,
            final(self).out == old(self).out,
            *final(self) == (Converter { rels: final(self).rels, ..*old(self) }),
            rels_view(final(self).rels) == rels_from(xml.spec_bytes(), start_state(), rels_view(old(self).rels)),
    {
        let mut xp = XmlParser::new(xml);
        let ghost b = xp.input();
        let ghost goal = rels_from(b, start_state(), rels_view(self.rels));
        proof {
            assert(xp.cur_name() =~= Seq::<char>::empty());
            assert(xp.cur_text() =~= Seq::<char>::empty());
            assert(xp.cur_attrs() =~= Seq::<(Seq<char>, Seq<char>)>::empty());
            assert(xp.state() == start_state());
        }
        loop
            invariant_except_break
                rels_from(b, xp.state(), rels_view(self.rels)) == goal,
            invariant
                xp.wf(),
                xp.input() == b,
                b == xml.spec_bytes(),
                self.wf(),
                self.title == old(self).title,
                self.zip == old(self).zip,
                self.out == old(self).out,
                *self == (Converter { rels: self.rels, ..*old(self) }),
                goal == rels_from(b, start_state(), rels_view(old(self).rels)),
            ensures
                rels_view(self.rels) == goal,
            decreases xp.rank(),
        {
            let ghost m0 = rels_view(self.rels);
            let ev = xp.next();
            if ev == Event::Eof {
                break;
            }
            if ev == Event::Start {
                if str_eq(xp.name(), "Relationship") {
                    let target = decode_attr(xp.attr("Target"));
                    let external = str_eq(xp.attr("TargetMode"), "External");
                    let id = owned(xp.attr("Id"));
                    let ghost kv = id@;
                    let ghost rel: RelView = (target@, external);
                    self.rels.insert_if_absent(id, Relationship { target, external });
                    proof {
                        reveal_strlit("External");
                        assert(rels_view(self.rels) =~= if m0.dom().contains(kv) {
                            m0
                        } else {
                            m0.insert(kv, rel)
                        });
                    }
                }
            }
        }
    }

    pub(crate) fn parse_styles(&mut self, xml: &str)
        requires
            old(self).wf(),
        ensures
            final(self).wf(),
            final(self).title == old(self).title,
            final(self).zip == old(self).zip,
            style_tables(*final(self)) == styles_from(
                xml.spec_bytes(),
                start_state(),
                Seq::empty(),
                Seq::empty(),
                style_tables(*old(self)),
            ),
            *final(self) == (Converter { heading_by_style: final(self).heading_by_style, style_num: final(self).style_num, char_style: final(self).char_style, ..*old(self) }),
    {
        let mut xp = XmlParser::new(xml);
        let mut cur_id = String::new();
        let mut cur_type = String::new();
        let ghost b = xp.input();
        let ghost goal = styles_from(b, start_state(), Seq::empty(), Seq::empty(), style_tables(*self));
        proof {
            reveal_strlit("");
            assert(xp.cur_name() =~= Seq::<char>::empty());
            assert(xp.cur_text() =~= Seq::<char>::empty());
            assert(xp.cur_attrs() =~= Seq::<(Seq<char>, Seq<char>)>::empty());
            assert(xp.state() == start_state());
            assert(cur_id@ =~= Seq::<char>::empty());
            assert(cur_type@ =~= Seq::<char>::empty());
        }
        loop
            invariant_except_break
                styles_from(b, xp.state(), cur_id@, cur_type@, style_tables(*self)) == goal,
            invariant
                xp.wf(),
                xp.input() == b,
                b == xml.spec_bytes(),
                self.wf(),
                self.title == old(self).title,
                self.zip == old(self).zip,
                *self == (Converter { heading_by_style: self.heading_by_style, style_num: self.style_num, char_style: self.char_style, ..*old(self) }),
                goal == styles_from(b, start_state(), Seq::empty(), Seq::empty(), style_tables(*old(self))),
            ensures
                style_tables(*self) == goal,
            decreases xp.rank(),
        {
            let ev = xp.next();
            if ev == Event::Eof {
                break;
            }
            if ev == Event::End {
                if str_eq(xp.name(), "w:style") {
                    cur_id = String::new();
                    proof {
                        reveal_strlit("");
                    }
                }
                continue;
            }
            if ev != Event::Start {
                continue;
            }
            let n = xp.name();
            if str_eq(n, "w:style") {
                cur_id = owned(xp.attr("w:styleId"));
                cur_type = owned(xp.attr("w:type"));
                if str_eq(cur_type.as_str(), "paragraph") {
                    let lvl = heading_level_of_id(cur_id.as_str());
                    if lvl != 0 {
                        let ghost t0 = style_tables(*self);
                        self.heading_by_style.insert(cur_id.clone(), lvl);
                        assert(style_tables(*self) =~= (t0.0.insert(cur_id@, lvl), t0.1, t0.2));
                    }
                }
                continue;
            }
            if cur_id.as_str().is_empty() {
                continue;
            }
            self.apply_style_detail(cur_id.as_str(), cur_type.as_str(), &xp);
        }
    }

    /// Applies what the element the parser stands on sets inside the definition of style `id`
    /// of type `ty`.
    pub(crate) fn apply_style_detail(&mut self, id: &str, ty: &str, xp: &XmlParser)
        requires
            old(self).wf(),
        ensures
            final(self).wf(),
            style_tables(*final(self)) == style_detail(style_tables(*old(self)), id@, ty@, xp.cur_name(), xp.cur_attrs()),
            *final(self) == (Converter { heading_by_style: final(self).heading_by_style, style_num: final(self).style_num, char_style: final(self).char_style, ..*old(self) }),
    {
        let n = xp.name();
        let ghost t0 = style_tables(*self);
        if str_eq(ty, "paragraph") {
            if str_eq(n, "w:name") {
                let nm = to_lower(xp.attr("w:val"));
                let lvl = heading_level_of_name(nm.as_str());
                if lvl != 0 {
                    self.heading_by_style.insert(owned(id), lvl);
                    assert(style_tables(*self) =~= (t0.0.insert(id@, lvl), t0.1, t0.2));
                }
            } else if str_eq(n, "w:outlineLvl") {
                let lvl = sv_to_int(xp.attr("w:val"));
                if 0 <= lvl && lvl <= 5 && !self.heading_by_style.contains_key(id) {
                    self.heading_by_style.insert(owned(id), lvl + 1);
                    assert(style_tables(*self) =~= (t0.0.insert(id@, (lvl + 1) as i32), t0.1, t0.2));
                }
            } else if str_eq(n, "w:numId") {
                let mut sn = match self.style_num.get(id) {
                    Some(x) => *x,
                    None => StyleNum { num_id: -1, ilvl: 0 },
                };
                sn.num_id = sv_to_int(xp.attr("w:val"));
                self.style_num.insert(owned(id), sn);
                assert(style_tables(*self) =~= (t0.0, t0.1.insert(id@, sn), t0.2));
            } else if str_eq(n, "w:ilvl") {
                let mut sn = match self.style_num.get(id) {
                    Some(x) => *x,
                    None => StyleNum { num_id: -1, ilvl: 0 },
                };
                sn.ilvl = sv_to_int(xp.attr("w:val"));
                self.style_num.insert(owned(id), sn);
                assert(style_tables(*self) =~= (t0.0, t0.1.insert(id@, sn), t0.2));
            }
        } else if str_eq(ty, "character") {
            let val = xp.attr("w:val");
            let mut rp = match self.char_style.get(id) {
                Some(x) => x.copy(),
                None => RunProps::empty(),
            };
            apply_run_prop(&mut rp, n, val);
            let ghost rv = rp@;
            self.char_style.insert(owned(id), rp);
            assert(style_tables(*self) =~= (t0.0, t0.1, t0.2.insert(id@, rv)));
        }
    }

    pub(crate) fn parse_numbering(&mut self, xml: &str)
        requires
            old(self).wf(),
        ensures
            final(self).wf(),
            final(self).title == old(self).title,
            final(self).zip == old(self).zip,
            numbering_tables(*final(self)) == numbering_from(
                xml.spec_bytes(),
                start_state(),
                (-1i32, -1i32, -1i32),
                numbering_tables(*old(self)),
            ),
            *final(self) == (Converter { num_to_abstract: final(self).num_to_abstract, abstract_fmt: final(self).abstract_fmt, abstract_start: final(self).abstract_start, num_fmt_override: final(self).num_fmt_override, num_start_override: final(self).num_start_override, ..*old(self) }),
    {
        let mut xp = XmlParser::new(xml);
        let mut cur_abstract: i32 = -1;
        let mut cur_lvl: i32 = -1;
        let mut cur_num: i32 = -1;
        let ghost b = xp.input();
        let ghost goal = numbering_from(b, start_state(), (-1i32, -1i32, -1i32), numbering_tables(*self));
        proof {
            assert(xp.cur_name() =~= Seq::<char>::empty());
            assert(xp.cur_text() =~= Seq::<char>::empty());
            assert(xp.cur_attrs() =~= Seq::<(Seq<char>, Seq<char>)>::empty());
            assert(xp.state() == start_state());
        }
        loop
            invariant_except_break
                numbering_from(b, xp.state(), (cur_abstract, cur_lvl, cur_num), numbering_tables(*self)) == goal,
            invariant
                xp.wf(),
                xp.input() == b,
                b == xml.spec_bytes(),
                self.wf(),
                self.title == old(self).title,
                self.zip == old(self).zip,
                *self == (Converter { num_to_abstract: self.num_to_abstract, abstract_fmt: self.abstract_fmt, abstract_start: self.abstract_start, num_fmt_override: self.num_fmt_override, num_start_override: self.num_start_override, ..*old(self) }),
                goal == numbering_from(b, start_state(), (-1i32, -1i32, -1i32), numbering_tables(*old(self))),
            ensures
                numbering_tables(*self) == goal,
            decreases xp.rank(),
        {
            match xp.next() {
                Event::Eof => break,
                Event::Start => {
                    let at = self.apply_numbering_start((cur_abstract, cur_lvl, cur_num), &xp);
                    cur_abstract = at.0;
                    cur_lvl = at.1;
                    cur_num = at.2;
                },
                Event::End => {
                    let n = xp.name();
                    if str_eq(n, "w:abstractNum") {
                        cur_abstract = -1;
                        cur_lvl = -1;
                    } else if str_eq(n, "w:lvl") || str_eq(n, "w:lvlOverride") {
                        cur_lvl = -1;
                    } else if str_eq(n, "w:num") {
                        cur_num = -1;
                    }
                },
                _ => {},
            }
        }
    }

    /// Applies the start tag the parser stands on to the numbering tables at place `at`, and
    /// returns the place after it.
    pub(crate) fn apply_numbering_start(&mut self, at: (i32, i32, i32), xp: &XmlParser) -> (r: (i32, i32, i32))
        requires
            old(self).wf(),
        ensures
            final(self).wf(),
            final(self).title == old(self).title,
            final(self).zip == old(self).zip,
            (r, numbering_tables(*final(self))) == numbering_start(
                numbering_tables(*old(self)),
                at,
                xp.cur_name(),
                xp.cur_attrs(),
            ),
            *final(self) == (Converter { num_to_abstract: final(self).num_to_abstract, abstract_fmt: final(self).abstract_fmt, abstract_start: final(self).abstract_start, num_fmt_override: final(self).num_fmt_override, num_start_override: final(self).num_start_override, ..*old(self) }),
    {
        let (cur_abstract, cur_lvl, cur_num) = at;
        let ghost t0 = numbering_tables(*self);
        let n = xp.name();
        if str_eq(n, "w:abstractNum") {
            return (sv_to_int(xp.attr("w:abstractNumId")), cur_lvl, cur_num);
        } else if str_eq(n, "w:lvl") || str_eq(n, "w:lvlOverride") {
            return (cur_abstract, sv_to_int(xp.attr("w:ilvl")), cur_num);
        } else if str_eq(n, "w:numFmt") && cur_lvl >= 0 {
            if cur_abstract >= 0 {
                let v = owned(xp.attr("w:val"));
                let ghost vv = v@;
                self.abstract_fmt.insert(pair_key(cur_abstract, cur_lvl), v);
                assert(numbering_tables(*self) =~= (t0.0, t0.1.insert(pair_key_spec(cur_abstract, cur_lvl), vv), t0.2, t0.3, t0.4));
            } else if cur_num >= 0 {
                let v = owned(xp.attr("w:val"));
                let ghost vv = v@;
                self.num_fmt_override.insert(pair_key(cur_num, cur_lvl), v);
                assert(numbering_tables(*self) =~= (t0.0, t0.1, t0.2, t0.3.insert(pair_key_spec(cur_num, cur_lvl), vv), t0.4));
            }
        } else if (str_eq(n, "w:start") || str_eq(n, "w:startOverride")) && cur_lvl >= 0 {
            if cur_abstract >= 0 {
                let v = sv_to_int(xp.attr("w:val"));
                self.abstract_start.insert(pair_key(cur_abstract, cur_lvl), v);
                assert(numbering_tables(*self) =~= (t0.0, t0.1, t0.2.insert(pair_key_spec(cur_abstract, cur_lvl), v), t0.3, t0.4));
            } else if cur_num >= 0 {
                let v = sv_to_int(xp.attr("w:val"));
                self.num_start_override.insert(pair_key(cur_num, cur_lvl), v);
                assert(numbering_tables(*self) =~= (t0.0, t0.1, t0.2, t0.3, t0.4.insert(pair_key_spec(cur_num, cur_lvl), v)));
            }
        } else if str_eq(n, "w:num") {
            return (cur_abstract, cur_lvl, sv_to_int(xp.attr("w:numId")));
        } else if str_eq(n, "w:abstractNumId") && cur_num >= 0 {
            let v = sv_to_int(xp.attr("w:val"));
            self.num_to_abstract.insert(cur_num as u32 as u64, v);
            assert(numbering_tables(*self) =~= (t0.0.insert(cur_num as u32 as u64, v), t0.1, t0.2, t0.3, t0.4));
        }
        (cur_abstract, cur_lvl, cur_num)
    }

    pub(crate) fn parse_core_props(&mut self, xml: &str)
        requires
            old(self).wf(),
        ensures
            final(self).wf(),
            match title_from(xml.spec_bytes(), start_state()) {
                Some(t) => final(self).title@ == t,
                None => final(self).title == old(self).title,
            },
            *final(self) == (Converter { title: final(self).title, ..*old(self) }),
    {
        let mut xp = XmlParser::new(xml);
        let ghost b = xp.input();
        proof {
            assert(xp.cur_name() =~= Seq::<char>::empty());
            assert(xp.cur_text() =~= Seq::<char>::empty());
            assert(xp.cur_attrs() =~= Seq::<(Seq<char>, Seq<char>)>::empty());
            assert(xp.state() == start_state());
        }
        loop
            invariant_except_break
                title_from(b, xp.state()) == title_from(b, start_state()),
            invariant
                xp.wf(),
                xp.input() == b,
                b == xml.spec_bytes(),
                self.wf(),
                *self == *old(self),
                self.title == old(self).title,
            ensures
                title_from(b, start_state()) is None,
            decreases xp.rank(),
        {
            let ev = xp.next();
            if ev == Event::Eof {
                break;
            }
            if ev == Event::Start && str_eq(xp.name(), "dc:title") {
                let ghost st = xp.state();
                let mut raw = String::new();
                assert(raw@ =~= Seq::<char>::empty());
                loop
                    invariant_except_break
                        text_until_end(b, xp.state(), raw@) == text_until_end(b, st, Seq::empty()),
                    invariant
                        xp.wf(),
                        xp.input() == b,
                        *self == *old(self),
                    ensures
                        raw@ == text_until_end(b, st, Seq::empty()),
                    decreases xp.rank(),
                {
                    let e2 = xp.next();
                    if e2 == Event::Eof || e2 == Event::End {
                        break;
                    }
                    if e2 == Event::Text {
                        raw.append(xp.text());
                    }
                }
                let mut t = String::new();
                XmlParser::append_decoded(raw.as_str(), &mut t);
                assert(t@ =~= xml_decode(encode_utf8(raw@)));
                self.title = t;
                return;
            }
        }
    }

    // ---- list state ----

    /// The number format of level `ilvl` of list `num_id`: the list's own override, else its
    /// abstract list's format, else "decimal".
    pub(crate) fn num_fmt_for(&self, num_id: i32, ilvl: i32) -> (r: String)
        requires
            self.wf(),
        ensures
            r@ == list_format(numbering_tables(*self), num_id, ilvl),
    {
        if let Some(v) = self.num_fmt_override.get(pair_key(num_id, ilvl)) {
            return v.clone();
        }
        if let Some(a) = self.num_to_abstract.get(num_id as u32 as u64) {
            if let Some(v) = self.abstract_fmt.get(pair_key(*a, ilvl)) {
                return v.clone();
            }
        }
        owned("decimal")
    }

    pub(crate) fn start_for(&self, num_id: i32, ilvl: i32) -> (r: i32)
        requires
            self.wf(),
        ensures
            r == list_start(numbering_tables(*self), num_id, ilvl),
    {
        if let Some(v) = self.num_start_override.get(pair_key(num_id, ilvl)) {
            return *v;
        }
        if let Some(a) = self.num_to_abstract.get(num_id as u32 as u64) {
            if let Some(v) = self.abstract_start.get(pair_key(*a, ilvl)) {
                return *v;
            }
        }
        1
    }
}

/// The list tag for a number format: unordered for bullets and for no numbering.
pub open spec fn list_tag(fmt: Seq<char>) -> Seq<char> {
    if fmt == "bullet"@ || fmt == "none"@ {
        "ul"@
    } else {
        "ol"@
    }
}

/// The attribute that shows a number format.
pub open spec fn type_attr(fmt: Seq<char>) -> Seq<char> {
    if fmt == "lowerLetter"@ {
        " type=\"a\""@
    } else if fmt == "upperLetter"@ {
        " type=\"A\""@
    } else if fmt == "lowerRoman"@ {
        " type=\"i\""@
    } else if fmt == "upperRoman"@ {
        " type=\"I\""@
    } else if fmt == "none"@ {
        " style=\"list-style:none\""@
    } else {
        Seq::empty()
    }
}

/// The list tag for number format `fmt`.
pub fn list_tag_of(fmt: &str) -> (t: &'static str)
    ensures
        t@ == list_tag(fmt@),
{
    proof {
        reveal_strlit("bullet");
        reveal_strlit("none");
        reveal_strlit("ul");
        reveal_strlit("ol");
    }
    if str_eq(fmt, "bullet") || str_eq(fmt, "none") {
        "ul"
    } else {
        "ol"
    }
}

/// The attribute that shows number format `fmt`.
pub fn type_attr_of(fmt: &str) -> (a: &'static str)
    ensures
        a@ == type_attr(fmt@),
{
    proof {
        reveal_strlit("lowerLetter");
        reveal_strlit("upperLetter");
        reveal_strlit("lowerRoman");
        reveal_strlit("upperRoman");
        reveal_strlit("none");
        reveal_strlit("");
    }
    if str_eq(fmt, "lowerLetter") {
        " type=\"a\""
    } else if str_eq(fmt, "upperLetter") {
        " type=\"A\""
    } else if str_eq(fmt, "lowerRoman") {
        " type=\"i\""
    } else if str_eq(fmt, "upperRoman") {
        " type=\"I\""
    } else if str_eq(fmt, "none") {
        " style=\"list-style:none\""
    } else {
        ""
    }
}

/// Open lists as (tag, whether an item is open).
pub open spec fn lists_view(ls: Seq<OpenList>) -> Seq<(Seq<char>, bool)> {
    ls.map_values(|l: OpenList| (l.tag@, l.li_open))
}

/// An open list as plain values: its tag, and whether an item is open in it.
pub type ListView = (Seq<char>, bool);

/// The HTML that closes an open list (and its open item).
pub open spec fn close_html(l: ListView) -> Seq<char> {
    (if l.1 {
        "</li>"@
    } else {
        Seq::empty()
    }) + "</"@ + l.0 + ">"@
}

/// The HTML that closes the lists of `ls` above the first `target`, innermost first.
pub open spec fn closings(ls: Seq<ListView>, target: int) -> Seq<char>
    decreases ls.len(),
{
    if ls.len() <= target || ls.len() == 0 {
        Seq::empty()
    } else {
        close_html(ls.last()) + closings(ls.drop_last(), target)
    }
}

/// The open fields and the notes referred to so far are the same in `a` and `b`.
pub(crate) open spec fn same_notes(a: Converter, b: Converter) -> bool {
    &&& a.fields == b.fields
    &&& a.fn_order == b.fn_order
    &&& a.en_order == b.en_order
}

/// The converter's fields other than its output, lists and item counts are the same in `a` and `b`.
pub(crate) open spec fn same_but_emitted(a: Converter, b: Converter) -> bool {
    &&& a.opts == b.opts
    &&& a.zip == b.zip
    &&& a.base_dir == b.base_dir
    &&& a.rels == b.rels
    &&& a.heading_by_style == b.heading_by_style
    &&& a.style_num == b.style_num
    &&& a.char_style == b.char_style
    &&& a.num_to_abstract == b.num_to_abstract
    &&& a.abstract_fmt == b.abstract_fmt
    &&& a.abstract_start == b.abstract_start
    &&& a.num_fmt_override == b.num_fmt_override
    &&& a.num_start_override == b.num_start_override
    &&& a.title == b.title
}

/// The converter's tables, options and title are the same in `a` and `b`.
pub(crate) open spec fn same_setup(a: Converter, b: Converter) -> bool {
    &&& a.opts == b.opts
    &&& a.zip == b.zip
    &&& a.base_dir == b.base_dir
    &&& a.rels == b.rels
    &&& a.heading_by_style == b.heading_by_style
    &&& a.style_num == b.style_num
    &&& a.char_style == b.char_style
    &&& a.num_to_abstract == b.num_to_abstract
    &&& a.abstract_fmt == b.abstract_fmt
    &&& a.abstract_start == b.abstract_start
    &&& a.num_fmt_override == b.num_fmt_override
    &&& a.num_start_override == b.num_start_override
    &&& a.list_emitted == b.list_emitted
    &&& a.title == b.title
}

/// The number that level `l` of list `num_id` opens with: its start plus the items it had
/// (`em` holds the item counts).
pub open spec fn level_start(nt: NumberingTables, em: Map<u64, i32>, num_id: i32, l: i32) -> i32 {
    let k = list_key_spec(num_id, l);
    let emitted = if em.dom().contains(k) {
        em[k]
    } else {
        0i32
    };
    list_start(nt, num_id, l).wrapping_add(emitted)
}

/// The HTML that opens level `l` of list `num_id`.
pub open spec fn open_html(nt: NumberingTables, em: Map<u64, i32>, num_id: i32, l: int) -> Seq<char> {
    let lvl = l as i32;
    let f = list_format(nt, num_id, lvl);
    let t = list_tag(f);
    "<"@ + t + type_attr(f) + (if t == "ol"@ && level_start(nt, em, num_id, lvl) != 1 {
        " start=\""@ + signed_decimal(level_start(nt, em, num_id, lvl) as int) + "\""@
    } else {
        Seq::empty()
    }) + ">"@
}

/// A numbered list level shows the case of its numbering: a level whose format is upper-case
/// letters opens as `<ol type="A"`, lower-case letters as `<ol type="a"`, upper-case roman
/// numerals as `<ol type="I"` and lower-case ones as `<ol type="i"`, whatever the tables say
/// of other levels and whatever its start.
pub proof fn lemma_list_type_shows_case(nt: NumberingTables, em: Map<u64, i32>, num_id: i32, l: int)
    ensures
        ({
            let f = list_format(nt, num_id, l as i32);
            let h = open_html(nt, em, num_id, l);
            &&& f == "upperLetter"@ ==> h.len() >= 12 && h.take(12) == "<ol type=\"A\""@
            &&& f == "lowerLetter"@ ==> h.len() >= 12 && h.take(12) == "<ol type=\"a\""@
            &&& f == "upperRoman"@ ==> h.len() >= 12 && h.take(12) == "<ol type=\"I\""@
            &&& f == "lowerRoman"@ ==> h.len() >= 12 && h.take(12) == "<ol type=\"i\""@
        }),
{
    reveal_strlit("upperLetter");
    reveal_strlit("lowerLetter");
    reveal_strlit("upperRoman");
    reveal_strlit("lowerRoman");
    reveal_strlit("bullet");
    reveal_strlit("none");
    reveal_strlit("ol");
    reveal_strlit("<");
    reveal_strlit(" type=\"A\"");
    reveal_strlit(" type=\"a\"");
    reveal_strlit(" type=\"I\"");
    reveal_strlit(" type=\"i\"");
    reveal_strlit("<ol type=\"A\"");
    reveal_strlit("<ol type=\"a\"");
    reveal_strlit("<ol type=\"I\"");
    reveal_strlit("<ol type=\"i\"");
    let f = list_format(nt, num_id, l as i32);
    let h = open_html(nt, em, num_id, l);
    let head = "<"@ + list_tag(f) + type_attr(f);
    assert(h == head + (h.skip(head.len() as int))) by {
        assert(h =~= head + h.skip(head.len() as int));
    }
    assert("upperLetter"@[0] != "lowerLetter"@[0]);
    assert("upperRoman"@[0] != "lowerRoman"@[0]);
    assert("upperLetter"@.len() != "upperRoman"@.len());
    assert("upperLetter"@.len() != "lowerRoman"@.len());
    assert("lowerLetter"@.len() != "upperRoman"@.len());
    assert("lowerLetter"@.len() != "lowerRoman"@.len());
    assert("upperLetter"@ != "lowerLetter"@);
    assert("upperRoman"@ != "lowerRoman"@);
    if f == "upperLetter"@ {
        assert(list_tag(f) == "ol"@);
        assert(type_attr(f) == " type=\"A\""@);
        assert(head =~= "<ol type=\"A\""@);
        assert(h.take(12) =~= head);
    } else if f == "lowerLetter"@ {
        assert(list_tag(f) == "ol"@);
        assert(type_attr(f) == " type=\"a\""@);
        assert(head =~= "<ol type=\"a\""@);
        assert(h.take(12) =~= head);
    } else if f == "upperRoman"@ {
        assert(list_tag(f) == "ol"@);
        assert(type_attr(f) == " type=\"I\""@);
        assert(head =~= "<ol type=\"I\""@);
        assert(h.take(12) =~= head);
    } else if f == "lowerRoman"@ {
        assert(list_tag(f) == "ol"@);
        assert(type_attr(f) == " type=\"i\""@);
        assert(head =~= "<ol type=\"i\""@);
        assert(h.take(12) =~= head);
    }
}

/// The HTML that opens levels `from..to` of list `num_id`, outermost first.
pub open spec fn opens_html(nt: NumberingTables, em: Map<u64, i32>, num_id: i32, from: int, to: int) -> Seq<char>
    decreases to - from,
{
    if to <= from {
        Seq::empty()
    } else {
        opens_html(nt, em, num_id, from, to - 1) + open_html(nt, em, num_id, to - 1)
    }
}

/// The list level that a paragraph's `w:ilvl` value `ilvl` stands for: a level below 0 is
/// taken as 0.
pub open spec fn list_level(ilvl: i32) -> i32 {
    if ilvl < 0 {
        0
    } else {
        ilvl
    }
}

/// Computes `list_level`.
pub fn clamp_list_level(ilvl: i32) -> (r: i32)
    ensures
        r == list_level(ilvl),
{
    if ilvl < 0 {
        0
    } else {
        ilvl
    }
}

/// The lists open once a paragraph of level `ilvl` of list `num_id` comes, `ls` open before
/// and `em` the item counts (lists deeper than its level closed, a list of another kind at
/// its level closed, missing levels opened), and the HTML that closes and opens lists to get
/// there.
pub open spec fn list_transition(nt: NumberingTables, ls: Seq<ListView>, em: Map<u64, i32>, num_id: i32, ilvl: i32) -> (Seq<ListView>, Seq<char>) {
    let target = ilvl + 1;
    let kept = if ls.len() > target {
        ls.take(target)
    } else {
        ls
    };
    let tag = list_tag(list_format(nt, num_id, ilvl));
    let replaced = kept.len() == target && target > 0 && kept.last().0 != tag;
    let base = if replaced {
        kept.drop_last()
    } else {
        kept
    };
    (
        base + opened_lists(nt, num_id, base.len() as int, target),
        closings(ls, target) + (if replaced {
            close_html(kept.last())
        } else {
            Seq::empty()
        }) + opens_html(nt, em, num_id, base.len() as int, target),
    )
}

/// The lists that opening levels `from..to` of list `num_id` pushes, outermost first.
pub open spec fn opened_lists(nt: NumberingTables, num_id: i32, from: int, to: int) -> Seq<(Seq<char>, bool)>
    decreases to - from,
{
    if to <= from {
        Seq::empty()
    } else {
        opened_lists(nt, num_id, from, to - 1).push((list_tag(list_format(nt, num_id, (to - 1) as i32)), false))
    }
}

impl<'a> Converter<'a> {
    pub(crate) fn close_one_list(&mut self)
        requires
            old(self).wf(),
            old(self).list_stack@.len() > 0,
        ensures
            final(self).wf(),
            final(self).title == old(self).title,
            same_setup(*final(self), *old(self)),
            same_notes(*final(self), *old(self)),
            final(self).list_stack@ == old(self).list_stack@.drop_last(),
            final(self).out@ == old(self).out@ + close_html(lists_view(old(self).list_stack@).last()),
    {
        let top = self.list_stack.pop().unwrap();
        if top.li_open {
            self.out.append("</li>");
        }
        self.out.append("</");
        self.out.append(top.tag);
        push_char(&mut self.out, '>');
        proof {
            reveal_strlit(">");
            assert(self.out@ =~= old(self).out@ + close_html(lists_view(old(self).list_stack@).last()));
        }
    }

    pub(crate) fn close_lists(&mut self, target: usize)
        requires
            old(self).wf(),
        ensures
            final(self).wf(),
            final(self).title == old(self).title,
            same_setup(*final(self), *old(self)),
            same_notes(*final(self), *old(self)),
            old(self).list_stack@.len() > target ==> final(self).list_stack@ == old(self).list_stack@.take(target as int),
            old(self).list_stack@.len() <= target ==> final(self).list_stack@ == old(self).list_stack@,
            final(self).out@ == old(self).out@ + closings(lists_view(old(self).list_stack@), target as int),
            old(self).out@.is_prefix_of(final(self).out@),
            doc_state(*final(self)) == lists_closed(doc_state(*old(self)), target as int),
            same_but_emitted(*final(self), *old(self)),
    {
        let ghost s0 = self.list_stack@;
        let ghost o0 = self.out@;
        proof {
            assert(o0 + closings(lists_view(s0), s0.len() as int) =~= o0);
        }
        while self.list_stack.len() > target
            invariant
                self.wf(),
                self.title == old(self).title,
                same_setup(*self, *old(self)),
                same_notes(*self, *old(self)),
                s0 == old(self).list_stack@,
                o0 == old(self).out@,
                s0.len() > target ==> self.list_stack@ == s0.take(self.list_stack@.len() as int) && self.list_stack@.len() >= target,
                self.list_stack@.len() <= s0.len(),
                s0.len() <= target ==> self.list_stack@ == s0,
                self.out@ + closings(lists_view(self.list_stack@), target as int) == o0 + closings(lists_view(s0), target as int),
            decreases self.list_stack@.len(),
        {
            let ghost prev = self.list_stack@;
            let ghost out_prev = self.out@;
            self.close_one_list();
            proof {
                if s0.len() > target {
                    assert(s0.take(prev.len() as int).drop_last() =~= s0.take(self.list_stack@.len() as int));
                }
                assert(lists_view(prev).drop_last() =~= lists_view(self.list_stack@));
                assert(closings(lists_view(prev), target as int) == close_html(lists_view(prev).last()) + closings(lists_view(prev).drop_last(), target as int));
                assert(out_prev + closings(lists_view(prev), target as int) =~= self.out@ + closings(lists_view(self.list_stack@), target as int));
            }
        }
        assert(s0.len() > target ==> s0.take(s0.len() as int) =~= s0);
        assert(self.out@ + closings(lists_view(self.list_stack@), target as int) =~= self.out@);
        proof {
            if s0.len() > target {
                assert(lists_view(self.list_stack@) =~= lists_view(s0).take(target as int));
            }
        }
    }

    /// Sets up the open lists for a paragraph of level `ilvl` (a level below 0 taken as 0) of
    /// list `num_id`.
    pub(crate) fn set_list_state(&mut self, num_id: i32, ilvl: i32)
        requires
            old(self).wf(),
        ensures
            final(self).wf(),
            final(self).title == old(self).title,
            same_setup(*final(self), *old(self)),
            same_notes(*final(self), *old(self)),
            final(self).list_stack@.len() == list_level(ilvl) + 1,
            ({
                let t = list_transition(numbering_tables(*old(self)), lists_view(old(self).list_stack@), int_table(old(self).list_emitted), num_id, list_level(ilvl));
                &&& lists_view(final(self).list_stack@) == t.0
                &&& final(self).out@ == old(self).out@ + t.1
            }),
    {
        let ilvl = clamp_list_level(ilvl);
        let target = (ilvl as usize) + 1;
        let fmt = self.num_fmt_for(num_id, ilvl);
        let tag = list_tag_of(fmt.as_str());
        let ghost c0 = *self;
        self.close_lists(target);
        let n = self.list_stack.len();
        if n == target && n > 0 && !str_eq(self.list_stack[n - 1].tag, tag) {
            self.close_one_list();
        }
        let ghost o2 = self.out@;
        let ghost base = self.list_stack@;
        let ghost from = base.len() as int;
        proof {
            assert(lists_view(base) + opened_lists(numbering_tables(c0), num_id, from, from) =~= lists_view(base));
            assert(o2 + opens_html(numbering_tables(c0), int_table(c0.list_emitted), num_id, from, from) =~= o2);
        }
        while self.list_stack.len() < target
            invariant
                self.wf(),
                self.title == old(self).title,
                same_setup(*self, c0),
                same_notes(*self, *old(self)),
                c0 == *old(self),
                from <= self.list_stack@.len() <= target,
                lists_view(self.list_stack@) == lists_view(base) + opened_lists(numbering_tables(c0), 
                    num_id,
                    from,
                    self.list_stack@.len() as int,
                ),
                self.out@ == o2 + opens_html(numbering_tables(c0), int_table(c0.list_emitted), num_id, from, self.list_stack@.len() as int),
            decreases target - self.list_stack@.len(),
        {
            let ghost cur = self.list_stack@.len() as int;
            assert(numbering_tables(*self) == numbering_tables(c0));
            assert(int_table(self.list_emitted) == int_table(c0.list_emitted));
            self.open_list_level(num_id);
            proof {
                assert(lists_view(self.list_stack@).len() == self.list_stack@.len());
                assert(opened_lists(numbering_tables(c0), num_id, from, cur + 1) == opened_lists(numbering_tables(c0), num_id, from, cur).push(
                    (list_tag(list_format(numbering_tables(c0), num_id, cur as i32)), false),
                ));
                assert(lists_view(self.list_stack@) =~= lists_view(base) + opened_lists(numbering_tables(c0), num_id, from, cur + 1));
                assert(self.out@ =~= o2 + opens_html(numbering_tables(c0), int_table(c0.list_emitted), num_id, from, cur + 1));
            }
        }
    }

    /// Opens one more list level of list `num_id`, its tag, number format and start as the tables give them.
    pub(crate) fn open_list_level(&mut self, num_id: i32)
        requires
            old(self).wf(),
        ensures
            final(self).wf(),
            final(self).title == old(self).title,
            same_setup(*final(self), *old(self)),
            same_notes(*final(self), *old(self)),
            lists_view(final(self).list_stack@) == lists_view(old(self).list_stack@).push(
                (list_tag(list_format(numbering_tables(*old(self)), num_id, old(self).list_stack@.len() as i32)), false),
            ),
            final(self).out@ == old(self).out@ + open_html(numbering_tables(*old(self)), int_table(old(self).list_emitted), num_id, old(self).list_stack@.len() as int),
    {
        let ghost c0 = *self;
        let ghost cur = self.list_stack@.len() as int;
        let ghost ob = self.out@;
        let lvl = self.list_stack.len() as i32;
        let f = self.num_fmt_for(num_id, lvl);
        let t = list_tag_of(f.as_str());
        push_char(&mut self.out, '<');
        self.out.append(t);
        self.out.append(type_attr_of(f.as_str()));
        let ghost o_attr = self.out@;
        proof {
            reveal_strlit("<");
            assert(f@ == list_format(numbering_tables(c0), num_id, cur as i32));
            assert(o_attr =~= ob + "<"@ + t@ + type_attr(f@));
        }
        if str_eq(t, "ol") {
            let emitted = match self.list_emitted.get(list_key(num_id, lvl)) {
                Some(x) => *x,
                None => 0,
            };
            let start_at = self.start_for(num_id, lvl).wrapping_add(emitted);
            assert(start_at == level_start(numbering_tables(c0), int_table(c0.list_emitted), num_id, lvl));
            if start_at != 1 {
                self.out.append(" start=\"");
                append_signed(&mut self.out, start_at as i64);
                push_char(&mut self.out, '"');
            }
        }
        push_char(&mut self.out, '>');
        let ghost before = self.list_stack@;
        self.list_stack.push(OpenList { tag: t, li_open: false });
        proof {
            reveal_strlit("ul");
            reveal_strlit("ol");
            reveal_strlit("\"");
            reveal_strlit(">");
            reveal_strlit("<");
            assert(lvl == cur as i32);
            assert(lists_view(self.list_stack@) =~= lists_view(before).push((t@, false)));
            assert(self.out@ =~= ob + open_html(numbering_tables(c0), int_table(c0.list_emitted), num_id, cur));
        }
    }

    pub(crate) fn open_paragraph(&mut self, pp: &ParaProps) -> (close: String)
        requires
            old(self).wf(),
        ensures
            final(self).wf(),
            final(self).title == old(self).title,
            same_but_emitted(*final(self), *old(self)),
            final(self).fields == old(self).fields,
            final(self).fn_order == old(self).fn_order,
            final(self).en_order == old(self).en_order,
            pp.num_id > 0 && pp.heading == 0 ==> ({
                let t = list_transition(numbering_tables(*old(self)), lists_view(old(self).list_stack@), int_table(old(self).list_emitted), pp.num_id, list_level(pp.ilvl));
                &&& close@ == Seq::<char>::empty()
                &&& lists_view(final(self).list_stack@) == item_opened(t.0)
                &&& final(self).out@ == old(self).out@ + t.1 + item_html(t.0)
                &&& int_table(final(self).list_emitted) == counts_after_item(
                    int_table(old(self).list_emitted),
                    pp.num_id,
                    list_level(pp.ilvl),
                )
            }),
            !(pp.num_id > 0 && pp.heading == 0) ==> ({
                &&& final(self).list_stack@.len() == 0
                &&& final(self).list_emitted == old(self).list_emitted
                &&& close@ == "</"@ + para_tag(pp.heading) + ">"@
                &&& final(self).out@ == old(self).out@ + closings(lists_view(old(self).list_stack@), 0) + para_open_html(pp@)
            }),
            old(self).out@.is_prefix_of(final(self).out@),
            (doc_state(*final(self)), close@) == paragraph_opened(env_of(*old(self)), doc_state(*old(self)), pp@),
    {
        if pp.num_id > 0 && pp.heading == 0 {
            let lvl = clamp_list_level(pp.ilvl);
            self.set_list_state(pp.num_id, pp.ilvl);
            let ghost t = list_transition(numbering_tables(*old(self)), lists_view(old(self).list_stack@), int_table(old(self).list_emitted), pp.num_id, lvl);
            let ghost o1 = self.out@;
            let n = self.list_stack.len();
            if n > 0 {
                let ghost ls = self.list_stack@;
                let top = self.list_stack.pop().unwrap();
                if top.li_open {
                    self.out.append("</li>");
                }
                self.out.append("<li>");
                self.list_stack.push(OpenList { tag: top.tag, li_open: true });
                proof {
                    assert(lists_view(self.list_stack@) =~= item_opened(lists_view(ls)));
                    assert(self.out@ =~= o1 + item_html(lists_view(ls)));
                }
            } else {
                assert(self.out@ =~= o1 + item_html(t.0));
            }
            self.note_item(pp.num_id, lvl);
            proof {
                reveal_strlit("");
            }
            return String::new();
        }
        self.close_lists(0);
        assert(lists_view(self.list_stack@) =~= Seq::<ListView>::empty());
        para_open(&mut self.out, pp)
    }

    /// Counts an item of level `ilvl` of list `num_id`, and forgets the counts of the deeper levels.
    pub(crate) fn note_item(&mut self, num_id: i32, ilvl: i32)
        requires
            old(self).wf(),
        ensures
            final(self).wf(),
            final(self).title == old(self).title,
            same_but_emitted(*final(self), *old(self)),
            final(self).list_stack == old(self).list_stack,
            final(self).out == old(self).out,
            final(self).fields == old(self).fields,
            final(self).fn_order == old(self).fn_order,
            final(self).en_order == old(self).en_order,
            int_table(final(self).list_emitted) == counts_after_item(int_table(old(self).list_emitted), num_id, ilvl),
    {
        let key = list_key(num_id, ilvl);
        let count = match self.list_emitted.get(key) {
            Some(x) => *x,
            None => 0,
        };
        self.list_emitted.insert(key, count.wrapping_add(1));
        let ghost m0 = old(self).list_emitted;
        let mut l: i64 = ilvl as i64 + 1;
        while l <= 8
            invariant
                self.wf(),
                self.title == old(self).title,
                same_but_emitted(*self, *old(self)),
                self.list_stack == old(self).list_stack,
                self.out == old(self).out,
                self.fields == old(self).fields,
                self.fn_order == old(self).fn_order,
                self.en_order == old(self).en_order,
                m0 == old(self).list_emitted,
                key == list_key_spec(num_id, ilvl),
                count == match m0.get_spec(key) {
                    Some(x) => x,
                    None => 0i32,
                },
                ilvl as i64 + 1 <= l,
                l <= 9 || l == ilvl as i64 + 1,
                forall|k: u64| #[trigger] self.list_emitted.get_spec(k) == if exists|j: int| ilvl < j < l && j <= 8 && k == #[trigger] level_key(num_id, j) {
                    None
                } else if k == key {
                    Some(count.wrapping_add(1))
                } else {
                    m0.get_spec(k)
                },
            decreases 9 - l,
        {
            let ghost before = self.list_emitted;
            let rk = list_key(num_id, l as i32);
            self.list_emitted.remove(rk);
            proof {
                assert forall|k: u64| #[trigger] self.list_emitted.get_spec(k) == if exists|j: int| ilvl < j < l + 1 && j <= 8 && k == #[trigger] level_key(num_id, j) {
                    None
                } else if k == key {
                    Some(count.wrapping_add(1))
                } else {
                    m0.get_spec(k)
                } by {
                    if k == rk {
                        assert(ilvl < l < l + 1 && l <= 8 && k == level_key(num_id, l as int));
                    } else {
                        if exists|j: int| ilvl < j < l + 1 && j <= 8 && k == #[trigger] level_key(num_id, j) {
                            let j = choose|j: int| ilvl < j < l + 1 && j <= 8 && k == #[trigger] level_key(num_id, j);
                            assert(j != l);
                        }
                    }
                }
            }
            l += 1;
        }
        proof {
            let m = counts_after_item(int_table(m0), num_id, ilvl);
            assert forall|k: u64| #[trigger] int_table(self.list_emitted).dom().contains(k) == m.dom().contains(k)
                && (m.dom().contains(k) ==> int_table(self.list_emitted)[k] == m[k]) by {
                assert(self.list_emitted.get_spec(k) == if exists|j: int| ilvl < j < l && j <= 8 && k == #[trigger] level_key(num_id, j) {
                    None
                } else if k == key {
                    Some(count.wrapping_add(1))
                } else {
                    m0.get_spec(k)
                });
                if exists|j: int| ilvl < j < l && j <= 8 && k == #[trigger] level_key(num_id, j) {
                    let j = choose|j: int| ilvl < j < l && j <= 8 && k == #[trigger] level_key(num_id, j);
                    assert(ilvl < j <= 8 && k == level_key(num_id, j));
                }
                if exists|j: int| ilvl < j <= 8 && k == #[trigger] level_key(num_id, j) {
                    let j = choose|j: int| ilvl < j <= 8 && k == #[trigger] level_key(num_id, j);
                    assert(ilvl < j < l && j <= 8 && k == level_key(num_id, j));
                }
            }
            assert(int_table(self.list_emitted) =~= m);
        }
    }
}


/// The position of `id` in `order`, appending it first when it is not there yet.
fn note_index(order: &mut Vec<String>, id: &str) -> (idx: usize)
    ensures
        idx < final(order)@.len(),
        idx < usize::MAX,
        strings_view(final(order)@)[idx as int] == id@,
        forall|j: int| 0 <= j < idx ==> strings_view(old(order)@)[j] != id@,
        strings_view(old(order)@).contains(id@) ==> strings_view(final(order)@) == strings_view(
            old(order)@,
        ),
        !strings_view(old(order)@).contains(id@) ==> strings_view(final(order)@) == strings_view(
            old(order)@,
        ).push(id@),
{
    let ghost s0 = strings_view(order@);
    let mut i: usize = 0;
    while i < order.len()
        invariant
            i <= order@.len(),
            order@ == old(order)@,
            s0 == strings_view(order@),
            forall|j: int| 0 <= j < i ==> s0[j] != id@,
        decreases order@.len() - i,
    {
        if str_eq(order[i].as_str(), id) {
            assert(s0[i as int] == id@);
            return i;
        }
        i += 1;
    }
    assert(!s0.contains(id@));
    order.push(owned(id));
    assert(strings_view(order@) =~= s0.push(id@));
    order.len() - 1
}

impl<'a> Converter<'a> {
    pub(crate) fn parse_para_props(&mut self, xp: &mut XmlParser, pp: &mut ParaProps)
        requires
            old(self).wf(),
            old(xp).wf(),
        ensures
            *final(self) == *old(self),
            progressed(*old(xp), *final(xp)),
            (final(pp)@, final(xp).state()) == element_walk(
                old(xp).input(),
                old(xp).state(),
                1,
                old(pp)@,
                para_step(str_table(old(self).heading_by_style)),
            ),
    {
        let ghost p0 = xp.position();
        let ghost b = xp.input();
        let ghost f = para_step(str_table(self.heading_by_style));
        let ghost goal = element_walk(b, xp.state(), 1, pp@, f);
        let mut depth: usize = 1;
        while depth > 0
            invariant
                self.wf(),
                *self == *old(self),
                progressed(*old(xp), *xp),
                xp.input() == b,
                xp.position() >= p0,
                p0 == old(xp).position(),
                p0 >= 0,
                2 * (depth - 1) <= xp.position() - p0,
                f == para_step(str_table(self.heading_by_style)),
                element_walk(b, xp.state(), depth as int, pp@, f) == goal,
                goal == element_walk(old(xp).input(), old(xp).state(), 1, old(pp)@, f),
            decreases xp.rank(),
        {
            match xp.next() {
                Event::Eof => return,
                Event::Start => {
                    self.apply_para_prop(xp, pp);
                    depth += 1;
                },
                Event::End => depth -= 1,
                _ => {},
            }
        }
    }

    /// Applies the paragraph property element the parser stands on to `pp`.
    pub(crate) fn apply_para_prop(&self, xp: &XmlParser, pp: &mut ParaProps)
        requires
            self.wf(),
        ensures
            final(pp)@ == para_prop_applied(str_table(self.heading_by_style), old(pp)@, xp.cur_name(), xp.cur_attrs()),
    {
        let n = xp.name();
        if str_eq(n, "w:pStyle") {
            pp.style_id = owned(xp.attr("w:val"));
            if let Some(h) = self.heading_by_style.get(pp.style_id.as_str()) {
                pp.heading = *h;
            }
        } else if str_eq(n, "w:jc") {
            pp.align = map_align(xp.attr("w:val"));
        } else if str_eq(n, "w:ilvl") {
            pp.ilvl = sv_to_int(xp.attr("w:val"));
        } else if str_eq(n, "w:numId") {
            pp.num_id = sv_to_int(xp.attr("w:val"));
        } else if str_eq(n, "w:ind") {
            let mut left = xp.attr("w:left");
            if left.is_empty() {
                left = xp.attr("w:start");
            }
            let hanging = sv_to_int(xp.attr("w:hanging"));
            let first_line = sv_to_int(xp.attr("w:firstLine"));
            let ghost c0 = pp.css@;
            append_pt(&mut pp.css, "margin-left", sv_to_int(left));
            let ghost c1 = pp.css@;
            if hanging != 0 {
                append_pt(&mut pp.css, "text-indent", 0i32.wrapping_sub(hanging));
            } else if first_line != 0 {
                append_pt(&mut pp.css, "text-indent", first_line);
            }
            proof {
                assert(pp.css@ =~= c0 + pt_decl("margin-left"@, int_value(left.spec_bytes()) as int) + if hanging != 0 {
                    pt_decl("text-indent"@, 0i32.wrapping_sub(hanging) as int)
                } else if first_line != 0 {
                    pt_decl("text-indent"@, first_line as int)
                } else {
                    Seq::empty()
                });
            }
        } else if str_eq(n, "w:shd") {
            append_fill(&mut pp.css, xp.attr("w:fill"));
        } else if str_eq(n, "w:bidi") {
            pp.rtl = toggle_on(xp.attr("w:val"));
        }
    }

    pub(crate) fn parse_run_props(&mut self, xp: &mut XmlParser, rp: &mut RunProps)
        requires
            old(self).wf(),
            old(xp).wf(),
        ensures
            *final(self) == *old(self),
            progressed(*old(xp), *final(xp)),
            (final(rp)@, final(xp).state()) == element_walk(
                old(xp).input(),
                old(xp).state(),
                1,
                old(rp)@,
                run_step(char_table(old(self).char_style)),
            ),
    {
        let ghost p0 = xp.position();
        let ghost b = xp.input();
        let ghost f = run_step(char_table(self.char_style));
        let ghost goal = element_walk(b, xp.state(), 1, rp@, f);
        let mut depth: usize = 1;
        while depth > 0
            invariant
                self.wf(),
                *self == *old(self),
                progressed(*old(xp), *xp),
                xp.input() == b,
                xp.position() >= p0,
                p0 == old(xp).position(),
                p0 >= 0,
                2 * (depth - 1) <= xp.position() - p0,
                f == run_step(char_table(self.char_style)),
                element_walk(b, xp.state(), depth as int, rp@, f) == goal,
                goal == element_walk(old(xp).input(), old(xp).state(), 1, old(rp)@, f),
            decreases xp.rank(),
        {
            match xp.next() {
                Event::Eof => return,
                Event::Start => {
                    let n = xp.name();
                    if str_eq(n, "w:rStyle") {
                        if let Some(base) = self.char_style.get(xp.attr("w:val")) {
                            *rp = base.copy();
                        }
                    } else {
                        apply_run_prop(rp, n, xp.attr("w:val"));
                    }
                    depth += 1;
                },
                Event::End => depth -= 1,
                _ => {},
            }
        }
    }

    pub(crate) fn parse_text(&mut self, xp: &mut XmlParser)
        requires
            old(xp).wf(),
        ensures
            progressed(*old(xp), *final(xp)),
            final(self).wf() == old(self).wf(),
            final(self).title == old(self).title,
            same_but_fields(*final(self), *old(self)),
            final(self).fields == old(self).fields,
            ({
                let (t, st) = text_walk(old(xp).input(), old(xp).state(), Seq::empty(), false);
                final(self).out@ == old(self).out@ + t && final(xp).state() == st
            }),
            old(self).out@.is_prefix_of(final(self).out@),
            doc_state(*final(self)) == written(doc_state(*old(self)), text_walk(old(xp).input(), old(xp).state(), Seq::empty(), false).0),
            same_but_emitted(*final(self), *old(self)),
    {
        let ghost b = xp.input();
        let ghost o0 = self.out@;
        let ghost goal = text_walk(b, xp.state(), Seq::empty(), false);
        proof {
            assert(o0 + Seq::<char>::empty() =~= o0);
            assert(self.out@.subrange(o0.len() as int, self.out@.len() as int) =~= Seq::<char>::empty());
        }
        loop
            invariant
                progressed(*old(xp), *xp),
                xp.input() == b,
                self.wf() == old(self).wf(),
                self.title == old(self).title,
                same_but_fields(*self, *old(self)),
                self.fields == old(self).fields,
                o0 == old(self).out@,
                goal == text_walk(b, old(xp).state(), Seq::empty(), false),
                self.out@.len() >= o0.len(),
                text_walk(b, xp.state(), self.out@.subrange(o0.len() as int, self.out@.len() as int), false) == goal,
                self.out@ == o0 + self.out@.subrange(o0.len() as int, self.out@.len() as int),
            decreases xp.rank(),
        {
            let ghost acc = self.out@.subrange(o0.len() as int, self.out@.len() as int);
            match xp.next() {
                Event::Eof | Event::End => return,
                Event::Text => {
                    self.out.append(xp.text());
                    assert(self.out@.subrange(o0.len() as int, self.out@.len() as int) =~= acc + xp.cur_text());
                },
                _ => {},
            }
        }
    }

    pub(crate) fn parse_cell_props(&mut self, xp: &mut XmlParser, cell: &mut CellData)
        requires
            old(self).wf(),
            old(xp).wf(),
            old(cell).colspan >= 1,
        ensures
            *final(self) == *old(self),
            progressed(*old(xp), *final(xp)),
            final(cell).colspan >= 1,
            final(cell).html == old(cell).html,
            (cell_props(*final(cell)), final(xp).state()) == element_walk(
                old(xp).input(),
                old(xp).state(),
                1,
                cell_props(*old(cell)),
                cell_step(),
            ),
    {
        let ghost p0 = xp.position();
        let ghost b = xp.input();
        let ghost goal = element_walk(b, xp.state(), 1, cell_props(*cell), cell_step());
        let mut depth: usize = 1;
        while depth > 0
            invariant
                self.wf(),
                *self == *old(self),
                progressed(*old(xp), *xp),
                xp.input() == b,
                xp.position() >= p0,
                p0 == old(xp).position(),
                p0 >= 0,
                2 * (depth - 1) <= xp.position() - p0,
                cell.colspan >= 1,
                cell.html == old(cell).html,
                element_walk(b, xp.state(), depth as int, cell_props(*cell), cell_step()) == goal,
                goal == element_walk(old(xp).input(), old(xp).state(), 1, cell_props(*old(cell)), cell_step()),
            decreases xp.rank(),
        {
            match xp.next() {
                Event::Eof => return,
                Event::Start => {
                    let n = xp.name();
                    let ghost c0 = cell.css@;
                    if str_eq(n, "w:gridSpan") {
                        let span = sv_to_int(xp.attr("w:val"));
                        cell.colspan = if span < 1 { 1 } else { span };
                    } else if str_eq(n, "w:vMerge") {
                        cell.vmerge = if str_eq(xp.attr("w:val"), "restart") { 1 } else { 2 };
                    } else if str_eq(n, "w:shd") {
                        append_fill(&mut cell.css, xp.attr("w:fill"));
                    } else if str_eq(n, "w:vAlign") {
                        let v = xp.attr("w:val");
                        if str_eq(v, "center") {
                            cell.css.append("vertical-align:middle;");
                        } else if str_eq(v, "bottom") {
                            cell.css.append("vertical-align:bottom;");
                        }
                        assert(cell.css@ =~= c0 + if v@ == "center"@ {
                            "vertical-align:middle;"@
                        } else if v@ == "bottom"@ {
                            "vertical-align:bottom;"@
                        } else {
                            Seq::<char>::empty()
                        });
                    }
                    depth += 1;
                },
                Event::End => depth -= 1,
                _ => {},
            }
        }
    }

    // ---- fields, notes, symbols ----

    pub(crate) fn handle_fld_char(&mut self, xp: &mut XmlParser)
        requires
            old(self).wf(),
            old(xp).wf(),
        ensures
            final(self).wf(),
            final(self).title == old(self).title,
            progressed(*old(xp), *final(xp)),
            same_but_fields(*final(self), *old(self)),
            final(xp).state() == skip_from(old(xp).input(), old(xp).state(), 1),
            ({
                let (fs, html) = fld_char_effect(
                    fields_view(old(self).fields@),
                    attr_lookup(old(xp).cur_attrs(), "w:fldCharType"@),
                );
                fields_view(final(self).fields@) == fs && final(self).out@ == old(self).out@ + html
            }),
            old(self).out@.is_prefix_of(final(self).out@),
            doc_state(*final(self)) == fld_char_done(doc_state(*old(self)), old(xp).cur_attrs()),
            same_but_emitted(*final(self), *old(self)),
    {
        let ty = xp.attr("w:fldCharType");
        let ghost fs0 = fields_view(self.fields@);
        if str_eq(ty, "begin") {
            self.fields.push(Field { instr: String::new(), collecting: true, open: false });
            proof {
                reveal_strlit("");
                assert(fields_view(self.fields@) =~= fs0.push((Seq::empty(), true, false)));
            }
        } else if str_eq(ty, "separate") {
            let n = self.fields.len();
            if n > 0 && self.fields[n - 1].collecting {
                let f = self.fields.pop().unwrap();
                let href = hyperlink_from_instr(f.instr.as_str());
                let mut open = false;
                let ghost o1 = self.out@;
                if !href.as_str().is_empty() {
                    self.out.append("<a href=\"");
                    append_escaped_attr(href.as_str(), &mut self.out);
                    self.out.append("\">");
                    open = true;
                }
                let ghost iv = f.instr@;
                self.fields.push(Field { instr: f.instr, collecting: false, open });
                proof {
                    assert(fields_view(self.fields@) =~= fs0.drop_last().push((iv, false, href@.len() > 0)));
                    assert(self.out@ =~= o1 + if href@.len() > 0 {
                        "<a href=\""@ + escape_attr(href@) + "\">"@
                    } else {
                        Seq::empty()
                    });
                }
            } else {
                assert(self.out@ =~= old(self).out@ + Seq::<char>::empty());
            }
        } else if str_eq(ty, "end") {
            if let Some(f) = self.fields.pop() {
                if f.open {
                    self.out.append("</a>");
                }
                assert(fields_view(self.fields@) =~= fs0.drop_last());
                assert(self.out@ =~= old(self).out@ + if f.open { "</a>"@ } else { Seq::<char>::empty() });
            } else {
                assert(self.out@ =~= old(self).out@ + Seq::<char>::empty());
            }
        } else {
            assert(self.out@ =~= old(self).out@ + Seq::<char>::empty());
        }
        xp.skip_element();
    }

    pub(crate) fn handle_instr_text(&mut self, xp: &mut XmlParser)
        requires
            old(self).wf(),
            old(xp).wf(),
        ensures
            final(self).wf(),
            final(self).title == old(self).title,
            progressed(*old(xp), *final(xp)),
            same_but_fields(*final(self), *old(self)),
            final(self).out == old(self).out,
            ({
                let fs = fields_view(old(self).fields@);
                if fs.len() == 0 || !fs.last().1 {
                    fields_view(final(self).fields@) == fs && final(xp).state() == skip_from(
                        old(xp).input(),
                        old(xp).state(),
                        1,
                    )
                } else {
                    let (t, st) = text_walk(old(xp).input(), old(xp).state(), Seq::empty(), true);
                    fields_view(final(self).fields@) == fs.drop_last().push((fs.last().0 + t, fs.last().1, fs.last().2))
                        && final(xp).state() == st
                }
            }),
            (doc_state(*final(self)), final(xp).state()) == instr_text_done(old(xp).input(), old(xp).state(), doc_state(*old(self))),
            same_but_emitted(*final(self), *old(self)),
    {
        let n = self.fields.len();
        if n == 0 || !self.fields[n - 1].collecting {
            xp.skip_element();
            return;
        }
        let ghost b = xp.input();
        let ghost goal = text_walk(b, xp.state(), Seq::empty(), true);
        let mut collected = String::new();
        proof {
            reveal_strlit("");
        }
        loop
            invariant_except_break
                text_walk(b, xp.state(), collected@, true) == goal,
            invariant
                progressed(*old(xp), *xp),
                xp.input() == b,
                goal == text_walk(b, old(xp).state(), Seq::empty(), true),
            ensures
                goal == (collected@, xp.state()),
            decreases xp.rank(),
        {
            match xp.next() {
                Event::Eof | Event::End => break,
                Event::Text => XmlParser::append_decoded(xp.text(), &mut collected),
                _ => {},
            }
        }
        let ghost fs0 = fields_view(self.fields@);
        let f = self.fields.pop().unwrap();
        let mut instr = f.instr;
        instr.append(collected.as_str());
        self.fields.push(Field { instr, collecting: f.collecting, open: f.open });
        assert(fields_view(self.fields@) =~= fs0.drop_last().push((fs0.last().0 + collected@, fs0.last().1, fs0.last().2)));
    }

    pub(crate) fn emit_sym(&mut self, xp: &mut XmlParser)
        requires
            old(self).wf(),
            old(xp).wf(),
        ensures
            final(self).wf(),
            final(self).title == old(self).title,
            progressed(*old(xp), *final(xp)),
            same_but_fields(*final(self), *old(self)),
            final(self).fields == old(self).fields,
            final(xp).state() == skip_from(old(xp).input(), old(xp).state(), 1),
            final(self).out@ == old(self).out@ + sym_html(
                xml_decode(encode_utf8(attr_lookup(old(xp).cur_attrs(), "w:font"@))),
                hex_or_zero(encode_utf8(attr_lookup(old(xp).cur_attrs(), "w:char"@))),
            ),
            old(self).out@.is_prefix_of(final(self).out@),
            doc_state(*final(self)) == sym_done(doc_state(*old(self)), old(xp).cur_attrs()),
            same_but_emitted(*final(self), *old(self)),
    {
        let font = decode_attr(xp.attr("w:font"));
        let cp = sv_to_hex(xp.attr("w:char"));
        xp.skip_element();
        if cp == 0 {
            assert(self.out@ =~= old(self).out@ + sym_html(font@, cp));
            return;
        }
        if !font.as_str().is_empty() {
            self.out.append("<span style=\"font-family:'");
            append_escaped_attr(font.as_str(), &mut self.out);
            self.out.append("'\">");
        }
        self.out.append("&#x");
        append_hex_upper(&mut self.out, cp);
        push_char(&mut self.out, ';');
        if !font.as_str().is_empty() {
            self.out.append("</span>");
        }
        proof {
            reveal_strlit(";");
            assert(self.out@ =~= old(self).out@ + sym_html(font@, cp));
        }
    }

    pub(crate) fn emit_note_ref(&mut self, xp: &mut XmlParser, footnote: bool, already_super: bool)
        requires
            old(self).wf(),
            old(xp).wf(),
        ensures
            final(self).wf(),
            final(self).title == old(self).title,
            progressed(*old(xp), *final(xp)),
            same_setup(*final(self), *old(self)),
            final(self).list_stack == old(self).list_stack,
            final(self).fields == old(self).fields,
            final(xp).state() == skip_from(old(xp).input(), old(xp).state(), 1),
            ({
                let id = attr_lookup(old(xp).cur_attrs(), "w:id"@);
                let order = if footnote { old(self).fn_order@ } else { old(self).en_order@ };
                let new_order = if footnote { final(self).fn_order@ } else { final(self).en_order@ };
                let other_same = if footnote {
                    final(self).en_order == old(self).en_order
                } else {
                    final(self).fn_order == old(self).fn_order
                };
                &&& other_same
                &&& id.len() == 0 ==> final(self).out == old(self).out && new_order == order
                &&& id.len() > 0 ==> strings_view(new_order) == order_with(strings_view(order), id)
                    && final(self).out@ == old(self).out@ + note_ref_html(
                    footnote,
                    id,
                    (position_of(order_with(strings_view(order), id), id) + 1) as nat,
                    already_super,
                )
            }),
            old(self).out@.is_prefix_of(final(self).out@),
            doc_state(*final(self)) == note_ref_done(doc_state(*old(self)), footnote, old(xp).cur_attrs(), already_super),
            same_but_emitted(*final(self), *old(self)),
    {
        let id = owned(xp.attr("w:id"));
        xp.skip_element();
        if id.as_str().is_empty() {
            return;
        }
        let ghost ord0 = if footnote { strings_view(self.fn_order@) } else { strings_view(self.en_order@) };
        let idx = if footnote {
            note_index(&mut self.fn_order, id.as_str())
        } else {
            note_index(&mut self.en_order, id.as_str())
        };
        append_note_ref(&mut self.out, footnote, id.as_str(), idx + 1, already_super);
        proof {
            let new_order = if footnote { strings_view(self.fn_order@) } else { strings_view(self.en_order@) };
            assert(new_order =~= order_with(ord0, id@));
            assert(forall|j: int| 0 <= j < idx ==> new_order[j] != id@) by {
                assert forall|j: int| 0 <= j < idx implies new_order[j] != id@ by {
                    if !ord0.contains(id@) {
                        assert(new_order[j] == ord0[j]);
                    }
                }
            }
            assert(new_order[idx as int] == id@);
            lemma_position_of(new_order, id@, idx as int);
        }
    }
}


impl<'a> Converter<'a> {
    // ---- document traversal ----

    /// Appends `s` to the output.
    pub(crate) fn emit(&mut self, s: &str)
        ensures
            final(self).out@ == old(self).out@ + s@,
            old(self).out@.is_prefix_of(final(self).out@),
            same_but_fields(*final(self), *old(self)),
            final(self).fields == old(self).fields,
            doc_state(*final(self)) == written(doc_state(*old(self)), s@),
            same_but_emitted(*final(self), *old(self)),
    {
        self.out.append(s);
    }

    /// Appends the start tag of a link to `href` with tooltip `title`.
    pub(crate) fn emit_link_open(&mut self, href: &str, title: &str)
        ensures
            final(self).out@ == old(self).out@ + link_open(href@, title@),
            old(self).out@.is_prefix_of(final(self).out@),
            same_but_fields(*final(self), *old(self)),
            final(self).fields == old(self).fields,
            doc_state(*final(self)) == written(doc_state(*old(self)), link_open(href@, title@)),
            same_but_emitted(*final(self), *old(self)),
    {
        if !href.is_empty() {
            self.emit("<a href=\"");
            self.emit_attr(href);
            if !title.is_empty() {
                self.emit("\" title=\"");
                self.emit_attr(title);
            }
            self.emit("\">");
        }
        assert(self.out@ =~= old(self).out@ + link_open(href@, title@));
    }

    /// Appends `s` to the output, escaped for an attribute value.
    pub(crate) fn emit_attr(&mut self, s: &str)
        ensures
            final(self).out@ == old(self).out@ + escape_attr(s@),
            old(self).out@.is_prefix_of(final(self).out@),
            same_but_fields(*final(self), *old(self)),
            final(self).fields == old(self).fields,
            doc_state(*final(self)) == written(doc_state(*old(self)), escape_attr(s@)),
            same_but_emitted(*final(self), *old(self)),
    {
        append_escaped_attr(s, &mut self.out);
    }

    pub(crate) fn parse_blocks(&mut self, xp: &mut XmlParser, end_name: &str, depth: i32)
        requires
            old(self).wf(),
            old(xp).wf(),
            0 <= depth <= MAX_DEPTH + 1,
        ensures
            final(self).wf(),
            final(self).title == old(self).title,
            progressed(*old(xp), *final(xp)),
            old(self).out@.is_prefix_of(final(self).out@),
            same_but_emitted(*final(self), *old(self)),
            (doc_state(*final(self)), final(xp).state()) == blocks_walk(
                env_of(*old(self)),
                old(xp).input(),
                old(xp).state(),
                doc_state(*old(self)),
                end_name@,
                depth as int,
            ),
        decreases old(xp).rank(), 0int,
    {
        let ghost env = env_of(*self);
        let ghost b = xp.input();
        let ghost goal = blocks_walk(env, b, xp.state(), doc_state(*self), end_name@, depth as int);
        loop
            invariant
                old(self).out@.is_prefix_of(self.out@),
                self.wf(),
                self.title == old(self).title,
                progressed(*old(xp), *xp),
                0 <= depth <= MAX_DEPTH + 1,
                same_but_emitted(*self, *old(self)),
                env == env_of(*old(self)),
                b == old(xp).input(),
                goal == blocks_walk(env, b, old(xp).state(), doc_state(*old(self)), end_name@, depth as int),
                blocks_walk(env, b, xp.state(), doc_state(*self), end_name@, depth as int) == goal,
            decreases xp.rank(),
        {
            let ghost st = xp.state();
            let ev = xp.next();
            if ev == Event::Eof {
                return;
            }
            if ev == Event::End {
                if str_eq(xp.name(), end_name) {
                    return;
                }
            } else if ev == Event::Start {
                let name = xp.name();
                self.parse_block_child(xp, name, depth);
            }
        }
    }

    pub(crate) fn parse_block_child(&mut self, xp: &mut XmlParser, name: &str, depth: i32)
        requires
            old(self).wf(),
            old(xp).wf(),
            0 <= depth <= MAX_DEPTH + 1,
        ensures
            final(self).wf(),
            final(self).title == old(self).title,
            progressed(*old(xp), *final(xp)),
            depth > MAX_DEPTH ==> *final(self) == *old(self) && final(xp).state() == skip_from(
                old(xp).input(),
                old(xp).state(),
                1,
            ),
            old(self).out@.is_prefix_of(final(self).out@),
            same_but_emitted(*final(self), *old(self)),
            (doc_state(*final(self)), final(xp).state()) == block_child_walk(
                env_of(*old(self)),
                old(xp).input(),
                old(xp).state(),
                doc_state(*old(self)),
                name@,
                depth as int,
            ),
        decreases old(xp).rank(), 2int,
    {
        proof {
            reveal_strlit("w:p");
            reveal_strlit("w:tbl");
            reveal_strlit("w:sectPr");
            reveal_strlit("w:sdtPr");
            reveal_strlit("w:sdtEndPr");
            reveal_strlit("w:del");
            reveal_strlit("w:moveFrom");
            assert("w:p"@.len() == 3 && "w:tbl"@.len() == 5 && "w:sectPr"@.len() == 8);
            assert("w:sdtPr"@.len() == 7 && "w:sdtEndPr"@.len() == 10 && "w:del"@.len() == 5);
            assert("w:moveFrom"@.len() == 10);
            assert("w:tbl"@[2] == 't' && "w:del"@[2] == 'd');
            assert("w:sdtEndPr"@[2] == 's' && "w:moveFrom"@[2] == 'm');
        }
        if depth > MAX_DEPTH {
            xp.skip_element();
            return;
        }
        let d = depth + 1;
        if str_eq(name, "w:p") {
            self.parse_paragraph(xp, d);
        } else if str_eq(name, "w:tbl") {
            self.close_lists(0);
            self.parse_table(xp, d);
        } else if str_eq(name, "w:sectPr") || str_eq(name, "w:sdtPr") || str_eq(name, "w:sdtEndPr")
            || str_eq(name, "w:del") || str_eq(name, "w:moveFrom") {
            xp.skip_element();
        } else {
            self.parse_blocks(xp, name, d);
        }
    }

    pub(crate) fn parse_paragraph(&mut self, xp: &mut XmlParser, depth: i32)
        requires
            old(self).wf(),
            old(xp).wf(),
            0 <= depth <= MAX_DEPTH + 1,
        ensures
            final(self).wf(),
            final(self).title == old(self).title,
            progressed(*old(xp), *final(xp)),
            old(self).out@.is_prefix_of(final(self).out@),
            same_but_emitted(*final(self), *old(self)),
            (doc_state(*final(self)), final(xp).state()) == paragraph_walk(
                env_of(*old(self)),
                old(xp).input(),
                old(xp).state(),
                doc_state(*old(self)),
                depth as int,
            ),
        decreases old(xp).rank(), 1int,
    {
        let ghost env = env_of(*self);
        let ghost b = xp.input();
        let mut pp = ParaProps::new();
        let mut close_tag = String::new();
        let mut opened = false;
        proof {
            reveal_strlit("");
            assert(pp.align@ =~= Seq::<char>::empty());
            assert(pp.style_id@ =~= Seq::<char>::empty());
            assert(pp.css@ =~= Seq::<char>::empty());
            assert(pp@ == plain_paragraph());
            assert(close_tag@ =~= Seq::<char>::empty());
        }
        let ghost goal = paragraph_children(env, b, xp.state(), doc_state(*self), pp@, close_tag@, opened, depth as int);
        loop
            invariant_except_break
                paragraph_children(env, b, xp.state(), doc_state(*self), pp@, close_tag@, opened, depth as int) == goal,
            invariant
                old(self).out@.is_prefix_of(self.out@),
                self.wf(),
                self.title == old(self).title,
                progressed(*old(xp), *xp),
                0 <= depth <= MAX_DEPTH + 1,
                same_but_emitted(*self, *old(self)),
                env == env_of(*old(self)),
                b == old(xp).input(),
                goal == paragraph_children(
                    env,
                    b,
                    old(xp).state(),
                    doc_state(*old(self)),
                    plain_paragraph(),
                    Seq::empty(),
                    false,
                    depth as int,
                ),
            ensures
                goal == (doc_state(*self), xp.state(), pp@, close_tag@, opened),
            decreases xp.rank(),
        {
            let ev = xp.next();
            if ev == Event::Eof {
                break;
            }
            if ev == Event::End {
                if str_eq(xp.name(), "w:p") {
                    break;
                }
            } else if ev == Event::Start {
                let n = xp.name();
                if str_eq(n, "w:pPr") {
                    self.read_paragraph_props(xp, &mut pp);
                } else {
                    self.paragraph_content(xp, n, &pp, &mut close_tag, &mut opened, depth);
                }
            }
        }
        let ghost d1 = doc_state(*self);
        self.close_field_links();
        if !opened {
            close_tag = self.open_paragraph(&pp);
        }
        self.emit(close_tag.as_str());
    }

    /// Reads the paragraph properties element the parser stands on into `pp`, and takes the list
    /// numbering of the paragraph's style when the properties name no list.
    pub(crate) fn read_paragraph_props(&mut self, xp: &mut XmlParser, pp: &mut ParaProps)
        requires
            old(self).wf(),
            old(xp).wf(),
        ensures
            *final(self) == *old(self),
            progressed(*old(xp), *final(xp)),
            ({
                let w = element_walk(
                    old(xp).input(),
                    old(xp).state(),
                    1,
                    old(pp)@,
                    para_step(str_table(old(self).heading_by_style)),
                );
                final(pp)@ == with_style_numbering(env_of(*old(self)), w.0) && final(xp).state() == w.1
            }),
    {
        self.parse_para_props(xp, pp);
        if pp.num_id < 0 && !pp.style_id.as_str().is_empty() {
            if let Some(sn) = self.style_num.get(pp.style_id.as_str()) {
                pp.num_id = sn.num_id;
                pp.ilvl = sn.ilvl;
            }
        }
    }

    /// The content element `n` of a paragraph whose start tag the parser read: opens the
    /// paragraph first when it is not open yet.
    pub(crate) fn paragraph_content(
        &mut self,
        xp: &mut XmlParser,
        n: &str,
        pp: &ParaProps,
        close_tag: &mut String,
        opened: &mut bool,
        depth: i32,
    )
        requires
            old(self).wf(),
            old(xp).wf(),
            0 <= depth <= MAX_DEPTH + 1,
        ensures
            final(self).wf(),
            final(self).title == old(self).title,
            progressed(*old(xp), *final(xp)),
            old(self).out@.is_prefix_of(final(self).out@),
            same_but_emitted(*final(self), *old(self)),
            *final(opened),
            ({
                let o = if *old(opened) {
                    (doc_state(*old(self)), old(close_tag)@)
                } else {
                    paragraph_opened(env_of(*old(self)), doc_state(*old(self)), pp@)
                };
                &&& final(close_tag)@ == o.1
                &&& (doc_state(*final(self)), final(xp).state()) == inline_walk(
                    env_of(*old(self)),
                    old(xp).input(),
                    old(xp).state(),
                    o.0,
                    n@,
                    depth as int,
                )
            }),
        decreases old(xp).rank(), 3int,
    {
        if !*opened {
            *close_tag = self.open_paragraph(pp);
            *opened = true;
        }
        self.parse_inline(xp, n, depth);
    }

    /// Closes the links that fields opened, at the end of a paragraph.
    pub(crate) fn close_field_links(&mut self)
        requires
            old(self).wf(),
        ensures
            final(self).wf(),
            final(self).title == old(self).title,
            old(self).out@.is_prefix_of(final(self).out@),
            same_but_emitted(*final(self), *old(self)),
            doc_state(*final(self)) == links_closed(doc_state(*old(self))),
    {
        let ghost f0 = fields_view(self.fields@);
        let ghost o0 = self.out@;
        let mut i: usize = 0;
        proof {
            assert(f0.take(0) =~= Seq::<FieldView>::empty());
        }
        while i < self.fields.len()
            invariant
                old(self).out@.is_prefix_of(self.out@),
                self.wf(),
                self.title == old(self).title,
                same_but_emitted(*self, *old(self)),
                self.list_stack == old(self).list_stack,
                self.list_emitted == old(self).list_emitted,
                self.fn_order == old(self).fn_order,
                self.en_order == old(self).en_order,
                f0 == fields_view(old(self).fields@),
                o0 == old(self).out@,
                i <= self.fields@.len(),
                self.fields@.len() == f0.len(),
                forall|j: int| 0 <= j < i ==> #[trigger] fields_view(self.fields@)[j] == (f0[j].0, f0[j].1, false),
                forall|j: int| i <= j < f0.len() ==> #[trigger] fields_view(self.fields@)[j] == f0[j],
                self.out@ == o0 + field_links_closed(f0.take(i as int)),
            decreases self.fields@.len() - i,
        {
            let ghost before = self.out@;
            let ghost fv = fields_view(self.fields@);
            proof {
                assert(f0.take(i + 1).drop_last() =~= f0.take(i as int));
                assert(f0.take(i + 1).last() == f0[i as int]);
                assert(field_links_closed(f0.take(i + 1)) == field_links_closed(f0.take(i as int)) + if f0[i as int].2 {
                    "</a>"@
                } else {
                    Seq::<char>::empty()
                });
                assert(fv[i as int] == f0[i as int]);
            }
            if self.fields[i].open {
                self.emit("</a>");
                let f = self.fields.remove(i);
                self.fields.insert(i, Field { instr: f.instr, collecting: f.collecting, open: false });
                proof {
                    assert forall|j: int| 0 <= j < self.fields@.len() implies #[trigger] fields_view(self.fields@)[j] == if j == i {
                        (fv[j].0, fv[j].1, false)
                    } else {
                        fv[j]
                    } by {
                        if j < i {
                            assert(self.fields@[j] == old(self).fields@[j] || true);
                        }
                    }
                }
            }
            assert(self.out@ =~= o0 + field_links_closed(f0.take(i + 1)));
            i += 1;
        }
        proof {
            assert(f0.take(f0.len() as int) =~= f0);
            assert(fields_view(self.fields@) =~= f0.map_values(|f: FieldView| (f.0, f.1, false)));
        }
    }

    pub(crate) fn parse_inline(&mut self, xp: &mut XmlParser, name: &str, depth: i32)
        requires
            old(self).wf(),
            old(xp).wf(),
            0 <= depth <= MAX_DEPTH + 1,
        ensures
            final(self).wf(),
            final(self).title == old(self).title,
            progressed(*old(xp), *final(xp)),
            depth > MAX_DEPTH ==> *final(self) == *old(self) && final(xp).state() == skip_from(
                old(xp).input(),
                old(xp).state(),
                1,
            ),
            old(self).out@.is_prefix_of(final(self).out@),
            same_but_emitted(*final(self), *old(self)),
            (doc_state(*final(self)), final(xp).state()) == inline_walk(
                env_of(*old(self)),
                old(xp).input(),
                old(xp).state(),
                doc_state(*old(self)),
                name@,
                depth as int,
            ),
        decreases old(xp).rank(), 2int,
    {
        proof {
            reveal_strlit("w:r");
            reveal_strlit("mc:AlternateContent");
            reveal_strlit("w:hyperlink");
            reveal_strlit("w:fldSimple");
            reveal_strlit("m:t");
            reveal_strlit("w:bookmarkStart");
            reveal_strlit("w:del");
            reveal_strlit("w:moveFrom");
            reveal_strlit("w:pPr");
            assert("w:r"@.len() == 3);
            assert("w:del"@.len() == 5);
            assert("w:pPr"@.len() == 5);
            assert("m:t"@.len() == 3);
            assert("w:moveFrom"@.len() == 10);
            assert("w:hyperlink"@.len() == 11);
            assert("w:fldSimple"@.len() == 11);
            assert("w:bookmarkStart"@.len() == 15);
            assert("mc:AlternateContent"@.len() == 19);
            assert("w:r"@[0] == 'w' && "m:t"@[0] == 'm');
            assert("w:hyperlink"@[2] == 'h' && "w:fldSimple"@[2] == 'f');
            assert("w:del"@[2] == 'd' && "w:pPr"@[2] == 'p');
        }
        if depth > MAX_DEPTH {
            xp.skip_element();
            return;
        }
        let d = depth + 1;
        if str_eq(name, "w:r") {
            self.parse_run(xp, d);
        } else if str_eq(name, "w:hyperlink") {
            self.parse_hyperlink(xp, d);
        } else if str_eq(name, "w:fldSimple") {
            let instr = decode_attr(xp.attr("w:instr"));
            let href = hyperlink_from_instr(instr.as_str());
            proof {
                reveal_strlit("");
            }
            self.emit_link_open(href.as_str(), "");
            self.parse_inline_children(xp, "w:fldSimple", d);
            if !href.as_str().is_empty() {
                self.emit("</a>");
            } else {
                assert(doc_state(*self) == written(doc_state(*self), link_close(href@)));
            }
        } else if str_eq(name, "m:t") {
            self.parse_text(xp);
        } else if str_eq(name, "w:bookmarkStart") {
            let nm = xp.attr("w:name");
            if !nm.is_empty() && !str_eq(nm, "_GoBack") {
                self.emit("<a id=\"");
                let decoded = decode_attr(nm);
                self.emit_attr(decoded.as_str());
                self.emit("\"></a>");
            }
            assert(self.out@ =~= old(self).out@ + bookmark_html(nm@));
            assert(doc_state(*self) == written(doc_state(*old(self)), bookmark_html(nm@)));
            xp.skip_element();
        } else if str_eq(name, "mc:AlternateContent") {
            self.parse_alternate_inline(xp, d);
        } else if str_eq(name, "w:del") || str_eq(name, "w:moveFrom") || str_eq(name, "w:pPr") {
            xp.skip_element();
        } else {
            self.parse_inline_children(xp, name, d);
        }
    }

    /// The alternatives of an `mc:AlternateContent` whose start tag the parser read, among
    /// inline content: only the fallback is converted.
    pub(crate) fn parse_alternate_inline(&mut self, xp: &mut XmlParser, depth: i32)
        requires
            old(self).wf(),
            old(xp).wf(),
            0 <= depth <= MAX_DEPTH + 1,
        ensures
            final(self).wf(),
            final(self).title == old(self).title,
            progressed(*old(xp), *final(xp)),
            old(self).out@.is_prefix_of(final(self).out@),
            same_but_emitted(*final(self), *old(self)),
            (doc_state(*final(self)), final(xp).state()) == alternate_inline_walk(
                env_of(*old(self)),
                old(xp).input(),
                old(xp).state(),
                doc_state(*old(self)),
                depth as int,
            ),
        decreases old(xp).rank(), 0int,
    {
        let ghost env = env_of(*self);
        let ghost b = xp.input();
        let ghost goal = alternate_inline_walk(env, b, xp.state(), doc_state(*self), depth as int);
        loop
            invariant
                old(self).out@.is_prefix_of(self.out@),
                self.wf(),
                self.title == old(self).title,
                progressed(*old(xp), *xp),
                0 <= depth <= MAX_DEPTH + 1,
                same_but_emitted(*self, *old(self)),
                env == env_of(*old(self)),
                b == old(xp).input(),
                goal == alternate_inline_walk(env, b, old(xp).state(), doc_state(*old(self)), depth as int),
                alternate_inline_walk(env, b, xp.state(), doc_state(*self), depth as int) == goal,
            decreases xp.rank(),
        {
            let ev = xp.next();
            if ev == Event::Eof {
                return;
            }
            if ev == Event::End {
                if str_eq(xp.name(), "mc:AlternateContent") {
                    return;
                }
            } else if ev == Event::Start {
                if str_eq(xp.name(), "mc:Fallback") {
                    self.parse_inline_children(xp, "mc:Fallback", depth);
                } else {
                    xp.skip_element();
                }
            }
        }
    }

    pub(crate) fn parse_inline_children(&mut self, xp: &mut XmlParser, end_name: &str, depth: i32)
        requires
            old(self).wf(),
            old(xp).wf(),
            0 <= depth <= MAX_DEPTH + 1,
        ensures
            final(self).wf(),
            final(self).title == old(self).title,
            progressed(*old(xp), *final(xp)),
            old(self).out@.is_prefix_of(final(self).out@),
            same_but_emitted(*final(self), *old(self)),
            (doc_state(*final(self)), final(xp).state()) == inline_children_walk(
                env_of(*old(self)),
                old(xp).input(),
                old(xp).state(),
                doc_state(*old(self)),
                end_name@,
                depth as int,
            ),
        decreases old(xp).rank(), 0int,
    {
        let ghost env = env_of(*self);
        let ghost b = xp.input();
        let ghost goal = inline_children_walk(env, b, xp.state(), doc_state(*self), end_name@, depth as int);
        loop
            invariant
                old(self).out@.is_prefix_of(self.out@),
                self.wf(),
                self.title == old(self).title,
                progressed(*old(xp), *xp),
                0 <= depth <= MAX_DEPTH + 1,
                same_but_emitted(*self, *old(self)),
                env == env_of(*old(self)),
                b == old(xp).input(),
                goal == inline_children_walk(env, b, old(xp).state(), doc_state(*old(self)), end_name@, depth as int),
                inline_children_walk(env, b, xp.state(), doc_state(*self), end_name@, depth as int) == goal,
            decreases xp.rank(),
        {
            let ev = xp.next();
            if ev == Event::Eof {
                return;
            }
            if ev == Event::End {
                if str_eq(xp.name(), end_name) {
                    return;
                }
            } else if ev == Event::Start {
                let name = xp.name();
                self.parse_inline(xp, name, depth);
            }
        }
    }

    pub(crate) fn parse_run(&mut self, xp: &mut XmlParser, depth: i32)
        requires
            old(self).wf(),
            old(xp).wf(),
            0 <= depth <= MAX_DEPTH + 1,
        ensures
            final(self).wf(),
            final(self).title == old(self).title,
            progressed(*old(xp), *final(xp)),
            old(self).out@.is_prefix_of(final(self).out@),
            same_but_emitted(*final(self), *old(self)),
            (doc_state(*final(self)), final(xp).state()) == run_walk(
                env_of(*old(self)),
                old(xp).input(),
                old(xp).state(),
                doc_state(*old(self)),
                depth as int,
            ),
        decreases old(xp).rank(), 1int,
    {
        let mut rp = RunProps::empty();
        let mut close = String::new();
        let mut opened = false;
        proof {
            reveal_strlit("");
            assert(close@ =~= Seq::<char>::empty());
        }
        self.parse_run_children(xp, "w:r", &mut rp, &mut opened, &mut close, depth);
        if opened {
            self.emit(close.as_str());
        }
    }

    pub(crate) fn parse_run_children(
        &mut self,
        xp: &mut XmlParser,
        end_name: &str,
        rp: &mut RunProps,
        opened: &mut bool,
        close: &mut String,
        depth: i32,
    )
        requires
            old(self).wf(),
            old(xp).wf(),
            0 <= depth <= MAX_DEPTH + 1,
        ensures
            final(self).wf(),
            final(self).title == old(self).title,
            progressed(*old(xp), *final(xp)),
            old(self).out@.is_prefix_of(final(self).out@),
            same_but_emitted(*final(self), *old(self)),
            (doc_state(*final(self)), final(xp).state(), final(rp)@, *final(opened), final(close)@) == run_children_walk(
                env_of(*old(self)),
                old(xp).input(),
                old(xp).state(),
                doc_state(*old(self)),
                end_name@,
                old(rp)@,
                *old(opened),
                old(close)@,
                depth as int,
            ),
        decreases old(xp).rank(), 0int,
    {
        let ghost env = env_of(*self);
        let ghost b = xp.input();
        let ghost goal = run_children_walk(env, b, xp.state(), doc_state(*self), end_name@, rp@, *opened, close@, depth as int);
        proof {
            lemma_run_names();
        }
        loop
            invariant
                old(self).out@.is_prefix_of(self.out@),
                self.wf(),
                self.title == old(self).title,
                progressed(*old(xp), *xp),
                0 <= depth <= MAX_DEPTH + 1,
                same_but_emitted(*self, *old(self)),
                env == env_of(*old(self)),
                b == old(xp).input(),
                goal == run_children_walk(
                    env,
                    b,
                    old(xp).state(),
                    doc_state(*old(self)),
                    end_name@,
                    old(rp)@,
                    *old(opened),
                    old(close)@,
                    depth as int,
                ),
                run_children_walk(env, b, xp.state(), doc_state(*self), end_name@, rp@, *opened, close@, depth as int)
                    == goal,
            decreases xp.rank(),
        {
            proof {
                lemma_run_names();
            }
            let ev = xp.next();
            if ev == Event::Eof {
                return;
            }
            if ev == Event::End {
                if str_eq(xp.name(), end_name) {
                    return;
                }
            } else if ev == Event::Start {
                let n = xp.name();
                if str_eq(n, "mc:AlternateContent") {
                    let stop = self.parse_alternate_run(xp, rp, opened, close, depth);
                    if stop {
                        return;
                    }
                } else if str_eq(n, "w:rPr") {
                    self.parse_run_props(xp, rp);
                } else if str_eq(n, "w:fldChar") {
                    self.handle_fld_char(xp);
                } else if str_eq(n, "w:instrText") {
                    self.handle_instr_text(xp);
                } else if str_eq(n, "w:delText") || str_eq(n, "w:lastRenderedPageBreak") || str_eq(
                    n,
                    "w:footnoteRef",
                ) || str_eq(n, "w:endnoteRef") || str_eq(n, "w:separator") || str_eq(
                    n,
                    "w:continuationSeparator",
                ) || str_eq(n, "w:commentReference") || str_eq(n, "w:annotationRef") {
                    xp.skip_element();
                } else {
                    self.parse_run_element(xp, n, rp, opened, close, depth);
                }
            }
        }
    }

    /// The alternatives of an `mc:AlternateContent` whose start tag the parser read, in a run:
    /// only the fallback is converted. Returns whether the input ended inside it.
    pub(crate) fn parse_alternate_run(
        &mut self,
        xp: &mut XmlParser,
        rp: &mut RunProps,
        opened: &mut bool,
        close: &mut String,
        depth: i32,
    ) -> (stop: bool)
        requires
            old(self).wf(),
            old(xp).wf(),
            0 <= depth <= MAX_DEPTH + 1,
        ensures
            final(self).wf(),
            final(self).title == old(self).title,
            progressed(*old(xp), *final(xp)),
            old(self).out@.is_prefix_of(final(self).out@),
            same_but_emitted(*final(self), *old(self)),
            ((doc_state(*final(self)), final(xp).state(), final(rp)@, *final(opened), final(close)@), stop) == alternate_run_walk(
                env_of(*old(self)),
                old(xp).input(),
                old(xp).state(),
                doc_state(*old(self)),
                old(rp)@,
                *old(opened),
                old(close)@,
                depth as int,
            ),
        decreases old(xp).rank(), 0int,
    {
        let ghost env = env_of(*self);
        let ghost b = xp.input();
        let ghost goal = alternate_run_walk(env, b, xp.state(), doc_state(*self), rp@, *opened, close@, depth as int);
        loop
            invariant
                old(self).out@.is_prefix_of(self.out@),
                self.wf(),
                self.title == old(self).title,
                progressed(*old(xp), *xp),
                0 <= depth <= MAX_DEPTH + 1,
                same_but_emitted(*self, *old(self)),
                env == env_of(*old(self)),
                b == old(xp).input(),
                goal == alternate_run_walk(
                    env,
                    b,
                    old(xp).state(),
                    doc_state(*old(self)),
                    old(rp)@,
                    *old(opened),
                    old(close)@,
                    depth as int,
                ),
                alternate_run_walk(env, b, xp.state(), doc_state(*self), rp@, *opened, close@, depth as int) == goal,
            decreases xp.rank(),
        {
            let ev = xp.next();
            if ev == Event::Eof {
                return true;
            }
            if ev == Event::End {
                if str_eq(xp.name(), "mc:AlternateContent") {
                    return false;
                }
            } else if ev == Event::Start {
                if str_eq(xp.name(), "mc:Fallback") {
                    self.parse_run_children(xp, "mc:Fallback", rp, opened, close, depth);
                } else {
                    xp.skip_element();
                }
            }
        }
    }

    /// The run content element `n` whose start tag the parser read: opens the run's formatting
    /// first when it writes something.
    #[verifier::rlimit(60)]
    pub(crate) fn parse_run_element(
        &mut self,
        xp: &mut XmlParser,
        n: &str,
        rp: &mut RunProps,
        opened: &mut bool,
        close: &mut String,
        depth: i32,
    )
        requires
            old(self).wf(),
            old(xp).wf(),
            0 <= depth <= MAX_DEPTH + 1,
        ensures
            final(self).wf(),
            final(self).title == old(self).title,
            progressed(*old(xp), *final(xp)),
            old(self).out@.is_prefix_of(final(self).out@),
            same_but_emitted(*final(self), *old(self)),
            (doc_state(*final(self)), final(xp).state(), final(rp)@, *final(opened), final(close)@) == run_element_walk(
                env_of(*old(self)),
                old(xp).input(),
                old(xp).state(),
                doc_state(*old(self)),
                n@,
                old(rp)@,
                *old(opened),
                old(close)@,
                depth as int,
            ),
        decreases old(xp).rank(), 2int,
    {
        proof {
            lemma_run_names();
        }
        let is_text = str_eq(n, "w:t") || str_eq(n, "m:t");
        let is_break = str_eq(n, "w:br") || str_eq(n, "w:cr");
        let is_drawing = str_eq(n, "w:drawing") || str_eq(n, "w:pict") || str_eq(n, "w:object");
        let emits = is_text || is_break || is_drawing || str_eq(n, "w:tab") || str_eq(n, "w:noBreakHyphen")
            || str_eq(n, "w:softHyphen") || str_eq(n, "w:sym") || str_eq(n, "w:footnoteReference") || str_eq(
            n,
            "w:endnoteReference",
        );
        if emits && !*opened {
            let mut open = String::new();
            proof {
                reveal_strlit("");
                assert(open@ =~= Seq::<char>::empty());
            }
            build_run_tags(rp, &mut open, close);
            self.emit(open.as_str());
            *opened = true;
        }
        if is_text {
            self.parse_text(xp);
        } else if is_break {
            self.emit("<br>");
            xp.skip_element();
        } else if str_eq(n, "w:tab") {
            self.emit("<span class=\"tab\">\t</span>");
            xp.skip_element();
        } else if is_drawing {
            self.parse_drawing(xp, depth);
        } else if str_eq(n, "w:noBreakHyphen") {
            self.emit("&#8209;");
            xp.skip_element();
        } else if str_eq(n, "w:softHyphen") {
            self.emit("&shy;");
            xp.skip_element();
        } else if str_eq(n, "w:sym") {
            self.emit_sym(xp);
        } else if str_eq(n, "w:footnoteReference") {
            self.emit_note_ref(xp, true, rp.vert == 1);
        } else if str_eq(n, "w:endnoteReference") {
            self.emit_note_ref(xp, false, rp.vert == 1);
        } else if depth > MAX_DEPTH {
            xp.skip_element();
        } else {
            self.parse_run_children(xp, n, rp, opened, close, depth + 1);
        }
    }

    pub(crate) fn parse_hyperlink(&mut self, xp: &mut XmlParser, depth: i32)
        requires
            old(self).wf(),
            old(xp).wf(),
            0 <= depth <= MAX_DEPTH + 1,
        ensures
            final(self).wf(),
            final(self).title == old(self).title,
            progressed(*old(xp), *final(xp)),
            old(self).out@.is_prefix_of(final(self).out@),
            same_but_emitted(*final(self), *old(self)),
            ({
                let env = env_of(*old(self));
                let href = hyperlink_href_in(env.rels, old(xp).cur_attrs());
                let title = xml_decode(encode_utf8(attr_lookup(old(xp).cur_attrs(), "w:tooltip"@)));
                let r = inline_children_walk(
                    env,
                    old(xp).input(),
                    old(xp).state(),
                    written(doc_state(*old(self)), link_open(href, title)),
                    "w:hyperlink"@,
                    depth as int,
                );
                (doc_state(*final(self)), final(xp).state()) == (written(r.0, link_close(href)), r.1)
            }),
        decreases old(xp).rank(), 1int,
    {
        let mut href = String::new();
        let rid = xp.attr("r:id");
        let anchor = xp.attr("w:anchor");
        let title = decode_attr(xp.attr("w:tooltip"));
        if !rid.is_empty() {
            if let Some(r) = self.rels.get(rid) {
                href = r.target.clone();
            }
        } else if !anchor.is_empty() {
            href = owned("#");
            let a = decode_attr(anchor);
            href.append(a.as_str());
        }
        proof {
            reveal_strlit("#");
            reveal_strlit("");
            assert(href@ == hyperlink_href_in(rels_view(old(self).rels), old(xp).cur_attrs()));
        }
        self.emit_link_open(href.as_str(), title.as_str());
        self.parse_inline_children(xp, "w:hyperlink", depth);
        if !href.as_str().is_empty() {
            self.emit("</a>");
        } else {
            assert(doc_state(*self) == written(doc_state(*self), link_close(href@)));
        }
    }

    // ---- drawings / images ----

    pub(crate) fn parse_drawing(&mut self, xp: &mut XmlParser, depth: i32)
        requires
            old(self).wf(),
            old(xp).wf(),
            0 <= depth <= MAX_DEPTH + 1,
        ensures
            final(self).wf(),
            final(self).title == old(self).title,
            progressed(*old(xp), *final(xp)),
            old(self).out@.is_prefix_of(final(self).out@),
            same_but_emitted(*final(self), *old(self)),
            (doc_state(*final(self)), final(xp).state()) == drawing_walk(
                env_of(*old(self)),
                old(xp).input(),
                old(xp).state(),
                doc_state(*old(self)),
                depth as int,
            ),
        decreases old(xp).rank(), 1int,
    {
        let ghost env = env_of(*self);
        let ghost b = xp.input();
        let ghost p0 = xp.position();
        let mut cx: i32 = 0;
        let mut cy: i32 = 0;
        let mut rel_id = String::new();
        let mut d: usize = 1;
        proof {
            reveal_strlit("");
            assert(rel_id@ =~= Seq::<char>::empty());
            reveal_strlit("wp:extent");
            reveal_strlit("a:blip");
            reveal_strlit("v:imagedata");
            reveal_strlit("w:txbxContent");
            assert("wp:extent"@.len() == 9 && "a:blip"@.len() == 6 && "v:imagedata"@.len() == 11);
            assert("w:txbxContent"@.len() == 13);
        }
        let ghost goal = drawing_content(env, b, xp.state(), doc_state(*self), 1, (cx, cy, rel_id@), depth as int);
        while d > 0
            invariant_except_break
                drawing_content(env, b, xp.state(), doc_state(*self), d as int, (cx, cy, rel_id@), depth as int)
                    == goal,
            invariant
                old(self).out@.is_prefix_of(self.out@),
                self.wf(),
                self.title == old(self).title,
                progressed(*old(xp), *xp),
                xp.position() >= p0,
                p0 == old(xp).position(),
                p0 >= 0,
                2 * (d - 1) <= xp.position() - p0,
                0 <= depth <= MAX_DEPTH + 1,
                same_but_emitted(*self, *old(self)),
                env == env_of(*old(self)),
                b == old(xp).input(),
                goal == drawing_content(
                    env,
                    b,
                    old(xp).state(),
                    doc_state(*old(self)),
                    1,
                    (0i32, 0i32, Seq::empty()),
                    depth as int,
                ),
                "wp:extent"@.len() == 9 && "a:blip"@.len() == 6 && "v:imagedata"@.len() == 11,
                "w:txbxContent"@.len() == 13,
            ensures
                goal == (doc_state(*self), xp.state(), (cx, cy, rel_id@)),
            decreases xp.rank(),
        {
            let ev = xp.next();
            if ev == Event::Eof {
                break;
            }
            if ev == Event::Start {
                let n = xp.name();
                if str_eq(n, "wp:extent") {
                    cx = sv_to_int(xp.attr("cx"));
                    cy = sv_to_int(xp.attr("cy"));
                } else if str_eq(n, "a:blip") {
                    let mut r = xp.attr("r:embed");
                    if r.is_empty() {
                        r = xp.attr("r:link");
                    }
                    if !r.is_empty() {
                        rel_id = owned(r);
                    }
                } else if str_eq(n, "v:imagedata") {
                    let r = xp.attr("r:id");
                    if !r.is_empty() {
                        rel_id = owned(r);
                    }
                }
                if str_eq(n, "w:txbxContent") {
                    self.parse_blocks(xp, n, depth);
                } else {
                    d += 1;
                }
            } else if ev == Event::End {
                d -= 1;
            }
        }
        if !rel_id.as_str().is_empty() {
            self.emit_image(rel_id.as_str(), cx, cy);
        }
    }

    pub(crate) fn emit_image(&mut self, rel_id: &str, cx: i32, cy: i32)
        requires
            old(self).wf(),
        ensures
            final(self).wf(),
            final(self).title == old(self).title,
            same_but_fields(*final(self), *old(self)),
            final(self).fields == old(self).fields,
            final(self).out@ == old(self).out@ + image_in(env_of(*old(self)), rel_id@, cx, cy),
            old(self).out@.is_prefix_of(final(self).out@),
            doc_state(*final(self)) == written(doc_state(*old(self)), image_in(env_of(*old(self)), rel_id@, cx, cy)),
            same_but_emitted(*final(self), *old(self)),
    {
        if !self.opts.embed_images {
            assert(self.out@ =~= old(self).out@ + Seq::<char>::empty());
            return;
        }
        let (target, external) = match self.rels.get(rel_id) {
            Some(r) => (r.target.clone(), r.external),
            None => {
                assert(self.out@ =~= old(self).out@ + Seq::<char>::empty());
                return;
            },
        };
        let mut src;
        if external {
            src = target;
        } else {
            let path = resolve_zip_path(self.base_dir.as_str(), target.as_str());
            let bytes = match self.load_part(path.as_str()) {
                Some(b) => b,
                None => {
                    assert(self.out@ =~= old(self).out@ + Seq::<char>::empty());
                    return;
                },
            };
            src = owned("data:");
            src.append(mime_for_path(path.as_str()));
            src.append(";base64,");
            let b64 = base64_encode(bytes.as_slice());
            src.append(b64.as_str());
            assert(src@ =~= data_url(path@, bytes@));
        }
        append_img(&mut self.out, src.as_str(), cx, cy);
    }

    // ---- tables ----

    pub(crate) fn parse_table(&mut self, xp: &mut XmlParser, depth: i32)
        requires
            old(self).wf(),
            old(xp).wf(),
            0 <= depth <= MAX_DEPTH + 1,
        ensures
            final(self).wf(),
            final(self).title == old(self).title,
            progressed(*old(xp), *final(xp)),
            old(self).out@.is_prefix_of(final(self).out@),
            same_but_emitted(*final(self), *old(self)),
            (doc_state(*final(self)), final(xp).state()) == table_walk(
                env_of(*old(self)),
                old(xp).input(),
                old(xp).state(),
                doc_state(*old(self)),
                depth as int,
            ),
        decreases old(xp).rank(), 1int,
    {
        let mut rows: Vec<RowData> = Vec::new();
        assert(rows_view(rows@) =~= Seq::<RowView>::empty());
        self.collect_rows(xp, "w:tbl", &mut rows, depth);
        self.emit_table(&rows);
    }

    pub(crate) fn collect_rows(&mut self, xp: &mut XmlParser, end_name: &str, rows: &mut Vec<RowData>, depth: i32)
        requires
            old(self).wf(),
            old(xp).wf(),
            0 <= depth <= MAX_DEPTH + 1,
        ensures
            final(self).wf(),
            final(self).title == old(self).title,
            progressed(*old(xp), *final(xp)),
            final(self).out == old(self).out,
            same_but_emitted(*final(self), *old(self)),
            (doc_state(*final(self)), final(xp).state(), rows_view(final(rows)@)) == rows_walk(
                env_of(*old(self)),
                old(xp).input(),
                old(xp).state(),
                doc_state(*old(self)),
                end_name@,
                rows_view(old(rows)@),
                depth as int,
            ),
        decreases old(xp).rank(), 0int,
    {
        let ghost env = env_of(*self);
        let ghost b = xp.input();
        let ghost goal = rows_walk(env, b, xp.state(), doc_state(*self), end_name@, rows_view(rows@), depth as int);
        proof {
            reveal_strlit("w:tr");
            reveal_strlit("w:tblPr");
            reveal_strlit("w:tblGrid");
        }
        loop
            invariant
                self.out == old(self).out,
                self.wf(),
                self.title == old(self).title,
                progressed(*old(xp), *xp),
                0 <= depth <= MAX_DEPTH + 1,
                same_but_emitted(*self, *old(self)),
                env == env_of(*old(self)),
                b == old(xp).input(),
                goal == rows_walk(
                    env,
                    b,
                    old(xp).state(),
                    doc_state(*old(self)),
                    end_name@,
                    rows_view(old(rows)@),
                    depth as int,
                ),
                rows_walk(env, b, xp.state(), doc_state(*self), end_name@, rows_view(rows@), depth as int) == goal,
            decreases xp.rank(),
        {
            let ev = xp.next();
            if ev == Event::Eof {
                return;
            }
            if ev == Event::End {
                if str_eq(xp.name(), end_name) {
                    return;
                }
            } else if ev == Event::Start {
                let n = xp.name();
                if str_eq(n, "w:tr") {
                    let mut row = RowData { cells: Vec::new(), header: false };
                    assert(row_view(row).cells =~= Seq::<crate::grid::CellView>::empty());
                    assert(row_view(row) == RowView { cells: Seq::empty(), header: false });
                    self.collect_row_children(xp, "w:tr", &mut row, depth);
                    let ghost rv = rows_view(rows@);
                    let ghost w = row_view(row);
                    rows.push(row);
                    assert(rows_view(rows@) =~= rv.push(w));
                } else if str_eq(n, "w:tblPr") || str_eq(n, "w:tblGrid") || depth > MAX_DEPTH {
                    xp.skip_element();
                } else {
                    self.collect_rows(xp, n, rows, depth + 1);
                }
            }
        }
    }

    pub(crate) fn collect_row_children(&mut self, xp: &mut XmlParser, end_name: &str, row: &mut RowData, depth: i32)
        requires
            old(self).wf(),
            old(xp).wf(),
            0 <= depth <= MAX_DEPTH + 1,
        ensures
            final(self).wf(),
            final(self).title == old(self).title,
            progressed(*old(xp), *final(xp)),
            final(self).out == old(self).out,
            same_but_emitted(*final(self), *old(self)),
            (doc_state(*final(self)), final(xp).state(), row_view(*final(row))) == row_walk(
                env_of(*old(self)),
                old(xp).input(),
                old(xp).state(),
                doc_state(*old(self)),
                end_name@,
                row_view(*old(row)),
                depth as int,
            ),
        decreases old(xp).rank(), 0int,
    {
        let ghost env = env_of(*self);
        let ghost b = xp.input();
        let ghost goal = row_walk(env, b, xp.state(), doc_state(*self), end_name@, row_view(*row), depth as int);
        proof {
            reveal_strlit("w:tc");
            reveal_strlit("w:trPr");
            reveal_strlit("w:tblPrEx");
            assert("w:tc"@.len() == 4 && "w:trPr"@.len() == 6 && "w:tblPrEx"@.len() == 9);
        }
        loop
            invariant
                self.out == old(self).out,
                self.wf(),
                self.title == old(self).title,
                progressed(*old(xp), *xp),
                0 <= depth <= MAX_DEPTH + 1,
                same_but_emitted(*self, *old(self)),
                env == env_of(*old(self)),
                b == old(xp).input(),
                goal == row_walk(env, b, old(xp).state(), doc_state(*old(self)), end_name@, row_view(*old(row)), depth as int),
                row_walk(env, b, xp.state(), doc_state(*self), end_name@, row_view(*row), depth as int) == goal,
                "w:tc"@.len() == 4 && "w:trPr"@.len() == 6 && "w:tblPrEx"@.len() == 9,
            decreases xp.rank(),
        {
            let ev = xp.next();
            if ev == Event::Eof {
                return;
            }
            if ev == Event::End {
                if str_eq(xp.name(), end_name) {
                    return;
                }
            } else if ev == Event::Start {
                let n = xp.name();
                if str_eq(n, "w:tc") {
                    let mut cell = CellData { html: String::new(), css: String::new(), colspan: 1, vmerge: 0 };
                    proof {
                        reveal_strlit("");
                    }
                    self.collect_cell(xp, &mut cell, depth);
                    let ghost rv = row_view(*row);
                    let ghost cv = cell_view(cell);
                    row.cells.push(cell);
                    assert(row_view(*row).cells =~= rv.cells.push(cv));
                    assert(row_view(*row) == RowView { cells: rv.cells.push(cv), ..rv });
                } else if str_eq(n, "w:trPr") {
                    let stop = read_row_header(xp, &mut row.header);
                    if stop {
                        return;
                    }
                } else if str_eq(n, "w:tblPrEx") || depth > MAX_DEPTH {
                    xp.skip_element();
                } else {
                    self.collect_row_children(xp, n, row, depth + 1);
                }
            }
        }
    }

    pub(crate) fn collect_cell(&mut self, xp: &mut XmlParser, cell: &mut CellData, depth: i32)
        requires
            old(self).wf(),
            old(xp).wf(),
            0 <= depth <= MAX_DEPTH + 1,
            old(cell).colspan == 1,
            old(cell).vmerge == 0,
            old(cell).css@.len() == 0,
        ensures
            final(self).wf(),
            final(self).title == old(self).title,
            progressed(*old(xp), *final(xp)),
            final(cell).colspan >= 1,
            final(self).out == old(self).out,
            same_but_emitted(*final(self), *old(self)),
            (doc_state(*final(self)), final(xp).state(), cell_view(*final(cell))) == cell_walk(
                env_of(*old(self)),
                old(xp).input(),
                old(xp).state(),
                doc_state(*old(self)),
                depth as int,
            ),
        decreases old(xp).rank(), 1int,
    {
        let ghost env = env_of(*self);
        let ghost b = xp.input();
        let mut saved = String::new();
        core::mem::swap(&mut saved, &mut self.out);
        proof {
            reveal_strlit("");
            reveal_strlit("w:tc");
            reveal_strlit("w:tcPr");
            assert(cell.css@ =~= Seq::<char>::empty());
            assert(self.out@ =~= Seq::<char>::empty());
        }
        let ghost ds0 = doc_state(*self);
        assert(ds0 == DocState { out: Seq::empty(), ..doc_state(*old(self)) });
        let ghost goal = cell_children(env, b, xp.state(), ds0, cell_props(*cell), depth as int);
        loop
            invariant_except_break
                cell_children(env, b, xp.state(), doc_state(*self), cell_props(*cell), depth as int) == goal,
            invariant
                saved == old(self).out,
                self.wf(),
                self.title == old(self).title,
                progressed(*old(xp), *xp),
                0 <= depth <= MAX_DEPTH + 1,
                cell.colspan >= 1,
                same_but_emitted(*self, *old(self)),
                env == env_of(*old(self)),
                b == old(xp).input(),
                goal == cell_children(
                    env,
                    b,
                    old(xp).state(),
                    DocState { out: Seq::empty(), ..doc_state(*old(self)) },
                    (1i32, 0i32, Seq::empty()),
                    depth as int,
                ),
            ensures
                goal == (doc_state(*self), xp.state(), cell_props(*cell)),
            decreases xp.rank(),
        {
            let ev = xp.next();
            if ev == Event::Eof {
                break;
            }
            if ev == Event::End {
                if str_eq(xp.name(), "w:tc") {
                    break;
                }
            } else if ev == Event::Start {
                let n = xp.name();
                if str_eq(n, "w:tcPr") {
                    self.parse_cell_props(xp, cell);
                } else {
                    self.parse_block_child(xp, n, depth);
                }
            }
        }
        self.close_lists(0);
        core::mem::swap(&mut saved, &mut self.out);
        cell.html = saved;
    }
}


impl<'a> Converter<'a> {
    pub(crate) fn emit_table(&mut self, rows: &Vec<RowData>)
        requires
            old(self).wf(),
        ensures
            final(self).wf(),
            final(self).title == old(self).title,
            same_setup(*final(self), *old(self)),
            final(self).list_stack == old(self).list_stack,
            final(self).out@ == old(self).out@ + table_html(rows_view(rows@)),
            old(self).out@.is_prefix_of(final(self).out@),
            doc_state(*final(self)) == written(doc_state(*old(self)), table_html(rows_view(rows@))),
            same_but_emitted(*final(self), *old(self)),
    {
        append_table_html(&mut self.out, rows);
    }
}


// ---- the page around the converted body ----

pub open spec fn page_title(title: Seq<char>) -> Seq<char> {
    if title.len() == 0 {
        "Document"@
    } else {
        title
    }
}

/// The text of an HTML page with `title` and the converted `body`.
pub open spec fn html_page(title: Seq<char>, body: Seq<char>) -> Seq<char> {
    PAGE_OPEN@ + escape_html(page_title(title)) + PAGE_STYLE@ + body + PAGE_CLOSE@
}

pub const PAGE_OPEN: &'static str = "<!DOCTYPE html>\n<html>\n<head>\n<meta charset=\"utf-8\">\n<title>";

pub const PAGE_STYLE: &'static str = "</title>\n<style>\nbody{font-family:Calibri,Arial,sans-serif;line-height:1.4;max-width:60em;margin:2em auto;padding:0 1em;}\ntable{border-collapse:collapse;margin:0.5em 0;}\ntd,th{border:1px solid #999;padding:0.25em 0.5em;vertical-align:top;}\nth{background:#f0f0f0;text-align:left;}\nimg{max-width:100%;height:auto;}\n.tab{white-space:pre;}\n.footnotes{font-size:0.9em;color:#444;}\n</style>\n</head>\n<body>\n";

pub const PAGE_CLOSE: &'static str = "\n</body>\n</html>\n";

/// The HTML page with `title` (or "Document" when it is empty) around `body`.
pub fn wrap_page(title: &str, body: &str) -> (r: String)
    ensures
        r@ == html_page(title@, body@),
{
    let mut html = String::new();
    html.append(PAGE_OPEN);
    if title.is_empty() {
        append_escaped_html("Document", &mut html);
    } else {
        append_escaped_html(title, &mut html);
    }
    html.append(PAGE_STYLE);
    html.append(body);
    html.append(PAGE_CLOSE);
    html
}

/// Every page begins with the doctype and the opening of the document, and ends by closing
/// the body and the document.
pub proof fn lemma_page_frame(title: Seq<char>, body: Seq<char>)
    ensures
        html_page(title, body).len() >= PAGE_OPEN@.len() + PAGE_CLOSE@.len(),
        html_page(title, body).subrange(0, PAGE_OPEN@.len() as int) == PAGE_OPEN@,
        html_page(title, body).subrange(
            html_page(title, body).len() - PAGE_CLOSE@.len(),
            html_page(title, body).len() as int,
        ) == PAGE_CLOSE@,
{
    let page = html_page(title, body);
    let head = PAGE_OPEN@ + escape_html(page_title(title)) + PAGE_STYLE@ + body;
    assert(page == head + PAGE_CLOSE@);
    assert(page.subrange(0, PAGE_OPEN@.len() as int) =~= PAGE_OPEN@);
    assert(page.subrange(page.len() - PAGE_CLOSE@.len(), page.len() as int) =~= PAGE_CLOSE@);
}

/// A conversion that succeeds without `fragment` gives a whole page: whatever the title and
/// the converted body, it begins with the doctype and ends by closing the body and the document.
pub proof fn lemma_conversion_gives_a_page(fragment: bool, title: Seq<char>, body: Seq<char>)
    requires
        !fragment,
    ensures
        ({
            let s = page_of(fragment, title, body);
            &&& s.len() >= PAGE_OPEN@.len() + PAGE_CLOSE@.len()
            &&& s.subrange(0, PAGE_OPEN@.len() as int) == PAGE_OPEN@
            &&& s.subrange(s.len() - PAGE_CLOSE@.len(), s.len() as int) == PAGE_CLOSE@
        }),
{
    lemma_page_frame(title, body);
}

/// The index of the last `c` in `s`, or -1.
pub open spec fn last_index_of(s: Seq<char>, c: char) -> int
    decreases s.len(),
{
    if s.len() == 0 {
        -1
    } else if s.last() == c {
        s.len() - 1
    } else {
        last_index_of(s.drop_last(), c)
    }
}

pub proof fn lemma_last_index_bounds(s: Seq<char>, c: char)
    ensures
        -1 <= last_index_of(s, c) < s.len(),
        last_index_of(s, c) >= 0 ==> s[last_index_of(s, c)] == c,
    decreases s.len(),
{
    if s.len() > 0 && s.last() != c {
        lemma_last_index_bounds(s.drop_last(), c);
    }
}

/// Splits a part path after its last '/': the directory (with the slash) and the file name.
pub fn split_dir(path: &str) -> (r: (String, String))
    ensures
        r.0@ == path@.take(last_index_of(path@, '/') + 1),
        r.1@ == path@.skip(last_index_of(path@, '/') + 1),
{
    let mut dir = String::new();
    let mut name = String::new();
    for c in it: path.chars()
        invariant
            it.seq() == path@,
            0 <= it.index() <= path@.len(),
            dir@ == path@.take(it.index() as int).take(last_index_of(path@.take(it.index() as int), '/') + 1),
            name@ == path@.take(it.index() as int).skip(last_index_of(path@.take(it.index() as int), '/') + 1),
    {
        let ghost k = it.index() as int;
        let ghost pre = path@.take(k);
        proof {
            assert(c == path@[k]);
            assert(path@.take(k + 1) =~= pre.push(c));
            assert(pre.push(c).drop_last() =~= pre);
            lemma_last_index_bounds(pre, '/');
        }
        push_char(&mut name, c);
        if c == '/' {
            dir.append(name.as_str());
            name = String::new();
            proof {
                assert(last_index_of(pre.push(c), '/') == k);
                assert(dir@ =~= pre.push(c).take(k + 1));
                assert(name@ =~= pre.push(c).skip(k + 1));
            }
        } else {
            proof {
                let li = last_index_of(pre, '/');
                assert(last_index_of(pre.push(c), '/') == li);
                assert(dir@ =~= pre.push(c).take(li + 1));
                assert(name@ =~= pre.push(c).skip(li + 1));
            }
        }
    }
    proof {
        assert(path@.take(path@.len() as int) =~= path@);
    }
    (dir, name)
}

pub const MSG_OLE: &'static str = "OLE compound file: either a legacy binary .doc or a password-protected document (neither is supported)";

pub const MSG_NOT_ZIP: &'static str = "not a valid .docx file (ZIP archive could not be read)";

pub const MSG_ODT: &'static str = "OpenDocument file (.odt) with a .docx extension (not supported)";

pub const MSG_MISSING: &'static str = "not a valid .docx file (missing ";

/// The bytes begin with the signature of an OLE2 compound file.
pub open spec fn ole2_magic(d: Seq<u8>) -> bool {
    &&& d.len() >= 8
    &&& d[0] == 0xD0 && d[1] == 0xCF && d[2] == 0x11 && d[3] == 0xE0
    &&& d[4] == 0xA1 && d[5] == 0xB1 && d[6] == 0x1A && d[7] == 0xE1
}

fn has_ole2_magic(d: &[u8]) -> (r: bool)
    ensures
        r == ole2_magic(d@),
{
    d.len() >= 8 && d[0] == 0xD0 && d[1] == 0xCF && d[2] == 0x11 && d[3] == 0xE0 && d[4] == 0xA1
        && d[5] == 0xB1 && d[6] == 0x1A && d[7] == 0xE1
}

/// A conversion of a readable archive fails exactly when its main document part cannot be read:
/// with the OpenDocument error when the archive holds `mimetype` and `content.xml`, else with an
/// error naming the part.
pub open spec fn package_outcome(d: Seq<u8>, listing: Seq<EntryView>, r: Result<String, String>) -> bool {
    let main = main_part_path(d, listing);
    &&& (r is Err <==> part_data(d, listing, main) is None)
    &&& (r matches Err(m) ==> m@ == if first_named(listing, "mimetype"@) is Some && first_named(
        listing,
        "content.xml"@,
    ) is Some {
        MSG_ODT@
    } else {
        MSG_MISSING@ + main + ")"@
    })
}

/// The title of the page: the one asked for, else the document's own.
pub open spec fn chosen_title(asked: Seq<char>, of_document: Seq<char>) -> Seq<char> {
    if asked.len() > 0 {
        asked
    } else {
        of_document
    }
}

impl<'a> Converter<'a> {
    pub(crate) fn convert_body(&mut self, xml: &str)
        requires
            old(self).wf(),
        ensures
            final(self).wf(),
            final(self).title == old(self).title,
            final(self).list_stack@.len() == 0,
            old(self).out@.is_prefix_of(final(self).out@),
            same_but_emitted(*final(self), *old(self)),
            doc_state(*final(self)) == body_done(env_of(*old(self)), xml.spec_bytes(), doc_state(*old(self))),
    {
        let mut xp = XmlParser::new(xml);
        let ghost env = env_of(*self);
        let ghost b = xp.input();
        proof {
            assert(xp.cur_name() =~= Seq::<char>::empty());
            assert(xp.cur_text() =~= Seq::<char>::empty());
            assert(xp.cur_attrs() =~= Seq::<(Seq<char>, Seq<char>)>::empty());
            assert(xp.state() == start_state());
        }
        let ghost goal = body_walk(env, b, start_state(), doc_state(*self));
        loop
            invariant_except_break
                body_walk(env, b, xp.state(), doc_state(*self)) == goal,
            invariant
                old(self).out@.is_prefix_of(self.out@),
                self.wf(),
                self.title == old(self).title,
                xp.wf(),
                xp.input() == b,
                b == xml.spec_bytes(),
                same_but_emitted(*self, *old(self)),
                env == env_of(*old(self)),
                goal == body_walk(env, b, start_state(), doc_state(*old(self))),
            ensures
                doc_state(*self) == goal,
            decreases xp.rank(),
        {
            let ev = xp.next();
            if ev == Event::Eof {
                break;
            }
            if ev == Event::Start && str_eq(xp.name(), "w:body") {
                self.parse_blocks(&mut xp, "w:body", 0);
                break;
            }
        }
        self.close_lists(0);
        assert(lists_view(self.list_stack@).len() == 0);
    }

    pub(crate) fn append_notes_section(&mut self, part_name: &str, footnote: bool)
        requires
            old(self).wf(),
        ensures
            final(self).wf(),
            final(self).title == old(self).title,
            same_but_emitted(*final(self), *old(self)),
            doc_state(*final(self)) == notes_done(env_of(*old(self)), doc_state(*old(self)), part_name@, footnote),
    {
        let order: Vec<String> = if footnote {
            self.fn_order.clone()
        } else {
            self.en_order.clone()
        };
        let ghost ov = strings_view(order@);
        proof {
            let src = if footnote { old(self).fn_order@ } else { old(self).en_order@ };
            assert(ov =~= strings_view(src)) by {
                assert forall|j: int| 0 <= j < ov.len() implies ov[j] == strings_view(src)[j] by {
                    assert(cloned::<String>(src[j], order@[j]));
                }
            }
        }
        if order.len() == 0 {
            return;
        }
        let mut part = self.base_dir.clone();
        assert(part@ =~= self.base_dir@);
        part.append(part_name);
        part.append(".xml");
        let xml_buf = match self.load_part(part.as_str()) {
            Some(b) => b,
            None => return,
        };
        // notes resolve hyperlinks and images through their own relationship part
        let mut doc_rels: StrMap<Relationship> = StrMap::new();
        assert(rels_view(doc_rels) =~= Map::<Seq<char>, RelView>::empty());
        core::mem::swap(&mut self.rels, &mut doc_rels);
        let mut rels_part = self.base_dir.clone();
        assert(rels_part@ =~= self.base_dir@);
        rels_part.append("_rels/");
        rels_part.append(part_name);
        rels_part.append(".xml.rels");
        if let Some(rbuf) = self.load_part(rels_part.as_str()) {
            let rs = string_from_utf8_lossy(rbuf.as_slice());
            self.parse_rels(rs.as_str());
        }
        let ghost env0 = env_of(*old(self));
        assert(env_of(*self) == Env { rels: notes_rels(env0, part_name@), ..env0 });
        let xml_str = string_from_utf8_lossy(xml_buf.as_slice());
        let body_by_id = self.collect_note_bodies(xml_str.as_str(), footnote);
        core::mem::swap(&mut self.rels, &mut doc_rels);
        append_notes_list(&mut self.out, footnote, &order, &body_by_id);
    }

    /// The converted bodies of the notes (`w:footnote` or `w:endnote` elements) of the notes
    /// part `xml`, by note id; separator notes are left out.
    pub(crate) fn collect_note_bodies(&mut self, xml: &str, footnote: bool) -> (bodies: StrMap<String>)
        requires
            old(self).wf(),
        ensures
            final(self).wf(),
            final(self).title == old(self).title,
            final(self).out == old(self).out,
            same_but_emitted(*final(self), *old(self)),
            bodies.wf(),
            (doc_state(*final(self)), note_bodies(bodies)) == notes_walk(
                env_of(*old(self)),
                xml.spec_bytes(),
                start_state(),
                doc_state(*old(self)),
                if footnote { "w:footnote"@ } else { "w:endnote"@ },
                Map::empty(),
            ),
    {
        let note_elem = if footnote { "w:footnote" } else { "w:endnote" };
        let mut body_by_id: StrMap<String> = StrMap::new();
        let mut xp = XmlParser::new(xml);
        let ghost env = env_of(*self);
        let ghost b = xp.input();
        proof {
            assert(xp.cur_name() =~= Seq::<char>::empty());
            assert(xp.cur_text() =~= Seq::<char>::empty());
            assert(xp.cur_attrs() =~= Seq::<(Seq<char>, Seq<char>)>::empty());
            assert(xp.state() == start_state());
            assert(note_bodies(body_by_id) =~= Map::<Seq<char>, Seq<char>>::empty());
            reveal_strlit("separator");
            reveal_strlit("continuationSeparator");
            reveal_strlit("continuationNotice");
        }
        let ghost goal = notes_walk(env, b, start_state(), doc_state(*self), note_elem@, Map::empty());
        loop
            invariant_except_break
                notes_walk(env, b, xp.state(), doc_state(*self), note_elem@, note_bodies(body_by_id)) == goal,
            invariant
                self.wf(),
                self.title == old(self).title,
                xp.wf(),
                xp.input() == b,
                b == xml.spec_bytes(),
                body_by_id.wf(),
                self.out == old(self).out,
                same_but_emitted(*self, *old(self)),
                env == env_of(*old(self)),
                note_elem@ == if footnote { "w:footnote"@ } else { "w:endnote"@ },
                goal == notes_walk(env, b, start_state(), doc_state(*old(self)), note_elem@, Map::empty()),
            ensures
                goal == (doc_state(*self), note_bodies(body_by_id)),
            decreases xp.rank(),
        {
            let ev = xp.next();
            if ev == Event::Eof {
                break;
            }
            if ev == Event::Start && str_eq(xp.name(), note_elem) {
                let id = owned(xp.attr("w:id"));
                let ty = xp.attr("w:type");
                if str_eq(ty, "separator") || str_eq(ty, "continuationSeparator") || str_eq(
                    ty,
                    "continuationNotice",
                ) {
                    xp.skip_element();
                } else {
                    let ghost ds0 = doc_state(*self);
                    let mut saved = String::new();
                    core::mem::swap(&mut saved, &mut self.out);
                    proof {
                        reveal_strlit("");
                        assert(doc_state(*self) == DocState { out: Seq::empty(), ..ds0 });
                    }
                    self.parse_blocks(&mut xp, note_elem, 0);
                    self.close_lists(0);
                    let ghost d2 = doc_state(*self);
                    core::mem::swap(&mut saved, &mut self.out);
                    let ghost m0 = note_bodies(body_by_id);
                    let ghost kv = id@;
                    let ghost vv = saved@;
                    body_by_id.insert(id, saved);
                    proof {
                        assert(note_bodies(body_by_id) =~= m0.insert(kv, vv));
                        assert(doc_state(*self) == DocState { out: ds0.out, ..d2 });
                    }
                }
            }
        }
        body_by_id
    }

    /// Reads what the conversion works with, for the main part at `doc_path`: its directory, its
    /// relationships, the styles and numbering beside it, and the document's title.
    pub(crate) fn prepare(&mut self, doc_path: &str)
        requires
            old(self).wf(),
            old(self).title@.len() == 0,
            style_tables(*old(self)) == no_styles(),
            numbering_tables(*old(self)) == no_numbering(),
            rels_view(old(self).rels) == Map::<Seq<char>, RelView>::empty(),
            doc_path@ == main_part_path(old(self).zip.bytes(), old(self).zip.listing()),
        ensures
            final(self).wf(),
            final(self).opts == old(self).opts,
            final(self).zip == old(self).zip,
            doc_state(*final(self)) == doc_state(*old(self)),
            final(self).title@ == doc_title(old(self).zip.bytes(), old(self).zip.listing()),
            env_of(*final(self)) == package_env(old(self).zip.bytes(), old(self).zip.listing(), old(self).opts.embed_images),
    {
        let ghost zb = self.zip.bytes();
        let ghost zl = self.zip.listing();
        let (base_dir, doc_name) = split_dir(doc_path);
        self.base_dir = base_dir;
        let mut rels_part = self.base_dir.clone();
        assert(rels_part@ =~= self.base_dir@);
        rels_part.append("_rels/");
        rels_part.append(doc_name.as_str());
        rels_part.append(".rels");
        if let Some(buf) = self.load_part(rels_part.as_str()) {
            let s = string_from_utf8_lossy(buf.as_slice());
            self.parse_rels(s.as_str());
        }
        let mut styles_part = self.base_dir.clone();
        assert(styles_part@ =~= self.base_dir@);
        styles_part.append("styles.xml");
        if let Some(buf) = self.load_part(styles_part.as_str()) {
            let s = string_from_utf8_lossy(buf.as_slice());
            self.parse_styles(s.as_str());
        }
        let mut numbering_part = self.base_dir.clone();
        assert(numbering_part@ =~= self.base_dir@);
        numbering_part.append("numbering.xml");
        if let Some(buf) = self.load_part(numbering_part.as_str()) {
            let s = string_from_utf8_lossy(buf.as_slice());
            self.parse_numbering(s.as_str());
        }
        if let Some(buf) = self.load_part("docProps/core.xml") {
            let s = string_from_utf8_lossy(buf.as_slice());
            self.parse_core_props(s.as_str());
        } else {
            assert(self.title@ =~= Seq::<char>::empty());
        }
        assert(self.title@ == doc_title(zb, zl));
        assert(env_of(*self) == package_env(zb, zl, self.opts.embed_images));
    }

    #[verifier::rlimit(80)]
    #[verifier::spinoff_prover]
    pub(crate) fn run(&mut self) -> (r: Result<String, String>)
        requires
            old(self).wf(),
            old(self).title@.len() == 0,
            style_tables(*old(self)) == no_styles(),
            numbering_tables(*old(self)) == no_numbering(),
            rels_view(old(self).rels) == Map::<Seq<char>, RelView>::empty(),
            doc_state(*old(self)) == fresh_state(),
        ensures
            package_outcome(old(self).zip.bytes(), old(self).zip.listing(), r),
            r matches Ok(s) ==> s@ == page_of(
                old(self).opts.fragment,
                chosen_title(old(self).opts.title@, doc_title(old(self).zip.bytes(), old(self).zip.listing())),
                converted_body(old(self).zip.bytes(), old(self).zip.listing(), old(self).opts.embed_images),
            ),
    {
        let opts = self.opts;
        let ghost zb = self.zip.bytes();
        let ghost zl = self.zip.listing();
        let doc_path = self.find_document_path();
        let doc_xml = match self.load_part(doc_path.as_str()) {
            Some(b) => b,
            None => {
                if self.zip.find("mimetype").is_some() && self.zip.find("content.xml").is_some() {
                    return Err(owned(MSG_ODT));
                }
                let mut m = owned(MSG_MISSING);
                m.append(doc_path.as_str());
                push_char(&mut m, ')');
                proof {
                    reveal_strlit(")");
                    assert(m@ =~= MSG_MISSING@ + doc_path@ + ")"@);
                }
                return Err(m);
            },
        };
        self.prepare(doc_path.as_str());
        let ghost env = env_of(*self);
        let doc_str = string_from_utf8_lossy(doc_xml.as_slice());
        self.convert_body(doc_str.as_str());
        self.append_notes_section("footnotes", true);
        self.append_notes_section("endnotes", false);
        proof {
            reveal_strlit("footnotes");
            reveal_strlit("endnotes");
            assert(self.out@ == converted_body(zb, zl, opts.embed_images));
        }
        if opts.fragment {
            let mut body = String::new();
            core::mem::swap(&mut body, &mut self.out);
            return Ok(body);
        }
        let title = if opts.title.as_str().is_empty() {
            self.title.clone()
        } else {
            opts.title.clone()
        };
        let page = wrap_page(title.as_str(), self.out.as_str());
        proof {
            assert(title@ == chosen_title(opts.title@, doc_title(zb, zl)));
            assert(page@ == html_page(title@, self.out@));
        }
        Ok(page)
    }
}

/// The text a successful conversion gives: the converted body alone (with `fragment`), or the
/// page with title `title` around it.
pub open spec fn page_of(fragment: bool, title: Seq<char>, body: Seq<char>) -> Seq<char> {
    if fragment {
        body
    } else {
        html_page(title, body)
    }
}

/// Converts the bytes of a .docx file to HTML.
pub fn convert_docx_to_html(data: &[u8], opts: &ConvertOptions) -> (r: Result<String, String>)
    ensures
        zip_entries(data@) is None ==> (r matches Err(m) && m@ == if ole2_magic(data@) {
            MSG_OLE@
        } else {
            MSG_NOT_ZIP@
        }),
        zip_entries(data@) matches Some(listing) ==> package_outcome(data@, listing, r),
        zip_entries(data@) matches Some(listing) ==> (r matches Ok(s) ==> s@ == page_of(
            opts.fragment,
            chosen_title(opts.title@, doc_title(data@, listing)),
            converted_body(data@, listing, opts.embed_images),
        )),
{
    let zip = match ZipArchive::open(data) {
        Some(z) => z,
        None => {
            if has_ole2_magic(data) {
                return Err(owned(MSG_OLE));
            }
            return Err(owned(MSG_NOT_ZIP));
        },
    };
    let mut c = Converter {
        opts,
        zip,
        base_dir: String::new(),
        rels: StrMap::new(),
        heading_by_style: StrMap::new(),
        style_num: StrMap::new(),
        char_style: StrMap::new(),
        num_to_abstract: IntMap::new(),
        abstract_fmt: IntMap::new(),
        abstract_start: IntMap::new(),
        num_fmt_override: IntMap::new(),
        num_start_override: IntMap::new(),
        list_emitted: IntMap::new(),
        title: String::new(),
        list_stack: Vec::new(),
        fields: Vec::new(),
        fn_order: Vec::new(),
        en_order: Vec::new(),
        out: String::new(),
    };
    proof {
        reveal_strlit("");
        assert(str_table(c.heading_by_style) =~= Map::<Seq<char>, i32>::empty());
        assert(str_table(c.style_num) =~= Map::<Seq<char>, StyleNum>::empty());
        assert(char_table(c.char_style) =~= Map::<Seq<char>, RunPropsView>::empty());
        assert(int_table(c.num_to_abstract) =~= Map::<u64, i32>::empty());
        assert(text_table(c.abstract_fmt) =~= Map::<u64, Seq<char>>::empty());
        assert(int_table(c.abstract_start) =~= Map::<u64, i32>::empty());
        assert(text_table(c.num_fmt_override) =~= Map::<u64, Seq<char>>::empty());
        assert(int_table(c.num_start_override) =~= Map::<u64, i32>::empty());
        assert(int_table(c.list_emitted) =~= Map::<u64, i32>::empty());
        assert(rels_view(c.rels) =~= Map::<Seq<char>, RelView>::empty());
        assert(lists_view(c.list_stack@) =~= Seq::<ListView>::empty());
        assert(fields_view(c.fields@) =~= Seq::<FieldView>::empty());
        assert(strings_view(c.fn_order@) =~= Seq::<Seq<char>>::empty());
        assert(strings_view(c.en_order@) =~= Seq::<Seq<char>>::empty());
        assert(c.out@ =~= Seq::<char>::empty());
        assert(doc_state(c) == fresh_state());
    }
    c.run()
}

} // verus!
