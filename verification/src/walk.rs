//! What converting the body of a document writes: the traversal of the document's events as
//! spec functions over the converter's changing state.
use vstd::prelude::*;
use vstd::utf8::encode_utf8;
use crate::docx::{
    Converter, MAX_DEPTH, RunPropsView, StyleNum, plain_run, run_open_tags, run_close_tags, hex_or_zero,
};
use crate::docx_run::{
    Attrs, FieldView, ListView, ParaPropsView, CellPropsView, lists_view, fields_view, int_table,
    str_table, char_table, element_walk, para_step, run_step, cell_step, text_walk, closings,
    item_opened, item_html, counts_after_item, para_tag, para_open_html, fld_char_effect,
    sym_html, note_ref_html, order_with, position_of, link_open, link_close, field_href,
    bookmark_html, StyleTables, NumberingTables, RelView, style_tables, numbering_tables, rels_view,
    list_transition, list_level, image_in, hyperlink_href_in, start_state, rels_from, notes_html, styles_from,
    numbering_from, main_part_path, last_index_of,
};
use crate::zip::{part_data, lossy_text};
use crate::zip::EntryView;
use crate::docx::strings_view;
use crate::grid::{CellView, RowView, table_html};
use crate::xml::{Event, XmlState, xml_step, state_rank, attr_lookup, xml_decode, skip_from};

verus! {

/// The part of the converter's state that converting the body changes: the output, the open
/// lists, the item counts of lists, the open fields and the notes referred to so far.
pub struct DocState {
    pub out: Seq<char>,
    pub lists: Seq<ListView>,
    pub emitted: Map<u64, i32>,
    pub fields: Seq<FieldView>,
    pub fn_order: Seq<Seq<char>>,
    pub en_order: Seq<Seq<char>>,
}

/// The converter's changing state as plain values.
pub(crate) open spec fn doc_state(c: Converter) -> DocState {
    DocState {
        out: c.out@,
        lists: lists_view(c.list_stack@),
        emitted: int_table(c.list_emitted),
        fields: fields_view(c.fields@),
        fn_order: strings_view(c.fn_order@),
        en_order: strings_view(c.en_order@),
    }
}

/// What stays the same while the body is converted: the style and numbering tables, the
/// relationships, whether images are embedded, the main part's directory and the package.
pub struct Env {
    pub styles: StyleTables,
    pub numbering: NumberingTables,
    pub rels: Map<Seq<char>, RelView>,
    pub embed_images: bool,
    pub base_dir: Seq<char>,
    pub bytes: Seq<u8>,
    pub listing: Seq<EntryView>,
}

/// The converter's unchanging part.
pub(crate) open spec fn env_of(c: Converter) -> Env {
    Env {
        styles: style_tables(c),
        numbering: numbering_tables(c),
        rels: rels_view(c.rels),
        embed_images: c.opts.embed_images,
        base_dir: c.base_dir@,
        bytes: c.zip.bytes(),
        listing: c.zip.listing(),
    }
}

/// A state and the parser's state after a walk.
pub type Walk = (DocState, XmlState);

/// `ds` with `x` written.
pub open spec fn written(ds: DocState, x: Seq<char>) -> DocState {
    DocState { out: ds.out + x, ..ds }
}

/// `ds` with the lists above the first `target` closed.
pub open spec fn lists_closed(ds: DocState, target: int) -> DocState {
    DocState {
        out: ds.out + closings(ds.lists, target),
        lists: if ds.lists.len() > target {
            ds.lists.take(target)
        } else {
            ds.lists
        },
        ..ds
    }
}

/// Opening a paragraph with properties `pp`: a list item (its lists set up, its item opened
/// and counted), or a paragraph start tag after the open lists are closed. The state after it,
/// and the end tag that closes the paragraph.
pub open spec fn paragraph_opened(env: Env, ds: DocState, pp: ParaPropsView) -> (DocState, Seq<char>) {
    if pp.num_id > 0 && pp.heading == 0 {
        let t = list_transition(env.numbering, ds.lists, ds.emitted, pp.num_id, list_level(pp.ilvl));
        (
            DocState {
                out: ds.out + t.1 + item_html(t.0),
                lists: item_opened(t.0),
                emitted: counts_after_item(ds.emitted, pp.num_id, list_level(pp.ilvl)),
                ..ds
            },
            Seq::empty(),
        )
    } else {
        (
            DocState { out: ds.out + closings(ds.lists, 0) + para_open_html(pp), lists: Seq::empty(), ..ds },
            "</"@ + para_tag(pp.heading) + ">"@,
        )
    }
}

/// A field character with attributes `a`.
pub open spec fn fld_char_done(ds: DocState, a: Attrs) -> DocState {
    let e = fld_char_effect(ds.fields, attr_lookup(a, "w:fldCharType"@));
    DocState { fields: e.0, out: ds.out + e.1, ..ds }
}

/// A field instruction element at `st`: its text added to the instruction of the innermost
/// field while that is collected, else the element passed over.
pub open spec fn instr_text_done(b: Seq<u8>, st: XmlState, ds: DocState) -> Walk {
    let fs = ds.fields;
    if fs.len() == 0 || !fs.last().1 {
        (ds, skip_from(b, st, 1))
    } else {
        let t = text_walk(b, st, Seq::empty(), true);
        (DocState { fields: fs.drop_last().push((fs.last().0 + t.0, fs.last().1, fs.last().2)), ..ds }, t.1)
    }
}

/// A symbol element with attributes `a`.
pub open spec fn sym_done(ds: DocState, a: Attrs) -> DocState {
    written(
        ds,
        sym_html(
            xml_decode(encode_utf8(attr_lookup(a, "w:font"@))),
            hex_or_zero(encode_utf8(attr_lookup(a, "w:char"@))),
        ),
    )
}

/// A reference to a footnote (or endnote) with attributes `a`, in a superscript run or not.
pub open spec fn note_ref_done(ds: DocState, footnote: bool, a: Attrs, already_super: bool) -> DocState {
    let id = attr_lookup(a, "w:id"@);
    if id.len() == 0 {
        ds
    } else {
        let order = order_with(if footnote { ds.fn_order } else { ds.en_order }, id);
        DocState {
            out: ds.out + note_ref_html(footnote, id, (position_of(order, id) + 1) as nat, already_super),
            fn_order: if footnote { order } else { ds.fn_order },
            en_order: if footnote { ds.en_order } else { order },
            ..ds
        }
    }
}

/// `fs` with the links of its fields closed: the end tags written, one for each field that
/// opened a link, in order.
pub open spec fn field_links_closed(fs: Seq<FieldView>) -> Seq<char>
    decreases fs.len(),
{
    if fs.len() == 0 {
        Seq::empty()
    } else {
        field_links_closed(fs.drop_last()) + if fs.last().2 {
            "</a>"@
        } else {
            Seq::empty()
        }
    }
}

/// `ds` with the links that fields opened closed at the end of a paragraph.
pub open spec fn links_closed(ds: DocState) -> DocState {
    DocState {
        out: ds.out + field_links_closed(ds.fields),
        fields: ds.fields.map_values(|f: FieldView| (f.0, f.1, false)),
        ..ds
    }
}

/// The paragraph properties with the list numbering of their style, when they name no list.
pub open spec fn with_style_numbering(env: Env, pp: ParaPropsView) -> ParaPropsView {
    let sn = env.styles.1;
    if pp.num_id < 0 && pp.style_id.len() > 0 && sn.dom().contains(pp.style_id) {
        ParaPropsView { num_id: sn[pp.style_id].num_id, ilvl: sn[pp.style_id].ilvl, ..pp }
    } else {
        pp
    }
}

/// The properties of a paragraph before its `w:pPr`.
pub open spec fn plain_paragraph() -> ParaPropsView {
    ParaPropsView {
        heading: 0i32,
        align: Seq::empty(),
        num_id: -1i32,
        ilvl: 0i32,
        rtl: false,
        style_id: Seq::empty(),
        css: Seq::empty(),
    }
}

/// The element names that a run passes over.
pub open spec fn run_skipped(n: Seq<char>) -> bool {
    n == "w:delText"@ || n == "w:lastRenderedPageBreak"@ || n == "w:footnoteRef"@ || n
        == "w:endnoteRef"@ || n == "w:separator"@ || n == "w:continuationSeparator"@ || n
        == "w:commentReference"@ || n == "w:annotationRef"@
}

pub open spec fn is_text_elem(n: Seq<char>) -> bool {
    n == "w:t"@ || n == "m:t"@
}

pub open spec fn is_break_elem(n: Seq<char>) -> bool {
    n == "w:br"@ || n == "w:cr"@
}

pub open spec fn is_drawing_elem(n: Seq<char>) -> bool {
    n == "w:drawing"@ || n == "w:pict"@ || n == "w:object"@
}

/// The run content elements that write something (and so open the run's formatting first).
pub open spec fn run_emits(n: Seq<char>) -> bool {
    is_text_elem(n) || is_break_elem(n) || is_drawing_elem(n) || n == "w:tab"@ || n
        == "w:noBreakHyphen"@ || n == "w:softHyphen"@ || n == "w:sym"@ || n == "w:footnoteReference"@
        || n == "w:endnoteReference"@
}

/// A run's walk: the state, the parser's state, the run's properties, whether its formatting
/// is open, and the tags that close it.
pub type RunWalk = (DocState, XmlState, RunPropsView, bool, Seq<char>);

/// What the drawing walk collects: the extent and the relationship of the image.
pub type Picture = (i32, i32, Seq<char>);

/// The extent and the image relationship after a start tag `n` with attributes `a` in a
/// drawing.
pub open spec fn picture_seen(p: Picture, n: Seq<char>, a: Attrs) -> Picture {
    if n == "wp:extent"@ {
        (
            crate::docx::int_value(encode_utf8(attr_lookup(a, "cx"@))),
            crate::docx::int_value(encode_utf8(attr_lookup(a, "cy"@))),
            p.2,
        )
    } else if n == "a:blip"@ {
        let r = if attr_lookup(a, "r:embed"@).len() == 0 {
            attr_lookup(a, "r:link"@)
        } else {
            attr_lookup(a, "r:embed"@)
        };
        (p.0, p.1, if r.len() > 0 { r } else { p.2 })
    } else if n == "v:imagedata"@ {
        let r = attr_lookup(a, "r:id"@);
        (p.0, p.1, if r.len() > 0 { r } else { p.2 })
    } else {
        p
    }
}

/// Whether a table row is a header row after the start tags of its `w:trPr` from `st` on,
/// `d` levels deep; the parser's state after them, and whether the input ended.
pub open spec fn row_header_walk(b: Seq<u8>, st: XmlState, d: int, header: bool) -> (XmlState, bool, bool)
    decreases state_rank(b, st),
{
    if d <= 0 {
        (st, header, false)
    } else {
        let (ev, next) = xml_step(b, st);
        if ev == Event::Eof || state_rank(b, next) >= state_rank(b, st) || state_rank(b, next) < 0 {
            (next, header, true)
        } else if ev == Event::Start {
            row_header_walk(
                b,
                next,
                d + 1,
                header || (next.name == "w:tblHeader"@ && crate::docx::is_on(attr_lookup(next.attrs, "w:val"@))),
            )
        } else if ev == Event::End {
            row_header_walk(b, next, d - 1, header)
        } else {
            row_header_walk(b, next, d, header)
        }
    }
}

/// The blocks from `st` on up to the end tag `end` (or the end of the input), `depth` levels
/// down.
pub open spec fn blocks_walk(env: Env, b: Seq<u8>, st: XmlState, ds: DocState, end: Seq<char>, depth: int) -> Walk
    decreases state_rank(b, st), 0int,
{
    let (ev, next) = xml_step(b, st);
    if ev == Event::Eof || state_rank(b, next) >= state_rank(b, st) || state_rank(b, next) < 0 {
        (ds, next)
    } else if ev == Event::End {
        if next.name == end {
            (ds, next)
        } else {
            blocks_walk(env, b, next, ds, end, depth)
        }
    } else if ev == Event::Start {
        let r = block_child_walk(env, b, next, ds, next.name, depth);
        if 0 <= state_rank(b, r.1) < state_rank(b, st) {
            blocks_walk(env, b, r.1, r.0, end, depth)
        } else {
            r
        }
    } else {
        blocks_walk(env, b, next, ds, end, depth)
    }
}

/// The block element `name` whose start tag the parser read (reaching `st`), `depth` levels
/// down: a paragraph, a table, an element passed over, or a container of blocks; passed over
/// when too deep.
pub open spec fn block_child_walk(env: Env, b: Seq<u8>, st: XmlState, ds: DocState, name: Seq<char>, depth: int) -> Walk
    decreases state_rank(b, st), 2int,
{
    if depth > MAX_DEPTH {
        (ds, skip_from(b, st, 1))
    } else if name == "w:p"@ {
        paragraph_walk(env, b, st, ds, depth + 1)
    } else if name == "w:tbl"@ {
        table_walk(env, b, st, lists_closed(ds, 0), depth + 1)
    } else if name == "w:sectPr"@ || name == "w:sdtPr"@ || name == "w:sdtEndPr"@ || name == "w:del"@
        || name == "w:moveFrom"@ {
        (ds, skip_from(b, st, 1))
    } else {
        blocks_walk(env, b, st, ds, name, depth + 1)
    }
}

/// The children of a paragraph from `st` on: its properties, and its content, which opens the
/// paragraph first. The state, the parser's state, the properties, the end tag and whether the
/// paragraph was opened.
pub open spec fn paragraph_children(
    env: Env,
    b: Seq<u8>,
    st: XmlState,
    ds: DocState,
    pp: ParaPropsView,
    close: Seq<char>,
    opened: bool,
    depth: int,
) -> (DocState, XmlState, ParaPropsView, Seq<char>, bool)
    decreases state_rank(b, st), 0int,
{
    let (ev, next) = xml_step(b, st);
    if ev == Event::Eof || state_rank(b, next) >= state_rank(b, st) || state_rank(b, next) < 0 {
        (ds, next, pp, close, opened)
    } else if ev == Event::End {
        if next.name == "w:p"@ {
            (ds, next, pp, close, opened)
        } else {
            paragraph_children(env, b, next, ds, pp, close, opened, depth)
        }
    } else if ev == Event::Start {
        if next.name == "w:pPr"@ {
            let r = element_walk(b, next, 1, pp, para_step(env.styles.0));
            if 0 <= state_rank(b, r.1) < state_rank(b, st) {
                paragraph_children(env, b, r.1, ds, with_style_numbering(env, r.0), close, opened, depth)
            } else {
                (ds, r.1, with_style_numbering(env, r.0), close, opened)
            }
        } else {
            let o = if opened {
                (ds, close)
            } else {
                paragraph_opened(env, ds, pp)
            };
            let r = inline_walk(env, b, next, o.0, next.name, depth);
            if 0 <= state_rank(b, r.1) < state_rank(b, st) {
                paragraph_children(env, b, r.1, r.0, pp, o.1, true, depth)
            } else {
                (r.0, r.1, pp, o.1, true)
            }
        }
    } else {
        paragraph_children(env, b, next, ds, pp, close, opened, depth)
    }
}

/// A paragraph whose start tag the parser read: its children, the links of its fields closed,
/// and its end tag (opened at its end when it had no content).
pub open spec fn paragraph_walk(env: Env, b: Seq<u8>, st: XmlState, ds: DocState, depth: int) -> Walk
    decreases state_rank(b, st), 1int,
{
    let r = paragraph_children(env, b, st, ds, plain_paragraph(), Seq::empty(), false, depth);
    let d2 = links_closed(r.0);
    let o = if r.4 {
        (d2, r.3)
    } else {
        paragraph_opened(env, d2, r.2)
    };
    (written(o.0, o.1), r.1)
}

/// The inline element `name` whose start tag the parser read, `depth` levels down.
pub open spec fn inline_walk(env: Env, b: Seq<u8>, st: XmlState, ds: DocState, name: Seq<char>, depth: int) -> Walk
    decreases state_rank(b, st), 2int,
{
    if depth > MAX_DEPTH {
        (ds, skip_from(b, st, 1))
    } else if name == "w:r"@ {
        run_walk(env, b, st, ds, depth + 1)
    } else if name == "w:hyperlink"@ {
        let href = hyperlink_href_in(env.rels, st.attrs);
        let title = xml_decode(encode_utf8(attr_lookup(st.attrs, "w:tooltip"@)));
        let r = inline_children_walk(env, b, st, written(ds, link_open(href, title)), "w:hyperlink"@, depth + 1);
        (written(r.0, link_close(href)), r.1)
    } else if name == "w:fldSimple"@ {
        let href = field_href(attr_lookup(st.attrs, "w:instr"@));
        let r = inline_children_walk(env, b, st, written(ds, link_open(href, Seq::empty())), "w:fldSimple"@, depth + 1);
        (written(r.0, link_close(href)), r.1)
    } else if name == "m:t"@ {
        let t = text_walk(b, st, Seq::empty(), false);
        (written(ds, t.0), t.1)
    } else if name == "w:bookmarkStart"@ {
        (written(ds, bookmark_html(attr_lookup(st.attrs, "w:name"@))), skip_from(b, st, 1))
    } else if name == "mc:AlternateContent"@ {
        alternate_inline_walk(env, b, st, ds, depth + 1)
    } else if name == "w:del"@ || name == "w:moveFrom"@ || name == "w:pPr"@ {
        (ds, skip_from(b, st, 1))
    } else {
        inline_children_walk(env, b, st, ds, name, depth + 1)
    }
}

/// The alternatives of an `mc:AlternateContent` among inline content: only the fallback.
pub open spec fn alternate_inline_walk(env: Env, b: Seq<u8>, st: XmlState, ds: DocState, depth: int) -> Walk
    decreases state_rank(b, st), 0int,
{
    let (ev, next) = xml_step(b, st);
    if ev == Event::Eof || state_rank(b, next) >= state_rank(b, st) || state_rank(b, next) < 0 {
        (ds, next)
    } else if ev == Event::End {
        if next.name == "mc:AlternateContent"@ {
            (ds, next)
        } else {
            alternate_inline_walk(env, b, next, ds, depth)
        }
    } else if ev == Event::Start {
        let r = if next.name == "mc:Fallback"@ {
            inline_children_walk(env, b, next, ds, "mc:Fallback"@, depth)
        } else {
            (ds, skip_from(b, next, 1))
        };
        if 0 <= state_rank(b, r.1) < state_rank(b, st) {
            alternate_inline_walk(env, b, r.1, r.0, depth)
        } else {
            r
        }
    } else {
        alternate_inline_walk(env, b, next, ds, depth)
    }
}

/// Inline content from `st` on up to the end tag `end`.
pub open spec fn inline_children_walk(env: Env, b: Seq<u8>, st: XmlState, ds: DocState, end: Seq<char>, depth: int) -> Walk
    decreases state_rank(b, st), 0int,
{
    let (ev, next) = xml_step(b, st);
    if ev == Event::Eof || state_rank(b, next) >= state_rank(b, st) || state_rank(b, next) < 0 {
        (ds, next)
    } else if ev == Event::End {
        if next.name == end {
            (ds, next)
        } else {
            inline_children_walk(env, b, next, ds, end, depth)
        }
    } else if ev == Event::Start {
        let r = inline_walk(env, b, next, ds, next.name, depth);
        if 0 <= state_rank(b, r.1) < state_rank(b, st) {
            inline_children_walk(env, b, r.1, r.0, end, depth)
        } else {
            r
        }
    } else {
        inline_children_walk(env, b, next, ds, end, depth)
    }
}

/// A run whose start tag the parser read: its content, then the tags that close its
/// formatting when it was opened.
pub open spec fn run_walk(env: Env, b: Seq<u8>, st: XmlState, ds: DocState, depth: int) -> Walk
    decreases state_rank(b, st), 1int,
{
    let r = run_children_walk(env, b, st, ds, "w:r"@, plain_run(), false, Seq::empty(), depth);
    (if r.3 {
        written(r.0, r.4)
    } else {
        r.0
    }, r.1)
}

/// The run content element `n` whose start tag the parser read (reaching `st`), in a run with
/// properties `rp`, its formatting open or not (`opened`, closed by `close`).
pub open spec fn run_element_walk(
    env: Env,
    b: Seq<u8>,
    st: XmlState,
    ds: DocState,
    n: Seq<char>,
    rp: RunPropsView,
    opened: bool,
    close: Seq<char>,
    depth: int,
) -> RunWalk
    decreases state_rank(b, st), 2int,
{
    let o = if run_emits(n) && !opened {
        (written(ds, run_open_tags(rp)), true, run_close_tags(rp) + close)
    } else {
        (ds, opened, close)
    };
    let d1 = o.0;
    if is_text_elem(n) {
        let t = text_walk(b, st, Seq::empty(), false);
        (written(d1, t.0), t.1, rp, o.1, o.2)
    } else if is_break_elem(n) {
        (written(d1, "<br>"@), skip_from(b, st, 1), rp, o.1, o.2)
    } else if n == "w:tab"@ {
        (written(d1, "<span class=\"tab\">\t</span>"@), skip_from(b, st, 1), rp, o.1, o.2)
    } else if is_drawing_elem(n) {
        let r = drawing_walk(env, b, st, d1, depth);
        (r.0, r.1, rp, o.1, o.2)
    } else if n == "w:noBreakHyphen"@ {
        (written(d1, "&#8209;"@), skip_from(b, st, 1), rp, o.1, o.2)
    } else if n == "w:softHyphen"@ {
        (written(d1, "&shy;"@), skip_from(b, st, 1), rp, o.1, o.2)
    } else if n == "w:sym"@ {
        (sym_done(d1, st.attrs), skip_from(b, st, 1), rp, o.1, o.2)
    } else if n == "w:footnoteReference"@ {
        (note_ref_done(d1, true, st.attrs, rp.vert == 1), skip_from(b, st, 1), rp, o.1, o.2)
    } else if n == "w:endnoteReference"@ {
        (note_ref_done(d1, false, st.attrs, rp.vert == 1), skip_from(b, st, 1), rp, o.1, o.2)
    } else if depth > MAX_DEPTH {
        (d1, skip_from(b, st, 1), rp, o.1, o.2)
    } else {
        run_children_walk(env, b, st, d1, n, rp, o.1, o.2, depth + 1)
    }
}

/// Run content from `st` on up to the end tag `end`.
pub open spec fn run_children_walk(
    env: Env,
    b: Seq<u8>,
    st: XmlState,
    ds: DocState,
    end: Seq<char>,
    rp: RunPropsView,
    opened: bool,
    close: Seq<char>,
    depth: int,
) -> RunWalk
    decreases state_rank(b, st), 0int,
{
    let (ev, next) = xml_step(b, st);
    if ev == Event::Eof || state_rank(b, next) >= state_rank(b, st) || state_rank(b, next) < 0 {
        (ds, next, rp, opened, close)
    } else if ev == Event::End {
        if next.name == end {
            (ds, next, rp, opened, close)
        } else {
            run_children_walk(env, b, next, ds, end, rp, opened, close, depth)
        }
    } else if ev == Event::Start {
        let n = next.name;
        if n == "mc:AlternateContent"@ {
            let a = alternate_run_walk(env, b, next, ds, rp, opened, close, depth);
            if a.1 {
                a.0
            } else if 0 <= state_rank(b, a.0.1) < state_rank(b, st) {
                run_children_walk(env, b, a.0.1, a.0.0, end, a.0.2, a.0.3, a.0.4, depth)
            } else {
                a.0
            }
        } else {
            let r: RunWalk = if n == "w:rPr"@ {
                let w = element_walk(b, next, 1, rp, run_step(env.styles.2));
                (ds, w.1, w.0, opened, close)
            } else if n == "w:fldChar"@ {
                (fld_char_done(ds, next.attrs), skip_from(b, next, 1), rp, opened, close)
            } else if n == "w:instrText"@ {
                let w = instr_text_done(b, next, ds);
                (w.0, w.1, rp, opened, close)
            } else if run_skipped(n) {
                (ds, skip_from(b, next, 1), rp, opened, close)
            } else {
                run_element_walk(env, b, next, ds, n, rp, opened, close, depth)
            };
            if 0 <= state_rank(b, r.1) < state_rank(b, st) {
                run_children_walk(env, b, r.1, r.0, end, r.2, r.3, r.4, depth)
            } else {
                r
            }
        }
    } else {
        run_children_walk(env, b, next, ds, end, rp, opened, close, depth)
    }
}

/// The alternatives of an `mc:AlternateContent` in a run: only the fallback. The walk, and
/// whether the input ended inside it.
pub open spec fn alternate_run_walk(
    env: Env,
    b: Seq<u8>,
    st: XmlState,
    ds: DocState,
    rp: RunPropsView,
    opened: bool,
    close: Seq<char>,
    depth: int,
) -> (RunWalk, bool)
    decreases state_rank(b, st), 0int,
{
    let (ev, next) = xml_step(b, st);
    if ev == Event::Eof || state_rank(b, next) >= state_rank(b, st) || state_rank(b, next) < 0 {
        ((ds, next, rp, opened, close), true)
    } else if ev == Event::End {
        if next.name == "mc:AlternateContent"@ {
            ((ds, next, rp, opened, close), false)
        } else {
            alternate_run_walk(env, b, next, ds, rp, opened, close, depth)
        }
    } else if ev == Event::Start {
        let r: RunWalk = if next.name == "mc:Fallback"@ {
            run_children_walk(env, b, next, ds, "mc:Fallback"@, rp, opened, close, depth)
        } else {
            (ds, skip_from(b, next, 1), rp, opened, close)
        };
        if 0 <= state_rank(b, r.1) < state_rank(b, st) {
            alternate_run_walk(env, b, r.1, r.0, r.2, r.3, r.4, depth)
        } else {
            (r, false)
        }
    } else {
        alternate_run_walk(env, b, next, ds, rp, opened, close, depth)
    }
}

/// The content of a drawing from `st` on, `d` levels deep: its extent and image, and the
/// blocks of its text boxes.
pub open spec fn drawing_content(
    env: Env,
    b: Seq<u8>,
    st: XmlState,
    ds: DocState,
    d: int,
    pic: Picture,
    depth: int,
) -> (DocState, XmlState, Picture)
    decreases state_rank(b, st), 0int,
{
    if d <= 0 {
        (ds, st, pic)
    } else {
        let (ev, next) = xml_step(b, st);
        if ev == Event::Eof || state_rank(b, next) >= state_rank(b, st) || state_rank(b, next) < 0 {
            (ds, next, pic)
        } else if ev == Event::Start {
            let p2 = picture_seen(pic, next.name, next.attrs);
            if next.name == "w:txbxContent"@ {
                let r = blocks_walk(env, b, next, ds, next.name, depth);
                if 0 <= state_rank(b, r.1) < state_rank(b, st) {
                    drawing_content(env, b, r.1, r.0, d, p2, depth)
                } else {
                    (r.0, r.1, p2)
                }
            } else {
                drawing_content(env, b, next, ds, d + 1, p2, depth)
            }
        } else if ev == Event::End {
            drawing_content(env, b, next, ds, d - 1, pic, depth)
        } else {
            drawing_content(env, b, next, ds, d, pic, depth)
        }
    }
}

/// A drawing whose start tag the parser read: its text boxes, then its image.
pub open spec fn drawing_walk(env: Env, b: Seq<u8>, st: XmlState, ds: DocState, depth: int) -> Walk
    decreases state_rank(b, st), 1int,
{
    let r = drawing_content(env, b, st, ds, 1, (0i32, 0i32, Seq::empty()), depth);
    (if r.2.2.len() > 0 {
        written(r.0, image_in(env, r.2.2, r.2.0, r.2.1))
    } else {
        r.0
    }, r.1)
}

/// A table whose start tag the parser read: its rows collected, then the table written.
pub open spec fn table_walk(env: Env, b: Seq<u8>, st: XmlState, ds: DocState, depth: int) -> Walk
    decreases state_rank(b, st), 1int,
{
    let r = rows_walk(env, b, st, ds, "w:tbl"@, Seq::empty(), depth);
    (written(r.0, table_html(r.2)), r.1)
}

/// The rows of a table from `st` on up to the end tag `end`, after `rows`.
pub open spec fn rows_walk(
    env: Env,
    b: Seq<u8>,
    st: XmlState,
    ds: DocState,
    end: Seq<char>,
    rows: Seq<RowView>,
    depth: int,
) -> (DocState, XmlState, Seq<RowView>)
    decreases state_rank(b, st), 0int,
{
    let (ev, next) = xml_step(b, st);
    if ev == Event::Eof || state_rank(b, next) >= state_rank(b, st) || state_rank(b, next) < 0 {
        (ds, next, rows)
    } else if ev == Event::End {
        if next.name == end {
            (ds, next, rows)
        } else {
            rows_walk(env, b, next, ds, end, rows, depth)
        }
    } else if ev == Event::Start {
        let n = next.name;
        let r: (DocState, XmlState, Seq<RowView>) = if n == "w:tr"@ {
            let w = row_walk(env, b, next, ds, "w:tr"@, RowView { cells: Seq::empty(), header: false }, depth);
            (w.0, w.1, rows.push(w.2))
        } else if n == "w:tblPr"@ || n == "w:tblGrid"@ || depth > MAX_DEPTH {
            (ds, skip_from(b, next, 1), rows)
        } else {
            rows_walk(env, b, next, ds, n, rows, depth + 1)
        };
        if 0 <= state_rank(b, r.1) < state_rank(b, st) {
            rows_walk(env, b, r.1, r.0, end, r.2, depth)
        } else {
            r
        }
    } else {
        rows_walk(env, b, next, ds, end, rows, depth)
    }
}

/// The cells of a table row from `st` on up to the end tag `end`, added to `row`.
pub open spec fn row_walk(
    env: Env,
    b: Seq<u8>,
    st: XmlState,
    ds: DocState,
    end: Seq<char>,
    row: RowView,
    depth: int,
) -> (DocState, XmlState, RowView)
    decreases state_rank(b, st), 0int,
{
    let (ev, next) = xml_step(b, st);
    if ev == Event::Eof || state_rank(b, next) >= state_rank(b, st) || state_rank(b, next) < 0 {
        (ds, next, row)
    } else if ev == Event::End {
        if next.name == end {
            (ds, next, row)
        } else {
            row_walk(env, b, next, ds, end, row, depth)
        }
    } else if ev == Event::Start {
        let n = next.name;
        if n == "w:trPr"@ {
            let h = row_header_walk(b, next, 1, row.header);
            let row2 = RowView { header: h.1, ..row };
            if h.2 {
                (ds, h.0, row2)
            } else if 0 <= state_rank(b, h.0) < state_rank(b, st) {
                row_walk(env, b, h.0, ds, end, row2, depth)
            } else {
                (ds, h.0, row2)
            }
        } else {
            let r: (DocState, XmlState, RowView) = if n == "w:tc"@ {
                let c = cell_walk(env, b, next, ds, depth);
                (c.0, c.1, RowView { cells: row.cells.push(c.2), ..row })
            } else if n == "w:tblPrEx"@ || depth > MAX_DEPTH {
                (ds, skip_from(b, next, 1), row)
            } else {
                row_walk(env, b, next, ds, n, row, depth + 1)
            };
            if 0 <= state_rank(b, r.1) < state_rank(b, st) {
                row_walk(env, b, r.1, r.0, end, r.2, depth)
            } else {
                r
            }
        }
    } else {
        row_walk(env, b, next, ds, end, row, depth)
    }
}

/// The children of a table cell from `st` on up to its end: its properties, and its blocks.
pub open spec fn cell_children(
    env: Env,
    b: Seq<u8>,
    st: XmlState,
    ds: DocState,
    props: CellPropsView,
    depth: int,
) -> (DocState, XmlState, CellPropsView)
    decreases state_rank(b, st), 0int,
{
    let (ev, next) = xml_step(b, st);
    if ev == Event::Eof || state_rank(b, next) >= state_rank(b, st) || state_rank(b, next) < 0 {
        (ds, next, props)
    } else if ev == Event::End {
        if next.name == "w:tc"@ {
            (ds, next, props)
        } else {
            cell_children(env, b, next, ds, props, depth)
        }
    } else if ev == Event::Start {
        let r: (DocState, XmlState, CellPropsView) = if next.name == "w:tcPr"@ {
            let w = element_walk(b, next, 1, props, cell_step());
            (ds, w.1, w.0)
        } else {
            let w = block_child_walk(env, b, next, ds, next.name, depth);
            (w.0, w.1, props)
        };
        if 0 <= state_rank(b, r.1) < state_rank(b, st) {
            cell_children(env, b, r.1, r.0, r.2, depth)
        } else {
            r
        }
    } else {
        cell_children(env, b, next, ds, props, depth)
    }
}

/// A table cell whose start tag the parser read: its blocks written apart (lists closed at its
/// end) and kept as its content, with its properties.
pub open spec fn cell_walk(env: Env, b: Seq<u8>, st: XmlState, ds: DocState, depth: int) -> (DocState, XmlState, CellView)
    decreases state_rank(b, st), 1int,
{
    let r = cell_children(env, b, st, DocState { out: Seq::empty(), ..ds }, (1i32, 0i32, Seq::empty()), depth);
    let d2 = lists_closed(r.0, 0);
    (
        DocState { out: ds.out, ..d2 },
        r.1,
        CellView { html: d2.out, css: r.2.2, colspan: r.2.0, vmerge: r.2.1 },
    )
}


/// The document part from `st` on: the blocks of its first `w:body` element.
pub open spec fn body_walk(env: Env, b: Seq<u8>, st: XmlState, ds: DocState) -> DocState
    decreases state_rank(b, st),
{
    let (ev, next) = xml_step(b, st);
    if ev == Event::Eof || state_rank(b, next) >= state_rank(b, st) || state_rank(b, next) < 0 {
        ds
    } else if ev == Event::Start && next.name == "w:body"@ {
        blocks_walk(env, b, next, ds, "w:body"@, 0).0
    } else {
        body_walk(env, b, next, ds)
    }
}

/// The converted body of the document part `b`, the lists still open closed at its end.
pub open spec fn body_done(env: Env, b: Seq<u8>, ds: DocState) -> DocState {
    lists_closed(body_walk(env, b, start_state(), ds), 0)
}

/// The note types that separate the notes from the text rather than being notes.
pub open spec fn is_separator(ty: Seq<char>) -> bool {
    ty == "separator"@ || ty == "continuationSeparator"@ || ty == "continuationNotice"@
}

/// The notes of a notes part from `st` on: each `elem` element, unless it is a separator,
/// converted apart (lists closed at its end) and kept under its id in `bodies`.
pub open spec fn notes_walk(
    env: Env,
    b: Seq<u8>,
    st: XmlState,
    ds: DocState,
    elem: Seq<char>,
    bodies: Map<Seq<char>, Seq<char>>,
) -> (DocState, Map<Seq<char>, Seq<char>>)
    decreases state_rank(b, st),
{
    let (ev, next) = xml_step(b, st);
    if ev == Event::Eof || state_rank(b, next) >= state_rank(b, st) || state_rank(b, next) < 0 {
        (ds, bodies)
    } else if ev == Event::Start && next.name == elem {
        let id = attr_lookup(next.attrs, "w:id"@);
        if is_separator(attr_lookup(next.attrs, "w:type"@)) {
            let st2 = skip_from(b, next, 1);
            if 0 <= state_rank(b, st2) < state_rank(b, st) {
                notes_walk(env, b, st2, ds, elem, bodies)
            } else {
                (ds, bodies)
            }
        } else {
            let r = blocks_walk(env, b, next, DocState { out: Seq::empty(), ..ds }, elem, 0);
            let d2 = lists_closed(r.0, 0);
            let ds2 = DocState { out: ds.out, ..d2 };
            let bodies2 = bodies.insert(id, d2.out);
            if 0 <= state_rank(b, r.1) < state_rank(b, st) {
                notes_walk(env, b, r.1, ds2, elem, bodies2)
            } else {
                (ds2, bodies2)
            }
        }
    } else {
        notes_walk(env, b, next, ds, elem, bodies)
    }
}

/// The relationships of the notes part `part_name` (none when it has no relationship part).
pub open spec fn notes_rels(env: Env, part_name: Seq<char>) -> Map<Seq<char>, RelView> {
    match part_data(env.bytes, env.listing, env.base_dir + "_rels/"@ + part_name + ".xml.rels"@) {
        Some(rb) => rels_from(encode_utf8(lossy_text(rb)), start_state(), Map::empty()),
        None => Map::empty(),
    }
}

/// The notes section of the footnotes (or endnotes) referred to so far, from the notes part
/// `part_name`: the notes converted with that part's relationships, then listed in the order of
/// their first references. Nothing when no note was referred to or the part cannot be read.
pub open spec fn notes_done(env: Env, ds: DocState, part_name: Seq<char>, footnote: bool) -> DocState {
    let order = if footnote { ds.fn_order } else { ds.en_order };
    if order.len() == 0 {
        ds
    } else {
        match part_data(env.bytes, env.listing, env.base_dir + part_name + ".xml"@) {
            None => ds,
            Some(buf) => {
                let w = notes_walk(
                    Env { rels: notes_rels(env, part_name), ..env },
                    encode_utf8(lossy_text(buf)),
                    start_state(),
                    ds,
                    if footnote { "w:footnote"@ } else { "w:endnote"@ },
                    Map::empty(),
                );
                DocState { out: ds.out + notes_html(footnote, order, w.1), ..w.0 }
            },
        }
    }
}


/// The state before anything is converted.
pub open spec fn fresh_state() -> DocState {
    DocState {
        out: Seq::empty(),
        lists: Seq::empty(),
        emitted: Map::empty(),
        fields: Seq::empty(),
        fn_order: Seq::empty(),
        en_order: Seq::empty(),
    }
}

/// Style tables with nothing in them.
pub open spec fn no_styles() -> StyleTables {
    (Map::empty(), Map::empty(), Map::empty())
}

/// Numbering tables with nothing in them.
pub open spec fn no_numbering() -> NumberingTables {
    (Map::empty(), Map::empty(), Map::empty(), Map::empty(), Map::empty())
}

/// The directory of the main document part of the package (with its last slash).
pub open spec fn main_dir(d: Seq<u8>, listing: Seq<EntryView>) -> Seq<char> {
    let path = main_part_path(d, listing);
    path.take(last_index_of(path, '/') + 1)
}

/// The file name of the main document part of the package.
pub open spec fn main_name(d: Seq<u8>, listing: Seq<EntryView>) -> Seq<char> {
    let path = main_part_path(d, listing);
    path.skip(last_index_of(path, '/') + 1)
}

/// What converting the package with bytes `d` and entries `listing` works with: the styles and
/// numbering of the parts beside the main part, the main part's relationships, and whether
/// images are embedded.
pub open spec fn package_env(d: Seq<u8>, listing: Seq<EntryView>, embed_images: bool) -> Env {
    let dir = main_dir(d, listing);
    Env {
        styles: match part_data(d, listing, dir + "styles.xml"@) {
            Some(buf) => styles_from(encode_utf8(lossy_text(buf)), start_state(), Seq::empty(), Seq::empty(), no_styles()),
            None => no_styles(),
        },
        numbering: match part_data(d, listing, dir + "numbering.xml"@) {
            Some(buf) => numbering_from(encode_utf8(lossy_text(buf)), start_state(), (-1i32, -1i32, -1i32), no_numbering()),
            None => no_numbering(),
        },
        rels: match part_data(d, listing, dir + "_rels/"@ + main_name(d, listing) + ".rels"@) {
            Some(buf) => rels_from(encode_utf8(lossy_text(buf)), start_state(), Map::empty()),
            None => Map::empty(),
        },
        embed_images,
        base_dir: dir,
        bytes: d,
        listing,
    }
}

/// The HTML of the document in the package: its body, then its footnotes and its endnotes.
pub open spec fn converted_body(d: Seq<u8>, listing: Seq<EntryView>, embed_images: bool) -> Seq<char> {
    let env = package_env(d, listing, embed_images);
    match part_data(d, listing, main_part_path(d, listing)) {
        Some(doc) => {
            let body = body_done(env, encode_utf8(lossy_text(doc)), fresh_state());
            notes_done(env, notes_done(env, body, "footnotes"@, true), "endnotes"@, false).out
        },
        None => Seq::empty(),
    }
}

} // verus!
