//! The sequence diagram layout engine: participants left to right in
//! first-appearance order, a downward-moving vertical cursor for messages,
//! fragments, notes, dividers and delays, activation rectangles, lifelines
//! and footers, and a final widening pass for overflowing message text.

use vstd::prelude::*;
use crate::ast::Activation;
use crate::ast::ActivationType;
use crate::ast::AutonumberCommand;
use crate::ast::FragmentType;
use crate::ast::LineStyle;
use crate::ast::MAX_ITEMS;
use crate::ast::MAX_TEXT;
use crate::ast::Message;
use crate::ast::Note;
use crate::ast::NotePosition;
use crate::ast::Participant;
use crate::ast::ParticipantType;
use crate::ast::SequenceDiagram;
use crate::ast::SequenceElement;
use crate::ast::el_size;
use crate::ast::el_wf;
use crate::ast::els_size;
use crate::ast::els_wf;
use crate::ast::lemma_el_size_pos;
use crate::ast::lemma_els_size_nonneg;
use crate::ast::lemma_els_size_split;
use crate::ast::lemma_sections_size_nonneg;
use crate::ast::lemma_sections_size_split;
use crate::ast::sections_size;
use crate::ast::sections_wf;
use crate::ast::section_wf;
use crate::ast::seq_diagram_wf;
use crate::geom::Point;
use crate::geom::Rect;
use crate::geom::imax;
use crate::geom::imin;
use crate::geom::mul_nn;
use crate::geom::spec_imax;
use crate::geom::spec_imin;
use crate::model::EdgeType;
use crate::model::ElementType;
use crate::model::FragmentSection;
use crate::model::LayoutElement;
use crate::model::LayoutResult;
use crate::model::Props;
use crate::model::props_lookup;
use crate::model::bounds_is_tight_union;
use crate::numfmt::dec_seq;
use crate::numfmt::u64_to_dec;
use crate::seq_config::SequenceLayoutConfig;
use crate::seq_config::default_sequence_config;
use crate::seq_metrics::AUTO_CAP;
use crate::seq_metrics::CompletedActivation;
use crate::seq_metrics::DiagramMetrics;
use crate::seq_metrics::OpenActivation;
use crate::seq_metrics::count_open;
use crate::seq_metrics::last_open_index;
use crate::seq_metrics::ParticipantMetrics;
use crate::seq_metrics::X_LIM;
use crate::seq_metrics::Y_LIM;

verus! {

/// The vertical cursor advances at most this much per size unit.
pub const Y_STEP: i64 = 0x200_0000;

/// The ordered, distinct canonical participant ids of a diagram: declared
/// participants first, then first appearances inside messages.
pub open spec fn add_name(acc: Seq<Seq<char>>, n: Seq<char>) -> Seq<Seq<char>> {
    if acc.contains(n) {
        acc
    } else {
        acc.push(n)
    }
}

pub open spec fn collect_el_names(acc: Seq<Seq<char>>, e: SequenceElement) -> Seq<Seq<char>>
    decreases e, 1int,
{
    match e {
        SequenceElement::Message(msg) => add_name(add_name(acc, msg.from@), msg.to@),
        SequenceElement::Fragment(f) => collect_sections_names(acc, f.sections@),
        _ => acc,
    }
}

pub open spec fn collect_sections_names(
    acc: Seq<Seq<char>>,
    ss: Seq<crate::ast::FragmentSection>,
) -> Seq<Seq<char>>
    decreases ss, 2int,
{
    if ss.len() == 0 {
        acc
    } else {
        collect_sections_names(collect_els_names(acc, ss[0].elements@), ss.skip(1))
    }
}

pub open spec fn collect_els_names(acc: Seq<Seq<char>>, es: Seq<SequenceElement>) -> Seq<
    Seq<char>,
>
    decreases es, 0int,
{
    if es.len() == 0 {
        acc
    } else {
        collect_els_names(collect_el_names(acc, es[0]), es.skip(1))
    }
}

pub open spec fn decl_names(acc: Seq<Seq<char>>, ps: Seq<Participant>) -> Seq<Seq<char>>
    decreases ps,
{
    if ps.len() == 0 {
        acc
    } else {
        decl_names(add_name(acc, ps[0].canonical_id()), ps.skip(1))
    }
}

/// All participants of a diagram, in first-appearance order.
pub open spec fn participants_of(d: SequenceDiagram) -> Seq<Seq<char>> {
    collect_els_names(decl_names(Seq::empty(), d.participants@), d.elements@)
}

/// The display name shown for a canonical id: the name of the first declared
/// participant carrying it, or the id itself.
pub open spec fn display_of(ps: Seq<Participant>, id: Seq<char>) -> Seq<char>
    decreases ps,
{
    if ps.len() == 0 {
        id
    } else if ps[0].canonical_id() == id {
        ps[0].id.name@
    } else {
        display_of(ps.skip(1), id)
    }
}

/// The column kind shown for a canonical id.
pub open spec fn ptype_of(ps: Seq<Participant>, id: Seq<char>) -> ParticipantType
    decreases ps,
{
    if ps.len() == 0 {
        ParticipantType::Participant
    } else if ps[0].canonical_id() == id {
        ps[0].participant_type
    } else {
        ptype_of(ps.skip(1), id)
    }
}

/// An element id that can never be confused with a header, footer or
/// lifeline id.
pub open spec fn neutral_id(id: Seq<char>) -> bool {
    &&& !is_pref(id, "participant_"@)
    &&& !is_pref(id, "footer_"@)
    &&& !is_pref(id, "lifeline_"@)
}

pub open spec fn is_pref(id: Seq<char>, p: Seq<char>) -> bool {
    id.len() >= p.len() && id.take(p.len() as int) == p
}

/// How many elements carry exactly this id.
pub open spec fn count_named(els: Seq<LayoutElement>, full: Seq<char>) -> int
    decreases els,
{
    if els.len() == 0 {
        0
    } else {
        count_named(els.drop_last(), full) + if els.last().id@ == full {
            1int
        } else {
            0int
        }
    }
}

/// How many header elements carry the canonical id.
pub open spec fn count_headers_named(els: Seq<LayoutElement>, id: Seq<char>) -> int {
    count_named(els, "participant_"@ + id)
}

pub open spec fn count_footers_named(els: Seq<LayoutElement>, id: Seq<char>) -> int {
    count_named(els, "footer_"@ + id)
}

pub open spec fn count_lifelines_named(els: Seq<LayoutElement>, id: Seq<char>) -> int {
    count_named(els, "lifeline_"@ + id)
}

/// Counting distributes over concatenation.
pub proof fn lemma_count_concat(a: Seq<LayoutElement>, b: Seq<LayoutElement>, full: Seq<char>)
    ensures
        count_named(a + b, full) == count_named(a, full) + count_named(b, full),
    decreases b,
{
    if b.len() == 0 {
        assert(a + b =~= a);
    } else {
        lemma_count_concat(a, b.drop_last(), full);
        assert((a + b).drop_last() =~= a + b.drop_last());
        assert((a + b).last() == b.last());
    }
}

/// A segment none of whose ids is `full` counts zero.
pub proof fn lemma_count_zero(els: Seq<LayoutElement>, full: Seq<char>)
    requires
        forall|i: int| 0 <= i < els.len() ==> (#[trigger] els[i]).id@ != full,
    ensures
        count_named(els, full) == 0,
    decreases els,
{
    if els.len() > 0 {
        assert forall|i: int| 0 <= i < els.drop_last().len() implies (#[trigger] els.drop_last()[
            i
        ]).id@ != full by {
            assert(els.drop_last()[i] == els[i]);
        }
        lemma_count_zero(els.drop_last(), full);
        assert(els.last() == els[els.len() - 1]);
    }
}

/// A prefix followed by equal tails: prefixed ids are injective in the tail.
pub proof fn lemma_prefix_cancel(p: Seq<char>, a: Seq<char>, b: Seq<char>)
    requires
        p + a == p + b,
    ensures
        a == b,
{
    assert(a =~= (p + a).subrange(p.len() as int, (p + a).len() as int));
    assert(b =~= (p + b).subrange(p.len() as int, (p + b).len() as int));
}

/// Ids with markers that differ in their first character never collide.
pub proof fn lemma_marker_differs(pa: Seq<char>, pb: Seq<char>, a: Seq<char>, b: Seq<char>)
    requires
        pa.len() >= 1,
        pb.len() >= 1,
        pa[0] != pb[0],
    ensures
        pa + a != pb + b,
{
    assert((pa + a)[0] == pa[0]);
    assert((pb + b)[0] == pb[0]);
}

/// A marker-prefixed id is never neutral for that marker.
pub proof fn lemma_prefixed_is_pref(id: Seq<char>, p: Seq<char>, x: Seq<char>)
    requires
        id == p + x,
    ensures
        is_pref(id, p),
{
    assert(id.take(p.len() as int) =~= p);
}

/// A segment of marker-prefixed elements, one per distinct name, counts one
/// for each of its names.
pub proof fn lemma_ids_to_counts(
    seg: Seq<LayoutElement>,
    names: Seq<Seq<char>>,
    marker: Seq<char>,
    k: int,
)
    requires
        seg.len() == names.len(),
        forall|j: int| 0 <= j < seg.len() ==> (#[trigger] seg[j]).id@ == marker + names[j],
        forall|i: int, j: int|
            0 <= i < names.len() && 0 <= j < names.len() && i != j ==> names[i] != names[j],
        0 <= k < names.len(),
    ensures
        count_named(seg, marker + names[k]) == 1,
    decreases seg,
{
    if seg.len() > 0 {
        let front = seg.drop_last();
        let fnames = names.drop_last();
        assert forall|j: int| 0 <= j < front.len() implies (#[trigger] front[j]).id@ == marker
            + fnames[j] by {
            assert(front[j] == seg[j]);
            assert(fnames[j] == names[j]);
        }
        if k == seg.len() - 1 {
            assert forall|i: int| 0 <= i < front.len() implies (#[trigger] front[i]).id@ != marker
                + names[k] by {
                if front[i].id@ == marker + names[k] {
                    lemma_prefix_cancel(marker, names[i], names[k]);
                }
            }
            lemma_count_zero(front, marker + names[k]);
            assert(seg.last().id@ == marker + names[k]);
        } else {
            lemma_ids_to_counts(front, fnames, marker, k);
            assert(seg.last().id@ == marker + names[seg.len() - 1]);
            if seg.last().id@ == marker + names[k] {
                lemma_prefix_cancel(marker, names[seg.len() - 1], names[k]);
            }
        }
    }
}

/// A neutral segment counts zero for any marker-prefixed id, for the three
/// inventory markers.
pub proof fn lemma_neutral_zero(seg: Seq<LayoutElement>, marker: Seq<char>, id: Seq<char>)
    requires
        all_neutral(seg),
        marker == "participant_"@ || marker == "footer_"@ || marker == "lifeline_"@,
    ensures
        count_named(seg, marker + id) == 0,
{
    assert forall|i: int| 0 <= i < seg.len() implies (#[trigger] seg[i]).id@ != marker + id by {
        if seg[i].id@ == marker + id {
            lemma_prefixed_is_pref(seg[i].id@, marker, id);
        }
    }
    lemma_count_zero(seg, marker + id);
}

/// A polyline fit for an `Edge`: at least two points, consecutive points
/// distinct, all within coordinate range.
pub open spec fn points_ok(ps: Seq<Point>) -> bool {
    &&& ps.len() >= 2
    &&& forall|i: int| 0 <= i < ps.len() - 1 ==> #[trigger] ps[i] != ps[i + 1]
    &&& forall|i: int| 0 <= i < ps.len() ==> (#[trigger] ps[i]).in_range()
}

/// Output well-formedness of one element: positive in-range bounds; edges
/// carry valid polylines; a fragment's sections are ordered and its children
/// lie strictly inside its vertical extent.
pub open spec fn out_el_wf(e: LayoutElement) -> bool
    decreases e,
{
    &&& e.bounds.is_positive()
    &&& e.bounds.in_range()
    &&& match e.element_type {
        ElementType::Edge { points, .. } => points_ok(points@),
        ElementType::Fragment { sections, .. } => out_sections_wf(sections@, e.bounds),
        _ => true,
    }
}

pub open spec fn out_sections_wf(ss: Seq<FragmentSection>, frame: Rect) -> bool
    decreases ss,
{
    if ss.len() == 0 {
        true
    } else {
        &&& ss[0].start_y <= ss[0].end_y
        &&& frame.y <= ss[0].start_y
        &&& ss[0].end_y <= frame.bottom()
        &&& out_children_wf(ss[0].children@, frame)
        &&& out_sections_wf(ss.skip(1), frame)
    }
}

pub open spec fn out_children_wf(els: Seq<LayoutElement>, frame: Rect) -> bool
    decreases els,
{
    if els.len() == 0 {
        true
    } else {
        &&& out_el_wf(els[0])
        &&& frame.y < els[0].bounds.y
        &&& els[0].bounds.bottom() < frame.bottom()
        &&& (els[0].element_type is Edge ==> frame.x < els[0].bounds.x && els[0].bounds.right()
            < frame.right())
        &&& out_children_wf(els.skip(1), frame)
    }
}

pub open spec fn out_els_wf(els: Seq<LayoutElement>) -> bool
    decreases els,
{
    if els.len() == 0 {
        true
    } else {
        out_el_wf(els[0]) && out_els_wf(els.skip(1))
    }
}

pub proof fn lemma_out_els_wf_push(els: Seq<LayoutElement>, e: LayoutElement)
    ensures
        out_els_wf(els.push(e)) == (out_els_wf(els) && out_el_wf(e)),
    decreases els,
{
    assert(out_els_wf(els.push(e)) == (out_el_wf(els.push(e)[0]) && out_els_wf(
        els.push(e).skip(1),
    )));
    if els.len() == 0 {
        assert(els.push(e)[0] == e);
        assert(els.push(e).skip(1) =~= Seq::<LayoutElement>::empty());
        assert(out_els_wf(els.push(e).skip(1)));
        assert(out_els_wf(els));
    } else {
        assert(els.push(e)[0] == els[0]);
        assert(els.push(e).skip(1) =~= els.skip(1).push(e));
        lemma_out_els_wf_push(els.skip(1), e);
        assert(out_els_wf(els) == (out_el_wf(els[0]) && out_els_wf(els.skip(1))));
    }
}

pub proof fn lemma_out_els_wf_index(els: Seq<LayoutElement>)
    ensures
        out_els_wf(els) ==> forall|i: int| 0 <= i < els.len() ==> out_el_wf(#[trigger] els[i]),
    decreases els,
{
    if els.len() > 0 {
        lemma_out_els_wf_index(els.skip(1));
        if out_els_wf(els) {
            assert forall|i: int| 0 <= i < els.len() implies out_el_wf(#[trigger] els[i]) by {
                if i > 0 {
                    assert(els.skip(1)[i - 1] == els[i]);
                }
            }
        }
    }
}

/// All elements of a segment carry neutral ids.
pub open spec fn all_neutral(els: Seq<LayoutElement>) -> bool {
    forall|i: int| 0 <= i < els.len() ==> neutral_id((#[trigger] els[i]).id@)
}

/// The public shape of a finished sequence layout: the element list is the
/// concatenation, in painter's order, of box backgrounds, participant
/// headers, the rendered vertical flow, activation rectangles, lifelines and
/// footers, each segment as the corresponding pass states.
pub open spec fn layout_assembled(
    cfg: SequenceLayoutConfig,
    d: SequenceDiagram,
    els: Seq<LayoutElement>,
    m0: DiagramMetrics,
    mflow: DiagramMetrics,
    mfin: DiagramMetrics,
    boxes: Seq<LayoutElement>,
    headers: Seq<LayoutElement>,
    body: Seq<LayoutElement>,
    acts: Seq<LayoutElement>,
    lifelines: Seq<LayoutElement>,
    footers: Seq<LayoutElement>,
    part_y: int,
    footer_y: int,
    total_height: int,
) -> bool {
    let names = m0.names.names();
    let parts = m0.parts@;
    &&& els == boxes + headers + body + acts + lifelines + footers
    &&& names == participants_of(d)
    &&& parts.len() == names.len()
    &&& !m0.auto.enabled
    &&& m0.auto.current == 1
    &&& m0.auto.step == 1
    &&& m0.auto.format is None
    &&& m0.opens@.len() == 0
    &&& m0.calls@.len() == 0
    &&& m0.completed@.len() == 0
    &&& part_y == cfg.margin + if boxes_have_title(d.boxes@) {
        cfg.box_title_height as int
    } else {
        0int
    }
    &&& forall|k: int| 0 <= k < parts.len() ==> (#[trigger] parts[k]).header_y == part_y
    &&& headers.len() == parts.len()
    &&& forall|k: int|
        0 <= k < headers.len() ==> {
            let h = #[trigger] headers[k];
            &&& h.id@ == "participant_"@ + names[k]
            &&& h.bounds == (Rect {
                x: parts[k].x,
                y: part_y as i64,
                width: parts[k].width,
                height: cfg.participant_height,
            })
            &&& match h.element_type {
                ElementType::Ellipse { label } => label matches Some(l) && l@
                    == parts[k].display_name@,
                ElementType::Rectangle { label, .. } => label@ == parts[k].display_name@,
                _ => false,
            }
        }
    &&& flow_rendered(cfg, d.elements@, m0, mflow, body)
    &&& mfin.opens@.len() == 0
    &&& mfin.parts@ == parts
    &&& mfin.names == m0.names
    &&& mfin.completed@.len() >= mflow.completed@.len()
    &&& mfin.current_y == mflow.current_y
    &&& footer_y == mflow.current_y - 11
    &&& acts.len() == mfin.completed@.len()
    &&& forall|k: int|
        0 <= k < acts.len() ==> act_desc(#[trigger] acts[k], mfin.completed@[k], mfin, cfg)
    &&& lifelines.len() == parts.len()
    &&& forall|k: int|
        0 <= k < lifelines.len() ==> {
            let e = #[trigger] lifelines[k];
            &&& e.id@ == "lifeline_"@ + names[k]
            &&& e.bounds == (Rect {
                x: parts[k].center_x,
                y: (part_y + cfg.participant_height) as i64,
                width: 1,
                height: (footer_y - part_y - cfg.participant_height) as i64,
            })
            &&& match e.element_type {
                ElementType::Edge { points, label, arrow_start, arrow_end, dashed, .. } => {
                    &&& dashed
                    &&& !arrow_start
                    &&& !arrow_end
                    &&& label is None
                    &&& points@ =~= seq![
                        Point {
                            x: parts[k].center_x,
                            y: (part_y + cfg.participant_height) as i64,
                        },
                        Point { x: parts[k].center_x, y: footer_y as i64 },
                    ]
                },
                _ => false,
            }
        }
    &&& footers.len() == parts.len()
    &&& forall|k: int|
        0 <= k < footers.len() ==> {
            let e = #[trigger] footers[k];
            &&& e.id@ == "footer_"@ + names[k]
            &&& e.bounds == (Rect {
                x: parts[k].x,
                y: footer_y as i64,
                width: parts[k].width,
                height: cfg.participant_height,
            })
            &&& match e.element_type {
                ElementType::Rectangle { label, .. } => label@ == parts[k].display_name@,
                _ => false,
            }
        }
    &&& total_height == footer_y + cfg.participant_height + cfg.margin
    &&& boxes.len() == visible_boxes(names, d.boxes@)
    &&& forall|bj: int|
        0 <= bj < d.boxes@.len() && box_visible(names, #[trigger] d.boxes@[bj]) ==> {
            let ix = visible_boxes(names, d.boxes@.take(bj));
            &&& 0 <= ix < boxes.len()
            &&& box_bg_desc(boxes[ix], d.boxes@[bj], names, parts, total_height)
        }
}

/// The layout engine for sequence diagrams.
pub struct SequenceLayoutEngine {
    pub config: SequenceLayoutConfig,
}

impl SequenceLayoutEngine {
    /// An engine with the stock configuration.
    pub fn new() -> (e: SequenceLayoutEngine)
        ensures
            e.config == default_sequence_config(),
            e.config.wf(),
    {
        SequenceLayoutEngine { config: SequenceLayoutConfig::default() }
    }

    /// An engine with the given configuration.
    pub fn with_config(config: SequenceLayoutConfig) -> (e: SequenceLayoutEngine)
        ensures
            e.config == config,
    {
        SequenceLayoutEngine { config }
    }
}

impl SequenceLayoutEngine {
    /// Lays out a sequence diagram: participant headers, the vertical flow of
    /// its elements, activation rectangles, lifelines, footers and box
    /// backgrounds, with the final extent widened for overflowing labels.
    ///
    /// The result's elements are output-well-formed: positive in-range
    /// bounds, polylines of distinct consecutive points, and fragment frames
    /// that strictly contain their children vertically. Every participant has
    /// exactly one header, one footer and one lifeline, named after it, and
    /// the result extent covers every element.
    #[verifier::rlimit(100)]
    pub fn layout(&self, diagram: &SequenceDiagram) -> (r: LayoutResult)
        requires
            seq_diagram_wf(*diagram),
            self.config.wf(),
        ensures
            out_els_wf(r.elements@),
            r.bounds.is_positive(),
            forall|i: int|
                0 <= i < r.elements@.len() ==> r.bounds.contains_rect(
                    (#[trigger] r.elements@[i]).bounds,
                ),
            forall|k: int|
                0 <= k < participants_of(*diagram).len() ==> {
                    &&& count_headers_named(
                        r.elements@,
                        #[trigger] participants_of(*diagram)[k],
                    ) == 1
                    &&& count_footers_named(r.elements@, participants_of(*diagram)[k]) == 1
                    &&& count_lifelines_named(r.elements@, participants_of(*diagram)[k]) == 1
                },
            exists|
                m0: DiagramMetrics,
                mflow: DiagramMetrics,
                mfin: DiagramMetrics,
                boxes: Seq<LayoutElement>,
                headers: Seq<LayoutElement>,
                body: Seq<LayoutElement>,
                acts: Seq<LayoutElement>,
                lifelines: Seq<LayoutElement>,
                footers: Seq<LayoutElement>,
                part_y: int,
                footer_y: int,
                total_height: int,
            |
                layout_assembled(
                    self.config,
                    *diagram,
                    r.elements@,
                    m0,
                    mflow,
                    mfin,
                    boxes,
                    headers,
                    body,
                    acts,
                    lifelines,
                    footers,
                    part_y,
                    footer_y,
                    total_height,
                ),
    {
        let cfg = &self.config;
        let mut m = DiagramMetrics::new();
        let mut displays: Vec<String> = Vec::new();
        let mut ptypes: Vec<ParticipantType> = Vec::new();
        collect_names(diagram, &mut m, &mut displays, &mut ptypes);
        proof {
            lemma_participants_bound(*diagram);
        }
        let ghost names = m.names.names();
        let placed = place_participants(cfg, diagram, &mut m, &displays, &ptypes);
        let mut headers = placed.0;
        let part_y = placed.1;
        m.advance_y(part_y + cfg.participant_height + 30);
        let ghost g_m0 = m;
        let mut body: Vec<LayoutElement> = Vec::new();
        let mut counter: u64 = 0;
        let mut tl: i64 = X_LIM;
        let mut tr: i64 = -1;
        proof {
            assert(diagram.elements@.skip(0) =~= diagram.elements@);
            assert(els_size(diagram.elements@) <= MAX_ITEMS);
        }
        layout_els_x(cfg, &diagram.elements, 0, &mut m, &mut body, &mut counter, &mut tl, &mut tr);
        let ghost g_mflow = m;
        m.finalize_activations();
        let ghost g_mfin = m;
        let footer_y = m.current_y - 11;
        let mut acts = emit_activations(cfg, &m, &mut counter);
        let mut lifelines = emit_lifelines(cfg, &m, part_y, footer_y);
        let mut footers = emit_footers(cfg, &m, footer_y);
        let total_height = footer_y + cfg.participant_height + cfg.margin;
        let mut elements = emit_boxes(cfg, diagram, &m, total_height, &mut counter);
        let ghost seg_boxes = elements@;
        let ghost seg_headers = headers@;
        let ghost seg_body = body@;
        let ghost seg_acts = acts@;
        let ghost seg_lifelines = lifelines@;
        let ghost seg_footers = footers@;
        proof {
            assert(seg_body.skip(0) =~= seg_body);
        }
        elements.append(&mut headers);
        elements.append(&mut body);
        elements.append(&mut acts);
        elements.append(&mut lifelines);
        elements.append(&mut footers);
        proof {
            lemma_layout_counts(
                seg_boxes,
                seg_headers,
                seg_body,
                seg_acts,
                seg_lifelines,
                seg_footers,
                elements@,
                names,
                m.names,
            );
            lemma_assembled_wf(
                seg_boxes,
                seg_headers,
                seg_body,
                seg_acts,
                seg_lifelines,
                seg_footers,
                elements@,
            );
            assert(elements@ =~= seg_boxes + seg_headers + seg_body + seg_acts + seg_lifelines
                + seg_footers);
            assert(seg_body =~= seg_body.skip(0));
            assert(layout_assembled(
                self.config,
                *diagram,
                elements@,
                g_m0,
                g_mflow,
                g_mfin,
                seg_boxes,
                seg_headers,
                seg_body,
                seg_acts,
                seg_lifelines,
                seg_footers,
                part_y as int,
                footer_y as int,
                (footer_y + cfg.participant_height + cfg.margin) as int,
            ));
        }
        let mut result = LayoutResult { elements, bounds: Rect::new(0, 0, 1, 1) };
        proof {
            lemma_out_els_wf_index(result.elements@);
        }
        result.calculate_bounds();
        let ghost tight = result.bounds;
        let n_el = result.elements.len();
        proof {
            if result.elements@.len() > 0 {
                crate::model::lemma_extent_range(result.elements@);
            }
        }
        let mut max_right: i64 = result.bounds.x + result.bounds.width;
        let mut q: usize = 0;
        while q < n_el
            invariant
                q <= n_el,
                n_el == result.elements@.len(),
                cfg.wf(),
                out_els_wf(result.elements@),
                result.bounds == tight,
                bounds_is_tight_union(result.bounds, result.elements@),
                result.bounds.x + result.bounds.width <= max_right,
                max_right <= crate::geom::COORD_LIMIT * 4,
            decreases n_el - q,
        {
            proof {
                lemma_out_els_wf_index(result.elements@);
            }
            let el = &result.elements[q];
            match &el.element_type {
                ElementType::Edge { points, label, .. } => {
                    match label {
                        Some(l) => {
                            if points.len() >= 1 && l.as_str().unicode_len() <= MAX_TEXT {
                                let lw = cfg.message_label_width(l.as_str());
                                let mut minpx = points[0].x;
                                let np = points.len();
                                let mut pi: usize = 1;
                                while pi < np
                                    invariant
                                        pi <= np,
                                        np == points@.len(),
                                        points_ok(points@),
                                        -crate::geom::COORD_LIMIT <= minpx
                                            <= crate::geom::COORD_LIMIT,
                                    decreases np - pi,
                                {
                                    minpx = imin(minpx, points[pi].x);
                                    pi = pi + 1;
                                }
                                let overflow = if np == 4 {
                                    minpx + 42 + 5 + lw
                                } else {
                                    minpx + 5 + lw
                                };
                                max_right = imax(max_right, overflow);
                            }
                        },
                        None => {
                        },
                    }
                },
                _ => {
                },
            }
            q = q + 1;
        }
        let right0 = result.bounds.x + result.bounds.width;
        if max_right > right0 {
            result.bounds.width = result.bounds.width + (max_right - right0) + 5;
            proof {
                crate::model::lemma_tight_union_positive(tight, result.elements@);
                assert forall|i: int|
                    0 <= i < result.elements@.len() implies result.bounds.contains_rect(
                    (#[trigger] result.elements@[i]).bounds,
                ) by {
                    crate::model::lemma_tight_union_contains(tight, result.elements@, i);
                }
            }
        } else {
            proof {
                crate::model::lemma_tight_union_positive(tight, result.elements@);
                assert forall|i: int|
                    0 <= i < result.elements@.len() implies result.bounds.contains_rect(
                    (#[trigger] result.elements@[i]).bounds,
                ) by {
                    crate::model::lemma_tight_union_contains(tight, result.elements@, i);
                }
            }
        }
        result
    }
}

/// All six assembled segments are output-well-formed.
proof fn lemma_assembled_wf(
    boxes: Seq<LayoutElement>,
    headers: Seq<LayoutElement>,
    body: Seq<LayoutElement>,
    acts: Seq<LayoutElement>,
    lifelines: Seq<LayoutElement>,
    footers: Seq<LayoutElement>,
    all: Seq<LayoutElement>,
)
    requires
        all == boxes + headers + body + acts + lifelines + footers,
        forall|i: int| 0 <= i < boxes.len() ==> out_el_wf(#[trigger] boxes[i]),
        forall|i: int| 0 <= i < headers.len() ==> out_el_wf(#[trigger] headers[i]),
        forall|i: int| 0 <= i < body.len() ==> out_el_wf(#[trigger] body[i]),
        forall|i: int| 0 <= i < acts.len() ==> out_el_wf(#[trigger] acts[i]),
        forall|i: int| 0 <= i < lifelines.len() ==> out_el_wf(#[trigger] lifelines[i]),
        forall|i: int| 0 <= i < footers.len() ==> out_el_wf(#[trigger] footers[i]),
    ensures
        out_els_wf(all),
{
    assert forall|i: int| 0 <= i < all.len() implies out_el_wf(#[trigger] all[i]) by {}
    lemma_pointwise_out_els(all);
}

/// Pointwise output well-formedness gives the recursive form.
pub proof fn lemma_pointwise_out_els_pub(els: Seq<LayoutElement>)
    requires
        forall|i: int| 0 <= i < els.len() ==> out_el_wf(#[trigger] els[i]),
    ensures
        out_els_wf(els),
{
    lemma_pointwise_out_els(els);
}

proof fn lemma_pointwise_out_els(els: Seq<LayoutElement>)
    requires
        forall|i: int| 0 <= i < els.len() ==> out_el_wf(#[trigger] els[i]),
    ensures
        out_els_wf(els),
    decreases els,
{
    if els.len() > 0 {
        assert forall|i: int| 0 <= i < els.skip(1).len() implies out_el_wf(
            #[trigger] els.skip(1)[i],
        ) by {
            assert(els.skip(1)[i] == els[i + 1]);
        }
        lemma_pointwise_out_els(els.skip(1));
    }
}

/// The inventory counts of the assembled output: one header, footer and
/// lifeline per participant.
proof fn lemma_layout_counts(
    boxes: Seq<LayoutElement>,
    headers: Seq<LayoutElement>,
    body: Seq<LayoutElement>,
    acts: Seq<LayoutElement>,
    lifelines: Seq<LayoutElement>,
    footers: Seq<LayoutElement>,
    all: Seq<LayoutElement>,
    names: Seq<Seq<char>>,
    index: crate::nametable::NameIndex,
)
    requires
        all == boxes + headers + body + acts + lifelines + footers,
        index.wf(),
        index.names() == names,
        all_neutral(boxes),
        all_neutral(body),
        all_neutral(acts),
        headers.len() == names.len(),
        lifelines.len() == names.len(),
        footers.len() == names.len(),
        forall|k: int|
            0 <= k < names.len() ==> (#[trigger] headers[k]).id@ == "participant_"@ + names[k],
        forall|k: int|
            0 <= k < names.len() ==> (#[trigger] lifelines[k]).id@ == "lifeline_"@ + names[k],
        forall|k: int|
            0 <= k < names.len() ==> (#[trigger] footers[k]).id@ == "footer_"@ + names[k],
    ensures
        forall|k: int|
            0 <= k < names.len() ==> {
                &&& count_headers_named(all, #[trigger] names[k]) == 1
                &&& count_footers_named(all, names[k]) == 1
                &&& count_lifelines_named(all, names[k]) == 1
            },
{
    reveal_strlit("participant_");
    reveal_strlit("footer_");
    reveal_strlit("lifeline_");
    assert forall|i: int, j: int|
        0 <= i < names.len() && 0 <= j < names.len() && i != j implies names[i] != names[j] by {
        index.lemma_names_distinct(i, j);
    }
    assert forall|k: int| 0 <= k < names.len() implies {
        &&& count_headers_named(all, #[trigger] names[k]) == 1
        &&& count_footers_named(all, names[k]) == 1
        &&& count_lifelines_named(all, names[k]) == 1
    } by {
        let id = names[k];
        lemma_segment_counts(boxes, headers, body, acts, lifelines, footers, all, names, k);
    }
}

proof fn lemma_segment_counts(
    boxes: Seq<LayoutElement>,
    headers: Seq<LayoutElement>,
    body: Seq<LayoutElement>,
    acts: Seq<LayoutElement>,
    lifelines: Seq<LayoutElement>,
    footers: Seq<LayoutElement>,
    all: Seq<LayoutElement>,
    names: Seq<Seq<char>>,
    k: int,
)
    requires
        all == boxes + headers + body + acts + lifelines + footers,
        all_neutral(boxes),
        all_neutral(body),
        all_neutral(acts),
        headers.len() == names.len(),
        lifelines.len() == names.len(),
        footers.len() == names.len(),
        0 <= k < names.len(),
        forall|i: int, j: int|
            0 <= i < names.len() && 0 <= j < names.len() && i != j ==> names[i] != names[j],
        forall|j: int|
            0 <= j < names.len() ==> (#[trigger] headers[j]).id@ == "participant_"@ + names[j],
        forall|j: int|
            0 <= j < names.len() ==> (#[trigger] lifelines[j]).id@ == "lifeline_"@ + names[j],
        forall|j: int|
            0 <= j < names.len() ==> (#[trigger] footers[j]).id@ == "footer_"@ + names[j],
    ensures
        count_headers_named(all, names[k]) == 1,
        count_footers_named(all, names[k]) == 1,
        count_lifelines_named(all, names[k]) == 1,
{
    reveal_strlit("participant_");
    reveal_strlit("footer_");
    reveal_strlit("lifeline_");
    let id = names[k];
    let hfull = "participant_"@ + id;
    let ffull = "footer_"@ + id;
    let lfull = "lifeline_"@ + id;
    lemma_count_concat(boxes, headers, hfull);
    lemma_count_concat(boxes + headers, body, hfull);
    lemma_count_concat(boxes + headers + body, acts, hfull);
    lemma_count_concat(boxes + headers + body + acts, lifelines, hfull);
    lemma_count_concat(boxes + headers + body + acts + lifelines, footers, hfull);
    lemma_count_concat(boxes, headers, ffull);
    lemma_count_concat(boxes + headers, body, ffull);
    lemma_count_concat(boxes + headers + body, acts, ffull);
    lemma_count_concat(boxes + headers + body + acts, lifelines, ffull);
    lemma_count_concat(boxes + headers + body + acts + lifelines, footers, ffull);
    lemma_count_concat(boxes, headers, lfull);
    lemma_count_concat(boxes + headers, body, lfull);
    lemma_count_concat(boxes + headers + body, acts, lfull);
    lemma_count_concat(boxes + headers + body + acts, lifelines, lfull);
    lemma_count_concat(boxes + headers + body + acts + lifelines, footers, lfull);
    lemma_neutral_zero(boxes, "participant_"@, id);
    lemma_neutral_zero(body, "participant_"@, id);
    lemma_neutral_zero(acts, "participant_"@, id);
    lemma_neutral_zero(boxes, "footer_"@, id);
    lemma_neutral_zero(body, "footer_"@, id);
    lemma_neutral_zero(acts, "footer_"@, id);
    lemma_neutral_zero(boxes, "lifeline_"@, id);
    lemma_neutral_zero(body, "lifeline_"@, id);
    lemma_neutral_zero(acts, "lifeline_"@, id);
    lemma_ids_to_counts(headers, names, "participant_"@, k);
    lemma_ids_to_counts(footers, names, "footer_"@, k);
    lemma_ids_to_counts(lifelines, names, "lifeline_"@, k);
    lemma_cross_zero(headers, names, "participant_"@, ffull, 'f');
    lemma_cross_zero(headers, names, "participant_"@, lfull, 'l');
    lemma_cross_zero(footers, names, "footer_"@, hfull, 'p');
    lemma_cross_zero(footers, names, "footer_"@, lfull, 'l');
    lemma_cross_zero(lifelines, names, "lifeline_"@, hfull, 'p');
    lemma_cross_zero(lifelines, names, "lifeline_"@, ffull, 'f');
}

/// A segment whose ids all carry one marker counts zero for a target id whose
/// marker begins differently.
proof fn lemma_cross_zero(
    seg: Seq<LayoutElement>,
    names: Seq<Seq<char>>,
    marker: Seq<char>,
    target: Seq<char>,
    tfirst: char,
)
    requires
        seg.len() == names.len(),
        forall|j: int| 0 <= j < names.len() ==> (#[trigger] seg[j]).id@ == marker + names[j],
        marker.len() >= 1,
        target.len() >= 1,
        target[0] == tfirst,
        marker[0] != tfirst,
    ensures
        count_named(seg, target) == 0,
{
    assert forall|i: int| 0 <= i < seg.len() implies (#[trigger] seg[i]).id@ != target by {
        assert((marker + names[i])[0] == marker[0]);
    }
    lemma_count_zero(seg, target);
}

impl Default for SequenceLayoutEngine {
    fn default() -> (e: SequenceLayoutEngine)
        ensures
            e.config == default_sequence_config(),
    {
        SequenceLayoutEngine::new()
    }
}


/// The display name of a fragment kind.
pub open spec fn ftype_name(ft: FragmentType) -> Seq<char> {
    match ft {
        FragmentType::Alt => "alt"@,
        FragmentType::Opt => "opt"@,
        FragmentType::Loop => "loop"@,
        FragmentType::Par => "par"@,
        FragmentType::Break => "break"@,
        FragmentType::Critical => "critical"@,
        FragmentType::Group => "group"@,
        FragmentType::Ref => "ref"@,
    }
}

/// How many elements one statement renders, given the flow state at its
/// turn: a message renders iff both endpoints are registered; a return iff a
/// call is pending between distinct lifelines; notes, dividers, delays and
/// fragments always render one; the rest render none.
pub open spec fn el_render_count(m0: DiagramMetrics, e: SequenceElement) -> int {
    let names = m0.names.names();
    match e {
        SequenceElement::Message(msg) => if slot_of(names, msg.from@) >= 0 && slot_of(
            names,
            msg.to@,
        ) >= 0 {
            1int
        } else {
            0int
        },
        SequenceElement::Return(_) => if m0.calls@.len() > 0 && m0.parts@[m0.calls@.last().1 as int].center_x
            != m0.parts@[m0.calls@.last().0 as int].center_x {
            1int
        } else {
            0int
        },
        SequenceElement::Note(_) => 1,
        SequenceElement::Divider(_) => 1,
        SequenceElement::Delay(_) => 1,
        SequenceElement::Fragment(_) => 1,
        _ => 0,
    }
}

/// How far one non-fragment statement moves the cursor.
pub open spec fn el_advance(cfg: SequenceLayoutConfig, m0: DiagramMetrics, e: SequenceElement) -> int {
    let names = m0.names.names();
    match e {
        SequenceElement::Message(msg) => {
            let fs = slot_of(names, msg.from@);
            let ts = slot_of(names, msg.to@);
            if fs >= 0 && ts >= 0 {
                count_breaks(msg.label@, 0) * cfg.line_height + if m0.parts@[fs].center_x
                    == m0.parts@[ts].center_x {
                    30int
                } else {
                    cfg.message_spacing as int
                }
            } else {
                0
            }
        },
        SequenceElement::Return(_) => if m0.calls@.len() > 0 {
            cfg.message_spacing as int
        } else {
            0
        },
        SequenceElement::Note(_) => cfg.note_height + 10,
        SequenceElement::Divider(_) => cfg.divider_height as int,
        SequenceElement::Delay(_) => cfg.delay_height as int,
        SequenceElement::Space(h) => h as int,
        _ => 0,
    }
}

/// The static lower bound on how many elements a statement renders: exact
/// for everything but returns, which need the run-time call stack.
pub open spec fn renders_lo(names: Seq<Seq<char>>, e: SequenceElement) -> int
    decreases e,
{
    match e {
        SequenceElement::Message(msg) => if slot_of(names, msg.from@) >= 0 && slot_of(
            names,
            msg.to@,
        ) >= 0 {
            1int
        } else {
            0int
        },
        SequenceElement::Note(_) => 1,
        SequenceElement::Divider(_) => 1,
        SequenceElement::Delay(_) => 1,
        SequenceElement::Fragment(_) => 1,
        _ => 0,
    }
}

pub open spec fn renders_lo_els(names: Seq<Seq<char>>, es: Seq<SequenceElement>) -> int
    decreases es,
{
    if es.len() == 0 {
        0
    } else {
        renders_lo(names, es[0]) + renders_lo_els(names, es.skip(1))
    }
}

proof fn lemma_renders_lo_nonneg(names: Seq<Seq<char>>, es: Seq<SequenceElement>)
    ensures
        renders_lo_els(names, es) >= 0,
    decreases es,
{
    if es.len() > 0 {
        lemma_renders_lo_nonneg(names, es.skip(1));
    }
}

/// The rendered sections of a fragment chain together: the first starts at
/// the entry cursor plus the gap, every later one 43 units below its
/// predecessor's end, and the last ends at the exit cursor.
pub open spec fn secs_chain(seg: Seq<FragmentSection>, y0: int, yend: int, gap: int) -> bool
    decreases seg,
{
    if seg.len() == 0 {
        yend == y0
    } else {
        &&& seg[0].start_y == y0 + gap
        &&& seg[0].start_y <= seg[0].end_y
        &&& secs_chain(seg.skip(1), seg[0].end_y as int, yend, 43)
    }
}

/// Every edge of the segment lies within the horizontal window `[xl, xr]`.
pub open spec fn seg_edges_in(els: Seq<LayoutElement>, xl: int, xr: int) -> bool {
    forall|i: int|
        0 <= i < els.len() ==> ((#[trigger] els[i]).element_type is Edge ==> xl
            <= els[i].bounds.x && els[i].bounds.right() <= xr)
}

/// A wider horizontal window keeps the edge claims; an empty window keeps
/// them because it admits no edge at all.
proof fn lemma_edges_widen(els: Seq<LayoutElement>, xl: int, xr: int, xl2: int, xr2: int)
    requires
        seg_edges_in(els, xl, xr),
        forall|i: int| 0 <= i < els.len() ==> out_el_wf(#[trigger] els[i]),
        touch_ok(xl, xr),
        xr >= 0 ==> xl2 <= xl && xr2 >= xr,
    ensures
        seg_edges_in(els, xl2, xr2),
{
    assert forall|i: int|
        0 <= i < els.len() implies ((#[trigger] els[i]).element_type is Edge ==> xl2
        <= els[i].bounds.x && els[i].bounds.right() <= xr2) by {
        if els[i].element_type is Edge && xr < 0 {
            assert(els[i].bounds.right() <= xr);
            assert(els[i].bounds.is_positive());
        }
    }
}

/// Pointwise segment facts: output-well-formed, neutral ids, and bounds
/// inside the vertical window `(y0, y1]`.
pub open spec fn seg_ok(els: Seq<LayoutElement>, y0: int, y1: int) -> bool {
    forall|i: int|
        0 <= i < els.len() ==> {
            let e = #[trigger] els[i];
            &&& out_el_wf(e)
            &&& neutral_id(e.id@)
            &&& y0 < e.bounds.y
            &&& e.bounds.bottom() <= y1
        }
}

proof fn lemma_seg_ok_wf(els: Seq<LayoutElement>, y0: int, y1: int)
    requires
        seg_ok(els, y0, y1),
    ensures
        forall|i: int| 0 <= i < els.len() ==> out_el_wf(#[trigger] els[i]),
{
}

proof fn lemma_seg_ok_widen(els: Seq<LayoutElement>, y0: int, y1: int, z0: int, z1: int)
    requires
        seg_ok(els, y0, y1),
        z0 <= y0,
        y1 <= z1,
    ensures
        seg_ok(els, z0, z1),
{
}

proof fn lemma_seg_ok_children(
    els: Seq<LayoutElement>,
    y0: int,
    y1: int,
    xl: int,
    xr: int,
    frame: Rect,
)
    requires
        seg_ok(els, y0, y1),
        seg_edges_in(els, xl, xr),
        frame.y <= y0,
        y1 < frame.bottom(),
        frame.x < xl,
        xr < frame.right(),
    ensures
        out_children_wf(els, frame),
    decreases els,
{
    if els.len() > 0 {
        assert(els[0] == els[0]);
        assert forall|i: int| 0 <= i < els.skip(1).len() implies {
            let e = #[trigger] els.skip(1)[i];
            &&& out_el_wf(e)
            &&& neutral_id(e.id@)
            &&& y0 < e.bounds.y
            &&& e.bounds.bottom() <= y1
            &&& (e.element_type is Edge ==> xl <= e.bounds.x && e.bounds.right() <= xr)
        } by {
            assert(els.skip(1)[i] == els[i + 1]);
        }
        lemma_seg_ok_children(els.skip(1), y0, y1, xl, xr, frame);
    }
}

/// Bound on the names collected from elements: at most two per size unit.
proof fn lemma_collect_len(acc: Seq<Seq<char>>, es: Seq<SequenceElement>)
    ensures
        acc.len() <= collect_els_names(acc, es).len() <= acc.len() + 2 * els_size(es),
    decreases es, 0int,
{
    lemma_els_size_nonneg(es);
    if es.len() > 0 {
        lemma_collect_el_len(acc, es[0]);
        lemma_collect_len(collect_el_names(acc, es[0]), es.skip(1));
        lemma_el_size_pos(es[0]);
    }
}

proof fn lemma_collect_el_len(acc: Seq<Seq<char>>, e: SequenceElement)
    ensures
        acc.len() <= collect_el_names(acc, e).len() <= acc.len() + 2 * el_size(e),
    decreases e, 1int,
{
    lemma_el_size_pos(e);
    match e {
        SequenceElement::Fragment(f) => {
            lemma_collect_sections_len(acc, f.sections@);
            lemma_sections_size_nonneg(f.sections@);
        },
        _ => {},
    }
}

proof fn lemma_collect_sections_len(acc: Seq<Seq<char>>, ss: Seq<crate::ast::FragmentSection>)
    ensures
        acc.len() <= collect_sections_names(acc, ss).len() <= acc.len() + 2 * sections_size(ss),
    decreases ss, 2int,
{
    lemma_sections_size_nonneg(ss);
    if ss.len() > 0 {
        lemma_collect_len(acc, ss[0].elements@);
        lemma_collect_sections_len(collect_els_names(acc, ss[0].elements@), ss.skip(1));
        lemma_els_size_nonneg(ss[0].elements@);
    }
}

proof fn lemma_decl_len(acc: Seq<Seq<char>>, ps: Seq<Participant>)
    ensures
        acc.len() <= decl_names(acc, ps).len() <= acc.len() + ps.len(),
    decreases ps,
{
    if ps.len() > 0 {
        lemma_decl_len(add_name(acc, ps[0].canonical_id()), ps.skip(1));
    }
}

/// The participant list of a well-formed diagram is bounded.
pub proof fn lemma_participants_bound(d: SequenceDiagram)
    requires
        seq_diagram_wf(d),
    ensures
        participants_of(d).len() <= 3 * MAX_ITEMS,
{
    lemma_decl_len(Seq::empty(), d.participants@);
    lemma_collect_len(decl_names(Seq::empty(), d.participants@), d.elements@);
}

/// Registers the participant names of one element, in order.
fn collect_el_x(
    e: &SequenceElement,
    m: &mut DiagramMetrics,
    displays: &mut Vec<String>,
    ptypes: &mut Vec<ParticipantType>,
)
    requires
        old(m).wf(),
        el_wf(*e),
        old(displays)@.len() == old(m).names.names().len(),
        old(ptypes)@.len() == old(m).names.names().len(),
        old(m).parts@.len() == 0,
        old(m).names.names().len() + 2 * el_size(*e) <= 3 * MAX_ITEMS,
        forall|k: int|
            0 <= k < old(displays)@.len() ==> (#[trigger] old(displays)@[k])@.len() <= MAX_TEXT,
    ensures
        final(m).wf(),
        final(m).names.names() == collect_el_names(old(m).names.names(), *e),
        final(m).parts@.len() == 0,
        final(displays)@.len() == final(m).names.names().len(),
        final(ptypes)@.len() == final(m).names.names().len(),
        forall|k: int|
            0 <= k < final(displays)@.len() ==> (#[trigger] final(displays)@[k])@.len()
                <= MAX_TEXT,
        final(m).current_y == old(m).current_y,
        final(m).max_x == old(m).max_x,
        final(m).last_message_y == old(m).last_message_y,
        final(m).opens@ == old(m).opens@,
        final(m).completed@ == old(m).completed@,
        final(m).calls@ == old(m).calls@,
        final(m).auto == old(m).auto,
        final(m).parts@ == old(m).parts@,
    decreases el_size(*e), 0int,
{
    proof {
        lemma_el_size_pos(*e);
    }
    match e {
        SequenceElement::Message(msg) => {
            register_name(&msg.from, m, displays, ptypes);
            proof {
                lemma_collect_el_len(old(m).names.names(), *e);
            }
            register_name(&msg.to, m, displays, ptypes);
        },
        SequenceElement::Fragment(f) => {
            proof {
                assert(f.sections@.skip(0) =~= f.sections@);
                lemma_sections_size_nonneg(f.sections@);
            }
            collect_sections_x(&f.sections, 0, m, displays, ptypes);
        },
        _ => {
        },
    }
}

fn collect_sections_x(
    ss: &Vec<crate::ast::FragmentSection>,
    i: usize,
    m: &mut DiagramMetrics,
    displays: &mut Vec<String>,
    ptypes: &mut Vec<ParticipantType>,
)
    requires
        old(m).wf(),
        i <= ss@.len(),
        sections_wf(ss@.skip(i as int)),
        old(displays)@.len() == old(m).names.names().len(),
        old(ptypes)@.len() == old(m).names.names().len(),
        old(m).parts@.len() == 0,
        old(m).names.names().len() + 2 * sections_size(ss@.skip(i as int)) <= 3 * MAX_ITEMS,
        forall|k: int|
            0 <= k < old(displays)@.len() ==> (#[trigger] old(displays)@[k])@.len() <= MAX_TEXT,
    ensures
        final(m).wf(),
        final(m).names.names() == collect_sections_names(
            old(m).names.names(),
            ss@.skip(i as int),
        ),
        final(m).parts@.len() == 0,
        final(displays)@.len() == final(m).names.names().len(),
        final(ptypes)@.len() == final(m).names.names().len(),
        forall|k: int|
            0 <= k < final(displays)@.len() ==> (#[trigger] final(displays)@[k])@.len()
                <= MAX_TEXT,
        final(m).current_y == old(m).current_y,
        final(m).max_x == old(m).max_x,
        final(m).last_message_y == old(m).last_message_y,
        final(m).opens@ == old(m).opens@,
        final(m).completed@ == old(m).completed@,
        final(m).calls@ == old(m).calls@,
        final(m).auto == old(m).auto,
        final(m).parts@ == old(m).parts@,
    decreases sections_size(ss@.skip(i as int)) + 1, 1int,
{
    proof {
        lemma_sections_size_nonneg(ss@.skip(i as int));
    }
    if i == ss.len() {
        proof {
            assert(ss@.skip(i as int) =~= Seq::<crate::ast::FragmentSection>::empty());
        }
        return ;
    }
    proof {
        assert(ss@.skip(i as int)[0] == ss@[i as int]);
        assert(ss@.skip(i as int).skip(1) =~= ss@.skip(i + 1));
        lemma_sections_size_split(ss@.skip(i as int), 0);
        assert(ss@.skip(i as int).skip(1int) =~= ss@.skip(i + 1));
        lemma_els_size_nonneg(ss@[i as int].elements@);
        lemma_sections_size_nonneg(ss@.skip(i + 1));
        assert(ss@[i as int].elements@.skip(0) =~= ss@[i as int].elements@);
        lemma_collect_len(old(m).names.names(), ss@[i as int].elements@);
        assert(sections_wf(ss@.skip(i as int)) == (section_wf(ss@.skip(i as int)[0])
            && sections_wf(ss@.skip(i as int).skip(1))));
        assert(section_wf(ss@[i as int]) == (crate::ast::opt_text_wf(ss@[i as int].condition)
            && els_wf(ss@[i as int].elements@)));
    }
    collect_els_x(&ss[i].elements, 0, m, displays, ptypes);
    collect_sections_x(ss, i + 1, m, displays, ptypes);
}

fn collect_els_x(
    es: &Vec<SequenceElement>,
    i: usize,
    m: &mut DiagramMetrics,
    displays: &mut Vec<String>,
    ptypes: &mut Vec<ParticipantType>,
)
    requires
        old(m).wf(),
        i <= es@.len(),
        els_wf(es@.skip(i as int)),
        old(displays)@.len() == old(m).names.names().len(),
        old(ptypes)@.len() == old(m).names.names().len(),
        old(m).parts@.len() == 0,
        old(m).names.names().len() + 2 * els_size(es@.skip(i as int)) <= 3 * MAX_ITEMS,
        forall|k: int|
            0 <= k < old(displays)@.len() ==> (#[trigger] old(displays)@[k])@.len() <= MAX_TEXT,
    ensures
        final(m).wf(),
        final(m).names.names() == collect_els_names(old(m).names.names(), es@.skip(i as int)),
        final(m).parts@.len() == 0,
        final(displays)@.len() == final(m).names.names().len(),
        final(ptypes)@.len() == final(m).names.names().len(),
        forall|k: int|
            0 <= k < final(displays)@.len() ==> (#[trigger] final(displays)@[k])@.len()
                <= MAX_TEXT,
        final(m).current_y == old(m).current_y,
        final(m).max_x == old(m).max_x,
        final(m).last_message_y == old(m).last_message_y,
        final(m).opens@ == old(m).opens@,
        final(m).completed@ == old(m).completed@,
        final(m).calls@ == old(m).calls@,
        final(m).auto == old(m).auto,
        final(m).parts@ == old(m).parts@,
    decreases els_size(es@.skip(i as int)), 1int,
{
    proof {
        lemma_els_size_nonneg(es@.skip(i as int));
    }
    if i == es.len() {
        proof {
            assert(es@.skip(i as int) =~= Seq::<SequenceElement>::empty());
        }
        return ;
    }
    proof {
        assert(es@.skip(i as int)[0] == es@[i as int]);
        assert(es@.skip(i as int).skip(1) =~= es@.skip(i + 1));
        lemma_els_size_split(es@.skip(i as int), 0);
        assert(es@.skip(i as int).skip(1int) =~= es@.skip(i + 1));
        lemma_el_size_pos(es@[i as int]);
        lemma_els_size_nonneg(es@.skip(i + 1));
        lemma_collect_el_len(old(m).names.names(), es@[i as int]);
    }
    collect_el_x(&es[i], m, displays, ptypes);
    collect_els_x(es, i + 1, m, displays, ptypes);
}

/// Registers one name if it is new, mirroring [`add_name`].
fn register_name(
    name: &String,
    m: &mut DiagramMetrics,
    displays: &mut Vec<String>,
    ptypes: &mut Vec<ParticipantType>,
)
    requires
        old(m).wf(),
        name@.len() <= MAX_TEXT,
        old(displays)@.len() == old(m).names.names().len(),
        old(ptypes)@.len() == old(m).names.names().len(),
        old(m).parts@.len() == 0,
        old(m).names.names().len() + 1 <= 3 * MAX_ITEMS,
        forall|k: int|
            0 <= k < old(displays)@.len() ==> (#[trigger] old(displays)@[k])@.len() <= MAX_TEXT,
    ensures
        final(m).wf(),
        final(m).names.names() == add_name(old(m).names.names(), name@),
        final(m).parts@.len() == 0,
        final(displays)@.len() == final(m).names.names().len(),
        final(ptypes)@.len() == final(m).names.names().len(),
        forall|k: int|
            0 <= k < final(displays)@.len() ==> (#[trigger] final(displays)@[k])@.len()
                <= MAX_TEXT,
        final(m).current_y == old(m).current_y,
        final(m).max_x == old(m).max_x,
        final(m).last_message_y == old(m).last_message_y,
        final(m).opens@ == old(m).opens@,
        final(m).completed@ == old(m).completed@,
        final(m).calls@ == old(m).calls@,
        final(m).auto == old(m).auto,
        final(m).parts@ == old(m).parts@,
{
    let had = match m.names.lookup(name.as_str()) {
        Some(_) => true,
        None => false,
    };
    let _ = m.names.get_or_insert(name.as_str());
    if !had {
        displays.push(name.clone());
        ptypes.push(ParticipantType::Participant);
    }
}

/// Registers all participant names of the diagram in first-appearance
/// order: declared participants, then message endpoints.
fn collect_names(
    d: &SequenceDiagram,
    m: &mut DiagramMetrics,
    displays: &mut Vec<String>,
    ptypes: &mut Vec<ParticipantType>,
)
    requires
        old(m).wf(),
        seq_diagram_wf(*d),
        old(m).names.names().len() == 0,
        old(displays)@.len() == 0,
        old(ptypes)@.len() == 0,
        old(m).parts@.len() == 0,
    ensures
        final(m).wf(),
        final(m).names.names() == participants_of(*d),
        final(m).parts@.len() == 0,
        final(displays)@.len() == participants_of(*d).len(),
        final(ptypes)@.len() == participants_of(*d).len(),
        forall|k: int|
            0 <= k < final(displays)@.len() ==> (#[trigger] final(displays)@[k])@.len()
                <= MAX_TEXT,
        final(m).current_y == old(m).current_y,
        final(m).max_x == old(m).max_x,
        final(m).opens@ == old(m).opens@,
        final(m).completed@ == old(m).completed@,
        final(m).calls@ == old(m).calls@,
        final(m).auto == old(m).auto,
    decreases 0int,
{
    let np = d.participants.len();
    let ghost ps = d.participants@;
    let mut i: usize = 0;
    while i < np
        invariant
            i <= np,
            np == ps.len(),
            ps == d.participants@,
            seq_diagram_wf(*d),
            m.wf(),
            m.parts@.len() == 0,
            m.names.names() == decl_names(Seq::empty(), ps.take(i as int)),
            displays@.len() == m.names.names().len(),
            ptypes@.len() == m.names.names().len(),
            forall|k: int|
                0 <= k < displays@.len() ==> (#[trigger] displays@[k])@.len() <= MAX_TEXT,
            m.current_y == old(m).current_y,
            m.max_x == old(m).max_x,
            m.opens@ == old(m).opens@,
            m.completed@ == old(m).completed@,
            m.calls@ == old(m).calls@,
            m.auto == old(m).auto,
        decreases np - i,
    {
        proof {
            lemma_decl_len(Seq::empty(), ps.take(i as int));
            assert(crate::ast::participant_wf(ps[i as int]));
            lemma_decl_take(ps, i as int);
        }
        let p = &d.participants[i];
        let canon: &String = match &p.id.alias {
            Some(a) => a,
            None => &p.id.name,
        };
        let had = match m.names.lookup(canon.as_str()) {
            Some(_) => true,
            None => false,
        };
        let _ = m.names.get_or_insert(canon.as_str());
        if !had {
            displays.push(p.id.name.clone());
            ptypes.push(p.participant_type);
        }
        i = i + 1;
    }
    proof {
        assert(ps.take(np as int) =~= ps);
        assert(d.elements@.skip(0) =~= d.elements@);
        lemma_decl_len(Seq::empty(), ps);
        lemma_collect_len(m.names.names(), d.elements@);
    }
    collect_els_x(&d.elements, 0, m, displays, ptypes);
}

/// Pointwise facts of a rendered fragment section list, prior to framing.
pub open spec fn sec_ok(s: FragmentSection, y0: int, y1: int, xl: int, xr: int) -> bool {
    &&& y0 <= s.start_y <= s.end_y
    &&& s.end_y <= y1
    &&& seg_ok(s.children@, s.start_y - 6, s.end_y as int)
    &&& seg_edges_in(s.children@, xl, xr)
}

pub open spec fn secs_ok(ss: Seq<FragmentSection>, y0: int, y1: int, xl: int, xr: int) -> bool {
    forall|i: int| 0 <= i < ss.len() ==> sec_ok(#[trigger] ss[i], y0, y1, xl, xr)
}

proof fn lemma_secs_frame(ss: Seq<FragmentSection>, y0: int, y1: int, xl: int, xr: int, frame: Rect)
    requires
        secs_ok(ss, y0, y1, xl, xr),
        frame.y <= y0 - 6,
        y1 < frame.bottom(),
        frame.x < xl,
        xr < frame.right(),
    ensures
        out_sections_wf(ss, frame),
    decreases ss,
{
    if ss.len() > 0 {
        assert(sec_ok(ss[0], y0, y1, xl, xr));
        lemma_seg_ok_children(
            ss[0].children@,
            ss[0].start_y - 6,
            ss[0].end_y as int,
            xl,
            xr,
            frame,
        );
        assert forall|i: int| 0 <= i < ss.skip(1).len() implies sec_ok(
            #[trigger] ss.skip(1)[i],
            y0,
            y1,
            xl,
            xr,
        ) by {
            assert(ss.skip(1)[i] == ss[i + 1]);
        }
        lemma_secs_frame(ss.skip(1), y0, y1, xl, xr, frame);
    }
}

/// Appends one neutral, well-formed element within the window.
fn push_out(
    out: &mut Vec<LayoutElement>,
    e: LayoutElement,
    Ghost(base): Ghost<int>,
    Ghost(y0): Ghost<int>,
    Ghost(y1): Ghost<int>,
)
    requires
        out_el_wf(e),
        neutral_id(e.id@),
        y0 < e.bounds.y,
        e.bounds.bottom() <= y1,
        0 <= base <= old(out)@.len(),
        seg_ok(old(out)@.skip(base), y0, y1),
    ensures
        final(out)@ == old(out)@.push(e),
        seg_ok(final(out)@.skip(base), y0, y1),
        final(out)@.take(base) == old(out)@.take(base),
{
    out.push(e);
    proof {
        assert(final(out)@.skip(base) =~= old(out)@.skip(base).push(e));
        assert(final(out)@.take(base) =~= old(out)@.take(base));
        let seg = final(out)@.skip(base);
        assert forall|i: int| 0 <= i < seg.len() implies {
            let el = #[trigger] seg[i];
            &&& out_el_wf(el)
            &&& neutral_id(el.id@)
            &&& y0 < el.bounds.y
            &&& el.bounds.bottom() <= y1
        } by {
            if i < seg.len() - 1 {
                assert(seg[i] == old(out)@.skip(base)[i]);
            } else {
                assert(seg[i] == e);
            }
        }
    }
}

/// An id beginning with a lower-case marker other than `participant_`,
/// `footer_` or `lifeline_` is neutral.
proof fn lemma_neutral_pref(id: Seq<char>)
    requires
        id.len() >= 1,
        id[0] == 'm' || id[0] == 'n' || id[0] == 'd' || id[0] == 'a' || id[0] == 'b' || id[0]
            == 'r' || (id.len() >= 2 && id[0] == 'f' && id[1] == 'r'),
    ensures
        neutral_id(id),
{
    reveal_strlit("participant_");
    reveal_strlit("footer_");
    reveal_strlit("lifeline_");
    if is_pref(id, "participant_"@) {
        assert(id.take("participant_"@.len() as int)[0] == id[0]);
    }
    if is_pref(id, "footer_"@) {
        assert(id.take("footer_"@.len() as int)[0] == id[0]);
        if id.len() >= 2 {
            assert(id.take("footer_"@.len() as int)[1] == id[1]);
        }
    }
    if is_pref(id, "lifeline_"@) {
        assert(id.take("lifeline_"@.len() as int)[0] == id[0]);
    }
}

/// A fresh ordinal id: marker text, the count, and an underscore.
fn ordinal_id(marker: &str, counter: &mut u64) -> (r: String)
    ensures
        r@ == marker@ + dec_seq(*old(counter) as int),
        *final(counter) == if *old(counter) < 0xffff_ffff_ffff_ffff {
            (*old(counter) + 1) as u64
        } else {
            *old(counter)
        },
{
    let mut s = String::new();
    s.append(marker);
    let digits = u64_to_dec(*counter);
    s.append(digits.as_str());
    if *counter < 0xffff_ffff_ffff_ffff {
        *counter = *counter + 1;
    }
    proof {
        assert(s@ =~= marker@ + dec_seq(*old(counter) as int));
    }
    s
}

proof fn lemma_decl_take(ps: Seq<Participant>, i: int)
    requires
        0 <= i < ps.len(),
    ensures
        decl_names(Seq::empty(), ps.take(i + 1)) == add_name(
            decl_names(Seq::empty(), ps.take(i)),
            ps[i].canonical_id(),
        ),
{
    lemma_decl_snoc(Seq::empty(), ps.take(i + 1));
    assert(ps.take(i + 1).drop_last() =~= ps.take(i));
    assert(ps.take(i + 1).last() == ps[i]);
}

/// The touched-participant extent is either empty (`tr < 0`) or a valid
/// x-range.
pub open spec fn touch_ok(tl: int, tr: int) -> bool {
    &&& tr >= 0 ==> 0 <= tl <= tr <= X_LIM + 0x100_0000
    &&& tr < 0 ==> tl == X_LIM
}


/// The slot first registered under an id, or `-1`.
pub open spec fn slot_of(names: Seq<Seq<char>>, id: Seq<char>) -> int
    decreases names,
{
    if names.len() == 0 {
        -1
    } else if names[0] == id {
        0
    } else {
        let r = slot_of(names.skip(1), id);
        if r < 0 {
            -1
        } else {
            1 + r
        }
    }
}

pub proof fn lemma_slot_of(names: Seq<Seq<char>>, id: Seq<char>)
    ensures
        slot_of(names, id) >= 0 <==> names.contains(id),
        slot_of(names, id) >= 0 ==> slot_of(names, id) < names.len() && names[slot_of(names, id)]
            == id,
    decreases names,
{
    if names.len() > 0 && names[0] != id {
        lemma_slot_of(names.skip(1), id);
        if names.contains(id) {
            let w = choose|w: int| 0 <= w < names.len() && names[w] == id;
            assert(names.skip(1)[w - 1] == names[w]);
        }
        if slot_of(names.skip(1), id) >= 0 {
            assert(names.contains(id)) by {
                assert(names[1 + slot_of(names.skip(1), id)] == names.skip(1)[slot_of(
                    names.skip(1),
                    id,
                )]);
            }
        }
    }
}

/// Any index holding the id is the slot, since registered names are distinct.
pub proof fn lemma_slot_of_unique(names: Seq<Seq<char>>, id: Seq<char>, i: int)
    requires
        forall|p: int, q: int|
            0 <= p < names.len() && 0 <= q < names.len() && p != q ==> names[p] != names[q],
        0 <= i < names.len(),
        names[i] == id,
    ensures
        slot_of(names, id) == i,
{
    lemma_slot_of(names, id);
    assert(names.contains(id));
    if slot_of(names, id) != i {
        assert(names[slot_of(names, id)] == names[i]);
    }
}

/// Extra label lines: embedded newlines plus literal backslash-n digraphs.
pub open spec fn count_breaks(s: Seq<char>, i: int) -> int
    decreases s.len() - i,
{
    if i < 0 || i >= s.len() {
        0
    } else {
        count_breaks(s, i + 1) + if s[i] == '\n' {
            1int
        } else if s[i] == '\\' && i + 1 < s.len() && s[i + 1] == 'n' {
            1int
        } else {
            0int
        }
    }
}

proof fn lemma_count_breaks_bound(s: Seq<char>, i: int)
    requires
        0 <= i <= s.len(),
    ensures
        0 <= count_breaks(s, i) <= s.len() - i,
    decreases s.len() - i,
{
    if i < s.len() {
        lemma_count_breaks_bound(s, i + 1);
    }
}

/// The arrow y of a message laid out at cursor `cur`: multi-line labels
/// reserve their extra lines above the arrow.
pub open spec fn message_arrow_y(cfg: SequenceLayoutConfig, cur: int, label: Seq<char>) -> int {
    cur + count_breaks(label, 0) * cfg.line_height
}

/// What a message's rendered edge looks like: the polyline (a four-point
/// loop for a self-message, two horizontal points otherwise), the arrow and
/// line style, the label iff non-empty, and the autonumber annotation iff
/// the machine was enabled.
pub open spec fn message_edge_desc(
    el: LayoutElement,
    msg: Message,
    cfg: SequenceLayoutConfig,
    fx: int,
    tx: int,
    y: int,
    auto_text: Option<Seq<char>>,
) -> bool {
    &&& match el.element_type {
        ElementType::Edge {
            points,
            label,
            arrow_start,
            arrow_end,
            dashed,
            edge_type,
            from_cardinality,
            to_cardinality,
        } => {
            &&& arrow_end
            &&& !arrow_start
            &&& edge_type == EdgeType::Association
            &&& from_cardinality is None
            &&& to_cardinality is None
            &&& dashed == !(msg.line_style is Solid)
            &&& match label {
                Some(l) => l@ == msg.label@ && msg.label@.len() > 0,
                None => msg.label@.len() == 0,
            }
            &&& if fx == tx {
                points@ =~= seq![
                    Point { x: fx as i64, y: y as i64 },
                    Point { x: (fx + 42) as i64, y: y as i64 },
                    Point { x: (fx + 42) as i64, y: (y + 13) as i64 },
                    Point { x: fx as i64, y: (y + 13) as i64 },
                ]
            } else {
                points@ =~= seq![
                    Point { x: fx as i64, y: y as i64 },
                    Point { x: tx as i64, y: y as i64 },
                ]
            }
        },
        _ => false,
    }
    &&& if fx == tx {
        el.bounds == (Rect {
            x: fx as i64,
            y: (y - 5) as i64,
            width: spec_imax(42, cfg.spec_label_width(msg.label@)) as i64,
            height: 23,
        })
    } else {
        el.bounds == (Rect {
            x: spec_imin(fx, tx) as i64,
            y: (y - 1) as i64,
            width: spec_imax(if fx < tx {
                tx - fx
            } else {
                fx - tx
            }, 1) as i64,
            height: 2,
        })
    }
    &&& el.properties.lookup("autonumber"@) == auto_text
}

/// The activation bookkeeping a message performs: `++` opens an activation
/// on the target at the arrow y and records the call; a leading `--` closes
/// the source's innermost activation.
pub open spec fn message_metrics_desc(
    m0: DiagramMetrics,
    m1: DiagramMetrics,
    msg: Message,
    cfg: SequenceLayoutConfig,
    fs: int,
    ts: int,
    y: int,
) -> bool {
    let o1 = if msg.activate {
        m0.opens@.push(
            OpenActivation {
                slot: ts as usize,
                level: spec_imin(crate::seq_metrics::count_open(m0.opens@, ts) + 1, 65536) as i64,
                start_y: y as i64,
            },
        )
    } else {
        m0.opens@
    };
    let li = crate::seq_metrics::last_open_index(o1, fs);
    &&& m1.names == m0.names
    &&& m1.parts@ == m0.parts@
    &&& m1.max_x == m0.max_x
    &&& m1.last_message_y == y
    &&& m1.current_y == y + if m0.parts@[fs].center_x == m0.parts@[ts].center_x {
        30int
    } else {
        cfg.message_spacing as int
    }
    &&& m1.calls@ == if msg.activate {
        m0.calls@.push((fs as usize, ts as usize))
    } else {
        m0.calls@
    }
    &&& m1.opens@ == if msg.deactivate && li >= 0 {
        o1.remove(li)
    } else {
        o1
    }
    &&& m1.completed@ == if msg.deactivate && li >= 0 {
        m0.completed@.push(
            CompletedActivation {
                slot: fs as usize,
                level: o1[li].level,
                start_y: o1[li].start_y,
                end_y: y as i64,
            },
        )
    } else {
        m0.completed@
    }
    &&& m1.auto.enabled == m0.auto.enabled
    &&& m1.auto.step == m0.auto.step
    &&& m1.auto.format == m0.auto.format
    &&& m1.auto.current == if m0.auto.enabled {
        spec_imin(m0.auto.current + m0.auto.step, crate::seq_metrics::AUTO_CAP as int) as u64
    } else {
        m0.auto.current
    }
}

/// Common evolution facts of one flow step over the metrics.
pub open spec fn flow_evolves(pre: DiagramMetrics, post: DiagramMetrics, budget: int) -> bool {
    &&& post.wf()
    &&& post.parts@ == pre.parts@
    &&& post.names == pre.names
    &&& post.max_x == pre.max_x
    &&& pre.current_y <= post.current_y <= pre.current_y + budget
}

/// Lays out one message arrow and advances the cursor: an edge is produced
/// exactly when both endpoints are registered participants, with the stated
/// polyline, style, label, autonumber annotation and activation bookkeeping.
#[verifier::rlimit(100)]
fn emit_message(
    cfg: &SequenceLayoutConfig,
    msg: &Message,
    m: &mut DiagramMetrics,
    counter: &mut u64,
    tl: &mut i64,
    tr: &mut i64,
) -> (r: Option<LayoutElement>)
    requires
        old(m).wf(),
        cfg.wf(),
        crate::ast::message_wf(*msg),
        old(m).parts@.len() == old(m).names.names().len(),
        old(m).current_y + Y_STEP <= Y_LIM,
        touch_ok(*old(tl) as int, *old(tr) as int),
        -1 <= *old(tr),
    ensures
        flow_evolves(*old(m), *final(m), Y_STEP as int),
        final(m).parts@.len() == final(m).names.names().len(),
        touch_ok(*final(tl) as int, *final(tr) as int),
        -1 <= *final(tr),
        *final(tl) <= *old(tl) || *old(tr) < 0,
        *final(tr) >= *old(tr),
        ({
            let names = old(m).names.names();
            let fs = slot_of(names, msg.from@);
            let ts = slot_of(names, msg.to@);
            &&& (r is Some <==> fs >= 0 && ts >= 0)
            &&& (r is None ==> *final(m) == *old(m) && *final(tl) == *old(tl) && *final(tr)
                == *old(tr))
            &&& match r {
                Some(el) => {
                    let fx = old(m).parts@[fs].center_x as int;
                    let tx = old(m).parts@[ts].center_x as int;
                    let y = message_arrow_y(*cfg, old(m).current_y as int, msg.label@);
                    &&& out_el_wf(el)
                    &&& neutral_id(el.id@)
                    &&& old(m).current_y - 6 < el.bounds.y
                    &&& el.bounds.bottom() <= final(m).current_y
                    &&& message_edge_desc(
                        el,
                        *msg,
                        *cfg,
                        fx,
                        tx,
                        y,
                        if old(m).auto.enabled {
                            Some(
                                crate::seq_metrics::autonumber_text(
                                    old(m).auto.current as int,
                                    match old(m).auto.format {
                                        Some(f) => Some(f@),
                                        None => None,
                                    },
                                ),
                            )
                        } else {
                            None
                        },
                    )
                    &&& message_metrics_desc(*old(m), *final(m), *msg, *cfg, fs, ts, y)
                    &&& *final(tr) >= 0 && *final(tl) <= el.bounds.x && el.bounds.right()
                        <= *final(tr)
                },
                None => true,
            }
        }),
{
    let ghost names = old(m).names.names();
    let from_slot = match m.names.lookup(msg.from.as_str()) {
        Some(s) => s,
        None => {
            proof {
                lemma_slot_of(names, msg.from@);
            }
            return None;
        },
    };
    let to_slot = match m.names.lookup(msg.to.as_str()) {
        Some(s) => s,
        None => {
            proof {
                lemma_slot_of(names, msg.to@);
            }
            return None;
        },
    };
    proof {
        assert forall|p: int, q: int|
            0 <= p < names.len() && 0 <= q < names.len() && p != q implies names[p] != names[q] by {
            old(m).names.lemma_names_distinct(p, q);
        }
        lemma_slot_of_unique(names, msg.from@, from_slot as int);
        lemma_slot_of_unique(names, msg.to@, to_slot as int);
    }
    let lc = line_breaks(&msg.label);
    let dy = mul_nn(lc as i64, cfg.line_height, Ghost(4096), Ghost(4096));
    m.advance_y(dy);
    let y = m.current_y;
    m.last_message_y = y;
    if msg.activate {
        m.activate_at(to_slot, y);
        m.calls.push((from_slot, to_slot));
    }
    if msg.deactivate {
        m.deactivate(from_slot);
    }
    let mut props = Props::new();
    let ghost auto0 = old(m).auto;
    if m.auto.enabled {
        let num = m.auto_next();
        props.insert(String::from_str("autonumber"), num);
        proof {
            assert(props.entries@.len() == 1);
            assert(props.entries@.skip(1) =~= Seq::<(String, String)>::empty());
        }
    }
    let fx = m.lifeline_x(from_slot);
    let tx = m.lifeline_x(to_slot);
    let fp = &m.parts[from_slot];
    let tp = &m.parts[to_slot];
    let new_tl = imin(if *tr < 0 {
        X_LIM
    } else {
        *tl
    }, imin(fp.x, tp.x));
    let lw = cfg.message_label_width(msg.label.as_str());
    let self_extent = fx + imax(42, lw);
    let new_tr = imax(imax(if *tr < 0 {
        0
    } else {
        *tr
    }, imax(fp.x + fp.width, tp.x + tp.width)), if fx == tx {
        self_extent
    } else {
        0
    });
    *tl = new_tl;
    *tr = new_tr;
    let dashed = match msg.line_style {
        LineStyle::Dashed => true,
        LineStyle::Dotted => true,
        LineStyle::Solid => false,
    };
    let id = ordinal_id("msg_", counter);
    proof {
        reveal_strlit("msg_");
        crate::numfmt::lemma_dec_seq_digits(*old(counter) as int);
        assert(id@[0] == 'm');
        lemma_neutral_pref(id@);
    }
    let label_opt: Option<String> = if msg.label.as_str().unicode_len() == 0 {
        None
    } else {
        Some(msg.label.clone())
    };
    let el: LayoutElement;
    if fx == tx {
        let mut points: Vec<Point> = Vec::new();
        points.push(Point::new(fx, y));
        points.push(Point::new(fx + 42, y));
        points.push(Point::new(fx + 42, y + 13));
        points.push(Point::new(fx, y + 13));
        el = LayoutElement {
            id,
            bounds: Rect::new(fx, y - 5, imax(42, lw), 23),
            text: None,
            properties: props,
            element_type: ElementType::Edge {
                points,
                label: label_opt,
                arrow_start: false,
                arrow_end: true,
                dashed,
                edge_type: EdgeType::Association,
                from_cardinality: None,
                to_cardinality: None,
            },
        };
        m.advance_y(30);
    } else {
        let mut points: Vec<Point> = Vec::new();
        points.push(Point::new(fx, y));
        points.push(Point::new(tx, y));
        el = LayoutElement {
            id,
            bounds: Rect::new(imin(fx, tx), y - 1, imax(if fx < tx {
                tx - fx
            } else {
                fx - tx
            }, 1), 2),
            text: None,
            properties: props,
            element_type: ElementType::Edge {
                points,
                label: label_opt,
                arrow_start: false,
                arrow_end: true,
                dashed,
                edge_type: EdgeType::Association,
                from_cardinality: None,
                to_cardinality: None,
            },
        };
        m.advance_y(cfg.message_spacing);
    }
    proof {
        let names0 = old(m).names.names();
        let fs = slot_of(names0, msg.from@);
        let ts = slot_of(names0, msg.to@);
        let yy = message_arrow_y(*cfg, old(m).current_y as int, msg.label@);
        assert(yy == y as int);
        match el.element_type {
            ElementType::Edge { ref points, .. } => {
                if fx == tx {
                    assert(points@ =~= seq![
                        Point { x: fx, y: y },
                        Point { x: (fx + 42) as i64, y: y },
                        Point { x: (fx + 42) as i64, y: (y + 13) as i64 },
                        Point { x: fx, y: (y + 13) as i64 },
                    ]);
                } else {
                    assert(points@ =~= seq![Point { x: fx, y: y }, Point { x: tx, y: y }]);
                }
            },
            _ => {
                assert(false);
            },
        }
        if auto0.enabled {
            assert(el.properties.entries@.len() == 1);
            assert(el.properties.lookup("autonumber"@) == Some(
                crate::seq_metrics::autonumber_text(
                    auto0.current as int,
                    match auto0.format {
                        Some(f) => Some(f@),
                        None => None,
                    },
                ),
            ));
        } else {
            assert(el.properties.entries@.len() == 0);
        }
        let o1 = if msg.activate {
            old(m).opens@.push(
                OpenActivation {
                    slot: ts as usize,
                    level: spec_imin(count_open(old(m).opens@, ts) + 1, 65536) as i64,
                    start_y: yy as i64,
                },
            )
        } else {
            old(m).opens@
        };
        let li = last_open_index(o1, fs);
        assert(m.names == old(m).names);
        assert(m.parts@ == old(m).parts@);
        assert(m.max_x == old(m).max_x);
        assert(m.last_message_y == yy);
        assert(m.current_y == yy + if old(m).parts@[fs].center_x == old(m).parts@[ts].center_x {
            30int
        } else {
            cfg.message_spacing as int
        });
        assert(m.calls@ == if msg.activate {
            old(m).calls@.push((fs as usize, ts as usize))
        } else {
            old(m).calls@
        });
        assert(m.opens@ == if msg.deactivate && li >= 0 {
            o1.remove(li)
        } else {
            o1
        });
        assert(m.completed@ == if msg.deactivate && li >= 0 {
            old(m).completed@.push(
                CompletedActivation {
                    slot: fs as usize,
                    level: o1[li].level,
                    start_y: o1[li].start_y,
                    end_y: yy as i64,
                },
            )
        } else {
            old(m).completed@
        });
        assert(m.auto.enabled == old(m).auto.enabled);
        assert(m.auto.current == if old(m).auto.enabled {
            spec_imin(old(m).auto.current + old(m).auto.step, AUTO_CAP as int) as u64
        } else {
            old(m).auto.current
        });
        assert(message_metrics_desc(*old(m), *m, *msg, *cfg, fs, ts, yy));
    }
    Some(el)
}

/// The number of extra label lines: embedded newlines plus literal
/// backslash-n digraphs.
fn line_breaks(label: &String) -> (r: usize)
    requires
        label@.len() <= MAX_TEXT,
    ensures
        r as int == count_breaks(label@, 0),
        r <= MAX_TEXT,
{
    let cs = crate::scan::str_chars(label.as_str());
    let n = cs.len();
    proof {
        lemma_count_breaks_bound(cs@, 0);
    }
    let mut count: usize = 0;
    let mut i: usize = 0;
    while i < n
        invariant
            i <= n,
            n == cs@.len(),
            n <= MAX_TEXT,
            count <= i,
            cs@ == label@,
            count + count_breaks(cs@, i as int) == count_breaks(cs@, 0),
        decreases n - i,
    {
        proof {
            lemma_count_breaks_bound(cs@, i + 1);
        }
        if cs[i] == '\n' {
            count = count + 1;
        } else if cs[i] == '\\' && i + 1 < n && cs[i + 1] == 'n' {
            count = count + 1;
        }
        i = i + 1;
    }
    count
}

/// Lays out a `return` arrow/// What a `return` arrow looks like: a dashed two-point edge from the
/// callee's lifeline back to the caller's, with the optional label.
pub open spec fn return_edge_desc(
    el: LayoutElement,
    label: Option<Seq<char>>,
    fx: int,
    tx: int,
    y: int,
) -> bool {
    &&& match el.element_type {
        ElementType::Edge {
            points,
            label: lab,
            arrow_start,
            arrow_end,
            dashed,
            edge_type,
            from_cardinality,
            to_cardinality,
        } => {
            &&& arrow_end
            &&& !arrow_start
            &&& dashed
            &&& edge_type == EdgeType::Association
            &&& from_cardinality is None
            &&& to_cardinality is None
            &&& match lab {
                Some(l) => label == Some(l@),
                None => label is None,
            }
            &&& points@ =~= seq![
                Point { x: fx as i64, y: y as i64 },
                Point { x: tx as i64, y: y as i64 },
            ]
        },
        _ => false,
    }
    &&& el.bounds == (Rect {
        x: spec_imin(fx, tx) as i64,
        y: (y - 1) as i64,
        width: spec_imax(if fx < tx {
            tx - fx
        } else {
            fx - tx
        }, 1) as i64,
        height: 2,
    })
}

/// Resolves a `return`: pops the innermost pending call, closes the callee's
/// activation at the arrow y, and draws a dashed edge back to the caller
/// (unless the two lifelines coincide).
#[verifier::rlimit(100)]
fn emit_return(
    cfg: &SequenceLayoutConfig,
    label: &Option<String>,
    m: &mut DiagramMetrics,
    counter: &mut u64,
    tl: &mut i64,
    tr: &mut i64,
) -> (r: Option<LayoutElement>)
    requires
        old(m).wf(),
        cfg.wf(),
        crate::ast::opt_text_wf(*label),
        old(m).parts@.len() == old(m).names.names().len(),
        old(m).current_y + Y_STEP <= Y_LIM,
        touch_ok(*old(tl) as int, *old(tr) as int),
        -1 <= *old(tr),
    ensures
        flow_evolves(*old(m), *final(m), Y_STEP as int),
        final(m).parts@.len() == final(m).names.names().len(),
        touch_ok(*final(tl) as int, *final(tr) as int),
        -1 <= *final(tr),
        *final(tl) <= *old(tl) || *old(tr) < 0,
        *final(tr) >= *old(tr),
        old(m).calls@.len() == 0 ==> r is None && *final(m) == *old(m) && *final(tl) == *old(tl)
            && *final(tr) == *old(tr),
        old(m).calls@.len() > 0 ==> ({
            let caller = old(m).calls@.last().0 as int;
            let callee = old(m).calls@.last().1 as int;
            let fx = old(m).parts@[callee].center_x as int;
            let tx = old(m).parts@[caller].center_x as int;
            let y = old(m).current_y as int;
            let li = last_open_index(old(m).opens@, callee);
            &&& final(m).calls@ == old(m).calls@.drop_last()
            &&& final(m).names == old(m).names
            &&& final(m).parts@ == old(m).parts@
            &&& final(m).max_x == old(m).max_x
            &&& final(m).auto == old(m).auto
            &&& final(m).last_message_y == y
            &&& final(m).current_y == y + cfg.message_spacing
            &&& final(m).opens@ == if li >= 0 {
                old(m).opens@.remove(li)
            } else {
                old(m).opens@
            }
            &&& final(m).completed@ == if li >= 0 {
                old(m).completed@.push(
                    CompletedActivation {
                        slot: callee as usize,
                        level: old(m).opens@[li].level,
                        start_y: old(m).opens@[li].start_y,
                        end_y: y as i64,
                    },
                )
            } else {
                old(m).completed@
            }
            &&& (r is Some <==> fx != tx)
            &&& match r {
                Some(el) => {
                    &&& out_el_wf(el)
                    &&& neutral_id(el.id@)
                    &&& old(m).current_y - 6 < el.bounds.y
                    &&& el.bounds.bottom() <= final(m).current_y
                    &&& return_edge_desc(
                        el,
                        match label {
                            Some(l) => Some(l@),
                            None => None,
                        },
                        fx,
                        tx,
                        y,
                    )
                    &&& *final(tr) >= 0 && *final(tl) <= el.bounds.x && el.bounds.right()
                        <= *final(tr)
                },
                None => true,
            }
        }),
{
    if m.calls.len() == 0 {
        return None;
    }
    let pair = m.calls.pop().unwrap();
    let caller = pair.0;
    let callee = pair.1;
    let y = m.current_y;
    m.last_message_y = y;
    m.deactivate(callee);
    let fx = m.lifeline_x(callee);
    let tx = m.lifeline_x(caller);
    let fp = &m.parts[callee];
    let tp = &m.parts[caller];
    let new_tl = imin(if *tr < 0 {
        X_LIM
    } else {
        *tl
    }, imin(fp.x, tp.x));
    let new_tr = imax(if *tr < 0 {
        0
    } else {
        *tr
    }, imax(fp.x + fp.width, tp.x + tp.width));
    *tl = new_tl;
    *tr = new_tr;
    if fx == tx {
        m.advance_y(cfg.message_spacing);
        return None;
    }
    let mut points: Vec<Point> = Vec::new();
    points.push(Point::new(fx, y));
    points.push(Point::new(tx, y));
    let id = ordinal_id("return_", counter);
    proof {
        reveal_strlit("return_");
        assert(id@[0] == 'r');
        lemma_neutral_pref(id@);
    }
    let label_opt: Option<String> = match label {
        Some(l) => Some(l.clone()),
        None => None,
    };
    let el = LayoutElement {
        id,
        bounds: Rect::new(imin(fx, tx), y - 1, imax(if fx < tx {
            tx - fx
        } else {
            fx - tx
        }, 1), 2),
        text: None,
        properties: Props::new(),
        element_type: ElementType::Edge {
            points,
            label: label_opt,
            arrow_start: false,
            arrow_end: true,
            dashed: true,
            edge_type: EdgeType::Association,
            from_cardinality: None,
            to_cardinality: None,
        },
    };
    m.advance_y(cfg.message_spacing);
    proof {
        match el.element_type {
            ElementType::Edge { ref points, .. } => {
                assert(points@ =~= seq![Point { x: fx, y: y }, Point { x: tx, y: y }]);
            },
            _ => {
                assert(false);
            },
        }
    }
    Some(el)
}

/// The lifeline x a note anchor denotes: the participant's center, or the
/// left margin for an unknown name.
pub open spec fn anchor_x(m: DiagramMetrics, cfg: SequenceLayoutConfig, name: Seq<char>) -> int {
    let s = slot_of(m.names.names(), name);
    if s >= 0 {
        m.parts@[s].center_x as int
    } else {
        cfg.margin as int
    }
}

/// The x a note is placed at: beside its single anchor per its position,
/// centered between the first and last of several, or at the margin.
pub open spec fn note_x(m: DiagramMetrics, cfg: SequenceLayoutConfig, note: Note) -> int {
    if note.anchors@.len() == 0 {
        cfg.margin as int
    } else if note.anchors@.len() == 1 {
        let ax = anchor_x(m, cfg, note.anchors@[0]@);
        match note.position {
            NotePosition::Left => ax - cfg.note_width - 20,
            NotePosition::Right => ax + 20,
            _ => ax - cfg.note_width / 2,
        }
    } else {
        let first = anchor_x(m, cfg, note.anchors@[0]@);
        let last = anchor_x(m, cfg, note.anchors@[note.anchors@.len() - 1]@);
        (first + last) / 2 - cfg.note_width / 2
    }
}

/// Lays out a note: a rectangle of the configured note size at the anchored
/// x, carrying the note text, and advances the cursor by its height plus a
/// margin.
fn emit_note(
    cfg: &SequenceLayoutConfig,
    note: &Note,
    m: &mut DiagramMetrics,
    counter: &mut u64,
) -> (r: LayoutElement)
    requires
        old(m).wf(),
        cfg.wf(),
        crate::ast::note_wf(*note),
        old(m).parts@.len() == old(m).names.names().len(),
        old(m).current_y + Y_STEP <= Y_LIM,
    ensures
        flow_evolves(*old(m), *final(m), Y_STEP as int),
        final(m).parts@.len() == final(m).names.names().len(),
        out_el_wf(r),
        neutral_id(r.id@),
        old(m).current_y - 6 < r.bounds.y,
        r.bounds.bottom() <= final(m).current_y,
        r.bounds == (Rect {
            x: note_x(*old(m), *cfg, *note) as i64,
            y: old(m).current_y,
            width: cfg.note_width,
            height: cfg.note_height,
        }),
        match r.element_type {
            ElementType::Rectangle { label, corner_radius } => label@ == note.text@
                && corner_radius == 0,
            _ => false,
        },
        *final(m) == (DiagramMetrics {
            current_y: (old(m).current_y + cfg.note_height + 10) as i64,
            ..*old(m)
        }),
{
    proof {
        assert forall|p: int, q: int|
            0 <= p < old(m).names.names().len() && 0 <= q < old(m).names.names().len() && p
                != q implies old(m).names.names()[p] != old(m).names.names()[q] by {
            old(m).names.lemma_names_distinct(p, q);
        }
    }
    let y = m.current_y;
    let x: i64;
    if note.anchors.len() == 0 {
        x = cfg.margin;
    } else if note.anchors.len() == 1 {
        let ax = self_center(m, &note.anchors[0], cfg.margin);
        x = match note.position {
            NotePosition::Left => ax - cfg.note_width - 20,
            NotePosition::Right => ax + 20,
            _ => ax - cfg.note_width / 2,
        };
    } else {
        let first = self_center(m, &note.anchors[0], cfg.margin);
        let last = self_center(m, &note.anchors[note.anchors.len() - 1], cfg.margin);
        x = (first + last) / 2 - cfg.note_width / 2;
    }
    proof {
        if note.anchors@.len() == 0 {
            assert(x == cfg.margin);
            assert(note_x(*old(m), *cfg, *note) == cfg.margin as int);
        } else if note.anchors@.len() == 1 {
            let ax = anchor_x(*old(m), *cfg, note.anchors@[0]@);
            assert(note_x(*old(m), *cfg, *note) == match note.position {
                NotePosition::Left => ax - cfg.note_width - 20,
                NotePosition::Right => ax + 20,
                _ => ax - cfg.note_width / 2,
            });
            assert(x as int == match note.position {
                NotePosition::Left => ax - cfg.note_width - 20,
                NotePosition::Right => ax + 20,
                _ => ax - cfg.note_width / 2,
            });
        } else {
            let first = anchor_x(*old(m), *cfg, note.anchors@[0]@);
            let last = anchor_x(*old(m), *cfg, note.anchors@[note.anchors@.len() - 1]@);
            assert(note_x(*old(m), *cfg, *note) == (first + last) / 2 - cfg.note_width / 2);
            assert(x as int == (first + last) / 2 - cfg.note_width / 2);
        }
        assert(x as int == note_x(*old(m), *cfg, *note));
    }
    let id = ordinal_id("note_", counter);
    proof {
        reveal_strlit("note_");
        assert(id@[0] == 'n');
        lemma_neutral_pref(id@);
    }
    let el = LayoutElement {
        id,
        bounds: Rect::new(x, y, cfg.note_width, cfg.note_height),
        text: None,
        properties: Props::new(),
        element_type: ElementType::Rectangle { label: note.text.clone(), corner_radius: 0 },
    };
    m.advance_y(cfg.note_height + 10);
    el
}

/// The lifeline x of a named participant, or the fallback.
fn self_center(m: &DiagramMetrics, name: &String, fallback: i64) -> (x: i64)
    requires
        m.wf(),
        m.parts@.len() == m.names.names().len(),
        0 <= fallback <= 4096,
        forall|p: int, q: int|
            0 <= p < m.names.names().len() && 0 <= q < m.names.names().len() && p != q
                ==> m.names.names()[p] != m.names.names()[q],
    ensures
        0 <= x <= X_LIM,
        x as int == ({
            let s = slot_of(m.names.names(), name@);
            if s >= 0 {
                m.parts@[s].center_x as int
            } else {
                fallback as int
            }
        }),
{
    match m.names.lookup(name.as_str()) {
        Some(slot) => {
            proof {
                lemma_slot_of_unique(m.names.names(), name@, slot as int);
            }
            m.lifeline_x(slot)
        },
        None => {
            proof {
                lemma_slot_of(m.names.names(), name@);
            }
            fallback
        },
    }
}

/// Lays out a full-width text block (divider or delay): a text element
/// spanning from the margin to the diagram's right edge, advancing the
/// cursor by its height.
fn emit_wide_text(
    cfg: &SequenceLayoutConfig,
    text: String,
    height: i64,
    marker: &str,
    neutral_first: char,
    m: &mut DiagramMetrics,
    counter: &mut u64,
) -> (r: LayoutElement)
    requires
        old(m).wf(),
        cfg.wf(),
        8 <= height <= 4096,
        old(m).parts@.len() == old(m).names.names().len(),
        old(m).current_y + Y_STEP <= Y_LIM,
        marker@.len() >= 1,
        marker@[0] == neutral_first,
        neutral_first == 'd',
    ensures
        flow_evolves(*old(m), *final(m), Y_STEP as int),
        final(m).parts@.len() == final(m).names.names().len(),
        out_el_wf(r),
        neutral_id(r.id@),
        old(m).current_y - 6 < r.bounds.y,
        r.bounds.bottom() <= final(m).current_y,
        r.bounds == (Rect {
            x: cfg.margin,
            y: old(m).current_y,
            width: spec_imax(old(m).max_x - cfg.margin, 8) as i64,
            height: height,
        }),
        match r.element_type {
            ElementType::Text { text: t, font_size } => t@ == text@ && font_size == cfg.font_size,
            _ => false,
        },
        *final(m) == (DiagramMetrics {
            current_y: (old(m).current_y + height) as i64,
            ..*old(m)
        }),
{
    let y = m.current_y;
    let id = ordinal_id(marker, counter);
    proof {
        crate::numfmt::lemma_dec_seq_digits(*old(counter) as int);
        assert(id@[0] == marker@[0]);
        lemma_neutral_pref(id@);
    }
    let el = LayoutElement {
        id,
        bounds: Rect::new(cfg.margin, y, imax(m.max_x - cfg.margin, 8), height),
        text: None,
        properties: Props::new(),
        element_type: ElementType::Text { text, font_size: cfg.font_size },
    };
    m.advance_y(height);
    el
}

/// What laying out one element appends, and how the metrics move: the
/// named per-element rendering of the vertical flow.
pub open spec fn el_rendered(
    cfg: SequenceLayoutConfig,
    e: SequenceElement,
    m0: DiagramMetrics,
    m1: DiagramMetrics,
    app: Seq<LayoutElement>,
) -> bool {
    &&& app.len() == el_render_count(m0, e)
    &&& flow_evolves(m0, m1, Y_STEP * el_size(e))
    &&& (!(e is Fragment) ==> m1.current_y == m0.current_y + el_advance(cfg, m0, e))
    &&& (
        match e {
            SequenceElement::Message(msg) => el_render_count(m0, e) == 1 ==> ({
                let names = m0.names.names();
                let fs = slot_of(names, msg.from@);
                let ts = slot_of(names, msg.to@);
                let y = message_arrow_y(cfg, m0.current_y as int, msg.label@);
                &&& message_edge_desc(
                    app.last(),
                    msg,
                    cfg,
                    m0.parts@[fs].center_x as int,
                    m0.parts@[ts].center_x as int,
                    y,
                    if m0.auto.enabled {
                        Some(
                            crate::seq_metrics::autonumber_text(
                                m0.auto.current as int,
                                match m0.auto.format {
                                    Some(f) => Some(f@),
                                    None => None,
                                },
                            ),
                        )
                    } else {
                        None
                    },
                )
                &&& message_metrics_desc(m0, m1, msg, cfg, fs, ts, y)
            }),
            SequenceElement::Return(ret) => {
                &&& (m0.calls@.len() == 0 ==> m1 == m0)
                &&& (m0.calls@.len() > 0 ==> ({
                    let caller = m0.calls@.last().0 as int;
                    let callee = m0.calls@.last().1 as int;
                    let fx = m0.parts@[callee].center_x as int;
                    let tx = m0.parts@[caller].center_x as int;
                    let li = last_open_index(m0.opens@, callee);
                    &&& m1.calls@ == m0.calls@.drop_last()
                    &&& m1.opens@ == if li >= 0 {
                        m0.opens@.remove(li)
                    } else {
                        m0.opens@
                    }
                    &&& (fx != tx ==> return_edge_desc(
                        app.last(),
                        match ret.label {
                            Some(l) => Some(l@),
                            None => None,
                        },
                        fx,
                        tx,
                        m0.current_y as int,
                    ))
                }))
            },
            SequenceElement::Note(n) => ({
                let el = app.last();
                &&& el.bounds == (Rect {
                    x: note_x(m0, cfg, n) as i64,
                    y: m0.current_y,
                    width: cfg.note_width,
                    height: cfg.note_height,
                })
                &&& match el.element_type {
                    ElementType::Rectangle { label, corner_radius } => label@ == n.text@
                        && corner_radius == 0,
                    _ => false,
                }
            }),
            SequenceElement::Divider(dv) => ({
                let el = app.last();
                &&& el.bounds == (Rect {
                    x: cfg.margin,
                    y: m0.current_y,
                    width: spec_imax(m0.max_x - cfg.margin, 8) as i64,
                    height: cfg.divider_height,
                })
                &&& match el.element_type {
                    ElementType::Text { text, font_size } => text@ == "== "@ + dv.text@ + " =="@
                        && font_size == cfg.font_size,
                    _ => false,
                }
            }),
            SequenceElement::Delay(dl) => ({
                let el = app.last();
                &&& el.bounds == (Rect {
                    x: cfg.margin,
                    y: m0.current_y,
                    width: spec_imax(m0.max_x - cfg.margin, 8) as i64,
                    height: cfg.delay_height,
                })
                &&& match el.element_type {
                    ElementType::Text { text, font_size } => font_size == cfg.font_size && text@
                        == match dl.text {
                        Some(t) => t@,
                        None => "..."@,
                    },
                    _ => false,
                }
            }),
            SequenceElement::Activation(a) => ({
                let names = m0.names.names();
                let sl = slot_of(names, a.participant@);
                &&& (sl < 0 ==> m1 == m0)
                &&& (sl >= 0 && a.activation_type is Activate ==> m1.opens@ == m0.opens@.push(
                    OpenActivation {
                        slot: sl as usize,
                        level: spec_imin(count_open(m0.opens@, sl) + 1, 65536) as i64,
                        start_y: m0.last_message_y,
                    },
                ) && m1.completed@ == m0.completed@ && m1.calls@ == m0.calls@)
                &&& (sl >= 0 && !(a.activation_type is Activate) ==> ({
                    let li = last_open_index(m0.opens@, sl);
                    &&& m1.opens@ == if li >= 0 {
                        m0.opens@.remove(li)
                    } else {
                        m0.opens@
                    }
                    &&& m1.completed@ == if li >= 0 {
                        m0.completed@.push(
                            CompletedActivation {
                                slot: sl as usize,
                                level: m0.opens@[li].level,
                                start_y: m0.opens@[li].start_y,
                                end_y: m0.current_y,
                            },
                        )
                    } else {
                        m0.completed@
                    }
                }))
            }),
            SequenceElement::Autonumber(c) => {
                &&& m1.auto.enabled == auto_after(m0.auto, c).0
                &&& m1.auto.current as int == auto_after(m0.auto, c).1
                &&& m1.auto.step as int == auto_after(m0.auto, c).2
                &&& m1.opens@ == m0.opens@
                &&& m1.calls@ == m0.calls@
                &&& m1.completed@ == m0.completed@
            },
            SequenceElement::Space(_) => m1.opens@ == m0.opens@ && m1.calls@ == m0.calls@
                && m1.completed@ == m0.completed@ && m1.auto == m0.auto,
            SequenceElement::Reference(_) => m1 == m0,
            SequenceElement::Fragment(f) => ({
                let el = app.last();
                &&& el.bounds.y == m0.current_y
                &&& m1.current_y == el.bounds.bottom() + 15
                &&& match el.element_type {
                    ElementType::Fragment { fragment_type, sections } => {
                        &&& fragment_type@ == ftype_name(f.fragment_type)
                        &&& sections@.len() == f.sections@.len()
                        &&& (forall|i: int|
                            0 <= i < sections@.len() ==> crate::gast::gopt_str(
                                (#[trigger] sections@[i]).condition,
                            ) == crate::gast::gopt_str(
                                if i == 0 && f.sections@[0].condition is None {
                                    f.condition
                                } else {
                                    f.sections@[i].condition
                                },
                            ))
                        &&& secs_chain(
                            sections@,
                            m0.current_y + cfg.fragment_header_height + 26,
                            el.bounds.bottom() - cfg.fragment_padding - 5,
                            0,
                        )
                    },
                    _ => false,
                }
            }),
        }
    )
}

/// Lays out one element at the current cursor, appending its rendering:
/// exactly `el_render_count` elements, with the per-statement content and
/// cursor movement stated below arm by arm.
#[verifier::rlimit(100)]
fn layout_el_x(
    cfg: &SequenceLayoutConfig,
    e: &SequenceElement,
    m: &mut DiagramMetrics,
    out: &mut Vec<LayoutElement>,
    counter: &mut u64,
    tl: &mut i64,
    tr: &mut i64,
)
    requires
        old(m).wf(),
        cfg.wf(),
        el_wf(*e),
        old(m).parts@.len() == old(m).names.names().len(),
        old(m).current_y + Y_STEP * el_size(*e) <= Y_LIM,
        touch_ok(*old(tl) as int, *old(tr) as int),
        -1 <= *old(tr),
    ensures
        flow_evolves(*old(m), *final(m), Y_STEP * el_size(*e)),
        final(m).parts@.len() == final(m).names.names().len(),
        touch_ok(*final(tl) as int, *final(tr) as int),
        -1 <= *final(tr),
        *final(tl) <= *old(tl) || *old(tr) < 0,
        *final(tr) >= *old(tr),
        final(out)@.len() == old(out)@.len() + el_render_count(*old(m), *e),
        final(out)@.take(old(out)@.len() as int) == old(out)@,
        seg_ok(
            final(out)@.skip(old(out)@.len() as int),
            old(m).current_y - 6,
            final(m).current_y as int,
        ),
        seg_edges_in(
            final(out)@.skip(old(out)@.len() as int),
            *final(tl) as int,
            *final(tr) as int,
        ),
        !(*e is Fragment) ==> final(m).current_y == old(m).current_y + el_advance(
            *cfg,
            *old(m),
            *e,
        ),
        el_rendered(
            *cfg,
            *e,
            *old(m),
            *final(m),
            final(out)@.skip(old(out)@.len() as int),
        ),
    decreases el_size(*e), 0int,
{
    proof {
        lemma_el_size_pos(*e);
        assert(out@.skip(out@.len() as int) =~= Seq::<LayoutElement>::empty());
    }
    let ghost base = out@.len() as int;
    match e {
        SequenceElement::Message(msg) => {
            match emit_message(cfg, msg, m, counter, tl, tr) {
                Some(el) => {
                    let ghost gtl = *tl;
                    let ghost gtr = *tr;
                    let ghost gel = el;
                    push_out(out, el, Ghost(base), Ghost(old(m).current_y - 6), Ghost(m.current_y as int));
                    proof {
                        assert(out@.skip(base) =~= seq![gel]);
                        assert(seg_edges_in(out@.skip(base), gtl as int, gtr as int));
                    }
                },
                None => {
                },
            }
        },
        SequenceElement::Return(ret) => {
            match emit_return(cfg, &ret.label, m, counter, tl, tr) {
                Some(el) => {
                    let ghost gtl = *tl;
                    let ghost gtr = *tr;
                    let ghost gel = el;
                    push_out(out, el, Ghost(base), Ghost(old(m).current_y - 6), Ghost(m.current_y as int));
                    proof {
                        assert(out@.skip(base) =~= seq![gel]);
                        assert(seg_edges_in(out@.skip(base), gtl as int, gtr as int));
                    }
                },
                None => {
                },
            }
        },
        SequenceElement::Note(note) => {
            let el = emit_note(cfg, note, m, counter);
            let ghost gel = el;
            push_out(out, el, Ghost(base), Ghost(old(m).current_y - 6), Ghost(m.current_y as int));
            proof {
                assert(out@.skip(base) =~= seq![gel]);
            }
        },
        SequenceElement::Divider(dv) => {
            let mut text = String::from_str("== ");
            text.append(dv.text.as_str());
            text.append(" ==");
            proof {
                reveal_strlit("divider_");
                assert(text@ =~= "== "@ + dv.text@ + " =="@);
            }
            let el = emit_wide_text(cfg, text, cfg.divider_height, "divider_", 'd', m, counter);
            let ghost gel = el;
            push_out(out, el, Ghost(base), Ghost(old(m).current_y - 6), Ghost(m.current_y as int));
            proof {
                assert(out@.skip(base) =~= seq![gel]);
            }
        },
        SequenceElement::Delay(dl) => {
            let text = match &dl.text {
                Some(t) => t.clone(),
                None => String::from_str("..."),
            };
            proof {
                reveal_strlit("delay_");
            }
            let el = emit_wide_text(cfg, text, cfg.delay_height, "delay_", 'd', m, counter);
            let ghost gel = el;
            push_out(out, el, Ghost(base), Ghost(old(m).current_y - 6), Ghost(m.current_y as int));
            proof {
                assert(out@.skip(base) =~= seq![gel]);
            }
        },
        SequenceElement::Activation(act) => {
            proof {
                assert forall|p: int, q: int|
                    0 <= p < old(m).names.names().len() && 0 <= q < old(m).names.names().len()
                        && p != q implies old(m).names.names()[p] != old(m).names.names()[q] by {
                    old(m).names.lemma_names_distinct(p, q);
                }
            }
            match m.names.lookup(act.participant.as_str()) {
                Some(slot) => {
                    proof {
                        lemma_slot_of_unique(
                            old(m).names.names(),
                            act.participant@,
                            slot as int,
                        );
                    }
                    match act.activation_type {
                        ActivationType::Activate => {
                            let y = m.last_message_y;
                            m.activate_at(slot, y);
                        },
                        _ => {
                            m.deactivate(slot);
                        },
                    }
                },
                None => {
                    proof {
                        lemma_slot_of(old(m).names.names(), act.participant@);
                    }
                },
            }
        },
        SequenceElement::Autonumber(cmd) => {
            process_autonumber(cmd, m);
        },
        SequenceElement::Space(h) => {
            let dy: i64 = *h as i64;
            proof {
                assert(Y_STEP * el_size(*e) == Y_STEP * (1 + *h as int));
                assert(Y_STEP * (1 + *h as int) >= dy) by (nonlinear_arith)
                    requires
                        dy == *h as int,
                        Y_STEP >= 1,
                ;
            }
            m.advance_y(dy);
        },
        SequenceElement::Reference(_) => {
        },
        SequenceElement::Fragment(f) => {
            let start_y = m.current_y;
            proof {
                lemma_sections_size_nonneg(f.sections@);
                assert(f.sections@.skip(0) =~= f.sections@);
            }
            m.advance_y(cfg.fragment_header_height + 26);
            let ghost y0 = m.current_y as int;
            let mut secs: Vec<FragmentSection> = Vec::new();
            let mut inner_tl: i64 = X_LIM;
            let mut inner_tr: i64 = -1;
            layout_secs_x(
                cfg,
                &f.condition,
                &f.sections,
                0,
                m,
                &mut secs,
                counter,
                &mut inner_tl,
                &mut inner_tr,
            );
            let ghost gsecs = secs@;
            let end_y = m.current_y + cfg.fragment_padding + 5;
            m.advance_y(cfg.fragment_padding + 5);
            m.advance_y(15);
            let minx: i64;
            let maxx: i64;
            if inner_tr < 0 {
                minx = cfg.margin;
                maxx = imax(m.max_x, cfg.margin + 8);
            } else {
                minx = inner_tl;
                maxx = inner_tr;
                let new_tl = imin(if *tr < 0 {
                    X_LIM
                } else {
                    *tl
                }, inner_tl);
                let new_tr = imax(if *tr < 0 {
                    0
                } else {
                    *tr
                }, inner_tr);
                *tl = new_tl;
                *tr = new_tr;
            }
            let frame = Rect::new(
                minx - cfg.fragment_padding,
                start_y,
                maxx - minx + 2 * cfg.fragment_padding,
                end_y - start_y,
            );
            let tyname: &str = match f.fragment_type {
                FragmentType::Alt => "alt",
                FragmentType::Opt => "opt",
                FragmentType::Loop => "loop",
                FragmentType::Par => "par",
                FragmentType::Break => "break",
                FragmentType::Critical => "critical",
                FragmentType::Group => "group",
                FragmentType::Ref => "ref",
            };
            let id = ordinal_id("fragment_", counter);
            proof {
                reveal_strlit("fragment_");
                assert(id@[0] == 'f' && id@[1] == 'r');
                lemma_neutral_pref(id@);
            }
            proof {
                assert(secs@.skip(0) =~= secs@);
                lemma_secs_frame(
                    secs@,
                    y0,
                    end_y - cfg.fragment_padding - 5,
                    inner_tl as int,
                    inner_tr as int,
                    frame,
                );
            }
            let el = LayoutElement {
                id,
                bounds: frame,
                text: None,
                properties: Props::new(),
                element_type: ElementType::Fragment {
                    fragment_type: String::from_str(tyname),
                    sections: secs,
                },
            };
            proof {
                match el.element_type {
                    ElementType::Fragment { ref fragment_type, ref sections } => {
                        assert(sections@ == gsecs);
                        assert(fragment_type@ == ftype_name(f.fragment_type));
                    },
                    _ => {
                        assert(false);
                    },
                }
            }
            let ghost gel2 = el;
            push_out(out, el, Ghost(base), Ghost(old(m).current_y - 6), Ghost(m.current_y as int));
            proof {
                assert(out@.skip(base) =~= seq![gel2]);
            }
        },
    }
    proof {
        let seg = out@.skip(base);
        lemma_seg_ok_widen(
            seg,
            old(m).current_y - 6,
            m.current_y as int,
            old(m).current_y - 6,
            m.current_y as int,
        );
        assert(out@.take(base) =~= old(out)@);
        if out@.len() > old(out)@.len() {
            assert(out@.last() == out@.skip(base).last());
        }
    }
}

/// The autonumber machine state a directive produces: `Start` enables and
/// reloads counter, step (a zero step counts as one) and format; `Stop`
/// disables; `Resume` enables and overrides only the parameters given;
/// `Inc` is accepted and ignored.
pub open spec fn auto_after(a0: crate::seq_metrics::AutoState, cmd: AutonumberCommand) -> (
    bool,
    int,
    int,
    Option<Seq<char>>,
) {
    let fmt0 = match a0.format {
        Some(f) => Some(f@),
        None => None,
    };
    match cmd {
        AutonumberCommand::Start(p) => (
            true,
            match p.start {
                Some(v) => v as int,
                None => 1,
            },
            match p.step {
                Some(v) => if v == 0 {
                    1int
                } else {
                    v as int
                },
                None => 1,
            },
            match p.format {
                Some(f) => Some(f@),
                None => None,
            },
        ),
        AutonumberCommand::Stop => (false, a0.current as int, a0.step as int, fmt0),
        AutonumberCommand::Resume(p) => match p {
            Some(p) => (
                true,
                match p.start {
                    Some(v) => v as int,
                    None => a0.current as int,
                },
                match p.step {
                    Some(v) => if v == 0 {
                        1int
                    } else {
                        v as int
                    },
                    None => a0.step as int,
                },
                match p.format {
                    Some(f) => Some(f@),
                    None => fmt0,
                },
            ),
            None => (true, a0.current as int, a0.step as int, fmt0),
        },
        AutonumberCommand::Inc(_) => (a0.enabled, a0.current as int, a0.step as int, fmt0),
    }
}

/// Applies an `autonumber` directive to the machine.
fn process_autonumber(cmd: &AutonumberCommand, m: &mut DiagramMetrics)
    requires
        old(m).wf(),
        crate::ast::autonumber_wf(*cmd),
    ensures
        flow_evolves(*old(m), *final(m), 0),
        final(m).parts@.len() == old(m).parts@.len(),
        final(m).current_y == old(m).current_y,
        final(m).last_message_y == old(m).last_message_y,
        final(m).opens@ == old(m).opens@,
        final(m).completed@ == old(m).completed@,
        final(m).calls@ == old(m).calls@,
        final(m).auto.enabled == auto_after(old(m).auto, *cmd).0,
        final(m).auto.current as int == auto_after(old(m).auto, *cmd).1,
        final(m).auto.step as int == auto_after(old(m).auto, *cmd).2,
        ({
            let fmt = match final(m).auto.format {
                Some(f) => Some(f@),
                None => None::<Seq<char>>,
            };
            fmt == auto_after(old(m).auto, *cmd).3
        }),
{
    match cmd {
        AutonumberCommand::Start(p) => {
            m.auto.enabled = true;
            m.auto.current = match p.start {
                Some(s) => s as u64,
                None => 1,
            };
            m.auto.step = match p.step {
                Some(s) => if s == 0 {
                    1
                } else {
                    s as u64
                },
                None => 1,
            };
            m.auto.format = match &p.format {
                Some(f) => Some(f.clone()),
                None => None,
            };
        },
        AutonumberCommand::Stop => {
            m.auto.enabled = false;
        },
        AutonumberCommand::Resume(p) => {
            m.auto.enabled = true;
            match p {
                Some(p) => {
                    match p.start {
                        Some(s) => {
                            m.auto.current = s as u64;
                        },
                        None => {
                        },
                    }
                    match p.step {
                        Some(s) => {
                            m.auto.step = if s == 0 {
                                1
                            } else {
                                s as u64
                            };
                        },
                        None => {
                        },
                    }
                    match &p.format {
                        Some(f) => {
                            m.auto.format = Some(f.clone());
                        },
                        None => {
                        },
                    }
                },
                None => {
                },
            }
        },
        AutonumberCommand::Inc(_) => {
        },
    }
}

/// Lays out the sections of a fragment from index `j` on: one rendered
/// section per input section, under the input's condition (the first section
/// inherits the fragment's own condition when it has none), chained 43 units
/// apart.
#[verifier::rlimit(100)]
fn layout_secs_x(
    cfg: &SequenceLayoutConfig,
    fcond: &Option<String>,
    ss: &Vec<crate::ast::FragmentSection>,
    j: usize,
    m: &mut DiagramMetrics,
    secs: &mut Vec<FragmentSection>,
    counter: &mut u64,
    tl: &mut i64,
    tr: &mut i64,
)
    requires
        old(m).wf(),
        cfg.wf(),
        j <= ss@.len(),
        crate::ast::opt_text_wf(*fcond),
        sections_wf(ss@.skip(j as int)),
        old(m).parts@.len() == old(m).names.names().len(),
        old(m).current_y + Y_STEP * sections_size(ss@.skip(j as int)) + Y_STEP <= Y_LIM,
        touch_ok(*old(tl) as int, *old(tr) as int),
        -1 <= *old(tr),
    ensures
        flow_evolves(*old(m), *final(m), Y_STEP * sections_size(ss@.skip(j as int))),
        final(m).parts@.len() == final(m).names.names().len(),
        touch_ok(*final(tl) as int, *final(tr) as int),
        -1 <= *final(tr),
        *final(tl) <= *old(tl) || *old(tr) < 0,
        *final(tr) >= *old(tr),
        final(secs)@.len() == old(secs)@.len() + (ss@.len() - j),
        final(secs)@.take(old(secs)@.len() as int) == old(secs)@,
        secs_ok(
            final(secs)@.skip(old(secs)@.len() as int),
            old(m).current_y as int,
            final(m).current_y as int,
            *final(tl) as int,
            *final(tr) as int,
        ),
        secs_chain(
            final(secs)@.skip(old(secs)@.len() as int),
            old(m).current_y as int,
            final(m).current_y as int,
            if j > 0 {
                43int
            } else {
                0int
            },
        ),
        forall|i: int|
            0 <= i < ss@.len() - j ==> crate::gast::gopt_str(
                (#[trigger] final(secs)@.skip(old(secs)@.len() as int)[i]).condition,
            ) == crate::gast::gopt_str(
                if j + i == 0 && ss@[0].condition is None {
                    *fcond
                } else {
                    ss@[j + i].condition
                },
            ),
    decreases sections_size(ss@.skip(j as int)) + 1, 1int,
{
    proof {
        lemma_sections_size_nonneg(ss@.skip(j as int));
        assert(secs@.skip(secs@.len() as int) =~= Seq::<FragmentSection>::empty());
    }
    if j == ss.len() {
        proof {
            assert(ss@.skip(j as int) =~= Seq::<crate::ast::FragmentSection>::empty());
        }
        return ;
    }
    proof {
        assert(ss@.skip(j as int)[0] == ss@[j as int]);
        assert(ss@.skip(j as int).skip(1) =~= ss@.skip(j + 1));
        lemma_sections_size_split(ss@.skip(j as int), 0);
        assert(ss@.skip(j as int).skip(1int) =~= ss@.skip(j + 1));
        lemma_els_size_nonneg(ss@[j as int].elements@);
        lemma_sections_size_nonneg(ss@.skip(j + 1));
        assert(sections_wf(ss@.skip(j as int)) == (section_wf(ss@.skip(j as int)[0])
            && sections_wf(ss@.skip(j as int).skip(1))));
        assert(section_wf(ss@[j as int]) == (crate::ast::opt_text_wf(ss@[j as int].condition)
            && els_wf(ss@[j as int].elements@)));
        assert(ss@[j as int].elements@.skip(0) =~= ss@[j as int].elements@);
    }
    if j > 0 {
        m.advance_y(43);
    }
    let sec_start = m.current_y;
    let mut children: Vec<LayoutElement> = Vec::new();
    layout_els_x(cfg, &ss[j].elements, 0, m, &mut children, counter, tl, tr);
    let sec_end = m.current_y;
    proof {
        assert(children@.skip(0) =~= children@);
    }
    let ghost gchildren = children@;
    let ghost gmid_tl = *tl;
    let ghost gmid_tr = *tr;
    let cond: Option<String> = match &ss[j].condition {
        Some(c) => Some(c.clone()),
        None => if j == 0 {
            match fcond {
                Some(c) => Some(c.clone()),
                None => None,
            }
        } else {
            None
        },
    };
    let ghost base = secs@.len() as int;
    let ghost pre_cur = old(m).current_y as int;
    secs.push(FragmentSection { condition: cond, start_y: sec_start, end_y: sec_end, children });
    proof {
        assert(secs@.take(base) =~= old(secs)@);
        assert(secs@.skip(base) =~= seq![secs@.last()]);
    }
    layout_secs_x(cfg, fcond, ss, j + 1, m, secs, counter, tl, tr);
    proof {
        let seg = final(secs)@.skip(base);
        let tail = final(secs)@.skip(base + 1);
        assert(seg[0] == final(secs)@[base]);
        assert(final(secs)@[base] == secs@[base]) by {
            assert(final(secs)@.take(secs@.len() as int)[base] == final(secs)@[base]);
        }
        assert forall|i: int| 0 <= i < seg.len() implies sec_ok(
            #[trigger] seg[i],
            pre_cur,
            final(m).current_y as int,
            *final(tl) as int,
            *final(tr) as int,
        ) by {
            if i == 0 {
                assert(seg[0].children@ == gchildren);
                assert(seg_ok(gchildren, sec_start - 6, sec_end as int));
                lemma_seg_ok_wf(gchildren, sec_start - 6, sec_end as int);
                lemma_edges_widen(
                    gchildren,
                    gmid_tl as int,
                    gmid_tr as int,
                    *final(tl) as int,
                    *final(tr) as int,
                );
            } else {
                assert(seg[i] == tail[i - 1]);
            }
        }
        assert(final(secs)@.take(old(secs)@.len() as int) =~= old(secs)@);
        assert(seg.skip(1) =~= tail);
        assert forall|i: int|
            0 <= i < ss@.len() - j implies crate::gast::gopt_str(
            (#[trigger] seg[i]).condition,
        ) == crate::gast::gopt_str(
            if j + i == 0 && ss@[0].condition is None {
                *fcond
            } else {
                ss@[j + i].condition
            },
        ) by {
            if i > 0 {
                assert(seg[i] == tail[i - 1]);
            }
        }
    }
}

/// The body segment renders the element list: element by element, each
/// appending its own rendering while the metrics evolve.
pub open spec fn flow_rendered(
    cfg: SequenceLayoutConfig,
    es: Seq<SequenceElement>,
    m0: DiagramMetrics,
    m1: DiagramMetrics,
    seg: Seq<LayoutElement>,
) -> bool
    decreases es.len(),
{
    if es.len() == 0 {
        seg.len() == 0 && m1 == m0
    } else {
        exists|mm: DiagramMetrics, k: int|
            {
                &&& 0 <= k <= seg.len()
                &&& #[trigger] el_rendered(cfg, es[0], m0, mm, seg.take(k))
                &&& flow_rendered(cfg, es.skip(1), mm, m1, seg.skip(k))
            }
    }
}

/// Lays out the elements from index `i` on: at least the statically known
/// renderings are appended, each element handled as `layout_el_x` states.
fn layout_els_x(
    cfg: &SequenceLayoutConfig,
    es: &Vec<SequenceElement>,
    i: usize,
    m: &mut DiagramMetrics,
    out: &mut Vec<LayoutElement>,
    counter: &mut u64,
    tl: &mut i64,
    tr: &mut i64,
)
    requires
        old(m).wf(),
        cfg.wf(),
        i <= es@.len(),
        els_wf(es@.skip(i as int)),
        old(m).parts@.len() == old(m).names.names().len(),
        old(m).current_y + Y_STEP * els_size(es@.skip(i as int)) <= Y_LIM,
        touch_ok(*old(tl) as int, *old(tr) as int),
        -1 <= *old(tr),
    ensures
        flow_evolves(*old(m), *final(m), Y_STEP * els_size(es@.skip(i as int))),
        final(m).parts@.len() == final(m).names.names().len(),
        touch_ok(*final(tl) as int, *final(tr) as int),
        -1 <= *final(tr),
        *final(tl) <= *old(tl) || *old(tr) < 0,
        *final(tr) >= *old(tr),
        final(out)@.len() >= old(out)@.len() + renders_lo_els(
            old(m).names.names(),
            es@.skip(i as int),
        ),
        final(out)@.take(old(out)@.len() as int) == old(out)@,
        seg_ok(
            final(out)@.skip(old(out)@.len() as int),
            old(m).current_y - 6,
            final(m).current_y as int,
        ),
        seg_edges_in(
            final(out)@.skip(old(out)@.len() as int),
            *final(tl) as int,
            *final(tr) as int,
        ),
        flow_rendered(
            *cfg,
            es@.skip(i as int),
            *old(m),
            *final(m),
            final(out)@.skip(old(out)@.len() as int),
        ),
    decreases els_size(es@.skip(i as int)), 1int,
{
    proof {
        lemma_els_size_nonneg(es@.skip(i as int));
        lemma_renders_lo_nonneg(old(m).names.names(), es@.skip(i as int));
        assert(out@.skip(out@.len() as int) =~= Seq::<LayoutElement>::empty());
    }
    if i == es.len() {
        proof {
            assert(es@.skip(i as int) =~= Seq::<SequenceElement>::empty());
        }
        return ;
    }
    proof {
        assert(es@.skip(i as int)[0] == es@[i as int]);
        assert(es@.skip(i as int).skip(1) =~= es@.skip(i + 1));
        lemma_els_size_split(es@.skip(i as int), 0);
        assert(es@.skip(i as int).skip(1int) =~= es@.skip(i + 1));
        lemma_el_size_pos(es@[i as int]);
        lemma_els_size_nonneg(es@.skip(i + 1));
        lemma_renders_lo_nonneg(old(m).names.names(), es@.skip(i + 1));
        assert(els_wf(es@.skip(i as int)) == (el_wf(es@.skip(i as int)[0]) && els_wf(
            es@.skip(i as int).skip(1),
        )));
        assert(el_render_count(*old(m), es@[i as int]) >= renders_lo(
            old(m).names.names(),
            es@[i as int],
        ));
    }
    let ghost base = out@.len() as int;
    let ghost cur0 = old(m).current_y as int;
    layout_el_x(cfg, &es[i], m, out, counter, tl, tr);
    let ghost m_mid = *m;
    let ghost mid = m.current_y as int;
    let ghost base2 = out@.len() as int;
    let ghost mid_tl = *tl;
    let ghost mid_tr = *tr;
    layout_els_x(cfg, es, i + 1, m, out, counter, tl, tr);
    proof {
        let seg = out@.skip(base);
        let first = out@.subrange(base, base2);
        let rest = out@.skip(base2);
        assert(out@.take(base2).skip(base) =~= first);
        assert forall|k: int| 0 <= k < first.len() implies out_el_wf(#[trigger] first[k]) by {
            assert(first[k] == out@.take(base2).skip(base)[k]);
        }
        lemma_edges_widen(first, mid_tl as int, mid_tr as int, *tl as int, *tr as int);
        assert forall|k: int| 0 <= k < seg.len() implies {
            let el = #[trigger] seg[k];
            &&& out_el_wf(el)
            &&& neutral_id(el.id@)
            &&& cur0 - 6 < el.bounds.y
            &&& el.bounds.bottom() <= m.current_y
            &&& (el.element_type is Edge ==> *tl as int <= el.bounds.x && el.bounds.right()
                <= *tr as int)
        } by {
            if k < base2 - base {
                assert(seg[k] == out@.take(base2).skip(base)[k]);
            } else {
                assert(seg[k] == rest[k - (base2 - base)]);
            }
        }
        assert(out@.take(base) =~= old(out)@);
        let fullseg = out@.skip(base);
        let kk = base2 - base;
        assert(fullseg.take(kk) =~= out@.take(base2).skip(base));
        assert(el_rendered(*cfg, es@.skip(i as int)[0], *old(m), m_mid, fullseg.take(kk)));
        assert(fullseg.skip(kk) =~= out@.skip(base2));
        assert(flow_rendered(*cfg, es@.skip(i as int).skip(1), m_mid, *m, fullseg.skip(kk)));
        assert(flow_rendered(*cfg, es@.skip(i as int), *old(m), *m, fullseg));
    }
}


/// A message between two placed participants, for the packing pass.
#[derive(Clone, Copy, Debug, PartialEq, Eq, Structural)]
pub struct SpanMessage {
    pub start: usize,
    pub end: usize,
    pub width: i64,
}

spec fn span_msg_ok(sm: SpanMessage, n: int) -> bool {
    &&& sm.start < sm.end < n
    &&& 0 <= sm.width <= 0x200_0000
}

/// Whether the element list carries an autonumber start or resume.
pub open spec fn has_autonumber_spec(es: Seq<SequenceElement>) -> bool {
    exists|i: int|
        0 <= i < es.len() && match #[trigger] es[i] {
            SequenceElement::Autonumber(c) => c is Start || c is Resume,
            _ => false,
        }
}

/// The span entry of one message: both endpoints registered and distinct,
/// reserving the label width plus the autonumber allowance.
pub open spec fn msg_span(
    cfg: SequenceLayoutConfig,
    names: Seq<Seq<char>>,
    msg: crate::ast::Message,
    extra: int,
) -> Seq<SpanMessage> {
    let sa = slot_of(names, msg.from@);
    let sb = slot_of(names, msg.to@);
    if sa >= 0 && sb >= 0 && sa != sb {
        seq![
            SpanMessage {
                start: (if sa < sb {
                    sa
                } else {
                    sb
                }) as usize,
                end: (if sa < sb {
                    sb
                } else {
                    sa
                }) as usize,
                width: (cfg.spec_label_width(msg.label@) + extra) as i64,
            },
        ]
    } else {
        Seq::empty()
    }
}

/// The spans of every message of an element, fragments included.
pub open spec fn el_spans(
    cfg: SequenceLayoutConfig,
    names: Seq<Seq<char>>,
    e: SequenceElement,
    extra: int,
) -> Seq<SpanMessage>
    decreases e,
{
    match e {
        SequenceElement::Message(msg) => msg_span(cfg, names, msg, extra),
        SequenceElement::Fragment(f) => secs_spans(cfg, names, f.sections@, extra),
        _ => Seq::empty(),
    }
}

pub open spec fn secs_spans(
    cfg: SequenceLayoutConfig,
    names: Seq<Seq<char>>,
    ss: Seq<crate::ast::FragmentSection>,
    extra: int,
) -> Seq<SpanMessage>
    decreases ss,
{
    if ss.len() == 0 {
        Seq::empty()
    } else {
        els_spans(cfg, names, ss[0].elements@, extra) + secs_spans(cfg, names, ss.skip(1), extra)
    }
}

pub open spec fn els_spans(
    cfg: SequenceLayoutConfig,
    names: Seq<Seq<char>>,
    es: Seq<SequenceElement>,
    extra: int,
) -> Seq<SpanMessage>
    decreases es,
{
    if es.len() == 0 {
        Seq::empty()
    } else {
        el_spans(cfg, names, es[0], extra) + els_spans(cfg, names, es.skip(1), extra)
    }
}

/// The sum of a slice of values.
pub open spec fn seg_sum(v: Seq<i64>, lo: int, hi: int) -> int
    decreases hi - lo,
{
    if lo >= hi {
        0
    } else {
        v[lo] + seg_sum(v, lo + 1, hi)
    }
}

/// The horizontal room an arrow has: the spacing over every crossed segment,
/// plus half the end participants' widths and the full widths of the
/// participants in between.
pub open spec fn arrow_room(sp: Seq<i64>, widths: Seq<i64>, sm: SpanMessage) -> int {
    (widths[sm.start as int] + widths[sm.end as int]) / 2 + seg_sum(
        widths,
        sm.start + 1,
        sm.end as int,
    ) + seg_sum(sp, sm.start as int, sm.end as int)
}

proof fn lemma_seg_sum_snoc(v: Seq<i64>, lo: int, hi: int)
    requires
        0 <= lo <= hi < v.len(),
    ensures
        seg_sum(v, lo, hi + 1) == seg_sum(v, lo, hi) + v[hi],
    decreases hi - lo,
{
    if lo < hi {
        lemma_seg_sum_snoc(v, lo + 1, hi);
    } else {
        assert(seg_sum(v, lo + 1, hi + 1) == 0);
    }
}

proof fn lemma_seg_sum_mono(a: Seq<i64>, b: Seq<i64>, lo: int, hi: int)
    requires
        a.len() == b.len(),
        0 <= lo,
        hi <= a.len(),
        forall|j: int| lo <= j < hi ==> #[trigger] b[j] >= a[j],
    ensures
        seg_sum(b, lo, hi) >= seg_sum(a, lo, hi),
    decreases hi - lo,
{
    if lo < hi {
        lemma_seg_sum_mono(a, b, lo + 1, hi);
    }
}

proof fn lemma_seg_sum_eq(a: Seq<i64>, b: Seq<i64>, lo: int, hi: int)
    requires
        a.len() == b.len(),
        0 <= lo,
        hi <= a.len(),
        forall|j: int| lo <= j < hi ==> #[trigger] b[j] == a[j],
    ensures
        seg_sum(b, lo, hi) == seg_sum(a, lo, hi),
    decreases hi - lo,
{
    if lo < hi {
        lemma_seg_sum_eq(a, b, lo + 1, hi);
    }
}

proof fn lemma_seg_sum_lb(v: Seq<i64>, lo: int, hi: int, b: int)
    requires
        0 <= lo,
        hi <= v.len(),
        forall|j: int| lo <= j < hi ==> #[trigger] v[j] >= b,
        b >= 0,
    ensures
        seg_sum(v, lo, hi) >= 0,
        lo < hi ==> seg_sum(v, lo, hi) >= b,
    decreases hi - lo,
{
    if lo < hi {
        lemma_seg_sum_lb(v, lo + 1, hi, b);
    }
}

proof fn lemma_seg_sum_set(a: Seq<i64>, idx: int, v: i64, lo: int, hi: int)
    requires
        0 <= lo <= hi <= a.len(),
        lo <= idx < hi,
    ensures
        seg_sum(a.update(idx, v), lo, hi) == seg_sum(a, lo, hi) + v - a[idx],
    decreases hi - lo,
{
    let b = a.update(idx, v);
    if idx == lo {
        lemma_seg_sum_eq(a, b, lo + 1, hi);
    } else {
        lemma_seg_sum_set(a, idx, v, lo + 1, hi);
    }
}

/// A span whose packing requirement is met and whose segments are engaged.
pub open spec fn span_done(
    sp: Seq<i64>,
    engaged: Seq<bool>,
    widths: Seq<i64>,
    sm: SpanMessage,
) -> bool {
    &&& arrow_room(sp, widths, sm) >= sm.width + 20
    &&& forall|q: int| sm.start <= q < sm.end ==> engaged[q]
}

proof fn lemma_el_spans_none(
    cfg: SequenceLayoutConfig,
    names: Seq<Seq<char>>,
    e: SequenceElement,
    extra: int,
)
    requires
        names.len() == 0,
    ensures
        el_spans(cfg, names, e, extra).len() == 0,
    decreases e,
{
    match e {
        SequenceElement::Fragment(f) => {
            lemma_secs_spans_none(cfg, names, f.sections@, extra);
        },
        _ => {
        },
    }
}

proof fn lemma_secs_spans_none(
    cfg: SequenceLayoutConfig,
    names: Seq<Seq<char>>,
    ss: Seq<crate::ast::FragmentSection>,
    extra: int,
)
    requires
        names.len() == 0,
    ensures
        secs_spans(cfg, names, ss, extra).len() == 0,
    decreases ss,
{
    if ss.len() > 0 {
        lemma_els_spans_none(cfg, names, ss[0].elements@, extra);
        lemma_secs_spans_none(cfg, names, ss.skip(1), extra);
    }
}

proof fn lemma_els_spans_none(
    cfg: SequenceLayoutConfig,
    names: Seq<Seq<char>>,
    es: Seq<SequenceElement>,
    extra: int,
)
    requires
        names.len() == 0,
    ensures
        els_spans(cfg, names, es, extra).len() == 0,
    decreases es,
{
    if es.len() > 0 {
        lemma_el_spans_none(cfg, names, es[0], extra);
        lemma_els_spans_none(cfg, names, es.skip(1), extra);
    }
}

/// The packing law a spacing vector satisfies for a set of spans.
pub open spec fn spacing_law(
    sp: Seq<i64>,
    widths: Seq<i64>,
    spans: Seq<SpanMessage>,
) -> bool {
    forall|t: int|
        0 <= t < spans.len() ==> arrow_room(sp, widths, #[trigger] spans[t]) >= spans[t].width
            + 20
}

/// Collects the messages of the diagram with their slot spans and reserved
/// label widths.
fn collect_spans(
    cfg: &SequenceLayoutConfig,
    es: &Vec<SequenceElement>,
    i: usize,
    m: &DiagramMetrics,
    extra: i64,
    msgs: &mut Vec<SpanMessage>,
)
    requires
        m.wf(),
        cfg.wf(),
        i <= es@.len(),
        els_wf(es@.skip(i as int)),
        0 <= extra <= 64,
        forall|k: int|
            0 <= k < old(msgs)@.len() ==> span_msg_ok(#[trigger] old(msgs)@[k], m.names.names().len() as int),
    ensures
        forall|k: int|
            0 <= k < final(msgs)@.len() ==> span_msg_ok(#[trigger] final(msgs)@[k], m.names.names().len() as int),
        final(msgs)@ == old(msgs)@ + els_spans(
            *cfg,
            m.names.names(),
            es@.skip(i as int),
            extra as int,
        ),
    decreases els_size(es@.skip(i as int)), 1int,
{
    proof {
        lemma_els_size_nonneg(es@.skip(i as int));
    }
    if i == es.len() {
        proof {
            assert(es@.skip(i as int) =~= Seq::<SequenceElement>::empty());
            assert(msgs@ =~= msgs@ + els_spans(
                *cfg,
                m.names.names(),
                es@.skip(i as int),
                extra as int,
            ));
        }
        return ;
    }
    proof {
        assert(es@.skip(i as int)[0] == es@[i as int]);
        assert(es@.skip(i as int).skip(1) =~= es@.skip(i + 1));
        lemma_els_size_split(es@.skip(i as int), 0);
        assert(es@.skip(i as int).skip(1int) =~= es@.skip(i + 1));
        lemma_el_size_pos(es@[i as int]);
        lemma_els_size_nonneg(es@.skip(i + 1));
        assert(els_wf(es@.skip(i as int)) == (el_wf(es@.skip(i as int)[0]) && els_wf(
            es@.skip(i as int).skip(1),
        )));
    }
    let ghost names = m.names.names();
    let ghost pre = msgs@;
    proof {
        assert forall|p: int, q: int|
            0 <= p < names.len() && 0 <= q < names.len() && p != q implies names[p] != names[q] by {
            m.names.lemma_names_distinct(p, q);
        }
    }
    match &es[i] {
        SequenceElement::Message(msg) => {
            let a = m.names.lookup(msg.from.as_str());
            let b = m.names.lookup(msg.to.as_str());
            proof {
                match a {
                    Some(sa) => {
                        lemma_slot_of_unique(names, msg.from@, sa as int);
                    },
                    None => {
                        lemma_slot_of(names, msg.from@);
                    },
                }
                match b {
                    Some(sb) => {
                        lemma_slot_of_unique(names, msg.to@, sb as int);
                    },
                    None => {
                        lemma_slot_of(names, msg.to@);
                    },
                }
            }
            match (a, b) {
                (Some(sa), Some(sb)) => {
                    if sa != sb {
                        let w = cfg.message_label_width(msg.label.as_str()) + extra;
                        let lo = if sa < sb {
                            sa
                        } else {
                            sb
                        };
                        let hi = if sa < sb {
                            sb
                        } else {
                            sa
                        };
                        msgs.push(SpanMessage { start: lo, end: hi, width: w });
                        proof {
                            assert(msgs@ =~= pre + el_spans(
                                *cfg,
                                names,
                                es@[i as int],
                                extra as int,
                            ));
                        }
                    } else {
                        proof {
                            assert(msgs@ =~= pre + el_spans(
                                *cfg,
                                names,
                                es@[i as int],
                                extra as int,
                            ));
                        }
                    }
                },
                _ => {
                    proof {
                        assert(msgs@ =~= pre + el_spans(*cfg, names, es@[i as int], extra as int));
                    }
                },
            }
        },
        SequenceElement::Fragment(f) => {
            proof {
                lemma_sections_size_nonneg(f.sections@);
                assert(f.sections@.skip(0) =~= f.sections@);
            }
            collect_frag_spans(cfg, &f.sections, 0, m, extra, msgs);
        },
        _ => {
            proof {
                assert(msgs@ =~= pre + el_spans(*cfg, names, es@[i as int], extra as int));
            }
        },
    }
    let ghost mid = msgs@;
    proof {
        assert(mid == pre + el_spans(*cfg, names, es@[i as int], extra as int));
    }
    collect_spans(cfg, es, i + 1, m, extra, msgs);
    proof {
        assert(els_spans(*cfg, names, es@.skip(i as int), extra as int) == el_spans(
            *cfg,
            names,
            es@[i as int],
            extra as int,
        ) + els_spans(*cfg, names, es@.skip(i + 1), extra as int));
        assert(msgs@ =~= pre + els_spans(*cfg, names, es@.skip(i as int), extra as int));
    }
}

fn collect_frag_spans(
    cfg: &SequenceLayoutConfig,
    ss: &Vec<crate::ast::FragmentSection>,
    j: usize,
    m: &DiagramMetrics,
    extra: i64,
    msgs: &mut Vec<SpanMessage>,
)
    requires
        m.wf(),
        cfg.wf(),
        j <= ss@.len(),
        sections_wf(ss@.skip(j as int)),
        0 <= extra <= 64,
        forall|k: int|
            0 <= k < old(msgs)@.len() ==> span_msg_ok(#[trigger] old(msgs)@[k], m.names.names().len() as int),
    ensures
        forall|k: int|
            0 <= k < final(msgs)@.len() ==> span_msg_ok(#[trigger] final(msgs)@[k], m.names.names().len() as int),
        final(msgs)@ == old(msgs)@ + secs_spans(
            *cfg,
            m.names.names(),
            ss@.skip(j as int),
            extra as int,
        ),
    decreases sections_size(ss@.skip(j as int)) + 1, 1int,
{
    proof {
        lemma_sections_size_nonneg(ss@.skip(j as int));
    }
    if j == ss.len() {
        proof {
            assert(ss@.skip(j as int) =~= Seq::<crate::ast::FragmentSection>::empty());
            assert(msgs@ =~= msgs@ + secs_spans(
                *cfg,
                m.names.names(),
                ss@.skip(j as int),
                extra as int,
            ));
        }
        return ;
    }
    proof {
        assert(ss@.skip(j as int)[0] == ss@[j as int]);
        assert(ss@.skip(j as int).skip(1) =~= ss@.skip(j + 1));
        lemma_sections_size_split(ss@.skip(j as int), 0);
        assert(ss@.skip(j as int).skip(1int) =~= ss@.skip(j + 1));
        lemma_els_size_nonneg(ss@[j as int].elements@);
        lemma_sections_size_nonneg(ss@.skip(j + 1));
        assert(sections_wf(ss@.skip(j as int)) == (section_wf(ss@.skip(j as int)[0])
            && sections_wf(ss@.skip(j as int).skip(1))));
        assert(section_wf(ss@[j as int]) == (crate::ast::opt_text_wf(ss@[j as int].condition)
            && els_wf(ss@[j as int].elements@)));
        assert(ss@[j as int].elements@.skip(0) =~= ss@[j as int].elements@);
    }
    let ghost names = m.names.names();
    let ghost pre = msgs@;
    proof {
        assert(ss@[j as int].elements@.skip(0) =~= ss@[j as int].elements@);
    }
    collect_spans(cfg, &ss[j].elements, 0, m, extra, msgs);
    collect_frag_spans(cfg, ss, j + 1, m, extra, msgs);
    proof {
        assert(secs_spans(*cfg, names, ss@.skip(j as int), extra as int) == els_spans(
            *cfg,
            names,
            ss@[j as int].elements@,
            extra as int,
        ) + secs_spans(*cfg, names, ss@.skip(j + 1), extra as int));
        assert(msgs@ =~= pre + secs_spans(*cfg, names, ss@.skip(j as int), extra as int));
    }
}

/// Solves the one-dimensional packing of participant gaps: adjacent pairs
/// get at least their label width; longer arrows add any deficit to their
/// first gap; gaps no arrow crosses shrink to a small minimum. Each gap is
/// clamped to a machine cap so coordinate arithmetic stays exact.
fn compute_spacing(
    cfg: &SequenceLayoutConfig,
    d: &SequenceDiagram,
    m: &DiagramMetrics,
    widths: &Vec<i64>,
) -> (sp: Vec<i64>)
    requires
        m.wf(),
        cfg.wf(),
        seq_diagram_wf(*d),
        widths@.len() == m.names.names().len(),
        forall|k: int| 0 <= k < widths@.len() ==> 0 < #[trigger] widths@[k] <= MAX_TEXT * 4096 + 8192,
    ensures
        m.names.names().len() >= 1 ==> sp@.len() == m.names.names().len() - 1,
        forall|k: int| 0 <= k < sp@.len() ==> 8 <= #[trigger] sp@[k] <= 0x100_0000_0000,
        forall|k: int|
            0 <= k < sp@.len() ==> #[trigger] sp@[k] >= spec_imin(cfg.min_spacing as int, 30),
        spacing_law(
            sp@,
            widths@,
            els_spans(
                *cfg,
                m.names.names(),
                d.elements@,
                if has_autonumber_spec(d.elements@) {
                    45int
                } else {
                    0int
                },
            ),
        ),
{
    let ghost names = m.names.names();
    let n = widths.len();
    let ghost gextra: int = if has_autonumber_spec(d.elements@) {
        45int
    } else {
        0int
    };
    let ghost spans = els_spans(*cfg, names, d.elements@, gextra);
    if n < 1 {
        proof {
            lemma_els_spans_none(*cfg, names, d.elements@, gextra);
        }
        return Vec::new();
    }
    let has_auto = diagram_has_autonumber(d);
    let mut msgs: Vec<SpanMessage> = Vec::new();
    proof {
        assert(d.elements@.skip(0) =~= d.elements@);
    }
    collect_spans(cfg, &d.elements, 0, m, if has_auto {
        45
    } else {
        0
    }, &mut msgs);
    proof {
        assert(msgs@ =~= spans);
    }
    let mut sp: Vec<i64> = Vec::new();
    let mut engaged: Vec<bool> = Vec::new();
    let mut k: usize = 0;
    while k + 1 < n
        invariant
            sp@.len() == k,
            engaged@.len() == k,
            k + 1 <= n || k == 0,
            k < n,
            forall|j: int| 0 <= j < k ==> 8 <= #[trigger] sp@[j] <= 0x100_0000_0000,
            forall|j: int| 0 <= j < k ==> #[trigger] sp@[j] >= cfg.min_spacing,
            cfg.wf(),
        decreases n - k,
    {
        sp.push(cfg.min_spacing);
        engaged.push(false);
        k = k + 1;
    }
    let nm = msgs.len();
    let mut span: usize = 1;
    while span < n
        invariant
            span >= 1,
            sp@.len() + 1 == n || n == 0,
            engaged@.len() == sp@.len(),
            nm == msgs@.len(),
            msgs@ == spans,
            n == widths@.len(),
            n == m.names.names().len(),
            m.wf(),
            cfg.wf(),
            forall|j: int| 0 <= j < sp@.len() ==> 8 <= #[trigger] sp@[j] <= 0x100_0000_0000,
            forall|j: int| 0 <= j < sp@.len() ==> #[trigger] sp@[j] >= cfg.min_spacing,
            forall|j: int| 0 <= j < nm ==> span_msg_ok(#[trigger] msgs@[j], n as int),
            forall|j: int| 0 <= j < widths@.len() ==> 0 < #[trigger] widths@[j] <= MAX_TEXT * 4096 + 8192,
            forall|t2: int|
                0 <= t2 < nm && msgs@[t2].end - msgs@[t2].start < span ==> span_done(
                    sp@,
                    engaged@,
                    widths@,
                    #[trigger] msgs@[t2],
                ),
        decreases n - span,
    {
        let mut t: usize = 0;
        while t < nm
            invariant
                sp@.len() + 1 == n,
                engaged@.len() == sp@.len(),
                nm == msgs@.len(),
                msgs@ == spans,
                n == widths@.len(),
                t <= nm,
                cfg.wf(),
                forall|j: int| 0 <= j < sp@.len() ==> 8 <= #[trigger] sp@[j] <= 0x100_0000_0000,
                forall|j: int| 0 <= j < sp@.len() ==> #[trigger] sp@[j] >= cfg.min_spacing,
                forall|j: int| 0 <= j < nm ==> span_msg_ok(#[trigger] msgs@[j], n as int),
                forall|j: int| 0 <= j < widths@.len() ==> 0 < #[trigger] widths@[j] <= MAX_TEXT * 4096 + 8192,
                forall|t2: int|
                    0 <= t2 < nm && (msgs@[t2].end - msgs@[t2].start < span || (msgs@[t2].end
                        - msgs@[t2].start == span && t2 < t)) ==> span_done(
                        sp@,
                        engaged@,
                        widths@,
                        #[trigger] msgs@[t2],
                    ),
            decreases nm - t,
        {
            let ghost sp0 = sp@;
            let ghost eng0 = engaged@;
            let sm = msgs[t];
            if sm.end - sm.start == span {
                let required = sm.width + 20;
                if span == 1 {
                    let half = (widths[sm.start] + widths[sm.end]) / 2;
                    let need = imax(required - half, cfg.min_spacing);
                    let cur = sp[sm.start];
                    let nv = imin(imax(cur, need), 0x100_0000_0000);
                    sp.set(sm.start, nv);
                    engaged.set(sm.start, true);
                    proof {
                        let st = sm.start as int;
                        let en = sm.end as int;
                        assert(nv >= need);
                        assert(nv >= cur);
                        assert(seg_sum(sp@, en, en) == 0);
                        assert(seg_sum(sp@, st, en) == sp@[st] + seg_sum(sp@, st + 1, en));
                        assert(seg_sum(widths@, st + 1, en) == 0);
                        assert(arrow_room(sp@, widths@, sm) == (widths@[st] + widths@[en]) / 2
                            + sp@[st]);
                        assert(span_done(sp@, engaged@, widths@, sm));
                        assert forall|j: int| 0 <= j < sp@.len() implies #[trigger] sp@[j]
                            >= sp0[j] by {}
                        assert forall|t2: int|
                            0 <= t2 < nm && (msgs@[t2].end - msgs@[t2].start < span || (
                            msgs@[t2].end - msgs@[t2].start == span && t2 < t + 1)) implies span_done(
                            sp@,
                            engaged@,
                            widths@,
                            #[trigger] msgs@[t2],
                        ) by {
                            if t2 != t {
                                lemma_seg_sum_mono(
                                    sp0,
                                    sp@,
                                    msgs@[t2].start as int,
                                    msgs@[t2].end as int,
                                );
                            }
                        }
                    }
                } else {
                    let ghost st = sm.start as int;
                    let ghost en = sm.end as int;
                    let mut total: i64 = 0;
                    let mut q: usize = sm.start;
                    while q < sm.end
                        invariant
                            sm.start <= q <= sm.end,
                            sm.end < n,
                            sp@.len() + 1 == n,
                            n == widths@.len(),
                            st == sm.start as int,
                            en == sm.end as int,
                            forall|j: int|
                                0 <= j < sp@.len() ==> 8 <= #[trigger] sp@[j]
                                    <= 0x100_0000_0000,
                            forall|j: int|
                                0 <= j < widths@.len() ==> 0 < #[trigger] widths@[j]
                                    <= MAX_TEXT * 4096 + 8192,
                            0 <= total <= 0x200_0000_0000_0000,
                            total <= seg_sum(sp@, st, q as int) + seg_sum(
                                widths@,
                                st + 1,
                                q as int,
                            ) + if q > sm.start {
                                widths@[st] / 2
                            } else {
                                0int
                            },
                            total < 0x200_0000_0000_0000 ==> total == seg_sum(sp@, st, q as int)
                                + seg_sum(widths@, st + 1, q as int) + if q > sm.start {
                                widths@[st] / 2
                            } else {
                                0int
                            },
                            seg_sum(sp@, st, q as int) + seg_sum(widths@, st + 1, q as int) + (
                            if q > sm.start {
                                widths@[st] / 2
                            } else {
                                0int
                            }) >= 0,
                        decreases sm.end - q,
                    {
                        proof {
                            lemma_seg_sum_snoc(sp@, st, q as int);
                            if q > sm.start {
                                lemma_seg_sum_snoc(widths@, st + 1, q as int);
                            } else {
                                assert(seg_sum(widths@, st + 1, st + 1) == 0);
                            }
                        }
                        let add = sp[q] + if q > sm.start {
                            widths[q]
                        } else {
                            widths[q] / 2
                        };
                        total = if total >= 0x200_0000_0000_0000 - add {
                            0x200_0000_0000_0000
                        } else {
                            total + add
                        };
                        q = q + 1;
                    }
                    let ghost room0 = seg_sum(sp@, st, en) + seg_sum(widths@, st + 1, en)
                        + widths@[st] / 2;
                    let half_end = widths[sm.end] / 2;
                    let total2 = if total >= 0x200_0000_0000_0000 - half_end {
                        0x200_0000_0000_0000
                    } else {
                        total + half_end
                    };
                    proof {
                        assert(total2 <= room0 + widths@[en] / 2);
                        assert(total2 < 0x200_0000_0000_0000 ==> total2 == room0 + widths@[en]
                            / 2);
                        assert((widths@[st] + widths@[en]) / 2 >= widths@[st] / 2 + widths@[en]
                            / 2) by {
                            assert(widths@[st] % 2 >= 0 && widths@[en] % 2 >= 0);
                        }
                        assert(arrow_room(sp@, widths@, sm) >= room0 + widths@[en] / 2);
                    }
                    if total2 < required {
                        let deficit = required - total2;
                        let cur = sp[sm.start];
                        proof {
                            assert(total2 == room0 + widths@[en] / 2);
                            assert(seg_sum(sp@, st, en) == sp@[st] + seg_sum(sp@, st + 1, en));
                            lemma_seg_sum_lb(sp@, st + 1, en, 8);
                            lemma_seg_sum_lb(widths@, st + 1, en, 0);
                            assert(total2 >= cur);
                            assert(cur + deficit <= required);
                        }
                        let nv = imin(cur + deficit, 0x100_0000_0000);
                        let ghost sp_before = sp@;
                        sp.set(sm.start, nv);
                        proof {
                            assert(nv == cur + deficit);
                            assert(sp@ == sp_before.update(st, nv));
                            lemma_seg_sum_set(sp_before, st, nv, st, en);
                            assert(seg_sum(sp@, st, en) == seg_sum(sp_before, st, en) + deficit);
                            assert(arrow_room(sp@, widths@, sm) >= room0 + widths@[en] / 2
                                + deficit);
                            assert(arrow_room(sp@, widths@, sm) >= required);
                        }
                    } else {
                        proof {
                            assert(arrow_room(sp@, widths@, sm) >= required);
                        }
                    }
                    let ghost sp_mid = sp@;
                    let mut q2: usize = sm.start;
                    while q2 < sm.end
                        invariant
                            sm.start <= q2 <= sm.end,
                            sm.end < n,
                            engaged@.len() + 1 == n,
                            sp@ == sp_mid,
                            forall|j: int| 0 <= j < eng0.len() ==> (eng0[j] ==> #[trigger] engaged@[j]),
                            eng0.len() == engaged@.len(),
                            forall|j: int| sm.start <= j < q2 ==> #[trigger] engaged@[j],
                        decreases sm.end - q2,
                    {
                        engaged.set(q2, true);
                        q2 = q2 + 1;
                    }
                    proof {
                        assert(span_done(sp@, engaged@, widths@, sm));
                        assert forall|j: int| 0 <= j < sp@.len() implies #[trigger] sp@[j]
                            >= sp0[j] by {}
                        assert forall|t2: int|
                            0 <= t2 < nm && (msgs@[t2].end - msgs@[t2].start < span || (
                            msgs@[t2].end - msgs@[t2].start == span && t2 < t + 1)) implies span_done(
                            sp@,
                            engaged@,
                            widths@,
                            #[trigger] msgs@[t2],
                        ) by {
                            if t2 != t {
                                lemma_seg_sum_mono(
                                    sp0,
                                    sp@,
                                    msgs@[t2].start as int,
                                    msgs@[t2].end as int,
                                );
                            }
                        }
                    }
                }
            } else {
                proof {
                    assert(sp@ == sp0);
                    assert(engaged@ == eng0);
                }
            }
            t = t + 1;
        }
        span = span + 1;
    }
    proof {
        assert forall|t2: int| 0 <= t2 < nm implies span_done(
            sp@,
            engaged@,
            widths@,
            #[trigger] msgs@[t2],
        ) by {
            assert(span_msg_ok(msgs@[t2], n as int));
        }
    }
    let ghost sp_fin = sp@;
    let ghost eng_fin = engaged@;
    let mut out: Vec<i64> = Vec::new();
    let mut j: usize = 0;
    while j < sp.len()
        invariant
            j <= sp@.len(),
            out@.len() == j,
            engaged@.len() == sp@.len(),
            sp@ == sp_fin,
            engaged@ == eng_fin,
            cfg.wf(),
            forall|q: int| 0 <= q < sp@.len() ==> 8 <= #[trigger] sp@[q] <= 0x100_0000_0000,
            forall|q: int| 0 <= q < sp@.len() ==> #[trigger] sp@[q] >= cfg.min_spacing,
            forall|q: int| 0 <= q < j ==> 8 <= #[trigger] out@[q] <= 0x100_0000_0000,
            forall|q: int|
                0 <= q < j ==> #[trigger] out@[q] >= spec_imin(cfg.min_spacing as int, 30),
            forall|q: int| 0 <= q < j ==> (eng_fin[q] ==> #[trigger] out@[q] == sp_fin[q]),
        decreases sp@.len() - j,
    {
        if engaged[j] {
            out.push(sp[j]);
        } else {
            out.push(imax(imin(sp[j], 30), 8));
        }
        j = j + 1;
    }
    proof {
        assert forall|t2: int|
            0 <= t2 < spans.len() implies arrow_room(out@, widths@, #[trigger] spans[t2])
            >= spans[t2].width + 20 by {
            assert(span_done(sp_fin, eng_fin, widths@, spans[t2]));
            assert forall|q: int|
                spans[t2].start <= q < spans[t2].end implies #[trigger] out@[q] == sp_fin[q] by {
                assert(eng_fin[q]);
            }
            lemma_seg_sum_eq(sp_fin, out@, spans[t2].start as int, spans[t2].end as int);
        }
    }
    out
}

/// Whether the diagram uses autonumbering at the top level.
fn diagram_has_autonumber(d: &SequenceDiagram) -> (r: bool)
    ensures
        r == has_autonumber_spec(d.elements@),
{
    let n = d.elements.len();
    let mut i: usize = 0;
    while i < n
        invariant
            i <= n,
            n == d.elements@.len(),
            !has_autonumber_spec(d.elements@.take(i as int)),
        decreases n - i,
    {
        proof {
            assert(d.elements@.take(i + 1).drop_last() =~= d.elements@.take(i as int));
            assert(d.elements@.take(i + 1).last() == d.elements@[i as int]);
        }
        match &d.elements[i] {
            SequenceElement::Autonumber(cmd) => {
                match cmd {
                    AutonumberCommand::Start(_) => {
                        return true;
                    },
                    AutonumberCommand::Resume(_) => {
                        return true;
                    },
                    _ => {
                    },
                }
            },
            _ => {
            },
        }
        proof {
            if has_autonumber_spec(d.elements@.take(i + 1)) {
                let w = choose|w: int|
                    0 <= w < d.elements@.take(i + 1).len() && match #[trigger] d.elements@.take(
                        i + 1,
                    )[w] {
                        SequenceElement::Autonumber(c) => c is Start || c is Resume,
                        _ => false,
                    };
                assert(d.elements@.take(i + 1)[w] == d.elements@[w]);
                assert(false);
            }
        }
        i = i + 1;
    }
    proof {
        assert(d.elements@.take(n as int) =~= d.elements@);
    }
    false
}

/// The header widths of the participants, from their display names.
pub open spec fn part_widths(cfg: SequenceLayoutConfig, displays: Seq<String>) -> Seq<i64> {
    Seq::new(displays.len(), |k: int| cfg.spec_participant_width(displays[k]@) as i64)
}

/// Whether any box carries a title.
pub open spec fn boxes_have_title(bs: Seq<crate::ast::ParticipantBox>) -> bool {
    exists|i: int| 0 <= i < bs.len() && (#[trigger] bs[i]).title is Some
}

/// How the participants were placed: consecutive headers are separated by
/// the gap vector, which satisfies the packing law for every message span
/// and never falls below the small minimum.
pub open spec fn placed_with_gaps(
    cfg: SequenceLayoutConfig,
    d: SequenceDiagram,
    names: Seq<Seq<char>>,
    displays: Seq<String>,
    parts: Seq<crate::seq_metrics::ParticipantMetrics>,
    gaps: Seq<i64>,
) -> bool {
    &&& parts.len() >= 1 ==> gaps.len() == parts.len() - 1
    &&& forall|j: int|
        0 <= j < gaps.len() ==> #[trigger] gaps[j] >= spec_imin(cfg.min_spacing as int, 30)
    &&& spacing_law(
        gaps,
        part_widths(cfg, displays),
        els_spans(
            cfg,
            names,
            d.elements@,
            if has_autonumber_spec(d.elements@) {
                45int
            } else {
                0int
            },
        ),
    )
    &&& forall|j: int|
        0 <= j && j + 1 < parts.len() ==> ((#[trigger] parts[j + 1]).x == 0x2000_0000_0000
            || parts[j + 1].x == parts[j].x + parts[j].width + gaps[j])
}

/// Places the participant headers left to right and fills the metrics.
/// Returns the header elements and the header row's y.
fn place_participants(
    cfg: &SequenceLayoutConfig,
    d: &SequenceDiagram,
    m: &mut DiagramMetrics,
    displays: &Vec<String>,
    ptypes: &Vec<ParticipantType>,
) -> (r: (Vec<LayoutElement>, i64))
    requires
        old(m).wf(),
        cfg.wf(),
        seq_diagram_wf(*d),
        old(m).parts@.len() == 0,
        old(m).names.names().len() <= 3 * MAX_ITEMS,
        old(m).current_y == 0,
        old(m).opens@.len() == 0,
        old(m).completed@.len() == 0,
        old(m).calls@.len() == 0,
        displays@.len() == old(m).names.names().len(),
        ptypes@.len() == old(m).names.names().len(),
        forall|k: int| 0 <= k < displays@.len() ==> (#[trigger] displays@[k])@.len() <= MAX_TEXT,
    ensures
        final(m).wf(),
        final(m).names == old(m).names,
        final(m).parts@.len() == final(m).names.names().len(),
        final(m).current_y == 0,
        final(m).opens@ == old(m).opens@,
        final(m).completed@ == old(m).completed@,
        final(m).calls@ == old(m).calls@,
        final(m).auto == old(m).auto,
        r.0@.len() == final(m).names.names().len(),
        forall|k: int|
            0 <= k < r.0@.len() ==> {
                let h = #[trigger] r.0@[k];
                &&& h.id@ == "participant_"@ + final(m).names.names()[k]
                &&& out_el_wf(h)
                &&& h.bounds == (Rect {
                    x: final(m).parts@[k].x,
                    y: r.1,
                    width: final(m).parts@[k].width,
                    height: cfg.participant_height,
                })
                &&& match h.element_type {
                    ElementType::Ellipse { label } => label matches Some(l) && l@ == displays@[k]@,
                    ElementType::Rectangle { label, .. } => label@ == displays@[k]@,
                    _ => false,
                }
            },
        8 <= r.1 <= 8192,
        forall|k: int|
            0 <= k < final(m).parts@.len() ==> (#[trigger] final(m).parts@[k]).header_y == r.1,
        final(m).parts@.len() > 0 ==> final(m).parts@[0int].x == cfg.margin,
        forall|k: int|
            0 <= k && k + 1 < final(m).parts@.len() ==> ((#[trigger] final(m).parts@[k + 1]).x
                == 0x2000_0000_0000 || final(m).parts@[k].x + final(m).parts@[k].width + 8
                <= final(m).parts@[k + 1].x),
        forall|k: int|
            0 <= k < final(m).parts@.len() ==> (#[trigger] final(m).parts@[k]).display_name@
                == displays@[k]@,
        r.1 == cfg.margin + if boxes_have_title(d.boxes@) {
            cfg.box_title_height as int
        } else {
            0int
        },
        forall|k: int|
            0 <= k < final(m).parts@.len() ==> (#[trigger] final(m).parts@[k]).width
                == cfg.spec_participant_width(displays@[k]@),
        exists|gaps: Seq<i64>|
            placed_with_gaps(
                *cfg,
                *d,
                final(m).names.names(),
                displays@,
                final(m).parts@,
                gaps,
            ),
    decreases 0int,
{
    let n = m.names.len();
    let mut widths: Vec<i64> = Vec::new();
    let mut k: usize = 0;
    while k < n
        invariant
            k <= n,
            widths@.len() == k,
            cfg.wf(),
            displays@.len() == n,
            forall|j: int| 0 <= j < displays@.len() ==> (#[trigger] displays@[j])@.len() <= MAX_TEXT,
            forall|j: int| 0 <= j < k ==> 0 < #[trigger] widths@[j] <= MAX_TEXT * 4096 + 8192,
            forall|j: int|
                0 <= j < k ==> #[trigger] widths@[j] == cfg.spec_participant_width(
                    displays@[j]@,
                ),
        decreases n - k,
    {
        let w = cfg.participant_width_for_name(displays[k].as_str());
        widths.push(w);
        k = k + 1;
    }
    let sp = compute_spacing(cfg, d, m, &widths);
    let mut has_titles = false;
    let nb = d.boxes.len();
    let mut bi: usize = 0;
    while bi < nb
        invariant
            bi <= nb,
            nb == d.boxes@.len(),
            has_titles == exists|q: int|
                0 <= q < bi && (#[trigger] d.boxes@[q]).title is Some,
        decreases nb - bi,
    {
        match &d.boxes[bi].title {
            Some(_) => {
                has_titles = true;
            },
            None => {
            },
        }
        bi = bi + 1;
    }
    proof {
        assert(has_titles == boxes_have_title(d.boxes@));
    }
    let part_y = if has_titles {
        cfg.margin + cfg.box_title_height
    } else {
        cfg.margin
    };
    let mut headers: Vec<LayoutElement> = Vec::new();
    let mut parts: Vec<ParticipantMetrics> = Vec::new();
    let mut x: i64 = cfg.margin;
    let mut xr: i64 = cfg.margin;
    let mut i: usize = 0;
    while i < n
        invariant
            i <= n,
            n == m.names.names().len(),
            m.wf(),
            *m == *old(m),
            cfg.wf(),
            widths@.len() == n,
            displays@.len() == n,
            ptypes@.len() == n,
            n >= 1 ==> sp@.len() == n - 1,
            parts@.len() == i,
            headers@.len() == i,
            8 <= part_y <= 8192,
            cfg.margin <= x <= 0x2000_0000_0000,
            cfg.margin <= xr <= 0x2000_2000_0000,
            i == 0 ==> x == cfg.margin,
            i >= 1 ==> parts@[0int].x == cfg.margin,
            1 <= i && i < n ==> (x == 0x2000_0000_0000 || parts@[i - 1].x + parts@[i - 1].width
                + 8 <= x),
            forall|j: int| 0 <= j < n ==> 0 < #[trigger] widths@[j] <= MAX_TEXT * 4096 + 8192,
            forall|j: int| 0 <= j < sp@.len() ==> 8 <= #[trigger] sp@[j] <= 0x100_0000_0000,
            forall|j: int| 0 <= j < displays@.len() ==> (#[trigger] displays@[j])@.len() <= MAX_TEXT,
            forall|j: int|
                0 <= j < i ==> {
                    let p = #[trigger] parts@[j];
                    &&& 0 <= p.x
                    &&& 0 < p.width <= MAX_TEXT * 4096 + 8192
                    &&& p.center_x == p.x + p.width / 2
                    &&& p.x + p.width <= xr
                    &&& p.header_y == part_y
                    &&& p.display_name@.len() <= MAX_TEXT
                    &&& p.display_name@ == displays@[j]@
                },
            forall|j: int|
                0 <= j && j + 1 < i ==> ((#[trigger] parts@[j + 1]).x == 0x2000_0000_0000
                    || parts@[j].x + parts@[j].width + 8 <= parts@[j + 1].x),
            forall|j: int|
                0 <= j && j + 1 < i ==> ((#[trigger] parts@[j + 1]).x == 0x2000_0000_0000
                    || parts@[j + 1].x == parts@[j].x + parts@[j].width + sp@[j]),
            1 <= i && i < n ==> (x == 0x2000_0000_0000 || x == parts@[i - 1].x + parts@[i
                - 1].width + sp@[i - 1]),
            forall|j: int| 0 <= j < i ==> (#[trigger] parts@[j]).width == widths@[j],
            forall|j: int|
                0 <= j < n ==> #[trigger] widths@[j] == cfg.spec_participant_width(
                    displays@[j]@,
                ),
            forall|j: int| 0 <= j < i ==> (#[trigger] parts@[j]).x <= x,
            forall|j: int|
                0 <= j < i ==> {
                    let h = #[trigger] headers@[j];
                    &&& h.id@ == "participant_"@ + m.names.names()[j]
                    &&& out_el_wf(h)
                    &&& h.bounds == (Rect {
                        x: parts@[j].x,
                        y: part_y,
                        width: parts@[j].width,
                        height: cfg.participant_height,
                    })
                    &&& match h.element_type {
                        ElementType::Ellipse { label } => label matches Some(l) && l@
                            == displays@[j]@,
                        ElementType::Rectangle { label, .. } => label@ == displays@[j]@,
                        _ => false,
                    }
                },
        decreases n - i,
    {
        let ghost x0 = x;
        let ghost parts0 = parts@;
        let w = widths[i];
        let name = m.names.name_at(i);
        let mut id = String::from_str("participant_");
        id.append(name.as_str());
        let bounds = Rect::new(x, part_y, w, cfg.participant_height);
        let etype: ElementType = match ptypes[i] {
            ParticipantType::Actor => ElementType::Ellipse {
                label: Some(displays[i].clone()),
            },
            ParticipantType::Database => ElementType::Rectangle {
                label: displays[i].clone(),
                corner_radius: 10,
            },
            _ => ElementType::Rectangle { label: displays[i].clone(), corner_radius: 2 },
        };
        let h = LayoutElement {
            id,
            bounds,
            text: None,
            properties: Props::new(),
            element_type: etype,
        };
        headers.push(h);
        parts.push(
            ParticipantMetrics {
                display_name: displays[i].clone(),
                x,
                width: w,
                center_x: x + w / 2,
                header_y: part_y,
            },
        );
        xr = imax(xr, x + w);
        let gap: i64 = if i + 1 < n {
            sp[i]
        } else {
            0
        };
        let step = w + gap;
        x = if x >= 0x2000_0000_0000 - step {
            0x2000_0000_0000
        } else {
            x + step
        };
        proof {
            assert(parts@[i as int].x == x0);
            assert forall|j: int|
                0 <= j && j + 1 < i + 1 implies ((#[trigger] parts@[j + 1]).x == 0x2000_0000_0000
                || parts@[j].x + parts@[j].width + 8 <= parts@[j + 1].x) by {
                if j + 1 < i {
                    assert(parts@[j + 1] == parts0[j + 1]);
                    assert(parts@[j] == parts0[j]);
                } else {
                    if i >= 1 {
                        assert(parts@[j] == parts0[j]);
                    }
                }
            }
            assert forall|j: int|
                0 <= j && j + 1 < i + 1 implies ((#[trigger] parts@[j + 1]).x == 0x2000_0000_0000
                || parts@[j + 1].x == parts@[j].x + parts@[j].width + sp@[j]) by {
                if j + 1 < i {
                    assert(parts@[j + 1] == parts0[j + 1]);
                    assert(parts@[j] == parts0[j]);
                } else {
                    if i >= 1 {
                        assert(parts@[j] == parts0[j]);
                    }
                }
            }
        }
        i = i + 1;
    }
    m.parts = parts;
    m.max_x = xr;
    proof {
        let gnames = m.names.names();
        assert(widths@ =~= part_widths(*cfg, displays@));
        assert(placed_with_gaps(*cfg, *d, gnames, displays@, m.parts@, sp@));
    }
    (headers, part_y)
}

/// The completed activations, as white rectangles of the configured width,
/// cascading half a width right per nesting level, at least 10 units tall.
fn emit_activations(cfg: &SequenceLayoutConfig, m: &DiagramMetrics, counter: &mut u64) -> (r: Vec<
    LayoutElement,
>)
    requires
        m.wf(),
        cfg.wf(),
    ensures
        all_neutral(r@),
        r@.len() == m.completed@.len(),
        forall|k: int|
            0 <= k < r@.len() ==> act_desc(#[trigger] r@[k], m.completed@[k], *m, *cfg),
{
    let mut out: Vec<LayoutElement> = Vec::new();
    let n = m.completed.len();
    let mut i: usize = 0;
    while i < n
        invariant
            i <= n,
            n == m.completed@.len(),
            m.wf(),
            cfg.wf(),
            all_neutral(out@),
            out@.len() == i,
            forall|k: int| 0 <= k < i ==> act_desc(#[trigger] out@[k], m.completed@[k], *m, *cfg),
        decreases n - i,
    {
        let c = m.completed[i];
        let p = &m.parts[c.slot];
        let offset = mul_nn(c.level - 1, cfg.activation_width / 2, Ghost(65536), Ghost(2048));
        let x = p.center_x - cfg.activation_width / 2 + offset;
        let height = imax(c.end_y - c.start_y, 10);
        let id = ordinal_id("activation_", counter);
        proof {
            reveal_strlit("activation_");
            assert(id@[0] == 'a');
            lemma_neutral_pref(id@);
        }
        let el = LayoutElement {
            id,
            bounds: Rect::new(x, c.start_y, cfg.activation_width, height),
            text: None,
            properties: Props::new(),
            element_type: ElementType::Activation,
        };
        let ghost before = out@;
        out.push(el);
        proof {
            assert forall|k: int| 0 <= k < out@.len() implies neutral_id(
                (#[trigger] out@[k]).id@,
            ) && act_desc(out@[k], m.completed@[k], *m, *cfg) by {
                if k < before.len() {
                    assert(out@[k] == before[k]);
                } else {
                    assert(out@[k] == el);
                }
            }
        }
        i = i + 1;
    }
    out
}

/// What a completed activation's rectangle looks like: the configured width
/// at the participant's center, shifted half a width right per nesting
/// level, spanning its open time with a minimum height of 10.
pub open spec fn act_desc(
    el: LayoutElement,
    c: CompletedActivation,
    m: DiagramMetrics,
    cfg: SequenceLayoutConfig,
) -> bool {
    &&& out_el_wf(el)
    &&& el.element_type is Activation
    &&& el.bounds == (Rect {
        x: (m.parts@[c.slot as int].center_x - cfg.activation_width / 2 + (c.level - 1) * (
        cfg.activation_width / 2)) as i64,
        y: c.start_y,
        width: cfg.activation_width,
        height: spec_imax(c.end_y - c.start_y, 10) as i64,
    })
}

/// One dashed lifeline per participant: a two-point vertical edge at the
/// participant's center, from its header's bottom to the footer row.
fn emit_lifelines(
    cfg: &SequenceLayoutConfig,
    m: &DiagramMetrics,
    part_y: i64,
    footer_y: i64,
) -> (r: Vec<LayoutElement>)
    requires
        m.wf(),
        cfg.wf(),
        m.parts@.len() == m.names.names().len(),
        8 <= part_y <= 8192,
        part_y + cfg.participant_height < footer_y <= Y_LIM,
        forall|k: int| 0 <= k < m.parts@.len() ==> (#[trigger] m.parts@[k]).header_y == part_y,
    ensures
        r@.len() == m.names.names().len(),
        forall|k: int|
            0 <= k < r@.len() ==> {
                let e = #[trigger] r@[k];
                let cx = m.parts@[k].center_x;
                &&& e.id@ == "lifeline_"@ + m.names.names()[k]
                &&& out_el_wf(e)
                &&& e.bounds == (Rect {
                    x: cx,
                    y: (part_y + cfg.participant_height) as i64,
                    width: 1,
                    height: (footer_y - part_y - cfg.participant_height) as i64,
                })
                &&& match e.element_type {
                    ElementType::Edge { points, label, arrow_start, arrow_end, dashed, .. } => {
                        &&& dashed
                        &&& !arrow_start
                        &&& !arrow_end
                        &&& label is None
                        &&& points@ =~= seq![
                            Point { x: cx, y: (part_y + cfg.participant_height) as i64 },
                            Point { x: cx, y: footer_y },
                        ]
                    },
                    _ => false,
                }
            },
{
    let n = m.parts.len();
    let mut out: Vec<LayoutElement> = Vec::new();
    let mut i: usize = 0;
    while i < n
        invariant
            i <= n,
            n == m.parts@.len(),
            n == m.names.names().len(),
            m.wf(),
            cfg.wf(),
            8 <= part_y <= 8192,
            part_y + cfg.participant_height < footer_y <= Y_LIM,
            forall|k: int| 0 <= k < m.parts@.len() ==> (#[trigger] m.parts@[k]).header_y == part_y,
            out@.len() == i,
            forall|k: int|
                0 <= k < i ==> {
                    let e = #[trigger] out@[k];
                    let cx = m.parts@[k].center_x;
                    &&& e.id@ == "lifeline_"@ + m.names.names()[k]
                    &&& out_el_wf(e)
                    &&& e.bounds == (Rect {
                        x: cx,
                        y: (part_y + cfg.participant_height) as i64,
                        width: 1,
                        height: (footer_y - part_y - cfg.participant_height) as i64,
                    })
                    &&& match e.element_type {
                        ElementType::Edge { points, label, arrow_start, arrow_end, dashed, .. } => {
                            &&& dashed
                            &&& !arrow_start
                            &&& !arrow_end
                            &&& label is None
                            &&& points@ =~= seq![
                                Point { x: cx, y: (part_y + cfg.participant_height) as i64 },
                                Point { x: cx, y: footer_y },
                            ]
                        },
                        _ => false,
                    }
                },
        decreases n - i,
    {
        let p = &m.parts[i];
        let start_y = part_y + cfg.participant_height;
        let cx = p.center_x;
        let mut id = String::from_str("lifeline_");
        let name = m.names.name_at(i);
        id.append(name.as_str());
        let mut points: Vec<Point> = Vec::new();
        points.push(Point::new(cx, start_y));
        points.push(Point::new(cx, footer_y));
        proof {
            assert(points@ =~= seq![
                Point { x: cx, y: start_y },
                Point { x: cx, y: footer_y },
            ]);
        }
        let el = LayoutElement {
            id,
            bounds: Rect::new(cx, start_y, 1, footer_y - start_y),
            text: None,
            properties: Props::new(),
            element_type: ElementType::Edge {
                points,
                label: None,
                arrow_start: false,
                arrow_end: false,
                dashed: true,
                edge_type: EdgeType::Link,
                from_cardinality: None,
                to_cardinality: None,
            },
        };
        out.push(el);
        i = i + 1;
    }
    out
}

/// One footer rectangle per participant at the footer row, with the header's
/// width and display name.
fn emit_footers(cfg: &SequenceLayoutConfig, m: &DiagramMetrics, footer_y: i64) -> (r: Vec<
    LayoutElement,
>)
    requires
        m.wf(),
        cfg.wf(),
        m.parts@.len() == m.names.names().len(),
        0 <= footer_y <= Y_LIM,
    ensures
        r@.len() == m.names.names().len(),
        forall|k: int|
            0 <= k < r@.len() ==> {
                let e = #[trigger] r@[k];
                &&& e.id@ == "footer_"@ + m.names.names()[k]
                &&& out_el_wf(e)
                &&& e.bounds == (Rect {
                    x: m.parts@[k].x,
                    y: footer_y,
                    width: m.parts@[k].width,
                    height: cfg.participant_height,
                })
                &&& match e.element_type {
                    ElementType::Rectangle { label, .. } => label@ == m.parts@[k].display_name@,
                    _ => false,
                }
            },
{
    let n = m.parts.len();
    let mut out: Vec<LayoutElement> = Vec::new();
    let mut i: usize = 0;
    while i < n
        invariant
            i <= n,
            n == m.parts@.len(),
            n == m.names.names().len(),
            m.wf(),
            cfg.wf(),
            0 <= footer_y <= Y_LIM,
            out@.len() == i,
            forall|k: int|
                0 <= k < i ==> {
                    let e = #[trigger] out@[k];
                    &&& e.id@ == "footer_"@ + m.names.names()[k]
                    &&& out_el_wf(e)
                    &&& e.bounds == (Rect {
                        x: m.parts@[k].x,
                        y: footer_y,
                        width: m.parts@[k].width,
                        height: cfg.participant_height,
                    })
                    &&& match e.element_type {
                        ElementType::Rectangle { label, .. } => label@
                            == m.parts@[k].display_name@,
                        _ => false,
                    }
                },
        decreases n - i,
    {
        let p = &m.parts[i];
        let mut id = String::from_str("footer_");
        let name = m.names.name_at(i);
        id.append(name.as_str());
        let el = LayoutElement {
            id,
            bounds: Rect::new(p.x, footer_y, p.width, cfg.participant_height),
            text: None,
            properties: Props::new(),
            element_type: ElementType::Rectangle {
                label: p.display_name.clone(),
                corner_radius: 2,
            },
        };
        out.push(el);
        i = i + 1;
    }
    out
}

/// Whether a box has at least one member among the registered names.
pub open spec fn box_visible(names: Seq<Seq<char>>, b: crate::ast::ParticipantBox) -> bool {
    exists|i: int| 0 <= i < b.participants@.len() && names.contains(#[trigger] b.participants@[i]@)
}

/// How many boxes of the diagram render a background.
pub open spec fn visible_boxes(names: Seq<Seq<char>>, bs: Seq<crate::ast::ParticipantBox>) -> int
    decreases bs,
{
    if bs.len() == 0 {
        0
    } else {
        visible_boxes(names, bs.drop_last()) + if box_visible(names, bs.last()) {
            1int
        } else {
            0int
        }
    }
}

/// The leftmost x over a box's registered members (the x-limit when none).
pub open spec fn members_min_x(
    names: Seq<Seq<char>>,
    parts: Seq<crate::seq_metrics::ParticipantMetrics>,
    ms: Seq<String>,
) -> int
    decreases ms,
{
    if ms.len() == 0 {
        X_LIM as int
    } else {
        let rest = members_min_x(names, parts, ms.drop_last());
        let sl = slot_of(names, ms.last()@);
        if sl >= 0 {
            spec_imin(rest, parts[sl].x as int)
        } else {
            rest
        }
    }
}

/// The rightmost edge over a box's registered members (`-1` when none).
pub open spec fn members_max_r(
    names: Seq<Seq<char>>,
    parts: Seq<crate::seq_metrics::ParticipantMetrics>,
    ms: Seq<String>,
) -> int
    decreases ms,
{
    if ms.len() == 0 {
        -1
    } else {
        let rest = members_max_r(names, parts, ms.drop_last());
        let sl = slot_of(names, ms.last()@);
        if sl >= 0 {
            spec_imax(rest, parts[sl].x + parts[sl].width)
        } else {
            rest
        }
    }
}

/// What a box background looks like: its members' outer edges widened by 10
/// on each side, the full diagram height less a 5-unit margin, the box title
/// copied into the element's text and `title` property, and the box color
/// stored as a `#rrggbb` string under `color`.
pub open spec fn box_bg_desc(
    el: LayoutElement,
    b: crate::ast::ParticipantBox,
    names: Seq<Seq<char>>,
    parts: Seq<crate::seq_metrics::ParticipantMetrics>,
    total_height: int,
) -> bool {
    let minl = members_min_x(names, parts, b.participants@);
    let maxr = members_max_r(names, parts, b.participants@);
    &&& el.element_type is ParticipantBox
    &&& el.bounds == (Rect {
        x: (minl - 10) as i64,
        y: 5,
        width: (maxr - minl + 20) as i64,
        height: (total_height - 10) as i64,
    })
    &&& (match el.text {
        Some(t) => (match b.title {
            Some(bt) => t@ == bt@,
            None => false,
        }),
        None => b.title is None,
    })
    &&& (match b.title {
        Some(t) => el.properties.lookup("title"@) == Some(t@),
        None => el.properties.lookup("title"@) is None,
    })
    &&& (match b.color {
        Some(c) => el.properties.lookup("color"@) == Some(
            seq!['#'] + crate::numfmt::byte_hex(c.r as int) + crate::numfmt::byte_hex(c.g as int)
                + crate::numfmt::byte_hex(c.b as int),
        ),
        None => el.properties.lookup("color"@) is None,
    })
}

/// The background rectangles of participant boxes: one per box with a known
/// member, spanning the diagram's full height.
fn emit_boxes(
    cfg: &SequenceLayoutConfig,
    d: &SequenceDiagram,
    m: &DiagramMetrics,
    total_height: i64,
    counter: &mut u64,
) -> (r: Vec<LayoutElement>)
    requires
        m.wf(),
        cfg.wf(),
        seq_diagram_wf(*d),
        m.parts@.len() == m.names.names().len(),
        48 <= total_height <= 2 * Y_LIM,
    ensures
        all_neutral(r@),
        r@.len() == visible_boxes(m.names.names(), d.boxes@),
        forall|i: int|
            0 <= i < r@.len() ==> out_el_wf(#[trigger] r@[i]) && r@[i].element_type
                is ParticipantBox && r@[i].bounds.y == 5 && r@[i].bounds.bottom() == total_height
                - 5,
        forall|bj: int|
            0 <= bj < d.boxes@.len() && box_visible(m.names.names(), #[trigger] d.boxes@[bj])
                ==> {
                let ix = visible_boxes(m.names.names(), d.boxes@.take(bj));
                &&& 0 <= ix < r@.len()
                &&& box_bg_desc(
                    r@[ix],
                    d.boxes@[bj],
                    m.names.names(),
                    m.parts@,
                    total_height as int,
                )
            },
{
    let mut out: Vec<LayoutElement> = Vec::new();
    let nb = d.boxes.len();
    let mut bi: usize = 0;
    while bi < nb
        invariant
            bi <= nb,
            nb == d.boxes@.len(),
            m.wf(),
            cfg.wf(),
            seq_diagram_wf(*d),
            m.parts@.len() == m.names.names().len(),
            48 <= total_height <= 2 * Y_LIM,
            all_neutral(out@),
            out@.len() == visible_boxes(m.names.names(), d.boxes@.take(bi as int)),
            forall|j: int|
                0 <= j < out@.len() ==> out_el_wf(#[trigger] out@[j]) && out@[j].element_type
                    is ParticipantBox && out@[j].bounds.y == 5 && out@[j].bounds.bottom()
                    == total_height - 5,
            forall|bj: int|
                0 <= bj < bi && box_visible(m.names.names(), #[trigger] d.boxes@[bj]) ==> {
                    let ix = visible_boxes(m.names.names(), d.boxes@.take(bj));
                    &&& 0 <= ix < out@.len()
                    &&& box_bg_desc(
                        out@[ix],
                        d.boxes@[bj],
                        m.names.names(),
                        m.parts@,
                        total_height as int,
                    )
                },
        decreases nb - bi,
    {
        proof {
            assert(crate::ast::box_wf(d.boxes@[bi as int]));
            assert(d.boxes@.take(bi + 1).drop_last() =~= d.boxes@.take(bi as int));
            assert(d.boxes@.take(bi + 1).last() == d.boxes@[bi as int]);
        }
        let b = &d.boxes[bi];
        let nm = b.participants.len();
        let mut min_l: i64 = X_LIM;
        let mut max_r: i64 = -1;
        let mut mi: usize = 0;
        while mi < nm
            invariant
                mi <= nm,
                nm == b.participants@.len(),
                m.wf(),
                m.parts@.len() == m.names.names().len(),
                max_r >= 0 ==> 0 <= min_l <= max_r <= X_LIM,
                -1 <= max_r,
                (max_r >= 0) == (exists|q: int|
                    0 <= q < mi && m.names.names().contains(#[trigger] b.participants@[q]@)),
                max_r < 0 ==> min_l == X_LIM,
                min_l == members_min_x(m.names.names(), m.parts@, b.participants@.take(mi as int)),
                max_r == members_max_r(m.names.names(), m.parts@, b.participants@.take(mi as int)),
            decreases nm - mi,
        {
            proof {
                assert(b.participants@.take(mi + 1).drop_last() =~= b.participants@.take(
                    mi as int,
                ));
                assert(b.participants@.take(mi + 1).last() == b.participants@[mi as int]);
            }
            match m.names.lookup(b.participants[mi].as_str()) {
                Some(slot) => {
                    let p = &m.parts[slot];
                    min_l = imin(if max_r < 0 {
                        X_LIM
                    } else {
                        min_l
                    }, p.x);
                    max_r = imax(if max_r < 0 {
                        0
                    } else {
                        max_r
                    }, p.x + p.width);
                    proof {
                        assert(m.names.names().contains(b.participants@[mi as int]@));
                        let names = m.names.names();
                        assert forall|p: int, q: int|
                            0 <= p < names.len() && 0 <= q < names.len() && p != q implies names[p]
                            != names[q] by {
                            m.names.lemma_names_distinct(p, q);
                        }
                        lemma_slot_of_unique(names, b.participants@[mi as int]@, slot as int);
                    }
                },
                None => {
                    proof {
                        lemma_slot_of(m.names.names(), b.participants@[mi as int]@);
                    }
                },
            }
            mi = mi + 1;
        }
        proof {
            assert(b.participants@.take(nm as int) =~= b.participants@);
        }
        if max_r >= 0 {
            let mut props = Props::new();
            match &b.title {
                Some(t) => {
                    props.insert(String::from_str("title"), t.clone());
                },
                None => {
                },
            }
            match &b.color {
                Some(c) => {
                    let mut css = String::from_str("#");
                    crate::numfmt::push_byte_hex(&mut css, c.r);
                    crate::numfmt::push_byte_hex(&mut css, c.g);
                    crate::numfmt::push_byte_hex(&mut css, c.b);
                    props.insert(String::from_str("color"), css);
                },
                None => {
                },
            }
            let id = ordinal_id("box_", counter);
            proof {
                reveal_strlit("box_");
                assert(id@[0] == 'b');
                lemma_neutral_pref(id@);
            }
            let title_text: Option<String> = match &b.title {
                Some(t) => Some(t.clone()),
                None => None,
            };
            let el = LayoutElement {
                id,
                bounds: Rect::new(min_l - 10, 5, max_r - min_l + 20, total_height - 10),
                text: title_text,
                properties: props,
                element_type: ElementType::ParticipantBox,
            };
            let ghost before = out@;
            out.push(el);
            proof {
                assert(box_visible(m.names.names(), d.boxes@[bi as int]));
                assert forall|j: int| 0 <= j < out@.len() implies neutral_id(
                    (#[trigger] out@[j]).id@,
                ) && out_el_wf(out@[j]) && out@[j].element_type is ParticipantBox
                    && out@[j].bounds.y == 5 && out@[j].bounds.bottom() == total_height - 5 by {
                    if j < before.len() {
                        assert(out@[j] == before[j]);
                    } else {
                        assert(out@[j] == el);
                    }
                }
                let names = m.names.names();
                let ents = el.properties.entries@;
                reveal_strlit("title");
                reveal_strlit("color");
                reveal_strlit("#");
                assert("#"@ =~= seq!['#']);
                assert("title"@ != "color"@) by {
                    assert("title"@[0] == 't');
                    assert("color"@[0] == 'c');
                }
                match (&b.title, &b.color) {
                    (Some(_), Some(_)) => {
                        assert(ents.len() == 2);
                        assert(ents[0].0@ == "title"@);
                        assert(ents.skip(1) =~= seq![ents[1]]);
                        assert(props_lookup(ents, "title"@) == Some(ents[0].1@));
                        assert(props_lookup(seq![ents[1]], "color"@) == Some(ents[1].1@));
                        assert(props_lookup(ents, "color"@) == Some(ents[1].1@));
                    },
                    (Some(_), None) => {
                        assert(ents.len() == 1);
                        assert(props_lookup(ents, "title"@) == Some(ents[0].1@));
                        assert(ents.skip(1) =~= Seq::<(String, String)>::empty());
                        assert(props_lookup(Seq::<(String, String)>::empty(), "color"@) is None);
                        assert(props_lookup(ents, "color"@) is None);
                    },
                    (None, Some(_)) => {
                        assert(ents.len() == 1);
                        assert(ents[0].0@ == "color"@);
                        assert(ents.skip(1) =~= Seq::<(String, String)>::empty());
                        assert(props_lookup(Seq::<(String, String)>::empty(), "title"@) is None);
                        assert(props_lookup(ents, "title"@) is None);
                        assert(props_lookup(ents, "color"@) == Some(ents[0].1@));
                    },
                    (None, None) => {
                        assert(ents.len() == 0);
                        assert(props_lookup(ents, "title"@) is None);
                        assert(props_lookup(ents, "color"@) is None);
                    },
                }
                match &b.color {
                    Some(c) => {
                        assert(el.properties.lookup("color"@) == Some(
                            seq!['#'] + crate::numfmt::byte_hex(c.r as int) + crate::numfmt::byte_hex(
                                c.g as int,
                            ) + crate::numfmt::byte_hex(c.b as int),
                        ));
                    },
                    None => {
                    },
                }
                assert(box_bg_desc(el, d.boxes@[bi as int], names, m.parts@, total_height as int));
                assert forall|bj: int|
                    0 <= bj < bi + 1 && box_visible(names, #[trigger] d.boxes@[bj]) implies {
                    let ix = visible_boxes(names, d.boxes@.take(bj));
                    &&& 0 <= ix < out@.len()
                    &&& box_bg_desc(out@[ix], d.boxes@[bj], names, m.parts@, total_height as int)
                } by {
                    if bj < bi {
                        let ix = visible_boxes(names, d.boxes@.take(bj));
                        assert(out@[ix] == before[ix]);
                    } else {
                        assert(d.boxes@.take(bj) =~= d.boxes@.take(bi as int));
                        assert(out@[before.len() as int] == el);
                    }
                }
            }
        } else {
            proof {
                if box_visible(m.names.names(), d.boxes@[bi as int]) {
                    let q = choose|q: int|
                        0 <= q < d.boxes@[bi as int].participants@.len()
                            && m.names.names().contains(
                            #[trigger] d.boxes@[bi as int].participants@[q]@,
                        );
                    assert(false);
                }
            }
        }
        bi = bi + 1;
    }
    proof {
        assert(d.boxes@.take(nb as int) =~= d.boxes@);
    }
    out
}

proof fn lemma_decl_snoc(acc: Seq<Seq<char>>, ps: Seq<Participant>)
    requires
        ps.len() > 0,
    ensures
        decl_names(acc, ps) == add_name(decl_names(acc, ps.drop_last()), ps.last().canonical_id()),
    decreases ps,
{
    assert(decl_names(acc, ps) == decl_names(add_name(acc, ps[0].canonical_id()), ps.skip(1)));
    if ps.len() == 1 {
        assert(ps.drop_last() =~= Seq::<Participant>::empty());
        assert(ps.skip(1) =~= Seq::<Participant>::empty());
        assert(decl_names(acc, ps.drop_last()) == acc);
        assert(decl_names(add_name(acc, ps[0].canonical_id()), ps.skip(1)) == add_name(
            acc,
            ps[0].canonical_id(),
        ));
        assert(ps.last() == ps[0]);
    } else {
        lemma_decl_snoc(add_name(acc, ps[0].canonical_id()), ps.skip(1));
        assert(ps.skip(1).drop_last() =~= ps.drop_last().skip(1));
        assert(ps.skip(1).last() == ps.last());
        assert(ps.drop_last()[0] == ps[0]);
        assert(decl_names(acc, ps.drop_last()) == decl_names(
            add_name(acc, ps[0].canonical_id()),
            ps.drop_last().skip(1),
        ));
    }
}

} // verus!
