//! Library-wide laws, stated over the output model. Together with the
//! contracts of `parse_sequence` and the layout engines they pin down what
//! every rendering run guarantees.

use vstd::prelude::*;
use crate::geom::Rect;
use crate::seq_config::SequenceLayoutConfig;
use crate::model::ElementType;
use crate::model::LayoutElement;
use crate::seq_engine::lemma_out_els_wf_index;
use crate::seq_engine::out_el_wf;
use crate::seq_engine::out_els_wf;
use crate::seq_engine::out_children_wf;
use crate::seq_engine::out_sections_wf;
use crate::seq_engine::points_ok;

verus! {

/// Every edge of an output-well-formed element list is a polyline of at
/// least two points whose consecutive points are distinct.
pub proof fn lemma_edges_valid(els: Seq<LayoutElement>, i: int)
    requires
        out_els_wf(els),
        0 <= i < els.len(),
    ensures
        match els[i].element_type {
            ElementType::Edge { points, .. } => points_ok(points@),
            _ => true,
        },
        els[i].bounds.is_positive(),
{
    lemma_out_els_wf_index(els);
    assert(out_el_wf(els[i]));
}

/// Every fragment of an output-well-formed element list contains the bounds
/// of every child of every one of its sections, strictly, in the vertical
/// direction, and its sections are ordered.
pub proof fn lemma_fragment_children_contained(els: Seq<LayoutElement>, i: int, s: int, c: int)
    requires
        out_els_wf(els),
        0 <= i < els.len(),
        match els[i].element_type {
            ElementType::Fragment { sections, .. } => {
                &&& 0 <= s < sections@.len()
                &&& 0 <= c < sections@[s].children@.len()
            },
            _ => false,
        },
    ensures
        match els[i].element_type {
            ElementType::Fragment { sections, .. } => {
                let child = sections@[s].children@[c];
                &&& els[i].bounds.y < child.bounds.y
                &&& child.bounds.bottom() < els[i].bounds.bottom()
                &&& (child.element_type is Edge ==> els[i].bounds.x < child.bounds.x
                    && child.bounds.right() < els[i].bounds.right())
                &&& sections@[s].start_y <= sections@[s].end_y
                &&& out_el_wf(child)
            },
            _ => true,
        },
{
    lemma_out_els_wf_index(els);
    assert(out_el_wf(els[i]));
    match els[i].element_type {
        ElementType::Fragment { sections, .. } => {
            lemma_sections_index(sections@, els[i].bounds, s);
            lemma_children_index(sections@[s].children@, els[i].bounds, c);
        },
        _ => {
        },
    }
}

proof fn lemma_sections_index(ss: Seq<crate::model::FragmentSection>, frame: Rect, s: int)
    requires
        out_sections_wf(ss, frame),
        0 <= s < ss.len(),
    ensures
        ss[s].start_y <= ss[s].end_y,
        frame.y <= ss[s].start_y,
        ss[s].end_y <= frame.bottom(),
        out_children_wf(ss[s].children@, frame),
    decreases ss,
{
    if s > 0 {
        assert(ss.skip(1)[s - 1] == ss[s]);
        lemma_sections_index(ss.skip(1), frame, s - 1);
    }
}

proof fn lemma_children_index(cs: Seq<LayoutElement>, frame: Rect, c: int)
    requires
        out_children_wf(cs, frame),
        0 <= c < cs.len(),
    ensures
        frame.y < cs[c].bounds.y,
        cs[c].bounds.bottom() < frame.bottom(),
        cs[c].element_type is Edge ==> frame.x < cs[c].bounds.x && cs[c].bounds.right()
            < frame.right(),
        out_el_wf(cs[c]),
    decreases cs,
{
    if c > 0 {
        assert(cs.skip(1)[c - 1] == cs[c]);
        lemma_children_index(cs.skip(1), frame, c - 1);
    }
}

/// The text metric is monotone: a longer label never reserves less width.
pub proof fn lemma_label_width_monotone(cfg: SequenceLayoutConfig, a: Seq<char>, b: Seq<char>)
    requires
        cfg.wf(),
        a.len() <= b.len(),
    ensures
        cfg.spec_label_width(a) <= cfg.spec_label_width(b),
{
    if a.len() > 0 {
        assert(a.len() * cfg.char_width <= b.len() * cfg.char_width) by (nonlinear_arith)
            requires
                a.len() <= b.len(),
                cfg.char_width >= 0,
        ;
    } else {
        assert(0 <= b.len() * cfg.char_width) by (nonlinear_arith)
            requires
                cfg.char_width >= 0,
        ;
    }
}

} // verus!
