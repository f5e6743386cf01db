//! Ghost mirror of the sequence AST. Every node is mirrored by a ghost value
//! whose strings are character sequences, and an abstraction function maps
//! each executable node onto its mirror. The parser's contract states that
//! the returned tree abstracts to exactly what the grammar specification
//! derives from the source text.

use vstd::prelude::*;
use crate::ast::ActivationType;
use crate::ast::ArrowType;
use crate::ast::AutonumberCommand;
use crate::ast::Color;
use crate::ast::FragmentSection;
use crate::ast::FragmentType;
use crate::ast::LineStyle;
use crate::ast::Message;
use crate::ast::Note;
use crate::ast::NotePosition;
use crate::ast::Participant;
use crate::ast::ParticipantBox;
use crate::ast::ParticipantType;
use crate::ast::SequenceDiagram;
use crate::ast::SequenceElement;

verus! {

pub ghost struct GPart {
    pub name: Seq<char>,
    pub alias: Option<Seq<char>>,
    pub ptype: ParticipantType,
    pub color: Option<Color>,
    pub order: Option<i32>,
    pub stereo: Option<Seq<char>>,
}

impl GPart {
    /// The canonical id: the alias when present, else the display name.
    pub open spec fn canon(self) -> Seq<char> {
        match self.alias {
            Some(a) => a,
            None => self.name,
        }
    }
}

pub ghost struct GMsg {
    pub from: Seq<char>,
    pub to: Seq<char>,
    pub label: Seq<char>,
    pub line_style: LineStyle,
    pub arrow_type: ArrowType,
    pub activate: bool,
    pub deactivate: bool,
    pub create: bool,
    pub destroy: bool,
    pub color: Option<Color>,
}

pub ghost struct GNote {
    pub position: NotePosition,
    pub anchors: Seq<Seq<char>>,
    pub text: Seq<char>,
}

pub ghost enum GAuto {
    Start { start: Option<u32>, step: Option<u32>, format: Option<Seq<char>> },
    Stop,
    Resume { params: Option<(Option<u32>, Option<u32>, Option<Seq<char>>)> },
    Inc { level: Seq<char> },
}

pub ghost struct GSection {
    pub cond: Option<Seq<char>>,
    pub els: Seq<GEl>,
}

pub ghost enum GEl {
    Msg { m: GMsg },
    Frag { ftype: FragmentType, cond: Option<Seq<char>>, sections: Seq<GSection> },
    NoteEl { n: GNote },
    Act { participant: Seq<char>, kind: ActivationType, color: Option<Color> },
    Div { text: Seq<char> },
    Del { text: Option<Seq<char>> },
    SpaceEl { height: u32 },
    RefEl { text: Seq<char> },
    Auto { cmd: GAuto },
    Ret { label: Option<Seq<char>> },
}

pub ghost struct GBox {
    pub title: Option<Seq<char>>,
    pub color: Option<Color>,
    pub members: Seq<Seq<char>>,
}

pub ghost struct GDiag {
    pub parts: Seq<GPart>,
    pub els: Seq<GEl>,
    pub boxes: Seq<GBox>,
    pub title: Option<Seq<char>>,
}

/// The views of a list of strings.
pub open spec fn str_views(v: Seq<String>) -> Seq<Seq<char>> {
    Seq::new(v.len(), |i: int| v[i]@)
}

pub open spec fn gopt_str(o: Option<String>) -> Option<Seq<char>> {
    match o {
        Some(s) => Some(s@),
        None => None,
    }
}

pub open spec fn gpart_of(p: Participant) -> GPart {
    GPart {
        name: p.id.name@,
        alias: gopt_str(p.id.alias),
        ptype: p.participant_type,
        color: p.color,
        order: p.order,
        stereo: match p.stereotype {
            Some(s) => Some(s.name@),
            None => None,
        },
    }
}

pub open spec fn gmsg_of(m: Message) -> GMsg {
    GMsg {
        from: m.from@,
        to: m.to@,
        label: m.label@,
        line_style: m.line_style,
        arrow_type: m.arrow_type,
        activate: m.activate,
        deactivate: m.deactivate,
        create: m.create,
        destroy: m.destroy,
        color: m.color,
    }
}

pub open spec fn gnote_of(n: Note) -> GNote {
    GNote {
        position: n.position,
        anchors: Seq::new(n.anchors@.len(), |i: int| n.anchors@[i]@),
        text: n.text@,
    }
}

pub open spec fn gauto_of(c: AutonumberCommand) -> GAuto {
    match c {
        AutonumberCommand::Start(p) => GAuto::Start {
            start: p.start,
            step: p.step,
            format: gopt_str(p.format),
        },
        AutonumberCommand::Stop => GAuto::Stop,
        AutonumberCommand::Resume(p) => GAuto::Resume {
            params: match p {
                Some(p) => Some((p.start, p.step, gopt_str(p.format))),
                None => None,
            },
        },
        AutonumberCommand::Inc(s) => GAuto::Inc { level: s@ },
    }
}

pub open spec fn gel_of(e: SequenceElement) -> GEl
    decreases e,
{
    match e {
        SequenceElement::Message(m) => GEl::Msg { m: gmsg_of(m) },
        SequenceElement::Fragment(f) => GEl::Frag {
            ftype: f.fragment_type,
            cond: gopt_str(f.condition),
            sections: gsections_of(f.sections@),
        },
        SequenceElement::Note(n) => GEl::NoteEl { n: gnote_of(n) },
        SequenceElement::Activation(a) => GEl::Act {
            participant: a.participant@,
            kind: a.activation_type,
            color: a.color,
        },
        SequenceElement::Divider(d) => GEl::Div { text: d.text@ },
        SequenceElement::Delay(d) => GEl::Del { text: gopt_str(d.text) },
        SequenceElement::Space(h) => GEl::SpaceEl { height: h },
        SequenceElement::Reference(r) => GEl::RefEl { text: r.text@ },
        SequenceElement::Autonumber(c) => GEl::Auto { cmd: gauto_of(c) },
        SequenceElement::Return(r) => GEl::Ret { label: gopt_str(r.label) },
    }
}

pub open spec fn gsection_of(s: FragmentSection) -> GSection
    decreases s,
{
    GSection { cond: gopt_str(s.condition), els: gels_of(s.elements@) }
}

pub open spec fn gels_of(es: Seq<SequenceElement>) -> Seq<GEl>
    decreases es,
{
    if es.len() == 0 {
        Seq::empty()
    } else {
        seq![gel_of(es[0])] + gels_of(es.skip(1))
    }
}

pub open spec fn gsections_of(ss: Seq<FragmentSection>) -> Seq<GSection>
    decreases ss,
{
    if ss.len() == 0 {
        Seq::empty()
    } else {
        seq![gsection_of(ss[0])] + gsections_of(ss.skip(1))
    }
}

pub open spec fn gbox_of(b: ParticipantBox) -> GBox {
    GBox {
        title: gopt_str(b.title),
        color: b.color,
        members: Seq::new(b.participants@.len(), |i: int| b.participants@[i]@),
    }
}

pub open spec fn gdiag_of(d: SequenceDiagram) -> GDiag {
    GDiag {
        parts: Seq::new(d.participants@.len(), |i: int| gpart_of(d.participants@[i])),
        els: gels_of(d.elements@),
        boxes: Seq::new(d.boxes@.len(), |i: int| gbox_of(d.boxes@[i])),
        title: gopt_str(d.metadata.title),
    }
}

pub open spec fn gtext_wf(s: Seq<char>) -> bool {
    s.len() <= crate::ast::MAX_TEXT
}

pub open spec fn gopt_wf(s: Option<Seq<char>>) -> bool {
    match s {
        Some(t) => gtext_wf(t),
        None => true,
    }
}

pub open spec fn gnote_wf(n: GNote) -> bool {
    &&& gtext_wf(n.text)
    &&& n.anchors.len() <= crate::ast::MAX_ITEMS
    &&& forall|i: int| 0 <= i < n.anchors.len() ==> gtext_wf(#[trigger] n.anchors[i])
}

pub open spec fn gauto_wf(c: GAuto) -> bool {
    match c {
        GAuto::Start { format, .. } => gopt_wf(format),
        GAuto::Resume { params } => match params {
            Some(p) => gopt_wf(p.2),
            None => true,
        },
        GAuto::Inc { level } => gtext_wf(level),
        GAuto::Stop => true,
    }
}

pub open spec fn gel_wf(e: GEl) -> bool
    decreases e,
{
    match e {
        GEl::Msg { m } => gtext_wf(m.from) && gtext_wf(m.to) && gtext_wf(m.label),
        GEl::Frag { cond, sections, .. } => {
            &&& sections.len() >= 1
            &&& gopt_wf(cond)
            &&& gsections_wf(sections)
        },
        GEl::NoteEl { n } => gnote_wf(n),
        GEl::Act { participant, .. } => gtext_wf(participant),
        GEl::Div { text } => gtext_wf(text),
        GEl::Del { text } => gopt_wf(text),
        GEl::SpaceEl { .. } => true,
        GEl::RefEl { text } => gtext_wf(text),
        GEl::Auto { cmd } => gauto_wf(cmd),
        GEl::Ret { label } => gopt_wf(label),
    }
}

pub open spec fn gsection_wf(s: GSection) -> bool
    decreases s,
{
    gopt_wf(s.cond) && gels_wf(s.els)
}

pub open spec fn gels_wf(es: Seq<GEl>) -> bool
    decreases es,
{
    if es.len() == 0 {
        true
    } else {
        gel_wf(es[0]) && gels_wf(es.skip(1))
    }
}

pub open spec fn gsections_wf(ss: Seq<GSection>) -> bool
    decreases ss,
{
    if ss.len() == 0 {
        true
    } else {
        gsection_wf(ss[0]) && gsections_wf(ss.skip(1))
    }
}

pub open spec fn gel_size(e: GEl) -> int
    decreases e,
{
    match e {
        GEl::Frag { sections, .. } => 2 + gsections_size(sections),
        GEl::SpaceEl { height } => 1 + height as int,
        _ => 1,
    }
}

pub open spec fn gsections_size(ss: Seq<GSection>) -> int
    decreases ss,
{
    if ss.len() == 0 {
        0
    } else {
        1 + gels_size(ss[0].els) + gsections_size(ss.skip(1))
    }
}

pub open spec fn gels_size(es: Seq<GEl>) -> int
    decreases es,
{
    if es.len() == 0 {
        0
    } else {
        gel_size(es[0]) + gels_size(es.skip(1))
    }
}

pub open spec fn gpart_wf(p: GPart) -> bool {
    gtext_wf(p.name) && gopt_wf(p.alias)
}

pub open spec fn gbox_wf(b: GBox) -> bool {
    &&& gopt_wf(b.title)
    &&& b.members.len() <= crate::ast::MAX_ITEMS
    &&& forall|i: int| 0 <= i < b.members.len() ==> gtext_wf(#[trigger] b.members[i])
}

/// Machine-limit well-formedness on the ghost mirror, matching
/// `seq_diagram_wf` on the executable tree.
pub open spec fn gdiag_wf(d: GDiag) -> bool {
    &&& d.parts.len() <= crate::ast::MAX_ITEMS
    &&& forall|i: int| 0 <= i < d.parts.len() ==> gpart_wf(#[trigger] d.parts[i])
    &&& d.boxes.len() <= crate::ast::MAX_ITEMS
    &&& forall|i: int| 0 <= i < d.boxes.len() ==> gbox_wf(#[trigger] d.boxes[i])
    &&& gels_size(d.els) <= crate::ast::MAX_ITEMS
    &&& gels_wf(d.els)
    &&& gopt_wf(d.title)
}

/// Abstraction preserves well-formedness and size, element by element.
pub proof fn lemma_el_abs(e: SequenceElement)
    ensures
        crate::ast::el_wf(e) == gel_wf(gel_of(e)),
        crate::ast::el_size(e) == gel_size(gel_of(e)),
    decreases e, 1int,
{
    match e {
        SequenceElement::Fragment(f) => {
            lemma_sections_abs(f.sections@);
            lemma_gsections_of_len(f.sections@);
        },
        SequenceElement::Note(n) => {
            let gn = gnote_of(n);
            assert(gn.anchors.len() == n.anchors@.len());
            assert forall|i: int|
                0 <= i < n.anchors@.len() implies (crate::ast::text_wf(#[trigger] n.anchors@[i]@)
                == gtext_wf(gn.anchors[i])) by {
                assert(gn.anchors[i] == n.anchors@[i]@);
            }
            if crate::ast::note_wf(n) {
                assert forall|i: int| 0 <= i < gn.anchors.len() implies gtext_wf(
                    #[trigger] gn.anchors[i],
                ) by {
                    assert(crate::ast::text_wf(n.anchors@[i]@));
                }
            }
            if gnote_wf(gn) {
                assert forall|i: int| 0 <= i < n.anchors@.len() implies crate::ast::text_wf(
                    #[trigger] n.anchors@[i]@,
                ) by {
                    assert(gtext_wf(gn.anchors[i]));
                }
            }
        },
        _ => {},
    }
}

pub proof fn lemma_els_abs(es: Seq<SequenceElement>)
    ensures
        crate::ast::els_wf(es) == gels_wf(gels_of(es)),
        crate::ast::els_size(es) == gels_size(gels_of(es)),
    decreases es, 0int,
{
    lemma_gels_of_len(es);
    if es.len() > 0 {
        lemma_el_abs(es[0]);
        lemma_els_abs(es.skip(1));
        assert(gels_of(es)[0] == gel_of(es[0]));
        assert(gels_of(es).skip(1) =~= gels_of(es.skip(1)));
    }
}

pub proof fn lemma_sections_abs(ss: Seq<FragmentSection>)
    ensures
        crate::ast::sections_wf(ss) == gsections_wf(gsections_of(ss)),
        crate::ast::sections_size(ss) == gsections_size(gsections_of(ss)),
    decreases ss, 2int,
{
    lemma_gsections_of_len(ss);
    if ss.len() > 0 {
        lemma_els_abs(ss[0].elements@);
        lemma_sections_abs(ss.skip(1));
        assert(gsections_of(ss)[0] == gsection_of(ss[0]));
        assert(gsections_of(ss).skip(1) =~= gsections_of(ss.skip(1)));
        assert(crate::ast::section_wf(ss[0]) == gsection_wf(gsection_of(ss[0])));
        assert(crate::ast::sections_wf(ss) == (crate::ast::section_wf(ss[0])
            && crate::ast::sections_wf(ss.skip(1))));
        assert(gsections_wf(gsections_of(ss)) == (gsection_wf(gsections_of(ss)[0])
            && gsections_wf(gsections_of(ss).skip(1))));
        assert(crate::ast::sections_size(ss) == 1 + crate::ast::els_size(ss[0].elements@)
            + crate::ast::sections_size(ss.skip(1)));
        assert(gsections_size(gsections_of(ss)) == 1 + gels_size(gsections_of(ss)[0].els)
            + gsections_size(gsections_of(ss).skip(1)));
    }
}

/// Abstraction preserves well-formedness of a whole diagram.
pub proof fn lemma_diag_abs(d: SequenceDiagram)
    ensures
        crate::ast::seq_diagram_wf(d) == gdiag_wf(gdiag_of(d)),
{
    lemma_els_abs(d.elements@);
    let gd = gdiag_of(d);
    assert(gd.parts.len() == d.participants@.len());
    assert forall|i: int| 0 <= i < d.participants@.len() implies (crate::ast::participant_wf(
        #[trigger] d.participants@[i],
    ) == gpart_wf(gd.parts[i])) by {
        assert(gd.parts[i] == gpart_of(d.participants@[i]));
    }
    assert forall|i: int| 0 <= i < d.boxes@.len() implies (crate::ast::box_wf(
        #[trigger] d.boxes@[i],
    ) == gbox_wf(gd.boxes[i])) by {
        assert(gd.boxes[i] == gbox_of(d.boxes@[i]));
        let b = d.boxes@[i];
        let gb = gbox_of(b);
        assert(gb.members.len() == b.participants@.len());
        assert forall|k: int| 0 <= k < b.participants@.len() implies (crate::ast::text_wf(
            #[trigger] b.participants@[k]@,
        ) == gtext_wf(gb.members[k])) by {
            assert(gb.members[k] == b.participants@[k]@);
        }
        if crate::ast::box_wf(b) {
            assert(gbox_wf(gb));
        }
        if gbox_wf(gb) {
            assert forall|k: int|
                0 <= k < b.participants@.len() implies crate::ast::text_wf(
                #[trigger] b.participants@[k]@,
            ) by {
                assert(gtext_wf(gb.members[k]));
            }
        }
    }
    if crate::ast::seq_diagram_wf(d) {
        assert forall|i: int| 0 <= i < gd.parts.len() implies gpart_wf(#[trigger] gd.parts[i]) by {
            assert(crate::ast::participant_wf(d.participants@[i]));
        }
        assert forall|i: int| 0 <= i < gd.boxes.len() implies gbox_wf(#[trigger] gd.boxes[i]) by {
            assert(crate::ast::box_wf(d.boxes@[i]));
        }
    }
    if gdiag_wf(gd) {
        assert forall|i: int|
            0 <= i < d.participants@.len() implies crate::ast::participant_wf(
            #[trigger] d.participants@[i],
        ) by {
            assert(gpart_wf(gd.parts[i]));
        }
        assert forall|i: int| 0 <= i < d.boxes@.len() implies crate::ast::box_wf(
            #[trigger] d.boxes@[i],
        ) by {
            assert(gbox_wf(gd.boxes[i]));
        }
    }
}

pub broadcast proof fn lemma_gels_of_len(es: Seq<SequenceElement>)
    ensures
        (#[trigger] gels_of(es)).len() == es.len(),
        forall|i: int| 0 <= i < es.len() ==> gels_of(es)[i] == gel_of(#[trigger] es[i]),
    decreases es,
{
    if es.len() > 0 {
        lemma_gels_of_len(es.skip(1));
        assert forall|i: int| 0 <= i < es.len() implies gels_of(es)[i] == gel_of(#[trigger] es[i]) by {
            if i > 0 {
                assert(es.skip(1)[i - 1] == es[i]);
            }
        }
    }
}

pub broadcast proof fn lemma_gsections_of_len(ss: Seq<FragmentSection>)
    ensures
        (#[trigger] gsections_of(ss)).len() == ss.len(),
        forall|i: int| 0 <= i < ss.len() ==> gsections_of(ss)[i] == gsection_of(#[trigger] ss[i]),
    decreases ss,
{
    if ss.len() > 0 {
        lemma_gsections_of_len(ss.skip(1));
        assert forall|i: int|
            0 <= i < ss.len() implies gsections_of(ss)[i] == gsection_of(#[trigger] ss[i]) by {
            if i > 0 {
                assert(ss.skip(1)[i - 1] == ss[i]);
            }
        }
    }
}

pub proof fn lemma_gels_of_push(es: Seq<SequenceElement>, e: SequenceElement)
    ensures
        gels_of(es.push(e)) == gels_of(es).push(gel_of(e)),
    decreases es,
{
    if es.len() == 0 {
        assert(es.push(e)[0] == e);
        assert(es.push(e).skip(1) =~= Seq::<SequenceElement>::empty());
        assert(gels_of(es.push(e)) == seq![gel_of(e)] + gels_of(Seq::<SequenceElement>::empty()));
        assert(gels_of(es) == Seq::<GEl>::empty());
        assert(gels_of(es.push(e)) =~= gels_of(es).push(gel_of(e)));
    } else {
        assert(es.push(e).skip(1) =~= es.skip(1).push(e));
        assert(es.push(e)[0] == es[0]);
        lemma_gels_of_push(es.skip(1), e);
        assert(gels_of(es.push(e)) == seq![gel_of(es[0])] + gels_of(es.skip(1)).push(gel_of(e)));
        assert((seq![gel_of(es[0])] + gels_of(es.skip(1))).push(gel_of(e)) =~= seq![
            gel_of(es[0]),
        ] + gels_of(es.skip(1)).push(gel_of(e)));
        assert(gels_of(es.push(e)) =~= gels_of(es).push(gel_of(e)));
    }
}

pub proof fn lemma_gsections_of_push(ss: Seq<FragmentSection>, s: FragmentSection)
    ensures
        gsections_of(ss.push(s)) == gsections_of(ss).push(gsection_of(s)),
    decreases ss,
{
    if ss.len() == 0 {
        assert(ss.push(s)[0] == s);
        assert(ss.push(s).skip(1) =~= Seq::<FragmentSection>::empty());
        assert(gsections_of(ss.push(s)) == seq![gsection_of(s)] + gsections_of(
            Seq::<FragmentSection>::empty(),
        ));
        assert(gsections_of(ss) == Seq::<GSection>::empty());
        assert(gsections_of(ss.push(s)) =~= gsections_of(ss).push(gsection_of(s)));
    } else {
        assert(ss.push(s).skip(1) =~= ss.skip(1).push(s));
        assert(ss.push(s)[0] == ss[0]);
        lemma_gsections_of_push(ss.skip(1), s);
        assert(gsections_of(ss.push(s)) == seq![gsection_of(ss[0])] + gsections_of(
            ss.skip(1),
        ).push(gsection_of(s)));
        assert((seq![gsection_of(ss[0])] + gsections_of(ss.skip(1))).push(gsection_of(s)) =~= seq![
            gsection_of(ss[0]),
        ] + gsections_of(ss.skip(1)).push(gsection_of(s)));
        assert(gsections_of(ss.push(s)) =~= gsections_of(ss).push(gsection_of(s)));
    }
}

} // verus!
