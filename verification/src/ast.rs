//! Abstract syntax tree for sequence diagrams, plus the nodes shared by all
//! diagram families (colors, notes, stereotypes).
//!
//! Nodes are produced once by the parser and are thereafter read-only.
//! Well-formedness (`wf`) bounds every embedded string by [`MAX_TEXT`] and the
//! recursive element count by [`MAX_ITEMS`]; the layout engines rely on those
//! bounds to keep all coordinate arithmetic inside `i64`.

use vstd::prelude::*;

verus! {

/// Upper bound on the length, in characters, of any single name or label.
pub const MAX_TEXT: usize = 4096;

/// Upper bound on the recursive element count of a diagram.
pub const MAX_ITEMS: usize = 65536;

/// An RGB color value.
#[derive(Clone, Copy, Debug, PartialEq, Eq, Structural)]
pub struct Color {
    pub r: u8,
    pub g: u8,
    pub b: u8,
}

impl Color {
    pub fn new(r: u8, g: u8, b: u8) -> (c: Color)
        ensures
            c == (Color { r, g, b }),
    {
        Color { r, g, b }
    }
}

/// How a line is drawn.
#[derive(Clone, Copy, Debug, PartialEq, Eq, Structural)]
pub enum LineStyle {
    Solid,
    Dashed,
    Dotted,
}

/// The head drawn at the target end of a message arrow.
#[derive(Clone, Copy, Debug, PartialEq, Eq, Structural)]
pub enum ArrowType {
    Normal,
    Thin,
    Cross,
    Circle,
    HalfTop,
}

/// A free-form tag rendered between guillemets.
#[derive(Clone, Debug, PartialEq, Eq)]
pub struct Stereotype {
    pub name: String,
}

impl Stereotype {
    pub fn new(name: &str) -> (s: Stereotype)
        ensures
            s.name@ == name@,
    {
        Stereotype { name: name.to_owned() }
    }
}

/// Where a note is anchored relative to its participants.
#[derive(Clone, Copy, Debug, PartialEq, Eq, Structural)]
pub enum NotePosition {
    Left,
    Right,
    Over,
    Top,
    Bottom,
}

/// A note attached to zero or more participants.
#[derive(Clone, Debug, PartialEq, Eq)]
pub struct Note {
    pub position: NotePosition,
    pub anchors: Vec<String>,
    pub text: String,
    pub background_color: Option<Color>,
}

/// What kind of column a participant is rendered as.
#[derive(Clone, Copy, Debug, PartialEq, Eq, Structural)]
pub enum ParticipantType {
    Participant,
    Actor,
    Boundary,
    Control,
    Entity,
    Database,
    Collections,
    Queue,
}

/// A participant's display name and optional alias. When an alias is present
/// it is the participant's canonical id: all later references use the alias.
#[derive(Clone, Debug, PartialEq, Eq)]
pub struct ParticipantId {
    pub name: String,
    pub alias: Option<String>,
}

/// A declared participant.
#[derive(Clone, Debug, PartialEq, Eq)]
pub struct Participant {
    pub id: ParticipantId,
    pub participant_type: ParticipantType,
    pub stereotype: Option<Stereotype>,
    pub color: Option<Color>,
    pub order: Option<i32>,
}

impl Participant {
    /// The canonical id: the alias when present, else the display name.
    pub open spec fn canonical_id(self) -> Seq<char> {
        match self.id.alias {
            Some(a) => a@,
            None => self.id.name@,
        }
    }

    pub fn new(name: &str, participant_type: ParticipantType) -> (p: Participant)
        ensures
            p.id.name@ == name@,
            p.id.alias is None,
            p.participant_type == participant_type,
            p.stereotype is None,
            p.color is None,
            p.order is None,
            p.canonical_id() == name@,
    {
        Participant {
            id: ParticipantId { name: name.to_owned(), alias: None },
            participant_type,
            stereotype: None,
            color: None,
            order: None,
        }
    }

    /// A plain participant with the given display name.
    pub fn as_participant(name: &str) -> (p: Participant)
        ensures
            p.id.name@ == name@,
            p.id.alias is None,
            p.participant_type == ParticipantType::Participant,
            p.stereotype is None,
            p.color is None,
            p.order is None,
            p.canonical_id() == name@,
    {
        Participant::new(name, ParticipantType::Participant)
    }
}

/// A rectangular grouping of participants.
#[derive(Clone, Debug, PartialEq, Eq)]
pub struct ParticipantBox {
    pub title: Option<String>,
    pub color: Option<Color>,
    pub participants: Vec<String>,
}

/// A message between two participants, possibly carrying activation effects.
#[derive(Clone, Debug, PartialEq, Eq)]
pub struct Message {
    pub from: String,
    pub to: String,
    pub label: String,
    pub line_style: LineStyle,
    pub arrow_type: ArrowType,
    pub activate: bool,
    pub deactivate: bool,
    pub create: bool,
    pub destroy: bool,
    pub color: Option<Color>,
}

impl Message {
    pub fn new(from: &str, to: &str, label: &str) -> (m: Message)
        ensures
            m.from@ == from@,
            m.to@ == to@,
            m.label@ == label@,
            m.line_style == LineStyle::Solid,
            m.arrow_type == ArrowType::Normal,
            !m.activate,
            !m.deactivate,
            !m.create,
            !m.destroy,
            m.color is None,
    {
        Message {
            from: from.to_owned(),
            to: to.to_owned(),
            label: label.to_owned(),
            line_style: LineStyle::Solid,
            arrow_type: ArrowType::Normal,
            activate: false,
            deactivate: false,
            create: false,
            destroy: false,
            color: None,
        }
    }
}

/// The framed-region kinds.
#[derive(Clone, Copy, Debug, PartialEq, Eq, Structural)]
pub enum FragmentType {
    Alt,
    Opt,
    Loop,
    Par,
    Break,
    Critical,
    Group,
    Ref,
}

/// One branch of a fragment: an optional condition and its elements.
#[derive(Debug)]
pub struct FragmentSection {
    pub condition: Option<String>,
    pub elements: Vec<SequenceElement>,
}

/// A framed region grouping related elements.
#[derive(Debug)]
pub struct Fragment {
    pub fragment_type: FragmentType,
    pub condition: Option<String>,
    pub sections: Vec<FragmentSection>,
}

/// Explicit activation changes written as their own statements.
#[derive(Clone, Copy, Debug, PartialEq, Eq, Structural)]
pub enum ActivationType {
    Activate,
    Deactivate,
    Destroy,
}

#[derive(Clone, Debug, PartialEq, Eq)]
pub struct Activation {
    pub participant: String,
    pub activation_type: ActivationType,
    pub color: Option<Color>,
}

/// A labeled horizontal rule.
#[derive(Clone, Debug, PartialEq, Eq)]
pub struct Divider {
    pub text: String,
}

/// A dotted gap with an optional label.
#[derive(Clone, Debug, PartialEq, Eq)]
pub struct Delay {
    pub text: Option<String>,
}

/// Parameters of an `autonumber` start or resume.
#[derive(Clone, Debug, PartialEq, Eq)]
pub struct AutonumberStart {
    pub start: Option<u32>,
    pub step: Option<u32>,
    pub format: Option<String>,
}

impl AutonumberStart {
    pub fn new(start: Option<u32>, step: Option<u32>, format: Option<String>) -> (a:
        AutonumberStart)
        ensures
            a == (AutonumberStart { start, step, format }),
    {
        AutonumberStart { start, step, format }
    }
}

impl Default for AutonumberStart {
    fn default() -> (a: AutonumberStart)
        ensures
            a.start is None,
            a.step is None,
            a.format is None,
    {
        AutonumberStart { start: None, step: None, format: None }
    }
}

/// The `autonumber` directives.
#[derive(Clone, Debug, PartialEq, Eq)]
pub enum AutonumberCommand {
    Start(AutonumberStart),
    Stop,
    Resume(Option<AutonumberStart>),
    Inc(String),
}

/// A pseudo-statement that pops the innermost pending call.
#[derive(Clone, Debug, PartialEq, Eq)]
pub struct Return {
    pub label: Option<String>,
}

/// A nested diagram reference (stub).
#[derive(Clone, Debug, PartialEq, Eq)]
pub struct Reference {
    pub text: String,
}

/// A top-level statement of a sequence diagram.
#[derive(Debug)]
pub enum SequenceElement {
    Message(Message),
    Fragment(Fragment),
    Note(Note),
    Activation(Activation),
    Divider(Divider),
    Delay(Delay),
    Space(u32),
    Reference(Reference),
    Autonumber(AutonumberCommand),
    Return(Return),
}

/// Diagram-wide annotations.
#[derive(Clone, Debug, PartialEq, Eq)]
pub struct Metadata {
    pub title: Option<String>,
}

/// A parsed sequence diagram.
#[derive(Debug)]
pub struct SequenceDiagram {
    pub participants: Vec<Participant>,
    pub elements: Vec<SequenceElement>,
    pub boxes: Vec<ParticipantBox>,
    pub metadata: Metadata,
}

impl SequenceDiagram {
    pub fn new() -> (d: SequenceDiagram)
        ensures
            d.participants@ =~= Seq::<Participant>::empty(),
            d.elements@ =~= Seq::<SequenceElement>::empty(),
            d.boxes@ =~= Seq::<ParticipantBox>::empty(),
            d.metadata.title is None,
    {
        SequenceDiagram {
            participants: Vec::new(),
            elements: Vec::new(),
            boxes: Vec::new(),
            metadata: Metadata { title: None },
        }
    }

    pub fn add_participant(&mut self, p: Participant)
        ensures
            final(self).participants@ == old(self).participants@.push(p),
            final(self).elements@ == old(self).elements@,
            final(self).boxes@ == old(self).boxes@,
            final(self).metadata == old(self).metadata,
    {
        self.participants.push(p);
    }

    pub fn add_element(&mut self, e: SequenceElement)
        ensures
            final(self).elements@ == old(self).elements@.push(e),
            final(self).participants@ == old(self).participants@,
            final(self).boxes@ == old(self).boxes@,
            final(self).metadata == old(self).metadata,
    {
        self.elements.push(e);
    }

    pub fn add_box(&mut self, b: ParticipantBox)
        ensures
            final(self).boxes@ == old(self).boxes@.push(b),
            final(self).participants@ == old(self).participants@,
            final(self).elements@ == old(self).elements@,
            final(self).metadata == old(self).metadata,
    {
        self.boxes.push(b);
    }
}

/// Recursive size of one element: one unit per statement, plus one per
/// fragment section. Vertical flow advances at most `Y_STEP` per unit.
pub open spec fn el_size(e: SequenceElement) -> int
    decreases e,
{
    match e {
        SequenceElement::Fragment(f) => 2 + sections_size(f.sections@),
        SequenceElement::Space(h) => 1 + h as int,
        _ => 1,
    }
}

pub open spec fn sections_size(ss: Seq<FragmentSection>) -> int
    decreases ss,
{
    if ss.len() == 0 {
        0
    } else {
        1 + els_size(ss[0].elements@) + sections_size(ss.skip(1))
    }
}

pub open spec fn els_size(es: Seq<SequenceElement>) -> int
    decreases es,
{
    if es.len() == 0 {
        0
    } else {
        el_size(es[0]) + els_size(es.skip(1))
    }
}

pub proof fn lemma_el_size_pos(e: SequenceElement)
    ensures
        el_size(e) >= 1,
    decreases e,
{
    match e {
        SequenceElement::Fragment(f) => {
            lemma_sections_size_nonneg(f.sections@);
        },
        _ => {},
    }
}

pub proof fn lemma_sections_size_nonneg(ss: Seq<FragmentSection>)
    ensures
        sections_size(ss) >= ss.len(),
    decreases ss,
{
    if ss.len() > 0 {
        lemma_els_size_nonneg(ss[0].elements@);
        lemma_sections_size_nonneg(ss.skip(1));
    }
}

pub proof fn lemma_els_size_nonneg(es: Seq<SequenceElement>)
    ensures
        els_size(es) >= es.len(),
    decreases es,
{
    if es.len() > 0 {
        lemma_el_size_pos(es[0]);
        lemma_els_size_nonneg(es.skip(1));
    }
}

pub proof fn lemma_els_size_split(es: Seq<SequenceElement>, i: int)
    requires
        0 <= i < es.len(),
    ensures
        els_size(es.skip(i)) == el_size(es[i]) + els_size(es.skip(i + 1)),
    decreases es.len(),
{
    if i == 0 {
        assert(es.skip(0) =~= es);
        assert(es.skip(0).skip(1) =~= es.skip(1));
    } else {
        lemma_els_size_split(es.skip(1), i - 1);
        assert(es.skip(1).skip(i - 1) =~= es.skip(i));
        assert(es.skip(1).skip(i) =~= es.skip(i + 1));
        assert(es.skip(1)[i - 1] == es[i]);
    }
}

pub proof fn lemma_sections_size_split(ss: Seq<FragmentSection>, i: int)
    requires
        0 <= i < ss.len(),
    ensures
        sections_size(ss.skip(i)) == 1 + els_size(ss[i].elements@) + sections_size(ss.skip(i + 1)),
    decreases ss.len(),
{
    if i == 0 {
        assert(ss.skip(0) =~= ss);
        assert(ss.skip(0).skip(1) =~= ss.skip(1));
    } else {
        lemma_sections_size_split(ss.skip(1), i - 1);
        assert(ss.skip(1).skip(i - 1) =~= ss.skip(i));
        assert(ss.skip(1).skip(i) =~= ss.skip(i + 1));
        assert(ss.skip(1)[i - 1] == ss[i]);
    }
}

/// A string short enough to take part in layout arithmetic.
pub open spec fn text_wf(s: Seq<char>) -> bool {
    s.len() <= MAX_TEXT
}

pub open spec fn opt_text_wf(s: Option<String>) -> bool {
    match s {
        Some(t) => text_wf(t@),
        None => true,
    }
}

pub open spec fn note_wf(n: Note) -> bool {
    &&& text_wf(n.text@)
    &&& n.anchors@.len() <= MAX_ITEMS
    &&& forall|i: int| 0 <= i < n.anchors@.len() ==> text_wf(#[trigger] n.anchors@[i]@)
}

pub open spec fn message_wf(m: Message) -> bool {
    &&& text_wf(m.from@)
    &&& text_wf(m.to@)
    &&& text_wf(m.label@)
}

pub open spec fn el_wf(e: SequenceElement) -> bool
    decreases e,
{
    match e {
        SequenceElement::Message(m) => message_wf(m),
        SequenceElement::Fragment(f) => {
            &&& f.sections@.len() >= 1
            &&& opt_text_wf(f.condition)
            &&& sections_wf(f.sections@)
        },
        SequenceElement::Note(n) => note_wf(n),
        SequenceElement::Activation(a) => text_wf(a.participant@),
        SequenceElement::Divider(dv) => text_wf(dv.text@),
        SequenceElement::Delay(dl) => opt_text_wf(dl.text),
        SequenceElement::Space(_) => true,
        SequenceElement::Reference(r) => text_wf(r.text@),
        SequenceElement::Autonumber(c) => autonumber_wf(c),
        SequenceElement::Return(r) => opt_text_wf(r.label),
    }
}

pub open spec fn sections_wf(ss: Seq<FragmentSection>) -> bool
    decreases ss,
{
    if ss.len() == 0 {
        true
    } else {
        section_wf(ss[0]) && sections_wf(ss.skip(1))
    }
}

pub open spec fn section_wf(s: FragmentSection) -> bool
    decreases s,
{
    &&& opt_text_wf(s.condition)
    &&& els_wf(s.elements@)
}

pub open spec fn els_wf(es: Seq<SequenceElement>) -> bool
    decreases es,
{
    if es.len() == 0 {
        true
    } else {
        el_wf(es[0]) && els_wf(es.skip(1))
    }
}

pub open spec fn autonumber_wf(c: AutonumberCommand) -> bool {
    match c {
        AutonumberCommand::Start(p) => opt_text_wf(p.format),
        AutonumberCommand::Resume(p) => match p {
            Some(p) => opt_text_wf(p.format),
            None => true,
        },
        AutonumberCommand::Inc(s) => text_wf(s@),
        AutonumberCommand::Stop => true,
    }
}

pub open spec fn participant_wf(p: Participant) -> bool {
    &&& text_wf(p.id.name@)
    &&& match p.id.alias {
        Some(a) => text_wf(a@),
        None => true,
    }
}

pub open spec fn box_wf(b: ParticipantBox) -> bool {
    &&& opt_text_wf(b.title)
    &&& b.participants@.len() <= MAX_ITEMS
    &&& forall|i: int| 0 <= i < b.participants@.len() ==> text_wf(#[trigger] b.participants@[i]@)
}

/// Well-formedness of a whole sequence diagram: every embedded string is at
/// most `MAX_TEXT` characters and the recursive element count is at most
/// `MAX_ITEMS`. These are the machine limits under which the layout engine's
/// integer arithmetic is proved exact.
pub open spec fn seq_diagram_wf(d: SequenceDiagram) -> bool {
    &&& d.participants@.len() <= MAX_ITEMS
    &&& forall|i: int| 0 <= i < d.participants@.len() ==> participant_wf(#[trigger] d.participants@[i])
    &&& d.boxes@.len() <= MAX_ITEMS
    &&& forall|i: int| 0 <= i < d.boxes@.len() ==> box_wf(#[trigger] d.boxes@[i])
    &&& els_size(d.elements@) <= MAX_ITEMS
    &&& els_wf(d.elements@)
    &&& opt_text_wf(d.metadata.title)
}

/// One more than [`MAX_ITEMS`]: the saturation point of size measurement.
pub const SIZE_CAP: u64 = 65537;

pub(crate) fn text_ok(s: &String) -> (b: bool)
    ensures
        b == text_wf(s@),
{
    s.as_str().unicode_len() <= MAX_TEXT
}

pub(crate) fn opt_text_ok(s: &Option<String>) -> (b: bool)
    ensures
        b == opt_text_wf(*s),
{
    match s {
        Some(t) => text_ok(t),
        None => true,
    }
}

fn note_ok(n: &Note) -> (b: bool)
    ensures
        b == note_wf(*n),
{
    if !text_ok(&n.text) {
        return false;
    }
    if n.anchors.len() > MAX_ITEMS {
        return false;
    }
    let m = n.anchors.len();
    for i in 0..m
        invariant
            m == n.anchors@.len(),
            forall|k: int| 0 <= k < i ==> text_wf(#[trigger] n.anchors@[k]@),
    {
        if !text_ok(&n.anchors[i]) {
            return false;
        }
    }
    true
}

fn autonumber_ok(c: &AutonumberCommand) -> (b: bool)
    ensures
        b == autonumber_wf(*c),
{
    match c {
        AutonumberCommand::Start(p) => opt_text_ok(&p.format),
        AutonumberCommand::Resume(p) => match p {
            Some(p) => opt_text_ok(&p.format),
            None => true,
        },
        AutonumberCommand::Inc(s) => text_ok(s),
        AutonumberCommand::Stop => true,
    }
}

fn el_ok(e: &SequenceElement) -> (b: bool)
    ensures
        b == el_wf(*e),
    decreases el_size(*e), 0int,
{
    proof {
        lemma_el_size_pos(*e);
    }
    match e {
        SequenceElement::Message(m) => text_ok(&m.from) && text_ok(&m.to) && text_ok(&m.label),
        SequenceElement::Fragment(f) => {
            proof {
                lemma_sections_size_nonneg(f.sections@);
            }
            {
                proof {
                    assert(f.sections@.skip(0) =~= f.sections@);
                }
                f.sections.len() >= 1 && opt_text_ok(&f.condition) && sections_ok(&f.sections, 0)
            }
        },
        SequenceElement::Note(n) => note_ok(n),
        SequenceElement::Activation(a) => text_ok(&a.participant),
        SequenceElement::Divider(dv) => text_ok(&dv.text),
        SequenceElement::Delay(dl) => opt_text_ok(&dl.text),
        SequenceElement::Space(_) => true,
        SequenceElement::Reference(r) => text_ok(&r.text),
        SequenceElement::Autonumber(c) => autonumber_ok(c),
        SequenceElement::Return(r) => opt_text_ok(&r.label),
    }
}

fn sections_ok(ss: &Vec<FragmentSection>, i: usize) -> (b: bool)
    requires
        i <= ss@.len(),
    ensures
        b == sections_wf(ss@.skip(i as int)),
    decreases sections_size(ss@.skip(i as int)) + 1, 1int,
{
    proof {
        lemma_sections_size_nonneg(ss@.skip(i as int));
    }
    if i == ss.len() {
        proof {
            assert(ss@.skip(i as int) =~= Seq::<FragmentSection>::empty());
        }
        return true;
    }
    proof {
        assert(ss@.skip(i as int)[0] == ss@[i as int]);
        assert(ss@.skip(i as int).skip(1) =~= ss@.skip(i + 1));
        lemma_sections_size_split(ss@.skip(i as int), 0);
        lemma_els_size_nonneg(ss@[i as int].elements@);
        lemma_sections_size_nonneg(ss@.skip(i + 1));
    }
    proof {
        assert(ss@[i as int].elements@.skip(0) =~= ss@[i as int].elements@);
    }
    let cond_ok = opt_text_ok(&ss[i].condition);
    let els_fine = els_ok(&ss[i].elements, 0);
    proof {
        assert(sections_wf(ss@.skip(i as int)) == (section_wf(ss@.skip(i as int)[0])
            && sections_wf(ss@.skip(i as int).skip(1))));
        assert(section_wf(ss@[i as int]) == (opt_text_wf(ss@[i as int].condition) && els_wf(
            ss@[i as int].elements@,
        )));
    }
    if cond_ok && els_fine {
        sections_ok(ss, i + 1)
    } else {
        false
    }
}

fn els_ok(es: &Vec<SequenceElement>, i: usize) -> (b: bool)
    requires
        i <= es@.len(),
    ensures
        b == els_wf(es@.skip(i as int)),
    decreases els_size(es@.skip(i as int)), 1int,
{
    proof {
        lemma_els_size_nonneg(es@.skip(i as int));
    }
    if i == es.len() {
        proof {
            assert(es@.skip(i as int) =~= Seq::<SequenceElement>::empty());
        }
        return true;
    }
    proof {
        assert(es@.skip(i as int)[0] == es@[i as int]);
        assert(es@.skip(i as int).skip(1) =~= es@.skip(i + 1));
        lemma_els_size_split(es@.skip(i as int), 0);
        lemma_el_size_pos(es@[i as int]);
        lemma_els_size_nonneg(es@.skip(i + 1));
    }
    if el_ok(&es[i]) {
        els_ok(es, i + 1)
    } else {
        false
    }
}

/// Dropping a prefix cannot increase the total size.
proof fn lemma_els_skip_le(es: Seq<SequenceElement>, i: int)
    requires
        0 <= i <= es.len(),
    ensures
        els_size(es.skip(i)) <= els_size(es),
    decreases i,
{
    if i > 0 {
        assert(es.skip(0) =~= es);
        lemma_els_size_split(es, 0);
        assert(es.skip(1).skip(i - 1) =~= es.skip(i));
        lemma_els_skip_le(es.skip(1), i - 1);
        lemma_el_size_pos(es[0]);
    } else {
        assert(es.skip(0) =~= es);
    }
}

/// Dropping leading sections cannot increase the total size.
proof fn lemma_sections_skip_le(ss: Seq<FragmentSection>, i: int)
    requires
        0 <= i <= ss.len(),
    ensures
        sections_size(ss.skip(i)) <= sections_size(ss),
    decreases i,
{
    if i > 0 {
        assert(ss.skip(0) =~= ss);
        lemma_sections_size_split(ss, 0);
        assert(ss.skip(1).skip(i - 1) =~= ss.skip(i));
        lemma_sections_skip_le(ss.skip(1), i - 1);
        lemma_els_size_nonneg(ss[0].elements@);
    } else {
        assert(ss.skip(0) =~= ss);
    }
}

/// The recursive size of an element, saturated at [`SIZE_CAP`].
fn el_size_x(e: &SequenceElement) -> (r: u64)
    ensures
        r == crate::geom::spec_imin(el_size(*e), SIZE_CAP as int),
    decreases el_size(*e), 0int,
{
    proof {
        lemma_el_size_pos(*e);
    }
    match e {
        SequenceElement::Fragment(f) => {
            proof {
                lemma_sections_size_nonneg(f.sections@);
            }
            let inner = sections_size_x(&f.sections);
            if inner >= SIZE_CAP - 2 {
                SIZE_CAP
            } else {
                2 + inner
            }
        },
        SequenceElement::Space(h) => {
            let big = 1 + (*h as u64);
            if big >= SIZE_CAP {
                SIZE_CAP
            } else {
                big
            }
        },
        _ => 1,
    }
}

/// The total size of a section list, saturated at [`SIZE_CAP`].
fn sections_size_x(ss: &Vec<FragmentSection>) -> (r: u64)
    ensures
        r == crate::geom::spec_imin(sections_size(ss@), SIZE_CAP as int),
    decreases sections_size(ss@) + 1, 1int,
{
    proof {
        lemma_sections_size_nonneg(ss@);
    }
    let mut total: u64 = 0;
    let m = ss.len();
    let ghost s = ss@;
    for i in 0..m
        invariant
            m == s.len(),
            s == ss@,
            total == crate::geom::spec_imin(sections_size(s.take(i as int)), SIZE_CAP as int),
        decreases m - i,
    {
        proof {
            lemma_sections_take(s, i as int);
            lemma_sections_size_nonneg(s.take(i as int));
            lemma_sections_size_split(s, i as int);
            lemma_sections_skip_le(s, i as int);
            lemma_sections_size_nonneg(s.skip(i + 1));
            lemma_els_size_nonneg(s[i as int].elements@);
        }
        let inner = els_size_x(&ss[i].elements);
        let add = if inner >= SIZE_CAP - 1 {
            SIZE_CAP
        } else {
            inner + 1
        };
        total = if total >= SIZE_CAP - add {
            SIZE_CAP
        } else {
            total + add
        };
    }
    proof {
        assert(s.take(m as int) =~= s);
    }
    total
}

/// The total size of an element list, saturated at [`SIZE_CAP`].
fn els_size_x(es: &Vec<SequenceElement>) -> (r: u64)
    ensures
        r == crate::geom::spec_imin(els_size(es@), SIZE_CAP as int),
    decreases els_size(es@), 1int,
{
    proof {
        lemma_els_size_nonneg(es@);
    }
    let mut total: u64 = 0;
    let m = es.len();
    let ghost s = es@;
    for i in 0..m
        invariant
            m == s.len(),
            s == es@,
            total == crate::geom::spec_imin(els_size(s.take(i as int)), SIZE_CAP as int),
        decreases m - i,
    {
        proof {
            lemma_els_take(s, i as int);
            lemma_el_size_pos(s[i as int]);
            lemma_els_size_nonneg(s.take(i as int));
            lemma_els_size_split(s, i as int);
            lemma_els_skip_le(s, i as int);
            lemma_els_size_nonneg(s.skip(i + 1));
        }
        let one = el_size_x(&es[i]);
        total = if total >= SIZE_CAP - one {
            SIZE_CAP
        } else {
            total + one
        };
    }
    proof {
        assert(s.take(m as int) =~= s);
    }
    total
}

/// Extending a prefix of sections by one adds that section's size.
proof fn lemma_sections_take(ss: Seq<FragmentSection>, i: int)
    requires
        0 <= i < ss.len(),
    ensures
        sections_size(ss.take(i + 1)) == sections_size(ss.take(i)) + 1 + els_size(
            ss[i].elements@,
        ),
{
    lemma_sections_size_split(ss.take(i + 1), i);
    assert(ss.take(i + 1).skip(i) =~= seq![ss[i]]);
    assert(sections_size(seq![ss[i]].skip(1)) == 0) by {
        assert(seq![ss[i]].skip(1) =~= Seq::<FragmentSection>::empty());
    }
    lemma_sections_prefix(ss.take(i + 1), ss.take(i), i);
}

/// A common prefix contributes the same size.
proof fn lemma_sections_prefix(a: Seq<FragmentSection>, b: Seq<FragmentSection>, i: int)
    requires
        0 <= i <= a.len(),
        0 <= i <= b.len(),
        forall|k: int| 0 <= k < i ==> a[k] == b[k],
    ensures
        sections_size(a) - sections_size(a.skip(i)) == sections_size(b) - sections_size(b.skip(i)),
    decreases i,
{
    if i > 0 {
        assert(a.skip(0) =~= a);
        assert(b.skip(0) =~= b);
        lemma_sections_size_split(a, 0);
        lemma_sections_size_split(b, 0);
        assert(a.skip(1).skip(i - 1) =~= a.skip(i));
        assert(b.skip(1).skip(i - 1) =~= b.skip(i));
        lemma_sections_prefix(a.skip(1), b.skip(1), i - 1);
    } else {
        assert(a.skip(0) =~= a);
        assert(b.skip(0) =~= b);
    }
}

/// Extending a prefix of elements by one adds that element's size.
proof fn lemma_els_take(s: Seq<SequenceElement>, i: int)
    requires
        0 <= i < s.len(),
    ensures
        els_size(s.take(i + 1)) == els_size(s.take(i)) + el_size(s[i]),
{
    lemma_els_size_split(s.take(i + 1), i);
    assert(s.take(i + 1).skip(i) =~= seq![s[i]]);
    assert(els_size(seq![s[i]].skip(1)) == 0) by {
        assert(seq![s[i]].skip(1) =~= Seq::<SequenceElement>::empty());
    }
    lemma_els_prefix(s.take(i + 1), s.take(i), i);
}

proof fn lemma_els_prefix(a: Seq<SequenceElement>, b: Seq<SequenceElement>, i: int)
    requires
        0 <= i <= a.len(),
        0 <= i <= b.len(),
        forall|k: int| 0 <= k < i ==> a[k] == b[k],
    ensures
        els_size(a) - els_size(a.skip(i)) == els_size(b) - els_size(b.skip(i)),
    decreases i,
{
    if i > 0 {
        assert(a.skip(0) =~= a);
        assert(b.skip(0) =~= b);
        lemma_els_size_split(a, 0);
        lemma_els_size_split(b, 0);
        assert(a.skip(1).skip(i - 1) =~= a.skip(i));
        assert(b.skip(1).skip(i - 1) =~= b.skip(i));
        lemma_els_prefix(a.skip(1), b.skip(1), i - 1);
    } else {
        assert(a.skip(0) =~= a);
        assert(b.skip(0) =~= b);
    }
}

fn participant_ok(p: &Participant) -> (b: bool)
    ensures
        b == participant_wf(*p),
{
    if !text_ok(&p.id.name) {
        return false;
    }
    match &p.id.alias {
        Some(a) => text_ok(a),
        None => true,
    }
}

fn box_ok(b: &ParticipantBox) -> (r: bool)
    ensures
        r == box_wf(*b),
{
    if !opt_text_ok(&b.title) {
        return false;
    }
    if b.participants.len() > MAX_ITEMS {
        return false;
    }
    let m = b.participants.len();
    for i in 0..m
        invariant
            m == b.participants@.len(),
            forall|k: int| 0 <= k < i ==> text_wf(#[trigger] b.participants@[k]@),
    {
        if !text_ok(&b.participants[i]) {
            return false;
        }
    }
    true
}

/// Checks the machine-limit well-formedness of a whole diagram.
pub fn seq_diagram_ok(d: &SequenceDiagram) -> (b: bool)
    ensures
        b == seq_diagram_wf(*d),
{
    if d.participants.len() > MAX_ITEMS {
        return false;
    }
    let np = d.participants.len();
    for i in 0..np
        invariant
            np == d.participants@.len(),
            forall|k: int| 0 <= k < i ==> participant_wf(#[trigger] d.participants@[k]),
    {
        if !participant_ok(&d.participants[i]) {
            return false;
        }
    }
    if d.boxes.len() > MAX_ITEMS {
        return false;
    }
    let nb = d.boxes.len();
    for i in 0..nb
        invariant
            nb == d.boxes@.len(),
            forall|k: int| 0 <= k < i ==> box_wf(#[trigger] d.boxes@[k]),
    {
        if !box_ok(&d.boxes[i]) {
            return false;
        }
    }
    if els_size_x(&d.elements) > MAX_ITEMS as u64 {
        return false;
    }
    if !els_ok(&d.elements, 0) {
        proof {
            assert(d.elements@.skip(0) =~= d.elements@);
        }
        return false;
    }
    proof {
        assert(d.elements@.skip(0) =~= d.elements@);
    }
    opt_text_ok(&d.metadata.title)
}

} // verus!
