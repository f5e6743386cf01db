//! The sequence-diagram parser: a line-oriented driver over the statement
//! grammar, with a push-down stack for nested fragments and an open-box
//! register for participant groupings.
//!
//! The specification `parse_spec` folds the classified statements of the
//! source into a ghost diagram; `parse_sequence` returns a tree that
//! abstracts to exactly that diagram, or the syntax error the specification
//! assigns.

use vstd::prelude::*;
use crate::ast::ActivationType;
use crate::ast::Activation;
use crate::ast::Color;
use crate::ast::Delay;
use crate::ast::Divider;
use crate::ast::Fragment;
use crate::ast::FragmentSection;
use crate::ast::FragmentType;
use crate::ast::ParticipantBox;
use crate::ast::Return;
use crate::ast::SequenceDiagram;
use crate::ast::SequenceElement;
use crate::ast::seq_diagram_wf;
use crate::ast::seq_diagram_ok;
use crate::gast::GBox;
use crate::gast::GDiag;
use crate::gast::GEl;
use crate::gast::GPart;
use crate::gast::GSection;
use crate::gast::gdiag_of;
use crate::gast::gdiag_wf;
use crate::gast::gels_of;
use crate::gast::gopt_str;
use crate::gast::gsections_of;
use crate::gast::gbox_of;
use crate::gast::gpart_of;
use crate::gast::lemma_diag_abs;
use crate::gast::lemma_gels_of_push;
use crate::gast::lemma_gsections_of_push;
use crate::gast::str_views;
use crate::scan::split_lines;
use crate::scan::split_lines_spec;
use crate::stmt::GStmt;
use crate::stmt::Stmt;
use crate::stmt::classify;
use crate::stmt::classify_spec;
use crate::stmt::gstmt_of;

verus! {

/// A syntactic failure, carrying the one-based line it was found on.
#[derive(Debug)]
pub enum ParseError {
    SyntaxError { line: usize, message: String },
}

impl ParseError {
    /// The one-based line number the error was reported at.
    pub open spec fn line_no(self) -> int {
        match self {
            ParseError::SyntaxError { line, .. } => line as int,
        }
    }

    pub fn line(&self) -> (l: usize)
        ensures
            l as int == self.line_no(),
    {
        match self {
            ParseError::SyntaxError { line, .. } => *line,
        }
    }
}

/// One open fragment while parsing: its header, the sections finished so
/// far, the condition of the section being filled, and the elements of the
/// enclosing level, to be restored at `end`.
pub ghost struct GFrame {
    pub ftype: FragmentType,
    pub cond: Option<Seq<char>>,
    pub cur_cond: Option<Seq<char>>,
    pub sections: Seq<GSection>,
    pub saved: Seq<GEl>,
}

/// An open `box` while parsing.
pub ghost struct GBoxOpen {
    pub title: Option<Seq<char>>,
    pub color: Option<Color>,
    pub members: Seq<Seq<char>>,
}

/// The parser's state between lines.
pub ghost struct GParseState {
    pub parts: Seq<GPart>,
    pub els: Seq<GEl>,
    pub boxes: Seq<GBox>,
    pub title: Option<Seq<char>>,
    pub cur: Seq<GEl>,
    pub stack: Seq<GFrame>,
    pub boxc: Option<GBoxOpen>,
}

pub ghost enum GStep {
    Go(GParseState),
    Halt(int),
}

pub ghost enum GOut {
    Done(GDiag),
    Failed(int),
}

pub open spec fn init_state() -> GParseState {
    GParseState {
        parts: Seq::empty(),
        els: Seq::empty(),
        boxes: Seq::empty(),
        title: None,
        cur: Seq::empty(),
        stack: Seq::empty(),
        boxc: None,
    }
}

/// Appends an element at the current nesting level: to the diagram at top
/// level, to the open fragment section otherwise.
pub open spec fn push_el(st: GParseState, el: GEl) -> GParseState {
    if st.stack.len() == 0 {
        GParseState { els: st.els.push(el), ..st }
    } else {
        GParseState { cur: st.cur.push(el), ..st }
    }
}

/// One statement's effect on the parser state, or the line to fail at.
#[verifier::opaque]
pub open spec fn gstep(st: GParseState, stmt: GStmt, lineno: int) -> GStep {
    match stmt {
        GStmt::Blank => GStep::Go(st),
        GStmt::Start => GStep::Halt(lineno),
        GStmt::End => GStep::Go(st),
        GStmt::Title { text } => GStep::Go(
            if text.len() > 0 {
                GParseState { title: Some(text), ..st }
            } else {
                st
            },
        ),
        GStmt::PartDecl { p } => GStep::Go(
            GParseState {
                parts: st.parts.push(p),
                boxc: match st.boxc {
                    Some(b) => Some(GBoxOpen { members: b.members.push(p.canon()), ..b }),
                    None => None,
                },
                ..st
            },
        ),
        GStmt::BoxStart { title, color } => GStep::Go(
            GParseState { boxc: Some(GBoxOpen { title, color, members: Seq::empty() }), ..st },
        ),
        GStmt::BoxEnd => GStep::Go(
            match st.boxc {
                Some(b) => GParseState {
                    boxes: st.boxes.push(
                        GBox { title: b.title, color: b.color, members: b.members },
                    ),
                    boxc: None,
                    ..st
                },
                None => st,
            },
        ),
        GStmt::FragStart { ftype, cond } => GStep::Go(
            GParseState {
                stack: st.stack.push(
                    GFrame { ftype, cond, cur_cond: cond, sections: Seq::empty(), saved: st.cur },
                ),
                cur: Seq::empty(),
                ..st
            },
        ),
        GStmt::FragElse { cond } => GStep::Go(
            if st.stack.len() == 0 {
                st
            } else {
                let f = st.stack.last();
                GParseState {
                    stack: st.stack.update(
                        st.stack.len() - 1,
                        GFrame {
                            sections: f.sections.push(GSection { cond: f.cur_cond, els: st.cur }),
                            cur_cond: cond,
                            ..f
                        },
                    ),
                    cur: Seq::empty(),
                    ..st
                }
            },
        ),
        GStmt::FragEnd => {
            if st.stack.len() == 0 {
                GStep::Halt(lineno)
            } else {
                let f = st.stack.last();
                let el = GEl::Frag {
                    ftype: f.ftype,
                    cond: f.cond,
                    sections: f.sections.push(GSection { cond: f.cur_cond, els: st.cur }),
                };
                let popped = GParseState { stack: st.stack.drop_last(), cur: f.saved, ..st };
                GStep::Go(push_el(popped, el))
            }
        },
        GStmt::NoteLine { n } => GStep::Go(push_el(st, GEl::NoteEl { n })),
        GStmt::DividerLine { text } => GStep::Go(push_el(st, GEl::Div { text })),
        GStmt::DelayLine { text } => GStep::Go(push_el(st, GEl::Del { text })),
        GStmt::ActivateLine { participant, color } => GStep::Go(
            push_el(st, GEl::Act { participant, kind: ActivationType::Activate, color }),
        ),
        GStmt::DeactivateLine { participant } => GStep::Go(
            push_el(st, GEl::Act { participant, kind: ActivationType::Deactivate, color: None }),
        ),
        GStmt::DestroyLine { participant } => GStep::Go(
            push_el(st, GEl::Act { participant, kind: ActivationType::Destroy, color: None }),
        ),
        GStmt::AutoLine { cmd } => GStep::Go(push_el(st, GEl::Auto { cmd })),
        GStmt::ReturnLine { label } => GStep::Go(push_el(st, GEl::Ret { label })),
        GStmt::MsgLine { m } => GStep::Go(push_el(st, GEl::Msg { m })),
        GStmt::Bad => GStep::Halt(lineno),
    }
}

/// The finished diagram: open fragments and an unclosed box are dropped.
pub open spec fn finish(st: GParseState) -> GDiag {
    GDiag { parts: st.parts, els: st.els, boxes: st.boxes, title: st.title }
}

/// Folds the statements from line `i` on, until `@enduml`.
pub open spec fn gparse_lines(lines: Seq<Seq<char>>, i: int, st: GParseState) -> GOut
    decreases lines.len() - i,
{
    if i < 0 || i >= lines.len() {
        GOut::Failed(lines.len() as int)
    } else {
        let c = classify_spec(lines[i]);
        if c is End {
            GOut::Done(finish(st))
        } else {
            match gstep(st, c, i + 1) {
                GStep::Go(st2) => gparse_lines(lines, i + 1, st2),
                GStep::Halt(l) => GOut::Failed(l),
            }
        }
    }
}

/// Skips blank lines, then requires `@startuml`.
pub open spec fn gparse_start(lines: Seq<Seq<char>>, i: int) -> GOut
    decreases lines.len() - i,
{
    if i < 0 || i >= lines.len() {
        GOut::Failed(lines.len() as int)
    } else {
        let c = classify_spec(lines[i]);
        if c is Blank {
            gparse_start(lines, i + 1)
        } else if c is Start {
            gparse_lines(lines, i + 1, init_state())
        } else {
            GOut::Failed(i + 1)
        }
    }
}

/// What parsing a source text yields: the diagram its statements build, or
/// the line of the first failure. A diagram over the machine-size limits is
/// rejected (reported at line 0).
pub open spec fn parse_spec(src: Seq<char>) -> GOut {
    match gparse_start(split_lines_spec(src), 0) {
        GOut::Done(d) => if gdiag_wf(d) {
            GOut::Done(d)
        } else {
            GOut::Failed(0)
        },
        GOut::Failed(l) => GOut::Failed(l),
    }
}

struct Frame {
    ftype: FragmentType,
    cond: Option<String>,
    cur_cond: Option<String>,
    sections: Vec<FragmentSection>,
    saved: Vec<SequenceElement>,
}

spec fn gframe_of(f: Frame) -> GFrame {
    GFrame {
        ftype: f.ftype,
        cond: gopt_str(f.cond),
        cur_cond: gopt_str(f.cur_cond),
        sections: gsections_of(f.sections@),
        saved: gels_of(f.saved@),
    }
}

spec fn gframes_of(fs: Seq<Frame>) -> Seq<GFrame> {
    Seq::new(fs.len(), |i: int| gframe_of(fs[i]))
}

struct BoxOpen {
    title: Option<String>,
    color: Option<Color>,
    members: Vec<String>,
}

spec fn gboxopen_of(b: BoxOpen) -> GBoxOpen {
    GBoxOpen { title: gopt_str(b.title), color: b.color, members: str_views(b.members@) }
}

spec fn abs_state(
    d: SequenceDiagram,
    cur: Seq<SequenceElement>,
    stack: Seq<Frame>,
    boxc: Option<BoxOpen>,
) -> GParseState {
    GParseState {
        parts: Seq::new(d.participants@.len(), |i: int| gpart_of(d.participants@[i])),
        els: gels_of(d.elements@),
        boxes: Seq::new(d.boxes@.len(), |i: int| gbox_of(d.boxes@[i])),
        title: gopt_str(d.metadata.title),
        cur: gels_of(cur),
        stack: gframes_of(stack),
        boxc: match boxc {
            Some(b) => Some(gboxopen_of(b)),
            None => None,
        },
    }
}

/// The parser for sequence diagrams. Parsing is driven line by line through
/// the statement grammar in [`crate::stmt`].
pub struct SequenceParser;

impl SequenceParser {
    /// Parses a sequence diagram; the same as [`parse_sequence`].
    pub fn parse(source: &str) -> (r: Result<SequenceDiagram, ParseError>)
        ensures
            match r {
                Ok(d) => parse_spec(source@) == GOut::Done(gdiag_of(d)) && seq_diagram_wf(d),
                Err(e) => parse_spec(source@) == GOut::Failed(e.line_no()),
            },
    {
        parse_sequence(source)
    }
}

/// Finds the `@startuml` opener, skipping blank lines.
fn find_start(lines: &Vec<String>, Ghost(glines): Ghost<Seq<Seq<char>>>) -> (r: Result<
    usize,
    ParseError,
>)
    requires
        lines@.len() == glines.len(),
        forall|k: int| 0 <= k < glines.len() ==> #[trigger] lines@[k]@ == glines[k],
    ensures
        match r {
            Ok(i) => i < glines.len() && gparse_start(glines, 0) == gparse_lines(
                glines,
                i + 1,
                init_state(),
            ),
            Err(e) => gparse_start(glines, 0) == GOut::Failed(e.line_no()),
        },
{
    let n = lines.len();
    let mut i: usize = 0;
    loop
        invariant
            i <= n,
            n == glines.len(),
            n == lines@.len(),
            forall|k: int| 0 <= k < n ==> #[trigger] lines@[k]@ == glines[k],
            gparse_start(glines, 0) == gparse_start(glines, i as int),
        decreases n - i,
    {
        if i == n {
            return Err(
                ParseError::SyntaxError {
                    line: n,
                    message: String::from_str("expected @startuml"),
                },
            );
        }
        let st = classify(&lines[i]);
        match st {
            Stmt::Blank => {
                i = i + 1;
            },
            Stmt::Start => {
                return Ok(i);
            },
            _ => {
                return Err(
                    ParseError::SyntaxError {
                        line: i + 1,
                        message: String::from_str("expected @startuml"),
                    },
                );
            },
        }
    }
}

/// Applies one statement (never `End`) to the parser state; an `Err` names
/// the failing line.
#[verifier::rlimit(100)]
fn apply_stmt(
    d: &mut SequenceDiagram,
    cur: &mut Vec<SequenceElement>,
    stack: &mut Vec<Frame>,
    boxc: &mut Option<BoxOpen>,
    stt: Stmt,
    lineno: usize,
) -> (r: Result<(), ParseError>)
    requires
        !(gstmt_of(stt) is End),
    ensures
        match r {
            Ok(()) => gstep(
                abs_state(*old(d), old(cur)@, old(stack)@, *old(boxc)),
                gstmt_of(stt),
                lineno as int,
            ) == GStep::Go(abs_state(*final(d), final(cur)@, final(stack)@, *final(boxc))),
            Err(e) => gstep(
                abs_state(*old(d), old(cur)@, old(stack)@, *old(boxc)),
                gstmt_of(stt),
                lineno as int,
            ) == GStep::Halt(e.line_no()),
        },
{
    proof {
        reveal(gstep);
    }
    let ghost st0 = abs_state(*d, cur@, stack@, *boxc);
    match stt {
        Stmt::End => {
            Ok(())
        },
        Stmt::Blank => {
            Ok(())
        },
        Stmt::Start => {
            Err(
                ParseError::SyntaxError {
                    line: lineno,
                    message: String::from_str("unexpected @startuml"),
                },
            )
        },
        Stmt::Bad => {
            Err(
                ParseError::SyntaxError {
                    line: lineno,
                    message: String::from_str("syntax error"),
                },
            )
        },
        Stmt::Title(t) => {
            if t.as_str().unicode_len() > 0 {
                d.metadata.title = Some(t);
            }
            proof {
                assert(gstep(st0, gstmt_of(stt), lineno as int) == GStep::Go(
                    abs_state(*d, cur@, stack@, *boxc),
                ));
            }
            Ok(())
        },
        Stmt::PartDecl(p) => {
            match boxc {
                Some(b) => {
                    let canon: String = match &p.id.alias {
                        Some(a) => a.clone(),
                        None => p.id.name.clone(),
                    };
                    let ghost members0 = b.members@;
                    b.members.push(canon);
                    proof {
                        assert(str_views(b.members@) =~= str_views(members0).push(
                            gpart_of(p).canon(),
                        ));
                    }
                },
                None => {
                },
            }
            let ghost parts0 = d.participants@;
            d.add_participant(p);
            proof {
                assert(Seq::new(d.participants@.len(), |k: int| gpart_of(d.participants@[k]))
                    =~= Seq::new(parts0.len(), |k: int| gpart_of(parts0[k])).push(gpart_of(p)));
                assert(gstep(st0, gstmt_of(stt), lineno as int) == GStep::Go(
                    abs_state(*d, cur@, stack@, *boxc),
                ));
            }
            Ok(())
        },
        Stmt::BoxStart(title, color) => {
            *boxc = Some(BoxOpen { title, color, members: Vec::new() });
            proof {
                assert(str_views(Seq::<String>::empty()) =~= Seq::<Seq<char>>::empty());
                assert(gstep(st0, gstmt_of(stt), lineno as int) == GStep::Go(
                    abs_state(*d, cur@, stack@, *boxc),
                ));
            }
            Ok(())
        },
        Stmt::BoxEnd => {
            let mut bc: Option<BoxOpen> = None;
            core::mem::swap(boxc, &mut bc);
            match bc {
                Some(b) => {
                    let ghost boxes0 = d.boxes@;
                    let ghost gb0 = gboxopen_of(b);
                    let pb = ParticipantBox {
                        title: b.title,
                        color: b.color,
                        participants: b.members,
                    };
                    d.add_box(pb);
                    proof {
                        assert(gbox_of(pb).members =~= gb0.members);
                        assert(Seq::new(d.boxes@.len(), |k: int| gbox_of(d.boxes@[k]))
                            =~= Seq::new(boxes0.len(), |k: int| gbox_of(boxes0[k])).push(
                            gbox_of(pb),
                        ));
                        assert(gstep(st0, gstmt_of(stt), lineno as int) == GStep::Go(
                            abs_state(*d, cur@, stack@, *boxc),
                        ));
                    }
                },
                None => {
                    proof {
                        assert(gstep(st0, gstmt_of(stt), lineno as int) == GStep::Go(
                            abs_state(*d, cur@, stack@, *boxc),
                        ));
                    }
                },
            }
            Ok(())
        },
        Stmt::FragStart(ftype, cond) => {
            let mut saved: Vec<SequenceElement> = Vec::new();
            core::mem::swap(cur, &mut saved);
            let cur_cond = match &cond {
                Some(c) => Some(c.clone()),
                None => None,
            };
            let ghost stack0 = stack@;
            let fr = Frame { ftype, cond, cur_cond, sections: Vec::new(), saved };
            stack.push(fr);
            proof {
                assert(gels_of(Seq::<SequenceElement>::empty()) =~= Seq::<GEl>::empty());
                assert(gsections_of(Seq::<FragmentSection>::empty()) =~= Seq::<GSection>::empty());
                assert(gframes_of(stack@) =~= gframes_of(stack0).push(gframe_of(stack@.last())));
                assert(gstep(st0, gstmt_of(stt), lineno as int) == GStep::Go(
                    abs_state(*d, cur@, stack@, *boxc),
                ));
            }
            Ok(())
        },
        Stmt::FragElse(cond) => {
            if stack.len() > 0 {
                let ghost stack0 = stack@;
                let mut f = stack.pop().unwrap();
                let mut els: Vec<SequenceElement> = Vec::new();
                core::mem::swap(cur, &mut els);
                let ghost sections0 = f.sections@;
                let sec = FragmentSection { condition: f.cur_cond, elements: els };
                f.cur_cond = cond;
                f.sections.push(sec);
                stack.push(f);
                proof {
                    lemma_gsections_of_push(sections0, sec);
                    assert(gels_of(Seq::<SequenceElement>::empty()) =~= Seq::<GEl>::empty());
                    assert(gframes_of(stack@) =~= gframes_of(stack0).update(
                        stack0.len() - 1,
                        gframe_of(stack@.last()),
                    ));
                    assert(gstep(st0, gstmt_of(stt), lineno as int) == GStep::Go(
                        abs_state(*d, cur@, stack@, *boxc),
                    ));
                }
            } else {
                proof {
                    assert(gstep(st0, gstmt_of(stt), lineno as int) == GStep::Go(
                        abs_state(*d, cur@, stack@, *boxc),
                    ));
                }
            }
            Ok(())
        },
        Stmt::FragEnd => {
            if stack.len() == 0 {
                return Err(
                    ParseError::SyntaxError {
                        line: lineno,
                        message: String::from_str("end without an open fragment"),
                    },
                );
            }
            let ghost stack0 = stack@;
            let mut f = stack.pop().unwrap();
            let mut els: Vec<SequenceElement> = Vec::new();
            core::mem::swap(cur, &mut els);
            let mut restored = f.saved;
            core::mem::swap(cur, &mut restored);
            let ghost sections0 = f.sections@;
            let sec = FragmentSection { condition: f.cur_cond, elements: els };
            f.sections.push(sec);
            let frag = Fragment {
                fragment_type: f.ftype,
                condition: f.cond,
                sections: f.sections,
            };
            let el = SequenceElement::Fragment(frag);
            proof {
                lemma_gsections_of_push(sections0, sec);
                assert(gframes_of(stack@) =~= gframes_of(stack0).drop_last());
            }
            if stack.len() == 0 {
                let ghost els0 = d.elements@;
                d.add_element(el);
                proof {
                    lemma_gels_of_push(els0, el);
                    assert(gstep(st0, gstmt_of(stt), lineno as int) == GStep::Go(
                        abs_state(*d, cur@, stack@, *boxc),
                    ));
                }
            } else {
                let ghost cur0 = cur@;
                cur.push(el);
                proof {
                    lemma_gels_of_push(cur0, el);
                    assert(gstep(st0, gstmt_of(stt), lineno as int) == GStep::Go(
                        abs_state(*d, cur@, stack@, *boxc),
                    ));
                }
            }
            Ok(())
        },
        Stmt::NoteLine(nt) => {
            push_element(d, cur, stack, SequenceElement::Note(nt));
            proof {
                assert(gstep(st0, gstmt_of(stt), lineno as int) == GStep::Go(
                    abs_state(*d, cur@, stack@, *boxc),
                ));
            }
            Ok(())
        },
        Stmt::DividerLine(text) => {
            push_element(d, cur, stack, SequenceElement::Divider(Divider { text }));
            proof {
                assert(gstep(st0, gstmt_of(stt), lineno as int) == GStep::Go(
                    abs_state(*d, cur@, stack@, *boxc),
                ));
            }
            Ok(())
        },
        Stmt::DelayLine(text) => {
            push_element(d, cur, stack, SequenceElement::Delay(Delay { text }));
            proof {
                assert(gstep(st0, gstmt_of(stt), lineno as int) == GStep::Go(
                    abs_state(*d, cur@, stack@, *boxc),
                ));
            }
            Ok(())
        },
        Stmt::ActivateLine(participant, color) => {
            push_element(
                d,
                cur,
                stack,
                SequenceElement::Activation(
                    Activation { participant, activation_type: ActivationType::Activate, color },
                ),
            );
            proof {
                assert(gstep(st0, gstmt_of(stt), lineno as int) == GStep::Go(
                    abs_state(*d, cur@, stack@, *boxc),
                ));
            }
            Ok(())
        },
        Stmt::DeactivateLine(participant) => {
            push_element(
                d,
                cur,
                stack,
                SequenceElement::Activation(
                    Activation {
                        participant,
                        activation_type: ActivationType::Deactivate,
                        color: None,
                    },
                ),
            );
            proof {
                assert(gstep(st0, gstmt_of(stt), lineno as int) == GStep::Go(
                    abs_state(*d, cur@, stack@, *boxc),
                ));
            }
            Ok(())
        },
        Stmt::DestroyLine(participant) => {
            push_element(
                d,
                cur,
                stack,
                SequenceElement::Activation(
                    Activation {
                        participant,
                        activation_type: ActivationType::Destroy,
                        color: None,
                    },
                ),
            );
            proof {
                assert(gstep(st0, gstmt_of(stt), lineno as int) == GStep::Go(
                    abs_state(*d, cur@, stack@, *boxc),
                ));
            }
            Ok(())
        },
        Stmt::AutoLine(cmd) => {
            push_element(d, cur, stack, SequenceElement::Autonumber(cmd));
            proof {
                assert(gstep(st0, gstmt_of(stt), lineno as int) == GStep::Go(
                    abs_state(*d, cur@, stack@, *boxc),
                ));
            }
            Ok(())
        },
        Stmt::ReturnLine(label) => {
            push_element(d, cur, stack, SequenceElement::Return(Return { label }));
            proof {
                assert(gstep(st0, gstmt_of(stt), lineno as int) == GStep::Go(
                    abs_state(*d, cur@, stack@, *boxc),
                ));
            }
            Ok(())
        },
        Stmt::MsgLine(m) => {
            push_element(d, cur, stack, SequenceElement::Message(m));
            proof {
                assert(gstep(st0, gstmt_of(stt), lineno as int) == GStep::Go(
                    abs_state(*d, cur@, stack@, *boxc),
                ));
            }
            Ok(())
        },
    }
}

/// Parses the text of a sequence diagram, bracketed by `@startuml` and
/// `@enduml`, into its abstract syntax tree.
///
/// Machine limits: a source longer than `MAX_TEXT` characters, or one whose
/// diagram would exceed `MAX_ITEMS` participants, boxes or (recursively
/// counted) elements, is rejected with an error at line 0.
pub fn parse_sequence(source: &str) -> (r: Result<SequenceDiagram, ParseError>)
    ensures
        match r {
            Ok(d) => parse_spec(source@) == GOut::Done(gdiag_of(d)) && seq_diagram_wf(d),
            Err(e) => parse_spec(source@) == GOut::Failed(e.line_no()),
        },
{
    let lines = split_lines(source);
    let ghost glines = split_lines_spec(source@);
    let n = lines.len();
    let start = match find_start(&lines, Ghost(glines)) {
        Ok(i) => i,
        Err(e) => {
            return Err(e);
        },
    };
    let mut i: usize = start + 1;
    let mut d = SequenceDiagram::new();
    let mut cur: Vec<SequenceElement> = Vec::new();
    let mut stack: Vec<Frame> = Vec::new();
    let mut boxc: Option<BoxOpen> = None;
    let ghost expected = gparse_start(glines, 0);
    proof {
        assert(gels_of(Seq::<SequenceElement>::empty()) =~= Seq::<GEl>::empty());
        assert(Seq::new(0, |k: int| gpart_of(d.participants@[k])) =~= Seq::<GPart>::empty());
        assert(Seq::new(0, |k: int| gbox_of(d.boxes@[k])) =~= Seq::<GBox>::empty());
        assert(gframes_of(Seq::<Frame>::empty()) =~= Seq::<GFrame>::empty());
        assert(abs_state(d, cur@, stack@, boxc) == init_state());
    }
    loop
        invariant
            i <= n,
            n == glines.len(),
            n == lines@.len(),
            glines == split_lines_spec(source@),
            forall|k: int| 0 <= k < n ==> #[trigger] lines@[k]@ == glines[k],
            expected == gparse_lines(glines, i as int, abs_state(d, cur@, stack@, boxc)),
            expected == gparse_start(glines, 0),
        decreases n - i,
    {
        if i == n {
            proof {
                assert(gparse_lines(glines, i as int, abs_state(d, cur@, stack@, boxc))
                    == GOut::Failed(n as int));
                assert(gparse_start(glines, 0) == GOut::Failed(n as int));
                assert(parse_spec(source@) == GOut::Failed(n as int));
            }
            return Err(
                ParseError::SyntaxError {
                    line: n,
                    message: String::from_str("missing @enduml"),
                },
            );
        }
        let ghost st0 = abs_state(d, cur@, stack@, boxc);
        let stt = classify(&lines[i]);
        if let Stmt::End = stt {
            proof {
                lemma_diag_abs(d);
                assert(classify_spec(glines[i as int]) is End);
                assert(gparse_lines(glines, i as int, st0) == GOut::Done(finish(st0)));
                assert(finish(st0) == gdiag_of(d));
                assert(expected == GOut::Done(gdiag_of(d)));
                assert(gparse_start(glines, 0) == GOut::Done(gdiag_of(d)));
            }
            proof {
                assert(seq_diagram_wf(d) ==> parse_spec(source@) == GOut::Done(gdiag_of(d)));
                assert(!seq_diagram_wf(d) ==> parse_spec(source@) == GOut::Failed(0));
            }
            if seq_diagram_ok(&d) {
                return Ok(d);
            } else {
                return Err(
                    ParseError::SyntaxError {
                        line: 0,
                        message: String::from_str("diagram exceeds size limits"),
                    },
                );
            }
        }
        match apply_stmt(&mut d, &mut cur, &mut stack, &mut boxc, stt, i + 1) {
            Ok(()) => {
            },
            Err(e) => {
                return Err(e);
            },
        }
        i = i + 1;
    }
}

/// Appends an element at the current nesting level, mirroring [`push_el`].
fn push_element(
    d: &mut SequenceDiagram,
    cur: &mut Vec<SequenceElement>,
    stack: &Vec<Frame>,
    el: SequenceElement,
)
    ensures
        stack@.len() == 0 ==> {
            &&& final(d).elements@ == old(d).elements@.push(el)
            &&& final(cur)@ == old(cur)@
            &&& final(d).participants@ == old(d).participants@
            &&& final(d).boxes@ == old(d).boxes@
            &&& final(d).metadata == old(d).metadata
            &&& gels_of(final(d).elements@) == gels_of(old(d).elements@).push(
                crate::gast::gel_of(el),
            )
        },
        stack@.len() > 0 ==> {
            &&& final(cur)@ == old(cur)@.push(el)
            &&& *final(d) == *old(d)
            &&& gels_of(final(cur)@) == gels_of(old(cur)@).push(crate::gast::gel_of(el))
        },
{
    if stack.len() == 0 {
        proof {
            lemma_gels_of_push(d.elements@, el);
        }
        d.add_element(el);
    } else {
        proof {
            lemma_gels_of_push(cur@, el);
        }
        cur.push(el);
    }
}

} // verus!
