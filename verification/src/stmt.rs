//! Line classification: the grammar of single statements.
//!
//! Each line of a sequence diagram is one statement. The specification
//! functions here define, character by character, which statement a line is
//! and what its parts are; the executable classifier mirrors them exactly.

use vstd::prelude::*;
use crate::ast::Activation;
use crate::ast::ArrowType;
use crate::ast::AutonumberCommand;
use crate::ast::AutonumberStart;
use crate::ast::Color;
use crate::ast::FragmentType;
use crate::ast::LineStyle;
use crate::ast::Message;
use crate::ast::Note;
use crate::ast::NotePosition;
use crate::ast::Participant;
use crate::ast::ParticipantId;
use crate::ast::ParticipantType;
use crate::ast::Stereotype;
use crate::gast::GAuto;
use crate::gast::GMsg;
use crate::gast::GNote;
use crate::gast::GPart;
use crate::gast::gauto_of;
use crate::gast::gmsg_of;
use crate::gast::gnote_of;
use crate::gast::gopt_str;
use crate::gast::gpart_of;
use crate::numfmt::is_digit;
use crate::scan::contains_pair;
use crate::scan::contains_pair_x;
use crate::scan::digit_val;
use crate::scan::digits_val_spec;
use crate::scan::digits_val_x;
use crate::scan::find_spec;
use crate::scan::find_x;
use crate::scan::is_digit_x;
use crate::scan::lemma_find_spec_bounds;
use crate::scan::lemma_scan_digits_bounds;
use crate::scan::lemma_scan_ident_bounds;
use crate::scan::lemma_scan_run_bounds;
use crate::scan::lemma_skip_spaces_bounds;
use crate::scan::scan_arrow_spec;
use crate::scan::scan_arrow_x;
use crate::scan::scan_digits_spec;
use crate::scan::scan_digits_x;
use crate::scan::scan_ident_spec;
use crate::scan::scan_ident_x;
use crate::scan::scan_run_rev_spec;
use crate::scan::scan_run_rev_x;
use crate::scan::scan_run_spec;
use crate::scan::scan_run_x;
use crate::scan::skip_spaces_spec;
use crate::scan::skip_spaces_x;
use crate::scan::substr;
use crate::scan::range_is;
use crate::scan::trimmed;
use crate::scan::word_at;
use crate::scan::word_at_x;
use crate::scan::word_prefix;
use crate::scan::word_prefix_x;

verus! {

broadcast use lemma_skip_spaces_bounds, lemma_scan_ident_bounds, lemma_scan_digits_bounds, lemma_find_spec_bounds, lemma_scan_run_bounds, crate::scan::lemma_scan_arrow_bounds;

/// `None` for an empty text, `Some` otherwise.
pub open spec fn opt_of(s: Seq<char>) -> Option<Seq<char>> {
    if s.len() == 0 {
        None
    } else {
        Some(s)
    }
}

/// The end of the name token at `i`: a quoted string or an identifier run.
/// `-1` when no token starts there.
pub open spec fn token_end(s: Seq<char>, i: int) -> int {
    if 0 <= i < s.len() && s[i] == '"' {
        let e = find_spec(s, '"', i + 1);
        if e < s.len() {
            e + 1
        } else {
            -1
        }
    } else {
        let j = scan_ident_spec(s, i);
        if 0 <= i && j > i {
            j
        } else {
            -1
        }
    }
}

/// The text of the name token at `i` (without quotes).
pub open spec fn token_val(s: Seq<char>, i: int) -> Seq<char> {
    if 0 <= i < s.len() && s[i] == '"' {
        s.subrange(i + 1, find_spec(s, '"', i + 1))
    } else {
        s.subrange(i, scan_ident_spec(s, i))
    }
}

pub proof fn lemma_token_end_bounds(s: Seq<char>, i: int)
    requires
        0 <= i <= s.len(),
    ensures
        token_end(s, i) == -1 || i < token_end(s, i) <= s.len(),
{
}

/// Reads the name token at `i`, returning its text and its end.
pub fn token_x(tline: &str, cs: &Vec<char>, i: usize) -> (r: Option<(String, usize)>)
    requires
        cs@ == tline@,
        i <= cs@.len(),
    ensures
        match r {
            Some(v) => {
                &&& token_end(cs@, i as int) == v.1
                &&& v.0@ == token_val(cs@, i as int)
                &&& i < v.1 <= cs@.len()
            },
            None => token_end(cs@, i as int) == -1,
        },
{
    if i < cs.len() && cs[i] == '"' {
        let e = find_x(cs, '"', i + 1);
        if e < cs.len() {
            Some((substr(tline, i + 1, e), e + 1))
        } else {
            None
        }
    } else {
        let j = scan_ident_x(cs, i);
        if j > i {
            Some((substr(tline, i, j), j))
        } else {
            None
        }
    }
}

pub open spec fn is_hex_char(c: char) -> bool {
    is_digit(c) || ('a' <= c <= 'f') || ('A' <= c <= 'F')
}

pub open spec fn hex_val(c: char) -> int {
    if is_digit(c) {
        digit_val(c)
    } else if c == 'a' || c == 'A' {
        10
    } else if c == 'b' || c == 'B' {
        11
    } else if c == 'c' || c == 'C' {
        12
    } else if c == 'd' || c == 'D' {
        13
    } else if c == 'e' || c == 'E' {
        14
    } else {
        15
    }
}

/// The color a color token (the text after `#`) denotes: six hex digits, or
/// one of the named shades; anything else is black.
pub open spec fn color_of(tok: Seq<char>) -> Color {
    if tok.len() == 6 && (forall|i: int| 0 <= i < 6 ==> is_hex_char(#[trigger] tok[i])) {
        Color {
            r: (hex_val(tok[0]) * 16 + hex_val(tok[1])) as u8,
            g: (hex_val(tok[2]) * 16 + hex_val(tok[3])) as u8,
            b: (hex_val(tok[4]) * 16 + hex_val(tok[5])) as u8,
        }
    } else if tok == "LightBlue"@ {
        Color { r: 173, g: 216, b: 230 }
    } else if tok == "LightGreen"@ {
        Color { r: 144, g: 238, b: 144 }
    } else if tok == "LightYellow"@ {
        Color { r: 255, g: 255, b: 224 }
    } else if tok == "Red"@ {
        Color { r: 255, g: 0, b: 0 }
    } else if tok == "Green"@ {
        Color { r: 0, g: 128, b: 0 }
    } else if tok == "Blue"@ {
        Color { r: 0, g: 0, b: 255 }
    } else if tok == "Yellow"@ {
        Color { r: 255, g: 255, b: 0 }
    } else if tok == "Orange"@ {
        Color { r: 255, g: 165, b: 0 }
    } else if tok == "Gray"@ {
        Color { r: 128, g: 128, b: 128 }
    } else if tok == "White"@ {
        Color { r: 255, g: 255, b: 255 }
    } else {
        Color { r: 0, g: 0, b: 0 }
    }
}

fn hex_val_x(c: char) -> (r: u8)
    ensures
        r == hex_val(c),
        r <= 15,
{
    if is_digit_x(c) {
        crate::scan::digit_val_x(c) as u8
    } else if c == 'a' || c == 'A' {
        10
    } else if c == 'b' || c == 'B' {
        11
    } else if c == 'c' || c == 'C' {
        12
    } else if c == 'd' || c == 'D' {
        13
    } else if c == 'e' || c == 'E' {
        14
    } else {
        15
    }
}

fn is_hex_char_x(c: char) -> (r: bool)
    ensures
        r == is_hex_char(c),
{
    is_digit_x(c) || ('a' <= c && c <= 'f') || ('A' <= c && c <= 'F')
}

/// Reads the color denoted by `cs[a..b]`.
pub fn color_of_x(cs: &Vec<char>, a: usize, b: usize) -> (c: Color)
    requires
        a <= b <= cs@.len(),
    ensures
        c == color_of(cs@.subrange(a as int, b as int)),
{
    let ghost tok = cs@.subrange(a as int, b as int);
    if b - a == 6 {
        let mut all_hex = true;
        let mut k: usize = 0;
        while k < 6
            invariant
                k <= 6,
                a + 6 == b,
                b <= cs@.len(),
                tok == cs@.subrange(a as int, b as int),
                all_hex == (forall|m: int| 0 <= m < k ==> is_hex_char(#[trigger] tok[m])),
            decreases 6 - k,
        {
            proof {
                assert(tok[k as int] == cs@[a + k]);
            }
            let ok = is_hex_char_x(cs[a + k]);
            all_hex = all_hex && ok;
            k = k + 1;
        }
        if all_hex {
            proof {
                assert(tok[0] == cs@[a as int]);
                assert(tok[1] == cs@[a + 1]);
                assert(tok[2] == cs@[a + 2]);
                assert(tok[3] == cs@[a + 3]);
                assert(tok[4] == cs@[a + 4]);
                assert(tok[5] == cs@[a + 5]);
            }
            let r = hex_val_x(cs[a]) * 16 + hex_val_x(cs[a + 1]);
            let g = hex_val_x(cs[a + 2]) * 16 + hex_val_x(cs[a + 3]);
            let b2 = hex_val_x(cs[a + 4]) * 16 + hex_val_x(cs[a + 5]);
            return Color { r, g, b: b2 };
        }
    }
    if range_is(cs, a, b, "LightBlue") {
        Color { r: 173, g: 216, b: 230 }
    } else if range_is(cs, a, b, "LightGreen") {
        Color { r: 144, g: 238, b: 144 }
    } else if range_is(cs, a, b, "LightYellow") {
        Color { r: 255, g: 255, b: 224 }
    } else if range_is(cs, a, b, "Red") {
        Color { r: 255, g: 0, b: 0 }
    } else if range_is(cs, a, b, "Green") {
        Color { r: 0, g: 128, b: 0 }
    } else if range_is(cs, a, b, "Blue") {
        Color { r: 0, g: 0, b: 255 }
    } else if range_is(cs, a, b, "Yellow") {
        Color { r: 255, g: 255, b: 0 }
    } else if range_is(cs, a, b, "Orange") {
        Color { r: 255, g: 165, b: 0 }
    } else if range_is(cs, a, b, "Gray") {
        Color { r: 128, g: 128, b: 128 }
    } else if range_is(cs, a, b, "White") {
        Color { r: 255, g: 255, b: 255 }
    } else {
        Color { r: 0, g: 0, b: 0 }
    }
}

/// One classified line, in ghost form.
pub ghost enum GStmt {
    Blank,
    Start,
    End,
    Title { text: Seq<char> },
    PartDecl { p: GPart },
    BoxStart { title: Option<Seq<char>>, color: Option<Color> },
    BoxEnd,
    FragStart { ftype: FragmentType, cond: Option<Seq<char>> },
    FragElse { cond: Option<Seq<char>> },
    FragEnd,
    NoteLine { n: GNote },
    DividerLine { text: Seq<char> },
    DelayLine { text: Option<Seq<char>> },
    ActivateLine { participant: Seq<char>, color: Option<Color> },
    DeactivateLine { participant: Seq<char> },
    DestroyLine { participant: Seq<char> },
    AutoLine { cmd: GAuto },
    ReturnLine { label: Option<Seq<char>> },
    MsgLine { m: GMsg },
    Bad,
}

/// One classified line, in executable form.
pub enum Stmt {
    Blank,
    Start,
    End,
    Title(String),
    PartDecl(Participant),
    BoxStart(Option<String>, Option<Color>),
    BoxEnd,
    FragStart(FragmentType, Option<String>),
    FragElse(Option<String>),
    FragEnd,
    NoteLine(Note),
    DividerLine(String),
    DelayLine(Option<String>),
    ActivateLine(String, Option<Color>),
    DeactivateLine(String),
    DestroyLine(String),
    AutoLine(AutonumberCommand),
    ReturnLine(Option<String>),
    MsgLine(Message),
    Bad,
}

pub open spec fn gstmt_of(s: Stmt) -> GStmt {
    match s {
        Stmt::Blank => GStmt::Blank,
        Stmt::Start => GStmt::Start,
        Stmt::End => GStmt::End,
        Stmt::Title(t) => GStmt::Title { text: t@ },
        Stmt::PartDecl(p) => GStmt::PartDecl { p: gpart_of(p) },
        Stmt::BoxStart(t, c) => GStmt::BoxStart { title: gopt_str(t), color: c },
        Stmt::BoxEnd => GStmt::BoxEnd,
        Stmt::FragStart(ft, c) => GStmt::FragStart { ftype: ft, cond: gopt_str(c) },
        Stmt::FragElse(c) => GStmt::FragElse { cond: gopt_str(c) },
        Stmt::FragEnd => GStmt::FragEnd,
        Stmt::NoteLine(n) => GStmt::NoteLine { n: gnote_of(n) },
        Stmt::DividerLine(t) => GStmt::DividerLine { text: t@ },
        Stmt::DelayLine(t) => GStmt::DelayLine { text: gopt_str(t) },
        Stmt::ActivateLine(p, c) => GStmt::ActivateLine { participant: p@, color: c },
        Stmt::DeactivateLine(p) => GStmt::DeactivateLine { participant: p@ },
        Stmt::DestroyLine(p) => GStmt::DestroyLine { participant: p@ },
        Stmt::AutoLine(c) => GStmt::AutoLine { cmd: gauto_of(c) },
        Stmt::ReturnLine(l) => GStmt::ReturnLine { label: gopt_str(l) },
        Stmt::MsgLine(m) => GStmt::MsgLine { m: gmsg_of(m) },
        Stmt::Bad => GStmt::Bad,
    }
}

/// Suffix modifiers after a participant declaration's name: alias, color,
/// order and stereotype, in any order.
pub open spec fn part_suffix(t: Seq<char>, i: int, p: GPart) -> Option<GPart>
    decreases t.len() - i,
    via part_suffix_dec
{
    if !(0 <= i <= t.len()) {
        None
    } else {
        let j = skip_spaces_spec(t, i);
        if j >= t.len() {
            Some(p)
        } else if t[j] == '#' {
            let e = scan_ident_spec(t, j + 1);
            if e > j + 1 {
                part_suffix(
                    t,
                    e,
                    GPart { color: Some(color_of(t.subrange(j + 1, e))), ..p },
                )
            } else {
                None
            }
        } else if j + 1 < t.len() && t[j] == '<' && t[j + 1] == '<' {
            let e = find_spec(t, '>', j + 2);
            if e + 1 < t.len() && t[e + 1] == '>' {
                part_suffix(
                    t,
                    e + 2,
                    GPart { stereo: Some(trimmed(t.subrange(j + 2, e))), ..p },
                )
            } else {
                None
            }
        } else if word_at(t, j, "as"@) {
            let i2 = skip_spaces_spec(t, j + 2);
            let e = token_end(t, i2);
            if e > 0 {
                part_suffix(t, e, GPart { alias: Some(token_val(t, i2)), ..p })
            } else {
                None
            }
        } else if word_at(t, j, "order"@) {
            let i2 = skip_spaces_spec(t, j + 5);
            let e = scan_digits_spec(t, i2);
            if e > i2 && e - i2 <= 8 {
                part_suffix(
                    t,
                    e,
                    GPart { order: Some(digits_val_spec(t, i2, e) as i32), ..p },
                )
            } else {
                None
            }
        } else {
            None
        }
    }
}

#[via_fn]
proof fn part_suffix_dec(t: Seq<char>, i: int, p: GPart) {
    if 0 <= i <= t.len() {
        let j = skip_spaces_spec(t, i);
        if j < t.len() {
            if t[j] == '#' {
            } else if j + 1 < t.len() && t[j] == '<' && t[j + 1] == '<' {
            } else if word_at(t, j, "as"@) {
                let i2 = skip_spaces_spec(t, j + 2);
                lemma_token_end_bounds(t, i2);
            } else if word_at(t, j, "order"@) {
            }
        }
    }
}

/// A participant declaration: the keyword, the display name, then modifiers.
pub open spec fn part_stmt(t: Seq<char>, kl: int, ptype: ParticipantType) -> GStmt {
    let i0 = skip_spaces_spec(t, kl);
    let e = token_end(t, i0);
    if e <= 0 {
        GStmt::Bad
    } else {
        let base = GPart {
            name: token_val(t, i0),
            alias: None,
            ptype: ptype,
            color: None,
            order: None,
            stereo: None,
        };
        match part_suffix(t, e, base) {
            Some(p) => GStmt::PartDecl { p },
            None => GStmt::Bad,
        }
    }
}

/// Activation shorthand after a message target: pairs of `++`, `--`, `**`,
/// `!!`. A `--` pair deactivates the source only while it leads the run,
/// before any other marker. Returns the end of the run and the four flags
/// (activate, deactivate, create, destroy).
pub open spec fn msg_suffix(t: Seq<char>, i: int) -> (int, bool, bool, bool, bool) {
    msg_suffix_at(t, i, true)
}

pub open spec fn msg_suffix_at(t: Seq<char>, i: int, leading: bool) -> (
    int,
    bool,
    bool,
    bool,
    bool,
)
    decreases t.len() - i,
{
    if 0 <= i && i + 2 <= t.len() && ((t[i] == '+' && t[i + 1] == '+') || (t[i] == '-' && t[i + 1]
        == '-') || (t[i] == '*' && t[i + 1] == '*') || (t[i] == '!' && t[i + 1] == '!')) {
        let still_leading = leading && t[i] == '-';
        let rest = msg_suffix_at(t, i + 2, still_leading);
        (
            rest.0,
            rest.1 || t[i] == '+',
            rest.2 || (t[i] == '-' && leading),
            rest.3 || t[i] == '*',
            rest.4 || t[i] == '!',
        )
    } else {
        (i, false, false, false, false)
    }
}

/// Line style of an arrow token: dashes doubled or any dot means dashed.
pub open spec fn arrow_style(run: Seq<char>) -> LineStyle {
    if contains_pair(run, '-') || (run.len() > 0 && run[0] == '.') || contains_pair(run, '.') {
        LineStyle::Dashed
    } else {
        LineStyle::Solid
    }
}

/// Head kind of an arrow token.
pub open spec fn arrow_kind(run: Seq<char>) -> ArrowType {
    if contains_pair(run, '>') {
        ArrowType::Thin
    } else if contains_pair(run, '\\') || contains_pair(run, '/') {
        ArrowType::HalfTop
    } else if run.len() > 0 && run.last() == 'o' {
        ArrowType::Circle
    } else if run.len() > 0 && run.last() == 'x' {
        ArrowType::Cross
    } else {
        ArrowType::Normal
    }
}

/// A message line: source token, arrow, target token, activation shorthand,
/// optional color, optional `: label`.
pub open spec fn msg_stmt(t: Seq<char>) -> GStmt {
    let e_from = token_end(t, 0);
    if e_from <= 0 {
        GStmt::Bad
    } else {
        let from = token_val(t, 0);
        let i1 = skip_spaces_spec(t, e_from);
        if !(i1 < t.len() && (t[i1] == '-' || t[i1] == '.')) {
            GStmt::Bad
        } else {
            let a0 = scan_arrow_spec(t, i1);
            let a1 = if a0 < t.len() && (t[a0] == 'x' || t[a0] == 'o') && t[a0 - 1] == '>' {
                a0 + 1
            } else {
                a0
            };
            let run = t.subrange(i1, a1);
            let i2 = skip_spaces_spec(t, a1);
            let e_to = token_end(t, i2);
            if e_to <= 0 {
                GStmt::Bad
            } else {
                let to = token_val(t, i2);
                let sfx = msg_suffix(t, e_to);
                let i3 = skip_spaces_spec(t, sfx.0);
                if i3 < t.len() && t[i3] == '#' {
                    let ce = scan_ident_spec(t, i3 + 1);
                    if ce > i3 + 1 {
                        let i4 = skip_spaces_spec(t, ce);
                        msg_finish(
                            t,
                            from,
                            to,
                            run,
                            sfx,
                            Some(color_of(t.subrange(i3 + 1, ce))),
                            i4,
                        )
                    } else {
                        GStmt::Bad
                    }
                } else {
                    msg_finish(t, from, to, run, sfx, None, i3)
                }
            }
        }
    }
}

/// The label part of a message line, and assembly of the message.
pub open spec fn msg_finish(
    t: Seq<char>,
    from: Seq<char>,
    to: Seq<char>,
    run: Seq<char>,
    sfx: (int, bool, bool, bool, bool),
    color: Option<Color>,
    i: int,
) -> GStmt {
    if i == t.len() || (i < t.len() && t[i] == ':') {
        let label = if i == t.len() {
            Seq::<char>::empty()
        } else {
            trimmed(t.subrange(i + 1, t.len() as int))
        };
        GStmt::MsgLine {
            m: GMsg {
                from: from,
                to: to,
                label: label,
                line_style: arrow_style(run),
                arrow_type: arrow_kind(run),
                activate: sfx.1,
                deactivate: sfx.2,
                create: sfx.3,
                destroy: sfx.4,
                color: color,
            },
        }
    } else {
        GStmt::Bad
    }
}

/// The anchors of a `note over` statement: name tokens separated by commas.
pub open spec fn note_anchors(t: Seq<char>, i: int, acc: Seq<Seq<char>>) -> Option<
    (Seq<Seq<char>>, int),
>
    decreases t.len() - i,
    via note_anchors_dec
{
    if !(0 <= i <= t.len()) {
        None
    } else {
        let e = token_end(t, i);
        if e <= 0 {
            None
        } else {
            let acc2 = acc.push(token_val(t, i));
            let j = skip_spaces_spec(t, e);
            if j < t.len() && t[j] == ',' {
                let j2 = skip_spaces_spec(t, j + 1);
                note_anchors(t, j2, acc2)
            } else {
                Some((acc2, j))
            }
        }
    }
}

#[via_fn]
proof fn note_anchors_dec(t: Seq<char>, i: int, acc: Seq<Seq<char>>) {
    if 0 <= i <= t.len() {
        lemma_token_end_bounds(t, i);
    }
}

/// A note statement: `note left|right [of X] : text` or
/// `note over A, B : text` (`hnote` and `rnote` alike).
pub open spec fn note_stmt(t: Seq<char>, kl: int) -> GStmt {
    let i = skip_spaces_spec(t, kl);
    let w_end = scan_ident_spec(t, i);
    let w = t.subrange(i, w_end);
    if w == "left"@ || w == "right"@ {
        let pos = if w == "left"@ {
            NotePosition::Left
        } else {
            NotePosition::Right
        };
        let j = skip_spaces_spec(t, w_end);
        if word_at(t, j, "of"@) {
            let j2 = skip_spaces_spec(t, j + 2);
            let e = token_end(t, j2);
            if e <= 0 {
                GStmt::Bad
            } else {
                let k = skip_spaces_spec(t, e);
                if k < t.len() && t[k] == ':' {
                    GStmt::NoteLine {
                        n: GNote {
                            position: pos,
                            anchors: seq![token_val(t, j2)],
                            text: trimmed(t.subrange(k + 1, t.len() as int)),
                        },
                    }
                } else {
                    GStmt::Bad
                }
            }
        } else if j < t.len() && t[j] == ':' {
            GStmt::NoteLine {
                n: GNote {
                    position: pos,
                    anchors: Seq::empty(),
                    text: trimmed(t.subrange(j + 1, t.len() as int)),
                },
            }
        } else {
            GStmt::Bad
        }
    } else if w == "over"@ || w == "across"@ {
        match note_anchors(t, skip_spaces_spec(t, w_end), Seq::empty()) {
            None => GStmt::Bad,
            Some(r) => {
                if r.1 < t.len() && t[r.1] == ':' {
                    GStmt::NoteLine {
                        n: GNote {
                            position: NotePosition::Over,
                            anchors: r.0,
                            text: trimmed(t.subrange(r.1 + 1, t.len() as int)),
                        },
                    }
                } else {
                    GStmt::Bad
                }
            },
        }
    } else {
        GStmt::Bad
    }
}

/// `activate X [#color]`.
pub open spec fn activate_stmt(t: Seq<char>, kl: int) -> GStmt {
    let i = skip_spaces_spec(t, kl);
    let e = token_end(t, i);
    if e <= 0 {
        GStmt::Bad
    } else {
        let k = skip_spaces_spec(t, e);
        if k >= t.len() {
            GStmt::ActivateLine { participant: token_val(t, i), color: None }
        } else if t[k] == '#' {
            let ce = scan_ident_spec(t, k + 1);
            if ce > k + 1 && skip_spaces_spec(t, ce) == t.len() {
                GStmt::ActivateLine {
                    participant: token_val(t, i),
                    color: Some(color_of(t.subrange(k + 1, ce))),
                }
            } else {
                GStmt::Bad
            }
        } else {
            GStmt::Bad
        }
    }
}

/// `deactivate X` or `destroy X`: just the participant.
pub open spec fn one_name_stmt(t: Seq<char>, kl: int) -> Option<Seq<char>> {
    let i = skip_spaces_spec(t, kl);
    let e = token_end(t, i);
    if e > 0 && skip_spaces_spec(t, e) == t.len() {
        Some(token_val(t, i))
    } else {
        None
    }
}

/// The optional `start step "format"` parameters of `autonumber`.
pub open spec fn auto_params(t: Seq<char>, i: int) -> Option<
    (Option<u32>, Option<u32>, Option<Seq<char>>),
> {
    if !(0 <= i <= t.len()) {
        None
    } else if i >= t.len() {
        Some((None, None, None))
    } else if is_digit(t[i]) {
        let e = scan_digits_spec(t, i);
        if e - i > 8 {
            None
        } else {
            let n1 = digits_val_spec(t, i, e) as u32;
            let j = skip_spaces_spec(t, e);
            if j >= t.len() {
                Some((Some(n1), None, None))
            } else if is_digit(t[j]) {
                let e2 = scan_digits_spec(t, j);
                if e2 - j > 8 {
                    None
                } else {
                    let n2 = digits_val_spec(t, j, e2) as u32;
                    let k = skip_spaces_spec(t, e2);
                    if k >= t.len() {
                        Some((Some(n1), Some(n2), None))
                    } else if t[k] == '"' {
                        match fmt_at(t, k) {
                            Some(f) => Some((Some(n1), Some(n2), Some(f))),
                            None => None,
                        }
                    } else {
                        None
                    }
                }
            } else if t[j] == '"' {
                match fmt_at(t, j) {
                    Some(f) => Some((Some(n1), None, Some(f))),
                    None => None,
                }
            } else {
                None
            }
        }
    } else if t[i] == '"' {
        match fmt_at(t, i) {
            Some(f) => Some((None, None, Some(f))),
            None => None,
        }
    } else {
        None
    }
}

/// A quoted format string that must end the line.
pub open spec fn fmt_at(t: Seq<char>, k: int) -> Option<Seq<char>> {
    let e = find_spec(t, '"', k + 1);
    if e < t.len() && skip_spaces_spec(t, e + 1) == t.len() {
        Some(t.subrange(k + 1, e))
    } else {
        None
    }
}

/// An `autonumber` directive.
pub open spec fn auto_stmt(t: Seq<char>, kl: int) -> GStmt {
    let r = skip_spaces_spec(t, kl);
    if r >= t.len() {
        GStmt::AutoLine { cmd: GAuto::Start { start: None, step: None, format: None } }
    } else {
        let w_end = scan_ident_spec(t, r);
        let w = t.subrange(r, w_end);
        if w == "stop"@ {
            if skip_spaces_spec(t, w_end) == t.len() {
                GStmt::AutoLine { cmd: GAuto::Stop }
            } else {
                GStmt::Bad
            }
        } else if w == "resume"@ {
            match auto_params(t, skip_spaces_spec(t, w_end)) {
                None => GStmt::Bad,
                Some(p) => GStmt::AutoLine {
                    cmd: GAuto::Resume {
                        params: if p.0 is None && p.1 is None && p.2 is None {
                            None
                        } else {
                            Some(p)
                        },
                    },
                },
            }
        } else if w == "inc"@ {
            let i2 = skip_spaces_spec(t, w_end);
            let e = scan_ident_spec(t, i2);
            if e > i2 && skip_spaces_spec(t, e) == t.len() {
                GStmt::AutoLine { cmd: GAuto::Inc { level: t.subrange(i2, e) } }
            } else {
                GStmt::Bad
            }
        } else {
            match auto_params(t, r) {
                None => GStmt::Bad,
                Some(p) => GStmt::AutoLine {
                    cmd: GAuto::Start { start: p.0, step: p.1, format: p.2 },
                },
            }
        }
    }
}

/// A `box` opening: optional quoted or bare title, optional color.
pub open spec fn box_stmt(t: Seq<char>) -> GStmt {
    let i = skip_spaces_spec(t, 3);
    if i >= t.len() {
        GStmt::BoxStart { title: None, color: None }
    } else {
        let tj = box_title_at(t, i);
        match tj {
            None => GStmt::Bad,
            Some(v) => {
                let j = v.1;
                if j >= t.len() {
                    GStmt::BoxStart { title: v.0, color: None }
                } else if t[j] == '#' {
                    let ce = scan_ident_spec(t, j + 1);
                    if ce > j + 1 && skip_spaces_spec(t, ce) == t.len() {
                        GStmt::BoxStart {
                            title: v.0,
                            color: Some(color_of(t.subrange(j + 1, ce))),
                        }
                    } else {
                        GStmt::Bad
                    }
                } else {
                    GStmt::Bad
                }
            },
        }
    }
}

/// The title of a `box` line: quoted text, a bare word, or nothing before a
/// color. Returns the title and the position after it.
pub open spec fn box_title_at(t: Seq<char>, i: int) -> Option<(Option<Seq<char>>, int)> {
    if t[i] == '#' {
        Some((None, i))
    } else if t[i] == '"' {
        let e = find_spec(t, '"', i + 1);
        if e < t.len() {
            Some((Some(t.subrange(i + 1, e)), skip_spaces_spec(t, e + 1)))
        } else {
            None
        }
    } else {
        let e = scan_ident_spec(t, i);
        if e > i {
            Some((Some(t.subrange(i, e)), skip_spaces_spec(t, e)))
        } else {
            None
        }
    }
}

/// The text between the `=` runs of a divider.
pub open spec fn divider_text(t: Seq<char>) -> Seq<char> {
    let a = scan_run_spec(t, '=', 0);
    let b = scan_run_rev_spec(t, '=', t.len() as int);
    if a <= b {
        trimmed(t.subrange(a, b))
    } else {
        Seq::empty()
    }
}

/// The text between the `.` runs of a delay.
pub open spec fn delay_text(t: Seq<char>) -> Seq<char> {
    let a = scan_run_spec(t, '.', 0);
    let b = scan_run_rev_spec(t, '.', t.len() as int);
    if a <= b {
        trimmed(t.subrange(a, b))
    } else {
        Seq::empty()
    }
}

/// `end` alone closes a fragment; `end box` closes a box.
pub open spec fn end_stmt(t: Seq<char>) -> GStmt {
    let r = trimmed(t.skip(3));
    if r == "box"@ {
        GStmt::BoxEnd
    } else if r.len() == 0 {
        GStmt::FragEnd
    } else {
        GStmt::Bad
    }
}

/// The statement a line holds. Keywords take precedence; a line that fits no
/// statement form is `Bad`, which the parser reports as a syntax error.
#[verifier::opaque]
pub open spec fn classify_spec(line: Seq<char>) -> GStmt {
    let t = trimmed(line);
    if t.len() == 0 {
        GStmt::Blank
    } else if t[0] == '\'' {
        GStmt::Blank
    } else if word_prefix(t, "@startuml"@) {
        GStmt::Start
    } else if word_prefix(t, "@enduml"@) {
        GStmt::End
    } else if t.len() >= 2 && t[0] == '=' && t[1] == '=' {
        GStmt::DividerLine { text: divider_text(t) }
    } else if t.len() >= 3 && t[0] == '.' && t[1] == '.' && t[2] == '.' {
        GStmt::DelayLine { text: opt_of(delay_text(t)) }
    } else {
        classify_kw_spec(t)
    }
}

/// The keyword statements of a non-blank line, and the message fallback.
pub open spec fn classify_kw_spec(t: Seq<char>) -> GStmt {
    if word_prefix(t, "title"@) {
        GStmt::Title { text: trimmed(t.skip("title"@.len() as int)) }
    } else if word_prefix(t, "box"@) {
        box_stmt(t)
    } else if word_prefix(t, "end"@) {
        end_stmt(t)
    } else if word_prefix(t, "alt"@) {
        GStmt::FragStart { ftype: FragmentType::Alt, cond: opt_of(trimmed(t.skip(3))) }
    } else if word_prefix(t, "opt"@) {
        GStmt::FragStart { ftype: FragmentType::Opt, cond: opt_of(trimmed(t.skip(3))) }
    } else if word_prefix(t, "loop"@) {
        GStmt::FragStart { ftype: FragmentType::Loop, cond: opt_of(trimmed(t.skip(4))) }
    } else if word_prefix(t, "par"@) {
        GStmt::FragStart { ftype: FragmentType::Par, cond: opt_of(trimmed(t.skip(3))) }
    } else if word_prefix(t, "break"@) {
        GStmt::FragStart { ftype: FragmentType::Break, cond: opt_of(trimmed(t.skip(5))) }
    } else if word_prefix(t, "critical"@) {
        GStmt::FragStart { ftype: FragmentType::Critical, cond: opt_of(trimmed(t.skip(8))) }
    } else if word_prefix(t, "group"@) {
        GStmt::FragStart { ftype: FragmentType::Group, cond: opt_of(trimmed(t.skip(5))) }
    } else if word_prefix(t, "else"@) {
        GStmt::FragElse { cond: opt_of(trimmed(t.skip(4))) }
    } else if word_prefix(t, "note"@) {
        note_stmt(t, 4)
    } else if word_prefix(t, "hnote"@) {
        note_stmt(t, 5)
    } else if word_prefix(t, "rnote"@) {
        note_stmt(t, 5)
    } else if word_prefix(t, "activate"@) {
        activate_stmt(t, 8)
    } else if word_prefix(t, "deactivate"@) {
        match one_name_stmt(t, 10) {
            Some(p) => GStmt::DeactivateLine { participant: p },
            None => GStmt::Bad,
        }
    } else if word_prefix(t, "destroy"@) {
        match one_name_stmt(t, 7) {
            Some(p) => GStmt::DestroyLine { participant: p },
            None => GStmt::Bad,
        }
    } else if word_prefix(t, "autonumber"@) {
        auto_stmt(t, 10)
    } else if word_prefix(t, "return"@) {
        GStmt::ReturnLine { label: opt_of(trimmed(t.skip(6))) }
    } else if word_prefix(t, "participant"@) {
        part_stmt(t, 11, ParticipantType::Participant)
    } else if word_prefix(t, "actor"@) {
        part_stmt(t, 5, ParticipantType::Actor)
    } else if word_prefix(t, "boundary"@) {
        part_stmt(t, 8, ParticipantType::Boundary)
    } else if word_prefix(t, "control"@) {
        part_stmt(t, 7, ParticipantType::Control)
    } else if word_prefix(t, "entity"@) {
        part_stmt(t, 6, ParticipantType::Entity)
    } else if word_prefix(t, "database"@) {
        part_stmt(t, 8, ParticipantType::Database)
    } else if word_prefix(t, "collections"@) {
        part_stmt(t, 11, ParticipantType::Collections)
    } else if word_prefix(t, "queue"@) {
        part_stmt(t, 5, ParticipantType::Queue)
    } else {
        msg_stmt(t)
    }
}

fn part_suffix_x(tline: &str, cs: &Vec<char>, i: usize, p: Participant) -> (r: Option<
    Participant,
>)
    requires
        cs@ == tline@,
        i <= cs@.len(),
    ensures
        match r {
            Some(p2) => part_suffix(cs@, i as int, gpart_of(p)) == Some(gpart_of(p2)),
            None => part_suffix(cs@, i as int, gpart_of(p)) is None,
        },
    decreases cs@.len() - i,
{
    let j = skip_spaces_x(cs, i);
    if j >= cs.len() {
        Some(p)
    } else if cs[j] == '#' {
        let e = scan_ident_x(cs, j + 1);
        if e > j + 1 {
            let c = color_of_x(cs, j + 1, e);
            let mut p2 = p;
            p2.color = Some(c);
            part_suffix_x(tline, cs, e, p2)
        } else {
            None
        }
    } else if j < cs.len() - 1 && cs[j] == '<' && cs[j + 1] == '<' {
        let e = find_x(cs, '>', j + 2);
        if e < cs.len() - 1 && cs[e + 1] == '>' {
            let st = crate::scan::trim_in_x(tline, cs, j + 2, e);
            let mut p2 = p;
            p2.stereotype = Some(Stereotype { name: st });
            part_suffix_x(tline, cs, e + 2, p2)
        } else {
            None
        }
    } else if word_at_x(cs, j, "as") {
        proof {
            reveal_strlit("as");
        }
        let i2 = skip_spaces_x(cs, j + 2);
        match token_x(tline, cs, i2) {
            Some(v) => {
                let mut p2 = p;
                p2.id.alias = Some(v.0);
                part_suffix_x(tline, cs, v.1, p2)
            },
            None => None,
        }
    } else if word_at_x(cs, j, "order") {
        proof {
            reveal_strlit("order");
        }
        let i2 = skip_spaces_x(cs, j + 5);
        let e = scan_digits_x(cs, i2);
        if e > i2 && e - i2 <= 8 {
            let v = digits_val_x(cs, i2, e);
            proof {
                crate::scan::lemma_digits_val_bound(cs@, i2 as int, e as int, 8);
                crate::scan::lemma_pow10_unfold();
            }
            let mut p2 = p;
            p2.order = Some(v as i32);
            part_suffix_x(tline, cs, e, p2)
        } else {
            None
        }
    } else {
        None
    }
}

fn part_line_x(tline: &str, cs: &Vec<char>, kl: usize, ptype: ParticipantType) -> (st: Stmt)
    requires
        cs@ == tline@,
        kl <= cs@.len(),
    ensures
        gstmt_of(st) == part_stmt(cs@, kl as int, ptype),
{
    let i0 = skip_spaces_x(cs, kl);
    match token_x(tline, cs, i0) {
        None => Stmt::Bad,
        Some(v) => {
            let base = Participant {
                id: ParticipantId { name: v.0, alias: None },
                participant_type: ptype,
                stereotype: None,
                color: None,
                order: None,
            };
            match part_suffix_x(tline, cs, v.1, base) {
                Some(p) => Stmt::PartDecl(p),
                None => Stmt::Bad,
            }
        },
    }
}

fn msg_suffix_x(cs: &Vec<char>, i: usize, leading: bool) -> (r: (
    usize,
    bool,
    bool,
    bool,
    bool,
))
    requires
        i <= cs@.len(),
    ensures
        r.0 == msg_suffix_at(cs@, i as int, leading).0,
        r.1 == msg_suffix_at(cs@, i as int, leading).1,
        r.2 == msg_suffix_at(cs@, i as int, leading).2,
        r.3 == msg_suffix_at(cs@, i as int, leading).3,
        r.4 == msg_suffix_at(cs@, i as int, leading).4,
        i <= r.0 <= cs@.len(),
    decreases cs@.len() - i,
{
    if cs.len() - i >= 2 && ((cs[i] == '+' && cs[i + 1] == '+') || (cs[i] == '-' && cs[i + 1]
        == '-') || (cs[i] == '*' && cs[i + 1] == '*') || (cs[i] == '!' && cs[i + 1] == '!')) {
        let still_leading = leading && cs[i] == '-';
        let rest = msg_suffix_x(cs, i + 2, still_leading);
        (
            rest.0,
            rest.1 || cs[i] == '+',
            rest.2 || (cs[i] == '-' && leading),
            rest.3 || cs[i] == '*',
            rest.4 || cs[i] == '!',
        )
    } else {
        (i, false, false, false, false)
    }
}

fn msg_line_x(tline: &str, cs: &Vec<char>) -> (st: Stmt)
    requires
        cs@ == tline@,
    ensures
        gstmt_of(st) == msg_stmt(cs@),
{
    let from_tok = match token_x(tline, cs, 0) {
        None => {
            return Stmt::Bad;
        },
        Some(v) => v,
    };
    let i1 = skip_spaces_x(cs, from_tok.1);
    if !(i1 < cs.len() && (cs[i1] == '-' || cs[i1] == '.')) {
        return Stmt::Bad;
    }
    let a0 = scan_arrow_x(cs, i1);
    proof {
        assert(crate::scan::is_arrow_char(cs@[i1 as int]));
        assert(scan_arrow_spec(cs@, i1 as int) == scan_arrow_spec(cs@, i1 + 1));
        assert(a0 >= i1 + 1);
    }
    let a1 = if a0 < cs.len() && (cs[a0] == 'x' || cs[a0] == 'o') && cs[a0 - 1] == '>' {
        a0 + 1
    } else {
        a0
    };
    let i2 = skip_spaces_x(cs, a1);
    let to_tok = match token_x(tline, cs, i2) {
        None => {
            return Stmt::Bad;
        },
        Some(v) => v,
    };
    let sfx = msg_suffix_x(cs, to_tok.1, true);
    msg_tail_x(tline, cs, from_tok.0, to_tok.0, i1, a1, sfx)
}

/// The tail of a message line: optional color, the `: label`, and assembly.
fn msg_tail_x(
    tline: &str,
    cs: &Vec<char>,
    from_name: String,
    to_name: String,
    i1: usize,
    a1: usize,
    sfx: (usize, bool, bool, bool, bool),
) -> (st: Stmt)
    requires
        cs@ == tline@,
        token_end(cs@, 0) > 0,
        from_name@ == token_val(cs@, 0),
        i1 == skip_spaces_spec(cs@, token_end(cs@, 0)),
        i1 < cs@.len(),
        cs@[i1 as int] == '-' || cs@[i1 as int] == '.',
        a1 as int == ({
            let a0 = scan_arrow_spec(cs@, i1 as int);
            if a0 < cs@.len() && (cs@[a0] == 'x' || cs@[a0] == 'o') && cs@[a0 - 1] == '>' {
                a0 + 1
            } else {
                a0
            }
        }),
        i1 < a1 <= cs@.len(),
        token_end(cs@, skip_spaces_spec(cs@, a1 as int)) > 0,
        to_name@ == token_val(cs@, skip_spaces_spec(cs@, a1 as int)),
        sfx.0 as int == msg_suffix(cs@, token_end(cs@, skip_spaces_spec(cs@, a1 as int))).0,
        sfx.1 == msg_suffix(cs@, token_end(cs@, skip_spaces_spec(cs@, a1 as int))).1,
        sfx.2 == msg_suffix(cs@, token_end(cs@, skip_spaces_spec(cs@, a1 as int))).2,
        sfx.3 == msg_suffix(cs@, token_end(cs@, skip_spaces_spec(cs@, a1 as int))).3,
        sfx.4 == msg_suffix(cs@, token_end(cs@, skip_spaces_spec(cs@, a1 as int))).4,
        sfx.0 <= cs@.len(),
    ensures
        gstmt_of(st) == msg_stmt(cs@),
{
    let ghost run = cs@.subrange(i1 as int, a1 as int);
    let i3 = skip_spaces_x(cs, sfx.0);
    let mut color: Option<Color> = None;
    let mut i4: usize = i3;
    if i3 < cs.len() && cs[i3] == '#' {
        let ce = scan_ident_x(cs, i3 + 1);
        if ce > i3 + 1 {
            color = Some(color_of_x(cs, i3 + 1, ce));
            i4 = skip_spaces_x(cs, ce);
        } else {
            return Stmt::Bad;
        }
    }
    let label: String = if i4 == cs.len() {
        String::new()
    } else if cs[i4] == ':' {
        crate::scan::trim_in_x(tline, cs, i4 + 1, cs.len())
    } else {
        return Stmt::Bad;
    };
    let dashed = contains_pair_x(cs, i1, a1, '-') || cs[i1] == '.' || contains_pair_x(
        cs,
        i1,
        a1,
        '.',
    );
    proof {
        assert(run[0] == cs@[i1 as int]);
    }
    let style = if dashed {
        LineStyle::Dashed
    } else {
        LineStyle::Solid
    };
    let atype = if contains_pair_x(cs, i1, a1, '>') {
        ArrowType::Thin
    } else if contains_pair_x(cs, i1, a1, '\\') || contains_pair_x(cs, i1, a1, '/') {
        ArrowType::HalfTop
    } else if cs[a1 - 1] == 'o' {
        ArrowType::Circle
    } else if cs[a1 - 1] == 'x' {
        ArrowType::Cross
    } else {
        ArrowType::Normal
    };
    proof {
        assert(run.last() == cs@[a1 - 1]);
        assert(run.len() > 0);
    }
    let m = Message {
        from: from_name,
        to: to_name,
        label: label,
        line_style: style,
        arrow_type: atype,
        activate: sfx.1,
        deactivate: sfx.2,
        create: sfx.3,
        destroy: sfx.4,
        color: color,
    };
    Stmt::MsgLine(m)
}

fn note_anchors_x(tline: &str, cs: &Vec<char>, i: usize, acc: Vec<String>) -> (r: Option<
    (Vec<String>, usize),
>)
    requires
        cs@ == tline@,
        i <= cs@.len(),
    ensures
        match r {
            Some(v) => {
                &&& note_anchors(cs@, i as int, crate::gast::str_views(acc@)) matches Some(gr)
                &&& note_anchors(cs@, i as int, crate::gast::str_views(acc@)) == Some(
                    (crate::gast::str_views(v.0@), v.1 as int),
                )
                &&& v.1 <= cs@.len()
            },
            None => note_anchors(cs@, i as int, crate::gast::str_views(acc@)) is None,
        },
    decreases cs@.len() - i,
{
    let ghost acc0 = crate::gast::str_views(acc@);
    match token_x(tline, cs, i) {
        None => None,
        Some(v) => {
            let mut acc2 = acc;
            acc2.push(v.0);
            proof {
                assert(crate::gast::str_views(acc2@) =~= acc0.push(token_val(cs@, i as int)));
            }
            let j = skip_spaces_x(cs, v.1);
            if j < cs.len() && cs[j] == ',' {
                let j2 = skip_spaces_x(cs, j + 1);
                note_anchors_x(tline, cs, j2, acc2)
            } else {
                Some((acc2, j))
            }
        },
    }
}

fn note_line_x(tline: &str, cs: &Vec<char>, kl: usize) -> (st: Stmt)
    requires
        cs@ == tline@,
        kl <= cs@.len(),
    ensures
        gstmt_of(st) == note_stmt(cs@, kl as int),
{
    proof {
        reveal_strlit("left");
        reveal_strlit("right");
        reveal_strlit("over");
        reveal_strlit("across");
        reveal_strlit("of");
    }
    let n = cs.len();
    let i = skip_spaces_x(cs, kl);
    let w_end = scan_ident_x(cs, i);
    let is_left = range_is(cs, i, w_end, "left");
    let is_right = range_is(cs, i, w_end, "right");
    if is_left || is_right {
        let pos = if is_left {
            NotePosition::Left
        } else {
            NotePosition::Right
        };
        let j = skip_spaces_x(cs, w_end);
        if word_at_x(cs, j, "of") {
            proof {
                assert(j + "of"@.len() <= cs@.len());
            }
            let j2 = skip_spaces_x(cs, j + 2);
            match token_x(tline, cs, j2) {
                None => Stmt::Bad,
                Some(v) => {
                    let k = skip_spaces_x(cs, v.1);
                    if k < cs.len() && cs[k] == ':' {
                        let text = crate::scan::trim_in_x(tline, cs, k + 1, cs.len());
                        let mut anchors: Vec<String> = Vec::new();
                        anchors.push(v.0);
                        let n = Note {
                            position: pos,
                            anchors: anchors,
                            text: text,
                            background_color: None,
                        };
                        proof {
                            assert(gnote_of(n).anchors =~= seq![
                                token_val(cs@, j2 as int),
                            ]);
                            assert(cs@.subrange(k + 1, cs@.len() as int) =~= cs@.skip(k + 1));
                        }
                        Stmt::NoteLine(n)
                    } else {
                        Stmt::Bad
                    }
                },
            }
        } else if j < cs.len() && cs[j] == ':' {
            let text = crate::scan::trim_in_x(tline, cs, j + 1, cs.len());
            let n = Note { position: pos, anchors: Vec::new(), text: text, background_color: None };
            proof {
                assert(gnote_of(n).anchors =~= Seq::<Seq<char>>::empty());
                assert(cs@.subrange(j + 1, cs@.len() as int) =~= cs@.skip(j + 1));
            }
            Stmt::NoteLine(n)
        } else {
            Stmt::Bad
        }
    } else if range_is(cs, i, w_end, "over") || range_is(cs, i, w_end, "across") {
        let start = skip_spaces_x(cs, w_end);
        proof {
            assert(crate::gast::str_views(Seq::<String>::empty()) =~= Seq::<Seq<char>>::empty());
        }
        match note_anchors_x(tline, cs, start, Vec::new()) {
            None => Stmt::Bad,
            Some(v) => {
                let k = v.1;
                if k < cs.len() && cs[k] == ':' {
                    let text = crate::scan::trim_in_x(tline, cs, k + 1, cs.len());
                    let n = Note {
                        position: NotePosition::Over,
                        anchors: v.0,
                        text: text,
                        background_color: None,
                    };
                    proof {
                        assert(cs@.subrange(k + 1, cs@.len() as int) =~= cs@.skip(k + 1));
                    }
                    Stmt::NoteLine(n)
                } else {
                    Stmt::Bad
                }
            },
        }
    } else {
        Stmt::Bad
    }
}

fn activate_line_x(tline: &str, cs: &Vec<char>, kl: usize) -> (st: Stmt)
    requires
        cs@ == tline@,
        kl <= cs@.len(),
    ensures
        gstmt_of(st) == activate_stmt(cs@, kl as int),
{
    let i = skip_spaces_x(cs, kl);
    match token_x(tline, cs, i) {
        None => Stmt::Bad,
        Some(v) => {
            let k = skip_spaces_x(cs, v.1);
            if k >= cs.len() {
                Stmt::ActivateLine(v.0, None)
            } else if cs[k] == '#' {
                let ce = scan_ident_x(cs, k + 1);
                if ce > k + 1 && skip_spaces_x(cs, ce) == cs.len() {
                    let c = color_of_x(cs, k + 1, ce);
                    Stmt::ActivateLine(v.0, Some(c))
                } else {
                    Stmt::Bad
                }
            } else {
                Stmt::Bad
            }
        },
    }
}

fn one_name_x(tline: &str, cs: &Vec<char>, kl: usize) -> (r: Option<String>)
    requires
        cs@ == tline@,
        kl <= cs@.len(),
    ensures
        match r {
            Some(v) => one_name_stmt(cs@, kl as int) == Some(v@),
            None => one_name_stmt(cs@, kl as int) is None,
        },
{
    let i = skip_spaces_x(cs, kl);
    match token_x(tline, cs, i) {
        None => None,
        Some(v) => {
            if skip_spaces_x(cs, v.1) == cs.len() {
                Some(v.0)
            } else {
                None
            }
        },
    }
}

fn fmt_at_x(tline: &str, cs: &Vec<char>, k: usize) -> (r: Option<String>)
    requires
        cs@ == tline@,
        k < cs@.len(),
    ensures
        match r {
            Some(v) => fmt_at(cs@, k as int) == Some(v@),
            None => fmt_at(cs@, k as int) is None,
        },
{
    let n = cs.len();
    let e = find_x(cs, '"', k + 1);
    if e < cs.len() && skip_spaces_x(cs, e + 1) == cs.len() {
        Some(substr(tline, k + 1, e))
    } else {
        None
    }
}

fn auto_params_x(tline: &str, cs: &Vec<char>, i: usize) -> (r: Option<
    (Option<u32>, Option<u32>, Option<String>),
>)
    requires
        cs@ == tline@,
        i <= cs@.len(),
    ensures
        match r {
            Some(v) => auto_params(cs@, i as int) == Some(
                (v.0, v.1, gopt_str(v.2)),
            ),
            None => auto_params(cs@, i as int) is None,
        },
{
    if i >= cs.len() {
        return Some((None, None, None));
    }
    if is_digit_x(cs[i]) {
        let e = scan_digits_x(cs, i);
        if e - i > 8 {
            return None;
        }
        let n1 = digits_val_x(cs, i, e);
        let j = skip_spaces_x(cs, e);
        if j >= cs.len() {
            Some((Some(n1), None, None))
        } else if is_digit_x(cs[j]) {
            let e2 = scan_digits_x(cs, j);
            if e2 - j > 8 {
                return None;
            }
            let n2 = digits_val_x(cs, j, e2);
            let k = skip_spaces_x(cs, e2);
            if k >= cs.len() {
                Some((Some(n1), Some(n2), None))
            } else if cs[k] == '"' {
                match fmt_at_x(tline, cs, k) {
                    Some(f) => Some((Some(n1), Some(n2), Some(f))),
                    None => None,
                }
            } else {
                None
            }
        } else if cs[j] == '"' {
            match fmt_at_x(tline, cs, j) {
                Some(f) => Some((Some(n1), None, Some(f))),
                None => None,
            }
        } else {
            None
        }
    } else if cs[i] == '"' {
        match fmt_at_x(tline, cs, i) {
            Some(f) => Some((None, None, Some(f))),
            None => None,
        }
    } else {
        None
    }
}

fn auto_line_x(tline: &str, cs: &Vec<char>, kl: usize) -> (st: Stmt)
    requires
        cs@ == tline@,
        kl <= cs@.len(),
    ensures
        gstmt_of(st) == auto_stmt(cs@, kl as int),
{
    proof {
        reveal_strlit("stop");
        reveal_strlit("resume");
        reveal_strlit("inc");
    }
    let r = skip_spaces_x(cs, kl);
    if r >= cs.len() {
        return Stmt::AutoLine(AutonumberCommand::Start(AutonumberStart::new(None, None, None)));
    }
    let w_end = scan_ident_x(cs, r);
    if range_is(cs, r, w_end, "stop") {
        if skip_spaces_x(cs, w_end) == cs.len() {
            Stmt::AutoLine(AutonumberCommand::Stop)
        } else {
            Stmt::Bad
        }
    } else if range_is(cs, r, w_end, "resume") {
        let start = skip_spaces_x(cs, w_end);
        match auto_params_x(tline, cs, start) {
            None => Stmt::Bad,
            Some(p) => {
                let params = if p.0.is_none() && p.1.is_none() && p.2.is_none() {
                    None
                } else {
                    Some(AutonumberStart::new(p.0, p.1, p.2))
                };
                Stmt::AutoLine(AutonumberCommand::Resume(params))
            },
        }
    } else if range_is(cs, r, w_end, "inc") {
        let i2 = skip_spaces_x(cs, w_end);
        let e = scan_ident_x(cs, i2);
        if e > i2 && skip_spaces_x(cs, e) == cs.len() {
            Stmt::AutoLine(AutonumberCommand::Inc(substr(tline, i2, e)))
        } else {
            Stmt::Bad
        }
    } else {
        match auto_params_x(tline, cs, r) {
            None => Stmt::Bad,
            Some(p) => Stmt::AutoLine(
                AutonumberCommand::Start(AutonumberStart::new(p.0, p.1, p.2)),
            ),
        }
    }
}

fn box_line_x(tline: &str, cs: &Vec<char>) -> (st: Stmt)
    requires
        cs@ == tline@,
        cs@.len() >= 3,
    ensures
        gstmt_of(st) == box_stmt(cs@),
{
    let i = skip_spaces_x(cs, 3);
    if i >= cs.len() {
        return Stmt::BoxStart(None, None);
    }
    let mut title: Option<String> = None;
    let mut j: usize = i;
    if cs[i] == '#' {
        title = None;
        j = i;
    } else if cs[i] == '"' {
        let e = find_x(cs, '"', i + 1);
        if e < cs.len() {
            title = Some(substr(tline, i + 1, e));
            j = skip_spaces_x(cs, e + 1);
        } else {
            return Stmt::Bad;
        }
    } else {
        let e = scan_ident_x(cs, i);
        if e > i {
            title = Some(substr(tline, i, e));
            j = skip_spaces_x(cs, e);
        } else {
            return Stmt::Bad;
        }
    }
    if j >= cs.len() {
        Stmt::BoxStart(title, None)
    } else if cs[j] == '#' {
        let ce = scan_ident_x(cs, j + 1);
        if ce > j + 1 && skip_spaces_x(cs, ce) == cs.len() {
            let c = color_of_x(cs, j + 1, ce);
            Stmt::BoxStart(title, Some(c))
        } else {
            Stmt::Bad
        }
    } else {
        Stmt::Bad
    }
}

/// Classifies one line of the source as the statement it holds.
#[verifier::rlimit(100)]
pub fn classify(line: &String) -> (st: Stmt)
    ensures
        gstmt_of(st) == classify_spec(line@),
{
    proof {
        reveal(classify_spec);
        reveal_strlit("title");
        reveal_strlit("box");
        reveal_strlit("end");
        reveal_strlit("alt");
        reveal_strlit("opt");
        reveal_strlit("loop");
        reveal_strlit("par");
        reveal_strlit("break");
        reveal_strlit("critical");
        reveal_strlit("group");
        reveal_strlit("else");
        reveal_strlit("note");
        reveal_strlit("hnote");
        reveal_strlit("rnote");
        reveal_strlit("activate");
        reveal_strlit("deactivate");
        reveal_strlit("destroy");
        reveal_strlit("autonumber");
        reveal_strlit("return");
        reveal_strlit("participant");
        reveal_strlit("actor");
        reveal_strlit("boundary");
        reveal_strlit("control");
        reveal_strlit("entity");
        reveal_strlit("database");
        reveal_strlit("collections");
        reveal_strlit("queue");
    }
    let ocs = crate::scan::str_chars(line.as_str());
    proof {
        assert(line@.skip(0) =~= line@);
    }
    let tr = crate::scan::trim_range_x(&ocs, 0);
    if tr.0 >= tr.1 {
        return Stmt::Blank;
    }
    let tline = substr(line.as_str(), tr.0, tr.1);
    let tcs = crate::scan::str_chars(tline.as_str());
    let ghost t = trimmed(line@);
    proof {
        assert(tcs@ == t);
    }
    if tcs[0] == '\'' {
        return Stmt::Blank;
    }
    if word_prefix_x(&tcs, "@startuml") {
        return Stmt::Start;
    }
    if word_prefix_x(&tcs, "@enduml") {
        return Stmt::End;
    }
    if tcs.len() >= 2 && tcs[0] == '=' && tcs[1] == '=' {
        let a = scan_run_x(&tcs, '=', 0);
        let b = scan_run_rev_x(&tcs, '=', tcs.len());
        let text = if a <= b {
            crate::scan::trim_in_x(tline.as_str(), &tcs, a, b)
        } else {
            String::new()
        };
        return Stmt::DividerLine(text);
    }
    if tcs.len() >= 3 && tcs[0] == '.' && tcs[1] == '.' && tcs[2] == '.' {
        let a = scan_run_x(&tcs, '.', 0);
        let b = scan_run_rev_x(&tcs, '.', tcs.len());
        let text = if a <= b {
            crate::scan::trim_in_x(tline.as_str(), &tcs, a, b)
        } else {
            String::new()
        };
        let r = if text.as_str().unicode_len() == 0 {
            None
        } else {
            Some(text)
        };
        return Stmt::DelayLine(r);
    }
    classify_kw(tline.as_str(), &tcs)
}

/// Classifies a trimmed, non-blank line against the keyword statements,
/// falling back to a message.
#[verifier::rlimit(100)]
fn classify_kw(tline: &str, cs: &Vec<char>) -> (st: Stmt)
    requires
        cs@ == tline@,
        cs@.len() > 0,
    ensures
        gstmt_of(st) == classify_kw_spec(cs@),
{
    proof {
        reveal_strlit("title");
        reveal_strlit("box");
        reveal_strlit("end");
        reveal_strlit("alt");
        reveal_strlit("opt");
        reveal_strlit("loop");
        reveal_strlit("par");
        reveal_strlit("break");
        reveal_strlit("critical");
        reveal_strlit("group");
        reveal_strlit("else");
        reveal_strlit("note");
        reveal_strlit("hnote");
        reveal_strlit("rnote");
        reveal_strlit("activate");
        reveal_strlit("deactivate");
        reveal_strlit("destroy");
        reveal_strlit("autonumber");
        reveal_strlit("return");
        reveal_strlit("participant");
        reveal_strlit("actor");
        reveal_strlit("boundary");
        reveal_strlit("control");
        reveal_strlit("entity");
        reveal_strlit("database");
        reveal_strlit("collections");
        reveal_strlit("queue");
    }
    if word_prefix_x(cs, "title") {
        return Stmt::Title(crate::scan::trimmed_suffix_x(tline, cs, 5));
    }
    if word_prefix_x(cs, "box") {
        return box_line_x(tline, cs);
    }
    if word_prefix_x(cs, "end") {
        let rest = crate::scan::trimmed_suffix_x(tline, cs, 3);
        let rcs = crate::scan::str_chars(rest.as_str());
        proof {
            assert(rcs@.subrange(0, rcs@.len() as int) =~= rcs@);
        }
        if range_is(&rcs, 0, rcs.len(), "box") {
            return Stmt::BoxEnd;
        } else if rcs.len() == 0 {
            return Stmt::FragEnd;
        } else {
            return Stmt::Bad;
        }
    }
    if word_prefix_x(cs, "alt") {
        return Stmt::FragStart(
            FragmentType::Alt,
            crate::scan::opt_trimmed_suffix_x(tline, cs, 3),
        );
    }
    if word_prefix_x(cs, "opt") {
        return Stmt::FragStart(
            FragmentType::Opt,
            crate::scan::opt_trimmed_suffix_x(tline, cs, 3),
        );
    }
    if word_prefix_x(cs, "loop") {
        return Stmt::FragStart(
            FragmentType::Loop,
            crate::scan::opt_trimmed_suffix_x(tline, cs, 4),
        );
    }
    if word_prefix_x(cs, "par") {
        return Stmt::FragStart(
            FragmentType::Par,
            crate::scan::opt_trimmed_suffix_x(tline, cs, 3),
        );
    }
    if word_prefix_x(cs, "break") {
        return Stmt::FragStart(
            FragmentType::Break,
            crate::scan::opt_trimmed_suffix_x(tline, cs, 5),
        );
    }
    if word_prefix_x(cs, "critical") {
        return Stmt::FragStart(
            FragmentType::Critical,
            crate::scan::opt_trimmed_suffix_x(tline, cs, 8),
        );
    }
    if word_prefix_x(cs, "group") {
        return Stmt::FragStart(
            FragmentType::Group,
            crate::scan::opt_trimmed_suffix_x(tline, cs, 5),
        );
    }
    if word_prefix_x(cs, "else") {
        return Stmt::FragElse(crate::scan::opt_trimmed_suffix_x(tline, cs, 4));
    }
    if word_prefix_x(cs, "note") {
        return note_line_x(tline, cs, 4);
    }
    if word_prefix_x(cs, "hnote") {
        return note_line_x(tline, cs, 5);
    }
    if word_prefix_x(cs, "rnote") {
        return note_line_x(tline, cs, 5);
    }
    if word_prefix_x(cs, "activate") {
        return activate_line_x(tline, cs, 8);
    }
    if word_prefix_x(cs, "deactivate") {
        return match one_name_x(tline, cs, 10) {
            Some(p) => Stmt::DeactivateLine(p),
            None => Stmt::Bad,
        };
    }
    if word_prefix_x(cs, "destroy") {
        return match one_name_x(tline, cs, 7) {
            Some(p) => Stmt::DestroyLine(p),
            None => Stmt::Bad,
        };
    }
    if word_prefix_x(cs, "autonumber") {
        return auto_line_x(tline, cs, 10);
    }
    if word_prefix_x(cs, "return") {
        return Stmt::ReturnLine(crate::scan::opt_trimmed_suffix_x(tline, cs, 6));
    }
    if word_prefix_x(cs, "participant") {
        return part_line_x(tline, cs, 11, ParticipantType::Participant);
    }
    if word_prefix_x(cs, "actor") {
        return part_line_x(tline, cs, 5, ParticipantType::Actor);
    }
    if word_prefix_x(cs, "boundary") {
        return part_line_x(tline, cs, 8, ParticipantType::Boundary);
    }
    if word_prefix_x(cs, "control") {
        return part_line_x(tline, cs, 7, ParticipantType::Control);
    }
    if word_prefix_x(cs, "entity") {
        return part_line_x(tline, cs, 6, ParticipantType::Entity);
    }
    if word_prefix_x(cs, "database") {
        return part_line_x(tline, cs, 8, ParticipantType::Database);
    }
    if word_prefix_x(cs, "collections") {
        return part_line_x(tline, cs, 11, ParticipantType::Collections);
    }
    if word_prefix_x(cs, "queue") {
        return part_line_x(tline, cs, 5, ParticipantType::Queue);
    }
    msg_line_x(tline, cs)
}



} // verus!

