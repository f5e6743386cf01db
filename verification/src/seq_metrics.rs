//! Mutable scratch state of one sequence layout run: participant placement,
//! the vertical cursor, open activations, the call stack for `return`, and
//! the autonumber state machine.

use vstd::prelude::*;
use crate::ast::MAX_ITEMS;
use crate::ast::MAX_TEXT;
use crate::nametable::NameIndex;
use crate::numfmt::dec_seq;
use crate::numfmt::padded_dec_seq;
use crate::numfmt::u64_to_dec;
use crate::numfmt::u64_to_dec_padded;
use crate::scan::find_spec;
use crate::scan::find_x;
use crate::scan::str_chars;
use crate::scan::substr;

verus! {

/// Vertical coordinates stay below this bound.
pub const Y_LIM: i64 = 0x400_0000_0000;

/// Horizontal coordinates stay below this bound.
pub const X_LIM: i64 = 0x4000_0000_0000;

/// Activation nesting levels saturate here; a diagram within the size limits
/// can never reach it.
pub const LEVEL_CAP: i64 = 65536;

/// The autonumber counter saturates here; a diagram within the size limits
/// can never reach it.
pub const AUTO_CAP: u64 = 0x4_0000_0000_0000;

/// One placed participant column.
pub struct ParticipantMetrics {
    pub display_name: String,
    pub x: i64,
    pub width: i64,
    pub center_x: i64,
    pub header_y: i64,
}

/// An activation that has been opened but not yet closed.
#[derive(Clone, Copy, Debug, PartialEq, Eq, Structural)]
pub struct OpenActivation {
    pub slot: usize,
    pub level: i64,
    pub start_y: i64,
}

/// A closed activation, ready to be rendered.
#[derive(Clone, Copy, Debug, PartialEq, Eq, Structural)]
pub struct CompletedActivation {
    pub slot: usize,
    pub level: i64,
    pub start_y: i64,
    pub end_y: i64,
}

/// The autonumber state machine: enabled flag, next number, step, format.
pub struct AutoState {
    pub enabled: bool,
    pub current: u64,
    pub step: u64,
    pub format: Option<String>,
}

/// The number of open activations of a slot.
pub open spec fn count_open(s: Seq<OpenActivation>, slot: int) -> int
    decreases s.len(),
{
    if s.len() == 0 {
        0
    } else {
        count_open(s.drop_last(), slot) + if s.last().slot == slot {
            1int
        } else {
            0int
        }
    }
}

/// The index of the most recent open activation of a slot, or `-1`.
pub open spec fn last_open_index(s: Seq<OpenActivation>, slot: int) -> int
    decreases s.len(),
{
    if s.len() == 0 {
        -1
    } else if s.last().slot == slot {
        s.len() - 1
    } else {
        last_open_index(s.drop_last(), slot)
    }
}

/// The text the autonumber machine renders for a number: the digits replace
/// the zone between the first and last `0` of the format, left-padded with
/// zeros to that zone's width; a format without digits is a prefix; no
/// format means plain decimal.
pub open spec fn autonumber_text(n: int, format: Option<Seq<char>>) -> Seq<char> {
    match format {
        None => dec_seq(n),
        Some(f) => {
            let a = find_spec(f, '0', 0);
            if a == f.len() {
                f + dec_seq(n)
            } else {
                f.take(a) + padded_dec_seq(n, last_zero_end(f) - a) + f.skip(last_zero_end(f))
            }
        },
    }
}

/// One past the last `0` of the format.
pub open spec fn last_zero_end(f: Seq<char>) -> int
    decreases f.len(),
{
    if f.len() == 0 {
        0
    } else if f.last() == '0' {
        f.len() as int
    } else {
        last_zero_end(f.drop_last())
    }
}

pub struct DiagramMetrics {
    pub names: NameIndex,
    pub parts: Vec<ParticipantMetrics>,
    pub current_y: i64,
    pub last_message_y: i64,
    pub max_x: i64,
    pub opens: Vec<OpenActivation>,
    pub completed: Vec<CompletedActivation>,
    pub calls: Vec<(usize, usize)>,
    pub auto: AutoState,
}

impl DiagramMetrics {
    pub open spec fn n(self) -> int {
        self.parts@.len() as int
    }

    /// Structural well-formedness: slots agree across the tables and all
    /// coordinates are bounded.
    pub open spec fn wf(self) -> bool {
        &&& self.names.wf()
        &&& self.parts@.len() <= self.names.names().len()
        &&& self.parts@.len() <= 3 * MAX_ITEMS
        &&& forall|i: int|
            0 <= i < self.parts@.len() ==> {
                let p = #[trigger] self.parts@[i];
                &&& 0 <= p.x
                &&& 0 < p.width <= MAX_TEXT * 4096 + 8192
                &&& p.center_x == p.x + p.width / 2
                &&& p.x + p.width <= self.max_x
                &&& 0 <= p.header_y <= 8192
                &&& p.display_name@.len() <= MAX_TEXT
            }
        &&& 0 <= self.max_x <= X_LIM
        &&& 0 <= self.current_y <= Y_LIM
        &&& 0 <= self.last_message_y <= self.current_y
        &&& forall|i: int|
            0 <= i < self.opens@.len() ==> {
                let e = #[trigger] self.opens@[i];
                &&& e.slot < self.parts@.len()
                &&& 1 <= e.level <= LEVEL_CAP
                &&& 0 <= e.start_y <= self.current_y
            }
        &&& forall|i: int|
            0 <= i < self.completed@.len() ==> {
                let c = #[trigger] self.completed@[i];
                &&& c.slot < self.parts@.len()
                &&& 1 <= c.level <= LEVEL_CAP
                &&& 0 <= c.start_y <= c.end_y <= Y_LIM
            }
        &&& forall|i: int|
            0 <= i < self.calls@.len() ==> {
                &&& (#[trigger] self.calls@[i]).0 < self.parts@.len()
                &&& self.calls@[i].1 < self.parts@.len()
            }
        &&& self.auto.current <= AUTO_CAP
        &&& 0 < self.auto.step <= 0x1_0000_0000
        &&& match self.auto.format {
            Some(f) => f@.len() <= MAX_TEXT,
            None => true,
        }
    }

    pub fn new() -> (m: DiagramMetrics)
        ensures
            m.wf(),
            m.names.names().len() == 0,
            m.parts@.len() == 0,
            m.opens@.len() == 0,
            m.completed@.len() == 0,
            m.calls@.len() == 0,
            m.current_y == 0,
            m.last_message_y == 0,
            m.max_x == 0,
            !m.auto.enabled,
            m.auto.current == 1,
            m.auto.step == 1,
            m.auto.format is None,
    {
        DiagramMetrics {
            names: NameIndex::new(),
            parts: Vec::new(),
            current_y: 0,
            last_message_y: 0,
            max_x: 0,
            opens: Vec::new(),
            completed: Vec::new(),
            calls: Vec::new(),
            auto: AutoState { enabled: false, current: 1, step: 1, format: None },
        }
    }

    /// Moves the vertical cursor down.
    pub fn advance_y(&mut self, dy: i64)
        requires
            old(self).wf(),
            0 <= dy,
            old(self).current_y + dy <= Y_LIM,
        ensures
            final(self).wf(),
            *final(self) == (DiagramMetrics {
                current_y: (old(self).current_y + dy) as i64,
                ..*old(self)
            }),
    {
        self.current_y = self.current_y + dy;
    }

    /// The lifeline x of a slot: the participant's center.
    pub fn lifeline_x(&self, slot: usize) -> (x: i64)
        requires
            self.wf(),
            slot < self.parts@.len(),
        ensures
            x == self.parts@[slot as int].center_x,
            0 <= x <= X_LIM,
    {
        self.parts[slot].center_x
    }

    /// Opens an activation for a slot, starting at `y`. The nesting level is
    /// one more than the number already open (saturating at [`LEVEL_CAP`]).
    pub fn activate_at(&mut self, slot: usize, y: i64)
        requires
            old(self).wf(),
            slot < old(self).parts@.len(),
            0 <= y <= old(self).current_y,
        ensures
            final(self).wf(),
            final(self).opens@ == old(self).opens@.push(
                OpenActivation {
                    slot,
                    level: crate::geom::spec_imin(
                        count_open(old(self).opens@, slot as int) + 1,
                        LEVEL_CAP as int,
                    ) as i64,
                    start_y: y,
                },
            ),
            *final(self) == (DiagramMetrics { opens: final(self).opens, ..*old(self) }),
    {
        let n = self.opens.len();
        let mut count: usize = 0;
        let mut i: usize = 0;
        while i < n
            invariant
                *self == *old(self),
                i <= n,
                n == self.opens@.len(),
                count <= i,
                count == count_open(self.opens@.take(i as int), slot as int),
            decreases n - i,
        {
            proof {
                assert(self.opens@.take(i + 1).drop_last() =~= self.opens@.take(i as int));
                assert(self.opens@.take(i + 1).last() == self.opens@[i as int]);
            }
            if self.opens[i].slot == slot {
                count = count + 1;
            }
            i = i + 1;
        }
        proof {
            assert(self.opens@.take(n as int) =~= self.opens@);
        }
        let level: i64 = if count >= LEVEL_CAP as usize {
            LEVEL_CAP
        } else {
            count as i64 + 1
        };
        proof {
            lemma_count_open_nonneg(self.opens@, slot as int);
        }
        self.opens.push(OpenActivation { slot, level, start_y: y });
    }

    /// Closes the most recent open activation of a slot at the current
    /// cursor. Without one, nothing changes.
    pub fn deactivate(&mut self, slot: usize)
        requires
            old(self).wf(),
            slot < old(self).parts@.len(),
        ensures
            final(self).wf(),
            last_open_index(old(self).opens@, slot as int) < 0 ==> *final(self) == *old(self),
            last_open_index(old(self).opens@, slot as int) >= 0 ==> {
                let li = last_open_index(old(self).opens@, slot as int);
                let e = old(self).opens@[li];
                &&& final(self).opens@ == old(self).opens@.remove(li)
                &&& final(self).completed@ == old(self).completed@.push(
                    CompletedActivation {
                        slot,
                        level: e.level,
                        start_y: e.start_y,
                        end_y: old(self).current_y,
                    },
                )
                &&& *final(self) == (DiagramMetrics {
                    opens: final(self).opens,
                    completed: final(self).completed,
                    ..*old(self)
                })
            },
    {
        let n = self.opens.len();
        let mut j: usize = n;
        proof {
            assert(self.opens@.take(n as int) =~= self.opens@);
        }
        loop
            invariant
                *self == *old(self),
                j <= n,
                n == self.opens@.len(),
                last_open_index(self.opens@.take(j as int), slot as int) == last_open_index(
                    self.opens@,
                    slot as int,
                ),
            ensures
                j as int - 1 == last_open_index(self.opens@, slot as int),
            decreases j,
        {
            if j == 0 {
                proof {
                    assert(self.opens@.take(0) =~= Seq::<OpenActivation>::empty());
                }
                break ;
            }
            proof {
                assert(self.opens@.take(j as int).last() == self.opens@[j - 1]);
                assert(self.opens@.take(j as int).drop_last() =~= self.opens@.take(j - 1));
            }
            if self.opens[j - 1].slot == slot {
                break ;
            }
            j = j - 1;
        }
        if j == 0 {
            return ;
        }
        let li = j - 1;
        let e = self.opens.remove(li);
        let cy = self.current_y;
        self.completed.push(
            CompletedActivation { slot, level: e.level, start_y: e.start_y, end_y: cy },
        );
    }

    /// Closes every open activation at the current cursor.
    pub fn finalize_activations(&mut self)
        requires
            old(self).wf(),
        ensures
            final(self).wf(),
            final(self).opens@.len() == 0,
            final(self).completed@.len() >= old(self).completed@.len(),
            *final(self) == (DiagramMetrics {
                opens: final(self).opens,
                completed: final(self).completed,
                ..*old(self)
            }),
    {
        loop
            invariant
                self.wf(),
                self.completed@.len() >= old(self).completed@.len(),
                *self == (DiagramMetrics {
                    opens: self.opens,
                    completed: self.completed,
                    ..*old(self)
                }),
            ensures
                self.opens@.len() == 0,
                self.wf(),
                self.completed@.len() >= old(self).completed@.len(),
                *self == (DiagramMetrics {
                    opens: self.opens,
                    completed: self.completed,
                    ..*old(self)
                }),
            decreases self.opens@.len(),
        {
            if self.opens.len() == 0 {
                break ;
            }
            let e = self.opens.pop().unwrap();
            let cy = self.current_y;
            self.completed.push(
                CompletedActivation {
                    slot: e.slot,
                    level: e.level,
                    start_y: e.start_y,
                    end_y: cy,
                },
            );
        }
    }

    /// The next autonumber text; advances the counter by the step
    /// (saturating at [`AUTO_CAP`]).
    pub fn auto_next(&mut self) -> (r: String)
        requires
            old(self).wf(),
        ensures
            final(self).wf(),
            r@ == autonumber_text(
                old(self).auto.current as int,
                match old(self).auto.format {
                    Some(f) => Some(f@),
                    None => None,
                },
            ),
            final(self).auto.enabled == old(self).auto.enabled,
            final(self).auto.step == old(self).auto.step,
            final(self).auto.format == old(self).auto.format,
            final(self).auto.current == crate::geom::spec_imin(
                old(self).auto.current + old(self).auto.step,
                AUTO_CAP as int,
            ) as u64,
            final(self).parts@ == old(self).parts@,
            final(self).names == old(self).names,
            final(self).opens@ == old(self).opens@,
            final(self).completed@ == old(self).completed@,
            final(self).calls@ == old(self).calls@,
            final(self).current_y == old(self).current_y,
            final(self).last_message_y == old(self).last_message_y,
            final(self).max_x == old(self).max_x,
    {
        let num = self.auto.current;
        let text: String = match &self.auto.format {
            None => u64_to_dec(num),
            Some(f) => {
                let fs: &str = f.as_str();
                let cs = str_chars(fs);
                let a = find_x(&cs, '0', 0);
                if a == cs.len() {
                    let digits = u64_to_dec(num);
                    let mut out = substr(fs, 0, a);
                    out.append(digits.as_str());
                    proof {
                        assert(f@.take(a as int) =~= f@);
                        assert(out@ =~= f@ + dec_seq(num as int));
                    }
                    out
                } else {
                    let b2 = last_zero_end_x(&cs);
                    proof {
                        lemma_last_zero_end_bounds(cs@);
                        crate::scan::lemma_find_found(cs@, '0', 0);
                        lemma_last_zero_after(cs@, a as int);
                    }
                    let digits = u64_to_dec_padded(num, b2 - a);
                    let mut out = substr(fs, 0, a);
                    out.append(digits.as_str());
                    let tail = substr(fs, b2, cs.len());
                    out.append(tail.as_str());
                    proof {
                        assert(f@.skip(b2 as int) =~= f@.subrange(b2 as int, f@.len() as int));
                        assert(out@ =~= f@.take(a as int) + padded_dec_seq(
                            num as int,
                            last_zero_end(f@) - a,
                        ) + f@.skip(last_zero_end(f@)));
                    }
                    out
                }
            },
        };
        let step = self.auto.step;
        if self.auto.current >= AUTO_CAP - step {
            self.auto.current = AUTO_CAP;
        } else {
            self.auto.current = self.auto.current + step;
        }
        text
    }
}

proof fn lemma_count_open_nonneg(s: Seq<OpenActivation>, slot: int)
    ensures
        0 <= count_open(s, slot) <= s.len(),
    decreases s.len(),
{
    if s.len() > 0 {
        lemma_count_open_nonneg(s.drop_last(), slot);
    }
}

/// One past the last `0` of the character list.
fn last_zero_end_x(cs: &Vec<char>) -> (r: usize)
    ensures
        r == last_zero_end(cs@),
        r <= cs@.len(),
{
    let mut j = cs.len();
    proof {
        assert(cs@.take(cs@.len() as int) =~= cs@);
    }
    loop
        invariant
            j <= cs@.len(),
            last_zero_end(cs@.take(j as int)) == last_zero_end(cs@),
        ensures
            j == last_zero_end(cs@),
        decreases j,
    {
        if j == 0 {
            proof {
                assert(cs@.take(0) =~= Seq::<char>::empty());
            }
            break ;
        }
        proof {
            assert(cs@.take(j as int).last() == cs@[j - 1]);
            assert(cs@.take(j as int).drop_last() =~= cs@.take(j - 1));
        }
        if cs[j - 1] == '0' {
            break ;
        }
        j = j - 1;
    }
    j
}

/// A `0` at index `a` puts the last-zero mark past `a`.
proof fn lemma_last_zero_after(f: Seq<char>, a: int)
    requires
        0 <= a < f.len(),
        f[a] == '0',
    ensures
        last_zero_end(f) >= a + 1,
    decreases f.len(),
{
    if f.last() != '0' {
        assert(f.drop_last()[a] == f[a]);
        lemma_last_zero_after(f.drop_last(), a);
    }
}

proof fn lemma_last_zero_end_bounds(f: Seq<char>)
    ensures
        0 <= last_zero_end(f) <= f.len(),
    decreases f.len(),
{
    if f.len() > 0 && f.last() != '0' {
        lemma_last_zero_end_bounds(f.drop_last());
    }
}

} // verus!
