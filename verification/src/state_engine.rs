//! The state diagram layout engine: breadth-first level assignment from the
//! initial pseudo-state, horizontally centered levels, recursively laid-out
//! composite states, and routed transition edges (backward arrows loop
//! around on the right).

use vstd::prelude::*;
use crate::ast::MAX_ITEMS;
use crate::geom::Point;
use crate::geom::Rect;
use crate::geom::imax;
use crate::geom::imin;
use crate::model::EdgeType;
use crate::model::ElementType;
use crate::model::LayoutElement;
use crate::model::LayoutResult;
use crate::model::Props;
use crate::nametable::NameIndex;
use crate::numfmt::u64_to_dec;
use crate::seq_engine::out_el_wf;
use crate::seq_engine::out_els_wf;
use crate::seq_engine::lemma_out_els_wf_index;
use crate::seq_engine::points_ok;
use crate::state_ast::State;
use crate::state_ast::StateDiagram;
use crate::state_ast::StateType;
use crate::state_ast::Transition;
use crate::state_ast::state_diagram_wf;
use crate::state_ast::state_wf;
use crate::state_ast::transition_wf;
use crate::state_ast::lemma_states_wf_index;

verus! {

/// Horizontal and vertical coordinates of the state engine stay below this.
pub const S_LIM: i64 = 0x2000_0000_0000;

/// Configuration of the state layout engine, in integer pixel units.
#[derive(Clone, Copy, Debug, PartialEq, Eq, Structural)]
pub struct StateLayoutConfig {
    pub margin: i64,
    pub state_width: i64,
    pub state_min_height: i64,
    pub node_radius: i64,
    pub choice_size: i64,
    pub bar_width: i64,
    pub bar_height: i64,
    pub horizontal_spacing: i64,
    pub vertical_spacing: i64,
}

impl StateLayoutConfig {
    pub open spec fn wf(self) -> bool {
        &&& 8 <= self.margin <= 4096
        &&& 8 <= self.state_width <= 4096
        &&& 8 <= self.state_min_height <= 4096
        &&& 8 <= self.node_radius <= 4096
        &&& 8 <= self.choice_size <= 4096
        &&& 8 <= self.bar_width <= 4096
        &&& 8 <= self.bar_height <= 4096
        &&& 8 <= self.horizontal_spacing <= 4096
        &&& 8 <= self.vertical_spacing <= 4096
    }
}

impl Default for StateLayoutConfig {
    /// The stock configuration.
    fn default() -> (c: StateLayoutConfig)
        ensures
            c == default_state_config(),
            c.wf(),
    {
        StateLayoutConfig {
            margin: 20,
            state_width: 120,
            state_min_height: 40,
            node_radius: 10,
            choice_size: 30,
            bar_width: 80,
            bar_height: 8,
            horizontal_spacing: 50,
            vertical_spacing: 60,
        }
    }
}

/// The stock configuration, as a value.
pub open spec fn default_state_config() -> StateLayoutConfig {
    StateLayoutConfig {
        margin: 20,
        state_width: 120,
        state_min_height: 40,
        node_radius: 10,
        choice_size: 30,
        bar_width: 80,
        bar_height: 8,
        horizontal_spacing: 50,
        vertical_spacing: 60,
    }
}


/// Whether any transition leaves, or enters, the `[*]` pseudo-state.
pub open spec fn has_initial_spec(d: StateDiagram) -> bool {
    exists|i: int| 0 <= i < d.transitions@.len() && (#[trigger] d.transitions@[i]).from@ == "[*]"@
}

pub open spec fn has_final_spec(d: StateDiagram) -> bool {
    exists|i: int| 0 <= i < d.transitions@.len() && (#[trigger] d.transitions@[i]).to@ == "[*]"@
}


/// The distinct names registered inside a composite, in first-appearance
/// order: the initial pseudo-state, declared substates, internal transition
/// endpoints, then the final pseudo-state.
pub open spec fn inner_subst_names(acc: Seq<Seq<char>>, ss: Seq<State>) -> Seq<Seq<char>>
    decreases ss,
{
    if ss.len() == 0 {
        acc
    } else {
        inner_subst_names(
            if ss[0].name@ == "[*]"@ {
                acc
            } else {
                crate::seq_engine::add_name(acc, ss[0].name@)
            },
            ss.skip(1),
        )
    }
}

pub open spec fn inner_trans_names(acc: Seq<Seq<char>>, ts: Seq<Transition>) -> Seq<Seq<char>>
    decreases ts,
{
    if ts.len() == 0 {
        acc
    } else {
        let a1 = if ts[0].from@ == "[*]"@ {
            acc
        } else {
            crate::seq_engine::add_name(acc, ts[0].from@)
        };
        let a2 = if ts[0].to@ == "[*]"@ {
            a1
        } else {
            crate::seq_engine::add_name(a1, ts[0].to@)
        };
        inner_trans_names(a2, ts.skip(1))
    }
}

pub open spec fn inner_names(s: State) -> Seq<Seq<char>> {
    let a0: Seq<Seq<char>> = if inner_has_initial_spec(s) {
        seq!["[*]_initial"@]
    } else {
        Seq::empty()
    };
    let a1 = inner_subst_names(a0, s.substates@);
    let a2 = inner_trans_names(a1, s.internal_transitions@);
    if inner_has_final_spec(s) {
        crate::seq_engine::add_name(a2, "[*]_final"@)
    } else {
        a2
    }
}

proof fn lemma_subst_snoc(acc: Seq<Seq<char>>, ss: Seq<State>)
    requires
        ss.len() > 0,
    ensures
        inner_subst_names(acc, ss) == (if ss.last().name@ == "[*]"@ {
            inner_subst_names(acc, ss.drop_last())
        } else {
            crate::seq_engine::add_name(inner_subst_names(acc, ss.drop_last()), ss.last().name@)
        }),
    decreases ss,
{
    let step = if ss[0].name@ == "[*]"@ {
        acc
    } else {
        crate::seq_engine::add_name(acc, ss[0].name@)
    };
    if ss.len() == 1 {
        assert(ss.drop_last() =~= Seq::<State>::empty());
        assert(ss.skip(1) =~= Seq::<State>::empty());
        assert(ss.last() == ss[0]);
        assert(inner_subst_names(acc, ss.drop_last()) == acc);
        assert(inner_subst_names(step, ss.skip(1)) == step);
        assert(inner_subst_names(acc, ss) == step);
    } else {
        lemma_subst_snoc(step, ss.skip(1));
        assert(ss.skip(1).drop_last() =~= ss.drop_last().skip(1));
        assert(ss.skip(1).last() == ss.last());
        assert(ss.drop_last()[0] == ss[0]);
        assert(inner_subst_names(acc, ss.drop_last()) == inner_subst_names(
            step,
            ss.drop_last().skip(1),
        ));
        assert(inner_subst_names(acc, ss) == inner_subst_names(step, ss.skip(1)));
    }
}

proof fn lemma_trans_snoc(acc: Seq<Seq<char>>, ts: Seq<Transition>)
    requires
        ts.len() > 0,
    ensures
        inner_trans_names(acc, ts) == ({
            let p = inner_trans_names(acc, ts.drop_last());
            let a1 = if ts.last().from@ == "[*]"@ {
                p
            } else {
                crate::seq_engine::add_name(p, ts.last().from@)
            };
            if ts.last().to@ == "[*]"@ {
                a1
            } else {
                crate::seq_engine::add_name(a1, ts.last().to@)
            }
        }),
    decreases ts,
{
    let a1 = if ts[0].from@ == "[*]"@ {
        acc
    } else {
        crate::seq_engine::add_name(acc, ts[0].from@)
    };
    let a2 = if ts[0].to@ == "[*]"@ {
        a1
    } else {
        crate::seq_engine::add_name(a1, ts[0].to@)
    };
    if ts.len() == 1 {
        assert(ts.drop_last() =~= Seq::<Transition>::empty());
        assert(ts.skip(1) =~= Seq::<Transition>::empty());
        assert(ts.last() == ts[0]);
        assert(inner_trans_names(acc, ts.drop_last()) == acc);
        assert(inner_trans_names(a2, ts.skip(1)) == a2);
        assert(inner_trans_names(acc, ts) == a2);
    } else {
        lemma_trans_snoc(a2, ts.skip(1));
        assert(ts.skip(1).drop_last() =~= ts.drop_last().skip(1));
        assert(ts.skip(1).last() == ts.last());
        assert(ts.drop_last()[0] == ts[0]);
        assert(inner_trans_names(acc, ts.drop_last()) == inner_trans_names(
            a2,
            ts.drop_last().skip(1),
        ));
        assert(inner_trans_names(acc, ts) == inner_trans_names(a2, ts.skip(1)));
    }
}

/// Count of entries below a level, over a prefix.
pub open spec fn count_lt_pre(levels: Seq<i64>, lv: int, hi: int) -> int
    decreases hi,
{
    if hi <= 0 {
        0
    } else {
        count_lt_pre(levels, lv, hi - 1) + if levels[hi - 1] < lv {
            1int
        } else {
            0int
        }
    }
}

/// Count of entries at a level, over a prefix.
pub open spec fn count_eq_pre(levels: Seq<i64>, lv: int, hi: int) -> int
    decreases hi,
{
    if hi <= 0 {
        0
    } else {
        count_eq_pre(levels, lv, hi - 1) + if levels[hi - 1] == lv {
            1int
        } else {
            0int
        }
    }
}

proof fn lemma_count_lt_succ(levels: Seq<i64>, lv: int, hi: int)
    requires
        0 <= hi <= levels.len(),
    ensures
        count_lt_pre(levels, lv + 1, hi) == count_lt_pre(levels, lv, hi) + count_eq_pre(
            levels,
            lv,
            hi,
        ),
    decreases hi,
{
    if hi > 0 {
        lemma_count_lt_succ(levels, lv, hi - 1);
    }
}

proof fn lemma_count_lt_all(levels: Seq<i64>, lv: int, hi: int)
    requires
        0 <= hi <= levels.len(),
        forall|j: int| 0 <= j < hi ==> #[trigger] levels[j] < lv,
    ensures
        count_lt_pre(levels, lv, hi) == hi,
    decreases hi,
{
    if hi > 0 {
        lemma_count_lt_all(levels, lv, hi - 1);
    }
}

proof fn lemma_count_lt_none(levels: Seq<i64>, lv: int, hi: int)
    requires
        0 <= hi <= levels.len(),
        forall|j: int| 0 <= j < hi ==> #[trigger] levels[j] >= lv,
    ensures
        count_lt_pre(levels, lv, hi) == 0,
    decreases hi,
{
    if hi > 0 {
        lemma_count_lt_none(levels, lv, hi - 1);
    }
}

/// The element list ends in transition edges alone: everything from `nn` on
/// is an edge, and there are at most `cap` of them.
pub open spec fn trailing_edges(els: Seq<LayoutElement>, nn: int, cap: int) -> bool {
    &&& 0 <= nn <= els.len()
    &&& els.len() <= nn + cap
    &&& forall|i: int| nn <= i < els.len() ==> (#[trigger] els[i]).element_type is Edge
}

/// Whether any internal transition of a composite leaves, or enters, the
/// `[*]` pseudo-state.
pub open spec fn inner_has_initial_spec(s: State) -> bool {
    exists|i: int|
        0 <= i < s.internal_transitions@.len() && (#[trigger] s.internal_transitions@[i]).from@
            == "[*]"@
}

pub open spec fn inner_has_final_spec(s: State) -> bool {
    exists|i: int|
        0 <= i < s.internal_transitions@.len() && (#[trigger] s.internal_transitions@[i]).to@
            == "[*]"@
}

/// Whether a composite state of the given name is declared.
pub open spec fn composite_named(ss: Seq<State>, name: Seq<char>) -> bool {
    exists|i: int|
        0 <= i < ss.len() && (#[trigger] ss[i]).state_type is Composite && ss[i].name@ == name
}




/// The declared kind of a named state: the pseudo-state spellings resolve
/// directly; otherwise the first declared state matching by name or alias;
/// `Simple` when undeclared.
pub open spec fn state_type_spec(d: StateDiagram, name: Seq<char>) -> StateType {
    if name == "[*]_initial"@ {
        StateType::Initial
    } else if name == "[*]_final"@ {
        StateType::Final
    } else if name == "[H]"@ {
        StateType::History
    } else if name == "[H*]"@ {
        StateType::DeepHistory
    } else {
        decl_type(d.states@, name)
    }
}

pub open spec fn decl_type(ss: Seq<State>, name: Seq<char>) -> StateType
    decreases ss,
{
    if ss.len() == 0 {
        StateType::Simple
    } else if ss[0].name@ == name || (ss[0].alias matches Some(a) && a@ == name) {
        ss[0].state_type
    } else {
        decl_type(ss.skip(1), name)
    }
}

/// The layout engine for state diagrams.
pub struct StateLayoutEngine {
    pub config: StateLayoutConfig,
}

/// A resolved transition between two slots, with its display label.
struct SlotTransition {
    from: usize,
    to: usize,
    label: Option<String>,
}

spec fn slot_trans_ok(t: SlotTransition, n: int) -> bool {
    t.from < n && t.to < n
}

/// All elements of a list are output-well-formed.
spec fn all_out_wf(els: Seq<LayoutElement>) -> bool {
    forall|i: int| 0 <= i < els.len() ==> out_el_wf(#[trigger] els[i])
}

/// Pushes an output-well-formed element.
fn push_wf(out: &mut Vec<LayoutElement>, e: LayoutElement)
    requires
        out_el_wf(e),
        all_out_wf(old(out)@),
    ensures
        final(out)@ == old(out)@.push(e),
        all_out_wf(final(out)@),
{
    let ghost before = out@;
    out.push(e);
    proof {
        assert forall|i: int| 0 <= i < out@.len() implies out_el_wf(#[trigger] out@[i]) by {
            if i < before.len() {
                assert(out@[i] == before[i]);
            } else {
                assert(out@[i] == e);
            }
        }
    }
}

/// Whether a name is one of the `[*]` pseudo-state spellings.
fn is_star(s: &str) -> (r: bool)
    ensures
        r == (s@ == "[*]"@),
{
    let cs = crate::scan::str_chars(s);
    proof {
        assert(cs@.subrange(0, cs@.len() as int) =~= cs@);
    }
    crate::scan::range_is(&cs, 0, cs.len(), "[*]")
}

impl StateLayoutEngine {
    /// An engine with the stock configuration.
    pub fn new() -> (e: StateLayoutEngine)
        ensures
            e.config == default_state_config(),
            e.config.wf(),
    {
        StateLayoutEngine { config: StateLayoutConfig::default() }
    }

    /// An engine with the given configuration.
    pub fn with_config(config: StateLayoutConfig) -> (e: StateLayoutEngine)
        ensures
            e.config == config,
    {
        StateLayoutEngine { config }
    }

    /// Lays out a state diagram: levels assigned breadth-first from the
    /// initial pseudo-state, composite states laid out recursively first,
    /// one row per level centered on the diagram axis, and transition edges
    /// routed between the placed states.
    ///
    /// Every element of the result has positive in-range bounds, every edge
    /// is a valid polyline, and the extent covers all elements.
    #[verifier::rlimit(100)]
    pub fn layout(&self, diagram: &StateDiagram) -> (r: LayoutResult)
        requires
            state_diagram_wf(*diagram),
            self.config.wf(),
        ensures
            out_els_wf(r.elements@),
            r.bounds.is_positive(),
            forall|i: int|
                0 <= i < r.elements@.len() ==> r.bounds.contains_rect(
                    (#[trigger] r.elements@[i]).bounds,
                ),
            has_initial_spec(*diagram) && !composite_named(diagram.states@, "[*]_initial"@)
                ==> exists|i: int|
                0 <= i < r.elements@.len() && (#[trigger] r.elements@[i]).element_type
                    is InitialState,
            has_final_spec(*diagram) && !composite_named(diagram.states@, "[*]_final"@)
                ==> exists|i: int|
                0 <= i < r.elements@.len() && (#[trigger] r.elements@[i]).element_type
                    is FinalState,
            exists|nn: int|
                trailing_edges(r.elements@, nn, diagram.transitions@.len() as int),
    {
        let cfg = &self.config;
        let mut internal = NameIndex::new();
        let ns = diagram.states.len();
        let mut si: usize = 0;
        proof {
            lemma_states_wf_index(diagram.states@);
        }
        while si < ns
            invariant
                si <= ns,
                ns == diagram.states@.len(),
                internal.wf(),
                state_diagram_wf(*diagram),
                forall|i: int| 0 <= i < diagram.states@.len() ==> state_wf(#[trigger] diagram.states@[i]),
            decreases ns - si,
        {
            let s = &diagram.states[si];
            let is_comp = match s.state_type {
                StateType::Composite => true,
                _ => false,
            };
            if is_comp {
                register_inner_names(s, &mut internal);
            }
            si = si + 1;
        }
        let mut names = NameIndex::new();
        let mut has_initial = false;
        let mut has_final = false;
        let nt = diagram.transitions.len();
        let mut ti: usize = 0;
        while ti < nt
            invariant
                ti <= nt,
                nt == diagram.transitions@.len(),
                state_diagram_wf(*diagram),
                has_initial == exists|i: int|
                    0 <= i < ti && (#[trigger] diagram.transitions@[i]).from@ == "[*]"@,
                has_final == exists|i: int|
                    0 <= i < ti && (#[trigger] diagram.transitions@[i]).to@ == "[*]"@,
            decreases nt - ti,
        {
            if is_star(diagram.transitions[ti].from.as_str()) {
                has_initial = true;
            }
            if is_star(diagram.transitions[ti].to.as_str()) {
                has_final = true;
            }
            ti = ti + 1;
        }
        proof {
            assert(has_initial == has_initial_spec(*diagram));
            assert(has_final == has_final_spec(*diagram));
        }
        let ghost want_init = has_initial_spec(*diagram) && !composite_named(
            diagram.states@,
            "[*]_initial"@,
        );
        let ghost want_fin = has_final_spec(*diagram) && !composite_named(
            diagram.states@,
            "[*]_final"@,
        );
        if has_initial && names.len() < 0x7fff_ffff {
            let _ = names.get_or_insert("[*]_initial");
        }
        si = 0;
        while si < ns
            invariant
                si <= ns,
                ns == diagram.states@.len(),
                names.wf(),
                internal.wf(),
                state_diagram_wf(*diagram),
                forall|i: int| 0 <= i < diagram.states@.len() ==> state_wf(#[trigger] diagram.states@[i]),
                names.names().len() <= 1 + si,
                has_initial ==> 0 < names.names().len() && names.names()[0] == "[*]_initial"@,
            decreases ns - si,
        {
            let s = &diagram.states[si];
            let star = is_star(s.name.as_str());
            let inner = match internal.lookup(s.name.as_str()) {
                Some(_) => true,
                None => false,
            };
            if !star && !inner && names.len() < 0x7fff_ffff {
                let _ = names.get_or_insert(s.name.as_str());
            }
            si = si + 1;
        }
        ti = 0;
        while ti < nt
            invariant
                ti <= nt,
                nt == diagram.transitions@.len(),
                ns == diagram.states@.len(),
                names.wf(),
                internal.wf(),
                state_diagram_wf(*diagram),
                names.names().len() <= 1 + ns + 2 * ti,
                has_initial ==> 0 < names.names().len() && names.names()[0] == "[*]_initial"@,
            decreases nt - ti,
        {
            proof {
                assert(transition_wf(diagram.transitions@[ti as int]));
            }
            let t = &diagram.transitions[ti];
            if !is_star(t.from.as_str()) {
                let inner = match internal.lookup(t.from.as_str()) {
                    Some(_) => true,
                    None => false,
                };
                if !inner && names.len() < 0x7fff_ffff {
                    let _ = names.get_or_insert(t.from.as_str());
                }
            }
            if !is_star(t.to.as_str()) {
                let inner = match internal.lookup(t.to.as_str()) {
                    Some(_) => true,
                    None => false,
                };
                if !inner && names.len() < 0x7fff_ffff {
                    let _ = names.get_or_insert(t.to.as_str());
                }
            }
            ti = ti + 1;
        }
        proof {
            assert(names.names().len() <= 1 + MAX_ITEMS + 2 * MAX_ITEMS);
        }
        let final_slot: usize;
        if has_final && names.len() < 0x7fff_ffff {
            final_slot = names.get_or_insert("[*]_final");
        } else {
            final_slot = 0;
            has_final = has_final && false;
        }
        let n = names.len();
        proof {
            assert(has_initial ==> 0 < n && names.names()[0] == "[*]_initial"@);
            assert(has_final ==> final_slot < n && names.names()[final_slot as int]
                == "[*]_final"@);
        }
        proof {
            assert(n <= usize::MAX);
        }
        // resolved top-level transitions
        let mut slot_trans: Vec<SlotTransition> = Vec::new();
        ti = 0;
        while ti < nt
            invariant
                ti <= nt,
                nt == diagram.transitions@.len(),
                names.wf(),
                n == names.names().len(),
                state_diagram_wf(*diagram),
                forall|j: int| 0 <= j < slot_trans@.len() ==> slot_trans_ok(#[trigger] slot_trans@[j], n as int),
                slot_trans@.len() <= ti,
            decreases nt - ti,
        {
            proof {
                assert(transition_wf(diagram.transitions@[ti as int]));
            }
            let t = &diagram.transitions[ti];
            let from_slot: Option<usize> = if is_star(t.from.as_str()) {
                if has_initial {
                    names.lookup("[*]_initial")
                } else {
                    None
                }
            } else {
                names.lookup(t.from.as_str())
            };
            let to_slot: Option<usize> = if is_star(t.to.as_str()) {
                if has_final {
                    names.lookup("[*]_final")
                } else {
                    None
                }
            } else {
                names.lookup(t.to.as_str())
            };
            match (from_slot, to_slot) {
                (Some(a), Some(b)) => {
                    let lab = t.label();
                    let lab_opt: Option<String> = if lab.as_str().unicode_len() == 0 {
                        None
                    } else {
                        Some(lab)
                    };
                    slot_trans.push(SlotTransition { from: a, to: b, label: lab_opt });
                },
                _ => {
                },
            }
            ti = ti + 1;
        }
        proof {
            if has_initial && has_final && n > 0 {
                reveal_strlit("[*]_initial");
                reveal_strlit("[*]_final");
                assert("[*]_initial"@ != "[*]_final"@) by {
                    assert("[*]_initial"@[4] == 'i');
                    assert("[*]_final"@[4] == 'f');
                }
                assert(final_slot != 0);
            }
        }
        let levels = assign_levels(n, &slot_trans, has_initial, has_final, final_slot);
        // composite layouts, keyed by top-level slot
        let mut comp_elems: Vec<Option<Vec<LayoutElement>>> = Vec::new();
        let mut comp_w: Vec<i64> = Vec::new();
        let mut comp_h: Vec<i64> = Vec::new();
        let mut k: usize = 0;
        while k < n
            invariant
                k <= n,
                comp_elems@.len() == k,
                comp_w@.len() == k,
                comp_h@.len() == k,
                names.wf(),
                n == names.names().len(),
                ns == diagram.states@.len(),
                state_diagram_wf(*diagram),
                cfg.wf(),
                forall|j: int| 0 <= j < k ==> 0 < #[trigger] comp_w@[j] <= S_LIM,
                forall|j: int| 0 <= j < k ==> 0 < #[trigger] comp_h@[j] <= S_LIM,
                forall|j: int|
                    0 <= j < k ==> match #[trigger] comp_elems@[j] {
                        Some(v) => all_out_wf(v@),
                        None => true,
                    },
                forall|j: int|
                    0 <= j < k ==> ((#[trigger] comp_elems@[j]) is Some <==> composite_named(
                        diagram.states@,
                        names.names()[j],
                    )),
            decreases n - k,
        {
            let name = names.name_at(k);
            let mut found: bool = false;
            let mut fi: usize = 0;
            let mut fidx: usize = 0;
            while fi < ns
                invariant
                    fi <= ns,
                    ns == diagram.states@.len(),
                    fidx < ns || !found,
                    found ==> fidx < ns,
                    found == exists|j: int|
                        0 <= j < fi && (#[trigger] diagram.states@[j]).state_type is Composite
                            && diagram.states@[j].name@ == name@,
                decreases ns - fi,
            {
                let s = &diagram.states[fi];
                let is_comp = match s.state_type {
                    StateType::Composite => true,
                    _ => false,
                };
                if is_comp && !found {
                    let owned: String = name.clone();
                    if s.name == owned {
                        found = true;
                        fidx = fi;
                        proof {
                            assert(diagram.states@[fi as int].state_type is Composite
                                && diagram.states@[fi as int].name@ == name@);
                        }
                    }
                }
                fi = fi + 1;
            }
            if found {
                proof {
                    lemma_states_wf_index(diagram.states@);
                }
                let r = layout_composite_content(cfg, &diagram.states[fidx]);
                comp_elems.push(Some(r.0));
                comp_w.push(r.1);
                comp_h.push(r.2);
            } else {
                comp_elems.push(None);
                comp_w.push(cfg.state_width);
                comp_h.push(cfg.state_min_height);
            }
            proof {
                assert((comp_elems@[k as int]) is Some <==> composite_named(
                    diagram.states@,
                    names.names()[k as int],
                ));
            }
            k = k + 1;
        }
        // per-level sizing
        let max_level = max_of(&levels);
        let mut out: Vec<LayoutElement> = Vec::new();
        let mut positions: Vec<Option<Rect>> = Vec::new();
        k = 0;
        while k < n
            invariant
                k <= n,
                positions@.len() == k,
                forall|j: int| 0 <= j < k ==> (#[trigger] positions@[j]) is None,
            decreases n - k,
        {
            positions.push(None);
            k = k + 1;
        }
        let mut level_widths: Vec<i64> = Vec::new();
        let mut lv: i64 = 0;
        while lv <= max_level
            invariant
                0 <= lv <= max_level + 1,
                max_level <= MAX_ITEMS as i64 + 1,
                level_widths@.len() == lv,
                n == names.names().len(),
                n == levels@.len(),
                n == comp_w@.len(),
                cfg.wf(),
                forall|j: int| 0 <= j < n ==> 0 < #[trigger] comp_w@[j] <= S_LIM,
                forall|j: int| 0 <= j < lv ==> 0 <= #[trigger] level_widths@[j] <= 0x4000_0000_0000,
            decreases max_level - lv + 1,
        {
            let mut total: i64 = 0;
            let mut q: usize = 0;
            while q < n
                invariant
                    q <= n,
                    n == levels@.len(),
                    n == comp_w@.len(),
                    cfg.wf(),
                    forall|j: int| 0 <= j < n ==> 0 < #[trigger] comp_w@[j] <= S_LIM,
                    0 <= total <= 0x4000_0000_0000,
                decreases n - q,
            {
                if levels[q] == lv {
                    let w = comp_w[q] + cfg.horizontal_spacing;
                    total = if total >= 0x4000_0000_0000 - w {
                        0x4000_0000_0000
                    } else {
                        total + w
                    };
                }
                q = q + 1;
            }
            level_widths.push(total);
            lv = lv + 1;
        }
        let mut max_width: i64 = 8;
        k = 0;
        while k < level_widths.len()
            invariant
                k <= level_widths@.len(),
                8 <= max_width <= 0x4000_0000_0000,
                forall|j: int|
                    0 <= j < level_widths@.len() ==> 0 <= #[trigger] level_widths@[j]
                        <= 0x4000_0000_0000,
            decreases level_widths@.len() - k,
        {
            max_width = imax(max_width, level_widths[k]);
            k = k + 1;
        }
        let center_x = cfg.margin + max_width / 2;
        // place states level by level
        let mut y: i64 = cfg.margin;
        lv = 0;
        while lv <= max_level
            invariant
                0 <= lv <= max_level + 1,
                max_level <= MAX_ITEMS as i64 + 1,
                n == names.names().len(),
                n == levels@.len(),
                n == comp_w@.len(),
                n == comp_h@.len(),
                n == comp_elems@.len(),
                n == positions@.len(),
                level_widths@.len() == max_level + 1,
                names.wf(),
                cfg.wf(),
                cfg.margin <= y <= S_LIM,
                8 <= max_width <= 0x4000_0000_0000,
                8 <= center_x <= 0x6000_0000_0000,
                all_out_wf(out@),
                forall|j: int| 0 <= j < n ==> 0 < #[trigger] comp_w@[j] <= S_LIM,
                forall|j: int| 0 <= j < n ==> 0 < #[trigger] comp_h@[j] <= S_LIM,
                forall|j: int|
                    0 <= j < n ==> match #[trigger] comp_elems@[j] {
                        Some(v) => all_out_wf(v@),
                        None => true,
                    },
                state_diagram_wf(*diagram),
                forall|j: int|
                    0 <= j < n ==> match #[trigger] positions@[j] {
                        Some(rc) => rc.is_positive() && rc.in_range() && 0 <= rc.x
                            <= 0x8000_0000_0000 && 0 <= rc.y <= S_LIM && rc.width <= S_LIM
                            && rc.height <= S_LIM,
                        None => true,
                    },
                forall|j: int|
                    0 <= j < level_widths@.len() ==> 0 <= #[trigger] level_widths@[j]
                        <= 0x4000_0000_0000,
                forall|j: int| 0 <= j < n ==> 0 <= #[trigger] levels@[j] <= max_level,
                want_init ==> 0 < n && names.names()[0] == "[*]_initial"@ && comp_elems@[0]
                    is None,
                want_fin ==> final_slot < n && names.names()[final_slot as int] == "[*]_final"@
                    && comp_elems@[final_slot as int] is None,
                want_init && levels@[0] < lv ==> exists|i: int|
                    0 <= i < out@.len() && (#[trigger] out@[i]).element_type is InitialState,
                want_fin && levels@[final_slot as int] < lv ==> exists|i: int|
                    0 <= i < out@.len() && (#[trigger] out@[i]).element_type is FinalState,
            decreases max_level - lv + 1,
        {
            let lw = level_widths[lv as usize];
            let mut x = imax(center_x - lw / 2, cfg.margin);
            let mut row_h: i64 = cfg.state_min_height;
            let mut q: usize = 0;
            while q < n
                invariant
                    q <= n,
                    n == names.names().len(),
                    n == levels@.len(),
                    n == comp_w@.len(),
                    n == comp_h@.len(),
                    n == comp_elems@.len(),
                    n == positions@.len(),
                    names.wf(),
                    cfg.wf(),
                    cfg.margin <= y <= S_LIM,
                    cfg.margin <= x <= 0x8000_0000_0000,
                    8 <= row_h <= S_LIM,
                    all_out_wf(out@),
                    forall|j: int| 0 <= j < n ==> 0 < #[trigger] comp_w@[j] <= S_LIM,
                    forall|j: int| 0 <= j < n ==> 0 < #[trigger] comp_h@[j] <= S_LIM,
                    forall|j: int|
                        0 <= j < n ==> match #[trigger] comp_elems@[j] {
                            Some(v) => all_out_wf(v@),
                            None => true,
                        },
                    state_diagram_wf(*diagram),
                    forall|j: int|
                        0 <= j < n ==> match #[trigger] positions@[j] {
                            Some(rc) => rc.is_positive() && rc.in_range() && 0 <= rc.x
                                <= 0x8000_0000_0000 && 0 <= rc.y <= S_LIM && rc.width <= S_LIM
                                && rc.height <= S_LIM,
                            None => true,
                        },
                    want_init ==> 0 < n && names.names()[0] == "[*]_initial"@ && comp_elems@[0]
                        is None,
                    want_fin ==> final_slot < n && names.names()[final_slot as int]
                        == "[*]_final"@ && comp_elems@[final_slot as int] is None,
                    want_init && (levels@[0] < lv || (levels@[0] == lv && 0 < q)) ==> exists|
                        i: int,
                    |
                        0 <= i < out@.len() && (#[trigger] out@[i]).element_type is InitialState,
                    want_fin && (levels@[final_slot as int] < lv || (levels@[final_slot as int]
                        == lv && final_slot < q)) ==> exists|i: int|
                        0 <= i < out@.len() && (#[trigger] out@[i]).element_type is FinalState,
                decreases n - q,
            {
                if levels[q] == lv {
                    let name = names.name_at(q).clone();
                    let w = comp_w[q];
                    let h = comp_h[q];
                    let has_inner = match &comp_elems[q] {
                        Some(_) => true,
                        None => false,
                    };
                    let rect = Rect::new(x, y, w, h);
                    positions.set(q, Some(rect));
                    let ghost pre = out@;
                    if has_inner {
                        emit_composite(cfg, &name, rect, &comp_elems[q], &mut out);
                    } else {
                        emit_state(cfg, diagram, &name, rect, &mut out);
                    }
                    proof {
                        assert forall|i: int| 0 <= i < pre.len() implies out@[i] == pre[i] by {
                            assert(out@.take(pre.len() as int)[i] == out@[i]);
                        }
                        if want_init && q == 0 {
                            assert(!has_inner);
                            assert(out@[out@.len() - 1].element_type is InitialState);
                        }
                        if want_fin && q == final_slot {
                            assert(!has_inner);
                            reveal_strlit("[*]_initial");
                            reveal_strlit("[*]_final");
                            assert("[*]_final"@ != "[*]_initial"@);
                            assert(out@[out@.len() - 1].element_type is FinalState);
                        }
                    }
                    row_h = imax(row_h, h);
                    let step = w + cfg.horizontal_spacing;
                    x = if x >= 0x8000_0000_0000 - step {
                        0x8000_0000_0000
                    } else {
                        x + step
                    };
                }
                q = q + 1;
            }
            let dy = row_h + cfg.vertical_spacing;
            y = if y >= S_LIM - dy {
                S_LIM
            } else {
                y + dy
            };
            lv = lv + 1;
        }
        // transition edges
        let ghost nodes_len = out@.len() as int;
        let mut counter: u64 = 0;
        let mut bwd: i64 = 0;
        let mut tti: usize = 0;
        while tti < slot_trans.len()
            invariant
                tti <= slot_trans@.len(),
                n == positions@.len(),
                cfg.wf(),
                0 <= bwd <= MAX_ITEMS as i64,
                all_out_wf(out@),
                want_init ==> exists|i: int|
                    0 <= i < out@.len() && (#[trigger] out@[i]).element_type is InitialState,
                want_fin ==> exists|i: int|
                    0 <= i < out@.len() && (#[trigger] out@[i]).element_type is FinalState,
                slot_trans@.len() <= diagram.transitions@.len(),
                0 <= nodes_len <= out@.len() <= nodes_len + tti,
                forall|i: int|
                    nodes_len <= i < out@.len() ==> (#[trigger] out@[i]).element_type is Edge,
                forall|j: int| 0 <= j < slot_trans@.len() ==> slot_trans_ok(#[trigger] slot_trans@[j], n as int),
                forall|j: int|
                    0 <= j < n ==> match #[trigger] positions@[j] {
                        Some(rc) => rc.is_positive() && rc.in_range() && 0 <= rc.x
                            <= 0x8000_0000_0000 && 0 <= rc.y <= S_LIM && rc.width <= S_LIM
                            && rc.height <= S_LIM,
                        None => true,
                    },
            decreases slot_trans@.len() - tti,
        {
            let st = &slot_trans[tti];
            let fr = &positions[st.from];
            let tor = &positions[st.to];
            match (fr, tor) {
                (Some(a), Some(b)) => {
                    let is_backward = b.y + b.height / 2 < a.y + a.height / 2 - cfg.vertical_spacing / 2;
                    if is_backward && bwd < MAX_ITEMS as i64 {
                        bwd = bwd + 1;
                    }
                    let lab: Option<String> = match &st.label {
                        Some(l) => Some(l.clone()),
                        None => None,
                    };
                    let ghost pre = out@;
                    emit_transition(cfg, *a, *b, lab, if is_backward {
                        bwd
                    } else {
                        0
                    }, &mut counter, &mut out);
                    proof {
                        assert forall|i: int| 0 <= i < pre.len() implies out@[i] == pre[i] by {
                            assert(out@.take(pre.len() as int)[i] == out@[i]);
                        }
                        if out@.len() > pre.len() {
                            assert(out@[out@.len() - 1].element_type is Edge);
                        }
                        assert forall|i: int|
                            nodes_len <= i < out@.len() implies (#[trigger] out@[i]).element_type
                            is Edge by {
                            if i < pre.len() {
                                assert(out@.take(pre.len() as int) == pre);
                                assert(out@.take(pre.len() as int)[i] == pre[i]);
                                assert(out@.take(pre.len() as int)[i] == out@[i]);
                            } else {
                                assert(i == out@.len() - 1);
                            }
                        }
                    }
                },
                _ => {
                },
            }
            tti = tti + 1;
        }
        proof {
            crate::seq_engine::lemma_pointwise_out_els_pub(out@);
            assert(trailing_edges(out@, nodes_len, diagram.transitions@.len() as int));
        }
        let mut result = LayoutResult { elements: out, bounds: Rect::new(0, 0, 1, 1) };
        proof {
            lemma_out_els_wf_index(result.elements@);
        }
        result.calculate_bounds();
        let ghost tight = result.bounds;
        proof {
            crate::model::lemma_tight_union_positive(tight, result.elements@);
            assert forall|i: int|
                0 <= i < result.elements@.len() implies result.bounds.contains_rect(
                (#[trigger] result.elements@[i]).bounds,
            ) by {
                crate::model::lemma_tight_union_contains(tight, result.elements@, i);
            }
        }
        result
    }
}

impl Default for StateLayoutEngine {
    fn default() -> (e: StateLayoutEngine)
        ensures
            e.config == default_state_config(),
    {
        StateLayoutEngine::new()
    }
}

/// The largest entry (at least 0).
fn max_of(levels: &Vec<i64>) -> (r: i64)
    requires
        forall|j: int| 0 <= j < levels@.len() ==> 0 <= #[trigger] levels@[j] <= MAX_ITEMS as i64 + 1,
    ensures
        0 <= r <= MAX_ITEMS as i64 + 1,
        forall|j: int| 0 <= j < levels@.len() ==> #[trigger] levels@[j] <= r,
{
    let mut r: i64 = 0;
    let mut i: usize = 0;
    while i < levels.len()
        invariant
            i <= levels@.len(),
            0 <= r <= MAX_ITEMS as i64 + 1,
            forall|j: int| 0 <= j < levels@.len() ==> 0 <= #[trigger] levels@[j] <= MAX_ITEMS as i64 + 1,
            forall|j: int| 0 <= j < i ==> #[trigger] levels@[j] <= r,
        decreases levels@.len() - i,
    {
        r = imax(r, levels[i]);
        i = i + 1;
    }
    r
}

/// Registers the names a composite's content mentions.
fn register_inner_names(s: &State, internal: &mut NameIndex)
    requires
        old(internal).wf(),
        state_wf(*s),
    ensures
        final(internal).wf(),
{
    let nt = s.internal_transitions.len();
    let mut i: usize = 0;
    while i < nt
        invariant
            i <= nt,
            nt == s.internal_transitions@.len(),
            internal.wf(),
            state_wf(*s),
        decreases nt - i,
    {
        proof {
            assert(transition_wf(s.internal_transitions@[i as int]));
        }
        let t = &s.internal_transitions[i];
        if !is_star(t.from.as_str()) && internal.len() < 0x7fff_ffff {
            let _ = internal.get_or_insert(t.from.as_str());
        }
        if !is_star(t.to.as_str()) && internal.len() < 0x7fff_ffff {
            let _ = internal.get_or_insert(t.to.as_str());
        }
        i = i + 1;
    }
    let nsub = s.substates.len();
    let mut j: usize = 0;
    while j < nsub
        invariant
            j <= nsub,
            nsub == s.substates@.len(),
            internal.wf(),
            state_wf(*s),
        decreases nsub - j,
    {
        proof {
            lemma_states_wf_index(s.substates@);
        }
        if internal.len() < 0x7fff_ffff {
            let _ = internal.get_or_insert(s.substates[j].name.as_str());
        }
        j = j + 1;
    }
}

/// Assigns levels breadth-first: the initial pseudo-state (or the sources)
/// at level zero, every reached state one below its source, the final
/// pseudo-state last, unreached states at level zero.
fn assign_levels(
    n: usize,
    trans: &Vec<SlotTransition>,
    has_initial: bool,
    has_final: bool,
    final_slot: usize,
) -> (levels: Vec<i64>)
    requires
        forall|j: int| 0 <= j < trans@.len() ==> slot_trans_ok(#[trigger] trans@[j], n as int),
        has_final ==> final_slot < n,
        has_initial && has_final && n > 0 ==> final_slot != 0,
    ensures
        levels@.len() == n,
        forall|j: int| 0 <= j < n ==> 0 <= #[trigger] levels@[j] <= MAX_ITEMS as i64 + 1,
        has_initial && n > 0 ==> levels@[0] == 0,
        has_final ==> (forall|j: int|
            0 <= j < n && j != final_slot ==> #[trigger] levels@[j] < levels@[final_slot as int]),
{
    let mut levels: Vec<i64> = Vec::new();
    let mut k: usize = 0;
    while k < n
        invariant
            k <= n,
            levels@.len() == k,
            forall|j: int| 0 <= j < k ==> #[trigger] levels@[j] == -1,
        decreases n - k,
    {
        levels.push(-1);
        k = k + 1;
    }
    if has_initial && n > 0 {
        levels.set(0, 0);
    } else {
        // states that are never a target start at level zero
        let mut is_target: Vec<bool> = Vec::new();
        k = 0;
        while k < n
            invariant
                k <= n,
                is_target@.len() == k,
                levels@.len() == n,
                forall|j: int| 0 <= j < n ==> #[trigger] levels@[j] == -1,
            decreases n - k,
        {
            is_target.push(false);
            k = k + 1;
        }
        let mut t: usize = 0;
        while t < trans.len()
            invariant
                t <= trans@.len(),
                is_target@.len() == n,
                levels@.len() == n,
                forall|j: int| 0 <= j < n ==> #[trigger] levels@[j] == -1,
                forall|j: int| 0 <= j < trans@.len() ==> slot_trans_ok(#[trigger] trans@[j], n as int),
            decreases trans@.len() - t,
        {
            is_target.set(trans[t].to, true);
            t = t + 1;
        }
        k = 0;
        let mut any = false;
        while k < n
            invariant
                k <= n,
                is_target@.len() == n,
                levels@.len() == n,
                forall|j: int| 0 <= j < n ==> -1 <= #[trigger] levels@[j] <= 0,
            decreases n - k,
        {
            let skip_final = has_final && k == final_slot;
            if !is_target[k] && !skip_final {
                levels.set(k, 0);
                any = true;
            }
            k = k + 1;
        }
        if !any && n > 0 {
            levels.set(0, 0);
        }
    }
    proof {
        assert(has_initial && n > 0 ==> levels@[0] == 0);
    }
    // fixed point: each round settles at least one state
    let mut round: usize = 0;
    while round <= n
        invariant
            round <= n,
            levels@.len() == n,
            forall|j: int| 0 <= j < n ==> -1 <= #[trigger] levels@[j] <= MAX_ITEMS as i64,
            forall|j: int| 0 <= j < trans@.len() ==> slot_trans_ok(#[trigger] trans@[j], n as int),
            has_initial && n > 0 ==> levels@[0] == 0,
        decreases n - round,
    {
        let mut t: usize = 0;
        while t < trans.len()
            invariant
                t <= trans@.len(),
                levels@.len() == n,
                forall|j: int| 0 <= j < n ==> -1 <= #[trigger] levels@[j] <= MAX_ITEMS as i64,
                forall|j: int| 0 <= j < trans@.len() ==> slot_trans_ok(#[trigger] trans@[j], n as int),
                has_initial && n > 0 ==> levels@[0] == 0,
            decreases trans@.len() - t,
        {
            let tr = &trans[t];
            let skip_final = has_final && tr.to == final_slot;
            if !skip_final && levels[tr.from] >= 0 && levels[tr.to] < 0 {
                let nl = imin(levels[tr.from] + 1, MAX_ITEMS as i64);
                levels.set(tr.to, nl);
            }
            t = t + 1;
        }
        if round == n {
            break ;
        }
        round = round + 1;
    }
    if has_final {
        let mut mx: i64 = 0;
        k = 0;
        while k < n
            invariant
                k <= n,
                levels@.len() == n,
                0 <= mx <= MAX_ITEMS as i64,
                forall|j: int| 0 <= j < n ==> -1 <= #[trigger] levels@[j] <= MAX_ITEMS as i64,
                forall|j: int| 0 <= j < k && j != final_slot ==> #[trigger] levels@[j] <= mx,
                has_initial && n > 0 ==> levels@[0] == 0,
            decreases n - k,
        {
            if !(k == final_slot) {
                mx = imax(mx, imin(levels[k], MAX_ITEMS as i64));
            }
            k = k + 1;
        }
        levels.set(final_slot, mx + 1);
        proof {
            assert forall|j: int|
                0 <= j < n && j != final_slot implies #[trigger] levels@[j]
                < levels@[final_slot as int] by {}
        }
    }
    k = 0;
    while k < n
        invariant
            k <= n,
            levels@.len() == n,
            forall|j: int| 0 <= j < n ==> -1 <= #[trigger] levels@[j] <= MAX_ITEMS as i64 + 1,
            forall|j: int| 0 <= j < k ==> 0 <= #[trigger] levels@[j] <= MAX_ITEMS as i64 + 1,
            has_initial && n > 0 ==> levels@[0] == 0,
            has_final ==> final_slot < n,
            has_final ==> levels@[final_slot as int] >= 1,
            has_final ==> (forall|j: int|
                0 <= j < n && j != final_slot ==> #[trigger] levels@[j]
                    < levels@[final_slot as int]),
        decreases n - k,
    {
        if levels[k] < 0 {
            levels.set(k, 0);
        }
        k = k + 1;
    }
    levels
}

/// What the node of a non-composite state looks like, by its kind.
pub open spec fn node_desc(
    el: LayoutElement,
    st: StateType,
    name: Seq<char>,
    rect: Rect,
    cfg: StateLayoutConfig,
) -> bool {
    match st {
        StateType::Initial => el.element_type is InitialState && el.bounds == (Rect {
            x: rect.x,
            y: rect.y,
            width: (2 * cfg.node_radius) as i64,
            height: (2 * cfg.node_radius) as i64,
        }),
        StateType::Final => el.element_type is FinalState && el.bounds == (Rect {
            x: rect.x,
            y: rect.y,
            width: (2 * cfg.node_radius) as i64,
            height: (2 * cfg.node_radius) as i64,
        }),
        StateType::Choice => el.element_type is Text && el.bounds == (Rect {
            x: rect.x,
            y: rect.y,
            width: cfg.choice_size,
            height: cfg.choice_size,
        }),
        StateType::Fork => el.element_type is Rectangle && el.bounds == (Rect {
            x: rect.x,
            y: rect.y,
            width: cfg.bar_width,
            height: cfg.bar_height,
        }),
        StateType::Join => el.element_type is Rectangle && el.bounds == (Rect {
            x: rect.x,
            y: rect.y,
            width: cfg.bar_width,
            height: cfg.bar_height,
        }),
        StateType::History => el.element_type is Ellipse,
        StateType::DeepHistory => el.element_type is Ellipse,
        _ => (match el.element_type {
            ElementType::State { name: nm, .. } => nm@ == name,
            _ => false,
        }) && el.bounds == rect,
    }
}

/// Emits one non-composite state at its rectangle, shaped by its kind.
fn emit_state(
    cfg: &StateLayoutConfig,
    d: &StateDiagram,
    name: &String,
    rect: Rect,
    out: &mut Vec<LayoutElement>,
)
    requires
        cfg.wf(),
        state_diagram_wf(*d),
        rect.is_positive(),
        rect.in_range(),
        0 <= rect.x <= 0x8000_0000_0000,
        0 <= rect.y <= S_LIM,
        0 < rect.width <= S_LIM,
        0 < rect.height <= S_LIM,
        all_out_wf(old(out)@),
    ensures
        all_out_wf(final(out)@),
        final(out)@.len() == old(out)@.len() + 1,
        final(out)@.take(old(out)@.len() as int) == old(out)@,
        node_desc(final(out)@.last(), state_type_spec(*d, name@), name@, rect, *cfg),
{
    let ghost base = out@.len();
    let stype = state_type_of(d, name);
    let r = cfg.node_radius;
    match stype {
        StateType::Initial => {
            let mut id = String::from_str("initial_");
            id.append(name.as_str());
            push_wf(
                out,
                LayoutElement {
                    id,
                    bounds: Rect::new(rect.x, rect.y, 2 * r, 2 * r),
                    text: None,
                    properties: Props::new(),
                    element_type: ElementType::InitialState,
                },
            );
        },
        StateType::Final => {
            let mut id = String::from_str("final_");
            id.append(name.as_str());
            push_wf(
                out,
                LayoutElement {
                    id,
                    bounds: Rect::new(rect.x, rect.y, 2 * r, 2 * r),
                    text: None,
                    properties: Props::new(),
                    element_type: ElementType::FinalState,
                },
            );
        },
        StateType::Choice => {
            let mut id = String::from_str("choice_");
            id.append(name.as_str());
            push_wf(
                out,
                LayoutElement {
                    id,
                    bounds: Rect::new(rect.x, rect.y, cfg.choice_size, cfg.choice_size),
                    text: None,
                    properties: Props::new(),
                    element_type: ElementType::Text {
                        text: String::from_str("<>"),
                        font_size: 16,
                    },
                },
            );
        },
        StateType::Fork => {
            emit_bar(cfg, name, rect, out);
        },
        StateType::Join => {
            emit_bar(cfg, name, rect, out);
        },
        StateType::History => {
            emit_history(cfg, name, rect, false, out);
        },
        StateType::DeepHistory => {
            emit_history(cfg, name, rect, true, out);
        },
        _ => {
            let mut id = String::from_str("state_");
            id.append(name.as_str());
            push_wf(
                out,
                LayoutElement {
                    id,
                    bounds: rect,
                    text: None,
                    properties: Props::new(),
                    element_type: ElementType::State {
                        name: name.clone(),
                        description: None,
                    },
                },
            );
        },
    }
    proof {
        assert(final(out)@.take(base as int) =~= old(out)@);
    }
}

fn emit_bar(cfg: &StateLayoutConfig, name: &String, rect: Rect, out: &mut Vec<LayoutElement>)
    requires
        cfg.wf(),
        rect.in_range(),
        0 <= rect.x <= 0x8000_0000_0000,
        0 <= rect.y <= S_LIM,
        all_out_wf(old(out)@),
    ensures
        all_out_wf(final(out)@),
        final(out)@.len() == old(out)@.len() + 1,
        final(out)@.take(old(out)@.len() as int) == old(out)@,
        final(out)@.last().element_type is Rectangle,
        final(out)@.last().bounds == (Rect {
            x: rect.x,
            y: rect.y,
            width: cfg.bar_width,
            height: cfg.bar_height,
        }),
{
    let ghost base = out@.len();
    let mut id = String::from_str("bar_");
    id.append(name.as_str());
    push_wf(
        out,
        LayoutElement {
            id,
            bounds: Rect::new(rect.x, rect.y, cfg.bar_width, cfg.bar_height),
            text: None,
            properties: Props::new(),
            element_type: ElementType::Rectangle { label: String::new(), corner_radius: 0 },
        },
    );
    proof {
        assert(final(out)@.take(base as int) =~= old(out)@);
    }
}

fn emit_history(
    cfg: &StateLayoutConfig,
    name: &String,
    rect: Rect,
    deep: bool,
    out: &mut Vec<LayoutElement>,
)
    requires
        cfg.wf(),
        rect.in_range(),
        0 <= rect.x <= 0x8000_0000_0000,
        0 <= rect.y <= S_LIM,
        all_out_wf(old(out)@),
    ensures
        all_out_wf(final(out)@),
        final(out)@.len() == old(out)@.len() + 1,
        final(out)@.take(old(out)@.len() as int) == old(out)@,
        final(out)@.last().element_type is Ellipse,
{
    let ghost base = out@.len();
    let mut id = String::from_str("history_");
    id.append(name.as_str());
    let label = if deep {
        String::from_str("H*")
    } else {
        String::from_str("H")
    };
    push_wf(
        out,
        LayoutElement {
            id,
            bounds: Rect::new(rect.x, rect.y, 2 * cfg.node_radius, 2 * cfg.node_radius),
            text: None,
            properties: Props::new(),
            element_type: ElementType::Ellipse { label: Some(label) },
        },
    );
    proof {
        assert(final(out)@.take(base as int) =~= old(out)@);
    }
}

/// The declared kind of a named state, per [`state_type_spec`].
fn state_type_of(d: &StateDiagram, name: &String) -> (r: StateType)
    requires
        state_diagram_wf(*d),
    ensures
        r == state_type_spec(*d, name@),
{
    let cs = crate::scan::str_chars(name.as_str());
    proof {
        assert(cs@.subrange(0, cs@.len() as int) =~= cs@);
    }
    if crate::scan::range_is(&cs, 0, cs.len(), "[*]_initial") {
        return StateType::Initial;
    }
    if crate::scan::range_is(&cs, 0, cs.len(), "[*]_final") {
        return StateType::Final;
    }
    if crate::scan::range_is(&cs, 0, cs.len(), "[H]") {
        return StateType::History;
    }
    if crate::scan::range_is(&cs, 0, cs.len(), "[H*]") {
        return StateType::DeepHistory;
    }
    let ns = d.states.len();
    let mut i: usize = 0;
    proof {
        assert(d.states@.skip(0) =~= d.states@);
    }
    while i < ns
        invariant
            i <= ns,
            ns == d.states@.len(),
            name@ != "[*]_initial"@,
            name@ != "[*]_final"@,
            name@ != "[H]"@,
            name@ != "[H*]"@,
            decl_type(d.states@, name@) == decl_type(d.states@.skip(i as int), name@),
        decreases ns - i,
    {
        proof {
            assert(d.states@.skip(i as int)[0] == d.states@[i as int]);
            assert(d.states@.skip(i as int).skip(1) =~= d.states@.skip(i + 1));
        }
        let s = &d.states[i];
        if s.name == *name {
            return s.state_type;
        }
        match &s.alias {
            Some(a) => {
                if *a == *name {
                    return s.state_type;
                }
            },
            None => {
            },
        }
        i = i + 1;
    }
    proof {
        assert(d.states@.skip(ns as int) =~= Seq::<State>::empty());
    }
    StateType::Simple
}

/// Emits a composite container and its inner elements, each translated to
/// the container's origin plus half the configured margin as interior
/// padding (below the 30-unit header), under a `{name}_`-prefixed id.
fn emit_composite(
    cfg: &StateLayoutConfig,
    name: &String,
    rect: Rect,
    inner: &Option<Vec<LayoutElement>>,
    out: &mut Vec<LayoutElement>,
)
    requires
        cfg.wf(),
        rect.is_positive(),
        rect.in_range(),
        0 <= rect.x <= 0x8000_0000_0000,
        0 <= rect.y <= S_LIM,
        match *inner {
            Some(v) => all_out_wf(v@),
            None => true,
        },
        all_out_wf(old(out)@),
    ensures
        all_out_wf(final(out)@),
        final(out)@.take(old(out)@.len() as int) == old(out)@,
        final(out)@.len() == old(out)@.len() + 1 + (match *inner {
            Some(v) => v@.len(),
            None => 0nat,
        }),
        final(out)@[old(out)@.len() as int].bounds == rect,
        final(out)@[old(out)@.len() as int].element_type matches ElementType::CompositeState {
            name: n,
            header_height,
        } && n@ == name@ && header_height == 30,
        match *inner {
            Some(v) => forall|ii: int|
                0 <= ii < v@.len() ==> shifted_desc(
                    #[trigger] final(out)@[old(out)@.len() + 1 + ii],
                    v@[ii],
                    name@ + "_"@ + v@[ii].id@,
                    rect.x + cfg.margin / 2,
                    rect.y + 30 + cfg.margin / 2,
                ),
            None => true,
        },
{
    let ghost base = out@.len();
    let mut id = String::from_str("composite_");
    id.append(name.as_str());
    push_wf(
        out,
        LayoutElement {
            id,
            bounds: rect,
            text: None,
            properties: Props::new(),
            element_type: ElementType::CompositeState { name: name.clone(), header_height: 30 },
        },
    );
    let ghost container = out@[base as int];
    let offx = rect.x + cfg.margin / 2;
    let offy = rect.y + 30 + cfg.margin / 2;
    match inner {
        Some(v) => {
            let nv = v.len();
            let mut i: usize = 0;
            while i < nv
                invariant
                    i <= nv,
                    nv == v@.len(),
                    all_out_wf(v@),
                    all_out_wf(out@),
                    out@.len() == base + 1 + i,
                    out@.take(base as int) == old(out)@,
                    out@[base as int] == container,
                    offx == rect.x + cfg.margin / 2,
                    offy == rect.y + 30 + cfg.margin / 2,
                    0 <= offx <= 0x8000_2000_0000,
                    0 <= offy <= 0x8000_2000_0000,
                    cfg.wf(),
                    forall|ii: int|
                        0 <= ii < i ==> shifted_desc(
                            #[trigger] out@[base + 1 + ii],
                            v@[ii],
                            name@ + "_"@ + v@[ii].id@,
                            offx as int,
                            offy as int,
                        ),
                decreases nv - i,
            {
                let ghost pre = out@;
                let el = &v[i];
                let mut cid = String::new();
                cid.append(name.as_str());
                cid.append("_");
                cid.append(el.id.as_str());
                proof {
                    reveal_strlit("_");
                    assert(cid@ =~= name@ + "_"@ + v@[i as int].id@);
                }
                let shifted = shift_element(el, cid, offx, offy);
                push_wf(out, shifted);
                proof {
                    assert(out@.take(base as int) =~= pre.take(base as int));
                    assert forall|ii: int| 0 <= ii < i + 1 implies shifted_desc(
                        #[trigger] out@[base + 1 + ii],
                        v@[ii],
                        name@ + "_"@ + v@[ii].id@,
                        offx as int,
                        offy as int,
                    ) by {
                        if ii < i {
                            assert(out@[base + 1 + ii] == pre[base + 1 + ii]);
                        } else {
                            assert(out@[base + 1 + ii] == shifted);
                        }
                    }
                }
                i = i + 1;
            }
        },
        None => {
            proof {
                assert(out@.take(base as int) =~= old(out)@);
            }
        },
    }
}

/// A translated copy: same size, coordinates shifted by the offset and
/// clamped at the range limit, the new id, and the element kind kept (an
/// edge whose shifted polyline degenerates falls back to a rectangle).
pub open spec fn shifted_desc(
    r: LayoutElement,
    el: LayoutElement,
    new_id: Seq<char>,
    dx: int,
    dy: int,
) -> bool {
    &&& r.id@ == new_id
    &&& r.bounds.x == crate::geom::spec_imin(el.bounds.x + dx, crate::geom::COORD_LIMIT as int)
    &&& r.bounds.y == crate::geom::spec_imin(el.bounds.y + dy, crate::geom::COORD_LIMIT as int)
    &&& r.bounds.width == el.bounds.width
    &&& r.bounds.height == el.bounds.height
    &&& (match el.element_type {
        ElementType::InitialState => r.element_type is InitialState,
        ElementType::FinalState => r.element_type is FinalState,
        ElementType::State { name, .. } => (match r.element_type {
            ElementType::State { name: n2, .. } => n2@ == name@,
            _ => false,
        }),
        ElementType::Edge { .. } => r.element_type is Edge || r.element_type is Rectangle,
        _ => true,
    })
}

/// A copy of the element translated by the offset, under a new id.
/// Coordinates clamp at the range limit; an edge whose shifted polyline
/// degenerates falls back to its bounds rectangle.
fn shift_element(el: &LayoutElement, new_id: String, dx: i64, dy: i64) -> (r: LayoutElement)
    requires
        out_el_wf(*el),
        0 <= dx <= 0x8000_2000_0000,
        0 <= dy <= 0x8000_2000_0000,
    ensures
        out_el_wf(r),
        shifted_desc(r, *el, new_id@, dx as int, dy as int),
{
    let bx = clamp_coord(el.bounds.x, dx);
    let by = clamp_coord(el.bounds.y, dy);
    let bounds = Rect::new(bx, by, el.bounds.width, el.bounds.height);
    let etype: ElementType = match &el.element_type {
        ElementType::Edge {
            points,
            label,
            arrow_start,
            arrow_end,
            dashed,
            edge_type,
            from_cardinality,
            to_cardinality,
        } => {
            let np = points.len();
            let mut pts: Vec<Point> = Vec::new();
            let mut i: usize = 0;
            let mut degenerate = false;
            while i < np
                invariant
                    i <= np,
                    np == points@.len(),
                    points_ok(points@),
                    pts@.len() == i,
                    0 <= dx <= 0x8000_2000_0000,
                    0 <= dy <= 0x8000_2000_0000,
                    forall|j: int| 0 <= j < i ==> (#[trigger] pts@[j]).in_range(),
                    !degenerate ==> forall|j: int|
                        0 <= j < i - 1 ==> #[trigger] pts@[j] != pts@[j + 1],
                decreases np - i,
            {
                proof {
                    assert(points@[i as int].in_range());
                }
                let ghost before = pts@;
                let p = Point::new(clamp_coord(points[i].x, dx), clamp_coord(points[i].y, dy));
                if i > 0 {
                    let q = pts[i - 1];
                    if q.x == p.x && q.y == p.y {
                        degenerate = true;
                    }
                }
                pts.push(p);
                proof {
                    assert forall|j: int| 0 <= j < pts@.len() implies (
                    #[trigger] pts@[j]).in_range() by {
                        if j < before.len() {
                            assert(pts@[j] == before[j]);
                        }
                    }
                }
                i = i + 1;
            }
            if degenerate || pts.len() < 2 {
                ElementType::Rectangle { label: String::new(), corner_radius: 0 }
            } else {
                let lab: Option<String> = match label {
                    Some(l) => Some(l.clone()),
                    None => None,
                };
                let fc: Option<String> = match from_cardinality {
                    Some(l) => Some(l.clone()),
                    None => None,
                };
                let tc: Option<String> = match to_cardinality {
                    Some(l) => Some(l.clone()),
                    None => None,
                };
                ElementType::Edge {
                    points: pts,
                    label: lab,
                    arrow_start: *arrow_start,
                    arrow_end: *arrow_end,
                    dashed: *dashed,
                    edge_type: *edge_type,
                    from_cardinality: fc,
                    to_cardinality: tc,
                }
            }
        },
        ElementType::State { name, description } => {
            let desc: Option<String> = match description {
                Some(l) => Some(l.clone()),
                None => None,
            };
            ElementType::State { name: name.clone(), description: desc }
        },
        ElementType::InitialState => ElementType::InitialState,
        ElementType::FinalState => ElementType::FinalState,
        ElementType::Ellipse { label } => {
            let lab: Option<String> = match label {
                Some(l) => Some(l.clone()),
                None => None,
            };
            ElementType::Ellipse { label: lab }
        },
        ElementType::Text { text, font_size } => ElementType::Text {
            text: text.clone(),
            font_size: *font_size,
        },
        _ => ElementType::Rectangle { label: String::new(), corner_radius: 0 },
    };
    LayoutElement { id: new_id, bounds, text: None, properties: Props::new(), element_type: etype }
}

/// Adds an offset to a coordinate, clamping at the coordinate range.
fn clamp_coord(x: i64, d: i64) -> (r: i64)
    requires
        -crate::geom::COORD_LIMIT <= x <= crate::geom::COORD_LIMIT,
        0 <= d <= 0x8000_2000_0000,
    ensures
        -crate::geom::COORD_LIMIT <= r <= crate::geom::COORD_LIMIT,
        r == crate::geom::spec_imin(x + d, crate::geom::COORD_LIMIT as int),
{
    if x >= crate::geom::COORD_LIMIT - d {
        crate::geom::COORD_LIMIT
    } else {
        x + d
    }
}


/// Whether a transition routes backward (upward past half a level).
pub open spec fn trans_backward(cfg: StateLayoutConfig, a: Rect, b: Rect) -> bool {
    b.y + b.height / 2 < a.y + a.height / 2 - cfg.vertical_spacing / 2
}

/// A degenerate route: its points would coincide, so no edge is drawn.
pub open spec fn trans_degenerate(cfg: StateLayoutConfig, a: Rect, b: Rect, bi: int) -> bool {
    let a_cx = a.x + a.width / 2;
    let b_cx = b.x + b.width / 2;
    let a_cy = a.y + a.height / 2;
    let b_cy = b.y + b.height / 2;
    if trans_backward(cfg, a, b) {
        let right_x = crate::geom::spec_imax(a.x + a.width, b.x + b.width) + 20 + 20 * bi;
        a.x + a.width == right_x || b.x + b.width == right_x || a_cy == b_cy
    } else if b_cy > a_cy {
        a_cx == b_cx && a.y + a.height == b.y
    } else {
        a_cx == b_cx && a.y == b.y + b.height
    }
}

/// The smallest x among a polyline's points.
pub open spec fn pts_min_x(pts: Seq<Point>) -> int
    decreases pts,
{
    if pts.len() <= 1 {
        if pts.len() == 0 {
            0
        } else {
            pts[0].x as int
        }
    } else {
        crate::geom::spec_imin(pts[0].x as int, pts_min_x(pts.skip(1)))
    }
}

pub open spec fn pts_max_x(pts: Seq<Point>) -> int
    decreases pts,
{
    if pts.len() <= 1 {
        if pts.len() == 0 {
            0
        } else {
            pts[0].x as int
        }
    } else {
        crate::geom::spec_imax(pts[0].x as int, pts_max_x(pts.skip(1)))
    }
}

pub open spec fn pts_min_y(pts: Seq<Point>) -> int
    decreases pts,
{
    if pts.len() <= 1 {
        if pts.len() == 0 {
            0
        } else {
            pts[0].y as int
        }
    } else {
        crate::geom::spec_imin(pts[0].y as int, pts_min_y(pts.skip(1)))
    }
}

pub open spec fn pts_max_y(pts: Seq<Point>) -> int
    decreases pts,
{
    if pts.len() <= 1 {
        if pts.len() == 0 {
            0
        } else {
            pts[0].y as int
        }
    } else {
        crate::geom::spec_imax(pts[0].y as int, pts_max_y(pts.skip(1)))
    }
}

/// An edge's bounds: the min/max box of its polyline points, each dimension
/// clamped to a minimum of 1.
pub open spec fn poly_bounds(el: LayoutElement) -> bool {
    match el.element_type {
        ElementType::Edge { points, .. } => el.bounds == (Rect {
            x: pts_min_x(points@) as i64,
            y: pts_min_y(points@) as i64,
            width: crate::geom::spec_imax(pts_max_x(points@) - pts_min_x(points@), 1) as i64,
            height: crate::geom::spec_imax(pts_max_y(points@) - pts_min_y(points@), 1) as i64,
        }),
        _ => true,
    }
}

/// What a top-level transition edge looks like: a four-point loop around the
/// right for backward routes, a two-point segment otherwise, with an arrow
/// head and the transition's label.
pub open spec fn trans_edge_desc(
    el: LayoutElement,
    cfg: StateLayoutConfig,
    a: Rect,
    b: Rect,
    label: Option<Seq<char>>,
    bi: int,
) -> bool {
    let a_cx = a.x + a.width / 2;
    let b_cx = b.x + b.width / 2;
    let a_cy = a.y + a.height / 2;
    let b_cy = b.y + b.height / 2;
    match el.element_type {
        ElementType::Edge { points, label: lab, arrow_start, arrow_end, dashed, .. } => {
            &&& arrow_end
            &&& !arrow_start
            &&& !dashed
            &&& (match lab {
                Some(l) => label == Some(l@),
                None => label is None,
            })
            &&& poly_bounds(el)
            &&& if trans_backward(cfg, a, b) {
                points@ =~= seq![
                    Point { x: (a.x + a.width) as i64, y: a_cy as i64 },
                    Point {
                        x: (crate::geom::spec_imax(a.x + a.width, b.x + b.width) + 20 + 20 * bi) as i64,
                        y: a_cy as i64,
                    },
                    Point {
                        x: (crate::geom::spec_imax(a.x + a.width, b.x + b.width) + 20 + 20 * bi) as i64,
                        y: b_cy as i64,
                    },
                    Point { x: (b.x + b.width) as i64, y: b_cy as i64 },
                ]
            } else if b_cy > a_cy {
                points@ =~= seq![
                    Point { x: a_cx as i64, y: (a.y + a.height) as i64 },
                    Point { x: b_cx as i64, y: b.y },
                ]
            } else {
                points@ =~= seq![
                    Point { x: a_cx as i64, y: a.y },
                    Point { x: b_cx as i64, y: (b.y + b.height) as i64 },
                ]
            }
        },
        _ => false,
    }
}


/// Min/max folds of a two-point polyline.
proof fn lemma_pts2(p0: Point, p1: Point)
    ensures
        pts_min_x(seq![p0, p1]) == crate::geom::spec_imin(p0.x as int, p1.x as int),
        pts_max_x(seq![p0, p1]) == crate::geom::spec_imax(p0.x as int, p1.x as int),
        pts_min_y(seq![p0, p1]) == crate::geom::spec_imin(p0.y as int, p1.y as int),
        pts_max_y(seq![p0, p1]) == crate::geom::spec_imax(p0.y as int, p1.y as int),
{
    let s = seq![p0, p1];
    assert(s.skip(1) =~= seq![p1]);
    assert(pts_min_x(seq![p1]) == p1.x as int);
    assert(pts_min_x(seq![p0, p1]) == crate::geom::spec_imin(p0.x as int, pts_min_x(seq![p1])));
    assert(pts_max_x(seq![p1]) == p1.x as int);
    assert(pts_max_x(seq![p0, p1]) == crate::geom::spec_imax(p0.x as int, pts_max_x(seq![p1])));
    assert(pts_min_y(seq![p1]) == p1.y as int);
    assert(pts_min_y(seq![p0, p1]) == crate::geom::spec_imin(p0.y as int, pts_min_y(seq![p1])));
    assert(pts_max_y(seq![p1]) == p1.y as int);
    assert(pts_max_y(seq![p0, p1]) == crate::geom::spec_imax(p0.y as int, pts_max_y(seq![p1])));
}

/// Min/max folds of a four-point polyline.
proof fn lemma_pts4(p0: Point, p1: Point, p2: Point, p3: Point)
    ensures
        pts_min_x(seq![p0, p1, p2, p3]) == crate::geom::spec_imin(
            p0.x as int,
            crate::geom::spec_imin(
                p1.x as int,
                crate::geom::spec_imin(p2.x as int, p3.x as int),
            ),
        ),
        pts_max_x(seq![p0, p1, p2, p3]) == crate::geom::spec_imax(
            p0.x as int,
            crate::geom::spec_imax(
                p1.x as int,
                crate::geom::spec_imax(p2.x as int, p3.x as int),
            ),
        ),
        pts_min_y(seq![p0, p1, p2, p3]) == crate::geom::spec_imin(
            p0.y as int,
            crate::geom::spec_imin(
                p1.y as int,
                crate::geom::spec_imin(p2.y as int, p3.y as int),
            ),
        ),
        pts_max_y(seq![p0, p1, p2, p3]) == crate::geom::spec_imax(
            p0.y as int,
            crate::geom::spec_imax(
                p1.y as int,
                crate::geom::spec_imax(p2.y as int, p3.y as int),
            ),
        ),
{
    let s = seq![p0, p1, p2, p3];
    assert(s.skip(1) =~= seq![p1, p2, p3]);
    assert(seq![p1, p2, p3].skip(1) =~= seq![p2, p3]);
    assert(seq![p2, p3].skip(1) =~= seq![p3]);
    assert(pts_min_x(seq![p3]) == p3.x as int);
    assert(pts_min_x(seq![p2, p3]) == crate::geom::spec_imin(p2.x as int, pts_min_x(seq![p3])));
    assert(pts_min_x(seq![p1, p2, p3]) == crate::geom::spec_imin(p1.x as int, pts_min_x(seq![p2, p3])));
    assert(pts_min_x(seq![p0, p1, p2, p3]) == crate::geom::spec_imin(p0.x as int, pts_min_x(seq![p1, p2, p3])));
    assert(pts_max_x(seq![p3]) == p3.x as int);
    assert(pts_max_x(seq![p2, p3]) == crate::geom::spec_imax(p2.x as int, pts_max_x(seq![p3])));
    assert(pts_max_x(seq![p1, p2, p3]) == crate::geom::spec_imax(p1.x as int, pts_max_x(seq![p2, p3])));
    assert(pts_max_x(seq![p0, p1, p2, p3]) == crate::geom::spec_imax(p0.x as int, pts_max_x(seq![p1, p2, p3])));
    assert(pts_min_y(seq![p3]) == p3.y as int);
    assert(pts_min_y(seq![p2, p3]) == crate::geom::spec_imin(p2.y as int, pts_min_y(seq![p3])));
    assert(pts_min_y(seq![p1, p2, p3]) == crate::geom::spec_imin(p1.y as int, pts_min_y(seq![p2, p3])));
    assert(pts_min_y(seq![p0, p1, p2, p3]) == crate::geom::spec_imin(p0.y as int, pts_min_y(seq![p1, p2, p3])));
    assert(pts_max_y(seq![p3]) == p3.y as int);
    assert(pts_max_y(seq![p2, p3]) == crate::geom::spec_imax(p2.y as int, pts_max_y(seq![p3])));
    assert(pts_max_y(seq![p1, p2, p3]) == crate::geom::spec_imax(p1.y as int, pts_max_y(seq![p2, p3])));
    assert(pts_max_y(seq![p0, p1, p2, p3]) == crate::geom::spec_imax(p0.y as int, pts_max_y(seq![p1, p2, p3])));
}

/// Emits one transition edge between two placed rectangles. Backward arrows
/// loop around on the right with a per-arrow offset. A degenerate route is
/// dropped.
fn emit_transition(
    cfg: &StateLayoutConfig,
    a: Rect,
    b: Rect,
    label: Option<String>,
    backward_index: i64,
    counter: &mut u64,
    out: &mut Vec<LayoutElement>,
)
    requires
        cfg.wf(),
        a.is_positive(),
        b.is_positive(),
        0 <= a.x <= 0x8000_0000_0000,
        0 <= a.y <= S_LIM,
        0 < a.width <= S_LIM,
        0 < a.height <= S_LIM,
        0 <= b.x <= 0x8000_0000_0000,
        0 <= b.y <= S_LIM,
        0 < b.width <= S_LIM,
        0 < b.height <= S_LIM,
        0 <= backward_index <= 2 * MAX_ITEMS as i64 + 2,
        all_out_wf(old(out)@),
    ensures
        all_out_wf(final(out)@),
        final(out)@.take(old(out)@.len() as int) == old(out)@,
        final(out)@.len() == old(out)@.len() + if trans_degenerate(
            *cfg,
            a,
            b,
            backward_index as int,
        ) {
            0int
        } else {
            1int
        },
        !trans_degenerate(*cfg, a, b, backward_index as int) ==> trans_edge_desc(
            final(out)@.last(),
            *cfg,
            a,
            b,
            match label {
                Some(l) => Some(l@),
                None => None,
            },
            backward_index as int,
        ),
{
    let ghost base = out@.len();
    let a_cx = a.x + a.width / 2;
    let b_cx = b.x + b.width / 2;
    let a_cy = a.y + a.height / 2;
    let b_cy = b.y + b.height / 2;
    let is_backward = b_cy < a_cy - cfg.vertical_spacing / 2;
    let id = ordinal_trans_id(counter);
    if is_backward {
        let right_x = imax(a.x + a.width, b.x + b.width) + 20 + 20 * backward_index;
        if a.x + a.width == right_x || b.x + b.width == right_x || a_cy == b_cy {
            proof {
                assert(final(out)@.take(base as int) =~= old(out)@);
            }
            return ;
        }
        let mut points: Vec<Point> = Vec::new();
        points.push(Point::new(a.x + a.width, a_cy));
        points.push(Point::new(right_x, a_cy));
        points.push(Point::new(right_x, b_cy));
        points.push(Point::new(b.x + b.width, b_cy));
        let ghost gpts = points@;
        let min_x = imin(a.x + a.width, b.x + b.width);
        let min_y = imin(a_cy, b_cy);
        let max_y = imax(a_cy, b_cy);
        push_wf(
            out,
            LayoutElement {
                id,
                bounds: Rect::new(min_x, min_y, imax(right_x - min_x, 1), imax(max_y - min_y, 1)),
                text: None,
                properties: Props::new(),
                element_type: ElementType::Edge {
                    points,
                    label,
                    arrow_start: false,
                    arrow_end: true,
                    dashed: false,
                    edge_type: EdgeType::Association,
                    from_cardinality: None,
                    to_cardinality: None,
                },
            },
        );
        proof {
            assert(gpts =~= seq![
                Point { x: (a.x + a.width) as i64, y: a_cy },
                Point { x: right_x, y: a_cy },
                Point { x: right_x, y: b_cy },
                Point { x: (b.x + b.width) as i64, y: b_cy },
            ]);
            lemma_pts4(
                Point { x: (a.x + a.width) as i64, y: a_cy },
                Point { x: right_x, y: a_cy },
                Point { x: right_x, y: b_cy },
                Point { x: (b.x + b.width) as i64, y: b_cy },
            );
            assert(poly_bounds(final(out)@.last()));
            assert(final(out)@.take(base as int) =~= old(out)@);
        }
    } else {
        let p0: Point;
        let p1: Point;
        if b_cy > a_cy {
            p0 = Point::new(a_cx, a.y + a.height);
            p1 = Point::new(b_cx, b.y);
        } else {
            p0 = Point::new(a_cx, a.y);
            p1 = Point::new(b_cx, b.y + b.height);
        }
        if p0.x == p1.x && p0.y == p1.y {
            proof {
                assert(final(out)@.take(base as int) =~= old(out)@);
            }
            return ;
        }
        let mut points: Vec<Point> = Vec::new();
        points.push(p0);
        points.push(p1);
        let ghost gpts = points@;
        let min_x = imin(p0.x, p1.x);
        let min_y = imin(p0.y, p1.y);
        push_wf(
            out,
            LayoutElement {
                id,
                bounds: Rect::new(
                    min_x,
                    min_y,
                    imax(imax(p0.x, p1.x) - min_x, 1),
                    imax(imax(p0.y, p1.y) - min_y, 1),
                ),
                text: None,
                properties: Props::new(),
                element_type: ElementType::Edge {
                    points,
                    label,
                    arrow_start: false,
                    arrow_end: true,
                    dashed: false,
                    edge_type: EdgeType::Association,
                    from_cardinality: None,
                    to_cardinality: None,
                },
            },
        );
        proof {
            assert(gpts =~= seq![p0, p1]);
            lemma_pts2(p0, p1);
            assert(poly_bounds(final(out)@.last()));
            assert(final(out)@.take(base as int) =~= old(out)@);
        }
    }
}

/// A fresh transition id./// A fresh transition id.
fn ordinal_trans_id(counter: &mut u64) -> (r: String)
{
    let mut s = String::from_str("trans_");
    let digits = u64_to_dec(*counter);
    s.append(digits.as_str());
    if *counter < 0xffff_ffff_ffff_ffff {
        *counter = *counter + 1;
    }
    s
}

/// Lays out the content of one composite state: its substates and internal
/// transition endpoints on a small grid, with internal transition edges.
/// Returns the inner elements (at origin) and the content size.
fn layout_composite_content(cfg: &StateLayoutConfig, s: &State) -> (r: (
    Vec<LayoutElement>,
    i64,
    i64,
))
    requires
        cfg.wf(),
        state_wf(*s),
    ensures
        all_out_wf(r.0@),
        0 < r.1 <= S_LIM,
        0 < r.2 <= S_LIM,
        inner_has_initial_spec(*s) ==> exists|i: int|
            0 <= i < r.0@.len() && (#[trigger] r.0@[i]).element_type is InitialState,
        inner_has_final_spec(*s) ==> exists|i: int|
            0 <= i < r.0@.len() && (#[trigger] r.0@[i]).element_type is FinalState,
        inner_names(*s).len() <= r.0@.len() <= inner_names(*s).len()
            + s.internal_transitions@.len(),
        forall|i: int|
            0 <= i < inner_names(*s).len() ==> !((#[trigger] r.0@[i]).element_type is Edge),
        forall|i: int|
            inner_names(*s).len() <= i < r.0@.len() ==> (#[trigger] r.0@[i]).element_type
                is Edge,
        forall|i: int|
            0 <= i < r.0@.len() ==> {
                let bb = (#[trigger] r.0@[i]).bounds;
                &&& 0 <= bb.x
                &&& 0 <= bb.y
                &&& (bb.x + bb.width <= r.1 || r.1 == S_LIM)
                &&& (bb.y + bb.height <= r.2 || r.2 == S_LIM)
            },
{
    let mut inner = NameIndex::new();
    let mut has_initial = false;
    let mut has_final = false;
    let nt = s.internal_transitions.len();
    let mut i: usize = 0;
    while i < nt
        invariant
            i <= nt,
            nt == s.internal_transitions@.len(),
            state_wf(*s),
            has_initial == exists|j: int|
                0 <= j < i && (#[trigger] s.internal_transitions@[j]).from@ == "[*]"@,
            has_final == exists|j: int|
                0 <= j < i && (#[trigger] s.internal_transitions@[j]).to@ == "[*]"@,
        decreases nt - i,
    {
        if is_star(s.internal_transitions[i].from.as_str()) {
            has_initial = true;
        }
        if is_star(s.internal_transitions[i].to.as_str()) {
            has_final = true;
        }
        i = i + 1;
    }
    proof {
        assert(has_initial == inner_has_initial_spec(*s));
        assert(has_final == inner_has_final_spec(*s));
    }
    if has_initial {
        let _ = inner.get_or_insert("[*]_initial");
    }
    let ghost a0 = inner.names();
    proof {
        assert(a0 =~= if inner_has_initial_spec(*s) {
            seq!["[*]_initial"@]
        } else {
            Seq::<Seq<char>>::empty()
        });
    }
    let nsub = s.substates.len();
    let mut j: usize = 0;
    while j < nsub
        invariant
            j <= nsub,
            nsub == s.substates@.len(),
            nsub <= MAX_ITEMS,
            inner.wf(),
            inner.names().len() <= 1 + j,
            state_wf(*s),
            has_initial ==> 0 < inner.names().len() && inner.names()[0] == "[*]_initial"@,
            inner.names() == inner_subst_names(a0, s.substates@.take(j as int)),
        decreases nsub - j,
    {
        proof {
            lemma_states_wf_index(s.substates@);
            assert(s.substates@.take(j + 1).drop_last() =~= s.substates@.take(j as int));
            assert(s.substates@.take(j + 1).last() == s.substates@[j as int]);
            lemma_subst_snoc(a0, s.substates@.take(j + 1));
        }
        if !is_star(s.substates[j].name.as_str()) {
            let _ = inner.get_or_insert(s.substates[j].name.as_str());
        }
        j = j + 1;
    }
    let ghost a1 = inner.names();
    proof {
        assert(s.substates@.take(nsub as int) =~= s.substates@);
        assert(a1 == inner_subst_names(a0, s.substates@));
    }
    i = 0;
    while i < nt
        invariant
            i <= nt,
            nt == s.internal_transitions@.len(),
            nt <= MAX_ITEMS,
            inner.wf(),
            inner.names().len() <= 1 + MAX_ITEMS + 2 * i,
            state_wf(*s),
            has_initial ==> 0 < inner.names().len() && inner.names()[0] == "[*]_initial"@,
            inner.names() == inner_trans_names(a1, s.internal_transitions@.take(i as int)),
        decreases nt - i,
    {
        proof {
            assert(transition_wf(s.internal_transitions@[i as int]));
            assert(s.internal_transitions@.take(i + 1).drop_last() =~= s.internal_transitions@.take(
                i as int,
            ));
            assert(s.internal_transitions@.take(i + 1).last() == s.internal_transitions@[i as int]);
            lemma_trans_snoc(a1, s.internal_transitions@.take(i + 1));
        }
        let t = &s.internal_transitions[i];
        if !is_star(t.from.as_str()) {
            let _ = inner.get_or_insert(t.from.as_str());
        }
        if !is_star(t.to.as_str()) {
            let _ = inner.get_or_insert(t.to.as_str());
        }
        i = i + 1;
    }
    let ghost a2 = inner.names();
    proof {
        assert(s.internal_transitions@.take(nt as int) =~= s.internal_transitions@);
        assert(a2 == inner_trans_names(a1, s.internal_transitions@));
    }
    let final_slot: usize;
    if has_final {
        final_slot = inner.get_or_insert("[*]_final");
    } else {
        final_slot = 0;
    }
    let n = inner.len();
    proof {
        assert(has_initial == inner_has_initial_spec(*s));
        assert(has_final == inner_has_final_spec(*s));
        assert(has_initial ==> 0 < n && inner.names()[0] == "[*]_initial"@);
        assert(has_final ==> final_slot < n && inner.names()[final_slot as int] == "[*]_final"@);
        assert(inner.names() == inner_names(*s));
        assert(n == inner_names(*s).len());
    }
    let mut strans: Vec<SlotTransition> = Vec::new();
    i = 0;
    while i < nt
        invariant
            i <= nt,
            nt == s.internal_transitions@.len(),
            inner.wf(),
            n == inner.names().len(),
            state_wf(*s),
            forall|q: int| 0 <= q < strans@.len() ==> slot_trans_ok(#[trigger] strans@[q], n as int),
            strans@.len() <= i,
        decreases nt - i,
    {
        proof {
            assert(transition_wf(s.internal_transitions@[i as int]));
        }
        let t = &s.internal_transitions[i];
        let from_slot: Option<usize> = if is_star(t.from.as_str()) {
            if has_initial {
                inner.lookup("[*]_initial")
            } else {
                None
            }
        } else {
            inner.lookup(t.from.as_str())
        };
        let to_slot: Option<usize> = if is_star(t.to.as_str()) {
            if has_final {
                inner.lookup("[*]_final")
            } else {
                None
            }
        } else {
            inner.lookup(t.to.as_str())
        };
        match (from_slot, to_slot) {
            (Some(a), Some(b)) => {
                let lab = t.label();
                let lab_opt: Option<String> = if lab.as_str().unicode_len() == 0 {
                    None
                } else {
                    Some(lab)
                };
                strans.push(SlotTransition { from: a, to: b, label: lab_opt });
            },
            _ => {
            },
        }
        i = i + 1;
    }
    proof {
        if has_initial && has_final && n > 0 {
            reveal_strlit("[*]_initial");
            reveal_strlit("[*]_final");
            assert("[*]_initial"@ != "[*]_final"@) by {
                assert("[*]_initial"@[4] == 'i');
                assert("[*]_final"@[4] == 'f');
            }
            assert(final_slot != 0);
        }
    }
    let levels = assign_levels(n, &strans, has_initial, has_final, final_slot);
    let iw: i64 = 90;
    let ih: i64 = 35;
    let sv: i64 = 40;
    let sh: i64 = 30;
    let max_level = max_of(&levels);
    let mut out: Vec<LayoutElement> = Vec::new();
    let mut positions: Vec<Option<Rect>> = Vec::new();
    let mut k: usize = 0;
    while k < n
        invariant
            k <= n,
            positions@.len() == k,
            forall|j: int| 0 <= j < k ==> (#[trigger] positions@[j]) is None,
        decreases n - k,
    {
        positions.push(None);
        k = k + 1;
    }
    let mut max_x: i64 = iw + 30;
    let mut max_y: i64 = ih + 30;
    let mut lv: i64 = 0;
    proof {
        lemma_count_lt_none(levels@, 0, n as int);
    }
    while lv <= max_level
        invariant
            0 <= lv <= max_level + 1,
            max_level <= MAX_ITEMS as i64 + 1,
            n == inner.names().len(),
            n == levels@.len(),
            n == positions@.len(),
            inner.wf(),
            cfg.wf(),
            all_out_wf(out@),
            15 <= max_x <= S_LIM,
            15 <= max_y <= S_LIM,
            forall|q: int|
                0 <= q < n ==> match #[trigger] positions@[q] {
                    Some(rc) => rc.is_positive() && rc.in_range() && 0 <= rc.x <= S_LIM && 0
                        <= rc.y <= S_LIM && rc.width <= S_LIM && rc.height <= S_LIM,
                    None => true,
                },
            iw == 90,
            ih == 35,
            sv == 40,
            sh == 30,
            forall|j2: int| 0 <= j2 < n ==> 0 <= #[trigger] levels@[j2] <= max_level,
            has_initial ==> 0 < n && inner.names()[0] == "[*]_initial"@,
            has_final ==> final_slot < n && inner.names()[final_slot as int] == "[*]_final"@,
            has_initial && levels@[0] < lv ==> exists|i2: int|
                0 <= i2 < out@.len() && (#[trigger] out@[i2]).element_type is InitialState,
            has_final && levels@[final_slot as int] < lv ==> exists|i2: int|
                0 <= i2 < out@.len() && (#[trigger] out@[i2]).element_type is FinalState,
            out@.len() == count_lt_pre(levels@, lv as int, n as int),
            forall|i2: int| 0 <= i2 < out@.len() ==> !((#[trigger] out@[i2]).element_type is Edge),
            forall|i2: int|
                0 <= i2 < out@.len() ==> {
                    let bb = (#[trigger] out@[i2]).bounds;
                    &&& 0 <= bb.x
                    &&& 0 <= bb.y
                    &&& (bb.x + bb.width <= max_x || max_x == S_LIM)
                    &&& (bb.y + bb.height <= max_y || max_y == S_LIM)
                },
        decreases max_level - lv + 1,
    {
        proof {
            assert(0 <= crate::geom::spec_imin(lv as int, 70000) * 75 <= 5250000) by (nonlinear_arith)
                requires
                    0 <= crate::geom::spec_imin(lv as int, 70000) <= 70000,
            ;
        }
        let y: i64 = 15 + imin(lv, 70000) * (ih + sv);
        let mut x: i64 = 15;
        let mut q: usize = 0;
        while q < n
            invariant
                q <= n,
                n == inner.names().len(),
                n == levels@.len(),
                n == positions@.len(),
                inner.wf(),
                cfg.wf(),
                all_out_wf(out@),
                15 <= x <= S_LIM,
                15 <= y <= S_LIM,
                15 <= max_x <= S_LIM,
                15 <= max_y <= S_LIM,
                iw == 90,
                ih == 35,
                sv == 40,
                sh == 30,
                forall|t2: int|
                    0 <= t2 < n ==> match #[trigger] positions@[t2] {
                        Some(rc) => rc.is_positive() && rc.in_range() && 0 <= rc.x <= S_LIM && 0
                            <= rc.y <= S_LIM && rc.width <= S_LIM && rc.height <= S_LIM,
                        None => true,
                    },
                has_initial ==> 0 < n && inner.names()[0] == "[*]_initial"@,
                has_final ==> final_slot < n && inner.names()[final_slot as int] == "[*]_final"@,
                has_initial && (levels@[0] < lv || (levels@[0] == lv && 0 < q)) ==> exists|
                    i2: int,
                |
                    0 <= i2 < out@.len() && (#[trigger] out@[i2]).element_type is InitialState,
                has_final && (levels@[final_slot as int] < lv || (levels@[final_slot as int] == lv
                    && final_slot < q)) ==> exists|i2: int|
                    0 <= i2 < out@.len() && (#[trigger] out@[i2]).element_type is FinalState,
                out@.len() == count_lt_pre(levels@, lv as int, n as int) + count_eq_pre(
                    levels@,
                    lv as int,
                    q as int,
                ),
                forall|i2: int|
                    0 <= i2 < out@.len() ==> !((#[trigger] out@[i2]).element_type is Edge),
                forall|i2: int|
                    0 <= i2 < out@.len() ==> {
                        let bb = (#[trigger] out@[i2]).bounds;
                        &&& 0 <= bb.x
                        &&& 0 <= bb.y
                        &&& (bb.x + bb.width <= max_x || max_x == S_LIM)
                        &&& (bb.y + bb.height <= max_y || max_y == S_LIM)
                    },
            decreases n - q,
        {
            if levels[q] == lv {
                let name = inner.name_at(q).clone();
                let rect = Rect::new(x, y, iw, ih);
                positions.set(q, Some(rect));
                let ghost pre = out@;
                let cs = crate::scan::str_chars(name.as_str());
                proof {
                    assert(cs@.subrange(0, cs@.len() as int) =~= cs@);
                }
                if crate::scan::range_is(&cs, 0, cs.len(), "[*]_initial") {
                    let mut id = String::from_str("inner_initial_");
                    let digits = u64_to_dec(q as u64);
                    id.append(digits.as_str());
                    push_wf(
                        &mut out,
                        LayoutElement {
                            id,
                            bounds: Rect::new(x, y, 16, 16),
                            text: None,
                            properties: Props::new(),
                            element_type: ElementType::InitialState,
                        },
                    );
                } else if crate::scan::range_is(&cs, 0, cs.len(), "[*]_final") {
                    let mut id = String::from_str("inner_final_");
                    let digits = u64_to_dec(q as u64);
                    id.append(digits.as_str());
                    push_wf(
                        &mut out,
                        LayoutElement {
                            id,
                            bounds: Rect::new(x, y, 16, 16),
                            text: None,
                            properties: Props::new(),
                            element_type: ElementType::FinalState,
                        },
                    );
                } else {
                    let mut id = String::from_str("inner_state_");
                    id.append(name.as_str());
                    push_wf(
                        &mut out,
                        LayoutElement {
                            id,
                            bounds: rect,
                            text: None,
                            properties: Props::new(),
                            element_type: ElementType::State {
                                name: name.clone(),
                                description: None,
                            },
                        },
                    );
                }
                proof {
                    assert forall|i2: int| 0 <= i2 < pre.len() implies out@[i2] == pre[i2] by {
                        assert(out@ == pre.push(out@.last()));
                    }
                    if has_initial && q == 0 {
                        assert(out@[out@.len() - 1].element_type is InitialState);
                    }
                    if has_final && q == final_slot {
                        reveal_strlit("[*]_initial");
                        reveal_strlit("[*]_final");
                        assert("[*]_final"@ != "[*]_initial"@);
                        assert(out@[out@.len() - 1].element_type is FinalState);
                    }
                }
                let ghost mx0 = max_x;
                let ghost my0 = max_y;
                max_x = imin(imax(max_x, x + iw + 15), S_LIM);
                max_y = imin(imax(max_y, y + ih + 15), S_LIM);
                proof {
                    assert(max_x >= mx0 && max_y >= my0);
                    assert(mx0 == S_LIM ==> max_x == S_LIM);
                    assert(my0 == S_LIM ==> max_y == S_LIM);
                    assert(out@[out@.len() - 1].bounds.x == x && out@[out@.len() - 1].bounds.y
                        == y);
                    assert(out@[out@.len() - 1].bounds.width <= iw && out@[out@.len()
                        - 1].bounds.height <= ih);
                }
                let step = iw + sh;
                x = if x >= S_LIM - step {
                    S_LIM
                } else {
                    x + step
                };
            }
            q = q + 1;
        }
        proof {
            lemma_count_lt_succ(levels@, lv as int, n as int);
        }
        lv = lv + 1;
    }
    proof {
        lemma_count_lt_all(levels@, lv as int, n as int);
        assert(out@.len() == n);
    }
    let ghost nodes_len = out@.len() as int;
    let mut counter: u64 = 0;
    let mut bwd: i64 = 0;
    let mut tti: usize = 0;
    while tti < strans.len()
        invariant
            tti <= strans@.len(),
            n == positions@.len(),
            cfg.wf(),
            0 <= bwd <= MAX_ITEMS as i64,
            all_out_wf(out@),
            has_initial ==> exists|i2: int|
                0 <= i2 < out@.len() && (#[trigger] out@[i2]).element_type is InitialState,
            has_final ==> exists|i2: int|
                0 <= i2 < out@.len() && (#[trigger] out@[i2]).element_type is FinalState,
            nodes_len == n,
            n == inner_names(*s).len(),
            strans@.len() <= s.internal_transitions@.len(),
            0 <= nodes_len <= out@.len() <= nodes_len + tti,
            15 <= max_x <= S_LIM,
            15 <= max_y <= S_LIM,
            forall|i2: int|
                0 <= i2 < out@.len() ==> {
                    let bb = (#[trigger] out@[i2]).bounds;
                    &&& 0 <= bb.x
                    &&& 0 <= bb.y
                    &&& (bb.x + bb.width <= max_x || max_x == S_LIM)
                    &&& (bb.y + bb.height <= max_y || max_y == S_LIM)
                },
            forall|i2: int| 0 <= i2 < nodes_len ==> !((#[trigger] out@[i2]).element_type is Edge),
            forall|i2: int|
                nodes_len <= i2 < out@.len() ==> (#[trigger] out@[i2]).element_type is Edge,
            forall|q: int| 0 <= q < strans@.len() ==> slot_trans_ok(#[trigger] strans@[q], n as int),
            forall|q: int|
                0 <= q < n ==> match #[trigger] positions@[q] {
                    Some(rc) => rc.is_positive() && rc.in_range() && 0 <= rc.x <= S_LIM && 0
                        <= rc.y <= S_LIM && rc.width <= S_LIM && rc.height <= S_LIM,
                    None => true,
                },
        decreases strans@.len() - tti,
    {
        let st = &strans[tti];
        let fr = &positions[st.from];
        let tor = &positions[st.to];
        match (fr, tor) {
            (Some(a), Some(b)) => {
                let is_backward = b.y + b.height / 2 < a.y + a.height / 2 - cfg.vertical_spacing
                    / 2;
                if is_backward && bwd < MAX_ITEMS as i64 {
                    bwd = bwd + 1;
                }
                let lab: Option<String> = match &st.label {
                    Some(l) => Some(l.clone()),
                    None => None,
                };
                let ghost pre = out@;
                let ol = out.len();
                emit_inner_transition(cfg, *a, *b, lab, if is_backward {
                    bwd
                } else {
                    0
                }, &mut counter, &mut out);
                let ghost mx0 = max_x;
                let ghost my0 = max_y;
                if out.len() > ol {
                    proof {
                        crate::seq_engine::lemma_pointwise_out_els_pub(out@);
                        assert(out_el_wf(out@[out@.len() - 1]));
                    }
                    let lastb = out[out.len() - 1].bounds;
                    max_x = imin(imax(max_x, lastb.x + lastb.width + 15), S_LIM);
                    max_y = imin(imax(max_y, lastb.y + lastb.height + 15), S_LIM);
                }
                proof {
                    assert(max_x >= mx0 && max_y >= my0);
                    assert(mx0 == S_LIM ==> max_x == S_LIM);
                    assert(my0 == S_LIM ==> max_y == S_LIM);
                    assert forall|i2: int| 0 <= i2 < pre.len() implies out@[i2] == pre[i2] by {
                        assert(out@.take(pre.len() as int)[i2] == out@[i2]);
                    }
                    assert forall|i2: int|
                        0 <= i2 < out@.len() implies {
                        let bb = (#[trigger] out@[i2]).bounds;
                        &&& 0 <= bb.x
                        &&& 0 <= bb.y
                        &&& (bb.x + bb.width <= max_x || max_x == S_LIM)
                        &&& (bb.y + bb.height <= max_y || max_y == S_LIM)
                    } by {
                        if i2 < pre.len() {
                            assert(out@.take(pre.len() as int)[i2] == out@[i2]);
                            assert(out@[i2] == pre[i2]);
                        } else {
                            assert(i2 == out@.len() - 1);
                        }
                    }
                    if out@.len() > pre.len() {
                        assert(out@[out@.len() - 1].element_type is Edge);
                    }
                    assert forall|i2: int| 0 <= i2 < nodes_len implies !((
                    #[trigger] out@[i2]).element_type is Edge) by {
                        assert(out@[i2] == pre[i2]);
                    }
                    assert forall|i2: int|
                        nodes_len <= i2 < out@.len() implies (#[trigger] out@[i2]).element_type
                        is Edge by {
                        if i2 < pre.len() {
                            assert(out@[i2] == pre[i2]);
                        } else {
                            assert(i2 == out@.len() - 1);
                        }
                    }
                }
            },
            _ => {
            },
        }
        tti = tti + 1;
    }
    (out, max_x, max_y)
}

/// Whether a transition inside a composite routes backward.
pub open spec fn inner_backward(a: Rect, b: Rect) -> bool {
    b.y + b.height / 2 < a.y + a.height / 2 - 20
}

/// A degenerate inner route: its points would coincide, so no edge is drawn.
pub open spec fn inner_degenerate(a: Rect, b: Rect, bi: int) -> bool {
    let a_cx = a.x + a.width / 2;
    let b_cx = b.x + b.width / 2;
    let a_cy = a.y + a.height / 2;
    let b_cy = b.y + b.height / 2;
    if inner_backward(a, b) {
        let right_x = crate::geom::spec_imax(a.x + a.width, b.x + b.width) + 15 + 20 * bi;
        let from_y = a.y + a.height * 3 / 10;
        let to_y = b.y + b.height * 7 / 10;
        a.x + a.width == right_x || b.x + b.width == right_x || from_y == to_y
    } else if b_cy > a_cy + 10 {
        a_cx == b_cx && a.y + a.height == b.y
    } else if b_cx > a_cx {
        a.x + a.width == b.x && a_cy == b_cy
    } else {
        a.x == b.x + b.width && a_cy == b_cy
    }
}

/// What a transition edge inside a composite looks like: a four-point loop
/// around the right for backward routes, a two-point vertical or horizontal
/// segment otherwise, with an arrow head and the transition's label.
pub open spec fn inner_trans_edge_desc(
    el: LayoutElement,
    a: Rect,
    b: Rect,
    label: Option<Seq<char>>,
    bi: int,
) -> bool {
    let a_cx = a.x + a.width / 2;
    let b_cx = b.x + b.width / 2;
    let a_cy = a.y + a.height / 2;
    let b_cy = b.y + b.height / 2;
    match el.element_type {
        ElementType::Edge { points, label: lab, arrow_start, arrow_end, dashed, .. } => {
            &&& arrow_end
            &&& !arrow_start
            &&& !dashed
            &&& (match lab {
                Some(l) => label == Some(l@),
                None => label is None,
            })
            &&& poly_bounds(el)
            &&& if inner_backward(a, b) {
                points@ =~= seq![
                    Point { x: (a.x + a.width) as i64, y: (a.y + a.height * 3 / 10) as i64 },
                    Point {
                        x: (crate::geom::spec_imax(a.x + a.width, b.x + b.width) + 15 + 20 * bi) as i64,
                        y: (a.y + a.height * 3 / 10) as i64,
                    },
                    Point {
                        x: (crate::geom::spec_imax(a.x + a.width, b.x + b.width) + 15 + 20 * bi) as i64,
                        y: (b.y + b.height * 7 / 10) as i64,
                    },
                    Point { x: (b.x + b.width) as i64, y: (b.y + b.height * 7 / 10) as i64 },
                ]
            } else if b_cy > a_cy + 10 {
                points@ =~= seq![
                    Point { x: a_cx as i64, y: (a.y + a.height) as i64 },
                    Point { x: b_cx as i64, y: b.y },
                ]
            } else if b_cx > a_cx {
                points@ =~= seq![
                    Point { x: (a.x + a.width) as i64, y: a_cy as i64 },
                    Point { x: b.x, y: b_cy as i64 },
                ]
            } else {
                points@ =~= seq![
                    Point { x: a.x, y: a_cy as i64 },
                    Point { x: (b.x + b.width) as i64, y: b_cy as i64 },
                ]
            }
        },
        _ => false,
    }
}

/// Emits one internal transition edge (ids carry the `inner_trans_` marker).
/// A degenerate route is dropped.
fn emit_inner_transition(
    cfg: &StateLayoutConfig,
    a: Rect,
    b: Rect,
    label: Option<String>,
    backward_index: i64,
    counter: &mut u64,
    out: &mut Vec<LayoutElement>,
)
    requires
        cfg.wf(),
        a.is_positive(),
        0 <= a.x <= S_LIM,
        0 <= a.y <= S_LIM,
        0 < a.width <= S_LIM,
        0 < a.height <= S_LIM,
        b.is_positive(),
        0 <= b.x <= S_LIM,
        0 <= b.y <= S_LIM,
        0 < b.width <= S_LIM,
        0 < b.height <= S_LIM,
        0 <= backward_index <= 2 * MAX_ITEMS as i64 + 2,
        all_out_wf(old(out)@),
    ensures
        all_out_wf(final(out)@),
        final(out)@.take(old(out)@.len() as int) == old(out)@,
        final(out)@.len() == old(out)@.len() + if inner_degenerate(a, b, backward_index as int) {
            0int
        } else {
            1int
        },
        !inner_degenerate(a, b, backward_index as int) ==> inner_trans_edge_desc(
            final(out)@.last(),
            a,
            b,
            match label {
                Some(l) => Some(l@),
                None => None,
            },
            backward_index as int,
        ),
        final(out)@.len() > old(out)@.len() ==> ({
            let el = final(out)@.last();
            &&& 0 <= el.bounds.x
            &&& el.bounds.x + el.bounds.width <= crate::geom::spec_imax(
                a.x + a.width,
                b.x + b.width,
            ) + 15 + 20 * backward_index + 1
            &&& 0 <= el.bounds.y
            &&& el.bounds.y + el.bounds.height <= crate::geom::spec_imax(
                a.y + a.height,
                b.y + b.height,
            ) + 1
        }),
{
    let ghost base = out@.len();
    let a_cy = a.y + a.height / 2;
    let b_cy = b.y + b.height / 2;
    let a_cx = a.x + a.width / 2;
    let b_cx = b.x + b.width / 2;
    let mut id = String::from_str("inner_trans_");
    let digits = u64_to_dec(*counter);
    id.append(digits.as_str());
    if *counter < 0xffff_ffff_ffff_ffff {
        *counter = *counter + 1;
    }
    if b_cy < a_cy - 20 {
        let right_x = imax(a.x + a.width, b.x + b.width) + 15 + 20 * backward_index;
        let from_y = a.y + a.height * 3 / 10;
        let to_y = b.y + b.height * 7 / 10;
        if a.x + a.width == right_x || b.x + b.width == right_x || from_y == to_y {
            proof {
                assert(final(out)@.take(base as int) =~= old(out)@);
            }
            return ;
        }
        let mut points: Vec<Point> = Vec::new();
        points.push(Point::new(a.x + a.width, from_y));
        points.push(Point::new(right_x, from_y));
        points.push(Point::new(right_x, to_y));
        points.push(Point::new(b.x + b.width, to_y));
        let ghost gpts = points@;
        let min_x = imin(a.x + a.width, b.x + b.width);
        let min_y = imin(from_y, to_y);
        let max_y = imax(from_y, to_y);
        push_wf(
            out,
            LayoutElement {
                id,
                bounds: Rect::new(min_x, min_y, imax(right_x - min_x, 1), imax(max_y - min_y, 1)),
                text: None,
                properties: Props::new(),
                element_type: ElementType::Edge {
                    points,
                    label,
                    arrow_start: false,
                    arrow_end: true,
                    dashed: false,
                    edge_type: EdgeType::Association,
                    from_cardinality: None,
                    to_cardinality: None,
                },
            },
        );
        proof {
            assert(gpts =~= seq![
                Point { x: (a.x + a.width) as i64, y: from_y },
                Point { x: right_x, y: from_y },
                Point { x: right_x, y: to_y },
                Point { x: (b.x + b.width) as i64, y: to_y },
            ]);
            lemma_pts4(
                Point { x: (a.x + a.width) as i64, y: from_y },
                Point { x: right_x, y: from_y },
                Point { x: right_x, y: to_y },
                Point { x: (b.x + b.width) as i64, y: to_y },
            );
            assert(poly_bounds(final(out)@.last()));
            assert(final(out)@.take(base as int) =~= old(out)@);
        }
    } else {
        let p0: Point;
        let p1: Point;
        if b_cy > a_cy + 10 {
            p0 = Point::new(a_cx, a.y + a.height);
            p1 = Point::new(b_cx, b.y);
        } else if b_cx > a_cx {
            p0 = Point::new(a.x + a.width, a_cy);
            p1 = Point::new(b.x, b_cy);
        } else {
            p0 = Point::new(a.x, a_cy);
            p1 = Point::new(b.x + b.width, b_cy);
        }
        if p0.x == p1.x && p0.y == p1.y {
            proof {
                assert(final(out)@.take(base as int) =~= old(out)@);
            }
            return ;
        }
        let mut points: Vec<Point> = Vec::new();
        points.push(p0);
        points.push(p1);
        let ghost gpts = points@;
        let min_x = imin(p0.x, p1.x);
        let min_y = imin(p0.y, p1.y);
        push_wf(
            out,
            LayoutElement {
                id,
                bounds: Rect::new(
                    min_x,
                    min_y,
                    imax(imax(p0.x, p1.x) - min_x, 1),
                    imax(imax(p0.y, p1.y) - min_y, 1),
                ),
                text: None,
                properties: Props::new(),
                element_type: ElementType::Edge {
                    points,
                    label,
                    arrow_start: false,
                    arrow_end: true,
                    dashed: false,
                    edge_type: EdgeType::Association,
                    from_cardinality: None,
                    to_cardinality: None,
                },
            },
        );
        proof {
            assert(gpts =~= seq![p0, p1]);
            lemma_pts2(p0, p1);
            assert(poly_bounds(final(out)@.last()));
            assert(final(out)@.take(base as int) =~= old(out)@);
        }
    }
}

} // verus!
