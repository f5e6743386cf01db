//! Abstract syntax tree for state diagrams: states (possibly composite,
//! holding substates and internal transitions) and transitions.

use vstd::prelude::*;
use crate::ast::Color;
use crate::ast::MAX_ITEMS;
use crate::ast::MAX_TEXT;
use crate::ast::text_wf;
use crate::ast::opt_text_wf;

verus! {

/// The kinds of UML states.
#[derive(Clone, Copy, Debug, PartialEq, Eq, Structural)]
pub enum StateType {
    Simple,
    Composite,
    Initial,
    Final,
    Choice,
    Fork,
    Join,
    History,
    DeepHistory,
}

/// A transition between two named states, with optional annotations.
#[derive(Clone, Debug, PartialEq, Eq)]
pub struct Transition {
    pub from: String,
    pub to: String,
    pub event: Option<String>,
    pub guard: Option<String>,
    pub action: Option<String>,
}

impl Transition {
    pub fn new(from: &str, to: &str) -> (t: Transition)
        ensures
            t.from@ == from@,
            t.to@ == to@,
            t.event is None,
            t.guard is None,
            t.action is None,
    {
        Transition {
            from: from.to_owned(),
            to: to.to_owned(),
            event: None,
            guard: None,
            action: None,
        }
    }

    pub fn with_event(self, event: &str) -> (t: Transition)
        ensures
            t.from@ == self.from@,
            t.to@ == self.to@,
            t.event matches Some(e) && e@ == event@,
            t.guard == self.guard,
            t.action == self.action,
    {
        Transition { event: Some(event.to_owned()), ..self }
    }

    pub fn with_guard(self, guard: &str) -> (t: Transition)
        ensures
            t.from@ == self.from@,
            t.to@ == self.to@,
            t.guard matches Some(g) && g@ == guard@,
            t.event == self.event,
            t.action == self.action,
    {
        Transition { guard: Some(guard.to_owned()), ..self }
    }

    pub fn with_action(self, action: &str) -> (t: Transition)
        ensures
            t.from@ == self.from@,
            t.to@ == self.to@,
            t.action matches Some(a) && a@ == action@,
            t.event == self.event,
            t.guard == self.guard,
    {
        Transition { action: Some(action.to_owned()), ..self }
    }

    /// The display label: `event [guard] / action`, parts present only when
    /// set.
    pub open spec fn label_spec(self) -> Seq<char> {
        let e = match self.event {
            Some(ev) => ev@,
            None => Seq::empty(),
        };
        let g = match self.guard {
            Some(gd) => " ["@ + gd@ + "]"@,
            None => Seq::empty(),
        };
        let a = match self.action {
            Some(ac) => " / "@ + ac@,
            None => Seq::empty(),
        };
        e + g + a
    }

    /// Renders the display label.
    pub fn label(&self) -> (r: String)
        ensures
            r@ == self.label_spec(),
    {
        let mut s = String::new();
        match &self.event {
            Some(ev) => {
                s.append(ev.as_str());
            },
            None => {
            },
        }
        match &self.guard {
            Some(gd) => {
                s.append(" [");
                s.append(gd.as_str());
                s.append("]");
            },
            None => {
            },
        }
        match &self.action {
            Some(ac) => {
                s.append(" / ");
                s.append(ac.as_str());
            },
            None => {
            },
        }
        proof {
            assert(s@ =~= self.label_spec());
        }
        s
    }
}

/// A state: simple, pseudo, or composite with nested content.
#[derive(Debug)]
pub struct State {
    pub name: String,
    pub alias: Option<String>,
    pub state_type: StateType,
    pub substates: Vec<State>,
    pub internal_transitions: Vec<Transition>,
    pub entry_action: Option<String>,
    pub exit_action: Option<String>,
    pub do_action: Option<String>,
    pub color: Option<Color>,
}

impl State {
    /// A simple state with the given name.
    pub fn simple(name: &str) -> (s: State)
        ensures
            s.name@ == name@,
            s.state_type == StateType::Simple,
            s.substates@.len() == 0,
            s.internal_transitions@.len() == 0,
            s.alias is None,
    {
        State {
            name: name.to_owned(),
            alias: None,
            state_type: StateType::Simple,
            substates: Vec::new(),
            internal_transitions: Vec::new(),
            entry_action: None,
            exit_action: None,
            do_action: None,
            color: None,
        }
    }

    /// A composite state with the given name and no content yet.
    pub fn composite(name: &str) -> (s: State)
        ensures
            s.name@ == name@,
            s.state_type == StateType::Composite,
            s.substates@.len() == 0,
            s.internal_transitions@.len() == 0,
            s.alias is None,
    {
        State {
            name: name.to_owned(),
            alias: None,
            state_type: StateType::Composite,
            substates: Vec::new(),
            internal_transitions: Vec::new(),
            entry_action: None,
            exit_action: None,
            do_action: None,
            color: None,
        }
    }
}

/// A parsed state diagram.
#[derive(Debug)]
pub struct StateDiagram {
    pub states: Vec<State>,
    pub transitions: Vec<Transition>,
}

impl StateDiagram {
    pub fn new() -> (d: StateDiagram)
        ensures
            d.states@.len() == 0,
            d.transitions@.len() == 0,
    {
        StateDiagram { states: Vec::new(), transitions: Vec::new() }
    }

    pub fn add_state(&mut self, s: State)
        ensures
            final(self).states@ == old(self).states@.push(s),
            final(self).transitions@ == old(self).transitions@,
    {
        self.states.push(s);
    }

    pub fn add_transition(&mut self, t: Transition)
        ensures
            final(self).transitions@ == old(self).transitions@.push(t),
            final(self).states@ == old(self).states@,
    {
        self.transitions.push(t);
    }
}

pub open spec fn transition_wf(t: Transition) -> bool {
    &&& text_wf(t.from@)
    &&& text_wf(t.to@)
    &&& opt_text_wf(t.event)
    &&& opt_text_wf(t.guard)
    &&& opt_text_wf(t.action)
}

pub open spec fn state_wf(s: State) -> bool
    decreases s,
{
    &&& text_wf(s.name@)
    &&& opt_text_wf(s.alias)
    &&& s.substates@.len() <= MAX_ITEMS
    &&& s.internal_transitions@.len() <= MAX_ITEMS
    &&& states_wf(s.substates@)
    &&& forall|i: int|
        0 <= i < s.internal_transitions@.len() ==> transition_wf(
            #[trigger] s.internal_transitions@[i],
        )
}

pub open spec fn states_wf(ss: Seq<State>) -> bool
    decreases ss,
{
    if ss.len() == 0 {
        true
    } else {
        state_wf(ss[0]) && states_wf(ss.skip(1))
    }
}

/// Machine-limit well-formedness of a whole state diagram.
pub open spec fn state_diagram_wf(d: StateDiagram) -> bool {
    &&& d.states@.len() <= MAX_ITEMS
    &&& d.transitions@.len() <= MAX_ITEMS
    &&& states_wf(d.states@)
    &&& forall|i: int| 0 <= i < d.transitions@.len() ==> transition_wf(#[trigger] d.transitions@[i])
}

pub proof fn lemma_states_wf_index(ss: Seq<State>)
    ensures
        states_wf(ss) ==> forall|i: int| 0 <= i < ss.len() ==> state_wf(#[trigger] ss[i]),
    decreases ss,
{
    if ss.len() > 0 {
        lemma_states_wf_index(ss.skip(1));
        if states_wf(ss) {
            assert forall|i: int| 0 <= i < ss.len() implies state_wf(#[trigger] ss[i]) by {
                if i > 0 {
                    assert(ss.skip(1)[i - 1] == ss[i]);
                }
            }
        }
    }
}

pub proof fn lemma_states_wf_build(ss: Seq<State>)
    requires
        forall|i: int| 0 <= i < ss.len() ==> state_wf(#[trigger] ss[i]),
    ensures
        states_wf(ss),
    decreases ss,
{
    if ss.len() > 0 {
        assert forall|i: int| 0 <= i < ss.skip(1).len() implies state_wf(
            #[trigger] ss.skip(1)[i],
        ) by {
            assert(ss.skip(1)[i] == ss[i + 1]);
        }
        lemma_states_wf_build(ss.skip(1));
    }
}

/// Checks the machine-limit well-formedness of a transition.
fn transition_ok(t: &Transition) -> (b: bool)
    ensures
        b == transition_wf(*t),
{
    crate::ast::text_ok(&t.from) && crate::ast::text_ok(&t.to) && crate::ast::opt_text_ok(
        &t.event,
    ) && crate::ast::opt_text_ok(&t.guard) && crate::ast::opt_text_ok(&t.action)
}

/// Checks the machine-limit well-formedness of a state, recursively.
fn state_ok(s: &State) -> (b: bool)
    ensures
        b == state_wf(*s),
    decreases *s,
{
    if !crate::ast::text_ok(&s.name) {
        return false;
    }
    if !crate::ast::opt_text_ok(&s.alias) {
        return false;
    }
    if s.substates.len() > MAX_ITEMS {
        return false;
    }
    if s.internal_transitions.len() > MAX_ITEMS {
        return false;
    }
    let n = s.substates.len();
    let mut i: usize = 0;
    while i < n
        invariant
            i <= n,
            n == s.substates@.len(),
            forall|k: int| 0 <= k < i ==> state_wf(#[trigger] s.substates@[k]),
        decreases n - i,
    {
        if !state_ok(&s.substates[i]) {
            proof {
                if state_wf(*s) {
                    lemma_states_wf_index(s.substates@);
                }
            }
            return false;
        }
        i = i + 1;
    }
    let nt = s.internal_transitions.len();
    let mut j: usize = 0;
    while j < nt
        invariant
            j <= nt,
            nt == s.internal_transitions@.len(),
            forall|k: int| 0 <= k < j ==> transition_wf(#[trigger] s.internal_transitions@[k]),
        decreases nt - j,
    {
        if !transition_ok(&s.internal_transitions[j]) {
            return false;
        }
        j = j + 1;
    }
    proof {
        lemma_states_wf_build(s.substates@);
    }
    true
}

/// Checks the machine-limit well-formedness of a whole state diagram: the
/// item counts are within the machine caps and every piece of text is free
/// of control characters. The layout engine requires exactly this.
pub fn state_diagram_ok(d: &StateDiagram) -> (b: bool)
    ensures
        b == state_diagram_wf(*d),
{
    if d.states.len() > MAX_ITEMS {
        return false;
    }
    if d.transitions.len() > MAX_ITEMS {
        return false;
    }
    let ns = d.states.len();
    let mut i: usize = 0;
    while i < ns
        invariant
            i <= ns,
            ns == d.states@.len(),
            forall|k: int| 0 <= k < i ==> state_wf(#[trigger] d.states@[k]),
        decreases ns - i,
    {
        if !state_ok(&d.states[i]) {
            proof {
                if state_diagram_wf(*d) {
                    lemma_states_wf_index(d.states@);
                }
            }
            return false;
        }
        i = i + 1;
    }
    let nt = d.transitions.len();
    let mut j: usize = 0;
    while j < nt
        invariant
            j <= nt,
            nt == d.transitions@.len(),
            forall|k: int| 0 <= k < j ==> transition_wf(#[trigger] d.transitions@[k]),
        decreases nt - j,
    {
        if !transition_ok(&d.transitions[j]) {
            return false;
        }
        j = j + 1;
    }
    proof {
        lemma_states_wf_build(d.states@);
    }
    true
}

} // verus!
