//! Compiled queries: member labels and the automaton the engine walks.
use vstd::prelude::*;
use crate::classification::quotes::QUOTE;
use crate::error::UnsupportedFeatureError;

verus! {

/// Largest number of states an automaton may have.
pub const MAX_STATES: usize = 256;

/// A member name of a JSON object, in its JSON-encoded form.
pub struct Label {
    bytes: Vec<u8>,
    bytes_with_quotes: Vec<u8>,
}

/// `label` surrounded by double quotes.
pub open spec fn quoted(label: Seq<u8>) -> Seq<u8> {
    seq![QUOTE] + label + seq![QUOTE]
}

impl View for Label {
    type V = Seq<u8>;

    closed spec fn view(&self) -> Seq<u8> {
        self.bytes@
    }
}

impl Label {
    pub closed spec fn wf(&self) -> bool {
        self.bytes_with_quotes@ == quoted(self.bytes@)
    }

    /// A label with the given bytes.
    pub fn new(label: &[u8]) -> (r: Self)
        requires
            label@.len() < usize::MAX - 2,
        ensures
            r.wf(),
            r@ == label@,
    {
        let mut bytes: Vec<u8> = Vec::new();
        let mut bytes_with_quotes: Vec<u8> = Vec::new();
        bytes_with_quotes.push(QUOTE);
        let mut i: usize = 0;
        while i < label.len()
            invariant
                i <= label@.len(),
                bytes@ == label@.subrange(0, i as int),
                bytes_with_quotes@ == seq![QUOTE] + bytes@,
            decreases label@.len() - i,
        {
            bytes.push(label[i]);
            bytes_with_quotes.push(label[i]);
            i += 1;
            assert(bytes@ =~= label@.subrange(0, i as int));
            assert(bytes_with_quotes@ =~= seq![QUOTE] + bytes@);
        }
        bytes_with_quotes.push(QUOTE);
        assert(bytes@ =~= label@);
        assert(bytes_with_quotes@ =~= quoted(bytes@));
        Label { bytes, bytes_with_quotes }
    }

    /// Number of bytes in the label, without quotes.
    pub fn len(&self) -> (r: usize)
        requires
            self.wf(),
        ensures
            r == self@.len(),
            r + 2 == self.quoted_view().len(),
    {
        self.bytes.len()
    }

    /// Whether the label has no bytes.
    pub fn is_empty(&self) -> (r: bool)
        ensures
            r == (self@.len() == 0),
    {
        self.bytes.len() == 0
    }

    /// The label's bytes, without quotes.
    pub fn bytes(&self) -> (r: &[u8])
        ensures
            r@ == self@,
    {
        self.bytes.as_slice()
    }

    pub closed spec fn quoted_view(&self) -> Seq<u8> {
        self.bytes_with_quotes@
    }

    /// The label's bytes surrounded by double quotes.
    pub fn bytes_with_quotes(&self) -> (r: &[u8])
        requires
            self.wf(),
        ensures
            r@ == quoted(self@),
    {
        self.bytes_with_quotes.as_slice()
    }
}

/// A state of an automaton.
#[derive(Clone, Copy, Debug, PartialEq, Eq, Structural)]
pub struct State(pub u8);

/// The transitions out of one state.
pub struct StateTable {
    transitions: Vec<(Label, State)>,
    fallback_state: State,
    accepting: bool,
}

impl StateTable {
    /// A state with labelled transitions, a fallback taken when no label matches,
    /// and whether it is accepting.
    pub fn new(transitions: Vec<(Label, State)>, fallback_state: State, accepting: bool) -> (r: Self)
        ensures
            r.transitions_view() == transitions@,
            r.fallback() == fallback_state,
            r.is_accepting_spec() == accepting,
    {
        StateTable { transitions, fallback_state, accepting }
    }

    pub closed spec fn transitions_view(&self) -> Seq<(Label, State)> {
        self.transitions@
    }

    pub closed spec fn fallback(&self) -> State {
        self.fallback_state
    }

    pub closed spec fn is_accepting_spec(&self) -> bool {
        self.accepting
    }

    /// The state taken when no label matches.
    pub fn fallback_state(&self) -> (r: State)
        ensures
            r == self.fallback(),
    {
        self.fallback_state
    }

    /// The labelled transitions.
    pub fn transitions(&self) -> (r: &[(Label, State)])
        ensures
            r@ == self.transitions_view(),
    {
        self.transitions.as_slice()
    }
}

/// A deterministic automaton over member labels, fixed once built.
pub struct Automaton {
    states: Vec<StateTable>,
    initial_state: State,
}

/// Why a set of state tables does not make an automaton.
pub enum AutomatonError {
    /// More states than the engine supports.
    TooManyStates(UnsupportedFeatureError),
    /// No states, or a transition to a state that does not exist.
    InvalidState,
}

/// The tables describe an automaton: every state they name exists and every label is well formed.
pub open spec fn valid_tables(states: Seq<StateTable>, initial: State) -> bool {
    &&& (initial.0 as int) < states.len()
    &&& forall|s: int| 0 <= s < states.len() ==> (#[trigger] states[s].fallback().0 as int) < states.len()
    &&& forall|s: int, i: int| 0 <= s < states.len() && 0 <= i < states[s].transitions_view().len() ==> {
        &&& (#[trigger] states[s].transitions_view()[i]).1.0 < states.len()
        &&& states[s].transitions_view()[i].0.wf()
    }
}

impl Automaton {
    pub closed spec fn tables(&self) -> Seq<StateTable> {
        self.states@
    }

    pub closed spec fn initial(&self) -> State {
        self.initial_state
    }

    pub open spec fn wf(&self) -> bool {
        &&& self.tables().len() <= MAX_STATES
        &&& valid_tables(self.tables(), self.initial())
    }

    pub open spec fn valid_state(&self, s: State) -> bool {
        (s.0 as int) < self.tables().len()
    }

    pub open spec fn accepting(&self, s: State) -> bool {
        self.tables()[s.0 as int].is_accepting_spec()
    }

    pub open spec fn fallback_of(&self, s: State) -> State {
        self.tables()[s.0 as int].fallback()
    }

    pub open spec fn transitions_of(&self, s: State) -> Seq<(Label, State)> {
        self.tables()[s.0 as int].transitions_view()
    }

    /// A rejecting state: not accepting, and every transition and the fallback lead back to it.
    pub open spec fn rejecting(&self, s: State) -> bool {
        &&& !self.accepting(s)
        &&& self.fallback_of(s) == s
        &&& forall|i: int| 0 <= i < self.transitions_of(s).len() ==> (#[trigger] self.transitions_of(s)[i]).1 == s
    }

    /// A unitary state: one labelled transition and a rejecting fallback, so once the label
    /// has matched in an object nothing else in it can be selected.
    pub open spec fn unitary(&self, s: State) -> bool {
        &&& self.transitions_of(s).len() == 1
        &&& self.rejecting(self.fallback_of(s))
    }

    pub open spec fn transition_to_accepting(&self, s: State) -> bool {
        exists|i: int| 0 <= i < self.transitions_of(s).len() && self.accepting(#[trigger] self.transitions_of(s)[i].1)
    }

    /// An automaton with the given state tables, starting in `initial_state`.
    pub fn new(states: Vec<StateTable>, initial_state: State) -> (r: Result<Automaton, AutomatonError>)
        ensures
            states@.len() > MAX_STATES ==> r is Err && r->Err_0 is TooManyStates,
            states@.len() <= MAX_STATES ==> (r is Ok <==> valid_tables(states@, initial_state)),
            r is Ok ==> r->Ok_0.tables() == states@ && r->Ok_0.initial() == initial_state && r->Ok_0.wf(),
    {
        if states.len() > MAX_STATES {
            return Err(AutomatonError::TooManyStates(UnsupportedFeatureError::large_automaton_queries()));
        }
        let n = states.len();
        if initial_state.0 as usize >= n {
            return Err(AutomatonError::InvalidState);
        }
        let mut s: usize = 0;
        while s < n
            invariant
                n == states@.len(),
                n <= MAX_STATES,
                s <= n,
                forall|k: int| 0 <= k < s ==> (#[trigger] states@[k].fallback().0 as int) < n,
                forall|k: int, i: int| 0 <= k < s && 0 <= i < states@[k].transitions_view().len() ==> {
                    &&& (#[trigger] states@[k].transitions_view()[i]).1.0 < n
                    &&& states@[k].transitions_view()[i].0.wf()
                },
            decreases n - s,
        {
            let table = &states[s];
            if table.fallback_state.0 as usize >= n {
                assert(!((states@[s as int].fallback().0 as int) < states@.len()));
                return Err(AutomatonError::InvalidState);
            }
            let mut i: usize = 0;
            while i < table.transitions.len()
                invariant
                    n == states@.len(),
                    n <= MAX_STATES,
                    s < n,
                    table == states@[s as int],
                    i <= table.transitions@.len(),
                    forall|j: int| 0 <= j < i ==> {
                        &&& (#[trigger] table.transitions@[j]).1.0 < n
                        &&& table.transitions@[j].0.wf()
                    },
                decreases table.transitions@.len() - i,
            {
                let target = table.transitions[i].1;
                if target.0 as usize >= n {
                    assert(!((states@[s as int].transitions_view()[i as int]).1.0 < states@.len()));
                    return Err(AutomatonError::InvalidState);
                }
                let label = &table.transitions[i].0;
                let quoted_len = label.bytes_with_quotes.len();
                if quoted_len < 2 || quoted_len - 2 != label.bytes.len() {
                    assert(!states@[s as int].transitions_view()[i as int].0.wf());
                    return Err(AutomatonError::InvalidState);
                }
                if !label.quotes_frame() {
                    assert(!states@[s as int].transitions_view()[i as int].0.wf());
                    return Err(AutomatonError::InvalidState);
                }
                i += 1;
            }
            s += 1;
        }
        Ok(Automaton { states, initial_state })
    }

    /// The state the automaton starts in.
    pub fn initial_state(&self) -> (r: State)
        ensures
            r == self.initial(),
    {
        self.initial_state
    }

    /// Number of states.
    pub fn len(&self) -> (r: usize)
        ensures
            r == self.tables().len(),
    {
        self.states.len()
    }

    /// The table of a state.
    pub fn table(&self, s: State) -> (r: &StateTable)
        requires
            self.valid_state(s),
        ensures
            *r == self.tables()[s.0 as int],
    {
        &self.states[s.0 as usize]
    }

    /// Whether a state is accepting.
    pub fn is_accepting(&self, s: State) -> (r: bool)
        requires
            self.valid_state(s),
        ensures
            r == self.accepting(s),
    {
        self.states[s.0 as usize].accepting
    }

    /// Whether a state is rejecting.
    pub fn is_rejecting(&self, s: State) -> (r: bool)
        requires
            self.wf(),
            self.valid_state(s),
        ensures
            r == self.rejecting(s),
    {
        let table = &self.states[s.0 as usize];
        if table.accepting || table.fallback_state != s {
            return false;
        }
        let mut i: usize = 0;
        while i < table.transitions.len()
            invariant
                *table == self.tables()[s.0 as int],
                i <= table.transitions@.len(),
                forall|j: int| 0 <= j < i ==> (#[trigger] table.transitions@[j]).1 == s,
            decreases table.transitions@.len() - i,
        {
            if table.transitions[i].1 != s {
                assert(self.transitions_of(s)[i as int].1 != s);
                return false;
            }
            i += 1;
        }
        true
    }

    /// Whether a state is unitary.
    pub fn is_unitary(&self, s: State) -> (r: bool)
        requires
            self.wf(),
            self.valid_state(s),
        ensures
            r == self.unitary(s),
    {
        let table = &self.states[s.0 as usize];
        assert(self.valid_state(self.fallback_of(s)));
        table.transitions.len() == 1 && self.is_rejecting(table.fallback_state)
    }

    /// Whether some labelled transition of a state leads to an accepting state.
    pub fn has_transition_to_accepting(&self, s: State) -> (r: bool)
        requires
            self.wf(),
            self.valid_state(s),
        ensures
            r == self.transition_to_accepting(s),
    {
        let table = &self.states[s.0 as usize];
        let mut i: usize = 0;
        while i < table.transitions.len()
            invariant
                self.wf(),
                self.valid_state(s),
                *table == self.tables()[s.0 as int],
                i <= table.transitions@.len(),
                forall|j: int| 0 <= j < i ==> !self.accepting(#[trigger] table.transitions@[j].1),
            decreases table.transitions@.len() - i,
        {
            let target = table.transitions[i].1;
            assert(self.valid_state(self.transitions_of(s)[i as int].1));
            if self.is_accepting(target) {
                assert(self.accepting(self.transitions_of(s)[i as int].1));
                return true;
            }
            i += 1;
        }
        false
    }

    /// Whether the query selects only the document's root: its initial state accepts.
    pub fn is_empty_query(&self) -> (r: bool)
        requires
            self.wf(),
        ensures
            r == self.accepting(self.initial()),
    {
        self.is_accepting(self.initial_state)
    }
}

impl Label {
    fn quotes_frame(&self) -> (r: bool)
        requires
            self.bytes_with_quotes@.len() == self.bytes@.len() + 2,
        ensures
            r == self.wf(),
    {
        let n = self.bytes.len();
        let m = self.bytes_with_quotes.len();
        if self.bytes_with_quotes[0] != QUOTE || self.bytes_with_quotes[m - 1] != QUOTE {
            assert(!self.wf()) by {
                if self.wf() {
                    assert(self.bytes_with_quotes@[0] == quoted(self.bytes@)[0]);
                    assert(self.bytes_with_quotes@[n + 1] == quoted(self.bytes@)[n + 1]);
                }
            }
            return false;
        }
        let mut i: usize = 0;
        while i < n
            invariant
                n == self.bytes@.len(),
                m == n + 2,
                self.bytes_with_quotes@.len() == n + 2,
                i <= n,
                forall|j: int| 0 <= j < i ==> self.bytes_with_quotes@[j + 1] == self.bytes@[j],
            decreases n - i,
        {
            if self.bytes_with_quotes[i + 1] != self.bytes[i] {
                assert(!self.wf()) by {
                    if self.wf() {
                        assert(self.bytes_with_quotes@[i + 1] == quoted(self.bytes@)[i + 1]);
                    }
                }
                return false;
            }
            i += 1;
        }
        assert(self.bytes_with_quotes@ =~= quoted(self.bytes@));
        true
    }
}

} // verus!
