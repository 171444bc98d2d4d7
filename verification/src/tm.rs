//! Runtime machine model: a validated, named-state transition system with an
//! alphabet, a tape count, and per-state transition rules.

use vstd::prelude::*;

verus! {

/// The reserved blank symbol, implicitly a member of every alphabet.
pub open spec fn blank() -> Seq<char> {
    seq!['_']
}

/// Where a tape head moves after a write.
#[derive(Clone, Copy, Debug, PartialEq, Eq, Structural)]
pub enum Direction {
    Right,
    Left,
    Unchanged,
}

impl View for Direction {
    type V = Direction;

    open spec fn view(&self) -> Direction {
        *self
    }
}

impl DeepView for Direction {
    type V = Direction;

    open spec fn deep_view(&self) -> Direction {
        *self
    }
}

/// Mathematical content of a [`TransitionFunction`]: character sequences in
/// place of heap strings.
#[verifier::ext_equal]
pub struct TransFnV {
    pub origin: Seq<char>,
    pub bands_requirements: Seq<Seq<char>>,
    pub bands_actions: Seq<(Seq<char>, Direction)>,
    pub next_state_name: Seq<char>,
}

/// One runtime rule: per-tape required symbols, per-tape (write, move)
/// actions, and a destination state.
#[derive(Debug, Clone)]
pub struct TransitionFunction {
    pub origin: String,
    pub bands_requirements: Vec<String>,
    pub bands_actions: Vec<(String, Direction)>,
    pub next_state_name: String,
}

impl View for TransitionFunction {
    type V = TransFnV;

    open spec fn view(&self) -> TransFnV {
        TransFnV {
            origin: self.origin@,
            bands_requirements: self.bands_requirements.deep_view(),
            bands_actions: self.bands_actions.deep_view(),
            next_state_name: self.next_state_name@,
        }
    }
}

impl DeepView for TransitionFunction {
    type V = TransFnV;

    open spec fn deep_view(&self) -> TransFnV {
        self.view()
    }
}

impl TransitionFunction {
    /// Build a rule; requirement and action lists must pair up one tape each.
    pub fn new(
        origin: String,
        bands_requirements: Vec<String>,
        bands_actions: Vec<(String, Direction)>,
        next_state_name: String,
    ) -> (r: Self)
        requires
            bands_requirements@.len() == bands_actions@.len(),
        ensures
            r@.origin == origin@,
            r@.bands_requirements == bands_requirements.deep_view(),
            r@.bands_actions == bands_actions.deep_view(),
            r@.next_state_name == next_state_name@,
    {
        Self { origin, bands_requirements, bands_actions, next_state_name }
    }
}

/// Mathematical content of a [`State`].
#[verifier::ext_equal]
pub struct StateV {
    pub transition_functions: Seq<TransFnV>,
    pub is_end_state: bool,
}

/// A named machine state: its rules in match-priority order and a terminal
/// flag.
#[derive(Debug, Clone)]
pub struct State {
    pub transition_functions: Vec<TransitionFunction>,
    pub is_end_state: bool,
}

impl View for State {
    type V = StateV;

    open spec fn view(&self) -> StateV {
        StateV {
            transition_functions: self.transition_functions.deep_view(),
            is_end_state: self.is_end_state,
        }
    }
}

impl DeepView for State {
    type V = StateV;

    open spec fn deep_view(&self) -> StateV {
        self.view()
    }
}

impl State {
    pub fn new(transition_functions: Vec<TransitionFunction>, is_end_state: bool) -> (r: Self)
        ensures
            r@.transition_functions == transition_functions.deep_view(),
            r@.is_end_state == is_end_state,
    {
        Self { transition_functions, is_end_state }
    }
}

/// Why a machine could not be constructed.
#[derive(Clone, Copy, Debug, PartialEq, Eq, Structural)]
pub enum MachineError {
    /// The start state name is absent from the state mapping.
    StartStateMissing,
    /// A rule's requirement list does not have one entry per tape.
    RequirementArityMismatch,
    /// A rule reads or writes a symbol that the alphabet does not declare.
    UndeclaredSymbol,
    /// A rule's action list does not have one entry per tape.
    ActionArityMismatch,
    /// A rule's destination state is absent from the state mapping.
    UnknownNextState,
}

impl MachineError {
    /// The user-presentable reason, as fixed text.
    pub open spec fn message_spec(self) -> Seq<char> {
        match self {
            MachineError::StartStateMissing => "origin not in states"@,
            MachineError::RequirementArityMismatch => "number of input bands for this function doesn't match the machine band size"@,
            MachineError::UndeclaredSymbol => "character not defined in alphabet"@,
            MachineError::ActionArityMismatch => "number of bands for this function doesn't match the machines band size"@,
            MachineError::UnknownNextState => "next state not found"@,
        }
    }

    /// The user-presentable reason.
    pub fn message(&self) -> (r: &'static str)
        ensures
            r@ == self.message_spec(),
    {
        match self {
            MachineError::StartStateMissing => "origin not in states",
            MachineError::RequirementArityMismatch => "number of input bands for this function doesn't match the machine band size",
            MachineError::UndeclaredSymbol => "character not defined in alphabet",
            MachineError::ActionArityMismatch => "number of bands for this function doesn't match the machines band size",
            MachineError::UnknownNextState => "next state not found",
        }
    }
}

/// Does the symbol list `alphabet` contain the symbol `s`?
pub open spec fn declares(alphabet: Seq<Seq<char>>, s: Seq<char>) -> bool {
    exists|i: int| 0 <= i < alphabet.len() && alphabet[i] == s
}

/// Does the state list bind the name `name`?
pub open spec fn binds_state(states: Seq<(Seq<char>, StateV)>, name: Seq<char>) -> bool {
    exists|i: int| 0 <= i < states.len() && (#[trigger] states[i]).0 == name
}

/// The state bound to `name`: the first entry with that name.
pub open spec fn bound_state(states: Seq<(Seq<char>, StateV)>, name: Seq<char>) -> StateV
    decreases states.len(),
{
    if states.len() == 0 {
        StateV { transition_functions: Seq::empty(), is_end_state: false }
    } else if states[0].0 == name {
        states[0].1
    } else {
        bound_state(states.skip(1), name)
    }
}

/// A rule is well formed for a machine with the given alphabet, states and
/// tape count: one requirement and one action per tape, every symbol
/// declared, and the destination bound.
pub open spec fn tf_wf(
    tf: TransFnV,
    alphabet: Seq<Seq<char>>,
    states: Seq<(Seq<char>, StateV)>,
    size: nat,
) -> bool {
    &&& tf.bands_requirements.len() == size
    &&& forall|i: int| 0 <= i < tf.bands_requirements.len()
        ==> declares(alphabet, #[trigger] tf.bands_requirements[i])
    &&& tf.bands_actions.len() == size
    &&& binds_state(states, tf.next_state_name)
    &&& forall|i: int| 0 <= i < tf.bands_actions.len()
        ==> declares(alphabet, (#[trigger] tf.bands_actions[i]).0)
}

/// The first violation a rule exhibits, checked in the order construction
/// checks them, or `None` for a well-formed rule.
pub open spec fn tf_error(
    tf: TransFnV,
    alphabet: Seq<Seq<char>>,
    states: Seq<(Seq<char>, StateV)>,
    size: nat,
) -> Option<MachineError> {
    if tf.bands_requirements.len() != size {
        Some(MachineError::RequirementArityMismatch)
    } else if exists|i: int| 0 <= i < tf.bands_requirements.len()
        && !declares(alphabet, #[trigger] tf.bands_requirements[i]) {
        Some(MachineError::UndeclaredSymbol)
    } else if tf.bands_actions.len() != size {
        Some(MachineError::ActionArityMismatch)
    } else if !binds_state(states, tf.next_state_name) {
        Some(MachineError::UnknownNextState)
    } else if exists|i: int| 0 <= i < tf.bands_actions.len()
        && !declares(alphabet, (#[trigger] tf.bands_actions[i]).0) {
        Some(MachineError::UndeclaredSymbol)
    } else {
        None
    }
}

/// The first violation among a state's rules, scanned in order.
pub open spec fn tfs_error(
    tfs: Seq<TransFnV>,
    alphabet: Seq<Seq<char>>,
    states: Seq<(Seq<char>, StateV)>,
    size: nat,
) -> Option<MachineError>
    decreases tfs.len(),
{
    if tfs.len() == 0 {
        None
    } else {
        match tf_error(tfs[0], alphabet, states, size) {
            Some(e) => Some(e),
            None => tfs_error(tfs.skip(1), alphabet, states, size),
        }
    }
}

/// The first violation among the rules of the listed states, scanned in
/// order; `states` is the full binding list destinations are checked against.
pub open spec fn states_error(
    rem: Seq<(Seq<char>, StateV)>,
    alphabet: Seq<Seq<char>>,
    states: Seq<(Seq<char>, StateV)>,
    size: nat,
) -> Option<MachineError>
    decreases rem.len(),
{
    if rem.len() == 0 {
        None
    } else {
        match tfs_error(rem[0].1.transition_functions, alphabet, states, size) {
            Some(e) => Some(e),
            None => states_error(rem.skip(1), alphabet, states, size),
        }
    }
}

/// The declared alphabet with the blank symbol adjoined when absent.
pub open spec fn with_blank(alphabet: Seq<Seq<char>>) -> Seq<Seq<char>> {
    if declares(alphabet, blank()) {
        alphabet
    } else {
        alphabet.push(blank())
    }
}

/// Mathematical content of a [`Machine`].
#[verifier::ext_equal]
pub struct MachineV {
    pub alphabet: Seq<Seq<char>>,
    pub size: nat,
    pub states: Seq<(Seq<char>, StateV)>,
    pub start_state_name: Seq<char>,
}

impl MachineV {
    /// The construction invariant: the blank is declared, the start state is
    /// bound, and every rule of every state is well formed.
    pub open spec fn wf(self) -> bool {
        &&& declares(self.alphabet, blank())
        &&& binds_state(self.states, self.start_state_name)
        &&& forall|i: int| 0 <= i < self.states.len() ==> {
            let tfs = (#[trigger] self.states[i]).1.transition_functions;
            forall|j: int| 0 <= j < tfs.len()
                ==> tf_wf(#[trigger] tfs[j], self.alphabet, self.states, self.size)
        }
    }
}

/// A validated machine: alphabet, tape count, named states, start state.
/// Constructed only through [`Machine::new`], which enforces the invariants.
#[derive(Debug, Clone)]
pub struct Machine {
    pub alphabet: Vec<String>,
    pub size: usize,
    pub states: Vec<(String, State)>,
    pub start_state_name: String,
}

impl View for Machine {
    type V = MachineV;

    open spec fn view(&self) -> MachineV {
        MachineV {
            alphabet: self.alphabet.deep_view(),
            size: self.size as nat,
            states: self.states.deep_view(),
            start_state_name: self.start_state_name@,
        }
    }
}

/// A fresh blank symbol as a heap string.
pub fn blank_symbol() -> (r: String)
    ensures
        r@ == blank(),
{
    let r = String::from_str("_");
    proof {
        reveal_strlit("_");
        assert(r@ =~= blank());
    }
    r
}

/// Linear scan for a symbol in a symbol list.
pub fn contains_symbol(alphabet: &Vec<String>, s: &String) -> (r: bool)
    ensures
        r == declares(alphabet.deep_view(), s@),
{
    let mut i: usize = 0;
    while i < alphabet.len()
        invariant
            0 <= i <= alphabet.len(),
            forall|k: int| 0 <= k < i ==> alphabet.deep_view()[k] != s@,
        decreases alphabet.len() - i,
    {
        if alphabet[i].eq(s) {
            assert(alphabet.deep_view()[i as int] == s@);
            return true;
        }
        i += 1;
    }
    false
}

/// Linear scan for a state name in the state list.
pub fn contains_state_name(states: &Vec<(String, State)>, name: &String) -> (r: bool)
    ensures
        r == binds_state(states.deep_view(), name@),
{
    let mut i: usize = 0;
    while i < states.len()
        invariant
            0 <= i <= states.len(),
            forall|k: int| 0 <= k < i ==> (#[trigger] states.deep_view()[k]).0 != name@,
        decreases states.len() - i,
    {
        if states[i].0.eq(name) {
            assert(states.deep_view()[i as int].0 == name@);
            return true;
        }
        i += 1;
    }
    false
}

/// The first state bound to `name`, or `None`.
pub fn find_state<'a>(states: &'a Vec<(String, State)>, name: &String) -> (r: Option<&'a State>)
    ensures
        match r {
            Some(st) => binds_state(states.deep_view(), name@)
                && st@ == bound_state(states.deep_view(), name@),
            None => !binds_state(states.deep_view(), name@),
        },
{
    let ghost sts = states.deep_view();
    let mut i: usize = 0;
    while i < states.len()
        invariant
            0 <= i <= states.len(),
            sts == states.deep_view(),
            forall|k: int| 0 <= k < i ==> (#[trigger] sts[k]).0 != name@,
        decreases states.len() - i,
    {
        if states[i].0.eq(name) {
            proof {
                lemma_bound_state_first(sts, name@, i as int);
            }
            return Some(&states[i].1);
        }
        i += 1;
    }
    None
}

/// A bound name is bound to one of the listed states.
pub proof fn lemma_bound_state_entry(states: Seq<(Seq<char>, StateV)>, name: Seq<char>)
    requires
        binds_state(states, name),
    ensures
        exists|i: int| 0 <= i < states.len() && (#[trigger] states[i]).0 == name
            && states[i].1 == bound_state(states, name),
    decreases states.len(),
{
    if states[0].0 == name {
        assert(states[0].1 == bound_state(states, name));
    } else {
        let w = choose|i: int| 0 <= i < states.len() && (#[trigger] states[i]).0 == name;
        assert(states.skip(1)[w - 1] == states[w]);
        assert(binds_state(states.skip(1), name));
        lemma_bound_state_entry(states.skip(1), name);
        let i = choose|i: int| 0 <= i < states.skip(1).len()
            && (#[trigger] states.skip(1)[i]).0 == name
            && states.skip(1)[i].1 == bound_state(states.skip(1), name);
        assert(states[i + 1] == states.skip(1)[i]);
    }
}

/// When the first `i` entries do not bind `name` and entry `i` does,
/// `bound_state` returns entry `i`.
proof fn lemma_bound_state_first(states: Seq<(Seq<char>, StateV)>, name: Seq<char>, i: int)
    requires
        0 <= i < states.len(),
        states[i].0 == name,
        forall|k: int| 0 <= k < i ==> (#[trigger] states[k]).0 != name,
    ensures
        bound_state(states, name) == states[i].1,
    decreases i,
{
    if i > 0 {
        lemma_bound_state_first(states.skip(1), name, i - 1);
    }
}

/// A state list with no violation in any scanned prefix has none overall:
/// scanning may start at any position reached with a clean prefix.
proof fn lemma_tfs_error_skip(
    tfs: Seq<TransFnV>,
    alphabet: Seq<Seq<char>>,
    states: Seq<(Seq<char>, StateV)>,
    size: nat,
    j: int,
)
    requires
        0 <= j <= tfs.len(),
        forall|k: int| 0 <= k < j ==> tf_error(#[trigger] tfs[k], alphabet, states, size) is None,
    ensures
        tfs_error(tfs, alphabet, states, size) == tfs_error(tfs.skip(j), alphabet, states, size),
    decreases j,
{
    if j == 0 {
        assert(tfs.skip(0) =~= tfs);
    } else {
        assert(tf_error(tfs[0], alphabet, states, size) is None);
        assert forall|k: int| 0 <= k < j - 1
            implies tf_error(#[trigger] tfs.skip(1)[k], alphabet, states, size) is None by {
            assert(tfs.skip(1)[k] == tfs[k + 1]);
        }
        lemma_tfs_error_skip(tfs.skip(1), alphabet, states, size, j - 1);
        assert(tfs.skip(1).skip(j - 1) =~= tfs.skip(j));
    }
}

proof fn lemma_states_error_skip(
    rem: Seq<(Seq<char>, StateV)>,
    alphabet: Seq<Seq<char>>,
    states: Seq<(Seq<char>, StateV)>,
    size: nat,
    i: int,
)
    requires
        0 <= i <= rem.len(),
        forall|k: int| 0 <= k < i
            ==> tfs_error((#[trigger] rem[k]).1.transition_functions, alphabet, states, size) is None,
    ensures
        states_error(rem, alphabet, states, size)
            == states_error(rem.skip(i), alphabet, states, size),
    decreases i,
{
    if i == 0 {
        assert(rem.skip(0) =~= rem);
    } else {
        assert(tfs_error(rem[0].1.transition_functions, alphabet, states, size) is None);
        assert forall|k: int| 0 <= k < i - 1
            implies tfs_error(
                (#[trigger] rem.skip(1)[k]).1.transition_functions, alphabet, states, size,
            ) is None by {
            assert(rem.skip(1)[k] == rem[k + 1]);
        }
        lemma_states_error_skip(rem.skip(1), alphabet, states, size, i - 1);
        assert(rem.skip(1).skip(i - 1) =~= rem.skip(i));
    }
}

/// A state's rules scan clean exactly when each rule is well formed.
proof fn lemma_tfs_error_none(
    tfs: Seq<TransFnV>,
    alphabet: Seq<Seq<char>>,
    states: Seq<(Seq<char>, StateV)>,
    size: nat,
)
    ensures
        tfs_error(tfs, alphabet, states, size) is None
            <==> forall|j: int| 0 <= j < tfs.len()
                ==> tf_wf(#[trigger] tfs[j], alphabet, states, size),
    decreases tfs.len(),
{
    if tfs.len() > 0 {
        lemma_tfs_error_none(tfs.skip(1), alphabet, states, size);
        let rest_wf = forall|j: int| 0 <= j < tfs.skip(1).len()
            ==> tf_wf(#[trigger] tfs.skip(1)[j], alphabet, states, size);
        if tfs_error(tfs, alphabet, states, size) is None {
            assert(rest_wf);
            assert forall|j: int| 0 <= j < tfs.len()
                implies tf_wf(#[trigger] tfs[j], alphabet, states, size) by {
                if j > 0 {
                    assert(tf_wf(tfs.skip(1)[j - 1], alphabet, states, size));
                }
            }
        } else if forall|j: int| 0 <= j < tfs.len()
            ==> tf_wf(#[trigger] tfs[j], alphabet, states, size) {
            assert(tf_wf(tfs[0], alphabet, states, size));
            assert forall|j: int| 0 <= j < tfs.skip(1).len()
                implies tf_wf(#[trigger] tfs.skip(1)[j], alphabet, states, size) by {
                assert(tfs.skip(1)[j] == tfs[j + 1]);
                assert(tf_wf(tfs[j + 1], alphabet, states, size));
            }
            assert(tfs_error(tfs.skip(1), alphabet, states, size) is None);
            assert(false);
        }
    }
}

/// The whole scan is clean exactly when every rule of every state is well
/// formed.
proof fn lemma_states_error_none(
    rem: Seq<(Seq<char>, StateV)>,
    alphabet: Seq<Seq<char>>,
    states: Seq<(Seq<char>, StateV)>,
    size: nat,
)
    ensures
        states_error(rem, alphabet, states, size) is None
            <==> forall|i: int| 0 <= i < rem.len() ==> {
                let tfs = (#[trigger] rem[i]).1.transition_functions;
                forall|j: int| 0 <= j < tfs.len()
                    ==> tf_wf(#[trigger] tfs[j], alphabet, states, size)
            },
    decreases rem.len(),
{
    if rem.len() > 0 {
        lemma_tfs_error_none(rem[0].1.transition_functions, alphabet, states, size);
        lemma_states_error_none(rem.skip(1), alphabet, states, size);
        let all_wf = |entry: (Seq<char>, StateV)| forall|j: int|
            0 <= j < entry.1.transition_functions.len()
                ==> tf_wf(#[trigger] entry.1.transition_functions[j], alphabet, states, size);
        if states_error(rem, alphabet, states, size) is None {
            assert forall|i: int| 0 <= i < rem.len() implies all_wf(#[trigger] rem[i]) by {
                if i > 0 {
                    assert(rem.skip(1)[i - 1] == rem[i]);
                    assert(all_wf(rem.skip(1)[i - 1]));
                }
            }
        } else if forall|i: int| 0 <= i < rem.len() ==> all_wf(#[trigger] rem[i]) {
            assert(all_wf(rem[0]));
            assert forall|i: int| 0 <= i < rem.skip(1).len()
                implies all_wf(#[trigger] rem.skip(1)[i]) by {
                assert(rem.skip(1)[i] == rem[i + 1]);
                assert(all_wf(rem[i + 1]));
            }
            assert(states_error(rem.skip(1), alphabet, states, size) is None);
            assert(false);
        }
    }
}

/// An element-wise copy of a symbol list, with its content known.
pub fn clone_symbols(v: &Vec<String>) -> (r: Vec<String>)
    ensures
        r.deep_view() == v.deep_view(),
{
    let mut r: Vec<String> = Vec::new();
    let mut i: usize = 0;
    while i < v.len()
        invariant
            0 <= i <= v.len(),
            r@.len() == i,
            forall|k: int| 0 <= k < i ==> r.deep_view()[k] == v.deep_view()[k],
        decreases v.len() - i,
    {
        r.push(v[i].clone());
        i += 1;
    }
    proof {
        assert(r.deep_view() =~= v.deep_view());
    }
    r
}

/// An element-wise copy of an action list, with its content known.
pub fn clone_actions(v: &Vec<(String, Direction)>) -> (r: Vec<(String, Direction)>)
    ensures
        r.deep_view() == v.deep_view(),
{
    let mut r: Vec<(String, Direction)> = Vec::new();
    let mut i: usize = 0;
    while i < v.len()
        invariant
            0 <= i <= v.len(),
            r@.len() == i,
            forall|k: int| 0 <= k < i ==> r.deep_view()[k] == v.deep_view()[k],
        decreases v.len() - i,
    {
        r.push((v[i].0.clone(), v[i].1));
        i += 1;
    }
    proof {
        assert(r.deep_view() =~= v.deep_view());
    }
    r
}

/// A copy of a rule, with its content known.
pub fn clone_tf(tf: &TransitionFunction) -> (r: TransitionFunction)
    ensures
        r@ == tf@,
{
    TransitionFunction {
        origin: tf.origin.clone(),
        bands_requirements: clone_symbols(&tf.bands_requirements),
        bands_actions: clone_actions(&tf.bands_actions),
        next_state_name: tf.next_state_name.clone(),
    }
}

/// A copy of a state, with its content known.
pub fn clone_state(s: &State) -> (r: State)
    ensures
        r@ == s@,
{
    let mut tfs: Vec<TransitionFunction> = Vec::new();
    let mut i: usize = 0;
    while i < s.transition_functions.len()
        invariant
            0 <= i <= s.transition_functions.len(),
            tfs@.len() == i,
            forall|k: int| 0 <= k < i
                ==> tfs.deep_view()[k] == s.transition_functions.deep_view()[k],
        decreases s.transition_functions.len() - i,
    {
        let ghost prev = tfs.deep_view();
        let tf = clone_tf(&s.transition_functions[i]);
        tfs.push(tf);
        proof {
            assert forall|k: int| 0 <= k < i + 1 implies tfs.deep_view()[k]
                == s.transition_functions.deep_view()[k] by {
                if k == i as int {
                    assert(tfs.deep_view()[k] == tf@);
                } else {
                    assert(tfs.deep_view()[k] == prev[k]);
                }
            }
        }
        i += 1;
    }
    proof {
        assert(tfs.deep_view() =~= s.transition_functions.deep_view());
    }
    State { transition_functions: tfs, is_end_state: s.is_end_state }
}

impl Machine {
    /// Validate and build a machine. The blank symbol is adjoined to the
    /// alphabet before validation. The result is `Ok` exactly when the start
    /// state is bound and every rule of every state is well formed; otherwise
    /// it is the first violation found, scanning states in order and each
    /// state's rules in order.
    #[verifier::loop_isolation(false)]
    pub fn new(
        alphabet: Vec<String>,
        size: usize,
        states: Vec<(String, State)>,
        start_state: String,
    ) -> (r: Result<Self, MachineError>)
        ensures
            ({
                let alpha = with_blank(alphabet.deep_view());
                let sts = states.deep_view();
                &&& (r is Ok <==> binds_state(sts, start_state@)
                    && states_error(sts, alpha, sts, size as nat) is None)
                &&& (!binds_state(sts, start_state@)
                    ==> r == Err::<Machine, MachineError>(MachineError::StartStateMissing))
                &&& (binds_state(sts, start_state@)
                        && states_error(sts, alpha, sts, size as nat) is Some
                    ==> r == Err::<Machine, MachineError>(
                        states_error(sts, alpha, sts, size as nat)->Some_0,
                    ))
                &&& (r matches Ok(m) ==> {
                    &&& m@.alphabet == alpha
                    &&& m@.size == size as nat
                    &&& m@.states == sts
                    &&& m@.start_state_name == start_state@
                    &&& m@.wf()
                    // the blank is always declared, whether or not the caller
                    // supplied it
                    &&& declares(m@.alphabet, blank())
                })
            }),
    {
        let ghost alpha = with_blank(alphabet.deep_view());
        let ghost sts = states.deep_view();
        let mut alphabet = alphabet;
        let blank_sym = blank_symbol();
        if !contains_symbol(&alphabet, &blank_sym) {
            alphabet.push(blank_sym);
            assert(alphabet.deep_view()[alphabet.deep_view().len() - 1] == blank());
        }
        assert(alphabet.deep_view() =~= alpha);
        assert(declares(alpha, blank()));
        if !contains_state_name(&states, &start_state) {
            return Err(MachineError::StartStateMissing);
        }
        let mut i: usize = 0;
        while i < states.len()
            invariant
                0 <= i <= states.len(),
                forall|k: int| 0 <= k < i
                    ==> tfs_error(
                        (#[trigger] sts[k]).1.transition_functions, alpha, sts, size as nat,
                    ) is None,
            decreases states.len() - i,
        {
            proof {
                lemma_states_error_skip(sts, alpha, sts, size as nat, i as int);
                assert(sts.skip(i as int)[0] == sts[i as int]);
            }
            let state = &states[i].1;
            let ghost tfs = sts[i as int].1.transition_functions;
            assert(tfs == state.transition_functions.deep_view());
            let mut j: usize = 0;
            while j < state.transition_functions.len()
                invariant
                    0 <= j <= state.transition_functions.len(),
                    forall|k: int| 0 <= k < j
                        ==> tf_error(#[trigger] tfs[k], alpha, sts, size as nat) is None,
                decreases state.transition_functions.len() - j,
            {
                proof {
                    lemma_tfs_error_skip(tfs, alpha, sts, size as nat, j as int);
                    assert(tfs.skip(j as int)[0] == tfs[j as int]);
                }
                let f = &state.transition_functions[j];
                let ghost fv = tfs[j as int];
                assert(fv == f@);
                if f.bands_requirements.len() != size {
                    return Err(MachineError::RequirementArityMismatch);
                }
                let mut k: usize = 0;
                while k < f.bands_requirements.len()
                    invariant
                        0 <= k <= f.bands_requirements.len(),
                        forall|t: int| 0 <= t < k
                            ==> declares(alpha, #[trigger] fv.bands_requirements[t]),
                    decreases f.bands_requirements.len() - k,
                {
                    if !contains_symbol(&alphabet, &f.bands_requirements[k]) {
                        assert(!declares(alpha, fv.bands_requirements[k as int]));
                        assert(tf_error(fv, alpha, sts, size as nat)
                            == Some(MachineError::UndeclaredSymbol));
                        return Err(MachineError::UndeclaredSymbol);
                    }
                    k += 1;
                }
                assert(forall|t: int| 0 <= t < fv.bands_requirements.len()
                    ==> declares(alpha, #[trigger] fv.bands_requirements[t]));
                if f.bands_actions.len() != size {
                    return Err(MachineError::ActionArityMismatch);
                }
                if !contains_state_name(&states, &f.next_state_name) {
                    return Err(MachineError::UnknownNextState);
                }
                let mut k: usize = 0;
                while k < f.bands_actions.len()
                    invariant
                        0 <= k <= f.bands_actions.len(),
                        forall|t: int| 0 <= t < k
                            ==> declares(alpha, (#[trigger] fv.bands_actions[t]).0),
                    decreases f.bands_actions.len() - k,
                {
                    if !contains_symbol(&alphabet, &f.bands_actions[k].0) {
                        assert(!declares(alpha, fv.bands_actions[k as int].0));
                        assert(tf_error(fv, alpha, sts, size as nat)
                            == Some(MachineError::UndeclaredSymbol));
                        return Err(MachineError::UndeclaredSymbol);
                    }
                    k += 1;
                }
                assert(tf_error(fv, alpha, sts, size as nat) is None);
                j += 1;
            }
            proof {
                lemma_tfs_error_skip(tfs, alpha, sts, size as nat, tfs.len() as int);
                assert(tfs.skip(tfs.len() as int) =~= Seq::<TransFnV>::empty());
            }
            i += 1;
        }
        proof {
            lemma_states_error_skip(sts, alpha, sts, size as nat, sts.len() as int);
            assert(sts.skip(sts.len() as int) =~= Seq::<(Seq<char>, StateV)>::empty());
            lemma_states_error_none(sts, alpha, sts, size as nat);
        }
        Ok(Self { alphabet, size, states, start_state_name: start_state })
    }
}

} // verus!
