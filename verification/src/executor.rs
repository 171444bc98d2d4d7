//! Execution engine: simulates a validated machine against concrete tape
//! contents, one transition per step, until no rule applies.
//!
//! Tapes grow on demand: a cursor addressing the position one past a tape's
//! last symbol reads an implicit blank, a `Right` move past the end appends a
//! blank, and a `Left` move clamps at the hard left boundary.

use vstd::prelude::*;

use crate::tm::blank;
use crate::tm::blank_symbol;
use crate::tm::bound_state;
use crate::tm::clone_state;
use crate::tm::clone_tf;
use crate::tm::find_state;
use crate::tm::lemma_bound_state_entry;
use crate::tm::tf_wf;
use crate::tm::Direction;
use crate::tm::Machine;
use crate::tm::MachineV;
use crate::tm::State;
use crate::tm::StateV;
use crate::tm::TransFnV;
use crate::tm::TransitionFunction;

verus! {

/// The symbol under a cursor; one past the end reads the implicit blank.
pub open spec fn band_read(band: Seq<Seq<char>>, cursor: int) -> Seq<char> {
    if 0 <= cursor < band.len() {
        band[cursor]
    } else {
        blank()
    }
}

/// Writing under a cursor; writing one past the end appends a cell.
pub open spec fn band_write(band: Seq<Seq<char>>, cursor: int, sym: Seq<char>) -> Seq<Seq<char>> {
    if cursor < band.len() {
        band.update(cursor, sym)
    } else {
        band.push(sym)
    }
}

/// One tape's content and cursor after writing `sym` and moving `dir`:
/// `Right` appends a blank when leaving the last cell, `Left` clamps at 0.
pub open spec fn band_step(band: Seq<Seq<char>>, cursor: int, sym: Seq<char>, dir: Direction) -> (
    Seq<Seq<char>>,
    int,
) {
    let written = band_write(band, cursor, sym);
    match dir {
        Direction::Right => if cursor + 1 == written.len() {
            (written.push(blank()), cursor + 1)
        } else {
            (written, cursor + 1)
        },
        Direction::Left => (written, if cursor == 0 { 0int } else { cursor - 1 }),
        Direction::Unchanged => (written, cursor),
    }
}

/// A rule matches exactly when every tape reads its required symbol:
/// the condition is a conjunction over all tapes.
pub open spec fn tf_matches(
    tf: TransFnV,
    bands: Seq<Seq<Seq<char>>>,
    cursors: Seq<int>,
    size: nat,
) -> bool {
    forall|x: int| 0 <= x < size
        ==> band_read(#[trigger] bands[x], cursors[x]) == tf.bands_requirements[x]
}

/// The first matching rule at or after position `i`, in declaration order.
pub open spec fn first_match_from(
    tfs: Seq<TransFnV>,
    bands: Seq<Seq<Seq<char>>>,
    cursors: Seq<int>,
    size: nat,
    i: int,
) -> Option<int>
    decreases tfs.len() - i,
{
    if i < 0 || i >= tfs.len() {
        None
    } else if tf_matches(tfs[i], bands, cursors, size) {
        Some(i)
    } else {
        first_match_from(tfs, bands, cursors, size, i + 1)
    }
}

/// The first matching rule, in declaration order.
pub open spec fn first_match(
    tfs: Seq<TransFnV>,
    bands: Seq<Seq<Seq<char>>>,
    cursors: Seq<int>,
    size: nat,
) -> Option<int> {
    first_match_from(tfs, bands, cursors, size, 0)
}

/// All tapes after applying an action list, tape by tape.
pub open spec fn bands_after(
    bands: Seq<Seq<Seq<char>>>,
    cursors: Seq<int>,
    actions: Seq<(Seq<char>, Direction)>,
) -> Seq<Seq<Seq<char>>> {
    Seq::new(bands.len(), |x: int| band_step(bands[x], cursors[x], actions[x].0, actions[x].1).0)
}

/// All cursors after applying an action list, tape by tape.
pub open spec fn cursors_after(
    bands: Seq<Seq<Seq<char>>>,
    cursors: Seq<int>,
    actions: Seq<(Seq<char>, Direction)>,
) -> Seq<int> {
    Seq::new(cursors.len(), |x: int| band_step(bands[x], cursors[x], actions[x].0, actions[x].1).1)
}

/// A step's cursor lands within the stepped tape.
pub proof fn lemma_band_step_bounds(band: Seq<Seq<char>>, cursor: int, sym: Seq<char>, dir: Direction)
    requires
        0 <= cursor <= band.len(),
    ensures
        0 <= band_step(band, cursor, sym, dir).1 <= band_step(band, cursor, sym, dir).0.len(),
{
}

/// Multi-tape matching is conjunctive: a rule over two tapes fires only when
/// tape 0 reads its first requirement and tape 1 reads its second — never
/// when only one of them matches.
pub proof fn lemma_match_is_conjunctive(
    tf: TransFnV,
    bands: Seq<Seq<Seq<char>>>,
    cursors: Seq<int>,
)
    ensures
        tf_matches(tf, bands, cursors, 2) <==> {
            &&& band_read(bands[0], cursors[0]) == tf.bands_requirements[0]
            &&& band_read(bands[1], cursors[1]) == tf.bands_requirements[1]
        },
{
    if band_read(bands[0], cursors[0]) == tf.bands_requirements[0] && band_read(
        bands[1],
        cursors[1],
    ) == tf.bands_requirements[1] {
        assert forall|x: int| 0 <= x < 2 implies band_read(#[trigger] bands[x], cursors[x])
            == tf.bands_requirements[x] by {
            if x == 0 {
            } else {
                assert(x == 1);
            }
        }
    }
}

/// Tape growth and clamping: a `Right` move out of the last cell appends a
/// blank before advancing, and a `Left` move at cell 0 leaves the cursor at 0.
pub proof fn lemma_tape_growth_and_clamping(band: Seq<Seq<char>>, cursor: int, sym: Seq<char>)
    requires
        0 <= cursor <= band.len(),
    ensures
        cursor + 1 == band_write(band, cursor, sym).len() ==> band_step(
            band,
            cursor,
            sym,
            Direction::Right,
        ) == (band_write(band, cursor, sym).push(blank()), cursor + 1),
        band_step(band, cursor, sym, Direction::Left).1 == if cursor == 0 {
            0int
        } else {
            cursor - 1
        },
{
}

/// Mathematical content of a [`MachineExecutor`].
#[verifier::ext_equal]
pub struct MachineExecutorV {
    pub machine: MachineV,
    pub bands: Seq<Seq<Seq<char>>>,
    pub bands_cursors: Seq<int>,
    pub current_state: StateV,
}

impl MachineExecutorV {
    /// The execution invariant: the machine is valid, there is one tape and
    /// one cursor per declared tape, every cursor is at most one past its
    /// tape's end, and the current state's rules are rules of the machine.
    pub open spec fn wf(self) -> bool {
        &&& self.machine.wf()
        &&& self.bands.len() == self.machine.size
        &&& self.bands_cursors.len() == self.machine.size
        &&& forall|x: int| 0 <= x < self.bands.len()
            ==> 0 <= #[trigger] self.bands_cursors[x] <= self.bands[x].len()
        &&& forall|j: int| 0 <= j < self.current_state.transition_functions.len()
            ==> tf_wf(
                #[trigger] self.current_state.transition_functions[j],
                self.machine.alphabet,
                self.machine.states,
                self.machine.size,
            )
    }
}

/// The exclusively owned simulation bundle: the machine, one growable tape
/// per declared tape with its cursor, and the current state's contents.
#[derive(Debug)]
pub struct MachineExecutor {
    pub machine: Machine,
    pub bands: Vec<Vec<String>>,
    pub bands_cursors: Vec<usize>,
    pub current_state: State,
}

impl View for MachineExecutor {
    type V = MachineExecutorV;

    open spec fn view(&self) -> MachineExecutorV {
        MachineExecutorV {
            machine: self.machine@,
            bands: self.bands.deep_view(),
            bands_cursors: self.bands_cursors@.map_values(|c: usize| c as int),
            current_state: self.current_state@,
        }
    }
}

/// The observable record of one fired transition: its index within the state
/// that fired it, in declaration order, and the rule itself with its per-tape
/// (write, direction) actions.
#[derive(Debug)]
pub struct SimulationStep {
    pub transition_index: usize,
    pub transition: TransitionFunction,
}

/// The initial tape contents: the input on tape 0, all other tapes empty.
pub open spec fn initial_bands(size: nat, input: Seq<Seq<char>>) -> Seq<Seq<Seq<char>>> {
    Seq::new(size, |x: int| if x == 0 { input } else { Seq::<Seq<char>>::empty() })
}

impl MachineExecutor {
    /// Create a simulation of `machine` with `input` seeded on tape 0, every
    /// cursor at 0, and the start state current.
    pub fn new(machine: Machine, input: Vec<String>) -> (r: Self)
        requires
            machine@.wf(),
        ensures
            r@.machine == machine@,
            r@.bands == initial_bands(machine@.size, input.deep_view()),
            r@.bands_cursors.len() == machine@.size,
            forall|x: int| 0 <= x < r@.bands_cursors.len() ==> #[trigger] r@.bands_cursors[x] == 0,
            r@.current_state == bound_state(machine@.states, machine@.start_state_name),
            r@.wf(),
    {
        let ghost mv = machine@;
        let ghost inp = input.deep_view();
        let mut bands: Vec<Vec<String>> = Vec::new();
        if machine.size > 0 {
            bands.push(input);
            proof {
                assert(bands.deep_view() =~= initial_bands(1, inp));
            }
            while bands.len() < machine.size
                invariant
                    1 <= bands@.len() <= machine.size,
                    bands.deep_view() == initial_bands(bands@.len() as nat, inp),
                decreases machine.size - bands@.len(),
            {
                let ghost prev = bands.deep_view();
                bands.push(Vec::new());
                proof {
                    assert forall|k: int| 0 <= k < bands@.len() implies bands.deep_view()[k]
                        == initial_bands(bands@.len() as nat, inp)[k] by {
                        if k < prev.len() {
                            assert(bands.deep_view()[k] == prev[k]);
                        } else {
                            assert(bands.deep_view()[k] =~= Seq::<Seq<char>>::empty());
                        }
                    }
                    assert(bands.deep_view() =~= initial_bands(bands@.len() as nat, inp));
                }
            }
        }
        proof {
            assert(bands.deep_view() =~= initial_bands(mv.size, inp));
        }
        let bands_cursors: Vec<usize> = vec![0; machine.size];
        let st = find_state(&machine.states, &machine.start_state_name).unwrap();
        let current_state = clone_state(st);
        proof {
            lemma_bound_state_entry(mv.states, mv.start_state_name);
            let i = choose|i: int| 0 <= i < mv.states.len()
                && (#[trigger] mv.states[i]).0 == mv.start_state_name
                && mv.states[i].1 == bound_state(mv.states, mv.start_state_name);
            assert(mv.states[i].1 == current_state@);
        }
        MachineExecutor { machine, bands, bands_cursors, current_state }
    }
}

/// When no rule before `i` matches and rule `i` does, `i` is the first match.
proof fn lemma_first_match_here(
    tfs: Seq<TransFnV>,
    bands: Seq<Seq<Seq<char>>>,
    cursors: Seq<int>,
    size: nat,
    j: int,
    i: int,
)
    requires
        0 <= j <= i < tfs.len(),
        tf_matches(tfs[i], bands, cursors, size),
        forall|t: int| j <= t < i ==> !tf_matches(#[trigger] tfs[t], bands, cursors, size),
    ensures
        first_match_from(tfs, bands, cursors, size, j) == Some(i),
    decreases i - j,
{
    if j < i {
        lemma_first_match_here(tfs, bands, cursors, size, j + 1, i);
    }
}

/// When no rule at or after `j` matches, there is no first match from `j`.
proof fn lemma_first_match_none(
    tfs: Seq<TransFnV>,
    bands: Seq<Seq<Seq<char>>>,
    cursors: Seq<int>,
    size: nat,
    j: int,
)
    requires
        0 <= j,
        forall|t: int| j <= t < tfs.len()
            ==> !tf_matches(#[trigger] tfs[t], bands, cursors, size),
    ensures
        first_match_from(tfs, bands, cursors, size, j) is None,
    decreases tfs.len() - j,
{
    if j < tfs.len() {
        lemma_first_match_none(tfs, bands, cursors, size, j + 1);
    }
}

/// One tape after writing `sym` under `cursor` and moving `dir`, as a fresh
/// vector together with the new cursor.
fn band_step_exec(band: &Vec<String>, cursor: usize, sym: &String, dir: Direction) -> (r: (
    Vec<String>,
    usize,
))
    requires
        cursor <= band.deep_view().len(),
    ensures
        r.0.deep_view() == band_step(band.deep_view(), cursor as int, sym@, dir).0,
        r.1 as int == band_step(band.deep_view(), cursor as int, sym@, dir).1,
{
    let ghost bv = band.deep_view();
    let mut b = crate::tm::clone_symbols(band);
    if cursor < b.len() {
        b.set(cursor, sym.clone());
        proof {
            assert(b.deep_view() =~= band_write(bv, cursor as int, sym@));
        }
    } else {
        b.push(sym.clone());
        proof {
            assert(b.deep_view() =~= band_write(bv, cursor as int, sym@));
        }
    }
    let blen = b.len();
    assert(cursor < blen);
    match dir {
        Direction::Right => {
            let nc = cursor + 1;
            if nc == blen {
                b.push(blank_symbol());
                proof {
                    assert(b.deep_view() =~= band_write(bv, cursor as int, sym@).push(blank()));
                }
            }
            (b, nc)
        },
        Direction::Left => {
            let nc = if cursor == 0 {
                0
            } else {
                cursor - 1
            };
            (b, nc)
        },
        Direction::Unchanged => (b, cursor),
    }
}

impl MachineExecutor {
    /// Does the rule match now? True exactly when, for every tape at once,
    /// the symbol under the cursor equals the rule's requirement for it.
    #[verifier::loop_isolation(false)]
    pub fn function_matches_band(&self, transition: &TransitionFunction) -> (r: bool)
        requires
            self@.bands.len() == self@.machine.size,
            self@.bands_cursors.len() == self@.machine.size,
            transition@.bands_requirements.len() == self@.machine.size,
            forall|x: int| 0 <= x < self@.bands.len()
                ==> 0 <= #[trigger] self@.bands_cursors[x] <= self@.bands[x].len(),
        ensures
            r == tf_matches(transition@, self@.bands, self@.bands_cursors, self@.machine.size),
    {
        let mut x: usize = 0;
        while x < self.machine.size
            invariant
                0 <= x <= self.machine.size,
                forall|t: int| 0 <= t < x
                    ==> band_read(#[trigger] self@.bands[t], self@.bands_cursors[t])
                        == transition@.bands_requirements[t],
            decreases self.machine.size - x,
        {
            let cur = self.bands_cursors[x];
            let band = &self.bands[x];
            let required = &transition.bands_requirements[x];
            let matches_here = if cur < band.len() {
                band[cur].eq(required)
            } else {
                required.eq(&blank_symbol())
            };
            if !matches_here {
                assert(band_read(self@.bands[x as int], self@.bands_cursors[x as int])
                    != transition@.bands_requirements[x as int]);
                return false;
            }
            assert(band_read(self@.bands[x as int], self@.bands_cursors[x as int])
                == transition@.bands_requirements[x as int]);
            x += 1;
        }
        true
    }

    /// Fire the rule: write and move on every tape, then make the rule's
    /// destination state current.
    #[verifier::loop_isolation(false)]
    fn apply_transition_to_band(&mut self, transition: &TransitionFunction)
        requires
            old(self)@.wf(),
            tf_wf(
                transition@,
                old(self)@.machine.alphabet,
                old(self)@.machine.states,
                old(self)@.machine.size,
            ),
        ensures
            final(self)@.machine == old(self)@.machine,
            final(self)@.bands == bands_after(
                old(self)@.bands,
                old(self)@.bands_cursors,
                transition@.bands_actions,
            ),
            final(self)@.bands_cursors == cursors_after(
                old(self)@.bands,
                old(self)@.bands_cursors,
                transition@.bands_actions,
            ),
            final(self)@.current_state == bound_state(
                old(self)@.machine.states,
                transition@.next_state_name,
            ),
            final(self)@.wf(),
    {
        let ghost pre = old(self)@;
        let ghost actions = transition@.bands_actions;
        let size = self.machine.size;
        let mut new_bands: Vec<Vec<String>> = Vec::new();
        let mut new_cursors: Vec<usize> = Vec::new();
        let mut x: usize = 0;
        while x < size
            invariant
                0 <= x <= size,
                new_bands@.len() == x,
                new_cursors@.len() == x,
                forall|t: int| 0 <= t < x
                    ==> new_bands.deep_view()[t]
                        == band_step(pre.bands[t], pre.bands_cursors[t], actions[t].0, actions[t].1).0,
                forall|t: int| 0 <= t < x
                    ==> (#[trigger] new_cursors@[t]) as int
                        == band_step(pre.bands[t], pre.bands_cursors[t], actions[t].0, actions[t].1).1,
            decreases size - x,
        {
            let ghost prev = new_bands.deep_view();
            let cur = self.bands_cursors[x];
            let band = &self.bands[x];
            proof {
                assert(pre.bands_cursors[x as int] <= pre.bands[x as int].len());
                assert(cur as int == pre.bands_cursors[x as int]);
                assert(band.deep_view() == pre.bands[x as int]);
            }
            let (nb, nc) = band_step_exec(
                band,
                cur,
                &transition.bands_actions[x].0,
                transition.bands_actions[x].1,
            );
            new_bands.push(nb);
            new_cursors.push(nc);
            proof {
                assert forall|t: int| 0 <= t < x + 1 implies new_bands.deep_view()[t]
                    == band_step(
                    pre.bands[t],
                    pre.bands_cursors[t],
                    actions[t].0,
                    actions[t].1,
                ).0 by {
                    if t < x {
                        assert(new_bands.deep_view()[t] == prev[t]);
                    }
                }
            }
            x += 1;
        }
        self.bands = new_bands;
        self.bands_cursors = new_cursors;
        let st = find_state(&self.machine.states, &transition.next_state_name).unwrap();
        self.current_state = clone_state(st);
        proof {
            assert(self@.bands =~= bands_after(pre.bands, pre.bands_cursors, actions));
            assert(self@.bands_cursors =~= cursors_after(pre.bands, pre.bands_cursors, actions));
            assert forall|t: int| 0 <= t < self@.bands.len() implies 0 <= #[trigger] self@
                .bands_cursors[t] <= self@.bands[t].len() by {
                lemma_band_step_bounds(pre.bands[t], pre.bands_cursors[t], actions[t].0, actions[t].1);
            }
            lemma_bound_state_entry(pre.machine.states, transition@.next_state_name);
            let i = choose|i: int| 0 <= i < pre.machine.states.len()
                && (#[trigger] pre.machine.states[i]).0 == transition@.next_state_name
                && pre.machine.states[i].1 == bound_state(
                pre.machine.states,
                transition@.next_state_name,
            );
            assert(pre.machine.states[i].1 == self@.current_state);
        }
    }

    /// Scan the current state's rules in declaration order; fire the first
    /// whose requirements match every tape, and report its index and content.
    /// When none matches, change nothing and report the end of simulation.
    #[verifier::loop_isolation(false)]
    pub fn next_step(&mut self) -> (r: Option<SimulationStep>)
        requires
            old(self)@.wf(),
        ensures
            final(self)@.wf(),
            final(self)@.machine == old(self)@.machine,
            ({
                let m = old(self)@.machine;
                let tfs = old(self)@.current_state.transition_functions;
                match first_match(tfs, old(self)@.bands, old(self)@.bands_cursors, m.size) {
                    Some(i) => {
                        &&& r matches Some(step) && step.transition_index as int == i
                            && step.transition@ == tfs[i]
                        &&& final(self)@.bands == bands_after(
                            old(self)@.bands,
                            old(self)@.bands_cursors,
                            tfs[i].bands_actions,
                        )
                        &&& final(self)@.bands_cursors == cursors_after(
                            old(self)@.bands,
                            old(self)@.bands_cursors,
                            tfs[i].bands_actions,
                        )
                        &&& final(self)@.current_state == bound_state(
                            m.states,
                            tfs[i].next_state_name,
                        )
                    },
                    None => r is None && *final(self) == *old(self),
                }
            }),
    {
        let ghost pre = old(self)@;
        let ghost tfs = pre.current_state.transition_functions;
        let n = self.current_state.transition_functions.len();
        let mut i: usize = 0;
        while i < n
            invariant
                0 <= i <= n,
                *self == *old(self),
                n == self.current_state.transition_functions@.len(),
                forall|t: int| 0 <= t < i
                    ==> !tf_matches(#[trigger] tfs[t], pre.bands, pre.bands_cursors, pre.machine.size),
            decreases n - i,
        {
            let tfr = &self.current_state.transition_functions[i];
            proof {
                assert(tfr@ == tfs[i as int]);
                assert(tf_wf(tfs[i as int], pre.machine.alphabet, pre.machine.states, pre.machine.size));
            }
            if self.function_matches_band(tfr) {
                proof {
                    lemma_first_match_here(
                        tfs,
                        pre.bands,
                        pre.bands_cursors,
                        pre.machine.size,
                        0,
                        i as int,
                    );
                }
                let tf = clone_tf(&self.current_state.transition_functions[i]);
                self.apply_transition_to_band(&tf);
                return Some(SimulationStep { transition_index: i, transition: tf });
            }
            i += 1;
        }
        proof {
            lemma_first_match_none(tfs, pre.bands, pre.bands_cursors, pre.machine.size, 0);
        }
        None
    }
}

} // verus!
