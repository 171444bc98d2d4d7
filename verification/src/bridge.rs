//! Bridge from the lowered transition table to the runtime machine model.
//!
//! The lowered table is integer-indexed while the runtime machine names its
//! states, so each table state id becomes the state named by its decimal
//! digits; the synthetic terminal 0 becomes the terminal state `"0"` with no
//! rules. The language is single-tape, so the machine has one band. Each case
//! of a compiled step becomes one rule on its symbol: a write-and-move goes
//! to the step's `next` state, an exit operation rewrites the symbol in place
//! and goes to the step's `outer` state, and a halt goes to the terminal. A
//! step's default operation is expanded over every alphabet symbol its cases
//! do not cover. A symbol that neither a case nor a default covers gets no
//! rule: the engine then reports the end of the simulation, and the terminal
//! flag of the final state tells a halt from a stuck machine.

use std::collections::HashMap;

use vstd::prelude::*;

use crate::ast::case_key_present;
use crate::ast::cases_has;
use crate::ast::OpV;
use crate::ast::StepV;
use crate::ast::TmDir;
use crate::ast::TmOperation;
use crate::ast::TmStep;
use crate::lower::table_view;
use crate::tm::binds_state;
use crate::tm::blank;
use crate::tm::blank_symbol;
use crate::tm::contains_symbol;
use crate::tm::declares;
use crate::tm::states_error;
use crate::tm::with_blank;
use crate::tm::Direction;
use crate::tm::Machine;
use crate::tm::MachineError;
use crate::tm::State;
use crate::tm::StateV;
use crate::tm::TransFnV;
use crate::tm::TransitionFunction;

verus! {

/// The decimal digit character of a value below ten.
pub open spec fn digit_char(d: int) -> char {
    if d == 0 {
        '0'
    } else if d == 1 {
        '1'
    } else if d == 2 {
        '2'
    } else if d == 3 {
        '3'
    } else if d == 4 {
        '4'
    } else if d == 5 {
        '5'
    } else if d == 6 {
        '6'
    } else if d == 7 {
        '7'
    } else if d == 8 {
        '8'
    } else {
        '9'
    }
}

/// The decimal digits of a state id; the name of that state.
pub open spec fn spec_name(n: int) -> Seq<char>
    decreases n,
{
    if n <= 9 {
        seq![digit_char(n)]
    } else {
        spec_name(n / 10).push(digit_char(n % 10))
    }
}

/// One decimal digit as text.
fn digit_str(d: u32) -> (r: &'static str)
    requires
        d < 10,
    ensures
        r@ == seq![digit_char(d as int)],
{
    let r: &'static str = match d {
        0 => "0",
        1 => "1",
        2 => "2",
        3 => "3",
        4 => "4",
        5 => "5",
        6 => "6",
        7 => "7",
        8 => "8",
        _ => "9",
    };
    proof {
        reveal_strlit("0");
        reveal_strlit("1");
        reveal_strlit("2");
        reveal_strlit("3");
        reveal_strlit("4");
        reveal_strlit("5");
        reveal_strlit("6");
        reveal_strlit("7");
        reveal_strlit("8");
        reveal_strlit("9");
        assert(r@ =~= seq![digit_char(d as int)]);
    }
    r
}

/// The name of a state id, as a heap string of its decimal digits.
pub fn state_name(n: u32) -> (r: String)
    ensures
        r@ == spec_name(n as int),
    decreases n,
{
    if n <= 9 {
        let mut s = String::new();
        s.append(digit_str(n));
        proof {
            assert(s@ =~= spec_name(n as int));
        }
        s
    } else {
        let mut s = state_name(n / 10);
        s.append(digit_str(n % 10));
        proof {
            assert(s@ =~= spec_name(n as int));
        }
        s
    }
}

/// The tape move a source-level direction stands for.
pub open spec fn dir_of(d: TmDir) -> Direction {
    match d {
        TmDir::Left => Direction::Left,
        TmDir::Right => Direction::Right,
        TmDir::Stay => Direction::Unchanged,
    }
}

/// The rule one case of a compiled step becomes, on one tape: a write-and-
/// move continues at `next`, an exit rewrites the symbol in place and
/// continues at `outer`, a halt does so at the terminal.
pub open spec fn tf_of_case(origin: int, sym: Seq<char>, op: OpV, next: int, outer: int) -> TransFnV {
    match op {
        OpV::Move { replace, direction } => TransFnV {
            origin: spec_name(origin),
            bands_requirements: seq![sym],
            bands_actions: seq![
                (match replace { Some(w) => w, None => sym }, dir_of(direction)),
            ],
            next_state_name: spec_name(next),
        },
        OpV::Break => TransFnV {
            origin: spec_name(origin),
            bands_requirements: seq![sym],
            bands_actions: seq![(sym, Direction::Unchanged)],
            next_state_name: spec_name(outer),
        },
        OpV::Halt => TransFnV {
            origin: spec_name(origin),
            bands_requirements: seq![sym],
            bands_actions: seq![(sym, Direction::Unchanged)],
            next_state_name: spec_name(0),
        },
    }
}

/// The rules of a step's explicit cases, in case order.
pub open spec fn tfs_of_cases(
    origin: int,
    cases: Seq<(Seq<char>, OpV)>,
    next: int,
    outer: int,
) -> Seq<TransFnV> {
    Seq::new(cases.len(), |i: int| tf_of_case(origin, cases[i].0, cases[i].1, next, outer))
}

/// The rules a default operation expands to: one per alphabet symbol that no
/// explicit case covers, in alphabet order.
pub open spec fn tfs_of_default(
    origin: int,
    alphabet: Seq<Seq<char>>,
    cases: Seq<(Seq<char>, OpV)>,
    op: OpV,
    next: int,
    outer: int,
) -> Seq<TransFnV>
    decreases alphabet.len(),
{
    if alphabet.len() == 0 {
        Seq::empty()
    } else {
        (if cases_has(cases, alphabet[0]) {
            Seq::<TransFnV>::empty()
        } else {
            seq![tf_of_case(origin, alphabet[0], op, next, outer)]
        }) + tfs_of_default(origin, alphabet.skip(1), cases, op, next, outer)
    }
}

/// The named state one table entry becomes.
pub open spec fn state_of_entry(
    origin: int,
    step: StepV,
    next: int,
    outer: int,
    alphabet: Seq<Seq<char>>,
) -> StateV {
    StateV {
        transition_functions: tfs_of_cases(origin, step.cases, next, outer) + (match step.default {
            Some(op) => tfs_of_default(origin, alphabet, step.cases, op, next, outer),
            None => Seq::<TransFnV>::empty(),
        }),
        is_end_state: false,
    }
}

/// The named states of the table ids in `[lo, hi)`, ascending.
pub open spec fn entries_between(
    t: Map<int, (StepV, int, int)>,
    lo: int,
    hi: int,
    alphabet: Seq<Seq<char>>,
) -> Seq<(Seq<char>, StateV)>
    decreases hi - lo,
{
    if lo >= hi {
        Seq::empty()
    } else {
        (if t.contains_key(lo) {
            seq![(spec_name(lo), state_of_entry(lo, t[lo].0, t[lo].1, t[lo].2, alphabet))]
        } else {
            Seq::<(Seq<char>, StateV)>::empty()
        }) + entries_between(t, lo + 1, hi, alphabet)
    }
}

/// The terminal state `"0"` followed by the named states of every table id
/// below `bound`.
pub open spec fn bridge_states(
    t: Map<int, (StepV, int, int)>,
    bound: int,
    alphabet: Seq<Seq<char>>,
) -> Seq<(Seq<char>, StateV)> {
    seq![
        (spec_name(0), StateV { transition_functions: Seq::empty(), is_end_state: true }),
    ] + entries_between(t, 1, bound, alphabet)
}

/// The start state of the bridged machine: the compiled entry point when the
/// table binds it, else the terminal.
pub open spec fn bridge_start(t: Map<int, (StepV, int, int)>) -> Seq<char> {
    if t.contains_key(1) {
        spec_name(1)
    } else {
        spec_name(0)
    }
}

/// The rule one exec case becomes; the exec twin of [`tf_of_case`].
fn tf_of_case_exec(origin: u32, sym: &String, op: &TmOperation, next: u32, outer: u32) -> (r:
    TransitionFunction)
    ensures
        r@ == tf_of_case(origin as int, sym@, op@, next as int, outer as int),
{
    let r = match op {
        TmOperation::Move { replace, direction } => {
            let write = match replace {
                Some(w) => w.clone(),
                None => sym.clone(),
            };
            let dir = match direction {
                TmDir::Left => Direction::Left,
                TmDir::Right => Direction::Right,
                TmDir::Stay => Direction::Unchanged,
            };
            TransitionFunction {
                origin: state_name(origin),
                bands_requirements: vec![sym.clone()],
                bands_actions: vec![(write, dir)],
                next_state_name: state_name(next),
            }
        },
        TmOperation::Break => TransitionFunction {
            origin: state_name(origin),
            bands_requirements: vec![sym.clone()],
            bands_actions: vec![(sym.clone(), Direction::Unchanged)],
            next_state_name: state_name(outer),
        },
        TmOperation::Halt => TransitionFunction {
            origin: state_name(origin),
            bands_requirements: vec![sym.clone()],
            bands_actions: vec![(sym.clone(), Direction::Unchanged)],
            next_state_name: state_name(0),
        },
    };
    proof {
        assert(r@.bands_requirements =~= tf_of_case(
            origin as int, sym@, op@, next as int, outer as int,
        ).bands_requirements);
        assert(r@.bands_actions =~= tf_of_case(
            origin as int, sym@, op@, next as int, outer as int,
        ).bands_actions);
    }
    r
}

/// The named state one exec table entry becomes; the exec twin of
/// [`state_of_entry`].
#[verifier::loop_isolation(false)]
fn state_of_entry_exec(origin: u32, step: &TmStep, next: u32, outer: u32, alphabet: &Vec<String>)
    -> (r: State)
    ensures
        r@ == state_of_entry(origin as int, step@, next as int, outer as int, alphabet.deep_view()),
{
    let ghost cases_v = step@.cases;
    let ghost alpha = alphabet.deep_view();
    let mut tfs: Vec<TransitionFunction> = Vec::new();
    let mut i: usize = 0;
    while i < step.cases.len()
        invariant
            0 <= i <= step.cases.len(),
            tfs@.len() == i,
            forall|k: int| 0 <= k < i
                ==> tfs.deep_view()[k] == tfs_of_cases(
                    origin as int, cases_v, next as int, outer as int,
                )[k],
        decreases step.cases.len() - i,
    {
        let ghost prev = tfs.deep_view();
        let tf = tf_of_case_exec(origin, &step.cases[i].0, &step.cases[i].1, next, outer);
        tfs.push(tf);
        proof {
            assert forall|k: int| 0 <= k < i + 1 implies tfs.deep_view()[k] == tfs_of_cases(
                origin as int, cases_v, next as int, outer as int,
            )[k] by {
                if k < i {
                    assert(tfs.deep_view()[k] == prev[k]);
                }
            }
        }
        i += 1;
    }
    proof {
        assert(tfs.deep_view() =~= tfs_of_cases(origin as int, cases_v, next as int, outer as int));
    }
    let ghost explicit = tfs.deep_view();
    if let Some(op) = &step.default {
        let ghost opv = op@;
        let ghost target = tfs_of_default(
            origin as int, alpha, cases_v, opv, next as int, outer as int,
        );
        proof {
            assert(alpha.skip(0) =~= alpha);
        }
        let mut a: usize = 0;
        while a < alphabet.len()
            invariant
                0 <= a <= alphabet.len(),
                explicit + target == tfs.deep_view() + tfs_of_default(
                    origin as int, alpha.skip(a as int), cases_v, opv, next as int, outer as int,
                ),
            decreases alphabet.len() - a,
        {
            let ghost before = tfs.deep_view();
            let ghost suffix = alpha.skip(a as int);
            proof {
                assert(suffix[0] == alpha[a as int]);
                assert(suffix.skip(1) =~= alpha.skip(a as int + 1));
            }
            if !case_key_present(&step.cases, &alphabet[a]) {
                let tf = tf_of_case_exec(origin, &alphabet[a], op, next, outer);
                let ghost tfv = tf@;
                tfs.push(tf);
                proof {
                    assert(tfs.deep_view() =~= before.push(tfv));
                    assert forall|xs: Seq<TransFnV>| #[trigger] (tfs.deep_view() + xs)
                        == before + (seq![tfv] + xs) by {
                        assert(tfs.deep_view() + xs =~= before + (seq![tfv] + xs));
                    }
                }
            } else {
                proof {
                    assert(tfs_of_default(
                        origin as int, suffix, cases_v, opv, next as int, outer as int,
                    ) == Seq::<TransFnV>::empty() + tfs_of_default(
                        origin as int, suffix.skip(1), cases_v, opv, next as int, outer as int,
                    ));
                    assert(Seq::<TransFnV>::empty() + tfs_of_default(
                        origin as int, suffix.skip(1), cases_v, opv, next as int, outer as int,
                    ) =~= tfs_of_default(
                        origin as int, suffix.skip(1), cases_v, opv, next as int, outer as int,
                    ));
                }
            }
            a += 1;
        }
        proof {
            assert(alpha.skip(alphabet@.len() as int) =~= Seq::<Seq<char>>::empty());
            assert(explicit + target =~= tfs.deep_view());
        }
    } else {
        proof {
            assert(explicit + Seq::<TransFnV>::empty() =~= explicit);
        }
    }
    let r = State { transition_functions: tfs, is_end_state: false };
    proof {
        assert(r@ =~~= state_of_entry(
            origin as int, step@, next as int, outer as int, alphabet.deep_view(),
        ));
    }
    r
}

/// Build a runtime machine from a lowered transition table, naming each
/// state id below `bound` by its decimal digits, with the terminal state
/// `"0"` and one tape; the result is validated by machine construction.
#[verifier::loop_isolation(false)]
pub fn machine_from_table(
    table: &HashMap<u32, (TmStep, u32, u32)>,
    bound: u32,
    alphabet: Vec<String>,
) -> (r: Result<Machine, MachineError>)
    ensures
        ({
            let t = table_view(table@);
            let alpha = with_blank(alphabet.deep_view());
            let sts = bridge_states(t, bound as int, alpha);
            let start = bridge_start(t);
            &&& (r is Ok <==> binds_state(sts, start) && states_error(sts, alpha, sts, 1) is None)
            &&& (r matches Ok(m) ==> {
                &&& m@.alphabet == alpha
                &&& m@.size == 1
                &&& m@.states == sts
                &&& m@.start_state_name == start
                &&& m@.wf()
            })
            &&& (r matches Err(e) ==> (!binds_state(sts, start) && e == MachineError::StartStateMissing)
                || states_error(sts, alpha, sts, 1) == Some(e))
        }),
{
    broadcast use vstd::std_specs::hash::group_hash_axioms;

    let ghost t = table_view(table@);
    let ghost alpha = with_blank(alphabet.deep_view());
    let mut alphabet = alphabet;
    let blank_sym = blank_symbol();
    if !contains_symbol(&alphabet, &blank_sym) {
        alphabet.push(blank_sym);
        assert(alphabet.deep_view()[alphabet.deep_view().len() - 1] == blank());
    }
    assert(alphabet.deep_view() =~= alpha);
    assert(declares(alphabet.deep_view(), blank()));
    assert(with_blank(alphabet.deep_view()) == alphabet.deep_view());
    let mut states: Vec<(String, State)> = Vec::new();
    states.push((state_name(0), State { transition_functions: Vec::new(), is_end_state: true }));
    proof {
        assert(states.deep_view() =~~= seq![
            (spec_name(0), StateV { transition_functions: Seq::<TransFnV>::empty(), is_end_state: true }),
        ]);
        assert(bridge_states(t, bound as int, alpha) == states.deep_view() + entries_between(
            t, 1, bound as int, alpha,
        ));
    }
    let mut id: u32 = 1;
    while id < bound
        invariant
            1 <= id <= bound || (bound < 1 && id == 1),
            bridge_states(t, bound as int, alpha) == states.deep_view() + entries_between(
                t,
                id as int,
                bound as int,
                alpha,
            ),
        decreases bound - id,
    {
        let ghost before = states.deep_view();
        let ghost suffix = entries_between(t, id as int, bound as int, alpha);
        if let Some(entry) = table.get(&id) {
            proof {
                assert(t.contains_key(id as int));
                assert(t[id as int] == (entry.0@, entry.1 as int, entry.2 as int));
            }
            let st = state_of_entry_exec(id, &entry.0, entry.1, entry.2, &alphabet);
            let name = state_name(id);
            let ghost ev = (name@, st@);
            states.push((name, st));
            proof {
                assert(states.deep_view() =~= before.push(ev));
                assert forall|xs: Seq<(Seq<char>, StateV)>| #[trigger] (states.deep_view() + xs)
                    == before + (seq![ev] + xs) by {
                    assert(states.deep_view() + xs =~= before + (seq![ev] + xs));
                }
            }
        } else {
            proof {
                assert(!t.contains_key(id as int));
                assert(suffix == Seq::<(Seq<char>, StateV)>::empty() + entries_between(
                    t, id as int + 1, bound as int, alpha,
                ));
                assert(Seq::<(Seq<char>, StateV)>::empty() + entries_between(
                    t, id as int + 1, bound as int, alpha,
                ) =~= entries_between(t, id as int + 1, bound as int, alpha));
            }
        }
        id += 1;
    }
    proof {
        assert(entries_between(t, id as int, bound as int, alpha)
            =~= Seq::<(Seq<char>, StateV)>::empty());
        assert(states.deep_view() + Seq::<(Seq<char>, StateV)>::empty() =~= states.deep_view());
    }
    let start = if table.contains_key(&1) {
        state_name(1)
    } else {
        state_name(0)
    };
    Machine::new(alphabet, 1, states, start)
}

} // verus!
