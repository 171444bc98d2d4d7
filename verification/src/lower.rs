//! Lowering: flattens the structured statements of a definition into a
//! numbered transition table.
//!
//! The table maps a state id to a step together with two continuations:
//! `next`, where a matched case resumes, and `outer`, where the nearest
//! enclosing construct exits (the target of `break`-like operations and of a
//! branch's no-match path). State id 1 is the entry point of the compiled
//! program; id 0 is the implicit terminal continuation and never a key; fresh
//! ids are drawn from a counter starting at 2 and are otherwise opaque.

use std::collections::HashMap;

use vstd::prelude::*;

use crate::ast::stmt_view;
use crate::ast::stmts_view;
use crate::ast::StepV;
use crate::ast::StmtV;
use crate::ast::TmDef;
use crate::ast::TmStep;
use crate::ast::TmStmt;

verus! {

broadcast use vstd::std_specs::hash::group_hash_axioms;

/// The mathematical content of a lowered table: state id to (step, next,
/// outer).
pub open spec fn table_view(m: Map<u32, (TmStep, u32, u32)>) -> Map<int, (StepV, int, int)> {
    Map::new(
        |k: int| 0 <= k <= u32::MAX && m.contains_key(k as u32),
        |k: int| (m[k as u32].0@, m[k as u32].1 as int, m[k as u32].2 as int),
    )
}

/// How many fresh state ids lowering a statement may consume, plus one.
pub open spec fn stmt_weight(s: StmtV) -> int
    decreases s,
{
    match s {
        StmtV::Step(_) => 1,
        StmtV::Cycle(body) => 1 + stmts_weight(body),
        StmtV::Branch { condition: _, body } => 2 + stmts_weight(body),
    }
}

/// How many fresh state ids lowering a statement list may consume, plus one.
pub open spec fn stmts_weight(stmts: Seq<StmtV>) -> int
    decreases stmts,
{
    if stmts.len() == 0 {
        1
    } else {
        stmt_weight(stmts[0]) + stmts_weight(stmts.skip(1))
    }
}

/// Every weight is at least one.
pub proof fn lemma_stmt_weight_pos(s: StmtV)
    ensures
        stmt_weight(s) >= 1,
    decreases s,
{
    match s {
        StmtV::Step(_) => {},
        StmtV::Cycle(body) => lemma_stmts_weight_pos(body),
        StmtV::Branch { condition: _, body } => lemma_stmts_weight_pos(body),
    }
}

/// Every list weight is at least one.
pub proof fn lemma_stmts_weight_pos(stmts: Seq<StmtV>)
    ensures
        stmts_weight(stmts) >= 1,
    decreases stmts,
{
    if stmts.len() > 0 {
        lemma_stmt_weight_pos(stmts[0]);
        lemma_stmts_weight_pos(stmts.skip(1));
    }
}

/// Lower one statement at state `curr`, resuming at `next`, with enclosing
/// exit `outer`; fresh ids are drawn from `ctr`. Returns the grown table and
/// the new counter.
pub open spec fn lower_stmt(
    table: Map<int, (StepV, int, int)>,
    s: StmtV,
    curr: int,
    next: int,
    outer: int,
    ctr: int,
) -> (Map<int, (StepV, int, int)>, int)
    decreases s,
{
    match s {
        StmtV::Step(st) => (table.insert(curr, (st, next, outer)), ctr),
        StmtV::Cycle(body) => lower_stmts(table, body, curr, curr, next, ctr),
        StmtV::Branch { condition, body } => {
            let body_st = ctr;
            lower_stmts(
                table.insert(curr, (condition, body_st, next)),
                body,
                body_st,
                outer,
                outer,
                ctr + 1,
            )
        },
    }
}

/// Lower a statement list: the first statement enters at `curr`, each other
/// statement at a fresh id; each statement but the last resumes at its
/// successor's entry, the last at the list's own `next`.
pub open spec fn lower_stmts(
    table: Map<int, (StepV, int, int)>,
    stmts: Seq<StmtV>,
    curr: int,
    next: int,
    outer: int,
    ctr: int,
) -> (Map<int, (StepV, int, int)>, int)
    decreases stmts,
{
    if stmts.len() == 0 {
        (table, ctr)
    } else if stmts.len() == 1 {
        lower_stmt(table, stmts[0], curr, next, outer, ctr)
    } else {
        let entry_next = ctr;
        let grown = lower_stmt(table, stmts[0], curr, entry_next, outer, ctr + 1);
        lower_stmts(grown.0, stmts.skip(1), entry_next, next, outer, grown.1)
    }
}

/// The whole lowered table of a top-level block: entry at state 1,
/// terminating at the synthetic state 0.
pub open spec fn lower_def(block: Seq<StmtV>) -> Map<int, (StepV, int, int)> {
    lower_stmts(Map::empty(), block, 1, 0, 0, 2).0
}

/// The counter grows by less than the weight.
pub proof fn lemma_lower_stmt_bounds(
    table: Map<int, (StepV, int, int)>,
    s: StmtV,
    curr: int,
    next: int,
    outer: int,
    ctr: int,
)
    ensures
        ctr <= lower_stmt(table, s, curr, next, outer, ctr).1 <= ctr + stmt_weight(s) - 1,
    decreases s,
{
    match s {
        StmtV::Step(_) => {},
        StmtV::Cycle(body) => {
            lemma_lower_stmts_bounds(table, body, curr, curr, next, ctr);
        },
        StmtV::Branch { condition, body } => {
            lemma_lower_stmts_bounds(
                table.insert(curr, (condition, ctr, next)),
                body,
                ctr,
                outer,
                outer,
                ctr + 1,
            );
        },
    }
}

/// The counter grows by less than the list weight.
pub proof fn lemma_lower_stmts_bounds(
    table: Map<int, (StepV, int, int)>,
    stmts: Seq<StmtV>,
    curr: int,
    next: int,
    outer: int,
    ctr: int,
)
    ensures
        ctr <= lower_stmts(table, stmts, curr, next, outer, ctr).1
            <= ctr + stmts_weight(stmts) - 1,
    decreases stmts,
{
    lemma_stmts_weight_pos(stmts);
    if stmts.len() == 1 {
        lemma_lower_stmt_bounds(table, stmts[0], curr, next, outer, ctr);
        lemma_stmts_weight_pos(stmts.skip(1));
    } else if stmts.len() > 1 {
        lemma_lower_stmt_bounds(table, stmts[0], curr, ctr, outer, ctr + 1);
        let grown = lower_stmt(table, stmts[0], curr, ctr, outer, ctr + 1);
        lemma_lower_stmts_bounds(grown.0, stmts.skip(1), ctr, next, outer, grown.1);
    }
}

/// Every nested block of the statement holds at least one statement.
pub open spec fn stmt_blocks_nonempty(s: StmtV) -> bool
    decreases s,
{
    match s {
        StmtV::Step(_) => true,
        StmtV::Cycle(body) => body.len() > 0 && stmts_blocks_nonempty(body),
        StmtV::Branch { condition: _, body } => body.len() > 0 && stmts_blocks_nonempty(body),
    }
}

/// Every nested block of every listed statement holds at least one statement.
pub open spec fn stmts_blocks_nonempty(stmts: Seq<StmtV>) -> bool
    decreases stmts,
{
    if stmts.len() == 0 {
        true
    } else {
        stmt_blocks_nonempty(stmts[0]) && stmts_blocks_nonempty(stmts.skip(1))
    }
}

/// A continuation target is resolved: the terminal, one of the two
/// continuation parameters, or a key of the table.
pub open spec fn target_ok(m: Map<int, (StepV, int, int)>, next: int, outer: int, t: int) -> bool {
    t == 0 || t == next || t == outer || m.contains_key(t)
}

/// What lowering one statement does to the table: it binds exactly `curr`
/// and the fresh ids it consumed, it keeps every earlier entry, and every
/// continuation of a new entry is resolved.
proof fn lemma_lower_stmt_props(
    table: Map<int, (StepV, int, int)>,
    s: StmtV,
    curr: int,
    next: int,
    outer: int,
    ctr: int,
)
    requires
        stmt_blocks_nonempty(s),
        1 <= curr < ctr,
        !table.contains_key(curr),
        forall|k: int| k >= ctr ==> !(#[trigger] table.contains_key(k)),
    ensures
        forall|k: int| #[trigger] lower_stmt(table, s, curr, next, outer, ctr).0.contains_key(k)
            <==> table.contains_key(k) || k == curr
                || (ctr <= k < lower_stmt(table, s, curr, next, outer, ctr).1),
        forall|k: int| #[trigger] table.contains_key(k)
            ==> lower_stmt(table, s, curr, next, outer, ctr).0[k] == table[k],
        forall|k: int|
            #[trigger] lower_stmt(table, s, curr, next, outer, ctr).0.contains_key(k)
                && !table.contains_key(k) ==> {
                let m = lower_stmt(table, s, curr, next, outer, ctr).0;
                target_ok(m, next, outer, m[k].1) && target_ok(m, next, outer, m[k].2)
            },
    decreases s,
{
    lemma_lower_stmt_bounds(table, s, curr, next, outer, ctr);
    match s {
        StmtV::Step(st) => {
            let m = lower_stmt(table, s, curr, next, outer, ctr).0;
            let c = lower_stmt(table, s, curr, next, outer, ctr).1;
            assert(m == table.insert(curr, (st, next, outer)));
            assert(c == ctr);
            assert forall|k: int| #[trigger] m.contains_key(k)
                <==> table.contains_key(k) || k == curr || (ctr <= k < c) by {}
            assert forall|k: int| #[trigger] table.contains_key(k)
                implies m[k] == table[k] by {
                assert(k != curr);
            }
            assert forall|k: int| #[trigger] m.contains_key(k) && !table.contains_key(k)
                implies target_ok(m, next, outer, m[k].1) && target_ok(m, next, outer, m[k].2) by {
                assert(k == curr);
                assert(m[k] == (st, next, outer));
            }
        },
        StmtV::Cycle(body) => {
            lemma_lower_stmts_props(table, body, curr, curr, next, ctr);
            let m = lower_stmts(table, body, curr, curr, next, ctr).0;
            assert(lower_stmt(table, s, curr, next, outer, ctr).0 == m);
            assert(lower_stmt(table, s, curr, next, outer, ctr).1
                == lower_stmts(table, body, curr, curr, next, ctr).1);
            assert(m.contains_key(curr));
            assert forall|k: int| #[trigger] m.contains_key(k) && !table.contains_key(k)
                implies target_ok(m, next, outer, m[k].1) && target_ok(m, next, outer, m[k].2) by {
                assert(target_ok(m, curr, next, m[k].1));
                assert(target_ok(m, curr, next, m[k].2));
            }
        },
        StmtV::Branch { condition, body } => {
            let t1 = table.insert(curr, (condition, ctr, next));
            lemma_lower_stmts_bounds(t1, body, ctr, outer, outer, ctr + 1);
            lemma_lower_stmts_props(t1, body, ctr, outer, outer, ctr + 1);
            let m = lower_stmts(t1, body, ctr, outer, outer, ctr + 1).0;
            let c = lower_stmts(t1, body, ctr, outer, outer, ctr + 1).1;
            assert(lower_stmt(table, s, curr, next, outer, ctr).0 == m);
            assert(lower_stmt(table, s, curr, next, outer, ctr).1 == c);
            assert(m.contains_key(ctr));
            assert(t1.contains_key(curr));
            assert(m[curr] == t1[curr]);
            assert forall|k: int| #[trigger] m.contains_key(k)
                <==> table.contains_key(k) || k == curr || (ctr <= k < c) by {}
            assert forall|k: int| #[trigger] table.contains_key(k)
                implies m[k] == table[k] by {
                assert(k != curr);
                assert(t1.contains_key(k) && t1[k] == table[k]);
            }
            assert forall|k: int| #[trigger] m.contains_key(k) && !table.contains_key(k)
                implies target_ok(m, next, outer, m[k].1) && target_ok(m, next, outer, m[k].2) by {
                if k == curr {
                    assert(m[k] == (condition, ctr, next));
                } else {
                    assert(target_ok(m, outer, outer, m[k].1));
                    assert(target_ok(m, outer, outer, m[k].2));
                }
            }
        },
    }
}

/// What lowering a non-empty statement list does to the table; as for one
/// statement.
proof fn lemma_lower_stmts_props(
    table: Map<int, (StepV, int, int)>,
    stmts: Seq<StmtV>,
    curr: int,
    next: int,
    outer: int,
    ctr: int,
)
    requires
        stmts.len() > 0,
        stmts_blocks_nonempty(stmts),
        1 <= curr < ctr,
        !table.contains_key(curr),
        forall|k: int| k >= ctr ==> !(#[trigger] table.contains_key(k)),
    ensures
        forall|k: int| #[trigger] lower_stmts(table, stmts, curr, next, outer, ctr).0.contains_key(k)
            <==> table.contains_key(k) || k == curr
                || (ctr <= k < lower_stmts(table, stmts, curr, next, outer, ctr).1),
        forall|k: int| #[trigger] table.contains_key(k)
            ==> lower_stmts(table, stmts, curr, next, outer, ctr).0[k] == table[k],
        forall|k: int|
            #[trigger] lower_stmts(table, stmts, curr, next, outer, ctr).0.contains_key(k)
                && !table.contains_key(k) ==> {
                let m = lower_stmts(table, stmts, curr, next, outer, ctr).0;
                target_ok(m, next, outer, m[k].1) && target_ok(m, next, outer, m[k].2)
            },
    decreases stmts,
{
    lemma_lower_stmts_bounds(table, stmts, curr, next, outer, ctr);
    if stmts.len() == 1 {
        lemma_lower_stmt_props(table, stmts[0], curr, next, outer, ctr);
        assert(lower_stmts(table, stmts, curr, next, outer, ctr).0
            == lower_stmt(table, stmts[0], curr, next, outer, ctr).0);
        assert(lower_stmts(table, stmts, curr, next, outer, ctr).1
            == lower_stmt(table, stmts[0], curr, next, outer, ctr).1);
    } else {
        let grown = lower_stmt(table, stmts[0], curr, ctr, outer, ctr + 1);
        lemma_lower_stmt_bounds(table, stmts[0], curr, ctr, outer, ctr + 1);
        lemma_lower_stmt_props(table, stmts[0], curr, ctr, outer, ctr + 1);
        lemma_lower_stmts_bounds(grown.0, stmts.skip(1), ctr, next, outer, grown.1);
        lemma_lower_stmts_props(grown.0, stmts.skip(1), ctr, next, outer, grown.1);
        let m = lower_stmts(grown.0, stmts.skip(1), ctr, next, outer, grown.1).0;
        let c = lower_stmts(grown.0, stmts.skip(1), ctr, next, outer, grown.1).1;
        assert(lower_stmts(table, stmts, curr, next, outer, ctr).0 == m);
        assert(lower_stmts(table, stmts, curr, next, outer, ctr).1 == c);
        assert(m.contains_key(ctr));
        assert forall|k: int| #[trigger] m.contains_key(k)
            <==> table.contains_key(k) || k == curr || (ctr <= k < c) by {}
        assert forall|k: int| #[trigger] table.contains_key(k)
            implies m[k] == table[k] by {
            assert(grown.0.contains_key(k) && grown.0[k] == table[k]);
            assert(m[k] == grown.0[k]);
        }
        assert forall|k: int| #[trigger] m.contains_key(k) && !table.contains_key(k)
            implies target_ok(m, next, outer, m[k].1) && target_ok(m, next, outer, m[k].2) by {
            if grown.0.contains_key(k) {
                assert(m[k] == grown.0[k]);
                assert(target_ok(grown.0, ctr, outer, grown.0[k].1));
                assert(target_ok(grown.0, ctr, outer, grown.0[k].2));
            } else {
                assert(target_ok(m, next, outer, m[k].1));
                assert(target_ok(m, next, outer, m[k].2));
            }
        }
    }
}

/// Lowering reachability: in the table a top-level block lowers to, every
/// state id referenced as a `next` or `outer` continuation is either the
/// synthetic terminal 0 or itself a key of the table: no dangling jumps.
pub proof fn lemma_lowering_reachability(block: Seq<StmtV>)
    requires
        stmts_blocks_nonempty(block),
    ensures
        forall|k: int| #[trigger] lower_def(block).contains_key(k) ==> {
            let e = lower_def(block)[k];
            &&& (e.1 == 0 || lower_def(block).contains_key(e.1))
            &&& (e.2 == 0 || lower_def(block).contains_key(e.2))
        },
{
    if block.len() > 0 {
        lemma_lower_stmts_props(Map::empty(), block, 1, 0, 0, 2);
    }
}

/// The step a statement carries, when it is a plain step.
pub open spec fn step_of(s: StmtV) -> StepV {
    match s {
        StmtV::Step(st) => st,
        _ => StepV { cases: Seq::empty(), default: None },
    }
}

/// The last statement of a list, lowered with the list's own continuations.
proof fn lemma_lower_stmts_last_step(
    table: Map<int, (StepV, int, int)>,
    stmts: Seq<StmtV>,
    curr: int,
    next: int,
    outer: int,
    ctr: int,
)
    requires
        stmts.len() > 0,
        stmts.last() is Step,
    ensures
        ({
            let m = lower_stmts(table, stmts, curr, next, outer, ctr).0;
            exists|e: int| #[trigger] m.contains_key(e)
                && m[e] == (step_of(stmts.last()), next, outer)
        }),
    decreases stmts,
{
    let m = lower_stmts(table, stmts, curr, next, outer, ctr).0;
    if stmts.len() == 1 {
        assert(stmts[0] == stmts.last());
        assert(m == lower_stmt(table, stmts[0], curr, next, outer, ctr).0);
        assert(m.contains_key(curr) && m[curr] == (step_of(stmts.last()), next, outer));
    } else {
        let grown = lower_stmt(table, stmts[0], curr, ctr, outer, ctr + 1);
        assert(stmts.skip(1).last() == stmts.last());
        lemma_lower_stmts_last_step(grown.0, stmts.skip(1), ctr, next, outer, grown.1);
    }
}

/// Cycle semantics: lowering `cycle { body }` whose last statement is a plain
/// step records that step with its continuation at the cycle's own entry
/// state — control returns to the start of the body, not to what follows the
/// cycle — and with its exit at what follows the cycle, so a `break` deep
/// inside leaves the loop.
pub proof fn lemma_cycle_semantics(
    table: Map<int, (StepV, int, int)>,
    body: Seq<StmtV>,
    curr: int,
    next: int,
    outer: int,
    ctr: int,
)
    requires
        body.len() > 0,
        body.last() is Step,
    ensures
        ({
            let m = lower_stmt(table, StmtV::Cycle(body), curr, next, outer, ctr).0;
            exists|e: int| #[trigger] m.contains_key(e)
                && m[e] == (step_of(body.last()), curr, next)
        }),
{
    lemma_lower_stmts_last_step(table, body, curr, curr, next, ctr);
    assert(lower_stmt(table, StmtV::Cycle(body), curr, next, outer, ctr).0
        == lower_stmts(table, body, curr, curr, next, ctr).0);
}

/// Inserting into the exec table inserts into its content.
proof fn lemma_table_view_insert(m: Map<u32, (TmStep, u32, u32)>, k: u32, v: (TmStep, u32, u32))
    ensures
        table_view(m.insert(k, v)) == table_view(m).insert(
            k as int,
            (v.0@, v.1 as int, v.2 as int),
        ),
{
    assert(table_view(m.insert(k, v)) =~= table_view(m).insert(
        k as int,
        (v.0@, v.1 as int, v.2 as int),
    ));
}

/// Lower one statement into the table; the exec twin of [`lower_stmt`].
fn lower_stmt_exec(
    table: &mut HashMap<u32, (TmStep, u32, u32)>,
    s: TmStmt,
    curr: u32,
    next: u32,
    outer: u32,
    ctr: &mut u32,
)
    requires
        *old(ctr) as int + stmt_weight(stmt_view(s)) - 1 <= u32::MAX as int,
    ensures
        table_view(final(table)@) == lower_stmt(
            table_view(old(table)@),
            stmt_view(s),
            curr as int,
            next as int,
            outer as int,
            *old(ctr) as int,
        ).0,
        *final(ctr) as int == lower_stmt(
            table_view(old(table)@),
            stmt_view(s),
            curr as int,
            next as int,
            outer as int,
            *old(ctr) as int,
        ).1,
    decreases stmt_weight(stmt_view(s)),
{
    proof {
        lemma_stmt_weight_pos(stmt_view(s));
    }
    match s {
        TmStmt::Step(step) => {
            let ghost entry = (step@, next as int, outer as int);
            table.insert(curr, (step, next, outer));
            proof {
                lemma_table_view_insert(old(table)@, curr, (table@[curr].0, next, outer));
                assert(table_view(table@) =~= table_view(old(table)@).insert(curr as int, entry));
            }
        },
        TmStmt::Cycle(body) => {
            proof {
                lemma_stmts_weight_pos(stmts_view(body.0@));
            }
            lower_stmts_exec(table, body.0, curr, curr, next, ctr);
        },
        TmStmt::Branch { condition, body } => {
            proof {
                lemma_stmts_weight_pos(stmts_view(body.0@));
            }
            let body_st = *ctr;
            *ctr = *ctr + 1;
            let ghost t0 = table_view(old(table)@);
            let ghost entry = (condition@, body_st as int, next as int);
            table.insert(curr, (condition, body_st, next));
            proof {
                lemma_table_view_insert(old(table)@, curr, (table@[curr].0, body_st, next));
                assert(table_view(table@) =~= t0.insert(curr as int, entry));
            }
            lower_stmts_exec(table, body.0, body_st, outer, outer, ctr);
        },
    }
}

/// Lower a statement list into the table; the exec twin of [`lower_stmts`].
fn lower_stmts_exec(
    table: &mut HashMap<u32, (TmStep, u32, u32)>,
    stmts: Vec<TmStmt>,
    curr: u32,
    next: u32,
    outer: u32,
    ctr: &mut u32,
)
    requires
        *old(ctr) as int + stmts_weight(stmts_view(stmts@)) - 1 <= u32::MAX as int,
    ensures
        table_view(final(table)@) == lower_stmts(
            table_view(old(table)@),
            stmts_view(stmts@),
            curr as int,
            next as int,
            outer as int,
            *old(ctr) as int,
        ).0,
        *final(ctr) as int == lower_stmts(
            table_view(old(table)@),
            stmts_view(stmts@),
            curr as int,
            next as int,
            outer as int,
            *old(ctr) as int,
        ).1,
    decreases stmts_weight(stmts_view(stmts@)),
{
    let ghost sv = stmts_view(stmts@);
    proof {
        lemma_stmts_weight_pos(sv);
    }
    let mut stmts = stmts;
    if stmts.len() == 0 {
        proof {
            assert(table_view(table@) == lower_stmts(
                table_view(old(table)@), sv, curr as int, next as int, outer as int,
                *old(ctr) as int,
            ).0);
        }
        return;
    }
    let ghost entry_seq = stmts@;
    let s = stmts.remove(0);
    proof {
        assert(sv == seq![stmt_view(entry_seq[0])] + stmts_view(entry_seq.skip(1)));
        assert(sv[0] == stmt_view(entry_seq[0]));
        assert(stmt_view(s) == sv[0]);
        assert(stmts@ =~= entry_seq.skip(1));
        assert(stmts_view(stmts@) == stmts_view(entry_seq.skip(1)));
        assert(stmts_view(stmts@) =~= sv.skip(1));
        lemma_stmt_weight_pos(sv[0]);
        lemma_stmts_weight_pos(sv.skip(1));
    }
    if stmts.len() == 0 {
        lower_stmt_exec(table, s, curr, next, outer, ctr);
        return;
    }
    let entry_next = *ctr;
    *ctr = *ctr + 1;
    proof {
        lemma_lower_stmt_bounds(
            table_view(table@), sv[0], curr as int, entry_next as int, outer as int,
            *ctr as int,
        );
    }
    lower_stmt_exec(table, s, curr, entry_next, outer, ctr);
    lower_stmts_exec(table, stmts, entry_next, next, outer, ctr);
}

impl TmDef {
    /// An upper bound on the state ids lowering this definition consumes.
    pub open spec fn lowering_weight(self) -> int {
        stmts_weight(self@.block)
    }
}

/// Flatten a definition's structured statements into a numbered transition
/// table: the entry point is state 1, state 0 is the implicit terminal
/// continuation (never a key), and fresh ids are drawn monotonically from 2.
pub fn into_steps(def: TmDef) -> (r: HashMap<u32, (TmStep, u32, u32)>)
    requires
        def.lowering_weight() + 1 <= u32::MAX as int,
    ensures
        table_view(r@) == lower_def(def@.block),
{
    let mut table: HashMap<u32, (TmStep, u32, u32)> = HashMap::new();
    let mut ctr: u32 = 2;
    proof {
        assert(def@.block == stmts_view(def.block.0@));
        assert(table_view(table@) =~= Map::<int, (StepV, int, int)>::empty());
    }
    lower_stmts_exec(&mut table, def.block.0, 1, 0, 0, &mut ctr);
    table
}

} // verus!
