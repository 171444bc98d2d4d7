//! Abstract syntax tree for one machine definition: structured statements
//! (step, branch, cycle) over an identifier and a declared alphabet.

use vstd::prelude::*;

verus! {

/// Where a step moves the tape head.
#[derive(Clone, Copy, Debug, PartialEq, Eq, Structural)]
pub enum TmDir {
    Left,
    Right,
    Stay,
}

impl View for TmDir {
    type V = TmDir;

    open spec fn view(&self) -> TmDir {
        *self
    }
}

impl DeepView for TmDir {
    type V = TmDir;

    open spec fn deep_view(&self) -> TmDir {
        *self
    }
}

/// Mathematical content of a [`TmOperation`].
#[verifier::ext_equal]
pub enum OpV {
    Move { replace: Option<Seq<char>>, direction: TmDir },
    Break,
    Halt,
}

/// What a matched case does: write-and-move, exit the nearest cycle, or stop
/// the machine.
#[derive(Debug, Clone)]
pub enum TmOperation {
    Move { replace: Option<String>, direction: TmDir },
    Break,
    Halt,
}

impl View for TmOperation {
    type V = OpV;

    open spec fn view(&self) -> OpV {
        match self {
            TmOperation::Move { replace, direction } => OpV::Move {
                replace: replace.deep_view(),
                direction: *direction,
            },
            TmOperation::Break => OpV::Break,
            TmOperation::Halt => OpV::Halt,
        }
    }
}

impl DeepView for TmOperation {
    type V = OpV;

    open spec fn deep_view(&self) -> OpV {
        self.view()
    }
}

/// A copy of an operation, with its content known.
pub fn clone_op(op: &TmOperation) -> (r: TmOperation)
    ensures
        r@ == op@,
{
    match op {
        TmOperation::Move { replace, direction } => TmOperation::Move {
            replace: match replace {
                Some(s) => Some(s.clone()),
                None => None,
            },
            direction: *direction,
        },
        TmOperation::Break => TmOperation::Break,
        TmOperation::Halt => TmOperation::Halt,
    }
}

/// Mathematical content of an [`AtomicTmStep`].
#[verifier::ext_equal]
pub struct AtomicV {
    pub patterns: Seq<Seq<char>>,
    pub operation: OpV,
}

/// One alternative of a step: the symbols it covers, sharing one operation.
#[derive(Debug)]
pub struct AtomicTmStep {
    pub patterns: Vec<String>,
    pub operation: TmOperation,
}

impl View for AtomicTmStep {
    type V = AtomicV;

    open spec fn view(&self) -> AtomicV {
        AtomicV { patterns: self.patterns.deep_view(), operation: self.operation@ }
    }
}

impl DeepView for AtomicTmStep {
    type V = AtomicV;

    open spec fn deep_view(&self) -> AtomicV {
        self.view()
    }
}

impl AtomicTmStep {
    /// An alternative that writes `repl` (when present) and moves `dir`, for
    /// each of `patterns`.
    pub fn new(patterns: Vec<String>, repl: Option<String>, dir: TmDir) -> (r: AtomicTmStep)
        ensures
            r@.patterns == patterns.deep_view(),
            r@.operation == (OpV::Move { replace: repl.deep_view(), direction: dir }),
    {
        AtomicTmStep { patterns, operation: TmOperation::Move { replace: repl, direction: dir } }
    }
}

/// Mathematical content of a [`TmStep`].
#[verifier::ext_equal]
pub struct StepV {
    pub cases: Seq<(Seq<char>, OpV)>,
    pub default: Option<OpV>,
}

/// A source-level transition attempt: a case list mapping symbols to
/// operations — first declaration wins — plus an optional default operation
/// for symbols no case covers.
#[derive(Debug)]
pub struct TmStep {
    pub cases: Vec<(String, TmOperation)>,
    pub default: Option<TmOperation>,
}

impl View for TmStep {
    type V = StepV;

    open spec fn view(&self) -> StepV {
        StepV { cases: self.cases.deep_view(), default: self.default.deep_view() }
    }
}

impl DeepView for TmStep {
    type V = StepV;

    open spec fn deep_view(&self) -> StepV {
        self.view()
    }
}

/// Does the case list bind the symbol `s`?
pub open spec fn cases_has(cases: Seq<(Seq<char>, OpV)>, s: Seq<char>) -> bool {
    exists|i: int| 0 <= i < cases.len() && (#[trigger] cases[i]).0 == s
}

/// The operation bound to `s`: the first case with that symbol.
pub open spec fn cases_lookup(cases: Seq<(Seq<char>, OpV)>, s: Seq<char>) -> Option<OpV>
    decreases cases.len(),
{
    if cases.len() == 0 {
        None
    } else if cases[0].0 == s {
        Some(cases[0].1)
    } else {
        cases_lookup(cases.skip(1), s)
    }
}

/// `cases` extended with one alternative's patterns, in order, each bound to
/// `op` unless already bound.
pub open spec fn add_patterns(
    cases: Seq<(Seq<char>, OpV)>,
    patterns: Seq<Seq<char>>,
    op: OpV,
) -> Seq<(Seq<char>, OpV)>
    decreases patterns.len(),
{
    if patterns.len() == 0 {
        cases
    } else {
        let grown = if cases_has(cases, patterns[0]) {
            cases
        } else {
            cases.push((patterns[0], op))
        };
        add_patterns(grown, patterns.skip(1), op)
    }
}

/// `cases` extended with every alternative, in declaration order.
pub open spec fn merge_cases_from(
    cases: Seq<(Seq<char>, OpV)>,
    atomics: Seq<AtomicV>,
) -> Seq<(Seq<char>, OpV)>
    decreases atomics.len(),
{
    if atomics.len() == 0 {
        cases
    } else {
        merge_cases_from(
            add_patterns(cases, atomics[0].patterns, atomics[0].operation),
            atomics.skip(1),
        )
    }
}

/// The case list an alternative list merges into: first declaration wins.
pub open spec fn merge_cases(atomics: Seq<AtomicV>) -> Seq<(Seq<char>, OpV)> {
    merge_cases_from(Seq::empty(), atomics)
}

/// Does some pattern in the list equal `s`?
pub open spec fn patterns_contain(patterns: Seq<Seq<char>>, s: Seq<char>) -> bool {
    exists|i: int| 0 <= i < patterns.len() && patterns[i] == s
}

/// The operation of the first alternative that declares `s`, if any.
pub open spec fn declared_op(atomics: Seq<AtomicV>, s: Seq<char>) -> Option<OpV>
    decreases atomics.len(),
{
    if atomics.len() == 0 {
        None
    } else if patterns_contain(atomics[0].patterns, s) {
        Some(atomics[0].operation)
    } else {
        declared_op(atomics.skip(1), s)
    }
}

/// A symbol is bound exactly when a lookup finds it.
proof fn lemma_cases_has_lookup(cases: Seq<(Seq<char>, OpV)>, s: Seq<char>)
    ensures
        cases_has(cases, s) <==> cases_lookup(cases, s) is Some,
    decreases cases.len(),
{
    if cases.len() > 0 {
        lemma_cases_has_lookup(cases.skip(1), s);
        if cases[0].0 != s {
            assert forall|i: int| 0 <= i < cases.skip(1).len()
                implies cases.skip(1)[i] == cases[i + 1] by {}
            if cases_has(cases, s) {
                let w = choose|i: int| 0 <= i < cases.len() && (#[trigger] cases[i]).0 == s;
                assert(cases.skip(1)[w - 1] == cases[w]);
                assert(cases_has(cases.skip(1), s));
            }
            if cases_has(cases.skip(1), s) {
                let w = choose|i: int| 0 <= i < cases.skip(1).len()
                    && (#[trigger] cases.skip(1)[i]).0 == s;
                assert(cases[w + 1].0 == s);
            }
        }
    }
}

/// Appending a fresh binding leaves earlier lookups unchanged and binds the
/// new symbol last.
proof fn lemma_lookup_push(cases: Seq<(Seq<char>, OpV)>, k: Seq<char>, v: OpV, s: Seq<char>)
    ensures
        cases_lookup(cases.push((k, v)), s) == match cases_lookup(cases, s) {
            Some(o) => Some(o),
            None => if k == s {
                Some(v)
            } else {
                None
            },
        },
    decreases cases.len(),
{
    reveal_with_fuel(cases_lookup, 3);
    if cases.len() == 0 {
        assert(cases.push((k, v))[0] == (k, v));
        assert(cases.push((k, v)).skip(1) =~= Seq::<(Seq<char>, OpV)>::empty());
    } else {
        lemma_lookup_push(cases.skip(1), k, v, s);
        assert(cases.push((k, v))[0] == cases[0]);
        assert(cases.push((k, v)).skip(1) =~= cases.skip(1).push((k, v)));
    }
}

/// What one alternative's patterns add to a case list: earlier bindings win,
/// then the alternative's own patterns, in order.
proof fn lemma_add_patterns_lookup(
    cases: Seq<(Seq<char>, OpV)>,
    patterns: Seq<Seq<char>>,
    op: OpV,
    s: Seq<char>,
)
    ensures
        cases_lookup(add_patterns(cases, patterns, op), s) == match cases_lookup(cases, s) {
            Some(o) => Some(o),
            None => if patterns_contain(patterns, s) {
                Some(op)
            } else {
                None
            },
        },
    decreases patterns.len(),
{
    lemma_cases_has_lookup(cases, s);
    if patterns.len() > 0 {
        let grown = if cases_has(cases, patterns[0]) {
            cases
        } else {
            cases.push((patterns[0], op))
        };
        lemma_cases_has_lookup(cases, patterns[0]);
        if !cases_has(cases, patterns[0]) {
            lemma_lookup_push(cases, patterns[0], op, s);
        }
        lemma_add_patterns_lookup(grown, patterns.skip(1), op, s);
        if patterns_contain(patterns, s) && patterns[0] != s {
            let w = choose|i: int| 0 <= i < patterns.len() && patterns[i] == s;
            assert(patterns.skip(1)[w - 1] == patterns[w]);
            assert(patterns_contain(patterns.skip(1), s));
        }
        if patterns_contain(patterns.skip(1), s) {
            let w = choose|i: int| 0 <= i < patterns.skip(1).len() && patterns.skip(1)[i] == s;
            assert(patterns[w + 1] == patterns.skip(1)[w]);
            assert(patterns_contain(patterns, s));
        }
    }
}

/// What merging adds to a case list: earlier bindings win, then the first
/// alternative that declares the symbol.
proof fn lemma_merge_from_lookup(cases: Seq<(Seq<char>, OpV)>, atomics: Seq<AtomicV>, s: Seq<char>)
    ensures
        cases_lookup(merge_cases_from(cases, atomics), s) == match cases_lookup(cases, s) {
            Some(o) => Some(o),
            None => declared_op(atomics, s),
        },
    decreases atomics.len(),
{
    if atomics.len() > 0 {
        let grown = add_patterns(cases, atomics[0].patterns, atomics[0].operation);
        lemma_add_patterns_lookup(cases, atomics[0].patterns, atomics[0].operation, s);
        lemma_merge_from_lookup(grown, atomics.skip(1), s);
    }
}

/// First declaration wins: in the case list an alternative list merges into,
/// looking up any symbol yields the operation of the first alternative that
/// declared it, and a symbol no alternative declares is not bound.
pub proof fn lemma_first_declaration_wins(atomics: Seq<AtomicV>, s: Seq<char>)
    ensures
        cases_lookup(merge_cases(atomics), s) == declared_op(atomics, s),
{
    lemma_merge_from_lookup(Seq::empty(), atomics, s);
}

/// No symbol is bound twice.
pub open spec fn distinct_keys(cases: Seq<(Seq<char>, OpV)>) -> bool {
    forall|i: int, j: int| 0 <= i < j < cases.len()
        ==> (#[trigger] cases[i]).0 != (#[trigger] cases[j]).0
}

proof fn lemma_add_patterns_distinct(cases: Seq<(Seq<char>, OpV)>, patterns: Seq<Seq<char>>, op: OpV)
    requires
        distinct_keys(cases),
    ensures
        distinct_keys(add_patterns(cases, patterns, op)),
    decreases patterns.len(),
{
    if patterns.len() > 0 {
        let grown = if cases_has(cases, patterns[0]) {
            cases
        } else {
            cases.push((patterns[0], op))
        };
        if !cases_has(cases, patterns[0]) {
            assert forall|i: int, j: int| 0 <= i < j < grown.len()
                implies (#[trigger] grown[i]).0 != (#[trigger] grown[j]).0 by {
                if j == cases.len() as int {
                    assert(grown[i] == cases[i]);
                    assert(!((#[trigger] cases[i]).0 == patterns[0]));
                } else {
                    assert(grown[i] == cases[i]);
                    assert(grown[j] == cases[j]);
                }
            }
        }
        lemma_add_patterns_distinct(grown, patterns.skip(1), op);
    }
}

proof fn lemma_merge_from_distinct(cases: Seq<(Seq<char>, OpV)>, atomics: Seq<AtomicV>)
    requires
        distinct_keys(cases),
    ensures
        distinct_keys(merge_cases_from(cases, atomics)),
    decreases atomics.len(),
{
    if atomics.len() > 0 {
        lemma_add_patterns_distinct(cases, atomics[0].patterns, atomics[0].operation);
        lemma_merge_from_distinct(
            add_patterns(cases, atomics[0].patterns, atomics[0].operation),
            atomics.skip(1),
        );
    }
}

/// Every declared symbol becomes exactly one case: the merged case list never
/// binds a symbol twice.
pub proof fn lemma_merge_cases_distinct(atomics: Seq<AtomicV>)
    ensures
        distinct_keys(merge_cases(atomics)),
{
    lemma_merge_from_distinct(Seq::empty(), atomics);
}

/// Linear scan for a bound symbol in an exec case list.
pub fn case_key_present(cases: &Vec<(String, TmOperation)>, s: &String) -> (r: bool)
    ensures
        r == cases_has(cases.deep_view(), s@),
{
    let mut i: usize = 0;
    while i < cases.len()
        invariant
            0 <= i <= cases.len(),
            forall|k: int| 0 <= k < i ==> (#[trigger] cases.deep_view()[k]).0 != s@,
        decreases cases.len() - i,
    {
        if cases[i].0.eq(s) {
            assert(cases.deep_view()[i as int].0 == s@);
            return true;
        }
        i += 1;
    }
    false
}

impl TmStep {
    /// Merge the alternatives into a case list — first declaration wins, a
    /// symbol declared twice keeps its first operation — with `default` for
    /// symbols no alternative covers.
    #[verifier::loop_isolation(false)]
    pub fn new(atomic_steps: Vec<AtomicTmStep>, default: Option<TmOperation>) -> (r: TmStep)
        ensures
            r@.cases == merge_cases(atomic_steps.deep_view()),
            r@.default == default.deep_view(),
    {
        let ghost atomics = atomic_steps.deep_view();
        let mut cases: Vec<(String, TmOperation)> = Vec::new();
        proof {
            assert(cases.deep_view() =~= Seq::<(Seq<char>, OpV)>::empty());
        }
        proof {
            assert(atomics.skip(0) =~= atomics);
        }
        let mut i: usize = 0;
        while i < atomic_steps.len()
            invariant
                0 <= i <= atomic_steps.len(),
                merge_cases_from(cases.deep_view(), atomics.skip(i as int))
                    == merge_cases(atomics),
            decreases atomic_steps.len() - i,
        {
            let atomic_step = &atomic_steps[i];
            let ghost av = atomics[i as int];
            let ghost before = cases.deep_view();
            proof {
                assert(av.patterns.skip(0) =~= av.patterns);
            }
            let mut p: usize = 0;
            while p < atomic_step.patterns.len()
                invariant
                    0 <= p <= atomic_step.patterns.len(),
                    add_patterns(cases.deep_view(), av.patterns.skip(p as int), av.operation)
                        == add_patterns(before, av.patterns, av.operation),
                decreases atomic_step.patterns.len() - p,
            {
                let ghost cs = cases.deep_view();
                let pattern = &atomic_step.patterns[p];
                proof {
                    assert(pattern@ == av.patterns[p as int]);
                }
                if !case_key_present(&cases, pattern) {
                    let op = clone_op(&atomic_step.operation);
                    let ghost prev = cases.deep_view();
                    cases.push((pattern.clone(), op));
                    proof {
                        assert(cases.deep_view() =~= prev.push((av.patterns[p as int], av.operation)));
                    }
                }
                proof {
                    assert(av.patterns.skip(p as int)[0] == av.patterns[p as int]);
                    assert(av.patterns.skip(p as int).skip(1) =~= av.patterns.skip(p as int + 1));
                }
                p += 1;
            }
            proof {
                assert(av.patterns.skip(atomic_step.patterns@.len() as int)
                    =~= Seq::<Seq<char>>::empty());
                assert(add_patterns(cases.deep_view(), Seq::empty(), av.operation)
                    == cases.deep_view());
                assert(atomics.skip(i as int)[0] == atomics[i as int]);
                assert(atomics.skip(i as int).skip(1) =~= atomics.skip(i as int + 1));
            }
            i += 1;
        }
        proof {
            assert(atomics.skip(atomic_steps@.len() as int) =~= Seq::<AtomicV>::empty());
        }
        TmStep { cases, default }
    }
}

/// An ordered sequence of statements; order defines control flow.
#[derive(Debug)]
pub struct TmBlock(pub Vec<TmStmt>);

/// One structured statement.
#[derive(Debug)]
pub enum TmStmt {
    /// A single transition attempt.
    Step(TmStep),
    /// When the condition step matches, run the body, then continue after the
    /// enclosing construct; otherwise continue after the branch.
    Branch { condition: TmStep, body: TmBlock },
    /// Run the body repeatedly; its end returns to its start.
    Cycle(TmBlock),
}

/// Mathematical content of a [`TmStmt`].
#[verifier::ext_equal]
pub enum StmtV {
    Step(StepV),
    Branch { condition: StepV, body: Seq<StmtV> },
    Cycle(Seq<StmtV>),
}

/// Mathematical content of a statement.
pub open spec fn stmt_view(s: TmStmt) -> StmtV
    decreases s,
{
    match s {
        TmStmt::Step(step) => StmtV::Step(step@),
        TmStmt::Branch { condition, body } => StmtV::Branch {
            condition: condition@,
            body: stmts_view(body.0@),
        },
        TmStmt::Cycle(body) => StmtV::Cycle(stmts_view(body.0@)),
    }
}

/// The views of a statement list, in order.
pub open spec fn stmts_view(stmts: Seq<TmStmt>) -> Seq<StmtV>
    decreases stmts,
{
    if stmts.len() == 0 {
        Seq::empty()
    } else {
        seq![stmt_view(stmts[0])] + stmts_view(stmts.skip(1))
    }
}

/// Mathematical content of a block: its statements' views, in order.
pub open spec fn block_view(b: TmBlock) -> Seq<StmtV> {
    stmts_view(b.0@)
}

/// A statement list's view is its statements' views, position by position.
pub proof fn lemma_stmts_view_index(stmts: Seq<TmStmt>)
    ensures
        stmts_view(stmts).len() == stmts.len(),
        forall|k: int| 0 <= k < stmts.len()
            ==> #[trigger] stmts_view(stmts)[k] == stmt_view(stmts[k]),
    decreases stmts.len(),
{
    if stmts.len() > 0 {
        lemma_stmts_view_index(stmts.skip(1));
        assert forall|k: int| 0 <= k < stmts.len() implies #[trigger] stmts_view(stmts)[k]
            == stmt_view(stmts[k]) by {
            if k > 0 {
                assert(stmts_view(stmts)[k] == stmts_view(stmts.skip(1))[k - 1]);
                assert(stmts.skip(1)[k - 1] == stmts[k]);
            }
        }
    }
}

impl View for TmStmt {
    type V = StmtV;

    open spec fn view(&self) -> StmtV {
        stmt_view(*self)
    }
}

impl DeepView for TmStmt {
    type V = StmtV;

    open spec fn deep_view(&self) -> StmtV {
        stmt_view(*self)
    }
}

impl View for TmBlock {
    type V = Seq<StmtV>;

    open spec fn view(&self) -> Seq<StmtV> {
        block_view(*self)
    }
}

impl TmBlock {
    pub fn new(stats: Vec<TmStmt>) -> (r: TmBlock)
        ensures
            r@ == stats.deep_view(),
    {
        let r = TmBlock(stats);
        proof {
            lemma_stmts_view_index(r.0@);
            assert(r@ =~= r.0.deep_view());
        }
        r
    }
}

/// Mathematical content of a [`TmDef`].
#[verifier::ext_equal]
pub struct DefV {
    pub identifier: Seq<char>,
    pub alphabet: Seq<Seq<char>>,
    pub block: Seq<StmtV>,
}

/// One machine definition: its name, its declared alphabet, and its
/// top-level block.
#[derive(Debug)]
pub struct TmDef {
    pub identifier: String,
    pub alphabet: Vec<String>,
    pub block: TmBlock,
}

impl View for TmDef {
    type V = DefV;

    open spec fn view(&self) -> DefV {
        DefV {
            identifier: self.identifier@,
            alphabet: self.alphabet.deep_view(),
            block: self.block@,
        }
    }
}

impl TmDef {
    pub fn new(identifier: String, alphabet: Vec<String>, block: TmBlock) -> (r: TmDef)
        ensures
            r@.identifier == identifier@,
            r@.alphabet == alphabet.deep_view(),
            r@.block == block@,
    {
        TmDef { identifier, alphabet, block }
    }
}

} // verus!
