use vstd::prelude::*;
use vstd::set_lib::{lemma_int_range, lemma_len_subset, lemma_map_size, set_int_range};
use crate::cnf::{Clause, Cnf, Literal, Assignment, cnf_view, cnf_ok, clause_ok, lit_ok, lit_value, var_index, true_lit, satisfies, clause_value, false_upto, value_upto, has_lit_with, abs, entails, model_of, agrees, clause_holds, lit_holds, lemma_agrees_lit, lemma_entails_superset};
use crate::node::Node;
use crate::state::{LiteralState, SolverState};

verus! {

/// A CDCL solver over a formula whose variables are `1..=n`.
pub struct Solver {
    formula: Cnf,
    selected: Literal,
    level: usize,
    assignment: Assignment,
    trail: Vec<Vec<Literal>>,
    original: Ghost<Seq<Seq<i32>>>,
}

/// Variable index `v` occurs on the trail.
pub open spec fn on_trail(t: Seq<Vec<i32>>, v: int) -> bool {
    exists|d: int, j: int|
        0 <= d < t.len() && 0 <= j < t[d]@.len() && #[trigger] var_index(t[d]@[j]) == v
}

/// The antecedent of variable index `v`, where it has one, forced it: it holds
/// the variable's TRUE literal, and its other literals are FALSE, assigned at
/// levels no higher than the variable's own.
pub open spec fn antecedent_ok(a: Seq<Node>, v: int) -> bool {
    let p = a[v].parents@;
    p.len() > 0 ==> {
        &&& a[v].value != LiteralState::UNKNOWN
        &&& p.contains(true_lit(a, v) as i32)
        &&& forall|i: int|
            0 <= i < p.len() && p[i] != true_lit(a, v) ==> {
                &&& lit_value(a, #[trigger] p[i]) == LiteralState::FALSE
                &&& a[var_index(p[i])].level <= a[v].level
            }
    }
}

/// `b` to the power `e`.
pub open spec fn power(b: nat, e: nat) -> nat
    decreases e,
{
    if e == 0 { 1 } else { b * power(b, (e - 1) as nat) }
}

/// What an assigned variable adds to the progress measure: the lower its
/// level, the more.
pub open spec fn weight(node: Node, n: nat) -> nat {
    if node.value == LiteralState::UNKNOWN {
        0
    } else {
        power(n + 1, (n - node.level) as nat)
    }
}

/// The progress measure of the solver: the assignment read as a number in
/// base `n + 1`, one digit per level, level 0 the most significant.
pub open spec fn progress(a: Seq<Node>, n: nat) -> nat
    decreases a.len(),
{
    if a.len() == 0 { 0 } else { progress(a.drop_last(), n) + weight(a.last(), n) }
}

proof fn lemma_power_mono(b: nat, e1: nat, e2: nat)
    requires
        b >= 1,
        e1 <= e2,
    ensures
        1 <= power(b, e1) <= power(b, e2),
    decreases e2,
{
    if e2 > 0 {
        if e1 == e2 {
            lemma_power_mono(b, 0, (e2 - 1) as nat);
        } else {
            lemma_power_mono(b, e1, (e2 - 1) as nat);
        }
        assert(power(b, e2) == b * power(b, (e2 - 1) as nat));
        assert(power(b, (e2 - 1) as nat) <= b * power(b, (e2 - 1) as nat)) by (nonlinear_arith)
            requires b >= 1;
    }
}

proof fn lemma_progress_update(a: Seq<Node>, n: nat, i: int, x: Node)
    requires
        0 <= i < a.len(),
    ensures
        progress(a.update(i, x), n) + weight(a[i], n) == progress(a, n) + weight(x, n),
    decreases a.len(),
{
    let b = a.update(i, x);
    if i < a.len() - 1 {
        assert(b.drop_last() == a.drop_last().update(i, x));
        lemma_progress_update(a.drop_last(), n, i, x);
    } else {
        assert(b.drop_last() == a.drop_last());
    }
}

/// If each element of `a` weighs at most `k` more than its counterpart in
/// `r`, then `a` weighs at most `len * k` more than `r`.
proof fn lemma_progress_bound(a: Seq<Node>, r: Seq<Node>, n: nat, k: nat)
    requires
        a.len() == r.len(),
        forall|i: int| 0 <= i < a.len() ==> weight(#[trigger] a[i], n) <= weight(r[i], n) + k,
    ensures
        progress(a, n) <= progress(r, n) + a.len() * k,
    decreases a.len(),
{
    if a.len() > 0 {
        lemma_progress_bound(a.drop_last(), r.drop_last(), n, k);
        assert(weight(a.last(), n) <= weight(r.last(), n) + k);
        assert((a.len() - 1) * k + k == a.len() * k) by (nonlinear_arith);
    }
}

/// All-unassigned records weigh nothing.
proof fn lemma_progress_zero(a: Seq<Node>, n: nat)
    requires
        forall|i: int| 0 <= i < a.len() ==> (#[trigger] a[i]).value == LiteralState::UNKNOWN,
    ensures
        progress(a, n) == 0,
    decreases a.len(),
{
    if a.len() > 0 {
        lemma_progress_zero(a.drop_last(), n);
    }
}

/// The measure never exceeds this bound while every level is at most `n`.
pub open spec fn progress_limit(n: nat) -> nat {
    n * power(n + 1, n)
}

proof fn lemma_progress_limit(a: Seq<Node>, n: nat)
    requires
        a.len() == n,
        forall|i: int| 0 <= i < a.len() ==> (#[trigger] a[i]).level <= n,
    ensures
        progress(a, n) <= progress_limit(n),
{
    let r = Seq::new(a.len(), |i: int| Node { literal: 0, value: LiteralState::UNKNOWN, level: 0, parents: a[i].parents });
    assert forall|i: int| 0 <= i < a.len() implies weight(#[trigger] a[i], n) <= weight(r[i], n) + power(n + 1, n) by {
        lemma_power_mono(n + 1, (n - a[i].level) as nat, n);
    }
    lemma_progress_bound(a, r, n, power(n + 1, n));
    lemma_progress_zero(r, n);
}

/// Each element of `b` weighs at least as much as its counterpart in `a`.
proof fn lemma_progress_mono(a: Seq<Node>, b: Seq<Node>, n: nat)
    requires
        a.len() == b.len(),
        forall|i: int| 0 <= i < a.len() ==> weight(#[trigger] a[i], n) <= weight(b[i], n),
    ensures
        progress(a, n) <= progress(b, n),
{
    lemma_progress_bound(a, b, n, 0);
}

/// Clause `c` is unit under `a`: exactly one literal is UNKNOWN, the others
/// are FALSE.
pub open spec fn is_unit(a: Seq<Node>, c: Seq<i32>) -> bool {
    &&& clause_value(a, c) == LiteralState::UNKNOWN
    &&& c.filter(|l: i32| lit_value(a, l) == LiteralState::UNKNOWN).len() == 1
}

/// A pending unit assignment: `l` is an UNKNOWN literal of `c`, whose other
/// literals are FALSE.
pub open spec fn unit_ok(a: Seq<Node>, l: i32, c: Seq<i32>) -> bool {
    &&& lit_ok(l, a.len() as nat)
    &&& clause_ok(c, a.len() as nat)
    &&& c.contains(l)
    &&& lit_value(a, l) == LiteralState::UNKNOWN
    &&& forall|j: int| 0 <= j < c.len() && c[j] != l ==> lit_value(a, #[trigger] c[j]) == LiteralState::FALSE
}

/// Propagation so far, from `before` to `after`: the current trail level
/// only grew at its end, and each variable assigned meanwhile sits at the
/// current level with a clause of the formula as antecedent.
spec fn forced_so_far(before: Solver, after: Solver) -> bool {
    let lv = before.level as int;
    let a0 = before.assignment@;
    let a = after.assignment@;
    &&& before.trail@[lv]@.len() <= after.trail@[lv]@.len()
    &&& after.trail@[lv]@.subrange(0, before.trail@[lv]@.len() as int) == before.trail@[lv]@
    &&& forall|v: int|
        0 <= v < a0.len() && a0[v].value == LiteralState::UNKNOWN && (#[trigger] a[v]).value != LiteralState::UNKNOWN
            ==> a[v].level == lv && cnf_view(after.formula@).contains(a[v].parents@)
}

/// From `before` to `after`, the current trail level only grew at its end,
/// and each variable assigned meanwhile sits at the current level with a
/// clause of the formula that forced it as antecedent.
pub open spec fn newly_forced(before: Solver, after: Solver) -> bool {
    let lv = before.decision_level() as int;
    let a0 = before.records();
    let a = after.records();
    &&& before.trail_view()[lv].len() <= after.trail_view()[lv].len()
    &&& after.trail_view()[lv].subrange(0, before.trail_view()[lv].len() as int) == before.trail_view()[lv]
    &&& forall|v: int|
        0 <= v < a0.len() && a0[v].value == LiteralState::UNKNOWN && (#[trigger] a[v]).value != LiteralState::UNKNOWN
            ==> {
            &&& a[v].level == lv
            &&& after.clauses().contains(a[v].parents@)
            &&& antecedent_ok(a, v)
        }
}

/// Every assignment in `a` stands unchanged in `b`.
pub open spec fn extends(a: Seq<Node>, b: Seq<Node>) -> bool {
    &&& a.len() == b.len()
    &&& forall|v: int| 0 <= v < a.len() && (#[trigger] a[v]).value != LiteralState::UNKNOWN ==> b[v] == a[v]
}

/// How many literals of `s` have a variable outside `checked`.
pub open spec fn unchecked(s: Seq<i32>, checked: Seq<i32>) -> nat
    decreases s.len(),
{
    if s.len() == 0 {
        0
    } else {
        unchecked(s.drop_last(), checked) + if checked.contains(abs(s.last() as int) as i32) { 0nat } else { 1nat }
    }
}

proof fn lemma_unchecked_push(s: Seq<i32>, checked: Seq<i32>, x: i32, j: int)
    requires
        0 <= j < s.len(),
        abs(s[j] as int) == x,
        !checked.contains(x),
    ensures
        unchecked(s, checked.push(x)) < unchecked(s, checked),
    decreases s.len(),
{
    let c2 = checked.push(x);
    assert forall|y: i32| checked.contains(y) implies c2.contains(y) by {
        let k = choose|k: int| 0 <= k < checked.len() && checked[k] == y;
        assert(c2[k] == y);
    }
    assert(c2[checked.len() as int] == x);
    if j < s.len() - 1 {
        lemma_unchecked_push(s.drop_last(), checked, x, j);
    } else {
        lemma_unchecked_le(s.drop_last(), checked, x);
    }
}

proof fn lemma_unchecked_le(s: Seq<i32>, checked: Seq<i32>, x: i32)
    ensures
        unchecked(s, checked.push(x)) <= unchecked(s, checked),
    decreases s.len(),
{
    let c2 = checked.push(x);
    assert forall|y: i32| checked.contains(y) implies c2.contains(y) by {
        let k = choose|k: int| 0 <= k < checked.len() && checked[k] == y;
        assert(c2[k] == y);
    }
    if s.len() > 0 {
        lemma_unchecked_le(s.drop_last(), checked, x);
    }
}

/// `after` is `before` with one learned clause appended, as conflict
/// analysis leaves it: the clause's first literal is assigned at the current
/// level, the others below `back`, all are FALSE, and `back` is the highest
/// level among the others, or the level below the current one.
spec fn learned_ok(before: Solver, after: Solver, back: usize) -> bool {
    let f = after.formula@;
    let learned = f.last()@;
    let a = after.assignment@;
    &&& after.wf()
    &&& after.assignment@ == before.assignment@
    &&& after.trail@ == before.trail@
    &&& after.level == before.level
    &&& after.original@ == before.original@
    &&& f.len() == before.formula@.len() + 1
    &&& f.drop_last() == before.formula@
    &&& back < before.level
    &&& learned.len() > 0
    &&& clause_ok(learned, a.len() as nat)
    &&& forall|j: int| 0 <= j < learned.len() ==> lit_value(a, #[trigger] learned[j]) == LiteralState::FALSE
    &&& a[var_index(learned[0])].level == before.level
    &&& forall|j: int| 1 <= j < learned.len() ==> a[var_index(#[trigger] learned[j])].level <= back
    &&& learned.len() == 1 ==> back == before.level - 1
    &&& learned.len() > 1 ==> exists|j: int| 1 <= j < learned.len() && a[var_index(#[trigger] learned[j])].level == back
    &&& entails(before.original@, learned, a.len() as nat)
    &&& forall|j1: int, j2: int| 0 <= j1 < j2 < learned.len() ==> #[trigger] learned[j1] != #[trigger] learned[j2]
}

/// The variables that `a` leaves unassigned, as positive literals, in order.
pub open spec fn unknown_vars(a: Seq<Node>) -> Seq<i32>
    decreases a.len(),
{
    if a.len() == 0 {
        seq![]
    } else if a.last().value == LiteralState::UNKNOWN {
        unknown_vars(a.drop_last()).push(a.last().literal)
    } else {
        unknown_vars(a.drop_last())
    }
}

proof fn lemma_unknown_vars(a: Seq<Node>)
    requires
        forall|v: int| 0 <= v < a.len() ==> (#[trigger] a[v]).literal == v + 1,
    ensures
        forall|k: int| 0 <= k < unknown_vars(a).len() ==> 1 <= #[trigger] unknown_vars(a)[k] <= a.len()
            && a[unknown_vars(a)[k] - 1].value == LiteralState::UNKNOWN,
        (exists|v: int| 0 <= v < a.len() && (#[trigger] a[v]).value == LiteralState::UNKNOWN) ==> unknown_vars(a).len() > 0,
        unknown_vars(a).len() <= a.len(),
    decreases a.len(),
{
    if a.len() > 0 {
        let b = a.drop_last();
        assert forall|v: int| 0 <= v < b.len() implies (#[trigger] b[v]).literal == v + 1 by {
            assert(b[v] == a[v]);
        }
        lemma_unknown_vars(b);
        if exists|v: int| 0 <= v < a.len() && (#[trigger] a[v]).value == LiteralState::UNKNOWN {
            let v = choose|v: int| 0 <= v < a.len() && (#[trigger] a[v]).value == LiteralState::UNKNOWN;
            if v < b.len() {
                assert(b[v] == a[v]);
            }
        }
    }
}

/// The number of clauses of `f` that hold `l`.
pub open spec fn occurrences(f: Seq<Seq<i32>>, l: i32) -> nat
    decreases f.len(),
{
    if f.len() == 0 {
        0
    } else {
        occurrences(f.drop_last(), l) + if f.last().contains(l) { 1nat } else { 0nat }
    }
}

/// The decision candidates for the variables `vars`: each variable, then its
/// negation.
pub open spec fn candidate(vars: Seq<i32>, p: int) -> i32 {
    if p % 2 == 0 { vars[p / 2] } else { (-vars[p / 2]) as i32 }
}

/// `c` holds some literal together with its negation.
pub open spec fn is_tautology(c: Seq<i32>) -> bool {
    exists|i: int, j: int| 0 <= i < c.len() && 0 <= j < c.len() && #[trigger] c[i] == -#[trigger] c[j]
}

/// The formula holds the empty clause.
pub open spec fn has_empty_clause(f: Seq<Seq<i32>>) -> bool {
    exists|i: int| 0 <= i < f.len() && (#[trigger] f[i]).len() == 0
}

/// Every clause of the formula is a tautology.
pub open spec fn all_tautologies(f: Seq<Seq<i32>>) -> bool {
    forall|i: int| 0 <= i < f.len() ==> is_tautology(#[trigger] f[i])
}

/// A tautology is never FALSE.
proof fn lemma_tautology_not_false(a: Seq<Node>, c: Seq<i32>)
    requires
        is_tautology(c),
        clause_ok(c, a.len() as nat),
    ensures
        clause_value(a, c) != LiteralState::FALSE,
{
    let (i, j) = choose|i: int, j: int| 0 <= i < c.len() && 0 <= j < c.len() && #[trigger] c[i] == -#[trigger] c[j];
    assert(lit_ok(c[i], a.len() as nat) && lit_ok(c[j], a.len() as nat));
    if lit_value(a, c[j]) == LiteralState::FALSE {
        assert(lit_value(a, c[i]) == LiteralState::TRUE);
    } else {
        assert(lit_value(a, c[j]) == LiteralState::TRUE || lit_value(a, c[j]) == LiteralState::UNKNOWN);
    }
}

/// On trail level `d`, variable index `x` stands before variable index `y`.
pub open spec fn earlier(t: Seq<Vec<i32>>, d: int, x: int, y: int) -> bool {
    exists|j1: int, j2: int|
        0 <= j1 < j2 < t[d]@.len() && #[trigger] var_index(t[d]@[j1]) == x && #[trigger] var_index(t[d]@[j2]) == y
}

/// The antecedent of variable index `v` follows from the formula `orig`, and
/// its other literals of `v`'s own level were assigned before `v`.
pub open spec fn justified(a: Seq<Node>, t: Seq<Vec<i32>>, orig: Seq<Seq<i32>>, v: int) -> bool {
    let p = a[v].parents@;
    &&& p.len() > 0 ==> entails(orig, p, a.len() as nat)
    &&& forall|i: int|
        0 <= i < p.len() && p[i] != true_lit(a, v) && a[var_index(p[i])].level == a[v].level
            ==> earlier(t, a[v].level as int, var_index(#[trigger] p[i]), v)
}

impl Solver {
    /// The clauses, the original ones first, then the learned ones.
    pub closed spec fn clauses(&self) -> Seq<Seq<i32>> {
        cnf_view(self.formula@)
    }

    /// The formula the solver was made with.
    pub closed spec fn original(&self) -> Seq<Seq<i32>> {
        self.original@
    }

    /// The per-variable records.
    pub closed spec fn records(&self) -> Seq<Node> {
        self.assignment@
    }

    /// The current decision level.
    pub closed spec fn decision_level(&self) -> nat {
        self.level as nat
    }

    /// The trail, one sequence of literals per decision level.
    pub closed spec fn trail_view(&self) -> Seq<Seq<i32>> {
        self.trail@.map_values(|t: Vec<i32>| t@)
    }

    pub closed spec fn num_vars(&self) -> nat {
        self.assignment@.len()
    }

    /// The solver's invariant.
    pub closed spec fn wf(&self) -> bool {
        &&& self.wf_core()
        &&& forall|d: int| 1 <= d < self.trail@.len() ==> (#[trigger] self.trail@[d]@).len() > 0
    }

    /// The invariant, but for the decision level that is being opened.
    pub closed spec fn wf_core(&self) -> bool {
        let a = self.assignment@;
        let n = a.len();
        let f = self.formula@;
        let t = self.trail@;
        let lv = self.level as int;
        &&& n <= i32::MAX
        &&& forall|v: int| 0 <= v < n ==> (#[trigger] a[v]).literal == v + 1
        &&& cnf_ok(cnf_view(f), n)
        &&& self.original@.len() <= f.len()
        &&& forall|i: int| 0 <= i < self.original@.len() ==> (#[trigger] f[i])@ == self.original@[i]
        &&& t.len() == lv + 1
        &&& lv <= n
        &&& forall|d: int, j: int|
            0 <= d < t.len() && 0 <= j < t[d]@.len() ==> {
                &&& lit_ok(#[trigger] t[d]@[j], n)
                &&& lit_value(a, t[d]@[j]) == LiteralState::TRUE
                &&& a[var_index(t[d]@[j])].level == d
            }
        &&& forall|d: int, j1: int, j2: int|
            0 <= d < t.len() && 0 <= j1 < j2 < t[d]@.len() ==> var_index(#[trigger] t[d]@[j1])
                != var_index(#[trigger] t[d]@[j2])
        &&& forall|v: int|
            0 <= v < n && (#[trigger] a[v]).value != LiteralState::UNKNOWN ==> on_trail(t, v)
        &&& forall|v: int|
            0 <= v < n && (#[trigger] a[v]).value == LiteralState::UNKNOWN ==> a[v].level == 0
                && a[v].parents@.len() == 0
        &&& forall|v: int| 0 <= v < n ==> (#[trigger] a[v]).level <= lv
        &&& forall|v: int| 0 <= v < n ==> clause_ok((#[trigger] a[v]).parents@, n)
        &&& forall|v: int| 0 <= v < n ==> #[trigger] antecedent_ok(a, v)
        &&& forall|d: int, c: int|
            0 <= d < lv && 0 <= c < f.len() ==> !#[trigger] false_upto(a, f[c]@, d)
        &&& self.sound()
    }

    /// What the assignment and the learned clauses owe the formula the solver
    /// was made with: every clause and every antecedent follows from it;
    /// each of its models agrees with the assignments of level 0; only a
    /// decision, first on a level above 0, has no antecedent.
    pub closed spec fn sound(&self) -> bool {
        let a = self.assignment@;
        let n = a.len();
        let f = self.formula@;
        let t = self.trail@;
        let o = self.original@;
        &&& forall|c: int| 0 <= c < f.len() ==> entails(o, (#[trigger] f[c])@, n)
        &&& forall|v: int| 0 <= v < n ==> #[trigger] justified(a, t, o, v)
        &&& forall|d: int, j: int|
            0 <= d < t.len() && 0 <= j < t[d]@.len() && (d == 0 || j > 0)
                ==> a[var_index(#[trigger] t[d]@[j])].parents@.len() > 0
        &&& forall|m: Seq<bool>, v: int|
            m.len() == n && model_of(m, o) && 0 <= v < n && a[v].value != LiteralState::UNKNOWN
                && a[v].level == 0 ==> #[trigger] agrees(m, a, v)
    }

    /// A solver for `formula` over the variables `1..=nbvars`, with every
    /// variable unassigned, at level 0, with one empty trail level.
    pub fn new(formula: Cnf, nbvars: usize) -> (r: Solver)
        requires
            nbvars <= i32::MAX,
            cnf_ok(cnf_view(formula@), nbvars as nat),
        ensures
            r.wf(),
            r.clauses() == cnf_view(formula@),
            r.original() == cnf_view(formula@),
            r.num_vars() == nbvars,
            r.decision_level() == 0,
            forall|v: int| 0 <= v < nbvars ==> (#[trigger] r.records()[v]).value == LiteralState::UNKNOWN,
            forall|v: int| 0 <= v < nbvars ==> (#[trigger] r.records()[v]).literal == v + 1
                && r.records()[v].level == 0 && r.records()[v].parents@.len() == 0,
            r.records().len() == nbvars,
            r.trail_view() == seq![Seq::<i32>::empty()],
    {
        let mut assignment: Vec<Node> = Vec::new();
        let mut i: usize = 0;
        while i < nbvars
            invariant
                i <= nbvars <= i32::MAX,
                assignment@.len() == i,
                forall|v: int| 0 <= v < i ==> (#[trigger] assignment@[v]).literal == v + 1
                    && assignment@[v].value == LiteralState::UNKNOWN && assignment@[v].level == 0
                    && assignment@[v].parents@.len() == 0,
            decreases nbvars - i,
        {
            assignment.push(Node::new((i + 1) as i32));
            i = i + 1;
        }
        let mut trail: Vec<Vec<Literal>> = Vec::new();
        trail.push(Vec::new());
        let ghost original = cnf_view(formula@);
        let r = Solver {
            formula,
            selected: 0,
            level: 0,
            assignment,
            trail,
            original: Ghost(original),
        };
        assert(forall|v: int| 0 <= v < nbvars ==> antecedent_ok(r.assignment@, v));
        assert forall|c: int| 0 <= c < r.formula@.len() implies entails(original, (#[trigger] r.formula@[c])@, nbvars as nat) by {
            assert(original[c] == r.formula@[c]@);
        }
        assert(forall|v: int| 0 <= v < nbvars ==> #[trigger] justified(r.assignment@, r.trail@, original, v));
        assert(r.trail_view() =~= seq![Seq::<i32>::empty()]);
        r
    }

    /// Assigns the unassigned variable of `literal` so that `literal` is
    /// TRUE, at the current level, with antecedent `parents`, and appends
    /// `literal` to the current trail level.
    #[verifier::rlimit(60)]
    fn set_literal(&mut self, literal: Literal, parents: Clause)
        requires
            old(self).wf_core(),
            lit_ok(literal, old(self).assignment@.len() as nat),
            lit_value(old(self).assignment@, literal) == LiteralState::UNKNOWN,
            clause_ok(parents@, old(self).assignment@.len() as nat),
            parents@.len() > 0 ==> parents@.contains(literal),
            forall|i: int| 0 <= i < parents@.len() && parents@[i] != literal
                ==> lit_value(old(self).assignment@, #[trigger] parents@[i]) == LiteralState::FALSE,
            parents@.len() > 0 ==> entails(old(self).original@, parents@, old(self).assignment@.len() as nat),
            parents@.len() == 0 ==> old(self).level > 0 && old(self).trail@[old(self).level as int]@.len() == 0,
        ensures
            final(self).wf_core(),
            final(self).selected == old(self).selected,
            final(self).formula@ == old(self).formula@,
            final(self).original@ == old(self).original@,
            final(self).level == old(self).level,
            final(self).trail@.len() == old(self).trail@.len(),
            final(self).trail@[final(self).level as int]@ == old(self).trail@[old(self).level as int]@.push(literal),
            forall|d: int| 0 <= d < old(self).level ==> (#[trigger] final(self).trail@[d])@ == old(self).trail@[d]@,
            final(self).assignment@ == old(self).assignment@.update(
                var_index(literal),
                Node {
                    literal: (var_index(literal) + 1) as i32,
                    value: if literal > 0 { LiteralState::TRUE } else { LiteralState::FALSE },
                    level: old(self).level,
                    parents,
                },
            ),
    {
        let ghost a0 = self.assignment@;
        let ghost t0 = self.trail@;
        let index = self.literal_to_index(literal);
        let value = if literal > 0 { LiteralState::TRUE } else { LiteralState::FALSE };
        let node = Node { literal: (index + 1) as i32, value, level: self.level, parents };
        self.assignment.set(index, node);
        let lv = self.level;
        let mut top = Vec::new();
        std::mem::swap(&mut top, &mut self.trail[lv]);
        top.push(literal);
        std::mem::swap(&mut top, &mut self.trail[lv]);
        proof {
            let a = self.assignment@;
            let t = self.trail@;
            let x = var_index(literal);
            assert(lit_value(a, literal) == LiteralState::TRUE);
            assert forall|l: i32| lit_ok(l, a.len() as nat) && var_index(l) != x
                implies #[trigger] lit_value(a, l) == lit_value(a0, l) by {}
            assert forall|v: int| 0 <= v < a.len() && v != x && (#[trigger] a[v]).value != LiteralState::UNKNOWN
                implies on_trail(t, v) by {
                let (d, j) = choose|d: int, j: int|
                    0 <= d < t0.len() && 0 <= j < t0[d]@.len() && #[trigger] var_index(t0[d]@[j]) == v;
                assert(t[d]@[j] == t0[d]@[j]);
            }
            assert(t[lv as int]@[t[lv as int]@.len() - 1] == literal);
            assert(on_trail(t, x));
            assert forall|d: int, j: int| 0 <= d < t.len() && 0 <= j < t[d]@.len()
                implies var_index(#[trigger] t[d]@[j]) != x || (d == lv && j == t[d]@.len() - 1) by {
                if !(d == lv && j == t[d]@.len() - 1) {
                    assert(t[d]@[j] == t0[d]@[j]);
                    assert(lit_value(a0, t0[d]@[j]) == LiteralState::TRUE);
                }
            }
            assert forall|v: int| 0 <= v < a.len() implies #[trigger] antecedent_ok(a, v) by {
                assert(antecedent_ok(a0, v));
                if v != x {
                    let p = a[v].parents@;
                    if p.len() > 0 {
                        assert(true_lit(a, v) == true_lit(a0, v));
                        assert forall|i: int| 0 <= i < p.len() && p[i] != true_lit(a, v)
                            implies lit_value(a, #[trigger] p[i]) == LiteralState::FALSE && a[var_index(p[i])].level <= a[v].level by {
                            assert(lit_value(a0, p[i]) == LiteralState::FALSE);
                        }
                    }
                } else {
                    assert(true_lit(a, v) == literal);
                }
            }
            assert forall|d: int, c: int| 0 <= d < lv && 0 <= c < self.formula@.len()
                implies !#[trigger] false_upto(a, self.formula@[c]@, d) by {
                assert(!false_upto(a0, self.formula@[c]@, d));
                let i = choose|i: int| 0 <= i < self.formula@[c]@.len() && value_upto(a0, #[trigger] self.formula@[c]@[i], d) != LiteralState::FALSE;
                assert(clause_ok(cnf_view(self.formula@)[c], a.len() as nat));
                assert(value_upto(a, self.formula@[c]@[i], d) != LiteralState::FALSE);
            }
            let o = self.original@;
            let n = a.len();
            let j_new = t[lv as int]@.len() - 1;
            assert forall|v: int| 0 <= v < n implies #[trigger] justified(a, t, o, v) by {
                let p = a[v].parents@;
                if v != x {
                    assert(justified(a0, t0, o, v));
                    assert(antecedent_ok(a0, v));
                    assert forall|i: int| 0 <= i < p.len() && p[i] != true_lit(a, v) && a[var_index(p[i])].level == a[v].level
                        implies earlier(t, a[v].level as int, var_index(#[trigger] p[i]), v) by {
                        assert(true_lit(a, v) == true_lit(a0, v));
                        assert(clause_ok(p, n));
                        assert(lit_value(a0, p[i]) == LiteralState::FALSE);
                        assert(var_index(p[i]) != x);
                        let d = a[v].level as int;
                        let (j1, j2) = choose|j1: int, j2: int| 0 <= j1 < j2 < t0[d]@.len()
                            && #[trigger] var_index(t0[d]@[j1]) == var_index(p[i]) && #[trigger] var_index(t0[d]@[j2]) == v;
                        assert(t[d]@[j1] == t0[d]@[j1]);
                        assert(t[d]@[j2] == t0[d]@[j2]);
                    }
                } else {
                    assert(true_lit(a, v) == literal);
                    assert forall|i: int| 0 <= i < p.len() && p[i] != true_lit(a, v) && a[var_index(p[i])].level == a[v].level
                        implies earlier(t, a[v].level as int, var_index(#[trigger] p[i]), v) by {
                        let w = var_index(p[i]);
                        assert(lit_ok(p[i], n as nat));
                        assert(lit_value(a0, p[i]) == LiteralState::FALSE);
                        assert(w != x);
                        assert(a0[w].value != LiteralState::UNKNOWN);
                        let (d, j) = choose|d: int, j: int| 0 <= d < t0.len() && 0 <= j < t0[d]@.len() && #[trigger] var_index(t0[d]@[j]) == w;
                        assert(a0[var_index(t0[d]@[j])].level == d);
                        assert(t[lv as int]@[j] == t0[lv as int]@[j]);
                        assert(var_index(t[lv as int]@[j_new]) == x);
                    }
                }
            }
            assert forall|d: int, j: int| 0 <= d < t.len() && 0 <= j < t[d]@.len() && (d == 0 || j > 0)
                implies a[var_index(#[trigger] t[d]@[j])].parents@.len() > 0 by {
                if !(d == lv && j == j_new) {
                    assert(t[d]@[j] == t0[d]@[j]);
                    assert(lit_value(a0, t0[d]@[j]) == LiteralState::TRUE);
                    assert(var_index(t0[d]@[j]) != x);
                }
            }
            assert forall|m: Seq<bool>, v: int|
                m.len() == n && model_of(m, o) && 0 <= v < n && a[v].value != LiteralState::UNKNOWN
                    && a[v].level == 0 implies #[trigger] agrees(m, a, v) by {
                if v != x {
                    assert(agrees(m, a0, v));
                } else {
                    let p = a[v].parents@;
                    assert(clause_holds(m, p));
                    let i = choose|i: int| 0 <= i < p.len() && lit_holds(m, #[trigger] p[i]);
                    assert(lit_ok(p[i], n as nat));
                    if p[i] != literal {
                        let w = var_index(p[i]);
                        assert(lit_value(a0, p[i]) == LiteralState::FALSE);
                        assert(agrees(m, a0, w));
                        lemma_agrees_lit(m, a0, p[i]);
                    }
                }
            }
        }
    }

    /// Unassigns every variable assigned above `level`, drops the trail
    /// levels above it and makes it the current level.
    fn backtrack(&mut self, level: usize)
        requires
            old(self).wf(),
            level <= old(self).level,
        ensures
            final(self).wf(),
            final(self).level == level,
            final(self).formula@ == old(self).formula@,
            final(self).original@ == old(self).original@,
            final(self).assignment@.len() == old(self).assignment@.len(),
            forall|v: int| 0 <= v < old(self).assignment@.len() && (#[trigger] old(self).assignment@[v]).level <= level
                ==> final(self).assignment@[v] == old(self).assignment@[v],
            forall|v: int| 0 <= v < old(self).assignment@.len() && (#[trigger] old(self).assignment@[v]).level > level
                ==> final(self).assignment@[v].value == LiteralState::UNKNOWN
                && final(self).assignment@[v].level == 0
                && final(self).assignment@[v].parents@.len() == 0,
            forall|d: int| 0 <= d <= level ==> (#[trigger] final(self).trail@[d])@ == old(self).trail@[d]@,
            level == old(self).level ==> final(self).assignment@ == old(self).assignment@,
    {
        let ghost a0 = self.assignment@;
        let mut i: usize = 0;
        while i < self.assignment.len()
            invariant
                i <= self.assignment@.len() == a0.len() <= i32::MAX,
                a0 == old(self).assignment@,
                old(self).wf(),
                level <= old(self).level,
                self.formula@ == old(self).formula@,
                self.trail@ == old(self).trail@,
                self.level == old(self).level,
                self.original@ == old(self).original@,
                forall|v: int| 0 <= v < a0.len() ==> (#[trigger] a0[v]).literal == v + 1,
                forall|v: int| 0 <= v < a0.len() && (v >= i || a0[v].level <= level)
                    ==> #[trigger] self.assignment@[v] == a0[v],
                forall|v: int| 0 <= v < i && (#[trigger] a0[v]).level > level
                    ==> self.assignment@[v].value == LiteralState::UNKNOWN && self.assignment@[v].level == 0
                    && self.assignment@[v].parents@.len() == 0 && self.assignment@[v].literal == v + 1,
            decreases a0.len() - i,
        {
            if self.assignment[i].level > level {
                self.assignment.set(i, Node::new((i + 1) as i32));
            }
            i = i + 1;
        }
        self.trail.truncate(level + 1);
        self.level = level;
        proof {
            if level == old(self).level {
                assert(self.assignment@ =~= a0);
            }
            let a = self.assignment@;
            let t = self.trail@;
            assert forall|l: i32| lit_ok(l, a.len() as nat) && a0[var_index(l)].level <= level
                implies #[trigger] lit_value(a, l) == lit_value(a0, l) by {}
            assert forall|v: int| 0 <= v < a.len() && (#[trigger] a[v]).value != LiteralState::UNKNOWN
                implies on_trail(t, v) by {
                assert(a[v] == a0[v]);
                let (d0, j0) = choose|d: int, j: int|
                    0 <= d < old(self).trail@.len() && 0 <= j < old(self).trail@[d]@.len()
                    && #[trigger] var_index(old(self).trail@[d]@[j]) == v;
                assert(a0[var_index(old(self).trail@[d0]@[j0])].level == d0);
                assert(t[d0]@[j0] == old(self).trail@[d0]@[j0]);
            }
            assert forall|v: int| 0 <= v < a.len() implies #[trigger] antecedent_ok(a, v) by {
                assert(antecedent_ok(a0, v));
                if a0[v].level <= level {
                    let p = a[v].parents@;
                    if p.len() > 0 {
                        assert(clause_ok(p, a.len() as nat));
                        assert forall|k: int| 0 <= k < p.len() && p[k] != true_lit(a, v)
                            implies lit_value(a, #[trigger] p[k]) == LiteralState::FALSE && a[var_index(p[k])].level <= a[v].level by {
                            assert(a0[var_index(p[k])].level <= a0[v].level);
                        }
                    }
                }
            }
            assert forall|d: int, c: int| 0 <= d < level && 0 <= c < self.formula@.len()
                implies !#[trigger] false_upto(a, self.formula@[c]@, d) by {
                assert(!false_upto(a0, self.formula@[c]@, d));
                let k = choose|k: int| 0 <= k < self.formula@[c]@.len() && value_upto(a0, #[trigger] self.formula@[c]@[k], d) != LiteralState::FALSE;
                assert(clause_ok(cnf_view(self.formula@)[c], a.len() as nat));
                assert(value_upto(a, self.formula@[c]@[k], d) != LiteralState::FALSE);
            }
            let o = self.original@;
            let t0 = old(self).trail@;
            let n = a.len();
            assert forall|v: int| 0 <= v < n implies #[trigger] justified(a, t, o, v) by {
                assert(justified(a0, t0, o, v));
                if a0[v].level <= level {
                    let p = a[v].parents@;
                    assert forall|i: int| 0 <= i < p.len() && p[i] != true_lit(a, v) && a[var_index(p[i])].level == a[v].level
                        implies earlier(t, a[v].level as int, var_index(#[trigger] p[i]), v) by {
                        assert(antecedent_ok(a0, v));
                        assert(clause_ok(p, n as nat));
                        assert(a0[var_index(p[i])].level <= a0[v].level);
                        let d = a[v].level as int;
                        let (j1, j2) = choose|j1: int, j2: int| 0 <= j1 < j2 < t0[d]@.len()
                            && #[trigger] var_index(t0[d]@[j1]) == var_index(p[i]) && #[trigger] var_index(t0[d]@[j2]) == v;
                        assert(t[d] == t0[d]);
                    }
                }
            }
            assert forall|d: int, j: int| 0 <= d < t.len() && 0 <= j < t[d]@.len() && (d == 0 || j > 0)
                implies a[var_index(#[trigger] t[d]@[j])].parents@.len() > 0 by {
                assert(t[d] == t0[d]);
                assert(a0[var_index(t0[d]@[j])].level == d);
            }
            assert forall|m: Seq<bool>, v: int|
                m.len() == n && model_of(m, o) && 0 <= v < n && a[v].value != LiteralState::UNKNOWN
                    && a[v].level == 0 implies #[trigger] agrees(m, a, v) by {
                assert(agrees(m, a0, v));
            }
        }
    }

    /// Runs unit propagation to a fixpoint or to a conflict. Returns the
    /// first clause found FALSE, or `None` when no clause is FALSE or unit.
    ///
    /// Each pass scans the clauses in order and then assigns the units it
    /// found, last found first; a unit whose variable an earlier one of the
    /// pass assigned is left for the next pass to judge.
    fn unit_propagate(&mut self) -> (r: Option<Clause>)
        requires
            old(self).wf(),
        ensures
            final(self).wf(),
            final(self).formula@ == old(self).formula@,
            final(self).original@ == old(self).original@,
            final(self).level == old(self).level,
            extends(old(self).assignment@, final(self).assignment@),
            forall|d: int| 0 <= d < old(self).level ==> (#[trigger] final(self).trail@[d])@ == old(self).trail@[d]@,
            newly_forced(*old(self), *final(self)),
            old(self).formula@.len() == 0 ==> *final(self) == *old(self) && r is None,
            has_empty_clause(cnf_view(old(self).formula@)) ==> *final(self) == *old(self) && r is Some,
            match r {
                Some(c) => {
                    &&& clause_value(final(self).assignment@, c@) == LiteralState::FALSE
                    &&& cnf_view(final(self).formula@).contains(c@)
                },
                None => forall|i: int| 0 <= i < final(self).formula@.len() ==> {
                    &&& clause_value(final(self).assignment@, #[trigger] final(self).formula@[i]@) != LiteralState::FALSE
                    &&& !is_unit(final(self).assignment@, final(self).formula@[i]@)
                },
            },
    {
        let ghost n = self.assignment@.len();
        proof {
            lemma_progress_limit(self.assignment@, n);
            let lv = self.level as int;
            assert(self.trail@[lv]@.subrange(0, self.trail@[lv]@.len() as int) =~= self.trail@[lv]@);
        }
        loop
            invariant
                self.wf(),
                n == self.assignment@.len(),
                self.formula@ == old(self).formula@,
                self.original@ == old(self).original@,
                self.level == old(self).level,
                extends(old(self).assignment@, self.assignment@),
                forall|d: int| 0 <= d < old(self).level ==> (#[trigger] self.trail@[d])@ == old(self).trail@[d]@,
                progress(self.assignment@, n) <= progress_limit(n),
                forced_so_far(*old(self), *self),
                old(self).wf(),
                old(self).formula@.len() == 0 ==> *self == *old(self),
                has_empty_clause(cnf_view(old(self).formula@)) ==> *self == *old(self),
            decreases progress_limit(n) - progress(self.assignment@, n),
        {
            let mut units: Vec<(Literal, Clause)> = Vec::new();
            let mut i: usize = 0;
            while i < self.formula.len()
                invariant
                    self.wf(),
                    n == self.assignment@.len(),
                    i <= self.formula@.len(),
                    self.formula@ == old(self).formula@,
                    self.original@ == old(self).original@,
                    self.level == old(self).level,
                    extends(old(self).assignment@, self.assignment@),
                    forall|d: int| 0 <= d < old(self).level ==> (#[trigger] self.trail@[d])@ == old(self).trail@[d]@,
                    progress(self.assignment@, n) <= progress_limit(n),
                    forced_so_far(*old(self), *self),
                    old(self).wf(),
                    old(self).formula@.len() == 0 ==> *self == *old(self),
                    has_empty_clause(cnf_view(old(self).formula@)) ==> *self == *old(self),
                    forall|k: int| 0 <= k < units@.len() ==> unit_ok(self.assignment@, (#[trigger] units@[k]).0, units@[k].1@),
                    forall|k: int| 0 <= k < units@.len() ==> entails(self.original@, (#[trigger] units@[k]).1@, n),
                    forall|k: int| 0 <= k < units@.len() ==> cnf_view(self.formula@).contains((#[trigger] units@[k]).1@),
                    forall|k: int| 0 <= k < i ==> clause_value(self.assignment@, #[trigger] self.formula@[k]@) != LiteralState::FALSE,
                    units@.len() == 0 ==> forall|k: int| 0 <= k < i ==> !is_unit(self.assignment@, #[trigger] self.formula@[k]@),
                decreases self.formula@.len() - i,
            {
                assert(clause_ok(cnf_view(self.formula@)[i as int], n));
                let value = self.calculate_clause(&self.formula[i]);
                if value == LiteralState::FALSE {
                    let c = copy_clause(&self.formula[i]);
                    assert(cnf_view(self.formula@)[i as int] == c@);
                    proof {
                        Self::lemma_forced(*old(self), *self);
                    }
                    return Some(c);
                }
                if value == LiteralState::UNKNOWN {
                    let unknown = self.get_unknown_from_clause(&self.formula[i]);
                    if unknown.len() == 1 {
                        let c = copy_clause(&self.formula[i]);
                        proof {
                            let a = self.assignment@;
                            let pred = |l: i32| lit_value(a, l) == LiteralState::UNKNOWN;
                            assert(c@.filter(pred) == unknown@);
                            c@.lemma_filter_pred(pred, 0);
                            assert(c@.filter(pred).contains(unknown@[0]));
                            c@.lemma_filter_contains_rev(pred, unknown@[0]);
                            assert forall|j: int| 0 <= j < c@.len() && c@[j] != unknown@[0]
                                implies lit_value(a, #[trigger] c@[j]) == LiteralState::FALSE by {
                                if lit_value(a, c@[j]) == LiteralState::UNKNOWN {
                                    c@.lemma_filter_contains(pred, j);
                                }
                                assert(!has_lit_with(a, c@, LiteralState::TRUE));
                            }
                        }
                        assert(self.formula@[i as int]@ == c@);
                        assert(cnf_view(self.formula@)[i as int] == c@);
                        units.push((unknown[0], c));
                    }
                }
                i = i + 1;
            }
            if units.len() == 0 {
                proof {
                    Self::lemma_forced(*old(self), *self);
                }
                return None;
            }
            proof {
                let f = cnf_view(self.formula@);
                assert(f.contains(units@[0].1@));
                if has_empty_clause(f) {
                    let i = choose|i: int| 0 <= i < f.len() && (#[trigger] f[i]).len() == 0;
                    assert(self.formula@[i]@ == f[i]);
                    assert(clause_value(self.assignment@, f[i]) == LiteralState::FALSE);
                }
            }
            let ghost a1 = self.assignment@;
            let ghost p1 = progress(a1, n);
            let mut k: usize = units.len();
            while k > 0
                invariant
                    self.wf(),
                    n == self.assignment@.len(),
                    0 <= k <= units@.len(),
                    units@.len() > 0,
                    self.formula@ == old(self).formula@,
                    self.original@ == old(self).original@,
                    self.level == old(self).level,
                    extends(a1, self.assignment@),
                    extends(old(self).assignment@, a1),
                    forall|d: int| 0 <= d < old(self).level ==> (#[trigger] self.trail@[d])@ == old(self).trail@[d]@,
                    forall|m: int| 0 <= m < units@.len() ==> unit_ok(a1, (#[trigger] units@[m]).0, units@[m].1@),
                    forall|m: int| 0 <= m < units@.len() ==> entails(self.original@, (#[trigger] units@[m]).1@, n),
                    forall|m: int| 0 <= m < units@.len() ==> cnf_view(self.formula@).contains((#[trigger] units@[m]).1@),
                    forced_so_far(*old(self), *self),
                    progress(a1, n) <= progress(self.assignment@, n),
                    k < units@.len() ==> progress(a1, n) < progress(self.assignment@, n),
                    k == units@.len() ==> self.assignment@ == a1,
                decreases k,
            {
                k = k - 1;
                let literal = units[k].0;
                let index = self.literal_to_index(literal);
                if self.assignment[index].value == LiteralState::UNKNOWN {
                    let c = copy_clause(&units[k].1);
                    let ghost a2 = self.assignment@;
                    proof {
                        assert(unit_ok(a1, literal, c@));
                        assert(entails(self.original@, units@[k as int].1@, n));
                        assert(cnf_view(self.formula@).contains(units@[k as int].1@));
                        assert forall|j: int| 0 <= j < c@.len() && c@[j] != literal
                            implies lit_value(a2, #[trigger] c@[j]) == LiteralState::FALSE by {
                            assert(lit_value(a1, c@[j]) == LiteralState::FALSE);
                        }
                    }
                    self.set_literal(literal, c);
                    proof {
                        let a3 = self.assignment@;
                        lemma_progress_update(a2, n, index as int, a3[index as int]);
                        lemma_power_mono(n + 1, 0, (n - a3[index as int].level) as nat);
                        assert(a3 == a2.update(index as int, a3[index as int]));
                        let lv = old(self).level as int;
                        let t0 = old(self).trail@[lv]@;
                        assert(self.trail@[lv]@.subrange(0, t0.len() as int) =~= t0);
                        assert forall|v: int| 0 <= v < n && old(self).assignment@[v].value == LiteralState::UNKNOWN
                            && (#[trigger] a3[v]).value != LiteralState::UNKNOWN
                            implies a3[v].level == lv && cnf_view(self.formula@).contains(a3[v].parents@) by {
                            if v != index {
                                assert(a3[v] == a2[v]);
                            }
                        }
                        assert forall|v: int| 0 <= v < n && (#[trigger] a1[v]).value != LiteralState::UNKNOWN
                            implies a3[v] == a1[v] by {
                            assert(a2[v] == a1[v]);
                        }
                    }
                }
            }
            proof {
                let a = self.assignment@;
                assert forall|v: int| 0 <= v < n && (#[trigger] old(self).assignment@[v]).value != LiteralState::UNKNOWN
                    implies a[v] == old(self).assignment@[v] by {
                    assert(a1[v] == old(self).assignment@[v]);
                }
                lemma_progress_limit(a, n);
            }
        }
    }

    proof fn lemma_forced(before: Solver, after: Solver)
        requires
            before.wf(),
            after.wf(),
            before.assignment@.len() == after.assignment@.len(),
            before.level == after.level,
            forced_so_far(before, after),
        ensures
            newly_forced(before, after),
    {
        let lv = before.level as int;
        assert(before.trail_view()[lv] == before.trail@[lv]@);
        assert(after.trail_view()[lv] == after.trail@[lv]@);
        assert forall|v: int| 0 <= v < after.assignment@.len() implies #[trigger] antecedent_ok(after.assignment@, v) by {}
    }

    /// The literal of the current trail level assigned last among those
    /// whose variable is the variable of one of `literals`.
    fn get_latest_assignment(&self, literals: &Vec<Literal>) -> (r: Option<Literal>)
        requires
            self.wf(),
        ensures
            match r {
                Some(x) => exists|j: int| {
                    &&& 0 <= j < self.trail@[self.level as int]@.len()
                    &&& self.trail@[self.level as int]@[j] == x
                    &&& exists|i: int| 0 <= i < literals@.len() && abs(#[trigger] literals@[i] as int) == abs(x as int)
                    &&& forall|k: int, i: int| j < k < self.trail@[self.level as int]@.len() && 0 <= i < literals@.len()
                        ==> abs(#[trigger] literals@[i] as int) != abs(#[trigger] self.trail@[self.level as int]@[k] as int)
                },
                None => forall|k: int, i: int| 0 <= k < self.trail@[self.level as int]@.len() && 0 <= i < literals@.len()
                    ==> abs(#[trigger] literals@[i] as int) != abs(#[trigger] self.trail@[self.level as int]@[k] as int),
            },
    {
        let current_trail = &self.trail[self.level];
        let mut k: usize = current_trail.len();
        while k > 0
            invariant
                self.wf(),
                current_trail@ == self.trail@[self.level as int]@,
                k <= current_trail@.len(),
                forall|m: int, i: int| k <= m < current_trail@.len() && 0 <= i < literals@.len()
                    ==> abs(#[trigger] literals@[i] as int) != abs(#[trigger] current_trail@[m] as int),
            decreases k,
        {
            k = k - 1;
            let history = current_trail[k];
            assert(lit_ok(self.trail@[self.level as int]@[k as int], self.assignment@.len() as nat));
            let h = if history < 0 { -history } else { history };
            let mut i: usize = 0;
            while i < literals.len()
                invariant
                    i <= literals@.len(),
                    h == abs(history as int),
                    current_trail@ == self.trail@[self.level as int]@,
                    k < current_trail@.len(),
                    history == current_trail@[k as int],
                    forall|m: int, i: int| k < m < current_trail@.len() && 0 <= i < literals@.len()
                        ==> abs(#[trigger] literals@[i] as int) != abs(#[trigger] current_trail@[m] as int),
                    forall|m: int| 0 <= m < i ==> abs(#[trigger] literals@[m] as int) != h,
                decreases literals@.len() - i,
            {
                let l = literals[i];
                if l == h || (l < 0 && l == -h) {
                    assert(abs(literals@[i as int] as int) == h);
                    assert(current_trail@[k as int] == history);
                    return Some(history);
                }
                i = i + 1;
            }
        }
        None
    }

    /// Sorts the literals of `work` into `current` (assigned at the current
    /// level) and `past` (assigned below it), skipping those already there.
    fn partition_literals(&self, work: &Clause, current: &mut Vec<Literal>, past: &mut Vec<Literal>, checked: &Vec<Literal>)
        requires
            self.wf(),
            self.level > 0,
            work_ok(self.assignment@, work@, checked@),
            parts_ok(self.assignment@, self.level as int, old(current)@, old(past)@, checked@),
            forall|k: int| 0 <= k < old(current)@.len() ==> below_checked(self.trail@[self.level as int]@, checked@, #[trigger] old(current)@[k]),
            forall|k: int| 0 <= k < work@.len() && self.assignment@[var_index(work@[k])].level == self.level
                ==> below_checked(self.trail@[self.level as int]@, checked@, #[trigger] work@[k]),
        ensures
            parts_ok(self.assignment@, self.level as int, final(current)@, final(past)@, checked@),
            final(current)@.len() >= old(current)@.len(),
            (exists|k: int| 0 <= k < work@.len() && self.assignment@[var_index(#[trigger] work@[k])].level == self.level)
                ==> final(current)@.len() > 0,
            forall|k: int| 0 <= k < final(current)@.len() ==> below_checked(self.trail@[self.level as int]@, checked@, #[trigger] final(current)@[k]),
            forall|k: int| 0 <= k < (old(current)@ + old(past)@ + work@).len()
                ==> (final(current)@ + final(past)@).contains(#[trigger] (old(current)@ + old(past)@ + work@)[k]),
    {
        let ghost a = self.assignment@;
        let ghost lv = self.level as int;
        let ghost top = self.trail@[lv]@;
        let ghost c0 = current@;
        let ghost p0 = past@;
        proof {
            assert forall|k: int| 0 <= k < c0.len() implies (#[trigger] c0[k] == c0[k]) && (current@.contains(c0[k]) || past@.contains(c0[k])) by {
                assert(current@[k] == c0[k]);
            }
            assert forall|k: int| 0 <= k < p0.len() implies (#[trigger] p0[k] == p0[k]) && (current@.contains(p0[k]) || past@.contains(p0[k])) by {
                assert(past@[k] == p0[k]);
            }
        }
        let mut i: usize = 0;
        while i < work.len()
            invariant
                self.wf(),
                a == self.assignment@,
                lv == self.level as int,
                top == self.trail@[lv]@,
                i <= work@.len(),
                work_ok(a, work@, checked@),
                parts_ok(a, lv, current@, past@, checked@),
                current@.len() >= c0.len(),
                (exists|k: int| 0 <= k < i && a[var_index(#[trigger] work@[k])].level == lv) ==> current@.len() > 0,
                forall|k: int| 0 <= k < current@.len() ==> below_checked(top, checked@, #[trigger] current@[k]),
                forall|k: int| 0 <= k < work@.len() && a[var_index(work@[k])].level == lv
                    ==> below_checked(top, checked@, #[trigger] work@[k]),
                forall|k: int| 0 <= k < c0.len() ==> current@.contains(#[trigger] c0[k]) || past@.contains(c0[k]),
                forall|k: int| 0 <= k < p0.len() ==> current@.contains(#[trigger] p0[k]) || past@.contains(p0[k]),
                forall|k: int| 0 <= k < i ==> current@.contains(#[trigger] work@[k]) || past@.contains(work@[k]),
            decreases work@.len() - i,
        {
            let literal = work[i];
            let index = self.literal_to_index(literal);
            let ghost cb = current@;
            let ghost pb = past@;
            if self.assignment[index].level == self.level {
                if !vec_contains(current, literal) {
                    current.push(literal);
                }
            } else if !vec_contains(past, literal) {
                past.push(literal);
            }
            proof {
                assert forall|y: i32| cb.contains(y) implies current@.contains(y) by {
                    if current@ != cb { lemma_push_contains(cb, literal, y); }
                }
                assert forall|y: i32| pb.contains(y) implies past@.contains(y) by {
                    if past@ != pb { lemma_push_contains(pb, literal, y); }
                }
                if current@ != cb {
                    assert(current@[current@.len() - 1] == literal);
                }
                if past@ != pb {
                    assert(past@[past@.len() - 1] == literal);
                }
            }
            i = i + 1;
        }
        proof {
            let w = c0 + p0 + work@;
            assert forall|k: int| 0 <= k < w.len() implies (current@ + past@).contains(#[trigger] w[k]) by {
                if k < c0.len() {
                    assert(w[k] == c0[k]);
                } else if k < c0.len() + p0.len() {
                    assert(w[k] == p0[k - c0.len()]);
                } else {
                    assert(w[k] == work@[k - c0.len() - p0.len()]);
                }
                lemma_concat_contains(current@, past@, w[k]);
            }
        }
    }

    /// Appends `current ++ past` to the formula, `current` being a single
    /// literal, and returns the level to go back to.
    fn learn_clause(&mut self, current: &Vec<Literal>, past: &Vec<Literal>) -> (back: usize)
        requires
            old(self).wf(),
            old(self).level > 0,
            current@.len() == 1,
            parts_ok(old(self).assignment@, old(self).level as int, current@, past@, seq![]),
            entails(old(self).original@, current@ + past@, old(self).assignment@.len() as nat),
        ensures
            learned_ok(*old(self), *final(self), back),
    {
        let ghost a = self.assignment@;
        let ghost lv = self.level as int;
        let ghost n = a.len() as nat;
        let mut learned: Clause = Vec::new();
        learned.push(current[0]);
        let mut back: usize = self.level - 1;
        let mut found = false;
        let mut j: usize = 0;
        while j < past.len()
            invariant
                self.wf(),
                *self == *old(self),
                a == self.assignment@,
                lv == self.level as int,
                n == a.len(),
                j <= past@.len(),
                current@.len() == 1,
                parts_ok(a, lv, current@, past@, seq![]),
                learned@.len() >= 1,
                learned@[0] == current@[0],
                forall|i: int| 1 <= i < learned@.len() ==> past@.subrange(0, j as int).contains(#[trigger] learned@[i]),
                forall|k: int| 0 <= k < j ==> learned@.contains(#[trigger] past@[k]),
                forall|i1: int, i2: int| 0 <= i1 < i2 < learned@.len() ==> #[trigger] learned@[i1] != #[trigger] learned@[i2],
                back < lv,
                forall|i: int| 1 <= i < learned@.len() ==> a[var_index(#[trigger] learned@[i])].level <= back,
                found ==> exists|i: int| 1 <= i < learned@.len() && a[var_index(#[trigger] learned@[i])].level == back,
                !found ==> j == 0 && back == lv - 1,
                j > 0 ==> found && learned@.len() > 1,
                learned@.len() > 1 ==> j > 0,
            decreases past@.len() - j,
        {
            let index = self.literal_to_index(past[j]);
            let l = self.assignment[index].level;
            let ghost lb = learned@;
            let ghost back0 = back;
            if !found || l > back {
                back = l;
            }
            found = true;
            proof {
                assert(past@.subrange(0, j as int) =~= past@.subrange(0, j + 1).drop_last());
                assert forall|y: i32| past@.subrange(0, j as int).contains(y) implies past@.subrange(0, j + 1).contains(y) by {
                    let k = choose|k: int| 0 <= k < j && past@.subrange(0, j as int)[k] == y;
                    assert(past@.subrange(0, j + 1)[k] == y);
                }
                assert(past@.subrange(0, j + 1)[j as int] == past@[j as int]);
                assert(past@[j as int] != current@[0]) by {
                    assert(a[var_index(past@[j as int])].level < lv);
                }
            }
            if !vec_contains(&learned, past[j]) {
                learned.push(past[j]);
                proof {
                    assert(learned@[learned@.len() - 1] == past@[j as int]);
                    assert forall|y: i32| lb.contains(y) implies learned@.contains(y) by {
                        lemma_push_contains(lb, past@[j as int], y);
                    }
                }
            } else {
                proof {
                    let i = choose|i: int| 0 <= i < lb.len() && lb[i] == past@[j as int];
                    assert(i >= 1);
                }
            }
            j = j + 1;
        }
        let ghost f0 = self.formula@;
        let ghost lv_learned = learned@;
        self.formula.push(learned);
        proof {
            let f = self.formula@;
            let lc = f.last()@;
            assert(lc == lv_learned);
            assert(past@.subrange(0, past@.len() as int) == past@);
            assert(lc.len() == 1 ==> back == lv - 1);
            assert(forall|j1: int, j2: int| 0 <= j1 < j2 < lc.len() ==> #[trigger] lc[j1] != #[trigger] lc[j2]);
            assert(forall|i: int| 1 <= i < lc.len() ==> a[var_index(#[trigger] lc[i])].level <= back);
            assert(lc[0] == current@[0]);
            assert(a[var_index(lc[0])].level == lv);
            assert forall|k: int| 0 <= k < lc.len() implies lit_ok(#[trigger] lc[k], n)
                && lit_value(a, lc[k]) == LiteralState::FALSE by {
                if k > 0 {
                    let q = choose|q: int| 0 <= q < past@.len() && past@[q] == lc[k];
                }
            }
            if lc.len() > 1 {
                let k = choose|k: int| 1 <= k < lc.len() && a[var_index(#[trigger] lc[k])].level == back;
            }
            assert forall|k: int| 0 <= k < (current@ + past@).len() implies lc.contains(#[trigger] (current@ + past@)[k]) by {
                if k == 0 {
                    assert(lc[0] == (current@ + past@)[0]);
                } else {
                    assert((current@ + past@)[k] == past@[k - 1]);
                }
            }
            lemma_entails_superset(self.original@, current@ + past@, lc, n);
            assert(f.drop_last() =~= f0);
            assert forall|i: int| 0 <= i < f.len() implies clause_ok(#[trigger] cnf_view(f)[i], n) by {
                if i < f0.len() {
                    assert(cnf_view(f)[i] == cnf_view(f0)[i]);
                }
            }
            assert forall|d: int, c: int| 0 <= d < lv && 0 <= c < f.len()
                implies !#[trigger] false_upto(a, f[c]@, d) by {
                if c == f.len() - 1 {
                    assert(value_upto(a, lc[0], d) == LiteralState::UNKNOWN);
                } else {
                    assert(f[c] == f0[c]);
                }
            }
            assert forall|i: int| 0 <= i < self.original@.len() implies (#[trigger] f[i])@ == self.original@[i] by {
                assert(f[i] == f0[i]);
            }
            assert forall|c: int| 0 <= c < f.len() implies entails(self.original@, (#[trigger] f[c])@, n) by {
                if c < f0.len() {
                    assert(f[c] == f0[c]);
                }
            }
            assert(lc.len() > 1 ==> exists|k: int| 1 <= k < lc.len() && a[var_index(#[trigger] lc[k])].level == back);
        }
        back
    }

    /// The literals of the antecedent of variable index `index` that are
    /// assigned and whose variable is not in `checked`.
    fn resolve_with_parents(&self, index: usize, checked: &Vec<Literal>) -> (r: Clause)
        requires
            self.wf(),
            index < self.assignment@.len(),
            checked@.contains((index + 1) as i32),
            forall|i: int| 0 <= i < self.assignment@[index as int].parents@.len()
                && self.assignment@[index as int].parents@[i] != true_lit(self.assignment@, index as int)
                ==> !checked@.contains(abs(#[trigger] self.assignment@[index as int].parents@[i] as int) as i32),
        ensures
            work_ok(self.assignment@, r@, checked@),
            forall|i: int| 0 <= i < r@.len() ==> self.assignment@[index as int].parents@.contains(#[trigger] r@[i]),
            forall|i: int| 0 <= i < self.assignment@[index as int].parents@.len()
                && self.assignment@[index as int].parents@[i] != true_lit(self.assignment@, index as int)
                ==> r@.contains(#[trigger] self.assignment@[index as int].parents@[i]),
    {
        let ghost a = self.assignment@;
        let ghost n = a.len() as nat;
        let parents = &self.assignment[index].parents;
        let ghost p = parents@;
        proof {
            assert(antecedent_ok(a, index as int));
            assert(clause_ok(a[index as int].parents@, n));
        }
        let mut next: Clause = Vec::new();
        let mut m: usize = 0;
        while m < parents.len()
            invariant
                self.wf(),
                a == self.assignment@,
                n == a.len(),
                index < n,
                parents@ == a[index as int].parents@,
                p == parents@,
                antecedent_ok(a, index as int),
                clause_ok(parents@, n),
                m <= parents@.len(),
                checked@.contains((index + 1) as i32),
                forall|i: int| 0 <= i < p.len() && p[i] != true_lit(a, index as int)
                    ==> !checked@.contains(abs(#[trigger] p[i] as int) as i32),
                work_ok(a, next@, checked@),
                forall|i: int| 0 <= i < next@.len() ==> p.contains(#[trigger] next@[i]),
                forall|i: int| 0 <= i < m && p[i] != true_lit(a, index as int) ==> next@.contains(#[trigger] p[i]),
            decreases parents@.len() - m,
        {
            let l = parents[m];
            let al = if l < 0 { -l } else { l };
            let ghost nb = next@;
            if !vec_contains(checked, al) && self.get_node_value(l) != LiteralState::UNKNOWN {
                proof {
                    if l == true_lit(a, index as int) {
                        assert(al == index + 1);
                    }
                }
                next.push(l);
            }
            proof {
                assert forall|y: i32| nb.contains(y) implies next@.contains(y) by {
                    if next@ != nb { lemma_push_contains(nb, l, y); }
                }
                if p[m as int] != true_lit(a, index as int) {
                    if p[m as int] != true_lit(a, index as int) && lit_value(a, p[m as int]) == LiteralState::UNKNOWN {
                        assert(lit_value(a, p[m as int]) == LiteralState::FALSE);
                    }
                    assert(next@[next@.len() - 1] == l);
                }
                if next@ != nb {
                    assert(next@[next@.len() - 1] == l);
                    assert(p[m as int] == l);
                }
            }
            m = m + 1;
        }
        next
    }

    /// Derives a learned clause from the FALSE clause `clause`, appends it
    /// to the formula and returns the level to go back to; at level 0
    /// returns `None`, the formula being unsatisfiable.
    ///
    /// The learned clause holds one literal assigned at the current level,
    /// first, and literals assigned at lower levels; all are FALSE. The
    /// level returned is the highest level among the latter, or the level
    /// below the current one when there are none.
    #[verifier::rlimit(100)]
    fn analyze_conflict(&mut self, clause: &Clause) -> (r: Option<usize>)
        requires
            old(self).wf(),
            clause_value(old(self).assignment@, clause@) == LiteralState::FALSE,
            cnf_view(old(self).formula@).contains(clause@),
        ensures
            r is None <==> old(self).level == 0,
            r is None ==> *final(self) == *old(self),
            r matches Some(b) ==> learned_ok(*old(self), *final(self), b),
    {
        if self.level == 0 {
            return None;
        }
        let ghost n = self.assignment@.len() as nat;
        let ghost a = self.assignment@;
        let ghost lv = self.level as int;
        let ghost top = self.trail@[lv]@;
        proof {
            let i = choose|i: int| 0 <= i < self.formula@.len() && cnf_view(self.formula@)[i] == clause@;
            assert(clause_ok(cnf_view(self.formula@)[i], n));
            assert(!false_upto(a, self.formula@[i]@, lv - 1));
            assert forall|k: int| 0 <= k < clause@.len() implies lit_value(a, #[trigger] clause@[k]) == LiteralState::FALSE by {
                assert(!has_lit_with(a, clause@, LiteralState::TRUE));
                assert(!has_lit_with(a, clause@, LiteralState::UNKNOWN));
            }
        }
        let ghost o = self.original@;
        let mut checked: Vec<Literal> = Vec::new();
        let mut current: Vec<Literal> = Vec::new();
        let mut past: Vec<Literal> = Vec::new();
        let mut work = copy_clause(clause);
        proof {
            assert(parts_ok(a, lv, current@, past@, checked@));
            let i = choose|i: int| 0 <= i < self.formula@.len() && cnf_view(self.formula@)[i] == clause@;
            assert(self.formula@[i]@ == clause@);
            assert(current@ + past@ + work@ =~= clause@);
        }
        loop
            invariant
                self.wf(),
                *self == *old(self),
                n == a.len(),
                a == self.assignment@,
                o == self.original@,
                lv == self.level as int,
                lv > 0,
                top == self.trail@[lv]@,
                work_ok(a, work@, checked@),
                parts_ok(a, lv, current@, past@, checked@),
                current@.len() > 0 || exists|k: int| 0 <= k < work@.len() && a[var_index(#[trigger] work@[k])].level == lv,
                entails(o, current@ + past@ + work@, n),
                forall|k: int| 0 <= k < checked@.len() ==> 1 <= #[trigger] checked@[k] <= n && a[checked@[k] - 1].level == lv
                    && a[checked@[k] - 1].value != LiteralState::UNKNOWN,
                forall|k: int| 0 <= k < current@.len() ==> below_checked(top, checked@, #[trigger] current@[k]),
                forall|k: int| 0 <= k < work@.len() && a[var_index(work@[k])].level == lv
                    ==> below_checked(top, checked@, #[trigger] work@[k]),
            decreases unchecked(top, checked@),
        {
            let ghost w_all = current@ + past@ + work@;
            self.partition_literals(&work, &mut current, &mut past, &checked);
            proof {
                lemma_entails_superset(o, w_all, current@ + past@, n);
            }
            if current.len() == 1 {
                proof {
                    lemma_parts_unchecked(a, lv, current@, past@, checked@);
                }
                let back = self.learn_clause(&current, &past);
                return Some(back);
            }
            let latest = match self.get_latest_assignment(&current) {
                Some(x) => x,
                None => {
                    proof {
                        let v = var_index(current@[0]);
                        assert(a[v].value != LiteralState::UNKNOWN);
                        assert(on_trail(self.trail@, v));
                        let (d, j) = choose|d: int, j: int| 0 <= d < self.trail@.len() && 0 <= j < self.trail@[d]@.len()
                            && #[trigger] var_index(self.trail@[d]@[j]) == v;
                        assert(abs(current@[0] as int) != abs(self.trail@[lv]@[j] as int));
                    }
                    return None;
                },
            };
            let ghost jl = choose|j: int| 0 <= j < top.len() && top[j] == latest && forall|k: int, i: int| j < k < top.len() && 0 <= i < current@.len()
                ==> abs(#[trigger] current@[i] as int) != abs(#[trigger] top[k] as int);
            proof {
                assert(lit_ok(top[jl], n));
                assert(a[var_index(latest)].level == lv);
            }
            let var = if latest < 0 { -latest } else { latest };
            let ghost old_checked = checked@;
            let ghost old_current = current@;
            proof {
                lemma_unchecked_push(top, checked@, var, jl);
            }
            checked.push(var);
            assert(checked@[checked@.len() - 1] == var);
            let pos = vec_position_of_var(&current, var);
            let ghost x = old_current[pos as int];
            current.remove(pos);
            let index = self.literal_to_index(latest);
            let ghost pr = a[index as int].parents@;
            proof {
                // positions on the current level: each variable at most once
                assert forall|j1: int, j2: int| 0 <= j1 < top.len() && 0 <= j2 < top.len()
                    && var_index(top[j1]) == var_index(top[j2]) implies j1 == j2 by {
                    if j1 < j2 { assert(var_index(top[j1]) != var_index(top[j2])); }
                    if j2 < j1 { assert(var_index(top[j2]) != var_index(top[j1])); }
                }
                // the latest variable is no decision: another current literal stands before it
                let other = if pos == 0 { 1int } else { 0int };
                let y = old_current[other];
                assert(y != x);
                assert(var_index(y) != index) by {
                    assert(lit_value(a, y) == LiteralState::FALSE && lit_value(a, x) == LiteralState::FALSE);
                }
                assert(on_trail(self.trail@, var_index(y)));
                let (dy, jy) = choose|d: int, j: int| 0 <= d < self.trail@.len() && 0 <= j < self.trail@[d]@.len()
                    && #[trigger] var_index(self.trail@[d]@[j]) == var_index(y);
                assert(a[var_index(self.trail@[dy]@[jy])].level == dy);
                assert(jy <= jl) by {
                    if jy > jl {
                        assert(abs(old_current[other] as int) != abs(top[jy] as int));
                    }
                }
                assert(jl > 0);
                assert(pr.len() > 0);
                assert(antecedent_ok(a, index as int));
                assert(justified(a, self.trail@, o, index as int));
                assert(-x == true_lit(a, index as int));
                // every other antecedent literal is below every checked variable
                assert forall|i: int| 0 <= i < pr.len() && pr[i] != true_lit(a, index as int)
                    implies !checked@.contains(abs(#[trigger] pr[i] as int) as i32) by {
                    assert(clause_ok(pr, n));
                    let w = var_index(pr[i]);
                    if checked@.contains(abs(pr[i] as int) as i32) {
                        let q = choose|q: int| 0 <= q < checked@.len() && checked@[q] == abs(pr[i] as int) as i32;
                        assert(a[w].level == lv);
                        let (j1, j2) = choose|j1: int, j2: int| 0 <= j1 < j2 < self.trail@[lv]@.len()
                            && #[trigger] var_index(self.trail@[lv]@[j1]) == w && #[trigger] var_index(self.trail@[lv]@[j2]) == index;
                        assert(j2 == jl);
                        if q < old_checked.len() {
                            assert(old_checked[q] == checked@[q]);
                            assert(below_checked(top, old_checked, old_current[pos as int]));
                            assert(old_checked.contains(abs(top[j1] as int) as i32));
                            assert(false);
                        } else {
                            assert(w == index);
                        }
                    }
                }
            }
            let ghost work_old = work@;
            work = self.resolve_with_parents(index, &checked);
            proof {
                lemma_parts_after_check(a, lv, old_current, current@, past@, old_checked, var, pos as int);
                let w_old = old_current + past@;
                let w_new = current@ + past@ + work@;
                assert forall|i: int| 0 <= i < w_old.len() && w_old[i] != x implies w_new.contains(#[trigger] w_old[i]) by {
                    if i < old_current.len() {
                        assert(w_old[i] == old_current[i]);
                        assert(i != pos);
                        let k = if i < pos { i } else { i - 1 };
                        assert(current@[k] == old_current[i]);
                        assert(w_new[k] == w_old[i]);
                    } else {
                        assert(w_new[i - 1] == w_old[i]);
                    }
                }
                assert forall|i: int| 0 <= i < pr.len() && pr[i] != -x implies w_new.contains(#[trigger] pr[i]) by {
                    let k = choose|k: int| 0 <= k < work@.len() && work@[k] == pr[i];
                    assert(w_new[current@.len() + past@.len() + k] == pr[i]);
                }
                assert(entails(o, pr, n));
                lemma_resolve(o, n, w_old, x, pr, w_new);
                assert forall|k: int| 0 <= k < checked@.len() implies 1 <= #[trigger] checked@[k] <= n && a[checked@[k] - 1].level == lv
                    && a[checked@[k] - 1].value != LiteralState::UNKNOWN by {
                    if k < old_checked.len() { assert(old_checked[k] == checked@[k]); }
                }
                assert forall|k: int| 0 <= k < current@.len() implies below_checked(top, checked@, #[trigger] current@[k]) by {
                    let i = if k < pos { k } else { k + 1 };
                    assert(current@[k] == old_current[i]);
                    assert(below_checked(top, old_checked, old_current[i]));
                    assert forall|j1: int, j2: int| 0 <= j1 < top.len() && 0 <= j2 < top.len() && var_index(#[trigger] top[j1]) == var_index(current@[k])
                        && checked@.contains(abs(#[trigger] top[j2] as int) as i32) implies j1 < j2 by {
                        let q = choose|q: int| 0 <= q < checked@.len() && checked@[q] == abs(top[j2] as int) as i32;
                        if q < old_checked.len() {
                            assert(old_checked[q] == checked@[q]);
                            assert(old_checked.contains(abs(top[j2] as int) as i32));
                        } else {
                            assert(var_index(top[j2]) == index);
                            assert(var_index(top[jl]) == index);
                            assert(j2 == jl);
                            assert(j1 <= jl) by {
                                if j1 > jl { assert(abs(current@[k] as int) != abs(top[j1] as int)); }
                            }
                            assert(var_index(current@[k]) != index);
                        }
                    }
                }
                assert(below_checked(top, old_checked, old_current[pos as int]));
                lemma_new_work_below(a, self.trail@, o, lv, pr, work@, checked@, old_checked, x, jl, index as int);
                assert(current@.len() > 0);
            }
        }
    }

    /// The unassigned variables, as positive literals, in order.
    fn get_all_unknown(&self) -> (r: Vec<Literal>)
        ensures
            r@ == unknown_vars(self.assignment@),
    {
        let ghost a = self.assignment@;
        let mut r: Vec<Literal> = Vec::new();
        let mut i: usize = 0;
        while i < self.assignment.len()
            invariant
                a == self.assignment@,
                i <= a.len(),
                r@ == unknown_vars(a.subrange(0, i as int)),
            decreases a.len() - i,
        {
            assert(a.subrange(0, i + 1).drop_last() == a.subrange(0, i as int));
            if self.assignment[i].value == LiteralState::UNKNOWN {
                r.push(self.assignment[i].literal);
            }
            i = i + 1;
        }
        assert(a.subrange(0, a.len() as int) == a);
        r
    }

    /// The number of clauses that hold `literal`.
    fn count_occurrences(&self, literal: Literal) -> (r: usize)
        ensures
            r == occurrences(cnf_view(self.formula@), literal),
    {
        let ghost f = cnf_view(self.formula@);
        let mut count: usize = 0;
        let mut i: usize = 0;
        while i < self.formula.len()
            invariant
                f == cnf_view(self.formula@),
                i <= f.len(),
                count == occurrences(f.subrange(0, i as int), literal),
                count <= i,
            decreases f.len() - i,
        {
            assert(f.subrange(0, i + 1).drop_last() == f.subrange(0, i as int));
            assert(f.subrange(0, i + 1).last() == self.formula@[i as int]@);
            if vec_contains(&self.formula[i], literal) {
                count = count + 1;
            }
            i = i + 1;
        }
        assert(f.subrange(0, f.len() as int) == f);
        count
    }

    /// Among the variables `literals` and their negations, the literal that
    /// occurs in the most clauses; of equals, the first in the order
    /// `v1, -v1, v2, -v2, ...`.
    fn most_frequent_literal(&self, literals: &Vec<Literal>) -> (r: Literal)
        requires
            literals@.len() > 0,
            2 * literals@.len() <= usize::MAX,
            forall|k: int| 0 <= k < literals@.len() ==> 0 < #[trigger] literals@[k] <= i32::MAX,
        ensures
            exists|p: int| {
                &&& 0 <= p < 2 * literals@.len()
                &&& r == candidate(literals@, p)
                &&& forall|q: int| 0 <= q < p ==> occurrences(cnf_view(self.formula@), #[trigger] candidate(literals@, q))
                    < occurrences(cnf_view(self.formula@), r)
            },
            forall|q: int| 0 <= q < 2 * literals@.len() ==> occurrences(cnf_view(self.formula@), #[trigger] candidate(literals@, q))
                <= occurrences(cnf_view(self.formula@), r),
    {
        let ghost f = cnf_view(self.formula@);
        let mut best = literals[0];
        let mut best_count = self.count_occurrences(best);
        let ghost mut bp: int = 0;
        let total = 2 * literals.len();
        let mut p: usize = 0;
        while p < total
            invariant
                f == cnf_view(self.formula@),
                total == 2 * literals@.len(),
                forall|k: int| 0 <= k < literals@.len() ==> 0 < #[trigger] literals@[k] <= i32::MAX,
                p <= total,
                0 <= bp < total,
                bp <= p || bp == 0,
                best == candidate(literals@, bp),
                best_count == occurrences(f, best),
                forall|q: int| 0 <= q < p ==> occurrences(f, #[trigger] candidate(literals@, q)) <= best_count,
                forall|q: int| 0 <= q < bp ==> occurrences(f, #[trigger] candidate(literals@, q)) < best_count,
            decreases total - p,
        {
            let v = literals[p / 2];
            let c = if p % 2 == 0 { v } else { -v };
            assert(c == candidate(literals@, p as int));
            let count = self.count_occurrences(c);
            if count > best_count {
                best = c;
                best_count = count;
                proof {
                    bp = p as int;
                }
            }
            p = p + 1;
        }
        best
    }

    /// Opens a new decision level and assigns the most frequent literal of
    /// an unassigned variable TRUE there, as a decision.
    fn select_variable(&mut self)
        requires
            old(self).wf(),
            exists|v: int| 0 <= v < old(self).assignment@.len() && (#[trigger] old(self).assignment@[v]).value == LiteralState::UNKNOWN,
            forall|i: int| 0 <= i < old(self).formula@.len() ==>
                clause_value(old(self).assignment@, #[trigger] old(self).formula@[i]@) != LiteralState::FALSE,
        ensures
            final(self).wf(),
            final(self).formula@ == old(self).formula@,
            final(self).original@ == old(self).original@,
            final(self).level == old(self).level + 1,
            extends(old(self).assignment@, final(self).assignment@),
            progress(old(self).assignment@, old(self).assignment@.len() as nat)
                < progress(final(self).assignment@, old(self).assignment@.len() as nat),
            ({
                let u = unknown_vars(old(self).assignment@);
                let f = cnf_view(old(self).formula@);
                let x = final(self).selected;
                exists|p: int| {
                    &&& 0 <= p < 2 * u.len()
                    &&& x == candidate(u, p)
                    &&& forall|q: int| 0 <= q < p ==> occurrences(f, #[trigger] candidate(u, q)) < occurrences(f, x)
                }
                && forall|q: int| 0 <= q < 2 * u.len() ==> occurrences(f, #[trigger] candidate(u, q)) <= occurrences(f, x)
            }),
            lit_ok(final(self).selected, old(self).assignment@.len() as nat),
            lit_value(old(self).assignment@, final(self).selected) == LiteralState::UNKNOWN,
            final(self).trail_view() == old(self).trail_view().push(seq![final(self).selected]),
            final(self).assignment@.len() == old(self).assignment@.len(),
            forall|v: int| 0 <= v < old(self).assignment@.len() && v != var_index(final(self).selected)
                ==> #[trigger] final(self).assignment@[v] == old(self).assignment@[v],
            ({
                let x = final(self).selected;
                let node = final(self).assignment@[var_index(x)];
                &&& node.literal == var_index(x) + 1
                &&& node.value == if x > 0 { LiteralState::TRUE } else { LiteralState::FALSE }
                &&& node.level == old(self).level + 1
                &&& node.parents@.len() == 0
            }),
    {
        let ghost a = self.assignment@;
        let ghost n = a.len() as nat;
        let ghost tv0 = self.trail_view();
        let unknowns = self.get_all_unknown();
        proof {
            lemma_unknown_vars(a);
            let u = choose|v: int| 0 <= v < a.len() && (#[trigger] a[v]).value == LiteralState::UNKNOWN;
            lemma_level_bound(*self, u);
        }
        self.selected = self.most_frequent_literal(&unknowns);
        proof {
            let p = choose|p: int| 0 <= p < 2 * unknowns@.len() && self.selected == #[trigger] candidate(unknowns@, p);
            assert(1 <= unknowns@[p / 2] <= n);
            assert(a[unknowns@[p / 2] - 1].value == LiteralState::UNKNOWN);
            assert(lit_ok(self.selected, n));
            assert(lit_value(a, self.selected) == LiteralState::UNKNOWN);
        }
        let ghost f = self.formula@;
        let ghost lv = self.level as int;
        self.level = self.level + 1;
        self.trail.push(Vec::new());
        proof {
            let t = self.trail@;
            assert forall|d: int, c: int| 0 <= d < lv + 1 && 0 <= c < f.len()
                implies !#[trigger] false_upto(a, f[c]@, d) by {
                if d == lv {
                    assert(clause_ok(cnf_view(f)[c], n));
                    assert(clause_value(a, f[c]@) != LiteralState::FALSE);
                    if false_upto(a, f[c]@, d) {
                        assert forall|k: int| 0 <= k < f[c]@.len() implies lit_value(a, #[trigger] f[c]@[k]) == LiteralState::FALSE by {
                            assert(value_upto(a, f[c]@[k], d) == LiteralState::FALSE);
                        }
                        assert(!has_lit_with(a, f[c]@, LiteralState::TRUE));
                        assert(!has_lit_with(a, f[c]@, LiteralState::UNKNOWN));
                    }
                }
            }
            assert forall|v: int| 0 <= v < n && (#[trigger] a[v]).value != LiteralState::UNKNOWN
                implies on_trail(t, v) by {
                let (d, j) = choose|d: int, j: int|
                    0 <= d < old(self).trail@.len() && 0 <= j < old(self).trail@[d]@.len()
                    && #[trigger] var_index(old(self).trail@[d]@[j]) == v;
                assert(t[d] == old(self).trail@[d]);
            }
            assert forall|v: int| 0 <= v < n implies #[trigger] justified(a, t, self.original@, v) by {
                assert(justified(a, old(self).trail@, self.original@, v));
                let p = a[v].parents@;
                assert forall|i: int| 0 <= i < p.len() && p[i] != true_lit(a, v) && a[var_index(p[i])].level == a[v].level
                    implies earlier(t, a[v].level as int, var_index(#[trigger] p[i]), v) by {
                    let d = a[v].level as int;
                    let (j1, j2) = choose|j1: int, j2: int| 0 <= j1 < j2 < old(self).trail@[d]@.len()
                        && #[trigger] var_index(old(self).trail@[d]@[j1]) == var_index(p[i])
                        && #[trigger] var_index(old(self).trail@[d]@[j2]) == v;
                    assert(t[d] == old(self).trail@[d]);
                }
            }
            assert forall|d: int, j: int| 0 <= d < t.len() && 0 <= j < t[d]@.len() && (d == 0 || j > 0)
                implies a[var_index(#[trigger] t[d]@[j])].parents@.len() > 0 by {
                assert(t[d] == old(self).trail@[d]);
            }
            assert(self.wf_core());
            assert(self.assignment@ == a);
        }
        let ghost sel = self.selected;
        assert(lit_ok(sel, n));
        self.set_literal(self.selected, Vec::new());
        proof {
            let a3 = self.assignment@;
            let x = var_index(sel);
            assert(0 <= x < n);
            lemma_progress_update(a, n, x, a3[x]);
            lemma_power_mono(n + 1, 0, (n - a3[x].level) as nat);
            assert(a3 == a.update(x, a3[x]));
            let t = self.trail@;
            assert(t.len() == tv0.len() + 1);
            assert forall|d: int| 0 <= d < t.len() implies #[trigger] self.trail_view()[d] == tv0.push(seq![sel])[d] by {
                if d < tv0.len() {
                    assert(t[d]@ == old(self).trail@[d]@);
                } else {
                    assert(t[d]@ =~= seq![sel]);
                }
            }
            assert(self.trail_view() =~= tv0.push(seq![sel]));
        }
    }

    /// Decides the formula: propagates, learns from each conflict and goes
    /// back, or decides a variable, until every clause is TRUE (SAT) or a
    /// conflict arises at level 0 (UNSAT).
    ///
    /// After going back, the learned clause is unit; its literal of the
    /// conflict level is assigned at once, with the clause as antecedent.
    /// That step makes each round raise the measure `progress`, which is
    /// bounded, so the loop ends. It also fixes the trail order that later
    /// conflict analysis walks: the asserted literal comes first on its level,
    /// before the units that the next propagation finds.
    #[verifier::rlimit(100)]
    pub fn solve(&mut self) -> (r: SolverState)
        requires
            old(self).wf(),
        ensures
            final(self).wf(),
            final(self).original() == old(self).original(),
            final(self).num_vars() == old(self).num_vars(),
            r == SolverState::SAT ==> satisfies(final(self).records(), final(self).original()),
            r == SolverState::UNSAT ==> forall|m: Seq<bool>| m.len() == final(self).num_vars() ==> !#[trigger] model_of(m, final(self).original()),
            r == SolverState::UNSAT ==> final(self).decision_level() == 0 && exists|i: int|
                0 <= i < final(self).clauses().len()
                && clause_value(final(self).records(), #[trigger] final(self).clauses()[i]) == LiteralState::FALSE,
            old(self).clauses().len() == 0 ==> r == SolverState::SAT && final(self).records() == old(self).records()
                && final(self).decision_level() == old(self).decision_level() && final(self).clauses() == old(self).clauses(),
            old(self).decision_level() == 0 && has_empty_clause(old(self).clauses()) ==> r == SolverState::UNSAT
                && final(self).records() == old(self).records() && final(self).clauses() == old(self).clauses(),
            all_tautologies(old(self).clauses()) ==> r == SolverState::SAT && final(self).clauses() == old(self).clauses(),
    {
        let ghost n = self.assignment@.len() as nat;
        assert(n == old(self).num_vars());
        proof {
            lemma_progress_limit(self.assignment@, n);
        }
        loop
            invariant
                self.wf(),
                n == self.assignment@.len(),
                n == old(self).num_vars(),
                self.original@ == old(self).original@,
                progress(self.assignment@, n) <= progress_limit(n),
                old(self).formula@.len() == 0 ==> *self == *old(self),
                old(self).level == 0 && has_empty_clause(cnf_view(old(self).formula@)) ==> *self == *old(self),
                all_tautologies(cnf_view(old(self).formula@)) ==> self.formula@ == old(self).formula@,
            decreases progress_limit(n) - progress(self.assignment@, n),
        {
            let ghost a_start = self.assignment@;
            let conflict = self.unit_propagate();
            let ghost a0 = self.assignment@;
            proof {
                lemma_progress_mono(a_start, a0, n);
                let f = cnf_view(self.formula@);
                if has_empty_clause(f) {
                    let i = choose|i: int| 0 <= i < f.len() && (#[trigger] f[i]).len() == 0;
                    assert(self.formula@[i]@ == f[i]);
                    assert(clause_value(a0, f[i]) == LiteralState::FALSE);
                }
                if all_tautologies(f) && conflict is Some {
                    let c = conflict->0;
                    let i = choose|i: int| 0 <= i < f.len() && f[i] == c@;
                    assert(clause_ok(f[i], n));
                    lemma_tautology_not_false(a0, f[i]);
                }
            }
            match conflict {
                Some(clause) => {
                    let ghost before = *self;
                    match self.analyze_conflict(&clause) {
                        Some(back) => {
                            let last = self.formula.len() - 1;
                            let learned = copy_clause(&self.formula[last]);
                            let u = learned[0];
                            let ghost a_mid = self.assignment@;
                            self.backtrack(back);
                            let ghost a1 = self.assignment@;
                            let ghost t1 = self.trail@;
                            proof {
                                assert(a_mid == a0);
                                assert(learned@ == self.formula@.last()@);
                                assert(lit_ok(learned@[0], n));
                                assert(a1[var_index(u)].value == LiteralState::UNKNOWN);
                                assert forall|i: int| 0 <= i < learned@.len() && learned@[i] != u
                                    implies lit_value(a1, #[trigger] learned@[i]) == LiteralState::FALSE by {
                                    assert(i != 0);
                                    assert(lit_ok(learned@[i], n));
                                    assert(a0[var_index(learned@[i])].level <= back);
                                }
                                assert(learned@.contains(u)) by {
                                    assert(learned@[0] == u);
                                }
                            }
                            self.set_literal(u, learned);
                            proof {
                                let a2 = self.assignment@;
                                let x = var_index(u);
                                let k = power(n + 1, (n - back - 1) as nat);
                                assert forall|i: int| 0 <= i < a0.len() implies weight(#[trigger] a0[i], n) <= weight(a1[i], n) + k by {
                                    if a0[i].level > back && a0[i].value != LiteralState::UNKNOWN {
                                        lemma_power_mono(n + 1, (n - a0[i].level) as nat, (n - back - 1) as nat);
                                    }
                                }
                                lemma_progress_bound(a0, a1, n, k);
                                lemma_progress_update(a1, n, x, a2[x]);
                                assert(a2 == a1.update(x, a2[x]));
                                lemma_power_mono(n + 1, 0, (n - back - 1) as nat);
                                assert(power(n + 1, (n - back) as nat) == (n + 1) * k);
                                assert((n + 1) * k == n * k + k) by (nonlinear_arith);
                                lemma_progress_limit(a2, n);
                                assert forall|d: int| 1 <= d < self.trail@.len() implies (#[trigger] self.trail@[d]@).len() > 0 by {
                                    if d < back {
                                        assert(self.trail@[d]@ == t1[d]@);
                                    }
                                }
                            }
                        },
                        None => {
                            proof {
                                assert(*self == before);
                                let f = cnf_view(self.formula@);
                                assert(f.contains(clause@));
                                let i = choose|i: int| 0 <= i < f.len() && f[i] == clause@;
                                assert(self.clauses()[i] == clause@);
                                assert(clause_value(self.records(), self.clauses()[i]) == LiteralState::FALSE);
                                assert(self.decision_level() == 0);
                                let a = self.assignment@;
                                assert forall|m: Seq<bool>| m.len() == n implies !#[trigger] model_of(m, self.original@) by {
                                    if model_of(m, self.original@) {
                                        assert(entails(self.original@, self.formula@[i]@, n));
                                        assert(clause_ok(f[i], n));
                                        let k = choose|k: int| 0 <= k < clause@.len() && lit_holds(m, #[trigger] clause@[k]);
                                        assert(!has_lit_with(a, clause@, LiteralState::TRUE));
                                        assert(!has_lit_with(a, clause@, LiteralState::UNKNOWN));
                                        assert(lit_value(a, clause@[k]) == LiteralState::FALSE);
                                        assert(agrees(m, a, var_index(clause@[k])));
                                        lemma_agrees_lit(m, a, clause@[k]);
                                    }
                                }
                            }
                            return SolverState::UNSAT;
                        },
                    }
                },
                None => {
                    if self.is_satisfied() {
                        proof {
                            let a = self.assignment@;
                            assert forall|i: int| 0 <= i < self.original@.len()
                                implies clause_value(a, #[trigger] self.original@[i]) == LiteralState::TRUE by {
                                assert(cnf_view(self.formula@)[i] == self.original@[i]);
                            }
                        }
                        return SolverState::SAT;
                    }
                    proof {
                        let a = self.assignment@;
                        let f = cnf_view(self.formula@);
                        let i = choose|i: int| 0 <= i < f.len() && clause_value(a, #[trigger] f[i]) != LiteralState::TRUE;
                        assert(self.formula@[i]@ == f[i]);
                        assert(clause_ok(f[i], n));
                        let k = choose|k: int| 0 <= k < f[i].len() && lit_value(a, #[trigger] f[i][k]) == LiteralState::UNKNOWN;
                        assert(lit_ok(f[i][k], n));
                        assert(a[var_index(f[i][k])].value == LiteralState::UNKNOWN);
                    }
                    self.select_variable();
                    proof {
                        lemma_progress_limit(self.assignment@, n);
                    }
                },
            }
        }
    }

    /// Index of the record of the variable of `literal`.
    fn literal_to_index(&self, literal: Literal) -> (r: usize)
        requires
            lit_ok(literal, self.assignment@.len() as nat),
        ensures
            r == var_index(literal),
    {
        if literal > 0 {
            (literal - 1) as usize
        } else {
            (-literal - 1) as usize
        }
    }

    /// The state of `literal` under the current assignment.
    fn get_node_value(&self, literal: Literal) -> (r: LiteralState)
        requires
            lit_ok(literal, self.assignment@.len() as nat),
        ensures
            r == lit_value(self.assignment@, literal),
    {
        if literal > 0 {
            self.assignment[(literal - 1) as usize].value
        } else {
            self.assignment[(-literal - 1) as usize].negative_value()
        }
    }

    /// The state of `clause` under the current assignment.
    fn calculate_clause(&self, clause: &Clause) -> (r: LiteralState)
        requires
            clause_ok(clause@, self.assignment@.len() as nat),
        ensures
            r == clause_value(self.assignment@, clause@),
    {
        let mut seen_unknown = false;
        let mut i: usize = 0;
        while i < clause.len()
            invariant
                i <= clause@.len(),
                clause_ok(clause@, self.assignment@.len() as nat),
                forall|k: int| 0 <= k < i ==> lit_value(self.assignment@, #[trigger] clause@[k]) != LiteralState::TRUE,
                seen_unknown <==> exists|k: int| 0 <= k < i && lit_value(self.assignment@, #[trigger] clause@[k]) == LiteralState::UNKNOWN,
            decreases clause@.len() - i,
        {
            let s = self.get_node_value(clause[i]);
            if s == LiteralState::TRUE {
                return LiteralState::TRUE;
            }
            if s == LiteralState::UNKNOWN {
                seen_unknown = true;
            }
            i = i + 1;
        }
        if seen_unknown {
            LiteralState::UNKNOWN
        } else {
            LiteralState::FALSE
        }
    }

    /// The literals of `clause` whose state is UNKNOWN, in clause order.
    fn get_unknown_from_clause(&self, clause: &Clause) -> (r: Vec<Literal>)
        requires
            clause_ok(clause@, self.assignment@.len() as nat),
        ensures
            r@ == clause@.filter(|l: i32| lit_value(self.assignment@, l) == LiteralState::UNKNOWN),
    {
        let ghost pred = |l: i32| lit_value(self.assignment@, l) == LiteralState::UNKNOWN;
        let mut r: Vec<Literal> = Vec::new();
        let mut i: usize = 0;
        while i < clause.len()
            invariant
                i <= clause@.len(),
                clause_ok(clause@, self.assignment@.len() as nat),
                pred == (|l: i32| lit_value(self.assignment@, l) == LiteralState::UNKNOWN),
                r@ == clause@.subrange(0, i as int).filter(pred),
            decreases clause@.len() - i,
        {
            proof {
                reveal(Seq::filter);
                assert(clause@.subrange(0, i + 1).drop_last() == clause@.subrange(0, i as int));
            }
            if self.get_node_value(clause[i]) == LiteralState::UNKNOWN {
                r.push(clause[i]);
            }
            i = i + 1;
        }
        assert(clause@.subrange(0, clause@.len() as int) == clause@);
        r
    }

    /// Every clause is TRUE under the current assignment.
    fn is_satisfied(&self) -> (r: bool)
        requires
            self.wf(),
        ensures
            r == satisfies(self.assignment@, cnf_view(self.formula@)),
    {
        let mut i: usize = 0;
        while i < self.formula.len()
            invariant
                self.wf(),
                i <= self.formula@.len(),
                forall|k: int| 0 <= k < i ==> clause_value(self.assignment@, #[trigger] self.formula@[k]@) == LiteralState::TRUE,
            decreases self.formula@.len() - i,
        {
            assert(clause_ok(cnf_view(self.formula@)[i as int], self.assignment@.len() as nat));
            let s = self.calculate_clause(&self.formula[i]);
            if s == LiteralState::FALSE || s == LiteralState::UNKNOWN {
                assert(cnf_view(self.formula@)[i as int] == self.formula@[i as int]@);
                return false;
            }
            i = i + 1;
        }
        assert(satisfies(self.assignment@, cnf_view(self.formula@)));
        true
    }
}

/// Variable index `v` occurs on the trail `t`, given level by level.
pub open spec fn on_levels(t: Seq<Seq<i32>>, v: int) -> bool {
    exists|d: int, j: int| 0 <= d < t.len() && 0 <= j < t[d].len() && #[trigger] var_index(t[d][j]) == v
}

/// The solver's invariant keeps the trail and the records coherent: a
/// variable is unassigned exactly when its literal is on no trail level; a
/// literal on the trail is TRUE, its variable's level is the index of the
/// trail level that holds it, and it is there only once.
pub proof fn lemma_trail_coherence(s: Solver)
    requires
        s.wf(),
    ensures
        s.trail_view().len() == s.decision_level() + 1,
        forall|v: int| 0 <= v < s.num_vars() ==>
            ((#[trigger] s.records()[v]).value == LiteralState::UNKNOWN <==> !on_levels(s.trail_view(), v)),
        forall|d: int, j: int| 0 <= d < s.trail_view().len() && 0 <= j < s.trail_view()[d].len() ==> {
            &&& lit_ok(#[trigger] s.trail_view()[d][j], s.num_vars())
            &&& lit_value(s.records(), s.trail_view()[d][j]) == LiteralState::TRUE
            &&& s.records()[var_index(s.trail_view()[d][j])].level == d
        },
        forall|d1: int, j1: int, d2: int, j2: int|
            0 <= d1 < s.trail_view().len() && 0 <= j1 < s.trail_view()[d1].len()
            && 0 <= d2 < s.trail_view().len() && 0 <= j2 < s.trail_view()[d2].len()
            && var_index(#[trigger] s.trail_view()[d1][j1]) == var_index(#[trigger] s.trail_view()[d2][j2])
            ==> d1 == d2 && j1 == j2,
{
    let t = s.trail@;
    let tv = s.trail_view();
    let a = s.assignment@;
    assert forall|d: int| 0 <= d < t.len() implies #[trigger] tv[d] == t[d]@ by {}
    assert forall|v: int| 0 <= v < a.len() implies
        ((#[trigger] a[v]).value == LiteralState::UNKNOWN <==> !on_levels(tv, v)) by {
        if a[v].value != LiteralState::UNKNOWN {
            let (d, j) = choose|d: int, j: int| 0 <= d < t.len() && 0 <= j < t[d]@.len() && #[trigger] var_index(t[d]@[j]) == v;
            assert(tv[d][j] == t[d]@[j]);
        } else if on_levels(tv, v) {
            let (d, j) = choose|d: int, j: int| 0 <= d < tv.len() && 0 <= j < tv[d].len() && #[trigger] var_index(tv[d][j]) == v;
            assert(tv[d][j] == t[d]@[j]);
            assert(lit_value(a, t[d]@[j]) == LiteralState::TRUE);
        }
    }
    assert forall|d1: int, j1: int, d2: int, j2: int|
        0 <= d1 < tv.len() && 0 <= j1 < tv[d1].len() && 0 <= d2 < tv.len() && 0 <= j2 < tv[d2].len()
        && var_index(#[trigger] tv[d1][j1]) == var_index(#[trigger] tv[d2][j2])
        implies d1 == d2 && j1 == j2 by {
        assert(tv[d1][j1] == t[d1]@[j1]);
        assert(tv[d2][j2] == t[d2]@[j2]);
        if j1 < j2 {
            assert(var_index(t[d1]@[j1]) != var_index(t[d1]@[j2]));
        } else if j2 < j1 {
            assert(var_index(t[d1]@[j2]) != var_index(t[d1]@[j1]));
        }
    }
}

/// While a variable is unassigned, the decision level is below the number
/// of variables: each level above 0 has its own decision variable.
proof fn lemma_level_bound(s: Solver, u: int)
    requires
        s.wf(),
        0 <= u < s.assignment@.len(),
        s.assignment@[u].value == LiteralState::UNKNOWN,
    ensures
        s.level < s.assignment@.len(),
{
    let a = s.assignment@;
    let t = s.trail@;
    let n = a.len() as int;
    let lv = s.level as int;
    let f = |d: int| var_index(t[d]@[0]);
    let x = set_int_range(1, lv + 1);
    let y = x.map(f);
    let z = set_int_range(0, n).remove(u);
    lemma_int_range(1, lv + 1);
    lemma_int_range(0, n);
    assert forall|d1: int, d2: int| x.contains(d1) && x.contains(d2) && #[trigger] f(d1) == #[trigger] f(d2)
        implies d1 == d2 by {
        assert(a[var_index(t[d1]@[0])].level == d1);
        assert(a[var_index(t[d2]@[0])].level == d2);
    }
    lemma_map_size(x, y, f);
    assert forall|e: int| y.contains(e) implies z.contains(e) by {
        let d = choose|d: int| x.contains(d) && f(d) == e;
        assert(t[d]@.len() > 0);
        assert(lit_ok(t[d]@[0], n as nat));
        assert(lit_value(a, t[d]@[0]) == LiteralState::TRUE);
    }
    lemma_len_subset(y, z);
}

/// Every literal of `formula` names one of the variables `1..=nbvars`, and
/// the variables can be numbered by `i32`: what `Solver::new` asks.
pub fn formula_in_range(formula: &Cnf, nbvars: usize) -> (r: bool)
    ensures
        r == (nbvars <= i32::MAX && cnf_ok(cnf_view(formula@), nbvars as nat)),
{
    if nbvars > i32::MAX as usize {
        return false;
    }
    let mut i: usize = 0;
    while i < formula.len()
        invariant
            nbvars <= i32::MAX,
            i <= formula@.len(),
            forall|k: int| 0 <= k < i ==> clause_ok(#[trigger] cnf_view(formula@)[k], nbvars as nat),
        decreases formula@.len() - i,
    {
        let clause = &formula[i];
        let mut j: usize = 0;
        while j < clause.len()
            invariant
                nbvars <= i32::MAX,
                i < formula@.len(),
                clause@ == formula@[i as int]@,
                j <= clause@.len(),
                forall|k: int| 0 <= k < j ==> lit_ok(#[trigger] clause@[k], nbvars as nat),
            decreases clause@.len() - j,
        {
            let l = clause[j];
            if l == 0 || l == i32::MIN || (l > 0 && l as usize > nbvars) || (l < 0 && (-l) as usize > nbvars) {
                proof {
                    assert(cnf_view(formula@)[i as int] == clause@);
                    assert(!lit_ok(clause@[j as int], nbvars as nat));
                    assert(!clause_ok(cnf_view(formula@)[i as int], nbvars as nat));
                }
                return false;
            }
            j = j + 1;
        }
        assert(cnf_view(formula@)[i as int] == clause@);
        i = i + 1;
    }
    true
}

/// `v` holds `x`.
fn vec_contains(v: &Vec<Literal>, x: Literal) -> (r: bool)
    ensures
        r == v@.contains(x),
{
    let mut i: usize = 0;
    while i < v.len()
        invariant
            i <= v@.len(),
            forall|k: int| 0 <= k < i ==> v@[k] != x,
        decreases v@.len() - i,
    {
        if v[i] == x {
            return true;
        }
        i = i + 1;
    }
    false
}

/// The position of the first literal of `v` whose variable is `var`.
fn vec_position_of_var(v: &Vec<Literal>, var: Literal) -> (r: usize)
    requires
        exists|i: int| 0 <= i < v@.len() && abs(#[trigger] v@[i] as int) == var,
        forall|i: int| 0 <= i < v@.len() ==> v@[i] > i32::MIN,
    ensures
        r < v@.len(),
        abs(v@[r as int] as int) == var,
        forall|k: int| 0 <= k < r ==> abs(#[trigger] v@[k] as int) != var,
{
    let mut i: usize = 0;
    while i < v.len()
        invariant
            i <= v@.len(),
            exists|k: int| i <= k < v@.len() && abs(#[trigger] v@[k] as int) == var,
            forall|k: int| 0 <= k < v@.len() ==> v@[k] > i32::MIN,
            forall|k: int| 0 <= k < i ==> abs(#[trigger] v@[k] as int) != var,
        decreases v@.len() - i,
    {
        let x = v[i];
        if x == var || (x < 0 && -x == var) {
            return i;
        }
        i = i + 1;
    }
    i
}

/// Every position of `x`'s variable on `top` comes before every position
/// of a variable in `checked`.
pub open spec fn below_checked(top: Seq<i32>, checked: Seq<i32>, x: i32) -> bool {
    forall|j1: int, j2: int|
        0 <= j1 < top.len() && 0 <= j2 < top.len() && var_index(#[trigger] top[j1]) == var_index(x)
            && checked.contains(abs(#[trigger] top[j2] as int) as i32) ==> j1 < j2
}

/// Resolution: from `w_old`, which holds `x`, and `p`, which holds `-x`,
/// follows any clause that holds the other literals of both.
proof fn lemma_resolve(o: Seq<Seq<i32>>, n: nat, w_old: Seq<i32>, x: i32, p: Seq<i32>, w_new: Seq<i32>)
    requires
        entails(o, w_old, n),
        entails(o, p, n),
        x != 0,
        x > i32::MIN,
        forall|i: int| 0 <= i < w_old.len() && w_old[i] != x ==> w_new.contains(#[trigger] w_old[i]),
        forall|i: int| 0 <= i < p.len() && p[i] != -x ==> w_new.contains(#[trigger] p[i]),
    ensures
        entails(o, w_new, n),
{
    assert forall|m: Seq<bool>| m.len() == n && #[trigger] model_of(m, o) implies clause_holds(m, w_new) by {
        let i = choose|i: int| 0 <= i < w_old.len() && lit_holds(m, #[trigger] w_old[i]);
        if w_old[i] != x {
            let k = choose|k: int| 0 <= k < w_new.len() && w_new[k] == w_old[i];
            assert(lit_holds(m, w_new[k]));
        } else {
            let q = choose|q: int| 0 <= q < p.len() && lit_holds(m, #[trigger] p[q]);
            if p[q] != -x {
                let k = choose|k: int| 0 <= k < w_new.len() && w_new[k] == p[q];
                assert(lit_holds(m, w_new[k]));
            }
        }
    }
}

proof fn lemma_push_contains(s: Seq<i32>, x: i32, y: i32)
    requires
        s.contains(y),
    ensures
        s.push(x).contains(y),
{
    let k = choose|k: int| 0 <= k < s.len() && s[k] == y;
    assert(s.push(x)[k] == y);
}

proof fn lemma_concat_contains(s: Seq<i32>, t: Seq<i32>, y: i32)
    requires
        s.contains(y) || t.contains(y),
    ensures
        (s + t).contains(y),
{
    if s.contains(y) {
        let k = choose|k: int| 0 <= k < s.len() && s[k] == y;
        assert((s + t)[k] == y);
    } else {
        let k = choose|k: int| 0 <= k < t.len() && t[k] == y;
        assert((s + t)[s.len() + k] == y);
    }
}

/// The antecedent literals of the current level that join the working
/// clause stand before every checked variable on the current trail level.
proof fn lemma_new_work_below(
    a: Seq<Node>,
    t: Seq<Vec<i32>>,
    o: Seq<Seq<i32>>,
    lv: int,
    pr: Seq<i32>,
    work: Seq<i32>,
    checked: Seq<i32>,
    old_checked: Seq<i32>,
    x: i32,
    jl: int,
    index: int,
)
    requires
        0 <= lv < t.len(),
        0 <= index < a.len() <= i32::MAX,
        0 <= jl < t[lv]@.len(),
        var_index(t[lv]@[jl]) == index,
        forall|j: int| 0 <= j < t[lv]@.len() ==> lit_ok(#[trigger] t[lv]@[j], a.len() as nat),
        forall|j1: int, j2: int| 0 <= j1 < t[lv]@.len() && 0 <= j2 < t[lv]@.len()
            && var_index(#[trigger] t[lv]@[j1]) == var_index(#[trigger] t[lv]@[j2]) ==> j1 == j2,
        justified(a, t, o, index),
        a[index].level == lv,
        pr == a[index].parents@,
        forall|k: int| 0 <= k < work.len() ==> pr.contains(#[trigger] work[k]) && !checked.contains(abs(work[k] as int) as i32),
        checked == old_checked.push((index + 1) as i32),
        below_checked(t[lv]@, old_checked, x),
        var_index(x) == index,
        abs(true_lit(a, index) as int) == index + 1,
    ensures
        forall|k: int| 0 <= k < work.len() && a[var_index(work[k])].level == lv
            ==> below_checked(t[lv]@, checked, #[trigger] work[k]),
{
    let top = t[lv]@;
    assert(checked[checked.len() - 1] == index + 1);
    assert forall|k: int| 0 <= k < work.len() && a[var_index(work[k])].level == lv
        implies below_checked(top, checked, #[trigger] work[k]) by {
        let y = work[k];
        let i = choose|i: int| 0 <= i < pr.len() && pr[i] == y;
        assert(y != true_lit(a, index));
        let (j1, j2) = choose|j1: int, j2: int| 0 <= j1 < j2 < t[lv]@.len()
            && #[trigger] var_index(t[lv]@[j1]) == var_index(pr[i]) && #[trigger] var_index(t[lv]@[j2]) == index;
        assert(j2 == jl);
        assert forall|i1: int, i2: int| 0 <= i1 < top.len() && 0 <= i2 < top.len() && var_index(#[trigger] top[i1]) == var_index(y)
            && checked.contains(abs(#[trigger] top[i2] as int) as i32) implies i1 < i2 by {
            assert(i1 == j1);
            let q = choose|q: int| 0 <= q < checked.len() && checked[q] == abs(top[i2] as int) as i32;
            if q < old_checked.len() {
                assert(old_checked[q] == checked[q]);
                assert(old_checked.contains(abs(top[i2] as int) as i32));
                assert(old_checked.contains(abs(top[jl] as int) as i32) ==> jl < jl);
            } else {
                assert(var_index(top[i2]) == index);
            }
        }
    }
}

/// Literals of a working clause during conflict analysis: FALSE, and of a
/// variable not yet resolved away.
pub open spec fn work_ok(a: Seq<Node>, work: Seq<i32>, checked: Seq<i32>) -> bool {
    &&& clause_ok(work, a.len() as nat)
    &&& forall|k: int| 0 <= k < work.len() ==> lit_value(a, #[trigger] work[k]) == LiteralState::FALSE
    &&& forall|k: int| 0 <= k < work.len() ==> !checked.contains(abs(#[trigger] work[k] as int) as i32)
}

/// The two parts of the clause being learned: `current`, literals assigned at
/// level `lv`, without repeats; `past`, literals assigned below it.
pub open spec fn parts_ok(a: Seq<Node>, lv: int, current: Seq<i32>, past: Seq<i32>, checked: Seq<i32>) -> bool {
    &&& work_ok(a, current, checked)
    &&& forall|k: int| 0 <= k < current.len() ==> a[var_index(#[trigger] current[k])].level == lv
    &&& forall|k1: int, k2: int| 0 <= k1 < k2 < current.len() ==> #[trigger] current[k1] != #[trigger] current[k2]
    &&& work_ok(a, past, checked)
    &&& forall|k: int| 0 <= k < past.len() ==> a[var_index(#[trigger] past[k])].level < lv
}

proof fn lemma_parts_unchecked(a: Seq<Node>, lv: int, current: Seq<i32>, past: Seq<i32>, checked: Seq<i32>)
    requires
        parts_ok(a, lv, current, past, checked),
    ensures
        parts_ok(a, lv, current, past, seq![]),
{
}

proof fn lemma_parts_after_check(
    a: Seq<Node>,
    lv: int,
    old_current: Seq<i32>,
    current: Seq<i32>,
    past: Seq<i32>,
    old_checked: Seq<i32>,
    var: i32,
    pos: int,
)
    requires
        parts_ok(a, lv, old_current, past, old_checked),
        0 <= pos < old_current.len(),
        old_current.len() >= 2,
        abs(old_current[pos] as int) == var,
        current == old_current.remove(pos),
    ensures
        parts_ok(a, lv, current, past, old_checked.push(var)),
        current.len() > 0,
{
    let checked = old_checked.push(var);
    assert forall|y: i32| checked.contains(y) implies old_checked.contains(y) || y == var by {
        let q = choose|q: int| 0 <= q < checked.len() && checked[q] == y;
        if q < old_checked.len() {
            assert(old_checked[q] == checked[q]);
        }
    }
    assert forall|k: int| 0 <= k < current.len() implies !checked.contains(abs(#[trigger] current[k] as int) as i32) by {
        let k0 = if k < pos { k } else { k + 1 };
        assert(current[k] == old_current[k0]);
        assert(lit_value(a, old_current[pos]) == LiteralState::FALSE);
        assert(lit_value(a, old_current[k0]) == LiteralState::FALSE);
    }
    assert forall|k: int| 0 <= k < current.len() implies lit_value(a, #[trigger] current[k]) == LiteralState::FALSE
        && lit_ok(current[k], a.len() as nat) && a[var_index(current[k])].level == lv by {
        let k0 = if k < pos { k } else { k + 1 };
        assert(current[k] == old_current[k0]);
    }
    assert forall|k1: int, k2: int| 0 <= k1 < k2 < current.len() implies #[trigger] current[k1] != #[trigger] current[k2] by {
        let j1 = if k1 < pos { k1 } else { k1 + 1 };
        let j2 = if k2 < pos { k2 } else { k2 + 1 };
        assert(current[k1] == old_current[j1]);
        assert(current[k2] == old_current[j2]);
    }
}

/// A copy of `c`.
fn copy_clause(c: &Clause) -> (r: Clause)
    ensures
        r@ == c@,
{
    let mut r: Clause = Vec::new();
    let mut i: usize = 0;
    while i < c.len()
        invariant
            i <= c@.len(),
            r@ == c@.subrange(0, i as int),
        decreases c@.len() - i,
    {
        r.push(c[i]);
        i = i + 1;
    }
    r
}

} // verus!
