use vstd::prelude::*;
use crate::node::Node;
use crate::state::{LiteralState, negate};

verus! {

/// A literal: a nonzero signed variable number.
pub type Literal = i32;

/// A disjunction of literals.
pub type Clause = Vec<Literal>;

/// A conjunction of clauses.
pub type Cnf = Vec<Clause>;

/// The per-variable records, the record of variable `v` at index `v - 1`.
pub type Assignment = Vec<Node>;

pub open spec fn abs(x: int) -> int {
    if x < 0 { -x } else { x }
}

/// Index of the record of the variable of `l`.
pub open spec fn var_index(l: i32) -> int {
    abs(l as int) - 1
}

/// `l` names one of the variables `1..=n`.
pub open spec fn lit_ok(l: i32, n: nat) -> bool {
    l != 0 && l > i32::MIN && abs(l as int) <= n
}

pub open spec fn clause_ok(c: Seq<i32>, n: nat) -> bool {
    forall|i: int| 0 <= i < c.len() ==> lit_ok(#[trigger] c[i], n)
}

/// Every literal of the formula names one of the variables `1..=n`.
pub open spec fn cnf_ok(f: Seq<Seq<i32>>, n: nat) -> bool {
    forall|i: int| 0 <= i < f.len() ==> clause_ok(#[trigger] f[i], n)
}

/// The clauses of a formula, as sequences of literals.
pub open spec fn cnf_view(f: Seq<Vec<i32>>) -> Seq<Seq<i32>> {
    f.map_values(|c: Vec<i32>| c@)
}

/// The state of literal `l` under the records `a`.
pub open spec fn lit_value(a: Seq<Node>, l: i32) -> LiteralState {
    if l > 0 {
        a[l - 1].value
    } else {
        negate(a[-l - 1].value)
    }
}

pub open spec fn has_lit_with(a: Seq<Node>, c: Seq<i32>, s: LiteralState) -> bool {
    exists|i: int| 0 <= i < c.len() && lit_value(a, #[trigger] c[i]) == s
}

/// TRUE if a literal is TRUE, else UNKNOWN if a literal is UNKNOWN, else FALSE.
pub open spec fn clause_value(a: Seq<Node>, c: Seq<i32>) -> LiteralState {
    if has_lit_with(a, c, LiteralState::TRUE) {
        LiteralState::TRUE
    } else if has_lit_with(a, c, LiteralState::UNKNOWN) {
        LiteralState::UNKNOWN
    } else {
        LiteralState::FALSE
    }
}

/// Every clause of `f` is TRUE under `a`.
pub open spec fn satisfies(a: Seq<Node>, f: Seq<Seq<i32>>) -> bool {
    forall|i: int| 0 <= i < f.len() ==> clause_value(a, #[trigger] f[i]) == LiteralState::TRUE
}

/// The state of `l` when only the assignments made at levels up to `d` count.
pub open spec fn value_upto(a: Seq<Node>, l: i32, d: int) -> LiteralState {
    if a[var_index(l)].level <= d {
        lit_value(a, l)
    } else {
        LiteralState::UNKNOWN
    }
}

/// Every literal of `c` is FALSE by assignments made at levels up to `d`.
pub open spec fn false_upto(a: Seq<Node>, c: Seq<i32>, d: int) -> bool {
    forall|i: int| 0 <= i < c.len() ==> value_upto(a, #[trigger] c[i], d) == LiteralState::FALSE
}

/// The literal that the assignment of variable index `v` makes TRUE.
pub open spec fn true_lit(a: Seq<Node>, v: int) -> int {
    if a[v].value == LiteralState::TRUE { v + 1 } else { -(v + 1) }
}

/// Literal `l` holds under the truth values `m` (variable `v` at `m[v - 1]`).
pub open spec fn lit_holds(m: Seq<bool>, l: i32) -> bool {
    if l > 0 { m[l - 1] } else { !m[-l - 1] }
}

/// Some literal of `c` holds under `m`.
pub open spec fn clause_holds(m: Seq<bool>, c: Seq<i32>) -> bool {
    exists|i: int| 0 <= i < c.len() && lit_holds(m, #[trigger] c[i])
}

/// `m` satisfies every clause of `f`.
pub open spec fn model_of(m: Seq<bool>, f: Seq<Seq<i32>>) -> bool {
    forall|i: int| 0 <= i < f.len() ==> clause_holds(m, #[trigger] f[i])
}

/// Every model of `f` over `n` variables satisfies `c`.
pub open spec fn entails(f: Seq<Seq<i32>>, c: Seq<i32>, n: nat) -> bool {
    forall|m: Seq<bool>| m.len() == n && #[trigger] model_of(m, f) ==> clause_holds(m, c)
}

/// `m` gives variable index `v` the value that `a` assigns it, if any.
pub open spec fn agrees(m: Seq<bool>, a: Seq<Node>, v: int) -> bool {
    &&& a[v].value == LiteralState::TRUE ==> m[v]
    &&& a[v].value == LiteralState::FALSE ==> !m[v]
}

/// A literal FALSE (TRUE) under `a` fails (holds) under a model that agrees
/// with `a` on its variable.
pub proof fn lemma_agrees_lit(m: Seq<bool>, a: Seq<Node>, l: i32)
    requires
        l != 0,
        l > i32::MIN,
        0 <= var_index(l) < a.len(),
        var_index(l) < m.len(),
        agrees(m, a, var_index(l)),
    ensures
        lit_value(a, l) == LiteralState::FALSE ==> !lit_holds(m, l),
        lit_value(a, l) == LiteralState::TRUE ==> lit_holds(m, l),
{
}

/// A clause that contains every literal of an entailed clause is entailed.
pub proof fn lemma_entails_superset(f: Seq<Seq<i32>>, c: Seq<i32>, d: Seq<i32>, n: nat)
    requires
        entails(f, c, n),
        forall|i: int| 0 <= i < c.len() ==> d.contains(#[trigger] c[i]),
    ensures
        entails(f, d, n),
{
    assert forall|m: Seq<bool>| m.len() == n && #[trigger] model_of(m, f) implies clause_holds(m, d) by {
        let i = choose|i: int| 0 <= i < c.len() && lit_holds(m, #[trigger] c[i]);
        let k = choose|k: int| 0 <= k < d.len() && d[k] == c[i];
        assert(lit_holds(m, d[k]));
    }
}

} // verus!
