use crate::expression::{value_of, Expression};
use vstd::prelude::*;

verus! {

/// A formula together with the truth value that a tableau branch asserts for it.
pub struct SignedFormula {
    pub formula: Expression,
    pub positive: bool,
}

/// The outcome of the decision procedure.
pub enum Verdict {
    /// An open branch saturated; it lists each variable it constrains, with the
    /// value that the branch recorded. Every other variable is false.
    Satisfiable(Vec<(char, bool)>),
    /// Every branch closed.
    Unsatisfiable,
}

/// `f` is true when exactly the variables in `t` are true.
pub open spec fn holds(f: SignedFormula, t: Set<char>) -> bool {
    f.formula.eval(t) == f.positive
}

pub open spec fn holds_all(fs: Seq<SignedFormula>, t: Set<char>) -> bool {
    forall|i: int| 0 <= i < fs.len() ==> holds(#[trigger] fs[i], t)
}

/// Some truth assignment makes every signed formula of `fs` true.
pub open spec fn satisfiable(fs: Seq<SignedFormula>) -> bool {
    exists|t: Set<char>| holds_all(fs, t)
}

/// Every recorded literal constraint has its value under `t`.
pub open spec fn constraints_hold(cs: Seq<(char, bool)>, t: Set<char>) -> bool {
    forall|i: int| 0 <= i < cs.len() ==> value_of(t, (#[trigger] cs[i]).0) == cs[i].1
}

/// Some variable is recorded with both values.
pub open spec fn contradictory(cs: Seq<(char, bool)>) -> bool {
    exists|c: char| cs.contains((c, true)) && cs.contains((c, false))
}

/// The assignment read off a list of constraints: the variables recorded as
/// true are true, all others false.
pub open spec fn assignment(cs: Seq<(char, bool)>) -> Set<char> {
    Set::new(|c: char| cs.contains((c, true)))
}

pub open spec fn branch_holds(fs: Seq<SignedFormula>, cs: Seq<(char, bool)>, t: Set<char>) -> bool {
    holds_all(fs, t) && constraints_hold(cs, t)
}

/// The total size of the formulas still to expand on a branch.
pub open spec fn measure(fs: Seq<SignedFormula>) -> nat
    decreases fs.len(),
{
    if fs.len() == 0 {
        0
    } else {
        measure(fs.drop_last()) + fs.last().formula.size()
    }
}

proof fn lemma_measure_push(fs: Seq<SignedFormula>, f: SignedFormula)
    ensures
        measure(fs.push(f)) == measure(fs) + f.formula.size(),
{
    assert(fs.push(f).drop_last() =~= fs);
}

proof fn lemma_holds_all_push(fs: Seq<SignedFormula>, f: SignedFormula, t: Set<char>)
    ensures
        holds_all(fs.push(f), t) == (holds_all(fs, t) && holds(f, t)),
{
    if holds_all(fs, t) && holds(f, t) {
        assert forall|i: int| 0 <= i < fs.push(f).len() implies holds(#[trigger] fs.push(f)[i], t) by {
            if i < fs.len() {
                assert(fs.push(f)[i] == fs[i]);
            }
        }
    }
    if holds_all(fs.push(f), t) {
        assert(holds(fs.push(f)[fs.len() as int], t));
        assert forall|i: int| 0 <= i < fs.len() implies holds(#[trigger] fs[i], t) by {
            assert(fs.push(f)[i] == fs[i]);
        }
    }
}

proof fn lemma_constraints_push(cs: Seq<(char, bool)>, c: char, p: bool, t: Set<char>)
    ensures
        constraints_hold(cs.push((c, p)), t) == (constraints_hold(cs, t) && value_of(t, c) == p),
{
    let ds = cs.push((c, p));
    if constraints_hold(cs, t) && value_of(t, c) == p {
        assert forall|i: int| 0 <= i < ds.len() implies value_of(t, (#[trigger] ds[i]).0) == ds[i].1 by {
            if i < cs.len() {
                assert(ds[i] == cs[i]);
            }
        }
    }
    if constraints_hold(ds, t) {
        assert(ds[cs.len() as int] == (c, p));
        assert forall|i: int| 0 <= i < cs.len() implies value_of(t, (#[trigger] cs[i]).0) == cs[i].1 by {
            assert(ds[i] == cs[i]);
        }
    }
}

/// A constraint already recorded constrains nothing further.
proof fn lemma_constraint_present(cs: Seq<(char, bool)>, c: char, p: bool, t: Set<char>)
    requires
        cs.contains((c, p)),
    ensures
        constraints_hold(cs, t) ==> value_of(t, c) == p,
{
    let i = choose|i: int| 0 <= i < cs.len() && cs[i] == (c, p);
    if constraints_hold(cs, t) {
        assert(value_of(t, cs[i].0) == cs[i].1);
    }
}

/// A new constraint makes a branch contradictory only by meeting its opposite.
proof fn lemma_push_contradiction(cs: Seq<(char, bool)>, c: char, p: bool)
    requires
        !contradictory(cs),
        contradictory(cs.push((c, p))),
    ensures
        cs.contains((c, !p)),
{
    let ds = cs.push((c, p));
    let d = choose|d: char| ds.contains((d, true)) && ds.contains((d, false));
    let i = choose|i: int| 0 <= i < ds.len() && ds[i] == (d, true);
    let j = choose|j: int| 0 <= j < ds.len() && ds[j] == (d, false);
    if i < cs.len() {
        assert(cs[i] == ds[i]);
    }
    if j < cs.len() {
        assert(cs[j] == ds[j]);
    }
    if i < cs.len() && j < cs.len() {
        assert(cs.contains((d, true)) && cs.contains((d, false)));
    }
}

/// A branch without contradiction is satisfied by the assignment read off it.
pub proof fn lemma_assignment_satisfies(cs: Seq<(char, bool)>)
    requires
        !contradictory(cs),
    ensures
        constraints_hold(cs, assignment(cs)),
{
    assert forall|i: int| 0 <= i < cs.len() implies value_of(assignment(cs), (#[trigger] cs[i]).0)
        == cs[i].1 by {
        let (c, p) = cs[i];
        assert(cs.contains((c, p)));
        if !p {
            assert(!cs.contains((c, true)));
        }
    }
}

/// Whether `(symbol, positive)` is among `constraints`.
fn has_constraint(constraints: &Vec<(char, bool)>, symbol: char, positive: bool) -> (r: bool)
    ensures
        r == constraints@.contains((symbol, positive)),
{
    let mut i: usize = 0;
    while i < constraints.len()
        invariant
            i <= constraints@.len(),
            forall|j: int| 0 <= j < i ==> constraints@[j] != (symbol, positive),
        decreases constraints@.len() - i,
    {
        let (c, p) = constraints[i];
        if c == symbol && p == positive {
            proof {
                assert(constraints@[i as int] == (symbol, positive));
            }
            return true;
        }
        i = i + 1;
    }
    false
}

/// Records on a branch that `symbol` has the value `positive`. Returns whether
/// the branch closes, that is whether it would then hold the variable with both
/// values; a closed branch keeps its constraints as they were.
pub fn record(constraints: &mut Vec<(char, bool)>, symbol: char, positive: bool) -> (closed: bool)
    requires
        !contradictory(old(constraints)@),
    ensures
        closed == contradictory(old(constraints)@.push((symbol, positive))),
        closed ==> final(constraints)@ == old(constraints)@,
        !closed ==> final(constraints)@ == if old(constraints)@.contains((symbol, positive)) {
            old(constraints)@
        } else {
            old(constraints)@.push((symbol, positive))
        },
        !contradictory(final(constraints)@),
{
    let ghost cs = constraints@;
    let ghost ds = cs.push((symbol, positive));
    assert forall|c: char, p: bool| #[trigger] ds.contains((c, p)) implies cs.contains((c, p)) || (c,
        p) == (symbol, positive) by {
        let i = choose|i: int| 0 <= i < ds.len() && ds[i] == (c, p);
        if i < cs.len() {
            assert(cs[i] == ds[i]);
        }
    }
    assert forall|c: char, p: bool| #[trigger] cs.contains((c, p)) implies ds.contains((c, p)) by {
        let i = choose|i: int| 0 <= i < cs.len() && cs[i] == (c, p);
        assert(ds[i] == cs[i]);
    }
    assert(ds[cs.len() as int] == (symbol, positive));
    if has_constraint(constraints, symbol, !positive) {
        assert(ds.contains((symbol, true)) && ds.contains((symbol, false)));
        true
    } else {
        if !has_constraint(constraints, symbol, positive) {
            constraints.push((symbol, positive));
        }
        false
    }
}

/// A copy of the formulas of a branch, for the second branch of a split.
fn copy_formulas(fs: &Vec<SignedFormula>) -> (r: Vec<SignedFormula>)
    ensures
        r@ == fs@,
{
    let mut r: Vec<SignedFormula> = Vec::new();
    let mut i: usize = 0;
    while i < fs.len()
        invariant
            i <= fs@.len(),
            r@ == fs@.subrange(0, i as int),
        decreases fs@.len() - i,
    {
        r.push(SignedFormula { formula: fs[i].formula.clone(), positive: fs[i].positive });
        i = i + 1;
        proof {
            assert(r@ =~= fs@.subrange(0, i as int));
        }
    }
    proof {
        assert(r@ =~= fs@);
    }
    r
}

fn copy_constraints(cs: &Vec<(char, bool)>) -> (r: Vec<(char, bool)>)
    ensures
        r@ == cs@,
{
    let mut r: Vec<(char, bool)> = Vec::new();
    let mut i: usize = 0;
    while i < cs.len()
        invariant
            i <= cs@.len(),
            r@ == cs@.subrange(0, i as int),
        decreases cs@.len() - i,
    {
        r.push(cs[i]);
        i = i + 1;
        proof {
            assert(r@ =~= cs@.subrange(0, i as int));
        }
    }
    proof {
        assert(r@ =~= cs@);
    }
    r
}

/// Expands one branch, holding the signed formulas `pending` still to expand
/// and the literal constraints recorded so far, until it closes or saturates.
/// Conjunctive rules extend the branch in place; a disjunctive rule splits it,
/// and the second branch is tried when the first closes. Returns the
/// constraints of a saturated branch, or `None` when every branch closed.
fn expand(pending: Vec<SignedFormula>, constraints: Vec<(char, bool)>) -> (r: Option<
    Vec<(char, bool)>,
>)
    requires
        !contradictory(constraints@),
    ensures
        match r {
            Some(m) => !contradictory(m@) && branch_holds(pending@, constraints@, assignment(m@)),
            None => forall|t: Set<char>| !#[trigger] branch_holds(pending@, constraints@, t),
        },
    decreases measure(pending@),
{
    let mut pend = pending;
    let mut cs = constraints;
    loop
        invariant
            !contradictory(cs@),
            measure(pend@) <= measure(pending@),
            forall|t: Set<char>| #[trigger]
                branch_holds(pend@, cs@, t) == branch_holds(pending@, constraints@, t),
        decreases measure(pend@),
    {
        let ghost prev = pend@;
        let ghost prev_cs = cs@;
        match pend.pop() {
            None => {
                proof {
                    lemma_assignment_satisfies(cs@);
                    assert(branch_holds(pend@, cs@, assignment(cs@)));
                }
                return Some(cs);
            },
            Some(f) => {
                let ghost rest = pend@;
                proof {
                    assert(prev =~= rest.push(f));
                    lemma_measure_push(rest, f);
                }
                let SignedFormula { formula, positive } = f;
                match formula {
                    Expression::Literal(c) => {
                        let closed = record(&mut cs, c, positive);
                        if closed {
                            proof {
                                lemma_push_contradiction(prev_cs, c, positive);
                                assert forall|t: Set<char>|
                                    !#[trigger] branch_holds(pending@, constraints@, t) by {
                                    lemma_holds_all_push(rest, f, t);
                                    lemma_constraint_present(prev_cs, c, !positive, t);
                                    assert(!branch_holds(prev, prev_cs, t));
                                }
                            }
                            return None;
                        }
                        proof {
                            assert forall|t: Set<char>| #[trigger]
                                branch_holds(pend@, cs@, t) == branch_holds(
                                    pending@,
                                    constraints@,
                                    t,
                                ) by {
                                lemma_holds_all_push(rest, f, t);
                                lemma_constraints_push(prev_cs, c, positive, t);
                                if prev_cs.contains((c, positive)) {
                                    lemma_constraint_present(prev_cs, c, positive, t);
                                }
                                assert(branch_holds(prev, prev_cs, t) == branch_holds(pending@, constraints@, t));
                            }
                        }
                    },
                    Expression::No(sub) => {
                        let g = SignedFormula { formula: *sub, positive: !positive };
                        pend.push(g);
                        proof {
                            lemma_measure_push(rest, g);
                            assert forall|t: Set<char>| #[trigger]
                                branch_holds(pend@, cs@, t) == branch_holds(
                                    pending@,
                                    constraints@,
                                    t,
                                ) by {
                                lemma_holds_all_push(rest, f, t);
                                lemma_holds_all_push(rest, g, t);
                                assert(branch_holds(prev, prev_cs, t) == branch_holds(pending@, constraints@, t));
                            }
                        }
                    },
                    Expression::And(left, right) if positive => {
                        expand_alpha(&mut pend, *left, *right, true);
                        proof {
                            assert forall|t: Set<char>| #[trigger]
                                branch_holds(pend@, cs@, t) == branch_holds(
                                    pending@,
                                    constraints@,
                                    t,
                                ) by {
                                lemma_holds_all_push(rest, f, t);
                                assert(branch_holds(prev, prev_cs, t) == branch_holds(pending@, constraints@, t));
                            }
                        }
                    },
                    Expression::Or(left, right) if !positive => {
                        expand_alpha(&mut pend, *left, *right, false);
                        proof {
                            assert forall|t: Set<char>| #[trigger]
                                branch_holds(pend@, cs@, t) == branch_holds(
                                    pending@,
                                    constraints@,
                                    t,
                                ) by {
                                lemma_holds_all_push(rest, f, t);
                                assert(branch_holds(prev, prev_cs, t) == branch_holds(pending@, constraints@, t));
                            }
                        }
                    },
                    Expression::And(left, right) | Expression::Or(left, right) => {
                        let mut other = copy_formulas(&pend);
                        let other_cs = copy_constraints(&cs);
                        let a = SignedFormula { formula: *left, positive };
                        let b = SignedFormula { formula: *right, positive };
                        let ghost ga = a;
                        let ghost gb = b;
                        pend.push(a);
                        other.push(b);
                        proof {
                            lemma_measure_push(rest, ga);
                            lemma_measure_push(rest, gb);
                            assert forall|t: Set<char>|
                                holds(f, t) == (holds(ga, t) || holds(gb, t)) by {}
                        }
                        let first = expand(pend, cs);
                        match first {
                            Some(m) => {
                                proof {
                                    let t = assignment(m@);
                                    lemma_holds_all_push(rest, f, t);
                                    lemma_holds_all_push(rest, ga, t);
                                    assert(branch_holds(prev, prev_cs, t));
                                }
                                return Some(m);
                            },
                            None => {},
                        }
                        let second = expand(other, other_cs);
                        proof {
                            match &second {
                                Some(m) => {
                                    let t = assignment(m@);
                                    lemma_holds_all_push(rest, f, t);
                                    lemma_holds_all_push(rest, gb, t);
                                    assert(branch_holds(prev, prev_cs, t));
                                },
                                None => {
                                    assert forall|t: Set<char>|
                                        !#[trigger] branch_holds(pending@, constraints@, t) by {
                                        lemma_holds_all_push(rest, f, t);
                                        lemma_holds_all_push(rest, ga, t);
                                        lemma_holds_all_push(rest, gb, t);
                                        assert(!branch_holds(rest.push(ga), prev_cs, t));
                                        assert(!branch_holds(rest.push(gb), prev_cs, t));
                                        assert(!branch_holds(prev, prev_cs, t));
                                    }
                                },
                            }
                        }
                        return second;
                    },
                }
            },
        }
    }
}

/// Adds both operands of a conjunctive formula to a branch, each with the
/// value `positive`.
fn expand_alpha(pend: &mut Vec<SignedFormula>, left: Expression, right: Expression, positive: bool)
    ensures
        final(pend)@ == old(pend)@.push(SignedFormula { formula: left, positive }).push(
            (SignedFormula { formula: right, positive }),
        ),
        measure(final(pend)@) == measure(old(pend)@) + left.size() + right.size(),
        forall|t: Set<char>| #[trigger]
            holds_all(final(pend)@, t) == (holds_all(old(pend)@, t) && left.eval(t) == positive
                && right.eval(t) == positive),
{
    let ghost prev = pend@;
    let a = SignedFormula { formula: left, positive };
    let b = SignedFormula { formula: right, positive };
    let ghost ga = a;
    let ghost gb = b;
    pend.push(a);
    pend.push(b);
    proof {
        lemma_measure_push(prev, ga);
        lemma_measure_push(prev.push(ga), gb);
        assert forall|t: Set<char>| #[trigger]
            holds_all(pend@, t) == (holds_all(prev, t) && left.eval(t) == positive && right.eval(t)
                == positive) by {
            lemma_holds_all_push(prev, ga, t);
            lemma_holds_all_push(prev.push(ga), gb, t);
        }
    }
}

/// Decides whether the signed formulas can all hold at once, by the analytic
/// tableau method. A reported model makes each formula take its sign.
pub fn decide(formulas: Vec<SignedFormula>) -> (r: Verdict)
    ensures
        match r {
            Verdict::Satisfiable(m) => !contradictory(m@) && holds_all(formulas@, assignment(m@)),
            Verdict::Unsatisfiable => !satisfiable(formulas@),
        },
{
    let ghost fs = formulas@;
    let empty: Vec<(char, bool)> = Vec::new();
    proof {
        assert forall|t: Set<char>| #[trigger] branch_holds(fs, empty@, t) == holds_all(fs, t) by {}
    }
    match expand(formulas, empty) {
        Some(m) => Verdict::Satisfiable(m),
        None => {
            proof {
                assert forall|t: Set<char>| !holds_all(fs, t) by {
                    assert(!branch_holds(fs, empty@, t));
                }
            }
            Verdict::Unsatisfiable
        },
    }
}

} // verus!
