use crate::expression::{occurs_at, parsable, Expression, ParseError};
use crate::tableau::{
    assignment, constraints_hold, contradictory, decide, lemma_assignment_satisfies, satisfiable,
    SignedFormula, Verdict,
};
use crate::expression::value_of;
use crate::variables::VariableSet;
use vstd::prelude::*;

verus! {

/// A list of premises, in the order given, with the variables they use.
pub struct SemanticTable {
    expressions: Vec<Expression>,
    variables: VariableSet,
}

/// The variables of all formulas of `es`.
pub open spec fn symbols_of_all(es: Seq<Expression>) -> Set<char>
    decreases es.len(),
{
    if es.len() == 0 {
        Set::empty()
    } else {
        symbols_of_all(es.drop_last()).union(es.last().symbols())
    }
}

/// Each formula of `ps` is true when exactly the variables in `t` are true.
pub open spec fn all_true(ps: Seq<Expression>, t: Set<char>) -> bool {
    forall|i: int| 0 <= i < ps.len() ==> (#[trigger] ps[i]).eval(t)
}

/// Every assignment that makes the premises true makes `c` true.
pub open spec fn entails(ps: Seq<Expression>, c: Expression) -> bool {
    forall|t: Set<char>| all_true(ps, t) ==> #[trigger] c.eval(t)
}

/// The premises asserted true, followed by the candidate asserted false.
pub open spec fn refutation_set(ps: Seq<Expression>, c: Expression) -> Seq<SignedFormula> {
    ps.map_values(|e: Expression| SignedFormula { formula: e, positive: true }).push(
        SignedFormula { formula: Expression::No(Box::new(c)), positive: true },
    )
}

/// Premises entail a candidate exactly when the premises together with the
/// candidate's negation can not all be true.
pub proof fn lemma_entailment_by_refutation(ps: Seq<Expression>, c: Expression)
    ensures
        entails(ps, c) == !satisfiable(refutation_set(ps, c)),
{
    let fs = refutation_set(ps, c);
    assert forall|t: Set<char>| #[trigger]
        crate::tableau::holds_all(fs, t) == (all_true(ps, t) && !c.eval(t)) by {
        if crate::tableau::holds_all(fs, t) {
            assert(crate::tableau::holds(fs[ps.len() as int], t));
            assert forall|i: int| 0 <= i < ps.len() implies (#[trigger] ps[i]).eval(t) by {
                assert(crate::tableau::holds(fs[i], t));
            }
        }
        if all_true(ps, t) && !c.eval(t) {
            assert forall|i: int| 0 <= i < fs.len() implies crate::tableau::holds(
                #[trigger] fs[i],
                t,
            ) by {
                if i < ps.len() {
                    assert(ps[i].eval(t));
                }
            }
        }
    }
    if !entails(ps, c) {
        let t = choose|t: Set<char>| all_true(ps, t) && !c.eval(t);
        assert(crate::tableau::holds_all(fs, t));
    }
}

/// More premises never lose an entailment.
pub proof fn lemma_entailment_monotone(ps: Seq<Expression>, qs: Seq<Expression>, c: Expression)
    requires
        entails(ps, c),
    ensures
        entails(ps + qs, c),
{
    assert forall|t: Set<char>| all_true(ps + qs, t) implies #[trigger] c.eval(t) by {
        assert forall|i: int| 0 <= i < ps.len() implies (#[trigger] ps[i]).eval(t) by {
            assert((ps + qs)[i] == ps[i]);
        }
    }
}

/// A literal or the negation of a literal.
pub open spec fn is_literal_form(e: Expression) -> bool {
    match e {
        Expression::Literal(_) => true,
        Expression::No(s) => (*s) is Literal,
        _ => false,
    }
}

/// The constraint that asserting a literal form true records: `(c, true)` for
/// `c`, `(c, false)` for `-c`.
pub open spec fn literal_of(e: Expression) -> (char, bool)
    recommends
        is_literal_form(e),
{
    match e {
        Expression::No(s) => ((*s)->Literal_0, false),
        _ => (e->Literal_0, true),
    }
}

/// The constraints of a tableau on literal premises and a literal candidate:
/// each premise as it stands, then the candidate with the opposite value.
pub open spec fn literal_branch(ps: Seq<Expression>, c: Expression) -> Seq<(char, bool)> {
    ps.map_values(|e: Expression| literal_of(e)).push((literal_of(c).0, !literal_of(c).1))
}

proof fn lemma_literal_form_eval(e: Expression, t: Set<char>)
    requires
        is_literal_form(e),
    ensures
        e.eval(t) == (value_of(t, literal_of(e).0) == literal_of(e).1),
{
    match e {
        Expression::No(s) => {
            assert(s.eval(t) == value_of(t, (*s)->Literal_0));
        },
        _ => {},
    }
}

/// When the premises and the candidate are literals or negated literals, the
/// tableau is a single branch of literal constraints, and the premises entail
/// the candidate exactly when that branch closes: when some variable is
/// recorded with both values.
pub proof fn lemma_literal_premises_close(ps: Seq<Expression>, c: Expression)
    requires
        forall|i: int| 0 <= i < ps.len() ==> is_literal_form(#[trigger] ps[i]),
        is_literal_form(c),
    ensures
        entails(ps, c) == contradictory(literal_branch(ps, c)),
{
    let cs = literal_branch(ps, c);
    assert(cs[ps.len() as int] == (literal_of(c).0, !literal_of(c).1));
    assert forall|t: Set<char>| #[trigger]
        constraints_hold(cs, t) == (all_true(ps, t) && !c.eval(t)) by {
        lemma_literal_form_eval(c, t);
        if constraints_hold(cs, t) {
            assert(value_of(t, cs[ps.len() as int].0) == cs[ps.len() as int].1);
            assert forall|i: int| 0 <= i < ps.len() implies (#[trigger] ps[i]).eval(t) by {
                lemma_literal_form_eval(ps[i], t);
                assert(value_of(t, cs[i].0) == cs[i].1);
            }
        }
        if all_true(ps, t) && !c.eval(t) {
            assert forall|i: int| 0 <= i < cs.len() implies value_of(t, (#[trigger] cs[i]).0)
                == cs[i].1 by {
                if i < ps.len() {
                    lemma_literal_form_eval(ps[i], t);
                    assert(ps[i].eval(t));
                }
            }
        }
    }
    if contradictory(cs) {
        let d = choose|d: char| cs.contains((d, true)) && cs.contains((d, false));
        assert forall|t: Set<char>| all_true(ps, t) implies #[trigger] c.eval(t) by {
            let i = choose|i: int| 0 <= i < cs.len() && cs[i] == (d, true);
            let j = choose|j: int| 0 <= j < cs.len() && cs[j] == (d, false);
            if !c.eval(t) {
                assert(constraints_hold(cs, t));
                assert(value_of(t, cs[i].0) == cs[i].1);
                assert(value_of(t, cs[j].0) == cs[j].1);
            }
        }
    } else {
        lemma_assignment_satisfies(cs);
        let t = assignment(cs);
        assert(constraints_hold(cs, t));
        assert(all_true(ps, t) && !c.eval(t));
    }
}

impl SemanticTable {
    /// The premises, in order.
    pub closed spec fn premises(&self) -> Seq<Expression> {
        self.expressions@
    }

    /// The variables of the premises.
    pub closed spec fn variable_set(&self) -> Set<char> {
        self.variables@
    }

    pub closed spec fn wf(&self) -> bool {
        &&& self.variables.wf()
        &&& self.variables@ == symbols_of_all(self.expressions@)
        &&& forall|i: int|
            0 <= i < self.expressions@.len() ==> (#[trigger] self.expressions@[i]).well_formed()
    }

    /// Parses each text as a premise, in order, and gathers their variables.
    /// Fails when some text does not hold a formula.
    pub fn parse_set(expressions: &Vec<&str>) -> (res: Result<SemanticTable, ParseError>)
        ensures
            match res {
                Ok(t) => {
                    &&& t.wf()
                    &&& t.premises().len() == expressions@.len()
                    &&& forall|i: int|
                        0 <= i < t.premises().len() ==> (#[trigger] t.premises()[i]).well_formed()
                    &&& forall|i: int|
                        0 <= i < expressions@.len() ==> occurs_at(
                            (#[trigger] t.premises()[i]).prefix_form(),
                            expressions@[i]@,
                            0,
                        )
                    &&& t.variable_set() == symbols_of_all(t.premises())
                },
                Err(ParseError::Truncated) => exists|i: int|
                    0 <= i < expressions@.len() && !parsable(#[trigger] expressions@[i]@),
            },
    {
        let mut exprs: Vec<Expression> = Vec::new();
        let mut variables = VariableSet::new();
        let mut i: usize = 0;
        while i < expressions.len()
            invariant
                i <= expressions@.len(),
                exprs@.len() == i,
                variables.wf(),
                variables@ == symbols_of_all(exprs@),
                forall|j: int| 0 <= j < i ==> (#[trigger] exprs@[j]).well_formed(),
                forall|j: int|
                    0 <= j < i ==> occurs_at(
                        (#[trigger] exprs@[j]).prefix_form(),
                        expressions@[j]@,
                        0,
                    ),
            decreases expressions@.len() - i,
        {
            match Expression::parse(expressions[i]) {
                Ok((e, vars)) => {
                    let ghost before = exprs@;
                    variables.extend(&vars);
                    exprs.push(e);
                    proof {
                        assert(exprs@.drop_last() =~= before);
                    }
                },
                Err(err) => {
                    proof {
                        assert(!parsable(expressions@[i as int]@));
                    }
                    return Err(err);
                },
            }
            i = i + 1;
        }
        Ok(SemanticTable { expressions: exprs, variables })
    }

    /// The premises, in the order given.
    pub fn expressions(&self) -> (r: &Vec<Expression>)
        ensures
            r@ == self.premises(),
    {
        &self.expressions
    }

    /// The variables that occur in the premises.
    pub fn variables(self) -> (r: VariableSet)
        ensures
            r@ == self.variable_set(),
            self.wf() ==> r.wf(),
    {
        self.variables
    }

    /// Runs the tableau on the premises together with the negation of
    /// `candidate`. A model found is a counter-example: it makes every premise
    /// true and `candidate` false.
    pub fn refute(&self, candidate: Expression) -> (r: Verdict)
        ensures
            match r {
                Verdict::Satisfiable(m) => {
                    &&& all_true(self.premises(), crate::tableau::assignment(m@))
                    &&& !candidate.eval(crate::tableau::assignment(m@))
                },
                Verdict::Unsatisfiable => entails(self.premises(), candidate),
            },
            (r is Unsatisfiable) == !satisfiable(refutation_set(self.premises(), candidate)),
    {
        let ghost c = candidate;
        let mut fs: Vec<SignedFormula> = Vec::new();
        let mut i: usize = 0;
        while i < self.expressions.len()
            invariant
                i <= self.expressions@.len(),
                fs@ == self.expressions@.subrange(0, i as int).map_values(
                    |e: Expression| SignedFormula { formula: e, positive: true },
                ),
            decreases self.expressions@.len() - i,
        {
            fs.push(SignedFormula { formula: self.expressions[i].clone(), positive: true });
            i = i + 1;
            proof {
                assert(fs@ =~= self.expressions@.subrange(0, i as int).map_values(
                    |e: Expression| SignedFormula { formula: e, positive: true },
                ));
            }
        }
        fs.push(SignedFormula { formula: Expression::No(Box::new(candidate)), positive: true });
        proof {
            assert(self.expressions@.subrange(0, i as int) =~= self.expressions@);
            assert(fs@ =~= refutation_set(self.premises(), c));
            lemma_entailment_by_refutation(self.premises(), c);
        }
        let r = decide(fs);
        proof {
            let ps = self.premises();
            let rs = refutation_set(ps, c);
            if let Verdict::Satisfiable(m) = &r {
                let t = crate::tableau::assignment(m@);
                assert(crate::tableau::holds(rs[ps.len() as int], t));
                assert forall|j: int| 0 <= j < ps.len() implies (#[trigger] ps[j]).eval(t) by {
                    assert(crate::tableau::holds(rs[j], t));
                }
            }
        }
        r
    }

    /// Whether the premises entail `expr`: every assignment that makes them
    /// all true makes `expr` true.
    pub fn models(&self, expr: Expression) -> (r: bool)
        ensures
            r == entails(self.premises(), expr),
    {
        match self.refute(expr) {
            Verdict::Satisfiable(_) => false,
            Verdict::Unsatisfiable => true,
        }
    }
}

} // verus!
