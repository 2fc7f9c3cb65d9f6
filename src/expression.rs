use crate::variables::VariableSet;
use vstd::prelude::*;
use vstd::string::StrSliceExecFns;

verus! {

/// How a compound formula expands in a tableau.
#[derive(Debug, PartialEq, Eq, Structural)]
pub enum Rule {
    /// Extends a branch without splitting it.
    Alpha,
    /// Splits a branch in two.
    Beta,
}

#[derive(Debug, PartialEq, Eq, Structural)]
pub enum ParseError {
    /// The text ended before an operator had all of its operands.
    Truncated,
}

/// A propositional formula. Each node owns its sub-formulas.
#[derive(Debug)]
pub enum Expression {
    Literal(char),
    No(Box<Expression>),
    And(Box<Expression>, Box<Expression>),
    Or(Box<Expression>, Box<Expression>),
}

/// The characters that prefix notation reserves for connectives.
pub open spec fn is_operator(c: char) -> bool {
    c == '-' || c == '&' || c == '|'
}

/// `p` stands in `s` starting at index `pos`.
pub open spec fn occurs_at(p: Seq<char>, s: Seq<char>, pos: int) -> bool {
    0 <= pos && pos + p.len() <= s.len() && s.subrange(pos, pos + p.len()) == p
}

/// Some formula written in prefix notation opens `s`.
pub open spec fn parsable(s: Seq<char>) -> bool {
    exists|e: Expression| e.well_formed() && occurs_at(e.prefix_form(), s, 0)
}

/// The truth value of a variable under an assignment given by the set of the
/// variables that are true.
pub open spec fn value_of(t: Set<char>, c: char) -> bool {
    t.contains(c)
}

impl Expression {
    /// No literal uses a connective's character, so that prefix notation can
    /// write the formula.
    pub open spec fn well_formed(self) -> bool
        decreases self,
    {
        match self {
            Expression::Literal(c) => !is_operator(c),
            Expression::No(s) => s.well_formed(),
            Expression::And(l, r) => l.well_formed() && r.well_formed(),
            Expression::Or(l, r) => l.well_formed() && r.well_formed(),
        }
    }

    /// The formula in prefix notation.
    pub open spec fn prefix_form(self) -> Seq<char>
        decreases self,
    {
        match self {
            Expression::Literal(c) => seq![c],
            Expression::No(s) => seq!['-'] + s.prefix_form(),
            Expression::And(l, r) => seq!['&'] + l.prefix_form() + r.prefix_form(),
            Expression::Or(l, r) => seq!['|'] + l.prefix_form() + r.prefix_form(),
        }
    }

    /// The formula fully parenthesised in infix notation.
    pub open spec fn infix_form(self) -> Seq<char>
        decreases self,
    {
        match self {
            Expression::Literal(c) => seq![c],
            Expression::No(s) => seq!['-', '('] + s.infix_form() + seq![')'],
            Expression::And(l, r) => seq!['('] + l.infix_form() + seq![')', ' ', '&', ' ', '(']
                + r.infix_form() + seq![')'],
            Expression::Or(l, r) => seq!['('] + l.infix_form() + seq![')', ' ', '|', ' ', '(']
                + r.infix_form() + seq![')'],
        }
    }

    /// The distinct variable symbols of the formula.
    pub open spec fn symbols(self) -> Set<char>
        decreases self,
    {
        match self {
            Expression::Literal(c) => set![c],
            Expression::No(s) => s.symbols(),
            Expression::And(l, r) => l.symbols().union(r.symbols()),
            Expression::Or(l, r) => l.symbols().union(r.symbols()),
        }
    }

    /// The truth value of the formula when exactly the variables in `t` are true.
    pub open spec fn eval(self, t: Set<char>) -> bool
        decreases self,
    {
        match self {
            Expression::Literal(c) => value_of(t, c),
            Expression::No(s) => !s.eval(t),
            Expression::And(l, r) => l.eval(t) && r.eval(t),
            Expression::Or(l, r) => l.eval(t) || r.eval(t),
        }
    }

    /// The number of nodes of the formula.
    pub open spec fn size(self) -> nat
        decreases self,
    {
        match self {
            Expression::Literal(_) => 1,
            Expression::No(s) => 1 + s.size(),
            Expression::And(l, r) => 1 + l.size() + r.size(),
            Expression::Or(l, r) => 1 + l.size() + r.size(),
        }
    }
}

/// A formula in prefix notation begins with its connective, or is a literal.
proof fn lemma_prefix_form_head(e: Expression)
    ensures
        e.prefix_form().len() >= 1,
        e.prefix_form()[0] == match e {
            Expression::Literal(c) => c,
            Expression::No(_) => '-',
            Expression::And(_, _) => '&',
            Expression::Or(_, _) => '|',
        },
{
    match e {
        Expression::Literal(c) => {},
        Expression::No(s) => {
            assert((seq!['-'] + s.prefix_form())[0] == '-');
        },
        Expression::And(l, r) => {
            assert((seq!['&'] + l.prefix_form() + r.prefix_form())[0] == '&');
        },
        Expression::Or(l, r) => {
            assert((seq!['|'] + l.prefix_form() + r.prefix_form())[0] == '|');
        },
    }
}

/// A binary formula's prefix form stands at `pos` exactly when its connective,
/// its left operand and then its right operand stand there one after another.
proof fn lemma_occurs_binary(op: char, l: Seq<char>, r: Seq<char>, s: Seq<char>, pos: int)
    requires
        0 <= pos,
    ensures
        occurs_at(seq![op] + l + r, s, pos) <==> (pos < s.len() && s[pos] == op && occurs_at(
            l,
            s,
            pos + 1,
        ) && occurs_at(r, s, pos + 1 + l.len())),
{
    let w = seq![op] + l + r;
    if occurs_at(w, s, pos) {
        assert(s[pos] == s.subrange(pos, pos + w.len())[0]);
        assert(s.subrange(pos + 1, pos + 1 + l.len()) =~= w.subrange(1, 1 + l.len() as int));
        assert(w.subrange(1, 1 + l.len() as int) =~= l);
        assert(s.subrange(pos + 1 + l.len(), pos + 1 + l.len() + r.len()) =~= w.subrange(
            1 + l.len() as int,
            w.len() as int,
        ));
        assert(w.subrange(1 + l.len() as int, w.len() as int) =~= r);
    }
    if pos < s.len() && s[pos] == op && occurs_at(l, s, pos + 1) && occurs_at(
        r,
        s,
        pos + 1 + l.len(),
    ) {
        assert(s.subrange(pos, pos + w.len()) =~= w);
    }
}

/// A negation's prefix form stands at `pos` exactly when `-` and then its
/// operand stand there.
proof fn lemma_occurs_unary(l: Seq<char>, s: Seq<char>, pos: int)
    requires
        0 <= pos,
    ensures
        occurs_at(seq!['-'] + l, s, pos) <==> (pos < s.len() && s[pos] == '-' && occurs_at(
            l,
            s,
            pos + 1,
        )),
{
    lemma_occurs_binary('-', l, Seq::empty(), s, pos);
    assert(seq!['-'] + l + Seq::<char>::empty() =~= seq!['-'] + l);
    assert(occurs_at(Seq::<char>::empty(), s, pos + 1 + l.len()) <== occurs_at(l, s, pos + 1)) by {
        if occurs_at(l, s, pos + 1) {
            assert(s.subrange(pos + 1 + l.len(), pos + 1 + l.len()) =~= Seq::<char>::empty());
        }
    }
}

/// Prefix notation is unambiguous: at most one well-formed formula begins at
/// a given place of a text.
pub proof fn lemma_prefix_form_unique(a: Expression, b: Expression, s: Seq<char>, pos: int)
    requires
        a.well_formed(),
        b.well_formed(),
        occurs_at(a.prefix_form(), s, pos),
        occurs_at(b.prefix_form(), s, pos),
    ensures
        a == b,
    decreases a,
{
    lemma_prefix_form_head(a);
    lemma_prefix_form_head(b);
    assert(s[pos] == a.prefix_form()[0]) by {
        assert(s.subrange(pos, pos + a.prefix_form().len())[0] == s[pos]);
    }
    assert(s[pos] == b.prefix_form()[0]) by {
        assert(s.subrange(pos, pos + b.prefix_form().len())[0] == s[pos]);
    }
    match (a, b) {
        (Expression::No(x), Expression::No(y)) => {
            lemma_occurs_unary(x.prefix_form(), s, pos);
            lemma_occurs_unary(y.prefix_form(), s, pos);
            lemma_prefix_form_unique(*x, *y, s, pos + 1);
        },
        (Expression::And(xl, xr), Expression::And(yl, yr)) => {
            lemma_occurs_binary('&', xl.prefix_form(), xr.prefix_form(), s, pos);
            lemma_occurs_binary('&', yl.prefix_form(), yr.prefix_form(), s, pos);
            lemma_prefix_form_unique(*xl, *yl, s, pos + 1);
            lemma_prefix_form_unique(*xr, *yr, s, pos + 1 + xl.prefix_form().len());
        },
        (Expression::Or(xl, xr), Expression::Or(yl, yr)) => {
            lemma_occurs_binary('|', xl.prefix_form(), xr.prefix_form(), s, pos);
            lemma_occurs_binary('|', yl.prefix_form(), yr.prefix_form(), s, pos);
            lemma_prefix_form_unique(*xl, *yl, s, pos + 1);
            lemma_prefix_form_unique(*xr, *yr, s, pos + 1 + xl.prefix_form().len());
        },
        _ => {},
    }
}

impl Expression {
    /// Reads a formula in prefix notation from the start of `expression`
    /// (characters after it are left unread) and collects its variables.
    pub fn parse(expression: &str) -> (res: Result<(Expression, VariableSet), ParseError>)
        ensures
            match res {
                Ok((e, vars)) => {
                    &&& e.well_formed()
                    &&& occurs_at(e.prefix_form(), expression@, 0)
                    &&& vars.wf()
                    &&& vars@ == e.symbols()
                },
                Err(ParseError::Truncated) => !parsable(expression@),
            },
    {
        let symbols = chars_of(expression);
        let mut vars = VariableSet::new();
        match Self::build_tree(&symbols, 0, &mut vars) {
            Ok((e, _)) => {
                proof {
                    assert(vars@ =~= e.symbols());
                }
                Ok((e, vars))
            },
            Err(err) => Err(err),
        }
    }

    /// Reads one formula starting at `pos` and adds its variables to `vars`;
    /// on success also returns the index just past it.
    fn build_tree(symbols: &Vec<char>, pos: usize, vars: &mut VariableSet) -> (res: Result<
        (Expression, usize),
        ParseError,
    >)
        requires
            pos <= symbols@.len(),
            old(vars).wf(),
        ensures
            final(vars).wf(),
            match res {
                Ok((e, end)) => {
                    &&& e.well_formed()
                    &&& end == pos + e.prefix_form().len()
                    &&& occurs_at(e.prefix_form(), symbols@, pos as int)
                    &&& final(vars)@ == old(vars)@.union(e.symbols())
                },
                Err(_) => forall|e: Expression| #[trigger]
                    e.well_formed() ==> !occurs_at(e.prefix_form(), symbols@, pos as int),
            },
        decreases symbols@.len() - pos,
    {
        let ghost s = symbols@;
        if pos >= symbols.len() {
            proof {
                assert forall|e: Expression| #[trigger]
                    e.well_formed() implies !occurs_at(e.prefix_form(), s, pos as int) by {
                    lemma_prefix_form_head(e);
                }
            }
            return Err(ParseError::Truncated);
        }
        let symbol = symbols[pos];
        proof {
            assert forall|e: Expression| occurs_at(e.prefix_form(), s, pos as int) implies s[pos as int]
                == #[trigger] e.prefix_form()[0] by {
                lemma_prefix_form_head(e);
                assert(s.subrange(pos as int, pos + e.prefix_form().len())[0] == s[pos as int]);
            }
        }
        if symbol == '-' {
            match Self::build_tree(symbols, pos + 1, vars) {
                Ok((sub, end)) => {
                    let e = Expression::No(Box::new(sub));
                    proof {
                        lemma_occurs_unary(sub.prefix_form(), s, pos as int);
                        assert(vars@ =~= old(vars)@.union(e.symbols()));
                    }
                    Ok((e, end))
                },
                Err(err) => {
                    proof {
                        assert forall|e: Expression| #[trigger]
                            e.well_formed() implies !occurs_at(e.prefix_form(), s, pos as int) by {
                            if occurs_at(e.prefix_form(), s, pos as int) {
                                lemma_prefix_form_head(e);
                                if let Expression::No(x) = e {
                                    lemma_occurs_unary(x.prefix_form(), s, pos as int);
                                    assert(x.well_formed());
                                }
                            }
                        }
                    }
                    Err(err)
                },
            }
        } else if symbol == '&' || symbol == '|' {
            let left_res = Self::build_tree(symbols, pos + 1, vars);
            let ghost mid_vars = vars@;
            match left_res {
                Err(err) => {
                    proof {
                        assert forall|e: Expression| #[trigger]
                            e.well_formed() implies !occurs_at(e.prefix_form(), s, pos as int) by {
                            if occurs_at(e.prefix_form(), s, pos as int) {
                                lemma_prefix_form_head(e);
                                match e {
                                    Expression::And(x, y) => {
                                        lemma_occurs_binary('&', x.prefix_form(), y.prefix_form(), s, pos as int);
                                        assert(x.well_formed());
                                    },
                                    Expression::Or(x, y) => {
                                        lemma_occurs_binary('|', x.prefix_form(), y.prefix_form(), s, pos as int);
                                        assert(x.well_formed());
                                    },
                                    _ => {},
                                }
                            }
                        }
                    }
                    Err(err)
                },
                Ok((left, mid)) => {
                    match Self::build_tree(symbols, mid, vars) {
                        Err(err) => {
                            proof {
                                assert forall|e: Expression| #[trigger]
                                    e.well_formed() implies !occurs_at(e.prefix_form(), s, pos as int) by {
                                    if occurs_at(e.prefix_form(), s, pos as int) {
                                        lemma_prefix_form_head(e);
                                        match e {
                                            Expression::And(x, y) => {
                                                lemma_occurs_binary('&', x.prefix_form(), y.prefix_form(), s, pos as int);
                                                lemma_prefix_form_unique(*x, left, s, pos + 1);
                                                assert(y.well_formed());
                                            },
                                            Expression::Or(x, y) => {
                                                lemma_occurs_binary('|', x.prefix_form(), y.prefix_form(), s, pos as int);
                                                lemma_prefix_form_unique(*x, left, s, pos + 1);
                                                assert(y.well_formed());
                                            },
                                            _ => {},
                                        }
                                    }
                                }
                            }
                            Err(err)
                        },
                        Ok((right, end)) => {
                            let ghost lp = left.prefix_form();
                            let ghost rp = right.prefix_form();
                            let e = if symbol == '&' {
                                Expression::And(Box::new(left), Box::new(right))
                            } else {
                                Expression::Or(Box::new(left), Box::new(right))
                            };
                            proof {
                                lemma_occurs_binary(symbol, lp, rp, s, pos as int);
                                assert(vars@ =~= old(vars)@.union(e.symbols()));
                            }
                            Ok((e, end))
                        },
                    }
                },
            }
        } else {
            let ghost before = vars@;
            vars.insert(symbol);
            let e = Expression::Literal(symbol);
            proof {
                assert(vars@ == before.insert(symbol));
                lemma_literal_forms(symbol);
                assert(s.subrange(pos as int, pos + 1) =~= seq![symbol]);
                assert(vars@ =~= old(vars)@.union(e.symbols()));
            }
            Ok((e, pos + 1))
        }
    }

    /// The expansion rule of a compound formula: alpha for a conjunction,
    /// beta for a disjunction, none for a literal or a negation.
    pub fn rule(&self) -> (r: Option<Rule>)
        ensures
            r == match self {
                Expression::And(_, _) => Some(Rule::Alpha),
                Expression::Or(_, _) => Some(Rule::Beta),
                _ => None::<Rule>,
            },
    {
        match self {
            Expression::Literal(_) | Expression::No(_) => None,
            Expression::And(_, _) => Some(Rule::Alpha),
            Expression::Or(_, _) => Some(Rule::Beta),
        }
    }
}

proof fn lemma_literal_forms(c: char)
    ensures
        Expression::Literal(c).prefix_form() == seq![c],
        Expression::Literal(c).symbols() == set![c],
        Expression::Literal(c).well_formed() == !is_operator(c),
{
}

/// Relies on `String::push`: appends one character at the end.
#[verifier::external_body]
fn push_char(s: &mut String, c: char)
    ensures
        final(s)@ == old(s)@.push(c),
{
    s.push(c);
}

/// Appends the characters of `t`, in order.
fn push_all(s: &mut String, t: &[char])
    ensures
        final(s)@ == old(s)@ + t@,
{
    let mut i: usize = 0;
    while i < t.len()
        invariant
            i <= t@.len(),
            s@ == old(s)@ + t@.subrange(0, i as int),
        decreases t@.len() - i,
    {
        push_char(s, t[i]);
        i = i + 1;
        proof {
            assert(s@ =~= old(s)@ + t@.subrange(0, i as int));
        }
    }
    proof {
        assert(t@.subrange(0, i as int) =~= t@);
    }
}

impl Expression {
    /// The formula fully parenthesised in infix notation: a literal as its
    /// symbol, a negation as `-(sub)`, a binary formula as `(left) & (right)`
    /// or `(left) | (right)`.
    pub fn to_string(&self) -> (r: String)
        ensures
            r@ == self.infix_form(),
    {
        let mut out = String::new();
        self.write_infix(&mut out);
        proof {
            assert(out@ =~= self.infix_form());
        }
        out
    }

    fn write_infix(&self, out: &mut String)
        ensures
            final(out)@ == old(out)@ + self.infix_form(),
        decreases self,
    {
        match self {
            Expression::Literal(c) => {
                push_char(out, *c);
                proof {
                    lemma_literal_forms(*c);
                    assert(final(out)@ =~= old(out)@ + seq![*c]);
                }
            },
            Expression::No(sub) => {
                push_all(out, &['-', '(']);
                sub.write_infix(out);
                push_char(out, ')');
                proof {
                    assert(out@ =~= old(out)@ + self.infix_form());
                }
            },
            Expression::And(l, r) => {
                push_char(out, '(');
                l.write_infix(out);
                push_all(out, &[')', ' ', '&', ' ', '(']);
                r.write_infix(out);
                push_char(out, ')');
                proof {
                    assert(out@ =~= old(out)@ + self.infix_form());
                }
            },
            Expression::Or(l, r) => {
                push_char(out, '(');
                l.write_infix(out);
                push_all(out, &[')', ' ', '|', ' ', '(']);
                r.write_infix(out);
                push_char(out, ')');
                proof {
                    assert(out@ =~= old(out)@ + self.infix_form());
                }
            },
        }
    }

    /// The formula in prefix notation, as `parse` reads it.
    pub fn to_prefix(&self) -> (r: String)
        ensures
            r@ == self.prefix_form(),
    {
        let mut out = String::new();
        self.write_prefix(&mut out);
        proof {
            assert(out@ =~= self.prefix_form());
        }
        out
    }

    fn write_prefix(&self, out: &mut String)
        ensures
            final(out)@ == old(out)@ + self.prefix_form(),
        decreases self,
    {
        match self {
            Expression::Literal(c) => {
                push_char(out, *c);
                proof {
                    lemma_literal_forms(*c);
                    assert(final(out)@ =~= old(out)@ + seq![*c]);
                }
            },
            Expression::No(sub) => {
                push_char(out, '-');
                sub.write_prefix(out);
                proof {
                    assert(out@ =~= old(out)@ + self.prefix_form());
                }
            },
            Expression::And(l, r) => {
                push_char(out, '&');
                l.write_prefix(out);
                r.write_prefix(out);
                proof {
                    assert(out@ =~= old(out)@ + self.prefix_form());
                }
            },
            Expression::Or(l, r) => {
                push_char(out, '|');
                l.write_prefix(out);
                r.write_prefix(out);
                proof {
                    assert(out@ =~= old(out)@ + self.prefix_form());
                }
            },
        }
    }
}

/// Parsing inverts writing in prefix notation: the prefix form of a
/// well-formed formula can be parsed, and the only formula that parsing can
/// return on it is that formula, with the same variables.
pub proof fn lemma_parse_inverts_prefix_form(e: Expression, r: Expression)
    requires
        e.well_formed(),
        r.well_formed(),
        occurs_at(r.prefix_form(), e.prefix_form(), 0),
    ensures
        parsable(e.prefix_form()),
        r == e,
        r.symbols() == e.symbols(),
{
    assert(e.prefix_form().subrange(0, e.prefix_form().len() as int) =~= e.prefix_form());
    assert(occurs_at(e.prefix_form(), e.prefix_form(), 0));
    lemma_prefix_form_unique(r, e, e.prefix_form(), 0);
}

impl Clone for Expression {
    fn clone(&self) -> (r: Self)
        ensures
            r == *self,
        decreases self,
    {
        match self {
            Expression::Literal(c) => Expression::Literal(*c),
            Expression::No(s) => Expression::No(Box::new(Expression::clone(s))),
            Expression::And(l, r) => Expression::And(
                Box::new(Expression::clone(l)),
                Box::new(Expression::clone(r)),
            ),
            Expression::Or(l, r) => Expression::Or(
                Box::new(Expression::clone(l)),
                Box::new(Expression::clone(r)),
            ),
        }
    }
}

/// The characters of `text`, in order.
fn chars_of(text: &str) -> (r: Vec<char>)
    ensures
        r@ == text@,
{
    let n = text.unicode_len();
    let mut r: Vec<char> = Vec::new();
    let mut i: usize = 0;
    while i < n
        invariant
            n == text@.len(),
            i <= n,
            r@ == text@.subrange(0, i as int),
        decreases n - i,
    {
        r.push(text.get_char(i));
        i = i + 1;
        proof {
            assert(r@ =~= text@.subrange(0, i as int));
        }
    }
    proof {
        assert(r@ =~= text@);
    }
    r
}

} // verus!
