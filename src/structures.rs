use vstd::prelude::*;
use crate::rational::{
    fraction_add, fraction_add_fits, fraction_div, fraction_div_fits, fraction_mul,
    fraction_mul_fits, fraction_sub, fraction_sub_fits, rat_add, rat_div, rat_mul, rat_sub,
    reduce, Rat, Value,
};

verus! {

broadcast use vstd::std_specs::vec::group_vec_axioms;

#[derive(Debug, Clone, Copy, PartialEq, Eq)]
pub enum Operator {
    Add,
    Sub,
    Mul,
    Div,
}

#[derive(Debug, Clone, Copy, PartialEq, Eq)]
pub enum EvaluationError {
    ZeroDivision,
    Overflow,
}

/// The tier of an operator: `*` and `/` (tier 0) bind tighter than `+` and `-` (tier 1).
pub open spec fn tier(op: Operator) -> nat {
    match op {
        Operator::Mul | Operator::Div => 0,
        Operator::Add | Operator::Sub => 1,
    }
}

/// The operator written as the character `c`, if any.
pub open spec fn operator_of(c: char) -> Option<Operator> {
    if c == '+' {
        Some(Operator::Add)
    } else if c == '-' {
        Some(Operator::Sub)
    } else if c == '*' {
        Some(Operator::Mul)
    } else if c == '/' {
        Some(Operator::Div)
    } else {
        None
    }
}

/// One binary step on canonical values: exact, failing on a zero divisor and
/// wherever the checked rational arithmetic does not fit.
pub open spec fn apply_spec(op: Operator, a: Rat, b: Rat) -> Result<Rat, EvaluationError> {
    match op {
        Operator::Add => if fraction_add_fits(a, b) {
            Ok(reduce(rat_add(a, b)))
        } else {
            Err(EvaluationError::Overflow)
        },
        Operator::Sub => if fraction_sub_fits(a, b) {
            Ok(reduce(rat_sub(a, b)))
        } else {
            Err(EvaluationError::Overflow)
        },
        Operator::Mul => if fraction_mul_fits(a, b) {
            Ok(reduce(rat_mul(a, b)))
        } else {
            Err(EvaluationError::Overflow)
        },
        Operator::Div => if b.0 == 0 {
            Err(EvaluationError::ZeroDivision)
        } else if fraction_div_fits(a, b) {
            Ok(reduce(rat_div(a, b)))
        } else {
            Err(EvaluationError::Overflow)
        },
    }
}

/// The first `i` steps of one left-to-right pass for `tier` over values `vals`
/// and the operators `ops` between them: operators of that tier are applied to
/// the accumulated value, the others are kept with their right operand.
pub open spec fn collapse(vals: Seq<Rat>, ops: Seq<Operator>, t: nat, i: nat) -> Result<
    (Seq<Rat>, Seq<Operator>),
    EvaluationError,
>
    decreases i,
{
    if i == 0 {
        Ok((seq![vals[0]], seq![]))
    } else {
        match collapse(vals, ops, t, (i - 1) as nat) {
            Err(e) => Err(e),
            Ok((rv, ro)) => if tier(ops[i - 1]) == t {
                match apply_spec(ops[i - 1], rv.last(), vals[i as int]) {
                    Ok(x) => Ok((rv.drop_last().push(x), ro)),
                    Err(e) => Err(e),
                }
            } else {
                Ok((rv.push(vals[i as int]), ro.push(ops[i - 1])))
            },
        }
    }
}

/// An error in a pass is kept by every later step.
proof fn lemma_collapse_error_kept(vals: Seq<Rat>, ops: Seq<Operator>, t: nat, i: nat, j: nat)
    requires
        i <= j,
        collapse(vals, ops, t, i) is Err,
    ensures
        collapse(vals, ops, t, j) == collapse(vals, ops, t, i),
    decreases j - i,
{
    if i < j {
        lemma_collapse_error_kept(vals, ops, t, i, (j - 1) as nat);
    }
}

/// A whole group's value from its operands' values: the tier-0 pass, then the
/// tier-1 pass on what it left.
pub open spec fn resolve(vals: Seq<Rat>, ops: Seq<Operator>) -> Result<Rat, EvaluationError> {
    match collapse(vals, ops, 0, ops.len()) {
        Err(e) => Err(e),
        Ok((v1, o1)) => match collapse(v1, o1, 1, o1.len()) {
            Err(e) => Err(e),
            Ok((v2, _)) => Ok(v2[0]),
        },
    }
}

impl Operator {
    /// One binary step: `left op right`, exact, with a zero divisor and a
    /// result out of range reported as errors.
    pub fn apply(self, left: Value, right: Value) -> (r: Result<Value, EvaluationError>)
        requires
            left.wf(),
            right.wf(),
        ensures
            match r {
                Ok(v) => v.wf() && apply_spec(self, left@, right@) == Ok::<Rat, EvaluationError>(v@),
                Err(e) => apply_spec(self, left@, right@) == Err::<Rat, EvaluationError>(e),
            },
    {
        let res = match self {
            Operator::Add => fraction_add(left, right),
            Operator::Sub => fraction_sub(left, right),
            Operator::Mul => fraction_mul(left, right),
            Operator::Div => {
                if right.is_zero() {
                    return Err(EvaluationError::ZeroDivision);
                }
                fraction_div(left, right)
            },
        };
        match res {
            Some(v) => Ok(v),
            None => Err(EvaluationError::Overflow),
        }
    }

    pub fn precedence(self) -> (r: usize)
        ensures
            r == tier(self),
    {
        match self {
            Operator::Mul | Operator::Div => 0,
            Operator::Add | Operator::Sub => 1,
        }
    }

    /// The operator written as `c`: one of `+ - * /`.
    pub fn from_char(c: char) -> (r: Option<Self>)
        ensures
            r == operator_of(c),
    {
        match c {
            '+' => Some(Operator::Add),
            '-' => Some(Operator::Sub),
            '*' => Some(Operator::Mul),
            '/' => Some(Operator::Div),
            _ => None,
        }
    }
}

pub open spec fn views(vals: Seq<Value>) -> Seq<Rat> {
    vals.map_values(|v: Value| v@)
}

pub open spec fn all_wf(vals: Seq<Value>) -> bool {
    forall|i: int| 0 <= i < vals.len() ==> (#[trigger] vals[i]).wf()
}

/// The shape of an expression tree, as plain mathematical values.
pub enum Tree {
    Num(u64),
    Group(Seq<Tree>, Seq<Operator>),
}

pub type EvaluationResult = Result<Value, EvaluationError>;

#[derive(Debug, PartialEq)]
pub enum Expression {
    Num(u64),
    Parentheses(Parentheses),
}

/// A group of operands with the operators between them.
#[derive(Debug, PartialEq)]
pub struct Parentheses {
    exprs: Vec<Expression>,
    operators: Vec<Operator>,
}

impl Parentheses {
    #[verifier::type_invariant]
    spec fn shape(&self) -> bool {
        self.exprs.len() == self.operators.len() + 1
    }

    pub closed spec fn operands(&self) -> Seq<Expression> {
        self.exprs@
    }

    pub closed spec fn ops(&self) -> Seq<Operator> {
        self.operators@
    }

    /// Builds a group; there must be exactly one more operand than operators.
    pub fn new(exprs: Vec<Expression>, operators: Vec<Operator>) -> (r: Self)
        requires
            exprs.len() == operators.len() + 1,
        ensures
            r.operands() == exprs@,
            r.ops() == operators@,
    {
        Parentheses { exprs, operators }
    }
}

impl From<u64> for Expression {
    fn from(value: u64) -> (r: Self) {
        Expression::Num(value)
    }
}

impl vstd::std_specs::convert::FromSpecImpl<u64> for Expression {
    open spec fn obeys_from_spec() -> bool {
        true
    }

    open spec fn from_spec(value: u64) -> Self {
        Expression::Num(value)
    }
}

impl From<Parentheses> for Expression {
    fn from(parentheses: Parentheses) -> (r: Self) {
        Expression::Parentheses(parentheses)
    }
}

impl vstd::std_specs::convert::FromSpecImpl<Parentheses> for Expression {
    open spec fn obeys_from_spec() -> bool {
        true
    }

    open spec fn from_spec(parentheses: Parentheses) -> Self {
        Expression::Parentheses(parentheses)
    }
}

impl Clone for Expression {
    fn clone(&self) -> (r: Self)
        decreases self, 0nat,
    {
        match self {
            Expression::Num(n) => Expression::Num(*n),
            Expression::Parentheses(p) => Expression::Parentheses(p.clone()),
        }
    }
}

impl Clone for Parentheses {
    fn clone(&self) -> (r: Self)
        decreases self, 1nat,
    {
        proof {
            use_type_invariant(self);
        }
        let mut exprs: Vec<Expression> = Vec::new();
        let mut i: usize = 0;
        while i < self.exprs.len()
            invariant
                i <= self.exprs.len(),
                exprs.len() == i,
            decreases self.exprs.len() - i,
        {
            exprs.push(self.exprs[i].clone());
            i = i + 1;
        }
        Parentheses { exprs, operators: self.operators.clone() }
    }
}

impl Expression {
    /// Evaluates the tree exactly; every failure is reported as an error.
    pub fn eval(&self) -> (r: Result<Value, EvaluationError>)
        ensures
            match r {
                Ok(v) => v.wf() && expr_value(*self) == Ok::<Rat, EvaluationError>(v@),
                Err(e) => expr_value(*self) == Err::<Rat, EvaluationError>(e),
            },
        decreases self, 0nat,
    {
        match self {
            Expression::Num(value) => Ok(Value::from_integer(*value)),
            Expression::Parentheses(parentheses) => parentheses.eval(),
        }
    }
}

impl Parentheses {
    /// One left-to-right pass for the tier `precedence`: each operator of that
    /// tier is applied to the value accumulated on its left, the others are kept.
    fn apply_ops(values: &mut Vec<Value>, ops: &mut Vec<Operator>, precedence: usize) -> (r: Result<(), EvaluationError>)
        requires
            old(values).len() == old(ops).len() + 1,
            all_wf(old(values)@),
        ensures
            match r {
                Ok(_) => {
                    &&& collapse(views(old(values)@), old(ops)@, precedence as nat, old(ops).len() as nat)
                        == Ok::<(Seq<Rat>, Seq<Operator>), EvaluationError>((views(final(values)@), final(ops)@))
                    &&& final(values).len() == final(ops).len() + 1
                    &&& all_wf(final(values)@)
                },
                Err(e) => collapse(views(old(values)@), old(ops)@, precedence as nat, old(ops).len() as nat)
                    == Err::<(Seq<Rat>, Seq<Operator>), EvaluationError>(e),
            },
    {
        let ghost vs = views(values@);
        let ghost os = ops@;
        let mut res_values: Vec<Value> = vec![values[0]];
        let mut res_ops: Vec<Operator> = Vec::new();
        let mut i: usize = 0;
        proof {
            assert(views(res_values@) =~= seq![vs[0]]);
            assert(res_ops@ =~= Seq::<Operator>::empty());
        }
        while i < ops.len()
            invariant
                values.len() == ops.len() + 1,
                vs == views(values@),
                os == ops@,
                all_wf(values@),
                i <= ops.len(),
                res_values.len() == res_ops.len() + 1,
                all_wf(res_values@),
                collapse(vs, os, precedence as nat, i as nat)
                    == Ok::<(Seq<Rat>, Seq<Operator>), EvaluationError>((views(res_values@), res_ops@)),
            decreases ops.len() - i,
        {
            let op = ops[i];
            let value = values[i + 1];
            let ghost before = views(res_values@);
            let ghost before_raw = res_values@;
            if op.precedence() == precedence {
                let last = res_values.pop().unwrap();
                assert(res_values@ == before_raw.drop_last());
                assert(views(res_values@) =~= before.drop_last());
                match op.apply(last, value) {
                    Ok(v) => {
                        res_values.push(v);
                        assert(views(res_values@) =~= before.drop_last().push(v@));
                    },
                    Err(e) => {
                        proof {
                            lemma_collapse_error_kept(vs, os, precedence as nat, (i + 1) as nat, os.len());
                        }
                        return Err(e);
                    },
                }
            } else {
                res_values.push(value);
                res_ops.push(op);
                assert(views(res_values@) =~= before.push(value@));
            }
            i = i + 1;
        }
        *values = res_values;
        *ops = res_ops;
        Ok(())
    }

    /// Evaluates every operand, then resolves `*` and `/` before `+` and `-`,
    /// each from left to right.
    pub fn eval(&self) -> (r: Result<Value, EvaluationError>)
        ensures
            match r {
                Ok(v) => v.wf() && group_value(*self) == Ok::<Rat, EvaluationError>(v@),
                Err(e) => group_value(*self) == Err::<Rat, EvaluationError>(e),
            },
        decreases self, 1nat,
    {
        proof {
            use_type_invariant(self);
        }
        let mut values: Vec<Value> = Vec::new();
        let mut i: usize = 0;
        proof {
            assert(views(values@) =~= seq![]);
        }
        while i < self.exprs.len()
            invariant
                i <= self.exprs.len(),
                values.len() == i,
                all_wf(values@),
                operand_values(*self, i as nat) == Ok::<Seq<Rat>, EvaluationError>(views(values@)),
            decreases self.exprs.len() - i,
        {
            match self.exprs[i].eval() {
                Ok(v) => {
                    let ghost before = views(values@);
                    values.push(v);
                    assert(views(values@) =~= before.push(v@));
                },
                Err(e) => {
                    proof {
                        lemma_operand_error_kept(*self, (i + 1) as nat, self.exprs.len() as nat);
                    }
                    return Err(e);
                },
            }
            i = i + 1;
        }
        let mut ops: Vec<Operator> = self.operators.clone();
        assert(ops@ == self.operators@);
        let first = Self::apply_ops(&mut values, &mut ops, 0);
        if let Err(e) = first {
            return Err(e);
        }
        let second = Self::apply_ops(&mut values, &mut ops, 1);
        if let Err(e) = second {
            return Err(e);
        }
        Ok(values[0])
    }
}

/// The shape of an expression.
pub closed spec fn model(e: Expression) -> Tree
    decreases e, 0nat,
{
    match e {
        Expression::Num(n) => Tree::Num(n),
        Expression::Parentheses(p) => group_model(p),
    }
}

/// The shapes of the first `i` operands of `p`.
pub closed spec fn operand_models(p: Parentheses, i: nat) -> Seq<Tree>
    decreases p, i,
{
    if i == 0 || i > p.exprs.len() {
        seq![]
    } else {
        operand_models(p, (i - 1) as nat).push(model(p.exprs[i - 1]))
    }
}

/// The shape of a group.
pub closed spec fn group_model(p: Parentheses) -> Tree
    decreases p, p.operands().len() + 1,
{
    Tree::Group(operand_models(p, p.exprs.len() as nat), p.operators@)
}

pub open spec fn models(es: Seq<Expression>) -> Seq<Tree> {
    es.map_values(|e: Expression| model(e))
}

proof fn lemma_operand_models(p: Parentheses, i: nat)
    requires
        i <= p.operands().len(),
    ensures
        operand_models(p, i) == models(p.operands().take(i as int)),
    decreases i,
{
    if i > 0 {
        lemma_operand_models(p, (i - 1) as nat);
        assert(models(p.operands().take(i as int)) =~= models(p.operands().take(i - 1)).push(
            model(p.operands()[i - 1]),
        ));
    }
}

/// A group's shape is made of its operands' shapes and its operators.
pub proof fn lemma_group_model(p: Parentheses)
    ensures
        group_model(p) == Tree::Group(models(p.operands()), p.ops()),
{
    lemma_operand_models(p, p.operands().len());
    assert(p.operands().take(p.operands().len() as int) =~= p.operands());
}

pub proof fn lemma_model_group(p: Parentheses)
    ensures
        model(Expression::Parentheses(p)) == group_model(p),
{
}

pub proof fn lemma_model_num(n: u64)
    ensures
        model(Expression::Num(n)) == Tree::Num(n),
{
}

/// The value of an expression, or the first error met.
pub closed spec fn expr_value(e: Expression) -> Result<Rat, EvaluationError>
    decreases e, 0nat,
{
    match e {
        Expression::Num(n) => Ok((n as int, 1int)),
        Expression::Parentheses(p) => group_value(p),
    }
}

/// The values of the first `i` operands of `p`, or the first error met.
pub closed spec fn operand_values(p: Parentheses, i: nat) -> Result<Seq<Rat>, EvaluationError>
    decreases p, i,
{
    if i == 0 || i > p.exprs.len() {
        Ok(seq![])
    } else {
        match operand_values(p, (i - 1) as nat) {
            Err(e) => Err(e),
            Ok(vs) => match expr_value(p.exprs[i - 1]) {
                Err(e) => Err(e),
                Ok(v) => Ok(vs.push(v)),
            },
        }
    }
}

/// An error in an operand is kept by every later operand.
proof fn lemma_operand_error_kept(p: Parentheses, i: nat, j: nat)
    requires
        i <= j <= p.operands().len(),
        operand_values(p, i) is Err,
    ensures
        operand_values(p, j) == operand_values(p, i),
    decreases j - i,
{
    if i < j {
        lemma_operand_error_kept(p, i, (j - 1) as nat);
    }
}

/// A number evaluates to itself.
pub proof fn lemma_value_num(n: u64)
    ensures
        expr_value(Expression::Num(n)) == Ok::<Rat, EvaluationError>((n as int, 1int)),
{
}

/// A quotient `x / y` whose divisor evaluates to zero fails with
/// `ZeroDivision`, whatever the dividend's value.
pub proof fn lemma_division_by_zero(p: Parentheses)
    requires
        p.operands().len() == 2,
        p.ops() == seq![Operator::Div],
        expr_value(p.operands()[0]) is Ok,
        expr_value(p.operands()[1]) matches Ok(d) && d.0 == 0,
    ensures
        group_value(p) == Err::<Rat, EvaluationError>(EvaluationError::ZeroDivision),
{
    reveal_with_fuel(operand_values, 3);
    let vs = operand_values(p, 2).unwrap();
    assert(vs.len() == 2);
    reveal_with_fuel(collapse, 2);
}

/// The value of a group: its operands from left to right, then both passes.
pub closed spec fn group_value(p: Parentheses) -> Result<Rat, EvaluationError>
    decreases p, p.operands().len() + 1,
{
    match operand_values(p, p.exprs.len() as nat) {
        Err(e) => Err(e),
        Ok(vs) => resolve(vs, p.operators@),
    }
}

} // verus!
