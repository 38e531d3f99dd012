use vstd::prelude::*;
use crate::busses::{
    and_bits, default_bits, lemma_bit_ops_commute, not_bits, or_bits, xor_bits, BitBus, BitBusValue, BusView,
};
use vstd::string::StrSliceExecFns;

verus! {

/// An expression as mathematics.
pub enum ExprView {
    BusRef(Seq<char>),
    Const(Seq<bool>),
    Not(Box<ExprView>),
    And(Box<ExprView>, Box<ExprView>),
    Or(Box<ExprView>, Box<ExprView>),
    Xor(Box<ExprView>, Box<ExprView>),
    Nand(Box<ExprView>, Box<ExprView>),
    Nor(Box<ExprView>, Box<ExprView>),
    Xnor(Box<ExprView>, Box<ExprView>),
}

/// The views of a sequence of buses.
pub open spec fn bus_views(s: Seq<BitBus>) -> Seq<BusView> {
    s.map_values(|b: BitBus| b@)
}

/// The position of the first bus named `n`, if any.
pub open spec fn find_bus(env: Seq<BusView>, n: Seq<char>) -> Option<int>
    decreases env.len(),
{
    if env.len() == 0 {
        None
    } else if env[0].name == Some(n) {
        Some(0)
    } else {
        match find_bus(env.drop_first(), n) {
            Some(i) => Some(i + 1),
            None => None,
        }
    }
}

/// `find_bus` gives the first bus with that name, and none only when no
/// bus has it.
pub proof fn lemma_find_bus(env: Seq<BusView>, n: Seq<char>)
    ensures
        match find_bus(env, n) {
            Some(i) => 0 <= i < env.len() && env[i].name == Some(n) && forall|j: int|
                0 <= j < i ==> env[j].name != Some(n),
            None => forall|j: int| 0 <= j < env.len() ==> env[j].name != Some(n),
        },
    decreases env.len(),
{
    if env.len() > 0 {
        lemma_find_bus(env.drop_first(), n);
        assert forall|j: int| 1 <= j < env.len() implies env[j] == env.drop_first()[j - 1] by {}
    }
}

/// The value of the bus named `n`, or the default value when there is none.
pub open spec fn lookup_value(env: Seq<BusView>, n: Seq<char>) -> Seq<bool> {
    match find_bus(env, n) {
        Some(i) => env[i].value,
        None => default_bits(),
    }
}

/// The value of an expression over the buses `env`.
pub open spec fn eval(e: ExprView, env: Seq<BusView>) -> Seq<bool>
    decreases e,
{
    match e {
        ExprView::BusRef(n) => lookup_value(env, n),
        ExprView::Const(v) => v,
        ExprView::Not(x) => not_bits(eval(*x, env)),
        ExprView::And(l, r) => and_bits(eval(*l, env), eval(*r, env)),
        ExprView::Or(l, r) => or_bits(eval(*l, env), eval(*r, env)),
        ExprView::Xor(l, r) => xor_bits(eval(*l, env), eval(*r, env)),
        ExprView::Nand(l, r) => not_bits(and_bits(eval(*l, env), eval(*r, env))),
        ExprView::Nor(l, r) => not_bits(or_bits(eval(*l, env), eval(*r, env))),
        ExprView::Xnor(l, r) => not_bits(xor_bits(eval(*l, env), eval(*r, env))),
    }
}

/// Whether the expression refers to the bus named `n`.
pub open spec fn reads(e: ExprView, n: Seq<char>) -> bool
    decreases e,
{
    match e {
        ExprView::BusRef(m) => m == n,
        ExprView::Const(_) => false,
        ExprView::Not(x) => reads(*x, n),
        ExprView::And(l, r) => reads(*l, n) || reads(*r, n),
        ExprView::Or(l, r) => reads(*l, n) || reads(*r, n),
        ExprView::Xor(l, r) => reads(*l, n) || reads(*r, n),
        ExprView::Nand(l, r) => reads(*l, n) || reads(*r, n),
        ExprView::Nor(l, r) => reads(*l, n) || reads(*r, n),
        ExprView::Xnor(l, r) => reads(*l, n) || reads(*r, n),
    }
}

/// An expression tree over bus values.
#[derive(Debug)]
pub enum Expr {
    BusRef(BusRef),
    Const(Const),
    Not(Not),
    And(And),
    Or(Or),
    Xor(Xor),
    Nand(Nand),
    Nor(Nor),
    Xnor(Xnor),
}

/// A reference to the current value of a bus.
#[derive(Debug)]
pub struct BusRef {
    pub bus_id: String,
}

/// A constant value.
#[derive(Debug)]
pub struct Const {
    pub value: BitBusValue,
}

/// An operation on one operand.
#[derive(Debug)]
pub struct UnaryOperation {
    pub expr: Box<Expr>,
}

/// An operation on two operands.
#[derive(Debug)]
pub struct BinaryOperation {
    pub l_expr: Box<Expr>,
    pub r_expr: Box<Expr>,
}

/// Bitwise complement of an operand.
#[derive(Debug)]
pub struct Not {
    pub expr: Box<Expr>,
}

#[derive(Debug)]
pub struct And {
    pub l_expr: Box<Expr>,
    pub r_expr: Box<Expr>,
}

#[derive(Debug)]
pub struct Or {
    pub l_expr: Box<Expr>,
    pub r_expr: Box<Expr>,
}

#[derive(Debug)]
pub struct Xor {
    pub l_expr: Box<Expr>,
    pub r_expr: Box<Expr>,
}

/// The complement of AND.
#[derive(Debug)]
pub struct Nand {
    pub l_expr: Box<Expr>,
    pub r_expr: Box<Expr>,
}

/// The complement of OR.
#[derive(Debug)]
pub struct Nor {
    pub l_expr: Box<Expr>,
    pub r_expr: Box<Expr>,
}

/// The complement of XOR.
#[derive(Debug)]
pub struct Xnor {
    pub l_expr: Box<Expr>,
    pub r_expr: Box<Expr>,
}

/// The mathematical form of an expression tree.
pub open spec fn expr_view(e: Expr) -> ExprView
    decreases e,
{
    match e {
        Expr::BusRef(b) => ExprView::BusRef(b.bus_id@),
        Expr::Const(c) => ExprView::Const(c.value@),
        Expr::Not(x) => ExprView::Not(Box::new(expr_view(*x.expr))),
        Expr::And(x) => ExprView::And(
            Box::new(expr_view(*x.l_expr)),
            Box::new(expr_view(*x.r_expr)),
        ),
        Expr::Or(x) => ExprView::Or(
            Box::new(expr_view(*x.l_expr)),
            Box::new(expr_view(*x.r_expr)),
        ),
        Expr::Xor(x) => ExprView::Xor(
            Box::new(expr_view(*x.l_expr)),
            Box::new(expr_view(*x.r_expr)),
        ),
        Expr::Nand(x) => ExprView::Nand(
            Box::new(expr_view(*x.l_expr)),
            Box::new(expr_view(*x.r_expr)),
        ),
        Expr::Nor(x) => ExprView::Nor(
            Box::new(expr_view(*x.l_expr)),
            Box::new(expr_view(*x.r_expr)),
        ),
        Expr::Xnor(x) => ExprView::Xnor(
            Box::new(expr_view(*x.l_expr)),
            Box::new(expr_view(*x.r_expr)),
        ),
    }
}

impl View for Expr {
    type V = ExprView;

    open spec fn view(&self) -> ExprView {
        expr_view(*self)
    }
}

/// The position of the first bus named `name`.
pub fn find_bus_index(busses: &Vec<BitBus>, name: &str) -> (r: Option<usize>)
    ensures
        r is Some <==> find_bus(bus_views(busses@), name@) is Some,
        r matches Some(i) ==> find_bus(bus_views(busses@), name@) == Some(i as int),
{
    let ghost env = bus_views(busses@);
    let key = name.to_owned();
    let mut i: usize = 0;
    assert(env.subrange(0, env.len() as int) =~= env);
    while i < busses.len()
        invariant
            env == bus_views(busses@),
            key@ == name@,
            i <= busses@.len(),
            find_bus(env, name@) == (match find_bus(env.subrange(i as int, env.len() as int), name@) {
                Some(k) => Some(k + i),
                None => None,
            }),
        decreases busses@.len() - i,
    {
        let ghost rest = env.subrange(i as int, env.len() as int);
        assert(rest.drop_first() =~= env.subrange(i + 1, env.len() as int));
        let hit = match &busses[i].id {
            Some(s) => *s == key,
            None => false,
        };
        if hit {
            return Some(i);
        }
        i = i + 1;
    }
    assert(env.subrange(i as int, env.len() as int).len() == 0);
    None
}

impl Expr {
    /// The value of the expression over the current bus values; a reference
    /// to a bus that does not exist reads as the default value.
    pub fn evaluate(&self, busses: &Vec<BitBus>) -> (r: BitBusValue)
        ensures
            r@ == eval(self@, bus_views(busses@)),
        decreases self,
    {
        match self {
            Expr::BusRef(b) => match find_bus_index(busses, b.bus_id.as_str()) {
                Some(i) => {
                    proof {
                        lemma_find_bus(bus_views(busses@), b.bus_id@);
                        assert(bus_views(busses@)[i as int] == busses@[i as int]@);
                    }
                    busses[i].value.clone_bits()
                },
                None => BitBusValue::get_default(),
            },
            Expr::Const(c) => c.value.clone_bits(),
            Expr::Not(x) => x.expr.evaluate(busses).invert(),
            Expr::And(x) => x.l_expr.evaluate(busses).and(&x.r_expr.evaluate(busses)),
            Expr::Or(x) => x.l_expr.evaluate(busses).or(&x.r_expr.evaluate(busses)),
            Expr::Xor(x) => x.l_expr.evaluate(busses).xor(&x.r_expr.evaluate(busses)),
            Expr::Nand(x) => x.l_expr.evaluate(busses).and(&x.r_expr.evaluate(busses)).invert(),
            Expr::Nor(x) => x.l_expr.evaluate(busses).or(&x.r_expr.evaluate(busses)).invert(),
            Expr::Xnor(x) => x.l_expr.evaluate(busses).xor(&x.r_expr.evaluate(busses)).invert(),
        }
    }
}

/// Something that reduces to a bit vector over the current bus values.
pub trait Evaluator {
    /// The expression that this node stands for.
    spec fn tree(&self) -> ExprView;

    fn evaluate(&self, busses: &Vec<BitBus>) -> (r: BitBusValue)
        ensures
            r@ == eval(self.tree(), bus_views(busses@)),
    ;
}

impl Evaluator for Expr {
    open spec fn tree(&self) -> ExprView {
        self@
    }

    fn evaluate(&self, busses: &Vec<BitBus>) -> (r: BitBusValue) {
        Expr::evaluate(self, busses)
    }
}

impl BusRef {
    pub fn new(bus_id: String) -> (r: BusRef)
        ensures
            r.bus_id@ == bus_id@,
    {
        BusRef { bus_id }
    }
}

impl Evaluator for BusRef {
    open spec fn tree(&self) -> ExprView {
        ExprView::BusRef(self.bus_id@)
    }

    fn evaluate(&self, busses: &Vec<BitBus>) -> (r: BitBusValue) {
        match find_bus_index(busses, self.bus_id.as_str()) {
            Some(i) => {
                proof {
                    lemma_find_bus(bus_views(busses@), self.bus_id@);
                    assert(bus_views(busses@)[i as int] == busses@[i as int]@);
                }
                busses[i].value.clone_bits()
            },
            None => BitBusValue::get_default(),
        }
    }
}

impl Const {
    pub fn new(value: BitBusValue) -> (r: Const)
        ensures
            r.value@ == value@,
    {
        Const { value }
    }
}

impl Evaluator for Const {
    open spec fn tree(&self) -> ExprView {
        ExprView::Const(self.value@)
    }

    fn evaluate(&self, busses: &Vec<BitBus>) -> (r: BitBusValue) {
        self.value.clone_bits()
    }
}

impl UnaryOperation {
    pub fn new(expr: Box<Expr>) -> (r: UnaryOperation)
        ensures
            r.expr == expr,
    {
        UnaryOperation { expr }
    }
}

impl BinaryOperation {
    pub fn new(l_expr: Box<Expr>, r_expr: Box<Expr>) -> (r: BinaryOperation)
        ensures
            r.l_expr == l_expr,
            r.r_expr == r_expr,
    {
        BinaryOperation { l_expr, r_expr }
    }
}

impl Not {
    pub fn new(expr: Box<Expr>) -> (r: Not)
        ensures
            r.expr == expr,
    {
        Not { expr }
    }
}

impl Evaluator for Not {
    open spec fn tree(&self) -> ExprView {
        ExprView::Not(Box::new(self.expr@))
    }

    fn evaluate(&self, busses: &Vec<BitBus>) -> (r: BitBusValue) {
        self.expr.evaluate(busses).invert()
    }
}

impl And {
    pub fn new(l_expr: Box<Expr>, r_expr: Box<Expr>) -> (r: And)
        ensures
            r.l_expr == l_expr,
            r.r_expr == r_expr,
    {
        And { l_expr, r_expr }
    }
}

impl Evaluator for And {
    open spec fn tree(&self) -> ExprView {
        ExprView::And(Box::new(self.l_expr@), Box::new(self.r_expr@))
    }

    /// The AND of the two operands.
    fn evaluate(&self, busses: &Vec<BitBus>) -> (r: BitBusValue) {
        self.l_expr.evaluate(busses).and(&self.r_expr.evaluate(busses))
    }
}

impl Or {
    pub fn new(l_expr: Box<Expr>, r_expr: Box<Expr>) -> (r: Or)
        ensures
            r.l_expr == l_expr,
            r.r_expr == r_expr,
    {
        Or { l_expr, r_expr }
    }
}

impl Evaluator for Or {
    open spec fn tree(&self) -> ExprView {
        ExprView::Or(Box::new(self.l_expr@), Box::new(self.r_expr@))
    }

    /// The OR of the two operands.
    fn evaluate(&self, busses: &Vec<BitBus>) -> (r: BitBusValue) {
        self.l_expr.evaluate(busses).or(&self.r_expr.evaluate(busses))
    }
}

impl Xor {
    pub fn new(l_expr: Box<Expr>, r_expr: Box<Expr>) -> (r: Xor)
        ensures
            r.l_expr == l_expr,
            r.r_expr == r_expr,
    {
        Xor { l_expr, r_expr }
    }
}

impl Evaluator for Xor {
    open spec fn tree(&self) -> ExprView {
        ExprView::Xor(Box::new(self.l_expr@), Box::new(self.r_expr@))
    }

    /// The XOR of the two operands.
    fn evaluate(&self, busses: &Vec<BitBus>) -> (r: BitBusValue) {
        self.l_expr.evaluate(busses).xor(&self.r_expr.evaluate(busses))
    }
}

impl Nand {
    pub fn new(l_expr: Box<Expr>, r_expr: Box<Expr>) -> (r: Nand)
        ensures
            r.l_expr == l_expr,
            r.r_expr == r_expr,
    {
        Nand { l_expr, r_expr }
    }
}

impl Evaluator for Nand {
    open spec fn tree(&self) -> ExprView {
        ExprView::Nand(Box::new(self.l_expr@), Box::new(self.r_expr@))
    }

    /// The complement of the AND of the two operands.
    fn evaluate(&self, busses: &Vec<BitBus>) -> (r: BitBusValue) {
        self.l_expr.evaluate(busses).and(&self.r_expr.evaluate(busses)).invert()
    }
}

impl Nor {
    pub fn new(l_expr: Box<Expr>, r_expr: Box<Expr>) -> (r: Nor)
        ensures
            r.l_expr == l_expr,
            r.r_expr == r_expr,
    {
        Nor { l_expr, r_expr }
    }
}

impl Evaluator for Nor {
    open spec fn tree(&self) -> ExprView {
        ExprView::Nor(Box::new(self.l_expr@), Box::new(self.r_expr@))
    }

    /// The complement of the OR of the two operands.
    fn evaluate(&self, busses: &Vec<BitBus>) -> (r: BitBusValue) {
        self.l_expr.evaluate(busses).or(&self.r_expr.evaluate(busses)).invert()
    }
}

impl Xnor {
    pub fn new(l_expr: Box<Expr>, r_expr: Box<Expr>) -> (r: Xnor)
        ensures
            r.l_expr == l_expr,
            r.r_expr == r_expr,
    {
        Xnor { l_expr, r_expr }
    }
}

impl Evaluator for Xnor {
    open spec fn tree(&self) -> ExprView {
        ExprView::Xnor(Box::new(self.l_expr@), Box::new(self.r_expr@))
    }

    /// The complement of the XOR of the two operands.
    fn evaluate(&self, busses: &Vec<BitBus>) -> (r: BitBusValue) {
        self.l_expr.evaluate(busses).xor(&self.r_expr.evaluate(busses)).invert()
    }
}

/// NAND, NOR and XNOR are the complements of AND, OR and XOR, and AND, OR
/// and XOR do not depend on the order of their operands.
pub proof fn lemma_gate_identities(l: ExprView, r: ExprView, env: Seq<BusView>)
    ensures
        eval(ExprView::Nand(Box::new(l), Box::new(r)), env) == not_bits(
            eval(ExprView::And(Box::new(l), Box::new(r)), env),
        ),
        eval(ExprView::Nor(Box::new(l), Box::new(r)), env) == not_bits(
            eval(ExprView::Or(Box::new(l), Box::new(r)), env),
        ),
        eval(ExprView::Xnor(Box::new(l), Box::new(r)), env) == not_bits(
            eval(ExprView::Xor(Box::new(l), Box::new(r)), env),
        ),
        eval(ExprView::And(Box::new(l), Box::new(r)), env) == eval(
            ExprView::And(Box::new(r), Box::new(l)),
            env,
        ),
        eval(ExprView::Or(Box::new(l), Box::new(r)), env) == eval(
            ExprView::Or(Box::new(r), Box::new(l)),
            env,
        ),
        eval(ExprView::Xor(Box::new(l), Box::new(r)), env) == eval(
            ExprView::Xor(Box::new(r), Box::new(l)),
            env,
        ),
{
    lemma_bit_ops_commute(eval(l, env), eval(r, env));
}

} // verus!
