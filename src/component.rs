use vstd::prelude::*;
use crate::busses::{text_of_bits, text_write, BitBus, BusView, ErrorKind, SimulationError};
use crate::expr_nodes::{bus_views, eval, reads, find_bus, find_bus_index, lemma_find_bus, Expr, ExprView};
use std::collections::VecDeque;

verus! {

/// How many times, in one stabilization, buses may be put back on the work
/// queue after the initial seeding before the circuit is declared not to
/// converge.
pub const REQUEUE_LIMIT: usize = 1000000;

/// The driving expressions as mathematics: bus name and expression.
pub open spec fn rule_views(a: Seq<(String, Expr)>) -> Seq<(Seq<char>, ExprView)> {
    a.map_values(|p: (String, Expr)| (p.0@, p.1@))
}

/// The position of the first driving expression for the bus named `n`.
pub open spec fn find_rule(rules: Seq<(Seq<char>, ExprView)>, n: Seq<char>) -> Option<int>
    decreases rules.len(),
{
    if rules.len() == 0 {
        None
    } else if rules[0].0 == n {
        Some(0)
    } else {
        match find_rule(rules.drop_first(), n) {
            Some(i) => Some(i + 1),
            None => None,
        }
    }
}

/// `find_rule` gives the first expression installed under that name.
pub proof fn lemma_find_rule(rules: Seq<(Seq<char>, ExprView)>, n: Seq<char>)
    ensures
        match find_rule(rules, n) {
            Some(i) => 0 <= i < rules.len() && rules[i].0 == n && forall|j: int|
                0 <= j < i ==> rules[j].0 != n,
            None => forall|j: int| 0 <= j < rules.len() ==> rules[j].0 != n,
        },
    decreases rules.len(),
{
    if rules.len() > 0 {
        lemma_find_rule(rules.drop_first(), n);
        assert forall|j: int| 1 <= j < rules.len() implies rules[j] == rules.drop_first()[j
            - 1] by {}
    }
}

/// The expression driving the bus at position `i`, if it has one.
pub open spec fn driver(
    rules: Seq<(Seq<char>, ExprView)>,
    env: Seq<BusView>,
    i: int,
) -> Option<ExprView> {
    match env[i].name {
        Some(n) => match find_rule(rules, n) {
            Some(k) => Some(rules[k].1),
            None => None,
        },
        None => None,
    }
}

/// Appends, in order, each influenced position below `n` that the queue
/// does not already hold.
pub open spec fn enqueue_all(q: Seq<usize>, infl: Seq<usize>, n: nat) -> Seq<usize>
    decreases infl.len(),
{
    if infl.len() == 0 {
        q
    } else {
        let q1 = enqueue_all(q, infl.drop_last(), n);
        let x = infl.last();
        if (x as nat) < n && !q1.contains(x) {
            q1.push(x)
        } else {
            q1
        }
    }
}

pub proof fn lemma_enqueue_all_grows(q: Seq<usize>, infl: Seq<usize>, n: nat)
    ensures
        enqueue_all(q, infl, n).len() >= q.len(),
    decreases infl.len(),
{
    if infl.len() > 0 {
        lemma_enqueue_all_grows(q, infl.drop_last(), n);
    }
}

/// One turn of the work loop: take the front position; if that bus is
/// driven, store its expression's value, and when the value changed queue
/// the buses it influences.
pub open spec fn step(
    rules: Seq<(Seq<char>, ExprView)>,
    env: Seq<BusView>,
    q: Seq<usize>,
) -> (Seq<BusView>, Seq<usize>) {
    let i = q[0] as int;
    let rest = q.drop_first();
    if i >= env.len() {
        (env, rest)
    } else {
        match driver(rules, env, i) {
            None => (env, rest),
            Some(e) => {
                let v = eval(e, env);
                let env2 = env.update(i, BusView { value: v, ..env[i] });
                if v != env[i].value {
                    (env2, enqueue_all(rest, env[i].influences, env.len()))
                } else {
                    (env2, rest)
                }
            },
        }
    }
}

/// The work loop run until the queue is empty (`true`), or until putting
/// buses back on the queue would exceed `budget` (`false`).
pub open spec fn run(
    rules: Seq<(Seq<char>, ExprView)>,
    env: Seq<BusView>,
    q: Seq<usize>,
    budget: nat,
) -> (Seq<BusView>, bool)
    decreases budget, q.len(),
{
    if q.len() == 0 {
        (env, true)
    } else {
        let (env2, q2) = step(rules, env, q);
        if q2.len() < q.len() {
            run(rules, env2, q2, budget)
        } else if q2.len() - q.len() + 1 > budget {
            (env2, false)
        } else {
            run(rules, env2, q2, (budget - (q2.len() - q.len() + 1)) as nat)
        }
    }
}

/// Every position, in order.
pub open spec fn all_positions(n: nat) -> Seq<usize> {
    Seq::new(n, |i: int| i as usize)
}

/// Full stabilization: the work loop seeded with every bus in order.
pub open spec fn stabilized(rules: Seq<(Seq<char>, ExprView)>, env: Seq<BusView>) -> (
    Seq<BusView>,
    bool,
) {
    run(rules, env, all_positions(env.len()), REQUEUE_LIMIT as nat)
}

/// Every bus is named, and no two share a name.
pub open spec fn names_unique(env: Seq<BusView>) -> bool {
    &&& forall|i: int| 0 <= i < env.len() ==> env[i].name is Some
    &&& forall|i: int, j: int|
        0 <= i < env.len() && 0 <= j < env.len() && i != j ==> env[i].name != env[j].name
}

/// The buses after writing the text `text` into the bus named `n`.
pub open spec fn write_bus(env: Seq<BusView>, n: Seq<char>, text: Seq<char>) -> Result<
    Seq<BusView>,
    ErrorKind,
> {
    match find_bus(env, n) {
        None => Err(ErrorKind::BusNotFound),
        Some(k) => match text_write(env[k].value.len(), text) {
            Ok(b) => Ok(env.update(k, BusView { value: b, ..env[k] })),
            Err(e) => Err(e),
        },
    }
}

/// The buses after a batch of writes made in order, and the error that
/// stopped the batch, if one did; the writes before it stay made.
pub open spec fn apply_writes(env: Seq<BusView>, ws: Seq<(Seq<char>, Seq<char>)>) -> (
    Seq<BusView>,
    Option<ErrorKind>,
)
    decreases ws.len(),
{
    if ws.len() == 0 {
        (env, None)
    } else {
        let (e1, err) = apply_writes(env, ws.drop_last());
        if err is Some {
            (e1, err)
        } else {
            match write_bus(e1, ws.last().0, ws.last().1) {
                Ok(e2) => (e2, None),
                Err(k) => (e1, Some(k)),
            }
        }
    }
}

/// The buses after adding an influence edge, or the error.
pub open spec fn influence_added(env: Seq<BusView>, from: Seq<char>, to: Seq<char>) -> Result<
    Seq<BusView>,
    ErrorKind,
> {
    match find_bus(env, to) {
        None => Err(ErrorKind::BusNotFound),
        Some(t) => match find_bus(env, from) {
            None => Err(ErrorKind::BusNotFound),
            Some(f) => if env[f].influences.contains(t as usize) {
                Ok(env)
            } else {
                Ok(
                    env.update(
                        f,
                        BusView { influences: env[f].influences.push(t as usize), ..env[f] },
                    ),
                )
            },
        },
    }
}


/// Once a write in a batch fails, the writes after it change nothing.
pub proof fn lemma_apply_writes_stops(env: Seq<BusView>, ws: Seq<(Seq<char>, Seq<char>)>, i: int)
    requires
        0 <= i < ws.len(),
        apply_writes(env, ws.subrange(0, i)).1 is None,
        write_bus(apply_writes(env, ws.subrange(0, i)).0, ws[i].0, ws[i].1) is Err,
    ensures
        apply_writes(env, ws) == (
            apply_writes(env, ws.subrange(0, i)).0,
            Some(write_bus(apply_writes(env, ws.subrange(0, i)).0, ws[i].0, ws[i].1)->Err_0),
        ),
    decreases ws.len(),
{
    if i == ws.len() - 1 {
        assert(ws.drop_last() =~= ws.subrange(0, i));
    } else {
        assert(ws.drop_last().subrange(0, i) =~= ws.subrange(0, i));
        lemma_apply_writes_stops(env, ws.drop_last(), i);
    }
}

/// Every influence edge that evaluation needs is recorded: when the
/// expression driving bus `j` reads bus `i`, bus `i` influences bus `j`.
pub open spec fn influences_cover_reads(
    rules: Seq<(Seq<char>, ExprView)>,
    env: Seq<BusView>,
) -> bool {
    forall|i: int, j: int|
        0 <= i < env.len() && 0 <= j < env.len() && #[trigger] driver(rules, env, j) is Some
            && env[i].name is Some && reads(driver(rules, env, j)->Some_0, env[i].name->Some_0)
            ==> #[trigger] env[i].influences.contains(j as usize)
}

/// Every driven bus holds the value of its expression.
pub open spec fn settled(rules: Seq<(Seq<char>, ExprView)>, env: Seq<BusView>) -> bool {
    forall|j: int|
        0 <= j < env.len() && #[trigger] driver(rules, env, j) is Some ==> eval(
            driver(rules, env, j)->Some_0,
            env,
        ) == env[j].value
}

/// Every driven bus that is not waiting on the queue holds the value of its
/// expression.
pub open spec fn settled_off_queue(
    rules: Seq<(Seq<char>, ExprView)>,
    env: Seq<BusView>,
    q: Seq<usize>,
) -> bool {
    forall|j: int|
        0 <= j < env.len() && #[trigger] driver(rules, env, j) is Some && !q.contains(j as usize)
            ==> eval(driver(rules, env, j)->Some_0, env) == env[j].value
}

/// Same buses, names and influences; only values may differ.
pub open spec fn same_shape(a: Seq<BusView>, b: Seq<BusView>) -> bool {
    &&& a.len() == b.len()
    &&& forall|k: int|
        0 <= k < a.len() ==> #[trigger] a[k].name == b[k].name && a[k].influences
            == b[k].influences
}

proof fn lemma_find_bus_same_names(a: Seq<BusView>, b: Seq<BusView>, n: Seq<char>)
    requires
        same_shape(a, b),
    ensures
        find_bus(a, n) == find_bus(b, n),
    decreases a.len(),
{
    if a.len() > 0 {
        assert(a[0].name == b[0].name);
        assert forall|k: int| 0 <= k < a.drop_first().len() implies #[trigger] a.drop_first()[k].name
            == b.drop_first()[k].name && a.drop_first()[k].influences
            == b.drop_first()[k].influences by {
            assert(a[k + 1].name == b[k + 1].name);
        }
        lemma_find_bus_same_names(a.drop_first(), b.drop_first(), n);
    }
}

/// An expression that does not read bus `i` has the same value whatever
/// bus `i` holds.
proof fn lemma_eval_frame(e: ExprView, a: Seq<BusView>, b: Seq<BusView>, i: int)
    requires
        same_shape(a, b),
        0 <= i < a.len(),
        a[i].name is Some,
        !reads(e, a[i].name->Some_0),
        forall|k: int| 0 <= k < a.len() && k != i ==> #[trigger] a[k].value == b[k].value,
    ensures
        eval(e, a) == eval(e, b),
    decreases e,
{
    match e {
        ExprView::BusRef(m) => {
            lemma_find_bus_same_names(a, b, m);
            lemma_find_bus(a, m);
            if let Some(k) = find_bus(a, m) {
                assert(k != i);
            }
        },
        ExprView::Const(_) => {},
        ExprView::Not(x) => {
            lemma_eval_frame(*x, a, b, i);
        },
        ExprView::And(l, r) => {
            lemma_eval_frame(*l, a, b, i);
            lemma_eval_frame(*r, a, b, i);
        },
        ExprView::Or(l, r) => {
            lemma_eval_frame(*l, a, b, i);
            lemma_eval_frame(*r, a, b, i);
        },
        ExprView::Xor(l, r) => {
            lemma_eval_frame(*l, a, b, i);
            lemma_eval_frame(*r, a, b, i);
        },
        ExprView::Nand(l, r) => {
            lemma_eval_frame(*l, a, b, i);
            lemma_eval_frame(*r, a, b, i);
        },
        ExprView::Nor(l, r) => {
            lemma_eval_frame(*l, a, b, i);
            lemma_eval_frame(*r, a, b, i);
        },
        ExprView::Xnor(l, r) => {
            lemma_eval_frame(*l, a, b, i);
            lemma_eval_frame(*r, a, b, i);
        },
    }
}

proof fn lemma_enqueue_all_contains(q: Seq<usize>, infl: Seq<usize>, n: nat, x: usize)
    ensures
        enqueue_all(q, infl, n).contains(x) <==> (q.contains(x) || (infl.contains(x) && (x as nat)
            < n)),
    decreases infl.len(),
{
    if infl.len() > 0 {
        let q1 = enqueue_all(q, infl.drop_last(), n);
        lemma_enqueue_all_contains(q, infl.drop_last(), n, x);
        if infl.contains(x) && !infl.drop_last().contains(x) {
            let w = choose|w: int| 0 <= w < infl.len() && infl[w] == x;
            if w < infl.len() - 1 {
                assert(infl.drop_last()[w] == x);
            }
        }
        if infl.drop_last().contains(x) {
            let w = choose|w: int| 0 <= w < infl.drop_last().len() && infl.drop_last()[w] == x;
            assert(infl[w] == x);
        }
        if (infl.last() as nat) < n && !q1.contains(infl.last()) {
            assert(q1.push(infl.last()).last() == infl.last());
            if q1.contains(x) {
                let w = choose|w: int| 0 <= w < q1.len() && q1[w] == x;
                assert(q1.push(infl.last())[w] == x);
            }
            if q1.push(infl.last()).contains(x) && x != infl.last() {
                let w = choose|w: int| 0 <= w < q1.len() + 1 && q1.push(infl.last())[w] == x;
                assert(q1[w] == x);
            }
        }
        assert(infl[infl.len() - 1] == infl.last());
    }
}

proof fn lemma_step_shape(rules: Seq<(Seq<char>, ExprView)>, env: Seq<BusView>, q: Seq<usize>)
    requires
        q.len() > 0,
    ensures
        same_shape(env, step(rules, env, q).0),
        forall|k: int|
            0 <= k < env.len() ==> #[trigger] driver(rules, step(rules, env, q).0, k) == driver(
                rules,
                env,
                k,
            ),
{
    let env2 = step(rules, env, q).0;
    assert forall|k: int| 0 <= k < env.len() implies #[trigger] env[k].name == env2[k].name
        && env[k].influences == env2[k].influences by {}
}

/// Running the work loop from a state where every driven bus off the queue
/// is settled ends, when it ends within budget, in a settled state; names
/// and influences never change.
proof fn lemma_run_settles(
    rules: Seq<(Seq<char>, ExprView)>,
    env: Seq<BusView>,
    q: Seq<usize>,
    budget: nat,
)
    requires
        env.len() <= usize::MAX,
        influences_cover_reads(rules, env),
        settled_off_queue(rules, env, q),
    ensures
        same_shape(env, run(rules, env, q, budget).0),
        run(rules, env, q, budget).1 ==> settled(rules, run(rules, env, q, budget).0),
    decreases budget, q.len(),
{
    if q.len() == 0 {
        assert forall|k: int| 0 <= k < env.len() implies #[trigger] env[k].name == env[k].name
            && env[k].influences == env[k].influences by {}
        assert forall|j: int| 0 <= j < env.len() && #[trigger] driver(rules, env, j) is Some implies eval(
            driver(rules, env, j)->Some_0,
            env,
        ) == env[j].value by {
            assert(!q.contains(j as usize));
        }
    } else {
        let (env2, q2) = step(rules, env, q);
        let i = q[0] as int;
        let rest = q.drop_first();
        lemma_step_shape(rules, env, q);
        assert forall|i2: int, j: int|
            0 <= i2 < env2.len() && 0 <= j < env2.len() && #[trigger] driver(rules, env2, j) is Some
                && env2[i2].name is Some && reads(
                driver(rules, env2, j)->Some_0,
                env2[i2].name->Some_0,
            ) implies #[trigger] env2[i2].influences.contains(j as usize) by {
            assert(env2[i2].name == env[i2].name && env2[i2].influences == env[i2].influences);
            assert(driver(rules, env, j) is Some);
        }
        assert forall|j: int|
            0 <= j < env2.len() && #[trigger] driver(rules, env2, j) is Some && !q2.contains(
                j as usize,
            ) implies eval(driver(rules, env2, j)->Some_0, env2) == env2[j].value by {
            let ej = driver(rules, env, j)->Some_0;
            assert(driver(rules, env, j) is Some);
            if j != i {
                if q.contains(j as usize) {
                    let w = choose|w: int| 0 <= w < q.len() && q[w] == j as usize;
                    assert(w != 0);
                    assert(rest[w - 1] == j as usize);
                }
            }
            if i < env.len() && driver(rules, env, i) is Some {
                let e = driver(rules, env, i)->Some_0;
                let v = eval(e, env);
                if v != env[i].value {
                    lemma_enqueue_all_contains(rest, env[i].influences, env.len(), j as usize);
                    assert(!env[i].influences.contains(j as usize));
                    assert(env[i].name is Some);
                    assert(!reads(ej, env[i].name->Some_0));
                    lemma_eval_frame(ej, env, env2, i);
                } else {
                    assert(env2 =~= env);
                }
            } else {
                assert(env2 == env);
                assert(q2 == rest);
            }
        }
        if q2.len() < q.len() {
            lemma_run_settles(rules, env2, q2, budget);
        } else if q2.len() - q.len() + 1 > budget {
        } else {
            lemma_run_settles(rules, env2, q2, (budget - (q2.len() - q.len() + 1)) as nat);
        }
        let fin = run(rules, env, q, budget).0;
        assert forall|k: int| 0 <= k < env.len() implies #[trigger] env[k].name == fin[k].name
            && env[k].influences == fin[k].influences by {
            assert(env2[k].name == env[k].name);
            assert(env2[k].influences == env[k].influences);
        }
    }
}

/// From a settled state the work loop changes nothing and ends within any
/// budget.
proof fn lemma_run_from_settled(
    rules: Seq<(Seq<char>, ExprView)>,
    env: Seq<BusView>,
    q: Seq<usize>,
    budget: nat,
)
    requires
        settled(rules, env),
    ensures
        run(rules, env, q, budget) == (env, true),
    decreases q.len(),
{
    if q.len() > 0 {
        let i = q[0] as int;
        if i < env.len() && driver(rules, env, i) is Some {
            assert(env.update(i, BusView { value: env[i].value, ..env[i] }) =~= env);
        }
        lemma_run_from_settled(rules, env, q.drop_first(), budget);
    }
}

/// Stabilizing twice in a row gives the same buses as stabilizing once,
/// and the second pass succeeds, provided the influence edges cover what
/// the expressions read.
pub proof fn lemma_stabilize_idempotent(rules: Seq<(Seq<char>, ExprView)>, env: Seq<BusView>)
    requires
        env.len() <= usize::MAX,
        influences_cover_reads(rules, env),
        stabilized(rules, env).1,
    ensures
        stabilized(rules, stabilized(rules, env).0) == (stabilized(rules, env).0, true),
{
    let q = all_positions(env.len());
    assert forall|j: int|
        0 <= j < env.len() && #[trigger] driver(rules, env, j) is Some && !q.contains(j as usize)
            implies eval(driver(rules, env, j)->Some_0, env) == env[j].value by {
        assert(q[j] == j as usize);
    }
    lemma_run_settles(rules, env, q, REQUEUE_LIMIT as nat);
    let s1 = stabilized(rules, env).0;
    lemma_run_from_settled(rules, s1, all_positions(s1.len()), REQUEUE_LIMIT as nat);
}

/// A batch of writes as mathematics: bus name and value text.
pub open spec fn write_views(ws: Seq<(String, String)>) -> Seq<(Seq<char>, Seq<char>)> {
    ws.map_values(|p: (String, String)| (p.0@, p.1@))
}

/// The buses after adding a bus under the name `n`: it replaces the bus of
/// that name where there is one, and goes last otherwise.
pub open spec fn bus_added(env: Seq<BusView>, n: Seq<char>, b: BusView) -> Seq<BusView> {
    let nb = BusView { name: Some(n), ..b };
    match find_bus(env, n) {
        Some(k) => env.update(k, nb),
        None => env.push(nb),
    }
}

/// The driving expressions after installing `e` for the bus named `n`.
pub open spec fn rule_set(
    rules: Seq<(Seq<char>, ExprView)>,
    n: Seq<char>,
    e: ExprView,
) -> Seq<(Seq<char>, ExprView)> {
    match find_rule(rules, n) {
        Some(k) => rules.update(k, (n, e)),
        None => rules.push((n, e)),
    }
}

fn not_found(name: &str) -> (r: SimulationError)
    ensures
        r.kind == ErrorKind::BusNotFound,
{
    let mut msg = String::from_str("Bus '");
    msg.append(name);
    msg.append("' not found");
    SimulationError::new(ErrorKind::BusNotFound, msg)
}

/// Whether `v` holds `x`.
fn vec_contains(v: &Vec<usize>, x: usize) -> (r: bool)
    ensures
        r == v@.contains(x),
{
    let mut j: usize = 0;
    while j < v.len()
        invariant
            j <= v@.len(),
            forall|k: int| 0 <= k < j ==> v@[k] != x,
        decreases v@.len() - j,
    {
        if v[j] == x {
            return true;
        }
        j = j + 1;
    }
    false
}

/// The position of the first driving expression for the bus named `name`.
fn find_rule_index(assignments: &Vec<(String, Expr)>, name: &str) -> (r: Option<usize>)
    ensures
        r is Some <==> find_rule(rule_views(assignments@), name@) is Some,
        r matches Some(i) ==> find_rule(rule_views(assignments@), name@) == Some(i as int),
{
    let ghost rules = rule_views(assignments@);
    let key = name.to_owned();
    let mut i: usize = 0;
    assert(rules.subrange(0, rules.len() as int) =~= rules);
    while i < assignments.len()
        invariant
            rules == rule_views(assignments@),
            key@ == name@,
            i <= assignments@.len(),
            find_rule(rules, name@) == (match find_rule(
                rules.subrange(i as int, rules.len() as int),
                name@,
            ) {
                Some(k) => Some(k + i),
                None => None,
            }),
        decreases assignments@.len() - i,
    {
        let ghost rest = rules.subrange(i as int, rules.len() as int);
        assert(rest.drop_first() =~= rules.subrange(i + 1, rules.len() as int));
        if assignments[i].0 == key {
            return Some(i);
        }
        i = i + 1;
    }
    assert(rules.subrange(i as int, rules.len() as int).len() == 0);
    None
}

/// Whether the queue holds `x`.
fn queue_contains(q: &VecDeque<usize>, x: usize) -> (r: bool)
    ensures
        r == q@.contains(x),
{
    let mut j: usize = 0;
    while j < q.len()
        invariant
            j <= q@.len(),
            forall|k: int| 0 <= k < j ==> q@[k] != x,
        decreases q@.len() - j,
    {
        if q[j] == x {
            return true;
        }
        j = j + 1;
    }
    false
}

/// A circuit: buses kept in the order they were added, and the expressions
/// that drive some of them, keyed by bus name.
#[derive(Debug)]
pub struct Component {
    pub id: String,
    pub busses: Vec<BitBus>,
    pub assignments: Vec<(String, Expr)>,
}

impl Component {
    pub open spec fn env(&self) -> Seq<BusView> {
        bus_views(self.busses@)
    }

    pub open spec fn rules(&self) -> Seq<(Seq<char>, ExprView)> {
        rule_views(self.assignments@)
    }

    /// Every bus carries its own name, and names are unique.
    pub open spec fn wf(&self) -> bool {
        names_unique(self.env())
    }

    pub fn new(id: String) -> (r: Component)
        ensures
            r.wf(),
            r.id@ == id@,
            r.env().len() == 0,
            r.rules().len() == 0,
    {
        let r = Component { id, busses: Vec::new(), assignments: Vec::new() };
        assert(r.env() =~= Seq::<BusView>::empty());
        assert(r.rules() =~= Seq::<(Seq<char>, ExprView)>::empty());
        r
    }

    /// The component's name.
    pub fn get_id(&self) -> (r: &str)
        ensures
            r@ == self.id@,
    {
        self.id.as_str()
    }

    /// Adds a bus under the name `id`, stamping the name into it. A bus
    /// already known by that name is replaced in place.
    pub fn add_bus(&mut self, id: String, bus: BitBus)
        requires
            old(self).wf(),
        ensures
            final(self).wf(),
            final(self).id == old(self).id,
            final(self).assignments == old(self).assignments,
            final(self).env() == bus_added(old(self).env(), id@, bus@),
    {
        let ghost env0 = self.env();
        let ghost n = id@;
        let mut bus = bus;
        proof {
            lemma_find_bus(env0, n);
        }
        match find_bus_index(&self.busses, id.as_str()) {
            Some(k) => {
                bus.set_id(id);
                self.busses[k] = bus;
            },
            None => {
                bus.set_id(id);
                self.busses.push(bus);
            },
        }
        assert(self.env() =~= bus_added(env0, n, bus@));
    }

    /// Adds a bus of `dimension` zero bits under the name `id`.
    pub fn create_bus(&mut self, id: String, dimension: usize)
        requires
            old(self).wf(),
        ensures
            final(self).wf(),
            final(self).id == old(self).id,
            final(self).assignments == old(self).assignments,
            final(self).env() == bus_added(
                old(self).env(),
                id@,
                BusView {
                    name: None,
                    value: Seq::new(dimension as nat, |i: int| false),
                    influences: Seq::empty(),
                },
            ),
    {
        let mut bus = BitBus::new();
        bus.set_dimension(dimension);
        assert(bus@.influences =~= Seq::<usize>::empty());
        self.add_bus(id, bus);
    }

    /// Installs, or replaces, the expression that drives the bus named
    /// `bus_id`. Nothing is recomputed.
    pub fn set_assignment(&mut self, bus_id: String, assignment: Expr)
        requires
            old(self).wf(),
        ensures
            final(self).wf(),
            final(self).id == old(self).id,
            final(self).busses == old(self).busses,
            final(self).rules() == rule_set(old(self).rules(), bus_id@, assignment@),
    {
        let ghost rules0 = self.rules();
        let ghost n = bus_id@;
        let ghost e = assignment@;
        proof {
            lemma_find_rule(rules0, n);
        }
        match find_rule_index(&self.assignments, bus_id.as_str()) {
            Some(k) => {
                self.assignments[k] = (bus_id, assignment);
            },
            None => {
                self.assignments.push((bus_id, assignment));
            },
        }
        assert(self.rules() =~= rule_set(rules0, n, e));
    }

    /// Records that a change of the bus `influencer_id` must queue the bus
    /// `influenced_id`. Both must exist; an edge that is already there is
    /// not added twice. On error nothing changes.
    pub fn add_influence(&mut self, influencer_id: &str, influenced_id: &str) -> (r: Result<
        (),
        SimulationError,
    >)
        requires
            old(self).wf(),
        ensures
            final(self).wf(),
            final(self).id == old(self).id,
            final(self).assignments == old(self).assignments,
            match influence_added(old(self).env(), influencer_id@, influenced_id@) {
                Ok(e) => r is Ok && final(self).env() == e,
                Err(k) => r matches Err(x) && x.kind == k,
            },
            r is Err ==> final(self).busses == old(self).busses,
    {
        let ghost env0 = self.env();
        proof {
            lemma_find_bus(env0, influenced_id@);
            lemma_find_bus(env0, influencer_id@);
        }
        let t = match find_bus_index(&self.busses, influenced_id) {
            Some(t) => t,
            None => {
                return Err(not_found(influenced_id));
            },
        };
        let f = match find_bus_index(&self.busses, influencer_id) {
            Some(f) => f,
            None => {
                return Err(not_found(influencer_id));
            },
        };
        assert(env0[f as int] == self.busses@[f as int]@);
        if !vec_contains(&self.busses[f].influence_list, t) {
            self.busses[f].influence_list.push(t);
        }
        assert(self.env() =~= influence_added(env0, influencer_id@, influenced_id@)->Ok_0);
        Ok(())
    }

    /// The value of the bus named `bus_id`, as text.
    pub fn get_bus_value(&self, bus_id: &str) -> (r: Option<String>)
        ensures
            match find_bus(self.env(), bus_id@) {
                Some(k) => r matches Some(s) && s@ == text_of_bits(self.env()[k].value),
                None => r is None,
            },
    {
        proof {
            lemma_find_bus(self.env(), bus_id@);
        }
        match find_bus_index(&self.busses, bus_id) {
            Some(k) => Some(self.busses[k].value.to_string()),
            None => None,
        }
    }

    fn write_named(&mut self, bus_id: &str, value: &str) -> (r: Result<(), SimulationError>)
        requires
            old(self).wf(),
        ensures
            final(self).wf(),
            final(self).id == old(self).id,
            final(self).assignments == old(self).assignments,
            match write_bus(old(self).env(), bus_id@, value@) {
                Ok(e) => r is Ok && final(self).env() == e,
                Err(k) => r matches Err(x) && x.kind == k && final(self).env() == old(self).env(),
            },
    {
        let ghost env0 = self.env();
        proof {
            lemma_find_bus(env0, bus_id@);
        }
        match find_bus_index(&self.busses, bus_id) {
            None => Err(not_found(bus_id)),
            Some(k) => {
                assert(env0[k as int] == self.busses@[k as int]@);
                let res = self.busses[k].insert_value(value);
                assert(self.env() =~= env0.update(k as int, self.busses@[k as int]@));
                proof {
                    assert forall|x: int, y: int|
                        0 <= x < self.env().len() && 0 <= y < self.env().len() && x != y implies
                        self.env()[x].name != self.env()[y].name by {
                        assert(self.env()[x].name == env0[x].name);
                        assert(self.env()[y].name == env0[y].name);
                    }
                    if res is Err {
                        assert(self.env() =~= env0);
                    }
                }
                res
            },
        }
    }

    /// Writes a value, given as text, into the bus named `bus_id`, without
    /// stabilizing. On error nothing changes.
    pub fn set_bus_value(&mut self, bus_id: String, value: String) -> (r: Result<
        (),
        SimulationError,
    >)
        requires
            old(self).wf(),
        ensures
            final(self).wf(),
            final(self).id == old(self).id,
            final(self).assignments == old(self).assignments,
            match write_bus(old(self).env(), bus_id@, value@) {
                Ok(e) => r is Ok && final(self).env() == e,
                Err(k) => r matches Err(x) && x.kind == k,
            },
            r is Err ==> final(self).env() == old(self).env(),
    {
        self.write_named(bus_id.as_str(), value.as_str())
    }

    /// Name and value text of every bus, in bus order.
    pub fn get_values(&self) -> (r: Vec<(String, String)>)
        requires
            self.wf(),
        ensures
            r@.len() == self.env().len(),
            forall|i: int|
                0 <= i < r@.len() ==> Some(#[trigger] r@[i].0@) == self.env()[i].name && r@[i].1@
                    == text_of_bits(self.env()[i].value),
    {
        let mut out: Vec<(String, String)> = Vec::new();
        let mut i: usize = 0;
        while i < self.busses.len()
            invariant
                self.wf(),
                i <= self.busses@.len(),
                out@.len() == i,
                forall|j: int|
                    0 <= j < i ==> Some(#[trigger] out@[j].0@) == self.env()[j].name
                        && out@[j].1@ == text_of_bits(self.env()[j].value),
            decreases self.busses@.len() - i,
        {
            assert(self.env()[i as int] == self.busses@[i as int]@);
            assert(self.env()[i as int].name is Some);
            let name = match &self.busses[i].id {
                Some(s) => s.clone(),
                None => String::new(),
            };
            out.push((name, self.busses[i].value.to_string()));
            i = i + 1;
        }
        out
    }

    /// Writes each value in order, then stabilizes once. The first write
    /// that fails ends the batch: the writes before it stay made, and the
    /// circuit is not stabilized.
    pub fn update_signals(&mut self, new_values: Vec<(String, String)>) -> (r: Result<
        (),
        SimulationError,
    >)
        requires
            old(self).wf(),
        ensures
            final(self).wf(),
            final(self).id == old(self).id,
            final(self).assignments == old(self).assignments,
            ({
                let (e, err) = apply_writes(old(self).env(), write_views(new_values@));
                match err {
                    Some(k) => r matches Err(x) && x.kind == k && final(self).env() == e,
                    None => (final(self).env(), r is Ok) == stabilized(old(self).rules(), e) && (
                    r matches Err(x) ==> x.kind == ErrorKind::DidNotConverge),
                }
            }),
    {
        let ghost ws = write_views(new_values@);
        let mut i: usize = 0;
        assert(ws.subrange(0, 0) =~= Seq::<(Seq<char>, Seq<char>)>::empty());
        while i < new_values.len()
            invariant
                self.wf(),
                self.id == old(self).id,
                self.assignments == old(self).assignments,
                ws == write_views(new_values@),
                i <= new_values@.len(),
                (self.env(), None::<ErrorKind>) == apply_writes(old(self).env(), ws.subrange(0, i as int)),
            decreases new_values@.len() - i,
        {
            assert(ws.subrange(0, i + 1).drop_last() =~= ws.subrange(0, i as int));
            let res = self.write_named(new_values[i].0.as_str(), new_values[i].1.as_str());
            if res.is_err() {
                assert(ws.subrange(0, new_values@.len() as int) =~= ws);
                proof {
                    lemma_apply_writes_stops(old(self).env(), ws, i as int);
                }
                return res;
            }
            i = i + 1;
        }
        assert(ws.subrange(0, i as int) =~= ws);
        self.stabilize()
    }

    /// Recomputes driven buses until nothing changes: every bus is queued
    /// once, in order; each driven bus taken from the front gets its
    /// expression's value, and when that value changed, the buses it
    /// influences are queued unless already waiting. Fails with
    /// `DidNotConverge` when buses would be put back on the queue more than
    /// `REQUEUE_LIMIT` times.
    pub fn stabilize(&mut self) -> (r: Result<(), SimulationError>)
        requires
            old(self).wf(),
        ensures
            final(self).wf(),
            final(self).id == old(self).id,
            final(self).assignments == old(self).assignments,
            (final(self).env(), r is Ok) == stabilized(old(self).rules(), old(self).env()),
            r matches Err(e) ==> e.kind == ErrorKind::DidNotConverge,
    {
        let ghost rules = self.rules();
        let ghost env0 = self.env();
        let n = self.busses.len();
        let mut queue: VecDeque<usize> = VecDeque::new();
        let mut k: usize = 0;
        while k < n
            invariant
                k <= n,
                queue@ =~= all_positions(k as nat),
            decreases n - k,
        {
            queue.push_back(k);
            k = k + 1;
        }
        let mut budget: usize = REQUEUE_LIMIT;
        while queue.len() > 0
            invariant
                self.busses@.len() == n,
                rules == self.rules(),
                rules == old(self).rules(),
                env0 == old(self).env(),
                self.id == old(self).id,
                self.assignments == old(self).assignments,
                env0.len() == n,
                forall|j: int|
                    0 <= j < n ==> #[trigger] self.env()[j].name == env0[j].name
                        && self.env()[j].influences == env0[j].influences,
                names_unique(env0),
                forall|j: int| 0 <= j < queue@.len() ==> queue@[j] < n,
                run(rules, self.env(), queue@, budget as nat) == stabilized(rules, env0),
            decreases budget, queue@.len(),
        {
            let ghost env1 = self.env();
            let ghost q1 = queue@;
            let i = queue.pop_front().unwrap();
            let ghost rest = queue@;
            assert(rest == q1.drop_first());
            let name: &str = match &self.busses[i].id {
                Some(s) => s.as_str(),
                None => "",
            };
            let found = find_rule_index(&self.assignments, name);
            proof {
                assert(env1[i as int] == self.busses@[i as int]@);
                lemma_find_rule(rules, name@);
            }
            if let Some(a) = found {
                let new_value = self.assignments[a].1.evaluate(&self.busses);
                let changed = !new_value.same_bits(&self.busses[i].value);
                let ghost old_bus = self.busses@[i as int]@;
                proof {
                    assert(env1[i as int].name is Some);
                    assert(rules[a as int] == (
                        self.assignments@[a as int].0@,
                        self.assignments@[a as int].1@,
                    ));
                    assert(driver(rules, env1, i as int) == Some(self.assignments@[a as int].1@));
                    assert(old_bus == env1[i as int]);
                }
                self.busses[i].value = new_value;
                proof {
                    assert(self.env() =~= env1.update(
                        i as int,
                        BusView { value: new_value@, ..env1[i as int] },
                    ));
                }
                if changed {
                    let before = queue.len();
                    let mut t: usize = 0;
                    let ghost infl = old_bus.influences;
                    assert(infl.subrange(0, 0) =~= Seq::<usize>::empty());
                    while t < self.busses[i].influence_list.len()
                        invariant
                            self.busses@.len() == n,
                            i < n,
                            self.busses@[i as int]@.influences == infl,
                            t <= infl.len(),
                            queue@ == enqueue_all(rest, infl.subrange(0, t as int), n as nat),
                            before == rest.len(),
                            forall|j: int| 0 <= j < queue@.len() ==> queue@[j] < n,
                        decreases infl.len() - t,
                    {
                        let x = self.busses[i].influence_list[t];
                        assert(infl.subrange(0, t + 1).drop_last() =~= infl.subrange(0, t as int));
                        if x < n && !queue_contains(&queue, x) {
                            queue.push_back(x);
                        }
                        t = t + 1;
                    }
                    assert(infl.subrange(0, t as int) =~= infl);
                    proof {
                        lemma_enqueue_all_grows(rest, infl, n as nat);
                    }
                    let added = queue.len() - before;
                    assert(step(rules, env1, q1) == (self.env(), queue@));
                    if added > budget {
                        assert(queue@.len() - q1.len() + 1 == added);
                        assert(run(rules, env1, q1, budget as nat) == (self.env(), false));
                        return Err(
                            SimulationError::new(
                                ErrorKind::DidNotConverge,
                                String::from_str("Circuit did not converge"),
                            ),
                        );
                    }
                    budget = budget - added;
                }
            }
        }
        proof {
            assert forall|x: int, y: int|
                0 <= x < self.env().len() && 0 <= y < self.env().len() && x != y implies
                self.env()[x].name != self.env()[y].name by {
                assert(self.env()[x].name == env0[x].name);
                assert(self.env()[y].name == env0[y].name);
            }
        }
        Ok(())
    }
}

} // verus!
