use vstd::prelude::*;
use crate::busses::{
    bits_of_text, default_bits, is_bit_text, BitBus, BitBusValue, BusView, ErrorKind,
    SimulationError,
};
use crate::component::{bus_added, influence_added, rule_set, Component};
use crate::expr_nodes::{
    find_bus, lemma_find_bus, And, BusRef, Const, Expr, ExprView, Nand, Nor, Not, Or, Xnor, Xor,
};

verus! {

/// A JSON document as mathematics. Numbers are kept without their value,
/// which the circuit description never reads.
pub enum JsonView {
    Null,
    Bool(bool),
    Number,
    Str(Seq<char>),
    Array(Seq<JsonView>),
    Object(Seq<(Seq<char>, JsonView)>),
}

#[verifier::external_type_specification]
#[verifier::external_body]
pub struct ExValue(serde_json::Value);

#[verifier::external_type_specification]
#[verifier::external_body]
pub struct ExJsonError(serde_json::Error);

/// The document that a parsed JSON value holds.
pub uninterp spec fn json_of(v: serde_json::Value) -> JsonView;

/// The document that serde_json reads from a text, or none when it refuses
/// the text.
pub uninterp spec fn parsed_json(text: Seq<char>) -> Option<JsonView>;

/// Relies on serde_json::from_str: the outcome depends on the text alone.
#[verifier::external_body]
fn parse_json(text: &str) -> (r: Result<serde_json::Value, serde_json::Error>)
    ensures
        match parsed_json(text@) {
            Some(j) => r matches Ok(v) && json_of(v) == j,
            None => r is Err,
        },
{
    serde_json::from_str(text)
}

/// Relies on serde_json::Value::get with a string key: the member of an
/// object under that key, and nothing for any other kind of value.
#[verifier::external_body]
fn json_get<'a>(v: &'a serde_json::Value, key: &str) -> (r: Option<&'a serde_json::Value>)
    ensures
        match json_field(json_of(*v), key@) {
            Some(c) => r matches Some(x) && json_of(*x) == c,
            None => r is None,
        },
{
    v.get(key)
}

/// Relies on serde_json::Value::as_str: the text of a string value.
pub assume_specification[ serde_json::Value::as_str ](v: &serde_json::Value) -> (r: Option<&str>)
    ensures
        match json_of(*v) {
            JsonView::Str(s) => r matches Some(x) && x@ == s,
            _ => r is None,
        },
;

/// Relies on serde_json::Value::as_array: the elements of an array value.
pub assume_specification[ serde_json::Value::as_array ](v: &serde_json::Value) -> (r: Option<
    &Vec<serde_json::Value>,
>)
    ensures
        match json_of(*v) {
            JsonView::Array(items) => r matches Some(a) && a@.len() == items.len() && forall|i: int|
                0 <= i < items.len() ==> json_of(#[trigger] a@[i]) == items[i],
            _ => r is None,
        },
;

/// Relies on serde_json::Value::as_bool: the value of a boolean.
pub assume_specification[ serde_json::Value::as_bool ](v: &serde_json::Value) -> (r: Option<bool>)
    ensures
        match json_of(*v) {
            JsonView::Bool(b) => r == Some(b),
            _ => r is None,
        },
;

/// Relies on serde_json::Value::is_null.
pub assume_specification[ serde_json::Value::is_null ](v: &serde_json::Value) -> (r: bool)
    ensures
        r == (json_of(*v) is Null),
;

/// The position of the first member named `key`.
pub open spec fn entry_index(es: Seq<(Seq<char>, JsonView)>, key: Seq<char>) -> Option<int>
    decreases es.len(),
{
    if es.len() == 0 {
        None
    } else if es[0].0 == key {
        Some(0)
    } else {
        match entry_index(es.drop_first(), key) {
            Some(i) => Some(i + 1),
            None => None,
        }
    }
}

pub proof fn lemma_entry_index(es: Seq<(Seq<char>, JsonView)>, key: Seq<char>)
    ensures
        entry_index(es, key) matches Some(i) ==> 0 <= i < es.len() && es[i].0 == key,
    decreases es.len(),
{
    if es.len() > 0 {
        lemma_entry_index(es.drop_first(), key);
    }
}

/// The member of an object under `key`.
pub open spec fn json_field(j: JsonView, key: Seq<char>) -> Option<JsonView> {
    match j {
        JsonView::Object(es) => match entry_index(es, key) {
            Some(k) => Some(es[k].1),
            None => None,
        },
        _ => None,
    }
}

/// The member under `key` of an object that may be missing.
pub open spec fn field_of(o: Option<JsonView>, key: Seq<char>) -> Option<JsonView> {
    match o {
        Some(j) => json_field(j, key),
        None => None,
    }
}

/// The text of a string member.
pub open spec fn str_field(o: Option<JsonView>, key: Seq<char>) -> Option<Seq<char>> {
    match field_of(o, key) {
        Some(JsonView::Str(s)) => Some(s),
        _ => None,
    }
}

pub proof fn lemma_field_decreases(j: JsonView, key: Seq<char>)
    requires
        json_field(j, key) is Some,
    ensures
        decreases_to!(j => json_field(j, key)->Some_0),
{
    if let JsonView::Object(es) = j {
        lemma_entry_index(es, key);
        let k = entry_index(es, key)->Some_0;
        vstd::seq::axiom_seq_index_decreases(es, k);
        assert(decreases_to!(j => es[k].1));
    }
}

/// The bits of an array of booleans; anything but `true` counts as zero.
pub open spec fn bools_of(items: Seq<JsonView>) -> Seq<bool> {
    Seq::new(items.len(), |i: int| items[i] == JsonView::Bool(true))
}

/// The bits of a constant's value: an array of booleans, or a bit text.
pub open spec fn const_bits(v: Option<JsonView>) -> Result<Seq<bool>, ErrorKind> {
    match v {
        Some(JsonView::Array(items)) => Ok(bools_of(items)),
        Some(JsonView::Str(s)) => if is_bit_text(s) {
            Ok(bits_of_text(s))
        } else {
            Err(ErrorKind::InvalidBitText)
        },
        _ => Err(ErrorKind::MalformedIr),
    }
}

/// The initial bits of a bus entry: none when it gives no value, the
/// default value when the value is malformed.
pub open spec fn initial_bits(b: JsonView) -> Option<Seq<bool>> {
    match json_field(b, "value"@) {
        None => None,
        Some(JsonView::Array(items)) => Some(bools_of(items)),
        Some(JsonView::Str(s)) => Some(
            if is_bit_text(s) {
                bits_of_text(s)
            } else {
                default_bits()
            },
        ),
        Some(_) => Some(default_bits()),
    }
}

/// The two operands of a binary node, compiled left first.
pub open spec fn binary_parts(j: JsonView) -> Result<(ExprView, ExprView), ErrorKind>
    decreases j, 0nat,
{
    match json_field(j, "args"@) {
        None => Err(ErrorKind::MalformedIr),
        Some(args) => {
            proof {
                lemma_field_decreases(j, "args"@);
            }
            match json_field(args, "l_expr"@) {
                None => Err(ErrorKind::MalformedIr),
                Some(l) => {
                    proof {
                        lemma_field_decreases(args, "l_expr"@);
                    }
                    match compiled_expr(l) {
                        Err(k) => Err(k),
                        Ok(le) => match json_field(args, "r_expr"@) {
                            None => Err(ErrorKind::MalformedIr),
                            Some(r) => {
                                proof {
                                    lemma_field_decreases(args, "r_expr"@);
                                }
                                match compiled_expr(r) {
                                    Err(k) => Err(k),
                                    Ok(re) => Ok((le, re)),
                                }
                            },
                        },
                    }
                },
            }
        },
    }
}

/// The expression that an expression node describes, or the kind of error.
pub open spec fn compiled_expr(j: JsonView) -> Result<ExprView, ErrorKind>
    decreases j, 1nat,
{
    match str_field(Some(j), "type"@) {
        None => Err(ErrorKind::MalformedIr),
        Some(ty) => if ty == "const"@ {
            match const_bits(field_of(json_field(j, "args"@), "value"@)) {
                Ok(b) => Ok(ExprView::Const(b)),
                Err(k) => Err(k),
            }
        } else if ty == "bus_ref"@ {
            match str_field(json_field(j, "args"@), "id"@) {
                Some(id) => Ok(ExprView::BusRef(id)),
                None => Err(ErrorKind::MalformedIr),
            }
        } else if ty == "not"@ {
            match field_of(json_field(j, "args"@), "expr"@) {
                None => Err(ErrorKind::MalformedIr),
                Some(x) => {
                    proof {
                        lemma_field_decreases(j, "args"@);
                        lemma_field_decreases(json_field(j, "args"@)->Some_0, "expr"@);
                    }
                    match compiled_expr(x) {
                        Ok(e) => Ok(ExprView::Not(Box::new(e))),
                        Err(k) => Err(k),
                    }
                },
            }
        } else if ty == "and"@ || ty == "or"@ || ty == "xor"@ || ty == "nand"@ || ty == "nor"@
            || ty == "xnor"@ {
            match binary_parts(j) {
                Err(k) => Err(k),
                Ok((l, r)) => Ok(
                    if ty == "and"@ {
                        ExprView::And(Box::new(l), Box::new(r))
                    } else if ty == "or"@ {
                        ExprView::Or(Box::new(l), Box::new(r))
                    } else if ty == "xor"@ {
                        ExprView::Xor(Box::new(l), Box::new(r))
                    } else if ty == "nand"@ {
                        ExprView::Nand(Box::new(l), Box::new(r))
                    } else if ty == "nor"@ {
                        ExprView::Nor(Box::new(l), Box::new(r))
                    } else {
                        ExprView::Xnor(Box::new(l), Box::new(r))
                    },
                ),
            }
        } else {
            Err(ErrorKind::UnknownExpressionType)
        },
    }
}

/// The buses that the first pass builds: one per entry, in order, with its
/// initial value; a later entry with the same name replaces an earlier one.
pub open spec fn pass_one(entries: Seq<JsonView>) -> Result<Seq<BusView>, ErrorKind>
    decreases entries.len(),
{
    if entries.len() == 0 {
        Ok(Seq::empty())
    } else {
        match pass_one(entries.drop_last()) {
            Err(k) => Err(k),
            Ok(env) => match str_field(Some(entries.last()), "id"@) {
                None => Err(ErrorKind::MalformedIr),
                Some(id) => Ok(
                    bus_added(
                        env,
                        id,
                        BusView {
                            name: None,
                            value: match initial_bits(entries.last()) {
                                Some(b) => b,
                                None => default_bits(),
                            },
                            influences: Seq::empty(),
                        },
                    ),
                ),
            },
        }
    }
}

/// The buses after recording that `from` influences each named target in
/// turn; targets that are not strings are passed over.
pub open spec fn influences_added(env: Seq<BusView>, from: Seq<char>, ts: Seq<JsonView>) -> Result<
    Seq<BusView>,
    ErrorKind,
>
    decreases ts.len(),
{
    if ts.len() == 0 {
        Ok(env)
    } else {
        match influences_added(env, from, ts.drop_last()) {
            Err(k) => Err(k),
            Ok(e) => match ts.last() {
                JsonView::Str(t) => match influence_added(e, from, t) {
                    Ok(e2) => Ok(e2),
                    Err(_) => Err(ErrorKind::UnknownBusReferenceInInfluenceList),
                },
                _ => Ok(e),
            },
        }
    }
}

/// The driving expressions after installing the one that entry `b` of the
/// bus named `id` gives, if it gives one.
pub open spec fn assigned_rules(
    rules: Seq<(Seq<char>, ExprView)>,
    id: Seq<char>,
    b: JsonView,
) -> Result<Seq<(Seq<char>, ExprView)>, ErrorKind> {
    match json_field(b, "assignment"@) {
        Some(a) => if a is Null {
            Ok(rules)
        } else {
            match compiled_expr(a) {
                Ok(e) => Ok(rule_set(rules, id, e)),
                Err(k) => Err(k),
            }
        },
        None => Ok(rules),
    }
}

/// The second pass on one entry: install its driving expression, if it has
/// one, then its influence edges.
pub open spec fn wire_entry(
    env: Seq<BusView>,
    rules: Seq<(Seq<char>, ExprView)>,
    b: JsonView,
) -> Result<(Seq<BusView>, Seq<(Seq<char>, ExprView)>), ErrorKind> {
    match str_field(Some(b), "id"@) {
        None => Err(ErrorKind::MalformedIr),
        Some(id) => {
            match assigned_rules(rules, id, b) {
                Err(k) => Err(k),
                Ok(r2) => match json_field(b, "influence_list"@) {
                    Some(JsonView::Array(ts)) => match influences_added(env, id, ts) {
                        Ok(e2) => Ok((e2, r2)),
                        Err(k) => Err(k),
                    },
                    _ => Ok((env, r2)),
                },
            }
        },
    }
}

/// The second pass over every entry, in order.
pub open spec fn pass_two(env: Seq<BusView>, entries: Seq<JsonView>) -> Result<
    (Seq<BusView>, Seq<(Seq<char>, ExprView)>),
    ErrorKind,
>
    decreases entries.len(),
{
    if entries.len() == 0 {
        Ok((env, Seq::empty()))
    } else {
        match pass_two(env, entries.drop_last()) {
            Err(k) => Err(k),
            Ok((e, r)) => wire_entry(e, r, entries.last()),
        }
    }
}

/// The bus entries of a document.
pub open spec fn bus_entries(j: JsonView) -> Option<Seq<JsonView>> {
    match field_of(json_field(j, "component"@), "busses"@) {
        Some(JsonView::Array(items)) => Some(items),
        _ => None,
    }
}

/// The component that a document describes, as its name, buses and driving
/// expressions, or the kind of error.
pub open spec fn rendered_doc(j: JsonView) -> Result<
    (Seq<char>, Seq<BusView>, Seq<(Seq<char>, ExprView)>),
    ErrorKind,
> {
    match str_field(json_field(j, "component"@), "id"@) {
        None => Err(ErrorKind::MalformedIr),
        Some(id) => match bus_entries(j) {
            None => Err(ErrorKind::MalformedIr),
            Some(items) => match pass_one(items) {
                Err(k) => Err(k),
                Ok(e1) => match pass_two(e1, items) {
                    Err(k) => Err(k),
                    Ok((e2, r2)) => Ok((id, e2, r2)),
                },
            },
        },
    }
}

/// The component that a JSON text describes, or the kind of error.
pub open spec fn rendered(ir: Seq<char>) -> Result<
    (Seq<char>, Seq<BusView>, Seq<(Seq<char>, ExprView)>),
    ErrorKind,
> {
    match parsed_json(ir) {
        None => Err(ErrorKind::MalformedIr),
        Some(j) => rendered_doc(j),
    }
}

proof fn lemma_pass_one_err(entries: Seq<JsonView>, i: int)
    requires
        0 <= i <= entries.len(),
        pass_one(entries.subrange(0, i)) is Err,
    ensures
        pass_one(entries) == pass_one(entries.subrange(0, i)),
    decreases entries.len(),
{
    if i < entries.len() {
        assert(entries.drop_last().subrange(0, i) =~= entries.subrange(0, i));
        lemma_pass_one_err(entries.drop_last(), i);
    } else {
        assert(entries.subrange(0, i) =~= entries);
    }
}

proof fn lemma_pass_two_err(env: Seq<BusView>, entries: Seq<JsonView>, i: int)
    requires
        0 <= i <= entries.len(),
        pass_two(env, entries.subrange(0, i)) is Err,
    ensures
        pass_two(env, entries) == pass_two(env, entries.subrange(0, i)),
    decreases entries.len(),
{
    if i < entries.len() {
        assert(entries.drop_last().subrange(0, i) =~= entries.subrange(0, i));
        lemma_pass_two_err(env, entries.drop_last(), i);
    } else {
        assert(entries.subrange(0, i) =~= entries);
    }
}

proof fn lemma_influences_err(env: Seq<BusView>, from: Seq<char>, ts: Seq<JsonView>, i: int)
    requires
        0 <= i <= ts.len(),
        influences_added(env, from, ts.subrange(0, i)) is Err,
    ensures
        influences_added(env, from, ts) == influences_added(env, from, ts.subrange(0, i)),
    decreases ts.len(),
{
    if i < ts.len() {
        assert(ts.drop_last().subrange(0, i) =~= ts.subrange(0, i));
        lemma_influences_err(env, from, ts.drop_last(), i);
    } else {
        assert(ts.subrange(0, i) =~= ts);
    }
}

/// No bus carries the name `t`.
pub open spec fn lacks_name(env: Seq<BusView>, t: Seq<char>) -> bool {
    forall|k: int| 0 <= k < env.len() ==> env[k].name != Some(t)
}

proof fn lemma_pass_one_lacks(items: Seq<JsonView>, t: Seq<char>)
    requires
        forall|x: int| 0 <= x < items.len() ==> str_field(Some(items[x]), "id"@) != Some(t),
    ensures
        pass_one(items) matches Ok(e) ==> lacks_name(e, t),
    decreases items.len(),
{
    if items.len() > 0 {
        lemma_pass_one_lacks(items.drop_last(), t);
        if let Ok(e0) = pass_one(items.drop_last()) {
            if let Some(id) = str_field(Some(items.last()), "id"@) {
                assert(str_field(Some(items[items.len() - 1]), "id"@) != Some(t));
                let e = pass_one(items)->Ok_0;
                lemma_find_bus(e0, id);
                assert forall|k: int| 0 <= k < e.len() implies e[k].name != Some(t) by {
                    if k < e0.len() {
                        assert(e0[k].name != Some(t));
                    }
                }
            }
        }
    }
}

proof fn lemma_influences_keep_names(env: Seq<BusView>, from: Seq<char>, ts: Seq<JsonView>, t: Seq<char>)
    requires
        lacks_name(env, t),
    ensures
        influences_added(env, from, ts) matches Ok(e) ==> lacks_name(e, t),
    decreases ts.len(),
{
    if ts.len() > 0 {
        lemma_influences_keep_names(env, from, ts.drop_last(), t);
        if let Ok(e0) = influences_added(env, from, ts.drop_last()) {
            if let JsonView::Str(x) = ts.last() {
                lemma_find_bus(e0, from);
                lemma_find_bus(e0, x);
                if let Ok(e) = influence_added(e0, from, x) {
                    assert forall|k: int| 0 <= k < e.len() implies e[k].name != Some(t) by {
                        assert(e0[k].name != Some(t));
                    }
                }
            }
        }
    }
}

proof fn lemma_pass_two_keeps_names(env: Seq<BusView>, items: Seq<JsonView>, t: Seq<char>)
    requires
        lacks_name(env, t),
    ensures
        pass_two(env, items) matches Ok((e, _)) ==> lacks_name(e, t),
    decreases items.len(),
{
    if items.len() > 0 {
        lemma_pass_two_keeps_names(env, items.drop_last(), t);
        if let Ok((e0, r0)) = pass_two(env, items.drop_last()) {
            let b = items.last();
            if let Some(id) = str_field(Some(b), "id"@) {
                if let Some(JsonView::Array(ts)) = json_field(b, "influence_list"@) {
                    lemma_influences_keep_names(e0, id, ts, t);
                }
            }
        }
    }
}

/// Adding influence edges towards a name that no bus has fails.
proof fn lemma_influences_reject(env: Seq<BusView>, from: Seq<char>, ts: Seq<JsonView>, v: int, t: Seq<char>)
    requires
        lacks_name(env, t),
        0 <= v < ts.len(),
        ts[v] == JsonView::Str(t),
    ensures
        influences_added(env, from, ts) is Err,
{
    let pre = ts.subrange(0, v + 1);
    assert(pre.drop_last() =~= ts.subrange(0, v));
    assert(pre.last() == ts[v]);
    lemma_influences_keep_names(env, from, ts.subrange(0, v), t);
    if let Ok(e0) = influences_added(env, from, ts.subrange(0, v)) {
        lemma_find_bus(e0, t);
        assert(find_bus(e0, t) is None);
    }
    assert(influences_added(env, from, pre) is Err);
    lemma_influences_err(env, from, ts, v + 1);
}

/// A document in which some bus entry lists, among the buses it
/// influences, a name that no entry declares is not rendered at all.
pub proof fn lemma_unknown_influence_rejected(
    j: JsonView,
    items: Seq<JsonView>,
    w: int,
    ts: Seq<JsonView>,
    v: int,
    t: Seq<char>,
)
    requires
        bus_entries(j) == Some(items),
        0 <= w < items.len(),
        json_field(items[w], "influence_list"@) == Some(JsonView::Array(ts)),
        0 <= v < ts.len(),
        ts[v] == JsonView::Str(t),
        forall|x: int| 0 <= x < items.len() ==> str_field(Some(items[x]), "id"@) != Some(t),
    ensures
        rendered_doc(j) is Err,
{
    lemma_pass_one_lacks(items, t);
    if let Ok(e1) = pass_one(items) {
        let pre = items.subrange(0, w + 1);
        assert(pre.drop_last() =~= items.subrange(0, w));
        assert(pre.last() == items[w]);
        lemma_pass_two_keeps_names(e1, items.subrange(0, w), t);
        if let Ok((e, r)) = pass_two(e1, items.subrange(0, w)) {
            if let Some(id) = str_field(Some(items[w]), "id"@) {
                lemma_influences_reject(e, id, ts, v, t);
            }
        }
        assert(pass_two(e1, pre) is Err);
        lemma_pass_two_err(e1, items, w + 1);
    }
}

fn same_text(a: &str, b: &str) -> (r: bool)
    ensures
        r == (a@ == b@),
{
    a.to_owned() == b.to_owned()
}

fn malformed(msg: &str) -> (r: SimulationError)
    ensures
        r.kind == ErrorKind::MalformedIr,
{
    SimulationError::new(ErrorKind::MalformedIr, msg.to_owned())
}

/// The member under `key` of an object that may be missing.
fn get_in<'a>(o: Option<&'a serde_json::Value>, key: &str) -> (r: Option<&'a serde_json::Value>)
    ensures
        match field_of(
            match o {
                Some(v) => Some(json_of(*v)),
                None => None,
            },
            key@,
        ) {
            Some(c) => r matches Some(x) && json_of(*x) == c,
            None => r is None,
        },
{
    match o {
        Some(v) => json_get(v, key),
        None => None,
    }
}

/// The bits of a JSON array of booleans; anything but `true` is a zero.
fn bools_from(items: &Vec<serde_json::Value>) -> (r: Vec<bool>)
    ensures
        r@ == bools_of(items@.map_values(|x: serde_json::Value| json_of(x))),
{
    let ghost js = items@.map_values(|x: serde_json::Value| json_of(x));
    let mut out: Vec<bool> = Vec::new();
    let mut i: usize = 0;
    while i < items.len()
        invariant
            js == items@.map_values(|x: serde_json::Value| json_of(x)),
            i <= items@.len(),
            out@ =~= Seq::new(i as nat, |k: int| js[k] == JsonView::Bool(true)),
        decreases items@.len() - i,
    {
        let b = match items[i].as_bool() {
            Some(b) => b,
            None => false,
        };
        out.push(b);
        i = i + 1;
    }
    out
}

/// The bits of a constant's value.
fn const_value(v: Option<&serde_json::Value>) -> (r: Result<BitBusValue, SimulationError>)
    ensures
        match const_bits(
            match v {
                Some(x) => Some(json_of(*x)),
                None => None,
            },
        ) {
            Ok(b) => r matches Ok(x) && x@ == b,
            Err(k) => r matches Err(x) && x.kind == k,
        },
{
    let v = match v {
        Some(v) => v,
        None => {
            return Err(malformed("Missing 'value' in const expression"));
        },
    };
    if let Some(arr) = v.as_array() {
        proof {
            assert(arr@.map_values(|x: serde_json::Value| json_of(x)) =~= json_of(*v)->Array_0);
        }
        return Ok(BitBusValue::new(Some(bools_from(arr))));
    }
    match v.as_str() {
        Some(s) => match BitBusValue::from_string(s) {
            Ok(b) => Ok(b),
            Err(e) => {
                let mut msg = String::from_str("Invalid const value: ");
                msg.append(e.message());
                Err(SimulationError::new(ErrorKind::InvalidBitText, msg))
            },
        },
        None => Err(malformed("Invalid const value type")),
    }
}

/// Compiles circuit descriptions written as JSON into components.
#[derive(Debug)]
pub struct Renderer {
    pub ir: String,
    pub component: Option<Component>,
}

impl Renderer {
    /// Keeps the description and renders it at once; the component is
    /// there only when rendering succeeded.
    pub fn new(ir: String) -> (r: Renderer)
        ensures
            r.ir@ == ir@,
            match rendered(ir@) {
                Ok((id, env, rules)) => r.component matches Some(c) && c.wf() && c.id@ == id
                    && c.env() == env && c.rules() == rules,
                Err(_) => r.component is None,
            },
    {
        let mut renderer = Renderer { ir, component: None };
        match renderer.render() {
            Ok(c) => {
                renderer.component = Some(c);
            },
            Err(_) => {},
        }
        renderer
    }

    /// Renders the kept description.
    pub fn render(&self) -> (r: Result<Component, SimulationError>)
        ensures
            match rendered(self.ir@) {
                Ok((id, env, rules)) => r matches Ok(c) && c.wf() && c.id@ == id && c.env() == env
                    && c.rules() == rules,
                Err(k) => r matches Err(x) && x.kind == k,
            },
    {
        match parse_json(self.ir.as_str()) {
            Ok(j_ir) => self.render_document(&j_ir),
            Err(_) => Err(malformed("Failed to parse IR JSON")),
        }
    }

    /// Builds the component that a parsed document describes, in two
    /// passes: first every bus with its initial value, then the driving
    /// expressions and influence edges, which may name buses declared later.
    pub fn render_document(&self, j_ir: &serde_json::Value) -> (r: Result<Component, SimulationError>)
        ensures
            match rendered_doc(json_of(*j_ir)) {
                Ok((id, env, rules)) => r matches Ok(c) && c.wf() && c.id@ == id && c.env() == env
                    && c.rules() == rules,
                Err(k) => r matches Err(x) && x.kind == k,
            },
    {
        let j_component = json_get(j_ir, "component");
        let component_id = match get_in(j_component, "id") {
            Some(v) => match v.as_str() {
                Some(s) => s,
                None => {
                    return Err(malformed("Missing or invalid 'id' in component"));
                },
            },
            None => {
                return Err(malformed("Missing or invalid 'id' in component"));
            },
        };
        let mut component = Component::new(component_id.to_owned());
        assert(component.env() =~= Seq::<BusView>::empty());
        let j_busses = match get_in(j_component, "busses") {
            Some(v) => match v.as_array() {
                Some(a) => a,
                None => {
                    return Err(malformed("Missing or invalid 'busses' array"));
                },
            },
            None => {
                return Err(malformed("Missing or invalid 'busses' array"));
            },
        };
        let ghost items = j_busses@.map_values(|x: serde_json::Value| json_of(x));
        proof {
            let jc = json_field(json_of(*j_ir), "component"@);
            assert(jc == match j_component {
                Some(v) => Some(json_of(*v)),
                None => None,
            });
            assert(str_field(jc, "id"@) == Some(component_id@));
            assert(bus_entries(json_of(*j_ir)) is Some);
            assert(items =~= bus_entries(json_of(*j_ir))->Some_0);
        }
        let mut i: usize = 0;
        assert(items.subrange(0, 0) =~= Seq::<JsonView>::empty());
        while i < j_busses.len()
            invariant
                items == j_busses@.map_values(|x: serde_json::Value| json_of(x)),
                bus_entries(json_of(*j_ir)) == Some(items),
                str_field(json_field(json_of(*j_ir), "component"@), "id"@) == Some(component_id@),
                i <= j_busses@.len(),
                component.wf(),
                component.id@ == component_id@,
                component.rules().len() == 0,
                pass_one(items.subrange(0, i as int)) == Ok::<Seq<BusView>, ErrorKind>(
                    component.env(),
                ),
            decreases j_busses@.len() - i,
        {
            let j_bus = &j_busses[i];
            assert(items.subrange(0, i + 1).drop_last() =~= items.subrange(0, i as int));
            let bus_id = match json_get(j_bus, "id") {
                Some(v) => match v.as_str() {
                    Some(s) => s,
                    None => {
                        proof {
                            assert(json_of(*j_bus) == items[i as int]);
                            assert(items.subrange(0, i + 1).last() == items[i as int]);
                            assert(pass_one(items.subrange(0, i + 1)) is Err);
                            lemma_pass_one_err(items, i + 1);
                            assert(pass_one(items) is Err);
                        }
                        return Err(malformed("Missing 'id' in bus"));
                    },
                },
                None => {
                    proof {
                        lemma_pass_one_err(items, i + 1);
                    }
                    return Err(malformed("Missing 'id' in bus"));
                },
            };
            let mut bit_bus = BitBus::new();
            bit_bus.set_id(bus_id.to_owned());
            match json_get(j_bus, "value") {
                Some(value) => {
                    let bit_value = match value.as_array() {
                        Some(arr) => {
                            proof {
                                assert(arr@.map_values(|x: serde_json::Value| json_of(x))
                                    =~= json_of(*value)->Array_0);
                            }
                            BitBusValue::new(Some(bools_from(arr)))
                        },
                        None => match value.as_str() {
                            Some(s) => match BitBusValue::from_string(s) {
                                Ok(b) => b,
                                Err(_) => BitBusValue::get_default(),
                            },
                            None => BitBusValue::get_default(),
                        },
                    };
                    bit_bus.value = bit_value;
                },
                None => {},
            }
            let ghost before = component.rules();
            component.add_bus(bus_id.to_owned(), bit_bus);
            proof {
                assert(bit_bus@.influences =~= Seq::<usize>::empty());
                assert(component.rules() == before);
            }
            i = i + 1;
        }
        assert(items.subrange(0, i as int) =~= items);
        let ghost e1 = component.env();
        let mut i: usize = 0;
        assert(items.subrange(0, 0) =~= Seq::<JsonView>::empty());
        assert(component.rules() =~= Seq::<(Seq<char>, ExprView)>::empty());
        while i < j_busses.len()
            invariant
                items == j_busses@.map_values(|x: serde_json::Value| json_of(x)),
                bus_entries(json_of(*j_ir)) == Some(items),
                str_field(json_field(json_of(*j_ir), "component"@), "id"@) == Some(component_id@),
                i <= j_busses@.len(),
                component.wf(),
                component.id@ == component_id@,
                pass_one(items) == Ok::<Seq<BusView>, ErrorKind>(e1),
                pass_two(e1, items.subrange(0, i as int)) == Ok::<
                    (Seq<BusView>, Seq<(Seq<char>, ExprView)>),
                    ErrorKind,
                >((component.env(), component.rules())),
            decreases j_busses@.len() - i,
        {
            assert(items.subrange(0, i + 1).drop_last() =~= items.subrange(0, i as int));
            let ghost env_i = component.env();
            let ghost rules_i = component.rules();
            let wired = self.wire_bus(&mut component, &j_busses[i]);
            if let Err(e) = wired {
                proof {
                    assert(json_of(j_busses@[i as int]) == items[i as int]);
                    assert(items.subrange(0, i + 1).last() == items[i as int]);
                    assert(pass_two(e1, items.subrange(0, i + 1)) == wire_entry(
                        env_i,
                        rules_i,
                        items[i as int],
                    ));
                    lemma_pass_two_err(e1, items, i + 1);
                }
                return Err(e);
            }
            proof {
                assert(json_of(j_busses@[i as int]) == items[i as int]);
                assert(items.subrange(0, i + 1).last() == items[i as int]);
            }
            i = i + 1;
        }
        assert(items.subrange(0, i as int) =~= items);
        Ok(component)
    }

    /// The second pass on one bus entry.
    fn wire_bus(&self, component: &mut Component, j_bus: &serde_json::Value) -> (r: Result<
        (),
        SimulationError,
    >)
        requires
            old(component).wf(),
        ensures
            final(component).wf(),
            final(component).id == old(component).id,
            match wire_entry(old(component).env(), old(component).rules(), json_of(*j_bus)) {
                Ok((env, rules)) => r is Ok && final(component).env() == env
                    && final(component).rules() == rules,
                Err(k) => r matches Err(x) && x.kind == k,
            },
    {
        let bus_id = match json_get(j_bus, "id") {
            Some(v) => match v.as_str() {
                Some(s) => s,
                None => {
                    return Err(malformed("Missing 'id' in bus"));
                },
            },
            None => {
                return Err(malformed("Missing 'id' in bus"));
            },
        };
        match json_get(j_bus, "assignment") {
            Some(a) => {
                if !a.is_null() {
                    let assignment = self.render_expr(a)?;
                    component.set_assignment(bus_id.to_owned(), assignment);
                }
            },
            None => {},
        }
        let ghost env0 = component.env();
        let ghost rules2 = component.rules();
        assert(env0 == old(component).env());
        assert(assigned_rules(old(component).rules(), bus_id@, json_of(*j_bus)) == Ok::<
            Seq<(Seq<char>, ExprView)>,
            ErrorKind,
        >(rules2));
        match json_get(j_bus, "influence_list") {
            Some(v) => match v.as_array() {
                Some(list) => {
                    let ghost ts = list@.map_values(|x: serde_json::Value| json_of(x));
                    proof {
                        assert(ts =~= json_of(*v)->Array_0);
                    }
                    let mut k: usize = 0;
                    assert(ts.subrange(0, 0) =~= Seq::<JsonView>::empty());
                    while k < list.len()
                        invariant
                            ts == list@.map_values(|x: serde_json::Value| json_of(x)),
                            k <= list@.len(),
                            component.wf(),
                            component.id == old(component).id,
                            component.rules() == rules2,
                            env0 == old(component).env(),
                            assigned_rules(old(component).rules(), bus_id@, json_of(*j_bus)) == Ok::<
                                Seq<(Seq<char>, ExprView)>,
                                ErrorKind,
                            >(rules2),
                            str_field(Some(json_of(*j_bus)), "id"@) == Some(bus_id@),
                            json_field(json_of(*j_bus), "influence_list"@) == Some(JsonView::Array(ts)),
                            influences_added(env0, bus_id@, ts.subrange(0, k as int)) == Ok::<
                                Seq<BusView>,
                                ErrorKind,
                            >(component.env()),
                        decreases list@.len() - k,
                    {
                        assert(ts.subrange(0, k + 1).drop_last() =~= ts.subrange(0, k as int));
                        if let Some(target) = list[k].as_str() {
                            match component.add_influence(bus_id, target) {
                                Ok(()) => {},
                                Err(e) => {
                                    proof {
                                        assert(ts.subrange(0, k + 1).last() == ts[k as int]);
                                        lemma_influences_err(env0, bus_id@, ts, k + 1);
                                    }
                                    let mut msg = String::from_str("Failed to add influence: ");
                                    msg.append(e.message());
                                    return Err(
                                        SimulationError::new(
                                            ErrorKind::UnknownBusReferenceInInfluenceList,
                                            msg,
                                        ),
                                    );
                                },
                            }
                        }
                        k = k + 1;
                    }
                    assert(ts.subrange(0, k as int) =~= ts);
                },
                None => {},
            },
            None => {},
        }
        Ok(())
    }

    /// The rendered component, if rendering succeeded and it was not taken.
    pub fn get_component(&self) -> (r: Option<&Component>)
        ensures
            r is Some <==> self.component is Some,
            r matches Some(c) ==> *c == self.component->Some_0,
    {
        self.component.as_ref()
    }

    pub fn get_component_mut(&mut self) -> (r: Option<&mut Component>)
        ensures
            r is Some <==> old(self).component is Some,
            r matches Some(c) ==> *c == old(self).component->Some_0 && final(self).component
                == Some(*final(c)),
            r is None ==> final(self).component is None,
    {
        self.component.as_mut()
    }

    /// Compiles one expression node.
    pub fn render_expr(&self, j_expr: &serde_json::Value) -> (r: Result<Expr, SimulationError>)
        ensures
            match compiled_expr(json_of(*j_expr)) {
                Ok(e) => r matches Ok(x) && x@ == e,
                Err(k) => r matches Err(x) && x.kind == k,
            },
        decreases json_of(*j_expr), 1nat,
    {
        let ghost j = json_of(*j_expr);
        let ty = match json_get(j_expr, "type") {
            Some(t) => match t.as_str() {
                Some(s) => s,
                None => {
                    return Err(malformed("Missing or invalid 'type' field"));
                },
            },
            None => {
                return Err(malformed("Missing or invalid 'type' field"));
            },
        };
        let args = json_get(j_expr, "args");
        if same_text(ty, "const") {
            let b = const_value(get_in(args, "value"))?;
            Ok(Expr::Const(Const::new(b)))
        } else if same_text(ty, "bus_ref") {
            match get_in(args, "id") {
                Some(v) => match v.as_str() {
                    Some(id) => Ok(Expr::BusRef(BusRef::new(id.to_owned()))),
                    None => Err(malformed("Missing 'id' in bus_ref expression")),
                },
                None => Err(malformed("Missing 'id' in bus_ref expression")),
            }
        } else if same_text(ty, "not") {
            match get_in(args, "expr") {
                None => Err(malformed("Missing 'expr' in not expression")),
                Some(x) => {
                    proof {
                        lemma_field_decreases(j, "args"@);
                        lemma_field_decreases(json_field(j, "args"@)->Some_0, "expr"@);
                    }
                    let e = self.render_expr(x)?;
                    Ok(Expr::Not(Not::new(Box::new(e))))
                },
            }
        } else if same_text(ty, "and") || same_text(ty, "or") || same_text(ty, "xor") || same_text(
            ty,
            "nand",
        ) || same_text(ty, "nor") || same_text(ty, "xnor") {
            let (l, r) = self.render_binary(j_expr)?;
            let l = Box::new(l);
            let r = Box::new(r);
            if same_text(ty, "and") {
                Ok(Expr::And(And::new(l, r)))
            } else if same_text(ty, "or") {
                Ok(Expr::Or(Or::new(l, r)))
            } else if same_text(ty, "xor") {
                Ok(Expr::Xor(Xor::new(l, r)))
            } else if same_text(ty, "nand") {
                Ok(Expr::Nand(Nand::new(l, r)))
            } else if same_text(ty, "nor") {
                Ok(Expr::Nor(Nor::new(l, r)))
            } else {
                Ok(Expr::Xnor(Xnor::new(l, r)))
            }
        } else {
            let mut msg = String::from_str("Unknown expression type: ");
            msg.append(ty);
            Err(SimulationError::new(ErrorKind::UnknownExpressionType, msg))
        }
    }

    /// Compiles the two operands of a binary node, left first.
    fn render_binary(&self, j_expr: &serde_json::Value) -> (r: Result<(Expr, Expr), SimulationError>)
        ensures
            match binary_parts(json_of(*j_expr)) {
                Ok((l, re)) => r matches Ok((x, y)) && x@ == l && y@ == re,
                Err(k) => r matches Err(x) && x.kind == k,
            },
        decreases json_of(*j_expr), 0nat,
    {
        let ghost j = json_of(*j_expr);
        let args = match json_get(j_expr, "args") {
            Some(a) => a,
            None => {
                return Err(malformed("Missing 'args' in binary expression"));
            },
        };
        proof {
            lemma_field_decreases(j, "args"@);
        }
        let l = match json_get(args, "l_expr") {
            Some(x) => {
                proof {
                    lemma_field_decreases(json_of(*args), "l_expr"@);
                }
                self.render_expr(x)?
            },
            None => {
                return Err(malformed("Missing 'l_expr'"));
            },
        };
        let r = match json_get(args, "r_expr") {
            Some(x) => {
                proof {
                    lemma_field_decreases(json_of(*args), "r_expr"@);
                }
                self.render_expr(x)?
            },
            None => {
                return Err(malformed("Missing 'r_expr'"));
            },
        };
        Ok((l, r))
    }
}

} // verus!
