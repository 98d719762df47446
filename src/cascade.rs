use vstd::prelude::*;
use crate::eval::{call_free, eval, eval_spec, is_number, Functions};
use crate::node::NodeValue;
use crate::style::{Ident, Matcher, MatcherStep, Rule, Value as Literal, ValueType};
use crate::value::{
    as_map, find_key, keys_unique, lookup, set_key, str_eq, view_map, Rect, Value, ValueView,
};

verus! {

/// What the matcher of a rule sees of a node: its kind and name, and its properties.
pub struct Scope {
    pub value: NodeValue,
    pub properties: Vec<(String, Value)>,
}

impl Scope {
    pub open spec fn wf(&self) -> bool {
        keys_unique(self.properties@)
    }
}

/// What a matcher sees of a node: its kind and name, and its properties.
pub type ScopeView = (NodeValue, Seq<(String, Value)>);

pub open spec fn scopes_view(scopes: Seq<Scope>) -> Seq<ScopeView> {
    scopes.map_values(|sc: Scope| (sc.value, sc.properties@))
}

pub open spec fn scopes_wf(scopes: Seq<Scope>) -> bool {
    forall|k: int| 0 <= k < scopes.len() ==> (#[trigger] scopes[k]).wf()
}

/// `@text` matches text; a name matches the element of that name.
pub open spec fn type_matches(m: Matcher, v: NodeValue) -> bool {
    match m {
        Matcher::Text => v is Text,
        Matcher::Element(e) => v matches NodeValue::Element(n) && n@ == e.name.name@,
    }
}

/// A literal predicate holds of a property value of the same kind and equal content.
/// Float literals are kept as text and match no value.
pub open spec fn literal_matches(lit: Literal, v: Value) -> bool {
    match (lit, v) {
        (Literal::Boolean(a), Value::Boolean(b)) => a == b,
        (Literal::Integer(a), Value::Integer(b)) => a == b,
        (Literal::String(a), Value::String(b)) => a@ == b@,
        _ => false,
    }
}

/// Checks a matcher's predicates against a node's properties, in order: a missing
/// property fails, a variable binds the property's value, a literal must match it.
pub open spec fn bind_predicates(
    preds: Seq<(Ident, ValueType)>,
    props: Seq<(String, Value)>,
    env: Map<Seq<char>, Value>,
) -> Option<Map<Seq<char>, Value>>
    decreases preds.len(),
{
    if preds.len() == 0 {
        Some(env)
    } else {
        let (id, vt) = preds[0];
        match lookup(props, id.name@) {
            None => None,
            Some(pv) => match vt.value {
                Literal::Variable(x) => bind_predicates(preds.drop_first(), props, env.insert(x.name@, pv)),
                lit => if literal_matches(lit, pv) {
                    bind_predicates(preds.drop_first(), props, env)
                } else {
                    None
                },
            },
        }
    }
}

/// Matches a chain against a node and its ancestors (`scopes`, outermost first, the
/// node last): the last matcher against the node, each earlier one a step further up.
/// Gives the variables bound on the way.
pub open spec fn chain_env(
    matchers: Seq<MatcherStep>,
    scopes: Seq<ScopeView>,
    env: Map<Seq<char>, Value>,
) -> Option<Map<Seq<char>, Value>>
    decreases matchers.len(),
{
    if matchers.len() == 0 {
        Some(env)
    } else if scopes.len() == 0 {
        None
    } else {
        let m = matchers.last();
        let sc = scopes.last();
        if !type_matches(m.matcher, sc.0) {
            None
        } else {
            match bind_predicates(m.predicates@, sc.1, env) {
                None => None,
                Some(e2) => chain_env(matchers.drop_last(), scopes.drop_last(), e2),
            }
        }
    }
}

/// Whether a property may take a value: the scroll offsets take numbers,
/// `clip_overflow` a boolean, any other property anything.
pub open spec fn accepts(k: Seq<char>, v: ValueView) -> bool {
    if k == "scroll_x"@ || k == "scroll_y"@ {
        is_number(v)
    } else if k == "clip_overflow"@ {
        v is Boolean
    } else {
        true
    }
}

/// Applies a rule's properties in order: a property already set keeps its value;
/// otherwise it takes the expression's value where that evaluates and is accepted.
pub open spec fn apply_styles(
    acc: Map<Seq<char>, ValueView>,
    styles: Seq<(Ident, crate::style::ExprType)>,
    env: Map<Seq<char>, Value>,
    rect: Rect,
) -> Map<Seq<char>, ValueView>
    decreases styles.len(),
{
    if styles.len() == 0 {
        acc
    } else {
        let k = styles[0].0.name@;
        let next = if acc.contains_key(k) {
            acc
        } else {
            match eval_spec(styles[0].1, env, rect) {
                Ok(v) => if accepts(k, v) {
                    acc.insert(k, v)
                } else {
                    acc
                },
                Err(_) => acc,
            }
        };
        apply_styles(next, styles.drop_first(), env, rect)
    }
}

/// One rule's effect: where its chain matches, its properties apply.
pub open spec fn apply_rule(acc: Map<Seq<char>, ValueView>, rule: Rule, scopes: Seq<ScopeView>, rect: Rect) -> Map<
    Seq<char>,
    ValueView,
> {
    match chain_env(rule.matchers@, scopes, Map::empty()) {
        Some(env) => apply_styles(acc, rule.styles@, env, rect),
        None => acc,
    }
}

/// The values that rules give a node, taken in the order given (the first to set a
/// property wins).
pub open spec fn cascade_spec(rules: Seq<Rule>, scopes: Seq<ScopeView>, rect: Rect) -> Map<Seq<char>, ValueView>
    decreases rules.len(),
{
    if rules.len() == 0 {
        Map::empty()
    } else {
        apply_rule(cascade_spec(rules.drop_last(), scopes, rect), rules.last(), scopes, rect)
    }
}

pub open spec fn deref_rules(rules: Seq<&Rule>) -> Seq<Rule> {
    rules.map_values(|r: &Rule| *r)
}

pub open spec fn rule_call_free(rule: Rule) -> bool {
    forall|k: int| 0 <= k < rule.styles@.len() ==> call_free(#[trigger] rule.styles@[k].1)
}

pub open spec fn rules_call_free(rules: Seq<Rule>) -> bool {
    forall|k: int| 0 <= k < rules.len() ==> rule_call_free(#[trigger] rules[k])
}

fn type_matches_exec(m: &Matcher, v: &NodeValue) -> (r: bool)
    ensures
        r == type_matches(*m, *v),
{
    match m {
        Matcher::Text => match v {
            NodeValue::Text(_) => true,
            NodeValue::Element(_) => false,
        },
        Matcher::Element(e) => match v {
            NodeValue::Element(n) => str_eq(n.as_str(), e.name.name.as_str()),
            NodeValue::Text(_) => false,
        },
    }
}

fn literal_matches_exec(lit: &Literal, v: &Value) -> (r: bool)
    ensures
        r == literal_matches(*lit, *v),
{
    match (lit, v) {
        (Literal::Boolean(a), Value::Boolean(b)) => *a == *b,
        (Literal::Integer(a), Value::Integer(b)) => *a == *b,
        (Literal::String(a), Value::String(b)) => str_eq(a.as_str(), b.as_str()),
        _ => false,
    }
}

/// Checks predicates against a node's properties, binding into `env`.
pub(crate) fn bind(preds: &Vec<(Ident, ValueType)>, props: &Vec<(String, Value)>, env: &mut Vec<(String, Value)>) -> (r: bool)
    requires
        keys_unique(props@),
        keys_unique(old(env)@),
    ensures
        keys_unique(final(env)@),
        r == bind_predicates(preds@, props@, as_map(old(env)@)) is Some,
        r ==> bind_predicates(preds@, props@, as_map(old(env)@)) == Some(as_map(final(env)@)),
{
    let mut k: usize = 0;
    assert(preds@.subrange(0, preds@.len() as int) =~= preds@);
    while k < preds.len()
        invariant
            k <= preds@.len(),
            keys_unique(props@),
            keys_unique(env@),
            bind_predicates(preds@, props@, as_map(old(env)@)) == bind_predicates(
                preds@.subrange(k as int, preds@.len() as int),
                props@,
                as_map(env@),
            ),
        decreases preds@.len() - k,
    {
        let ghost rest = preds@.subrange(k as int, preds@.len() as int);
        assert(rest.drop_first() =~= preds@.subrange(k + 1, preds@.len() as int));
        let (id, vt) = &preds[k];
        let i = match find_key(props, id.name.as_str()) {
            Some(i) => i,
            None => {
                return false;
            },
        };
        let pv = &props[i].1;
        match &vt.value {
            Literal::Variable(x) => {
                set_key(env, x.name.clone(), pv.duplicate());
            },
            lit => {
                if !literal_matches_exec(lit, pv) {
                    return false;
                }
            },
        }
        k += 1;
    }
    assert(preds@.subrange(k as int, preds@.len() as int).len() == 0);
    true
}

/// Matches a rule's chain against a node and its ancestors; gives the bindings.
pub(crate) fn match_chain(matchers: &Vec<MatcherStep>, scopes: &Vec<Scope>) -> (r: Option<Vec<(String, Value)>>)
    requires
        scopes_wf(scopes@),
    ensures
        match r {
            Some(env) => keys_unique(env@) && chain_env(matchers@, scopes_view(scopes@), Map::empty()) == Some(as_map(env@)),
            None => chain_env(matchers@, scopes_view(scopes@), Map::empty()) is None,
        },
{
    let mut env: Vec<(String, Value)> = Vec::new();
    assert(as_map(env@) =~= Map::empty());
    let mut m = matchers.len();
    let mut s = scopes.len();
    assert(matchers@.subrange(0, m as int) =~= matchers@);
    assert(scopes_view(scopes@).subrange(0, s as int) =~= scopes_view(scopes@));
    while m > 0
        invariant
            m <= matchers@.len(),
            s <= scopes@.len(),
            scopes_wf(scopes@),
            keys_unique(env@),
            chain_env(matchers@, scopes_view(scopes@), Map::empty()) == chain_env(
                matchers@.subrange(0, m as int),
                scopes_view(scopes@).subrange(0, s as int),
                as_map(env@),
            ),
        decreases m,
    {
        let ghost ms = matchers@.subrange(0, m as int);
        let ghost ss = scopes_view(scopes@).subrange(0, s as int);
        if s == 0 {
            return None;
        }
        assert(ms.drop_last() =~= matchers@.subrange(0, m - 1));
        assert(ss.drop_last() =~= scopes_view(scopes@).subrange(0, s - 1));
        let step = &matchers[m - 1];
        let scope = &scopes[s - 1];
        if !type_matches_exec(&step.matcher, &scope.value) {
            return None;
        }
        if !bind(&step.predicates, &scope.properties, &mut env) {
            return None;
        }
        m -= 1;
        s -= 1;
    }
    Some(env)
}

fn accepts_exec(k: &str, v: &Value) -> (r: bool)
    ensures
        r == accepts(k@, v@),
{
    if str_eq(k, "scroll_x") || str_eq(k, "scroll_y") {
        match v {
            Value::Integer(_) => true,
            Value::Float(_) => true,
            _ => false,
        }
    } else if str_eq(k, "clip_overflow") {
        match v {
            Value::Boolean(_) => true,
            _ => false,
        }
    } else {
        true
    }
}

pub open spec fn styles_call_free(styles: Seq<(Ident, crate::style::ExprType)>) -> bool {
    forall|k: int| 0 <= k < styles.len() ==> call_free(#[trigger] styles[k].1)
}

/// Applies a rule's properties to `vars`; see [`apply_styles`].
pub(crate) fn apply_rule_styles(
    vars: &mut Vec<(String, Value)>,
    styles: &Vec<(Ident, crate::style::ExprType)>,
    env: &Vec<(String, Value)>,
    rect: Rect,
    funcs: &Functions,
)
    requires
        keys_unique(old(vars)@),
        keys_unique(env@),
    ensures
        keys_unique(final(vars)@),
        styles_call_free(styles@) ==> view_map(final(vars)@) == apply_styles(
            view_map(old(vars)@),
            styles@,
            as_map(env@),
            rect,
        ),
{
    let mut k: usize = 0;
    assert(styles@.subrange(0, styles@.len() as int) =~= styles@);
    while k < styles.len()
        invariant
            k <= styles@.len(),
            keys_unique(vars@),
            keys_unique(env@),
            styles_call_free(styles@) ==> apply_styles(view_map(old(vars)@), styles@, as_map(env@), rect)
                == apply_styles(view_map(vars@), styles@.subrange(k as int, styles@.len() as int), as_map(env@), rect),
        decreases styles@.len() - k,
    {
        let ghost rest = styles@.subrange(k as int, styles@.len() as int);
        assert(rest.drop_first() =~= styles@.subrange(k + 1, styles@.len() as int));
        let (id, e) = &styles[k];
        let key = id.name.as_str();
        if find_key(vars, key).is_none() {
            match eval(e, env, rect, funcs) {
                Ok(v) => {
                    if accepts_exec(key, &v) {
                        set_key(vars, id.name.clone(), v);
                    }
                },
                Err(_) => {},
            }
        }
        k += 1;
    }
}

/// The values that the rules give a node with the given ancestry, the rules taken
/// in the order given; see [`cascade_spec`].
pub(crate) fn cascade(
    rules: &Vec<&Rule>,
    scopes: &Vec<Scope>,
    rect: Rect,
    funcs: &Functions,
) -> (vars: Vec<(String, Value)>)
    requires
        scopes_wf(scopes@),
    ensures
        keys_unique(vars@),
        rules_call_free(deref_rules(rules@)) ==> view_map(vars@) == cascade_spec(deref_rules(rules@), scopes_view(scopes@), rect),
{
    let mut vars: Vec<(String, Value)> = Vec::new();
    assert(view_map(vars@) =~= Map::empty());
    let mut i: usize = 0;
    while i < rules.len()
        invariant
            i <= rules@.len(),
            scopes_wf(scopes@),
            keys_unique(vars@),
            rules_call_free(deref_rules(rules@)) ==> view_map(vars@) == cascade_spec(
                deref_rules(rules@).subrange(0, i as int),
                scopes_view(scopes@),
                rect,
            ),
        decreases rules@.len() - i,
    {
        assert(deref_rules(rules@).subrange(0, i + 1).drop_last() =~= deref_rules(rules@).subrange(0, i as int));
        let rule = rules[i];
        assert(rules_call_free(deref_rules(rules@)) ==> rule_call_free(deref_rules(rules@)[i as int]));
        if let Some(env) = match_chain(&rule.matchers, scopes) {
            apply_rule_styles(&mut vars, &rule.styles, &env, rect, funcs);
        }
        i += 1;
    }
    assert(deref_rules(rules@).subrange(0, rules@.len() as int) =~= deref_rules(rules@));
    vars
}

/// The value that a rule's properties give `k` under the bindings: the first
/// property of that name whose expression evaluates to an accepted value.
pub open spec fn styles_value(
    styles: Seq<(Ident, crate::style::ExprType)>,
    env: Map<Seq<char>, Value>,
    rect: Rect,
    k: Seq<char>,
) -> Option<ValueView>
    decreases styles.len(),
{
    if styles.len() == 0 {
        None
    } else {
        let here = if styles[0].0.name@ == k {
            match eval_spec(styles[0].1, env, rect) {
                Ok(v) => if accepts(k, v) {
                    Some(v)
                } else {
                    None
                },
                Err(_) => None,
            }
        } else {
            None
        };
        if here is Some {
            here
        } else {
            styles_value(styles.drop_first(), env, rect, k)
        }
    }
}

/// The value that a rule gives `k` for a node: none where its chain does not match.
pub open spec fn provides(rule: Rule, scopes: Seq<ScopeView>, rect: Rect, k: Seq<char>) -> Option<ValueView> {
    match chain_env(rule.matchers@, scopes, Map::empty()) {
        Some(env) => styles_value(rule.styles@, env, rect, k),
        None => None,
    }
}

/// The value that the first rule (in the order given) to provide `k` gives it.
pub open spec fn first_provider(rules: Seq<Rule>, scopes: Seq<ScopeView>, rect: Rect, k: Seq<char>) -> Option<ValueView>
    decreases rules.len(),
{
    if rules.len() == 0 {
        None
    } else {
        match provides(rules[0], scopes, rect, k) {
            Some(v) => Some(v),
            None => first_provider(rules.drop_first(), scopes, rect, k),
        }
    }
}

pub open spec fn as_option(m: Map<Seq<char>, ValueView>, k: Seq<char>) -> Option<ValueView> {
    if m.contains_key(k) {
        Some(m[k])
    } else {
        None
    }
}

proof fn lemma_apply_styles(
    acc: Map<Seq<char>, ValueView>,
    styles: Seq<(Ident, crate::style::ExprType)>,
    env: Map<Seq<char>, Value>,
    rect: Rect,
    k: Seq<char>,
)
    ensures
        as_option(apply_styles(acc, styles, env, rect), k) == if acc.contains_key(k) {
            Some(acc[k])
        } else {
            styles_value(styles, env, rect, k)
        },
    decreases styles.len(),
{
    if styles.len() > 0 {
        let k0 = styles[0].0.name@;
        let next = if acc.contains_key(k0) {
            acc
        } else {
            match eval_spec(styles[0].1, env, rect) {
                Ok(v) => if accepts(k0, v) {
                    acc.insert(k0, v)
                } else {
                    acc
                },
                Err(_) => acc,
            }
        };
        lemma_apply_styles(next, styles.drop_first(), env, rect, k);
    }
}

proof fn lemma_first_provider_push(rules: Seq<Rule>, x: Rule, scopes: Seq<ScopeView>, rect: Rect, k: Seq<char>)
    ensures
        first_provider(rules.push(x), scopes, rect, k) == match first_provider(rules, scopes, rect, k) {
            Some(v) => Some(v),
            None => provides(x, scopes, rect, k),
        },
    decreases rules.len(),
{
    if rules.len() == 0 {
        assert(rules.push(x).drop_first() =~= Seq::<Rule>::empty());
    } else {
        assert(rules.push(x).drop_first() =~= rules.drop_first().push(x));
        lemma_first_provider_push(rules.drop_first(), x, scopes, rect, k);
    }
}

/// First wins: a node's value for a property is the one given by the first rule,
/// in the order the rules are tried, that matches the node and gives the property a
/// value; the property is unset where no rule does.
pub proof fn lemma_cascade_first_wins(rules: Seq<Rule>, scopes: Seq<ScopeView>, rect: Rect, k: Seq<char>)
    ensures
        as_option(cascade_spec(rules, scopes, rect), k) == first_provider(rules, scopes, rect, k),
    decreases rules.len(),
{
    if rules.len() > 0 {
        let prev = rules.drop_last();
        lemma_cascade_first_wins(prev, scopes, rect, k);
        assert(prev.push(rules.last()) =~= rules);
        lemma_first_provider_push(prev, rules.last(), scopes, rect, k);
        let acc = cascade_spec(prev, scopes, rect);
        match chain_env(rules.last().matchers@, scopes, Map::empty()) {
            Some(env) => lemma_apply_styles(acc, rules.last().styles@, env, rect, k),
            None => {},
        }
    }
}

/// Rules tried earlier take precedence over all rules tried after them.
pub proof fn lemma_first_provider_concat(a: Seq<Rule>, b: Seq<Rule>, scopes: Seq<ScopeView>, rect: Rect, k: Seq<char>)
    ensures
        first_provider(a + b, scopes, rect, k) == match first_provider(a, scopes, rect, k) {
            Some(v) => Some(v),
            None => first_provider(b, scopes, rect, k),
        },
    decreases a.len(),
{
    if a.len() > 0 {
        assert((a + b).drop_first() =~= a.drop_first() + b);
        lemma_first_provider_concat(a.drop_first(), b, scopes, rect, k);
    } else {
        assert(a + b =~= b);
    }
}

} // verus!
