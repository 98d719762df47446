//! Searching the tree for nodes by name, kind and property, optionally only
//! those drawn at a point.
use vstd::prelude::*;
use crate::manager::Manager;
use crate::position::{path_nodes, render_position_spec};
use crate::node::{Node, NodeValue};
use crate::value::{find_key, lookup, str_eq, Rect, Value};

verus! {

/// How a property is compared with a value.
#[derive(Debug, Clone, Copy, PartialEq, Eq, Structural)]
pub enum Compare {
    Equal,
    Less,
    LessEqual,
    Greater,
    GreaterEqual,
}

/// One step of a query.
#[derive(Debug, Clone)]
pub enum QueryRule {
    /// Keeps the elements of this name.
    Name(String),
    /// Keeps the text nodes.
    Text,
    /// Keeps the nodes whose property compares so with the value.
    Property(String, Compare, Value),
    /// Moves to the children of the nodes kept.
    Child,
    /// Moves to everything below the nodes kept.
    Descendant,
}

/// A point that matching nodes must be drawn over.
#[derive(Debug, Clone, Copy, PartialEq, Eq, Structural)]
pub struct AtLocation {
    pub x: i32,
    pub y: i32,
}

/// A search from the root of a manager: its steps in order, and an optional point.
#[derive(Debug, Clone)]
pub struct Query {
    pub rules: Vec<QueryRule>,
    pub location: Option<AtLocation>,
}

/// The order of two integers for a comparison.
pub open spec fn compare_ints(a: i32, cmp: Compare, b: i32) -> bool {
    match cmp {
        Compare::Equal => a == b,
        Compare::Less => a < b,
        Compare::LessEqual => a <= b,
        Compare::Greater => a > b,
        Compare::GreaterEqual => a >= b,
    }
}

/// Equality holds of equal values; the orders only of two integers.
pub open spec fn property_holds(v: Option<Value>, cmp: Compare, target: Value) -> bool {
    match v {
        None => false,
        Some(p) => match cmp {
            Compare::Equal => crate::value::value_eq(p, target),
            _ => match (p, target) {
                (Value::Integer(a), Value::Integer(b)) => compare_ints(a, cmp, b),
                _ => false,
            },
        },
    }
}

/// Whether a node passes a filtering step; moving steps pass every node.
pub open spec fn rule_holds(n: Node, rule: QueryRule) -> bool {
    match rule {
        QueryRule::Name(name) => n.value matches NodeValue::Element(e) && e@ == name@,
        QueryRule::Text => n.value is Text,
        QueryRule::Property(k, cmp, v) => property_holds(lookup(n.properties@, k@), cmp, v),
        QueryRule::Child => true,
        QueryRule::Descendant => true,
    }
}

pub open spec fn rect_contains(r: Rect, x: i32, y: i32) -> bool {
    r.x <= x < r.x + r.width && r.y <= y < r.y + r.height
}

/// The node at the end of a path.
pub open spec fn node_at(root: Node, path: Seq<usize>) -> Option<Node> {
    match path_nodes(root, path) {
        Some(ns) => Some(ns.last()),
        None => None,
    }
}

impl Query {
    pub fn new() -> (r: Query)
        ensures
            r.rules@.len() == 0,
            r.location is None,
    {
        Query { rules: Vec::new(), location: None }
    }

    fn with_rule(self, rule: QueryRule) -> (r: Query)
        ensures
            r.rules@ == self.rules@.push(rule),
            r.location == self.location,
    {
        let mut q = self;
        q.rules.push(rule);
        q
    }

    /// Keeps the elements named `name`.
    pub fn name(self, name: &str) -> (r: Query)
        ensures
            r.rules@.len() == self.rules@.len() + 1,
            r.rules@.last() matches QueryRule::Name(n) && n@ == name@,
            r.location == self.location,
    {
        self.with_rule(QueryRule::Name(String::from_str(name)))
    }

    /// Keeps the text nodes.
    pub fn text(self) -> (r: Query)
        ensures
            r.rules@ == self.rules@.push(QueryRule::Text),
            r.location == self.location,
    {
        self.with_rule(QueryRule::Text)
    }

    /// Keeps the nodes whose property `key` compares so with `value`.
    pub fn property(self, key: &str, cmp: Compare, value: Value) -> (r: Query)
        ensures
            r.rules@.len() == self.rules@.len() + 1,
            r.rules@.last() matches QueryRule::Property(k, c, v) && k@ == key@ && c == cmp && v == value,
            r.location == self.location,
    {
        self.with_rule(QueryRule::Property(String::from_str(key), cmp, value))
    }

    /// Moves to the children of the nodes kept so far.
    pub fn child(self) -> (r: Query)
        ensures
            r.rules@ == self.rules@.push(QueryRule::Child),
            r.location == self.location,
    {
        self.with_rule(QueryRule::Child)
    }

    /// Moves to all the nodes below the nodes kept so far.
    pub fn descendant(self) -> (r: Query)
        ensures
            r.rules@ == self.rules@.push(QueryRule::Descendant),
            r.location == self.location,
    {
        self.with_rule(QueryRule::Descendant)
    }
}

/// Extending a path that reaches a node by the index of one of its children
/// reaches that child.
pub proof fn lemma_child_path(root: Node, path: Seq<usize>, i: usize)
    requires
        node_at(root, path) matches Some(n) && i < n.children@.len(),
    ensures
        node_at(root, path.push(i)) == Some(node_at(root, path).unwrap().children@[i as int]),
    decreases path.len(),
{
    if path.len() == 0 {
        assert(path.push(i).drop_first() =~= Seq::<usize>::empty());
        let c = root.children@[i as int];
        assert(path_nodes(c, Seq::<usize>::empty()) == Some(seq![c]));
        assert((seq![root] + seq![c]).last() == c);
    } else {
        let c = root.children@[path[0] as int];
        assert(path.push(i).drop_first() =~= path.drop_first().push(i));
        assert(path.push(i)[0] == path[0]);
        let rest = path_nodes(c, path.drop_first()).unwrap();
        assert((seq![root] + rest).last() == rest.last());
        lemma_child_path(c, path.drop_first(), i);
        let long = path_nodes(c, path.drop_first().push(i)).unwrap();
        assert((seq![root] + long).last() == long.last());
    }
}

/// A path that reaches a node through index `i` of its parent has `i` in range.
pub proof fn lemma_child_index(root: Node, path: Seq<usize>, i: usize)
    requires
        node_at(root, path.push(i)) is Some,
    ensures
        node_at(root, path) matches Some(n) && i < n.children@.len(),
{
    crate::position::lemma_parent_link(root, path, i);
}

/// Every node that a path reaches from a well-formed node is well-formed.
pub proof fn lemma_node_at_wf(root: Node, path: Seq<usize>)
    requires
        root.wf(),
        node_at(root, path) is Some,
    ensures
        node_at(root, path).unwrap().wf(),
    decreases path.len(),
{
    if path.len() > 0 {
        let c = root.children@[path[0] as int];
        let rest = path_nodes(c, path.drop_first()).unwrap();
        assert((seq![root] + rest).last() == rest.last());
        lemma_node_at_wf(c, path.drop_first());
    }
}

/// Every path reaches a node, and no path comes twice.
pub open spec fn paths_ok(root: Node, s: Seq<Vec<usize>>) -> bool {
    &&& forall|k: int| 0 <= k < s.len() ==> (#[trigger] node_at(root, s[k]@)) is Some
    &&& forall|a: int, b: int| 0 <= a < b < s.len() ==> s[a]@ != s[b]@
}

fn same_path(a: &Vec<usize>, b: &Vec<usize>) -> (r: bool)
    ensures
        r == (a@ == b@),
{
    if a.len() != b.len() {
        return false;
    }
    let mut i: usize = 0;
    while i < a.len()
        invariant
            a@.len() == b@.len(),
            i <= a@.len(),
            forall|j: int| 0 <= j < i ==> a@[j] == b@[j],
        decreases a@.len() - i,
    {
        if a[i] != b[i] {
            return false;
        }
        i += 1;
    }
    assert(a@ =~= b@);
    true
}

fn copy_path(p: &Vec<usize>) -> (r: Vec<usize>)
    ensures
        r@ == p@,
{
    let mut r: Vec<usize> = Vec::new();
    let mut k: usize = 0;
    while k < p.len()
        invariant
            k <= p@.len(),
            r@ == p@.subrange(0, k as int),
        decreases p@.len() - k,
    {
        r.push(p[k]);
        k += 1;
        assert(r@ =~= p@.subrange(0, k as int));
    }
    assert(p@.subrange(0, p@.len() as int) =~= p@);
    r
}

fn extended(p: &Vec<usize>, i: usize) -> (r: Vec<usize>)
    ensures
        r@ == p@.push(i),
{
    let mut r = copy_path(p);
    r.push(i);
    r
}

/// The path is among those found.
pub open spec fn covers(s: Seq<Vec<usize>>, q: Seq<usize>) -> bool {
    exists|j: int| 0 <= j < s.len() && (#[trigger] s[j])@ == q
}

proof fn lemma_covers_grow(a: Seq<Vec<usize>>, b: Seq<Vec<usize>>, q: Seq<usize>)
    requires
        a.len() <= b.len(),
        forall|k: int| 0 <= k < a.len() ==> b[k] == a[k],
        covers(a, q),
    ensures
        covers(b, q),
{
    let j = choose|j: int| 0 <= j < a.len() && (#[trigger] a[j])@ == q;
    assert(b[j] == a[j]);
}

/// The paths found, as a set.
pub open spec fn found(s: Seq<Vec<usize>>) -> Set<Seq<usize>> {
    Set::new(|q: Seq<usize>| covers(s, q))
}

/// The paths that one step of a query keeps or reaches from the paths `prev`.
pub open spec fn step_set(root: Node, prev: Set<Seq<usize>>, rule: QueryRule, location: Option<AtLocation>) -> Set<
    Seq<usize>,
> {
    Set::new(
        |q: Seq<usize>|
            match rule {
                QueryRule::Child => q.len() > 0 && prev.contains(q.drop_last()) && node_at(root, q) is Some
                    && enters_spec(root, q, location),
                QueryRule::Descendant => exists|k: int|
                    0 <= k < q.len() && #[trigger] prev.contains(q.subrange(0, k)) && descends(
                        root,
                        q.subrange(0, k),
                        q.subrange(k, q.len() as int),
                        location,
                    ),
                _ => prev.contains(q) && node_at(root, q) is Some && rule_holds(node_at(root, q).unwrap(), rule),
            },
    )
}

/// The paths that a query's steps reach from the root, each step applied in turn.
pub open spec fn query_set(root: Node, rules: Seq<QueryRule>, location: Option<AtLocation>) -> Set<Seq<usize>>
    decreases rules.len(),
{
    if rules.len() == 0 {
        set![Seq::<usize>::empty()]
    } else {
        step_set(root, query_set(root, rules.drop_last(), location), rules.last(), location)
    }
}

/// The paths that a query matches: those its steps reach; with a point, those of
/// them drawn over it.
pub open spec fn query_result(root: Node, rules: Seq<QueryRule>, location: Option<AtLocation>) -> Set<Seq<usize>> {
    match location {
        None => query_set(root, rules, location),
        Some(at) => query_set(root, rules, location).filter(
            |q: Seq<usize>| render_position_spec(root, q) matches Some(r) && rect_contains(r, at.x, at.y),
        ),
    }
}

/// Whether a search with the optional point goes into the node at the path.
pub open spec fn enters_spec(root: Node, path: Seq<usize>, location: Option<AtLocation>) -> bool {
    match location {
        None => true,
        Some(at) => render_position_spec(root, path) matches Some(r) && rect_contains(r, at.x, at.y),
    }
}

/// Adds a path unless it is there already.
fn add_path(out: &mut Vec<Vec<usize>>, p: Vec<usize>, root: Ghost<Node>)
    requires
        paths_ok(root@, old(out)@),
        node_at(root@, p@) is Some,
    ensures
        paths_ok(root@, final(out)@),
        forall|k: int| 0 <= k < old(out)@.len() ==> final(out)@[k] == old(out)@[k],
        final(out)@.len() >= old(out)@.len(),
        forall|k: int| old(out)@.len() <= k < final(out)@.len() ==> final(out)@[k]@ == p@,
        covers(final(out)@, p@),
        forall|q: Seq<usize>| #[trigger] covers(final(out)@, q) ==> covers(old(out)@, q) || q == p@,
{
    let mut i: usize = 0;
    while i < out.len()
        invariant
            i <= out@.len(),
            out@ == old(out)@,
            paths_ok(root@, out@),
            forall|j: int| 0 <= j < i ==> out@[j]@ != p@,
        decreases out@.len() - i,
    {
        if same_path(&out[i], &p) {
            assert(out@[i as int]@ == p@);
            return;
        }
        i += 1;
    }
    let ghost before = out@;
    let ghost pv = p@;
    out.push(p);
    assert(out@[before.len() as int]@ == pv);
    assert forall|q: Seq<usize>| #[trigger] covers(out@, q) implies covers(before, q) || q == pv by {
        let j = choose|j: int| 0 <= j < out@.len() && (#[trigger] out@[j])@ == q;
        if j < before.len() {
            assert(out@[j] == before[j]);
        }
    }
    assert forall|k: int| 0 <= k < out@.len() implies (#[trigger] node_at(root@, out@[k]@)) is Some by {
        if k < before.len() {
            assert(out@[k] == before[k]);
        }
    }
    assert forall|a: int, b: int| 0 <= a < b < out@.len() implies out@[a]@ != out@[b]@ by {
        assert(out@[a] == before[a]);
        if b < before.len() {
            assert(out@[b] == before[b]);
        }
    }
}

/// The node at the end of a path.
fn find_node<'a>(root: &'a Node, p: &Vec<usize>) -> (r: Option<&'a Node>)
    ensures
        match r {
            Some(n) => node_at(*root, p@) == Some(*n),
            None => node_at(*root, p@) is None,
        },
{
    match root.path_to(p) {
        Some(v) => {
            let n = v[v.len() - 1];
            Some(n)
        },
        None => None,
    }
}

fn holds(n: &Node, rule: &QueryRule) -> (r: bool)
    requires
        n.wf(),
    ensures
        r == rule_holds(*n, *rule),
{
    match rule {
        QueryRule::Name(name) => match &n.value {
            NodeValue::Element(e) => str_eq(e.as_str(), name.as_str()),
            NodeValue::Text(_) => false,
        },
        QueryRule::Text => match &n.value {
            NodeValue::Text(_) => true,
            NodeValue::Element(_) => false,
        },
        QueryRule::Property(k, cmp, v) => match find_key(&n.properties, k.as_str()) {
            None => false,
            Some(i) => {
                let p = &n.properties[i].1;
                match cmp {
                    Compare::Equal => p.equals(v),
                    _ => match (p, v) {
                        (Value::Integer(a), Value::Integer(b)) => match cmp {
                            Compare::Less => *a < *b,
                            Compare::LessEqual => *a <= *b,
                            Compare::Greater => *a > *b,
                            Compare::GreaterEqual => *a >= *b,
                            Compare::Equal => *a == *b,
                        },
                        _ => false,
                    },
                }
            },
        },
        QueryRule::Child => true,
        QueryRule::Descendant => true,
    }
}

/// Going down from `p` by the indices `d` passes only nodes that exist and, with a
/// point, are drawn over it.
pub open spec fn descends(root: Node, p: Seq<usize>, d: Seq<usize>, location: Option<AtLocation>) -> bool
    decreases d.len(),
{
    if d.len() == 0 {
        true
    } else {
        descends(root, p, d.drop_last(), location) && node_at(root, p + d) is Some && enters_spec(root, p + d, location)
    }
}

proof fn lemma_descends_first(root: Node, p: Seq<usize>, i: usize, d: Seq<usize>, location: Option<AtLocation>)
    ensures
        descends(root, p, seq![i] + d, location) == (descends(root, p, seq![i], location) && descends(
            root,
            p.push(i),
            d,
            location,
        )),
    decreases d.len(),
{
    assert(p + (seq![i] + d) =~= p.push(i) + d);
    if d.len() == 0 {
        assert(seq![i] + d =~= seq![i]);
    } else {
        assert((seq![i] + d).drop_last() =~= seq![i] + d.drop_last());
        lemma_descends_first(root, p, i, d.drop_last(), location);
    }
}

proof fn lemma_descends_prefix(root: Node, p: Seq<usize>, d: Seq<usize>, j: int, location: Option<AtLocation>)
    requires
        descends(root, p, d, location),
        0 <= j <= d.len(),
    ensures
        descends(root, p, d.subrange(0, j), location),
    decreases d.len(),
{
    if j < d.len() {
        lemma_descends_prefix(root, p, d.drop_last(), j, location);
        assert(d.drop_last().subrange(0, j) =~= d.subrange(0, j));
    } else {
        assert(d.subrange(0, j) =~= d);
    }
}

/// Whether the search goes into the node at `path`: always without a point;
/// with one, where the node is drawn over it.
fn enters(m: &Manager, path: &Vec<usize>, location: Option<AtLocation>) -> (r: bool)
    ensures
        r == enters_spec(m.root, path@, location),
{
    match location {
        None => true,
        Some(at) => match m.render_position(path) {
            Some(rect) => contains_point(rect, at.x, at.y),
            None => false,
        },
    }
}

/// Adds the paths of everything below `node`, which `path` reaches, in document
/// order; with a point, only of the nodes drawn over it and not below any that is not.
fn add_descendants(
    m: &Manager,
    node: &Node,
    path: &Vec<usize>,
    location: Option<AtLocation>,
    out: &mut Vec<Vec<usize>>,
)
    requires
        node_at(m.root, path@) == Some(*node),
        paths_ok(m.root, old(out)@),
    ensures
        paths_ok(m.root, final(out)@),
        old(out)@.len() <= final(out)@.len(),
        forall|j: int| 0 <= j < old(out)@.len() ==> final(out)@[j] == old(out)@[j],
        forall|q: Seq<usize>| #[trigger] covers(final(out)@, q) ==> covers(old(out)@, q) || exists|d: Seq<usize>|
            d.len() > 0 && q == path@ + d && descends(m.root, path@, d, location),
        forall|d: Seq<usize>| d.len() > 0 && descends(m.root, path@, d, location) ==> #[trigger] covers(
            final(out)@,
            path@ + d,
        ),
    decreases *node,
{
    let root = &m.root;
    let ghost start = out@;
    let mut i: usize = 0;
    while i < node.children.len()
        invariant
            i <= node.children@.len(),
            *root == m.root,
            node_at(*root, path@) == Some(*node),
            paths_ok(*root, out@),
            start == old(out)@,
            start.len() <= out@.len(),
            forall|j: int| 0 <= j < start.len() ==> out@[j] == start[j],
            forall|q: Seq<usize>| #[trigger] covers(out@, q) ==> covers(start, q) || exists|d: Seq<usize>|
                d.len() > 0 && q == path@ + d && descends(m.root, path@, d, location),
            forall|d: Seq<usize>| d.len() > 0 && d[0] < i && descends(m.root, path@, d, location) ==> #[trigger] covers(
                out@,
                path@ + d,
            ),
        decreases node.children@.len() - i,
    {
        let p = extended(path, i);
        proof {
            lemma_child_path(*root, path@, i);
        }
        let ghost before = out@;
        let ghost one = seq![i];
        let ghost pv = p@;
        assert(path@ + one =~= pv);
        assert(one.drop_last() =~= Seq::<usize>::empty());
        assert(descends(m.root, path@, Seq::<usize>::empty(), location));
        assert(node_at(m.root, pv) is Some);
        if enters(m, &p, location) {
            let child_path = copy_path(&p);
            add_path(out, p, Ghost(*root));
            let ghost middle = out@;
            assert(descends(m.root, path@, one, location));
            let child = &node.children[i];
            assert(decreases_to!(*node => node.children@[i as int]));
            add_descendants(m, child, &child_path, location, out);
            proof {
                assert forall|q: Seq<usize>| #[trigger] covers(out@, q) implies covers(start, q) || exists|d: Seq<usize>|
                    d.len() > 0 && q == path@ + d && descends(m.root, path@, d, location) by {
                    if covers(middle, q) {
                        if covers(before, q) {
                        } else {
                            assert(q == path@ + one);
                        }
                    } else {
                        let d2 = choose|d2: Seq<usize>| d2.len() > 0 && q == child_path@ + d2 && descends(m.root, child_path@, d2, location);
                        lemma_descends_first(m.root, path@, i, d2, location);
                        assert(path@ + (one + d2) =~= child_path@ + d2);
                        assert((one + d2).len() > 0);
                    }
                }
                assert forall|d: Seq<usize>| d.len() > 0 && d[0] < i + 1 && descends(m.root, path@, d, location) implies #[trigger] covers(
                    out@,
                    path@ + d,
                ) by {
                    if d[0] < i {
                        lemma_covers_grow(before, middle, path@ + d);
                        lemma_covers_grow(middle, out@, path@ + d);
                    } else {
                        assert(d =~= seq![i] + d.drop_first());
                        lemma_descends_first(m.root, path@, i, d.drop_first(), location);
                        if d.len() == 1 {
                            assert(path@ + d =~= pv);
                            lemma_covers_grow(middle, out@, path@ + d);
                        } else {
                            assert(path@ + d =~= child_path@ + d.drop_first());
                        }
                    }
                }
            }
        } else {
            proof {
                assert forall|d: Seq<usize>| d.len() > 0 && d[0] < i + 1 && descends(m.root, path@, d, location) implies #[trigger] covers(
                    out@,
                    path@ + d,
                ) by {
                    if d[0] == i {
                        lemma_descends_prefix(m.root, path@, d, 1, location);
                        assert(d.subrange(0, 1) =~= one);
                    }
                }
            }
        }
        i += 1;
    }
    proof {
        assert forall|d: Seq<usize>| d.len() > 0 && descends(m.root, path@, d, location) implies #[trigger] covers(
            out@,
            path@ + d,
        ) by {
            lemma_descends_prefix(m.root, path@, d, 1, location);
            let first = d.subrange(0, 1);
            assert(first.drop_last() =~= Seq::<usize>::empty());
            assert(path@ + first =~= path@.push(d[0]));
            assert(node_at(m.root, path@.push(d[0])) is Some);
            lemma_child_index(m.root, path@, d[0]);
        }
    }
}

fn contains_point(r: Rect, x: i32, y: i32) -> (b: bool)
    ensures
        b == rect_contains(r, x, y),
{
    r.x <= x && (x as i64) < r.x as i64 + r.width as i64 && r.y <= y && (y as i64) < r.y as i64 + r.height as i64
}

/// One step of a query applied to the paths kept so far; see [`step_set`].
fn query_step(m: &Manager, set: &Vec<Vec<usize>>, rule: &QueryRule, location: Option<AtLocation>) -> (next: Vec<
    Vec<usize>,
>)
    requires
        m.wf(),
        paths_ok(m.root, set@),
    ensures
        paths_ok(m.root, next@),
        found(next@) == step_set(m.root, found(set@), *rule, location),
{
    let root = &m.root;
    let ghost prev = found(set@);
    let ghost target = step_set(m.root, prev, *rule, location);
    let mut next: Vec<Vec<usize>> = Vec::new();
    let mut k: usize = 0;
    while k < set.len()
        invariant
            k <= set@.len(),
            m.wf(),
            *root == m.root,
            root.wf(),
            paths_ok(*root, set@),
            paths_ok(*root, next@),
            prev == found(set@),
            target == step_set(m.root, prev, *rule, location),
            forall|q: Seq<usize>| #[trigger] covers(next@, q) ==> target.contains(q),
            !(*rule is Child) && !(*rule is Descendant) ==> forall|k2: int|
                0 <= k2 < k && node_at(m.root, (#[trigger] set@[k2])@) is Some && rule_holds(
                    node_at(m.root, set@[k2]@).unwrap(),
                    *rule,
                ) ==> covers(next@, set@[k2]@),
            *rule is Child ==> forall|k2: int, c: usize|
                0 <= k2 < k && c < node_at(m.root, set@[k2]@).unwrap().children@.len() && enters_spec(
                    m.root,
                    set@[k2]@.push(c),
                    location,
                ) ==> #[trigger] covers(next@, set@[k2]@.push(c)),
            *rule is Descendant ==> forall|k2: int, d: Seq<usize>|
                0 <= k2 < k && d.len() > 0 && descends(m.root, set@[k2]@, d, location) ==> #[trigger] covers(
                    next@,
                    set@[k2]@ + d,
                ),
        decreases set@.len() - k,
    {
        let ghost next0 = next@;
        let p = &set[k];
        assert(node_at(*root, set@[k as int]@) is Some);
        assert(prev.contains(p@));
        let n = find_node(root, p).unwrap();
        proof {
            lemma_node_at_wf(*root, p@);
        }
        match rule {
            QueryRule::Child => {
                let mut c: usize = 0;
                while c < n.children.len()
                    invariant
                        c <= n.children@.len(),
                        *root == m.root,
                        node_at(*root, p@) == Some(*n),
                        paths_ok(*root, next@),
                        *rule is Child,
                        prev.contains(p@),
                        target == step_set(m.root, prev, *rule, location),
                        forall|q: Seq<usize>| #[trigger] covers(next@, q) ==> target.contains(q),
                        next0.len() <= next@.len(),
                        forall|j: int| 0 <= j < next0.len() ==> next@[j] == next0[j],
                        forall|c2: usize| c2 < c && enters_spec(m.root, p@.push(c2), location) ==> #[trigger] covers(
                            next@,
                            p@.push(c2),
                        ),
                    decreases n.children@.len() - c,
                {
                    let q = extended(p, c);
                    proof {
                        lemma_child_path(*root, p@, c);
                    }
                    let ghost inner = next@;
                    let ghost qv = q@;
                    assert(qv.drop_last() =~= p@);
                    if enters(m, &q, location) {
                        assert(target.contains(qv));
                        add_path(&mut next, q, Ghost(*root));
                    }
                    proof {
                        assert forall|c2: usize| c2 < c + 1 && enters_spec(m.root, p@.push(c2), location) implies #[trigger] covers(
                            next@,
                            p@.push(c2),
                        ) by {
                            if c2 < c {
                                lemma_covers_grow(inner, next@, p@.push(c2));
                            }
                        }
                    }
                    c += 1;
                }
                proof {
                    assert forall|k2: int, c2: usize|
                        0 <= k2 < k + 1 && c2 < node_at(m.root, set@[k2]@).unwrap().children@.len() && enters_spec(
                            m.root,
                            set@[k2]@.push(c2),
                            location,
                        ) implies #[trigger] covers(next@, set@[k2]@.push(c2)) by {
                        if k2 < k {
                            lemma_covers_grow(next0, next@, set@[k2]@.push(c2));
                        }
                    }
                }
            },
            QueryRule::Descendant => {
                add_descendants(m, n, p, location, &mut next);
                proof {
                    assert forall|q: Seq<usize>| #[trigger] covers(next@, q) implies target.contains(q) by {
                        if !covers(next0, q) {
                            let d = choose|d: Seq<usize>| d.len() > 0 && q == p@ + d && descends(m.root, p@, d, location);
                            let kk = p@.len() as int;
                            assert(q.subrange(0, kk) =~= p@);
                            assert(q.subrange(kk, q.len() as int) =~= d);
                        }
                    }
                    assert forall|k2: int, d: Seq<usize>|
                        0 <= k2 < k + 1 && d.len() > 0 && descends(m.root, set@[k2]@, d, location) implies #[trigger] covers(
                            next@,
                            set@[k2]@ + d,
                        ) by {
                        if k2 < k {
                            lemma_covers_grow(next0, next@, set@[k2]@ + d);
                        }
                    }
                }
            },
            _ => {
                if holds(n, rule) {
                    assert(target.contains(p@));
                    add_path(&mut next, copy_path(p), Ghost(*root));
                }
                proof {
                    assert forall|k2: int|
                        0 <= k2 < k + 1 && node_at(m.root, (#[trigger] set@[k2])@) is Some && rule_holds(
                            node_at(m.root, set@[k2]@).unwrap(),
                            *rule,
                        ) implies covers(next@, set@[k2]@) by {
                        if k2 < k {
                            lemma_covers_grow(next0, next@, set@[k2]@);
                        }
                    }
                }
            },
        }
        k += 1;
    }
    proof {
        assert forall|q: Seq<usize>| target.contains(q) implies #[trigger] covers(next@, q) by {
            match *rule {
                QueryRule::Child => {
                    let kk = choose|kk: int| 0 <= kk < set@.len() && (#[trigger] set@[kk])@ == q.drop_last();
                    assert(q.drop_last().push(q.last()) =~= q);
                    lemma_child_index(m.root, q.drop_last(), q.last());
                },
                QueryRule::Descendant => {
                    let k0 = choose|k0: int|
                        0 <= k0 < q.len() && #[trigger] prev.contains(q.subrange(0, k0)) && descends(
                            m.root,
                            q.subrange(0, k0),
                            q.subrange(k0, q.len() as int),
                            location,
                        );
                    let kk = choose|kk: int| 0 <= kk < set@.len() && (#[trigger] set@[kk])@ == q.subrange(0, k0);
                    assert(q.subrange(0, k0) + q.subrange(k0, q.len() as int) =~= q);
                },
                _ => {
                    let kk = choose|kk: int| 0 <= kk < set@.len() && (#[trigger] set@[kk])@ == q;
                },
            }
        }
        assert(found(next@) =~= target);
    }
    next
}

/// Path `a` comes before path `b` in document order: at the first index where they
/// differ the smaller child comes first, and a node comes before the nodes below it.
pub open spec fn path_lt(a: Seq<usize>, b: Seq<usize>) -> bool
    decreases a.len(),
{
    if a.len() == 0 {
        b.len() > 0
    } else if b.len() == 0 {
        false
    } else if a[0] != b[0] {
        a[0] < b[0]
    } else {
        path_lt(a.drop_first(), b.drop_first())
    }
}

/// The paths are in document order.
pub open spec fn in_document_order(s: Seq<Vec<usize>>) -> bool {
    forall|i: int, j: int| 0 <= i < j < s.len() ==> path_lt(s[i]@, s[j]@)
}

proof fn lemma_path_lt_total(a: Seq<usize>, b: Seq<usize>)
    ensures
        a != b ==> path_lt(a, b) || path_lt(b, a),
        !(path_lt(a, b) && path_lt(b, a)),
        !path_lt(a, a),
    decreases a.len(),
{
    if a.len() > 0 && b.len() > 0 {
        lemma_path_lt_total(a.drop_first(), b.drop_first());
        if a[0] == b[0] && a.drop_first() == b.drop_first() {
            assert(a =~= seq![a[0]] + a.drop_first());
            assert(b =~= seq![b[0]] + b.drop_first());
        }
    } else if a.len() > 0 {
        lemma_path_lt_total(a.drop_first(), a.drop_first());
    } else if b.len() == 0 {
        assert(a =~= b);
    }
}

proof fn lemma_path_lt_trans(a: Seq<usize>, b: Seq<usize>, c: Seq<usize>)
    requires
        path_lt(a, b),
        path_lt(b, c),
    ensures
        path_lt(a, c),
    decreases a.len(),
{
    if a.len() > 0 && b.len() > 0 && c.len() > 0 && a[0] == b[0] && b[0] == c[0] {
        lemma_path_lt_trans(a.drop_first(), b.drop_first(), c.drop_first());
    }
}

fn path_less(a: &Vec<usize>, b: &Vec<usize>) -> (r: bool)
    ensures
        r == path_lt(a@, b@),
{
    let mut i: usize = 0;
    assert(a@.subrange(0, a@.len() as int) =~= a@);
    assert(b@.subrange(0, b@.len() as int) =~= b@);
    while i < a.len() && i < b.len()
        invariant
            i <= a@.len(),
            i <= b@.len(),
            path_lt(a@, b@) == path_lt(a@.subrange(i as int, a@.len() as int), b@.subrange(i as int, b@.len() as int)),
        decreases a@.len() - i,
    {
        let ghost sa = a@.subrange(i as int, a@.len() as int);
        let ghost sb = b@.subrange(i as int, b@.len() as int);
        if a[i] != b[i] {
            return a[i] < b[i];
        }
        assert(sa.drop_first() =~= a@.subrange(i + 1, a@.len() as int));
        assert(sb.drop_first() =~= b@.subrange(i + 1, b@.len() as int));
        i += 1;
    }
    i == a.len() && i < b.len()
}

/// The same paths, in document order.
fn sort_paths(set: Vec<Vec<usize>>, root: Ghost<Node>) -> (out: Vec<Vec<usize>>)
    requires
        paths_ok(root@, set@),
    ensures
        paths_ok(root@, out@),
        found(out@) == found(set@),
        in_document_order(out@),
{
    let mut out: Vec<Vec<usize>> = Vec::new();
    let mut k: usize = 0;
    while k < set.len()
        invariant
            k <= set@.len(),
            paths_ok(root@, set@),
            paths_ok(root@, out@),
            in_document_order(out@),
            forall|q: Seq<usize>| #[trigger] covers(out@, q) <==> exists|j: int| 0 <= j < k && #[trigger] set@[j]@ == q,
        decreases set@.len() - k,
    {
        let x = &set[k];
        let mut p: usize = 0;
        while p < out.len() && !path_less(x, &out[p])
            invariant
                p <= out@.len(),
                forall|i: int| 0 <= i < p ==> !path_lt(x@, #[trigger] out@[i]@),
            decreases out@.len() - p,
        {
            p += 1;
        }
        let ghost before = out@;
        let ghost xv = x@;
        proof {
            assert(!covers(before, xv)) by {
                if covers(before, xv) {
                    let j = choose|j: int| 0 <= j < k && #[trigger] set@[j]@ == xv;
                    assert(set@[j]@ != set@[k as int]@);
                }
            }
            assert forall|i: int| 0 <= i < p implies path_lt(#[trigger] before[i]@, xv) by {
                lemma_path_lt_total(before[i]@, xv);
            }
            assert forall|j: int| p <= j < before.len() implies path_lt(xv, #[trigger] before[j]@) by {
                if j > p {
                    lemma_path_lt_trans(xv, before[p as int]@, before[j]@);
                }
            }
        }
        out.insert(p, copy_path(x));
        proof {
            assert(out@[p as int]@ == xv);
            assert forall|i: int| 0 <= i < out@.len() && i != p implies #[trigger] out@[i] == before[if i < p { i } else { i - 1 }] by {}
            assert forall|i: int, j: int| 0 <= i < j < out@.len() implies path_lt(out@[i]@, out@[j]@) by {
                let bi = if i < p { i } else { i - 1 };
                let bj = if j < p { j } else { j - 1 };
                if i == p {
                    assert(out@[j] == before[bj]);
                } else if j == p {
                    assert(out@[i] == before[bi]);
                } else {
                    assert(out@[i] == before[bi] && out@[j] == before[bj]);
                }
            }
            assert forall|i: int| 0 <= i < out@.len() implies (#[trigger] node_at(root@, out@[i]@)) is Some by {
                if i != p {
                    let bi = if i < p { i } else { i - 1 };
                    assert(out@[i] == before[bi]);
                }
            }
            assert forall|i: int, j: int| 0 <= i < j < out@.len() implies out@[i]@ != out@[j]@ by {
                lemma_path_lt_total(out@[i]@, out@[j]@);
            }
            assert forall|q: Seq<usize>| #[trigger] covers(out@, q) <==> exists|j: int| 0 <= j < k + 1 && #[trigger] set@[j]@ == q by {
                if covers(out@, q) {
                    let i = choose|i: int| 0 <= i < out@.len() && (#[trigger] out@[i])@ == q;
                    if i != p {
                        let bi = if i < p { i } else { i - 1 };
                        assert(out@[i] == before[bi]);
                        assert(covers(before, q));
                    }
                }
                if exists|j: int| 0 <= j < k + 1 && #[trigger] set@[j]@ == q {
                    let j = choose|j: int| 0 <= j < k + 1 && #[trigger] set@[j]@ == q;
                    if j < k {
                        assert(covers(before, q));
                        let i = choose|i: int| 0 <= i < before.len() && (#[trigger] before[i])@ == q;
                        let oi = if i < p { i } else { i + 1 };
                        assert(out@[oi] == before[i]);
                    } else {
                        assert(out@[p as int]@ == q);
                    }
                }
            }
        }
        k += 1;
    }
    proof {
        assert forall|q: Seq<usize>| found(out@).contains(q) == found(set@).contains(q) by {
            if covers(set@, q) {
                let j = choose|j: int| 0 <= j < set@.len() && (#[trigger] set@[j])@ == q;
            }
        }
        assert(found(out@) =~= found(set@));
    }
    out
}

impl Query {
    /// The paths (child indices from the root) of the nodes that match, each once;
    /// see [`query_result`].
    ///
    /// The search starts at the root. A filtering step keeps the nodes that pass
    /// it; `Child` and `Descendant` move to the nodes below. With a point, the
    /// search goes only into nodes drawn over it, and only those are kept.
    pub fn matches(&self, m: &Manager) -> (r: Vec<Vec<usize>>)
        requires
            m.wf(),
        ensures
            paths_ok(m.root, r@),
            found(r@) == query_result(m.root, self.rules@, self.location),
            in_document_order(r@),
    {
        let r = self.matches_unordered(m);
        sort_paths(r, Ghost(m.root))
    }

    fn matches_unordered(&self, m: &Manager) -> (r: Vec<Vec<usize>>)
        requires
            m.wf(),
        ensures
            paths_ok(m.root, r@),
            found(r@) == query_result(m.root, self.rules@, self.location),
    {
        let root = &m.root;
        let mut set: Vec<Vec<usize>> = Vec::new();
        set.push(Vec::new());
        assert(path_nodes(*root, set@[0]@) == Some(seq![*root]));
        assert(found(set@) =~= query_set(*root, self.rules@.subrange(0, 0), self.location)) by {
            assert(set@[0]@ =~= Seq::<usize>::empty());
            assert(self.rules@.subrange(0, 0).len() == 0);
        }
        let mut i: usize = 0;
        while i < self.rules.len()
            invariant
                i <= self.rules@.len(),
                m.wf(),
                *root == m.root,
                paths_ok(*root, set@),
                found(set@) == query_set(*root, self.rules@.subrange(0, i as int), self.location),
            decreases self.rules@.len() - i,
        {
            set = query_step(m, &set, &self.rules[i], self.location);
            assert(self.rules@.subrange(0, i + 1).drop_last() =~= self.rules@.subrange(0, i as int));
            i += 1;
        }
        assert(self.rules@.subrange(0, self.rules@.len() as int) =~= self.rules@);
        match self.location {
            None => set,
            Some(at) => {
                let ghost reached = found(set@);
                let ghost inside = |q: Seq<usize>| render_position_spec(*root, q) matches Some(r) && rect_contains(r, at.x, at.y);
                let mut out: Vec<Vec<usize>> = Vec::new();
                let mut k: usize = 0;
                while k < set.len()
                    invariant
                        k <= set@.len(),
                        *root == m.root,
                        paths_ok(*root, set@),
                        paths_ok(*root, out@),
                        reached == found(set@),
                        inside == (|q: Seq<usize>| render_position_spec(*root, q) matches Some(r) && rect_contains(r, at.x, at.y)),
                        forall|q: Seq<usize>| #[trigger] covers(out@, q) ==> reached.contains(q) && inside(q),
                        forall|k2: int| 0 <= k2 < k && inside((#[trigger] set@[k2])@) ==> covers(out@, set@[k2]@),
                    decreases set@.len() - k,
                {
                    let ghost out0 = out@;
                    let hit = match m.render_position(&set[k]) {
                        Some(rect) => contains_point(rect, at.x, at.y),
                        None => false,
                    };
                    if hit {
                        assert(reached.contains(set@[k as int]@));
                        add_path(&mut out, copy_path(&set[k]), Ghost(*root));
                    }
                    assert forall|k2: int| 0 <= k2 < k + 1 && inside((#[trigger] set@[k2])@) implies covers(out@, set@[k2]@) by {
                        if k2 < k {
                            lemma_covers_grow(out0, out@, set@[k2]@);
                        }
                    }
                    k += 1;
                }
                assert forall|q: Seq<usize>| reached.contains(q) && inside(q) implies #[trigger] covers(out@, q) by {
                    let kk = choose|kk: int| 0 <= kk < set@.len() && (#[trigger] set@[kk])@ == q;
                }
                assert(found(out@) =~= reached.filter(inside));
                out
            },
        }
    }
}

impl Manager {
    /// Starts a query from the root.
    pub fn query(&self) -> (r: Query)
        ensures
            r.rules@.len() == 0,
            r.location is None,
    {
        Query::new()
    }

    /// Starts a query for the nodes drawn over the point.
    pub fn query_at(&self, x: i32, y: i32) -> (r: Query)
        ensures
            r.rules@.len() == 0,
            r.location == Some(AtLocation { x, y }),
    {
        Query { rules: Vec::new(), location: Some(AtLocation { x, y }) }
    }
}

} // verus!
