//! Styling and laying out nodes: the order in which rules are tried, the render
//! object that styling makes, and the recursive two-pass layout.
use vstd::prelude::*;
use vstd::string::*;
use crate::cascade::{
    as_option, cascade, cascade_spec, deref_rules, first_provider, lemma_cascade_first_wins,
    lemma_first_provider_concat, provides, rules_call_free, scopes_view, scopes_wf, Scope, ScopeView,
};
use crate::eval::Functions;
use crate::node::{clamp_to, extent, extent_fits, absolute_pre_position, or_else, or_zero, Engine, Layouts, Node, NodeValue, RenderObject};
use crate::style::{Document, Rule};
use crate::value::{
    float_to_i32, has_key, lookup, remove_key, str_eq, view_map, PropertyValue, Rect, Value, ValueView,
};
use crate::manager::Styles;

verus! {

/// The rules of a document, last first.
pub open spec fn rev_rules(rules: Seq<Rule>) -> Seq<Rule> {
    Seq::new(rules.len(), |i: int| rules[rules.len() - 1 - i])
}

/// The order in which rules are tried for a node: the documents from the last
/// loaded to the first, and within each the rules from the last written to the first.
pub open spec fn rule_order(docs: Seq<(String, Document)>) -> Seq<Rule>
    decreases docs.len(),
{
    if docs.len() == 0 {
        Seq::empty()
    } else {
        rule_order(docs.drop_first()) + rev_rules(docs[0].1.rules@)
    }
}

/// Lists the rules of the documents in the order in which they are tried.
pub(crate) fn ordered_rules(docs: &Vec<(String, Document)>) -> (r: Vec<&Rule>)
    ensures
        deref_rules(r@) == rule_order(docs@),
{
    let mut r: Vec<&Rule> = Vec::new();
    let mut d = docs.len();
    assert(docs@.subrange(d as int, docs@.len() as int) =~= Seq::<(String, Document)>::empty());
    while d > 0
        invariant
            d <= docs@.len(),
            deref_rules(r@) == rule_order(docs@.subrange(d as int, docs@.len() as int)),
        decreases d,
    {
        let rules = &docs[d - 1].1.rules;
        let ghost before = deref_rules(r@);
        let mut k = rules.len();
        while k > 0
            invariant
                k <= rules@.len(),
                rules@ == docs@[d - 1].1.rules@,
                deref_rules(r@) == before + rev_rules(rules@).subrange(0, rules@.len() - k),
            decreases k,
        {
            let ghost prev = deref_rules(r@);
            r.push(&rules[k - 1]);
            assert(deref_rules(r@) =~= prev.push(rules@[k - 1]));
            k -= 1;
            assert(rev_rules(rules@).subrange(0, rules@.len() - k) =~= rev_rules(rules@).subrange(0, rules@.len() - k - 1).push(rules@[k as int]));
            assert(deref_rules(r@) =~= before + rev_rules(rules@).subrange(0, rules@.len() - k));
        }
        let ghost tail = docs@.subrange(d - 1, docs@.len() as int);
        assert(tail.drop_first() =~= docs@.subrange(d as int, docs@.len() as int));
        assert(rev_rules(rules@).subrange(0, rules@.len() as int) =~= rev_rules(rules@));
        d -= 1;
    }
    assert(docs@.subrange(0, docs@.len() as int) =~= docs@);
    r
}

/// Copies a property list.
pub(crate) fn copy_properties(m: &Vec<(String, Value)>) -> (r: Vec<(String, Value)>)
    ensures
        r@ == m@,
{
    let mut r: Vec<(String, Value)> = Vec::new();
    let mut i: usize = 0;
    while i < m.len()
        invariant
            i <= m@.len(),
            r@ == m@.subrange(0, i as int),
        decreases m@.len() - i,
    {
        r.push((m[i].0.clone(), m[i].1.duplicate()));
        i += 1;
        assert(r@ =~= m@.subrange(0, i as int));
    }
    assert(m@.subrange(0, m@.len() as int) =~= m@);
    r
}

pub(crate) fn scope_of(node: &Node) -> (r: Scope)
    requires
        node.wf(),
    ensures
        r.value == node.value,
        r.properties@ == node.properties@,
        r.wf(),
{
    Scope { value: node.value.clone_value(), properties: copy_properties(&node.properties) }
}

impl NodeValue {
    pub fn clone_value(&self) -> (r: NodeValue)
        ensures
            r == *self,
    {
        match self {
            NodeValue::Element(n) => NodeValue::Element(n.clone()),
            NodeValue::Text(t) => NodeValue::Text(t.clone()),
        }
    }
}

pub open spec fn reserved_removed(before: Seq<(String, Value)>, after: Seq<(String, Value)>) -> bool {
    view_map(after) == view_map(before).remove("scroll_x"@).remove("scroll_y"@).remove("clip_overflow"@)
}

/// A scroll offset from the cascade: integers as they are, floats rounded toward zero.
pub open spec fn scroll_of_view(v: Option<ValueView>) -> i32 {
    match v {
        Some(ValueView::Integer(i)) => i,
        Some(ValueView::Float(f)) => float_to_i32(f),
        _ => 0,
    }
}

pub open spec fn scroll_of(v: Option<Value>) -> i32 {
    match v {
        Some(Value::Integer(i)) => i,
        Some(Value::Float(f)) => float_to_i32(f),
        _ => 0,
    }
}

fn scroll_value(v: Option<Value>) -> (r: i32)
    ensures
        r == scroll_of(v),
{
    match v {
        Some(Value::Integer(i)) => i,
        Some(Value::Float(f)) => crate::value::float_bits_to_i32(f),
        _ => 0,
    }
}

/// Moves the reserved properties out of the style values and onto the object:
/// `scroll_x` and `scroll_y` (rounded toward zero) and `clip_overflow`.
pub(crate) fn take_reserved(obj: &mut RenderObject)
    requires
        old(obj).wf(),
    ensures
        final(obj).wf(),
        reserved_removed(old(obj).vars@, final(obj).vars@),
        final(obj).scroll_position == (
            scroll_of_view(as_option(view_map(old(obj).vars@), "scroll_x"@)),
            scroll_of_view(as_option(view_map(old(obj).vars@), "scroll_y"@)),
        ),
        final(obj).clip_overflow == (as_option(view_map(old(obj).vars@), "clip_overflow"@) == Some(
            ValueView::Boolean(true),
        )),
        final(obj).draw_rect == old(obj).draw_rect,
        final(obj).min_size == old(obj).min_size,
        final(obj).max_size == old(obj).max_size,
        final(obj).text == old(obj).text,
        final(obj).render_info == old(obj).render_info,
{
    proof {
        reveal_strlit("scroll_x");
        reveal_strlit("scroll_y");
        reveal_strlit("clip_overflow");
    }
    let ghost before = obj.vars@;
    let sx = scroll_value(crate::value::get_key(&obj.vars, "scroll_x"));
    let sy = scroll_value(crate::value::get_key(&obj.vars, "scroll_y"));
    let clip = match crate::value::get_key(&obj.vars, "clip_overflow") {
        Some(Value::Boolean(b)) => b,
        _ => false,
    };
    remove_key(&mut obj.vars, "scroll_x");
    remove_key(&mut obj.vars, "scroll_y");
    remove_key(&mut obj.vars, "clip_overflow");
    obj.scroll_position = (sx, sy);
    obj.clip_overflow = clip;
    assert(lookup(before, "scroll_x"@) is Some <==> has_key(before, "scroll_x"@));
    assert(lookup(before, "scroll_y"@) is Some <==> has_key(before, "scroll_y"@));
    assert(lookup(before, "clip_overflow"@) is Some <==> has_key(before, "clip_overflow"@));
    assert(view_map(obj.vars@) =~= view_map(before).remove("scroll_x"@).remove("scroll_y"@).remove("clip_overflow"@));
}

/// The node and everything below it have been laid out.
pub open spec fn laid_out(n: Node) -> bool
    decreases n,
{
    n.render_object is Some && forall|i: int| 0 <= i < n.children@.len() ==> laid_out(#[trigger] n.children@[i])
}

/// The engine named by the style value `layout`, where a factory of that name is
/// registered; the absolute layout otherwise.
pub(crate) fn engine_for(obj: &RenderObject, layouts: &Layouts) -> (r: Engine)
    requires
        obj.wf(),
    ensures
        !(lookup(obj.vars@, "layout"@) matches Some(Value::String(_))) ==> r is Absolute,
        layouts.entries@.len() == 0 ==> r is Absolute,
        lookup(obj.vars@, "layout"@) matches Some(Value::String(n)) && (forall|i: int|
            0 <= i < layouts.entries@.len() ==> (#[trigger] layouts.entries@[i]).name@ != n@) ==> r is Absolute,
{
    proof {
        reveal_strlit("layout");
    }
    let name = match crate::value::get_key(&obj.vars, "layout") {
        Some(Value::String(n)) => n,
        _ => {
            return Engine::Absolute;
        },
    };
    let mut i: usize = 0;
    while i < layouts.entries.len()
        invariant
            i <= layouts.entries@.len(),
            lookup(obj.vars@, "layout"@) == Some(Value::String(name)),
            forall|j: int| 0 <= j < i ==> (#[trigger] layouts.entries@[j]).name@ != name@,
        decreases layouts.entries@.len() - i,
    {
        if str_eq(layouts.entries[i].name.as_str(), name.as_str()) {
            return layouts.entries[i].factory.create(obj);
        }
        i += 1;
    }
    Engine::Absolute
}

/// A cascade value as an integer: integers as they are, floats rounded toward zero.
pub open spec fn int_of_view(v: Option<ValueView>) -> Option<i32> {
    match v {
        Some(ValueView::Integer(i)) => Some(i),
        Some(ValueView::Float(f)) => Some(float_to_i32(f)),
        _ => None,
    }
}

/// A render object as styling and the absolute layout make it from the cascade's
/// values `c`: the values but the reserved ones, the reserved ones on the object,
/// the position from `x` and `y`, the size from `width` and `height` (or the
/// minimum sizes) unless `auto_size` grows it, the limits from the maximum sizes.
pub open spec fn styled_as(o: RenderObject, c: Map<Seq<char>, ValueView>) -> bool {
    let width = int_of_view(as_option(c, "width"@));
    let height = int_of_view(as_option(c, "height"@));
    let w = or_zero(or_else(width, int_of_view(as_option(c, "min_width"@))));
    let h = or_zero(or_else(height, int_of_view(as_option(c, "min_height"@))));
    &&& view_map(o.vars@) == c.remove("scroll_x"@).remove("scroll_y"@).remove("clip_overflow"@)
    &&& o.scroll_position == (scroll_of_view(as_option(c, "scroll_x"@)), scroll_of_view(as_option(c, "scroll_y"@)))
    &&& o.clip_overflow == (as_option(c, "clip_overflow"@) == Some(ValueView::Boolean(true)))
    &&& o.draw_rect.x == or_zero(int_of_view(as_option(c, "x"@)))
    &&& o.draw_rect.y == or_zero(int_of_view(as_option(c, "y"@)))
    &&& o.min_size == (w, h)
    &&& o.max_size == (
        or_else(width, int_of_view(as_option(c, "max_width"@))),
        or_else(height, int_of_view(as_option(c, "max_height"@))),
    )
    &&& as_option(c, "auto_size"@) != Some(ValueView::Boolean(true)) ==> o.draw_rect.width == w && o.draw_rect.height
        == h
}

/// The scope that a node gives the matchers.
pub open spec fn node_scope(n: Node) -> ScopeView {
    (n.value, n.properties@)
}

/// The rectangle that a node's children are placed in: its position, with the size
/// it had before it was sized to its children.
pub open spec fn placed_rect(o: RenderObject) -> Rect {
    Rect { x: o.draw_rect.x, y: o.draw_rect.y, width: o.min_size.0, height: o.min_size.1 }
}

/// With `auto_size`, the absolute layout's size: the largest right and bottom
/// edges of the children (no less than the minimum size), up to the maximum size.
pub open spec fn sized_to_children(o: RenderObject, children: Seq<RenderObject>) -> bool {
    extent_fits(o, children) ==> {
        let e = extent(o.min_size, children, children.len() as int);
        o.draw_rect.width == clamp_to(e.0, o.max_size.0) as i32 && o.draw_rect.height == clamp_to(e.1, o.max_size.1) as i32
    }
}

/// A node and everything below it as styling and the absolute layout make them:
/// each node's render object is [`styled_as`] the cascade for the node under its
/// ancestors (`scopes`) in its parent's rectangle, sized to its children where it
/// has `auto_size`, and a text node's object carries its text.
pub open spec fn styled_tree(n: Node, rules: Seq<Rule>, scopes: Seq<ScopeView>, rect: Rect) -> bool
    decreases n,
{
    let sc = scopes.push(node_scope(n));
    let c = cascade_spec(rules, sc, rect);
    &&& n.render_object is Some
    &&& styled_as(n.render_object->Some_0, c)
    &&& n.render_object->Some_0.text == (match n.value {
        NodeValue::Text(t) => Some(t),
        NodeValue::Element(_) => None,
    })
    &&& as_option(c, "auto_size"@) == Some(ValueView::Boolean(true)) ==> all_laid(n.children@) && sized_to_children(
        n.render_object->Some_0,
        objects_of(n.children@),
    )
    &&& forall|k: int| 0 <= k < n.children@.len() ==> styled_tree(
        #[trigger] n.children@[k],
        rules,
        sc,
        placed_rect(n.render_object->Some_0),
    )
}

/// What a style value gives as an integer, seen through its view.
proof fn lemma_int_of_view(m: Seq<(String, Value)>, k: Seq<char>)
    ensures
        (match lookup(m, k) {
            Some(v) => <i32 as PropertyValue>::from_value(v),
            None => None,
        }) == int_of_view(as_option(view_map(m), k)),
{
    assert(lookup(m, k) is Some <==> has_key(m, k));
}

/// A fresh render object for a node: the cascade's values, the reserved ones moved
/// onto the object, placed by the parent's engine.
pub(crate) fn style_object(
    rules: &Vec<&Rule>,
    scopes: &Vec<Scope>,
    parent: &RenderObject,
    parent_engine: &mut Engine,
    funcs: &Functions,
) -> (obj: RenderObject)
    requires
        scopes_wf(scopes@),
    ensures
        *old(parent_engine) is Absolute ==> *final(parent_engine) is Absolute,
        rules_call_free(deref_rules(rules@)) && *old(parent_engine) is Absolute ==> {
            let c = cascade_spec(deref_rules(rules@), scopes_view(scopes@), parent.draw_rect);
            &&& view_map(obj.vars@) == c.remove("scroll_x"@).remove("scroll_y"@).remove("clip_overflow"@)
            &&& obj.scroll_position == (
                scroll_of_view(as_option(c, "scroll_x"@)),
                scroll_of_view(as_option(c, "scroll_y"@)),
            )
            &&& obj.clip_overflow == (as_option(c, "clip_overflow"@) == Some(ValueView::Boolean(true)))
            &&& styled_as(obj, c)
            &&& obj.text is None
            &&& obj.wf()
            &&& obj.draw_rect == placed_rect(obj)
        },
{
    proof {
        reveal_strlit("x");
        reveal_strlit("y");
        reveal_strlit("width");
        reveal_strlit("height");
        reveal_strlit("min_width");
        reveal_strlit("min_height");
        reveal_strlit("max_width");
        reveal_strlit("max_height");
        reveal_strlit("scroll_x");
        reveal_strlit("scroll_y");
        reveal_strlit("clip_overflow");
        reveal_strlit("auto_size");
    }
    let vars = cascade(rules, scopes, parent.draw_rect, funcs);
    let mut obj = RenderObject::new();
    obj.vars = vars;
    take_reserved(&mut obj);
    let ghost styled = obj;
    let ghost was_absolute = *parent_engine is Absolute;
    parent_engine.pre_position_child(&mut obj, parent);
    proof {
        let c = cascade_spec(deref_rules(rules@), scopes_view(scopes@), parent.draw_rect);
        let vm = view_map(styled.vars@);
        if rules_call_free(deref_rules(rules@)) && was_absolute {
            assert(vm == c.remove("scroll_x"@).remove("scroll_y"@).remove("clip_overflow"@));
            assert(absolute_pre_position(styled, obj));
            assert forall|k: Seq<char>|
                k != "scroll_x"@ && k != "scroll_y"@ && k != "clip_overflow"@ implies #[trigger] as_option(vm, k)
                == as_option(c, k) by {}
            assert("x"@.len() == 1 && "y"@.len() == 1);
            assert("scroll_x"@.len() == 8 && "scroll_y"@.len() == 8 && "clip_overflow"@.len() == 13);
            assert("x"@ != "scroll_x"@ && "x"@ != "scroll_y"@ && "x"@ != "clip_overflow"@);
            assert("y"@ != "scroll_x"@ && "y"@ != "scroll_y"@ && "y"@ != "clip_overflow"@);
            assert("width"@ != "scroll_x"@ && "width"@ != "scroll_y"@ && "width"@ != "clip_overflow"@);
            assert("height"@ != "scroll_x"@ && "height"@ != "scroll_y"@ && "height"@ != "clip_overflow"@);
            assert("min_width"@ != "scroll_x"@ && "min_width"@ != "scroll_y"@ && "min_width"@ != "clip_overflow"@);
            assert("min_height"@ != "scroll_x"@ && "min_height"@ != "scroll_y"@ && "min_height"@ != "clip_overflow"@);
            assert("max_width"@ != "scroll_x"@ && "max_width"@ != "scroll_y"@ && "max_width"@ != "clip_overflow"@);
            assert("max_height"@ != "scroll_x"@ && "max_height"@ != "scroll_y"@ && "max_height"@ != "clip_overflow"@);
            assert("auto_size"@ != "scroll_x"@ && "auto_size"@ != "scroll_y"@ && "auto_size"@ != "clip_overflow"@);
        }
        lemma_int_of_view(styled.vars@, "x"@);
        lemma_int_of_view(styled.vars@, "y"@);
        lemma_int_of_view(styled.vars@, "width"@);
        lemma_int_of_view(styled.vars@, "height"@);
        lemma_int_of_view(styled.vars@, "min_width"@);
        lemma_int_of_view(styled.vars@, "min_height"@);
        lemma_int_of_view(styled.vars@, "max_width"@);
        lemma_int_of_view(styled.vars@, "max_height"@);
    }
    obj
}

/// Every child has a render object.
pub open spec fn all_laid(children: Seq<Node>) -> bool {
    forall|i: int| 0 <= i < children.len() ==> (#[trigger] children[i]).render_object is Some
}

/// The render objects of the children, in order.
pub open spec fn objects_of(children: Seq<Node>) -> Seq<RenderObject> {
    Seq::new(children.len(), |i: int| children[i].render_object->Some_0)
}

/// Takes the render objects out of the children, in order.
fn take_child_objects(children: &mut Vec<Node>) -> (objs: Vec<RenderObject>)
    requires
        forall|i: int| 0 <= i < old(children)@.len() ==> (#[trigger] old(children)@[i]).wf(),
    ensures
        final(children)@.len() == old(children)@.len(),
        forall|i: int| 0 <= i < final(children)@.len() ==> (#[trigger] final(children)@[i]).wf(),
        forall|i: int| 0 <= i < final(children)@.len() ==> #[trigger] final(children)@[i] == (Node {
            render_object: None,
            ..old(children)@[i]
        }),
        all_laid(old(children)@) ==> objs@ == objects_of(old(children)@),
{
    let mut objs: Vec<RenderObject> = Vec::new();
    let mut i: usize = 0;
    while i < children.len()
        invariant
            i <= children@.len(),
            children@.len() == old(children)@.len(),
            forall|j: int| 0 <= j < children@.len() ==> (#[trigger] children@[j]).wf(),
            forall|j: int| 0 <= j < i ==> #[trigger] children@[j] == (Node { render_object: None, ..old(children)@[j] }),
            forall|j: int| i <= j < children@.len() ==> #[trigger] children@[j] == old(children)@[j],
            all_laid(old(children)@) ==> objs@ == objects_of(old(children)@).subrange(0, i as int),
        decreases children@.len() - i,
    {
        let ghost before = children@;
        let c = &mut children[i];
        if let Some(o) = c.render_object.take() {
            objs.push(o);
        }
        proof {
            assert forall|j: int| 0 <= j < children@.len() && j != i implies children@[j] == before[j] by {}
            if all_laid(old(children)@) {
                assert(objs@ =~= objects_of(old(children)@).subrange(0, i + 1));
            }
        }
        i += 1;
    }
    proof {
        if all_laid(old(children)@) {
            assert(objects_of(old(children)@).subrange(0, i as int) =~= objects_of(old(children)@));
        }
    }
    objs
}

/// Gives the children back their render objects, in order.
fn restore_child_objects(children: &mut Vec<Node>, objs: Vec<RenderObject>)
    requires
        forall|i: int| 0 <= i < old(children)@.len() ==> (#[trigger] old(children)@[i]).wf(),
    ensures
        final(children)@.len() == old(children)@.len(),
        forall|i: int| 0 <= i < final(children)@.len() ==> (#[trigger] final(children)@[i]).render_object is Some,
        forall|i: int| 0 <= i < final(children)@.len() ==> (#[trigger] final(children)@[i]).wf(),
        forall|i: int| 0 <= i < final(children)@.len() ==> {
            let c = #[trigger] final(children)@[i];
            let o = old(children)@[i];
            c.value == o.value && c.properties == o.properties && c.children == o.children && c.dirty == o.dirty
                && c.engine == o.engine
        },
        (objs@.len() == old(children)@.len() && (forall|i: int| 0 <= i < objs@.len() ==> (#[trigger] objs@[i]).wf()))
            ==> forall|i: int| 0 <= i < final(children)@.len() ==> #[trigger] final(children)@[i] == (Node {
            render_object: Some(objs@[i]),
            ..old(children)@[i]
        }),
{
    let ghost ov = objs@;
    let mut objs = objs;
    let mut i: usize = 0;
    let n = children.len();
    while i < n
        invariant
            i <= n,
            n == children@.len(),
            children@.len() == old(children)@.len(),
            forall|j: int| 0 <= j < children@.len() ==> (#[trigger] children@[j]).wf(),
            forall|j: int| 0 <= j < children@.len() ==> {
                let c = #[trigger] children@[j];
                let o = old(children)@[j];
                c.value == o.value && c.properties == o.properties && c.children == o.children && c.dirty == o.dirty
                    && c.engine == o.engine
            },
            forall|j: int| 0 <= j < i ==> (#[trigger] children@[j]).render_object is Some,
            i <= ov.len() ==> objs@ == ov.subrange(i as int, ov.len() as int),
            ov.len() == n && (forall|j: int| 0 <= j < ov.len() ==> (#[trigger] ov[j]).wf()) ==> forall|j: int|
                0 <= j < i ==> #[trigger] children@[j] == (Node { render_object: Some(ov[j]), ..old(children)@[j] }),
        decreases n - i,
    {
        let ghost before = children@;
        let mut o = if objs.len() > 0 {
            objs.remove(0)
        } else {
            RenderObject::new()
        };
        if !o.wf_exec() {
            o.vars = Vec::new();
        }
        children[i].render_object = Some(o);
        proof {
            if i < ov.len() {
                assert(objs@ =~= ov.subrange(i + 1, ov.len() as int));
            }
            assert forall|j: int| 0 <= j < children@.len() && j != i implies children@[j] == before[j] by {}
        }
        i += 1;
    }
}

impl RenderObject {
    /// Checks that no two style values share a name.
    pub fn wf_exec(&self) -> (r: bool)
        ensures
            r == self.wf(),
    {
        let mut a: usize = 0;
        while a < self.vars.len()
            invariant
                a <= self.vars@.len(),
                forall|x: int, y: int| 0 <= x < a && x < y < self.vars@.len() ==> self.vars@[x].0@ != self.vars@[y].0@,
            decreases self.vars@.len() - a,
        {
            let mut b = a + 1;
            while b < self.vars.len()
                invariant
                    a < self.vars@.len(),
                    a + 1 <= b <= self.vars@.len(),
                    forall|x: int, y: int| 0 <= x < a && x < y < self.vars@.len() ==> self.vars@[x].0@ != self.vars@[y].0@,
                    forall|y: int| a < y < b ==> self.vars@[a as int].0@ != self.vars@[y].0@,
                decreases self.vars@.len() - b,
            {
                if str_eq(self.vars[a].0.as_str(), self.vars[b].0.as_str()) {
                    return false;
                }
                b += 1;
            }
            a += 1;
        }
        true
    }
}

/// Lays out a node below a parent whose render object and engine are given, then its
/// children with its own engine.
///
/// A node without a render object, or any node where `force` is set, is styled
/// afresh and placed by the parent's engine; its children are then forced too, and
/// after them its own engine finishes it and the parent's engine places it again.
pub(crate) fn layout_node(
    start: Node,
    parent: &RenderObject,
    parent_engine: &mut Engine,
    rules: &Vec<&Rule>,
    scopes: &mut Vec<Scope>,
    styles: &Styles,
    force: bool,
) -> (r: Node)
    requires
        start.wf(),
        parent.wf(),
        scopes_wf(old(scopes)@),
    ensures
        r.wf(),
        r.render_object is Some,
        r.value == start.value,
        r.properties == start.properties,
        r.children@.len() == start.children@.len(),
        final(scopes)@ == old(scopes)@,
        (force || start.render_object is None) ==> !r.dirty,
        !(force || start.render_object is None) ==> r.dirty == start.dirty,
        (force || start.render_object is None || !start.tree_dirty()) ==> !r.tree_dirty(),
        laid_out(r),
        *old(parent_engine) is Absolute ==> *final(parent_engine) is Absolute,
        (force || start.render_object is None) && *old(parent_engine) is Absolute && styles.layouts.entries@.len() == 0
            && rules_call_free(deref_rules(rules@)) ==> styled_tree(
            r,
            deref_rules(rules@),
            scopes_view(old(scopes)@),
            parent.draw_rect,
        ),
        !(force || start.render_object is None) ==> r.render_object == start.render_object,
    decreases start,
{
    let ghost orig = start;
    let ghost parent_absolute = *parent_engine is Absolute;
    let mut node = start;
    let relayout = force || node.render_object.is_none();
    scopes.push(scope_of(&node));
    let ghost sc = scopes@.last();
    assert(scopes_view(scopes@) =~= scopes_view(old(scopes)@).push(node_scope(start)));
    let ghost c = cascade_spec(deref_rules(rules@), scopes_view(scopes@), parent.draw_rect);
    let ghost exact = relayout && parent_absolute && styles.layouts.entries@.len() == 0 && rules_call_free(deref_rules(rules@));
    assert(scopes_wf(scopes@)) by {
        assert forall|k: int| 0 <= k < scopes@.len() implies (#[trigger] scopes@[k]).wf() by {
            if k < old(scopes)@.len() {
                assert(scopes@[k] == old(scopes)@[k]);
            }
        }
    }
    let mut obj = if relayout {
        let mut o = style_object(rules, scopes, parent, parent_engine, &styles.funcs);
        if !o.wf_exec() {
            o.vars = Vec::new();
        }
        if let NodeValue::Text(t) = &node.value {
            o.text = Some(t.clone());
        }
        node.engine = engine_for(&o, &styles.layouts);
        node.dirty = false;
        o
    } else {
        node.render_object.take().unwrap()
    };
    assert(exact ==> styled_as(obj, c) && obj.wf() && node.engine is Absolute && obj.draw_rect == placed_rect(obj));
    assert(exact ==> obj.text == (match start.value {
        NodeValue::Text(t) => Some(t),
        NodeValue::Element(_) => None,
    }));
    let ghost styled = obj;
    let mut engine = Engine::Absolute;
    std::mem::swap(&mut engine, &mut node.engine);
    let mut children: Vec<Node> = Vec::new();
    std::mem::swap(&mut children, &mut node.children);
    let ghost old_children = children@;
    let n = children.len();
    let mut done: Vec<Node> = Vec::new();
    let mut k: usize = 0;
    while k < n
        invariant
            k <= n,
            n == old_children.len(),
            children@ == old_children.subrange(k as int, n as int),
            done@.len() == k,
            old_children == orig.children@,
            orig == start,
            orig.wf(),
            obj.wf(),
            scopes_wf(scopes@),
            scopes@.len() == old(scopes)@.len() + 1,
            scopes@.subrange(0, old(scopes)@.len() as int) == old(scopes)@,
            forall|j: int| 0 <= j < k ==> (#[trigger] done@[j]).wf(),
            forall|j: int| 0 <= j < k ==> (#[trigger] done@[j]).value == old_children[j].value,
            forall|j: int| 0 <= j < k ==> (#[trigger] done@[j]).properties == old_children[j].properties,
            forall|j: int| 0 <= j < k ==> laid_out(#[trigger] done@[j]),
            forall|j: int| 0 <= j < k ==> (relayout || !old_children[j].tree_dirty()) ==> !(#[trigger] done@[j]).tree_dirty(),
            relayout == (force || orig.render_object is None),
            obj == styled,
            exact ==> engine is Absolute,
            exact ==> relayout && styles.layouts.entries@.len() == 0 && rules_call_free(deref_rules(rules@)),
            exact == (relayout && parent_absolute && styles.layouts.entries@.len() == 0 && rules_call_free(deref_rules(rules@))),
            parent_absolute ==> *parent_engine is Absolute,
            scopes_view(scopes@) == scopes_view(old(scopes)@).push(node_scope(start)),
            exact ==> forall|j: int| 0 <= j < k ==> styled_tree(
                #[trigger] done@[j],
                deref_rules(rules@),
                scopes_view(scopes@),
                obj.draw_rect,
            ),
            !relayout ==> Some(obj) == orig.render_object,
        decreases n - k,
    {
        let c = children.remove(0);
        assert(c == orig.children@[k as int]);
        assert(decreases_to!(orig => orig.children@[k as int]));
        assert(decreases_to!(orig => c));
        let ghost before = scopes@;
        let ghost prev = done@;
        let c2 = layout_node(c, &obj, &mut engine, rules, scopes, styles, relayout);
        done.push(c2);
        proof {
            assert(scopes@ == before);
            assert forall|j: int| 0 <= j < k + 1 && exact implies styled_tree(
                #[trigger] done@[j],
                deref_rules(rules@),
                scopes_view(scopes@),
                obj.draw_rect,
            ) by {
                if j < k {
                    assert(done@[j] == prev[j]);
                } else {
                    assert(done@[j] == c2);
                }
            }
        }
        k += 1;
        assert(children@ =~= old_children.subrange(k as int, n as int));
    }
    node.children = done;
    let ghost done_v = node.children@;
    let ghost pre = obj;
    if relayout {
        let mut objs = take_child_objects(&mut node.children);
        let ghost taken = node.children@;
        let ghost objs0 = objs@;
        proof {
            if exact {
                assert(all_laid(done_v));
                assert forall|j: int| 0 <= j < objs0.len() implies (#[trigger] objs0[j]).wf() by {
                    assert(done_v[j].wf());
                }
            }
        }
        engine.finalize_layout(&mut obj, &mut objs);
        restore_child_objects(&mut node.children, objs);
        proof {
            if exact {
                assert forall|j: int| 0 <= j < node.children@.len() implies node.children@[j] == done_v[j] by {
                    assert(taken[j] == (Node { render_object: None, ..done_v[j] }));
                }
                assert(node.children@ =~= done_v);
                assert(objects_of(node.children@) =~= objs0);
            }
        }
        parent_engine.post_position_child(&mut obj, parent);
    }
    proof {
        if exact {
            reveal_strlit("auto_size");
            reveal_strlit("scroll_x");
            reveal_strlit("scroll_y");
            reveal_strlit("clip_overflow");
            assert("auto_size"@.len() == 9 && "scroll_x"@.len() == 8 && "scroll_y"@.len() == 8);
            assert(as_option(view_map(styled.vars@), "auto_size"@) == as_option(c, "auto_size"@));
            assert(lookup(styled.vars@, "auto_size"@) is Some <==> has_key(styled.vars@, "auto_size"@));
            assert(styled_as(obj, c));
            assert(placed_rect(obj) == pre.draw_rect);
            if as_option(c, "auto_size"@) == Some(ValueView::Boolean(true)) {
                assert(lookup(styled.vars@, "auto_size"@) == Some(Value::Boolean(true)));
                assert(all_laid(node.children@));
                assert(sized_to_children(obj, objects_of(node.children@)));
            }
        }
    }
    assert forall|j: int| 0 <= j < node.children@.len() implies laid_out(#[trigger] node.children@[j]) by {
        assert(laid_out(done_v[j]));
        assert(node.children@[j].children == done_v[j].children);
    }
    assert forall|j: int| 0 <= j < node.children@.len() && (relayout || !orig.children@[j].tree_dirty())
        implies !(#[trigger] node.children@[j]).tree_dirty() by {
        assert(!done_v[j].tree_dirty());
        assert(node.children@[j].children == done_v[j].children);
        assert(node.children@[j].dirty == done_v[j].dirty);
    }
    node.engine = engine;
    if obj.wf_exec() {
        node.render_object = Some(obj);
    } else {
        node.render_object = Some(RenderObject::new());
    }
    scopes.pop();
    assert(scopes@ =~= old(scopes)@);
    proof {
        if exact {
            assert(node_scope(node) == node_scope(start));
            assert forall|k: int| 0 <= k < node.children@.len() implies styled_tree(
                #[trigger] node.children@[k],
                deref_rules(rules@),
                scopes_view(old(scopes)@).push(node_scope(node)),
                placed_rect(node.render_object->Some_0),
            ) by {
                assert(node.children@[k] == done_v[k]);
            }
        }
    }
    node
}

/// The rules of the last loaded document are tried before all others.
pub proof fn lemma_rule_order_last_first(docs: Seq<(String, Document)>)
    requires
        docs.len() > 0,
    ensures
        rule_order(docs) == rev_rules(docs.last().1.rules@) + rule_order(docs.drop_last()),
    decreases docs.len(),
{
    if docs.len() == 1 {
        assert(docs.drop_first() =~= Seq::<(String, Document)>::empty());
        assert(docs.drop_last() =~= Seq::<(String, Document)>::empty());
        assert(rule_order(docs) =~= rev_rules(docs.last().1.rules@) + rule_order(docs.drop_last()));
    } else {
        let df = docs.drop_first();
        lemma_rule_order_last_first(df);
        assert(df.last() == docs.last());
        assert(df.drop_last() =~= docs.drop_last().drop_first());
        assert(docs.drop_last()[0] == docs[0]);
        assert(rule_order(docs) =~= rev_rules(docs.last().1.rules@) + rule_order(docs.drop_last()));
    }
}

/// Within a document the last rule is tried first.
pub proof fn lemma_rev_rules_last_first(rules: Seq<Rule>)
    requires
        rules.len() > 0,
    ensures
        rev_rules(rules) == seq![rules.last()] + rev_rules(rules.drop_last()),
{
    assert(rev_rules(rules) =~= seq![rules.last()] + rev_rules(rules.drop_last()));
}

/// Cascade precedence: the last loaded document that gives a node a value for a
/// property decides it; within that document the last rule that does; and within
/// a rule the first property of that name that evaluates.
pub proof fn lemma_cascade_precedence(docs: Seq<(String, Document)>, scopes: Seq<ScopeView>, rect: Rect, k: Seq<char>)
    requires
        docs.len() > 0,
        docs.last().1.rules@.len() > 0,
    ensures
        as_option(cascade_spec(rule_order(docs), scopes, rect), k) == match provides(
            docs.last().1.rules@.last(),
            scopes,
            rect,
            k,
        ) {
            Some(v) => Some(v),
            None => match first_provider(rev_rules(docs.last().1.rules@.drop_last()), scopes, rect, k) {
                Some(v) => Some(v),
                None => first_provider(rule_order(docs.drop_last()), scopes, rect, k),
            },
        },
{
    let rules = docs.last().1.rules@;
    lemma_cascade_first_wins(rule_order(docs), scopes, rect, k);
    lemma_rule_order_last_first(docs);
    lemma_first_provider_concat(rev_rules(rules), rule_order(docs.drop_last()), scopes, rect, k);
    lemma_rev_rules_last_first(rules);
    lemma_first_provider_concat(seq![rules.last()], rev_rules(rules.drop_last()), scopes, rect, k);
    let one = seq![rules.last()];
    assert(one.drop_first() =~= Seq::<Rule>::empty());
    assert(first_provider(one.drop_first(), scopes, rect, k) is None);
    assert(first_provider(one, scopes, rect, k) == provides(rules.last(), scopes, rect, k));
}

/// The reserved properties follow the first-wins rule of every other property:
/// the scroll offsets and the clip flag that a node gets (see [`style_object`])
/// come from the first rule, in the order tried, that gives them an accepted value.
pub proof fn lemma_reserved_first_wins(rules: Seq<Rule>, scopes: Seq<ScopeView>, rect: Rect)
    ensures
        as_option(cascade_spec(rules, scopes, rect), "scroll_x"@) == first_provider(rules, scopes, rect, "scroll_x"@),
        as_option(cascade_spec(rules, scopes, rect), "scroll_y"@) == first_provider(rules, scopes, rect, "scroll_y"@),
        as_option(cascade_spec(rules, scopes, rect), "clip_overflow"@) == first_provider(
            rules,
            scopes,
            rect,
            "clip_overflow"@,
        ),
{
    lemma_cascade_first_wins(rules, scopes, rect, "scroll_x"@);
    lemma_cascade_first_wins(rules, scopes, rect, "scroll_y"@);
    lemma_cascade_first_wins(rules, scopes, rect, "clip_overflow"@);
}

} // verus!
