use vstd::prelude::*;
use vstd::string::*;
use crate::value::{
    find_key, get_key, keys_unique, lookup, remove_key, set_key, CustomValue, PropertyValue, Rect, Value,
};

verus! {

/// Used to position the children of an element.
pub trait LayoutEngine {
    fn pre_position_child(&mut self, obj: &mut RenderObject, parent: &RenderObject);

    fn post_position_child(&mut self, obj: &mut RenderObject, parent: &RenderObject);

    /// Runs on the element itself, once its children are positioned.
    fn finalize_layout(&mut self, obj: &mut RenderObject, children: &mut Vec<RenderObject>);
}

/// Creates a layout engine for an element.
pub trait LayoutFactory {
    fn create(&self, obj: &RenderObject) -> Engine;
}

/// A layout engine factory with the name that styles select it by.
pub struct LayoutEntry {
    pub name: String,
    pub factory: Box<dyn LayoutFactory>,
}

/// The layout engines that styles can select, in the order registered; the first
/// of a name is used.
pub struct Layouts {
    pub entries: Vec<LayoutEntry>,
}

impl Layouts {
    pub fn new() -> (r: Layouts)
        ensures
            r.entries@.len() == 0,
    {
        Layouts { entries: Vec::new() }
    }

    /// Registers a layout engine under a name; an earlier one of that name stays first.
    pub fn add(&mut self, name: &str, creator: Box<dyn LayoutFactory>)
        ensures
            final(self).entries@.len() == old(self).entries@.len() + 1,
            final(self).entries@.last().name@ == name@,
            forall|i: int| 0 <= i < old(self).entries@.len() ==> final(self).entries@[i] == old(self).entries@[i],
    {
        let entry = LayoutEntry::new(name, creator);
        self.push_entry(entry);
    }

    fn push_entry(&mut self, entry: LayoutEntry)
        ensures
            final(self).entries@ == old(self).entries@.push(entry),
    {
        self.entries.push(entry);
    }
}

impl LayoutEntry {
    pub fn new(name: &str, factory: Box<dyn LayoutFactory>) -> (r: LayoutEntry)
        ensures
            r.name@ == name@,
    {
        LayoutEntry { name: String::from_str(name), factory }
    }
}

pub(crate) fn boxed_factory<F: LayoutFactory + 'static>(creator: F) -> Box<dyn LayoutFactory> {
    Box::new(creator)
}

/// The layout engine of an element: the built-in absolute layout or one of the caller's.
pub enum Engine {
    Absolute,
    Custom(Box<dyn LayoutEngine>),
}

/// The value handed to layout engines and render visitors.
pub struct RenderObject {
    /// The position and size of the element as decided by the layout engine.
    pub draw_rect: Rect,
    /// The smallest this object can be.
    pub min_size: (i32, i32),
    /// The largest this object can be; `None` for no limit.
    pub max_size: (Option<i32>, Option<i32>),
    /// The style values that apply to this element.
    pub vars: Vec<(String, Value)>,
    /// A handle the renderer may keep with the object.
    pub render_info: Option<u64>,
    /// The text of this element if it is text.
    pub text: Option<String>,
    /// The scroll offset, in whole units.
    pub scroll_position: (i32, i32),
    /// Whether to clip children that fall outside this element.
    pub clip_overflow: bool,
}

impl RenderObject {
    pub open spec fn wf(&self) -> bool {
        keys_unique(self.vars@)
    }

    pub open spec fn is_default(&self) -> bool {
        &&& self.draw_rect == (Rect { x: 0, y: 0, width: 0, height: 0 })
        &&& self.min_size == (0i32, 0i32)
        &&& self.max_size == (None::<i32>, None::<i32>)
        &&& self.vars@.len() == 0
        &&& self.render_info is None
        &&& self.text is None
        &&& self.scroll_position == (0i32, 0i32)
        &&& !self.clip_overflow
    }

    pub fn new() -> (r: RenderObject)
        ensures
            r.is_default(),
            r.wf(),
    {
        RenderObject {
            draw_rect: Rect::zero(),
            min_size: (0, 0),
            max_size: (None, None),
            vars: Vec::new(),
            render_info: None,
            text: None,
            scroll_position: (0, 0),
            clip_overflow: false,
        }
    }

    /// The style value `name` as a `V`.
    pub fn get_value<V: PropertyValue>(&self, name: &str) -> (r: Option<V>)
        requires
            self.wf(),
        ensures
            r == (match lookup(self.vars@, name@) {
                Some(v) => V::from_value(v),
                None => None,
            }),
    {
        match find_key(&self.vars, name) {
            Some(i) => V::convert_from(&self.vars[i].1),
            None => None,
        }
    }

    /// The handle of the custom style value `name`.
    pub fn get_custom_value(&self, name: &str) -> (r: Option<u64>)
        requires
            self.wf(),
        ensures
            r == (match lookup(self.vars@, name@) {
                Some(Value::Any(h)) => Some(h),
                _ => None,
            }),
    {
        match get_key(&self.vars, name) {
            Some(Value::Any(h)) => Some(h),
            _ => None,
        }
    }
}

/// What the built-in absolute layout reads as an integer.
pub open spec fn int_var(obj: RenderObject, name: Seq<char>) -> Option<i32> {
    match lookup(obj.vars@, name) {
        Some(v) => <i32 as PropertyValue>::from_value(v),
        None => None,
    }
}

pub open spec fn or_else(a: Option<i32>, b: Option<i32>) -> Option<i32> {
    if a is Some {
        a
    } else {
        b
    }
}

pub open spec fn or_zero(a: Option<i32>) -> i32 {
    match a {
        Some(v) => v,
        None => 0,
    }
}

/// The absolute layout: `x`, `y`, `width` and `height` (or the minimum sizes)
/// become the draw rectangle; `width`/`height` (or the maximum sizes) the limits.
///
/// These are style values only: a node's own properties (such as the attributes
/// that a matcher tests) select rules but do not place the node.
pub open spec fn absolute_pre_position(obj: RenderObject, result: RenderObject) -> bool {
    let width = int_var(obj, "width"@);
    let height = int_var(obj, "height"@);
    let w = or_zero(or_else(width, int_var(obj, "min_width"@)));
    let h = or_zero(or_else(height, int_var(obj, "min_height"@)));
    &&& result.draw_rect == (Rect {
        x: or_zero(int_var(obj, "x"@)),
        y: or_zero(int_var(obj, "y"@)),
        width: w,
        height: h,
    })
    &&& result.min_size == (w, h)
    &&& result.max_size == (or_else(width, int_var(obj, "max_width"@)), or_else(height, int_var(obj, "max_height"@)))
    &&& result.vars == obj.vars
    &&& result.render_info == obj.render_info
    &&& result.text == obj.text
    &&& result.scroll_position == obj.scroll_position
    &&& result.clip_overflow == obj.clip_overflow
}

fn int_or(a: Option<i32>, b: Option<i32>) -> (r: Option<i32>)
    ensures
        r == or_else(a, b),
{
    match a {
        Some(v) => Some(v),
        None => b,
    }
}

fn zero_if_none(a: Option<i32>) -> (r: i32)
    ensures
        r == or_zero(a),
{
    match a {
        Some(v) => v,
        None => 0,
    }
}

/// The absolute layout's placing of a child.
pub fn absolute_pre_position_child(obj: &mut RenderObject)
    requires
        old(obj).wf(),
    ensures
        absolute_pre_position(*old(obj), *final(obj)),
        final(obj).wf(),
{
    proof {
        reveal_strlit("width");
        reveal_strlit("height");
    }
    let width = obj.get_value::<i32>("width");
    let height = obj.get_value::<i32>("height");
    let w = zero_if_none(int_or(width, obj.get_value::<i32>("min_width")));
    let h = zero_if_none(int_or(height, obj.get_value::<i32>("min_height")));
    let x = zero_if_none(obj.get_value::<i32>("x"));
    let y = zero_if_none(obj.get_value::<i32>("y"));
    let max_w = int_or(width, obj.get_value::<i32>("max_width"));
    let max_h = int_or(height, obj.get_value::<i32>("max_height"));
    obj.draw_rect = Rect { x, y, width: w, height: h };
    obj.min_size = (w, h);
    obj.max_size = (max_w, max_h);
}

/// The largest right and bottom edges among the first `n` children, no less than `start`.
pub open spec fn extent(start: (i32, i32), children: Seq<RenderObject>, n: int) -> (int, int)
    decreases n,
{
    if n <= 0 {
        (start.0 as int, start.1 as int)
    } else {
        let e = extent(start, children, n - 1);
        let c = children[n - 1].draw_rect;
        (
            if e.0 >= c.x + c.width { e.0 } else { c.x + c.width },
            if e.1 >= c.y + c.height { e.1 } else { c.y + c.height },
        )
    }
}

/// `max` clamped to the optional limit.
pub open spec fn clamp_to(v: int, limit: Option<i32>) -> int {
    match limit {
        Some(m) => if m <= v { m as int } else { v },
        None => v,
    }
}

/// The absolute layout's sizing of an element after its children: with
/// `auto_size` set it grows to hold them, up to its maximum size.
pub open spec fn absolute_finalize(obj: RenderObject, children: Seq<RenderObject>, result: RenderObject) -> bool {
    let auto = match lookup(obj.vars@, "auto_size"@) {
        Some(Value::Boolean(b)) => b,
        _ => false,
    };
    let e = extent(obj.min_size, children, children.len() as int);
    if !auto {
        result == obj
    } else {
        &&& result.draw_rect == (Rect {
            x: obj.draw_rect.x,
            y: obj.draw_rect.y,
            width: clamp_to(e.0, obj.max_size.0) as i32,
            height: clamp_to(e.1, obj.max_size.1) as i32,
        })
        &&& result.min_size == obj.min_size
        &&& result.max_size == obj.max_size
        &&& result.vars == obj.vars
            &&& result.render_info == obj.render_info
        &&& result.text == obj.text
        &&& result.scroll_position == obj.scroll_position
        &&& result.clip_overflow == obj.clip_overflow
    }
}

/// Everything but the width and height of the draw rectangle is as it was.
pub open spec fn keeps_all_but_size(a: RenderObject, b: RenderObject) -> bool {
    &&& b.draw_rect.x == a.draw_rect.x
    &&& b.draw_rect.y == a.draw_rect.y
    &&& b.min_size == a.min_size
    &&& b.max_size == a.max_size
    &&& b.vars == a.vars
    &&& b.render_info == a.render_info
    &&& b.text == a.text
    &&& b.scroll_position == a.scroll_position
    &&& b.clip_overflow == a.clip_overflow
}

/// Whether the absolute layout's sizing stays in the range of `i32`.
pub open spec fn extent_fits(obj: RenderObject, children: Seq<RenderObject>) -> bool {
    forall|k: int| 0 <= k < children.len() ==> {
        let c = #[trigger] children[k].draw_rect;
        i32::MIN <= c.x + c.width <= i32::MAX && i32::MIN <= c.y + c.height <= i32::MAX
    }
}

pub fn absolute_finalize_layout(obj: &mut RenderObject, children: &Vec<RenderObject>)
    requires
        old(obj).wf(),
    ensures
        extent_fits(*old(obj), children@) ==> absolute_finalize(*old(obj), children@, *final(obj)),
        final(obj).wf(),
        keeps_all_but_size(*old(obj), *final(obj)),
        !(lookup(old(obj).vars@, "auto_size"@) matches Some(Value::Boolean(true))) ==> *final(obj) == *old(obj),
{
    proof {
        reveal_strlit("auto_size");
    }
    let auto = match get_key(&obj.vars, "auto_size") {
        Some(Value::Boolean(b)) => b,
        _ => false,
    };
    if !auto {
        return;
    }
    let mut max_x: i32 = obj.min_size.0;
    let mut max_y: i32 = obj.min_size.1;
    let mut k: usize = 0;
    while k < children.len()
        invariant
            k <= children@.len(),
            *obj == *old(obj),
            obj.wf(),
            (max_x as int, max_y as int) == extent(obj.min_size, children@, k as int),
        decreases children@.len() - k,
    {
        let c = children[k].draw_rect;
        let right = c.x as i64 + c.width as i64;
        let bottom = c.y as i64 + c.height as i64;
        if right > max_x as i64 {
            if right > i32::MAX as i64 || right < i32::MIN as i64 {
                return;
            }
            max_x = right as i32;
        }
        if bottom > max_y as i64 {
            if bottom > i32::MAX as i64 || bottom < i32::MIN as i64 {
                return;
            }
            max_y = bottom as i32;
        }
        k += 1;
    }
    if let Some(m) = obj.max_size.0 {
        if m <= max_x {
            max_x = m;
        }
    }
    if let Some(m) = obj.max_size.1 {
        if m <= max_y {
            max_y = m;
        }
    }
    obj.draw_rect.width = max_x;
    obj.draw_rect.height = max_y;
}

impl Engine {
    pub fn pre_position_child(&mut self, obj: &mut RenderObject, parent: &RenderObject)
        ensures
            *old(self) is Absolute && old(obj).wf() ==> absolute_pre_position(*old(obj), *final(obj)),
            *old(self) is Absolute ==> *final(self) is Absolute,
    {
        match self {
            Engine::Absolute => if obj.wf_exec() {
                absolute_pre_position_child(obj)
            },
            Engine::Custom(e) => e.pre_position_child(obj, parent),
        }
    }

    pub fn post_position_child(&mut self, obj: &mut RenderObject, parent: &RenderObject)
        ensures
            *old(self) is Absolute ==> *final(obj) == *old(obj),
            *old(self) is Absolute ==> *final(self) is Absolute,
    {
        match self {
            Engine::Absolute => {},
            Engine::Custom(e) => e.post_position_child(obj, parent),
        }
    }

    pub fn finalize_layout(&mut self, obj: &mut RenderObject, children: &mut Vec<RenderObject>)
        ensures
            *old(self) is Absolute && old(obj).wf() ==> (extent_fits(*old(obj), old(children)@) ==> absolute_finalize(
                *old(obj),
                old(children)@,
                *final(obj),
            )),
            *old(self) is Absolute && old(obj).wf() ==> keeps_all_but_size(*old(obj), *final(obj)),
            *old(self) is Absolute && old(obj).wf() && !(lookup(old(obj).vars@, "auto_size"@) matches Some(
                Value::Boolean(true),
            )) ==> *final(obj) == *old(obj),
            *old(self) is Absolute ==> final(children)@ == old(children)@,
            *old(self) is Absolute ==> *final(self) is Absolute,
    {
        match self {
            Engine::Absolute => if obj.wf_exec() {
                absolute_finalize_layout(obj, children)
            },
            Engine::Custom(e) => e.finalize_layout(obj, children),
        }
    }
}

/// An element with a name, or a run of text.
#[derive(Debug, Clone)]
pub enum NodeValue {
    Element(String),
    Text(String),
}

/// A node of the tree: an element, or a text leaf.
///
/// A node owns its children; a node inside a tree is reached by the indices
/// of the children that lead to it.
pub struct Node {
    pub value: NodeValue,
    pub properties: Vec<(String, Value)>,
    pub children: Vec<Node>,
    pub dirty: bool,
    pub render_object: Option<RenderObject>,
    pub engine: Engine,
}

/// A node's own data, without its children.
pub open spec fn same_own_data(a: Node, b: Node) -> bool {
    &&& a.value == b.value
    &&& a.properties == b.properties
    &&& a.dirty == b.dirty
    &&& a.render_object == b.render_object
}

impl Node {
    /// Properties have unique keys, text has no children, and so for every descendant.
    pub open spec fn wf(&self) -> bool
        decreases self,
    {
        &&& keys_unique(self.properties@)
        &&& (self.value is Text ==> self.children@.len() == 0)
        &&& (self.render_object matches Some(o) ==> o.wf())
        &&& forall|i: int| 0 <= i < self.children@.len() ==> (#[trigger] self.children@[i]).wf()
    }

    /// This node or one below it is marked dirty.
    pub open spec fn tree_dirty(&self) -> bool
        decreases self,
    {
        self.dirty || exists|i: int| 0 <= i < self.children@.len() && (#[trigger] self.children@[i]).tree_dirty()
    }

    pub open spec fn is_element(&self) -> bool {
        self.value is Element
    }

    pub open spec fn is_fresh(&self) -> bool {
        &&& self.properties@.len() == 0
        &&& self.children@.len() == 0
        &&& self.dirty
        &&& self.render_object is None
    }

    /// Creates a new element with the given name.
    pub fn new(name: &str) -> (r: Node)
        ensures
            r.value matches NodeValue::Element(n) && n@ == name@,
            r.is_fresh(),
            r.wf(),
    {
        Node {
            value: NodeValue::Element(String::from_str(name)),
            properties: Vec::new(),
            children: Vec::new(),
            dirty: true,
            render_object: None,
            engine: Engine::Absolute,
        }
    }

    /// Creates a new text node with the given text.
    pub fn new_text(text: &str) -> (r: Node)
        ensures
            r.value matches NodeValue::Text(t) && t@ == text@,
            r.is_fresh(),
            r.wf(),
    {
        Node {
            value: NodeValue::Text(String::from_str(text)),
            properties: Vec::new(),
            children: Vec::new(),
            dirty: true,
            render_object: None,
            engine: Engine::Absolute,
        }
    }

    /// Adds the node as the last child of this element.
    pub fn add_child(&mut self, node: Node)
        requires
            old(self).is_element(),
            old(self).wf(),
            node.wf(),
        ensures
            final(self).children@ == old(self).children@.push(node),
            same_own_data(*final(self), *old(self)),
            final(self).wf(),
    {
        self.children.push(node);
        assert forall|i: int| 0 <= i < self.children@.len() implies #[trigger] self.children@[i].wf() by {
            if i < old(self).children@.len() {
                assert(self.children@[i] == old(self).children@[i]);
            }
        }
    }

    /// Adds the node as the first child of this element.
    pub fn add_child_first(&mut self, node: Node)
        requires
            old(self).is_element(),
            old(self).wf(),
            node.wf(),
        ensures
            final(self).children@ == seq![node] + old(self).children@,
            same_own_data(*final(self), *old(self)),
            final(self).wf(),
    {
        self.children.insert(0, node);
        assert(self.children@ =~= seq![node] + old(self).children@);
        assert forall|i: int| 0 <= i < self.children@.len() implies #[trigger] self.children@[i].wf() by {
            if i > 0 {
                assert(self.children@[i] == old(self).children@[i - 1]);
            }
        }
    }

    /// Removes the child at `index` and hands it back, detached; marks this node dirty.
    pub fn remove_child(&mut self, index: usize) -> (r: Node)
        requires
            old(self).is_element(),
            old(self).wf(),
            index < old(self).children@.len(),
        ensures
            r == old(self).children@[index as int],
            final(self).children@ == old(self).children@.remove(index as int),
            final(self).dirty,
            final(self).value == old(self).value,
            final(self).properties == old(self).properties,
            final(self).render_object == old(self).render_object,
            final(self).wf(),
            r.wf(),
    {
        let r = self.children.remove(index);
        self.dirty = true;
        assert forall|i: int| 0 <= i < self.children@.len() implies #[trigger] self.children@[i].wf() by {
            if i < index {
                assert(self.children@[i] == old(self).children@[i]);
            } else {
                assert(self.children@[i] == old(self).children@[i + 1]);
            }
        }
        r
    }

    /// The children of this node, in order.
    pub fn children(&self) -> (r: &Vec<Node>)
        ensures
            r == self.children,
    {
        &self.children
    }

    /// The child at `index`, to change it in place.
    pub fn child_mut(&mut self, index: usize) -> (r: &mut Node)
        requires
            index < old(self).children@.len(),
        ensures
            *r == old(self).children@[index as int],
            final(self).children@ == old(self).children@.update(index as int, *final(r)),
            same_own_data(*final(self), *old(self)),
    {
        &mut self.children[index]
    }

    /// The name of the node if it is an element.
    pub fn name(&self) -> (r: Option<String>)
        ensures
            match self.value {
                NodeValue::Element(n) => r matches Some(m) && m@ == n@,
                NodeValue::Text(_) => r is None,
            },
    {
        match &self.value {
            NodeValue::Element(n) => Some(n.clone()),
            NodeValue::Text(_) => None,
        }
    }

    /// The text of the node if it is text.
    pub fn text(&self) -> (r: Option<String>)
        ensures
            match self.value {
                NodeValue::Text(t) => r matches Some(m) && m@ == t@,
                NodeValue::Element(_) => r is None,
            },
    {
        match &self.value {
            NodeValue::Text(t) => Some(t.clone()),
            NodeValue::Element(_) => None,
        }
    }

    /// Sets the text of the node if it is text, and marks it dirty.
    pub fn set_text(&mut self, txt: &str)
        ensures
            match old(self).value {
                NodeValue::Text(_) => final(self).value matches NodeValue::Text(t) && t@ == txt@ && final(self).dirty,
                NodeValue::Element(_) => final(self).value == old(self).value && final(self).dirty == old(self).dirty,
            },
            final(self).properties == old(self).properties,
            final(self).children == old(self).children,
            final(self).render_object == old(self).render_object,
    {
        if let NodeValue::Text(_) = self.value {
            self.value = NodeValue::Text(String::from_str(txt));
            self.dirty = true;
        }
    }

    /// Whether the layout of this node has been computed at least once.
    pub fn has_layout(&self) -> (r: bool)
        ensures
            r == self.render_object is Some,
    {
        self.render_object.is_some()
    }

    /// The result of the last layout of this node.
    pub fn render_object(&self) -> (r: &RenderObject)
        requires
            self.render_object is Some,
        ensures
            Some(*r) == self.render_object,
    {
        self.render_object.as_ref().unwrap()
    }

    /// The position of the node relative to its parent, as laid out;
    /// the empty rectangle before any layout.
    pub fn raw_position(&self) -> (r: Rect)
        ensures
            r == (match self.render_object {
                Some(o) => o.draw_rect,
                None => Rect { x: 0, y: 0, width: 0, height: 0 },
            }),
    {
        match &self.render_object {
            Some(o) => o.draw_rect,
            None => Rect::zero(),
        }
    }

    /// The property `key` as a `V`.
    pub fn get_property<V: PropertyValue>(&self, key: &str) -> (r: Option<V>)
        requires
            self.wf(),
        ensures
            r == (match lookup(self.properties@, key@) {
                Some(v) => V::from_value(v),
                None => None,
            }),
    {
        match find_key(&self.properties, key) {
            Some(i) => V::convert_from(&self.properties[i].1),
            None => None,
        }
    }

    /// The handle of the custom property `key`.
    pub fn get_custom_property(&self, key: &str) -> (r: Option<u64>)
        requires
            self.wf(),
        ensures
            r == (match lookup(self.properties@, key@) {
                Some(Value::Any(h)) => Some(h),
                _ => None,
            }),
    {
        match get_key(&self.properties, key) {
            Some(Value::Any(h)) => Some(h),
            _ => None,
        }
    }

    /// Sets the property and marks the node dirty.
    pub fn set_property<V: PropertyValue>(&mut self, key: &str, value: V)
        requires
            old(self).wf(),
        ensures
            final(self).wf(),
            final(self).dirty,
            forall|q: Seq<char>| #[trigger] lookup(final(self).properties@, q) == if q == key@ {
                Some(value.into_value())
            } else {
                lookup(old(self).properties@, q)
            },
            final(self).value == old(self).value,
            final(self).children == old(self).children,
            final(self).render_object == old(self).render_object,
    {
        set_key(&mut self.properties, String::from_str(key), value.convert_into());
        self.dirty = true;
    }

    /// Sets the property to the handle of a custom value and marks the node dirty.
    pub fn set_custom_property<C: CustomValue>(&mut self, key: &str, value: &C)
        requires
            old(self).wf(),
        ensures
            final(self).wf(),
            final(self).dirty,
            lookup(final(self).properties@, key@) matches Some(Value::Any(_)),
            forall|q: Seq<char>| q != key@ ==> #[trigger] lookup(final(self).properties@, q) == lookup(old(self).properties@, q),
            final(self).value == old(self).value,
            final(self).children == old(self).children,
            final(self).render_object == old(self).render_object,
    {
        let h = value.handle();
        self.set_property(key, Value::Any(h));
    }

    /// Sets the property without marking the node dirty, for a renderer's own use.
    pub fn raw_set_property<V: PropertyValue>(&mut self, key: &str, value: V)
        requires
            old(self).wf(),
        ensures
            final(self).wf(),
            final(self).dirty == old(self).dirty,
            forall|q: Seq<char>| #[trigger] lookup(final(self).properties@, q) == if q == key@ {
                Some(value.into_value())
            } else {
                lookup(old(self).properties@, q)
            },
            final(self).value == old(self).value,
            final(self).children == old(self).children,
            final(self).render_object == old(self).render_object,
    {
        set_key(&mut self.properties, String::from_str(key), value.convert_into());
    }

    /// Removes the property and marks the node dirty.
    pub fn remove_property(&mut self, key: &str)
        requires
            old(self).wf(),
        ensures
            final(self).wf(),
            final(self).dirty,
            forall|q: Seq<char>| #[trigger] lookup(final(self).properties@, q) == if q == key@ {
                None
            } else {
                lookup(old(self).properties@, q)
            },
            final(self).value == old(self).value,
            final(self).children == old(self).children,
            final(self).render_object == old(self).render_object,
    {
        remove_key(&mut self.properties, key);
        self.dirty = true;
    }

    /// The style value `name` of the last layout, as a `V`.
    pub fn get_value<V: PropertyValue>(&self, name: &str) -> (r: Option<V>)
        requires
            self.wf(),
        ensures
            r == (match self.render_object {
                Some(o) => match lookup(o.vars@, name@) {
                    Some(v) => V::from_value(v),
                    None => None,
                },
                None => None,
            }),
    {
        match &self.render_object {
            Some(o) => o.get_value(name),
            None => None,
        }
    }

    /// The handle of the custom style value `name` of the last layout.
    pub fn get_custom_value(&self, name: &str) -> (r: Option<u64>)
        requires
            self.wf(),
        ensures
            r == (match self.render_object {
                Some(o) => match lookup(o.vars@, name@) {
                    Some(Value::Any(h)) => Some(h),
                    _ => None,
                },
                None => None,
            }),
    {
        match &self.render_object {
            Some(o) => o.get_custom_value(name),
            None => None,
        }
    }

    /// Whether this node or one below it is marked dirty.
    pub fn check_dirty(&self) -> (r: bool)
        ensures
            r == self.tree_dirty(),
        decreases self,
    {
        if self.dirty {
            return true;
        }
        let mut i: usize = 0;
        while i < self.children.len()
            invariant
                i <= self.children@.len(),
                !self.dirty,
                forall|j: int| 0 <= j < i ==> !(#[trigger] self.children@[j]).tree_dirty(),
            decreases self.children@.len() - i,
        {
            if self.children[i].check_dirty() {
                return true;
            }
            i += 1;
        }
        false
    }
}

} // verus!
