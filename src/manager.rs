use vstd::prelude::*;
use vstd::string::*;
use crate::cascade::{deref_rules, rules_call_free, scopes_view, scopes_wf, Scope};
use crate::eval::{boxed_function, Functions, StyleFunction};
use crate::lexer::{blank_end, ParseError};
use crate::node::{boxed_factory, Engine, LayoutFactory, Layouts, Node, NodeValue, RenderObject};
use crate::style::{doc_is, doc_spec, Document};
use crate::desc::{desc_spec, node_is};
use crate::value::{str_eq, Rect};
use crate::layout::{laid_out, layout_node, node_scope, ordered_rules, rule_order, scope_of, styled_tree};

verus! {

/// Everything that styles the tree: the loaded documents, in load order, the
/// layout engines and the style functions, by name.
pub struct Styles {
    pub docs: Vec<(String, Document)>,
    pub layouts: Layouts,
    pub funcs: Functions,
}

/// Called for every laid-out element in a manager so that it can be rendered.
pub trait RenderVisitor {
    /// Called with an element before its children.
    fn visit(&mut self, obj: &mut RenderObject);

    /// Called with an element after all of its children.
    fn visit_end(&mut self, obj: &mut RenderObject);
}

/// The two trees differ at most in their render objects.
pub open spec fn same_shape(a: Node, b: Node) -> bool
    decreases a,
{
    &&& a.value == b.value
    &&& a.properties == b.properties
    &&& a.dirty == b.dirty
    &&& (a.render_object is Some) == (b.render_object is Some)
    &&& a.children@.len() == b.children@.len()
    &&& forall|k: int| 0 <= k < a.children@.len() ==> same_shape(#[trigger] a.children@[k], b.children@[k])
}

/// Hands the render objects of a subtree to the visitor, depth first: each
/// element before its children, then again after them.
pub(crate) fn render_node<V: RenderVisitor>(start: Node, visitor: &mut V) -> (r: Node)
    requires
        start.wf(),
    ensures
        r.wf(),
        r.value == start.value,
        r.properties == start.properties,
        r.dirty == start.dirty,
        r.children@.len() == start.children@.len(),
        (r.render_object is Some) == (start.render_object is Some),
        same_shape(r, start),
    decreases start,
{
    let ghost orig = start;
    let mut node = start;
    if let Some(mut o) = node.render_object.take() {
        visitor.visit(&mut o);
        if !o.wf_exec() {
            o.vars = Vec::new();
        }
        node.render_object = Some(o);
    }
    let mut children: Vec<Node> = Vec::new();
    std::mem::swap(&mut children, &mut node.children);
    let ghost old_children = children@;
    let n = children.len();
    let mut done: Vec<Node> = Vec::new();
    let mut k: usize = 0;
    while k < n
        invariant
            k <= n,
            n == old_children.len(),
            children@ == old_children.subrange(k as int, n as int),
            done@.len() == k,
            old_children == orig.children@,
            orig == start,
            orig.wf(),
            forall|j: int| 0 <= j < k ==> (#[trigger] done@[j]).wf(),
            forall|j: int| 0 <= j < k ==> same_shape(#[trigger] done@[j], old_children[j]),
        decreases n - k,
    {
        let c = children.remove(0);
        assert(c == orig.children@[k as int]);
        assert(decreases_to!(orig => c));
        let c2 = render_node(c, visitor);
        let ghost prev = done@;
        done.push(c2);
        assert forall|j: int| 0 <= j < k + 1 implies same_shape(#[trigger] done@[j], old_children[j]) by {
            if j < k {
                assert(done@[j] == prev[j]);
            }
        }
        k += 1;
        assert(children@ =~= old_children.subrange(k as int, n as int));
    }
    node.children = done;
    if let Some(mut o) = node.render_object.take() {
        visitor.visit_end(&mut o);
        if !o.wf_exec() {
            o.vars = Vec::new();
        }
        node.render_object = Some(o);
    }
    node
}

/// Stores the nodes and styles and lays them out.
pub struct Manager {
    /// The root: an element named `root` with no parent; it holds the added nodes.
    pub root: Node,
    pub styles: Styles,
    pub last_size: (i32, i32),
    pub dirty: bool,
}

impl Manager {
    pub open spec fn wf(&self) -> bool {
        &&& self.root.wf()
        &&& self.root.value matches NodeValue::Element(n) && n@ == "root"@
    }

    /// Every node below the root that is not waiting for layout (dirty) has been
    /// laid out, with everything below it.
    pub open spec fn settled(&self) -> bool {
        forall|i: int| 0 <= i < self.root.children@.len() ==> (#[trigger] self.root.children@[i]).tree_dirty() || laid_out(
            self.root.children@[i],
        )
    }

    /// Whether `layout(width, height)` has work to do: the size changed, styles
    /// changed, or a node below the root is dirty.
    pub open spec fn needs_layout(&self, width: i32, height: i32) -> bool {
        ||| self.last_size != (width, height)
        ||| self.dirty
        ||| exists|i: int| 0 <= i < self.root.children@.len() && (#[trigger] self.root.children@[i]).tree_dirty()
    }

    /// Creates a manager with an empty root.
    pub fn new() -> (r: Manager)
        ensures
            r.wf(),
            r.root.children@.len() == 0,
            r.styles.docs@.len() == 0,
            r.dirty,
            r.settled(),
    {
        proof {
            reveal_strlit("root");
        }
        let mut root = Node::new("root");
        root.dirty = false;
        root.render_object = Some(RenderObject::new());
        Manager {
            root,
            styles: Styles { docs: Vec::new(), layouts: Layouts::new(), funcs: Functions::new() },
            last_size: (0, 0),
            dirty: true,
        }
    }

    /// The root node.
    pub fn root(&self) -> (r: &Node)
        ensures
            *r == self.root,
    {
        &self.root
    }

    /// The top-level node at `index`, to change it in place.
    pub fn node_mut(&mut self, index: usize) -> (r: &mut Node)
        requires
            index < old(self).root.children@.len(),
        ensures
            *r == old(self).root.children@[index as int],
            final(self).root.children@ == old(self).root.children@.update(index as int, *final(r)),
            same_root(final(self).root, old(self).root),
            final(self).styles == old(self).styles,
            final(self).last_size == old(self).last_size,
            final(self).dirty == old(self).dirty,
    {
        self.root.child_mut(index)
    }

    /// Adds a layout engine that styles can select by name with `layout`.
    pub fn add_layout_engine<F: LayoutFactory + 'static>(&mut self, name: &str, creator: F)
        ensures
            final(self).styles.layouts.entries@ == old(self).styles.layouts.entries@.push(final(self).styles.layouts.entries@.last()),
            final(self).styles.layouts.entries@.last().name@ == name@,
            final(self).root == old(self).root,
            final(self).styles.docs == old(self).styles.docs,
            final(self).styles.funcs == old(self).styles.funcs,
    {
        self.styles.layouts.add(name, boxed_factory(creator));
        assert(self.styles.layouts.entries@ =~= old(self).styles.layouts.entries@.push(self.styles.layouts.entries@.last()));
    }

    /// Adds a function that styles can call by name.
    pub fn add_func_raw<F: StyleFunction + 'static>(&mut self, name: &str, func: F)
        ensures
            final(self).styles.funcs.entries@ == old(self).styles.funcs.entries@.push(final(self).styles.funcs.entries@.last()),
            final(self).styles.funcs.entries@.last().name@ == name@,
            final(self).root == old(self).root,
            final(self).styles.docs == old(self).styles.docs,
            final(self).styles.layouts == old(self).styles.layouts,
    {
        self.styles.funcs.add(name, boxed_function(func));
        assert(self.styles.funcs.entries@ =~= old(self).styles.funcs.entries@.push(self.styles.funcs.entries@.last()));
    }

    /// Adds the node below the root.
    pub fn add_node(&mut self, node: Node)
        requires
            old(self).wf(),
            node.wf(),
        ensures
            final(self).wf(),
            final(self).root.children@ == old(self).root.children@.push(node),
            final(self).dirty == old(self).dirty,
            final(self).last_size == old(self).last_size,
            old(self).settled() && (node.tree_dirty() || laid_out(node)) ==> final(self).settled(),
    {
        self.root.add_child(node);
        assert forall|i: int| 0 <= i < old(self).root.children@.len() implies self.root.children@[i] == old(self).root.children@[i] by {}
    }

    /// Adds the node described by the text below the root; see [`Node::from_str`].
    pub fn add_node_str(&mut self, source: &str) -> (r: Result<(), ParseError>)
        requires
            old(self).wf(),
        ensures
            final(self).wf(),
            r is Ok ==> final(self).root.children@.len() == old(self).root.children@.len() + 1,
            r is Err ==> final(self).root == old(self).root,
            r is Ok <==> desc_spec(source@) is Some,
            r is Ok ==> node_is(final(self).root.children@.last(), desc_spec(source@).unwrap()),
            r is Ok ==> final(self).root.children@.drop_last() == old(self).root.children@,
            old(self).settled() ==> final(self).settled(),
            final(self).dirty == old(self).dirty,
    {
        let node = Node::from_str(source)?;
        self.add_node(node);
        assert(self.root.children@.drop_last() =~= old(self).root.children@);
        Ok(())
    }

    /// Removes the top-level node at `index` and hands it back.
    pub fn remove_node(&mut self, index: usize) -> (r: Node)
        requires
            old(self).wf(),
            index < old(self).root.children@.len(),
        ensures
            final(self).wf(),
            r == old(self).root.children@[index as int],
            final(self).root.children@ == old(self).root.children@.remove(index as int),
            final(self).dirty,
            old(self).settled() ==> final(self).settled(),
    {
        let r = self.root.remove_child(index);
        self.dirty = true;
        assert forall|i: int| old(self).settled() && 0 <= i < self.root.children@.len() implies (#[trigger] self.root.children@[i]).tree_dirty()
            || laid_out(self.root.children@[i]) by {
            {
                if i < index {
                    assert(self.root.children@[i] == old(self).root.children@[i]);
                } else {
                    assert(self.root.children@[i] == old(self).root.children@[i + 1]);
                }
            }
        }
        r
    }

    /// Loads a style document under a name, in place of one loaded under that name before.
    pub fn load_styles(&mut self, name: &str, source: &str) -> (r: Result<(), ParseError>)
        ensures
            r is Ok ==> final(self).dirty,
            r is Ok ==> final(self).styles.docs@.len() >= 1 && final(self).styles.docs@.last().0@ == name@,
            r is Ok ==> final(self).styles.docs@.drop_last() == old(self).styles.docs@.filter(
                |d: (String, Document)| d.0@ != name@,
            ),
            r is Ok ==> final(self).styles.docs@.last().1.wf(),
            r is Ok <==> doc_spec(source@) is Some,
            r is Ok ==> doc_is(final(self).styles.docs@.last().1, doc_spec(source@).unwrap()),
            r is Err ==> *final(self) == *old(self),
            blank_end(source@, 0) == source@.len() ==> r is Ok,
            final(self).root == old(self).root,
    {
        let doc = Document::parse(source)?;
        self.remove_docs_named(name);
        let ghost kept = self.styles.docs@;
        self.styles.docs.push((String::from_str(name), doc));
        assert(self.styles.docs@.drop_last() =~= kept);
        self.dirty = true;
        Ok(())
    }

    /// Removes the style document loaded under the name.
    pub fn remove_styles(&mut self, name: &str)
        ensures
            final(self).dirty,
            final(self).styles.docs@ == old(self).styles.docs@.filter(|d: (String, Document)| d.0@ != name@),
            final(self).root == old(self).root,
    {
        self.remove_docs_named(name);
        self.dirty = true;
    }

    fn remove_docs_named(&mut self, name: &str)
        ensures
            final(self).styles.docs@ == old(self).styles.docs@.filter(|d: (String, Document)| d.0@ != name@),
            final(self).root == old(self).root,
            final(self).dirty == old(self).dirty,
            final(self).last_size == old(self).last_size,
            final(self).styles.layouts == old(self).styles.layouts,
            final(self).styles.funcs == old(self).styles.funcs,
    {
        let ghost keep = |d: (String, Document)| d.0@ != name@;
        let mut docs: Vec<(String, Document)> = Vec::new();
        std::mem::swap(&mut docs, &mut self.styles.docs);
        let ghost orig = docs@;
        let n = docs.len();
        let mut kept: Vec<(String, Document)> = Vec::new();
        let mut i: usize = 0;
        assert(orig.subrange(0, 0).filter(keep) =~= Seq::<(String, Document)>::empty()) by {
            reveal(Seq::filter);
        }
        while i < n
            invariant
                i <= n,
                n == orig.len(),
                docs@ == orig.subrange(i as int, n as int),
                kept@ == orig.subrange(0, i as int).filter(keep),
                keep == (|d: (String, Document)| d.0@ != name@),
                self.root == old(self).root,
                self.dirty == old(self).dirty,
                self.last_size == old(self).last_size,
                self.styles.layouts == old(self).styles.layouts,
                self.styles.funcs == old(self).styles.funcs,
                orig == old(self).styles.docs@,
            decreases n - i,
        {
            let d = docs.remove(0);
            assert(d == orig[i as int]);
            let ghost before = kept@;
            let ghost dv = d;
            let keep_it = !str_eq(d.0.as_str(), name);
            if keep_it {
                kept.push(d);
            }
            proof {
                reveal(Seq::filter);
                let s1 = orig.subrange(0, i + 1);
                assert(s1.drop_last() =~= orig.subrange(0, i as int));
                assert(s1.last() == dv);
                assert(keep_it == (dv.0@ != name@));
                assert(keep(dv) == (dv.0@ != name@));
                assert(s1.filter(keep) == if keep(dv) { before.push(dv) } else { before });
            }
            i += 1;
            assert(docs@ =~= orig.subrange(i as int, n as int));
        }
        assert(orig.subrange(0, n as int) =~= orig);
        self.styles.docs = kept;
    }

    /// Lays out the nodes for a view of the given size; true where any work was done.
    ///
    /// Every top-level node whose subtree is dirty is laid out afresh; where the size
    /// or the styles changed, everything is.
    pub fn layout(&mut self, width: i32, height: i32) -> (r: bool)
        requires
            old(self).wf(),
        ensures
            final(self).wf(),
            layout_post(*old(self), *final(self), width, height, r),
            final(self).root.render_object matches Some(o) && o.draw_rect == (Rect { x: 0, y: 0, width, height }),
            final(self).root.children@.len() == old(self).root.children@.len(),
            r ==> forall|i: int| 0 <= i < final(self).root.children@.len() ==> laid_out(#[trigger] final(self).root.children@[i]),
            old(self).settled() ==> forall|i: int| 0 <= i < final(self).root.children@.len() ==> laid_out(
                #[trigger] final(self).root.children@[i],
            ),
            r || old(self).settled() ==> final(self).settled(),
            final(self).styles == old(self).styles,
            final(self).styles.layouts.entries@.len() == 0 && rules_call_free(rule_order(final(self).styles.docs@)) ==> forall|i: int|
                0 <= i < final(self).root.children@.len() && (old(self).last_size != (width, height) || old(self).dirty
                    || old(self).root.children@[i].tree_dirty()) ==> styled_tree(
                    #[trigger] final(self).root.children@[i],
                    rule_order(final(self).styles.docs@),
                    seq![node_scope(final(self).root)],
                    Rect { x: 0, y: 0, width, height },
                ),
    {
        proof {
            reveal_strlit("width");
            reveal_strlit("height");
            reveal_strlit("root");
        }
        let force = self.last_size.0 != width || self.last_size.1 != height || self.dirty;
        self.dirty = false;
        self.last_size = (width, height);
        self.root.set_property("width", width);
        self.root.set_property("height", height);
        let mut root_obj = RenderObject::new();
        root_obj.draw_rect = Rect { x: 0, y: 0, width, height };
        let mut children: Vec<Node> = Vec::new();
        std::mem::swap(&mut children, &mut self.root.children);
        let ghost old_children = children@;
        let n = children.len();
        let mut work = force;
        let mut i: usize = 0;
        while i < n
            invariant
                i <= n,
                n == children@.len(),
                n == old_children.len(),
                forall|j: int| 0 <= j < n ==> (#[trigger] children@[j]).wf(),
                forall|j: int| 0 <= j < n ==> {
                    let c = #[trigger] children@[j];
                    let o = old_children[j];
                    c.value == o.value && c.properties == o.properties && c.children == o.children
                        && c.dirty == o.dirty
                },
                forall|j: int| 0 <= j < i ==> old_children[j].tree_dirty() ==> (#[trigger] children@[j]).render_object is None,
                forall|j: int| 0 <= j < n ==> !old_children[j].tree_dirty() ==> #[trigger] children@[j] == old_children[j],
                work == (force || exists|j: int| 0 <= j < i && (#[trigger] old_children[j]).tree_dirty()),
            decreases n - i,
        {
            if children[i].check_dirty() {
                children[i].render_object = None;
                work = true;
            }
            i += 1;
        }
        if !work {
            assert(children@ =~= old_children);
            assert forall|j: int| 0 <= j < n implies !(#[trigger] old_children[j]).tree_dirty() by {}
            self.root.children = children;
            self.root.render_object = Some(root_obj);
            return false;
        }
        let rules = ordered_rules(&self.styles.docs);
        let mut scopes: Vec<Scope> = Vec::new();
        scopes.push(scope_of(&self.root));
        let ghost root_scopes = scopes@;
        assert(scopes_view(root_scopes) =~= seq![node_scope(self.root)]);
        let ghost exact = self.styles.layouts.entries@.len() == 0 && rules_call_free(rule_order(self.styles.docs@));
        let mut engine = Engine::Absolute;
        let mut done: Vec<Node> = Vec::new();
        let mut k: usize = 0;
        while k < n
            invariant
                k <= n,
                n == old_children.len(),
                children@.len() == n - k,
                forall|j: int| 0 <= j < children@.len() ==> (#[trigger] children@[j]).wf(),
                forall|j: int| 0 <= j < children@.len() ==> {
                    let c = #[trigger] children@[j];
                    let o = old_children[j + k];
                    (o.tree_dirty() ==> c.render_object is None) && (!o.tree_dirty() ==> c == o) && c.value == o.value
                        && c.properties == o.properties
                },
                done@.len() == k,
                scopes_wf(scopes@),
                root_obj.wf(),
                forall|j: int| 0 <= j < k ==> (#[trigger] done@[j]).wf(),
                forall|j: int| 0 <= j < k ==> laid_out(#[trigger] done@[j]),
                forall|j: int| 0 <= j < k ==> !(#[trigger] done@[j]).tree_dirty(),
                engine is Absolute,
                scopes@ == root_scopes,
                scopes_view(root_scopes) == seq![node_scope(self.root)],
                deref_rules(rules@) == rule_order(self.styles.docs@),
                root_obj.draw_rect == (Rect { x: 0, y: 0, width, height }),
                exact == (self.styles.layouts.entries@.len() == 0 && rules_call_free(rule_order(self.styles.docs@))),
                exact ==> forall|j: int| 0 <= j < k && (force || old_children[j].tree_dirty()) ==> styled_tree(
                    #[trigger] done@[j],
                    rule_order(self.styles.docs@),
                    seq![node_scope(self.root)],
                    root_obj.draw_rect,
                ),
            decreases n - k,
        {
            let c = children.remove(0);
            let ghost c_old = old_children[k as int];
            let ghost prev = done@;
            let c2 = layout_node(c, &root_obj, &mut engine, &rules, &mut scopes, &self.styles, force);
            done.push(c2);
            proof {
                assert forall|j: int| 0 <= j < k + 1 && exact && (force || old_children[j].tree_dirty()) implies styled_tree(
                    #[trigger] done@[j],
                    rule_order(self.styles.docs@),
                    seq![node_scope(self.root)],
                    root_obj.draw_rect,
                ) by {
                    if j < k {
                        assert(done@[j] == prev[j]);
                    }
                }
            }
            k += 1;
        }
        self.root.children = done;
        self.root.render_object = Some(root_obj);
        true
    }

    /// Hands every laid-out element to the visitor, depth first.
    pub fn render<V: RenderVisitor>(&mut self, visitor: &mut V)
        requires
            old(self).wf(),
        ensures
            final(self).wf(),
            final(self).root.children@.len() == old(self).root.children@.len(),
            forall|i: int| 0 <= i < final(self).root.children@.len() ==> same_shape(
                #[trigger] final(self).root.children@[i],
                old(self).root.children@[i],
            ),
            same_root(final(self).root, old(self).root),
            final(self).styles == old(self).styles,
            final(self).last_size == old(self).last_size,
            final(self).dirty == old(self).dirty,
    {
        let mut children: Vec<Node> = Vec::new();
        std::mem::swap(&mut children, &mut self.root.children);
        let ghost old_children = children@;
        assert(children@.subrange(0, children@.len() as int) =~= children@);
        let n = children.len();
        let mut done: Vec<Node> = Vec::new();
        let mut k: usize = 0;
        while k < n
            invariant
                k <= n,
                n == old_children.len(),
                children@ == old_children.subrange(k as int, n as int),
                forall|j: int| 0 <= j < old_children.len() ==> (#[trigger] old_children[j]).wf(),
                done@.len() == k,
                forall|j: int| 0 <= j < k ==> (#[trigger] done@[j]).wf(),
                forall|j: int| 0 <= j < k ==> same_shape(#[trigger] done@[j], old_children[j]),
                self.root.value == old(self).root.value,
                self.root.properties == old(self).root.properties,
                self.root.dirty == old(self).root.dirty,
                self.root.render_object == old(self).root.render_object,
                self.styles == old(self).styles,
                self.last_size == old(self).last_size,
                self.dirty == old(self).dirty,
                old_children == old(self).root.children@,
            decreases n - k,
        {
            let c = children.remove(0);
            assert(c == old_children[k as int]);
            let c2 = render_node(c, visitor);
            let ghost prev = done@;
            done.push(c2);
            assert forall|j: int| 0 <= j < k + 1 implies same_shape(#[trigger] done@[j], old_children[j]) by {
                if j < k {
                    assert(done@[j] == prev[j]);
                }
            }
            k += 1;
            assert(children@ =~= old_children.subrange(k as int, n as int));
        }
        self.root.children = done;
    }
}

/// The root kept its own data.
pub open spec fn same_root(a: Node, b: Node) -> bool {
    a.value == b.value && a.properties == b.properties && a.dirty == b.dirty && a.render_object == b.render_object
}

/// What a layout of the given size leaves: it did work exactly when work was
/// needed, left the tree alone otherwise, and leaves nothing more to do.
pub open spec fn layout_post(pre: Manager, post: Manager, width: i32, height: i32, r: bool) -> bool {
    &&& r == pre.needs_layout(width, height)
    &&& !r ==> post.root.children@ == pre.root.children@
    &&& !post.needs_layout(width, height)
}

/// Layout settles: a second layout of the same size, with nothing changed in
/// between, does no work and leaves the tree as the first left it.
pub proof fn lemma_layout_settles(
    m0: Manager,
    m1: Manager,
    m2: Manager,
    width: i32,
    height: i32,
    r1: bool,
    r2: bool,
)
    requires
        layout_post(m0, m1, width, height, r1),
        layout_post(m1, m2, width, height, r2),
    ensures
        !r2,
        m2.root.children@ == m1.root.children@,
{
}

/// A node below the root that is marked dirty, or has a dirty node below it,
/// makes the next layout do work, whatever the size.
pub proof fn lemma_dirty_forces_layout(m: Manager, i: int, width: i32, height: i32)
    requires
        0 <= i < m.root.children@.len(),
        m.root.children@[i].tree_dirty(),
    ensures
        m.needs_layout(width, height),
{
}

/// A change to a top-level node that keeps its dirty flag and its children (as
/// `raw_set_property` does) leaves the need for layout as it was.
pub proof fn lemma_raw_change_keeps_layout(m1: Manager, m2: Manager, i: int, width: i32, height: i32)
    requires
        0 <= i < m1.root.children@.len(),
        m2.root.children@ == m1.root.children@.update(i, m2.root.children@[i]),
        m2.root.children@[i].dirty == m1.root.children@[i].dirty,
        m2.root.children@[i].children == m1.root.children@[i].children,
        m2.last_size == m1.last_size,
        m2.dirty == m1.dirty,
    ensures
        m2.needs_layout(width, height) == m1.needs_layout(width, height),
{
    assert(m2.root.children@[i].tree_dirty() == m1.root.children@[i].tree_dirty());
    assert forall|j: int| 0 <= j < m1.root.children@.len() implies #[trigger] m2.root.children@[j].tree_dirty()
        == m1.root.children@[j].tree_dirty() by {
        if j != i {
            assert(m2.root.children@[j] == m1.root.children@[j]);
        }
    }
    if m1.needs_layout(width, height) && m1.last_size == (width, height) && !m1.dirty {
        let j = choose|j: int| 0 <= j < m1.root.children@.len() && (#[trigger] m1.root.children@[j]).tree_dirty();
        assert(m2.root.children@[j].tree_dirty());
    }
    if m2.needs_layout(width, height) && m2.last_size == (width, height) && !m2.dirty {
        let j = choose|j: int| 0 <= j < m2.root.children@.len() && (#[trigger] m2.root.children@[j]).tree_dirty();
        assert(m1.root.children@[j].tree_dirty());
    }
}

} // verus!
