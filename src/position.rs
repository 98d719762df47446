//! Where nodes are drawn: paths from the root and rectangles seen through
//! their ancestors' scroll and clip.
use vstd::prelude::*;
use crate::manager::Manager;
use crate::node::{Node, RenderObject};
use crate::value::Rect;

verus! {

/// The nodes on the way from `n` down a path of child indices, `n` first.
pub open spec fn path_nodes(n: Node, path: Seq<usize>) -> Option<Seq<Node>>
    decreases path.len(),
{
    if path.len() == 0 {
        Some(seq![n])
    } else if path[0] < n.children@.len() {
        match path_nodes(n.children@[path[0] as int], path.drop_first()) {
            Some(rest) => Some(seq![n] + rest),
            None => None,
        }
    } else {
        None
    }
}

/// A rectangle seen through a parent: shifted back by its scroll offset, cropped to its
/// size where it clips, then moved by its position; nothing where no area is left.
pub open spec fn through_parent(r: Rect, p: RenderObject) -> Option<Rect> {
    let x0 = r.x.wrapping_sub(p.scroll_position.0);
    let y0 = r.y.wrapping_sub(p.scroll_position.1);
    let (x1, w1) = if p.clip_overflow && x0 < 0 { (0i32, r.width.wrapping_add(x0)) } else { (x0, r.width) };
    let (y1, h1) = if p.clip_overflow && y0 < 0 { (0i32, r.height.wrapping_add(y0)) } else { (y0, r.height) };
    let w2 = if p.clip_overflow && x1.wrapping_add(w1) >= p.draw_rect.width {
        p.draw_rect.width.wrapping_sub(x1)
    } else {
        w1
    };
    let h2 = if p.clip_overflow && y1.wrapping_add(h1) >= p.draw_rect.height {
        p.draw_rect.height.wrapping_sub(y1)
    } else {
        h1
    };
    if w2 <= 0 || h2 <= 0 {
        None
    } else {
        Some(Rect { x: x1.wrapping_add(p.draw_rect.x), y: y1.wrapping_add(p.draw_rect.y), width: w2, height: h2 })
    }
}

/// A rectangle seen through its ancestors (outermost first), nearest first.
pub open spec fn through_ancestors(r: Rect, ancestors: Seq<Node>) -> Option<Rect>
    decreases ancestors.len(),
{
    if ancestors.len() == 0 {
        Some(r)
    } else {
        match ancestors.last().render_object {
            None => None,
            Some(p) => match through_parent(r, p) {
                None => None,
                Some(r2) => through_ancestors(r2, ancestors.drop_last()),
            },
        }
    }
}

/// Where the node at the end of the path is drawn on screen: its rectangle through
/// every ancestor's scroll and clip; nothing where it or an ancestor was never laid
/// out, or where an ancestor clips it away.
pub open spec fn render_position_spec(root: Node, path: Seq<usize>) -> Option<Rect> {
    match path_nodes(root, path) {
        None => None,
        Some(nodes) => match nodes.last().render_object {
            None => None,
            Some(o) => through_ancestors(o.draw_rect, nodes.drop_last()),
        },
    }
}

pub(crate) fn through_parent_exec(r: Rect, p: &RenderObject) -> (res: Option<Rect>)
    ensures
        res == through_parent(r, *p),
{
    let x0 = r.x.wrapping_sub(p.scroll_position.0);
    let y0 = r.y.wrapping_sub(p.scroll_position.1);
    let (x1, w1) = if p.clip_overflow && x0 < 0 { (0i32, r.width.wrapping_add(x0)) } else { (x0, r.width) };
    let (y1, h1) = if p.clip_overflow && y0 < 0 { (0i32, r.height.wrapping_add(y0)) } else { (y0, r.height) };
    let w2 = if p.clip_overflow && x1.wrapping_add(w1) >= p.draw_rect.width {
        p.draw_rect.width.wrapping_sub(x1)
    } else {
        w1
    };
    let h2 = if p.clip_overflow && y1.wrapping_add(h1) >= p.draw_rect.height {
        p.draw_rect.height.wrapping_sub(y1)
    } else {
        h1
    };
    if w2 <= 0 || h2 <= 0 {
        None
    } else {
        Some(Rect { x: x1.wrapping_add(p.draw_rect.x), y: y1.wrapping_add(p.draw_rect.y), width: w2, height: h2 })
    }
}

impl Node {
    /// The nodes on the way down the path, this node first; `None` where an index is out of range.
    pub fn path_to(&self, path: &Vec<usize>) -> (r: Option<Vec<&Node>>)
        ensures
            match path_nodes(*self, path@) {
                Some(nodes) => r matches Some(v) && v@.map_values(|n: &Node| *n) == nodes,
                None => r is None,
            },
    {
        let mut nodes: Vec<&Node> = Vec::new();
        let mut cur: &Node = self;
        let mut k: usize = 0;
        assert(path@.subrange(0, path@.len() as int) =~= path@);
        while k < path.len()
            invariant
                k <= path@.len(),
                path_nodes(*self, path@) == match path_nodes(*cur, path@.subrange(k as int, path@.len() as int)) {
                    Some(rest) => Some(nodes@.map_values(|n: &Node| *n) + rest),
                    None => None::<Seq<Node>>,
                },
            decreases path@.len() - k,
        {
            let ghost rest = path@.subrange(k as int, path@.len() as int);
            assert(rest.drop_first() =~= path@.subrange(k + 1, path@.len() as int));
            let i = path[k];
            if i >= cur.children.len() {
                return None;
            }
            let ghost prev = nodes@.map_values(|n: &Node| *n);
            nodes.push(cur);
            assert(nodes@.map_values(|n: &Node| *n) =~= prev + seq![*cur]);
            proof {
                let next = cur.children@[i as int];
                match path_nodes(next, path@.subrange(k + 1, path@.len() as int)) {
                    Some(r2) => {
                        assert(prev + (seq![*cur] + r2) =~= (prev + seq![*cur]) + r2);
                    },
                    None => {},
                }
            }
            cur = &cur.children[i];
            k += 1;
        }
        let ghost prev = nodes@.map_values(|n: &Node| *n);
        nodes.push(cur);
        assert(nodes@.map_values(|n: &Node| *n) =~= prev + seq![*cur]);
        assert(path@.subrange(k as int, path@.len() as int).len() == 0);
        Some(nodes)
    }
}

impl Manager {
    /// Where the node at the end of the path (from the root) is drawn on screen; see
    /// [`render_position_spec`].
    pub fn render_position(&self, path: &Vec<usize>) -> (r: Option<Rect>)
        ensures
            r == render_position_spec(self.root, path@),
    {
        let nodes = match self.root.path_to(path) {
            Some(v) => v,
            None => {
                return None;
            },
        };
        let ghost seqn = nodes@.map_values(|n: &Node| *n);
        let last = nodes.len() - 1;
        let mut rect = match &nodes[last].render_object {
            Some(o) => o.draw_rect,
            None => {
                return None;
            },
        };
        let mut k = last;
        assert(seqn.drop_last() =~= seqn.subrange(0, last as int));
        while k > 0
            invariant
                k <= last,
                last + 1 == nodes@.len(),
                seqn == nodes@.map_values(|n: &Node| *n),
                render_position_spec(self.root, path@) == through_ancestors(rect, seqn.subrange(0, k as int)),
            decreases k,
        {
            let ghost anc = seqn.subrange(0, k as int);
            assert(anc.drop_last() =~= seqn.subrange(0, k - 1));
            let p = match &nodes[k - 1].render_object {
                Some(o) => o,
                None => {
                    return None;
                },
            };
            rect = match through_parent_exec(rect, p) {
                Some(r2) => r2,
                None => {
                    return None;
                },
            };
            k -= 1;
        }
        Some(rect)
    }
}

/// A rectangle that comes out through one or more ancestors has positive area:
/// where any ancestor clips it to nothing, nothing comes out.
pub proof fn lemma_position_has_area(r: Rect, ancestors: Seq<Node>)
    requires
        ancestors.len() > 0,
        through_ancestors(r, ancestors) is Some,
    ensures
        through_ancestors(r, ancestors).unwrap().width > 0,
        through_ancestors(r, ancestors).unwrap().height > 0,
    decreases ancestors.len(),
{
    let p = ancestors.last().render_object.unwrap();
    let r2 = through_parent(r, p).unwrap();
    assert(r2.width > 0 && r2.height > 0);
    if ancestors.len() > 1 {
        lemma_position_has_area(r2, ancestors.drop_last());
    } else {
        assert(ancestors.drop_last().len() == 0);
        assert(through_ancestors(r2, ancestors.drop_last()) == Some(r2));
    }
}

/// The node reached by a path is the child, at the path's last index, of the
/// node reached by the path without that index; the nodes on the way are those
/// of the shorter path.
pub proof fn lemma_parent_link(root: Node, path: Seq<usize>, i: usize)
    requires
        path_nodes(root, path.push(i)) is Some,
    ensures
        path_nodes(root, path) is Some,
        path_nodes(root, path.push(i)).unwrap().drop_last() == path_nodes(root, path).unwrap(),
        i < path_nodes(root, path).unwrap().last().children@.len(),
        path_nodes(root, path).unwrap().last().children@[i as int] == path_nodes(root, path.push(i)).unwrap().last(),
    decreases path.len(),
{
    if path.len() == 0 {
        assert(path.push(i).drop_first() =~= Seq::<usize>::empty());
        let c = root.children@[i as int];
        assert(path_nodes(c, Seq::<usize>::empty()) == Some(seq![c]));
        assert(path_nodes(root, path.push(i)).unwrap() =~= seq![root, c]);
        assert(path_nodes(root, path.push(i)).unwrap().drop_last() =~= seq![root]);
    } else {
        let c = root.children@[path[0] as int];
        assert(path.push(i).drop_first() =~= path.drop_first().push(i));
        assert(path.push(i)[0] == path[0]);
        lemma_parent_link(c, path.drop_first(), i);
        let long = path_nodes(c, path.drop_first().push(i)).unwrap();
        let short = path_nodes(c, path.drop_first()).unwrap();
        assert((seq![root] + long).drop_last() =~= seq![root] + long.drop_last());
        assert((seq![root] + short).last() == short.last());
        assert((seq![root] + long).last() == long.last());
    }
}

} // verus!
