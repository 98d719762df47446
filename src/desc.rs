//! The description language: a tree of elements with attributes and text.
//!
//! ```text
//! panel(x=5, y=10) {
//!     title { "Hello" }
//!     "World"(color="#ff0000")
//! }
//! ```
use vstd::prelude::*;
use crate::lexer::{blank_end, ident, skip_blank, ParseError, ParseErrorKind, Position, Source};
use crate::node::{Node, NodeValue};
use crate::style::{at, char_at, error_at, ident_run, literal_spec, parsed, quoted_body, string, value, LiteralView, Value as Literal};
use crate::value::{keys_unique, set_key, view_map, Value, ValueView};

verus! {

/// The node is an element whose name is the identifier read at `i`.
pub open spec fn name_read_at(s: Seq<char>, i: int, n: Node) -> bool {
    n.value matches NodeValue::Element(name) && name@.len() > 0 && i + name@.len() <= s.len() && s.subrange(
        i,
        i + name@.len(),
    ) == name@
}

/// The property value that a literal stands for, where it has one.
pub open spec fn literal_value(lit: Literal) -> Option<Value> {
    match lit {
        Literal::Boolean(b) => Some(Value::Boolean(b)),
        Literal::Integer(i) => Some(Value::Integer(i)),
        Literal::String(s) => Some(Value::String(s)),
        _ => None,
    }
}

fn to_value(lit: Literal) -> (r: Option<Value>)
    ensures
        r == literal_value(lit),
{
    match lit {
        Literal::Boolean(b) => Some(Value::Boolean(b)),
        Literal::Integer(i) => Some(Value::Integer(i)),
        Literal::String(s) => Some(Value::String(s)),
        _ => None,
    }
}

/// The property value that a literal stands for, seen as a view.
pub open spec fn literal_value_view(lv: LiteralView) -> Option<ValueView> {
    match lv {
        LiteralView::Boolean(b) => Some(ValueView::Boolean(b)),
        LiteralView::Integer(i) => Some(ValueView::Integer(i)),
        LiteralView::String(t) => Some(ValueView::String(t)),
        _ => None,
    }
}

/// Attributes from `k` (after `(`) up to `)`: `name = literal` (a boolean, an
/// integer or a string), separated by commas, a trailing comma allowed; a later
/// name replaces an earlier one in `acc`.
pub open spec fn attr_rest(s: Seq<char>, k: int, acc: Map<Seq<char>, ValueView>) -> Option<(Map<Seq<char>, ValueView>, int)>
    decreases s.len() - k,
{
    let b = blank_end(s, k);
    if !(0 <= k <= b <= s.len()) {
        None
    } else if at(s, b, ')') {
        Some((acc, b + 1))
    } else {
        let j = ident_run(s, b);
        let e = blank_end(s, j);
        let b2 = blank_end(s, e + 1);
        if !(b < j <= e < b2 + 1 <= s.len() + 1 && at(s, e, '=')) {
            None
        } else {
            match literal_spec(s, b2) {
                None => None,
                Some((lv, j2)) => match literal_value_view(lv) {
                    None => None,
                    Some(v) => {
                        let acc2 = acc.insert(s.subrange(b, j), v);
                        let b3 = blank_end(s, j2);
                        if !(b2 < j2 <= b3 <= s.len()) {
                            None
                        } else if at(s, b3, ',') {
                            attr_rest(s, b3 + 1, acc2)
                        } else if at(s, b3, ')') {
                            Some((acc2, b3 + 1))
                        } else {
                            None
                        }
                    },
                },
            }
        }
    }
}

/// What a node is: an element with its name, properties and children, or a text
/// with its properties.
pub enum NodeView {
    Element(Seq<char>, Map<Seq<char>, ValueView>, Seq<NodeView>),
    Text(Seq<char>, Map<Seq<char>, ValueView>),
}

/// The node `n` is `v` (render objects and dirty flags aside).
pub open spec fn node_is(n: Node, v: NodeView) -> bool
    decreases n,
{
    match n.value {
        NodeValue::Element(name) => v matches NodeView::Element(nm, props, cs) && nm == name@ && view_map(n.properties@)
            == props && cs.len() == n.children@.len() && forall|k: int|
            #![trigger n.children@[k]]
            0 <= k < n.children@.len() ==> node_is(n.children@[k], cs[k]),
        NodeValue::Text(t) => v matches NodeView::Text(tt, props) && tt == t@ && view_map(n.properties@) == props
            && n.children@.len() == 0,
    }
}

/// Optional attributes at `j`: where there are none, no properties.
pub open spec fn attrs_at(s: Seq<char>, j: int) -> Option<(Map<Seq<char>, ValueView>, int)> {
    if at(s, j, '(') {
        attr_rest(s, j + 1, Map::empty())
    } else {
        Some((Map::empty(), j))
    }
}

/// A text node at `i`: a quoted string and optional attributes.
pub open spec fn text_spec(s: Seq<char>, i: int) -> Option<(NodeView, int)> {
    if at(s, i, '"') && quoted_body(s, i + 1) is Some {
        let t = quoted_body(s, i + 1).unwrap().0;
        match attrs_at(s, quoted_body(s, i + 1).unwrap().1 + 1) {
            None => None,
            Some((m, k)) => Some((NodeView::Text(t, m), k)),
        }
    } else {
        None
    }
}

/// An element at `i`: a name, optional attributes, then optionally its children
/// between braces.
pub open spec fn elem_spec(s: Seq<char>, i: int) -> Option<(NodeView, int)>
    decreases s.len() - i, 0int,
{
    let j = ident_run(s, i);
    if !(0 <= i < j <= s.len()) {
        None
    } else {
        match attrs_at(s, j) {
            None => None,
            Some((props, k)) => {
                let b = blank_end(s, k);
                if !(i < k <= b <= s.len()) {
                    None
                } else if !at(s, b, '{') {
                    Some((NodeView::Element(s.subrange(i, j), props, Seq::empty()), k))
                } else {
                    children_rest(s, b + 1, s.subrange(i, j), props, Seq::empty())
                }
            },
        }
    }
}

/// Children from `k` up to `}`: texts and elements, blanks between them.
pub open spec fn children_rest(
    s: Seq<char>,
    k: int,
    name: Seq<char>,
    props: Map<Seq<char>, ValueView>,
    acc: Seq<NodeView>,
) -> Option<(NodeView, int)>
    decreases s.len() - k, 1int,
{
    let c = blank_end(s, k);
    if !(0 <= k <= c <= s.len()) {
        None
    } else if at(s, c, '}') {
        Some((NodeView::Element(name, props, acc), c + 1))
    } else {
        match (if at(s, c, '"') { text_spec(s, c) } else { elem_spec(s, c) }) {
            None => None,
            Some((cv, n)) => if c < n <= s.len() {
                children_rest(s, n, name, props, acc.push(cv))
            } else {
                None
            },
        }
    }
}

/// The node that a description text stands for, where it is one.
pub open spec fn desc_spec(s: Seq<char>) -> Option<NodeView> {
    match elem_spec(s, blank_end(s, 0)) {
        Some((v, j)) => if blank_end(s, j) == s.len() {
            Some(v)
        } else {
            None
        },
        None => None,
    }
}

/// Reads `( name = literal, ... )` at `i` into a property list; a later name wins.
fn attributes(src: &Source, i: usize, props: &mut Vec<(String, Value)>) -> (r: Result<usize, ParseError>)
    requires
        src.wf(),
        i < src.chars@.len(),
        src.chars@[i as int] == '(',
        keys_unique(old(props)@),
    ensures
        keys_unique(final(props)@),
        r matches Ok(j) ==> i < j <= src.chars@.len(),
        match attr_rest(src.chars@, i + 1, view_map(old(props)@)) {
            Some((m, j)) => r matches Ok(j2) && j2 == j && view_map(final(props)@) == m,
            None => r is Err,
        },
{
    let s = &src.chars;
    let len = s.len();
    let mut k = i + 1;
    loop
        invariant_except_break
            attr_rest(s@, i + 1, view_map(old(props)@)) == attr_rest(s@, k as int, view_map(props@)),
        invariant
            src.wf(),
            s@ == src.chars@,
            i < k <= s@.len(),
            keys_unique(props@),
        ensures
            attr_rest(s@, i + 1, view_map(old(props)@)) == Some((view_map(props@), k as int)),
        decreases s@.len() - k,
    {
        let b = skip_blank(s, k);
        if char_at(s, b, ')') {
            k = b + 1;
            break;
        }
        let (name, j) = match ident(src, b) {
            Some(x) => x,
            None => {
                return Err(error_at(s, b));
            },
        };
        let e = skip_blank(s, j);
        if !char_at(s, e, '=') {
            return Err(error_at(s, e));
        }
        let b2 = skip_blank(s, e + 1);
        let (v, j2) = value(src, b2)?;
        proof {
            match v.value {
                Literal::Boolean(_) => {},
                Literal::Integer(_) => {},
                Literal::String(_) => {},
                _ => {},
            }
        }
        match to_value(v.value) {
            Some(val) => set_key(props, name, val),
            None => {
                return Err(ParseError { position: Position { offset: b2 }, kind: ParseErrorKind::UnsupportedLiteral });
            },
        }
        let b3 = skip_blank(s, j2);
        if char_at(s, b3, ',') {
            k = b3 + 1;
        } else if char_at(s, b3, ')') {
            k = b3 + 1;
            break;
        } else {
            return Err(error_at(s, b3));
        }
    }
    Ok(k)
}

/// Reads a quoted text with optional attributes at `i`.
fn text_node(src: &Source, i: usize) -> (r: Result<(Node, usize), ParseError>)
    requires
        src.wf(),
        i <= src.chars@.len(),
    ensures
        parsed(r, i as int, src.chars@.len() as int),
        r matches Ok((n, _)) ==> n.wf() && n.value is Text && n.dirty && n.render_object is None,
        r matches Ok((n, _)) ==> (n.value matches NodeValue::Text(t) && quoted_body(src.chars@, i + 1) matches Some(
            (body, _),
        ) && body == t@),
        match text_spec(src.chars@, i as int) {
            Some((v, j)) => r matches Ok((n, j2)) && j2 == j && node_is(n, v),
            None => r is Err,
        },
{
    let s = &src.chars;
    let (text, j) = match string(src, i) {
        Some(x) => x,
        None => {
            return Err(error_at(s, i));
        },
    };
    let mut node = Node::new_text(text.as_str());
    assert(view_map(node.properties@) =~= Map::<Seq<char>, ValueView>::empty());
    if char_at(s, j, '(') {
        let k = attributes(src, j, &mut node.properties)?;
        return Ok((node, k));
    }
    Ok((node, j))
}

/// Reads an element at `i`: a name, optional attributes, optional `{ children }`.
pub(crate) fn element(src: &Source, i: usize) -> (r: Result<(Node, usize), ParseError>)
    requires
        src.wf(),
        i <= src.chars@.len(),
    ensures
        parsed(r, i as int, src.chars@.len() as int),
        r matches Ok((n, _)) ==> n.wf() && n.is_element() && n.dirty && n.render_object is None,
        r matches Ok((n, _)) ==> name_read_at(src.chars@, i as int, n),
        match elem_spec(src.chars@, i as int) {
            Some((v, j)) => r matches Ok((n, j2)) && j2 == j && node_is(n, v),
            None => r is Err,
        },
    decreases src.chars@.len() - i,
{
    let s = &src.chars;
    let (name, j) = match ident(src, i) {
        Some(x) => x,
        None => {
            return Err(error_at(s, i));
        },
    };
    let mut node = Node::new(name.as_str());
    let mut k = j;
    assert(name_read_at(s@, i as int, node));
    assert(view_map(node.properties@) =~= Map::<Seq<char>, ValueView>::empty());
    if char_at(s, k, '(') {
        k = attributes(src, k, &mut node.properties)?;
    }
    let ghost props = view_map(node.properties@);
    let b = skip_blank(s, k);
    if !char_at(s, b, '{') {
        return Ok((node, k));
    }
    let ghost nm = name@;
    k = b + 1;
    let ghost mut cvs: Seq<NodeView> = Seq::empty();
    loop
        invariant_except_break
            elem_spec(s@, i as int) == children_rest(s@, k as int, nm, props, cvs),
        invariant
            src.wf(),
            s@ == src.chars@,
            i < k <= s@.len(),
            node.wf(),
            node.is_element(),
            node.dirty,
            node.render_object is None,
            name_read_at(s@, i as int, node),
            node.value matches NodeValue::Element(n2) && n2@ == nm,
            view_map(node.properties@) == props,
            node.children@.len() == cvs.len(),
            forall|m: int| #![trigger node.children@[m]] 0 <= m < cvs.len() ==> node_is(node.children@[m], cvs[m]),
        ensures
            elem_spec(s@, i as int) == Some((NodeView::Element(nm, props, cvs), k as int)),
            node.wf(),
            node.is_element(),
            node.dirty,
            node.render_object is None,
            name_read_at(s@, i as int, node),
            node.value matches NodeValue::Element(n2) && n2@ == nm,
            view_map(node.properties@) == props,
            node.children@.len() == cvs.len(),
            forall|m: int| #![trigger node.children@[m]] 0 <= m < cvs.len() ==> node_is(node.children@[m], cvs[m]),
        decreases s@.len() - k,
    {
        let c = skip_blank(s, k);
        if char_at(s, c, '}') {
            k = c + 1;
            break;
        }
        let is_text = char_at(s, c, '"');
        let (child, next) = if is_text {
            text_node(src, c)?
        } else {
            element(src, c)?
        };
        let ghost cv = if is_text { text_spec(s@, c as int).unwrap().0 } else { elem_spec(s@, c as int).unwrap().0 };
        let ghost before = node.children@;
        node.add_child(child);
        proof {
            cvs = cvs.push(cv);
            assert forall|m: int| #![trigger node.children@[m]] 0 <= m < cvs.len() implies node_is(node.children@[m], cvs[m]) by {
                if m < before.len() {
                    assert(node.children@[m] == before[m]);
                }
            }
        }
        k = next;
    }
    Ok((node, k))
}

impl Node {
    /// Reads a node from the description language: one element, with blanks and
    /// `//` comments around it.
    pub fn from_str(source: &str) -> (r: Result<Node, ParseError>)
        ensures
            r matches Ok(n) ==> n.wf() && n.is_element() && n.dirty && n.render_object is None,
            r matches Ok(n) ==> name_read_at(source@, blank_end(source@, 0), n),
            match desc_spec(source@) {
                Some(v) => r matches Ok(n) && node_is(n, v),
                None => r is Err,
            },
    {
        let src = Source::new(source);
        let s = &src.chars;
        let b = skip_blank(s, 0);
        let (node, j) = element(&src, b)?;
        let e = skip_blank(s, j);
        if e != s.len() {
            return Err(error_at(s, e));
        }
        Ok(node)
    }
}

} // verus!
