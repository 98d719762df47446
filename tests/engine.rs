use stylish::eval::{eval, Functions, StyleFunction};
use stylish::lexer::line_column;
use stylish::Position;
use stylish::query::Compare;
use stylish::style::Document;
use stylish::{
    CustomValue, Engine, EvalError, LayoutEngine, LayoutFactory, Manager, Node, Op, ParseErrorKind, Rect,
    RenderObject, RenderVisitor, Value,
};

fn eval_first(source: &str, vars: &Vec<(String, Value)>) -> Result<Value, EvalError> {
    let doc = Document::parse(source).unwrap();
    let funcs = Functions::new();
    eval(&doc.rules[0].styles[0].1, vars, Rect { x: 1, y: 2, width: 300, height: 400 }, &funcs)
}

#[test]
fn eval_arithmetic_exact_values() {
    let none = Vec::new();
    assert_eq!(eval_first("a { v = 5 * (1 + 2) - 3 }", &none).unwrap(), Value::Integer(12));
    assert_eq!(eval_first("a { v = -3--4 }", &none).unwrap(), Value::Integer(1));
    assert_eq!(eval_first("a { v = parent_x + parent_y * parent_height - parent_width }", &none).unwrap(), Value::Integer(501));
    assert_eq!(eval_first("a { v = \"ab\" + \"cd\" }", &none).unwrap(), Value::String("abcd".to_string()));
    assert_eq!(eval_first("a { v = -true }", &none).unwrap(), Value::Boolean(false));
}

#[test]
fn eval_double_negation_and_distribution() {
    let none = Vec::new();
    assert_eq!(eval_first("a { v = -(-7) }", &none).unwrap(), Value::Integer(7));
    assert_eq!(eval_first("a { v = -(-2147483647 - 1) }", &none).unwrap(), Value::Integer(i32::MIN));
    let lhs = eval_first("a { v = 6 * (7 + 8) }", &none).unwrap();
    let rhs = eval_first("a { v = 6 * 7 + 6 * 8 }", &none).unwrap();
    assert_eq!(lhs, rhs);
    assert_eq!(lhs, Value::Integer(90));
}

#[test]
fn eval_integer_overflow_wraps() {
    let none = Vec::new();
    assert_eq!(eval_first("a { v = 2147483647 + 1 }", &none).unwrap(), Value::Integer(i32::MIN));
    assert_eq!(eval_first("a { v = 65536 * 65536 }", &none).unwrap(), Value::Integer(0));
}

#[test]
fn eval_reads_bound_variables() {
    let vars = vec![("w".to_string(), Value::Integer(40))];
    assert_eq!(eval_first("a { v = w * 2 }", &vars).unwrap(), Value::Integer(80));
}

#[test]
fn eval_errors() {
    let none = Vec::new();
    match eval_first("a { v = nope }", &none) {
        Err(EvalError::UnknownVariable(n, p)) => {
            assert_eq!(n, "nope");
            assert_eq!(p.offset, 8);
        }
        other => panic!("unexpected {:?}", other),
    }
    match eval_first("a { v = f(1) }", &none) {
        Err(EvalError::UnknownFunction(n, _)) => assert_eq!(n, "f"),
        other => panic!("unexpected {:?}", other),
    }
    assert!(matches!(eval_first("a { v = true + 1 }", &none), Err(EvalError::CantOp(Op::Add, _))));
    assert!(matches!(eval_first("a { v = \"a\" - 1 }", &none), Err(EvalError::CantOp(Op::Subtract, _))));
    assert!(matches!(eval_first("a { v = \"a\" * 1 }", &none), Err(EvalError::CantOp(Op::Multiply, _))));
    assert!(matches!(eval_first("a { v = true / 1 }", &none), Err(EvalError::CantOp(Op::Divide, _))));
    assert!(matches!(eval_first("a { v = -\"a\" }", &none), Err(EvalError::CantOp(Op::Negate, _))));
    assert!(matches!(eval_first("a { v = 6 / 3 }", &none), Err(EvalError::FloatUnsupported(_))));
    assert!(matches!(eval_first("a { v = 1.5 }", &none), Err(EvalError::FloatUnsupported(_))));
}

struct Double;

impl StyleFunction for Double {
    fn call(&self, args: Vec<Value>) -> Result<Value, String> {
        match args.as_slice() {
            [Value::Integer(i)] => Ok(Value::Integer(i * 2)),
            _ => Err("double takes one integer".to_string()),
        }
    }
}

#[test]
fn style_functions_are_called() {
    let mut m = Manager::new();
    m.add_func_raw("double", Double);
    m.load_styles("s", "box { width = double(21), height = double(true) }").unwrap();
    m.add_node(Node::new("box"));
    m.layout(100, 100);
    let b = &m.root().children()[0];
    assert_eq!(b.raw_position().width, 42);
    // A failing function leaves the property unset.
    assert_eq!(b.raw_position().height, 0);
    assert_eq!(b.get_value::<i32>("height"), None);
}

#[test]
fn text_matcher_and_chain() {
    let mut m = Manager::new();
    m.load_styles("s", "root > panel > @text { color = \"blue\" }\npanel { width = 10 }").unwrap();
    m.add_node_str("panel { \"hi\" other { \"deep\" } }").unwrap();
    m.layout(100, 100);
    let panel = &m.root().children()[0];
    assert_eq!(panel.children()[0].get_value::<String>("color"), Some("blue".to_string()));
    assert_eq!(panel.children()[0].render_object().text, Some("hi".to_string()));
    assert_eq!(panel.children()[1].children()[0].get_value::<String>("color"), None);
    assert_eq!(panel.get_value::<i32>("width"), Some(10));
}

#[test]
fn later_rule_in_document_wins() {
    let mut m = Manager::new();
    m.load_styles("s", "btn { color = \"red\", size = 1 }\nbtn { color = \"green\" }").unwrap();
    m.add_node(Node::new("btn"));
    m.layout(100, 100);
    let b = &m.root().children()[0];
    assert_eq!(b.get_value::<String>("color"), Some("green".to_string()));
    assert_eq!(b.get_value::<i32>("size"), Some(1));
}

#[test]
fn reloading_a_name_replaces_the_document() {
    let mut m = Manager::new();
    m.load_styles("s", "btn { color = \"red\" }").unwrap();
    m.load_styles("t", "btn { color = \"blue\" }").unwrap();
    m.load_styles("s", "btn { color = \"green\" }").unwrap();
    m.add_node(Node::new("btn"));
    m.layout(100, 100);
    assert_eq!(m.root().children()[0].get_value::<String>("color"), Some("green".to_string()));
    assert!(m.load_styles("u", "btn {").is_err());
    assert!(!m.layout(100, 100));
}

#[test]
fn reserved_properties_go_on_the_object() {
    let mut m = Manager::new();
    m.load_styles("s", "box { scroll_x = 3, scroll_y = \"no\", clip_overflow = true }\nbox { scroll_y = 4 }").unwrap();
    m.add_node(Node::new("box"));
    m.layout(100, 100);
    let o = m.root().children()[0].render_object();
    assert_eq!(o.scroll_position, (3, 4));
    assert!(o.clip_overflow);
    assert_eq!(o.get_value::<Value>("scroll_x"), None);
    assert_eq!(o.get_value::<Value>("clip_overflow"), None);
}

#[test]
fn auto_size_grows_to_children() {
    let mut m = Manager::new();
    m.load_styles(
        "s",
        "box { auto_size = true, min_width = 10, min_height = 5, max_height = 30 }\nbox > item { x = 5, y = 20, width = 50, height = 40 }",
    )
    .unwrap();
    let mut b = Node::new("box");
    b.add_child(Node::new("item"));
    m.add_node(b);
    m.layout(100, 100);
    assert_eq!(m.root().children()[0].raw_position(), Rect { x: 0, y: 0, width: 55, height: 30 });
}

#[test]
fn min_and_max_sizes() {
    let mut m = Manager::new();
    m.load_styles("s", "a { min_width = 7, min_height = 8, max_width = 9 }").unwrap();
    m.add_node(Node::new("a"));
    m.layout(100, 100);
    let o = m.root().children()[0].render_object();
    assert_eq!(o.draw_rect, Rect { x: 0, y: 0, width: 7, height: 8 });
    assert_eq!(o.min_size, (7, 8));
    assert_eq!(o.max_size, (Some(9), None));
}

#[test]
fn dirty_mutation_forces_layout_raw_does_not() {
    let mut m = Manager::new();
    m.add_node(Node::new("a"));
    assert!(m.layout(10, 10));
    assert!(!m.layout(10, 10));
    m.node_mut(0).raw_set_property("scratch", 1);
    assert!(!m.layout(10, 10));
    m.node_mut(0).set_property("x", 1);
    assert!(m.layout(10, 10));
    assert!(!m.layout(10, 10));
    m.node_mut(0).remove_property("x");
    assert!(m.layout(10, 10));
    assert!(m.layout(20, 10));
    m.node_mut(0).add_child(Node::new_text("t"));
    assert!(m.layout(20, 10));
    m.node_mut(0).child_mut(0).set_text("u");
    assert!(m.layout(20, 10));
}

#[test]
fn removing_children_and_nodes() {
    let mut p = Node::new("p");
    p.add_child(Node::new("a"));
    p.add_child(Node::new("b"));
    p.add_child_first(Node::new("c"));
    let names: Vec<Option<String>> = p.children().iter().map(|c| c.name()).collect();
    assert_eq!(names, vec![Some("c".to_string()), Some("a".to_string()), Some("b".to_string())]);
    let mut m = Manager::new();
    m.add_node(p);
    m.layout(10, 10);
    assert!(!m.layout(10, 10));
    let a = m.node_mut(0).remove_child(1);
    assert_eq!(a.name(), Some("a".to_string()));
    assert_eq!(m.root().children()[0].children().len(), 2);
    assert!(m.layout(10, 10));
    let p = m.remove_node(0);
    assert_eq!(p.children().len(), 2);
    assert!(m.root().children().is_empty());
    assert!(m.layout(10, 10));
}

#[test]
fn node_properties_and_text() {
    let mut n = Node::new("n");
    assert_eq!(n.name(), Some("n".to_string()));
    n.set_property("flag", true);
    n.set_property("name", "x".to_string());
    assert_eq!(n.get_property::<bool>("flag"), Some(true));
    assert_eq!(n.get_property::<i32>("flag"), None);
    assert_eq!(n.get_property::<String>("name"), Some("x".to_string()));
    n.remove_property("flag");
    assert_eq!(n.get_property::<bool>("flag"), None);
    assert_eq!(n.text(), None);
    assert!(!n.has_layout());
    assert_eq!(n.raw_position(), Rect { x: 0, y: 0, width: 0, height: 0 });
    let mut t = Node::new_text("hello");
    assert_eq!(t.text(), Some("hello".to_string()));
    assert_eq!(t.name(), None);
    t.set_text("bye");
    assert_eq!(t.text(), Some("bye".to_string()));
}

struct Picture(u64);

impl CustomValue for Picture {
    fn handle(&self) -> u64 {
        self.0
    }
}

#[test]
fn custom_values_keep_their_handle() {
    let mut n = Node::new("n");
    n.set_custom_property("pic", &Picture(9));
    assert_eq!(n.get_custom_property("pic"), Some(9));
    assert_eq!(n.get_property::<Value>("pic").map(|v| v == Value::Any(9)), Some(false));
    assert_eq!(Value::Any(9).get_custom_value(), Some(9));
}

#[test]
fn value_equality_and_conversion() {
    assert_eq!(Value::Integer(3), Value::Integer(3));
    assert_ne!(Value::Integer(3), Value::Boolean(true));
    assert_ne!(Value::Any(1), Value::Any(1));
    let one_and_half = 1.5f64.to_bits();
    assert_eq!(Value::Float(one_and_half).get_value::<i32>(), Some(1));
    assert_eq!(Value::Float((-2.9f64).to_bits()).get_value::<i32>(), Some(-2));
    assert_eq!(Value::Float(f64::NAN.to_bits()).get_value::<i32>(), Some(0));
    assert_eq!(Value::Float(1e20f64.to_bits()).get_value::<i32>(), Some(i32::MAX));
    assert_eq!(Value::Float((-1e20f64).to_bits()).get_value::<i32>(), Some(i32::MIN));
    assert_eq!(Value::Float(0.0f64.to_bits()), Value::Float((-0.0f64).to_bits()));
    assert_ne!(Value::Float(f64::NAN.to_bits()), Value::Float(f64::NAN.to_bits()));
    assert_eq!(Value::Boolean(true).get_value::<String>(), None);
}

#[test]
fn description_parse_errors() {
    assert!(Node::from_str("a(x=1.5)").is_err());
    assert_eq!(Node::from_str("a(x=1.5)").err().unwrap().kind, ParseErrorKind::UnsupportedLiteral);
    assert_eq!(Node::from_str("a(x=y)").err().unwrap().kind, ParseErrorKind::UnsupportedLiteral);
    assert_eq!(Node::from_str("a { b ").err().unwrap().kind, ParseErrorKind::UnexpectedEnd);
    assert_eq!(Node::from_str("a b").err().unwrap().kind, ParseErrorKind::UnexpectedChar('b'));
    let n = Node::from_str("// top\na(x=1, s=\"q\", f=false) { \"t\"(k=2) b }").unwrap();
    assert_eq!(n.get_property::<i32>("x"), Some(1));
    assert_eq!(n.get_property::<bool>("f"), Some(false));
    assert_eq!(n.children()[0].get_property::<i32>("k"), Some(2));
    assert_eq!(n.children()[1].name(), Some("b".to_string()));
}

struct Column;

impl LayoutEngine for Column {
    fn pre_position_child(&mut self, obj: &mut RenderObject, _parent: &RenderObject) {
        obj.draw_rect.height = 10;
    }
    fn post_position_child(&mut self, _obj: &mut RenderObject, _parent: &RenderObject) {}
    fn finalize_layout(&mut self, _obj: &mut RenderObject, children: &mut Vec<RenderObject>) {
        let mut y = 0;
        for c in children.iter_mut() {
            c.draw_rect.y = y;
            y += c.draw_rect.height;
        }
    }
}

struct ColumnFactory;

impl LayoutFactory for ColumnFactory {
    fn create(&self, _obj: &RenderObject) -> Engine {
        Engine::Custom(Box::new(Column))
    }
}

#[test]
fn custom_layout_engine_positions_children() {
    let mut m = Manager::new();
    m.add_layout_engine("column", ColumnFactory);
    m.load_styles("s", "list { layout = \"column\" }").unwrap();
    m.add_node_str("list { a b c }").unwrap();
    m.layout(100, 100);
    let list = &m.root().children()[0];
    let ys: Vec<i32> = list.children().iter().map(|c| c.raw_position().y).collect();
    assert_eq!(ys, vec![0, 10, 20]);
}

struct Recorder(Vec<String>);

impl RenderVisitor for Recorder {
    fn visit(&mut self, obj: &mut RenderObject) {
        self.0.push(format!("+{}", obj.draw_rect.width));
        obj.render_info = Some(7);
    }
    fn visit_end(&mut self, obj: &mut RenderObject) {
        self.0.push(format!("-{}", obj.draw_rect.width));
    }
}

#[test]
fn render_visits_depth_first() {
    let mut m = Manager::new();
    m.load_styles("s", "a { width = 1 }\nb { width = 2 }\nc { width = 3 }").unwrap();
    m.add_node_str("a { b }").unwrap();
    m.add_node(Node::new("c"));
    m.layout(100, 100);
    let mut r = Recorder(Vec::new());
    m.render(&mut r);
    assert_eq!(r.0, vec!["+1", "+2", "-2", "-1", "+3", "-3"]);
    assert_eq!(m.root().children()[0].render_object().render_info, Some(7));
}

#[test]
fn query_by_name_property_and_point() {
    let mut m = Manager::new();
    m.load_styles("s", "a { x = 10, y = 10, width = 20, height = 20 }\nb { width = 5, height = 5 }").unwrap();
    m.add_node_str("a(k=1) { b(k=2) b(k=3) \"t\" }").unwrap();
    m.add_node_str("b(k=4)").unwrap();
    m.layout(100, 100);
    let all_b = m.query().descendant().name("b").matches(&m);
    assert_eq!(all_b, vec![vec![0, 0], vec![0, 1], vec![1]]);
    let big = m.query().descendant().property("k", Compare::Greater, Value::Integer(2)).matches(&m);
    assert_eq!(big, vec![vec![0, 1], vec![1]]);
    let texts = m.query().child().child().text().matches(&m);
    assert_eq!(texts, vec![vec![0, 2]]);
    let at = m.query_at(12, 12).descendant().matches(&m);
    assert_eq!(at, vec![vec![0], vec![0, 0], vec![0, 1]]);
    let none = m.query_at(50, 50).descendant().name("a").matches(&m);
    assert!(none.is_empty());
}

#[test]
fn render_position_is_none_when_clipped_away() {
    let mut m = Manager::new();
    m.load_styles("s", "p { width = 10, height = 10, clip_overflow = true }\nc { x = 20, width = 5, height = 5 }").unwrap();
    m.add_node_str("p { c }").unwrap();
    m.layout(100, 100);
    assert_eq!(m.render_position(&vec![0, 0]), None);
    assert_eq!(m.render_position(&vec![0]), Some(Rect { x: 0, y: 0, width: 10, height: 10 }));
    assert_eq!(m.render_position(&vec![3]), None);
}

#[test]
fn query_at_point_skips_subtrees_not_under_it() {
    let mut m = Manager::new();
    m.load_styles("s", "a { width = 10, height = 10 }\nc { x = 50, width = 10, height = 10 }").unwrap();
    m.add_node_str("a { c }").unwrap();
    m.layout(100, 100);
    assert_eq!(m.render_position(&vec![0, 0]), Some(Rect { x: 50, y: 0, width: 10, height: 10 }));
    assert!(m.query_at(55, 5).descendant().matches(&m).is_empty());
    assert_eq!(m.query_at(5, 5).descendant().matches(&m), vec![vec![0]]);
}

#[test]
fn line_and_column_of_an_offset() {
    let text = "ab\ncd\n\nef";
    assert_eq!(line_column(text, Position { offset: 0 }), (1, 1));
    assert_eq!(line_column(text, Position { offset: 4 }), (2, 2));
    assert_eq!(line_column(text, Position { offset: 7 }), (4, 1));
    assert_eq!(line_column(text, Position { offset: 9 }), (4, 3));
}
