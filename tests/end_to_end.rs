use stylish::{Manager, Node, Rect, Value};

#[test]
fn empty_tree_lays_out_once() {
    let mut m = Manager::new();
    assert!(m.layout(800, 600));
    assert!(!m.layout(800, 600));
}

#[test]
fn style_places_panel() {
    let mut m = Manager::new();
    m.load_styles("base", "panel(x=5, y=10) { width = 100, height = 20, }").unwrap();
    m.add_node_str("panel(x=5, y=10)").unwrap();
    assert!(m.layout(800, 600));
    let panel = &m.root().children()[0];
    // The predicates select the panel; `x` and `y` of the draw rectangle come from
    // style values, and this rule sets only the size.
    assert_eq!(panel.raw_position(), Rect { x: 0, y: 0, width: 100, height: 20 });
}

#[test]
fn style_sets_position_and_size() {
    let mut m = Manager::new();
    m.load_styles("base", "panel { x = 5, y = 10, width = 100, height = 20, }").unwrap();
    m.add_node(Node::new("panel"));
    m.layout(800, 600);
    assert_eq!(m.root().children()[0].raw_position(), Rect { x: 5, y: 10, width: 100, height: 20 });
}

#[test]
fn matcher_binds_variable() {
    let mut m = Manager::new();
    m.load_styles("base", "image(src=v) { image = v, }").unwrap();
    m.add_node_str("image(src=\"a.png\")").unwrap();
    m.layout(800, 600);
    let image = &m.root().children()[0];
    assert_eq!(image.get_value::<Value>("image"), Some(Value::String("a.png".to_string())));
    assert_eq!(image.get_value::<String>("image"), Some("a.png".to_string()));
}

#[test]
fn expression_reads_parent_width() {
    let mut m = Manager::new();
    m.load_styles("base", "box { width = parent_width - 20, }").unwrap();
    m.add_node(Node::new("box"));
    m.layout(800, 600);
    assert_eq!(m.root().children()[0].raw_position().width, 780);
}

#[test]
fn later_document_wins_until_removed() {
    let mut m = Manager::new();
    m.load_styles("A", "btn { color = \"red\", }").unwrap();
    m.load_styles("B", "btn { color = \"blue\", }").unwrap();
    m.add_node(Node::new("btn"));
    m.layout(800, 600);
    assert_eq!(m.root().children()[0].get_value::<String>("color"), Some("blue".to_string()));
    m.remove_styles("B");
    assert!(m.layout(800, 600));
    assert_eq!(m.root().children()[0].get_value::<String>("color"), Some("red".to_string()));
}

#[test]
fn clip_and_scroll_crop_child() {
    let mut m = Manager::new();
    m.load_styles(
        "base",
        "parent { x = 0, y = 30, width = 200, height = 100, clip_overflow = true, scroll_y = 50, }\n\
         parent > child { x = 0, y = 40, width = 50, height = 20, }",
    )
    .unwrap();
    let mut parent = Node::new("parent");
    parent.add_child(Node::new("child"));
    m.add_node(parent);
    m.layout(800, 600);
    let p = m.root().children()[0].render_object();
    assert!(p.clip_overflow);
    assert_eq!(p.scroll_position, (0, 50));
    assert_eq!(m.render_position(&vec![0, 0]), Some(Rect { x: 0, y: 30, width: 50, height: 10 }));
}
