use browser_engine::css::{Declaration, Rule, Selector, SimpleSelector, StyleSheet, Unit, Value};
use browser_engine::dom::{elem, text, AttrMap, Node};
use browser_engine::layout::{
    build_layout_tree, layout_tree, BoxType, Dimensions, EdgeSizes, HorizontalStyle, LayoutBox,
    LayoutError, Rect,
};
use browser_engine::style::{style_tree, Display, PropertyMap, StyledNode};

fn px(n: i64) -> Value {
    Value::Length(n, Unit::Px)
}

fn keyword(s: &str) -> Value {
    Value::Keyword(s.to_string())
}

fn decl(name: &str, value: Value) -> Declaration {
    Declaration { name: name.to_string(), value }
}

fn class_rule(class: &str, declarations: Vec<Declaration>) -> Rule {
    Rule {
        selectors: vec![Selector::Simple(SimpleSelector {
            tag_name: None,
            id: None,
            class: vec![class.to_string()],
        })],
        declarations,
    }
}

fn node(class: &str, children: Vec<Node>) -> Node {
    let mut attrs = AttrMap::new();
    attrs.insert("class".to_string(), class.to_string());
    elem("div".to_string(), attrs, children)
}

fn viewport(width: i64, height: i64) -> Dimensions {
    let mut d = Dimensions::default();
    d.content.width = width;
    d.content.height = height;
    d
}

#[test]
fn auto_width_fills_the_containing_block() {
    let root = node("page", vec![]);
    let sheet = StyleSheet {
        rules: vec![class_rule("page", vec![decl("display", keyword("block"))])],
    };
    let styled = style_tree(&root, &sheet);
    let laid = layout_tree(&styled, viewport(800, 600)).unwrap();
    assert_eq!(laid.dimensions.content.width, 800);
    assert_eq!(laid.dimensions.margin, EdgeSizes { left: 0, right: 0, top: 0, bottom: 0 });
    assert_eq!(laid.dimensions.padding, EdgeSizes::default());
    assert_eq!(laid.dimensions.border, EdgeSizes::default());
    assert_eq!(laid.dimensions.content, Rect { x: 0, y: 0, width: 800, height: 0 });
}

#[test]
fn auto_left_margin_takes_the_free_space() {
    let root = node("page", vec![]);
    let sheet = StyleSheet {
        rules: vec![class_rule(
            "page",
            vec![
                decl("display", keyword("block")),
                decl("width", px(100)),
                decl("margin-left", keyword("auto")),
                decl("margin-right", px(0)),
            ],
        )],
    };
    let styled = style_tree(&root, &sheet);
    let laid = layout_tree(&styled, viewport(800, 600)).unwrap();
    assert_eq!(laid.dimensions.margin.left, 700);
    assert_eq!(laid.dimensions.margin.right, 0);
    assert_eq!(laid.dimensions.content.width, 100);
    assert_eq!(laid.dimensions.content.x, 700);
}

#[test]
fn declared_height_overrides_the_children() {
    let root = node("page", vec![node("item", vec![])]);
    let sheet = StyleSheet {
        rules: vec![
            class_rule(
                "page",
                vec![decl("display", keyword("block")), decl("height", px(42))],
            ),
            class_rule(
                "item",
                vec![
                    decl("display", keyword("block")),
                    decl("margin-top", px(4)),
                    decl("margin-bottom", px(6)),
                ],
            ),
        ],
    };
    let styled = style_tree(&root, &sheet);
    let laid = layout_tree(&styled, viewport(800, 600)).unwrap();
    assert_eq!(laid.children.len(), 1);
    assert_eq!(laid.children[0].dimensions.margin_box().unwrap().height, 10);
    assert_eq!(laid.dimensions.content.height, 42);
}

#[test]
fn display_none_subtree_makes_no_boxes() {
    let hidden = node("hidden", vec![node("item", vec![]), node("item", vec![text("x".to_string())])]);
    let root = node("page", vec![hidden]);
    let sheet = StyleSheet {
        rules: vec![
            class_rule("page", vec![decl("display", keyword("block"))]),
            class_rule("hidden", vec![decl("display", keyword("none"))]),
            class_rule("item", vec![decl("display", keyword("block"))]),
        ],
    };
    let styled = style_tree(&root, &sheet);
    let tree = build_layout_tree(&styled).unwrap();
    assert_eq!(tree.children.len(), 0);
    let laid = layout_tree(&styled, viewport(800, 600)).unwrap();
    assert_eq!(laid.children.len(), 0);
}

fn is_anonymous(b: &LayoutBox) -> bool {
    matches!(b.box_type, BoxType::AnonymousBlock)
}

#[test]
fn inline_runs_are_grouped_in_anonymous_blocks() {
    let root = node(
        "page",
        vec![node("word", vec![]), node("word", vec![]), node("para", vec![]), node("word", vec![])],
    );
    let sheet = StyleSheet {
        rules: vec![
            class_rule("page", vec![decl("display", keyword("block"))]),
            class_rule("para", vec![decl("display", keyword("block"))]),
            class_rule("word", vec![decl("display", keyword("inline"))]),
        ],
    };
    let styled = style_tree(&root, &sheet);
    let tree = build_layout_tree(&styled).unwrap();
    assert_eq!(tree.children.len(), 3);
    assert!(is_anonymous(&tree.children[0]));
    assert_eq!(tree.children[0].children.len(), 2);
    assert!(matches!(tree.children[0].children[0].box_type, BoxType::InlineNode(_)));
    assert!(matches!(tree.children[0].children[1].box_type, BoxType::InlineNode(_)));
    assert!(matches!(tree.children[1].box_type, BoxType::BlockNode(_)));
    assert!(is_anonymous(&tree.children[2]));
    assert_eq!(tree.children[2].children.len(), 1);
}

#[test]
fn root_with_display_none_is_an_error() {
    let root = node("page", vec![]);
    let sheet = StyleSheet {
        rules: vec![class_rule("page", vec![decl("display", keyword("none"))])],
    };
    let styled = style_tree(&root, &sheet);
    assert!(matches!(layout_tree(&styled, viewport(800, 600)), Err(LayoutError::RootDisplayNone)));
    assert_eq!(build_layout_tree(&styled).err(), Some(LayoutError::RootDisplayNone));
}

fn page(declarations: Vec<Declaration>, width: i64) -> Dimensions {
    let root = node("page", vec![]);
    let mut all = vec![decl("display", keyword("block"))];
    all.extend(declarations);
    let sheet = StyleSheet { rules: vec![class_rule("page", all)] };
    let styled = style_tree(&root, &sheet);
    layout_tree(&styled, viewport(width, 600)).unwrap().dimensions
}

fn horizontal_sum(d: &Dimensions) -> i64 {
    d.margin.left
        + d.border.left
        + d.padding.left
        + d.content.width
        + d.padding.right
        + d.border.right
        + d.margin.right
}

#[test]
fn right_margin_takes_the_difference_when_all_is_declared() {
    let d = page(
        vec![decl("width", px(100)), decl("margin-left", px(10)), decl("margin-right", px(20))],
        800,
    );
    assert_eq!((d.margin.left, d.content.width, d.margin.right), (10, 100, 690));
    assert_eq!(horizontal_sum(&d), 800);
    // too wide: the right margin goes negative
    let d = page(
        vec![decl("width", px(900)), decl("margin-left", px(10)), decl("margin-right", px(20))],
        800,
    );
    assert_eq!((d.margin.left, d.content.width, d.margin.right), (10, 900, -110));
    assert_eq!(horizontal_sum(&d), 800);
}

#[test]
fn auto_right_margin_takes_the_free_space() {
    let d = page(
        vec![decl("width", px(100)), decl("margin-left", px(10)), decl("margin-right", keyword("auto"))],
        800,
    );
    assert_eq!((d.margin.left, d.content.width, d.margin.right), (10, 100, 690));
    assert_eq!(horizontal_sum(&d), 800);
}

#[test]
fn two_auto_margins_centre_the_box() {
    let d = page(vec![decl("width", px(100)), decl("margin", keyword("auto"))], 800);
    assert_eq!((d.margin.left, d.content.width, d.margin.right), (350, 100, 350));
    assert_eq!(horizontal_sum(&d), 800);
    assert_eq!(d.content.x, 350);
    // of an odd number of free pixels the right margin takes the odd one
    let d = page(vec![decl("width", px(100)), decl("margin", keyword("auto"))], 801);
    assert_eq!((d.margin.left, d.content.width, d.margin.right), (350, 100, 351));
    assert_eq!(horizontal_sum(&d), 801);
    assert_eq!(d.content.x, 350);
    let d = page(vec![decl("width", px(100)), decl("margin", keyword("auto"))], 101);
    assert_eq!((d.margin.left, d.content.width, d.margin.right), (0, 100, 1));
    assert_eq!(horizontal_sum(&d), 101);
}

#[test]
fn auto_margins_are_zero_when_the_box_is_too_wide() {
    let d = page(vec![decl("width", px(900)), decl("margin", keyword("auto"))], 800);
    assert_eq!((d.margin.left, d.content.width, d.margin.right), (0, 900, -100));
    assert_eq!(horizontal_sum(&d), 800);
    let d = page(
        vec![decl("width", px(900)), decl("margin-left", keyword("auto")), decl("margin-right", px(5))],
        800,
    );
    assert_eq!((d.margin.left, d.content.width, d.margin.right), (0, 900, -100));
    assert_eq!(horizontal_sum(&d), 800);
}

#[test]
fn auto_width_takes_what_margins_borders_and_paddings_leave() {
    let d = page(
        vec![
            decl("margin-left", px(10)),
            decl("margin-right", keyword("auto")),
            decl("border-width", px(2)),
            decl("border-left-width", px(3)),
            decl("padding", px(5)),
            decl("padding-right", px(7)),
        ],
        800,
    );
    assert_eq!((d.margin.left, d.margin.right), (10, 0));
    assert_eq!((d.border.left, d.border.right), (3, 2));
    assert_eq!((d.padding.left, d.padding.right), (5, 7));
    assert_eq!(d.content.width, 800 - 10 - 3 - 2 - 5 - 7);
    assert_eq!(horizontal_sum(&d), 800);
    assert_eq!(d.content.x, 10 + 3 + 5);
}

#[test]
fn auto_width_is_zero_when_the_edges_leave_nothing() {
    let d = page(vec![decl("margin-left", px(500)), decl("margin-right", px(400))], 800);
    assert_eq!((d.margin.left, d.content.width, d.margin.right), (500, 0, 300));
    assert_eq!(horizontal_sum(&d), 800);
}

#[test]
fn a_width_that_is_no_length_counts_as_zero_pixels() {
    let d = page(vec![decl("width", keyword("wide"))], 800);
    assert_eq!((d.margin.left, d.content.width, d.margin.right), (0, 0, 800));
}

#[test]
fn the_viewport_height_does_not_move_the_root() {
    let root = node("page", vec![]);
    let sheet = StyleSheet {
        rules: vec![class_rule(
            "page",
            vec![
                decl("display", keyword("block")),
                decl("margin-top", px(1)),
                decl("border-top-width", px(2)),
                decl("padding-top", px(4)),
            ],
        )],
    };
    let styled = style_tree(&root, &sheet);
    let mut view = viewport(800, 600);
    view.content.x = 30;
    view.content.y = 50;
    let laid = layout_tree(&styled, view).unwrap();
    assert_eq!(laid.dimensions.content.x, 30);
    assert_eq!(laid.dimensions.content.y, 50 + 1 + 2 + 4);
    assert_eq!(laid.dimensions.content.height, 0);
}

#[test]
fn block_children_stack_below_each_other() {
    let root = node("page", vec![node("a", vec![]), node("b", vec![node("a", vec![])]), node("a", vec![])]);
    let sheet = StyleSheet {
        rules: vec![
            class_rule(
                "page",
                vec![decl("display", keyword("block")), decl("padding", px(10))],
            ),
            class_rule(
                "a",
                vec![
                    decl("display", keyword("block")),
                    decl("height", px(20)),
                    decl("margin", px(1)),
                    decl("border-width", px(2)),
                    decl("padding", px(3)),
                ],
            ),
            class_rule(
                "b",
                vec![decl("display", keyword("block")), decl("margin-bottom", px(5))],
            ),
        ],
    };
    let styled = style_tree(&root, &sheet);
    let laid = layout_tree(&styled, viewport(200, 600)).unwrap();
    let d = laid.dimensions;
    assert_eq!(d.content, Rect { x: 10, y: 10, width: 180, height: 32 + 37 + 32 });
    assert_eq!(d.padding, EdgeSizes { left: 10, right: 10, top: 10, bottom: 10 });

    let first = laid.children[0].dimensions;
    assert_eq!(first.content, Rect { x: 16, y: 16, width: 168, height: 20 });
    assert_eq!(first.margin, EdgeSizes { left: 1, right: 1, top: 1, bottom: 1 });
    assert_eq!(first.border, EdgeSizes { left: 2, right: 2, top: 2, bottom: 2 });
    assert_eq!(first.padding, EdgeSizes { left: 3, right: 3, top: 3, bottom: 3 });
    assert_eq!(first.margin_box(), Some(Rect { x: 10, y: 10, width: 180, height: 32 }));

    let second = laid.children[1].dimensions;
    assert_eq!(second.content, Rect { x: 10, y: 42, width: 180, height: 32 });
    assert_eq!(second.margin_box(), Some(Rect { x: 10, y: 42, width: 180, height: 37 }));
    let inner = laid.children[1].children[0].dimensions;
    assert_eq!(inner.content, Rect { x: 16, y: 48, width: 168, height: 20 });

    let third = laid.children[2].dimensions;
    assert_eq!(third.content, Rect { x: 16, y: 42 + 37 + 6, width: 168, height: 20 });
}

#[test]
fn inline_boxes_and_anonymous_blocks_get_no_geometry() {
    let root = node("page", vec![node("word", vec![node("para", vec![])]), node("para", vec![])]);
    let sheet = StyleSheet {
        rules: vec![
            class_rule("page", vec![decl("display", keyword("block"))]),
            class_rule(
                "para",
                vec![decl("display", keyword("block")), decl("height", px(10))],
            ),
            class_rule("word", vec![decl("height", px(99)), decl("width", px(99))]),
        ],
    };
    let styled = style_tree(&root, &sheet);
    let laid = layout_tree(&styled, viewport(100, 100)).unwrap();
    assert_eq!(laid.children.len(), 2);
    let anonymous = &laid.children[0];
    assert!(is_anonymous(anonymous));
    assert_eq!(anonymous.dimensions, Dimensions::default());
    let word = &anonymous.children[0];
    assert!(matches!(word.box_type, BoxType::InlineNode(_)));
    assert_eq!(word.dimensions, Dimensions::default());
    // a block inside an inline box is not reached either
    assert!(matches!(word.children[0].box_type, BoxType::BlockNode(_)));
    assert_eq!(word.children[0].dimensions, Dimensions::default());
    assert_eq!(laid.children[1].dimensions.content, Rect { x: 0, y: 0, width: 100, height: 10 });
    assert_eq!(laid.dimensions.content.height, 10);
}

#[test]
fn an_inline_parent_holds_its_children_directly() {
    let root = node("word", vec![node("word", vec![]), node("para", vec![]), node("hidden", vec![])]);
    let sheet = StyleSheet {
        rules: vec![
            class_rule("para", vec![decl("display", keyword("block"))]),
            class_rule("hidden", vec![decl("display", keyword("none"))]),
        ],
    };
    let styled = style_tree(&root, &sheet);
    let tree = build_layout_tree(&styled).unwrap();
    assert!(matches!(tree.box_type, BoxType::InlineNode(_)));
    assert_eq!(tree.children.len(), 2);
    assert!(matches!(tree.children[0].box_type, BoxType::InlineNode(_)));
    assert!(matches!(tree.children[1].box_type, BoxType::BlockNode(_)));
}

#[test]
fn a_hidden_child_between_inline_children_does_not_split_their_block() {
    let root = node("page", vec![node("word", vec![]), node("hidden", vec![node("para", vec![])]), node("word", vec![])]);
    let sheet = StyleSheet {
        rules: vec![
            class_rule("page", vec![decl("display", keyword("block"))]),
            class_rule("para", vec![decl("display", keyword("block"))]),
            class_rule("hidden", vec![decl("display", keyword("none"))]),
        ],
    };
    let styled = style_tree(&root, &sheet);
    let tree = build_layout_tree(&styled).unwrap();
    assert_eq!(tree.children.len(), 1);
    assert!(is_anonymous(&tree.children[0]));
    assert_eq!(tree.children[0].children.len(), 2);
}

#[test]
fn boxes_point_at_their_styled_nodes() {
    let root = node("page", vec![node("word", vec![])]);
    let sheet = StyleSheet {
        rules: vec![class_rule("page", vec![decl("display", keyword("block"))])],
    };
    let styled = style_tree(&root, &sheet);
    let tree = build_layout_tree(&styled).unwrap();
    assert!(std::ptr::eq(tree.get_style_node().unwrap(), &styled));
    let anonymous = &tree.children[0];
    assert_eq!(anonymous.get_style_node().err(), Some(LayoutError::AnonymousBlockHasNoStyle));
    assert!(std::ptr::eq(anonymous.children[0].get_style_node().unwrap(), &styled.children[0]));
}

#[test]
fn get_inline_container_reuses_a_trailing_anonymous_block() {
    let root = node("page", vec![]);
    let styled = StyledNode { node: &root, specified_values: PropertyMap::new(), children: vec![] };
    let mut block = LayoutBox::new(BoxType::BlockNode(&styled));
    assert!(is_anonymous(block.get_inline_container()));
    assert_eq!(block.children.len(), 1);
    block.get_inline_container().children.push(LayoutBox::new(BoxType::InlineNode(&styled)));
    assert_eq!(block.children.len(), 1);
    assert_eq!(block.children[0].children.len(), 1);
    block.children.push(LayoutBox::new(BoxType::BlockNode(&styled)));
    assert!(is_anonymous(block.get_inline_container()));
    assert_eq!(block.children.len(), 3);

    let mut inline = LayoutBox::new(BoxType::InlineNode(&styled));
    assert!(matches!(inline.get_inline_container().box_type, BoxType::InlineNode(_)));
    assert_eq!(inline.children.len(), 0);
    let mut anonymous = LayoutBox::new(BoxType::AnonymousBlock);
    assert!(is_anonymous(anonymous.get_inline_container()));
    assert_eq!(anonymous.children.len(), 0);
}

#[test]
fn the_steps_refuse_an_anonymous_block() {
    let mut b = LayoutBox::new(BoxType::AnonymousBlock);
    let view = viewport(800, 600);
    assert_eq!(b.calculate_block_width(view), Err(LayoutError::AnonymousBlockHasNoStyle));
    assert_eq!(b.calculate_block_position(view), Err(LayoutError::AnonymousBlockHasNoStyle));
    assert_eq!(b.calculate_block_height(), Err(LayoutError::AnonymousBlockHasNoStyle));
    assert_eq!(b.dimensions, Dimensions::default());
}

#[test]
fn the_width_step_changes_the_horizontal_parts_only() {
    let root = node("page", vec![]);
    let mut values = PropertyMap::new();
    values.insert("width".to_string(), px(100));
    values.insert("padding".to_string(), px(4));
    values.insert("margin-top".to_string(), px(9));
    let styled = StyledNode { node: &root, specified_values: values, children: vec![] };
    let mut b = LayoutBox::new(BoxType::BlockNode(&styled));
    b.dimensions.content.height = 77;
    b.dimensions.margin.top = 5;
    assert_eq!(b.calculate_block_width(viewport(800, 600)), Ok(()));
    assert_eq!(b.dimensions.content, Rect { x: 0, y: 0, width: 100, height: 77 });
    assert_eq!(b.dimensions.padding, EdgeSizes { left: 4, right: 4, top: 0, bottom: 0 });
    assert_eq!(b.dimensions.margin, EdgeSizes { left: 0, right: 692, top: 5, bottom: 0 });
    assert_eq!(b.calculate_block_position(viewport(800, 600)), Ok(()));
    assert_eq!(b.dimensions.content, Rect { x: 4, y: 600 + 9 + 4, width: 100, height: 77 });
    assert_eq!(b.dimensions.padding, EdgeSizes { left: 4, right: 4, top: 4, bottom: 4 });
    assert_eq!(b.dimensions.margin, EdgeSizes { left: 0, right: 692, top: 9, bottom: 0 });
    assert_eq!(b.calculate_block_height(), Ok(()));
    assert_eq!(b.dimensions.content.height, 77);
}

#[test]
fn a_height_that_is_no_length_is_ignored() {
    let root = node("page", vec![]);
    let mut values = PropertyMap::new();
    values.insert("height".to_string(), keyword("auto"));
    let styled = StyledNode { node: &root, specified_values: values, children: vec![] };
    let mut b = LayoutBox::new(BoxType::BlockNode(&styled));
    b.dimensions.content.height = 12;
    assert_eq!(b.calculate_block_height(), Ok(()));
    assert_eq!(b.dimensions.content.height, 12);
}

#[test]
fn geometry_that_cannot_be_stored_is_an_error() {
    // width
    let root = node("page", vec![]);
    let sheet = StyleSheet {
        rules: vec![class_rule(
            "page",
            vec![decl("display", keyword("block")), decl("margin-left", px(-2))],
        )],
    };
    let styled = style_tree(&root, &sheet);
    assert!(matches!(layout_tree(&styled, viewport(i64::MAX, 0)), Err(LayoutError::Overflow)));
    assert!(layout_tree(&styled, viewport(i64::MAX - 2, 0)).is_ok());

    // position
    let mut view = viewport(10, 0);
    view.content.x = i64::MIN;
    assert!(matches!(layout_tree(&styled, view), Err(LayoutError::Overflow)));
    view.content.x = i64::MIN + 2;
    assert_eq!(layout_tree(&styled, view).unwrap().dimensions.content.x, i64::MIN);

    // height of the children
    let root = node("page", vec![node("tall", vec![]), node("tall", vec![])]);
    let sheet = StyleSheet {
        rules: vec![
            class_rule("page", vec![decl("display", keyword("block")), decl("height", px(1))]),
            class_rule(
                "tall",
                vec![decl("display", keyword("block")), decl("height", px(i64::MAX / 2 + 1))],
            ),
        ],
    };
    let styled = style_tree(&root, &sheet);
    assert!(matches!(layout_tree(&styled, viewport(10, 0)), Err(LayoutError::Overflow)));
}

#[test]
fn boxes_grow_by_their_edges() {
    let r = Rect { x: 10, y: 20, width: 30, height: 40 };
    let e = EdgeSizes { left: 1, right: 2, top: 3, bottom: 4 };
    assert_eq!(r.expanded_by(e), Some(Rect { x: 9, y: 17, width: 33, height: 47 }));
    let d = Dimensions {
        content: r,
        padding: e,
        border: EdgeSizes { left: 10, right: 20, top: 30, bottom: 40 },
        margin: EdgeSizes { left: -1, right: -2, top: -3, bottom: -4 },
    };
    assert_eq!(d.padding_box(), Some(Rect { x: 9, y: 17, width: 33, height: 47 }));
    assert_eq!(d.border_box(), Some(Rect { x: -1, y: -13, width: 63, height: 117 }));
    assert_eq!(d.margin_box(), Some(Rect { x: 0, y: -10, width: 60, height: 110 }));
}

#[test]
fn a_box_that_cannot_be_stored_is_none() {
    let r = Rect { x: i64::MIN, y: 0, width: 0, height: 0 };
    assert_eq!(r.expanded_by(EdgeSizes { left: 1, right: 0, top: 0, bottom: 0 }), None);
    assert_eq!(
        r.expanded_by(EdgeSizes { left: 0, right: 0, top: 0, bottom: 0 }),
        Some(Rect { x: i64::MIN, y: 0, width: 0, height: 0 })
    );
    let wide = Rect { x: 0, y: 0, width: i64::MAX, height: i64::MAX };
    assert_eq!(wide.expanded_by(EdgeSizes { left: 0, right: 1, top: 0, bottom: 0 }), None);
    assert_eq!(wide.expanded_by(EdgeSizes { left: 0, right: 0, top: 0, bottom: 1 }), None);
    assert_eq!(
        wide.expanded_by(EdgeSizes { left: 1, right: -1, top: -1, bottom: 1 }),
        Some(Rect { x: -1, y: 1, width: i64::MAX, height: i64::MAX })
    );
    let mut d = Dimensions::default();
    d.content = wide;
    d.padding.right = 1;
    d.border.right = -1;
    assert_eq!(d.padding_box(), None);
    assert_eq!(d.border_box(), None);
    assert_eq!(d.margin_box(), None);
}

#[test]
fn a_document_from_text_is_laid_out() {
    let document = browser_engine::html::parse(
        "<div class=\"page\"><p class=\"note\">one</p><p>two</p></div>".to_string(),
    )
    .unwrap();
    let sheet = browser_engine::css::parse(
        "div, p { display: block; } .page { width: 600px; margin: auto; padding: 10px; } \
         p { height: 30px; margin-bottom: 5px; } .note { height: 50px; }"
            .to_string(),
    )
    .unwrap();
    let styled = style_tree(&document, &sheet);
    let laid = layout_tree(&styled, viewport(800, 600)).unwrap();
    assert_eq!(laid.dimensions.content, Rect { x: 100, y: 10, width: 600, height: 90 });
    assert_eq!(laid.dimensions.margin, EdgeSizes { left: 90, right: 90, top: 0, bottom: 0 });
    assert_eq!(laid.children.len(), 2);
    assert_eq!(laid.children[0].dimensions.content, Rect { x: 100, y: 10, width: 600, height: 50 });
    assert_eq!(laid.children[1].dimensions.content, Rect { x: 100, y: 65, width: 600, height: 30 });
    // the text inside each paragraph sits in an anonymous block
    assert!(is_anonymous(&laid.children[0].children[0]));
}

fn horizontal(width: Option<i64>, left: Option<i64>, right: Option<i64>) -> HorizontalStyle {
    HorizontalStyle {
        width,
        margin_left: left,
        margin_right: right,
        border_left: 0,
        border_right: 0,
        padding_left: 0,
        padding_right: 0,
    }
}

#[test]
fn resolve_covers_each_combination_of_auto() {
    // nothing auto
    assert_eq!(horizontal(Some(100), Some(10), Some(20)).resolve(800), Some((100, 10, 690)));
    // one margin auto
    assert_eq!(horizontal(Some(100), None, Some(0)).resolve(800), Some((100, 700, 0)));
    assert_eq!(horizontal(Some(100), Some(30), None).resolve(800), Some((100, 30, 670)));
    // both margins auto
    assert_eq!(horizontal(Some(100), None, None).resolve(800), Some((100, 350, 350)));
    assert_eq!(horizontal(Some(100), None, None).resolve(801), Some((100, 350, 351)));
    assert_eq!(horizontal(Some(100), None, None).resolve(101), Some((100, 0, 1)));
    assert_eq!(horizontal(Some(800), None, None).resolve(800), Some((800, 0, 0)));
    // width auto
    assert_eq!(horizontal(None, Some(0), Some(0)).resolve(800), Some((800, 0, 0)));
    assert_eq!(horizontal(None, None, None).resolve(800), Some((800, 0, 0)));
    assert_eq!(horizontal(None, Some(10), None).resolve(800), Some((790, 10, 0)));
    assert_eq!(horizontal(None, None, Some(10)).resolve(800), Some((790, 0, 10)));
    assert_eq!(horizontal(None, Some(500), Some(400)).resolve(800), Some((0, 500, 300)));
    // too wide: auto margins count as zero, the right margin takes the rest
    assert_eq!(horizontal(Some(900), None, None).resolve(800), Some((900, 0, -100)));
    assert_eq!(horizontal(Some(900), None, Some(5)).resolve(800), Some((900, 0, -100)));
    assert_eq!(horizontal(Some(900), Some(5), None).resolve(800), Some((900, 5, -105)));
    assert_eq!(horizontal(Some(801), None, None).resolve(800), Some((801, 0, -1)));
}

#[test]
fn resolve_counts_borders_and_paddings() {
    let style = HorizontalStyle {
        width: None,
        margin_left: Some(1),
        margin_right: Some(2),
        border_left: 3,
        border_right: 4,
        padding_left: 5,
        padding_right: 6,
    };
    assert_eq!(style.resolve(100), Some((79, 1, 2)));
    assert_eq!(style.resolve(21), Some((0, 1, 2)));
    assert_eq!(style.resolve(20), Some((0, 1, 1)));
    assert_eq!(style.resolve(0), Some((0, 1, -19)));
    assert_eq!(style.resolve(-5), Some((0, 1, -24)));
    let style = HorizontalStyle { width: Some(50), margin_left: None, margin_right: None, ..style };
    assert_eq!(style.resolve(100), Some((50, 16, 16)));
}

#[test]
fn resolve_refuses_what_cannot_be_stored() {
    assert_eq!(horizontal(Some(0), Some(-1), Some(0)).resolve(i64::MAX), None);
    assert_eq!(horizontal(Some(0), Some(0), Some(0)).resolve(i64::MAX), Some((0, 0, i64::MAX)));
    assert_eq!(horizontal(None, Some(-1), Some(0)).resolve(i64::MAX), None);
    assert_eq!(horizontal(None, Some(i64::MAX), Some(i64::MAX)).resolve(i64::MIN), None);
    assert_eq!(
        horizontal(Some(i64::MAX), Some(i64::MAX), Some(i64::MAX)).resolve(i64::MAX),
        Some((i64::MAX, i64::MAX, -i64::MAX))
    );
    assert_eq!(horizontal(Some(i64::MIN), None, None).resolve(i64::MAX), None);
    assert_eq!(
        horizontal(Some(i64::MIN), None, None).resolve(i64::MAX - 1),
        Some((i64::MIN, i64::MAX, i64::MAX))
    );
    assert_eq!(horizontal(Some(i64::MIN), None, Some(0)).resolve(i64::MAX), None);
    assert_eq!(horizontal(Some(i64::MIN), Some(0), None).resolve(i64::MAX), None);
}

fn assert_blocks_fill(b: &LayoutBox, width: i64) {
    if let BoxType::BlockNode(_) = b.box_type {
        assert_eq!(horizontal_sum(&b.dimensions), width);
        for child in &b.children {
            assert_blocks_fill(child, b.dimensions.content.width);
        }
    }
}

#[test]
fn every_block_is_as_wide_as_the_block_around_it() {
    let root = node(
        "page",
        vec![
            node("centred", vec![node("centred", vec![]), node("wide", vec![])]),
            node("plain", vec![node("centred", vec![])]),
            node("wide", vec![node("plain", vec![])]),
        ],
    );
    let sheet = StyleSheet {
        rules: vec![
            class_rule("page", vec![decl("display", keyword("block")), decl("padding", px(3))]),
            class_rule(
                "centred",
                vec![
                    decl("display", keyword("block")),
                    decl("width", px(100)),
                    decl("margin", keyword("auto")),
                    decl("border-width", px(1)),
                ],
            ),
            class_rule(
                "plain",
                vec![decl("display", keyword("block")), decl("margin-left", px(7))],
            ),
            class_rule(
                "wide",
                vec![
                    decl("display", keyword("block")),
                    decl("width", px(2000)),
                    decl("margin-left", keyword("auto")),
                    decl("padding-right", px(5)),
                ],
            ),
        ],
    };
    let styled = style_tree(&root, &sheet);
    for width in [0, 1, 99, 100, 101, 102, 103, 800, 801, 4001] {
        let laid = layout_tree(&styled, viewport(width, 600)).unwrap();
        assert_blocks_fill(&laid, width);
    }
    let laid = layout_tree(&styled, viewport(801, 600)).unwrap();
    let centred = laid.children[0].dimensions;
    // 801 - 6 of padding leave 795 around; 102 are taken, 693 are free
    assert_eq!((centred.margin.left, centred.content.width, centred.margin.right), (346, 100, 347));
    let inner = laid.children[0].children[0].dimensions;
    // inside 100 the inner box of 102 is too wide: its auto margins count as zero
    assert_eq!((inner.margin.left, inner.content.width, inner.margin.right), (0, 100, -2));
}

fn nodes_of<'a>(b: &LayoutBox<'a>, out: &mut Vec<&'a StyledNode<'a>>) {
    match b.box_type {
        BoxType::BlockNode(node) | BoxType::InlineNode(node) => out.push(node),
        BoxType::AnonymousBlock => {}
    }
    for child in &b.children {
        nodes_of(child, out);
    }
}

fn shown_of<'a>(node: &'a StyledNode<'a>, out: &mut Vec<&'a StyledNode<'a>>) {
    out.push(node);
    for child in &node.children {
        if child.display() != Display::DisplayNone {
            shown_of(child, out);
        }
    }
}

fn assert_same_nodes(boxes: &[&StyledNode], shown: &[&StyledNode]) {
    assert_eq!(boxes.len(), shown.len());
    for (a, b) in boxes.iter().zip(shown) {
        assert!(std::ptr::eq(*a, *b));
    }
}

fn assert_grouped(b: &LayoutBox) {
    if let BoxType::BlockNode(_) = b.box_type {
        for (k, child) in b.children.iter().enumerate() {
            match child.box_type {
                BoxType::BlockNode(_) => {}
                BoxType::InlineNode(_) => panic!("an inline box stands directly in a block"),
                BoxType::AnonymousBlock => {
                    assert!(!child.children.is_empty());
                    for held in &child.children {
                        assert!(matches!(held.box_type, BoxType::InlineNode(_)));
                    }
                    if k + 1 < b.children.len() {
                        assert!(!is_anonymous(&b.children[k + 1]));
                    }
                }
            }
        }
    }
    for child in &b.children {
        assert_grouped(child);
    }
}

fn deep_document() -> (Node, StyleSheet) {
    let root = node(
        "page",
        vec![
            node("word", vec![node("hidden", vec![node("para", vec![])]), node("word", vec![])]),
            node(
                "para",
                vec![
                    node("word", vec![]),
                    node("hidden", vec![node("word", vec![node("para", vec![])])]),
                    node("word", vec![node("para", vec![node("word", vec![]), node("word", vec![])])]),
                    node("para", vec![node("hidden", vec![])]),
                    node("word", vec![]),
                ],
            ),
            node("hidden", vec![node("para", vec![node("para", vec![])]), node("word", vec![])]),
            node("word", vec![]),
        ],
    );
    let sheet = StyleSheet {
        rules: vec![
            class_rule("page", vec![decl("display", keyword("block"))]),
            class_rule("para", vec![decl("display", keyword("block"))]),
            class_rule("hidden", vec![decl("display", keyword("none"))]),
        ],
    };
    (root, sheet)
}

#[test]
fn boxes_stand_for_the_shown_nodes_at_every_depth() {
    let (root, sheet) = deep_document();
    let styled = style_tree(&root, &sheet);
    let tree = build_layout_tree(&styled).unwrap();
    let (mut boxes, mut shown) = (Vec::new(), Vec::new());
    nodes_of(&tree, &mut boxes);
    shown_of(&styled, &mut shown);
    assert_same_nodes(&boxes, &shown);
    // 22 nodes, 10 of them hidden or below a hidden node
    assert_eq!(boxes.len(), 12);
    let laid = layout_tree(&styled, viewport(800, 600)).unwrap();
    let mut laid_boxes = Vec::new();
    nodes_of(&laid, &mut laid_boxes);
    assert_same_nodes(&laid_boxes, &shown);
}

#[test]
fn inline_runs_are_grouped_at_every_depth() {
    let (root, sheet) = deep_document();
    let styled = style_tree(&root, &sheet);
    let tree = build_layout_tree(&styled).unwrap();
    assert_grouped(&tree);
    assert_grouped(&layout_tree(&styled, viewport(800, 600)).unwrap());
    // under the page: the first word, the paragraph, the last word
    assert_eq!(tree.children.len(), 3);
    assert!(is_anonymous(&tree.children[0]));
    assert!(is_anonymous(&tree.children[2]));
    // under the paragraph: two words around a hidden node share a block
    let para = &tree.children[1];
    assert_eq!(para.children.len(), 3);
    assert!(is_anonymous(&para.children[0]));
    assert_eq!(para.children[0].children.len(), 2);
    assert!(matches!(para.children[1].box_type, BoxType::BlockNode(_)));
    assert!(is_anonymous(&para.children[2]));
    // under the block inside an inline box inside that anonymous block
    let inner = &para.children[0].children[1].children[0];
    assert!(matches!(inner.box_type, BoxType::BlockNode(_)));
    assert_eq!(inner.children.len(), 1);
    assert_eq!(inner.children[0].children.len(), 2);
}
