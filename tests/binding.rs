use derive_tree_sitter::node::{can_bind, Node};
use derive_tree_sitter::parse::{check_for_errors, parse, parse_collecting};
use derive_tree_sitter::schema::{
    build_schema, derive_from_tree_sitter, rule_name, Alt, FieldDecl, Rule, Schema, SchemaError,
    Shape, TypeDecl, TypeRules, VariantDecl,
};
use derive_tree_sitter::tree::{CstNode, Cursor, Tree};
use derive_tree_sitter::value::{Error, ErrorKind, Value};

fn cst(
    kind: &str,
    start: usize,
    end: usize,
    named: bool,
    field: Option<&str>,
    children: Vec<usize>,
) -> CstNode {
    CstNode {
        kind: kind.to_string(),
        start,
        end,
        is_named: named,
        is_error: false,
        field: field.map(|f| f.to_string()),
        children,
    }
}

fn field(name: &str, shape: Shape, rule: Option<&str>) -> FieldDecl {
    FieldDecl { name: name.to_string(), shape, rule: rule.map(|r| r.to_string()) }
}

fn variant(name: &str, rule: Option<&str>, ty: usize) -> VariantDecl {
    VariantDecl { name: name.to_string(), rule: rule.map(|r| r.to_string()), ty }
}

// Types: 0 Ident { text, span }, 1 AddExpr { left, right, operator flag,
// extra optional }, 2 SubExpr { left, right }, 3 Expr = Add | Sub.
fn expr_schema() -> Schema {
    let decls = vec![
        TypeDecl::Record(vec![field("text", Shape::Text, None), field("span", Shape::Span, None)]),
        TypeDecl::Record(vec![
            field("left", Shape::Nested(0), None),
            field("right", Shape::Nested(0), None),
            field("operator", Shape::Flag, None),
            field("extra", Shape::Optional(0), None),
        ]),
        TypeDecl::Record(vec![field("left", Shape::Nested(0), None), field("right", Shape::Nested(0), None)]),
        TypeDecl::Union(vec![
            variant("Add", Some("add_expr"), 1),
            variant("Sub", Some("sub_expr"), 2),
        ]),
    ];
    build_schema(&decls).unwrap()
}

// "a+bc": (add_expr left: (identifier) operator: "+" right: (identifier))
fn add_tree(root_kind: &str) -> Tree {
    Tree {
        source: "a+bc".to_string(),
        nodes: vec![
            cst(root_kind, 0, 4, true, None, vec![1, 2, 3]),
            cst("identifier", 0, 1, true, Some("left"), vec![]),
            cst("+", 1, 2, false, Some("operator"), vec![]),
            cst("identifier", 2, 4, true, Some("right"), vec![]),
        ],
    }
}

fn ident(text: &str, start: usize, end: usize) -> Value {
    Value::Record(vec![Value::Text(text.to_string()), Value::Span(start..end)])
}

#[test]
fn resolver_selects_rule_per_shape() {
    let decl = TypeDecl::Record(vec![
        field("span", Shape::Span, None),
        field("text", Shape::Text, None),
        field("value", Shape::Optional(0), None),
        field("items", Shape::Repeated(0), None),
        field("is_pub", Shape::Flag, None),
        field("body", Shape::Nested(0), None),
        field("r#type", Shape::Nested(0), None),
        field("args", Shape::Repeated(0), Some("argument")),
        field("name", Shape::Optional(0), Some("identifier")),
    ]);
    let rules = match derive_from_tree_sitter(&decl) {
        Ok(TypeRules::Record(rules)) => rules,
        _ => panic!("record expected"),
    };
    let names: Vec<String> = rules
        .iter()
        .map(|r| match r {
            Rule::Span => "Span".to_string(),
            Rule::TextSlice => "TextSlice".to_string(),
            Rule::OptionalChild(n, u) => format!("Optional({n},{u})"),
            Rule::RequiredChild(n, u) => format!("Required({n},{u})"),
            Rule::RepeatedChildren(n, u) => format!("Repeated({n},{u})"),
            Rule::PresenceFlag(n) => format!("Flag({n})"),
        })
        .collect();
    assert_eq!(
        names,
        vec![
            "Span",
            "TextSlice",
            "Optional(value,0)",
            "Repeated(item,0)",
            "Flag(is_pub)",
            "Required(body,0)",
            "Required(type,0)",
            "Repeated(argument,0)",
            "Optional(identifier,0)",
        ]
    );
}

#[test]
fn repeated_field_without_plural_suffix_is_rejected() {
    let decl = TypeDecl::Record(vec![
        field("name", Shape::Text, None),
        field("item", Shape::Repeated(0), None),
    ]);
    assert!(matches!(derive_from_tree_sitter(&decl), Err(SchemaError::MissingPluralSuffix(1))));
    let decls = vec![decl];
    assert!(matches!(build_schema(&decls), Err((0, SchemaError::MissingPluralSuffix(1)))));
}

#[test]
fn repeated_field_with_explicit_rule_is_accepted() {
    let decl = TypeDecl::Record(vec![field("item", Shape::Repeated(0), Some("entry"))]);
    match derive_from_tree_sitter(&decl) {
        Ok(TypeRules::Record(rules)) => {
            assert!(matches!(&rules[0], Rule::RepeatedChildren(n, 0) if n == "entry"))
        }
        _ => panic!("record expected"),
    }
}

#[test]
fn rule_name_strips_plural_and_raw_marker() {
    assert_eq!(rule_name(&field("r#items", Shape::Repeated(0), None)), Some("item".to_string()));
    assert_eq!(rule_name(&field("r#match", Shape::Flag, None)), Some("match".to_string()));
    assert_eq!(rule_name(&field("s", Shape::Repeated(0), None)), Some(String::new()));
    assert_eq!(rule_name(&field("", Shape::Repeated(0), None)), None);
    assert_eq!(rule_name(&field("r#", Shape::Nested(0), None)), Some(String::new()));
}

#[test]
fn union_variant_without_rule_is_rejected() {
    let decl = TypeDecl::Union(vec![variant("A", Some("a"), 0), variant("B", None, 0)]);
    assert!(matches!(derive_from_tree_sitter(&decl), Err(SchemaError::MissingVariantRule(1))));
}

#[test]
fn schema_references_are_checked() {
    let unknown = vec![TypeDecl::Record(vec![
        field("x", Shape::Text, None),
        field("y", Shape::Nested(5), None),
    ])];
    assert!(matches!(build_schema(&unknown), Err((0, SchemaError::UnknownType(1)))));
    let later = vec![
        TypeDecl::Record(vec![field("x", Shape::Text, None)]),
        TypeDecl::Union(vec![variant("A", Some("a"), 0), variant("B", Some("b"), 1)]),
    ];
    assert!(matches!(build_schema(&later), Err((1, SchemaError::VariantNotEarlier(1)))));
}

#[test]
fn union_dispatch_selects_add_variant() {
    let schema = expr_schema();
    let tree = add_tree("add_expr");
    assert!(can_bind(&tree, &schema, 3, 0));
    let mut node = Node::root(&tree);
    let v = node.bind(&schema, 3);
    let expected = Value::Variant(
        0,
        Box::new(Value::Record(vec![
            ident("a", 0, 1),
            ident("bc", 2, 4),
            Value::Flag(true),
            Value::Opt(None),
        ])),
    );
    assert_eq!(v, expected);
    assert_eq!(node.cursor.as_ref().unwrap().pos, 0);
}

#[test]
fn union_dispatch_selects_sub_variant() {
    let schema = expr_schema();
    let tree = add_tree("sub_expr");
    let v = parse(&tree, &schema, 3).unwrap();
    let expected =
        Value::Variant(1, Box::new(Value::Record(vec![ident("a", 0, 1), ident("bc", 2, 4)])));
    assert_eq!(v, expected);
}

#[test]
fn union_dispatch_on_unknown_kind_is_fatal() {
    let schema = expr_schema();
    let tree = add_tree("mul_expr");
    assert!(!can_bind(&tree, &schema, 3, 0));
    // The payload type alone still binds: only the dispatch fails.
    assert!(can_bind(&tree, &schema, 1, 0));
}

#[test]
fn missing_required_child_is_fatal_in_both_modes() {
    let schema = expr_schema();
    let mut tree = add_tree("add_expr");
    tree.nodes[3].field = Some("rhs".to_string());
    assert!(!can_bind(&tree, &schema, 3, 0));
    assert!(!can_bind(&tree, &schema, 1, 0));
    assert!(!Node::root(&tree).has_child("right"));
    let mut node = Node::root(&tree);
    assert_eq!(node.child(&schema, "left", 0), ident("a", 0, 1));
}

#[test]
fn optional_absent_leaves_cursor() {
    let schema = expr_schema();
    let tree = add_tree("add_expr");
    let mut node = Node::root(&tree);
    assert_eq!(node.try_child(&schema, "extra", 0), None);
    assert_eq!(node.cursor.as_ref().unwrap().pos, 0);
    assert_eq!(node.try_child(&schema, "left", 0), Some(ident("a", 0, 1)));
    assert_eq!(node.cursor.as_ref().unwrap().pos, 0);
}

#[test]
fn presence_flag_ignores_child_contents() {
    let tree = add_tree("add_expr");
    let node = Node::root(&tree);
    assert!(node.has_child("operator"));
    assert!(node.has_child("left"));
    assert!(!node.has_child("extra"));
    assert!(!node.has_child("identifier"));
}

fn list_tree() -> Tree {
    // "x,y;z": (list item: (id) item: "," item: (id) sep: ";" item: (id))
    Tree {
        source: "x,y;z".to_string(),
        nodes: vec![
            cst("list", 0, 5, true, None, vec![1, 2, 3, 4, 5]),
            cst("id", 0, 1, true, Some("item"), vec![]),
            cst(",", 1, 2, false, Some("item"), vec![]),
            cst("id", 2, 3, true, Some("item"), vec![]),
            cst(";", 3, 4, false, Some("sep"), vec![]),
            cst("id", 4, 5, true, Some("item"), vec![]),
        ],
    }
}

fn list_schema() -> Schema {
    let decls = vec![
        TypeDecl::Record(vec![field("text", Shape::Text, None)]),
        TypeDecl::Record(vec![
            field("items", Shape::Repeated(0), None),
            field("seps", Shape::Repeated(0), None),
        ]),
    ];
    build_schema(&decls).unwrap()
}

#[test]
fn repeated_children_keep_source_order_of_named_nodes() {
    let tree = list_tree();
    let schema = list_schema();
    let mut node = Node::root(&tree);
    let items = node.children(&schema, "item", 0);
    let texts: Vec<Value> = ["x", "y", "z"]
        .iter()
        .map(|t| Value::Record(vec![Value::Text(t.to_string())]))
        .collect();
    assert_eq!(items, texts);
    // ";" is anonymous: no element.
    assert_eq!(node.children(&schema, "sep", 0), vec![]);
    assert_eq!(node.children(&schema, "nothing", 0), vec![]);
    assert_eq!(node.cursor.as_ref().unwrap().pos, 0);
    let v = node.bind(&schema, 1);
    assert_eq!(v, Value::Record(vec![Value::List(texts), Value::List(vec![])]));
}

#[test]
fn cursor_collects_field_children() {
    let tree = list_tree();
    let mut cursor = Cursor::new();
    assert_eq!(cursor.field_children(&tree, 0, &"item".to_string(), false), vec![1, 2, 3, 5]);
    assert_eq!(cursor.pos, 0);
    assert_eq!(cursor.field_children(&tree, 0, &"item".to_string(), true), vec![1, 3, 5]);
    assert_eq!(tree.child_by_field_name(0, &"sep".to_string()), Some(4));
    assert_eq!(tree.child_by_field_name(0, &"none".to_string()), None);
}

#[test]
fn text_slice_covers_multibyte_characters() {
    let tree = Tree {
        source: "é+ü".to_string(),
        nodes: vec![
            cst("add_expr", 0, 5, true, None, vec![1, 2, 3]),
            cst("identifier", 0, 2, true, Some("left"), vec![]),
            cst("+", 2, 3, false, Some("operator"), vec![]),
            cst("identifier", 3, 5, true, Some("right"), vec![]),
        ],
    };
    let node = Node::root(&tree);
    assert_eq!(node.slice(), "é+ü");
    assert_eq!(node.range(), 0..5);
    assert_eq!(node.kind(), "add_expr");
    let v = parse(&tree, &expr_schema(), 3).unwrap();
    let expected = Value::Variant(
        0,
        Box::new(Value::Record(vec![
            ident("é", 0, 2),
            ident("ü", 3, 5),
            Value::Flag(true),
            Value::Opt(None),
        ])),
    );
    assert_eq!(v, expected);
}

// "a +" as a grammar reports it: (program (ERROR (identifier) "+")).
fn incomplete_tree() -> Tree {
    let mut error = cst("ERROR", 0, 3, true, Some("body"), vec![2, 3]);
    error.is_error = true;
    Tree {
        source: "a +".to_string(),
        nodes: vec![
            cst("program", 0, 3, true, None, vec![1]),
            error,
            cst("identifier", 0, 1, true, None, vec![]),
            cst("+", 2, 3, false, None, vec![]),
        ],
    }
}

fn program_schema() -> Schema {
    let decls = vec![
        TypeDecl::Record(vec![field("span", Shape::Span, None)]),
        TypeDecl::Record(vec![field("body", Shape::Optional(0), None), field("text", Shape::Text, None)]),
    ];
    build_schema(&decls).unwrap()
}

#[test]
fn strict_mode_reports_first_error_in_pre_order() {
    // (r (a (ERROR)) (ERROR)): the nested error comes first in pre-order.
    let mut nested = cst("ERROR", 0, 1, true, None, vec![]);
    nested.is_error = true;
    let mut late = cst("ERROR", 1, 2, true, None, vec![]);
    late.is_error = true;
    let tree = Tree {
        source: "ab".to_string(),
        nodes: vec![
            cst("r", 0, 2, true, None, vec![1, 3]),
            cst("a", 0, 1, true, None, vec![2]),
            nested,
            late,
        ],
    };
    assert!(tree.is_wf());
    let e = parse(&tree, &program_schema(), 0).unwrap_err();
    assert_eq!(e, Error { range: 0..1, kind: ErrorKind::Node });
}

#[test]
fn strict_mode_rejects_incomplete_input() {
    let tree = incomplete_tree();
    let e = parse(&tree, &program_schema(), 1).unwrap_err();
    assert_eq!(e, Error { range: 0..3, kind: ErrorKind::Node });
    let mut cursor = Cursor::new();
    assert_eq!(check_for_errors(&mut cursor, &tree).unwrap_err(), e);
}

#[test]
fn strict_mode_accepts_clean_input() {
    let mut tree = incomplete_tree();
    tree.nodes[1].is_error = false;
    let mut cursor = Cursor::new();
    assert!(check_for_errors(&mut cursor, &tree).is_ok());
    let v = parse(&tree, &program_schema(), 1).unwrap();
    assert_eq!(
        v,
        Value::Record(vec![
            Value::Opt(Some(Box::new(Value::Record(vec![Value::Span(0..3)])))),
            Value::Text("a +".to_string()),
        ])
    );
}

#[test]
fn collecting_mode_records_errors_and_binds() {
    let tree = incomplete_tree();
    assert!(can_bind(&tree, &program_schema(), 1, 0));
    let (v, errs) = parse_collecting(&tree, &program_schema(), 1);
    assert_eq!(errs, vec![0..3]);
    assert_eq!(
        v,
        Value::Record(vec![
            Value::Opt(Some(Box::new(Value::Record(vec![Value::Span(0..3)])))),
            Value::Text("a +".to_string()),
        ])
    );
}

#[test]
fn schema_tables_are_built_per_type() {
    let schema = expr_schema();
    assert_eq!(schema.types.len(), 4);
    match &schema.types[3] {
        TypeRules::Union(alts) => {
            let pairs: Vec<(String, usize)> =
                alts.iter().map(|a: &Alt| (a.rule.clone(), a.ty)).collect();
            assert_eq!(pairs, vec![("add_expr".to_string(), 1), ("sub_expr".to_string(), 2)]);
        }
        _ => panic!("union expected"),
    }
}

#[test]
fn tree_well_formedness_is_checked() {
    assert!(add_tree("add_expr").is_wf());
    let empty = Tree { source: String::new(), nodes: vec![] };
    assert!(!empty.is_wf());
    let mut backwards = add_tree("add_expr");
    backwards.nodes[1].children = vec![0];
    assert!(!backwards.is_wf());
    let split = Tree {
        source: "é".to_string(),
        nodes: vec![cst("x", 0, 1, true, None, vec![])],
    };
    assert!(!split.is_wf());
    // Stored breadth-first: the second child of the root comes before the
    // child of the first.
    let breadth_first = Tree {
        source: "ab".to_string(),
        nodes: vec![
            cst("r", 0, 2, true, None, vec![1, 2]),
            cst("a", 0, 1, true, None, vec![3]),
            cst("b", 1, 2, true, None, vec![]),
            cst("c", 0, 1, true, None, vec![]),
        ],
    };
    assert!(!breadth_first.is_wf());
    let pre_order = Tree {
        source: "ab".to_string(),
        nodes: vec![
            cst("r", 0, 2, true, None, vec![1, 3]),
            cst("a", 0, 1, true, None, vec![2]),
            cst("c", 0, 1, true, None, vec![]),
            cst("b", 1, 2, true, None, vec![]),
        ],
    };
    assert!(pre_order.is_wf());
    assert_eq!(pre_order.subtree_end_of(0), 4);
    assert_eq!(pre_order.subtree_end_of(1), 3);
    let beyond = Tree {
        source: "ab".to_string(),
        nodes: vec![cst("x", 0, 3, true, None, vec![])],
    };
    assert!(!beyond.is_wf());
}
