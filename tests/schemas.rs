use autoword::schemas::{
    flatten_path, resolve_alias, Alias, AstType, BlockData, Expression, Property, SchemaError,
    SchemaGenerator, Statement, infer_schema,
};

fn obj(fields: Vec<(&str, AstType)>) -> AstType {
    AstType::Object {
        properties: fields
            .into_iter()
            .map(|(n, v)| Property { name: n.to_string(), value: v })
            .collect(),
    }
}

fn arr(e: AstType) -> AstType {
    AstType::Array { element_type: Box::new(e) }
}

fn parse(src: &str) -> AstType {
    match SchemaGenerator::parse(src, "t") {
        Ok(t) => t,
        Err(_) => panic!("template should parse"),
    }
}

#[test]
fn attribute_chain_gives_nested_objects() {
    assert_eq!(parse("{{ a.b }}"), obj(vec![("a", obj(vec![("b", AstType::String)]))]));
}

#[test]
fn loop_variable_aliases_iterated_path() {
    let t = parse("{% for item in items %}{{ item.name }}{% endfor %}");
    assert_eq!(t, obj(vec![("items", arr(obj(vec![("name", AstType::String)])))]));
}

#[test]
fn empty_template_is_unknown() {
    assert_eq!(parse("just text"), AstType::Unknown);
}

#[test]
fn later_reference_does_not_narrow() {
    let t = parse("{{ a.b }}{{ a }}");
    assert_eq!(t, obj(vec![("a", obj(vec![("b", AstType::String)]))]));
}

#[test]
fn alias_does_not_leak_out_of_loop() {
    let t = parse("{% for x in xs %}{% endfor %}{{ x.y }}");
    assert_eq!(
        t,
        obj(vec![("xs", arr(AstType::String)), ("x", obj(vec![("y", AstType::String)]))])
    );
}

#[test]
fn syntax_error_is_reported() {
    assert!(matches!(SchemaGenerator::parse("{% for %}", "t"), Err(SchemaError::TemplateSyntaxError(_))));
}

#[test]
fn schemas_for_each_block_in_order() {
    let data = vec![
        BlockData { block_name: "one".to_string(), block_content: "{{ a }}".to_string() },
        BlockData { block_name: "two".to_string(), block_content: "{{ b.c }}".to_string() },
    ];
    let schemas = match SchemaGenerator::generate_schemas(&data) {
        Ok(s) => s,
        Err(_) => panic!("templates should parse"),
    };
    assert_eq!(schemas.len(), 2);
    assert_eq!(schemas[0].block_name, "one");
    assert_eq!(schemas[0].block_data_type, obj(vec![("a", AstType::String)]));
    assert_eq!(schemas[1].block_data_type, obj(vec![("b", obj(vec![("c", AstType::String)]))]));
}

#[test]
fn ensure_path_enters_arrays_and_replaces_scalars() {
    let mut t = obj(vec![("xs", arr(AstType::String))]);
    t.ensure_path(&vec!["xs".to_string(), "k".to_string()]);
    assert_eq!(t, obj(vec![("xs", arr(obj(vec![("k", AstType::String)])))]));
    let mut u = AstType::String;
    u.ensure_array_path(&vec!["a".to_string()]);
    assert_eq!(u, obj(vec![("a", arr(AstType::String))]));
}

#[test]
fn resolve_alias_takes_latest_binding() {
    let aliases = vec![
        Alias { name: "x".to_string(), path: vec!["a".to_string()] },
        Alias { name: "x".to_string(), path: vec!["b".to_string(), "c".to_string()] },
    ];
    assert_eq!(resolve_alias("x", &aliases), vec!["b".to_string(), "c".to_string()]);
    assert_eq!(resolve_alias("y", &aliases), vec!["y".to_string()]);
}

#[test]
fn flatten_path_reads_attribute_chains_only() {
    let e = Expression::GetAttr {
        expr: Box::new(Expression::GetAttr {
            expr: Box::new(Expression::Var { id: "a".to_string() }),
            name: "b".to_string(),
        }),
        name: "c".to_string(),
    };
    assert_eq!(flatten_path(&e), Some(("a".to_string(), vec!["b".to_string(), "c".to_string()])));
    let bad = Expression::GetAttr { expr: Box::new(Expression::Other), name: "b".to_string() };
    assert_eq!(flatten_path(&bad), None);
}

#[test]
fn loop_with_non_variable_target_skips_body() {
    let ast = Statement::Template {
        children: vec![Statement::ForLoop {
            target: Expression::Other,
            iter: Expression::Var { id: "xs".to_string() },
            body: vec![Statement::EmitExpr { expr: Expression::Var { id: "z".to_string() } }],
        }],
    };
    assert_eq!(infer_schema(&ast), obj(vec![("xs", arr(AstType::String))]));
}

#[test]
fn further_statements_keep_structured_paths() {
    let t = parse("{% for i in xs %}{{ i.a.b }}{% endfor %}{{ xs }}{{ i.a }}");
    assert_eq!(
        t,
        obj(vec![
            ("xs", arr(obj(vec![("a", obj(vec![("b", AstType::String)]))]))),
            ("i", obj(vec![("a", AstType::String)])),
        ])
    );
}

#[test]
fn iterating_an_array_again_wraps_it_twice() {
    let t = parse("{% for i in xs %}{{ i.a.b }}{% endfor %}{% for j in xs %}{% endfor %}");
    assert_eq!(
        t,
        obj(vec![("xs", arr(arr(obj(vec![("a", obj(vec![("b", AstType::String)]))]))))])
    );
}
