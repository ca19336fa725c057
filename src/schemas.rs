use vstd::prelude::*;
use minijinja::machinery::ast::{Expr as MjExpr, Stmt as MjStmt};

verus! {

/// minijinja's error type, carried as a syntax error.
#[verifier::external_type_specification]
#[verifier::external_body]
pub struct ExTemplateError(minijinja::Error);

/// minijinja's statement tree, read only by `lower_stmt`.
#[verifier::external_type_specification]
#[verifier::external_body]
pub struct ExAstStmt<'a>(minijinja::machinery::ast::Stmt<'a>);

/// minijinja's expression tree, read only by `lower_expr`.
#[verifier::external_type_specification]
#[verifier::external_body]
pub struct ExAstExpr<'a>(minijinja::machinery::ast::Expr<'a>);

/// A named template fragment and its content.
#[derive(Debug, Clone, PartialEq)]
pub struct BlockData {
    pub block_name: String,
    pub block_content: String,
}

/// The shape of the data that a fragment expects.
#[derive(Debug, PartialEq)]
pub enum AstType {
    String,
    Object { properties: Vec<Property> },
    Array { element_type: Box<AstType> },
    Unknown,
}

/// A field of an object shape.
#[derive(Debug, PartialEq)]
pub struct Property {
    pub name: String,
    pub value: AstType,
}

/// The inferred schema of one fragment.
#[derive(Debug, PartialEq)]
pub struct Schema {
    pub block_name: String,
    pub block_data_type: AstType,
}

pub enum SchemaError {
    TemplateSyntaxError(minijinja::Error),
}

/// An expression of the template language, as far as the inference reads it.
#[derive(Debug, PartialEq)]
pub enum Expression {
    Var { id: String },
    GetAttr { expr: Box<Expression>, name: String },
    Other,
}

/// A statement of the template language, as far as the inference reads it.
#[derive(Debug, PartialEq)]
pub enum Statement {
    Template { children: Vec<Statement> },
    EmitExpr { expr: Expression },
    ForLoop { target: Expression, iter: Expression, body: Vec<Statement> },
    Other,
}

/// The mathematical shape: fields of an object in order, with their shapes.
pub enum Shape {
    Text,
    Object(Seq<(Seq<char>, Shape)>),
    Array(Box<Shape>),
    Unknown,
}

pub open spec fn shape_of(t: AstType) -> Shape
    decreases t,
{
    match t {
        AstType::String => Shape::Text,
        AstType::Object { properties } => Shape::Object(fields_of(properties@)),
        AstType::Array { element_type } => Shape::Array(Box::new(shape_of(*element_type))),
        AstType::Unknown => Shape::Unknown,
    }
}

pub open spec fn fields_of(ps: Seq<Property>) -> Seq<(Seq<char>, Shape)>
    decreases ps,
{
    if ps.len() == 0 {
        seq![]
    } else {
        fields_of(ps.drop_last()).push((ps.last().name@, shape_of(ps.last().value)))
    }
}

/// The first field named `key` from `from` on, or -1.
pub open spec fn key_from(f: Seq<(Seq<char>, Shape)>, key: Seq<char>, from: int) -> int
    decreases f.len() - from,
{
    if from < 0 || from >= f.len() {
        -1
    } else if f[from].0 == key {
        from
    } else {
        key_from(f, key, from + 1)
    }
}

/// Makes the field path `p[i..]` exist below `t`: an array is entered to its element first, a
/// shape that is not an object becomes an empty object, a missing field is added as text.
/// Where `wrap` holds, the shape at the end of the path is then wrapped in an array.
pub open spec fn ensure_from(t: Shape, p: Seq<Seq<char>>, i: int, wrap: bool) -> Shape
    decreases p.len() - i, 1nat,
{
    if i < 0 || i >= p.len() {
        if wrap {
            Shape::Array(Box::new(t))
        } else {
            t
        }
    } else {
        match t {
            Shape::Array(e) => Shape::Array(Box::new(enter(*e, p, i, wrap))),
            _ => enter(t, p, i, wrap),
        }
    }
}

pub open spec fn enter(t: Shape, p: Seq<Seq<char>>, i: int, wrap: bool) -> Shape
    decreases p.len() - i, 0nat,
{
    if i < 0 || i >= p.len() {
        t
    } else {
        let f = match t {
            Shape::Object(f) => f,
            _ => seq![],
        };
        let k = key_from(f, p[i], 0);
        if 0 <= k < f.len() {
            Shape::Object(f.update(k, (p[i], ensure_from(f[k].1, p, i + 1, wrap))))
        } else {
            Shape::Object(f.push((p[i], ensure_from(Shape::Text, p, i + 1, wrap))))
        }
    }
}

pub open spec fn path_view(p: Seq<String>) -> Seq<Seq<char>> {
    p.map_values(|s: String| s@)
}

proof fn lemma_fields_update(ps: Seq<Property>, k: int, p: Property)
    requires
        0 <= k < ps.len(),
    ensures
        fields_of(ps.update(k, p)) == fields_of(ps).update(k, (p.name@, shape_of(p.value))),
        fields_of(ps).len() == ps.len(),
    decreases ps.len(),
{
    lemma_fields_len(ps);
    let u = ps.update(k, p);
    if k == ps.len() - 1 {
        assert(u.drop_last() =~= ps.drop_last());
    } else {
        assert(u.drop_last() =~= ps.drop_last().update(k, p));
        lemma_fields_update(ps.drop_last(), k, p);
    }
    lemma_fields_len(u);
    assert(fields_of(u) =~= fields_of(ps).update(k, (p.name@, shape_of(p.value))));
}

proof fn lemma_fields_len(ps: Seq<Property>)
    ensures
        fields_of(ps).len() == ps.len(),
        forall|j: int|
            0 <= j < ps.len() ==> #[trigger] fields_of(ps)[j] == (ps[j].name@, shape_of(ps[j].value)),
    decreases ps.len(),
{
    if ps.len() > 0 {
        lemma_fields_len(ps.drop_last());
        assert forall|j: int| 0 <= j < ps.len() implies #[trigger] fields_of(ps)[j] == (
            ps[j].name@,
            shape_of(ps[j].value),
        ) by {
            if j < ps.len() - 1 {
                assert(fields_of(ps)[j] == fields_of(ps.drop_last())[j]);
            }
        }
    }
}

proof fn lemma_key_from(f: Seq<(Seq<char>, Shape)>, key: Seq<char>, from: int)
    requires
        from >= 0,
    ensures
        key_from(f, key, from) >= 0 ==> from <= key_from(f, key, from) < f.len() && f[key_from(
            f,
            key,
            from,
        )].0 == key,
    decreases f.len() - from,
{
    if from < f.len() && f[from].0 != key {
        lemma_key_from(f, key, from + 1);
    }
}

/// Index of the first property named `key`, as `key_from` gives it on the shapes.
fn find_property(props: &Vec<Property>, key: &String) -> (r: Option<usize>)
    ensures
        match r {
            Some(k) => k < props@.len() && k == key_from(fields_of(props@), key@, 0),
            None => key_from(fields_of(props@), key@, 0) < 0,
        },
{
    proof {
        lemma_fields_len(props@);
    }
    let ghost f = fields_of(props@);
    let mut k: usize = 0;
    while k < props.len()
        invariant
            k <= props@.len(),
            f == fields_of(props@),
            f.len() == props@.len(),
            forall|j: int| 0 <= j < props@.len() ==> (#[trigger] f[j]).0 == props@[j].name@,
            key_from(f, key@, 0) == key_from(f, key@, k as int),
        decreases props@.len() - k,
    {
        assert(f[k as int].0 == props@[k as int].name@);
        if props[k].name == *key {
            return Some(k);
        }
        k = k + 1;
    }
    None
}

/// `t` with the path `path[i..]` made to exist, wrapped in an array at its end where `wrap`
/// holds.
fn touched(t: AstType, path: &Vec<String>, i: usize, wrap: bool) -> (r: AstType)
    requires
        i <= path@.len(),
    ensures
        shape_of(r) == ensure_from(shape_of(t), path_view(path@), i as int, wrap),
    decreases path@.len() - i, 1nat,
{
    if i >= path.len() {
        if wrap {
            return AstType::Array { element_type: Box::new(t) };
        }
        return t;
    }
    match t {
        AstType::Array { element_type } => {
            let e = entered(*element_type, path, i, wrap);
            AstType::Array { element_type: Box::new(e) }
        },
        other => entered(other, path, i, wrap),
    }
}

fn entered(t: AstType, path: &Vec<String>, i: usize, wrap: bool) -> (r: AstType)
    requires
        i < path@.len(),
    ensures
        shape_of(r) == enter(shape_of(t), path_view(path@), i as int, wrap),
    decreases path@.len() - i, 0nat,
{
    let ghost pv = path_view(path@);
    let n = path.len();
    let mut props = match t {
        AstType::Object { properties } => properties,
        _ => Vec::new(),
    };
    assert(fields_of(props@) == match shape_of(t) {
        Shape::Object(f) => f,
        _ => seq![],
    }) by {
        if !(t is Object) {
            assert(props@ =~= Seq::<Property>::empty());
        }
    }
    let ghost old_props = props@;
    proof {
        lemma_fields_len(props@);
    }
    assert(pv[i as int] == path@[i as int]@);
    match find_property(&props, &path[i]) {
        Some(k) => {
            let p = props.remove(k);
            let v = touched(p.value, path, i + 1, wrap);
            let np = Property { name: p.name, value: v };
            props.insert(k, np);
            proof {
                lemma_key_from(fields_of(old_props), pv[i as int], 0);
                assert(props@ =~= old_props.update(k as int, np));
                lemma_fields_update(old_props, k as int, np);
                assert(p == old_props[k as int]);
                assert(fields_of(old_props)[k as int].0 == p.name@);
                let f = fields_of(old_props);
                assert(f[k as int].1 == shape_of(p.value));
                assert(p.name@ == pv[i as int]);
                assert(fields_of(props@) == f.update(k as int, (pv[i as int], ensure_from(f[k as int].1, pv, i + 1, wrap))));
                assert(0 <= k < f.len());
                assert(enter(shape_of(t), pv, i as int, wrap) == Shape::Object(f.update(k as int, (pv[i as int], ensure_from(f[k as int].1, pv, i + 1, wrap)))));
            }
        },
        None => {
            let v = touched(AstType::String, path, i + 1, wrap);
            let np = Property { name: path[i].clone(), value: v };
            props.push(np);
            proof {
                assert(props@.drop_last() =~= old_props);
                assert(props@.last() == np);
                let f = fields_of(old_props);
                assert(np.name@ == pv[i as int]);
                assert(fields_of(props@) == f.push((pv[i as int], ensure_from(Shape::Text, pv, i + 1, wrap))));
                assert(enter(shape_of(t), pv, i as int, wrap) == Shape::Object(f.push((pv[i as int], ensure_from(Shape::Text, pv, i + 1, wrap)))));
            }
        },
    }
    AstType::Object { properties: props }
}

impl AstType {
    /// Every object, at any depth, has distinct property names.
    pub open spec fn wf(&self) -> bool {
        shape_wf(shape_of(*self))
    }

    /// Makes the field path exist below this shape: an array is entered to its element first,
    /// a shape that is not an object becomes an empty object, a missing field is added as a
    /// string.
    pub fn ensure_path(&mut self, path: &Vec<String>)
        ensures
            shape_of(*final(self)) == ensure_from(shape_of(*old(self)), path_view(path@), 0, false),
            old(self).wf() ==> final(self).wf(),
    {
        proof {
            if old(self).wf() {
                lemma_ensure_wf(shape_of(*old(self)), path_view(path@), 0, false);
            }
        }
        let mut t = AstType::Unknown;
        std::mem::swap(self, &mut t);
        *self = touched(t, path, 0, false);
    }

    /// Makes the field path exist, as `ensure_path` does, and wraps the shape at its end in an
    /// array: the path is iterated.
    pub fn ensure_array_path(&mut self, path: &Vec<String>)
        ensures
            shape_of(*final(self)) == ensure_from(shape_of(*old(self)), path_view(path@), 0, true),
            old(self).wf() ==> final(self).wf(),
    {
        proof {
            if old(self).wf() {
                lemma_ensure_wf(shape_of(*old(self)), path_view(path@), 0, true);
            }
        }
        let mut t = AstType::Unknown;
        std::mem::swap(self, &mut t);
        *self = touched(t, path, 0, true);
    }
}

/// A loop variable and the field path that it iterates.
#[derive(Debug, Clone)]
pub struct Alias {
    pub name: String,
    pub path: Vec<String>,
}

pub open spec fn aliases_view(al: Seq<Alias>) -> Seq<(Seq<char>, Seq<Seq<char>>)> {
    al.map_values(|a: Alias| (a.name@, path_view(a.path@)))
}

/// A variable's real_path path: the latest binding of it, or the variable itself where unbound.
pub open spec fn resolve(al: Seq<(Seq<char>, Seq<Seq<char>>)>, var: Seq<char>) -> Seq<Seq<char>>
    decreases al.len(),
{
    if al.len() == 0 {
        seq![var]
    } else if al.last().0 == var {
        al.last().1
    } else {
        resolve(al.drop_last(), var)
    }
}

/// A pure chain of attribute accesses on a variable: the variable and the attribute names.
pub open spec fn flat(e: Expression) -> Option<(Seq<char>, Seq<Seq<char>>)>
    decreases e,
{
    match e {
        Expression::Var { id } => Some((id@, seq![])),
        Expression::GetAttr { expr, name } => match flat(*expr) {
            Some(x) => Some((x.0, x.1.push(name@))),
            None => None,
        },
        Expression::Other => None,
    }
}

/// The full field path that an expression reads, under the aliases.
pub open spec fn field_path(e: Expression, al: Seq<(Seq<char>, Seq<Seq<char>>)>) -> Option<
    Seq<Seq<char>>,
> {
    match flat(e) {
        Some(x) => Some(resolve(al, x.0) + x.1),
        None => None,
    }
}

/// The shape after visiting a statement.
pub open spec fn visit(s: Statement, t: Shape, al: Seq<(Seq<char>, Seq<Seq<char>>)>) -> Shape
    decreases s,
{
    match s {
        Statement::Template { children } => visit_all(children@, t, al),
        Statement::EmitExpr { expr } => match field_path(expr, al) {
            Some(p) => ensure_from(t, p, 0, false),
            None => t,
        },
        Statement::ForLoop { target, iter, body } => match field_path(iter, al) {
            Some(p) => {
                let t2 = ensure_from(t, p, 0, true);
                match target {
                    Expression::Var { id } => visit_all(body@, t2, al.push((id@, p))),
                    _ => t2,
                }
            },
            None => t,
        },
        Statement::Other => t,
    }
}

pub open spec fn visit_all(ss: Seq<Statement>, t: Shape, al: Seq<(Seq<char>, Seq<Seq<char>>)>) -> Shape
    decreases ss,
{
    if ss.len() == 0 {
        t
    } else {
        visit(ss.last(), visit_all(ss.drop_last(), t, al), al)
    }
}

/// The schema inferred from a template: from an unknown shape, with no aliases.
pub open spec fn infer(s: Statement) -> Shape {
    visit(s, Shape::Unknown, seq![])
}

/// The statements of the template with this source and file name, as the template language's
/// parser reads them; `None` where the source does not parse.
pub uninterp spec fn template_ast_of(source: Seq<char>, name: Seq<char>) -> Option<Statement>;

/// The schema of a fragment, where its content parses.
pub open spec fn block_schema(b: BlockData) -> Option<Shape> {
    match template_ast_of(b.block_content@, b.block_name@) {
        Some(a) => Some(infer(a)),
        None => None,
    }
}

/// Relies on minijinja's parser (`minijinja::machinery::parse`): the template's syntax tree,
/// or its syntax error. What it returns depends on the source and the name alone.
#[verifier::external_body]
fn parse_template(source: &str, file_name: &str) -> (r: Result<Statement, minijinja::Error>)
    ensures
        match r {
            Ok(s) => template_ast_of(source@, file_name@) == Some(s),
            Err(_) => template_ast_of(source@, file_name@) is None,
        },
{
    let ast = minijinja::machinery::parse(source, file_name, Default::default(), Default::default())?;
    Ok(lower_stmt(&ast))
}

/// Relies on the variants of minijinja's statement tree: keeps templates, output expressions
/// and for-loops, and marks any other statement.
#[verifier::external_body]
fn lower_stmt(s: &MjStmt) -> Statement {
    match s {
        MjStmt::Template(t) => Statement::Template { children: t.children.iter().map(lower_stmt).collect() },
        MjStmt::EmitExpr(e) => Statement::EmitExpr { expr: lower_expr(&e.expr) },
        MjStmt::ForLoop(f) => Statement::ForLoop {
            target: lower_expr(&f.target),
            iter: lower_expr(&f.iter),
            body: f.body.iter().map(lower_stmt).collect(),
        },
        _ => Statement::Other,
    }
}

/// Relies on the variants of minijinja's expression tree: keeps variables and attribute
/// accesses, and marks any other expression.
#[verifier::external_body]
fn lower_expr(e: &MjExpr) -> Expression {
    match e {
        MjExpr::Var(v) => Expression::Var { id: v.id.to_string() },
        MjExpr::GetAttr(a) => Expression::GetAttr { expr: Box::new(lower_expr(&a.expr)), name: a.name.to_string() },
        _ => Expression::Other,
    }
}

/// A copy of the path.
fn copy_path(p: &Vec<String>) -> (r: Vec<String>)
    ensures
        path_view(r@) == path_view(p@),
{
    let mut r: Vec<String> = Vec::new();
    let mut k: usize = 0;
    while k < p.len()
        invariant
            k <= p@.len(),
            path_view(r@) == path_view(p@.subrange(0, k as int)),
        decreases p@.len() - k,
    {
        let s = p[k].clone();
        let ghost pre = r@;
        r.push(s);
        assert(path_view(r@) =~= path_view(pre).push(s@));
        assert(path_view(p@.subrange(0, k + 1)) =~= path_view(p@.subrange(0, k as int)).push(p@[k as int]@));
        k = k + 1;
    }
    assert(p@.subrange(0, p@.len() as int) =~= p@);
    r
}

/// The real_path path of a variable: the path of its latest binding, or the variable itself.
pub fn resolve_alias(var: &str, aliases: &Vec<Alias>) -> (r: Vec<String>)
    ensures
        path_view(r@) == resolve(aliases_view(aliases@), var@),
{
    let v = var.to_owned();
    let ghost av = aliases_view(aliases@);
    let mut i: usize = aliases.len();
    assert(av.subrange(0, i as int) =~= av);
    while i > 0
        invariant
            i <= aliases@.len(),
            av == aliases_view(aliases@),
            v@ == var@,
            resolve(av, var@) == resolve(av.subrange(0, i as int), var@),
        decreases i,
    {
        let ghost sub = av.subrange(0, i as int);
        assert(sub.last() == (aliases@[i - 1].name@, path_view(aliases@[i - 1].path@)));
        if aliases[i - 1].name == v {
            return copy_path(&aliases[i - 1].path);
        }
        assert(sub.drop_last() =~= av.subrange(0, i - 1));
        i = i - 1;
    }
    let mut r: Vec<String> = Vec::new();
    r.push(v);
    assert(path_view(r@) =~= seq![var@]);
    r
}

/// The variable and attribute names of a pure attribute chain on a variable.
pub fn flatten_path(expr: &Expression) -> (r: Option<(String, Vec<String>)>)
    ensures
        match r {
            Some(x) => flat(*expr) == Some((x.0@, path_view(x.1@))),
            None => flat(*expr) is None,
        },
    decreases expr,
{
    match expr {
        Expression::Var { id } => {
            let p: Vec<String> = Vec::new();
            assert(path_view(p@) =~= Seq::<Seq<char>>::empty());
            Some((id.clone(), p))
        },
        Expression::GetAttr { expr: inner, name } => match flatten_path(inner) {
            Some((root, sub)) => {
                let mut sub = sub;
                let ghost pre = sub@;
                sub.push(name.clone());
                assert(path_view(sub@) =~= path_view(pre).push(name@));
                Some((root, sub))
            },
            None => None,
        },
        Expression::Other => None,
    }
}

/// The full field path of an attribute chain: the root's real_path path, then the attributes.
fn full_path(expr: &Expression, aliases: &Vec<Alias>) -> (r: Option<Vec<String>>)
    ensures
        match r {
            Some(p) => field_path(*expr, aliases_view(aliases@)) == Some(path_view(p@)),
            None => field_path(*expr, aliases_view(aliases@)) is None,
        },
{
    match flatten_path(expr) {
        Some((root, sub)) => {
            let mut real_path = resolve_alias(root.as_str(), aliases);
            let mut k: usize = 0;
            let ghost base = path_view(real_path@);
            while k < sub.len()
                invariant
                    k <= sub@.len(),
                    path_view(real_path@) == base + path_view(sub@).subrange(0, k as int),
                decreases sub@.len() - k,
            {
                let ghost pre = real_path@;
                real_path.push(sub[k].clone());
                assert(path_view(real_path@) =~= path_view(pre).push(sub@[k as int]@));
                assert(path_view(sub@).subrange(0, k + 1) =~= path_view(sub@).subrange(0, k as int).push(sub@[k as int]@));
                k = k + 1;
            }
            assert(path_view(sub@).subrange(0, sub@.len() as int) =~= path_view(sub@));
            Some(real_path)
        },
        None => None,
    }
}

/// Visits a statement: output expressions make their field path exist; a for-loop marks its
/// iterated path as an array and visits its body with the loop variable bound to that path.
/// Other statements add nothing. The aliases come back as they were.
pub fn visit_stmt(stmt: &Statement, root_type: &mut AstType, aliases: &mut Vec<Alias>)
    ensures
        shape_of(*final(root_type)) == visit(*stmt, shape_of(*old(root_type)), aliases_view(old(aliases)@)),
        final(aliases)@ == old(aliases)@,
    decreases stmt,
{
    match stmt {
        Statement::Template { children } => {
            visit_list(children, root_type, aliases);
        },
        Statement::EmitExpr { expr } => {
            if let Some(p) = full_path(expr, aliases) {
                root_type.ensure_path(&p);
            }
        },
        Statement::ForLoop { target, iter, body } => {
            if let Some(p) = full_path(iter, aliases) {
                root_type.ensure_array_path(&p);
                if let Expression::Var { id } = target {
                    let ghost pre = aliases@;
                    aliases.push(Alias { name: id.clone(), path: p });
                    assert(aliases_view(aliases@) =~= aliases_view(pre).push((id@, field_path(*iter, aliases_view(pre))->Some_0)));
                    visit_list(body, root_type, aliases);
                    aliases.pop();
                    assert(aliases@ =~= pre);
                }
            }
        },
        Statement::Other => {},
    }
}

fn visit_list(stmts: &Vec<Statement>, root_type: &mut AstType, aliases: &mut Vec<Alias>)
    ensures
        shape_of(*final(root_type)) == visit_all(stmts@, shape_of(*old(root_type)), aliases_view(old(aliases)@)),
        final(aliases)@ == old(aliases)@,
    decreases stmts,
{
    let mut i: usize = 0;
    while i < stmts.len()
        invariant
            i <= stmts@.len(),
            aliases@ == old(aliases)@,
            shape_of(*root_type) == visit_all(stmts@.subrange(0, i as int), shape_of(*old(root_type)), aliases_view(old(aliases)@)),
        decreases stmts@.len() - i,
    {
        assert(stmts@.subrange(0, i + 1).drop_last() =~= stmts@.subrange(0, i as int));
        visit_stmt(&stmts[i], root_type, aliases);
        i = i + 1;
    }
    assert(stmts@.subrange(0, stmts@.len() as int) =~= stmts@);
}

/// The schema that a template's statements call for, from an unknown shape.
pub fn infer_schema(ast: &Statement) -> (r: AstType)
    ensures
        shape_of(r) == infer(*ast),
        r.wf(),
{
    proof {
        lemma_visit_wf(*ast, Shape::Unknown, seq![]);
    }
    let mut root_type = AstType::Unknown;
    let mut aliases: Vec<Alias> = Vec::new();
    assert(aliases_view(aliases@) =~= Seq::<(Seq<char>, Seq<Seq<char>>)>::empty());
    visit_stmt(ast, &mut root_type, &mut aliases);
    root_type
}

/// No two fields of an object share a name.
pub open spec fn keys_distinct(f: Seq<(Seq<char>, Shape)>) -> bool {
    forall|a: int, b: int| #![trigger f[a], f[b]] 0 <= a < b < f.len() ==> f[a].0 != f[b].0
}

/// Well-formed shape: every object, at any depth, has distinct field names.
pub open spec fn shape_wf(s: Shape) -> bool
    decreases s,
{
    match s {
        Shape::Object(f) => keys_distinct(f) && fields_wf(f),
        Shape::Array(e) => shape_wf(*e),
        _ => true,
    }
}

pub open spec fn fields_wf(f: Seq<(Seq<char>, Shape)>) -> bool
    decreases f,
{
    if f.len() == 0 {
        true
    } else {
        fields_wf(f.drop_last()) && shape_wf(f.last().1)
    }
}

proof fn lemma_fields_wf(f: Seq<(Seq<char>, Shape)>)
    ensures
        fields_wf(f) <==> forall|j: int| 0 <= j < f.len() ==> shape_wf(#[trigger] f[j].1),
    decreases f.len(),
{
    if f.len() > 0 {
        lemma_fields_wf(f.drop_last());
        if fields_wf(f) {
            assert forall|j: int| 0 <= j < f.len() implies shape_wf(#[trigger] f[j].1) by {
                if j < f.len() - 1 {
                    assert(f[j] == f.drop_last()[j]);
                }
            }
        }
        if forall|j: int| 0 <= j < f.len() ==> shape_wf(#[trigger] f[j].1) {
            assert forall|j: int| 0 <= j < f.len() - 1 implies shape_wf(#[trigger] f.drop_last()[j].1) by {
                assert(f[j] == f.drop_last()[j]);
            }
            assert(shape_wf(f[f.len() - 1].1));
        }
    }
}

proof fn lemma_key_from_absent(f: Seq<(Seq<char>, Shape)>, key: Seq<char>, from: int)
    requires
        0 <= from,
        key_from(f, key, from) < 0,
    ensures
        forall|j: int| from <= j < f.len() ==> (#[trigger] f[j]).0 != key,
    decreases f.len() - from,
{
    if from < f.len() {
        lemma_key_from_absent(f, key, from + 1);
    }
}

proof fn lemma_ensure_wf(t: Shape, p: Seq<Seq<char>>, i: int, wrap: bool)
    requires
        0 <= i,
        shape_wf(t),
    ensures
        shape_wf(ensure_from(t, p, i, wrap)),
    decreases p.len() - i, 1nat,
{
    if i < p.len() {
        match t {
            Shape::Array(e) => {
                lemma_enter_wf(*e, p, i, wrap);
            },
            _ => {
                lemma_enter_wf(t, p, i, wrap);
            },
        }
    }
}

proof fn lemma_enter_wf(t: Shape, p: Seq<Seq<char>>, i: int, wrap: bool)
    requires
        0 <= i < p.len(),
        shape_wf(t),
    ensures
        shape_wf(enter(t, p, i, wrap)),
    decreases p.len() - i, 0nat,
{
    let f = match t {
        Shape::Object(f) => f,
        _ => seq![],
    };
    assert(keys_distinct(f) && fields_wf(f));
    lemma_fields_wf(f);
    let k = key_from(f, p[i], 0);
    lemma_key_from(f, p[i], 0);
    if 0 <= k < f.len() {
        lemma_ensure_wf(f[k].1, p, i + 1, wrap);
        let g = f.update(k, (p[i], ensure_from(f[k].1, p, i + 1, wrap)));
        assert forall|a: int, b: int| 0 <= a < b < g.len() implies #[trigger] g[a].0 != #[trigger] g[b].0 by {
            assert(f[a].0 != f[b].0);
        }
        assert forall|j: int| 0 <= j < g.len() implies shape_wf(#[trigger] g[j].1) by {
            if j != k {
                assert(g[j] == f[j]);
            }
        }
        lemma_fields_wf(g);
    } else {
        lemma_key_from_absent(f, p[i], 0);
        lemma_ensure_wf(Shape::Text, p, i + 1, wrap);
        let g = f.push((p[i], ensure_from(Shape::Text, p, i + 1, wrap)));
        assert forall|a: int, b: int| 0 <= a < b < g.len() implies #[trigger] g[a].0 != #[trigger] g[b].0 by {
            assert(g[a] == f[a]);
            if b < f.len() {
                assert(g[b] == f[b]);
                assert(f[a].0 != f[b].0);
            }
        }
        assert forall|j: int| 0 <= j < g.len() implies shape_wf(#[trigger] g[j].1) by {
            if j < f.len() {
                assert(g[j] == f[j]);
            }
        }
        lemma_fields_wf(g);
    }
}

/// Visiting statements keeps a shape well-formed.
pub proof fn lemma_visit_wf(s: Statement, t: Shape, al: Seq<(Seq<char>, Seq<Seq<char>>)>)
    requires
        shape_wf(t),
    ensures
        shape_wf(visit(s, t, al)),
    decreases s,
{
    match s {
        Statement::Template { children } => {
            lemma_visit_all_wf(children@, t, al);
        },
        Statement::EmitExpr { expr } => {
            if let Some(p) = field_path(expr, al) {
                lemma_ensure_wf(t, p, 0, false);
            }
        },
        Statement::ForLoop { target, iter, body } => {
            if let Some(p) = field_path(iter, al) {
                lemma_ensure_wf(t, p, 0, true);
                if let Expression::Var { id } = target {
                    lemma_visit_all_wf(body@, ensure_from(t, p, 0, true), al.push((id@, p)));
                }
            }
        },
        Statement::Other => {},
    }
}

proof fn lemma_visit_all_wf(ss: Seq<Statement>, t: Shape, al: Seq<(Seq<char>, Seq<Seq<char>>)>)
    requires
        shape_wf(t),
    ensures
        shape_wf(visit_all(ss, t, al)),
    decreases ss,
{
    if ss.len() > 0 {
        lemma_visit_all_wf(ss.drop_last(), t, al);
        lemma_visit_wf(ss.last(), visit_all(ss.drop_last(), t, al), al);
    }
}

/// The shape at field path `q[j..]` below `t`, reached as the inference walks a path: an
/// array is entered to its element first.
pub open spec fn shape_at(t: Shape, q: Seq<Seq<char>>, j: int) -> Option<Shape>
    decreases q.len() - j, 1nat,
{
    if j < 0 || j >= q.len() {
        Some(t)
    } else {
        match t {
            Shape::Array(e) => field_at(*e, q, j),
            _ => field_at(t, q, j),
        }
    }
}

pub open spec fn field_at(t: Shape, q: Seq<Seq<char>>, j: int) -> Option<Shape>
    decreases q.len() - j, 0nat,
{
    if j < 0 || j >= q.len() {
        None
    } else {
        match t {
            Shape::Object(f) => {
                let k = key_from(f, q[j], 0);
                if 0 <= k < f.len() {
                    shape_at(f[k].1, q, j + 1)
                } else {
                    None
                }
            },
            _ => None,
        }
    }
}

/// The path leads to an object or an array.
pub open spec fn structured_at(t: Shape, q: Seq<Seq<char>>, j: int) -> bool {
    match shape_at(t, q, j) {
        Some(x) => x is Object || x is Array,
        None => false,
    }
}

pub open spec fn field_structured(t: Shape, q: Seq<Seq<char>>, j: int) -> bool {
    match field_at(t, q, j) {
        Some(x) => x is Object || x is Array,
        None => false,
    }
}

proof fn lemma_key_from_same_keys(
    f: Seq<(Seq<char>, Shape)>,
    g: Seq<(Seq<char>, Shape)>,
    key: Seq<char>,
    from: int,
)
    requires
        f.len() == g.len(),
        forall|i: int| 0 <= i < f.len() ==> (#[trigger] f[i]).0 == g[i].0,
    ensures
        key_from(f, key, from) == key_from(g, key, from),
    decreases f.len() - from,
{
    if 0 <= from < f.len() {
        assert(f[from].0 == g[from].0);
        lemma_key_from_same_keys(f, g, key, from + 1);
    }
}

proof fn lemma_key_from_push(f: Seq<(Seq<char>, Shape)>, x: (Seq<char>, Shape), key: Seq<char>, from: int)
    requires
        from >= 0,
        key_from(f, key, from) >= 0,
    ensures
        key_from(f.push(x), key, from) == key_from(f, key, from),
    decreases f.len() - from,
{
    if from < f.len() {
        assert(f.push(x)[from] == f[from]);
        if f[from].0 != key {
            lemma_key_from_push(f, x, key, from + 1);
        }
    }
}

proof fn lemma_ensure_keeps(t: Shape, p: Seq<Seq<char>>, i: int, q: Seq<Seq<char>>, j: int)
    requires
        0 <= i,
        0 <= j,
        structured_at(t, q, j),
    ensures
        structured_at(ensure_from(t, p, i, false), q, j),
    decreases q.len() - j, 1nat,
{
    if i < p.len() && j < q.len() {
        match t {
            Shape::Array(e) => {
                lemma_enter_keeps(*e, p, i, q, j);
            },
            _ => {
                lemma_enter_keeps(t, p, i, q, j);
            },
        }
    }
}

proof fn lemma_enter_keeps(t: Shape, p: Seq<Seq<char>>, i: int, q: Seq<Seq<char>>, j: int)
    requires
        0 <= i < p.len(),
        0 <= j < q.len(),
        field_structured(t, q, j),
    ensures
        field_structured(enter(t, p, i, false), q, j),
    decreases q.len() - j, 0nat,
{
    let f = match t {
        Shape::Object(f) => f,
        _ => seq![],
    };
    let k = key_from(f, q[j], 0);
    let kp = key_from(f, p[i], 0);
    lemma_key_from(f, q[j], 0);
    lemma_key_from(f, p[i], 0);
    if 0 <= kp < f.len() {
        let g = f.update(kp, (p[i], ensure_from(f[kp].1, p, i + 1, false)));
        lemma_key_from_same_keys(g, f, q[j], 0);
        if kp == k {
            lemma_ensure_keeps(f[k].1, p, i + 1, q, j + 1);
        } else {
            assert(g[k] == f[k]);
        }
    } else {
        let x = (p[i], ensure_from(Shape::Text, p, i + 1, false));
        lemma_key_from_push(f, x, q[j], 0);
        assert(f.push(x)[k] == f[k]);
    }
}

pub open spec fn is_array_at(t: Shape, q: Seq<Seq<char>>, j: int) -> bool {
    match shape_at(t, q, j) {
        Some(x) => x is Array,
        None => false,
    }
}

pub open spec fn field_is_array(t: Shape, q: Seq<Seq<char>>, j: int) -> bool {
    match field_at(t, q, j) {
        Some(x) => x is Array,
        None => false,
    }
}

/// Every for-loop met while visiting `s` from `t` iterates a path that does not already lead
/// to an array.
pub open spec fn loops_fresh(s: Statement, t: Shape, al: Seq<(Seq<char>, Seq<Seq<char>>)>) -> bool
    decreases s,
{
    match s {
        Statement::Template { children } => loops_fresh_all(children@, t, al),
        Statement::ForLoop { target, iter, body } => match field_path(iter, al) {
            Some(p) => !is_array_at(t, p, 0) && match target {
                Expression::Var { id } => loops_fresh_all(
                    body@,
                    ensure_from(t, p, 0, true),
                    al.push((id@, p)),
                ),
                _ => true,
            },
            None => true,
        },
        _ => true,
    }
}

pub open spec fn loops_fresh_all(
    ss: Seq<Statement>,
    t: Shape,
    al: Seq<(Seq<char>, Seq<Seq<char>>)>,
) -> bool
    decreases ss,
{
    if ss.len() == 0 {
        true
    } else {
        loops_fresh_all(ss.drop_last(), t, al) && loops_fresh(
            ss.last(),
            visit_all(ss.drop_last(), t, al),
            al,
        )
    }
}

proof fn lemma_wrap_keeps(t: Shape, p: Seq<Seq<char>>, i: int, q: Seq<Seq<char>>, j: int)
    requires
        0 <= i,
        0 <= j,
        !is_array_at(t, p, i),
        structured_at(t, q, j),
    ensures
        structured_at(ensure_from(t, p, i, true), q, j),
    decreases q.len() - j, 1nat,
{
    if j < q.len() {
        if i < p.len() {
            match t {
                Shape::Array(e) => {
                    lemma_enter_wrap_keeps(*e, p, i, q, j);
                },
                _ => {
                    lemma_enter_wrap_keeps(t, p, i, q, j);
                },
            }
        }
    }
}

proof fn lemma_enter_wrap_keeps(t: Shape, p: Seq<Seq<char>>, i: int, q: Seq<Seq<char>>, j: int)
    requires
        0 <= i < p.len(),
        0 <= j < q.len(),
        !field_is_array(t, p, i),
        field_structured(t, q, j),
    ensures
        field_structured(enter(t, p, i, true), q, j),
    decreases q.len() - j, 0nat,
{
    let f = match t {
        Shape::Object(f) => f,
        _ => seq![],
    };
    let k = key_from(f, q[j], 0);
    let kp = key_from(f, p[i], 0);
    lemma_key_from(f, q[j], 0);
    lemma_key_from(f, p[i], 0);
    if 0 <= kp < f.len() {
        let g = f.update(kp, (p[i], ensure_from(f[kp].1, p, i + 1, true)));
        lemma_key_from_same_keys(g, f, q[j], 0);
        if kp == k {
            lemma_wrap_keeps(f[k].1, p, i + 1, q, j + 1);
        } else {
            assert(g[k] == f[k]);
        }
    } else {
        let x = (p[i], ensure_from(Shape::Text, p, i + 1, true));
        lemma_key_from_push(f, x, q[j], 0);
        assert(f.push(x)[k] == f[k]);
    }
}

proof fn lemma_visit_keeps(s: Statement, t: Shape, al: Seq<(Seq<char>, Seq<Seq<char>>)>, q: Seq<Seq<char>>)
    requires
        loops_fresh(s, t, al),
        structured_at(t, q, 0),
    ensures
        structured_at(visit(s, t, al), q, 0),
    decreases s,
{
    match s {
        Statement::Template { children } => {
            lemma_visit_all_keeps(children@, t, al, q);
        },
        Statement::EmitExpr { expr } => {
            if let Some(p) = field_path(expr, al) {
                lemma_ensure_keeps(t, p, 0, q, 0);
            }
        },
        Statement::ForLoop { target, iter, body } => {
            if let Some(p) = field_path(iter, al) {
                lemma_wrap_keeps(t, p, 0, q, 0);
                if let Expression::Var { id } = target {
                    lemma_visit_all_keeps(body@, ensure_from(t, p, 0, true), al.push((id@, p)), q);
                }
            }
        },
        Statement::Other => {},
    }
}

proof fn lemma_visit_all_keeps(
    ss: Seq<Statement>,
    t: Shape,
    al: Seq<(Seq<char>, Seq<Seq<char>>)>,
    q: Seq<Seq<char>>,
)
    requires
        loops_fresh_all(ss, t, al),
        structured_at(t, q, 0),
    ensures
        structured_at(visit_all(ss, t, al), q, 0),
    decreases ss,
{
    if ss.len() > 0 {
        lemma_visit_all_keeps(ss.drop_last(), t, al, q);
        lemma_visit_keeps(ss.last(), visit_all(ss.drop_last(), t, al), al, q);
    }
}

proof fn lemma_visit_all_concat(
    a: Seq<Statement>,
    b: Seq<Statement>,
    t: Shape,
    al: Seq<(Seq<char>, Seq<Seq<char>>)>,
)
    ensures
        visit_all(a + b, t, al) == visit_all(b, visit_all(a, t, al), al),
    decreases b.len(),
{
    if b.len() == 0 {
        assert(a + b =~= a);
    } else {
        assert((a + b).drop_last() =~= a + b.drop_last());
        assert((a + b).last() == b.last());
        lemma_visit_all_concat(a, b.drop_last(), t, al);
    }
}

/// Schema widening is monotonic: visiting further statements after `prior` never turns a
/// field path that led to an object or an array into a scalar (or loses it), provided no
/// for-loop among them iterates a path that already leads to an array.
pub proof fn lemma_widening_monotonic(
    prior: Seq<Statement>,
    more: Seq<Statement>,
    t: Shape,
    al: Seq<(Seq<char>, Seq<Seq<char>>)>,
    q: Seq<Seq<char>>,
)
    requires
        loops_fresh_all(more, visit_all(prior, t, al), al),
        structured_at(visit_all(prior, t, al), q, 0),
    ensures
        structured_at(visit_all(prior + more, t, al), q, 0),
{
    lemma_visit_all_concat(prior, more, t, al);
    lemma_visit_all_keeps(more, visit_all(prior, t, al), al, q);
}

/// Derives the shape of the data that fragments expect.
pub struct SchemaGenerator {}

impl SchemaGenerator {
    /// The schema of one fragment's content; a syntax error where it does not parse.
    pub fn parse(source: &str, file_name: &str) -> (r: Result<AstType, SchemaError>)
        ensures
            match template_ast_of(source@, file_name@) {
                Some(a) => r matches Ok(t) && shape_of(t) == infer(a) && t.wf(),
                None => r is Err,
            },
    {
        match parse_template(source, file_name) {
            Ok(ast) => Ok(infer_schema(&ast)),
            Err(e) => Err(SchemaError::TemplateSyntaxError(e)),
        }
    }

    /// The schema of each fragment, in order; the first syntax error where one does not parse.
    pub fn generate_schemas(data: &Vec<BlockData>) -> (r: Result<Vec<Schema>, SchemaError>)
        ensures
            r is Ok <==> forall|i: int| 0 <= i < data@.len() ==> (#[trigger] block_schema(data@[i])) is Some,
            r matches Ok(v) ==> v@.len() == data@.len() && forall|i: int|
                0 <= i < data@.len() ==> (#[trigger] v@[i]).block_name@ == data@[i].block_name@
                    && block_schema(data@[i]) == Some(shape_of(v@[i].block_data_type))
                    && v@[i].block_data_type.wf(),
    {
        let mut out: Vec<Schema> = Vec::new();
        let mut i: usize = 0;
        while i < data.len()
            invariant
                i <= data@.len(),
                out@.len() == i,
                forall|j: int| 0 <= j < i ==> (#[trigger] block_schema(data@[j])) is Some,
                forall|j: int|
                    0 <= j < i ==> (#[trigger] out@[j]).block_name@ == data@[j].block_name@
                        && block_schema(data@[j]) == Some(shape_of(out@[j].block_data_type))
                        && out@[j].block_data_type.wf(),
            decreases data@.len() - i,
        {
            let block = &data[i];
            match Self::parse(block.block_content.as_str(), block.block_name.as_str()) {
                Ok(t) => {
                    out.push(Schema { block_name: block.block_name.clone(), block_data_type: t });
                },
                Err(e) => {
                    assert(block_schema(data@[i as int]) is None);
                    return Err(e);
                },
            }
            i = i + 1;
        }
        Ok(out)
    }
}

} // verus!
