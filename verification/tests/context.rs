use handybars::{Context, Error, Object, Value, Variable};

#[test]
fn defining_an_object_variable_creates_path() {
    let mut ctx = Context::new();
    ctx.define(
        Variable::single("hello"),
        Value::Object(Object::new().with_property(
            "world".to_string(),
            Value::Object(Object::new().with_property("test".to_string(), Value::text("val"))),
        )),
    );
    assert_eq!(ctx.render("{{hello.world.test}}"), Ok("val".to_owned()));
}

#[test]
fn context_can_register_single_variables() {
    let mut ctx = Context::new();
    ctx.define(
        Variable::single("hello"),
        Value::Object(Object::new().with_property("world".to_string(), Value::text("sup"))),
    );
}

#[test]
fn context_renders_templates_using_defines() {
    let mut ctx = Context::new();
    ctx.define(Variable::single("t1"), Value::text("value"));
    let expanded = ctx.render("{{ t1 }}").unwrap();
    assert_eq!(expanded, "value");
    assert_eq!(
        ctx.render("{{ notexist }}"),
        Err(Error::MissingVariable(Variable::single("notexist"))),
        "missing defines cause an error"
    );
}

#[test]
fn trying_to_expand_an_object_variable_is_an_error() {
    let ctx = Context::new().with_define("a".parse().unwrap(), Value::Object(Object::new()));
    assert_eq!(
        ctx.expand(&"a".parse().unwrap()),
        Err(Error::TriedToExpandObject("a".parse().unwrap()))
    );
}

#[test]
fn from_iterator_for_context_adds_defines_for_each_element() {
    let ctx = Context::from_defines(vec![
        (Variable::single("a"), Value::text("b")),
        (Variable::single("b"), Value::text("c")),
    ]);
    assert_eq!(ctx.render("{{a}}"), Ok("b".to_owned()));
    assert_eq!(ctx.render("{{b}}"), Ok("c".to_owned()));
}

#[test]
fn double_defintition_should_overwrite() {
    let ctx = Context::new()
        .with_define(Variable::single("a"), Value::text("b"))
        .with_define(Variable::single("a"), Value::text("c"));
    assert_eq!(ctx.render("{{a}}"), Ok("c".to_owned()));
}

#[test]
fn simple_definition_renders_through_a_placeholder() {
    let ctx = Context::new().with_define(Variable::single("a"), Value::text("b"));
    assert_eq!(ctx.render("{{a}}"), Ok("b".to_owned()));
}

#[test]
fn define_on_a_path_merges_and_later_objects_replace_leaves() {
    let mut ctx = Context::new();
    ctx.define(
        "a".parse().unwrap(),
        Value::Object(Object::new().with_property("b".to_string(), Value::text("c"))),
    );
    ctx.define("a.d".parse().unwrap(), Value::text("f"));
    assert_eq!(ctx.render("{{a.b}}"), Ok("c".to_owned()), "sibling property is preserved");
    assert_eq!(ctx.render("{{a.d}}"), Ok("f".to_owned()), "new property is added");
    ctx.define(
        "a.d.e".parse().unwrap(),
        Value::Object(Object::new().with_property("x".to_string(), Value::text("y"))),
    );
    assert_eq!(ctx.render("{{a.d.e.x}}"), Ok("y".to_owned()));
    let var: Variable = "a.d".parse().unwrap();
    assert!(
        ctx.get_value(&var).unwrap().is_object(),
        "the old leaf is discarded for an object"
    );
}

#[test]
fn rendering_a_path_to_an_object_never_returns_text() {
    let ctx = Context::new().with_define(
        Variable::single("a"),
        Value::Object(Object::new().with_property("b".to_string(), Value::text("c"))),
    );
    assert_eq!(
        ctx.render("before {{a}} after"),
        Err(Error::TriedToExpandObject(Variable::single("a")))
    );
}

#[test]
fn rendering_without_placeholders_returns_the_template_unchanged() {
    let ctx = Context::new();
    assert_eq!(ctx.render(""), Ok("".to_owned()));
    assert_eq!(ctx.render("a"), Ok("a".to_owned()));
    assert_eq!(ctx.render("plain text, no substitution."), Ok(
        "plain text, no substitution.".to_owned(),
    ));
}

#[test]
fn get_value_drills_down_to_the_lowest_point() {
    let ctx = Context::new().with_define(
        "a".parse().unwrap(),
        Value::Object(
            Object::new()
                .with_property("x".to_string(), Value::text("y"))
                .with_property(
                    "b".to_string(),
                    Value::Object(
                        Object::new().with_property("c".to_string(), Value::text("d")),
                    ),
                ),
        ),
    );
    assert_eq!(
        ctx.get_value(&"a.b.c".parse().unwrap()),
        Some(&Value::Text("d".to_string()))
    );
    assert_eq!(ctx.get_value(&"a.x".parse().unwrap()), Some(&Value::Text("y".to_string())));
    assert_eq!(ctx.get_value(&"a.b.c.d".parse().unwrap()), None);
    assert_eq!(ctx.get_value(&"a.q".parse().unwrap()), None);
}

#[test]
fn append_replaces_whole_top_level_entries() {
    let mut ctx = Context::new();
    ctx.define(
        Variable::single("a"),
        Value::Object(Object::new().with_property("b".to_string(), Value::text("c"))),
    );
    ctx.append(Context::new().with_define(Variable::single("a"), Value::text("x")));
    assert_eq!(ctx.render("{{a}}"), Ok("x".to_owned()));
    assert_eq!(ctx.render("{{a.b}}"), Err(Error::MissingVariable("a.b".parse().unwrap())));
}

#[test]
fn merge_combines_two_contexts() {
    let ctx = Context::new()
        .with_define(Variable::single("a"), Value::text("b"))
        .merge(Context::new().with_define(Variable::single("c"), Value::text("d")));
    assert_eq!(ctx.render("{{a}}{{c}}"), Ok("bd".to_owned()));
}

#[test]
fn expand_returns_the_leaf_text() {
    let var = Variable::single("a");
    let ctx = Context::new().with_define(var.clone(), Value::text("b"));
    assert_eq!(ctx.expand(&var), Ok("b".to_owned()));
}

#[test]
fn render_keeps_literal_text_around_placeholders() {
    let ctx = Context::new().with_define(Variable::single("a"), Value::text("b"));
    assert_eq!(ctx.render("some text {{ a }}"), Ok("some text b".to_owned()));
    assert_eq!(ctx.render("{{ a }} tail"), Ok("b tail".to_owned()));
}

#[test]
fn render_fails_fast_on_malformed_placeholders() {
    let ctx = Context::new().with_define(Variable::single("a"), Value::text("b"));
    assert!(matches!(ctx.render("{{a}} {{bad. }}"), Err(Error::Parse(_))));
}
