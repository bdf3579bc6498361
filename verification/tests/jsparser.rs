use ambients::ast::Exec;
use ambients::display::to_display;
use ambients::jsparser::{js2amb, Js, Module, NoEncoding};
use ambients::reducer::{reduce_to_normal_form, step};

fn text(s: &str) -> Js {
    Js::Text(s.to_string())
}

#[test]
fn a_function_is_a_func_that_can_be_opened() {
    // () => "hello"
    let module = Module { body: vec![Js::Arrow(vec![text("hello")])] };
    let ambient_ast = js2amb(&module);

    let expected = Exec::Parallel(vec![
        Exec::Ambient(
            "func".to_string(),
            Box::new(Exec::Parallel(vec![
                Exec::Open_("*".to_string()),
                Exec::Ambient("string".to_string(), Box::new(Exec::Noop("hello".to_string()))),
            ])),
        ),
        Exec::Open("func".to_string()),
    ]);
    assert_eq!(format!("{:?}", ambient_ast), format!("{:?}", Ok::<Exec, NoEncoding>(expected)));
}

#[test]
fn evaluating_a_function_leaves_its_body() {
    let module = Module { body: vec![Js::Arrow(vec![text("hello")])] };
    let term = js2amb(&module).unwrap();
    assert_eq!(to_display(&term), "func[open_ | string[hello[]]] | open func");
    let value = step(&term).unwrap();
    assert_eq!(to_display(&value), "string[hello[]]");
    assert!(step(&value).is_none());

    let nested = Module { body: vec![Js::Arrow(vec![Js::Arrow(vec![text("a"), text("b")])])] };
    let term = js2amb(&nested).unwrap();
    assert_eq!(
        to_display(&term),
        "func[open_ | (func[open_ | (string[a[]] | string[b[]])] | open func)] | open func"
    );
    assert_eq!(to_display(&reduce_to_normal_form(term)), "string[a[]] | string[b[]]");
}

#[test]
fn statements_stand_side_by_side() {
    let module = Module { body: vec![text("a"), text("b")] };
    assert_eq!(to_display(&js2amb(&module).unwrap()), "string[a[]] | string[b[]]");
    let module = Module { body: vec![text("a")] };
    assert_eq!(to_display(&js2amb(&module).unwrap()), "string[a[]]");
    let module = Module { body: vec![] };
    assert_eq!(to_display(&js2amb(&module).unwrap()), "()");
    let module = Module { body: vec![Js::Arrow(vec![])] };
    assert_eq!(to_display(&js2amb(&module).unwrap()), "func[open_ | ()] | open func");
}

#[test]
fn what_has_no_encoding_is_refused() {
    let refused = |body: Vec<Js>| js2amb(&Module { body }).unwrap_err();
    assert_eq!(refused(vec![Js::Other]), NoEncoding::Unsupported);
    assert_eq!(refused(vec![text("hello world")]), NoEncoding::NotAName);
    assert_eq!(refused(vec![text("")]), NoEncoding::NotAName);
    assert_eq!(refused(vec![text("open")]), NoEncoding::NotAName);
    assert_eq!(refused(vec![text("a"), Js::Other, text("b c")]), NoEncoding::Unsupported);
    assert_eq!(refused(vec![text("b c"), Js::Other]), NoEncoding::NotAName);
    assert_eq!(
        refused(vec![Js::Arrow(vec![text("a"), Js::Arrow(vec![Js::Other])])]),
        NoEncoding::Unsupported
    );
}
