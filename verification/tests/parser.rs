use ambients::ast::Exec;
use ambients::parser::{parse, Expected, ParseError};

fn noop(n: &str) -> Exec {
    Exec::Noop(n.to_string())
}

fn ambient(n: &str, inside: Exec) -> Exec {
    Exec::Ambient(n.to_string(), Box::new(inside))
}

fn parallel(items: Vec<Exec>) -> Exec {
    Exec::Parallel(items)
}

fn serial(items: Vec<Exec>) -> Exec {
    Exec::Serial(items)
}

fn group(inside: Exec) -> Exec {
    Exec::Group(Box::new(inside))
}

fn open(n: &str) -> Exec {
    Exec::Open(n.to_string())
}

fn open_(n: &str) -> Exec {
    Exec::Open_(n.to_string())
}

fn cap_in(n: &str) -> Exec {
    Exec::In(n.to_string())
}

fn in_(n: &str) -> Exec {
    Exec::In_(n.to_string())
}

fn out(n: &str) -> Exec {
    Exec::Out(n.to_string())
}

fn out_(n: &str) -> Exec {
    Exec::Out_(n.to_string())
}

#[test]
fn ambients_values() {
    let expr = parse("a[]").unwrap();
    let expected = noop("a");
    assert_eq!(&format!("{:?}", expr), &format!("{:?}", expected));

    let expr = parse("hello[]").unwrap();
    let expected = noop("hello");
    assert_eq!(&format!("{:?}", expr), &format!("{:?}", expected));
}

#[test]
fn ambients_parallel() {
    let expr = parse("a[] | b[]").unwrap();

    let a = noop("a");
    let b = noop("b");

    let expected = parallel(vec![a, b]);
    assert_eq!(&format!("{:?}", expr), &format!("{:?}", expected));

    let expr = parse("a[ b[] ] | c[]").unwrap();

    let b = noop("b");
    let a = ambient("a", b);
    let c = noop("c");
    let expected = parallel(vec![a, c]);

    assert_eq!(&format!("{:?}", expr), &format!("{:?}", expected));
}

#[test]
fn ambient_capabilities() {
    let expr = parse("a[b[open_|c[]]|open b]").unwrap();
    let expected = ambient(
        "a",
        parallel(vec![ambient("b", parallel(vec![open_("*"), noop("c")])), open("b")]),
    );
    assert_eq!(&format!("{:?}", expr), &format!("{:?}", expected));

    let expr = parse("a[in b] | b[in_ a]").unwrap();
    let expected = parallel(vec![ambient("a", cap_in("b")), ambient("b", in_("a"))]);
    assert_eq!(&format!("{:?}", expr), &format!("{:?}", expected));

    let expr = parse("b[a[out b]|out_ a]").unwrap();
    let expected = ambient("b", parallel(vec![ambient("a", out("b")), out_("a")]));
    assert_eq!(&format!("{:?}", expr), &format!("{:?}", expected));

    let expr = parse("a[b[open_|c[]]|open b]").unwrap();
    let expected = ambient(
        "a",
        parallel(vec![ambient("b", parallel(vec![open_("*"), noop("c")])), open("b")]),
    );
    assert_eq!(&format!("{:?}", expr), &format!("{:?}", expected));
}

#[test]
fn ambient_paths() {
    let expr = parse("a[in c] | b[in c] | c[in_ a.in_ b.in d] | d[in_ c]").unwrap();
    let expected = parallel(vec![
        ambient("a", cap_in("c")),
        ambient("b", cap_in("c")),
        ambient("c", serial(vec![in_("a"), in_("b"), cap_in("d")])),
        ambient("d", in_("c")),
    ]);
    assert_eq!(&format!("{:?}", expr), &format!("{:?}", expected));

    let expr = parse("a[in b.in_ |b[]]").unwrap();
    let expected = ambient(
        "a",
        parallel(vec![serial(vec![cap_in("b"), in_("*")]), noop("b")]),
    );
    assert_eq!(&format!("{:?}", expr), &format!("{:?}", expected));
}

#[test]
fn ambient_func() {
    let expr = parse("func[in_ x.open x.open_]").unwrap();
    let expected = ambient("func", serial(vec![in_("x"), open("x"), open_("*")]));
    assert_eq!(&format!("{:?}", expr), &format!("{:?}", expected));

    let expr = parse("func[in_ x.open x.open_] | x[in func.open_|result[]] |open func").unwrap();
    let expected = parallel(vec![
        ambient("func", serial(vec![in_("x"), open("x"), open_("*")])),
        ambient(
            "x",
            parallel(vec![serial(vec![cap_in("func"), open_("*")]), noop("result")]),
        ),
        open("func"),
    ]);
    assert_eq!(&format!("{:?}", expr), &format!("{:?}", expected));
}

#[test]
fn ambient_arg() {
    let expr =
        parse("arg[in_ x.open x.in y.open_] | y[in_ arg.open arg.in func.open_]").unwrap();
    let expected = parallel(vec![
        ambient("arg", serial(vec![in_("x"), open("x"), cap_in("y"), open_("*")])),
        ambient(
            "y",
            serial(vec![in_("arg"), open("arg"), cap_in("func"), open_("*")]),
        ),
    ]);
    assert_eq!(&format!("{:?}", expr), &format!("{:?}", expected));

    let program = "
arg[in_ x.open x.in y.open_] | x[in arg.open_|input[]] |
y[in_ arg.open arg.in func.open_] |
func[in_ y.open y.open_]
";
    let expr = parse(program).unwrap();
    let expected = parallel(vec![
        ambient("arg", serial(vec![in_("x"), open("x"), cap_in("y"), open_("*")])),
        ambient(
            "x",
            parallel(vec![serial(vec![cap_in("arg"), open_("*")]), noop("input")]),
        ),
        ambient(
            "y",
            serial(vec![in_("arg"), open("arg"), cap_in("func"), open_("*")]),
        ),
        ambient("func", serial(vec![in_("y"), open("y"), open_("*")])),
    ]);
    assert_eq!(&format!("{:?}", expr), &format!("{:?}", expected));
}

#[test]
fn ambient_function_expression() {
    let program = "
message[
  in func.open_|
  func[
    x[in_ arg.open arg.in message.open_]|
    message[in_ x.open x]|
    in_ arg.open_
  ]
] |
func[
  in_ message.open message.open func.open_|
  arg[
    in func.in x.open_|
    string[hello[]]
  ]
]|
open func
";
    let expr = parse(program).unwrap();
    let expected = parallel(vec![
        ambient(
            "message",
            parallel(vec![
                serial(vec![cap_in("func"), open_("*")]),
                ambient(
                    "func",
                    parallel(vec![
                        ambient(
                            "x",
                            serial(vec![in_("arg"), open("arg"), cap_in("message"), open_("*")]),
                        ),
                        ambient("message", serial(vec![in_("x"), open("x")])),
                        serial(vec![in_("arg"), open_("*")]),
                    ]),
                ),
            ]),
        ),
        ambient(
            "func",
            parallel(vec![
                serial(vec![in_("message"), open("message"), open("func"), open_("*")]),
                ambient(
                    "arg",
                    parallel(vec![
                        serial(vec![cap_in("func"), cap_in("x"), open_("*")]),
                        ambient("string", noop("hello")),
                    ]),
                ),
            ]),
        ),
        open("func"),
    ]);
    assert_eq!(&format!("{:?}", expr), &format!("{:?}", expected));
}

#[test]
fn ambient_call() {
    let program = "call[out x.in y.open_]";
    let expr = parse(program).unwrap();
    let expected = ambient("call", serial(vec![out("x"), cap_in("y"), open_("*")]));
    assert_eq!(&format!("{:?}", expr), &format!("{:?}", expected));

    let program = "
x[call[out x.in y.open_|payload[]] | out_ call] |
y[in_ call.open call]
";
    let expr = parse(program).unwrap();
    let expected = parallel(vec![
        ambient(
            "x",
            parallel(vec![
                ambient(
                    "call",
                    parallel(vec![
                        serial(vec![out("x"), cap_in("y"), open_("*")]),
                        noop("payload"),
                    ]),
                ),
                out_("call"),
            ]),
        ),
        ambient("y", serial(vec![in_("call"), open("call")])),
    ]);
    assert_eq!(&format!("{:?}", expr), &format!("{:?}", expected));
}

#[test]
fn ambient_return() {
    let program = "return[open_.in x]";
    let expr = parse(program).unwrap();
    let expected = ambient("return", serial(vec![open_("*"), cap_in("x")]));
    assert_eq!(&format!("{:?}", expr), &format!("{:?}", expected));

    let program = "
x[
    call[out x.in y.open_|return[open_.in x]]|
    out_ call.in_ y
] |
y[in_ call.open call.open return]
";
    let expr = parse(program).unwrap();
    let expected = parallel(vec![
        ambient(
            "x",
            parallel(vec![
                ambient(
                    "call",
                    parallel(vec![
                        serial(vec![out("x"), cap_in("y"), open_("*")]),
                        ambient("return", serial(vec![open_("*"), cap_in("x")])),
                    ]),
                ),
                serial(vec![out_("call"), in_("y")]),
            ]),
        ),
        ambient("y", serial(vec![in_("call"), open("call"), open("return")])),
    ]);
    assert_eq!(&format!("{:?}", expr), &format!("{:?}", expected));
}

#[test]
fn ambient_monoid() {
    let program = "
string_concat[
  in_ call.open call.(
    func[
      left[
        in_ arg.open arg.in string.in concat
      ]|
      right[
        in_ arg.open arg.in string.in concat
      ]|
      string[
        concat[in_ left|in_ right]|
        in_ left|in_ right
      ]|
      open_
    ]|
    open return.open_
  )
]";
    let expr = parse(program).unwrap();
    let expected = ambient(
        "string_concat",
        serial(vec![
            in_("call"),
            open("call"),
            group(parallel(vec![
                ambient(
                    "func",
                    parallel(vec![
                        ambient(
                            "left",
                            serial(vec![
                                in_("arg"),
                                open("arg"),
                                cap_in("string"),
                                cap_in("concat"),
                            ]),
                        ),
                        ambient(
                            "right",
                            serial(vec![
                                in_("arg"),
                                open("arg"),
                                cap_in("string"),
                                cap_in("concat"),
                            ]),
                        ),
                        ambient(
                            "string",
                            parallel(vec![
                                ambient("concat", parallel(vec![in_("left"), in_("right")])),
                                in_("left"),
                                in_("right"),
                            ]),
                        ),
                        open_("*"),
                    ]),
                ),
                serial(vec![open("return"), open_("*")]),
            ])),
        ]),
    );
    assert_eq!(&format!("{:?}", expr), &format!("{:?}", expected));

    let program = "
string[
  concat[
    left[string[a[]]]|
    right[string[b[]]]
  ]
]
";

    let expr = parse(program).unwrap();
    let monad = ambient(
        "string",
        ambient(
            "concat",
            parallel(vec![
                ambient("left", ambient("string", noop("a"))),
                ambient("right", ambient("string", noop("b"))),
            ]),
        ),
    );
    assert_eq!(&format!("{:?}", expr), &format!("{:?}", monad));

    let program = "
string[
  concat[
    left[
      string[
        concat[
          left[string[a[]]]|
          right[string[b[]]]
        ]
      ]
    ]|
    right[string[c[]]]
  ]
]
";

    let expr = parse(program).unwrap();
    let expected = ambient(
        "string",
        ambient(
            "concat",
            parallel(vec![
                ambient("left", monad),
                ambient("right", ambient("string", noop("c"))),
            ]),
        ),
    );
    assert_eq!(&format!("{:?}", expr), &format!("{:?}", expected));
}

#[test]
fn ambient_functors() {
    let program = "
identity[
  int[
    length[string[hello[]]]
  ]
]
";

    let expr = parse(program).unwrap();
    let expected = ambient(
        "identity",
        ambient("int", ambient("length", ambient("string", noop("hello")))),
    );
    assert_eq!(&format!("{:?}", expr), &format!("{:?}", expected));
}

#[test]
fn one_element_is_not_wrapped() {
    assert_eq!(format!("{:?}", parse("a[]").unwrap()), format!("{:?}", noop("a")));
    assert_eq!(format!("{:?}", parse("a").unwrap()), format!("{:?}", noop("a")));
    assert_eq!(
        format!("{:?}", parse("a[] | b[]").unwrap()),
        format!("{:?}", parallel(vec![noop("a"), noop("b")]))
    );
    assert_eq!(format!("{:?}", parse("in a").unwrap()), format!("{:?}", cap_in("a")));
    assert_eq!(
        format!("{:?}", parse("a[b]").unwrap()),
        format!("{:?}", ambient("a", noop("b")))
    );
}

#[test]
fn sequencing_binds_tighter_than_composition() {
    let expr = parse("a.b|c").unwrap();
    let expected = parallel(vec![serial(vec![noop("a"), noop("b")]), noop("c")]);
    assert_eq!(format!("{:?}", expr), format!("{:?}", expected));

    let expr = parse("a.(b|c)").unwrap();
    let expected = serial(vec![noop("a"), group(parallel(vec![noop("b"), noop("c")]))]);
    assert_eq!(format!("{:?}", expr), format!("{:?}", expected));

    let expr = parse("(a)").unwrap();
    assert_eq!(format!("{:?}", expr), format!("{:?}", group(noop("a"))));

    let expr = parse("()").unwrap();
    assert_eq!(format!("{:?}", expr), format!("{:?}", group(parallel(vec![]))));
}

#[test]
fn authorization_defaults_to_everyone() {
    for text in ["in_", "in_ *", "in_*"] {
        assert_eq!(format!("{:?}", parse(text).unwrap()), format!("{:?}", in_("*")));
    }
    assert_eq!(format!("{:?}", parse("out_").unwrap()), format!("{:?}", out_("*")));
    assert_eq!(format!("{:?}", parse("open_ a").unwrap()), format!("{:?}", open_("a")));
    assert_eq!(
        format!("{:?}", parse("open_ | in_ x").unwrap()),
        format!("{:?}", parallel(vec![open_("*"), in_("x")]))
    );
}

#[test]
fn protocol_words_are_names() {
    let expr = parse("func[call[] | arg | return[open string]]").unwrap();
    let expected = ambient(
        "func",
        parallel(vec![noop("call"), noop("arg"), ambient("return", open("string"))]),
    );
    assert_eq!(format!("{:?}", expr), format!("{:?}", expected));
}

fn refused(text: &str) -> ParseError {
    match parse(text) {
        Ok(e) => panic!("{:?} was read as {:?}", text, e),
        Err(e) => e,
    }
}

#[test]
fn an_open_bracket_is_missed_at_the_end() {
    let text = "a[b[]";
    let e = refused(text);
    assert_eq!(e.position, text.len());
    assert_eq!(e.position, 5);
    assert_eq!(e.expected, Expected::ClosingBracket);
}

#[test]
fn each_refusal_names_what_was_expected() {
    assert_eq!(refused(""), ParseError { position: 0, expected: Expected::Process });
    assert_eq!(refused("a[] |"), ParseError { position: 5, expected: Expected::Process });
    assert_eq!(refused("a[]]"), ParseError { position: 3, expected: Expected::End });
    assert_eq!(refused("a[] b[]"), ParseError { position: 4, expected: Expected::End });
    assert_eq!(refused("(a[]"), ParseError { position: 4, expected: Expected::ClosingParenthesis });
    assert_eq!(refused("(a[]]"), ParseError { position: 4, expected: Expected::ClosingParenthesis });
    assert_eq!(refused("a[)"), ParseError { position: 2, expected: Expected::Process });
    assert_eq!(refused("a[in]"), ParseError { position: 4, expected: Expected::Name });
    assert_eq!(refused("out"), ParseError { position: 3, expected: Expected::Name });
    assert_eq!(refused("open open"), ParseError { position: 5, expected: Expected::Name });
    assert_eq!(refused("in *"), ParseError { position: 3, expected: Expected::Name });
    assert_eq!(refused("in[]"), ParseError { position: 2, expected: Expected::Name });
    assert_eq!(refused("a[b[] c"), ParseError { position: 6, expected: Expected::ClosingBracket });
}

#[test]
fn a_stranger_is_refused_where_it_stands() {
    assert_eq!(refused("a[] | b[?]"), ParseError { position: 8, expected: Expected::Process });
    assert_eq!(refused("a[] $"), ParseError { position: 4, expected: Expected::End });
    assert_eq!(refused("é"), ParseError { position: 0, expected: Expected::Process });
    assert_eq!(refused("a2"), ParseError { position: 1, expected: Expected::End });
}
