use ambients::ast::Exec;
use ambients::congruence::congruent;
use ambients::display::{is_well_formed, serialize, to_display};
use ambients::parser::parse;

fn noop(n: &str) -> Exec {
    Exec::Noop(n.to_string())
}

fn ambient(n: &str, inside: Exec) -> Exec {
    Exec::Ambient(n.to_string(), Box::new(inside))
}

fn group(inside: Exec) -> Exec {
    Exec::Group(Box::new(inside))
}

fn cap_in(n: &str) -> Exec {
    Exec::In(n.to_string())
}

fn in_(n: &str) -> Exec {
    Exec::In_(n.to_string())
}

fn open_(n: &str) -> Exec {
    Exec::Open_(n.to_string())
}

#[test]
fn programs_are_written_as_they_are_read() {
    for text in [
        "a[]",
        "a[] | b[]",
        "a[in b] | b[in_ a]",
        "a[b[open_ | c[]] | open b]",
        "a[in c] | b[in c] | c[in_ a.in_ b.in d] | d[in_ c]",
        "in_ call.open call.(func[open_] | open return.open_)",
        "(a[])",
        "()",
        "a[(b[] | c[]).in d]",
        "out_.out x",
    ] {
        let term = parse(text).unwrap();
        assert_eq!(to_display(&term), text);
    }
}

#[test]
fn blanks_and_line_breaks_are_not_kept() {
    let term = parse("a[ b[] ]\n|c[   ]|  open_ *").unwrap();
    assert_eq!(to_display(&term), "a[b[]] | c[] | open_");
    let term = parse("a").unwrap();
    assert_eq!(to_display(&term), "a[]");
}

#[test]
fn parentheses_stand_where_the_grammar_needs_them() {
    let inside = Exec::Parallel(vec![noop("a"), noop("b")]);
    let nested = Exec::Parallel(vec![inside, noop("c")]);
    assert_eq!(to_display(&nested), "(a[] | b[]) | c[]");

    let first = Exec::Serial(vec![cap_in("a"), cap_in("b")]);
    let chain = Exec::Serial(vec![first, cap_in("c")]);
    assert_eq!(to_display(&chain), "(in a.in b).in c");

    let mixed = Exec::Serial(vec![
        in_("x"),
        Exec::Parallel(vec![noop("a"), open_("*")]),
    ]);
    assert_eq!(to_display(&mixed), "in_ x.(a[] | open_)");

    let single = Exec::Parallel(vec![Exec::Serial(vec![noop("a")])]);
    assert_eq!(to_display(&single), "a[]");
}

#[test]
fn nothing_is_written_as_an_empty_pair() {
    assert_eq!(to_display(&Exec::Parallel(vec![])), "()");
    assert_eq!(to_display(&Exec::Serial(vec![])), "()");
    assert_eq!(to_display(&ambient("a", Exec::Parallel(vec![]))), "a[]");
    assert_eq!(to_display(&ambient("a", Exec::Serial(vec![]))), "a[]");
    assert_eq!(to_display(&group(Exec::Parallel(vec![]))), "()");
    assert_eq!(to_display(&ambient("a", group(Exec::Parallel(vec![])))), "a[()]");
    assert_eq!(
        to_display(&Exec::Parallel(vec![Exec::Parallel(vec![]), noop("a")])),
        "() | a[]"
    );
}

#[test]
fn what_is_written_reads_back_congruent() {
    let terms = vec![
        noop("a"),
        Exec::Parallel(vec![]),
        Exec::Serial(vec![]),
        ambient("a", Exec::Parallel(vec![])),
        ambient("a", group(Exec::Serial(vec![]))),
        Exec::Parallel(vec![noop("a")]),
        Exec::Parallel(vec![Exec::Parallel(vec![noop("a"), noop("b")]), noop("c")]),
        Exec::Serial(vec![
            Exec::Serial(vec![cap_in("a"), cap_in("b")]),
            Exec::Parallel(vec![in_("*"), open_("who")]),
            group(group(noop("deep"))),
        ]),
        ambient(
            "string_concat",
            Exec::Serial(vec![
                in_("call"),
                Exec::Open("call".to_string()),
                group(Exec::Parallel(vec![
                    ambient("func", open_("*")),
                    Exec::Serial(vec![Exec::Open("return".to_string()), open_("*")]),
                ])),
            ]),
        ),
    ];
    for term in terms.iter() {
        assert!(is_well_formed(term));
        let text = to_display(term);
        let back = parse(&text).unwrap();
        assert!(congruent(&back, term), "{:?} came back as {:?}", term, back);
        assert_eq!(to_display(&back), text);
    }
}

#[test]
fn serialized_text_ignores_grouping() {
    let grouped = parse("(a[] | (b[])) | (in c.(in d))").unwrap();
    assert_eq!(to_display(&grouped), "(a[] | (b[])) | (in c.(in d))");
    assert_eq!(serialize(&grouped), "a[] | b[] | in c.in d");
    let plain = parse("a[] | b[] | in c.in d").unwrap();
    assert_eq!(serialize(&plain), serialize(&grouped));
    let swapped = parse("b[] | a[] | in c.in d").unwrap();
    assert_ne!(serialize(&swapped), serialize(&grouped));
    assert_eq!(serialize(&ambient("a", Exec::Parallel(vec![]))), "a[]");
    assert_eq!(serialize(&Exec::Parallel(vec![])), "()");
}

#[test]
fn names_must_be_names_to_be_read_back() {
    for name in ["a", "A-b_c", "func", "string", "inn", "in-", "_", "-"] {
        assert!(is_well_formed(&noop(name)), "{}", name);
        assert!(is_well_formed(&cap_in(name)), "{}", name);
        assert!(is_well_formed(&in_(name)), "{}", name);
    }
    for name in ["", "in", "in_", "out", "out_", "open", "open_", "a b", "a1", "é", "a[", "*a"] {
        assert!(!is_well_formed(&noop(name)), "{}", name);
        assert!(!is_well_formed(&ambient(name, noop("a"))), "{}", name);
        assert!(!is_well_formed(&cap_in(name)), "{}", name);
        assert!(!is_well_formed(&open_(name)), "{}", name);
        assert!(!is_well_formed(&group(Exec::Serial(vec![noop("a"), in_(name)]))), "{}", name);
    }
    assert!(is_well_formed(&in_("*")));
    assert!(is_well_formed(&open_("*")));
    assert!(!is_well_formed(&cap_in("*")));
    assert!(!is_well_formed(&noop("*")));

    assert_eq!(to_display(&noop("in")), "in[]");
    assert!(parse("in[]").is_err());
    assert_eq!(to_display(&cap_in("a b")), "in a b");
    assert!(parse("in a b").is_err());
    let odd = to_display(&noop("a|b"));
    assert!(!congruent(&parse(&odd).unwrap(), &noop("a|b")));
}
