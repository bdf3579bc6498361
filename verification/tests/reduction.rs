use ambients::ast::Exec;
use ambients::ast::Exec::{Ambient, In, In_, Noop, Parallel, Serial};
use ambients::congruence::congruent;
use ambients::display::{is_well_formed, serialize, to_display};
use ambients::jsparser::{js2amb, Js, Module};
use ambients::parser::parse;
use ambients::process::{get_children, raise};
use ambients::redex::{can_reduce, find_redex, RedexSite, Rule};
use ambients::reducer::{apply_transitions_recursive, reduce_to_normal_form, step};

fn s(x: &str) -> String {
    x.to_string()
}

fn show(e: &Exec) -> String {
    format!("{:?}", e)
}

fn reduced(text: &str) -> String {
    to_display(&reduce_to_normal_form(parse(text).unwrap()))
}

fn site(rule: Rule, scope: Vec<usize>, at: [usize; 4]) -> RedexSite {
    RedexSite { rule, scope, requester: at[0], capability: at[1], target: at[2], grant: at[3] }
}

/// Every redex of `term`, found by trying all small positions.
fn all_sites(term: &Exec) -> Vec<RedexSite> {
    let mut scopes: Vec<Vec<usize>> = vec![vec![]];
    for i in 0..4 {
        scopes.push(vec![i]);
        for j in 0..4 {
            scopes.push(vec![i, j]);
        }
    }
    let mut found = Vec::new();
    for scope in scopes {
        for rule in [Rule::Entry, Rule::Exit, Rule::Dissolution] {
            for code in 0..256 {
                let at = [code % 4, (code / 4) % 4, (code / 16) % 4, code / 64];
                let candidate = site(rule, scope.clone(), at);
                if candidate.applies_to(term) {
                    found.push(candidate);
                }
            }
        }
    }
    found
}

/// The normal forms that `term` reaches, one for each order of reduction.
fn all_normal_forms(term: &Exec, into: &mut Vec<Exec>) {
    let sites = all_sites(term);
    if sites.is_empty() {
        assert!(!can_reduce(term));
        into.push(term.clone());
    }
    for candidate in sites.iter() {
        let next = apply_transitions_recursive(term, candidate).unwrap();
        all_normal_forms(&next, into);
    }
}

#[test]
fn lib_it_works() {
    // a[in c] | b[in c] | c[in_ a.in_ b.in d] | d[in_ c]
    // →         b[in c] | c[in_ b.in d | a[]] | d[in_ c]
    // →                   c[in d | b[] | a[]] | d[in_ c]
    // →                                  d[c[b[] | a[]]]
    let expected = Ambient(
        s("d"),
        Box::new(Ambient(s("c"), Box::new(Parallel(vec![Noop(s("b")), Noop(s("a"))])))),
    );

    // Where the third ambient goes by another name, no ambient `c` is there
    // to be entered and nothing moves.
    let ast = Parallel(vec![
        Ambient(s("a"), Box::new(Serial(vec![In(s("c"))]))),
        Ambient(s("b"), Box::new(Serial(vec![In(s("c"))]))),
        Ambient(s("y"), Box::new(Serial(vec![In_(s("a")), In_(s("b")), In(s("d"))]))),
        Ambient(s("d"), Box::new(Serial(vec![In_(s("c"))]))),
    ]);
    let before = show(&ast);
    let reduced = reduce_to_normal_form(ast);
    assert_eq!(show(&reduced), before);
    assert!(!congruent(&reduced, &expected));

    let ast = Parallel(vec![
        Ambient(s("a"), Box::new(Serial(vec![In(s("c"))]))),
        Ambient(s("b"), Box::new(Serial(vec![In(s("c"))]))),
        Ambient(s("c"), Box::new(Serial(vec![In_(s("a")), In_(s("b")), In(s("d"))]))),
        Ambient(s("d"), Box::new(Serial(vec![In_(s("c"))]))),
    ]);
    let reduced = reduce_to_normal_form(ast);
    assert!(congruent(&reduced, &expected));
    assert_eq!(to_display(&reduced), "d[c[a[] | b[]]]");

    // () => "hello"
    let module = Module { body: vec![Js::Arrow(vec![Js::Text(s("hello"))])] };
    let ambient_ast = js2amb(&module).unwrap();
    let expected = Parallel(vec![
        Ambient(
            s("func"),
            Box::new(Parallel(vec![
                Exec::Open_(s("*")),
                Ambient(s("string"), Box::new(Noop(s("hello")))),
            ])),
        ),
        Exec::Open(s("func")),
    ]);
    assert_eq!(format!("{:?}", ambient_ast), format!("{:?}", expected));
}

#[test]
fn entry_takes_one_step() {
    let ast = parse("a[in b] | b[in_ a]").unwrap();
    let next = step(&ast).unwrap();
    let expected = Ambient(s("b"), Box::new(Parallel(vec![Noop(s("a"))])));
    assert!(congruent(&next, &expected));
    assert_eq!(show(&next), show(&Ambient(s("b"), Box::new(Noop(s("a"))))));
    assert!(step(&next).is_none());
    assert!(!can_reduce(&next));
}

#[test]
fn the_wildcard_admits_any_requester() {
    let named = reduce_to_normal_form(parse("a[in b] | b[in_ a]").unwrap());
    for text in ["a[in b] | b[in_]", "a[in b] | b[in_ *]"] {
        let ast = parse(text).unwrap();
        let next = step(&ast).unwrap();
        assert_eq!(show(&next), show(&named));
        assert!(step(&next).is_none());
    }
    assert_eq!(reduced("b[a[out b] | out_]"), "a[] | b[]");
    assert_eq!(reduced("a[b[open_ c | x[]] | open b]"), "a[b[open_ c | x[]] | open b]");
    assert_eq!(reduced("a[b[open_ a | x[]] | open b]"), "a[x[]]");
}

#[test]
fn a_grant_names_who_may_act() {
    assert_eq!(reduced("a[in b] | b[in_ c]"), "a[in b] | b[in_ c]");
    assert_eq!(reduced("b[a[out b] | out_ c]"), "b[a[out b] | out_ c]");
    assert_eq!(reduced("a[in b] | b[out_ a]"), "a[in b] | b[out_ a]");
    assert_eq!(reduced("a[in b] | c[in_ a]"), "a[in b] | c[in_ a]");
    assert_eq!(reduced("a[in a | in_ a]"), "a[in a | in_ a]");
}

#[test]
fn exit_puts_the_leaver_before_its_host() {
    let reduced = reduce_to_normal_form(parse("b[a[out b]|out_ a]").unwrap());
    let expected = Parallel(vec![Ambient(s("a"), Box::new(Parallel(vec![]))), Noop(s("b"))]);
    assert!(congruent(&reduced, &expected));
    assert_eq!(show(&reduced), show(&Parallel(vec![Noop(s("a")), Noop(s("b"))])));
}

#[test]
fn dissolution_merges_the_content() {
    let reduced = reduce_to_normal_form(parse("a[b[open_|c[]]|open b]").unwrap());
    let expected = Ambient(s("a"), Box::new(Noop(s("c"))));
    assert_eq!(show(&reduced), show(&expected));
}

#[test]
fn dissolution_at_the_root_needs_the_wildcard() {
    assert_eq!(reduced("open b | b[open_ | c[] | d[]]"), "c[] | d[]");
    assert_eq!(reduced("b[c[] | open_ | d[]] | open b.x[]"), "c[] | d[] | x[]");
    assert_eq!(reduced("open b | b[open_ a | c[]]"), "open b | b[open_ a | c[]]");
}

#[test]
fn path_of_four_ambients() {
    let ast = parse("a[in c] | b[in c] | c[in_ a.in_ b.in d] | d[in_ c]").unwrap();
    let expected = Ambient(
        s("d"),
        Box::new(Ambient(s("c"), Box::new(Parallel(vec![Noop(s("a")), Noop(s("b"))])))),
    );

    let first = step(&ast).unwrap();
    assert_eq!(to_display(&first), "b[in c] | c[in_ b.in d | a[]] | d[in_ c]");
    let second = step(&first).unwrap();
    assert_eq!(to_display(&second), "c[in d | a[] | b[]] | d[in_ c]");
    let third = step(&second).unwrap();
    assert_eq!(show(&third), show(&expected));
    assert!(step(&third).is_none());

    let reduced = reduce_to_normal_form(ast);
    assert_eq!(show(&reduced), show(&expected));
}

#[test]
fn every_order_of_reduction_converges() {
    let expected = parse("d[c[a[] | b[]]]").unwrap();
    for text in [
        "a[in c] | b[in c] | c[in_ a.in_ b.in d] | d[in_ c]",
        "b[in c] | d[in_ c] | a[in c] | c[in_ a.in_ b.in d]",
        "a[in c] | b[in c] | c[(in_ a | in_ b).x[] | in d] | d[in_ c]",
    ] {
        let ast = parse(text).unwrap();
        let mut forms = Vec::new();
        all_normal_forms(&ast, &mut forms);
        assert!(!forms.is_empty());
        let wanted = if text.contains("x[]") {
            parse("a[in c] | b[in c] | d[c[(in_ a | in_ b).x[]]]").unwrap()
        } else {
            parse("d[c[a[] | b[]]]").unwrap()
        };
        for form in forms.iter() {
            assert!(congruent(form, &wanted), "{} reached {}", text, to_display(form));
        }
        assert!(congruent(&reduce_to_normal_form(ast), &wanted));
    }
    // Both orders are there to be taken where both grants are ready.
    let ast = parse("a[in c] | b[in c] | c[in_ a | in_ b]").unwrap();
    let a_first = site(Rule::Entry, vec![], [0, 0, 2, 0]);
    let b_first = site(Rule::Entry, vec![], [1, 0, 2, 1]);
    assert!(a_first.applies_to(&ast));
    assert!(b_first.applies_to(&ast));
    let one = reduce_to_normal_form(apply_transitions_recursive(&ast, &a_first).unwrap());
    let other = reduce_to_normal_form(apply_transitions_recursive(&ast, &b_first).unwrap());
    assert_eq!(to_display(&one), "c[a[] | b[]]");
    assert_eq!(to_display(&other), "c[b[] | a[]]");
    assert!(congruent(&one, &other));
    assert!(congruent(&one, &parse("c[a[] | b[]]").unwrap()));
    let _ = expected;
}

#[test]
fn without_sequencing_the_order_decides() {
    let ast = parse("a[in c] | c[in_ a | in d] | d[in_ c]").unwrap();
    let mut forms = Vec::new();
    all_normal_forms(&ast, &mut forms);
    let texts: Vec<String> = forms.iter().map(to_display).collect();
    assert_eq!(texts, vec!["d[c[a[]]]", "a[in c] | d[c[in_ a]]"]);
    assert!(!congruent(&forms[0], &forms[1]));
}

#[test]
fn a_normal_form_stays_as_it_is() {
    for text in [
        "a[]",
        "d[c[a[] | b[]]]",
        "(a[] | (b[]))",
        "a[in b]",
        "in a.(b[] | c[])",
        "()",
        "a[in b] | c[in_ a] | open x | x[y[open_]]",
    ] {
        let ast = parse(text).unwrap();
        assert!(find_redex(&ast).is_none());
        assert!(!can_reduce(&ast));
        assert!(step(&ast).is_none());
        let before = show(&ast);
        assert_eq!(show(&reduce_to_normal_form(ast)), before);
    }
}

#[test]
fn only_the_head_of_a_sequence_is_ready() {
    assert_eq!(reduced("a[x[].in b] | b[in_ a]"), "a[x[].in b] | b[in_ a]");
    assert_eq!(reduced("a[in_ z.in b] | b[in_ a]"), "a[in_ z.in b] | b[in_ a]");
    assert_eq!(reduced("a[(in b).x[]] | b[in_ a]"), "b[a[x[]]]");
    assert_eq!(reduced("a[(in b | y[]).x[]] | b[in_ a]"), "a[(in b | y[]).x[]] | b[in_ a]");
    assert_eq!(
        reduced("a[in b.(x[] | y[]).z[]] | b[in_ a.(p[] | q[])]"),
        "b[p[] | q[] | a[(x[] | y[]).z[]]]"
    );
}

#[test]
fn what_a_sequence_releases_takes_its_place() {
    assert_eq!(reduced("l[] | open b.(x[] | y[]) | r[] | b[open_]"), "l[] | x[] | y[] | r[]");
    assert_eq!(reduced("b[p[] | open_.(q[] | s[]) | t[]] | open b"), "p[] | q[] | s[] | t[]");
}

#[test]
fn ambients_may_share_a_name() {
    assert_eq!(reduced("a[in b] | a[in b] | b[in_ a]"), "a[in b] | b[a[]]");
    assert_eq!(reduced("a[in b] | b[] | b[in_ a]"), "b[] | b[a[]]");
    assert_eq!(reduced("a[in b] | b[in_ a] | b[in_ a]"), "b[a[]] | b[in_ a]");
    assert_eq!(reduced("a[in b] | a[in b] | b[in_ a | in_ a]"), "b[a[] | a[]]");
}

#[test]
fn the_empty_name_matches_nothing() {
    let ast = Parallel(vec![
        Ambient(s("a"), Box::new(In(s("")))),
        Ambient(s(""), Box::new(In_(s("*")))),
    ]);
    assert!(!can_reduce(&ast));
    let ast = Parallel(vec![
        Ambient(s(""), Box::new(In(s("b")))),
        Ambient(s("b"), Box::new(In_(s("")))),
    ]);
    assert!(!can_reduce(&ast));
    let ast = Parallel(vec![
        Ambient(s(""), Box::new(In(s("b")))),
        Ambient(s("b"), Box::new(In_(s("*")))),
    ]);
    assert!(can_reduce(&ast));
}

#[test]
fn the_search_goes_from_the_root_down_and_from_left_to_right() {
    let ast = parse("x[a[in b] | b[in_]] | c[in d] | d[in_]").unwrap();
    let found = find_redex(&ast).unwrap();
    assert_eq!(found.rule, Rule::Entry);
    assert_eq!(found.scope, Vec::<usize>::new());
    assert_eq!((found.requester, found.capability, found.target, found.grant), (1, 0, 2, 0));
    assert!(found.applies_to(&ast));

    let ast = parse("k[] | x[y[] | z[a[out z] | out_ a]]").unwrap();
    let found = find_redex(&ast).unwrap();
    assert_eq!(found.rule, Rule::Exit);
    assert_eq!(found.scope, vec![1]);
    assert_eq!((found.requester, found.capability, found.target, found.grant), (0, 0, 1, 1));
    assert_eq!(to_display(&step(&ast).unwrap()), "k[] | x[y[] | a[] | z[]]");

    let ast = parse("x[y[b[open_ y] | open b]]").unwrap();
    let found = find_redex(&ast).unwrap();
    assert_eq!(found.rule, Rule::Dissolution);
    assert_eq!(found.scope, vec![0, 0]);
    assert_eq!((found.requester, found.capability, found.target, found.grant), (1, 0, 0, 0));
}

#[test]
fn a_site_that_is_no_redex_is_not_applied() {
    let ast = parse("a[in b] | b[in_ a]").unwrap();
    let good = site(Rule::Entry, vec![], [0, 0, 1, 0]);
    assert!(good.applies_to(&ast));
    assert_eq!(to_display(&apply_transitions_recursive(&ast, &good).unwrap()), "b[a[]]");
    for bad in [
        site(Rule::Entry, vec![], [1, 0, 0, 0]),
        site(Rule::Entry, vec![], [0, 0, 0, 0]),
        site(Rule::Entry, vec![], [0, 1, 1, 0]),
        site(Rule::Entry, vec![], [0, 0, 1, 1]),
        site(Rule::Entry, vec![], [0, 0, 2, 0]),
        site(Rule::Entry, vec![0], [0, 0, 1, 0]),
        site(Rule::Entry, vec![7], [0, 0, 1, 0]),
        site(Rule::Exit, vec![], [0, 0, 1, 0]),
        site(Rule::Dissolution, vec![], [0, 0, 1, 0]),
    ] {
        assert!(!bad.applies_to(&ast));
        assert!(apply_transitions_recursive(&ast, &bad).is_none());
    }
    let ast = parse("open b | b[open_]").unwrap();
    assert!(site(Rule::Dissolution, vec![], [0, 0, 1, 0]).applies_to(&ast));
    assert!(!site(Rule::Dissolution, vec![], [0, 1, 1, 0]).applies_to(&ast));
}

fn capabilities(text: &str) -> usize {
    text.split(|c: char| !(c.is_ascii_alphabetic() || c == '_'))
        .filter(|w| ["in", "in_", "out", "out_", "open", "open_"].contains(w))
        .count()
}

#[test]
fn each_step_uses_up_two_capabilities() {
    let mut term = parse(
        "x[call[out x.in y.open_|payload[]] | out_ call] | y[in_ call.open call]",
    )
    .unwrap();
    let mut left = capabilities(&to_display(&term));
    assert_eq!(left, 6);
    let mut steps = 0;
    while let Some(next) = step(&term) {
        let now = capabilities(&to_display(&next));
        assert_eq!(now + 2, left);
        left = now;
        term = next;
        steps += 1;
    }
    assert_eq!(steps, 3);
    assert_eq!(to_display(&term), "x[] | y[payload[]]");
}

#[test]
fn the_processes_of_a_term_are_its_flat_content() {
    let ast = parse("(a[] | (in b.(c[] | d[]))) | () | e[(f[])]").unwrap();
    let flat = get_children(&ast);
    assert_eq!(flat.len(), 3);
    assert_eq!(to_display(&raise(&flat)), "a[] | in b.(c[] | d[]) | e[f[]]");
    assert_eq!(get_children(&parse("()").unwrap()).len(), 0);
    assert_eq!(get_children(&parse("in a.in b.in c").unwrap()).len(), 1);
    let nested = parse("in a.(in b.in c)").unwrap();
    assert_eq!(to_display(&raise(&get_children(&nested))), "in a.in b.in c");
}

#[test]
fn protocol_programs_run_to_their_values() {
    assert_eq!(
        reduced("func[in_ x.open x.open_] | x[in func.open_|result[]] | open func"),
        "result[]"
    );
    assert_eq!(
        reduced(
            "
            x[
                call[out x.in y.open_|return[open_.in x]]|
                out_ call.in_ y
            ] |
            y[in_ call.open call.open return]
        "
        ),
        "x[y[]]"
    );
}

#[test]
fn the_result_of_a_program_is_a_program() {
    for text in [
        "a[in b] | b[in_ a]",
        "b[a[out b]|out_ a]",
        "a[b[open_|c[]]|open b]",
        "a[in c] | b[in c] | c[in_ a.in_ b.in d] | d[in_ c]",
        "func[in_ x.open x.open_] | x[in func.open_|result[]] | open func",
        "l[] | open b.(x[] | (in y.(in z))) | r[] | b[open_]",
        "(a[] | (b[]))",
    ] {
        let program = parse(text).unwrap();
        assert!(is_well_formed(&program));
        let result = reduce_to_normal_form(program);
        assert!(is_well_formed(&result));
        let written = to_display(&result);
        let read = parse(&written).unwrap();
        assert!(congruent(&read, &result));
        assert_eq!(serialize(&read), serialize(&result));
        assert_eq!(serialize(&parse(&serialize(&result)).unwrap()), serialize(&result));
    }
}
