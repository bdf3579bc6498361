use ambients::ast::Exec;
use ambients::congruence::congruent;
use ambients::parser::parse;

fn same(a: &str, b: &str) -> bool {
    congruent(&parse(a).unwrap(), &parse(b).unwrap())
}

#[test]
fn composition_has_no_order() {
    assert!(same("a[] | b[]", "b[] | a[]"));
    assert!(same("a[] | b[] | c[in x]", "c[in x] | a[] | b[]"));
    assert!(same("a[b[] | c[d[] | e[]]]", "a[c[e[] | d[]] | b[]]"));
    assert!(!same("a[] | b[]", "a[] | c[]"));
    assert!(!same("a[] | b[]", "a[]"));
}

#[test]
fn each_process_counts() {
    assert!(same("a[] | a[] | b[]", "a[] | b[] | a[]"));
    assert!(!same("a[] | a[] | b[]", "a[] | b[] | b[]"));
    assert!(!same("a[] | a[]", "a[]"));
    assert!(same("a[x[] | x[]] | a[x[]]", "a[x[]] | a[x[] | x[]]"));
    assert!(!same("a[x[] | x[]] | a[x[]]", "a[x[]] | a[x[]]"));
}

#[test]
fn grouping_is_transparent() {
    assert!(same("(a[])", "a[]"));
    assert!(same("(a[] | b[]) | c[]", "a[] | (b[] | c[])"));
    assert!(same("a[(b[])]", "a[b[]]"));
    assert!(same("a[()]", "a[]"));
    assert!(same("a", "a[]"));
    assert!(same("() | a[]", "a[]"));
    assert!(same("in a.(in b.in c)", "in a.in b.in c"));
}

#[test]
fn sequences_keep_their_order() {
    assert!(!same("in a.in b", "in b.in a"));
    assert!(!same("in a.in b", "in a | in b"));
    assert!(!same("a.(b|c)", "a.b|c"));
    assert!(same("a.(b|c)", "a.(c|b)"));
    assert!(!same("in a", "in_ a"));
    assert!(!same("in a", "out a"));
    assert!(!same("in_", "in_ a"));
}

#[test]
fn an_ambient_without_content_is_bare() {
    let bare = Exec::Noop("a".to_string());
    let empty = Exec::Ambient("a".to_string(), Box::new(Exec::Parallel(vec![])));
    let hollow = Exec::Ambient("a".to_string(), Box::new(Exec::Serial(vec![])));
    assert!(congruent(&bare, &empty));
    assert!(congruent(&empty, &hollow));
    assert!(congruent(&Exec::Parallel(vec![]), &Exec::Serial(vec![])));
    assert!(!congruent(&bare, &Exec::Parallel(vec![])));
    let one = Exec::Serial(vec![Exec::In("a".to_string())]);
    assert!(congruent(&one, &Exec::In("a".to_string())));
}
