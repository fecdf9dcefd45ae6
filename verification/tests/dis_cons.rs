use podium::dis_cons::{expand_dis, expand_dis_cons, DisCons};
use podium::logic::con::Conjunction;
use podium::logic::dis::Disjunction;

fn dis<T>(items: Vec<T>) -> Disjunction<T> {
    Disjunction::new(items)
}

fn con<T>(items: Vec<T>) -> Conjunction<T> {
    Conjunction::new(items)
}

fn dis_cons<T>(conjunctions: Vec<Conjunction<T>>) -> DisCons<T> {
    Disjunction::new(conjunctions)
}

#[test]
fn expand_dis_empty() {
    let expanded = expand_dis(&"a", &dis(vec![]));
    assert_eq!(dis_cons::<&str>(vec![]), expanded);
}

#[test]
fn expand_dis_one() {
    let expanded = expand_dis(&"a", &dis(vec!["b"]));
    assert_eq!(dis_cons(vec![con(vec!["a", "b"])]), expanded);
}

#[test]
fn expand_dis_many() {
    let expanded = expand_dis(&"a", &dis(vec!["b", "c", "d"]));
    assert_eq!(
        dis_cons(vec![con(vec!["a", "b"]), con(vec!["a", "c"]), con(vec!["a", "d"])]),
        expanded
    );
}

#[test]
fn expand_dis_cons_empty() {
    let expanded = expand_dis_cons(&"a", &dis_cons(vec![]));
    assert_eq!(dis_cons::<&str>(vec![]), expanded);
}

#[test]
fn expand_dis_cons_one() {
    let expanded = expand_dis_cons(&"a", &dis_cons(vec![con(vec!["b", "c"])]));
    assert_eq!(dis_cons(vec![con(vec!["a", "b", "c"])]), expanded);
}

#[test]
fn expand_dis_cons_many() {
    let expanded = expand_dis_cons(&"a", &dis_cons(vec![con(vec!["b", "c"]), con(vec!["d", "e"])]));
    assert_eq!(
        dis_cons(vec![con(vec!["a", "b", "c"]), con(vec!["a", "d", "e"])]),
        expanded
    );
}

#[test]
fn con_new_and_push() {
    let mut conjunction = Conjunction::new(vec!["a", "b", "c"]);
    assert_eq!(&vec!["a", "b", "c"], conjunction.as_vec());
    conjunction.push("d");
    assert_eq!(&vec!["a", "b", "c", "d"], conjunction.as_vec());
}

#[test]
fn dis_new_and_push() {
    let mut disjunction = Disjunction::new(vec!["a", "b", "c"]);
    assert_eq!(&vec!["a", "b", "c"], disjunction.as_vec());
    disjunction.push("d");
    assert_eq!(&vec!["a", "b", "c", "d"], disjunction.as_vec());
}
