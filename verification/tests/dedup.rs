use init_tree::dedup::sort_dedup;
use init_tree::TypeInitDef;

fn def(id: u64, name: &str) -> TypeInitDef {
    TypeInitDef::new(id, vec![id % 100 + 100], name.to_string())
}

fn content(defs: &[TypeInitDef]) -> Vec<(u64, String)> {
    defs.iter().map(|d| (d.id, d.name.clone())).collect()
}

#[test]
fn sort_dedup_sorts_and_keeps_the_first_of_each_identity() {
    let out = sort_dedup(vec![
        def(3, "c"),
        def(1, "a"),
        def(3, "c again"),
        def(2, "b"),
        def(1, "a again"),
        def(3, "c once more"),
    ]);
    assert_eq!(
        content(&out),
        vec![(1, "a".to_string()), (2, "b".to_string()), (3, "c".to_string())]
    );
    assert_eq!(out[0].deps, vec![101]);
}

#[test]
fn sort_dedup_of_nothing_is_nothing() {
    assert!(sort_dedup(Vec::new()).is_empty());
}

#[test]
fn sort_dedup_leaves_an_ascending_list_as_it_is() {
    let out = sort_dedup(vec![def(1, "a"), def(5, "e"), def(9, "i")]);
    assert_eq!(
        content(&out),
        vec![(1, "a".to_string()), (5, "e".to_string()), (9, "i".to_string())]
    );
}

#[test]
fn sort_dedup_reverses_a_descending_list() {
    let out = sort_dedup(vec![def(u64::MAX, "top"), def(7, "seven"), def(0, "zero")]);
    assert_eq!(
        content(&out),
        vec![(0, "zero".to_string()), (7, "seven".to_string()), (u64::MAX, "top".to_string())]
    );
}
