use init_tree::{
    deep_deps_list, deps_list, Init, InitError, InitTree, TypeInitDef, MAX_TREE_DEPTH,
};

// A small family whose instances record what their constructors observed.
//
//   TOP -> LEFT, RIGHT      LEFT -> SHARED      RIGHT -> SHARED
//   LOOP_SELF -> LOOP_SELF  LOOP_A -> LOOP_B    LOOP_B -> LOOP_A
//   ABOVE_LOOP -> LOOP_A    CHAIN_1 -> CHAIN_2 -> CHAIN_3
//   TWICE -> SHARED, SHARED
const TOP: u64 = 40;
const LEFT: u64 = 30;
const RIGHT: u64 = 20;
const SHARED: u64 = 10;
const LOOP_SELF: u64 = 50;
const LOOP_A: u64 = 51;
const LOOP_B: u64 = 52;
const ABOVE_LOOP: u64 = 53;
const CHAIN_1: u64 = 61;
const CHAIN_2: u64 = 62;
const CHAIN_3: u64 = 63;
const TWICE: u64 = 70;

#[derive(Clone, PartialEq, Eq, Debug)]
struct Part {
    id: u64,
    value: u32,
}

fn deps(id: u64) -> Vec<u64> {
    match id {
        TOP => vec![LEFT, RIGHT],
        LEFT => vec![SHARED],
        RIGHT => vec![SHARED],
        LOOP_SELF => vec![LOOP_SELF],
        LOOP_A => vec![LOOP_B],
        LOOP_B => vec![LOOP_A],
        ABOVE_LOOP => vec![LOOP_A],
        CHAIN_1 => vec![CHAIN_2],
        CHAIN_2 => vec![CHAIN_3],
        TWICE => vec![SHARED, SHARED],
        _ => vec![],
    }
}

impl Init for Part {
    fn self_def(id: u64) -> TypeInitDef {
        TypeInitDef::new(id, deps(id), format!("part{}", id))
    }

    fn init(id: u64, mut handles: Vec<Self>) -> (Option<Self>, Vec<Self>) {
        let built = match id {
            SHARED => Some(Part { id, value: 100 }),
            LEFT => {
                handles[0].value += 1;
                Some(Part { id, value: handles[0].value })
            }
            RIGHT => {
                handles[0].value += 10;
                Some(Part { id, value: handles[0].value })
            }
            TOP => Some(Part { id, value: handles[0].value + handles[1].value }),
            _ => Some(Part { id, value: 0 }),
        };
        (built, handles)
    }
}

fn ids_of(defs: &[TypeInitDef]) -> Vec<u64> {
    defs.iter().map(|d| d.id).collect()
}

#[test]
fn deps_list_gives_the_direct_dependencies_in_order() {
    let defs = deps_list::<Part>(TOP);
    assert_eq!(ids_of(&defs), vec![LEFT, RIGHT]);
    assert_eq!(defs[0].deps, vec![SHARED]);
    assert_eq!(defs[0].name, "part30");
    assert_eq!(defs[1].name, "part20");
    assert!(deps_list::<Part>(SHARED).is_empty());
}

#[test]
fn deep_deps_list_walks_every_chain() {
    let mut t = vec![Part::self_def(TOP)];
    let r = deep_deps_list::<Part>(TOP, &mut t, 0, 500);
    assert!(r.is_ok());
    // direct dependencies first, then what each of them depends on
    assert_eq!(ids_of(&t), vec![TOP, LEFT, RIGHT, SHARED, SHARED]);
}

#[test]
fn deep_deps_list_keeps_what_was_collected_before() {
    let mut t = vec![Part::self_def(SHARED), Part::self_def(CHAIN_1)];
    let r = deep_deps_list::<Part>(CHAIN_1, &mut t, 0, 500);
    assert!(r.is_ok());
    assert_eq!(ids_of(&t), vec![SHARED, CHAIN_1, CHAIN_2, CHAIN_3]);
}

#[test]
fn a_chain_fits_a_ceiling_of_its_length() {
    // CHAIN_1 -> CHAIN_2 -> CHAIN_3 has three components
    let mut tree: InitTree<Part> = InitTree::with_max_depth(3);
    assert!(tree.add(CHAIN_1).is_ok());
    let mut done = tree.init().unwrap();
    assert!(done.take(CHAIN_1).is_some());
    assert!(done.take(CHAIN_2).is_some());
    assert!(done.take(CHAIN_3).is_some());
}

#[test]
fn a_chain_longer_than_the_ceiling_is_refused() {
    let mut tree: InitTree<Part> = InitTree::with_max_depth(2);
    match tree.add(CHAIN_1) {
        Err(InitError::DependencyTooDeep { tree }) => {
            assert_eq!(tree, "part61, part62, part63");
        }
        other => panic!("unexpected outcome: {:?}", other),
    }
    // the shorter chain below it still fits
    assert!(tree.add(CHAIN_2).is_ok());
}

#[test]
fn a_ceiling_of_zero_refuses_everything() {
    let mut tree: InitTree<Part> = InitTree::with_max_depth(0);
    match tree.add(SHARED) {
        Err(InitError::DependencyTooDeep { tree }) => assert_eq!(tree, "part10"),
        other => panic!("unexpected outcome: {:?}", other),
    }
}

#[test]
fn a_visit_at_the_ceiling_fails_with_what_was_collected() {
    let mut t = vec![Part::self_def(SHARED)];
    let r = deep_deps_list::<Part>(SHARED, &mut t, 7, 7);
    match r {
        Err(InitError::DependencyTooDeep { tree }) => assert_eq!(tree, "part10"),
        other => panic!("unexpected outcome: {:?}", other),
    }
    assert_eq!(ids_of(&t), vec![SHARED]);
}

#[test]
fn self_dependency_is_too_deep() {
    let mut tree: InitTree<Part> = InitTree::new();
    match tree.add(LOOP_SELF) {
        Err(InitError::DependencyTooDeep { .. }) => {}
        other => panic!("unexpected outcome: {:?}", other),
    }
}

#[test]
fn self_dependency_is_too_deep_whatever_else_is_registered() {
    let mut tree: InitTree<Part> = InitTree::new();
    tree.add(TOP).unwrap();
    tree.add(CHAIN_1).unwrap();
    assert!(matches!(tree.add(LOOP_SELF), Err(InitError::DependencyTooDeep { .. })));
}

#[test]
fn self_dependency_names_the_chain() {
    let mut tree: InitTree<Part> = InitTree::with_max_depth(2);
    match tree.add(LOOP_SELF) {
        Err(e) => {
            assert_eq!(
                e.message(),
                "Dependency tree too deep, this is usually due to a circular dependency. \
                 Current tree: [part50, part50, part50]"
            );
        }
        Ok(()) => panic!("a cycle was accepted"),
    }
}

#[test]
fn mutual_dependency_is_too_deep() {
    let mut tree: InitTree<Part> = InitTree::new();
    assert!(matches!(tree.add(LOOP_A), Err(InitError::DependencyTooDeep { .. })));
    assert!(matches!(tree.add(LOOP_B), Err(InitError::DependencyTooDeep { .. })));
}

#[test]
fn a_cycle_below_a_component_is_too_deep() {
    let mut tree: InitTree<Part> = InitTree::new();
    assert!(matches!(tree.add(ABOVE_LOOP), Err(InitError::DependencyTooDeep { .. })));
}

#[test]
fn a_refused_registration_leaves_the_tree_as_it_was() {
    let mut tree: InitTree<Part> = InitTree::new();
    tree.add(LEFT).unwrap();
    assert!(tree.add(LOOP_A).is_err());
    let done = tree.init().unwrap();
    let mut all: Vec<u64> = done.take_all().into_iter().map(|(id, _)| id).collect();
    all.sort();
    assert_eq!(all, vec![SHARED, LEFT]);
}

#[test]
fn diamond_constructs_the_shared_component_once() {
    let mut tree: InitTree<Part> = InitTree::new();
    tree.add(TOP).unwrap();
    let mut done = tree.init().unwrap();
    // RIGHT (20) is constructed before LEFT (30): both changed the one
    // instance of SHARED, and each saw what the other had done before it.
    assert_eq!(done.take(SHARED), Some(Part { id: SHARED, value: 111 }));
    assert_eq!(done.take(RIGHT), Some(Part { id: RIGHT, value: 110 }));
    assert_eq!(done.take(LEFT), Some(Part { id: LEFT, value: 111 }));
    assert_eq!(done.take(TOP), Some(Part { id: TOP, value: 221 }));
    assert_eq!(done.take(SHARED), None);
}

#[test]
fn every_registered_component_is_taken_exactly_once() {
    let mut tree: InitTree<Part> = InitTree::new();
    tree.add(TOP).unwrap();
    tree.add(CHAIN_1).unwrap();
    let mut done = tree.init().unwrap();
    for id in [TOP, LEFT, RIGHT, SHARED, CHAIN_1, CHAIN_2, CHAIN_3] {
        assert!(done.take(id).is_some());
        assert!(done.take(id).is_none());
    }
    assert!(done.take_all().is_empty());
}

#[test]
fn resolution_does_not_depend_on_the_order_of_registration() {
    let mut forward: InitTree<Part> = InitTree::new();
    for id in [CHAIN_1, CHAIN_2, CHAIN_3, SHARED] {
        forward.add(id).unwrap();
    }
    let mut backward: InitTree<Part> = InitTree::new();
    for id in [SHARED, CHAIN_3, CHAIN_2, CHAIN_1] {
        backward.add(id).unwrap();
    }
    let mut first = forward.init().unwrap().take_all();
    let mut second = backward.init().unwrap().take_all();
    first.sort_by_key(|(id, _)| *id);
    second.sort_by_key(|(id, _)| *id);
    assert_eq!(first, second);
    assert_eq!(first.len(), 4);
}

#[test]
fn a_dependency_listed_twice_is_a_conflict() {
    let mut tree: InitTree<Part> = InitTree::new();
    tree.add(TWICE).unwrap();
    match tree.init() {
        Err(InitError::ConcurrentBorrowConflict { name }) => assert_eq!(name, "part70"),
        Err(other) => panic!("unexpected failure: {:?}", other),
        Ok(_) => panic!("two handles to one instance were granted"),
    }
}

#[test]
fn an_empty_tree_resolves_to_nothing() {
    let tree: InitTree<Part> = InitTree::new();
    let done = tree.init().unwrap();
    assert!(done.take_all().is_empty());
}

#[test]
fn default_and_clone_give_equal_trees() {
    let mut tree: InitTree<Part> = InitTree::default();
    tree.add(LEFT).unwrap();
    let copy = tree.clone();
    let mut a = tree.init().unwrap();
    let mut b = copy.init().unwrap();
    assert_eq!(a.take(LEFT), b.take(LEFT));
    assert_eq!(a.take(SHARED), b.take(SHARED));
}

// Two chains: 1 -> 2 -> ... -> 500 and 1001 -> 1002 -> ... -> 1501.
#[derive(PartialEq, Eq, Debug)]
struct Link(u64);

impl Init for Link {
    fn self_def(id: u64) -> TypeInitDef {
        let deps = if id < 500 || (1001 <= id && id < 1501) { vec![id + 1] } else { vec![] };
        TypeInitDef::new(id, deps, format!("link{}", id))
    }

    fn init(id: u64, handles: Vec<Self>) -> (Option<Self>, Vec<Self>) {
        (Some(Link(id)), handles)
    }
}

#[test]
fn the_default_ceiling_admits_a_chain_of_five_hundred() {
    assert_eq!(MAX_TREE_DEPTH, 500);
    let mut tree: InitTree<Link> = InitTree::new();
    tree.add(1).unwrap();
    let mut done = tree.init().unwrap();
    assert_eq!(done.take(1), Some(Link(1)));
    assert_eq!(done.take(500), Some(Link(500)));
    assert_eq!(done.take(501), None);
}

#[test]
fn the_default_ceiling_refuses_a_chain_of_five_hundred_and_one() {
    let mut tree: InitTree<Link> = InitTree::new();
    assert!(matches!(tree.add(1001), Err(InitError::DependencyTooDeep { .. })));
    // one component further down the chain is short enough
    assert!(tree.add(1002).is_ok());
}
