use init_tree::engine::{attempt, Attempt};
use init_tree::{get_type_names, Init, InitError, InitTree, InitializedTree, TypeInitDef};
use std::collections::HashMap;

// LATE (1) needs GATE (2) and declines until OPENER (3), which needs GATE
// too, has opened it. NEVER (4) always declines. ABOVE (5) needs NEVER.
const LATE: u64 = 1;
const GATE: u64 = 2;
const OPENER: u64 = 3;
const NEVER: u64 = 4;
const ABOVE: u64 = 5;
const TWICE: u64 = 6;
const APART: u64 = 7;
const ORDERED: u64 = 8;

#[derive(PartialEq, Eq, Debug)]
struct Flag {
    id: u64,
    open: bool,
}

impl Init for Flag {
    fn self_def(id: u64) -> TypeInitDef {
        let (deps, name) = match id {
            LATE => (vec![GATE], "Late"),
            GATE => (vec![], "Gate"),
            OPENER => (vec![GATE], "Opener"),
            NEVER => (vec![], "Never"),
            ABOVE => (vec![NEVER], "Above"),
            TWICE => (vec![GATE, GATE], "Twice"),
            APART => (vec![NEVER, GATE, GATE], "Apart"),
            ORDERED => (vec![OPENER, GATE], "Ordered"),
            _ => (vec![], "<Unknown Type>"),
        };
        TypeInitDef::new(id, deps, name.to_string())
    }

    fn init(id: u64, mut handles: Vec<Self>) -> (Option<Self>, Vec<Self>) {
        let built = match id {
            LATE => {
                if handles[0].open {
                    Some(Flag { id, open: true })
                } else {
                    None
                }
            }
            OPENER => {
                handles[0].open = true;
                Some(Flag { id, open: false })
            }
            NEVER => None,
            ORDERED => {
                // accepts only the instances of its own dependencies, in
                // the order in which it lists them
                if handles.len() == 2 && handles[0].id == OPENER && handles[1].id == GATE {
                    handles[0].open = true;
                    Some(Flag { id, open: handles[1].open })
                } else {
                    None
                }
            }
            _ => Some(Flag { id, open: false }),
        };
        (built, handles)
    }
}

#[test]
fn a_component_that_declines_is_tried_again() {
    let mut tree: InitTree<Flag> = InitTree::new();
    tree.add(LATE).unwrap();
    tree.add(OPENER).unwrap();
    tree.enable_caching(true);
    let mut done = tree.init().unwrap();
    assert_eq!(done.take(LATE), Some(Flag { id: LATE, open: true }));
    assert_eq!(done.take(GATE), Some(Flag { id: GATE, open: true }));
    // pending is [Late, Gate, Opener]: Gate in slot 1, then Opener, which
    // moved into slot 1, and Late only in the second sweep
    assert_eq!(done.take_cache().unwrap().into_parts().1, vec![1, 1, 0]);
}

#[test]
fn a_component_that_never_accepts_is_reported() {
    let mut tree: InitTree<Flag> = InitTree::new();
    tree.add(ABOVE).unwrap();
    tree.add(GATE).unwrap();
    match tree.init() {
        Err(InitError::UnresolvedDependencies { locked }) => {
            // pending is [Gate, Never, Above]; when Gate leaves slot 0, the
            // last descriptor, Above, moves into it
            assert_eq!(locked, "Above, Never");
        }
        Err(other) => panic!("unexpected failure: {:?}", other),
        Ok(_) => panic!("resolved what cannot be resolved"),
    }
}

#[test]
fn the_failure_names_what_is_locked() {
    let mut tree: InitTree<Flag> = InitTree::new();
    tree.add(NEVER).unwrap();
    let e = tree.init().err().unwrap();
    assert_eq!(e.message(), "Unable to resolve initialization tree. Locked on [Never]");
}

#[test]
fn a_late_component_without_its_opener_is_reported() {
    let mut tree: InitTree<Flag> = InitTree::new();
    tree.add(LATE).unwrap();
    match tree.init() {
        Err(InitError::UnresolvedDependencies { locked }) => assert_eq!(locked, "Late"),
        Err(other) => panic!("unexpected failure: {:?}", other),
        Ok(_) => panic!("resolved what cannot be resolved"),
    }
}

#[test]
fn a_conflict_is_fatal_and_named() {
    let mut tree: InitTree<Flag> = InitTree::new();
    tree.add(TWICE).unwrap();
    let e = tree.init().err().unwrap();
    assert!(matches!(e, InitError::ConcurrentBorrowConflict { .. }));
    assert_eq!(
        e.message(),
        "Unable to hand out a dependency twice at once. Requested by [Twice]"
    );
}

#[test]
fn a_cached_step_with_a_conflict_is_fatal() {
    let mut tree: InitTree<Flag> = InitTree::new();
    tree.add(TWICE).unwrap();
    // pending is [Gate, Twice]: the first step constructs Gate, Twice moves
    // nowhere and is slot 0 afterwards
    tree.load_cache(init_tree::Cache::from_steps(vec![0, 0]));
    match tree.init() {
        Err(InitError::ConcurrentBorrowConflict { name }) => assert_eq!(name, "Twice"),
        Err(other) => panic!("unexpected failure: {:?}", other),
        Ok(_) => panic!("two handles to one instance were granted"),
    }
}

fn held(ids: &[u64]) -> HashMap<u64, Flag> {
    ids.iter().map(|id| (*id, Flag { id: *id, open: false })).collect()
}

#[test]
fn attempt_builds_and_returns_the_handles() {
    let mut resolved = held(&[GATE]);
    match attempt::<Flag>(&Flag::self_def(OPENER), &mut resolved) {
        Attempt::Built(instance) => assert_eq!(instance, Flag { id: OPENER, open: false }),
        _ => panic!("not built"),
    }
    // the constructor changed the instance that it was handed
    assert_eq!(resolved.len(), 1);
    assert_eq!(resolved[&GATE], Flag { id: GATE, open: true });
}

#[test]
fn attempt_hands_over_the_instances_in_the_order_of_the_descriptor() {
    let mut resolved = held(&[GATE, OPENER, NEVER]);
    match attempt::<Flag>(&Flag::self_def(ORDERED), &mut resolved) {
        Attempt::Built(instance) => assert_eq!(instance, Flag { id: ORDERED, open: false }),
        _ => panic!("not built"),
    }
    // each handle came back under its own identity
    assert_eq!(resolved.len(), 3);
    assert_eq!(resolved[&OPENER], Flag { id: OPENER, open: true });
    assert_eq!(resolved[&GATE], Flag { id: GATE, open: false });
    assert_eq!(resolved[&NEVER], Flag { id: NEVER, open: false });
}

#[test]
fn a_constructor_that_reads_its_handles_is_resolved() {
    let mut tree: InitTree<Flag> = InitTree::new();
    tree.add(ORDERED).unwrap();
    let mut done = tree.init().unwrap();
    assert_eq!(done.take(ORDERED), Some(Flag { id: ORDERED, open: true }));
    assert_eq!(done.take(OPENER), Some(Flag { id: OPENER, open: true }));
    assert_eq!(done.take(GATE), Some(Flag { id: GATE, open: true }));
}

#[test]
fn attempt_without_a_dependency_is_not_ready() {
    let mut resolved = held(&[NEVER]);
    assert!(matches!(attempt::<Flag>(&Flag::self_def(OPENER), &mut resolved), Attempt::NotReady));
    assert_eq!(resolved.len(), 1);
}

#[test]
fn attempt_that_the_constructor_declines_is_not_ready() {
    let mut resolved = held(&[GATE]);
    assert!(matches!(attempt::<Flag>(&Flag::self_def(LATE), &mut resolved), Attempt::NotReady));
    assert_eq!(resolved[&GATE], Flag { id: GATE, open: false });
}

#[test]
fn attempt_with_a_repeated_dependency_is_a_conflict() {
    let mut resolved = held(&[GATE]);
    assert!(matches!(attempt::<Flag>(&Flag::self_def(TWICE), &mut resolved), Attempt::Conflict));
    assert_eq!(resolved[&GATE], Flag { id: GATE, open: false });
}

#[test]
fn attempt_meets_the_missing_dependency_before_the_repeated_one() {
    // Apart asks for Never first, which has no instance
    let mut resolved = held(&[GATE]);
    assert!(matches!(attempt::<Flag>(&Flag::self_def(APART), &mut resolved), Attempt::NotReady));
    let mut resolved = held(&[GATE, NEVER]);
    assert!(matches!(attempt::<Flag>(&Flag::self_def(APART), &mut resolved), Attempt::Conflict));
    assert_eq!(resolved.len(), 2);
}

#[test]
fn get_type_names_joins_with_comma_and_space() {
    let defs = vec![Flag::self_def(LATE), Flag::self_def(GATE), Flag::self_def(OPENER)];
    assert_eq!(get_type_names(&defs), "Late, Gate, Opener");
    assert_eq!(get_type_names(&defs[..1].to_vec()), "Late");
    assert_eq!(get_type_names(&Vec::new()), "");
}

#[test]
fn a_descriptor_holds_what_it_was_made_of() {
    let def = TypeInitDef::new(9, vec![3, 4], "Nine".to_string());
    assert_eq!(def.id, 9);
    assert_eq!(def.deps, vec![3, 4]);
    assert_eq!(def.name, "Nine");
    let copy = def.clone();
    assert_eq!(copy.id, 9);
    assert_eq!(copy.deps, vec![3, 4]);
    assert_eq!(copy.name, "Nine");
}

#[test]
fn a_standalone_descriptor_depends_on_nothing() {
    let def = TypeInitDef::standalone(12);
    assert_eq!(def.id, 12);
    assert!(def.deps.is_empty());
    assert_eq!(def.name, "<Unknown Type>");
}

#[test]
fn messages_of_all_failures() {
    let deep = InitError::DependencyTooDeep { tree: "A, B".to_string() };
    assert_eq!(
        deep.message(),
        "Dependency tree too deep, this is usually due to a circular dependency. \
         Current tree: [A, B]"
    );
    let locked = InitError::UnresolvedDependencies { locked: "C".to_string() };
    assert_eq!(locked.message(), "Unable to resolve initialization tree. Locked on [C]");
    let twice = InitError::ConcurrentBorrowConflict { name: "D".to_string() };
    assert_eq!(
        twice.message(),
        "Unable to hand out a dependency twice at once. Requested by [D]"
    );
}

#[test]
fn take_by_type_id_hands_out_once() {
    let mut tree: InitTree<Flag> = InitTree::new();
    tree.add(OPENER).unwrap();
    let mut done = tree.init().unwrap();
    assert_eq!(done.take_by_type_id(OPENER), Some(Flag { id: OPENER, open: false }));
    assert_eq!(done.take_by_type_id(OPENER), None);
    assert_eq!(done.take(GATE), Some(Flag { id: GATE, open: true }));
    assert_eq!(done.take_by_type_id(GATE), None);
    assert_eq!(done.take_by_type_id(NEVER), None);
}

#[test]
fn take_all_hands_out_what_is_left() {
    let mut tree: InitTree<Flag> = InitTree::new();
    tree.add(OPENER).unwrap();
    tree.add(LATE).unwrap();
    let mut done = tree.init().unwrap();
    assert!(done.take(LATE).is_some());
    let mut rest = done.take_all();
    rest.sort_by_key(|(id, _)| *id);
    assert_eq!(
        rest,
        vec![(GATE, Flag { id: GATE, open: true }), (OPENER, Flag { id: OPENER, open: false })]
    );
}

#[test]
fn a_default_container_is_empty() {
    let mut done: InitializedTree<Flag> = InitializedTree::default();
    assert_eq!(done.take(GATE), None);
    assert!(!done.cache_was_correct());
    assert!(done.take_cache().is_none());
    assert!(done.take_all().is_empty());
}
