use init_tree::{Cache, Init, InitTree, TypeInitDef, CACHE_VERSION};

// Two families over the same identities with opposite dependencies.
//
//   Down:  1 -> 2 -> 3        Up:  3 -> 2 -> 1
#[derive(PartialEq, Eq, Debug)]
struct Down(u64);

impl Init for Down {
    fn self_def(id: u64) -> TypeInitDef {
        let deps = if id < 3 { vec![id + 1] } else { vec![] };
        TypeInitDef::new(id, deps, format!("down{}", id))
    }

    fn init(id: u64, handles: Vec<Self>) -> (Option<Self>, Vec<Self>) {
        (Some(Down(id)), handles)
    }
}

#[derive(PartialEq, Eq, Debug)]
struct Up(u64);

impl Init for Up {
    fn self_def(id: u64) -> TypeInitDef {
        let deps = if id > 1 { vec![id - 1] } else { vec![] };
        TypeInitDef::new(id, deps, format!("up{}", id))
    }

    fn init(id: u64, handles: Vec<Self>) -> (Option<Self>, Vec<Self>) {
        (Some(Up(id)), handles)
    }
}

fn down_tree() -> InitTree<Down> {
    let mut tree = InitTree::new();
    tree.add(1).unwrap();
    tree
}

fn up_tree() -> InitTree<Up> {
    let mut tree = InitTree::new();
    tree.add(3).unwrap();
    tree
}

#[test]
fn cache_records_the_slot_of_every_step() {
    let mut tree = down_tree();
    tree.enable_caching(true);
    let mut done = tree.init().unwrap();
    // pending is [1, 2, 3]: only slot 2 is ready in the first sweep, then
    // slot 1, then slot 0
    let cache = done.take_cache().unwrap();
    assert_eq!(cache.into_parts(), (CACHE_VERSION, vec![2, 1, 0]));
}

#[test]
fn cache_of_a_sweep_that_constructs_everything_at_once() {
    let mut tree = up_tree();
    tree.enable_caching(true);
    let mut done = tree.init().unwrap();
    // pending is [1, 2, 3]: slot 0 is ready; 3 moves into it and waits, so
    // slot 1 is next, and then slot 0 again
    assert_eq!(done.take_cache().unwrap().into_parts().1, vec![0, 1, 0]);
    assert!(!done.cache_was_correct());
}

#[test]
fn cache_round_trip_is_correct() {
    let mut tree = down_tree();
    tree.enable_caching(true);
    let mut first = tree.init().unwrap();
    let cache = first.take_cache().unwrap();
    assert!(!first.cache_was_correct());

    let mut tree = down_tree();
    assert!(tree.load_cache(cache.clone()).is_none());
    let mut second = tree.init().unwrap();
    assert!(second.cache_was_correct());
    assert_eq!(second.take_cache().unwrap().into_parts(), cache.into_parts());
    for id in [1, 2, 3] {
        assert_eq!(first.take(id), second.take(id));
    }
}

#[test]
fn cache_of_another_graph_is_found_wrong() {
    let mut tree = down_tree();
    tree.enable_caching(true);
    let cache = tree.init().unwrap().take_cache().unwrap();

    let mut tree = up_tree();
    tree.load_cache(cache);
    let mut done = tree.init().unwrap();
    assert!(!done.cache_was_correct());
    for id in [1, 2, 3] {
        assert_eq!(done.take(id), Some(Up(id)));
    }
    // the cache was rebuilt for this graph
    assert_eq!(done.take_cache().unwrap().into_parts().1, vec![0, 1, 0]);
}

#[test]
fn cache_with_a_step_out_of_range_is_found_wrong() {
    let mut tree = down_tree();
    tree.load_cache(Cache::from_parts(CACHE_VERSION, vec![2, 7, 0]).unwrap());
    let mut done = tree.init().unwrap();
    assert!(!done.cache_was_correct());
    assert_eq!(done.take_cache().unwrap().into_parts().1, vec![2, 1, 0]);
    assert_eq!(done.take(1), Some(Down(1)));
}

#[test]
fn cache_that_stops_short_is_found_wrong() {
    let mut tree = down_tree();
    tree.load_cache(Cache::from_parts(CACHE_VERSION, vec![2, 1]).unwrap());
    let mut done = tree.init().unwrap();
    assert!(!done.cache_was_correct());
    assert_eq!(done.take_cache().unwrap().into_parts().1, vec![2, 1, 0]);
}

#[test]
fn without_caching_there_is_no_cache() {
    let mut done = down_tree().init().unwrap();
    assert!(!done.cache_was_correct());
    assert!(done.take_cache().is_none());
}

#[test]
fn an_empty_tree_finds_an_empty_cache_correct() {
    let mut tree: InitTree<Down> = InitTree::new();
    tree.enable_caching(true);
    let mut done = tree.init().unwrap();
    assert!(done.cache_was_correct());
    assert_eq!(done.take_cache().unwrap().into_parts().1, Vec::<usize>::new());
}

#[test]
fn the_cache_is_taken_once() {
    let mut tree = down_tree();
    tree.enable_caching(true);
    let mut done = tree.init().unwrap();
    assert!(done.take_cache().is_some());
    assert!(done.take_cache().is_none());
}

#[test]
fn enabling_caching_keeps_a_loaded_cache() {
    let mut tree = down_tree();
    tree.load_cache(Cache::from_parts(CACHE_VERSION, vec![2, 1, 0]).unwrap());
    tree.enable_caching(true);
    let done = tree.init().unwrap();
    assert!(done.cache_was_correct());
}

#[test]
fn disabling_caching_drops_the_cache() {
    let mut tree = down_tree();
    tree.load_cache(Cache::from_parts(CACHE_VERSION, vec![2, 1, 0]).unwrap());
    tree.enable_caching(false);
    let mut done = tree.init().unwrap();
    assert!(!done.cache_was_correct());
    assert!(done.take_cache().is_none());
}

#[test]
fn loading_a_cache_returns_the_one_before() {
    let mut tree = down_tree();
    assert!(tree.load_cache(Cache::from_parts(CACHE_VERSION, vec![5]).unwrap()).is_none());
    let prior = tree.load_cache(Cache::default()).unwrap();
    assert_eq!(prior.into_parts().1, vec![5]);
}

#[test]
fn an_unknown_version_gives_no_cache() {
    assert!(Cache::from_parts(CACHE_VERSION + 1, vec![0]).is_none());
    assert!(Cache::from_parts(0, vec![]).is_none());
}

#[test]
fn a_cache_goes_apart_and_together() {
    let cache = Cache::from_steps(vec![3, 1, 4]);
    let (version, steps) = cache.into_parts();
    assert_eq!(version, 1);
    assert_eq!(steps, vec![3, 1, 4]);
    let again = Cache::from_parts(version, steps).unwrap();
    assert_eq!(again.clone().into_parts(), (1, vec![3, 1, 4]));
    assert_eq!(again.into_parts(), (CACHE_VERSION, vec![3, 1, 4]));
    assert_eq!(Cache::default().into_parts(), (CACHE_VERSION, vec![]));
}

// Components that depend on nothing.
#[derive(PartialEq, Eq, Debug)]
struct Loose(u64);

impl Init for Loose {
    fn self_def(id: u64) -> TypeInitDef {
        TypeInitDef::standalone(id)
    }

    fn init(id: u64, handles: Vec<Self>) -> (Option<Self>, Vec<Self>) {
        (Some(Loose(id)), handles)
    }
}

#[test]
fn a_cache_that_fits_another_graph_is_found_correct() {
    let mut tree: InitTree<Loose> = InitTree::new();
    tree.add(1).unwrap();
    tree.add(2).unwrap();
    tree.enable_caching(true);
    let cache = tree.init().unwrap().take_cache().unwrap();
    assert_eq!(cache.clone().into_parts().1, vec![0, 0]);

    // other components, but the steps can be carried out all the same
    let mut tree: InitTree<Loose> = InitTree::new();
    tree.add(1).unwrap();
    tree.add(3).unwrap();
    tree.load_cache(cache);
    let mut done = tree.init().unwrap();
    assert!(done.cache_was_correct());
    assert_eq!(done.take(3), Some(Loose(3)));
    assert_eq!(done.take(2), None);
}

#[test]
fn a_cache_for_fewer_components_is_found_wrong() {
    let mut tree: InitTree<Loose> = InitTree::new();
    tree.add(1).unwrap();
    tree.enable_caching(true);
    let cache = tree.init().unwrap().take_cache().unwrap();

    let mut tree: InitTree<Loose> = InitTree::new();
    tree.add(1).unwrap();
    tree.add(2).unwrap();
    tree.load_cache(cache);
    let mut done = tree.init().unwrap();
    // every step of the cache was right, but something was left to do
    assert!(!done.cache_was_correct());
    assert_eq!(done.take_cache().unwrap().into_parts().1, vec![0, 0]);
}
