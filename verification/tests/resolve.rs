use init_tree::{Init, InitTree, TypeInitDef};

#[derive(PartialEq, Eq, Debug)]
struct InitA {
    b: i32,
    c: i32,
    d: i32,
}

#[derive(Default, PartialEq, Eq, Debug)]
struct InitB;

impl InitB {
    fn get_handle(&self) -> i32 {
        5
    }
}

#[derive(Default, PartialEq, Eq, Debug)]
struct InitC;

impl InitC {
    fn get_handle(&self) -> i32 {
        7
    }
}

#[derive(PartialEq, Eq, Debug)]
struct InitD(i32);

#[derive(Default, PartialEq, Eq, Debug)]
struct InitE;

impl InitE {
    fn get_handle(&self) -> i32 {
        10
    }
}

const INIT_A: u64 = 1;
const INIT_B: u64 = 2;
const INIT_C: u64 = 3;
const INIT_D: u64 = 4;
const INIT_E: u64 = 5;

#[derive(PartialEq, Eq, Debug)]
enum Basic {
    A(InitA),
    B(InitB),
    C(InitC),
    D(InitD),
    E(InitE),
}

impl Init for Basic {
    fn self_def(id: u64) -> TypeInitDef {
        match id {
            INIT_A => TypeInitDef::new(id, vec![INIT_B, INIT_C, INIT_D], "InitA".to_string()),
            INIT_B => TypeInitDef::new(id, vec![], "InitB".to_string()),
            INIT_C => TypeInitDef::new(id, vec![], "InitC".to_string()),
            INIT_D => TypeInitDef::new(id, vec![INIT_E], "InitD".to_string()),
            INIT_E => TypeInitDef::new(id, vec![], "InitE".to_string()),
            _ => TypeInitDef::standalone(id),
        }
    }

    fn init(id: u64, mut handles: Vec<Self>) -> (Option<Self>, Vec<Self>) {
        let built = match id {
            INIT_A => match handles.as_mut_slice() {
                [Basic::B(b), Basic::C(c), Basic::D(d)] => Some(Basic::A(InitA {
                    b: b.get_handle(),
                    c: c.get_handle(),
                    d: d.0,
                })),
                _ => None,
            },
            INIT_B => Some(Basic::B(InitB)),
            INIT_C => Some(Basic::C(InitC)),
            INIT_D => match handles.as_mut_slice() {
                [Basic::E(e)] => Some(Basic::D(InitD(e.get_handle()))),
                _ => None,
            },
            INIT_E => Some(Basic::E(InitE)),
            _ => None,
        };
        (built, handles)
    }
}

#[test]
fn test_basic_init() {
    let mut tree: InitTree<Basic> = InitTree::new();
    tree.add(INIT_A).unwrap();
    let mut vals = tree.init().unwrap();
    assert_eq!(vals.take(INIT_A), Some(Basic::A(InitA { b: 5, c: 7, d: 10 })));
    assert_eq!(vals.take(INIT_B), Some(Basic::B(InitB)));
    assert_eq!(vals.take(INIT_C), Some(Basic::C(InitC)));
    assert_eq!(vals.take(INIT_D), Some(Basic::D(InitD(10))));
    assert_eq!(vals.take(INIT_E), Some(Basic::E(InitE)));
}

const CANT_INIT_A: u64 = 1;
const CANT_INIT_B: u64 = 2;

#[derive(PartialEq, Eq, Debug)]
enum Cyclic {
    CantInitA,
    CantInitB,
}

impl Init for Cyclic {
    fn self_def(id: u64) -> TypeInitDef {
        match id {
            CANT_INIT_A => TypeInitDef::new(id, vec![CANT_INIT_B], "CantInitA".to_string()),
            _ => TypeInitDef::new(id, vec![CANT_INIT_A], "CantInitB".to_string()),
        }
    }

    fn init(id: u64, handles: Vec<Self>) -> (Option<Self>, Vec<Self>) {
        let built = match id {
            CANT_INIT_A => Some(Cyclic::CantInitA),
            _ => Some(Cyclic::CantInitB),
        };
        (built, handles)
    }
}

#[test]
#[should_panic]
fn test_panic() {
    let mut tree: InitTree<Cyclic> = InitTree::new();
    tree.add(CANT_INIT_A).unwrap();
    tree.init().unwrap();
}

const BASE_CORE: u64 = 10;
const CORE: u64 = 11;
const LEVEL_ONE: u64 = 12;
const LEVEL_TWO: u64 = 13;
const LEVEL_THREE: u64 = 14;
const LEVEL_FOUR: u64 = 15;
const SELF_DEP: u64 = 16;

#[derive(PartialEq, Eq, Debug)]
enum Layers {
    BaseCoreInit,
    CoreInit,
    LevelOneInit,
    LevelTwoInit,
    LevelThreeInit,
    LevelFourInit,
    SelfDep,
}

impl Init for Layers {
    fn self_def(id: u64) -> TypeInitDef {
        match id {
            BASE_CORE => TypeInitDef::new(id, vec![], "BaseCoreInit".to_string()),
            CORE => TypeInitDef::new(id, vec![BASE_CORE], "CoreInit".to_string()),
            LEVEL_ONE => TypeInitDef::new(id, vec![CORE], "LevelOneInit".to_string()),
            LEVEL_TWO => TypeInitDef::new(id, vec![CORE, LEVEL_ONE], "LevelTwoInit".to_string()),
            LEVEL_THREE => {
                TypeInitDef::new(id, vec![CORE, LEVEL_TWO], "LevelThreeInit".to_string())
            }
            LEVEL_FOUR => {
                TypeInitDef::new(id, vec![CORE, LEVEL_THREE], "LevelFourInit".to_string())
            }
            SELF_DEP => TypeInitDef::new(id, vec![SELF_DEP], "SelfDep".to_string()),
            _ => TypeInitDef::standalone(id),
        }
    }

    fn init(id: u64, handles: Vec<Self>) -> (Option<Self>, Vec<Self>) {
        let built = match id {
            BASE_CORE => Some(Layers::BaseCoreInit),
            CORE => Some(Layers::CoreInit),
            LEVEL_ONE => Some(Layers::LevelOneInit),
            LEVEL_TWO => Some(Layers::LevelTwoInit),
            LEVEL_THREE => Some(Layers::LevelThreeInit),
            LEVEL_FOUR => Some(Layers::LevelFourInit),
            SELF_DEP => Some(Layers::SelfDep),
            _ => None,
        };
        (built, handles)
    }
}

#[test]
fn test_layers_with_shared_dep() {
    let mut tree: InitTree<Layers> = InitTree::new();
    tree.add(LEVEL_FOUR).unwrap();
    tree.add(LEVEL_THREE).unwrap();
    tree.add(LEVEL_TWO).unwrap();
    tree.add(LEVEL_ONE).unwrap();
    let mut initialized = tree.init().unwrap();
    assert_eq!(initialized.take(CORE), Some(Layers::CoreInit));
    assert_eq!(initialized.take(LEVEL_ONE), Some(Layers::LevelOneInit));
    assert_eq!(initialized.take(LEVEL_TWO), Some(Layers::LevelTwoInit));
    assert_eq!(initialized.take(LEVEL_THREE), Some(Layers::LevelThreeInit));
    assert_eq!(initialized.take(LEVEL_FOUR), Some(Layers::LevelFourInit));
}

fn layered_tree() -> InitTree<Layers> {
    let mut tree = InitTree::new();
    tree.add(LEVEL_FOUR).unwrap();
    tree.add(LEVEL_THREE).unwrap();
    tree.add(LEVEL_TWO).unwrap();
    tree.add(LEVEL_ONE).unwrap();
    tree
}

#[test]
fn test_caching() {
    let mut init = layered_tree();
    init.enable_caching(true);
    let mut initialized = init.init().unwrap();
    let cache = initialized.take_cache();
    assert!(!initialized.cache_was_correct());
    let mut init = layered_tree();
    init.load_cache(cache.unwrap());
    let mut initialized = init.init().unwrap();
    assert!(initialized.take_cache().is_some());
    assert!(initialized.cache_was_correct());
}

#[test]
#[should_panic]
fn test_self_referential_init() {
    let mut tree: InitTree<Layers> = InitTree::new();
    tree.add(SELF_DEP).unwrap();
    let mut init = tree.init().unwrap();
    assert_eq!(init.take(SELF_DEP), Some(Layers::SelfDep));
}
