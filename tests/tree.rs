use std::cell::RefCell;
use std::rc::Rc;

use blockchain::tree::BinaryTree;
use blockchain::tree::BinaryTree::{Leaf, NonLeaf};

#[test]
fn integer_key_lookup() {
    let tree = NonLeaf {
        key: 5,
        val: "Hello",
        left: Box::new(NonLeaf {
            key: 1,
            val: "World",
            left: Box::new(Leaf),
            right: Box::new(NonLeaf {
                key: 3,
                val: "Sucker",
                left: Box::new(Leaf),
                right: Box::new(Leaf)
            })
        }),
        right: Box::new(Leaf)
    };

    assert_eq!(*tree.lookup(&3).unwrap(), "Sucker");
}

#[test]
fn char_key_lookup() {
    let tree = NonLeaf {
        key: 'G',
        val: "Hello",
        left: Box::new(NonLeaf {
            key: 'A',
            val: "World",
            left: Box::new(Leaf),
            right: Box::new(NonLeaf {
                key: 'E',
                val: "Sucker",
                left: Box::new(Leaf),
                right: Box::new(Leaf)
            })
        }),
        right: Box::new(Leaf)
    };

    assert_eq!(*tree.lookup(&'E').unwrap(), "Sucker");
}

#[test]
fn insert_new_key() {
    let tree = NonLeaf {
        key: 5,
        val: "Hello",
        left: Box::new(NonLeaf {
            key: 1,
            val: "World",
            left: Box::new(Leaf),
            right: Box::new(NonLeaf {
                key: 3,
                val: "Sucker",
                left: Box::new(Leaf),
                right: Box::new(Leaf)
            })
        }),
        right: Box::new(Leaf)
    };

    assert_eq!(*tree.insert(0, "Ahoo!").lookup(&0).unwrap(), "Ahoo!");
}

#[test]
fn insert_existing_key() {
    let tree = NonLeaf {
        key: 5,
        val: "Hello",
        left: Box::new(NonLeaf {
            key: 1,
            val: "World",
            left: Box::new(Leaf),
            right: Box::new(NonLeaf {
                key: 3,
                val: "Sucker",
                left: Box::new(Leaf),
                right: Box::new(Leaf)
            })
        }),
        right: Box::new(Leaf)
    };

    assert_eq!(*tree.lookup(&1).unwrap(), "World");
    assert_eq!(*tree.insert(1, "Ahoo!").lookup(&1).unwrap(), "Ahoo!");
}

#[test]
fn remove_existing_key() {
    let tree = NonLeaf {
        key: 5,
        val: "Hello",
        left: Box::new(NonLeaf {
            key: 1,
            val: "World",
            left: Box::new(NonLeaf {
                key: 0,
                val: "Magic",
                left: Box::new(Leaf),
                right: Box::new(Leaf)
            }),
            right: Box::new(NonLeaf {
                key: 3,
                val: "Sucker",
                left: Box::new(NonLeaf {
                    key: 2,
                    val: "Auch",
                    left: Box::new(Leaf),
                    right: Box::new(Leaf)
                }),
                right: Box::new(Leaf)
            })
        }),
        right: Box::new(Leaf)
    };

    assert_eq!(*tree.lookup(&1).unwrap(), "World");
    assert_eq!(tree.remove(&1).lookup(&1), None);
}

#[test]
fn remove_non_existent_key() {
    let tree = NonLeaf {
        key: 5,
        val: "Hello",
        left: Box::new(NonLeaf {
            key: 1,
            val: "World",
            left: Box::new(NonLeaf {
                key: 0,
                val: "Magic",
                left: Box::new(Leaf),
                right: Box::new(Leaf)
            }),
            right: Box::new(NonLeaf {
                key: 3,
                val: "Sucker",
                left: Box::new(NonLeaf {
                    key: 2,
                    val: "Auch",
                    left: Box::new(Leaf),
                    right: Box::new(Leaf)
                }),
                right: Box::new(Leaf)
            })
        }),
        right: Box::new(Leaf)
    };

    assert_eq!(tree.clone().remove(&4), tree);
}

#[test]
fn double_tree_vals_with_map_dfs() {
    let tree = NonLeaf {
        key: 5,
        val: 2,
        left: Box::new(NonLeaf {
            key: 1,
            val: 3,
            left: Box::new(Leaf),
            right: Box::new(NonLeaf {
                key: 3,
                val: 4,
                left: Box::new(Leaf),
                right: Box::new(Leaf)
            })
        }),
        right: Box::new(Leaf)
    };
    let expected = NonLeaf {
        key: 5,
        val: 4,
        left: Box::new(NonLeaf {
            key: 1,
            val: 6,
            left: Box::new(Leaf),
            right: Box::new(NonLeaf {
                key: 3,
                val: 8,
                left: Box::new(Leaf),
                right: Box::new(Leaf)
            })
        }),
        right: Box::new(Leaf)
    };

    assert_eq!(tree.map_dfs(Rc::new(|x| x*2)), expected);
}

#[test]
fn triple_tree_vals_with_map_bfs() {
    let tree = NonLeaf {
        key: 5,
        val: 2,
        left: Box::new(NonLeaf {
            key: 1,
            val: 3,
            left: Box::new(Leaf),
            right: Box::new(NonLeaf {
                key: 3,
                val: 4,
                left: Box::new(Leaf),
                right: Box::new(Leaf)
            })
        }),
        right: Box::new(Leaf)
    };
    let expected = NonLeaf {
        key: 5,
        val: 6,
        left: Box::new(NonLeaf {
            key: 1,
            val: 9,
            left: Box::new(Leaf),
            right: Box::new(NonLeaf {
                key: 3,
                val: 12,
                left: Box::new(Leaf),
                right: Box::new(Leaf)
            })
        }),
        right: Box::new(Leaf)
    };

    assert_eq!(tree.map_bfs(Rc::new(|x| x*3)), expected);
}

#[test]
fn map_orders_of_application() {
    let tree = NonLeaf {
        key: 2,
        val: 20,
        left: Box::new(NonLeaf {
            key: 1,
            val: 10,
            left: Box::new(NonLeaf { key: 0, val: 0, left: Box::new(Leaf), right: Box::new(Leaf) }),
            right: Box::new(Leaf),
        }),
        right: Box::new(NonLeaf { key: 3, val: 30, left: Box::new(Leaf), right: Box::new(Leaf) }),
    };
    let seen = Rc::new(RefCell::new(Vec::new()));
    let s = seen.clone();
    let _ = tree.clone().map_dfs(Rc::new(move |x: i32| { s.borrow_mut().push(x); x }));
    assert_eq!(*seen.borrow(), vec![20, 10, 0, 30]);
    let seen = Rc::new(RefCell::new(Vec::new()));
    let s = seen.clone();
    let _ = tree.map_bfs(Rc::new(move |x: i32| { s.borrow_mut().push(x); x }));
    assert_eq!(*seen.borrow(), vec![20, 10, 30, 0]);
}

#[test]
fn remove_root_with_two_children_keeps_the_rest() {
    let tree = NonLeaf {
        key: 5,
        val: "five",
        left: Box::new(NonLeaf { key: 2, val: "two", left: Box::new(Leaf), right: Box::new(Leaf) }),
        right: Box::new(NonLeaf {
            key: 8,
            val: "eight",
            left: Box::new(NonLeaf { key: 7, val: "seven", left: Box::new(Leaf), right: Box::new(Leaf) }),
            right: Box::new(Leaf),
        }),
    };
    let t = tree.remove(&5);
    assert_eq!(t.lookup(&5), None);
    assert_eq!(*t.lookup(&2).unwrap(), "two");
    assert_eq!(*t.lookup(&7).unwrap(), "seven");
    assert_eq!(*t.lookup(&8).unwrap(), "eight");
}

#[test]
fn remove_smallest_takes_least_key() {
    let tree = Leaf.insert(4, 'd').insert(2, 'b').insert(6, 'f').insert(1, 'a');
    let (k, v, rest) = tree.remove_smallest().unwrap();
    assert_eq!((k, v), (1, 'a'));
    assert_eq!(rest.lookup(&1), None);
    assert!(BinaryTree::<i32, char>::Leaf.remove_smallest().is_none());
}
