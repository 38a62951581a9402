use std::collections::HashMap;
use rust_tree_map::NodeId;
use rust_tree_map::OpenMode::{MustExist, OpenCreate, TruncateCreate};
use rust_tree_map::TreeFileError;
use rust_tree_map::tree_map::{TreeFiles, TreeMap};
use rust_tree_map::utils::add_and_subtract;

fn three_children(max_top: u32) -> TreeMap {
    let mut t = TreeMap::new(max_top, TruncateCreate, None).unwrap();
    t.add_child(t.get_top(), 10, 100, 1000, 2).unwrap();
    t.add_child(t.get_top(), 15, 200, 2000, 2).unwrap();
    t.add_child(t.get_top(), 20, 300, 3000, 2).unwrap();
    t
}

#[test]
fn creates_a_new_tree() {
    let res = TreeMap::new(2, TruncateCreate, None);
    assert!(res.is_ok(), "tree not created");

    if let Ok(ref t) = res {
        assert_eq!(t.len(), 1, "it shall always have length of 1 from start, got {}", t.len());
        assert_eq!(t.get_top(), 0, "top node shall always have node id 0 (zero)");
    }

    let res = TreeMap::new(2, OpenCreate, None);
    assert!(res.is_ok(), "tree not created");

    let res = TreeMap::new(2, MustExist, None);
    assert!(res.is_err(), "tree created");
}

#[test]
fn tree_map_test_can_add_children() {
    let mut res = TreeMap::new(2, TruncateCreate, None);
    assert!(res.is_ok(), "tree not created");

    if let Ok(ref mut t) = res {
        let child1 = t.add_child(t.get_top(), 10, 100, 1000, 2).unwrap();
        assert_eq!(child1, 1, "first child shall get node id 1, got {}", child1);

        let child2 = t.add_child(t.get_top(), 15, 200, 2000, 2).unwrap();
        assert_eq!(child2, 2, "second child shall get node id 2, got {}", child2);

        let child3 = t.add_child(t.get_top(), 20, 300, 3000, 2);
        assert!(child3.is_err(), "third child shall fail");
    }
}

#[test]
fn tree_map_test_can_get_children() {
    let mut res = TreeMap::new(3, TruncateCreate, None);
    assert!(res.is_ok(), "tree not created");

    if let Ok(ref mut t) = res {
        let _child1 = t.add_child(t.get_top(), 10, 100, 1000, 2).unwrap();
        let _child2 = t.add_child(t.get_top(), 15, 200, 2000, 2).unwrap();
        let _child3 = t.add_child(t.get_top(), 20, 300, 3000, 2).unwrap();

        let res = t.get_child(t.get_top(), 10);
        assert!(res.is_ok(), "could not get child node");

        if let Ok(no) = res {
            assert!(no.is_some(), "could not get child via key");

            if let Some(n) = no {
                assert_eq!(n.node_id, 1, "first child shall have node id 1, got {}", n.node_id);
                assert_eq!(n.hits, 100, "should have 100 hits, got {}", n.hits);
                assert_eq!(n.score, 1000, "should have score 1000, got {}", n.score);
                assert!(n.parent.is_some(), "got no parent for child");
                if let Some(p) = n.parent {
                    assert_eq!(p, t.get_top(), "should have node id 0 as parent, got {}", p);
                }
            }
        }

        let mut comp: HashMap<(u16, NodeId), ()> = HashMap::new();
        comp.insert((10, 1), ());
        comp.insert((15, 2), ());
        comp.insert((20, 3), ());

        let mut iter = t.get_child_iter(t.get_top());
        while let Some(child) = iter.next() {
            let cr = comp.remove(&child);
            assert!(cr.is_some(), "item from iterator not in accordance with child");
        }
        assert_eq!(comp.len(), 0, "iterator should have returned all children, but omitted {}", comp.len());
    }
}

#[test]
fn tree_map_test_can_get_node() {
    let mut res = TreeMap::new(3, TruncateCreate, None);
    assert!(res.is_ok(), "tree not created");

    if let Ok(ref mut t) = res {
        let _child1 = t.add_child(t.get_top(), 10, 100, 1000, 2).unwrap();
        let _child2 = t.add_child(t.get_top(), 15, 200, 2000, 2).unwrap();
        let child3 = t.add_child(t.get_top(), 20, 300, 3000, 2).unwrap();

        let res = t.get_node(child3);
        assert!(res.is_ok(), "could not get node");

        if let Ok(nd) = res {
            assert_eq!(nd.node_id, 3, "should have node id 3, got {}", nd.node_id);
            assert_eq!(nd.hits, 300, "should have 300 hits, got {}", nd.hits);
            assert_eq!(nd.score, 3000, "should have score 3000, got {}", nd.score);
            assert!(nd.parent.is_some(), "got no parent for child");
            if let Some(p) = nd.parent {
                assert_eq!(p, t.get_top(), "should have node id 0 as parent, got {}", p);
            }
        }
    }
}

#[test]
fn tree_map_test_can_get_parent() {
    let mut res = TreeMap::new(3, TruncateCreate, None);
    assert!(res.is_ok(), "tree not created");

    if let Ok(ref mut t) = res {
        let _child1 = t.add_child(t.get_top(), 10, 100, 1000, 2).unwrap();
        let _child2 = t.add_child(t.get_top(), 15, 200, 2000, 2).unwrap();
        let child3 = t.add_child(t.get_top(), 20, 300, 3000, 2).unwrap();

        let res = t.get_parent(child3);
        assert!(res.is_ok(), "could not get parent");

        if let Ok(no) = res {
            assert!(no.is_some(), "no parent found");

            if let Some(n) = no {
                assert_eq!(n.node_id, 0, "should have parent node id 0 (zero), got {}", n.node_id);
                assert_eq!(n.hits, 0, "should have 0 (zero) hits, got {}", n.hits);
                assert_eq!(n.score, 0, "should have score 0 (zero), got {}", n.score);
                assert!(n.parent.is_none(), "got parent for parent");
            }
        }
    }
}

#[test]
fn tree_map_test_can_update_add_node() {
    let mut res = TreeMap::new(3, TruncateCreate, None);
    assert!(res.is_ok(), "tree not created");

    if let Ok(ref mut t) = res {
        let _child1 = t.add_child(t.get_top(), 10, 100, 1000, 2).unwrap();
        let _child2 = t.add_child(t.get_top(), 15, 200, 2000, 2).unwrap();
        let child3 = t.add_child(t.get_top(), 20, 300, 3000, 2).unwrap();

        let res = t.update_node_add(child3, 30, 300);
        assert!(res.is_ok(), "could not update node");

        let res = t.get_node(child3);
        assert!(res.is_ok(), "could not get updated node");

        if let Ok(nd) = res {
            assert_eq!(nd.hits, 330, "should have 300 hits, got {}", nd.hits);
            assert_eq!(nd.score, 3300, "should have score 3000, got {}", nd.score);
        }
    }
}

#[test]
fn new_tree_writes_the_top_record() {
    let t = TreeMap::new(7, TruncateCreate, None).unwrap();
    let mut expected = vec![0xffu8; 8];
    expected.extend_from_slice(&[0u8; 28]);
    expected.extend_from_slice(&[7, 0, 0, 0]);
    assert_eq!(t.node_file(), &expected);
    assert!(t.map_file().is_empty());
}

#[test]
fn add_child_writes_record_and_block() {
    let mut t = TreeMap::new(2, TruncateCreate, None).unwrap();
    let child = t.add_child(0, 0x0102, 5, 6, 3).unwrap();
    assert_eq!(child, 1);
    let files = t.into_files();
    assert_eq!(files.nodes.len(), 80);
    // the top now points at a block at 0 holding one child
    assert_eq!(&files.nodes[24..40], &[0, 0, 0, 0, 0, 0, 0, 0, 1, 0, 0, 0, 2, 0, 0, 0]);
    // the child's record
    assert_eq!(&files.nodes[40..48], &[0u8; 8]);
    assert_eq!(&files.nodes[48..56], &[5, 0, 0, 0, 0, 0, 0, 0]);
    assert_eq!(&files.nodes[56..64], &[6, 0, 0, 0, 0, 0, 0, 0]);
    assert_eq!(&files.nodes[76..80], &[3, 0, 0, 0]);
    // a block of two entries: the child at position 40 with its key, then all-ones
    assert_eq!(files.map.len(), 20);
    assert_eq!(&files.map[0..10], &[40, 0, 0, 0, 0, 0, 0, 0, 0x02, 0x01]);
    assert_eq!(&files.map[10..20], &[0xffu8; 10]);
}

#[test]
fn duplicate_key_is_refused_and_appends_nothing() {
    let mut t = TreeMap::new(3, TruncateCreate, None).unwrap();
    t.add_child(0, 10, 1, 1, 1).unwrap();
    let before = t.len();
    let res = t.add_child(0, 10, 2, 2, 1);
    assert!(matches!(res, Err(TreeFileError::LogicError { .. })));
    assert_eq!(t.len(), before);
    assert_eq!(t.get_node(0).unwrap().n_children, 1);
}

#[test]
fn full_node_refuses_one_more_child() {
    let mut t = TreeMap::new(1, TruncateCreate, None).unwrap();
    t.add_child(0, 1, 0, 0, 0).unwrap();
    let res = t.add_child(0, 2, 0, 0, 0);
    assert!(matches!(res, Err(TreeFileError::LogicError { .. })));
    // a node made with room for no child refuses its first one
    let res = t.add_child(1, 3, 0, 0, 0);
    assert!(matches!(res, Err(TreeFileError::LogicError { .. })));
    assert_eq!(t.len(), 2);
}

#[test]
fn top_children_count_follows_successful_adds() {
    let mut t = TreeMap::new(2, TruncateCreate, None).unwrap();
    assert_eq!(t.get_node(0).unwrap().n_children, 0);
    t.add_child(0, 1, 0, 0, 0).unwrap();
    let _ = t.add_child(0, 1, 0, 0, 0);
    t.add_child(0, 2, 0, 0, 0).unwrap();
    let _ = t.add_child(0, 3, 0, 0, 0);
    let top = t.get_node(0).unwrap();
    assert_eq!(top.n_children, 2);
    assert_eq!(top.max_children, 2);
}

#[test]
fn ids_follow_the_node_count() {
    let mut t = TreeMap::new(4, TruncateCreate, None).unwrap();
    for key in 0..4u16 {
        let before = t.len();
        let id = t.add_child(0, key, 0, 0, 2).unwrap();
        assert_eq!(id, before);
        assert_eq!(t.len(), before + 1);
    }
    let before = t.len();
    let grandchild = t.add_child(2, 9, 0, 0, 0).unwrap();
    assert_eq!(grandchild, before);
    assert_eq!(t.get_parent(grandchild).unwrap().unwrap().node_id, 2);
}

#[test]
fn parent_lists_its_child() {
    let mut t = three_children(3);
    let grandchild = t.add_child(2, 77, 1, 1, 0).unwrap();
    let parent = t.get_parent(grandchild).unwrap().unwrap();
    let mut iter = t.get_child_iter(parent.node_id);
    let mut found = false;
    while let Some((_, id)) = iter.next() {
        if id == grandchild {
            found = true;
        }
    }
    assert!(found);
    assert!(t.get_parent(0).unwrap().is_none());
}

#[test]
fn lookup_agrees_with_iteration() {
    let t = three_children(3);
    let mut iter = t.get_child_iter(0);
    while let Some((key, id)) = iter.next() {
        assert_eq!(t.get_child(0, key).unwrap().unwrap().node_id, id);
    }
    assert!(t.get_child(0, 11).unwrap().is_none());
    assert!(t.get_child(1, 10).unwrap().is_none());
}

#[test]
fn update_below_zero_is_refused_and_changes_nothing() {
    let mut t = three_children(3);
    let res = t.update_node_add(1, -101, 0);
    assert!(matches!(res, Err(TreeFileError::LogicError { .. })));
    let res = t.update_node_add(1, 0, -1001);
    assert!(matches!(res, Err(TreeFileError::LogicError { .. })));
    let nd = t.get_node(1).unwrap();
    assert_eq!((nd.hits, nd.score), (100, 1000));
    t.update_node_add(1, -100, -1).unwrap();
    let nd = t.get_node(1).unwrap();
    assert_eq!((nd.hits, nd.score), (0, 999));
}

#[test]
fn missing_nodes_are_reported() {
    let mut t = three_children(3);
    assert!(matches!(t.get_node(4), Err(TreeFileError::NonExistingNode)));
    assert!(matches!(t.get_child(4, 1), Err(TreeFileError::NonExistingNode)));
    assert!(matches!(t.get_parent(4), Err(TreeFileError::NonExistingNode)));
    assert!(matches!(t.update_node_add(4, 1, 1), Err(TreeFileError::NonExistingNode)));
    assert!(matches!(t.add_child(4, 1, 1, 1, 1), Err(TreeFileError::NonExistingNode)));
    assert!(t.get_child_iter(4).next().is_none());
    assert!(t.get_child_iter(1).next().is_none());
}

#[test]
fn must_exist_without_files_fails() {
    assert!(matches!(TreeMap::new(2, MustExist, None), Err(TreeFileError::NonExistingFiles)));
}

#[test]
fn reopening_reproduces_every_answer() {
    let mut t = three_children(3);
    t.add_child(3, 5, 7, 8, 1).unwrap();
    t.update_node_add(2, 1, 1).unwrap();
    let files = t.into_files();
    let copy = TreeFiles { nodes: files.nodes.clone(), map: files.map.clone() };
    let t = TreeMap::new(9, OpenCreate, Some(files)).unwrap();
    let u = TreeMap::new(9, MustExist, Some(copy)).unwrap();
    assert_eq!(t.len(), 5);
    for id in 0..5 {
        assert_eq!(t.get_node(id).unwrap(), u.get_node(id).unwrap());
    }
    assert_eq!(t.get_node(0).unwrap().max_children, 3);
    assert_eq!(t.get_node(2).unwrap().hits, 201);
    assert_eq!(t.get_child(3, 5).unwrap().unwrap().node_id, 4);
    assert_eq!(t.get_child(0, 20).unwrap().unwrap().score, 3000);
    assert_eq!(t.get_child_iter(0).into_vec().len(), 3);
}

#[test]
fn opening_twice_keeps_the_files() {
    let t = TreeMap::new(4, OpenCreate, None).unwrap();
    let first = t.into_files();
    let nodes = first.nodes.clone();
    let map = first.map.clone();
    let t = TreeMap::new(6, OpenCreate, Some(first)).unwrap();
    let second = t.into_files();
    assert_eq!(second.nodes, nodes);
    assert_eq!(second.map, map);
}

#[test]
fn torn_record_is_dropped_on_open() {
    let t = three_children(3);
    let mut files = t.into_files();
    files.nodes.extend_from_slice(&[1, 2, 3]);
    let t = TreeMap::new(3, OpenCreate, Some(files)).unwrap();
    assert_eq!(t.len(), 4);
    assert_eq!(t.node_file().len(), 160);
}

#[test]
fn truncate_create_ignores_existing_files() {
    let files = three_children(3).into_files();
    let t = TreeMap::new(5, TruncateCreate, Some(files)).unwrap();
    assert_eq!(t.len(), 1);
    assert_eq!(t.get_node(0).unwrap().max_children, 5);
}

#[test]
fn block_beyond_the_map_file_is_an_io_error() {
    let t = three_children(3);
    let mut files = t.into_files();
    files.map.truncate(5);
    let mut t = TreeMap::new(3, MustExist, Some(files)).unwrap();
    assert!(matches!(t.get_child(0, 10), Err(TreeFileError::FileIOError { .. })));
    assert!(matches!(t.add_child(0, 99, 0, 0, 0), Err(TreeFileError::FileIOError { .. })));
    assert!(t.get_child_iter(0).next().is_none());
}

#[test]
fn add_and_subtract_moves_within_range() {
    assert_eq!(add_and_subtract(10, 5).unwrap(), 15);
    assert_eq!(add_and_subtract(10, -10).unwrap(), 0);
    assert_eq!(add_and_subtract(10, -3).unwrap(), 7);
    assert!(matches!(add_and_subtract(10, -11), Err(TreeFileError::LogicError { .. })));
    assert!(matches!(add_and_subtract(u64::MAX, 1), Err(TreeFileError::LogicError { .. })));
    assert_eq!(add_and_subtract(0, i64::MAX).unwrap(), i64::MAX as u64);
    assert_eq!(add_and_subtract(u64::MAX, i64::MIN).unwrap(), u64::MAX - (1u64 << 63));
}
