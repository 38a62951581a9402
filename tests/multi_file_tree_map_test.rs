use std::collections::HashMap;
use rust_tree_map::multi_file_tree_map::{MultiFileTreeMap, ShardFiles};
use rust_tree_map::NodeId;
use rust_tree_map::OpenMode::{MustExist, OpenCreate, TruncateCreate};
use rust_tree_map::TreeFileError;

type Splitter = fn(u16) -> u8;

fn split_high(k: u16) -> u8 {
    (k >> 8) as u8
}

fn reopen(t: MultiFileTreeMap<Splitter>, max: u32) -> MultiFileTreeMap<Splitter> {
    let (master, shards) = t.into_files();
    MultiFileTreeMap::new(max, OpenCreate, split_high as Splitter, Some(master), shards).unwrap()
}

#[test]
fn create_a_new_tree() {
    let splitter: fn(u16) -> u8 = |k| {(k >> 8) as u8};

    let mut res = MultiFileTreeMap::new(2, TruncateCreate, splitter, None, Vec::new());
    assert!(res.is_ok(), "tree not created");

    if let Ok(ref mut t) = res {
        let top = t.get_top();
        assert_eq!(top, 0, "top node shall always have node id 0 (zero)");

        let node = t.get_node(top);
        assert!(node.is_ok(), "could not get node");

        if let Ok(nd) = node {
            assert_eq!(nd.node_id, 0, "should have node id 0");
            assert_eq!(nd.hits, 0, "should have 0 hits");
            assert_eq!(nd.score, 0, "should have score 0");
            assert!(nd.parent.is_none(), "got parent for top node");
            assert_eq!(nd.max_children, 2, "should have max children 2");
            assert_eq!(nd.n_children, 0, "should have 0 children")
        }
    }
}

#[test]
fn open_existing_tree() {
    let splitter: fn(u16) -> u8 = |k| {(k >> 8) as u8};

    let res = MultiFileTreeMap::new(2, TruncateCreate, splitter, None, Vec::new());
    assert!(res.is_ok(), "tree not created");

    let (master, shards) = res.unwrap().into_files();

    let mut res = MultiFileTreeMap::new(10, OpenCreate, splitter, Some(master), shards);
    assert!(res.is_ok(), "tree not created");

    if let Ok(ref mut t) = res {
        let node = t.get_node(t.get_top());
        assert!(node.is_ok(), "could not get node");

        if let Ok(nd) = node {
            assert_eq!(nd.node_id, 0, "should have node id 0");
            assert_eq!(nd.hits, 0, "should have 0 hits");
            assert_eq!(nd.score, 0, "should have score 0");
            assert!(nd.parent.is_none(), "got parent for top node");
            assert_eq!(nd.max_children, 2, "should have max children 2");
            assert_eq!(nd.n_children, 0, "should have 0 children")
        }
    }

    let (master, shards) = res.unwrap().into_files();

    let mut res = MultiFileTreeMap::new(10, MustExist, splitter, Some(master), shards);
    assert!(res.is_ok(), "tree not created");

    if let Ok(ref mut t) = res {
        let node = t.get_node(t.get_top());
        assert!(node.is_ok(), "could not get node");

        if let Ok(nd) = node {
            assert_eq!(nd.node_id, 0, "should have node id 0");
            assert_eq!(nd.hits, 0, "should have 0 hits");
            assert_eq!(nd.score, 0, "should have score 0");
            assert!(nd.parent.is_none(), "got parent for top node");
            assert_eq!(nd.max_children, 2, "should have max children 2");
            assert_eq!(nd.n_children, 0, "should have 0 children")
        }
    }

    let res = MultiFileTreeMap::new(10, MustExist, splitter, None, Vec::new());
    assert!(res.is_err(), "tree created");
}

#[test]
fn multi_file_tree_map_test_can_add_children() {
    let splitter: fn(u16) -> u8 = |k| {(k >> 8) as u8};
    let key1 = ((10 << 8) + 1) as u16;
    let key2 = ((15 << 8) + 1) as u16;
    let key3 = ((20 << 8) + 1) as u16;
    let key4 = ((30 << 8) + 1) as u16;
    let key5 = ((40 << 8) + 1) as u16;
    let key6 = ((50 << 8) + 1) as u16;

    let mut res = MultiFileTreeMap::new(2, TruncateCreate, splitter, None, Vec::new());
    assert!(res.is_ok(), "tree not created");

    if let Ok(ref mut t) = res {
        let child1 = t.add_child(t.get_top(), key1, 100, 1000, 2).unwrap();
        assert_eq!(child1, 266, "first child shall get node id 266");
        // 266 is local node id 1 shifted left by 8 plus selector 10 from key1

        let child2 = t.add_child(t.get_top(), key2, 200, 2000, 2).unwrap();
        assert_eq!(child2, 271, "second child shall get node id 271");
        // 271 is local node id 1 shifted left by 8 plus selector 15 from key2

        let child3 = t.add_child(t.get_top(), key3, 300, 3000, 2);
        assert!(child3.is_err(), "third child shall fail");

        let child21 = t.add_child(child2, key4, 200, 2000, 2).unwrap();
        assert_eq!(child21, 527, "first sub child shall get node id 527");
        // 527 is local node id 2 shifted left by 8 plus selector 15 (which comes from selector part from child2)

        let child22 = t.add_child(child2, key5, 200, 2000, 2).unwrap();
        assert_eq!(child22, 783, "second sub child shall get node id 783");
        // 783 is local node id 3 shifted left by 8 plus selector 15 (which comes from selector part from child2)

        let child23 = t.add_child(child2, key6, 200, 2000, 2);
        assert!(child23.is_err(), "third sub child shall fail");
    }
}

#[test]
fn multi_file_tree_map_test_can_get_children() {
    let splitter: fn(u16) -> u8 = |k| {(k >> 8) as u8};
    let key1 = ((10 << 8) + 1) as u16;
    let key2 = ((15 << 8) + 1) as u16;
    let key3 = ((20 << 8) + 1) as u16;

    let mut res = MultiFileTreeMap::new(3, TruncateCreate, splitter, None, Vec::new());
    assert!(res.is_ok(), "tree not created");

    if let Ok(ref mut t) = res {
        let _child1 = t.add_child(t.get_top(), key1, 100, 1000, 2).unwrap();
        let _child2 = t.add_child(t.get_top(), key2, 200, 2000, 2).unwrap();
        let _child3 = t.add_child(t.get_top(), key3, 300, 3000, 2).unwrap();

        let res = t.get_child(t.get_top(), key1);
        assert!(res.is_ok(), "could not get child node");

        if let Ok(no) = res {
            assert!(no.is_some(), "could not get child via key");

            if let Some(n) = no {
                assert_eq!(n.node_id, 266, "first child shall have node id 266");
                assert_eq!(n.hits, 100, "should have 100 hits");
                assert_eq!(n.score, 1000, "should have score 1000");
                assert!(n.parent.is_some(), "got no parent for child");
                if let Some(p) = n.parent {
                    assert_eq!(p, t.get_top(), "should have node id 0 as parent");
                }
            }
        }

        let mut comp: HashMap<(u16, NodeId), ()> = HashMap::new();
        comp.insert((key1, 266), ());
        comp.insert((key2, 271), ());
        comp.insert((key3, 276), ());

        let mut iter = t.get_child_iter(t.get_top());
        while let Some(child) = iter.next() {
            let cr = comp.remove(&child);
            assert!(cr.is_some(), "item from iterator not in accordance with child");
        }
        assert_eq!(comp.len(), 0, "iterator should have returned all children");
    }
}

#[test]
fn can_get_none_for_get_child_with_no_file() {
    let splitter: fn(u16) -> u8 = |k| {(k >> 8) as u8};
    let key1 = ((10 << 8) + 1) as u16;
    let key2 = ((15 << 8) + 1) as u16;

    let mut res = MultiFileTreeMap::new(2, TruncateCreate, splitter, None, Vec::new());
    assert!(res.is_ok(), "tree not created");

    if let Ok(ref mut t) = res {
        let child1 = t.add_child(t.get_top(), key1, 100, 1000, 2).unwrap();
        assert_eq!(child1, 266, "first child shall get node id 266");
        // 266 is local node id 1 shifted left by 8 plus selector 10 from key1

        let child2_nd = t.get_child(t.get_top(), key2);
        assert!(child2_nd.is_ok(), "should not return error");

        if let Some(_nd) = child2_nd.unwrap() {
            assert!(false, "should not return data");
        }

        let child2 = t.add_child(t.get_top(), key2, 200, 2000, 2).unwrap();
        assert_eq!(child2, 271, "second child shall get node id 271");
        // 271 is local node id 1 shifted left by 8 plus selector 15 from key2

        let child2_nd = t.get_child(t.get_top(), key2);
        assert!(child2_nd.is_ok(), "should not return error");

        if let None = child2_nd.unwrap() {
            assert!(false, "should not return none");
        }
    }
}

#[test]
fn multi_file_tree_map_test_can_get_node() {
    let splitter: fn(u16) -> u8 = |k| {(k >> 8) as u8};
    let key1 = ((10 << 8) + 1) as u16;
    let key2 = ((15 << 8) + 1) as u16;
    let key3 = ((20 << 8) + 1) as u16;

    let mut res = MultiFileTreeMap::new(3, TruncateCreate, splitter, None, Vec::new());
    assert!(res.is_ok(), "tree not created");

    if let Ok(ref mut t) = res {
        let _child1 = t.add_child(t.get_top(), key1, 100, 1000, 2).unwrap();
        let _child2 = t.add_child(t.get_top(), key2, 200, 2000, 2).unwrap();
        let child3 = t.add_child(t.get_top(), key3, 300, 3000, 2).unwrap();

        let res = t.get_node(child3);
        assert!(res.is_ok(), "could not get node");

        if let Ok(nd) = res {
            assert_eq!(nd.node_id, 276, "should have node id 276");
            assert_eq!(nd.hits, 300, "should have 300 hits");
            assert_eq!(nd.score, 3000, "should have score 3000");
            assert!(nd.parent.is_some(), "got no parent for child");
            if let Some(p) = nd.parent {
                assert_eq!(p, t.get_top(), "should have node id 0 as parent");
            }
        }
    }
}

#[test]
fn multi_file_tree_map_test_can_get_parent() {
    let splitter: fn(u16) -> u8 = |k| {(k >> 8) as u8};
    let key1 = ((10 << 8) + 1) as u16;
    let key2 = ((15 << 8) + 1) as u16;
    let key3 = ((20 << 8) + 1) as u16;

    let mut res = MultiFileTreeMap::new(3, TruncateCreate, splitter, None, Vec::new());
    assert!(res.is_ok(), "tree not created");

    if let Ok(ref mut t) = res {
        let _child1 = t.add_child(t.get_top(), key1, 100, 1000, 2).unwrap();
        let _child2 = t.add_child(t.get_top(), key2, 200, 2000, 2).unwrap();
        let child3 = t.add_child(t.get_top(), key3, 300, 3000, 2).unwrap();

        let res = t.get_parent(child3);
        assert!(res.is_ok(), "could not get parent");

        if let Ok(no) = res {
            assert!(no.is_some(), "no parent found");

            if let Some(n) = no {
                assert_eq!(n.node_id, 0, "should have parent node id 0 (zero)");
                assert_eq!(n.hits, 0, "should have 0 (zero) hits");
                assert_eq!(n.score, 0, "should have score 0 (zero)");
                assert!(n.parent.is_none(), "got parent for parent");
            }
        }
    }
}

#[test]
fn multi_file_tree_map_test_can_update_add_node() {
    let splitter: fn(u16) -> u8 = |k| {(k >> 8) as u8};
    let key1 = ((10 << 8) + 1) as u16;
    let key2 = ((15 << 8) + 1) as u16;
    let key3 = ((20 << 8) + 1) as u16;

    let mut res = MultiFileTreeMap::new(3, TruncateCreate, splitter, None, Vec::new());
    assert!(res.is_ok(), "tree not created");

    if let Ok(ref mut t) = res {
        let _child1 = t.add_child(t.get_top(), key1, 100, 1000, 2).unwrap();
        let _child2 = t.add_child(t.get_top(), key2, 200, 2000, 2).unwrap();
        let child3 = t.add_child(t.get_top(), key3, 300, 3000, 2).unwrap();

        let res = t.update_node_add(child3, 30, 300);
        assert!(res.is_ok(), "could not update node");

        let res = t.get_node(child3);
        assert!(res.is_ok(), "could not get updated node");

        if let Ok(nd) = res {
            assert_eq!(nd.hits, 330, "should have 300 hits");
            assert_eq!(nd.score, 3300, "should have score 3000");
        }

        let res = t.update_node_add(t.get_top(), 50, 500);
        assert!(res.is_ok(), "could not update top node");

        let res = t.get_node(t.get_top());
        assert!(res.is_ok(), "could not get updated top node");

        if let Ok(nd) = res {
            assert_eq!(nd.hits, 50, "should have 50 hits");
            assert_eq!(nd.score, 500, "should have score 500");
        }
    }
}

#[test]
fn top_counters_survive_reopening() {
    let mut t = MultiFileTreeMap::new(2, TruncateCreate, split_high as Splitter, None, Vec::new()).unwrap();
    t.add_child(0, 0x0A01, 1, 1, 2).unwrap();
    t.update_node_add(0, 50, 500).unwrap();
    let mut t = reopen(t, 9);
    let top = t.get_node(0).unwrap();
    assert_eq!((top.hits, top.score), (50, 500));
    assert_eq!(top.n_children, 1);
    assert_eq!(top.max_children, 2);
    assert_eq!(t.get_child(0, 0x0A01).unwrap().unwrap().node_id, 266);
    assert_eq!(t.len(), 2);
}

#[test]
fn reopening_twice_keeps_the_master_file() {
    let mut t = MultiFileTreeMap::new(3, OpenCreate, split_high as Splitter, None, Vec::new()).unwrap();
    t.add_child(0, 0x0501, 1, 2, 1).unwrap();
    t.add_child(0, 0x0701, 3, 4, 1).unwrap();
    let (master, shards) = t.into_files();
    let kept = master.clone();
    let t = MultiFileTreeMap::new(3, OpenCreate, split_high as Splitter, Some(master), shards).unwrap();
    let (again, shards) = t.into_files();
    assert_eq!(again, kept);
    assert_eq!(shards.len(), 2);
    assert_eq!(&kept[0..4], &[3, 0, 0, 0]);
    assert_eq!(&kept[4..8], &[2, 0, 0, 0]);
    assert_eq!(&kept[24..26], &[5, 7]);
}

#[test]
fn full_roster_refuses_a_new_shard() {
    let mut t = MultiFileTreeMap::new(1, TruncateCreate, split_high as Splitter, None, Vec::new()).unwrap();
    t.add_child(0, 0x0101, 0, 0, 1).unwrap();
    let res = t.add_child(0, 0x0201, 0, 0, 1);
    assert!(matches!(res, Err(TreeFileError::LogicError { .. })));
    assert!(matches!(t.get_node(0x0102), Err(TreeFileError::LogicError { .. })));
    assert_eq!(t.get_node(0).unwrap().n_children, 1);
}

#[test]
fn missing_shard_is_reported() {
    let mut t = MultiFileTreeMap::new(4, TruncateCreate, split_high as Splitter, None, Vec::new()).unwrap();
    assert!(matches!(t.get_node(0x0103), Err(TreeFileError::NonExistingFiles)));
    assert!(matches!(t.get_parent(0x0103), Err(TreeFileError::NonExistingFiles)));
    assert!(matches!(t.update_node_add(0x0103, 1, 1), Err(TreeFileError::NonExistingFiles)));
    assert!(t.get_child(0x0103, 1).unwrap().is_none());
    assert!(t.get_child_iter(0x0103).next().is_none());
    assert_eq!(t.get_node(0).unwrap().n_children, 0);
}

#[test]
fn sharded_parent_and_children_agree() {
    let mut t = MultiFileTreeMap::new(2, TruncateCreate, split_high as Splitter, None, Vec::new()).unwrap();
    let a = t.add_child(0, 0x0301, 0, 0, 2).unwrap();
    let b = t.add_child(a, 0x0999, 0, 0, 0).unwrap();
    assert_eq!(a, 259);
    assert_eq!(b, 515);
    let parent = t.get_parent(b).unwrap().unwrap();
    assert_eq!(parent.node_id, a);
    assert_eq!(t.get_child_iter(a).into_vec(), vec![(0x0999, b)]);
    assert_eq!(t.get_parent(a).unwrap().unwrap().node_id, 0);
    assert_eq!(t.get_child_iter(0).into_vec(), vec![(0x0301, a)]);
    assert_eq!(t.get_child(a, 0x0999).unwrap().unwrap().node_id, b);
    assert!(t.get_parent(0).unwrap().is_none());
}

#[test]
fn sharded_top_update_below_zero_changes_nothing() {
    let mut t = MultiFileTreeMap::new(2, TruncateCreate, split_high as Splitter, None, Vec::new()).unwrap();
    t.update_node_add(0, 5, 5).unwrap();
    let res = t.update_node_add(0, 1, -6);
    assert!(matches!(res, Err(TreeFileError::LogicError { .. })));
    let top = t.get_node(0).unwrap();
    assert_eq!((top.hits, top.score), (5, 5));
}

#[test]
fn short_or_truncated_master_is_refused() {
    let short = vec![1u8, 2, 3];
    let res = MultiFileTreeMap::new(2, MustExist, split_high as Splitter, Some(short), Vec::new());
    assert!(matches!(res, Err(TreeFileError::LogicError { .. })));
    let mut lying = vec![2u8, 0, 0, 0, 3, 0, 0, 0];
    lying.extend_from_slice(&[0u8; 16]);
    lying.push(9);
    let res = MultiFileTreeMap::new(2, OpenCreate, split_high as Splitter, Some(lying), Vec::new());
    assert!(matches!(res, Err(TreeFileError::LogicError { .. })));
}

#[test]
fn must_exist_needs_the_listed_shards() {
    let mut t = MultiFileTreeMap::new(2, TruncateCreate, split_high as Splitter, None, Vec::new()).unwrap();
    t.add_child(0, 0x0401, 0, 0, 0).unwrap();
    let (master, _shards) = t.into_files();
    let none: Vec<ShardFiles> = Vec::new();
    let res = MultiFileTreeMap::new(2, MustExist, split_high as Splitter, Some(master), none);
    assert!(matches!(res, Err(TreeFileError::NonExistingFiles)));
}

#[test]
fn len_counts_every_shard_node_once() {
    let mut t = MultiFileTreeMap::new(3, TruncateCreate, split_high as Splitter, None, Vec::new()).unwrap();
    assert_eq!(t.len(), 1);
    let a = t.add_child(0, 0x0101, 0, 0, 2).unwrap();
    t.add_child(0, 0x0201, 0, 0, 2).unwrap();
    t.add_child(a, 0x0001, 0, 0, 2).unwrap();
    assert_eq!(t.len(), 4);
}

#[test]
fn sharded_lookup_agrees_with_iteration() {
    let mut t = MultiFileTreeMap::new(3, TruncateCreate, split_high as Splitter, None, Vec::new()).unwrap();
    let a = t.add_child(0, 0x0101, 0, 0, 2).unwrap();
    t.add_child(0, 0x0102, 0, 0, 2).unwrap();
    t.add_child(0, 0x0201, 0, 0, 2).unwrap();
    t.add_child(a, 0x7777, 0, 0, 0).unwrap();
    let top = t.get_child_iter(0).into_vec();
    assert_eq!(top.len(), 3);
    for (key, id) in top {
        assert_eq!(t.get_child(0, key).unwrap().unwrap().node_id, id);
    }
    for (key, id) in t.get_child_iter(a).into_vec() {
        assert_eq!(t.get_child(a, key).unwrap().unwrap().node_id, id);
    }
    assert!(t.get_child(0, 0x0103).unwrap().is_none());
}
