//! One logical tree whose top-level children are spread over up to 256
//! single-file trees ("shards"), chosen by a splitter over the child's key.
//! A master record keeps the shard roster and the top node's counters.
use vstd::prelude::*;
use vstd::bytes::{
    spec_u32_to_le_bytes, spec_u64_to_le_bytes, u32_to_le_bytes, u64_to_le_bytes,
};
use crate::layout::{append_bytes, lemma_uint_roundtrips, read_u32, read_u64, u32_at, u64_at};
use crate::tree_map::{
    files_view, key_and_id, lemma_lookup_matches_iteration, lemma_parent_lists_child, lemma_reopen_round_trip as lemma_tree_reopen, opened_images, TreeFiles, TreeMap,
};
use crate::utils::{add_and_subtract, offset_value};
use crate::{Iter, NodeData, NodeId, OpenMode, TreeFileError};

verus! {

broadcast use vstd::seq::group_seq_axioms;

/// Size of the fixed part of the master record.
pub const MASTER_MIN_LENGTH: usize = 24;

/// The files of one shard, found on disk when the store is opened.
pub struct ShardFiles {
    pub selector: u8,
    pub files: TreeFiles,
}

/// A tree sharded over several single-file trees.
pub struct MultiFileTreeMap<F> where F: Fn(u16) -> u8 {
    master: Vec<u8>,
    selectors: Vec<u8>,
    trees: Vec<TreeMap>,
    stored: Vec<ShardFiles>,
    max_top_children: u32,
    hits: u64,
    score: u64,
    splitter: F,
    open_mode: OpenMode,
}

/// The bytes of a master record.
pub open spec fn master_bytes(max_top: u32, hits: u64, score: u64, selectors: Seq<u8>) -> Seq<u8> {
    spec_u32_to_le_bytes(max_top) + spec_u32_to_le_bytes(selectors.len() as u32)
        + spec_u64_to_le_bytes(hits) + spec_u64_to_le_bytes(score) + selectors
}

/// `old` with `buf` written over its start.
pub open spec fn write_at_start(old: Seq<u8>, buf: Seq<u8>) -> Seq<u8> {
    if buf.len() >= old.len() {
        buf
    } else {
        buf + old.subrange(buf.len() as int, old.len() as int)
    }
}

/// `s` without repeated values, each kept where it first stands.
pub open spec fn dedup(s: Seq<u8>) -> Seq<u8>
    decreases s.len(),
{
    if s.len() == 0 {
        s
    } else {
        let d = dedup(s.drop_last());
        if d.contains(s.last()) {
            d
        } else {
            d.push(s.last())
        }
    }
}

/// The images of the first shard files found for `selector`.
pub open spec fn stored_files(stored: Seq<ShardFiles>, selector: u8) -> Option<(Seq<u8>, Seq<u8>)>
    decreases stored.len(),
{
    if stored.len() == 0 {
        None
    } else if stored[0].selector == selector {
        Some(files_view(stored[0].files))
    } else {
        stored_files(stored.drop_first(), selector)
    }
}

/// The selectors listed by a master record.
pub open spec fn listed_selectors(m: Seq<u8>) -> Seq<u8> {
    m.subrange(MASTER_MIN_LENGTH as int, MASTER_MIN_LENGTH + u32_at(m, 4))
}

/// The master file an opening starts from: `None` where it must exist and
/// does not.
pub open spec fn found_master(open_mode: OpenMode, master: Option<Seq<u8>>) -> Option<Seq<u8>> {
    match open_mode {
        OpenMode::TruncateCreate => Some(Seq::empty()),
        OpenMode::OpenCreate => match master {
            Some(m) => Some(m),
            None => Some(Seq::empty()),
        },
        OpenMode::MustExist => master,
    }
}

/// Whether a master file is too short for what it lists.
pub open spec fn master_truncated(m: Seq<u8>) -> bool {
    m.len() >= MASTER_MIN_LENGTH && m.len() < MASTER_MIN_LENGTH + u32_at(m, 4)
}

impl<F> MultiFileTreeMap<F> where F: Fn(u16) -> u8 {
    pub closed spec fn master_image(&self) -> Seq<u8> {
        self.master@
    }

    /// The roster: the selectors of the shards, in the order they were added.
    pub closed spec fn selectors(&self) -> Seq<u8> {
        self.selectors@
    }

    /// The shard at place `i` of the roster.
    pub closed spec fn shard(&self, i: int) -> TreeMap {
        self.trees@[i]
    }

    pub closed spec fn stored(&self) -> Seq<ShardFiles> {
        self.stored@
    }

    pub closed spec fn max_top(&self) -> u32 {
        self.max_top_children
    }

    pub closed spec fn top_hits(&self) -> u64 {
        self.hits
    }

    pub closed spec fn top_score(&self) -> u64 {
        self.score
    }

    pub closed spec fn mode(&self) -> OpenMode {
        self.open_mode
    }

    pub closed spec fn splitter(&self) -> F {
        self.splitter
    }

    pub closed spec fn n_shards(&self) -> nat {
        self.trees@.len()
    }

    /// The roster lists each selector once, beside its shard; every shard is
    /// sound; the master file starts with the current master record; the
    /// splitter takes every key.
    pub open spec fn inv(&self) -> bool {
        &&& self.selectors().len() == self.n_shards()
        &&& self.selectors().len() <= u32::MAX
        &&& self.selectors().no_duplicates()
        &&& forall|i: int| 0 <= i < self.n_shards() ==> #[trigger] self.shard(i).inv()
        &&& self.master_image().len() >= MASTER_MIN_LENGTH + self.selectors().len()
        &&& self.master_image().subrange(
            0,
            MASTER_MIN_LENGTH + self.selectors().len(),
        ) == master_bytes(self.max_top(), self.top_hits(), self.top_score(), self.selectors())
        &&& forall|k: u16| call_requires(self.splitter(), (k,))
    }

    /// A shard not yet in the roster would open as a fresh tree: no files
    /// were found for it.
    pub open spec fn fresh_beyond_roster(&self) -> bool {
        forall|s: u8| !self.selectors().contains(s) ==> #[trigger] stored_files(self.stored(), s) is None
    }

    /// The invariants of a store built by this library: every shard is a
    /// well-formed tree, and so is every shard loaded later.
    pub open spec fn wf(&self) -> bool {
        &&& self.inv()
        &&& self.fresh_beyond_roster()
        &&& forall|i: int| 0 <= i < self.n_shards() ==> #[trigger] self.shard(i).wf()
    }

    /// The images a shard not yet in the roster is opened with: read-only
    /// dispatch (`create` is `None`) needs its files; `add_child` creates them
    /// where the store's mode allows, its top node allowing `create` children.
    pub open spec fn shard_images(&self, selector: u8, create: Option<u32>) -> Option<
        (Seq<u8>, Seq<u8>),
    > {
        let files = stored_files(self.stored(), selector);
        match create {
            None => opened_images(0, OpenMode::MustExist, files),
            Some(max) => if self.mode() == OpenMode::MustExist {
                opened_images(0, OpenMode::MustExist, files)
            } else {
                opened_images(max, self.mode(), files)
            },
        }
    }

    /// Whether the roster is full and lacks `selector`.
    pub open spec fn load_refused(&self, selector: u8) -> bool {
        !self.selectors().contains(selector) && self.n_shards() >= self.max_top()
    }

    /// Whether the shard `selector` is missing and must exist.
    pub open spec fn load_missing(&self, selector: u8, create: Option<u32>) -> bool {
        &&& !self.selectors().contains(selector)
        &&& !self.load_refused(selector)
        &&& self.shard_images(selector, create) is None
    }

    /// All of `self` but the shards at the places that `changed` admits is as in `old`.
    pub open spec fn same_but(&self, old: &Self, changed: spec_fn(int) -> bool) -> bool {
        &&& self.master_image() == old.master_image()
        &&& self.selectors() == old.selectors()
        &&& self.stored() == old.stored()
        &&& self.max_top() == old.max_top()
        &&& self.top_hits() == old.top_hits()
        &&& self.top_score() == old.top_score()
        &&& self.mode() == old.mode()
        &&& self.splitter() == old.splitter()
        &&& forall|i: int|
            0 <= i < self.n_shards() && !changed(i) ==> #[trigger] self.shard(i).same_images(
                &old.shard(i),
            )
    }

    /// `self` is `old` unchanged.
    pub open spec fn same_state(&self, old: &Self) -> bool {
        self.same_but(old, |i: int| false)
    }

    /// `self` is `old` with the shard `selector` in the roster, opened where
    /// it was not there.
    pub open spec fn shard_loaded(&self, old: &Self, selector: u8, create: Option<u32>) -> bool {
        if old.selectors().contains(selector) {
            self.same_state(old)
        } else {
            let n = old.n_shards() as int;
            let images = old.shard_images(selector, create)->Some_0;
            &&& self.inv()
            &&& self.selectors() == old.selectors().push(selector)
            &&& self.stored() == old.stored()
            &&& self.max_top() == old.max_top()
            &&& self.top_hits() == old.top_hits()
            &&& self.top_score() == old.top_score()
            &&& self.mode() == old.mode()
            &&& self.splitter() == old.splitter()
            &&& forall|i: int| 0 <= i < n ==> #[trigger] self.shard(i).same_images(&old.shard(i))
            &&& self.shard(n).node_image() == images.0
            &&& self.shard(n).map_image() == images.1
            &&& self.master_image() == write_at_start(
                old.master_image(),
                master_bytes(old.max_top(), old.top_hits(), old.top_score(), self.selectors()),
            )
        }
    }

    /// The shard `selector`, where the roster has it.
    pub open spec fn shard_of(&self, selector: u8) -> TreeMap {
        self.shard(index_of(self.selectors(), selector))
    }

    /// The composite top node, made from the master record.
    pub open spec fn top_data(&self) -> NodeData {
        NodeData {
            node_id: 0,
            node_pos: 0,
            parent: None,
            hits: self.top_hits(),
            score: self.top_score(),
            first_child_pos: 0,
            n_children: self.n_shards() as u32,
            max_children: self.max_top(),
        }
    }

    /// The children of the top nodes of the first `k` shards of the roster.
    pub open spec fn top_children(&self, k: int) -> Seq<(u16, NodeId)>
        decreases k,
    {
        if k <= 0 {
            Seq::empty()
        } else {
            self.top_children(k - 1) + reencode_all(
                self.shard(k - 1).iter_children(0),
                self.selectors()[k - 1],
            )
        }
    }

    /// Every top-level child of every shard sits in the shard that the
    /// splitter gives for its key.
    pub open spec fn routed(&self) -> bool {
        forall|i: int, j: int|
            0 <= i < self.n_shards() && 0 <= j < self.shard(i).iter_children(0).len()
                ==> call_ensures(
                self.splitter(),
                (#[trigger] self.shard(i).iter_children(0)[j].0,),
                self.selectors()[i],
            )
    }

    /// The nodes of the first `k` shards of the roster, their tops left out.
    pub open spec fn locals_count(&self, k: int) -> int
        decreases k,
    {
        if k <= 0 {
            0
        } else {
            self.locals_count(k - 1) + self.shard(k - 1).len_spec() - 1
        }
    }

    /// `self` is what `old` becomes when the dispatch to shard `selector`
    /// fails to load it, or loads it.
    pub open spec fn load_post(&self, old: &Self, selector: u8, create: Option<u32>) -> bool {
        &&& self.inv()
        &&& old.load_refused(selector) ==> self.same_state(old)
        &&& old.load_missing(selector, create) ==> self.same_state(old)
        &&& !old.load_refused(selector) && !old.load_missing(selector, create)
            ==> self.shard_loaded(old, selector, create)
    }

    /// `new` and `r` are what `get_child` leaves and returns when it asks
    /// shard `selector` for the child with `key` of `node`.
    pub open spec fn child_post(
        &self,
        new: &Self,
        node: NodeId,
        selector: u8,
        key: u16,
        r: Result<Option<NodeData>, TreeFileError>,
    ) -> bool {
        &&& new.load_post(self, selector, None)
        &&& self.wf() ==> new.wf()
        &&& self.load_refused(selector) ==> r is Err && r->Err_0 is LogicError
        &&& self.load_missing(selector, None) ==> r == Ok::<Option<NodeData>, TreeFileError>(None)
        &&& !self.load_refused(selector) && !self.load_missing(selector, None) ==> exists|
            r0: Result<Option<NodeData>, TreeFileError>,
        |
            #[trigger] new.shard_of(selector).child_result(local_of(node) as int, key, r0) && r
                == reencode_child(r0, selector)
    }

    /// `new` and `r` are what `add_child` leaves and returns when it adds the
    /// child to shard `selector`.
    pub open spec fn add_post(
        &self,
        new: &Self,
        node: NodeId,
        selector: u8,
        key: u16,
        hits: u64,
        score: u64,
        max_children: u32,
        r: Result<NodeId, TreeFileError>,
    ) -> bool {
        let create = Some(self.max_top());
        &&& new.inv()
        &&& self.wf() ==> new.wf()
        &&& self.load_refused(selector) ==> r is Err && r->Err_0 is LogicError && new.same_state(
            self,
        )
        &&& self.load_missing(selector, create) ==> r is Err && r->Err_0
            == TreeFileError::NonExistingFiles && new.same_state(self)
        &&& !self.load_refused(selector) && !self.load_missing(selector, create) ==> exists|
            mid: Self,
        |
            #[trigger] self.added_via(
                &mid,
                new,
                node,
                selector,
                key,
                hits,
                score,
                max_children,
                r,
            )
    }

    /// `mid` is `self` with the shard `selector` loaded, and `new` and `r`
    /// are what adding the child to that shard leaves and returns.
    pub open spec fn added_via(
        &self,
        mid: &Self,
        new: &Self,
        node: NodeId,
        selector: u8,
        key: u16,
        hits: u64,
        score: u64,
        max_children: u32,
        r: Result<NodeId, TreeFileError>,
    ) -> bool {
        let i = index_of(mid.selectors(), selector);
        &&& mid.shard_loaded(self, selector, Some(self.max_top()))
        &&& new.same_but(mid, |j: int| j == i)
        &&& exists|r0: Result<NodeId, TreeFileError>|
            #[trigger] new.shard(i).add_result(
                &mid.shard(i),
                local_of(node) as int,
                key,
                hits,
                score,
                max_children,
                r0,
            ) && r == reencode_id(r0, selector)
    }

    /// `mid` is `self` with the shard `selector` loaded, and `new` and `r`
    /// are what moving the counters of `node` in that shard leaves and returns.
    pub open spec fn updated_via(
        &self,
        mid: &Self,
        new: &Self,
        node: NodeId,
        selector: u8,
        hits: i64,
        score: i64,
        r: Result<(), TreeFileError>,
    ) -> bool {
        let i = index_of(mid.selectors(), selector);
        &&& mid.shard_loaded(self, selector, None)
        &&& new.same_but(mid, |j: int| j == i)
        &&& new.shard(i).update_result(&mid.shard(i), local_of(node) as int, hits, score, r)
    }

    /// `self` is what opening the master file `m` and the shard files
    /// `stored` gives.
    pub open spec fn opened_from(
        &self,
        m: Seq<u8>,
        max_file_splits: u32,
        open_mode: OpenMode,
        stored: Seq<ShardFiles>,
        splitter: F,
    ) -> bool {
        let has = m.len() >= MASTER_MIN_LENGTH;
        &&& self.max_top() == if has {
            u32_at(m, 0)
        } else {
            max_file_splits
        }
        &&& self.top_hits() == if has {
            u64_at(m, 8)
        } else {
            0
        }
        &&& self.top_score() == if has {
            u64_at(m, 16)
        } else {
            0
        }
        &&& self.selectors() == if has {
            dedup(listed_selectors(m))
        } else {
            Seq::empty()
        }
        &&& forall|i: int|
            0 <= i < self.n_shards() ==> #[trigger] shard_opened_as(
                open_mode,
                stored,
                self.selectors()[i],
                self.shard(i),
            )
        &&& self.master_image() == write_at_start(
            m,
            master_bytes(self.max_top(), self.top_hits(), self.top_score(), self.selectors()),
        )
        &&& self.stored() == stored
        &&& self.mode() == open_mode
        &&& self.splitter() == splitter
    }

    /// Opens the store from the image of its master file (`None` where it
    /// does not exist) and the files of the shards found beside it, as
    /// `open_mode` says; `max_file_splits` bounds the roster of a new store.
    pub fn new(
        max_file_splits: u32,
        open_mode: OpenMode,
        splitter: F,
        master: Option<Vec<u8>>,
        shards: Vec<ShardFiles>,
    ) -> (r: Result<MultiFileTreeMap<F>, TreeFileError>)
        requires
            forall|k: u16| call_requires(splitter, (k,)),
        ensures
            match found_master(
                open_mode,
                match master {
                    Some(v) => Some(v@),
                    None => None,
                },
            ) {
                None => r is Err && r->Err_0 == TreeFileError::NonExistingFiles,
                Some(m) => {
                    &&& (m.len() < MASTER_MIN_LENGTH && open_mode == OpenMode::MustExist)
                        || master_truncated(m) ==> r is Err && r->Err_0 is LogicError
                    &&& m.len() >= MASTER_MIN_LENGTH && !master_truncated(m) && listed_missing(
                        m,
                        open_mode,
                        shards@,
                    ) ==> r is Err && r->Err_0 == TreeFileError::NonExistingFiles
                    &&& !(m.len() < MASTER_MIN_LENGTH && open_mode == OpenMode::MustExist)
                        && !master_truncated(m) && !(m.len() >= MASTER_MIN_LENGTH
                        && listed_missing(m, open_mode, shards@)) ==> r is Ok && r->Ok_0.inv()
                        && r->Ok_0.opened_from(m, max_file_splits, open_mode, shards@, splitter)
                },
            },
            r is Ok && r->Ok_0.n_shards() == 0 && shards@.len() == 0 ==> r->Ok_0.wf(),
    {
        let master_file = match open_mode {
            OpenMode::TruncateCreate => Vec::new(),
            OpenMode::OpenCreate => match master {
                Some(v) => v,
                None => Vec::new(),
            },
            OpenMode::MustExist => match master {
                Some(v) => v,
                None => {
                    return Err(TreeFileError::NonExistingFiles);
                },
            },
        };
        let mut tree = MultiFileTreeMap {
            master: master_file,
            selectors: Vec::new(),
            trees: Vec::new(),
            stored: shards,
            max_top_children: max_file_splits,
            hits: 0,
            score: 0,
            splitter,
            open_mode,
        };
        let ghost m = tree.master@;
        let ghost stored = tree.stored@;
        tree.load_master_data(open_mode)?;
        let ghost loaded = tree;
        save_master_data(
            &mut tree.master,
            tree.max_top_children,
            tree.hits,
            tree.score,
            &tree.selectors,
        );
        assert forall|i: int| 0 <= i < tree.n_shards() implies #[trigger] shard_opened_as(
            open_mode,
            stored,
            tree.selectors()[i],
            tree.shard(i),
        ) by {
            assert(tree.shard(i) == loaded.shard(i));
            assert(shard_opened_as(open_mode, stored, loaded.selectors()[i], loaded.shard(i)));
        }
        assert forall|i: int| 0 <= i < tree.n_shards() implies #[trigger] tree.shard(i).inv() by {
            assert(shard_opened_as(open_mode, stored, tree.selectors()[i], tree.shard(i)));
        }
        Ok(tree)
    }

    /// Adds the shard `tree_selector` to the roster, opening its files.
    fn add_tree(&mut self, tree_selector: u8, create: Option<u32>) -> (r: Result<(), TreeFileError>)
        requires
            old(self).inv(),
            !old(self).selectors().contains(tree_selector),
        ensures
            final(self).inv(),
            old(self).wf() ==> final(self).wf(),
            old(self).load_refused(tree_selector) ==> r is Err && r->Err_0 is LogicError
                && final(self).same_state(old(self)),
            old(self).load_missing(tree_selector, create) ==> r is Err && r->Err_0
                == TreeFileError::NonExistingFiles && final(self).same_state(old(self)),
            !old(self).load_refused(tree_selector) && !old(self).load_missing(tree_selector, create)
                ==> r is Ok && final(self).shard_loaded(old(self), tree_selector, create),
    {
        if self.trees.len() >= self.max_top_children as usize {
            return Err(
                TreeFileError::LogicError {
                    msg: "trying to add more children than allowed for parent".to_owned(),
                },
            );
        }
        let files = stored_copy(&self.stored, tree_selector);
        let tree = match create {
            None => TreeMap::new(0, OpenMode::MustExist, files)?,
            Some(max) => match self.open_mode {
                OpenMode::MustExist => TreeMap::new(0, OpenMode::MustExist, files)?,
                OpenMode::OpenCreate => TreeMap::new(max, OpenMode::OpenCreate, files)?,
                OpenMode::TruncateCreate => TreeMap::new(max, OpenMode::TruncateCreate, files)?,
            },
        };
        let ghost old_self = *self;
        self.selectors.push(tree_selector);
        self.trees.push(tree);
        save_master_data(
            &mut self.master,
            self.max_top_children,
            self.hits,
            self.score,
            &self.selectors,
        );
        proof {
            assert forall|i: int| 0 <= i < self.n_shards() implies #[trigger] self.shard(i).inv() by {
                if i < old_self.n_shards() {
                    assert(self.shard(i) == old_self.shard(i));
                }
            }
            assert forall|i: int| 0 <= i < old_self.n_shards() implies #[trigger] self.shard(
                i,
            ).same_images(&old_self.shard(i)) by {
                assert(self.shard(i) == old_self.shard(i));
            }
            let sels = self.selectors@;
            assert forall|i: int, j: int| 0 <= i < sels.len() && 0 <= j < sels.len() && i != j implies sels[i]
                != sels[j] by {
                if i < old_self.selectors@.len() && j < old_self.selectors@.len() {
                    assert(old_self.selectors@[i] != old_self.selectors@[j]);
                } else if i < old_self.selectors@.len() {
                    assert(old_self.selectors@.contains(sels[i]));
                } else {
                    assert(old_self.selectors@.contains(sels[j]));
                }
            }
            assert(self.shard(old_self.n_shards() as int) == tree);
            assert forall|k: u16| call_requires(self.splitter(), (k,)) by {
                assert(call_requires(old_self.splitter(), (k,)));
            }
            if old_self.wf() {
                assert(stored_files(old_self.stored(), tree_selector) is None);
                lemma_uint_roundtrips();
                assert(tree.wf());
                assert forall|j: int| 0 <= j < self.n_shards() implies #[trigger] self.shard(j).wf() by {
                    if j < old_self.n_shards() {
                        assert(self.shard(j) == old_self.shard(j));
                    }
                }
                assert forall|x: u8| !self.selectors().contains(x) implies #[trigger] stored_files(
                    self.stored(),
                    x,
                ) is None by {
                    if old_self.selectors().contains(x) {
                        let j = choose|j: int| 0 <= j < old_self.selectors().len() && old_self.selectors()[j] == x;
                        assert(self.selectors()[j] == x);
                    }
                }
            }
        }
        Ok(())
    }

    /// Makes sure the shard `tree_selector` is in the roster; returns its place.
    fn load_tree(&mut self, tree_selector: u8, create: Option<u32>) -> (r: Result<
        usize,
        TreeFileError,
    >)
        requires
            old(self).inv(),
        ensures
            final(self).load_post(old(self), tree_selector, create),
            old(self).wf() ==> final(self).wf(),
            old(self).load_refused(tree_selector) ==> r is Err && r->Err_0 is LogicError,
            old(self).load_missing(tree_selector, create) ==> r is Err && r->Err_0
                == TreeFileError::NonExistingFiles,
            r is Err ==> old(self).load_refused(tree_selector) || old(self).load_missing(
                tree_selector,
                create,
            ),
            r is Ok ==> r->Ok_0 < final(self).n_shards() && r->Ok_0 == index_of(
                final(self).selectors(),
                tree_selector,
            ) && final(self).selectors()[r->Ok_0 as int] == tree_selector,
    {
        match find_tree(&self.selectors, tree_selector) {
            Some(i) => {
                proof {
                    lemma_index_of(self.selectors@, i as int);
                }
                Ok(i)
            },
            None => {
                self.add_tree(tree_selector, create)?;
                let i = self.trees.len() - 1;
                proof {
                    lemma_index_of(self.selectors@, i as int);
                }
                Ok(i)
            },
        }
    }

    pub fn get_top(&self) -> (r: NodeId)
        ensures
            r == 0,
    {
        0
    }

    /// The number of nodes: the composite top, and every node of every shard
    /// but the shard's own top (at most `usize::MAX`).
    pub fn len(&self) -> (r: usize)
        requires
            self.inv(),
        ensures
            r == if 1 + self.locals_count(self.n_shards() as int) <= usize::MAX {
                1 + self.locals_count(self.n_shards() as int)
            } else {
                usize::MAX as int
            },
    {
        let mut total: usize = 1;
        let mut i: usize = 0;
        while i < self.trees.len()
            invariant
                i <= self.trees@.len(),
                self.inv(),
                total == if 1 + self.locals_count(i as int) <= usize::MAX {
                    1 + self.locals_count(i as int)
                } else {
                    usize::MAX as int
                },
            decreases self.trees@.len() - i,
        {
            assert(self.shard(i as int).inv());
            let l = self.trees[i].len() - 1;
            if l > usize::MAX - total {
                total = usize::MAX;
            } else {
                total = total + l;
            }
            i = i + 1;
        }
        total
    }

    /// The node `node`; the top node is made from the master record.
    pub fn get_node(&mut self, node: NodeId) -> (r: Result<NodeData, TreeFileError>)
        requires
            old(self).inv(),
        ensures
            old(self).wf() ==> final(self).wf(),
            node == 0 ==> r == Ok::<NodeData, TreeFileError>(old(self).top_data()) && final(self).same_state(old(self)),
            node != 0 ==> {
                let selector = sel_of(node);
                let t = final(self).shard_of(selector);
                let l = local_of(node) as int;
                &&& final(self).load_post(old(self), selector, None)
                &&& old(self).load_refused(selector) ==> r is Err && r->Err_0 is LogicError
                &&& old(self).load_missing(selector, None) ==> r is Err && r->Err_0
                    == TreeFileError::NonExistingFiles
                &&& !old(self).load_refused(selector) && !old(self).load_missing(selector, None)
                    ==> if l < t.len_spec() {
                    r == Ok::<NodeData, TreeFileError>(reencode(t.node(l), selector))
                } else {
                    r == Err::<NodeData, TreeFileError>(TreeFileError::NonExistingNode)
                }
            },
    {
        if node == self.get_top() {
            return Ok(self.get_top_node_data());
        }
        let tree_selector = selector_from_selector_node(node);
        let i = self.load_tree(tree_selector, None)?;
        proof {
            assert(self.shard(i as int).inv());
        }
        let mut n = self.trees[i].get_node(node_from_selector_node(node))?;
        n.node_id = selector_node_from_node(n.node_id, tree_selector);
        Ok(n)
    }

    /// The composite top node.
    fn get_top_node_data(&self) -> (r: NodeData)
        ensures
            r == self.top_data(),
    {
        NodeData {
            node_id: 0,
            node_pos: 0,
            parent: None,
            hits: self.hits,
            score: self.score,
            first_child_pos: 0,
            n_children: self.trees.len() as u32,
            max_children: self.max_top_children,
        }
    }

    /// Adds a child with `key` under `node`, in shard `tree_selector`: the
    /// splitter's choice for a child of the top, the shard of `node` otherwise.
    pub fn add_child_in_shard(
        &mut self,
        node: NodeId,
        tree_selector: u8,
        key: u16,
        hits: u64,
        score: u64,
        max_children: u32,
    ) -> (r: Result<NodeId, TreeFileError>)
        requires
            old(self).inv(),
        ensures
            old(self).add_post(
                final(self),
                node,
                tree_selector,
                key,
                hits,
                score,
                max_children,
                r,
            ),
    {
        let i = self.load_tree(tree_selector, Some(self.max_top_children))?;
        let ghost mid = *self;
        proof {
            assert(self.shard(i as int).inv());
        }
        let mut t = self.trees.remove(i);
        let res = t.add_child(node_from_selector_node(node), key, hits, score, max_children);
        self.trees.insert(i, t);
        proof {
            assert(self.trees@ =~= mid.trees@.update(i as int, t));
            assert forall|j: int| 0 <= j < self.n_shards() implies #[trigger] self.shard(j).inv() by {
                if j != i {
                    assert(self.shard(j) == mid.shard(j));
                }
            }
            assert forall|j: int| 0 <= j < self.n_shards() && !((|k: int| k == i as int)(j)) implies #[trigger] self.shard(
                j,
            ).same_images(&mid.shard(j)) by {
                assert(self.shard(j) == mid.shard(j));
            }
            assert forall|k: u16| call_requires(self.splitter(), (k,)) by {
                assert(call_requires(mid.splitter(), (k,)));
            }
            assert(self.shard(i as int).add_result(
                &mid.shard(i as int),
                local_of(node) as int,
                key,
                hits,
                score,
                max_children,
                res,
            ));
            assert(mid.shard_loaded(old(self), tree_selector, Some(old(self).max_top())));
            if old(self).wf() {
                assert(mid.wf());
                assert(mid.shard(i as int).wf());
                assert forall|j: int| 0 <= j < self.n_shards() implies #[trigger] self.shard(j).wf() by {
                    if j != i {
                        assert(self.shard(j) == mid.shard(j));
                        assert(mid.shard(j).wf());
                    }
                }
                assert forall|x: u8| !self.selectors().contains(x) implies #[trigger] stored_files(
                    self.stored(),
                    x,
                ) is None by {
                    assert(stored_files(mid.stored(), x) is None);
                }
            }
        }
        let out = match res {
            Ok(n) => Ok(selector_node_from_node(n, tree_selector)),
            Err(e) => Err(e),
        };
        proof {
            assert(old(self).added_via(
                &mid,
                self,
                node,
                tree_selector,
                key,
                hits,
                score,
                max_children,
                out,
            ));
        }
        out
    }

    /// Adds a child with `key` under `node`; returns its id, which names its
    /// shard in its low byte.
    pub fn add_child(
        &mut self,
        node: NodeId,
        key: u16,
        hits: u64,
        score: u64,
        max_children: u32,
    ) -> (r: Result<NodeId, TreeFileError>)
        requires
            old(self).inv(),
        ensures
            node == 0 ==> exists|s: u8|
                call_ensures(old(self).splitter(), (key,), s) && #[trigger] old(self).add_post(
                    final(self),
                    node,
                    s,
                    key,
                    hits,
                    score,
                    max_children,
                    r,
                ),
            node != 0 ==> old(self).add_post(
                final(self),
                node,
                sel_of(node),
                key,
                hits,
                score,
                max_children,
                r,
            ),
    {
        let tree_selector = self.get_selector(node, key);
        self.add_child_in_shard(node, tree_selector, key, hits, score, max_children)
    }

    /// The child with `key` of `node`, looked up in shard `tree_selector`;
    /// none where that shard does not exist.
    pub fn get_child_in_shard(&mut self, node: NodeId, tree_selector: u8, key: u16) -> (r: Result<
        Option<NodeData>,
        TreeFileError,
    >)
        requires
            old(self).inv(),
        ensures
            old(self).child_post(final(self), node, tree_selector, key, r),
    {
        let i = match self.load_tree(tree_selector, None) {
            Ok(i) => i,
            Err(TreeFileError::NonExistingFiles) => {
                return Ok(None);
            },
            Err(e) => {
                return Err(e);
            },
        };
        proof {
            assert(self.shard(i as int).inv());
        }
        let res = self.trees[i].get_child(node_from_selector_node(node), key);
        proof {
            assert(self.shard_of(tree_selector).child_result(local_of(node) as int, key, res));
        }
        match res {
            Ok(Some(mut nd)) => {
                nd.node_id = selector_node_from_node(nd.node_id, tree_selector);
                Ok(Some(nd))
            },
            Ok(None) => Ok(None),
            Err(e) => Err(e),
        }
    }

    /// The child with `key` of `node`, if any.
    pub fn get_child(&mut self, node: NodeId, key: u16) -> (r: Result<Option<NodeData>, TreeFileError>)
        requires
            old(self).inv(),
        ensures
            node == 0 ==> exists|s: u8|
                call_ensures(old(self).splitter(), (key,), s) && #[trigger] old(self).child_post(
                    final(self),
                    node,
                    s,
                    key,
                    r,
                ),
            node != 0 ==> old(self).child_post(final(self), node, sel_of(node), key, r),
    {
        let tree_selector = self.get_selector(node, key);
        self.get_child_in_shard(node, tree_selector, key)
    }

    /// The parent of `node`; the composite top where it is the top of a shard.
    pub fn get_parent(&mut self, node: NodeId) -> (r: Result<Option<NodeData>, TreeFileError>)
        requires
            old(self).inv(),
        ensures
            old(self).wf() ==> final(self).wf(),
            node == 0 ==> r == Ok::<Option<NodeData>, TreeFileError>(None) && final(self).same_state(
                old(self),
            ),
            node != 0 ==> {
                let selector = sel_of(node);
                &&& final(self).load_post(old(self), selector, None)
                &&& old(self).load_refused(selector) ==> r is Err && r->Err_0 is LogicError
                &&& old(self).load_missing(selector, None) ==> r is Err && r->Err_0
                    == TreeFileError::NonExistingFiles
                &&& !old(self).load_refused(selector) && !old(self).load_missing(selector, None)
                    ==> exists|r0: Result<Option<NodeData>, TreeFileError>|
                    #[trigger] final(self).shard_of(selector).parent_result(
                        local_of(node) as int,
                        r0,
                    ) && r == match r0 {
                        Ok(Some(nd)) => if nd.node_id == 0 {
                            Ok(Some(final(self).top_data()))
                        } else {
                            Ok(Some(reencode(nd, selector)))
                        },
                        _ => r0,
                    }
            },
    {
        if node == self.get_top() {
            return Ok(None);
        }
        let tree_selector = selector_from_selector_node(node);
        let i = self.load_tree(tree_selector, None)?;
        proof {
            assert(self.shard(i as int).inv());
        }
        let res = self.trees[i].get_parent(node_from_selector_node(node));
        proof {
            assert(self.shard_of(tree_selector).parent_result(local_of(node) as int, res));
        }
        match res {
            Ok(Some(mut nd)) => {
                if nd.node_id == self.get_top() {
                    Ok(Some(self.get_top_node_data()))
                } else {
                    nd.node_id = selector_node_from_node(nd.node_id, tree_selector);
                    Ok(Some(nd))
                }
            },
            Ok(None) => Ok(None),
            Err(e) => Err(e),
        }
    }

    /// Moves the counters of `node` by the given deltas; those of the top
    /// node live in the master record.
    pub fn update_node_add(&mut self, node: NodeId, hits: i64, score: i64) -> (r: Result<
        (),
        TreeFileError,
    >)
        requires
            old(self).inv(),
        ensures
            final(self).inv(),
            old(self).wf() ==> final(self).wf(),
            node == 0 && (offset_value(old(self).top_hits(), hits) is None || offset_value(
                old(self).top_score(),
                score,
            ) is None) ==> r is Err && r->Err_0 is LogicError && final(self).same_state(old(self)),
            node == 0 && offset_value(old(self).top_hits(), hits) is Some && offset_value(
                old(self).top_score(),
                score,
            ) is Some ==> {
                let h = offset_value(old(self).top_hits(), hits)->Some_0;
                let s = offset_value(old(self).top_score(), score)->Some_0;
                &&& r is Ok
                &&& final(self).top_hits() == h
                &&& final(self).top_score() == s
                &&& final(self).master_image() == write_at_start(
                    old(self).master_image(),
                    master_bytes(old(self).max_top(), h, s, old(self).selectors()),
                )
                &&& final(self).selectors() == old(self).selectors()
                &&& final(self).stored() == old(self).stored()
                &&& final(self).max_top() == old(self).max_top()
                &&& final(self).mode() == old(self).mode()
                &&& forall|i: int|
                    0 <= i < old(self).n_shards() ==> #[trigger] final(self).shard(i).same_images(
                        &old(self).shard(i),
                    )
            },
            node != 0 ==> {
                let selector = sel_of(node);
                &&& old(self).load_refused(selector) ==> r is Err && r->Err_0 is LogicError
                    && final(self).same_state(old(self))
                &&& old(self).load_missing(selector, None) ==> r is Err && r->Err_0
                    == TreeFileError::NonExistingFiles && final(self).same_state(old(self))
                &&& !old(self).load_refused(selector) && !old(self).load_missing(selector, None)
                    ==> exists|mid: Self|
                    #[trigger] old(self).updated_via(
                        &mid,
                        final(self),
                        node,
                        selector,
                        hits,
                        score,
                        r,
                    )
            },
    {
        if node == self.get_top() {
            let new_hits = add_and_subtract(self.hits, hits)?;
            let new_score = add_and_subtract(self.score, score)?;
            let ghost before = *self;
            self.hits = new_hits;
            self.score = new_score;
            save_master_data(
                &mut self.master,
                self.max_top_children,
                self.hits,
                self.score,
                &self.selectors,
            );
            proof {
                assert forall|k: u16| call_requires(self.splitter(), (k,)) by {
                    assert(call_requires(before.splitter(), (k,)));
                }
                assert forall|i: int| 0 <= i < self.n_shards() implies #[trigger] self.shard(i).inv() by {
                    assert(self.shard(i) == before.shard(i));
                }
                assert forall|i: int| 0 <= i < before.n_shards() implies #[trigger] self.shard(
                    i,
                ).same_images(&before.shard(i)) by {
                    assert(self.shard(i) == before.shard(i));
                }
                if before.wf() {
                    assert forall|i: int| 0 <= i < self.n_shards() implies #[trigger] self.shard(i).wf() by {
                        assert(self.shard(i) == before.shard(i));
                        assert(before.shard(i).wf());
                    }
                    assert forall|x: u8| !self.selectors().contains(x) implies #[trigger] stored_files(
                        self.stored(),
                        x,
                    ) is None by {
                        assert(stored_files(before.stored(), x) is None);
                    }
                }
            }
            return Ok(());
        }
        let tree_selector = selector_from_selector_node(node);
        let i = self.load_tree(tree_selector, None)?;
        let ghost mid = *self;
        proof {
            assert(self.shard(i as int).inv());
        }
        let mut t = self.trees.remove(i);
        let res = t.update_node_add(node_from_selector_node(node), hits, score);
        self.trees.insert(i, t);
        proof {
            assert(self.trees@ =~= mid.trees@.update(i as int, t));
            assert forall|j: int| 0 <= j < self.n_shards() implies #[trigger] self.shard(j).inv() by {
                if j != i {
                    assert(self.shard(j) == mid.shard(j));
                }
            }
            assert forall|j: int| 0 <= j < self.n_shards() && !((|k: int| k == i as int)(j)) implies #[trigger] self.shard(
                j,
            ).same_images(&mid.shard(j)) by {
                assert(self.shard(j) == mid.shard(j));
            }
            assert forall|k: u16| call_requires(self.splitter(), (k,)) by {
                assert(call_requires(mid.splitter(), (k,)));
            }
            assert(mid.shard_loaded(old(self), tree_selector, None));
            assert(old(self).updated_via(&mid, self, node, tree_selector, hits, score, res));
            if old(self).wf() {
                assert(mid.wf());
                assert(mid.shard(i as int).wf());
                assert forall|j: int| 0 <= j < self.n_shards() implies #[trigger] self.shard(j).wf() by {
                    if j != i {
                        assert(self.shard(j) == mid.shard(j));
                        assert(mid.shard(j).wf());
                    }
                }
                assert forall|x: u8| !self.selectors().contains(x) implies #[trigger] stored_files(
                    self.stored(),
                    x,
                ) is None by {
                    assert(stored_files(mid.stored(), x) is None);
                }
            }
        }
        res
    }

    /// The children of `node`, as (key, node id); those of the top node are
    /// the top-level children of every shard, each named with the selector of
    /// the shard it sits in. None where the shard of `node` cannot be loaded.
    pub fn get_child_iter(&mut self, node: NodeId) -> (r: Iter)
        requires
            old(self).inv(),
        ensures
            old(self).wf() ==> final(self).wf(),
            node == 0 ==> r.remaining() == old(self).top_children(old(self).n_shards() as int)
                && final(self).same_state(old(self)),
            node != 0 ==> {
                let selector = sel_of(node);
                &&& final(self).load_post(old(self), selector, None)
                &&& old(self).load_refused(selector) || old(self).load_missing(selector, None)
                    ==> r.remaining() == Seq::<(u16, NodeId)>::empty()
                &&& !old(self).load_refused(selector) && !old(self).load_missing(selector, None)
                    ==> r.remaining() == reencode_all(
                    final(self).shard_of(selector).iter_children(local_of(node) as int),
                    selector,
                )
            },
    {
        let mut key_vals: Vec<(u16, NodeId)> = Vec::new();
        if node == self.get_top() {
            let mut i: usize = 0;
            while i < self.trees.len()
                invariant
                    i <= self.trees@.len(),
                    self.inv(),
                    key_vals@ == self.top_children(i as int),
                decreases self.trees@.len() - i,
            {
                assert(self.shard(i as int).inv());
                let children = self.trees[i].get_child_iter(0).into_vec();
                let tree_selector = self.selectors[i];
                let mut j: usize = 0;
                while j < children.len()
                    invariant
                        j <= children@.len(),
                        key_vals@ == self.top_children(i as int) + reencode_all(
                            children@.subrange(0, j as int),
                            tree_selector,
                        ),
                    decreases children@.len() - j,
                {
                    let (k, n) = children[j];
                    key_vals.push((k, selector_node_from_node(n, tree_selector)));
                    j = j + 1;
                    assert(key_vals@ =~= self.top_children(i as int) + reencode_all(
                        children@.subrange(0, j as int),
                        tree_selector,
                    ));
                }
                assert(children@.subrange(0, j as int) =~= children@);
                i = i + 1;
            }
            return Iter::new(key_vals);
        }
        let tree_selector = selector_from_selector_node(node);
        let i = match self.load_tree(tree_selector, None) {
            Ok(i) => i,
            Err(_) => {
                return Iter::new(key_vals);
            },
        };
        proof {
            assert(self.shard(i as int).inv());
        }
        let children = self.trees[i].get_child_iter(node_from_selector_node(node)).into_vec();
        let mut j: usize = 0;
        while j < children.len()
            invariant
                j <= children@.len(),
                key_vals@ == reencode_all(children@.subrange(0, j as int), tree_selector),
            decreases children@.len() - j,
        {
            let (k, n) = children[j];
            key_vals.push((k, selector_node_from_node(n, tree_selector)));
            j = j + 1;
            assert(key_vals@ =~= reencode_all(children@.subrange(0, j as int), tree_selector));
        }
        assert(children@.subrange(0, j as int) =~= children@);
        Iter::new(key_vals)
    }

    /// The image of the master file.
    pub fn master_file(&self) -> (r: &Vec<u8>)
        ensures
            r@ == self.master_image(),
    {
        &self.master
    }

    /// The number of shards in the roster.
    pub fn shard_count(&self) -> (r: usize)
        requires
            self.inv(),
        ensures
            r == self.n_shards(),
    {
        self.trees.len()
    }

    /// The selector of the shard at place `i` of the roster.
    pub fn shard_selector(&self, i: usize) -> (r: u8)
        requires
            self.inv(),
            i < self.n_shards(),
        ensures
            r == self.selectors()[i as int],
    {
        self.selectors[i]
    }

    /// The shard at place `i` of the roster.
    pub fn shard_tree(&self, i: usize) -> (r: &TreeMap)
        requires
            self.inv(),
            i < self.n_shards(),
        ensures
            *r == self.shard(i as int),
    {
        &self.trees[i]
    }

    /// The image of the master file, and the files of the shards of the roster.
    pub fn into_files(self) -> (r: (Vec<u8>, Vec<ShardFiles>))
        requires
            self.inv(),
        ensures
            r.0@ == self.master_image(),
            r.1@.len() == self.n_shards(),
            forall|i: int|
                0 <= i < self.n_shards() ==> #[trigger] r.1@[i].selector == self.selectors()[i]
                    && files_view(r.1@[i].files) == (
                    self.shard(i).node_image(),
                    self.shard(i).map_image(),
                ),
    {
        let MultiFileTreeMap { master, selectors, trees, .. } = self;
        let mut trees = trees;
        let mut shards: Vec<ShardFiles> = Vec::new();
        let ghost all = trees@;
        let n = trees.len();
        let mut i: usize = 0;
        let mut rest: Vec<TreeMap> = Vec::new();
        while i < n
            invariant
                i <= n,
                n == all.len(),
                n == selectors@.len(),
                trees@ == all.subrange(i as int, n as int),
                shards@.len() == i,
                forall|k: int|
                    0 <= k < i ==> #[trigger] shards@[k].selector == selectors@[k] && files_view(
                        shards@[k].files,
                    ) == (all[k].node_image(), all[k].map_image()),
            decreases n - i,
        {
            let t = trees.remove(0);
            let files = t.into_files();
            shards.push(ShardFiles { selector: selectors[i], files });
            i = i + 1;
            assert(trees@ =~= all.subrange(i as int, n as int));
        }
        (master, shards)
    }

    /// The shard that holds the child with `key` of `node`.
    fn get_selector(&self, node: NodeId, key: u16) -> (r: u8)
        requires
            self.inv(),
        ensures
            node == 0 ==> call_ensures(self.splitter(), (key,), r),
            node != 0 ==> r == sel_of(node),
    {
        if node == self.get_top() {
            proof {
                assert(call_requires(self.splitter(), (key,)));
            }
            (self.splitter)(key)
        } else {
            selector_from_selector_node(node)
        }
    }

    /// Reads the master record, if the file holds one, and opens the shards
    /// it lists.
    fn load_master_data(&mut self, open_mode: OpenMode) -> (r: Result<(), TreeFileError>)
        requires
            old(self).n_shards() == 0,
            old(self).selectors().len() == 0,
            old(self).mode() == open_mode,
            old(self).top_hits() == 0,
            old(self).top_score() == 0,
        ensures
            ({
                let m = old(self).master_image();
                &&& (m.len() < MASTER_MIN_LENGTH && open_mode == OpenMode::MustExist)
                    || master_truncated(m) ==> r is Err && r->Err_0 is LogicError
                &&& m.len() >= MASTER_MIN_LENGTH && !master_truncated(m) && listed_missing(
                    m,
                    open_mode,
                    old(self).stored(),
                ) ==> r is Err && r->Err_0 == TreeFileError::NonExistingFiles
                &&& !(m.len() < MASTER_MIN_LENGTH && open_mode == OpenMode::MustExist)
                    && !master_truncated(m) && !(m.len() >= MASTER_MIN_LENGTH && listed_missing(
                    m,
                    open_mode,
                    old(self).stored(),
                )) ==> r is Ok
                &&& r is Ok ==> {
                    let has = m.len() >= MASTER_MIN_LENGTH;
                    &&& final(self).selectors().len() <= u32::MAX
                    &&& !(m.len() < MASTER_MIN_LENGTH && open_mode == OpenMode::MustExist)
                    &&& !master_truncated(m)
                    &&& !(has && listed_missing(m, open_mode, old(self).stored()))
                    &&& final(self).selectors().len() == final(self).n_shards()
                    &&& final(self).selectors().no_duplicates()
                    &&& final(self).max_top() == if has {
                        u32_at(m, 0)
                    } else {
                        old(self).max_top()
                    }
                    &&& final(self).top_hits() == if has {
                        u64_at(m, 8)
                    } else {
                        0
                    }
                    &&& final(self).top_score() == if has {
                        u64_at(m, 16)
                    } else {
                        0
                    }
                    &&& final(self).selectors() == if has {
                        dedup(listed_selectors(m))
                    } else {
                        Seq::empty()
                    }
                    &&& forall|i: int|
                        0 <= i < final(self).n_shards() ==> #[trigger] shard_opened_as(
                            open_mode,
                            old(self).stored(),
                            final(self).selectors()[i],
                            final(self).shard(i),
                        )
                }
            }),
            final(self).master_image() == old(self).master_image(),
            final(self).stored() == old(self).stored(),
            final(self).mode() == old(self).mode(),
            final(self).splitter() == old(self).splitter(),
    {
        let ghost m = self.master@;
        if self.master.len() < MASTER_MIN_LENGTH {
            if open_mode == OpenMode::MustExist {
                return Err(TreeFileError::LogicError { msg: "no master data in master file".to_owned() });
            }
            return Ok(());
        }
        self.max_top_children = read_u32(&self.master, 0);
        let n_children = read_u32(&self.master, 4);
        self.hits = read_u64(&self.master, 8);
        self.score = read_u64(&self.master, 16);
        if (self.master.len() as u64) < n_children as u64 + MASTER_MIN_LENGTH as u64 {
            return Err(TreeFileError::LogicError { msg: "to few trees in master file".to_owned() });
        }
        let n = n_children as usize;
        let mlen = self.master.len();
        let ghost listed = listed_selectors(m);
        let mut offset: usize = 0;
        while offset < n
            invariant
                offset <= n,
                n == u32_at(m, 4),
                n == listed.len(),
                listed == listed_selectors(m),
                m == self.master@,
                m == old(self).master_image(),
                open_mode == old(self).mode(),
                mlen == self.master@.len(),
                m.len() >= MASTER_MIN_LENGTH,
                self.max_top_children == u32_at(m, 0),
                self.hits == u64_at(m, 8),
                self.score == u64_at(m, 16),
                MASTER_MIN_LENGTH + n <= self.master@.len(),
                self.selectors@ == dedup(listed.subrange(0, offset as int)),
                self.selectors@.len() == self.trees@.len(),
                self.selectors@.len() <= offset,
                self.selectors@.no_duplicates(),
                self.stored@ == old(self).stored(),
                self.open_mode == open_mode,
                self.splitter == old(self).splitter(),
                forall|k: int| 0 <= k < offset ==> self.selectors@.contains(#[trigger] listed[k]),
                forall|i: int|
                    0 <= i < self.trees@.len() ==> #[trigger] shard_opened_as(
                        open_mode,
                        self.stored@,
                        self.selectors@[i],
                        self.trees@[i],
                    ),
            decreases n - offset,
        {
            let tree_selector = self.master[MASTER_MIN_LENGTH + offset];
            assert(listed[offset as int] == m[MASTER_MIN_LENGTH + offset]);
            let ghost before = self.selectors@;
            proof {
                assert(listed.subrange(0, offset + 1).drop_last() =~= listed.subrange(
                    0,
                    offset as int,
                ));
            }
            match find_tree(&self.selectors, tree_selector) {
                Some(_) => {},
                None => {
                    let files = stored_copy(&self.stored, tree_selector);
                    let tree = match TreeMap::new(0, open_mode, files) {
                        Ok(t) => t,
                        Err(e) => {
                            assert(!shard_opens(open_mode, self.stored@, listed[offset as int]));
                            return Err(e);
                        },
                    };
                    assert(shard_opens(open_mode, self.stored@, tree_selector));
                    let ghost trees_before = self.trees@;
                    self.selectors.push(tree_selector);
                    self.trees.push(tree);
                    assert forall|i: int| 0 <= i < self.trees@.len() implies #[trigger] shard_opened_as(
                        open_mode,
                        self.stored@,
                        self.selectors@[i],
                        self.trees@[i],
                    ) by {
                        if i < trees_before.len() {
                            assert(self.trees@[i] == trees_before[i]);
                            assert(self.selectors@[i] == before[i]);
                            assert(shard_opened_as(open_mode, self.stored@, before[i], trees_before[i]));
                        } else {
                            assert(self.trees@[i] == tree);
                            assert(self.selectors@[i] == tree_selector);
                        }
                    }
                    assert forall|k: int| 0 <= k <= offset implies self.selectors@.contains(
                        #[trigger] listed[k],
                    ) by {
                        if k < offset {
                            let j = choose|j: int| 0 <= j < before.len() && before[j] == listed[k];
                            assert(self.selectors@[j] == listed[k]);
                        } else {
                            assert(self.selectors@[before.len() as int] == listed[k]);
                        }
                    }
                },
            }
            offset = offset + 1;
        }
        proof {
            assert(listed.subrange(0, n as int) =~= listed);
            assert forall|k: int| 0 <= k < listed.len() implies #[trigger] shard_opens(
                open_mode,
                self.stored@,
                listed[k],
            ) by {
                assert(self.selectors@.contains(listed[k]));
                let i = choose|i: int| 0 <= i < self.selectors@.len() && self.selectors@[i] == listed[k];
                assert(shard_opened_as(open_mode, self.stored@, self.selectors@[i], self.trees@[i]));
            }
        }
        Ok(())
    }
}

/// A copy of the bytes of `v`.
fn copy_bytes(v: &Vec<u8>) -> (r: Vec<u8>)
    ensures
        r@ == v@,
{
    let mut r: Vec<u8> = Vec::new();
    append_bytes(&mut r, v);
    assert(r@ =~= v@);
    r
}

/// A copy of the first shard files found for `selector`.
fn stored_copy(stored: &Vec<ShardFiles>, selector: u8) -> (r: Option<TreeFiles>)
    ensures
        match r {
            Some(f) => Some(files_view(f)),
            None => None,
        } == stored_files(stored@, selector),
{
    let mut i: usize = 0;
    assert(stored@.subrange(0, stored@.len() as int) =~= stored@);
    while i < stored.len()
        invariant
            i <= stored.len(),
            stored_files(stored@, selector) == stored_files(
                stored@.subrange(i as int, stored@.len() as int),
                selector,
            ),
        decreases stored.len() - i,
    {
        let ghost rest = stored@.subrange(i as int, stored@.len() as int);
        if stored[i].selector == selector {
            let files = TreeFiles {
                nodes: copy_bytes(&stored[i].files.nodes),
                map: copy_bytes(&stored[i].files.map),
            };
            return Some(files);
        }
        assert(rest.drop_first() =~= stored@.subrange(i + 1, stored@.len() as int));
        i = i + 1;
    }
    None
}

/// The bytes of the master record of the given state.
fn master_buf(max_top_children: u32, hits: u64, score: u64, selectors: &Vec<u8>) -> (r: Vec<u8>)
    ensures
        r@ == master_bytes(max_top_children, hits, score, selectors@),
{
    let mut buf = u32_to_le_bytes(max_top_children);
    append_bytes(&mut buf, &u32_to_le_bytes(selectors.len() as u32));
    append_bytes(&mut buf, &u64_to_le_bytes(hits));
    append_bytes(&mut buf, &u64_to_le_bytes(score));
    append_bytes(&mut buf, selectors);
    assert(buf@ =~= master_bytes(max_top_children, hits, score, selectors@));
    buf
}

/// Writes the master record of the given state over the start of the master file.
fn save_master_data(
    master: &mut Vec<u8>,
    max_top_children: u32,
    hits: u64,
    score: u64,
    selectors: &Vec<u8>,
)
    ensures
        final(master)@ == write_at_start(
            old(master)@,
            master_bytes(max_top_children, hits, score, selectors@),
        ),
        final(master)@.len() >= MASTER_MIN_LENGTH + selectors@.len(),
        final(master)@.subrange(0, MASTER_MIN_LENGTH + selectors@.len()) == master_bytes(
            max_top_children,
            hits,
            score,
            selectors@,
        ),
{
    let buf = master_buf(max_top_children, hits, score, selectors);
    let ghost old_master = master@;
    let mut i: usize = 0;
    assert(master@ =~= write_at_start(old_master, buf@.subrange(0, 0)));
    while i < buf.len()
        invariant
            i <= buf.len(),
            master@ == write_at_start(old_master, buf@.subrange(0, i as int)),
        decreases buf.len() - i,
    {
        if i < master.len() {
            master.set(i, buf[i]);
        } else {
            master.push(buf[i]);
        }
        i = i + 1;
        assert(master@ =~= write_at_start(old_master, buf@.subrange(0, i as int)));
    }
    assert(buf@.subrange(0, i as int) =~= buf@);
    proof {
        lemma_uint_roundtrips();
    }
    assert(master@.subrange(0, buf@.len() as int) =~= buf@);
}

/// Whether the shard `selector` opens in `open_mode` from the files found.
pub open spec fn shard_opens(open_mode: OpenMode, stored: Seq<ShardFiles>, selector: u8) -> bool {
    opened_images(0, open_mode, stored_files(stored, selector)) is Some
}

/// Whether `t` holds the images that the shard `selector` opens with.
pub open spec fn shard_opened_as(
    open_mode: OpenMode,
    stored: Seq<ShardFiles>,
    selector: u8,
    t: TreeMap,
) -> bool {
    let images = opened_images(0, open_mode, stored_files(stored, selector));
    &&& images is Some
    &&& t.node_image() == images->Some_0.0
    &&& t.map_image() == images->Some_0.1
    &&& t.inv()
}

/// Whether some shard listed by the master record `m` does not open.
pub open spec fn listed_missing(m: Seq<u8>, open_mode: OpenMode, stored: Seq<ShardFiles>) -> bool {
    exists|k: int|
        0 <= k < listed_selectors(m).len() && !#[trigger] shard_opens(
            open_mode,
            stored,
            listed_selectors(m)[k],
        )
}

/// Where `selector` stands in the roster.
fn find_tree(selectors: &Vec<u8>, selector: u8) -> (r: Option<usize>)
    ensures
        match r {
            Some(i) => i < selectors.len() && selectors@[i as int] == selector,
            None => !selectors@.contains(selector),
        },
{
    let mut i: usize = 0;
    while i < selectors.len()
        invariant
            i <= selectors.len(),
            forall|k: int| 0 <= k < i ==> selectors@[k] != selector,
        decreases selectors.len() - i,
    {
        if selectors[i] == selector {
            return Some(i);
        }
        i = i + 1;
    }
    None
}

/// The node id of local node `local` of shard `selector`.
pub open spec fn compose_id(local: NodeId, selector: u8) -> NodeId {
    (local << 8usize) | (selector as NodeId)
}

/// The shard selector of a node id.
pub open spec fn sel_of(node: NodeId) -> u8 {
    (node & 0xffusize) as u8
}

/// The id of a node within its shard.
pub open spec fn local_of(node: NodeId) -> NodeId {
    node >> 8usize
}

/// A node as the sharded store names it.
pub open spec fn reencode(d: NodeData, selector: u8) -> NodeData {
    NodeData {
        node_id: compose_id(d.node_id, selector),
        node_pos: d.node_pos,
        parent: d.parent,
        hits: d.hits,
        score: d.score,
        first_child_pos: d.first_child_pos,
        n_children: d.n_children,
        max_children: d.max_children,
    }
}

/// Children as the sharded store names them.
pub open spec fn reencode_all(s: Seq<(u16, NodeId)>, selector: u8) -> Seq<(u16, NodeId)> {
    s.map_values(|c: (u16, NodeId)| (c.0, compose_id(c.1, selector)))
}

/// A shard's answer to `get_child` as the sharded store gives it.
pub open spec fn reencode_child(
    r: Result<Option<NodeData>, TreeFileError>,
    selector: u8,
) -> Result<Option<NodeData>, TreeFileError> {
    match r {
        Ok(Some(d)) => Ok(Some(reencode(d, selector))),
        _ => r,
    }
}

/// A shard's answer to `add_child` as the sharded store gives it.
pub open spec fn reencode_id(r: Result<NodeId, TreeFileError>, selector: u8) -> Result<
    NodeId,
    TreeFileError,
> {
    match r {
        Ok(id) => Ok(compose_id(id, selector)),
        Err(e) => Err(e),
    }
}

/// The shard selector of a node id.
pub fn selector_from_selector_node(node: NodeId) -> (r: u8)
    ensures
        r == sel_of(node),
{
    (node & 0xff) as u8
}

/// The node id of local node `node` of shard `selector`.
pub fn selector_node_from_node(node: NodeId, selector: u8) -> (r: NodeId)
    ensures
        r == compose_id(node, selector),
{
    (node << 8) | selector as NodeId
}

/// The id of a node within its shard.
pub fn node_from_selector_node(node: NodeId) -> (r: NodeId)
    ensures
        r == local_of(node),
{
    node >> 8
}

/// A selector stands at one place of a roster without repeats.
proof fn lemma_index_of(s: Seq<u8>, i: int)
    requires
        s.no_duplicates(),
        0 <= i < s.len(),
    ensures
        index_of(s, s[i]) == i,
{
    assert(s.contains(s[i]));
}

/// A roster without repeats is its own dedup.
proof fn lemma_dedup_unique(s: Seq<u8>)
    requires
        s.no_duplicates(),
    ensures
        dedup(s) == s,
    decreases s.len(),
{
    if s.len() > 0 {
        let d = s.drop_last();
        assert(d.no_duplicates());
        lemma_dedup_unique(d);
        if d.contains(s.last()) {
            let j = choose|j: int| 0 <= j < d.len() && d[j] == s.last();
            assert(s[j] == s[s.len() - 1]);
        }
        assert(d.push(s.last()) =~= s);
    }
}

/// The files found for a selector are those of its first entry.
proof fn lemma_stored_files_at(stored: Seq<ShardFiles>, i: int)
    requires
        0 <= i < stored.len(),
        forall|j: int| 0 <= j < i ==> stored[j].selector != stored[i].selector,
    ensures
        stored_files(stored, stored[i].selector) == Some(files_view(stored[i].files)),
    decreases i,
{
    if i > 0 {
        let rest = stored.drop_first();
        assert forall|j: int| 0 <= j < i - 1 implies #[trigger] rest[j].selector != rest[i - 1].selector by {
            assert(rest[j] == stored[j + 1]);
        }
        lemma_stored_files_at(rest, i - 1);
        assert(rest[i - 1] == stored[i]);
        assert(stored[0].selector != stored[i].selector);
    }
}

/// The fields of a master record read back from its bytes.
proof fn lemma_master_fields(m: Seq<u8>, max_top: u32, hits: u64, score: u64, selectors: Seq<u8>)
    requires
        selectors.len() <= u32::MAX,
        m.len() >= MASTER_MIN_LENGTH + selectors.len(),
        m.subrange(0, MASTER_MIN_LENGTH + selectors.len()) == master_bytes(
            max_top,
            hits,
            score,
            selectors,
        ),
    ensures
        u32_at(m, 0) == max_top,
        u32_at(m, 4) == selectors.len(),
        u64_at(m, 8) == hits,
        u64_at(m, 16) == score,
        listed_selectors(m) == selectors,
        !master_truncated(m),
        write_at_start(m, master_bytes(max_top, hits, score, selectors)) == m,
{
    lemma_uint_roundtrips();
    let b = master_bytes(max_top, hits, score, selectors);
    let p = m.subrange(0, MASTER_MIN_LENGTH + selectors.len());
    assert(m.subrange(0, 4) =~= b.subrange(0, 4));
    assert(b.subrange(0, 4) =~= spec_u32_to_le_bytes(max_top));
    assert(m.subrange(4, 8) =~= b.subrange(4, 8));
    assert(b.subrange(4, 8) =~= spec_u32_to_le_bytes(selectors.len() as u32));
    assert(m.subrange(8, 16) =~= b.subrange(8, 16));
    assert(b.subrange(8, 16) =~= spec_u64_to_le_bytes(hits));
    assert(m.subrange(16, 24) =~= b.subrange(16, 24));
    assert(b.subrange(16, 24) =~= spec_u64_to_le_bytes(score));
    assert(listed_selectors(m) =~= b.subrange(24, 24 + selectors.len() as int));
    assert(b.subrange(24, 24 + selectors.len() as int) =~= selectors);
    if b.len() < m.len() {
        assert(b + m.subrange(b.len() as int, m.len() as int) =~= m);
    } else {
        assert(b =~= m);
    }
}

/// Reopening a sharded store from its own files, with `OpenCreate`, gives
/// back the same top node, roster and shards, and leaves the master file as
/// it was.
pub proof fn lemma_reopen_round_trip<F: Fn(u16) -> u8>(
    t: &MultiFileTreeMap<F>,
    r: &MultiFileTreeMap<F>,
    stored: Seq<ShardFiles>,
    other_max: u32,
    splitter: F,
)
    requires
        t.inv(),
        stored.len() == t.n_shards(),
        forall|i: int|
            0 <= i < t.n_shards() ==> #[trigger] stored[i].selector == t.selectors()[i] && files_view(
                stored[i].files,
            ) == (t.shard(i).node_image(), t.shard(i).map_image()),
    ensures
        t.master_image().len() >= MASTER_MIN_LENGTH,
        !master_truncated(t.master_image()),
        !listed_missing(t.master_image(), OpenMode::OpenCreate, stored),
        r.inv() && r.opened_from(t.master_image(), other_max, OpenMode::OpenCreate, stored, splitter)
            ==> {
            &&& r.top_data() == t.top_data()
            &&& r.selectors() == t.selectors()
            &&& r.n_shards() == t.n_shards()
            &&& r.master_image() == t.master_image()
            &&& forall|i: int| 0 <= i < t.n_shards() ==> #[trigger] r.shard(i).same_images(&t.shard(i))
        },
{
    let m = t.master_image();
    let sels = t.selectors();
    lemma_master_fields(m, t.max_top(), t.top_hits(), t.top_score(), sels);
    lemma_dedup_unique(sels);
    assert forall|i: int| 0 <= i < t.n_shards() implies stored_files(stored, sels[i]) == Some(
        files_view(stored[i].files),
    ) by {
        assert forall|j: int| 0 <= j < i implies stored[j].selector != stored[i].selector by {
            assert(stored[j].selector == sels[j]);
            assert(stored[i].selector == sels[i]);
        }
        lemma_stored_files_at(stored, i);
        assert(stored[i].selector == sels[i]);
    }
    assert forall|k: int| 0 <= k < listed_selectors(m).len() implies #[trigger] shard_opens(
        OpenMode::OpenCreate,
        stored,
        listed_selectors(m)[k],
    ) by {}
    if r.inv() && r.opened_from(m, other_max, OpenMode::OpenCreate, stored, splitter) {
        assert forall|i: int| 0 <= i < t.n_shards() implies #[trigger] r.shard(i).same_images(
            &t.shard(i),
        ) by {
            assert(r.selectors() == sels);
            assert(shard_opened_as(OpenMode::OpenCreate, stored, r.selectors()[i], r.shard(i)));
            assert(stored[i].selector == sels[i]);
            assert(files_view(stored[i].files) == (
                t.shard(i).node_image(),
                t.shard(i).map_image(),
            ));
            assert(stored_files(stored, sels[i]) == Some(files_view(stored[i].files)));
            assert(t.shard(i).inv());
            lemma_tree_reopen(t.shard(i), 0, OpenMode::OpenCreate);
        }
    }
}

/// A node id is made back from its selector and its id within the shard.
pub proof fn lemma_id_round_trip(node: NodeId)
    ensures
        compose_id(local_of(node), sel_of(node)) == node,
{
    let s = node & 0xffusize;
    assert(s < 256) by (bit_vector)
        requires
            s == node & 0xffusize,
    ;
    assert(((node >> 8usize) << 8usize) | s == node) by (bit_vector)
        requires
            s == node & 0xffusize,
    ;
    assert((s as u8) as usize == s);
}

/// An id made from a selector and a local id that leaves room for the
/// selector's byte splits back into them.
pub proof fn lemma_compose_split(local: NodeId, selector: u8)
    requires
        (local << 8usize) >> 8usize == local,
    ensures
        sel_of(compose_id(local, selector)) == selector,
        local_of(compose_id(local, selector)) == local,
{
    let s = selector as usize;
    assert(s < 256);
    assert(((local << 8usize) | s) & 0xffusize == s) by (bit_vector)
        requires
            s < 256,
    ;
    assert(((local << 8usize) | s) >> 8usize == local) by (bit_vector)
        requires
            s < 256,
            (local << 8usize) >> 8usize == local,
    ;
}

/// What the top node lists includes what the top of each shard lists.
proof fn lemma_top_children_has<F: Fn(u16) -> u8>(
    t: &MultiFileTreeMap<F>,
    k: int,
    i: int,
    e: (u16, NodeId),
)
    requires
        0 <= i < k,
        reencode_all(t.shard(i).iter_children(0), t.selectors()[i]).contains(e),
    ensures
        t.top_children(k).contains(e),
    decreases k,
{
    let left = t.top_children(k - 1);
    let right = reencode_all(t.shard(k - 1).iter_children(0), t.selectors()[k - 1]);
    assert(t.top_children(k) == left + right);
    if i == k - 1 {
        let j = choose|j: int| 0 <= j < right.len() && right[j] == e;
        assert((left + right)[left.len() + j] == e);
    } else {
        lemma_top_children_has(t, k - 1, i, e);
        let j = choose|j: int| 0 <= j < left.len() && left[j] == e;
        assert((left + right)[j] == e);
    }
}

/// In a well-formed sharded store, every node below a shard's top is listed
/// by the children of what `get_parent` gives for it: the top node's, where
/// the node hangs from its shard's top; its parent's, named in the store's
/// ids, otherwise.
pub proof fn lemma_sharded_parent_lists_child<F: Fn(u16) -> u8>(t: &MultiFileTreeMap<F>, x: NodeId)
    requires
        t.wf(),
        t.selectors().contains(sel_of(x)),
        0 < local_of(x) < t.shard_of(sel_of(x)).len_spec(),
    ensures
        ({
            let s = sel_of(x);
            let sh = t.shard_of(s);
            let l = local_of(x) as int;
            let p = sh.node(l).parent->Some_0;
            &&& sh.node(l).parent is Some
            &&& p < sh.len_spec()
            &&& p == 0 ==> sh.node(p as int).node_id == 0 && exists|k: u16|
                #[trigger] t.top_children(t.n_shards() as int).contains((k, x))
            &&& p != 0 ==> {
                &&& sh.node(p as int).node_id == p
                &&& sel_of(compose_id(p, s)) == s
                &&& local_of(compose_id(p, s)) == p
                &&& exists|k: u16|
                    #[trigger] reencode_all(sh.iter_children(p as int), s).contains((k, x))
            }
        }),
{
    let s = sel_of(x);
    let i = index_of(t.selectors(), s);
    let sh = t.shard_of(s);
    let l = local_of(x) as int;
    assert(0 <= i < t.n_shards());
    assert(sh.wf());
    lemma_parent_lists_child(sh, l);
    let p = sh.node(l).parent->Some_0;
    let k = choose|k: u16| #[trigger] sh.children(p as int).contains((k, l as NodeId));
    assert(sh.iter_children(p as int) == sh.children(p as int));
    let j = choose|j: int|
        0 <= j < sh.children(p as int).len() && sh.children(p as int)[j] == (k, l as NodeId);
    lemma_id_round_trip(x);
    let r = reencode_all(sh.iter_children(p as int), s);
    assert(r[j] == (k, x));
    assert(r.contains((k, x)));
    if p == 0 {
        assert(t.selectors()[i] == s);
        lemma_top_children_has(t, t.n_shards() as int, i, (k, x));
    } else {
        let lx = local_of(x);
        assert((p << 8usize) >> 8usize == p) by (bit_vector)
            requires
                p < lx,
                lx == x >> 8usize,
        ;
        lemma_compose_split(p, s);
    }
}

/// What the top node lists comes from the top of some shard.
proof fn lemma_top_children_from<F: Fn(u16) -> u8>(
    t: &MultiFileTreeMap<F>,
    k: int,
    e: (u16, NodeId),
) -> (r: (int, int))
    requires
        0 <= k,
        t.top_children(k).contains(e),
    ensures
        0 <= r.0 < k,
        0 <= r.1 < t.shard(r.0).iter_children(0).len(),
        e == (
            t.shard(r.0).iter_children(0)[r.1].0,
            compose_id(t.shard(r.0).iter_children(0)[r.1].1, t.selectors()[r.0]),
        ),
    decreases k,
{
    let left = t.top_children(k - 1);
    let right = reencode_all(t.shard(k - 1).iter_children(0), t.selectors()[k - 1]);
    assert(k > 0);
    assert(t.top_children(k) == left + right);
    let j = choose|j: int| 0 <= j < (left + right).len() && (left + right)[j] == e;
    if j < left.len() {
        assert(left[j] == e);
        lemma_top_children_from(t, k - 1, e)
    } else {
        assert(right[j - left.len()] == e);
        (k - 1, j - left.len())
    }
}

/// Where every top-level child sits in the shard that the splitter gives
/// for its key, and the splitter gives one shard per key, looking a key up
/// under the top node gives the node that iterating the top's children lists
/// under that key.
pub proof fn lemma_sharded_top_lookup_matches_iteration<F: Fn(u16) -> u8>(
    t: &MultiFileTreeMap<F>,
    new: &MultiFileTreeMap<F>,
    key: u16,
    selector: u8,
    e: NodeId,
    r: Result<Option<NodeData>, TreeFileError>,
)
    requires
        t.wf(),
        t.routed(),
        forall|k: u16, a: u8, b: u8|
            call_ensures(t.splitter(), (k,), a) && call_ensures(t.splitter(), (k,), b) ==> a == b,
        call_ensures(t.splitter(), (key,), selector),
        t.child_post(new, 0, selector, key, r),
    ensures
        (r matches Ok(Some(d)) && d.node_id == e) <==> t.top_children(t.n_shards() as int).contains(
            (key, e),
        ),
{
    let n = t.n_shards() as int;
    assert((0usize >> 8usize) == 0usize) by (bit_vector);
    if t.top_children(n).contains((key, e)) {
        let (i, j) = lemma_top_children_from(t, n, (key, e));
        let c = t.shard(i).iter_children(0)[j];
        assert(call_ensures(t.splitter(), (c.0,), t.selectors()[i]));
        assert(t.selectors()[i] == selector);
        assert(t.selectors().contains(selector));
    }
    if t.selectors().contains(selector) {
        let i = index_of(t.selectors(), selector);
        assert(0 <= i < n && t.selectors()[i] == selector);
        let sh = t.shard(i);
        assert(sh.wf());
        assert(new.shard_of(selector).same_images(&sh));
        let r0 = choose|r0: Result<Option<NodeData>, TreeFileError>|
            #[trigger] new.shard_of(selector).child_result(local_of(0) as int, key, r0) && r
                == reencode_child(r0, selector);
        assert(sh.child_result(0, key, r0));
        assert(t.shard_of(selector) == sh);
        lemma_sharded_lookup_matches_iteration(t, selector, 0, key, e, r0);
        let right = reencode_all(sh.iter_children(0), selector);
        if right.contains((key, e)) {
            lemma_top_children_has(t, n, i, (key, e));
        }
        if t.top_children(n).contains((key, e)) {
            let (i2, j2) = lemma_top_children_from(t, n, (key, e));
            let c = t.shard(i2).iter_children(0)[j2];
            assert(call_ensures(t.splitter(), (c.0,), t.selectors()[i2]));
            assert(t.selectors()[i2] == selector);
            lemma_index_of(t.selectors(), i2);
            assert(i2 == i);
            assert(right[j2] == (key, e));
        }
    }
}

/// In a well-formed sharded store, below node `local` of shard `selector`,
/// looking a key up gives the node that iterating its children lists under
/// that key, both named in the store's ids. For any node but the top, that
/// is below `parent` with `selector == sel_of(parent)` and
/// `local == local_of(parent)`.
pub proof fn lemma_sharded_lookup_matches_iteration<F: Fn(u16) -> u8>(
    t: &MultiFileTreeMap<F>,
    selector: u8,
    local: NodeId,
    key: u16,
    e: NodeId,
    r0: Result<Option<NodeData>, TreeFileError>,
)
    requires
        t.wf(),
        t.selectors().contains(selector),
        local < t.shard_of(selector).len_spec(),
        t.shard_of(selector).child_result(local as int, key, r0),
    ensures
        (reencode_child(r0, selector) matches Ok(Some(d)) && d.node_id == e) <==> reencode_all(
            t.shard_of(selector).iter_children(local as int),
            selector,
        ).contains((key, e)),
{
    let s = selector;
    let i = index_of(t.selectors(), s);
    let sh = t.shard_of(s);
    let l = local as int;
    assert(0 <= i < t.n_shards());
    assert(sh.wf());
    assert(sh.readable(l));
    assert(sh.iter_children(l) == sh.children(l));
    let r = reencode_all(sh.children(l), s);
    if r.contains((key, e)) {
        let j = choose|j: int| 0 <= j < r.len() && r[j] == (key, e);
        let loc = sh.children(l)[j].1;
        assert(sh.children(l)[j] == (key, loc));
        lemma_lookup_matches_iteration(sh, l, key, loc);
    }
    if reencode_child(r0, s) matches Ok(Some(d)) && d.node_id == e {
        let c = sh.child_lookup(l, key)->Some_0;
        let loc = key_and_id(c).1;
        lemma_lookup_matches_iteration(sh, l, key, loc);
        let j = choose|j: int|
            0 <= j < sh.children(l).len() && sh.children(l)[j] == (key, loc);
        assert(r[j] == (key, compose_id(loc, s)));
    }
}

/// Where `selector` stands in `s`, or -1.
pub open spec fn index_of(s: Seq<u8>, selector: u8) -> int {
    if s.contains(selector) {
        choose|i: int| 0 <= i < s.len() && s[i] == selector
    } else {
        -1
    }
}

} // verus!
