//! The storage manager of the configuration with a single trie, and the
//! state views that it hands out.
//!
//! A state view reads the trie of one root and can change it: what it changes
//! it owns, until a commit persists it and records its root for an epoch.
//! Persisted nodes never change and recorded roots are never replaced, so
//! what an epoch holds stays what it was, whatever is committed later.

use vstd::prelude::*;
use crate::cache_algorithm::DeltaMptsCacheAlgorithm;
use crate::db_manager::DbImage;
use crate::db_manager::DeltaDbManager;
use crate::delta_db::DbRow;
use crate::db_manager::SINGLE_MPT_ID;
use crate::delta_db::image_rows;
use crate::delta_db::node_table;
use crate::delta_db::table_wf;
use crate::canonical::hashed;
use crate::canonical::lemma_same_content_same_hash;
use crate::canonical::same_lookup;
use crate::delta_mpt::aligned;
use crate::delta_mpt::committed_root;
use crate::delta_mpt::is_key_path;
use crate::delta_mpt::trie_contents;
use crate::delta_mpt::trie_read;
use crate::delta_mpt::DeltaMpt;
use crate::epoch_roots::ascending;
use crate::epoch_roots::roots_map;
use crate::epoch_roots::EpochId;
use crate::epoch_roots::EpochRoot;
use crate::errors::ErrorKind;
use crate::nibbles::key_path;
use crate::nibbles::lemma_key_path_injective;
use crate::nibbles::lemma_key_path_is_nibble_path;
use crate::nibbles::to_key_path;
use crate::node::option_bytes_view;
use crate::node::MerkleHash;
use crate::node::FAN_OUT;
use crate::node_memory_manager::DeltaMptsNodeMemoryManager;
use crate::node_memory_manager::NodeMemoryManager;
use crate::node_memory_manager::PoolLimits;
use crate::node_memory_manager::total_size;
use crate::single_mpt_db_manager::SingleMptDbManager;
use crate::single_mpt_db_manager::OpenableOnDemandOpenDeltaDbTrait;
use crate::trie::after_delete;
use crate::trie::after_put;
use crate::trie::empty_children;
use crate::trie::flush_root;
use crate::trie::hash_lookup;
use crate::trie::into_owned;
use crate::trie::lemma_leaf_lookup;
use crate::trie::lemma_ref_grows;
use crate::trie::no_children;
use crate::trie::node_delete;
use crate::trie::node_lookup;
use crate::trie::node_put;
use crate::trie::node_wf;
use crate::trie::opt_node_lookup;
use crate::trie::ref_get;
use crate::trie::ref_lookup;
use crate::trie::ref_wf;
use crate::trie::root_lookup;
use crate::trie::root_wf;
use crate::trie::CowNode;
use crate::trie::CowNodeRef;
use crate::trie::NodeTable;

verus! {

/// The most nodes that are resident at once.
pub const MAX_RESIDENT_NODES: u32 = 1_000_000;

/// The most entries that the cache algorithm keeps.
pub const MAX_CACHE_ENTRIES: u32 = 10_000_000;

/// An eviction pass leaves fewer resident nodes than this.
pub const WORKING_SET_NODES: u32 = 1_000_000;

/// An eviction pass runs when this many nodes are resident.
pub const SOFT_LIMIT_NODES: u32 = 1_000_000;

/// The storage manager of the single trie.
pub struct SingleMptStorageManager {
    pub(crate) db_manager: SingleMptDbManager,
    pub(crate) node_memory_manager: DeltaMptsNodeMemoryManager,
    pub(crate) mpt: DeltaMpt,
}

/// A view of the state of one root, which can be read, changed and committed.
pub struct SingleMptState {
    pub(crate) root: Option<CowNodeRef>,
}

impl SingleMptStorageManager {
    /// The persisted nodes.
    pub closed spec fn nodes(&self) -> NodeTable {
        self.db_manager.db().nodes()
    }

    /// The rows of the backing store: the bytes of each persisted node,
    /// under their content hash.
    pub closed spec fn rows(&self) -> Map<MerkleHash, Seq<u8>> {
        self.db_manager.db().rows()
    }

    /// The root recorded for each committed epoch.
    pub closed spec fn epoch_roots(&self) -> Map<EpochId, Option<MerkleHash>> {
        self.db_manager.db().epoch_roots()
    }

    /// The lifecycle manager of the backing store.
    pub closed spec fn lifecycle(&self) -> SingleMptDbManager {
        self.db_manager
    }

    /// The pool of resident nodes.
    pub closed spec fn pool(&self) -> DeltaMptsNodeMemoryManager {
        self.node_memory_manager
    }

    /// The store is open, the persisted nodes are well formed, every
    /// recorded root is among them, and the pool agrees with the store.
    pub closed spec fn wf(&self) -> bool {
        &&& self.db_manager.wf()
        &&& self.db_manager.is_open()
        &&& self.node_memory_manager.wf()
        &&& self.node_memory_manager.coherent(self.db_manager.db().nodes())
        &&& self.mpt.handle() == self.db_manager.handle()
    }

    /// The root recorded for `epoch`: `None` where the epoch was not
    /// committed, `Some(None)` where it was committed with a trie that holds
    /// nothing.
    pub open spec fn root_at(&self, epoch: EpochId) -> Option<Option<MerkleHash>> {
        if self.epoch_roots().contains_key(epoch) {
            Some(self.epoch_roots()[epoch])
        } else {
            None
        }
    }

    /// What `epoch` holds: `None` where the epoch was not committed.
    pub open spec fn contents_at(&self, epoch: EpochId) -> Option<Map<Seq<u8>, Seq<u8>>> {
        match self.root_at(epoch) {
            Some(root) => Some(trie_contents(self.nodes(), committed_root(root))),
            None => None,
        }
    }

    /// What a well-formed manager is made of.
    pub proof fn lemma_wf(&self)
        requires
            self.wf(),
        ensures
            table_wf(self.nodes()),
            self.lifecycle().wf(),
            self.lifecycle().is_open(),
            self.lifecycle().physical_opens() == 1,
            self.pool().wf(),
            self.pool().coherent(self.nodes()),
            self.nodes() == node_table(self.rows()),
            forall|e: EpochId| #[trigger]
                self.epoch_roots().contains_key(e) && self.epoch_roots()[e].is_some()
                    ==> self.nodes().contains_key(self.epoch_roots()[e].unwrap()),
    {
        self.db_manager.lemma_open_store();
    }

    /// The bounds of the pool of resident nodes in the configuration with a
    /// single trie.
    pub open spec fn configured_limits() -> PoolLimits {
        PoolLimits {
            max_resident: MAX_RESIDENT_NODES,
            max_bookkeeping: MAX_CACHE_ENTRIES,
            working_set: WORKING_SET_NODES,
            soft_limit: SOFT_LIMIT_NODES,
        }
    }

    /// What building a storage manager over `stores` gives: a manager over
    /// the store of the single trie as it was found, or over an empty one
    /// where none was found, with no node resident yet; and
    /// `ErrorKind::Corrupt` where what was found is no valid store.
    pub open spec fn built(
        stores: DeltaDbManager,
        limits: PoolLimits,
        r: Result<SingleMptStorageManager, ErrorKind>,
    ) -> bool {
        match stores.image(SINGLE_MPT_ID) {
            Some(image) => if image.valid() {
                &&& r matches Ok(manager)
                &&& manager.wf()
                &&& manager.rows() == image_rows(image.rows@)
                &&& manager.nodes() == node_table(image_rows(image.rows@))
                &&& manager.epoch_roots() == roots_map(image.roots@)
                &&& manager.pool().limits() == limits
                &&& manager.pool().spec_resident_count() == 0
                &&& manager.lifecycle().physical_opens() == 1
            } else {
                r matches Err(e) && e == ErrorKind::Corrupt
            },
            None => {
                &&& r matches Ok(manager)
                &&& manager.wf()
                &&& manager.rows() == Map::<MerkleHash, Seq<u8>>::empty()
                &&& manager.nodes() == Map::<MerkleHash, crate::node::NodeData>::empty()
                &&& manager.epoch_roots() == Map::<EpochId, Option<MerkleHash>>::empty()
                &&& manager.pool().limits() == limits
                &&& manager.pool().spec_resident_count() == 0
                &&& manager.lifecycle().physical_opens() == 1
            },
        }
    }

    /// Builds the storage manager over the stores that were found: opens the
    /// store of the single trie, or makes it where there is none, and sets
    /// up the pool of resident nodes with its configured bounds.
    pub fn new_arc(stores: DeltaDbManager) -> (r: Result<SingleMptStorageManager, ErrorKind>)
        ensures
            Self::built(stores, Self::configured_limits(), r),
    {
        Self::with_limits(
            stores,
            PoolLimits {
                max_resident: MAX_RESIDENT_NODES,
                max_bookkeeping: MAX_CACHE_ENTRIES,
                working_set: WORKING_SET_NODES,
                soft_limit: SOFT_LIMIT_NODES,
            },
        )
    }

    /// Builds the storage manager with other bounds for the pool of resident
    /// nodes than the configured ones.
    pub fn with_limits(stores: DeltaDbManager, limits: PoolLimits) -> (r: Result<
        SingleMptStorageManager,
        ErrorKind,
    >)
        requires
            limits.valid(),
        ensures
            Self::built(stores, limits, r),
    {
        let mut db_manager = SingleMptDbManager::new(stores);
        let node_memory_manager = NodeMemoryManager::new(
            limits.max_resident,
            limits.max_bookkeeping,
            limits.working_set,
            limits.soft_limit,
            DeltaMptsCacheAlgorithm::new(limits.max_bookkeeping),
        );
        let mpt = match DeltaMpt::new_single_mpt(&mut db_manager) {
            Ok(mpt) => mpt,
            Err(e) => {
                return Err(e);
            },
        };
        proof {
            db_manager.lemma_open_store();
            assert(node_table(Map::<MerkleHash, Seq<u8>>::empty()) =~= Map::<
                MerkleHash,
                crate::node::NodeData,
            >::empty());
        }
        let manager = SingleMptStorageManager { db_manager, node_memory_manager, mpt };
        proof {
            assert(manager.wf());
            assert(manager.pool().limits() == limits);
            assert(manager.pool().spec_resident_count() == 0);
            assert(manager.lifecycle().physical_opens() == 1);
            match stores.image(SINGLE_MPT_ID) {
                Some(image) => {
                    assert(image.valid());
                    assert(manager.nodes() == node_table(image_rows(image.rows@)));
                    assert(manager.epoch_roots() == roots_map(image.roots@));
                },
                None => {
                    assert(manager.nodes() == Map::<MerkleHash, crate::node::NodeData>::empty());
                    assert(manager.epoch_roots() == Map::<EpochId, Option<MerkleHash>>::empty());
                },
            }
        }
        Ok(manager)
    }

    /// The state of a committed epoch: a view over the root that is recorded
    /// for it, which holds nothing where the epoch was committed with a
    /// state that held nothing. `None` where no root is recorded for the
    /// epoch: that is no error, the epoch is not there yet.
    pub fn get_state_by_epoch(&self, epoch: EpochId) -> (r: Result<Option<SingleMptState>, ErrorKind>)
        requires
            self.wf(),
        ensures
            r.is_ok(),
            match self.root_at(epoch) {
                Some(root) => {
                    &&& r matches Ok(Some(state))
                    &&& state.root() == committed_root(root)
                    &&& state.wf(self.nodes())
                    &&& Some(state.contents(self.nodes())) == self.contents_at(epoch)
                },
                None => r matches Ok(None),
            },
    {
        let root = match self.mpt.get_root_node_ref_by_epoch(&self.db_manager, &epoch) {
            Ok(root) => root,
            Err(e) => {
                return Err(e);
            },
        };
        proof {
            self.lemma_wf();
        }
        match root {
            Some(Some(root)) => Ok(Some(SingleMptState::new(root))),
            Some(None) => Ok(Some(SingleMptState::new_empty())),
            None => Ok(None),
        }
    }

    /// A state that holds nothing, from which the first epoch is built.
    pub fn get_state_for_genesis(&self) -> (r: Result<SingleMptState, ErrorKind>)
        ensures
            r matches Ok(state) && state.root().is_none() && forall|nodes: NodeTable|
                #![trigger state.wf(nodes)]
                state.wf(nodes) && state.keyed(nodes) && state.contents(nodes) == Map::<
                    Seq<u8>,
                    Seq<u8>,
                >::empty(),
    {
        let state = SingleMptState::new_empty();
        proof {
            assert forall|nodes: NodeTable| #![trigger state.wf(nodes)] state.wf(nodes)
                && state.keyed(nodes) && state.contents(nodes) == Map::<Seq<u8>, Seq<u8>>::empty() by {
                assert(state.contents(nodes) =~= Map::<Seq<u8>, Seq<u8>>::empty());
            }
        }
        Ok(state)
    }

    /// Removes the roots of `target` and of every epoch above it. The epochs
    /// below keep their roots and what they hold.
    pub fn rollback(&mut self, target: EpochId)
        requires
            old(self).wf(),
        ensures
            final(self).wf(),
            final(self).nodes() == old(self).nodes(),
            final(self).rows() == old(self).rows(),
            final(self).epoch_roots() == old(self).epoch_roots().restrict(
                Set::new(|e: EpochId| e.spec_lt(target)),
            ),
            forall|e: EpochId|
                e.spec_lt(target) ==> #[trigger] final(self).contents_at(e) == old(self).contents_at(
                    e,
                ),
            forall|e: EpochId| !e.spec_lt(target) ==> (#[trigger] final(self).contents_at(e)).is_none(),
    {
        self.db_manager.rollback(&target);
    }

    /// The store as it is written out: read again, it makes a manager with
    /// the same persisted nodes and the same roots.
    pub fn export(&self) -> (image: DbImage)
        requires
            self.wf(),
        ensures
            image.mpt_id == SINGLE_MPT_ID,
            image.valid(),
            node_table(image_rows(image.rows@)) == self.nodes(),
            roots_map(image.roots@) == self.epoch_roots(),
    {
        proof {
            self.db_manager.lemma_open_store();
        }
        let (rows, roots) = self.db_manager.opened_db().export();
        DbImage { mpt_id: SINGLE_MPT_ID, rows, roots }
    }

    /// The root records as they are once `root` is recorded for `epoch`: what
    /// a caller writes out before it records the root. The manager stays as
    /// it is.
    pub fn roots_after(&self, epoch: EpochId, root: Option<MerkleHash>) -> (r: Result<
        Vec<EpochRoot>,
        ErrorKind,
    >)
        requires
            self.wf(),
        ensures
            match r {
                Ok(records) => !self.epoch_roots().contains_key(epoch) && ascending(records@)
                    && roots_map(records@) == self.epoch_roots().insert(epoch, root),
                Err(e) => e == ErrorKind::EpochAlreadyCommitted && self.epoch_roots().contains_key(
                    epoch,
                ),
            },
    {
        proof {
            self.db_manager.lemma_open_store();
        }
        self.db_manager.opened_db().roots_after(epoch, root)
    }

    /// The root records as they are once the roots of `target` and of every
    /// epoch above it are removed: what a caller writes out before it rolls
    /// back. The manager stays as it is.
    pub fn roots_below(&self, target: EpochId) -> (records: Vec<EpochRoot>)
        requires
            self.wf(),
        ensures
            ascending(records@),
            roots_map(records@) == self.epoch_roots().restrict(
                Set::new(|e: EpochId| e.spec_lt(target)),
            ),
    {
        proof {
            self.db_manager.lemma_open_store();
        }
        self.db_manager.opened_db().roots_below(&target)
    }

    /// The rows that came since the first `written` rows: what a caller that
    /// has written those out has to write next, in order.
    pub fn rows_since(&self, written: usize) -> (rows: Vec<DbRow>)
        requires
            self.wf(),
            written <= self.lifecycle().db().order().len(),
        ensures
            rows@.len() == self.lifecycle().db().order().len() - written,
            forall|i: int|
                0 <= i < rows@.len() ==> (#[trigger] rows@[i]).key == self.lifecycle().db().order()[written
                    + i] && rows@[i].value@ == self.lifecycle().db().rows()[rows@[i].key],
    {
        proof {
            self.db_manager.lemma_open_store();
        }
        self.db_manager.opened_db().rows_from(written)
    }

    /// The number of rows of the store.
    pub fn row_count(&self) -> (n: usize)
        requires
            self.wf(),
        ensures
            n == self.lifecycle().db().order().len(),
    {
        proof {
            self.db_manager.lemma_open_store();
        }
        self.db_manager.opened_db().row_count()
    }

    /// The bytes of the resident nodes, as far as a `usize` can say.
    pub fn size_of(&self) -> (n: usize)
        requires
            self.wf(),
        ensures
            n == if total_size(self.pool().slots()) <= usize::MAX {
                total_size(self.pool().slots())
            } else {
                usize::MAX as nat
            },
    {
        let mut size: usize = 0;
        size = self.node_memory_manager.size_of();
        size
    }

    /// The number of resident nodes.
    pub fn resident_nodes(&self) -> (n: usize)
        ensures
            n == self.pool().spec_resident_count(),
    {
        self.node_memory_manager.resident_count()
    }
}

impl SingleMptState {
    /// The root of the state: a reference to a persisted node, or to a node
    /// that the state owns once it was changed; `None` where it holds nothing.
    pub closed spec fn root(&self) -> Option<CowNodeRef> {
        self.root
    }

    /// The state's root is well formed over the persisted nodes.
    pub open spec fn wf(&self, nodes: NodeTable) -> bool {
        root_wf(nodes, self.root())
    }

    /// The state holds values under keys only: no path of its trie that is
    /// not the path of a key has a value. A state that was built from the
    /// empty state by `set` and `delete` is such a state, and so is the state
    /// of an epoch that was committed from one.
    pub open spec fn keyed(&self, nodes: NodeTable) -> bool {
        aligned(nodes, self.root())
    }

    /// What the state holds for a key.
    pub open spec fn read(&self, nodes: NodeTable, key: Seq<u8>) -> Option<Seq<u8>> {
        trie_read(nodes, self.root(), key)
    }

    /// The keys and values that the state holds.
    pub open spec fn contents(&self, nodes: NodeTable) -> Map<Seq<u8>, Seq<u8>> {
        trie_contents(nodes, self.root())
    }

    /// The state of a persisted root.
    pub fn new(root: MerkleHash) -> (state: SingleMptState)
        ensures
            state.root() == Some(CowNodeRef::Committed(root)),
    {
        SingleMptState { root: Some(CowNodeRef::Committed(root)) }
    }

    /// A state that holds nothing.
    pub fn new_empty() -> (state: SingleMptState)
        ensures
            state.root().is_none(),
    {
        SingleMptState { root: None }
    }

    /// Whether the state has changes that no commit has persisted.
    pub fn is_dirty(&self) -> (b: bool)
        ensures
            b == (self.root() matches Some(CowNodeRef::Owned(_))),
    {
        match &self.root {
            Some(r) => r.is_owned(),
            None => false,
        }
    }

    /// Reads the value under `key`: `None` where the state holds none.
    pub fn get(&self, manager: &mut SingleMptStorageManager, key: &[u8]) -> (r: Option<Vec<u8>>)
        requires
            old(manager).wf(),
            self.wf(old(manager).nodes()),
        ensures
            final(manager).wf(),
            final(manager).nodes() == old(manager).nodes(),
            final(manager).rows() == old(manager).rows(),
            final(manager).epoch_roots() == old(manager).epoch_roots(),
            final(manager).lifecycle() == old(manager).lifecycle(),
            final(manager).pool().limits() == old(manager).pool().limits(),
            option_bytes_view(r) == self.read(old(manager).nodes(), key@),
            option_bytes_view(r) == if self.contents(old(manager).nodes()).contains_key(key@) {
                Some(self.contents(old(manager).nodes())[key@])
            } else {
                None
            },
    {
        let path = to_key_path(key);
        proof {
            manager.db_manager.lemma_open_store();
            assert(path@.skip(0) =~= path@);
        }
        match &self.root {
            None => None,
            Some(r) => {
                let db = manager.db_manager.opened_db();
                ref_get(db, &mut manager.node_memory_manager, r, &path, 0)
            },
        }
    }

    /// Puts `value` under `key`.
    pub fn set(&mut self, manager: &mut SingleMptStorageManager, key: &[u8], value: Vec<u8>)
        requires
            old(manager).wf(),
            old(self).wf(old(manager).nodes()),
        ensures
            final(manager).wf(),
            final(manager).nodes() == old(manager).nodes(),
            final(manager).rows() == old(manager).rows(),
            final(manager).epoch_roots() == old(manager).epoch_roots(),
            final(manager).lifecycle() == old(manager).lifecycle(),
            final(manager).pool().limits() == old(manager).pool().limits(),
            final(self).wf(old(manager).nodes()),
            final(self).contents(old(manager).nodes()) == old(self).contents(
                old(manager).nodes(),
            ).insert(key@, value@),
            old(self).keyed(old(manager).nodes()) ==> final(self).keyed(old(manager).nodes()),
            // the first write makes a single node, without children
            old(self).root().is_none() ==> (final(self).root() matches Some(
                CowNodeRef::Owned(leaf),
            ) && leaf.path@ == key_path(key@) && option_bytes_view(leaf.value) == Some(value@)
                && leaf.children@.len() == FAN_OUT && no_children(leaf.children@)),
            // every write leaves a state that owns its root
            final(self).root() matches Some(CowNodeRef::Owned(_)),
    {
        let ghost nodes = manager.nodes();
        let ghost before = self.root;
        let ghost value_view = value@;
        let path = to_key_path(key);
        proof {
            manager.db_manager.lemma_open_store();
            lemma_key_path_is_nibble_path(key@);
            assert(path@.skip(0) =~= path@);
        }
        let root = self.root.take();
        let node = match root {
            None => {
                let leaf = CowNode { path, value: Some(value), children: empty_children() };
                proof {
                    assert forall|i: int| 0 <= i < leaf.children@.len() implies (
                    #[trigger] leaf.children@[i] matches Some(r) ==> ref_wf(nodes, r)) by {
                        assert(leaf.children@[i].is_none());
                    }
                    assert forall|k: Seq<u8>| #[trigger]
                        node_lookup(nodes, leaf, k) == after_put(
                            root_lookup(nodes, before, k),
                            k,
                            key_path(key@),
                            value_view,
                        ) by {
                        lemma_leaf_lookup(nodes, leaf, k);
                    }
                }
                leaf
            },
            Some(r) => {
                let db = manager.db_manager.opened_db();
                let owned = into_owned(db, &mut manager.node_memory_manager, r);
                node_put(db, &mut manager.node_memory_manager, owned, &path, 0, value)
            },
        };
        self.root = Some(CowNodeRef::Owned(Box::new(node)));
        proof {
            assert forall|k: Seq<u8>| #[trigger]
                root_lookup(nodes, self.root, k) == after_put(
                    root_lookup(nodes, before, k),
                    k,
                    key_path(key@),
                    value_view,
                ) by {
                assert(root_lookup(nodes, self.root, k) == node_lookup(nodes, node, k));
            }
            if aligned(nodes, before) {
                assert forall|path: Seq<u8>| (#[trigger] root_lookup(
                    nodes,
                    self.root,
                    path,
                )).is_some() implies is_key_path(path) by {
                    assert(root_lookup(nodes, self.root, path) == after_put(
                        root_lookup(nodes, before, path),
                        path,
                        key_path(key@),
                        value_view,
                    ));
                    if path == key_path(key@) {
                        assert(key_path(key@) == path);
                    } else {
                        assert(root_lookup(nodes, before, path).is_some());
                    }
                }
            }
            let after = self.contents(nodes);
            let expected = trie_contents(nodes, before).insert(key@, value_view);
            assert(after =~= expected) by {
                assert forall|k: Seq<u8>|
                    trie_read(nodes, self.root, k) == after_put(
                        trie_read(nodes, before, k),
                        k,
                        key@,
                        value_view,
                    ) by {
                    assert(root_lookup(nodes, self.root, key_path(k)) == after_put(
                        root_lookup(nodes, before, key_path(k)),
                        key_path(k),
                        key_path(key@),
                        value_view,
                    ));
                    if key_path(k) == key_path(key@) {
                        lemma_key_path_injective(k, key@);
                    }
                }
                assert forall|k: Seq<u8>| after.dom().contains(k) <==> expected.dom().contains(
                    k,
                ) by {
                    assert(trie_read(nodes, self.root, k) == after_put(
                        trie_read(nodes, before, k),
                        k,
                        key@,
                        value_view,
                    ));
                }
                assert forall|k: Seq<u8>| after.dom().contains(k) implies after[k] == expected[k] by {
                    assert(trie_read(nodes, self.root, k) == after_put(
                        trie_read(nodes, before, k),
                        k,
                        key@,
                        value_view,
                    ));
                }
            }
        }
    }

    /// Deletes what the state holds under `key`, and gives the value that it
    /// held: `None` where it held none.
    pub fn delete(&mut self, manager: &mut SingleMptStorageManager, key: &[u8]) -> (r: Option<
        Vec<u8>,
    >)
        requires
            old(manager).wf(),
            old(self).wf(old(manager).nodes()),
        ensures
            final(manager).wf(),
            final(manager).nodes() == old(manager).nodes(),
            final(manager).rows() == old(manager).rows(),
            final(manager).epoch_roots() == old(manager).epoch_roots(),
            final(manager).lifecycle() == old(manager).lifecycle(),
            final(manager).pool().limits() == old(manager).pool().limits(),
            final(self).wf(old(manager).nodes()),
            option_bytes_view(r) == old(self).read(old(manager).nodes(), key@),
            final(self).contents(old(manager).nodes()) == old(self).contents(
                old(manager).nodes(),
            ).remove(key@),
            old(self).keyed(old(manager).nodes()) ==> final(self).keyed(old(manager).nodes()),
    {
        let ghost nodes = manager.nodes();
        let ghost before = self.root;
        let found = self.get(manager, key);
        if found.is_none() {
            // nothing to delete, and nothing is copied for it
            assert(self.contents(nodes) =~= self.contents(nodes).remove(key@));
            return None;
        }
        let path = to_key_path(key);
        proof {
            manager.db_manager.lemma_open_store();
            assert(path@.skip(0) =~= path@);
        }
        let root = self.root.take();
        match root {
            None => {},
            Some(r) => {
                let db = manager.db_manager.opened_db();
                let owned = into_owned(db, &mut manager.node_memory_manager, r);
                let left = node_delete(db, &mut manager.node_memory_manager, owned, &path, 0);
                proof {
                    assert forall|k: Seq<u8>| #[trigger]
                        opt_node_lookup(nodes, left, k) == after_delete(
                            root_lookup(nodes, before, k),
                            k,
                            key_path(key@),
                        ) by {
                        assert(node_lookup(nodes, owned, k) == ref_lookup(nodes, r, k));
                    }
                }
                match left {
                    Some(node) => {
                        self.root = Some(CowNodeRef::Owned(Box::new(node)));
                    },
                    None => {},
                }
                proof {
                    assert forall|k: Seq<u8>| #[trigger]
                        root_lookup(nodes, self.root, k) == opt_node_lookup(nodes, left, k) by {}
                }
            },
        }
        proof {
            if aligned(nodes, before) {
                assert forall|path: Seq<u8>| (#[trigger] root_lookup(
                    nodes,
                    self.root,
                    path,
                )).is_some() implies is_key_path(path) by {
                    assert(root_lookup(nodes, self.root, path) == after_delete(
                        root_lookup(nodes, before, path),
                        path,
                        key_path(key@),
                    ));
                    assert(root_lookup(nodes, before, path).is_some());
                }
            }
            let after = self.contents(nodes);
            let expected = trie_contents(nodes, before).remove(key@);
            assert(after =~= expected) by {
                assert forall|k: Seq<u8>|
                    trie_read(nodes, self.root, k) == after_delete(
                        trie_read(nodes, before, k),
                        k,
                        key@,
                    ) by {
                    assert(root_lookup(nodes, self.root, key_path(k)) == after_delete(
                        root_lookup(nodes, before, key_path(k)),
                        key_path(k),
                        key_path(key@),
                    ));
                    if key_path(k) == key_path(key@) {
                        lemma_key_path_injective(k, key@);
                    }
                }
                assert forall|k: Seq<u8>| after.dom().contains(k) <==> expected.dom().contains(
                    k,
                ) by {
                    assert(trie_read(nodes, self.root, k) == after_delete(
                        trie_read(nodes, before, k),
                        k,
                        key@,
                    ));
                }
                assert forall|k: Seq<u8>| after.dom().contains(k) implies after[k] == expected[k] by {
                    assert(trie_read(nodes, self.root, k) == after_delete(
                        trie_read(nodes, before, k),
                        k,
                        key@,
                    ));
                }
            }
        }
        found
    }
}

impl SingleMptStorageManager {
    /// What a commit of `state` for `epoch` does and gives.
    ///
    /// An epoch that has a root is refused, and nothing changes. Else the
    /// nodes that the state owns are persisted, as `flush_root` says. The
    /// commit fails with `HashCollision` exactly where one of them collides
    /// with a row of the store, and then nothing is recorded. Else it
    /// succeeds: the root is recorded for the epoch, and the trie under it
    /// holds what the state held. Persisted nodes are never removed or
    /// changed.
    pub open spec fn commit_post(
        pre: SingleMptStorageManager,
        state: SingleMptState,
        epoch: EpochId,
        post: SingleMptStorageManager,
        r: Result<Option<MerkleHash>, ErrorKind>,
    ) -> bool {
        &&& pre.nodes().submap_of(post.nodes())
        &&& if pre.epoch_roots().contains_key(epoch) {
            r == Err::<Option<MerkleHash>, ErrorKind>(ErrorKind::EpochAlreadyCommitted)
                && post.rows() == pre.rows()
        } else {
            post.rows() == flush_root(pre.rows(), state.root()).0 && r == match flush_root(
                pre.rows(),
                state.root(),
            ).1 {
                Some(root) => Ok::<Option<MerkleHash>, ErrorKind>(root),
                None => Err::<Option<MerkleHash>, ErrorKind>(ErrorKind::HashCollision),
            }
        }
        &&& match r {
            Ok(root) => {
                &&& !pre.epoch_roots().contains_key(epoch)
                &&& post.epoch_roots() == pre.epoch_roots().insert(epoch, root)
                &&& root.is_none() == state.root().is_none()
                &&& root matches Some(h) ==> post.nodes().contains_key(h)
                &&& trie_contents(post.nodes(), committed_root(root)) == state.contents(pre.nodes())
                &&& state.keyed(pre.nodes()) ==> aligned(post.nodes(), committed_root(root))
            },
            Err(e) => {
                &&& post.epoch_roots() == pre.epoch_roots()
                &&& if pre.epoch_roots().contains_key(epoch) {
                    e == ErrorKind::EpochAlreadyCommitted && post.nodes() == pre.nodes()
                } else {
                    e == ErrorKind::HashCollision
                }
            },
        }
    }
}

impl SingleMptStorageManager {
    /// What persisting `state` does and gives: the nodes that the state owns
    /// join the rows of the store, as `flush_root` says, and the trie under
    /// the root that is given holds what the state held; no root is
    /// recorded. Persisting fails exactly where one of the state's nodes
    /// collides with a row of the store: its content hash is the key of a
    /// row that holds other bytes.
    pub open spec fn persist_post(
        pre: SingleMptStorageManager,
        state: SingleMptState,
        post: SingleMptStorageManager,
        r: Result<Option<MerkleHash>, ErrorKind>,
    ) -> bool {
        &&& pre.nodes().submap_of(post.nodes())
        &&& post.epoch_roots() == pre.epoch_roots()
        &&& post.rows() == flush_root(pre.rows(), state.root()).0
        &&& r == match flush_root(pre.rows(), state.root()).1 {
            Some(root) => Ok::<Option<MerkleHash>, ErrorKind>(root),
            None => Err::<Option<MerkleHash>, ErrorKind>(ErrorKind::HashCollision),
        }
        &&& match r {
            Ok(root) => {
                &&& root.is_none() == state.root().is_none()
                &&& root matches Some(h) ==> post.nodes().contains_key(h)
                &&& state.root() matches Some(CowNodeRef::Committed(h)) ==> root == Some(h)
                    && post.nodes() == pre.nodes()
                &&& state.root().is_none() ==> post.nodes() == pre.nodes()
                &&& trie_contents(post.nodes(), committed_root(root)) == state.contents(pre.nodes())
                &&& state.keyed(pre.nodes()) ==> aligned(post.nodes(), committed_root(root))
            },
            Err(e) => e == ErrorKind::HashCollision && state.root() matches Some(
                CowNodeRef::Owned(_),
            ),
        }
    }

    /// Whether `epoch` has a root recorded.
    pub fn is_committed(&self, epoch: EpochId) -> (b: bool)
        requires
            self.wf(),
        ensures
            b == self.epoch_roots().contains_key(epoch),
    {
        proof {
            self.db_manager.lemma_open_store();
        }
        self.db_manager.opened_db().root_of(&epoch).is_some()
    }

    /// Whether a node is persisted under `h`.
    pub fn contains_node(&self, h: MerkleHash) -> (b: bool)
        requires
            self.wf(),
        ensures
            b == self.nodes().contains_key(h),
    {
        proof {
            self.db_manager.lemma_open_store();
        }
        self.db_manager.opened_db().contains(h)
    }

    /// Records `root` as the root of `epoch`, unless the epoch has a root
    /// already: a recorded root is never replaced.
    pub fn record_root(&mut self, epoch: EpochId, root: Option<MerkleHash>) -> (r: Result<
        (),
        ErrorKind,
    >)
        requires
            old(self).wf(),
            root matches Some(h) ==> old(self).nodes().contains_key(h),
        ensures
            final(self).wf(),
            final(self).nodes() == old(self).nodes(),
            final(self).rows() == old(self).rows(),
            final(self).pool() == old(self).pool(),
            final(self).lifecycle().physical_opens() == old(self).lifecycle().physical_opens(),
            match r {
                Ok(_) => !old(self).epoch_roots().contains_key(epoch) && final(self).epoch_roots()
                    == old(self).epoch_roots().insert(epoch, root),
                Err(e) => e == ErrorKind::EpochAlreadyCommitted && old(self).epoch_roots().contains_key(
                    epoch,
                ) && final(self).epoch_roots() == old(self).epoch_roots(),
            },
    {
        proof {
            self.db_manager.lemma_open_store();
        }
        self.db_manager.record_root(epoch, root)
    }
}

impl SingleMptState {
    /// Persists what the state owns, and gives the root under which the
    /// state now stands among the persisted nodes: `None` for a state that
    /// holds nothing. No root is recorded. The state is used up by it.
    pub fn persist(self, manager: &mut SingleMptStorageManager) -> (r: Result<
        Option<MerkleHash>,
        ErrorKind,
    >)
        requires
            old(manager).wf(),
            self.wf(old(manager).nodes()),
        ensures
            final(manager).wf(),
            final(manager).pool().limits() == old(manager).pool().limits(),
            final(manager).lifecycle().physical_opens() == old(manager).lifecycle().physical_opens(),
            SingleMptStorageManager::persist_post(*old(manager), self, *final(manager), r),
    {
        let ghost nodes = manager.nodes();
        proof {
            manager.db_manager.lemma_open_store();
        }
        let root = match self.root {
            None => None,
            Some(CowNodeRef::Committed(h)) => Some(h),
            Some(CowNodeRef::Owned(b)) => {
                match manager.db_manager.flush(*b) {
                    Ok(h) => Some(h),
                    Err(e) => {
                        proof {
                            crate::trie::lemma_submap_trans(
                                manager.node_memory_manager.resident(),
                                nodes,
                                manager.nodes(),
                            );
                        }
                        return Err(e);
                    },
                }
            },
        };
        proof {
            crate::trie::lemma_submap_trans(
                manager.node_memory_manager.resident(),
                nodes,
                manager.nodes(),
            );
            let flushed = manager.nodes();
            let after = trie_contents(flushed, committed_root(root));
            let held = self.contents(nodes);
            assert forall|k: Seq<u8>|
                trie_read(flushed, committed_root(root), k) == trie_read(nodes, self.root, k) by {
                match self.root {
                    None => {},
                    Some(CowNodeRef::Committed(h)) => {},
                    Some(CowNodeRef::Owned(b)) => {
                        assert(hash_lookup(flushed, root.unwrap(), key_path(k)) == node_lookup(
                            nodes,
                            *b,
                            key_path(k),
                        ));
                    },
                }
            }
            if aligned(nodes, self.root) {
                assert forall|path: Seq<u8>| (#[trigger] root_lookup(
                    flushed,
                    committed_root(root),
                    path,
                )).is_some() implies is_key_path(path) by {
                    match self.root {
                        None => {},
                        Some(CowNodeRef::Committed(h)) => {
                            assert(root_lookup(nodes, self.root, path).is_some());
                        },
                        Some(CowNodeRef::Owned(b)) => {
                            assert(hash_lookup(flushed, root.unwrap(), path) == node_lookup(
                                nodes,
                                *b,
                                path,
                            ));
                            assert(root_lookup(nodes, self.root, path).is_some());
                        },
                    }
                }
            }
            assert(after =~= held) by {
                assert forall|k: Seq<u8>| after.dom().contains(k) <==> held.dom().contains(k) by {
                    assert(trie_read(flushed, committed_root(root), k) == trie_read(
                        nodes,
                        self.root,
                        k,
                    ));
                }
                assert forall|k: Seq<u8>| after.dom().contains(k) implies after[k] == held[k] by {
                    assert(trie_read(flushed, committed_root(root), k) == trie_read(
                        nodes,
                        self.root,
                        k,
                    ));
                }
            }
        }
        Ok(root)
    }

    /// Persists what the state owns and records its root for `epoch`. The
    /// state is used up by it, whether the commit succeeds or not.
    pub fn commit(self, manager: &mut SingleMptStorageManager, epoch: EpochId) -> (r: Result<
        Option<MerkleHash>,
        ErrorKind,
    >)
        requires
            old(manager).wf(),
            self.wf(old(manager).nodes()),
        ensures
            final(manager).wf(),
            final(manager).pool().limits() == old(manager).pool().limits(),
            final(manager).lifecycle().physical_opens() == old(manager).lifecycle().physical_opens(),
            SingleMptStorageManager::commit_post(*old(manager), self, epoch, *final(manager), r),
    {
        if manager.is_committed(epoch) {
            return Err(ErrorKind::EpochAlreadyCommitted);
        }
        let root = match self.persist(manager) {
            Ok(root) => root,
            Err(e) => {
                return Err(e);
            },
        };
        match manager.record_root(epoch, root) {
            Ok(_) => Ok(root),
            Err(e) => {
                proof {
                    assert(false);
                }
                Err(e)
            },
        }
    }
}

/// A table of nodes that grows keeps what a state holds: persisted nodes
/// never change, so a state goes on reading what it read, whatever is
/// persisted beside it.
pub proof fn law_state_survives_growth(state: SingleMptState, nodes: NodeTable, more: NodeTable)
    requires
        table_wf(nodes),
        nodes.submap_of(more),
        state.wf(nodes),
    ensures
        state.wf(more),
        state.contents(more) == state.contents(nodes),
        forall|key: Seq<u8>| #[trigger] state.read(more, key) == state.read(nodes, key),
{
    match state.root() {
        None => {},
        Some(r) => {
            lemma_ref_grows(nodes, more, r);
        },
    }
    assert forall|key: Seq<u8>| #[trigger] state.read(more, key) == state.read(nodes, key) by {
        match state.root() {
            None => {},
            Some(r) => {
                assert(ref_lookup(more, r, key_path(key)) == ref_lookup(nodes, r, key_path(key)));
            },
        }
    }
    assert(state.contents(more) =~= state.contents(nodes)) by {
        assert forall|k: Seq<u8>| state.contents(more).dom().contains(k) <==> state.contents(
            nodes,
        ).dom().contains(k) by {
            assert(state.read(more, k) == state.read(nodes, k));
        }
        assert forall|k: Seq<u8>| state.contents(more).dom().contains(k) implies state.contents(
            more,
        )[k] == state.contents(nodes)[k] by {
            assert(state.read(more, k) == state.read(nodes, k));
        }
    }
}

/// Round trip: after a commit for an epoch, the epoch holds exactly what the
/// committed state held, so every key reads the value last written for it.
pub proof fn law_round_trip(
    pre: SingleMptStorageManager,
    state: SingleMptState,
    epoch: EpochId,
    post: SingleMptStorageManager,
    root: Option<MerkleHash>,
)
    requires
        pre.wf(),
        state.wf(pre.nodes()),
        SingleMptStorageManager::commit_post(
            pre,
            state,
            epoch,
            post,
            Ok::<Option<MerkleHash>, ErrorKind>(root),
        ),
    ensures
        post.root_at(epoch) == Some(root),
        post.contents_at(epoch) == Some(state.contents(pre.nodes())),
{
}

/// Version isolation: a commit for one epoch leaves what every other epoch
/// holds as it was, whether the commit succeeds or fails.
pub proof fn law_version_isolation(
    pre: SingleMptStorageManager,
    state: SingleMptState,
    epoch: EpochId,
    post: SingleMptStorageManager,
    r: Result<Option<MerkleHash>, ErrorKind>,
    other: EpochId,
)
    requires
        pre.wf(),
        SingleMptStorageManager::commit_post(pre, state, epoch, post, r),
        other != epoch,
    ensures
        post.root_at(other) == pre.root_at(other),
        post.contents_at(other) == pre.contents_at(other),
{
    pre.lemma_wf();
    match pre.root_at(other) {
        None => {},
        Some(root) => {
            assert(pre.epoch_roots().contains_key(other));
            let view = SingleMptState { root: committed_root(root) };
            law_state_survives_growth(view, pre.nodes(), post.nodes());
        },
    }
}

/// One content, one root: two persisted tries that hold the same values
/// under the same keys, and values under keys only, have the same root hash,
/// in whatever order their keys were written.
pub proof fn law_same_contents_same_root(
    manager: SingleMptStorageManager,
    a: MerkleHash,
    b: MerkleHash,
)
    requires
        manager.wf(),
        manager.nodes().contains_key(a),
        manager.nodes().contains_key(b),
        aligned(manager.nodes(), Some(CowNodeRef::Committed(a))),
        aligned(manager.nodes(), Some(CowNodeRef::Committed(b))),
        trie_contents(manager.nodes(), Some(CowNodeRef::Committed(a))) == trie_contents(
            manager.nodes(),
            Some(CowNodeRef::Committed(b)),
        ),
    ensures
        a == b,
{
    let nodes = manager.nodes();
    manager.db_manager.lemma_open_store();
    let db = manager.db_manager.db();
    db.lemma_store_facts();
    let order = db.order();
    let ra = Some(CowNodeRef::Committed(a));
    let rb = Some(CowNodeRef::Committed(b));
    assert(same_lookup(nodes, a, b)) by {
        assert forall|k: Seq<u8>|
            #![trigger hash_lookup(nodes, a, k)]
            #![trigger hash_lookup(nodes, b, k)]
            hash_lookup(nodes, a, k) == hash_lookup(nodes, b, k) by {
            assert(root_lookup(nodes, ra, k) == hash_lookup(nodes, a, k));
            assert(root_lookup(nodes, rb, k) == hash_lookup(nodes, b, k));
            if hash_lookup(nodes, a, k).is_some() || hash_lookup(nodes, b, k).is_some() {
                assert(is_key_path(k));
                let key = choose|key: Seq<u8>| #[trigger] key_path(key) == k;
                assert(trie_read(nodes, ra, key) == hash_lookup(nodes, a, k));
                assert(trie_read(nodes, rb, key) == hash_lookup(nodes, b, k));
                let ca = trie_contents(nodes, ra);
                let cb = trie_contents(nodes, rb);
                assert(ca.dom().contains(key) == cb.dom().contains(key));
                if ca.dom().contains(key) {
                    assert(ca[key] == cb[key]);
                }
            }
        }
    }
    assert(order.contains(a) && order.contains(b));
    let i = choose|i: int| 0 <= i < order.len() && order[i] == a;
    let j = choose|j: int| 0 <= j < order.len() && order[j] == b;
    assert(hashed(nodes));
    lemma_same_content_same_hash(nodes, order, i, j);
}

/// Insertion order does not matter: two states that hold the same values
/// under the same keys, however they came to hold them, are persisted under
/// the same root.
pub proof fn law_same_contents_persist_alike(
    first: SingleMptStorageManager,
    a: SingleMptState,
    second: SingleMptStorageManager,
    root_a: Option<MerkleHash>,
    b: SingleMptState,
    last: SingleMptStorageManager,
    root_b: Option<MerkleHash>,
)
    requires
        first.wf(),
        second.wf(),
        last.wf(),
        a.wf(first.nodes()),
        a.keyed(first.nodes()),
        b.wf(second.nodes()),
        b.keyed(second.nodes()),
        SingleMptStorageManager::persist_post(
            first,
            a,
            second,
            Ok::<Option<MerkleHash>, ErrorKind>(root_a),
        ),
        SingleMptStorageManager::persist_post(
            second,
            b,
            last,
            Ok::<Option<MerkleHash>, ErrorKind>(root_b),
        ),
        a.contents(first.nodes()) == b.contents(second.nodes()),
    ensures
        root_a == root_b,
{
    second.lemma_wf();
    let held = a.contents(first.nodes());
    match root_a {
        None => {
            assert(held =~= Map::<Seq<u8>, Seq<u8>>::empty());
            if root_b.is_some() {
                // a root holds something
                let h = root_b.unwrap();
                last.db_manager.lemma_open_store();
                last.db_manager.db().lemma_store_facts();
                let order = last.db_manager.db().order();
                assert(order.contains(h));
                let i = choose|i: int| 0 <= i < order.len() && order[i] == h;
                let path = crate::canonical::lemma_holds_something(last.nodes(), order, i);
                let rb = committed_root(root_b);
                assert(root_lookup(last.nodes(), rb, path) == hash_lookup(last.nodes(), h, path));
                assert(is_key_path(path));
                let key = choose|key: Seq<u8>| #[trigger] key_path(key) == path;
                assert(trie_read(last.nodes(), rb, key).is_some());
                assert(trie_contents(last.nodes(), rb).dom().contains(key));
                assert(false);
            }
        },
        Some(ha) => {
            let view = SingleMptState { root: Some(CowNodeRef::Committed(ha)) };
            law_state_survives_growth(view, second.nodes(), last.nodes());
            assert(aligned(last.nodes(), view.root)) by {
                assert forall|path: Seq<u8>| (#[trigger] root_lookup(
                    last.nodes(),
                    view.root,
                    path,
                )).is_some() implies is_key_path(path) by {
                    lemma_ref_grows(second.nodes(), last.nodes(), view.root.unwrap());
                    assert(ref_lookup(last.nodes(), view.root.unwrap(), path) == ref_lookup(
                        second.nodes(),
                        view.root.unwrap(),
                        path,
                    ));
                    assert(root_lookup(second.nodes(), view.root, path).is_some());
                }
            }
            match root_b {
                None => {
                    assert(b.contents(second.nodes()) =~= Map::<Seq<u8>, Seq<u8>>::empty());
                    // the first root holds something
                    second.db_manager.lemma_open_store();
                    second.db_manager.db().lemma_store_facts();
                    let order = second.db_manager.db().order();
                    assert(order.contains(ha));
                    let i = choose|i: int| 0 <= i < order.len() && order[i] == ha;
                    let path = crate::canonical::lemma_holds_something(second.nodes(), order, i);
                    let ra = committed_root(root_a);
                    assert(root_lookup(second.nodes(), ra, path) == hash_lookup(
                        second.nodes(),
                        ha,
                        path,
                    ));
                    assert(is_key_path(path));
                    let key = choose|key: Seq<u8>| #[trigger] key_path(key) == path;
                    assert(trie_read(second.nodes(), ra, key).is_some());
                    assert(trie_contents(second.nodes(), ra).dom().contains(key));
                    assert(false);
                },
                Some(hb) => {
                    assert(last.nodes().dom().contains(ha)) by {
                        assert(second.nodes().dom().contains(ha));
                    }
                    law_same_contents_same_root(last, ha, hb);
                },
            }
        },
    }
}

/// Nothing is lost on the way out and in again: a manager that is built over
/// what another has written out has the same persisted nodes and the same
/// roots, so every epoch holds in it what it held in the other.
pub proof fn law_reopened_store_is_the_same(
    manager: SingleMptStorageManager,
    image: DbImage,
    stores: DeltaDbManager,
    limits: PoolLimits,
    r: Result<SingleMptStorageManager, ErrorKind>,
    epoch: EpochId,
)
    requires
        image.valid(),
        node_table(image_rows(image.rows@)) == manager.nodes(),
        roots_map(image.roots@) == manager.epoch_roots(),
        stores.image(SINGLE_MPT_ID) == Some(image),
        SingleMptStorageManager::built(stores, limits, r),
    ensures
        r matches Ok(reopened) && reopened.wf() && reopened.nodes() == manager.nodes()
            && reopened.epoch_roots() == manager.epoch_roots() && reopened.contents_at(epoch)
            == manager.contents_at(epoch),
{
}

/// Absence: an epoch that was never committed holds nothing to read, and
/// asking for its state gives `None`, not an error.
pub proof fn law_unknown_epoch_is_absent(manager: SingleMptStorageManager, epoch: EpochId)
    requires
        !manager.epoch_roots().contains_key(epoch),
    ensures
        manager.root_at(epoch).is_none(),
        manager.contents_at(epoch).is_none(),
{
}

} // verus!
