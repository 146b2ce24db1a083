//! The database lifecycle of the configuration with a single trie: one
//! logical database, number zero, whose store is opened at most once and
//! then stays open.

use vstd::prelude::*;
use crate::db_manager::ArcDeltaDbWrapper;
use crate::db_manager::DeltaDbManager;
use crate::db_manager::DeltaMptId;
use crate::db_manager::SINGLE_MPT_ID;
use crate::delta_db::image_rows;
use crate::delta_db::DeltaDb;
use crate::epoch_roots::EpochId;
use crate::epoch_roots::EpochRoot;
use crate::trie::flush_node;
use crate::trie::flush_tree;
use crate::trie::hash_lookup;
use crate::trie::node_lookup;
use crate::trie::node_shaped;
use crate::trie::node_wf;
use crate::trie::CowNode;
use crate::errors::ErrorKind;
use crate::node::MerkleHash;

verus! {

/// The name of the store of the single trie.
pub const DB_NAME: &'static str = "single_mpt";

/// Something that opens the backing store of a logical database when it is
/// first asked for.
pub trait OpenableOnDemandOpenDeltaDbTrait {
    spec fn wf(&self) -> bool;

    /// A handle to the store of `mpt_id`.
    fn open(&mut self, mpt_id: DeltaMptId) -> (r: Result<ArcDeltaDbWrapper, ErrorKind>)
        requires
            old(self).wf(),
        ensures
            final(self).wf(),
            r matches Ok(handle) ==> handle.mpt_id == mpt_id,
    ;
}

/// The lifecycle manager of the single trie's database.
pub struct SingleMptDbManager {
    pub(crate) db_manager: DeltaDbManager,
    pub(crate) opened_mpt: Option<ArcDeltaDbWrapper>,
    pub(crate) db: Option<DeltaDb>,
    pub(crate) physical_opens: u64,
}

/// The handle of the single trie's store, which stays open: it has no place
/// among the handles that may be closed.
pub open spec fn single_handle(opens: u64) -> ArcDeltaDbWrapper {
    ArcDeltaDbWrapper { inner: Some(opens), lru: None, mpt_id: SINGLE_MPT_ID }
}

impl SingleMptDbManager {
    /// The stores that exist.
    pub closed spec fn stores(&self) -> DeltaDbManager {
        self.db_manager
    }

    /// Whether the store is open.
    pub closed spec fn spec_is_open(&self) -> bool {
        self.opened_mpt.is_some()
    }

    /// The handle of the open store.
    pub closed spec fn handle(&self) -> ArcDeltaDbWrapper {
        self.opened_mpt.unwrap()
    }

    /// The open store.
    pub closed spec fn db(&self) -> DeltaDb {
        self.db.unwrap()
    }

    /// How often a store was opened physically.
    pub closed spec fn spec_physical_opens(&self) -> u64 {
        self.physical_opens
    }

    /// A manager that has opened nothing yet.
    pub fn new(db_manager: DeltaDbManager) -> (r: SingleMptDbManager)
        ensures
            r.wf(),
            !r.is_open(),
            r.physical_opens() == 0,
            r.stores() == db_manager,
    {
        SingleMptDbManager { db_manager, opened_mpt: None, db: None, physical_opens: 0 }
    }

    #[verifier::when_used_as_spec(spec_is_open)]
    pub fn is_open(&self) -> (b: bool)
        ensures
            b == self.spec_is_open(),
    {
        self.opened_mpt.is_some()
    }

    #[verifier::when_used_as_spec(spec_physical_opens)]
    pub fn physical_opens(&self) -> (n: u64)
        ensures
            n == self.spec_physical_opens(),
    {
        self.physical_opens
    }

    /// What making a fresh store for `mpt_id` does and gives.
    ///
    /// Any database but number zero does not exist. A store that is open, or
    /// one that was found, exists already. Else an empty store is made and
    /// opened, and that is counted.
    pub open spec fn create_post(
        pre: SingleMptDbManager,
        mpt_id: DeltaMptId,
        post: SingleMptDbManager,
        r: Result<ArcDeltaDbWrapper, ErrorKind>,
    ) -> bool {
        if mpt_id != SINGLE_MPT_ID {
            r == Err::<ArcDeltaDbWrapper, ErrorKind>(ErrorKind::DbNotExist) && post == pre
        } else if pre.is_open() || pre.stores().image(mpt_id).is_some() {
            r == Err::<ArcDeltaDbWrapper, ErrorKind>(ErrorKind::DbAlreadyExist) && post == pre
        } else {
            &&& post.is_open()
            &&& r == Ok::<ArcDeltaDbWrapper, ErrorKind>(post.handle())
            &&& post.handle() == single_handle(post.physical_opens())
            &&& post.physical_opens() == pre.physical_opens() + 1
            &&& post.stores() == pre.stores()
            &&& post.db().rows() == Map::<MerkleHash, Seq<u8>>::empty()
            &&& post.db().root_records() == Seq::<EpochRoot>::empty()
        }
    }

    /// Makes a fresh, empty store for `mpt_id` and opens it.
    pub fn create(&mut self, mpt_id: DeltaMptId) -> (r: Result<ArcDeltaDbWrapper, ErrorKind>)
        requires
            old(self).wf(),
        ensures
            final(self).wf(),
            Self::create_post(*old(self), mpt_id, *final(self), r),
    {
        if mpt_id != SINGLE_MPT_ID {
            return Err(ErrorKind::DbNotExist);
        }
        if self.opened_mpt.is_some() {
            return Err(ErrorKind::DbAlreadyExist);
        }
        let db = match self.db_manager.new_empty_delta_db(mpt_id) {
            Ok(db) => db,
            Err(e) => {
                return Err(e);
            },
        };
        self.physical_opens = self.physical_opens + 1;
        let mpt = ArcDeltaDbWrapper { inner: Some(self.physical_opens), lru: None, mpt_id };
        self.db = Some(db);
        self.opened_mpt = Some(mpt);
        Ok(mpt)
    }

    /// What a request for the store of `mpt_id` does and gives.
    ///
    /// Any database but number zero does not exist. A store that is open is
    /// not opened again: its handle is handed out once more. Else the store
    /// is opened from its image, or made empty where there is no image, and
    /// that is counted; an image that is no store fails the request.
    pub open spec fn open_post(
        pre: SingleMptDbManager,
        mpt_id: DeltaMptId,
        post: SingleMptDbManager,
        r: Result<ArcDeltaDbWrapper, ErrorKind>,
    ) -> bool {
        if mpt_id != SINGLE_MPT_ID {
            r == Err::<ArcDeltaDbWrapper, ErrorKind>(ErrorKind::DbNotExist) && post == pre
        } else if pre.is_open() {
            r == Ok::<ArcDeltaDbWrapper, ErrorKind>(pre.handle()) && post == pre
        } else if pre.stores().image(mpt_id).is_some() && !pre.stores().image(
            mpt_id,
        ).unwrap().valid() {
            r == Err::<ArcDeltaDbWrapper, ErrorKind>(ErrorKind::Corrupt) && post == pre
        } else {
            &&& post.is_open()
            &&& r == Ok::<ArcDeltaDbWrapper, ErrorKind>(post.handle())
            &&& post.handle() == single_handle(post.physical_opens())
            &&& post.physical_opens() == pre.physical_opens() + 1
            &&& post.stores() == pre.stores()
            &&& post.db().rows() == match pre.stores().image(mpt_id) {
                Some(image) => image_rows(image.rows@),
                None => Map::<MerkleHash, Seq<u8>>::empty(),
            }
            &&& post.db().root_records() == match pre.stores().image(mpt_id) {
                Some(image) => image.roots@,
                None => Seq::<EpochRoot>::empty(),
            }
        }
    }
}

impl OpenableOnDemandOpenDeltaDbTrait for SingleMptDbManager {
    /// The store is open exactly if it was opened physically, which happens
    /// once at most; an open store is well formed.
    closed spec fn wf(&self) -> bool {
        &&& self.opened_mpt.is_some() == self.db.is_some()
        &&& self.physical_opens == if self.opened_mpt.is_some() {
            1u64
        } else {
            0u64
        }
        &&& self.opened_mpt.is_some() ==> self.db.unwrap().wf() && self.opened_mpt.unwrap()
            == single_handle(1)
    }

    fn open(&mut self, mpt_id: DeltaMptId) -> (r: Result<ArcDeltaDbWrapper, ErrorKind>)
        ensures
            SingleMptDbManager::open_post(*old(self), mpt_id, *final(self), r),
            mpt_id != SINGLE_MPT_ID ==> r == Err::<ArcDeltaDbWrapper, ErrorKind>(
                ErrorKind::DbNotExist,
            ),
    {
        if mpt_id == SINGLE_MPT_ID {
            match self.opened_mpt {
                Some(handle) => {
                    return Ok(handle);
                },
                None => {},
            }
            let db = match self.db_manager.get_delta_db(mpt_id) {
                Err(e) => {
                    return Err(e);
                },
                Ok(Some(db)) => db,
                Ok(None) => {
                    return self.create(mpt_id);
                },
            };
            self.physical_opens = self.physical_opens + 1;
            let mpt = ArcDeltaDbWrapper { inner: Some(self.physical_opens), lru: None, mpt_id };
            self.db = Some(db);
            self.opened_mpt = Some(mpt);
            Ok(mpt)
        } else {
            Err(ErrorKind::DbNotExist)
        }
    }
}

impl SingleMptDbManager {
    /// The open store.
    pub fn opened_db(&self) -> (db: &DeltaDb)
        requires
            self.wf(),
            self.is_open(),
        ensures
            *db == self.db(),
            db.wf(),
    {
        match &self.db {
            Some(db) => db,
            None => {
                proof {
                    assert(false);
                }
                unreached()
            },
        }
    }

    /// Persists an owned node and the owned nodes below it in the open store.
    pub fn flush(&mut self, node: CowNode) -> (r: Result<MerkleHash, ErrorKind>)
        requires
            old(self).wf(),
            old(self).is_open(),
            node_wf(old(self).db().nodes(), node),
            node_shaped(node),
        ensures
            final(self).wf(),
            final(self).is_open(),
            final(self).handle() == old(self).handle(),
            final(self).stores() == old(self).stores(),
            final(self).physical_opens() == old(self).physical_opens(),
            final(self).db().wf(),
            final(self).db().epoch_roots() == old(self).db().epoch_roots(),
            final(self).db().root_records() == old(self).db().root_records(),
            final(self).db().rows() == flush_tree(old(self).db().rows(), node).0,
            r == match flush_tree(old(self).db().rows(), node).1 {
                Some(h) => Ok::<MerkleHash, ErrorKind>(h),
                None => Err::<MerkleHash, ErrorKind>(ErrorKind::HashCollision),
            },
            old(self).db().nodes().submap_of(final(self).db().nodes()),
            match r {
                Ok(h) => final(self).db().nodes().contains_key(h) && forall|k: Seq<u8>| #[trigger]
                    hash_lookup(final(self).db().nodes(), h, k) == node_lookup(
                        old(self).db().nodes(),
                        node,
                        k,
                    ),
                Err(e) => e == ErrorKind::HashCollision,
            },
    {
        let mut db = match self.db.take() {
            Some(db) => db,
            None => {
                proof {
                    assert(false);
                }
                unreached()
            },
        };
        let r = flush_node(&mut db, node);
        self.db = Some(db);
        r
    }

    /// Records `root` for `epoch` in the open store, unless the epoch has a
    /// record already.
    pub fn record_root(&mut self, epoch: EpochId, root: Option<MerkleHash>) -> (r: Result<
        (),
        ErrorKind,
    >)
        requires
            old(self).wf(),
            old(self).is_open(),
            root matches Some(h) ==> old(self).db().nodes().contains_key(h),
        ensures
            final(self).wf(),
            final(self).is_open(),
            final(self).handle() == old(self).handle(),
            final(self).stores() == old(self).stores(),
            final(self).physical_opens() == old(self).physical_opens(),
            final(self).db().wf(),
            final(self).db().rows() == old(self).db().rows(),
            match r {
                Ok(_) => !old(self).db().epoch_roots().contains_key(epoch) && final(self).db().epoch_roots() == old(self).db().epoch_roots().insert(epoch, root),
                Err(e) => e == ErrorKind::EpochAlreadyCommitted && old(self).db().epoch_roots().contains_key(epoch) && final(self).db().epoch_roots() == old(self).db().epoch_roots(),
            },
    {
        let mut db = match self.db.take() {
            Some(db) => db,
            None => {
                proof {
                    assert(false);
                }
                unreached()
            },
        };
        let r = db.record_root(epoch, root);
        self.db = Some(db);
        r
    }

    /// Removes the roots recorded for `target` and for every epoch above it
    /// from the open store.
    pub fn rollback(&mut self, target: &EpochId)
        requires
            old(self).wf(),
            old(self).is_open(),
        ensures
            final(self).wf(),
            final(self).is_open(),
            final(self).handle() == old(self).handle(),
            final(self).stores() == old(self).stores(),
            final(self).physical_opens() == old(self).physical_opens(),
            final(self).db().wf(),
            final(self).db().rows() == old(self).db().rows(),
            final(self).db().epoch_roots() == old(self).db().epoch_roots().restrict(
                Set::new(|e: EpochId| e.spec_lt(*target)),
            ),
    {
        let mut db = match self.db.take() {
            Some(db) => db,
            None => {
                proof {
                    assert(false);
                }
                unreached()
            },
        };
        db.rollback(target);
        self.db = Some(db);
    }

    /// An open store is well formed and was opened physically exactly once.
    pub proof fn lemma_open_store(&self)
        requires
            self.wf(),
            self.is_open(),
        ensures
            self.db().wf(),
            self.physical_opens() == 1,
            self.handle() == single_handle(1),
    {
    }

    /// A store that is not open was never opened physically.
    pub proof fn lemma_closed_store(&self)
        requires
            self.wf(),
            !self.is_open(),
        ensures
            self.physical_opens() == 0,
    {
    }
}

/// However often the database of the single trie is asked for, its store is
/// opened physically once, and every request gets the same handle to it.
pub proof fn law_open_once(
    states: Seq<SingleMptDbManager>,
    results: Seq<Result<ArcDeltaDbWrapper, ErrorKind>>,
)
    requires
        results.len() >= 1,
        states.len() == results.len() + 1,
        states[0].wf(),
        forall|i: int|
            0 <= i < results.len() ==> SingleMptDbManager::open_post(
                #[trigger] states[i],
                SINGLE_MPT_ID,
                states[i + 1],
                results[i],
            ),
        results[0].is_ok(),
    ensures
        forall|i: int| 0 <= i < results.len() ==> #[trigger] results[i] == results[0],
        forall|i: int|
            1 <= i < states.len() ==> (#[trigger] states[i]).is_open() && states[i].physical_opens()
                == 1 && states[i].db() == states[1].db(),
    decreases results.len(),
{
    let n = results.len() as int;
    assert(SingleMptDbManager::open_post(states[0], SINGLE_MPT_ID, states[1], results[0]));
    if states[0].is_open() {
        states[0].lemma_open_store();
    } else {
        states[0].lemma_closed_store();
    }
    assert(states[1].is_open() && states[1].physical_opens() == 1);
    if n > 1 {
        let shorter_states = states.drop_last();
        let shorter_results = results.drop_last();
        assert forall|i: int| 0 <= i < shorter_results.len() implies SingleMptDbManager::open_post(
            #[trigger] shorter_states[i],
            SINGLE_MPT_ID,
            shorter_states[i + 1],
            shorter_results[i],
        ) by {
            assert(SingleMptDbManager::open_post(
                states[i],
                SINGLE_MPT_ID,
                states[i + 1],
                results[i],
            ));
        }
        law_open_once(shorter_states, shorter_results);
        assert(shorter_states[n - 1].is_open());
        assert(SingleMptDbManager::open_post(
            states[n - 1],
            SINGLE_MPT_ID,
            states[n],
            results[n - 1],
        ));
        assert(shorter_results[n - 2] == shorter_results[0]);
        assert(SingleMptDbManager::open_post(
            states[n - 2],
            SINGLE_MPT_ID,
            states[n - 1],
            results[n - 2],
        ));
        assert forall|i: int| 0 <= i < results.len() implies #[trigger] results[i] == results[0] by {
            if i < n - 1 {
                assert(shorter_results[i] == shorter_results[0]);
            }
        }
        assert forall|i: int| 1 <= i < states.len() implies (#[trigger] states[i]).is_open()
            && states[i].physical_opens() == 1 && states[i].db() == states[1].db() by {
            if i < n {
                assert(shorter_states[i].is_open());
            }
        }
    }
}

/// In the configuration with a single trie every logical database but number
/// zero does not exist, whatever was opened before, and asking for one
/// changes nothing.
pub proof fn law_other_databases_do_not_exist(
    pre: SingleMptDbManager,
    mpt_id: DeltaMptId,
    post: SingleMptDbManager,
    r: Result<ArcDeltaDbWrapper, ErrorKind>,
)
    requires
        mpt_id != SINGLE_MPT_ID,
        SingleMptDbManager::open_post(pre, mpt_id, post, r),
    ensures
        r == Err::<ArcDeltaDbWrapper, ErrorKind>(ErrorKind::DbNotExist),
        post == pre,
{
}

} // verus!
