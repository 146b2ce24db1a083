//! The delta trie of a logical database: the tries of all committed epochs
//! over one backing store, each reached from the root of its epoch.

use vstd::prelude::*;
use crate::db_manager::ArcDeltaDbWrapper;
use crate::db_manager::DeltaMptId;
use crate::db_manager::SINGLE_MPT_ID;
use crate::epoch_roots::EpochId;
use crate::errors::ErrorKind;
use crate::nibbles::key_path;
use crate::node::MerkleHash;
use crate::single_mpt_db_manager::OpenableOnDemandOpenDeltaDbTrait;
use crate::single_mpt_db_manager::SingleMptDbManager;
use crate::trie::root_lookup;
use crate::trie::CowNodeRef;
use crate::trie::NodeTable;

verus! {

/// What a trie holds for a key of bytes.
pub open spec fn trie_read(nodes: NodeTable, root: Option<CowNodeRef>, key: Seq<u8>) -> Option<
    Seq<u8>,
> {
    root_lookup(nodes, root, key_path(key))
}

/// The keys and values of a trie.
pub open spec fn trie_contents(nodes: NodeTable, root: Option<CowNodeRef>) -> Map<Seq<u8>, Seq<u8>> {
    Map::new(
        |key: Seq<u8>| trie_read(nodes, root, key).is_some(),
        |key: Seq<u8>| trie_read(nodes, root, key).unwrap(),
    )
}

/// A path that is the path of a key: two nibbles for each byte.
pub open spec fn is_key_path(path: Seq<u8>) -> bool {
    exists|key: Seq<u8>| #[trigger] key_path(key) == path
}

/// A trie that holds values under paths of keys only.
pub open spec fn aligned(nodes: NodeTable, root: Option<CowNodeRef>) -> bool {
    forall|path: Seq<u8>| (#[trigger] root_lookup(nodes, root, path)).is_some() ==> is_key_path(path)
}

/// The reference to a persisted root.
pub open spec fn committed_root(root: Option<MerkleHash>) -> Option<CowNodeRef> {
    match root {
        Some(h) => Some(CowNodeRef::Committed(h)),
        None => None,
    }
}

/// The delta trie of a logical database.
pub struct DeltaMpt {
    pub(crate) mpt_id: DeltaMptId,
    pub(crate) db: ArcDeltaDbWrapper,
}

impl DeltaMpt {
    /// The handle of the trie's backing store.
    pub closed spec fn handle(&self) -> ArcDeltaDbWrapper {
        self.db
    }

    pub closed spec fn mpt_id(&self) -> DeltaMptId {
        self.mpt_id
    }

    /// The trie of the configuration with a single trie, over the store
    /// that the lifecycle manager opens for it.
    pub fn new_single_mpt(db_manager: &mut SingleMptDbManager) -> (r: Result<DeltaMpt, ErrorKind>)
        requires
            old(db_manager).wf(),
        ensures
            final(db_manager).wf(),
            SingleMptDbManager::open_post(
                *old(db_manager),
                SINGLE_MPT_ID,
                *final(db_manager),
                match r {
                    Ok(mpt) => Ok(mpt.handle()),
                    Err(e) => Err(e),
                },
            ),
            r matches Ok(mpt) ==> mpt.mpt_id() == SINGLE_MPT_ID,
    {
        match db_manager.open(SINGLE_MPT_ID) {
            Ok(db) => Ok(DeltaMpt { mpt_id: SINGLE_MPT_ID, db }),
            Err(e) => Err(e),
        }
    }

    /// The root recorded for `epoch`: `None` where the epoch has no record,
    /// `Some(None)` where its trie holds nothing.
    pub fn get_root_node_ref_by_epoch(&self, db_manager: &SingleMptDbManager, epoch: &EpochId) -> (r:
        Result<Option<Option<MerkleHash>>, ErrorKind>)
        requires
            db_manager.wf(),
            db_manager.is_open(),
        ensures
            r == Ok::<Option<Option<MerkleHash>>, ErrorKind>(
                if db_manager.db().epoch_roots().contains_key(*epoch) {
                    Some(db_manager.db().epoch_roots()[*epoch])
                } else {
                    None
                },
            ),
    {
        Ok(db_manager.opened_db().root_of(epoch))
    }
}

} // verus!
