//! Opening backing stores on demand.
//!
//! The stores that exist are handed to the manager as images: the rows and
//! root records that were read from each. A store is opened from its image
//! the first time its logical database is asked for, and the handle made then
//! is handed out again on every later request.

use vstd::prelude::*;
use crate::delta_db::image_rows;
use crate::delta_db::image_valid;
use crate::delta_db::records_valid;
use crate::delta_db::row_keys;
use crate::delta_db::DbRow;
use crate::delta_db::DeltaDb;
use crate::epoch_roots::EpochId;
use crate::epoch_roots::EpochRoot;
use crate::errors::ErrorKind;
use crate::node::MerkleHash;

verus! {

/// The number of a logical database.
pub type DeltaMptId = u16;

/// The logical database of the configuration with a single trie.
pub const SINGLE_MPT_ID: DeltaMptId = 0;

/// What was read from the store of one logical database.
pub struct DbImage {
    pub mpt_id: DeltaMptId,
    pub rows: Vec<DbRow>,
    pub roots: Vec<EpochRoot>,
}

impl DbImage {
    /// The rows and root records are those of a store.
    pub open spec fn valid(&self) -> bool {
        image_valid(self.rows@) && records_valid(self.rows@, self.roots@)
    }
}

/// The first image of a logical database among images.
pub open spec fn find_image(images: Seq<DbImage>, id: DeltaMptId) -> Option<DbImage>
    decreases images.len(),
{
    if images.len() == 0 {
        None
    } else if images[0].mpt_id == id {
        Some(images[0])
    } else {
        find_image(images.skip(1), id)
    }
}

/// A handle to an opened backing store.
#[derive(Clone, Copy, Debug)]
pub struct ArcDeltaDbWrapper {
    /// The store that the handle leads to: the number of the physical open
    /// that brought it.
    pub inner: Option<u64>,
    /// The handle's place among the open handles that may be closed again;
    /// `None` for one that stays open.
    pub lru: Option<u32>,
    /// The logical database.
    pub mpt_id: DeltaMptId,
}

impl ArcDeltaDbWrapper {
    /// Whether the handle stays open: it has no place among the handles
    /// that may be closed.
    pub fn is_pinned(&self) -> (b: bool)
        ensures
            b == self.lru.is_none(),
    {
        self.lru.is_none()
    }
}

/// The stores that exist.
pub struct DeltaDbManager {
    images: Vec<DbImage>,
}

impl DeltaDbManager {
    pub closed spec fn images(&self) -> Seq<DbImage> {
        self.images@
    }

    /// The image of a logical database, if it has a store.
    pub open spec fn image(&self, id: DeltaMptId) -> Option<DbImage> {
        find_image(self.images(), id)
    }

    /// A manager of the stores that were found.
    pub fn new(images: Vec<DbImage>) -> (r: DeltaDbManager)
        ensures
            r.images() == images@,
    {
        DeltaDbManager { images }
    }

    fn position(&self, id: DeltaMptId) -> (r: Option<usize>)
        ensures
            match r {
                Some(i) => i < self.images().len() && self.image(id) == Some(self.images()[i as int]),
                None => self.image(id).is_none(),
            },
    {
        let mut i: usize = 0;
        assert(self.images@.skip(0) =~= self.images@);
        while i < self.images.len()
            invariant
                i <= self.images@.len(),
                find_image(self.images@, id) == find_image(self.images@.skip(i as int), id),
            decreases self.images@.len() - i,
        {
            if self.images[i].mpt_id == id {
                assert(self.images@.skip(i as int)[0] == self.images@[i as int]);
                return Some(i);
            }
            assert(self.images@.skip(i as int).skip(1) =~= self.images@.skip(i + 1));
            i = i + 1;
        }
        None
    }

    /// Opens the store of a logical database from its image: `None` where
    /// the database has no store, `ErrorKind::Corrupt` where the image is not
    /// that of a store.
    pub fn get_delta_db(&self, id: DeltaMptId) -> (r: Result<Option<DeltaDb>, ErrorKind>)
        ensures
            match self.image(id) {
                None => r matches Ok(None),
                Some(image) => if image.valid() {
                    &&& r matches Ok(Some(db))
                    &&& db.wf()
                    &&& db.rows() == image_rows(image.rows@)
                    &&& db.order() == row_keys(image.rows@)
                    &&& db.root_records() == image.roots@
                } else {
                    r matches Err(e) && e == ErrorKind::Corrupt
                },
            },
    {
        match self.position(id) {
            None => Ok(None),
            Some(i) => {
                let image = &self.images[i];
                let mut records: Vec<EpochRoot> = Vec::new();
                let mut j: usize = 0;
                while j < image.roots.len()
                    invariant
                        j <= image.roots@.len(),
                        records@ == image.roots@.subrange(0, j as int),
                    decreases image.roots@.len() - j,
                {
                    records.push(image.roots[j]);
                    assert(records@ =~= image.roots@.subrange(0, j + 1));
                    j = j + 1;
                }
                assert(image.roots@.subrange(0, j as int) =~= image.roots@);
                match DeltaDb::from_image(&image.rows, records) {
                    Ok(db) => Ok(Some(db)),
                    Err(e) => Err(e),
                }
            },
        }
    }

    /// Makes an empty store for a logical database that has none yet.
    pub fn new_empty_delta_db(&self, id: DeltaMptId) -> (r: Result<DeltaDb, ErrorKind>)
        ensures
            match self.image(id) {
                None => {
                    &&& r matches Ok(db)
                    &&& db.wf()
                    &&& db.rows() == Map::<MerkleHash, Seq<u8>>::empty()
                    &&& db.epoch_roots() == Map::<EpochId, Option<MerkleHash>>::empty()
                    &&& db.root_records() == Seq::<EpochRoot>::empty()
                },
                Some(_) => r matches Err(e) && e == ErrorKind::DbAlreadyExist,
            },
    {
        match self.position(id) {
            None => Ok(DeltaDb::new_empty()),
            Some(_) => Err(ErrorKind::DbAlreadyExist),
        }
    }
}

} // verus!
