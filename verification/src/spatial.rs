//! The spatial tree of a mesh file: its nodes, what makes them a tree, and the
//! walks over it.

use vstd::prelude::*;

use crate::columns::Batch;
#[allow(unused_imports)]
use crate::columns::{batch_rows, same_lists, u32_columns, u64_columns, u64_list_columns};
#[allow(unused_imports)]
use crate::error::fails_file;
use crate::error::{MeshError, MeshResult};
use crate::rows::{list_u64, BoundsColumns};
#[allow(unused_imports)]
use crate::rows::{missing_column, optional};
use crate::schema::Bounds3;
use crate::sorted::SortedMap;

verus! {

/// One node of the tree: the boxes below it, or the chunk that a leaf holds.
#[derive(Debug)]
pub struct SpatialNodeMeta {
    pub parent: Option<u64>,
    pub children: Vec<u64>,
    pub chunks: Vec<u64>,
    pub level: u32,
    pub bounds: Bounds3,
}

/// The columns of a spatial batch.
#[derive(Debug)]
pub struct SpatialColumns {
    pub ids: Vec<(bool, u64)>,
    pub parents: Vec<(bool, u64)>,
    pub children: Vec<Option<Vec<u64>>>,
    pub chunks: Vec<Option<Vec<u64>>>,
    pub levels: Vec<(bool, u32)>,
    pub bounds: BoundsColumns,
}

impl SpatialColumns {
    /// All columns have a slot for each row.
    pub open spec fn wf(self) -> bool {
        let count = self.ids@.len();
        &&& self.parents@.len() == count
        &&& self.children@.len() == count
        &&& self.chunks@.len() == count
        &&& self.levels@.len() == count
        &&& forall|row: int| 0 <= row < count ==> #[trigger] self.bounds.covers(row)
    }

    /// Some row before this one has the ID.
    pub open spec fn used(self, row: int, id: u64) -> bool {
        exists|k: int| 0 <= k < row && (#[trigger] self.ids@[k]).1 == id
    }

    /// What is wrong with a row beside nodes with these IDs, if anything.
    pub open spec fn fault(self, known: Set<u64>, row: int) -> Option<Seq<char>> {
        if self.children@[row] is None || self.chunks@[row] is None {
            Some("list column must contain u64 values"@)
        } else if self.bounds.fault(row) is Some {
            self.bounds.fault(row)
        } else if self.bounds.all_null(row) {
            Some("spatial node has no bounds"@)
        } else if known.contains(self.ids@[row].1) || self.used(row, self.ids@[row].1) {
            Some("spatial node IDs must be unique"@)
        } else {
            None
        }
    }

    /// The node is what a row says.
    pub open spec fn gives(self, row: int, node: SpatialNodeMeta) -> bool {
        &&& node.parent == optional(self.parents@[row])
        &&& self.children@[row] matches Some(list) && node.children@ == list@
        &&& self.chunks@[row] matches Some(list) && node.chunks@ == list@
        &&& node.level == self.levels@[row].1
        &&& self.bounds.gives(row, Some(node.bounds))
    }

    fn node(&self, row: usize) -> (result: MeshResult<SpatialNodeMeta>)
        requires
            self.wf(),
            row < self.ids.len(),
        ensures
            match result {
                Ok(node) => self.gives(row as int, node) && self.bounds.fault(row as int) is None,
                Err(_) => forall|known: Set<u64>|
                    (#[trigger] self.fault(known, row as int)) is Some && fails_file(
                        result,
                        self.fault(known, row as int).unwrap(),
                    ),
            },
    {
        let children = match list_u64(&self.children, row) {
            Ok(list) => list,
            Err(error) => {
                return Err(error);
            },
        };
        let chunks = match list_u64(&self.chunks, row) {
            Ok(list) => list,
            Err(error) => {
                return Err(error);
            },
        };
        assert(self.bounds.covers(row as int));
        let bounds = match self.bounds.row_bounds(row) {
            Ok(Some(bounds)) => bounds,
            Ok(None) => {
                return Err(MeshError::invalid_file("spatial node has no bounds"));
            },
            Err(error) => {
                return Err(error);
            },
        };
        let slot = self.parents[row];
        let parent: Option<u64> = if slot.0 {
            None
        } else {
            Some(slot.1)
        };
        Ok(SpatialNodeMeta { parent, children, chunks, level: self.levels[row].1, bounds })
    }

    /// The second map holds the nodes of the first and those that the rows
    /// give, and no row has a fault beside the first.
    pub open spec fn adds(
        self,
        before: Map<u64, SpatialNodeMeta>,
        after: Map<u64, SpatialNodeMeta>,
    ) -> bool {
        &&& forall|row: int|
            0 <= row < self.ids@.len() ==> (#[trigger] self.fault(before.dom(), row)) is None
                && after.dom().contains(self.ids@[row].1) && self.gives(
                row,
                after[self.ids@[row].1],
            )
        &&& forall|id: u64| #[trigger]
            before.dom().contains(id) ==> after.dom().contains(id) && after[id] == before[id]
        &&& forall|id: u64| #[trigger]
            after.dom().contains(id) ==> before.dom().contains(id) || self.used(
                self.ids@.len() as int,
                id,
            )
    }

    /// The nodes with those of one more batch, or the fault of the first row
    /// that has one.
    pub fn extended(&self, nodes: SortedMap<u64, SpatialNodeMeta>) -> (result: MeshResult<
        SortedMap<u64, SpatialNodeMeta>,
    >)
        requires
            self.wf(),
            nodes.wf(),
        ensures
            match result {
                Ok(after) => after.wf() && self.adds(nodes@, after@),
                Err(_) => exists|row: int|
                    0 <= row < self.ids@.len() && (#[trigger] self.fault(nodes@.dom(), row)) is Some
                        && (forall|k: int|
                        0 <= k < row ==> (#[trigger] self.fault(nodes@.dom(), k)) is None)
                        && fails_file(result, self.fault(nodes@.dom(), row).unwrap()),
            },
    {
        let ghost start = nodes@;
        let mut after = nodes;
        let mut row: usize = 0;
        while row < self.ids.len()
            invariant
                row <= self.ids.len(),
                self.wf(),
                start == nodes@,
                after.wf(),
                forall|k: int|
                    0 <= k < row ==> (#[trigger] self.fault(start.dom(), k)) is None
                        && after@.dom().contains(self.ids@[k].1) && self.gives(
                        k,
                        after@[self.ids@[k].1],
                    ),
                forall|id: u64| #[trigger]
                    start.dom().contains(id) ==> after@.dom().contains(id) && after@[id]
                        == start[id],
                forall|id: u64| #[trigger]
                    after@.dom().contains(id) ==> start.dom().contains(id) || self.used(
                        row as int,
                        id,
                    ),
            decreases self.ids.len() - row,
        {
            let id: u64 = self.ids[row].1;
            let node = match self.node(row) {
                Ok(node) => node,
                Err(error) => {
                    assert(self.fault(start.dom(), row as int) is Some);
                    return Err(error);
                },
            };
            if after.contains_key(&id) {
                assert(self.fault(start.dom(), row as int) is Some);
                return Err(MeshError::invalid_file("spatial node IDs must be unique"));
            }
            let ghost before = after@;
            assert(!self.used(row as int, id)) by {
                assert forall|k: int| 0 <= k < row implies (#[trigger] self.ids@[k]).1 != id by {
                    assert(self.fault(start.dom(), k) is None);
                }
            }
            assert(self.fault(start.dom(), row as int) is None);
            after.insert(id, node);
            assert forall|k: int| 0 <= k < row + 1 implies (#[trigger] self.fault(
                start.dom(),
                k,
            )) is None && after@.dom().contains(self.ids@[k].1) && self.gives(
                k,
                after@[self.ids@[k].1],
            ) by {
                if k < row {
                    assert(self.ids@[k].1 != id);
                }
            }
            assert forall|other: u64| #[trigger]
                after@.dom().contains(other) implies start.dom().contains(other) || self.used(
                row + 1,
                other,
            ) by {
                if other == id {
                    assert(self.ids@[row as int].1 == id);
                    assert(self.used(row + 1, id));
                } else {
                    assert(before.dom().contains(other));
                    if !start.dom().contains(other) {
                        assert(self.used(row as int, other));
                        let k = choose|k: int| 0 <= k < row && (#[trigger] self.ids@[k]).1 == other;
                        assert(self.ids@[k].1 == other);
                    }
                }
            }
            row += 1;
        }
        Ok(after)
    }
}

impl SpatialColumns {
    /// The first column of a spatial batch that the batch lacks.
    pub open spec fn absent(batch: Batch) -> Option<Seq<char>> {
        if !u64_columns(batch).dom().contains("entity_id"@) {
            Some("entity_id"@)
        } else if !u64_columns(batch).dom().contains("parent_id"@) {
            Some("parent_id"@)
        } else if !u64_list_columns(batch).dom().contains("child_ids"@) {
            Some("child_ids"@)
        } else if !u64_list_columns(batch).dom().contains("chunk_ids"@) {
            Some("chunk_ids"@)
        } else if !u32_columns(batch).dom().contains("level"@) {
            Some("level"@)
        } else {
            None
        }
    }

    /// These are the columns of the batch.
    pub open spec fn of(self, batch: Batch) -> bool {
        &&& self.wf()
        &&& self.ids@.len() == batch_rows(batch)
        &&& self.ids@ == u64_columns(batch)["entity_id"@]
        &&& self.parents@ == u64_columns(batch)["parent_id"@]
        &&& same_lists(self.children@, u64_list_columns(batch)["child_ids"@])
        &&& same_lists(self.chunks@, u64_list_columns(batch)["chunk_ids"@])
        &&& self.levels@ == u32_columns(batch)["level"@]
        &&& self.bounds.of(batch)
    }

    pub fn read(batch: &Batch) -> (result: MeshResult<SpatialColumns>)
        ensures
            match SpatialColumns::absent(*batch) {
                Some(name) => fails_file(result, missing_column(name)),
                None => result matches Ok(columns) && columns.of(*batch),
            },
    {
        let ids = match batch.u64s("entity_id") {
            Ok(column) => column,
            Err(error) => {
                return Err(error);
            },
        };
        let parents = match batch.u64s("parent_id") {
            Ok(column) => column,
            Err(error) => {
                return Err(error);
            },
        };
        let children = match batch.lists("child_ids") {
            Ok(column) => column,
            Err(error) => {
                return Err(error);
            },
        };
        let chunks = match batch.lists("chunk_ids") {
            Ok(column) => column,
            Err(error) => {
                return Err(error);
            },
        };
        let levels = match batch.u32s("level") {
            Ok(column) => column,
            Err(error) => {
                return Err(error);
            },
        };
        let bounds = BoundsColumns::read(batch);
        Ok(SpatialColumns { ids, parents, children, chunks, levels, bounds })
    }
}

} // verus!
