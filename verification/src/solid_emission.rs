//! Writing a 3D mesh out: what a chunk of it holds.

use vstd::prelude::*;

use crate::chunk::{MeshChunk, MeshChunkBuilder, ORDINAL_MASK};
#[allow(unused_imports)]
use crate::chunk::{build_refused, chunk_valid, element_made, MeshId, FACE_ORDINAL};
#[allow(unused_imports)]
use crate::emission::{
    cell_arities, cell_shape, cells_filled, chunk_fits, chunk_refused, numbered, point_lists,
    point_refused, points_filled, used_in, SharedPoint,
};
use crate::emission::{fill_cells, fill_points, id_of, PlacedPoints};
use crate::error::MeshResult;
#[allow(unused_imports)]
use crate::error::{fails_limit, MeshError};
use crate::schema::Bounds3;
use crate::sorted::{Key, SortedSet};

verus! {

/// A boundary face with the tag of the region that owns it.
#[derive(Debug, Clone, Copy)]
pub struct TaggedFace<K> {
    pub points: [K; 3],
    pub cell: usize,
    pub tag: u64,
}

/// The faces whose cell lies in the range, among the first `count`.
pub open spec fn faces_in_range<K>(faces: Seq<TaggedFace<K>>, start: int, end: int, count: int) -> Seq<
    TaggedFace<K>,
>
    decreases count,
{
    if count <= 0 {
        Seq::empty()
    } else {
        let rest = faces_in_range(faces, start, end, count - 1);
        if start <= faces[count - 1].cell < end {
            rest.push(faces[count - 1])
        } else {
            rest
        }
    }
}

/// The builder's faces are these.
pub open spec fn faces_filled<K>(
    builder: MeshChunkBuilder,
    faces: Seq<TaggedFace<K>>,
    placed: Map<K, SharedPoint>,
) -> bool {
    &&& builder.faces@.len() == faces.len()
    &&& forall|i: int|
        0 <= i < faces.len() ==> element_made(
            #[trigger] builder.faces@[i],
            MeshId::of(builder.id, FACE_ORDINAL, (i + 1) as u32),
            "tri3"@,
            numbered(faces[i].points@, placed),
            Seq::empty(),
            seq![faces[i].tag],
            true,
            None,
            None,
        )
}

fn fill_faces<K: Key + Copy>(
    builder: &mut MeshChunkBuilder,
    faces: &Vec<TaggedFace<K>>,
    start: usize,
    end: usize,
    placed: &PlacedPoints<K>,
) -> (result: MeshResult<()>)
    requires
        old(builder).wf(),
        old(builder).faces@.len() == 0,
        old(builder).next_face == 1,
        placed.wf(),
        forall|i: int|
            0 <= i < faces.len() && start <= faces[i].cell < end ==> placed@.dom().contains(
                (#[trigger] faces[i]).points[0],
            ) && placed@.dom().contains(faces[i].points[1]) && placed@.dom().contains(faces[i].points[2]),
    ensures
        final(builder).wf(),
        final(builder).id == old(builder).id,
        final(builder).bounds == old(builder).bounds,
        final(builder).points == old(builder).points,
        final(builder).cells == old(builder).cells,
        final(builder).edges == old(builder).edges,
        result is Ok <==> faces_in_range(
            faces@,
            start as int,
            end as int,
            faces@.len() as int,
        ).len() <= ORDINAL_MASK,
        result is Err ==> fails_limit(result, "mesh chunk/entity ID space exhausted"@),
        result is Ok ==> faces_filled(
            *final(builder),
            faces_in_range(faces@, start as int, end as int, faces@.len() as int),
            placed@,
        ),
{
    let mut i: usize = 0;
    let ghost mut done: Seq<TaggedFace<K>> = Seq::empty();
    while i < faces.len()
        invariant
            i <= faces.len(),
            placed.wf(),
            forall|k: int|
                0 <= k < faces.len() && start <= faces[k].cell < end ==> placed@.dom().contains(
                    (#[trigger] faces[k]).points[0],
                ) && placed@.dom().contains(faces[k].points[1]) && placed@.dom().contains(faces[k].points[2]),
            builder.wf(),
            builder.id == old(builder).id,
            builder.bounds == old(builder).bounds,
            builder.points == old(builder).points,
            builder.cells == old(builder).cells,
            builder.edges == old(builder).edges,
            done == faces_in_range(faces@, start as int, end as int, i as int),
            builder.next_face == done.len() + 1,
            faces_filled(*builder, done, placed@),
        decreases faces.len() - i,
    {
        let face = faces[i];
        if start <= face.cell && face.cell < end {
            let ghost before = *builder;
            proof {
                cell_arities();
            }
            assert(placed@.dom().contains(faces[i as int].points[0]));
            let ids = [
                id_of(placed, face.points[0]),
                id_of(placed, face.points[1]),
                id_of(placed, face.points[2]),
            ];
            assert(ids@ =~= numbered(face.points@, placed@));
            let mut tags: Vec<u64> = Vec::new();
            tags.push(face.tag);
            assert(tags@ =~= seq![face.tag]);
            let ghost next = done.push(face);
            match builder.boundary_face("tri3", &ids, tags) {
                Ok(_) => {
                    proof {
                        assert forall|k: int| 0 <= k < next.len() implies element_made(
                            #[trigger] builder.faces@[k],
                            MeshId::of(builder.id, FACE_ORDINAL, (k + 1) as u32),
                            "tri3"@,
                            numbered(next[k].points@, placed@),
                            Seq::empty(),
                            seq![next[k].tag],
                            true,
                            None,
                            None,
                        ) by {
                            if k < done.len() {
                                assert(builder.faces@[k] == builder.faces@.drop_last()[k]);
                                assert(builder.faces@[k] == before.faces@[k]);
                                assert(next[k] == done[k]);
                            }
                        }
                        done = next;
                    }
                },
                Err(error) => {
                    proof {
                        face_range_grows(
                            faces@,
                            start as int,
                            end as int,
                            i + 1,
                            faces@.len() as int,
                        );
                    }
                    return Err(error);
                },
            }
        }
        i = i + 1;
    }
    Ok(())
}

proof fn face_range_grows<K>(faces: Seq<TaggedFace<K>>, start: int, end: int, from: int, to: int)
    requires
        0 <= from <= to,
    ensures
        faces_in_range(faces, start, end, from).len() <= faces_in_range(faces, start, end, to).len(),
    decreases to - from,
{
    if from < to {
        face_range_grows(faces, start, end, from, to - 1);
    }
}

/// The builder holds exactly a range of cells with its points and faces.
pub open spec fn holds_solid_range<K>(
    builder: MeshChunkBuilder,
    chunk_id: u32,
    bounds: Bounds3,
    used: Seq<K>,
    boundary: Set<K>,
    cells: Seq<Seq<K>>,
    start: int,
    end: int,
    placed: Map<K, SharedPoint>,
    faces: Seq<TaggedFace<K>>,
    zone: u64,
    source: u64,
) -> bool {
    &&& builder.wf()
    &&& builder.id == chunk_id
    &&& builder.bounds == bounds
    &&& builder.edges@.len() == 0
    &&& points_filled(builder, used, used.len() as int, placed, boundary)
    &&& cells_filled(3, builder, cells, start, end - start, placed, zone, source)
    &&& faces_filled(builder, faces, placed)
}

/// Builds the chunk of a range of cells. `used` are the points of those cells,
/// in order.
pub fn build_solid_chunk<K: Key + Copy>(
    chunk_id: u32,
    bounds: Bounds3,
    cells: &Vec<Vec<K>>,
    start: usize,
    end: usize,
    used: &SortedSet<K>,
    placed: &PlacedPoints<K>,
    boundary: &SortedSet<K>,
    faces: &Vec<TaggedFace<K>>,
    zone: u64,
    source: u64,
) -> (result: MeshResult<MeshChunk>)
    requires
        start <= end <= cells.len(),
        placed.wf(),
        boundary.wf(),
        used.wf(),
        forall|point: K| #[trigger]
            used@.contains(point) <==> used_in(
                point_lists(cells@),
                start as int,
                end as int,
                point,
            ),
        forall|point: K| #[trigger] used@.contains(point) ==> placed@.dom().contains(point),
        forall|i: int|
            start <= i < end ==> cell_shape(3, (#[trigger] cells[i])@.len()),
        forall|i: int|
            0 <= i < faces.len() && start <= faces[i].cell < end ==> used@.contains(
                (#[trigger] faces[i]).points[0],
            ) && used@.contains(faces[i].points[1]) && used@.contains(faces[i].points[2]),
    ensures
        ({
            let views = point_lists(cells@);
            let kept = faces_in_range(faces@, start as int, end as int, faces@.len() as int);
            let fits = chunk_fits(
                chunk_id,
                bounds,
                used.items@,
                placed@,
                end - start,
                kept.len() as int,
            );
            &&& !fits ==> chunk_refused(chunk_id, bounds, used.items@, placed@, result)
            &&& fits ==> exists|builder: MeshChunkBuilder|
                {
                    &&& #[trigger] holds_solid_range(
                        builder,
                        chunk_id,
                        bounds,
                        used.items@,
                        boundary@,
                        views,
                        start as int,
                        end as int,
                        placed@,
                        kept,
                        zone,
                        source,
                    )
                    &&& chunk_valid(builder.chunk(), 3) ==> result == Ok::<MeshChunk, MeshError>(
                        builder.chunk(),
                    )
                    &&& !chunk_valid(builder.chunk(), 3) ==> build_refused(
                        builder.chunk(),
                        3,
                        result,
                    )
                }
        }),
{
    let ghost views = point_lists(cells@);
    proof {
        assert forall|i: int, k: int|
            start <= i < end && 0 <= k < cells[i]@.len() implies placed@.dom().contains(
            #[trigger] cells[i]@[k],
        ) by {
            assert(views[i] == cells[i]@);
            assert(views[i].contains(cells[i]@[k]));
            assert(used_in(views, start as int, end as int, cells[i]@[k]));
            assert(used@.contains(cells[i]@[k]));
        }
        assert forall|i: int| 0 <= i < used.items@.len() implies placed@.dom().contains(
            #[trigger] used.items@[i],
        ) by {
            assert(used@.contains(used.items@[i]));
        }
    }
    let mut builder = match MeshChunkBuilder::new(chunk_id, bounds) {
        Ok(value) => value,
        Err(error) => {
            return Err(error);
        },
    };
    match fill_points(&mut builder, &used.items, placed, boundary) {
        Ok(()) => {},
        Err(error) => {
            proof {
                let inner: MeshResult<()> = Err(error);
                let refusal: MeshResult<MeshChunk> = Err(error);
                let place = choose|place: int| #[trigger]
                    point_refused(chunk_id, bounds, used.items@, placed@, place, inner);
                assert(point_refused(chunk_id, bounds, used.items@, placed@, place, refusal));
            }
            return Err(error);
        },
    }
    match fill_cells(3, &mut builder, cells, start, end, placed, zone, source) {
        Ok(()) => {},
        Err(error) => {
            return Err(error);
        },
    }
    proof {
        assert forall|i: int|
            0 <= i < faces.len() && start <= faces[i].cell < end implies placed@.dom().contains(
            (#[trigger] faces[i]).points[0],
        ) && placed@.dom().contains(faces[i].points[1]) && placed@.dom().contains(faces[i].points[2]) by {
            assert(used@.contains(faces[i].points[0]) && used@.contains(faces[i].points[1])
                && used@.contains(faces[i].points[2]));
        }
    }
    match fill_faces(&mut builder, faces, start, end, placed) {
        Ok(()) => {},
        Err(error) => {
            return Err(error);
        },
    }
    let ghost kept = faces_in_range(faces@, start as int, end as int, faces@.len() as int);
    proof {
        assert(holds_solid_range(
            builder,
            chunk_id,
            bounds,
            used.items@,
            boundary@,
            views,
            start as int,
            end as int,
            placed@,
            kept,
            zone,
            source,
        ));
        crate::chunk::built_points_are_sound(builder, 0);
    }
    builder.build(3)
}

/// The faces of a range are those whose cell lies in it, in order.
pub proof fn range_has_its_faces<K>(
    faces: Seq<TaggedFace<K>>,
    start: int,
    end: int,
    count: int,
) -> (places: Seq<int>)
    requires
        0 <= count,
    ensures
        faces_in_range(faces, start, end, count).len() == places.len(),
        forall|i: int, j: int|
            0 <= i < j < places.len() ==> (#[trigger] places[i]) < (#[trigger] places[j]),
        forall|k: int| #[trigger] places.contains(k) <==> 0 <= k < count && start <= faces[k].cell < end,
        forall|i: int|
            0 <= i < places.len() ==> faces_in_range(faces, start, end, count)[i] == faces[(#[trigger] places[i])],
    decreases count,
{
    if count == 0 {
        Seq::empty()
    } else {
        let list = range_has_its_faces(faces, start, end, count - 1);
        let last = count - 1;
        let takes = start <= faces[last].cell < end;
        let places = if takes {
            list.push(last)
        } else {
            list
        };
        let rest = faces_in_range(faces, start, end, count - 1);
        let now = faces_in_range(faces, start, end, count);
        
        assert forall|i: int| 0 <= i < list.len() implies 0 <= (#[trigger] list[i]) < last by {
            assert(list.contains(list[i]));
        }
        assert forall|k: int| #[trigger] places.contains(k) <==> 0 <= k < count && start <= faces[k].cell < end by {
            if places.contains(k) {
                let m = places.index_of(k);
                if m < list.len() {
                    assert(list[m] == k);
                    assert(list.contains(k));
                }
            }
            if list.contains(k) {
                let m = list.index_of(k);
                assert(places[m] == k);
            }
            if k == last && takes {
                assert(places[list.len() as int] == k);
            }
        }
        assert forall|i: int| 0 <= i < places.len() implies now[i] == faces[(#[trigger] places[i])] by {
            if i < list.len() {
                assert(places[i] == list[i]);
                assert(now[i] == rest[i]);
            }
        }
        places
    }
}

} // verus!
