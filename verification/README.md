# caso_meshing

Meshing of signed-distance domains, with a verified core.

The core, in `src/`, holds the decisions of the mesher and its file format, each
with a contract that Verus proves:

- the data: numbers by their bits (`number`), sorted sets and maps (`sorted`),
  chunks and their builder (`chunk`), catalogs, controls, requests and limits;
- the mesh file: schema, directory, catalog and tree checks, opening, batch
  views, the full audit, level of detail, and the SU2 writer (`file`, `checks`,
  `rows`, `decoded`, `audit`, `lod`, `su2`, `convert`); what a file says settles
  how it is read and exported (`settling`, `rendering`, `outcomes`);
- quadtrees and octrees, marching and clipping, the assessment of a mesh, the
  edits and the loop of the optimiser;
- layers, strips, caps and cores, constraint graphs and retriangulation;
- the volume mesher on a background grid (`background`, `volume`,
  `volume_layers`, `volume_emission`, `tiling`);
- emission: numbering points, partitioning cells, building chunks (`emission`,
  `chunking`, `repeats`).

Nothing in the core computes with floating-point numbers. Where a decision rests
on a measurement, a function takes the measured value and says what follows from
it; where a loop alternates measuring and deciding, a state machine says what to
measure next.

Record batches are read through Arrow. What the core believes of Arrow stands in
the contracts of the few trusted functions in `columns` and `session`. A block is
looked at before Arrow reads it: one that is damaged gives an error. Each
function on a file has a form that takes an open session (`open_from`,
`view_from`, `audit_from`, `write_from`); it succeeds exactly where the batches
that it needs can be read and nothing in them is refused.

`app/` is ordinary Rust around the core: floating-point geometry, files, JSON,
and the loops that run the state machines. Geometry kernels plug in through the
traits in `app/kernel.rs`. It drives the front meshers in the plane and in space
and the sheet mesher in the plane. The volume mesher on a background grid has no
driver: its measuring, and the loop that writes its tiles out, are left to the
caller. A mesh file is held in memory as a whole while it is open.

`tests/` runs the core on concrete meshes and files.
