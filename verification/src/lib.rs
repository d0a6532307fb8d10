//! Verified core of the casoCAD mesher.
//!
//! The library holds the decisions of the mesher: entity numbering, chunk
//! validation, the mesh file reader's rules, the quadtree and octree, marching
//! templates, topology edits, layer planning, partitioning and export. Real
//! numbers enter as [`number::Real`], the bit pattern of an IEEE-754 double, so
//! that every comparison the mesher makes has an exact meaning here, while the
//! arithmetic behind a measured value stays with the caller.

pub mod actions;
pub mod algorithm;
pub mod assess;
pub mod audit;
pub mod background;
pub mod canonical;
pub mod caps;
pub mod catalog;
pub mod checks;
pub mod chunk;
pub mod chunking;
pub mod columns;
pub mod contours;
pub mod controls;
pub mod convert;
pub mod cores;
pub mod covering;
pub mod crossings;
pub mod cubes;
pub mod cutting;
pub mod decoded;
pub mod domains;
pub mod edits;
pub mod emission;
pub mod error;
pub mod faces;
pub mod file;
pub mod file_rows;
pub mod filling;
pub mod fronts;
pub mod generation;
pub mod graph;
pub mod grouping;
pub mod ids;
pub mod incidence;
pub mod interfaces;
pub mod laying;
pub mod layers;
pub mod lod;
pub mod marching;
pub mod merging;
pub mod names;
pub mod number;
pub mod octree;
pub mod ordering;
pub mod outcomes;
pub mod outlines;
pub mod partition;
pub mod pieces;
pub mod placements;
pub mod quadtree;
pub mod rendering;
pub mod repeats;
pub mod resampling;
pub mod retriangulation;
pub mod rows;
pub mod row_edges;
pub mod schema;
pub mod score;
pub mod session;
pub mod settling;
pub mod shells;
pub mod smoothing;
pub mod solid;
pub mod solid_assess;
pub mod solid_emission;
pub mod solid_repair;
pub mod sorted;
pub mod spatial;
pub mod stations;
pub mod strips;
pub mod su2;
pub mod sweep_runs;
pub mod sweeps;
pub mod tetrahedra;
pub mod text;
pub mod tiling;
pub mod topology;
pub mod transitions;
pub mod tree;
pub mod volume;
pub mod volume_emission;
pub mod volume_layers;
