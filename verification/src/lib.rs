//! Space partitioning, camera derivation and panel layout for a viewer of
//! hierarchical, time-varying spatial data.
//!
//! Object paths form an implicit tree. At one instant some paths carry a
//! transform; every such path starts a new coordinate space. This crate
//! derives that partition, the cameras embedded in it, and a balanced split
//! layout for the panels that show the spaces. The layout compares shapes as
//! exact fractions; `natural` holds the numbers for that. Around that core
//! the crate keeps the blueprint of the viewport, and it encodes a few small
//! components as Arrow data.
//!
//! Every function is verified against its contract. The few places where the
//! crate leans on code that is not verified are marked as trusted in their
//! documentation: random ids (`space_view_id`), text from bytes (`text`),
//! sorting by name (`sorting`), Arrow arrays (`arrow`) and the dock tree
//! (`dock`).

pub mod arrow;
pub mod blueprint;
pub mod camera;
pub mod components;
pub mod determinism;
pub mod dock;
pub mod errors;
pub mod grouping;
pub mod id_map;
pub mod keypoint_id;
pub mod layout;
pub mod natural;
pub mod near_clip_plane;
pub mod object_tree;
pub mod panel;
pub mod path;
pub mod path_map;
pub mod queries;
pub mod seq_facts;
pub mod sorting;
pub mod space_view;
pub mod space_view_id;
pub mod spaces;
pub mod testing;
pub mod text;
pub mod transform;
