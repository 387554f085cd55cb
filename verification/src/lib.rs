//! Procedural layout of rectangular rooms on an integer grid.
//!
//! Rooms are scattered at random without overlap, pulled together into one
//! connected cluster around the origin, and the seams where settled rooms
//! overlap are reported as wall regions.

pub mod compaction;
pub mod compaction_laws;
pub mod connectivity;
pub mod layout;
pub mod rectangle;
pub mod rng;
pub mod sampler;
pub mod walls;

pub use compaction::{compress_rooms, is_compactable, move_and_merge_groups, move_group};
pub use layout::{generate_layout, place_rooms, Layout};
pub use rectangle::{intersection, intersects_any, Rectangle};
pub use rng::SeededRng;
pub use sampler::generate_non_overlapping_rectangles;
pub use walls::find_intersections;
