//! Verified core of the Rust4D engine: the parts of its game, input, audio,
//! asset and geometry layers that compute on plain values.

pub mod audio;

pub use audio::{allocate_sound_id, AudioBus, AudioError, SoundHandle};
pub mod fsm;
pub use fsm::StateMachine;
pub mod events;
pub use events::{EventBus, HandlerId};
pub mod asset_error;
pub use asset_error::AssetError;
pub mod asset_cache;
pub use asset_cache::{Asset, AssetCache, AssetHandle, AssetId};
pub mod tween;
pub use tween::{EasingFunction, ParseEasingError, TweenState};
pub mod components;
pub use components::{DirtyFlags, Name, Tags};
pub mod transition;
pub use transition::{Duration, SlideDirection, TransitionEffect};
pub mod hierarchy;
pub use hierarchy::HierarchyError;
pub mod mesh;
pub use mesh::{rebase_cells, remap_cells, split_prism, validate_cells, MeshError, Tetrahedron};
pub mod input;
pub use input::{ActionMap, CameraAction, MovementKeys, NamedKey, PointerButton, PointerState};
pub mod validator;
pub use validator::SceneValidator;
pub mod math;
pub use math::{default_segments, default_sphere_subdivisions, RotationPlane};
pub mod scene_graph;
pub use scene_graph::{EntityKey, Hierarchy, HierarchyIssue, MAX_WALK_DEPTH};
pub mod kuhn;
pub use kuhn::{compute_tetrahedra, decompose_cell_to_tetrahedra};
pub mod scene_manager;
pub use scene_manager::{PendingTransition, SceneError, SceneManager};
pub mod entity_index;
pub use entity_index::EntityIndex;
pub mod faces;
pub use faces::{face_pairing, is_watertight};
pub mod cliques;
pub use cliques::clique_cells;
pub mod topology;
pub use topology::{build_cells, cubinder_prisms, duocylinder_prisms, hexadecachoron_cells, pentachoron_cells, subdivide_triangles, VertexPool, TET_EDGES, TET_SUBDIVISION};
