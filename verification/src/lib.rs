//! Cost-aware grid pathfinding and an excavating-worker state machine.
//!
//! The world is a 2D grid of tiles, each solid (dirt) or open (air). Workers
//! travel toward assigned targets, routing around or digging through solid
//! tiles; the pathfinder penalizes, rather than forbids, passage through rock.

pub mod cost;
pub mod grid;
pub mod math;
pub mod pathfinding;
pub mod terrain;
pub mod worker;

pub use grid::GridPos;
pub use grid::WorldPos;
pub use pathfinding::find_nearest_accessible_point;
pub use pathfinding::find_path;
pub use pathfinding::path_cost;
pub use terrain::create_central_cavity;
pub use terrain::setup_terrain;
pub use terrain::Tile;
pub use terrain::TileKind;
pub use terrain::TileStore;
pub use worker::Ant;
pub use worker::Directive;
pub use worker::TickOutput;
pub use worker::WorkerState;
