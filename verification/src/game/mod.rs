//! The game engine and everything it is made of.

pub mod consts;
pub mod coord;
pub mod engine;
pub mod ids;
pub mod judge;
pub mod layout;
pub mod location;
pub mod rules;
pub mod tile;
pub mod topology;
pub mod unit;
pub mod walk;

pub use self::coord::{adjacent, Coord, CoordSet};
pub use self::engine::{
    EngineValidationError, EngineView, GameEngine, PlayerAction, PlayerActionError, RegionInfo,
};
pub use self::ids::{IdProducer, ID, NO_ID};
pub use self::layout::{LocationView, RegionHeader};
pub use self::location::{
    BfsIter, Location, LocationModificationError, LocationValidationError, Region,
    RegionTransformation, TileMap,
};
pub use self::rules::{
    validate_location, validate_regions, LocationRulesValidationError, RegionsValidationError,
};
pub use self::tile::{Player, Tile, TileSurface, Unit, UnitType};
pub use self::unit::{
    can_defeat, can_step_on, description, merge_result, UnitDescription, UnitInfo,
};
