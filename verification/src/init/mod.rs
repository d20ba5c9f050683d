//! Setting up a game.

pub mod builder;

pub use self::builder::{
    BuilderView, GameEngineBuilder, GameEngineBuilderInitiationError,
    GameEngineBuilderModificationError,
};
