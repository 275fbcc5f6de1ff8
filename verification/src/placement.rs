//! Hierarchical macro placement: the stage that runs once every cluster has a shape, and asks
//! where each one goes.

pub mod assembly;
pub mod blockages;
pub mod commit;
pub mod deadspace;
pub mod deadspace_law;
pub mod enhance;
pub mod macrorun;
pub mod notch;
pub mod precision;
pub mod orient;
pub mod parent;
pub mod push;
pub mod snap;
pub mod walks;
pub mod wirelength;
