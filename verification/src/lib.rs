//! World data of a small planet-hopping sandbox game: block grids cut into
//! chunks, the text format chunks are saved in, terrain generation, the set of
//! chunks kept loaded around a viewer, block editing, collision candidates and
//! the player's inventory.

pub mod block;
pub mod world;
pub mod chunk;
pub mod random;
pub mod view;
pub mod edit;
pub mod inventory;
pub mod collision;
pub mod render;

