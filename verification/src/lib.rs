//! The logic of a small space game engine: the entity-component-system
//! containers, the reactor and the orders in which handlers and systems run,
//! meshes and their vertex data and layouts, the integer side of marching
//! cubes and of the star map, shader source preprocessing, and the decisions
//! the window and the browser side make. Drawing, input and networking are
//! left to the program that uses the library.

pub mod controls;
pub mod dom;
pub mod ecs;
pub mod galaxy;
pub mod gl;
pub mod graph;
pub mod maps;
pub mod mesh;
pub mod mesh_builder;
pub mod render;
pub mod shader_loader;
pub mod shader_text;
pub mod systems;
pub mod text;
pub mod voxel;
pub mod world;
