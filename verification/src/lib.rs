pub mod commands;
pub mod component;
pub mod editor;
pub mod entity;
pub mod entity_graph;
pub mod graph;
pub mod highlight;
pub mod mesh;
pub mod input;
pub mod query;
pub mod registry;
pub mod scene;
pub mod storage;
pub mod system;
pub mod world;
