//! Planning of fibre-optic cables, panels and ports: the logic behind the cable editor's pages.

pub mod text;
pub mod ids;
pub mod tree;
pub mod assoc;
pub mod attach;
pub mod connections;
pub mod loops;
pub mod ports;
pub mod overview;
pub mod cabinet;
pub mod netbox;
pub mod schacht;
pub mod panel_tree;
pub mod lists;
pub mod ui;
pub mod coords;
pub mod geo_file;
pub mod errors;
