//! Composes bootable OS images from fragment images.

pub mod classify;
pub mod fragment;
pub mod inspect;
pub mod json;
pub mod layer;
pub mod list;
pub mod loader;
pub mod manifest;
pub mod mount;
pub mod oci;
pub mod ocp;
pub mod output;
pub mod path;
pub mod registry;
pub mod repos;
pub mod restrict;
pub mod self_contained;
pub mod text;
pub mod validate;
