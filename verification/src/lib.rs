//! Translates the build graph a C/C++ build system reports into a
//! standalone Bazel module.
#![allow(unused_imports)]

pub mod text;
pub mod paths;
pub mod model;
pub mod codegen;
pub mod dependencies;
pub mod needs_attention;
pub mod ctest;
pub mod headers;
pub mod configure_file;
pub mod config_header;
pub mod cmake_api;
pub mod autotools;
pub mod autotools_graph;
pub mod autotools_discover;
