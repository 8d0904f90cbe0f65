//! Verified core of a Chrome bookmark checker.
pub mod check;
pub mod checksum;
pub mod display;
pub mod entries;
pub mod file;
pub mod html;
pub mod json;
pub mod order;
pub mod profiles;
pub mod text;
pub mod tree;
pub mod tui;
