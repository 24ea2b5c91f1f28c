//! Jot: a floating notes application.
//!
//! This crate is the part of the application that decides: what a note is
//! called, how a body is split into text, images and copy blocks, which
//! markdown spans are styled, which files an export writes, which images and
//! backups a sweep removes, and which ffmpeg graph a comparison renders.
//! Windows, files, processes and the database are the program's own concern.

pub mod app;
pub mod body;
pub mod canvas;
pub mod clock;
pub mod compare_editor;
pub mod config;
pub mod db;
pub mod editor;
pub mod export;
pub mod gif_recorder;
pub mod json;
pub mod maintenance;
pub mod markdown_tags;
pub mod note;
pub mod paths;
pub mod recorder_window;
pub mod sidebar;
pub mod sort;
pub mod tags;
pub mod text;
pub mod themes;
pub mod transcribe;
pub mod voice;
pub mod window;
