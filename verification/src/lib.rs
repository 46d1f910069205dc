//! A code review kept beside the diff it is about: the diff and annotation
//! formats, anchors that follow a file's versions, and what a view draws.

pub mod text;
pub mod model;
pub mod diff;
pub mod author;
pub mod editor;
pub mod messages;
pub mod digest;
pub mod image;
pub mod review;
pub mod anchor;
pub mod annotation;
pub mod linediff;
pub mod words;
pub mod tokens;
pub mod markdown;
pub mod expand;
pub mod create;
pub mod bundle;
pub mod viewmodel;
pub mod html;
pub mod files;
pub mod record;
pub mod git;
