//! Form binding, validation, page navigation and submission rules.
//!
//! A form session keeps a tree of typed values addressed by binding paths,
//! the raw text and error of every field that currently fails validation,
//! a page navigator gated on per-page validity, and a submission state
//! machine that hands a snapshot to a renderer exactly once per submit.
#![allow(non_snake_case)]

pub mod text;
pub mod decimal;
pub mod path;
pub mod value;
pub mod tree;
pub mod rules;
pub mod store;
pub mod pages;
pub mod submit;
pub mod repeat;
pub mod registry;
pub mod session;
pub mod demo_form;
pub mod translations;
