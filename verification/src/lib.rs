//! The verified core of grpctestify's command layer: formatting of `.gctf`
//! documents, the command lines that reproduce a call, benchmark arithmetic,
//! and the renderers behind `graph`, `docs`, `health` and `check`.
pub mod commands;
pub mod keyed;
pub mod parser;
pub mod sort;
pub mod text;
