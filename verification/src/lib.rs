pub mod commands;
pub mod keyed;
pub mod meta_repository;
pub mod ranking;
pub mod repository;
pub mod text;
