pub mod text;
pub mod model;
pub mod order;
pub mod json;
pub mod parser;
pub mod db;
pub mod clock;
pub mod repository;
pub mod srs;
pub mod testing;
pub mod import;
pub mod export;
pub mod service;
pub mod bilingual;
pub mod grammar;
pub mod commands;
