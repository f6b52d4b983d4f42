//! Colony simulation rules: planner, directives, storage, quality lots and more.
#![allow(unused_imports)]

pub mod text;
pub mod id_map;
pub mod planner_core;
pub mod officers;
pub mod spatial;
pub mod physical_storage;
pub mod player_directives;
pub mod content_ids;
pub mod quality_lots;
pub mod prosthetics;
pub mod officer_expertise;
pub mod authority;
pub mod officer_requests;
pub mod production;
pub mod progression_research;
pub mod research_authority;
pub mod progression_authority;
pub mod research_purchase;
pub mod seed_hash;
pub mod player_projection;
pub mod research_manifest;
