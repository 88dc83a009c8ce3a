//! Verified core logic of a World of Warships toolkit: replay list sorting,
//! player statistics, player tracking, mod index bookkeeping and the
//! decisions taken by the background tasks.

pub mod armor;
pub mod armor_visibility;
pub mod files;
pub mod interactions;
pub mod listing;
pub mod mod_manager;
pub mod models;
pub mod outside;
pub mod player_tracker;
pub mod report;
pub mod sorting;
pub mod stable_sort;
pub mod task;
pub mod text;
pub mod twitch;
pub mod twitch_builds;
