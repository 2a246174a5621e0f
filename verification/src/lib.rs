//! The logic of a Git-backed filesystem mount: what each kernel operation does,
//! what is fetched, kept and given up, how a workspace's Git state is written,
//! and how its parts talk to each other.
//!
//! Every function states what it returns, and Verus proves it. Disks, sockets
//! and kernels are the caller's: a function here names the outside work to do,
//! or takes what came of it.
pub mod answers;
pub mod attributes;
pub mod base64url;
pub mod blobs;
pub mod blockfile;
pub mod budget;
pub mod bytemap;
pub mod bytes;
pub mod cache;
pub mod cacheread;
pub mod client;
pub mod control;
pub mod decide;
pub mod directory;
pub mod dirtree;
pub mod effects;
pub mod entry;
pub mod errno;
pub mod error;
pub mod ewah;
pub mod fetch;
pub mod fs;
pub mod gitdir;
pub mod gitread;
pub mod glob;
pub mod hashing;
pub mod host;
pub mod index;
pub mod inode;
pub mod lease;
pub mod limits;
pub mod listing;
pub mod listings;
pub mod local;
pub mod mount;
pub mod node;
pub mod object;
pub mod odb;
pub mod outcomes;
pub mod path;
pub mod patterns;
pub mod repository;
pub mod residency;
pub mod search;
pub mod seedread;
pub mod sorting;
pub mod status;
pub mod steps;
pub mod strings;
pub mod subtree;
pub mod text;
pub mod time;
pub mod trees;
pub mod upkeep;
pub mod varint;
pub mod workspace;
