//! Keeping named domains out of reach through the hosts file and the firewall.
//!
//! Names are blocked region by region. In the hosts file each region has a managed
//! block, set apart by two marker lines, in which every name is mapped to the null
//! address. The engine reads the file as it is, changes the block of one region, and
//! leaves every other line to the user. The firewall mirrors the names by rules that
//! block their addresses.
//!
//! The library decides and computes; it reads no file and runs no program. The caller
//! hands it the text of the hosts file and the replies of the firewall, and carries
//! out what it is told.
//!
//! - [`text`], [`names`]: bytes, lines and fields; sets of names.
//! - [`codec`], [`document`]: the managed block and the file that holds it.
//! - [`reconciler`], [`request`]: setting, removing and clearing.
//! - [`consistency`]: what is blocked, held against what is wanted.
//! - [`store`], [`report`]: paths, backups, the order of writing, and the words for it.
//! - [`firewall`], [`job`], [`mirror`], [`orchestrator`]: rules, commands and their
//!   outcomes.
//! - [`listing`], [`ping`], [`process`], [`legacy`]: what else the program needs.
//! - [`roundtrip`], [`outside`], [`runs`], [`sweeping`], [`tidy`], [`joined`],
//!   [`settling`], [`weaving`], [`removing`], [`setting`]: what is proved of all this.
//!
//! Letter case and the pattern of a block are the business of the standard library
//! and of the `regex` crate. What they give is named, not written out: a statement
//! that speaks of lower case holds of whatever the standard library calls lower case.

pub mod codec;
pub mod consistency;
pub mod document;
pub mod firewall;
pub mod job;
pub mod joined;
pub mod legacy;
pub mod listing;
pub mod mirror;
pub mod names;
pub mod orchestrator;
pub mod outside;
pub mod ping;
pub mod process;
pub mod reconciler;
pub mod removing;
pub mod report;
pub mod request;
pub mod roundtrip;
pub mod runs;
pub mod setting;
pub mod settling;
pub mod store;
pub mod sweeping;
pub mod text;
pub mod tidy;
pub mod weaving;
