//! Publishes an Org-roam vault as a fresh, read-only snapshot in Notion.
//!
//! A run scans a vault ([`vault`], reading each file with [`org`] and
//! [`org_parser`]), checks that every link resolves ([`validate`]), and decides
//! whether to publish ([`run`]). A publication ([`publish`]) first creates the
//! pages ([`layout`], [`pages`]), then writes the nodes' content ([`converter`],
//! [`transformers`], [`content`]), and reads everything back to see that the
//! links have arrived. [`notion`] and [`client`] hold what is decided between
//! calls to the API: chunks, cursors and retries.
//!
//! Nothing here performs a call. What the outside world answers comes in as an
//! argument, so that every contract holds whatever the answer is. What holds of
//! a snapshot as a whole is stated in [`laws`].

pub mod text;
pub mod path;
pub mod id_map;
pub mod order;
pub mod org;
pub mod org_parser;
pub mod blocks;
pub mod converter;
pub mod transformers;
pub mod ports;
pub mod vault;
pub mod validate;
pub mod notion;
pub mod client;
pub mod layout;
pub mod run;
pub mod pages;
pub mod content;
pub mod publish;
pub mod cli;
pub mod laws;
