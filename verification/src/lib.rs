//! Key cache and key storage engine for one dictionary of an encrypted,
//! page-oriented key-value store, with the proofs of its bookkeeping.
//!
//! The cache is [`dictionary::DictCacheEntry`]. Its operations are spread
//! over the `dict_*` modules: loading keys from the descriptor table
//! (`dict_load`), updating and creating keys (`dict_put`, `dict_update`,
//! `dict_large`), removing keys (`dict_remove`), writing the small pool back
//! (`dict_sync`), and listing keys and estimating pages (`dict_list`).
//!
//! Each operation is specified over mathematical values: the view of the
//! cache and what must hold of it (`dict_spec`), the scan of the descriptor
//! table (`scan_spec`), and what updates, removals and syncs do
//! (`update_spec`, `remove_spec`, `sync_spec`). What follows from these
//! specifications is proved in `laws`, `index_laws`, `sync_laws`,
//! `large_laws` and `reload_laws`.
//!
//! The cache works on a page map ([`v2p::V2PMap`]) and on a device that
//! holds sealed pages and a pool of free pages ([`storage::Storage`]). The
//! geometry of the address space is in `layout`, the records on disk in
//! `keys`, the free descriptor indices in `free_keys`.
//!
//! Beside the cache the crate holds two small parts of the user interface:
//! identifiers and transfers of the graphics interface (`graphics`), and the
//! modal list of check boxes (`checkboxes`).

pub mod bytes;
pub mod checkboxes;
pub mod dict_large;
pub mod dict_list;
pub mod dict_load;
pub mod dict_put;
pub mod dict_remove;
pub mod dict_spec;
pub mod dict_sync;
pub mod dict_update;
pub mod dictionary;
pub mod free_keys;
pub mod graphics;
pub mod index_laws;
pub mod journal;
pub mod key_cache;
pub mod keys;
pub mod large_laws;
pub mod laws;
pub mod layout;
pub mod reload_laws;
pub mod remove_spec;
pub mod scan_spec;
pub mod storage;
pub mod sync_laws;
pub mod sync_spec;
pub mod update_lemmas;
pub mod update_spec;
pub mod v2p;
