//! Sequential Directory Tree (SDT): the bijective base-26 / base-36 index
//! codec, the covered/extra/sidecar classifier, `.0` sidecar derivation and
//! (de)serialization, and the naming, compaction and packing plans that the
//! `sdt` tool carries out on disk.

pub mod text;
pub mod kind;
pub mod decimal;
pub mod order;
pub mod codec;
pub mod sidecar;
pub mod classify;
pub mod derive;
pub mod labels;
pub mod naming;
pub mod code;
pub mod portability;
pub mod check;

pub use classify::{classify_dir, has_ten_missing, Class, EntryClass, ExtraRule, RawEntry};
pub use codec::{decode, encode, is_canonical_dir_name, storage_name, valid_index, CodecError};
pub use derive::{derive_local, derive_subtree, fragile, gaps};
pub use kind::{Kind, DIR_ALPHABET, DIR_CAPACITY, FILE_ALPHABET, FILE_CAPACITY};
pub use sidecar::Sidecar;
