//! An embeddable, durable, in-memory data store: three typed collections
//! (key-value, key-set, key-sorted-map) over byte-string keys, each backed by
//! a length-prefixed, CRC-validated, append-only write-ahead log that is
//! replayed at startup to reconstruct the collection.

pub mod keys;
pub mod codec;
pub mod key_codec;
pub mod containers;
pub mod wal;
pub mod shards;
pub mod key_value_store;
pub mod key_set_store;
pub mod key_map_store;

pub use keys::Key;
pub use keys::KeyModel;
pub use keys::SearchKey;
pub use keys::SortedMapEntry;
pub use keys::SortedMapKey;
pub use keys::KeyValueRequest;
pub use keys::BytesLen;
pub use containers::ByteSet;
pub use containers::SortedEntries;
pub use containers::KeyBound;
pub use wal::StoreError;
pub use wal::WalStorage;
pub use wal::read_forward;
pub use wal::read_for_set;
pub use wal::read_for_map;
pub use wal::read_backward;
pub use wal::collect;
pub use key_value_store::DurableKeyValueStore;
pub use key_set_store::DurableKeySetStore;
pub use key_map_store::DurableKeyMapStore;
