//! Read-only reader for the Xapian "glass" backend, single-file variant.

pub mod block;
pub mod block_laws;
pub mod damage_laws;
pub mod entries;
pub mod format_laws;
pub mod inflate;
pub mod list_laws;
pub mod postlist;
pub mod sortable;
pub mod store_laws;
pub mod table;
pub mod tree;
pub mod varint;
pub mod version;
pub mod version_laws;

pub use self::block::{Block, DIR_START, LEVEL_FREELIST};
pub use self::postlist::Postlist;
pub use self::sortable::{pack_sortable, unpack_sortable};
pub use self::table::{Cursor, Table};
pub use self::varint::{unpack_string, unpack_uint};
pub use self::version::{
    RootInfo, Version, DOCDATA, POSITION, POSTLIST, SPELLING, SYNONYM, TABLE_NAMES, TERMLIST,
};
