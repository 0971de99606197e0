//! HeriHeri cloud drive core: the virtual file system kept on top of the
//! cloud drive, its text codec and merge rules, the WebDAV translation layer,
//! the media streaming plan and the share-code and challenge helpers.
pub mod text;
pub mod order;
pub mod vfs;
pub mod external;
pub mod tsv;
pub mod stream;
pub mod crypto;
pub mod chunks;
pub mod dav;
pub mod waf;
pub mod nav;
pub mod share;
pub mod agent;
pub mod player;
pub mod pages;
pub mod proxy;
pub mod transfer;
pub mod cloud;
pub mod sync;
pub mod recycle;
