//! Import of a legacy source-control repository into content-addressed
//! storage: a read-only bookmark-file parser, pluggable blobstore, heads and
//! linknode stores, a bounded import channel, and the converter/consumer
//! pipeline with duplicate-blob filtering.

pub mod blobstore;
pub mod bookmarks;
pub mod channel;
pub mod hash;
pub mod heads;
pub mod import;
pub mod kvlist;
pub mod linknodes;
