pub mod canon;
pub mod cli_types;
pub mod closure;
pub mod codec;
pub mod codec_file;
pub mod codec_legacy;
pub mod content;
pub mod fetch;
pub mod graph;
pub mod hashes;
pub mod install;
pub mod linker;
pub mod lockfile;
pub mod manifest;
pub mod platform;
pub mod prune;
pub mod quote;
pub mod resolver;
pub mod smap;
pub mod spec_parse;
pub mod store;
pub mod strutil;
pub mod vers;
