pub mod ring;
pub mod sample;
pub mod wide;
pub mod downsample;
pub mod text;
pub mod snapshot;
pub mod recorder;
pub mod probe;
pub mod api;
pub mod ip;
pub mod dns_parse;
pub mod dns_capture;
pub mod classify;
pub mod flow;
pub mod conntrack;
pub mod ipmap;
pub mod account;
pub mod names;
pub mod db;
pub mod config;
pub mod history;
pub mod tsmerge;
pub mod control;
