pub mod access;
pub mod account;
pub mod auth;
pub mod bookmark;
pub mod collection;
pub mod config;
pub mod domain;
pub mod email;
pub mod error;
pub mod export;
pub mod import;
pub mod import_service;
pub mod links;
pub mod num;
pub mod password;
pub mod search;
pub mod session;
pub mod site;
pub mod split;
pub mod stored_tree;
pub mod tag;
pub mod tenant;
pub mod web;
pub mod text;
pub mod token;
pub mod webdav;
pub mod xbel;
pub mod xbel_read;
pub mod xbel_write;
