//! Bifrostlink: the verified core of a peer-to-peer RPC link.

pub mod address;
pub mod config;
pub mod declarative;
pub mod delivery_laws;
pub mod endpoint_laws;
pub mod endpoints;
pub mod error;
pub mod event;
pub mod internal_handlers;
pub mod laws;
pub mod message;
pub mod node;
pub mod notification;
pub mod packet;
pub mod peers;
pub mod port;
pub mod request;
pub mod resource;
pub mod resource_laws;
pub mod route;
pub mod route_laws;
pub mod rpc;
pub mod spread_laws;
pub mod syntax;
