//! Timewarp tracking and lifeline pathways for an IOTA tangle observer.
pub mod pathway;
pub mod iota_api;
pub mod strmap;
pub mod intmap;
pub mod timewarping;
pub mod indexstorage;
pub mod timewarpselecting;
pub mod aionmodel;
pub mod signing;
pub mod txstorage;
pub mod webapi;
pub mod timewarpissuing;
pub mod timewarpwalker;
pub mod timewarpindexing;
pub mod transactionpulling;
pub mod transactionpinning;
pub mod memstore;
pub mod jobstore;
pub mod pullcache;
