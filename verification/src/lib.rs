//! Verified core of a mail gateway and of the coordinator economics around it.

pub mod abuse;
pub mod admin;
pub mod alias_map;
pub mod arbiter;
pub mod attestation;
pub mod authz;
pub mod b64;
pub mod base32;
pub mod bytes;
pub mod cbor;
pub mod compute;
pub mod coordinator;
pub mod descriptor;
pub mod directory;
pub mod dkim;
pub mod dkim_laws;
pub mod dns;
pub mod forwarded_addr;
pub mod http;
pub mod identity;
pub mod idn;
pub mod imap_access;
pub mod inbound;
pub mod ip;
pub mod json;
pub mod kinds;
pub mod legacy_net;
pub mod mesh;
pub mod meter;
pub mod model;
pub mod mote;
pub mod mta_sts;
pub mod multidomain;
pub mod mx;
pub mod mx_conn;
pub mod mx_session;
pub mod names;
pub mod net;
pub mod pem;
pub mod provenance;
pub mod quota;
pub mod random;
pub mod receipt;
pub mod rfc5322;
pub mod seqmap;
pub mod smtp;
pub mod sorting;
pub mod stake;
pub mod substrate;
pub mod tariff;
pub mod text;
pub mod vanity;
pub mod visibility;
