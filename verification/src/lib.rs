//! The decisions behind two network scanners: one that samples and tests
//! Cloudflare edge addresses, and one that checks a list of proxy addresses and
//! reports the ones that work. Everything here computes on plain values; the
//! program around it does the network and file work.

pub mod address;
pub mod candidates;
pub mod chance;
pub mod cidr;
pub mod clock;
pub mod country;
pub mod distinct;
pub mod meta;
pub mod number;
pub mod proxy_list;
pub mod ranges;
pub mod record;
pub mod report;
pub mod response;
pub mod scan;
pub mod table;
pub mod text;
pub mod validation;
