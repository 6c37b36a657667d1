use vstd::prelude::*;

verus! {

/// A row of the `log` table: one packet seen by the firewall.
pub struct Model {
    pub rowid: i64,
    pub oob_time_sec: u32,
    pub oob_time_usec: u32,
    pub prefix: String,
    pub iiface: String,
    pub oiface: String,
    pub src_ip: String,
    pub dst_ip: String,
    pub proto: Option<u8>,
    pub ttl: Option<u8>,
    pub tcp_sport: Option<u16>,
    pub tcp_dport: Option<u16>,
    pub udp_sport: Option<u16>,
    pub udp_dport: Option<u16>,
    pub icmp_type: Option<u8>,
    pub icmp_code: Option<u8>,
    pub length: u32,
}

} // verus!
