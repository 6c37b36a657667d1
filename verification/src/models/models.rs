use vstd::prelude::*;

use super::named_map::NamedMap;

verus! {

/// Packets seen in one time-spanned bucket of the timeline.
pub struct Bucket {
    /// Beginning timestamp of the bucket
    pub time: u32,
    /// Packets in that bucket
    pub packets: u32,
}

/// Traffic seen on one network interface.
#[derive(Clone, Copy, Debug, PartialEq, Eq, Structural)]
pub struct Interface {
    /// Packets received on the interface
    pub packets_in: u32,
    /// Packets transmitted out of the interface
    pub packets_out: u32,
    /// Bytes received on the interface
    pub bytes_in: u32,
    /// Bytes transmitted out of the interface
    pub bytes_out: u32,
}

impl Default for Interface {
    /// An interface on which no traffic was seen.
    fn default() -> (r: Self)
        ensures
            r == (Interface { packets_in: 0, packets_out: 0, bytes_in: 0, bytes_out: 0 }),
    {
        Interface { packets_in: 0, packets_out: 0, bytes_in: 0, bytes_out: 0 }
    }
}

impl Interface {
    pub fn new(packets_in: u32, packets_out: u32, bytes_in: u32, bytes_out: u32) -> (r: Self)
        ensures
            r == (Interface { packets_in, packets_out, bytes_in, bytes_out }),
    {
        Interface { packets_in, packets_out, bytes_in, bytes_out }
    }

    /// Adds `inputs` = (packets, bytes) to the traffic received on the interface.
    pub fn update_inputs(&mut self, inputs: (u32, u32))
        requires
            old(self).packets_in + inputs.0 <= u32::MAX,
            old(self).bytes_in + inputs.1 <= u32::MAX,
        ensures
            final(self).packets_in == old(self).packets_in + inputs.0,
            final(self).bytes_in == old(self).bytes_in + inputs.1,
            final(self).packets_out == old(self).packets_out,
            final(self).bytes_out == old(self).bytes_out,
    {
        self.packets_in += inputs.0;
        self.bytes_in += inputs.1;
    }

    /// Adds `outputs` = (packets, bytes) to the traffic transmitted out of the interface.
    pub fn update_outputs(&mut self, outputs: (u32, u32))
        requires
            old(self).packets_out + outputs.0 <= u32::MAX,
            old(self).bytes_out + outputs.1 <= u32::MAX,
        ensures
            final(self).packets_out == old(self).packets_out + outputs.0,
            final(self).bytes_out == old(self).bytes_out + outputs.1,
            final(self).packets_in == old(self).packets_in,
            final(self).bytes_in == old(self).bytes_in,
    {
        self.packets_out += outputs.0;
        self.bytes_out += outputs.1;
    }
}

/// Traffic statistics over the filtered log.
pub struct Stats {
    /// Array of the packets seen in each time-spanned bucket
    pub buckets: Vec<Bucket>,
    /// Mapping of the packets transmitted of each protocol
    pub protocols: NamedMap<u32>,
    /// Mapping of the packets transmitted with each action performed
    pub actions: NamedMap<u32>,
    /// Mapping of the packets transmitted on each interface
    pub interfaces: NamedMap<Interface>,
}

impl Stats {
    pub fn new(
        buckets: Vec<Bucket>,
        protocols: NamedMap<u32>,
        actions: NamedMap<u32>,
        interfaces: NamedMap<Interface>,
    ) -> (r: Self)
        ensures
            r == (Stats { buckets, protocols, actions, interfaces }),
    {
        Stats { buckets, protocols, actions, interfaces }
    }
}

/// One entry of a ranking of the heaviest sources, destinations or ports.
pub struct Top {
    /// Identifier for the top statistic (i.e., a source or destination IP address)
    pub key: String,
    /// Traffic protocol integer value
    pub proto: Option<u8>,
    /// Packets transmitted
    pub count: u32,
    /// Bytes transmitted
    pub bytes: u32,
}

/// Totals over the filtered log.
#[derive(Clone, Copy, Debug, PartialEq, Eq, Structural)]
pub struct Totals {
    /// Total packets transmitted
    pub packets: u32,
    /// Total bytes transmitted
    pub bytes: u32,
    /// Total source IP addresses seen
    pub src: u32,
    /// Total destination IP addresses seen
    pub dst: u32,
}

impl Totals {
    pub fn new(packets: u32, bytes: u32, src: u32, dst: u32) -> (r: Self)
        ensures
            r == (Totals { packets, bytes, src, dst }),
    {
        Totals { packets, bytes, src, dst }
    }
}

/// Rankings and totals over the filtered log.
pub struct Summary {
    /// Source IPv4 or IPv6 addresses
    pub src_ips: Vec<Top>,
    /// Destination IPv4 or IPv6 addresses
    pub dst_ips: Vec<Top>,
    /// Destination ports
    pub dst_ports: Vec<Top>,
    /// Total traffic stats
    pub totals: Totals,
}

impl Summary {
    pub fn new(src_ips: Vec<Top>, dst_ips: Vec<Top>, dst_ports: Vec<Top>, totals: Totals) -> (r: Self)
        ensures
            r == (Summary { src_ips, dst_ips, dst_ports, totals }),
    {
        Summary { src_ips, dst_ips, dst_ports, totals }
    }
}

/// The values that the log can be filtered by.
pub struct Options {
    /// Input interfaces
    pub iifaces: Vec<String>,
    /// Output interfaces
    pub oifaces: Vec<String>,
    /// Protocols
    pub protocols: Vec<String>,
}

impl Options {
    pub fn new(iifaces: Vec<String>, oifaces: Vec<String>, protocols: Vec<String>) -> (r: Self)
        ensures
            r == (Options { iifaces, oifaces, protocols }),
    {
        Options { iifaces, oifaces, protocols }
    }
}

} // verus!
