pub mod control;
pub mod data;

use vstd::prelude::*;
use crate::serial::Serial;
use control::{control_view_wf, control_wire, parse_control, lemma_control_round_trip, ControlPacket, ControlPacketView};
use data::{data_view_wf, data_wire, parse_data, lemma_data_round_trip, DataPacket, DataPacketView};

verus! {

/// Bytes in every packet header.
pub const HEADER_SIZE: usize = 8;

#[derive(Clone, Debug)]
pub enum Packet {
    Control(ControlPacket),
    Data(DataPacket),
}

/// The mathematical value of a packet.
pub enum PacketView {
    Control(ControlPacketView),
    Data(DataPacketView),
}

impl View for Packet {
    type V = PacketView;

    open spec fn view(&self) -> PacketView {
        match self {
            Packet::Control(c) => PacketView::Control(c@),
            Packet::Data(d) => PacketView::Data(d@),
        }
    }
}

pub open spec fn packet_view_wf(p: PacketView) -> bool {
    match p {
        PacketView::Control(c) => control_view_wf(c),
        PacketView::Data(d) => data_view_wf(d),
    }
}

/// The on-wire bytes of a packet.
pub open spec fn packet_wire(p: PacketView) -> Seq<u8> {
    match p {
        PacketView::Control(c) => control_wire(c),
        PacketView::Data(d) => data_wire(d),
    }
}

/// Reading of a packet: the top bit of the first byte tells control from data.
pub open spec fn parse_packet(b: Seq<u8>) -> Option<PacketView> {
    if b.len() < 1 {
        None
    } else if b[0] >= 0x80 {
        match parse_control(b) {
            Some(c) => Some(PacketView::Control(c)),
            None => None,
        }
    } else {
        match parse_data(b) {
            Some(d) => Some(PacketView::Data(d)),
            None => None,
        }
    }
}

/// Reading back the encoding of a well-formed packet gives the packet.
pub proof fn lemma_round_trip(p: PacketView)
    requires
        packet_view_wf(p),
    ensures
        parse_packet(packet_wire(p)) == Some(p),
{
    match p {
        PacketView::Control(c) => {
            lemma_control_round_trip(c);
        },
        PacketView::Data(d) => {
            lemma_data_round_trip(d);
        },
    }
}

impl Packet {
    pub open spec fn wf(&self) -> bool {
        packet_view_wf(self@)
    }

    /// The socket the packet is addressed to.
    pub fn socket_id(&self) -> (r: u16)
        ensures
            r == match self {
                Packet::Control(c) => c.dst_socket_id,
                Packet::Data(d) => d.dst_socket_id,
            },
    {
        match self {
            Packet::Control(packet) => packet.dst_socket_id,
            Packet::Data(packet) => packet.dst_socket_id,
        }
    }

    /// Reads a packet; `None` when the bytes hold no valid packet.
    pub fn deserialize(bytes: &[u8]) -> (r: Option<Packet>)
        ensures
            match r {
                Some(p) => parse_packet(bytes@) == Some(p@),
                None => parse_packet(bytes@).is_none(),
            },
    {
        if bytes.len() < 1 {
            return None;
        }
        if bytes[0] >= 0x80 {
            match ControlPacket::deserialize(bytes) {
                Some(c) => Some(Packet::Control(c)),
                None => None,
            }
        } else {
            match DataPacket::deserialize(bytes) {
                Some(d) => Some(Packet::Data(d)),
                None => None,
            }
        }
    }
}

impl Serial for Packet {
    open spec fn encodable(&self) -> bool {
        self.wf()
    }

    open spec fn wire(&self) -> Seq<u8> {
        packet_wire(self@)
    }

    fn serialize(&self) -> (r: Vec<u8>) {
        match self {
            Packet::Control(packet) => packet.serialize(),
            Packet::Data(packet) => packet.serialize(),
        }
    }
}

} // verus!
