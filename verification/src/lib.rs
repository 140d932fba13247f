//! Ogg container decoder and encoder.
//!
//! The most interesting structures of this crate are the page parser
//! (`reading::PageParser`), the packet reassembly state machine
//! (`reading::BasePacketReader`) and the packet writer core
//! (`writing::BasePacketWriter`).

use vstd::prelude::*;

pub mod backports;
pub mod buf_reader;
pub mod crc;
pub mod le;
pub mod reading;
pub mod round_trip;
pub mod writing;

pub use crate::reading::{OggPage, OggReadError, PageParser};

verus! {

/// Ogg packet representation.
///
/// For the Ogg format, packets are the logically smallest subdivision it handles.
///
/// Every packet belongs to a *logical* bitstream. The *logical* bitstreams then form
/// a *physical* bitstream, with the data combined in multiple different ways.
///
/// Every logical bitstream is identified by the serial number its pages have stored.
/// The Packet struct contains a field for that number as well, so that one can find
/// out which logical bitstream the Packet belongs to.
pub struct Packet {
    /// The data the `Packet` contains
    pub data: Vec<u8>,
    /// `true` iff this packet is the first one in the page.
    first_packet_pg: bool,
    /// `true` iff this packet is the first one in the logical bitstream.
    first_packet_stream: bool,
    /// `true` iff this packet is the last one in the page.
    last_packet_pg: bool,
    /// `true` iff this packet is the last one in the logical bitstream
    last_packet_stream: bool,
    /// Absolute granule position of the last page the packet was in.
    /// The meaning of the absolute granule position is defined by the codec.
    absgp_page: u64,
    /// Serial number. Uniquely identifying the logical bitstream.
    stream_serial: u32,
    /// Checksum of the last page the packet was in.
    checksum_page: u32,
}

/// The model of a packet.
pub struct PacketView {
    pub data: Seq<u8>,
    pub first_in_page: bool,
    pub first_in_stream: bool,
    pub last_in_page: bool,
    pub last_in_stream: bool,
    pub absgp_page: u64,
    pub stream_serial: u32,
    pub checksum_page: u32,
}

impl View for Packet {
    type V = PacketView;

    closed spec fn view(&self) -> PacketView {
        PacketView {
            data: self.data@,
            first_in_page: self.first_packet_pg,
            first_in_stream: self.first_packet_stream,
            last_in_page: self.last_packet_pg,
            last_in_stream: self.last_packet_stream,
            absgp_page: self.absgp_page,
            stream_serial: self.stream_serial,
            checksum_page: self.checksum_page,
        }
    }
}

impl Packet {
    /// Returns whether the packet is the first one starting in the page
    pub fn first_in_page(&self) -> (r: bool)
        ensures
            r == self@.first_in_page,
    {
        self.first_packet_pg
    }

    /// Returns whether the packet is the first one of the entire stream
    pub fn first_in_stream(&self) -> (r: bool)
        ensures
            r == self@.first_in_stream,
    {
        self.first_packet_stream
    }

    /// Returns whether the packet is the last one starting in the page
    pub fn last_in_page(&self) -> (r: bool)
        ensures
            r == self@.last_in_page,
    {
        self.last_packet_pg
    }

    /// Returns whether the packet is the last one of the entire stream
    pub fn last_in_stream(&self) -> (r: bool)
        ensures
            r == self@.last_in_stream,
    {
        self.last_packet_stream
    }

    /// Returns the absolute granule position of the page the packet ended in.
    ///
    /// The meaning of the absolute granule position is defined by the codec.
    pub fn absgp_page(&self) -> (r: u64)
        ensures
            r == self@.absgp_page,
    {
        self.absgp_page
    }

    /// Returns the serial number that uniquely identifies the logical bitstream.
    pub fn stream_serial(&self) -> (r: u32)
        ensures
            r == self@.stream_serial,
    {
        self.stream_serial
    }

    /// Returns the checksum of the page the packet ended in.
    pub fn checksum_page(&self) -> (r: u32)
        ensures
            r == self@.checksum_page,
    {
        self.checksum_page
    }
}

} // verus!
