//! Decisions of the decode workers.
//!
//! A worker reads packets from a demuxer, decodes those of its tracks and
//! forwards the samples to the mixer once room is reserved. Reading,
//! decoding and sending are the caller's; each step here takes what a read
//! or a decode gave and says what to do next.

use vstd::prelude::*;

verus! {

/// What reading the next packet gave.
#[derive(Debug, Clone, Copy, PartialEq, Eq, Structural)]
pub enum PacketRead {
    /// A packet of the given track.
    Packet { track_id: u32 },
    /// The stream ended.
    EndOfStream,
    /// Reading failed.
    Failed,
}

/// What a worker does after a read.
#[derive(Debug, Clone, Copy, PartialEq, Eq, Structural)]
pub enum ReadStep {
    /// Playback was aborted: stop.
    Stop,
    /// The packet belongs to no track of this worker: read the next one.
    Skip,
    /// Decode the packet.
    Decode,
    /// The stream ended: stop (a container worker first reports that the
    /// shared stream is exhausted).
    EndOfStream,
    /// Report a terminal error for every source of the worker and stop.
    ReadFailed,
}

/// What decoding a packet gave.
#[derive(Debug, Clone, Copy, PartialEq, Eq, Structural)]
pub enum PacketDecode {
    /// Decoding gave `sample_count` interleaved samples.
    Samples { sample_count: usize },
    /// The packet could not be decoded, but the stream may go on.
    DecodeError,
    /// Decoding failed for good.
    Failed,
}

/// What a worker does after a decode.
#[derive(Debug, Clone, Copy, PartialEq, Eq, Structural)]
pub enum DecodeStep {
    /// Reserve room and send the samples to the mixer.
    Forward,
    /// Nothing to send: read the next packet.
    SkipEmpty,
    /// Report a recoverable error and read the next packet.
    ReportRecoverable,
    /// Report a terminal error and stop.
    ReportFatal,
}

/// `id` is one of `tracks`.
pub open spec fn has_track(tracks: Seq<u32>, id: u32) -> bool {
    exists|i: int| 0 <= i < tracks.len() && tracks[i] == id
}

/// The step after a read, for a worker decoding the tracks `tracks`.
pub open spec fn spec_read_step(abort: bool, read: PacketRead, tracks: Seq<u32>) -> ReadStep {
    if abort {
        ReadStep::Stop
    } else {
        match read {
            PacketRead::Packet { track_id } => if has_track(tracks, track_id) { ReadStep::Decode } else { ReadStep::Skip },
            PacketRead::EndOfStream => ReadStep::EndOfStream,
            PacketRead::Failed => ReadStep::ReadFailed,
        }
    }
}

/// True when `id` is one of `tracks`.
fn contains_track(tracks: &Vec<u32>, id: u32) -> (r: bool)
    ensures
        r == has_track(tracks@, id),
{
    let mut i: usize = 0;
    while i < tracks.len()
        invariant
            i <= tracks@.len(),
            forall|q: int| 0 <= q < i ==> tracks@[q] != id,
        decreases tracks.len() - i,
    {
        if tracks[i] == id {
            assert(tracks@[i as int] == id);
            return true;
        }
        i = i + 1;
    }
    false
}

/// The step after a read, for a worker decoding the tracks `tracks` (one
/// for a file worker, all wanted tracks for a container worker).
pub fn read_step(abort: bool, read: PacketRead, tracks: &Vec<u32>) -> (r: ReadStep)
    ensures
        r == spec_read_step(abort, read, tracks@),
{
    if abort {
        return ReadStep::Stop;
    }
    match read {
        PacketRead::Packet { track_id } => {
            if contains_track(tracks, track_id) {
                ReadStep::Decode
            } else {
                ReadStep::Skip
            }
        },
        PacketRead::EndOfStream => ReadStep::EndOfStream,
        PacketRead::Failed => ReadStep::ReadFailed,
    }
}

/// The step after a decode: samples are forwarded (nothing is sent for an
/// empty decode), a decode error is reported and skipped, any other
/// failure ends the worker.
pub fn decode_step(decode: PacketDecode) -> (r: DecodeStep)
    ensures
        r == match decode {
            PacketDecode::Samples { sample_count } => if sample_count > 0 { DecodeStep::Forward } else { DecodeStep::SkipEmpty },
            PacketDecode::DecodeError => DecodeStep::ReportRecoverable,
            PacketDecode::Failed => DecodeStep::ReportFatal,
        },
{
    match decode {
        PacketDecode::Samples { sample_count } => {
            if sample_count > 0 {
                DecodeStep::Forward
            } else {
                DecodeStep::SkipEmpty
            }
        },
        PacketDecode::DecodeError => DecodeStep::ReportRecoverable,
        PacketDecode::Failed => DecodeStep::ReportFatal,
    }
}

/// The track a file worker decodes: the first one the reader could make
/// out a decodable (audio) codec for, by index into `decodable`.
pub fn first_decodable_track(decodable: &Vec<bool>) -> (r: Option<usize>)
    ensures
        match r {
            Some(i) => i < decodable@.len() && decodable@[i as int]
                && forall|j: int| 0 <= j < i ==> !#[trigger] decodable@[j],
            None => forall|j: int| 0 <= j < decodable@.len() ==> !#[trigger] decodable@[j],
        },
{
    let mut i: usize = 0;
    while i < decodable.len()
        invariant
            i <= decodable@.len(),
            forall|j: int| 0 <= j < i ==> !#[trigger] decodable@[j],
        decreases decodable.len() - i,
    {
        if decodable[i] {
            return Some(i);
        }
        i = i + 1;
    }
    None
}

} // verus!
