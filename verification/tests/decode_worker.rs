use proteus_lib::decode_worker::{decode_step, first_decodable_track, read_step, DecodeStep, PacketDecode, PacketRead, ReadStep};

#[test]
fn reads_decode_own_tracks_only() {
    let tracks = vec![3, 5];
    assert_eq!(read_step(false, PacketRead::Packet { track_id: 5 }, &tracks), ReadStep::Decode);
    assert_eq!(read_step(false, PacketRead::Packet { track_id: 4 }, &tracks), ReadStep::Skip);
    assert_eq!(read_step(true, PacketRead::Packet { track_id: 5 }, &tracks), ReadStep::Stop);
}

#[test]
fn read_end_and_failure() {
    let tracks = vec![1];
    assert_eq!(read_step(false, PacketRead::EndOfStream, &tracks), ReadStep::EndOfStream);
    assert_eq!(read_step(false, PacketRead::Failed, &tracks), ReadStep::ReadFailed);
}

#[test]
fn decode_results() {
    assert_eq!(decode_step(PacketDecode::Samples { sample_count: 8 }), DecodeStep::Forward);
    assert_eq!(decode_step(PacketDecode::Samples { sample_count: 0 }), DecodeStep::SkipEmpty);
    assert_eq!(decode_step(PacketDecode::DecodeError), DecodeStep::ReportRecoverable);
    assert_eq!(decode_step(PacketDecode::Failed), DecodeStep::ReportFatal);
}

#[test]
fn first_decodable_track_skips_tracks_without_codec() {
    assert_eq!(first_decodable_track(&vec![false, true, true]), Some(1));
    assert_eq!(first_decodable_track(&vec![false, false]), None);
    assert_eq!(first_decodable_track(&vec![]), None);
}
