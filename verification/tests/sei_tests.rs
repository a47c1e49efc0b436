use prost::encoding::{self, WireType};
use teslacam::mp4::Mp4Error;
use teslacam::nal::{extract_proto_payload, strip_emulation_prevention};
use teslacam::proto::{decode_key, decode_sei_metadata, decode_varint, SeiMetadataProto};
use teslacam::sei::{autopilot_str, extract_sei_records, gear_str, AutopilotState, Gear};

fn sample_payload() -> Vec<u8> {
    let mut b = Vec::new();
    encoding::uint32::encode(1, &3, &mut b);
    encoding::int32::encode(2, &1, &mut b);
    encoding::uint64::encode(3, &123_456_789_012, &mut b);
    encoding::float::encode(4, &12.5f32, &mut b);
    encoding::float::encode(5, &0.25f32, &mut b);
    encoding::float::encode(6, &-7.5f32, &mut b);
    encoding::bool::encode(7, &true, &mut b);
    encoding::bool::encode(9, &true, &mut b);
    encoding::int32::encode(10, &2, &mut b);
    encoding::double::encode(11, &25.033964, &mut b);
    encoding::double::encode(12, &121.564468, &mut b);
    encoding::double::encode(13, &270.0, &mut b);
    encoding::double::encode(16, &-9.81, &mut b);
    b
}

fn expected_metadata() -> SeiMetadataProto {
    SeiMetadataProto {
        version: 3,
        gear_state: 1,
        frame_seq_no: 123_456_789_012,
        vehicle_speed_mps_bits: 12.5f32.to_bits(),
        accelerator_pedal_position_bits: 0.25f32.to_bits(),
        steering_wheel_angle_bits: (-7.5f32).to_bits(),
        blinker_on_left: true,
        blinker_on_right: false,
        brake_applied: true,
        autopilot_state: 2,
        latitude_deg_bits: 25.033964f64.to_bits(),
        longitude_deg_bits: 121.564468f64.to_bits(),
        heading_deg_bits: 270.0f64.to_bits(),
        linear_accel_x_bits: 0,
        linear_accel_y_bits: 0,
        linear_accel_z_bits: (-9.81f64).to_bits(),
    }
}

fn default_metadata() -> SeiMetadataProto {
    SeiMetadataProto {
        version: 0,
        gear_state: 0,
        frame_seq_no: 0,
        vehicle_speed_mps_bits: 0,
        accelerator_pedal_position_bits: 0,
        steering_wheel_angle_bits: 0,
        blinker_on_left: false,
        blinker_on_right: false,
        brake_applied: false,
        autopilot_state: 0,
        latitude_deg_bits: 0,
        longitude_deg_bits: 0,
        heading_deg_bits: 0,
        linear_accel_x_bits: 0,
        linear_accel_y_bits: 0,
        linear_accel_z_bits: 0,
    }
}

/// A Tesla SEI user-data NAL unit around `payload`.
fn sei_nal(payload: &[u8]) -> Vec<u8> {
    let mut n = vec![0x06, 0x05, payload.len() as u8, 0x42, 0x42, 0x42, 0x69];
    n.extend_from_slice(payload);
    n.push(0x80);
    n
}

#[test]
fn gear_labels() {
    assert_eq!(gear_str(0), "P");
    assert_eq!(gear_str(1), "D");
    assert_eq!(gear_str(2), "R");
    assert_eq!(gear_str(3), "N");
    assert_eq!(gear_str(4), "?");
    assert_eq!(gear_str(-1), "?");
}

#[test]
fn autopilot_labels() {
    assert_eq!(autopilot_str(0), "OFF");
    assert_eq!(autopilot_str(1), "FSD");
    assert_eq!(autopilot_str(2), "Autosteer");
    assert_eq!(autopilot_str(3), "TACC");
    assert_eq!(autopilot_str(9), "OFF");
}

#[test]
fn wire_values_round_trip() {
    for g in [Gear::Park, Gear::Drive, Gear::Reverse, Gear::Neutral] {
        assert_eq!(Gear::from_i32(g.as_i32()), Some(g));
    }
    for a in [AutopilotState::Off, AutopilotState::SelfDriving, AutopilotState::Autosteer, AutopilotState::Tacc] {
        assert_eq!(AutopilotState::from_i32(a.as_i32()), Some(a));
    }
    assert_eq!(Gear::from_i32(4), None);
    assert_eq!(AutopilotState::from_i32(-1), None);
    assert_eq!(Gear::Reverse.as_i32(), 2);
    assert_eq!(AutopilotState::Tacc.as_i32(), 3);
}

#[test]
fn emulation_prevention_bytes_are_removed() {
    assert_eq!(strip_emulation_prevention(&[0, 0, 3, 1]), vec![0, 0, 1]);
    assert_eq!(strip_emulation_prevention(&[0, 0, 3, 0, 0, 3]), vec![0, 0, 0, 0]);
    assert_eq!(strip_emulation_prevention(&[0, 3, 0, 3]), vec![0, 3, 0, 3]);
    assert_eq!(strip_emulation_prevention(&[0, 0, 0, 3]), vec![0, 0, 0]);
    assert_eq!(strip_emulation_prevention(&[0, 0, 3, 3]), vec![0, 0, 3]);
    assert_eq!(strip_emulation_prevention(&[]), Vec::<u8>::new());
}

#[test]
fn payload_after_padding_and_marker() {
    let nal = sei_nal(&[0x08, 0x01]);
    assert_eq!(extract_proto_payload(&nal), Some(vec![0x08, 0x01]));
    // Without the 0x69 marker.
    assert_eq!(extract_proto_payload(&[0x06, 0x05, 0x01, 0x42, 0x10, 0x08, 0x80]), None);
    // Too short.
    assert_eq!(extract_proto_payload(&[0x06, 0x05, 0x01, 0x69]), None);
    // The payload is unescaped.
    let nal = [0x06, 0x05, 0x05, 0x69, 0x00, 0x00, 0x03, 0x01, 0x80];
    assert_eq!(extract_proto_payload(&nal), Some(vec![0x00, 0x00, 0x01]));
}

#[test]
fn varints_and_keys() {
    let mut b = Vec::new();
    encoding::encode_varint(300, &mut b);
    assert_eq!(decode_varint(&b, 0), Some((300, 2)));
    let mut b = Vec::new();
    encoding::encode_varint(u64::MAX, &mut b);
    assert_eq!(decode_varint(&b, 0), Some((u64::MAX, 10)));
    // An eleventh byte, or a tenth byte above 1, overflows.
    assert_eq!(decode_varint(&[0xff; 10], 0), None);
    assert_eq!(decode_varint(&[0xff, 0xff, 0xff, 0xff, 0xff, 0xff, 0xff, 0xff, 0xff, 0x02], 0), None);
    assert_eq!(decode_varint(&[0x80], 0), None);
    let mut k = Vec::new();
    encoding::encode_key(13, WireType::SixtyFourBit, &mut k);
    assert_eq!(decode_key(&k, 0), Some((13, 1, 1)));
    // Field number 0 and wire types 6 and 7 are refused.
    assert_eq!(decode_key(&[0x00], 0), None);
    assert_eq!(decode_key(&[0x0e], 0), None);
}

#[test]
fn decodes_the_telemetry_message() {
    assert_eq!(decode_sei_metadata(&sample_payload()), Some(expected_metadata()));
    assert_eq!(decode_sei_metadata(&[]), Some(default_metadata()));
}

#[test]
fn unknown_fields_are_skipped() {
    let mut b = Vec::new();
    encoding::string::encode(40, &"hello".to_string(), &mut b);
    encoding::uint32::encode(1, &7, &mut b);
    encoding::fixed64::encode(99, &1, &mut b);
    encoding::fixed32::encode(98, &1, &mut b);
    // An unknown group holding a varint field.
    encoding::encode_key(50, WireType::StartGroup, &mut b);
    encoding::uint32::encode(1, &5, &mut b);
    encoding::encode_key(50, WireType::EndGroup, &mut b);
    let m = decode_sei_metadata(&b).unwrap();
    assert_eq!(m.version, 7);
}

#[test]
fn malformed_messages_are_refused() {
    // A known field with the wrong wire type.
    let mut b = Vec::new();
    encoding::fixed32::encode(1, &7, &mut b);
    assert_eq!(decode_sei_metadata(&b), None);
    // A float field cut short.
    assert_eq!(decode_sei_metadata(&[0x25, 0x00, 0x00]), None);
    // A group closed by the wrong field number.
    let mut g = Vec::new();
    encoding::encode_key(50, WireType::StartGroup, &mut g);
    encoding::encode_key(51, WireType::EndGroup, &mut g);
    assert_eq!(decode_sei_metadata(&g), None);
    // A length-delimited field longer than what is left.
    assert_eq!(decode_sei_metadata(&[0xc2, 0x02, 0x05, 0x01]), None);
}

fn atom(kind: &[u8; 4], body: &[u8]) -> Vec<u8> {
    let mut v = ((body.len() + 8) as u32).to_be_bytes().to_vec();
    v.extend_from_slice(kind);
    v.extend_from_slice(body);
    v
}

fn with_length(nal: &[u8]) -> Vec<u8> {
    let mut v = (nal.len() as u32).to_be_bytes().to_vec();
    v.extend_from_slice(nal);
    v
}

#[test]
fn telemetry_records_of_a_file() {
    let sei = with_length(&sei_nal(&sample_payload()));
    let slice = with_length(&[0x65, 0x88, 0x80, 0x40]);
    let mut media = sei.clone();
    media.extend_from_slice(&slice);
    let sample0 = media.len() as u32;
    let mut payload2 = Vec::new();
    encoding::uint64::encode(3, &2, &mut payload2);
    let sei2 = with_length(&sei_nal(&payload2));
    media.extend_from_slice(&sei2);
    media.extend_from_slice(&slice);
    let sample1 = (sei2.len() + slice.len()) as u32;

    let mut f = atom(b"mdat", &media);
    let mut moov = Vec::new();
    let mut mvhd = vec![0u8; 12];
    mvhd.extend_from_slice(&30000u32.to_be_bytes());
    mvhd.extend_from_slice(&[0u8; 84]);
    moov.extend(atom(b"mvhd", &mvhd));
    let mut stsz = vec![0u8; 8];
    stsz.extend_from_slice(&2u32.to_be_bytes());
    stsz.extend_from_slice(&sample0.to_be_bytes());
    stsz.extend_from_slice(&sample1.to_be_bytes());
    moov.extend(atom(b"stsz", &stsz));
    let mut stts = vec![0u8; 4];
    stts.extend_from_slice(&1u32.to_be_bytes());
    stts.extend_from_slice(&2u32.to_be_bytes());
    stts.extend_from_slice(&1001u32.to_be_bytes());
    moov.extend(atom(b"stts", &stts));
    f.extend(atom(b"moov", &moov));

    let recs = extract_sei_records(&f).unwrap();
    assert_eq!(recs.len(), 2);
    assert_eq!(recs[0].time_ticks, 0);
    assert_eq!(recs[0].time_scale, 30000);
    assert_eq!(recs[0].metadata, expected_metadata());
    assert_eq!(recs[1].time_ticks, 1001);
    assert_eq!(recs[1].metadata.frame_seq_no, 2);
}

#[test]
fn file_without_moov_gives_no_records() {
    let f = atom(b"mdat", &[0u8; 8]);
    assert_eq!(extract_sei_records(&f).err(), Some(Mp4Error::NoMoov));
}

#[test]
fn every_field_written_reads_back() {
    // All sixteen fields, with negative enum values (written as ten-byte varints).
    let mut b = Vec::new();
    encoding::uint32::encode(1, &u32::MAX, &mut b);
    encoding::int32::encode(2, &-1, &mut b);
    encoding::uint64::encode(3, &u64::MAX, &mut b);
    encoding::float::encode(4, &1.5f32, &mut b);
    encoding::float::encode(5, &2.5f32, &mut b);
    encoding::float::encode(6, &3.5f32, &mut b);
    encoding::bool::encode(7, &true, &mut b);
    encoding::bool::encode(8, &true, &mut b);
    encoding::bool::encode(9, &true, &mut b);
    encoding::int32::encode(10, &i32::MIN, &mut b);
    for (tag, v) in [(11u32, 1.0f64), (12, 2.0), (13, 3.0), (14, 4.0), (15, 5.0), (16, 6.0)] {
        encoding::double::encode(tag, &v, &mut b);
    }
    let m = decode_sei_metadata(&b).unwrap();
    assert_eq!(m.version, u32::MAX);
    assert_eq!(m.gear_state, -1);
    assert_eq!(m.frame_seq_no, u64::MAX);
    assert_eq!(m.vehicle_speed_mps_bits, 1.5f32.to_bits());
    assert_eq!(m.accelerator_pedal_position_bits, 2.5f32.to_bits());
    assert_eq!(m.steering_wheel_angle_bits, 3.5f32.to_bits());
    assert!(m.blinker_on_left && m.blinker_on_right && m.brake_applied);
    assert_eq!(m.autopilot_state, i32::MIN);
    assert_eq!(m.latitude_deg_bits, 1.0f64.to_bits());
    assert_eq!(m.longitude_deg_bits, 2.0f64.to_bits());
    assert_eq!(m.heading_deg_bits, 3.0f64.to_bits());
    assert_eq!(m.linear_accel_x_bits, 4.0f64.to_bits());
    assert_eq!(m.linear_accel_y_bits, 5.0f64.to_bits());
    assert_eq!(m.linear_accel_z_bits, 6.0f64.to_bits());
}

#[test]
fn a_repeated_field_keeps_its_last_value() {
    let mut b = Vec::new();
    encoding::uint64::encode(3, &5, &mut b);
    encoding::uint64::encode(3, &9, &mut b);
    assert_eq!(decode_sei_metadata(&b).unwrap().frame_seq_no, 9);
}

/// Inserts emulation-prevention bytes as an H.264 encoder does.
fn escape(p: &[u8]) -> Vec<u8> {
    let mut out = Vec::new();
    let mut zeros = 0;
    for &b in p {
        if zeros >= 2 && b <= 3 {
            out.push(3);
            zeros = 0;
        }
        out.push(b);
        zeros = if b == 0 { zeros + 1 } else { 0 };
    }
    out
}

#[test]
fn escaped_payload_reads_back() {
    let payload = vec![0, 0, 1, 0, 0, 0, 0, 0, 3, 7, 0, 0, 2];
    let mut nal = vec![0x06, 0x05, 0x20, 0x42, 0x69];
    nal.extend(escape(&payload));
    nal.push(0x80);
    assert_ne!(escape(&payload), payload);
    assert_eq!(extract_proto_payload(&nal), Some(payload));
}
