//! The wire codec, held against real float semantics and against another
//! OSC implementation.
use osc_bridge::codec::{decode_packet, encode_parameter};
use osc_bridge::float_bits::{f32_from_i32, f32_gt_half, trunc_f32};
use osc_bridge::osc::ParameterType;

use rosc::{OscBundle, OscMessage, OscPacket, OscTime, OscType};

fn rosc_bytes(packet: &OscPacket) -> Vec<u8> {
    rosc::encoder::encode(packet).unwrap()
}

fn avatar_msg(name: &str, arg: OscType) -> OscPacket {
    OscPacket::Message(OscMessage {
        addr: format!("/avatar/parameters/{}", name),
        args: vec![arg],
    })
}

#[test]
fn round_trip_float() {
    let bits = 3.25f32.to_bits();
    let bytes = encode_parameter("speed", ParameterType::Float, bits);
    let out = decode_packet(&bytes);
    assert_eq!(out.len(), 1);
    assert_eq!(out[0].name, "speed");
    assert!(matches!(out[0].parameter_type, ParameterType::Float));
    assert_eq!(out[0].value_bits, bits);
}

#[test]
fn round_trip_int_truncates() {
    let bits = 7.9f32.to_bits();
    let bytes = encode_parameter("count", ParameterType::Int, bits);
    let out = decode_packet(&bytes);
    assert_eq!(out.len(), 1);
    assert_eq!(out[0].name, "count");
    assert!(matches!(out[0].parameter_type, ParameterType::Int));
    assert_eq!(out[0].value_bits, 7.0f32.to_bits());

    let bits = (-7.9f32).to_bits();
    let bytes = encode_parameter("count", ParameterType::Int, bits);
    let out = decode_packet(&bytes);
    assert_eq!(out[0].value_bits, (-7.0f32).to_bits());
}

#[test]
fn round_trip_bool_thresholds() {
    let bytes = encode_parameter("toggle", ParameterType::Bool, 0.9f32.to_bits());
    let out = decode_packet(&bytes);
    assert_eq!(out.len(), 1);
    assert!(matches!(out[0].parameter_type, ParameterType::Bool));
    assert_eq!(out[0].value_bits, 1.0f32.to_bits());

    let bytes = encode_parameter("toggle", ParameterType::Bool, 0.3f32.to_bits());
    let out = decode_packet(&bytes);
    assert_eq!(out[0].value_bits, 0.0f32.to_bits());

    // Exactly one half is not greater than one half.
    let bytes = encode_parameter("toggle", ParameterType::Bool, 0.5f32.to_bits());
    let out = decode_packet(&bytes);
    assert_eq!(out[0].value_bits, 0.0f32.to_bits());
}

#[test]
fn round_trip_unicode_name() {
    let bits = 1.5f32.to_bits();
    let bytes = encode_parameter("größe/µ", ParameterType::Float, bits);
    let out = decode_packet(&bytes);
    assert_eq!(out.len(), 1);
    assert_eq!(out[0].name, "größe/µ");
    assert_eq!(out[0].value_bits, bits);
}

#[test]
fn encode_agrees_with_rosc() {
    let ours = encode_parameter("speed", ParameterType::Float, 1.5f32.to_bits());
    let theirs = rosc_bytes(&avatar_msg("speed", OscType::Float(1.5)));
    assert_eq!(ours, theirs);

    let ours = encode_parameter("count", ParameterType::Int, 2.7f32.to_bits());
    let theirs = rosc_bytes(&avatar_msg("count", OscType::Int(2)));
    assert_eq!(ours, theirs);

    let ours = encode_parameter("count", ParameterType::Int, (-2.7f32).to_bits());
    let theirs = rosc_bytes(&avatar_msg("count", OscType::Int(-2)));
    assert_eq!(ours, theirs);

    let ours = encode_parameter("toggle", ParameterType::Bool, 0.9f32.to_bits());
    let theirs = rosc_bytes(&avatar_msg("toggle", OscType::Bool(true)));
    assert_eq!(ours, theirs);

    let ours = encode_parameter("toggle", ParameterType::Bool, 0.0f32.to_bits());
    let theirs = rosc_bytes(&avatar_msg("toggle", OscType::Bool(false)));
    assert_eq!(ours, theirs);
}

#[test]
fn decode_rosc_message_int_becomes_float_value() {
    let bytes = rosc_bytes(&avatar_msg("count", OscType::Int(5)));
    let out = decode_packet(&bytes);
    assert_eq!(out.len(), 1);
    assert!(matches!(out[0].parameter_type, ParameterType::Int));
    assert_eq!(out[0].value_bits, 5.0f32.to_bits());
}

#[test]
fn decode_rosc_bundle_in_order() {
    let bundle = OscPacket::Bundle(OscBundle {
        timetag: OscTime { seconds: 0, fractional: 1 },
        content: vec![
            avatar_msg("a", OscType::Float(0.25)),
            avatar_msg("b", OscType::Bool(true)),
        ],
    });
    let bytes = rosc_bytes(&bundle);
    let out = decode_packet(&bytes);
    assert_eq!(out.len(), 2);
    assert_eq!(out[0].name, "a");
    assert_eq!(out[0].value_bits, 0.25f32.to_bits());
    assert_eq!(out[1].name, "b");
    assert_eq!(out[1].value_bits, 1.0f32.to_bits());
}

#[test]
fn foreign_address_is_ignored() {
    let bytes = rosc_bytes(&OscPacket::Message(OscMessage {
        addr: "/some/other/thing".to_string(),
        args: vec![OscType::Float(1.0)],
    }));
    assert!(decode_packet(&bytes).is_empty());
}

#[test]
fn unsupported_argument_is_ignored() {
    let bytes = rosc_bytes(&avatar_msg("label", OscType::String("hi".to_string())));
    assert!(decode_packet(&bytes).is_empty());
}

#[test]
fn message_without_arguments_is_ignored() {
    let bytes = rosc_bytes(&OscPacket::Message(OscMessage {
        addr: "/avatar/parameters/silent".to_string(),
        args: vec![],
    }));
    assert!(decode_packet(&bytes).is_empty());
}

#[test]
fn malformed_packet_is_ignored() {
    assert!(decode_packet(&[]).is_empty());
    assert!(decode_packet(&[0x2f, 0x61]).is_empty());
    assert!(decode_packet(&[0xff; 32]).is_empty());
}

fn interesting_floats() -> Vec<f32> {
    vec![
        0.0,
        -0.0,
        0.5,
        0.5000001,
        -0.5,
        1.0,
        -1.0,
        7.9,
        -7.9,
        123456.78,
        -123456.78,
        3.4e38,
        -3.4e38,
        1.0e-40,
        f32::NAN,
        f32::INFINITY,
        f32::NEG_INFINITY,
        2147483600.0,
        -2147483600.0,
        3000000000.0,
        -3000000000.0,
        16777217.0,
        0.999999,
    ]
}

#[test]
fn trunc_matches_rust_cast() {
    for v in interesting_floats() {
        assert_eq!(trunc_f32(v.to_bits()), v as i32, "value {v}");
    }
}

#[test]
fn int_to_float_matches_rust_cast() {
    let ints = vec![
        0,
        1,
        -1,
        7,
        -7,
        255,
        -255,
        16777215,
        16777216,
        16777217,
        -16777217,
        100000001,
        -100000001,
        2147483647,
        -2147483648,
        1234567891,
    ];
    for i in ints {
        assert_eq!(f32_from_i32(i), (i as f32).to_bits(), "value {i}");
    }
}

#[test]
fn gt_half_matches_rust_compare() {
    for v in interesting_floats() {
        assert_eq!(f32_gt_half(v.to_bits()), v > 0.5, "value {v}");
    }
}
