//! The parameter store, the configuration, and the listener lifecycle
//! decisions.
use osc_bridge::codec::encode_parameter;
use osc_bridge::osc::{
    parse_parameter_kind, set_parameter_value_plan, OscConfig, OscError, OscState, Parameter,
    ParameterType,
};

fn param(name: &str, kind: ParameterType, value: f32) -> Parameter {
    Parameter { name: name.to_string(), parameter_type: kind, value_bits: value.to_bits() }
}

fn config(th: &str, tp: u16, lh: &str, lp: u16) -> OscConfig {
    OscConfig {
        target_address: th.to_string(),
        target_port: tp,
        listen_address: lh.to_string(),
        listen_port: lp,
    }
}

#[test]
fn new_state_is_empty_and_stopped() {
    let s = OscState::new();
    assert!(s.get_parameters().is_empty());
    assert!(!s.running());
    let c = s.get_config();
    assert_eq!(c.target_address, "127.0.0.1");
    assert_eq!(c.target_port, 9000);
    assert_eq!(c.listen_address, "127.0.0.1");
    assert_eq!(c.listen_port, 9001);
}

#[test]
fn update_parameter_creates_and_replaces() {
    let mut s = OscState::new();
    s.update_parameter(param("a", ParameterType::Float, 0.5));
    s.update_parameter(param("b", ParameterType::Bool, 1.0));
    s.update_parameter(param("a", ParameterType::Int, 3.0));
    let ps = s.get_parameters();
    assert_eq!(ps.len(), 2);
    assert_eq!(ps[0].name, "a");
    assert!(matches!(ps[0].parameter_type, ParameterType::Int));
    assert_eq!(ps[0].value_bits, 3.0f32.to_bits());
    assert_eq!(ps[1].name, "b");
}

#[test]
fn set_parameter_requires_known_name() {
    let mut s = OscState::new();
    assert_eq!(s.set_parameter("a", 1.0f32.to_bits()), Err(OscError::ParameterNotFound));
    s.update_parameter(param("a", ParameterType::Float, 0.0));
    assert_eq!(s.set_parameter("a", 1.0f32.to_bits()), Ok(()));
    let ps = s.get_parameters();
    assert_eq!(ps[0].value_bits, 1.0f32.to_bits());
    assert!(matches!(ps[0].parameter_type, ParameterType::Float));
}

#[test]
fn get_parameter_kind_defaults_to_none_when_unknown() {
    let mut s = OscState::new();
    assert!(s.get_parameter_kind("x").is_none());
    s.update_parameter(param("x", ParameterType::Bool, 1.0));
    assert!(matches!(s.get_parameter_kind("x"), Some(ParameterType::Bool)));
}

#[test]
fn restart_only_on_material_change_while_running() {
    let mut s = OscState::new();

    // Not running: a change never restarts.
    let restart = s.update_config(config("127.0.0.1", 9100, "127.0.0.1", 9101));
    assert!(!restart);

    // Running and identical: no restart.
    assert!(s.listener_start_config().is_some());
    s.mark_listener_started();
    let restart = s.update_config(config("127.0.0.1", 9100, "127.0.0.1", 9101));
    assert!(!restart);

    // Running and one field differs: restart.
    let restart = s.update_config(config("127.0.0.1", 9100, "127.0.0.1", 9102));
    assert!(restart);
    let c = s.get_config();
    assert_eq!(c.listen_port, 9102);
}

#[test]
fn lifecycle_start_stop_are_idempotent() {
    let mut s = OscState::new();
    assert!(s.listener_start_config().is_some());
    s.mark_listener_started();
    assert!(s.running());
    // Starting while running is a no-op.
    assert!(s.listener_start_config().is_none());
    // Stopping tells the caller to join exactly once.
    assert!(s.stop_listener());
    assert!(!s.stop_listener());
    assert!(!s.running());
}

#[test]
fn handle_datagram_updates_store_and_signals() {
    let mut s = OscState::new();
    let bytes = encode_parameter("speed", ParameterType::Float, 2.5f32.to_bits());
    assert!(s.handle_datagram(&bytes));
    let ps = s.get_parameters();
    assert_eq!(ps.len(), 1);
    assert_eq!(ps[0].name, "speed");
    assert_eq!(ps[0].value_bits, 2.5f32.to_bits());
}

#[test]
fn handle_datagram_ignores_foreign_and_garbage() {
    let mut s = OscState::new();
    assert!(!s.handle_datagram(&[1, 2, 3, 4]));
    let mut other = Vec::new();
    other.extend_from_slice(b"/foo\0\0\0\0,f\0\0");
    other.extend_from_slice(&1.0f32.to_bits().to_be_bytes());
    assert!(!s.handle_datagram(&other));
    assert!(s.get_parameters().is_empty());
}

#[test]
fn kind_labels() {
    assert!(matches!(parse_parameter_kind("Float"), Some(ParameterType::Float)));
    assert!(matches!(parse_parameter_kind("Int"), Some(ParameterType::Int)));
    assert!(matches!(parse_parameter_kind("Bool"), Some(ParameterType::Bool)));
    assert!(parse_parameter_kind("float").is_none());
    assert!(parse_parameter_kind("").is_none());
    assert!(parse_parameter_kind("Double").is_none());
}

#[test]
fn explicit_set_validates_the_label() {
    let bits = 2.5f32.to_bits();
    assert_eq!(
        set_parameter_value_plan("speed", bits, "Float"),
        Ok(encode_parameter("speed", ParameterType::Float, bits))
    );
    assert_eq!(
        set_parameter_value_plan("speed", bits, "float"),
        Err(OscError::InvalidParameterType)
    );
}
