//! The command registry and the matcher.
use osc_bridge::codec::encode_parameter;
use osc_bridge::osc::{OscState, Parameter, ParameterType};
use osc_bridge::speech::{CommandMapping, SpeechState};

fn mapping(ct: &str, pn: &str, value: f32) -> CommandMapping {
    CommandMapping {
        command_text: ct.to_string(),
        parameter_name: pn.to_string(),
        value_bits: value.to_bits(),
    }
}

fn entries_of(s: &SpeechState) -> Vec<(String, Vec<(String, String, u32)>)> {
    s.entries()
        .into_iter()
        .map(|(lang, ms)| {
            (
                lang,
                ms.into_iter()
                    .map(|m| (m.command_text, m.parameter_name, m.value_bits))
                    .collect(),
            )
        })
        .collect()
}

#[test]
fn unknown_language_is_empty_not_an_error() {
    let s = SpeechState::new();
    assert!(s.get_commands("xx").is_empty());
}

#[test]
fn add_and_get_keep_order() {
    let mut s = SpeechState::new();
    s.add_command_mapping("en", mapping("lights on", "light", 1.0));
    s.add_command_mapping("en", mapping("lights off", "light", 0.0));
    s.add_command_mapping("de", mapping("licht an", "light", 1.0));
    let en = s.get_commands("en");
    assert_eq!(en.len(), 2);
    assert_eq!(en[0].command_text, "lights on");
    assert_eq!(en[1].command_text, "lights off");
    assert_eq!(s.get_commands("de").len(), 1);
}

#[test]
fn upsert_is_idempotent_and_replaces_in_place() {
    let mut s = SpeechState::new();
    s.add_command_mapping("en", mapping("a", "p", 1.0));
    s.add_command_mapping("en", mapping("b", "q", 2.0));
    let first = entries_of(&s);

    // A second identical upsert leaves the registry byte-for-byte the same.
    s.add_command_mapping("en", mapping("b", "q", 2.0));
    assert_eq!(entries_of(&s), first);
    assert_eq!(s.get_commands("en").len(), 2);

    // Same key, new value: replaced in place, position kept.
    s.add_command_mapping("en", mapping("a", "p", 5.0));
    let en = s.get_commands("en");
    assert_eq!(en.len(), 2);
    assert_eq!(en[0].command_text, "a");
    assert_eq!(en[0].value_bits, 5.0f32.to_bits());
    assert_eq!(en[1].command_text, "b");
}

#[test]
fn remove_reports_whether_anything_went() {
    let mut s = SpeechState::new();
    s.add_command_mapping("en", mapping("a", "p", 1.0));
    s.add_command_mapping("en", mapping("b", "q", 2.0));
    assert!(!s.remove_command_mapping("en", "a", "q"));
    assert!(!s.remove_command_mapping("fr", "a", "p"));
    assert!(s.remove_command_mapping("en", "a", "p"));
    assert!(!s.remove_command_mapping("en", "a", "p"));
    let en = s.get_commands("en");
    assert_eq!(en.len(), 1);
    assert_eq!(en[0].command_text, "b");
}

#[test]
fn from_entries_collapses_duplicate_keys() {
    let raw = vec![
        (
            "en".to_string(),
            vec![mapping("a", "p", 1.0), mapping("a", "p", 3.0), mapping("b", "q", 2.0)],
        ),
        ("de".to_string(), vec![mapping("x", "y", 0.0)]),
    ];
    let s = SpeechState::from_entries(&raw);
    let en = s.get_commands("en");
    assert_eq!(en.len(), 2);
    assert_eq!(en[0].command_text, "a");
    assert_eq!(en[0].value_bits, 3.0f32.to_bits());
    assert_eq!(s.get_commands("de").len(), 1);
}

#[test]
fn from_entries_of_nothing_is_empty() {
    let s = SpeechState::from_entries(&Vec::new());
    assert!(s.entries().is_empty());
    assert!(s.get_commands("en").is_empty());
}

#[test]
fn matching_is_case_insensitive_and_substring_based() {
    let mut s = SpeechState::new();
    s.add_command_mapping("en", mapping("lights on", "light", 1.0));
    let osc = OscState::new();
    let plan = s.process_speech_input("Please turn the Lights On now", "en", &osc);
    assert_eq!(plan.len(), 1);
    assert_eq!(plan[0].command_text, "lights on");
    assert_eq!(plan[0].parameter_name, "light");

    assert!(s.process_speech_input("turn the lights off", "en", &osc).is_empty());
    assert!(s.process_speech_input("Please turn the Lights On now", "xx", &osc).is_empty());
}

#[test]
fn one_input_may_match_many_mappings() {
    let mut s = SpeechState::new();
    s.add_command_mapping("en", mapping("red", "color_red", 1.0));
    s.add_command_mapping("en", mapping("blue", "color_blue", 1.0));
    s.add_command_mapping("en", mapping("red and blue", "color_mix", 1.0));
    let osc = OscState::new();
    let plan = s.process_speech_input("make it red and blue please", "en", &osc);
    assert_eq!(plan.len(), 3);
    assert_eq!(plan[0].parameter_name, "color_red");
    assert_eq!(plan[1].parameter_name, "color_blue");
    assert_eq!(plan[2].parameter_name, "color_mix");
}

#[test]
fn unknown_parameter_is_sent_as_float() {
    // Registry knows "flash" -> toggle = 1.0; the store has never seen
    // "toggle", so the send is typed Float, not Bool.
    let mut s = SpeechState::new();
    s.add_command_mapping("en", mapping("flash", "toggle", 1.0));
    let osc = OscState::new();
    let plan = s.process_speech_input("please flash it", "en", &osc);
    assert_eq!(plan.len(), 1);
    assert!(matches!(plan[0].kind, ParameterType::Float));
    assert_eq!(plan[0].value_bits, 1.0f32.to_bits());
    assert_eq!(
        plan[0].packet,
        encode_parameter("toggle", ParameterType::Float, 1.0f32.to_bits())
    );
    // The result line the host sees is rendered from these fields.
    let line = format!(
        "{} -> {}: {}",
        plan[0].command_text,
        plan[0].parameter_name,
        f32::from_bits(plan[0].value_bits)
    );
    assert_eq!(line, "flash -> toggle: 1");
}

#[test]
fn known_parameter_kind_is_used() {
    let mut s = SpeechState::new();
    s.add_command_mapping("en", mapping("flash", "toggle", 1.0));
    let mut osc = OscState::new();
    osc.update_parameter(Parameter {
        name: "toggle".to_string(),
        parameter_type: ParameterType::Bool,
        value_bits: 0,
    });
    let plan = s.process_speech_input("please flash it", "en", &osc);
    assert_eq!(plan.len(), 1);
    assert!(matches!(plan[0].kind, ParameterType::Bool));
    assert_eq!(
        plan[0].packet,
        encode_parameter("toggle", ParameterType::Bool, 1.0f32.to_bits())
    );
}
