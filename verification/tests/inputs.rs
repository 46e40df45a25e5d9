use shokushu::audio::{
    describe, describe_inputs, find_device, list_devices, Config, Error, Input,
};

fn input(name: &str, id: &str) -> Input {
    Input { name: Some(name.to_string()), id: Some(id.to_string()) }
}

#[test]
fn an_input_is_found_by_part_of_its_name_in_any_case() {
    let inputs = [input("Built-in", "hw:0"), input("External Microphone", "hw:1")];
    assert_eq!(find_device(&inputs, "EXTERN").unwrap(), 1);
    assert_eq!(find_device(&inputs, "HW:0").unwrap(), 0);
}

#[test]
fn nothing_matching_says_what_was_asked_for() {
    let inputs = [input("Built-in", "hw:0")];
    let error = find_device(&inputs, "a \"b\"").unwrap_err();
    assert!(matches!(&error, Error::NoMatch(want) if want == "a \"b\""));
    assert_eq!(
        error.to_string(),
        format!("no input device matches {:?}", "a \"b\"")
    );
}

#[test]
fn two_matches_are_not_guessed_between() {
    let inputs = [input("Mic one", "x"), input("Line", "y"), input("Mic two", "z")];
    let Err(error) = find_device(&inputs, "mic") else {
        panic!("guessed");
    };
    assert_eq!(
        error.to_string(),
        "\"mic\" matches several input devices: Mic one, Mic two"
    );
}

#[test]
fn an_input_without_a_name_is_still_listed() {
    let unnamed = Input { name: None, id: None };
    assert_eq!(describe(&unnamed), "<unnamed>");
    let inputs = [
        (
            input("Mic", "hw:1"),
            Config::Given {
                sample_rate: 48_000,
                channels: 2,
                sample_format: "f32".to_string(),
            },
        ),
        (unnamed, Config::Refused("busy".to_string())),
    ];
    let lines = describe_inputs(&inputs, Some("hw:1".to_string()));
    assert_eq!(
        list_devices(&lines),
        "input devices:\n* Mic\n    id: hw:1\n    48000 Hz, 2 ch, f32\n  <unnamed>\n    id: \n    \
         no input config: busy\n\n* = default. Pass an id or part of a name to --device.\n"
    );
}

#[test]
fn each_refusal_of_an_input_has_its_words() {
    assert_eq!(Error::NoDefaultInput.to_string(), "no default input device");
    assert_eq!(
        Error::UnsupportedFormat("i24".to_string()).to_string(),
        "unsupported sample format i24"
    );
    let refused = Error::Cpal {
        context: "opening the input stream".to_string(),
        source: "busy".to_string(),
    };
    assert_eq!(refused.to_string(), "opening the input stream: busy");
}
