use lv2_state::instance::{GetValue, Instance, InstanceProperty, SetValue};
use lv2_state::scale_point::ScalePoint;
use lv2_state::state::State;
use lv2_state::urid::UridMap;

struct ConstGet {
    ty: u32,
    data: Vec<u8>,
    calls: usize,
}

impl GetValue for ConstGet {
    fn get_value(&mut self, _port_symbol: &str) -> (u32, Vec<u8>) {
        self.calls += 1;
        (self.ty, self.data.clone())
    }
}

struct RecordSet {
    got: Vec<(String, u32, Vec<u8>)>,
}

impl SetValue for RecordSet {
    fn set_value(&mut self, port_symbol: &str, type_: u32, value: &Vec<u8>) {
        self.got.push((port_symbol.to_owned(), type_, value.clone()));
    }
}

fn amp_instance() -> Instance {
    Instance {
        plugin_uri: String::from("http://lv2plug.in/plugins/eg-amp"),
        properties: Vec::new(),
        port_symbols: Vec::new(),
    }
}

fn sampler_instance() -> Instance {
    Instance {
        plugin_uri: String::from("http://lv2plug.in/plugins/eg-sampler"),
        properties: vec![
            InstanceProperty {
                key: String::from("http://lv2plug.in/plugins/eg-sampler#sample"),
                type_uri: String::from("http://lv2plug.in/ns/ext/atom#Path"),
                value: b"/tmp/click.wav".to_vec(),
            },
            InstanceProperty {
                key: String::from("http://lv2plug.in/plugins/eg-sampler#gain"),
                type_uri: String::from("http://lv2plug.in/ns/ext/atom#Float"),
                value: vec![0, 0, 128, 63],
            },
        ],
        port_symbols: vec![String::from("control"), String::from("notify")],
    }
}

#[test]
fn test_new_from_world() {
    let world: Vec<State> = Vec::new();
    let state = State::new_from_world(&world, "http://lv2plug.in/plugins/eg-sampler#sample");
    assert!(state.is_none());
}

#[test]
fn test_new_from_instance() {
    let mut map = UridMap::new();
    let instance = amp_instance();
    let state =
        State::new_from_instance::<ConstGet>(&instance, &mut map, None, 0);
    assert!(state.is_some());
}

#[test]
fn round_trip_nonempty_properties() {
    let mut map = UridMap::new();
    let instance = sampler_instance();
    let float_ty = map.map("http://lv2plug.in/ns/ext/atom#Float");
    let mut get = ConstGet { ty: float_ty, data: vec![1, 2, 3], calls: 0 };
    let state =
        State::new_from_instance(&instance, &mut map, Some(&mut get), 0).unwrap();
    assert!(state.num_properties() == 2);

    let text = state
        .to_string(&map, "http://example.org/snapshot", None)
        .unwrap();
    let reloaded = State::new_from_string(&mut map, &text).unwrap();
    assert!(state.equals(&reloaded));
    assert!(reloaded.equals(&state));
    assert_eq!(reloaded.plugin_uri(), state.plugin_uri());
}

#[test]
fn identity_defaulting() {
    let mut map = UridMap::new();
    let instance = sampler_instance();
    let state =
        State::new_from_instance::<ConstGet>(&instance, &mut map, None, 0).unwrap();
    assert!(state.uri().is_none());

    let text = state
        .to_string(&map, "http://example.org/snapshot-a", None)
        .unwrap();
    let reloaded = State::new_from_string(&mut map, &text).unwrap();
    assert_eq!(
        reloaded.uri().as_deref(),
        Some("http://example.org/snapshot-a")
    );
}

#[test]
fn label_independence() {
    let mut map = UridMap::new();
    let instance = sampler_instance();
    let mut state =
        State::new_from_instance::<ConstGet>(&instance, &mut map, None, 0).unwrap();

    // Serialize before the label exists, then change the label.
    let text = state.to_string(&map, "http://example.org/s", None).unwrap();
    state.set_label("a fresh label");
    assert_eq!(state.label().as_deref(), Some("a fresh label"));

    let reloaded = State::new_from_string(&mut map, &text).unwrap();
    assert!(state.equals(&reloaded));
}

#[test]
fn label_survives_round_trip() {
    let mut map = UridMap::new();
    let instance = sampler_instance();
    let mut state =
        State::new_from_instance::<ConstGet>(&instance, &mut map, None, 0).unwrap();
    state.set_label("preset one");
    let text = state.to_string(&map, "http://example.org/p1", None).unwrap();
    let reloaded = State::new_from_string(&mut map, &text).unwrap();
    assert_eq!(reloaded.label().as_deref(), Some("preset one"));
}

#[test]
fn null_accessor_safety() {
    let mut map = UridMap::new();
    let instance = sampler_instance();

    // Capture without an accessor: succeeds, port values are simply omitted.
    let state =
        State::new_from_instance::<ConstGet>(&instance, &mut map, None, 0).unwrap();
    assert_eq!(state.num_port_values(), 0);

    // Restore and emission without an accessor: nothing fails, nothing runs.
    let mut target = sampler_instance();
    state.restore::<RecordSet>(&map, &mut target, None, 0);
    let emitted = state.emit_port_values::<RecordSet>(None);
    assert_eq!(emitted, 0);
}

#[test]
fn capture_invokes_accessor_once_per_port() {
    let mut map = UridMap::new();
    let instance = sampler_instance();
    let mut get = ConstGet { ty: 9, data: vec![42], calls: 0 };
    let state =
        State::new_from_instance(&instance, &mut map, Some(&mut get), 0).unwrap();
    assert_eq!(get.calls, 2);
    assert_eq!(state.num_port_values(), 2);
}

#[test]
fn load_failure_containment() {
    let mut map = UridMap::new();
    assert!(State::new_from_string(&mut map, "").is_none());
    assert!(State::new_from_string(&mut map, "not a state document").is_none());
    assert!(State::new_from_string(&mut map, "zzzzzzzzzzzzzzzz").is_none());
    // Sixteen valid digits announcing a string that is not there.
    assert!(State::new_from_string(&mut map, "00000000000000ff").is_none());
}

#[test]
fn trailing_garbage_is_malformed() {
    let mut map = UridMap::new();
    let instance = amp_instance();
    let state =
        State::new_from_instance::<ConstGet>(&instance, &mut map, None, 0).unwrap();
    let mut text = state.to_string(&map, "http://example.org/t", None).unwrap();
    text.push('x');
    assert!(State::new_from_string(&mut map, &text).is_none());
}

#[test]
fn mapping_determinism() {
    let mut map = UridMap::new();
    let instance = sampler_instance();
    let first =
        State::new_from_instance::<ConstGet>(&instance, &mut map, None, 0).unwrap();
    let second =
        State::new_from_instance::<ConstGet>(&instance, &mut map, None, 0).unwrap();
    assert!(first.equals(&second));

    let text_a = first.to_string(&map, "http://example.org/x", None).unwrap();
    let text_b = second.to_string(&map, "http://example.org/x", None).unwrap();
    assert_eq!(text_a, text_b);
}

#[test]
fn world_lookup_finds_loaded_state() {
    let mut map = UridMap::new();
    let instance = sampler_instance();
    let state =
        State::new_from_instance::<ConstGet>(&instance, &mut map, None, 0).unwrap();
    let text = state.to_string(&map, "http://example.org/w1", None).unwrap();
    let loaded = State::new_from_string(&mut map, &text).unwrap();

    let world = vec![loaded];
    let found = State::new_from_world(&world, "http://example.org/w1").unwrap();
    assert!(found.equals(&state));
    assert!(State::new_from_world(&world, "http://example.org/other").is_none());
}

#[test]
fn capture_rejects_unusable_instance() {
    let mut map = UridMap::new();
    let instance = Instance {
        plugin_uri: String::new(),
        properties: Vec::new(),
        port_symbols: Vec::new(),
    };
    let state = State::new_from_instance::<ConstGet>(&instance, &mut map, None, 0);
    assert!(state.is_none());
}

#[test]
fn set_metadata_statuses() {
    let mut map = UridMap::new();
    let instance = amp_instance();
    let mut state =
        State::new_from_instance::<ConstGet>(&instance, &mut map, None, 0).unwrap();
    let k = map.map("http://example.org/meta#comment");
    let t = map.map("http://lv2plug.in/ns/ext/atom#String");
    assert_eq!(state.set_metadata(k, t, b"hello".to_vec()), 0);
    assert_eq!(state.set_metadata(0, t, b"bad".to_vec()), 1);
    assert_eq!(state.set_metadata(k, 0, b"bad".to_vec()), 1);
}

#[test]
fn equality_sees_configuration_changes() {
    let mut map = UridMap::new();
    let a = sampler_instance();
    let mut b = sampler_instance();
    b.properties[1].value = vec![0, 0, 0, 64];
    let sa = State::new_from_instance::<ConstGet>(&a, &mut map, None, 0).unwrap();
    let sb = State::new_from_instance::<ConstGet>(&b, &mut map, None, 0).unwrap();
    assert!(!sa.equals(&sb));
}

#[test]
fn equality_sees_port_value_changes() {
    let mut map = UridMap::new();
    let instance = sampler_instance();
    let mut g1 = ConstGet { ty: 3, data: vec![1], calls: 0 };
    let mut g2 = ConstGet { ty: 3, data: vec![2], calls: 0 };
    let sa = State::new_from_instance(&instance, &mut map, Some(&mut g1), 0).unwrap();
    let sb = State::new_from_instance(&instance, &mut map, Some(&mut g2), 0).unwrap();
    assert!(!sa.equals(&sb));
}

#[test]
fn restore_writes_properties_back() {
    let mut map = UridMap::new();
    let instance = sampler_instance();
    let state =
        State::new_from_instance::<ConstGet>(&instance, &mut map, None, 0).unwrap();

    // A target whose sample property differs and whose gain is missing.
    let mut target = Instance {
        plugin_uri: String::from("http://lv2plug.in/plugins/eg-sampler"),
        properties: vec![InstanceProperty {
            key: String::from("http://lv2plug.in/plugins/eg-sampler#sample"),
            type_uri: String::from("http://lv2plug.in/ns/ext/atom#Path"),
            value: b"/tmp/other.wav".to_vec(),
        }],
        port_symbols: Vec::new(),
    };
    state.restore::<RecordSet>(&map, &mut target, None, 0);
    assert_eq!(target.properties.len(), 2);
    assert_eq!(target.properties[0].value, b"/tmp/click.wav".to_vec());
    assert_eq!(
        target.properties[1].key,
        "http://lv2plug.in/plugins/eg-sampler#gain"
    );
}

#[test]
fn restore_and_emit_hand_port_values_over() {
    let mut map = UridMap::new();
    let instance = sampler_instance();
    let mut get = ConstGet { ty: 11, data: vec![5, 6], calls: 0 };
    let state =
        State::new_from_instance(&instance, &mut map, Some(&mut get), 0).unwrap();

    let mut sink = RecordSet { got: Vec::new() };
    let emitted = state.emit_port_values(Some(&mut sink));
    assert_eq!(emitted, 2);
    assert_eq!(sink.got.len(), 2);
    assert_eq!(sink.got[0].0, "control");
    assert_eq!(sink.got[1].0, "notify");
    assert_eq!(sink.got[0].1, 11);
    assert_eq!(sink.got[0].2, vec![5, 6]);

    let mut sink2 = RecordSet { got: Vec::new() };
    let mut target = sampler_instance();
    state.restore(&map, &mut target, Some(&mut sink2), 0);
    assert_eq!(sink2.got.len(), 2);
}

#[test]
fn unicode_content_round_trips() {
    let mut map = UridMap::new();
    let instance = Instance {
        plugin_uri: String::from("http://example.org/plugins/ünïcødé-植物"),
        properties: vec![InstanceProperty {
            key: String::from("http://example.org/p#clé"),
            type_uri: String::from("http://example.org/t#Tëxt"),
            value: Vec::new(),
        }],
        port_symbols: Vec::new(),
    };
    let mut state =
        State::new_from_instance::<ConstGet>(&instance, &mut map, None, 0).unwrap();
    state.set_label("étiquette 標籤");
    let text = state.to_string(&map, "http://example.org/ûri", None).unwrap();
    let reloaded = State::new_from_string(&mut map, &text).unwrap();
    assert!(state.equals(&reloaded));
    assert_eq!(reloaded.plugin_uri(), state.plugin_uri());
    assert_eq!(reloaded.label().as_deref(), Some("étiquette 標籤"));
    assert_eq!(reloaded.uri().as_deref(), Some("http://example.org/ûri"));
}

#[test]
fn urid_map_issues_stable_identifiers() {
    let mut map = UridMap::new();
    let a = map.map("http://example.org/a");
    let b = map.map("http://example.org/b");
    let a_again = map.map("http://example.org/a");
    assert_eq!(a, 1);
    assert_eq!(b, 2);
    assert_eq!(a_again, a);
    assert_eq!(map.len(), 2);
    assert_eq!(map.unmap(a).map(|s| s.as_str()), Some("http://example.org/a"));
    assert_eq!(map.unmap(b).map(|s| s.as_str()), Some("http://example.org/b"));
    assert!(map.unmap(0).is_none());
    assert!(map.unmap(3).is_none());
}

#[test]
fn to_string_rejects_unknown_tags() {
    let mut map = UridMap::new();
    let instance = amp_instance();
    let mut state =
        State::new_from_instance::<ConstGet>(&instance, &mut map, None, 0).unwrap();
    // A metadata tag the mapping never issued cannot be serialized.
    assert_eq!(state.set_metadata(40, 41, b"x".to_vec()), 0);
    assert!(state.to_string(&map, "http://example.org/u", None).is_none());
}

#[test]
fn metadata_upserts_and_round_trips() {
    let mut map = UridMap::new();
    let instance = amp_instance();
    let mut state =
        State::new_from_instance::<ConstGet>(&instance, &mut map, None, 0).unwrap();
    let k = map.map("http://example.org/meta#comment");
    let t = map.map("http://lv2plug.in/ns/ext/atom#String");
    assert_eq!(state.set_metadata(k, t, b"first".to_vec()), 0);
    assert_eq!(state.set_metadata(k, t, b"second".to_vec()), 0);
    assert_eq!(state.num_metadata(), 1);

    let text = state.to_string(&map, "http://example.org/m", None).unwrap();
    let reloaded = State::new_from_string(&mut map, &text).unwrap();
    assert_eq!(reloaded.num_metadata(), 1);
    assert!(state.equals(&reloaded));
}

#[test]
fn scale_point_accessors() {
    let point = ScalePoint::new(String::from("Loud"), String::from("11"));
    assert_eq!(point.get_label().as_str(), "Loud");
    assert_eq!(point.get_value().as_str(), "11");
}
