use javy_plugin::config::RuntimeConfig;

#[test]
fn config_starts_with_everything_disabled() {
    let c = RuntimeConfig::new();
    assert!(!c.enable_event_loop);
    assert!(!c.enable_text_encoding);
    assert!(!c.enable_stream_io);
}

#[test]
fn config_builder_sets_capabilities() {
    let c = RuntimeConfig::new().event_loop(true).text_encoding(true).stream_io(true);
    assert!(c.enable_event_loop);
    assert!(c.enable_text_encoding);
    assert!(c.enable_stream_io);
}

#[test]
fn config_builder_sets_each_flag_independently() {
    let c = RuntimeConfig::new().event_loop(true);
    assert!(c.enable_event_loop);
    assert!(!c.enable_text_encoding);
    assert!(!c.enable_stream_io);
    let c = c.event_loop(false).stream_io(true);
    assert!(!c.enable_event_loop);
    assert!(c.enable_stream_io);
}
