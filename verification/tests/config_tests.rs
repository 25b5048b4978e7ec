use walkie_talkie_engine::config::{
    map_sample_rate, AudioConfig, AudioError, SampleRate, JITTER_BUFFER_START_THRESHOLD,
    JITTER_LOOKAHEAD_WINDOW, MAX_BUFFER_SIZE, OPUS_OUT_BUFFER_SIZE, PEER_SILENCE_LIMIT,
    PEER_TIMEOUT_FRAMES,
};

#[test]
fn default_config_values() {
    let config = AudioConfig::default();
    assert_eq!(config.sample_rate, 48000);
    assert_eq!(config.frame_size_ms, 60);
    assert_eq!(config.jitter_buffer_ms, 1000);
    assert_eq!(config.input_device_id, 0);
    assert_eq!(config.output_device_id, 0);
}

#[test]
fn default_config_geometry() {
    let config = AudioConfig::default();
    assert!(config.is_well_formed());
    assert_eq!(config.samples_per_frame(), 2880);
    assert_eq!(config.max_jitter_packets(), 16);
}

#[test]
fn geometry_uses_whole_samples_per_millisecond() {
    let config = AudioConfig {
        sample_rate: 44100,
        frame_size_ms: 20,
        jitter_buffer_ms: 250,
        input_device_id: 0,
        output_device_id: 0,
    };
    assert!(config.is_well_formed());
    assert_eq!(config.samples_per_frame(), 880);
    assert_eq!(config.max_jitter_packets(), 12);
}

#[test]
fn geometry_of_narrowband_config() {
    let config = AudioConfig {
        sample_rate: 8000,
        frame_size_ms: 20,
        jitter_buffer_ms: 0,
        input_device_id: 3,
        output_device_id: 4,
    };
    assert!(config.is_well_formed());
    assert_eq!(config.samples_per_frame(), 160);
    assert_eq!(config.max_jitter_packets(), 0);
}

#[test]
fn ill_formed_configs_are_recognised() {
    let base = AudioConfig::default();
    assert!(!AudioConfig { frame_size_ms: 0, ..base }.is_well_formed());
    assert!(!AudioConfig { frame_size_ms: -60, ..base }.is_well_formed());
    assert!(!AudioConfig { sample_rate: -1, ..base }.is_well_formed());
    assert!(!AudioConfig { jitter_buffer_ms: -1, ..base }.is_well_formed());
    assert!(!AudioConfig { sample_rate: i32::MAX, frame_size_ms: i32::MAX, ..base }.is_well_formed());
    assert!(AudioConfig { sample_rate: 0, ..base }.is_well_formed());
    assert!(AudioConfig { sample_rate: i32::MAX, frame_size_ms: 1000, ..base }.is_well_formed());
    assert!(!AudioConfig { sample_rate: i32::MAX, frame_size_ms: 1001, ..base }.is_well_formed());
}

#[test]
fn sample_rate_mapping() {
    assert_eq!(map_sample_rate(8000), SampleRate::Hz8000);
    assert_eq!(map_sample_rate(12000), SampleRate::Hz12000);
    assert_eq!(map_sample_rate(16000), SampleRate::Hz16000);
    assert_eq!(map_sample_rate(24000), SampleRate::Hz24000);
    assert_eq!(map_sample_rate(48000), SampleRate::Hz48000);
}

#[test]
fn unsupported_sample_rates_fall_back_to_48k() {
    for hz in [0, -8000, 1, 44100, 22050, 96000, i32::MAX, i32::MIN] {
        assert_eq!(map_sample_rate(hz), SampleRate::Hz48000);
    }
}

#[test]
fn sample_rate_in_hertz() {
    assert_eq!(SampleRate::Hz8000.hz(), 8000);
    assert_eq!(SampleRate::Hz12000.hz(), 12000);
    assert_eq!(SampleRate::Hz16000.hz(), 16000);
    assert_eq!(SampleRate::Hz24000.hz(), 24000);
    assert_eq!(SampleRate::Hz48000.hz(), 48000);
}

#[test]
fn error_messages() {
    assert_eq!(AudioError::DeviceError.message(), "Failed to open audio device");
    assert_eq!(AudioError::EncoderError.message(), "Failed to encode audio");
    assert_eq!(AudioError::DecoderError.message(), "Failed to decode audio");
}

#[test]
fn tuning_constants() {
    assert_eq!(MAX_BUFFER_SIZE, 5760);
    assert_eq!(OPUS_OUT_BUFFER_SIZE, 512);
    assert_eq!(PEER_TIMEOUT_FRAMES, 50);
    assert_eq!(PEER_SILENCE_LIMIT, 250);
    assert_eq!(JITTER_BUFFER_START_THRESHOLD, 6);
    assert_eq!(JITTER_LOOKAHEAD_WINDOW, 10);
}
