use sonic_bridge::config::{resolve_cache_path, resolve_config_path};
use sonic_bridge::decoder::{AudioDecoder, TARGET_SAMPLE_RATE};

#[test]
fn config_path_prefers_xdg_home() {
    assert_eq!(
        resolve_config_path(Some("/xdg"), Some("/home/u")),
        "/xdg/sonic-bridge/config.toml"
    );
    assert_eq!(
        resolve_config_path(None, Some("/home/u")),
        "/home/u/.config/sonic-bridge/config.toml"
    );
    assert_eq!(resolve_config_path(None, None), "./sonic-bridge/config.toml");
    assert!(resolve_config_path(None, Some("/h")).contains("sonic-bridge"));
}

#[test]
fn cache_path_prefers_xdg_cache() {
    assert_eq!(resolve_cache_path(Some("/c"), Some("/home/u")), "/c/sonic-bridge");
    assert_eq!(resolve_cache_path(None, Some("/home/u")), "/home/u/.cache/sonic-bridge");
    assert_eq!(resolve_cache_path(None, None), "./sonic-bridge");
}

#[test]
fn decoder_settings() {
    let d = AudioDecoder::new("tests/fixtures/mock.wav").unwrap();
    assert_eq!(d.sample_rate(), 22050);
    assert_eq!(TARGET_SAMPLE_RATE, 22050);
    assert_eq!(d.path(), "tests/fixtures/mock.wav");
}
