use wings::config::Config;
use wings::store::{action_for, default_config_text, load, LoadAction, OpenStatus};

#[test]
fn missing_resource_is_created_with_defaults() {
    let loaded = load(None);
    let created = loaded.create.unwrap();
    assert_eq!(created, b"vertical_resolution=1080\nhorizontal_resolution=1920\nfps_max=60".to_vec());
    let parsed = loaded.outcome.unwrap();
    assert_eq!(
        parsed.config,
        Config { horizontal_resolution: 1920, vertical_resolution: 1080, fps_max: 60, reserved: 0 }
    );
    assert!(parsed.unknown.is_empty());
}

#[test]
fn default_text_is_the_default_triple() {
    assert_eq!(
        default_config_text(),
        b"vertical_resolution=1080\nhorizontal_resolution=1920\nfps_max=60".to_vec()
    );
}

#[test]
fn loading_twice_gives_equal_results_and_writes_nothing() {
    let resource = b"horizontal_resolution=800\nvertical_resolution=600\nfps_max=30".to_vec();
    let first = load(Some(&resource));
    let second = load(Some(&resource));
    assert!(first.create.is_none());
    assert!(second.create.is_none());
    assert_eq!(first, second);
    assert_eq!(
        first.outcome.unwrap().config,
        Config { horizontal_resolution: 800, vertical_resolution: 600, fps_max: 30, reserved: 0 }
    );
}

#[test]
fn second_load_after_creation_reads_the_same() {
    let first = load(None);
    let written = first.create.clone().unwrap();
    let second = load(Some(&written));
    assert!(second.create.is_none());
    assert_eq!(first.outcome, second.outcome);
}

#[test]
fn open_failures_decide_the_next_step() {
    assert_eq!(action_for(OpenStatus::Opened), LoadAction::Read);
    assert_eq!(action_for(OpenStatus::NotFound), LoadAction::CreateDefault);
    assert_eq!(action_for(OpenStatus::Failed), LoadAction::Abort);
}
