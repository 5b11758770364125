use agentenv::startup_pack::config::{
    pack_files, recording_enabled_for, recording_image_config, DownloadConfig, ImageConfig,
    LayerConfig, SnapshotConfig, SnapshotRepositoryBackendKind, SnapshotStartupPackConfig,
};
use agentenv::startup_pack::digest::{hex_sha256, to_hex};
use agentenv::startup_pack::identity::{local_prefetch_identity, FinalLayerSource};
use agentenv::startup_pack::prepare::{
    local_layers, prepare_local_prefetch, PrepareError, PrepareStage, ResolvedStartupPack,
    ResolvedStartupPackSource, StartupManifest, StartupRange,
};
use agentenv::startup_pack::recording::{
    PackRecordingState, RecordingAction, RecordingEvent, RecordingPhase,
};

#[test]
fn recording_gate_uses_feature_enablement_for_all_backends() {
    fn startup_pack_config(enabled: bool) -> SnapshotStartupPackConfig {
        SnapshotStartupPackConfig {
            enabled,
            record_min_window_ms: 200,
            record_quiet_ms: 300,
            record_max_window_ms: 2000,
            record_budget_secs: 10,
            max_pack_bytes: 1 << 30,
            consume_enabled: false,
            consume_timeout_secs: 30,
        }
    }

    let default_config = SnapshotConfig::default();
    assert!(
        !recording_enabled_for(&default_config),
        "feature must be off by default"
    );

    let posix_enabled = SnapshotConfig {
        repository_backend: SnapshotRepositoryBackendKind::PosixFs,
        memory_startup_pack: startup_pack_config(true),
        ..Default::default()
    };
    assert!(
        recording_enabled_for(&posix_enabled),
        "enabled=true with posix_fs backend must record"
    );

    let oss_enabled = SnapshotConfig {
        repository_backend: SnapshotRepositoryBackendKind::Oss,
        memory_startup_pack: startup_pack_config(true),
        ..Default::default()
    };
    assert!(
        recording_enabled_for(&oss_enabled),
        "enabled=true with oss backend must record"
    );

    let oss_disabled = SnapshotConfig {
        repository_backend: SnapshotRepositoryBackendKind::Oss,
        memory_startup_pack: startup_pack_config(false),
        ..Default::default()
    };
    assert!(
        !recording_enabled_for(&oss_disabled),
        "enabled=false with oss backend must NOT record"
    );
}

#[test]
fn recording_variant_keeps_the_layers_and_disables_download() {
    let config = ImageConfig {
        repo_blob_url: "https://example/v2/repo/blobs".to_string(),
        lowers: vec![LayerConfig {
            file: "/layers/a.commit".to_string(),
            digest: "sha256:a".to_string(),
            size: 4096,
        }],
        download_override: Some(DownloadConfig { enable: true }),
    };
    let derived = recording_image_config(config.clone());
    assert_eq!(
        derived,
        ImageConfig {
            download_override: Some(DownloadConfig { enable: false }),
            ..config
        }
    );
}

#[test]
fn failed_recording_leaves_three_files_to_remove() {
    assert_eq!(
        pack_files(b"/s/memory-startup.trace", b"/s/mem_image.pack-rec.json"),
        vec![
            b"/s/memory-startup.trace".to_vec(),
            b"/s/memory-startup.trace.tmp".to_vec(),
            b"/s/mem_image.pack-rec.json".to_vec(),
        ]
    );
}

#[test]
fn local_prefetch_identity_includes_actual_layer_source() {
    let layers = |path: &str| {
        vec![FinalLayerSource {
            digest: "sha256:layer".to_owned(),
            size: 4096,
            path: path.to_owned(),
        }]
    };
    assert_ne!(
        local_prefetch_identity("pack", &layers("/repository-a/layer")),
        local_prefetch_identity("pack", &layers("/repository-b/layer")),
        "different local layers must not share a physical prefetch task"
    );
}

#[test]
fn identity_lists_the_layers_in_order() {
    let layer = |digest: &str, size: u64, path: &str| FinalLayerSource {
        digest: digest.to_owned(),
        size,
        path: path.to_owned(),
    };
    assert_eq!(
        local_prefetch_identity("p", &[layer("d", 10, "/x"), layer("e", 0, "/y")]),
        "p|d:10:/x|e:0:/y"
    );
    assert_eq!(local_prefetch_identity("p", &[]), "p|");
    assert_eq!(
        local_prefetch_identity("p", &[layer("", u64::MAX, "")]),
        "p|:18446744073709551615:"
    );
    assert_eq!(
        local_prefetch_identity("p", &[layer("a", 1, "/b:2:c")]),
        local_prefetch_identity("p", &[layer("a:1:/b", 2, "c")]),
        "a colon within a path is not told from a separator"
    );
}

#[test]
fn digests_are_those_of_sha256() {
    assert_eq!(
        hex_sha256(b"abc"),
        "ba7816bf8f01cfea414140de5dae2223b00361a396177a9cb410ff61f20015ad"
    );
    assert_eq!(
        hex_sha256(b""),
        "e3b0c44298fc1c149afbf4c8996fb92427ae41e4649b934ca495991b7852b855"
    );
    assert_eq!(to_hex(&[0, 15, 16, 255]), "000f10ff");
    assert_ne!(to_hex(&[1]), to_hex(&[16]));
}

fn pack(bytes: &[u8]) -> ResolvedStartupPack {
    ResolvedStartupPack {
        source: ResolvedStartupPackSource::LocalPath(b"/s/memory-startup.pack".to_vec()),
        pack_size: bytes.len() as u64,
        mem_virtual_size: 4096,
        index_sha256: hex_sha256(bytes),
    }
}

#[test]
fn cancelled_preparation_looks_at_nothing() {
    assert_eq!(
        PrepareStage::Begun.begin(&pack(b""), true),
        PrepareStage::Skipped
    );
    let remote = ResolvedStartupPack {
        source: ResolvedStartupPackSource::Remote,
        ..pack(b"")
    };
    assert_eq!(
        PrepareStage::Begun.begin(&remote, false),
        PrepareStage::Skipped
    );
}

#[test]
fn direct_io_skips_before_the_manifest() {
    let pack = pack(b"x");
    let stage = PrepareStage::Begun.begin(&pack, false);
    assert_eq!(stage, PrepareStage::GlobalConfig);
    assert_eq!(stage.global_config_loaded(&pack, 2), PrepareStage::Skipped);
    assert_eq!(stage.global_config_loaded(&pack, 0), PrepareStage::Manifest);
}

#[test]
fn manifest_has_to_be_the_named_one() {
    let pack = pack(b"manifest");
    let stage = PrepareStage::Manifest;
    assert_eq!(
        stage.manifest_read(&pack, true, b"manifest"),
        PrepareStage::Skipped
    );
    assert_eq!(
        stage.manifest_read(&pack, false, b"manifesto"),
        PrepareStage::Refused {
            error: PrepareError::SizeChanged
        }
    );
    assert_eq!(
        stage.manifest_read(&pack, false, b"manifesT"),
        PrepareStage::Refused {
            error: PrepareError::DigestMismatch
        }
    );
    let stage = stage.manifest_read(&pack, false, b"manifest");
    assert_eq!(stage, PrepareStage::Decode);
    assert_eq!(
        stage.manifest_decoded(&pack, 8192),
        PrepareStage::Refused {
            error: PrepareError::MemorySizeMismatch
        }
    );
    let stage = stage.manifest_decoded(&pack, 4096);
    assert_eq!(stage, PrepareStage::Image);
    assert_eq!(stage.image_loaded(&pack, true), PrepareStage::Skipped);
    assert_eq!(stage.image_loaded(&pack, false), PrepareStage::Ready);
}

#[test]
fn digest_is_compared_as_text() {
    let pack = ResolvedStartupPack {
        index_sha256: "ab".to_string(),
        ..pack(b"")
    };
    assert_eq!(
        PrepareStage::Manifest.manifest_digested(&pack, &"ab".to_string()),
        PrepareStage::Decode
    );
    assert_eq!(
        PrepareStage::Manifest.manifest_digested(&pack, &"AB".to_string()),
        PrepareStage::Refused {
            error: PrepareError::DigestMismatch
        }
    );
}

#[test]
fn prepare_errors_say_what_is_wrong() {
    assert_eq!(
        PrepareError::SizeChanged.message(),
        "startup manifest size changed"
    );
    assert_eq!(
        PrepareError::DigestMismatch.message(),
        "startup manifest sha256 mismatch"
    );
    assert_eq!(
        PrepareError::MemorySizeMismatch.message(),
        "startup manifest memory size mismatch"
    );
}

#[test]
fn prepared_prefetch_reads_the_local_layers() {
    let lower = |file: &str, digest: &str| LayerConfig {
        file: file.to_string(),
        digest: digest.to_string(),
        size: 7,
    };
    let lowers = [lower("/a", "x"), lower("", "y"), lower("/b", "z")];
    let layers = local_layers(&lowers);
    assert_eq!(
        layers,
        vec![
            FinalLayerSource {
                digest: "x".to_string(),
                size: 7,
                path: "/a".to_string()
            },
            FinalLayerSource {
                digest: "z".to_string(),
                size: 7,
                path: "/b".to_string()
            },
        ]
    );
    let manifest = StartupManifest {
        mem_virtual_size: 4096,
        ranges: vec![StartupRange {
            offset: 0,
            len: 4096,
        }],
    };
    let pack = ResolvedStartupPack {
        index_sha256: "sha".to_string(),
        ..pack(b"")
    };
    let prepared = prepare_local_prefetch(
        PrepareStage::Ready,
        &pack,
        manifest.clone(),
        &lowers,
        1 << 30,
        30,
    );
    assert_eq!(prepared.identity, "sha|x:7:/a|z:7:/b");
    assert_eq!(prepared.layers, layers);
    assert_eq!(prepared.manifest, manifest);
    assert_eq!(prepared.max_pack_bytes, 1 << 30);
    assert_eq!(prepared.timeout_secs, 30);
}

fn actions(enabled: bool, events: &[RecordingEvent]) -> Vec<RecordingAction> {
    let mut phase = RecordingPhase::begin(enabled);
    let mut actions = vec![phase.action()];
    for event in events {
        phase = phase.advance(*event);
        actions.push(phase.action());
    }
    actions
}

const STARTED: [RecordingEvent; 4] = [
    RecordingEvent::ConfigDerived { succeeded: true },
    RecordingEvent::VmBuilt { succeeded: true },
    RecordingEvent::VmStarted { succeeded: true },
    RecordingEvent::DeviceLookedUp { device: Some(9) },
];

#[test]
fn recording_that_is_not_enabled_does_nothing() {
    assert_eq!(
        actions(false, &[]),
        vec![RecordingAction::Report { recorded: false }]
    );
}

#[test]
fn complete_recording_keeps_the_trace() {
    let mut events = STARTED.to_vec();
    events.extend([
        RecordingEvent::StatusPolled {
            state: Some(PackRecordingState::Recording),
        },
        RecordingEvent::Slept,
        RecordingEvent::StatusPolled {
            state: Some(PackRecordingState::Done {
                pages: 3,
                bytes: 12288,
            }),
        },
        RecordingEvent::StopEnded,
        RecordingEvent::FilesRemoved,
    ]);
    assert_eq!(
        actions(true, &events),
        vec![
            RecordingAction::DeriveConfig,
            RecordingAction::BuildVm,
            RecordingAction::StartVm,
            RecordingAction::FindMemoryDevice,
            RecordingAction::PollStatus { device: 9 },
            RecordingAction::Sleep { millis: 200 },
            RecordingAction::PollStatus { device: 9 },
            RecordingAction::StopVm,
            RecordingAction::RemoveConfig,
            RecordingAction::Report { recorded: true },
        ]
    );
}

#[test]
fn failed_recording_is_aborted_stopped_and_removed() {
    for state in [None, Some(PackRecordingState::Failed)] {
        let mut events = STARTED.to_vec();
        events.extend([
            RecordingEvent::StatusPolled { state },
            RecordingEvent::AbortEnded,
            RecordingEvent::StopEnded,
            RecordingEvent::FilesRemoved,
        ]);
        assert_eq!(
            actions(true, &events)[5..],
            [
                RecordingAction::AbortRecording {
                    device: 9,
                    within_secs: 3
                },
                RecordingAction::StopVm,
                RecordingAction::RemovePackFiles,
                RecordingAction::Report { recorded: false },
            ]
        );
    }
}

#[test]
fn interrupted_recording_is_aborted_stopped_and_removed() {
    let tail = |interruption| {
        let mut events = STARTED.to_vec();
        events.extend([
            RecordingEvent::StatusPolled {
                state: Some(PackRecordingState::Recording),
            },
            interruption,
            RecordingEvent::AbortEnded,
            RecordingEvent::StopEnded,
            RecordingEvent::FilesRemoved,
        ]);
        actions(true, &events)[6..].to_vec()
    };
    let abort = RecordingAction::AbortRecording {
        device: 9,
        within_secs: 3,
    };
    for interruption in [
        RecordingEvent::BudgetElapsed,
        RecordingEvent::ShutdownRequested,
    ] {
        assert_eq!(
            tail(interruption),
            vec![
                abort,
                RecordingAction::StopVm,
                RecordingAction::RemovePackFiles,
                RecordingAction::Report { recorded: false },
            ]
        );
    }
}

#[test]
fn early_failures_stop_what_was_started() {
    assert_eq!(
        actions(
            true,
            &[
                RecordingEvent::ConfigDerived { succeeded: false },
                RecordingEvent::FilesRemoved
            ]
        )[1..],
        [
            RecordingAction::RemovePackFiles,
            RecordingAction::Report { recorded: false }
        ],
        "a config that was written in part is removed"
    );
    assert_eq!(
        actions(
            true,
            &[
                STARTED[0],
                RecordingEvent::VmBuilt { succeeded: false },
                RecordingEvent::FilesRemoved
            ]
        )[2..],
        [
            RecordingAction::RemovePackFiles,
            RecordingAction::Report { recorded: false }
        ]
    );
    for failure in [
        vec![
            STARTED[0],
            STARTED[1],
            RecordingEvent::VmStarted { succeeded: false },
        ],
        vec![
            STARTED[0],
            STARTED[1],
            STARTED[2],
            RecordingEvent::DeviceLookedUp { device: None },
        ],
    ] {
        let at = failure.len();
        let mut events = failure;
        events.extend([RecordingEvent::StopEnded, RecordingEvent::FilesRemoved]);
        assert_eq!(
            actions(true, &events)[at..],
            [
                RecordingAction::StopVm,
                RecordingAction::RemovePackFiles,
                RecordingAction::Report { recorded: false },
            ]
        );
    }
}
