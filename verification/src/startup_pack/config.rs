//! Settings of startup packs, and what a recording does to the files of a
//! snapshot.

use vstd::prelude::*;

verus! {

/// Name of the trace file within a snapshot's directory.
pub const MEMORY_STARTUP_TRACE_ARTIFACT: &'static str = "memory-startup.trace";

/// Name of the recording config within a snapshot's directory.
pub const RECORDING_CONFIG_ARTIFACT: &'static str = "mem_image.pack-rec.json";

/// Where snapshots are published.
#[derive(Clone, Copy, Debug, PartialEq, Eq)]
pub enum SnapshotRepositoryBackendKind {
    PosixFs,
    Oss,
}

/// Settings of startup packs.
#[derive(Clone, Copy, Debug, PartialEq, Eq)]
pub struct SnapshotStartupPackConfig {
    /// Whether captured snapshots are recorded.
    pub enabled: bool,
    pub record_min_window_ms: u64,
    pub record_quiet_ms: u64,
    pub record_max_window_ms: u64,
    /// How long to wait for a recording.
    pub record_budget_secs: u64,
    /// How much a plan may cover.
    pub max_pack_bytes: u64,
    /// Whether restores use startup packs.
    pub consume_enabled: bool,
    /// How long a prefetch may take.
    pub consume_timeout_secs: u64,
}

/// Settings of snapshots.
#[derive(Clone, Copy, Debug, PartialEq, Eq)]
pub struct SnapshotConfig {
    pub repository_backend: SnapshotRepositoryBackendKind,
    pub memory_startup_pack: SnapshotStartupPackConfig,
}

impl SnapshotStartupPackConfig {
    /// The settings where none are given: neither recording nor use is
    /// switched on.
    pub open spec fn usual() -> SnapshotStartupPackConfig {
        SnapshotStartupPackConfig {
            enabled: false,
            record_min_window_ms: 200,
            record_quiet_ms: 300,
            record_max_window_ms: 2000,
            record_budget_secs: 10,
            max_pack_bytes: 1_073_741_824,
            consume_enabled: false,
            consume_timeout_secs: 30,
        }
    }
}

impl Default for SnapshotStartupPackConfig {
    fn default() -> (config: SnapshotStartupPackConfig)
        ensures
            config == Self::usual(),
    {
        SnapshotStartupPackConfig {
            enabled: false,
            record_min_window_ms: 200,
            record_quiet_ms: 300,
            record_max_window_ms: 2000,
            record_budget_secs: 10,
            max_pack_bytes: 1_073_741_824,
            consume_enabled: false,
            consume_timeout_secs: 30,
        }
    }
}

impl Default for SnapshotConfig {
    fn default() -> (config: SnapshotConfig)
        ensures
            config.repository_backend is PosixFs,
            config.memory_startup_pack == SnapshotStartupPackConfig::usual(),
    {
        SnapshotConfig {
            repository_backend: SnapshotRepositoryBackendKind::PosixFs,
            memory_startup_pack: SnapshotStartupPackConfig::default(),
        }
    }
}

/// Whether captured snapshots are recorded. Recording is opt-in for every
/// repository backend.
pub fn recording_enabled_for(config: &SnapshotConfig) -> (enabled: bool)
    ensures
        enabled == config.memory_startup_pack.enabled,
{
    config.memory_startup_pack.enabled
}

/// A layer of an image.
#[derive(Clone, Debug, PartialEq, Eq)]
pub struct LayerConfig {
    /// Where the layer's file is; empty for a layer that is not local.
    pub file: String,
    pub digest: String,
    pub size: u64,
}

/// How an image is downloaded in the background.
#[derive(Clone, Copy, Debug, PartialEq, Eq)]
pub struct DownloadConfig {
    pub enable: bool,
}

/// The layers that make up an image.
#[derive(Clone, Debug, PartialEq, Eq)]
pub struct ImageConfig {
    pub repo_blob_url: String,
    pub lowers: Vec<LayerConfig>,
    /// Settings for this image in place of the general ones.
    pub download_override: Option<DownloadConfig>,
}

/// The recording variant of a memory image config: the same layers, without
/// background download.
pub fn recording_image_config(config: ImageConfig) -> (derived: ImageConfig)
    ensures
        derived.repo_blob_url == config.repo_blob_url,
        derived.lowers == config.lowers,
        derived.download_override == Some(DownloadConfig { enable: false }),
{
    ImageConfig {
        repo_blob_url: config.repo_blob_url,
        lowers: config.lowers,
        download_override: Some(DownloadConfig { enable: false }),
    }
}

/// The suffix of a file that is being written.
pub open spec fn temporary_suffix() -> Seq<u8> {
    seq![46u8, 116u8, 109u8, 112u8]
}

/// A copy of the bytes.
fn copy_bytes(bytes: &[u8]) -> (copy: Vec<u8>)
    ensures
        copy@ == bytes@,
{
    let mut copy: Vec<u8> = Vec::new();
    let mut i: usize = 0;
    while i < bytes.len()
        invariant
            i <= bytes@.len(),
            copy@ == bytes@.take(i as int),
        decreases bytes@.len() - i,
    {
        copy.push(bytes[i]);
        i += 1;
        proof {
            assert(copy@ =~= bytes@.take(i as int));
        }
    }
    proof {
        assert(bytes@.take(bytes@.len() as int) =~= bytes@);
    }
    copy
}

/// The paths, as bytes, that a failed recording may have left and that are
/// to be removed: the trace, the trace while it was being written, and the
/// recording config.
pub fn pack_files(trace_path: &[u8], recording_config: &[u8]) -> (paths: Vec<Vec<u8>>)
    ensures
        paths@.len() == 3,
        paths@[0]@ == trace_path@,
        paths@[1]@ == trace_path@ + temporary_suffix(),
        paths@[2]@ == recording_config@,
{
    let mut temporary: Vec<u8> = copy_bytes(trace_path);
    temporary.push(46);
    temporary.push(116);
    temporary.push(109);
    temporary.push(112);
    proof {
        assert(temporary@ =~= trace_path@ + temporary_suffix());
    }
    let mut paths: Vec<Vec<u8>> = Vec::new();
    paths.push(copy_bytes(trace_path));
    paths.push(temporary);
    paths.push(copy_bytes(recording_config));
    paths
}

} // verus!
