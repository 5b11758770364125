//! Getting a prefetch ready: checking the manifest of a startup pack, and
//! working out which local layers it reads.

use crate::startup_pack::config::LayerConfig;
use crate::startup_pack::digest;
use crate::startup_pack::identity;
use crate::startup_pack::identity::{FinalLayerSource, LayerView};
use vstd::prelude::*;

verus! {

/// The I/O engine that bypasses the page cache: warming it would be in vain.
pub const DIRECT_IO_ENGINE: u32 = 2;

/// Where the manifest of a startup pack is.
#[derive(Clone, Debug, PartialEq, Eq)]
pub enum ResolvedStartupPackSource {
    /// In a local file, by the bytes of its path.
    LocalPath(Vec<u8>),
    /// Elsewhere.
    Remote,
}

/// A startup pack that a restore can use.
#[derive(Clone, Debug, PartialEq, Eq)]
pub struct ResolvedStartupPack {
    pub source: ResolvedStartupPackSource,
    /// Size of the manifest in bytes.
    pub pack_size: u64,
    /// Size of the guest memory that the manifest is about.
    pub mem_virtual_size: u64,
    /// Digest of the manifest.
    pub index_sha256: String,
}

/// A stretch of guest memory that a restore touches early.
#[derive(Clone, Copy, Debug, PartialEq, Eq)]
pub struct StartupRange {
    pub offset: u64,
    pub len: u64,
}

/// A decoded manifest.
#[derive(Clone, Debug, PartialEq, Eq)]
pub struct StartupManifest {
    pub mem_virtual_size: u64,
    pub ranges: Vec<StartupRange>,
}

/// Why a manifest is refused.
#[derive(Clone, Copy, Debug, PartialEq, Eq)]
pub enum PrepareError {
    /// It is not as long as the pack says.
    SizeChanged,
    /// Its digest is not the one that the pack names.
    DigestMismatch,
    /// It is about a memory of another size.
    MemorySizeMismatch,
}

impl PrepareError {
    /// What the error says.
    pub open spec fn text(self) -> Seq<char> {
        match self {
            PrepareError::SizeChanged => "startup manifest size changed"@,
            PrepareError::DigestMismatch => "startup manifest sha256 mismatch"@,
            PrepareError::MemorySizeMismatch => "startup manifest memory size mismatch"@,
        }
    }

    /// What the error says.
    pub fn message(&self) -> (message: String)
        ensures
            message@ == self.text(),
    {
        match self {
            PrepareError::SizeChanged => "startup manifest size changed".to_owned(),
            PrepareError::DigestMismatch => "startup manifest sha256 mismatch".to_owned(),
            PrepareError::MemorySizeMismatch => {
                "startup manifest memory size mismatch".to_owned()
            },
        }
    }
}

/// How far a preparation has come.
#[derive(Clone, Copy, Debug, PartialEq, Eq)]
pub enum PrepareStage {
    /// Nothing was looked at.
    Begun,
    /// The general settings are to be loaded.
    GlobalConfig,
    /// The manifest is to be read.
    Manifest,
    /// The manifest is as the pack says and is to be decoded.
    Decode,
    /// The memory image's config is to be loaded.
    Image,
    /// Everything is at hand.
    Ready,
    /// There is nothing to prefetch.
    Skipped,
    /// The manifest is refused.
    Refused { error: PrepareError },
}

/// What a preparation is told.
pub enum PrepareEvent {
    Begin { cancelled: bool },
    GlobalConfigLoaded { io_engine: u32 },
    ManifestRead { cancelled: bool, bytes: Seq<u8> },
    ManifestDecoded { mem_virtual_size: u64 },
    ImageLoaded { cancelled: bool },
}

impl ResolvedStartupPack {
    /// Whether the bytes are the manifest that the pack names.
    pub open spec fn names(self, bytes: Seq<u8>) -> bool {
        &&& bytes.len() == self.pack_size
        &&& digest::hex_text(digest::sha256_of(bytes)) == self.index_sha256@
    }
}

impl PrepareStage {
    /// Whether this stage waits for such an event.
    pub open spec fn accepts(self, event: PrepareEvent) -> bool {
        match self {
            PrepareStage::Begun => event is Begin,
            PrepareStage::GlobalConfig => event is GlobalConfigLoaded,
            PrepareStage::Manifest => event is ManifestRead,
            PrepareStage::Decode => event is ManifestDecoded,
            PrepareStage::Image => event is ImageLoaded,
            _ => false,
        }
    }

    /// The stage that follows an accepted event.
    pub open spec fn after(self, pack: ResolvedStartupPack, event: PrepareEvent) -> PrepareStage {
        match event {
            PrepareEvent::Begin { cancelled } => if cancelled || !(pack.source is LocalPath) {
                PrepareStage::Skipped
            } else {
                PrepareStage::GlobalConfig
            },
            PrepareEvent::GlobalConfigLoaded { io_engine } => if io_engine == DIRECT_IO_ENGINE {
                PrepareStage::Skipped
            } else {
                PrepareStage::Manifest
            },
            PrepareEvent::ManifestRead { cancelled, bytes } => if cancelled {
                PrepareStage::Skipped
            } else if bytes.len() != pack.pack_size {
                PrepareStage::Refused { error: PrepareError::SizeChanged }
            } else if digest::hex_text(digest::sha256_of(bytes)) != pack.index_sha256@ {
                PrepareStage::Refused { error: PrepareError::DigestMismatch }
            } else {
                PrepareStage::Decode
            },
            PrepareEvent::ManifestDecoded { mem_virtual_size } => if mem_virtual_size
                != pack.mem_virtual_size {
                PrepareStage::Refused { error: PrepareError::MemorySizeMismatch }
            } else {
                PrepareStage::Image
            },
            PrepareEvent::ImageLoaded { cancelled } => if cancelled {
                PrepareStage::Skipped
            } else {
                PrepareStage::Ready
            },
        }
    }

    /// Begins: there is nothing to do for a restore that was called off, nor
    /// for a pack that is not in a local file.
    pub fn begin(self, pack: &ResolvedStartupPack, cancelled: bool) -> (next: PrepareStage)
        requires
            self is Begun,
        ensures
            next == self.after(*pack, PrepareEvent::Begin { cancelled }),
    {
        if cancelled {
            return PrepareStage::Skipped;
        }
        match &pack.source {
            ResolvedStartupPackSource::LocalPath(_) => PrepareStage::GlobalConfig,
            ResolvedStartupPackSource::Remote => PrepareStage::Skipped,
        }
    }

    /// Goes on with the I/O engine of the general settings, before anything
    /// of the manifest is touched.
    pub fn global_config_loaded(self, pack: &ResolvedStartupPack, io_engine: u32) -> (next:
        PrepareStage)
        requires
            self is GlobalConfig,
        ensures
            next == self.after(*pack, PrepareEvent::GlobalConfigLoaded { io_engine }),
    {
        if io_engine == DIRECT_IO_ENGINE {
            PrepareStage::Skipped
        } else {
            PrepareStage::Manifest
        }
    }

    /// Goes on with the bytes of the manifest, which have to be the ones that
    /// the pack names.
    pub fn manifest_read(
        self,
        pack: &ResolvedStartupPack,
        cancelled: bool,
        bytes: &[u8],
    ) -> (next: PrepareStage)
        requires
            self is Manifest,
            bytes@.len() < 0x2000_0000_0000_0000,
        ensures
            next == self.after(*pack, PrepareEvent::ManifestRead { cancelled, bytes: bytes@ }),
            next is Decode <==> !cancelled && pack.names(bytes@),
    {
        if cancelled {
            return PrepareStage::Skipped;
        }
        if bytes.len() as u64 != pack.pack_size {
            return PrepareStage::Refused { error: PrepareError::SizeChanged };
        }
        let actual = digest::hex_sha256(bytes);
        self.manifest_digested(pack, &actual)
    }

    /// Goes on with the digest of a manifest that is as long as the pack says.
    pub fn manifest_digested(self, pack: &ResolvedStartupPack, actual: &String) -> (next:
        PrepareStage)
        requires
            self is Manifest,
        ensures
            next == (if actual@ == pack.index_sha256@ {
                PrepareStage::Decode
            } else {
                PrepareStage::Refused { error: PrepareError::DigestMismatch }
            }),
    {
        if *actual == pack.index_sha256 {
            PrepareStage::Decode
        } else {
            PrepareStage::Refused { error: PrepareError::DigestMismatch }
        }
    }

    /// Goes on with the decoded manifest, which has to be about a memory of
    /// the size that the pack says.
    pub fn manifest_decoded(self, pack: &ResolvedStartupPack, mem_virtual_size: u64) -> (next:
        PrepareStage)
        requires
            self is Decode,
        ensures
            next == self.after(*pack, PrepareEvent::ManifestDecoded { mem_virtual_size }),
    {
        if mem_virtual_size != pack.mem_virtual_size {
            PrepareStage::Refused { error: PrepareError::MemorySizeMismatch }
        } else {
            PrepareStage::Image
        }
    }

    /// Goes on once the memory image's config is loaded.
    pub fn image_loaded(self, pack: &ResolvedStartupPack, cancelled: bool) -> (next: PrepareStage)
        requires
            self is Image,
        ensures
            next == self.after(*pack, PrepareEvent::ImageLoaded { cancelled }),
    {
        if cancelled {
            PrepareStage::Skipped
        } else {
            PrepareStage::Ready
        }
    }
}

/// Whether `stages` is the history of a preparation that saw exactly `events`.
pub open spec fn is_run(
    pack: ResolvedStartupPack,
    stages: Seq<PrepareStage>,
    events: Seq<PrepareEvent>,
) -> bool {
    &&& stages.len() == events.len() + 1
    &&& stages[0] is Begun
    &&& forall|i: int|
        0 <= i < events.len() ==> stages[i].accepts(#[trigger] events[i]) && stages[i + 1]
            == stages[i].after(pack, events[i])
}

/// A prefetch gets ready only for a local pack, off an I/O engine that uses
/// the page cache, with the very manifest that the pack names, about a memory
/// of the right size, and without having been called off on the way.
pub proof fn law_ready_prefetch_was_checked(
    pack: ResolvedStartupPack,
    stages: Seq<PrepareStage>,
    events: Seq<PrepareEvent>,
)
    requires
        is_run(pack, stages, events),
        stages.last() is Ready,
    ensures
        events.len() == 5,
        pack.source is LocalPath,
        events[0] == (PrepareEvent::Begin { cancelled: false }),
        events[1] matches PrepareEvent::GlobalConfigLoaded { io_engine } && io_engine
            != DIRECT_IO_ENGINE,
        events[2] matches PrepareEvent::ManifestRead { cancelled, bytes } && !cancelled
            && pack.names(bytes) && bytes.len() == pack.pack_size && digest::hex_text(
            digest::sha256_of(bytes),
        ) == pack.index_sha256@,
        events[3] == (PrepareEvent::ManifestDecoded { mem_virtual_size: pack.mem_virtual_size }),
        events[4] == (PrepareEvent::ImageLoaded { cancelled: false }),
{
    let n = events.len() as int;
    assert(n >= 1);
    assert(stages[n - 1].accepts(events[n - 1]) && stages[n - 1 + 1] == stages[n - 1].after(
        pack,
        events[n - 1],
    ));
    assert(stages[n - 1] is Image && n >= 2);
    assert(stages[n - 2].accepts(events[n - 2]) && stages[n - 2 + 1] == stages[n - 2].after(
        pack,
        events[n - 2],
    ));
    assert(stages[n - 2] is Decode && n >= 3);
    assert(stages[n - 3].accepts(events[n - 3]) && stages[n - 3 + 1] == stages[n - 3].after(
        pack,
        events[n - 3],
    ));
    assert(stages[n - 3] is Manifest && n >= 4);
    assert(stages[n - 4].accepts(events[n - 4]) && stages[n - 4 + 1] == stages[n - 4].after(
        pack,
        events[n - 4],
    ));
    assert(stages[n - 4] is GlobalConfig && n >= 5);
    assert(stages[n - 5].accepts(events[n - 5]) && stages[n - 5 + 1] == stages[n - 5].after(
        pack,
        events[n - 5],
    ));
    assert(stages[n - 5] is Begun);
    if n >= 6 {
        assert(stages[n - 6].accepts(events[n - 6]) && stages[n - 6 + 1] == stages[n - 6].after(
            pack,
            events[n - 6],
        ));
    }
    assert(n == 5);
}

/// Called off before it begins, a preparation looks at nothing; and off an
/// I/O engine that bypasses the page cache, it never touches the manifest.
pub proof fn law_nothing_is_read_in_vain(
    pack: ResolvedStartupPack,
    stages: Seq<PrepareStage>,
    events: Seq<PrepareEvent>,
    i: int,
)
    requires
        is_run(pack, stages, events),
        0 <= i < events.len(),
        events[i] == (PrepareEvent::Begin { cancelled: true }) || events[i] == (
        PrepareEvent::GlobalConfigLoaded { io_engine: DIRECT_IO_ENGINE }),
    ensures
        stages.last() is Skipped,
        events.len() == i + 1,
        forall|j: int| 0 <= j < events.len() ==> !((#[trigger] events[j]) is ManifestRead),
{
    assert(stages[i].accepts(events[i]) && stages[i + 1] == stages[i].after(pack, events[i]));
    if i + 1 < events.len() {
        assert(stages[i + 1].accepts(events[i + 1]));
    }
    assert forall|j: int| 0 <= j < events.len() implies !(
    (#[trigger] events[j]) is ManifestRead) by {
        assert(stages[j].accepts(events[j]) && stages[j + 1] == stages[j].after(pack, events[j]));
        if j < i && events[j] is ManifestRead {
            assert(stages[j + 1].accepts(events[j + 1]));
            lemma_later_stages_do_not_return(pack, stages, events, j + 1, i);
        }
    }
}

proof fn lemma_later_stages_do_not_return(
    pack: ResolvedStartupPack,
    stages: Seq<PrepareStage>,
    events: Seq<PrepareEvent>,
    from: int,
    n: int,
)
    requires
        is_run(pack, stages, events),
        0 <= from <= n < stages.len(),
        !(stages[from] is Begun || stages[from] is GlobalConfig),
    ensures
        !(stages[n] is Begun || stages[n] is GlobalConfig),
    decreases n,
{
    if from < n {
        lemma_later_stages_do_not_return(pack, stages, events, from, n - 1);
        assert(stages[n - 1].accepts(events[n - 1]) && stages[n - 1 + 1] == stages[n - 1].after(
            pack,
            events[n - 1],
        ));
    }
}

/// A prefetch that is ready to run.
#[derive(Clone, Debug, PartialEq, Eq)]
pub struct PreparedLocalPrefetch {
    /// Restores with the same identity share the run.
    pub identity: String,
    pub manifest: StartupManifest,
    pub layers: Vec<FinalLayerSource>,
    pub max_pack_bytes: u64,
    pub timeout_secs: u64,
}

/// The layers of an image that are in local files, in their order.
pub open spec fn local_layer_views(lowers: Seq<LayerConfig>) -> Seq<LayerView> {
    lowers.filter(|layer: LayerConfig| layer.file@.len() > 0).map_values(
        |layer: LayerConfig|
            LayerView { digest: layer.digest@, size: layer.size, path: layer.file@ },
    )
}

proof fn lemma_next_local_layer(lowers: Seq<LayerConfig>)
    requires
        lowers.len() > 0,
    ensures
        local_layer_views(lowers) == (if lowers.last().file@.len() > 0 {
            local_layer_views(lowers.drop_last()).push(
                LayerView {
                    digest: lowers.last().digest@,
                    size: lowers.last().size,
                    path: lowers.last().file@,
                },
            )
        } else {
            local_layer_views(lowers.drop_last())
        }),
{
    reveal(Seq::filter);
    let is_local = |layer: LayerConfig| layer.file@.len() > 0;
    let as_view = |layer: LayerConfig|
        LayerView { digest: layer.digest@, size: layer.size, path: layer.file@ };
    let kept = lowers.drop_last().filter(is_local);
    if is_local(lowers.last()) {
        assert(lowers.filter(is_local) == kept.push(lowers.last()));
        assert(kept.push(lowers.last()).map_values(as_view) =~= kept.map_values(as_view).push(
            as_view(lowers.last()),
        ));
    } else {
        assert(lowers.filter(is_local) == kept);
    }
}

/// The layers of an image that are in local files, in their order.
pub fn local_layers(lowers: &[LayerConfig]) -> (layers: Vec<FinalLayerSource>)
    ensures
        identity::layer_views(layers@) == local_layer_views(lowers@),
{
    let mut layers: Vec<FinalLayerSource> = Vec::new();
    let mut i: usize = 0;
    proof {
        reveal(Seq::filter);
        assert(lowers@.take(0) =~= Seq::empty());
        assert(identity::layer_views(layers@) =~= local_layer_views(lowers@.take(0)));
    }
    while i < lowers.len()
        invariant
            i <= lowers@.len(),
            identity::layer_views(layers@) == local_layer_views(lowers@.take(i as int)),
        decreases lowers@.len() - i,
    {
        let lower = &lowers[i];
        let ghost before = layers@;
        if !lower.file.as_str().is_empty() {
            layers.push(
                FinalLayerSource {
                    digest: lower.digest.clone(),
                    size: lower.size,
                    path: lower.file.clone(),
                },
            );
        }
        proof {
            let seen = lowers@.take(i + 1);
            assert(seen.drop_last() =~= lowers@.take(i as int));
            assert(seen.last() == *lower);
            lemma_next_local_layer(seen);
            if lower.file@.len() > 0 {
                assert(identity::layer_views(layers@) =~= identity::layer_views(before).push(
                    layers@.last()@,
                ));
            }
        }
        i += 1;
    }
    proof {
        assert(lowers@.take(lowers@.len() as int) =~= lowers@);
    }
    layers
}

/// Puts together a prefetch whose preparation is complete.
pub fn prepare_local_prefetch(
    stage: PrepareStage,
    pack: &ResolvedStartupPack,
    manifest: StartupManifest,
    lowers: &[LayerConfig],
    max_pack_bytes: u64,
    timeout_secs: u64,
) -> (prepared: PreparedLocalPrefetch)
    requires
        stage is Ready,
    ensures
        prepared.manifest == manifest,
        identity::layer_views(prepared.layers@) == local_layer_views(lowers@),
        prepared.identity@ == identity::identity_text(
            pack.index_sha256@,
            local_layer_views(lowers@),
        ),
        prepared.max_pack_bytes == max_pack_bytes,
        prepared.timeout_secs == timeout_secs,
{
    let layers = local_layers(lowers);
    let identity = identity::local_prefetch_identity(
        pack.index_sha256.as_str(),
        layers.as_slice(),
    );
    PreparedLocalPrefetch { identity, manifest, layers, max_pack_bytes, timeout_secs }
}

/// A prefetch whose pack is local, whose settings use the page cache, whose
/// manifest is as long as the pack says, has the digest that the pack names and
/// is about a memory of the size that the pack says, and that nobody calls off,
/// gets ready.
pub proof fn law_good_prefetch_gets_ready(
    pack: ResolvedStartupPack,
    stages: Seq<PrepareStage>,
    events: Seq<PrepareEvent>,
    io_engine: u32,
    bytes: Seq<u8>,
)
    requires
        is_run(pack, stages, events),
        events.len() == 5,
        pack.source is LocalPath,
        io_engine != 2,
        bytes.len() == pack.pack_size,
        digest::hex_text(digest::sha256_of(bytes)) == pack.index_sha256@,
        events[0] == (PrepareEvent::Begin { cancelled: false }),
        events[1] == (PrepareEvent::GlobalConfigLoaded { io_engine }),
        events[2] == (PrepareEvent::ManifestRead { cancelled: false, bytes }),
        events[3] == (PrepareEvent::ManifestDecoded { mem_virtual_size: pack.mem_virtual_size }),
        events[4] == (PrepareEvent::ImageLoaded { cancelled: false }),
    ensures
        stages.last() is Ready,
{
    assert(stages[1] == stages[0].after(pack, events[0]));
    assert(stages[2] == stages[1].after(pack, events[1]));
    assert(stages[3] == stages[2].after(pack, events[2]));
    assert(stages[4] == stages[3].after(pack, events[3]));
    assert(stages[5] == stages[4].after(pack, events[4]));
}

/// Where a preparation ends, it does for a reason: it is skipped because it was
/// called off, because the pack is not local or because the I/O engine bypasses
/// the page cache; and it is refused because what the refusal says is so.
pub proof fn law_preparation_ends_for_a_reason(
    pack: ResolvedStartupPack,
    stages: Seq<PrepareStage>,
    events: Seq<PrepareEvent>,
    i: int,
)
    requires
        is_run(pack, stages, events),
        0 <= i < events.len(),
    ensures
        stages[i + 1] is Skipped ==> match events[i] {
            PrepareEvent::Begin { cancelled } => cancelled || !(pack.source is LocalPath),
            PrepareEvent::GlobalConfigLoaded { io_engine } => io_engine == 2,
            PrepareEvent::ManifestRead { cancelled, .. } => cancelled,
            PrepareEvent::ManifestDecoded { .. } => false,
            PrepareEvent::ImageLoaded { cancelled } => cancelled,
        },
        stages[i + 1] matches PrepareStage::Refused { error } ==> match events[i] {
            PrepareEvent::ManifestRead { cancelled, bytes } => !cancelled && (if bytes.len()
                != pack.pack_size {
                error is SizeChanged
            } else {
                error is DigestMismatch && digest::hex_text(digest::sha256_of(bytes))
                    != pack.index_sha256@
            }),
            PrepareEvent::ManifestDecoded { mem_virtual_size } => error is MemorySizeMismatch
                && mem_virtual_size != pack.mem_virtual_size,
            _ => false,
        },
{
    assert(stages[i].accepts(events[i]));
    assert(stages[i + 1] == stages[i].after(pack, events[i]));
}

/// A preparation that has a reason to end does: it is skipped where it was called
/// off, where the pack is not local and where the I/O engine bypasses the page
/// cache, and refused where the manifest is not the one that the pack names.
pub proof fn law_reason_ends_the_preparation(
    pack: ResolvedStartupPack,
    stages: Seq<PrepareStage>,
    events: Seq<PrepareEvent>,
    i: int,
)
    requires
        is_run(pack, stages, events),
        0 <= i < events.len(),
    ensures
        match events[i] {
            PrepareEvent::Begin { cancelled } => cancelled || !(pack.source is LocalPath) ==> stages[
                i + 1
            ] is Skipped,
            PrepareEvent::GlobalConfigLoaded { io_engine } => io_engine == 2 ==> stages[i + 1]
                is Skipped,
            PrepareEvent::ManifestRead { cancelled, bytes } => if cancelled {
                stages[i + 1] is Skipped
            } else {
                bytes.len() != pack.pack_size || digest::hex_text(digest::sha256_of(bytes))
                    != pack.index_sha256@ ==> stages[i + 1] is Refused
            },
            PrepareEvent::ManifestDecoded { mem_virtual_size } => mem_virtual_size
                != pack.mem_virtual_size ==> stages[i + 1] is Refused,
            PrepareEvent::ImageLoaded { cancelled } => cancelled ==> stages[i + 1] is Skipped,
        },
        stages[i + 1] is Skipped || stages[i + 1] is Refused ==> stages.len() == i + 2,
{
    assert(stages[i].accepts(events[i]));
    assert(stages[i + 1] == stages[i].after(pack, events[i]));
    if i + 1 < events.len() {
        assert(stages[i + 1].accepts(events[i + 1]));
    }
}

/// The local layers are found layer by layer: one that has a file is kept as it
/// is, one that has none is left out, and the order stays.
pub proof fn law_local_layers_are_found_one_by_one(lowers: Seq<LayerConfig>, lower: LayerConfig)
    ensures
        local_layer_views(Seq::empty()) == Seq::<LayerView>::empty(),
        lower.file@.len() > 0 ==> local_layer_views(lowers.push(lower)) == local_layer_views(
            lowers,
        ).push(LayerView { digest: lower.digest@, size: lower.size, path: lower.file@ }),
        lower.file@.len() == 0 ==> local_layer_views(lowers.push(lower)) == local_layer_views(
            lowers,
        ),
{
    reveal(Seq::filter);
    assert(local_layer_views(Seq::empty()) =~= Seq::<LayerView>::empty());
    lemma_next_local_layer(lowers.push(lower));
    assert(lowers.push(lower).drop_last() =~= lowers);
}

} // verus!
