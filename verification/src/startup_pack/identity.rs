//! The identity under which restores share a prefetch.

use crate::text;
use vstd::prelude::*;

verus! {

/// A local layer that a prefetch reads.
#[derive(Clone, Debug, PartialEq, Eq)]
pub struct FinalLayerSource {
    pub digest: String,
    pub size: u64,
    /// Where the layer's file is.
    pub path: String,
}

/// What a layer is.
pub struct LayerView {
    pub digest: Seq<char>,
    pub size: u64,
    pub path: Seq<char>,
}

impl View for FinalLayerSource {
    type V = LayerView;

    open spec fn view(&self) -> LayerView {
        LayerView { digest: self.digest@, size: self.size, path: self.path@ }
    }
}

/// The layers by what they are.
pub open spec fn layer_views(layers: Seq<FinalLayerSource>) -> Seq<LayerView> {
    layers.map_values(|layer: FinalLayerSource| layer@)
}

/// A layer as text: its digest, its size and its path, apart by colons.
pub open spec fn layer_text(layer: LayerView) -> Seq<char> {
    layer.digest + seq![':'] + text::decimal(layer.size as nat) + seq![':'] + layer.path
}

/// The layers as text, a bar before each.
pub open spec fn barred(layers: Seq<LayerView>) -> Seq<char>
    decreases layers.len(),
{
    if layers.len() == 0 {
        Seq::empty()
    } else {
        barred(layers.drop_last()) + seq!['|'] + layer_text(layers.last())
    }
}

/// The identity of a prefetch: the digest of its pack, a bar, and its layers
/// apart by bars.
pub open spec fn identity_text(pack_sha256: Seq<char>, layers: Seq<LayerView>) -> Seq<char> {
    pack_sha256 + (if layers.len() == 0 {
        seq!['|']
    } else {
        barred(layers)
    })
}

/// The identity of the prefetch of a pack over the given layers.
pub fn local_prefetch_identity(pack_sha256: &str, layers: &[FinalLayerSource]) -> (identity: String)
    ensures
        identity@ == identity_text(pack_sha256@, layer_views(layers@)),
{
    proof {
        reveal_strlit("|");
        reveal_strlit(":");
        assert("|"@ =~= seq!['|']);
        assert(":"@ =~= seq![':']);
    }
    let mut identity = pack_sha256.to_owned();
    let ghost views = layer_views(layers@);
    if layers.len() == 0 {
        identity.append("|");
    }
    let mut i: usize = 0;
    proof {
        assert(views.take(0) =~= Seq::empty());
    }
    while i < layers.len()
        invariant
            i <= layers@.len(),
            views == layer_views(layers@),
            "|"@ == seq!['|'],
            ":"@ == seq![':'],
            identity@ == pack_sha256@ + (if layers@.len() == 0 {
                seq!['|']
            } else {
                barred(views.take(i as int))
            }),
        decreases layers@.len() - i,
    {
        let layer = &layers[i];
        identity.append("|");
        identity.append(layer.digest.as_str());
        identity.append(":");
        text::push_decimal(&mut identity, layer.size);
        identity.append(":");
        identity.append(layer.path.as_str());
        proof {
            let shown = views.take(i + 1);
            assert(shown.drop_last() =~= views.take(i as int));
            assert(shown.last() == layer@);
            assert(identity@ =~= pack_sha256@ + barred(shown));
        }
        i += 1;
    }
    proof {
        assert(views.take(layers@.len() as int) =~= views);
    }
    identity
}

/// Whether the character does not occur in the text.
pub open spec fn is_free_of(s: Seq<char>, c: char) -> bool {
    forall|i: int| 0 <= i < s.len() ==> #[trigger] s[i] != c
}

/// Whether the layer's text can be told apart from what stands around it: a
/// bar occurs nowhere in it, and a colon not in its path.
pub open spec fn is_plain(layer: LayerView) -> bool {
    &&& is_free_of(layer.digest, '|')
    &&& is_free_of(layer.path, '|')
    &&& is_free_of(layer.path, ':')
}

/// Text is split at the last place where a separator occurs.
proof fn lemma_split_at_last(x: Seq<char>, p: Seq<char>, y: Seq<char>, q: Seq<char>, c: char)
    requires
        x + seq![c] + p == y + seq![c] + q,
        is_free_of(p, c),
        is_free_of(q, c),
    ensures
        x == y,
        p == q,
{
    let s = x + seq![c] + p;
    let t = y + seq![c] + q;
    assert(s[x.len() as int] == c);
    assert(t[y.len() as int] == c);
    assert(s.len() == x.len() + 1 + p.len());
    assert(t.len() == y.len() + 1 + q.len());
    if x.len() < y.len() {
        let k = y.len() - x.len() - 1;
        assert(0 <= k < p.len());
        assert(s[x.len() + 1 + k] == p[k]);
        assert(s[y.len() as int] == c);
    } else if y.len() < x.len() {
        let k = x.len() - y.len() - 1;
        assert(0 <= k < q.len());
        assert(t[y.len() + 1 + k] == q[k]);
        assert(t[x.len() as int] == c);
    }
    assert(x =~= s.take(x.len() as int));
    assert(y =~= t.take(y.len() as int));
    assert(p =~= s.skip(x.len() + 1int));
    assert(q =~= t.skip(y.len() + 1int));
}

proof fn lemma_layer_text_is_injective(a: LayerView, b: LayerView)
    requires
        is_plain(a),
        is_plain(b),
        layer_text(a) == layer_text(b),
    ensures
        a == b,
{
    let ta = text::decimal(a.size as nat);
    let tb = text::decimal(b.size as nat);
    text::lemma_decimal_has_only_digits(a.size as nat);
    text::lemma_decimal_has_only_digits(b.size as nat);
    lemma_split_at_last(a.digest + seq![':'] + ta, a.path, b.digest + seq![':'] + tb, b.path, ':');
    lemma_split_at_last(a.digest, ta, b.digest, tb, ':');
    text::lemma_decimal_is_injective(a.size as nat, b.size as nat);
}

proof fn lemma_layer_text_has_no_bar(layer: LayerView)
    requires
        is_plain(layer),
    ensures
        is_free_of(layer_text(layer), '|'),
        layer_text(layer).len() > 0,
{
    text::lemma_decimal_has_only_digits(layer.size as nat);
    let t = layer_text(layer);
    let d = text::decimal(layer.size as nat);
    assert forall|i: int| 0 <= i < t.len() implies #[trigger] t[i] != '|' by {
        let a = layer.digest.len();
        let b = a + 1 + d.len();
        if i < a {
            assert(t[i] == layer.digest[i]);
        } else if i == a {
        } else if i < b {
            assert(t[i] == d[i - a - 1]);
        } else if i == b {
        } else {
            assert(t[i] == layer.path[i - b - 1]);
        }
    }
}

proof fn lemma_barred_is_injective(
    one: Seq<char>,
    layers: Seq<LayerView>,
    other: Seq<char>,
    others: Seq<LayerView>,
)
    requires
        is_free_of(one, '|'),
        is_free_of(other, '|'),
        forall|i: int| 0 <= i < layers.len() ==> is_plain(#[trigger] layers[i]),
        forall|i: int| 0 <= i < others.len() ==> is_plain(#[trigger] others[i]),
        one + barred(layers) == other + barred(others),
    ensures
        one == other,
        layers == others,
    decreases layers.len() + others.len(),
{
    if layers.len() == 0 && others.len() == 0 {
        assert(one + barred(layers) =~= one);
        assert(other + barred(others) =~= other);
        assert(layers =~= others);
    } else if layers.len() == 0 {
        assert(one + barred(layers) =~= one);
        let before = other + barred(others.drop_last());
        assert(other + barred(others) =~= before + seq!['|'] + layer_text(others.last()));
        assert(one[before.len() as int] == '|');
    } else if others.len() == 0 {
        assert(other + barred(others) =~= other);
        let before = one + barred(layers.drop_last());
        assert(one + barred(layers) =~= before + seq!['|'] + layer_text(layers.last()));
        assert(other[before.len() as int] == '|');
    } else {
        let x = one + barred(layers.drop_last());
        let y = other + barred(others.drop_last());
        assert(is_plain(layers[layers.len() - 1]) && is_plain(others[others.len() - 1]));
        assert(one + barred(layers) =~= x + seq!['|'] + layer_text(layers.last()));
        assert(other + barred(others) =~= y + seq!['|'] + layer_text(others.last()));
        lemma_layer_text_has_no_bar(layers.last());
        lemma_layer_text_has_no_bar(others.last());
        lemma_split_at_last(x, layer_text(layers.last()), y, layer_text(others.last()), '|');
        lemma_layer_text_is_injective(layers.last(), others.last());
        assert forall|i: int| 0 <= i < layers.drop_last().len() implies is_plain(
            #[trigger] layers.drop_last()[i],
        ) by {
            assert(is_plain(layers[i]));
        }
        assert forall|i: int| 0 <= i < others.drop_last().len() implies is_plain(
            #[trigger] others.drop_last()[i],
        ) by {
            assert(is_plain(others[i]));
        }
        lemma_barred_is_injective(one, layers.drop_last(), other, others.drop_last());
        assert(layers =~= layers.drop_last().push(layers.last()));
        assert(others =~= others.drop_last().push(others.last()));
    }
}

/// Prefetches of different packs or over different layers have different
/// identities, so they never share a run. This needs the separators to be
/// separators: no bar in a digest or in a path, and no colon in a path.
pub proof fn law_identity_tells_prefetches_apart(
    one: Seq<char>,
    layers: Seq<LayerView>,
    other: Seq<char>,
    others: Seq<LayerView>,
)
    requires
        is_free_of(one, '|'),
        is_free_of(other, '|'),
        forall|i: int| 0 <= i < layers.len() ==> is_plain(#[trigger] layers[i]),
        forall|i: int| 0 <= i < others.len() ==> is_plain(#[trigger] others[i]),
        one != other || layers != others,
    ensures
        identity_text(one, layers) != identity_text(other, others),
{
    if identity_text(one, layers) == identity_text(other, others) {
        if layers.len() == 0 && others.len() == 0 {
            assert(layers =~= others);
            assert(one =~= (one + seq!['|']).drop_last());
            assert(other =~= (other + seq!['|']).drop_last());
        } else if layers.len() == 0 {
            let before = other + barred(others.drop_last());
            assert(is_plain(others[others.len() - 1]));
            lemma_layer_text_has_no_bar(others.last());
            assert(other + barred(others) =~= before + seq!['|'] + layer_text(others.last()));
            assert(one + seq!['|'] =~= one + seq!['|'] + Seq::<char>::empty());
            lemma_split_at_last(one, Seq::empty(), before, layer_text(others.last()), '|');
        } else if others.len() == 0 {
            let before = one + barred(layers.drop_last());
            assert(is_plain(layers[layers.len() - 1]));
            lemma_layer_text_has_no_bar(layers.last());
            assert(one + barred(layers) =~= before + seq!['|'] + layer_text(layers.last()));
            assert(other + seq!['|'] =~= other + seq!['|'] + Seq::<char>::empty());
            lemma_split_at_last(other, Seq::empty(), before, layer_text(layers.last()), '|');
        } else {
            lemma_barred_is_injective(one, layers, other, others);
        }
    }
}

/// Two layers that differ only in where they are have different identities,
/// whatever their paths are.
pub proof fn law_identity_tells_layer_paths_apart(
    pack_sha256: Seq<char>,
    digest: Seq<char>,
    size: u64,
    path: Seq<char>,
    other_path: Seq<char>,
)
    requires
        path != other_path,
    ensures
        identity_text(pack_sha256, seq![LayerView { digest, size, path }]) != identity_text(
            pack_sha256,
            seq![LayerView { digest, size, path: other_path }],
        ),
{
    let a = seq![LayerView { digest, size, path }];
    let b = seq![LayerView { digest, size, path: other_path }];
    let head = pack_sha256 + seq!['|'] + digest + seq![':'] + text::decimal(size as nat) + seq![':'];
    assert(a.drop_last() =~= Seq::empty());
    assert(b.drop_last() =~= Seq::empty());
    assert(barred(a.drop_last()) =~= Seq::empty());
    assert(barred(b.drop_last()) =~= Seq::empty());
    assert(barred(a) =~= seq!['|'] + layer_text(a[0]));
    assert(barred(b) =~= seq!['|'] + layer_text(b[0]));
    assert(identity_text(pack_sha256, a) =~= head + path);
    assert(identity_text(pack_sha256, b) =~= head + other_path);
    if head + path == head + other_path {
        assert(path =~= (head + path).skip(head.len() as int));
        assert(other_path =~= (head + other_path).skip(head.len() as int));
    }
}

} // verus!
