use vstd::prelude::*;

use crate::keys::position_of;

verus! {

/// A sound instance on an audio layer: where it plays, in samples, how far
/// into its audio file it starts, and the key of that file.
#[derive(Debug, Clone, Copy, PartialEq, Eq, Structural)]
pub struct SoundRef {
    pub begin: i64,
    pub end: i64,
    pub offset: i64,
    pub audio: u64,
}

/// What a layer holds: for an animation layer, the strokes of the frame it
/// shows at the current time (if it shows one); for an audio layer, its
/// sound instances; for a group, its layers.
pub enum LayerContent {
    Animation(Option<Vec<u64>>),
    Audio(Vec<SoundRef>),
    Group(Vec<LayerTree>),
}

/// A layer of a graphic and whether it is shown (for an audio layer: not
/// muted).
pub struct LayerTree {
    pub show: bool,
    pub content: LayerContent,
}

/// The strokes drawn by a layer: none when it is hidden, those of its shown
/// frame for an animation layer, those of its layers, in order, for a group.
pub open spec fn layer_strokes(layer: LayerTree) -> Seq<u64>
    decreases layer,
{
    if !layer.show {
        Seq::empty()
    } else {
        match layer.content {
            LayerContent::Animation(Some(strokes)) => strokes@,
            LayerContent::Animation(None) => Seq::empty(),
            LayerContent::Audio(_) => Seq::empty(),
            LayerContent::Group(layers) => layers_strokes_upto(layers@, layers@.len() as int),
        }
    }
}

/// The strokes drawn by the first `n` of `layers`, layer after layer.
pub open spec fn layers_strokes_upto(layers: Seq<LayerTree>, n: int) -> Seq<u64>
    decreases layers, n,
{
    if n <= 0 || n > layers.len() {
        Seq::empty()
    } else {
        layers_strokes_upto(layers, n - 1) + layer_strokes(layers[n - 1])
    }
}

/// The sound instances heard from a layer: none when it is muted, those of
/// an audio layer whose audio file is among `loaded`, and those of the
/// layers of a group, in order.
pub open spec fn layer_sounds(layer: LayerTree, loaded: Seq<u64>) -> Seq<SoundRef>
    decreases layer,
{
    if !layer.show {
        Seq::empty()
    } else {
        match layer.content {
            LayerContent::Audio(sounds) => sounds@.filter(|s: SoundRef| loaded.contains(s.audio)),
            LayerContent::Group(layers) => layers_sounds_upto(layers@, layers@.len() as int, loaded),
            _ => Seq::empty(),
        }
    }
}

/// The sound instances heard from the first `n` of `layers`.
pub open spec fn layers_sounds_upto(layers: Seq<LayerTree>, n: int, loaded: Seq<u64>) -> Seq<SoundRef>
    decreases layers, n,
{
    if n <= 0 || n > layers.len() {
        Seq::empty()
    } else {
        layers_sounds_upto(layers, n - 1, loaded) + layer_sounds(layers[n - 1], loaded)
    }
}

/// Every stroke drawn by one of the first `n` layers is drawn by them
/// together.
proof fn lemma_strokes_upto_contains(layers: Seq<LayerTree>, n: int, i: int, k: int)
    requires
        0 <= i < n <= layers.len(),
        0 <= k < layer_strokes(layers[i]).len(),
    ensures
        layers_strokes_upto(layers, n).contains(layer_strokes(layers[i])[k]),
    decreases n,
{
    let prev = layers_strokes_upto(layers, n - 1);
    let last = layer_strokes(layers[n - 1]);
    assert(layers_strokes_upto(layers, n) == prev + last);
    if i == n - 1 {
        assert((prev + last)[prev.len() + k] == last[k]);
    } else {
        lemma_strokes_upto_contains(layers, n - 1, i, k);
        let w = choose|w: int| 0 <= w < prev.len() && prev[w] == layer_strokes(layers[i])[k];
        assert((prev + last)[w] == prev[w]);
    }
}

/// Every sound heard from one of the first `n` layers is heard from them
/// together.
proof fn lemma_sounds_upto_contains(layers: Seq<LayerTree>, n: int, loaded: Seq<u64>, i: int, k: int)
    requires
        0 <= i < n <= layers.len(),
        0 <= k < layer_sounds(layers[i], loaded).len(),
    ensures
        layers_sounds_upto(layers, n, loaded).contains(layer_sounds(layers[i], loaded)[k]),
    decreases n,
{
    let prev = layers_sounds_upto(layers, n - 1, loaded);
    let last = layer_sounds(layers[n - 1], loaded);
    assert(layers_sounds_upto(layers, n, loaded) == prev + last);
    if i == n - 1 {
        assert((prev + last)[prev.len() + k] == last[k]);
    } else {
        lemma_sounds_upto_contains(layers, n - 1, loaded, i, k);
        let w = choose|w: int| 0 <= w < prev.len() && prev[w] == layer_sounds(layers[i], loaded)[k];
        assert((prev + last)[w] == prev[w]);
    }
}

/// A hidden layer draws nothing, and a muted one plays nothing, whatever it
/// holds (a group's layers included).
pub proof fn law_hidden_layer_adds_nothing(layer: LayerTree, loaded: Seq<u64>)
    requires
        !layer.show,
    ensures
        layer_strokes(layer).len() == 0,
        layer_sounds(layer, loaded).len() == 0,
{
}

/// A shown animation layer draws exactly the strokes of the frame it shows,
/// and nothing without one.
pub proof fn law_shown_animation_draws_its_frame(layer: LayerTree)
    requires
        layer.show,
        layer.content is Animation,
    ensures
        match layer.content {
            LayerContent::Animation(Some(strokes)) => layer_strokes(layer) == strokes@,
            _ => layer_strokes(layer).len() == 0,
        },
{
}

/// A shown group draws every stroke of each of its layers, and plays every
/// sound heard from each of them.
pub proof fn law_shown_group_keeps_its_layers(layer: LayerTree, loaded: Seq<u64>, i: int)
    requires
        layer.show,
        layer.content is Group,
        0 <= i < layer.content->Group_0@.len(),
    ensures
        forall|k: int|
            0 <= k < layer_strokes(layer.content->Group_0@[i]).len() ==> layer_strokes(layer).contains(
                #[trigger] layer_strokes(layer.content->Group_0@[i])[k],
            ),
        forall|k: int|
            0 <= k < layer_sounds(layer.content->Group_0@[i], loaded).len() ==> layer_sounds(
                layer,
                loaded,
            ).contains(#[trigger] layer_sounds(layer.content->Group_0@[i], loaded)[k]),
{
    let ls = layer.content->Group_0@;
    assert forall|k: int| 0 <= k < layer_strokes(ls[i]).len() implies layer_strokes(layer).contains(
        #[trigger] layer_strokes(ls[i])[k],
    ) by {
        lemma_strokes_upto_contains(ls, ls.len() as int, i, k);
    }
    assert forall|k: int| 0 <= k < layer_sounds(ls[i], loaded).len() implies layer_sounds(layer, loaded).contains(
        #[trigger] layer_sounds(ls[i], loaded)[k],
    ) by {
        lemma_sounds_upto_contains(ls, ls.len() as int, loaded, i, k);
    }
}

/// The strokes drawn by the first `m` layers start the strokes drawn by the
/// first `n`, for `m <= n`.
proof fn lemma_strokes_upto_prefix(layers: Seq<LayerTree>, m: int, n: int)
    requires
        0 <= m <= n <= layers.len(),
    ensures
        layers_strokes_upto(layers, m).len() <= layers_strokes_upto(layers, n).len(),
        layers_strokes_upto(layers, n).subrange(0, layers_strokes_upto(layers, m).len() as int)
            == layers_strokes_upto(layers, m),
    decreases n - m,
{
    if m < n {
        lemma_strokes_upto_prefix(layers, m, n - 1);
        let a = layers_strokes_upto(layers, m);
        let prev = layers_strokes_upto(layers, n - 1);
        let last = layer_strokes(layers[n - 1]);
        assert(layers_strokes_upto(layers, n) == prev + last);
        assert((prev + last).subrange(0, a.len() as int) =~= prev.subrange(0, a.len() as int));
    } else {
        assert(layers_strokes_upto(layers, n).subrange(0, layers_strokes_upto(layers, n).len() as int)
            =~= layers_strokes_upto(layers, n));
    }
}

/// The sounds heard from the first `m` layers start the sounds heard from
/// the first `n`, for `m <= n`.
proof fn lemma_sounds_upto_prefix(layers: Seq<LayerTree>, m: int, n: int, loaded: Seq<u64>)
    requires
        0 <= m <= n <= layers.len(),
    ensures
        layers_sounds_upto(layers, m, loaded).len() <= layers_sounds_upto(layers, n, loaded).len(),
        layers_sounds_upto(layers, n, loaded).subrange(0, layers_sounds_upto(layers, m, loaded).len() as int)
            == layers_sounds_upto(layers, m, loaded),
    decreases n - m,
{
    if m < n {
        lemma_sounds_upto_prefix(layers, m, n - 1, loaded);
        let a = layers_sounds_upto(layers, m, loaded);
        let prev = layers_sounds_upto(layers, n - 1, loaded);
        let last = layer_sounds(layers[n - 1], loaded);
        assert(layers_sounds_upto(layers, n, loaded) == prev + last);
        assert((prev + last).subrange(0, a.len() as int) =~= prev.subrange(0, a.len() as int));
    } else {
        assert(layers_sounds_upto(layers, n, loaded).subrange(
            0,
            layers_sounds_upto(layers, n, loaded).len() as int,
        ) =~= layers_sounds_upto(layers, n, loaded));
    }
}

/// A shown group draws the strokes of its layers one layer after the
/// other: for layers `i < j` of the group, the strokes of layer `i` stand,
/// in their own order and without a gap, somewhere before those of layer
/// `j`, which stand the same way.
pub proof fn law_shown_group_draws_layers_in_order(layer: LayerTree, i: int, j: int)
    requires
        layer.show,
        layer.content is Group,
        0 <= i < j < layer.content->Group_0@.len(),
    ensures
        exists|oi: int, oj: int|
            0 <= oi && oi + layer_strokes(layer.content->Group_0@[i]).len() <= oj && oj + layer_strokes(
                layer.content->Group_0@[j],
            ).len() <= layer_strokes(layer).len() && #[trigger] layer_strokes(layer).subrange(
                oi,
                oi + layer_strokes(layer.content->Group_0@[i]).len(),
            ) == layer_strokes(layer.content->Group_0@[i]) && #[trigger] layer_strokes(layer).subrange(
                oj,
                oj + layer_strokes(layer.content->Group_0@[j]).len(),
            ) == layer_strokes(layer.content->Group_0@[j]),
{
    let ls = layer.content->Group_0@;
    let n = ls.len() as int;
    let all = layer_strokes(layer);
    assert(all == layers_strokes_upto(ls, n));
    let ci = layer_strokes(ls[i]);
    let cj = layer_strokes(ls[j]);
    let oi = layers_strokes_upto(ls, i).len() as int;
    let oj = layers_strokes_upto(ls, j).len() as int;
    lemma_strokes_upto_prefix(ls, i + 1, n);
    lemma_strokes_upto_prefix(ls, j + 1, n);
    lemma_strokes_upto_prefix(ls, i + 1, j);
    let ui = layers_strokes_upto(ls, i + 1);
    let uj = layers_strokes_upto(ls, j + 1);
    assert(ui == layers_strokes_upto(ls, i) + ci);
    assert(uj == layers_strokes_upto(ls, j) + cj);
    assert(all.subrange(oi, oi + ci.len()) =~= ci) by {
        assert forall|k: int| 0 <= k < ci.len() implies all.subrange(oi, oi + ci.len())[k] == ci[k] by {
            assert(all.subrange(0, ui.len() as int)[oi + k] == ui[oi + k]);
        }
    }
    assert(all.subrange(oj, oj + cj.len()) =~= cj) by {
        assert forall|k: int| 0 <= k < cj.len() implies all.subrange(oj, oj + cj.len())[k] == cj[k] by {
            assert(all.subrange(0, uj.len() as int)[oj + k] == uj[oj + k]);
        }
    }
    assert(all.subrange(oi, oi + ci.len()) == ci && all.subrange(oj, oj + cj.len()) == cj);
}

/// A shown group plays the sounds heard from its layers one layer after the
/// other: for layers `i < j` of the group, the sounds heard from layer `i`
/// stand, in their own order and without a gap, somewhere before those
/// heard from layer `j`, which stand the same way.
pub proof fn law_shown_group_plays_layers_in_order(layer: LayerTree, loaded: Seq<u64>, i: int, j: int)
    requires
        layer.show,
        layer.content is Group,
        0 <= i < j < layer.content->Group_0@.len(),
    ensures
        exists|oi: int, oj: int|
            0 <= oi && oi + layer_sounds(layer.content->Group_0@[i], loaded).len() <= oj && oj + layer_sounds(
                layer.content->Group_0@[j],
                loaded,
            ).len() <= layer_sounds(layer, loaded).len() && #[trigger] layer_sounds(layer, loaded).subrange(
                oi,
                oi + layer_sounds(layer.content->Group_0@[i], loaded).len(),
            ) == layer_sounds(layer.content->Group_0@[i], loaded) && #[trigger] layer_sounds(
                layer,
                loaded,
            ).subrange(oj, oj + layer_sounds(layer.content->Group_0@[j], loaded).len()) == layer_sounds(
                layer.content->Group_0@[j],
                loaded,
            ),
{
    let ls = layer.content->Group_0@;
    let n = ls.len() as int;
    let all = layer_sounds(layer, loaded);
    assert(all == layers_sounds_upto(ls, n, loaded));
    let ci = layer_sounds(ls[i], loaded);
    let cj = layer_sounds(ls[j], loaded);
    let oi = layers_sounds_upto(ls, i, loaded).len() as int;
    let oj = layers_sounds_upto(ls, j, loaded).len() as int;
    lemma_sounds_upto_prefix(ls, i + 1, n, loaded);
    lemma_sounds_upto_prefix(ls, j + 1, n, loaded);
    lemma_sounds_upto_prefix(ls, i + 1, j, loaded);
    let ui = layers_sounds_upto(ls, i + 1, loaded);
    let uj = layers_sounds_upto(ls, j + 1, loaded);
    assert(ui == layers_sounds_upto(ls, i, loaded) + ci);
    assert(uj == layers_sounds_upto(ls, j, loaded) + cj);
    assert(all.subrange(oi, oi + ci.len()) =~= ci) by {
        assert forall|k: int| 0 <= k < ci.len() implies all.subrange(oi, oi + ci.len())[k] == ci[k] by {
            assert(all.subrange(0, ui.len() as int)[oi + k] == ui[oi + k]);
        }
    }
    assert(all.subrange(oj, oj + cj.len()) =~= cj) by {
        assert forall|k: int| 0 <= k < cj.len() implies all.subrange(oj, oj + cj.len())[k] == cj[k] by {
            assert(all.subrange(0, uj.len() as int)[oj + k] == uj[oj + k]);
        }
    }
    assert(all.subrange(oi, oi + ci.len()) == ci && all.subrange(oj, oj + cj.len()) == cj);
}

/// A shown audio layer plays each of its sound instances whose audio file
/// is loaded.
pub proof fn law_shown_audio_plays_loaded(layer: LayerTree, loaded: Seq<u64>, k: int)
    requires
        layer.show,
        layer.content is Audio,
        0 <= k < layer.content->Audio_0@.len(),
        loaded.contains(layer.content->Audio_0@[k].audio),
    ensures
        layer_sounds(layer, loaded).contains(layer.content->Audio_0@[k]),
{
    let sounds = layer.content->Audio_0@;
    sounds.lemma_filter_contains(|s: SoundRef| loaded.contains(s.audio), k);
}

/// `sound` is a sound instance of an audio layer reached from `layer`
/// through shown layers only (`layer` itself shown).
pub open spec fn audible_in(layer: LayerTree, sound: SoundRef) -> bool
    decreases layer,
{
    layer.show && match layer.content {
        LayerContent::Audio(sounds) => sounds@.contains(sound),
        LayerContent::Group(layers) => audible_in_upto(layers@, layers@.len() as int, sound),
        _ => false,
    }
}

/// `stroke` is a stroke of the shown frame of an animation layer reached
/// from `layer` through shown layers only (`layer` itself shown).
pub open spec fn visible_in(layer: LayerTree, stroke: u64) -> bool
    decreases layer,
{
    layer.show && match layer.content {
        LayerContent::Animation(Some(strokes)) => strokes@.contains(stroke),
        LayerContent::Group(layers) => visible_in_upto(layers@, layers@.len() as int, stroke),
        _ => false,
    }
}

/// `sound` is audible in one of the first `n` of `layers`.
pub open spec fn audible_in_upto(layers: Seq<LayerTree>, n: int, sound: SoundRef) -> bool
    decreases layers, n,
{
    if n <= 0 || n > layers.len() {
        false
    } else {
        audible_in_upto(layers, n - 1, sound) || audible_in(layers[n - 1], sound)
    }
}

/// `stroke` is visible in one of the first `n` of `layers`.
pub open spec fn visible_in_upto(layers: Seq<LayerTree>, n: int, stroke: u64) -> bool
    decreases layers, n,
{
    if n <= 0 || n > layers.len() {
        false
    } else {
        visible_in_upto(layers, n - 1, stroke) || visible_in(layers[n - 1], stroke)
    }
}

/// Every sound heard from a layer is a sound instance of an audio layer
/// reached through shown layers only.
pub proof fn law_heard_sounds_come_from_shown_layers(layer: LayerTree, loaded: Seq<u64>)
    ensures
        forall|k: int|
            0 <= k < layer_sounds(layer, loaded).len() ==> audible_in(
                layer,
                #[trigger] layer_sounds(layer, loaded)[k],
            ),
    decreases layer,
{
    if layer.show {
        match layer.content {
            LayerContent::Audio(sounds) => {
                assert forall|k: int| 0 <= k < layer_sounds(layer, loaded).len() implies audible_in(
                    layer,
                    #[trigger] layer_sounds(layer, loaded)[k],
                ) by {
                    let snd = layer_sounds(layer, loaded)[k];
                    assert(layer_sounds(layer, loaded).contains(snd));
                    sounds@.lemma_filter_contains_rev(|s: SoundRef| loaded.contains(s.audio), snd);
                }
            },
            LayerContent::Group(layers) => {
                assert(decreases_to!(layer => layer.content));
                assert(decreases_to!(layer.content => layers));
                assert(decreases_to!(layers => layers@));
                lemma_upto_sounds_audible(layers@, layers@.len() as int, loaded);
                assert(layer_sounds(layer, loaded) == layers_sounds_upto(layers@, layers@.len() as int, loaded));
                assert forall|k: int| 0 <= k < layer_sounds(layer, loaded).len() implies audible_in(
                    layer,
                    #[trigger] layer_sounds(layer, loaded)[k],
                ) by {
                    let snd = layer_sounds(layer, loaded)[k];
                    assert(snd == layers_sounds_upto(layers@, layers@.len() as int, loaded)[k]);
                    assert(audible_in_upto(layers@, layers@.len() as int, snd));
                }
            },
            _ => {
                assert(layer_sounds(layer, loaded).len() == 0);
            },
        }
    } else {
        assert(layer_sounds(layer, loaded).len() == 0);
    }
}

proof fn lemma_upto_sounds_audible(layers: Seq<LayerTree>, n: int, loaded: Seq<u64>)
    ensures
        forall|k: int|
            0 <= k < layers_sounds_upto(layers, n, loaded).len() ==> audible_in_upto(
                layers,
                n,
                #[trigger] layers_sounds_upto(layers, n, loaded)[k],
            ),
    decreases layers, n,
{
    if 0 < n <= layers.len() {
        lemma_upto_sounds_audible(layers, n - 1, loaded);
        law_heard_sounds_come_from_shown_layers(layers[n - 1], loaded);
        let prev = layers_sounds_upto(layers, n - 1, loaded);
        let last = layer_sounds(layers[n - 1], loaded);
        assert(layers_sounds_upto(layers, n, loaded) == prev + last);
        let all = layers_sounds_upto(layers, n, loaded);
        assert forall|k: int| 0 <= k < all.len() implies audible_in_upto(layers, n, #[trigger] all[k]) by {
            if k < prev.len() {
                assert(all[k] == prev[k]);
                assert(audible_in_upto(layers, n - 1, prev[k]));
            } else {
                assert(all[k] == last[k - prev.len()]);
                assert(audible_in(layers[n - 1], last[k - prev.len()]));
                assert(audible_in(layers[n - 1], all[k]));
            }
        }
    } else {
        assert(layers_sounds_upto(layers, n, loaded).len() == 0);
    }
}

/// Every stroke drawn by a layer belongs to the shown frame of an animation
/// layer reached through shown layers only.
pub proof fn law_drawn_strokes_come_from_shown_layers(layer: LayerTree)
    ensures
        forall|k: int| 0 <= k < layer_strokes(layer).len() ==> visible_in(layer, #[trigger] layer_strokes(layer)[k]),
    decreases layer,
{
    if layer.show {
        match layer.content {
            LayerContent::Animation(Some(strokes)) => {
                assert forall|k: int| 0 <= k < layer_strokes(layer).len() implies visible_in(
                    layer,
                    #[trigger] layer_strokes(layer)[k],
                ) by {
                    assert(strokes@[k] == layer_strokes(layer)[k]);
                }
            },
            LayerContent::Group(layers) => {
                assert(decreases_to!(layer => layer.content));
                assert(decreases_to!(layer.content => layers));
                assert(decreases_to!(layers => layers@));
                lemma_upto_strokes_visible(layers@, layers@.len() as int);
                assert(layer_strokes(layer) == layers_strokes_upto(layers@, layers@.len() as int));
                assert forall|k: int| 0 <= k < layer_strokes(layer).len() implies visible_in(
                    layer,
                    #[trigger] layer_strokes(layer)[k],
                ) by {
                    let st = layer_strokes(layer)[k];
                    assert(st == layers_strokes_upto(layers@, layers@.len() as int)[k]);
                    assert(visible_in_upto(layers@, layers@.len() as int, st));
                }
            },
            _ => {
                assert(layer_strokes(layer).len() == 0);
            },
        }
    } else {
        assert(layer_strokes(layer).len() == 0);
    }
}

proof fn lemma_upto_strokes_visible(layers: Seq<LayerTree>, n: int)
    ensures
        forall|k: int|
            0 <= k < layers_strokes_upto(layers, n).len() ==> visible_in_upto(
                layers,
                n,
                #[trigger] layers_strokes_upto(layers, n)[k],
            ),
    decreases layers, n,
{
    if 0 < n <= layers.len() {
        lemma_upto_strokes_visible(layers, n - 1);
        law_drawn_strokes_come_from_shown_layers(layers[n - 1]);
        let prev = layers_strokes_upto(layers, n - 1);
        let last = layer_strokes(layers[n - 1]);
        assert(layers_strokes_upto(layers, n) == prev + last);
        let all = layers_strokes_upto(layers, n);
        assert forall|k: int| 0 <= k < all.len() implies visible_in_upto(layers, n, #[trigger] all[k]) by {
            if k < prev.len() {
                assert(all[k] == prev[k]);
                assert(visible_in_upto(layers, n - 1, prev[k]));
            } else {
                assert(all[k] == last[k - prev.len()]);
                assert(visible_in(layers[n - 1], last[k - prev.len()]));
                assert(visible_in(layers[n - 1], all[k]));
            }
        }
    } else {
        assert(layers_strokes_upto(layers, n).len() == 0);
    }
}

/// Every sound heard from a layer has its audio file loaded.
pub proof fn law_heard_sounds_are_loaded(layer: LayerTree, loaded: Seq<u64>)
    ensures
        forall|k: int|
            0 <= k < layer_sounds(layer, loaded).len() ==> loaded.contains(
                (#[trigger] layer_sounds(layer, loaded)[k]).audio,
            ),
    decreases layer,
{
    if layer.show {
        match layer.content {
            LayerContent::Audio(sounds) => {
                assert forall|k: int| 0 <= k < layer_sounds(layer, loaded).len() implies loaded.contains(
                    (#[trigger] layer_sounds(layer, loaded)[k]).audio,
                ) by {
                    sounds@.lemma_filter_pred(|s: SoundRef| loaded.contains(s.audio), k);
                }
            },
            LayerContent::Group(layers) => {
                assert(decreases_to!(layer => layer.content));
                assert(decreases_to!(layer.content => layers));
                assert(decreases_to!(layers => layers@));
                lemma_upto_sounds_loaded(layers@, layers@.len() as int, loaded);
                assert(layer_sounds(layer, loaded) == layers_sounds_upto(layers@, layers@.len() as int, loaded));
            },
            _ => {
                assert(layer_sounds(layer, loaded).len() == 0);
            },
        }
    } else {
        assert(layer_sounds(layer, loaded).len() == 0);
    }
}

proof fn lemma_upto_sounds_loaded(layers: Seq<LayerTree>, n: int, loaded: Seq<u64>)
    ensures
        forall|k: int|
            0 <= k < layers_sounds_upto(layers, n, loaded).len() ==> loaded.contains(
                (#[trigger] layers_sounds_upto(layers, n, loaded)[k]).audio,
            ),
    decreases layers, n,
{
    if 0 < n <= layers.len() {
        lemma_upto_sounds_loaded(layers, n - 1, loaded);
        law_heard_sounds_are_loaded(layers[n - 1], loaded);
        let prev = layers_sounds_upto(layers, n - 1, loaded);
        let last = layer_sounds(layers[n - 1], loaded);
        assert(layers_sounds_upto(layers, n, loaded) == prev + last);
        assert forall|k: int| 0 <= k < (prev + last).len() implies loaded.contains(
            (#[trigger] (prev + last)[k]).audio,
        ) by {
            if k < prev.len() {
                assert((prev + last)[k] == prev[k]);
            } else {
                assert((prev + last)[k] == last[k - prev.len()]);
            }
        }
    }
}

/// `drawn` holds every stroke drawn by each of `layers`.
pub open spec fn draws_every_layer(drawn: Seq<u64>, layers: Seq<LayerTree>) -> bool {
    forall|i: int, k: int|
        0 <= i < layers.len() && 0 <= k < layer_strokes(layers[i]).len() ==> drawn.contains(
            #[trigger] layer_strokes(layers[i])[k],
        )
}

/// `heard` holds every sound heard from each of `layers`, and only sounds
/// whose audio file is loaded.
pub open spec fn hears_every_layer(heard: Seq<SoundRef>, layers: Seq<LayerTree>, loaded: Seq<u64>) -> bool {
    &&& forall|i: int, k: int|
        0 <= i < layers.len() && 0 <= k < layer_sounds(layers[i], loaded).len() ==> heard.contains(
            #[trigger] layer_sounds(layers[i], loaded)[k],
        )
    &&& forall|k: int| 0 <= k < heard.len() ==> loaded.contains((#[trigger] heard[k]).audio)
}

/// Appends to `strokes` the strokes drawn by `layer`.
pub fn visible_strokes_in_layer(layer: &LayerTree, strokes: &mut Vec<u64>)
    ensures
        final(strokes)@ == old(strokes)@ + layer_strokes(*layer),
    decreases layer,
{
    if !layer.show {
        proof {
            assert(old(strokes)@ + Seq::<u64>::empty() =~= old(strokes)@);
        }
        return;
    }
    match &layer.content {
        LayerContent::Animation(Some(frame_strokes)) => {
            let mut i: usize = 0;
            while i < frame_strokes.len()
                invariant
                    i <= frame_strokes@.len(),
                    strokes@ == old(strokes)@ + frame_strokes@.subrange(0, i as int),
                decreases frame_strokes@.len() - i,
            {
                strokes.push(frame_strokes[i]);
                proof {
                    assert(frame_strokes@.subrange(0, i + 1) =~= frame_strokes@.subrange(0, i as int).push(
                        frame_strokes@[i as int],
                    ));
                }
                i += 1;
            }
            proof {
                assert(frame_strokes@.subrange(0, frame_strokes@.len() as int) =~= frame_strokes@);
            }
        },
        LayerContent::Group(layers) => {
            let mut i: usize = 0;
            proof {
                assert(old(strokes)@ + Seq::<u64>::empty() =~= old(strokes)@);
            }
            while i < layers.len()
                invariant
                    i <= layers@.len(),
                    layer.show,
                    layer.content == LayerContent::Group(*layers),
                    strokes@ == old(strokes)@ + layers_strokes_upto(layers@, i as int),
                decreases layers@.len() - i,
            {
                proof {
                    assert(decreases_to!(*layer => layer.content));
                    assert(decreases_to!(layer.content => layer.content->Group_0));
                    assert(decreases_to!(*layers => layers@));
                    assert(decreases_to!(layers@ => layers@[i as int]));
                }
                let ghost before = strokes@;
                visible_strokes_in_layer(&layers[i], strokes);
                proof {
                    assert(layers_strokes_upto(layers@, i + 1) == layers_strokes_upto(layers@, i as int)
                        + layer_strokes(layers@[i as int]));
                    assert(strokes@ =~= old(strokes)@ + layers_strokes_upto(layers@, i + 1));
                }
                i += 1;
            }
        },
        _ => {
            proof {
                assert(old(strokes)@ + Seq::<u64>::empty() =~= old(strokes)@);
            }
        },
    }
}

/// The strokes drawn by the layers of the open graphic, in layer order;
/// none when no graphic is open.
pub fn visible_strokes(graphic_layers: Option<&Vec<LayerTree>>) -> (res: Vec<u64>)
    ensures
        res@ == match graphic_layers {
            Some(layers) => layers_strokes_upto(layers@, layers@.len() as int),
            None => Seq::empty(),
        },
        match graphic_layers {
            Some(layers) => draws_every_layer(res@, layers@),
            None => true,
        },
{
    let mut res: Vec<u64> = Vec::new();
    if let Some(layers) = graphic_layers {
        let mut i: usize = 0;
        proof {
            assert(res@ =~= layers_strokes_upto(layers@, 0));
        }
        while i < layers.len()
            invariant
                i <= layers@.len(),
                res@ == layers_strokes_upto(layers@, i as int),
            decreases layers@.len() - i,
        {
            visible_strokes_in_layer(&layers[i], &mut res);
            i += 1;
        }
        proof {
            assert forall|i: int, k: int|
                0 <= i < layers@.len() && 0 <= k < layer_strokes(layers@[i]).len() implies res@.contains(
                    #[trigger] layer_strokes(layers@[i])[k],
                ) by {
                lemma_strokes_upto_contains(layers@, layers@.len() as int, i, k);
            }
        }
    }
    res
}

/// Appends to `clips` the sound instances heard from `layers`, layer after
/// layer, given the keys of the audio files that are loaded.
pub fn add_layers_to_audio_state(layers: &Vec<LayerTree>, loaded: &Vec<u64>, clips: &mut Vec<SoundRef>)
    ensures
        final(clips)@ == old(clips)@ + layers_sounds_upto(layers@, layers@.len() as int, loaded@),
    decreases layers,
{
    let ghost keep = |s: SoundRef| loaded@.contains(s.audio);
    let mut i: usize = 0;
    proof {
        assert(old(clips)@ + Seq::<SoundRef>::empty() =~= old(clips)@);
    }
    while i < layers.len()
        invariant
            i <= layers@.len(),
            keep == (|s: SoundRef| loaded@.contains(s.audio)),
            clips@ == old(clips)@ + layers_sounds_upto(layers@, i as int, loaded@),
        decreases layers@.len() - i,
    {
        let layer = &layers[i];
        let ghost before = clips@;
        if layer.show {
            match &layer.content {
                LayerContent::Audio(sounds) => {
                    let mut k: usize = 0;
                    proof {
                        assert(sounds@.subrange(0, 0).filter(keep) =~= Seq::<SoundRef>::empty());
                        assert(before + Seq::<SoundRef>::empty() =~= before);
                    }
                    while k < sounds.len()
                        invariant
                            k <= sounds@.len(),
                            keep == (|s: SoundRef| loaded@.contains(s.audio)),
                            clips@ == before + sounds@.subrange(0, k as int).filter(keep),
                        decreases sounds@.len() - k,
                    {
                        let s = sounds[k];
                        proof {
                            let pre = sounds@.subrange(0, k as int);
                            assert(sounds@.subrange(0, k + 1) =~= pre.push(s));
                            assert(pre.push(s).drop_last() =~= pre);
                            reveal_with_fuel(Seq::filter, 1);
                        }
                        if position_of(loaded, s.audio).is_some() {
                            clips.push(s);
                        }
                        proof {
                            assert(clips@ =~= before + sounds@.subrange(0, k + 1).filter(keep));
                        }
                        k += 1;
                    }
                    proof {
                        assert(sounds@.subrange(0, sounds@.len() as int) =~= sounds@);
                    }
                },
                LayerContent::Group(children) => {
                    proof {
                        assert(decreases_to!(*layers => layers@));
                        assert(decreases_to!(layers@ => layers@[i as int]));
                        assert(decreases_to!(layers@[i as int] => layers@[i as int].content));
                        assert(decreases_to!(layers@[i as int].content => layers@[i as int].content->Group_0));
                    }
                    add_layers_to_audio_state(children, loaded, clips);
                },
                _ => {
                    proof {
                        assert(before + Seq::<SoundRef>::empty() =~= before);
                    }
                },
            }
        } else {
            proof {
                assert(before + Seq::<SoundRef>::empty() =~= before);
            }
        }
        proof {
            assert(clips@ =~= before + layer_sounds(layers@[i as int], loaded@));
            assert(layers_sounds_upto(layers@, i + 1, loaded@) == layers_sounds_upto(layers@, i as int, loaded@)
                + layer_sounds(layers@[i as int], loaded@));
            assert(clips@ =~= old(clips)@ + layers_sounds_upto(layers@, i + 1, loaded@));
        }
        i += 1;
    }
}

/// The sound instances heard when playing a graphic with the given layers
/// (`None` when the graphic does not exist), in layer order.
pub fn get_audio_state(graphic_layers: Option<&Vec<LayerTree>>, loaded: &Vec<u64>) -> (res: Option<Vec<SoundRef>>)
    ensures
        match graphic_layers {
            Some(layers) => res is Some && res->0@ == layers_sounds_upto(layers@, layers@.len() as int, loaded@),
            None => res is None,
        },
        match graphic_layers {
            Some(layers) => res is Some && hears_every_layer(res->0@, layers@, loaded@),
            None => true,
        },
{
    let layers = match graphic_layers {
        Some(layers) => layers,
        None => return None,
    };
    let mut clips: Vec<SoundRef> = Vec::new();
    add_layers_to_audio_state(layers, loaded, &mut clips);
    proof {
        assert(clips@ =~= layers_sounds_upto(layers@, layers@.len() as int, loaded@));
        assert forall|i: int, k: int|
            0 <= i < layers@.len() && 0 <= k < layer_sounds(layers@[i], loaded@).len() implies clips@.contains(
                #[trigger] layer_sounds(layers@[i], loaded@)[k],
            ) by {
            lemma_sounds_upto_contains(layers@, layers@.len() as int, loaded@, i, k);
        }
        lemma_upto_sounds_loaded(layers@, layers@.len() as int, loaded@);
    }
    Some(clips)
}

} // verus!
