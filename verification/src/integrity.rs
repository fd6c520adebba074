//! What edits keep: unique ids, validity, and the clips they do not touch.

use vstd::prelude::*;
use crate::document::{ClipView, OverlayTrackView, ProjectView, SceneView};
use crate::spots::{lemma_spot, lemma_spot_layer, lemma_spot_overlay};
use crate::timeline::{found, holds, lemma_position, lemma_position_is, position, spot_of,
    with_layers, with_track, Spot};
use crate::validate::{all_ids, clip_ids, ids_ok, scene_ids, track_ids};

verus! {

/// `b` is `a` with `x` put in somewhere.
pub open spec fn inserted(a: Seq<Seq<char>>, b: Seq<Seq<char>>, x: Seq<char>) -> bool {
    exists|k: int| 0 <= k <= a.len() && b == #[trigger] a.insert(k, x)
}

proof fn lemma_inserted_at(a: Seq<Seq<char>>, b: Seq<Seq<char>>, x: Seq<char>, k: int)
    requires
        0 <= k <= a.len(),
        b =~= a.insert(k, x),
    ensures
        inserted(a, b, x),
{
    assert(b == a.insert(k, x));
}

pub proof fn lemma_inserted_between(
    before: Seq<Seq<char>>,
    a: Seq<Seq<char>>,
    b: Seq<Seq<char>>,
    after: Seq<Seq<char>>,
    x: Seq<char>,
)
    requires
        inserted(a, b, x),
    ensures
        inserted(before + a + after, before + b + after, x),
{
    let k = choose|k: int| 0 <= k <= a.len() && b == #[trigger] a.insert(k, x);
    lemma_inserted_at(before + a + after, before + b + after, x, before.len() + k);
}

/// A new id keeps ids unique.
pub proof fn lemma_inserted_ok(a: Seq<Seq<char>>, b: Seq<Seq<char>>, x: Seq<char>)
    requires
        ids_ok(a),
        inserted(a, b, x),
        x.len() > 0,
        !a.contains(x),
    ensures
        ids_ok(b),
{
    let k = choose|k: int| 0 <= k <= a.len() && b == #[trigger] a.insert(k, x);
    assert forall|i: int| 0 <= i < b.len() implies (#[trigger] b[i]).len() > 0 by {
        if i < k {
            assert(b[i] == a[i]);
        } else if i > k {
            assert(b[i] == a[i - 1]);
        }
    }
    assert forall|i: int, j: int| 0 <= i < b.len() && 0 <= j < b.len() && i != j implies b[i]
        != b[j] by {
        let m = |n: int| if n < k {
            n
        } else {
            n - 1
        };
        if i == k {
            assert(b[j] == a[m(j)]);
        } else if j == k {
            assert(b[i] == a[m(i)]);
        } else {
            assert(b[i] == a[m(i)] && b[j] == a[m(j)]);
        }
    }
}

/// Taking an id out keeps the others unique, and it is gone.
pub proof fn lemma_taken_out(a: Seq<Seq<char>>, b: Seq<Seq<char>>, x: Seq<char>)
    requires
        ids_ok(a),
        inserted(b, a, x),
    ensures
        ids_ok(b),
        !b.contains(x),
        a.len() == b.len() + 1,
{
    let k = choose|k: int| 0 <= k <= b.len() && a == #[trigger] b.insert(k, x);
    let m = |n: int| if n < k {
        n
    } else {
        n + 1
    };
    assert forall|i: int| 0 <= i < b.len() implies (#[trigger] b[i]).len() > 0 && b[i] != x by {
        assert(b[i] == a[m(i)]);
        assert(a[k] == x);
    }
    assert forall|i: int, j: int| 0 <= i < b.len() && 0 <= j < b.len() && i != j implies b[i]
        != b[j] by {
        assert(b[i] == a[m(i)] && b[j] == a[m(j)]);
    }
}

pub proof fn lemma_clip_ids_are(clips: Seq<ClipView>, i: int)
    requires
        0 <= i <= clips.len(),
    ensures
        clip_ids(clips, i) == Seq::new((clips.len() - i) as nat, |j: int| clips[i + j].id),
    decreases clips.len() - i,
{
    let wanted = Seq::new((clips.len() - i) as nat, |j: int| clips[i + j].id);
    if i < clips.len() {
        lemma_clip_ids_are(clips, i + 1);
        assert(clip_ids(clips, i) =~= wanted);
    } else {
        assert(clip_ids(clips, i) =~= wanted);
    }
}

/// A clip more in a list is an id more.
pub proof fn lemma_clip_in(clips: Seq<ClipView>, k: int, c: ClipView)
    requires
        0 <= k <= clips.len(),
    ensures
        inserted(clip_ids(clips, 0), clip_ids(clips.insert(k, c), 0), c.id),
{
    lemma_clip_ids_are(clips, 0);
    lemma_clip_ids_are(clips.insert(k, c), 0);
    lemma_inserted_at(clip_ids(clips, 0), clip_ids(clips.insert(k, c), 0), c.id, k);
}

/// A clip less in a list is an id less.
pub proof fn lemma_clip_out(clips: Seq<ClipView>, k: int)
    requires
        0 <= k < clips.len(),
    ensures
        inserted(clip_ids(clips.remove(k), 0), clip_ids(clips, 0), clips[k].id),
{
    assert(clips.remove(k).insert(k, clips[k]) =~= clips);
    lemma_clip_in(clips.remove(k), k, clips[k]);
}

/// Lists that name the same clips in the same order.
pub proof fn lemma_same_ids(a: Seq<ClipView>, b: Seq<ClipView>)
    requires
        a.len() == b.len(),
        forall|i: int| 0 <= i < a.len() ==> (#[trigger] a[i]).id == b[i].id,
    ensures
        clip_ids(a, 0) == clip_ids(b, 0),
{
    lemma_clip_ids_are(a, 0);
    lemma_clip_ids_are(b, 0);
    assert(clip_ids(a, 0) =~= clip_ids(b, 0));
}

proof fn lemma_scene_ids_swap(a: Seq<SceneView>, b: Seq<SceneView>, s: int, i: int)
    requires
        a.len() == b.len(),
        0 <= i <= a.len(),
        0 <= s < a.len(),
        forall|j: int| 0 <= j < a.len() && j != s ==> #[trigger] a[j] == b[j],
        a[s].id == b[s].id,
    ensures
        i > s ==> scene_ids(a, i) == scene_ids(b, i),
        clip_ids(a[s].layers, 0) == clip_ids(b[s].layers, 0) ==> scene_ids(a, i) == scene_ids(
            b,
            i,
        ),
        forall|x: Seq<char>|
            i <= s && #[trigger] inserted(
                clip_ids(a[s].layers, 0),
                clip_ids(b[s].layers, 0),
                x,
            ) ==> inserted(scene_ids(a, i), scene_ids(b, i), x),
    decreases a.len() - i,
{
    if i < a.len() {
        lemma_scene_ids_swap(a, b, s, i + 1);
        let none = Seq::<Seq<char>>::empty();
        assert forall|x: Seq<char>|
            i <= s && #[trigger] inserted(
                clip_ids(a[s].layers, 0),
                clip_ids(b[s].layers, 0),
                x,
            ) implies inserted(scene_ids(a, i), scene_ids(b, i), x) by {
            if i == s {
                lemma_inserted_between(
                    seq![a[s].id],
                    clip_ids(a[s].layers, 0),
                    clip_ids(b[s].layers, 0),
                    scene_ids(a, i + 1),
                    x,
                );
            } else {
                assert(a[i] == b[i]);
                let head = seq![a[i].id] + clip_ids(a[i].layers, 0);
                lemma_inserted_between(head, scene_ids(a, i + 1), scene_ids(b, i + 1), none, x);
                assert(head + scene_ids(a, i + 1) + none =~= scene_ids(a, i));
                assert(head + scene_ids(b, i + 1) + none =~= scene_ids(b, i));
            }
        }
        if i != s {
            assert(a[i] == b[i]);
        }
    }
}

proof fn lemma_track_ids_swap(a: Seq<OverlayTrackView>, b: Seq<OverlayTrackView>, s: int, i: int)
    requires
        a.len() == b.len(),
        0 <= i <= a.len(),
        0 <= s < a.len(),
        forall|j: int| 0 <= j < a.len() && j != s ==> #[trigger] a[j] == b[j],
        a[s].id == b[s].id,
    ensures
        i > s ==> track_ids(a, i) == track_ids(b, i),
        clip_ids(a[s].clips, 0) == clip_ids(b[s].clips, 0) ==> track_ids(a, i) == track_ids(b, i),
        forall|x: Seq<char>|
            i <= s && #[trigger] inserted(
                clip_ids(a[s].clips, 0),
                clip_ids(b[s].clips, 0),
                x,
            ) ==> inserted(track_ids(a, i), track_ids(b, i), x),
    decreases a.len() - i,
{
    if i < a.len() {
        lemma_track_ids_swap(a, b, s, i + 1);
        let none = Seq::<Seq<char>>::empty();
        assert forall|x: Seq<char>|
            i <= s && #[trigger] inserted(
                clip_ids(a[s].clips, 0),
                clip_ids(b[s].clips, 0),
                x,
            ) implies inserted(track_ids(a, i), track_ids(b, i), x) by {
            if i == s {
                lemma_inserted_between(
                    seq![a[s].id],
                    clip_ids(a[s].clips, 0),
                    clip_ids(b[s].clips, 0),
                    track_ids(a, i + 1),
                    x,
                );
            } else {
                assert(a[i] == b[i]);
                let head = seq![a[i].id] + clip_ids(a[i].clips, 0);
                lemma_inserted_between(head, track_ids(a, i + 1), track_ids(b, i + 1), none, x);
                assert(head + track_ids(a, i + 1) + none =~= track_ids(a, i));
                assert(head + track_ids(b, i + 1) + none =~= track_ids(b, i));
            }
        }
        if i != s {
            assert(a[i] == b[i]);
        }
    }
}

/// Documents that differ in one scene, which keeps its id: the ids differ as
/// those of the layers do.
pub proof fn lemma_scene_swapped(p: ProjectView, q: ProjectView, s: int)
    requires
        p.overlays == q.overlays,
        p.scenes.len() == q.scenes.len(),
        0 <= s < p.scenes.len(),
        forall|j: int| 0 <= j < p.scenes.len() && j != s ==> #[trigger] p.scenes[j] == q.scenes[j],
        p.scenes[s].id == q.scenes[s].id,
    ensures
        clip_ids(p.scenes[s].layers, 0) == clip_ids(q.scenes[s].layers, 0) ==> all_ids(p)
            == all_ids(q),
        forall|x: Seq<char>| #[trigger]
            inserted(
                clip_ids(p.scenes[s].layers, 0),
                clip_ids(q.scenes[s].layers, 0),
                x,
            ) ==> inserted(all_ids(p), all_ids(q), x),
{
    lemma_scene_ids_swap(p.scenes, q.scenes, s, 0);
    let none = Seq::<Seq<char>>::empty();
    assert forall|x: Seq<char>| #[trigger]
        inserted(
            clip_ids(p.scenes[s].layers, 0),
            clip_ids(q.scenes[s].layers, 0),
            x,
        ) implies inserted(all_ids(p), all_ids(q), x) by {
        lemma_inserted_between(
            none,
            scene_ids(p.scenes, 0),
            scene_ids(q.scenes, 0),
            track_ids(p.overlays, 0),
            x,
        );
        assert(none + scene_ids(p.scenes, 0) + track_ids(p.overlays, 0) =~= all_ids(p));
        assert(none + scene_ids(q.scenes, 0) + track_ids(p.overlays, 0) =~= all_ids(q));
    }
}

/// Documents that differ in one overlay track, which keeps its id.
pub proof fn lemma_track_swapped(p: ProjectView, q: ProjectView, t: int)
    requires
        p.scenes == q.scenes,
        p.overlays.len() == q.overlays.len(),
        0 <= t < p.overlays.len(),
        forall|j: int|
            0 <= j < p.overlays.len() && j != t ==> #[trigger] p.overlays[j] == q.overlays[j],
        p.overlays[t].id == q.overlays[t].id,
    ensures
        clip_ids(p.overlays[t].clips, 0) == clip_ids(q.overlays[t].clips, 0) ==> all_ids(p)
            == all_ids(q),
        forall|x: Seq<char>| #[trigger]
            inserted(
                clip_ids(p.overlays[t].clips, 0),
                clip_ids(q.overlays[t].clips, 0),
                x,
            ) ==> inserted(all_ids(p), all_ids(q), x),
{
    lemma_track_ids_swap(p.overlays, q.overlays, t, 0);
    let none = Seq::<Seq<char>>::empty();
    assert forall|x: Seq<char>| #[trigger]
        inserted(
            clip_ids(p.overlays[t].clips, 0),
            clip_ids(q.overlays[t].clips, 0),
            x,
        ) implies inserted(all_ids(p), all_ids(q), x) by {
        lemma_inserted_between(
            scene_ids(p.scenes, 0),
            track_ids(p.overlays, 0),
            track_ids(q.overlays, 0),
            none,
            x,
        );
        assert(scene_ids(p.scenes, 0) + track_ids(p.overlays, 0) + none =~= all_ids(p));
        assert(scene_ids(p.scenes, 0) + track_ids(q.overlays, 0) + none =~= all_ids(q));
    }
}

/// The first clip of a list with a given id.
pub open spec fn first(clips: Seq<ClipView>, x: Seq<char>) -> Option<ClipView> {
    if holds(clips, x) {
        Some(clips[position(clips, x)])
    } else {
        None
    }
}

/// Putting another clip in does not change which one is found.
pub proof fn lemma_first_insert(clips: Seq<ClipView>, k: int, c: ClipView, x: Seq<char>)
    requires
        0 <= k <= clips.len(),
        c.id != x,
    ensures
        first(clips.insert(k, c), x) == first(clips, x),
{
    let after = clips.insert(k, c);
    lemma_position(clips, x);
    lemma_position(after, x);
    let j = position(clips, x);
    if holds(clips, x) {
        let m = if j < k {
            j
        } else {
            j + 1
        };
        assert(after[m] == clips[j]);
        assert forall|n: int| 0 <= n < m implies (#[trigger] after[n]).id != x by {
            if n < k {
                assert(after[n] == clips[n]);
            } else if n > k {
                assert(after[n] == clips[n - 1]);
            }
        }
        lemma_position_is(after, x, m);
    } else if holds(after, x) {
        let n = position(after, x);
        if n < k {
            assert(clips[n].id == x);
        } else {
            assert(clips[n - 1].id == x);
        }
    }
}

/// Taking another clip out does not change which one is found.
pub proof fn lemma_first_remove(clips: Seq<ClipView>, k: int, x: Seq<char>)
    requires
        0 <= k < clips.len(),
        clips[k].id != x,
    ensures
        first(clips.remove(k), x) == first(clips, x),
{
    assert(clips.remove(k).insert(k, clips[k]) =~= clips);
    lemma_first_insert(clips.remove(k), k, clips[k], x);
}

/// Changing another clip does not change which one is found.
pub proof fn lemma_first_update(clips: Seq<ClipView>, k: int, c: ClipView, x: Seq<char>)
    requires
        0 <= k < clips.len(),
        clips[k].id != x,
        c.id != x,
    ensures
        first(clips.update(k, c), x) == first(clips, x),
{
    assert(clips.update(k, c) =~= clips.remove(k).insert(k, c));
    lemma_first_remove(clips, k, x);
    lemma_first_insert(clips.remove(k), k, c, x);
}

/// What is found is the first clip of the first list that has one.
pub proof fn lemma_found_first(p: ProjectView, q: ProjectView, x: Seq<char>)
    requires
        p.scenes.len() == q.scenes.len(),
        p.overlays.len() == q.overlays.len(),
        forall|j: int|
            0 <= j < p.scenes.len() ==> first((#[trigger] p.scenes[j]).layers, x) == first(
                q.scenes[j].layers,
                x,
            ),
        forall|j: int|
            0 <= j < p.overlays.len() ==> first((#[trigger] p.overlays[j]).clips, x) == first(
                q.overlays[j].clips,
                x,
            ),
    ensures
        found(p, x) == found(q, x),
{
    lemma_spot(p, x);
    lemma_spot(q, x);
    match spot_of(p, x) {
        Spot::Layer { scene, index } => {
            assert(first(p.scenes[scene].layers, x) == first(q.scenes[scene].layers, x));
            assert forall|j: int| 0 <= j < scene implies !holds(
                (#[trigger] q.scenes[j]).layers,
                x,
            ) by {
                assert(first(p.scenes[j].layers, x) is None);
            }
            lemma_position(q.scenes[scene].layers, x);
            lemma_spot_layer(q, x, scene, position(q.scenes[scene].layers, x));
        },
        Spot::Overlay { track, index } => {
            assert(first(p.overlays[track].clips, x) == first(q.overlays[track].clips, x));
            assert forall|j: int| 0 <= j < q.scenes.len() implies !holds(
                (#[trigger] q.scenes[j]).layers,
                x,
            ) by {
                assert(first(p.scenes[j].layers, x) is None);
            }
            assert forall|j: int| 0 <= j < track implies !holds(
                (#[trigger] q.overlays[j]).clips,
                x,
            ) by {
                assert(first(p.overlays[j].clips, x) is None);
            }
            lemma_position(q.overlays[track].clips, x);
            lemma_spot_overlay(q, x, track, position(q.overlays[track].clips, x));
        },
        Spot::Absent => {
            assert forall|j: int| 0 <= j < q.scenes.len() implies !holds(
                (#[trigger] q.scenes[j]).layers,
                x,
            ) by {
                assert(first(p.scenes[j].layers, x) is None);
            }
            assert forall|j: int| 0 <= j < q.overlays.len() implies !holds(
                (#[trigger] q.overlays[j]).clips,
                x,
            ) by {
                assert(first(p.overlays[j].clips, x) is None);
            }
        },
    }
}

/// Other layers in one scene, among which the same clip is found.
pub proof fn lemma_found_layers(p: ProjectView, s: int, layers: Seq<ClipView>, x: Seq<char>)
    requires
        0 <= s < p.scenes.len(),
        first(layers, x) == first(p.scenes[s].layers, x),
    ensures
        found(with_layers(p, s, layers), x) == found(p, x),
{
    lemma_found_first(p, with_layers(p, s, layers), x);
}

/// Other clips on one track, among which the same clip is found.
pub proof fn lemma_found_track(p: ProjectView, t: int, clips: Seq<ClipView>, x: Seq<char>)
    requires
        0 <= t < p.overlays.len(),
        first(clips, x) == first(p.overlays[t].clips, x),
    ensures
        found(with_track(p, t, clips), x) == found(p, x),
{
    lemma_found_first(p, with_track(p, t, clips), x);
}

} // verus!
