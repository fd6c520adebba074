//! How many clips and ids a document holds.

use vstd::prelude::*;
use crate::document::{OverlayTrackView, Project, ProjectView, SceneView};
use crate::spots::lemma_clip_ids_len;
use crate::validate::{all_ids, scene_ids, track_ids};

verus! {

/// Number of clips on the layers of the first `n` scenes.
pub open spec fn layer_clips(scenes: Seq<SceneView>, n: int) -> int
    decreases n,
{
    if n <= 0 {
        0
    } else {
        layer_clips(scenes, n - 1) + scenes[n - 1].layers.len()
    }
}

/// Number of clips on the first `n` overlay tracks.
pub open spec fn track_clips(tracks: Seq<OverlayTrackView>, n: int) -> int
    decreases n,
{
    if n <= 0 {
        0
    } else {
        track_clips(tracks, n - 1) + tracks[n - 1].clips.len()
    }
}

/// Number of clips in a document, the layers of its defs left aside.
pub open spec fn clip_count(p: ProjectView) -> int {
    layer_clips(p.scenes, p.scenes.len() as int) + track_clips(p.overlays, p.overlays.len() as int)
}

proof fn lemma_scene_ids_count(scenes: Seq<SceneView>, i: int)
    requires
        0 <= i <= scenes.len(),
    ensures
        scene_ids(scenes, i).len() == scenes.len() - i + layer_clips(scenes, scenes.len() as int)
            - layer_clips(scenes, i),
    decreases scenes.len() - i,
{
    if i < scenes.len() {
        lemma_scene_ids_count(scenes, i + 1);
        lemma_clip_ids_len(scenes[i].layers, 0);
    }
}

proof fn lemma_track_ids_count(tracks: Seq<OverlayTrackView>, i: int)
    requires
        0 <= i <= tracks.len(),
    ensures
        track_ids(tracks, i).len() == tracks.len() - i + track_clips(tracks, tracks.len() as int)
            - track_clips(tracks, i),
    decreases tracks.len() - i,
{
    if i < tracks.len() {
        lemma_track_ids_count(tracks, i + 1);
        lemma_clip_ids_len(tracks[i].clips, 0);
    }
}

/// Every scene, every track and every clip has one id.
pub proof fn law_id_count(p: ProjectView)
    ensures
        all_ids(p).len() == p.scenes.len() + p.overlays.len() + clip_count(p),
{
    lemma_scene_ids_count(p.scenes, 0);
    lemma_track_ids_count(p.overlays, 0);
}

proof fn lemma_layers_grow(scenes: Seq<SceneView>, i: int, n: int)
    requires
        0 <= i <= n <= scenes.len(),
    ensures
        0 <= layer_clips(scenes, i) <= layer_clips(scenes, n),
    decreases n,
{
    if i < n {
        lemma_layers_grow(scenes, i, n - 1);
    } else if n > 0 {
        lemma_layers_grow(scenes, n - 1, n - 1);
    }
}

proof fn lemma_tracks_grow(tracks: Seq<OverlayTrackView>, i: int, n: int)
    requires
        0 <= i <= n <= tracks.len(),
    ensures
        0 <= track_clips(tracks, i) <= track_clips(tracks, n),
    decreases n,
{
    if i < n {
        lemma_tracks_grow(tracks, i, n - 1);
    } else if n > 0 {
        lemma_tracks_grow(tracks, n - 1, n - 1);
    }
}

/// Number of clips in a document; `None` beyond what a `u64` holds.
pub fn count_clips(project: &Project) -> (r: Option<u64>)
    ensures
        match r {
            Some(n) => n == clip_count(project@),
            None => clip_count(project@) > u64::MAX,
        },
{
    let mut total: u64 = 0;
    let mut i: usize = 0;
    while i < project.scenes.len()
        invariant
            i <= project.scenes.len(),
            total == layer_clips(project@.scenes, i as int),
        decreases project.scenes.len() - i,
    {
        let n: usize = project.scenes[i].layers.len();
        proof {
            lemma_layers_grow(project@.scenes, i + 1, project@.scenes.len() as int);
            lemma_tracks_grow(project@.overlays, 0, project@.overlays.len() as int);
            assert(project@.scenes[i as int].layers.len() == n);
        }
        match total.checked_add(n as u64) {
            Some(t) => {
                total = t;
            },
            None => return None,
        }
        i += 1;
    }
    let mut j: usize = 0;
    while j < project.overlays.len()
        invariant
            j <= project.overlays.len(),
            total == layer_clips(project@.scenes, project@.scenes.len() as int) + track_clips(
                project@.overlays,
                j as int,
            ),
        decreases project.overlays.len() - j,
    {
        let n: usize = project.overlays[j].clips.len();
        proof {
            lemma_tracks_grow(project@.overlays, j + 1, project@.overlays.len() as int);
            assert(project@.overlays[j as int].clips.len() == n);
        }
        match total.checked_add(n as u64) {
            Some(t) => {
                total = t;
            },
            None => return None,
        }
        j += 1;
    }
    Some(total)
}

/// Number of ids in a document; `None` beyond what a `u64` holds.
pub fn count_ids(project: &Project) -> (r: Option<u64>)
    ensures
        match r {
            Some(n) => n == all_ids(project@).len(),
            None => all_ids(project@).len() > u64::MAX,
        },
{
    proof {
        law_id_count(project@);
    }
    match count_clips(project) {
        Some(n) => match n.checked_add(project.scenes.len() as u64) {
            Some(m) => m.checked_add(project.overlays.len() as u64),
            None => None,
        },
        None => None,
    }
}

} // verus!
