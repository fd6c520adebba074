//! Fresh ids for clips.

use vstd::prelude::*;
use crate::document::{ClipView, OverlayTrackView, Project, ProjectView, SceneView};
use crate::text::{decimal, decimal_text, digit, joined};
use crate::timeline::{find_clip, found, lemma_position, lemma_scene_position};
use crate::timeline::{lemma_track_position, position, scene_position, track_position};
use crate::validate::{all_ids, clip_ids, scene_ids, track_ids};

verus! {

proof fn lemma_digit_injective(a: int, b: int)
    requires
        0 <= a < 10,
        0 <= b < 10,
        digit(a) == digit(b),
    ensures
        a == b,
{
}

/// Different numbers have different decimal notations.
pub proof fn lemma_decimal_injective(a: nat, b: nat)
    requires
        decimal(a) == decimal(b),
    ensures
        a == b,
    decreases a,
{
    let x = decimal(a);
    let y = decimal(b);
    assert(x.len() >= 1 && y.len() >= 1);
    if a < 10 && b < 10 {
        assert(x[0] == y[0]);
        lemma_digit_injective(a as int, b as int);
    } else if a < 10 {
        assert(decimal(b / 10).len() >= 1);
    } else if b < 10 {
        assert(decimal(a / 10).len() >= 1);
    } else {
        assert(x.last() == y.last());
        lemma_digit_injective((a % 10) as int, (b % 10) as int);
        assert(x.drop_last() =~= decimal(a / 10));
        assert(y.drop_last() =~= decimal(b / 10));
        lemma_decimal_injective(a / 10, b / 10);
    }
}

/// `base` followed by a number.
pub open spec fn numbered(base: Seq<char>, n: nat) -> Seq<char> {
    base + decimal(n)
}

pub proof fn lemma_numbered_injective(base: Seq<char>, a: nat, b: nat)
    requires
        numbered(base, a) == numbered(base, b),
    ensures
        a == b,
{
    let x = numbered(base, a);
    let y = numbered(base, b);
    assert(x.skip(base.len() as int) =~= decimal(a));
    assert(y.skip(base.len() as int) =~= decimal(b));
    lemma_decimal_injective(a, b);
}

proof fn lemma_clip_ids(clips: Seq<ClipView>, i: int, k: int)
    requires
        0 <= i <= k < clips.len(),
    ensures
        clip_ids(clips, i).contains(clips[k].id),
    decreases k - i,
{
    let ids = clip_ids(clips, i);
    if i == k {
        assert(ids[0] == clips[k].id);
    } else {
        let rest = clip_ids(clips, i + 1);
        lemma_clip_ids(clips, i + 1, k);
        let j = choose|j: int| 0 <= j < rest.len() && rest[j] == clips[k].id;
        assert(ids[j + 1] == clips[k].id);
    }
}

proof fn lemma_scene_ids(scenes: Seq<SceneView>, i: int, s: int, k: int)
    requires
        0 <= i <= s < scenes.len(),
        0 <= k < scenes[s].layers.len(),
    ensures
        scene_ids(scenes, i).contains(scenes[s].layers[k].id),
    decreases s - i,
{
    let ids = scene_ids(scenes, i);
    let rest = scene_ids(scenes, i + 1);
    let inner = clip_ids(scenes[i].layers, 0);
    if i == s {
        lemma_clip_ids(scenes[s].layers, 0, k);
        let j = choose|j: int| 0 <= j < inner.len() && inner[j] == scenes[s].layers[k].id;
        assert(ids[j + 1] == inner[j]);
    } else {
        lemma_scene_ids(scenes, i + 1, s, k);
        let j = choose|j: int| 0 <= j < rest.len() && rest[j] == scenes[s].layers[k].id;
        assert(ids[j + 1 + inner.len()] == rest[j]);
    }
}

proof fn lemma_track_ids(tracks: Seq<OverlayTrackView>, i: int, s: int, k: int)
    requires
        0 <= i <= s < tracks.len(),
        0 <= k < tracks[s].clips.len(),
    ensures
        track_ids(tracks, i).contains(tracks[s].clips[k].id),
    decreases s - i,
{
    let ids = track_ids(tracks, i);
    let rest = track_ids(tracks, i + 1);
    let inner = clip_ids(tracks[i].clips, 0);
    if i == s {
        lemma_clip_ids(tracks[s].clips, 0, k);
        let j = choose|j: int| 0 <= j < inner.len() && inner[j] == tracks[s].clips[k].id;
        assert(ids[j + 1] == inner[j]);
    } else {
        lemma_track_ids(tracks, i + 1, s, k);
        let j = choose|j: int| 0 <= j < rest.len() && rest[j] == tracks[s].clips[k].id;
        assert(ids[j + 1 + inner.len()] == rest[j]);
    }
}

/// The id of a clip that is found is one of the document's ids.
pub proof fn lemma_found_id(p: ProjectView, id: Seq<char>)
    requires
        found(p, id) is Some,
    ensures
        all_ids(p).contains(id),
{
    let a = scene_ids(p.scenes, 0);
    let b = track_ids(p.overlays, 0);
    lemma_scene_position(p.scenes, id);
    lemma_track_position(p.overlays, id);
    let s = scene_position(p.scenes, id);
    if s < p.scenes.len() {
        let k = position(p.scenes[s].layers, id);
        lemma_position(p.scenes[s].layers, id);
        lemma_scene_ids(p.scenes, 0, s, k);
        let j = choose|j: int| 0 <= j < a.len() && a[j] == id;
        assert((a + b)[j] == id);
    } else {
        let t = track_position(p.overlays, id);
        let k = position(p.overlays[t].clips, id);
        lemma_position(p.overlays[t].clips, id);
        lemma_track_ids(p.overlays, 0, t, k);
        let j = choose|j: int| 0 <= j < b.len() && b[j] == id;
        assert((a + b)[a.len() + j] == id);
    }
}

/// Only as many numbered ids can be taken as the document has ids.
proof fn lemma_taken(p: ProjectView, base: Seq<char>, from: nat, to: nat)
    requires
        from <= to,
        forall|m: nat| from <= m < to ==> found(p, #[trigger] numbered(base, m)) is Some,
    ensures
        to - from <= all_ids(p).len(),
{
    let ids = all_ids(p);
    let taken = Seq::new((to - from) as nat, |j: int| numbered(base, (from + j) as nat));
    assert forall|i: int, j: int|
        0 <= i < taken.len() && 0 <= j < taken.len() && i != j implies taken[i] != taken[j] by {
        if taken[i] == taken[j] {
            lemma_numbered_injective(base, (from + i) as nat, (from + j) as nat);
        }
    }
    taken.unique_seq_to_set();
    ids.lemma_cardinality_of_set();
    vstd::seq_lib::seq_to_set_is_finite(ids);
    assert forall|x: Seq<char>| taken.to_set().contains(x) implies ids.to_set().contains(x) by {
        let i = choose|i: int| 0 <= i < taken.len() && taken[i] == x;
        assert(found(p, numbered(base, (from + i) as nat)) is Some);
        lemma_found_id(p, x);
    }
    assert(taken.to_set().subset_of(ids.to_set()));
    vstd::set_lib::lemma_len_subset(taken.to_set(), ids.to_set());
}

/// `n` is the least number, from `from` on, whose numbered id no clip has.
pub open spec fn first_free(p: ProjectView, base: Seq<char>, from: nat, n: nat) -> bool {
    &&& from <= n
    &&& found(p, numbered(base, n)) is None
    &&& forall|m: nat| from <= m < n ==> found(p, #[trigger] numbered(base, m)) is Some
}

/// The first id of the form `base` and a number, from `from` on, that no clip
/// has.
pub open spec fn free_id(p: ProjectView, base: Seq<char>, from: nat) -> Seq<char> {
    numbered(base, choose|n: nat| first_free(p, base, from, n))
}

pub proof fn lemma_free_id(p: ProjectView, base: Seq<char>, from: nat, n: nat)
    requires
        first_free(p, base, from, n),
    ensures
        free_id(p, base, from) == numbered(base, n),
{
    let m = choose|m: nat| first_free(p, base, from, m);
    assert(first_free(p, base, from, m));
    if m < n {
        assert(found(p, numbered(base, m)) is Some);
    } else if n < m {
        assert(found(p, numbered(base, n)) is Some);
    }
}

/// Some numbered id is free.
pub proof fn lemma_free_exists(p: ProjectView, base: Seq<char>, from: nat, at: nat) -> (n: nat)
    requires
        from <= at,
        forall|m: nat| from <= m < at ==> found(p, #[trigger] numbered(base, m)) is Some,
    ensures
        first_free(p, base, from, n),
    decreases all_ids(p).len() + from + 1 - at,
{
    lemma_taken(p, base, from, at);
    if found(p, numbered(base, at)) is None {
        at
    } else {
        lemma_free_exists(p, base, from, at + 1)
    }
}

/// The least number, from `from` on, whose numbered id no clip has.
pub open spec fn free_number(p: ProjectView, base: Seq<char>, from: nat) -> nat {
    choose|n: nat| first_free(p, base, from, n)
}

/// The least number, from `from` on, that makes an id that no clip has.
pub fn fresh_number(project: &Project, base: &str, from: u64) -> (r: u64)
    requires
        all_ids(project@).len() + from < u64::MAX,
    ensures
        r == free_number(project@, base@, from as nat),
        first_free(project@, base@, from as nat, r as nat),
        r - from <= all_ids(project@).len(),
{
    let mut n: u64 = from;
    loop
        invariant
            from <= n,
            all_ids(project@).len() + from < u64::MAX,
            n - from <= all_ids(project@).len(),
            forall|m: nat|
                from <= m < n ==> found(project@, #[trigger] numbered(base@, m)) is Some,
        decreases all_ids(project@).len() + from - n,
    {
        let candidate: String = joined(base, decimal_text(n as u128).as_str());
        assert(candidate@ == numbered(base@, n as nat));
        if find_clip(project, candidate.as_str()).is_none() {
            proof {
                lemma_free_number(project@, base@, from as nat, n as nat);
            }
            return n;
        }
        proof {
            lemma_taken(project@, base@, from as nat, (n + 1) as nat);
        }
        n += 1;
    }
}

pub proof fn lemma_free_number(p: ProjectView, base: Seq<char>, from: nat, n: nat)
    requires
        first_free(p, base, from, n),
    ensures
        free_number(p, base, from) == n,
{
    let m = choose|m: nat| first_free(p, base, from, m);
    assert(first_free(p, base, from, m));
    if m < n {
        assert(found(p, numbered(base, m)) is Some);
    } else if n < m {
        assert(found(p, numbered(base, n)) is Some);
    }
}

/// The first id of the form `base` and a number, from `from` on, that no clip
/// has.
pub fn fresh_id(project: &Project, base: &str, from: u64) -> (r: String)
    requires
        all_ids(project@).len() + from < u64::MAX,
    ensures
        r@ == free_id(project@, base@, from as nat),
        found(project@, r@) is None,
{
    let n: u64 = fresh_number(project, base, from);
    proof {
        lemma_free_id(project@, base@, from as nat, n as nat);
    }
    joined(base, decimal_text(n as u128).as_str())
}

/// The numbered ids below `n` that clips have.
pub open spec fn taken_below(p: ProjectView, base: Seq<char>, n: nat) -> Seq<Seq<char>>
    decreases n,
{
    if n == 0 {
        Seq::empty()
    } else {
        let before = taken_below(p, base, (n - 1) as nat);
        if found(p, numbered(base, (n - 1) as nat)) is Some {
            before.push(numbered(base, (n - 1) as nat))
        } else {
            before
        }
    }
}

proof fn lemma_taken_members(p: ProjectView, base: Seq<char>, n: nat)
    ensures
        taken_below(p, base, n).no_duplicates(),
        forall|i: int|
            0 <= i < taken_below(p, base, n).len() ==> found(
                p,
                #[trigger] taken_below(p, base, n)[i],
            ) is Some && exists|m: nat|
                m < n && taken_below(p, base, n)[i] == #[trigger] numbered(base, m),
    decreases n,
{
    if n > 0 {
        lemma_taken_members(p, base, (n - 1) as nat);
        let before = taken_below(p, base, (n - 1) as nat);
        let last = numbered(base, (n - 1) as nat);
        assert forall|i: int| 0 <= i < before.len() implies before[i] != last by {
            let m = choose|m: nat| m < n - 1 && before[i] == #[trigger] numbered(base, m);
            if before[i] == last {
                lemma_numbered_injective(base, m, (n - 1) as nat);
            }
        }
        let after = taken_below(p, base, n);
        assert forall|i: int| 0 <= i < after.len() implies found(p, #[trigger] after[i]) is Some
            && exists|m: nat| m < n && after[i] == #[trigger] numbered(base, m) by {
            if i < before.len() {
                assert(after[i] == before[i]);
                let m = choose|m: nat| m < n - 1 && before[i] == #[trigger] numbered(base, m);
                assert(after[i] == numbered(base, m));
            } else {
                assert(after[i] == last);
            }
        }
    }
}

/// No more numbered ids are taken than the document has ids.
pub proof fn lemma_taken_below(p: ProjectView, base: Seq<char>, n: nat)
    ensures
        taken_below(p, base, n).len() <= all_ids(p).len(),
{
    let ids = all_ids(p);
    let taken = taken_below(p, base, n);
    lemma_taken_members(p, base, n);
    taken.unique_seq_to_set();
    ids.lemma_cardinality_of_set();
    vstd::seq_lib::seq_to_set_is_finite(ids);
    assert forall|x: Seq<char>| taken.to_set().contains(x) implies ids.to_set().contains(x) by {
        let i = choose|i: int| 0 <= i < taken.len() && taken[i] == x;
        assert(found(p, taken[i]) is Some);
        lemma_found_id(p, x);
    }
    assert(taken.to_set().subset_of(ids.to_set()));
    vstd::set_lib::lemma_len_subset(taken.to_set(), ids.to_set());
}

/// Between a number and the next free one, all are taken.
pub proof fn lemma_taken_run(p: ProjectView, base: Seq<char>, from: nat, n: nat)
    requires
        from <= n,
        forall|m: nat| from <= m < n ==> found(p, #[trigger] numbered(base, m)) is Some,
    ensures
        taken_below(p, base, n).len() == taken_below(p, base, from).len() + (n - from),
    decreases n - from,
{
    if from < n {
        lemma_taken_run(p, base, from, (n - 1) as nat);
        assert(found(p, numbered(base, (n - 1) as nat)) is Some);
    }
}

} // verus!
