//! The clip list: scenes and tracks as groups that can be folded, with their
//! clips below them.

use vstd::prelude::*;
use crate::document::{Clip, ClipView, Project, ProjectView};
use crate::text::{joined, list_contains, same};
use crate::timeline::{holds, position_in};
use crate::views::{collected, lemma_collected_step, views};

verus! {

broadcast use crate::views::group_views;

/// A row of the clip list: the head of a group with its label, the number of
/// its clips and whether it is folded, or a clip and whether it is selected.
#[derive(Debug)]
pub enum Row {
    Head { label: String, group: String, count: usize, folded: bool },
    Item { id: String, selected: bool },
}

#[verifier::ext_equal]
pub enum RowView {
    Head { label: Seq<char>, group: Seq<char>, count: int, folded: bool },
    Item { id: Seq<char>, selected: bool },
}

impl View for Row {
    type V = RowView;

    open spec fn view(&self) -> RowView {
        match *self {
            Row::Head { label, group, count, folded } => RowView::Head {
                label: label@,
                group: group@,
                count: count as int,
                folded,
            },
            Row::Item { id, selected } => RowView::Item { id: id@, selected },
        }
    }
}

/// A clip is the selected one.
pub open spec fn is_selected(id: Seq<char>, selected: Option<Seq<char>>) -> bool {
    selected == Some(id)
}

/// Some clip of a group is the selected one.
pub open spec fn has_selected(clips: Seq<ClipView>, selected: Option<Seq<char>>) -> bool {
    match selected {
        Some(id) => holds(clips, id),
        None => false,
    }
}

/// A group is folded, unless it holds the selected clip.
pub open spec fn is_folded(
    folded: Seq<Seq<char>>,
    group: Seq<char>,
    clips: Seq<ClipView>,
    selected: Option<Seq<char>>,
) -> bool {
    folded.contains(group) && !has_selected(clips, selected)
}

/// The rows of one group.
pub open spec fn group_rows(
    folded: Seq<Seq<char>>,
    label: Seq<char>,
    group: Seq<char>,
    clips: Seq<ClipView>,
    selected: Option<Seq<char>>,
) -> Seq<RowView> {
    let closed = is_folded(folded, group, clips, selected);
    let head = seq![RowView::Head { label, group, count: clips.len() as int, folded: closed }];
    if closed {
        head
    } else {
        head + clips.map_values(
            |c: ClipView| RowView::Item { id: c.id, selected: is_selected(c.id, selected) },
        )
    }
}

/// The folded groups after those have been unfolded that hold the selected
/// clip, of the first `s` scenes.
pub open spec fn unfolded_scenes(
    folded: Seq<Seq<char>>,
    p: ProjectView,
    selected: Option<Seq<char>>,
    n: int,
) -> Seq<Seq<char>>
    decreases n,
{
    if n <= 0 {
        folded
    } else {
        let before = unfolded_scenes(folded, p, selected, n - 1);
        let scene = p.scenes[n - 1];
        if has_selected(scene.layers, selected) {
            without_text(before, scene.id)
        } else {
            before
        }
    }
}

pub open spec fn unfolded_tracks(
    folded: Seq<Seq<char>>,
    p: ProjectView,
    selected: Option<Seq<char>>,
    n: int,
) -> Seq<Seq<char>>
    decreases n,
{
    if n <= 0 {
        folded
    } else {
        let before = unfolded_tracks(folded, p, selected, n - 1);
        let track = p.overlays[n - 1];
        if has_selected(track.clips, selected) {
            without_text(before, track.id)
        } else {
            before
        }
    }
}

pub open spec fn differs(text: Seq<char>) -> spec_fn(Seq<char>) -> Option<Seq<char>> {
    |t: Seq<char>|
        if t == text {
            None
        } else {
            Some(t)
        }
}

/// A list of texts without a given one.
pub open spec fn without_text(list: Seq<Seq<char>>, text: Seq<char>) -> Seq<Seq<char>> {
    collected(list, differs(text))
}

fn remove_text(list: &mut Vec<String>, text: &str)
    ensures
        views(final(list)@) == without_text(views(old(list)@), text@),
{
    let mut kept: Vec<String> = Vec::new();
    let ghost all = views(list@);
    let ghost f = differs(text@);
    let mut i: usize = 0;
    assert(views(kept@) =~= collected(all.take(0), f));
    while i < list.len()
        invariant
            i <= list.len(),
            all == views(list@),
            f == differs(text@),
            views(kept@) == collected(all.take(i as int), f),
        decreases list.len() - i,
    {
        proof {
            lemma_collected_step(all, f, i as int);
        }
        if !same(list[i].as_str(), text) {
            kept.push(list[i].clone());
        }
        i += 1;
    }
    assert(all.take(i as int) =~= all);
    *list = kept;
}

/// Fold a group that is unfolded, and the other way round.
pub fn toggle_group(folded: &mut Vec<String>, group: &str)
    ensures
        views(final(folded)@) == if views(old(folded)@).contains(group@) {
            without_text(views(old(folded)@), group@)
        } else {
            views(old(folded)@).push(group@)
        },
{
    if list_contains(folded, group) {
        remove_text(folded, group);
    } else {
        folded.push(group.to_owned());
    }
}

pub open spec fn scene_rows(
    folded: Seq<Seq<char>>,
    p: ProjectView,
    selected: Option<Seq<char>>,
    n: int,
) -> Seq<RowView>
    decreases n,
{
    if n <= 0 {
        Seq::empty()
    } else {
        let scene = p.scenes[n - 1];
        scene_rows(folded, p, selected, n - 1) + group_rows(
            unfolded_scenes(folded, p, selected, n - 1),
            scene.id,
            scene.id,
            scene.layers,
            selected,
        )
    }
}

pub open spec fn track_rows(
    folded: Seq<Seq<char>>,
    p: ProjectView,
    selected: Option<Seq<char>>,
    n: int,
) -> Seq<RowView>
    decreases n,
{
    if n <= 0 {
        Seq::empty()
    } else {
        let track = p.overlays[n - 1];
        track_rows(folded, p, selected, n - 1) + group_rows(
            unfolded_tracks(folded, p, selected, n - 1),
            "\u{301c} "@ + track.id,
            track.id,
            track.clips,
            selected,
        )
    }
}

/// The rows of the clip list: a group for each scene, then one for each
/// overlay track.
pub open spec fn rows(folded: Seq<Seq<char>>, p: ProjectView, selected: Option<Seq<char>>) -> Seq<
    RowView,
> {
    let open = unfolded_scenes(folded, p, selected, p.scenes.len() as int);
    scene_rows(folded, p, selected, p.scenes.len() as int) + track_rows(
        open,
        p,
        selected,
        p.overlays.len() as int,
    )
}

pub open spec fn opt_str(s: Option<&str>) -> Option<Seq<char>> {
    match s {
        Some(t) => Some(t@),
        None => None,
    }
}

fn group_has(clips: &Vec<Clip>, selected: Option<&str>) -> (r: bool)
    ensures
        r == has_selected(views(clips@), opt_str(selected)),
{
    match selected {
        Some(id) => {
            proof {
                crate::timeline::lemma_position(views(clips@), id@);
            }
            position_in(clips, id).is_some()
        },
        None => false,
    }
}

fn push_group(
    out: &mut Vec<Row>,
    folded: &mut Vec<String>,
    label: String,
    group: &str,
    clips: &Vec<Clip>,
    selected: Option<&str>,
)
    ensures
        views(final(out)@) == views(old(out)@) + group_rows(
            views(old(folded)@),
            label@,
            group@,
            views(clips@),
            opt_str(selected),
        ),
        views(final(folded)@) == if has_selected(views(clips@), opt_str(selected)) {
            without_text(views(old(folded)@), group@)
        } else {
            views(old(folded)@)
        },
{
    let ghost start = views(out@);
    let ghost was = views(folded@);
    let chosen: bool = group_has(clips, selected);
    let closed: bool = !chosen && list_contains(folded, group);
    if chosen {
        remove_text(folded, group);
    }
    let ghost full = group_rows(was, label@, group@, views(clips@), opt_str(selected));
    let count: usize = clips.len();
    out.push(Row::Head { label, group: group.to_owned(), count, folded: closed });
    assert(views(out@) =~= start + full.take(1));
    if closed {
        assert(full.take(1) =~= full);
        return;
    }
    let mut i: usize = 0;
    while i < clips.len()
        invariant
            i <= clips.len(),
            full == group_rows(was, label@, group@, views(clips@), opt_str(selected)),
            !is_folded(was, group@, views(clips@), opt_str(selected)),
            views(out@) == start + full.take(1 + i),
        decreases clips.len() - i,
    {
        let marked: bool = match selected {
            Some(id) => same(clips[i].id.as_str(), id),
            None => false,
        };
        out.push(Row::Item { id: clips[i].id.clone(), selected: marked });
        assert(views(out@) =~= start + full.take(1 + i + 1));
        i += 1;
    }
    assert(full.take(1 + i) =~= full);
}

/// The rows of the clip list. A group that holds the selected clip is
/// unfolded.
pub fn clip_rows(project: &Project, folded: &mut Vec<String>, selected: Option<&str>) -> (r: Vec<Row>)
    ensures
        views(r@) == rows(views(old(folded)@), project@, opt_str(selected)),
        views(final(folded)@) == unfolded_tracks(
            unfolded_scenes(
                views(old(folded)@),
                project@,
                opt_str(selected),
                project@.scenes.len() as int,
            ),
            project@,
            opt_str(selected),
            project@.overlays.len() as int,
        ),
{
    let mut out: Vec<Row> = Vec::new();
    let ghost was = views(folded@);
    let ghost sel = opt_str(selected);
    let mut s: usize = 0;
    assert(views(out@) =~= Seq::empty());
    while s < project.scenes.len()
        invariant
            s <= project.scenes.len(),
            sel == opt_str(selected),
            views(out@) == scene_rows(was, project@, sel, s as int),
            views(folded@) == unfolded_scenes(was, project@, sel, s as int),
        decreases project.scenes.len() - s,
    {
        let label: String = project.scenes[s].id.clone();
        push_group(
            &mut out,
            folded,
            label,
            project.scenes[s].id.as_str(),
            &project.scenes[s].layers,
            selected,
        );
        s += 1;
    }
    let ghost head = views(out@);
    let ghost open = views(folded@);
    let mut t: usize = 0;
    assert(views(out@) =~= head + track_rows(open, project@, sel, 0));
    while t < project.overlays.len()
        invariant
            t <= project.overlays.len(),
            sel == opt_str(selected),
            views(out@) == head + track_rows(open, project@, sel, t as int),
            views(folded@) == unfolded_tracks(open, project@, sel, t as int),
        decreases project.overlays.len() - t,
    {
        let label: String = joined("\u{301c} ", project.overlays[t].id.as_str());
        push_group(
            &mut out,
            folded,
            label,
            project.overlays[t].id.as_str(),
            &project.overlays[t].clips,
            selected,
        );
        assert(views(out@) =~= head + track_rows(open, project@, sel, t + 1));
        t += 1;
    }
    out
}

/// Whether the number of selected rows and the row selected last change the
/// selection: only a single row does, and only if it is a clip that is not
/// selected yet.
pub fn row_selects(rows: &Vec<Row>, chosen: usize, count: usize, selected: Option<&str>) -> (r: Option<
    String,
>)
    ensures
        match r {
            Some(id) => {
                &&& count == 1
                &&& chosen < rows.len()
                &&& rows@[chosen as int]@ matches RowView::Item { id: x, .. } && x == id@
                &&& opt_str(selected) != Some(id@)
            },
            None => {
                ||| count != 1
                ||| chosen >= rows.len()
                ||| rows@[chosen as int]@ is Head
                ||| rows@[chosen as int]@ matches RowView::Item { id: x, .. } && opt_str(selected)
                    == Some(x)
            },
        },
{
    if count != 1 || chosen >= rows.len() {
        return None;
    }
    match &rows[chosen] {
        Row::Head { .. } => None,
        Row::Item { id, .. } => match selected {
            Some(current) => if same(id.as_str(), current) {
                None
            } else {
                Some(id.clone())
            },
            None => Some(id.clone()),
        },
    }
}

/// A group has a head that counts its clips. Unfolded it lists them all, in
/// order; folded it lists none, but a group with the selected clip in it is
/// never folded.
pub proof fn law_group_rows(
    folded: Seq<Seq<char>>,
    label: Seq<char>,
    group: Seq<char>,
    clips: Seq<ClipView>,
    selected: Option<Seq<char>>,
)
    ensures
        ({
            let r = group_rows(folded, label, group, clips, selected);
            let here = exists|i: int|
                0 <= i < clips.len() && selected == Some((#[trigger] clips[i]).id);
            let closed = folded.contains(group) && !here;
            &&& r.len() == (if closed {
                1
            } else {
                1 + clips.len()
            })
            &&& r[0] == (RowView::Head { label, group, count: clips.len() as int, folded: closed })
            &&& !closed ==> forall|i: int|
                0 <= i < clips.len() ==> r[i + 1] == (RowView::Item {
                    id: (#[trigger] clips[i]).id,
                    selected: selected == Some(clips[i].id),
                })
        }),
{
    if let Some(id) = selected {
        crate::timeline::lemma_position(clips, id);
    }
}

/// A list without a text has none of it left, and all others in order.
pub proof fn law_without_text(list: Seq<Seq<char>>, text: Seq<char>)
    ensures
        without_text(list, text) == list.filter(|t: Seq<char>| t != text),
{
    let keep = |t: Seq<char>| t != text;
    crate::views::lemma_collected_filter(list, differs(text), keep);
    let kept = list.filter(keep);
    let got = without_text(list, text);
    assert forall|j: int| 0 <= j < got.len() implies got[j] == kept[j] by {
        assert(differs(text)(kept[j]) == Some(got[j]));
    }
    assert(got =~= kept);
}

/// A row that heads the group of the given id and counts its clips.
pub open spec fn heads(row: RowView, id: Seq<char>, clips: Seq<ClipView>) -> bool {
    match row {
        RowView::Head { label, group, count, folded } => group == id && count == clips.len(),
        _ => false,
    }
}

/// The list has a group for every scene and every track, with the number of
/// its clips.
pub proof fn law_rows(folded: Seq<Seq<char>>, p: ProjectView, selected: Option<Seq<char>>, a: int)
    ensures
        0 <= a < p.scenes.len() ==> exists|i: int|
            0 <= i < rows(folded, p, selected).len() && heads(
                #[trigger] rows(folded, p, selected)[i],
                p.scenes[a].id,
                p.scenes[a].layers,
            ),
        0 <= a < p.overlays.len() ==> exists|i: int|
            0 <= i < rows(folded, p, selected).len() && heads(
                #[trigger] rows(folded, p, selected)[i],
                p.overlays[a].id,
                p.overlays[a].clips,
            ),
{
    let all = rows(folded, p, selected);
    let scenes = scene_rows(folded, p, selected, p.scenes.len() as int);
    let open = unfolded_scenes(folded, p, selected, p.scenes.len() as int);
    if 0 <= a < p.scenes.len() {
        let i = lemma_scene_head(folded, p, selected, p.scenes.len() as int, a);
        assert(all[i] == scenes[i]);
    }
    if 0 <= a < p.overlays.len() {
        let i = lemma_track_head(open, p, selected, p.overlays.len() as int, a);
        assert(all[scenes.len() + i] == track_rows(
            open,
            p,
            selected,
            p.overlays.len() as int,
        )[i]);
    }
}

proof fn lemma_scene_head(
    folded: Seq<Seq<char>>,
    p: ProjectView,
    selected: Option<Seq<char>>,
    n: int,
    a: int,
) -> (i: int)
    requires
        0 <= a < n <= p.scenes.len(),
    ensures
        0 <= i < scene_rows(folded, p, selected, n).len(),
        heads(scene_rows(folded, p, selected, n)[i], p.scenes[a].id, p.scenes[a].layers),
    decreases n,
{
    let before = scene_rows(folded, p, selected, n - 1);
    let all = scene_rows(folded, p, selected, n);
    if a == n - 1 {
        before.len() as int
    } else {
        let i = lemma_scene_head(folded, p, selected, n - 1, a);
        assert(all[i] == before[i]);
        i
    }
}

proof fn lemma_track_head(
    folded: Seq<Seq<char>>,
    p: ProjectView,
    selected: Option<Seq<char>>,
    n: int,
    a: int,
) -> (i: int)
    requires
        0 <= a < n <= p.overlays.len(),
    ensures
        0 <= i < track_rows(folded, p, selected, n).len(),
        heads(track_rows(folded, p, selected, n)[i], p.overlays[a].id, p.overlays[a].clips),
    decreases n,
{
    let before = track_rows(folded, p, selected, n - 1);
    let all = track_rows(folded, p, selected, n);
    if a == n - 1 {
        before.len() as int
    } else {
        let i = lemma_track_head(folded, p, selected, n - 1, a);
        assert(all[i] == before[i]);
        i
    }
}

} // verus!
