//! Which previews of media are still to be made, and the use of lightweight
//! copies.

use vstd::prelude::*;
use crate::document::{Clip, ClipView, Element, ElementView, OverlayTrackView, Project, ProjectView,
    SceneView};
use crate::medialib::{extension, is_audio_ext, is_audio_file, is_picture_ext, is_picture_file};
use crate::text::{list_contains, same};
use crate::views::{collected, lemma_collected_step, views};
use crate::words::{after_prefix, begins_with};

verus! {

broadcast use crate::views::group_views;

/// What sort of preview a media file has: a waveform, a thumbnail, or a
/// thumbnail and a lightweight copy.
#[derive(Debug, Clone, Copy, PartialEq, Eq, Structural)]
pub enum SourceKind {
    Sound,
    Picture,
    Movie,
}

/// A media file in use.
#[derive(Debug)]
pub struct Source {
    pub kind: SourceKind,
    pub src: String,
}

#[verifier::ext_equal]
pub struct SourceView {
    pub kind: SourceKind,
    pub src: Seq<char>,
}

impl View for Source {
    type V = SourceView;

    open spec fn view(&self) -> SourceView {
        SourceView { kind: self.kind, src: self.src@ }
    }
}

/// The sort of a library file, by its extension.
pub open spec fn library_source(name: Seq<char>) -> SourceView {
    SourceView {
        kind: if is_audio_ext(extension(name)) {
            SourceKind::Sound
        } else if is_picture_ext(extension(name)) {
            SourceKind::Picture
        } else {
            SourceKind::Movie
        },
        src: name,
    }
}

/// The media file that a clip plays or shows.
pub open spec fn clip_source(c: ClipView) -> Option<SourceView> {
    match c.element {
        ElementView::Video { src, offset, volume, rate } => Some(
            SourceView { kind: SourceKind::Movie, src },
        ),
        ElementView::Image { src } => Some(SourceView { kind: SourceKind::Picture, src }),
        ElementView::Audio { src, offset, volume, rate } => Some(
            SourceView { kind: SourceKind::Sound, src },
        ),
        _ => None,
    }
}

pub open spec fn clip_sources() -> spec_fn(ClipView) -> Option<SourceView> {
    |c: ClipView| clip_source(c)
}

pub open spec fn layer_sources(scenes: Seq<SceneView>, n: int) -> Seq<SourceView>
    decreases n,
{
    if n <= 0 {
        Seq::empty()
    } else {
        layer_sources(scenes, n - 1) + collected(scenes[n - 1].layers, clip_sources())
    }
}

pub open spec fn track_sources(tracks: Seq<OverlayTrackView>, n: int) -> Seq<SourceView>
    decreases n,
{
    if n <= 0 {
        Seq::empty()
    } else {
        track_sources(tracks, n - 1) + collected(tracks[n - 1].clips, clip_sources())
    }
}

/// The media files of a document: those of the library, then those of the
/// clips.
pub open spec fn sources_of(p: ProjectView) -> Seq<SourceView> {
    p.library.map_values(|name: Seq<char>| library_source(name)) + layer_sources(
        p.scenes,
        p.scenes.len() as int,
    ) + track_sources(p.overlays, p.overlays.len() as int)
}

fn push_sources(clips: &Vec<Clip>, out: &mut Vec<Source>)
    ensures
        views(final(out)@) == views(old(out)@) + collected(views(clips@), clip_sources()),
{
    let ghost start = views(out@);
    let ghost all = views(clips@);
    let ghost f = clip_sources();
    let mut i: usize = 0;
    assert(views(out@) =~= start + collected(all.take(0), f));
    while i < clips.len()
        invariant
            i <= clips.len(),
            all == views(clips@),
            f == clip_sources(),
            views(out@) == start + collected(all.take(i as int), f),
        decreases clips.len() - i,
    {
        proof {
            lemma_collected_step(all, f, i as int);
        }
        match &clips[i].element {
            Element::Video { src, .. } => {
                out.push(Source { kind: SourceKind::Movie, src: src.clone() });
                assert(views(out@) =~= start + collected(all.take(i + 1), f));
            },
            Element::Image { src } => {
                out.push(Source { kind: SourceKind::Picture, src: src.clone() });
                assert(views(out@) =~= start + collected(all.take(i + 1), f));
            },
            Element::Audio { src, .. } => {
                out.push(Source { kind: SourceKind::Sound, src: src.clone() });
                assert(views(out@) =~= start + collected(all.take(i + 1), f));
            },
            _ => {},
        }
        i += 1;
    }
    assert(all.take(i as int) =~= all);
}

/// The media files of a document: those of the library, then those of the
/// clips.
pub fn media_sources(project: &Project) -> (r: Vec<Source>)
    ensures
        views(r@) == sources_of(project@),
{
    let mut out: Vec<Source> = Vec::new();
    let ghost p = project@;
    let ghost f = |name: Seq<char>| library_source(name);
    let ghost lib = p.library.map_values(f);
    let mut i: usize = 0;
    assert(views(out@) =~= lib.take(0));
    while i < project.library.len()
        invariant
            i <= project.library.len(),
            p == project@,
            f == |name: Seq<char>| library_source(name),
            lib == p.library.map_values(f),
            views(out@) == lib.take(i as int),
        decreases project.library.len() - i,
    {
        let name: &String = &project.library[i];
        let kind: SourceKind = if is_audio_file(name.as_str()) {
            SourceKind::Sound
        } else if is_picture_file(name.as_str()) {
            SourceKind::Picture
        } else {
            SourceKind::Movie
        };
        out.push(Source { kind, src: name.clone() });
        assert(views(out@) =~= lib.take(i + 1));
        i += 1;
    }
    assert(lib.take(i as int) =~= lib);
    let mut s: usize = 0;
    assert(views(out@) =~= lib + layer_sources(p.scenes, 0));
    while s < project.scenes.len()
        invariant
            s <= project.scenes.len(),
            p == project@,
            views(out@) == lib + layer_sources(p.scenes, s as int),
        decreases project.scenes.len() - s,
    {
        push_sources(&project.scenes[s].layers, &mut out);
        assert(views(out@) =~= lib + layer_sources(p.scenes, s + 1));
        s += 1;
    }
    let ghost head = views(out@);
    let mut t: usize = 0;
    assert(views(out@) =~= head + track_sources(p.overlays, 0));
    while t < project.overlays.len()
        invariant
            t <= project.overlays.len(),
            p == project@,
            views(out@) == head + track_sources(p.overlays, t as int),
        decreases project.overlays.len() - t,
    {
        push_sources(&project.overlays[t].clips, &mut out);
        assert(views(out@) =~= head + track_sources(p.overlays, t + 1));
        t += 1;
    }
    out
}

/// What is known of a media file: its URI if it exists, which of its previews
/// are there, and which could not be made.
#[derive(Debug)]
pub struct SourceState {
    pub kind: SourceKind,
    pub uri: Option<String>,
    pub has_thumbnail: bool,
    pub has_waveform: bool,
    pub has_proxy: bool,
    pub preview_failed: bool,
    pub proxy_failed: bool,
}

#[verifier::ext_equal]
pub struct StateView {
    pub kind: SourceKind,
    pub uri: Option<Seq<char>>,
    pub has_thumbnail: bool,
    pub has_waveform: bool,
    pub has_proxy: bool,
    pub preview_failed: bool,
    pub proxy_failed: bool,
}

impl View for SourceState {
    type V = StateView;

    open spec fn view(&self) -> StateView {
        StateView {
            kind: self.kind,
            uri: crate::document::opt_text(self.uri),
            has_thumbnail: self.has_thumbnail,
            has_waveform: self.has_waveform,
            has_proxy: self.has_proxy,
            preview_failed: self.preview_failed,
            proxy_failed: self.proxy_failed,
        }
    }
}

/// The thumbnails to make.
pub open spec fn wants_thumbnail() -> spec_fn(StateView) -> Option<Seq<char>> {
    |s: StateView|
        if s.kind != SourceKind::Sound && !s.has_thumbnail && !s.preview_failed {
            s.uri
        } else {
            None
        }
}

/// The waveforms to make.
pub open spec fn wants_waveform() -> spec_fn(StateView) -> Option<Seq<char>> {
    |s: StateView|
        if s.kind == SourceKind::Sound && !s.has_waveform && !s.preview_failed {
            s.uri
        } else {
            None
        }
}

/// A lightweight copy is to be made: of a local movie that has none and whose
/// copy has not failed before.
pub open spec fn wants_proxy(s: StateView) -> bool {
    &&& s.kind == SourceKind::Movie
    &&& s.uri is Some
    &&& begins_with(s.uri->0, "file://"@)
    &&& !s.has_proxy
    &&& !s.proxy_failed
}

/// The lightweight copies to make of the first `n` files, each once.
pub open spec fn proxies_of(states: Seq<StateView>, n: int) -> Seq<Seq<char>>
    decreases n,
{
    if n <= 0 {
        Seq::empty()
    } else {
        let before = proxies_of(states, n - 1);
        let s = states[n - 1];
        if wants_proxy(s) && !before.contains(s.uri->0) {
            before.push(s.uri->0)
        } else {
            before
        }
    }
}

/// The previews that are still to be made, by URI.
#[derive(Debug)]
pub struct PreviewPlan {
    pub thumbnails: Vec<String>,
    pub waveforms: Vec<String>,
    pub proxies: Vec<String>,
}

/// Decide which previews are still to be made.
pub fn plan_previews(states: &Vec<SourceState>, use_proxies: bool) -> (r: PreviewPlan)
    ensures
        views(r.thumbnails@) == collected(views(states@), wants_thumbnail()),
        views(r.waveforms@) == collected(views(states@), wants_waveform()),
        views(r.proxies@) == if use_proxies {
            proxies_of(views(states@), states@.len() as int)
        } else {
            Seq::empty()
        },
{
    let mut thumbnails: Vec<String> = Vec::new();
    let mut waveforms: Vec<String> = Vec::new();
    let mut proxies: Vec<String> = Vec::new();
    let ghost all = views(states@);
    let mut i: usize = 0;
    assert(views(thumbnails@) =~= collected(all.take(0), wants_thumbnail()));
    assert(views(waveforms@) =~= collected(all.take(0), wants_waveform()));
    assert(views(proxies@) =~= Seq::empty());
    while i < states.len()
        invariant
            i <= states.len(),
            all == views(states@),
            views(thumbnails@) == collected(all.take(i as int), wants_thumbnail()),
            views(waveforms@) == collected(all.take(i as int), wants_waveform()),
            views(proxies@) == if use_proxies {
                proxies_of(all, i as int)
            } else {
                Seq::empty()
            },
        decreases states.len() - i,
    {
        let s: &SourceState = &states[i];
        proof {
            lemma_collected_step(all, wants_thumbnail(), i as int);
            lemma_collected_step(all, wants_waveform(), i as int);
            assert(all[i as int] == s@);
        }
        if let Some(uri) = &s.uri {
            if s.kind == SourceKind::Sound {
                if !s.has_waveform && !s.preview_failed {
                    waveforms.push(uri.clone());
                }
            } else if !s.has_thumbnail && !s.preview_failed {
                thumbnails.push(uri.clone());
            }
            if use_proxies && s.kind == SourceKind::Movie && !s.has_proxy && !s.proxy_failed
                && after_prefix(uri.as_str(), "file://").is_some() && !list_contains(
                &proxies,
                uri.as_str(),
            ) {
                proxies.push(uri.clone());
            }
        }
        i += 1;
    }
    assert(all.take(i as int) =~= all);
    PreviewPlan { thumbnails, waveforms, proxies }
}

/// One of the first `n` files wants a lightweight copy and has the given URI.
pub open spec fn wanted(states: Seq<StateView>, n: int, uri: Seq<char>) -> bool {
    exists|i: int| 0 <= i < n && wants_proxy(#[trigger] states[i]) && states[i].uri == Some(uri)
}

/// A lightweight copy is made at most once of each file, of files that want
/// one, and of every such file.
pub proof fn law_proxies(states: Seq<StateView>, n: int)
    requires
        0 <= n <= states.len(),
    ensures
        proxies_of(states, n).no_duplicates(),
        forall|uri: Seq<char>|
            wanted(states, n, uri) <==> #[trigger] proxies_of(states, n).contains(uri),
    decreases n,
{
    let after = proxies_of(states, n);
    if n > 0 {
        law_proxies(states, n - 1);
        let before = proxies_of(states, n - 1);
        let s = states[n - 1];
        assert forall|uri: Seq<char>| wanted(states, n, uri) <==> #[trigger] after.contains(uri) by {
            assert(wanted(states, n - 1, uri) <==> before.contains(uri));
            if wanted(states, n - 1, uri) {
                let i = choose|i: int|
                    0 <= i < n - 1 && wants_proxy(#[trigger] states[i]) && states[i].uri == Some(
                        uri,
                    );
                assert(wants_proxy(states[i]));
                let k = choose|k: int| 0 <= k < before.len() && before[k] == uri;
                assert(after[k] == uri);
            } else if wants_proxy(s) && s.uri == Some(uri) {
                assert(after[before.len() as int] == uri);
            } else if after.contains(uri) {
                let k = choose|k: int| 0 <= k < after.len() && after[k] == uri;
                if k < before.len() {
                    assert(before[k] == uri);
                }
            }
        }
    }
}

/// The copy that stands in for a source, from entry `i` on.
pub open spec fn copy_of(table: Seq<(Seq<char>, Seq<char>)>, src: Seq<char>, i: int) -> Option<
    Seq<char>,
>
    decreases table.len() - i,
{
    if i >= table.len() {
        None
    } else if table[i].0 == src {
        Some(table[i].1)
    } else {
        copy_of(table, src, i + 1)
    }
}

pub open spec fn swapped_element(table: Seq<(Seq<char>, Seq<char>)>, e: ElementView) -> ElementView {
    match e {
        ElementView::Video { src, offset, volume, rate } => match copy_of(table, src, 0) {
            Some(copy) => ElementView::Video { src: copy, offset, volume, rate },
            None => e,
        },
        _ => e,
    }
}

pub open spec fn swapped_clip(table: Seq<(Seq<char>, Seq<char>)>, c: ClipView) -> ClipView {
    ClipView { element: swapped_element(table, c.element), ..c }
}

pub open spec fn swapped_clips(table: Seq<(Seq<char>, Seq<char>)>, clips: Seq<ClipView>) -> Seq<
    ClipView,
> {
    clips.map_values(|c: ClipView| swapped_clip(table, c))
}

/// The document with lightweight copies in place of the videos that have one.
pub open spec fn swapped(table: Seq<(Seq<char>, Seq<char>)>, p: ProjectView) -> ProjectView {
    ProjectView {
        scenes: p.scenes.map_values(
            |s: SceneView| SceneView { layers: swapped_clips(table, s.layers), ..s },
        ),
        overlays: p.overlays.map_values(
            |t: OverlayTrackView| OverlayTrackView { clips: swapped_clips(table, t.clips), ..t },
        ),
        ..p
    }
}

pub open spec fn pair_views(v: Seq<(String, String)>) -> Seq<(Seq<char>, Seq<char>)> {
    Seq::new(v.len(), |i: int| (v[i].0@, v[i].1@))
}

fn find_copy(table: &Vec<(String, String)>, src: &str) -> (r: Option<String>)
    ensures
        match r {
            Some(c) => copy_of(pair_views(table@), src@, 0) == Some(c@),
            None => copy_of(pair_views(table@), src@, 0) is None,
        },
{
    let mut i: usize = 0;
    while i < table.len()
        invariant
            i <= table.len(),
            copy_of(pair_views(table@), src@, 0) == copy_of(pair_views(table@), src@, i as int),
        decreases table.len() - i,
    {
        if same(table[i].0.as_str(), src) {
            return Some(table[i].1.clone());
        }
        i += 1;
    }
    None
}

fn swap_clips(clips: &Vec<Clip>, table: &Vec<(String, String)>) -> (r: Vec<Clip>)
    ensures
        views(r@) == swapped_clips(pair_views(table@), views(clips@)),
{
    let mut out: Vec<Clip> = Vec::new();
    let ghost all = swapped_clips(pair_views(table@), views(clips@));
    let mut i: usize = 0;
    assert(views(out@) =~= all.take(0));
    while i < clips.len()
        invariant
            i <= clips.len(),
            all == swapped_clips(pair_views(table@), views(clips@)),
            views(out@) == all.take(i as int),
        decreases clips.len() - i,
    {
        let mut clip: Clip = clips[i].clone();
        let copy: Option<String> = match &clip.element {
            Element::Video { src, .. } => find_copy(table, src.as_str()),
            _ => None,
        };
        if let Some(path) = copy {
            if let Element::Video { src, .. } = &mut clip.element {
                *src = path;
            }
        }
        out.push(clip);
        assert(views(out@) =~= all.take(i + 1));
        i += 1;
    }
    assert(all.take(i as int) =~= all);
    out
}

/// The document with lightweight copies in place of the videos that have one.
/// `table` gives the copy of each source that has one.
pub fn with_proxies(project: &Project, table: &Vec<(String, String)>) -> (r: Project)
    ensures
        r@ == swapped(pair_views(table@), project@),
{
    let mut out: Project = project.clone();
    let ghost p = project@;
    let ghost t = pair_views(table@);
    let ghost q = swapped(t, p);
    let mut s: usize = 0;
    while s < out.scenes.len()
        invariant
            s <= out.scenes.len(),
            out.scenes.len() == p.scenes.len(),
            p == project@,
            t == pair_views(table@),
            q == swapped(t, p),
            out@ == (ProjectView { scenes: out@.scenes, ..p }),
            forall|k: int|
                0 <= k < out@.scenes.len() ==> #[trigger] out@.scenes[k] == if k < s {
                    q.scenes[k]
                } else {
                    p.scenes[k]
                },
        decreases out.scenes.len() - s,
    {
        let ghost before = out@;
        let layers: Vec<Clip> = swap_clips(&out.scenes[s].layers, table);
        out.scenes[s].layers = layers;
        assert(out@.scenes =~= before.scenes.update(s as int, q.scenes[s as int])) by {
            assert(before.scenes[s as int] == p.scenes[s as int]);
            assert(out@.scenes[s as int] == q.scenes[s as int]);
        }
        s += 1;
    }
    assert(out@.scenes =~= q.scenes);
    let mut k: usize = 0;
    while k < out.overlays.len()
        invariant
            k <= out.overlays.len(),
            out.overlays.len() == p.overlays.len(),
            p == project@,
            t == pair_views(table@),
            q == swapped(t, p),
            out@ == (ProjectView { scenes: q.scenes, overlays: out@.overlays, ..p }),
            forall|j: int|
                0 <= j < out@.overlays.len() ==> #[trigger] out@.overlays[j] == if j < k {
                    q.overlays[j]
                } else {
                    p.overlays[j]
                },
        decreases out.overlays.len() - k,
    {
        let ghost before = out@;
        let clips: Vec<Clip> = swap_clips(&out.overlays[k].clips, table);
        out.overlays[k].clips = clips;
        assert(out@.overlays =~= before.overlays.update(k as int, q.overlays[k as int])) by {
            assert(before.overlays[k as int] == p.overlays[k as int]);
            assert(out@.overlays[k as int] == q.overlays[k as int]);
        }
        k += 1;
    }
    assert(out@.overlays =~= q.overlays);
    out
}

/// A source is stood in for by the first entry of the table for it, if there
/// is one.
pub proof fn law_copy_of(table: Seq<(Seq<char>, Seq<char>)>, src: Seq<char>, k: int)
    ensures
        (forall|i: int| 0 <= i < table.len() ==> (#[trigger] table[i]).0 != src) ==> copy_of(
            table,
            src,
            0,
        ) is None,
        0 <= k < table.len() && table[k].0 == src && (forall|i: int|
            0 <= i < k ==> (#[trigger] table[i]).0 != src) ==> copy_of(table, src, 0) == Some(
            table[k].1,
        ),
{
    if forall|i: int| 0 <= i < table.len() ==> (#[trigger] table[i]).0 != src {
        lemma_no_copy(table, src, 0);
    }
    if 0 <= k < table.len() && table[k].0 == src && (forall|i: int|
        0 <= i < k ==> (#[trigger] table[i]).0 != src) {
        lemma_copy(table, src, 0, k);
    }
}

proof fn lemma_no_copy(table: Seq<(Seq<char>, Seq<char>)>, src: Seq<char>, i: int)
    requires
        0 <= i,
        forall|i: int| 0 <= i < table.len() ==> (#[trigger] table[i]).0 != src,
    ensures
        copy_of(table, src, i) is None,
    decreases table.len() - i,
{
    if i < table.len() {
        lemma_no_copy(table, src, i + 1);
    }
}

proof fn lemma_copy(table: Seq<(Seq<char>, Seq<char>)>, src: Seq<char>, i: int, k: int)
    requires
        0 <= i <= k < table.len(),
        table[k].0 == src,
        forall|i: int| 0 <= i < k ==> (#[trigger] table[i]).0 != src,
    ensures
        copy_of(table, src, i) == Some(table[k].1),
    decreases k - i,
{
    if i < k {
        lemma_copy(table, src, i + 1, k);
    }
}

/// Lightweight copies stand in for videos alone, and change nothing of a clip
/// but where its video comes from; what plays when stays.
pub proof fn law_swapped(table: Seq<(Seq<char>, Seq<char>)>, c: ClipView)
    ensures
        ({
            let r = swapped_clip(table, c);
            &&& r == (ClipView { element: r.element, ..c })
            &&& c.element matches ElementView::Video { src, offset, volume, rate } ==> {
                &&& r.element is Video
                &&& r.element->Video_offset == offset && r.element->Video_volume == volume
                    && r.element->Video_rate == rate
                &&& copy_of(table, src, 0) is Some ==> r.element->Video_src == copy_of(
                    table,
                    src,
                    0,
                )->0
                &&& copy_of(table, src, 0) is None ==> r.element->Video_src == src
            }
            &&& !(c.element is Video) ==> r == c
        }),
{
}

/// Every clip of the document is swapped, and nothing else of it.
pub proof fn law_swapped_everywhere(table: Seq<(Seq<char>, Seq<char>)>, p: ProjectView, a: int, i: int)
    ensures
        swapped(table, p).scenes.len() == p.scenes.len(),
        swapped(table, p).overlays.len() == p.overlays.len(),
        0 <= a < p.scenes.len() ==> swapped(table, p).scenes[a].layers.len()
            == p.scenes[a].layers.len() && swapped(table, p).scenes[a].duration
            == p.scenes[a].duration && swapped(table, p).scenes[a].transition
            == p.scenes[a].transition,
        0 <= a < p.scenes.len() && 0 <= i < p.scenes[a].layers.len() ==> swapped(
            table,
            p,
        ).scenes[a].layers[i] == swapped_clip(table, p.scenes[a].layers[i]),
        0 <= a < p.overlays.len() && 0 <= i < p.overlays[a].clips.len() ==> swapped(
            table,
            p,
        ).overlays[a].clips[i] == swapped_clip(table, p.overlays[a].clips[i]),
        swapped(table, p).defs == p.defs,
{
}

/// Films and pictures are shown by a thumbnail, sound by a waveform: one is to
/// be made where there is none yet, and where making it has not failed.
pub proof fn law_wanted_previews(s: StateView)
    ensures
        ({
            let t = wants_thumbnail()(s);
            let w = wants_waveform()(s);
            &&& t is None || w is None
            &&& t is Some || w is Some ==> !s.preview_failed && s.uri is Some
            &&& t is Some ==> !s.has_thumbnail && s.kind != SourceKind::Sound && t == s.uri
            &&& w is Some ==> !s.has_waveform && s.kind == SourceKind::Sound && w == s.uri
            &&& s.uri is Some && !s.preview_failed && !s.has_thumbnail && !s.has_waveform ==> t
                is Some || w is Some
        }),
{
}

/// The media file of a clip is the one it names, of the sort that it plays it
/// as.
pub proof fn law_clip_source(c: ClipView)
    ensures
        match c.element {
            ElementView::Video { src, offset, volume, rate } => clip_source(c) == Some(
                SourceView { kind: SourceKind::Movie, src },
            ),
            ElementView::Audio { src, offset, volume, rate } => clip_source(c) == Some(
                SourceView { kind: SourceKind::Sound, src },
            ),
            ElementView::Image { src } => clip_source(c) == Some(
                SourceView { kind: SourceKind::Picture, src },
            ),
            ElementView::Text { text, font, color, align, outline, shadow } => clip_source(c)
                is None,
            ElementView::Shape { shape, fill } => clip_source(c) is None,
            ElementView::CompRef { def, args } => clip_source(c) is None,
            ElementView::Test => clip_source(c) is None,
        },
{
}

proof fn lemma_collected_source(clips: Seq<ClipView>, i: int)
    requires
        0 <= i < clips.len(),
        clip_source(clips[i]) is Some,
    ensures
        collected(clips, clip_sources()).contains(clip_source(clips[i])->0),
    decreases clips.len(),
{
    let rest = clips.drop_last();
    let all = collected(clips, clip_sources());
    if i == clips.len() - 1 {
        assert(all[all.len() - 1] == clip_source(clips[i])->0);
    } else {
        lemma_collected_source(rest, i);
        let before = collected(rest, clip_sources());
        let k = choose|k: int| 0 <= k < before.len() && before[k] == clip_source(rest[i])->0;
        assert(all[k] == before[k]);
    }
}

proof fn lemma_layer_source(scenes: Seq<SceneView>, n: int, a: int, i: int)
    requires
        0 <= a < n <= scenes.len(),
        0 <= i < scenes[a].layers.len(),
        clip_source(scenes[a].layers[i]) is Some,
    ensures
        layer_sources(scenes, n).contains(clip_source(scenes[a].layers[i])->0),
    decreases n,
{
    let s = clip_source(scenes[a].layers[i])->0;
    let before = layer_sources(scenes, n - 1);
    let own = collected(scenes[n - 1].layers, clip_sources());
    let all = layer_sources(scenes, n);
    if a == n - 1 {
        lemma_collected_source(scenes[a].layers, i);
        let k = choose|k: int| 0 <= k < own.len() && own[k] == s;
        assert(all[before.len() + k] == s);
    } else {
        lemma_layer_source(scenes, n - 1, a, i);
        let k = choose|k: int| 0 <= k < before.len() && before[k] == s;
        assert(all[k] == s);
    }
}

proof fn lemma_track_source(tracks: Seq<OverlayTrackView>, n: int, a: int, i: int)
    requires
        0 <= a < n <= tracks.len(),
        0 <= i < tracks[a].clips.len(),
        clip_source(tracks[a].clips[i]) is Some,
    ensures
        track_sources(tracks, n).contains(clip_source(tracks[a].clips[i])->0),
    decreases n,
{
    let s = clip_source(tracks[a].clips[i])->0;
    let before = track_sources(tracks, n - 1);
    let own = collected(tracks[n - 1].clips, clip_sources());
    let all = track_sources(tracks, n);
    if a == n - 1 {
        lemma_collected_source(tracks[a].clips, i);
        let k = choose|k: int| 0 <= k < own.len() && own[k] == s;
        assert(all[before.len() + k] == s);
    } else {
        lemma_track_source(tracks, n - 1, a, i);
        let k = choose|k: int| 0 <= k < before.len() && before[k] == s;
        assert(all[k] == s);
    }
}

/// Every media file of the library, of every scene and of every track is among
/// those that previews are made of.
pub proof fn law_all_sources(p: ProjectView, a: int, i: int)
    ensures
        0 <= a < p.library.len() ==> exists|k: int|
            0 <= k < sources_of(p).len() && (#[trigger] sources_of(p)[k]).src == p.library[a],
        0 <= a < p.scenes.len() && 0 <= i < p.scenes[a].layers.len() && clip_source(
            p.scenes[a].layers[i],
        ) is Some ==> sources_of(p).contains(clip_source(p.scenes[a].layers[i])->0),
        0 <= a < p.overlays.len() && 0 <= i < p.overlays[a].clips.len() && clip_source(
            p.overlays[a].clips[i],
        ) is Some ==> sources_of(p).contains(clip_source(p.overlays[a].clips[i])->0),
{
    let library = p.library.map_values(|name: Seq<char>| library_source(name));
    let layers = layer_sources(p.scenes, p.scenes.len() as int);
    let tracks = track_sources(p.overlays, p.overlays.len() as int);
    let all = sources_of(p);
    if 0 <= a < p.library.len() {
        assert(all[a] == library[a]);
        assert(all[a].src == p.library[a]);
    }
    if 0 <= a < p.scenes.len() && 0 <= i < p.scenes[a].layers.len() && clip_source(
        p.scenes[a].layers[i],
    ) is Some {
        let s = clip_source(p.scenes[a].layers[i])->0;
        lemma_layer_source(p.scenes, p.scenes.len() as int, a, i);
        let k = choose|k: int| 0 <= k < layers.len() && layers[k] == s;
        assert(all[library.len() + k] == s);
    }
    if 0 <= a < p.overlays.len() && 0 <= i < p.overlays[a].clips.len() && clip_source(
        p.overlays[a].clips[i],
    ) is Some {
        let s = clip_source(p.overlays[a].clips[i])->0;
        lemma_track_source(p.overlays, p.overlays.len() as int, a, i);
        let k = choose|k: int| 0 <= k < tracks.len() && tracks[k] == s;
        assert(all[library.len() + layers.len() + k] == s);
    }
}

} // verus!
