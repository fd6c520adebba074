//! The media library, and putting media and templates on the timeline.

use vstd::prelude::*;
use crate::document::{Clip, ClipView, CompDef, CompDefView, Element, ElementView, Project,
    ProjectView, Transform};
use crate::edit::{scene_at, scene_index_at};
use crate::fixed::{clamped, larger, max, HORIZON, TENTH, UNIT};
use crate::ids::{free_id, fresh_id};
use crate::text::{chars_of, joined, list_contains, same, text_of};
use crate::textmap::{lookup, stored, TextMap};
use crate::timeline::{find_clip, found, offset_of, with_layers};
use crate::validate::all_ids;
use crate::views::{collected, lemma_collected_step, views};
use crate::words::{lemma_split_some, lower, lower_char, lower_text, lowered, split_by, split_text};

verus! {

broadcast use crate::views::group_views;

/// The library after the first `n` entries have been added to it.
pub open spec fn added(library: Seq<Seq<char>>, entries: Seq<Seq<char>>, n: int) -> Seq<Seq<char>>
    decreases n,
{
    if n <= 0 {
        library
    } else {
        let before = added(library, entries, n - 1);
        if before.contains(entries[n - 1]) {
            before
        } else {
            before.push(entries[n - 1])
        }
    }
}

/// Add media files to the library; those that it holds already are not added
/// again.
pub fn add_to_library(project: &mut Project, entries: &Vec<String>)
    ensures
        final(project)@ == (ProjectView {
            library: added(old(project)@.library, views(entries@), entries@.len() as int),
            ..old(project)@
        }),
{
    let ghost before = project@;
    let mut i: usize = 0;
    while i < entries.len()
        invariant
            i <= entries.len(),
            project@ == (ProjectView {
                library: added(before.library, views(entries@), i as int),
                ..before
            }),
        decreases entries.len() - i,
    {
        if !list_contains(&project.library, entries[i].as_str()) {
            project.library.push(entries[i].clone());
        }
        i += 1;
    }
}

proof fn lemma_added(library: Seq<Seq<char>>, entries: Seq<Seq<char>>, n: int)
    requires
        0 <= n <= entries.len(),
    ensures
        library.no_duplicates() ==> added(library, entries, n).no_duplicates(),
        library.len() <= added(library, entries, n).len(),
        added(library, entries, n).take(library.len() as int) == library,
        forall|i: int|
            0 <= i < n ==> #[trigger] added(library, entries, n).contains(entries[i]),
    decreases n,
{
    if n > 0 {
        lemma_added(library, entries, n - 1);
        let before = added(library, entries, n - 1);
        let after = added(library, entries, n);
        assert(after.take(library.len() as int) =~= before.take(library.len() as int));
        assert forall|i: int| 0 <= i < n implies #[trigger] after.contains(entries[i]) by {
            if i < n - 1 {
                assert(before.contains(entries[i]));
                let k = choose|k: int| 0 <= k < before.len() && before[k] == entries[i];
                assert(after[k] == entries[i]);
            } else if !before.contains(entries[i]) {
                assert(after[before.len() as int] == entries[i]);
            }
        }
    } else {
        assert(library.take(library.len() as int) =~= library);
    }
}

/// Adding files keeps the library free of duplicates, keeps what it holds in
/// place, and leaves every added file in it.
pub proof fn law_library_added(library: Seq<Seq<char>>, entries: Seq<Seq<char>>)
    ensures
        ({
            let after = added(library, entries, entries.len() as int);
            &&& library.no_duplicates() ==> after.no_duplicates()
            &&& library.len() <= after.len() && after.take(library.len() as int) == library
            &&& forall|i: int| 0 <= i < entries.len() ==> #[trigger] after.contains(entries[i])
        }),
{
    lemma_added(library, entries, entries.len() as int);
}

pub open spec fn other_than(entry: Seq<char>) -> spec_fn(Seq<char>) -> Option<Seq<char>> {
    |e: Seq<char>|
        if e == entry {
            None
        } else {
            Some(e)
        }
}

/// Take a media file out of the library.
pub fn remove_from_library(project: &mut Project, entry: &str)
    ensures
        final(project)@ == (ProjectView {
            library: collected(old(project)@.library, other_than(entry@)),
            ..old(project)@
        }),
{
    let ghost all = project@.library;
    let ghost f = other_than(entry@);
    let mut kept: Vec<String> = Vec::new();
    let mut i: usize = 0;
    assert(views(kept@) =~= collected(all.take(0), f));
    while i < project.library.len()
        invariant
            i <= project.library.len(),
            all == views(project.library@),
            f == other_than(entry@),
            views(kept@) == collected(all.take(i as int), f),
        decreases project.library.len() - i,
    {
        proof {
            lemma_collected_step(all, f, i as int);
        }
        if !same(project.library[i].as_str(), entry) {
            kept.push(project.library[i].clone());
        }
        i += 1;
    }
    assert(all.take(i as int) =~= all);
    project.library = kept;
}

/// What follows the last dot of a file name, in lower case; the whole name
/// without a dot.
pub open spec fn extension(name: Seq<char>) -> Seq<char> {
    lowered(split_by(name, '.').last())
}

fn extension_of(name: &str) -> (r: String)
    ensures
        r@ == extension(name@),
{
    let parts: Vec<String> = split_text(name, '.');
    proof {
        lemma_split_some(name@, '.');
    }
    let n: usize = parts.len();
    assert(views(parts@).len() == n);
    lower_text(parts[n - 1].as_str())
}

/// What a media file is put on the timeline as.
#[derive(Debug, Clone, Copy, PartialEq, Eq, Structural)]
pub enum MediaKind {
    Image,
    Audio,
    Video,
}

pub open spec fn is_audio_ext(e: Seq<char>) -> bool {
    e == "ogg"@ || e == "mp3"@ || e == "wav"@ || e == "flac"@
}

pub open spec fn is_still_ext(e: Seq<char>) -> bool {
    e == "png"@ || e == "jpg"@ || e == "jpeg"@ || e == "webp"@
}

/// What a media file is put on the timeline as, by its extension.
pub open spec fn kind_of(name: Seq<char>) -> MediaKind {
    if is_still_ext(extension(name)) {
        MediaKind::Image
    } else if is_audio_ext(extension(name)) {
        MediaKind::Audio
    } else {
        MediaKind::Video
    }
}

/// A file with sound alone.
pub fn is_audio_file(name: &str) -> (r: bool)
    ensures
        r == is_audio_ext(extension(name@)),
{
    let e: String = extension_of(name);
    same(e.as_str(), "ogg") || same(e.as_str(), "mp3") || same(e.as_str(), "wav") || same(
        e.as_str(),
        "flac",
    )
}

/// A still image that can be put on the timeline.
pub fn is_still_file(name: &str) -> (r: bool)
    ensures
        r == is_still_ext(extension(name@)),
{
    let e: String = extension_of(name);
    same(e.as_str(), "png") || same(e.as_str(), "jpg") || same(e.as_str(), "jpeg") || same(
        e.as_str(),
        "webp",
    )
}

/// A file that needs no lightweight copy as an image.
pub open spec fn is_picture_ext(e: Seq<char>) -> bool {
    is_still_ext(e) || e == "gif"@ || e == "svg"@
}

/// A file that needs no lightweight copy as an image.
pub fn is_picture_file(name: &str) -> (r: bool)
    ensures
        r == is_picture_ext(extension(name@)),
{
    let e: String = extension_of(name);
    is_still_file(name) || same(e.as_str(), "gif") || same(e.as_str(), "svg")
}

/// What a media file is put on the timeline as.
pub fn media_kind(name: &str) -> (r: MediaKind)
    ensures
        r == kind_of(name@),
{
    if is_still_file(name) {
        MediaKind::Image
    } else if is_audio_file(name) {
        MediaKind::Audio
    } else {
        MediaKind::Video
    }
}

/// The element that plays or shows a media file.
pub open spec fn element_of(src: Seq<char>) -> ElementView {
    match kind_of(src) {
        MediaKind::Image => ElementView::Image { src },
        MediaKind::Audio => ElementView::Audio { src, offset: 0, volume: UNIT as int, rate: UNIT as int },
        MediaKind::Video => ElementView::Video { src, offset: 0, volume: UNIT as int, rate: UNIT as int },
    }
}

/// A letter or a number, as [`char::is_alphanumeric`] decides.
pub uninterp spec fn alphanumeric(c: char) -> bool;

/// `char::is_alphanumeric` depends on its character alone; among the ASCII
/// characters it holds of the letters and the digits.
pub assume_specification[ char::is_alphanumeric ](c: char) -> (r: bool)
    ensures
        r == alphanumeric(c),
        c <= '\u{7f}' ==> r == ('0' <= c <= '9' || 'a' <= c <= 'z' || 'A' <= c <= 'Z'),
;

/// A character as it stands in an id: letters and numbers in lower case, a
/// hyphen for all others.
pub open spec fn id_char(c: char) -> char {
    if alphanumeric(c) {
        lower_char(c)
    } else {
        '-'
    }
}

/// A text as it stands in an id.
pub open spec fn slug_of(s: Seq<char>) -> Seq<char> {
    s.map_values(|c: char| id_char(c))
}

/// A text as it stands in an id: letters and numbers in lower case, a hyphen
/// for all others.
pub fn slug(text: &str) -> (r: String)
    ensures
        r@ == slug_of(text@),
{
    let v: Vec<char> = chars_of(text);
    let mut s: String = String::new();
    let mut i: usize = 0;
    while i < v.len()
        invariant
            i <= v.len(),
            v@ == text@,
            s@ == slug_of(text@.take(i as int)),
        decreases v.len() - i,
    {
        s.push(
            if v[i].is_alphanumeric() {
                lower(v[i])
            } else {
                '-'
            },
        );
        i += 1;
        assert(s@ =~= slug_of(text@.take(i as int)));
    }
    assert(text@.take(i as int) =~= text@);
    s
}

/// Number of bytes that a character takes up in UTF-8.
pub open spec fn byte_length(c: char) -> int {
    if c <= '\u{7f}' {
        1
    } else if c <= '\u{7ff}' {
        2
    } else if c <= '\u{ffff}' {
        3
    } else {
        4
    }
}

/// Number of the characters of `s`, from `i` on, that fit into `room` bytes.
pub open spec fn fitting(s: Seq<char>, i: int, room: int) -> int
    decreases s.len() - i,
{
    if i >= s.len() || byte_length(s[i]) > room {
        0
    } else {
        1 + fitting(s, i + 1, room - byte_length(s[i]))
    }
}

/// The longest beginning of a text that takes up at most `room` bytes.
pub open spec fn shortened(s: Seq<char>, room: int) -> Seq<char> {
    s.take(fitting(s, 0, room))
}

fn shorten(text: &str, room: u8) -> (r: String)
    ensures
        r@ == shortened(text@, room as int),
{
    let v: Vec<char> = chars_of(text);
    let mut left: u8 = room;
    let mut i: usize = 0;
    let mut more: bool = true;
    while more && i < v.len()
        invariant
            i <= v.len(),
            v@ == text@,
            left <= room,
            more ==> fitting(text@, 0, room as int) == i + fitting(text@, i as int, left as int),
            !more ==> fitting(text@, 0, room as int) == i,
        decreases
            2 * (v.len() - i) + if more {
                1int
            } else {
                0int
            },
    {
        let c: char = v[i];
        let n: u8 = if c <= '\u{7f}' {
            1
        } else if c <= '\u{7ff}' {
            2
        } else if c <= '\u{ffff}' {
            3
        } else {
            4
        };
        if n > left {
            more = false;
        } else {
            left = left - n;
            i += 1;
        }
    }
    let r: String = text_of(&v, 0, i);
    assert(r@ =~= text@.take(i as int));
    r
}

/// The id of a new clip: `base` if no clip has it, else the first of `base`
/// with a number from 1 on that none has.
pub open spec fn new_id(p: ProjectView, base: Seq<char>) -> Seq<char> {
    if found(p, base) is None {
        base
    } else {
        free_id(p, base + "-"@, 1)
    }
}

fn make_id(project: &Project, base: &str) -> (r: String)
    requires
        all_ids(project@).len() < u64::MAX - 1,
    ensures
        r@ == new_id(project@, base@),
        found(project@, r@) is None,
{
    if find_clip(project, base).is_none() {
        base.to_owned()
    } else {
        fresh_id(project, joined(base, "-").as_str(), 1)
    }
}

/// A plain clip that lasts as long as its scene.
pub open spec fn plain_clip(id: Seq<char>, start: int, element: ElementView) -> ClipView {
    ClipView {
        id,
        start,
        duration: 0,
        element,
        transform: Transform::plain(),
        animations: Seq::empty(),
        effects: Seq::empty(),
    }
}

fn make_clip(id: String, start: i128, element: Element) -> (r: Clip)
    ensures
        r@ == plain_clip(id@, start as int, element@),
{
    let c: Clip = Clip {
        id,
        start,
        duration: 0,
        element,
        transform: Transform { x: 0, y: 0, width: 0, height: 0, opacity: UNIT },
        animations: Vec::new(),
        effects: Vec::new(),
    };
    assert(c@.animations =~= Seq::empty());
    assert(c@.effects =~= Seq::empty());
    c
}

/// Where a clip put in at time `t` starts in scene `s`: in the scene, and a
/// tenth of a second before its end at the latest.
pub open spec fn start_in(p: ProjectView, s: int, t: int) -> int {
    clamped(t - offset_of(p.scenes, s), 0, max(p.scenes[s].duration - TENTH, 0))
}

/// The document with a clip put into the scene at time `t`: on top of the
/// other layers, or below them.
pub open spec fn put_in(
    p: ProjectView,
    t: int,
    id: Seq<char>,
    element: ElementView,
    on_top: bool,
) -> ProjectView {
    let s = scene_at(p.scenes, t, p.scenes.len() as int);
    let c = plain_clip(id, start_in(p, s, t), element);
    with_layers(
        p,
        s,
        if on_top {
            p.scenes[s].layers.insert(0, c)
        } else {
            p.scenes[s].layers.push(c)
        },
    )
}

fn put_clip(project: &mut Project, t: i128, id: String, element: Element, on_top: bool)
    requires
        old(project)@.fits(16),
        old(project)@.scenes.len() > 0,
        -HORIZON <= t <= HORIZON,
    ensures
        final(project)@ == put_in(old(project)@, t as int, id@, element@, on_top),
{
    let ghost p = project@;
    let s: usize = scene_index_at(project, t);
    let offset: i128 = project.scene_offset(s);
    assert(p.scenes[s as int].fits(16));
    let latest: i128 = larger(project.scenes[s].duration - TENTH, 0);
    let local: i128 = t - offset;
    let start: i128 = if local < 0 {
        0
    } else if local > latest {
        latest
    } else {
        local
    };
    let clip: Clip = make_clip(id, start, element);
    if on_top {
        project.scenes[s].layers.insert(0, clip);
    } else {
        project.scenes[s].layers.push(clip);
    }
    assert(project@.scenes =~= put_in(p, t as int, id@, element@, on_top).scenes);
}

/// The id base of a media file: its path as a slug, cut to 24 bytes.
pub open spec fn media_base(rel: Seq<char>) -> Seq<char> {
    shortened(slug_of(rel), 24)
}

/// Put a media file on the timeline, in the scene at time `t`: a video above
/// the other layers, anything else below them. Gives the id of the new clip.
pub fn insert_media(project: &mut Project, rel: &str, t: i128) -> (r: String)
    requires
        old(project)@.fits(16),
        old(project)@.scenes.len() > 0,
        all_ids(old(project)@).len() < u64::MAX - 1,
        -HORIZON <= t <= HORIZON,
    ensures
        r@ == new_id(old(project)@, media_base(rel@)),
        found(old(project)@, r@) is None,
        final(project)@ == put_in(
            old(project)@,
            t as int,
            r@,
            element_of(rel@),
            kind_of(rel@) == MediaKind::Video,
        ),
{
    let base: String = shorten(slug(rel).as_str(), 24);
    let id: String = make_id(project, base.as_str());
    let kind: MediaKind = media_kind(rel);
    let element: Element = match kind {
        MediaKind::Image => Element::Image { src: rel.to_owned() },
        MediaKind::Audio => Element::Audio {
            src: rel.to_owned(),
            offset: 0,
            volume: UNIT,
            rate: UNIT,
        },
        MediaKind::Video => Element::Video {
            src: rel.to_owned(),
            offset: 0,
            volume: UNIT,
            rate: UNIT,
        },
    };
    put_clip(project, t, id.clone(), element, kind == MediaKind::Video);
    id
}

/// The document with a def copied in from a catalog, if it has none of that
/// name and the catalog does.
pub open spec fn with_catalog_def(
    p: ProjectView,
    catalog: Seq<(Seq<char>, CompDefView)>,
    name: Seq<char>,
) -> ProjectView {
    match lookup(p.defs, name) {
        Some(d) => p,
        None => match lookup(catalog, name) {
            Some(d) => ProjectView { defs: stored(p.defs, name, d), ..p },
            None => p,
        },
    }
}

/// Put an instance of a template on the timeline, above the other layers of
/// the scene at time `t`; its def is copied in from the catalog on first use.
/// Gives the id of the new clip.
pub fn insert_template(
    project: &mut Project,
    catalog: &TextMap<CompDef>,
    name: &str,
    args: TextMap<String>,
    t: i128,
) -> (r: String)
    requires
        old(project)@.fits(16),
        old(project)@.scenes.len() > 0,
        old(project).defs.ordered(),
        all_ids(old(project)@).len() < u64::MAX - 1,
        lookup(catalog@, name@) is Some ==> crate::document::clips_fit(
            lookup(catalog@, name@)->0.layers,
            16,
        ),
        -HORIZON <= t <= HORIZON,
    ensures
        ({
            let p = with_catalog_def(old(project)@, catalog@, name@);
            &&& r@ == new_id(old(project)@, name@)
            &&& found(old(project)@, r@) is None
            &&& final(project)@ == put_in(
                p,
                t as int,
                r@,
                ElementView::CompRef { def: name@, args: args@ },
                true,
            )
        }),
        final(project).defs.ordered(),
{
    let ghost before = project@;
    let ghost p = with_catalog_def(before, catalog@, name@);
    if !project.defs.contains_key(name) {
        if let Some(def) = catalog.get(name) {
            project.defs.insert(name.to_owned(), def.clone());
            proof {
                lemma_stored_fits(before.defs, name@, lookup(catalog@, name@)->0);
            }
        }
    }
    assert(project@ == p);
    proof {
        lemma_same_places(before, p, name@);
        assert(p.fits(16));
    }
    let id: String = make_id(project, name);
    proof {
        lemma_same_new_id(before, p, name@);
        lemma_same_places(before, p, id@);
    }
    let element: Element = Element::CompRef { def: name.to_owned(), args };
    put_clip(project, t, id.clone(), element, true);
    id
}

proof fn lemma_stored_fits(defs: Seq<(Seq<char>, CompDefView)>, name: Seq<char>, d: CompDefView)
    requires
        forall|i: int|
            0 <= i < defs.len() ==> crate::document::clips_fit((#[trigger] defs[i]).1.layers, 16),
        crate::document::clips_fit(d.layers, 16),
    ensures
        forall|i: int|
            0 <= i < stored(defs, name, d).len() ==> crate::document::clips_fit(
                (#[trigger] stored(defs, name, d)[i]).1.layers,
                16,
            ),
    decreases defs.len(),
{
    let s = stored(defs, name, d);
    if defs.len() > 0 {
        let rest = defs.skip(1);
        assert forall|i: int| 0 <= i < rest.len() implies crate::document::clips_fit(
            (#[trigger] rest[i]).1.layers,
            16,
        ) by {
            assert(rest[i] == defs[i + 1]);
        }
        lemma_stored_fits(rest, name, d);
        let t = stored(rest, name, d);
        assert forall|i: int| 0 <= i < s.len() implies crate::document::clips_fit(
            (#[trigger] s[i]).1.layers,
            16,
        ) by {
            if s == seq![defs[0]] + t && i > 0 {
                assert(s[i] == t[i - 1]);
            } else if s == seq![(name, d)] + defs && i > 0 {
                assert(s[i] == defs[i - 1]);
            } else if i > 0 {
                assert(s[i] == defs[i]);
            } else {
                assert(defs[0] == defs[0]);
            }
        }
    }
}

/// Ids do not depend on the defs.
proof fn lemma_same_places(a: ProjectView, b: ProjectView, id: Seq<char>)
    requires
        a.scenes == b.scenes,
        a.overlays == b.overlays,
    ensures
        found(a, id) == found(b, id),
        all_ids(a) == all_ids(b),
{
}

proof fn lemma_same_new_id(a: ProjectView, b: ProjectView, base: Seq<char>)
    requires
        a.scenes == b.scenes,
        a.overlays == b.overlays,
    ensures
        new_id(a, base) == new_id(b, base),
{
    let x = base + "-"@;
    let n = crate::ids::lemma_free_exists(a, x, 1, 1);
    crate::ids::lemma_free_id(a, x, 1, n);
    assert(crate::ids::first_free(b, x, 1, n));
    crate::ids::lemma_free_id(b, x, 1, n);
}

/// A clip put on the timeline stands in the scene at the time, first of its
/// layers if it goes on top and else last, with the other layers in order. It
/// starts at that time as far as the scene leaves it a tenth of a second, and
/// fills the rest of the scene.
pub proof fn law_put_where(
    p: ProjectView,
    t: int,
    id: Seq<char>,
    element: ElementView,
    on_top: bool,
)
    requires
        p.scenes.len() > 0,
    ensures
        ({
            let s = scene_at(p.scenes, t, p.scenes.len() as int);
            let before = p.scenes[s].layers;
            let after = put_in(p, t, id, element, on_top).scenes[s].layers;
            let put = after[if on_top {
                0
            } else {
                before.len() as int
            }];
            let wanted = t - offset_of(p.scenes, s);
            let last = p.scenes[s].duration - 100_000_000;
            &&& after.len() == before.len() + 1
            &&& forall|k: int|
                0 <= k < before.len() ==> #[trigger] before[k] == after[if on_top {
                    k + 1
                } else {
                    k
                }]
            &&& put.id == id && put.element == element && put.duration == 0
            &&& put.transform.x == 0 && put.transform.y == 0 && put.transform.opacity
                == 1_000_000_000
            &&& put.animations.len() == 0 && put.effects.len() == 0
            &&& 0 <= wanted <= last ==> put.start == wanted
            &&& wanted > last && last >= 0 ==> put.start == last
            &&& wanted < 0 || last < 0 ==> put.start == 0
        }),
{
    crate::edit::law_scene_at(p.scenes, t, p.scenes.len() as int);
}

/// Taking an entry out of the library takes out that entry alone.
pub proof fn law_library_removed(library: Seq<Seq<char>>, entry: Seq<char>)
    ensures
        collected(library, other_than(entry)) == library.filter(|e: Seq<char>| e != entry),
{
    let keep = |e: Seq<char>| e != entry;
    crate::views::lemma_collected_filter(library, other_than(entry), keep);
    let kept = library.filter(keep);
    let got = collected(library, other_than(entry));
    assert forall|j: int| 0 <= j < got.len() implies got[j] == kept[j] by {
        assert(other_than(entry)(kept[j]) == Some(got[j]));
    }
    assert(got =~= kept);
}

/// The extension of a file name is what follows its last dot, in lower case.
pub proof fn law_extension(stem: Seq<char>, ext: Seq<char>)
    requires
        !ext.contains('.'),
    ensures
        extension(stem + seq!['.'] + ext) == lowered(ext),
    decreases ext.len(),
{
    lemma_last_piece(stem, ext);
}

proof fn lemma_last_piece(stem: Seq<char>, ext: Seq<char>)
    requires
        !ext.contains('.'),
    ensures
        split_by(stem + seq!['.'] + ext, '.').last() == ext,
        split_by(stem + seq!['.'] + ext, '.').len() > 0,
    decreases ext.len(),
{
    let s = stem + seq!['.'] + ext;
    lemma_split_some(s.drop_last(), '.');
    if ext.len() == 0 {
        assert(s.last() == '.');
        assert(ext =~= Seq::empty());
    } else {
        let less = ext.drop_last();
        assert(s.drop_last() =~= stem + seq!['.'] + less);
        assert forall|i: int| 0 <= i < less.len() implies less[i] != '.' by {
            assert(ext[i] == less[i]);
        }
        lemma_last_piece(stem, less);
        assert(s.last() == ext.last());
        assert(ext[ext.len() - 1] != '.');
        assert(less.push(ext.last()) =~= ext);
    }
}

/// A file is a picture or a sound by its extension, whatever the case of its
/// letters, and else a film; it plays from its start, as loud and as fast as
/// it is.
pub proof fn law_media_kind(name: Seq<char>)
    ensures
        ({
            let e = extension(name);
            let still = e == "png"@ || e == "jpg"@ || e == "jpeg"@ || e == "webp"@;
            let sound = e == "ogg"@ || e == "mp3"@ || e == "wav"@ || e == "flac"@;
            &&& still ==> element_of(name) == (ElementView::Image { src: name })
            &&& !still && sound ==> element_of(name) == (ElementView::Audio {
                src: name,
                offset: 0,
                volume: 1_000_000_000,
                rate: 1_000_000_000,
            })
            &&& !still && !sound ==> element_of(name) == (ElementView::Video {
                src: name,
                offset: 0,
                volume: 1_000_000_000,
                rate: 1_000_000_000,
            })
        }),
{
}

/// Bytes that the first `n` characters of a text take up in UTF-8.
pub open spec fn bytes_upto(s: Seq<char>, n: int) -> int
    decreases n,
{
    if n <= 0 {
        0
    } else {
        let c = s[n - 1];
        bytes_upto(s, n - 1) + if c <= '\u{7f}' {
            1int
        } else if c <= '\u{7ff}' {
            2
        } else if c <= '\u{ffff}' {
            3
        } else {
            4
        }
    }
}

/// A shortened text is the longest beginning of it that takes up no more
/// bytes than there is room.
pub proof fn law_shortened(s: Seq<char>, room: int)
    requires
        room >= 0,
    ensures
        ({
            let n = shortened(s, room).len() as int;
            &&& n <= s.len() && shortened(s, room) == s.take(n)
            &&& bytes_upto(s, n) <= room
            &&& n < s.len() ==> bytes_upto(s, n + 1) > room
        }),
{
    lemma_fitting(s, 0, room);
}

proof fn lemma_fitting(s: Seq<char>, i: int, room: int)
    requires
        0 <= i <= s.len(),
        room >= 0,
    ensures
        ({
            let n = fitting(s, i, room);
            &&& 0 <= n <= s.len() - i
            &&& bytes_upto(s, i + n) - bytes_upto(s, i) <= room
            &&& i + n < s.len() ==> bytes_upto(s, i + n + 1) - bytes_upto(s, i) > room
        }),
    decreases s.len() - i,
{
    if i < s.len() {
        assert(bytes_upto(s, i + 1) == bytes_upto(s, i) + byte_length(s[i]));
    }
    if i < s.len() && byte_length(s[i]) <= room {
        lemma_fitting(s, i + 1, room - byte_length(s[i]));
    }
}

/// A slug has a character for each of the text: letters and numbers in lower
/// case, and hyphens; of ASCII it holds nothing else.
pub proof fn law_slug(s: Seq<char>, i: int)
    requires
        0 <= i < s.len(),
    ensures
        slug_of(s).len() == s.len(),
        alphanumeric(s[i]) && !('A' <= s[i] <= 'Z') ==> slug_of(s)[i] == s[i],
        alphanumeric(s[i]) && 'A' <= s[i] <= 'Z' ==> slug_of(s)[i] as u32 == s[i] as u32 + 32,
        !alphanumeric(s[i]) ==> slug_of(s)[i] == '-',
{
}

/// A template that is used brings its def into the document, unless the
/// document has a def of that name, which then stays; other defs stay anyway.
pub proof fn law_template_def(
    p: ProjectView,
    catalog: Seq<(Seq<char>, CompDefView)>,
    name: Seq<char>,
    other: Seq<char>,
)
    ensures
        ({
            let q = with_catalog_def(p, catalog, name);
            &&& lookup(p.defs, name) is Some ==> q == p
            &&& lookup(p.defs, name) is None ==> lookup(q.defs, name) == lookup(catalog, name)
            &&& other != name ==> lookup(q.defs, other) == lookup(p.defs, other)
            &&& q.scenes == p.scenes && q.overlays == p.overlays
        }),
{
    if lookup(p.defs, name) is None && lookup(catalog, name) is Some {
        crate::textmap::law_stored_lookup(p.defs, name, lookup(catalog, name)->0, other);
    }
}

} // verus!
