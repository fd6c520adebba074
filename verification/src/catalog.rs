//! The template catalog, and the small project that shows a template.

use vstd::prelude::*;
use crate::document::{Clip, ClipView, CompDef, CompDefView, Element, ElementView, Meta, MetaView,
    Project, ProjectView, Scene, SceneView, Transform};
use crate::fixed::UNIT;
use crate::text::{lemma_text_lt_irreflexive, text_lt};
use crate::textmap::{law_stored_lookup, law_stored_sorted, lookup, sorted_keys, stored, TextMap};
use crate::views::views;

verus! {

broadcast use crate::views::group_views;

/// A map after the first `n` entries of another have been stored in it.
pub open spec fn merged<T>(
    base: Seq<(Seq<char>, T)>,
    more: Seq<(Seq<char>, T)>,
    n: int,
) -> Seq<(Seq<char>, T)>
    decreases n,
{
    if n <= 0 {
        base
    } else {
        stored(merged(base, more, n - 1), more[n - 1].0, more[n - 1].1)
    }
}

/// The templates to choose from: those that come with the editor and those of
/// the project, which win where a name occurs in both.
pub fn catalog(starter: &TextMap<CompDef>, project: &Project) -> (r: TextMap<CompDef>)
    requires
        starter.ordered(),
    ensures
        r@ == merged(starter@, project@.defs, project@.defs.len() as int),
        r.ordered(),
{
    let mut out: TextMap<CompDef> = starter.clone();
    let defs: &Vec<(String, CompDef)> = &project.defs.entries;
    let mut i: usize = 0;
    while i < defs.len()
        invariant
            i <= defs.len(),
            views(defs@) == project@.defs,
            out@ == merged(starter@, project@.defs, i as int),
            out.ordered(),
        decreases defs.len() - i,
    {
        assert(project@.defs[i as int] == (defs@[i as int].0@, defs@[i as int].1@));
        out.insert(defs[i].0.clone(), defs[i].1.clone());
        i += 1;
    }
    out
}

proof fn lemma_merged<T>(
    base: Seq<(Seq<char>, T)>,
    more: Seq<(Seq<char>, T)>,
    n: int,
    key: Seq<char>,
)
    requires
        0 <= n <= more.len(),
        sorted_keys(base),
        sorted_keys(more),
    ensures
        sorted_keys(merged(base, more, n)),
        (forall|i: int| 0 <= i < n ==> (#[trigger] more[i]).0 != key) ==> lookup(
            merged(base, more, n),
            key,
        ) == lookup(base, key),
        forall|i: int|
            0 <= i < n && (#[trigger] more[i]).0 == key ==> lookup(merged(base, more, n), key)
                == Some(more[i].1),
    decreases n,
{
    if n > 0 {
        lemma_merged(base, more, n - 1, key);
        let before = merged(base, more, n - 1);
        let last = more[n - 1];
        law_stored_sorted(before, last.0, last.1);
        law_stored_lookup(before, last.0, last.1, key);
        if last.0 == key {
            assert forall|i: int| 0 <= i < n && (#[trigger] more[i]).0 == key implies lookup(
                merged(base, more, n),
                key,
            ) == Some(more[i].1) by {
                if i < n - 1 {
                    assert(text_lt(more[i].0, more[n - 1].0));
                    lemma_text_lt_irreflexive(key);
                }
            }
        }
    }
}

proof fn lemma_lookup<T>(m: Seq<(Seq<char>, T)>, key: Seq<char>)
    ensures
        match lookup(m, key) {
            Some(v) => exists|i: int|
                0 <= i < m.len() && (#[trigger] m[i]).0 == key && m[i].1 == v,
            None => forall|i: int| 0 <= i < m.len() ==> (#[trigger] m[i]).0 != key,
        },
    decreases m.len(),
{
    if m.len() > 0 && m[0].0 != key {
        lemma_lookup(m.skip(1), key);
        match lookup(m.skip(1), key) {
            Some(v) => {
                let i = choose|i: int|
                    0 <= i < m.skip(1).len() && (#[trigger] m.skip(1)[i]).0 == key && m.skip(
                        1,
                    )[i].1 == v;
                assert(m[i + 1] == m.skip(1)[i]);
            },
            None => {
                assert forall|i: int| 0 <= i < m.len() implies (#[trigger] m[i]).0 != key by {
                    if i > 0 {
                        assert(m.skip(1)[i - 1] == m[i]);
                    }
                }
            },
        }
    }
}

/// The catalog holds the project's template of a name if there is one, else
/// the one that comes with the editor.
pub proof fn law_catalog(
    starter: Seq<(Seq<char>, CompDefView)>,
    defs: Seq<(Seq<char>, CompDefView)>,
    name: Seq<char>,
)
    requires
        sorted_keys(starter),
        sorted_keys(defs),
    ensures
        lookup(merged(starter, defs, defs.len() as int), name) == (match lookup(defs, name) {
            Some(d) => Some(d),
            None => lookup(starter, name),
        }),
{
    lemma_merged(starter, defs, defs.len() as int, name);
    lemma_lookup(defs, name);
}

/// The arguments of a template instance: the text entered for a parameter, or
/// the parameter's own name if none was.
pub open spec fn entered(
    params: Seq<Seq<char>>,
    texts: Seq<Seq<char>>,
    n: int,
) -> Seq<(Seq<char>, Seq<char>)>
    decreases n,
{
    if n <= 0 {
        Seq::empty()
    } else {
        let text = if n - 1 < texts.len() && texts[n - 1].len() > 0 {
            texts[n - 1]
        } else {
            params[n - 1]
        };
        stored(entered(params, texts, n - 1), params[n - 1], text)
    }
}

/// The arguments of a template instance, from the texts entered for its
/// parameters.
pub fn template_args(params: &Vec<String>, texts: &Vec<String>) -> (r: TextMap<String>)
    ensures
        r@ == entered(views(params@), views(texts@), params@.len() as int),
        r.ordered(),
{
    let mut out: TextMap<String> = TextMap::new();
    let mut i: usize = 0;
    while i < params.len()
        invariant
            i <= params.len(),
            out@ == entered(views(params@), views(texts@), i as int),
            out.ordered(),
        decreases params.len() - i,
    {
        let text: String = if i < texts.len() && !texts[i].as_str().is_empty() {
            texts[i].clone()
        } else {
            params[i].clone()
        };
        out.insert(params[i].clone(), text);
        i += 1;
    }
    out
}

/// The upper-case form of a text, as [`str::to_uppercase`] gives it.
pub uninterp spec fn uppercase(s: Seq<char>) -> Seq<char>;

/// `str::to_uppercase`, which depends on the text alone.
#[verifier::external_body]
fn upper_text(s: &str) -> (r: String)
    ensures
        r@ == uppercase(s@),
{
    s.to_uppercase()
}

/// Sample arguments of a template: each parameter's name in upper case.
pub open spec fn sampled(params: Seq<Seq<char>>, n: int) -> Seq<(Seq<char>, Seq<char>)>
    decreases n,
{
    if n <= 0 {
        Seq::empty()
    } else {
        stored(sampled(params, n - 1), params[n - 1], uppercase(params[n - 1]))
    }
}

fn sample_args(params: &Vec<String>) -> (r: TextMap<String>)
    ensures
        r@ == sampled(views(params@), params@.len() as int),
        r.ordered(),
{
    let mut out: TextMap<String> = TextMap::new();
    let mut i: usize = 0;
    while i < params.len()
        invariant
            i <= params.len(),
            out@ == sampled(views(params@), i as int),
            out.ordered(),
        decreases params.len() - i,
    {
        out.insert(params[i].clone(), upper_text(params[i].as_str()));
        i += 1;
    }
    out
}

/// A project of one second that shows an instance of a template with the
/// given arguments.
pub open spec fn showcase(
    p: ProjectView,
    name: Seq<char>,
    args: Seq<(Seq<char>, Seq<char>)>,
) -> ProjectView {
    ProjectView {
        meta: MetaView { title: name, ..p.meta },
        library: Seq::empty(),
        defs: p.defs,
        scenes: seq![
            SceneView {
                id: "tpl"@,
                name: Seq::empty(),
                duration: UNIT as int,
                transition: None,
                layers: seq![
                    ClipView {
                        id: "inst"@,
                        start: 0,
                        duration: 0,
                        element: ElementView::CompRef { def: name, args },
                        transform: Transform::plain(),
                        animations: Seq::empty(),
                        effects: Seq::empty(),
                    },
                ],
            },
        ],
        overlays: Seq::empty(),
        scene_lanes: Seq::empty(),
    }
}

/// The project of one second that shows an instance of a template with the
/// given arguments.
pub fn show_template(project: &Project, name: &str, args: TextMap<String>) -> (r: Project)
    ensures
        r@ == showcase(project@, name@, args@),
{
    let clip: Clip = Clip {
        id: "inst".to_owned(),
        start: 0,
        duration: 0,
        element: Element::CompRef { def: name.to_owned(), args },
        transform: Transform { x: 0, y: 0, width: 0, height: 0, opacity: UNIT },
        animations: Vec::new(),
        effects: Vec::new(),
    };
    assert(clip@.animations =~= Seq::empty());
    assert(clip@.effects =~= Seq::empty());
    let mut layers: Vec<Clip> = Vec::new();
    layers.push(clip);
    let mut scenes: Vec<Scene> = Vec::new();
    scenes.push(
        Scene {
            id: "tpl".to_owned(),
            name: String::new(),
            duration: UNIT,
            transition: None,
            layers,
        },
    );
    let r: Project = Project {
        meta: Meta {
            title: name.to_owned(),
            width: project.meta.width,
            height: project.meta.height,
            fps: project.meta.fps,
        },
        library: Vec::new(),
        defs: project.defs.clone(),
        scenes,
        overlays: Vec::new(),
        scene_lanes: Vec::new(),
    };
    proof {
        let want = showcase(project@, name@, args@);
        assert(r@.scenes[0].layers =~= want.scenes[0].layers);
        assert(r@.scenes =~= want.scenes);
        assert(r@.library =~= want.library);
        assert(r@.overlays =~= want.overlays);
    }
    r
}

/// The project that previews a template, with sample arguments; `None` if
/// there is no such template.
pub fn template_project(project: &Project, name: &str) -> (r: Option<Project>)
    ensures
        match r {
            Some(q) => lookup(project@.defs, name@) is Some && q@ == showcase(
                project@,
                name@,
                sampled(
                    lookup(project@.defs, name@)->0.params,
                    lookup(project@.defs, name@)->0.params.len() as int,
                ),
            ),
            None => lookup(project@.defs, name@) is None,
        },
{
    match project.defs.get(name) {
        Some(def) => {
            let args: TextMap<String> = sample_args(&def.params);
            Some(show_template(project, name, args))
        },
        None => None,
    }
}

} // verus!
