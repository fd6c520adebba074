//! Defs may nest, but a def that reaches itself would expand forever.

use vstd::prelude::*;
use crate::document::{Clip, ClipView, CompDef, CompDefView, Element, ElementView};
use crate::faults::{ErrorView, Fault, ValidateError};
use crate::text::list_contains;
use crate::textmap::{lookup, TextMap};
use crate::views::views;

verus! {

broadcast use {crate::views::group_views, vstd::seq_lib::group_seq_properties};

/// The def that a clip instantiates.
pub open spec fn def_of(c: ClipView) -> Option<Seq<char>> {
    match c.element {
        ElementView::CompRef { def, args } => Some(def),
        _ => None,
    }
}

/// A layer of def `a` instantiates def `b`.
pub open spec fn refers(defs: Seq<(Seq<char>, CompDefView)>, a: Seq<char>, b: Seq<char>) -> bool {
    match lookup(defs, a) {
        Some(d) => exists|i: int|
            0 <= i < d.layers.len() && def_of(#[trigger] d.layers[i]) == Some(b),
        None => false,
    }
}

/// Name `i` of a path refers to the next one.
pub open spec fn linked(
    defs: Seq<(Seq<char>, CompDefView)>,
    path: Seq<Seq<char>>,
    i: int,
) -> bool {
    refers(defs, path[i], path[i + 1])
}

/// A chain of defs, each of which instantiates the next.
pub open spec fn is_chain(defs: Seq<(Seq<char>, CompDefView)>, path: Seq<Seq<char>>) -> bool {
    &&& path.len() > 0
    &&& lookup(defs, path[0]) is Some
    &&& forall|i: int| 0 <= i < path.len() - 1 ==> #[trigger] linked(defs, path, i)
}

/// No chain of defs comes back to a def that it has passed.
pub open spec fn acyclic(defs: Seq<(Seq<char>, CompDefView)>) -> bool {
    forall|path: Seq<Seq<char>>| #[trigger] is_chain(defs, path) ==> path.no_duplicates()
}

/// The names of a path with arrows between them.
pub open spec fn arrows(path: Seq<Seq<char>>) -> Seq<char>
    decreases path.len(),
{
    if path.len() == 0 {
        Seq::empty()
    } else if path.len() == 1 {
        path[0]
    } else {
        arrows(path.drop_last()) + " -> "@ + path.last()
    }
}

/// The first def, from layer `i` on, that is already on the path.
pub open spec fn closing(path: Seq<Seq<char>>, layers: Seq<ClipView>, i: int) -> Option<Seq<char>>
    decreases layers.len() - i,
{
    if i >= layers.len() {
        None
    } else if def_of(layers[i]) is Some && path.contains(def_of(layers[i])->0) {
        def_of(layers[i])
    } else {
        closing(path, layers, i + 1)
    }
}

/// The circle found by following the defs from the end of `path`: the layers
/// of a def are looked at in order first, then followed from the last to the
/// first. `fuel` bounds the length of a path.
pub open spec fn visit(
    defs: Seq<(Seq<char>, CompDefView)>,
    path: Seq<Seq<char>>,
    fuel: nat,
) -> Option<ErrorView>
    decreases fuel, 0nat,
{
    if fuel == 0 {
        None
    } else {
        match lookup(defs, path.last()) {
            None => None,
            Some(d) => match closing(path, d.layers, 0) {
                Some(r) => Some(
                    ErrorView { fault: Fault::DefCycle, id: arrows(path), detail: r },
                ),
                None => visit_below(defs, path, d.layers, d.layers.len(), (fuel - 1) as nat),
            },
        }
    }
}

/// The circle found by following the first `n` layers, last one first.
pub open spec fn visit_below(
    defs: Seq<(Seq<char>, CompDefView)>,
    path: Seq<Seq<char>>,
    layers: Seq<ClipView>,
    n: nat,
    fuel: nat,
) -> Option<ErrorView>
    decreases fuel, n,
{
    if n == 0 {
        None
    } else {
        let here = match def_of(layers[n - 1]) {
            Some(r) => visit(defs, path.push(r), fuel),
            None => None,
        };
        if here is Some {
            here
        } else {
            visit_below(defs, path, layers, (n - 1) as nat, fuel)
        }
    }
}

/// The first circle found from the defs on, from def `k` on.
pub open spec fn cycle_fault(defs: Seq<(Seq<char>, CompDefView)>, k: int) -> Option<ErrorView>
    decreases defs.len() - k,
{
    if k >= defs.len() {
        None
    } else {
        let here = visit(defs, seq![defs[k].0], defs.len());
        if here is Some {
            here
        } else {
            cycle_fault(defs, k + 1)
        }
    }
}

proof fn lemma_closing(path: Seq<Seq<char>>, layers: Seq<ClipView>, i: int)
    requires
        0 <= i,
    ensures
        closing(path, layers, i) is Some ==> path.contains(closing(path, layers, i)->0) && exists|
            k: int,
        |
            i <= k < layers.len() && def_of(#[trigger] layers[k]) == closing(path, layers, i),
        closing(path, layers, i) is None ==> forall|k: int|
            i <= k < layers.len() && def_of(#[trigger] layers[k]) is Some ==> !path.contains(
                def_of(layers[k])->0,
            ),
    decreases layers.len() - i,
{
    if i < layers.len() {
        lemma_closing(path, layers, i + 1);
    }
}

proof fn lemma_chain_push(
    defs: Seq<(Seq<char>, CompDefView)>,
    path: Seq<Seq<char>>,
    r: Seq<char>,
)
    requires
        is_chain(defs, path),
        refers(defs, path.last(), r),
    ensures
        is_chain(defs, path.push(r)),
{
    let q = path.push(r);
    assert forall|i: int| 0 <= i < q.len() - 1 implies #[trigger] linked(defs, q, i) by {
        if i < path.len() - 1 {
            assert(linked(defs, path, i));
        }
    }
}

/// Every fault found is a circle.
proof fn lemma_visit_sound(
    defs: Seq<(Seq<char>, CompDefView)>,
    path: Seq<Seq<char>>,
    fuel: nat,
)
    requires
        is_chain(defs, path),
        visit(defs, path, fuel) is Some,
    ensures
        !acyclic(defs),
    decreases fuel, 0nat,
{
    let d = lookup(defs, path.last())->0;
    lemma_closing(path, d.layers, 0);
    match closing(path, d.layers, 0) {
        Some(r) => {
            assert(refers(defs, path.last(), r));
            lemma_chain_push(defs, path, r);
            let q = path.push(r);
            let i = choose|i: int| 0 <= i < path.len() && path[i] == r;
            assert(q[i] == q[path.len() as int]);
            assert(!q.no_duplicates());
            assert(is_chain(defs, q));
        },
        None => {
            lemma_visit_below_sound(defs, path, d.layers.len(), (fuel - 1) as nat);
        },
    }
}

proof fn lemma_visit_below_sound(
    defs: Seq<(Seq<char>, CompDefView)>,
    path: Seq<Seq<char>>,
    n: nat,
    fuel: nat,
)
    requires
        is_chain(defs, path),
        lookup(defs, path.last()) is Some,
        n <= lookup(defs, path.last())->0.layers.len(),
        visit_below(defs, path, lookup(defs, path.last())->0.layers, n, fuel) is Some,
    ensures
        !acyclic(defs),
    decreases fuel, n,
{
    let layers = lookup(defs, path.last())->0.layers;
    let c = layers[n - 1];
    if def_of(c) is Some && visit(defs, path.push(def_of(c)->0), fuel) is Some {
        assert(refers(defs, path.last(), def_of(c)->0));
        lemma_chain_push(defs, path, def_of(c)->0);
        lemma_visit_sound(defs, path.push(def_of(c)->0), fuel);
    } else {
        lemma_visit_below_sound(defs, path, (n - 1) as nat, fuel);
    }
}

proof fn lemma_visit_below_none(
    defs: Seq<(Seq<char>, CompDefView)>,
    path: Seq<Seq<char>>,
    layers: Seq<ClipView>,
    n: nat,
    fuel: nat,
    k: int,
)
    requires
        visit_below(defs, path, layers, n, fuel) is None,
        0 <= k < n,
        def_of(layers[k]) is Some,
    ensures
        visit(defs, path.push(def_of(layers[k])->0), fuel) is None,
    decreases n,
{
    if k < n - 1 {
        lemma_visit_below_none(defs, path, layers, (n - 1) as nat, fuel, k);
    }
}

/// The names of the defs.
pub open spec fn names(defs: Seq<(Seq<char>, CompDefView)>) -> Seq<Seq<char>> {
    Seq::new(defs.len(), |i: int| defs[i].0)
}

proof fn lemma_lookup_named(defs: Seq<(Seq<char>, CompDefView)>, key: Seq<char>)
    ensures
        lookup(defs, key) is Some <==> names(defs).contains(key),
    decreases defs.len(),
{
    if defs.len() > 0 {
        let rest = defs.skip(1);
        lemma_lookup_named(rest, key);
        if defs[0].0 == key {
            assert(names(defs)[0] == key);
        } else {
            if names(rest).contains(key) {
                let i = choose|i: int| 0 <= i < rest.len() && names(rest)[i] == key;
                assert(names(defs)[i + 1] == key);
            }
            if names(defs).contains(key) {
                let i = choose|i: int| 0 <= i < defs.len() && names(defs)[i] == key;
                assert(names(rest)[i - 1] == key);
            }
        }
    }
}

/// A path without repetition through existing defs is no longer than there
/// are defs.
pub proof fn lemma_path_length(defs: Seq<(Seq<char>, CompDefView)>, path: Seq<Seq<char>>)
    requires
        path.no_duplicates(),
        forall|i: int| 0 <= i < path.len() ==> lookup(defs, #[trigger] path[i]) is Some,
    ensures
        path.len() <= defs.len(),
{
    let all = names(defs);
    path.unique_seq_to_set();
    all.lemma_cardinality_of_set();
    vstd::seq_lib::seq_to_set_is_finite(all);
    assert forall|x: Seq<char>| path.to_set().contains(x) implies all.to_set().contains(x) by {
        let i = choose|i: int| 0 <= i < path.len() && path[i] == x;
        lemma_lookup_named(defs, path[i]);
    }
    assert(path.to_set().subset_of(all.to_set()));
    vstd::set_lib::lemma_len_subset(path.to_set(), all.to_set());
}

proof fn lemma_chain_known(defs: Seq<(Seq<char>, CompDefView)>, path: Seq<Seq<char>>)
    requires
        is_chain(defs, path),
    ensures
        forall|i: int| 0 <= i < path.len() - 1 ==> lookup(defs, #[trigger] path[i]) is Some,
{
    assert forall|i: int| 0 <= i < path.len() - 1 implies lookup(
        defs,
        #[trigger] path[i],
    ) is Some by {
        assert(linked(defs, path, i));
    }
}

/// Where no fault is found, no chain that begins with `path` repeats a def.
proof fn lemma_visit_complete(
    defs: Seq<(Seq<char>, CompDefView)>,
    path: Seq<Seq<char>>,
    fuel: nat,
    q: Seq<Seq<char>>,
)
    requires
        is_chain(defs, path),
        path.no_duplicates(),
        fuel + path.len() == defs.len() + 1,
        visit(defs, path, fuel) is None,
        is_chain(defs, q),
        path.len() <= q.len(),
        q.take(path.len() as int) == path,
    ensures
        q.no_duplicates(),
    decreases fuel,
{
    let n = path.len() as int;
    if q.len() == n {
        assert(q =~= path);
    } else {
        assert(linked(defs, q, n - 1));
        assert(q[n - 1] == q.take(n)[n - 1]);
        lemma_chain_known(defs, path);
        if fuel == 0 {
            lemma_path_length(defs, path);
        }
        let d = lookup(defs, path.last())->0;
        let k = choose|k: int|
            0 <= k < d.layers.len() && def_of(#[trigger] d.layers[k]) == Some(q[n]);
        lemma_closing(path, d.layers, 0);
        let next = path.push(q[n]);
        lemma_chain_push(defs, path, q[n]);
        lemma_visit_below_none(defs, path, d.layers, d.layers.len(), (fuel - 1) as nat, k);
        assert(q.take(n + 1) =~= next);
        assert(next.no_duplicates());
        lemma_visit_complete(defs, next, (fuel - 1) as nat, q);
    }
}

proof fn lemma_cycle_fault_none(defs: Seq<(Seq<char>, CompDefView)>, k: int, i: int)
    requires
        cycle_fault(defs, k) is None,
        0 <= k <= i < defs.len(),
    ensures
        visit(defs, seq![defs[i].0], defs.len()) is None,
    decreases i - k,
{
    if k < i {
        lemma_cycle_fault_none(defs, k + 1, i);
    }
}

proof fn lemma_cycle_fault_sound(defs: Seq<(Seq<char>, CompDefView)>, k: int)
    requires
        cycle_fault(defs, k) is Some,
        0 <= k,
    ensures
        !acyclic(defs),
    decreases defs.len() - k,
{
    let path = seq![defs[k].0];
    if visit(defs, path, defs.len()) is Some {
        lemma_lookup_named(defs, defs[k].0);
        assert(names(defs)[k] == defs[k].0);
        lemma_visit_sound(defs, path, defs.len());
    } else {
        lemma_cycle_fault_sound(defs, k + 1);
    }
}

/// A circle is reported exactly when the defs have one.
pub proof fn law_cycle_fault(defs: Seq<(Seq<char>, CompDefView)>)
    ensures
        cycle_fault(defs, 0) is None <==> acyclic(defs),
{
    if cycle_fault(defs, 0) is Some {
        lemma_cycle_fault_sound(defs, 0);
    } else {
        assert forall|q: Seq<Seq<char>>| #[trigger] is_chain(
            defs,
            q,
        ) implies q.no_duplicates() by {
            lemma_lookup_named(defs, q[0]);
            let i = choose|i: int| 0 <= i < defs.len() && names(defs)[i] == q[0];
            lemma_cycle_fault_none(defs, 0, i);
            assert(q.take(1) =~= seq![q[0]]);
            lemma_visit_complete(defs, seq![q[0]], defs.len(), q);
        }
    }
}

fn arrows_text(path: &Vec<String>, n: usize) -> (r: String)
    requires
        n <= path.len(),
    ensures
        r@ == arrows(views(path@).take(n as int)),
    decreases n,
{
    if n == 0 {
        return String::new();
    }
    let ghost upto = views(path@).take(n as int);
    assert(upto.last() == path@[n - 1]@);
    if n == 1 {
        return path[0].clone();
    }
    let mut s: String = arrows_text(path, n - 1);
    assert(upto.drop_last() =~= views(path@).take(n - 1));
    s.append(" -> ");
    s.append(path[n - 1].as_str());
    s
}

fn copy_path(path: &Vec<String>, last: &String) -> (r: Vec<String>)
    ensures
        views(r@) == views(path@).push(last@),
        r.len() > 0,
{
    let mut next: Vec<String> = path.clone();
    assert(views(next@) =~= views(path@));
    next.push(last.clone());
    next
}

fn closing_def(path: &Vec<String>, layers: &Vec<Clip>) -> (r: Option<String>)
    ensures
        match r {
            Some(s) => closing(views(path@), views(layers@), 0) == Some(s@),
            None => closing(views(path@), views(layers@), 0) is None,
        },
{
    let mut i: usize = 0;
    while i < layers.len()
        invariant
            i <= layers.len(),
            closing(views(path@), views(layers@), 0) == closing(
                views(path@),
                views(layers@),
                i as int,
            ),
        decreases layers.len() - i,
    {
        assert(views(layers@)[i as int] == layers@[i as int]@);
        if let Element::CompRef { def, args } = &layers[i].element {
            if list_contains(path, def.as_str()) {
                return Some(def.clone());
            }
        }
        i += 1;
    }
    None
}

fn visit_def(defs: &TextMap<CompDef>, path: &Vec<String>, fuel: usize) -> (r: Option<ValidateError>)
    requires
        path.len() > 0,
    ensures
        match r {
            Some(e) => visit(defs@, views(path@), fuel as nat) == Some(e@),
            None => visit(defs@, views(path@), fuel as nat) is None,
        },
    decreases fuel,
{
    if fuel == 0 {
        return None;
    }
    let ghost names = views(path@);
    assert(names.last() == path@[path.len() - 1]@);
    match defs.get(path[path.len() - 1].as_str()) {
        None => None,
        Some(def) => {
            if let Some(r) = closing_def(path, &def.layers) {
                assert(names.take(path.len() as int) =~= names);
                return Some(
                    ValidateError {
                        fault: Fault::DefCycle,
                        id: arrows_text(path, path.len()),
                        detail: r,
                    },
                );
            }
            let mut n: usize = def.layers.len();
            while n > 0
                invariant
                    fuel > 0,
                    n <= def.layers.len(),
                    names == views(path@),
                    visit_below(
                        defs@,
                        names,
                        views(def.layers@),
                        views(def.layers@).len(),
                        (fuel - 1) as nat,
                    ) == visit_below(defs@, names, views(def.layers@), n as nat, (fuel - 1) as nat),
                    visit(defs@, names, fuel as nat) == visit_below(
                        defs@,
                        names,
                        views(def.layers@),
                        views(def.layers@).len(),
                        (fuel - 1) as nat,
                    ),
                decreases n,
            {
                n -= 1;
                assert(views(def.layers@)[n as int] == def.layers@[n as int]@);
                if let Element::CompRef { def: next, args } = &def.layers[n].element {
                    let longer: Vec<String> = copy_path(path, next);
                    let below: Option<ValidateError> = visit_def(defs, &longer, fuel - 1);
                    if below.is_some() {
                        return below;
                    }
                }
            }
            None
        },
    }
}

/// The first circle among the defs.
pub fn find_cycle(defs: &TextMap<CompDef>) -> (r: Option<ValidateError>)
    ensures
        match r {
            Some(e) => cycle_fault(defs@, 0) == Some(e@),
            None => cycle_fault(defs@, 0) is None,
        },
        r is None <==> acyclic(defs@),
{
    proof {
        law_cycle_fault(defs@);
    }
    let mut k: usize = 0;
    while k < defs.entries.len()
        invariant
            k <= defs.entries.len(),
            cycle_fault(defs@, 0) == cycle_fault(defs@, k as int),
            cycle_fault(defs@, 0) is None <==> acyclic(defs@),
        decreases defs.entries.len() - k,
    {
        let mut path: Vec<String> = Vec::new();
        path.push(defs.entries[k].0.clone());
        assert(defs@[k as int].0 == defs.entries@[k as int].0@);
        assert(views(path@) =~= seq![defs@[k as int].0]);
        let here: Option<ValidateError> = visit_def(defs, &path, defs.entries.len());
        if here.is_some() {
            return here;
        }
        k += 1;
    }
    None
}

} // verus!
