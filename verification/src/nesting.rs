//! How deep defs nest: the bound on nesting is never reached.

use vstd::prelude::*;
use crate::compile::{depth, depth_sum, expanded, expanded_layers, instance, slot_depth,
    slot_depths};
use crate::cycles::{acyclic, def_of, is_chain, lemma_path_length, linked, refers};
use crate::document::{ClipView, CompDefView};
use crate::ramp::ramp;
use crate::textmap::lookup;

verus! {

/// A chain of defs that are all there.
spec fn path_to(
    defs: Seq<(Seq<char>, CompDefView)>,
    path: Seq<Seq<char>>,
    def: Seq<char>,
) -> bool {
    &&& is_chain(defs, path)
    &&& path.last() == def
    &&& forall|i: int| 0 <= i < path.len() ==> lookup(defs, #[trigger] path[i]) is Some
}

proof fn lemma_longer_path(
    defs: Seq<(Seq<char>, CompDefView)>,
    path: Seq<Seq<char>>,
    def: Seq<char>,
    layers: Seq<ClipView>,
    i: int,
    next: Seq<char>,
)
    requires
        acyclic(defs),
        path_to(defs, path, def),
        lookup(defs, def) is Some,
        lookup(defs, def)->0.layers == layers,
        0 <= i < layers.len(),
        def_of(layers[i]) == Some(next),
        lookup(defs, next) is Some,
    ensures
        path_to(defs, path.push(next), next),
        path.len() + 1 <= defs.len(),
{
    let q = path.push(next);
    assert(refers(defs, def, next));
    assert forall|k: int| 0 <= k < q.len() - 1 implies #[trigger] linked(defs, q, k) by {
        if k < path.len() - 1 {
            assert(linked(defs, path, k));
            assert(q[k] == path[k] && q[k + 1] == path[k + 1]);
        } else {
            assert(q[k] == def && q[k + 1] == next);
        }
    }
    assert(q[0] == path[0]);
    assert forall|k: int| 0 <= k < q.len() implies lookup(defs, #[trigger] q[k]) is Some by {
        if k < path.len() {
            assert(q[k] == path[k]);
        }
    }
    assert(is_chain(defs, q));
    assert(q.no_duplicates());
    lemma_path_length(defs, q);
}

proof fn lemma_depth_enough(
    defs: Seq<(Seq<char>, CompDefView)>,
    path: Seq<Seq<char>>,
    c: ClipView,
    f: nat,
    g: nat,
)
    requires
        acyclic(defs),
        def_of(c) is Some,
        path_to(defs, path, def_of(c)->0),
        path.len() <= defs.len(),
        f + path.len() >= defs.len() + 1,
        g + path.len() >= defs.len() + 1,
    ensures
        depth(defs, c, f) == depth(defs, c, g),
    decreases defs.len() - path.len(), 1nat, 0nat,
{
    let def = def_of(c)->0;
    let layers = lookup(defs, def)->0.layers;
    assert(lookup(defs, path[path.len() - 1]) is Some);
    lemma_depths_enough(defs, path, def, layers.len(), (f - 1) as nat, (g - 1) as nat);
}

proof fn lemma_depths_enough(
    defs: Seq<(Seq<char>, CompDefView)>,
    path: Seq<Seq<char>>,
    def: Seq<char>,
    n: nat,
    f: nat,
    g: nat,
)
    requires
        acyclic(defs),
        path_to(defs, path, def),
        lookup(defs, def) is Some,
        n <= lookup(defs, def)->0.layers.len(),
        path.len() <= defs.len(),
        f + path.len() >= defs.len(),
        g + path.len() >= defs.len(),
    ensures
        depth_sum(defs, lookup(defs, def)->0.layers, n, f) == depth_sum(
            defs,
            lookup(defs, def)->0.layers,
            n,
            g,
        ),
    decreases defs.len() - path.len(), 0nat, n,
{
    let layers = lookup(defs, def)->0.layers;
    if n > 0 {
        lemma_depths_enough(defs, path, def, (n - 1) as nat, f, g);
        let c = layers[n - 1];
        if def_of(c) is Some && lookup(defs, def_of(c)->0) is Some {
            let next = def_of(c)->0;
            lemma_longer_path(defs, path, def, layers, n - 1, next);
            lemma_depth_enough(defs, path.push(next), c, f, g);
        }
        assert(depth(defs, c, f) == depth(defs, c, g));
    }
}

proof fn lemma_path_one(defs: Seq<(Seq<char>, CompDefView)>, def: Seq<char>)
    requires
        acyclic(defs),
        lookup(defs, def) is Some,
    ensures
        path_to(defs, seq![def], def),
        defs.len() >= 1,
{
    assert(is_chain(defs, seq![def]));
    lemma_path_length(defs, seq![def]);
}

/// Without circles among the defs, the engine layers that a clip needs are 1,
/// or for an instance as many as the layers of its def need together, however
/// deep they nest.
pub proof fn law_slot_depth(defs: Seq<(Seq<char>, CompDefView)>, c: ClipView)
    requires
        acyclic(defs),
    ensures
        def_of(c) is None ==> slot_depth(defs, c) == 1,
        match def_of(c) {
            Some(d) => match lookup(defs, d) {
                Some(def) => slot_depth(defs, c) == crate::fixed::max(
                    slot_depths(defs, def.layers, def.layers.len()) as int,
                    1,
                ),
                None => slot_depth(defs, c) == 1,
            },
            None => true,
        },
{
    match def_of(c) {
        Some(d) => {
            if lookup(defs, d) is Some {
                lemma_path_one(defs, d);
                let layers = lookup(defs, d)->0.layers;
                lemma_depths_enough(
                    defs,
                    seq![d],
                    d,
                    layers.len(),
                    (defs.len() - 1) as nat,
                    defs.len(),
                );
            }
        },
        None => {},
    }
}

proof fn lemma_expanded_enough(
    defs: Seq<(Seq<char>, CompDefView)>,
    path: Seq<Seq<char>>,
    c: ClipView,
    offset: int,
    base: int,
    width: int,
    f: nat,
    g: nat,
)
    requires
        acyclic(defs),
        def_of(c) is Some,
        path_to(defs, path, def_of(c)->0),
        path.len() <= defs.len(),
        f + path.len() >= defs.len() + 1,
        g + path.len() >= defs.len() + 1,
    ensures
        expanded(defs, c, offset, base, width, f) == expanded(defs, c, offset, base, width, g),
    decreases defs.len() - path.len(), 1nat, 0nat,
{
    let def = def_of(c)->0;
    assert(lookup(defs, path[path.len() - 1]) is Some);
    let n = lookup(defs, def)->0.layers.len();
    lemma_layers_enough(
        defs,
        path,
        def,
        c,
        n,
        offset,
        base,
        width,
        (f - 1) as nat,
        (g - 1) as nat,
    );
}

proof fn lemma_layers_enough(
    defs: Seq<(Seq<char>, CompDefView)>,
    path: Seq<Seq<char>>,
    def: Seq<char>,
    c: ClipView,
    n: nat,
    offset: int,
    base: int,
    width: int,
    f: nat,
    g: nat,
)
    requires
        acyclic(defs),
        path_to(defs, path, def),
        lookup(defs, def) is Some,
        n <= lookup(defs, def)->0.layers.len(),
        path.len() <= defs.len(),
        f + path.len() >= defs.len(),
        g + path.len() >= defs.len(),
    ensures
        ({
            let layers = lookup(defs, def)->0.layers;
            expanded_layers(defs, c, layers, n, offset, base, width, f) == expanded_layers(
                defs,
                c,
                layers,
                n,
                offset,
                base,
                width,
                g,
            )
        }),
    decreases defs.len() - path.len(), 0nat, n,
{
    let layers = lookup(defs, def)->0.layers;
    if n > 0 {
        lemma_layers_enough(defs, path, def, c, (n - 1) as nat, offset, base, width, f, g);
        let one = instance(c, layers[n - 1]);
        let skip = crate::fixed::min(
            slot_depths(defs, layers, (n - 1) as nat) as int,
            width - 1,
        );
        assert(def_of(one) == def_of(layers[n - 1]));
        if def_of(one) is Some && lookup(defs, def_of(one)->0) is Some {
            let next = def_of(one)->0;
            lemma_longer_path(defs, path, def, layers, n - 1, next);
            lemma_expanded_enough(
                defs,
                path.push(next),
                one,
                offset,
                base + skip,
                width - skip,
                f,
                g,
            );
        }
        assert(expanded(defs, one, offset, base + skip, width - skip, f) == expanded(
            defs,
            one,
            offset,
            base + skip,
            width - skip,
            g,
        ));
    }
}

/// Without circles among the defs, an instance is planned as the layers of
/// its def are, one after the other, however deep they nest: no layer is left
/// out.
pub proof fn law_expanded(
    defs: Seq<(Seq<char>, CompDefView)>,
    c: ClipView,
    offset: int,
    base: int,
    width: int,
)
    requires
        acyclic(defs),
        ramp(c) is None,
    ensures
        match def_of(c) {
            Some(d) => match lookup(defs, d) {
                Some(def) => expanded(defs, c, offset, base, width, defs.len()) == expanded_layers(
                    defs,
                    c,
                    def.layers,
                    def.layers.len(),
                    offset,
                    base,
                    width,
                    defs.len(),
                ),
                None => expanded(defs, c, offset, base, width, defs.len()).len() == 0,
            },
            None => expanded(defs, c, offset, base, width, defs.len()) == seq![
                crate::compile::single(c, offset, base),
            ],
        },
{
    match def_of(c) {
        Some(d) => {
            if lookup(defs, d) is Some {
                lemma_path_one(defs, d);
                let n = lookup(defs, d)->0.layers.len();
                lemma_layers_enough(
                    defs,
                    seq![d],
                    d,
                    c,
                    n,
                    offset,
                    base,
                    width,
                    (defs.len() - 1) as nat,
                    defs.len(),
                );
            }
        },
        None => {},
    }
}

} // verus!
