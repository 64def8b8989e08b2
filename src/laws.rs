use vstd::prelude::*;
use crate::keyed::{keys_unique, lemma_pairs_to_map_same_pairs, lemma_pairs_to_map_value};
use crate::registry::{ControllerModels, Controllers, Models};
use crate::render::render;
use crate::text::{is_marker_char, label_lt, sort_key, text_lt};
use crate::tree::{
    consistent, controller_label, controller_pairs_of, lemma_model_pairs_unique, marker,
    model_pairs_of, model_tree, tree_of, JujuTree,
};

verus! {

/// Two groups hold the same models, perhaps in another order, and the same current model.
pub open spec fn same_models(g: ControllerModels, h: ControllerModels) -> bool {
    &&& g.current_model@ == h.current_model@
    &&& forall|e: (Seq<char>, crate::registry::ModelType)| g.entries().contains(e) <==> h.entries().contains(e)
}

/// Two model registries hold the same groups under the same identifiers, perhaps in
/// another order.
pub open spec fn same_groups(m1: Models, m2: Models) -> bool {
    &&& forall|k: Seq<char>| m1.has_group(k) <==> m2.has_group(k)
    &&& forall|k: Seq<char>| m1.has_group(k) ==> same_models(m1.group(k), m2.group(k))
}

/// No two controllers of the registry get the same display label.
pub open spec fn controller_labels_distinct(cs: Controllers) -> bool {
    forall|i: int, j: int|
        0 <= i < j < cs.entries().len() ==> controller_label(
            cs.entries()[i].0,
            cs.entries()[i].1,
            cs.current_controller@,
        ) != controller_label(cs.entries()[j].0, cs.entries()[j].1, cs.current_controller@)
}

/// Reordering the models of a group leaves its part of the tree as it is.
pub proof fn lemma_model_tree_ignores_order(g: ControllerModels, h: ControllerModels)
    requires
        g.wf(),
        h.wf(),
        same_models(g, h),
    ensures
        model_tree(g) == model_tree(h),
{
    let pg = model_pairs_of(g);
    let ph = model_pairs_of(h);
    lemma_model_pairs_unique(g);
    lemma_model_pairs_unique(h);
    assert forall|e: (Seq<char>, Seq<Seq<char>>)| pg.contains(e) implies ph.contains(e) by {
        let i = choose|i: int| 0 <= i < pg.len() && pg[i] == e;
        assert(g.entries().contains(g.entries()[i]));
        let j = choose|j: int| 0 <= j < h.entries().len() && h.entries()[j] == g.entries()[i];
        assert(ph[j] == e);
    }
    assert forall|e: (Seq<char>, Seq<Seq<char>>)| ph.contains(e) implies pg.contains(e) by {
        let j = choose|j: int| 0 <= j < ph.len() && ph[j] == e;
        assert(h.entries().contains(h.entries()[j]));
        let i = choose|i: int| 0 <= i < g.entries().len() && g.entries()[i] == h.entries()[j];
        assert(pg[i] == e);
    }
    lemma_pairs_to_map_same_pairs(pg, ph);
}

/// A group of a well-formed model registry is well formed.
proof fn lemma_group_wf(m: Models, k: Seq<char>)
    requires
        m.wf(),
        m.has_group(k),
    ensures
        m.group(k).wf(),
{
    let i = choose|i: int| 0 <= i < m.entries().len() && m.entries()[i].0 == k;
    lemma_pairs_to_map_value(m.entries(), i);
    assert(m.controllers@[i].1.wf());
}

/// Order invariance: listing the controllers, the controller groups of the model registry,
/// or the models of a group in another order changes neither whether the registries are
/// consistent nor the tree they describe, so it changes no byte of the rendered text.
/// This holds where no two controllers share a display label; where two do, the one
/// inserted last decides the models under that label.
pub proof fn lemma_render_ignores_order(c1: Controllers, c2: Controllers, m1: Models, m2: Models)
    requires
        c1.wf(),
        c2.wf(),
        m1.wf(),
        m2.wf(),
        c1.current_controller@ == c2.current_controller@,
        forall|e: (Seq<char>, crate::registry::Controller)| c1.entries().contains(e) <==> c2.entries().contains(e),
        same_groups(m1, m2),
        consistent(c1, m1),
        controller_labels_distinct(c1),
    ensures
        consistent(c2, m2),
        tree_of(c1, m1) == tree_of(c2, m2),
        render(tree_of(c1, m1)) == render(tree_of(c2, m2)),
{
    let e1 = c1.entries();
    let e2 = c2.entries();
    assert forall|j: int| 0 <= j < e2.len() implies m2.has_group(#[trigger] e2[j].0) by {
        assert(e2.contains(e2[j]));
        let i = choose|i: int| 0 <= i < e1.len() && e1[i] == e2[j];
        assert(m1.has_group(e1[i].0));
    }
    let p1 = controller_pairs_of(c1, m1);
    let p2 = controller_pairs_of(c2, m2);
    assert(keys_unique(p1));
    assert(keys_unique(p2)) by {
        assert forall|a: int, b: int| 0 <= a < b < p2.len() implies p2[a].0 != p2[b].0 by {
            assert(e1.contains(e2[a]) && e1.contains(e2[b]));
            let x = choose|x: int| 0 <= x < e1.len() && e1[x] == e2[a];
            let y = choose|y: int| 0 <= y < e1.len() && e1[y] == e2[b];
            assert(e2[a].0 != e2[b].0);
            assert(x != y);
            if x < y {
                assert(p1[x].0 != p1[y].0);
            } else {
                assert(p1[y].0 != p1[x].0);
            }
        }
    }
    assert forall|i: int, j: int| 0 <= i < e1.len() && 0 <= j < e2.len() && e1[i] == e2[j] implies p1[i]
        == p2[j] by {
        let k = e1[i].0;
        assert(m1.has_group(k));
        lemma_group_wf(m1, k);
        lemma_group_wf(m2, k);
        lemma_model_tree_ignores_order(m1.group(k), m2.group(k));
    }
    assert forall|e: (Seq<char>, crate::tree::ModelsView)| p1.contains(e) implies p2.contains(e) by {
        let i = choose|i: int| 0 <= i < p1.len() && p1[i] == e;
        assert(e2.contains(e1[i]));
        let j = choose|j: int| 0 <= j < e2.len() && e2[j] == e1[i];
        assert(p2[j] == e);
    }
    assert forall|e: (Seq<char>, crate::tree::ModelsView)| p2.contains(e) implies p1.contains(e) by {
        let j = choose|j: int| 0 <= j < p2.len() && p2[j] == e;
        assert(e1.contains(e2[j]));
        let i = choose|i: int| 0 <= i < e1.len() && e1[i] == e2[j];
        assert(p1[i] == e);
    }
    lemma_pairs_to_map_same_pairs(p1, p2);
}

/// Marker stability: behind either marker, a label's sort key is what follows the marker,
/// so two labels come in the order of their unmarked texts, whichever of them is active.
/// This holds where the unmarked texts differ and neither starts with a space or `*`.
pub proof fn lemma_markers_keep_order(a: Seq<char>, b: Seq<char>, active_a: bool, active_b: bool)
    requires
        a != b,
        !(a.len() > 0 && is_marker_char(a[0])),
        !(b.len() > 0 && is_marker_char(b[0])),
    ensures
        sort_key(marker(active_a) + a) == a,
        sort_key(marker(active_b) + b) == b,
        label_lt(marker(active_a) + a, marker(active_b) + b) <==> text_lt(a, b),
{
    lemma_sort_key_after_marker(a, active_a);
    lemma_sort_key_after_marker(b, active_b);
}

proof fn lemma_sort_key_after_marker(a: Seq<char>, active: bool)
    requires
        !(a.len() > 0 && is_marker_char(a[0])),
    ensures
        sort_key(marker(active) + a) == a,
{
    let s = marker(active) + a;
    assert(is_marker_char(s[0]));
    assert(s.drop_first() =~= seq![' '] + a);
    assert(is_marker_char(s.drop_first()[0]));
    assert(s.drop_first().drop_first() =~= a);
    assert(sort_key(a) == a);
    assert(sort_key(s.drop_first()) == sort_key(a));
    assert(sort_key(s) == sort_key(s.drop_first()));
}

/// Idempotence: two trees that hold the same labels under the same labels, in whatever
/// order their lines are stored, render to the same text; in particular one tree rendered
/// twice gives the same bytes both times.
pub proof fn lemma_render_repeatable(t1: JujuTree, t2: JujuTree)
    requires
        t1.wf(),
        t2.wf(),
        forall|e: (Seq<char>, crate::tree::ModelsView)| t1.pairs().contains(e) <==> t2.pairs().contains(e),
    ensures
        t1@ == t2@,
        render(t1@) == render(t2@),
{
    lemma_pairs_to_map_same_pairs(t1.pairs(), t2.pairs());
}

} // verus!
