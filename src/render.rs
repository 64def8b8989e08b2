use vstd::prelude::*;
use vstd::string::*;
use crate::keyed::{
    has_key, keys_unique, lemma_pairs_to_map_dom, lemma_pairs_to_map_value, pairs_to_map,
};
use crate::text::{
    label_less, label_lt, lemma_label_lt_asymmetric, lemma_label_lt_irreflexive,
    lemma_label_lt_total, lemma_label_lt_transitive,
};
use crate::tree::{model_branch_pairs, ControllerBranch, JujuTree, ModelBranch, ModelsView, TreeView};

verus! {

/// Each label comes before every later one in display order.
pub open spec fn strictly_sorted(q: Seq<Seq<char>>) -> bool {
    forall|i: int, j: int| 0 <= i < j < q.len() ==> label_lt(q[i], q[j])
}

/// `q` lists the members of `s` in display order.
pub open spec fn is_listing(q: Seq<Seq<char>>, s: Set<Seq<char>>) -> bool {
    &&& strictly_sorted(q)
    &&& forall|x: Seq<char>| s.contains(x) <==> q.contains(x)
}

/// The labels of `s` in display order.
pub open spec fn sorted_labels(s: Set<Seq<char>>) -> Seq<Seq<char>> {
    choose|q: Seq<Seq<char>>| is_listing(q, s)
}

pub open spec fn spaces(n: nat) -> Seq<char> {
    Seq::new(n, |i: int| ' ')
}

/// One output line: `indent` spaces, the text, a newline.
pub open spec fn line(indent: nat, text: Seq<char>) -> Seq<char> {
    spaces(indent) + text + seq!['\n']
}

/// Application lines, in the order given.
pub open spec fn render_apps(apps: Seq<Seq<char>>) -> Seq<char>
    decreases apps.len(),
{
    if apps.len() == 0 {
        Seq::empty()
    } else {
        render_apps(apps.drop_last()) + line(8, apps.last())
    }
}

/// The given model labels, each followed by its applications.
pub open spec fn render_models_in(ls: Seq<Seq<char>>, mv: ModelsView) -> Seq<char>
    decreases ls.len(),
{
    if ls.len() == 0 {
        Seq::empty()
    } else {
        render_models_in(ls.drop_last(), mv) + line(4, ls.last()) + render_apps(mv[ls.last()])
    }
}

/// All models of one controller, in display order.
pub open spec fn render_models(mv: ModelsView) -> Seq<char> {
    render_models_in(sorted_labels(mv.dom()), mv)
}

/// The given controller labels, each followed by its models.
pub open spec fn render_controllers_in(ls: Seq<Seq<char>>, t: TreeView) -> Seq<char>
    decreases ls.len(),
{
    if ls.len() == 0 {
        Seq::empty()
    } else {
        render_controllers_in(ls.drop_last(), t) + line(0, ls.last()) + render_models(t[ls.last()])
    }
}

/// The text of the whole tree: controllers in display order at no indentation, their
/// models at four spaces, the models' applications at eight.
pub open spec fn render(t: TreeView) -> Seq<char> {
    render_controllers_in(sorted_labels(t.dom()), t)
}

/// There is one listing of a set in display order.
pub proof fn lemma_listing_unique(a: Seq<Seq<char>>, b: Seq<Seq<char>>, s: Set<Seq<char>>)
    requires
        is_listing(a, s),
        is_listing(b, s),
    ensures
        a == b,
    decreases a.len(),
{
    if a.len() == 0 {
        if b.len() > 0 {
            assert(s.contains(b[0]));
        }
        assert(a =~= b);
    } else {
        assert(s.contains(a[0]));
        let k = choose|k: int| 0 <= k < b.len() && b[k] == a[0];
        assert(s.contains(b[0]));
        let m = choose|m: int| 0 <= m < a.len() && a[m] == b[0];
        if k > 0 {
            assert(label_lt(b[0], b[k]));
            if m > 0 {
                lemma_label_lt_asymmetric(a[0], a[m]);
            } else {
                lemma_label_lt_irreflexive(a[0]);
            }
        }
        let x = a[0];
        let s2 = s.remove(x);
        let a2 = a.drop_first();
        let b2 = b.drop_first();
        assert forall|y: Seq<char>| s2.contains(y) <==> a2.contains(y) by {
            if a2.contains(y) {
                let j = choose|j: int| 0 <= j < a2.len() && a2[j] == y;
                assert(label_lt(a[0], a[j + 1]));
                lemma_label_lt_irreflexive(x);
                assert(a.contains(y));
            }
            if s2.contains(y) {
                assert(a.contains(y));
                let j = choose|j: int| 0 <= j < a.len() && a[j] == y;
                assert(a2[j - 1] == y);
            }
        }
        assert forall|y: Seq<char>| s2.contains(y) <==> b2.contains(y) by {
            if b2.contains(y) {
                let j = choose|j: int| 0 <= j < b2.len() && b2[j] == y;
                assert(label_lt(b[0], b[j + 1]));
                lemma_label_lt_irreflexive(x);
                assert(b.contains(y));
            }
            if s2.contains(y) {
                assert(b.contains(y));
                let j = choose|j: int| 0 <= j < b.len() && b[j] == y;
                assert(b2[j - 1] == y);
            }
        }
        assert(strictly_sorted(a2)) by {
            assert forall|i: int, j: int| 0 <= i < j < a2.len() implies label_lt(a2[i], a2[j]) by {
                assert(a2[i] == a[i + 1] && a2[j] == a[j + 1]);
            }
        }
        assert(strictly_sorted(b2)) by {
            assert forall|i: int, j: int| 0 <= i < j < b2.len() implies label_lt(b2[i], b2[j]) by {
                assert(b2[i] == b[i + 1] && b2[j] == b[j + 1]);
            }
        }
        lemma_listing_unique(a2, b2, s2);
        assert(a =~= seq![x] + a2);
        assert(b =~= seq![x] + b2);
    }
}

/// A listing of a set is the one that `sorted_labels` names.
pub proof fn lemma_listing_is_sorted_labels(q: Seq<Seq<char>>, s: Set<Seq<char>>)
    requires
        is_listing(q, s),
    ensures
        sorted_labels(s) == q,
{
    let c = sorted_labels(s);
    assert(is_listing(c, s));
    lemma_listing_unique(c, q, s);
}

/// Inserting `x` where it belongs keeps a sorted sequence sorted.
proof fn lemma_insert_sorted(q: Seq<Seq<char>>, p: int, x: Seq<char>)
    requires
        strictly_sorted(q),
        0 <= p <= q.len(),
        forall|k: int| 0 <= k < p ==> label_lt(q[k], x),
        p < q.len() ==> label_lt(x, q[p]),
    ensures
        strictly_sorted(q.insert(p, x)),
{
    let r = q.insert(p, x);
    assert forall|k: int| p < k < q.len() implies label_lt(x, q[k]) by {
        lemma_label_lt_transitive(x, q[p], q[k]);
    }
    assert forall|i: int, j: int| 0 <= i < j < r.len() implies label_lt(r[i], r[j]) by {
        if j < p {
            assert(r[i] == q[i] && r[j] == q[j]);
        } else if j == p {
            assert(r[i] == q[i]);
        } else if i < p {
            assert(r[i] == q[i] && r[j] == q[j - 1]);
            if j - 1 > i {
            }
        } else if i == p {
            assert(r[j] == q[j - 1]);
        } else {
            assert(r[i] == q[i - 1] && r[j] == q[j - 1]);
        }
    }
}

pub open spec fn labels_at(labels: Seq<String>, order: Seq<usize>) -> Seq<Seq<char>> {
    order.map_values(|k: usize| labels[k as int]@)
}

/// Indices of `labels` in the display order of the labels.
pub fn sorted_order(labels: &Vec<String>) -> (order: Vec<usize>)
    requires
        forall|i: int, j: int| 0 <= i < j < labels@.len() ==> labels@[i]@ != labels@[j]@,
    ensures
        order@.len() == labels@.len(),
        forall|k: int| 0 <= k < order@.len() ==> order@[k] < labels@.len(),
        forall|i: usize| i < labels@.len() ==> #[trigger] order@.contains(i),
        strictly_sorted(labels_at(labels@, order@)),
{
    let mut order: Vec<usize> = Vec::new();
    let mut i: usize = 0;
    while i < labels.len()
        invariant
            i <= labels@.len(),
            forall|a: int, b: int| 0 <= a < b < labels@.len() ==> labels@[a]@ != labels@[b]@,
            order@.len() == i,
            forall|k: int| 0 <= k < order@.len() ==> order@[k] < i,
            forall|j: usize| j < i ==> #[trigger] order@.contains(j),
            strictly_sorted(labels_at(labels@, order@)),
        decreases labels@.len() - i,
    {
        let mut p: usize = 0;
        while p < order.len() && label_less(&labels[order[p]], &labels[i])
            invariant
                i < labels@.len(),
                order@.len() == i,
                p <= order@.len(),
                forall|k: int| 0 <= k < order@.len() ==> order@[k] < i,
                forall|k: int| 0 <= k < p ==> label_lt(labels@[order@[k] as int]@, labels@[i as int]@),
            decreases order@.len() - p,
        {
            p = p + 1;
        }
        let ghost q = labels_at(labels@, order@);
        let ghost x = labels@[i as int]@;
        let ghost old_order = order@;
        proof {
            if p < order@.len() {
                assert(labels@[order@[p as int] as int]@ != x);
                lemma_label_lt_total(q[p as int], x);
            }
            lemma_insert_sorted(q, p as int, x);
        }
        order.insert(p, i);
        assert(labels_at(labels@, order@) =~= q.insert(p as int, x));
        assert forall|j: usize| j < i + 1 implies #[trigger] order@.contains(j) by {
            if j == i {
                assert(order@[p as int] == j);
            } else {
                assert(old_order.contains(j));
                let k = choose|k: int| 0 <= k < old_order.len() && old_order[k] == j;
                if k < p {
                    assert(order@[k] == j);
                } else {
                    assert(order@[k + 1] == j);
                }
            }
        }
        i = i + 1;
    }
    order
}

/// A sorted order of labels that are the keys of `pairs` is the display order of the map's keys.
proof fn lemma_order_lists_keys<V>(
    pairs: Seq<(Seq<char>, V)>,
    labels: Seq<String>,
    order: Seq<usize>,
)
    requires
        keys_unique(pairs),
        labels.len() == pairs.len(),
        labels.len() <= usize::MAX,
        forall|i: int| 0 <= i < labels.len() ==> labels[i]@ == pairs[i].0,
        forall|k: int| 0 <= k < order.len() ==> order[k] < labels.len(),
        forall|i: usize| i < labels.len() ==> #[trigger] order.contains(i),
        strictly_sorted(labels_at(labels, order)),
    ensures
        sorted_labels(pairs_to_map(pairs).dom()) == labels_at(labels, order),
{
    let q = labels_at(labels, order);
    let s = pairs_to_map(pairs).dom();
    assert forall|x: Seq<char>| s.contains(x) <==> q.contains(x) by {
        lemma_pairs_to_map_dom(pairs, x);
        if has_key(pairs, x) {
            let i = choose|i: int| 0 <= i < pairs.len() && pairs[i].0 == x;
            let iu = i as usize;
            assert(order.contains(iu));
            let k = choose|k: int| 0 <= k < order.len() && order[k] == iu;
            assert(labels[i]@ == x);
            assert(q[k] == labels[order[k] as int]@);
            assert(q[k] == x);
            assert(q.contains(x));
        }
        if q.contains(x) {
            let k = choose|k: int| 0 <= k < q.len() && q[k] == x;
            let i = order[k] as int;
            assert(labels[i]@ == pairs[i].0);
            assert(pairs[i].0 == x);
            assert(has_key(pairs, x));
        }
    }
    lemma_listing_is_sorted_labels(q, s);
}

/// Appends the line of a model and the lines of its applications.
fn render_model_branch(m: &ModelBranch, out: &mut String)
    ensures
        final(out)@ == old(out)@ + line(4, m.label@) + render_apps(m.pair().1),
{
    proof {
        reveal_strlit("    ");
        reveal_strlit("        ");
        reveal_strlit("\n");
        assert("    "@ =~= spaces(4));
        assert("        "@ =~= spaces(8));
    }
    out.append("    ");
    out.append(m.label.as_str());
    out.append("\n");
    let ghost start = out@;
    let ghost apps = m.pair().1;
    let mut a: usize = 0;
    assert(start =~= start + render_apps(apps.take(0)));
    while a < m.apps.len()
        invariant
            a <= m.apps@.len(),
            apps == m.apps@.map_values(|s: String| s@),
            out@ == start + render_apps(apps.take(a as int)),
            "        "@ == spaces(8),
            "\n"@ == seq!['\n'],
        decreases m.apps@.len() - a,
    {
        out.append("        ");
        out.append(m.apps[a].as_str());
        out.append("\n");
        assert(apps.take(a + 1).drop_last() =~= apps.take(a as int));
        assert(out@ =~= start + render_apps(apps.take(a + 1)));
        a = a + 1;
    }
    assert(apps.take(apps.len() as int) =~= apps);
    assert(old(out)@ + line(4, m.label@) =~= start);
    assert(final(out)@ =~= old(out)@ + line(4, m.label@) + render_apps(apps));
}

/// Appends the line of a controller and, in display order, the lines of its models.
fn render_controller_branch(b: &ControllerBranch, out: &mut String)
    requires
        b.wf(),
    ensures
        final(out)@ == old(out)@ + line(0, b.label@) + render_models(b.models_view()),
{
    proof {
        reveal_strlit("\n");
    }
    out.append(b.label.as_str());
    out.append("\n");
    let ghost start = out@;
    assert(start =~= old(out)@ + line(0, b.label@));
    let ghost pairs = model_branch_pairs(b.models@);
    let ghost mv = b.models_view();
    let mut labels: Vec<String> = Vec::new();
    let mut i: usize = 0;
    while i < b.models.len()
        invariant
            i <= b.models@.len(),
            pairs == model_branch_pairs(b.models@),
            labels@.len() == i,
            forall|j: int| 0 <= j < i ==> labels@[j]@ == pairs[j].0,
        decreases b.models@.len() - i,
    {
        labels.push(b.models[i].label.clone());
        i = i + 1;
    }
    assert forall|a: int, c: int| 0 <= a < c < labels@.len() implies labels@[a]@ != labels@[c]@ by {
        assert(pairs[a].0 != pairs[c].0);
    }
    let order = sorted_order(&labels);
    proof {
        lemma_order_lists_keys(pairs, labels@, order@);
    }
    let ghost q = labels_at(labels@, order@);
    let mut k: usize = 0;
    assert(start =~= start + render_models_in(q.take(0), mv));
    while k < order.len()
        invariant
            b.wf(),
            pairs == model_branch_pairs(b.models@),
            mv == pairs_to_map(pairs),
            labels@.len() == b.models@.len(),
            forall|j: int| 0 <= j < labels@.len() ==> labels@[j]@ == pairs[j].0,
            order@.len() == labels@.len(),
            forall|j: int| 0 <= j < order@.len() ==> order@[j] < labels@.len(),
            q == labels_at(labels@, order@),
            k <= order@.len(),
            out@ == start + render_models_in(q.take(k as int), mv),
        decreases order@.len() - k,
    {
        let m = &b.models[order[k]];
        proof {
            lemma_pairs_to_map_value(pairs, order@[k as int] as int);
            assert(q[k as int] == m.label@);
            assert(q.take(k + 1).drop_last() =~= q.take(k as int));
        }
        render_model_branch(m, out);
        assert(out@ =~= start + render_models_in(q.take(k + 1), mv));
        k = k + 1;
    }
    assert(q.take(q.len() as int) =~= q);
}

/// The text of the tree: each controller label in display order (its sort key, which
/// ignores leading spaces and `*`, then the whole label), at no indentation; under it its
/// model labels in the same order, indented by four spaces; under each model its
/// applications in their own order, indented by eight. Every line ends with a newline.
pub fn render_tree(tree: &JujuTree) -> (r: String)
    requires
        tree.wf(),
    ensures
        r@ == render(tree@),
{
    let mut out = String::new();
    let ghost pairs = tree.pairs();
    let mut labels: Vec<String> = Vec::new();
    let mut i: usize = 0;
    while i < tree.controllers.len()
        invariant
            i <= tree.controllers@.len(),
            pairs == tree.pairs(),
            labels@.len() == i,
            forall|j: int| 0 <= j < i ==> labels@[j]@ == pairs[j].0,
        decreases tree.controllers@.len() - i,
    {
        labels.push(tree.controllers[i].label.clone());
        i = i + 1;
    }
    assert forall|a: int, c: int| 0 <= a < c < labels@.len() implies labels@[a]@ != labels@[c]@ by {
        assert(pairs[a].0 != pairs[c].0);
    }
    let order = sorted_order(&labels);
    proof {
        lemma_order_lists_keys(pairs, labels@, order@);
    }
    let ghost q = labels_at(labels@, order@);
    let mut k: usize = 0;
    assert(out@ =~= render_controllers_in(q.take(0), tree@));
    while k < order.len()
        invariant
            tree.wf(),
            pairs == tree.pairs(),
            labels@.len() == tree.controllers@.len(),
            forall|j: int| 0 <= j < labels@.len() ==> labels@[j]@ == pairs[j].0,
            order@.len() == labels@.len(),
            forall|j: int| 0 <= j < order@.len() ==> order@[j] < labels@.len(),
            q == labels_at(labels@, order@),
            k <= order@.len(),
            out@ == render_controllers_in(q.take(k as int), tree@),
        decreases order@.len() - k,
    {
        let b = &tree.controllers[order[k]];
        proof {
            lemma_pairs_to_map_value(pairs, order@[k as int] as int);
            assert(q[k as int] == b.label@);
            assert(q.take(k + 1).drop_last() =~= q.take(k as int));
            assert(tree.controllers@[order@[k as int] as int].wf());
        }
        render_controller_branch(b, &mut out);
        k = k + 1;
    }
    assert(q.take(q.len() as int) =~= q);
    out
}

} // verus!
