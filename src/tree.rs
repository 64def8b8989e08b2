use vstd::prelude::*;
use vstd::string::*;
use crate::keyed::{
    has_key, keys_unique, lemma_pairs_to_map_push, lemma_pairs_to_map_update, pairs_to_map,
};
use crate::registry::{Controller, ControllerModels, Controllers, Models};

verus! {

/// A model line of the tree, with the applications listed under it.
pub struct ModelBranch {
    pub label: String,
    pub apps: Vec<String>,
}

/// A controller line of the tree, with its models.
pub struct ControllerBranch {
    pub label: String,
    pub models: Vec<ModelBranch>,
}

/// Controller labels, each with its model labels, each with its application names.
pub struct JujuTree {
    pub controllers: Vec<ControllerBranch>,
}

/// What a build reports when it cannot assemble the tree.
#[derive(Debug)]
pub enum TreeError {
    /// The controller with this identifier has no entry in the model registry.
    ConsistencyFault(String),
}

/// The models of one controller: model label to application names.
pub type ModelsView = Map<Seq<char>, Seq<Seq<char>>>;

/// The whole tree: controller label to its models.
pub type TreeView = Map<Seq<char>, ModelsView>;

impl ModelBranch {
    pub open spec fn pair(&self) -> (Seq<char>, Seq<Seq<char>>) {
        (self.label@, self.apps@.map_values(|a: String| a@))
    }
}

pub open spec fn model_branch_pairs(ms: Seq<ModelBranch>) -> Seq<(Seq<char>, Seq<Seq<char>>)> {
    ms.map_values(|m: ModelBranch| m.pair())
}

impl ControllerBranch {
    pub open spec fn models_view(&self) -> ModelsView {
        pairs_to_map(model_branch_pairs(self.models@))
    }

    pub open spec fn pair(&self) -> (Seq<char>, ModelsView) {
        (self.label@, self.models_view())
    }

    /// Model labels are unique.
    pub open spec fn wf(&self) -> bool {
        keys_unique(model_branch_pairs(self.models@))
    }
}

impl JujuTree {
    pub open spec fn pairs(&self) -> Seq<(Seq<char>, ModelsView)> {
        self.controllers@.map_values(|c: ControllerBranch| c.pair())
    }

    /// Controller labels are unique, and so are model labels under each controller.
    pub open spec fn wf(&self) -> bool {
        &&& keys_unique(self.pairs())
        &&& forall|i: int| 0 <= i < self.controllers@.len() ==> (#[trigger] self.controllers@[i]).wf()
    }
}

impl View for JujuTree {
    type V = TreeView;

    open spec fn view(&self) -> TreeView {
        pairs_to_map(self.pairs())
    }
}

/// The activity marker: `"* "` for the active item, two spaces otherwise.
pub open spec fn marker(active: bool) -> Seq<char> {
    if active {
        seq!['*', ' ']
    } else {
        seq![' ', ' ']
    }
}

/// `"<marker><identifier> (<agent-version>, <kind>)"`.
pub open spec fn controller_label(name: Seq<char>, c: Controller, current: Seq<char>) -> Seq<char> {
    marker(name == current) + name + seq![' ', '('] + c.agent_version@ + seq![',', ' '] + c.type_@
        + seq![')']
}

/// `"<marker><model name>"`.
pub open spec fn model_label(name: Seq<char>, current: Seq<char>) -> Seq<char> {
    marker(name == current) + name
}

/// Model labels of a group, each with no applications, in the group's order.
pub open spec fn model_pairs_of(g: ControllerModels) -> Seq<(Seq<char>, Seq<Seq<char>>)> {
    g.entries().map_values(
        |e: (Seq<char>, crate::registry::ModelType)|
            (model_label(e.0, g.current_model@), Seq::<Seq<char>>::empty()),
    )
}

/// The models part of the tree for one group.
pub open spec fn model_tree(g: ControllerModels) -> ModelsView {
    pairs_to_map(model_pairs_of(g))
}

/// Controller labels with their models, in the registry's order.
pub open spec fn controller_pairs_of(cs: Controllers, ms: Models) -> Seq<(Seq<char>, ModelsView)> {
    cs.entries().map_values(
        |e: (Seq<char>, Controller)|
            (controller_label(e.0, e.1, cs.current_controller@), model_tree(ms.group(e.0))),
    )
}

/// The tree that the two registries describe.
pub open spec fn tree_of(cs: Controllers, ms: Models) -> TreeView {
    pairs_to_map(controller_pairs_of(cs, ms))
}

/// Every controller has an entry in the model registry.
pub open spec fn consistent(cs: Controllers, ms: Models) -> bool {
    forall|i: int| 0 <= i < cs.entries().len() ==> ms.has_group(#[trigger] cs.entries()[i].0)
}

pub proof fn lemma_model_label_injective(a: Seq<char>, b: Seq<char>, current: Seq<char>)
    requires
        model_label(a, current) == model_label(b, current),
    ensures
        a == b,
{
    let la = model_label(a, current);
    let lb = model_label(b, current);
    assert(la.subrange(2, la.len() as int) =~= a);
    assert(lb.subrange(2, lb.len() as int) =~= b);
}

/// Model names are unique in a group, so its model labels are too.
pub proof fn lemma_model_pairs_unique(g: ControllerModels)
    requires
        g.wf(),
    ensures
        keys_unique(model_pairs_of(g)),
{
    let p = model_pairs_of(g);
    assert forall|a: int, b: int| 0 <= a < b < p.len() implies p[a].0 != p[b].0 by {
        assert(g.entries()[a].0 != g.entries()[b].0);
        if p[a].0 == p[b].0 {
            lemma_model_label_injective(g.entries()[a].0, g.entries()[b].0, g.current_model@);
        }
    }
}

fn marker_text(active: bool) -> (r: &'static str)
    ensures
        r@ == marker(active),
{
    if active {
        proof {
            reveal_strlit("* ");
        }
        "* "
    } else {
        proof {
            reveal_strlit("  ");
        }
        "  "
    }
}

/// The display label of a controller.
pub fn controller_label_text(name: &String, c: &Controller, current: &String) -> (r: String)
    ensures
        r@ == controller_label(name@, *c, current@),
{
    let mut s = String::new();
    s.append(marker_text(*name == *current));
    s.append(name.as_str());
    proof {
        reveal_strlit(" (");
        reveal_strlit(", ");
        reveal_strlit(")");
    }
    s.append(" (");
    s.append(c.agent_version.as_str());
    s.append(", ");
    s.append(c.type_.as_str());
    s.append(")");
    s
}

/// The display label of a model.
pub fn model_label_text(name: &String, current: &String) -> (r: String)
    ensures
        r@ == model_label(name@, current@),
{
    let mut s = String::new();
    s.append(marker_text(*name == *current));
    s.append(name.as_str());
    s
}

/// The model lines of one controller, in the group's order, each with no applications.
pub fn model_branches(g: &ControllerModels) -> (r: Vec<ModelBranch>)
    requires
        g.wf(),
    ensures
        keys_unique(model_branch_pairs(r@)),
        model_branch_pairs(r@) == model_pairs_of(*g),
        pairs_to_map(model_branch_pairs(r@)) == model_tree(*g),
{
    let mut out: Vec<ModelBranch> = Vec::new();
    let mut i: usize = 0;
    while i < g.models.len()
        invariant
            g.wf(),
            i <= g.models@.len(),
            out@.len() == i,
            model_branch_pairs(out@) =~= model_pairs_of(*g).take(i as int),
        decreases g.models@.len() - i,
    {
        let label = model_label_text(&g.models[i].0, &g.current_model);
        let apps: Vec<String> = Vec::new();
        assert(apps@.map_values(|a: String| a@) =~= Seq::<Seq<char>>::empty());
        let ghost prev = out@;
        out.push(ModelBranch { label, apps });
        assert(out@[i as int].pair() == model_pairs_of(*g)[i as int]);
        assert(model_branch_pairs(out@) =~= model_branch_pairs(prev).push(out@[i as int].pair()));
        assert(model_pairs_of(*g).take(i + 1) =~= model_pairs_of(*g).take(i as int).push(
            model_pairs_of(*g)[i as int],
        ));
        i = i + 1;
    }
    proof {
        let p = model_pairs_of(*g);
        assert(p.take(p.len() as int) =~= p);
        lemma_model_pairs_unique(*g);
    }
    out
}

/// Where the tree holds `label`, if it does.
fn find_branch(branches: &Vec<ControllerBranch>, label: &String) -> (r: Option<usize>)
    ensures
        r is None ==> !has_key(branches@.map_values(|c: ControllerBranch| c.pair()), label@),
        r matches Some(j) ==> j < branches@.len() && branches@[j as int].label@ == label@,
{
    let mut j: usize = 0;
    while j < branches.len()
        invariant
            j <= branches@.len(),
            forall|k: int| 0 <= k < j ==> branches@[k].label@ != label@,
        decreases branches@.len() - j,
    {
        if branches[j].label == *label {
            return Some(j);
        }
        j = j + 1;
    }
    let ghost s = branches@.map_values(|c: ControllerBranch| c.pair());
    assert(!has_key(s, label@)) by {
        if has_key(s, label@) {
            let k = choose|k: int| 0 <= k < s.len() && s[k].0 == label@;
            assert(branches@[k].label@ == label@);
        }
    }
    None
}

/// The locations of the two registries' files.
pub struct JujuArtifacts {
    pub controllers_filepath: String,
    pub models_filepath: String,
}

impl JujuArtifacts {
    pub fn new(controllers_filepath: String, models_filepath: String) -> (r: Self)
        ensures
            r.controllers_filepath == controllers_filepath,
            r.models_filepath == models_filepath,
    {
        JujuArtifacts { controllers_filepath, models_filepath }
    }

    /// Assembles the tree from the two registries: one line per controller, marked when
    /// it is the current one, holding one line per model of its group, marked when it is
    /// the group's current model. Where a controller has no group, fails with no tree and
    /// names the first such controller in the registry's order.
    pub fn get_tree(controllers: &Controllers, models: &Models) -> (r: Result<JujuTree, TreeError>)
        requires
            controllers.wf(),
            models.wf(),
        ensures
            r is Ok <==> consistent(*controllers, *models),
            r matches Ok(t) ==> t.wf() && t@ == tree_of(*controllers, *models),
            r matches Err(TreeError::ConsistencyFault(name)) ==> exists|i: int|
                0 <= i < controllers.entries().len() && controllers.entries()[i].0 == name@
                    && !models.has_group(name@) && forall|j: int|
                    0 <= j < i ==> models.has_group(#[trigger] controllers.entries()[j].0),
    {
        let mut tree = JujuTree { controllers: Vec::new() };
        let ghost cp = controller_pairs_of(*controllers, *models);
        let mut i: usize = 0;
        assert(tree@ =~= pairs_to_map(cp.take(0)));
        while i < controllers.controllers.len()
            invariant
                controllers.wf(),
                models.wf(),
                cp == controller_pairs_of(*controllers, *models),
                i <= controllers.controllers@.len(),
                tree.wf(),
                tree@ == pairs_to_map(cp.take(i as int)),
                forall|k: int| 0 <= k < i ==> models.has_group(#[trigger] controllers.entries()[k].0),
            decreases controllers.controllers@.len() - i,
        {
            let name = &controllers.controllers[i].0;
            let gi = match models.find_group(name) {
                Some(gi) => gi,
                None => {
                    assert(controllers.entries()[i as int].0 == name@);
                    return Err(TreeError::ConsistencyFault(name.clone()));
                },
            };
            let group = &models.controllers[gi].1;
            assert(group.wf()) by {
                assert(models.controllers@[gi as int].1.wf());
            }
            let label = controller_label_text(
                name,
                &controllers.controllers[i].1,
                &controllers.current_controller,
            );
            let branch = ControllerBranch { label, models: model_branches(group) };
            assert(branch.pair() == cp[i as int]);
            let ghost prev = tree.pairs();
            match find_branch(&tree.controllers, &branch.label) {
                Some(j) => {
                    assert(prev[j as int].0 == branch.label@);
                    tree.controllers.set(j, branch);
                    proof {
                        lemma_pairs_to_map_update(prev, j as int, cp[i as int].1);
                        assert(tree.pairs() =~= prev.update(j as int, (prev[j as int].0, cp[i as int].1)));
                    }
                },
                None => {
                    tree.controllers.push(branch);
                    proof {
                        lemma_pairs_to_map_push(prev, cp[i as int].0, cp[i as int].1);
                        assert(tree.pairs() =~= prev.push(cp[i as int]));
                    }
                },
            }
            assert(cp.take(i + 1).drop_last() =~= cp.take(i as int));
            i = i + 1;
        }
        assert(cp.take(cp.len() as int) =~= cp);
        Ok(tree)
    }
}

} // verus!
