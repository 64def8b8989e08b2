use vstd::prelude::*;
use crate::keyed::{has_key, keys_unique, lemma_pairs_to_map_value, pairs_to_map};

verus! {

/// One known controller.
#[derive(Debug)]
pub struct Controller {
    pub cloud: String,
    pub region: String,
    pub type_: String,
    pub agent_version: String,
}

/// The controller registry: each controller under its identifier, and the current one
/// (empty when none is active).
#[derive(Debug)]
pub struct Controllers {
    pub controllers: Vec<(String, Controller)>,
    pub current_controller: String,
}

/// What a model record carries.
#[derive(Debug)]
pub struct Model {
    pub uuid: String,
    pub branch: String,
}

/// A model, backed by infrastructure or by containers.
#[derive(Debug)]
pub enum ModelType {
    Iaas(Model),
    Caas(Model),
}

/// The models of one controller under their names, and the current one (empty when none).
#[derive(Debug)]
pub struct ControllerModels {
    pub models: Vec<(String, ModelType)>,
    pub current_model: String,
}

/// The model registry: the models of each controller under the controller's identifier.
#[derive(Debug)]
pub struct Models {
    pub controllers: Vec<(String, ControllerModels)>,
}

impl Controllers {
    pub open spec fn entries(&self) -> Seq<(Seq<char>, Controller)> {
        self.controllers@.map_values(|e: (String, Controller)| (e.0@, e.1))
    }

    /// Identifiers are unique.
    pub open spec fn wf(&self) -> bool {
        keys_unique(self.entries())
    }
}

impl ControllerModels {
    pub open spec fn entries(&self) -> Seq<(Seq<char>, ModelType)> {
        self.models@.map_values(|e: (String, ModelType)| (e.0@, e.1))
    }

    /// Model names are unique.
    pub open spec fn wf(&self) -> bool {
        keys_unique(self.entries())
    }
}

impl Models {
    pub open spec fn entries(&self) -> Seq<(Seq<char>, ControllerModels)> {
        self.controllers@.map_values(|e: (String, ControllerModels)| (e.0@, e.1))
    }

    /// Controller identifiers are unique, and so are model names within each group.
    pub open spec fn wf(&self) -> bool {
        &&& keys_unique(self.entries())
        &&& forall|i: int| 0 <= i < self.controllers@.len() ==> (#[trigger] self.controllers@[i]).1.wf()
    }

    /// Whether the registry holds models for controller `name`.
    pub open spec fn has_group(&self, name: Seq<char>) -> bool {
        has_key(self.entries(), name)
    }

    /// The models of controller `name`.
    pub open spec fn group(&self, name: Seq<char>) -> ControllerModels {
        pairs_to_map(self.entries())[name]
    }

    /// The index of the models of controller `name`, if the registry holds them.
    pub fn find_group(&self, name: &String) -> (r: Option<usize>)
        requires
            self.wf(),
        ensures
            r is None <==> !self.has_group(name@),
            r matches Some(i) ==> i < self.controllers@.len() && self.entries()[i as int].0
                == name@ && self.group(name@) == self.controllers@[i as int].1,
    {
        let mut i: usize = 0;
        while i < self.controllers.len()
            invariant
                self.wf(),
                i <= self.controllers@.len(),
                forall|j: int| 0 <= j < i ==> self.entries()[j].0 != name@,
            decreases self.controllers@.len() - i,
        {
            if self.controllers[i].0 == *name {
                proof {
                    lemma_pairs_to_map_value(self.entries(), i as int);
                }
                return Some(i);
            }
            i = i + 1;
        }
        None
    }
}

} // verus!
