//! The declarative node specification a project is compiled from.

use vstd::prelude::*;
use crate::product::InputSchema;

verus! {

/// A named atom brought in from another project or the global registry.
#[derive(Debug, Clone, PartialEq)]
pub struct ManifestImport {
    pub name: String,
    /// The content address of the master atom.
    pub hash: String,
}

/// Mathematical model of a [`ManifestImport`].
pub ghost struct ImportModel {
    pub name: Seq<char>,
    pub hash: Seq<char>,
}

impl View for ManifestImport {
    type V = ImportModel;

    open spec fn view(&self) -> ImportModel {
        ImportModel { name: self.name@, hash: self.hash@ }
    }
}

/// One node of the logic graph to be built. Exactly one of `intent` and
/// `use_ref` is meant to be set; `dependencies` name nodes declared earlier.
#[derive(Debug, Clone, PartialEq)]
pub struct ManifestNode {
    pub name: String,
    /// Free text handed to the weaving front end.
    pub intent: Option<String>,
    /// The name of an import whose logic this node reuses.
    pub use_ref: Option<String>,
    /// A presentation hint for consumers outside the core.
    pub ui_hint: Option<String>,
    pub dependencies: Vec<String>,
}

/// Mathematical model of a [`ManifestNode`].
pub ghost struct NodeModel {
    pub name: Seq<char>,
    pub intent: Option<Seq<char>>,
    pub use_ref: Option<Seq<char>>,
    pub ui_hint: Option<Seq<char>>,
    pub dependencies: Seq<Seq<char>>,
}

impl View for ManifestNode {
    type V = NodeModel;

    open spec fn view(&self) -> NodeModel {
        NodeModel {
            name: self.name@,
            intent: self.intent.deep_view(),
            use_ref: self.use_ref.deep_view(),
            ui_hint: self.ui_hint.deep_view(),
            dependencies: self.dependencies.deep_view(),
        }
    }
}

/// A declarative project description: its name, an optional parent it
/// extends, its user-facing inputs, its imports and its nodes.
#[derive(Debug, Clone, PartialEq)]
pub struct AetherManifest {
    pub app_name: String,
    pub extends: Option<String>,
    /// User-facing input form, for consumers outside the core.
    pub inputs: Vec<InputSchema>,
    pub imports: Vec<ManifestImport>,
    pub nodes: Vec<ManifestNode>,
}

/// Mathematical model of an [`AetherManifest`].
pub ghost struct ManifestModel {
    pub app_name: Seq<char>,
    pub extends: Option<Seq<char>>,
    pub imports: Seq<ImportModel>,
    pub nodes: Seq<NodeModel>,
}

impl View for AetherManifest {
    type V = ManifestModel;

    open spec fn view(&self) -> ManifestModel {
        ManifestModel {
            app_name: self.app_name@,
            extends: self.extends.deep_view(),
            imports: Seq::new(self.imports@.len(), |i: int| self.imports@[i]@),
            nodes: Seq::new(self.nodes@.len(), |i: int| self.nodes@[i]@),
        }
    }
}

} // verus!
