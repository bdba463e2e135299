//! A content-addressed computation graph engine.
//!
//! Logic is represented as immutable nodes ("atoms") identified by the
//! cryptographic hash of their own contents, linked into directed acyclic
//! graphs, validated against structural and policy constraints before being
//! admitted to storage, and evaluated by a recursive interpreter that
//! dispatches on an operation code.

#![allow(unused_imports)]

use vstd::prelude::*;

pub mod blob;
pub mod clock;
pub mod codec;
pub mod digest;
pub mod guard;
pub mod io;
pub mod json;
pub mod kernel;
pub mod kv;
pub mod laws;
pub mod loom;
pub mod manifest;
pub mod optimizer;
pub mod orchestrator;
pub mod product;
pub mod vault;

pub use guard::AetherGuard;
pub use io::IOContract;
pub use kernel::AetherKernel;
pub use loom::AetherLoom;
pub use manifest::AetherManifest;
pub use optimizer::AetherOptimizer;
pub use orchestrator::AetherOrchestrator;
pub use product::{InputSchema, ProductTemplate};
pub use vault::AetherVault;

verus! {

/// Operation code of permission atoms: `inputs[0]` of such an atom names the
/// resource a principal is granted access to.
pub const OP_PERMISSION: u16 = 10;

/// Operation code of the gateway/masking operation.
pub const OP_GATEWAY: u16 = 800;

/// The fundamental unit of the logic graph: an immutable, content-addressed
/// node. Its identity is the hash of its canonical serialized form, so two
/// atoms with equal fields always share one address.
#[derive(Debug, Clone, PartialEq)]
pub struct LogicAtom {
    /// Operation selector, e.g. `1` for the scalar-arithmetic operation.
    pub op_code: u16,
    /// Hashes of the atoms this atom depends on; order is significant.
    pub inputs: Vec<String>,
    /// Handle into the blob store holding operation-specific bytes.
    pub storage_ref: String,
    /// Isolation tag: `"global"` atoms are visible to all contexts, any other
    /// value scopes the atom to one logical project.
    pub context_id: String,
}

/// Mathematical model of a [`LogicAtom`].
pub ghost struct AtomModel {
    pub op_code: u16,
    pub inputs: Seq<Seq<char>>,
    pub storage_ref: Seq<char>,
    pub context_id: Seq<char>,
}

impl View for LogicAtom {
    type V = AtomModel;

    open spec fn view(&self) -> AtomModel {
        AtomModel {
            op_code: self.op_code,
            inputs: self.inputs.deep_view(),
            storage_ref: self.storage_ref@,
            context_id: self.context_id@,
        }
    }
}

/// The context tag that makes an atom visible to every project.
pub fn default_context() -> (r: String)
    ensures
        r@ == spec_global_context(),
{
    proof {
        reveal_strlit("global");
    }
    String::from_str("global")
}

/// The view of the distinguished `"global"` context tag.
pub open spec fn spec_global_context() -> Seq<char> {
    "global"@
}

/// A principal: identified by the hash of its public key, carrying the
/// permission atoms it may act through.
#[derive(Debug, Clone, PartialEq)]
pub struct IdentityAtom {
    pub public_key: String,
    pub role: String,
    pub org_hash: String,
    /// Hashes of permission atoms (operation code [`OP_PERMISSION`]).
    pub access_nodes: Vec<String>,
}

/// Mathematical model of an [`IdentityAtom`].
pub ghost struct IdentityModel {
    pub public_key: Seq<char>,
    pub role: Seq<char>,
    pub org_hash: Seq<char>,
    pub access_nodes: Seq<Seq<char>>,
}

impl View for IdentityAtom {
    type V = IdentityModel;

    open spec fn view(&self) -> IdentityModel {
        IdentityModel {
            public_key: self.public_key@,
            role: self.role@,
            org_hash: self.org_hash@,
            access_nodes: self.access_nodes.deep_view(),
        }
    }
}

/// Lifecycle of a project record.
#[derive(Debug, Clone, PartialEq, Eq, Structural)]
pub enum ProjectStatus {
    /// Manifest uploaded, not yet validated.
    Building,
    /// Validated and live.
    Active,
    Archived,
}

/// A project record, keyed by name.
#[derive(Debug, Clone, PartialEq)]
pub struct ProjectAtom {
    pub name: String,
    pub root_hash: String,
    pub org_hash: String,
    pub status: ProjectStatus,
    pub created_at: u64,
}

/// Mathematical model of a [`ProjectAtom`].
pub ghost struct ProjectModel {
    pub name: Seq<char>,
    pub root_hash: Seq<char>,
    pub org_hash: Seq<char>,
    pub status: ProjectStatus,
    pub created_at: u64,
}

impl View for ProjectAtom {
    type V = ProjectModel;

    open spec fn view(&self) -> ProjectModel {
        ProjectModel {
            name: self.name@,
            root_hash: self.root_hash@,
            org_hash: self.org_hash@,
            status: self.status,
            created_at: self.created_at,
        }
    }
}

/// A structural incompatibility found by the guard.
#[derive(Debug, Clone, PartialEq)]
pub enum GuardError {
    /// The list-filtering operation was declared with no input.
    FilterNeedsInput,
    /// The first input of a list-filtering operation is the output of the
    /// scalar-arithmetic operation, which produces an integer, not a list.
    FilterOnScalar,
}

/// The reason a write was rejected by the governed write path.
#[derive(Debug, Clone, PartialEq)]
pub enum ValidationError {
    /// The atom's payload could not be resolved from the blob store.
    BlobLoad { storage_ref: String },
    /// The interest-free law was violated: a financial atom carried this
    /// non-zero rate.
    InterestLaw { rate: i32 },
    /// The data-sovereignty law was violated by this endpoint at this
    /// sensitivity level.
    SovereigntyLaw { endpoint: String, sensitivity: u8 },
    /// The payload of an I/O atom did not decode to an I/O contract.
    MalformedContract,
    /// A dependency edge crossed a project boundary.
    ContextIsolation { atom_context: String, input_context: String },
    /// A declared input hash is not present in the store.
    MissingDependency { input_hash: String },
    /// The guard's structural compatibility check failed.
    Incompatible(GuardError),
}

/// Errors of the content-addressed store.
#[derive(Debug, Clone, PartialEq)]
pub enum VaultError {
    /// The underlying store failed; carries its message.
    Storage(String),
    /// No logic atom is stored under the requested hash.
    NotFound,
    /// No identity is stored under the requested hash.
    IdentityNotFound,
    /// The governed write path rejected the atom.
    Validation(ValidationError),
}

} // verus!
