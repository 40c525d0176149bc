//! The shapes handed to the output writer: the dependency records paired
//! with the configurable name of their collection, and the distinguished
//! record of the analyzed project itself. Rendering these as a TOML document
//! is the output writer's business; this module fixes what is rendered, the
//! name of the file it goes to, and the final formatting pass.

use vstd::prelude::*;
use vstd::string::StringExecFns;

use crate::metadata::{DependencyData, DependencyModel};

verus! {

/// The dependency records to be serialized, together with the name under
/// which the collection appears in the document and which names the output
/// file.
pub struct DependencySerialized {
    dependencies: Vec<DependencyData>,
    file_name: String,
}

/// The mathematical image of a serialization request.
#[verifier::ext_equal]
pub ghost struct DependencySerializedModel {
    pub dependencies: Seq<DependencyModel>,
    pub file_name: Seq<char>,
}

impl View for DependencySerialized {
    type V = DependencySerializedModel;

    closed spec fn view(&self) -> DependencySerializedModel {
        DependencySerializedModel {
            dependencies: self.dependencies.deep_view(),
            file_name: self.file_name@,
        }
    }
}

impl DependencySerialized {
    /// Pairs the dependency records with the collection name they are to be
    /// published under.
    pub fn new(dependencies: Vec<DependencyData>, file_name: String) -> (r: Self)
        ensures
            r@.dependencies == dependencies.deep_view(),
            r@.file_name == file_name@,
    {
        DependencySerialized { dependencies, file_name }
    }

    /// The records to serialize.
    pub fn dependencies(&self) -> (r: &Vec<DependencyData>)
        ensures
            r.deep_view() == self@.dependencies,
    {
        &self.dependencies
    }

    /// The collection name.
    pub fn file_name(&self) -> (r: &String)
        ensures
            r@ == self@.file_name,
    {
        &self.file_name
    }

    /// The name of the document file: the collection name with the TOML
    /// extension.
    pub fn output_file_name(&self) -> (r: String)
        ensures
            r@ == self@.file_name + ".toml"@,
    {
        let mut n = String::from_str(self.file_name.as_str());
        n.append(".toml");
        n
    }
}

/// The record of the analyzed project itself, to be serialized apart from
/// its dependencies, together with the name of its output file.
pub struct SelfSerialized {
    self_crate: DependencyData,
    file_name: String,
}

/// The mathematical image of a self-record serialization request.
#[verifier::ext_equal]
pub ghost struct SelfSerializedModel {
    pub self_crate: DependencyModel,
    pub file_name: Seq<char>,
}

impl View for SelfSerialized {
    type V = SelfSerializedModel;

    closed spec fn view(&self) -> SelfSerializedModel {
        SelfSerializedModel { self_crate: self.self_crate@, file_name: self.file_name@ }
    }
}

impl SelfSerialized {
    /// Pairs the project's own record with the name it is to be published
    /// under.
    pub fn new(self_crate: DependencyData, file_name: String) -> (r: Self)
        ensures
            r@.self_crate == self_crate@,
            r@.file_name == file_name@,
    {
        SelfSerialized { self_crate, file_name }
    }

    /// The record to serialize.
    pub fn self_crate(&self) -> (r: &DependencyData)
        ensures
            r@ == self@.self_crate,
    {
        &self.self_crate
    }

    /// The collection name.
    pub fn file_name(&self) -> (r: &String)
        ensures
            r@ == self@.file_name,
    {
        &self.file_name
    }

    /// The name of the document file: the collection name with the TOML
    /// extension.
    pub fn output_file_name(&self) -> (r: String)
        ensures
            r@ == self@.file_name + ".toml"@,
    {
        let mut n = String::from_str(self.file_name.as_str());
        n.append(".toml");
        n
    }
}

/// What the TOML formatter makes of a document: a fixed normalization,
/// determined by the input text alone.
pub uninterp spec fn taplo_formatted(s: Seq<char>) -> Seq<char>;

/// Relies on `taplo::formatter::format` with the default options: the
/// formatted document depends on the input text alone.
#[verifier::external_body]
pub fn format_toml(text: &str) -> (r: String)
    ensures
        r@ == taplo_formatted(text@),
{
    taplo::formatter::format(text, taplo::formatter::Options::default())
}

} // verus!
