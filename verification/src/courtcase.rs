//! Court cases as they are listed for selection.

use vstd::prelude::*;

verus! {

/// The mathematical value of a [`Case`].
pub struct CaseModel {
    pub name: Seq<char>,
    pub version: Seq<char>,
    pub foldername: Seq<char>,
}

/// A court case: its display name, its version and the folder that holds its content.
#[derive(Debug)]
pub struct Case {
    name: String,
    version: String,
    foldername: String,
}

impl View for Case {
    type V = CaseModel;

    closed spec fn view(&self) -> CaseModel {
        CaseModel { name: self.name@, version: self.version@, foldername: self.foldername@ }
    }
}

impl Case {
    /// Builds a case from its three attributes.
    pub fn new(name: String, version: String, foldername: String) -> (case: Case)
        ensures
            case@ == (CaseModel { name: name@, version: version@, foldername: foldername@ }),
    {
        Case { name, version, foldername }
    }

    /// Full name of the case, such as "Turnabout Joe".
    pub fn get_name(&self) -> (name: &str)
        ensures
            name@ == self@.name,
    {
        self.name.as_str()
    }

    /// Version of the case, such as "1.0".
    pub fn get_version(&self) -> (version: &str)
        ensures
            version@ == self@.version,
    {
        self.version.as_str()
    }

    /// Name of the folder the case is stored in, such as "turnabout_joe".
    pub fn get_foldername(&self) -> (foldername: &str)
        ensures
            foldername@ == self@.foldername,
    {
        self.foldername.as_str()
    }
}

} // verus!
