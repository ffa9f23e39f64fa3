//! The kinds of registry that images can be listed from and removed in.

use vstd::prelude::*;
use vstd::string::StringExecFns;

verus! {

/// A kind of registry.
#[derive(PartialOrd, PartialEq, Debug)]
pub enum DockerRegistryType {
    Docker,
    IbmCloudRegistry,
}

/// The lowercase form of a text: what `str::to_lowercase` returns for it.
pub uninterp spec fn lowercase_of(s: Seq<char>) -> Seq<char>;

/// Calls `str::to_lowercase`. Trusted: the outcome depends on the text alone. Nothing
/// is claimed of which characters change.
#[verifier::external_body]
fn lowercase(s: &str) -> (r: String)
    ensures
        r@ == lowercase_of(s@),
{
    s.to_lowercase()
}

/// What a text in lowercase names: `docker` and `ibmcr` name a kind of registry, any
/// other text is answered with a message that quotes it.
pub open spec fn kind_of_lowercase(lowered: Seq<char>) -> Result<DockerRegistryType, Seq<char>> {
    if lowered == "docker"@ {
        Ok(DockerRegistryType::Docker)
    } else if lowered == "ibmcr"@ {
        Ok(DockerRegistryType::IbmCloudRegistry)
    } else {
        Err("Invalid registry type '"@ + lowered + "'. Specify 'docker' or 'ibmcr'."@)
    }
}

/// The value of what [`parse`] returns.
pub open spec fn kind_view(r: Result<DockerRegistryType, String>) -> Result<
    DockerRegistryType,
    Seq<char>,
> {
    match r {
        Ok(kind) => Ok(kind),
        Err(message) => Err(message@),
    }
}

/// Reads a kind of registry from a text that is in lowercase already.
pub fn parse_lowercase(lowered: &str) -> (r: Result<DockerRegistryType, String>)
    ensures
        kind_view(r) == kind_of_lowercase(lowered@),
{
    let text = String::from_str(lowered);
    if text == String::from_str("docker") {
        Ok(DockerRegistryType::Docker)
    } else if text == String::from_str("ibmcr") {
        Ok(DockerRegistryType::IbmCloudRegistry)
    } else {
        let message = String::from_str("Invalid registry type '").concat(lowered).concat(
            "'. Specify 'docker' or 'ibmcr'.",
        );
        Err(message)
    }
}

/// Reads a kind of registry from a text, whatever its case: `docker` or `ibmcr`.
pub fn parse(s: &str) -> (r: Result<DockerRegistryType, String>)
    ensures
        kind_view(r) == kind_of_lowercase(lowercase_of(s@)),
{
    let lowered = lowercase(s);
    parse_lowercase(lowered.as_str())
}

} // verus!
