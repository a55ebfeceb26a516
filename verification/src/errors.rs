//! The registry core's error taxonomy. Every failure an operation can
//! report is a variant here, each with the human-readable detail message
//! the HTTP layer shows; datastore or transport faults are the
//! collaborators' business and never constructed by this crate.
use vstd::prelude::*;
use vstd::string::StringExecFns;

verus! {

/// A structured, user-visible failure.
#[derive(Debug)]
pub enum CargoError {
    /// A removal would leave the package without any individual owner.
    LastOwnerViolation,
    /// An owner add names a login that is already an owner.
    AlreadyOwner(String),
    /// Accept or decline of an invitation that does not exist.
    InvitationNotFound,
    /// The actor lacks Publish-level rights; the payload is the full
    /// message naming the operation that was refused.
    InsufficientRights(String),
    /// A namespaced package does not exist, but its namespace does.
    NamespaceExistsChildMissing,
    /// A toolchain descriptor does not have the `rustc X.Y.Z (SHA
    /// YYYY-MM-DD)` shape; the payload is the raw descriptor.
    MalformedVersionDescriptor(String),
    /// A well-shaped descriptor is neither nightly, beta nor stable; the
    /// payload is the raw descriptor.
    UnrecognizedChannel(String),
    /// A date token does not parse; the payload is the token.
    InvalidDate(String),
    /// A version string does not parse; the payload is the string.
    InvalidSemver(String),
    /// A (package, version) pair already exists; the payload is the
    /// rendered version number.
    DuplicateVersion(String),
    /// A package has no version with the given number.
    VersionNotFound(String, String),
    /// No owner row carries the given display name.
    UnknownOwner(String),
    /// No account carries the given login.
    UnknownUser(String),
    /// A lookup found nothing.
    NotFound,
    /// The index-publication collaborator failed; the surrounding
    /// transaction was rolled back and the operation may be retried.
    IndexUpdateFailed,
}

/// The detail message of each error variant.
pub open spec fn detail_spec(e: CargoError) -> Seq<char> {
    match e {
        CargoError::LastOwnerViolation => "cannot remove all individual owners of a crate"@,
        CargoError::AlreadyOwner(login) => "`"@ + login@ + "` is already an owner"@,
        CargoError::InvitationNotFound => "crate owner invitation not found"@,
        CargoError::InsufficientRights(msg) => msg@,
        CargoError::NamespaceExistsChildMissing => "this crate doesn't exist, but it belongs to a namespace which exists"@,
        CargoError::MalformedVersionDescriptor(s) => "rust_version `"@ + s@
            + "` not recognized; expected format like `rustc X.Y.Z (SHA YYYY-MM-DD)`"@,
        CargoError::UnrecognizedChannel(s) => "rust_version `"@ + s@
            + "` not recognized as nightly, beta, or stable"@,
        CargoError::InvalidDate(s) => "invalid date `"@ + s@ + "`; expected format `YYYY-MM-DD`"@,
        CargoError::InvalidSemver(s) => "invalid semver: "@ + s@,
        CargoError::DuplicateVersion(num) => "crate version `"@ + num@ + "` is already uploaded"@,
        CargoError::VersionNotFound(name, num) => "crate `"@ + name@ + "` does not have a version `"@
            + num@ + "`"@,
        CargoError::UnknownOwner(name) => "could not find owner with login `"@ + name@ + "`"@,
        CargoError::UnknownUser(login) => "could not find user with login `"@ + login@ + "`"@,
        CargoError::NotFound => "not found"@,
        CargoError::IndexUpdateFailed => "failed to update the package index; the operation can be retried"@,
    }
}

impl CargoError {
    /// The human-readable detail message shown to the caller.
    pub fn detail(&self) -> (r: String)
        ensures
            r@ == detail_spec(*self),
    {
        match self {
            CargoError::LastOwnerViolation => {
                "cannot remove all individual owners of a crate".to_owned()
            },
            CargoError::AlreadyOwner(login) => {
                let mut r = "`".to_owned();
                r.append(login.as_str());
                r.append("` is already an owner");
                r
            },
            CargoError::InvitationNotFound => "crate owner invitation not found".to_owned(),
            CargoError::InsufficientRights(msg) => msg.clone(),
            CargoError::NamespaceExistsChildMissing => {
                "this crate doesn't exist, but it belongs to a namespace which exists".to_owned()
            },
            CargoError::MalformedVersionDescriptor(s) => {
                let mut r = "rust_version `".to_owned();
                r.append(s.as_str());
                r.append("` not recognized; expected format like `rustc X.Y.Z (SHA YYYY-MM-DD)`");
                r
            },
            CargoError::UnrecognizedChannel(s) => {
                let mut r = "rust_version `".to_owned();
                r.append(s.as_str());
                r.append("` not recognized as nightly, beta, or stable");
                r
            },
            CargoError::InvalidDate(s) => {
                let mut r = "invalid date `".to_owned();
                r.append(s.as_str());
                r.append("`; expected format `YYYY-MM-DD`");
                r
            },
            CargoError::InvalidSemver(s) => {
                let mut r = "invalid semver: ".to_owned();
                r.append(s.as_str());
                r
            },
            CargoError::DuplicateVersion(num) => {
                let mut r = "crate version `".to_owned();
                r.append(num.as_str());
                r.append("` is already uploaded");
                r
            },
            CargoError::VersionNotFound(name, num) => {
                let mut r = "crate `".to_owned();
                r.append(name.as_str());
                r.append("` does not have a version `");
                r.append(num.as_str());
                r.append("`");
                r
            },
            CargoError::UnknownOwner(name) => {
                let mut r = "could not find owner with login `".to_owned();
                r.append(name.as_str());
                r.append("`");
                r
            },
            CargoError::UnknownUser(login) => {
                let mut r = "could not find user with login `".to_owned();
                r.append(login.as_str());
                r.append("`");
                r
            },
            CargoError::NotFound => "not found".to_owned(),
            CargoError::IndexUpdateFailed => {
                "failed to update the package index; the operation can be retried".to_owned()
            },
        }
    }
}

} // verus!
