//! The identity of the local host, which decides which stacks it runs.

use vstd::prelude::*;

verus! {

/// The identity used for a host whose own name cannot be read as text.
pub open spec fn fallback_host() -> Seq<char> {
    "localhost"@
}

/// `gethostname::gethostname`: the node name that the operating system
/// reports for this machine, or `None` when that name is not valid Unicode.
/// Nothing is claimed about the name itself; it may differ from call to call.
#[verifier::external_body]
fn system_host_name() -> (name: Option<String>) {
    gethostname::gethostname().into_string().ok()
}

/// The host identity to filter stacks by, given the name that the system
/// reported: that name where there is one, `localhost` otherwise.
pub fn host_id_from(reported: Option<String>) -> (id: String)
    ensures
        id@ == match reported {
            Some(name) => name@,
            None => fallback_host(),
        },
{
    match reported {
        Some(name) => name,
        None => "localhost".to_owned(),
    }
}

/// The identity of this machine: `host_id_from` of the name the system reports
/// when called. Any text may come back, so no clause can say more of the result.
pub fn local_host_id() -> String {
    host_id_from(system_host_name())
}

} // verus!
