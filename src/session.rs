use vstd::prelude::*;
use crate::instance::{EC2Instance, opt_view};

verus! {

/// What the picker needs to open a remote session on one instance.
pub struct SessionManagerParams {
    pub region: Option<String>,
    pub profile: Option<String>,
    pub target: String,
}

/// `flag` followed by the value, or nothing when the value is unset.
pub open spec fn optional_segment(flag: Seq<char>, value: Option<Seq<char>>) -> Seq<char> {
    match value {
        Some(v) => flag + v,
        None => Seq::empty(),
    }
}

/// The command line that opens a session on `target`; the profile and region
/// segments are left out when unset.
pub open spec fn session_command_of(
    target: Seq<char>,
    profile: Option<Seq<char>>,
    region: Option<Seq<char>>,
) -> Seq<char> {
    "aws ssm start-session --target "@ + target + optional_segment(" --profile "@, profile)
        + optional_segment(" --region "@, region)
}

impl SessionManagerParams {
    /// The parameters for a session on `instance` under the given query context.
    pub fn for_instance(
        instance: &EC2Instance,
        region: Option<String>,
        profile: Option<String>,
    ) -> (r: SessionManagerParams)
        ensures
            r.target@ == instance@.id,
            opt_view(r.region) == opt_view(region),
            opt_view(r.profile) == opt_view(profile),
    {
        SessionManagerParams { region, profile, target: instance.id.clone() }
    }

    /// The command line that opens the session.
    pub fn session_command(&self) -> (r: String)
        ensures
            r@ == session_command_of(self.target@, opt_view(self.profile), opt_view(self.region)),
    {
        let mut cmd = String::from_str("aws ssm start-session --target ");
        cmd.append(self.target.as_str());
        if let Some(p) = &self.profile {
            cmd.append(" --profile ");
            cmd.append(p.as_str());
        }
        if let Some(r) = &self.region {
            cmd.append(" --region ");
            cmd.append(r.as_str());
        }
        cmd
    }
}

} // verus!
