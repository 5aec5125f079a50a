//! The name under which an agent registers with the server, with the stable
//! filter forms used to match its existing runtime artefacts.
//!
//! An instance name joins its fields with the separator `.`; the regex form
//! `[.]<agent_name>$` and the plain suffix form `.<agent_name>` both match
//! an instance name's trailing agent field.

use vstd::prelude::*;
use vstd::string::StringExecFns;

verus! {

#[derive(Debug, Eq, PartialEq)]
pub struct AgentName(String);

impl View for AgentName {
    type V = Seq<char>;

    closed spec fn view(&self) -> Seq<char> {
        self.0@
    }
}

pub open spec fn filter_regex_of(name: Seq<char>) -> Seq<char> {
    "[.]"@ + name + "$"@
}

pub open spec fn filter_suffix_of(name: Seq<char>) -> Seq<char> {
    "."@ + name
}

impl AgentName {
    pub fn get(&self) -> (r: &str)
        ensures
            r@ == self@,
    {
        self.0.as_str()
    }

    /// The regex form matching instance names that end in this agent's name.
    pub fn get_filter_regex(&self) -> (r: String)
        ensures
            r@ == filter_regex_of(self@),
    {
        let mut r = String::new();
        r.append("[.]");
        r.append(self.0.as_str());
        r.append("$");
        proof {
            assert(r@ =~= filter_regex_of(self@));
        }
        r
    }

    /// The literal suffix form of the same filter.
    pub fn get_filter_suffix(&self) -> (r: String)
        ensures
            r@ == filter_suffix_of(self@),
    {
        let mut r = String::new();
        r.append(".");
        r.append(self.0.as_str());
        proof {
            assert(r@ =~= filter_suffix_of(self@));
        }
        r
    }
}

impl From<String> for AgentName {
    fn from(value: String) -> (r: Self) {
        AgentName(value)
    }
}

impl vstd::std_specs::convert::FromSpecImpl<String> for AgentName {
    open spec fn obeys_from_spec() -> bool {
        true
    }

    closed spec fn from_spec(v: String) -> Self {
        AgentName(v)
    }
}

impl From<&str> for AgentName {
    fn from(value: &str) -> (r: Self) {
        AgentName(value.to_owned())
    }
}

impl vstd::std_specs::convert::FromSpecImpl<&str> for AgentName {
    open spec fn obeys_from_spec() -> bool {
        false
    }

    closed spec fn from_spec(v: &str) -> Self {
        vstd::pervasive::arbitrary()
    }
}

/// Builds an agent name from its text; what `From<&str>` does, with the
/// name's content stated.
pub fn agent_name_of(value: &str) -> (r: AgentName)
    ensures
        r@ == value@,
{
    AgentName(value.to_owned())
}

} // verus!
