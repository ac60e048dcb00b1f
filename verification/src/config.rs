use vstd::prelude::*;

use crate::text::str_eq;

verus! {

/// The whole configuration file: the list of Looking Glass servers.
#[derive(Clone, Debug)]
pub struct Config {
    pub looking_glasses: Vec<LookingGlassConfig>,
}

/// One Looking Glass server as described in the configuration file.
#[derive(Clone, Debug)]
pub struct LookingGlassConfig {
    pub name: String,
    pub host: String,
    pub username: Option<String>,
    pub password: Option<String>,
    pub prompt_suffix: Option<String>,
    pub template: Option<String>,
    pub cmd_template: Option<String>,
    pub pager_cmd: Option<String>,
    /// The server is Route Views, whose login asks for the user name `rviews`.
    pub is_route_views: bool,
}

/// The view of an optional string.
pub open spec fn opt_chars(s: Option<String>) -> Option<Seq<char>> {
    match s {
        Some(t) => Some(t@),
        None => None,
    }
}

/// Template names of the Juniper family.
pub open spec fn is_juniper_template(t: Seq<char>) -> bool {
    t == "juniper"@ || t == "juniper_ipv4"@ || t == "juniper_ipv6"@
}

/// The BGP query command that a device template implies when no override is given:
/// Cisco IPv6 has its own command, the Juniper family shares one, and every other
/// template (or none) falls back to the Cisco IPv4 command.
pub open spec fn template_cmd(template: Option<Seq<char>>) -> Seq<char> {
    match template {
        Some(t) => if t == "cisco_ipv6"@ {
            "show bgp ipv6 unicast {prefix}"@
        } else if is_juniper_template(t) {
            "show route protocol bgp {prefix}"@
        } else {
            "show ip bgp {prefix}"@
        },
        None => "show ip bgp {prefix}"@,
    }
}

/// The pagination command that a device template implies when no override is given:
/// the Juniper family has its own, and every other template (or none) falls back to
/// the Cisco command.
pub open spec fn template_pager(template: Option<Seq<char>>) -> Seq<char> {
    match template {
        Some(t) => if is_juniper_template(t) {
            "set cli screen-length 0"@
        } else {
            "terminal length 0"@
        },
        None => "terminal length 0"@,
    }
}

/// Whether an optional string equals the given text.
fn opt_is(s: &Option<String>, text: &str) -> (res: bool)
    ensures
        res == (opt_chars(*s) == Some(text@)),
{
    match s {
        Some(t) => str_eq(t.as_str(), text),
        None => false,
    }
}

fn opt_is_juniper(s: &Option<String>) -> (res: bool)
    ensures
        res == (s.is_some() && is_juniper_template(s.unwrap()@)),
{
    opt_is(s, "juniper") || opt_is(s, "juniper_ipv4") || opt_is(s, "juniper_ipv6")
}

impl LookingGlassConfig {
    /// The query command template: the manual override if there is one, else the
    /// template's default, falling back to Cisco IPv4.
    pub open spec fn spec_cmd_template(&self) -> Seq<char> {
        match self.cmd_template {
            Some(c) => c@,
            None => template_cmd(opt_chars(self.template)),
        }
    }

    /// The pagination command: the manual override if there is one, else the
    /// template's default, falling back to the Cisco command; there always is one.
    pub open spec fn spec_pager_cmd(&self) -> Option<Seq<char>> {
        match self.pager_cmd {
            Some(p) => Some(p@),
            None => Some(template_pager(opt_chars(self.template))),
        }
    }

    /// Resolves the actual BGP query command template, prioritizing manual override,
    /// then template-specific defaults, falling back to Cisco IPv4.
    pub fn resolve_cmd_template(&self) -> (res: String)
        ensures
            res@ == self.spec_cmd_template(),
    {
        if let Some(cmd) = &self.cmd_template {
            return cmd.clone();
        }
        if opt_is(&self.template, "cisco_ipv6") {
            "show bgp ipv6 unicast {prefix}".to_owned()
        } else if opt_is_juniper(&self.template) {
            "show route protocol bgp {prefix}".to_owned()
        } else {
            "show ip bgp {prefix}".to_owned()
        }
    }

    /// Resolves the actual terminal pagination command, prioritizing manual override,
    /// then template-specific defaults, falling back to Cisco terminal length 0.
    pub fn resolve_pager_cmd(&self) -> (res: Option<String>)
        ensures
            opt_chars(res) == self.spec_pager_cmd(),
    {
        if let Some(pager) = &self.pager_cmd {
            return Some(pager.clone());
        }
        if opt_is_juniper(&self.template) {
            Some("set cli screen-length 0".to_owned())
        } else {
            Some("terminal length 0".to_owned())
        }
    }
}

} // verus!
