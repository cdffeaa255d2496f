//! Configuration: named shares, each with its branches, policies and free-space threshold.
use crate::branch::{opt_view, path_exists, spec_options, spec_path, Branch, BranchMode};
use crate::error::{join2, join3, NofsError};
use crate::policy::{join_path, path_join, policy_named, Policy};
use crate::size::{parse_size, parse_size_spec};
use crate::text::{lower_text, str_equal};
use vstd::prelude::*;

verus! {

/// The configuration of one share.
#[derive(Debug, Clone)]
pub struct ShareConfig {
    /// Branch paths taking part read/write.
    pub paths: Vec<String>,
    /// Branch paths taking part read-only.
    pub ro_paths: Vec<String>,
    /// Branch paths taking part without receiving new files.
    pub nc_paths: Vec<String>,
    /// Name of the create policy.
    pub create_policy: String,
    /// Name of the search policy.
    pub search_policy: String,
    /// Name of the action policy.
    pub action_policy: String,
    /// Minimum free space a branch must keep to receive new files.
    pub minfreespace: String,
}

/// The create policy a share uses when it names none.
pub fn default_create_policy() -> (r: String)
    ensures
        r@ == "pfrd"@,
{
    String::from_str("pfrd")
}

/// The search policy a share uses when it names none.
pub fn default_search_policy() -> (r: String)
    ensures
        r@ == "ff"@,
{
    String::from_str("ff")
}

/// The action policy a share uses when it names none.
pub fn default_action_policy() -> (r: String)
    ensures
        r@ == "epall"@,
{
    String::from_str("epall")
}

/// The minimum free space a share uses when it names none.
pub fn default_minfreespace() -> (r: String)
    ensures
        r@ == "4G"@,
{
    String::from_str("4G")
}

/// The branch specifications of a share: its read/write paths as they are, then its
/// read-only paths with `=RO` added, then its no-create paths with `=NC` added.
pub open spec fn branch_specs(s: ShareConfig) -> Seq<Seq<char>> {
    s.paths@.map_values(|p: String| p@) + s.ro_paths@.map_values(|p: String| p@ + "=RO"@)
        + s.nc_paths@.map_values(|p: String| p@ + "=NC"@)
}

/// The whole configuration: its shares, by name, in the order they were read.
#[derive(Debug, Clone)]
pub struct Config {
    /// The shares and their names.
    pub share: Vec<(String, ShareConfig)>,
}

impl Config {
    /// No two shares have the same name, as the keys of a TOML table.
    pub open spec fn names_distinct(&self) -> bool {
        forall|i: int, j: int|
            0 <= i < j < self.share@.len() ==> self.share@[i].0@ != self.share@[j].0@
    }

    /// The share with the given name (the first one, should two have it).
    pub fn get_share(&self, name: &str) -> (r: Result<&ShareConfig, NofsError>)
        ensures
            match r {
                Ok(s) => exists|i: int|
                    0 <= i < self.share@.len() && self.share@[i].0@ == name@ && *s
                        == self.share@[i].1 && forall|j: int|
                        0 <= j < i ==> self.share@[j].0@ != name@,
                Err(e) => e is Config && forall|i: int|
                    0 <= i < self.share@.len() ==> self.share@[i].0@ != name@,
            },
    {
        let mut i: usize = 0;
        while i < self.share.len()
            invariant
                i <= self.share.len(),
                forall|j: int| 0 <= j < i ==> self.share@[j].0@ != name@,
            decreases self.share.len() - i,
        {
            if str_equal(self.share[i].0.as_str(), name) {
                return Ok(&self.share[i].1);
            }
            i = i + 1;
        }
        Err(NofsError::Config(join3("Share '", name, "' not found")))
    }

    /// The first share, for configurations with a single one.
    pub fn first_share(&self) -> (r: Result<(&str, &ShareConfig), NofsError>)
        ensures
            match r {
                Ok((n, s)) => self.share@.len() > 0 && n@ == self.share@[0].0@ && *s
                    == self.share@[0].1,
                Err(e) => e is Config && self.share@.len() == 0,
            },
    {
        if self.share.len() == 0 {
            return Err(NofsError::Config(String::from_str("No shares defined in config")));
        }
        Ok((self.share[0].0.as_str(), &self.share[0].1))
    }
}

impl ShareConfig {
    /// The branches of the share, built from `branch_specs` in that order; the first
    /// specification that does not parse stops the whole.
    pub fn get_branches(&self) -> (r: Result<Vec<Branch>, NofsError>)
        ensures
            match r {
                Ok(v) => v@.len() == branch_specs(*self).len() && forall|i: int|
                    0 <= i < v@.len() ==> (#[trigger] v@[i]).path@ == spec_path(
                        branch_specs(*self)[i],
                    ) && spec_options(branch_specs(*self)[i]) == Some(
                        (v@[i].mode, opt_view(v@[i].minfreespace)),
                    ),
                Err(e) => e is Branch,
            },
            (exists|i: int|
                0 <= i < branch_specs(*self).len() && spec_options(
                    #[trigger] branch_specs(*self)[i],
                ) is None) ==> r is Err,
    {
        let ghost specs = branch_specs(*self);
        let ghost a = self.paths@.map_values(|p: String| p@);
        let ghost b = self.ro_paths@.map_values(|p: String| p@ + "=RO"@);
        let ghost c = self.nc_paths@.map_values(|p: String| p@ + "=NC"@);
        let mut out: Vec<Branch> = Vec::new();
        let mut i: usize = 0;
        while i < self.paths.len()
            invariant
                i <= self.paths.len(),
                specs == a + b + c,
                a == self.paths@.map_values(|p: String| p@),
                out@.len() == i,
                forall|k: int|
                    0 <= k < i ==> (#[trigger] out@[k]).path@ == spec_path(specs[k])
                        && spec_options(specs[k]) == Some((out@[k].mode, opt_view(out@[k].minfreespace))),
                forall|k: int| 0 <= k < i ==> spec_options(#[trigger] specs[k]) is Some,
            decreases self.paths.len() - i,
        {
            assert(specs[i as int] == a[i as int]);
            match Branch::parse(self.paths[i].as_str()) {
                Ok(br) => out.push(br),
                Err(e) => return Err(e),
            }
            i = i + 1;
        }
        let mut j: usize = 0;
        while j < self.ro_paths.len()
            invariant
                j <= self.ro_paths.len(),
                i == self.paths@.len(),
                specs == a + b + c,
                a.len() == i,
                b == self.ro_paths@.map_values(|p: String| p@ + "=RO"@),
                out@.len() == i + j,
                forall|k: int|
                    0 <= k < i + j ==> (#[trigger] out@[k]).path@ == spec_path(specs[k])
                        && spec_options(specs[k]) == Some((out@[k].mode, opt_view(out@[k].minfreespace))),
                forall|k: int| 0 <= k < i + j ==> spec_options(#[trigger] specs[k]) is Some,
            decreases self.ro_paths.len() - j,
        {
            let spec_text = join2(self.ro_paths[j].as_str(), "=RO");
            assert(specs[i + j] == b[j as int]);
            match Branch::parse(spec_text.as_str()) {
                Ok(br) => out.push(br),
                Err(e) => return Err(e),
            }
            j = j + 1;
        }
        let mut k: usize = 0;
        while k < self.nc_paths.len()
            invariant
                k <= self.nc_paths.len(),
                i == self.paths@.len(),
                j == self.ro_paths@.len(),
                specs == a + b + c,
                a.len() == i,
                b.len() == j,
                c == self.nc_paths@.map_values(|p: String| p@ + "=NC"@),
                out@.len() == i + j + k,
                forall|m: int|
                    0 <= m < i + j + k ==> (#[trigger] out@[m]).path@ == spec_path(specs[m])
                        && spec_options(specs[m]) == Some((out@[m].mode, opt_view(out@[m].minfreespace))),
                forall|m: int| 0 <= m < i + j + k ==> spec_options(#[trigger] specs[m]) is Some,
            decreases self.nc_paths.len() - k,
        {
            let spec_text = join2(self.nc_paths[k].as_str(), "=NC");
            assert(specs[i + j + k] == c[k as int]);
            match Branch::parse(spec_text.as_str()) {
                Ok(br) => out.push(br),
                Err(e) => return Err(e),
            }
            k = k + 1;
        }
        Ok(out)
    }

    /// The share's create policy.
    pub fn create_policy(&self) -> (r: Result<Policy, NofsError>)
        ensures
            match r {
                Ok(p) => policy_named(lower_text(self.create_policy@)) == Some(p),
                Err(e) => policy_named(lower_text(self.create_policy@)) is None && e is Policy,
            },
    {
        Policy::parse(self.create_policy.as_str())
    }

    /// The share's search policy.
    pub fn search_policy(&self) -> (r: Result<Policy, NofsError>)
        ensures
            match r {
                Ok(p) => policy_named(lower_text(self.search_policy@)) == Some(p),
                Err(e) => policy_named(lower_text(self.search_policy@)) is None && e is Policy,
            },
    {
        Policy::parse(self.search_policy.as_str())
    }

    /// The share's action policy.
    pub fn action_policy(&self) -> (r: Result<Policy, NofsError>)
        ensures
            match r {
                Ok(p) => policy_named(lower_text(self.action_policy@)) == Some(p),
                Err(e) => policy_named(lower_text(self.action_policy@)) is None && e is Policy,
            },
    {
        Policy::parse(self.action_policy.as_str())
    }

    /// The share's minimum free space in bytes.
    pub fn minfreespace_bytes(&self) -> (r: Result<u64, NofsError>)
        ensures
            match r {
                Ok(v) => parse_size_spec(self.minfreespace@) == Some(v as nat),
                Err(e) => parse_size_spec(self.minfreespace@) is None && e is Parse,
            },
    {
        parse_size(self.minfreespace.as_str())
    }
}

/// `dirs::home_dir`: the user's home directory, if the environment tells it. It
/// depends on the environment, so nothing is stated of it.
#[verifier::external_body]
fn home_dir() -> Option<String> {
    dirs::home_dir().map(|p| p.to_string_lossy().into_owned())
}

/// The places a configuration is looked for, in order: `nofs.toml` and `.nofs.toml` in
/// the current directory, `.config/nofs/config.toml` and `.config/nofs/nofs.toml` under
/// the home directory (when it is known), then `/etc/nofs/config.toml`.
pub open spec fn config_places(home: Option<Seq<char>>) -> Seq<Seq<char>> {
    let local = seq!["nofs.toml"@, ".nofs.toml"@];
    let under_home = match home {
        Some(h) => seq![
            path_join(h, ".config/nofs/config.toml"@),
            path_join(h, ".config/nofs/nofs.toml"@),
        ],
        None => seq![],
    };
    local + under_home + seq!["/etc/nofs/config.toml"@]
}

/// The first position whose flag is set, if any.
pub open spec fn first_set(found: Seq<bool>) -> Option<int> {
    if exists|i: int| 0 <= i < found.len() && found[i] {
        Some(choose|i: int| 0 <= i < found.len() && found[i] && forall|j: int| 0 <= j < i ==> !found[j])
    } else {
        None
    }
}

/// The first of the places where a configuration was found (see `first_set`).
pub fn first_found(found: &[bool]) -> (r: Option<usize>)
    ensures
        match r {
            Some(i) => first_set(found@) == Some(i as int),
            None => first_set(found@) is None,
        },
{
    let mut i: usize = 0;
    while i < found.len()
        invariant
            i <= found@.len(),
            forall|j: int| 0 <= j < i ==> !found@[j],
        decreases found.len() - i,
    {
        if found[i] {
            proof {
                assert(first_set(found@) == Some(i as int)) by {
                    let k = choose|k: int|
                        0 <= k < found@.len() && found@[k] && forall|j: int| 0 <= j < k ==> !found@[j];
                    if k < i {
                        assert(!found@[k]);
                    } else if k > i {
                        assert(!found@[i as int]);
                    }
                }
            }
            return Some(i);
        }
        i = i + 1;
    }
    None
}

/// The first set position is set, and no earlier one is; none is found only when no
/// position is set.
pub proof fn law_first_found(found: Seq<bool>)
    ensures
        match first_set(found) {
            Some(i) => 0 <= i < found.len() && found[i] && forall|j: int| 0 <= j < i ==> !#[trigger] found[j],
            None => forall|j: int| 0 <= j < found.len() ==> !#[trigger] found[j],
        },
{
    if exists|i: int| 0 <= i < found.len() && found[i] {
        let w = choose|i: int| 0 <= i < found.len() && found[i];
        assert(exists|i: int| 0 <= i < found.len() && found[i] && forall|j: int| 0 <= j < i ==> !found[j]) by {
            lemma_least_set(found, w);
        }
    }
}

/// Below a set position there is a least set one.
proof fn lemma_least_set(found: Seq<bool>, w: int)
    requires
        0 <= w < found.len(),
        found[w],
    ensures
        exists|i: int| 0 <= i < found.len() && found[i] && forall|j: int| 0 <= j < i ==> !found[j],
    decreases w,
{
    if forall|j: int| 0 <= j < w ==> !found[j] {
    } else {
        let v = choose|j: int| 0 <= j < w && found[j];
        lemma_least_set(found, v);
    }
}

/// The places a configuration is looked for, given the home directory (see
/// `config_places`).
pub fn config_places_under(home: Option<String>) -> (r: Vec<String>)
    ensures
        r@.map_values(|p: String| p@) == config_places(opt_view(home)),
{
    let mut out: Vec<String> = Vec::new();
    out.push(String::from_str("nofs.toml"));
    out.push(String::from_str(".nofs.toml"));
    match home {
        Some(h) => {
            out.push(join_path(h.as_str(), ".config/nofs/config.toml"));
            out.push(join_path(h.as_str(), ".config/nofs/nofs.toml"));
        },
        None => {},
    }
    out.push(String::from_str("/etc/nofs/config.toml"));
    assert(out@.map_values(|p: String| p@) =~= config_places(opt_view(home)));
    out
}

/// The first of the usual configuration places that exists (see `config_places` and
/// `first_found`): the home directory and whether each place exists are read from the
/// environment and the filesystem.
pub fn find_default_config() -> (r: Option<String>)
    ensures
        exists|home: Option<Seq<char>>, found: Seq<bool>|
            found.len() == config_places(home).len() && match r {
                Some(p) => first_set(found) matches Some(i) && p@ == config_places(home)[i],
                None => first_set(found) is None,
            },
{
    let home = home_dir();
    let ghost h = opt_view(home);
    let places = config_places_under(home);
    let mut found: Vec<bool> = Vec::new();
    let mut i: usize = 0;
    while i < places.len()
        invariant
            i <= places@.len(),
            found@.len() == i,
        decreases places.len() - i,
    {
        found.push(path_exists(places[i].as_str()));
        i = i + 1;
    }
    assert(places@.map_values(|p: String| p@).len() == places@.len());
    match first_found(found.as_slice()) {
        Some(k) => {
            assert(places@.map_values(|p: String| p@)[k as int] == places@[k as int]@);
            Some(places[k].clone())
        },
        None => None,
    }
}

} // verus!
