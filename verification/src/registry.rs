//! The component registry: its metadata and the addresses it serves.

use vstd::prelude::*;
use crate::text::{chars_of, string_take, text_eq, trim_end_char, trim_end_char_len};

verus! {

broadcast use vstd::string::group_string_axioms;

/// A crate that a component needs in the user's `Cargo.toml`.
#[derive(Debug, Clone)]
pub struct CargoDep {
    pub name: String,
    pub version: String,
    pub features: Vec<String>,
}

/// What the registry says of one component.
#[derive(Debug, Clone)]
pub struct ComponentMeta {
    pub name: String,
    pub description: String,
    pub files: Vec<String>,
    pub cargo_deps: Vec<CargoDep>,
    /// Names of the components that this one needs installed too.
    pub deps: Vec<String>,
}

/// The registry index at one version.
#[derive(Debug)]
pub struct Registry {
    pub version: String,
    pub components: Vec<ComponentMeta>,
}

/// The names of a list of strings.
pub open spec fn texts(v: Seq<String>) -> Seq<Seq<char>> {
    v.map_values(|s: String| s@)
}

/// Each component's name with the names of the components it depends on, in
/// registry order.
pub type DepGraph = Seq<(Seq<char>, Seq<Seq<char>>)>;

/// The dependency graph that a registry describes.
pub open spec fn dep_graph(reg: &Registry) -> DepGraph {
    reg.components@.map_values(|m: ComponentMeta| (m.name@, texts(m.deps@)))
}

/// Index of the first component of `comps` named `name`.
pub open spec fn is_first_named(comps: Seq<ComponentMeta>, name: Seq<char>, i: int) -> bool {
    0 <= i < comps.len() && comps[i].name@ == name && forall|j: int|
        0 <= j < i ==> comps[j].name@ != name
}

impl Registry {
    /// Index of the first component named `name`, if any.
    pub open spec fn find_first(&self, name: Seq<char>) -> Option<int> {
        if exists|i: int| is_first_named(self.components@, name, i) {
            Some(choose|i: int| is_first_named(self.components@, name, i))
        } else {
            None
        }
    }

    /// What `find_component` returns is the first component of that name.
    pub proof fn lemma_find_first(&self, name: Seq<char>, found: Option<usize>)
        requires
            match found {
                Some(i) => is_first_named(self.components@, name, i as int),
                None => forall|j: int|
                    0 <= j < self.components@.len() ==> self.components@[j].name@ != name,
            },
        ensures
            match found {
                Some(i) => self.find_first(name) == Some(i as int),
                None => self.find_first(name) is None,
            },
    {
        match found {
            Some(i) => {
                let j = choose|j: int| is_first_named(self.components@, name, j);
                if j < i {
                    assert(self.components@[j].name@ != name);
                } else if j > i {
                    assert(self.components@[i as int].name@ != name);
                }
            },
            None => {},
        }
    }

    /// Position of the first component named `name` (`Iterator::find` on the
    /// component list).
    pub fn find_component(&self, name: &str) -> (res: Option<usize>)
        ensures
            match res {
                Some(i) => is_first_named(self.components@, name@, i as int),
                None => forall|j: int|
                    0 <= j < self.components@.len() ==> self.components@[j].name@ != name@,
            },
            match res {
                Some(i) => self.find_first(name@) == Some(i as int),
                None => self.find_first(name@) is None,
            },
    {
        let mut i: usize = 0;
        while i < self.components.len()
            invariant
                i <= self.components.len(),
                forall|j: int| 0 <= j < i ==> self.components@[j].name@ != name@,
            decreases self.components.len() - i,
        {
            if text_eq(self.components[i].name.as_str(), name) {
                proof { self.lemma_find_first(name@, Some(i)); }
                return Some(i);
            }
            i += 1;
        }
        proof { self.lemma_find_first(name@, None); }
        None
    }
}

/// Trimming a character from the end leaves a text that does not end with it.
pub proof fn lemma_trim_end_char_last(s: Seq<char>, c: char)
    ensures
        trim_end_char(s, c).len() == 0 || trim_end_char(s, c).last() != c,
    decreases s.len(),
{
    if s.len() > 0 && s.last() == c {
        lemma_trim_end_char_last(s.drop_last(), c);
    }
}

/// Whether `version` is the `latest` alias rather than a registry version.
pub fn is_alias(version: &str) -> (res: bool)
    ensures
        res == is_latest(version@),
{
    text_eq(version, "latest")
}

/// Client for the registry's HTTP interface: knows the base address and the
/// address of each resource.
pub struct Client {
    base_url: String,
}

/// The `latest` version alias.
pub open spec fn is_latest(version: Seq<char>) -> bool {
    version == "latest"@
}

impl Client {
    /// The base address, without trailing slashes.
    pub closed spec fn base(&self) -> Seq<char> {
        self.base_url@
    }

    /// A client for the registry at `base_url`; trailing slashes are dropped.
    pub fn new(base_url: &str) -> (res: Client)
        ensures
            res.base() == trim_end_char(base_url@, '/'),
    {
        let v = chars_of(base_url);
        let n = trim_end_char_len(&v, '/');
        let trimmed = string_take(&v, n);
        Client { base_url: trimmed }
    }

    /// The base address of a client never ends with a slash.
    pub proof fn law_base_without_trailing_slash(&self, base_url: Seq<char>)
        requires
            self.base() == trim_end_char(base_url, '/'),
        ensures
            self.base().len() == 0 || self.base().last() != '/',
    {
        lemma_trim_end_char_last(base_url, '/');
    }

    /// Address of the registry index at `version` (`latest` for the newest).
    pub fn registry_url(&self, version: &str) -> (res: String)
        ensures
            res@ == if is_latest(version@) {
                self.base() + "/registry"@
            } else {
                self.base() + "/registry/"@ + version@
            },
    {
        let mut url = self.base_url.clone();
        if text_eq(version, "latest") {
            url.append("/registry");
        } else {
            url.append("/registry/");
            url.append(version);
        }
        url
    }

    /// The address of the source of component `name` at `version`.
    pub open spec fn component_url_of(&self, name: Seq<char>, version: Seq<char>) -> Seq<char> {
        if is_latest(version) {
            self.base() + "/component/"@ + name
        } else {
            self.base() + "/component/"@ + name + "/"@ + version
        }
    }

    /// Address of the source of component `name` at `version`.
    pub fn component_url(&self, name: &str, version: &str) -> (res: String)
        ensures
            res@ == self.component_url_of(name@, version@),
    {
        let mut url = self.base_url.clone();
        url.append("/component/");
        url.append(name);
        if !text_eq(version, "latest") {
            url.append("/");
            url.append(version);
        }
        url
    }

    /// Address of the list of registry versions.
    pub fn versions_url(&self) -> (res: String)
        ensures
            res@ == self.base() + "/versions"@,
    {
        let mut url = self.base_url.clone();
        url.append("/versions");
        url
    }

    /// Address of the default stylesheet `yei.css`.
    pub fn style_url(&self) -> (res: String)
        ensures
            res@ == self.base() + "/style"@,
    {
        let mut url = self.base_url.clone();
        url.append("/style");
        url
    }
}

} // verus!
