//! Project configuration (`yei.json`) and the lock of installed components
//! (`yei.lock`).

use vstd::prelude::*;
use crate::registry::texts;
use crate::text::{chars_of, replace_all, replace_chars, string_of, text_eq, trim_start_all, trim_start_chars};

verus! {

broadcast use {vstd::seq_lib::group_seq_properties, vstd::string::group_string_axioms};

/// Settings of a project, read from `yei.json`.
#[derive(Debug, Clone)]
pub struct Config {
    /// Registry API base address.
    pub registry: String,
    /// Default version to install (`latest` or a tag such as `0.1.0`).
    pub version: String,
    /// Where component sources are written.
    pub output_path: String,
    /// Rust module path where components live (e.g. `crate::components`);
    /// derived from `output_path` when empty. Stored as `module_path` in
    /// `yei.json`.
    pub mod_path: String,
}

/// Registry used when none is configured.
pub open spec fn default_registry() -> Seq<char> {
    "https://yei-api.aodihis.com"@
}

/// Output directory used when none is configured.
pub open spec fn default_output_path() -> Seq<char> {
    "src/components"@
}

/// The module path derived from an output directory: leading `src/` (then
/// `src\`) prefixes removed, path separators turned into `::`, under `crate`.
pub open spec fn derived_module_path(output_path: Seq<char>) -> Seq<char> {
    let stripped = trim_start_all(trim_start_all(output_path, "src/"@), "src\\"@);
    "crate::"@ + replace_all(replace_all(stripped, seq!['\\'], "::"@), seq!['/'], "::"@)
}

/// The module path in effect: the configured one, or else the derived one.
pub open spec fn effective_path(mod_path: Seq<char>, output_path: Seq<char>) -> Seq<char> {
    if mod_path.len() > 0 {
        mod_path
    } else {
        derived_module_path(output_path)
    }
}

impl Default for Config {
    fn default() -> (res: Self)
        ensures
            res.registry@ == default_registry(),
            res.version@ == "latest"@,
            res.output_path@ == default_output_path(),
            res.mod_path@ == Seq::<char>::empty(),
    {
        Config {
            registry: String::from_str("https://yei-api.aodihis.com"),
            version: String::from_str("latest"),
            output_path: String::from_str("src/components"),
            mod_path: String::new(),
        }
    }
}

impl Config {
    /// The configuration that `yei init` writes: the default registry, the
    /// `latest` version and the chosen output directory.
    pub fn for_output_path(output_path: String) -> (res: Self)
        ensures
            res.registry@ == default_registry(),
            res.version@ == "latest"@,
            res.output_path@ == output_path@,
            res.mod_path@ == Seq::<char>::empty(),
    {
        Config {
            registry: String::from_str("https://yei-api.aodihis.com"),
            version: String::from_str("latest"),
            output_path,
            mod_path: String::new(),
        }
    }

    /// The registry version to install from: the one given on the command
    /// line, or else the configured one.
    pub fn chosen_version(&self, requested: Option<String>) -> (res: String)
        ensures
            res@ == match requested {
                Some(v) => v@,
                None => self.version@,
            },
    {
        match requested {
            Some(v) => v,
            None => self.version.clone(),
        }
    }

    /// Returns the effective module path, deriving it from `output_path` if
    /// not set explicitly: `src/foo/bar` gives `crate::foo::bar`.
    pub fn effective_module_path(&self) -> (res: String)
        ensures
            res@ == effective_path(self.mod_path@, self.output_path@),
    {
        if !self.mod_path.as_str().is_empty() {
            return self.mod_path.clone();
        }
        proof {
            reveal_strlit("src/");
            reveal_strlit("src\\");
            reveal_strlit("\\");
            reveal_strlit("/");
            reveal_strlit("::");
        }
        let path = chars_of(self.output_path.as_str());
        let once = trim_start_chars(&path, &chars_of("src/"));
        let stripped = trim_start_chars(&once, &chars_of("src\\"));
        let sep = chars_of("::");
        let back = chars_of("\\");
        assert(back@ =~= seq!['\\']);
        let fwd = chars_of("/");
        assert(fwd@ =~= seq!['/']);
        let no_back = replace_chars(&stripped, &back, &sep);
        let joined = replace_chars(&no_back, &fwd, &sep);
        let mut res = String::from_str("crate::");
        res.append(string_of(&joined).as_str());
        res
    }
}

/// A configured module path is the one in effect, whatever the output
/// directory; only an empty one lets the output directory decide.
pub proof fn law_configured_module_path(mod_path: Seq<char>, output_path: Seq<char>)
    ensures
        mod_path.len() > 0 ==> effective_path(mod_path, output_path) == mod_path,
        mod_path.len() == 0 ==> effective_path(mod_path, output_path) == derived_module_path(
            output_path,
        ),
{
}

/// Replacing a character by text without it leaves no such character, and
/// brings in no character but those of the text and those already there.
pub proof fn lemma_replace_char_contains(s: Seq<char>, c: char, to: Seq<char>, ch: char)
    ensures
        replace_all(s, seq![c], to).contains(ch) ==> to.contains(ch) || (s.contains(ch) && ch
            != c),
    decreases s.len(),
{
    if s.len() > 0 {
        let rest = if seq![c].is_prefix_of(s) {
            s.skip(1)
        } else {
            s.drop_first()
        };
        lemma_replace_char_contains(rest, c, to, ch);
        let r = replace_all(s, seq![c], to);
        if r.contains(ch) {
            let k = choose|k: int| 0 <= k < r.len() && r[k] == ch;
            if seq![c].is_prefix_of(s) {
                assert(s.subrange(0, 1)[0] == s[0]);
                assert(s[0] == c);
                if k >= to.len() {
                    assert(replace_all(rest, seq![c], to)[k - to.len()] == ch);
                    if rest.contains(ch) {
                        let m = choose|m: int| 0 <= m < rest.len() && rest[m] == ch;
                        assert(s[m + 1] == ch);
                    }
                } else {
                    assert(to[k] == ch);
                }
            } else {
                if k == 0 {
                    assert(s[0] == ch);
                    assert(s[0] != c);
                } else {
                    assert(replace_all(rest, seq![c], to)[k - 1] == ch);
                    if rest.contains(ch) {
                        let m = choose|m: int| 0 <= m < rest.len() && rest[m] == ch;
                        assert(s[m + 1] == ch);
                    }
                }
            }
        }
    }
}

/// A derived module path starts with `crate::` and holds no `/` or `\`.
pub proof fn law_derived_module_path(output_path: Seq<char>)
    ensures
        "crate::"@.is_prefix_of(derived_module_path(output_path)),
        !derived_module_path(output_path).contains('/'),
        !derived_module_path(output_path).contains('\\'),
{
    reveal_strlit("crate::");
    reveal_strlit("::");
    let stripped = trim_start_all(trim_start_all(output_path, "src/"@), "src\\"@);
    let a = replace_all(stripped, seq!['\\'], "::"@);
    let b = replace_all(a, seq!['/'], "::"@);
    let d = derived_module_path(output_path);
    assert(d == "crate::"@ + b);
    assert(d.subrange(0, 7) =~= "crate::"@);
    lemma_replace_char_contains(stripped, '\\', "::"@, '\\');
    lemma_replace_char_contains(a, '/', "::"@, '/');
    lemma_replace_char_contains(a, '/', "::"@, '\\');
    assert(!"::"@.contains('/'));
    assert(!"::"@.contains('\\'));
    assert forall|k: int| 0 <= k < d.len() implies d[k] != '/' && d[k] != '\\' by {
        if k >= 7 {
            assert(d[k] == b[k - 7]);
            assert(b.contains(b[k - 7]));
        }
    }
}

// ---------------------------------------------------------------------------
// Lock file
// ---------------------------------------------------------------------------

/// The lock as a map from each component name to the version installed.
pub open spec fn entry_map(es: Seq<(Seq<char>, Seq<char>)>) -> Map<Seq<char>, Seq<char>>
    decreases es.len(),
{
    if es.len() == 0 {
        Map::empty()
    } else {
        entry_map(es.drop_last()).insert(es.last().0, es.last().1)
    }
}

/// No name occurs twice among the entries.
pub open spec fn unique_names(es: Seq<(Seq<char>, Seq<char>)>) -> bool {
    forall|i: int, j: int| 0 <= i < j < es.len() ==> es[i].0 != es[j].0
}

/// Installed version of each component, as written to `yei.lock`.
#[derive(Debug)]
pub struct LockFile {
    components: Vec<(String, String)>,
}

impl LockFile {
    /// The entries, in the order they were first recorded.
    pub closed spec fn entries(&self) -> Seq<(Seq<char>, Seq<char>)> {
        self.components@.map_values(|e: (String, String)| (e.0@, e.1@))
    }

    /// Each component is recorded once.
    #[verifier::type_invariant]
    spec fn wf(self) -> bool {
        unique_names(self.entries())
    }
}

impl View for LockFile {
    type V = Map<Seq<char>, Seq<char>>;

    closed spec fn view(&self) -> Map<Seq<char>, Seq<char>> {
        entry_map(self.entries())
    }
}

/// The names in a list of entries.
pub open spec fn entry_names(es: Seq<(Seq<char>, Seq<char>)>) -> Seq<Seq<char>> {
    es.map_values(|e: (Seq<char>, Seq<char>)| e.0)
}

/// The map of entries holds exactly their names, each with its version.
pub proof fn lemma_entry_map(es: Seq<(Seq<char>, Seq<char>)>)
    requires
        unique_names(es),
    ensures
        forall|k: Seq<char>| #[trigger]
            entry_map(es).contains_key(k) <==> entry_names(es).contains(k),
        forall|i: int| 0 <= i < es.len() ==> #[trigger] entry_map(es)[es[i].0] == es[i].1,
        entry_map(es).dom().finite(),
        entry_map(es).dom().len() == es.len(),
    decreases es.len(),
{
    if es.len() > 0 {
        let init = es.drop_last();
        lemma_entry_map(init);
        assert forall|k: Seq<char>| #[trigger]
            entry_map(es).contains_key(k) <==> entry_names(es).contains(k) by {
            if k == es.last().0 {
                assert(entry_names(es)[es.len() - 1] == k);
            } else {
                assert(entry_map(es).contains_key(k) == entry_map(init).contains_key(k));
                if entry_names(init).contains(k) {
                    let m = choose|m: int|
                        0 <= m < entry_names(init).len() && entry_names(init)[m] == k;
                    assert(entry_names(es)[m] == k);
                }
                if entry_names(es).contains(k) {
                    let m = choose|m: int| 0 <= m < entry_names(es).len() && entry_names(es)[m] == k;
                    assert(m < init.len());
                    assert(entry_names(init)[m] == k);
                }
            }
        }
        assert forall|i: int| 0 <= i < es.len() implies #[trigger] entry_map(es)[es[i].0]
            == es[i].1 by {
            if i < init.len() {
                assert(init[i] == es[i]);
                assert(es[i].0 != es.last().0);
            }
        }
        assert(!entry_names(init).contains(es.last().0)) by {
            if entry_names(init).contains(es.last().0) {
                let m = choose|m: int|
                    0 <= m < entry_names(init).len() && entry_names(init)[m] == es.last().0;
                assert(es[m].0 == es[es.len() - 1].0);
            }
        }
    }
}

/// Position of `name` among the entries.
fn position(components: &Vec<(String, String)>, name: &str) -> (res: Option<usize>)
    ensures
        match res {
            Some(i) => i < components.len() && components@[i as int].0@ == name@,
            None => forall|i: int| 0 <= i < components.len() ==> components@[i].0@ != name@,
        },
{
    let mut i: usize = 0;
    while i < components.len()
        invariant
            i <= components.len(),
            forall|k: int| 0 <= k < i ==> components@[k].0@ != name@,
        decreases components.len() - i,
    {
        if text_eq(components[i].0.as_str(), name) {
            return Some(i);
        }
        i += 1;
    }
    None
}

impl LockFile {
    /// A lock with no component.
    pub fn new() -> (res: Self)
        ensures
            res@ == Map::<Seq<char>, Seq<char>>::empty(),
    {
        let res = LockFile { components: Vec::new() };
        assert(res.entries() =~= Seq::<(Seq<char>, Seq<char>)>::empty());
        res
    }

    /// Number of components recorded.
    pub fn len(&self) -> (res: usize)
        ensures
            res == self@.dom().len(),
    {
        proof {
            use_type_invariant(self);
            lemma_entry_map(self.entries());
        }
        self.components.len()
    }

    /// Whether no component is recorded.
    pub fn is_empty(&self) -> (res: bool)
        ensures
            res == (self@.dom().len() == 0),
    {
        self.len() == 0
    }

    /// Whether component `name` is recorded.
    pub fn contains_key(&self, name: &str) -> (res: bool)
        ensures
            res == self@.contains_key(name@),
    {
        proof {
            use_type_invariant(self);
            lemma_entry_map(self.entries());
        }
        match position(&self.components, name) {
            Some(i) => {
                assert(entry_names(self.entries())[i as int] == name@);
                true
            },
            None => {
                assert(!entry_names(self.entries()).contains(name@)) by {
                    if entry_names(self.entries()).contains(name@) {
                        let m = choose|m: int|
                            0 <= m < entry_names(self.entries()).len() && entry_names(
                                self.entries(),
                            )[m] == name@;
                        assert(self.components@[m].0@ == name@);
                    }
                }
                false
            },
        }
    }

    /// The version recorded for component `name`.
    pub fn get(&self, name: &str) -> (res: Option<String>)
        ensures
            match res {
                Some(v) => self@.contains_key(name@) && v@ == self@[name@],
                None => !self@.contains_key(name@),
            },
    {
        proof {
            use_type_invariant(self);
            lemma_entry_map(self.entries());
        }
        match position(&self.components, name) {
            Some(i) => {
                assert(entry_names(self.entries())[i as int] == name@);
                assert(self.entries()[i as int].0 == name@);
                Some(self.components[i].1.clone())
            },
            None => {
                assert(!entry_names(self.entries()).contains(name@)) by {
                    if entry_names(self.entries()).contains(name@) {
                        let m = choose|m: int|
                            0 <= m < entry_names(self.entries()).len() && entry_names(
                                self.entries(),
                            )[m] == name@;
                        assert(self.components@[m].0@ == name@);
                    }
                }
                None
            },
        }
    }

    /// Records `version` for component `name`, replacing any version recorded
    /// before; returns that earlier version.
    pub fn insert(&mut self, name: String, version: String) -> (res: Option<String>)
        ensures
            final(self)@ == old(self)@.insert(name@, version@),
            match res {
                Some(v) => old(self)@.contains_key(name@) && v@ == old(self)@[name@],
                None => !old(self)@.contains_key(name@),
            },
    {
        proof { use_type_invariant(&*self); }
        let ghost es = self.entries();
        let ghost old_view = self@;
        proof { lemma_entry_map(es); }
        let mut comps: Vec<(String, String)> = Vec::new();
        std::mem::swap(&mut comps, &mut self.components);
        assert(comps@.map_values(|e: (String, String)| (e.0@, e.1@)) =~= es);
        let res = match position(&comps, name.as_str()) {
            Some(i) => {
                let ghost key = name@;
                assert(es[i as int].0 == key);
                let previous = comps[i].1.clone();
                comps.set(i, (name, version));
                let ghost es2 = comps@.map_values(|e: (String, String)| (e.0@, e.1@));
                assert(es2 =~= es.update(i as int, (key, version@)));
                assert(unique_names(es2)) by {
                    assert forall|a: int, b: int| 0 <= a < b < es2.len() implies es2[a].0
                        != es2[b].0 by {
                        assert(es2[a].0 == es[a].0 && es2[b].0 == es[b].0);
                    }
                }
                proof {
                    lemma_entry_map(es2);
                    assert(entry_names(es2) =~= entry_names(es));
                    assert(entry_names(es)[i as int] == key);
                    assert forall|k: Seq<char>| #[trigger]
                        entry_map(es2).contains_key(k) <==> entry_map(es).insert(
                            key,
                            version@,
                        ).contains_key(k) by {
                        assert(entry_map(es2).contains_key(k) <==> entry_names(es2).contains(k));
                        assert(entry_map(es).contains_key(k) <==> entry_names(es).contains(k));
                    }
                    assert forall|k: Seq<char>| #[trigger] entry_map(es2).contains_key(k) implies entry_map(
                        es2,
                    )[k] == entry_map(es).insert(key, version@)[k] by {
                        let m = choose|m: int|
                            0 <= m < entry_names(es2).len() && entry_names(es2)[m] == k;
                        assert(entry_map(es2)[es2[m].0] == es2[m].1);
                        if m != i {
                            assert(entry_map(es)[es[m].0] == es[m].1);
                        }
                    }
                    assert(entry_map(es2) =~= entry_map(es).insert(key, version@));
                }
                Some(previous)
            },
            None => {
                assert(!entry_names(es).contains(name@)) by {
                    if entry_names(es).contains(name@) {
                        let m = choose|m: int|
                            0 <= m < entry_names(es).len() && entry_names(es)[m] == name@;
                        assert(comps@[m].0@ == name@);
                    }
                }
                let ghost key = name@;
                comps.push((name, version));
                let ghost es2 = comps@.map_values(|e: (String, String)| (e.0@, e.1@));
                assert(es2 =~= es.push((key, version@)));
                assert(es2.drop_last() =~= es);
                assert(unique_names(es2)) by {
                    assert forall|a: int, b: int| 0 <= a < b < es2.len() implies es2[a].0
                        != es2[b].0 by {
                        if b == es.len() {
                            assert(entry_names(es)[a] == es[a].0);
                        }
                    }
                }
                None
            },
        };
        self.components = comps;
        assert(self.entries() =~= comps@.map_values(|e: (String, String)| (e.0@, e.1@)));
        res
    }

    /// The names of the recorded components, each once.
    pub fn names(&self) -> (res: Vec<String>)
        ensures
            texts(res@).no_duplicates(),
            forall|k: Seq<char>| #[trigger] texts(res@).contains(k) <==> self@.contains_key(k),
    {
        proof {
            use_type_invariant(self);
            lemma_entry_map(self.entries());
        }
        let mut res: Vec<String> = Vec::new();
        let mut i: usize = 0;
        while i < self.components.len()
            invariant
                i <= self.components.len(),
                texts(res@) == entry_names(self.entries()).take(i as int),
            decreases self.components.len() - i,
        {
            let ghost before = res@;
            res.push(self.components[i].0.clone());
            assert(texts(res@) =~= texts(before).push(self.components@[i as int].0@));
            assert(entry_names(self.entries())[i as int] == self.components@[i as int].0@);
            assert(entry_names(self.entries()).take(i + 1) =~= entry_names(self.entries()).take(
                i as int,
            ).push(entry_names(self.entries())[i as int]));
            assert(texts(res@) =~= entry_names(self.entries()).take(i + 1));
            i += 1;
        }
        assert(entry_names(self.entries()).take(i as int) =~= entry_names(self.entries()));
        proof { use_type_invariant(self); }
        assert(texts(res@).no_duplicates()) by {
            assert forall|a: int, b: int| 0 <= a < texts(res@).len() && 0 <= b < texts(res@).len()
                && a != b implies texts(res@)[a] != texts(res@)[b] by {
                if a < b {
                    assert(self.entries()[a].0 != self.entries()[b].0);
                } else {
                    assert(self.entries()[b].0 != self.entries()[a].0);
                }
            }
        }
        res
    }
}

impl Default for LockFile {
    fn default() -> (res: Self)
        ensures
            res@ == Map::<Seq<char>, Seq<char>>::empty(),
    {
        LockFile::new()
    }
}

/// A read of the lock gives back what the last write wrote for that name, and
/// a write changes no other name.
pub proof fn law_lock_read_after_write(
    before: Map<Seq<char>, Seq<char>>,
    name: Seq<char>,
    version: Seq<char>,
    other: Seq<char>,
)
    requires
        other != name,
    ensures
        before.insert(name, version).contains_key(name),
        before.insert(name, version)[name] == version,
        before.insert(name, version).contains_key(other) == before.contains_key(other),
        before.contains_key(other) ==> before.insert(name, version)[other] == before[other],
{
}

} // verus!
