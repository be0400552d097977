//! Logic of `yei add`: request parsing, import
//! rewriting and the entries written next to an installed component.

use vstd::prelude::*;
use crate::config::{effective_path, Config, LockFile};
use crate::registry::{is_latest, texts, CargoDep, Client, Registry};
use crate::text::{
    chars_of, contains, contains_text, law_replace_first, lemma_occurs_between, string_from, occurs_at, replace_all, replace_chars, string_of, string_take, text_eq,
};

verus! {

broadcast use vstd::string::group_string_axioms;

// ---------------------------------------------------------------------------
// Requests
// ---------------------------------------------------------------------------

/// The component name in a request `name` or `name@version`: everything
/// before the first `@`.
pub open spec fn name_part(raw: Seq<char>) -> Seq<char> {
    match raw.index_of_first('@') {
        Some(i) => raw.take(i),
        None => raw,
    }
}

/// The component name of a request such as `button` or `button@0.1.0`.
pub fn parse_name(raw: &str) -> (res: String)
    ensures
        res@ == name_part(raw@),
{
    let v = chars_of(raw);
    proof { v@.index_of_first_ensures('@'); }
    let mut i: usize = 0;
    while i < v.len()
        invariant
            i <= v.len(),
            v@ == raw@,
            forall|k: int| 0 <= k < i ==> v@[k] != '@',
        decreases v.len() - i,
    {
        if v[i] == '@' {
            assert(v@.index_of_first('@') == Some(i as int)) by {
                v@.index_of_first_ensures('@');
                if v@.index_of_first('@') is None {
                    assert(v@.contains('@'));
                }
            }
            return string_take(&v, i);
        }
        i += 1;
    }
    assert(!v@.contains('@'));
    assert(v@.take(v.len() as int) =~= v@);
    string_take(&v, v.len())
}

/// The version that a request `name@version` pins: everything after the first
/// `@`; none for a request without `@`.
pub open spec fn version_part(raw: Seq<char>) -> Option<Seq<char>> {
    match raw.index_of_first('@') {
        Some(i) => Some(raw.skip(i + 1)),
        None => None,
    }
}

/// The version pinned by a request such as `button@0.1.0`, if any.
pub fn parse_version(raw: &str) -> (res: Option<String>)
    ensures
        match res {
            Some(v) => version_part(raw@) == Some(v@),
            None => version_part(raw@) is None,
        },
{
    let v = chars_of(raw);
    proof { v@.index_of_first_ensures('@'); }
    let mut i: usize = 0;
    while i < v.len()
        invariant
            i <= v.len(),
            v@ == raw@,
            forall|k: int| 0 <= k < i ==> v@[k] != '@',
        decreases v.len() - i,
    {
        if v[i] == '@' {
            assert(v@.index_of_first('@') == Some(i as int)) by {
                v@.index_of_first_ensures('@');
                if v@.index_of_first('@') is None {
                    assert(v@.contains('@'));
                }
            }
            return Some(string_from(&v, i + 1));
        }
        i += 1;
    }
    assert(!v@.contains('@'));
    None
}

/// A request's name holds no `@`, and it is the longest prefix of the request
/// that holds none: the request ends there or goes on with `@`.
pub proof fn lemma_name_part_shape(raw: Seq<char>)
    ensures
        name_part(raw).is_prefix_of(raw),
        !name_part(raw).contains('@'),
        name_part(raw).len() == raw.len() || raw[name_part(raw).len() as int] == '@',
{
    raw.index_of_first_ensures('@');
    match raw.index_of_first('@') {
        Some(i) => {
            assert(raw.take(i) =~= raw.subrange(0, i));
        },
        None => {
            assert(raw =~= raw.subrange(0, raw.len() as int));
        },
    }
}

/// Taking the name of a name changes nothing.
pub proof fn lemma_name_part_idempotent(raw: Seq<char>)
    ensures
        name_part(name_part(raw)) == name_part(raw),
{
    lemma_name_part_shape(raw);
    name_part(raw).index_of_first_ensures('@');
}

/// A request `name@version`, where `name` holds no `@`, names `name` and
/// pins `version`.
pub proof fn lemma_name_part_of_pinned(name: Seq<char>, version: Seq<char>)
    requires
        !name.contains('@'),
    ensures
        name_part(name + seq!['@'] + version) == name,
        version_part(name + seq!['@'] + version) == Some(version),
{
    let raw = name + seq!['@'] + version;
    lemma_name_part_shape(raw);
    let n = name_part(raw);
    assert(raw[name.len() as int] == '@');
    if n.len() > name.len() {
        assert(n[name.len() as int] == '@');
    } else if n.len() < name.len() {
        assert(raw[n.len() as int] == name[n.len() as int]);
        assert(name.contains(name[n.len() as int]));
    }
    assert(n =~= name);
    raw.index_of_first_ensures('@');
    assert(raw.skip((name.len() + 1) as int) =~= version);
}

// ---------------------------------------------------------------------------
// Import rewriting
// ---------------------------------------------------------------------------

/// The module path that component sources on the registry import from.
pub open spec fn registry_mod_path() -> Seq<char> {
    "crate::components"@
}

/// A component source with its registry imports pointed at `mod_path`.
pub open spec fn rewritten_imports(source: Seq<char>, mod_path: Seq<char>) -> Seq<char> {
    if mod_path == registry_mod_path() {
        source
    } else {
        replace_all(source, "use crate::components::"@, "use "@ + mod_path + "::"@)
    }
}

/// Replaces the registry's module path in `use crate::components::` imports
/// with the user's `mod_path`.
pub fn rewrite_imports(source: String, mod_path: &str) -> (res: String)
    ensures
        res@ == rewritten_imports(source@, mod_path@),
{
    if text_eq(mod_path, "crate::components") {
        return source;
    }
    let from = chars_of("use crate::components::");
    proof { reveal_strlit("use crate::components::"); }
    let mut to_text = String::from_str("use ");
    to_text.append(mod_path);
    to_text.append("::");
    let to = chars_of(to_text.as_str());
    let src = chars_of(source.as_str());
    let out = replace_chars(&src, &from, &to);
    string_of(&out)
}

/// Imports are left as they are only for the registry's own module path;
/// for every other module path `m`, every `use crate::components::` import,
/// taken left to right, becomes `use m::`.
pub proof fn law_rewrite_imports(source: Seq<char>, mod_path: Seq<char>)
    ensures
        mod_path == "crate::components"@ ==> rewritten_imports(source, mod_path) == source,
        mod_path != "crate::components"@ ==> rewritten_imports(source, mod_path) == replace_all(
            source,
            "use crate::components::"@,
            "use "@ + mod_path + "::"@,
        ),
{
}

/// For a module path `m` other than the registry's, the first
/// `use crate::components::` import of a source becomes `use m::`, the text
/// before it is kept, and the rest is rewritten in turn.
pub proof fn law_rewrite_first_import(a: Seq<char>, b: Seq<char>, mod_path: Seq<char>)
    requires
        mod_path != "crate::components"@,
        forall|j: int|
            0 <= j < a.len() ==> !occurs_at(a + "use crate::components::"@ + b, "use crate::components::"@, j),
    ensures
        rewritten_imports(a + "use crate::components::"@ + b, mod_path) == a + ("use "@ + mod_path
            + "::"@) + rewritten_imports(b, mod_path),
{
    reveal_strlit("use crate::components::");
    law_replace_first(a, "use crate::components::"@, b, "use "@ + mod_path + "::"@);
}

/// Replacing a pattern by itself leaves every text unchanged; so a module
/// path equal to the registry's leaves sources as they are either way.
pub proof fn lemma_replace_same(s: Seq<char>, p: Seq<char>)
    ensures
        replace_all(s, p, p) == s,
    decreases s.len(),
{
    if s.len() == 0 {
    } else if p.len() > 0 && p.is_prefix_of(s) {
        lemma_replace_same(s.skip(p.len() as int), p);
        assert(p + s.skip(p.len() as int) =~= s);
    } else {
        lemma_replace_same(s.drop_first(), p);
        assert(seq![s[0]] + s.drop_first() =~= s);
    }
}

/// A text in which the pattern does not occur is left unchanged.
pub proof fn lemma_replace_absent(s: Seq<char>, from: Seq<char>, to: Seq<char>)
    requires
        !contains_text(s, from),
    ensures
        replace_all(s, from, to) == s,
    decreases s.len(),
{
    if s.len() == 0 {
    } else {
        if from.len() > 0 && from.is_prefix_of(s) {
            assert(occurs_at(s, from, 0));
        }
        assert forall|i: int| !occurs_at(s.drop_first(), from, i) by {
            if occurs_at(s.drop_first(), from, i) {
                assert(s.drop_first().subrange(i, i + from.len()) =~= s.subrange(i + 1, i + 1
                    + from.len()));
                assert(occurs_at(s, from, i + 1));
            }
        }
        lemma_replace_absent(s.drop_first(), from, to);
        assert(seq![s[0]] + s.drop_first() =~= s);
    }
}

// ---------------------------------------------------------------------------
// Installing one component
// ---------------------------------------------------------------------------

/// How a version is shown after a component name: nothing for `latest`,
/// `@version` otherwise.
pub fn version_suffix(version: &str) -> (res: String)
    ensures
        res@ == if is_latest(version@) {
            Seq::<char>::empty()
        } else {
            "@"@ + version@
        },
{
    if text_eq(version, "latest") {
        String::new()
    } else {
        let mut res = String::from_str("@");
        res.append(version);
        res
    }
}

/// Name of the file that holds component `name`.
pub fn component_file_name(name: &str) -> (res: String)
    ensures
        res@ == name@ + ".rs"@,
{
    let mut res = String::from_str(name);
    res.append(".rs");
    res
}

/// The declaration of component module `name`.
pub open spec fn mod_decl(name: Seq<char>) -> Seq<char> {
    "pub mod "@ + name + ";"@
}

/// The line appended to `mod.rs` for component `name`.
pub fn mod_line(name: &str) -> (res: String)
    ensures
        res@ == mod_decl(name@) + "\n"@,
{
    let mut res = String::from_str("pub mod ");
    res.append(name);
    res.append(";");
    res.append("\n");
    res
}

/// Whether `mod.rs` with contents `existing` still lacks the declaration of
/// component `name`.
pub fn needs_mod_entry(existing: &str, name: &str) -> (res: bool)
    ensures
        res == !contains_text(existing@, mod_decl(name@)),
{
    let mut decl = String::from_str("pub mod ");
    decl.append(name);
    decl.append(";");
    !contains(&chars_of(existing), &chars_of(decl.as_str()))
}

/// Appending the line of a component to `mod.rs` is done once: afterwards
/// the declaration is there.
pub proof fn law_mod_entry_once(existing: Seq<char>, name: Seq<char>)
    ensures
        contains_text(existing + (mod_decl(name) + "\n"@), mod_decl(name)),
{
    lemma_occurs_between(existing, mod_decl(name), "\n"@);
    assert(existing + (mod_decl(name) + "\n"@) =~= existing + mod_decl(name) + "\n"@);
}

/// Debug rendering of a list of strings, as `format!("{:?}", ..)` writes it.
pub uninterp spec fn debug_list(items: Seq<Seq<char>>) -> Seq<char>;

/// Renders a list of strings with `Debug` (`["a", "b"]`).
#[verifier::external_body]
fn debug_strings(items: &Vec<String>) -> (res: String)
    ensures
        res@ == debug_list(texts(items@)),
{
    format!("{:?}", items)
}

/// The `Cargo.toml` line for a crate with its version, given whether it has
/// features and how its feature list renders.
pub open spec fn dep_line_rendered(
    name: Seq<char>,
    version: Seq<char>,
    has_features: bool,
    rendered: Seq<char>,
) -> Seq<char> {
    if !has_features {
        name + " = \""@ + version + "\""@
    } else {
        name + " = { version = \""@ + version + "\", features = "@ + rendered + " }"@
    }
}

/// The `Cargo.toml` line for a crate with its version and features.
pub open spec fn dep_line(name: Seq<char>, version: Seq<char>, features: Seq<Seq<char>>) -> Seq<
    char,
> {
    dep_line_rendered(name, version, features.len() > 0, debug_list(features))
}

/// The `Cargo.toml` line for crate `name` at `version`: with the rendered
/// feature list `rendered` when it has features, the bare version otherwise.
pub fn format_dep_line(name: &str, version: &str, has_features: bool, rendered: &str) -> (res:
    String)
    ensures
        res@ == dep_line_rendered(name@, version@, has_features, rendered@),
{
    let mut res = String::from_str(name);
    if !has_features {
        res.append(" = \"");
        res.append(version);
        res.append("\"");
    } else {
        res.append(" = { version = \"");
        res.append(version);
        res.append("\", features = ");
        res.append(rendered);
        res.append(" }");
    }
    res
}

/// The `Cargo.toml` line that a component's crate dependency needs.
pub fn cargo_dep_line(dep: &CargoDep) -> (res: String)
    ensures
        res@ == dep_line(dep.name@, dep.version@, texts(dep.features@)),
{
    let rendered = debug_strings(&dep.features);
    format_dep_line(dep.name.as_str(), dep.version.as_str(), dep.features.len() > 0, rendered.as_str())
}

/// The `Cargo.toml` lines printed after installing component `name`: one per
/// crate dependency of the first component of that name in the registry, none
/// when the registry has no such component.
pub fn cargo_dep_lines(registry: &Registry, name: &str) -> (res: Vec<String>)
    ensures
        match registry.find_first(name@) {
            Some(i) => res@.len() == registry.components@[i].cargo_deps@.len() && forall|k: int|
                0 <= k < res@.len() ==> #[trigger] res@[k]@ == dep_line(
                    registry.components@[i].cargo_deps@[k].name@,
                    registry.components@[i].cargo_deps@[k].version@,
                    texts(registry.components@[i].cargo_deps@[k].features@),
                ),
            None => res@.len() == 0,
        },
{
    let mut res: Vec<String> = Vec::new();
    let found = registry.find_component(name);
    proof { registry.lemma_find_first(name@, found); }
    match found {
        Some(c) => {
            let deps = &registry.components[c].cargo_deps;
            let mut k: usize = 0;
            while k < deps.len()
                invariant
                    k <= deps.len(),
                    deps == &registry.components@[c as int].cargo_deps,
                    res@.len() == k,
                    forall|j: int|
                        0 <= j < k ==> #[trigger] res@[j]@ == dep_line(
                            deps@[j].name@,
                            deps@[j].version@,
                            texts(deps@[j].features@),
                        ),
                decreases deps.len() - k,
            {
                res.push(cargo_dep_line(&deps[k]));
                k += 1;
            }
        },
        None => {},
    }
    res
}

// ---------------------------------------------------------------------------
// The steps of installing one component
// ---------------------------------------------------------------------------

/// The first step of installing a component.
#[derive(Debug)]
pub enum InstallStart {
    /// The lock already holds the component: nothing to do.
    AlreadyInstalled,
    /// Fetch the component's source from this address.
    Fetch(String),
}

/// The first step of installing component `name` at `version`: nothing when
/// the lock holds it, else fetch its source.
pub fn begin_install(lock: &LockFile, client: &Client, name: &str, version: &str) -> (res:
    InstallStart)
    ensures
        match res {
            InstallStart::AlreadyInstalled => lock@.contains_key(name@),
            InstallStart::Fetch(url) => !lock@.contains_key(name@) && url@ == client.component_url_of(
                name@,
                version@,
            ),
        },
{
    if lock.contains_key(name) {
        InstallStart::AlreadyInstalled
    } else {
        InstallStart::Fetch(client.component_url(name, version))
    }
}

/// The lock after one install step of `yei add` (`begin_install`, then
/// `finish_install` when it asks for a fetch): unchanged when it holds
/// `name`, else with `name` at `version`.
pub open spec fn after_install(
    lock: Map<Seq<char>, Seq<char>>,
    name: Seq<char>,
    version: Seq<char>,
) -> Map<Seq<char>, Seq<char>> {
    if lock.contains_key(name) {
        lock
    } else {
        lock.insert(name, version)
    }
}

/// The two install steps together change the lock as `after_install` says.
pub proof fn law_install_step(
    before: Map<Seq<char>, Seq<char>>,
    after: Map<Seq<char>, Seq<char>>,
    name: Seq<char>,
    version: Seq<char>,
    fetched: bool,
)
    requires
        fetched == !before.contains_key(name),
        fetched ==> after == before.insert(name, version),
        !fetched ==> after == before,
    ensures
        after == after_install(before, name, version),
{
}

/// What installing one component writes.
pub struct InstallFiles {
    /// Name of the component's file, in the output directory.
    pub file_name: String,
    /// The component's source, its imports pointed at the project's module path.
    pub source: String,
    /// The line to append to `mod.rs`, when that file exists and lacks it.
    pub mod_entry: Option<String>,
}

/// The last step of installing component `name` at `version`, once its
/// `source` is fetched: records it in the lock and gives what to write.
/// `mod_rs` is the contents of `mod.rs` in the output directory, if it exists.
pub fn finish_install(
    lock: &mut LockFile,
    config: &Config,
    name: &str,
    version: &str,
    source: String,
    mod_rs: Option<&str>,
) -> (res: InstallFiles)
    ensures
        final(lock)@ == old(lock)@.insert(name@, version@),
        res.file_name@ == name@ + ".rs"@,
        res.source@ == rewritten_imports(
            source@,
            effective_path(config.mod_path@, config.output_path@),
        ),
        match mod_rs {
            Some(existing) => if contains_text(existing@, mod_decl(name@)) {
                res.mod_entry is None
            } else {
                res.mod_entry matches Some(line) && line@ == mod_decl(name@) + "\n"@
            },
            None => res.mod_entry is None,
        },
{
    let path = config.effective_module_path();
    let rewritten = rewrite_imports(source, path.as_str());
    lock.insert(String::from_str(name), String::from_str(version));
    let mod_entry = match mod_rs {
        Some(existing) => {
            if needs_mod_entry(existing, name) {
                Some(mod_line(name))
            } else {
                None
            }
        },
        None => None,
    };
    InstallFiles { file_name: component_file_name(name), source: rewritten, mod_entry }
}

// ---------------------------------------------------------------------------
// Upgrading
// ---------------------------------------------------------------------------

/// One component to upgrade: where its newest source is, and its file.
pub struct UpgradeItem {
    pub name: String,
    /// Address of the component's `latest` source.
    pub url: String,
    /// Name of the component's file in the output directory.
    pub file_name: String,
}

/// The names of the components to upgrade.
pub open spec fn upgrade_names(items: Seq<UpgradeItem>) -> Seq<Seq<char>> {
    items.map_values(|u: UpgradeItem| u.name@)
}

/// What `yei upgrade` fetches: every component in the lock, once each, from
/// its `latest` address, into its file.
pub fn upgrade_plan(lock: &LockFile, client: &Client) -> (res: Vec<UpgradeItem>)
    ensures
        upgrade_names(res@).no_duplicates(),
        forall|n: Seq<char>|
            #[trigger] upgrade_names(res@).contains(n) <==> lock@.contains_key(n),
        forall|k: int|
            0 <= k < res@.len() ==> {
                &&& (#[trigger] res@[k]).url@ == client.component_url_of(res@[k].name@, "latest"@)
                &&& res@[k].file_name@ == res@[k].name@ + ".rs"@
            },
{
    let names = lock.names();
    let mut res: Vec<UpgradeItem> = Vec::new();
    let mut i: usize = 0;
    while i < names.len()
        invariant
            i <= names.len(),
            res@.len() == i,
            forall|k: int| 0 <= k < i ==> (#[trigger] res@[k]).name@ == names@[k]@,
            forall|k: int|
                0 <= k < i ==> {
                    &&& (#[trigger] res@[k]).url@ == client.component_url_of(
                        res@[k].name@,
                        "latest"@,
                    )
                    &&& res@[k].file_name@ == res@[k].name@ + ".rs"@
                },
        decreases names.len() - i,
    {
        let name = names[i].clone();
        let url = client.component_url(name.as_str(), "latest");
        let file_name = component_file_name(name.as_str());
        res.push(UpgradeItem { name, url, file_name });
        i += 1;
    }
    assert(upgrade_names(res@) =~= texts(names@));
    res
}

/// Records that component `name` is now at `latest`.
pub fn record_upgrade(lock: &mut LockFile, name: &str)
    ensures
        final(lock)@ == old(lock)@.insert(name@, "latest"@),
{
    lock.insert(String::from_str(name), String::from_str("latest"));
}

/// The lock after recording the upgrade of each of `names`, in order.
pub open spec fn lock_after_upgrade(
    lock: Map<Seq<char>, Seq<char>>,
    names: Seq<Seq<char>>,
) -> Map<Seq<char>, Seq<char>>
    decreases names.len(),
{
    if names.len() == 0 {
        lock
    } else {
        lock_after_upgrade(lock.insert(names[0], "latest"@), names.drop_first())
    }
}

/// Recording upgrades keeps the other names and puts each upgraded one at
/// `latest`.
proof fn lemma_lock_after_upgrade(lock: Map<Seq<char>, Seq<char>>, names: Seq<Seq<char>>)
    ensures
        forall|n: Seq<char>| #[trigger]
            lock_after_upgrade(lock, names).contains_key(n) <==> (lock.contains_key(n)
                || names.contains(n)),
        forall|n: Seq<char>|
            names.contains(n) ==> #[trigger] lock_after_upgrade(lock, names)[n] == "latest"@,
        forall|n: Seq<char>|
            !names.contains(n) && lock.contains_key(n) ==> #[trigger] lock_after_upgrade(
                lock,
                names,
            )[n] == lock[n],
    decreases names.len(),
{
    if names.len() > 0 {
        let rest = names.drop_first();
        let next = lock.insert(names[0], "latest"@);
        lemma_lock_after_upgrade(next, rest);
        assert forall|n: Seq<char>| names.contains(n) <==> (n == names[0] || rest.contains(n)) by {
            if names.contains(n) && n != names[0] {
                let k = choose|k: int| 0 <= k < names.len() && names[k] == n;
                assert(rest[k - 1] == n);
            }
            if rest.contains(n) {
                let k = choose|k: int| 0 <= k < rest.len() && rest[k] == n;
                assert(names[k + 1] == n);
            }
            if n == names[0] {
                assert(names[0] == n);
            }
        }
        let result = lock_after_upgrade(lock, names);
        assert(result == lock_after_upgrade(next, rest));
        assert forall|n: Seq<char>| names.contains(n) implies #[trigger] result[n] == "latest"@ by {
            if !rest.contains(n) {
                assert(n == names[0]);
                assert(next.contains_key(n));
            }
        }
        assert forall|n: Seq<char>| !names.contains(n) && lock.contains_key(n) implies #[trigger] result[n]
            == lock[n] by {
            assert(!rest.contains(n));
            assert(n != names[0]) by {
                assert(names[0] == names[0]);
                if n == names[0] {
                    assert(names.contains(names[0]));
                }
            }
            assert(next.contains_key(n));
        }
    }
}

/// After `yei upgrade` records every component of the lock, the lock holds
/// the same components, each at `latest`.
pub proof fn law_upgrade_all(lock: Map<Seq<char>, Seq<char>>, names: Seq<Seq<char>>)
    requires
        forall|n: Seq<char>| #[trigger] names.contains(n) <==> lock.contains_key(n),
    ensures
        lock_after_upgrade(lock, names).dom() == lock.dom(),
        forall|n: Seq<char>|
            #[trigger] lock.contains_key(n) ==> lock_after_upgrade(lock, names)[n] == "latest"@,
{
    lemma_lock_after_upgrade(lock, names);
    assert(lock_after_upgrade(lock, names).dom() =~= lock.dom());
}

/// The components that `yei init` installs.
pub fn init_components() -> (res: Vec<String>)
    ensures
        texts(res@) == seq!["icons"@],
{
    let mut res: Vec<String> = Vec::new();
    res.push(String::from_str("icons"));
    assert(texts(res@) =~= seq!["icons"@]);
    res
}

} // verus!
