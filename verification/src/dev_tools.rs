//! Decisions behind the developer-tools panel: which Composer the global
//! shim runs, which Composer installations are offered, the packagist mirror
//! in Composer's configuration, and the Node.js versions nvm has installed.
use vstd::prelude::*;

use crate::service::{lowercase, to_lowercase};
use crate::store::{ComposerOption, ComposerToolInfo};
use crate::text::{
    chars_of, contains_chars, find_chars, has_prefix, is_char, is_digit, lead_count, starts_with_at, lemma_lead_count_unique, occurs_at,
    replace_char, replace_chars, str_eq, string_of, string_of_range, trim, trim_bounds,
};
use crate::tool_detect::{first_word, first_word_bounds, views};
use crate::version_order::{sort_desc, sort_versions_desc};

verus! {

/// A path or a file's text as the shim comparison sees it: `/` as `\`,
/// lower-cased.
pub open spec fn shim_form(s: Seq<char>) -> Seq<char> {
    lowercase(replace_char(s, '/', '\\'))
}

/// Whether the shim's text names this option's `composer.phar`.
pub open spec fn shim_names(content: Seq<char>, o: ComposerOption) -> bool {
    exists|i: int| occurs_at(shim_form(content), shim_form(o.phar_path@), i)
}

/// Index of the first option the shim names.
pub open spec fn first_named(content: Seq<char>, opts: Seq<ComposerOption>) -> Option<int>
    decreases opts.len(),
{
    if opts.len() == 0 {
        None
    } else {
        match first_named(content, opts.drop_last()) {
            Some(k) => Some(k),
            None => if shim_names(content, opts.last()) {
                Some(opts.len() - 1)
            } else {
                None
            },
        }
    }
}

/// A string slice that may be absent, by its characters.
pub open spec fn str_opt(s: Option<&str>) -> Option<Seq<char>> {
    match s {
        Some(t) => Some(t@),
        None => None,
    }
}

/// The active Composer: the first option whose `composer.phar` the shim's
/// text names; else (no shim, or it names none) the first option.
pub open spec fn spec_active_composer(shim: Option<Seq<char>>, opts: Seq<ComposerOption>) -> Option<
    Seq<char>,
> {
    let named = match shim {
        Some(c) => first_named(c, opts),
        None => None,
    };
    match named {
        Some(k) => Some(opts[k].version@),
        None => if opts.len() > 0 {
            Some(opts[0].version@)
        } else {
            None
        },
    }
}

proof fn lemma_first_named_prefix(c: Seq<char>, s: Seq<ComposerOption>, k: int)
    requires
        0 <= k <= s.len(),
        first_named(c, s.take(k)) is Some,
    ensures
        first_named(c, s) == first_named(c, s.take(k)),
    decreases s.len(),
{
    if k == s.len() {
        assert(s.take(k) =~= s);
    } else {
        assert(s.drop_last().take(k) =~= s.take(k));
        lemma_first_named_prefix(c, s.drop_last(), k);
    }
}

proof fn lemma_first_named_range(c: Seq<char>, s: Seq<ComposerOption>)
    ensures
        first_named(c, s) matches Some(k) ==> 0 <= k < s.len(),
    decreases s.len(),
{
    if s.len() > 0 {
        lemma_first_named_range(c, s.drop_last());
    }
}

fn shim_form_of(s: &str) -> (out: Vec<char>)
    ensures
        out@ == shim_form(s@),
{
    let r = replace_chars(chars_of(s).as_slice(), '/', '\\');
    let t = string_of(r.as_slice());
    let l = to_lowercase(t.as_str());
    chars_of(l.as_str())
}

/// The version of the Composer that the global `composer.bat` shim (its
/// text, where it could be read) runs, falling back to the first option.
pub fn active_composer_version(shim: Option<&str>, available: &[ComposerOption]) -> (r: Option<
    String,
>)
    ensures
        match spec_active_composer(str_opt(shim), available@) {
            Some(v) => r matches Some(s) && s@ == v,
            None => r is None,
        },
{
    if let Some(content) = shim {
        let c = shim_form_of(content);
        let mut i: usize = 0;
        while i < available.len()
            invariant
                i <= available.len(),
                shim == Some(content),
                c@ == shim_form(content@),
                first_named(content@, available@.take(i as int)) is None,
            decreases available.len() - i,
        {
            let p = shim_form_of(available[i].phar_path.as_str());
            proof {
                assert(available@.take(i + 1).drop_last() =~= available@.take(i as int));
                assert(available@.take(i + 1).last() == available@[i as int]);
            }
            if contains_chars(c.as_slice(), p.as_slice()) {
                proof {
                    assert(shim_names(content@, available@[i as int]));
                    assert(first_named(content@, available@.take(i + 1)) == Some(i as int));
                    lemma_first_named_prefix(content@, available@, i + 1);
                }
                return Some(available[i].version.clone());
            }
            i = i + 1;
        }
        proof {
            assert(available@.take(available.len() as int) =~= available@);
        }
    }
    if available.len() > 0 {
        Some(available[0].version.clone())
    } else {
        None
    }
}

/// A version directory name without its leading `v`s.
pub open spec fn without_v(name: Seq<char>) -> Seq<char> {
    name.skip(lead_count(name, is_char('v')) as int)
}

/// The Node.js versions nvm holds: of the entries `(name, holds node.exe)`
/// of `NVM_HOME`, those named `v...` that hold `node.exe`, without the `v`,
/// in directory order.
pub open spec fn installed_node_names(entries: Seq<(String, bool)>) -> Seq<Seq<char>>
    decreases entries.len(),
{
    if entries.len() == 0 {
        seq![]
    } else {
        let prev = installed_node_names(entries.drop_last());
        let e = entries.last();
        if e.0@.len() > 0 && e.0@[0] == 'v' && e.1 {
            prev.push(without_v(e.0@))
        } else {
            prev
        }
    }
}

fn strip_leading_v(name: &str) -> (out: String)
    ensures
        out@ == without_v(name@),
{
    let v = chars_of(name);
    let mut k: usize = 0;
    while k < v.len() && v[k] == 'v'
        invariant
            k <= v.len(),
            v@ == name@,
            forall|i: int| 0 <= i < k ==> is_char('v')(#[trigger] v@[i]),
        decreases v.len() - k,
    {
        k = k + 1;
    }
    proof {
        lemma_lead_count_unique(v@, is_char('v'), k as int);
    }
    string_of_range(v.as_slice(), k, v.len())
}

/// The installed Node.js versions, newest first (equal versions keep their
/// directory order).
pub fn node_versions(entries: &[(String, bool)]) -> (out: Vec<String>)
    ensures
        views(out@) == sort_desc(installed_node_names(entries@)),
{
    let mut names: Vec<String> = Vec::new();
    let mut i: usize = 0;
    while i < entries.len()
        invariant
            i <= entries.len(),
            views(names@) == installed_node_names(entries@.take(i as int)),
        decreases entries.len() - i,
    {
        proof {
            assert(entries@.take(i + 1).drop_last() =~= entries@.take(i as int));
            assert(entries@.take(i + 1).last() == entries@[i as int]);
        }
        let name = entries[i].0.as_str();
        let v = chars_of(name);
        if v.len() > 0 && v[0] == 'v' && entries[i].1 {
            let ghost prev = names@;
            names.push(strip_leading_v(name));
            proof {
                assert(views(names@) =~= views(prev).push(without_v(name@)));
            }
        }
        i = i + 1;
    }
    proof {
        assert(entries@.take(entries.len() as int) =~= entries@);
    }
    sort_versions_desc(names)
}

/// One element of an array-form `repositories` in Composer's
/// `config.json`: its `name` and its `url`, each where it is a string.
#[derive(Clone, Debug)]
pub struct RepoItem {
    pub name: Option<String>,
    pub url: Option<String>,
}

/// The `repositories` value of Composer's `config.json`, as far as the
/// packagist mirror is concerned.
#[derive(Clone, Debug)]
pub enum Repositories {
    /// An array of repository objects.
    List(Vec<RepoItem>),
    /// An object: each key with the `url` of its value, where that is a string.
    Object(Vec<(String, Option<String>)>),
    /// Any other JSON value.
    Other,
}

/// An optional string by its characters.
pub open spec fn opt_view(s: Option<String>) -> Option<Seq<char>> {
    match s {
        Some(t) => Some(t@),
        None => None,
    }
}

/// `repositories` as values: array items `(name, url)`, object entries
/// `(key, url)`.
pub enum RepoModel {
    List(Seq<(Option<Seq<char>>, Option<Seq<char>>)>),
    Object(Seq<(Seq<char>, Option<Seq<char>>)>),
    Other,
}

/// How `repositories` changes to point packagist at a mirror (or back to
/// the official source): keep the array items at the indices (in order)
/// and append a packagist item where a URL is given; remove the object's
/// `packagist` key and insert one where given; replace the field by an
/// object holding only a packagist entry; keep it; remove it.
pub enum WriteModel {
    List(Seq<int>, Option<Seq<char>>),
    Object(Option<Seq<char>>),
    NewObject(Seq<char>),
    Keep,
    Remove,
}

pub open spec fn item_model(it: RepoItem) -> (Option<Seq<char>>, Option<Seq<char>>) {
    (opt_view(it.name), opt_view(it.url))
}

pub open spec fn entry_model(e: (String, Option<String>)) -> (Seq<char>, Option<Seq<char>>) {
    (e.0@, opt_view(e.1))
}

pub open spec fn repos_model(r: Repositories) -> RepoModel {
    match r {
        Repositories::List(v) => RepoModel::List(v@.map_values(|it: RepoItem| item_model(it))),
        Repositories::Object(v) => RepoModel::Object(
            v@.map_values(|e: (String, Option<String>)| entry_model(e)),
        ),
        Repositories::Other => RepoModel::Other,
    }
}

/// The `repositories` field, absent or present.
pub open spec fn field_model(r: Option<Repositories>) -> Option<RepoModel> {
    match r {
        Some(x) => Some(repos_model(x)),
        None => None,
    }
}

pub open spec fn names_packagist(name: Option<Seq<char>>) -> bool {
    name == Some("packagist"@)
}

/// The `url` of the first array item named `packagist` that has one.
pub open spec fn list_url(items: Seq<(Option<Seq<char>>, Option<Seq<char>>)>) -> Option<Seq<char>>
    decreases items.len(),
{
    if items.len() == 0 {
        None
    } else {
        match list_url(items.drop_last()) {
            Some(u) => Some(u),
            None => if names_packagist(items.last().0) && items.last().1 is Some {
                items.last().1
            } else {
                None
            },
        }
    }
}

/// Index of the object entry with key `packagist`.
pub open spec fn map_index(es: Seq<(Seq<char>, Option<Seq<char>>)>) -> Option<int>
    decreases es.len(),
{
    if es.len() == 0 {
        None
    } else {
        match map_index(es.drop_last()) {
            Some(k) => Some(k),
            None => if es.last().0 == "packagist"@ {
                Some(es.len() - 1)
            } else {
                None
            },
        }
    }
}

/// The packagist mirror configured: the URL of the first array item named
/// `packagist`, or of the object entry `packagist`; none otherwise.
pub open spec fn model_url(m: Option<RepoModel>) -> Option<Seq<char>> {
    match m {
        Some(RepoModel::List(items)) => list_url(items),
        Some(RepoModel::Object(es)) => match map_index(es) {
            Some(k) => es[k].1,
            None => None,
        },
        _ => None,
    }
}

/// Indices of the array items not named `packagist`, in order.
pub open spec fn kept_indices(items: Seq<(Option<Seq<char>>, Option<Seq<char>>)>) -> Seq<int>
    decreases items.len(),
{
    if items.len() == 0 {
        seq![]
    } else {
        let p = kept_indices(items.drop_last());
        if !names_packagist(items.last().0) {
            p.push(items.len() - 1)
        } else {
            p
        }
    }
}

/// The object entries whose key is not `packagist`, in order.
pub open spec fn map_without(es: Seq<(Seq<char>, Option<Seq<char>>)>) -> Seq<
    (Seq<char>, Option<Seq<char>>),
>
    decreases es.len(),
{
    if es.len() == 0 {
        seq![]
    } else {
        let p = map_without(es.drop_last());
        if es.last().0 != "packagist"@ {
            p.push(es.last())
        } else {
            p
        }
    }
}

/// The change that points packagist at `url`, or (empty `url`) drops every
/// packagist entry and, where that leaves an empty array or object, the
/// whole field.
pub open spec fn spec_write(m: Option<RepoModel>, url: Seq<char>) -> WriteModel {
    match m {
        Some(RepoModel::List(items)) => {
            let keep = kept_indices(items);
            if url.len() > 0 {
                WriteModel::List(keep, Some(url))
            } else if keep.len() == 0 {
                WriteModel::Remove
            } else {
                WriteModel::List(keep, None)
            }
        },
        Some(RepoModel::Object(es)) => if url.len() > 0 {
            WriteModel::Object(Some(url))
        } else if map_without(es).len() == 0 {
            WriteModel::Remove
        } else {
            WriteModel::Object(None)
        },
        _ => if url.len() > 0 {
            WriteModel::NewObject(url)
        } else {
            WriteModel::Keep
        },
    }
}

/// What a change does to the `repositories` field.
pub open spec fn spec_apply(m: Option<RepoModel>, w: WriteModel) -> Option<RepoModel> {
    match w {
        WriteModel::List(keep, add) => match m {
            Some(RepoModel::List(items)) => {
                let kept = keep.map_values(|i: int| items[i]);
                Some(
                    RepoModel::List(
                        match add {
                            Some(u) => kept.push((Some("packagist"@), Some(u))),
                            None => kept,
                        },
                    ),
                )
            },
            _ => m,
        },
        WriteModel::Object(add) => match m {
            Some(RepoModel::Object(es)) => {
                let rest = map_without(es);
                Some(
                    RepoModel::Object(
                        match add {
                            Some(u) => rest.push(("packagist"@, Some(u))),
                            None => rest,
                        },
                    ),
                )
            },
            _ => m,
        },
        WriteModel::NewObject(u) => Some(RepoModel::Object(seq![("packagist"@, Some(u))])),
        WriteModel::Keep => m,
        WriteModel::Remove => None,
    }
}

fn is_packagist_name(name: &Option<String>) -> (b: bool)
    ensures
        b == names_packagist(opt_view(*name)),
{
    match name {
        Some(n) => str_eq(n.as_str(), "packagist"),
        None => false,
    }
}

fn clone_opt(s: &Option<String>) -> (r: Option<String>)
    ensures
        opt_view(r) == opt_view(*s),
{
    match s {
        Some(t) => Some(t.clone()),
        None => None,
    }
}

/// The packagist mirror that Composer's `repositories` configures (none:
/// the official source).
pub fn packagist_url(repos: &Option<Repositories>) -> (r: Option<String>)
    ensures
        opt_view(r) == model_url(field_model(*repos)),
{
    match repos {
        Some(Repositories::List(items)) => {
            let ghost m = items@.map_values(|it: RepoItem| item_model(it));
            let mut i: usize = 0;
            while i < items.len()
                invariant
                    i <= items.len(),
                    m == items@.map_values(|it: RepoItem| item_model(it)),
                    field_model(*repos) == Some(RepoModel::List(m)),
                    list_url(m.take(i as int)) is None,
                decreases items.len() - i,
            {
                proof {
                    assert(m.take(i + 1).drop_last() =~= m.take(i as int));
                    assert(m.take(i + 1).last() == item_model(items@[i as int]));
                }
                if is_packagist_name(&items[i].name) && items[i].url.is_some() {
                    proof {
                        lemma_list_url_prefix(m, i + 1);
                    }
                    return clone_opt(&items[i].url);
                }
                i = i + 1;
            }
            proof {
                assert(m.take(items.len() as int) =~= m);
            }
            None
        },
        Some(Repositories::Object(es)) => {
            let ghost m = es@.map_values(|e: (String, Option<String>)| entry_model(e));
            let mut i: usize = 0;
            while i < es.len()
                invariant
                    i <= es.len(),
                    m == es@.map_values(|e: (String, Option<String>)| entry_model(e)),
                    field_model(*repos) == Some(RepoModel::Object(m)),
                    map_index(m.take(i as int)) is None,
                decreases es.len() - i,
            {
                proof {
                    assert(m.take(i + 1).drop_last() =~= m.take(i as int));
                    assert(m.take(i + 1).last() == entry_model(es@[i as int]));
                }
                if str_eq(es[i].0.as_str(), "packagist") {
                    proof {
                        lemma_map_index_prefix(m, i + 1);
                    }
                    return clone_opt(&es[i].1);
                }
                i = i + 1;
            }
            proof {
                assert(m.take(es.len() as int) =~= m);
            }
            None
        },
        _ => None,
    }
}

proof fn lemma_list_url_prefix(s: Seq<(Option<Seq<char>>, Option<Seq<char>>)>, k: int)
    requires
        0 <= k <= s.len(),
        list_url(s.take(k)) is Some,
    ensures
        list_url(s) == list_url(s.take(k)),
    decreases s.len(),
{
    if k == s.len() {
        assert(s.take(k) =~= s);
    } else {
        assert(s.drop_last().take(k) =~= s.take(k));
        lemma_list_url_prefix(s.drop_last(), k);
    }
}

proof fn lemma_map_index_prefix(s: Seq<(Seq<char>, Option<Seq<char>>)>, k: int)
    requires
        0 <= k <= s.len(),
        map_index(s.take(k)) is Some,
    ensures
        map_index(s) == map_index(s.take(k)),
    decreases s.len(),
{
    if k == s.len() {
        assert(s.take(k) =~= s);
    } else {
        assert(s.drop_last().take(k) =~= s.take(k));
        lemma_map_index_prefix(s.drop_last(), k);
    }
}

pub proof fn lemma_kept_indices(items: Seq<(Option<Seq<char>>, Option<Seq<char>>)>)
    ensures
        forall|j: int|
            0 <= j < kept_indices(items).len() ==> 0 <= #[trigger] kept_indices(items)[j]
                < items.len() && !names_packagist(items[kept_indices(items)[j]].0),
    decreases items.len(),
{
    if items.len() > 0 {
        let d = items.drop_last();
        lemma_kept_indices(d);
        let p = kept_indices(d);
        let k = kept_indices(items);
        assert forall|j: int| 0 <= j < k.len() implies 0 <= #[trigger] k[j] < items.len()
            && !names_packagist(items[k[j]].0) by {
            if j < p.len() {
                assert(k[j] == p[j]);
                assert(items[p[j]] == d[p[j]]);
            }
        }
    }
}

proof fn lemma_list_url_none(s: Seq<(Option<Seq<char>>, Option<Seq<char>>)>)
    requires
        forall|j: int| 0 <= j < s.len() ==> !names_packagist(#[trigger] s[j].0),
    ensures
        list_url(s) is None,
    decreases s.len(),
{
    if s.len() > 0 {
        lemma_list_url_none(s.drop_last());
    }
}

proof fn lemma_map_without(es: Seq<(Seq<char>, Option<Seq<char>>)>)
    ensures
        map_index(map_without(es)) is None,
    decreases es.len(),
{
    if es.len() > 0 {
        lemma_map_without(es.drop_last());
        let p = map_without(es.drop_last());
        if es.last().0 != "packagist"@ {
            assert(p.push(es.last()).drop_last() =~= p);
        }
    }
}

/// The mirror a URL names: none (the official source) for the empty URL.
pub open spec fn mirror_of(url: Seq<char>) -> Option<Seq<char>> {
    if url.len() == 0 {
        None
    } else {
        Some(url)
    }
}

/// Reading the packagist mirror back after pointing it at `url` gives
/// `url`; after a reset (empty `url`) it gives none, the official source.
/// Whatever `repositories` held before.
pub proof fn packagist_write_then_read(m: Option<RepoModel>, url: Seq<char>)
    ensures
        model_url(spec_apply(m, spec_write(m, url))) == mirror_of(url),
{
    match m {
        Some(RepoModel::List(items)) => {
            let keep = kept_indices(items);
            let kept = keep.map_values(|i: int| items[i]);
            lemma_kept_indices(items);
            assert forall|j: int| 0 <= j < kept.len() implies !names_packagist(
                #[trigger] kept[j].0,
            ) by {
                assert(kept[j] == items[keep[j]]);
            }
            lemma_list_url_none(kept);
            if url.len() > 0 {
                let x = (Some("packagist"@), Some(url));
                assert(kept.push(x).drop_last() =~= kept);
                assert(kept.push(x).last() == x);
            }
        },
        Some(RepoModel::Object(es)) => {
            let rest = map_without(es);
            lemma_map_without(es);
            if url.len() > 0 {
                let x = ("packagist"@, Some(url));
                assert(rest.push(x).drop_last() =~= rest);
                assert(rest.push(x).last() == x);
            }
        },
        _ => {
            if url.len() > 0 {
                let one = seq![("packagist"@, Some(url))];
                assert(one.drop_last() =~= Seq::<(Seq<char>, Option<Seq<char>>)>::empty());
                assert(map_index(one.drop_last()) is None);
            }
        },
    }
}

/// A Composer that may be offered: its label (the version the system
/// install reports, or the store directory's name), the path of its
/// `composer.phar`, and whether that file exists.
#[derive(Clone, Debug)]
pub struct ComposerCandidate {
    pub label: String,
    pub phar_path: String,
    pub phar_exists: bool,
}

/// An offered Composer as values: version, source, archive path.
pub open spec fn option_model(o: ComposerOption) -> (Seq<char>, Seq<char>, Seq<char>) {
    (o.version@, o.source@, o.phar_path@)
}

/// The store's Composers: directories named `composer-<version>` whose
/// `composer.phar` exists, in directory order.
pub open spec fn store_options(dirs: Seq<ComposerCandidate>) -> Seq<(Seq<char>, Seq<char>, Seq<char>)>
    decreases dirs.len(),
{
    if dirs.len() == 0 {
        seq![]
    } else {
        let prev = store_options(dirs.drop_last());
        let d = dirs.last();
        if has_prefix(d.label@, "composer-"@) && d.phar_exists {
            prev.push((d.label@.skip("composer-"@.len() as int), "store"@, d.phar_path@))
        } else {
            prev
        }
    }
}

/// The Composers offered: the system one first, where its `composer.phar`
/// exists, then the store's.
pub open spec fn spec_composer_options(system: Option<ComposerCandidate>, store: Seq<ComposerCandidate>) -> Seq<
    (Seq<char>, Seq<char>, Seq<char>),
> {
    let head: Seq<(Seq<char>, Seq<char>, Seq<char>)> = match system {
        Some(c) => if c.phar_exists {
            seq![(c.label@, "system"@, c.phar_path@)]
        } else {
            seq![]
        },
        None => seq![],
    };
    head + store_options(store)
}

fn new_option(version: String, source: &str, phar_path: String) -> (o: ComposerOption)
    ensures
        option_model(o) == (version@, source@, phar_path@),
{
    ComposerOption { version, source: source.to_owned(), phar_path }
}

/// The Composer installations offered in the developer-tools panel.
pub fn composer_options(system: Option<ComposerCandidate>, store: &[ComposerCandidate]) -> (out: Vec<
    ComposerOption,
>)
    ensures
        out@.map_values(|o: ComposerOption| option_model(o)) == spec_composer_options(
            system,
            store@,
        ),
{
    let mut out: Vec<ComposerOption> = Vec::new();
    if let Some(c) = system {
        if c.phar_exists {
            out.push(new_option(c.label, "system", c.phar_path));
        }
    }
    let ghost head = out@.map_values(|o: ComposerOption| option_model(o));
    let pre = chars_of("composer-");
    let mut i: usize = 0;
    while i < store.len()
        invariant
            i <= store.len(),
            pre@ == "composer-"@,
            out@.map_values(|o: ComposerOption| option_model(o)) == head + store_options(
                store@.take(i as int),
            ),
        decreases store.len() - i,
    {
        proof {
            assert(store@.take(i + 1).drop_last() =~= store@.take(i as int));
            assert(store@.take(i + 1).last() == store@[i as int]);
        }
        let v = chars_of(store[i].label.as_str());
        if starts_with_at(v.as_slice(), 0, pre.as_slice()) && store[i].phar_exists {
            proof {
                assert(v@.skip(0) =~= v@);
            }
            let version = string_of_range(v.as_slice(), pre.len(), v.len());
            let ghost before = out@.map_values(|o: ComposerOption| option_model(o));
            out.push(new_option(version, "store", store[i].phar_path.clone()));
            proof {
                assert(v@.subrange(pre.len() as int, v.len() as int) =~= v@.skip(
                    pre.len() as int,
                ));
                assert(out@.map_values(|o: ComposerOption| option_model(o)) =~= before.push(
                    option_model(out@.last()),
                ));
            }
        } else {
            proof {
                assert(v@.skip(0) =~= v@);
            }
        }
        i = i + 1;
    }
    proof {
        assert(store@.take(store.len() as int) =~= store@);
    }
    out
}

/// The Composer overview: none where nothing is offered; else the offered
/// installations and the active one.
pub fn composer_info(available: Vec<ComposerOption>, shim: Option<&str>) -> (r: Option<
    ComposerToolInfo,
>)
    ensures
        available@.len() == 0 ==> r is None,
        available@.len() > 0 ==> (r matches Some(info) && info.available@ == available@ && match spec_active_composer(
            str_opt(shim),
            available@,
        ) {
            Some(v) => info.active_version matches Some(s) && s@ == v,
            None => info.active_version is None,
        }),
{
    if available.len() == 0 {
        return None;
    }
    let active_version = active_composer_version(shim, available.as_slice());
    Some(ComposerToolInfo { active_version, available })
}

/// The first position at or after `from` where `p` occurs, or `s.len()`.
pub open spec fn next_occ(s: Seq<char>, p: Seq<char>, from: int) -> int
    decreases s.len() - from,
{
    if from < 0 || from >= s.len() || from + p.len() > s.len() {
        s.len() as int
    } else if occurs_at(s, p, from) {
        from
    } else {
        next_occ(s, p, from + 1)
    }
}

pub proof fn lemma_next_occ_bounds(s: Seq<char>, p: Seq<char>, from: int)
    requires
        0 <= from <= s.len(),
    ensures
        from <= next_occ(s, p, from) <= s.len(),
        next_occ(s, p, from) < s.len() ==> occurs_at(s, p, next_occ(s, p, from)),
    decreases s.len() - from,
{
    if from < s.len() && from + p.len() <= s.len() && !occurs_at(s, p, from) {
        lemma_next_occ_bounds(s, p, from + 1);
    }
}

proof fn lemma_next_occ_found(s: Seq<char>, p: Seq<char>, from: int, i: int)
    requires
        0 <= from <= i,
        p.len() > 0,
        occurs_at(s, p, i),
        forall|j: int| from <= j < i ==> !occurs_at(s, p, j),
    ensures
        next_occ(s, p, from) == i,
    decreases i - from,
{
    if from < i {
        assert(!occurs_at(s, p, from));
        lemma_next_occ_found(s, p, from + 1, i);
    }
}

proof fn lemma_next_occ_none(s: Seq<char>, p: Seq<char>, from: int)
    requires
        0 <= from,
        forall|j: int| from <= j ==> !occurs_at(s, p, j),
    ensures
        next_occ(s, p, from) == s.len(),
    decreases s.len() - from,
{
    if from < s.len() && from + p.len() <= s.len() {
        assert(!occurs_at(s, p, from));
        lemma_next_occ_none(s, p, from + 1);
    }
}

/// Splitting `s` at each occurrence of `p` (left to right, without
/// overlaps) from position `from` on: the first word of the first piece
/// after an occurrence whose first word starts with an ASCII digit.
pub open spec fn version_after(s: Seq<char>, p: Seq<char>, from: int) -> Option<Seq<char>>
    decreases s.len() - from,
{
    if p.len() == 0 || from < 0 || from >= s.len() {
        None
    } else {
        let i = next_occ(s, p, from);
        if i >= s.len() {
            None
        } else {
            let e = i + p.len();
            let end = next_occ(s, p, e);
            match first_word(s.subrange(e, end)) {
                Some(w) => if w.len() > 0 && is_digit(w[0]) {
                    Some(w)
                } else {
                    proof {
                        lemma_next_occ_bounds(s, p, from);
                    }
                    version_after(s, p, e)
                },
                None => {
                    proof {
                        lemma_next_occ_bounds(s, p, from);
                    }
                    version_after(s, p, e)
                },
            }
        }
    }
}

/// The Composer version written inside a `composer.phar` (its bytes read as
/// text): after `"Composer version "`, the first word that starts with a
/// digit.
pub open spec fn spec_phar_version(text: Seq<char>) -> Option<Seq<char>> {
    version_after(text, "Composer version "@, 0)
}

/// Finds the version written inside a `composer.phar`'s text.
pub fn phar_version_in(text: &str) -> (r: Option<String>)
    ensures
        opt_view(r) == spec_phar_version(text@),
{
    let v = chars_of(text);
    let p = chars_of("Composer version ");
    proof {
        reveal_strlit("Composer version ");
    }
    let mut from: usize = 0;
    loop
        invariant
            from <= v.len(),
            v@ == text@,
            p@ == "Composer version "@,
            p@.len() > 0,
            version_after(v@, p@, from as int) == spec_phar_version(text@),
        decreases v.len() - from,
    {
        let found = find_chars(v.as_slice(), p.as_slice(), from);
        match found {
            None => {
                proof {
                    lemma_next_occ_none(v@, p@, from as int);
                }
                return None;
            },
            Some(i) => {
                proof {
                    lemma_next_occ_found(v@, p@, from as int, i as int);
                }
                let e = i + p.len();
                let next = find_chars(v.as_slice(), p.as_slice(), e);
                let end = match next {
                    Some(j) => {
                        proof {
                            lemma_next_occ_found(v@, p@, e as int, j as int);
                        }
                        j
                    },
                    None => {
                        proof {
                            lemma_next_occ_none(v@, p@, e as int);
                        }
                        v.len()
                    },
                };
                let bounds = first_word_bounds(v.as_slice(), e, end);
                match bounds {
                    Some((a, b)) => {
                        if a < b && '0' <= v[a] && v[a] <= '9' {
                            return Some(string_of_range(v.as_slice(), a, b));
                        }
                    },
                    None => {},
                }
                from = e;
            },
        }
    }
}

/// What `node --version` printed, as the current Node.js version: trimmed,
/// leading `v`s dropped; none where nothing is left.
pub open spec fn spec_node_version_output(stdout: Seq<char>) -> Option<Seq<char>> {
    let w = without_v(trim(stdout));
    if w.len() == 0 {
        None
    } else {
        Some(w)
    }
}

/// Reads the current Node.js version out of `node --version`'s output.
pub fn node_version_output(stdout: &str) -> (r: Option<String>)
    ensures
        opt_view(r) == spec_node_version_output(stdout@),
{
    let v = chars_of(stdout);
    let (a, b) = trim_bounds(v.as_slice(), 0, v.len());
    proof {
        assert(v@.subrange(0, v.len() as int) =~= v@);
    }
    let t = string_of_range(v.as_slice(), a, b);
    let w = strip_leading_v(t.as_str());
    if chars_of(w.as_str()).len() == 0 {
        None
    } else {
        Some(w)
    }
}

} // verus!
