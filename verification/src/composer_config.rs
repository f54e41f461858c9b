//! Composer's `config.json`: reading the packagist mirror it configures,
//! and pointing packagist at a mirror (or back to the official source)
//! while every other setting stays as it was. Here a document is a
//! `JsonValue` tree; `composer_text` reads and writes it as text.
use vstd::prelude::*;

use crate::dev_tools::{
    field_model, kept_indices, list_url, map_index, mirror_of, model_url, names_packagist,
    opt_view, RepoItem, RepoModel, Repositories,
};
use crate::text::str_eq;

verus! {

/// A JSON value; numbers keep their text, objects their entries in order.
#[derive(Debug)]
pub enum JsonValue {
    Null,
    Bool(bool),
    Number(String),
    Str(String),
    Array(Vec<JsonValue>),
    Object(Vec<(String, JsonValue)>),
}

/// Index of the first entry with key `k`.
pub open spec fn jindex(es: Seq<(String, JsonValue)>, k: Seq<char>) -> Option<int>
    decreases es.len(),
{
    if es.len() == 0 {
        None
    } else {
        match jindex(es.drop_last(), k) {
            Some(i) => Some(i),
            None => if es.last().0@ == k {
                Some(es.len() - 1)
            } else {
                None
            },
        }
    }
}

/// The value of the first entry with key `k`.
pub open spec fn jget(es: Seq<(String, JsonValue)>, k: Seq<char>) -> Option<JsonValue> {
    match jindex(es, k) {
        Some(i) => Some(es[i].1),
        None => None,
    }
}

/// The string under key `k` of an object.
pub open spec fn str_field(v: JsonValue, k: Seq<char>) -> Option<Seq<char>> {
    match v {
        JsonValue::Object(es) => match jget(es@, k) {
            Some(JsonValue::Str(s)) => Some(s@),
            _ => None,
        },
        _ => None,
    }
}

pub open spec fn item_of(v: JsonValue) -> (Option<Seq<char>>, Option<Seq<char>>) {
    (str_field(v, "name"@), str_field(v, "url"@))
}

pub open spec fn entry_of(e: (String, JsonValue)) -> (Seq<char>, Option<Seq<char>>) {
    (e.0@, str_field(e.1, "url"@))
}

/// The `repositories` field of a document, as far as the packagist mirror
/// is concerned: absent (or no object document), an array of `(name, url)`
/// items, an object of `(key, url)` entries, or something else.
pub open spec fn doc_repos(doc: JsonValue) -> Option<RepoModel> {
    match doc {
        JsonValue::Object(es) => match jget(es@, "repositories"@) {
            None => None,
            Some(JsonValue::Array(a)) => Some(RepoModel::List(a@.map_values(|v: JsonValue| item_of(v)))),
            Some(JsonValue::Object(o)) => Some(
                RepoModel::Object(o@.map_values(|e: (String, JsonValue)| entry_of(e))),
            ),
            Some(_) => Some(RepoModel::Other),
        },
        _ => None,
    }
}

/// The packagist mirror a document configures (none: the official source).
pub open spec fn doc_mirror(doc: JsonValue) -> Option<Seq<char>> {
    model_url(doc_repos(doc))
}

/// The document's `config` object holds a `repo` key.
pub open spec fn config_has_repo(doc: JsonValue) -> bool {
    match doc {
        JsonValue::Object(es) => match jget(es@, "config"@) {
            Some(JsonValue::Object(c)) => jindex(c@, "repo"@) is Some,
            _ => false,
        },
        _ => false,
    }
}

fn jfind(es: &Vec<(String, JsonValue)>, k: &str) -> (r: Option<usize>)
    ensures
        match r {
            Some(i) => jindex(es@, k@) == Some(i as int),
            None => jindex(es@, k@) is None,
        },
{
    let mut i: usize = 0;
    while i < es.len()
        invariant
            i <= es.len(),
            jindex(es@.take(i as int), k@) is None,
        decreases es.len() - i,
    {
        assert(es@.take(i + 1).drop_last() =~= es@.take(i as int));
        if str_eq(es[i].0.as_str(), k) {
            proof {
                lemma_jindex_prefix(es@, k@, i + 1);
            }
            return Some(i);
        }
        i = i + 1;
    }
    assert(es@.take(es.len() as int) =~= es@);
    None
}

proof fn lemma_jindex_prefix(es: Seq<(String, JsonValue)>, k: Seq<char>, n: int)
    requires
        0 <= n <= es.len(),
        jindex(es.take(n), k) is Some,
    ensures
        jindex(es, k) == jindex(es.take(n), k),
    decreases es.len(),
{
    if n == es.len() {
        assert(es.take(n) =~= es);
    } else {
        assert(es.drop_last().take(n) =~= es.take(n));
        lemma_jindex_prefix(es.drop_last(), k, n);
    }
}

proof fn lemma_jindex_bounds(es: Seq<(String, JsonValue)>, k: Seq<char>)
    ensures
        jindex(es, k) matches Some(i) ==> 0 <= i < es.len() && es[i].0@ == k,
    decreases es.len(),
{
    if es.len() > 0 {
        lemma_jindex_bounds(es.drop_last(), k);
    }
}

fn str_field_of(v: &JsonValue, k: &str) -> (r: Option<String>)
    ensures
        opt_view(r) == str_field(*v, k@),
{
    match v {
        JsonValue::Object(es) => match jfind(es, k) {
            Some(i) => {
                proof {
                    lemma_jindex_bounds(es@, k@);
                }
                assert(jget(es@, k@) == Some(es@[i as int].1));
                match &es[i].1 {
                    JsonValue::Str(s) => {
                        let c = s.clone();
                        assert(c@ == s@);
                        Some(c)
                    },
                    _ => None,
                }
            },
            None => None,
        },
        _ => None,
    }
}

/// The `repositories` field of a document, as `doc_repos` models it.
pub fn repositories_of(doc: &JsonValue) -> (r: Option<Repositories>)
    ensures
        field_model(r) == doc_repos(*doc),
{
    proof {
        reveal_strlit("name");
        reveal_strlit("url");
    }
    match doc {
        JsonValue::Object(es) => match jfind(es, "repositories") {
            None => None,
            Some(i) => {
                proof {
                    lemma_jindex_bounds(es@, "repositories"@);
                }
                match &es[i].1 {
                    JsonValue::Array(a) => {
                        let mut items: Vec<RepoItem> = Vec::new();
                        let mut j: usize = 0;
                        while j < a.len()
                            invariant
                                j <= a.len(),
                                items@.len() == j,
                                forall|m: int|
                                    0 <= m < j ==> crate::dev_tools::item_model(#[trigger] items@[m])
                                        == item_of(a@[m]),
                            decreases a.len() - j,
                        {
                            items.push(
                                RepoItem { name: str_field_of(&a[j], "name"), url: str_field_of(&a[j], "url") },
                            );
                            j = j + 1;
                        }
                        let r = Repositories::List(items);
                        assert(items@.map_values(|it: RepoItem| crate::dev_tools::item_model(it))
                            =~= a@.map_values(|v: JsonValue| item_of(v)));
                        Some(r)
                    },
                    JsonValue::Object(o) => {
                        let mut ents: Vec<(String, Option<String>)> = Vec::new();
                        let mut j: usize = 0;
                        while j < o.len()
                            invariant
                                j <= o.len(),
                                ents@.len() == j,
                                forall|m: int|
                                    0 <= m < j ==> crate::dev_tools::entry_model(#[trigger] ents@[m])
                                        == entry_of(o@[m]),
                            decreases o.len() - j,
                        {
                            ents.push((o[j].0.clone(), str_field_of(&o[j].1, "url")));
                            j = j + 1;
                        }
                        assert(ents@.map_values(
                            |e: (String, Option<String>)| crate::dev_tools::entry_model(e),
                        ) =~= o@.map_values(|e: (String, JsonValue)| entry_of(e)));
                        Some(Repositories::Object(ents))
                    },
                    _ => Some(Repositories::Other),
                }
            },
        },
        _ => None,
    }
}

/// The packagist mirror a document configures (none: the official source).
pub fn doc_packagist_url(doc: &JsonValue) -> (r: Option<String>)
    ensures
        opt_view(r) == doc_mirror(*doc),
{
    crate::dev_tools::packagist_url(&repositories_of(doc))
}


/// `es` without its entries with key `k`.
pub open spec fn without_key(es: Seq<(String, JsonValue)>, k: Seq<char>) -> Seq<(String, JsonValue)>
    decreases es.len(),
{
    if es.len() == 0 {
        es
    } else {
        let p = without_key(es.drop_last(), k);
        if es.last().0@ == k {
            p
        } else {
            p.push(es.last())
        }
    }
}

/// The items of a `repositories` array not named `packagist`, in order.
pub open spec fn packagist_free(items: Seq<JsonValue>) -> Seq<JsonValue>
    decreases items.len(),
{
    if items.len() == 0 {
        items
    } else {
        let p = packagist_free(items.drop_last());
        if names_packagist(item_of(items.last()).0) {
            p
        } else {
            p.push(items.last())
        }
    }
}

fn without_key_exec(es: Vec<(String, JsonValue)>, k: &str) -> (out: Vec<(String, JsonValue)>)
    ensures
        out@ == without_key(es@, k@),
{
    let ghost orig = es@;
    let len0 = es.len();
    assert(orig.len() == len0);
    let mut es = es;
    let mut out: Vec<(String, JsonValue)> = Vec::new();
    let mut n: usize = 0;
    while es.len() > 0
        invariant
            n + es@.len() == orig.len(),
            orig.len() <= usize::MAX,
            es@ == orig.skip(n as int),
            out@ == without_key(orig.take(n as int), k@),
        decreases es.len(),
    {
        let e = es.remove(0);
        proof {
            assert(e == orig[n as int]);
            assert(orig.take(n + 1).drop_last() =~= orig.take(n as int));
            assert(orig.take(n + 1).last() == orig[n as int]);
            assert(es@ =~= orig.skip(n + 1));
        }
        if !str_eq(e.0.as_str(), k) {
            out.push(e);
        }
        n = n + 1;
    }
    assert(orig.take(orig.len() as int) =~= orig);
    out
}

fn is_packagist_item(v: &JsonValue) -> (b: bool)
    ensures
        b == names_packagist(item_of(*v).0),
{
    proof {
        reveal_strlit("name");
    }
    match str_field_of(v, "name") {
        Some(n) => str_eq(n.as_str(), "packagist"),
        None => false,
    }
}

fn packagist_free_exec(items: Vec<JsonValue>) -> (out: Vec<JsonValue>)
    ensures
        out@ == packagist_free(items@),
{
    let ghost orig = items@;
    let len0 = items.len();
    assert(orig.len() == len0);
    let mut items = items;
    let mut out: Vec<JsonValue> = Vec::new();
    let mut n: usize = 0;
    while items.len() > 0
        invariant
            n + items@.len() == orig.len(),
            orig.len() <= usize::MAX,
            items@ == orig.skip(n as int),
            out@ == packagist_free(orig.take(n as int)),
        decreases items.len(),
    {
        let v = items.remove(0);
        proof {
            assert(v == orig[n as int]);
            assert(orig.take(n + 1).drop_last() =~= orig.take(n as int));
            assert(orig.take(n + 1).last() == orig[n as int]);
            assert(items@ =~= orig.skip(n + 1));
        }
        if !is_packagist_item(&v) {
            out.push(v);
        }
        n = n + 1;
    }
    assert(orig.take(orig.len() as int) =~= orig);
    out
}

/// A document entry with the `repo` key taken out of a `config` object.
pub open spec fn stripped_entry(before: (String, JsonValue), after: (String, JsonValue)) -> bool {
    &&& after.0 == before.0
    &&& if before.0@ == "config"@ && before.1 is Object {
        after.1 matches JsonValue::Object(c2) && c2@ == without_key(before.1->Object_0@, "repo"@)
    } else {
        after.1 == before.1
    }
}

fn strip_config_repo(es: Vec<(String, JsonValue)>) -> (out: Vec<(String, JsonValue)>)
    ensures
        out@.len() == es@.len(),
        forall|i: int| 0 <= i < es@.len() ==> stripped_entry(es@[i], #[trigger] out@[i]),
{
    let ghost orig = es@;
    let len0 = es.len();
    assert(orig.len() == len0);
    let mut es = es;
    let mut out: Vec<(String, JsonValue)> = Vec::new();
    let mut n: usize = 0;
    while es.len() > 0
        invariant
            n + es@.len() == orig.len(),
            orig.len() <= usize::MAX,
            es@ == orig.skip(n as int),
            out@.len() == n,
            forall|i: int| 0 <= i < n ==> stripped_entry(orig[i], #[trigger] out@[i]),
        decreases es.len(),
    {
        let e = es.remove(0);
        proof {
            assert(e == orig[n as int]);
            assert(es@ =~= orig.skip(n + 1));
        }
        let (key, val) = e;
        if str_eq(key.as_str(), "config") {
            match val {
                JsonValue::Object(c) => {
                    let c2 = without_key_exec(c, "repo");
                    out.push((key, JsonValue::Object(c2)));
                },
                other => {
                    out.push((key, other));
                },
            }
        } else {
            out.push((key, val));
        }
        n = n + 1;
    }
    out
}

/// `{"type": "composer", "url": url}`.
fn composer_entry(url: &str) -> (v: JsonValue)
    ensures
        str_field(v, "url"@) == Some(url@),
{
    proof {
        reveal_strlit("type");
        reveal_strlit("url");
    }
    let es = vec![
        ("type".to_owned(), JsonValue::Str("composer".to_owned())),
        ("url".to_owned(), JsonValue::Str(url.to_owned())),
    ];
    proof {
        assert(es@[0].0@ == "type"@);
        assert(es@[1].0@ == "url"@);
        assert(es@.drop_last().drop_last() =~= Seq::<(String, JsonValue)>::empty());
        assert(es@.drop_last().last() == es@[0]);
        assert(es@.last() == es@[1]);
        assert("type"@ != "url"@) by {
            assert("type"@[0] != "url"@[0]);
        }
        assert(jindex(es@.drop_last().drop_last(), "url"@) is None);
        assert(jindex(es@.drop_last(), "url"@) is None);
        assert(jindex(es@, "url"@) == Some(1int));
    }
    JsonValue::Object(es)
}

/// `{"name": "packagist", "type": "composer", "url": url}`.
fn packagist_item(url: &str) -> (v: JsonValue)
    ensures
        item_of(v) == (Some("packagist"@), Some(url@)),
{
    proof {
        reveal_strlit("type");
        reveal_strlit("url");
        reveal_strlit("name");
    }
    let es = vec![
        ("name".to_owned(), JsonValue::Str("packagist".to_owned())),
        ("type".to_owned(), JsonValue::Str("composer".to_owned())),
        ("url".to_owned(), JsonValue::Str(url.to_owned())),
    ];
    proof {
        assert(es@[0].0@ == "name"@);
        assert(es@[1].0@ == "type"@);
        assert(es@[2].0@ == "url"@);
        let s1 = es@.drop_last().drop_last();
        assert(s1.drop_last() =~= Seq::<(String, JsonValue)>::empty());
        assert(s1.last() == es@[0]);
        assert(es@.drop_last().last() == es@[1]);
        assert(es@.last() == es@[2]);
        assert("type"@ != "url"@) by {
            assert("type"@[0] != "url"@[0]);
        }
        assert("name"@ != "url"@) by {
            assert("name"@[0] != "url"@[0]);
        }
        assert(jindex(s1.drop_last(), "name"@) is None);
        assert(jindex(s1.drop_last(), "url"@) is None);
        assert(jindex(s1, "name"@) == Some(0int));
        assert(jindex(es@.drop_last(), "name"@) == Some(0int));
        assert(jindex(es@, "name"@) == Some(0int));
        assert(jindex(s1, "url"@) is None);
        assert(jindex(es@.drop_last(), "url"@) is None);
        assert(jindex(es@, "url"@) == Some(2int));
    }
    JsonValue::Object(es)
}


proof fn lemma_jget_last(es: Seq<(String, JsonValue)>, k: Seq<char>)
    requires
        es.len() > 0,
    ensures
        jget(es, k) == match jget(es.drop_last(), k) {
            Some(v) => Some(v),
            None => if es.last().0@ == k {
                Some(es.last().1)
            } else {
                None
            },
        },
{
    lemma_jindex_bounds(es.drop_last(), k);
    if let Some(i) = jindex(es.drop_last(), k) {
        assert(es[i] == es.drop_last()[i]);
    }
}

proof fn lemma_jget_push(es: Seq<(String, JsonValue)>, x: (String, JsonValue), k: Seq<char>)
    ensures
        jget(es.push(x), k) == match jget(es, k) {
            Some(v) => Some(v),
            None => if x.0@ == k {
                Some(x.1)
            } else {
                None
            },
        },
{
    assert(es.push(x).drop_last() =~= es);
    lemma_jget_last(es.push(x), k);
}

/// Taking out the entries with key `r` keeps what every other key reads,
/// and leaves no entry with key `r`.
proof fn lemma_without_key(es: Seq<(String, JsonValue)>, r: Seq<char>, k: Seq<char>)
    ensures
        k != r ==> jget(without_key(es, r), k) == jget(es, k),
        jindex(without_key(es, r), r) is None,
    decreases es.len(),
{
    if es.len() > 0 {
        lemma_without_key(es.drop_last(), r, k);
        lemma_jget_last(es, k);
        let p = without_key(es.drop_last(), r);
        if es.last().0@ != r {
            lemma_jget_push(p, es.last(), k);
            assert(p.push(es.last()).drop_last() =~= p);
        }
    }
}

/// Two entry lists with the same keys at the same places find each key at
/// the same place.
proof fn lemma_same_keys(es: Seq<(String, JsonValue)>, fs: Seq<(String, JsonValue)>, k: Seq<char>)
    requires
        es.len() == fs.len(),
        forall|i: int| 0 <= i < es.len() ==> (#[trigger] es[i]).0@ == fs[i].0@,
    ensures
        jindex(es, k) == jindex(fs, k),
    decreases es.len(),
{
    if es.len() > 0 {
        assert forall|i: int| 0 <= i < es.len() - 1 implies (#[trigger] es.drop_last()[i]).0@
            == fs.drop_last()[i].0@ by {
            assert(es.drop_last()[i] == es[i]);
            assert(fs.drop_last()[i] == fs[i]);
        }
        lemma_same_keys(es.drop_last(), fs.drop_last(), k);
        assert(es.last() == es[es.len() - 1]);
        assert(fs.last() == fs[fs.len() - 1]);
    }
}

/// Replacing the value at a place whose key is `r` keeps what every other
/// key reads, and makes `r` read the new value where that place is its
/// first.
proof fn lemma_replace_at(es: Seq<(String, JsonValue)>, i: int, v: JsonValue, k: Seq<char>)
    requires
        0 <= i < es.len(),
    ensures
        ({
            let fs = es.update(i, (es[i].0, v));
            &&& k != es[i].0@ ==> jget(fs, k) == jget(es, k)
            &&& jindex(es, k) == Some(i) ==> jget(fs, k) == Some(v)
        }),
{
    let fs = es.update(i, (es[i].0, v));
    assert forall|j: int| 0 <= j < es.len() implies (#[trigger] es[j]).0@ == fs[j].0@ by {}
    lemma_same_keys(es, fs, k);
    lemma_jindex_bounds(es, k);
}

/// Keys other than `repositories` and `config` read as before.
pub open spec fn other_keys_kept(es: Seq<(String, JsonValue)>, os: Seq<(String, JsonValue)>) -> bool {
    forall|k: Seq<char>|
        k != "repositories"@ && k != "config"@ ==> #[trigger] jget(os, k) == jget(es, k)
}

/// `config` reads as before, without its `repo` key where it is an object.
pub open spec fn config_stripped(es: Seq<(String, JsonValue)>, os: Seq<(String, JsonValue)>) -> bool {
    match jget(es, "config"@) {
        Some(JsonValue::Object(c)) => jget(os, "config"@) matches Some(JsonValue::Object(c2)) && c2@
            == without_key(c@, "repo"@),
        other => jget(os, "config"@) == other,
    }
}

proof fn lemma_strip(es: Seq<(String, JsonValue)>, fs: Seq<(String, JsonValue)>)
    requires
        fs.len() == es.len(),
        forall|i: int| 0 <= i < es.len() ==> stripped_entry(es[i], #[trigger] fs[i]),
    ensures
        other_keys_kept(es, fs),
        config_stripped(es, fs),
        jget(fs, "repositories"@) == jget(es, "repositories"@),
{
    reveal_strlit("repositories");
    reveal_strlit("config");
    assert forall|i: int| 0 <= i < es.len() implies (#[trigger] es[i]).0@ == fs[i].0@ by {
        assert(stripped_entry(es[i], fs[i]));
    }
    assert forall|k: Seq<char>| k != "config"@ implies #[trigger] jget(fs, k) == jget(es, k) by {
        lemma_same_keys(es, fs, k);
        lemma_jindex_bounds(es, k);
        if let Some(j) = jindex(es, k) {
            assert(stripped_entry(es[j], fs[j]));
        }
    }
    assert("repositories"@ != "config"@) by {
        assert("repositories"@[0] != "config"@[0]);
    }
    lemma_same_keys(es, fs, "config"@);
    lemma_jindex_bounds(es, "config"@);
    if let Some(j) = jindex(es, "config"@) {
        assert(stripped_entry(es[j], fs[j]));
    }
}

proof fn lemma_free_model(items: Seq<JsonValue>)
    ensures
        packagist_free(items).map_values(|v: JsonValue| item_of(v)) == kept_indices(
            items.map_values(|v: JsonValue| item_of(v)),
        ).map_values(|i: int| items.map_values(|v: JsonValue| item_of(v))[i]),
    decreases items.len(),
{
    let m = items.map_values(|v: JsonValue| item_of(v));
    if items.len() == 0 {
        assert(kept_indices(m) =~= Seq::<int>::empty());
        assert(packagist_free(items).map_values(|v: JsonValue| item_of(v)) =~= Seq::<(Option<Seq<char>>, Option<Seq<char>>)>::empty());
    } else {
        let d = items.drop_last();
        let md = d.map_values(|v: JsonValue| item_of(v));
        lemma_free_model(d);
        assert(m.drop_last() =~= md);
        crate::dev_tools::lemma_kept_indices(md);
        let kd = kept_indices(md);
        assert(kd.map_values(|i: int| md[i]) =~= kd.map_values(|i: int| m[i])) by {
            assert forall|j: int| 0 <= j < kd.len() implies md[kd[j]] == m[kd[j]] by {}
        }
        let p = packagist_free(d);
        if names_packagist(item_of(items.last()).0) {
            assert(m.last() == item_of(items.last()));
        } else {
            assert(m.last() == item_of(items.last()));
            assert(p.push(items.last()).map_values(|v: JsonValue| item_of(v)) =~= p.map_values(
                |v: JsonValue| item_of(v),
            ).push(item_of(items.last())));
            assert(kd.push(m.len() - 1).map_values(|i: int| m[i]) =~= kd.map_values(|i: int| m[i]).push(
                m[m.len() - 1],
            ));
        }
    }
}

proof fn lemma_without_model(o: Seq<(String, JsonValue)>)
    ensures
        without_key(o, "packagist"@).map_values(|e: (String, JsonValue)| entry_of(e))
            == crate::dev_tools::map_without(o.map_values(|e: (String, JsonValue)| entry_of(e))),
    decreases o.len(),
{
    let m = o.map_values(|e: (String, JsonValue)| entry_of(e));
    if o.len() == 0 {
        assert(without_key(o, "packagist"@).map_values(|e: (String, JsonValue)| entry_of(e)) =~= Seq::<(Seq<char>, Option<Seq<char>>)>::empty());
    } else {
        let d = o.drop_last();
        lemma_without_model(d);
        assert(m.drop_last() =~= d.map_values(|e: (String, JsonValue)| entry_of(e)));
        assert(m.last() == entry_of(o.last()));
        let p = without_key(d, "packagist"@);
        if o.last().0@ != "packagist"@ {
            assert(p.push(o.last()).map_values(|e: (String, JsonValue)| entry_of(e)) =~= p.map_values(
                |e: (String, JsonValue)| entry_of(e),
            ).push(entry_of(o.last())));
        }
    }
}


/// `{"packagist": {"type": "composer", "url": url}}`.
fn packagist_object(url: &str) -> (v: JsonValue)
    ensures
        v matches JsonValue::Object(o) && o@.map_values(|e: (String, JsonValue)| entry_of(e)) == seq![
            ("packagist"@, Some(url@)),
        ],
{
    let es = vec![("packagist".to_owned(), composer_entry(url))];
    assert(es@.map_values(|e: (String, JsonValue)| entry_of(e)) =~= seq![("packagist"@, Some(url@))]);
    JsonValue::Object(es)
}

/// What pointing packagist at `url` makes of `doc`: the clauses that
/// `set_composer_repo_doc` ensures of its result `out`.
pub open spec fn repo_written(doc: JsonValue, url: Seq<char>, out: JsonValue) -> bool {
    &&& doc_repos(out) == crate::dev_tools::spec_apply(
        doc_repos(doc),
        crate::dev_tools::spec_write(doc_repos(doc), url),
    )
    &&& doc_mirror(out) == mirror_of(url)
    &&& !config_has_repo(out)
    &&& doc matches JsonValue::Object(es) ==> (out matches JsonValue::Object(os) && other_keys_kept(
        es@,
        os@,
    ) && config_stripped(es@, os@))
    &&& !(doc is Object) ==> (url.len() == 0 ==> out == doc)
    &&& !(doc is Object) ==> (url.len() > 0 ==> (out matches JsonValue::Object(os) && os@.len() == 1))
}

/// Points Composer's packagist at `url` (empty: back to the official
/// source) in a `config.json` document. The `repositories` field changes
/// as `spec_write` and `spec_apply` state: for a non-empty `url` the
/// packagist entries are replaced by one for it, otherwise removed (the
/// whole field where nothing else is left); the `repo` key of `config`
/// is removed; every other key is kept as it was. A document that is not
/// an object is replaced by one where a mirror is set, and otherwise kept.
#[verifier::rlimit(80)]
#[verifier::spinoff_prover]
pub fn set_composer_repo_doc(doc: JsonValue, url: &str) -> (out: JsonValue)
    ensures
        doc_repos(out) == crate::dev_tools::spec_apply(
            doc_repos(doc),
            crate::dev_tools::spec_write(doc_repos(doc), url@),
        ),
        doc_mirror(out) == mirror_of(url@),
        !config_has_repo(out),
        doc matches JsonValue::Object(es) ==> (out matches JsonValue::Object(os) && other_keys_kept(
            es@,
            os@,
        ) && config_stripped(es@, os@)),
        !(doc is Object) ==> (url@.len() == 0 ==> out == doc),
        !(doc is Object) ==> (url@.len() > 0 ==> (out matches JsonValue::Object(os) && os@.len() == 1)),
{
    proof {
        reveal_strlit("repositories");
        reveal_strlit("config");
        reveal_strlit("repo");
        assert("repositories"@ != "config"@) by {
            assert("repositories"@[0] != "config"@[0]);
        }
        crate::dev_tools::packagist_write_then_read(doc_repos(doc), url@);
    }
    let ghost d0 = doc;
    let set = crate::text::chars_of(url).len() > 0;
    let out = match doc {
        JsonValue::Object(es) => {
            let ghost e0 = es@;
            let mut es1 = strip_config_repo(es);
            proof {
                lemma_strip(e0, es1@);
            }
            let ghost e1 = es1@;
            match jfind(&es1, "repositories") {
                None => {
                    if set {
                        let ghost before = es1@;
                        es1.push(("repositories".to_owned(), packagist_object(url)));
                        proof {
                            assert forall|k: Seq<char>| k != "repositories"@ implies #[trigger] jget(es1@, k) == jget(before, k) by {
                                lemma_jget_push(before, es1@.last(), k);
                                assert(es1@ == before.push(es1@.last()));
                            }
                            lemma_jget_push(before, es1@.last(), "repositories"@);
                            assert(es1@ == before.push(es1@.last()));
                        }
                    }
                    JsonValue::Object(es1)
                },
                Some(i) => {
                    proof {
                        lemma_jindex_bounds(e1, "repositories"@);
                    }
                    let (key, val) = es1.remove(i);
                    let ghost rest = es1@;
                    assert(rest == e1.remove(i as int));
                    match val {
                        JsonValue::Array(a) => {
                            let ghost ma = a@.map_values(|v: JsonValue| item_of(v));
                            proof {
                                lemma_free_model(a@);
                            }
                            let mut kept = packagist_free_exec(a);
                            if set {
                                let ghost before = kept@;
                                kept.push(packagist_item(url));
                                es1.insert(i, (key, JsonValue::Array(kept)));
                                proof {
                                    assert(kept@.map_values(|v: JsonValue| item_of(v)) =~= before.map_values(|v: JsonValue| item_of(v)).push((Some("packagist"@), Some(url@))));
                                    assert(es1@ =~= e1.update(i as int, (key, JsonValue::Array(kept))));
                                    assert forall|k: Seq<char>| true implies #[trigger] jget(es1@, k) == jget(e1.update(i as int, (e1[i as int].0, JsonValue::Array(kept))), k) by {}
                                    assert forall|k: Seq<char>| k != "repositories"@ implies #[trigger] jget(es1@, k) == jget(e1, k) by {
                                        lemma_replace_at(e1, i as int, JsonValue::Array(kept), k);
                                    }
                                    lemma_replace_at(e1, i as int, JsonValue::Array(kept), "repositories"@);
                                }
                                JsonValue::Object(es1)
                            } else if kept.len() == 0 {
                                proof {
                                    assert(kept@.map_values(|v: JsonValue| item_of(v)).len() == 0);
                                }
                                let es2 = without_key_exec(es1, "repositories");
                                proof {
                                    assert forall|k: Seq<char>| k != "repositories"@ implies #[trigger] jget(es2@, k) == jget(e1, k) by {
                                        lemma_without_key(rest, "repositories"@, k);
                                        lemma_without_key(e1, "repositories"@, k);
                                        lemma_remove_named(e1, i as int, "repositories"@);
                                    }
                                    lemma_without_key(rest, "repositories"@, "repositories"@);
                                }
                                JsonValue::Object(es2)
                            } else {
                                es1.insert(i, (key, JsonValue::Array(kept)));
                                proof {
                                    assert(es1@ =~= e1.update(i as int, (key, JsonValue::Array(kept))));
                                    assert forall|k: Seq<char>| k != "repositories"@ implies #[trigger] jget(es1@, k) == jget(e1, k) by {
                                        lemma_replace_at(e1, i as int, JsonValue::Array(kept), k);
                                    }
                                    lemma_replace_at(e1, i as int, JsonValue::Array(kept), "repositories"@);
                                }
                                JsonValue::Object(es1)
                            }
                        },
                        JsonValue::Object(o) => {
                            proof {
                                lemma_without_model(o@);
                            }
                            let mut o2 = without_key_exec(o, "packagist");
                            if set {
                                let ghost before = o2@;
                                o2.push(("packagist".to_owned(), composer_entry(url)));
                                proof {
                                    assert(o2@.map_values(|e: (String, JsonValue)| entry_of(e)) =~= before.map_values(|e: (String, JsonValue)| entry_of(e)).push(("packagist"@, Some(url@))));
                                }
                                es1.insert(i, (key, JsonValue::Object(o2)));
                                proof {
                                    assert(es1@ =~= e1.update(i as int, (key, JsonValue::Object(o2))));
                                    assert forall|k: Seq<char>| k != "repositories"@ implies #[trigger] jget(es1@, k) == jget(e1, k) by {
                                        lemma_replace_at(e1, i as int, JsonValue::Object(o2), k);
                                    }
                                    lemma_replace_at(e1, i as int, JsonValue::Object(o2), "repositories"@);
                                }
                                JsonValue::Object(es1)
                            } else if o2.len() == 0 {
                                proof {
                                    assert(o2@.map_values(|e: (String, JsonValue)| entry_of(e)).len() == 0);
                                }
                                let es2 = without_key_exec(es1, "repositories");
                                proof {
                                    assert forall|k: Seq<char>| k != "repositories"@ implies #[trigger] jget(es2@, k) == jget(e1, k) by {
                                        lemma_without_key(rest, "repositories"@, k);
                                        lemma_without_key(e1, "repositories"@, k);
                                        lemma_remove_named(e1, i as int, "repositories"@);
                                    }
                                    lemma_without_key(rest, "repositories"@, "repositories"@);
                                }
                                JsonValue::Object(es2)
                            } else {
                                es1.insert(i, (key, JsonValue::Object(o2)));
                                proof {
                                    assert(es1@ =~= e1.update(i as int, (key, JsonValue::Object(o2))));
                                    assert forall|k: Seq<char>| k != "repositories"@ implies #[trigger] jget(es1@, k) == jget(e1, k) by {
                                        lemma_replace_at(e1, i as int, JsonValue::Object(o2), k);
                                    }
                                    lemma_replace_at(e1, i as int, JsonValue::Object(o2), "repositories"@);
                                }
                                JsonValue::Object(es1)
                            }
                        },
                        other => {
                            let nv = if set {
                                packagist_object(url)
                            } else {
                                other
                            };
                            es1.insert(i, (key, nv));
                            proof {
                                assert(es1@ =~= e1.update(i as int, (key, nv)));
                                assert forall|k: Seq<char>| k != "repositories"@ implies #[trigger] jget(es1@, k) == jget(e1, k) by {
                                    lemma_replace_at(e1, i as int, nv, k);
                                }
                                lemma_replace_at(e1, i as int, nv, "repositories"@);
                            }
                            JsonValue::Object(es1)
                        },
                    }
                },
            }
        },
        other => {
            if set {
                let es = vec![("repositories".to_owned(), packagist_object(url))];
                proof {
                    assert(es@[0].0@ == "repositories"@);
                    assert(es@.drop_last() =~= Seq::<(String, JsonValue)>::empty());
                    assert(es@.last() == es@[0]);
                    assert(jindex(es@.drop_last(), "repositories"@) is None);
                    assert(jindex(es@, "repositories"@) == Some(0int));
                    assert(jindex(es@.drop_last(), "config"@) is None);
                    assert(jindex(es@, "config"@) is None);
                }
                JsonValue::Object(es)
            } else {
                other
            }
        },
    };
    proof {
        if let JsonValue::Object(es) = d0 {
            if let Some(JsonValue::Object(c)) = jget(es@, "config"@) {
                lemma_without_key(c@, "repo"@, "repo"@);
            }
        }
    }
    out
}

/// Removing the entry at `i`, whose key is `r`, does not change what the
/// entries without key `r` are.
proof fn lemma_remove_named(es: Seq<(String, JsonValue)>, i: int, r: Seq<char>)
    requires
        0 <= i < es.len(),
        es[i].0@ == r,
    ensures
        without_key(es.remove(i), r) == without_key(es, r),
    decreases es.len(),
{
    if i == es.len() - 1 {
        assert(es.remove(i) =~= es.drop_last());
    } else {
        let d = es.drop_last();
        lemma_remove_named(d, i, r);
        assert(es.remove(i).drop_last() =~= d.remove(i));
        assert(es.remove(i).last() == es.last());
    }
}

} // verus!
