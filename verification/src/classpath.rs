//! The classpath generator's rules: which descriptor files count, the
//! platform-drift check, and the TOML it writes.
use vstd::prelude::*;

use crate::emitter::{lemma_array_view, lemma_object_view, list_view, members_view, parse_json, parsed_json, Json, JsonView};
use crate::text::{ends_with, seq_lt, str_eq, str_lt, views};

verus! {

/// The `platform_*` repos shipped as artifacts (not embedded), by
/// descriptor path under `legend-pure/`.
pub open spec fn platform_descriptor_paths() -> Seq<Seq<char>> {
    seq![
        "legend-pure-core/legend-pure-m3-precisePrimitives/src/main/resources/platform_precise_primitives.definition.json"@,
        "legend-pure-dsl/legend-pure-dsl-store/legend-pure-m2-dsl-store-pure/src/main/resources/platform_dsl_store.definition.json"@,
        "legend-pure-dsl/legend-pure-dsl-mapping/legend-pure-m2-dsl-mapping-pure/src/main/resources/platform_dsl_mapping.definition.json"@,
        "legend-pure-dsl/legend-pure-dsl-diagram/legend-pure-m2-dsl-diagram-pure/src/main/resources/platform_dsl_diagram.definition.json"@,
        "legend-pure-dsl/legend-pure-dsl-graph/legend-pure-m2-dsl-graph-pure/src/main/resources/platform_dsl_graph.definition.json"@,
        "legend-pure-dsl/legend-pure-dsl-tds/legend-pure-m2-dsl-tds-pure/src/main/resources/platform_dsl_tds.definition.json"@,
        "legend-pure-dsl/legend-pure-dsl-path/legend-pure-m2-dsl-path-pure/src/main/resources/platform_dsl_path.definition.json"@,
        "legend-pure-store/legend-pure-store-relational/legend-pure-m2-store-relational-pure/src/main/resources/platform_store_relational.definition.json"@,
    ]
}

/// The descriptor paths of the artifact `platform_*` repos.
pub fn platform_descriptors() -> (r: Vec<String>)
    ensures
        r@.len() == platform_descriptor_paths().len(),
        forall|k: int| 0 <= k < r@.len() ==> #[trigger] r@[k]@ == platform_descriptor_paths()[k],
{
    let mut r: Vec<String> = Vec::new();
    r.push("legend-pure-core/legend-pure-m3-precisePrimitives/src/main/resources/platform_precise_primitives.definition.json".to_string());
    r.push("legend-pure-dsl/legend-pure-dsl-store/legend-pure-m2-dsl-store-pure/src/main/resources/platform_dsl_store.definition.json".to_string());
    r.push("legend-pure-dsl/legend-pure-dsl-mapping/legend-pure-m2-dsl-mapping-pure/src/main/resources/platform_dsl_mapping.definition.json".to_string());
    r.push("legend-pure-dsl/legend-pure-dsl-diagram/legend-pure-m2-dsl-diagram-pure/src/main/resources/platform_dsl_diagram.definition.json".to_string());
    r.push("legend-pure-dsl/legend-pure-dsl-graph/legend-pure-m2-dsl-graph-pure/src/main/resources/platform_dsl_graph.definition.json".to_string());
    r.push("legend-pure-dsl/legend-pure-dsl-tds/legend-pure-m2-dsl-tds-pure/src/main/resources/platform_dsl_tds.definition.json".to_string());
    r.push("legend-pure-dsl/legend-pure-dsl-path/legend-pure-m2-dsl-path-pure/src/main/resources/platform_dsl_path.definition.json".to_string());
    r.push("legend-pure-store/legend-pure-store-relational/legend-pure-m2-store-relational-pure/src/main/resources/platform_store_relational.definition.json".to_string());
    r
}

/// The repos the classpath loader embeds itself (`platform`).
pub fn embedded_platform_repos() -> (r: Vec<String>)
    ensures
        r@.len() == 1,
        r@[0]@ == "platform"@,
{
    let mut r: Vec<String> = Vec::new();
    r.push("platform".to_string());
    r
}

/// Whether `s` contains `part`.
pub open spec fn contains_text(s: Seq<char>, part: Seq<char>) -> bool {
    exists|i: int| 0 <= i && i + part.len() <= s.len() && #[trigger] s.subrange(i, i + part.len()) == part
}

/// Whether `s` starts with `prefix`.
pub open spec fn starts_with_text(s: Seq<char>, prefix: Seq<char>) -> bool {
    prefix.len() <= s.len() && s.subrange(0, prefix.len() as int) == prefix
}

/// `contains_text`, computed.
pub fn contains_str(s: &str, part: &str) -> (r: bool)
    ensures
        r == contains_text(s@, part@),
{
    let a = crate::lexer::chars_of(s);
    let b = crate::lexer::chars_of(part);
    if b.len() > a.len() {
        return false;
    }
    if b.len() == 0 {
        assert(s@.subrange(0int, 0int + part@.len()) =~= part@);
        return true;
    }
    let last = a.len() - b.len();
    let mut i: usize = 0;
    while i <= last
        invariant
            a@ == s@,
            b@ == part@,
            b@.len() <= a@.len(),
            last == a@.len() - b@.len(),
            i <= last + 1,
            forall|j: int| 0 <= j < i ==> #[trigger] s@.subrange(j, j + part@.len()) != part@,
        decreases a.len() - i,
    {
        let mut k: usize = 0;
        let mut same = true;
        while k < b.len()
            invariant
                a@ == s@,
                b@ == part@,
                i + b@.len() <= a@.len(),
                k <= b@.len(),
                same == forall|q: int| 0 <= q < k ==> a@[i + q] == b@[q],
            decreases b.len() - k,
        {
            let n = a.len();
            assert(i + k < n);
            let c = a[i + k];
            if c != b[k] {
                same = false;
            }
            k = k + 1;
        }
        if same {
            assert(s@.subrange(i as int, i + part@.len()) =~= part@);
            return true;
        }

        proof {
            let q = choose|q: int| 0 <= q < b@.len() && a@[i + q] != b@[q];
            assert(s@.subrange(i as int, i + part@.len())[q] != part@[q]);
        }
        i = i + 1;
    }
    false
}

/// `starts_with_text`, computed.
pub fn starts_with_str(s: &str, prefix: &str) -> (r: bool)
    ensures
        r == starts_with_text(s@, prefix@),
{
    let a = crate::lexer::chars_of(s);
    let b = crate::lexer::chars_of(prefix);
    if b.len() > a.len() {
        return false;
    }
    let mut k: usize = 0;
    while k < b.len()
        invariant
            a@ == s@,
            b@ == prefix@,
            b@.len() <= a@.len(),
            k <= b@.len(),
            forall|q: int| 0 <= q < k ==> a@[q] == b@[q],
        decreases b.len() - k,
    {
        if a[k] != b[k] {
            assert(s@.subrange(0, prefix@.len() as int)[k as int] != prefix@[k as int]);
            return false;
        }
        k = k + 1;
    }
    assert(s@.subrange(0, prefix@.len() as int) =~= prefix@);
    true
}

/// Whether a file is an engine repo descriptor: it sits under
/// `/src/main/resources/` and is named `*.definition.json`.
pub open spec fn engine_descriptor(path: Seq<char>, file_name: Seq<char>) -> bool {
    contains_text(path, "/src/main/resources/"@) && file_name.len() >= ".definition.json"@.len()
        && file_name.subrange(file_name.len() - ".definition.json"@.len(), file_name.len() as int)
        == ".definition.json"@
}

/// Whether a file is an engine repo descriptor.
pub fn is_engine_descriptor(path: &str, file_name: &str) -> (r: bool)
    ensures
        r == engine_descriptor(path@, file_name@),
{
    contains_str(path, "/src/main/resources/") && ends_with(file_name, ".definition.json")
}

/// Whether the walk skips a directory: below the root, build output,
/// `node_modules` and `.git`.
pub open spec fn skipped_dir(depth: usize, is_dir: bool, name: Seq<char>) -> bool {
    depth > 0 && is_dir && (name == "target"@ || name == "node_modules"@ || name == ".git"@)
}

/// Whether the walk skips an entry.
pub fn skips_entry(depth: usize, is_dir: bool, name: &str) -> (r: bool)
    ensures
        r == skipped_dir(depth, is_dir, name@),
{
    depth > 0 && is_dir && (str_eq(name, "target") || str_eq(name, "node_modules") || str_eq(name, ".git"))
}

/// Strictly increasing by code point.
pub open spec fn strictly_sorted(s: Seq<Seq<char>>) -> bool {
    forall|a: int, b: int| 0 <= a < b < s.len() ==> seq_lt(s[a], s[b])
}

/// Whether `name` is a dependency (of some descriptor) starting with
/// `platform`.
pub open spec fn referenced_platform(deps: Seq<Vec<String>>, name: Seq<char>) -> bool {
    starts_with_text(name, "platform"@) && exists|i: int, j: int|
        0 <= i < deps.len() && 0 <= j < deps[i]@.len() && #[trigger] deps[i]@[j]@ == name
}

/// The `platform*` dependencies of the engine descriptors (each
/// descriptor's dependency names), once each, in order.
pub fn referenced_platforms(deps: &Vec<Vec<String>>) -> (r: Vec<String>)
    ensures
        strictly_sorted(crate::text::views(r@)),
        forall|k: int| 0 <= k < r@.len() ==> referenced_platform(deps@, #[trigger] r@[k]@),
        forall|name: Seq<char>| referenced_platform(deps@, name) ==> crate::text::views(r@).contains(name),
{
    let mut out: Vec<String> = Vec::new();
    let mut i: usize = 0;
    while i < deps.len()
        invariant
            i <= deps@.len(),
            strictly_sorted(crate::text::views(out@)),
            forall|k: int| 0 <= k < out@.len() ==> referenced_platform(deps@, #[trigger] out@[k]@),
            forall|name: Seq<char>|
                starts_with_text(name, "platform"@) && (exists|a: int, b: int|
                    0 <= a < i && 0 <= b < deps@[a]@.len() && #[trigger] deps@[a]@[b]@ == name) ==> crate::text::views(
                    out@,
                ).contains(name),
        decreases deps.len() - i,
    {
        let mut j: usize = 0;
        while j < deps[i].len()
            invariant
                i < deps@.len(),
                j <= deps@[i as int]@.len(),
                strictly_sorted(crate::text::views(out@)),
                forall|k: int| 0 <= k < out@.len() ==> referenced_platform(deps@, #[trigger] out@[k]@),
                forall|name: Seq<char>|
                    starts_with_text(name, "platform"@) && ((exists|a: int, b: int|
                        0 <= a < i && 0 <= b < deps@[a]@.len() && #[trigger] deps@[a]@[b]@ == name) || (exists|b: int|
                        0 <= b < j && #[trigger] deps@[i as int]@[b]@ == name)) ==> crate::text::views(out@).contains(name),
            decreases deps[i as int]@.len() - j,
        {
            let name = &deps[i][j];
            if starts_with_str(name.as_str(), "platform") {
                let ghost before = out@;
                insert_sorted(&mut out, name);
                proof {
                    assert(referenced_platform(deps@, name@));
                    assert forall|k: int| 0 <= k < out@.len() implies referenced_platform(deps@, #[trigger] out@[k]@) by {
                        assert(crate::text::views(out@)[k] == out@[k]@);
                        assert(crate::text::views(out@).contains(out@[k]@));
                        if out@[k]@ != name@ {
                            assert(crate::text::views(before).contains(out@[k]@));
                            let q = choose|q: int| 0 <= q < before.len() && crate::text::views(before)[q] == out@[k]@;
                            assert(referenced_platform(deps@, before[q]@));
                        }
                    }
                    assert forall|x: Seq<char>| crate::text::views(before).contains(x) implies crate::text::views(out@).contains(x) by {
                        assert(crate::text::views(out@).contains(x));
                    }
                }
            }
            j = j + 1;
        }
        i = i + 1;
    }
    out
}

/// Inserts `name` into a strictly sorted list unless it is there.
fn insert_sorted(out: &mut Vec<String>, name: &String)
    requires
        strictly_sorted(crate::text::views(old(out)@)),
    ensures
        strictly_sorted(crate::text::views(final(out)@)),
        crate::text::views(final(out)@).contains(name@),
        forall|x: Seq<char>| #[trigger] crate::text::views(final(out)@).contains(x) <==> (crate::text::views(old(out)@).contains(x) || x == name@),
{
    proof {
        crate::parser::lemma_seq_lt_facts();
    }
    let ghost old_v = crate::text::views(out@);
    let mut p: usize = 0;
    while p < out.len() && str_lt(out[p].as_str(), name.as_str())
        invariant
            p <= out@.len(),
            forall|j: int| 0 <= j < p ==> seq_lt(out@[j]@, name@),
        decreases out.len() - p,
    {
        p = p + 1;
    }
    if p < out.len() && str_eq(out[p].as_str(), name.as_str()) {
        proof {
            assert(old_v[p as int] == name@);
        }
        return;
    }
    out.insert(p, name.clone());
    proof {
        let nv = crate::text::views(out@);
        assert(nv =~= old_v.insert(p as int, name@));
        assert(nv[p as int] == name@);
        assert forall|a: int, b: int| 0 <= a < b < nv.len() implies seq_lt(nv[a], nv[b]) by {
            if b < p {
            } else if a < p && b == p {
            } else if a < p && b > p {
                assert(seq_lt(old_v[a], name@));
                if p < old_v.len() {
                    assert(old_v[p as int] != name@);
                    assert(!seq_lt(old_v[p as int], name@));
                    assert(seq_lt(name@, old_v[p as int]));
                }
            } else if a == p {
                assert(old_v[p as int] != name@);
                assert(!seq_lt(old_v[p as int], name@));
                assert(seq_lt(name@, old_v[p as int]));
                if b - 1 > p {
                    assert(seq_lt(old_v[p as int], old_v[b - 1]));
                }
            } else {
            }
        }
        assert forall|x: Seq<char>| #[trigger] nv.contains(x) <==> (old_v.contains(x) || x == name@) by {
            if nv.contains(x) {
                let k = choose|k: int| 0 <= k < nv.len() && nv[k] == x;
                if k < p {
                    assert(old_v[k] == x);
                } else if k > p {
                    assert(old_v[k - 1] == x);
                }
            }
            if old_v.contains(x) {
                let k = choose|k: int| 0 <= k < old_v.len() && old_v[k] == x;
                if k < p {
                    assert(nv[k] == x);
                } else {
                    assert(nv[k + 1] == x);
                }
            }
            if x == name@ {
                assert(nv[p as int] == x);
            }
        }
    }
}

/// The referenced platform repos that neither the artifact list nor the
/// embedded set provides, in order.
pub open spec fn drift(referenced: Seq<Seq<char>>, allowed: Seq<Seq<char>>, embedded: Seq<Seq<char>>) -> Seq<Seq<char>> {
    referenced.filter(|n: Seq<char>| !allowed.contains(n) && !embedded.contains(n))
}

/// A platform repo is reported as drift exactly when the descriptors
/// reference it and neither the artifact list nor the embedded set
/// provides it.
pub proof fn lemma_drift_members(
    referenced: Seq<Seq<char>>,
    allowed: Seq<Seq<char>>,
    embedded: Seq<Seq<char>>,
    name: Seq<char>,
)
    ensures
        drift(referenced, allowed, embedded).contains(name) <==> (referenced.contains(name) && !allowed.contains(
            name,
        ) && !embedded.contains(name)),
{
    let pred = |n: Seq<char>| !allowed.contains(n) && !embedded.contains(n);
    let d = referenced.filter(pred);
    if d.contains(name) {
        referenced.lemma_filter_contains_rev(pred, name);
        let k = choose|k: int| 0 <= k < d.len() && d[k] == name;
        referenced.lemma_filter_pred(pred, k);
    }
    if referenced.contains(name) && pred(name) {
        let k = choose|k: int| 0 <= k < referenced.len() && referenced[k] == name;
        referenced.lemma_filter_contains(pred, k);
    }
}

fn listed(v: &Vec<String>, name: &String) -> (b: bool)
    ensures
        b == crate::text::views(v@).contains(name@),
{
    let mut i: usize = 0;
    while i < v.len()
        invariant
            i <= v@.len(),
            forall|j: int| 0 <= j < i ==> v@[j]@ != name@,
        decreases v.len() - i,
    {
        if str_eq(v[i].as_str(), name.as_str()) {
            assert(crate::text::views(v@)[i as int] == name@);
            return true;
        }
        i = i + 1;
    }
    proof {
        if crate::text::views(v@).contains(name@) {
            let k = choose|k: int| 0 <= k < v@.len() && crate::text::views(v@)[k] == name@;
            assert(v@[k]@ == name@);
        }
    }
    false
}

/// The platform repos the descriptors reference but nothing provides
/// (the generator refuses to write when there is any).
pub fn missing_platforms(referenced: &Vec<String>, allowed: &Vec<String>, embedded: &Vec<String>) -> (r: Vec<String>)
    ensures
        crate::text::views(r@) == drift(
            crate::text::views(referenced@),
            crate::text::views(allowed@),
            crate::text::views(embedded@),
        ),
{
    let ghost rv = crate::text::views(referenced@);
    let ghost av = crate::text::views(allowed@);
    let ghost ev = crate::text::views(embedded@);
    let mut out: Vec<String> = Vec::new();
    let mut i: usize = 0;
    while i < referenced.len()
        invariant
            rv == crate::text::views(referenced@),
            av == crate::text::views(allowed@),
            ev == crate::text::views(embedded@),
            i <= referenced@.len(),
            crate::text::views(out@) == drift(rv.take(i as int), av, ev),
        decreases referenced.len() - i,
    {
        let name = &referenced[i];
        proof {
            assert(rv.take(i + 1) =~= rv.take(i as int).push(name@));
            assert(rv.take(i + 1).drop_last() =~= rv.take(i as int));
        }
        let keep = !listed(allowed, name) && !listed(embedded, name);
        if keep {
            out.push(name.clone());
            proof {
                assert(crate::text::views(out@) =~= crate::text::views(out@).drop_last().push(name@));
                assert(crate::text::views(out@).drop_last() =~= drift(rv.take(i as int), av, ev));
            }
        }
        proof {
            rv.take(i as int).lemma_filter_push(name@, |n: Seq<char>| !av.contains(n) && !ev.contains(n));
        }
        i = i + 1;
    }
    assert(rv.take(referenced@.len() as int) =~= rv);
    out
}

// ───────────────────────────── the TOML ─────────────────────────────

/// `pathdiff::diff_paths(path, base)`: the path of `path` relative to
/// the directory `base`, when one exists.
pub uninterp spec fn diff_paths_result(path: Seq<char>, base: Seq<char>) -> Option<Seq<char>>;

/// Calls `pathdiff::diff_paths`; its result is `diff_paths_result` of
/// the two paths (rendered as text).
#[verifier::external_body]
fn relative_path(path: &str, base: &str) -> (r: Option<String>)
    ensures
        match r {
            Some(s) => diff_paths_result(path@, base@) == Some(s@),
            None => diff_paths_result(path@, base@) is None,
        },
{
    pathdiff::diff_paths(path, base).map(|p| p.to_string_lossy().into_owned())
}

/// The descriptor path written for `path`: relative to `base` where
/// `diff_paths` gives one, else as it is.
pub open spec fn written_path(path: Seq<char>, base: Seq<char>) -> Seq<char> {
    match diff_paths_result(path, base) {
        Some(r) => r,
        None => path,
    }
}

/// `entry` inserted into `s` after every entry whose name does not sort
/// after its own.
pub open spec fn insert_by_name(s: Seq<(Seq<char>, Seq<char>)>, entry: (Seq<char>, Seq<char>)) -> Seq<
    (Seq<char>, Seq<char>),
>
    decreases s.len(),
{
    if s.len() == 0 {
        seq![entry]
    } else if seq_lt(entry.0, s.last().0) {
        insert_by_name(s.drop_last(), entry).push(s.last())
    } else {
        s.push(entry)
    }
}

/// `s` sorted stably by name.
pub open spec fn sorted_by_name(s: Seq<(Seq<char>, Seq<char>)>) -> Seq<(Seq<char>, Seq<char>)>
    decreases s.len(),
{
    if s.len() == 0 {
        Seq::empty()
    } else {
        insert_by_name(sorted_by_name(s.drop_last()), s.last())
    }
}

/// No entry's name sorts before that of an entry ahead of it.
pub open spec fn names_ordered(s: Seq<(Seq<char>, Seq<char>)>) -> bool {
    forall|a: int, b: int| 0 <= a < b < s.len() ==> !seq_lt(#[trigger] s[b].0, #[trigger] s[a].0)
}

proof fn lemma_insert_by_name(s: Seq<(Seq<char>, Seq<char>)>, e: (Seq<char>, Seq<char>))
    requires
        names_ordered(s),
    ensures
        names_ordered(insert_by_name(s, e)),
        insert_by_name(s, e).to_multiset() == s.to_multiset().insert(e),
    decreases s.len(),
{
    broadcast use vstd::seq_lib::group_to_multiset_ensures;

    crate::parser::lemma_seq_lt_facts();
    let r = insert_by_name(s, e);
    if s.len() == 0 {
        assert(r == seq![e]);
        assert(seq![e] =~= Seq::<(Seq<char>, Seq<char>)>::empty().push(e));
    } else {
        let dl = s.drop_last();
        let last = s.last();
        assert(dl.push(last) =~= s);
        if seq_lt(e.0, last.0) {
            assert forall|a: int, b: int| 0 <= a < b < dl.len() implies !seq_lt(#[trigger] dl[b].0, #[trigger] dl[a].0) by {
                assert(dl[a] == s[a] && dl[b] == s[b]);
            }
            lemma_insert_by_name(dl, e);
            let mid = insert_by_name(dl, e);
            assert forall|a: int, b: int| 0 <= a < b < r.len() implies !seq_lt(#[trigger] r[b].0, #[trigger] r[a].0) by {
                if b == r.len() - 1 {
                    let x = mid[a];
                    assert(mid.contains(x));
                    assert(mid.to_multiset().count(x) > 0);
                    if x != e {
                        assert(dl.to_multiset().count(x) > 0);
                        let k = choose|k: int| 0 <= k < dl.len() && dl[k] == x;
                        assert(s[k] == x);
                        assert(!seq_lt(s[s.len() - 1].0, s[k].0));
                    }
                } else {
                    assert(r[a] == mid[a] && r[b] == mid[b]);
                }
            }
        } else {
            assert forall|a: int, b: int| 0 <= a < b < r.len() implies !seq_lt(#[trigger] r[b].0, #[trigger] r[a].0) by {
                if b == r.len() - 1 {
                    if a < s.len() - 1 {
                        assert(!seq_lt(s[s.len() - 1].0, s[a].0));
                    }
                } else {
                    assert(r[a] == s[a] && r[b] == s[b]);
                }
            }
        }
    }
}

/// Each section of the classpath file lists its repos in order of name,
/// each repo it was given as often as it was given.
pub proof fn lemma_sorted_by_name(s: Seq<(Seq<char>, Seq<char>)>)
    ensures
        names_ordered(sorted_by_name(s)),
        sorted_by_name(s).to_multiset() == s.to_multiset(),
    decreases s.len(),
{
    broadcast use vstd::seq_lib::group_to_multiset_ensures;

    if s.len() == 0 {
        assert(s =~= Seq::<(Seq<char>, Seq<char>)>::empty());
    } else {
        lemma_sorted_by_name(s.drop_last());
        lemma_insert_by_name(sorted_by_name(s.drop_last()), s.last());
        assert(s.drop_last().push(s.last()) =~= s);
    }
}

/// The `(name, descriptor path)` pairs as texts.
pub open spec fn entry_views(v: Seq<(String, String)>) -> Seq<(Seq<char>, Seq<char>)> {
    Seq::new(v.len(), |k: int| (v[k].0@, v[k].1@))
}

fn sort_entries(entries: &Vec<(String, String)>) -> (r: Vec<(String, String)>)
    ensures
        entry_views(r@) == sorted_by_name(entry_views(entries@)),
{
    let mut out: Vec<(String, String)> = Vec::new();
    let mut i: usize = 0;
    while i < entries.len()
        invariant
            i <= entries@.len(),
            entry_views(out@) == sorted_by_name(entry_views(entries@).take(i as int)),
        decreases entries.len() - i,
    {
        let e = (entries[i].0.clone(), entries[i].1.clone());
        proof {
            assert(entry_views(entries@).take(i + 1).drop_last() =~= entry_views(entries@).take(i as int));
        }
        insert_entry(&mut out, e);
        i = i + 1;
    }
    assert(entry_views(entries@).take(entries@.len() as int) =~= entry_views(entries@));
    out
}

fn insert_entry(out: &mut Vec<(String, String)>, e: (String, String))
    ensures
        entry_views(final(out)@) == insert_by_name(entry_views(old(out)@), (e.0@, e.1@)),
    decreases old(out)@.len(),
{
    if out.len() > 0 && str_lt(e.0.as_str(), out[out.len() - 1].0.as_str()) {
        let last = out.pop().unwrap();
        proof {
            assert(entry_views(out@) =~= entry_views(old(out)@).drop_last());
        }
        insert_entry(out, e);
        let ghost mid = out@;
        out.push(last);
        proof {
            assert(entry_views(out@) =~= entry_views(mid).push((last.0@, last.1@)));
        }
    } else {
        let ghost before = out@;
        out.push(e);
        proof {
            assert(entry_views(out@) =~= entry_views(before).push((e.0@, e.1@)));
        }
    }
}

/// The `[[repo]]` block of one repo.
pub open spec fn repo_block(name: Seq<char>, descriptor: Seq<char>) -> Seq<char> {
    "[[repo]]\nname = \""@ + name + "\"\nkind = \"filesystem\"\ndescriptor = \""@ + descriptor + "\"\n\n"@
}

/// The blocks of a list of repos, in order.
pub open spec fn repo_blocks(s: Seq<(Seq<char>, Seq<char>)>, base: Seq<char>) -> Seq<char>
    decreases s.len(),
{
    if s.len() == 0 {
        Seq::empty()
    } else {
        repo_blocks(s.drop_last(), base) + repo_block(s.last().0, written_path(s.last().1, base))
    }
}

/// The `[[repo]]` block of the repo `name` whose descriptor is at
/// `descriptor`, given what `diff_paths` made of that path against the
/// file's directory: the relative path, or (for `None`) the path as it is.
pub fn repo_entry(name: &str, descriptor: &str, relative: Option<String>) -> (r: String)
    ensures
        r@ == repo_block(
            name@,
            match relative {
                Some(p) => p@,
                None => descriptor@,
            },
        ),
{
    let path = match relative {
        Some(p) => p,
        None => descriptor.to_string(),
    };
    let mut out = "[[repo]]\nname = \"".to_string();
    out.append(name);
    out.append("\"\nkind = \"filesystem\"\ndescriptor = \"");
    out.append(path.as_str());
    out.append("\"\n\n");
    out
}

/// A section: its heading, then its repos sorted by name.
pub open spec fn section_text(heading: Seq<char>, entries: Seq<(Seq<char>, Seq<char>)>, base: Seq<char>) -> Seq<char> {
    "# --- "@ + heading + " ---\n\n"@ + repo_blocks(sorted_by_name(entries), base)
}

/// Writes a section of the classpath file: the heading, then one block
/// per `(name, descriptor path)` entry, sorted by name, with paths
/// relative to `toml_dir`.
pub fn repo_section(heading: &str, entries: &Vec<(String, String)>, toml_dir: &str) -> (r: String)
    ensures
        r@ == section_text(heading@, entry_views(entries@), toml_dir@),
{
    let sorted = sort_entries(entries);
    let mut out = "# --- ".to_string();
    out.append(heading);
    out.append(" ---\n\n");
    let ghost head = out@;
    let mut i: usize = 0;
    while i < sorted.len()
        invariant
            i <= sorted@.len(),
            out@ == head + repo_blocks(entry_views(sorted@).take(i as int), toml_dir@),
        decreases sorted.len() - i,
    {
        let (name, desc) = (&sorted[i].0, &sorted[i].1);
        let block = repo_entry(name.as_str(), desc.as_str(), relative_path(desc.as_str(), toml_dir));
        out.append(block.as_str());
        proof {
            let ev = entry_views(sorted@);
            assert(ev.take(i + 1).drop_last() =~= ev.take(i as int));
            assert(ev.take(i + 1).last() == (name@, desc@));
            assert(out@ =~= head + repo_blocks(ev.take(i + 1), toml_dir@));
        }
        i = i + 1;
    }
    assert(entry_views(sorted@).take(sorted@.len() as int) =~= entry_views(sorted@));
    out
}

/// The comment block at the top of the classpath file.
pub open spec fn header_text() -> Seq<char> {
    "# Auto-generated by `cargo gen-classpath`. Do not hand-edit.\n"@
        + "# Source: crates/xtask/src/main.rs\n"@ + "#\n"@
        + "# Classpath resolution (from upstream crates/cli/src/classpath.rs):\n"@
        + "#   1. --classpath <PATH>                          (highest priority)\n"@
        + "#   2. LEGEND_PURE_CLASSPATH env var\n"@
        + "#   3. legend-pure-classpath.toml in cwd ancestors\n"@
        + "#   4. <exe_dir>/legend-pure-classpath.toml\n"@
        + "#   5. <exe_dir>/snapshots/*.purem (synthetic)\n"@
        + "#   6. LEGEND_PURE_BUILD_SNAPSHOTS_DIR/*.purem\n"@
        + "#   7. Repo::default_embedded() — just `platform`\n"@ + "#\n"@
        + "# Shadow-by-name: TOML entries replace embedded entries with the same name.\n"@
        + "# Run as:\n"@
        + "#   legend-engine build --classpath legend-pure-classpath.toml --format json --skip-tests\n\n"@
}

/// The whole classpath file: the header, the platform section, then the
/// engine section.
pub open spec fn classpath_text(
    platform: Seq<(Seq<char>, Seq<char>)>,
    engine: Seq<(Seq<char>, Seq<char>)>,
    base: Seq<char>,
) -> Seq<char> {
    header_text() + section_text("platform_* repos (legend-pure)"@, platform, base) + section_text(
        "engine repos (legend-engine)"@,
        engine,
        base,
    )
}

/// Writes the classpath file for the platform and engine repos, given as
/// `(name, descriptor path)`; paths relative to `toml_dir`.
pub fn classpath_toml(platform: &Vec<(String, String)>, engine: &Vec<(String, String)>, toml_dir: &str) -> (r: String)
    ensures
        r@ == classpath_text(entry_views(platform@), entry_views(engine@), toml_dir@),
{
    let mut out = String::new();
    out.append("# Auto-generated by `cargo gen-classpath`. Do not hand-edit.\n");
    out.append("# Source: crates/xtask/src/main.rs\n");
    out.append("#\n");
    out.append("# Classpath resolution (from upstream crates/cli/src/classpath.rs):\n");
    out.append("#   1. --classpath <PATH>                          (highest priority)\n");
    out.append("#   2. LEGEND_PURE_CLASSPATH env var\n");
    out.append("#   3. legend-pure-classpath.toml in cwd ancestors\n");
    out.append("#   4. <exe_dir>/legend-pure-classpath.toml\n");
    out.append("#   5. <exe_dir>/snapshots/*.purem (synthetic)\n");
    out.append("#   6. LEGEND_PURE_BUILD_SNAPSHOTS_DIR/*.purem\n");
    out.append("#   7. Repo::default_embedded() — just `platform`\n");
    out.append("#\n");
    out.append("# Shadow-by-name: TOML entries replace embedded entries with the same name.\n");
    out.append("# Run as:\n");
    out.append("#   legend-engine build --classpath legend-pure-classpath.toml --format json --skip-tests\n\n");
    let p = repo_section("platform_* repos (legend-pure)", platform, toml_dir);
    out.append(p.as_str());
    let e = repo_section("engine repos (legend-engine)", engine, toml_dir);
    out.append(e.as_str());
    assert(out@ =~= classpath_text(entry_views(platform@), entry_views(engine@), toml_dir@));
    out
}

// ───────────────────────────── descriptors ─────────────────────────────

/// The value of the first member named `key`.
pub open spec fn member_named(ms: Seq<(Seq<char>, JsonView)>, key: Seq<char>) -> Option<JsonView>
    decreases ms.len(),
{
    if ms.len() == 0 {
        None
    } else if ms[0].0 == key {
        Some(ms[0].1)
    } else {
        member_named(ms.drop_first(), key)
    }
}

/// A descriptor's `name`: the member `name` of an object, if it is a
/// string.
pub open spec fn name_of(v: JsonView) -> Option<Seq<char>> {
    match v {
        JsonView::Members(ms) => match member_named(ms, "name"@) {
            Some(JsonView::Text(s)) => Some(s),
            _ => None,
        },
        _ => None,
    }
}

/// The strings of a list, in order.
pub open spec fn texts_in(items: Seq<JsonView>) -> Seq<Seq<char>>
    decreases items.len(),
{
    if items.len() == 0 {
        Seq::empty()
    } else {
        texts_in(items.drop_last()) + match items.last() {
            JsonView::Text(s) => seq![s],
            _ => Seq::empty(),
        }
    }
}

/// A descriptor's dependencies: the strings of its `dependencies` array,
/// in order; none if it has no such array.
pub open spec fn dependencies_of(v: JsonView) -> Seq<Seq<char>> {
    match v {
        JsonView::Members(ms) => match member_named(ms, "dependencies"@) {
            Some(JsonView::List(items)) => texts_in(items),
            _ => Seq::empty(),
        },
        _ => Seq::empty(),
    }
}

/// The index of the first member named `key`, if any.
fn find_member(ms: &Vec<(String, Json)>, key: &str) -> (r: Option<usize>)
    ensures
        match r {
            Some(k) => k < ms@.len() && member_named(members_view(ms@), key@) == Some(ms@[k as int].1.view()),
            None => member_named(members_view(ms@), key@) is None,
        },
{
    let ghost mv = members_view(ms@);
    let mut k: usize = 0;
    assert(mv.skip(0) =~= mv);
    while k < ms.len()
        invariant
            k <= ms@.len(),
            mv == members_view(ms@),
            member_named(mv, key@) == member_named(mv.skip(k as int), key@),
        decreases ms.len() - k,
    {
        proof {
            assert(mv.skip(k as int)[0] == (ms@[k as int].0@, ms@[k as int].1.view()));
            assert(mv.skip(k as int).drop_first() =~= mv.skip(k + 1));
        }
        if str_eq(ms[k].0.as_str(), key) {
            return Some(k);
        }
        k = k + 1;
    }
    proof {
        assert(mv.skip(k as int).len() == 0);
    }
    None
}

/// A descriptor's `name` member, if it is a string.
pub fn descriptor_name(v: &Json) -> (r: Option<String>)
    ensures
        match r {
            Some(s) => name_of(v.view()) == Some(s@),
            None => name_of(v.view()) is None,
        },
{
    match v {
        Json::Object(ms) => {
            proof {
                lemma_object_view(*ms);
            }
            match find_member(ms, "name") {
                Some(k) => match &ms[k].1 {
                    Json::String(s) => Some(s.clone()),
                    _ => None,
                },
                None => None,
            }
        },
        _ => None,
    }
}

/// A descriptor's dependencies: the strings of its `dependencies` array,
/// in order, none if there is no such array.
pub fn descriptor_dependencies(v: &Json) -> (r: Vec<String>)
    ensures
        views(r@) == dependencies_of(v.view()),
{
    let mut out: Vec<String> = Vec::new();
    proof {
        assert(views(out@) =~= Seq::<Seq<char>>::empty());
    }
    match v {
        Json::Object(ms) => {
            proof {
                lemma_object_view(*ms);
            }
            match find_member(ms, "dependencies") {
                Some(k) => match &ms[k].1 {
                    Json::Array(items) => {
                        proof {
                            lemma_array_view(*items);
                        }
                        let ghost lv = list_view(items@);
                        let mut i: usize = 0;
                        while i < items.len()
                            invariant
                                i <= items@.len(),
                                lv == list_view(items@),
                                views(out@) == texts_in(lv.take(i as int)),
                            decreases items.len() - i,
                        {
                            proof {
                                assert(lv.take(i + 1).drop_last() =~= lv.take(i as int));
                                assert(lv.take(i + 1).last() == items@[i as int].view());
                            }
                            match &items[i] {
                                Json::String(s) => {
                                    let ghost before = views(out@);
                                    out.push(s.clone());
                                    proof {
                                        assert(views(out@) =~= before + seq![s@]);
                                    }
                                },
                                _ => {
                                    proof {
                                        assert(views(out@) =~= views(out@) + Seq::<Seq<char>>::empty());
                                    }
                                },
                            }
                            i = i + 1;
                        }
                        proof {
                            assert(lv.take(items@.len() as int) =~= lv);
                        }
                        out
                    },
                    _ => out,
                },
                None => out,
            }
        },
        _ => out,
    }
}

/// Why a descriptor could not be read.
#[derive(Debug)]
pub enum DescriptorError {
    /// The text is not JSON.
    NotJson,
    /// The JSON has no string `name` member.
    MissingName,
}

/// The `name` of the descriptor whose file holds `text`.
pub fn read_descriptor_name(text: &str) -> (r: Result<String, DescriptorError>)
    ensures
        match parsed_json(text@) {
            None => r matches Err(DescriptorError::NotJson),
            Some(v) => match name_of(v) {
                Some(n) => r is Ok && r->Ok_0@ == n,
                None => r matches Err(DescriptorError::MissingName),
            },
        },
{
    match parse_json(text) {
        None => Err(DescriptorError::NotJson),
        Some(v) => match descriptor_name(&v) {
            Some(n) => Ok(n),
            None => Err(DescriptorError::MissingName),
        },
    }
}

/// The dependencies of the descriptor whose file holds `text`.
pub fn read_descriptor_dependencies(text: &str) -> (r: Result<Vec<String>, DescriptorError>)
    ensures
        match parsed_json(text@) {
            None => r matches Err(DescriptorError::NotJson),
            Some(v) => r is Ok && views(r->Ok_0@) == dependencies_of(v),
        },
{
    match parse_json(text) {
        None => Err(DescriptorError::NotJson),
        Some(v) => Ok(descriptor_dependencies(&v)),
    }
}

} // verus!
