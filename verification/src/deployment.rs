//! `vmz-deployment.json` queries: schema check, component rows, and the
//! forward `dependsOn` closure of a set of chunks.

use vstd::prelude::*;
use crate::order::{
    ins_sorted, insert_sorted_unique, lemma_ins_sorted_at, lex_lt, stable_sort, strictly_sorted, texts,
};
use crate::text::{chars_eq, from_chars, posix, push_all, push_str, replace_char_exec, to_chars};

verus! {

/// Schema id of a deployment document.
pub const DEPLOYMENT_SCHEMA: &'static str = "vmz.deployment.v0";

/// What a compiled module is.
#[derive(Debug, Clone, Copy, PartialEq, Eq, Structural)]
pub enum VmzModuleKind {
    App,
    Application,
    Page,
    Component,
    Other,
}

/// One compiled unit of a deployment.
#[derive(Debug, Clone)]
pub struct DeploymentUnit {
    pub chunk_id: String,
    pub kind: VmzModuleKind,
    pub client_entry: String,
    pub source: String,
    pub depends_on: Vec<String>,
}

/// A deployment document.
#[derive(Debug, Clone)]
pub struct DeploymentDocument {
    pub schema: String,
    pub units: Vec<DeploymentUnit>,
}

/// Why a deployment document was refused.
#[derive(Debug, Clone)]
pub enum ArtifactError {
    /// The JSON text could not be read (the parser's message).
    Json(String),
    /// The `schema` field names another schema.
    Schema(String),
    /// Another refusal, with its message.
    Message(String),
}

/// One client component row of a deployment.
#[derive(Debug, Clone)]
pub struct ComponentEntry {
    /// Stable chunk id (`components/Button`).
    pub chunk_id: String,
    /// Tag name (last segment of the chunk id).
    pub name: String,
    /// Client entry path relative to dist.
    pub entry: String,
    /// Workspace-relative `.vmz` source path.
    pub source: String,
}

/// Check the schema id (the rest of the structure is the parser's job).
pub fn validate_deployment(doc: &DeploymentDocument) -> (r: Result<(), ArtifactError>)
    ensures
        r is Ok <==> doc.schema@ == DEPLOYMENT_SCHEMA@,
        r matches Err(ArtifactError::Schema(s)) ==> s@ == doc.schema@,
        r is Err ==> r->Err_0 is Schema,
{
    let s = to_chars(doc.schema.as_str());
    let want = to_chars(DEPLOYMENT_SCHEMA);
    if !chars_eq(s.as_slice(), want.as_slice()) {
        return Err(ArtifactError::Schema(doc.schema.clone()));
    }
    Ok(())
}

/// A chunk id with `/` separators.
pub fn normalize_chunk_id(id: &str) -> (r: String)
    ensures
        r@ == posix(id@),
{
    let v = to_chars(id);
    let p = replace_char_exec(v.as_slice(), '\\', '/');
    from_chars(p.as_slice())
}

/// The last unit whose normalised chunk id is `id`.
pub open spec fn last_unit(units: Seq<DeploymentUnit>, id: Seq<char>) -> Option<int> {
    if exists|i: int| 0 <= i < units.len() && posix(units[i].chunk_id@) == id {
        Some(choose|i: int| 0 <= i < units.len() && posix(units[i].chunk_id@) == id && forall|k: int|
            i < k < units.len() ==> posix((#[trigger] units[k]).chunk_id@) != id)
    } else {
        None
    }
}

/// `set` holds the normalised dependencies of every member that has a unit.
pub open spec fn closed_under_deps(units: Seq<DeploymentUnit>, set: Set<Seq<char>>) -> bool {
    forall|x: Seq<char>, k: int| #![trigger set.contains(x), last_unit(units, x), units[k]]
        set.contains(x) && last_unit(units, x) == Some(k) ==> forall|d: int|
            0 <= d < units[k].depends_on.len() ==> set.contains(posix(#[trigger] units[k].depends_on@[d]@))
}

/// The non-empty normalised roots.
pub open spec fn root_set(roots: Seq<String>) -> Set<Seq<char>> {
    Set::new(|x: Seq<char>| x.len() > 0 && exists|i: int| 0 <= i < roots.len() && posix(#[trigger] roots[i]@) == x)
}

fn index_of_last_unit(units: &Vec<DeploymentUnit>, id: &[char]) -> (r: Option<usize>)
    ensures
        match r {
            Some(i) => last_unit(units@, id@) == Some(i as int) && i < units.len(),
            None => last_unit(units@, id@) is None,
        },
{
    let mut k = units.len();
    while k > 0
        invariant
            k <= units.len(),
            forall|m: int| k <= m < units.len() ==> posix((#[trigger] units@[m]).chunk_id@) != id@,
        decreases k,
    {
        let c = to_chars(units[k - 1].chunk_id.as_str());
        let n = replace_char_exec(c.as_slice(), '\\', '/');
        if chars_eq(n.as_slice(), id) {
            proof {
                let i = (k - 1) as int;
                assert(exists|j: int| 0 <= j < units@.len() && posix(units@[j].chunk_id@) == id@);
                let c2 = choose|j: int| 0 <= j < units@.len() && posix(units@[j].chunk_id@) == id@ && forall|m: int|
                    j < m < units@.len() ==> posix((#[trigger] units@[m]).chunk_id@) != id@;
                assert(0 <= i < units@.len() && posix(units@[i].chunk_id@) == id@ && forall|m: int|
                    i < m < units@.len() ==> posix((#[trigger] units@[m]).chunk_id@) != id@);
                if c2 < i {
                    assert(posix(units@[i].chunk_id@) != id@);
                } else if c2 > i {
                    assert(posix(units@[c2].chunk_id@) != id@);
                }
            }
            return Some(k - 1);
        }
        k = k - 1;
    }
    None
}

fn sorted_contains(v: &Vec<String>, x: &[char]) -> (r: bool)
    ensures
        r == texts(v@).contains(x@),
{
    let mut i: usize = 0;
    while i < v.len()
        invariant
            i <= v.len(),
            forall|j: int| 0 <= j < i ==> texts(v@)[j] != x@,
        decreases v.len() - i,
    {
        let c = to_chars(v[i].as_str());
        if chars_eq(c.as_slice(), x) {
            proof {
                assert(texts(v@)[i as int] == x@);
            }
            return true;
        }
        i = i + 1;
    }
    false
}

/// The texts of a sequence of character vectors.
pub open spec fn char_views(c: Seq<Vec<char>>) -> Seq<Seq<char>> {
    c.map_values(|v: Vec<char>| v@)
}

/// Every id that can become a member of a closure: the normalised roots and
/// the normalised dependencies of every unit.
fn candidate_ids(doc: &DeploymentDocument, roots: &[String]) -> (c: Vec<Vec<char>>)
    ensures
        forall|j: int| 0 <= j < roots.len() ==> #[trigger] char_views(c@).contains(posix(roots@[j]@)),
        forall|k: int, d: int|
            0 <= k < doc.units.len() && 0 <= d < doc.units@[k].depends_on.len() ==> char_views(c@).contains(
                posix(#[trigger] doc.units@[k].depends_on@[d]@),
            ),
{
    broadcast use vstd::seq_lib::group_seq_properties;
    let mut c: Vec<Vec<char>> = Vec::new();
    let mut i: usize = 0;
    while i < roots.len()
        invariant
            i <= roots.len(),
            forall|j: int| 0 <= j < i ==> #[trigger] char_views(c@).contains(posix(roots@[j]@)),
        decreases roots.len() - i,
    {
        let v = to_chars(roots[i].as_str());
        let n = replace_char_exec(v.as_slice(), '\\', '/');
        let ghost before = char_views(c@);
        c.push(n);
        proof {
            assert(char_views(c@) =~= before.push(posix(roots@[i as int]@)));
            crate::order::lemma_push_contains(before, posix(roots@[i as int]@));
        }
        i = i + 1;
    }
    let mut k: usize = 0;
    while k < doc.units.len()
        invariant
            k <= doc.units.len(),
            forall|j: int| 0 <= j < roots.len() ==> #[trigger] char_views(c@).contains(posix(roots@[j]@)),
            forall|k2: int, d: int|
                0 <= k2 < k && 0 <= d < doc.units@[k2].depends_on.len() ==> char_views(c@).contains(
                    posix(#[trigger] doc.units@[k2].depends_on@[d]@),
                ),
        decreases doc.units.len() - k,
    {
        let deps = &doc.units[k].depends_on;
        let mut d: usize = 0;
        while d < deps.len()
            invariant
                k < doc.units.len(),
                deps == doc.units@[k as int].depends_on,
                d <= deps.len(),
                forall|j: int| 0 <= j < roots.len() ==> #[trigger] char_views(c@).contains(posix(roots@[j]@)),
                forall|k2: int, d2: int|
                    0 <= k2 < k && 0 <= d2 < doc.units@[k2].depends_on.len() ==> char_views(c@).contains(
                        posix(#[trigger] doc.units@[k2].depends_on@[d2]@),
                    ),
                forall|d2: int| 0 <= d2 < d ==> char_views(c@).contains(posix(#[trigger] deps@[d2]@)),
            decreases deps.len() - d,
        {
            let v = to_chars(deps[d].as_str());
            let n = replace_char_exec(v.as_slice(), '\\', '/');
            let ghost before = char_views(c@);
            c.push(n);
            proof {
                assert(char_views(c@) =~= before.push(posix(deps@[d as int]@)));
                crate::order::lemma_push_contains(before, posix(deps@[d as int]@));
            }
            d = d + 1;
        }
        k = k + 1;
    }
    c
}

/// Appends `n` unless its text is already there.
fn push_if_absent(out: &mut Vec<String>, n: String)
    ensures
        texts(final(out)@) == if texts(old(out)@).contains(n@) {
            texts(old(out)@)
        } else {
            texts(old(out)@).push(n@)
        },
        texts(final(out)@).contains(n@),
        forall|x: Seq<char>| texts(old(out)@).contains(x) ==> #[trigger] texts(final(out)@).contains(x),
        texts(old(out)@).no_duplicates() ==> texts(final(out)@).no_duplicates(),
{
    proof {
        crate::order::lemma_push_contains(texts(out@), n@);
    }
    let nv = to_chars(n.as_str());
    if !sorted_contains(out, nv.as_slice()) {
        let ghost before = texts(out@);
        out.push(n);
        proof {
            assert(texts(out@) =~= before.push(nv@));
        }
    }
}

/// One step of the closure: adding the dependencies of a member keeps the
/// members inside every closed set that holds the roots.
proof fn lemma_dep_in_closed_sets(
    units: Seq<DeploymentUnit>,
    roots: Seq<String>,
    x: Seq<char>,
    k: int,
    d: int,
    s: Set<Seq<char>>,
)
    requires
        root_set(roots).subset_of(s),
        closed_under_deps(units, s),
        s.contains(x),
        last_unit(units, x) == Some(k),
        0 <= k < units.len(),
        0 <= d < units[k].depends_on.len(),
    ensures
        s.contains(posix(units[k].depends_on@[d]@)),
{
    assert(s.contains(x) && last_unit(units, x) == Some(k));
    let _ = units[k];
}

/// Normalised texts of ids.
pub open spec fn posix_all(ids: Seq<String>) -> Seq<Seq<char>> {
    ids.map_values(|x: String| posix(x@))
}

/// Appends the normalised `deps` that are not there yet, in order.
fn add_deps(out: &mut Vec<String>, deps: &Vec<String>)
    requires
        texts(old(out)@).no_duplicates(),
    ensures
        texts(final(out)@).no_duplicates(),
        texts(old(out)@).len() <= texts(final(out)@).len(),
        texts(old(out)@) == texts(final(out)@).take(texts(old(out)@).len() as int),
        forall|j: int| texts(old(out)@).len() <= j < texts(final(out)@).len() ==> posix_all(deps@).contains(#[trigger] texts(final(out)@)[j]),
        forall|d: int| 0 <= d < deps.len() ==> texts(final(out)@).contains(posix(#[trigger] deps@[d]@)),
{
    let ghost start = texts(out@);
    let mut d: usize = 0;
    while d < deps.len()
        invariant
            d <= deps.len(),
            start == texts(old(out)@),
            texts(out@).no_duplicates(),
            start.len() <= texts(out@).len(),
            start == texts(out@).take(start.len() as int),
            forall|j: int| start.len() <= j < texts(out@).len() ==> posix_all(deps@).contains(#[trigger] texts(out@)[j]),
            forall|d2: int| 0 <= d2 < d ==> texts(out@).contains(posix(#[trigger] deps@[d2]@)),
        decreases deps.len() - d,
    {
        let n = normalize_chunk_id(deps[d].as_str());
        let ghost before = texts(out@);
        push_if_absent(out, n);
        proof {
            assert(texts(out@).take(start.len() as int) =~= before.take(start.len() as int));
            assert forall|j: int| start.len() <= j < texts(out@).len() implies posix_all(deps@).contains(#[trigger] texts(out@)[j]) by {
                if j < before.len() {
                    assert(texts(out@)[j] == before[j]);
                } else {
                    assert(texts(out@)[j] == posix(deps@[d as int]@));
                    assert(posix_all(deps@)[d as int] == posix(deps@[d as int]@));
                }
            }
        }
        d = d + 1;
    }
    assert(d == deps.len());
}

/// Members added from the dependencies of a member of every closed set
/// holding the roots stay inside every such set.
proof fn lemma_added_in_closed_sets(
    units: Seq<DeploymentUnit>,
    roots: Seq<String>,
    before: Seq<Seq<char>>,
    after: Seq<Seq<char>>,
    cursor: int,
    k: int,
)
    requires
        0 <= cursor < before.len(),
        0 <= k < units.len(),
        last_unit(units, before[cursor]) == Some(k),
        before.len() <= after.len(),
        before == after.take(before.len() as int),
        forall|j: int| before.len() <= j < after.len() ==> posix_all(units[k].depends_on@).contains(#[trigger] after[j]),
        forall|s: Set<Seq<char>>|
            root_set(roots).subset_of(s) && closed_under_deps(units, s) ==> #[trigger] before.to_set().subset_of(s),
    ensures
        forall|s: Set<Seq<char>>|
            root_set(roots).subset_of(s) && closed_under_deps(units, s) ==> #[trigger] after.to_set().subset_of(s),
{
    let x = before[cursor];
    assert forall|s: Set<Seq<char>>|
        root_set(roots).subset_of(s) && closed_under_deps(units, s) implies #[trigger] after.to_set().subset_of(s) by {
        assert(before.to_set().subset_of(s));
        assert(before.to_set().contains(x));
        assert forall|y: Seq<char>| after.to_set().contains(y) implies s.contains(y) by {
            let w = choose|w: int| 0 <= w < after.len() && after[w] == y;
            if w < before.len() {
                assert(before[w] == y);
                assert(before.to_set().contains(y));
            } else {
                assert(posix_all(units[k].depends_on@).contains(after[w]));
                let d2 = choose|d2: int| 0 <= d2 < units[k].depends_on.len() && posix_all(units[k].depends_on@)[d2] == after[w];
                lemma_dep_in_closed_sets(units, roots, x, k, d2, s);
            }
        }
    }
}

/// Once the dependencies of member `cursor` are in, every member up to it
/// has its dependencies in.
proof fn lemma_prefix_closed(
    units: Seq<DeploymentUnit>,
    before: Seq<Seq<char>>,
    after: Seq<Seq<char>>,
    cursor: int,
    k: Option<int>,
)
    requires
        0 <= cursor < before.len(),
        last_unit(units, before[cursor]) == k,
        k is Some ==> 0 <= k->0 < units.len(),
        before.len() <= after.len(),
        before == after.take(before.len() as int),
        k is Some ==> forall|d: int|
            0 <= d < units[k->0].depends_on.len() ==> after.contains(posix(#[trigger] units[k->0].depends_on@[d]@)),
        forall|j: int, k2: int, d: int|
            #![trigger before[j], units[k2].depends_on@[d]]
            0 <= j < cursor && last_unit(units, before[j]) == Some(k2) && 0 <= d < units[k2].depends_on.len()
                ==> before.contains(posix(units[k2].depends_on@[d]@)),
    ensures
        forall|j: int, k2: int, d: int|
            #![trigger after[j], units[k2].depends_on@[d]]
            0 <= j < cursor + 1 && last_unit(units, after[j]) == Some(k2) && 0 <= d < units[k2].depends_on.len()
                ==> after.contains(posix(units[k2].depends_on@[d]@)),
{
    assert forall|j: int, k2: int, d: int|
        #![trigger after[j], units[k2].depends_on@[d]]
        0 <= j < cursor + 1 && last_unit(units, after[j]) == Some(k2) && 0 <= d < units[k2].depends_on.len()
            implies after.contains(posix(units[k2].depends_on@[d]@)) by {
        assert(after[j] == before[j]);
        if j < cursor {
            assert(before.contains(posix(units[k2].depends_on@[d]@)));
            let w = choose|w: int| 0 <= w < before.len() && before[w] == posix(units[k2].depends_on@[d]@);
            assert(after[w] == before[w]);
        } else {
            assert(after.contains(posix(units[k2].depends_on@[d]@)));
        }
    }
}

/// Forward `dependsOn` closure of `roots` (roots included): the least set
/// holding the non-empty normalised roots and the normalised dependencies
/// of each member that has a unit; sorted, each id once.
pub fn collect_depends_on_closure(doc: &DeploymentDocument, roots: &[String]) -> (r: Vec<String>)
    ensures
        strictly_sorted(texts(r@)),
        root_set(roots@).subset_of(texts(r@).to_set()),
        closed_under_deps(doc.units@, texts(r@).to_set()),
        forall|s: Set<Seq<char>>|
            root_set(roots@).subset_of(s) && closed_under_deps(doc.units@, s) ==> #[trigger] texts(r@).to_set().subset_of(s),
{
    broadcast use vstd::seq_lib::group_seq_properties;
    let units = &doc.units;
    let cand = candidate_ids(doc, roots);
    let ghost cset = char_views(cand@).to_set();
    proof {
        vstd::seq_lib::seq_to_set_is_finite(char_views(cand@));
    }
    let mut out: Vec<String> = Vec::new();
    let mut i: usize = 0;
    while i < roots.len()
        invariant
            i <= roots.len(),
            cset == char_views(cand@).to_set(),
            forall|j: int| 0 <= j < roots.len() ==> #[trigger] char_views(cand@).contains(posix(roots@[j]@)),
            texts(out@).no_duplicates(),
            forall|j: int| 0 <= j < out.len() ==> cset.contains(#[trigger] texts(out@)[j]),
            forall|j: int| 0 <= j < out.len() ==> root_set(roots@).contains(#[trigger] texts(out@)[j]),
            forall|j: int| 0 <= j < i && posix(roots@[j]@).len() > 0 ==> texts(out@).contains(#[trigger] posix(roots@[j]@)),
        decreases roots.len() - i,
    {
        let n = normalize_chunk_id(roots[i].as_str());
        if !n.as_str().is_empty() {
            let ghost before = texts(out@);
            let ghost nv = n@;
            push_if_absent(&mut out, n);
            proof {
                assert(char_views(cand@).contains(posix(roots@[i as int]@)));
                assert(root_set(roots@).contains(nv));
            }
        }
        i = i + 1;
    }
    proof {
        assert forall|x: Seq<char>| root_set(roots@).contains(x) implies texts(out@).contains(x) by {
            let j = choose|j: int| 0 <= j < roots@.len() && posix(#[trigger] roots@[j]@) == x;
        }
        assert forall|s: Set<Seq<char>>|
            root_set(roots@).subset_of(s) && closed_under_deps(units@, s) implies #[trigger] texts(out@).to_set().subset_of(s) by {
            assert forall|y: Seq<char>| texts(out@).to_set().contains(y) implies s.contains(y) by {
                let w = choose|w: int| 0 <= w < texts(out@).len() && texts(out@)[w] == y;
                assert(root_set(roots@).contains(texts(out@)[w]));
            }
        }
    }
    let mut cursor: usize = 0;
    while cursor < out.len()
        invariant
            cursor <= out.len(),
            cset.finite(),
            cset == char_views(cand@).to_set(),
            forall|k: int, d: int|
                0 <= k < units.len() && 0 <= d < units@[k].depends_on.len() ==> char_views(cand@).contains(
                    posix(#[trigger] units@[k].depends_on@[d]@),
                ),
            texts(out@).no_duplicates(),
            forall|j: int| 0 <= j < out.len() ==> cset.contains(#[trigger] texts(out@)[j]),
            forall|x: Seq<char>| root_set(roots@).contains(x) ==> #[trigger] texts(out@).contains(x),
            forall|j: int, k: int, d: int|
                #![trigger texts(out@)[j], units@[k].depends_on@[d]]
                0 <= j < cursor && last_unit(units@, texts(out@)[j]) == Some(k) && 0 <= d < units@[k].depends_on.len()
                    ==> texts(out@).contains(posix(units@[k].depends_on@[d]@)),
            forall|s: Set<Seq<char>>|
                root_set(roots@).subset_of(s) && closed_under_deps(units@, s) ==> #[trigger] texts(out@).to_set().subset_of(s),
        decreases cset.len() - cursor,
    {
        proof {
            texts(out@).unique_seq_to_set();
            assert(texts(out@).to_set().subset_of(cset));
            vstd::set_lib::lemma_len_subset(texts(out@).to_set(), cset);
        }
        let x = to_chars(out[cursor].as_str());
        let ghost at_start = texts(out@);
        let found = index_of_last_unit(units, x.as_slice());
        match found {
            Some(k) => {
                add_deps(&mut out, &units[k].depends_on);
                proof {
                    lemma_added_in_closed_sets(units@, roots@, at_start, texts(out@), cursor as int, k as int);
                    assert forall|j: int| 0 <= j < out.len() implies cset.contains(#[trigger] texts(out@)[j]) by {
                        if j >= at_start.len() {
                            assert(posix_all(units@[k as int].depends_on@).contains(texts(out@)[j]));
                            let d2 = choose|d2: int| 0 <= d2 < units@[k as int].depends_on.len() && posix_all(units@[k as int].depends_on@)[d2] == texts(out@)[j];
                            assert(char_views(cand@).contains(posix(units@[k as int].depends_on@[d2]@)));
                        } else {
                            assert(texts(out@)[j] == at_start[j]);
                        }
                    }
                }
            },
            None => {},
        }
        proof {
            if found is None {
                assert(at_start =~= texts(out@).take(at_start.len() as int));
            }
            let kk = match found {
                Some(k) => Some(k as int),
                None => None,
            };
            lemma_prefix_closed(units@, at_start, texts(out@), cursor as int, kk);
            assert forall|x2: Seq<char>| root_set(roots@).contains(x2) implies #[trigger] texts(out@).contains(x2) by {
                assert(at_start.contains(x2));
                let w = choose|w: int| 0 <= w < at_start.len() && at_start[w] == x2;
                assert(texts(out@)[w] == x2);
            }
        }
        cursor = cursor + 1;
    }
    proof {
        assert forall|x: Seq<char>, k: int| #![trigger texts(out@).to_set().contains(x), last_unit(units@, x), units@[k]]
            texts(out@).to_set().contains(x) && last_unit(units@, x) == Some(k) implies forall|d: int|
                0 <= d < units@[k].depends_on.len() ==> texts(out@).to_set().contains(posix(#[trigger] units@[k].depends_on@[d]@)) by {
            let j = choose|j: int| 0 <= j < texts(out@).len() && texts(out@)[j] == x;
            assert forall|d: int| 0 <= d < units@[k].depends_on.len() implies texts(out@).to_set().contains(
                posix(#[trigger] units@[k].depends_on@[d]@),
            ) by {
                assert(texts(out@)[j] == x);
                let _ = units@[k].depends_on@[d];
            }
        }
    }
    let mut r: Vec<String> = Vec::new();
    let mut j: usize = 0;
    while j < out.len()
        invariant
            j <= out.len(),
            strictly_sorted(texts(r@)),
            texts(r@).to_set() == texts(out@).take(j as int).to_set(),
        decreases out.len() - j,
    {
        insert_sorted_unique(&mut r, out[j].clone());
        proof {
            assert(texts(out@).take(j + 1) =~= texts(out@).take(j as int) + seq![texts(out@)[j as int]]);
            Seq::lemma_to_set_insert_commutes(texts(out@).take(j as int), texts(out@)[j as int]);
        }
        j = j + 1;
    }
    proof {
        assert(texts(out@).take(out.len() as int) =~= texts(out@));
    }
    r
}


/// The text after the last `/` (all of `s` when it has none).
pub open spec fn last_segment(s: Seq<char>) -> Seq<char>
    decreases s.len(),
{
    if s.len() == 0 {
        s
    } else if s.last() == '/' {
        Seq::empty()
    } else {
        last_segment(s.drop_last()).push(s.last())
    }
}

pub(crate) fn last_segment_exec(s: &[char]) -> (r: Vec<char>)
    ensures
        r@ == last_segment(s@),
{
    let mut k = s.len();
    proof {
        assert(s@.take(k as int) =~= s@);
    }
    while k > 0 && s[k - 1] != '/'
        invariant
            k <= s.len(),
            last_segment(s@) == last_segment(s@.take(k as int)) + s@.subrange(k as int, s.len() as int),
        decreases k,
    {
        proof {
            assert(s@.take(k as int).drop_last() =~= s@.take(k - 1));
            assert(s@.subrange(k - 1, s.len() as int) =~= seq![s@[k - 1]] + s@.subrange(k as int, s.len() as int));
            assert(last_segment(s@.take(k - 1)).push(s@[k - 1]) + s@.subrange(k as int, s.len() as int) =~= last_segment(s@.take(k - 1)) + s@.subrange(k - 1, s.len() as int));
        }
        k = k - 1;
    }
    proof {
        assert(last_segment(s@.take(k as int)) =~= Seq::<char>::empty());
    }
    let mut r: Vec<char> = Vec::new();
    let mut i = k;
    while i < s.len()
        invariant
            k <= i <= s.len(),
            r@ == s@.subrange(k as int, i as int),
        decreases s.len() - i,
    {
        r.push(s[i]);
        proof {
            assert(s@.subrange(k as int, i + 1) =~= s@.subrange(k as int, i as int).push(s@[i as int]));
        }
        i = i + 1;
    }
    proof {
        assert(last_segment(s@) =~= r@);
    }
    r
}

/// A component row as plain values: (chunk id, name, entry, source).
pub open spec fn row_view(e: ComponentEntry) -> (Seq<char>, Seq<char>, Seq<char>, Seq<char>) {
    (e.chunk_id@, e.name@, e.entry@, e.source@)
}

/// The row of a component unit with a non-empty tag name.
pub open spec fn component_row(u: DeploymentUnit) -> Option<(Seq<char>, Seq<char>, Seq<char>, Seq<char>)> {
    let c = posix(u.chunk_id@);
    if u.kind != VmzModuleKind::Component || last_segment(c).len() == 0 {
        None
    } else {
        Some((
            c,
            last_segment(c),
            if u.client_entry@.len() == 0 {
                c + ".client.js"@
            } else {
                posix(u.client_entry@)
            },
            u.source@,
        ))
    }
}

/// Rows of all component units, in unit order.
pub open spec fn component_rows(units: Seq<DeploymentUnit>) -> Seq<(Seq<char>, Seq<char>, Seq<char>, Seq<char>)>
    decreases units.len(),
{
    if units.len() == 0 {
        Seq::empty()
    } else {
        match component_row(units.last()) {
            Some(r) => component_rows(units.drop_last()).push(r),
            None => component_rows(units.drop_last()),
        }
    }
}

/// Order of rows by chunk id.
pub open spec fn row_lt() -> spec_fn((Seq<char>, Seq<char>, Seq<char>, Seq<char>), (Seq<char>, Seq<char>, Seq<char>, Seq<char>)) -> bool {
    |a: (Seq<char>, Seq<char>, Seq<char>, Seq<char>), b: (Seq<char>, Seq<char>, Seq<char>, Seq<char>)| lex_lt(a.0, b.0)
}

fn row_lt_at(rows: &Vec<ComponentEntry>, x: &[char], p: usize) -> (r: bool)
    requires
        p < rows.len(),
    ensures
        r == lex_lt(x@, rows@[p as int].chunk_id@),
{
    let y = to_chars(rows[p].chunk_id.as_str());
    crate::order::lex_order(x, y.as_slice()) < 0
}

/// Component units of a deployment, stably sorted by chunk id.
pub fn component_entries(doc: &DeploymentDocument) -> (r: Vec<ComponentEntry>)
    ensures
        r@.map_values(|e: ComponentEntry| row_view(e)) == stable_sort(component_rows(doc.units@), row_lt()),
{
    let ghost units = doc.units@;
    let mut out: Vec<ComponentEntry> = Vec::new();
    let mut i: usize = 0;
    while i < doc.units.len()
        invariant
            i <= doc.units.len(),
            units == doc.units@,
            out@.map_values(|e: ComponentEntry| row_view(e)) == stable_sort(component_rows(units.take(i as int)), row_lt()),
        decreases doc.units.len() - i,
    {
        let unit = &doc.units[i];
        proof {
            assert(units.take(i + 1).drop_last() =~= units.take(i as int));
            assert(units.take(i + 1).last() == *unit);
        }
        if unit.kind == VmzModuleKind::Component {
            let chunk_id = normalize_chunk_id(unit.chunk_id.as_str());
            let cv = to_chars(chunk_id.as_str());
            let name = last_segment_exec(cv.as_slice());
            if name.len() > 0 {
                let entry = if unit.client_entry.as_str().is_empty() {
                    let mut e = to_chars(chunk_id.as_str());
                    push_str(&mut e, ".client.js");
                    from_chars(e.as_slice())
                } else {
                    normalize_chunk_id(unit.client_entry.as_str())
                };
                let row = ComponentEntry { chunk_id, name: from_chars(name.as_slice()), entry, source: unit.source.clone() };
                let ghost rv = row_view(row);
                let ghost t = out@.map_values(|e: ComponentEntry| row_view(e));
                let mut p: usize = 0;
                while p < out.len() && !row_lt_at(&out, cv.as_slice(), p)
                    invariant
                        p <= out.len(),
                        cv@ == rv.0,
                        forall|k: int| 0 <= k < p ==> !lex_lt(rv.0, (#[trigger] out@[k]).chunk_id@),
                    decreases out.len() - p,
                {
                    p = p + 1;
                }
                proof {
                    assert(component_row(*unit) == Some(rv));
                    assert(component_rows(units.take(i + 1)) == component_rows(units.take(i as int)).push(rv));
                    assert forall|k: int| 0 <= k < p implies !(row_lt())(rv, #[trigger] t[k]) by {
                        assert(!lex_lt(rv.0, out@[k].chunk_id@));
                    }
                    lemma_ins_sorted_at(t, rv, row_lt(), p as int);
                    let q = component_rows(units.take(i as int)).push(rv);
                    assert(q.drop_last() =~= component_rows(units.take(i as int)));
                }
                out.insert(p, row);
                proof {
                    assert(out@.map_values(|e: ComponentEntry| row_view(e)) =~= t.take(p as int) + seq![rv] + t.skip(p as int));
                }
            } else {
                proof {
                    assert(component_row(*unit) is None);
                }
            }
        } else {
            proof {
                assert(component_row(*unit) is None);
            }
        }
        i = i + 1;
    }
    proof {
        assert(units.take(doc.units.len() as int) =~= units);
    }
    out
}
} // verus!
