//! The cache scanner and inspector: identifying candidate model directories
//! in the artifact cache and reconstructing records from their contents.
//!
//! The cache root is an externally owned directory tree in vendor layout:
//! top-level directories named `models--<org>--<repo>`, each holding `refs/`
//! and `snapshots/<hash>/...`. The thin binary walks that tree once and
//! hands a snapshot of plain values — one [`CacheDirEntry`] per immediate
//! child — to the functions here, which make every decision.

use vstd::prelude::*;
use vstd::assert_by_contradiction;
use vstd::string::StringExecFns;
use crate::codec::{push_char, str_chars};
use crate::models::{ModelFile, ModelFileView, ModelInfo, ModelInfoView};

verus! {

/// One content revision directory beneath a cache entry's `snapshots/`
/// directory: the regular files found by walking it depth-first, in
/// discovery order.
#[derive(Debug, Clone)]
pub struct SnapshotDir {
    pub files: Vec<ModelFile>,
}

impl View for SnapshotDir {
    type V = Seq<ModelFileView>;

    open spec fn view(&self) -> Seq<ModelFileView> {
        self.files@.map_values(|f: ModelFile| f@)
    }
}

/// What the scanner and inspector see of one immediate child of the cache
/// root: its name, whether it is a directory, whether it holds a `refs`
/// subdirectory, its snapshot directories (`None` when it has no
/// `snapshots` subdirectory), and the well-known files the hub client's
/// local path resolver found for it, in probe order.
#[derive(Debug, Clone)]
pub struct CacheDirEntry {
    pub name: String,
    pub is_dir: bool,
    pub has_refs: bool,
    pub snapshots: Option<Vec<SnapshotDir>>,
    pub resolved_files: Vec<ModelFile>,
}

/// Mathematical view of a [`CacheDirEntry`].
#[verifier::ext_equal]
pub ghost struct CacheDirEntryView {
    pub name: Seq<char>,
    pub is_dir: bool,
    pub has_refs: bool,
    pub snapshots: Option<Seq<Seq<ModelFileView>>>,
    pub resolved_files: Seq<ModelFileView>,
}

impl View for CacheDirEntry {
    type V = CacheDirEntryView;

    open spec fn view(&self) -> CacheDirEntryView {
        CacheDirEntryView {
            name: self.name@,
            is_dir: self.is_dir,
            has_refs: self.has_refs,
            snapshots: match self.snapshots {
                None => None,
                Some(v) => Some(v@.map_values(|s: SnapshotDir| s@)),
            },
            resolved_files: self.resolved_files@.map_values(|f: ModelFile| f@),
        }
    }
}

/// The fixed tag and separator that open every vendor-layout directory
/// name: `models--`.
pub open spec fn models_prefix() -> Seq<char> {
    seq!['m', 'o', 'd', 'e', 'l', 's', '-', '-']
}

/// First position at or after `i` where the two-character separator `--`
/// stands, or `-1` when it does not occur.
pub open spec fn find_sep(s: Seq<char>, i: int) -> int
    decreases s.len() - i,
{
    if i < 0 || i + 2 > s.len() {
        -1
    } else if s[i] == '-' && s[i + 1] == '-' {
        i
    } else {
        find_sep(s, i + 1)
    }
}

/// The model identifier a vendor-layout directory name stands for: the name
/// must split on `--` into exactly three segments — `models`, an
/// organisation and a repository — and the identifier joins the second and
/// third segment with `/`. Every other name, a further separator included,
/// yields the empty sequence, which marks the directory as excluded.
pub open spec fn extract_model_id_spec(name: Seq<char>) -> Seq<char> {
    if name.len() >= 8 && name.subrange(0, 8) == models_prefix() {
        let rest = name.skip(8);
        let j = find_sep(rest, 0);
        if j < 0 {
            Seq::empty()
        } else {
            let org = rest.subrange(0, j);
            let repo = rest.skip(j + 2);
            if find_sep(repo, 0) >= 0 {
                Seq::empty()
            } else {
                org + seq!['/'] + repo
            }
        }
    } else {
        Seq::empty()
    }
}

/// The identifier's characters with each `/` written as `--`.
pub open spec fn replace_slash(s: Seq<char>) -> Seq<char>
    decreases s.len(),
{
    if s.len() == 0 {
        Seq::empty()
    } else {
        (if s[0] == '/' {
            seq!['-', '-']
        } else {
            seq![s[0]]
        }) + replace_slash(s.drop_first())
    }
}

/// The vendor-layout directory name for a model identifier: `models--` with
/// the identifier's `/` written as `--`. The inverse of the scanner's parse
/// for well-formed identifiers.
pub open spec fn hf_cache_dir_name_spec(id: Seq<char>) -> Seq<char> {
    models_prefix() + replace_slash(id)
}

/// A candidate model directory: it holds both a `snapshots` and a `refs`
/// subdirectory, and `snapshots` holds at least one subdirectory.
pub open spec fn is_likely_spec(e: CacheDirEntryView) -> bool {
    match e.snapshots {
        None => false,
        Some(snaps) => e.has_refs && snaps.len() > 0,
    }
}

/// A hidden directory entry, skipped by the scanner.
pub open spec fn is_hidden(name: Seq<char>) -> bool {
    name.len() > 0 && name[0] == '.'
}

fn find_sep_exec(s: &Vec<char>, from: usize) -> (r: Option<usize>)
    requires
        from <= s.len(),
    ensures
        r is None ==> find_sep(s@, from as int) == -1,
        r matches Some(j) ==> (find_sep(s@, from as int) == j as int && from <= j && j + 2
            <= s.len()),
{
    let mut j: usize = from;
    while j < s.len() && j + 1 < s.len()
        invariant
            from <= j <= s.len(),
            find_sep(s@, from as int) == find_sep(s@, j as int),
        decreases s.len() - j,
    {
        if s[j] == '-' && s[j + 1] == '-' {
            return Some(j);
        }
        j = j + 1;
    }
    None
}

/// Derives the model identifier from a vendor-layout directory name, or the
/// empty string for a name that does not parse; an empty result never
/// enters the candidate set.
pub fn extract_model_id_from_hf_cache_path(name: &str) -> (r: String)
    ensures
        r@ == extract_model_id_spec(name@),
{
    let chars: Vec<char> = str_chars(name);
    let pfx: Vec<char> = vec!['m', 'o', 'd', 'e', 'l', 's', '-', '-'];
    proof {
        assert(pfx@ =~= models_prefix());
    }
    if chars.len() < 8 {
        return String::new();
    }
    let mut t: usize = 0;
    while t < 8
        invariant
            t <= 8,
            chars@ == name@,
            chars@.len() >= 8,
            pfx@ == models_prefix(),
            forall|u: int| 0 <= u < t ==> name@.subrange(0, 8)[u] == models_prefix()[u],
        decreases 8 - t,
    {
        if chars[t] != pfx[t] {
            proof {
                assert(name@.subrange(0, 8)[t as int] == name@[t as int]);
                assert(name@.subrange(0, 8) != models_prefix());
            }
            return String::new();
        }
        proof {
            assert(name@.subrange(0, 8)[t as int] == name@[t as int]);
        }
        t = t + 1;
    }
    proof {
        assert(name@.subrange(0, 8) =~= models_prefix());
    }
    let mut rest: Vec<char> = Vec::new();
    let mut u: usize = 8;
    while u < chars.len()
        invariant
            8 <= u <= chars.len(),
            chars@ == name@,
            chars@.len() >= 8,
            rest@ == name@.subrange(8, u as int),
        decreases chars.len() - u,
    {
        let c: char = chars[u];
        rest.push(c);
        proof {
            assert(name@.subrange(8, u as int + 1) =~= name@.subrange(8, u as int).push(
                name@[u as int],
            ));
        }
        u = u + 1;
    }
    proof {
        assert(rest@ =~= name@.skip(8));
    }
    let j: usize = match find_sep_exec(&rest, 0) {
        Some(v) => v,
        None => {
            return String::new();
        },
    };
    let mut after: Vec<char> = Vec::new();
    let mut w: usize = j + 2;
    while w < rest.len()
        invariant
            j + 2 <= w <= rest.len(),
            rest@ == name@.skip(8),
            after@ == rest@.subrange(j + 2, w as int),
        decreases rest.len() - w,
    {
        let c: char = rest[w];
        after.push(c);
        proof {
            assert(rest@.subrange(j + 2, w as int + 1) =~= rest@.subrange(j + 2, w as int).push(
                rest@[w as int],
            ));
        }
        w = w + 1;
    }
    proof {
        assert(after@ =~= rest@.skip(j + 2));
    }
    match find_sep_exec(&after, 0) {
        Some(_) => {
            return String::new();
        },
        None => {},
    }
    let kend: usize = after.len();
    let mut out: String = String::new();
    let mut a: usize = 0;
    while a < j
        invariant
            a <= j,
            j + 2 <= rest@.len(),
            rest@ == name@.skip(8),
            out@ == rest@.subrange(0, a as int),
        decreases j - a,
    {
        let c: char = rest[a];
        push_char(&mut out, c);
        proof {
            assert(rest@.subrange(0, a as int + 1) =~= rest@.subrange(0, a as int).push(
                rest@[a as int],
            ));
        }
        a = a + 1;
    }
    push_char(&mut out, '/');
    let ghost mid: Seq<char> = out@;
    let mut b: usize = 0;
    while b < kend
        invariant
            b <= kend,
            kend <= after@.len(),
            out@ == mid + after@.subrange(0, b as int),
        decreases kend - b,
    {
        let c: char = after[b];
        push_char(&mut out, c);
        proof {
            assert(after@.subrange(0, b as int + 1) =~= after@.subrange(0, b as int).push(
                after@[b as int],
            ));
        }
        b = b + 1;
    }
    proof {
        assert(after@.subrange(0, kend as int) =~= after@);
        assert(out@ =~= rest@.subrange(0, j as int) + seq!['/'] + after@);
        assert(out@ == extract_model_id_spec(name@));
    }
    out
}

proof fn lemma_replace_slash_snoc(s: Seq<char>, c: char)
    ensures
        replace_slash(s.push(c)) == replace_slash(s) + (if c == '/' {
            seq!['-', '-']
        } else {
            seq![c]
        }),
    decreases s.len(),
{
    let piece = if c == '/' {
        seq!['-', '-']
    } else {
        seq![c]
    };
    if s.len() == 0 {
        assert(s.push(c)[0] == c);
        assert(s.push(c).drop_first() =~= Seq::<char>::empty());
        assert(replace_slash(Seq::<char>::empty()) == Seq::<char>::empty());
        assert(replace_slash(s.push(c)) == piece + Seq::<char>::empty());
        assert(replace_slash(s.push(c)) =~= replace_slash(s) + piece);
    } else {
        lemma_replace_slash_snoc(s.drop_first(), c);
        let piece0 = if s[0] == '/' {
            seq!['-', '-']
        } else {
            seq![s[0]]
        };
        assert(s.push(c)[0] == s[0]);
        assert(s.push(c).drop_first() =~= s.drop_first().push(c));
        assert(replace_slash(s.push(c)) == piece0 + replace_slash(s.drop_first().push(c)));
        assert(replace_slash(s) == piece0 + replace_slash(s.drop_first()));
        assert(replace_slash(s.push(c)) =~= replace_slash(s) + piece);
    }
}

/// Rebuilds the vendor-layout directory name a model identifier is cached
/// under: the inverse of the scanner's parse.
pub fn hf_cache_dir_name(model_id: &str) -> (r: String)
    ensures
        r@ == hf_cache_dir_name_spec(model_id@),
{
    let mut out: String = String::new();
    out.append("models--");
    proof {
        reveal_strlit("models--");
        assert("models--"@ =~= models_prefix());
    }
    let chars: Vec<char> = str_chars(model_id);
    let mut i: usize = 0;
    while i < chars.len()
        invariant
            i <= chars.len(),
            chars@ == model_id@,
            out@ == models_prefix() + replace_slash(model_id@.take(i as int)),
        decreases chars.len() - i,
    {
        let c: char = chars[i];
        proof {
            lemma_replace_slash_snoc(model_id@.take(i as int), c);
            assert(model_id@.take(i as int + 1) =~= model_id@.take(i as int).push(
                model_id@[i as int],
            ));
        }
        if c == '/' {
            push_char(&mut out, '-');
            push_char(&mut out, '-');
        } else {
            push_char(&mut out, c);
        }
        proof {
            assert(out@ =~= models_prefix() + replace_slash(model_id@.take(i as int + 1)));
        }
        i = i + 1;
    }
    proof {
        assert(model_id@.take(chars@.len() as int) =~= model_id@);
    }
    out
}

proof fn lemma_replace_slash_concat(a: Seq<char>, b: Seq<char>)
    ensures
        replace_slash(a + b) == replace_slash(a) + replace_slash(b),
    decreases a.len(),
{
    if a.len() == 0 {
        assert(a + b =~= b);
        assert(replace_slash(a) == Seq::<char>::empty());
        assert(replace_slash(a) + replace_slash(b) =~= replace_slash(b));
    } else {
        lemma_replace_slash_concat(a.drop_first(), b);
        let piece0 = if a[0] == '/' {
            seq!['-', '-']
        } else {
            seq![a[0]]
        };
        assert((a + b)[0] == a[0]);
        assert((a + b).drop_first() =~= a.drop_first() + b);
        assert(replace_slash(a + b) == piece0 + replace_slash(a.drop_first() + b));
        assert(replace_slash(a) == piece0 + replace_slash(a.drop_first()));
        assert(replace_slash(a + b) =~= replace_slash(a) + replace_slash(b));
    }
}

proof fn lemma_replace_slash_slash_free(s: Seq<char>)
    requires
        forall|i: int| 0 <= i < s.len() ==> s[i] != '/',
    ensures
        replace_slash(s) == s,
    decreases s.len(),
{
    if s.len() > 0 {
        lemma_replace_slash_slash_free(s.drop_first());
        assert(replace_slash(s) =~= s);
    }
}

proof fn lemma_find_sep_at(s: Seq<char>, i: int, p: int)
    requires
        0 <= i <= p,
        p + 2 <= s.len(),
        s[p] == '-' && s[p + 1] == '-',
        forall|k: int| i <= k < p ==> !((#[trigger] s[k]) == '-' && s[k + 1] == '-'),
    ensures
        find_sep(s, i) == p,
    decreases p - i,
{
    if i < p {
        lemma_find_sep_at(s, i + 1, p);
    }
}

proof fn lemma_find_sep_none(s: Seq<char>, i: int)
    requires
        forall|k: int| 0 <= k && k + 1 < s.len() ==> !((#[trigger] s[k]) == '-' && s[k + 1] == '-'),
        0 <= i,
    ensures
        find_sep(s, i) == -1,
    decreases s.len() - i,
{
    if i + 2 <= s.len() {
        lemma_find_sep_none(s, i + 1);
    }
}

/// The scanner's parse inverts the directory-name construction: for an
/// identifier `org/repo` whose two segments hold no `/`, hold no `--`, and
/// whose organisation does not end in `-`, deriving the identifier back
/// from its vendor-layout directory name yields the identifier itself.
pub proof fn lemma_extract_inverts_dir_name(org: Seq<char>, repo: Seq<char>)
    requires
        forall|i: int| 0 <= i < org.len() ==> org[i] != '/',
        forall|i: int| 0 <= i < repo.len() ==> repo[i] != '/',
        forall|i: int| 0 <= i && i + 1 < org.len() ==> !((#[trigger] org[i]) == '-' && org[i + 1] == '-'),
        forall|i: int| 0 <= i && i + 1 < repo.len() ==> !((#[trigger] repo[i]) == '-' && repo[i + 1] == '-'),
        org.len() > 0 ==> org[org.len() - 1] != '-',
    ensures
        extract_model_id_spec(hf_cache_dir_name_spec(org + seq!['/'] + repo)) == org + seq!['/']
            + repo,
{
    let id = org + seq!['/'] + repo;
    let name = hf_cache_dir_name_spec(id);
    lemma_replace_slash_concat(org + seq!['/'], repo);
    lemma_replace_slash_concat(org, seq!['/']);
    lemma_replace_slash_slash_free(org);
    lemma_replace_slash_slash_free(repo);
    assert(seq!['/'][0] == '/');
    assert(seq!['/'].drop_first() =~= Seq::<char>::empty());
    assert(replace_slash(Seq::<char>::empty()) == Seq::<char>::empty());
    assert(replace_slash(seq!['/']) =~= seq!['-', '-']);
    assert(replace_slash(id) =~= org + seq!['-', '-'] + repo);
    let rest = org + seq!['-', '-'] + repo;
    assert(name =~= models_prefix() + rest);
    assert(name.len() >= 8);
    assert(name.subrange(0, 8) =~= models_prefix());
    assert(name.skip(8) =~= rest);
    assert(rest[org.len() as int] == '-' && rest[org.len() as int + 1] == '-');
    assert forall|k: int| 0 <= k < org.len() implies !((#[trigger] rest[k]) == '-' && rest[k + 1]
        == '-') by {
        assert(rest[k] == org[k]);
        if k + 1 < org.len() {
            assert(rest[k + 1] == org[k + 1]);
        } else {
            assert(k == org.len() - 1);
            assert(rest[k] == org[org.len() - 1]);
        }
    }
    lemma_find_sep_at(rest, 0, org.len() as int);
    assert(rest.subrange(0, org.len() as int) =~= org);
    assert(rest.skip(org.len() as int + 2) =~= repo);
    lemma_find_sep_none(repo, 0);
    assert(extract_model_id_spec(name) == org + seq!['/'] + repo);
}

/// Whether a cache root entry looks like a model cache directory: it holds
/// `snapshots` and `refs` subdirectories, and at least one snapshot.
pub fn is_likely_hf_model_cache(entry: &CacheDirEntry) -> (r: bool)
    ensures
        r == is_likely_spec(entry@),
{
    match &entry.snapshots {
        None => false,
        Some(snaps) => entry.has_refs && snaps.len() > 0,
    }
}

/// Cache reconstruction failed for one model identifier. Reconstruction is
/// attempted per identifier during a sync; a failure is logged and the sync
/// continues with the next identifier.
#[derive(Debug, Clone, PartialEq, Eq)]
pub enum ReconstructError {
    /// No cache directory with the identifier's vendor-layout name exists.
    DirectoryNotFound,
    /// The directory exists but neither the well-known-file probe nor the
    /// snapshot walk found any file.
    NoFilesFound,
}

/// The human-readable description of a reconstruction failure.
pub open spec fn reconstruct_error_message(e: ReconstructError, id: Seq<char>) -> Seq<char> {
    match e {
        ReconstructError::DirectoryNotFound => "Could not find HF cache directory for model '"@
            + id + "'"@,
        ReconstructError::NoFilesFound => "No model files found in HF cache for model '"@ + id
            + "'"@,
    }
}

impl ReconstructError {
    /// The description logged when reconstruction for `model_id` fails.
    pub fn message(&self, model_id: &str) -> (r: String)
        ensures
            r@ == reconstruct_error_message(*self, model_id@),
    {
        let mut out: String = String::new();
        match self {
            ReconstructError::DirectoryNotFound => {
                out.append("Could not find HF cache directory for model '");
            },
            ReconstructError::NoFilesFound => {
                out.append("No model files found in HF cache for model '");
            },
        }
        out.append(model_id);
        out.append("'");
        out
    }
}

/// An entry enters the candidate set iff it is a non-hidden directory that
/// looks like a model cache and its name parses to an identifier.
pub open spec fn contributes(e: CacheDirEntryView) -> bool {
    e.is_dir && !is_hidden(e.name) && is_likely_spec(e) && extract_model_id_spec(e.name).len() > 0
}

/// The candidate identifiers accumulated over the entries from `k` on.
pub open spec fn scan_loop_spec(
    entries: Seq<CacheDirEntryView>,
    k: int,
    acc: Seq<Seq<char>>,
) -> Seq<Seq<char>>
    decreases entries.len() - k,
{
    if k < 0 || k >= entries.len() {
        acc
    } else {
        let id = extract_model_id_spec(entries[k].name);
        if contributes(entries[k]) && !acc.contains(id) {
            scan_loop_spec(entries, k + 1, acc.push(id))
        } else {
            scan_loop_spec(entries, k + 1, acc)
        }
    }
}

/// The candidate identifier set of a cache root, in first-occurrence order
/// and without duplicates.
pub open spec fn scan_spec(entries: Seq<CacheDirEntryView>) -> Seq<Seq<char>> {
    scan_loop_spec(entries, 0, Seq::empty())
}

/// No identifier appears twice.
pub open spec fn distinct_ids(ids: Seq<Seq<char>>) -> bool {
    forall|j: int, k: int| 0 <= j < k < ids.len() ==> ids[j] != ids[k]
}

proof fn lemma_scan_loop_membership(entries: Seq<CacheDirEntryView>, k: int, acc: Seq<Seq<char>>)
    requires
        0 <= k,
    ensures
        forall|id: Seq<char>|
            #[trigger] scan_loop_spec(entries, k, acc).contains(id) <==> (acc.contains(id)
                || exists|t: int|
                k <= t < entries.len() && contributes(#[trigger] entries[t])
                    && extract_model_id_spec(entries[t].name) == id),
    decreases entries.len() - k,
{
    if k < entries.len() {
        let id0 = extract_model_id_spec(entries[k].name);
        let r = scan_loop_spec(entries, k, acc);
        if contributes(entries[k]) && !acc.contains(id0) {
            lemma_scan_loop_membership(entries, k + 1, acc.push(id0));
            assert(r == scan_loop_spec(entries, k + 1, acc.push(id0)));
            assert forall|id: Seq<char>| #[trigger] acc.push(id0).contains(id) implies (
            acc.contains(id) || id == id0) by {
                let w = choose|w: int| 0 <= w < acc.push(id0).len() && acc.push(id0)[w] == id;
                if w < acc.len() {
                    assert(acc[w] == id);
                }
            }
            assert forall|id: Seq<char>| #[trigger] r.contains(id) implies (acc.contains(id)
                || exists|t: int|
                k <= t < entries.len() && contributes(#[trigger] entries[t])
                    && extract_model_id_spec(entries[t].name) == id) by {
                assert(scan_loop_spec(entries, k + 1, acc.push(id0)).contains(id));
                if acc.push(id0).contains(id) {
                    if !acc.contains(id) {
                        assert(contributes(entries[k]) && extract_model_id_spec(entries[k].name)
                            == id);
                    }
                } else {
                    let t = choose|t: int|
                        k + 1 <= t < entries.len() && contributes(#[trigger] entries[t])
                            && extract_model_id_spec(entries[t].name) == id;
                    assert(k <= t < entries.len() && contributes(entries[t])
                        && extract_model_id_spec(entries[t].name) == id);
                }
            }
            assert forall|id: Seq<char>|
                (acc.contains(id) || exists|t: int|
                    k <= t < entries.len() && contributes(#[trigger] entries[t])
                        && extract_model_id_spec(entries[t].name) == id) implies #[trigger] r
                .contains(id) by {
                if acc.contains(id) {
                    let w = choose|w: int| 0 <= w < acc.len() && acc[w] == id;
                    assert(acc.push(id0)[w] == id);
                    assert(acc.push(id0).contains(id));
                } else {
                    let t = choose|t: int|
                        k <= t < entries.len() && contributes(#[trigger] entries[t])
                            && extract_model_id_spec(entries[t].name) == id;
                    if t == k {
                        assert(acc.push(id0)[acc.len() as int] == id0);
                        assert(acc.push(id0).contains(id));
                    } else {
                        assert(k + 1 <= t < entries.len() && contributes(entries[t])
                            && extract_model_id_spec(entries[t].name) == id);
                    }
                    assert(scan_loop_spec(entries, k + 1, acc.push(id0)).contains(id));
                }
            }
        } else {
            lemma_scan_loop_membership(entries, k + 1, acc);
            assert(r == scan_loop_spec(entries, k + 1, acc));
            assert forall|id: Seq<char>| #[trigger] r.contains(id) implies (acc.contains(id)
                || exists|t: int|
                k <= t < entries.len() && contributes(#[trigger] entries[t])
                    && extract_model_id_spec(entries[t].name) == id) by {
                assert(scan_loop_spec(entries, k + 1, acc).contains(id));
                if !acc.contains(id) {
                    let t = choose|t: int|
                        k + 1 <= t < entries.len() && contributes(#[trigger] entries[t])
                            && extract_model_id_spec(entries[t].name) == id;
                    assert(k <= t < entries.len() && contributes(entries[t])
                        && extract_model_id_spec(entries[t].name) == id);
                }
            }
            assert forall|id: Seq<char>|
                (acc.contains(id) || exists|t: int|
                    k <= t < entries.len() && contributes(#[trigger] entries[t])
                        && extract_model_id_spec(entries[t].name) == id) implies #[trigger] r
                .contains(id) by {
                if !acc.contains(id) {
                    let t = choose|t: int|
                        k <= t < entries.len() && contributes(#[trigger] entries[t])
                            && extract_model_id_spec(entries[t].name) == id;
                    if t == k {
                        assert(id == id0);
                        assert(acc.contains(id));
                    } else {
                        assert(k + 1 <= t < entries.len() && contributes(entries[t])
                            && extract_model_id_spec(entries[t].name) == id);
                    }
                }
                assert(scan_loop_spec(entries, k + 1, acc).contains(id));
            }
        }
    }
}

proof fn lemma_scan_loop_distinct(entries: Seq<CacheDirEntryView>, k: int, acc: Seq<Seq<char>>)
    requires
        0 <= k,
        distinct_ids(acc),
    ensures
        distinct_ids(scan_loop_spec(entries, k, acc)),
    decreases entries.len() - k,
{
    if k < entries.len() {
        let id0 = extract_model_id_spec(entries[k].name);
        if contributes(entries[k]) && !acc.contains(id0) {
            assert forall|j: int, t: int|
                0 <= j < t < acc.push(id0).len() implies acc.push(id0)[j] != acc.push(
                id0,
            )[t] by {
                if t < acc.len() {
                    assert(acc.push(id0)[j] == acc[j] && acc.push(id0)[t] == acc[t]);
                } else {
                    assert(acc.push(id0)[j] == acc[j]);
                    if acc[j] == id0 {
                        assert(acc.contains(id0));
                    }
                }
            }
            lemma_scan_loop_distinct(entries, k + 1, acc.push(id0));
        } else {
            lemma_scan_loop_distinct(entries, k + 1, acc);
        }
    }
}

/// The scan yields the candidate identifier set: an identifier is in the
/// result exactly when some cache root entry contributes it, and no
/// identifier is repeated.
pub proof fn lemma_scan_is_candidate_set(entries: Seq<CacheDirEntryView>)
    ensures
        forall|id: Seq<char>|
            #[trigger] scan_spec(entries).contains(id) <==> exists|t: int|
                0 <= t < entries.len() && contributes(#[trigger] entries[t])
                    && extract_model_id_spec(entries[t].name) == id,
        distinct_ids(scan_spec(entries)),
{
    lemma_scan_loop_membership(entries, 0, Seq::empty());
    lemma_scan_loop_distinct(entries, 0, Seq::empty());
}

fn is_hidden_exec(name: &String) -> (r: bool)
    ensures
        r == is_hidden(name@),
{
    let s: &str = name.as_str();
    if s.unicode_len() == 0 {
        false
    } else {
        s.get_char(0) == '.'
    }
}

pub(crate) fn contains_string(v: &Vec<String>, s: &String) -> (r: bool)
    ensures
        r == v@.map_values(|x: String| x@).contains(s@),
{
    let ghost m: Seq<Seq<char>> = v@.map_values(|x: String| x@);
    let mut i: usize = 0;
    while i < v.len()
        invariant
            i <= v.len(),
            m == v@.map_values(|x: String| x@),
            forall|k: int| 0 <= k < i ==> m[k] != s@,
        decreases v.len() - i,
    {
        if v[i] == *s {
            proof {
                assert(m[i as int] == s@);
            }
            return true;
        }
        proof {
            assert(m[i as int] == v@[i as int]@);
        }
        i = i + 1;
    }
    proof {
        assert_by_contradiction!(!m.contains(s@), {
            let k = choose|k: int| 0 <= k < m.len() && m[k] == s@;
            assert(m[k] != s@);
        });
    }
    false
}

/// Scans the cache root entries for candidate model identifiers: skips
/// files, hidden names and entries without the candidate directory
/// structure, derives each identifier from the directory name, and keeps
/// the first occurrence of each.
pub fn scan_hf_cache(entries: &Vec<CacheDirEntry>) -> (r: Vec<String>)
    ensures
        r@.map_values(|s: String| s@) == scan_spec(
            entries@.map_values(|e: CacheDirEntry| e@),
        ),
{
    let ghost ev: Seq<CacheDirEntryView> = entries@.map_values(|e: CacheDirEntry| e@);
    let mut out: Vec<String> = Vec::new();
    proof {
        assert(out@.map_values(|s: String| s@) =~= Seq::<Seq<char>>::empty());
    }
    let mut i: usize = 0;
    while i < entries.len()
        invariant
            i <= entries.len(),
            ev == entries@.map_values(|e: CacheDirEntry| e@),
            scan_spec(ev) == scan_loop_spec(ev, i as int, out@.map_values(|s: String| s@)),
        decreases entries.len() - i,
    {
        let ghost cur: Seq<Seq<char>> = out@.map_values(|s: String| s@);
        let entry: &CacheDirEntry = &entries[i];
        proof {
            assert(ev[i as int] == entry@);
        }
        let hidden: bool = is_hidden_exec(&entry.name);
        let likely: bool = is_likely_hf_model_cache(entry);
        let id: String = extract_model_id_from_hf_cache_path(entry.name.as_str());
        if entry.is_dir && !hidden && likely && !id.as_str().is_empty() {
            if !contains_string(&out, &id) {
                let ghost idv: Seq<char> = id@;
                out.push(id);
                proof {
                    assert(out@.map_values(|s: String| s@) =~= cur.push(idv));
                }
            }
        }
        i = i + 1;
    }
    out
}

/// First entry whose name is the identifier's vendor-layout directory name
/// and which is a directory, from `k` on; `-1` when none is.
pub open spec fn find_cache_dir_from(
    entries: Seq<CacheDirEntryView>,
    id: Seq<char>,
    k: int,
) -> int
    decreases entries.len() - k,
{
    if k < 0 || k >= entries.len() {
        -1
    } else if entries[k].name == hf_cache_dir_name_spec(id) && entries[k].is_dir {
        k
    } else {
        find_cache_dir_from(entries, id, k + 1)
    }
}

/// The cache directory the identifier's artifacts live under, or `-1`.
pub open spec fn find_cache_dir_spec(entries: Seq<CacheDirEntryView>, id: Seq<char>) -> int {
    find_cache_dir_from(entries, id, 0)
}

/// Resolves the cache directory for a model identifier among the cache root
/// entries, by rebuilding its expected vendor-layout name; fails when no
/// such directory exists.
pub fn find_hf_cache_directory(model_id: &str, entries: &Vec<CacheDirEntry>) -> (r: Result<
    usize,
    ReconstructError,
>)
    ensures
        r matches Ok(k) ==> (k < entries.len() && find_cache_dir_spec(
            entries@.map_values(|e: CacheDirEntry| e@),
            model_id@,
        ) == k as int),
        r is Err ==> (r == Err::<usize, ReconstructError>(ReconstructError::DirectoryNotFound)
            && find_cache_dir_spec(entries@.map_values(|e: CacheDirEntry| e@), model_id@) == -1),
{
    let ghost ev: Seq<CacheDirEntryView> = entries@.map_values(|e: CacheDirEntry| e@);
    let wanted: String = hf_cache_dir_name(model_id);
    let mut i: usize = 0;
    while i < entries.len()
        invariant
            i <= entries.len(),
            ev == entries@.map_values(|e: CacheDirEntry| e@),
            wanted@ == hf_cache_dir_name_spec(model_id@),
            find_cache_dir_spec(ev, model_id@) == find_cache_dir_from(ev, model_id@, i as int),
        decreases entries.len() - i,
    {
        proof {
            assert(ev[i as int] == entries@[i as int]@);
        }
        if entries[i].name == wanted && entries[i].is_dir {
            return Ok(i);
        }
        i = i + 1;
    }
    Err(ReconstructError::DirectoryNotFound)
}

/// The files the snapshot walk contributes, given what was already
/// collected: each snapshot's files are appended in turn, and the walk
/// stops after the first snapshot that leaves the collection non-empty.
pub open spec fn collect_spec(
    snaps: Seq<Seq<ModelFileView>>,
    files0: Seq<ModelFileView>,
) -> Seq<ModelFileView>
    decreases snaps.len(),
{
    if snaps.len() == 0 {
        files0
    } else if (files0 + snaps[0]).len() > 0 {
        files0 + snaps[0]
    } else {
        collect_spec(snaps.drop_first(), files0 + snaps[0])
    }
}

/// The files reconstruction falls back to when the well-known-file probe
/// found nothing: the first non-empty snapshot's walk, or nothing at all.
pub open spec fn snapshot_files_spec(e: CacheDirEntryView) -> Seq<ModelFileView> {
    match e.snapshots {
        None => Seq::empty(),
        Some(snaps) => collect_spec(snaps, Seq::empty()),
    }
}

/// What reconstructing a record for `id` from the cache yields: the
/// resolved well-known files if any, else the snapshot walk; a missing
/// directory or an empty yield fails.
pub open spec fn reconstruct_spec(id: Seq<char>, entries: Seq<CacheDirEntryView>) -> Result<
    ModelInfoView,
    ReconstructError,
> {
    let d = find_cache_dir_spec(entries, id);
    if d < 0 {
        Err(ReconstructError::DirectoryNotFound)
    } else {
        let files = if entries[d].resolved_files.len() > 0 {
            entries[d].resolved_files
        } else {
            snapshot_files_spec(entries[d])
        };
        if files.len() == 0 {
            Err(ReconstructError::NoFilesFound)
        } else {
            Ok(ModelInfoView { model_id: id, files })
        }
    }
}

fn copy_files(src: &Vec<ModelFile>, dst: &mut Vec<ModelFile>)
    ensures
        final(dst)@.map_values(|f: ModelFile| f@) == old(dst)@.map_values(|f: ModelFile| f@)
            + src@.map_values(|f: ModelFile| f@),
{
    let ghost base: Seq<ModelFileView> = dst@.map_values(|f: ModelFile| f@);
    let ghost sv: Seq<ModelFileView> = src@.map_values(|f: ModelFile| f@);
    let mut i: usize = 0;
    while i < src.len()
        invariant
            i <= src.len(),
            sv == src@.map_values(|f: ModelFile| f@),
            dst@.map_values(|f: ModelFile| f@) == base + sv.take(i as int),
        decreases src.len() - i,
    {
        let ghost cur: Seq<ModelFileView> = dst@.map_values(|f: ModelFile| f@);
        let item: ModelFile = ModelFile { size: src[i].size, path: src[i].path.clone() };
        proof {
            assert(item@ == sv[i as int]);
        }
        dst.push(item);
        proof {
            assert(dst@.map_values(|f: ModelFile| f@) =~= cur.push(sv[i as int]));
            assert(sv.take(i as int + 1) =~= sv.take(i as int).push(sv[i as int]));
            assert(dst@.map_values(|f: ModelFile| f@) =~= base + sv.take(i as int + 1));
        }
        i = i + 1;
    }
    proof {
        assert(sv.take(src@.len() as int) =~= sv);
    }
}

/// Appends, snapshot by snapshot, the files found beneath the first
/// snapshot that yields any; used by reconstruction's fallback walk.
pub fn collect_model_files_from_hf_cache(snapshots: &Vec<SnapshotDir>, files: &mut Vec<ModelFile>)
    ensures
        final(files)@.map_values(|f: ModelFile| f@) == collect_spec(
            snapshots@.map_values(|s: SnapshotDir| s@),
            old(files)@.map_values(|f: ModelFile| f@),
        ),
{
    let ghost sv: Seq<Seq<ModelFileView>> = snapshots@.map_values(|s: SnapshotDir| s@);
    let ghost base: Seq<ModelFileView> = files@.map_values(|f: ModelFile| f@);
    proof {
        assert(sv.skip(0) =~= sv);
    }
    let mut i: usize = 0;
    while i < snapshots.len()
        invariant_except_break
            i <= snapshots.len(),
            sv == snapshots@.map_values(|s: SnapshotDir| s@),
            collect_spec(sv, base) == collect_spec(
                sv.skip(i as int),
                files@.map_values(|f: ModelFile| f@),
            ),
            i > 0 ==> files@.map_values(|f: ModelFile| f@).len() == 0,
        ensures
            files@.map_values(|f: ModelFile| f@) == collect_spec(sv, base),
        decreases snapshots.len() - i,
    {
        let ghost cur: Seq<ModelFileView> = files@.map_values(|f: ModelFile| f@);
        proof {
            assert(sv.skip(i as int)[0] == sv[i as int]);
            assert(sv.skip(i as int).drop_first() =~= sv.skip(i as int + 1));
        }
        copy_files(&snapshots[i].files, files);
        proof {
            assert(snapshots@[i as int]@ == sv[i as int]);
            assert(files@.map_values(|f: ModelFile| f@) == cur + sv[i as int]);
        }
        if !files.is_empty() {
            proof {
                assert(files@.map_values(|f: ModelFile| f@).len() > 0);
            }
            break ;
        }
        proof {
            assert(files@.map_values(|f: ModelFile| f@).len() == 0);
        }
        i = i + 1;
    }
}

/// Reconstructs a model record for `id` from the cache contents alone:
/// resolves the identifier's cache directory, takes the resolved well-known
/// files, or falls back to the first snapshot walk that yields files; fails
/// when the directory is missing or nothing is found.
pub fn reconstruct_model_info_from_cache(model_id: &str, entries: &Vec<CacheDirEntry>) -> (r:
    Result<ModelInfo, ReconstructError>)
    ensures
        r matches Ok(m) ==> reconstruct_spec(model_id@, entries@.map_values(|e: CacheDirEntry| e@))
            == Ok::<ModelInfoView, ReconstructError>(m@),
        r matches Err(e) ==> reconstruct_spec(
            model_id@,
            entries@.map_values(|e: CacheDirEntry| e@),
        ) == Err::<ModelInfoView, ReconstructError>(e),
{
    let ghost ev: Seq<CacheDirEntryView> = entries@.map_values(|e: CacheDirEntry| e@);
    let d: usize = match find_hf_cache_directory(model_id, entries) {
        Ok(k) => k,
        Err(e) => {
            return Err(e);
        },
    };
    let entry: &CacheDirEntry = &entries[d];
    proof {
        assert(ev[d as int] == entry@);
    }
    let mut files: Vec<ModelFile> = Vec::new();
    proof {
        assert(files@.map_values(|f: ModelFile| f@) =~= Seq::<ModelFileView>::empty());
    }
    if entry.resolved_files.len() > 0 {
        copy_files(&entry.resolved_files, &mut files);
    } else {
        match &entry.snapshots {
            None => {},
            Some(snaps) => {
                collect_model_files_from_hf_cache(snaps, &mut files);
            },
        }
    }
    if files.len() == 0 {
        return Err(ReconstructError::NoFilesFound);
    }
    Ok(ModelInfo { model_id: String::from_str(model_id), files })
}

/// The well-known filenames the inspector asks the hub client's local path
/// resolver for, in probe order.
pub open spec fn common_model_filenames_spec() -> Seq<Seq<char>> {
    seq![
        "config.json"@,
        "model.safetensors"@,
        "pytorch_model.bin"@,
        "model.bin"@,
        "tokenizer.json"@,
        "tokenizer_config.json"@,
        "vocab.json"@,
        "merges.txt"@,
        "special_tokens_map.json"@,
    ]
}

/// The well-known filenames to probe for, in probe order; the resolved hits
/// become a record's files in this order.
pub fn common_model_filenames() -> (r: Vec<&'static str>)
    ensures
        r@.map_values(|s: &str| s@) == common_model_filenames_spec(),
{
    let r: Vec<&'static str> = vec![
        "config.json",
        "model.safetensors",
        "pytorch_model.bin",
        "model.bin",
        "tokenizer.json",
        "tokenizer_config.json",
        "vocab.json",
        "merges.txt",
        "special_tokens_map.json",
    ];
    proof {
        assert(r@.map_values(|s: &str| s@) =~= common_model_filenames_spec());
    }
    r
}

} // verus!
