//! The reconciler: diffing the catalog against the cache contents and
//! optionally repairing the drift.
//!
//! [`sync_models`] is given the catalog store and a snapshot of the cache
//! root. It loads the catalog — treating a malformed document as empty, so
//! a sync never fails on one — scans the cache for candidate identifiers,
//! reconstructs and upserts a record for every candidate the catalog lacks
//! (unless the run is dry), and reports catalog records missing from the
//! cache without ever pruning them. One failed reconstruction is logged and
//! skipped; it never aborts the run.

use vstd::prelude::*;
use vstd::string::StringExecFns;
use crate::cache::{
    CacheDirEntry, CacheDirEntryView, ReconstructError, contains_string,
    reconstruct_error_message, reconstruct_model_info_from_cache, reconstruct_spec,
    scan_hf_cache, scan_spec,
};
use crate::catalog::{ModelIndex, load_spec, upsert, upsert_into};
use crate::codec::enc_doc;
use crate::models::{ModelInfo, ModelInfoView, ModelIndexData, SyncResult, SyncResultView};

verus! {

/// Log line for a cache model absent from the catalog.
pub open spec fn msg_found(id: Seq<char>) -> Seq<char> {
    "Found local model '"@ + id + "' not in index"@
}

/// Log line for a record added to the catalog.
pub open spec fn msg_added(id: Seq<char>) -> Seq<char> {
    "Added '"@ + id + "' to index"@
}

/// Log line for a reconstruction that failed.
pub open spec fn msg_failed(id: Seq<char>, e: ReconstructError) -> Seq<char> {
    "Failed to add '"@ + id + "' to index: "@ + reconstruct_error_message(e, id)
}

/// Log line for a catalog record missing from the cache.
pub open spec fn msg_missing(id: Seq<char>) -> Seq<char> {
    "Model '"@ + id + "' in index but missing in HF cache"@
}

/// Log line for a run that found no discrepancy.
pub open spec fn msg_in_sync() -> Seq<char> {
    "All models are in sync!"@
}

/// The identifiers of a catalog's records, in catalog order.
pub open spec fn ids_of(models: Seq<ModelInfoView>) -> Seq<Seq<char>> {
    models.map_values(|m: ModelInfoView| m.model_id)
}

/// First-occurrence deduplication of the identifiers from `k` on.
pub open spec fn dedup_loop(ids: Seq<Seq<char>>, k: int, acc: Seq<Seq<char>>) -> Seq<Seq<char>>
    decreases ids.len() - k,
{
    if k < 0 || k >= ids.len() {
        acc
    } else if acc.contains(ids[k]) {
        dedup_loop(ids, k + 1, acc)
    } else {
        dedup_loop(ids, k + 1, acc.push(ids[k]))
    }
}

/// The identifier set of a catalog, in first-occurrence order.
pub open spec fn dedup(ids: Seq<Seq<char>>) -> Seq<Seq<char>> {
    dedup_loop(ids, 0, Seq::empty())
}

/// One step of the repair phase, for one candidate identifier: a candidate
/// already in the catalog is left alone; otherwise its discovery is logged
/// and — in a dry run — only recorded, while a real run reconstructs a
/// record and upserts it, logging a failure and moving on.
pub open spec fn sync_step_add(
    state: (Seq<ModelInfoView>, SyncResultView, bool),
    id: Seq<char>,
    indexed_ids: Seq<Seq<char>>,
    entries: Seq<CacheDirEntryView>,
    dry_run: bool,
) -> (Seq<ModelInfoView>, SyncResultView, bool) {
    let (doc, res, wrote) = state;
    if indexed_ids.contains(id) {
        state
    } else {
        let res1 = SyncResultView { messages: res.messages.push(msg_found(id)), ..res };
        if dry_run {
            (doc, SyncResultView { added: res1.added.push(id), ..res1 }, wrote)
        } else {
            match reconstruct_spec(id, entries) {
                Ok(m) => (
                    upsert(doc, m),
                    SyncResultView {
                        messages: res1.messages.push(msg_added(id)),
                        added: res1.added.push(id),
                        ..res1
                    },
                    true,
                ),
                Err(e) => (
                    doc,
                    SyncResultView { messages: res1.messages.push(msg_failed(id, e)), ..res1 },
                    wrote,
                ),
            }
        }
    }
}

/// The repair phase folded over the candidate identifiers from `k` on.
pub open spec fn sync_phase1(
    present: Seq<Seq<char>>,
    k: int,
    state: (Seq<ModelInfoView>, SyncResultView, bool),
    indexed_ids: Seq<Seq<char>>,
    entries: Seq<CacheDirEntryView>,
    dry_run: bool,
) -> (Seq<ModelInfoView>, SyncResultView, bool)
    decreases present.len() - k,
{
    if k < 0 || k >= present.len() {
        state
    } else {
        sync_phase1(
            present,
            k + 1,
            sync_step_add(state, present[k], indexed_ids, entries, dry_run),
            indexed_ids,
            entries,
            dry_run,
        )
    }
}

/// The reporting phase folded over the catalog identifiers from `k` on:
/// each one absent from the cache is logged and marked missing; the
/// catalog itself is never touched.
pub open spec fn sync_phase2(
    indexed_ids: Seq<Seq<char>>,
    k: int,
    res: SyncResultView,
    present: Seq<Seq<char>>,
) -> SyncResultView
    decreases indexed_ids.len() - k,
{
    if k < 0 || k >= indexed_ids.len() {
        res
    } else if present.contains(indexed_ids[k]) {
        sync_phase2(indexed_ids, k + 1, res, present)
    } else {
        sync_phase2(
            indexed_ids,
            k + 1,
            SyncResultView {
                messages: res.messages.push(msg_missing(indexed_ids[k])),
                missing: res.missing.push(indexed_ids[k]),
                ..res
            },
            present,
        )
    }
}

/// What one whole sync run yields: the report, and the document medium
/// afterwards. A malformed catalog document is treated as an empty one; the
/// medium is rewritten only by a non-dry run that added at least one
/// record.
pub open spec fn sync_spec(
    store: Option<Seq<char>>,
    entries: Seq<CacheDirEntryView>,
    dry_run: bool,
) -> (SyncResultView, Option<Seq<char>>) {
    let doc0 = match load_spec(store) {
        Some(m) => m,
        None => Seq::empty(),
    };
    let indexed_ids = dedup(ids_of(doc0));
    let present = scan_spec(entries);
    let (doc1, res1, wrote) = sync_phase1(
        present,
        0,
        (doc0, SyncResultView::empty(), false),
        indexed_ids,
        entries,
        dry_run,
    );
    let res2 = sync_phase2(indexed_ids, 0, res1, present);
    let res3 = if res2.discrepancies() == 0 {
        SyncResultView { messages: res2.messages.push(msg_in_sync()), ..res2 }
    } else {
        res2
    };
    let store1 = if wrote {
        Some(enc_doc(doc1))
    } else {
        store
    };
    (res3, store1)
}

/// A dry run never changes the document or writes the medium, whatever the
/// diff turns up.
proof fn lemma_phase1_dry(
    present: Seq<Seq<char>>,
    k: int,
    state: (Seq<ModelInfoView>, SyncResultView, bool),
    indexed_ids: Seq<Seq<char>>,
    entries: Seq<CacheDirEntryView>,
)
    ensures
        sync_phase1(present, k, state, indexed_ids, entries, true).0 == state.0,
        sync_phase1(present, k, state, indexed_ids, entries, true).2 == state.2,
    decreases present.len() - k,
{
    if 0 <= k < present.len() {
        lemma_phase1_dry(
            present,
            k + 1,
            sync_step_add(state, present[k], indexed_ids, entries, true),
            indexed_ids,
            entries,
        );
    }
}

/// The dry-run law: with `dryRun` set, a sync never mutates the catalog
/// document, regardless of the diff outcome.
pub proof fn lemma_sync_dry_run_no_mutation(
    store: Option<Seq<char>>,
    entries: Seq<CacheDirEntryView>,
)
    ensures
        sync_spec(store, entries, true).1 == store,
{
    let doc0 = match load_spec(store) {
        Some(m) => m,
        None => Seq::empty(),
    };
    lemma_phase1_dry(
        scan_spec(entries),
        0,
        (doc0, SyncResultView::empty(), false),
        dedup(ids_of(doc0)),
        entries,
    );
}

proof fn lemma_phase1_no_removed(
    present: Seq<Seq<char>>,
    k: int,
    state: (Seq<ModelInfoView>, SyncResultView, bool),
    indexed_ids: Seq<Seq<char>>,
    entries: Seq<CacheDirEntryView>,
    dry_run: bool,
)
    ensures
        sync_phase1(present, k, state, indexed_ids, entries, dry_run).1.removed
            == state.1.removed,
    decreases present.len() - k,
{
    if 0 <= k < present.len() {
        lemma_phase1_no_removed(
            present,
            k + 1,
            sync_step_add(state, present[k], indexed_ids, entries, dry_run),
            indexed_ids,
            entries,
            dry_run,
        );
    }
}

proof fn lemma_phase2_no_removed(
    indexed_ids: Seq<Seq<char>>,
    k: int,
    res: SyncResultView,
    present: Seq<Seq<char>>,
)
    ensures
        sync_phase2(indexed_ids, k, res, present).removed == res.removed,
    decreases indexed_ids.len() - k,
{
    if 0 <= k < indexed_ids.len() {
        if present.contains(indexed_ids[k]) {
            lemma_phase2_no_removed(indexed_ids, k + 1, res, present);
        } else {
            lemma_phase2_no_removed(
                indexed_ids,
                k + 1,
                SyncResultView {
                    messages: res.messages.push(msg_missing(indexed_ids[k])),
                    missing: res.missing.push(indexed_ids[k]),
                    ..res
                },
                present,
            );
        }
    }
}

/// The reserved report field: no sync code path ever records a removal, so
/// the removed-from-catalog set of every report is empty.
pub proof fn lemma_sync_never_removes(
    store: Option<Seq<char>>,
    entries: Seq<CacheDirEntryView>,
    dry_run: bool,
)
    ensures
        sync_spec(store, entries, dry_run).0.removed == Seq::<Seq<char>>::empty(),
{
    let doc0 = match load_spec(store) {
        Some(m) => m,
        None => Seq::empty(),
    };
    let indexed_ids = dedup(ids_of(doc0));
    let present = scan_spec(entries);
    let init = (doc0, SyncResultView::empty(), false);
    lemma_phase1_no_removed(present, 0, init, indexed_ids, entries, dry_run);
    lemma_phase2_no_removed(
        indexed_ids,
        0,
        sync_phase1(present, 0, init, indexed_ids, entries, dry_run).1,
        present,
    );
}

/// The malformed-catalog law: a sync never fails on a malformed catalog
/// document, and reports exactly what it would report over an empty one.
pub proof fn lemma_sync_malformed_as_empty(
    text: Seq<char>,
    entries: Seq<CacheDirEntryView>,
    dry_run: bool,
)
    requires
        crate::codec::parse_doc(text) is None,
    ensures
        sync_spec(Some(text), entries, dry_run).0 == sync_spec(None, entries, dry_run).0,
{
    assert(load_spec(Some(text)) is None);
    assert(load_spec(None) == Some(Seq::<ModelInfoView>::empty()));
}

fn msg_found_exec(id: &str) -> (r: String)
    ensures
        r@ == msg_found(id@),
{
    let mut out: String = String::from_str("Found local model '");
    out.append(id);
    out.append("' not in index");
    out
}

fn msg_added_exec(id: &str) -> (r: String)
    ensures
        r@ == msg_added(id@),
{
    let mut out: String = String::from_str("Added '");
    out.append(id);
    out.append("' to index");
    out
}

fn msg_failed_exec(id: &str, e: &ReconstructError) -> (r: String)
    ensures
        r@ == msg_failed(id@, *e),
{
    let mut out: String = String::from_str("Failed to add '");
    out.append(id);
    out.append("' to index: ");
    let detail: String = e.message(id);
    out.append(detail.as_str());
    out
}

fn msg_missing_exec(id: &str) -> (r: String)
    ensures
        r@ == msg_missing(id@),
{
    let mut out: String = String::from_str("Model '");
    out.append(id);
    out.append("' in index but missing in HF cache");
    out
}

/// One sync (reconcile) run over the catalog store and a snapshot of the
/// cache root: computes the diff, repairs it unless `dry_run` is set, and
/// returns the report. It never fails: a malformed catalog document is
/// treated as an empty one, and a failed per-identifier reconstruction is
/// logged and skipped.
pub fn sync_models(index: &mut ModelIndex, entries: &Vec<CacheDirEntry>, dry_run: bool) -> (r:
    SyncResult)
    ensures
        r@ == sync_spec(old(index)@, entries@.map_values(|e: CacheDirEntry| e@), dry_run).0,
        final(index)@ == sync_spec(
            old(index)@,
            entries@.map_values(|e: CacheDirEntry| e@),
            dry_run,
        ).1,
        dry_run ==> final(index)@ == old(index)@,
{
    let ghost store0: Option<Seq<char>> = index@;
    let ghost ev: Seq<CacheDirEntryView> = entries@.map_values(|e: CacheDirEntry| e@);
    let mut sync_result: SyncResult = SyncResult::new();

    // Load the catalog, substituting an empty one when it is malformed.
    let indexed_models: Vec<ModelInfo> = match index.models() {
        Ok(v) => v,
        Err(_) => Vec::new(),
    };
    let mut data: ModelIndexData = ModelIndexData { models: indexed_models };
    let ghost doc0: Seq<ModelInfoView> = data@;
    proof {
        assert(doc0 == match load_spec(store0) {
            Some(m) => m,
            None => Seq::<ModelInfoView>::empty(),
        }) by {
            if load_spec(store0) is None {
                assert(data.models@.map_values(|m: ModelInfo| m@)
                    =~= Seq::<ModelInfoView>::empty());
            }
        }
    }

    // The identifier set of the catalog, in first-occurrence order.
    let ghost idsv: Seq<Seq<char>> = dedup(ids_of(doc0));
    let mut indexed_ids: Vec<String> = Vec::new();
    proof {
        assert(indexed_ids@.map_values(|s: String| s@) =~= Seq::<Seq<char>>::empty());
    }
    let mut i: usize = 0;
    while i < data.models.len()
        invariant
            i <= data.models.len(),
            doc0 == data@,
            dedup(ids_of(doc0)) == dedup_loop(
                ids_of(doc0),
                i as int,
                indexed_ids@.map_values(|s: String| s@),
            ),
        decreases data.models.len() - i,
    {
        let ghost cur: Seq<Seq<char>> = indexed_ids@.map_values(|s: String| s@);
        proof {
            assert(ids_of(doc0)[i as int] == data.models@[i as int]@.model_id);
        }
        if !contains_string(&indexed_ids, &data.models[i].model_id) {
            let id: String = data.models[i].model_id.clone();
            indexed_ids.push(id);
            proof {
                assert(indexed_ids@.map_values(|s: String| s@) =~= cur.push(
                    ids_of(doc0)[i as int],
                ));
            }
        }
        i = i + 1;
    }
    proof {
        assert(indexed_ids@.map_values(|s: String| s@) == idsv);
    }

    // Scan the cache root for candidate identifiers.
    let present: Vec<String> = scan_hf_cache(entries);
    let ghost presentv: Seq<Seq<char>> = scan_spec(ev);

    // Repair phase: candidates the catalog lacks.
    let ghost init_state: (Seq<ModelInfoView>, SyncResultView, bool) = (
        doc0,
        SyncResultView::empty(),
        false,
    );
    let mut wrote: bool = false;
    let mut j: usize = 0;
    while j < present.len()
        invariant
            j <= present.len(),
            ev == entries@.map_values(|e: CacheDirEntry| e@),
            presentv == present@.map_values(|s: String| s@),
            presentv == scan_spec(ev),
            idsv == indexed_ids@.map_values(|s: String| s@),
            sync_phase1(presentv, 0, init_state, idsv, ev, dry_run) == sync_phase1(
                presentv,
                j as int,
                (data@, sync_result@, wrote),
                idsv,
                ev,
                dry_run,
            ),
            index@ == (if wrote {
                Some(enc_doc(data@))
            } else {
                store0
            }),
            dry_run ==> !wrote,
        decreases present.len() - j,
    {
        let ghost st: (Seq<ModelInfoView>, SyncResultView, bool) = (data@, sync_result@, wrote);
        let id: &String = &present[j];
        proof {
            assert(presentv[j as int] == id@);
        }
        if !contains_string(&indexed_ids, id) {
            let found_message: String = msg_found_exec(id.as_str());
            sync_result.add_message(found_message);
            if !dry_run {
                match reconstruct_model_info_from_cache(id.as_str(), entries) {
                    Ok(model_info) => {
                        upsert_into(&mut data, model_info);
                        index.save(&data);
                        wrote = true;
                        sync_result.add_model_to_index(id.clone());
                        let added_message: String = msg_added_exec(id.as_str());
                        sync_result.add_message(added_message);
                    },
                    Err(e) => {
                        let failed_message: String = msg_failed_exec(id.as_str(), &e);
                        sync_result.add_message(failed_message);
                    },
                }
            } else {
                sync_result.add_model_to_index(id.clone());
            }
        }
        proof {
            assert((data@, sync_result@, wrote) == sync_step_add(st, presentv[j as int], idsv, ev,
                dry_run));
        }
        j = j + 1;
    }
    let ghost phase1_out: (Seq<ModelInfoView>, SyncResultView, bool) = sync_phase1(
        presentv,
        0,
        init_state,
        idsv,
        ev,
        dry_run,
    );
    proof {
        assert(phase1_out == (data@, sync_result@, wrote));
    }

    // Reporting phase: catalog records missing from the cache.
    let mut k: usize = 0;
    while k < indexed_ids.len()
        invariant
            k <= indexed_ids.len(),
            presentv == present@.map_values(|s: String| s@),
            idsv == indexed_ids@.map_values(|s: String| s@),
            sync_phase2(idsv, 0, phase1_out.1, presentv) == sync_phase2(
                idsv,
                k as int,
                sync_result@,
                presentv,
            ),
            data@ == phase1_out.0,
            wrote == phase1_out.2,
            index@ == (if wrote {
                Some(enc_doc(data@))
            } else {
                store0
            }),
        decreases indexed_ids.len() - k,
    {
        let id: &String = &indexed_ids[k];
        proof {
            assert(idsv[k as int] == id@);
        }
        if !contains_string(&present, id) {
            let missing_message: String = msg_missing_exec(id.as_str());
            sync_result.add_message(missing_message);
            sync_result.mark_model_missing_locally(id.clone());
        }
        k = k + 1;
    }

    // A run with no discrepancy says so.
    if sync_result.added_to_index().is_empty() && sync_result.removed_from_index().is_empty()
        && sync_result.missing_locally().is_empty() {
        sync_result.add_message(String::from_str("All models are in sync!"));
        proof {
            reveal_strlit("All models are in sync!");
            assert("All models are in sync!"@ == msg_in_sync());
        }
    }
    proof {
        if dry_run {
            lemma_phase1_dry(presentv, 0, init_state, idsv, ev);
        }
        assert(sync_result@ == sync_spec(store0, ev, dry_run).0);
    }
    sync_result
}

} // verus!
