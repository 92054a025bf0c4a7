//! Data model of the catalog engine: model records, their files, and the
//! result report of a sync run.

use vstd::prelude::*;

verus! {

/// One artifact file belonging to a model record: its size in bytes and the
/// filesystem location it was stored at. A file is owned by exactly one
/// record; records are replaced wholesale, never merged.
#[derive(Debug, Clone)]
pub struct ModelFile {
    pub size: u64,
    pub path: String,
}

/// Mathematical view of a [`ModelFile`].
#[verifier::ext_equal]
pub ghost struct ModelFileView {
    pub size: u64,
    pub path: Seq<char>,
}

impl View for ModelFile {
    type V = ModelFileView;

    open spec fn view(&self) -> ModelFileView {
        ModelFileView { size: self.size, path: self.path@ }
    }
}

/// A model record: an opaque identifier (unique within a catalog) and the
/// ordered sequence of files that make up the model, in discovery order.
#[derive(Debug, Clone)]
pub struct ModelInfo {
    pub model_id: String,
    pub files: Vec<ModelFile>,
}

/// Mathematical view of a [`ModelInfo`].
#[verifier::ext_equal]
pub ghost struct ModelInfoView {
    pub model_id: Seq<char>,
    pub files: Seq<ModelFileView>,
}

impl View for ModelInfo {
    type V = ModelInfoView;

    open spec fn view(&self) -> ModelInfoView {
        ModelInfoView {
            model_id: self.model_id@,
            files: self.files@.map_values(|f: ModelFile| f@),
        }
    }
}

impl ModelInfo {
    pub fn new(model_id: String, files: Vec<ModelFile>) -> (r: Self)
        ensures
            r@.model_id == model_id@,
            r@.files == files@.map_values(|f: ModelFile| f@),
    {
        Self { model_id, files }
    }
}

/// The catalog document: an ordered sequence of model records. It is
/// persisted as one structured text document at a fixed filename under the
/// catalog root. Its invariant — one record per `model_id` — is enforced by
/// the store's upsert, not by construction.
#[derive(Debug, Clone)]
pub struct ModelIndexData {
    pub models: Vec<ModelInfo>,
}

impl View for ModelIndexData {
    type V = Seq<ModelInfoView>;

    open spec fn view(&self) -> Seq<ModelInfoView> {
        self.models@.map_values(|m: ModelInfo| m@)
    }
}

/// Placeholder for repository metadata handed back by the remote hub client;
/// reserved, not yet populated by any code path.
#[derive(Debug)]
pub struct HuggingFaceRepoInfo {}

/// Placeholder for per-file metadata handed back by the remote hub client;
/// reserved, not yet populated by any code path.
#[derive(Debug)]
pub struct HuggingFaceFile {}

/// Report of one sync run: an ordered log of human-readable messages and
/// three identifier lists (added to the catalog, removed from the catalog —
/// reserved, never populated — and present in the catalog but missing
/// locally). The discrepancy count is the sum of the three list lengths.
#[derive(Debug, Clone)]
pub struct SyncResult {
    messages: Vec<String>,
    models_added_to_index: Vec<String>,
    models_removed_from_index: Vec<String>,
    models_in_index_but_missing_locally: Vec<String>,
}

/// Mathematical view of a [`SyncResult`].
#[verifier::ext_equal]
pub ghost struct SyncResultView {
    pub messages: Seq<Seq<char>>,
    pub added: Seq<Seq<char>>,
    pub removed: Seq<Seq<char>>,
    pub missing: Seq<Seq<char>>,
}

impl SyncResultView {
    /// The report with nothing logged and no discrepancies.
    pub open spec fn empty() -> SyncResultView {
        SyncResultView {
            messages: Seq::empty(),
            added: Seq::empty(),
            removed: Seq::empty(),
            missing: Seq::empty(),
        }
    }

    /// Number of discrepancies a report holds.
    pub open spec fn discrepancies(self) -> nat {
        self.added.len() + self.removed.len() + self.missing.len()
    }
}

impl View for SyncResult {
    type V = SyncResultView;

    closed spec fn view(&self) -> SyncResultView {
        SyncResultView {
            messages: self.messages@.map_values(|s: String| s@),
            added: self.models_added_to_index@.map_values(|s: String| s@),
            removed: self.models_removed_from_index@.map_values(|s: String| s@),
            missing: self.models_in_index_but_missing_locally@.map_values(|s: String| s@),
        }
    }
}

impl SyncResult {
    pub fn new() -> (r: Self)
        ensures
            r@ =~= SyncResultView::empty(),
    {
        Self {
            messages: Vec::new(),
            models_added_to_index: Vec::new(),
            models_removed_from_index: Vec::new(),
            models_in_index_but_missing_locally: Vec::new(),
        }
    }

    pub fn add_message(&mut self, message: String)
        ensures
            final(self)@ == (SyncResultView {
                messages: old(self)@.messages.push(message@),
                ..old(self)@
            }),
    {
        self.messages.push(message);
    }

    pub fn add_model_to_index(&mut self, model_id: String)
        ensures
            final(self)@ == (SyncResultView {
                added: old(self)@.added.push(model_id@),
                ..old(self)@
            }),
    {
        self.models_added_to_index.push(model_id);
    }

    pub fn remove_model_from_index(&mut self, model_id: String)
        ensures
            final(self)@ == (SyncResultView {
                removed: old(self)@.removed.push(model_id@),
                ..old(self)@
            }),
    {
        self.models_removed_from_index.push(model_id);
    }

    pub fn mark_model_missing_locally(&mut self, model_id: String)
        ensures
            final(self)@ == (SyncResultView {
                missing: old(self)@.missing.push(model_id@),
                ..old(self)@
            }),
    {
        self.models_in_index_but_missing_locally.push(model_id);
    }

    pub fn discrepancies_count(&self) -> (r: usize)
        requires
            self@.discrepancies() <= usize::MAX,
        ensures
            r == self@.discrepancies(),
    {
        self.models_added_to_index.len() + self.models_removed_from_index.len()
            + self.models_in_index_but_missing_locally.len()
    }

    pub fn messages(&self) -> (r: &Vec<String>)
        ensures
            r@.map_values(|s: String| s@) == self@.messages,
    {
        &self.messages
    }

    /// Identifiers recorded as added to the catalog by a sync run.
    pub fn added_to_index(&self) -> (r: &Vec<String>)
        ensures
            r@.map_values(|s: String| s@) == self@.added,
    {
        &self.models_added_to_index
    }

    /// Identifiers recorded as removed from the catalog; reserved, never
    /// populated by any sync code path.
    pub fn removed_from_index(&self) -> (r: &Vec<String>)
        ensures
            r@.map_values(|s: String| s@) == self@.removed,
    {
        &self.models_removed_from_index
    }

    /// Identifiers present in the catalog but missing from the local cache.
    pub fn missing_locally(&self) -> (r: &Vec<String>)
        ensures
            r@.map_values(|s: String| s@) == self@.missing,
    {
        &self.models_in_index_but_missing_locally
    }
}

impl Default for SyncResult {
    fn default() -> (r: Self)
        ensures
            r@ =~= SyncResultView::empty(),
    {
        Self::new()
    }
}

} // verus!
