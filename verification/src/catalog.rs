//! The catalog store: a file-backed document of model records, modelled over
//! an in-memory medium.
//!
//! A [`ModelIndex`] holds the text of the backing document — or `None` when
//! the document file is absent. Loading parses that text; an absent document
//! loads as an empty catalog, a malformed one fails with [`ParseError`].
//! Upserting replaces the record with a matching identifier in place, or
//! appends one, and rewrites the medium. The thin binary around this crate
//! reads the real file into a store before an operation and writes the
//! medium back afterwards.

use vstd::prelude::*;
use crate::codec::{enc_doc, parse_doc, encode_model_index, parse_model_index, ParseError};
use crate::models::{ModelInfo, ModelInfoView, ModelIndexData};

verus! {

/// Index of the first record carrying `id`, or `-1` when none does.
pub open spec fn find_model(models: Seq<ModelInfoView>, id: Seq<char>) -> int
    decreases models.len(),
{
    if models.len() == 0 {
        -1
    } else if models[0].model_id == id {
        0
    } else {
        let r = find_model(models.drop_first(), id);
        if r < 0 {
            -1
        } else {
            r + 1
        }
    }
}

/// Replace-if-present-else-append, keyed by the record's identifier: the
/// upsert that every catalog write goes through.
pub open spec fn upsert(models: Seq<ModelInfoView>, m: ModelInfoView) -> Seq<ModelInfoView> {
    let i = find_model(models, m.model_id);
    if i >= 0 {
        models.update(i, m)
    } else {
        models.push(m)
    }
}

/// What loading a store yields: an absent document is an empty catalog, a
/// present one is its parse, malformed text is `None`.
pub open spec fn load_spec(store: Option<Seq<char>>) -> Option<Seq<ModelInfoView>> {
    match store {
        None => Some(Seq::empty()),
        Some(text) => parse_doc(text),
    }
}

/// No two records carry the same identifier: the catalog document invariant,
/// established and preserved by upsert.
pub open spec fn unique_ids(models: Seq<ModelInfoView>) -> bool {
    forall|j: int, k: int|
        0 <= j < k < models.len() ==> models[j].model_id != models[k].model_id
}

pub proof fn lemma_find_model_props(models: Seq<ModelInfoView>, id: Seq<char>)
    ensures
        find_model(models, id) == -1 || (0 <= find_model(models, id) < models.len()),
        find_model(models, id) >= 0 ==> models[find_model(models, id)].model_id == id,
        forall|k: int|
            0 <= k < models.len() && (find_model(models, id) == -1 || k < find_model(models, id))
                ==> (#[trigger] models[k]).model_id != id,
    decreases models.len(),
{
    if models.len() > 0 && models[0].model_id != id {
        lemma_find_model_props(models.drop_first(), id);
        assert forall|k: int|
            0 <= k < models.len() && (find_model(models, id) == -1 || k < find_model(models, id))
                implies (#[trigger] models[k]).model_id != id by {
            if k > 0 {
                assert(models.drop_first()[k - 1] == models[k]);
            }
        }
    }
}

/// The first index whose record carries `id` is what `find_model` returns.
pub proof fn lemma_find_model_char(models: Seq<ModelInfoView>, id: Seq<char>, j: int)
    requires
        0 <= j < models.len(),
        models[j].model_id == id,
        forall|k: int| 0 <= k < j ==> (#[trigger] models[k]).model_id != id,
    ensures
        find_model(models, id) == j,
    decreases models.len(),
{
    if j > 0 {
        assert(models[0].model_id != id);
        assert(models.drop_first()[j - 1] == models[j]);
        assert forall|k: int| 0 <= k < j - 1 implies (#[trigger] models.drop_first()[k]).model_id
            != id by {
            assert(models.drop_first()[k] == models[k + 1]);
        }
        lemma_find_model_char(models.drop_first(), id, j - 1);
    }
}

/// When no record carries `id`, `find_model` says so.
pub proof fn lemma_find_model_none(models: Seq<ModelInfoView>, id: Seq<char>)
    requires
        forall|k: int| 0 <= k < models.len() ==> (#[trigger] models[k]).model_id != id,
    ensures
        find_model(models, id) == -1,
{
    lemma_find_model_props(models, id);
    if find_model(models, id) >= 0 {
        assert(models[find_model(models, id)].model_id == id);
    }
}

/// Upserting keeps identifiers unique.
pub proof fn lemma_upsert_preserves_unique(models: Seq<ModelInfoView>, m: ModelInfoView)
    requires
        unique_ids(models),
    ensures
        unique_ids(upsert(models, m)),
{
    lemma_find_model_props(models, m.model_id);
    let i = find_model(models, m.model_id);
    let u = upsert(models, m);
    if i >= 0 {
        assert forall|j: int, k: int| 0 <= j < k < u.len() implies u[j].model_id
            != u[k].model_id by {
            if j != i && k != i {
                assert(u[j] == models[j] && u[k] == models[k]);
            } else if j == i {
                assert(u[k] == models[k]);
                assert(models[i].model_id == m.model_id);
            } else {
                assert(u[j] == models[j]);
                assert(models[i].model_id == m.model_id);
            }
        }
    } else {
        assert forall|j: int, k: int| 0 <= j < k < u.len() implies u[j].model_id
            != u[k].model_id by {
            if k == models.len() {
                assert(u[j] == models[j]);
                assert(u[k] == m);
            } else {
                assert(u[j] == models[j] && u[k] == models[k]);
            }
        }
    }
}

/// Writing a record for one identifier twice keeps only the second write:
/// the catalog holds exactly one record for that identifier afterwards, and
/// its file list is the second record's, never a merge.
pub proof fn lemma_upsert_twice(
    models: Seq<ModelInfoView>,
    m1: ModelInfoView,
    m2: ModelInfoView,
)
    requires
        m1.model_id == m2.model_id,
        unique_ids(models),
    ensures
        upsert(upsert(models, m1), m2) == upsert(models, m2),
        unique_ids(upsert(upsert(models, m1), m2)),
        exists|j: int|
            0 <= j < upsert(upsert(models, m1), m2).len() && upsert(upsert(models, m1), m2)[j]
                == m2,
        forall|j: int|
            0 <= j < upsert(upsert(models, m1), m2).len() && (#[trigger] upsert(
                upsert(models, m1),
                m2,
            )[j]).model_id == m2.model_id ==> upsert(upsert(models, m1), m2)[j] == m2,
{
    let id = m1.model_id;
    lemma_find_model_props(models, id);
    let i = find_model(models, id);
    let u1 = upsert(models, m1);
    if i >= 0 {
        assert forall|k: int| 0 <= k < i implies (#[trigger] u1[k]).model_id != id by {
            assert(u1[k] == models[k]);
        }
        lemma_find_model_char(u1, id, i);
        assert(upsert(u1, m2) =~= models.update(i, m2));
        lemma_upsert_preserves_unique(models, m2);
        assert(upsert(models, m2)[i] == m2);
        let u = upsert(upsert(models, m1), m2);
        assert forall|j: int|
            0 <= j < u.len() && (#[trigger] u[j]).model_id == m2.model_id implies u[j] == m2 by {
            if j != i {
                assert(u[j] == models[j]);
                assert(unique_ids(upsert(models, m2)));
                assert(upsert(models, m2)[i].model_id == m2.model_id);
                if j < i {
                    assert(upsert(models, m2)[j].model_id != upsert(models, m2)[i].model_id);
                } else {
                    assert(upsert(models, m2)[i].model_id != upsert(models, m2)[j].model_id);
                }
            }
        }
    } else {
        assert forall|k: int| 0 <= k < models.len() implies (#[trigger] u1[k]).model_id != id by {
            assert(u1[k] == models[k]);
        }
        assert(u1[models.len() as int] == m1);
        lemma_find_model_char(u1, id, models.len() as int);
        assert(upsert(u1, m2) =~= models.push(m2));
        assert(upsert(models, m2) =~= models.push(m2));
        lemma_upsert_preserves_unique(models, m2);
        let u = upsert(upsert(models, m1), m2);
        assert(u[models.len() as int] == m2);
        assert forall|j: int|
            0 <= j < u.len() && (#[trigger] u[j]).model_id == m2.model_id implies u[j] == m2 by {
            if j < models.len() {
                assert(u[j] == models[j]);
            }
        }
    }
}

/// Round trip at the store level: the text `save` writes for a document
/// loads back as exactly that document.
pub proof fn lemma_save_load(doc: Seq<ModelInfoView>)
    ensures
        load_spec(Some(enc_doc(doc))) == Some(doc),
{
    crate::codec::lemma_parse_encode(doc);
}

/// Replaces the record carrying `model`'s identifier in place, or appends
/// the record when none does: the in-place upsert every catalog write goes
/// through.
pub(crate) fn upsert_into(data: &mut ModelIndexData, model: ModelInfo)
    ensures
        final(data)@ == upsert(old(data)@, model@),
{
    let ghost models0: Seq<ModelInfoView> = data@;
    let n: usize = data.models.len();
    let mut pos: usize = n;
    let mut i: usize = 0;
    while i < n
        invariant
            n == data.models.len(),
            i <= n,
            pos <= n,
            data@ == models0,
            models0.len() == n,
            pos == n ==> forall|k: int|
                0 <= k < i ==> (#[trigger] models0[k]).model_id != model@.model_id,
            pos < n ==> (pos < i && models0[pos as int].model_id == model@.model_id && forall|
                k: int,
            |
                0 <= k < pos ==> (#[trigger] models0[k]).model_id != model@.model_id),
        decreases n - i,
    {
        if pos == n && data.models[i].model_id == model.model_id {
            pos = i;
        }
        i = i + 1;
    }
    if pos < n {
        proof {
            lemma_find_model_char(models0, model@.model_id, pos as int);
        }
        data.models[pos] = model;
        proof {
            assert(data@ =~= models0.update(pos as int, model@));
        }
    } else {
        proof {
            lemma_find_model_none(models0, model@.model_id);
        }
        data.models.push(model);
        proof {
            assert(data@ =~= models0.push(model@));
        }
    }
    proof {
        assert(data@ == upsert(models0, model@));
    }
}

/// The catalog store over its in-memory document medium. `None` stands for
/// an absent document file.
#[derive(Debug, Clone)]
pub struct ModelIndex {
    contents: Option<String>,
}

impl View for ModelIndex {
    type V = Option<Seq<char>>;

    closed spec fn view(&self) -> Option<Seq<char>> {
        match self.contents {
            None => None,
            Some(s) => Some(s@),
        }
    }
}

impl ModelIndex {
    /// A store over the given document text.
    pub fn new(contents: Option<String>) -> (r: Self)
        ensures
            contents is None ==> r@ is None,
            contents matches Some(s) ==> r@ == Some(s@),
    {
        Self { contents }
    }

    /// The document medium as it stands, for the caller to persist.
    pub fn contents(&self) -> (r: &Option<String>)
        ensures
            r is None <==> self@ is None,
            r matches Some(s) ==> self@ == Some(s@),
    {
        &self.contents
    }

    /// Loads the catalog: the records of the document, an empty list when
    /// the document is absent, and `Err` exactly when it is malformed.
    pub fn models(&self) -> (r: Result<Vec<ModelInfo>, ParseError>)
        ensures
            r matches Ok(v) ==> load_spec(self@) == Some(
                v@.map_values(|m: ModelInfo| m@),
            ),
            r is Err <==> load_spec(self@) is None,
    {
        match &self.contents {
            None => {
                let empty: Vec<ModelInfo> = Vec::new();
                proof {
                    assert(empty@.map_values(|m: ModelInfo| m@) =~= Seq::<ModelInfoView>::empty());
                }
                Ok(empty)
            },
            Some(text) => {
                match parse_model_index(text.as_str()) {
                    Ok(d) => Ok(d.models),
                    Err(e) => Err(e),
                }
            },
        }
    }

    /// Overwrites the medium with the encoding of `index`.
    pub(crate) fn save(&mut self, index: &ModelIndexData)
        ensures
            final(self)@ == Some(enc_doc(index@)),
    {
        self.contents = Some(encode_model_index(index));
    }

    /// Upsert: loads the document, replaces the record whose identifier
    /// matches (or appends it), and writes the document back. Fails, leaving
    /// the medium untouched, exactly when the document is malformed.
    pub fn add_model(&mut self, model: ModelInfo) -> (r: Result<(), ParseError>)
        ensures
            r is Err ==> (load_spec(old(self)@) is None && final(self)@ == old(self)@),
            r is Ok ==> (load_spec(old(self)@) matches Some(models) && final(self)@ == Some(
                enc_doc(upsert(models, model@)),
            )),
    {
        let mut data: ModelIndexData = match &self.contents {
            None => {
                let d = ModelIndexData { models: Vec::new() };
                proof {
                    assert(d@ =~= Seq::<ModelInfoView>::empty());
                }
                d
            },
            Some(text) => {
                match parse_model_index(text.as_str()) {
                    Ok(d) => d,
                    Err(e) => {
                        return Err(e);
                    },
                }
            },
        };
        upsert_into(&mut data, model);
        self.save(&data);
        Ok(())
    }
}

} // verus!
