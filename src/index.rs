//! The append-only chunk index: chunks with their embeddings, in insertion
//! order, with a snapshot (export / import) and the per-chunk lexical
//! features that ranking needs.
//!
//! The index is generic over the type of an embedding's components, which
//! it stores and hands back but never computes with.
use vstd::prelude::*;
use crate::rank::{candidate_keys, is_top_selection, lemma_selected_have_features};
use crate::chat::{group_view, planned_messages, MessageSpec, PlannedChunk};
use crate::order::{lemma_lex_irreflexive, lemma_lex_total, lemma_lex_transitive, lemma_lex_asymmetric, lex_lt, str_lt};
use crate::text::{
    chunk_terms, contains_string, is_bare_url, keyword_below_one_percent, keyword_features,
    match_count, query_term_list, query_terms, utf8_len, views, KeywordFeatures,
};

verus! {

/// One stored chunk.
pub struct TextChunk<T> {
    pub doc_id: String,
    pub content: String,
    pub sender: Option<String>,
    pub date: Option<String>,
    pub embedding: Vec<T>,
}

/// What a chunk holds, as mathematical values.
pub struct ChunkView<T> {
    pub doc_id: Seq<char>,
    pub content: Seq<char>,
    pub sender: Option<Seq<char>>,
    pub date: Option<Seq<char>>,
    pub embedding: Seq<T>,
}

impl<T> View for TextChunk<T> {
    type V = ChunkView<T>;

    open spec fn view(&self) -> ChunkView<T> {
        ChunkView {
            doc_id: self.doc_id@,
            content: self.content@,
            sender: group_view(self.sender),
            date: group_view(self.date),
            embedding: self.embedding@,
        }
    }
}

pub open spec fn chunk_views<T>(v: Seq<TextChunk<T>>) -> Seq<ChunkView<T>> {
    v.map_values(|c: TextChunk<T>| c@)
}

/// Every embedding has the same length.
pub open spec fn uniform_dim<T>(cs: Seq<ChunkView<T>>) -> bool {
    forall|i: int, j: int|
        0 <= i < cs.len() && 0 <= j < cs.len() ==> #[trigger] cs[i].embedding.len()
            == #[trigger] cs[j].embedding.len()
}

/// The chunks after importing `snapshot` into an index holding `current`:
/// the snapshot when its dimension is uniform, else no change.
pub open spec fn imported<T>(current: Seq<ChunkView<T>>, snapshot: Seq<ChunkView<T>>) -> Seq<
    ChunkView<T>,
> {
    if uniform_dim(snapshot) {
        snapshot
    } else {
        current
    }
}

/// Embeddings that can join an index holding `cs`: one length among them,
/// and that of the index when both are non-empty.
pub open spec fn dims_fit<T>(cs: Seq<ChunkView<T>>, es: Seq<Seq<T>>) -> bool {
    &&& forall|i: int, j: int|
        0 <= i < es.len() && 0 <= j < es.len() ==> #[trigger] es[i].len() == #[trigger] es[j].len()
    &&& cs.len() > 0 && es.len() > 0 ==> es[0].len() == cs[0].embedding.len()
}

/// The chunk stored for chat message `m` of document `id`.
pub open spec fn message_chunk<T>(id: Seq<char>, m: MessageSpec, e: Seq<T>) -> ChunkView<T> {
    ChunkView { doc_id: id, content: m.2, sender: Some(m.1), date: Some(m.0), embedding: e }
}

pub open spec fn message_chunks<T>(id: Seq<char>, ms: Seq<MessageSpec>, es: Seq<Seq<T>>) -> Seq<
    ChunkView<T>,
> {
    Seq::new(ms.len(), |i: int| message_chunk(id, ms[i], es[i]))
}

pub open spec fn vec_views<T>(v: Seq<Vec<T>>) -> Seq<Seq<T>> {
    v.map_values(|e: Vec<T>| e@)
}

/// `ids` is strictly increasing.
pub open spec fn strictly_sorted(ids: Seq<Seq<char>>) -> bool {
    forall|a: int, b: int| 0 <= a < b < ids.len() ==> lex_lt(#[trigger] ids[a], #[trigger] ids[b])
}

pub open spec fn doc_ids<T>(cs: Seq<ChunkView<T>>) -> Seq<Seq<char>> {
    cs.map_values(|c: ChunkView<T>| c.doc_id)
}

/// The distinct document ids of `cs`, in increasing order.
pub open spec fn is_document_id_list<T>(cs: Seq<ChunkView<T>>, ids: Seq<Seq<char>>) -> bool {
    &&& strictly_sorted(ids)
    &&& forall|k: int| 0 <= k < ids.len() ==> doc_ids(cs).contains(#[trigger] ids[k])
    &&& forall|c: int| 0 <= c < cs.len() ==> ids.contains(#[trigger] cs[c].doc_id)
}

/// A chunk whose document passes the optional filter.
pub open spec fn is_allowed(allowed: Option<Seq<Seq<char>>>, id: Seq<char>) -> bool {
    match allowed {
        Some(ids) => ids.contains(id),
        None => true,
    }
}

pub open spec fn allowed_view(allowed: Option<Vec<String>>) -> Option<Seq<Seq<char>>> {
    match allowed {
        Some(v) => Some(views(v@)),
        None => None,
    }
}

/// `f` holds the lexical features of `content` for `query`.
pub open spec fn features_of(f: KeywordFeatures, query: Seq<char>, content: Seq<char>) -> bool {
    &&& f.matches == match_count(query_terms(query), chunk_terms(content))
    &&& f.query_terms == query_terms(query).len()
    &&& f.short_penalty == (utf8_len(content) < 20 && keyword_below_one_percent(
        f.matches as nat,
        f.query_terms as nat,
    ))
    &&& f.url_penalty == is_bare_url(content)
}

pub open spec fn bracket_line(id: Seq<char>, content: Seq<char>) -> Seq<char> {
    seq!['['] + id + seq![']', ' '] + content
}

/// Why embeddings cannot be added.
#[derive(Debug, PartialEq, Eq, Structural)]
pub enum IndexError {
    /// Not one embedding per chunk.
    EmbeddingCount,
    /// An embedding whose length differs from the others or from the index's.
    Dimension,
}

/// Why a snapshot cannot be imported.
#[derive(Debug, PartialEq, Eq, Structural)]
pub enum SnapshotError {
    /// Embeddings of different lengths.
    Dimension,
}

fn copy_opt(o: &Option<String>) -> (r: Option<String>)
    ensures
        group_view(r) == group_view(*o),
{
    match o {
        Some(s) => Some(s.clone()),
        None => None,
    }
}

fn copy_vec<T: Copy>(v: &Vec<T>) -> (r: Vec<T>)
    ensures
        r@ == v@,
{
    let mut r: Vec<T> = Vec::new();
    let mut i: usize = 0;
    while i < v.len()
        invariant
            i <= v.len(),
            r@ == v@.take(i as int),
        decreases v.len() - i,
    {
        r.push(v[i]);
        assert(v@.take(i + 1) =~= v@.take(i as int).push(v@[i as int]));
        i = i + 1;
    }
    assert(v@.take(v.len() as int) =~= v@);
    r
}

impl<T: Copy> TextChunk<T> {
    pub fn copy(&self) -> (r: TextChunk<T>)
        ensures
            r@ == self@,
    {
        TextChunk {
            doc_id: self.doc_id.clone(),
            content: self.content.clone(),
            sender: copy_opt(&self.sender),
            date: copy_opt(&self.date),
            embedding: copy_vec(&self.embedding),
        }
    }
}

/// The chunk index.
pub struct VectorDatabase<T> {
    chunks: Vec<TextChunk<T>>,
}

impl<T> View for VectorDatabase<T> {
    type V = Seq<ChunkView<T>>;

    closed spec fn view(&self) -> Seq<ChunkView<T>> {
        chunk_views(self.chunks@)
    }
}

impl<T: Copy> VectorDatabase<T> {
    /// An empty index.
    pub fn new() -> (r: VectorDatabase<T>)
        ensures
            r@.len() == 0,
            uniform_dim(r@),
    {
        let r = VectorDatabase { chunks: Vec::new() };
        assert(r@ =~= Seq::<ChunkView<T>>::empty());
        r
    }

    /// Number of chunks.
    pub fn get_count(&self) -> (r: usize)
        ensures
            r == self@.len(),
    {
        self.chunks.len()
    }

    /// The chunk at `index`.
    pub fn chunk(&self, index: usize) -> (r: &TextChunk<T>)
        requires
            index < self@.len(),
        ensures
            r@ == self@[index as int],
    {
        &self.chunks[index]
    }

    /// `"[doc_id] content"` for the chunk at `index`, or
    /// `"Index out of bounds"`.
    pub fn debug_print_chunk(&self, index: usize) -> (r: String)
        ensures
            index < self@.len() ==> r@ == bracket_line(self@[index as int].doc_id, self@[index as int].content),
            index >= self@.len() ==> r@ == "Index out of bounds"@,
    {
        if index < self.chunks.len() {
            let c = &self.chunks[index];
            let mut s = String::from_str("[");
            s.append(c.doc_id.as_str());
            s.append("] ");
            s.append(c.content.as_str());
            proof {
                reveal_strlit("[");
                reveal_strlit("] ");
                assert(s@ =~= bracket_line(c.doc_id@, c.content@));
            }
            s
        } else {
            String::from_str("Index out of bounds")
        }
    }

    /// Every chunk, in insertion order.
    pub fn export_database(&self) -> (r: Vec<TextChunk<T>>)
        ensures
            chunk_views(r@) == self@,
    {
        let mut r: Vec<TextChunk<T>> = Vec::new();
        let mut i: usize = 0;
        while i < self.chunks.len()
            invariant
                i <= self.chunks.len(),
                chunk_views(r@) == chunk_views(self.chunks@).take(i as int),
            decreases self.chunks.len() - i,
        {
            let c = self.chunks[i].copy();
            let ghost old_r = r@;
            r.push(c);
            assert(chunk_views(r@) =~= chunk_views(old_r).push(c@));
            assert(chunk_views(self.chunks@).take(i + 1) =~= chunk_views(self.chunks@).take(
                i as int,
            ).push(self.chunks@[i as int]@));
            i = i + 1;
        }
        assert(chunk_views(self.chunks@).take(i as int) =~= chunk_views(self.chunks@));
        r
    }

    /// Replaces every chunk by those of `snapshot`, when their embeddings
    /// share one length; else changes nothing.
    pub fn import_database(&mut self, snapshot: Vec<TextChunk<T>>) -> (r: Result<(), SnapshotError>)
        ensures
            r is Ok <==> uniform_dim(chunk_views(snapshot@)),
            final(self)@ == imported(old(self)@, chunk_views(snapshot@)),
            uniform_dim(old(self)@) ==> uniform_dim(final(self)@),
    {
        let ghost sv = chunk_views(snapshot@);
        let n = snapshot.len();
        if n > 0 {
            let d = snapshot[0].embedding.len();
            let mut i: usize = 0;
            while i < n
                invariant
                    n == snapshot.len(),
                    n > 0,
                    d == snapshot@[0].embedding.len(),
                    sv == chunk_views(snapshot@),
                    i <= n,
                    forall|j: int| 0 <= j < i ==> (#[trigger] sv[j]).embedding.len() == d,
                decreases n - i,
            {
                if snapshot[i].embedding.len() != d {
                    proof {
                        assert(sv[i as int].embedding.len() != sv[0].embedding.len());
                    }
                    return Err(SnapshotError::Dimension);
                }
                i = i + 1;
            }
        }
        self.chunks = snapshot;
        Ok(())
    }

    /// The distinct document ids, in increasing order.
    pub fn get_document_ids(&self) -> (r: Vec<String>)
        ensures
            is_document_id_list(self@, views(r@)),
    {
        let ghost cs = self@;
        let mut ids: Vec<String> = Vec::new();
        let mut ci: usize = 0;
        while ci < self.chunks.len()
            invariant
                cs == self@,
                ci <= self.chunks.len(),
                strictly_sorted(views(ids@)),
                forall|k: int|
                    #![trigger ids@[k]]
                    0 <= k < ids.len() ==> exists|c2: int| #![trigger cs[c2]] 0 <= c2 < ci && cs[c2].doc_id == ids@[k]@,
                forall|c2: int| 0 <= c2 < ci ==> views(ids@).contains(#[trigger] cs[c2].doc_id),
            decreases self.chunks.len() - ci,
        {
            let x = &self.chunks[ci].doc_id;
            assert(cs[ci as int].doc_id == x@);
            let mut p: usize = 0;
            while p < ids.len() && str_lt(ids[p].as_str(), x.as_str())
                invariant
                    p <= ids.len(),
                    forall|k: int| 0 <= k < p ==> lex_lt(#[trigger] ids@[k]@, x@),
                decreases ids.len() - p,
            {
                p = p + 1;
            }
            let ghost old_ids = views(ids@);
            if p < ids.len() && ids[p] == *x {
                assert(old_ids[p as int] == x@);
            } else {
                proof {
                    if p < ids.len() {
                        lemma_lex_total(old_ids[p as int], x@);
                    }
                    assert forall|k: int| p <= k < old_ids.len() implies lex_lt(x@, #[trigger] old_ids[k]) by {
                        if k > p {
                            lemma_lex_transitive(x@, old_ids[p as int], old_ids[k]);
                        }
                    }
                }
                ids.insert(p, x.clone());
                proof {
                    let nv = views(ids@);
                    assert(nv =~= old_ids.insert(p as int, x@));
                    assert forall|a: int, b: int| 0 <= a < b < nv.len() implies lex_lt(#[trigger] nv[a], #[trigger] nv[b]) by {
                        if b < p {
                            assert(nv[a] == old_ids[a]);
                            assert(nv[b] == old_ids[b]);
                        } else if a < p && b == p {
                        } else if a < p && b > p {
                            assert(nv[b] == old_ids[b - 1]);
                            assert(lex_lt(old_ids[a], old_ids[b - 1]));
                        } else if a == p {
                            assert(nv[b] == old_ids[b - 1]);
                        } else {
                            assert(nv[a] == old_ids[a - 1]);
                            assert(nv[b] == old_ids[b - 1]);
                        }
                    }
                    assert forall|k: int| #![trigger ids@[k]] 0 <= k < ids.len() implies exists|c2: int| #![trigger cs[c2]] 0 <= c2 < ci + 1 && cs[c2].doc_id == ids@[k]@ by {
                        if k < p {
                            assert(nv[k] == old_ids[k]);
                        } else if k > p {
                            assert(nv[k] == old_ids[k - 1]);
                        } else {
                            assert(cs[ci as int].doc_id == ids@[k]@);
                        }
                    }
                    assert forall|c2: int| 0 <= c2 < ci + 1 implies nv.contains(#[trigger] cs[c2].doc_id) by {
                        if c2 < ci {
                            let k = choose|k: int| 0 <= k < old_ids.len() && old_ids[k] == cs[c2].doc_id;
                            if k < p {
                                assert(nv[k] == old_ids[k]);
                            } else {
                                assert(nv[k + 1] == old_ids[k]);
                            }
                        } else {
                            assert(nv[p as int] == x@);
                        }
                    }
                }
            }
            ci = ci + 1;
        }
        proof {
            let v = views(ids@);
            assert forall|k: int| 0 <= k < v.len() implies doc_ids(cs).contains(#[trigger] v[k]) by {
                assert(v[k] == ids@[k]@);
                let c2 = choose|c2: int| #![trigger cs[c2]] 0 <= c2 < ci && cs[c2].doc_id == ids@[k]@;
                assert(doc_ids(cs)[c2] == v[k]);
            }
        }
        ids
    }
}

impl<T: Copy> VectorDatabase<T> {
    /// Appends one chunk per planned message of document `id`, with the
    /// embedding at the same position; adds nothing when the counts differ
    /// or the embeddings' lengths do not fit the index.
    pub fn add_document(
        &mut self,
        id: &String,
        planned: &Vec<PlannedChunk>,
        embeddings: &Vec<Vec<T>>,
    ) -> (r: Result<(), IndexError>)
        ensures
            r == Err::<(), IndexError>(IndexError::EmbeddingCount) <==> planned.len()
                != embeddings.len(),
            r == Err::<(), IndexError>(IndexError::Dimension) <==> planned.len() == embeddings.len()
                && !dims_fit(old(self)@, vec_views(embeddings@)),
            r is Ok ==> final(self)@ == old(self)@ + message_chunks(
                id@,
                planned_messages(planned@),
                vec_views(embeddings@),
            ),
            r is Err ==> final(self)@ == old(self)@,
            uniform_dim(old(self)@) ==> uniform_dim(final(self)@),
    {
        let n = planned.len();
        if n != embeddings.len() {
            return Err(IndexError::EmbeddingCount);
        }
        let ghost es = vec_views(embeddings@);
        if n > 0 {
            let d = embeddings[0].len();
            if self.chunks.len() > 0 && self.chunks[0].embedding.len() != d {
                return Err(IndexError::Dimension);
            }
            let mut i: usize = 0;
            while i < n
                invariant
                    n == embeddings.len(),
                    n == planned.len(),
                    n > 0,
                    es == vec_views(embeddings@),
                    d == es[0].len(),
                    i <= n,
                    forall|j: int| 0 <= j < i ==> (#[trigger] es[j]).len() == d,
                decreases n - i,
            {
                if embeddings[i].len() != d {
                    assert(es[i as int].len() != es[0].len());
                    return Err(IndexError::Dimension);
                }
                i = i + 1;
            }
        }
        let ghost old_chunks = self@;
        let mut k: usize = 0;
        while k < n
            invariant
                n == planned.len() == embeddings.len(),
                es == vec_views(embeddings@),
                dims_fit(old_chunks, es),
                k <= n,
                self@ == old_chunks + message_chunks(id@, planned_messages(planned@), es).take(
                    k as int,
                ),
            decreases n - k,
        {
            let m = &planned[k].message;
            let chunk = TextChunk {
                doc_id: id.clone(),
                content: m.content.clone(),
                sender: Some(m.sender.clone()),
                date: Some(m.date.clone()),
                embedding: copy_vec(&embeddings[k]),
            };
            let ghost before = self@;
            self.chunks.push(chunk);
            proof {
                let all = message_chunks(id@, planned_messages(planned@), es);
                assert(chunk@ == all[k as int]);
                assert(self@ =~= before.push(chunk@));
                assert(all.take(k + 1) =~= all.take(k as int).push(all[k as int]));
            }
            k = k + 1;
        }
        proof {
            let all = message_chunks(id@, planned_messages(planned@), es);
            assert(all.take(n as int) =~= all);
            if uniform_dim(old_chunks) {
                assert forall|i: int, j: int|
                    0 <= i < self@.len() && 0 <= j < self@.len() implies #[trigger] self@[i].embedding.len()
                    == #[trigger] self@[j].embedding.len() by {
                    if old_chunks.len() > 0 {
                        assert(old_chunks[0].embedding.len() == self@[0].embedding.len());
                    }
                    if i >= old_chunks.len() {
                        assert(self@[i] == all[i - old_chunks.len()]);
                    }
                    if j >= old_chunks.len() {
                        assert(self@[j] == all[j - old_chunks.len()]);
                    }
                }
            }
        }
        Ok(())
    }

    /// The lexical features of each chunk for `query`; `None` for a chunk
    /// whose document is not among `allowed_ids`, when that list is given.
    pub fn search_features(&self, query: &str, allowed_ids: &Option<Vec<String>>) -> (r: Vec<
        Option<KeywordFeatures>,
    >)
        ensures
            r.len() == self@.len(),
            forall|i: int|
                0 <= i < r.len() ==> (#[trigger] r@[i] is Some <==> is_allowed(
                    allowed_view(*allowed_ids),
                    self@[i].doc_id,
                )),
            forall|i: int|
                0 <= i < r.len() && #[trigger] r@[i] is Some ==> features_of(
                    r@[i]->0,
                    query@,
                    self@[i].content,
                ),
    {
        let terms = query_term_list(query);
        let mut r: Vec<Option<KeywordFeatures>> = Vec::new();
        let mut i: usize = 0;
        while i < self.chunks.len()
            invariant
                i <= self.chunks.len(),
                r.len() == i,
                views(terms@) == query_terms(query@),
                forall|j: int|
                    0 <= j < i ==> (#[trigger] r@[j] is Some <==> is_allowed(
                        allowed_view(*allowed_ids),
                        self@[j].doc_id,
                    )),
                forall|j: int|
                    0 <= j < i && #[trigger] r@[j] is Some ==> features_of(
                        r@[j]->0,
                        query@,
                        self@[j].content,
                    ),
            decreases self.chunks.len() - i,
        {
            let c = &self.chunks[i];
            assert(self@[i as int] == c@);
            let ok = match allowed_ids {
                Some(ids) => contains_string(ids, &c.doc_id),
                None => true,
            };
            if ok {
                let f = keyword_features(&terms, c.content.as_str());
                r.push(Some(f));
            } else {
                r.push(None);
            }
            i = i + 1;
        }
        r
    }
}

/// Importing what `export_database` returned succeeds and leaves every
/// chunk, hence the count and the document ids, as it was.
pub proof fn lemma_export_import_round_trip<T>(db: Seq<ChunkView<T>>, exported: Seq<ChunkView<T>>)
    requires
        uniform_dim(db),
        exported == db,
    ensures
        uniform_dim(exported),
        imported(db, exported) == db,
        imported(db, exported).len() == db.len(),
        forall|ids: Seq<Seq<char>>|
            is_document_id_list(imported(db, exported), ids) <==> is_document_id_list(db, ids),
{
}

/// Two lists that both satisfy `is_document_id_list` for the same chunks are
/// equal: the listing is determined by the chunks.
pub proof fn lemma_document_ids_unique<T>(
    cs: Seq<ChunkView<T>>,
    a: Seq<Seq<char>>,
    b: Seq<Seq<char>>,
)
    requires
        is_document_id_list(cs, a),
        is_document_id_list(cs, b),
    ensures
        a == b,
    decreases a.len() + b.len(),
{
    assert(forall|x: Seq<char>| a.contains(x) <==> b.contains(x)) by {
        assert forall|x: Seq<char>| a.contains(x) implies b.contains(x) by {
            let k = choose|k: int| 0 <= k < a.len() && a[k] == x;
            assert(doc_ids(cs).contains(a[k]));
            let c = choose|c: int| 0 <= c < doc_ids(cs).len() && doc_ids(cs)[c] == x;
            assert(b.contains(cs[c].doc_id));
        }
        assert forall|x: Seq<char>| b.contains(x) implies a.contains(x) by {
            let k = choose|k: int| 0 <= k < b.len() && b[k] == x;
            assert(doc_ids(cs).contains(b[k]));
            let c = choose|c: int| 0 <= c < doc_ids(cs).len() && doc_ids(cs)[c] == x;
            assert(a.contains(cs[c].doc_id));
        }
    }
    lemma_sorted_same_elements(a, b);
}

/// Strictly increasing lists with the same elements are equal.
pub proof fn lemma_sorted_same_elements(a: Seq<Seq<char>>, b: Seq<Seq<char>>)
    requires
        strictly_sorted(a),
        strictly_sorted(b),
        forall|x: Seq<char>| a.contains(x) <==> b.contains(x),
    ensures
        a == b,
    decreases a.len(),
{
    if a.len() == 0 {
        if b.len() > 0 {
            assert(b.contains(b[0]));
        }
        assert(a =~= b);
    } else if b.len() == 0 {
        assert(a.contains(a[0]));
    } else {
        // the first elements are the least ones, hence equal
        assert(b.contains(a[0]));
        assert(a.contains(b[0]));
        let i = choose|i: int| 0 <= i < b.len() && b[i] == a[0];
        let j = choose|j: int| 0 <= j < a.len() && a[j] == b[0];
        if i > 0 {
            assert(lex_lt(b[0], b[i]));
            if j > 0 {
                assert(lex_lt(a[0], a[j]));
                lemma_lex_asymmetric(b[0], a[0]);
            } else {
                lemma_lex_irreflexive(b[0]);
            }
        }
        assert(a[0] == b[0]);
        let a1 = a.drop_first();
        let b1 = b.drop_first();
        assert forall|x: Seq<char>| a1.contains(x) implies b1.contains(x) by {
            let k = choose|k: int| 0 <= k < a1.len() && a1[k] == x;
            assert(a[k + 1] == x);
            assert(b.contains(x));
            let m = choose|m: int| 0 <= m < b.len() && b[m] == x;
            if m == 0 {
                assert(lex_lt(a[0], a[k + 1]));
                lemma_lex_irreflexive(x);
            }
            assert(b1[m - 1] == x);
        }
        assert forall|x: Seq<char>| b1.contains(x) implies a1.contains(x) by {
            let k = choose|k: int| 0 <= k < b1.len() && b1[k] == x;
            assert(b[k + 1] == x);
            assert(a.contains(x));
            let m = choose|m: int| 0 <= m < a.len() && a[m] == x;
            if m == 0 {
                assert(lex_lt(b[0], b[k + 1]));
                lemma_lex_irreflexive(x);
            }
            assert(a1[m - 1] == x);
        }
        lemma_sorted_same_elements(a1, b1);
        assert(a =~= seq![a[0]] + a1);
        assert(b =~= seq![b[0]] + b1);
    }
}

/// With a document filter, every chunk that `rank_candidates` selects from
/// the features of `search_features` belongs to an allowed document.
pub proof fn lemma_filter_respected<T>(
    cs: Seq<ChunkView<T>>,
    allowed: Seq<Seq<char>>,
    features: Seq<Option<KeywordFeatures>>,
    scores: Seq<i64>,
    threshold: i64,
    top_k: nat,
    r: Seq<usize>,
)
    requires
        features.len() == cs.len(),
        forall|i: int|
            0 <= i < features.len() ==> (#[trigger] features[i] is Some <==> is_allowed(
                Some(allowed),
                cs[i].doc_id,
            )),
        is_top_selection(candidate_keys(features, scores), threshold, top_k, r),
    ensures
        forall|k: int| 0 <= k < r.len() ==> allowed.contains(#[trigger] cs[r[k] as int].doc_id),
{
    lemma_selected_have_features(features, scores, threshold, top_k, r);
    assert forall|k: int| 0 <= k < r.len() implies allowed.contains(#[trigger] cs[r[k] as int].doc_id) by {
        assert(features[r[k] as int] is Some);
        assert(crate::rank::passes(candidate_keys(features, scores), threshold, r[k] as int));
    }
}

} // verus!
