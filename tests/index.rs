use chat_search::chat::plan_document;
use chat_search::index::{IndexError, SnapshotError, TextChunk, VectorDatabase};
use chat_search::rank::{rank_candidates, select_top};

fn chat(lines: &[(&str, &str)]) -> String {
    let mut t = String::new();
    for (i, (who, what)) in lines.iter().enumerate() {
        t.push_str(&format!("[12/03/24, 09:15:{:02}] {}: {}\n", i, who, what));
    }
    while t.chars().count() < 500 {
        t.push_str("padding words for the detection window\n");
    }
    t
}

fn chunk(doc: &str, content: &str, e: Vec<f32>) -> TextChunk<f32> {
    TextChunk { doc_id: doc.to_string(), content: content.to_string(), sender: None, date: None, embedding: e }
}

#[test]
fn add_document_appends_chunks() {
    let mut db: VectorDatabase<f32> = VectorDatabase::new();
    let plan = plan_document(&chat(&[("Alice", "hello"), ("Bob", "hi")])).ok().unwrap();
    let embs = vec![vec![1.0f32, 0.0], vec![0.0f32, 1.0]];
    assert!(db.add_document(&"d1".to_string(), &plan, &embs).is_ok());
    assert_eq!(db.get_count(), 2);
    assert_eq!(db.chunk(0).sender.as_deref(), Some("Alice"));
    assert_eq!(db.chunk(1).date.as_deref(), Some("12/03/24, 09:15:01"));
    assert_eq!(db.debug_print_chunk(0), "[d1] hello");
    assert_eq!(db.debug_print_chunk(5), "Index out of bounds");
}

#[test]
fn add_document_rejects_bad_embeddings() {
    let mut db: VectorDatabase<f32> = VectorDatabase::new();
    let plan = plan_document(&chat(&[("Alice", "hello"), ("Bob", "hi")])).ok().unwrap();
    let one = vec![vec![1.0f32, 0.0]];
    assert_eq!(db.add_document(&"d".to_string(), &plan, &one).err(), Some(IndexError::EmbeddingCount));
    let ragged = vec![vec![1.0f32, 0.0], vec![1.0f32]];
    assert_eq!(db.add_document(&"d".to_string(), &plan, &ragged).err(), Some(IndexError::Dimension));
    assert!(db.add_document(&"d".to_string(), &plan, &vec![vec![1.0f32, 0.0]; 2]).is_ok());
    let wider = vec![vec![1.0f32, 0.0, 0.0]; 2];
    assert_eq!(db.add_document(&"e".to_string(), &plan, &wider).err(), Some(IndexError::Dimension));
    assert_eq!(db.get_count(), 2);
}

#[test]
fn document_ids_sorted_and_unique() {
    let mut db: VectorDatabase<f32> = VectorDatabase::new();
    let snap = vec![
        chunk("b", "x", vec![1.0]),
        chunk("a", "y", vec![1.0]),
        chunk("b", "z", vec![1.0]),
        chunk("ab", "w", vec![1.0]),
    ];
    assert!(db.import_database(snap).is_ok());
    assert_eq!(db.get_document_ids(), vec!["a".to_string(), "ab".to_string(), "b".to_string()]);
    let empty: VectorDatabase<f32> = VectorDatabase::new();
    assert!(empty.get_document_ids().is_empty());
}

#[test]
fn export_import_round_trip() {
    let mut db: VectorDatabase<f32> = VectorDatabase::new();
    let mut c = chunk("d", "hello", vec![0.6, 0.8]);
    c.sender = Some("Alice".to_string());
    c.date = Some("12/03/24, 09:15:32".to_string());
    assert!(db.import_database(vec![c, chunk("e", "bye", vec![1.0, 0.0])]).is_ok());
    let snap = db.export_database();
    let mut other: VectorDatabase<f32> = VectorDatabase::new();
    assert!(other.import_database(snap).is_ok());
    assert_eq!(other.get_count(), 2);
    assert_eq!(other.get_document_ids(), db.get_document_ids());
    for i in 0..2 {
        let (x, y) = (db.chunk(i), other.chunk(i));
        assert_eq!(x.doc_id, y.doc_id);
        assert_eq!(x.content, y.content);
        assert_eq!(x.sender, y.sender);
        assert_eq!(x.date, y.date);
        assert_eq!(x.embedding, y.embedding);
    }
}

#[test]
fn import_rejects_mixed_dimensions() {
    let mut db: VectorDatabase<f32> = VectorDatabase::new();
    assert!(db.import_database(vec![chunk("a", "x", vec![1.0])]).is_ok());
    let bad = vec![chunk("b", "y", vec![1.0]), chunk("c", "z", vec![1.0, 0.0])];
    assert_eq!(db.import_database(bad).err(), Some(SnapshotError::Dimension));
    assert_eq!(db.get_count(), 1);
    assert_eq!(db.debug_print_chunk(0), "[a] x");
}

#[test]
fn search_features_respect_filter() {
    let mut db: VectorDatabase<f32> = VectorDatabase::new();
    let snap = vec![chunk("a", "cat", vec![1.0]), chunk("b", "cat", vec![1.0]), chunk("a", "dog", vec![1.0])];
    assert!(db.import_database(snap).is_ok());
    let f = db.search_features("cat", &Some(vec!["a".to_string()]));
    assert!(f[0].is_some() && f[1].is_none() && f[2].is_some());
    assert_eq!(f[0].as_ref().unwrap().matches, 1);
    assert_eq!(f[2].as_ref().unwrap().matches, 0);
    let all = db.search_features("cat", &None);
    assert!(all.iter().all(|x| x.is_some()));
    let scores = vec![5, 9, 1];
    let r = rank_candidates(&f, &scores, 0, 10);
    assert_eq!(r, vec![0, 2]);
}

#[test]
fn top_k_and_threshold() {
    let keys = vec![Some(90), Some(70), Some(85), Some(95), Some(80)];
    assert_eq!(select_top(&keys, 80, 2), vec![3, 0]);
    assert_eq!(select_top(&keys, 80, 10), vec![3, 0, 2, 4]);
    assert_eq!(select_top(&keys, 96, 10), Vec::<usize>::new());
    assert_eq!(select_top(&keys, 0, 0), Vec::<usize>::new());
    assert_eq!(select_top(&vec![], 0, 3), Vec::<usize>::new());
}

#[test]
fn equal_scores_keep_insertion_order() {
    let keys = vec![Some(5), None, Some(7), Some(5), Some(7)];
    assert_eq!(select_top(&keys, i64::MIN, 10), vec![2, 4, 0, 3]);
}

#[test]
fn halved_url_score_ranks_lower() {
    let q = chat_search::text::query_term_list("meeting");
    let a = chat_search::text::keyword_features(&q, "meeting at noon");
    let b = chat_search::text::keyword_features(&q, "https://example.com");
    let v = 0.6f32;
    let score = |f: &chat_search::text::KeywordFeatures| {
        let kw = if f.query_terms == 0 { 0.0 } else { f.matches as f32 / f.query_terms as f32 };
        let mut s = 0.5 * v + 0.5 * kw;
        if f.short_penalty {
            s *= 0.95;
        }
        if f.url_penalty {
            s *= 0.5;
        }
        s
    };
    assert!(score(&a) > score(&b));
    let keys = vec![Some((score(&b) * 1e6) as i64), Some((score(&a) * 1e6) as i64)];
    assert_eq!(select_top(&keys, 0, 2), vec![1, 0]);
}
