use keygen::corpus::{normalize, quartads, CorpusStats};
use keygen::layout_26::Layout;
use keygen::results::{corpus_fingerprint, BestRepo};
use keygen::symmetry::{canonical_key, layout_compact_string, mirror_layout};

#[derive(Clone, Debug)]
struct ResultRecord {
    layout: String,
    mirrored: String,
    canonical: String,
    penalty: f64,
    seed: u64,
    worker_id: u32,
    iter: u64,
}

fn insert(repo: &mut BestRepo<ResultRecord>, rec: ResultRecord) -> Option<ResultRecord> {
    let milli = (rec.penalty * 1000.0).round() as i64;
    let improves = match repo.get(&rec.canonical) {
        Some(existing) => rec.penalty + 1e-9 < existing.penalty,
        None => true,
    };
    let key = rec.canonical.clone();
    repo.offer(&key, milli, rec, improves)
}

fn record(layout: &Layout, penalty: f64, seed: u64) -> ResultRecord {
    ResultRecord {
        layout: layout_compact_string(layout),
        mirrored: layout_compact_string(&mirror_layout(layout)),
        canonical: canonical_key(layout),
        penalty,
        seed,
        worker_id: 0,
        iter: 100,
    }
}

#[test]
fn test_best_repo_ordering() {
    let mut repo = BestRepo::new(3);

    let layout1 = Layout::alphabetical();
    let rec1 = record(&layout1, 10.0, 1);

    insert(&mut repo, rec1.clone());
    assert_eq!(repo.len(), 1);

    // Insert better record with same canonical key
    let mut rec2 = rec1.clone();
    rec2.penalty = 9.0;
    insert(&mut repo, rec2.clone());
    assert_eq!(repo.len(), 1); // Should replace, not add

    // Insert worse record - should be ignored
    let mut rec3 = rec1.clone();
    rec3.penalty = 11.0;
    insert(&mut repo, rec3);
    assert_eq!(repo.len(), 1);

    // Verify top record has best penalty
    let top = repo.top();
    assert_eq!(top.len(), 1);
    assert_eq!(top[0].penalty, 9.0);
}

#[test]
fn test_best_repo_capacity_eviction() {
    let mut repo = BestRepo::new(2);

    for (i, penalty) in [(0usize, 10.0), (1, 8.0), (2, 12.0)].iter() {
        let mut layout = Layout::alphabetical();
        layout.swap(0, *i + 1); // Make different layouts
        insert(&mut repo, record(&layout, *penalty, *i as u64));
    }

    assert_eq!(repo.len(), 2); // Capacity is 2

    // Verify we kept the best two
    let top = repo.top();
    assert_eq!(top[0].penalty, 8.0);
    assert_eq!(top[1].penalty, 10.0);
    // Record with penalty 12.0 should have been evicted
}

#[test]
fn test_deduplication_by_canonical_key() {
    let mut repo = BestRepo::new(10);

    let layout = Layout::alphabetical();
    let mirrored = mirror_layout(&layout);

    let rec1 = record(&layout, 10.0, 1);
    let mut rec2 = record(&mirrored, 9.0, 2);
    rec2.worker_id = 1;
    rec2.iter = 200;
    assert_eq!(rec1.canonical, rec2.canonical);
    assert_eq!(rec2.layout, rec1.mirrored);

    insert(&mut repo, rec1);
    insert(&mut repo, rec2);

    // Should only have one record since they have the same canonical key
    assert_eq!(repo.len(), 1);
    assert_eq!(repo.top()[0].penalty, 9.0); // Better penalty wins
}

#[test]
fn repo_ties_break_by_canonical_key() {
    let mut repo: BestRepo<u32> = BestRepo::new(5);
    assert!(repo.is_empty());
    assert_eq!(repo.offer("bbb", 5, 1, true), None);
    assert_eq!(repo.offer("aaa", 5, 2, true), None);
    assert_eq!(repo.offer("ccc", 4, 3, true), None);
    let top: Vec<u32> = repo.top().into_iter().copied().collect();
    assert_eq!(top, vec![3, 2, 1]);
    // a record under a held key that does not improve is ignored
    assert_eq!(repo.offer("aaa", 1, 9, false), None);
    assert_eq!(repo.get("aaa"), Some(&2));
    // one that improves replaces it and moves up
    assert_eq!(repo.offer("aaa", 1, 9, true), None);
    let top: Vec<u32> = repo.top().into_iter().copied().collect();
    assert_eq!(top, vec![9, 3, 1]);
}

#[test]
fn repo_evicts_lowest_ranked() {
    let mut repo: BestRepo<u32> = BestRepo::new(2);
    assert_eq!(repo.offer("a", 10, 1, true), None);
    assert_eq!(repo.offer("b", 20, 2, true), None);
    assert_eq!(repo.offer("c", 15, 3, true), Some(2));
    assert_eq!(repo.offer("d", 30, 4, true), Some(4));
    assert_eq!(repo.len(), 2);
    let empty: BestRepo<u32> = BestRepo::new(0);
    assert_eq!(empty.top().len(), 0);
    let mut zero: BestRepo<u32> = BestRepo::new(0);
    assert_eq!(zero.offer("x", 1, 7, true), Some(7));
    assert_eq!(zero.len(), 0);
}

#[test]
fn fingerprint_is_hex_and_order_independent() {
    let a = CorpusStats::from_corpus("abcde xyzw");
    let b = CorpusStats::from_corpus("xyzw abcde");
    let fa = corpus_fingerprint(&a.quartads, &a.monograms, a.letters_len);
    let fb = corpus_fingerprint(&b.quartads, &b.monograms, b.letters_len);
    assert_eq!(fa.len(), 64);
    assert!(fa.chars().all(|c| c.is_ascii_hexdigit() && !c.is_ascii_uppercase()));
    assert_eq!(fa, fb);
    let c = CorpusStats::from_corpus("abcde xyzv");
    assert_ne!(fa, corpus_fingerprint(&c.quartads, &c.monograms, c.letters_len));
}

#[test]
fn fingerprint_of_known_bytes() {
    // no quartads: 26 zero counts then a zero total, 27 * 8 zero bytes
    let q = quartads(&normalize("ab"));
    let f = corpus_fingerprint(&q, &[0usize; 26], 0);
    let expected = blake3::hash(&[0u8; 27 * 8]).to_hex().to_string();
    assert_eq!(f, expected);
}

#[test]
fn clock_reads_after_the_epoch() {
    assert!(keygen::results::now_epoch() > 1_600_000_000);
}
