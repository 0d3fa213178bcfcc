use chokurei::document::{Document, Entry, SIMILARITY_SCALE};
use chokurei::registry::{find_candidate, Cluster, Registry, THRESHOLD};
use chokurei::tf::{count_words, produce_vector};
use chokurei::vector::{distance, Vector, UNIT_COSINE, WEIGHT_SCALE};
use chokurei::vocabulary::{stem_word, vectorize, vectorize_terms, Vocabulary};

const S: u32 = WEIGHT_SCALE as u32;

fn entry(source: &str, url: &str, published: i64) -> Entry {
    Entry {
        source: source.to_string(),
        url: url.to_string(),
        title: String::from("title"),
        author: None,
        content: String::new(),
        published,
    }
}

fn doc(source: &str, url: &str, published: i64, terms: Vec<(u32, u32)>) -> Document {
    Document { entry: entry(source, url, published), vector: Vector(terms) }
}

#[test]
fn it_calculates_distance() {
    fn test(a: Vec<(u32, u32)>, b: Vec<(u32, u32)>, result: u64) {
        let a = Vector(a);
        let b = Vector(b);

        assert_eq!(distance(&a, &b), result);
        assert_eq!(distance(&b, &a), result);
    }

    test(vec![(1, 2), (2, 3), (5, 3), (10, 1), (12, 2)], vec![(2, 1), (10, 2), (20, 5)], 5);

    test(vec![(2, 3), (20, 1)], vec![(2, 1), (10, 2), (20, 5)], 8);
}

#[test]
fn cosine_is_symmetric_on_disjoint_and_equal_vectors() {
    let a = Vector(vec![(1, 100), (3, 200)]);
    let b = Vector(vec![(2, 300), (4, 400)]);
    assert_eq!(distance(&a, &b), 0);
    assert_eq!(distance(&b, &a), 0);
    let unit = Vector(vec![(7, S)]);
    assert_eq!(distance(&unit, &unit), UNIT_COSINE);
}

#[test]
fn count_words_counts_each_index() {
    assert_eq!(count_words(&vec![5, 1, 5, 3, 1, 5]), vec![(1, 2), (3, 1), (5, 3)]);
    assert_eq!(count_words(&vec![]), vec![]);
}

#[test]
fn produce_vector_normalizes() {
    assert_eq!(produce_vector(&vec![(0, 2), (1, 1)]).0, vec![(0, 58617), (1, 29308)]);
    assert_eq!(produce_vector(&vec![(4, 3)]).0, vec![(4, S)]);
    assert_eq!(produce_vector(&vec![]).0, vec![]);
}

#[test]
fn vectorize_terms_of_repeated_index() {
    assert_eq!(vectorize_terms(&vec![9, 9, 9]).0, vec![(9, S)]);
}

#[test]
fn stem_word_stems() {
    assert_eq!(stem_word("cats".to_string()), "cat");
}

fn vocabulary() -> Vocabulary {
    Vocabulary {
        stop_words: vec!["the".to_string()],
        terms: vec![stem_word("cats".to_string()), stem_word("dogs".to_string())],
    }
}

#[test]
fn vectorize_filters_folds_and_counts() {
    let v = vocabulary();
    let vector = vectorize("Cats  dogs\tcats the The birds", &v).unwrap();
    assert_eq!(vector.0, vec![(0, 58617), (1, 29308)]);
    assert_eq!(v.term_indices("Cats dogs cats the"), vec![0, 1, 0]);
    assert!(!v.is_not_stopword(&"the".to_string()));
    assert!(v.is_not_stopword(&"cat".to_string()));
    assert_eq!(v.get_word_index(&"dog".to_string()), Some(1));
    assert_eq!(v.get_word_index(&"bird".to_string()), None);
}

#[test]
fn dictionary_index_is_the_last_position() {
    let v = Vocabulary {
        stop_words: vec![],
        terms: vec!["a".to_string(), "b".to_string(), "a".to_string()],
    };
    assert_eq!(v.get_word_index(&"a".to_string()), Some(2));
}

#[test]
fn from_entry_rejects_text_without_terms() {
    let v = vocabulary();
    let mut e = entry("feed", "http://x/1", 0);
    e.content = String::from("the birds sing");
    assert!(Document::from_entry(e, &v).is_none());
    let mut e = entry("feed", "http://x/2", 0);
    e.content = String::from("dogs");
    let d = Document::from_entry(e, &v).unwrap();
    assert_eq!(d.vector.0, vec![(1, S)]);
    assert_eq!(d.entry().url, "http://x/2");
}

#[test]
fn similarity_of_identical_documents_is_one() {
    let a = doc("s1", "u1", 0, vec![(1, S)]);
    let b = doc("s2", "u2", 0, vec![(1, S)]);
    assert_eq!(a.distance(&b), SIMILARITY_SCALE);
}

#[test]
fn similarity_of_disjoint_documents_is_one_half() {
    let a = doc("s1", "u1", 0, vec![(1, S)]);
    let b = doc("s2", "u2", 0, vec![(2, S)]);
    assert_eq!(a.distance(&b), SIMILARITY_SCALE / 2);
    assert_eq!(b.distance(&a), SIMILARITY_SCALE / 2);
}

#[test]
fn same_source_costs_three_tenths() {
    let a = doc("feed", "u1", 1000, vec![(1, 40000), (2, 51000)]);
    let b = doc("feed", "u2", 1000, vec![(1, S)]);
    let c = doc("other", "u3", 1000, vec![(1, 40000), (2, 51000)]);
    let same = a.distance(&b) as u128;
    let different = c.distance(&b) as u128;
    assert_eq!(same * 10, different * 7);
    assert!(same < different);
}

#[test]
fn time_penalty_ramps_and_caps() {
    let base = doc("s1", "u1", 0, vec![(1, S)]);
    let at = |t: i64| doc("s2", "u2", t, vec![(1, S)]);
    // Up to a delta of 2 (2880 s) nothing is taken.
    assert_eq!(base.distance(&at(2880)), SIMILARITY_SCALE);
    assert_eq!(base.distance(&at(-2880)), SIMILARITY_SCALE);
    // Half way up the ramp: delta 4.5 costs 0.25.
    assert_eq!(base.distance(&at(6480)), SIMILARITY_SCALE / 4 * 3);
    // From a delta of 7 on the cost stays 0.5.
    assert_eq!(base.distance(&at(10080)), SIMILARITY_SCALE / 2);
    assert_eq!(base.distance(&at(1_000_000)), SIMILARITY_SCALE / 2);
    let mut last = SIMILARITY_SCALE;
    for t in (0..12000).step_by(500) {
        let s = base.distance(&at(t));
        assert!(s <= last);
        last = s;
    }
}

#[test]
fn similarity_stays_in_range() {
    let a = doc("feed", "u1", 0, vec![(1, 30000), (4, 50000), (9, 20000)]);
    let b = doc("feed", "u2", 99999, vec![(4, 60000), (9, 25000)]);
    let s = a.distance(&b);
    assert!(s <= SIMILARITY_SCALE);
    assert_eq!(s, b.distance(&a));
}

#[test]
fn cluster_mean_and_flags() {
    let mut cluster = Cluster::new();
    let target = doc("s1", "t", 0, vec![(1, S)]);
    assert_eq!(cluster.distance_to_document(&target), 0);
    assert!(!cluster.add_document(doc("s2", "a", 0, vec![(1, S)])));
    assert!(!cluster.add_document(doc("s3", "b", 0, vec![(2, S)])));
    assert_eq!(cluster.distance_to_document(&target), SIMILARITY_SCALE / 4 * 3);
    assert!(cluster.mark_as_fake());
    assert!(!cluster.mark_as_fake());
    assert!(cluster.add_document(doc("s4", "c", 0, vec![(3, S)])));
    assert_eq!(cluster.documents.len(), 3);
}

#[test]
fn threshold_is_exclusive() {
    // Same feed, same time, same content: exactly 0.7.
    let mut registry = Registry::new();
    let a = doc("feed", "a", 0, vec![(1, S)]);
    let b = doc("feed", "b", 0, vec![(1, S)]);
    assert_eq!(a.distance(&b), THRESHOLD);
    assert_eq!(registry.add_document(a).cluster, 0);
    assert_eq!(find_candidate(&registry.clusters, &b), None);
    assert_eq!(registry.add_document(b).cluster, 1);
    assert_eq!(registry.len(), 2);
}

#[test]
fn best_cluster_wins_and_ties_go_to_the_lowest_index() {
    let mut registry = Registry::new();
    registry.add_document(doc("s1", "a", 0, vec![(1, S)]));
    registry.add_document(doc("s2", "b", 0, vec![(2, S)]));
    registry.add_document(doc("s3", "c", 0, vec![(1, 45875), (2, 46801)]));
    assert_eq!(registry.len(), 2);
    // Equally close to both clusters: the first one.
    let d = doc("s4", "d", 0, vec![(1, 46340), (2, 46340)]);
    let e = doc("s5", "e", 0, vec![(2, S)]);
    assert_eq!(find_candidate(&registry.clusters, &e), Some(1));
    let r = registry.add_document(d);
    assert!(r.cluster <= 1);
    assert!(!r.report);
}

fn sample() -> Vec<Document> {
    vec![
        doc("s1", "a", 0, vec![(1, S)]),
        doc("s2", "b", 0, vec![(2, S)]),
        doc("s3", "c", 0, vec![(1, 60000), (2, 26000)]),
        doc("s4", "d", 0, vec![(3, S)]),
        doc("s5", "e", 0, vec![(2, 62000), (3, 20000)]),
    ]
}

#[test]
fn assignment_is_deterministic() {
    let mut first = Registry::new();
    let mut second = Registry::new();
    let one: Vec<usize> = sample().into_iter().map(|d| first.add_document(d).cluster).collect();
    let two: Vec<usize> = sample().into_iter().map(|d| second.add_document(d).cluster).collect();
    assert_eq!(one, two);
    assert_eq!(first.len(), second.len());
    for k in 0..first.len() {
        let a: Vec<&str> = first.cluster(k).documents.iter().map(|d| d.entry.url.as_str()).collect();
        let b: Vec<&str> = second.cluster(k).documents.iter().map(|d| d.entry.url.as_str()).collect();
        assert_eq!(a, b);
    }
}

#[test]
fn mark_is_idempotent() {
    let mut registry = Registry::new();
    registry.add_document(doc("s1", "a", 0, vec![(1, S)]));
    registry.add_document(doc("s2", "b", 0, vec![(1, S)]));
    assert_eq!(registry.cluster_of(&"b".to_string()), Some(0));
    assert_eq!(registry.add_fake(&"a".to_string()), Some(0));
    assert_eq!(registry.add_fake(&"b".to_string()), None);
    assert_eq!(registry.add_fake(&"a".to_string()), None);
    assert_eq!(registry.add_fake(&"unknown".to_string()), None);
    assert!(registry.cluster(0).fake);
    // A later member of a fake cluster is reported on arrival.
    let r = registry.add_document(doc("s3", "c", 0, vec![(1, S)]));
    assert_eq!(r.cluster, 0);
    assert!(r.report);
}

#[test]
fn end_to_end_three_documents() {
    // A and B share their content; C is close to A in time but not to B.
    let a = doc("sa", "A", 5040, vec![(1, S)]);
    let b = doc("sb", "B", 0, vec![(1, S)]);
    let c = doc("sc", "C", 10080, vec![(1, 45481), (2, 47184)]);
    let ab = a.distance(&b);
    let ac = a.distance(&c);
    let bc = b.distance(&c);
    assert_eq!(ab * 100, SIMILARITY_SCALE * 85);
    assert!(ac > THRESHOLD && ac < SIMILARITY_SCALE / 100 * 73);
    assert!(bc < SIMILARITY_SCALE / 100 * 43);

    let mut registry = Registry::new();
    assert_eq!(registry.add_document(a).cluster, 0);
    assert_eq!(registry.add_document(b).cluster, 0);
    // C's mean over {A, B} is about 0.57: a new cluster.
    assert_eq!(registry.add_document(c).cluster, 1);

    assert_eq!(registry.add_fake(&"A".to_string()), Some(0));
    let reported: Vec<&str> =
        registry.cluster(0).documents.iter().map(|d| d.entry.url.as_str()).collect();
    assert_eq!(reported, ["A", "B"]);
    assert_eq!(registry.add_fake(&"B".to_string()), None);
    assert!(!registry.cluster(1).fake);
}
