use cielo::pipeline::ct_invalidation::{diff, normalized, CtDepSnapshot, CtInvalidationReason};
use cielo::pipeline::tables::{CtCacheKey, CtFileDep};

fn snapshot(deps: &[(&str, &str)]) -> CtDepSnapshot {
    CtDepSnapshot {
        cache_key: CtCacheKey::default(),
        file_deps: deps
            .iter()
            .map(|(path, hash)| CtFileDep {
                path: path.to_string(),
                content_hash: hash.to_string(),
            })
            .collect(),
    }
}

fn told(a: &CtDepSnapshot, b: &CtDepSnapshot) -> Vec<String> {
    diff(a, b).iter().map(|reason| reason.describe()).collect()
}

#[test]
fn the_same_snapshot_gives_no_reason() {
    let a = snapshot(&[("x", "1"), ("y", "2")]);
    assert!(diff(&a, &a.clone()).is_empty());
    assert!(diff(&a, &snapshot(&[("y", "2"), ("x", "1")])).is_empty());
}

#[test]
fn every_part_of_the_key_gives_its_reason() {
    let a = snapshot(&[]);
    let mut b = snapshot(&[]);
    b.cache_key = CtCacheKey {
        target_word_size_bits: 32,
        target_endianness: "big".to_owned(),
        target_pointer_alignment: 4,
        evaluator_policy: "other".to_owned(),
        compiler_version: "2".to_owned(),
    };
    assert_eq!(
        told(&a, &b),
        vec![
            "target word size changed: 64 -> 32",
            "target endianness changed: little -> big",
            "target pointer alignment changed: 8 -> 4",
            "ct evaluator policy changed: v1-int-wrap-litnorm -> other",
            "compiler version changed: 0.1.0 -> 2",
        ]
    );
}

#[test]
fn files_that_changed_or_went_come_before_those_that_came() {
    let a = snapshot(&[("z", "1"), ("m", "1"), ("same", "1")]);
    let b = snapshot(&[("same", "1"), ("z", "2"), ("b", "5"), ("a", "4")]);
    assert_eq!(
        told(&a, &b),
        vec![
            "dependency removed: m (1)",
            "dependency changed: z (1 -> 2)",
            "dependency added: a (4)",
            "dependency added: b (5)",
        ]
    );
    assert!(matches!(
        &diff(&a, &b)[1],
        CtInvalidationReason::FileChanged { path, before_hash, after_hash }
            if path == "z" && before_hash == "1" && after_hash == "2"
    ));
}

#[test]
fn of_two_files_with_one_path_the_last_counts() {
    let a = snapshot(&[("p", "1"), ("p", "2")]);
    assert!(diff(&a, &snapshot(&[("p", "2")])).is_empty());
    assert_eq!(told(&a, &snapshot(&[("p", "1")])), vec!["dependency changed: p (2 -> 1)"]);
}

#[test]
fn a_snapshot_is_kept_with_its_files_in_order() {
    let kept = normalized(&snapshot(&[("b", "1"), ("a", "2"), ("a", "1")]));
    let pairs: Vec<(&str, &str)> = kept
        .file_deps
        .iter()
        .map(|dep| (dep.path.as_str(), dep.content_hash.as_str()))
        .collect();
    assert_eq!(pairs, vec![("a", "1"), ("a", "2"), ("b", "1")]);
}
