use dupfind::hash::digest;
use dupfind::items::{duplicate_graph, originals, sample, windows, Group, Items};

/// Scans the given files, fills in what each candidate group asks for, and
/// returns each candidate group with its duplicate graph, by path.
fn run(files: &[(&str, Vec<u8>)]) -> Vec<(String, Vec<String>)> {
    let mut items = Items::new();
    for (path, content) in files {
        items.add(content.len() as u64, path.to_string());
    }
    let content_of = |p: &str| files.iter().find(|f| f.0 == p).unwrap().1.clone();
    let mut out = Vec::new();
    for mut group in items.candidates() {
        fill(&mut group, &content_of);
        let graph = duplicate_graph(group.items());
        for (o, copies) in graph {
            let paths = copies.iter().map(|c| group.items()[*c].path().clone()).collect();
            out.push((group.items()[o].path().clone(), paths));
        }
    }
    out
}

fn fill(group: &mut Group, content_of: &dyn Fn(&str) -> Vec<u8>) {
    for k in group.samples_needed() {
        let c = content_of(group.items()[k].path());
        group.set_sample(k, sample(&c));
    }
    for k in group.digests_needed() {
        let c = content_of(group.items()[k].path());
        group.set_digest(k, digest(&c));
    }
}

#[test]
fn sample_of_a_short_file_is_zero_filled() {
    let s = sample(b"abc");
    assert_eq!(s.len(), 15);
    assert_eq!(&s[..3], b"abc");
    assert!(s[3..].iter().all(|b| *b == 0));
    assert_eq!(sample(b""), [0u8; 15]);
}

#[test]
fn sample_takes_head_middle_and_tail() {
    let content: Vec<u8> = (0..100u8).collect();
    let s = sample(&content);
    // middle window starts at (100 - 5) / 2 = 47
    assert_eq!(s, [0, 1, 2, 3, 4, 47, 48, 49, 50, 51, 95, 96, 97, 98, 99]);
    let exact: Vec<u8> = (0..15u8).collect();
    assert_eq!(sample(&exact), [0, 1, 2, 3, 4, 5, 6, 7, 8, 9, 10, 11, 12, 13, 14]);
}

#[test]
fn windows_by_size() {
    assert_eq!(windows(14), None);
    assert_eq!(windows(15), Some([0, 5, 10]));
    assert_eq!(windows(100), Some([0, 47, 95]));
}

#[test]
fn items_group_by_size() {
    let mut items = Items::new();
    items.add(10, "/a".to_string());
    items.add(20, "/b".to_string());
    items.add(10, "/c".to_string());
    assert_eq!(items.len(), 2);
    let groups = items.candidates();
    assert_eq!(groups.len(), 1);
    assert_eq!(groups[0].size(), 10);
    assert_eq!(groups[0].len(), 2);
    assert_eq!(groups[0].items()[0].path(), "/a");
    assert_eq!(groups[0].items()[1].path(), "/c");
}

#[test]
fn group_of_one_reads_nothing() {
    let mut items = Items::new();
    items.add(7, "/only".to_string());
    assert!(items.candidates().is_empty());
}

#[test]
fn samples_then_digests_only_where_samples_match() {
    let mut items = Items::new();
    let a = vec![1u8; 40];
    let b = vec![1u8; 40];
    let mut c = vec![1u8; 40];
    c[0] = 9;
    items.add(40, "/a".to_string());
    items.add(40, "/b".to_string());
    items.add(40, "/c".to_string());
    let mut group = items.candidates().pop().unwrap();
    assert_eq!(group.samples_needed(), vec![0, 1, 2]);
    assert!(group.digests_needed().is_empty());
    group.set_sample(0, sample(&a));
    group.set_sample(1, sample(&b));
    group.set_sample(2, sample(&c));
    assert!(group.samples_needed().is_empty());
    assert_eq!(group.digests_needed(), vec![0, 1]);
    group.set_digest(0, digest(&a));
    group.set_digest(1, digest(&b));
    assert!(group.digests_needed().is_empty());
    assert_eq!(originals(group.items()), vec![None, Some(0), None]);
}

#[test]
fn stored_sample_is_kept() {
    let mut items = Items::new();
    items.add(20, "/a".to_string());
    items.add(20, "/b".to_string());
    let mut group = items.candidates().pop().unwrap();
    group.set_sample(0, [1; 15]);
    group.set_sample(0, [2; 15]);
    assert_eq!(group.items()[0].bytes(), Some([1; 15]));
    assert_eq!(group.items()[0].hash(), None);
}

#[test]
fn equal_samples_different_content_are_not_duplicates() {
    let a = vec![0u8; 100];
    let mut b = vec![0u8; 100];
    b[20] = 1; // outside the three windows
    assert_eq!(sample(&a), sample(&b));
    assert!(run(&[("/a", a), ("/b", b)]).is_empty());
}

#[test]
fn identical_files_have_one_original() {
    let content = b"the very same content in every file".to_vec();
    let files = [
        ("/1", content.clone()),
        ("/2", content.clone()),
        ("/3", content.clone()),
        ("/4", content.clone()),
    ];
    let graph = run(&files);
    assert_eq!(
        graph,
        vec![("/1".to_string(), vec!["/2".to_string(), "/3".to_string(), "/4".to_string()])]
    );
}

#[test]
fn two_equal_one_different() {
    let a = b"0123456789abcdefghij".to_vec();
    let b = a.clone();
    let mut c = a.clone();
    c[19] = b'J';
    let graph = run(&[("/A", a), ("/B", b), ("/C", c)]);
    assert_eq!(graph, vec![("/A".to_string(), vec!["/B".to_string()])]);
}

#[test]
fn same_path_twice_is_not_a_duplicate() {
    let a = b"some content of a file".to_vec();
    let graph = run(&[("/x", a.clone()), ("/x", a.clone()), ("/y", a)]);
    assert_eq!(graph, vec![("/x".to_string(), vec!["/y".to_string()])]);
}

#[test]
fn empty_files_are_duplicates() {
    let graph = run(&[("/e1", vec![]), ("/e2", vec![])]);
    assert_eq!(graph, vec![("/e1".to_string(), vec!["/e2".to_string()])]);
}

#[test]
fn separate_originals_in_one_group() {
    let x = vec![1u8; 30];
    let y = vec![2u8; 30];
    let graph = run(&[("/x1", x.clone()), ("/y1", y.clone()), ("/x2", x), ("/y2", y)]);
    assert_eq!(
        graph,
        vec![
            ("/x1".to_string(), vec!["/x2".to_string()]),
            ("/y1".to_string(), vec!["/y2".to_string()]),
        ]
    );
}

#[test]
fn repeated_copy_path_is_listed_once() {
    let a = b"content scanned through two roots".to_vec();
    let graph = run(&[("/x", a.clone()), ("/y", a.clone()), ("/y", a)]);
    assert_eq!(graph, vec![("/x".to_string(), vec!["/y".to_string()])]);
}

#[test]
fn repeated_paths_in_originals() {
    let a = b"content scanned through two roots".to_vec();
    let mut items = Items::new();
    for p in ["/x", "/y", "/x", "/y"] {
        items.add(a.len() as u64, p.to_string());
    }
    let mut group = items.candidates().pop().unwrap();
    fill(&mut group, &|_p: &str| a.clone());
    assert_eq!(originals(group.items()), vec![None, Some(0), None, None]);
}
