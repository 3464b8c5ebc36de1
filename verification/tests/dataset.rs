use std::path::Path;

use poa_bench::dataset::{
    join_path, select_datasets, AlignSet, Dataset, DatasetConfig, GraphSet,
};
use poa_bench::text::in_order;

fn dataset(name: &str, graph: Option<&str>) -> Dataset {
    Dataset::new(
        name.to_string(),
        format!("/data/{}", name),
        DatasetConfig {
            is_sorted: None,
            graph_set: graph.map(|fname| GraphSet { fname: fname.to_string(), num_seqs: None }),
            align_set: AlignSet { fname: "align.fna.gz".to_string(), num_seqs: Some(4) },
        },
    )
}

fn names(datasets: &[Dataset]) -> Vec<String> {
    datasets.iter().map(|d| d.name().to_string()).collect()
}

#[test]
fn paths_are_joined_with_one_separator() {
    assert_eq!(join_path("output", "hla/a"), "output/hla/a");
    assert_eq!(join_path("output/", "hla/a"), "output/hla/a");
    assert_eq!(join_path("", "hla/a"), "hla/a");
    assert_eq!(join_path("output", ""), "output/");
    assert_eq!(join_path("/", "a"), "/a");
    assert_eq!(join_path("", ""), "");
}

#[test]
fn a_path_from_the_root_stands_for_itself() {
    assert_eq!(join_path("output", "/abs/file"), "/abs/file");
    assert_eq!(join_path("", "/"), "/");
}

#[test]
fn paths_are_joined_as_the_standard_library_joins_them() {
    for base in ["", "/", "a", "a/", "a/b", "/a/b/", "./x", "é/ü", "a//"] {
        for child in ["", "/", "c", "c/d", "/c", "../c", "ñ", "c/"] {
            let expected = Path::new(base).join(child);
            assert_eq!(Some(join_path(base, child).as_str()), expected.to_str(), "{base:?} {child:?}");
        }
    }
}

#[test]
fn files_of_a_data_set() {
    let set = dataset("hla/a", Some("graph.fna.gz"));
    assert_eq!(set.output_dir("output"), "output/hla/a");
    assert_eq!(set.output_dir("output/"), "output/hla/a");
    assert_eq!(set.poasta_msa_output("output"), "output/hla/a/full_msa.poasta");
    assert_eq!(set.graph_msa_fname("output"), "output/hla/a/graph.msa.fasta");
    assert_eq!(set.combined_sorted_fname("output"), "output/hla/a/all_seq.sorted.fna.gz");
    assert_eq!(set.graph_sequences_fname(), Some("/data/hla/a/graph.fna.gz".to_string()));
    assert_eq!(set.align_sequences_fname(), "/data/hla/a/align.fna.gz");
}

#[test]
fn a_data_set_without_graph_sequences_has_no_file_for_them() {
    let set = dataset("hla/b", None);
    assert_eq!(set.graph_sequences_fname(), None);
    assert_eq!(set.align_sequences_fname(), "/data/hla/b/align.fna.gz");
}

#[test]
fn file_names_from_the_root_are_kept() {
    let set = dataset("x", Some("/elsewhere/graph.fna.gz"));
    assert_eq!(set.graph_sequences_fname(), Some("/elsewhere/graph.fna.gz".to_string()));
}

#[test]
fn dictionary_order_of_names() {
    assert!(in_order("", ""));
    assert!(in_order("", "a"));
    assert!(!in_order("a", ""));
    assert!(in_order("a", "a"));
    assert!(in_order("a", "b"));
    assert!(!in_order("b", "a"));
    assert!(in_order("ab", "b"));
    assert!(in_order("a", "ab"));
    assert!(!in_order("ab", "a"));
    assert!(in_order("Z", "a"));
    assert!(in_order("a/b", "a0"));
    assert!(in_order("z", "é"));
    for (a, b) in [("hla/a", "hla/b"), ("x", "x1"), ("é", "z"), ("10", "9"), ("", "")] {
        assert_eq!(in_order(a, b), a <= b);
        assert_eq!(in_order(b, a), b <= a);
    }
}

#[test]
fn data_sets_are_sorted_by_name() {
    let found = vec![
        dataset("synthetic/n10", None),
        dataset("hla/drb1", None),
        dataset("hla/a", None),
        dataset("mhc", None),
    ];
    let selected = select_datasets(found, None);
    assert_eq!(names(&selected), vec!["hla/a", "hla/drb1", "mhc", "synthetic/n10"]);
}

#[test]
fn only_data_sets_with_the_prefix_are_taken() {
    let found = vec![
        dataset("synthetic/n10", None),
        dataset("hla/drb1", None),
        dataset("hla/a", None),
        dataset("hl", None),
    ];
    assert_eq!(names(&select_datasets(found.clone(), Some("hla/"))), vec!["hla/a", "hla/drb1"]);
    assert_eq!(names(&select_datasets(found.clone(), Some("zzz"))), Vec::<String>::new());
    assert_eq!(names(&select_datasets(found, Some(""))).len(), 4);
}

#[test]
fn data_sets_of_the_same_name_keep_their_order() {
    let found = vec![
        dataset("b", Some("first")),
        dataset("a", None),
        dataset("b", Some("second")),
        dataset("b", Some("third")),
    ];
    let selected = select_datasets(found, None);
    assert_eq!(names(&selected), vec!["a", "b", "b", "b"]);
    let graphs: Vec<_> = selected
        .iter()
        .map(|d| d.cfg().graph_set.as_ref().map(|g| g.fname.clone()))
        .collect();
    assert_eq!(
        graphs,
        vec![None, Some("first".to_string()), Some("second".to_string()), Some("third".to_string())]
    );
}

#[test]
fn nothing_found_nothing_selected() {
    assert!(select_datasets(Vec::new(), None).is_empty());
    assert!(select_datasets(Vec::new(), Some("x")).is_empty());
}
