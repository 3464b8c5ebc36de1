//! Data sets as the orchestrator sees them: a name, the directory the data
//! set lies in, and the configuration that says which sequence files belong
//! to it. File names are put together here; no file is touched.
use vstd::prelude::*;
use crate::text::{
    in_order, is_prefix, lemma_text_le_total, lemma_text_le_transitive, push_text, starts_with,
    text_le, to_chars,
};

verus! {

/// The path of `child` seen from `base`, as paths are joined on Unix: a
/// `child` that begins at the root stands for itself; otherwise it follows
/// `base`, with a separator between the two unless `base` is empty or
/// already ends in one.
pub open spec fn joined(base: Seq<char>, child: Seq<char>) -> Seq<char> {
    if child.len() > 0 && child[0] == '/' {
        child
    } else if base.len() == 0 || base.last() == '/' {
        base + child
    } else {
        base + seq!['/'] + child
    }
}

/// Joins two paths.
pub fn join_path(base: &str, child: &str) -> (path: String)
    ensures
        path@ == joined(base@, child@),
{
    let first = to_chars(child);
    let mut path = String::new();
    if first.len() > 0 && first[0] == '/' {
        push_text(&mut path, child);
        assert(Seq::<char>::empty() + child@ == child@);
        return path;
    }
    let stem = to_chars(base);
    push_text(&mut path, base);
    assert(Seq::<char>::empty() + base@ == base@);
    if stem.len() > 0 && stem[stem.len() - 1] != '/' {
        path.push('/');
        assert(base@.push('/') == base@ + seq!['/']);
    }
    push_text(&mut path, child);
    path
}

/// The sequences from which the graph of a data set is built.
#[derive(Debug, Clone, PartialEq, Eq)]
pub struct GraphSet {
    /// File name, seen from the data set's directory.
    pub fname: String,
    pub num_seqs: Option<usize>,
}

/// The sequences that are aligned to the graph.
#[derive(Debug, Clone, PartialEq, Eq)]
pub struct AlignSet {
    /// File name, seen from the data set's directory.
    pub fname: String,
    pub num_seqs: Option<usize>,
}

/// The configuration of one data set.
#[derive(Debug, Clone, PartialEq, Eq)]
pub struct DatasetConfig {
    /// Whether the sequences are already in the order in which they are to be aligned.
    pub is_sorted: Option<bool>,
    pub graph_set: Option<GraphSet>,
    pub align_set: AlignSet,
}

/// A data set: its name, which is its path below the data directory, the
/// directory it lies in, and its configuration.
#[derive(Debug, Clone, PartialEq, Eq)]
pub struct Dataset {
    name: String,
    dir: String,
    cfg: DatasetConfig,
}

/// A data set as mathematical values.
pub struct DatasetView {
    pub name: Seq<char>,
    /// The directory the data set lies in.
    pub dir: Seq<char>,
    pub is_sorted: Option<bool>,
    /// File name of the graph sequences, if the data set has any.
    pub graph_file: Option<Seq<char>>,
    /// File name of the sequences to align.
    pub align_file: Seq<char>,
}

impl View for Dataset {
    type V = DatasetView;

    closed spec fn view(&self) -> DatasetView {
        DatasetView {
            name: self.name@,
            dir: self.dir@,
            is_sorted: self.cfg.is_sorted,
            graph_file: match self.cfg.graph_set {
                Some(set) => Some(set.fname@),
                None => None,
            },
            align_file: self.cfg.align_set.fname@,
        }
    }
}

/// The views of a sequence of data sets.
pub open spec fn dataset_views(datasets: Seq<Dataset>) -> Seq<DatasetView> {
    Seq::new(datasets.len(), |i: int| datasets[i]@)
}

impl DatasetView {
    /// The directory of the data set's results below `base`.
    pub open spec fn output_dir(self, base: Seq<char>) -> Seq<char> {
        joined(base, self.name)
    }

    /// The file for the graph that POASTA builds of the whole set.
    pub open spec fn poasta_msa_output(self, base: Seq<char>) -> Seq<char> {
        joined(self.output_dir(base), "full_msa.poasta"@)
    }

    /// The file of the alignment from which graphs are loaded.
    pub open spec fn graph_msa_fname(self, base: Seq<char>) -> Seq<char> {
        joined(self.output_dir(base), "graph.msa.fasta"@)
    }

    /// The file of all sequences, combined and sorted.
    pub open spec fn combined_sorted_fname(self, base: Seq<char>) -> Seq<char> {
        joined(self.output_dir(base), "all_seq.sorted.fna.gz"@)
    }

    /// The file of the sequences for the graph, if the data set has any.
    pub open spec fn graph_sequences_fname(self) -> Option<Seq<char>> {
        match self.graph_file {
            Some(fname) => Some(joined(self.dir, fname)),
            None => None,
        }
    }

    /// The file of the sequences to align.
    pub open spec fn align_sequences_fname(self) -> Seq<char> {
        joined(self.dir, self.align_file)
    }
}

/// The text of a file name that may be absent.
pub open spec fn maybe_text(path: Option<String>) -> Option<Seq<char>> {
    match path {
        Some(p) => Some(p@),
        None => None,
    }
}

impl Dataset {
    pub fn new(name: String, dir: String, cfg: DatasetConfig) -> (dataset: Dataset)
        ensures
            dataset@.name == name@,
            dataset@.dir == dir@,
            dataset@.is_sorted == cfg.is_sorted,
            dataset@.align_file == cfg.align_set.fname@,
            dataset@.graph_file == match cfg.graph_set {
                Some(set) => Some(set.fname@),
                None => None,
            },
            *dataset.cfg() == cfg,
    {
        Dataset { name, dir, cfg }
    }

    pub closed spec fn spec_cfg(&self) -> &DatasetConfig {
        &self.cfg
    }

    pub fn name(&self) -> (name: &str)
        ensures
            name@ == self@.name,
    {
        self.name.as_str()
    }

    /// The directory the data set lies in.
    pub fn dir(&self) -> (dir: &str)
        ensures
            dir@ == self@.dir,
    {
        self.dir.as_str()
    }

    #[verifier::when_used_as_spec(spec_cfg)]
    pub fn cfg(&self) -> (cfg: &DatasetConfig)
        ensures
            cfg == self.spec_cfg(),
            self@.is_sorted == cfg.is_sorted,
            self@.graph_file is Some == cfg.graph_set is Some,
            cfg.graph_set matches Some(set) ==> self@.graph_file == Some(set.fname@),
            self@.align_file == cfg.align_set.fname@,
    {
        &self.cfg
    }

    /// Whether the data set comes with sequences for a graph.
    pub fn has_graph_set(&self) -> (yes: bool)
        ensures
            yes == self@.graph_file is Some,
    {
        self.cfg.graph_set.is_some()
    }

    pub fn output_dir(&self, base_output_path: &str) -> (path: String)
        ensures
            path@ == self@.output_dir(base_output_path@),
    {
        join_path(base_output_path, self.name.as_str())
    }

    pub fn poasta_msa_output(&self, base_dir: &str) -> (path: String)
        ensures
            path@ == self@.poasta_msa_output(base_dir@),
    {
        let dir = self.output_dir(base_dir);
        join_path(dir.as_str(), "full_msa.poasta")
    }

    pub fn graph_msa_fname(&self, base_dir: &str) -> (path: String)
        ensures
            path@ == self@.graph_msa_fname(base_dir@),
    {
        let dir = self.output_dir(base_dir);
        join_path(dir.as_str(), "graph.msa.fasta")
    }

    pub fn combined_sorted_fname(&self, base_dir: &str) -> (path: String)
        ensures
            path@ == self@.combined_sorted_fname(base_dir@),
    {
        let dir = self.output_dir(base_dir);
        join_path(dir.as_str(), "all_seq.sorted.fna.gz")
    }

    pub fn graph_sequences_fname(&self) -> (path: Option<String>)
        ensures
            maybe_text(path) == self@.graph_sequences_fname(),
    {
        match &self.cfg.graph_set {
            Some(set) => Some(join_path(self.dir.as_str(), set.fname.as_str())),
            None => None,
        }
    }

    pub fn align_sequences_fname(&self) -> (path: String)
        ensures
            path@ == self@.align_sequences_fname(),
    {
        join_path(self.dir.as_str(), self.cfg.align_set.fname.as_str())
    }
}

/// Whether a data set is taken into a run: every one where no prefix is
/// asked for, else those whose name begins with the prefix.
pub open spec fn wanted(dataset: DatasetView, prefix: Option<Seq<char>>) -> bool {
    match prefix {
        Some(p) => is_prefix(p, dataset.name),
        None => true,
    }
}

/// The data sets of `found` that are taken into a run, in the order in
/// which they were found.
pub open spec fn wanted_of(found: Seq<DatasetView>, prefix: Option<Seq<char>>) -> Seq<DatasetView>
    decreases found.len(),
{
    if found.len() == 0 {
        Seq::empty()
    } else if wanted(found[0], prefix) {
        seq![found[0]] + wanted_of(found.drop_first(), prefix)
    } else {
        wanted_of(found.drop_first(), prefix)
    }
}

/// The place in a list sorted by name at which a data set of this name
/// goes: before the first one, from `from` on, whose name does not stand
/// before it.
pub open spec fn place(sorted: Seq<DatasetView>, name: Seq<char>, from: int) -> int
    decreases sorted.len() - from,
{
    if from >= sorted.len() {
        sorted.len() as int
    } else if text_le(name, sorted[from].name) {
        from
    } else {
        place(sorted, name, from + 1)
    }
}

/// The data sets of a run: those of `found` that are wanted, sorted by
/// name; data sets of the same name stay in the order in which they were
/// found.
pub open spec fn selected(found: Seq<DatasetView>, prefix: Option<Seq<char>>) -> Seq<DatasetView>
    decreases found.len(),
{
    if found.len() == 0 {
        Seq::empty()
    } else {
        let rest = selected(found.drop_first(), prefix);
        if wanted(found[0], prefix) {
            rest.insert(place(rest, found[0].name, 0), found[0])
        } else {
            rest
        }
    }
}

/// Each data set stands before all that follow it, by name.
pub open spec fn sorted_by_name(datasets: Seq<DatasetView>) -> bool {
    forall|i: int, j: int|
        0 <= i <= j < datasets.len() ==> text_le(
            (#[trigger] datasets[i]).name,
            (#[trigger] datasets[j]).name,
        )
}

/// Where `place` puts a name: every data set before that place has a name
/// that stands strictly before it, and the one at that place does not.
pub proof fn lemma_place(sorted: Seq<DatasetView>, name: Seq<char>, from: int)
    requires
        0 <= from <= sorted.len(),
    ensures
        from <= place(sorted, name, from) <= sorted.len(),
        forall|i: int|
            from <= i < place(sorted, name, from) ==> !text_le(name, (#[trigger] sorted[i]).name),
        place(sorted, name, from) < sorted.len() ==> text_le(
            name,
            sorted[place(sorted, name, from)].name,
        ),
    decreases sorted.len() - from,
{
    if from < sorted.len() && !text_le(name, sorted[from].name) {
        lemma_place(sorted, name, from + 1);
    }
}

/// The data sets of a run are sorted by name, each of them is wanted, and
/// they are the wanted ones of those found, each as often as it was found.
pub proof fn law_selected_is_sorted(found: Seq<DatasetView>, prefix: Option<Seq<char>>)
    ensures
        sorted_by_name(selected(found, prefix)),
        forall|i: int|
            0 <= i < selected(found, prefix).len() ==> wanted(
                #[trigger] selected(found, prefix)[i],
                prefix,
            ),
        selected(found, prefix).to_multiset() == wanted_of(found, prefix).to_multiset(),
    decreases found.len(),
{
    broadcast use vstd::seq_lib::group_to_multiset_ensures;

    if found.len() > 0 {
        let rest = selected(found.drop_first(), prefix);
        law_selected_is_sorted(found.drop_first(), prefix);
        if wanted(found[0], prefix) {
            let first = found[0];
            let at = place(rest, first.name, 0);
            lemma_place(rest, first.name, 0);
            let all = rest.insert(at, first);
            assert forall|i: int, j: int| 0 <= i <= j < all.len() implies text_le(
                (#[trigger] all[i]).name,
                (#[trigger] all[j]).name,
            ) by {
                if i == j {
                    lemma_text_le_total(all[i].name, all[i].name);
                } else if j < at {
                    assert(all[i] == rest[i] && all[j] == rest[j]);
                } else if j == at {
                    assert(all[i] == rest[i]);
                    lemma_text_le_total(first.name, rest[i].name);
                } else if i < at {
                    assert(all[i] == rest[i] && all[j] == rest[j - 1]);
                } else if i == at {
                    assert(all[j] == rest[j - 1]);
                    lemma_text_le_transitive(first.name, rest[at].name, rest[j - 1].name);
                } else {
                    assert(all[i] == rest[i - 1] && all[j] == rest[j - 1]);
                }
            }
            assert forall|i: int| 0 <= i < all.len() implies wanted(#[trigger] all[i], prefix) by {
                if i < at {
                    assert(all[i] == rest[i]);
                } else if i > at {
                    assert(all[i] == rest[i - 1]);
                }
            }
            let others = wanted_of(found.drop_first(), prefix);
            assert(all.to_multiset() == rest.to_multiset().insert(first));
            assert((seq![first] + others).to_multiset() == others.to_multiset().insert(first)) by {
                assert(seq![first] + others == others.insert(0, first));
            }
        }
    }
}

/// Of the data sets found, takes those that are wanted and sorts them by
/// name: the data sets of a run, in the order in which the job list goes
/// through them.
pub fn select_datasets(found: Vec<Dataset>, include_prefix: Option<&str>) -> (datasets: Vec<Dataset>)
    ensures
        dataset_views(datasets@) == selected(
            dataset_views(found@),
            match include_prefix {
                Some(p) => Some(p@),
                None => None,
            },
        ),
{
    let ghost all = dataset_views(found@);
    let ghost prefix: Option<Seq<char>> = match include_prefix {
        Some(p) => Some(p@),
        None => None,
    };
    let mut rest = found;
    let mut datasets: Vec<Dataset> = Vec::new();
    assert(all.subrange(all.len() as int, all.len() as int) == Seq::<DatasetView>::empty());
    loop
        invariant
            all == dataset_views(found@),
            rest.len() <= all.len(),
            dataset_views(rest@) == all.subrange(0, rest.len() as int),
            dataset_views(datasets@) == selected(
                all.subrange(rest.len() as int, all.len() as int),
                prefix,
            ),
            prefix == match include_prefix {
                Some(p) => Some(p@),
                None => None,
            },
        decreases rest.len(),
    {
        let ghost before = dataset_views(rest@);
        let ghost sorted = dataset_views(datasets@);
        let ghost k = rest.len() as int;
        let dataset = match rest.pop() {
            Some(dataset) => dataset,
            None => {
                assert(all.subrange(0, all.len() as int) == all);
                return datasets;
            },
        };
        proof {
            assert(dataset@ == before[k - 1]);
            assert(dataset_views(rest@) =~= all.subrange(0, k - 1));
            let tail = all.subrange(k - 1, all.len() as int);
            assert(tail[0] == dataset@);
            assert(tail.drop_first() == all.subrange(k, all.len() as int));
        }
        let keep = match include_prefix {
            Some(p) => starts_with(dataset.name(), p),
            None => true,
        };
        if keep {
            let mut at: usize = 0;
            while at < datasets.len() && !in_order(dataset.name(), datasets[at].name())
                invariant
                    at <= datasets.len(),
                    sorted == dataset_views(datasets@),
                    place(sorted, dataset@.name, 0) == place(sorted, dataset@.name, at as int),
                decreases datasets.len() - at,
            {
                at += 1;
            }
            let ghost view = dataset@;
            datasets.insert(at, dataset);
            assert(dataset_views(datasets@) =~= sorted.insert(at as int, view));
        }
    }
}

} // verus!
