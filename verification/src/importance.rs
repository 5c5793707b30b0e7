//! Parameter importance: the datasets that the variance decomposition is
//! fitted on, the parameter subsets that it scores, and the ranking of
//! the scores.

use vstd::prelude::*;
use crate::keys::{build_id_mapping, key_mapping, resolve_spec, KeyError, KeyMap, Outcome};
use crate::record::{EvalState, ParamDef, ParamValue, Record, Scale, StudyRecord};
use crate::subsets::{enumerate_subsets, index_lists, subset_count, subsets_up_to};
use crate::utils::MeanAndStddev;

verus! {

/// The importance of a subset of parameters, named in the order of the
/// study's parameters.
#[derive(Debug)]
pub struct Importance {
    pub params: Vec<String>,
    pub importance: MeanAndStddev<i64>,
}

/// What an `Importance` holds.
pub struct ImportanceView {
    pub params: Seq<Seq<char>>,
    pub mean: i64,
    pub stddev: i64,
}

impl View for Importance {
    type V = ImportanceView;

    open spec fn view(&self) -> ImportanceView {
        ImportanceView {
            params: self.params@.map_values(|s: String| s@),
            mean: self.importance.mean,
            stddev: self.importance.stddev,
        }
    }
}

/// What a list of entries holds.
pub open spec fn importance_views(s: Seq<Importance>) -> Seq<ImportanceView> {
    s.map_values(|e: Importance| e@)
}

/// The entries of `s` whose mean is `m`, in their order in `s`.
pub open spec fn with_mean(s: Seq<ImportanceView>, m: i64) -> Seq<ImportanceView> {
    s.filter(|e: ImportanceView| e.mean == m)
}

/// No entry has a greater mean than one before it.
pub open spec fn is_descending(s: Seq<ImportanceView>) -> bool {
    forall|i: int, j: int|
        0 <= i <= j < s.len() ==> (#[trigger] s[i]).mean >= (#[trigger] s[j]).mean
}

/// `ranked` holds the entries of `given` by mean, greatest first, and
/// entries of one mean in the order in which `given` has them.
pub open spec fn is_ranking_of(ranked: Seq<ImportanceView>, given: Seq<ImportanceView>) -> bool {
    &&& is_descending(ranked)
    &&& ranked.len() == given.len()
    &&& forall|m: i64| #[trigger] with_mean(ranked, m) == with_mean(given, m)
}

/// Filtering a sequence of which no element passes leaves nothing.
pub proof fn lemma_filter_none<A>(s: Seq<A>, pred: spec_fn(A) -> bool)
    requires
        forall|i: int| 0 <= i < s.len() ==> !pred(#[trigger] s[i]),
    ensures
        s.filter(pred) == Seq::<A>::empty(),
    decreases s.len(),
{
    reveal(Seq::filter);
    if s.len() > 0 {
        assert forall|i: int| 0 <= i < s.drop_last().len() implies !pred(
            #[trigger] s.drop_last()[i],
        ) by {
            assert(s.drop_last()[i] == s[i]);
        }
        lemma_filter_none(s.drop_last(), pred);
    }
}

/// Filtering a sequence of one element keeps it or not.
pub proof fn lemma_filter_one<A>(x: A, pred: spec_fn(A) -> bool)
    ensures
        seq![x].filter(pred) == if pred(x) {
            seq![x]
        } else {
            Seq::<A>::empty()
        },
{
    reveal_with_fuel(Seq::filter, 2);
    assert(seq![x].drop_last() =~= Seq::<A>::empty());
    assert(Seq::<A>::empty().filter(pred) =~= Seq::<A>::empty());
    assert(seq![x].filter(pred) =~= if pred(x) {
        seq![x]
    } else {
        Seq::<A>::empty()
    });
}

/// Putting `x` into a ranking, behind every entry with a mean at least
/// as great as its own, gives the ranking of the entries with `x` in
/// front.
pub proof fn lemma_rank_insert(
    ranked: Seq<ImportanceView>,
    rest: Seq<ImportanceView>,
    x: ImportanceView,
    p: int,
)
    requires
        is_ranking_of(ranked, rest),
        0 <= p <= ranked.len(),
        forall|i: int| 0 <= i < p ==> (#[trigger] ranked[i]).mean > x.mean,
        forall|i: int| p <= i < ranked.len() ==> (#[trigger] ranked[i]).mean <= x.mean,
    ensures
        is_ranking_of(ranked.insert(p, x), seq![x] + rest),
{
    let out = ranked.insert(p, x);
    let head = ranked.subrange(0, p);
    let tail = ranked.subrange(p, ranked.len() as int);
    assert(out =~= head + seq![x] + tail);
    assert(ranked =~= head + tail);
    assert forall|i: int, j: int| 0 <= i <= j < out.len() implies (#[trigger] out[i]).mean >= (
    #[trigger] out[j]).mean by {
        let a = if i < p { i } else { i - 1 };
        let b = if j < p { j } else { j - 1 };
        if i != p {
            assert(out[i] == ranked[a]);
        }
        if j != p {
            assert(out[j] == ranked[b]);
        }
    }
    assert forall|m: i64| #[trigger] with_mean(out, m) == with_mean(seq![x] + rest, m) by {
        let pred = |e: ImportanceView| e.mean == m;
        Seq::filter_distributes_over_add(head + seq![x], tail, pred);
        Seq::filter_distributes_over_add(head, seq![x], pred);
        Seq::filter_distributes_over_add(head, tail, pred);
        Seq::filter_distributes_over_add(seq![x], rest, pred);
        lemma_filter_one(x, pred);
        assert(with_mean(ranked, m) == with_mean(rest, m));
        if m == x.mean {
            assert forall|i: int| 0 <= i < head.len() implies !pred(#[trigger] head[i]) by {
                assert(head[i] == ranked[i]);
            }
            lemma_filter_none(head, pred);
            assert(head.filter(pred) + seq![x] + tail.filter(pred) =~= seq![x] + (head.filter(pred)
                + tail.filter(pred)));
        } else {
            assert(head.filter(pred) + Seq::<ImportanceView>::empty() + tail.filter(pred)
                =~= head.filter(pred) + tail.filter(pred));
            assert(Seq::<ImportanceView>::empty() + rest.filter(pred) =~= rest.filter(pred));
        }
    }
}

/// Ranks the entries by mean, greatest first. Entries of one mean keep
/// the order in which they were given.
pub fn rank(entries: Vec<Importance>) -> (ranked: Vec<Importance>)
    ensures
        is_ranking_of(importance_views(ranked@), importance_views(entries@)),
{
    let ghost given = importance_views(entries@);
    let mut entries = entries;
    let mut ranked: Vec<Importance> = Vec::new();
    proof {
        let none = given.subrange(given.len() as int, given.len() as int);
        assert(none =~= Seq::<ImportanceView>::empty());
        assert(importance_views(ranked@) =~= none);
    }
    while entries.len() > 0
        invariant
            entries@.len() <= given.len(),
            importance_views(entries@) == given.subrange(0, entries@.len() as int),
            is_ranking_of(
                importance_views(ranked@),
                given.subrange(entries@.len() as int, given.len() as int),
            ),
        decreases entries@.len(),
    {
        let ghost n = entries@.len() as int;
        let ghost left = importance_views(entries@);
        let ghost done = importance_views(ranked@);
        let x = entries.pop().unwrap();
        assert(x@ == left[n - 1]);
        let mut p: usize = 0;
        while p < ranked.len() && ranked[p].importance.mean > x.importance.mean
            invariant
                p <= ranked@.len(),
                done == importance_views(ranked@),
                forall|i: int| 0 <= i < p ==> (#[trigger] done[i]).mean > x@.mean,
            decreases ranked@.len() - p,
        {
            p = p + 1;
        }
        proof {
            assert forall|i: int| p <= i < done.len() implies (#[trigger] done[i]).mean
                <= x@.mean by {
                assert(done[p as int].mean >= done[i].mean);
            }
            lemma_rank_insert(done, given.subrange(n, given.len() as int), x@, p as int);
            assert(seq![x@] + given.subrange(n, given.len() as int) =~= given.subrange(
                n - 1,
                given.len() as int,
            ));
            assert(importance_views(entries@) =~= given.subrange(0, n - 1));
        }
        ranked.insert(p, x);
        assert(importance_views(ranked@) =~= done.insert(p as int, x@));
    }
    assert(given.subrange(0, given.len() as int) =~= given);
    ranked
}

/// Which objective is explained, how large the scored subsets get,
/// whether parameters on a logarithmic scale are explained by their
/// logarithm, and the key script that names a study's group.
#[derive(Debug)]
pub struct ImportanceOpt {
    pub objective_value_index: usize,
    /// The size of the largest subsets to score; at least 1 for any to
    /// be scored.
    pub max_dimension: usize,
    pub convert_log_param: bool,
    pub key_script: Option<String>,
}

/// The dataset of one group of studies: one column per parameter and
/// the column of the objective, a row per complete trial.
#[derive(Debug)]
pub struct Study {
    pub key: String,
    pub param_defs: Vec<ParamDef>,
    pub params: Vec<Vec<i64>>,
    pub values: Vec<i64>,
}

/// Why no importances were computed.
#[derive(Debug)]
pub enum ImportanceError {
    /// The studies have no keys.
    Key(KeyError),
    /// The trial at this position belongs to a study that no earlier
    /// record defines.
    UnknownStudy { record: usize },
    /// The trial at this position has no objective at the chosen index.
    ObjectiveIndexOutOfRange { record: usize },
}

/// What a dataset holds.
pub struct DatasetView {
    pub key: Seq<char>,
    pub param_names: Seq<Seq<char>>,
    pub scales: Seq<Scale>,
    pub params: Seq<Seq<i64>>,
    pub values: Seq<i64>,
}

impl View for Study {
    type V = DatasetView;

    open spec fn view(&self) -> DatasetView {
        DatasetView {
            key: self.key@,
            param_names: self.param_defs@.map_values(|d: ParamDef| d.name@),
            scales: self.param_defs@.map_values(|d: ParamDef| d.scale),
            params: self.params@.map_values(|c: Vec<i64>| c@),
            values: self.values@,
        }
    }
}

/// What a list of datasets holds.
pub open spec fn datasets_view(studies: Seq<Study>) -> Seq<DatasetView> {
    studies.map_values(|s: Study| s@)
}

/// The empty dataset of the group `key`, with the parameters of `study`.
pub open spec fn new_dataset(key: Seq<char>, study: StudyRecord) -> DatasetView {
    DatasetView {
        key,
        param_names: study.params@.map_values(|d: ParamDef| d.name@),
        scales: study.params@.map_values(|d: ParamDef| d.scale),
        params: Seq::new(study.params@.len(), |j: int| Seq::<i64>::empty()),
        values: Seq::empty(),
    }
}

/// `k` is the first place in `datasets` that holds the group `key`.
pub open spec fn is_dataset_index(datasets: Seq<DatasetView>, key: Seq<char>, k: int) -> bool {
    &&& 0 <= k < datasets.len()
    &&& datasets[k].key == key
    &&& forall|j: int| 0 <= j < k ==> (#[trigger] datasets[j]).key != key
}

/// Where the dataset of the group `key` stands, if it is there.
pub open spec fn dataset_index(datasets: Seq<DatasetView>, key: Seq<char>) -> Option<int> {
    if exists|k: int| is_dataset_index(datasets, key, k) {
        Some(choose|k: int| is_dataset_index(datasets, key, k))
    } else {
        None
    }
}

/// What a column stores of a parameter value: its logarithm where
/// logarithms are asked for and the parameter is on a logarithmic scale,
/// else the value itself.
pub open spec fn stored(convert_log_param: bool, scale: Scale, param: ParamValue) -> i64 {
    if convert_log_param && scale == Scale::Log {
        param.log
    } else {
        param.value
    }
}

/// What a column stores of a parameter value.
pub fn stored_code(convert_log_param: bool, scale: Scale, param: ParamValue) -> (r: i64)
    ensures
        r == stored(convert_log_param, scale, param),
{
    let log = convert_log_param && match scale {
        Scale::Log => true,
        Scale::Linear => false,
    };
    if log {
        param.log
    } else {
        param.value
    }
}

impl DatasetView {
    /// The dataset with one more row: each parameter column takes what
    /// is stored of the value that the trial has for it, as far as the
    /// trial has one, and the objective column takes `value`.
    pub open spec fn with_row(
        self,
        convert_log_param: bool,
        params: Seq<ParamValue>,
        value: i64,
    ) -> DatasetView {
        DatasetView {
            params: Seq::new(
                self.params.len(),
                |j: int|
                    if j < params.len() && j < self.scales.len() {
                        self.params[j].push(stored(convert_log_param, self.scales[j], params[j]))
                    } else {
                        self.params[j]
                    },
            ),
            values: self.values.push(value),
            ..self
        }
    }
}

/// No two datasets have the same key.
pub open spec fn distinct_datasets(datasets: Seq<DatasetView>) -> bool {
    forall|a: int, b: int|
        0 <= a < b < datasets.len() ==> (#[trigger] datasets[a]).key != (
        #[trigger] datasets[b]).key
}

/// A dataset that is among `datasets` is found there.
pub proof fn lemma_dataset_found(datasets: Seq<DatasetView>, key: Seq<char>, a: int)
    requires
        0 <= a < datasets.len(),
        datasets[a].key == key,
    ensures
        dataset_index(datasets, key) is Some,
    decreases a,
{
    if forall|j: int| 0 <= j < a ==> (#[trigger] datasets[j]).key != key {
        assert(is_dataset_index(datasets, key, a));
    } else {
        let j = choose|j: int| 0 <= j < a && (#[trigger] datasets[j]).key == key;
        lemma_dataset_found(datasets, key, j);
    }
}

/// Finds the dataset of the group `key`.
pub fn find_dataset(studies: &Vec<Study>, key: &String) -> (r: Option<usize>)
    ensures
        match r {
            Some(k) => dataset_index(datasets_view(studies@), key@) == Some(k as int) && k
                < studies@.len(),
            None => dataset_index(datasets_view(studies@), key@).is_none(),
        },
{
    let ghost dv = datasets_view(studies@);
    let mut k: usize = 0;
    while k < studies.len()
        invariant
            k <= studies@.len(),
            dv == datasets_view(studies@),
            forall|j: int| 0 <= j < k ==> (#[trigger] dv[j]).key != key@,
        decreases studies@.len() - k,
    {
        if studies[k].key == *key {
            assert(is_dataset_index(dv, key@, k as int));
            return Some(k);
        }
        k = k + 1;
    }
    None
}

impl Study {
    /// The empty dataset of the group `key`, with the parameters of
    /// `record`.
    pub fn new(key: String, record: &StudyRecord) -> (r: Study)
        ensures
            r@ == new_dataset(key@, *record),
    {
        let mut param_defs: Vec<ParamDef> = Vec::new();
        let mut params: Vec<Vec<i64>> = Vec::new();
        let mut j: usize = 0;
        while j < record.params.len()
            invariant
                j <= record.params@.len(),
                param_defs@.len() == j,
                params@.len() == j,
                forall|i: int|
                    0 <= i < j ==> (#[trigger] param_defs@[i]).name@ == record.params@[i].name@
                        && param_defs@[i].scale == record.params@[i].scale,
                forall|i: int| 0 <= i < j ==> (#[trigger] params@[i])@ == Seq::<i64>::empty(),
            decreases record.params@.len() - j,
        {
            param_defs.push(
                ParamDef { name: record.params[j].name.clone(), scale: record.params[j].scale },
            );
            params.push(Vec::new());
            j = j + 1;
        }
        let r = Study { key, param_defs, params, values: Vec::new() };
        proof {
            let d = new_dataset(key@, *record);
            assert(r@.param_names =~= d.param_names);
            assert(r@.scales =~= d.scales);
            assert(r@.params =~= d.params);
        }
        r
    }

    /// Adds the row of a trial.
    pub fn push_row(&mut self, convert_log_param: bool, params: &Vec<ParamValue>, value: i64)
        ensures
            final(self)@ == old(self)@.with_row(convert_log_param, params@, value),
    {
        let ghost before = self@;
        let mut j: usize = 0;
        assert(before.scales.len() == self.param_defs@.len());
        assert forall|i: int| 0 <= i < before.scales.len() implies before.scales[i]
            == self.param_defs@[i].scale by {}
        while j < self.params.len() && j < params.len() && j < self.param_defs.len()
            invariant
                before.scales.len() == self.param_defs@.len(),
                forall|i: int|
                    0 <= i < before.scales.len() ==> before.scales[i]
                        == (#[trigger] self.param_defs@[i]).scale,
                j <= self.params@.len(),
                j <= params@.len(),
                j <= self.param_defs@.len(),
                self.params@.len() == before.params.len(),
                self.key == old(self).key,
                self.param_defs == old(self).param_defs,
                self.values == old(self).values,
                forall|i: int|
                    0 <= i < j ==> (#[trigger] self.params@[i])@ == before.params[i].push(
                        stored(convert_log_param, before.scales[i], params@[i]),
                    ),
                forall|i: int|
                    j <= i < self.params@.len() ==> (#[trigger] self.params@[i])@
                        == before.params[i],
            decreases self.params@.len() - j,
        {
            let code = stored_code(convert_log_param, self.param_defs[j].scale, params[j]);
            self.params[j].push(code);
            j = j + 1;
        }
        self.values.push(value);
        assert(self@.params =~= before.with_row(convert_log_param, params@, value).params);
    }
}

impl ImportanceOpt {
    /// The datasets after one more record was seen. A study record
    /// starts the dataset of its group unless the group has one; a trial
    /// needs the dataset of its study's group, and adds a row if it is
    /// complete.
    pub open spec fn record_observed(
        &self,
        datasets: Seq<DatasetView>,
        rec: Record,
        record: usize,
        keys: Map<Seq<char>, Seq<char>>,
    ) -> Result<Seq<DatasetView>, ImportanceError> {
        match rec {
            Record::Study(study) => {
                let key = resolve_spec(keys, study.id@);
                match dataset_index(datasets, key) {
                    Some(_) => Ok(datasets),
                    None => Ok(datasets.push(new_dataset(key, study))),
                }
            },
            Record::Eval(eval) => match dataset_index(datasets, resolve_spec(keys, eval.study@)) {
                None => Err(ImportanceError::UnknownStudy { record }),
                Some(k) => if eval.state != EvalState::Complete {
                    Ok(datasets)
                } else if self.objective_value_index >= eval.values@.len() {
                    Err(ImportanceError::ObjectiveIndexOutOfRange { record })
                } else {
                    Ok(
                        datasets.update(
                            k,
                            datasets[k].with_row(
                                self.convert_log_param,
                                eval.params@,
                                eval.values@[self.objective_value_index as int],
                            ),
                        ),
                    )
                },
            },
        }
    }

    /// The datasets after the first `n` records were seen, in order, or
    /// the first error on the way.
    pub open spec fn accumulated(
        &self,
        records: Seq<Record>,
        n: int,
        keys: Map<Seq<char>, Seq<char>>,
    ) -> Result<Seq<DatasetView>, ImportanceError>
        decreases n,
    {
        if n <= 0 {
            Ok(Seq::empty())
        } else {
            match self.accumulated(records, n - 1, keys) {
                Err(e) => Err(e),
                Ok(datasets) => self.record_observed(
                    datasets,
                    records[n - 1],
                    (n - 1) as usize,
                    keys,
                ),
            }
        }
    }

    /// Once a record has failed, the records after it change nothing.
    pub proof fn lemma_error_stays(
        &self,
        records: Seq<Record>,
        n: int,
        keys: Map<Seq<char>, Seq<char>>,
    )
        requires
            0 <= n <= records.len(),
            self.accumulated(records, n, keys) is Err,
        ensures
            self.accumulated(records, records.len() as int, keys) == self.accumulated(
                records,
                n,
                keys,
            ),
        decreases records.len() - n,
    {
        if n < records.len() {
            assert(self.accumulated(records, n + 1, keys) == self.accumulated(records, n, keys));
            self.lemma_error_stays(records, n + 1, keys);
        }
    }

    /// Takes one record into the datasets.
    pub fn observe(
        &self,
        studies: &mut Vec<Study>,
        rec: &Record,
        record: usize,
        keys: &KeyMap,
    ) -> (r: Result<(), ImportanceError>)
        ensures
            match r {
                Ok(()) => self.record_observed(datasets_view(old(studies)@), *rec, record, keys@)
                    == Ok::<Seq<DatasetView>, ImportanceError>(datasets_view(final(studies)@)),
                Err(e) => self.record_observed(datasets_view(old(studies)@), *rec, record, keys@)
                    == Err::<Seq<DatasetView>, ImportanceError>(e) && final(studies)@ == old(
                    studies,
                )@,
            },
            distinct_datasets(datasets_view(old(studies)@)) ==> distinct_datasets(
                datasets_view(final(studies)@),
            ),
    {
        let ghost before = datasets_view(studies@);
        match rec {
            Record::Study(study) => {
                let key = keys.resolve(&study.id);
                if find_dataset(studies, &key).is_none() {
                    let created = Study::new(key, study);
                    studies.push(created);
                    assert(datasets_view(studies@) =~= before.push(created@));
                    proof {
                        let after = datasets_view(studies@);
                        assert forall|a: int|
                            0 <= a < before.len() implies (#[trigger] after[a]).key
                            != created@.key by {
                            assert(after[a] == before[a]);
                            if before[a].key == created@.key {
                                lemma_dataset_found(before, created@.key, a);
                            }
                        }
                        if distinct_datasets(before) {
                            assert forall|a: int, b: int|
                                0 <= a < b < after.len() implies (#[trigger] after[a]).key != (
                            #[trigger] after[b]).key by {
                                assert(after[a] == before[a]);
                                if b < before.len() {
                                    assert(after[b] == before[b]);
                                }
                            }
                        }
                    }
                }
                Ok(())
            },
            Record::Eval(eval) => {
                let key = keys.resolve(&eval.study);
                let k = match find_dataset(studies, &key) {
                    Some(k) => k,
                    None => {
                        return Err(ImportanceError::UnknownStudy { record });
                    },
                };
                if !eval.state.is_complete() {
                    return Ok(());
                }
                if self.objective_value_index >= eval.values.len() {
                    return Err(ImportanceError::ObjectiveIndexOutOfRange { record });
                }
                studies[k].push_row(
                    self.convert_log_param,
                    &eval.params,
                    eval.values[self.objective_value_index],
                );
                assert(datasets_view(studies@) =~= before.update(
                    k as int,
                    before[k as int].with_row(
                        self.convert_log_param,
                        eval.params@,
                        eval.values@[self.objective_value_index as int],
                    ),
                ));
                proof {
                    let after = datasets_view(studies@);
                    if distinct_datasets(before) {
                        assert forall|a: int, b: int|
                            0 <= a < b < after.len() implies (#[trigger] after[a]).key != (
                        #[trigger] after[b]).key by {
                            assert(after[a].key == before[a].key);
                            assert(after[b].key == before[b].key);
                        }
                    }
                }
                Ok(())
            },
        }
    }

    /// Builds the datasets of `records` in one pass, given the keys of
    /// the studies' groups.
    pub fn build_studies(&self, records: &Vec<Record>, keys: &KeyMap) -> (r: Result<
        Vec<Study>,
        ImportanceError,
    >)
        ensures
            match r {
                Ok(studies) => self.accumulated(records@, records@.len() as int, keys@) == Ok::<
                    Seq<DatasetView>,
                    ImportanceError,
                >(datasets_view(studies@)) && distinct_datasets(datasets_view(studies@))
                    && columns_hold(
                    *self,
                    datasets_view(studies@),
                    records@,
                    records@.len() as int,
                    keys@,
                ),
                Err(e) => self.accumulated(records@, records@.len() as int, keys@) == Err::<
                    Seq<DatasetView>,
                    ImportanceError,
                >(e),
            },
    {
        let mut studies: Vec<Study> = Vec::new();
        let mut i: usize = 0;
        assert(datasets_view(studies@) =~= Seq::empty());
        while i < records.len()
            invariant
                i <= records@.len(),
                distinct_datasets(datasets_view(studies@)),
                self.accumulated(records@, i as int, keys@) == Ok::<
                    Seq<DatasetView>,
                    ImportanceError,
                >(datasets_view(studies@)),
            decreases records@.len() - i,
        {
            match self.observe(&mut studies, &records[i], i, keys) {
                Ok(()) => {},
                Err(e) => {
                    proof {
                        self.lemma_error_stays(records@, i as int + 1, keys@);
                    }
                    return Err(e);
                },
            }
            i = i + 1;
        }
        proof {
            self.lemma_accumulated_columns(records@, records@.len() as int, keys@);
        }
        Ok(studies)
    }
}

/// What the columns hold, said of the records: every column holds, in
/// the order of the records, what is stored of the values that the
/// complete trials of the dataset's group have for its parameter.
pub open spec fn columns_hold(
    opt: ImportanceOpt,
    datasets: Seq<DatasetView>,
    records: Seq<Record>,
    n: int,
    keys: Map<Seq<char>, Seq<char>>,
) -> bool {
    forall|k: int, j: int|
        0 <= k < datasets.len() && 0 <= j < datasets[k].params.len() ==> (
        #[trigger] datasets[k].params[j]) == opt.column_entries(
            records,
            n,
            keys,
            datasets[k].key,
            datasets[k].scales[j],
            j,
        )
}

/// Every dataset has a scale for each of its columns.
pub open spec fn shaped(datasets: Seq<DatasetView>) -> bool {
    forall|k: int|
        0 <= k < datasets.len() ==> (#[trigger] datasets[k]).params.len()
            == datasets[k].scales.len()
}

/// Every trial among the first `n` records has the dataset of its group.
pub open spec fn trials_have_datasets(
    datasets: Seq<DatasetView>,
    records: Seq<Record>,
    n: int,
    keys: Map<Seq<char>, Seq<char>>,
) -> bool {
    forall|m: int|
        0 <= m < n && m < records.len() ==> match #[trigger] records[m] {
            Record::Eval(eval) => dataset_index(datasets, resolve_spec(keys, eval.study@))
                is Some,
            Record::Study(_) => true,
        }
}

impl ImportanceOpt {
    /// The record is a complete trial of the group `key` that has a
    /// value for parameter `j`.
    pub open spec fn adds_to(
        &self,
        rec: Record,
        keys: Map<Seq<char>, Seq<char>>,
        key: Seq<char>,
        j: int,
    ) -> bool {
        match rec {
            Record::Eval(eval) => resolve_spec(keys, eval.study@) == key && eval.state
                == EvalState::Complete && 0 <= j < eval.params@.len(),
            Record::Study(_) => false,
        }
    }

    /// What is stored, on the scale `scale`, of the values that the
    /// complete trials of the group `key` among the first `n` records
    /// have for parameter `j`, in the order of the records.
    pub open spec fn column_entries(
        &self,
        records: Seq<Record>,
        n: int,
        keys: Map<Seq<char>, Seq<char>>,
        key: Seq<char>,
        scale: Scale,
        j: int,
    ) -> Seq<i64>
        decreases n,
    {
        if n <= 0 {
            Seq::empty()
        } else {
            let before = self.column_entries(records, n - 1, keys, key, scale, j);
            match records[n - 1] {
                Record::Eval(eval) => if self.adds_to(records[n - 1], keys, key, j) {
                    before.push(stored(self.convert_log_param, scale, eval.params@[j]))
                } else {
                    before
                },
                Record::Study(_) => before,
            }
        }
    }

    /// A group without a trial has empty columns.
    pub proof fn lemma_no_entries(
        &self,
        records: Seq<Record>,
        n: int,
        keys: Map<Seq<char>, Seq<char>>,
        key: Seq<char>,
        scale: Scale,
        j: int,
    )
        requires
            0 <= n <= records.len(),
            forall|m: int| 0 <= m < n ==> !self.adds_to(#[trigger] records[m], keys, key, j),
        ensures
            self.column_entries(records, n, keys, key, scale, j) == Seq::<i64>::empty(),
        decreases n,
    {
        if n > 0 {
            self.lemma_no_entries(records, n - 1, keys, key, scale, j);
            assert(!self.adds_to(records[n - 1], keys, key, j));
        }
    }

    /// The log-parameter rule in the datasets, however many records
    /// were taken in: a column holds, trial by trial, the logarithm of
    /// the trial's value where logarithms are asked for and the
    /// parameter is on a logarithmic scale, and else the value itself.
    pub proof fn lemma_accumulated_columns(
        &self,
        records: Seq<Record>,
        n: int,
        keys: Map<Seq<char>, Seq<char>>,
    )
        requires
            0 <= n <= records.len(),
            self.accumulated(records, n, keys) is Ok,
        ensures
            columns_hold(*self, self.accumulated(records, n, keys)->Ok_0, records, n, keys),
            shaped(self.accumulated(records, n, keys)->Ok_0),
            distinct_datasets(self.accumulated(records, n, keys)->Ok_0),
            trials_have_datasets(self.accumulated(records, n, keys)->Ok_0, records, n, keys),
        decreases n,
    {
        if n > 0 {
            self.lemma_accumulated_columns(records, n - 1, keys);
            let prev = self.accumulated(records, n - 1, keys)->Ok_0;
            let cur = self.accumulated(records, n, keys)->Ok_0;
            let rec = records[n - 1];
            let key = match rec {
                Record::Study(study) => resolve_spec(keys, study.id@),
                Record::Eval(eval) => resolve_spec(keys, eval.study@),
            };
            let found = dataset_index(prev, key);
            if found is Some {
                assert(is_dataset_index(prev, key, found->0));
            }
            assert(cur.len() >= prev.len());
            assert forall|k: int| 0 <= k < prev.len() implies (#[trigger] cur[k]).key
                == prev[k].key && cur[k].scales == prev[k].scales && cur[k].params.len()
                == prev[k].params.len() by {}
            self.lemma_step_keeps_datasets(prev, cur, records, n, keys, key);
            assert forall|k: int, j: int|
                0 <= k < cur.len() && 0 <= j < cur[k].params.len() implies (
            #[trigger] cur[k].params[j]) == self.column_entries(
                records,
                n,
                keys,
                cur[k].key,
                cur[k].scales[j],
                j,
            ) by {
                let now = self.column_entries(records, n, keys, cur[k].key, cur[k].scales[j], j);
                let was = self.column_entries(
                    records,
                    n - 1,
                    keys,
                    cur[k].key,
                    cur[k].scales[j],
                    j,
                );
                if k >= prev.len() {
                    assert forall|m: int| 0 <= m < n - 1 implies !self.adds_to(
                        #[trigger] records[m],
                        keys,
                        key,
                        j,
                    ) by {
                        if self.adds_to(records[m], keys, key, j) {
                            assert(dataset_index(prev, key) is Some);
                        }
                    }
                    self.lemma_no_entries(records, n - 1, keys, key, cur[k].scales[j], j);
                    assert(cur[k].params[j] =~= Seq::<i64>::empty());
                } else {
                    assert(prev[k].params[j] == was);
                    if found is Some && k != found->0 {
                        assert(prev[k].key != prev[found->0].key);
                        assert(cur[k] == prev[k]);
                    }
                }
            }
        }
    }

    /// A step keeps the keys apart and the trials with their datasets.
    proof fn lemma_step_keeps_datasets(
        &self,
        prev: Seq<DatasetView>,
        cur: Seq<DatasetView>,
        records: Seq<Record>,
        n: int,
        keys: Map<Seq<char>, Seq<char>>,
        key: Seq<char>,
    )
        requires
            0 < n <= records.len(),
            self.accumulated(records, n - 1, keys) == Ok::<Seq<DatasetView>, ImportanceError>(prev),
            self.accumulated(records, n, keys) == Ok::<Seq<DatasetView>, ImportanceError>(cur),
            key == match records[n - 1] {
                Record::Study(study) => resolve_spec(keys, study.id@),
                Record::Eval(eval) => resolve_spec(keys, eval.study@),
            },
            shaped(prev),
            distinct_datasets(prev),
            trials_have_datasets(prev, records, n - 1, keys),
        ensures
            shaped(cur),
            distinct_datasets(cur),
            trials_have_datasets(cur, records, n, keys),
    {
        let found = dataset_index(prev, key);
        if found is Some {
            assert(is_dataset_index(prev, key, found->0));
        }
        assert forall|k: int| 0 <= k < prev.len() implies (#[trigger] cur[k]).key == prev[k].key
            && cur[k].scales == prev[k].scales && cur[k].params.len() == prev[k].params.len() by {}
        assert forall|a: int, b: int| 0 <= a < b < cur.len() implies (#[trigger] cur[a]).key != (
        #[trigger] cur[b]).key by {
            if b < prev.len() {
                assert(prev[a].key != prev[b].key);
            } else if prev[a].key == key {
                lemma_dataset_found(prev, key, a);
            }
        }
        assert forall|m: int| 0 <= m < n && m < records.len() implies match #[trigger] records[m] {
            Record::Eval(eval) => dataset_index(cur, resolve_spec(keys, eval.study@)) is Some,
            Record::Study(_) => true,
        } by {
            match records[m] {
                Record::Eval(eval) => {
                    let km = resolve_spec(keys, eval.study@);
                    let i = dataset_index(prev, km)->0;
                    assert(dataset_index(prev, km) is Some);
                    assert(is_dataset_index(prev, km, i));
                    lemma_dataset_found(cur, km, i);
                },
                Record::Study(_) => {},
            }
        }
    }
}

/// The entries that the scores make: the `i`-th entry names the
/// parameters of the `i`-th subset and carries the `i`-th score.
pub open spec fn labelled(
    names: Seq<Seq<char>>,
    subsets: Seq<Seq<int>>,
    scores: Seq<MeanAndStddev<i64>>,
) -> Seq<ImportanceView> {
    Seq::new(
        subsets.len(),
        |i: int|
            ImportanceView {
                params: subsets[i].map_values(|x: int| names[x]),
                mean: scores[i].mean,
                stddev: scores[i].stddev,
            },
    )
}

impl ImportanceOpt {
    /// The keys of the studies' groups, given what the key script gave
    /// for each study in order: none where there is no key script.
    pub open spec fn group_keys(&self, records: Seq<Record>, outcomes: Seq<Outcome>) -> Result<
        Map<Seq<char>, Seq<char>>,
        KeyError,
    > {
        if self.key_script is Some {
            key_mapping(records, outcomes)
        } else {
            Ok(Map::empty())
        }
    }

    /// The keys of the studies' groups.
    pub fn resolve_keys(&self, records: &Vec<Record>, outcomes: &Vec<Outcome>) -> (r: Result<
        KeyMap,
        KeyError,
    >)
        ensures
            match r {
                Ok(keys) => self.group_keys(records@, outcomes@) == Ok::<
                    Map<Seq<char>, Seq<char>>,
                    KeyError,
                >(keys@),
                Err(e) => self.group_keys(records@, outcomes@) == Err::<
                    Map<Seq<char>, Seq<char>>,
                    KeyError,
                >(e),
            },
    {
        if self.key_script.is_some() {
            build_id_mapping(records, outcomes)
        } else {
            Ok(KeyMap::new())
        }
    }

    /// The datasets of `records`, given what the key script gave for
    /// each study in order: the studies get their keys, then the records
    /// are taken in, in order.
    pub open spec fn collected(&self, records: Seq<Record>, outcomes: Seq<Outcome>) -> Result<
        Seq<DatasetView>,
        ImportanceError,
    > {
        match self.group_keys(records, outcomes) {
            Err(e) => Err(ImportanceError::Key(e)),
            Ok(keys) => self.accumulated(records, records.len() as int, keys),
        }
    }

    /// Builds the datasets of `records`, given what the key script gave
    /// for each study in order. Without a key script every study is its
    /// own group and the outcomes are not looked at.
    pub fn collect_studies(&self, records: &Vec<Record>, outcomes: &Vec<Outcome>) -> (r: Result<
        Vec<Study>,
        ImportanceError,
    >)
        ensures
            match r {
                Ok(studies) => self.collected(records@, outcomes@) == Ok::<
                    Seq<DatasetView>,
                    ImportanceError,
                >(datasets_view(studies@)) && distinct_datasets(datasets_view(studies@))
                    && columns_hold(
                    *self,
                    datasets_view(studies@),
                    records@,
                    records@.len() as int,
                    self.group_keys(records@, outcomes@)->Ok_0,
                ),
                Err(e) => self.collected(records@, outcomes@) == Err::<
                    Seq<DatasetView>,
                    ImportanceError,
                >(e),
            },
    {
        match self.resolve_keys(records, outcomes) {
            Ok(keys) => self.build_studies(records, &keys),
            Err(e) => Err(ImportanceError::Key(e)),
        }
    }

    /// The parameter subsets to score for `study`, in the order in which
    /// the scores are expected.
    pub fn subsets(&self, study: &Study) -> (r: Vec<Vec<usize>>)
        ensures
            index_lists(r@) == subsets_up_to(
                study.param_defs@.len() as nat,
                self.max_dimension as nat,
            ),
            r@.len() == subset_count(study.param_defs@.len() as nat, self.max_dimension as nat),
            forall|i: int, a: int|
                0 <= i < r@.len() && 0 <= a < r@[i]@.len() ==> #[trigger] r@[i]@[a]
                    < study.param_defs@.len(),
    {
        enumerate_subsets(study.param_defs.len(), self.max_dimension)
    }

    /// The importances of `study`, given the score of each of its
    /// parameter subsets in the order of `subsets`: one entry per
    /// subset, ranked by mean. `None` where the scores are not as many
    /// as the subsets.
    pub fn calculate_importances(&self, study: &Study, scores: &Vec<MeanAndStddev<i64>>) -> (r:
        Option<Vec<Importance>>)
        ensures
            r is Some <==> scores@.len() == subset_count(
                study.param_defs@.len() as nat,
                self.max_dimension as nat,
            ),
            match r {
                Some(ranked) => ranked@.len() == scores@.len() && is_ranking_of(
                    importance_views(ranked@),
                    labelled(
                        study@.param_names,
                        subsets_up_to(study.param_defs@.len() as nat, self.max_dimension as nat),
                        scores@,
                    ),
                ),
                None => true,
            },
    {
        let subsets = self.subsets(study);
        if scores.len() != subsets.len() {
            return None;
        }
        let ghost expected = labelled(study@.param_names, index_lists(subsets@), scores@);
        let mut entries: Vec<Importance> = Vec::new();
        let mut i: usize = 0;
        while i < subsets.len()
            invariant
                i <= subsets@.len(),
                scores@.len() == subsets@.len(),
                expected == labelled(study@.param_names, index_lists(subsets@), scores@),
                forall|k: int, a: int|
                    0 <= k < subsets@.len() && 0 <= a < subsets@[k]@.len()
                        ==> #[trigger] subsets@[k]@[a] < study.param_defs@.len(),
                entries@.len() == i,
                forall|k: int| 0 <= k < i ==> (#[trigger] entries@[k])@ == expected[k],
            decreases subsets@.len() - i,
        {
            let indices = &subsets[i];
            let mut names: Vec<String> = Vec::new();
            let mut a: usize = 0;
            while a < indices.len()
                invariant
                    a <= indices@.len(),
                    indices == subsets@[i as int],
                    0 <= i < subsets@.len(),
                    forall|k: int, b: int|
                        0 <= k < subsets@.len() && 0 <= b < subsets@[k]@.len()
                            ==> #[trigger] subsets@[k]@[b] < study.param_defs@.len(),
                    names@.len() == a,
                    forall|b: int|
                        0 <= b < a ==> (#[trigger] names@[b])@
                            == study.param_defs@[indices@[b] as int].name@,
                decreases indices@.len() - a,
            {
                assert(subsets@[i as int]@[a as int] < study.param_defs@.len());
                names.push(study.param_defs[indices[a]].name.clone());
                a = a + 1;
            }
            let entry = Importance {
                params: names,
                importance: MeanAndStddev { mean: scores[i].mean, stddev: scores[i].stddev },
            };
            proof {
                assert(index_lists(subsets@)[i as int] == indices@.map_values(|x: usize| x as int));
                assert(entry@.params =~= expected[i as int].params);
            }
            entries.push(entry);
            i = i + 1;
        }
        assert(importance_views(entries@) =~= expected);
        Some(rank(entries))
    }
}

} // verus!
