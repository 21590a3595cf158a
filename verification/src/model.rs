//! The series data model.
//!
//! A series carries a label map ("metric") and either a single sample
//! (instant queries) or an ordered run of samples (range queries). Label maps
//! are kept as association lists with pairwise-distinct keys; their
//! mathematical model is the finite `Map` from key to value, so label order
//! never matters to any contract built on them.

use vstd::prelude::*;

verus! {

// ----------------------------------------------------------------------------
// Association lists as maps
// ----------------------------------------------------------------------------

/// The map an entry list denotes: later entries override earlier ones, as
/// repeated inserts into a unique-key map would.
pub open spec fn assoc_map<K, V>(es: Seq<(K, V)>) -> Map<K, V>
    decreases es.len(),
{
    if es.len() == 0 {
        Map::empty()
    } else {
        assoc_map(es.drop_last()).insert(es.last().0, es.last().1)
    }
}

pub open spec fn distinct_keys<K, V>(es: Seq<(K, V)>) -> bool {
    forall|i: int, j: int|
        0 <= i < j < es.len() ==> (#[trigger] es[i]).0 != (#[trigger] es[j]).0
}

pub proof fn lemma_assoc_contains<K, V>(es: Seq<(K, V)>, k: K)
    ensures
        assoc_map(es).contains_key(k) <==> exists|i: int|
            0 <= i < es.len() && (#[trigger] es[i]).0 == k,
    decreases es.len(),
{
    if es.len() > 0 {
        lemma_assoc_contains(es.drop_last(), k);
        if es.last().0 == k {
            assert((es[es.len() - 1]).0 == k);
        } else {
            if exists|i: int| 0 <= i < es.len() && (#[trigger] es[i]).0 == k {
                let i = choose|i: int| 0 <= i < es.len() && (#[trigger] es[i]).0 == k;
                assert((es.drop_last()[i]).0 == k);
            }
            if exists|i: int| 0 <= i < es.drop_last().len() && (#[trigger] es.drop_last()[i]).0
                == k {
                let i = choose|i: int|
                    0 <= i < es.drop_last().len() && (#[trigger] es.drop_last()[i]).0 == k;
                assert((es[i]).0 == k);
            }
        }
    }
}

pub proof fn lemma_distinct_drop_last<K, V>(es: Seq<(K, V)>)
    requires
        distinct_keys(es),
        es.len() > 0,
    ensures
        distinct_keys(es.drop_last()),
{
    assert forall|i: int, j: int|
        0 <= i < j < es.drop_last().len() implies (#[trigger] es.drop_last()[i]).0 != (
    #[trigger] es.drop_last()[j]).0 by {
        assert(es.drop_last()[i] == es[i]);
        assert(es.drop_last()[j] == es[j]);
    }
}

pub proof fn lemma_assoc_index<K, V>(es: Seq<(K, V)>, i: int)
    requires
        distinct_keys(es),
        0 <= i < es.len(),
    ensures
        assoc_map(es).contains_key((es[i]).0),
        assoc_map(es)[(es[i]).0] == (es[i]).1,
    decreases es.len(),
{
    if i == es.len() - 1 {
    } else {
        lemma_distinct_drop_last(es);
        assert(es.drop_last()[i] == es[i]);
        lemma_assoc_index(es.drop_last(), i);
        assert((es[i]).0 != (es[es.len() - 1]).0);
    }
}

pub proof fn lemma_assoc_len<K, V>(es: Seq<(K, V)>)
    requires
        distinct_keys(es),
    ensures
        assoc_map(es).dom().finite(),
        assoc_map(es).dom().len() == es.len(),
    decreases es.len(),
{
    if es.len() > 0 {
        lemma_distinct_drop_last(es);
        lemma_assoc_len(es.drop_last());
        lemma_assoc_contains(es.drop_last(), es.last().0);
        assert forall|j: int|
            0 <= j < es.drop_last().len() implies (#[trigger] es.drop_last()[j]).0
            != es.last().0 by {
            assert(es.drop_last()[j] == es[j]);
            assert((es[j]).0 != (es[es.len() - 1]).0);
        }
        assert(!assoc_map(es.drop_last()).contains_key(es.last().0));
    }
}

pub proof fn lemma_assoc_update<K, V>(es: Seq<(K, V)>, i: int, x: (K, V))
    requires
        distinct_keys(es),
        0 <= i < es.len(),
        x.0 == (es[i]).0,
    ensures
        assoc_map(es.update(i, x)) == assoc_map(es).insert(x.0, x.1),
        distinct_keys(es.update(i, x)),
    decreases es.len(),
{
    assert forall|p: int, q: int|
        0 <= p < q < es.update(i, x).len() implies (#[trigger] es.update(i, x)[p]).0 != (
    #[trigger] es.update(i, x)[q]).0 by {
        assert((es.update(i, x)[p]).0 == (es[p]).0);
        assert((es.update(i, x)[q]).0 == (es[q]).0);
    }
    if i == es.len() - 1 {
        assert(es.update(i, x).drop_last() =~= es.drop_last());
        assert(es.update(i, x).last() == x);
        assert(assoc_map(es.update(i, x)) =~= assoc_map(es).insert(x.0, x.1));
    } else {
        lemma_distinct_drop_last(es);
        assert(es.drop_last()[i] == es[i]);
        lemma_assoc_update(es.drop_last(), i, x);
        assert(es.update(i, x).drop_last() =~= es.drop_last().update(i, x));
        assert(es.update(i, x).last() == es.last());
        assert((es[i]).0 != (es[es.len() - 1]).0);
        assert(assoc_map(es.update(i, x)) =~= assoc_map(es).insert(x.0, x.1));
    }
}

pub proof fn lemma_assoc_remove_at<K, V>(es: Seq<(K, V)>, i: int)
    requires
        distinct_keys(es),
        0 <= i < es.len(),
    ensures
        assoc_map(es.remove(i)) == assoc_map(es).remove((es[i]).0),
        distinct_keys(es.remove(i)),
    decreases es.len(),
{
    assert forall|p: int, q: int|
        0 <= p < q < es.remove(i).len() implies (#[trigger] es.remove(i)[p]).0 != (
    #[trigger] es.remove(i)[q]).0 by {
        let p0 = if p < i {
            p
        } else {
            p + 1
        };
        let q0 = if q < i {
            q
        } else {
            q + 1
        };
        assert(es.remove(i)[p] == es[p0]);
        assert(es.remove(i)[q] == es[q0]);
    }
    if i == es.len() - 1 {
        lemma_distinct_drop_last(es);
        assert(es.remove(i) =~= es.drop_last());
        lemma_assoc_contains(es.drop_last(), es.last().0);
        assert forall|j: int|
            0 <= j < es.drop_last().len() implies (#[trigger] es.drop_last()[j]).0
            != es.last().0 by {
            assert(es.drop_last()[j] == es[j]);
            assert((es[j]).0 != (es[es.len() - 1]).0);
        }
        assert(!assoc_map(es.drop_last()).contains_key(es.last().0));
        assert(assoc_map(es.remove(i)) =~= assoc_map(es).remove((es[i]).0));
    } else {
        lemma_distinct_drop_last(es);
        assert(es.drop_last()[i] == es[i]);
        lemma_assoc_remove_at(es.drop_last(), i);
        assert(es.remove(i).drop_last() =~= es.drop_last().remove(i));
        assert(es.remove(i).last() == es.last());
        assert((es[i]).0 != (es[es.len() - 1]).0);
        assert(assoc_map(es.remove(i)) =~= assoc_map(es).remove((es[i]).0));
    }
}

// ----------------------------------------------------------------------------
// String helpers
// ----------------------------------------------------------------------------

/// Character-wise string comparison with an exact contract.
pub fn str_eq(a: &str, b: &str) -> (r: bool)
    ensures
        r == (a@ == b@),
{
    let x = a.to_owned();
    let y = b.to_owned();
    x == y
}

// ----------------------------------------------------------------------------
// Label maps
// ----------------------------------------------------------------------------

pub open spec fn entry_views(es: Seq<(String, String)>) -> Seq<(Seq<char>, Seq<char>)> {
    es.map_values(|e: (String, String)| (e.0@, e.1@))
}

/// A label map: string keys to string values, keys pairwise distinct,
/// modelled as the finite map it denotes.
pub struct LabelMap {
    pub entries: Vec<(String, String)>,
}

impl View for LabelMap {
    type V = Map<Seq<char>, Seq<char>>;

    open spec fn view(&self) -> Map<Seq<char>, Seq<char>> {
        assoc_map(entry_views(self.entries@))
    }
}

impl LabelMap {
    pub open spec fn wf(&self) -> bool {
        distinct_keys(entry_views(self.entries@))
    }

    pub fn new() -> (r: LabelMap)
        ensures
            r@ == Map::<Seq<char>, Seq<char>>::empty(),
            r.wf(),
            r.entries@.len() == 0,
    {
        LabelMap { entries: Vec::new() }
    }

    /// Index of the entry holding `key`, if any.
    fn find(&self, key: &str) -> (r: Option<usize>)
        ensures
            r matches Some(i) ==> i < self.entries@.len() && (self.entries@[i as int]).0@ == key@,
            r is None ==> forall|i: int|
                0 <= i < self.entries@.len() ==> (#[trigger] self.entries@[i]).0@ != key@,
    {
        let n = self.entries.len();
        let mut i: usize = 0;
        while i < n
            invariant
                i <= n == self.entries@.len(),
                forall|j: int| 0 <= j < i ==> (#[trigger] self.entries@[j]).0@ != key@,
            decreases n - i,
        {
            if str_eq(self.entries[i].0.as_str(), key) {
                return Some(i);
            }
            i = i + 1;
        }
        None
    }

    pub fn get(&self, key: &str) -> (r: Option<&String>)
        requires
            self.wf(),
        ensures
            r matches Some(v) ==> self@.contains_key(key@) && v@ == self@[key@],
            r is None ==> !self@.contains_key(key@),
    {
        let ghost evs = entry_views(self.entries@);
        match self.find(key) {
            Some(i) => {
                proof {
                    assert((evs[i as int]).0 == key@);
                    lemma_assoc_index(evs, i as int);
                }
                Some(&self.entries[i].1)
            },
            None => {
                proof {
                    lemma_assoc_contains(evs, key@);
                    assert forall|i: int| 0 <= i < evs.len() implies (#[trigger] evs[i]).0
                        != key@ by {
                        assert((self.entries@[i]).0@ != key@);
                    }
                }
                None
            },
        }
    }

    /// Whether `key` is bound to exactly `val`.
    pub fn has_label(&self, key: &str, val: &str) -> (r: bool)
        requires
            self.wf(),
        ensures
            r == (self@.contains_key(key@) && self@[key@] == val@),
    {
        match self.get(key) {
            Some(v) => str_eq(v.as_str(), val),
            None => false,
        }
    }

    fn clone_entries(&self) -> (r: Vec<(String, String)>)
        ensures
            r@ =~= self.entries@,
    {
        let n = self.entries.len();
        let mut out: Vec<(String, String)> = Vec::new();
        let mut i: usize = 0;
        while i < n
            invariant
                i <= n == self.entries@.len(),
                out@ =~= self.entries@.take(i as int),
            decreases n - i,
        {
            let k = self.entries[i].0.clone();
            let v = self.entries[i].1.clone();
            out.push((k, v));
            proof {
                assert(out@ =~= self.entries@.take(i as int + 1));
            }
            i = i + 1;
        }
        proof {
            assert(self.entries@.take(n as int) =~= self.entries@);
        }
        out
    }

    pub fn duplicate(&self) -> (r: LabelMap)
        ensures
            r@ == self@,
            r.wf() <==> self.wf(),
            r.entries@ =~= self.entries@,
    {
        LabelMap { entries: self.clone_entries() }
    }

    /// The map with `key` bound to `val`, other labels untouched.
    pub fn with_label(&self, key: &str, val: &str) -> (r: LabelMap)
        requires
            self.wf(),
        ensures
            r.wf(),
            r@ == self@.insert(key@, val@),
    {
        let ghost evs = entry_views(self.entries@);
        let mut out = self.clone_entries();
        match self.find(key) {
            Some(i) => {
                out.set(i, (key.to_owned(), val.to_owned()));
                proof {
                    assert(entry_views(out@) =~= evs.update(i as int, (key@, val@)));
                    lemma_assoc_update(evs, i as int, (key@, val@));
                }
                LabelMap { entries: out }
            },
            None => {
                out.push((key.to_owned(), val.to_owned()));
                proof {
                    assert(entry_views(out@) =~= evs.push((key@, val@)));
                    assert(entry_views(out@).drop_last() =~= evs);
                    assert forall|p: int, q: int|
                        0 <= p < q < entry_views(out@).len() implies (#[trigger] entry_views(
                        out@,
                    )[p]).0 != (#[trigger] entry_views(out@)[q]).0 by {
                        if q < evs.len() {
                            assert((evs[p]).0 != (evs[q]).0);
                        } else {
                            assert((self.entries@[p]).0@ != key@);
                        }
                    }
                }
                LabelMap { entries: out }
            },
        }
    }

    /// The map with `key` absent, other labels untouched.
    pub fn without(&self, key: &str) -> (r: LabelMap)
        requires
            self.wf(),
        ensures
            r.wf(),
            r@ == self@.remove(key@),
    {
        let ghost evs = entry_views(self.entries@);
        let mut out = self.clone_entries();
        match self.find(key) {
            Some(i) => {
                out.remove(i);
                proof {
                    assert(entry_views(out@) =~= evs.remove(i as int));
                    lemma_assoc_remove_at(evs, i as int);
                    assert((evs[i as int]).0 == key@);
                }
                LabelMap { entries: out }
            },
            None => {
                proof {
                    lemma_assoc_contains(evs, key@);
                    assert forall|i: int| 0 <= i < evs.len() implies (#[trigger] evs[i]).0
                        != key@ by {
                        assert((self.entries@[i]).0@ != key@);
                    }
                    assert(self@.remove(key@) =~= self@);
                }
                LabelMap { entries: out }
            },
        }
    }

    /// Whether every binding of `self` also stands in `other`.
    fn submap_check(&self, other: &LabelMap) -> (r: bool)
        requires
            self.wf(),
            other.wf(),
        ensures
            r == self@.submap_of(other@),
    {
        let ghost evs = entry_views(self.entries@);
        let n = self.entries.len();
        let mut i: usize = 0;
        while i < n
            invariant
                i <= n == self.entries@.len(),
                self.wf(),
                other.wf(),
                evs == entry_views(self.entries@),
                forall|j: int|
                    0 <= j < i ==> other@.contains_key((#[trigger] evs[j]).0) && other@[(
                    evs[j]).0] == (evs[j]).1,
            decreases n - i,
        {
            proof {
                lemma_assoc_index(evs, i as int);
            }
            match other.get(self.entries[i].0.as_str()) {
                Some(v) => {
                    if !str_eq(v.as_str(), self.entries[i].1.as_str()) {
                        proof {
                            let k = (evs[i as int]).0;
                            assert(self@.dom().contains(k));
                            assert(self@[k] == (evs[i as int]).1);
                            assert(other@[k] != self@[k]);
                            assert(!self@.submap_of(other@));
                        }
                        return false;
                    }
                },
                None => {
                    proof {
                        let k = (evs[i as int]).0;
                        assert(self@.dom().contains(k));
                        assert(!other@.dom().contains(k));
                        assert(!self@.submap_of(other@));
                    }
                    return false;
                },
            }
            i = i + 1;
        }
        proof {
            assert forall|k: Seq<char>| #[trigger]
                self@.dom().contains(k) implies #[trigger] other@.dom().contains(k) && self@[k]
                == other@[k] by {
                lemma_assoc_contains(evs, k);
                let j = choose|j: int| 0 <= j < evs.len() && (#[trigger] evs[j]).0 == k;
                lemma_assoc_index(evs, j);
            }
        }
        true
    }

    /// Label-map equality: the same bindings, whatever the entry order.
    pub fn map_eq(&self, other: &LabelMap) -> (r: bool)
        requires
            self.wf(),
            other.wf(),
        ensures
            r == (self@ == other@),
    {
        let fwd = self.submap_check(other);
        let bwd = other.submap_check(self);
        proof {
            self@.lemma_submap_eq_iff(other@);
        }
        fwd && bwd
    }
}

// ----------------------------------------------------------------------------
// Series
// ----------------------------------------------------------------------------

/// The model of a series: its label map and the sample(s) it carries.
#[verifier::ext_equal]
pub ghost struct SeriesView {
    pub metric: Map<Seq<char>, Seq<char>>,
    pub value: Option<(int, Seq<char>)>,
    pub values: Option<Seq<(int, Seq<char>)>>,
}

pub open spec fn sample_views(vs: Seq<(i64, String)>) -> Seq<(int, Seq<char>)> {
    vs.map_values(|p: (i64, String)| (p.0 as int, p.1@))
}

/// One observation stream: a label map plus either a single `(timestamp,
/// value)` sample or an ordered run of them, never both.
pub struct Series {
    pub metric: LabelMap,
    pub value: Option<(i64, String)>,
    pub values: Option<Vec<(i64, String)>>,
}

impl View for Series {
    type V = SeriesView;

    open spec fn view(&self) -> SeriesView {
        SeriesView {
            metric: self.metric@,
            value: match self.value {
                Some(p) => Some((p.0 as int, p.1@)),
                None => None,
            },
            values: match self.values {
                Some(vs) => Some(sample_views(vs@)),
                None => None,
            },
        }
    }
}

/// The shape a series must have for its endpoint: range series carry
/// `values`, instant series carry `value`, and the label map is well formed.
pub open spec fn shape_ok(s: Series, is_range: bool) -> bool {
    s.metric.wf() && shape_of_view(s@, is_range)
}

/// The same shape condition read off the model alone.
pub open spec fn shape_of_view(sv: SeriesView, is_range: bool) -> bool {
    if is_range {
        sv.value is None && sv.values is Some
    } else {
        sv.value is Some && sv.values is None
    }
}

fn clone_samples(vs: &Vec<(i64, String)>) -> (r: Vec<(i64, String)>)
    ensures
        r@ =~= vs@,
{
    let n = vs.len();
    let mut out: Vec<(i64, String)> = Vec::new();
    let mut i: usize = 0;
    while i < n
        invariant
            i <= n == vs@.len(),
            out@ =~= vs@.take(i as int),
        decreases n - i,
    {
        let t = vs[i].0;
        let v = vs[i].1.clone();
        out.push((t, v));
        proof {
            assert(out@ =~= vs@.take(i as int + 1));
        }
        i = i + 1;
    }
    proof {
        assert(vs@.take(n as int) =~= vs@);
    }
    out
}

impl Series {
    /// An exact copy, model for model.
    pub fn duplicate(&self) -> (r: Series)
        ensures
            r@ == self@,
            r.metric.wf() <==> self.metric.wf(),
    {
        Series {
            metric: self.metric.duplicate(),
            value: match &self.value {
                Some(p) => Some((p.0, p.1.clone())),
                None => None,
            },
            values: match &self.values {
                Some(vs) => Some(clone_samples(vs)),
                None => None,
            },
        }
    }
}

// ----------------------------------------------------------------------------
// Upstream envelope shapes
// ----------------------------------------------------------------------------

/// The envelope both endpoints answer with on success.
pub struct PrometheusResponse<T> {
    pub status: String,
    pub data: PrometheusData<T>,
}

pub struct PrometheusData<T> {
    pub result_type: String,
    pub result: Vec<T>,
}

/// A single-sample series as the instant endpoint reports it.
pub struct InstantSeries {
    pub metric: LabelMap,
    pub value: (i64, String),
}

/// A sample-run series as the range endpoint reports it.
pub struct RangeSeries {
    pub metric: LabelMap,
    pub values: Vec<(i64, String)>,
}

impl InstantSeries {
    pub fn into_series(self) -> (r: Series)
        ensures
            r.metric == self.metric,
            r.value == Some(self.value),
            r.values is None,
    {
        Series { metric: self.metric, value: Some(self.value), values: None }
    }
}

impl RangeSeries {
    pub fn into_series(self) -> (r: Series)
        ensures
            r.metric == self.metric,
            r.value is None,
            r.values == Some(self.values),
    {
        Series { metric: self.metric, value: None, values: Some(self.values) }
    }
}

} // verus!
