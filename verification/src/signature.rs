//! Signatures and signature-keyed tables.
//!
//! The signature of a series is its label map with the timeframe label
//! removed: two series are the same underlying stream observed in different
//! windows exactly when their signatures are equal. A `SigTable` keys series
//! by signature with last-write-wins inserts, as a unique-key map would.

use vstd::prelude::*;
use crate::model::{
    assoc_map, distinct_keys, lemma_assoc_contains, lemma_assoc_index, lemma_assoc_update,
    LabelMap, Series, SeriesView,
};

verus! {

/// The label that names a series' window.
pub open spec fn tf_key() -> Seq<char> {
    "chrono_timeframe"@
}

pub fn tf_label() -> (r: &'static str)
    ensures
        r@ == tf_key(),
{
    "chrono_timeframe"
}

/// A label map stripped of the timeframe label.
pub open spec fn sig_of(m: Map<Seq<char>, Seq<char>>) -> Map<Seq<char>, Seq<char>> {
    m.remove(tf_key())
}

pub open spec fn series_sig(sv: SeriesView) -> Map<Seq<char>, Seq<char>> {
    sig_of(sv.metric)
}

pub open spec fn views_of(ss: Seq<Series>) -> Seq<SeriesView> {
    ss.map_values(|s: Series| s@)
}

pub open spec fn all_wf(ss: Seq<Series>) -> bool {
    forall|i: int| 0 <= i < ss.len() ==> (#[trigger] ss[i]).metric.wf()
}

pub open spec fn all_shaped(ss: Seq<Series>, is_range: bool) -> bool {
    forall|i: int| 0 <= i < ss.len() ==> crate::model::shape_ok(#[trigger] ss[i], is_range)
}

/// The signature of one series, as a label map of its own.
pub fn signature(s: &Series) -> (r: LabelMap)
    requires
        s.metric.wf(),
    ensures
        r.wf(),
        r@ == series_sig(s@),
{
    s.metric.without(tf_label())
}

/// Two label maps holding the same entries, in whatever order, denote the
/// same map, and so the same signature.
pub proof fn lemma_signature_reorder(a: LabelMap, b: LabelMap)
    requires
        a.wf(),
        b.wf(),
        forall|e: (String, String)| a.entries@.contains(e) <==> b.entries@.contains(e),
    ensures
        a@ == b@,
        sig_of(a@) == sig_of(b@),
{
    let eva = crate::model::entry_views(a.entries@);
    let evb = crate::model::entry_views(b.entries@);
    assert forall|k: Seq<char>| #[trigger]
        a@.dom().contains(k) implies b@.dom().contains(k) && a@[k] == b@[k] by {
        lemma_assoc_contains(eva, k);
        let i = choose|i: int| 0 <= i < eva.len() && (#[trigger] eva[i]).0 == k;
        lemma_assoc_index(eva, i);
        let pair = a.entries@[i];
        assert(a.entries@.contains(pair));
        assert(b.entries@.contains(pair));
        let j = choose|j: int| 0 <= j < b.entries@.len() && b.entries@[j] == pair;
        assert((evb[j]).0 == k && (evb[j]).1 == (eva[i]).1);
        lemma_assoc_index(evb, j);
    }
    assert forall|k: Seq<char>| #[trigger]
        b@.dom().contains(k) implies a@.dom().contains(k) && a@[k] == b@[k] by {
        lemma_assoc_contains(evb, k);
        let i = choose|i: int| 0 <= i < evb.len() && (#[trigger] evb[i]).0 == k;
        lemma_assoc_index(evb, i);
        let pair = b.entries@[i];
        assert(b.entries@.contains(pair));
        assert(a.entries@.contains(pair));
        let j = choose|j: int| 0 <= j < a.entries@.len() && a.entries@[j] == pair;
        assert((eva[j]).0 == k && (eva[j]).1 == (evb[i]).1);
        lemma_assoc_index(eva, j);
    }
    assert(a@ =~= b@);
}

/// Writing the timeframe label, whatever the value, never moves a series to
/// another signature; neither does removing it.
pub proof fn lemma_sig_ignores_timeframe(m: Map<Seq<char>, Seq<char>>, v: Seq<char>)
    ensures
        sig_of(m.insert(tf_key(), v)) == sig_of(m),
        sig_of(m.remove(tf_key())) == sig_of(m),
{
    assert(sig_of(m.insert(tf_key(), v)) =~= sig_of(m));
    assert(sig_of(m.remove(tf_key())) =~= sig_of(m));
}

// ----------------------------------------------------------------------------
// Signature tables
// ----------------------------------------------------------------------------

pub open spec fn table_entry_views(es: Seq<(LabelMap, Series)>) -> Seq<
    (Map<Seq<char>, Seq<char>>, SeriesView),
> {
    es.map_values(|e: (LabelMap, Series)| (e.0@, e.1@))
}

pub open spec fn has_key<K, V>(es: Seq<(K, V)>, k: K) -> bool {
    exists|i: int| 0 <= i < es.len() && (#[trigger] es[i]).0 == k
}

pub open spec fn key_index<K, V>(es: Seq<(K, V)>, k: K) -> int {
    choose|i: int| 0 <= i < es.len() && (#[trigger] es[i]).0 == k
}

/// Entry list of a signature-keyed table built by last-write-wins inserts,
/// first-insertion order kept.
pub open spec fn index_entries(ss: Seq<SeriesView>) -> Seq<
    (Map<Seq<char>, Seq<char>>, SeriesView),
>
    decreases ss.len(),
{
    if ss.len() == 0 {
        Seq::empty()
    } else {
        let prev = index_entries(ss.drop_last());
        let sv = ss.last();
        let k = series_sig(sv);
        if has_key(prev, k) {
            prev.update(key_index(prev, k), (k, sv))
        } else {
            prev.push((k, sv))
        }
    }
}

/// The map such a table denotes.
pub open spec fn index_map(ss: Seq<SeriesView>) -> Map<Map<Seq<char>, Seq<char>>, SeriesView> {
    assoc_map(ss.map_values(|sv: SeriesView| (series_sig(sv), sv)))
}

pub proof fn lemma_index_entries_wf(ss: Seq<SeriesView>)
    ensures
        distinct_keys(index_entries(ss)),
        assoc_map(index_entries(ss)) == index_map(ss),
        forall|i: int|
            0 <= i < index_entries(ss).len() ==> series_sig(
                (#[trigger] index_entries(ss)[i]).1,
            ) == (index_entries(ss)[i]).0,
    decreases ss.len(),
{
    let pairs = ss.map_values(|sv: SeriesView| (series_sig(sv), sv));
    if ss.len() == 0 {
        assert(assoc_map(index_entries(ss)) =~= index_map(ss));
    } else {
        lemma_index_entries_wf(ss.drop_last());
        let prev = index_entries(ss.drop_last());
        let sv = ss.last();
        let k = series_sig(sv);
        assert(pairs.drop_last() =~= ss.drop_last().map_values(
            |sv: SeriesView| (series_sig(sv), sv),
        ));
        assert(assoc_map(pairs) == assoc_map(pairs.drop_last()).insert(k, sv));
        if has_key(prev, k) {
            let i = key_index(prev, k);
            assert(0 <= i < prev.len() && (prev[i]).0 == k);
            lemma_assoc_update(prev, i, (k, sv));
        } else {
            assert forall|p: int, q: int|
                0 <= p < q < prev.push((k, sv)).len() implies (#[trigger] prev.push(
                (k, sv),
            )[p]).0 != (#[trigger] prev.push((k, sv))[q]).0 by {
                if q < prev.len() {
                    assert(prev.push((k, sv))[p] == prev[p]);
                    assert(prev.push((k, sv))[q] == prev[q]);
                } else {
                    assert(prev.push((k, sv))[q] == (k, sv));
                    assert(prev.push((k, sv))[p] == prev[p]);
                    assert(!((prev[p]).0 == k));
                }
            }
            assert(prev.push((k, sv)).drop_last() =~= prev);
        }
    }
}

/// Every series an index table holds came from its input list.
pub proof fn lemma_index_entries_element(ss: Seq<SeriesView>, k: int)
    requires
        0 <= k < index_entries(ss).len(),
    ensures
        exists|i: int| 0 <= i < ss.len() && (index_entries(ss)[k]).1 == ss[i],
    decreases ss.len(),
{
    let prev = index_entries(ss.drop_last());
    let sv = ss.last();
    let key = series_sig(sv);
    if has_key(prev, key) {
        let c = key_index(prev, key);
        assert(0 <= c < prev.len() && (prev[c]).0 == key);
        if k == c {
            assert((index_entries(ss)[k]).1 == sv);
            assert(ss[ss.len() - 1] == sv);
        } else {
            assert(index_entries(ss)[k] == prev[k]);
            lemma_index_entries_element(ss.drop_last(), k);
            let i = choose|i: int|
                0 <= i < ss.drop_last().len() && (index_entries(ss.drop_last())[k]).1 == ss.drop_last()[i];
            assert(ss[i] == ss.drop_last()[i]);
        }
    } else {
        if k == prev.len() {
            assert((index_entries(ss)[k]).1 == sv);
            assert(ss[ss.len() - 1] == sv);
        } else {
            assert(index_entries(ss)[k] == prev[k]);
            lemma_index_entries_element(ss.drop_last(), k);
            let i = choose|i: int|
                0 <= i < ss.drop_last().len() && (index_entries(ss.drop_last())[k]).1 == ss.drop_last()[i];
            assert(ss[i] == ss.drop_last()[i]);
        }
    }
}

/// A table built from series of one shape holds only series of that shape.
pub proof fn lemma_table_shaped(t: SigTable, ss: Seq<Series>, is_range: bool)
    requires
        t.wf(),
        table_entry_views(t.entries@) == index_entries(views_of(ss)),
        all_shaped(ss, is_range),
    ensures
        t.shaped(is_range),
{
    assert forall|j: int|
        0 <= j < t.entries@.len() implies crate::model::shape_ok(
        (#[trigger] t.entries@[j]).1,
        is_range,
    ) by {
        let tes = table_entry_views(t.entries@);
        assert((tes[j]).1 == (t.entries@[j]).1@);
        lemma_index_entries_element(views_of(ss), j);
        let i = choose|i: int|
            0 <= i < views_of(ss).len() && (index_entries(views_of(ss))[j]).1 == views_of(ss)[i];
        assert(views_of(ss)[i] == ss[i]@);
        assert(crate::model::shape_ok(ss[i], is_range));
        assert(crate::model::shape_of_view((t.entries@[j]).1@, is_range));
    }
}

/// A signature-keyed table of series; each entry holds the signature beside
/// the series it indexes.
pub struct SigTable {
    pub entries: Vec<(LabelMap, Series)>,
}

impl View for SigTable {
    type V = Map<Map<Seq<char>, Seq<char>>, SeriesView>;

    open spec fn view(&self) -> Map<Map<Seq<char>, Seq<char>>, SeriesView> {
        assoc_map(table_entry_views(self.entries@))
    }
}

impl SigTable {
    pub open spec fn wf(&self) -> bool {
        &&& distinct_keys(table_entry_views(self.entries@))
        &&& forall|i: int|
            0 <= i < self.entries@.len() ==> (#[trigger] self.entries@[i]).0.wf() && (
            self.entries@[i]).1.metric.wf() && (self.entries@[i]).0@ == series_sig(
                (self.entries@[i]).1@,
            )
    }

    /// Every entry has the shape of its endpoint.
    pub open spec fn shaped(&self, is_range: bool) -> bool {
        forall|i: int|
            0 <= i < self.entries@.len() ==> crate::model::shape_ok(
                (#[trigger] self.entries@[i]).1,
                is_range,
            )
    }

    fn find_sig(&self, sig: &LabelMap) -> (r: Option<usize>)
        requires
            sig.wf(),
            forall|i: int| 0 <= i < self.entries@.len() ==> (#[trigger] self.entries@[i]).0.wf(),
        ensures
            r matches Some(i) ==> i < self.entries@.len() && (self.entries@[i as int]).0@ == sig@,
            r is None ==> forall|i: int|
                0 <= i < self.entries@.len() ==> (#[trigger] self.entries@[i]).0@ != sig@,
    {
        let n = self.entries.len();
        let mut i: usize = 0;
        while i < n
            invariant
                i <= n == self.entries@.len(),
                sig.wf(),
                forall|j: int|
                    0 <= j < self.entries@.len() ==> (#[trigger] self.entries@[j]).0.wf(),
                forall|j: int| 0 <= j < i ==> (#[trigger] self.entries@[j]).0@ != sig@,
            decreases n - i,
        {
            if self.entries[i].0.map_eq(sig) {
                return Some(i);
            }
            i = i + 1;
        }
        None
    }

    /// The series indexed under `sig`, if any.
    pub fn get(&self, sig: &LabelMap) -> (r: Option<&Series>)
        requires
            self.wf(),
            sig.wf(),
        ensures
            r matches Some(s) ==> self@.contains_key(sig@) && s@ == self@[sig@] && exists|j: int|
                0 <= j < self.entries@.len() && (#[trigger] self.entries@[j]).1 == *s,
            r is None ==> !self@.contains_key(sig@),
    {
        let ghost tes = table_entry_views(self.entries@);
        match self.find_sig(sig) {
            Some(i) => {
                proof {
                    assert((tes[i as int]).0 == sig@);
                    lemma_assoc_index(tes, i as int);
                    assert(exists|j: int|
                        0 <= j < self.entries@.len() && (#[trigger] self.entries@[j]).1 == (
                        self.entries@[i as int]).1);
                }
                Some(&self.entries[i].1)
            },
            None => {
                proof {
                    lemma_assoc_contains(tes, sig@);
                    assert forall|i: int| 0 <= i < tes.len() implies (#[trigger] tes[i]).0
                        != sig@ by {
                        assert((self.entries@[i]).0@ != sig@);
                    }
                }
                None
            },
        }
    }
}

/// Builds the two lookup tables: current series by signature and average
/// series by signature, later series overriding earlier ones that share a
/// signature.
pub fn index_by_signature(current: &Vec<Series>, average: &Vec<Series>) -> (r: (
    SigTable,
    SigTable,
))
    requires
        all_wf(current@),
        all_wf(average@),
    ensures
        r.0.wf(),
        r.1.wf(),
        table_entry_views(r.0.entries@) == index_entries(views_of(current@)),
        table_entry_views(r.1.entries@) == index_entries(views_of(average@)),
        r.0@ == index_map(views_of(current@)),
        r.1@ == index_map(views_of(average@)),
{
    let t0 = build_table(current);
    let t1 = build_table(average);
    proof {
        lemma_index_entries_wf(views_of(current@));
        lemma_index_entries_wf(views_of(average@));
    }
    (t0, t1)
}

fn build_table(input: &Vec<Series>) -> (r: SigTable)
    requires
        all_wf(input@),
    ensures
        r.wf(),
        table_entry_views(r.entries@) == index_entries(views_of(input@)),
{
    let n = input.len();
    let mut t = SigTable { entries: Vec::new() };
    let mut i: usize = 0;
    proof {
        assert(table_entry_views(t.entries@) =~= index_entries(views_of(input@).take(0)));
    }
    while i < n
        invariant
            i <= n == input@.len(),
            all_wf(input@),
            t.wf(),
            table_entry_views(t.entries@) == index_entries(views_of(input@).take(i as int)),
        decreases n - i,
    {
        let ghost pre = views_of(input@).take(i as int);
        let ghost prev = index_entries(pre);
        proof {
            assert(views_of(input@).take(i as int + 1).drop_last() =~= pre);
            assert(views_of(input@).take(i as int + 1).last() == input@[i as int]@);
        }
        let s = &input[i];
        let sig = signature(s);
        let ghost k = series_sig(s@);
        match t.find_sig(&sig) {
            Some(j) => {
                proof {
                    assert((table_entry_views(t.entries@)[j as int]).0 == k);
                    assert(has_key(prev, k));
                    let c = key_index(prev, k);
                    assert(0 <= c < prev.len() && (prev[c]).0 == k);
                    assert(c == j as int);
                }
                t.entries.set(j, (sig, s.duplicate()));
                proof {
                    assert(table_entry_views(t.entries@) =~= prev.update(
                        j as int,
                        (k, input@[i as int]@),
                    ));
                    lemma_index_entries_wf(views_of(input@).take(i as int + 1));
                    lemma_index_entries_wf(pre);
                }
            },
            None => {
                proof {
                    assert forall|c: int| 0 <= c < prev.len() implies (#[trigger] prev[c]).0
                        != k by {
                        assert((t.entries@[c]).0@ != sig@);
                    }
                    assert(!has_key(prev, k));
                }
                t.entries.push((sig, s.duplicate()));
                proof {
                    assert(table_entry_views(t.entries@) =~= prev.push((k, input@[i as int]@)));
                    lemma_index_entries_wf(views_of(input@).take(i as int + 1));
                    lemma_index_entries_wf(pre);
                }
            },
        }
        i = i + 1;
    }
    proof {
        assert(views_of(input@).take(n as int) =~= views_of(input@));
    }
    t
}

} // verus!
