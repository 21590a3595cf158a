//! Per-window request construction.
//!
//! For every configured window the fetcher shifts the time-valued
//! parameters by the window's offset, appends a timeframe label matcher to
//! the query text, and URL-encodes the parameter set. Everything here is the
//! computation half of that work; issuing the HTTP call and decoding the
//! JSON envelope stay outside the library.

use vstd::prelude::*;
use crate::numeric::{int_str, parse_i64, parse_i64_spec, fmt_i64};
use crate::proxy::ChronoProxy;

verus! {

/// What `urlencoding::encode` returns for this text: a pure function of the
/// characters alone.
pub uninterp spec fn url_encoded(s: Seq<char>) -> Seq<char>;

/// What `urlencoding::decode` returns for this text, the empty string on
/// its one error (invalid UTF-8): a pure function of the characters alone.
pub uninterp spec fn url_decoded(s: Seq<char>) -> Seq<char>;

/// Relies on urlencoding::encode: percent-encodes every byte except
/// alphanumerics and `-`, `_`, `.`, `~`, from the input alone.
#[verifier::external_body]
fn url_encode(s: &str) -> (r: String)
    ensures
        r@ == url_encoded(s@),
{
    urlencoding::encode(s).into_owned()
}

/// Relies on urlencoding::decode: percent-decodes from the input alone; a
/// decode error becomes the empty string, as the callers always read it.
#[verifier::external_body]
fn url_decode(s: &str) -> (r: String)
    ensures
        r@ == url_decoded(s@),
{
    match urlencoding::decode(s) {
        Ok(c) => c.into_owned(),
        Err(_) => String::new(),
    }
}

// ----------------------------------------------------------------------------
// Parameter shifting and query tagging
// ----------------------------------------------------------------------------

/// A time parameter shifted by a window offset: parsed as a signed integer
/// and moved, or left untouched when it does not parse or the sum leaves
/// the representable range.
pub open spec fn shifted_time(t: Seq<char>, off: int) -> Seq<char> {
    match parse_i64_spec(t) {
        Some(v) => if i64::MIN <= v + off <= i64::MAX {
            int_str(v + off)
        } else {
            t
        },
        None => t,
    }
}

pub fn shift_param(t: &str, off: i64) -> (r: String)
    ensures
        r@ == shifted_time(t@, off as int),
{
    match parse_i64(t) {
        Some(v) => {
            let no_overflow: bool = if off >= 0 {
                v <= i64::MAX - off
            } else {
                v >= i64::MIN - off
            };
            if no_overflow {
                fmt_i64(v + off)
            } else {
                t.to_owned()
            }
        },
        None => t.to_owned(),
    }
}

/// The query text with a window's timeframe matcher appended.
pub open spec fn tagged_query(q: Seq<char>, tf: Seq<char>) -> Seq<char> {
    q + "{chrono_timeframe=\""@ + tf + "\"}"@
}

pub fn tag_query(q: &str, tf: &str) -> (r: String)
    ensures
        r@ == tagged_query(q@, tf@),
{
    let mut s = q.to_owned();
    s.append("{chrono_timeframe=\"");
    s.append(tf);
    s.append("\"}");
    proof {
        assert(s@ =~= tagged_query(q@, tf@));
    }
    s
}

// ----------------------------------------------------------------------------
// Query strings
// ----------------------------------------------------------------------------

pub open spec fn param_views(ps: Seq<(String, Vec<String>)>) -> Seq<(Seq<char>, Seq<Seq<char>>)> {
    ps.map_values(|p: (String, Vec<String>)| (p.0@, p.1@.map_values(|v: String| v@)))
}

/// One `key=value` item, both sides percent-encoded.
pub open spec fn qs_item(k: Seq<char>, v: Seq<char>) -> Seq<char> {
    url_encoded(k) + seq!['='] + url_encoded(v)
}

pub open spec fn entry_items(k: Seq<char>, vs: Seq<Seq<char>>) -> Seq<Seq<char>> {
    vs.map_values(|v: Seq<char>| qs_item(k, v))
}

/// The items of a parameter list, one per key and value, in order.
pub open spec fn qs_items(es: Seq<(Seq<char>, Seq<Seq<char>>)>) -> Seq<Seq<char>>
    decreases es.len(),
{
    if es.len() == 0 {
        Seq::empty()
    } else {
        qs_items(es.drop_last()) + entry_items(es.last().0, es.last().1)
    }
}

/// Items joined with `&`.
pub open spec fn join_amp(items: Seq<Seq<char>>) -> Seq<char>
    decreases items.len(),
{
    if items.len() == 0 {
        Seq::empty()
    } else if items.len() == 1 {
        items[0]
    } else {
        join_amp(items.drop_last()) + seq!['&'] + items.last()
    }
}

/// Builds the URL query string of a parameter list: every key and value
/// percent-encoded, `key=value` pairs joined with `&`, in list order.
pub fn build_query_string(params: &Vec<(String, Vec<String>)>) -> (r: String)
    ensures
        r@ == join_amp(qs_items(param_views(params@))),
{
    let ghost pv = param_views(params@);
    let mut items: Vec<String> = Vec::new();
    let n = params.len();
    let mut i: usize = 0;
    proof {
        assert(items@.map_values(|s: String| s@) =~= qs_items(pv.take(0)));
    }
    while i < n
        invariant
            i <= n == params@.len(),
            pv == param_views(params@),
            items@.map_values(|s: String| s@) == qs_items(pv.take(i as int)),
        decreases n - i,
    {
        proof {
            assert(pv.take(i as int + 1).drop_last() =~= pv.take(i as int));
            assert(pv.take(i as int + 1).last() == pv[i as int]);
        }
        let key = &params[i].0;
        let vals = &params[i].1;
        let m = vals.len();
        let mut j: usize = 0;
        while j < m
            invariant
                j <= m == params@[i as int].1@.len(),
                i < n == params@.len(),
                pv == param_views(params@),
                items@.map_values(|s: String| s@) == qs_items(pv.take(i as int)) + entry_items(
                    (pv[i as int]).0,
                    (pv[i as int]).1.take(j as int),
                ),
                key == &params@[i as int].0,
                vals == &params@[i as int].1,
            decreases m - j,
        {
            let mut item = url_encode(key.as_str());
            proof {
                reveal_strlit("=");
            }
            item.append("=");
            let enc_v = url_encode(vals[j].as_str());
            item.append(enc_v.as_str());
            let ghost prev = items@.map_values(|s: String| s@);
            let ghost itemv = item@;
            items.push(item);
            proof {
                let cur = items@.map_values(|s: String| s@);
                assert forall|k2: int| 0 <= k2 < cur.len() implies cur[k2] == prev.push(
                    itemv,
                )[k2] by {
                    if k2 < prev.len() {
                        assert(cur[k2] == prev[k2]);
                    }
                }
                assert(cur =~= prev.push(itemv));
                assert(itemv == qs_item((pv[i as int]).0, (pv[i as int]).1[j as int]));
                assert((pv[i as int]).1.take(j as int + 1).drop_last() =~= (
                pv[i as int]).1.take(j as int));
                assert(entry_items((pv[i as int]).0, (pv[i as int]).1.take(j as int + 1)) =~=
                    entry_items((pv[i as int]).0, (pv[i as int]).1.take(j as int)).push(itemv));
                assert(cur =~= qs_items(pv.take(i as int)) + entry_items(
                    (pv[i as int]).0,
                    (pv[i as int]).1.take(j as int + 1),
                ));
            }
            j = j + 1;
        }
        proof {
            assert((pv[i as int]).1.take(m as int) =~= (pv[i as int]).1);
            assert(items@.map_values(|s: String| s@) =~= qs_items(pv.take(i as int + 1)));
        }
        i = i + 1;
    }
    proof {
        assert(pv.take(n as int) =~= pv);
    }
    // Join with `&`.
    let ghost itemvs = items@.map_values(|s: String| s@);
    let total = items.len();
    let mut out = String::new();
    let mut k: usize = 0;
    proof {
        assert(itemvs.take(0) =~= Seq::<Seq<char>>::empty());
        assert(out@ =~= join_amp(itemvs.take(0)));
    }
    while k < total
        invariant
            k <= total == items@.len(),
            itemvs == items@.map_values(|s: String| s@),
            out@ == join_amp(itemvs.take(k as int)),
        decreases total - k,
    {
        proof {
            assert(itemvs.take(k as int + 1).drop_last() =~= itemvs.take(k as int));
            assert(itemvs.take(k as int + 1).last() == itemvs[k as int]);
            reveal_strlit("&");
        }
        if k > 0 {
            out.append("&");
        }
        out.append(items[k].as_str());
        proof {
            if k == 0 {
                assert(out@ =~= join_amp(itemvs.take(1)));
            } else {
                assert(out@ =~= join_amp(itemvs.take(k as int + 1)));
            }
        }
        k = k + 1;
    }
    proof {
        assert(itemvs.take(total as int) =~= itemvs);
    }
    out
}

proof fn lemma_entry_single(k: Seq<char>, v: Seq<char>)
    ensures
        entry_items(k, seq![v]) =~= seq![qs_item(k, v)],
{
}

proof fn lemma_qs_items_one(e0: (Seq<char>, Seq<Seq<char>>))
    ensures
        qs_items(seq![e0]) =~= entry_items(e0.0, e0.1),
{
    let s = seq![e0];
    assert(s.drop_last() =~= Seq::<(Seq<char>, Seq<Seq<char>>)>::empty());
    assert(s.last() == e0);
    assert(qs_items(Seq::<(Seq<char>, Seq<Seq<char>>)>::empty()) =~= Seq::<Seq<char>>::empty());
}

proof fn lemma_qs_items_two(e0: (Seq<char>, Seq<Seq<char>>), e1: (Seq<char>, Seq<Seq<char>>))
    ensures
        qs_items(seq![e0, e1]) =~= entry_items(e0.0, e0.1) + entry_items(e1.0, e1.1),
{
    let s = seq![e0, e1];
    assert(s.drop_last() =~= seq![e0]);
    assert(s.last() == e1);
    lemma_qs_items_one(e0);
}

proof fn lemma_qs_items_four(
    e0: (Seq<char>, Seq<Seq<char>>),
    e1: (Seq<char>, Seq<Seq<char>>),
    e2: (Seq<char>, Seq<Seq<char>>),
    e3: (Seq<char>, Seq<Seq<char>>),
)
    ensures
        qs_items(seq![e0, e1, e2, e3]) =~= entry_items(e0.0, e0.1) + entry_items(e1.0, e1.1)
            + entry_items(e2.0, e2.1) + entry_items(e3.0, e3.1),
{
    let s = seq![e0, e1, e2, e3];
    assert(s.drop_last() =~= seq![e0, e1, e2]);
    assert(s.last() == e3);
    let s3 = seq![e0, e1, e2];
    assert(s3.drop_last() =~= seq![e0, e1]);
    assert(s3.last() == e2);
    lemma_qs_items_two(e0, e1);
    assert(qs_items(s3) =~= entry_items(e0.0, e0.1) + entry_items(e1.0, e1.1) + entry_items(
        e2.0,
        e2.1,
    ));
}

proof fn lemma_join_two(a: Seq<char>, b: Seq<char>)
    ensures
        join_amp(seq![a, b]) =~= a + seq!['&'] + b,
{
    let s = seq![a, b];
    assert(s.drop_last() =~= seq![a]);
    assert(s.last() == b);
    assert(join_amp(seq![a]) == a);
}

proof fn lemma_join_four(a: Seq<char>, b: Seq<char>, c: Seq<char>, d: Seq<char>)
    ensures
        join_amp(seq![a, b, c, d]) =~= a + seq!['&'] + b + seq!['&'] + c + seq!['&'] + d,
{
    let s = seq![a, b, c, d];
    assert(s.drop_last() =~= seq![a, b, c]);
    assert(s.last() == d);
    let s3 = seq![a, b, c];
    assert(s3.drop_last() =~= seq![a, b]);
    assert(s3.last() == c);
    lemma_join_two(a, b);
    assert(join_amp(seq![a, b, c]) =~= a + seq!['&'] + b + seq!['&'] + c);
}

// ----------------------------------------------------------------------------
// Per-window parameter sets
// ----------------------------------------------------------------------------

/// Instant query inputs: the query text and an optional evaluation time.
pub struct QueryParams {
    pub query: String,
    pub time: Option<String>,
}

/// Range query inputs: the query text, the range bounds, and the step,
/// which only passes through.
pub struct QueryRangeParams {
    pub query: String,
    pub start: String,
    pub end: String,
    pub step: String,
}

/// The query string of one instant-query window.
pub open spec fn instant_window_query(
    q: Seq<char>,
    t: Option<Seq<char>>,
    off: int,
    tf: Seq<char>,
) -> Seq<char> {
    let base = qs_item("query"@, tagged_query(q, tf));
    match t {
        Some(tv) => base + seq!['&'] + qs_item("time"@, shifted_time(tv, off)),
        None => base,
    }
}

/// The query string of one range-query window.
pub open spec fn range_window_query(
    q: Seq<char>,
    start: Seq<char>,
    end: Seq<char>,
    step: Seq<char>,
    off: int,
    tf: Seq<char>,
) -> Seq<char> {
    qs_item("query"@, tagged_query(q, tf)) + seq!['&'] + qs_item("start"@, shifted_time(start, off))
        + seq!['&'] + qs_item("end"@, shifted_time(end, off)) + seq!['&'] + qs_item("step"@, step)
}

fn instant_window_string(params: &QueryParams, off: i64, tf: &str) -> (r: String)
    ensures
        r@ == instant_window_query(
            params.query@,
            match params.time {
                Some(ref t) => Some(t@),
                None => None,
            },
            off as int,
            tf@,
        ),
{
    let tagged = tag_query(params.query.as_str(), tf);
    let mut ps: Vec<(String, Vec<String>)> = Vec::new();
    let mut qv: Vec<String> = Vec::new();
    qv.push(tagged);
    ps.push(("query".to_owned(), qv));
    match &params.time {
        Some(t) => {
            let shifted = shift_param(t.as_str(), off);
            let mut tv: Vec<String> = Vec::new();
            tv.push(shifted);
            ps.push(("time".to_owned(), tv));
        },
        None => {},
    }
    let r = build_query_string(&ps);
    proof {
        let pv = param_views(ps@);
        let qitem = qs_item("query"@, tagged_query(params.query@, tf@));
        assert((pv[0]).0 == "query"@);
        assert((pv[0]).1 =~= seq![tagged_query(params.query@, tf@)]);
        lemma_entry_single((pv[0]).0, tagged_query(params.query@, tf@));
        match params.time {
            Some(ref t) => {
                let titem = qs_item("time"@, shifted_time(t@, off as int));
                assert(pv =~= seq![pv[0], pv[1]]);
                assert((pv[1]).0 == "time"@);
                assert((pv[1]).1 =~= seq![shifted_time(t@, off as int)]);
                lemma_entry_single((pv[1]).0, shifted_time(t@, off as int));
                lemma_qs_items_two(pv[0], pv[1]);
                assert(qs_items(pv) =~= seq![qitem, titem]);
                lemma_join_two(qitem, titem);
                assert(r@ =~= qitem + seq!['&'] + titem);
            },
            None => {
                assert(pv =~= seq![pv[0]]);
                lemma_qs_items_one(pv[0]);
                assert(qs_items(pv) =~= seq![qitem]);
                assert(join_amp(seq![qitem]) == qitem);
            },
        }
        assert(r@ =~= instant_window_query(
            params.query@,
            match params.time {
                Some(ref t) => Some(t@),
                None => None,
            },
            off as int,
            tf@,
        ));
    }
    r
}

fn range_window_string(params: &QueryRangeParams, off: i64, tf: &str) -> (r: String)
    ensures
        r@ == range_window_query(
            params.query@,
            params.start@,
            params.end@,
            params.step@,
            off as int,
            tf@,
        ),
{
    let tagged = tag_query(params.query.as_str(), tf);
    let mut ps: Vec<(String, Vec<String>)> = Vec::new();
    let mut qv: Vec<String> = Vec::new();
    qv.push(tagged);
    ps.push(("query".to_owned(), qv));
    let mut sv: Vec<String> = Vec::new();
    sv.push(shift_param(params.start.as_str(), off));
    ps.push(("start".to_owned(), sv));
    let mut ev: Vec<String> = Vec::new();
    ev.push(shift_param(params.end.as_str(), off));
    ps.push(("end".to_owned(), ev));
    let mut pv2: Vec<String> = Vec::new();
    pv2.push(params.step.clone());
    ps.push(("step".to_owned(), pv2));
    let r = build_query_string(&ps);
    proof {
        let pv = param_views(ps@);
        let i0 = qs_item("query"@, tagged_query(params.query@, tf@));
        let i1 = qs_item("start"@, shifted_time(params.start@, off as int));
        let i2 = qs_item("end"@, shifted_time(params.end@, off as int));
        let i3 = qs_item("step"@, params.step@);
        assert(pv =~= seq![pv[0], pv[1], pv[2], pv[3]]);
        assert((pv[0]).0 == "query"@);
        assert((pv[0]).1 =~= seq![tagged_query(params.query@, tf@)]);
        assert((pv[1]).0 == "start"@);
        assert((pv[1]).1 =~= seq![shifted_time(params.start@, off as int)]);
        assert((pv[2]).0 == "end"@);
        assert((pv[2]).1 =~= seq![shifted_time(params.end@, off as int)]);
        assert((pv[3]).0 == "step"@);
        assert((pv[3]).1 =~= seq![params.step@]);
        lemma_entry_single((pv[0]).0, tagged_query(params.query@, tf@));
        lemma_entry_single((pv[1]).0, shifted_time(params.start@, off as int));
        lemma_entry_single((pv[2]).0, shifted_time(params.end@, off as int));
        lemma_entry_single((pv[3]).0, params.step@);
        lemma_qs_items_four(pv[0], pv[1], pv[2], pv[3]);
        assert(qs_items(pv) =~= seq![i0, i1, i2, i3]);
        lemma_join_four(i0, i1, i2, i3);
        assert(r@ =~= range_window_query(
            params.query@,
            params.start@,
            params.end@,
            params.step@,
            off as int,
            tf@,
        ));
    }
    r
}

/// One URL query string per configured window for an instant query, in
/// window order.
pub fn instant_window_queries(proxy: &ChronoProxy, params: &QueryParams) -> (r: Vec<String>)
    ensures
        r@.len() == if proxy.offsets@.len() <= proxy.timeframes@.len() {
            proxy.offsets@.len()
        } else {
            proxy.timeframes@.len()
        },
        forall|k: int|
            0 <= k < r@.len() ==> (#[trigger] r@[k])@ == instant_window_query(
                params.query@,
                match params.time {
                    Some(ref t) => Some(t@),
                    None => None,
                },
                proxy.offsets@[k] as int,
                (proxy.timeframes@[k])@,
            ),
{
    let n = if proxy.offsets.len() <= proxy.timeframes.len() {
        proxy.offsets.len()
    } else {
        proxy.timeframes.len()
    };
    let mut out: Vec<String> = Vec::new();
    let mut k: usize = 0;
    while k < n
        invariant
            k <= n <= proxy.offsets@.len() && n <= proxy.timeframes@.len(),
            out@.len() == k,
            forall|j: int|
                0 <= j < k ==> (#[trigger] out@[j])@ == instant_window_query(
                    params.query@,
                    match params.time {
                        Some(ref t) => Some(t@),
                        None => None,
                    },
                    proxy.offsets@[j] as int,
                    (proxy.timeframes@[j])@,
                ),
        decreases n - k,
    {
        let s = instant_window_string(params, proxy.offsets[k], proxy.timeframes[k].as_str());
        out.push(s);
        k = k + 1;
    }
    out
}

/// One URL query string per configured window for a range query, in window
/// order.
pub fn range_window_queries(proxy: &ChronoProxy, params: &QueryRangeParams) -> (r: Vec<String>)
    ensures
        r@.len() == if proxy.offsets@.len() <= proxy.timeframes@.len() {
            proxy.offsets@.len()
        } else {
            proxy.timeframes@.len()
        },
        forall|k: int|
            0 <= k < r@.len() ==> (#[trigger] r@[k])@ == range_window_query(
                params.query@,
                params.start@,
                params.end@,
                params.step@,
                proxy.offsets@[k] as int,
                (proxy.timeframes@[k])@,
            ),
{
    let n = if proxy.offsets.len() <= proxy.timeframes.len() {
        proxy.offsets.len()
    } else {
        proxy.timeframes.len()
    };
    let mut out: Vec<String> = Vec::new();
    let mut k: usize = 0;
    while k < n
        invariant
            k <= n <= proxy.offsets@.len() && n <= proxy.timeframes@.len(),
            out@.len() == k,
            forall|j: int|
                0 <= j < k ==> (#[trigger] out@[j])@ == range_window_query(
                    params.query@,
                    params.start@,
                    params.end@,
                    params.step@,
                    proxy.offsets@[j] as int,
                    (proxy.timeframes@[j])@,
                ),
        decreases n - k,
    {
        let s = range_window_string(params, proxy.offsets[k], proxy.timeframes[k].as_str());
        out.push(s);
        k = k + 1;
    }
    out
}

// ----------------------------------------------------------------------------
// Parsing raw query strings
// ----------------------------------------------------------------------------

/// The first occurrence of `c` in `s`, or `s.len()` when there is none.
pub open spec fn first_ch(s: Seq<char>, c: char) -> int
    decreases s.len(),
{
    if s.len() == 0 {
        0
    } else if s[0] == c {
        0
    } else {
        1 + first_ch(s.drop_first(), c)
    }
}

proof fn lemma_first_ch(s: Seq<char>, c: char)
    ensures
        0 <= first_ch(s, c) <= s.len(),
        forall|i: int| 0 <= i < first_ch(s, c) ==> s[i] != c,
        first_ch(s, c) < s.len() ==> s[first_ch(s, c)] == c,
    decreases s.len(),
{
    if s.len() > 0 && s[0] != c {
        lemma_first_ch(s.drop_first(), c);
        assert forall|i: int| 0 <= i < first_ch(s, c) implies s[i] != c by {
            if i > 0 {
                assert(s.drop_first()[i - 1] == s[i]);
            }
        }
        if first_ch(s, c) < s.len() {
            assert(s.drop_first()[first_ch(s, c) - 1] == s[first_ch(s, c)]);
        }
    }
}

proof fn lemma_first_ch_at(s: Seq<char>, c: char, m: int)
    requires
        0 <= m <= s.len(),
        forall|i: int| 0 <= i < m ==> s[i] != c,
        m == s.len() || s[m] == c,
    ensures
        first_ch(s, c) == m,
    decreases s.len(),
{
    if s.len() > 0 && s[0] != c {
        lemma_first_ch_at(s.drop_first(), c, m - 1);
    }
}

/// `s` split on `c`, empty fragments kept, as the standard splitter leaves
/// them.
pub open spec fn split_on(s: Seq<char>, c: char) -> Seq<Seq<char>>
    decreases s.len(),
    via split_on_decreases
{
    let k = first_ch(s, c);
    if k == s.len() {
        seq![s]
    } else {
        seq![s.take(k)] + split_on(s.skip(k + 1), c)
    }
}

#[via_fn]
proof fn split_on_decreases(s: Seq<char>, c: char) {
    lemma_first_ch(s, c);
}

fn find_char(s: &str, c: char) -> (r: usize)
    ensures
        r == first_ch(s@, c),
        r <= s@.len(),
{
    let n = s.unicode_len();
    let mut i: usize = 0;
    while i < n
        invariant
            i <= n == s@.len(),
            forall|j: int| 0 <= j < i ==> s@[j] != c,
        decreases n - i,
    {
        if s.get_char(i) == c {
            proof {
                lemma_first_ch_at(s@, c, i as int);
            }
            return i;
        }
        i = i + 1;
    }
    proof {
        lemma_first_ch_at(s@, c, n as int);
    }
    n
}

fn split_char(s: &str, c: char) -> (r: Vec<String>)
    ensures
        r@.map_values(|x: String| x@) == split_on(s@, c),
    decreases s@.len(),
{
    let n = s.unicode_len();
    let k = find_char(s, c);
    proof {
        lemma_first_ch(s@, c);
    }
    if k >= n {
        let mut out: Vec<String> = Vec::new();
        out.push(s.to_owned());
        proof {
            assert(s@.take(n as int) =~= s@);
            assert(out@.map_values(|x: String| x@) =~= split_on(s@, c));
        }
        out
    } else {
        let head = s.substring_char(0, k).to_owned();
        let tail = s.substring_char(k + 1, n);
        proof {
            assert(tail@ =~= s@.skip(k + 1));
        }
        let rest = split_char(tail, c);
        let mut out: Vec<String> = Vec::new();
        out.push(head);
        let mut more = rest;
        out.append(&mut more);
        proof {
            assert(head@ == s@.take(k as int));
            assert(out@.map_values(|x: String| x@) =~= split_on(s@, c));
        }
        out
    }
}

/// The entry one `&`-fragment contributes: nothing when it is empty or has
/// no `=`; otherwise the decoded key and the decoded `,`-separated values.
pub open spec fn piece_entry(p: Seq<char>) -> Option<(Seq<char>, Seq<Seq<char>>)> {
    if p.len() == 0 {
        None
    } else {
        let k = first_ch(p, '=');
        if k == p.len() {
            None
        } else {
            Some(
                (
                    url_decoded(p.take(k)),
                    split_on(p.skip(k + 1), ',').map_values(|v: Seq<char>| url_decoded(v)),
                ),
            )
        }
    }
}

/// The parameter list a raw query string denotes: one entry per decoded
/// key, later fragments overriding earlier ones with the same key,
/// first-appearance order kept.
pub open spec fn parsed_entries(pieces: Seq<Seq<char>>) -> Seq<(Seq<char>, Seq<Seq<char>>)>
    decreases pieces.len(),
{
    if pieces.len() == 0 {
        Seq::empty()
    } else {
        let prev = parsed_entries(pieces.drop_last());
        match piece_entry(pieces.last()) {
            Some(e) => {
                if crate::signature::has_key(prev, e.0) {
                    prev.update(crate::signature::key_index(prev, e.0), e)
                } else {
                    prev.push(e)
                }
            },
            None => prev,
        }
    }
}

fn parse_piece(p: &str) -> (r: Option<(String, Vec<String>)>)
    ensures
        r matches Some(e) ==> piece_entry(p@) matches Some(pe) && e.0@ == pe.0
            && e.1@.map_values(|v: String| v@) == pe.1,
        r is None ==> piece_entry(p@) is None,
{
    let n = p.unicode_len();
    if n == 0 {
        return None;
    }
    let k = find_char(p, '=');
    if k >= n {
        return None;
    }
    let key = url_decode(p.substring_char(0, k));
    let value = p.substring_char(k + 1, n);
    proof {
        assert(value@ =~= p@.skip(k + 1));
    }
    let parts = split_char(value, ',');
    let m = parts.len();
    let mut vs: Vec<String> = Vec::new();
    let mut j: usize = 0;
    while j < m
        invariant
            j <= m == parts@.len(),
            vs@.len() == j,
            forall|i: int|
                0 <= i < j ==> (#[trigger] vs@[i])@ == url_decoded(parts@[i]@),
        decreases m - j,
    {
        let d = url_decode(parts[j].as_str());
        vs.push(d);
        j = j + 1;
    }
    proof {
        let goal = split_on(p@.skip(k + 1), ',').map_values(|v: Seq<char>| url_decoded(v));
        let pieces = parts@.map_values(|x: String| x@);
        assert forall|i: int|
            0 <= i < m implies (vs@.map_values(|v: String| v@))[i] == goal[i] by {
            assert(pieces[i] == parts@[i]@);
            assert(goal[i] == url_decoded(pieces[i]));
        }
        assert(vs@.map_values(|v: String| v@) =~= goal);
        assert(key@ == url_decoded(p@.take(k as int)));
    }
    Some((key, vs))
}

/// Splits a raw URL query string into its parameter list: `&`-separated
/// fragments, `key=value` with the value further split on `,`, both sides
/// percent-decoded; fragments without `=` contribute nothing, and a
/// repeated key keeps only its last values.
pub fn parse_params(query_string: &str) -> (r: Vec<(String, Vec<String>)>)
    ensures
        param_views(r@) == parsed_entries(split_on(query_string@, '&')),
{
    let pieces = split_char(query_string, '&');
    let ghost pv = pieces@.map_values(|x: String| x@);
    let n = pieces.len();
    let mut out: Vec<(String, Vec<String>)> = Vec::new();
    let mut i: usize = 0;
    proof {
        assert(param_views(out@) =~= parsed_entries(pv.take(0)));
    }
    while i < n
        invariant
            i <= n == pieces@.len(),
            pv == pieces@.map_values(|x: String| x@),
            param_views(out@) == parsed_entries(pv.take(i as int)),
            crate::model::distinct_keys(param_views(out@)),
        decreases n - i,
    {
        let ghost prev = parsed_entries(pv.take(i as int));
        proof {
            assert(pv.take(i as int + 1).drop_last() =~= pv.take(i as int));
            assert(pv.take(i as int + 1).last() == pv[i as int]);
            assert(pv[i as int] == pieces@[i as int]@);
        }
        match parse_piece(pieces[i].as_str()) {
            Some((key, vals)) => {
                // Last write wins: replace an entry that already holds the key.
                let mut found: Option<usize> = None;
                let olen = out.len();
                let mut j: usize = 0;
                while j < olen
                    invariant
                        j <= olen == out@.len(),
                        found is None ==> forall|c: int|
                            0 <= c < j ==> (#[trigger] param_views(out@)[c]).0 != key@,
                        found matches Some(f) ==> f < out@.len() && (param_views(
                            out@,
                        )[f as int]).0 == key@,
                    decreases olen - j,
                {
                    if found.is_none() && crate::model::str_eq(out[j].0.as_str(), key.as_str()) {
                        proof {
                            assert((param_views(out@)[j as int]).0 == key@);
                        }
                        found = Some(j);
                    }
                    j = j + 1;
                }
                let ghost e = (key@, vals@.map_values(|v: String| v@));
                match found {
                    Some(f) => {
                        proof {
                            assert(crate::signature::has_key(prev, e.0));
                            let c = crate::signature::key_index(prev, e.0);
                            assert(0 <= c < prev.len() && (prev[c]).0 == e.0);
                            assert(c == f as int);
                            crate::model::lemma_assoc_update(prev, f as int, e);
                        }
                        out.set(f, (key, vals));
                        proof {
                            assert(param_views(out@) =~= prev.update(f as int, e));
                            assert(param_views(out@) =~= parsed_entries(pv.take(i as int + 1)));
                        }
                    },
                    None => {
                        proof {
                            assert forall|c: int|
                                0 <= c < prev.len() implies (#[trigger] prev[c]).0 != e.0 by {
                                assert((param_views(out@)[c]).0 != key@);
                            }
                            assert(!crate::signature::has_key(prev, e.0));
                        }
                        out.push((key, vals));
                        proof {
                            assert(param_views(out@) =~= prev.push(e));
                            assert(param_views(out@) =~= parsed_entries(pv.take(i as int + 1)));
                            assert(param_views(out@).drop_last() =~= prev);
                            assert forall|p2: int, q2: int|
                                0 <= p2 < q2 < param_views(out@).len() implies (
                            #[trigger] param_views(out@)[p2]).0 != (#[trigger] param_views(
                                out@,
                            )[q2]).0 by {
                                if q2 < prev.len() {
                                    assert((prev[p2]).0 != (prev[q2]).0);
                                } else {
                                    assert((param_views(out@)[p2]).0 == (prev[p2]).0);
                                }
                            }
                        }
                    },
                }
            },
            None => {
                proof {
                    assert(param_views(out@) =~= parsed_entries(pv.take(i as int + 1)));
                }
            },
        }
        i = i + 1;
    }
    proof {
        assert(pv.take(n as int) =~= pv);
    }
    out
}

} // verus!
