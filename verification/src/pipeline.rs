//! Result assembly: the whole per-request transformation after the fetch.
//!
//! The fetched series pass through the average builder, the signature
//! indexer, the command-selected derived builders, the timeframe filter and
//! the deduplicator, in that order, and are finally wrapped in the
//! upstream-compatible envelope.

use vstd::prelude::*;
use crate::builders::{
    append_compare, append_percent, append_with_command, avg_of, build_last_month_average,
    cmd_compare, cmd_percent, derived_join,
};
use crate::filtering::{dedup_views, dedupe_series, filter_by_timeframe, tf_filter};
use crate::model::{PrometheusData, PrometheusResponse, Series, SeriesView};
use crate::signature::{
    all_shaped, all_wf, index_by_signature, index_entries, index_map, lemma_table_shaped, views_of,
};

verus! {

/// The merged result before filtering: raw series, then either the plain
/// averages (no command), one derived series per joined signature (a
/// recognized command), or nothing more (an unknown command).
pub open spec fn assembled(cur: Seq<SeriesView>, cmd: Seq<char>, is_range: bool) -> Seq<
    SeriesView,
> {
    let avg = cur.map_values(|sv: SeriesView| avg_of(sv, is_range));
    let centries = index_entries(cur);
    let amap = index_map(avg);
    let s1 = if cmd.len() == 0 {
        cur + avg
    } else {
        cur
    };
    let s2 = s1 + if cmd == cmd_compare() {
        derived_join(centries, amap, false, is_range)
    } else {
        Seq::<SeriesView>::empty()
    };
    s2 + if cmd == cmd_percent() {
        derived_join(centries, amap, true, is_range)
    } else {
        Seq::<SeriesView>::empty()
    }
}

/// The whole transformation: assembly, then the timeframe filter when a
/// selector was given, then duplicate removal.
pub open spec fn merge_spec(
    cur: Seq<SeriesView>,
    tf: Seq<char>,
    cmd: Seq<char>,
    is_range: bool,
) -> Seq<SeriesView> {
    let s3 = assembled(cur, cmd, is_range);
    let s4 = if tf.len() > 0 {
        tf_filter(s3, tf)
    } else {
        s3
    };
    dedup_views(s4)
}

/// An empty timeframe selector skips the filter: the assembly goes to the
/// deduplicator untouched.
pub proof fn lemma_empty_selector_no_filter(cur: Seq<SeriesView>, cmd: Seq<char>, is_range: bool)
    ensures
        merge_spec(cur, Seq::empty(), cmd, is_range) == dedup_views(assembled(cur, cmd, is_range)),
{
}

/// Runs the fetched series through the average builder, the signature
/// tables, the command-selected builders, the optional timeframe filter and
/// the deduplicator.
pub fn merge_windowed_series(
    current: Vec<Series>,
    timeframe: &str,
    command: &str,
    is_range: bool,
) -> (r: Vec<Series>)
    requires
        all_wf(current@),
        all_shaped(current@, is_range),
    ensures
        views_of(r@) == merge_spec(views_of(current@), timeframe@, command@, is_range),
        all_wf(r@),
        all_shaped(r@, is_range),
{
    let ghost cv = views_of(current@);
    let avg = build_last_month_average(&current, is_range);
    proof {
        assert(views_of(avg@) =~= cv.map_values(|sv: SeriesView| avg_of(sv, is_range)));
    }
    let (cmap, amap) = index_by_signature(&current, &avg);
    proof {
        lemma_table_shaped(cmap, current@, is_range);
        lemma_table_shaped(amap, avg@, is_range);
    }
    let mut out = append_with_command(current, avg, command);
    out = append_compare(out, &cmap, &amap, command, is_range);
    out = append_percent(out, &cmap, &amap, command, is_range);
    if !timeframe.is_empty() {
        out = filter_by_timeframe(out, timeframe);
    }
    let r = dedupe_series(out);
    proof {
        assert(views_of(r@) == merge_spec(cv, timeframe@, command@, is_range));
    }
    r
}

// ----------------------------------------------------------------------------
// Envelopes
// ----------------------------------------------------------------------------

/// The failure envelope: status, error kind, and the message as it came.
pub struct ErrorEnvelope {
    pub status: String,
    pub error_type: String,
    pub error: String,
}

/// The success envelope around a merged result: instant queries answer a
/// vector, range queries a matrix.
pub fn success_envelope(result: Vec<Series>, is_range: bool) -> (r: PrometheusResponse<Series>)
    ensures
        r.status@ == "success"@,
        r.data.result_type@ == if is_range {
            "matrix"@
        } else {
            "vector"@
        },
        r.data.result == result,
{
    let result_type: String = if is_range {
        "matrix".to_owned()
    } else {
        "vector".to_owned()
    };
    PrometheusResponse {
        status: "success".to_owned(),
        data: PrometheusData { result_type, result },
    }
}

/// The failure envelope: every error, upstream or internal, reaches the
/// client as an execution error with its message preserved.
pub fn error_envelope(message: String) -> (r: ErrorEnvelope)
    ensures
        r.status@ == "error"@,
        r.error_type@ == "execution"@,
        r.error == message,
{
    ErrorEnvelope {
        status: "error".to_owned(),
        error_type: "execution".to_owned(),
        error: message,
    }
}

} // verus!
