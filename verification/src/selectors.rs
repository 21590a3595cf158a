//! Selector extraction from the raw query text.
//!
//! A client may embed two directives in its query: a timeframe selector
//! (`chrono_timeframe="…"`) and a command selector (`_command="…"`). Either
//! may stand anywhere in the text among other matchers. Extraction takes the
//! leftmost occurrence of the pattern followed by at least one non-quote
//! character and a closing quote; absence, or malformed syntax, yields the
//! empty string and never an error.

use vstd::prelude::*;

verus! {

/// Whether `pat` occurs in `s` starting at `i`.
pub open spec fn match_at(s: Seq<char>, pat: Seq<char>, i: int) -> bool {
    0 <= i && i + pat.len() <= s.len() && s.subrange(i, i + pat.len()) == pat
}

/// A selector match at `i`: the pattern, then a non-quote character, then a
/// closing quote further right.
pub open spec fn sel_match_at(s: Seq<char>, pat: Seq<char>, i: int) -> bool {
    &&& match_at(s, pat, i)
    &&& i + pat.len() < s.len()
    &&& s[i + pat.len()] != '"'
    &&& exists|q: int| i + pat.len() < q < s.len() && s[q] == '"'
}

/// The leftmost selector match at or after `i`, or `s.len()` when none.
pub open spec fn first_sel_from(s: Seq<char>, pat: Seq<char>, i: int) -> int
    decreases s.len() - i when 0 <= i <= s.len()
{
    if i >= s.len() {
        s.len() as int
    } else if sel_match_at(s, pat, i) {
        i
    } else {
        first_sel_from(s, pat, i + 1)
    }
}

/// The first quote at or after `i`, or `s.len()` when none.
pub open spec fn first_quote_from(s: Seq<char>, i: int) -> int
    decreases s.len() - i when 0 <= i <= s.len()
{
    if i >= s.len() {
        s.len() as int
    } else if s[i] == '"' {
        i
    } else {
        first_quote_from(s, i + 1)
    }
}

/// The text a selector pattern captures: from the end of the leftmost match
/// to the next quote; empty when the pattern never matches.
pub open spec fn sel_value(s: Seq<char>, pat: Seq<char>) -> Seq<char> {
    let i = first_sel_from(s, pat, 0);
    if i < s.len() {
        s.subrange(i + pat.len(), first_quote_from(s, i + pat.len()))
    } else {
        Seq::empty()
    }
}

proof fn lemma_first_sel_at(s: Seq<char>, pat: Seq<char>, i: int, m: int)
    requires
        0 <= i <= m <= s.len(),
        forall|j: int| i <= j < m ==> !sel_match_at(s, pat, j),
        m == s.len() || sel_match_at(s, pat, m),
    ensures
        first_sel_from(s, pat, i) == m,
    decreases m - i,
{
    if i < m {
        lemma_first_sel_at(s, pat, i + 1, m);
    }
}

proof fn lemma_first_quote_at(s: Seq<char>, i: int, m: int)
    requires
        0 <= i <= m <= s.len(),
        forall|j: int| i <= j < m ==> s[j] != '"',
        m == s.len() || s[m] == '"',
    ensures
        first_quote_from(s, i) == m,
    decreases m - i,
{
    if i < m {
        lemma_first_quote_at(s, i + 1, m);
    }
}

/// Whether `pat` stands in `s` at position `i`, character for character.
fn str_match_at(s: &str, pat: &str, i: usize, n: usize, plen: usize) -> (r: bool)
    requires
        n == s@.len(),
        plen == pat@.len(),
        i <= n,
    ensures
        r == match_at(s@, pat@, i as int),
{
    if plen > n - i {
        return false;
    }
    let mut k: usize = 0;
    while k < plen
        invariant
            k <= plen == pat@.len(),
            i + plen <= n == s@.len(),
            forall|j: int| 0 <= j < k ==> s@[i + j] == pat@[j],
        decreases plen - k,
    {
        if s.get_char(i + k) != pat.get_char(k) {
            proof {
                let sub = s@.subrange(i as int, i as int + plen);
                assert(sub[k as int] == s@[i + k]);
                assert(sub[k as int] != pat@[k as int]);
            }
            return false;
        }
        k = k + 1;
    }
    proof {
        assert(s@.subrange(i as int, i as int + plen) =~= pat@);
    }
    true
}

/// The first quote at or after `from`.
fn find_quote(s: &str, from: usize, n: usize) -> (r: usize)
    requires
        n == s@.len(),
        from <= n,
    ensures
        r == first_quote_from(s@, from as int),
        from <= r <= n,
        r < n ==> s@[r as int] == '"',
        forall|k: int| from <= k < r ==> s@[k] != '"',
{
    let mut j = from;
    while j < n
        invariant
            from <= j <= n == s@.len(),
            forall|k: int| from <= k < j ==> s@[k] != '"',
        decreases n - j,
    {
        if s.get_char(j) == '"' {
            proof {
                lemma_first_quote_at(s@, from as int, j as int);
            }
            return j;
        }
        j = j + 1;
    }
    proof {
        lemma_first_quote_at(s@, from as int, n as int);
    }
    n
}

/// The value the pattern captures in the query, the empty string when it
/// captures nothing.
fn extract_selector(query: &str, pat: &str) -> (r: String)
    ensures
        r@ == sel_value(query@, pat@),
{
    let n = query.unicode_len();
    let plen = pat.unicode_len();
    let mut i: usize = 0;
    while i < n
        invariant
            i <= n == query@.len(),
            plen == pat@.len(),
            forall|j: int| 0 <= j < i ==> !sel_match_at(query@, pat@, j),
        decreases n - i,
    {
        if str_match_at(query, pat, i, n, plen) {
            let cap_start = i + plen;
            if cap_start < n {
                let c0 = query.get_char(cap_start);
                if c0 != '"' {
                    let q = find_quote(query, cap_start, n);
                    if q < n {
                        proof {
                            assert(cap_start < q) by {
                                assert(query@[cap_start as int] != '"');
                            }
                            assert(sel_match_at(query@, pat@, i as int));
                            lemma_first_sel_at(query@, pat@, 0, i as int);
                        }
                        let v = query.substring_char(cap_start, q);
                        return v.to_owned();
                    }
                    proof {
                        assert forall|qq: int| cap_start < qq < n implies query@[qq] != '"' by {
                            assert(query@[qq] != '"');
                        }
                        assert(!sel_match_at(query@, pat@, i as int));
                    }
                } else {
                    proof {
                        assert(!sel_match_at(query@, pat@, i as int));
                    }
                }
            } else {
                proof {
                    assert(!sel_match_at(query@, pat@, i as int));
                }
            }
        } else {
            proof {
                assert(!sel_match_at(query@, pat@, i as int));
            }
        }
        i = i + 1;
    }
    proof {
        lemma_first_sel_at(query@, pat@, 0, n as int);
    }
    String::new()
}

proof fn lemma_first_quote_bounds(s: Seq<char>, i: int)
    requires
        0 <= i <= s.len(),
    ensures
        i <= first_quote_from(s, i) <= s.len(),
    decreases s.len() - i,
{
    if i < s.len() && s[i] != '"' {
        lemma_first_quote_bounds(s, i + 1);
    }
}

// ----------------------------------------------------------------------------
// Stripping label matchers
// ----------------------------------------------------------------------------

/// A `label="…"` matcher at `i`: the label, `="`, any run of non-quote
/// characters, and the closing quote.
pub open spec fn matcher_core_at(s: Seq<char>, lab: Seq<char>, i: int) -> bool {
    match_at(s, lab + seq!['=', '"'], i) && first_quote_from(s, i + lab.len() + 2) < s.len()
}

/// One past the matcher's closing quote.
pub open spec fn matcher_core_end(s: Seq<char>, lab: Seq<char>, i: int) -> int {
    first_quote_from(s, i + lab.len() + 2) + 1
}

/// A strippable occurrence: the matcher, swallowing one leading comma when
/// there is one.
pub open spec fn strip_match_at(s: Seq<char>, lab: Seq<char>, i: int) -> bool {
    (0 <= i < s.len() && s[i] == ',' && matcher_core_at(s, lab, i + 1)) || matcher_core_at(
        s,
        lab,
        i,
    )
}

pub open spec fn strip_match_end(s: Seq<char>, lab: Seq<char>, i: int) -> int {
    if 0 <= i < s.len() && s[i] == ',' && matcher_core_at(s, lab, i + 1) {
        matcher_core_end(s, lab, i + 1)
    } else {
        matcher_core_end(s, lab, i)
    }
}

/// The leftmost strippable occurrence at or after `i`, or `s.len()`.
pub open spec fn first_strip(s: Seq<char>, lab: Seq<char>, i: int) -> int
    decreases s.len() - i when 0 <= i <= s.len()
{
    if i >= s.len() {
        s.len() as int
    } else if strip_match_at(s, lab, i) {
        i
    } else {
        first_strip(s, lab, i + 1)
    }
}

proof fn lemma_first_strip_at(s: Seq<char>, lab: Seq<char>, i: int, m: int)
    requires
        0 <= i <= m <= s.len(),
        forall|j: int| i <= j < m ==> !strip_match_at(s, lab, j),
        m == s.len() || strip_match_at(s, lab, m),
    ensures
        first_strip(s, lab, i) == m,
    decreases m - i,
{
    if i < m {
        lemma_first_strip_at(s, lab, i + 1, m);
    }
}

proof fn lemma_strip_end_bounds(s: Seq<char>, lab: Seq<char>, i: int)
    requires
        0 <= i <= s.len(),
        strip_match_at(s, lab, i),
    ensures
        i < strip_match_end(s, lab, i) <= s.len(),
{
    if 0 <= i < s.len() && s[i] == ',' && matcher_core_at(s, lab, i + 1) {
        lemma_first_quote_bounds(s, i + 1 + lab.len() + 2);
    } else {
        lemma_first_quote_bounds(s, i + lab.len() + 2);
    }
}

/// The text with every `label="…"` matcher removed, a leading comma going
/// with each, scanning left to right without overlap.
pub open spec fn strip_matchers(s: Seq<char>, lab: Seq<char>) -> Seq<char>
    decreases s.len(),
    via strip_matchers_decreases
{
    let p = first_strip(s, lab, 0);
    if p >= s.len() {
        s
    } else {
        s.take(p) + strip_matchers(s.skip(strip_match_end(s, lab, p)), lab)
    }
}

#[via_fn]
proof fn strip_matchers_decreases(s: Seq<char>, lab: Seq<char>) {
    lemma_first_strip_at_bounds(s, lab);
    let p = first_strip(s, lab, 0);
    if p < s.len() {
        lemma_strip_end_bounds(s, lab, p);
    }
}

proof fn lemma_first_strip_at_bounds(s: Seq<char>, lab: Seq<char>)
    ensures
        0 <= first_strip(s, lab, 0) <= s.len(),
        first_strip(s, lab, 0) < s.len() ==> strip_match_at(s, lab, first_strip(s, lab, 0)),
{
    lemma_first_strip_props(s, lab, 0);
}

proof fn lemma_first_strip_props(s: Seq<char>, lab: Seq<char>, i: int)
    requires
        0 <= i <= s.len(),
    ensures
        i <= first_strip(s, lab, i) <= s.len(),
        first_strip(s, lab, i) < s.len() ==> strip_match_at(s, lab, first_strip(s, lab, i)),
    decreases s.len() - i,
{
    if i < s.len() && !strip_match_at(s, lab, i) {
        lemma_first_strip_props(s, lab, i + 1);
    }
}

/// Tests for the matcher at one position; `Some` carries its end.
fn matcher_core_here(s: &str, lab: &str, i: usize, n: usize) -> (r: Option<usize>)
    requires
        n == s@.len(),
        i <= n,
    ensures
        r matches Some(e) ==> matcher_core_at(s@, lab@, i as int) && e == matcher_core_end(
            s@,
            lab@,
            i as int,
        ) && i < e <= n,
        r is None ==> !matcher_core_at(s@, lab@, i as int),
{
    let mut pat = lab.to_owned();
    pat.append("=\"");
    proof {
        reveal_strlit("=\"");
        assert(pat@ =~= lab@ + seq!['=', '"']);
    }
    let plen = pat.unicode_len();
    if !str_match_at(s, pat.as_str(), i, n, plen) {
        return None;
    }
    let q = find_quote(s, i + plen, n);
    proof {
        lemma_first_quote_bounds(s@, i + plen);
    }
    if q < n {
        Some(q + 1)
    } else {
        None
    }
}

/// The matcher-removal pass, scanning left to right.
fn strip_matchers_exec(s: &str, lab: &str) -> (r: String)
    ensures
        r@ == strip_matchers(s@, lab@),
    decreases s@.len(),
{
    let n = s.unicode_len();
    let mut i: usize = 0;
    while i < n
        invariant
            i <= n == s@.len(),
            forall|j: int| 0 <= j < i ==> !strip_match_at(s@, lab@, j),
        decreases n - i,
    {
        let comma_form: Option<usize> = if s.get_char(i) == ',' {
            matcher_core_here(s, lab, i + 1, n)
        } else {
            None
        };
        let hit: Option<usize> = match comma_form {
            Some(e) => Some(e),
            None => matcher_core_here(s, lab, i, n),
        };
        match hit {
            Some(e) => {
                proof {
                    assert(strip_match_at(s@, lab@, i as int));
                    assert(e == strip_match_end(s@, lab@, i as int));
                    lemma_first_strip_at(s@, lab@, 0, i as int);
                    lemma_strip_end_bounds(s@, lab@, i as int);
                }
                let head = s.substring_char(0, i);
                let tail = s.substring_char(e, n);
                proof {
                    assert(tail@ =~= s@.skip(e as int));
                }
                let rest = strip_matchers_exec(tail, lab);
                let mut out = head.to_owned();
                out.append(rest.as_str());
                proof {
                    assert(out@ =~= strip_matchers(s@, lab@));
                }
                return out;
            },
            None => {},
        }
        i = i + 1;
    }
    proof {
        lemma_first_strip_at(s@, lab@, 0, n as int);
    }
    s.to_owned()
}


// ----------------------------------------------------------------------------
// Smoothing the seams a removal leaves
// ----------------------------------------------------------------------------

/// The leftmost occurrence of `pat` at or after `i`, or `s.len()`.
pub open spec fn first_occ(s: Seq<char>, pat: Seq<char>, i: int) -> int
    decreases s.len() - i when 0 <= i <= s.len()
{
    if i >= s.len() {
        s.len() as int
    } else if match_at(s, pat, i) {
        i
    } else {
        first_occ(s, pat, i + 1)
    }
}

proof fn lemma_first_occ_at(s: Seq<char>, pat: Seq<char>, i: int, m: int)
    requires
        0 <= i <= m <= s.len(),
        forall|j: int| i <= j < m ==> !match_at(s, pat, j),
        m == s.len() || match_at(s, pat, m),
    ensures
        first_occ(s, pat, i) == m,
    decreases m - i,
{
    if i < m {
        lemma_first_occ_at(s, pat, i + 1, m);
    }
}

proof fn lemma_first_occ_props(s: Seq<char>, pat: Seq<char>, i: int)
    requires
        0 <= i <= s.len(),
    ensures
        i <= first_occ(s, pat, i) <= s.len(),
        first_occ(s, pat, i) < s.len() ==> match_at(s, pat, first_occ(s, pat, i)),
    decreases s.len() - i,
{
    if i < s.len() && !match_at(s, pat, i) {
        lemma_first_occ_props(s, pat, i + 1);
    }
}

/// Every occurrence of `pat` replaced by `rep`, scanning left to right
/// without overlap, as the standard string replacement does.
pub open spec fn replace_all(s: Seq<char>, pat: Seq<char>, rep: Seq<char>) -> Seq<char>
    decreases s.len() when pat.len() > 0
    via replace_all_decreases
{
    let p = first_occ(s, pat, 0);
    if p >= s.len() {
        s
    } else {
        s.take(p) + rep + replace_all(s.skip(p + pat.len()), pat, rep)
    }
}

#[via_fn]
proof fn replace_all_decreases(s: Seq<char>, pat: Seq<char>, rep: Seq<char>) {
    lemma_first_occ_props(s, pat, 0);
}

fn replace_all_exec(s: &str, pat: &str, rep: &str) -> (r: String)
    requires
        pat@.len() > 0,
    ensures
        r@ == replace_all(s@, pat@, rep@),
    decreases s@.len(),
{
    let n = s.unicode_len();
    let plen = pat.unicode_len();
    let mut i: usize = 0;
    while i < n
        invariant
            i <= n == s@.len(),
            plen == pat@.len() > 0,
            forall|j: int| 0 <= j < i ==> !match_at(s@, pat@, j),
        decreases n - i,
    {
        if str_match_at(s, pat, i, n, plen) {
            proof {
                lemma_first_occ_at(s@, pat@, 0, i as int);
            }
            let head = s.substring_char(0, i);
            let tail = s.substring_char(i + plen, n);
            proof {
                assert(tail@ =~= s@.skip(i + plen));
            }
            let rest = replace_all_exec(tail, pat, rep);
            let mut out = head.to_owned();
            out.append(rep);
            out.append(rest.as_str());
            proof {
                assert(out@ =~= replace_all(s@, pat@, rep@));
            }
            return out;
        }
        i = i + 1;
    }
    proof {
        lemma_first_occ_at(s@, pat@, 0, n as int);
    }
    s.to_owned()
}

/// The seams a removal can leave, smoothed in the order the pipeline
/// applies: doubled commas, a comma after an opening brace, a comma before
/// a closing brace.
pub open spec fn smoothed(s: Seq<char>) -> Seq<char> {
    replace_all(replace_all(replace_all(s, ",,"@, ","@), "{,"@, "{"@), ",}"@, "}"@)
}

fn smooth_seams(s: &str) -> (r: String)
    ensures
        r@ == smoothed(s@),
{
    proof {
        reveal_strlit(",,");
        reveal_strlit(",");
        reveal_strlit("{,");
        reveal_strlit("{");
        reveal_strlit(",}");
        reveal_strlit("}");
    }
    let a = replace_all_exec(s, ",,", ",");
    let b = replace_all_exec(a.as_str(), "{,", "{");
    replace_all_exec(b.as_str(), ",}", "}")
}

/// What stripping a label does to one parameter value.
pub open spec fn stripped_value(s: Seq<char>, lab: Seq<char>) -> Seq<char> {
    smoothed(strip_matchers(s, lab))
}

/// Removes every `label="…"` matcher from the values under `key`, then
/// smooths the comma seams the removals leave; other parameters stay as
/// they were.
pub fn strip_label(params: &mut Vec<(String, Vec<String>)>, key: &str, label: &str)
    ensures
        final(params)@.len() == old(params)@.len(),
        forall|j: int|
            0 <= j < old(params)@.len() && (#[trigger] old(params)@[j]).0@ != key@
                ==> final(params)@[j] == old(params)@[j],
        forall|j: int|
            0 <= j < old(params)@.len() && (#[trigger] old(params)@[j]).0@ == key@
                ==> (final(params)@[j]).0@ == key@ && (final(params)@[j]).1@.map_values(
                |v: String| v@,
            ) == old(params)@[j].1@.map_values(|v: String| v@).map_values(
                |v: Seq<char>| stripped_value(v, label@),
            ),
{
    let n = params.len();
    let mut i: usize = 0;
    while i < n
        invariant
            i <= n == params@.len(),
            params@.len() == old(params)@.len(),
            forall|j: int| i <= j < n ==> params@[j] == old(params)@[j],
            forall|j: int|
                0 <= j < i && (#[trigger] old(params)@[j]).0@ != key@ ==> params@[j] == old(
                    params,
                )@[j],
            forall|j: int|
                0 <= j < i && (#[trigger] old(params)@[j]).0@ == key@ ==> (params@[j]).0@ == key@
                    && (params@[j]).1@.map_values(|v: String| v@) == old(
                    params,
                )@[j].1@.map_values(|v: String| v@).map_values(
                    |v: Seq<char>| stripped_value(v, label@),
                ),
        decreases n - i,
    {
        if crate::model::str_eq(params[i].0.as_str(), key) {
            let vlen = params[i].1.len();
            let mut new_vals: Vec<String> = Vec::new();
            let mut j: usize = 0;
            while j < vlen
                invariant
                    j <= vlen,
                    i < params@.len(),
                    params@[i as int] == old(params)@[i as int],
                    vlen == (params@[i as int]).1@.len(),
                    new_vals@.len() == j,
                    forall|k: int|
                        0 <= k < j ==> (#[trigger] new_vals@[k])@ == stripped_value(
                            ((params@[i as int]).1@[k])@,
                            label@,
                        ),
                decreases vlen - j,
            {
                let m = strip_matchers_exec(params[i].1[j].as_str(), label);
                let v = smooth_seams(m.as_str());
                new_vals.push(v);
                j = j + 1;
            }
            let key_copy = params[i].0.clone();
            let ghost oldpair = params@[i as int];
            params.set(i, (key_copy, new_vals));
            proof {
                assert((params@[i as int]).0@ == key@);
                let nv = (params@[i as int]).1@.map_values(|v: String| v@);
                let goal = oldpair.1@.map_values(|v: String| v@).map_values(
                    |v: Seq<char>| stripped_value(v, label@),
                );
                assert forall|k: int| 0 <= k < nv.len() implies nv[k] == goal[k] by {
                    assert(nv[k] == ((params@[i as int]).1@[k])@);
                }
                assert(nv =~= goal);
            }
        }
        i = i + 1;
    }
}

pub open spec fn tf_pat() -> Seq<char> {
    "chrono_timeframe=\""@
}

pub open spec fn cmd_pat() -> Seq<char> {
    "_command=\""@
}

/// Pulls the timeframe selector and the command selector out of the query
/// text; either is empty when its matcher is absent or malformed.
pub fn extract_selectors(query: &str) -> (r: (String, String))
    ensures
        r.0@ == sel_value(query@, tf_pat()),
        r.1@ == sel_value(query@, cmd_pat()),
{
    let timeframe = extract_selector(query, "chrono_timeframe=\"");
    let command = extract_selector(query, "_command=\"");
    (timeframe, command)
}

} // verus!
