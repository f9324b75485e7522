//! The matcher: a per-mille relevance score of a record against a free-text
//! query, three weighted channels over a normalized edit distance, and the
//! ranked filter built on it.

use vstd::arithmetic::div_mod::{lemma_div_is_ordered, lemma_div_multiples_vanish};
use vstd::arithmetic::mul::lemma_mul_inequality;
use vstd::prelude::*;

use crate::entry::{Application, ApplicationView};
use crate::loader::apps_view;

verus! {

/// The score a record needs to stay in a ranked result, in per mille.
pub const SCORE_THRESHOLD_MILLI: u32 = 50;

/// What `strsim::levenshtein` computes on two strings: their edit distance,
/// a function of the two character sequences alone.
pub uninterp spec fn lev_dist(a: Seq<char>, b: Seq<char>) -> nat;

/// Relies on `strsim::levenshtein`: the minimum number of character
/// insertions, deletions and substitutions turning one string into the other;
/// substituting the overlap and inserting or deleting the rest bounds it by
/// the longer length.
#[verifier::external_body]
fn levenshtein(a: &str, b: &str) -> (d: usize)
    ensures
        d == lev_dist(a@, b@),
        a@.len() >= b@.len() ==> d <= a@.len(),
        b@.len() >= a@.len() ==> d <= b@.len(),
{
    strsim::levenshtein(a, b)
}

/// What `str::to_lowercase` returns: the lowercase form of the string, a
/// function of its characters alone.
pub uninterp spec fn lower_of(s: Seq<char>) -> Seq<char>;

/// Relies on `str::to_lowercase`: the Unicode lowercase form, depending on
/// the characters alone.
#[verifier::external_body]
fn lowercase(s: &str) -> (r: String)
    ensures
        r@ == lower_of(s@),
{
    s.to_lowercase()
}

/// One similarity channel, in per mille of its weight: the edit distance,
/// normalized by the longer length and scaled by the weight; two empty
/// strings are identical and take the full weight.
pub open spec fn weighted_sim(a: Seq<char>, b: Seq<char>, w: int) -> int {
    let m = if a.len() >= b.len() {
        a.len() as int
    } else {
        b.len() as int
    };
    if m == 0 {
        w
    } else {
        (m - lev_dist(a, b)) * w / m
    }
}

fn weighted(a: &str, b: &str, w: u32) -> (r: u32)
    requires
        w <= 1000,
    ensures
        r == weighted_sim(a@, b@, w as int),
        r <= w,
{
    let la = a.unicode_len();
    let lb = b.unicode_len();
    let m = if la >= lb {
        la
    } else {
        lb
    };
    if m == 0 {
        return w;
    }
    let d = levenshtein(a, b);
    proof {
        assert(la == a@.len() && lb == b@.len());
        assert(d <= m);
        let x = (m - d) as int;
        let ww = w as int;
        assert(x * ww <= (usize::MAX as int) * 1000) by (nonlinear_arith)
            requires
                0 <= x,
                x <= usize::MAX as int,
                0 <= ww,
                ww <= 1000,
        ;
        assert((usize::MAX as int) * 1000 < u128::MAX as int);
    }
    let num = ((m - d) as u128) * (w as u128);
    let q = num / (m as u128);
    proof {
        lemma_mul_inequality((m - d) as int, m as int, w as int);
        lemma_div_is_ordered(((m - d) * w) as int, (m * w) as int, m as int);
        lemma_div_multiples_vanish(w as int, m as int);
        assert((m as int) * (w as int) == (w as int) * (m as int)) by (nonlinear_arith);
        assert(q <= w);
    }
    q as u32
}

/// The relevance of a record against a query, in per mille: the best of the
/// name channel (case-normalized, full weight), the program channel (half
/// weight) and the description channel (quarter weight; absent counts zero).
pub open spec fn spec_score(app: ApplicationView, q: Seq<char>) -> int {
    let n = weighted_sim(lower_of(app.name), q, 1000);
    let c = weighted_sim(app.command.cmd, q, 500);
    let d = match app.desc {
        None => 0,
        Some(t) => weighted_sim(t, q, 250),
    };
    if n >= c && n >= d {
        n
    } else if c >= d {
        c
    } else {
        d
    }
}

impl Application {
    /// Score this record against a free-text query, in per mille of a full
    /// match.
    pub fn score(&self, filter: &str) -> (s: u32)
        ensures
            s == spec_score(self@, filter@),
            s <= 1000,
    {
        let low = lowercase(self.name.as_str());
        let n = weighted(low.as_str(), filter, 1000);
        let c = weighted(self.command.cmd.as_str(), filter, 500);
        let d = match &self.desc {
            None => 0u32,
            Some(t) => weighted(t.as_str(), filter, 250),
        };
        if n >= c && n >= d {
            n
        } else if c >= d {
            c
        } else {
            d
        }
    }
}

/// The integer shape of a ranked result: index and per-mille score pairs.
pub open spec fn rank_view(v: Seq<(usize, u32)>) -> Seq<(int, int)> {
    v.map_values(|p: (usize, u32)| (p.0 as int, p.1 as int))
}

/// The records from position `i` on whose score exceeds the threshold, as
/// index/score pairs in index order.
pub open spec fn scored_from(apps: Seq<ApplicationView>, q: Seq<char>, i: int) -> Seq<(int, int)>
    decreases apps.len() - i,
{
    if i < 0 || i >= apps.len() {
        Seq::empty()
    } else {
        let s = spec_score(apps[i], q);
        if s > SCORE_THRESHOLD_MILLI as int {
            seq![(i, s)] + scored_from(apps, q, i + 1)
        } else {
            scored_from(apps, q, i + 1)
        }
    }
}

/// A pair placed before the first pair with a strictly smaller score, so that
/// equal scores keep their earlier order.
pub open spec fn insert_desc(p: (int, int), rs: Seq<(int, int)>) -> Seq<(int, int)>
    decreases rs.len(),
{
    if rs.len() == 0 {
        seq![p]
    } else if rs[0].1 < p.1 {
        seq![p] + rs
    } else {
        seq![rs[0]] + insert_desc(p, rs.drop_first())
    }
}

/// Stable insertion sort by score, descending, taking the pairs in order.
pub open spec fn sort_desc_acc(acc: Seq<(int, int)>, rs: Seq<(int, int)>) -> Seq<(int, int)>
    decreases rs.len(),
{
    if rs.len() == 0 {
        acc
    } else {
        sort_desc_acc(insert_desc(rs[0], acc), rs.drop_first())
    }
}

/// The pairs sorted by score, descending and stable.
pub open spec fn sort_desc(rs: Seq<(int, int)>) -> Seq<(int, int)> {
    sort_desc_acc(Seq::empty(), rs)
}

/// What ranking a collection against a query returns: with an empty query,
/// every record in its existing order with a full score; otherwise the
/// above-threshold records sorted by score descending.
pub open spec fn filter_rank_spec(apps: Seq<ApplicationView>, q: Seq<char>) -> Seq<(int, int)> {
    if q.len() == 0 {
        Seq::new(apps.len(), |i: int| (i, 1000int))
    } else {
        sort_desc(scored_from(apps, q, 0))
    }
}

proof fn lemma_insert_desc_at(rs: Seq<(int, int)>, p: (int, int), j: int)
    requires
        0 <= j <= rs.len(),
        forall|m: int| 0 <= m < j ==> !((#[trigger] rs[m]).1 < p.1),
        j < rs.len() ==> rs[j].1 < p.1,
    ensures
        insert_desc(p, rs) == rs.insert(j, p),
    decreases j,
{
    if j == 0 {
        if rs.len() == 0 {
            assert(seq![p] =~= rs.insert(0, p));
        } else {
            assert(seq![p] + rs =~= rs.insert(0, p));
        }
    } else {
        let tail = rs.drop_first();
        assert forall|m: int| 0 <= m < j - 1 implies !((#[trigger] tail[m]).1 < p.1) by {
            assert(tail[m] == rs[m + 1]);
        }
        if j - 1 < tail.len() {
            assert(tail[j - 1] == rs[j]);
        }
        lemma_insert_desc_at(tail, p, j - 1);
        assert(seq![rs[0]] + tail.insert(j - 1, p) =~= rs.insert(j, p));
    }
}

fn insert_ranked(out: &mut Vec<(usize, u32)>, p: (usize, u32))
    ensures
        rank_view(final(out)@) == insert_desc((p.0 as int, p.1 as int), rank_view(old(out)@)),
{
    let ghost full = rank_view(out@);
    let ghost pv = (p.0 as int, p.1 as int);
    let n = out.len();
    let mut j: usize = 0;
    proof {
        assert(full.len() == n);
    }
    while j < n
        invariant
            j <= n,
            n == out@.len(),
            out@ == old(out)@,
            full == rank_view(out@),
            full.len() == n,
            pv == (p.0 as int, p.1 as int),
            forall|m: int| 0 <= m < j ==> !((#[trigger] full[m]).1 < pv.1),
        decreases n - j,
    {
        proof {
            assert(full[j as int] == (out@[j as int].0 as int, out@[j as int].1 as int));
        }
        if out[j].1 < p.1 {
            out.insert(j, p);
            proof {
                lemma_insert_desc_at(full, pv, j as int);
                assert(rank_view(out@) =~= full.insert(j as int, pv));
            }
            return ;
        }
        j = j + 1;
    }
    out.insert(n, p);
    proof {
        lemma_insert_desc_at(full, pv, n as int);
        assert(rank_view(out@) =~= full.insert(n as int, pv));
    }
}

/// Rank a collection against a query: an empty query returns every record in
/// its existing order with a full score; otherwise the records scoring above
/// the threshold, sorted by score descending, equal scores keeping their
/// index order.
pub fn filter_and_rank(apps: &Vec<Application>, query: &str) -> (r: Vec<(usize, u32)>)
    ensures
        rank_view(r@) == filter_rank_spec(apps_view(apps@), query@),
{
    let ghost appsv = apps_view(apps@);
    let n = apps.len();
    proof {
        assert(appsv.len() == n);
    }
    if query.unicode_len() == 0 {
        let mut r: Vec<(usize, u32)> = Vec::new();
        let mut i: usize = 0;
        proof {
            assert(rank_view(r@) =~= Seq::new(0nat, |k: int| (k, 1000int)));
        }
        while i < n
            invariant
                i <= n,
                rank_view(r@) == Seq::new(i as nat, |k: int| (k, 1000int)),
            decreases n - i,
        {
            let ghost before = rank_view(r@);
            r.push((i, 1000));
            proof {
                assert(rank_view(r@) =~= before.push((i as int, 1000int)));
                assert(before.push((i as int, 1000int)) =~= Seq::new(
                    (i + 1) as nat,
                    |k: int| (k, 1000int),
                ));
            }
            i = i + 1;
        }
        proof {
            assert(Seq::new(n as nat, |k: int| (k, 1000int)) =~= Seq::new(
                appsv.len(),
                |k: int| (k, 1000int),
            ));
        }
        return r;
    }
    let mut scored: Vec<(usize, u32)> = Vec::new();
    let mut i: usize = 0;
    proof {
        assert(scored_from(appsv, query@, 0) == rank_view(scored@) + scored_from(
            appsv,
            query@,
            0,
        )) by {
            assert(rank_view(scored@) =~= Seq::<(int, int)>::empty());
            assert(Seq::<(int, int)>::empty() + scored_from(appsv, query@, 0) =~= scored_from(
                appsv,
                query@,
                0,
            ));
        }
    }
    while i < n
        invariant
            i <= n,
            n == apps@.len(),
            appsv == apps_view(apps@),
            appsv.len() == n,
            scored_from(appsv, query@, 0) == rank_view(scored@) + scored_from(
                appsv,
                query@,
                i as int,
            ),
        decreases n - i,
    {
        let ghost before = rank_view(scored@);
        proof {
            assert(appsv[i as int] == apps@[i as int]@);
        }
        let s = apps[i].score(query);
        if s > SCORE_THRESHOLD_MILLI {
            scored.push((i, s));
            proof {
                assert(rank_view(scored@) =~= before.push((i as int, s as int)));
                assert(before + (seq![(i as int, s as int)] + scored_from(appsv, query@, i + 1))
                    =~= before.push((i as int, s as int)) + scored_from(appsv, query@, i + 1));
            }
        }
        i = i + 1;
    }
    let ghost collected = scored_from(appsv, query@, 0);
    proof {
        assert(scored_from(appsv, query@, n as int) =~= Seq::<(int, int)>::empty());
        assert(rank_view(scored@) + Seq::<(int, int)>::empty() =~= rank_view(scored@));
        assert(collected == rank_view(scored@));
    }
    let mut out: Vec<(usize, u32)> = Vec::new();
    let mut rest = scored;
    proof {
        assert(rank_view(out@) =~= Seq::<(int, int)>::empty());
    }
    while rest.len() > 0
        invariant
            sort_desc(collected) == sort_desc_acc(rank_view(out@), rank_view(rest@)),
        decreases rest@.len(),
    {
        let ghost remv = rank_view(rest@);
        proof {
            assert(remv[0] == (rest@[0].0 as int, rest@[0].1 as int));
        }
        let p = rest.remove(0);
        proof {
            assert(rank_view(rest@) =~= remv.drop_first());
        }
        insert_ranked(&mut out, p);
    }
    proof {
        assert(rank_view(rest@) =~= Seq::<(int, int)>::empty());
    }
    out
}

} // verus!
