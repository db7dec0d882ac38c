//! The retention policy engine: a pure decision over the backup
//! files of one source stem. Candidates are the directory entries
//! whose names start with the stem. They are ranked newest first by
//! modification time (an unreadable time ranks oldest; ties rank by
//! name, later names first, for reproducibility). If no more than
//! `keep_recent + keep_historical` candidates exist nothing is
//! deleted; otherwise the newest `keep_recent` survive together
//! with `keep_historical` stride-sampled picks spread across the
//! rest, and every other candidate is deleted.

use vstd::prelude::*;
use vstd::multiset::Multiset;
use vstd::seq_lib::group_to_multiset_ensures;
use crate::text::{lex_lt, str_lex_lt, is_prefix_of, str_starts_with, lemma_lex_lt_trans};

verus! {

broadcast use group_to_multiset_ensures;

/// One candidate backup file: its name and its modification time in
/// seconds since the epoch, `None` when unreadable.
pub struct BackupEntry {
    pub name: String,
    pub mtime: Option<u64>,
}

/// The mathematical content of a candidate.
#[verifier::ext_equal]
pub struct EntryView {
    pub name: Seq<char>,
    pub mtime: Option<u64>,
}

impl View for BackupEntry {
    type V = EntryView;

    open spec fn view(&self) -> EntryView {
        EntryView { name: self.name@, mtime: self.mtime }
    }
}

/// The views of a vector of candidates.
pub open spec fn entry_views(s: Seq<BackupEntry>) -> Seq<EntryView> {
    Seq::new(s.len(), |i: int| s[i]@)
}

/// The views of a vector of names.
pub open spec fn name_views(s: Seq<String>) -> Seq<Seq<char>> {
    Seq::new(s.len(), |i: int| s[i]@)
}

/// The names of a sequence of candidates.
pub open spec fn names_of(s: Seq<EntryView>) -> Seq<Seq<char>> {
    Seq::new(s.len(), |i: int| s[i].name)
}

/// Appending a name appends its view.
proof fn lemma_name_views_push(s: Seq<String>, x: String)
    ensures
        name_views(s.push(x)) == name_views(s).push(x@),
{
    assert(name_views(s.push(x)) =~= name_views(s).push(x@));
}

/// Rank of a modification time: newer is greater, unreadable is
/// oldest.
pub open spec fn mtime_rank(m: Option<u64>) -> int {
    match m {
        Some(t) => t as int + 1,
        None => 0,
    }
}

/// `a` ranks strictly newer than `b`: a later modification time, or
/// an equal time and a lexicographically later name.
pub open spec fn ranks_before(a: EntryView, b: EntryView) -> bool {
    mtime_rank(a.mtime) > mtime_rank(b.mtime) || (mtime_rank(a.mtime) == mtime_rank(b.mtime)
        && lex_lt(b.name, a.name))
}

/// Newest first: no later element ranks strictly before an earlier
/// one.
pub open spec fn sorted_newest_first(s: Seq<EntryView>) -> bool {
    forall|i: int, j: int| 0 <= i < j < s.len() ==> !ranks_before(#[trigger] s[j], #[trigger] s[i])
}

pub proof fn lemma_ranks_before_trans(a: EntryView, b: EntryView, c: EntryView)
    requires
        ranks_before(a, b),
        ranks_before(b, c),
    ensures
        ranks_before(a, c),
{
    if mtime_rank(a.mtime) == mtime_rank(b.mtime) && mtime_rank(b.mtime) == mtime_rank(c.mtime) {
        lemma_lex_lt_trans(c.name, b.name, a.name);
    }
}

/// Executable ranking comparison.
pub fn ranks_before_exec(a: &BackupEntry, b: &BackupEntry) -> (r: bool)
    ensures
        r == ranks_before(a@, b@),
{
    match (&a.mtime, &b.mtime) {
        (Some(x), Some(y)) => {
            if x != y {
                *x > *y
            } else {
                str_lex_lt(b.name.as_str(), a.name.as_str())
            }
        },
        (Some(_), None) => true,
        (None, Some(_)) => false,
        (None, None) => str_lex_lt(b.name.as_str(), a.name.as_str()),
    }
}

/// A copy of a candidate.
fn clone_entry(e: &BackupEntry) -> (r: BackupEntry)
    ensures
        r@ == e@,
{
    BackupEntry { name: e.name.clone(), mtime: e.mtime }
}

/// Ranks candidates newest first. The result is a permutation of
/// the input; ties in the ranking keep no promised order beyond the
/// sortedness itself.
pub fn sort_entries(entries: Vec<BackupEntry>) -> (r: Vec<BackupEntry>)
    ensures
        sorted_newest_first(entry_views(r@)),
        entry_views(r@).to_multiset() == entry_views(entries@).to_multiset(),
{
    let ghost orig = entry_views(entries@);
    let mut pending = entries;
    let mut out: Vec<BackupEntry> = Vec::new();
    proof {
        assert(entry_views(out@) =~= Seq::<EntryView>::empty());
        assert(entry_views(out@).to_multiset().add(entry_views(pending@).to_multiset())
            =~= orig.to_multiset());
    }
    while pending.len() > 0
        invariant
            sorted_newest_first(entry_views(out@)),
            forall|i: int, j: int|
                0 <= i < out@.len() && 0 <= j < pending@.len() ==> !ranks_before(
                    #[trigger] entry_views(pending@)[j],
                    #[trigger] entry_views(out@)[i],
                ),
            entry_views(out@).to_multiset().add(entry_views(pending@).to_multiset())
                == orig.to_multiset(),
        decreases pending@.len(),
    {
        let mut best: usize = 0;
        let mut t: usize = 1;
        proof {
            let pv = entry_views(pending@);
            if ranks_before(pv[0], pv[0]) {
                crate::text::lemma_lex_lt_asym(pv[0].name, pv[0].name);
            }
        }
        while t < pending.len()
            invariant
                best < t <= pending@.len(),
                pending@.len() > 0,
                forall|u: int|
                    0 <= u < t ==> !ranks_before(
                        #[trigger] entry_views(pending@)[u],
                        entry_views(pending@)[best as int],
                    ),
            decreases pending@.len() - t,
        {
            if ranks_before_exec(&pending[t], &pending[best]) {
                proof {
                    let pv = entry_views(pending@);
                    assert(pv[t as int] == pending@[t as int]@);
                    assert(pv[best as int] == pending@[best as int]@);
                    assert(ranks_before(pv[t as int], pv[best as int]));
                    assert forall|u: int| 0 <= u <= t implies !ranks_before(
                        #[trigger] pv[u],
                        pv[t as int],
                    ) by {
                        if u < t && ranks_before(pv[u], pv[t as int]) {
                            lemma_ranks_before_trans(pv[u], pv[t as int], pv[best as int]);
                        }
                        if u == t && ranks_before(pv[u], pv[u]) {
                            crate::text::lemma_lex_lt_asym(pv[u].name, pv[u].name);
                        }
                    }
                }
                best = t;
            }
            t = t + 1;
        }
        let ghost pre = pending@;
        let e = pending.remove(best);
        proof {
            let pv = entry_views(pre);
            assert(e@ == pv[best as int]);
            assert(entry_views(pending@) =~= pv.remove(best as int));
            assert(pv.remove(best as int).to_multiset() =~= pv.to_multiset().remove(e@));
            assert(pv.contains(pv[best as int]));
            assert(pv.to_multiset().count(e@) > 0);
            assert(pv.to_multiset().remove(e@).insert(e@) =~= pv.to_multiset());
            assert(entry_views(out@.push(e)) =~= entry_views(out@).push(e@));
            assert(entry_views(out@).push(e@).to_multiset() =~= entry_views(
                out@,
            ).to_multiset().insert(e@));
            assert forall|j: int| 0 <= j < pending@.len() implies !ranks_before(
                #[trigger] entry_views(pending@)[j],
                e@,
            ) by {
                if j < best {
                    assert(entry_views(pending@)[j] == pv[j]);
                } else {
                    assert(entry_views(pending@)[j] == pv[j + 1]);
                }
            }
        }
        out.push(e);
        proof {
            assert(entry_views(out@).to_multiset().add(entry_views(pending@).to_multiset())
                =~= orig.to_multiset());
        }
    }
    proof {
        assert(entry_views(pending@).to_multiset() =~= Multiset::<EntryView>::empty());
        assert(entry_views(out@).to_multiset().add(Multiset::<EntryView>::empty())
            =~= entry_views(out@).to_multiset());
    }
    out
}

/// The entries whose names start with the stem, in order.
pub open spec fn candidates_of(s: Seq<EntryView>, stem: Seq<char>) -> Seq<EntryView>
    decreases s.len(),
{
    if s.len() == 0 {
        s
    } else if is_prefix_of(stem, s.last().name) {
        candidates_of(s.drop_last(), stem).push(s.last())
    } else {
        candidates_of(s.drop_last(), stem)
    }
}

/// Keeps the directory entries whose names start with the stem.
pub fn filter_candidates(listing: &Vec<BackupEntry>, stem: &str) -> (r: Vec<BackupEntry>)
    ensures
        entry_views(r@) == candidates_of(entry_views(listing@), stem@),
{
    let n = listing.len();
    let mut out: Vec<BackupEntry> = Vec::new();
    let mut i: usize = 0;
    proof {
        assert(entry_views(listing@).subrange(0, 0) =~= Seq::<EntryView>::empty());
        assert(entry_views(out@) =~= candidates_of(entry_views(listing@).subrange(0, 0), stem@));
    }
    while i < n
        invariant
            i <= n,
            n == listing@.len(),
            entry_views(out@) == candidates_of(entry_views(listing@).subrange(0, i as int), stem@),
        decreases n - i,
    {
        let ghost lv = entry_views(listing@);
        proof {
            assert(lv.subrange(0, i as int + 1).drop_last() =~= lv.subrange(0, i as int));
            assert(lv.subrange(0, i as int + 1).last() == lv[i as int]);
        }
        if str_starts_with(listing[i].name.as_str(), stem) {
            let e = clone_entry(&listing[i]);
            proof {
                assert(entry_views(out@.push(e)) =~= entry_views(out@).push(e@));
            }
            out.push(e);
        }
        i = i + 1;
    }
    proof {
        assert(entry_views(listing@).subrange(0, n as int) =~= entry_views(listing@));
    }
    out
}

/// The sampling stride: the candidate count divided by the keep
/// count, at least one.
pub open spec fn stride_step(len: int, count: int) -> int {
    if count > 0 && len / count >= 1 {
        len / count
    } else {
        1
    }
}

/// Every `step`-th name starting at `i`, at most `remaining` of
/// them.
pub open spec fn sampled_from(names: Seq<Seq<char>>, step: int, i: int, remaining: int) -> Seq<
    Seq<char>,
>
    decreases remaining,
{
    if remaining <= 0 || i < 0 || i >= names.len() {
        Seq::empty()
    } else {
        seq![names[i]] + sampled_from(names, step, i + step, remaining - 1)
    }
}

/// The stride sample of a name list: every `stride_step`-th name
/// from the front, until `count` are taken or the list is out.
pub open spec fn sampled(names: Seq<Seq<char>>, count: int) -> Seq<Seq<char>> {
    sampled_from(names, stride_step(names.len() as int, count), 0, count)
}

/// Picks the historical survivors from the time-ordered remainder
/// by stride sampling: deterministic, spread across the whole list.
pub fn pick_historical(paths: Vec<String>, count: usize) -> (r: Vec<String>)
    ensures
        name_views(r@) == sampled(name_views(paths@), count as int),
{
    let n = paths.len();
    let mut out: Vec<String> = Vec::new();
    if count == 0 || n == 0 {
        proof {
            assert(name_views(out@) =~= sampled(name_views(paths@), count as int));
        }
        return out;
    }
    let q = n / count;
    let step: usize = if q >= 1 {
        q
    } else {
        1
    };
    let ghost names = name_views(paths@);
    let mut i: usize = 0;
    let mut taken: usize = 0;
    proof {
        assert(name_views(out@) + sampled_from(names, step as int, 0, count as int)
            =~= sampled_from(names, step as int, 0, count as int));
    }
    while i < n && taken < count
        invariant
            n == paths@.len(),
            names == name_views(paths@),
            step as int == stride_step(n as int, count as int),
            step >= 1,
            taken <= count,
            sampled(names, count as int) == name_views(out@) + sampled_from(
                names,
                step as int,
                i as int,
                count as int - taken as int,
            ),
        decreases n - i,
    {
        proof {
            assert(sampled_from(names, step as int, i as int, count as int - taken as int)
                == seq![names[i as int]] + sampled_from(
                names,
                step as int,
                i as int + step as int,
                count as int - taken as int - 1,
            ));
            assert(name_views(out@.push(paths@[i as int])) =~= name_views(out@).push(
                names[i as int],
            ));
            assert(name_views(out@) + (seq![names[i as int]] + sampled_from(
                names,
                step as int,
                i as int + step as int,
                count as int - taken as int - 1,
            )) =~= name_views(out@).push(names[i as int]) + sampled_from(
                names,
                step as int,
                i as int + step as int,
                count as int - taken as int - 1,
            ));
        }
        out.push(paths[i].clone());
        taken = taken + 1;
        if i >= n - step {
            proof {
                assert(sampled_from(names, step as int, i as int + step as int, count as int
                    - taken as int) =~= Seq::<Seq<char>>::empty());
                assert(name_views(out@) + Seq::<Seq<char>>::empty() =~= name_views(out@));
            }
            return out;
        }
        i = i + step;
    }
    proof {
        assert(sampled_from(names, step as int, i as int, count as int - taken as int)
            =~= Seq::<Seq<char>>::empty());
        assert(name_views(out@) + Seq::<Seq<char>>::empty() =~= name_views(out@));
    }
    out
}

/// The survivor names of a ranked candidate list under a policy:
/// everything when the list is within the combined keep count, else
/// the newest `keep_recent` names plus the stride sample of the
/// rest.
pub open spec fn survivor_names(s: Seq<EntryView>, keep_recent: int, keep_historical: int) -> Seq<
    Seq<char>,
> {
    if s.len() <= keep_recent + keep_historical {
        names_of(s)
    } else {
        names_of(s).subrange(0, keep_recent) + sampled(
            names_of(s).subrange(keep_recent, s.len() as int),
            keep_historical,
        )
    }
}

/// The names of `names` that are not in `keep`, in order.
pub open spec fn excluded(names: Seq<Seq<char>>, keep: Seq<Seq<char>>) -> Seq<Seq<char>>
    decreases names.len(),
{
    if names.len() == 0 {
        names
    } else {
        let rest = excluded(names.drop_last(), keep);
        if keep.contains(names.last()) {
            rest
        } else {
            rest.push(names.last())
        }
    }
}

/// The doomed names of a ranked candidate list: the candidates the
/// survivor set excludes.
pub open spec fn doomed_names(s: Seq<EntryView>, keep_recent: int, keep_historical: int) -> Seq<
    Seq<char>,
> {
    excluded(names_of(s), survivor_names(s, keep_recent, keep_historical))
}

/// Nothing is excluded when every name is kept.
proof fn lemma_excluded_all_kept(names: Seq<Seq<char>>, keep: Seq<Seq<char>>)
    requires
        forall|i: int| 0 <= i < names.len() ==> keep.contains(#[trigger] names[i]),
    ensures
        excluded(names, keep) == Seq::<Seq<char>>::empty(),
    decreases names.len(),
{
    if names.len() > 0 {
        assert forall|i: int| 0 <= i < names.drop_last().len() implies keep.contains(
            #[trigger] names.drop_last()[i],
        ) by {
            assert(names.drop_last()[i] == names[i]);
        }
        lemma_excluded_all_kept(names.drop_last(), keep);
        assert(keep.contains(names.last()));
    }
}

/// Everything excluded is a candidate name.
pub proof fn lemma_excluded_subset(names: Seq<Seq<char>>, keep: Seq<Seq<char>>)
    ensures
        forall|i: int|
            0 <= i < excluded(names, keep).len() ==> names.contains(
                #[trigger] excluded(names, keep)[i],
            ),
    decreases names.len(),
{
    if names.len() > 0 {
        lemma_excluded_subset(names.drop_last(), keep);
        assert forall|i: int| 0 <= i < excluded(names, keep).len() implies names.contains(
            #[trigger] excluded(names, keep)[i],
        ) by {
            let e = excluded(names, keep)[i];
            if i < excluded(names.drop_last(), keep).len() {
                assert(excluded(names.drop_last(), keep).contains(e));
                let j = choose|j: int|
                    0 <= j < names.drop_last().len() && names.drop_last()[j] == e;
                assert(names[j] == e);
            } else {
                assert(e == names.last());
                assert(names[names.len() - 1] == e);
            }
        }
    }
}

/// A retention decision: the stem's candidates ranked newest first,
/// the names that survive, and the names to delete.
pub struct RetentionPlan {
    pub ranked: Vec<BackupEntry>,
    pub survivors: Vec<String>,
    pub doomed: Vec<String>,
}

/// Whether a name is among a list of names.
fn name_in(list: &Vec<String>, name: &str) -> (r: bool)
    ensures
        r == name_views(list@).contains(name@),
{
    let n = list.len();
    let mut i: usize = 0;
    while i < n
        invariant
            i <= n,
            n == list@.len(),
            forall|j: int| 0 <= j < i ==> name_views(list@)[j] != name@,
        decreases n - i,
    {
        if crate::text::str_eq(list[i].as_str(), name) {
            proof {
                assert(name_views(list@)[i as int] == name@);
            }
            return true;
        }
        i = i + 1;
    }
    false
}

/// Decides retention for one stem: filters the directory listing to
/// the stem's candidates, ranks them newest first, and splits the
/// names into survivors and doomed. With at most
/// `keep_recent + keep_historical` candidates nothing is doomed.
pub fn plan_retention(
    listing: &Vec<BackupEntry>,
    stem: &str,
    keep_recent: usize,
    keep_historical: usize,
) -> (r: RetentionPlan)
    ensures
        entry_views(r.ranked@).to_multiset() == candidates_of(
            entry_views(listing@),
            stem@,
        ).to_multiset(),
        sorted_newest_first(entry_views(r.ranked@)),
        name_views(r.survivors@) == survivor_names(
            entry_views(r.ranked@),
            keep_recent as int,
            keep_historical as int,
        ),
        name_views(r.doomed@) == doomed_names(
            entry_views(r.ranked@),
            keep_recent as int,
            keep_historical as int,
        ),
{
    let cands = filter_candidates(listing, stem);
    let ranked = sort_entries(cands);
    let n = ranked.len();
    let ghost rv = entry_views(ranked@);
    let within = n <= keep_recent || n - keep_recent <= keep_historical;
    if within {
        let mut survivors: Vec<String> = Vec::new();
        let mut i: usize = 0;
        proof {
            assert(name_views(survivors@) =~= names_of(rv).subrange(0, 0));
        }
        while i < n
            invariant
                i <= n,
                n == ranked@.len(),
                rv == entry_views(ranked@),
                name_views(survivors@) == names_of(rv).subrange(0, i as int),
            decreases n - i,
        {
            proof {
                lemma_name_views_push(survivors@, ranked@[i as int].name);
                assert(name_views(survivors@).push(ranked@[i as int].name@) =~= names_of(
                    rv,
                ).subrange(0, i as int + 1));
            }
            survivors.push(ranked[i].name.clone());
            i = i + 1;
        }
        proof {
            assert(names_of(rv).subrange(0, n as int) =~= names_of(rv));
            assert forall|k: int| 0 <= k < names_of(rv).len() implies names_of(rv).contains(
                #[trigger] names_of(rv)[k],
            ) by {}
            lemma_excluded_all_kept(names_of(rv), names_of(rv));
        }
        let doomed: Vec<String> = Vec::new();
        proof {
            assert(name_views(doomed@) =~= Seq::<Seq<char>>::empty());
        }
        RetentionPlan { ranked, survivors, doomed }
    } else {
        let mut survivors: Vec<String> = Vec::new();
        let mut i: usize = 0;
        proof {
            assert(name_views(survivors@) =~= names_of(rv).subrange(0, 0));
        }
        while i < keep_recent
            invariant
                i <= keep_recent,
                keep_recent < n,
                n == ranked@.len(),
                rv == entry_views(ranked@),
                name_views(survivors@) == names_of(rv).subrange(0, i as int),
            decreases keep_recent - i,
        {
            proof {
                lemma_name_views_push(survivors@, ranked@[i as int].name);
                assert(name_views(survivors@).push(ranked@[i as int].name@) =~= names_of(
                    rv,
                ).subrange(0, i as int + 1));
            }
            survivors.push(ranked[i].name.clone());
            i = i + 1;
        }
        let mut rest: Vec<String> = Vec::new();
        let mut k: usize = keep_recent;
        proof {
            assert(name_views(rest@) =~= names_of(rv).subrange(
                keep_recent as int,
                keep_recent as int,
            ));
        }
        while k < n
            invariant
                keep_recent <= k <= n,
                keep_recent < n,
                n == ranked@.len(),
                rv == entry_views(ranked@),
                name_views(rest@) == names_of(rv).subrange(keep_recent as int, k as int),
            decreases n - k,
        {
            proof {
                lemma_name_views_push(rest@, ranked@[k as int].name);
                assert(name_views(rest@).push(ranked@[k as int].name@) =~= names_of(rv).subrange(
                    keep_recent as int,
                    k as int + 1,
                ));
            }
            rest.push(ranked[k].name.clone());
            k = k + 1;
        }
        let mut hist = pick_historical(rest, keep_historical);
        let ghost hist_seq = hist@;
        proof {
            assert(name_views(survivors@) + name_views(hist@) =~= survivor_names(
                rv,
                keep_recent as int,
                keep_historical as int,
            ));
        }
        let ghost pre_survivors = survivors@;
        survivors.append(&mut hist);
        proof {
            assert(name_views(pre_survivors + hist_seq) =~= name_views(pre_survivors)
                + name_views(hist_seq));
        }
        let mut doomed: Vec<String> = Vec::new();
        let mut d: usize = 0;
        let ghost keep = name_views(survivors@);
        proof {
            assert(names_of(rv).subrange(0, 0) =~= Seq::<Seq<char>>::empty());
            assert(name_views(doomed@) =~= excluded(names_of(rv).subrange(0, 0), keep));
        }
        while d < n
            invariant
                d <= n,
                n == ranked@.len(),
                rv == entry_views(ranked@),
                keep == name_views(survivors@),
                name_views(doomed@) == excluded(names_of(rv).subrange(0, d as int), keep),
            decreases n - d,
        {
            let ghost pref = names_of(rv).subrange(0, d as int + 1);
            proof {
                assert(pref.drop_last() =~= names_of(rv).subrange(0, d as int));
                assert(pref.last() == names_of(rv)[d as int]);
                assert(names_of(rv)[d as int] == ranked@[d as int]@.name);
            }
            if !name_in(&survivors, ranked[d].name.as_str()) {
                proof {
                    lemma_name_views_push(doomed@, ranked@[d as int].name);
                }
                doomed.push(ranked[d].name.clone());
            }
            d = d + 1;
        }
        proof {
            assert(names_of(rv).subrange(0, n as int) =~= names_of(rv));
        }
        RetentionPlan { ranked, survivors, doomed }
    }
}

/// The retention boundary: with no more candidates than the
/// combined keep count, nothing is deleted.
pub proof fn lemma_within_policy_no_deletion(
    s: Seq<EntryView>,
    keep_recent: int,
    keep_historical: int,
)
    requires
        s.len() <= keep_recent + keep_historical,
    ensures
        doomed_names(s, keep_recent, keep_historical) == Seq::<Seq<char>>::empty(),
        survivor_names(s, keep_recent, keep_historical) == names_of(s),
{
    assert forall|k: int| 0 <= k < names_of(s).len() implies names_of(s).contains(
        #[trigger] names_of(s)[k],
    ) by {}
    lemma_excluded_all_kept(names_of(s), names_of(s));
}

/// Stem isolation: directory entries of another stem never enter a
/// stem's candidate list, so they cannot change its retention
/// decision.
pub proof fn lemma_stem_isolation(l1: Seq<EntryView>, l2: Seq<EntryView>, stem: Seq<char>)
    requires
        forall|i: int| 0 <= i < l2.len() ==> !is_prefix_of(stem, (#[trigger] l2[i]).name),
    ensures
        candidates_of(l1 + l2, stem) == candidates_of(l1, stem),
    decreases l2.len(),
{
    if l2.len() == 0 {
        assert(l1 + l2 =~= l1);
    } else {
        let l2p = l2.drop_last();
        assert((l1 + l2).drop_last() =~= l1 + l2p);
        assert((l1 + l2).last() == l2.last());
        assert(l2.last() == l2[l2.len() - 1]);
        assert forall|i: int| 0 <= i < l2p.len() implies !is_prefix_of(
            stem,
            (#[trigger] l2p[i]).name,
        ) by {
            assert(l2p[i] == l2[i]);
        }
        lemma_stem_isolation(l1, l2p, stem);
    }
}

/// Every candidate bears the stem.
pub proof fn lemma_candidates_match_stem(s: Seq<EntryView>, stem: Seq<char>)
    ensures
        forall|i: int|
            0 <= i < candidates_of(s, stem).len() ==> is_prefix_of(
                stem,
                (#[trigger] candidates_of(s, stem)[i]).name,
            ),
    decreases s.len(),
{
    if s.len() > 0 {
        lemma_candidates_match_stem(s.drop_last(), stem);
        assert forall|i: int| 0 <= i < candidates_of(s, stem).len() implies is_prefix_of(
            stem,
            (#[trigger] candidates_of(s, stem)[i]).name,
        ) by {
            if is_prefix_of(stem, s.last().name) {
                if i < candidates_of(s.drop_last(), stem).len() {
                    assert(candidates_of(s, stem)[i] == candidates_of(s.drop_last(), stem)[i]);
                }
            }
        }
    }
}

/// Deletion touches only names that bear the stem: the doomed names
/// of a ranked candidate list are names of that list.
pub proof fn lemma_doomed_are_candidates(s: Seq<EntryView>, keep_recent: int, keep_historical: int)
    ensures
        forall|i: int|
            0 <= i < doomed_names(s, keep_recent, keep_historical).len() ==> names_of(s).contains(
                #[trigger] doomed_names(s, keep_recent, keep_historical)[i],
            ),
{
    lemma_excluded_subset(names_of(s), survivor_names(s, keep_recent, keep_historical));
}

} // verus!
