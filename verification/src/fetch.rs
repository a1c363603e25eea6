//! Aggregation of one fetch outcome per settings entry.
//!
//! A read cycle fans a snapshot of the store out to one provider call per
//! entry; the calls run independently and a failure of one never degrades
//! another. This module holds what can be said of the results: each entry
//! maps to exactly one outcome, a failed entry yields a failing outcome
//! carrying its entry and error, and the favourite entry's successful
//! outcome is what drives the external indicator.

use vstd::prelude::*;
use crate::Error;
use crate::settings::{Setting, SettingView};
use crate::store::{unique_ids, views_of};

verus! {

/// A successful fetch: the entry and the star count found for it.
pub struct Fetched {
    pub stars: u32,
    pub setting: Setting,
}

/// One entry's result in a read cycle: its star count, or the entry together
/// with the error that its fetch produced.
pub enum FetchOutcome {
    Success(Fetched),
    Failure(Setting, Error),
}

/// The entry an outcome speaks about.
pub open spec fn outcome_setting(o: FetchOutcome) -> SettingView {
    match o {
        FetchOutcome::Success(f) => f.setting@,
        FetchOutcome::Failure(s, _) => s@,
    }
}

/// Whether the outcome carries a star count.
pub open spec fn outcome_is_success(o: FetchOutcome) -> bool {
    o is Success
}

/// The one outcome that entry `s` with upstream result `res` must produce.
pub open spec fn outcome_matches(o: FetchOutcome, s: Setting, res: Result<u32, Error>) -> bool {
    match res {
        Ok(n) => o == FetchOutcome::Success(Fetched { stars: n, setting: s }),
        Err(e) => o == FetchOutcome::Failure(s, e),
    }
}

/// The identifiers of the entries the outcomes speak about, in order.
pub open spec fn outcome_ids(os: Seq<FetchOutcome>) -> Seq<Seq<char>> {
    os.map_values(|o: FetchOutcome| outcome_setting(o).id)
}

/// How many results failed.
pub open spec fn count_errors(rs: Seq<Result<u32, Error>>) -> int
    decreases rs.len(),
{
    if rs.len() == 0 {
        0
    } else {
        count_errors(rs.drop_last()) + if rs.last() is Err {
            1int
        } else {
            0int
        }
    }
}

/// How many outcomes failed.
pub open spec fn count_failures(os: Seq<FetchOutcome>) -> int
    decreases os.len(),
{
    if os.len() == 0 {
        0
    } else {
        count_failures(os.drop_last()) + if outcome_is_success(os.last()) {
            0int
        } else {
            1int
        }
    }
}

/// Pairs every entry of the snapshot with the result its provider call
/// returned, one outcome per entry, in snapshot order.
pub fn assemble_outcomes(settings: Vec<Setting>, results: Vec<Result<u32, Error>>) -> (r: Vec<
    FetchOutcome,
>)
    requires
        settings@.len() == results@.len(),
    ensures
        r@.len() == settings@.len(),
        forall|i: int| 0 <= i < r@.len() ==> outcome_matches(r@[i], settings@[i], results@[i]),
{
    let ghost sv = settings@;
    let ghost rv = results@;
    let mut settings = settings;
    let mut results = results;
    let mut out: Vec<FetchOutcome> = Vec::new();
    while settings.len() > 0
        invariant
            settings@.len() == results@.len(),
            out@.len() + settings@.len() == sv.len(),
            rv.len() == sv.len(),
            settings@ =~= sv.skip(out@.len() as int),
            results@ =~= rv.skip(out@.len() as int),
            forall|i: int| 0 <= i < out@.len() ==> outcome_matches(out@[i], sv[i], rv[i]),
        decreases settings@.len(),
    {
        let ghost done = out@.len() as int;
        let s = settings.remove(0);
        let res = results.remove(0);
        proof {
            assert(s == sv[done]);
            assert(res == rv[done]);
            assert(settings@ =~= sv.skip(done + 1));
            assert(results@ =~= rv.skip(done + 1));
        }
        let o = match res {
            Ok(n) => FetchOutcome::Success(Fetched { stars: n, setting: s }),
            Err(e) => FetchOutcome::Failure(s, e),
        };
        out.push(o);
    }
    out
}

/// The position of the first outcome whose entry is marked favourite, or -1
/// if no entry is.
pub open spec fn first_favourite_index(os: Seq<FetchOutcome>) -> int
    decreases os.len(),
{
    if os.len() == 0 {
        -1
    } else if outcome_setting(os[0]).favourite {
        0
    } else {
        let r = first_favourite_index(os.drop_first());
        if r < 0 {
            -1
        } else {
            r + 1
        }
    }
}

/// Whether some outcome's entry is marked favourite.
pub open spec fn has_favourite(os: Seq<FetchOutcome>) -> bool {
    exists|i: int| 0 <= i < os.len() && outcome_setting(os[i]).favourite
}

/// `first_favourite_index` finds the first favourite and only that.
pub proof fn lemma_first_favourite_index(os: Seq<FetchOutcome>)
    ensures
        first_favourite_index(os) == -1 <==> !has_favourite(os),
        has_favourite(os) ==> {
            let fi = first_favourite_index(os);
            &&& 0 <= fi < os.len()
            &&& outcome_setting(os[fi]).favourite
            &&& forall|j: int| 0 <= j < fi ==> !outcome_setting(os[j]).favourite
        },
    decreases os.len(),
{
    if os.len() == 0 {
    } else if outcome_setting(os[0]).favourite {
    } else {
        lemma_first_favourite_index(os.drop_first());
        assert forall|i: int|
            0 <= i < os.len() && outcome_setting(os[i]).favourite implies has_favourite(
            os.drop_first(),
        ) by {
            assert(os.drop_first()[i - 1] == os[i]);
        }
        if has_favourite(os) {
            let fi = first_favourite_index(os);
            assert forall|j: int| 0 <= j < fi implies !outcome_setting(os[j]).favourite by {
                if j > 0 {
                    assert(os.drop_first()[j - 1] == os[j]);
                }
            }
        }
    }
}

/// Scans the outcomes once for the first whose entry is marked favourite.
/// If that outcome succeeded, returns the pair to forward to the external
/// indicator: the repository's display form and its star count. If no entry
/// is favourite, or the favourite's fetch failed, nothing is forwarded this
/// cycle.
pub fn favourite_success(outcomes: &Vec<FetchOutcome>) -> (r: Option<(String, u32)>)
    ensures
        ({
            let fi = first_favourite_index(outcomes@);
            if fi >= 0 {
                match outcomes@[fi] {
                    FetchOutcome::Success(f) => r is Some && (r->0).0@ == f.setting@.repo.display()
                        && (r->0).1 == f.stars,
                    FetchOutcome::Failure(_, _) => r is None,
                }
            } else {
                r is None
            }
        }),
{
    let n = outcomes.len();
    let mut i: usize = 0;
    while i < n
        invariant
            n == outcomes@.len(),
            0 <= i <= n,
            forall|j: int| 0 <= j < i ==> !outcome_setting(outcomes@[j]).favourite,
        decreases n - i,
    {
        let favourite_here = match &outcomes[i] {
            FetchOutcome::Success(f) => f.setting.favourite(),
            FetchOutcome::Failure(s, _) => s.favourite(),
        };
        if favourite_here {
            proof {
                lemma_first_favourite_index(outcomes@);
                assert(outcome_setting(outcomes@[i as int]).favourite);
                let fi = first_favourite_index(outcomes@);
                assert(0 <= fi <= i);
                if fi < i as int {
                    assert(!outcome_setting(outcomes@[fi]).favourite);
                }
            }
            return match &outcomes[i] {
                FetchOutcome::Success(f) => Some((f.setting.repo().display_name(), f.stars)),
                FetchOutcome::Failure(_, _) => None,
            };
        }
        i = i + 1;
    }
    proof {
        lemma_first_favourite_index(outcomes@);
    }
    None
}

/// Outcome failures match result errors one for one.
proof fn lemma_counts_agree(rs: Seq<Result<u32, Error>>, os: Seq<FetchOutcome>)
    requires
        rs.len() == os.len(),
        forall|i: int| 0 <= i < os.len() ==> (outcome_is_success(os[i]) <==> rs[i] is Ok),
    ensures
        count_failures(os) == count_errors(rs),
    decreases os.len(),
{
    if os.len() > 0 {
        lemma_counts_agree(rs.drop_last(), os.drop_last());
    }
}

/// Law: fan-out isolation. When the outcomes pair the snapshot with its
/// per-entry results and exactly one result failed, the read still yields
/// one outcome per entry, exactly one of them failing, and every entry whose
/// result succeeded keeps its own star count.
pub proof fn lemma_fanout_isolation(
    settings: Seq<Setting>,
    results: Seq<Result<u32, Error>>,
    outcomes: Seq<FetchOutcome>,
)
    requires
        settings.len() == results.len(),
        outcomes.len() == settings.len(),
        forall|i: int| 0 <= i < outcomes.len() ==> outcome_matches(
            outcomes[i],
            settings[i],
            results[i],
        ),
        count_errors(results) == 1,
    ensures
        count_failures(outcomes) == 1,
        forall|i: int|
            0 <= i < outcomes.len() && results[i] is Ok ==> outcomes[i] == FetchOutcome::Success(
                Fetched { stars: results[i]->Ok_0, setting: settings[i] },
            ),
        forall|i: int|
            0 <= i < outcomes.len() && results[i] is Err ==> outcomes[i] == FetchOutcome::Failure(
                settings[i],
                results[i]->Err_0,
            ),
{
    assert forall|i: int| 0 <= i < outcomes.len() implies (outcome_is_success(outcomes[i]) <==> results[i] is Ok) by {
        assert(outcome_matches(outcomes[i], settings[i], results[i]));
    }
    lemma_counts_agree(results, outcomes);
}

/// Law: idempotence of a read. Two read cycles over the same snapshot,
/// whatever their per-entry results, speak about the same identifiers in the
/// same order; and when the snapshot holds no repeated identifier, neither
/// does either outcome list.
pub proof fn lemma_read_identity_stable(
    settings: Seq<Setting>,
    results1: Seq<Result<u32, Error>>,
    results2: Seq<Result<u32, Error>>,
    outcomes1: Seq<FetchOutcome>,
    outcomes2: Seq<FetchOutcome>,
)
    requires
        settings.len() == results1.len(),
        settings.len() == results2.len(),
        outcomes1.len() == settings.len(),
        outcomes2.len() == settings.len(),
        forall|i: int| 0 <= i < outcomes1.len() ==> outcome_matches(
            outcomes1[i],
            settings[i],
            results1[i],
        ),
        forall|i: int| 0 <= i < outcomes2.len() ==> outcome_matches(
            outcomes2[i],
            settings[i],
            results2[i],
        ),
    ensures
        outcome_ids(outcomes1) =~= outcome_ids(outcomes2),
        outcome_ids(outcomes1) =~= views_of(settings).map_values(|v: SettingView| v.id),
        unique_ids(views_of(settings)) ==> forall|i: int, j: int|
            0 <= i < j < outcomes1.len() ==> outcome_setting(outcomes1[i]).id != outcome_setting(
                outcomes1[j],
            ).id,
{
    assert forall|i: int| 0 <= i < outcomes1.len() implies outcome_setting(outcomes1[i])
        == settings[i]@ && outcome_setting(outcomes2[i]) == settings[i]@ by {
        assert(outcome_matches(outcomes1[i], settings[i], results1[i]));
        assert(outcome_matches(outcomes2[i], settings[i], results2[i]));
    }
    if unique_ids(views_of(settings)) {
        assert forall|i: int, j: int| 0 <= i < j < outcomes1.len() implies outcome_setting(
            outcomes1[i],
        ).id != outcome_setting(outcomes1[j]).id by {
            assert(views_of(settings)[i] == settings[i]@);
            assert(views_of(settings)[j] == settings[j]@);
        }
    }
}

} // verus!
