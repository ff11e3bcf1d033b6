//! Summarizing resolution and mutation results.
//!
//! Resolution results are reported one per requested flag, in request
//! order.  The process exit indicator is binary: success only when
//! every requested flag is enabled built-in or as a module.  Follow-up
//! lists name the unique missing and unrecognized flags; mutation is
//! summarized by counting outcomes.

use vstd::prelude::*;

use crate::bytes::copy_bytes;
use crate::bytes::lemma_view_rows_push;
use crate::bytes::rows_contain;
use crate::bytes::view_rows;
use crate::mutate::outcomes_of;
use crate::mutate::FlagMutation;
use crate::mutate::MutationOutcome;
use crate::resolve::FlagCheckResult;
use crate::resolve::FlagStatus;

verus! {

/// Whether a status satisfies the request: the flag is enabled
/// built-in or as a module.
pub open spec fn status_ok(s: FlagStatus) -> bool {
    s == FlagStatus::EnabledBuiltin || s == FlagStatus::EnabledAsModule
}

/// Whether every result satisfies its request.
pub open spec fn all_ok(rs: Seq<FlagCheckResult>) -> bool {
    forall|i: int| 0 <= i < rs.len() ==> status_ok((#[trigger] rs[i]).status)
}

/// The process exit code over a result list: `0` when every requested
/// flag is enabled built-in or as a module, `1` otherwise.
pub fn exit_code(results: &Vec<FlagCheckResult>) -> (r: i32)
    ensures
        r == 0 || r == 1,
        (r == 0) == all_ok(results@),
{
    let mut i: usize = 0;
    while i < results.len()
        invariant
            i <= results.len(),
            forall|j: int| 0 <= j < i ==> status_ok((#[trigger] results@[j]).status),
        decreases results.len() - i,
    {
        let one = &results[i];
        if !(one.status == FlagStatus::EnabledBuiltin || one.status == FlagStatus::EnabledAsModule) {
            proof {
                assert(!status_ok(results@[i as int].status));
            }
            return 1;
        }
        i += 1;
    }
    0
}

/// The names of the results with status `st`, first occurrences only,
/// given the names `seen` already listed.
pub open spec fn select_names_rec(
    rs: Seq<FlagCheckResult>,
    st: FlagStatus,
    seen: Seq<Seq<u8>>,
) -> Seq<Seq<u8>>
    decreases rs.len(),
{
    if rs.len() == 0 {
        Seq::empty()
    } else {
        let n = rs[0].name@;
        if rs[0].status == st && !seen.contains(n) {
            seq![n] + select_names_rec(rs.skip(1), st, seen.push(n))
        } else {
            select_names_rec(rs.skip(1), st, seen)
        }
    }
}

/// The unique names that resolved to `st`, in first-occurrence order.
pub open spec fn names_with_status(rs: Seq<FlagCheckResult>, st: FlagStatus) -> Seq<Seq<u8>> {
    select_names_rec(rs, st, Seq::empty())
}

/// Collects the unique flag names that resolved to `st`, in
/// first-occurrence order.
pub fn unique_names_with_status(results: &Vec<FlagCheckResult>, st: FlagStatus) -> (r: Vec<
    Vec<u8>,
>)
    ensures
        view_rows(r@) == names_with_status(results@, st),
{
    let mut r: Vec<Vec<u8>> = Vec::new();
    let mut i: usize = 0;
    proof {
        assert(results@.skip(0) =~= results@);
        assert(view_rows(r@) =~= Seq::<Seq<u8>>::empty());
        assert(Seq::<Seq<u8>>::empty() + select_names_rec(results@, st, view_rows(r@))
            =~= select_names_rec(results@, st, view_rows(r@)));
    }
    while i < results.len()
        invariant
            i <= results.len(),
            names_with_status(results@, st) == view_rows(r@) + select_names_rec(
                results@.skip(i as int),
                st,
                view_rows(r@),
            ),
        decreases results.len() - i,
    {
        let ghost rest = results@.skip(i as int);
        let ghost r0 = view_rows(r@);
        proof {
            assert(rest[0] == results@[i as int]);
            assert(rest.skip(1) =~= results@.skip(i + 1));
        }
        let one = &results[i];
        if one.status == st {
            let n = copy_bytes(&one.name);
            if !rows_contain(&r, &n) {
                proof {
                    lemma_view_rows_push(r@, n);
                }
                r.push(n);
                proof {
                    assert(r0 + (seq![rest[0].name@] + select_names_rec(rest.skip(1), st, r0.push(
                        rest[0].name@,
                    ))) =~= view_rows(r@) + select_names_rec(rest.skip(1), st, view_rows(r@)));
                }
            }
        }
        i += 1;
    }
    proof {
        assert(results@.skip(results@.len() as int) =~= Seq::<FlagCheckResult>::empty());
        assert(view_rows(r@) + Seq::<Seq<u8>>::empty() =~= view_rows(r@));
    }
    r
}

/// How many outcomes equal `oc`.
pub open spec fn count_outcomes(ocs: Seq<MutationOutcome>, oc: MutationOutcome) -> int
    decreases ocs.len(),
{
    if ocs.len() == 0 {
        0
    } else {
        (if ocs[0] == oc {
            1int
        } else {
            0int
        }) + count_outcomes(ocs.skip(1), oc)
    }
}

/// Counts the flags whose mutation outcome is `oc`.
pub fn count_with_outcome(flags: &Vec<FlagMutation>, oc: MutationOutcome) -> (r: usize)
    ensures
        r == count_outcomes(outcomes_of(flags@), oc),
{
    let ghost ocs = outcomes_of(flags@);
    let mut n: usize = 0;
    let mut i: usize = 0;
    proof {
        assert(ocs.skip(0) =~= ocs);
    }
    while i < flags.len()
        invariant
            i <= flags.len(),
            n <= i,
            flags@.len() == ocs.len(),
            ocs == outcomes_of(flags@),
            count_outcomes(ocs, oc) == n + count_outcomes(ocs.skip(i as int), oc),
        decreases flags.len() - i,
    {
        proof {
            assert(ocs.skip(i as int)[0] == ocs[i as int]);
            assert(ocs.skip(i as int).skip(1) =~= ocs.skip(i + 1));
        }
        let one = &flags[i];
        if one.outcome == oc {
            n += 1;
        }
        i += 1;
    }
    proof {
        assert(ocs.skip(ocs.len() as int) =~= Seq::<MutationOutcome>::empty());
    }
    n
}

} // verus!
