//! Extending configuration text with missing flags.
//!
//! The wanted flags are reduced to their unique clean names; each name
//! some current line already assigns is reported present and left
//! untouched, and each other name appends one line
//! `CONFIG_<clean name>=y` at the end.  Existing lines are never
//! altered, whatever value they assign.

use vstd::prelude::*;

use crate::bytes::append_bytes;
use crate::bytes::append_rows;
use crate::bytes::lemma_view_rows_push;
use crate::bytes::rows_contain;
use crate::bytes::view_rows;
use crate::flags::clean_name;
use crate::flags::clean_of;
use crate::flags::config_prefix;
use crate::flags::config_prefix_bytes;
use crate::flags::EQ;
use crate::resolve::has_line_with_prefix;
use crate::resolve::some_line_starts_with;
use crate::resolve::YES;

verus! {

/// What mutation did for one wanted flag.
#[derive(Clone, Copy, Debug, PartialEq, Eq, Structural)]
pub enum MutationOutcome {
    /// A line for the flag already existed and was left untouched.
    AlreadyPresent,
    /// No line assigned the flag; one was appended.
    Added,
}

/// One wanted flag under its canonical name, with what mutation did.
#[derive(Debug)]
pub struct FlagMutation {
    /// The canonical flag name, `CONFIG_<clean name>`.
    pub name: Vec<u8>,
    /// What mutation did for this flag.
    pub outcome: MutationOutcome,
}

/// The whole result of a mutation: the updated line sequence and one
/// outcome per unique wanted clean name.
#[derive(Debug)]
pub struct MutationReport {
    /// The configuration lines after mutation.
    pub lines: Vec<Vec<u8>>,
    /// One entry per unique wanted clean name, in first-occurrence order.
    pub flags: Vec<FlagMutation>,
}

/// The match prefix of a clean name: `CONFIG_<clean name>=`.
pub open spec fn prefix_of_clean(c: Seq<u8>) -> Seq<u8> {
    config_prefix() + c + seq![EQ]
}

/// The line appended for a clean name: `CONFIG_<clean name>=y`.
pub open spec fn line_of_clean(c: Seq<u8>) -> Seq<u8> {
    config_prefix() + c + seq![EQ] + seq![YES]
}

/// The clean names of `ws` with repetitions dropped, given the names
/// `seen` already kept.
pub open spec fn dedup_rec(ws: Seq<Seq<u8>>, seen: Seq<Seq<u8>>) -> Seq<Seq<u8>>
    decreases ws.len(),
{
    if ws.len() == 0 {
        Seq::empty()
    } else {
        let c = clean_of(ws[0]);
        if seen.contains(c) {
            dedup_rec(ws.skip(1), seen)
        } else {
            seq![c] + dedup_rec(ws.skip(1), seen.push(c))
        }
    }
}

/// The unique clean names of the wanted flags, in first-occurrence
/// order.
pub open spec fn unique_cleans(ws: Seq<Seq<u8>>) -> Seq<Seq<u8>> {
    dedup_rec(ws, Seq::empty())
}

/// The configuration lines after processing the clean names in order:
/// a name some current line already matches changes nothing, any other
/// name appends its line at the end.
pub open spec fn mutate_lines(lines: Seq<Seq<u8>>, cleans: Seq<Seq<u8>>) -> Seq<Seq<u8>>
    decreases cleans.len(),
{
    if cleans.len() == 0 {
        lines
    } else if some_line_starts_with(lines, prefix_of_clean(cleans[0])) {
        mutate_lines(lines, cleans.skip(1))
    } else {
        mutate_lines(lines.push(line_of_clean(cleans[0])), cleans.skip(1))
    }
}

/// The per-name outcomes of the same processing, in the same order.
pub open spec fn mutate_outcomes(lines: Seq<Seq<u8>>, cleans: Seq<Seq<u8>>) -> Seq<MutationOutcome>
    decreases cleans.len(),
{
    if cleans.len() == 0 {
        Seq::empty()
    } else if some_line_starts_with(lines, prefix_of_clean(cleans[0])) {
        seq![MutationOutcome::AlreadyPresent] + mutate_outcomes(lines, cleans.skip(1))
    } else {
        seq![MutationOutcome::Added] + mutate_outcomes(
            lines.push(line_of_clean(cleans[0])),
            cleans.skip(1),
        )
    }
}

/// The outcomes a sequence of flag mutations reports.
pub open spec fn outcomes_of(fs: Seq<FlagMutation>) -> Seq<MutationOutcome> {
    Seq::new(fs.len(), |i: int| fs[i].outcome)
}

/// Reduces the wanted flags to their unique clean names, keeping
/// first-occurrence order.
pub fn dedup_clean_names(wanted: &Vec<Vec<u8>>) -> (r: Vec<Vec<u8>>)
    ensures
        view_rows(r@) == unique_cleans(view_rows(wanted@)),
{
    let ghost wv = view_rows(wanted@);
    let mut r: Vec<Vec<u8>> = Vec::new();
    let mut i: usize = 0;
    proof {
        assert(wv.skip(0) =~= wv);
        assert(view_rows(r@) =~= Seq::<Seq<u8>>::empty());
        assert(Seq::<Seq<u8>>::empty() + dedup_rec(wv, view_rows(r@)) =~= dedup_rec(
            wv,
            view_rows(r@),
        ));
    }
    while i < wanted.len()
        invariant
            i <= wanted.len(),
            wanted@.len() == wv.len(),
            wv == view_rows(wanted@),
            unique_cleans(wv) == view_rows(r@) + dedup_rec(wv.skip(i as int), view_rows(r@)),
        decreases wanted.len() - i,
    {
        let ghost rest = wv.skip(i as int);
        let ghost r0 = view_rows(r@);
        proof {
            assert(rest[0] == wv[i as int]);
            assert(rest.skip(1) =~= wv.skip(i + 1));
        }
        let c = clean_name(&wanted[i]);
        if !rows_contain(&r, &c) {
            proof {
                lemma_view_rows_push(r@, c);
            }
            r.push(c);
            proof {
                assert(r0 + (seq![clean_of(rest[0])] + dedup_rec(rest.skip(1), r0.push(
                    clean_of(rest[0]),
                ))) =~= view_rows(r@) + dedup_rec(rest.skip(1), view_rows(r@)));
            }
        }
        i += 1;
    }
    proof {
        assert(wv.skip(wv.len() as int) =~= Seq::<Seq<u8>>::empty());
        assert(view_rows(r@) + Seq::<Seq<u8>>::empty() =~= view_rows(r@));
    }
    r
}

/// Applies the wanted flags to the configuration lines.  One outcome is
/// reported per unique clean name; a flag some existing line assigns is
/// left exactly as it was, and every other flag appends
/// `CONFIG_<clean name>=y` at the end.
pub fn apply_mutation(lines: &Vec<Vec<u8>>, wanted: &Vec<Vec<u8>>) -> (r: MutationReport)
    ensures
        view_rows(r.lines@) == mutate_lines(view_rows(lines@), unique_cleans(view_rows(wanted@))),
        r.flags@.len() == unique_cleans(view_rows(wanted@)).len(),
        forall|i: int|
            0 <= i < r.flags@.len() ==> (#[trigger] r.flags@[i]).name@ == config_prefix()
                + unique_cleans(view_rows(wanted@))[i],
        outcomes_of(r.flags@) == mutate_outcomes(
            view_rows(lines@),
            unique_cleans(view_rows(wanted@)),
        ),
        view_rows(lines@).is_prefix_of(view_rows(r.lines@)),
        forall|i: int| 0 <= i < lines@.len() ==> view_rows(r.lines@)[i] == #[trigger] lines@[i]@,
{
    let cleans = dedup_clean_names(wanted);
    let ghost cl = unique_cleans(view_rows(wanted@));
    let ghost l0 = view_rows(lines@);
    let mut out: Vec<Vec<u8>> = Vec::new();
    append_rows(&mut out, lines);
    let mut fs: Vec<FlagMutation> = Vec::new();
    let mut i: usize = 0;
    proof {
        assert(view_rows(out@) =~= l0);
        assert(cl.skip(0) =~= cl);
        assert(l0.is_prefix_of(l0)) by {
            assert(l0 =~= l0.subrange(0, l0.len() as int));
        }
        assert(outcomes_of(fs@) + mutate_outcomes(view_rows(out@), cl) =~= mutate_outcomes(
            view_rows(out@),
            cl,
        ));
    }
    while i < cleans.len()
        invariant
            i <= cleans.len(),
            cleans@.len() == cl.len(),
            cl == view_rows(cleans@),
            l0 == view_rows(lines@),
            fs@.len() == i,
            mutate_lines(l0, cl) == mutate_lines(view_rows(out@), cl.skip(i as int)),
            mutate_outcomes(l0, cl) == outcomes_of(fs@) + mutate_outcomes(
                view_rows(out@),
                cl.skip(i as int),
            ),
            forall|k: int|
                0 <= k < i ==> (#[trigger] fs@[k]).name@ == config_prefix() + cl[k],
            l0.is_prefix_of(view_rows(out@)),
        decreases cleans.len() - i,
    {
        let ghost rest = cl.skip(i as int);
        let ghost out0 = view_rows(out@);
        let ghost fs0 = fs@;
        proof {
            assert(rest[0] == cl[i as int]);
            assert(rest.skip(1) =~= cl.skip(i + 1));
            assert(cl[i as int] == cleans@[i as int]@);
        }
        let mut nm = config_prefix_bytes();
        append_bytes(&mut nm, &cleans[i]);
        let mut pb = config_prefix_bytes();
        append_bytes(&mut pb, &cleans[i]);
        pb.push(EQ);
        proof {
            assert(pb@ =~= prefix_of_clean(cl[i as int]));
        }
        if has_line_with_prefix(&out, &pb) {
            fs.push(FlagMutation { name: nm, outcome: MutationOutcome::AlreadyPresent });
            proof {
                assert(outcomes_of(fs@) =~= outcomes_of(fs0).push(MutationOutcome::AlreadyPresent));
                assert(outcomes_of(fs0) + (seq![MutationOutcome::AlreadyPresent]
                    + mutate_outcomes(out0, rest.skip(1))) =~= outcomes_of(fs@) + mutate_outcomes(
                    out0,
                    rest.skip(1),
                ));
            }
        } else {
            let mut ln = pb;
            ln.push(YES);
            proof {
                assert(ln@ =~= line_of_clean(cl[i as int]));
                lemma_view_rows_push(out@, ln);
            }
            out.push(ln);
            fs.push(FlagMutation { name: nm, outcome: MutationOutcome::Added });
            proof {
                assert(view_rows(out@) =~= out0.push(line_of_clean(cl[i as int])));
                assert(outcomes_of(fs@) =~= outcomes_of(fs0).push(MutationOutcome::Added));
                assert(outcomes_of(fs0) + (seq![MutationOutcome::Added] + mutate_outcomes(
                    view_rows(out@),
                    rest.skip(1),
                )) =~= outcomes_of(fs@) + mutate_outcomes(view_rows(out@), rest.skip(1)));
                assert(l0.is_prefix_of(view_rows(out@))) by {
                    assert(l0 =~= view_rows(out@).subrange(0, l0.len() as int));
                }
            }
        }
        i += 1;
    }
    proof {
        assert(cl.skip(cl.len() as int) =~= Seq::<Seq<u8>>::empty());
        assert(outcomes_of(fs@) + Seq::<MutationOutcome>::empty() =~= outcomes_of(fs@));
        assert forall|k: int| 0 <= k < lines@.len() implies view_rows(out@)[k] == lines@[k]@ by {
            assert(l0 == view_rows(out@).subrange(0, l0.len() as int));
            assert(view_rows(out@).subrange(0, l0.len() as int)[k] == view_rows(out@)[k]);
            assert(l0[k] == lines@[k]@);
        }
    }
    MutationReport { lines: out, flags: fs }
}

/// A line found under a prefix is still found after lines are appended.
proof fn lemma_prefix_line_monotone(l1: Seq<Seq<u8>>, l2: Seq<Seq<u8>>, p: Seq<u8>)
    requires
        l1.is_prefix_of(l2),
        some_line_starts_with(l1, p),
    ensures
        some_line_starts_with(l2, p),
{
    let i = choose|i: int| 0 <= i < l1.len() && p.is_prefix_of(#[trigger] l1[i]);
    assert(l1[i] == l1.subrange(0, l1.len() as int)[i]);
    assert(l2[i] == l1[i]);
    assert(p.is_prefix_of(l2[i]));
}

/// Mutation only appends: the given lines stay an unchanged prefix.
proof fn lemma_mutate_extends(lines: Seq<Seq<u8>>, cleans: Seq<Seq<u8>>)
    ensures
        lines.is_prefix_of(mutate_lines(lines, cleans)),
    decreases cleans.len(),
{
    if cleans.len() == 0 {
        assert(lines =~= lines.subrange(0, lines.len() as int));
    } else if some_line_starts_with(lines, prefix_of_clean(cleans[0])) {
        lemma_mutate_extends(lines, cleans.skip(1));
    } else {
        let l2 = lines.push(line_of_clean(cleans[0]));
        lemma_mutate_extends(l2, cleans.skip(1));
        let res = mutate_lines(l2, cleans.skip(1));
        assert forall|k: int| 0 <= k < lines.len() implies res.subrange(0, lines.len() as int)[k]
            == lines[k] by {
            assert(l2[k] == lines[k]);
            assert(l2[k] == l2.subrange(0, l2.len() as int)[k]);
            assert(res[k] == l2[k]);
        }
        assert(lines =~= res.subrange(0, lines.len() as int));
    }
}

/// After mutation, every processed clean name has a line that assigns
/// it.
proof fn lemma_mutate_covers(lines: Seq<Seq<u8>>, cleans: Seq<Seq<u8>>)
    ensures
        forall|k: int|
            0 <= k < cleans.len() ==> some_line_starts_with(
                mutate_lines(lines, cleans),
                prefix_of_clean(#[trigger] cleans[k]),
            ),
    decreases cleans.len(),
{
    if cleans.len() > 0 {
        let c = cleans[0];
        let p = prefix_of_clean(c);
        if some_line_starts_with(lines, p) {
            lemma_mutate_covers(lines, cleans.skip(1));
            lemma_mutate_extends(lines, cleans.skip(1));
            lemma_prefix_line_monotone(lines, mutate_lines(lines, cleans.skip(1)), p);
            assert forall|k: int|
                0 <= k < cleans.len() implies some_line_starts_with(
                mutate_lines(lines, cleans),
                prefix_of_clean(#[trigger] cleans[k]),
            ) by {
                if k > 0 {
                    assert(cleans.skip(1)[k - 1] == cleans[k]);
                }
            }
        } else {
            let l2 = lines.push(line_of_clean(c));
            lemma_mutate_covers(l2, cleans.skip(1));
            lemma_mutate_extends(l2, cleans.skip(1));
            assert(p.is_prefix_of(l2[lines.len() as int])) by {
                assert(p =~= line_of_clean(c).subrange(0, p.len() as int));
            }
            assert(some_line_starts_with(l2, p));
            lemma_prefix_line_monotone(l2, mutate_lines(l2, cleans.skip(1)), p);
            assert forall|k: int|
                0 <= k < cleans.len() implies some_line_starts_with(
                mutate_lines(lines, cleans),
                prefix_of_clean(#[trigger] cleans[k]),
            ) by {
                if k > 0 {
                    assert(cleans.skip(1)[k - 1] == cleans[k]);
                }
            }
        }
    }
}

/// Mutating lines that already assign every clean name changes nothing
/// and reports every name present.
proof fn lemma_mutate_stable(lines: Seq<Seq<u8>>, cleans: Seq<Seq<u8>>)
    requires
        forall|k: int|
            0 <= k < cleans.len() ==> some_line_starts_with(
                lines,
                prefix_of_clean(#[trigger] cleans[k]),
            ),
    ensures
        mutate_lines(lines, cleans) == lines,
        mutate_outcomes(lines, cleans).len() == cleans.len(),
        forall|k: int|
            0 <= k < cleans.len() ==> mutate_outcomes(lines, cleans)[k]
                == MutationOutcome::AlreadyPresent,
    decreases cleans.len(),
{
    if cleans.len() > 0 {
        assert(some_line_starts_with(lines, prefix_of_clean(cleans[0])));
        assert forall|k: int| 0 <= k < cleans.skip(1).len() implies some_line_starts_with(
            lines,
            prefix_of_clean(#[trigger] cleans.skip(1)[k]),
        ) by {
            assert(cleans.skip(1)[k] == cleans[k + 1]);
        }
        lemma_mutate_stable(lines, cleans.skip(1));
        assert forall|k: int| 0 <= k < cleans.len() implies mutate_outcomes(lines, cleans)[k]
            == MutationOutcome::AlreadyPresent by {
            if k > 0 {
                assert(mutate_outcomes(lines, cleans)[k] == mutate_outcomes(
                    lines,
                    cleans.skip(1),
                )[k - 1]);
            }
        }
    }
}

/// Mutation is idempotent: mutating the mutated lines with the same
/// clean names changes nothing further, and the second run reports
/// every name already present.
pub proof fn lemma_mutation_idempotent(lines: Seq<Seq<u8>>, cleans: Seq<Seq<u8>>)
    ensures
        mutate_lines(mutate_lines(lines, cleans), cleans) == mutate_lines(lines, cleans),
        mutate_outcomes(mutate_lines(lines, cleans), cleans).len() == cleans.len(),
        forall|k: int|
            0 <= k < cleans.len() ==> mutate_outcomes(mutate_lines(lines, cleans), cleans)[k]
                == MutationOutcome::AlreadyPresent,
{
    lemma_mutate_covers(lines, cleans);
    lemma_mutate_stable(mutate_lines(lines, cleans), cleans);
}

/// Mutation never alters an existing line, whatever value it assigns:
/// every line of the given sequence reappears unchanged at its own
/// position.
pub proof fn lemma_mutation_preserves_existing(lines: Seq<Seq<u8>>, cleans: Seq<Seq<u8>>)
    ensures
        lines.is_prefix_of(mutate_lines(lines, cleans)),
        forall|i: int| 0 <= i < lines.len() ==> mutate_lines(lines, cleans)[i] == lines[i],
{
    lemma_mutate_extends(lines, cleans);
    let res = mutate_lines(lines, cleans);
    assert forall|i: int| 0 <= i < lines.len() implies res[i] == lines[i] by {
        assert(lines[i] == res.subrange(0, lines.len() as int)[i]);
    }
}

} // verus!
