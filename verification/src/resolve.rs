//! Resolving requested flags against configuration text.
//!
//! A requested flag is first normalized, then checked against a
//! reference vocabulary: if no line there starts with
//! `CONFIG_<clean name>=`, the name is not a recognized option at all.
//! Otherwise the configuration text is scanned top to bottom; the first
//! line assigning exactly `y` or `m` decides the status, any other
//! assignment is passed over, and a flag no line decides is missing.

use vstd::prelude::*;

use crate::bytes::starts_with;
use crate::bytes::view_rows;
use crate::flags::canonical_name;
use crate::flags::canonical_of;
use crate::flags::lemma_normalization_idempotent;
use crate::flags::match_prefix;
use crate::flags::match_prefix_of;

verus! {

/// The byte `y`.
pub const YES: u8 = 0x79;

/// The byte `m`.
pub const MODULE: u8 = 0x6d;

/// The status resolution assigns to one requested flag.
#[derive(Clone, Copy, Debug, PartialEq, Eq, Structural)]
pub enum FlagStatus {
    /// The option is compiled into the kernel image (`=y`).
    EnabledBuiltin,
    /// The option is compiled as a loadable module (`=m`).
    EnabledAsModule,
    /// The option is recognized but not enabled.
    Missing,
    /// The name is not a recognized option in the reference vocabulary.
    InvalidOption,
}

/// One requested flag: its canonical name and its resolved status.
#[derive(Debug)]
pub struct FlagCheckResult {
    /// The canonical flag name, `CONFIG_<clean name>`.
    pub name: Vec<u8>,
    /// The resolved status.
    pub status: FlagStatus,
}

/// Whether `line` assigns exactly the one-byte value `v` under the
/// match prefix `p`: the line is `p` followed by `v` and nothing else.
pub open spec fn sets_value(line: Seq<u8>, p: Seq<u8>, v: u8) -> bool {
    line == p + seq![v]
}

/// Whether `line` decides a flag with match prefix `p`: it assigns
/// exactly `y` or exactly `m`.
pub open spec fn decides(line: Seq<u8>, p: Seq<u8>) -> bool {
    sets_value(line, p, YES) || sets_value(line, p, MODULE)
}

/// Whether some line of `lines` starts with `p`.
pub open spec fn some_line_starts_with(lines: Seq<Seq<u8>>, p: Seq<u8>) -> bool {
    exists|i: int| 0 <= i < lines.len() && p.is_prefix_of(#[trigger] lines[i])
}

/// The status a scan of the configuration lines gives a match prefix:
/// the first line assigning `y` or `m` decides; every other line,
/// matching the prefix or not, is passed over; with no deciding line
/// the flag is missing.
pub open spec fn scan_status(lines: Seq<Seq<u8>>, p: Seq<u8>) -> FlagStatus
    decreases lines.len(),
{
    if lines.len() == 0 {
        FlagStatus::Missing
    } else if sets_value(lines[0], p, YES) {
        FlagStatus::EnabledBuiltin
    } else if sets_value(lines[0], p, MODULE) {
        FlagStatus::EnabledAsModule
    } else {
        scan_status(lines.skip(1), p)
    }
}

/// The status of a requested raw flag name: `InvalidOption` when the
/// reference vocabulary has no line starting with the match prefix,
/// else whatever the scan of the configuration text gives.
pub open spec fn resolve_status(config: Seq<Seq<u8>>, vocab: Seq<Seq<u8>>, raw: Seq<u8>) -> FlagStatus {
    if !some_line_starts_with(vocab, match_prefix_of(raw)) {
        FlagStatus::InvalidOption
    } else {
        scan_status(config, match_prefix_of(raw))
    }
}

/// Whether some line of `lines` starts with `p`.
pub fn has_line_with_prefix(lines: &Vec<Vec<u8>>, p: &Vec<u8>) -> (r: bool)
    ensures
        r == some_line_starts_with(view_rows(lines@), p@),
{
    let mut i: usize = 0;
    while i < lines.len()
        invariant
            i <= lines.len(),
            forall|j: int| 0 <= j < i ==> !p@.is_prefix_of(#[trigger] lines@[j]@),
        decreases lines.len() - i,
    {
        if starts_with(&lines[i], p) {
            proof {
                assert(p@.is_prefix_of(view_rows(lines@)[i as int]));
            }
            return true;
        }
        i += 1;
    }
    proof {
        assert forall|k: int| 0 <= k < view_rows(lines@).len() implies !p@.is_prefix_of(
            view_rows(lines@)[k],
        ) by {
            assert(view_rows(lines@)[k] == lines@[k]@);
        }
    }
    false
}

/// Resolves one requested raw flag name against the configuration text
/// `config`, using `vocab` as the reference vocabulary of recognized
/// options.
pub fn resolve(config: &Vec<Vec<u8>>, vocab: &Vec<Vec<u8>>, raw_flag: &Vec<u8>) -> (r: FlagCheckResult)
    ensures
        r.name@ == canonical_of(raw_flag@),
        r.status == resolve_status(view_rows(config@), view_rows(vocab@), raw_flag@),
{
    let name = canonical_name(raw_flag);
    let p = match_prefix(raw_flag);
    if !has_line_with_prefix(vocab, &p) {
        return FlagCheckResult { name, status: FlagStatus::InvalidOption };
    }
    let ghost pv = p@;
    let ghost cv = view_rows(config@);
    let mut i: usize = 0;
    proof {
        assert(cv.skip(0) =~= cv);
    }
    while i < config.len()
        invariant
            i <= config.len(),
            config@.len() == cv.len(),
            cv == view_rows(config@),
            pv == p@,
            pv == match_prefix_of(raw_flag@),
            name@ == canonical_of(raw_flag@),
            some_line_starts_with(view_rows(vocab@), pv),
            scan_status(cv, pv) == scan_status(cv.skip(i as int), pv),
        decreases config.len() - i,
    {
        proof {
            assert(cv.skip(i as int)[0] == cv[i as int]);
            assert(cv.skip(i as int).skip(1) =~= cv.skip(i + 1));
        }
        let line = &config[i];
        if line.len() >= 1 && line.len() - 1 == p.len() && starts_with(line, &p) {
            let v = line[line.len() - 1];
            if v == YES {
                proof {
                    assert(line@ =~= pv + seq![YES]);
                }
                return FlagCheckResult { name, status: FlagStatus::EnabledBuiltin };
            }
            if v == MODULE {
                proof {
                    assert(line@ =~= pv + seq![MODULE]);
                }
                return FlagCheckResult { name, status: FlagStatus::EnabledAsModule };
            }
            proof {
                assert((pv + seq![YES])[pv.len() as int] == YES);
                assert((pv + seq![MODULE])[pv.len() as int] == MODULE);
            }
        } else {
            proof {
                if decides(cv[i as int], pv) {
                    assert(line@.len() == pv.len() + 1);
                    assert(line@.subrange(0, pv.len() as int) =~= pv);
                }
            }
        }
        i += 1;
    }
    proof {
        assert(cv.skip(cv.len() as int) =~= Seq::<Seq<u8>>::empty());
    }
    FlagCheckResult { name, status: FlagStatus::Missing }
}

/// Resolves every requested flag in declaration order, duplicates
/// included: the result holds one entry per requested flag, in the
/// same order.
pub fn check_flags(config: &Vec<Vec<u8>>, vocab: &Vec<Vec<u8>>, requested: &Vec<Vec<u8>>) -> (r:
    Vec<FlagCheckResult>)
    ensures
        r@.len() == requested@.len(),
        forall|i: int|
            0 <= i < requested@.len() ==> {
                &&& (#[trigger] r@[i]).name@ == canonical_of(requested@[i]@)
                &&& r@[i].status == resolve_status(
                    view_rows(config@),
                    view_rows(vocab@),
                    requested@[i]@,
                )
            },
{
    let mut r: Vec<FlagCheckResult> = Vec::new();
    let mut i: usize = 0;
    while i < requested.len()
        invariant
            i <= requested.len(),
            r@.len() == i,
            forall|j: int|
                0 <= j < i ==> {
                    &&& (#[trigger] r@[j]).name@ == canonical_of(requested@[j]@)
                    &&& r@[j].status == resolve_status(
                        view_rows(config@),
                        view_rows(vocab@),
                        requested@[j]@,
                    )
                },
        decreases requested.len() - i,
    {
        let one = resolve(config, vocab, &requested[i]);
        r.push(one);
        i += 1;
    }
    r
}

/// A flag resolves the same however it was spelled: resolving the
/// canonical name gives the same status as resolving the raw name,
/// and a name that lacks the prefix resolves the same with the prefix
/// put on.
pub proof fn lemma_resolution_normalization(
    config: Seq<Seq<u8>>,
    vocab: Seq<Seq<u8>>,
    raw: Seq<u8>,
)
    ensures
        resolve_status(config, vocab, canonical_of(raw)) == resolve_status(config, vocab, raw),
        !crate::flags::config_prefix().is_prefix_of(raw) ==> resolve_status(
            config,
            vocab,
            crate::flags::config_prefix() + raw,
        ) == resolve_status(config, vocab, raw),
{
    lemma_normalization_idempotent(raw);
    assert(match_prefix_of(canonical_of(raw)) == match_prefix_of(raw));
    if !crate::flags::config_prefix().is_prefix_of(raw) {
        assert(match_prefix_of(crate::flags::config_prefix() + raw) == match_prefix_of(raw));
    }
}

/// A scan is decided by its first deciding line.
proof fn lemma_scan_decided(lines: Seq<Seq<u8>>, p: Seq<u8>, i: int)
    requires
        0 <= i < lines.len(),
        decides(lines[i], p),
        forall|j: int| 0 <= j < i ==> !decides(#[trigger] lines[j], p),
    ensures
        sets_value(lines[i], p, YES) ==> scan_status(lines, p) == FlagStatus::EnabledBuiltin,
        sets_value(lines[i], p, MODULE) ==> scan_status(lines, p) == FlagStatus::EnabledAsModule,
    decreases i,
{
    assert((p + seq![YES])[p.len() as int] == YES);
    assert((p + seq![MODULE])[p.len() as int] == MODULE);
    if i == 0 {
    } else {
        assert(!decides(lines[0], p));
        assert forall|j: int| 0 <= j < i - 1 implies !decides(#[trigger] lines.skip(1)[j], p) by {
            assert(lines.skip(1)[j] == lines[j + 1]);
        }
        assert(lines.skip(1)[i - 1] == lines[i]);
        lemma_scan_decided(lines.skip(1), p, i - 1);
    }
}

/// A scan with no deciding line reports the flag missing.
proof fn lemma_scan_missing(lines: Seq<Seq<u8>>, p: Seq<u8>)
    requires
        forall|j: int| 0 <= j < lines.len() ==> !decides(#[trigger] lines[j], p),
    ensures
        scan_status(lines, p) == FlagStatus::Missing,
    decreases lines.len(),
{
    if lines.len() > 0 {
        assert(!decides(lines[0], p));
        assert forall|j: int| 0 <= j < lines.skip(1).len() implies !decides(
            #[trigger] lines.skip(1)[j],
            p,
        ) by {
            assert(lines.skip(1)[j] == lines[j + 1]);
        }
        lemma_scan_missing(lines.skip(1), p);
    }
}

/// Classification by content.  With the match prefix recognized by the
/// vocabulary, the first configuration line assigning `y` makes the
/// flag `EnabledBuiltin` and the first assigning `m` makes it
/// `EnabledAsModule`; lines with any other value are passed over.
pub proof fn lemma_resolve_decided(
    config: Seq<Seq<u8>>,
    vocab: Seq<Seq<u8>>,
    raw: Seq<u8>,
    i: int,
)
    requires
        some_line_starts_with(vocab, match_prefix_of(raw)),
        0 <= i < config.len(),
        decides(config[i], match_prefix_of(raw)),
        forall|j: int| 0 <= j < i ==> !decides(#[trigger] config[j], match_prefix_of(raw)),
    ensures
        sets_value(config[i], match_prefix_of(raw), YES) ==> resolve_status(config, vocab, raw)
            == FlagStatus::EnabledBuiltin,
        sets_value(config[i], match_prefix_of(raw), MODULE) ==> resolve_status(config, vocab, raw)
            == FlagStatus::EnabledAsModule,
{
    lemma_scan_decided(config, match_prefix_of(raw), i);
}

/// Classification without a deciding line.  An unrecognized name is
/// `InvalidOption`, before any look at the configuration text; a
/// recognized one that no configuration line assigns `y` or `m` is
/// `Missing`.
pub proof fn lemma_resolve_undecided(config: Seq<Seq<u8>>, vocab: Seq<Seq<u8>>, raw: Seq<u8>)
    ensures
        !some_line_starts_with(vocab, match_prefix_of(raw)) ==> resolve_status(config, vocab, raw)
            == FlagStatus::InvalidOption,
        some_line_starts_with(vocab, match_prefix_of(raw)) && (forall|j: int|
            0 <= j < config.len() ==> !decides(#[trigger] config[j], match_prefix_of(raw)))
            ==> resolve_status(config, vocab, raw) == FlagStatus::Missing,
{
    if some_line_starts_with(vocab, match_prefix_of(raw)) && (forall|j: int|
        0 <= j < config.len() ==> !decides(#[trigger] config[j], match_prefix_of(raw))) {
        lemma_scan_missing(config, match_prefix_of(raw));
    }
}

} // verus!
