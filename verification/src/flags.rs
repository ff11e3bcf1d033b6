//! Flag names: normalization and flag-list parsing.
//!
//! A flag may be given with or without its `CONFIG_` prefix; before any
//! comparison or output it is normalized to the one canonical form
//! `CONFIG_<clean name>`.  Flag-declaration files hold one flag per
//! line; blank lines and `#` comments are ignored, and an `=value`
//! suffix is discarded.  An inline argument holds comma-separated flag
//! names.

use vstd::prelude::*;

use crate::bytes::append_bytes;
use crate::bytes::append_rows;
use crate::bytes::byte_is_space;
use crate::bytes::copy_bytes;
use crate::bytes::is_space;
use crate::bytes::lemma_view_rows_push;
use crate::bytes::starts_with;
use crate::bytes::view_rows;
use crate::lines::split_lines;
use crate::lines::split_lines_spec;

verus! {

/// The byte `=`.
pub const EQ: u8 = 0x3d;

/// The byte `#`.
pub const HASH: u8 = 0x23;

/// The byte `,`.
pub const COMMA: u8 = 0x2c;

/// The canonical flag prefix, `CONFIG_`.
pub open spec fn config_prefix() -> Seq<u8> {
    seq![0x43u8, 0x4f, 0x4e, 0x46, 0x49, 0x47, 0x5f]
}

/// The clean name of a raw flag: the raw bytes with one leading
/// `CONFIG_` removed, if present.
pub open spec fn clean_of(raw: Seq<u8>) -> Seq<u8> {
    if config_prefix().is_prefix_of(raw) {
        raw.skip(config_prefix().len() as int)
    } else {
        raw
    }
}

/// The canonical reported name: `CONFIG_<clean name>`.
pub open spec fn canonical_of(raw: Seq<u8>) -> Seq<u8> {
    config_prefix() + clean_of(raw)
}

/// The prefix a configuration line must start with to assign this
/// flag: `CONFIG_<clean name>=`.
pub open spec fn match_prefix_of(raw: Seq<u8>) -> Seq<u8> {
    canonical_of(raw) + seq![EQ]
}

/// The bytes of `config_prefix`, for executable code.
pub fn config_prefix_bytes() -> (r: Vec<u8>)
    ensures
        r@ == config_prefix(),
{
    let mut v: Vec<u8> = Vec::new();
    v.push(0x43);
    v.push(0x4f);
    v.push(0x4e);
    v.push(0x46);
    v.push(0x49);
    v.push(0x47);
    v.push(0x5f);
    proof {
        assert(v@ =~= config_prefix());
    }
    v
}

/// The clean name of a raw flag, its `CONFIG_` prefix removed if present.
pub fn clean_name(raw: &Vec<u8>) -> (r: Vec<u8>)
    ensures
        r@ == clean_of(raw@),
{
    let p = config_prefix_bytes();
    if starts_with(raw, &p) {
        let mut r: Vec<u8> = Vec::new();
        let mut i: usize = p.len();
        proof {
            assert(r@ =~= raw@.subrange(p@.len() as int, i as int));
        }
        while i < raw.len()
            invariant
                p@.len() <= i <= raw@.len(),
                p@ == config_prefix(),
                r@ == raw@.subrange(p@.len() as int, i as int),
            decreases raw.len() - i,
        {
            r.push(raw[i]);
            proof {
                assert(r@ =~= raw@.subrange(p@.len() as int, i + 1));
            }
            i += 1;
        }
        proof {
            assert(raw@.subrange(p@.len() as int, raw@.len() as int) =~= raw@.skip(
                config_prefix().len() as int,
            ));
        }
        r
    } else {
        copy_bytes(raw)
    }
}

/// The canonical name of a raw flag.
pub fn canonical_name(raw: &Vec<u8>) -> (r: Vec<u8>)
    ensures
        r@ == canonical_of(raw@),
{
    let p = config_prefix_bytes();
    if starts_with(raw, &p) {
        proof {
            assert(canonical_of(raw@) =~= raw@);
        }
        copy_bytes(raw)
    } else {
        let mut r = p;
        append_bytes(&mut r, raw);
        r
    }
}

/// The match prefix of a raw flag, `CONFIG_<clean name>=`.
pub fn match_prefix(raw: &Vec<u8>) -> (r: Vec<u8>)
    ensures
        r@ == match_prefix_of(raw@),
{
    let mut r = canonical_name(raw);
    r.push(EQ);
    proof {
        assert(r@ =~= match_prefix_of(raw@));
    }
    r
}

/// `s` with whitespace removed at the front.
pub open spec fn trim_front(s: Seq<u8>) -> Seq<u8>
    decreases s.len(),
{
    if s.len() > 0 && is_space(s[0]) {
        trim_front(s.skip(1))
    } else {
        s
    }
}

/// `s` with whitespace removed at the back.
pub open spec fn trim_back(s: Seq<u8>) -> Seq<u8>
    decreases s.len(),
{
    if s.len() > 0 && is_space(s[s.len() - 1]) {
        trim_back(s.drop_last())
    } else {
        s
    }
}

/// `s` with whitespace removed at both ends.
pub open spec fn trim_spec(s: Seq<u8>) -> Seq<u8> {
    trim_back(trim_front(s))
}

/// Removes whitespace at both ends of `s`.
pub fn trim(s: &Vec<u8>) -> (r: Vec<u8>)
    ensures
        r@ == trim_spec(s@),
{
    let mut lo: usize = 0;
    proof {
        assert(s@.skip(0) =~= s@);
    }
    while lo < s.len() && byte_is_space(s[lo])
        invariant
            lo <= s.len(),
            trim_front(s@) == trim_front(s@.skip(lo as int)),
        decreases s.len() - lo,
    {
        proof {
            assert(s@.skip(lo as int)[0] == s@[lo as int]);
            assert(s@.skip(lo as int).skip(1) =~= s@.skip(lo + 1));
        }
        lo += 1;
    }
    proof {
        if lo < s.len() {
            assert(s@.skip(lo as int)[0] == s@[lo as int]);
        }
        assert(trim_front(s@) == s@.skip(lo as int));
        assert(s@.skip(lo as int) =~= s@.subrange(lo as int, s@.len() as int));
    }
    let mut hi: usize = s.len();
    while hi > lo && byte_is_space(s[hi - 1])
        invariant
            lo <= hi <= s.len(),
            trim_back(trim_front(s@)) == trim_back(s@.subrange(lo as int, hi as int)),
        decreases hi,
    {
        proof {
            let part = s@.subrange(lo as int, hi as int);
            assert(part[part.len() - 1] == s@[hi - 1]);
            assert(part.drop_last() =~= s@.subrange(lo as int, hi - 1));
        }
        hi -= 1;
    }
    proof {
        let part = s@.subrange(lo as int, hi as int);
        if hi > lo {
            assert(part[part.len() - 1] == s@[hi - 1]);
        }
        assert(trim_back(part) == part);
    }
    let mut r: Vec<u8> = Vec::new();
    let mut k: usize = lo;
    proof {
        assert(r@ =~= s@.subrange(lo as int, lo as int));
    }
    while k < hi
        invariant
            lo <= k <= hi <= s@.len(),
            r@ == s@.subrange(lo as int, k as int),
        decreases hi - k,
    {
        r.push(s[k]);
        proof {
            assert(r@ =~= s@.subrange(lo as int, k + 1));
        }
        k += 1;
    }
    r
}

/// The part of `s` before its first `=`, or all of `s` if it has none.
pub open spec fn before_eq(s: Seq<u8>) -> Seq<u8>
    decreases s.len(),
{
    if s.len() == 0 {
        Seq::empty()
    } else if s[0] == EQ {
        Seq::empty()
    } else {
        seq![s[0]] + before_eq(s.skip(1))
    }
}

/// The flag a declaration line names, if any: the trimmed line up to a
/// first `=`, unless the line is blank or a comment.
pub open spec fn flag_of_line(line: Seq<u8>) -> Option<Seq<u8>> {
    let t = trim_spec(line);
    if t.len() == 0 || t[0] == HASH {
        None
    } else {
        Some(before_eq(t))
    }
}

/// The flags declared by a sequence of lines, in order.
pub open spec fn flags_of_lines(lines: Seq<Seq<u8>>) -> Seq<Seq<u8>>
    decreases lines.len(),
{
    if lines.len() == 0 {
        Seq::empty()
    } else {
        match flag_of_line(lines[0]) {
            Some(f) => seq![f] + flags_of_lines(lines.skip(1)),
            None => flags_of_lines(lines.skip(1)),
        }
    }
}

/// The flags declared by a whole flag-declaration file.
pub open spec fn flags_of_text(content: Seq<u8>) -> Seq<Seq<u8>> {
    flags_of_lines(split_lines_spec(content))
}

/// The bytes of `s` up to its first `=`.
fn take_before_eq(s: &Vec<u8>) -> (r: Vec<u8>)
    ensures
        r@ == before_eq(s@),
{
    let mut r: Vec<u8> = Vec::new();
    let mut i: usize = 0;
    proof {
        assert(s@.skip(0) =~= s@);
        assert(r@ + before_eq(s@) =~= before_eq(s@));
    }
    while i < s.len() && s[i] != EQ
        invariant
            i <= s.len(),
            before_eq(s@) == r@ + before_eq(s@.skip(i as int)),
        decreases s.len() - i,
    {
        proof {
            assert(s@.skip(i as int)[0] == s@[i as int]);
            assert(s@.skip(i as int).skip(1) =~= s@.skip(i + 1));
        }
        let ghost r0 = r@;
        let ghost rest = s@.skip(i as int);
        r.push(s[i]);
        proof {
            assert(r0 + (seq![rest[0]] + before_eq(rest.skip(1))) =~= r@ + before_eq(
                rest.skip(1),
            ));
        }
        i += 1;
    }
    proof {
        if i < s.len() {
            assert(s@.skip(i as int)[0] == s@[i as int]);
        } else {
            assert(s@.skip(i as int) =~= Seq::<u8>::empty());
        }
        assert(r@ + Seq::<u8>::empty() =~= r@);
    }
    r
}

/// Parses declaration lines into the flags they name, in order.
pub fn parse_flags_lines(lines: &Vec<Vec<u8>>) -> (r: Vec<Vec<u8>>)
    ensures
        view_rows(r@) == flags_of_lines(view_rows(lines@)),
{
    let ghost all = view_rows(lines@);
    let mut r: Vec<Vec<u8>> = Vec::new();
    let mut i: usize = 0;
    proof {
        assert(all.skip(0) =~= all);
        assert(view_rows(r@) =~= Seq::<Seq<u8>>::empty());
        assert(Seq::<Seq<u8>>::empty() + flags_of_lines(all) =~= flags_of_lines(all));
    }
    while i < lines.len()
        invariant
            i <= lines.len(),
            lines@.len() == all.len(),
            all == view_rows(lines@),
            flags_of_lines(all) == view_rows(r@) + flags_of_lines(all.skip(i as int)),
        decreases lines.len() - i,
    {
        let ghost rest = all.skip(i as int);
        let ghost r0 = view_rows(r@);
        proof {
            assert(rest[0] == all[i as int]);
            assert(rest.skip(1) =~= all.skip(i + 1));
        }
        let t = trim(&lines[i]);
        if t.len() > 0 && t[0] != HASH {
            let f = take_before_eq(&t);
            proof {
                lemma_view_rows_push(r@, f);
            }
            r.push(f);
            proof {
                assert(r0 + (seq![before_eq(trim_spec(all[i as int]))] + flags_of_lines(
                    rest.skip(1),
                )) =~= view_rows(r@) + flags_of_lines(rest.skip(1)));
            }
        }
        i += 1;
    }
    proof {
        assert(all.skip(all.len() as int) =~= Seq::<Seq<u8>>::empty());
        assert(view_rows(r@) + Seq::<Seq<u8>>::empty() =~= view_rows(r@));
    }
    r
}

/// Parses a flag-declaration file's content into the flags it names.
pub fn parse_flags_text(content: &Vec<u8>) -> (r: Vec<Vec<u8>>)
    ensures
        view_rows(r@) == flags_of_text(content@),
{
    let lines = split_lines(content);
    parse_flags_lines(&lines)
}

/// The flags named by `cur + s`, where `s` is split at commas, every
/// part is trimmed, and empty parts are dropped.
pub open spec fn inline_rec(s: Seq<u8>, cur: Seq<u8>) -> Seq<Seq<u8>>
    decreases s.len(),
{
    if s.len() == 0 {
        if trim_spec(cur).len() == 0 {
            Seq::empty()
        } else {
            seq![trim_spec(cur)]
        }
    } else if s[0] == COMMA {
        if trim_spec(cur).len() == 0 {
            inline_rec(s.skip(1), Seq::empty())
        } else {
            seq![trim_spec(cur)] + inline_rec(s.skip(1), Seq::empty())
        }
    } else {
        inline_rec(s.skip(1), cur.push(s[0]))
    }
}

/// The flags named by one comma-separated inline argument.
pub open spec fn inline_flags_spec(s: Seq<u8>) -> Seq<Seq<u8>> {
    inline_rec(s, Seq::empty())
}

/// Parses one comma-separated inline argument into flag names.
pub fn parse_inline_flags(s: &Vec<u8>) -> (r: Vec<Vec<u8>>)
    ensures
        view_rows(r@) == inline_flags_spec(s@),
{
    let mut r: Vec<Vec<u8>> = Vec::new();
    let mut cur: Vec<u8> = Vec::new();
    let mut i: usize = 0;
    proof {
        assert(s@.skip(0) =~= s@);
        assert(view_rows(r@) =~= Seq::<Seq<u8>>::empty());
        assert(Seq::<Seq<u8>>::empty() + inline_rec(s@, cur@) =~= inline_rec(s@, cur@));
    }
    while i < s.len()
        invariant
            i <= s.len(),
            inline_flags_spec(s@) == view_rows(r@) + inline_rec(s@.skip(i as int), cur@),
        decreases s.len() - i,
    {
        let ghost rest = s@.skip(i as int);
        let ghost r0 = view_rows(r@);
        let ghost cur0 = cur@;
        proof {
            assert(rest[0] == s@[i as int]);
            assert(rest.skip(1) =~= s@.skip(i + 1));
        }
        let b = s[i];
        if b == COMMA {
            let t = trim(&cur);
            if t.len() > 0 {
                proof {
                    lemma_view_rows_push(r@, t);
                }
                r.push(t);
            }
            cur = Vec::new();
            proof {
                if trim_spec(cur0).len() > 0 {
                    assert(r0 + (seq![trim_spec(cur0)] + inline_rec(rest.skip(1), cur@))
                        =~= view_rows(r@) + inline_rec(rest.skip(1), cur@));
                }
            }
        } else {
            cur.push(b);
        }
        i += 1;
    }
    proof {
        assert(s@.skip(s@.len() as int) =~= Seq::<u8>::empty());
    }
    let t = trim(&cur);
    if t.len() > 0 {
        proof {
            lemma_view_rows_push(r@, t);
            assert(view_rows(r@).push(t@) =~= view_rows(r@) + seq![t@]);
        }
        r.push(t);
    } else {
        proof {
            assert(view_rows(r@) + Seq::<Seq<u8>>::empty() =~= view_rows(r@));
        }
    }
    r
}

/// The flags declared by a sequence of flag-declaration files, in order.
pub open spec fn flags_of_texts(texts: Seq<Seq<u8>>) -> Seq<Seq<u8>>
    decreases texts.len(),
{
    if texts.len() == 0 {
        Seq::empty()
    } else {
        flags_of_text(texts[0]) + flags_of_texts(texts.skip(1))
    }
}

/// The flags named by a sequence of inline arguments, in order.
pub open spec fn inline_flags_of_args(args: Seq<Seq<u8>>) -> Seq<Seq<u8>>
    decreases args.len(),
{
    if args.len() == 0 {
        Seq::empty()
    } else {
        inline_flags_spec(args[0]) + inline_flags_of_args(args.skip(1))
    }
}

/// All requested flags, in the order first encountered: those of the
/// flag files in order, then those of the inline arguments in order.
pub open spec fn gathered_flags(texts: Seq<Seq<u8>>, args: Seq<Seq<u8>>) -> Seq<Seq<u8>> {
    flags_of_texts(texts) + inline_flags_of_args(args)
}

/// Gathers the requested flags from the flag-declaration file contents
/// and the inline arguments, preserving declaration order and
/// duplicates.
pub fn collect_flags(texts: &Vec<Vec<u8>>, args: &Vec<Vec<u8>>) -> (r: Vec<Vec<u8>>)
    ensures
        view_rows(r@) == gathered_flags(view_rows(texts@), view_rows(args@)),
{
    let ghost tv = view_rows(texts@);
    let ghost av = view_rows(args@);
    let mut r: Vec<Vec<u8>> = Vec::new();
    let mut i: usize = 0;
    proof {
        assert(tv.skip(0) =~= tv);
        assert(view_rows(r@) =~= Seq::<Seq<u8>>::empty());
        assert(Seq::<Seq<u8>>::empty() + flags_of_texts(tv) =~= flags_of_texts(tv));
    }
    while i < texts.len()
        invariant
            i <= texts.len(),
            texts@.len() == tv.len(),
            tv == view_rows(texts@),
            flags_of_texts(tv) == view_rows(r@) + flags_of_texts(tv.skip(i as int)),
        decreases texts.len() - i,
    {
        let ghost rest = tv.skip(i as int);
        let ghost r0 = view_rows(r@);
        proof {
            assert(rest[0] == tv[i as int]);
            assert(rest.skip(1) =~= tv.skip(i + 1));
        }
        let fs = parse_flags_text(&texts[i]);
        append_rows(&mut r, &fs);
        proof {
            assert(r0 + (flags_of_text(tv[i as int]) + flags_of_texts(rest.skip(1))) =~= view_rows(
                r@,
            ) + flags_of_texts(rest.skip(1)));
        }
        i += 1;
    }
    proof {
        assert(tv.skip(tv.len() as int) =~= Seq::<Seq<u8>>::empty());
        assert(view_rows(r@) + Seq::<Seq<u8>>::empty() =~= view_rows(r@));
        assert(view_rows(r@) == flags_of_texts(tv));
        assert(av.skip(0) =~= av);
    }
    let mut j: usize = 0;
    while j < args.len()
        invariant
            j <= args.len(),
            args@.len() == av.len(),
            av == view_rows(args@),
            view_rows(r@) + inline_flags_of_args(av.skip(j as int)) == gathered_flags(tv, av),
        decreases args.len() - j,
    {
        let ghost rest = av.skip(j as int);
        let ghost r0 = view_rows(r@);
        proof {
            assert(rest[0] == av[j as int]);
            assert(rest.skip(1) =~= av.skip(j + 1));
        }
        let fs = parse_inline_flags(&args[j]);
        append_rows(&mut r, &fs);
        proof {
            assert(r0 + (inline_flags_spec(av[j as int]) + inline_flags_of_args(rest.skip(1)))
                =~= view_rows(r@) + inline_flags_of_args(rest.skip(1)));
        }
        j += 1;
    }
    proof {
        assert(av.skip(av.len() as int) =~= Seq::<Seq<u8>>::empty());
        assert(view_rows(r@) + Seq::<Seq<u8>>::empty() =~= view_rows(r@));
    }
    r
}

/// Normalization is idempotent: a canonical name is its own canonical
/// name, and a name that lacks the prefix names the same flag with the
/// prefix put on.
pub proof fn lemma_normalization_idempotent(raw: Seq<u8>)
    ensures
        clean_of(canonical_of(raw)) == clean_of(raw),
        canonical_of(canonical_of(raw)) == canonical_of(raw),
        !config_prefix().is_prefix_of(raw) ==> canonical_of(config_prefix() + raw)
            == canonical_of(raw),
{
    assert(config_prefix().is_prefix_of(canonical_of(raw))) by {
        assert(config_prefix() =~= canonical_of(raw).subrange(0, config_prefix().len() as int));
    }
    assert(clean_of(canonical_of(raw)) =~= clean_of(raw));
    if !config_prefix().is_prefix_of(raw) {
        assert(config_prefix().is_prefix_of(config_prefix() + raw)) by {
            assert(config_prefix() =~= (config_prefix() + raw).subrange(
                0,
                config_prefix().len() as int,
            ));
        }
        assert(clean_of(config_prefix() + raw) =~= clean_of(raw));
    }
}

} // verus!
