//! Splitting configuration text into lines and joining lines back.
//!
//! A configuration file is handled as an ordered sequence of lines.
//! Splitting follows the usual text convention: lines end at a line feed,
//! a carriage return immediately before the line feed is dropped, and a
//! final line ending is optional.  Joining terminates every line with a
//! line feed.

use vstd::prelude::*;

use crate::bytes::view_rows;
use crate::bytes::lemma_view_rows_push;

verus! {

/// `s` without a single trailing carriage return, if it has one.
pub open spec fn strip_cr(s: Seq<u8>) -> Seq<u8> {
    if s.len() > 0 && s[s.len() - 1] == 0x0d {
        s.drop_last()
    } else {
        s
    }
}

/// The lines of `cur + s`, where `cur` is the fragment of the current
/// line read so far.
pub open spec fn split_lines_rec(s: Seq<u8>, cur: Seq<u8>) -> Seq<Seq<u8>>
    decreases s.len(),
{
    if s.len() == 0 {
        if cur.len() == 0 {
            Seq::empty()
        } else {
            seq![cur]
        }
    } else if s[0] == 0x0a {
        seq![strip_cr(cur)] + split_lines_rec(s.skip(1), Seq::empty())
    } else {
        split_lines_rec(s.skip(1), cur.push(s[0]))
    }
}

/// The lines of a whole text.
pub open spec fn split_lines_spec(s: Seq<u8>) -> Seq<Seq<u8>> {
    split_lines_rec(s, Seq::empty())
}

/// Every line followed by a line feed, concatenated.
pub open spec fn join_lines_spec(lines: Seq<Seq<u8>>) -> Seq<u8>
    decreases lines.len(),
{
    if lines.len() == 0 {
        Seq::empty()
    } else {
        lines[0] + seq![0x0au8] + join_lines_spec(lines.skip(1))
    }
}

/// Splits `content` into its lines.
pub fn split_lines(content: &Vec<u8>) -> (r: Vec<Vec<u8>>)
    ensures
        view_rows(r@) == split_lines_spec(content@),
{
    let mut r: Vec<Vec<u8>> = Vec::new();
    let mut cur: Vec<u8> = Vec::new();
    let mut i: usize = 0;
    proof {
        assert(content@.skip(0) =~= content@);
        assert(view_rows(r@) =~= Seq::<Seq<u8>>::empty());
        assert(Seq::<Seq<u8>>::empty() + split_lines_rec(content@, cur@) =~= split_lines_rec(
            content@,
            cur@,
        ));
    }
    while i < content.len()
        invariant
            i <= content.len(),
            split_lines_spec(content@) == view_rows(r@) + split_lines_rec(
                content@.skip(i as int),
                cur@,
            ),
        decreases content.len() - i,
    {
        let ghost rest = content@.skip(i as int);
        let ghost r0 = view_rows(r@);
        let ghost cur0 = cur@;
        proof {
            assert(rest[0] == content@[i as int]);
            assert(rest.skip(1) =~= content@.skip(i + 1));
        }
        let b = content[i];
        if b == 0x0a {
            let mut line = cur;
            if line.len() > 0 && line[line.len() - 1] == 0x0d {
                line.pop();
            }
            proof {
                assert(line@ =~= strip_cr(cur0));
                lemma_view_rows_push(r@, line);
            }
            r.push(line);
            cur = Vec::new();
            proof {
                assert(split_lines_rec(rest, cur0) == seq![strip_cr(cur0)] + split_lines_rec(
                    rest.skip(1),
                    cur@,
                ));
                assert(r0 + split_lines_rec(rest, cur0) =~= r0.push(strip_cr(cur0))
                    + split_lines_rec(rest.skip(1), cur@));
            }
        } else {
            cur.push(b);
        }
        i += 1;
    }
    proof {
        assert(content@.skip(content@.len() as int) =~= Seq::<u8>::empty());
    }
    if cur.len() > 0 {
        proof {
            lemma_view_rows_push(r@, cur);
            assert(view_rows(r@).push(cur@) =~= view_rows(r@) + seq![cur@]);
        }
        r.push(cur);
    } else {
        proof {
            assert(view_rows(r@) + Seq::<Seq<u8>>::empty() =~= view_rows(r@));
        }
    }
    r
}

/// Joins lines into one text, each line terminated by a line feed.
pub fn join_lines(lines: &Vec<Vec<u8>>) -> (r: Vec<u8>)
    ensures
        r@ == join_lines_spec(view_rows(lines@)),
{
    let ghost whole = view_rows(lines@);
    let mut r: Vec<u8> = Vec::new();
    let mut i: usize = 0;
    proof {
        assert(whole.skip(0) =~= whole);
        assert(r@ + join_lines_spec(whole) =~= join_lines_spec(whole));
    }
    while i < lines.len()
        invariant
            i <= lines.len(),
            lines@.len() == whole.len(),
            whole == view_rows(lines@),
            join_lines_spec(whole) == r@ + join_lines_spec(whole.skip(i as int)),
        decreases lines.len() - i,
    {
        let ghost rest = whole.skip(i as int);
        let ghost r0 = r@;
        proof {
            assert(rest[0] == whole[i as int]);
            assert(rest.skip(1) =~= whole.skip(i + 1));
        }
        let line = &lines[i];
        let mut j: usize = 0;
        while j < line.len()
            invariant
                j <= line.len(),
                line@ == whole[i as int],
                i < whole.len(),
                r@ == r0 + line@.take(j as int),
            decreases line.len() - j,
        {
            r.push(line[j]);
            proof {
                assert(r0 + line@.take(j as int) + seq![line@[j as int]] =~= r0 + line@.take(
                    j + 1,
                ));
            }
            j += 1;
        }
        r.push(0x0a);
        proof {
            assert(line@.take(line@.len() as int) =~= line@);
            assert(r@ =~= r0 + (line@ + seq![0x0au8]));
            assert(join_lines_spec(rest) == whole[i as int] + seq![0x0au8] + join_lines_spec(
                rest.skip(1),
            ));
            assert(r0 + (line@ + seq![0x0au8]) + join_lines_spec(whole.skip(i + 1)) =~= r0
                + join_lines_spec(rest));
        }
        i += 1;
    }
    proof {
        assert(whole.skip(whole.len() as int) =~= Seq::<Seq<u8>>::empty());
        assert(r@ + Seq::<u8>::empty() =~= r@);
    }
    r
}

} // verus!
