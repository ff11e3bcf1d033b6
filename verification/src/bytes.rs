//! Byte-level helpers shared by the line and flag logic.

use vstd::prelude::*;

verus! {

/// The ASCII bytes that count as whitespace when a line is trimmed:
/// space, tab, line feed, vertical tab, form feed, carriage return.
pub open spec fn is_space(b: u8) -> bool {
    b == 0x20 || b == 0x09 || b == 0x0a || b == 0x0b || b == 0x0c || b == 0x0d
}

/// Executable test for `is_space`.
pub fn byte_is_space(b: u8) -> (r: bool)
    ensures
        r == is_space(b),
{
    b == 0x20 || b == 0x09 || b == 0x0a || b == 0x0b || b == 0x0c || b == 0x0d
}

/// Whether `s` begins with the bytes of `p`.
pub fn starts_with(s: &Vec<u8>, p: &Vec<u8>) -> (r: bool)
    ensures
        r == p@.is_prefix_of(s@),
{
    if p.len() > s.len() {
        return false;
    }
    let mut i: usize = 0;
    while i < p.len()
        invariant
            i <= p.len(),
            p.len() <= s.len(),
            forall|j: int| 0 <= j < i ==> s@[j] == p@[j],
        decreases p.len() - i,
    {
        if s[i] != p[i] {
            proof {
                assert(s@.subrange(0, p@.len() as int)[i as int] == s@[i as int]);
            }
            return false;
        }
        i += 1;
    }
    proof {
        assert(p@ =~= s@.subrange(0, p@.len() as int));
    }
    true
}

/// Whether two byte vectors hold the same bytes.
pub fn bytes_eq(a: &Vec<u8>, b: &Vec<u8>) -> (r: bool)
    ensures
        r == (a@ == b@),
{
    if a.len() != b.len() {
        return false;
    }
    let mut i: usize = 0;
    while i < a.len()
        invariant
            i <= a.len(),
            a.len() == b.len(),
            forall|j: int| 0 <= j < i ==> a@[j] == b@[j],
        decreases a.len() - i,
    {
        if a[i] != b[i] {
            return false;
        }
        i += 1;
    }
    proof {
        assert(a@ =~= b@);
    }
    true
}

/// The mathematical view of a vector of byte rows: each row replaced by
/// its byte sequence.
pub open spec fn view_rows(rows: Seq<Vec<u8>>) -> Seq<Seq<u8>> {
    Seq::new(rows.len(), |i: int| rows[i]@)
}

/// Whether a file name carries the `.gz` extension that marks a
/// compressed configuration source: it ends with `.gz`, and the dot is
/// not the name's first byte.
pub open spec fn gz_name_spec(name: Seq<u8>) -> bool {
    name.len() >= 4 && name.skip(name.len() - 3) == seq![0x2eu8, 0x67, 0x7a]
}

/// Executable test for `gz_name_spec`.
pub fn has_gz_name(name: &Vec<u8>) -> (r: bool)
    ensures
        r == gz_name_spec(name@),
{
    if name.len() < 4 {
        return false;
    }
    let n = name.len();
    let r = name[n - 3] == 0x2e && name[n - 2] == 0x67 && name[n - 1] == 0x7a;
    proof {
        let tail = name@.skip(n - 3);
        assert(tail[0] == name@[n - 3]);
        assert(tail[1] == name@[n - 2]);
        assert(tail[2] == name@[n - 1]);
        if r {
            assert(tail =~= seq![0x2eu8, 0x67, 0x7a]);
        }
    }
    r
}

/// Whether `rows` holds a row equal to `x`.
pub fn rows_contain(rows: &Vec<Vec<u8>>, x: &Vec<u8>) -> (r: bool)
    ensures
        r == view_rows(rows@).contains(x@),
{
    let mut i: usize = 0;
    while i < rows.len()
        invariant
            i <= rows.len(),
            forall|j: int| 0 <= j < i ==> #[trigger] rows@[j]@ != x@,
        decreases rows.len() - i,
    {
        if bytes_eq(&rows[i], x) {
            proof {
                assert(view_rows(rows@)[i as int] == x@);
            }
            return true;
        }
        i += 1;
    }
    proof {
        assert forall|k: int| 0 <= k < view_rows(rows@).len() implies #[trigger] view_rows(rows@)[k]
            != x@ by {
            assert(view_rows(rows@)[k] == rows@[k]@);
        }
    }
    false
}

/// Appending a row appends its view.
pub proof fn lemma_view_rows_push(rows: Seq<Vec<u8>>, x: Vec<u8>)
    ensures
        view_rows(rows.push(x)) == view_rows(rows).push(x@),
{
    assert(view_rows(rows.push(x)) =~= view_rows(rows).push(x@));
}

/// Appends all bytes of `src` to `dst`.
pub fn append_bytes(dst: &mut Vec<u8>, src: &Vec<u8>)
    ensures
        final(dst)@ == old(dst)@ + src@,
{
    let mut i: usize = 0;
    proof {
        assert(old(dst)@ + src@.take(0) =~= old(dst)@);
    }
    while i < src.len()
        invariant
            i <= src.len(),
            dst@ == old(dst)@ + src@.take(i as int),
        decreases src.len() - i,
    {
        dst.push(src[i]);
        proof {
            assert(old(dst)@ + src@.take(i as int) + seq![src@[i as int]] =~= old(dst)@
                + src@.take(i + 1));
        }
        i += 1;
    }
    proof {
        assert(src@.take(src@.len() as int) =~= src@);
    }
}

/// Appends a copy of every row of `src` to `dst`.
pub fn append_rows(dst: &mut Vec<Vec<u8>>, src: &Vec<Vec<u8>>)
    ensures
        view_rows(final(dst)@) == view_rows(old(dst)@) + view_rows(src@),
{
    let mut i: usize = 0;
    proof {
        assert(view_rows(dst@) =~= view_rows(old(dst)@) + view_rows(src@).take(0));
    }
    while i < src.len()
        invariant
            i <= src.len(),
            view_rows(dst@) == view_rows(old(dst)@) + view_rows(src@).take(i as int),
        decreases src.len() - i,
    {
        let row = copy_bytes(&src[i]);
        proof {
            lemma_view_rows_push(dst@, row);
        }
        dst.push(row);
        proof {
            assert(view_rows(dst@) =~= view_rows(old(dst)@) + view_rows(src@).take(i + 1));
        }
        i += 1;
    }
    proof {
        assert(view_rows(src@).take(src@.len() as int) =~= view_rows(src@));
    }
}

/// A fresh copy of a byte vector.
pub fn copy_bytes(v: &Vec<u8>) -> (r: Vec<u8>)
    ensures
        r@ == v@,
{
    let mut r: Vec<u8> = Vec::new();
    let mut i: usize = 0;
    while i < v.len()
        invariant
            i <= v.len(),
            r@ == v@.take(i as int),
        decreases v.len() - i,
    {
        r.push(v[i]);
        proof {
            assert(r@ =~= v@.take(i + 1));
        }
        i += 1;
    }
    proof {
        assert(v@.take(v@.len() as int) =~= v@);
    }
    r
}

} // verus!
