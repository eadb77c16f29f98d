//! Character-level text helpers shared by the board and the codecs.

use vstd::prelude::*;
use vstd::string::StrSliceExecFns;

verus! {

/// Character-by-character equality of two string slices.
pub fn str_eq(a: &str, b: &str) -> (r: bool)
    ensures
        r == (a@ == b@),
{
    let la = a.unicode_len();
    let lb = b.unicode_len();
    if la != lb {
        proof {
            assert(a@ != b@);
        }
        return false;
    }
    let mut i: usize = 0;
    while i < la
        invariant
            la == a@.len(),
            la == b@.len(),
            i <= la,
            forall|j: int| 0 <= j < i ==> a@[j] == b@[j],
        decreases la - i,
    {
        if a.get_char(i) != b.get_char(i) {
            return false;
        }
        i = i + 1;
    }
    proof {
        assert(a@ =~= b@);
    }
    true
}

/// Pushing onto a vector pushes the element's view onto its deep view.
pub proof fn lemma_deep_view_push<T: DeepView>(v: Vec<T>, prev: Vec<T>, tv: T::V)
    requires
        v@.len() == prev@.len() + 1,
        forall|i: int| 0 <= i < prev@.len() ==> v@[i] == prev@[i],
        v@[v@.len() - 1].deep_view() == tv,
    ensures
        v.deep_view() == prev.deep_view().push(tv),
{
    assert forall|i: int| 0 <= i < v@.len() implies v.deep_view()[i] == prev.deep_view().push(
        tv,
    )[i] by {
        if i < prev@.len() {
            assert(v@[i] == prev@[i]);
        }
    }
    assert(v.deep_view() =~= prev.deep_view().push(tv));
}

/// Relies on std's `String::push`: appends exactly the given character to
/// the end of the string.
#[verifier::external_body]
pub(crate) fn push_char(s: &mut String, c: char)
    ensures
        final(s)@ == old(s)@.push(c),
{
    s.push(c);
}

/// A string holding exactly the given characters.
pub fn chars_to_string(v: &Vec<char>) -> (r: String)
    ensures
        r@ == v@,
{
    let mut r = String::new();
    let mut i: usize = 0;
    while i < v.len()
        invariant
            i <= v@.len(),
            r@ =~= v@.take(i as int),
        decreases v@.len() - i,
    {
        push_char(&mut r, v[i]);
        assert(r@ =~= v@.take(i + 1));
        i = i + 1;
    }
    proof {
        assert(v@.take(v@.len() as int) =~= v@);
    }
    r
}

/// The characters of a string slice, as a vector.
pub fn chars_of(s: &str) -> (r: Vec<char>)
    ensures
        r@ == s@,
{
    let n = s.unicode_len();
    let mut r: Vec<char> = Vec::new();
    let mut i: usize = 0;
    while i < n
        invariant
            n == s@.len(),
            i <= n,
            r@ =~= s@.take(i as int),
        decreases n - i,
    {
        r.push(s.get_char(i));
        assert(r@ =~= s@.take(i + 1));
        i = i + 1;
    }
    assert(r@ =~= s@);
    r
}

/// Appends the characters of `s` to `out`.
pub fn append_str(out: &mut Vec<char>, s: &str)
    ensures
        final(out)@ == old(out)@ + s@,
{
    let n = s.unicode_len();
    let mut i: usize = 0;
    while i < n
        invariant
            n == s@.len(),
            i <= n,
            out@ =~= old(out)@ + s@.take(i as int),
        decreases n - i,
    {
        out.push(s.get_char(i));
        assert(out@ =~= old(out)@ + s@.take(i + 1));
        i = i + 1;
    }
    proof {
        assert(s@.take(n as int) =~= s@);
        assert(out@ =~= old(out)@ + s@);
    }
}

/// Appends the characters of `v` to `out`.
pub fn append_chars(out: &mut Vec<char>, v: &Vec<char>)
    ensures
        final(out)@ == old(out)@ + v@,
{
    let n = v.len();
    let mut i: usize = 0;
    while i < n
        invariant
            n == v@.len(),
            i <= n,
            out@ =~= old(out)@ + v@.take(i as int),
        decreases n - i,
    {
        out.push(v[i]);
        assert(out@ =~= old(out)@ + v@.take(i + 1));
        i = i + 1;
    }
    proof {
        assert(v@.take(n as int) =~= v@);
        assert(out@ =~= old(out)@ + v@);
    }
}

/// A window of `v` that agrees with `w` element for element is `w`.
pub proof fn lemma_slice_eq(v: Seq<char>, pos: int, w: Seq<char>)
    requires
        0 <= pos,
        pos + w.len() <= v.len(),
        forall|i: int| 0 <= i < w.len() ==> v[pos + i] == #[trigger] w[i],
    ensures
        v.subrange(pos, pos + w.len()) == w,
{
    assert(v.subrange(pos, pos + w.len()) =~= w);
}

/// One character of an established window of `v`.
pub proof fn lemma_window_index(v: Seq<char>, pos: int, w: Seq<char>, i: int)
    requires
        0 <= pos,
        pos + w.len() <= v.len(),
        v.subrange(pos, pos + w.len()) == w,
        0 <= i < w.len(),
    ensures
        v[pos + i] == w[i],
{
    assert(v.subrange(pos, pos + w.len())[i] == v[pos + i]);
}

/// A window within an established window of `v`.
pub proof fn lemma_sub_slice(v: Seq<char>, pos: int, whole: Seq<char>, off: int, part: Seq<char>)
    requires
        0 <= pos,
        pos + whole.len() <= v.len(),
        v.subrange(pos, pos + whole.len()) == whole,
        0 <= off,
        off + part.len() <= whole.len(),
        whole.subrange(off, off + part.len()) == part,
    ensures
        v.subrange(pos + off, pos + off + part.len()) == part,
{
    assert forall|i: int| 0 <= i < part.len() implies v[pos + off + i] == #[trigger] part[i] by {
        lemma_window_index(v, pos, whole, off + i);
        assert(whole.subrange(off, off + part.len())[i] == whole[off + i]);
    }
    lemma_slice_eq(v, pos + off, part);
}

/// Splitting an established window at a concatenation boundary gives a
/// window for each half.
pub proof fn lemma_peel(v: Seq<char>, q: int, whole: Seq<char>, head: Seq<char>, rest: Seq<char>)
    requires
        0 <= q,
        q + whole.len() <= v.len(),
        whole == head + rest,
        v.subrange(q, q + whole.len()) == whole,
    ensures
        v.subrange(q, q + head.len()) == head,
        v.subrange(q + head.len(), q + head.len() + rest.len()) == rest,
{
    assert(whole.subrange(0, head.len() as int) =~= head);
    assert(whole.subrange(head.len() as int, whole.len() as int) =~= rest);
    lemma_sub_slice(v, q, whole, 0, head);
    lemma_sub_slice(v, q, whole, head.len() as int, rest);
}

} // verus!
