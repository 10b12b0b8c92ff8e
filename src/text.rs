//! Character-level helpers: the conversions between `str`, `String` and
//! character slices that the parser works on.
use vstd::prelude::*;
use vstd::std_specs::iter::IteratorSpec;

verus! {

/// Relies on `String::push`: the character is appended at the end.
#[verifier::external_body]
pub(crate) fn push_char(s: &mut String, c: char)
    ensures
        final(s)@ == old(s)@.push(c),
{
    s.push(c)
}

/// The characters of `s`, in order.
pub fn chars_of(s: &str) -> (r: Vec<char>)
    ensures
        r@ == s@,
{
    broadcast use vstd::string::axiom_spec_iter, vstd::string::next_postcondition;

    let mut v: Vec<char> = Vec::new();
    let mut it = s.chars();
    loop
        invariant
            it.obeys_prophetic_iter_laws(),
            v@ + it.remaining() == s@,
            it.decrease() is Some,
        ensures
            v@ == s@,
        decreases it.decrease()->0,
    {
        let ghost before = it.remaining();
        match it.next() {
            Some(c) => {
                assert(v@.push(c) + it.remaining() =~= v@ + before);
                v.push(c);
            },
            None => {
                assert(v@ =~= s@);
                break;
            },
        }
    }
    v
}

/// The characters `lo..hi` of `cs`, as a `String`.
pub fn string_of(cs: &[char], lo: usize, hi: usize) -> (r: String)
    requires
        lo <= hi <= cs@.len(),
    ensures
        r@ == cs@.subrange(lo as int, hi as int),
{
    let mut s = String::new();
    let mut i: usize = lo;
    while i < hi
        invariant
            lo <= i <= hi <= cs@.len(),
            s@ == cs@.subrange(lo as int, i as int),
        decreases hi - i,
    {
        push_char(&mut s, cs[i]);
        assert(s@ =~= cs@.subrange(lo as int, i + 1));
        i = i + 1;
    }
    s
}

/// Appends the characters `lo..hi` of `cs` and a newline to `s`.
pub fn append_line(s: &mut String, cs: &[char], lo: usize, hi: usize)
    requires
        lo <= hi <= cs@.len(),
    ensures
        final(s)@ == old(s)@ + cs@.subrange(lo as int, hi as int) + seq!['\n'],
{
    let ghost start = s@;
    let mut i: usize = lo;
    while i < hi
        invariant
            lo <= i <= hi <= cs@.len(),
            s@ == start + cs@.subrange(lo as int, i as int),
        decreases hi - i,
    {
        push_char(s, cs[i]);
        assert(s@ =~= start + cs@.subrange(lo as int, i + 1));
        i = i + 1;
    }
    push_char(s, '\n');
    assert(s@ =~= start + cs@.subrange(lo as int, hi as int) + seq!['\n']);
}

/// Whether `p` is a prefix of the characters `lo..hi` of `cs`.
pub fn prefix_at(p: &[char], cs: &[char], lo: usize, hi: usize) -> (r: bool)
    requires
        lo <= hi <= cs@.len(),
    ensures
        r == p@.is_prefix_of(cs@.subrange(lo as int, hi as int)),
{
    if p.len() > hi - lo {
        return false;
    }
    let mut i: usize = 0;
    while i < p.len()
        invariant
            p@.len() <= hi - lo,
            lo <= hi <= cs@.len(),
            i <= p@.len(),
            forall|j: int| 0 <= j < i ==> p@[j] == cs@[lo + j],
        decreases p@.len() - i,
    {
        if p[i] != cs[lo + i] {
            assert(cs@.subrange(lo as int, hi as int).subrange(0, p@.len() as int)[i as int] != p@[i as int]);
            return false;
        }
        i = i + 1;
    }
    assert(p@ =~= cs@.subrange(lo as int, hi as int).subrange(0, p@.len() as int));
    true
}

/// Whether the characters `lo..hi` of `cs` are exactly `p`.
pub fn equal_at(p: &[char], cs: &[char], lo: usize, hi: usize) -> (r: bool)
    requires
        lo <= hi <= cs@.len(),
    ensures
        r == (p@ == cs@.subrange(lo as int, hi as int)),
{
    if p.len() != hi - lo {
        return false;
    }
    let b = prefix_at(p, cs, lo, hi);
    assert(b ==> p@ =~= cs@.subrange(lo as int, hi as int));
    b
}

/// Whether `p` is a prefix of `s`.
pub fn starts_with(s: &str, p: &str) -> (r: bool)
    ensures
        r == p@.is_prefix_of(s@),
{
    let sc = chars_of(s);
    let pc = chars_of(p);
    let r = prefix_at(pc.as_slice(), sc.as_slice(), 0, sc.len());
    assert(sc@.subrange(0, sc@.len() as int) =~= s@);
    r
}

/// Whether `a` and `b` hold the same characters.
pub fn str_eq(a: &str, b: &str) -> (r: bool)
    ensures
        r == (a@ == b@),
{
    let ac = chars_of(a);
    let bc = chars_of(b);
    let r = equal_at(ac.as_slice(), bc.as_slice(), 0, bc.len());
    assert(bc@.subrange(0, bc@.len() as int) =~= b@);
    r
}

} // verus!
