use vstd::prelude::*;
use vstd::std_specs::iter::IteratorSpec;

verus! {

broadcast use vstd::string::group_string_axioms;

/// The characters of a string, in order.
pub fn to_chars(s: &str) -> (v: Vec<char>)
    ensures
        v@ == s@,
{
    let mut it = s.chars();
    let mut v: Vec<char> = Vec::new();
    loop
        invariant
            v@ + it.remaining() == s@,
            it.decrease() is Some,
        ensures
            v@ == s@,
        decreases it.decrease()->0,
    {
        match it.next() {
            Some(c) => {
                v.push(c);
            },
            None => {
                break;
            },
        }
    }
    v
}

/// Calls `String::push` from std. Its contract claims that the string
/// afterwards is the one before with `c` added at the end.
#[verifier::external_body]
fn push_char(s: &mut String, c: char)
    ensures
        final(s)@ == old(s)@.push(c),
{
    s.push(c);
}

/// A `String` holding `chars[from..to]`.
pub fn string_of(chars: &Vec<char>, from: usize, to: usize) -> (r: String)
    requires
        from <= to <= chars@.len(),
    ensures
        r@ == chars@.subrange(from as int, to as int),
{
    let mut r = String::new();
    let mut i = from;
    while i < to
        invariant
            from <= i <= to <= chars@.len(),
            r@ == chars@.subrange(from as int, i as int),
        decreases to - i,
    {
        push_char(&mut r, chars[i]);
        i = i + 1;
        assert(r@ =~= chars@.subrange(from as int, i as int));
    }
    r
}

/// The characters with the Unicode `White_Space` property: what
/// `char::is_whitespace` from std answers `true` for.
pub open spec fn is_white_space(c: char) -> bool {
    ||| '\u{9}' <= c <= '\u{D}'
    ||| c == ' '
    ||| c == '\u{85}'
    ||| c == '\u{A0}'
    ||| c == '\u{1680}'
    ||| '\u{2000}' <= c <= '\u{200A}'
    ||| c == '\u{2028}'
    ||| c == '\u{2029}'
    ||| c == '\u{202F}'
    ||| c == '\u{205F}'
    ||| c == '\u{3000}'
}

/// Whether `c` has the Unicode `White_Space` property.
pub fn white_space(c: char) -> (r: bool)
    ensures
        r == is_white_space(c),
{
    ('\u{9}' <= c && c <= '\u{D}') || c == ' ' || c == '\u{85}' || c == '\u{A0}' || c == '\u{1680}'
        || ('\u{2000}' <= c && c <= '\u{200A}') || c == '\u{2028}' || c == '\u{2029}' || c
        == '\u{202F}' || c == '\u{205F}' || c == '\u{3000}'
}

/// `t` without its leading white space.
pub open spec fn trim_start(t: Seq<char>) -> Seq<char>
    decreases t.len(),
{
    if t.len() > 0 && is_white_space(t[0]) {
        trim_start(t.drop_first())
    } else {
        t
    }
}

/// `t` without its trailing white space.
pub open spec fn trim_end(t: Seq<char>) -> Seq<char>
    decreases t.len(),
{
    if t.len() > 0 && is_white_space(t.last()) {
        trim_end(t.drop_last())
    } else {
        t
    }
}

/// `t` without leading and trailing white space, as `str::trim` gives it.
pub open spec fn trim(t: Seq<char>) -> Seq<char> {
    trim_end(trim_start(t))
}

/// The bounds of `trim(chars[from..to])` within `chars`.
pub fn trim_bounds(chars: &Vec<char>, from: usize, to: usize) -> (r: (usize, usize))
    requires
        from <= to <= chars@.len(),
    ensures
        from <= r.0 <= r.1 <= to,
        chars@.subrange(r.0 as int, r.1 as int) == trim(chars@.subrange(from as int, to as int)),
{
    let mut lo = from;
    while lo < to && white_space(chars[lo])
        invariant
            from <= lo <= to <= chars@.len(),
            trim_start(chars@.subrange(from as int, to as int)) == trim_start(
                chars@.subrange(lo as int, to as int),
            ),
        decreases to - lo,
    {
        assert(chars@.subrange(lo as int, to as int).drop_first() =~= chars@.subrange(
            lo + 1,
            to as int,
        ));
        lo = lo + 1;
    }
    assert(trim_start(chars@.subrange(lo as int, to as int)) == chars@.subrange(lo as int, to as int));
    let mut hi = to;
    while hi > lo && white_space(chars[hi - 1])
        invariant
            from <= lo <= hi <= to <= chars@.len(),
            trim_end(chars@.subrange(lo as int, to as int)) == trim_end(
                chars@.subrange(lo as int, hi as int),
            ),
        decreases hi - lo,
    {
        assert(chars@.subrange(lo as int, hi as int).drop_last() =~= chars@.subrange(
            lo as int,
            hi - 1,
        ));
        hi = hi - 1;
    }
    (lo, hi)
}


proof fn lemma_trim_start_cut(t: Seq<char>) -> (a: int)
    ensures
        0 <= a <= t.len(),
        trim_start(t) == t.subrange(a, t.len() as int),
        forall|k: int| 0 <= k < a ==> is_white_space(#[trigger] t[k]),
        a < t.len() ==> !is_white_space(t[a]),
    decreases t.len(),
{
    if t.len() > 0 && is_white_space(t[0]) {
        let a1 = lemma_trim_start_cut(t.drop_first());
        assert forall|k: int| 0 <= k < a1 + 1 implies is_white_space(#[trigger] t[k]) by {
            if k > 0 {
                assert(t[k] == t.drop_first()[k - 1]);
            }
        }
        assert(t.drop_first().subrange(a1, t.len() - 1) =~= t.subrange(a1 + 1, t.len() as int));
        a1 + 1
    } else {
        assert(t.subrange(0, t.len() as int) =~= t);
        0
    }
}

proof fn lemma_trim_end_cut(t: Seq<char>) -> (b: int)
    ensures
        0 <= b <= t.len(),
        trim_end(t) == t.subrange(0, b),
        forall|k: int| b <= k < t.len() ==> is_white_space(#[trigger] t[k]),
        b > 0 ==> !is_white_space(t[b - 1]),
    decreases t.len(),
{
    if t.len() > 0 && is_white_space(t.last()) {
        let b1 = lemma_trim_end_cut(t.drop_last());
        assert forall|k: int| b1 <= k < t.len() implies is_white_space(#[trigger] t[k]) by {
            if k < t.len() - 1 {
                assert(t[k] == t.drop_last()[k]);
            }
        }
        assert(t.drop_last().subrange(0, b1) =~= t.subrange(0, b1));
        b1
    } else {
        assert(t.subrange(0, t.len() as int) =~= t);
        t.len() as int
    }
}

/// Trimming cuts white space, and only white space, off both ends: what is
/// left is a stretch of `t` that neither starts nor ends with white space,
/// and everything before and after it is white space.
pub proof fn law_trim_cuts_white_space(t: Seq<char>)
    ensures
        exists|a: int, b: int|
            {
                &&& 0 <= a <= b <= t.len()
                &&& trim(t) == t.subrange(a, b)
                &&& forall|k: int| 0 <= k < a ==> is_white_space(#[trigger] t[k])
                &&& forall|k: int| b <= k < t.len() ==> is_white_space(#[trigger] t[k])
                &&& a < b ==> !is_white_space(t[a]) && !is_white_space(t[b - 1])
            },
{
    let a = lemma_trim_start_cut(t);
    let u = t.subrange(a, t.len() as int);
    let b1 = lemma_trim_end_cut(u);
    let b = a + b1;
    assert(u.subrange(0, b1) =~= t.subrange(a, b));
    assert forall|k: int| b <= k < t.len() implies is_white_space(#[trigger] t[k]) by {
        assert(t[k] == u[k - a]);
    }
    if a < b {
        assert(t[a] == u[0]);
        assert(t[b - 1] == u[b1 - 1]);
    }
}

} // verus!
