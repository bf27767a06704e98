//! White space and trimming, as the task list understands them.

use vstd::prelude::*;

verus! {

/// Whether `c` is one of the characters that Unicode gives the property
/// `White_Space`: U+0009 to U+000D, U+0020, U+0085, U+00A0, U+1680, U+2000 to
/// U+200A, U+2028, U+2029, U+202F, U+205F and U+3000.
pub open spec fn is_whitespace(c: char) -> bool {
    let n = c as u32;
    ||| 0x09 <= n <= 0x0d
    ||| n == 0x20
    ||| n == 0x85
    ||| n == 0xa0
    ||| n == 0x1680
    ||| 0x2000 <= n <= 0x200a
    ||| n == 0x2028
    ||| n == 0x2029
    ||| n == 0x202f
    ||| n == 0x205f
    ||| n == 0x3000
}

/// `s` without the white space at its start.
pub open spec fn trimmed_start(s: Seq<char>) -> Seq<char>
    decreases s.len(),
{
    if s.len() > 0 && is_whitespace(s.first()) {
        trimmed_start(s.drop_first())
    } else {
        s
    }
}

/// `s` without the white space at its end.
pub open spec fn trimmed_end(s: Seq<char>) -> Seq<char>
    decreases s.len(),
{
    if s.len() > 0 && is_whitespace(s.last()) {
        trimmed_end(s.drop_last())
    } else {
        s
    }
}

/// `s` without the white space at either end.
pub open spec fn trimmed(s: Seq<char>) -> Seq<char> {
    trimmed_end(trimmed_start(s))
}

/// Whether nothing is left of `s` once it is trimmed.
pub open spec fn is_blank(s: Seq<char>) -> bool {
    trimmed(s).len() == 0
}

/// What is taken on trust of `str::trim`: it returns the part of `s` that is
/// left when the white space at its start and at its end is taken away, white
/// space being the characters with Unicode's `White_Space` property, as
/// `is_whitespace` lists them.
pub assume_specification[ str::trim ](s: &str) -> (r: &str)
    ensures
        r@ == trimmed(s@),
;

/// What `trimmed_start` leaves is the part of `s` from its first character
/// that is no white space.
pub proof fn lemma_trimmed_start(s: Seq<char>)
    ensures
        trimmed_start(s).len() <= s.len(),
        trimmed_start(s) == s.skip(s.len() - trimmed_start(s).len()),
        forall|i: int| 0 <= i < s.len() - trimmed_start(s).len() ==> is_whitespace(#[trigger] s[i]),
        trimmed_start(s).len() > 0 ==> !is_whitespace(trimmed_start(s).first()),
    decreases s.len(),
{
    if s.len() > 0 && is_whitespace(s.first()) {
        let rest = s.drop_first();
        lemma_trimmed_start(rest);
        let k = rest.len() - trimmed_start(rest).len();
        assert(rest.skip(k) =~= s.skip(k + 1));
        assert forall|i: int| 0 <= i < k + 1 implies is_whitespace(#[trigger] s[i]) by {
            if i > 0 {
                assert(s[i] == rest[i - 1]);
            }
        }
    } else {
        assert(s.skip(0) =~= s);
    }
}

/// What `trimmed_end` leaves is the part of `s` up to its last character
/// that is no white space.
pub proof fn lemma_trimmed_end(s: Seq<char>)
    ensures
        trimmed_end(s).len() <= s.len(),
        trimmed_end(s) == s.take(trimmed_end(s).len() as int),
        forall|i: int| trimmed_end(s).len() <= i < s.len() ==> is_whitespace(#[trigger] s[i]),
        trimmed_end(s).len() > 0 ==> !is_whitespace(trimmed_end(s).last()),
    decreases s.len(),
{
    if s.len() > 0 && is_whitespace(s.last()) {
        let rest = s.drop_last();
        lemma_trimmed_end(rest);
        let m = trimmed_end(rest).len() as int;
        assert(rest.take(m) =~= s.take(m));
        assert forall|i: int| m <= i < s.len() implies is_whitespace(#[trigger] s[i]) by {
            if i < rest.len() {
                assert(s[i] == rest[i]);
            }
        }
    } else {
        assert(s.take(s.len() as int) =~= s);
    }
}

/// A text is blank exactly when it holds nothing but white space.
pub proof fn lemma_blank_iff_all_whitespace(s: Seq<char>)
    ensures
        is_blank(s) <==> forall|i: int| 0 <= i < s.len() ==> is_whitespace(#[trigger] s[i]),
{
    let front = trimmed_start(s);
    lemma_trimmed_start(s);
    lemma_trimmed_end(front);
    let k = s.len() - front.len();
    if front.len() > 0 {
        assert(front.first() == s[k]);
        if trimmed_end(front).len() == 0 {
            assert(is_whitespace(front[0]));
        }
    }
}

/// What is left of a text that is not blank starts and ends with a character
/// that is no white space, so trimming it again changes nothing.
pub proof fn lemma_trimmed_is_tight(s: Seq<char>)
    requires
        !is_blank(s),
    ensures
        !is_whitespace(trimmed(s).first()),
        !is_whitespace(trimmed(s).last()),
        trimmed(trimmed(s)) == trimmed(s),
        !is_blank(trimmed(s)),
{
    let front = trimmed_start(s);
    lemma_trimmed_start(s);
    lemma_trimmed_end(front);
    let t = trimmed(s);
    assert(t == front.take(t.len() as int));
    assert(t.first() == front.first());
}

} // verus!
