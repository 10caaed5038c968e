//! Normalization of verse text and substring search over normalized text.

use vstd::prelude::*;
use vstd::std_specs::iter::IteratorSpec;

verus! {

/// First code point of the short-vowel marks that normalization strips (fatha).
pub const FIRST_MARK: u32 = 0x064E;

/// Last code point of the short-vowel marks that normalization strips (sukun).
pub const LAST_MARK: u32 = 0x0652;

/// Whether `c` is one of the short-vowel marks.
pub open spec fn is_mark(c: char) -> bool {
    FIRST_MARK <= (c as u32) && (c as u32) <= LAST_MARK
}

/// `s` with every mark removed, the other characters kept in order.
pub open spec fn normalized(s: Seq<char>) -> Seq<char>
    decreases s.len(),
{
    if s.len() == 0 {
        Seq::empty()
    } else if is_mark(s.last()) {
        normalized(s.drop_last())
    } else {
        normalized(s.drop_last()).push(s.last())
    }
}

/// Whether `needle` occurs in `hay` at position `i`.
pub open spec fn occurs_at(hay: Seq<char>, needle: Seq<char>, i: int) -> bool {
    0 <= i && i + needle.len() <= hay.len() && hay.subrange(i, i + needle.len()) == needle
}

/// Whether `needle` occurs somewhere in `hay` as a contiguous run.
pub open spec fn occurs_in(hay: Seq<char>, needle: Seq<char>) -> bool {
    exists|i: int| occurs_at(hay, needle, i)
}

/// The characters of `x` with the marks removed.
pub fn normalized_chars(x: &str) -> (r: Vec<char>)
    ensures
        r@ == normalized(x@),
{
    let mut r: Vec<char> = Vec::new();
    let mut it = x.chars();
    let ghost seen: Seq<char> = Seq::empty();
    loop
        invariant
            it.obeys_prophetic_iter_laws(),
            seen + it.remaining() == x@,
            r@ == normalized(seen),
        ensures
            r@ == normalized(x@),
        decreases x@.len() - seen.len(),
    {
        let ghost before = it.remaining();
        match it.next() {
            None => {
                assert(seen =~= x@);
                break;
            },
            Some(c) => {
                proof {
                    let next = seen.push(c);
                    assert(next.drop_last() =~= seen);
                    assert(next + it.remaining() =~= x@);
                    seen = next;
                }
                let code: u32 = c as u32;
                if !(FIRST_MARK <= code && code <= LAST_MARK) {
                    r.push(c);
                }
            },
        }
    }
    r
}

/// Relies on std's `FromIterator<char>` for `String`: the string holds exactly
/// the given characters, in order.
#[verifier::external_body]
fn string_from_chars(chars: &Vec<char>) -> (r: String)
    ensures
        r@ == chars@,
{
    chars.iter().collect()
}

/// `x` with every short-vowel mark removed.
pub fn normalize(x: &str) -> (r: String)
    ensures
        r@ == normalized(x@),
{
    let chars = normalized_chars(x);
    string_from_chars(&chars)
}

/// Whether `needle` occurs in `hay` at position `i`, compared character by character.
fn matches_at(hay: &Vec<char>, needle: &Vec<char>, i: usize) -> (r: bool)
    requires
        i + needle@.len() <= hay@.len(),
    ensures
        r == occurs_at(hay@, needle@, i as int),
{
    let n: usize = hay.len();
    let mut k: usize = 0;
    while k < needle.len()
        invariant
            n == hay@.len(),
            i + needle@.len() <= hay@.len(),
            k <= needle@.len(),
            forall|m: int| 0 <= m < k ==> hay@[i + m] == needle@[m],
        decreases needle@.len() - k,
    {
        if hay[i + k] != needle[k] {
            assert(hay@.subrange(i as int, i + needle@.len())[k as int] != needle@[k as int]);
            return false;
        }
        k = k + 1;
    }
    assert(hay@.subrange(i as int, i + needle@.len()) =~= needle@);
    true
}

/// Whether `needle` occurs in `hay` as a contiguous run of characters.
pub fn contains_chars(hay: &Vec<char>, needle: &Vec<char>) -> (r: bool)
    ensures
        r == occurs_in(hay@, needle@),
{
    if needle.len() > hay.len() {
        return false;
    }
    let last: usize = hay.len() - needle.len();
    let mut i: usize = 0;
    while i <= last
        invariant
            last + needle@.len() == hay@.len(),
            forall|j: int| 0 <= j < i ==> !occurs_at(hay@, needle@, j),
        decreases last + 1 - i,
    {
        if matches_at(hay, needle, i) {
            return true;
        }
        if i == last {
            return false;
        }
        i = i + 1;
    }
    false
}

/// Whether the normalized `query` occurs in the normalized `text`.
pub fn matches_query(text: &str, query: &str) -> (r: bool)
    ensures
        r == occurs_in(normalized(text@), normalized(query@)),
{
    let hay = normalized_chars(text);
    let needle = normalized_chars(query);
    contains_chars(&hay, &needle)
}

/// Normalizing `a + b` normalizes each part on its own.
pub proof fn lemma_normalized_concat(a: Seq<char>, b: Seq<char>)
    ensures
        normalized(a + b) == normalized(a) + normalized(b),
    decreases b.len(),
{
    if b.len() == 0 {
        assert(a + b =~= a);
        assert(normalized(a) + normalized(b) =~= normalized(a));
    } else {
        let c = b.last();
        lemma_normalized_concat(a, b.drop_last());
        assert((a + b).drop_last() =~= a + b.drop_last());
        if !is_mark(c) {
            assert(normalized(a) + normalized(b) =~= (normalized(a) + normalized(b.drop_last())).push(c));
        }
    }
}

/// A normalized string holds no mark.
pub proof fn lemma_normalized_has_no_mark(s: Seq<char>)
    ensures
        forall|i: int| 0 <= i < normalized(s).len() ==> !is_mark(#[trigger] normalized(s)[i]),
    decreases s.len(),
{
    if s.len() > 0 {
        let p = s.drop_last();
        lemma_normalized_has_no_mark(p);
        if !is_mark(s.last()) {
            assert forall|i: int| 0 <= i < normalized(s).len() implies !is_mark(
                #[trigger] normalized(s)[i],
            ) by {
                if i < normalized(p).len() {
                    assert(normalized(s)[i] == normalized(p)[i]);
                }
            }
        }
    }
}

/// A string without marks is left as it is.
pub proof fn lemma_normalized_keeps_plain(s: Seq<char>)
    requires
        forall|i: int| 0 <= i < s.len() ==> !is_mark(#[trigger] s[i]),
    ensures
        normalized(s) == s,
    decreases s.len(),
{
    if s.len() > 0 {
        lemma_normalized_keeps_plain(s.drop_last());
        assert(s.drop_last().push(s.last()) =~= s);
    }
}

/// Normalization is idempotent: normalizing a second time changes nothing.
pub proof fn law_normalize_idempotent(s: Seq<char>)
    ensures
        normalized(normalized(s)) == normalized(s),
{
    lemma_normalized_has_no_mark(s);
    lemma_normalized_keeps_plain(normalized(s));
}

/// The string made by putting the run of characters `marks[k]` before each
/// `bases[k]`, in order.
pub open spec fn interleaved(bases: Seq<char>, marks: Seq<Seq<char>>) -> Seq<char>
    decreases bases.len(),
{
    if bases.len() == 0 || marks.len() == 0 {
        Seq::empty()
    } else {
        interleaved(bases.drop_last(), marks.drop_last()) + marks.last().push(bases.last())
    }
}

/// Normalizing a string made by interleaving runs of marks with letters that
/// are not marks gives the letters alone, in their original order.
pub proof fn law_normalize_strips_interleaved_marks(bases: Seq<char>, marks: Seq<Seq<char>>)
    requires
        bases.len() == marks.len(),
        forall|k: int| 0 <= k < bases.len() ==> !is_mark(#[trigger] bases[k]),
        forall|k: int, m: int|
            0 <= k < marks.len() && 0 <= m < marks[k].len() ==> is_mark(#[trigger] marks[k][m]),
    ensures
        normalized(interleaved(bases, marks)) == bases,
    decreases bases.len(),
{
    if bases.len() > 0 {
        let (b0, m0) = (bases.drop_last(), marks.drop_last());
        assert forall|k: int, m: int|
            0 <= k < m0.len() && 0 <= m < m0[k].len() implies is_mark(#[trigger] m0[k][m]) by {
            assert(m0[k] == marks[k]);
        }
        law_normalize_strips_interleaved_marks(b0, m0);
        let run = marks.last();
        assert(is_mark(marks[marks.len() - 1][0]) || run.len() == 0);
        lemma_normalized_concat(interleaved(b0, m0), run.push(bases.last()));
        lemma_normalized_of_marks(run);
        assert(run.push(bases.last()).drop_last() =~= run);
        assert(normalized(run.push(bases.last())) =~= seq![bases.last()]);
        assert(b0 + seq![bases.last()] =~= bases);
    }
}

/// A run made of marks alone normalizes to nothing.
pub proof fn lemma_normalized_of_marks(run: Seq<char>)
    requires
        forall|m: int| 0 <= m < run.len() ==> is_mark(#[trigger] run[m]),
    ensures
        normalized(run) == Seq::<char>::empty(),
    decreases run.len(),
{
    if run.len() > 0 {
        lemma_normalized_of_marks(run.drop_last());
    }
}

} // verus!
