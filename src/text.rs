//! Character-level helpers over string views.

use vstd::prelude::*;
use vstd::std_specs::iter::IteratorSpec;

verus! {

/// What `str::to_lowercase` makes of a string.
pub uninterp spec fn lower_of(s: Seq<char>) -> Seq<char>;

/// Relies on `str::to_lowercase`: the result depends on the characters alone.
#[verifier::external_body]
fn lowercase(s: &str) -> (r: String)
    ensures
        r@ == lower_of(s@),
{
    s.to_lowercase()
}

/// Relies on `String::push`: appends one character.
#[verifier::external_body]
pub(crate) fn push_char(s: &mut String, c: char)
    ensures
        final(s)@ == old(s)@.push(c),
{
    s.push(c)
}

/// Appends the characters of `t` to `s`.
pub(crate) fn push_text(s: &mut String, t: &str)
    ensures
        final(s)@ == old(s)@ + t@,
{
    let chars = chars_of(t);
    let mut i: usize = 0;
    while i < chars.len()
        invariant
            chars@ == t@,
            i <= chars@.len(),
            s@ == old(s)@ + chars@.take(i as int),
        decreases chars@.len() - i,
    {
        push_char(s, chars[i]);
        assert(chars@.take(i + 1) =~= chars@.take(i as int).push(chars@[i as int]));
        i = i + 1;
    }
    assert(chars@.take(chars@.len() as int) =~= chars@);
}

/// The decimal digit character for `n`.
pub open spec fn digit_char(n: int) -> char {
    ((n + 48) as u8) as char
}

/// `n` written in exactly `width` decimal digits, most significant first.
pub open spec fn padded_digits(n: nat, width: nat) -> Seq<char>
    decreases width,
{
    if width == 0 {
        Seq::empty()
    } else {
        padded_digits(n / 10, (width - 1) as nat).push(digit_char((n % 10) as int))
    }
}

/// Appends `n` to `s` in exactly `width` decimal digits.
pub(crate) fn push_padded(s: &mut String, n: u32, width: u32)
    requires
        width <= 9,
    ensures
        final(s)@ == old(s)@ + padded_digits(n as nat, width as nat),
    decreases width,
{
    if width == 0 {
        assert(old(s)@ + padded_digits(n as nat, 0) =~= old(s)@);
        return;
    }
    push_padded(s, n / 10, width - 1);
    let d = (n % 10) as u8;
    push_char(s, (d + 48) as char);
    assert(final(s)@ =~= old(s)@ + padded_digits(n as nat, width as nat));
}

/// `needle` occurs in `hay` as a contiguous run starting at `i`.
pub open spec fn occurs_at(hay: Seq<char>, needle: Seq<char>, i: int) -> bool {
    0 <= i && i + needle.len() <= hay.len() && hay.subrange(i, i + needle.len()) == needle
}

/// `needle` occurs somewhere in `hay`.
pub open spec fn has_infix(hay: Seq<char>, needle: Seq<char>) -> bool {
    exists|i: int| occurs_at(hay, needle, i)
}

/// `a` comes strictly before `b` in lexicographic order of characters, the
/// order of `String`'s `Ord`.
pub open spec fn text_lt(a: Seq<char>, b: Seq<char>) -> bool
    decreases a.len(),
{
    if a.len() == 0 {
        b.len() > 0
    } else if b.len() == 0 {
        false
    } else if a[0] != b[0] {
        (a[0] as u32) < (b[0] as u32)
    } else {
        text_lt(a.drop_first(), b.drop_first())
    }
}

pub proof fn lemma_text_lt_irreflexive(a: Seq<char>)
    ensures
        !text_lt(a, a),
    decreases a.len(),
{
    if a.len() > 0 {
        lemma_text_lt_irreflexive(a.drop_first());
    }
}

pub proof fn lemma_text_lt_transitive(a: Seq<char>, b: Seq<char>, c: Seq<char>)
    requires
        text_lt(a, b),
        text_lt(b, c),
    ensures
        text_lt(a, c),
    decreases a.len(),
{
    if a.len() > 0 && b.len() > 0 && c.len() > 0 && a[0] == b[0] && b[0] == c[0] {
        lemma_text_lt_transitive(a.drop_first(), b.drop_first(), c.drop_first());
    }
}

pub proof fn lemma_text_lt_total(a: Seq<char>, b: Seq<char>)
    ensures
        a == b || text_lt(a, b) || text_lt(b, a),
    decreases a.len(),
{
    if a.len() > 0 && b.len() > 0 && a[0] != b[0] {
        vstd::utf8::char_u32_cast(a[0], a[0] as u32);
        vstd::utf8::char_u32_cast(b[0], b[0] as u32);
    }
    if a.len() > 0 && b.len() > 0 && a[0] == b[0] {
        lemma_text_lt_total(a.drop_first(), b.drop_first());
        if a.drop_first() == b.drop_first() {
            assert(a =~= seq![a[0]] + a.drop_first());
            assert(b =~= seq![b[0]] + b.drop_first());
        }
    } else if a.len() == 0 && b.len() == 0 {
        assert(a =~= b);
    }
}

/// Compares two texts in lexicographic order of characters.
pub fn text_less(a: &String, b: &String) -> (r: bool)
    ensures
        r == text_lt(a@, b@),
{
    let x = chars_of(a.as_str());
    let y = chars_of(b.as_str());
    let mut i: usize = 0;
    assert(x@.skip(0) =~= x@);
    assert(y@.skip(0) =~= y@);
    while i < x.len() && i < y.len()
        invariant
            x@ == a@,
            y@ == b@,
            i <= x@.len(),
            i <= y@.len(),
            text_lt(x@, y@) == text_lt(x@.skip(i as int), y@.skip(i as int)),
        decreases x@.len() - i,
    {
        if x[i] != y[i] {
            assert(x@.skip(i as int)[0] == x@[i as int]);
            assert(y@.skip(i as int)[0] == y@[i as int]);
            let r = (x[i] as u32) < (y[i] as u32);
            assert(text_lt(x@.skip(i as int), y@.skip(i as int)) == ((x@[i as int] as u32) < (y@[i as int] as u32)));
            return r;
        }
        assert(x@.skip(i as int).drop_first() =~= x@.skip(i + 1));
        assert(y@.skip(i as int).drop_first() =~= y@.skip(i + 1));
        i = i + 1;
    }
    i < y.len()
}

/// The characters of `s`, in order.
pub fn chars_of(s: &str) -> (r: Vec<char>)
    ensures
        r@ == s@,
{
    let mut out: Vec<char> = Vec::new();
    for c in it: s.chars()
        invariant
            it.seq() == s@,
            out@ == it.seq().take(it.index() as int),
    {
        out.push(c);
    }
    out
}

/// Whether `hay` contains the three characters `a`, `b`, `c` in a row.
fn contains_three(hay: &Vec<char>, a: char, b: char, c: char) -> (r: bool)
    ensures
        r == has_infix(hay@, seq![a, b, c]),
{
    let n = hay.len();
    if n < 3 {
        assert forall|i: int| !occurs_at(hay@, seq![a, b, c], i) by {}
        return false;
    }
    let mut i: usize = 0;
    while i < n - 2
        invariant
            n == hay.len(),
            n >= 3,
            forall|j: int| 0 <= j < i ==> !occurs_at(hay@, seq![a, b, c], j),
        decreases n - i,
    {
        if hay[i] == a && hay[i + 1] == b && hay[i + 2] == c {
            assert(hay@.subrange(i as int, i + 3) =~= seq![a, b, c]);
            assert(occurs_at(hay@, seq![a, b, c], i as int));
            return true;
        }
        proof {
            if occurs_at(hay@, seq![a, b, c], i as int) {
                assert(hay@.subrange(i as int, i + 3)[0] == hay@[i as int]);
                assert(hay@.subrange(i as int, i + 3)[1] == hay@[i + 1]);
                assert(hay@.subrange(i as int, i + 3)[2] == hay@[i + 2]);
            }
        }
        i = i + 1;
    }
    assert forall|j: int| !occurs_at(hay@, seq![a, b, c], j) by {}
    false
}

/// Whether `s`, lower-cased, contains "bot".
pub fn mentions_bot(s: &str) -> (r: bool)
    ensures
        r == has_infix(lower_of(s@), seq!['b', 'o', 't']),
{
    let lower = lowercase(s);
    has_bot(lower.as_str())
}

/// Whether `s` contains "bot" as it stands.
pub fn has_bot(s: &str) -> (r: bool)
    ensures
        r == has_infix(s@, seq!['b', 'o', 't']),
{
    let chars = chars_of(s);
    contains_three(&chars, 'b', 'o', 't')
}

} // verus!
