//! What the operations on texts do, said of the characters themselves.

use crate::text;
use crate::text::Separator;
use vstd::prelude::*;

verus! {

// ---------------------------------------------------------------------
// Case
// ---------------------------------------------------------------------

/// Whether two characters are the same, or the two cases of one ASCII letter.
pub open spec fn same_letter(a: char, b: char) -> bool {
    ||| a == b
    ||| 'A' <= a <= 'Z' && b as int == a as int + 32
    ||| 'A' <= b <= 'Z' && a as int == b as int + 32
}

/// Whether two texts are the same but for the case of ASCII letters.
pub open spec fn same_but_for_case(a: Seq<char>, b: Seq<char>) -> bool {
    a.len() == b.len() && forall|i: int| 0 <= i < a.len() ==> same_letter(#[trigger] a[i], b[i])
}

/// Comparing up to case tells apart exactly the texts that differ in more than
/// the case of ASCII letters.
pub proof fn law_case_is_ignored(a: Seq<char>, b: Seq<char>)
    ensures
        text::same_ignoring_case(a, b) <==> same_but_for_case(a, b),
{
    assert forall|x: char, y: char|
        #![trigger text::ascii_lower(x), text::ascii_lower(y)]
        text::ascii_lower(x) == text::ascii_lower(y) <==> same_letter(x, y) by {}
    if text::same_ignoring_case(a, b) {
        assert forall|i: int| 0 <= i < a.len() implies same_letter(#[trigger] a[i], b[i]) by {
            assert(text::ascii_lower(a[i]) == text::ascii_lower(b[i]));
        }
    }
    if same_but_for_case(a, b) {
        assert forall|i: int| 0 <= i < a.len() implies text::ascii_lower(#[trigger] a[i])
            == text::ascii_lower(b[i]) by {
            assert(same_letter(a[i], b[i]));
        }
    }
}

// ---------------------------------------------------------------------
// Trimming
// ---------------------------------------------------------------------

/// Whether `s[lo..hi]` is `s` without white space around it.
pub open spec fn is_core(s: Seq<char>, lo: int, hi: int) -> bool {
    &&& 0 <= lo <= hi <= s.len()
    &&& forall|i: int| 0 <= i < lo ==> text::white_space(#[trigger] s[i])
    &&& forall|i: int| hi <= i < s.len() ==> text::white_space(#[trigger] s[i])
    &&& lo < hi ==> !text::white_space(s[lo]) && !text::white_space(s[hi - 1])
}

/// Trimming takes the white space from the start of a text, or from its end, and
/// nothing else.
pub proof fn law_trim_one_side(s: Seq<char>)
    ensures
        exists|lo: int|
            #![trigger s.skip(lo)]
            0 <= lo <= s.len() && text::trim_start(s) == s.skip(lo) && (lo < s.len()
                ==> !text::white_space(s[lo])) && forall|i: int|
                0 <= i < lo ==> text::white_space(#[trigger] s[i]),
        exists|hi: int|
            #![trigger s.take(hi)]
            0 <= hi <= s.len() && text::trim_end(s) == s.take(hi) && (hi > 0
                ==> !text::white_space(s[hi - 1])) && forall|i: int|
                hi <= i < s.len() ==> text::white_space(#[trigger] s[i]),
    decreases s.len(),
{
    if s.len() > 0 && text::white_space(s.first()) {
        let t = s.drop_first();
        law_trim_one_side(t);
        let lo = choose|lo: int|
            #![trigger t.skip(lo)]
            0 <= lo <= t.len() && text::trim_start(t) == t.skip(lo) && (lo < t.len()
                ==> !text::white_space(t[lo])) && forall|i: int|
                0 <= i < lo ==> text::white_space(#[trigger] t[i]);
        assert(t.skip(lo) =~= s.skip(lo + 1));
        assert forall|i: int| 0 <= i < lo + 1 implies text::white_space(#[trigger] s[i]) by {
            if i > 0 {
                assert(t[i - 1] == s[i]);
            }
        }
    } else {
        assert(s.skip(0) =~= s);
    }
    if s.len() > 0 && text::white_space(s.last()) {
        let t = s.drop_last();
        law_trim_one_side(t);
        let hi = choose|hi: int|
            #![trigger t.take(hi)]
            0 <= hi <= t.len() && text::trim_end(t) == t.take(hi) && (hi > 0
                ==> !text::white_space(t[hi - 1])) && forall|i: int|
                hi <= i < t.len() ==> text::white_space(#[trigger] t[i]);
        assert(t.take(hi) =~= s.take(hi));
        assert forall|i: int| hi <= i < s.len() implies text::white_space(#[trigger] s[i]) by {
            if i < t.len() {
                assert(t[i] == s[i]);
            }
        }
    } else {
        assert(s.take(s.len() as int) =~= s);
    }
}

/// Trimming takes the white space from both ends of a text, and nothing else.
pub proof fn law_trim(s: Seq<char>)
    ensures
        exists|lo: int, hi: int| #[trigger]
            is_core(s, lo, hi) && text::trim(s) == s.subrange(lo, hi),
{
    law_trim_one_side(s);
    let t = text::trim_start(s);
    law_trim_one_side(t);
    let lo = choose|lo: int|
        #![trigger s.skip(lo)]
        0 <= lo <= s.len() && text::trim_start(s) == s.skip(lo) && (lo < s.len()
            ==> !text::white_space(s[lo])) && forall|i: int|
            0 <= i < lo ==> text::white_space(#[trigger] s[i]);
    let hi = choose|hi: int|
        #![trigger t.take(hi)]
        0 <= hi <= t.len() && text::trim_end(t) == t.take(hi) && (hi > 0
            ==> !text::white_space(t[hi - 1])) && forall|i: int|
            hi <= i < t.len() ==> text::white_space(#[trigger] t[i]);
    assert(t.take(hi) =~= s.subrange(lo, lo + hi));
    assert forall|i: int| lo + hi <= i < s.len() implies text::white_space(#[trigger] s[i]) by {
        assert(t[i - lo] == s[i]);
    }
    if hi > 0 {
        assert(t[hi - 1] == s[lo + hi - 1]);
    }
    assert(is_core(s, lo, lo + hi));
}

/// Cutting off the line feeds at the end cuts off those and nothing else.
pub proof fn law_trim_newlines(s: Seq<char>)
    ensures
        exists|hi: int|
            #![trigger s.take(hi)]
            0 <= hi <= s.len() && text::trim_end_newlines(s) == s.take(hi) && (hi > 0 ==> s[hi - 1]
                != '\n') && forall|i: int| hi <= i < s.len() ==> #[trigger] s[i] == '\n',
    decreases s.len(),
{
    if s.len() > 0 && s.last() == '\n' {
        let t = s.drop_last();
        law_trim_newlines(t);
        let hi = choose|hi: int|
            #![trigger t.take(hi)]
            0 <= hi <= t.len() && text::trim_end_newlines(t) == t.take(hi) && (hi > 0 ==> t[hi - 1]
                != '\n') && forall|i: int| hi <= i < t.len() ==> #[trigger] t[i] == '\n';
        assert(t.take(hi) =~= s.take(hi));
        assert forall|i: int| hi <= i < s.len() implies #[trigger] s[i] == '\n' by {
            if i < t.len() {
                assert(t[i] == s[i]);
            }
        }
    } else {
        assert(s.take(s.len() as int) =~= s);
    }
}

// ---------------------------------------------------------------------
// Searching
// ---------------------------------------------------------------------

/// Whether `x` stands in `s` at `i`, character by character.
pub open spec fn stands_at(s: Seq<char>, x: Seq<char>, i: int) -> bool {
    0 <= i && i + x.len() <= s.len() && forall|k: int| 0 <= k < x.len() ==> #[trigger] x[k] == s[i
        + k]
}

proof fn lemma_stands_at(s: Seq<char>, x: Seq<char>, i: int)
    ensures
        text::occurs_at(s, x, i) <==> stands_at(s, x, i),
{
    if text::occurs_at(s, x, i) {
        let u = s.subrange(i, i + x.len());
        assert forall|k: int| 0 <= k < x.len() implies #[trigger] x[k] == s[i + k] by {
            assert(u[k] == s[i + k]);
        }
    }
    if stands_at(s, x, i) {
        assert(s.subrange(i, i + x.len()) =~= x);
    }
}

/// Searching finds the first place, from a given one on, at which a text stands
/// in another, and nothing where it stands nowhere.
pub proof fn law_find(s: Seq<char>, x: Seq<char>, from: int)
    requires
        0 <= from,
    ensures
        match text::find_from(s, x, from) {
            Some(k) => from <= k && stands_at(s, x, k) && forall|j: int|
                from <= j < k ==> !#[trigger] stands_at(s, x, j),
            None => forall|j: int| from <= j ==> !#[trigger] stands_at(s, x, j),
        },
    decreases s.len() + 1 - from,
{
    lemma_stands_at(s, x, from);
    if from + x.len() <= s.len() && !text::occurs_at(s, x, from) {
        law_find(s, x, from + 1);
    }
}

/// What comes before the first separator is the text up to it: all of it where
/// there is no separator.
pub proof fn law_before_first(s: Seq<char>, sep: Seq<char>)
    ensures
        ({
            let r = text::before_first(s, sep);
            &&& r == s.take(r.len() as int)
            &&& r.len() <= s.len()
            &&& forall|j: int| 0 <= j < r.len() ==> !#[trigger] stands_at(s, sep, j)
            &&& stands_at(s, sep, r.len() as int) || (r == s && forall|j: int|
                !#[trigger] stands_at(s, sep, j))
        }),
{
    law_find(s, sep, 0);
    assert(s.take(s.len() as int) =~= s);
}

/// A text starts with another exactly if it is that text and something behind.
pub proof fn law_starts_with(s: Seq<char>, x: Seq<char>)
    ensures
        text::starts_with(s, x) <==> x.len() <= s.len() && s == x + s.skip(x.len() as int),
{
    if text::starts_with(s, x) {
        assert(s =~= s.subrange(0, x.len() as int) + s.skip(x.len() as int));
    }
    if x.len() <= s.len() && s == x + s.skip(x.len() as int) {
        assert(s.subrange(0, x.len() as int) =~= x);
    }
}

// ---------------------------------------------------------------------
// Splitting and joining
// ---------------------------------------------------------------------

/// Whether a character parts two pieces.
pub open spec fn parts_pieces(kind: Separator, c: char) -> bool {
    match kind {
        Separator::Line => c == '\n',
        Separator::Slash => c == '/',
        Separator::Tag => c == ':' || c == ' ' || c == '\t',
    }
}

/// Whether a text is the pieces with one separator between each two.
pub open spec fn pieced_together(s: Seq<char>, pieces: Seq<Seq<char>>, kind: Separator) -> bool
    decreases pieces.len(),
{
    if pieces.len() == 0 {
        false
    } else if pieces.len() == 1 {
        s == pieces[0]
    } else {
        let k = s.len() - pieces.last().len() - 1;
        &&& k >= 0
        &&& parts_pieces(kind, s[k])
        &&& s.skip(k + 1) == pieces.last()
        &&& pieced_together(s.take(k), pieces.drop_last(), kind)
    }
}

/// Splitting cuts a text at every separator and nowhere else.
pub proof fn law_split(s: Seq<char>, kind: Separator)
    ensures
        pieced_together(s, text::split_by(s, kind), kind),
        forall|i: int, j: int|
            #![trigger text::split_by(s, kind)[i][j]]
            0 <= i < text::split_by(s, kind).len() && 0 <= j < text::split_by(s, kind)[i].len()
                ==> !parts_pieces(kind, text::split_by(s, kind)[i][j]),
    decreases s.len(),
{
    let r = text::split_by(s, kind);
    if s.len() == 0 {
        assert(s =~= Seq::<char>::empty());
    } else {
        let h = s.drop_last();
        let f = text::split_by(h, kind);
        law_split(h, kind);
        if text::separates(kind, s.last()) {
            assert(r.drop_last() =~= f);
            assert(s.take(s.len() - 1) =~= h);
            assert(s.skip(s.len() as int) =~= Seq::<char>::empty());
            assert forall|i: int, j: int|
                #![trigger r[i][j]]
                0 <= i < r.len() && 0 <= j < r[i].len() implies !parts_pieces(kind, r[i][j]) by {
                assert(r[i] == f[i]);
                assert(!parts_pieces(kind, f[i][j]));
            }
        } else {
            assert(r.drop_last() =~= f.drop_last());
            if f.len() == 1 {
                assert(r[0] =~= s);
            } else {
                let k = h.len() - f.last().len() - 1;
                assert(s.skip(k + 1) =~= h.skip(k + 1).push(s.last()));
                assert(s.take(k) =~= h.take(k));
                assert(s[k] == h[k]);
            }
            assert forall|i: int, j: int|
                #![trigger r[i][j]]
                0 <= i < r.len() && 0 <= j < r[i].len() implies !parts_pieces(kind, r[i][j]) by {
                if i < r.len() - 1 {
                    assert(r[i] == f[i]);
                    assert(!parts_pieces(kind, f[i][j]));
                } else if j < f.last().len() {
                    assert(r[i][j] == f[i][j]);
                }
            }
        }
    }
}

/// What is kept of pieces is each that is more than white space, without the
/// white space around it, in order.
pub proof fn law_nonblank(pieces: Seq<Seq<char>>)
    ensures
        text::nonblank_trimmed(pieces) == pieces.map_values(
            |p: Seq<char>| text::trim(p),
        ).filter(|t: Seq<char>| t.len() > 0),
    decreases pieces.len(),
{
    reveal(Seq::filter);
    let all = pieces.map_values(|p: Seq<char>| text::trim(p));
    if pieces.len() > 0 {
        law_nonblank(pieces.drop_last());
        assert(all.drop_last() =~= pieces.drop_last().map_values(|p: Seq<char>| text::trim(p)));
    }
}

/// Joining puts the separator between each two texts, and nowhere else.
pub proof fn law_join(pieces: Seq<Seq<char>>, x: Seq<char>, sep: Seq<char>)
    ensures
        text::join(Seq::<Seq<char>>::empty(), sep) == Seq::<char>::empty(),
        text::join(seq![x], sep) == x,
        pieces.len() > 0 ==> text::join(pieces.push(x), sep) == text::join(pieces, sep) + sep + x,
{
    assert(pieces.push(x).drop_last() =~= pieces);
}

// ---------------------------------------------------------------------
// Numbers and order
// ---------------------------------------------------------------------

/// The number that decimal digits stand for.
pub open spec fn number_of(s: Seq<char>) -> int
    decreases s.len(),
{
    if s.len() == 0 {
        0
    } else {
        10 * number_of(s.drop_last()) + (s.last() as int - 48)
    }
}

/// The decimal form of a number is made of digits, stands for the number, and
/// starts with a zero only where the number is zero.
pub proof fn law_decimal(n: nat)
    ensures
        number_of(text::decimal(n)) == n,
        text::decimal(n).len() > 0,
        forall|i: int| 0 <= i < text::decimal(n).len() ==> '0' <= #[trigger] text::decimal(n)[i] <= '9',
        n > 0 ==> text::decimal(n)[0] != '0',
    decreases n,
{
    let d = text::decimal(n);
    if n < 10 {
        assert(d.drop_last() =~= Seq::<char>::empty());
        assert(number_of(d.drop_last()) == 0);
    } else {
        law_decimal(n / 10);
        assert(d.drop_last() =~= text::decimal(n / 10));
        assert(d[0] == text::decimal(n / 10)[0]);
        assert forall|i: int| 0 <= i < d.len() implies '0' <= #[trigger] d[i] <= '9' by {
            if i < d.len() - 1 {
                assert(d[i] == text::decimal(n / 10)[i]);
            }
        }
    }
}

/// Indentation is two spaces for each level.
pub proof fn law_indent(n: nat)
    ensures
        text::indent(n).len() == 2 * n,
        forall|i: int| 0 <= i < 2 * n ==> #[trigger] text::indent(n)[i] == ' ',
{
}

/// Whether two texts agree in their first `k` characters, and the one comes
/// first by what follows: it ends there, or its next character is smaller.
pub open spec fn decided_at(a: Seq<char>, b: Seq<char>, k: int) -> bool {
    &&& 0 <= k <= a.len()
    &&& k < b.len()
    &&& a.take(k) == b.take(k)
    &&& k < a.len() ==> a[k] < b[k]
}

/// Texts are ordered as in a dictionary, by the first character in which they
/// differ.
pub proof fn law_text_order(a: Seq<char>, b: Seq<char>)
    ensures
        text::text_before(a, b) <==> exists|k: int| #[trigger] decided_at(a, b, k),
    decreases a.len(),
{
    if a.len() > 0 && b.len() > 0 && a.first() == b.first() {
        let (x, y) = (a.drop_first(), b.drop_first());
        law_text_order(x, y);
        if text::text_before(x, y) {
            let k = choose|k: int| #[trigger] decided_at(x, y, k);
            assert(a.take(k + 1) =~= seq![a.first()] + x.take(k));
            assert(b.take(k + 1) =~= seq![b.first()] + y.take(k));
            assert(decided_at(a, b, k + 1));
        }
        if exists|k: int| #[trigger] decided_at(a, b, k) {
            let k = choose|k: int| #[trigger] decided_at(a, b, k);
            if k > 0 {
                assert(x.take(k - 1) =~= a.take(k).drop_first());
                assert(y.take(k - 1) =~= b.take(k).drop_first());
                assert(decided_at(x, y, k - 1));
            }
        }
    } else {
        if text::text_before(a, b) {
            assert(a.take(0) =~= b.take(0));
            assert(decided_at(a, b, 0));
        }
        if exists|k: int| #[trigger] decided_at(a, b, k) {
            let k = choose|k: int| #[trigger] decided_at(a, b, k);
            if k > 0 {
                assert(a.take(k)[0] == b.take(k)[0]);
            }
        }
    }
}

} // verus!
