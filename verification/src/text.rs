//! Text as a sequence of characters: the string operations the rest of the
//! library is stated with, each as a specification and as code.

use vstd::prelude::*;

verus! {

/// Whether a character has the Unicode property `White_Space`.
pub open spec fn white_space(c: char) -> bool {
    let n = c as u32;
    ||| 0x9 <= n <= 0xd
    ||| n == 0x20
    ||| n == 0x85
    ||| n == 0xa0
    ||| n == 0x1680
    ||| 0x2000 <= n <= 0x200a
    ||| n == 0x2028
    ||| n == 0x2029
    ||| n == 0x202f
    ||| n == 0x205f
    ||| n == 0x3000
}

/// `char::is_whitespace`: whether the character has the property
/// `White_Space`, that is, whether it is one of the characters that Unicode
/// gives this property.
pub assume_specification[ char::is_whitespace ](c: char) -> (b: bool)
    ensures
        b == white_space(c),
;

/// `String::push`: appends one character.
pub assume_specification[ String::push ](s: &mut String, ch: char)
    ensures
        final(s)@ == old(s)@.push(ch),
;

/// The text with every character mapped to its lower-case equivalent.
pub uninterp spec fn lowercase(s: Seq<char>) -> Seq<char>;

/// `str::to_lowercase`: a function of the text alone.
#[verifier::external_body]
pub(crate) fn to_lowercase(s: &str) -> (r: String)
    ensures
        r@ == lowercase(s@),
{
    s.to_lowercase()
}

/// The quoted and escaped form in which `Debug` shows a text.
pub uninterp spec fn debug_quoted(s: Seq<char>) -> Seq<char>;

/// The `Debug` form of a `str`: a function of the text alone.
#[verifier::external_body]
pub(crate) fn debug_quote(s: &str) -> (r: String)
    ensures
        r@ == debug_quoted(s@),
{
    format!("{:?}", s)
}

/// The characters of a string, in order.
pub fn chars_of(s: &str) -> (v: Vec<char>)
    ensures
        v@ == s@,
{
    let mut v: Vec<char> = Vec::new();
    for c in it: s.chars()
        invariant
            v@ == s@.take(it.index() as int),
            it.seq() == s@,
    {
        v.push(c);
    }
    v
}

/// The string made of `cs[lo..hi]`.
pub fn string_of(cs: &Vec<char>, lo: usize, hi: usize) -> (s: String)
    requires
        lo <= hi <= cs@.len(),
    ensures
        s@ == cs@.subrange(lo as int, hi as int),
{
    let mut s: String = String::new();
    let mut i: usize = lo;
    while i < hi
        invariant
            lo <= i <= hi <= cs@.len(),
            s@ == cs@.subrange(lo as int, i as int),
        decreases hi - i,
    {
        s.push(cs[i]);
        i = i + 1;
    }
    s
}

/// Whether two strings hold the same characters.
pub fn same_text(a: &str, b: &str) -> (r: bool)
    ensures
        r == (a@ == b@),
{
    a.to_owned() == b.to_owned()
}

/// A copy of a list of strings.
pub fn copy_strings(v: &Vec<String>) -> (r: Vec<String>)
    ensures
        r.deep_view() == v.deep_view(),
{
    let mut out: Vec<String> = Vec::new();
    let mut i: usize = 0;
    while i < v.len()
        invariant
            i <= v@.len(),
            out.deep_view() == v.deep_view().take(i as int),
        decreases v.len() - i,
    {
        let ghost before = out.deep_view();
        out.push(v[i].clone());
        assert(out.deep_view() =~= before.push(v[i as int]@));
        i = i + 1;
    }
    out
}

/// `s` followed by `t`.
pub fn concat2(s: &str, t: &str) -> (r: String)
    ensures
        r@ == s@ + t@,
{
    let mut r: String = s.to_owned();
    r.append(t);
    r
}

// ---------------------------------------------------------------------
// Trimming
// ---------------------------------------------------------------------

/// The text without its leading white space.
pub open spec fn trim_start(s: Seq<char>) -> Seq<char>
    decreases s.len(),
{
    if s.len() > 0 && white_space(s.first()) {
        trim_start(s.drop_first())
    } else {
        s
    }
}

/// The text without its trailing white space.
pub open spec fn trim_end(s: Seq<char>) -> Seq<char>
    decreases s.len(),
{
    if s.len() > 0 && white_space(s.last()) {
        trim_end(s.drop_last())
    } else {
        s
    }
}

/// The text without the white space around it.
pub open spec fn trim(s: Seq<char>) -> Seq<char> {
    trim_end(trim_start(s))
}

/// The text without the line feeds at its end.
pub open spec fn trim_end_newlines(s: Seq<char>) -> Seq<char>
    decreases s.len(),
{
    if s.len() > 0 && s.last() == '\n' {
        trim_end_newlines(s.drop_last())
    } else {
        s
    }
}

/// The number of leading white-space characters of `cs[lo..hi]`, added to `lo`.
fn skip_white(cs: &Vec<char>, lo: usize, hi: usize) -> (r: usize)
    requires
        lo <= hi <= cs@.len(),
    ensures
        lo <= r <= hi,
        cs@.subrange(r as int, hi as int) == trim_start(cs@.subrange(lo as int, hi as int)),
{
    let mut i: usize = lo;
    while i < hi && cs[i].is_whitespace()
        invariant
            lo <= i <= hi <= cs@.len(),
            trim_start(cs@.subrange(i as int, hi as int)) == trim_start(
                cs@.subrange(lo as int, hi as int),
            ),
        decreases hi - i,
    {
        assert(cs@.subrange(i as int, hi as int).drop_first() =~= cs@.subrange(
            i + 1,
            hi as int,
        ));
        i = i + 1;
    }
    i
}

/// `hi` less the number of trailing white-space characters of `cs[lo..hi]`.
fn skip_white_back(cs: &Vec<char>, lo: usize, hi: usize) -> (r: usize)
    requires
        lo <= hi <= cs@.len(),
    ensures
        lo <= r <= hi,
        cs@.subrange(lo as int, r as int) == trim_end(cs@.subrange(lo as int, hi as int)),
{
    let mut i: usize = hi;
    while i > lo && cs[i - 1].is_whitespace()
        invariant
            lo <= i <= hi <= cs@.len(),
            trim_end(cs@.subrange(lo as int, i as int)) == trim_end(
                cs@.subrange(lo as int, hi as int),
            ),
        decreases i,
    {
        assert(cs@.subrange(lo as int, i as int).drop_last() =~= cs@.subrange(
            lo as int,
            i - 1,
        ));
        i = i - 1;
    }
    i
}

/// The string without the white space around it.
pub fn trimmed(s: &str) -> (r: String)
    ensures
        r@ == trim(s@),
{
    let cs: Vec<char> = chars_of(s);
    let n: usize = cs.len();
    let lo: usize = skip_white(&cs, 0, n);
    let hi: usize = skip_white_back(&cs, lo, n);
    assert(cs@.subrange(0, n as int) =~= s@);
    string_of(&cs, lo, hi)
}

/// The string without its leading white space.
pub fn trimmed_start(s: &str) -> (r: String)
    ensures
        r@ == trim_start(s@),
{
    let cs: Vec<char> = chars_of(s);
    let n: usize = cs.len();
    let lo: usize = skip_white(&cs, 0, n);
    assert(cs@.subrange(0, n as int) =~= s@);
    string_of(&cs, lo, n)
}

/// The string without its trailing white space.
pub fn trimmed_end(s: &str) -> (r: String)
    ensures
        r@ == trim_end(s@),
{
    let cs: Vec<char> = chars_of(s);
    let n: usize = cs.len();
    let hi: usize = skip_white_back(&cs, 0, n);
    assert(cs@.subrange(0, n as int) =~= s@);
    string_of(&cs, 0, hi)
}

/// The string without the line feeds at its end.
pub fn without_end_newlines(s: &str) -> (r: String)
    ensures
        r@ == trim_end_newlines(s@),
{
    let cs: Vec<char> = chars_of(s);
    let n: usize = cs.len();
    assert(cs@.subrange(0, n as int) =~= s@);
    let mut i: usize = n;
    while i > 0 && cs[i - 1] == '\n'
        invariant
            i <= n == cs@.len(),
            trim_end_newlines(cs@.subrange(0, i as int)) == trim_end_newlines(s@),
        decreases i,
    {
        assert(cs@.subrange(0, i as int).drop_last() =~= cs@.subrange(0, i - 1));
        i = i - 1;
    }
    string_of(&cs, 0, i)
}

// ---------------------------------------------------------------------
// ASCII case
// ---------------------------------------------------------------------

/// The character with ASCII upper case mapped to lower case.
pub open spec fn ascii_lower(c: char) -> char {
    if 'A' <= c && c <= 'Z' {
        ((c as u8) + 32) as char
    } else {
        c
    }
}

/// Whether two texts are equal up to ASCII case.
pub open spec fn same_ignoring_case(a: Seq<char>, b: Seq<char>) -> bool {
    &&& a.len() == b.len()
    &&& forall|i: int| 0 <= i < a.len() ==> ascii_lower(#[trigger] a[i]) == ascii_lower(b[i])
}

fn to_ascii_lower(c: char) -> (r: char)
    ensures
        r == ascii_lower(c),
{
    if 'A' <= c && c <= 'Z' {
        ((c as u8) + 32) as char
    } else {
        c
    }
}

/// Whether two strings are equal up to ASCII case.
pub fn eq_ignoring_case(a: &str, b: &str) -> (r: bool)
    ensures
        r == same_ignoring_case(a@, b@),
{
    let x: Vec<char> = chars_of(a);
    let y: Vec<char> = chars_of(b);
    if x.len() != y.len() {
        return false;
    }
    let mut i: usize = 0;
    while i < x.len()
        invariant
            i <= x@.len() == y@.len(),
            x@ == a@,
            y@ == b@,
            forall|j: int| 0 <= j < i ==> ascii_lower(#[trigger] a@[j]) == ascii_lower(b@[j]),
        decreases x.len() - i,
    {
        if to_ascii_lower(x[i]) != to_ascii_lower(y[i]) {
            assert(ascii_lower(a@[i as int]) != ascii_lower(b@[i as int]));
            return false;
        }
        i = i + 1;
    }
    true
}

// ---------------------------------------------------------------------
// Searching
// ---------------------------------------------------------------------

/// Whether `pat` occurs in `s` at position `i`.
pub open spec fn occurs_at(s: Seq<char>, pat: Seq<char>, i: int) -> bool {
    0 <= i && i + pat.len() <= s.len() && s.subrange(i, i + pat.len()) == pat
}

/// The first position at or after `from` at which `pat` occurs in `s`.
pub open spec fn find_from(s: Seq<char>, pat: Seq<char>, from: int) -> Option<int>
    decreases s.len() + 1 - from,
{
    if from < 0 || from + pat.len() > s.len() {
        None
    } else if occurs_at(s, pat, from) {
        Some(from)
    } else {
        find_from(s, pat, from + 1)
    }
}

/// Whether `pat` occurs in `cs` at position `i`.
pub fn occurs(cs: &Vec<char>, pat: &Vec<char>, i: usize) -> (r: bool)
    ensures
        r == occurs_at(cs@, pat@, i as int),
{
    if pat.len() > cs.len() || i > cs.len() - pat.len() {
        return false;
    }
    let mut k: usize = 0;
    while k < pat.len()
        invariant
            k <= pat@.len(),
            i + pat.len() <= cs.len(),
            cs@.subrange(i as int, i + k) == pat@.take(k as int),
        decreases pat.len() - k,
    {
        if cs[i + k] != pat[k] {
            assert(cs@.subrange(i as int, i + pat@.len())[k as int] != pat@[k as int]);
            return false;
        }
        assert(cs@.subrange(i as int, i + k + 1) =~= pat@.take(k as int).push(pat@[k as int]));
        assert(pat@.take(k + 1) =~= pat@.take(k as int).push(pat@[k as int]));
        k = k + 1;
    }
    assert(pat@.take(k as int) =~= pat@);
    true
}

/// The first position at which `pat` occurs in `cs`.
pub fn find(cs: &Vec<char>, pat: &Vec<char>) -> (r: Option<usize>)
    ensures
        match r {
            Some(i) => find_from(cs@, pat@, 0) == Some(i as int) && occurs_at(
                cs@,
                pat@,
                i as int,
            ),
            None => find_from(cs@, pat@, 0) is None,
        },
{
    let mut i: usize = 0;
    while pat.len() <= cs.len() && i <= cs.len() - pat.len()
        invariant
            i <= cs@.len() + 1,
            i <= usize::MAX,
            find_from(cs@, pat@, 0) == find_from(cs@, pat@, i as int),
        decreases cs.len() + 1 - i,
    {
        if occurs(cs, pat, i) {
            return Some(i);
        }
        if i == cs.len() {
            assert(find_from(cs@, pat@, i + 1) is None);
            return None;
        }
        i = i + 1;
    }
    None
}

/// Whether the text starts with `prefix`.
pub open spec fn starts_with(s: Seq<char>, prefix: Seq<char>) -> bool {
    occurs_at(s, prefix, 0)
}

/// Whether the string starts with `prefix`.
pub fn has_prefix(s: &str, prefix: &str) -> (r: bool)
    ensures
        r == starts_with(s@, prefix@),
{
    occurs(&chars_of(s), &chars_of(prefix), 0)
}

/// The part of the text before the first occurrence of `sep`: all of it where
/// there is none.
pub open spec fn before_first(s: Seq<char>, sep: Seq<char>) -> Seq<char> {
    match find_from(s, sep, 0) {
        Some(i) => s.take(i),
        None => s,
    }
}

/// The part of the string before the first occurrence of `sep`.
pub fn cut_at(s: &str, sep: &str) -> (r: String)
    ensures
        r@ == before_first(s@, sep@),
{
    let cs: Vec<char> = chars_of(s);
    match find(&cs, &chars_of(sep)) {
        Some(i) => {
            assert(cs@.subrange(0, i as int) =~= s@.take(i as int));
            string_of(&cs, 0, i)
        },
        None => s.to_owned(),
    }
}

/// The text from position `n` on.
pub fn skip_chars(s: &str, n: usize) -> (r: String)
    requires
        n <= s@.len(),
    ensures
        r@ == s@.skip(n as int),
{
    let cs: Vec<char> = chars_of(s);
    assert(cs@.subrange(n as int, cs@.len() as int) =~= s@.skip(n as int));
    string_of(&cs, n, cs.len())
}

// ---------------------------------------------------------------------
// Splitting
// ---------------------------------------------------------------------

/// The pieces of the text between the separators.
pub open spec fn split_by(s: Seq<char>, kind: Separator) -> Seq<Seq<char>>
    decreases s.len(),
{
    if s.len() == 0 {
        seq![Seq::<char>::empty()]
    } else {
        let rest = split_by(s.drop_last(), kind);
        if separates(kind, s.last()) {
            rest.push(Seq::<char>::empty())
        } else {
            rest.drop_last().push(rest.last().push(s.last()))
        }
    }
}

/// Each text without the white space around it, the empty ones left out.
pub open spec fn nonblank_trimmed(pieces: Seq<Seq<char>>) -> Seq<Seq<char>>
    decreases pieces.len(),
{
    if pieces.len() == 0 {
        Seq::<Seq<char>>::empty()
    } else {
        let head = nonblank_trimmed(pieces.drop_last());
        let t = trim(pieces.last());
        if t.len() == 0 {
            head
        } else {
            head.push(t)
        }
    }
}

/// Where a string is cut into pieces.
#[derive(Clone, Copy, PartialEq, Eq, Structural)]
pub enum Separator {
    Line,
    Slash,
    Tag,
}

/// Whether a character is a separator of the given kind.
pub open spec fn separates(kind: Separator, c: char) -> bool {
    match kind {
        Separator::Line => c == '\n',
        Separator::Slash => c == '/',
        Separator::Tag => c == ':' || c == ' ' || c == '\t',
    }
}

/// The pieces of the string between the separators.
pub fn split_pieces(s: &str, kind: Separator) -> (r: Vec<String>)
    ensures
        r.deep_view() == split_by(s@, kind),
{
    let cs: Vec<char> = chars_of(s);
    let mut done: Vec<String> = Vec::new();
    let mut cur: String = String::new();
    let mut i: usize = 0;
    assert(split_by(s@.take(0), kind) =~= seq![Seq::<char>::empty()]);
    assert(done.deep_view().push(cur@) =~= seq![Seq::<char>::empty()]);
    while i < cs.len()
        invariant
            i <= cs@.len(),
            cs@ == s@,
            split_by(s@.take(i as int), kind) == done.deep_view().push(cur@),
        decreases cs.len() - i,
    {
        let c: char = cs[i];
        let sep: bool = match kind {
            Separator::Line => c == '\n',
            Separator::Slash => c == '/',
            Separator::Tag => c == ':' || c == ' ' || c == '\t',
        };
        let ghost before = done.deep_view().push(cur@);
        proof {
            assert(s@.take(i + 1).drop_last() =~= s@.take(i as int));
            assert(s@.take(i + 1).last() == c);
            assert(before.drop_last() =~= done.deep_view());
        }
        if sep {
            done.push(cur);
            cur = String::new();
            assert(done.deep_view() =~= before);
            assert(done.deep_view().push(cur@) =~= before.push(Seq::<char>::empty()));
        } else {
            cur.push(c);
        }
        i = i + 1;
    }
    let ghost all = done.deep_view().push(cur@);
    done.push(cur);
    assert(done.deep_view() =~= all);
    assert(s@.take(i as int) =~= s@);
    done
}

/// The pieces without the white space around them, the empty ones left out.
pub fn trim_pieces(pieces: &Vec<String>) -> (r: Vec<String>)
    ensures
        r.deep_view() == nonblank_trimmed(pieces.deep_view()),
{
    let mut out: Vec<String> = Vec::new();
    let mut i: usize = 0;
    while i < pieces.len()
        invariant
            i <= pieces@.len(),
            out.deep_view() == nonblank_trimmed(pieces.deep_view().take(i as int)),
        decreases pieces.len() - i,
    {
        let t: String = trimmed(pieces[i].as_str());
        proof {
            assert(pieces.deep_view().take(i + 1).drop_last() =~= pieces.deep_view().take(
                i as int,
            ));
            assert(pieces.deep_view().take(i + 1).last() == pieces[i as int]@);
        }
        let ghost before = out.deep_view();
        if t.as_str().unicode_len() > 0 {
            out.push(t);
            assert(out.deep_view() =~= before.push(t@));
        }
        i = i + 1;
    }
    assert(pieces.deep_view().take(i as int) =~= pieces.deep_view());
    out
}

// ---------------------------------------------------------------------
// Rendering
// ---------------------------------------------------------------------

/// The decimal digit of a number below ten.
pub open spec fn digit_char(d: nat) -> char {
    (d as u8 + 48) as char
}

/// The decimal form of a number.
pub open spec fn decimal(n: nat) -> Seq<char>
    decreases n,
{
    if n < 10 {
        seq![digit_char(n)]
    } else {
        decimal(n / 10).push(digit_char(n % 10))
    }
}

/// The decimal form of a number.
pub fn to_decimal(n: usize) -> (r: String)
    ensures
        r@ == decimal(n as nat),
    decreases n,
{
    let d: u8 = (n % 10) as u8;
    let c: char = (d + 48) as char;
    if n < 10 {
        let mut s: String = String::new();
        s.push(c);
        assert(s@ =~= seq![digit_char(n as nat)]);
        s
    } else {
        let mut s: String = to_decimal(n / 10);
        s.push(c);
        s
    }
}

/// Two spaces, `n` times.
pub open spec fn indent(n: nat) -> Seq<char> {
    Seq::new(2 * n, |i: int| ' ')
}

/// Two spaces, `n` times.
pub fn indentation(n: usize) -> (r: String)
    ensures
        r@ == indent(n as nat),
{
    let mut s: String = String::new();
    let mut i: usize = 0;
    while i < n
        invariant
            i <= n,
            s@ == indent(i as nat),
        decreases n - i,
    {
        s.push(' ');
        s.push(' ');
        i = i + 1;
        assert(s@ =~= indent(i as nat));
    }
    s
}

/// The texts one after another, with `sep` between them.
pub open spec fn join(pieces: Seq<Seq<char>>, sep: Seq<char>) -> Seq<char>
    decreases pieces.len(),
{
    if pieces.len() == 0 {
        Seq::<char>::empty()
    } else if pieces.len() == 1 {
        pieces[0]
    } else {
        join(pieces.drop_last(), sep) + sep + pieces.last()
    }
}

/// The strings one after another, with `sep` between them.
pub fn joined(pieces: &Vec<String>, sep: &str) -> (r: String)
    ensures
        r@ == join(pieces.deep_view(), sep@),
{
    let mut out: String = String::new();
    let mut i: usize = 0;
    while i < pieces.len()
        invariant
            i <= pieces@.len(),
            out@ == join(pieces.deep_view().take(i as int), sep@),
        decreases pieces.len() - i,
    {
        let ghost prefix = pieces.deep_view().take(i + 1);
        proof {
            assert(prefix.drop_last() =~= pieces.deep_view().take(i as int));
            assert(prefix.last() == pieces[i as int]@);
        }
        if i > 0 {
            out.append(sep);
        }
        out.append(pieces[i].as_str());
        i = i + 1;
        assert(out@ =~= join(prefix, sep@));
    }
    assert(pieces.deep_view().take(i as int) =~= pieces.deep_view());
    out
}

// ---------------------------------------------------------------------
// Order
// ---------------------------------------------------------------------

/// The order of texts by their code points, a proper prefix coming first.
pub open spec fn text_before(a: Seq<char>, b: Seq<char>) -> bool
    decreases a.len(),
{
    if b.len() == 0 {
        false
    } else if a.len() == 0 {
        true
    } else if a.first() != b.first() {
        a.first() < b.first()
    } else {
        text_before(a.drop_first(), b.drop_first())
    }
}

/// Whether `a` comes before `b` by code points.
pub fn is_text_before(a: &str, b: &str) -> (r: bool)
    ensures
        r == text_before(a@, b@),
{
    let x: Vec<char> = chars_of(a);
    let y: Vec<char> = chars_of(b);
    let mut i: usize = 0;
    assert(a@.skip(0) =~= a@);
    assert(b@.skip(0) =~= b@);
    while i < x.len() && i < y.len()
        invariant
            i <= x@.len(),
            i <= y@.len(),
            x@ == a@,
            y@ == b@,
            text_before(a@, b@) == text_before(a@.skip(i as int), b@.skip(i as int)),
        decreases x.len() - i,
    {
        if x[i] != y[i] {
            return x[i] < y[i];
        }
        assert(a@.skip(i as int).drop_first() =~= a@.skip(i + 1));
        assert(b@.skip(i as int).drop_first() =~= b@.skip(i + 1));
        i = i + 1;
    }
    i < y.len()
}

/// No text comes before itself.
pub proof fn lemma_text_before_irreflexive(a: Seq<char>)
    ensures
        !text_before(a, a),
    decreases a.len(),
{
    if a.len() > 0 {
        lemma_text_before_irreflexive(a.drop_first());
    }
}

/// The order of texts is transitive.
pub proof fn lemma_text_before_transitive(a: Seq<char>, b: Seq<char>, c: Seq<char>)
    requires
        text_before(a, b),
        text_before(b, c),
    ensures
        text_before(a, c),
    decreases a.len(),
{
    if a.len() > 0 && a.first() == b.first() && b.first() == c.first() {
        lemma_text_before_transitive(a.drop_first(), b.drop_first(), c.drop_first());
    }
}

/// Of two different texts one comes before the other.
pub proof fn lemma_text_before_total(a: Seq<char>, b: Seq<char>)
    ensures
        text_before(a, b) || text_before(b, a) || a == b,
    decreases a.len(),
{
    if a.len() == 0 || b.len() == 0 {
        assert(a.len() == 0 && b.len() == 0 ==> a =~= b);
    } else if a.first() == b.first() {
        lemma_text_before_total(a.drop_first(), b.drop_first());
        if a.drop_first() == b.drop_first() {
            assert(a =~= seq![a.first()] + a.drop_first());
            assert(b =~= seq![b.first()] + b.drop_first());
        }
    }
}

} // verus!
