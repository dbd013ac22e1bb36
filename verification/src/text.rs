//! Text as sequences of characters: the trimming, splitting, joining and replacing
//! that every other module is written with.

use vstd::prelude::*;

verus! {

/// `String::push` appends one character to the end of the string.
pub assume_specification[ String::push ](s: &mut String, c: char)
    ensures
        final(s)@ == old(s)@.push(c),
;

/// `==` on string slices compares their characters, all of them and in order.
pub assume_specification[ <str as PartialEq>::eq ](a: &str, b: &str) -> (r: bool)
    ensures
        r == (a@ == b@),
;

/// A set of characters that text is trimmed of or split at.
#[derive(Clone, Copy)]
pub enum CharSet {
    /// Unicode white space.
    Space,
    /// `/`, which separates the parts of a path.
    Slash,
    /// `/` and `\`, which both separate the parts of an archive entry's name.
    AnySlash,
    /// The NUL character.
    Nul,
    /// The characters that a file name neither starts nor ends with.
    NameEdge,
    /// The line feed.
    LineFeed,
    /// The tab.
    Tab,
    /// The full stop.
    Dot,
    /// The letter `v` before a version number.
    LetterV,
}

/// Whether a character has the Unicode property White_Space.
pub open spec fn is_space(c: char) -> bool {
    let u = c as u32;
    ||| 0x09 <= u <= 0x0d
    ||| u == 0x20
    ||| u == 0x85
    ||| u == 0xa0
    ||| u == 0x1680
    ||| 0x2000 <= u <= 0x200a
    ||| u == 0x2028
    ||| u == 0x2029
    ||| u == 0x202f
    ||| u == 0x205f
    ||| u == 0x3000
}

impl CharSet {
    /// Whether `c` belongs to the set.
    pub open spec fn has(self, c: char) -> bool {
        match self {
            CharSet::Space => is_space(c),
            CharSet::Slash => c == '/',
            CharSet::AnySlash => c == '/' || c == '\\',
            CharSet::Nul => c == '\0',
            CharSet::NameEdge => c == '.' || c == ' ' || c == '_',
            CharSet::LineFeed => c == '\n',
            CharSet::Tab => c == '\t',
            CharSet::Dot => c == '.',
            CharSet::LetterV => c == 'v',
        }
    }

    /// Tests whether `c` belongs to the set.
    pub fn contains(self, c: char) -> (r: bool)
        ensures
            r == self.has(c),
    {
        match self {
            CharSet::Space => {
                let u: u32 = c as u32;
                (0x09 <= u && u <= 0x0d) || u == 0x20 || u == 0x85 || u == 0xa0 || u == 0x1680 || (
                0x2000 <= u && u <= 0x200a) || u == 0x2028 || u == 0x2029 || u == 0x202f || u
                    == 0x205f || u == 0x3000
            },
            CharSet::Slash => c == '/',
            CharSet::AnySlash => c == '/' || c == '\\',
            CharSet::Nul => c == '\0',
            CharSet::NameEdge => c == '.' || c == ' ' || c == '_',
            CharSet::LineFeed => c == '\n',
            CharSet::Tab => c == '\t',
            CharSet::Dot => c == '.',
            CharSet::LetterV => c == 'v',
        }
    }
}

/// The text behind an optional string.
pub open spec fn text_of(s: Option<String>) -> Option<Seq<char>> {
    match s {
        Some(t) => Some(t@),
        None => None,
    }
}

/// The text behind an optional string slice.
pub open spec fn str_text_of(s: Option<&str>) -> Option<Seq<char>> {
    match s {
        Some(t) => Some(t@),
        None => None,
    }
}

/// The texts behind a sequence of strings.
pub open spec fn texts(v: Seq<String>) -> Seq<Seq<char>> {
    v.map_values(|s: String| s@)
}

/// A copy of an optional string.
pub fn copy_text(s: &Option<String>) -> (r: Option<String>)
    ensures
        r == *s,
{
    match s {
        Some(t) => Some(t.clone()),
        None => None,
    }
}

/// A copy of the string behind a reference.
pub fn owned_text(s: Option<&String>) -> (r: Option<String>)
    ensures
        match s {
            Some(t) => text_of(r) == Some(t@),
            None => r is None,
        },
{
    match s {
        Some(t) => Some(t.clone()),
        None => None,
    }
}

/// The characters of a string.
pub fn chars_of(s: &str) -> (r: Vec<char>)
    ensures
        r@ == s@,
{
    let mut out: Vec<char> = Vec::new();
    for c in it: s.chars()
        invariant
            out@ == it.seq().take(it.index()),
            it.seq() == s@,
    {
        out.push(c);
    }
    out
}

/// The string that is made of the given characters.
pub fn string_of(s: &[char]) -> (r: String)
    ensures
        r@ == s@,
{
    let mut out: String = String::new();
    let mut i: usize = 0;
    while i < s.len()
        invariant
            i <= s@.len(),
            out@ == s@.take(i as int),
        decreases s@.len() - i,
    {
        out.push(s[i]);
        i = i + 1;
    }
    out
}

/// Tests whether two runs of characters are the same.
pub fn same_chars(a: &[char], b: &[char]) -> (r: bool)
    ensures
        r == (a@ == b@),
{
    if a.len() != b.len() {
        return false;
    }
    let mut i: usize = 0;
    while i < a.len()
        invariant
            a@.len() == b@.len(),
            i <= a@.len(),
            a@.take(i as int) == b@.take(i as int),
        decreases a@.len() - i,
    {
        if a[i] != b[i] {
            assert(a@[i as int] != b@[i as int]);
            return false;
        }
        assert(a@.take(i + 1) == a@.take(i as int).push(a@[i as int]));
        assert(b@.take(i + 1) == b@.take(i as int).push(b@[i as int]));
        i = i + 1;
    }
    assert(a@ == a@.take(i as int));
    assert(b@ == b@.take(i as int));
    true
}

/// Tests whether two strings are the same text.
pub fn same(a: &str, b: &str) -> (r: bool)
    ensures
        r == (a@ == b@),
{
    a.eq(b)
}

/// The text without the characters of `set` at its start.
pub open spec fn trim_start(s: Seq<char>, set: CharSet) -> Seq<char>
    decreases s.len(),
{
    if s.len() == 0 || !set.has(s[0]) {
        s
    } else {
        trim_start(s.skip(1), set)
    }
}

/// The text without the characters of `set` at its end.
pub open spec fn trim_end(s: Seq<char>, set: CharSet) -> Seq<char>
    decreases s.len(),
{
    if s.len() == 0 || !set.has(s.last()) {
        s
    } else {
        trim_end(s.drop_last(), set)
    }
}

/// The text without the characters of `set` at either end.
pub open spec fn trim(s: Seq<char>, set: CharSet) -> Seq<char> {
    trim_end(trim_start(s, set), set)
}

/// Removes the characters of `set` at the start.
pub fn trim_start_chars(s: &[char], set: CharSet) -> (r: &[char])
    ensures
        r@ == trim_start(s@, set),
{
    let mut i: usize = 0;
    assert(s@.skip(0) == s@);
    while i < s.len() && set.contains(s[i])
        invariant
            i <= s@.len(),
            trim_start(s@.skip(i as int), set) == trim_start(s@, set),
        decreases s@.len() - i,
    {
        assert(s@.skip(i as int).skip(1) == s@.skip(i + 1));
        i = i + 1;
    }
    let r = slice_from(s, i);
    r
}

/// Removes the characters of `set` at the end.
pub fn trim_end_chars(s: &[char], set: CharSet) -> (r: &[char])
    ensures
        r@ == trim_end(s@, set),
{
    let mut i: usize = s.len();
    assert(s@.take(i as int) == s@);
    while 0 < i && set.contains(s[i - 1])
        invariant
            i <= s@.len(),
            trim_end(s@.take(i as int), set) == trim_end(s@, set),
        decreases i,
    {
        assert(s@.take(i as int).drop_last() == s@.take(i - 1));
        i = i - 1;
    }
    slice_to(s, i)
}

/// Removes the characters of `set` at both ends.
pub fn trim_chars(s: &[char], set: CharSet) -> (r: &[char])
    ensures
        r@ == trim(s@, set),
{
    trim_end_chars(trim_start_chars(s, set), set)
}

/// The items from position `i` on.
pub fn slice_from<T>(s: &[T], i: usize) -> (r: &[T])
    requires
        i <= s@.len(),
    ensures
        r@ == s@.skip(i as int),
{
    vstd::slice::slice_subrange(s, i, s.len())
}

/// The items before position `i`.
pub fn slice_to<T>(s: &[T], i: usize) -> (r: &[T])
    requires
        i <= s@.len(),
    ensures
        r@ == s@.take(i as int),
{
    vstd::slice::slice_subrange(s, 0, i)
}

/// The position of the first character that belongs to `set`, or the length.
pub open spec fn first_of(s: Seq<char>, set: CharSet) -> int
    decreases s.len(),
{
    if s.len() == 0 || set.has(s[0]) {
        0
    } else {
        1 + first_of(s.skip(1), set)
    }
}

/// [`first_of`] is the least position of a character of the set.
pub proof fn lemma_first_of(s: Seq<char>, set: CharSet)
    ensures
        0 <= first_of(s, set) <= s.len(),
        first_of(s, set) < s.len() ==> set.has(s[first_of(s, set)]),
        forall|j: int| 0 <= j < first_of(s, set) ==> !set.has(#[trigger] s[j]),
    decreases s.len(),
{
    if s.len() == 0 || set.has(s[0]) {
    } else {
        let t = s.skip(1);
        lemma_first_of(t, set);
        assert forall|j: int| 0 <= j < first_of(s, set) implies !set.has(#[trigger] s[j]) by {
            if j > 0 {
                assert(s[j] == t[j - 1]);
            }
        }
    }
}

/// The pieces of the text between the characters of `set`; there is always one more piece
/// than there are such characters.
pub open spec fn split(s: Seq<char>, set: CharSet) -> Seq<Seq<char>>
    decreases s.len(),
    via split_decreases
{
    let i = first_of(s, set);
    if i >= s.len() {
        seq![s]
    } else {
        seq![s.take(i)] + split(s.skip(i + 1), set)
    }
}

#[via_fn]
proof fn split_decreases(s: Seq<char>, set: CharSet) {
    lemma_first_of(s, set);
}

/// The position of the first character that belongs to `set`, or the length.
pub fn find_first(s: &[char], set: CharSet) -> (r: usize)
    ensures
        r == first_of(s@, set),
        r <= s@.len(),
{
    let mut i: usize = 0;
    assert(s@.skip(0) == s@);
    while i < s.len() && !set.contains(s[i])
        invariant
            i <= s@.len(),
            first_of(s@, set) == i + first_of(s@.skip(i as int), set),
        decreases s@.len() - i,
    {
        assert(s@.skip(i as int).skip(1) == s@.skip(i + 1));
        i = i + 1;
    }
    i
}

/// The texts behind a sequence of runs of characters.
pub open spec fn runs(v: Seq<&[char]>) -> Seq<Seq<char>> {
    v.map_values(|s: &[char]| s@)
}

/// Splits the text at the characters of `set`.
pub fn split_chars<'a>(s: &'a [char], set: CharSet) -> (r: Vec<&'a [char]>)
    ensures
        runs(r@) == split(s@, set),
        r@.len() >= 1,
{
    let mut out: Vec<&'a [char]> = Vec::new();
    let mut rest: &'a [char] = s;
    let mut at: usize = find_first(rest, set);
    while at < rest.len()
        invariant
            at == first_of(rest@, set),
            at <= rest@.len(),
            split(s@, set) == runs(out@) + split(rest@, set),
        decreases rest@.len(),
    {
        let ghost before = out@;
        let piece: &'a [char] = slice_to(rest, at);
        out.push(piece);
        let next: &'a [char] = slice_from(rest, at + 1);
        assert(runs(out@) == runs(before).push(piece@));
        assert(runs(before) + (seq![piece@] + split(next@, set)) == runs(out@) + split(next@, set));
        rest = next;
        at = find_first(rest, set);
    }
    let ghost before = out@;
    out.push(rest);
    assert(runs(out@) == runs(before) + seq![rest@]);
    out
}

/// Copies runs of characters into strings.
pub fn strings_of(pieces: &[&[char]]) -> (r: Vec<String>)
    ensures
        texts(r@) == runs(pieces@),
{
    let mut out: Vec<String> = Vec::new();
    let mut i: usize = 0;
    while i < pieces.len()
        invariant
            i <= pieces@.len(),
            out@.len() == i,
            forall|k: int| 0 <= k < i ==> (#[trigger] out@[k])@ == pieces@[k]@,
        decreases pieces@.len() - i,
    {
        out.push(string_of(pieces[i]));
        i = i + 1;
    }
    assert(texts(out@) =~= runs(pieces@));
    out
}

/// The words of the text: its pieces between white space, without the empty ones.
pub open spec fn words(s: Seq<char>) -> Seq<Seq<char>> {
    nonempty_only(split(s, CharSet::Space))
}

/// The pieces that are not empty.
pub open spec fn nonempty_only(v: Seq<Seq<char>>) -> Seq<Seq<char>> {
    v.filter(|p: Seq<char>| p.len() > 0)
}

/// Splits the text into its words.
pub fn split_words<'a>(s: &'a [char]) -> (r: Vec<&'a [char]>)
    ensures
        runs(r@) == words(s@),
{
    let pieces = split_chars(s, CharSet::Space);
    let mut out: Vec<&'a [char]> = Vec::new();
    let mut i: usize = 0;
    let ghost keep = |p: Seq<char>| p.len() > 0;
    proof {
        reveal(Seq::filter);
        assert(runs(pieces@).take(0) == Seq::<Seq<char>>::empty());
    }
    while i < pieces.len()
        invariant
            i <= pieces@.len(),
            keep == (|p: Seq<char>| p.len() > 0),
            runs(out@) == runs(pieces@).take(i as int).filter(keep),
        decreases pieces@.len() - i,
    {
        proof {
            reveal(Seq::filter);
            assert(runs(pieces@).take(i + 1).drop_last() == runs(pieces@).take(i as int));
            assert(runs(pieces@).take(i + 1).last() == pieces@[i as int]@);
        }
        let ghost before = out@;
        if pieces[i].len() > 0 {
            out.push(pieces[i]);
            assert(runs(out@) == runs(before).push(pieces@[i as int]@));
        }
        i = i + 1;
    }
    assert(runs(pieces@).take(i as int) == runs(pieces@));
    out
}

/// The pieces one after another, with `sep` between each two.
pub open spec fn join(parts: Seq<Seq<char>>, sep: char) -> Seq<char>
    decreases parts.len(),
{
    if parts.len() == 0 {
        Seq::empty()
    } else if parts.len() == 1 {
        parts[0]
    } else {
        join(parts.drop_last(), sep).push(sep) + parts.last()
    }
}

/// Appends characters to characters.
pub fn append_chars(out: &mut Vec<char>, s: &[char])
    ensures
        final(out)@ == old(out)@ + s@,
{
    let mut i: usize = 0;
    while i < s.len()
        invariant
            i <= s@.len(),
            out@ == old(out)@ + s@.take(i as int),
        decreases s@.len() - i,
    {
        assert(s@.take(i + 1) == s@.take(i as int).push(s@[i as int]));
        out.push(s[i]);
        i = i + 1;
    }
    assert(s@.take(i as int) == s@);
}

/// Joins the pieces with `sep` between each two.
pub fn join_chars(parts: &[Vec<char>], sep: char) -> (r: Vec<char>)
    ensures
        r@ == join(parts@.map_values(|p: Vec<char>| p@), sep),
{
    let ghost all = parts@.map_values(|p: Vec<char>| p@);
    let mut out: Vec<char> = Vec::new();
    let mut i: usize = 0;
    while i < parts.len()
        invariant
            i <= parts@.len(),
            all == parts@.map_values(|p: Vec<char>| p@),
            out@ == join(all.take(i as int), sep),
        decreases parts@.len() - i,
    {
        assert(all.take(i + 1).drop_last() == all.take(i as int));
        assert(all.take(i + 1).last() == parts@[i as int]@);
        if i > 0 {
            out.push(sep);
        }
        append_chars(&mut out, parts[i].as_slice());
        i = i + 1;
    }
    assert(all.take(i as int) == all);
    out
}

/// The pieces one after another.
pub open spec fn concat(parts: Seq<Seq<char>>) -> Seq<char>
    decreases parts.len(),
{
    if parts.len() == 0 {
        Seq::empty()
    } else {
        concat(parts.drop_last()) + parts.last()
    }
}

/// The texts behind a sequence of string slices.
pub open spec fn str_texts(v: Seq<&str>) -> Seq<Seq<char>> {
    v.map_values(|s: &str| s@)
}

/// Writes texts one after another.
pub fn concat_texts(parts: &[&str]) -> (r: String)
    ensures
        r@ == concat(str_texts(parts@)),
{
    let ghost all = str_texts(parts@);
    let mut out: Vec<char> = Vec::new();
    let mut i: usize = 0;
    assert(all.take(0) == Seq::<Seq<char>>::empty());
    while i < parts.len()
        invariant
            i <= parts@.len(),
            all == str_texts(parts@),
            out@ == concat(all.take(i as int)),
        decreases parts@.len() - i,
    {
        assert(all.take(i + 1).drop_last() == all.take(i as int));
        assert(all.take(i + 1).last() == parts@[i as int]@);
        append_chars(&mut out, chars_of(parts[i]).as_slice());
        i = i + 1;
    }
    assert(all.take(i as int) == all);
    string_of(out.as_slice())
}

/// Joins runs of characters with `sep` between each two.
pub fn join_runs(parts: &[&[char]], sep: char) -> (r: Vec<char>)
    ensures
        r@ == join(runs(parts@), sep),
{
    let ghost all = runs(parts@);
    let mut out: Vec<char> = Vec::new();
    let mut i: usize = 0;
    while i < parts.len()
        invariant
            i <= parts@.len(),
            all == runs(parts@),
            out@ == join(all.take(i as int), sep),
        decreases parts@.len() - i,
    {
        assert(all.take(i + 1).drop_last() == all.take(i as int));
        assert(all.take(i + 1).last() == parts@[i as int]@);
        if i > 0 {
            out.push(sep);
        }
        append_chars(&mut out, parts[i]);
        i = i + 1;
    }
    assert(all.take(i as int) == all);
    out
}

/// Whether `pat` stands in `s` at position `i`.
pub open spec fn matches_at(s: Seq<char>, pat: Seq<char>, i: int) -> bool {
    0 <= i && i + pat.len() <= s.len() && s.subrange(i, i + pat.len()) == pat
}

/// Tests whether `pat` stands in `s` at position `i`.
pub fn stands_at(s: &[char], pat: &[char], i: usize) -> (r: bool)
    ensures
        r == matches_at(s@, pat@, i as int),
{
    if i > s.len() || pat.len() > s.len() - i {
        return false;
    }
    same_chars(vstd::slice::slice_subrange(s, i, i + pat.len()), pat)
}

/// Tests whether the text starts with `pat`.
pub fn starts_with(s: &[char], pat: &str) -> (r: bool)
    ensures
        r == pat@.is_prefix_of(s@),
{
    let p = chars_of(pat);
    stands_at(s, p.as_slice(), 0)
}

/// Tests whether the text ends with `pat`.
pub fn ends_with(s: &[char], pat: &str) -> (r: bool)
    ensures
        r == pat@.is_suffix_of(s@),
{
    let p = chars_of(pat);
    if p.len() > s.len() {
        return false;
    }
    stands_at(s, p.as_slice(), s.len() - p.len())
}

/// Whether `pat` stands anywhere in `s`.
pub open spec fn contains(s: Seq<char>, pat: Seq<char>) -> bool {
    exists|i: int| matches_at(s, pat, i)
}

/// Tests whether `pat` stands anywhere in `s`.
pub fn contains_text(s: &[char], pat: &str) -> (r: bool)
    ensures
        r == contains(s@, pat@),
{
    let p = chars_of(pat);
    let mut i: usize = 0;
    while i <= s.len()
        invariant
            p@ == pat@,
            i <= s@.len() + 1,
            forall|j: int| 0 <= j < i ==> !matches_at(s@, pat@, j),
        decreases s@.len() + 1 - i,
    {
        if stands_at(s, p.as_slice(), i) {
            return true;
        }
        if i == s.len() {
            return false;
        }
        i = i + 1;
    }
    false
}

/// The greatest position up to `from` at which `pat` stands in `s`.
pub open spec fn last_match_up_to(s: Seq<char>, pat: Seq<char>, from: int) -> Option<int>
    decreases from + 1,
{
    if from < 0 {
        None
    } else if matches_at(s, pat, from) {
        Some(from)
    } else {
        last_match_up_to(s, pat, from - 1)
    }
}

/// The greatest position at which `pat` stands in `s`.
pub open spec fn last_match(s: Seq<char>, pat: Seq<char>) -> Option<int> {
    last_match_up_to(s, pat, s.len() as int)
}

/// Finds the last place of `pat` in `s`.
pub fn find_last(s: &[char], pat: &str) -> (r: Option<usize>)
    ensures
        match r {
            Some(i) => last_match(s@, pat@) == Some(i as int) && i + pat@.len() <= s@.len(),
            None => last_match(s@, pat@) is None,
        },
{
    let p = chars_of(pat);
    let mut i: usize = s.len();
    loop
        invariant
            p@ == pat@,
            i <= s@.len(),
            last_match(s@, pat@) == last_match_up_to(s@, pat@, i as int),
        decreases i,
    {
        if stands_at(s, p.as_slice(), i) {
            return Some(i);
        }
        if i == 0 {
            assert(last_match_up_to(s@, pat@, -1) is None);
            return None;
        }
        i = i - 1;
    }
}

/// The text with every place of `from` replaced by `to`, from left to right and without
/// overlap.
pub open spec fn replace(s: Seq<char>, from: Seq<char>, to: Seq<char>) -> Seq<char>
    decreases s.len(),
{
    if s.len() == 0 || from.len() == 0 {
        s
    } else if from.is_prefix_of(s) {
        to + replace(s.skip(from.len() as int), from, to)
    } else {
        seq![s[0]] + replace(s.skip(1), from, to)
    }
}

/// Replaces every place of `from` by `to`.
pub fn replace_chars(s: &[char], from: &str, to: char) -> (r: Vec<char>)
    requires
        from@.len() > 0,
    ensures
        r@ == replace(s@, from@, seq![to]),
{
    let p = chars_of(from);
    let mut out: Vec<char> = Vec::new();
    let mut i: usize = 0;
    assert(s@.skip(0) == s@);
    while i < s.len()
        invariant
            p@ == from@,
            from@.len() > 0,
            i <= s@.len(),
            replace(s@, from@, seq![to]) == out@ + replace(s@.skip(i as int), from@, seq![to]),
        decreases s@.len() - i,
    {
        let ghost rest = s@.skip(i as int);
        let ghost before = out@;
        if stands_at(s, p.as_slice(), i) {
            assert(rest.subrange(0, from@.len() as int) == s@.subrange(
                i as int,
                i + from@.len(),
            ));
            assert(rest.skip(from@.len() as int) == s@.skip(i + from@.len()));
            out.push(to);
            i = i + p.len();
            assert(before + (seq![to] + replace(s@.skip(i as int), from@, seq![to])) == out@
                + replace(s@.skip(i as int), from@, seq![to]));
        } else {
            assert(!from@.is_prefix_of(rest)) by {
                if from@.is_prefix_of(rest) {
                    assert(rest.subrange(0, from@.len() as int) == s@.subrange(
                        i as int,
                        i + from@.len(),
                    ));
                }
            }
            assert(rest.skip(1) == s@.skip(i + 1));
            let c: char = s[i];
            out.push(c);
            i = i + 1;
            assert(before + (seq![c] + replace(s@.skip(i as int), from@, seq![to])) == out@
                + replace(s@.skip(i as int), from@, seq![to]));
        }
    }
    assert(s@.skip(i as int) == Seq::<char>::empty());
    out
}

/// The text without the places of `suffix` that stand one after another at its end.
pub open spec fn trim_suffixes(s: Seq<char>, suffix: Seq<char>) -> Seq<char>
    decreases s.len(),
{
    if suffix.len() > 0 && suffix.is_suffix_of(s) {
        trim_suffixes(s.take(s.len() - suffix.len()), suffix)
    } else {
        s
    }
}

/// Removes every `suffix` at the end of the text.
pub fn trim_suffix_chars<'a>(s: &'a [char], suffix: &str) -> (r: &'a [char])
    requires
        suffix@.len() > 0,
    ensures
        r@ == trim_suffixes(s@, suffix@),
{
    let n: usize = chars_of(suffix).len();
    let mut rest: &'a [char] = s;
    while ends_with(rest, suffix)
        invariant
            n == suffix@.len(),
            n > 0,
            trim_suffixes(rest@, suffix@) == trim_suffixes(s@, suffix@),
        decreases rest@.len(),
    {
        rest = slice_to(rest, rest.len() - n);
    }
    rest
}

/// Whether every character is an ASCII digit.
pub open spec fn all_digits(s: Seq<char>) -> bool {
    forall|i: int| 0 <= i < s.len() ==> '0' <= #[trigger] s[i] <= '9'
}

/// Tests whether every character is an ASCII digit.
pub fn only_digits(s: &[char]) -> (r: bool)
    ensures
        r == all_digits(s@),
{
    let mut i: usize = 0;
    while i < s.len()
        invariant
            i <= s@.len(),
            forall|j: int| 0 <= j < i ==> '0' <= #[trigger] s@[j] <= '9',
        decreases s@.len() - i,
    {
        if !('0' <= s[i] && s[i] <= '9') {
            assert(!('0' <= s@[i as int] <= '9'));
            return false;
        }
        i = i + 1;
    }
    true
}

/// The character with an ASCII capital letter made small.
pub open spec fn ascii_small(c: char) -> char {
    if 'A' <= c <= 'Z' {
        ((c as u8) + 32) as char
    } else {
        c
    }
}

/// The character with a small ASCII letter made a capital one.
pub open spec fn ascii_capital(c: char) -> char {
    if 'a' <= c <= 'z' {
        ((c as u8) - 32) as char
    } else {
        c
    }
}

/// Makes an ASCII capital letter small.
pub fn to_ascii_small(c: char) -> (r: char)
    ensures
        r == ascii_small(c),
{
    if 'A' <= c && c <= 'Z' {
        let b: u8 = c as u8;
        (b + 32) as char
    } else {
        c
    }
}

/// Whether the texts are the same but for the case of ASCII letters.
pub open spec fn same_ignoring_ascii_case(a: Seq<char>, b: Seq<char>) -> bool {
    &&& a.len() == b.len()
    &&& forall|i: int| 0 <= i < a.len() ==> ascii_small(#[trigger] a[i]) == ascii_small(b[i])
}

/// Tests whether the texts are the same but for the case of ASCII letters.
pub fn eq_ignore_ascii_case(a: &[char], b: &str) -> (r: bool)
    ensures
        r == same_ignoring_ascii_case(a@, b@),
{
    let p = chars_of(b);
    if a.len() != p.len() {
        return false;
    }
    let mut i: usize = 0;
    while i < a.len()
        invariant
            p@ == b@,
            a@.len() == b@.len(),
            i <= a@.len(),
            forall|j: int| 0 <= j < i ==> ascii_small(#[trigger] a@[j]) == ascii_small(b@[j]),
        decreases a@.len() - i,
    {
        if to_ascii_small(a[i]) != to_ascii_small(p[i]) {
            assert(ascii_small(a@[i as int]) != ascii_small(b@[i as int]));
            return false;
        }
        i = i + 1;
    }
    true
}

/// Whether every character satisfies `f`.
pub open spec fn all_chars(s: Seq<char>, f: spec_fn(char) -> bool) -> bool {
    forall|i: int| 0 <= i < s.len() ==> f(#[trigger] s[i])
}

/// Trimming adds no characters.
pub proof fn lemma_trim_chars(s: Seq<char>, set: CharSet, f: spec_fn(char) -> bool)
    requires
        all_chars(s, f),
    ensures
        all_chars(trim(s, set), f),
{
    lemma_trim_start_chars(s, set, f);
    lemma_trim_end_chars(trim_start(s, set), set, f);
}

proof fn lemma_trim_start_chars(s: Seq<char>, set: CharSet, f: spec_fn(char) -> bool)
    requires
        all_chars(s, f),
    ensures
        all_chars(trim_start(s, set), f),
        trim_start(s, set).len() > 0 ==> !set.has(trim_start(s, set)[0]),
    decreases s.len(),
{
    if s.len() > 0 && set.has(s[0]) {
        lemma_trim_start_chars(s.skip(1), set, f);
    }
}

proof fn lemma_trim_end_chars(s: Seq<char>, set: CharSet, f: spec_fn(char) -> bool)
    requires
        all_chars(s, f),
    ensures
        all_chars(trim_end(s, set), f),
        trim_end(s, set).len() > 0 ==> !set.has(trim_end(s, set).last()) && trim_end(s, set)[0]
            == s[0],
    decreases s.len(),
{
    if s.len() > 0 && set.has(s.last()) {
        lemma_trim_end_chars(s.drop_last(), set, f);
    }
}

/// A trimmed text neither starts nor ends with what was trimmed.
pub proof fn lemma_trim_edges(s: Seq<char>, set: CharSet)
    ensures
        trim(s, set).len() > 0 ==> !set.has(trim(s, set)[0]) && !set.has(trim(s, set).last()),
{
    let f = |c: char| true;
    lemma_trim_start_chars(s, set, f);
    lemma_trim_end_chars(trim_start(s, set), set, f);
}

/// Splitting adds no characters.
pub proof fn lemma_split_chars(s: Seq<char>, set: CharSet, f: spec_fn(char) -> bool)
    requires
        all_chars(s, f),
    ensures
        forall|k: int| 0 <= k < split(s, set).len() ==> all_chars(#[trigger] split(s, set)[k], f),
    decreases s.len(),
{
    let i = first_of(s, set);
    lemma_first_of(s, set);
    if i < s.len() {
        lemma_split_chars(s.skip(i + 1), set, f);
        let rest = split(s.skip(i + 1), set);
        assert forall|k: int| 0 <= k < split(s, set).len() implies all_chars(
            #[trigger] split(s, set)[k],
            f,
        ) by {
            if k > 0 {
                assert(split(s, set)[k] == rest[k - 1]);
            }
        }
    }
}

/// The pieces of a text have none of the characters that it was split at.
pub proof fn lemma_split_clean(s: Seq<char>, set: CharSet)
    ensures
        forall|k: int|
            0 <= k < split(s, set).len() ==> all_chars(
                #[trigger] split(s, set)[k],
                |c: char| !set.has(c),
            ),
    decreases s.len(),
{
    let f = |c: char| !set.has(c);
    let i = first_of(s, set);
    lemma_first_of(s, set);
    if i < s.len() {
        lemma_split_clean(s.skip(i + 1), set);
        let rest = split(s.skip(i + 1), set);
        assert forall|k: int| 0 <= k < split(s, set).len() implies all_chars(
            #[trigger] split(s, set)[k],
            f,
        ) by {
            if k > 0 {
                assert(split(s, set)[k] == rest[k - 1]);
            } else {
                assert(split(s, set)[0] == s.take(i));
            }
        }
    } else {
        assert(split(s, set)[0] == s);
    }
}

/// Where the first character of the set stands.
pub proof fn lemma_first_at(s: Seq<char>, set: CharSet, i: int)
    requires
        0 <= i <= s.len(),
        i < s.len() ==> set.has(s[i]),
        forall|j: int| 0 <= j < i ==> !set.has(#[trigger] s[j]),
    ensures
        first_of(s, set) == i,
{
    lemma_first_of(s, set);
}

/// What stands behind a separator is the last piece.
pub proof fn lemma_split_push(a: Seq<char>, sep: char, b: Seq<char>, set: CharSet)
    requires
        set.has(sep),
        all_chars(b, |c: char| !set.has(c)),
    ensures
        split(a.push(sep) + b, set) == split(a, set).push(b),
    decreases a.len(),
{
    let s = a.push(sep) + b;
    let i = first_of(a, set);
    lemma_first_of(a, set);
    assert forall|j: int| 0 <= j < i implies !set.has(#[trigger] s[j]) by {
        assert(s[j] == a[j]);
    }
    if i < a.len() {
        assert(s[i] == a[i]);
        lemma_first_at(s, set, i);
        let rest = a.skip(i + 1);
        lemma_split_push(rest, sep, b, set);
        assert(s.take(i) == a.take(i));
        assert(s.skip(i + 1) == rest.push(sep) + b);
        assert(split(s, set) =~= split(a, set).push(b));
    } else {
        assert(s[i] == sep);
        lemma_first_at(s, set, i);
        assert(s.take(i) == a);
        assert(s.skip(i + 1) == b);
        lemma_first_at(b, set, b.len() as int);
        assert(split(b, set) == seq![b]);
        assert(split(s, set) =~= split(a, set).push(b));
    }
}

/// The pieces of two texts with a separator between them are those of both.
pub proof fn lemma_split_below(a: Seq<char>, sep: char, b: Seq<char>, set: CharSet)
    requires
        set.has(sep),
    ensures
        split(a.push(sep) + b, set) == split(a, set) + split(b, set),
    decreases a.len(),
{
    let s = a.push(sep) + b;
    let i = first_of(a, set);
    lemma_first_of(a, set);
    assert forall|j: int| 0 <= j < i implies !set.has(#[trigger] s[j]) by {
        assert(s[j] == a[j]);
    }
    if i < a.len() {
        assert(s[i] == a[i]);
        lemma_first_at(s, set, i);
        let rest = a.skip(i + 1);
        lemma_split_below(rest, sep, b, set);
        assert(s.take(i) == a.take(i));
        assert(s.skip(i + 1) == rest.push(sep) + b);
        assert(split(s, set) =~= split(a, set) + split(b, set));
    } else {
        assert(s[i] == sep);
        lemma_first_at(s, set, i);
        assert(s.take(i) == a);
        assert(s.skip(i + 1) == b);
        assert(split(s, set) =~= split(a, set) + split(b, set));
    }
}

/// Splitting gives back the pieces that were joined, where none of them has a character to
/// split at.
pub proof fn lemma_split_join(parts: Seq<Seq<char>>, sep: char, set: CharSet)
    requires
        parts.len() > 0,
        set.has(sep),
        forall|k: int|
            0 <= k < parts.len() ==> all_chars(#[trigger] parts[k], |c: char| !set.has(c)),
    ensures
        split(join(parts, sep), set) == parts,
    decreases parts.len(),
{
    let f = |c: char| !set.has(c);
    assert(all_chars(parts[parts.len() - 1], f));
    if parts.len() == 1 {
        let p = parts[0];
        assert forall|j: int| 0 <= j < p.len() implies !set.has(#[trigger] p[j]) by {
            assert(f(p[j]));
        }
        lemma_first_at(p, set, p.len() as int);
        assert(split(p, set) =~= parts);
    } else {
        let rest = parts.drop_last();
        assert forall|k: int| 0 <= k < rest.len() implies all_chars(#[trigger] rest[k], f) by {
            assert(rest[k] == parts[k]);
        }
        lemma_split_join(rest, sep, set);
        lemma_split_push(join(rest, sep), sep, parts.last(), set);
        assert(rest.push(parts.last()) =~= parts);
    }
}

/// Leaving out empty pieces adds no characters.
pub proof fn lemma_nonempty_chars(v: Seq<Seq<char>>, f: spec_fn(char) -> bool)
    requires
        forall|k: int| 0 <= k < v.len() ==> all_chars(#[trigger] v[k], f),
    ensures
        forall|k: int|
            0 <= k < nonempty_only(v).len() ==> all_chars(#[trigger] nonempty_only(v)[k], f),
    decreases v.len(),
{
    reveal(Seq::filter);
    if v.len() > 0 {
        let rest = v.drop_last();
        lemma_nonempty_chars(rest, f);
        assert(all_chars(v[v.len() - 1], f));
        assert forall|k: int| 0 <= k < nonempty_only(v).len() implies all_chars(
            #[trigger] nonempty_only(v)[k],
            f,
        ) by {
            if k < nonempty_only(rest).len() {
                assert(nonempty_only(v)[k] == nonempty_only(rest)[k]);
            }
        }
    }
}

/// The words of a text have no other characters than the text.
pub proof fn lemma_words_chars(s: Seq<char>, f: spec_fn(char) -> bool)
    requires
        all_chars(s, f),
    ensures
        forall|k: int| 0 <= k < words(s).len() ==> all_chars(#[trigger] words(s)[k], f),
{
    lemma_split_chars(s, CharSet::Space, f);
    lemma_nonempty_chars(split(s, CharSet::Space), f);
}

/// Joining adds no characters but the separator.
pub proof fn lemma_join_chars(parts: Seq<Seq<char>>, sep: char, f: spec_fn(char) -> bool)
    requires
        forall|k: int| 0 <= k < parts.len() ==> all_chars(#[trigger] parts[k], f),
        f(sep),
    ensures
        all_chars(join(parts, sep), f),
    decreases parts.len(),
{
    if parts.len() > 1 {
        lemma_join_chars(parts.drop_last(), sep, f);
        assert(all_chars(parts.last(), f));
    } else if parts.len() == 1 {
        assert(all_chars(parts[0], f));
    }
}

/// A text that holds nothing to trim stays as it is.
pub proof fn lemma_trim_absent(s: Seq<char>, set: CharSet)
    requires
        all_chars(s, |c: char| !set.has(c)),
    ensures
        trim(s, set) == s,
{
    let f = |c: char| !set.has(c);
    if s.len() > 0 {
        assert(f(s[0]));
        assert(f(s[s.len() - 1]));
    }
}

/// A text that holds nothing to split at is one piece.
pub proof fn lemma_split_absent(s: Seq<char>, set: CharSet)
    requires
        all_chars(s, |c: char| !set.has(c)),
    ensures
        split(s, set) == seq![s],
{
    let f = |c: char| !set.has(c);
    assert forall|j: int| 0 <= j < s.len() implies !set.has(#[trigger] s[j]) by {
        assert(f(s[j]));
    }
    lemma_first_at(s, set, s.len() as int);
}

/// The last place of a pattern is a place of it.
pub proof fn lemma_last_match(s: Seq<char>, pat: Seq<char>, from: int)
    ensures
        last_match_up_to(s, pat, from) matches Some(i) ==> matches_at(s, pat, i),
    decreases from + 1,
{
    if from >= 0 {
        lemma_last_match(s, pat, from - 1);
    }
}

/// What starts with a character that a text does not hold stands nowhere in the text.
pub proof fn lemma_last_match_absent(s: Seq<char>, pat: Seq<char>, from: int)
    requires
        pat.len() > 0,
        !s.contains(pat[0]),
    ensures
        last_match_up_to(s, pat, from) is None,
    decreases from + 1,
{
    if from >= 0 {
        if matches_at(s, pat, from) {
            assert(s.subrange(from, from + pat.len())[0] == s[from]);
        }
        lemma_last_match_absent(s, pat, from - 1);
    }
}

/// A suffix that starts with a character that a text does not hold does not stand at its end.
pub proof fn lemma_suffix_absent(s: Seq<char>, suffix: Seq<char>)
    requires
        suffix.len() > 0,
        !s.contains(suffix[0]),
    ensures
        trim_suffixes(s, suffix) == s,
{
    if suffix.is_suffix_of(s) {
        let at = s.len() - suffix.len();
        assert(s.subrange(at, s.len() as int)[0] == s[at]);
    }
}

/// Removing suffixes adds no characters.
pub proof fn lemma_suffix_chars(s: Seq<char>, suffix: Seq<char>, f: spec_fn(char) -> bool)
    requires
        all_chars(s, f),
    ensures
        all_chars(trim_suffixes(s, suffix), f),
    decreases s.len(),
{
    if suffix.len() > 0 && suffix.is_suffix_of(s) {
        lemma_suffix_chars(s.take(s.len() - suffix.len()), suffix, f);
    }
}

/// What is left of pieces without the empty ones is not empty.
pub proof fn lemma_nonempty_only(v: Seq<Seq<char>>)
    ensures
        forall|k: int| 0 <= k < nonempty_only(v).len() ==> (#[trigger] nonempty_only(v)[k]).len() > 0,
        (forall|k: int| 0 <= k < v.len() ==> (#[trigger] v[k]).len() > 0) ==> nonempty_only(v) == v,
    decreases v.len(),
{
    reveal(Seq::filter);
    if v.len() > 0 {
        let rest = v.drop_last();
        lemma_nonempty_only(rest);
        let kept = nonempty_only(rest);
        assert forall|k: int| 0 <= k < nonempty_only(v).len() implies (#[trigger] nonempty_only(
            v,
        )[k]).len() > 0 by {
            if k < kept.len() {
                assert(nonempty_only(v)[k] == kept[k]);
            }
        }
        if forall|k: int| 0 <= k < v.len() ==> (#[trigger] v[k]).len() > 0 {
            assert forall|k: int| 0 <= k < rest.len() implies (#[trigger] rest[k]).len() > 0 by {
                assert(rest[k] == v[k]);
            }
            assert(v[v.len() - 1].len() > 0);
            assert(nonempty_only(v) =~= v);
        }
    } else {
        assert(nonempty_only(v) =~= v);
    }
}

/// Words are not empty, and have no white space.
pub proof fn lemma_words_clean(s: Seq<char>)
    ensures
        forall|k: int|
            0 <= k < words(s).len() ==> (#[trigger] words(s)[k]).len() > 0 && all_chars(
                words(s)[k],
                |c: char| !CharSet::Space.has(c),
            ),
{
    lemma_split_clean(s, CharSet::Space);
    lemma_nonempty_chars(split(s, CharSet::Space), |c: char| !CharSet::Space.has(c));
    lemma_nonempty_only(split(s, CharSet::Space));
}

/// Words that were joined with spaces are the words of what they were joined to.
pub proof fn lemma_words_join(ws: Seq<Seq<char>>)
    requires
        forall|k: int|
            0 <= k < ws.len() ==> (#[trigger] ws[k]).len() > 0 && all_chars(
                ws[k],
                |c: char| !CharSet::Space.has(c),
            ),
    ensures
        words(join(ws, ' ')) == ws,
{
    if ws.len() > 0 {
        lemma_split_join(ws, ' ', CharSet::Space);
        lemma_nonempty_only(ws);
    } else {
        let none = Seq::<char>::empty();
        lemma_split_absent(none, CharSet::Space);
        reveal_with_fuel(Seq::filter, 2);
        assert(seq![none].drop_last() =~= Seq::<Seq<char>>::empty());
        assert(words(none) =~= ws);
    }
}

/// A text in which what is replaced stands nowhere stays as it is.
pub proof fn lemma_replace_nowhere(s: Seq<char>, from: Seq<char>, to: Seq<char>)
    requires
        !contains(s, from),
    ensures
        replace(s, from, to) == s,
    decreases s.len(),
{
    if s.len() > 0 && from.len() > 0 {
        assert(!matches_at(s, from, 0));
        let rest = s.skip(1);
        assert(!contains(rest, from)) by {
            if contains(rest, from) {
                let i = choose|i: int| matches_at(rest, from, i);
                assert(rest.subrange(i, i + from.len()) =~= s.subrange(i + 1, i + 1 + from.len()));
                assert(matches_at(s, from, i + 1));
            }
        }
        lemma_replace_nowhere(rest, from, to);
        assert(seq![s[0]] + rest == s);
    }
}

/// What starts with a character that a text does not hold stands nowhere in it.
pub proof fn lemma_contains_absent(s: Seq<char>, pat: Seq<char>)
    requires
        pat.len() > 0,
        !s.contains(pat[0]),
    ensures
        !contains(s, pat),
{
    if contains(s, pat) {
        let i = choose|i: int| matches_at(s, pat, i);
        assert(s.subrange(i, i + pat.len())[0] == s[i]);
    }
}

// ---------------------------------------------------------------------------------------
// What trimming, splitting and finding give
// ---------------------------------------------------------------------------------------

proof fn lemma_trim_start_cut(s: Seq<char>, set: CharSet) -> (i: int)
    ensures
        0 <= i <= s.len(),
        trim_start(s, set) == s.skip(i),
        forall|k: int| 0 <= k < i ==> set.has(#[trigger] s[k]),
        i < s.len() ==> !set.has(s[i]),
    decreases s.len(),
{
    if s.len() == 0 || !set.has(s[0]) {
        assert(s.skip(0) =~= s);
        0
    } else {
        let j = lemma_trim_start_cut(s.skip(1), set);
        assert(s.skip(1).skip(j) =~= s.skip(j + 1));
        assert forall|k: int| 0 <= k < j + 1 implies set.has(#[trigger] s[k]) by {
            if k > 0 {
                assert(s.skip(1)[k - 1] == s[k]);
            }
        }
        j + 1
    }
}

proof fn lemma_trim_end_cut(s: Seq<char>, set: CharSet) -> (j: int)
    ensures
        0 <= j <= s.len(),
        trim_end(s, set) == s.take(j),
        forall|k: int| j <= k < s.len() ==> set.has(#[trigger] s[k]),
        j > 0 ==> !set.has(s[j - 1]),
    decreases s.len(),
{
    if s.len() == 0 || !set.has(s.last()) {
        assert(s.take(s.len() as int) =~= s);
        s.len() as int
    } else {
        let j = lemma_trim_end_cut(s.drop_last(), set);
        assert(s.drop_last().take(j) =~= s.take(j));
        assert forall|k: int| j <= k < s.len() implies set.has(#[trigger] s[k]) by {
            if k < s.len() - 1 {
                assert(s.drop_last()[k] == s[k]);
            }
        }
        j
    }
}

/// Trimming takes from both ends what is in the set, and nothing else: the middle stays as it
/// is, up to the first and the last character that are not in the set.
pub proof fn trimming_takes_the_ends(s: Seq<char>, set: CharSet) -> (r: (int, int))
    ensures
        0 <= r.0 <= r.1 <= s.len(),
        trim(s, set) == s.subrange(r.0, r.1),
        forall|k: int| 0 <= k < r.0 || r.1 <= k < s.len() ==> set.has(#[trigger] s[k]),
        r.0 < r.1 ==> !set.has(s[r.0]) && !set.has(s[r.1 - 1]),
{
    let i = lemma_trim_start_cut(s, set);
    let t = s.skip(i);
    let j = lemma_trim_end_cut(t, set);
    assert(t.take(j) =~= s.subrange(i, i + j));
    assert forall|k: int| 0 <= k < i || i + j <= k < s.len() implies set.has(#[trigger] s[k]) by {
        if k >= i {
            assert(t[k - i] == s[k]);
        }
    }
    if j > 0 {
        assert(t[0] == s[i] && t[j - 1] == s[i + j - 1]);
    }
    (i, i + j)
}

proof fn lemma_join_front(first: Seq<char>, rest: Seq<Seq<char>>, sep: char)
    requires
        rest.len() > 0,
    ensures
        join(seq![first] + rest, sep) == first.push(sep) + join(rest, sep),
    decreases rest.len(),
{
    let all = seq![first] + rest;
    if rest.len() == 1 {
        assert(all.drop_last() =~= seq![first]);
        assert(join(seq![first], sep) == first);
        assert(join(all, sep) =~= first.push(sep) + rest[0]);
    } else {
        assert(all.drop_last() =~= seq![first] + rest.drop_last());
        lemma_join_front(first, rest.drop_last(), sep);
        assert(join(all, sep) =~= first.push(sep) + join(rest, sep));
    }
}

/// What was split at a character is joined again with it: no piece is lost, and none has the
/// character in it.
pub proof fn pieces_join_again(s: Seq<char>, sep: char, set: CharSet)
    requires
        forall|c: char| #[trigger] set.has(c) <==> c == sep,
    ensures
        join(split(s, set), sep) == s,
        forall|k: int|
            0 <= k < split(s, set).len() ==> !(#[trigger] split(s, set)[k]).contains(sep),
    decreases s.len(),
{
    let i = first_of(s, set);
    lemma_first_of(s, set);
    if i < s.len() {
        let rest = s.skip(i + 1);
        pieces_join_again(rest, sep, set);
        assert(split(rest, set).len() > 0);
        lemma_join_front(s.take(i), split(rest, set), sep);
        assert(s.take(i).push(sep) + rest =~= s) by {
            assert(set.has(s[i]));
        }
    } else {
        assert(join(seq![s], sep) == s);
    }
    lemma_split_clean(s, set);
    let clean = |c: char| !set.has(c);
    assert forall|k: int| 0 <= k < split(s, set).len() implies !(#[trigger] split(s, set)[k]).contains(
        sep,
    ) by {
        let p = split(s, set)[k];
        assert(all_chars(p, clean));
        if p.contains(sep) {
            let j = choose|j: int| 0 <= j < p.len() && p[j] == sep;
            assert(clean(p[j]));
        }
    }
}

proof fn lemma_nonempty_add(a: Seq<Seq<char>>, b: Seq<Seq<char>>)
    ensures
        nonempty_only(a + b) == nonempty_only(a) + nonempty_only(b),
    decreases b.len(),
{
    reveal(Seq::filter);
    if b.len() == 0 {
        assert(a + b =~= a);
        assert(nonempty_only(a) + nonempty_only(b) =~= nonempty_only(a));
    } else {
        assert((a + b).drop_last() =~= a + b.drop_last());
        lemma_nonempty_add(a, b.drop_last());
        assert(nonempty_only(a + b) =~= nonempty_only(a) + nonempty_only(b));
    }
}

/// Words are what white space parts: with white space between them, two texts have the words of
/// both, and a text without any is one word.
pub proof fn white_space_parts_words(a: Seq<char>, space: char, b: Seq<char>)
    requires
        is_space(space),
    ensures
        words(a.push(space) + b) == words(a) + words(b),
        a.len() > 0 && (forall|i: int| 0 <= i < a.len() ==> !is_space(#[trigger] a[i])) ==> words(a)
            == seq![a],
        a.len() == 0 ==> words(a).len() == 0,
{
    lemma_split_below(a, space, b, CharSet::Space);
    lemma_nonempty_add(split(a, CharSet::Space), split(b, CharSet::Space));
    reveal_with_fuel(Seq::filter, 2);
    let clean = |c: char| !CharSet::Space.has(c);
    if a.len() > 0 && (forall|i: int| 0 <= i < a.len() ==> !is_space(#[trigger] a[i])) {
        assert(all_chars(a, clean));
        lemma_split_absent(a, CharSet::Space);
        lemma_nonempty_only(seq![a]);
    }
    if a.len() == 0 {
        lemma_split_absent(a, CharSet::Space);
        assert(seq![a].drop_last() =~= Seq::<Seq<char>>::empty());
    }
}

/// The last place of a pattern is a place of it, and there is none behind; where none is found,
/// there is none.
pub proof fn the_last_place_is_found(s: Seq<char>, pat: Seq<char>, i: int)
    requires
        matches_at(s, pat, i),
    ensures
        last_match(s, pat) matches Some(j) && i <= j && matches_at(s, pat, j),
{
    lemma_last_match(s, pat, s.len() as int);
    lemma_last_match_covers(s, pat, s.len() as int, i);
}

proof fn lemma_last_match_covers(s: Seq<char>, pat: Seq<char>, from: int, i: int)
    requires
        matches_at(s, pat, i),
        i <= from,
    ensures
        last_match_up_to(s, pat, from) matches Some(j) && i <= j,
    decreases from + 1,
{
    if !matches_at(s, pat, from) {
        lemma_last_match_covers(s, pat, from - 1, i);
    }
}

/// What is replaced is replaced where it first stands, and then in what follows.
pub proof fn the_first_place_is_replaced(a: Seq<char>, from: Seq<char>, b: Seq<char>, to: Seq<char>)
    requires
        from.len() > 0,
        forall|i: int| 0 <= i < a.len() ==> !matches_at(a + from + b, from, i),
    ensures
        replace(a + from + b, from, to) == a + to + replace(b, from, to),
    decreases a.len(),
{
    let s = a + from + b;
    if a.len() == 0 {
        assert(s.subrange(0, from.len() as int) =~= from);
        assert(s.skip(from.len() as int) =~= b);
        assert(a + to + replace(b, from, to) =~= to + replace(b, from, to));
    } else {
        let rest = a.skip(1);
        assert(s.skip(1) =~= rest + from + b);
        assert forall|i: int| 0 <= i < rest.len() implies !matches_at(rest + from + b, from, i) by {
            if matches_at(rest + from + b, from, i) {
                assert((rest + from + b).subrange(i, i + from.len()) =~= s.subrange(
                    i + 1,
                    i + 1 + from.len(),
                ));
                assert(matches_at(s, from, i + 1));
            }
        }
        the_first_place_is_replaced(rest, from, b, to);
        assert(!matches_at(s, from, 0));
        assert(seq![s[0]] + (rest + to + replace(b, from, to)) =~= a + to + replace(b, from, to));
    }
}

/// Suffixes are taken off one after another until none is left.
pub proof fn suffixes_are_taken_off(s: Seq<char>, suffix: Seq<char>)
    requires
        suffix.len() > 0,
    ensures
        trim_suffixes(s + suffix, suffix) == trim_suffixes(s, suffix),
        !suffix.is_suffix_of(s) ==> trim_suffixes(s, suffix) == s,
{
    let t = s + suffix;
    assert(t.subrange(t.len() - suffix.len(), t.len() as int) =~= suffix);
    assert(t.take(t.len() - suffix.len()) =~= s);
}

/// Texts that are the same but for the case of ASCII letters have the same characters
/// everywhere else, and differ in a letter by thirty-two.
pub proof fn only_ascii_letters_have_two_cases(a: Seq<char>, b: Seq<char>, i: int)
    requires
        same_ignoring_ascii_case(a, b),
        0 <= i < a.len(),
    ensures
        a.len() == b.len(),
        a[i] == b[i] || ('A' <= a[i] <= 'Z' && b[i] as int == a[i] as int + 32) || ('A' <= b[i]
            <= 'Z' && a[i] as int == b[i] as int + 32),
{
    assert(ascii_small(a[i]) == ascii_small(b[i]));
}

/// A text is the same as itself in small and in capital letters, but for their case.
pub proof fn case_of_ascii_letters_is_ignored(a: Seq<char>)
    ensures
        same_ignoring_ascii_case(a, a.map_values(|c: char| ascii_small(c))),
        same_ignoring_ascii_case(a, a.map_values(|c: char| ascii_capital(c))),
        forall|i: int|
            0 <= i < a.len() && 'A' <= #[trigger] a[i] <= 'Z' ==> ascii_small(a[i]) as int
                == a[i] as int + 32,
        forall|i: int|
            0 <= i < a.len() && 'a' <= #[trigger] a[i] <= 'z' ==> ascii_capital(a[i]) as int
                == a[i] as int - 32,
{
}

/// One more text is put behind the others.
pub proof fn lemma_concat_step(parts: Seq<Seq<char>>, n: int)
    requires
        0 <= n < parts.len(),
    ensures
        concat(parts.take(n + 1)) == concat(parts.take(n)) + parts[n],
        concat(parts.take(0)).len() == 0,
{
    assert(parts.take(n + 1).drop_last() =~= parts.take(n));
}

pub proof fn lemma_concat_three(a: Seq<char>, b: Seq<char>, c: Seq<char>)
    ensures
        concat(seq![a, b, c]) == a + b + c,
{
    let parts = seq![a, b, c];
    lemma_concat_step(parts, 0);
    lemma_concat_step(parts, 1);
    lemma_concat_step(parts, 2);
    assert(parts.take(3) =~= parts);
    assert(concat(parts.take(1)) =~= a);
}

/// Texts that are put together follow one another: those of two lists are those of the one and
/// then those of the other.
pub proof fn texts_follow_one_another(a: Seq<Seq<char>>, b: Seq<Seq<char>>)
    ensures
        concat(a + b) == concat(a) + concat(b),
    decreases b.len(),
{
    if b.len() == 0 {
        assert(a + b =~= a);
        assert(concat(a) + concat(b) =~= concat(a));
    } else {
        assert((a + b).drop_last() =~= a + b.drop_last());
        texts_follow_one_another(a, b.drop_last());
        assert(concat(a + b) =~= concat(a) + concat(b));
    }
}

/// The sets of characters hold what they are named after, and nothing else.
pub proof fn sets_hold_their_characters(c: char)
    ensures
        CharSet::Slash.has(c) <==> c == '/',
        CharSet::AnySlash.has(c) <==> c == '/' || c == '\\',
        CharSet::Nul.has(c) <==> c == '\0',
        CharSet::NameEdge.has(c) <==> c == '.' || c == ' ' || c == '_',
        CharSet::LineFeed.has(c) <==> c == '\n',
        CharSet::Tab.has(c) <==> c == '\t',
        CharSet::Dot.has(c) <==> c == '.',
        CharSet::LetterV.has(c) <==> c == 'v',
        CharSet::Space.has(c) <==> c == ' ' || '\t' <= c <= '\r' || c == '\u{85}' || c == '\u{a0}'
            || c == '\u{1680}' || '\u{2000}' <= c <= '\u{200a}' || c == '\u{2028}' || c
            == '\u{2029}' || c == '\u{202f}' || c == '\u{205f}' || c == '\u{3000}',
{
}

} // verus!
